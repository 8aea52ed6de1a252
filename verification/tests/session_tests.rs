use mboxviewer::MboxService;

#[test]
fn new_has_no_mbox_path() {
    let service = MboxService::new();
    assert!(service.mbox_path().is_none());
}

#[test]
fn new_has_empty_entries() {
    let service = MboxService::new();
    assert!(service.entries().is_empty());
}

#[test]
fn new_has_no_store() {
    let service = MboxService::new();
    assert!(service.store().is_none());
}

#[test]
fn default_is_equivalent_to_new() {
    let service = MboxService::default();
    assert!(service.mbox_path().is_none());
    assert!(service.entries().is_empty());
    assert!(service.store().is_none());
}

#[test]
fn get_email_count_returns_zero_when_no_file_open() {
    let service = MboxService::new();
    assert_eq!(service.get_email_count(), 0);
}

#[test]
fn get_emails_returns_validation_error_when_no_file_open() {
    let service = MboxService::new();
    let result = service.get_emails(0, 10);
    assert!(result.is_err());
    assert_eq!(
        result.unwrap_err().message(),
        "Validation error: No MBOX file is currently open"
    );
}

#[test]
fn get_email_body_returns_validation_error_when_no_file_open() {
    let service = MboxService::new();
    let result = service.get_email_body(0);
    assert!(result.is_err());
    assert_eq!(
        result.unwrap_err().message(),
        "Validation error: No MBOX file is currently open"
    );
}

#[test]
fn get_email_body_returns_not_found_for_out_of_bounds_index() {
    let service = MboxService::new();
    let result = service.get_email_body(5);
    assert!(result.is_err());
}

#[test]
fn get_labels_returns_empty_when_no_file_open() {
    let service = MboxService::new();
    let labels = service.get_labels();
    assert!(labels.is_empty());
}

#[test]
fn get_emails_by_label_returns_validation_error_when_no_file_open() {
    let service = MboxService::new();
    let result = service.get_emails_by_label("Inbox");
    assert!(result.is_err());
    assert_eq!(
        result.unwrap_err().message(),
        "Validation error: No MBOX file is currently open"
    );
}

#[test]
fn search_returns_validation_error_when_no_file_open() {
    let service = MboxService::new();
    let result = service.search("test", None);
    assert!(result.is_err());
    assert_eq!(
        result.unwrap_err().message(),
        "Validation error: No MBOX file is currently open"
    );
}

#[test]
fn close_is_idempotent() {
    let mut service = MboxService::new();
    let data = b"From a@b Mon Jan  1 00:00:00 2024\nSubject: hi\n\nbody\n".to_vec();
    service.open("test.mbox", data).unwrap();
    assert_eq!(service.get_email_count(), 1);
    service.close();
    assert_eq!(service.get_email_count(), 0);
    assert!(service.mbox_path().is_none());
    service.close();
    assert_eq!(service.get_email_count(), 0);
    assert!(service.store().is_none());
}

#[test]
fn open_replaces_prior_state() {
    let mut service = MboxService::new();
    let one = b"From a@b Mon Jan  1 00:00:00 2024\nSubject: one\n\nbody\n".to_vec();
    let two = b"From a@b Mon Jan  1 00:00:00 2024\nSubject: two\n\nx\n\nFrom c@d Mon Jan  1 00:00:00 2024\nSubject: three\n\ny\n".to_vec();
    service.open("one.mbox", one).unwrap();
    assert_eq!(service.get_email_count(), 1);
    service.open("two.mbox", two).unwrap();
    assert_eq!(service.get_email_count(), 2);
    let page = service.get_emails(0, 10).unwrap();
    assert_eq!(page[0].subject, "two");
    assert_eq!(page[1].subject, "three");
}

#[test]
fn open_empty_file_yields_no_messages() {
    let mut service = MboxService::new();
    let stats = service.open("empty.mbox", Vec::new()).unwrap();
    assert_eq!(stats.total_messages, 0);
    assert_eq!(stats.total_with_attachments, 0);
    assert!(stats.labels.is_empty());
    assert_eq!(service.get_email_count(), 0);
    let page = service.get_emails(0, 10).unwrap();
    assert!(page.is_empty());
}
