use mboxviewer::MboxService;

fn three_messages() -> Vec<u8> {
    let text = "From alice@example.com Wed Jan  3 10:00:00 2024\n\
From: Alice Example <alice@example.com>\n\
To: Bob <bob@example.com>\n\
Subject: Third day\n\
Date: Wed, 3 Jan 2024 10:00:00 +0000\n\
X-Gmail-Labels: Inbox,Important\n\
\n\
Happy new year, third day.\n\
\n\
From bob@example.com Mon Jan  1 08:00:00 2024\n\
From: Bob <bob@example.com>\n\
To: Alice Example <alice@example.com>\n\
Subject: First day\n\
Date: Mon, 1 Jan 2024 08:00:00 +0000\n\
X-Gmail-Labels: Inbox\n\
\n\
Happy new year.\n\
\n\
From carol@example.com Tue Jan  2 09:30:00 2024\n\
From: Carol <carol@example.com>\n\
To: Alice Example <alice@example.com>\n\
Cc: Bob <bob@example.com>\n\
Subject: Second day\n\
Date: Tue, 2 Jan 2024 09:30:00 +0000\n\
X-Gmail-Labels: Archive\n\
\n\
Second day body mentions zebra.\n";
    text.as_bytes().to_vec()
}

fn attachment_message() -> Vec<u8> {
    let text = "From dave@example.com Thu Feb  1 12:00:00 2024\n\
From: Dave <dave@example.com>\n\
To: Alice Example <alice@example.com>\n\
Subject: Report attached\n\
Date: Thu, 1 Feb 2024 12:00:00 +0000\n\
Content-Type: multipart/mixed; boundary=\"XYZ\"\n\
\n\
--XYZ\n\
Content-Type: text/plain\n\
\n\
See the attached report.\n\
--XYZ\n\
Content-Type: application/pdf; name=\"report.pdf\"\n\
Content-Disposition: attachment; filename=\"report.pdf\"\n\
Content-Transfer-Encoding: base64\n\
\n\
SGVsbG8gUmVwb3J0IQ==\n\
--XYZ--\n";
    text.as_bytes().to_vec()
}

fn open_three() -> MboxService {
    let mut service = MboxService::new();
    service.open("three.mbox", three_messages()).unwrap();
    service
}

fn open_attachment() -> MboxService {
    let mut service = MboxService::new();
    service.open("report.mbox", attachment_message()).unwrap();
    service
}

#[test]
fn open_sorts_newest_first_and_renumbers() {
    let service = open_three();
    let page = service.get_emails(0, 3).unwrap();
    assert_eq!(page.len(), 3);
    assert_eq!(page[0].date, "2024-01-03T10:00:00+00:00");
    assert_eq!(page[1].date, "2024-01-02T09:30:00+00:00");
    assert_eq!(page[2].date, "2024-01-01T08:00:00+00:00");
    assert_eq!(page[0].index, 0);
    assert_eq!(page[1].index, 1);
    assert_eq!(page[2].index, 2);
    assert_eq!(page[0].subject, "Third day");
    assert_eq!(page[1].subject, "Second day");
    assert_eq!(page[2].subject, "First day");
}

#[test]
fn entries_parse_addresses() {
    let service = open_three();
    let page = service.get_emails(0, 1).unwrap();
    assert_eq!(page[0].from_name, "Alice Example");
    assert_eq!(page[0].from_address, "alice@example.com");
    assert_eq!(page[0].to.len(), 1);
    assert_eq!(page[0].to[0].name, "Bob");
    assert_eq!(page[0].to[0].address, "bob@example.com");
    let second = &service.get_emails(1, 1).unwrap()[0];
    assert_eq!(second.cc.len(), 1);
    assert_eq!(second.cc[0].address, "bob@example.com");
}

#[test]
fn pagination_clamps_to_total() {
    let service = open_three();
    assert_eq!(service.get_emails(0, 2).unwrap().len(), 2);
    assert_eq!(service.get_emails(1, 10).unwrap().len(), 2);
    assert_eq!(service.get_emails(2, 10).unwrap().len(), 1);
    assert_eq!(service.get_emails(0, 0).unwrap().len(), 0);
}

#[test]
fn pagination_past_end_is_empty() {
    let service = open_three();
    let page = service.get_emails(3, 5).unwrap();
    assert!(page.is_empty());
    let far = service.get_emails(100, 5).unwrap();
    assert!(far.is_empty());
}

#[test]
fn open_stats_describe_the_index() {
    let mut service = MboxService::new();
    let stats = service.open("three.mbox", three_messages()).unwrap();
    assert_eq!(stats.total_messages, 3);
    assert_eq!(stats.total_with_attachments, 0);
    assert_eq!(stats.labels.len(), 3);
    assert_eq!(stats.labels[0].label, "Inbox");
    assert_eq!(stats.labels[0].count, 2);
}

#[test]
fn get_labels_matches_open_stats() {
    let mut service = MboxService::new();
    let stats = service.open("three.mbox", three_messages()).unwrap();
    let labels = service.get_labels();
    assert_eq!(labels.len(), stats.labels.len());
    for (a, b) in labels.iter().zip(stats.labels.iter()) {
        assert_eq!(a.label, b.label);
        assert_eq!(a.count, b.count);
    }
}

#[test]
fn labels_sorted_by_count_then_first_seen() {
    let service = open_three();
    let labels = service.get_labels();
    assert_eq!(labels.len(), 3);
    assert_eq!(labels[0].label, "Inbox");
    assert_eq!(labels[0].count, 2);
    // ties keep first-occurrence order over the sorted index:
    // Important appears in the newest message, Archive in the next.
    assert_eq!(labels[1].label, "Important");
    assert_eq!(labels[1].count, 1);
    assert_eq!(labels[2].label, "Archive");
    assert_eq!(labels[2].count, 1);
}

#[test]
fn get_emails_by_label_is_case_insensitive() {
    let service = open_three();
    let hits = service.get_emails_by_label("inbox").unwrap();
    assert_eq!(hits.len(), 2);
    assert_eq!(hits[0].index, 0);
    assert_eq!(hits[1].index, 2);
    let none = service.get_emails_by_label("nonexistent").unwrap();
    assert!(none.is_empty());
}

#[test]
fn search_by_label_matches_manual_filter() {
    let service = open_three();
    let results = service.search("label:Inbox", None).unwrap();
    let manual: Vec<usize> = service
        .get_emails(0, 3)
        .unwrap()
        .iter()
        .filter(|e| e.labels.iter().any(|l| l.eq_ignore_ascii_case("Inbox")))
        .map(|e| e.index)
        .collect();
    let found: Vec<usize> = results.emails.iter().map(|e| e.index).collect();
    assert_eq!(found, manual);
    assert_eq!(results.total_count, 2);
}

#[test]
fn search_total_count_ignores_limit() {
    let service = open_three();
    let all = service.search("label:inbox", None).unwrap();
    let one = service.search("label:inbox", Some(1)).unwrap();
    assert_eq!(all.total_count, one.total_count);
    assert_eq!(all.emails.len(), 2);
    assert_eq!(one.emails.len(), 1);
}

#[test]
fn search_free_text_reads_bodies() {
    let service = open_three();
    let results = service.search("zebra", None).unwrap();
    assert_eq!(results.total_count, 1);
    assert_eq!(results.emails[0].subject, "Second day");
}

#[test]
fn search_by_subject_and_date_terms() {
    let service = open_three();
    let by_subject = service.search("subject:first", None).unwrap();
    assert_eq!(by_subject.total_count, 1);
    assert_eq!(by_subject.emails[0].index, 2);
    let after = service.search("after:2024-01-02", None).unwrap();
    assert_eq!(after.total_count, 2);
    let before = service.search("before:2024-01-02", None).unwrap();
    assert_eq!(before.total_count, 1);
}

#[test]
fn search_unknown_field_is_syntax_error() {
    let service = open_three();
    let result = service.search("foo:bar", None);
    assert!(result.is_err());
    assert_eq!(
        result.unwrap_err().message(),
        "MBOX error: invalid search query"
    );
}

#[test]
fn invalid_email_index_message() {
    let service = open_three();
    let result = service.get_email_body(99);
    assert_eq!(
        result.unwrap_err().message(),
        "Validation error: Invalid email index: 99"
    );
}

#[test]
fn attachment_roundtrip_size() {
    let service = open_attachment();
    let body = service.get_email_body(0).unwrap();
    assert_eq!(body.attachments.len(), 1);
    let reported = body.attachments[0].size;
    let bytes = service.get_attachment(0, 0).unwrap();
    assert_eq!(bytes.len() as u64, reported);
}

#[test]
fn attachment_bytes_decode_base64() {
    let service = open_attachment();
    let bytes = service.get_attachment(0, 0).unwrap();
    assert_eq!(bytes, b"Hello Report!".to_vec());
}

#[test]
fn attachment_metadata_is_reported() {
    let service = open_attachment();
    let body = service.get_email_body(0).unwrap();
    let att = &body.attachments[0];
    assert_eq!(att.filename, "report.pdf");
    assert_eq!(att.content_type, "application/pdf");
    assert_eq!(att.part_index, 0);
    assert_eq!(att.size, 13);
}

#[test]
fn invalid_attachment_index_message() {
    let service = open_attachment();
    let result = service.get_attachment(0, 5);
    assert_eq!(
        result.unwrap_err().message(),
        "Validation error: Invalid attachment index: 5"
    );
}

#[test]
fn has_attachments_flag_set() {
    let mut service = MboxService::new();
    let stats = service.open("report.mbox", attachment_message()).unwrap();
    assert_eq!(stats.total_with_attachments, 1);
    let page = service.get_emails(0, 1).unwrap();
    assert!(page[0].has_attachments);
}

#[test]
fn multipart_text_part_is_inline() {
    let service = open_attachment();
    let body = service.get_email_body(0).unwrap();
    assert_eq!(body.text.as_deref(), Some("See the attached report."));
    assert!(body.html.is_none());
}

#[test]
fn raw_headers_contain_subject_line() {
    let service = open_attachment();
    let body = service.get_email_body(0).unwrap();
    assert!(body.raw_headers.contains("Subject: Report attached"));
    assert!(body.raw_headers.contains("From: Dave <dave@example.com>"));
}

#[test]
fn quoted_printable_body_decodes() {
    let text = "From eve@example.com Fri Mar  1 09:00:00 2024\n\
Subject: Coffee\n\
Date: Fri, 1 Mar 2024 09:00:00 +0000\n\
Content-Transfer-Encoding: quoted-printable\n\
\n\
Caf=C3=A9 time\n";
    let mut service = MboxService::new();
    service.open("qp.mbox", text.as_bytes().to_vec()).unwrap();
    let body = service.get_email_body(0).unwrap();
    assert_eq!(body.text.as_deref(), Some("Caf\u{e9} time\n"));
}

#[test]
fn html_only_message_has_html_body() {
    let text = "From eve@example.com Fri Mar  1 09:00:00 2024\n\
Subject: Page\n\
Date: Fri, 1 Mar 2024 09:00:00 +0000\n\
Content-Type: text/html\n\
\n\
<p>hello</p>\n";
    let mut service = MboxService::new();
    service.open("html.mbox", text.as_bytes().to_vec()).unwrap();
    let body = service.get_email_body(0).unwrap();
    assert!(body.text.is_none());
    assert_eq!(body.html.as_deref(), Some("<p>hello</p>\n"));
}

#[test]
fn missing_date_falls_back_to_epoch() {
    let text = "From a@b Mon Jan  1 00:00:00 2024\n\
Subject: Dateless\n\
\n\
body\n\
\n\
From c@d Mon Jan  1 00:00:00 2024\n\
Subject: Dated\n\
Date: Mon, 1 Jan 2024 08:00:00 +0000\n\
\n\
body\n";
    let mut service = MboxService::new();
    service.open("x.mbox", text.as_bytes().to_vec()).unwrap();
    let page = service.get_emails(0, 2).unwrap();
    assert_eq!(page[0].subject, "Dated");
    assert_eq!(page[1].subject, "Dateless");
    assert_eq!(page[1].date, "1970-01-01T00:00:00+00:00");
}

#[test]
fn negative_zone_renders_in_rfc3339() {
    let text = "From a@b Wed Jan  3 10:00:00 2024\n\
Subject: Zoned\n\
Date: Wed, 3 Jan 2024 10:00:00 -0530\n\
\n\
body\n";
    let mut service = MboxService::new();
    service.open("z.mbox", text.as_bytes().to_vec()).unwrap();
    let page = service.get_emails(0, 1).unwrap();
    assert_eq!(page[0].date, "2024-01-03T10:00:00-05:30");
}

#[test]
fn quoted_from_line_is_not_boundary() {
    let text = "From a@b Mon Jan  1 00:00:00 2024\n\
Subject: One message\n\
\n\
first line\n\
\n\
>From quoted text stays inside\n\
From the middle of a paragraph\n";
    let mut service = MboxService::new();
    service.open("q.mbox", text.as_bytes().to_vec()).unwrap();
    assert_eq!(service.get_email_count(), 1);
}

#[test]
fn crlf_messages_parse() {
    let text = "From a@b Mon Jan  1 00:00:00 2024\r\n\
Subject: Carriage\r\n\
Date: Mon, 1 Jan 2024 08:00:00 +0000\r\n\
\r\n\
windows body\r\n";
    let mut service = MboxService::new();
    service.open("crlf.mbox", text.as_bytes().to_vec()).unwrap();
    let page = service.get_emails(0, 1).unwrap();
    assert_eq!(page[0].subject, "Carriage");
    assert_eq!(page[0].date, "2024-01-01T08:00:00+00:00");
}

#[test]
fn folded_subject_unfolds() {
    let lines = [
        "From a@b Mon Jan  1 00:00:00 2024",
        "Subject: A subject",
        " split over lines",
        "Date: Mon, 1 Jan 2024 08:00:00 +0000",
        "",
        "body",
        "",
    ];
    let text = lines.join("\n");
    let mut service = MboxService::new();
    service.open("fold.mbox", text.as_bytes().to_vec()).unwrap();
    let page = service.get_emails(0, 1).unwrap();
    assert_eq!(page[0].subject, "A subject split over lines");
}

#[test]
fn non_utf8_subject_is_replaced() {
    let mut data = b"From a@b Mon Jan  1 00:00:00 2024\nSubject: caf".to_vec();
    data.push(0xff);
    data.extend_from_slice(b"\n\nbody\n");
    let mut service = MboxService::new();
    service.open("bin.mbox", data).unwrap();
    let page = service.get_emails(0, 1).unwrap();
    assert_eq!(page[0].subject, "caf\u{fffd}");
}

#[test]
fn date_ties_keep_file_order() {
    let text = "From a@b Mon Jan  1 08:00:00 2024\n\
Subject: Tie one\n\
Date: Mon, 1 Jan 2024 08:00:00 +0000\n\
\n\
x\n\
\n\
From c@d Mon Jan  1 08:00:00 2024\n\
Subject: Tie two\n\
Date: Mon, 1 Jan 2024 08:00:00 +0000\n\
\n\
y\n";
    let mut service = MboxService::new();
    service.open("tie.mbox", text.as_bytes().to_vec()).unwrap();
    let page = service.get_emails(0, 2).unwrap();
    assert_eq!(page[0].subject, "Tie one");
    assert_eq!(page[1].subject, "Tie two");
}

#[test]
fn search_has_attachment_term() {
    let service = open_attachment();
    let with = service.search("has:attachment", None).unwrap();
    assert_eq!(with.total_count, 1);
    let plain = open_three();
    let none = plain.search("has:attachment", None).unwrap();
    assert_eq!(none.total_count, 0);
}

#[test]
fn search_empty_query_matches_all() {
    let service = open_three();
    let results = service.search("", None).unwrap();
    assert_eq!(results.total_count, 3);
    assert_eq!(results.emails.len(), 3);
}

#[test]
fn search_terms_are_conjunctive() {
    let service = open_three();
    let results = service.search("label:inbox subject:first", None).unwrap();
    assert_eq!(results.total_count, 1);
    assert_eq!(results.emails[0].subject, "First day");
}

#[test]
fn entry_byte_ranges_cover_the_file() {
    let service = open_three();
    let page = service.get_emails(0, 3).unwrap();
    let mut offsets: Vec<(u64, u64)> = page.iter().map(|e| (e.offset, e.length)).collect();
    offsets.sort();
    assert_eq!(offsets[0].0, 0);
    let total: u64 = three_messages().len() as u64;
    assert_eq!(offsets[2].0 + offsets[2].1, total);
    assert_eq!(offsets[0].0 + offsets[0].1, offsets[1].0);
    assert_eq!(offsets[1].0 + offsets[1].1, offsets[2].0);
}
