use mboxviewer::AppError;

#[test]
fn not_found_displays_message() {
    let err = AppError::NotFound("email 42".to_string());
    assert_eq!(err.message(), "Not found: email 42");
}

#[test]
fn validation_displays_message() {
    let err = AppError::Validation("path is empty".to_string());
    assert_eq!(err.message(), "Validation error: path is empty");
}

#[test]
fn mbox_shell_displays_message() {
    let err = AppError::MboxShell("index corrupt".to_string());
    assert_eq!(err.message(), "MBOX error: index corrupt");
}

#[test]
fn io_displays_message() {
    let err = AppError::Io("file missing".to_string());
    assert_eq!(err.message(), "IO error: file missing");
}
