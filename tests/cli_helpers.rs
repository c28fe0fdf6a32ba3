use term_clipboard::mime::{is_text, trim_trailing_newline};
use term_clipboard::version::format_version;

#[test]
fn text_mime_types() {
    assert!(is_text("TEXT"));
    assert!(is_text("STRING"));
    assert!(is_text("UTF8_STRING"));
    assert!(is_text("text/plain"));
    assert!(is_text("application/json"));
    assert!(is_text("application/ld+json"));
    assert!(is_text("application/javascript"));
    assert!(is_text("application/xml"));
    assert!(is_text("application/x-yaml"));
    assert!(is_text("text/csv"));
    assert!(is_text("application/x-ini"));
}

#[test]
fn non_text_mime_types() {
    assert!(!is_text("image/png"));
    assert!(!is_text("application/octet-stream"));
    assert!(!is_text("text"));
    assert!(!is_text("TEXTS"));
    assert!(!is_text(""));
    assert!(!is_text("application/xml+zip"));
}

#[test]
fn version_without_major() {
    assert_eq!(format_version("1.4.2"), Some("4.2"));
    assert_eq!(format_version("0.1.0"), Some("1.0"));
    assert_eq!(format_version("12.3"), Some("3"));
}

#[test]
fn version_without_minor() {
    assert_eq!(format_version("1"), None);
    assert_eq!(format_version("1."), None);
    assert_eq!(format_version("1..2"), None);
    assert_eq!(format_version(""), None);
    assert_eq!(format_version("1.é"), None);
}

#[test]
fn trim_newline_only_for_text() {
    let mut data = b"hi\n".to_vec();
    trim_trailing_newline(&mut data, true, Some("text/plain"));
    assert_eq!(data, b"hi".to_vec());

    let mut data = b"hi\n".to_vec();
    trim_trailing_newline(&mut data, true, Some("image/png"));
    assert_eq!(data, b"hi\n".to_vec());

    let mut data = b"hi\n".to_vec();
    trim_trailing_newline(&mut data, false, Some("text/plain"));
    assert_eq!(data, b"hi\n".to_vec());

    let mut data = b"hi\n".to_vec();
    trim_trailing_newline(&mut data, true, None);
    assert_eq!(data, b"hi\n".to_vec());

    let mut data = b"hi\n\n".to_vec();
    trim_trailing_newline(&mut data, true, Some("TEXT"));
    assert_eq!(data, b"hi\n".to_vec());

    let mut data = Vec::new();
    trim_trailing_newline(&mut data, true, Some("TEXT"));
    assert!(data.is_empty());
}
