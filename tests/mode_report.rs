use term_clipboard::mode_report::{find_mode_report, mode_query, mode_report, parse_u32, ModeReportError};

#[test]
fn query_bytes() {
    assert_eq!(mode_query(), b"\x1B[?5522$p".to_vec());
}

#[test]
fn report_codes() {
    assert_eq!(mode_report(b"\x1B[?5522;1$y"), Some(Ok(true)));
    assert_eq!(mode_report(b"\x1B[?5522;2$y"), Some(Ok(true)));
    assert_eq!(mode_report(b"\x1B[?5522;0$y"), Some(Ok(false)));
    assert_eq!(mode_report(b"junk\x1B[?5522;4$y"), Some(Ok(false)));
}

#[test]
fn report_incomplete_or_absent() {
    assert_eq!(mode_report(b"\x1B[?5522;1$"), None);
    assert_eq!(mode_report(b"\x1B[?5522;1\n$y"), None);
    assert_eq!(mode_report(b""), None);
}

#[test]
fn report_code_not_a_number() {
    assert_eq!(mode_report(b"\x1B[?5522;x$y"), Some(Err(ModeReportError::CodeNotANumber)));
    assert_eq!(mode_report(b"\x1B[?5522;$y"), Some(Err(ModeReportError::CodeNotANumber)));
}

#[test]
fn report_takes_last_tail_on_line() {
    assert_eq!(find_mode_report(b"\x1B[?5522;1$y2$y\n3$y"), Some((8, 12)));
    assert_eq!(mode_report(b"\x1B[?5522;1$y2$y"), Some(Err(ModeReportError::CodeNotANumber)));
}

#[test]
fn decimal_codes() {
    assert_eq!(parse_u32(b"0"), Some(0));
    assert_eq!(parse_u32(b"+12"), Some(12));
    assert_eq!(parse_u32(b"4294967295"), Some(u32::MAX));
    assert_eq!(parse_u32(b"4294967296"), None);
    assert_eq!(parse_u32(b"+"), None);
    assert_eq!(parse_u32(b"-1"), None);
    assert_eq!(parse_u32(b""), None);
    assert_eq!(parse_u32(b"1a"), None);
}
