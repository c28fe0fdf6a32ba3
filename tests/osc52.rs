use term_clipboard::base64::Base64DecodeError;
use term_clipboard::osc52::{find_reply, query_frame, reply_content, write_frame, ReplyScanner};

#[test]
fn write_frame_hello() {
    assert_eq!(write_frame(b"hello").unwrap(), b"\x1B]52;;aGVsbG8=\x1B\\".to_vec());
}

#[test]
fn write_frame_empty_clears() {
    assert_eq!(write_frame(b"").unwrap(), b"\x1B]52;;\x1B\\".to_vec());
}

#[test]
fn query_frame_bytes() {
    assert_eq!(query_frame(), b"\x1B]52;;?\x1B\\".to_vec());
}

#[test]
fn reply_with_bel_terminator() {
    let mut scanner = ReplyScanner::new();
    let r = scanner.feed(b"\x1B]52;c;aGVsbG8=\x07");
    assert_eq!(r, Some(Ok(b"hello".to_vec())));
}

#[test]
fn reply_with_st_terminator_and_no_selector() {
    assert_eq!(reply_content(b"\x1B]52;;aGVsbG8=\x1B\\"), Some(Ok(b"hello".to_vec())));
}

#[test]
fn reply_split_across_reads() {
    let mut scanner = ReplyScanner::new();
    assert_eq!(scanner.feed(b"\x1B]5"), None);
    assert_eq!(scanner.feed(b"2;c;aGV"), None);
    assert_eq!(scanner.feed(b"sbG8"), None);
    assert_eq!(scanner.feed(b"="), None);
    assert_eq!(scanner.feed(b"\x1B\\"), Some(Ok(b"hello".to_vec())));
    assert_eq!(scanner.received(), b"\x1B]52;c;aGVsbG8=\x1B\\");
}

#[test]
fn reply_every_split_point() {
    let stream: &[u8] = b"noise\x1B]52;c;Zm9vYmFy\x07\x1B]52;c;aGVsbG8=\x07";
    for cut in 0..=stream.len() {
        let mut scanner = ReplyScanner::new();
        let first = scanner.feed(&stream[..cut]);
        let second = scanner.feed(&stream[cut..]);
        let expected = Some(Ok(b"foobar".to_vec()));
        if first.is_some() {
            assert_eq!(first, expected);
        }
        assert_eq!(second, expected);
    }
}

#[test]
fn reply_incomplete_is_none() {
    assert_eq!(reply_content(b"\x1B]52;c;aGVsbG8="), None);
    assert_eq!(reply_content(b"\x1B]52;c"), None);
    assert_eq!(reply_content(b""), None);
    assert_eq!(find_reply(b"\x1B]52;cc;aGVs\x07"), None);
}

#[test]
fn reply_span_and_empty_payload() {
    assert_eq!(find_reply(b"xx\x1B]52;c;aGVs\x07"), Some((9, 13)));
    assert_eq!(reply_content(b"\x1B]52;c;\x07"), Some(Ok(Vec::new())));
}

#[test]
fn reply_with_bad_base64() {
    assert_eq!(
        reply_content(b"\x1B]52;c;A===\x07"),
        Some(Err(Base64DecodeError::InvalidPadding))
    );
    assert_eq!(
        reply_content(b"\x1B]52;c;QQ\x07"),
        Some(Err(Base64DecodeError::InvalidLength))
    );
}

#[test]
fn write_frame_reads_back() {
    for data in [&b""[..], b"x", b"hello", b"\x00\xff\x1b\x07 clipboard"] {
        let frame = write_frame(data).unwrap();
        assert_eq!(reply_content(&frame), Some(Ok(data.to_vec())));
    }
}
