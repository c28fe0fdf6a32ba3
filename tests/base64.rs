use term_clipboard::base64::{decode, decode_bytes, encode, encode_bytes, Base64DecodeError};

#[test]
fn encode_fixed_vectors() {
    assert_eq!(encode(b"").unwrap(), "");
    assert_eq!(encode(b"f").unwrap(), "Zg==");
    assert_eq!(encode(b"fo").unwrap(), "Zm8=");
    assert_eq!(encode(b"foo").unwrap(), "Zm9v");
    assert_eq!(encode(b"foob").unwrap(), "Zm9vYg==");
    assert_eq!(encode(b"fooba").unwrap(), "Zm9vYmE=");
    assert_eq!(encode(b"foobar").unwrap(), "Zm9vYmFy");
    assert_eq!(encode(b"hello").unwrap(), "aGVsbG8=");
}

#[test]
fn encode_uses_whole_alphabet() {
    assert_eq!(encode(&[0xfb, 0xff, 0xbf]).unwrap(), "+/+/");
    assert_eq!(encode(&[0, 0, 0]).unwrap(), "AAAA");
    assert_eq!(encode_bytes(&[0xff]).unwrap(), b"/w==".to_vec());
}

#[test]
fn decode_fixed_vectors() {
    assert_eq!(decode("Zm9vYmFy").unwrap(), b"foobar".to_vec());
    assert_eq!(decode("").unwrap(), Vec::<u8>::new());
    assert_eq!(decode("Zg==").unwrap(), b"f".to_vec());
    assert_eq!(decode("Zm8=").unwrap(), b"fo".to_vec());
    assert_eq!(decode("+/+/").unwrap(), vec![0xfb, 0xff, 0xbf]);
}

#[test]
fn decode_rejects_bad_length() {
    assert_eq!(decode("QQ"), Err(Base64DecodeError::InvalidLength));
    assert_eq!(decode("Zm9vY"), Err(Base64DecodeError::InvalidLength));
    assert_eq!(decode("A"), Err(Base64DecodeError::InvalidLength));
}

#[test]
fn decode_rejects_padding_in_second_position() {
    assert_eq!(decode("A==="), Err(Base64DecodeError::InvalidPadding));
}

#[test]
fn decode_rejects_all_padding() {
    assert_eq!(decode("===="), Err(Base64DecodeError::InvalidPadding));
}

#[test]
fn decode_rejects_bad_character() {
    assert_eq!(decode("Zg!="), Err(Base64DecodeError::InvalidCharacter('!')));
    assert_eq!(decode("Zm9v Zg=="), Err(Base64DecodeError::InvalidLength));
    assert_eq!(decode("Zm9-"), Err(Base64DecodeError::InvalidCharacter('-')));
}

#[test]
fn decode_rejects_misplaced_padding() {
    assert_eq!(decode("Zg==Zg=="), Err(Base64DecodeError::InvalidPadding));
    assert_eq!(decode("Zm8=Zm9v"), Err(Base64DecodeError::InvalidPadding));
    assert_eq!(decode("Zm=v"), Err(Base64DecodeError::InvalidPadding));
}

#[test]
fn decode_reports_first_error_in_order() {
    // A bad character in the group is reported before the padding.
    assert_eq!(decode("=!AA"), Err(Base64DecodeError::InvalidCharacter('!')));
    assert_eq!(decode_bytes(&[b'Z', b'g', 0xc3, b'=']), Err(Base64DecodeError::InvalidCharacter('\u{c3}')));
}

#[test]
fn round_trip_all_bytes_and_lengths() {
    let all: Vec<u8> = (0..=255u8).collect();
    for n in 0..all.len() {
        let data = &all[..n];
        let text = encode(data).unwrap();
        assert_eq!(text.len(), (n + 2) / 3 * 4);
        assert_eq!(decode(&text).unwrap(), data.to_vec());
    }
}
