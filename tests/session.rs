use term_clipboard::session::SessionAttrs;

#[test]
fn raw_then_restore_gives_original() {
    let mut s = SessionAttrs::new(0o1234u32);
    assert_eq!(s.applied(), 0o1234);
    assert!(!s.is_raw());
    assert_eq!(s.set_raw_mode(7), 7);
    assert!(s.is_raw());
    assert_eq!(s.applied(), 7);
    assert_eq!(s.original(), 0o1234);
    assert_eq!(s.restore_attrs(), 0o1234);
    assert_eq!(s.applied(), 0o1234);
    assert!(!s.is_raw());
}

#[test]
fn restore_twice() {
    let mut s = SessionAttrs::new((1u8, 2u8));
    s.set_raw_mode((9, 9));
    assert_eq!(s.restore_attrs(), (1, 2));
    assert_eq!(s.restore_attrs(), (1, 2));
    assert_eq!(s.applied(), (1, 2));
}
