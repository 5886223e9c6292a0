use sixtyfps_corelib::{InvalidText, SharedString};

#[test]
fn simple_test() {
    let x = SharedString::from("hello world!");
    assert_eq!(x.as_str(), "hello world!");
    assert_ne!(x.as_str(), "hello world?");
    assert!(x == x.clone());
    assert_eq!("hello world!", x.as_str());
    let string = String::from("hello world!");
    assert_eq!(x.as_str(), string);
    let def = SharedString::default();
    assert!(def == SharedString::default());
    assert!(def != x);
    assert_eq!(x.as_bytes_with_nul(), b"hello world!\0");
}

#[test]
fn round_trip_keeps_text() {
    for s in ["", "a", "hello", "grüße, 世界 🎉", "tab\tand\nnewline"] {
        let v = SharedString::from(s);
        assert_eq!(v.as_str(), s);
        assert_eq!(v.len(), s.len());
        assert_eq!(v.as_bytes(), s.as_bytes());
    }
}

#[test]
fn clone_compares_equal() {
    let a = SharedString::from("shared");
    let b = a.clone();
    assert!(a == b);
    drop(a);
    assert_eq!(b.as_str(), "shared");
}

#[test]
fn defaults_are_empty_and_equal() {
    let a = SharedString::default();
    let b = SharedString::new();
    assert!(a == b);
    assert_eq!(a.len(), 0);
    assert_eq!(a.as_str(), "");
    assert!(a == SharedString::from(""));
}

#[test]
fn terminator_follows_text() {
    for s in ["", "x", "1234567", "12345678", "123456789"] {
        let v = SharedString::from(s);
        let c = v.as_bytes_with_nul();
        assert_eq!(c.len(), s.len() + 1);
        assert_eq!(c[s.len()], 0);
        assert_eq!(&c[..s.len()], s.as_bytes());
    }
}

#[test]
fn unequal_lengths_differ() {
    assert!(SharedString::from("abc") != SharedString::from("abcd"));
    assert!(SharedString::from("abd") != SharedString::from("abc"));
}

#[test]
fn from_bytes_accepts_valid_text() {
    let v = SharedString::from_bytes("héllo".as_bytes()).unwrap();
    assert_eq!(v.as_str(), "héllo");
    let e = SharedString::from_bytes(b"").unwrap();
    assert_eq!(e.len(), 0);
}

#[test]
fn from_bytes_rejects_invalid_utf8() {
    assert!(matches!(SharedString::from_bytes(&[0x66, 0xff, 0x66]), Err(InvalidText {})));
    assert!(matches!(SharedString::from_bytes(&[0xc3]), Err(InvalidText {})));
}

#[test]
fn from_bytes_rejects_zero_byte() {
    assert!(matches!(SharedString::from_bytes(b"ab\0cd"), Err(InvalidText {})));
}
