use news_core::cursor::{decode_cursor, encode_cursor};

#[test]
fn cursor_roundtrip() {
    let c = encode_cursor(1700000000123, "abc-def");
    let (ts, id) = decode_cursor(&c).expect("own cursor should decode");
    assert_eq!(ts, 1700000000123);
    assert_eq!(id, "abc-def");
}

#[test]
fn cursor_roundtrip_extremes() {
    let c = encode_cursor(0, "");
    assert_eq!(decode_cursor(&c), Some((0, String::new())));
    let c = encode_cursor(u64::MAX, "x");
    assert_eq!(decode_cursor(&c), Some((u64::MAX, "x".to_string())));
}

#[test]
fn cursor_is_opaque() {
    let c = encode_cursor(42, "some-id");
    assert!(!c.contains("some-id"));
    assert!(!c.contains('\n'));
}

#[test]
fn malformed_cursors_decode_to_none() {
    // not base64 at all
    assert_eq!(decode_cursor("@@@"), None);
    // valid base64 of text without a newline
    assert_eq!(decode_cursor("aGVsbG8"), None);
    // valid base64, newline but no digits before it: "\nid"
    assert_eq!(decode_cursor("Cmlk"), None);
    // valid base64, non-digits before the newline: "ab\ncd"
    assert_eq!(decode_cursor("YWIKY2Q"), None);
    // the empty string
    assert_eq!(decode_cursor(""), None);
}

#[test]
fn cursor_value_overflow_decodes_to_none() {
    // base64 of "99999999999999999999999\nx": far beyond any timestamp
    assert_eq!(decode_cursor("OTk5OTk5OTk5OTk5OTk5OTk5OTk5OTkKeA"), None);
}
