use os_str_bytes::windows::convert;

const INVALID_STRING: &[u8] = b"\xF1foo\xF1\x80bar\xF1\x80\x80baz";

#[test]
fn windows_test_invalid_bytes() {
    assert!(convert::os_str_from_bytes(INVALID_STRING).is_err());
    assert!(convert::from_bytes(INVALID_STRING).is_err());
}

#[test]
fn windows_test_invalid_vec() {
    assert!(convert::os_string_from_vec(INVALID_STRING.to_vec()).is_err());
}
