use os_str_bytes::common::convert;
use os_str_bytes::EncodingError;

const INVALID_STRING: &[u8] = b"\xF1foo\xF1\x80bar\xF1\x80\x80baz";

fn check_bytes(string: &[u8]) -> Result<(), EncodingError> {
    let os_string = convert::os_str_from_bytes(string)?;
    assert_eq!(string.len(), os_string.len());
    assert_eq!(string, convert::os_str_to_bytes(os_string));
    Ok(())
}

fn check_vec(string: &[u8]) -> Result<(), EncodingError> {
    let os_string = convert::os_string_from_vec(string.to_vec())?;
    assert_eq!(string.len(), os_string.len());
    assert_eq!(string, convert::os_string_into_vec(os_string).as_slice());
    Ok(())
}

#[test]
fn unix_test_invalid_bytes() -> Result<(), EncodingError> {
    check_bytes(INVALID_STRING)
}

#[test]
fn unix_test_invalid_vec() -> Result<(), EncodingError> {
    check_vec(INVALID_STRING)
}
