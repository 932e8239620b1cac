use os_str_bytes::imp::convert;
use os_str_bytes::wasm::convert as text;
use os_str_bytes::windows;
use os_str_bytes::EncodingError;

const WTF8_STRING: &[u8] = b"foo\xED\xA0\xBD\xF0\x9F\x92\xA9bar";

fn from_bytes(string: &[u8]) -> Result<&[u8], EncodingError> {
    convert::os_str_from_bytes(string)
}

fn from_vec(string: Vec<u8>) -> Result<Vec<u8>, EncodingError> {
    convert::os_string_from_vec(string)
}

fn check_bytes(string: &[u8]) -> Result<(), EncodingError> {
    let os_string = from_bytes(string)?;
    assert_eq!(string.len(), os_string.len());
    assert_eq!(string, convert::os_str_to_bytes(os_string));
    Ok(())
}

fn check_vec(string: &[u8]) -> Result<(), EncodingError> {
    let os_string = from_vec(string.to_owned())?;
    assert_eq!(string.len(), os_string.len());
    assert_eq!(string, convert::os_string_into_vec(os_string));
    Ok(())
}

fn check_utf8_bytes(string: &str) {
    let os_string = string.as_bytes();
    let string = string.as_bytes();
    assert_eq!(Ok(os_string), from_bytes(string));
    assert_eq!(string, convert::os_str_to_bytes(os_string));
}

fn check_utf8_vec(string: &str) {
    let os_string = string.to_owned().into_bytes();
    let string = string.as_bytes();
    assert_eq!(Ok(&os_string), from_vec(string.to_owned()).as_ref());
    assert_eq!(string, convert::os_string_into_vec(os_string));
}

fn check_wide_bytes(string: &[u8]) -> Result<(), EncodingError> {
    let wide = windows::convert::os_str_from_bytes(string)?;
    assert_eq!(string, &windows::convert::os_str_to_bytes(&wide)[..]);
    let owned = windows::convert::os_string_from_vec(string.to_vec())?;
    assert_eq!(wide, owned);
    assert_eq!(string, &windows::convert::os_string_into_vec(owned)[..]);
    Ok(())
}

fn assert_string_is_invalid_utf8(string: &[u8]) {
    assert!(std::str::from_utf8(string).is_err());
}

#[test]
fn integration_test_empty() {
    check_utf8_bytes("");
    check_utf8_vec("");
    assert_eq!(Ok(()), check_wide_bytes(b""));
}

#[test]
fn test_nonempty_utf8() {
    const UTF8_STRING: &str = "string";

    check_utf8_bytes(UTF8_STRING);
    check_utf8_vec(UTF8_STRING);
    assert_eq!(Ok(()), check_wide_bytes(UTF8_STRING.as_bytes()));
    assert_eq!(
        Ok("string".encode_utf16().collect::<Vec<u16>>()),
        windows::convert::from_bytes(UTF8_STRING.as_bytes()),
    );
}

#[test]
fn integration_test_invalid() {
    const INVALID_STRING: &[u8] = b"\xF1foo\xF1\x80bar\xF1\x80\x80baz";
    assert_string_is_invalid_utf8(INVALID_STRING);

    assert_eq!(Ok(()), check_bytes(INVALID_STRING));
    assert_eq!(Ok(()), check_vec(INVALID_STRING));
    assert!(check_wide_bytes(INVALID_STRING).is_err());
    assert_eq!(
        Err(EncodingError::Byte(b'f')),
        windows::convert::from_bytes(INVALID_STRING),
    );
}

#[test]
fn test_wtf8() {
    const HIGH_SURROGATE: &[u8] = b"\xED\xA0\x80";
    const LOW_SURROGATE: &[u8] = b"\xED\xB0\x80";

    for string in [WTF8_STRING, HIGH_SURROGATE, LOW_SURROGATE] {
        assert_string_is_invalid_utf8(string);

        assert_eq!(Ok(()), check_bytes(string));
        assert_eq!(Ok(()), check_vec(string));
        assert_eq!(Ok(()), check_wide_bytes(string));
    }
}

#[test]
fn test_wide_units_of_generalized_bytes() {
    assert_eq!(
        Ok(vec![
            0x66, 0x6F, 0x6F, 0xD83D, 0xD83D, 0xDCA9, 0x62, 0x61, 0x72
        ]),
        windows::convert::from_bytes(WTF8_STRING),
    );
    assert_eq!(
        WTF8_STRING,
        &windows::convert::to_bytes(&[0x66, 0x6F, 0x6F, 0xD83D, 0xD83D, 0xDCA9, 0x62, 0x61, 0x72])
            [..],
    );
    assert_eq!(
        Ok(vec![0xD800]),
        windows::convert::from_bytes(b"\xED\xA0\x80")
    );
    assert_eq!(
        Ok(vec![0xDC00]),
        windows::convert::from_bytes(b"\xED\xB0\x80")
    );
}

#[test]
fn test_pair_is_written_as_four_bytes() {
    assert_eq!(
        b"\xF0\x90\x80\x80".to_vec(),
        windows::convert::to_bytes(&[0xD800, 0xDC00]),
    );
    assert_eq!(
        b"\xF4\x8F\xBF\xBF".to_vec(),
        windows::convert::to_bytes(&[0xDBFF, 0xDFFF]),
    );
    assert_eq!(
        b"\xED\xB0\x80\xED\xA0\x80".to_vec(),
        windows::convert::to_bytes(&[0xDC00, 0xD800]),
    );
    assert_eq!(
        Ok(vec![0xDC00, 0xD800]),
        windows::convert::from_bytes(b"\xED\xB0\x80\xED\xA0\x80"),
    );
    assert_eq!(
        b"\x00\x7F\xC2\x80\xDF\xBF\xE0\xA0\x80\xEF\xBF\xBF".to_vec(),
        windows::convert::to_bytes(&[0x0, 0x7F, 0x80, 0x7FF, 0x800, 0xFFFF]),
    );
}

#[test]
fn test_end_of_string_error() {
    assert_eq!(
        Err(EncodingError::End()),
        windows::convert::from_bytes(b"\xF1")
    );
}

#[test]
fn test_bad_continuation_error() {
    assert_eq!(
        Err(EncodingError::Byte(0x00)),
        windows::convert::from_bytes(b"\xC2\x00"),
    );
}

#[test]
fn test_text_strategy() {
    assert_eq!(Ok("string"), text::os_str_from_bytes(b"string"));
    assert_eq!(b"string", text::os_str_to_bytes("string"));
    assert_eq!(
        Ok("string".to_owned()),
        text::os_string_from_vec(b"string".to_vec())
    );
    assert_eq!(
        b"string".to_vec(),
        text::os_string_into_vec("string".to_owned())
    );
    assert_eq!(
        Err(EncodingError::Byte(0xED)),
        text::os_str_from_bytes(WTF8_STRING),
    );
    assert_eq!(
        Err(EncodingError::Byte(0xF1)),
        text::os_string_from_vec(b"ab\xF1".to_vec()),
    );
    assert_eq!(
        Ok("\u{F6}\u{1F4A9}"),
        text::os_str_from_bytes("\u{F6}\u{1F4A9}".as_bytes()),
    );
}
