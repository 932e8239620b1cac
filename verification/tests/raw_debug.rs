use os_str_bytes::common;
use os_str_bytes::wasm;
use os_str_bytes::windows;
use os_str_bytes::EncodingError;
use os_str_bytes::RawOsStr;
use os_str_bytes::RawOsString;

fn check_debug(result: &str, string: RawOsStr<'_>) {
    assert_eq!(format!("RawOsStr({})", result), string.debug_string());
    let owned = RawOsString::from_encoded_vec_unchecked(string.as_encoded_bytes().to_vec());
    assert_eq!(format!("RawOsString({})", result), owned.debug_string());
}

#[test]
fn raw_debug_test_empty() {
    check_debug("\"\"", RawOsStr::from_str(""));
}

#[test]
fn test_debug_wtf8() {
    check_debug(
        "\"foo\\xED\\xA0\\xBD\u{1F4A9}bar\"",
        RawOsStr::from_encoded_bytes_unchecked(b"foo\xED\xA0\xBD\xF0\x9F\x92\xA9bar"),
    );
}

#[test]
fn test_quote() {
    check_debug("\"foo\\\"bar\"", RawOsStr::from_str("foo\"bar"));
}

#[test]
fn test_debug_escapes_text_like_text() {
    for text in ["", "plain", "tab\there", "line\nbreak", "\u{F6}\u{1F4A9}", "\\", "\0"] {
        let shown = format!("{:?}", text);
        check_debug(&shown, RawOsStr::from_str(text));
    }
    check_debug("\"tab\\there\"", RawOsStr::from_str("tab\there"));
    check_debug("\"quote\\'\\\"\"", RawOsStr::from_str("quote'\""));
}

#[test]
fn test_debug_bytes() {
    let mut f = String::from(">");
    common::raw::debug(&RawOsStr::from_encoded_bytes_unchecked(b"\x00\x9F\xFF"), &mut f);
    assert_eq!(">\\x00\\x9F\\xFF", f);
    wasm::raw::debug(&RawOsStr::from_str(""), &mut f);
    assert_eq!(">\\x00\\x9F\\xFF", f);
}

#[test]
fn test_debug_wide_units() {
    let mut f = String::from(">");
    let string = RawOsStr::from_encoded_bytes_unchecked(b"\xED\xA0\xBDa\xF0\x9F\x92\xA9");
    assert_eq!(Ok(()), windows::raw::debug(&string, &mut f));
    assert_eq!(">\\u{D83D}\\u{61}\\u{D83D}\\u{DCA9}", f);

    let mut f = String::new();
    let string = RawOsStr::from_encoded_bytes_unchecked(b"a\xF1");
    assert_eq!(Err(EncodingError::End()), windows::raw::debug(&string, &mut f));
}

#[test]
fn test_wide_units_of_view() {
    let string = RawOsStr::from_str("a\u{1F4A9}");
    let mut encoder = windows::raw::encode_wide(&string);
    assert_eq!(Some(Ok(0x61)), encoder.next());
    assert_eq!(Some(Ok(0xD83D)), encoder.next());
    assert_eq!(Some(Ok(0xDCA9)), encoder.next());
    assert_eq!(None, encoder.next());
}
