use std::borrow::Cow;

use os_str_bytes::EncodingError;
use os_str_bytes::OsStrBytes;
use os_str_bytes::OsStringBytes;

const WTF8_STRING: &[u8] = b"foo\xED\xA0\xBD\xF0\x9F\x92\xA9bar";

const WIDE_STRING: &[u16] = &[0x66, 0x6F, 0x6F, 0xD83D, 0xD83D, 0xDCA9, 0x62, 0x61, 0x72];

#[test]
fn test_byte_strings() {
    assert_eq!(
        Ok(Cow::Borrowed(WTF8_STRING)),
        <[u8]>::from_raw_bytes(WTF8_STRING)
    );
    assert_eq!(
        Cow::Borrowed(WTF8_STRING),
        <[u8]>::assert_from_raw_bytes(WTF8_STRING)
    );
    assert_eq!(Cow::Borrowed(WTF8_STRING), WTF8_STRING.to_raw_bytes());
    assert_eq!(
        Ok(WTF8_STRING.to_vec()),
        <Vec<u8> as OsStringBytes>::from_raw_vec(WTF8_STRING.to_vec())
    );
    assert_eq!(
        WTF8_STRING.to_vec(),
        <Vec<u8> as OsStringBytes>::assert_from_raw_vec(WTF8_STRING.to_vec())
    );
    assert_eq!(
        WTF8_STRING.to_vec(),
        OsStringBytes::into_raw_vec(WTF8_STRING.to_vec())
    );
}

#[test]
fn test_text() {
    assert_eq!(Ok(Cow::Borrowed("f\u{F6}")), str::from_raw_bytes(b"f\xC3\xB6"));
    assert_eq!(
        Err(EncodingError::Byte(0xED)),
        str::from_raw_bytes(WTF8_STRING)
    );
    assert_eq!(Cow::Borrowed("foo"), str::assert_from_raw_bytes(b"foo"));
    assert_eq!(Cow::Borrowed(&b"f\xC3\xB6"[..]), "f\u{F6}".to_raw_bytes());
    assert_eq!(
        Ok("f\u{F6}".to_owned()),
        String::from_raw_vec(b"f\xC3\xB6".to_vec())
    );
    assert_eq!(
        Err(EncodingError::Byte(0xB6)),
        String::from_raw_vec(b"f\xB6".to_vec())
    );
    assert_eq!("foo", String::assert_from_raw_vec(b"foo".to_vec()));
    assert_eq!(b"f\xC3\xB6".to_vec(), "f\u{F6}".to_owned().into_raw_vec());
}

#[test]
fn test_wide_strings() {
    assert_eq!(
        Ok(Cow::Borrowed(WIDE_STRING)),
        <[u16]>::from_raw_bytes(WTF8_STRING)
    );
    assert_eq!(
        Err(EncodingError::CodePoint(0xDC00)),
        <[u16]>::from_raw_bytes(b"\xED\xA0\x80\xED\xB0\x80"),
    );
    assert_eq!(
        Cow::Borrowed(WIDE_STRING),
        <[u16]>::assert_from_raw_bytes(WTF8_STRING)
    );
    assert_eq!(Cow::Borrowed(WTF8_STRING), WIDE_STRING.to_raw_bytes());
    assert_eq!(
        Ok(WIDE_STRING.to_vec()),
        Vec::<u16>::from_raw_vec(WTF8_STRING.to_vec())
    );
    assert_eq!(
        Err(EncodingError::End()),
        Vec::<u16>::from_raw_vec(b"\xF1".to_vec())
    );
    assert_eq!(
        WIDE_STRING.to_vec(),
        Vec::<u16>::assert_from_raw_vec(WTF8_STRING.to_vec())
    );
    assert_eq!(WTF8_STRING.to_vec(), WIDE_STRING.to_vec().into_raw_vec());
}
