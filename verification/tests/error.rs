use os_str_bytes::error::push_hex;
use os_str_bytes::EncodingError;

#[test]
fn test_position() {
    assert_eq!("byte b'\\x80'", EncodingError::Byte(0x80).position());
    assert_eq!("byte b'\\x0C'", EncodingError::Byte(0x0C).position());
    assert_eq!("byte b'\\x00'", EncodingError::Byte(0).position());
    assert_eq!("byte b'\\xFF'", EncodingError::Byte(0xFF).position());
    assert_eq!(
        "code point U+DC00",
        EncodingError::CodePoint(0xDC00).position()
    );
    assert_eq!(
        "code point U+0528",
        EncodingError::CodePoint(0x528).position()
    );
    assert_eq!("code point U+0000", EncodingError::CodePoint(0).position());
    assert_eq!(
        "code point U+3C6143",
        EncodingError::CodePoint(0x3C_6143).position()
    );
    assert_eq!(
        "code point U+FFFFFFFF",
        EncodingError::CodePoint(u32::MAX).position()
    );
    assert_eq!("end of string", EncodingError::End().position());
}

#[test]
fn test_position_matches_format() {
    for byte in 0..=u8::MAX {
        assert_eq!(
            format!("byte b'\\x{:02X}'", byte),
            EncodingError::Byte(byte).position()
        );
    }
    for code_point in [0u32, 9, 0xA, 0xFF, 0x100, 0xFFF, 0x1000, 0xFFFF, 0x1_0000, 0x10_FFFF] {
        assert_eq!(
            format!("code point U+{:04X}", code_point),
            EncodingError::CodePoint(code_point).position(),
        );
    }
}

#[test]
fn test_message() {
    assert_eq!(
        "byte sequence is not representable in the platform encoding; error at end of string",
        EncodingError::End().to_string(),
    );
    assert_eq!(
        "byte sequence is not representable in the platform encoding; error at byte b'\\x00'",
        EncodingError::Byte(0).to_string(),
    );
    assert_eq!(
        "byte sequence is not representable in the platform encoding; error at code point U+110000",
        EncodingError::CodePoint(0x11_0000).to_string(),
    );
}

#[test]
fn test_push_hex() {
    let mut text = String::from("x");
    push_hex(&mut text, 0xAB, 0);
    assert_eq!("xAB", text);
    push_hex(&mut text, 0, 0);
    assert_eq!("xAB0", text);
    push_hex(&mut text, 0x1F, 6);
    assert_eq!("xAB000001F", text);
}
