use os_str_bytes::pattern::Encoded;
use os_str_bytes::pattern::EncodedChar;
use os_str_bytes::pattern::Pattern;
use os_str_bytes::text::encode_char;
use os_str_bytes::util;
use os_str_bytes::windows::raw;
use os_str_bytes::windows::wtf8::code_points::CodePoints;
use os_str_bytes::windows::wtf8::convert::encode_wide;
use os_str_bytes::windows::wtf8::convert::DecodeWide;
use os_str_bytes::windows_common::next_code_point;
use os_str_bytes::windows_common::unwrap_or_0;
use os_str_bytes::windows_common::utf8_acc_cont_byte;
use os_str_bytes::windows_common::utf8_first_byte;
use os_str_bytes::EncodingError;

const WTF8_STRING: &[u8] = b"foo\xED\xA0\xBD\xF0\x9F\x92\xA9bar";

#[test]
fn test_wide_ends_with() {
    let test = |result: bool, suffix: &[u8]| {
        assert_eq!(result, raw::ends_with(WTF8_STRING, suffix));
    };

    test(true, b"");
    test(true, b"r");
    test(true, b"ar");
    test(true, b"bar");
    test(true, b"\xED\xB2\xA9bar");
    test(true, b"\xF0\x9F\x92\xA9bar");
    test(true, b"\xED\xA0\xBD\xF0\x9F\x92\xA9bar");
    test(true, b"o\xED\xA0\xBD\xF0\x9F\x92\xA9bar");
    test(true, b"oo\xED\xA0\xBD\xF0\x9F\x92\xA9bar");
    test(true, b"foo\xED\xA0\xBD\xF0\x9F\x92\xA9bar");

    test(false, b"\xED\xA0\xBDbar");
    test(false, b"\xED\xB2\xA9aar");
    test(false, b"\xED\xB2\xA8bar");
    test(false, b"xfoo\xED\xA0\xBD\xF0\x9F\x92\xA9bar");
}

#[test]
fn test_wide_starts_with() {
    let test = |result: bool, prefix: &[u8]| {
        assert_eq!(result, raw::starts_with(WTF8_STRING, prefix));
    };

    test(true, b"");
    test(true, b"f");
    test(true, b"fo");
    test(true, b"foo");
    test(true, b"foo\xED\xA0\xBD");
    test(true, b"foo\xED\xA0\xBD\xED\xA0\xBD");
    test(true, b"foo\xED\xA0\xBD\xF0\x9F\x92\xA9");
    test(true, b"foo\xED\xA0\xBD\xF0\x9F\x92\xA9b");
    test(true, b"foo\xED\xA0\xBD\xF0\x9F\x92\xA9ba");
    test(true, b"foo\xED\xA0\xBD\xF0\x9F\x92\xA9bar");

    test(false, b"foo\xED\xB2\xA9");
    test(false, b"fof\xED\xA0\xBD\xED\xA0\xBD");
    test(false, b"foo\xED\xA0\xBD\xED\xA0\xBC");
    test(false, b"foo\xED\xA0\xBD\xF0\x9F\x92\xA9barx");
}

#[test]
fn test_wide_empty_starts_and_ends_with() {
    assert!(raw::ends_with(b"", b""));
    assert!(!raw::ends_with(b"", b"r"));
    assert!(raw::starts_with(b"", b""));
    assert!(!raw::starts_with(b"", b"f"));
}

#[test]
fn test_wide_comparison_agrees_with_units() {
    let mut rng = fastrand::Rng::new();
    for _ in 0..2048 {
        let mut picks = [0u8; 8];
        rng.fill(&mut picks);
        let wide: Vec<u16> = picks
            .iter()
            .map(|pick| match pick % 4 {
                0 => 0xD800 + u16::from(pick % 3),
                1 => 0xDC00 + u16::from(pick % 3),
                2 => 0x61 + u16::from(pick % 3),
                _ => 0x20AC + u16::from(pick % 3),
            })
            .collect();
        let cut = usize::from(picks[0] % 9);
        let string = os_str_bytes::windows::convert::to_bytes(&wide);
        let prefix = os_str_bytes::windows::convert::to_bytes(&wide[..cut]);
        let suffix = os_str_bytes::windows::convert::to_bytes(&wide[cut..]);
        assert!(raw::starts_with(&string, &prefix));
        assert!(raw::ends_with(&string, &suffix));

        let other: Vec<u16> = picks
            .iter()
            .rev()
            .map(|pick| match pick % 4 {
                0 => 0xD800 + u16::from(pick % 3),
                1 => 0xDC00 + u16::from(pick % 3),
                2 => 0x61 + u16::from(pick % 3),
                _ => 0x20AC + u16::from(pick % 3),
            })
            .take(cut)
            .collect();
        let other_bytes = os_str_bytes::windows::convert::to_bytes(&other);
        assert_eq!(
            wide.starts_with(&other),
            raw::starts_with(&string, &other_bytes)
        );
        assert_eq!(wide.ends_with(&other), raw::ends_with(&string, &other_bytes));
    }
}

#[test]
fn test_code_points() {
    let mut points = CodePoints::new(WTF8_STRING);
    assert!(points.is_still_utf8());
    assert_eq!(Some(Ok(0x66)), points.next());
    assert_eq!(Some(Ok(0x6F)), points.next());
    assert_eq!(Some(Ok(0x6F)), points.next());
    assert!(points.is_still_utf8());
    assert_eq!(Some(Ok(0xD83D)), points.next());
    assert!(!points.is_still_utf8());
    assert_eq!(Some(Ok(0x1F4A9)), points.next());
    assert_eq!(Some(Ok(0x62)), points.next());
    assert_eq!(Some(Ok(0x61)), points.next());
    assert_eq!(Some(Ok(0x72)), points.next());
    assert_eq!(None, points.next());
    assert_eq!(None, points.next());
}

#[test]
fn test_code_points_stop_at_error() {
    let mut points = CodePoints::new(b"a\xC2\x00b");
    assert_eq!(Some(Ok(0x61)), points.next());
    assert_eq!(Some(Err(EncodingError::Byte(0))), points.next());
    assert_eq!(None, points.next());
}

#[test]
fn test_encode_wide_items() {
    let mut encoder = encode_wide(b"a\xF0\x9F\x92\xA9\xED\xA0\xBD");
    assert!(encoder.is_still_utf8());
    assert_eq!(Some(Ok(0x61)), encoder.next());
    assert_eq!(Some(Ok(0xD83D)), encoder.next());
    assert_eq!(Some(Ok(0xDCA9)), encoder.next());
    assert!(encoder.is_still_utf8());
    assert_eq!(Some(Ok(0xD83D)), encoder.next());
    assert!(!encoder.is_still_utf8());
    assert_eq!(None, encoder.next());

    let mut encoder = encode_wide(b"\xF1");
    assert_eq!(Some(Err(EncodingError::End())), encoder.next());
    assert_eq!(None, encoder.next());
}

#[test]
fn test_decode_wide_items() {
    let wide = [0x61, 0xD83D, 0xDCA9, 0xD83D];
    let mut decoder = DecodeWide::new(&wide);
    let mut bytes = Vec::new();
    while let Some(byte) = decoder.next() {
        bytes.push(byte);
    }
    assert_eq!(None, decoder.next());
    assert_eq!(b"a\xF0\x9F\x92\xA9\xED\xA0\xBD".to_vec(), bytes);
}

#[test]
fn test_is_continuation() {
    for byte in 0..=u8::MAX {
        assert_eq!((0x80..0xC0).contains(&byte), util::is_continuation(byte));
    }
    assert!(util::is_boundary(b"a"));
    assert!(util::is_boundary(b"\xC3\xB6"));
    assert!(!util::is_boundary(b"\xB6"));
}

#[test]
fn test_encode_char() {
    for c in ['\0', 'a', '\u{7F}', '\u{80}', '\u{F6}', '\u{7FF}', '\u{800}', '\u{20AC}',
        '\u{FFFF}', '\u{10000}', '\u{1F4A9}', '\u{10FFFF}']
    {
        let mut buffer = [0; 4];
        let expected = c.encode_utf8(&mut buffer).as_bytes();
        let (bytes, length) = encode_char(c);
        assert_eq!(expected, &bytes[..length]);
        let encoded = EncodedChar::new(c);
        assert_eq!(expected, encoded.__as_bytes());
        assert_eq!(c.to_string(), encoded.__as_str());
        assert_eq!(expected, c.__encode().__as_bytes());
    }
}

#[test]
fn test_text_patterns() {
    assert_eq!(b"f\xC3\xB6", "f\u{F6}".__encode().__as_bytes());
    assert_eq!("f\u{F6}", "f\u{F6}".__encode().__as_str());
    let owned = String::from("bar");
    assert_eq!(b"bar", (&owned).__encode().__as_bytes());
    assert_eq!("bar", (&owned).__encode().__as_str());
}

#[test]
fn test_next_code_point() {
    let bytes = "a\u{F6}\u{20AC}\u{1F4A9}".as_bytes();
    let mut position = 0;
    assert_eq!(Some(0x61), next_code_point(bytes, &mut position));
    assert_eq!(1, position);
    assert_eq!(Some(0xF6), next_code_point(bytes, &mut position));
    assert_eq!(3, position);
    assert_eq!(Some(0x20AC), next_code_point(bytes, &mut position));
    assert_eq!(6, position);
    assert_eq!(Some(0x1F4A9), next_code_point(bytes, &mut position));
    assert_eq!(10, position);
    assert_eq!(None, next_code_point(bytes, &mut position));
    assert_eq!(10, position);
}

#[test]
fn test_next_code_point_reads_surrogates_and_short_input() {
    let mut position = 0;
    assert_eq!(Some(0xD83D), next_code_point(b"\xED\xA0\xBD", &mut position));
    assert_eq!(3, position);
    let mut position = 0;
    assert_eq!(Some(0x40000), next_code_point(b"\xF1", &mut position));
    assert_eq!(1, position);
    let mut position = 0;
    assert_eq!(Some(0x1000), next_code_point(b"\xE1\x80", &mut position));
    assert_eq!(2, position);
}

#[test]
fn test_code_point_pieces() {
    assert_eq!(0x1F, utf8_first_byte(0xDF, 2));
    assert_eq!(0x0F, utf8_first_byte(0xEF, 3));
    assert_eq!(0x07, utf8_first_byte(0xF7, 4));
    assert_eq!((0x1F << 6) | 0x3F, utf8_acc_cont_byte(0x1F, 0xBF));
    assert_eq!(0x40, utf8_acc_cont_byte(1, 0x80));
    assert_eq!(7, unwrap_or_0(Some(&7)));
    assert_eq!(0, unwrap_or_0(None));
}
