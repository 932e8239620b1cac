use os_str_bytes::RawOsStr;

const WTF8_STRING: &[u8] = b"foo\xED\xA0\xBD\xF0\x9F\x92\xA9bar";

fn check_ends_with(result: bool, suffix: &[u8]) {
    let string = RawOsStr::from_encoded_bytes_unchecked(WTF8_STRING);
    let suffix = RawOsStr::from_encoded_bytes_unchecked(suffix);
    assert_eq!(result, string.ends_with_os(&suffix));
}

#[test]
fn test_ends_with() {
    let test = check_ends_with;

    test(true, b"");
    test(true, b"r");
    test(true, b"ar");
    test(true, b"bar");
    test(true, b"\xA9bar");
    test(true, b"\x92\xA9bar");
    test(true, b"\x9F\x92\xA9bar");
    test(false, b"\xED\xB2\xA9bar");
    test(true, b"\xF0\x9F\x92\xA9bar");
    test(true, b"\xED\xA0\xBD\xF0\x9F\x92\xA9bar");
    test(true, b"o\xED\xA0\xBD\xF0\x9F\x92\xA9bar");
    test(true, b"oo\xED\xA0\xBD\xF0\x9F\x92\xA9bar");
    test(true, b"foo\xED\xA0\xBD\xF0\x9F\x92\xA9bar");

    test(false, b"\xED\xA0\xBDbar");
    test(false, b"\xED\xB2\xA9aar");
}

fn check_empty_ends_with(result: bool, suffix: &str) {
    assert_eq!(
        result,
        RawOsStr::from_str("").ends_with_os(&RawOsStr::from_str(suffix)),
    );
}

#[test]
fn test_empty_ends_with() {
    let test = check_empty_ends_with;

    test(true, "");
    test(false, "r");
    test(false, "ar");
}

fn check_starts_with(result: bool, prefix: &[u8]) {
    let string = RawOsStr::from_encoded_bytes_unchecked(WTF8_STRING);
    let prefix = RawOsStr::from_encoded_bytes_unchecked(prefix);
    assert_eq!(result, string.starts_with_os(&prefix));
}

#[test]
fn test_starts_with() {
    let test = check_starts_with;

    test(true, b"");
    test(true, b"f");
    test(true, b"fo");
    test(true, b"foo");
    test(true, b"foo\xED\xA0\xBD");
    test(true, b"foo\xED\xA0\xBD\xF0");
    test(true, b"foo\xED\xA0\xBD\xF0\x9F");
    test(true, b"foo\xED\xA0\xBD\xF0\x9F\x92");
    test(false, b"foo\xED\xA0\xBD\xED\xA0\xBD");
    test(true, b"foo\xED\xA0\xBD\xF0\x9F\x92\xA9");
    test(true, b"foo\xED\xA0\xBD\xF0\x9F\x92\xA9b");
    test(true, b"foo\xED\xA0\xBD\xF0\x9F\x92\xA9ba");
    test(true, b"foo\xED\xA0\xBD\xF0\x9F\x92\xA9bar");

    test(false, b"foo\xED\xB2\xA9");
    test(false, b"fof\xED\xA0\xBD\xED\xA0\xBD");
}

fn check_empty_starts_with(result: bool, prefix: &str) {
    assert_eq!(
        result,
        RawOsStr::from_str("").starts_with_os(&RawOsStr::from_str(prefix)),
    );
}

#[test]
fn test_empty_starts_with() {
    let test = check_empty_starts_with;

    test(true, "");
    test(false, "f");
    test(false, "fo");
}
