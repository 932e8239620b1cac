use os_str_bytes::RawOsStr;
use os_str_bytes::SliceIndex;

const WTF8_STRING: &[u8] = b"foo\xED\xA0\xBD\xF0\x9F\x92\xA9bar";

fn check_valid(index: usize) {
    let string = RawOsStr::from_encoded_bytes_unchecked(WTF8_STRING);
    assert!(string.check_range(SliceIndex::RangeFrom(index)));
    let tail = string.index(SliceIndex::RangeFrom(index));
    assert_eq!(&WTF8_STRING[index..], tail.as_encoded_bytes());
}

#[test]
fn test_valid() {
    let test = check_valid;

    test(0);
    test(1);
    test(2);
    test(3);
    test(6);
    test(10);
    test(11);
    test(12);
    test(13);
}

fn check_refused(index: usize) {
    let string = RawOsStr::from_encoded_bytes_unchecked(WTF8_STRING);
    assert!(!string.check_range(SliceIndex::RangeFrom(index)));
    assert!(!os_str_bytes::ext::check_bound(WTF8_STRING, index));
}

#[test]
fn test_inside_unit_is_refused() {
    check_refused(4);
    check_refused(5);
    check_refused(7);
    check_refused(8);
    check_refused(9);
}

#[test]
fn raw_index_test_panics() {
    let string = RawOsStr::from_str("\u{F6}");
    assert!(!string.check_range(SliceIndex::Range(1, 2)));
    assert!(!string.check_range(SliceIndex::Range(0, 1)));
    assert!(!string.check_range(SliceIndex::RangeFrom(1)));
    assert!(!string.check_range(SliceIndex::RangeInclusive(0, 0)));
    assert!(!string.check_range(SliceIndex::RangeTo(1)));
    assert!(!string.check_range(SliceIndex::RangeToInclusive(0)));
    assert!(!os_str_bytes::ext::is_boundary(string.as_encoded_bytes(), 1));
    assert!(!os_str_bytes::ext::check_bound(string.as_encoded_bytes(), 1));
}

#[test]
fn test_every_range_form() {
    let string = RawOsStr::from_str("foobar");
    let bytes = |range: SliceIndex| {
        assert!(string.check_range(range));
        string.index(range).as_encoded_bytes().to_vec()
    };
    assert_eq!(b"oba".to_vec(), bytes(SliceIndex::Range(2, 5)));
    assert_eq!(b"bar".to_vec(), bytes(SliceIndex::RangeFrom(3)));
    assert_eq!(b"foobar".to_vec(), bytes(SliceIndex::RangeFull));
    assert_eq!(b"oba".to_vec(), bytes(SliceIndex::RangeInclusive(2, 4)));
    assert_eq!(b"foo".to_vec(), bytes(SliceIndex::RangeTo(3)));
    assert_eq!(b"foo".to_vec(), bytes(SliceIndex::RangeToInclusive(2)));
    assert!(!string.check_range(SliceIndex::Range(4, 2)));
    assert!(!string.check_range(SliceIndex::Range(0, 7)));
    assert!(!string.check_range(SliceIndex::RangeInclusive(0, 6)));
    assert!(!string.check_range(SliceIndex::RangeToInclusive(usize::MAX)));
}

#[test]
fn test_split_at_boundary_rejoins() {
    let string = RawOsStr::from_encoded_bytes_unchecked(WTF8_STRING);
    for mid in [0usize, 1, 2, 3, 6, 10, 11, 12, 13] {
        assert!(os_str_bytes::ext::check_bound(WTF8_STRING, mid));
        let (prefix, suffix) = string.split_at(mid);
        assert_eq!(&WTF8_STRING[..mid], prefix.as_encoded_bytes());
        assert_eq!(&WTF8_STRING[mid..], suffix.as_encoded_bytes());
        let mut joined = prefix.as_encoded_bytes().to_vec();
        joined.extend_from_slice(suffix.as_encoded_bytes());
        assert_eq!(WTF8_STRING, &joined[..]);
    }
}

#[test]
fn test_split_at_from_doc() {
    let string = RawOsStr::from_str("foobar");
    let (prefix, suffix) = string.split_at(2);
    assert_eq!(RawOsStr::from_str("fo"), prefix);
    assert_eq!(RawOsStr::from_str("obar"), suffix);
}
