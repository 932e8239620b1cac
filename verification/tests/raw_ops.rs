use std::borrow::Cow;

use os_str_bytes::iter::RSplit;
use os_str_bytes::iter::Split;
use os_str_bytes::RawOsStr;
use os_str_bytes::RawOsString;

const WTF8_STRING: &[u8] = b"foo\xED\xA0\xBD\xF0\x9F\x92\xA9bar";

fn raw(string: &str) -> RawOsStr<'_> {
    RawOsStr::from_str(string)
}

fn pieces<'a>(parts: Vec<RawOsStr<'a>>) -> Vec<Vec<u8>> {
    parts
        .iter()
        .map(|part| part.as_encoded_bytes().to_vec())
        .collect()
}

fn join(parts: &[Vec<u8>], separator: &[u8]) -> Vec<u8> {
    parts.join(separator)
}

#[test]
fn test_find_and_rfind() {
    let string = raw("foobar");
    assert_eq!(Some(1), string.find("o"));
    assert_eq!(Some(2), string.rfind("o"));
    assert_eq!(None, string.find("of"));
    assert_eq!(None, string.rfind("of"));
    assert_eq!(Some(1), string.find('o'));
    assert_eq!(Some(2), string.rfind('o'));
    assert_eq!(Some(3), string.find(&String::from("bar")));
    assert_eq!(Some(0), string.find(""));
    assert_eq!(Some(6), string.rfind(""));
}

#[test]
fn test_find_overlapping() {
    let string = raw("aaaa");
    assert_eq!(Some(0), string.find("aa"));
    assert_eq!(Some(2), string.rfind("aa"));
    assert_eq!(None, raw("a").find("aa"));
}

#[test]
fn test_find_in_generalized_bytes() {
    let string = RawOsStr::from_encoded_bytes_unchecked(WTF8_STRING);
    assert_eq!(Some(6), string.find('\u{1F4A9}'));
    assert_eq!(Some(6), string.rfind("\u{1F4A9}"));
    assert_eq!(Some(10), string.find("bar"));
    assert_eq!(None, string.find('\u{F6}'));
}

#[test]
fn test_contains_agrees_with_find() {
    let string = raw("foobar");
    for pat in ["oo", "of", "f", "r", "foobar", "foobarx", "ba"] {
        assert_eq!(string.find(pat).is_some(), string.contains(pat));
        if let Some(index) = string.find(pat) {
            let bytes = string.as_encoded_bytes();
            assert_eq!(pat.as_bytes(), &bytes[index..index + pat.len()]);
            for earlier in 0..index {
                assert_ne!(pat.as_bytes(), &bytes[earlier..earlier + pat.len()]);
            }
        }
    }
    assert!(string.contains("oo"));
    assert!(!string.contains("of"));
}

#[test]
fn test_starts_and_ends_with_pattern() {
    let string = raw("foobar");
    assert!(string.starts_with("foo"));
    assert!(!string.starts_with("bar"));
    assert!(string.ends_with("bar"));
    assert!(!string.ends_with("foo"));
    assert!(string.starts_with('f'));
    assert!(string.ends_with('r'));
    assert!(string.starts_with(""));
    assert!(string.ends_with(""));
    assert!(!raw("").starts_with("f"));
}

#[test]
fn test_strip() {
    let string = raw("111foo1bar111");
    assert_eq!(Some(raw("11foo1bar111")), string.strip_prefix("1"));
    assert_eq!(None, string.strip_prefix("o"));
    assert_eq!(Some(raw("111foo1bar11")), string.strip_suffix("1"));
    assert_eq!(None, string.strip_suffix("o"));
}

#[test]
fn test_split_once() {
    let string = raw("foobar");
    assert_eq!(Some((raw("f"), raw("obar"))), string.split_once("o"));
    assert_eq!(None, string.split_once("of"));
    assert_eq!(Some((raw("fo"), raw("bar"))), string.rsplit_once("o"));
    assert_eq!(None, string.rsplit_once("of"));
}

#[test]
fn test_split() {
    let string = raw("foobar");
    assert_eq!(
        vec![b"f".to_vec(), b"".to_vec(), b"bar".to_vec()],
        pieces(string.split("o").to_vec()),
    );
    assert_eq!(
        vec![b"bar".to_vec(), b"".to_vec(), b"f".to_vec()],
        pieces(string.rsplit("o").to_vec()),
    );
    assert_eq!(vec![b"foobar".to_vec()], pieces(string.split("x").to_vec()));
    assert_eq!(vec![b"".to_vec()], pieces(raw("").split("x").to_vec()));
}

#[test]
fn test_split_next() {
    let string = raw("a,b,,c");
    let mut split = string.split(',');
    assert_eq!(Some(raw("a")), split.next());
    assert_eq!(Some(raw("b")), split.next());
    assert_eq!(Some(raw("")), split.next());
    assert_eq!(Some(raw("c")), split.next());
    assert_eq!(None, split.next());
    assert_eq!(None, split.next());

    let mut rsplit = string.rsplit(',');
    assert_eq!(Some(raw("c")), rsplit.next());
    assert_eq!(Some(raw("")), rsplit.next());
    assert_eq!(Some(raw("b")), rsplit.next());
    assert_eq!(Some(raw("a")), rsplit.next());
    assert_eq!(None, rsplit.next());
}

#[test]
fn test_split_bytes_next() {
    let mut split = Split::new(b"one--two", "--");
    assert_eq!(Some(&b"one"[..]), split.next());
    assert_eq!(Some(&b"two"[..]), split.next());
    assert_eq!(None, split.next());
    let mut rsplit = RSplit::new(b"one--two", "--");
    assert_eq!(Some(&b"two"[..]), rsplit.next());
    assert_eq!(Some(&b"one"[..]), rsplit.next());
    assert_eq!(None, rsplit.next());
}

#[test]
fn test_split_then_join() {
    for (string, pat) in [
        ("foobar", "o"),
        ("aaaa", "aa"),
        ("aaa", "aa"),
        ("", "x"),
        ("xx", "x"),
        ("a\u{F6}b\u{F6}", "\u{F6}"),
        ("no match", "zz"),
    ] {
        let parts = pieces(raw(string).split(pat).to_vec());
        assert_eq!(string.as_bytes(), &join(&parts, pat.as_bytes())[..]);
        let mut parts = pieces(raw(string).rsplit(pat).to_vec());
        parts.reverse();
        assert_eq!(string.as_bytes(), &join(&parts, pat.as_bytes())[..]);
    }
    let string = RawOsStr::from_encoded_bytes_unchecked(WTF8_STRING);
    let parts = pieces(string.split('o').to_vec());
    assert_eq!(3, parts.len());
    assert_eq!(WTF8_STRING, &join(&parts, b"o")[..]);
}

#[test]
fn test_trim() {
    let string = raw("111foo1bar111");
    assert_eq!(raw("foo1bar"), string.trim_matches("1"));
    assert_eq!(raw("111foo1bar111"), string.trim_matches("o"));
    assert_eq!(raw("foo1bar111"), string.trim_start_matches("1"));
    assert_eq!(raw("111foo1bar111"), string.trim_start_matches("o"));
    assert_eq!(raw("111foo1bar"), string.trim_end_matches("1"));
    assert_eq!(raw("111foo1bar111"), string.trim_end_matches("o"));
    assert_eq!(raw("1foo1bar111"), string.trim_start_matches("11"));
    assert_eq!(raw("111foo1bar1"), string.trim_end_matches("11"));
    assert_eq!(raw(""), raw("1111").trim_matches('1'));
}

#[test]
fn test_trim_with_empty_pattern_changes_nothing() {
    let string = raw("111foo1bar111");
    assert_eq!(string, string.trim_matches(""));
    assert_eq!(string, string.trim_start_matches(""));
    assert_eq!(string, string.trim_end_matches(""));
}

#[test]
fn test_trim_twice_is_trim_once() {
    for (string, pat) in [("111foo1bar111", "1"), ("abab", "ab"), ("", "x"), ("xyz", "")] {
        let once = raw(string).trim_start_matches(pat);
        assert_eq!(once, once.trim_start_matches(pat));
        let once = raw(string).trim_end_matches(pat);
        assert_eq!(once, once.trim_end_matches(pat));
        let once = raw(string).trim_matches(pat);
        assert_eq!(once, once.trim_matches(pat));
    }
}

#[test]
fn test_repeat() {
    assert_eq!(
        b"foofoofoo".to_vec(),
        raw("foo").repeat(3).into_encoded_vec()
    );
    assert_eq!(b"".to_vec(), raw("foo").repeat(0).into_encoded_vec());
    assert_eq!(b"".to_vec(), raw("").repeat(5).into_encoded_vec());
}

#[test]
fn test_is_empty() {
    assert!(raw("").is_empty());
    assert!(!raw("foobar").is_empty());
}

#[test]
fn test_to_str() {
    assert_eq!(Some("foobar"), raw("foobar").to_str());
    assert_eq!(
        None,
        RawOsStr::from_encoded_bytes_unchecked(WTF8_STRING).to_str()
    );
    assert_eq!(Some(""), raw("").to_str());
}

#[test]
fn test_to_str_lossy() {
    assert!(matches!(
        raw("foobar").to_str_lossy(),
        Cow::Borrowed("foobar")
    ));
    assert_eq!(
        "foo\u{FFFD}\u{1F4A9}bar",
        RawOsStr::from_encoded_bytes_unchecked(WTF8_STRING).to_str_lossy(),
    );
    assert_eq!(
        "foo\u{FFFD}bar\u{FFFD}",
        RawOsStr::from_encoded_bytes_unchecked(b"foo\xF1\xF1\x80bar\xF1\x80\x80").to_str_lossy(),
    );
    assert_eq!(
        "\u{FFFD}",
        RawOsStr::from_encoded_bytes_unchecked(b"\x80").to_str_lossy()
    );
}

#[test]
fn test_owned_from_string() {
    let string = RawOsString::from_string("foo\u{F6}".to_owned());
    assert_eq!(b"foo\xC3\xB6".to_vec(), string.clone().into_encoded_vec());
    assert_eq!(raw("foo\u{F6}"), string.as_raw_os_str());
    assert_eq!(Ok("foo\u{F6}".to_owned()), string.into_string());
}

#[test]
fn test_owned_into_string_gives_bytes_back() {
    let string = RawOsString::from_encoded_vec_unchecked(WTF8_STRING.to_vec());
    let back = string.clone().into_string().unwrap_err();
    assert_eq!(string, back);
    assert_eq!(WTF8_STRING, &back.into_encoded_vec()[..]);
}

#[test]
fn test_owned_into_box() {
    let string = RawOsString::from_string("foobar".to_owned());
    let boxed: Box<[u8]> = string.into_box();
    assert_eq!(b"foobar", &boxed[..]);
}

#[test]
fn test_owned_clear_and_shrink() {
    let mut string = RawOsString::from_string("foobar".to_owned());
    string.shrink_to_fit();
    assert_eq!(raw("foobar"), string.as_raw_os_str());
    string.clear();
    assert!(string.as_raw_os_str().is_empty());
    assert_eq!(RawOsString::default(), string);
}

#[test]
fn test_owned_split_off_and_truncate() {
    let mut string = RawOsString::from_string("foobar".to_owned());
    assert!(string.check_bound(3));
    let tail = string.split_off(3);
    assert_eq!(raw("foo"), string.as_raw_os_str());
    assert_eq!(raw("bar"), tail.as_raw_os_str());

    let mut string = RawOsString::from_string("foobar".to_owned());
    string.truncate(3);
    assert_eq!(raw("foo"), string.as_raw_os_str());
    string.truncate(10);
    assert_eq!(raw("foo"), string.as_raw_os_str());

    let string = RawOsString::from_string("\u{F6}".to_owned());
    assert!(!string.check_bound(1));
    assert!(string.check_bound(2));
    assert!(string.check_bound(7));
}

#[test]
fn test_byte_pattern() {
    let string = raw("foobar");
    let pattern = os_str_bytes::AsciiByte::new(b'o');
    assert_eq!(Some(1), string.find(pattern));
    assert_eq!(Some(2), string.rfind(pattern));
    assert_eq!(
        vec![b"f".to_vec(), b"".to_vec(), b"bar".to_vec()],
        pieces(string.split(pattern).to_vec()),
    );
    assert_eq!(raw("foobar"), string.trim_matches(pattern));
    assert!(os_str_bytes::AsciiByte::try_new(0x7F).is_some());
    assert!(os_str_bytes::AsciiByte::try_new(0x80).is_none());
    assert!(os_str_bytes::AsciiByte::try_new(0xF6).is_none());
}

#[test]
fn test_empty_pattern_does_not_split() {
    assert!(Split::try_new(b"foobar", "").is_none());
    assert!(RSplit::try_new(b"", "").is_none());
    assert!(Split::try_new(b"", "x").is_some());
}

#[test]
fn test_raw_bytes_of_views() {
    let string = RawOsStr::cow_from_raw_bytes(WTF8_STRING).unwrap();
    assert_eq!(WTF8_STRING, string.as_encoded_bytes());
    assert_eq!(Cow::Borrowed(WTF8_STRING), string.to_raw_bytes());
    assert_eq!(string, RawOsStr::assert_cow_from_raw_bytes(WTF8_STRING));

    let owned = RawOsString::from_raw_vec(WTF8_STRING.to_vec()).unwrap();
    assert_eq!(string, owned.as_raw_os_str());
    assert_eq!(owned, RawOsString::assert_from_raw_vec(WTF8_STRING.to_vec()));
    assert_eq!(WTF8_STRING.to_vec(), owned.into_raw_vec());
}
