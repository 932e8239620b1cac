use os_str_bytes::iter::chunk_step;
use os_str_bytes::iter::ChunkStep;
use os_str_bytes::text::Utf8Defect;
use os_str_bytes::RawOsStr;

fn check_chunks(result: &[(&[u8], &str)], string: RawOsStr<'_>) {
    let mut chunks = string.utf8_chunks();
    let mut found = Vec::new();
    while let Some(chunk) = chunks.next() {
        found.push(chunk);
    }
    assert_eq!(None, chunks.next());
    assert_eq!(result, &found[..]);

    let mut all = Vec::new();
    for (index, (invalid, valid)) in found.iter().enumerate() {
        assert!(!invalid.is_empty() || !valid.is_empty());
        assert!(index == 0 || !invalid.is_empty());
        assert!(index == found.len() - 1 || !valid.is_empty());
        all.extend_from_slice(invalid);
        all.extend_from_slice(valid.as_bytes());
    }
    assert_eq!(string.as_encoded_bytes(), &all[..]);
}

#[test]
fn raw_utf8_chunks_test_empty() {
    check_chunks(&[], RawOsStr::from_str(""));
}

#[test]
fn test_wft8() {
    check_chunks(
        &[(b"", "foo"), (b"\xED\xA0\xBD", "\u{1F4A9}bar")],
        RawOsStr::from_encoded_bytes_unchecked(b"foo\xED\xA0\xBD\xF0\x9F\x92\xA9bar"),
    );
}

#[test]
fn test_invalid_chunks() {
    check_chunks(
        &[
            (b"", "foo"),
            (b"\xF1\xF1\x80", "bar"),
            (b"\xF1\x80\x80", ""),
        ],
        RawOsStr::from_encoded_bytes_unchecked(b"foo\xF1\xF1\x80bar\xF1\x80\x80"),
    );
}

#[test]
fn test_text_is_one_chunk() {
    check_chunks(&[(b"", "foobar")], RawOsStr::from_str("foobar"));
}

#[test]
fn test_no_text_is_one_chunk() {
    check_chunks(
        &[(b"\x80\x80\xFF", "")],
        RawOsStr::from_encoded_bytes_unchecked(b"\x80\x80\xFF"),
    );
    check_chunks(
        &[(b"\xFF", "a")],
        RawOsStr::from_encoded_bytes_unchecked(b"\xFFa"),
    );
}

#[test]
fn test_chunk_step_on_text() {
    match chunk_step(b"\xFFab", 1, Ok("ab")) {
        ChunkStep::Done {
            invalid,
            valid,
            rest,
            rest_invalid,
        } => {
            assert_eq!(b"\xFF", invalid);
            assert_eq!("ab", valid);
            assert!(rest.is_empty());
            assert_eq!(0, rest_invalid);
        }
        ChunkStep::Grow(_) => panic!("text completes the chunk"),
    }
}

#[test]
fn test_chunk_step_grows_invalid_span() {
    let defect = Utf8Defect {
        valid_up_to: 0,
        error_len: Some(2),
    };
    assert!(matches!(
        chunk_step(b"\xFF\xF1\x80a", 1, Err(defect)),
        ChunkStep::Grow(3)
    ));
    let defect = Utf8Defect {
        valid_up_to: 0,
        error_len: None,
    };
    assert!(matches!(
        chunk_step(b"a\xF1\x80", 1, Err(defect)),
        ChunkStep::Grow(3)
    ));
}

#[test]
fn test_chunk_step_cuts_behind_text() {
    let defect = Utf8Defect {
        valid_up_to: 2,
        error_len: Some(1),
    };
    match chunk_step(b"\xFFab\xFFc", 1, Err(defect)) {
        ChunkStep::Done {
            invalid,
            valid,
            rest,
            rest_invalid,
        } => {
            assert_eq!(b"\xFF", invalid);
            assert_eq!("ab", valid);
            assert_eq!(b"\xFFc", rest);
            assert_eq!(1, rest_invalid);
        }
        ChunkStep::Grow(_) => panic!("text completes the chunk"),
    }
}
