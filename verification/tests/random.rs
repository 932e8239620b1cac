use os_str_bytes::imp::convert;
use os_str_bytes::windows;

const SMALL_LENGTH: usize = 16;

const ITERATIONS: usize = 1024;

const LARGE_LENGTH: usize = 1024;

fn fastrand_os_string(buffer_length: usize) -> Vec<u8> {
    let mut rng = fastrand::Rng::new();
    let mut buffer = vec![0; buffer_length];
    rng.fill(&mut buffer);
    buffer
}

fn fastrand_wide_string(buffer_length: usize) -> Vec<u16> {
    let mut rng = fastrand::Rng::new();
    let mut buffer = vec![0; buffer_length * 2];
    rng.fill(&mut buffer);
    buffer
        .chunks(2)
        .map(|pair| u16::from_le_bytes([pair[0], pair[1]]))
        .collect()
}

#[test]
fn test_bytes() {
    let os_string = fastrand_os_string(LARGE_LENGTH);
    let string = convert::os_str_to_bytes(&os_string);
    assert_eq!(os_string.len(), string.len());
    assert_eq!(Ok(&os_string[..]), convert::os_str_from_bytes(string));
}

#[test]
fn test_vec() {
    let os_string = fastrand_os_string(LARGE_LENGTH);
    let string = convert::os_string_into_vec(os_string.clone());
    assert_eq!(os_string.len(), string.len());
    assert_eq!(Ok(os_string), convert::os_string_from_vec(string));
}

#[test]
fn test_wide_round_trip() {
    for _ in 0..ITERATIONS {
        let wide = fastrand_wide_string(SMALL_LENGTH);
        let string = windows::convert::os_str_to_bytes(&wide);
        assert_eq!(Ok(wide.clone()), windows::convert::os_str_from_bytes(&string));
        assert_eq!(
            Ok(wide.clone()),
            windows::convert::os_string_from_vec(windows::convert::os_string_into_vec(wide)),
        );
    }
    let wide = fastrand_wide_string(LARGE_LENGTH);
    let string = windows::convert::to_bytes(&wide);
    assert_eq!(Ok(wide), windows::convert::from_bytes(&string));
}

#[test]
fn test_wide_surrogates_round_trip() {
    let mut rng = fastrand::Rng::new();
    for _ in 0..ITERATIONS {
        let mut picks = [0u8; SMALL_LENGTH];
        rng.fill(&mut picks);
        let wide: Vec<u16> = picks
            .iter()
            .map(|pick| match pick % 4 {
                0 => 0xD800 + u16::from(*pick),
                1 => 0xDC00 + u16::from(*pick),
                2 => u16::from(*pick),
                _ => 0x2000 + u16::from(*pick),
            })
            .collect();
        let string = windows::convert::to_bytes(&wide);
        assert_eq!(Ok(wide), windows::convert::from_bytes(&string));
    }
}

#[test]
fn test_lossless() {
    for _ in 0..ITERATIONS {
        let mut string = vec![0; SMALL_LENGTH];
        fastrand::Rng::new().fill(&mut string);
        if let Ok(os_string) = convert::os_str_from_bytes(&string) {
            assert_eq!(string, convert::os_str_to_bytes(os_string));
        }
        if let Ok(wide) = windows::convert::from_bytes(&string) {
            assert_eq!(string, windows::convert::to_bytes(&wide));
        }
    }
}

#[test]
fn test_lossless_near_text() {
    let mut rng = fastrand::Rng::new();
    let alphabet: [&[u8]; 8] = [
        b"a",
        b"\xC3\xB6",
        b"\xED\xA0\xBD",
        b"\xED\xB2\xA9",
        b"\xF0\x9F\x92\xA9",
        b"\xE2\x82\xAC",
        b"\x80",
        b"\xF1",
    ];
    let mut accepted = 0;
    for _ in 0..ITERATIONS {
        let mut picks = [0u8; 6];
        rng.fill(&mut picks);
        let mut string = Vec::new();
        for pick in picks {
            string.extend_from_slice(alphabet[usize::from(pick % 8)]);
        }
        if let Ok(wide) = windows::convert::from_bytes(&string) {
            accepted += 1;
            assert_eq!(string, windows::convert::to_bytes(&wide));
        }
    }
    assert!(accepted > 0);
}
