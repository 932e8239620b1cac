//! The mathematical description of the byte form of 16-bit strings.

use vstd::prelude::*;
use vstd::utf8::*;
use crate::error::EncodingError;

verus! {

/// Largest code point that the byte form can carry.
pub const MAX_CODE_POINT: u32 = 0x10FFFF;

/// First code point that takes two 16-bit units.
pub const MIN_SURROGATE_CODE: u32 = 0x10000;

/// First high (leading) surrogate.
pub const MIN_HIGH_SURROGATE: u16 = 0xD800;

/// First low (trailing) surrogate.
pub const MIN_LOW_SURROGATE: u16 = 0xDC00;

/// A unit that opens a surrogate pair.
pub open spec fn is_high_surrogate(unit: u16) -> bool {
    0xD800 <= unit <= 0xDBFF
}

/// A unit that closes a surrogate pair.
pub open spec fn is_low_surrogate(unit: u16) -> bool {
    0xDC00 <= unit <= 0xDFFF
}

/// The code point that a high and a low surrogate stand for together.
pub open spec fn join_surrogates(high: u16, low: u16) -> u32 {
    (0x10000 + (high - 0xD800) * 0x400 + (low - 0xDC00)) as u32
}

/// The high surrogate of a code point above the 16-bit range.
pub open spec fn high_surrogate_of(code_point: u32) -> u16 {
    (0xD800 + (code_point - 0x10000) / 0x400) as u16
}

/// The low surrogate of a code point above the 16-bit range.
pub open spec fn low_surrogate_of(code_point: u32) -> u16 {
    (0xDC00 + (code_point - 0x10000) % 0x400) as u16
}

/// The 16-bit units of one code point: itself below `0x10000`, a surrogate
/// pair from there on.
pub open spec fn code_point_units(code_point: u32) -> Seq<u16> {
    if code_point < 0x10000 {
        seq![code_point as u16]
    } else {
        seq![high_surrogate_of(code_point), low_surrogate_of(code_point)]
    }
}

/// The bytes of one code point. Unlike UTF-8 proper, the surrogate range is
/// encoded too, with three bytes like its neighbours.
pub open spec fn encode_code_point(code_point: u32) -> Seq<u8> {
    if code_point < 0x80 {
        seq![leading_byte_width_1(code_point)]
    } else if code_point < 0x800 {
        seq![leading_byte_width_2(code_point), last_continuation_byte(code_point)]
    } else if code_point < 0x10000 {
        seq![
            leading_byte_width_3(code_point),
            second_last_continuation_byte(code_point),
            last_continuation_byte(code_point),
        ]
    } else {
        seq![
            leading_byte_width_4(code_point),
            third_last_continuation_byte(code_point),
            second_last_continuation_byte(code_point),
            last_continuation_byte(code_point),
        ]
    }
}

/// The byte form of a 16-bit string. A high surrogate directly followed by a
/// low one is read as a pair and yields four bytes; every other unit yields
/// its own one to three bytes.
pub open spec fn wide_to_bytes(wide: Seq<u16>) -> Seq<u8>
    decreases wide.len(),
{
    if wide.len() == 0 {
        Seq::empty()
    } else if wide.len() >= 2 && is_high_surrogate(wide[0]) && is_low_surrogate(wide[1]) {
        encode_code_point(join_surrogates(wide[0], wide[1])) + wide_to_bytes(wide.skip(2))
    } else {
        encode_code_point(wide[0] as u32) + wide_to_bytes(wide.skip(1))
    }
}

/// What is wrong with the byte expected at `index` as a continuation byte,
/// if anything.
pub open spec fn continuation_error(bytes: Seq<u8>, index: int) -> Option<EncodingError> {
    if index >= bytes.len() {
        Some(EncodingError::End())
    } else if !is_continuation_byte(bytes[index]) {
        Some(EncodingError::Byte(bytes[index]))
    } else {
        None
    }
}

/// The payload of a two-byte unit.
pub open spec fn code_point_2(b0: u8, b1: u8) -> u32 {
    ((b0 & 0x1F) as u32) << 6 | (b1 & 0x3F) as u32
}

/// The payload of a three-byte unit.
pub open spec fn code_point_3(b0: u8, b1: u8, b2: u8) -> u32 {
    ((b0 & 0x0F) as u32) << 12 | ((b1 & 0x3F) as u32) << 6 | (b2 & 0x3F) as u32
}

/// The payload of a four-byte unit. Four bits of the lead byte are kept, so
/// that a lead byte above `0xF7` shows in the code point that is reported.
pub open spec fn code_point_4(b0: u8, b1: u8, b2: u8, b3: u8) -> u32 {
    ((b0 & 0x0F) as u32) << 18 | ((b1 & 0x3F) as u32) << 12 | ((b2 & 0x3F) as u32) << 6 | (b3
        & 0x3F) as u32
}

/// A code point in the range of the high surrogates.
pub open spec fn is_high_surrogate_code(code_point: u32) -> bool {
    0xD800 <= code_point <= 0xDBFF
}

/// A code point in the range of the low surrogates.
pub open spec fn is_low_surrogate_code(code_point: u32) -> bool {
    0xDC00 <= code_point <= 0xDFFF
}

/// Reads the unit at the start of a non-empty byte string: its code point
/// and its length, or the reason why there is none.
///
/// `after_high` says that the unit before was a high surrogate on its own. A
/// low surrogate may not follow it: the two would have been written as one
/// four-byte unit.
pub open spec fn decode_code_point(bytes: Seq<u8>, after_high: bool) -> Result<
    (u32, nat),
    EncodingError,
> {
    let b0 = bytes[0];
    if b0 < 0x80 {
        Ok((b0 as u32, 1nat))
    } else if b0 < 0xC2 {
        Err(EncodingError::Byte(b0))
    } else if b0 < 0xE0 {
        match continuation_error(bytes, 1) {
            Some(e) => Err(e),
            None => Ok((code_point_2(b0, bytes[1]), 2nat)),
        }
    } else if b0 < 0xF0 {
        if continuation_error(bytes, 1) is Some {
            Err(continuation_error(bytes, 1)->0)
        } else if continuation_error(bytes, 2) is Some {
            Err(continuation_error(bytes, 2)->0)
        } else {
            let code_point = code_point_3(b0, bytes[1], bytes[2]);
            if code_point < 0x800 || (after_high && is_low_surrogate_code(code_point)) {
                Err(EncodingError::CodePoint(code_point))
            } else {
                Ok((code_point, 3nat))
            }
        }
    } else {
        if continuation_error(bytes, 1) is Some {
            Err(continuation_error(bytes, 1)->0)
        } else if continuation_error(bytes, 2) is Some {
            Err(continuation_error(bytes, 2)->0)
        } else if continuation_error(bytes, 3) is Some {
            Err(continuation_error(bytes, 3)->0)
        } else {
            let code_point = code_point_4(b0, bytes[1], bytes[2], bytes[3]);
            if code_point < 0x10000 || code_point > 0x10FFFF {
                Err(EncodingError::CodePoint(code_point))
            } else {
                Ok((code_point, 4nat))
            }
        }
    }
}

/// The 16-bit string that a byte string stands for, or the first error met
/// when reading it from left to right.
///
/// A unit that was read has at least one byte and lies within the bytes, so
/// the last branch is never taken. It is there to make it plain that the
/// bytes left to read get fewer.
pub open spec fn bytes_to_wide(bytes: Seq<u8>, after_high: bool) -> Result<Seq<u16>, EncodingError>
    decreases bytes.len(),
{
    if bytes.len() == 0 {
        Ok(Seq::empty())
    } else {
        match decode_code_point(bytes, after_high) {
            Err(e) => Err(e),
            Ok((code_point, n)) => {
                if 0 < n <= bytes.len() {
                    match bytes_to_wide(bytes.skip(n as int), is_high_surrogate_code(code_point)) {
                        Err(e) => Err(e),
                        Ok(rest) => Ok(code_point_units(code_point) + rest),
                    }
                } else {
                    Err(EncodingError::End())
                }
            },
        }
    }
}

} // verus!
