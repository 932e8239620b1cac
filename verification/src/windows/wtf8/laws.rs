//! Reading and writing the byte form of 16-bit strings undo each other.

use vstd::prelude::*;
use vstd::utf8::*;
use crate::error::EncodingError;
use crate::windows::wtf8::model::bytes_to_wide;
use crate::windows::wtf8::model::code_point_2;
use crate::windows::wtf8::model::code_point_3;
use crate::windows::wtf8::model::code_point_4;
use crate::windows::wtf8::model::code_point_units;
use crate::windows::wtf8::model::decode_code_point;
use crate::windows::wtf8::model::encode_code_point;
use crate::windows::wtf8::model::high_surrogate_of;
use crate::windows::wtf8::model::is_high_surrogate;
use crate::windows::wtf8::model::is_high_surrogate_code;
use crate::windows::wtf8::model::is_low_surrogate;
use crate::windows::wtf8::model::is_low_surrogate_code;
use crate::windows::wtf8::model::join_surrogates;
use crate::windows::wtf8::model::low_surrogate_of;
use crate::windows::wtf8::model::wide_to_bytes;

verus! {

/// The bytes written for a code point have the shape of a unit and carry the
/// code point.
proof fn lemma_encoded_bits(code_point: u32)
    requires
        code_point <= 0x10FFFF,
    ensures
        code_point < 0x80 ==> {
            let b0 = leading_byte_width_1(code_point);
            b0 < 0x80 && b0 as u32 == code_point
        },
        0x80 <= code_point < 0x800 ==> {
            let b0 = leading_byte_width_2(code_point);
            let b1 = last_continuation_byte(code_point);
            &&& 0xC2 <= b0 < 0xE0
            &&& is_continuation_byte(b1)
            &&& code_point_2(b0, b1) == code_point
        },
        0x800 <= code_point < 0x10000 ==> {
            let b0 = leading_byte_width_3(code_point);
            let b1 = second_last_continuation_byte(code_point);
            let b2 = last_continuation_byte(code_point);
            &&& 0xE0 <= b0 < 0xF0
            &&& is_continuation_byte(b1)
            &&& is_continuation_byte(b2)
            &&& code_point_3(b0, b1, b2) == code_point
        },
        0x10000 <= code_point ==> {
            let b0 = leading_byte_width_4(code_point);
            let b1 = third_last_continuation_byte(code_point);
            let b2 = second_last_continuation_byte(code_point);
            let b3 = last_continuation_byte(code_point);
            &&& 0xF0 <= b0
            &&& is_continuation_byte(b1)
            &&& is_continuation_byte(b2)
            &&& is_continuation_byte(b3)
            &&& code_point_4(b0, b1, b2, b3) == code_point
        },
{
    assert(code_point < 0x80 ==> {
        let b0 = leading_byte_width_1(code_point);
        b0 < 0x80 && b0 as u32 == code_point
    }) by (bit_vector);
    assert(0x80 <= code_point < 0x800 ==> {
        let b0 = leading_byte_width_2(code_point);
        let b1 = last_continuation_byte(code_point);
        &&& 0xC2 <= b0 < 0xE0
        &&& is_continuation_byte(b1)
        &&& code_point_2(b0, b1) == code_point
    }) by (bit_vector);
    assert(0x800 <= code_point < 0x10000 ==> {
        let b0 = leading_byte_width_3(code_point);
        let b1 = second_last_continuation_byte(code_point);
        let b2 = last_continuation_byte(code_point);
        &&& 0xE0 <= b0 < 0xF0
        &&& is_continuation_byte(b1)
        &&& is_continuation_byte(b2)
        &&& code_point_3(b0, b1, b2) == code_point
    }) by (bit_vector);
    assert(0x10000 <= code_point <= 0x10FFFF ==> {
        let b0 = leading_byte_width_4(code_point);
        let b1 = third_last_continuation_byte(code_point);
        let b2 = second_last_continuation_byte(code_point);
        let b3 = last_continuation_byte(code_point);
        &&& 0xF0 <= b0
        &&& is_continuation_byte(b1)
        &&& is_continuation_byte(b2)
        &&& is_continuation_byte(b3)
        &&& code_point_4(b0, b1, b2, b3) == code_point
    }) by (bit_vector);
}

/// The code point carried by bytes in the shape of a unit is written back
/// as those bytes, provided it is not overlong or out of range.
proof fn lemma_decoded_bits(b0: u8, b1: u8, b2: u8, b3: u8)
    ensures
        b0 < 0x80 ==> leading_byte_width_1(b0 as u32) == b0,
        0xC2 <= b0 < 0xE0 && is_continuation_byte(b1) ==> {
            let c = code_point_2(b0, b1);
            &&& 0x80 <= c < 0x800
            &&& leading_byte_width_2(c) == b0
            &&& last_continuation_byte(c) == b1
        },
        0xE0 <= b0 < 0xF0 && is_continuation_byte(b1) && is_continuation_byte(b2) ==> {
            let c = code_point_3(b0, b1, b2);
            &&& c < 0x10000
            &&& leading_byte_width_3(c) == b0
            &&& second_last_continuation_byte(c) == b1
            &&& last_continuation_byte(c) == b2
        },
        0xF0 <= b0 && is_continuation_byte(b1) && is_continuation_byte(b2) && is_continuation_byte(
            b3,
        ) && code_point_4(b0, b1, b2, b3) <= 0x10FFFF ==> {
            let c = code_point_4(b0, b1, b2, b3);
            &&& leading_byte_width_4(c) == b0
            &&& third_last_continuation_byte(c) == b1
            &&& second_last_continuation_byte(c) == b2
            &&& last_continuation_byte(c) == b3
        },
{
    assert(b0 < 0x80 ==> leading_byte_width_1(b0 as u32) == b0) by (bit_vector);
    assert(0xC2 <= b0 < 0xE0 && is_continuation_byte(b1) ==> {
        let c = code_point_2(b0, b1);
        &&& 0x80 <= c < 0x800
        &&& leading_byte_width_2(c) == b0
        &&& last_continuation_byte(c) == b1
    }) by (bit_vector);
    assert(0xE0 <= b0 < 0xF0 && is_continuation_byte(b1) && is_continuation_byte(b2) ==> {
        let c = code_point_3(b0, b1, b2);
        &&& c < 0x10000
        &&& leading_byte_width_3(c) == b0
        &&& second_last_continuation_byte(c) == b1
        &&& last_continuation_byte(c) == b2
    }) by (bit_vector);
    assert(0xF0 <= b0 && is_continuation_byte(b1) && is_continuation_byte(b2)
        && is_continuation_byte(b3) && code_point_4(b0, b1, b2, b3) <= 0x10FFFF ==> {
        let c = code_point_4(b0, b1, b2, b3);
        &&& leading_byte_width_4(c) == b0
        &&& third_last_continuation_byte(c) == b1
        &&& second_last_continuation_byte(c) == b2
        &&& last_continuation_byte(c) == b3
    }) by (bit_vector);
}

/// Reading the bytes of a code point gives the code point back, whatever
/// follows them.
pub proof fn lemma_decode_encoded(code_point: u32, rest: Seq<u8>, after_high: bool)
    requires
        code_point <= 0x10FFFF,
        !(after_high && is_low_surrogate_code(code_point)),
    ensures
        decode_code_point(encode_code_point(code_point) + rest, after_high) == Ok::<
            (u32, nat),
            EncodingError,
        >((code_point, encode_code_point(code_point).len())),
{
    lemma_encoded_bits(code_point);
    let unit = encode_code_point(code_point);
    let bytes = unit + rest;
    assert(forall|k: int| 0 <= k < unit.len() ==> bytes[k] == unit[k]);
}

/// A unit that can be read consists of the bytes of its code point.
pub proof fn lemma_encode_decoded(bytes: Seq<u8>, after_high: bool)
    requires
        bytes.len() > 0,
    ensures
        decode_code_point(bytes, after_high) matches Ok((code_point, n)) ==> {
            &&& 0 < n <= bytes.len()
            &&& code_point <= 0x10FFFF
            &&& encode_code_point(code_point) == bytes.take(n as int)
            &&& !(after_high && is_low_surrogate_code(code_point))
            &&& (code_point >= 0x10000 ==> n == 4)
        },
{
    if let Ok((code_point, n)) = decode_code_point(bytes, after_high) {
        let b1 = if bytes.len() > 1 {
            bytes[1]
        } else {
            0u8
        };
        let b2 = if bytes.len() > 2 {
            bytes[2]
        } else {
            0u8
        };
        let b3 = if bytes.len() > 3 {
            bytes[3]
        } else {
            0u8
        };
        lemma_decoded_bits(bytes[0], b1, b2, b3);
        assert(encode_code_point(code_point) =~= bytes.take(n as int));
    }
}

/// Splitting a joined pair gives the pair back.
proof fn lemma_join_then_split(high: u16, low: u16)
    requires
        is_high_surrogate(high),
        is_low_surrogate(low),
    ensures
        0x10000 <= join_surrogates(high, low) <= 0x10FFFF,
        high_surrogate_of(join_surrogates(high, low)) == high,
        low_surrogate_of(join_surrogates(high, low)) == low,
{
}

/// Joining the surrogates of a code point gives the code point back.
proof fn lemma_split_then_join(code_point: u32)
    requires
        0x10000 <= code_point <= 0x10FFFF,
    ensures
        is_high_surrogate(high_surrogate_of(code_point)),
        is_low_surrogate(low_surrogate_of(code_point)),
        join_surrogates(high_surrogate_of(code_point), low_surrogate_of(code_point)) == code_point,
{
}

/// The round trip from any starting state of the reader: the string may not
/// begin with a low surrogate where the reader has just seen a high one.
pub proof fn lemma_round_trip_from(wide: Seq<u16>, after_high: bool)
    requires
        after_high ==> wide.len() == 0 || !is_low_surrogate(wide[0]),
    ensures
        bytes_to_wide(wide_to_bytes(wide), after_high) == Ok::<Seq<u16>, EncodingError>(wide),
    decreases wide.len(),
{
    if wide.len() == 0 {
        assert(wide =~= Seq::<u16>::empty());
    } else {
        let paired = wide.len() >= 2 && is_high_surrogate(wide[0]) && is_low_surrogate(wide[1]);
        let used: int = if paired {
            2
        } else {
            1
        };
        let code_point = if paired {
            join_surrogates(wide[0], wide[1])
        } else {
            wide[0] as u32
        };
        let tail = wide.skip(used);
        let rest = wide_to_bytes(tail);
        let unit = encode_code_point(code_point);
        let bytes = wide_to_bytes(wide);
        assert(bytes == unit + rest);
        if paired {
            lemma_join_then_split(wide[0], wide[1]);
        }
        lemma_decode_encoded(code_point, rest, after_high);
        assert(bytes.skip(unit.len() as int) =~= rest);
        if tail.len() > 0 {
            assert(tail[0] == wide[used]);
        }
        lemma_round_trip_from(tail, is_high_surrogate_code(code_point));
        assert(code_point_units(code_point) + tail =~= wide);
        assert(0 < unit.len() <= bytes.len());
        assert(bytes_to_wide(bytes, after_high) == Ok::<Seq<u16>, EncodingError>(
            code_point_units(code_point) + tail,
        ));
    }
}

/// What can be read is written back as it was, from any starting state of
/// the reader. What was read does not begin with a low surrogate where the
/// reader had just seen a high one.
pub proof fn lemma_partial_round_trip_from(bytes: Seq<u8>, after_high: bool)
    ensures
        bytes_to_wide(bytes, after_high) matches Ok(wide) ==> {
            &&& wide_to_bytes(wide) == bytes
            &&& (after_high ==> wide.len() == 0 || !is_low_surrogate(wide[0]))
        },
    decreases bytes.len(),
{
    if bytes.len() == 0 {
    } else if let Ok(wide) = bytes_to_wide(bytes, after_high) {
        lemma_encode_decoded(bytes, after_high);
        let (code_point, n) = decode_code_point(bytes, after_high)->Ok_0;
        let rest = bytes.skip(n as int);
        let next_high = is_high_surrogate_code(code_point);
        lemma_partial_round_trip_from(rest, next_high);
        let tail = bytes_to_wide(rest, next_high)->Ok_0;
        let units = code_point_units(code_point);
        assert(wide == units + tail);
        if code_point >= 0x10000 {
            lemma_split_then_join(code_point);
            assert(wide[0] == units[0]);
            assert(wide[1] == units[1]);
            assert(wide.skip(2) =~= tail);
        } else {
            assert(wide[0] == code_point as u16);
            if tail.len() > 0 {
                assert(wide[1] == tail[0]);
            }
            assert(wide.skip(1) =~= tail);
        }
        assert(wide_to_bytes(wide) == encode_code_point(code_point) + wide_to_bytes(tail));
        assert(bytes.take(n as int) + bytes.skip(n as int) =~= bytes);
    }
}

/// Writing a 16-bit string as bytes and reading those bytes gives the string
/// back.
pub proof fn lemma_round_trip(wide: Seq<u16>)
    ensures
        bytes_to_wide(wide_to_bytes(wide), false) == Ok::<Seq<u16>, EncodingError>(wide),
{
    lemma_round_trip_from(wide, false);
}

/// Where bytes can be read as a 16-bit string, writing that string gives the
/// same bytes.
pub proof fn lemma_partial_round_trip(bytes: Seq<u8>)
    ensures
        bytes_to_wide(bytes, false) matches Ok(wide) ==> wide_to_bytes(wide) == bytes,
{
    lemma_partial_round_trip_from(bytes, false);
}

/// How the payloads of units compare with those of UTF-8.
proof fn lemma_payload_bits(b0: u8, b1: u8, b2: u8, b3: u8)
    ensures
        b0 < 0x80 ==> codepoint_width_1(b0) == b0 as u32 && codepoint_width_1(b0) < 0x80,
        code_point_2(b0, b1) == codepoint_width_2(b0, b1),
        0xC0 <= b0 < 0xC2 ==> codepoint_width_2(b0, b1) < 0x80,
        0xC2 <= b0 < 0xE0 ==> 0x80 <= codepoint_width_2(b0, b1) < 0x800,
        code_point_3(b0, b1, b2) == codepoint_width_3(b0, b1, b2),
        0xE0 <= b0 < 0xF0 ==> codepoint_width_3(b0, b1, b2) < 0x10000,
        0xF0 <= b0 < 0xF8 ==> code_point_4(b0, b1, b2, b3) == codepoint_width_4(b0, b1, b2, b3),
        0xF8 <= b0 ==> code_point_4(b0, b1, b2, b3) > 0x10FFFF,
{
    assert(b0 < 0x80 ==> codepoint_width_1(b0) == b0 as u32 && codepoint_width_1(b0) < 0x80)
        by (bit_vector);
    assert(code_point_2(b0, b1) == codepoint_width_2(b0, b1)) by (bit_vector);
    assert(0xC0 <= b0 < 0xC2 ==> codepoint_width_2(b0, b1) < 0x80) by (bit_vector);
    assert(0xC2 <= b0 < 0xE0 ==> 0x80 <= codepoint_width_2(b0, b1) < 0x800) by (bit_vector);
    assert(code_point_3(b0, b1, b2) == codepoint_width_3(b0, b1, b2)) by (bit_vector);
    assert(0xE0 <= b0 < 0xF0 ==> codepoint_width_3(b0, b1, b2) < 0x10000) by (bit_vector);
    assert(0xF0 <= b0 < 0xF8 ==> code_point_4(b0, b1, b2, b3) == codepoint_width_4(b0, b1, b2, b3))
        by (bit_vector);
    assert(0xF8 <= b0 ==> code_point_4(b0, b1, b2, b3) > 0x10FFFF) by (bit_vector);
}

/// A unit that can be read and is no surrogate is a scalar value of UTF-8,
/// and nothing else is: a surrogate is none, and where no unit can be read
/// there is none.
pub proof fn lemma_unit_is_scalar(bytes: Seq<u8>, after_high: bool)
    requires
        bytes.len() > 0,
    ensures
        match decode_code_point(bytes, after_high) {
            Ok((code_point, n)) => if 0xD800 <= code_point <= 0xDFFF {
                !valid_first_scalar(bytes)
            } else {
                valid_first_scalar(bytes) && length_of_first_scalar(bytes) == n
            },
            Err(_) => !valid_first_scalar(bytes),
        },
{
    let b1 = if bytes.len() > 1 {
        bytes[1]
    } else {
        0u8
    };
    let b2 = if bytes.len() > 2 {
        bytes[2]
    } else {
        0u8
    };
    let b3 = if bytes.len() > 3 {
        bytes[3]
    } else {
        0u8
    };
    lemma_payload_bits(bytes[0], b1, b2, b3);
}

/// Bytes that are UTF-8 are the byte form of a 16-bit string.
pub proof fn lemma_text_is_readable(bytes: Seq<u8>, after_high: bool)
    requires
        valid_utf8(bytes),
    ensures
        bytes_to_wide(bytes, after_high) is Ok,
    decreases bytes.len(),
{
    if bytes.len() > 0 {
        lemma_unit_is_scalar(bytes, after_high);
        lemma_encode_decoded(bytes, after_high);
        let (code_point, n) = decode_code_point(bytes, after_high)->Ok_0;
        assert(bytes.skip(n as int) =~= pop_first_scalar(bytes));
        lemma_text_is_readable(bytes.skip(n as int), is_high_surrogate_code(code_point));
    }
}

} // verus!
