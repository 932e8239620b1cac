//! Comparing 16-bit strings by their byte forms.
//!
//! A surrogate pair is written as one unit of four bytes, and each of its
//! halves alone as a unit of three. So where a string is cut between the
//! halves of a pair, the bytes of the parts are not parts of its bytes, and
//! a comparison of bytes has to read the unit at the cut.

use vstd::prelude::*;
use vstd::slice::slice_subrange;
use vstd::utf8::*;
use crate::ext::ends_with_bytes;
use crate::ext::has_prefix;
use crate::ext::has_suffix;
use crate::ext::starts_with_bytes;
use crate::util::is_continuation;
use crate::windows::wtf8::code_points::CodePoints;
use crate::windows::wtf8::convert::lemma_code_point_range;
use crate::windows::wtf8::model::code_point_units;
use crate::windows::wtf8::model::decode_code_point;
use crate::windows::wtf8::model::is_high_surrogate_code;
use crate::windows::wtf8::model::low_surrogate_of;

verus! {

/// Length of the bytes of a surrogate on its own.
pub const SURROGATE_LENGTH: usize = 3;

/// The 16-bit unit that `bytes` stand for, where they are one unit of the
/// byte form that stands for one 16-bit unit.
pub open spec fn lone_unit(bytes: Seq<u8>) -> Option<u16> {
    if bytes.len() == 0 {
        None
    } else {
        match decode_code_point(bytes, false) {
            Ok((code_point, n)) => if n == bytes.len() && code_point < 0x10000 {
                Some(code_point as u16)
            } else {
                None
            },
            Err(_) => None,
        }
    }
}

/// The first 16-bit unit that can be read from `bytes`.
pub open spec fn first_unit(bytes: Seq<u8>) -> Option<u16> {
    if bytes.len() == 0 {
        None
    } else {
        match decode_code_point(bytes, false) {
            Ok((code_point, _)) => Some(code_point_units(code_point)[0]),
            Err(_) => None,
        }
    }
}

/// The second 16-bit unit that can be read from `bytes`.
pub open spec fn second_unit(bytes: Seq<u8>) -> Option<u16> {
    if bytes.len() == 0 {
        None
    } else {
        match decode_code_point(bytes, false) {
            Ok((code_point, n)) => if code_point >= 0x10000 {
                Some(low_surrogate_of(code_point))
            } else if n < bytes.len() {
                match decode_code_point(bytes.skip(n as int), is_high_surrogate_code(code_point)) {
                    Ok((next, _)) => Some(code_point_units(next)[0]),
                    Err(_) => None,
                }
            } else {
                None
            },
            Err(_) => None,
        }
    }
}

/// `string` ends with `suffix`, both taken as byte forms of 16-bit strings.
///
/// Either the bytes of `suffix` stand at the end of `string` and begin where
/// a unit of `string` begins, or `suffix` begins with a unit of three bytes
/// that stands for the second half of the four-byte unit of `string` in
/// which it begins, and what follows that unit is the same in both.
pub open spec fn wtf8_has_suffix(string: Seq<u8>, suffix: Seq<u8>) -> bool {
    let index = string.len() - suffix.len();
    if index < 0 {
        false
    } else if index < string.len() && is_continuation_byte(string[index]) {
        &&& index >= 1
        &&& suffix.len() >= 3
        &&& lone_unit(suffix.take(3)) is Some
        &&& second_unit(string.skip(index - 1)) == lone_unit(suffix.take(3))
        &&& has_suffix(string, suffix.skip(3))
    } else {
        has_suffix(string, suffix)
    }
}

/// `string` starts with `prefix`, both taken as byte forms of 16-bit
/// strings.
///
/// Either the bytes of `prefix` stand at the start of `string` and end where
/// a unit of `string` ends, or `prefix` ends with a unit of three bytes that
/// stands for the first half of the four-byte unit of `string` in which it
/// ends, and what precedes that unit is the same in both.
pub open spec fn wtf8_has_prefix(string: Seq<u8>, prefix: Seq<u8>) -> bool {
    if prefix.len() < string.len() && is_continuation_byte(string[prefix.len() as int]) {
        let index = prefix.len() - 3;
        &&& index >= 0
        &&& lone_unit(prefix.skip(index)) is Some
        &&& first_unit(string.skip(index)) == lone_unit(prefix.skip(index))
        &&& has_prefix(string, prefix.take(index))
    } else {
        has_prefix(string, prefix)
    }
}

/// Reads `bytes` as one unit that stands for one 16-bit unit.
fn read_lone_unit(bytes: &[u8]) -> (r: Option<u16>)
    ensures
        r == lone_unit(bytes@),
{
    let mut points = CodePoints::new(bytes);
    match points.next() {
        Some(Ok(code_point)) => {
            match points.next() {
                None => if code_point < 0x10000 {
                    Some(code_point as u16)
                } else {
                    None
                },
                Some(_) => None,
            }
        },
        _ => None,
    }
}

/// Reads the first 16-bit unit of `bytes`.
fn read_first_unit(bytes: &[u8]) -> (r: Option<u16>)
    ensures
        r == first_unit(bytes@),
{
    let mut points = CodePoints::new(bytes);
    match points.next() {
        Some(Ok(code_point)) => {
            proof {
                lemma_code_point_range(bytes@, false);
            }
            Some(unit_of(code_point))
        },
        _ => None,
    }
}

/// The first 16-bit unit of a code point.
fn unit_of(code_point: u32) -> (r: u16)
    requires
        code_point <= 0x10FFFF,
    ensures
        r == code_point_units(code_point)[0],
{
    if code_point >= 0x10000 {
        (0xD800 + (code_point - 0x10000) / 0x400) as u16
    } else {
        code_point as u16
    }
}

/// Reads the second 16-bit unit of `bytes`.
fn read_second_unit(bytes: &[u8]) -> (r: Option<u16>)
    ensures
        r == second_unit(bytes@),
{
    let mut points = CodePoints::new(bytes);
    match points.next() {
        Some(Ok(code_point)) => {
            proof {
                lemma_code_point_range(bytes@, false);
            }
            if code_point >= 0x10000 {
                Some((0xDC00 + (code_point - 0x10000) % 0x400) as u16)
            } else {
                let ghost rest = points.remaining();
                match points.next() {
                    Some(Ok(next)) => {
                        proof {
                            lemma_code_point_range(rest, is_high_surrogate_code(code_point));
                        }
                        Some(unit_of(next))
                    },
                    _ => None,
                }
            }
        },
        _ => None,
    }
}

/// Tells whether `string` ends with `suffix`, both taken as byte forms of
/// 16-bit strings.
pub fn ends_with(string: &[u8], suffix: &[u8]) -> (r: bool)
    ensures
        r == wtf8_has_suffix(string@, suffix@),
{
    if suffix.len() > string.len() {
        return false;
    }
    let index = string.len() - suffix.len();
    if index < string.len() && is_continuation(string[index]) {
        if index < 1 || suffix.len() < SURROGATE_LENGTH {
            return false;
        }
        let surrogate = slice_subrange(suffix, 0, SURROGATE_LENGTH);
        let around = slice_subrange(string, index - 1, string.len());
        let rest = slice_subrange(suffix, SURROGATE_LENGTH, suffix.len());
        proof {
            assert(surrogate@ =~= suffix@.take(3));
            assert(around@ =~= string@.skip(index - 1));
            assert(rest@ =~= suffix@.skip(3));
        }
        match read_lone_unit(surrogate) {
            None => false,
            Some(unit) => match read_second_unit(around) {
                None => false,
                Some(found) => found == unit && ends_with_bytes(string, rest),
            },
        }
    } else {
        ends_with_bytes(string, suffix)
    }
}

/// Tells whether `string` starts with `prefix`, both taken as byte forms of
/// 16-bit strings.
pub fn starts_with(string: &[u8], prefix: &[u8]) -> (r: bool)
    ensures
        r == wtf8_has_prefix(string@, prefix@),
{
    if prefix.len() < string.len() && is_continuation(string[prefix.len()]) {
        if prefix.len() < SURROGATE_LENGTH {
            return false;
        }
        let index = prefix.len() - SURROGATE_LENGTH;
        let surrogate = slice_subrange(prefix, index, prefix.len());
        let around = slice_subrange(string, index, string.len());
        let rest = slice_subrange(prefix, 0, index);
        proof {
            assert(surrogate@ =~= prefix@.skip(index as int));
            assert(around@ =~= string@.skip(index as int));
            assert(rest@ =~= prefix@.take(index as int));
        }
        match read_lone_unit(surrogate) {
            None => false,
            Some(unit) => match read_first_unit(around) {
                None => false,
                Some(found) => found == unit && starts_with_bytes(string, rest),
            },
        }
    } else {
        starts_with_bytes(string, prefix)
    }
}

} // verus!
