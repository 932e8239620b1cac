//! Reading a code point from bytes that are trusted to be well formed.

use vstd::prelude::*;

verus! {

/// Mask selecting the payload bits of a continuation byte.
pub const CONT_MASK: u8 = 0b0011_1111;

/// The payload of the first byte of a unit of `width` bytes.
pub open spec fn first_byte_payload(byte: u8, width: u32) -> u32 {
    (byte & (0x7Fu8 >> width)) as u32
}

/// The code point so far with the payload of one more continuation byte.
pub open spec fn with_continuation(ch: u32, byte: u8) -> u32 {
    (ch << 6) | (byte & 0x3Fu8) as u32
}

/// The byte at `index`, or zero behind the end.
pub open spec fn byte_or_zero(bytes: Seq<u8>, index: int) -> u8 {
    if 0 <= index < bytes.len() {
        bytes[index]
    } else {
        0
    }
}

/// The number of bytes that the unit with the first byte `first` takes.
pub open spec fn unit_width(first: u8) -> nat {
    if first < 128 {
        1
    } else if first < 0xE0 {
        2
    } else if first < 0xF0 {
        3
    } else {
        4
    }
}

/// The code point that the unit at the start of `bytes` yields when its
/// bytes are taken as they come: nothing is checked, and bytes that are
/// missing count as zero.
pub open spec fn raw_code_point(bytes: Seq<u8>) -> u32 {
    let x = bytes[0];
    let init = first_byte_payload(x, 2);
    let y = byte_or_zero(bytes, 1);
    let z = byte_or_zero(bytes, 2);
    let w = byte_or_zero(bytes, 3);
    let y_z = with_continuation((y & 0x3Fu8) as u32, z);
    if x < 128 {
        x as u32
    } else if x < 0xE0 {
        with_continuation(init, y)
    } else if x < 0xF0 {
        init << 12 | y_z
    } else {
        (init & 7) << 18 | with_continuation(y_z, w)
    }
}

/// Keeps the payload bits of the first byte of a unit of `width` bytes.
pub fn utf8_first_byte(byte: u8, width: u32) -> (r: u32)
    requires
        width < 8,
    ensures
        r == first_byte_payload(byte, width),
{
    (byte & (0x7Fu8 >> width)) as u32
}

/// Adds the payload of a continuation byte to a code point.
pub fn utf8_acc_cont_byte(ch: u32, byte: u8) -> (r: u32)
    ensures
        r == with_continuation(ch, byte),
{
    (ch << 6) | (byte & CONT_MASK) as u32
}

/// The byte, or zero where there is none.
pub fn unwrap_or_0(opt: Option<&u8>) -> (r: u8)
    ensures
        r == match opt {
            Some(byte) => *byte,
            None => 0u8,
        },
{
    match opt {
        Some(byte) => *byte,
        None => 0,
    }
}

/// Takes the byte at `position`, if there is one, and moves on.
fn next_byte<'a>(bytes: &'a [u8], position: &mut usize) -> (r: Option<&'a u8>)
    ensures
        *old(position) < bytes@.len() ==> {
            &&& r == Some(&bytes@[*old(position) as int])
            &&& *final(position) == *old(position) + 1
        },
        *old(position) >= bytes@.len() ==> r is None && *final(position) == *old(position),
{
    if *position < bytes.len() {
        let byte = &bytes[*position];
        *position = *position + 1;
        Some(byte)
    } else {
        None
    }
}

/// Takes the bytes of one unit from `bytes` at `position` and returns its
/// code point, or `None` where no byte is left. The position moves behind
/// the bytes that were taken.
pub fn next_code_point(bytes: &[u8], position: &mut usize) -> (r: Option<u32>)
    ensures
        *old(position) >= bytes@.len() ==> r is None && *final(position) == *old(position),
        *old(position) < bytes@.len() ==> {
            let rest = bytes@.skip(*old(position) as int);
            &&& r == Some(raw_code_point(rest))
            &&& *final(position) == if unit_width(rest[0]) <= rest.len() {
                *old(position) + unit_width(rest[0])
            } else {
                bytes@.len() as int
            }
        },
{
    let ghost start = *position as int;
    let ghost rest = bytes@.skip(start);
    assert(start < bytes@.len() ==> byte_or_zero(rest, 0) == byte_or_zero(bytes@, start));
    assert(start < bytes@.len() ==> byte_or_zero(rest, 1) == byte_or_zero(bytes@, start + 1));
    assert(start < bytes@.len() ==> byte_or_zero(rest, 2) == byte_or_zero(bytes@, start + 2));
    assert(start < bytes@.len() ==> byte_or_zero(rest, 3) == byte_or_zero(bytes@, start + 3));
    let x = match next_byte(bytes, position) {
        Some(byte) => *byte,
        None => {
            return None;
        },
    };
    if x < 128 {
        return Some(x as u32);
    }
    let init = utf8_first_byte(x, 2);
    let y = unwrap_or_0(next_byte(bytes, position));
    let mut ch = utf8_acc_cont_byte(init, y);
    if x >= 0xE0 {
        let z = unwrap_or_0(next_byte(bytes, position));
        let y_z = utf8_acc_cont_byte((y & CONT_MASK) as u32, z);
        ch = init << 12 | y_z;
        if x >= 0xF0 {
            let w = unwrap_or_0(next_byte(bytes, position));
            ch = (init & 7) << 18 | utf8_acc_cont_byte(y_z, w);
        }
    }
    Some(ch)
}

} // verus!
