//! Constants and byte classification shared by the encoders.

use vstd::prelude::*;
use vstd::utf8::is_continuation_byte;

verus! {

/// Number of payload bits carried by one continuation byte.
pub const BYTE_SHIFT: u8 = 6;

/// Mask selecting the payload bits of a continuation byte.
pub const CONT_MASK: u8 = 0x3F;

/// Tag carried in the two high bits of every continuation byte.
pub const CONT_TAG: u8 = 0x80;

/// Longest encoding of a single code point, in bytes.
pub const MAX_UTF8_LENGTH: usize = 4;

/// Tells whether `byte` has the form `10xxxxxx`.
pub fn is_continuation(byte: u8) -> (r: bool)
    ensures
        r == is_continuation_byte(byte),
{
    assert((byte & !0x3Fu8 == 0x80u8) == (0x80u8 <= byte && byte <= 0xBFu8)) by (bit_vector);
    byte & !CONT_MASK == CONT_TAG
}

/// Tells whether a non-empty byte string starts at the first byte of an
/// encoded code point.
pub fn is_boundary(bytes: &[u8]) -> (r: bool)
    requires
        bytes.len() > 0,
    ensures
        r == !is_continuation_byte(bytes[0]),
{
    !is_continuation(bytes[0])
}

} // verus!
