//! Conversion between 16-bit platform strings and bytes.
//!
//! The bytes of a platform string are those of its UTF-8 form where it has
//! one. A surrogate that has no partner is written with three bytes, in the
//! way UTF-8 would write a code point of that value.

use vstd::prelude::*;
use crate::error::EncodingError;
use crate::windows::wtf8::convert::encode_wide;
use crate::windows::wtf8::convert::DecodeWide;
use crate::windows::wtf8::model::bytes_to_wide;
use crate::windows::wtf8::model::wide_to_bytes;

verus! {

/// Puts `units` in front of a result, unless the result is an error.
pub open spec fn prepend_units(units: Seq<u16>, rest: Result<Seq<u16>, EncodingError>) -> Result<
    Seq<u16>,
    EncodingError,
> {
    match rest {
        Ok(more) => Ok(units + more),
        Err(e) => Err(e),
    }
}

/// Reads the 16-bit string that `string` stands for.
///
/// Fails with the first error met from the left: a byte that cannot stand
/// where it is, a unit whose code point is not allowed, or the end of the
/// input inside a unit.
pub fn from_bytes(string: &[u8]) -> (r: Result<Vec<u16>, EncodingError>)
    ensures
        match r {
            Ok(wide) => bytes_to_wide(string@, false) == Ok::<Seq<u16>, EncodingError>(wide@),
            Err(e) => bytes_to_wide(string@, false) == Err::<Seq<u16>, EncodingError>(e),
        },
{
    let mut encoder = encode_wide(string);
    let mut encoded: Vec<u16> = Vec::new();
    assert(prepend_units(encoded@, encoder.outcome()) == bytes_to_wide(string@, false)) by {
        if let Ok(more) = encoder.outcome() {
            assert(encoded@ + more =~= more);
        }
    }
    loop
        invariant
            prepend_units(encoded@, encoder.outcome()) == bytes_to_wide(string@, false),
        decreases encoder.steps_left(),
    {
        let ghost before = encoded@;
        match encoder.next() {
            None => {
                assert(encoded@ + Seq::<u16>::empty() =~= encoded@);
                return Ok(encoded);
            },
            Some(Err(e)) => {
                return Err(e);
            },
            Some(Ok(unit)) => {
                encoded.push(unit);
                proof {
                    if let Ok(more) = encoder.outcome() {
                        assert(before + (seq![unit] + more) =~= encoded@ + more);
                    }
                }
            },
        }
    }
}

/// Writes the bytes of a 16-bit string.
pub fn to_bytes(string: &[u16]) -> (r: Vec<u8>)
    ensures
        r@ == wide_to_bytes(string@),
{
    let mut decoder = DecodeWide::new(string);
    let mut bytes: Vec<u8> = Vec::new();
    assert(bytes@ + decoder.remaining() =~= wide_to_bytes(string@));
    loop
        invariant
            bytes@ + decoder.remaining() == wide_to_bytes(string@),
        decreases decoder.remaining().len(),
    {
        let ghost before = bytes@;
        let ghost pending = decoder.remaining();
        match decoder.next() {
            None => {
                assert(bytes@ + pending =~= bytes@);
                return bytes;
            },
            Some(byte) => {
                bytes.push(byte);
                assert(before + (seq![byte] + decoder.remaining()) =~= bytes@
                    + decoder.remaining());
            },
        }
    }
}

/// Reads a platform string from borrowed bytes.
pub fn os_str_from_bytes(string: &[u8]) -> (r: Result<Vec<u16>, EncodingError>)
    ensures
        match r {
            Ok(wide) => bytes_to_wide(string@, false) == Ok::<Seq<u16>, EncodingError>(wide@),
            Err(e) => bytes_to_wide(string@, false) == Err::<Seq<u16>, EncodingError>(e),
        },
{
    from_bytes(string)
}

/// Writes the bytes of a borrowed platform string.
pub fn os_str_to_bytes(string: &[u16]) -> (r: Vec<u8>)
    ensures
        r@ == wide_to_bytes(string@),
{
    to_bytes(string)
}

/// Reads a platform string from owned bytes.
pub fn os_string_from_vec(string: Vec<u8>) -> (r: Result<Vec<u16>, EncodingError>)
    ensures
        match r {
            Ok(wide) => bytes_to_wide(string@, false) == Ok::<Seq<u16>, EncodingError>(wide@),
            Err(e) => bytes_to_wide(string@, false) == Err::<Seq<u16>, EncodingError>(e),
        },
{
    from_bytes(string.as_slice())
}

/// Writes the bytes of an owned platform string.
pub fn os_string_into_vec(string: Vec<u16>) -> (r: Vec<u8>)
    ensures
        r@ == wide_to_bytes(string@),
{
    to_bytes(string.as_slice())
}

} // verus!
