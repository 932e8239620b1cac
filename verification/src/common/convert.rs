//! Conversion where a platform string is its bytes: nothing changes and
//! nothing can fail.

use vstd::prelude::*;
use crate::error::EncodingError;

verus! {

/// Reads a platform string from borrowed bytes.
pub fn os_str_from_bytes(string: &[u8]) -> (r: Result<&[u8], EncodingError>)
    ensures
        r matches Ok(native) && native@ == string@,
{
    Ok(string)
}

/// The bytes of a borrowed platform string.
pub fn os_str_to_bytes(string: &[u8]) -> (r: &[u8])
    ensures
        r@ == string@,
{
    string
}

/// Reads a platform string from owned bytes.
pub fn os_string_from_vec(string: Vec<u8>) -> (r: Result<Vec<u8>, EncodingError>)
    ensures
        r matches Ok(native) && native@ == string@,
{
    Ok(string)
}

/// The bytes of an owned platform string.
pub fn os_string_into_vec(string: Vec<u8>) -> (r: Vec<u8>)
    ensures
        r@ == string@,
{
    string
}

} // verus!
