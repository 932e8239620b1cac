//! Comparison of platform strings that are text: by their bytes.

pub use crate::common::raw::ends_with;
pub use crate::common::raw::starts_with;

use vstd::prelude::*;
use crate::raw_str::RawOsStr;

verus! {

/// Writes a string that holds no text behind `f`. Where every platform
/// string is text, only the empty string holds none, and nothing is
/// written.
pub fn debug(string: &RawOsStr, f: &mut String)
    requires
        string@.len() == 0,
    ensures
        final(f)@ == old(f)@,
{
}

} // verus!
