//! Comparison of platform strings by their bytes.

use vstd::prelude::*;
use vstd::string::StringExecFns;
use crate::error::hex_digits;
use crate::error::push_hex;
use crate::ext::ends_with_bytes;
use crate::ext::has_prefix;
use crate::ext::has_suffix;
use crate::ext::starts_with_bytes;
use crate::raw_str::RawOsStr;

verus! {

/// Tells whether the platform string with the bytes `string` ends with the
/// one with the bytes `suffix`.
pub fn ends_with(string: &[u8], suffix: &[u8]) -> (r: bool)
    ensures
        r == has_suffix(string@, suffix@),
{
    ends_with_bytes(string, suffix)
}

/// Tells whether the platform string with the bytes `string` starts with the
/// one with the bytes `prefix`.
pub fn starts_with(string: &[u8], prefix: &[u8]) -> (r: bool)
    ensures
        r == has_prefix(string@, prefix@),
{
    starts_with_bytes(string, prefix)
}

/// The bytes as they are shown: each as `\x` and two hexadecimal digits.
pub open spec fn debug_text(string: Seq<u8>) -> Seq<char>
    decreases string.len(),
{
    if string.len() == 0 {
        Seq::empty()
    } else {
        debug_text(string.drop_last()) + "\\x"@ + hex_digits(string.last() as nat, 2)
    }
}

/// Writes a string that holds no text behind `f`, each byte as `\x` and
/// two hexadecimal digits.
pub fn debug(string: &RawOsStr, f: &mut String)
    ensures
        final(f)@ == old(f)@ + debug_text(string@),
{
    let bytes = string.as_encoded_bytes();
    let mut i: usize = 0;
    assert(bytes@.take(0) =~= Seq::<u8>::empty());
    assert(f@ =~= old(f)@ + debug_text(bytes@.take(0)));
    while i < bytes.len()
        invariant
            i <= bytes@.len(),
            f@ == old(f)@ + debug_text(bytes@.take(i as int)),
        decreases bytes@.len() - i,
    {
        let ghost before = f@;
        f.append("\\x");
        push_hex(f, bytes[i] as u32, 2);
        proof {
            let shown = bytes@.take(i + 1);
            assert(shown.drop_last() =~= bytes@.take(i as int));
            assert(shown.last() == bytes@[i as int]);
            assert(f@ =~= old(f)@ + debug_text(shown));
        }
        i += 1;
    }
    assert(bytes@.take(bytes@.len() as int) =~= bytes@);
}

} // verus!
