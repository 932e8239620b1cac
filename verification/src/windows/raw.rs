//! Comparison of 16-bit platform strings by their byte forms.

pub use crate::windows::wtf8::string::ends_with;
pub use crate::windows::wtf8::string::starts_with;

use vstd::prelude::*;
use vstd::string::StringExecFns;
use crate::error::hex_digits;
use crate::error::push_hex;
use crate::error::EncodingError;
use crate::raw_str::RawOsStr;
use crate::windows::wtf8::convert::EncodeWide;
use crate::windows::wtf8::model::bytes_to_wide;

verus! {

/// Starts reading the 16-bit units of the string.
pub fn encode_wide<'a>(string: &RawOsStr<'a>) -> (r: EncodeWide<'a>)
    ensures
        r.pending_low() is None,
        r.unread() == string@,
        !r.after_high(),
{
    crate::windows::wtf8::convert::encode_wide(string.as_encoded_bytes())
}

/// The units as they are shown: each as `\u{`, its hexadecimal digits, and
/// `}`.
pub open spec fn debug_text(units: Seq<u16>) -> Seq<char>
    decreases units.len(),
{
    if units.len() == 0 {
        Seq::empty()
    } else {
        "\\u{"@ + hex_digits(units[0] as nat, 1) + "}"@ + debug_text(units.drop_first())
    }
}

/// What is written for a result of reading units: the units, as far as
/// they were read.
pub open spec fn debug_outcome(outcome: Result<Seq<u16>, EncodingError>) -> Seq<char> {
    match outcome {
        Ok(units) => debug_text(units),
        Err(_) => Seq::empty(),
    }
}

/// Writes the 16-bit units of a string behind `f`, each as `\u{`, its
/// hexadecimal digits, and `}`. Fails where the bytes of the string are
/// not the byte form of a 16-bit string.
pub fn debug(string: &RawOsStr, f: &mut String) -> (r: Result<(), EncodingError>)
    ensures
        match bytes_to_wide(string@, false) {
            Ok(units) => r is Ok && final(f)@ == old(f)@ + debug_text(units),
            Err(e) => r == Err::<(), EncodingError>(e),
        },
{
    let mut encoder = encode_wide(string);
    assert(f@ =~= old(f)@ + Seq::<char>::empty());
    loop
        invariant
            bytes_to_wide(string@, false) is Err ==> encoder.outcome() == bytes_to_wide(
                string@,
                false,
            ),
            bytes_to_wide(string@, false) matches Ok(units) ==> encoder.outcome() is Ok && f@
                + debug_text(encoder.outcome()->Ok_0) == old(f)@ + debug_text(units),
        decreases encoder.steps_left(),
    {
        let ghost before = f@;
        let ghost pending = encoder.outcome();
        match encoder.next() {
            None => {
                return Ok(());
            },
            Some(Err(e)) => {
                return Err(e);
            },
            Some(Ok(unit)) => {
                f.append("\\u{");
                push_hex(f, unit as u32, 1);
                f.append("}");
                proof {
                    if let Ok(units) = pending {
                        let rest = encoder.outcome()->Ok_0;
                        assert(units == seq![unit] + rest);
                        assert(units.drop_first() =~= rest);
                        assert(f@ + debug_text(rest) =~= before + debug_text(units));
                    }
                }
            },
        }
    }
}

} // verus!
