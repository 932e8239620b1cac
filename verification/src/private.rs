//! The marker that closes the set of pattern types.

use vstd::prelude::*;

verus! {

/// Implemented for the types that may be used as patterns, and for no
/// others.
pub trait Sealed {

}

impl Sealed for char {

}

impl<'a> Sealed for &'a str {

}

impl<'a> Sealed for &'a String {

}

impl Sealed for [u8] {

}

impl Sealed for Vec<u8> {

}

impl Sealed for str {

}

impl Sealed for String {

}

impl Sealed for [u16] {

}

impl Sealed for Vec<u16> {

}

} // verus!
