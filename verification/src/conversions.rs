//! One interface to the three kinds of platform strings: byte strings,
//! text, and 16-bit strings.

use std::borrow::Cow;
use vstd::prelude::*;
use vstd::utf8::*;
use crate::common;
use crate::error::EncodingError;
use crate::private::Sealed;
use crate::wasm;
use crate::wasm::convert::bytes_to_text;
use crate::wasm::convert::text_to_bytes;
use crate::windows;
use crate::windows::wtf8::laws::lemma_partial_round_trip;
use crate::windows::wtf8::laws::lemma_round_trip;
use crate::windows::wtf8::model::bytes_to_wide;
use crate::windows::wtf8::model::wide_to_bytes;

verus! {

/// Conversion between borrowed platform strings and bytes.
pub trait OsStrBytes: Sealed + ToOwned + View {
    /// The bytes of the string.
    spec fn raw_bytes(&self) -> Seq<u8>;

    /// The bytes of a string that is borrowed or owned.
    spec fn cow_bytes(string: Cow<'_, Self>) -> Seq<u8>;

    /// Why `bytes` stand for no string of this kind, or `None` where they
    /// stand for one.
    spec fn raw_error(bytes: Seq<u8>) -> Option<EncodingError>;

    /// The bytes of a string stand for a string.
    proof fn lemma_bytes_are_readable(&self)
        ensures
            Self::raw_error(self.raw_bytes()) is None,
    ;

    /// Strings with the same bytes are the same string. So reading the
    /// bytes of a string gives that string.
    proof fn lemma_bytes_determine_string(&self, other: &Self)
        requires
            self.raw_bytes() == other.raw_bytes(),
        ensures
            self@ == other@,
    ;

    /// Reads the string that `string` stands for. The bytes must stand for
    /// one.
    fn assert_from_raw_bytes<'a>(string: &'a [u8]) -> (r: Cow<'a, Self>)
        requires
            Self::raw_error(string@) is None,
        ensures
            Self::cow_bytes(r) == string@,
    ;

    /// Reads the string that `string` stands for, if it stands for one.
    fn from_raw_bytes<'a>(string: &'a [u8]) -> (r: Result<Cow<'a, Self>, EncodingError>)
        ensures
            match r {
                Ok(native) => Self::raw_error(string@) is None && Self::cow_bytes(native)
                    == string@,
                Err(e) => Self::raw_error(string@) == Some(e),
            },
    ;

    /// Writes the bytes of the string.
    fn to_raw_bytes(&self) -> (r: Cow<'_, [u8]>)
        ensures
            r@ == self.raw_bytes(),
    ;
}

/// Conversion between owned platform strings and bytes.
pub trait OsStringBytes: Sealed + Sized + View {
    /// The bytes of the string.
    spec fn raw_bytes(&self) -> Seq<u8>;

    /// Why `bytes` stand for no string of this kind, or `None` where they
    /// stand for one.
    spec fn raw_error(bytes: Seq<u8>) -> Option<EncodingError>;

    /// The bytes of a string stand for a string.
    proof fn lemma_bytes_are_readable(&self)
        ensures
            Self::raw_error(self.raw_bytes()) is None,
    ;

    /// Strings with the same bytes are the same string. So reading the
    /// bytes of a string gives that string.
    proof fn lemma_bytes_determine_string(&self, other: &Self)
        requires
            self.raw_bytes() == other.raw_bytes(),
        ensures
            self@ == other@,
    ;

    /// Reads the string that `string` stands for. The bytes must stand for
    /// one.
    fn assert_from_raw_vec(string: Vec<u8>) -> (r: Self)
        requires
            Self::raw_error(string@) is None,
        ensures
            r.raw_bytes() == string@,
    ;

    /// Reads the string that `string` stands for, if it stands for one.
    fn from_raw_vec(string: Vec<u8>) -> (r: Result<Self, EncodingError>)
        ensures
            match r {
                Ok(native) => Self::raw_error(string@) is None && native.raw_bytes() == string@,
                Err(e) => Self::raw_error(string@) == Some(e),
            },
    ;

    /// Writes the bytes of the string.
    fn into_raw_vec(self) -> (r: Vec<u8>)
        ensures
            r@ == self.raw_bytes(),
    ;
}

impl OsStrBytes for [u8] {
    open spec fn raw_bytes(&self) -> Seq<u8> {
        self@
    }

    open spec fn cow_bytes(string: Cow<'_, Self>) -> Seq<u8> {
        string@
    }

    open spec fn raw_error(bytes: Seq<u8>) -> Option<EncodingError> {
        None
    }

    proof fn lemma_bytes_are_readable(&self) {
    }

    proof fn lemma_bytes_determine_string(&self, other: &Self) {
    }

    fn assert_from_raw_bytes<'a>(string: &'a [u8]) -> (r: Cow<'a, Self>) {
        Cow::Borrowed(string)
    }

    fn from_raw_bytes<'a>(string: &'a [u8]) -> (r: Result<Cow<'a, Self>, EncodingError>) {
        match common::convert::os_str_from_bytes(string) {
            Ok(native) => Ok(Cow::Borrowed(native)),
            Err(e) => Err(e),
        }
    }

    fn to_raw_bytes(&self) -> (r: Cow<'_, [u8]>) {
        Cow::Borrowed(common::convert::os_str_to_bytes(self))
    }
}

impl OsStringBytes for Vec<u8> {
    open spec fn raw_bytes(&self) -> Seq<u8> {
        self@
    }

    open spec fn raw_error(bytes: Seq<u8>) -> Option<EncodingError> {
        None
    }

    proof fn lemma_bytes_are_readable(&self) {
    }

    proof fn lemma_bytes_determine_string(&self, other: &Self) {
    }

    fn assert_from_raw_vec(string: Vec<u8>) -> (r: Self) {
        string
    }

    fn from_raw_vec(string: Vec<u8>) -> (r: Result<Self, EncodingError>) {
        common::convert::os_string_from_vec(string)
    }

    fn into_raw_vec(self) -> (r: Vec<u8>) {
        common::convert::os_string_into_vec(self)
    }
}

/// Why `bytes` are no text, or `None` where they are.
pub open spec fn text_error(bytes: Seq<u8>) -> Option<EncodingError> {
    match bytes_to_text(bytes) {
        Ok(_) => None,
        Err(e) => Some(e),
    }
}

impl OsStrBytes for str {
    open spec fn raw_bytes(&self) -> Seq<u8> {
        text_to_bytes(self@)
    }

    open spec fn cow_bytes(string: Cow<'_, Self>) -> Seq<u8> {
        text_to_bytes(string@)
    }

    open spec fn raw_error(bytes: Seq<u8>) -> Option<EncodingError> {
        text_error(bytes)
    }

    proof fn lemma_bytes_are_readable(&self) {
        wasm::convert::lemma_round_trip(self@);
    }

    proof fn lemma_bytes_determine_string(&self, other: &Self) {
        encode_utf8_decode_utf8(self@);
        encode_utf8_decode_utf8(other@);
    }

    fn assert_from_raw_bytes<'a>(string: &'a [u8]) -> (r: Cow<'a, Self>) {
        match wasm::convert::os_str_from_bytes(string) {
            Ok(native) => {
                proof {
                    wasm::convert::lemma_partial_round_trip(string@);
                }
                Cow::Borrowed(native)
            },
            Err(_) => vstd::pervasive::unreached(),
        }
    }

    fn from_raw_bytes<'a>(string: &'a [u8]) -> (r: Result<Cow<'a, Self>, EncodingError>) {
        match wasm::convert::os_str_from_bytes(string) {
            Ok(native) => {
                proof {
                    wasm::convert::lemma_partial_round_trip(string@);
                }
                Ok(Cow::Borrowed(native))
            },
            Err(e) => Err(e),
        }
    }

    fn to_raw_bytes(&self) -> (r: Cow<'_, [u8]>) {
        Cow::Borrowed(wasm::convert::os_str_to_bytes(self))
    }
}

impl OsStringBytes for String {
    open spec fn raw_bytes(&self) -> Seq<u8> {
        text_to_bytes(self@)
    }

    open spec fn raw_error(bytes: Seq<u8>) -> Option<EncodingError> {
        text_error(bytes)
    }

    proof fn lemma_bytes_are_readable(&self) {
        wasm::convert::lemma_round_trip(self@);
    }

    proof fn lemma_bytes_determine_string(&self, other: &Self) {
        encode_utf8_decode_utf8(self@);
        encode_utf8_decode_utf8(other@);
    }

    fn assert_from_raw_vec(string: Vec<u8>) -> (r: Self) {
        proof {
            wasm::convert::lemma_partial_round_trip(string@);
        }
        match wasm::convert::os_string_from_vec(string) {
            Ok(native) => native,
            Err(_) => vstd::pervasive::unreached(),
        }
    }

    fn from_raw_vec(string: Vec<u8>) -> (r: Result<Self, EncodingError>) {
        proof {
            wasm::convert::lemma_partial_round_trip(string@);
        }
        wasm::convert::os_string_from_vec(string)
    }

    fn into_raw_vec(self) -> (r: Vec<u8>) {
        wasm::convert::os_string_into_vec(self)
    }
}

/// Why `bytes` are not the byte form of a 16-bit string, or `None` where
/// they are.
pub open spec fn wide_error(bytes: Seq<u8>) -> Option<EncodingError> {
    match bytes_to_wide(bytes, false) {
        Ok(_) => None,
        Err(e) => Some(e),
    }
}

impl OsStrBytes for [u16] {
    open spec fn raw_bytes(&self) -> Seq<u8> {
        wide_to_bytes(self@)
    }

    open spec fn cow_bytes(string: Cow<'_, Self>) -> Seq<u8> {
        wide_to_bytes(string@)
    }

    open spec fn raw_error(bytes: Seq<u8>) -> Option<EncodingError> {
        wide_error(bytes)
    }

    proof fn lemma_bytes_are_readable(&self) {
        lemma_round_trip(self@);
    }

    proof fn lemma_bytes_determine_string(&self, other: &Self) {
        lemma_round_trip(self@);
        lemma_round_trip(other@);
    }

    fn assert_from_raw_bytes<'a>(string: &'a [u8]) -> (r: Cow<'a, Self>) {
        proof {
            lemma_partial_round_trip(string@);
        }
        match windows::convert::os_str_from_bytes(string) {
            Ok(native) => Cow::Owned(native),
            Err(_) => vstd::pervasive::unreached(),
        }
    }

    fn from_raw_bytes<'a>(string: &'a [u8]) -> (r: Result<Cow<'a, Self>, EncodingError>) {
        proof {
            lemma_partial_round_trip(string@);
        }
        match windows::convert::os_str_from_bytes(string) {
            Ok(native) => Ok(Cow::Owned(native)),
            Err(e) => Err(e),
        }
    }

    fn to_raw_bytes(&self) -> (r: Cow<'_, [u8]>) {
        Cow::Owned(windows::convert::os_str_to_bytes(self))
    }
}

impl OsStringBytes for Vec<u16> {
    open spec fn raw_bytes(&self) -> Seq<u8> {
        wide_to_bytes(self@)
    }

    open spec fn raw_error(bytes: Seq<u8>) -> Option<EncodingError> {
        wide_error(bytes)
    }

    proof fn lemma_bytes_are_readable(&self) {
        lemma_round_trip(self@);
    }

    proof fn lemma_bytes_determine_string(&self, other: &Self) {
        lemma_round_trip(self@);
        lemma_round_trip(other@);
    }

    fn assert_from_raw_vec(string: Vec<u8>) -> (r: Self) {
        proof {
            lemma_partial_round_trip(string@);
        }
        match windows::convert::os_string_from_vec(string) {
            Ok(native) => native,
            Err(_) => vstd::pervasive::unreached(),
        }
    }

    fn from_raw_vec(string: Vec<u8>) -> (r: Result<Self, EncodingError>) {
        proof {
            lemma_partial_round_trip(string@);
        }
        windows::convert::os_string_from_vec(string)
    }

    fn into_raw_vec(self) -> (r: Vec<u8>) {
        windows::convert::os_string_into_vec(self)
    }
}

} // verus!
