//! The values that can be searched for.
//!
//! A pattern is a single character or a piece of text. Either way it is
//! turned into its UTF-8 bytes before the search, so that every match starts
//! and ends where a character of the pattern starts and ends.

use vstd::prelude::*;
use vstd::array::array_as_slice;
use vstd::pervasive::unreached;
use vstd::slice::slice_subrange;
use vstd::utf8::*;
use crate::private::Sealed;
use crate::text::encode_char;
use crate::text::from_utf8;
use crate::text::lemma_encode_scalar_valid;
use crate::util::MAX_UTF8_LENGTH;

verus! {

/// A pattern in encoded form.
pub trait Encoded {
    /// The bytes to search for.
    spec fn bytes(&self) -> Seq<u8>;

    /// The bytes to search for.
    fn __as_bytes(&self) -> (r: &[u8])
        ensures
            r@ == self.bytes(),
    ;

    /// The pattern as text.
    fn __as_str(&self) -> (r: &str)
        ensures
            encode_utf8(r@) == self.bytes(),
    ;
}

/// A character in encoded form: up to four bytes in a fixed buffer.
#[derive(Clone, Copy, Debug)]
pub struct EncodedChar {
    buffer: [u8; 4],
    length: usize,
}

impl EncodedChar {
    #[verifier::type_invariant]
    spec fn well_formed(self) -> bool {
        &&& 1 <= self.length <= MAX_UTF8_LENGTH
        &&& valid_utf8(self.buffer@.take(self.length as int))
    }

    /// Encodes a byte of ASCII, which is its own encoding.
    pub fn from_ascii(byte: u8) -> (r: Self)
        requires
            byte < 0x80,
        ensures
            r.bytes() == seq![byte],
    {
        let buffer: [u8; 4] = [byte, 0, 0, 0];
        proof {
            lemma_ascii_is_text(byte);
            assert(buffer@.take(1) =~= seq![byte]);
        }
        EncodedChar { buffer, length: 1 }
    }

    /// Encodes `c`.
    pub fn new(c: char) -> (r: Self)
        ensures
            r.bytes() == encode_scalar(c as u32),
    {
        let (buffer, length) = encode_char(c);
        proof {
            lemma_encode_scalar_valid(c);
        }
        EncodedChar { buffer, length }
    }
}

impl Encoded for EncodedChar {
    closed spec fn bytes(&self) -> Seq<u8> {
        self.buffer@.take(self.length as int)
    }

    fn __as_bytes(&self) -> (r: &[u8]) {
        proof {
            use_type_invariant(self);
        }
        slice_subrange(array_as_slice(&self.buffer), 0, self.length)
    }

    fn __as_str(&self) -> (r: &str) {
        proof {
            use_type_invariant(self);
        }
        match from_utf8(self.__as_bytes()) {
            Ok(text) => text,
            Err(_) => unreached(),
        }
    }
}

/// A byte of ASCII is text.
pub proof fn lemma_ascii_is_text(byte: u8)
    requires
        byte < 0x80,
    ensures
        valid_utf8(seq![byte]),
{
    let bytes = seq![byte];
    assert(byte < 0x80 ==> (byte & 0x7F) as u32 <= 0x7F) by (bit_vector);
    assert(bytes[0] == byte);
    assert(valid_first_scalar(bytes));
    assert(pop_first_scalar(bytes) =~= Seq::<u8>::empty());
    reveal_with_fuel(valid_utf8, 2);
}

/// A single byte as a pattern, for platforms whose strings are bytes. Only
/// the bytes of ASCII are patterns: other bytes have no meaning of their
/// own in a string.
#[derive(Clone, Copy, Debug, PartialEq, Eq)]
pub struct AsciiByte {
    byte: u8,
}

impl AsciiByte {
    #[verifier::type_invariant]
    spec fn well_formed(self) -> bool {
        self.byte < 0x80
    }

    /// The byte.
    pub closed spec fn value(self) -> u8 {
        if self.byte < 0x80 {
            self.byte
        } else {
            0
        }
    }

    /// Takes a byte of ASCII as a pattern.
    pub fn new(byte: u8) -> (r: Self)
        requires
            byte < 0x80,
        ensures
            r.value() == byte,
    {
        AsciiByte { byte }
    }

    /// Takes a byte as a pattern, if it is a byte of ASCII.
    pub fn try_new(byte: u8) -> (r: Option<Self>)
        ensures
            match r {
                Some(pattern) => byte < 0x80 && pattern.value() == byte,
                None => byte >= 0x80,
            },
    {
        if byte < 0x80 {
            Some(AsciiByte { byte })
        } else {
            None
        }
    }
}

impl Sealed for AsciiByte {

}

impl Pattern for AsciiByte {
    type __Encoded = EncodedChar;

    open spec fn pattern_bytes(self) -> Seq<u8> {
        seq![self.value()]
    }

    proof fn lemma_pattern_is_text(self) {
        lemma_ascii_is_text(self.value());
    }

    fn __encode(self) -> (r: Self::__Encoded) {
        proof {
            use_type_invariant(&self);
        }
        EncodedChar::from_ascii(self.byte)
    }
}

impl<'a> Encoded for &'a str {
    open spec fn bytes(&self) -> Seq<u8> {
        encode_utf8(self@)
    }

    fn __as_bytes(&self) -> (r: &[u8]) {
        self.as_bytes()
    }

    fn __as_str(&self) -> (r: &str) {
        self
    }
}

/// A value that can be searched for: a `char`, or text as `&str` or
/// `&String`.
pub trait Pattern: Sealed + Sized {
    /// The encoded form of this kind of pattern.
    type __Encoded: Encoded;

    /// The bytes that a search for this pattern looks for.
    spec fn pattern_bytes(self) -> Seq<u8>;

    /// The bytes of a pattern are UTF-8.
    proof fn lemma_pattern_is_text(self)
        ensures
            valid_utf8(self.pattern_bytes()),
    ;

    /// Turns the pattern into its encoded form.
    fn __encode(self) -> (r: Self::__Encoded)
        ensures
            r.bytes() == self.pattern_bytes(),
    ;
}

impl Pattern for char {
    type __Encoded = EncodedChar;

    open spec fn pattern_bytes(self) -> Seq<u8> {
        encode_scalar(self as u32)
    }

    proof fn lemma_pattern_is_text(self) {
        lemma_encode_scalar_valid(self);
    }

    fn __encode(self) -> (r: Self::__Encoded) {
        EncodedChar::new(self)
    }
}

impl<'a> Pattern for &'a str {
    type __Encoded = &'a str;

    open spec fn pattern_bytes(self) -> Seq<u8> {
        encode_utf8(self@)
    }

    proof fn lemma_pattern_is_text(self) {
        encode_utf8_valid_utf8(self@);
    }

    fn __encode(self) -> (r: Self::__Encoded) {
        self
    }
}

impl<'a> Pattern for &'a String {
    type __Encoded = &'a str;

    open spec fn pattern_bytes(self) -> Seq<u8> {
        encode_utf8(self@)
    }

    proof fn lemma_pattern_is_text(self) {
        encode_utf8_valid_utf8(self@);
    }

    fn __encode(self) -> (r: Self::__Encoded) {
        self.as_str()
    }
}

} // verus!
