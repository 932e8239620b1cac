//! Reading code points out of the byte form, one unit at a time.

use vstd::prelude::*;
use vstd::utf8::*;
use crate::error::EncodingError;
use crate::util::is_continuation;
use crate::util::CONT_MASK;
use crate::windows::wtf8::laws::lemma_unit_is_scalar;
use crate::windows::wtf8::model::continuation_error;
use crate::windows::wtf8::model::decode_code_point;
use crate::windows::wtf8::model::is_high_surrogate_code;

verus! {

/// A reader that walks a byte string and hands out the code point of each
/// unit, or the first error.
pub struct CodePoints<'a> {
    string: &'a [u8],
    index: usize,
    surrogate: bool,
    still_utf8: bool,
}

/// Reads the byte at `at`, which must be a continuation byte.
fn continuation_at(string: &[u8], at: usize) -> (r: Result<u8, EncodingError>)
    ensures
        match continuation_error(string@, at as int) {
            Some(e) => r == Err::<u8, EncodingError>(e),
            None => r == Ok::<u8, EncodingError>(string@[at as int]),
        },
{
    if at >= string.len() {
        return Err(EncodingError::End());
    }
    let byte = string[at];
    if !is_continuation(byte) {
        return Err(EncodingError::Byte(byte));
    }
    Ok(byte)
}

impl<'a> CodePoints<'a> {
    #[verifier::type_invariant]
    spec fn well_formed(self) -> bool {
        &&& self.index <= self.string@.len()
        &&& self.still_utf8 ==> valid_utf8(self.string@.take(self.index as int))
        &&& !self.still_utf8 ==> !valid_utf8(self.string@)
    }

    /// All the bytes, read or not.
    pub closed spec fn source(self) -> Seq<u8> {
        self.string@
    }

    /// The bytes that have not been read yet.
    pub closed spec fn remaining(self) -> Seq<u8> {
        self.string@.skip(self.index as int)
    }

    /// Whether the unit read last was a high surrogate on its own.
    pub closed spec fn after_high(self) -> bool {
        self.surrogate
    }

    /// Whether the bytes read so far are UTF-8: no surrogate was among
    /// them, and no error.
    pub closed spec fn still_text(self) -> bool {
        self.still_utf8
    }

    /// Starts reading at the first byte of `string`.
    pub fn new(string: &'a [u8]) -> (r: Self)
        ensures
            r.remaining() == string@,
            r.source() == string@,
            !r.after_high(),
            r.still_text(),
    {
        assert(string@.take(0) =~= Seq::<u8>::empty());
        assert(string@.skip(0) =~= string@);
        CodePoints { string, index: 0, surrogate: false, still_utf8: true }
    }

    /// Tells whether the bytes read so far are UTF-8. When all bytes have
    /// been read, this tells whether the string is UTF-8.
    pub fn is_still_utf8(&self) -> (r: bool)
        ensures
            r == self.still_text(),
            self.remaining().len() == 0 ==> r == valid_utf8(self.source()),
    {
        proof {
            use_type_invariant(self);
            if self.remaining().len() == 0 {
                assert(self.string@.take(self.index as int) =~= self.string@);
            }
        }
        self.still_utf8
    }

    /// The unit at the place reached is no scalar value of UTF-8, so the
    /// string is not UTF-8.
    proof fn lemma_not_text(self)
        requires
            self.well_formed(),
            self.index < self.string@.len(),
            !valid_first_scalar(self.remaining()),
        ensures
            !valid_utf8(self.string@),
    {
        let bytes = self.string@;
        let index = self.index as int;
        if self.still_utf8 {
            assert(bytes.take(index) =~= bytes.subrange(0, index));
            assert(bytes.skip(index) =~= bytes.subrange(index, bytes.len() as int));
            partial_valid_partial_invalid_utf8(bytes, index);
        }
    }

    /// Gives up: nothing is left to read.
    fn fail(&mut self, error: EncodingError) -> (r: Option<Result<u32, EncodingError>>)
        requires
            old(self).remaining().len() > 0,
            decode_code_point(old(self).remaining(), old(self).after_high()) is Err,
        ensures
            r == Some(Err::<u32, EncodingError>(error)),
            final(self).remaining().len() == 0,
            final(self).source() == old(self).source(),
            !final(self).still_text(),
    {
        proof {
            use_type_invariant(&*self);
            lemma_unit_is_scalar(self.remaining(), self.after_high());
            self.lemma_not_text();
        }
        *self = CodePoints {
            string: self.string,
            index: self.string.len(),
            surrogate: false,
            still_utf8: false,
        };
        Some(Err(error))
    }

    /// Moves past a unit of `n` bytes that was read.
    fn advance(&mut self, n: usize, code_point: u32) -> (r: Option<Result<u32, EncodingError>>)
        requires
            0 < n <= old(self).remaining().len(),
            decode_code_point(old(self).remaining(), old(self).after_high()) == Ok::<
                (u32, nat),
                EncodingError,
            >((code_point, n as nat)),
        ensures
            r == Some(Ok::<u32, EncodingError>(code_point)),
            final(self).source() == old(self).source(),
            final(self).remaining() == old(self).remaining().skip(n as int),
            final(self).after_high() == is_high_surrogate_code(code_point),
            final(self).still_text() == (old(self).still_text() && !(0xD800
                <= code_point <= 0xDFFF)),
    {
        proof {
            use_type_invariant(&*self);
        }
        let len = self.string.len();
        assert(self.remaining().len() == len - self.index);
        let high = 0xD800 <= code_point && code_point <= 0xDBFF;
        let low = 0xDC00 <= code_point && code_point <= 0xDFFF;
        proof {
            let bytes = self.string@;
            let index = self.index as int;
            lemma_unit_is_scalar(self.remaining(), self.after_high());
            if high || low {
                self.lemma_not_text();
            } else if self.still_utf8 {
                assert(bytes.take(index) =~= bytes.subrange(0, index));
                assert(bytes.skip(index) =~= bytes.subrange(index, bytes.len() as int));
                partial_valid_utf8_extend(bytes, index);
                assert(bytes.take(index + n) =~= bytes.subrange(0, index + n));
            }
        }
        *self = CodePoints {
            string: self.string,
            index: self.index + n,
            surrogate: high,
            still_utf8: self.still_utf8 && !high && !low,
        };
        assert(self.string@.skip(old(self).index as int).skip(n as int) == self.string@.skip(
            self.index as int,
        ));
        Some(Ok(code_point))
    }

    /// Reads the next unit. Returns `None` at the end of the string. After an
    /// error nothing more is read.
    pub fn next(&mut self) -> (r: Option<Result<u32, EncodingError>>)
        ensures
            old(self).remaining().len() == 0 ==> r is None && *final(self) == *old(self),
            final(self).source() == old(self).source(),
            old(self).remaining().len() > 0 ==> match decode_code_point(
                old(self).remaining(),
                old(self).after_high(),
            ) {
                Ok((code_point, n)) => {
                    &&& r == Some(Ok::<u32, EncodingError>(code_point))
                    &&& 0 < n <= old(self).remaining().len()
                    &&& final(self).remaining() == old(self).remaining().skip(n as int)
                    &&& final(self).after_high() == is_high_surrogate_code(code_point)
                    &&& final(self).still_text() == (old(self).still_text() && !(
                    0xD800 <= code_point <= 0xDFFF))
                },
                Err(e) => {
                    &&& r == Some(Err::<u32, EncodingError>(e))
                    &&& final(self).remaining().len() == 0
                    &&& !final(self).still_text()
                },
            },
    {
        proof {
            use_type_invariant(&*self);
        }
        let string = self.string;
        let i = self.index;
        if i >= string.len() {
            return None;
        }
        let ghost rest = self.remaining();
        assert(forall|k: int| 0 <= k < rest.len() ==> rest[k] == string@[i + k]);
        assert(forall|k: int| 0 <= k ==> continuation_error(rest, k) == continuation_error(string@, i + k));
        let b0 = string[i];
        if b0 < 0x80 {
            return self.advance(1, b0 as u32);
        }
        if b0 < 0xC2 {
            return self.fail(EncodingError::Byte(b0));
        }
        let b1 = match continuation_at(string, i + 1) {
            Ok(byte) => byte,
            Err(e) => {
                return self.fail(e);
            },
        };
        if b0 < 0xE0 {
            let code_point = ((b0 & 0x1F) as u32) << 6 | (b1 & CONT_MASK) as u32;
            return self.advance(2, code_point);
        }
        let b2 = match continuation_at(string, i + 2) {
            Ok(byte) => byte,
            Err(e) => {
                return self.fail(e);
            },
        };
        if b0 < 0xF0 {
            let code_point = ((b0 & 0x0F) as u32) << 12 | ((b1 & CONT_MASK) as u32) << 6 | (b2
                & CONT_MASK) as u32;
            let low = 0xDC00 <= code_point && code_point <= 0xDFFF;
            if code_point < 0x800 || (self.surrogate && low) {
                return self.fail(EncodingError::CodePoint(code_point));
            }
            return self.advance(3, code_point);
        }
        let b3 = match continuation_at(string, i + 3) {
            Ok(byte) => byte,
            Err(e) => {
                return self.fail(e);
            },
        };
        let code_point = ((b0 & 0x0F) as u32) << 18 | ((b1 & CONT_MASK) as u32) << 12 | ((b2
            & CONT_MASK) as u32) << 6 | (b3 & CONT_MASK) as u32;
        if code_point < 0x10000 || code_point > 0x10FFFF {
            return self.fail(EncodingError::CodePoint(code_point));
        }
        self.advance(4, code_point)
    }
}

} // verus!
