//! Conversion between 16-bit strings and their byte form, one item at a time.

use vstd::prelude::*;
use vstd::utf8::*;
use crate::error::EncodingError;
use crate::util::CONT_TAG;
use crate::windows::wtf8::code_points::CodePoints;
use crate::windows::wtf8::model::bytes_to_wide;
use crate::windows::wtf8::model::code_point_units;
use crate::windows::wtf8::model::decode_code_point;
use crate::windows::wtf8::model::encode_code_point;
use crate::windows::wtf8::model::high_surrogate_of;
use crate::windows::wtf8::model::is_high_surrogate;
use crate::windows::wtf8::model::is_low_surrogate;
use crate::windows::wtf8::model::join_surrogates;
use crate::windows::wtf8::model::low_surrogate_of;
use crate::windows::wtf8::model::wide_to_bytes;
use crate::windows::wtf8::model::MIN_HIGH_SURROGATE;
use crate::windows::wtf8::model::MIN_LOW_SURROGATE;
use crate::windows::wtf8::model::MIN_SURROGATE_CODE;

verus! {

/// The continuation bytes of `code_point` that are still to be written when
/// `shifts` of them are left.
pub open spec fn pending_bytes(code_point: u32, shifts: u8) -> Seq<u8> {
    if shifts == 0 {
        Seq::empty()
    } else if shifts == 1 {
        seq![last_continuation_byte(code_point)]
    } else if shifts == 2 {
        seq![second_last_continuation_byte(code_point), last_continuation_byte(code_point)]
    } else {
        seq![
            third_last_continuation_byte(code_point),
            second_last_continuation_byte(code_point),
            last_continuation_byte(code_point),
        ]
    }
}

/// The first byte written for `code_point`.
pub open spec fn lead_byte(code_point: u32) -> u8 {
    encode_code_point(code_point)[0]
}

/// The number of continuation bytes that follow the first byte.
pub open spec fn continuation_count(code_point: u32) -> u8 {
    if code_point < 0x80 {
        0
    } else if code_point < 0x800 {
        1
    } else if code_point < 0x10000 {
        2
    } else {
        3
    }
}

/// A code point is written as its first byte and then its continuation
/// bytes.
pub proof fn lemma_encode_code_point_parts(code_point: u32)
    ensures
        encode_code_point(code_point) == seq![lead_byte(code_point)] + pending_bytes(
            code_point,
            continuation_count(code_point),
        ),
{
    assert(encode_code_point(code_point) =~= seq![lead_byte(code_point)] + pending_bytes(
        code_point,
        continuation_count(code_point),
    ));
}

/// A writer that walks a 16-bit string and hands out its byte form one byte
/// at a time.
pub struct DecodeWide<'a> {
    wide: &'a [u16],
    index: usize,
    code_point: u32,
    shifts: u8,
}

impl<'a> DecodeWide<'a> {
    #[verifier::type_invariant]
    spec fn well_formed(self) -> bool {
        &&& self.index <= self.wide@.len()
        &&& self.shifts <= continuation_count(self.code_point)
    }

    /// The bytes that have not been handed out yet.
    pub closed spec fn remaining(self) -> Seq<u8> {
        pending_bytes(self.code_point, self.shifts) + wide_to_bytes(
            self.wide@.skip(self.index as int),
        )
    }

    /// Starts at the first unit of `wide`.
    pub fn new(wide: &'a [u16]) -> (r: Self)
        ensures
            r.remaining() == wide_to_bytes(wide@),
    {
        let r = DecodeWide { wide, index: 0, code_point: 0, shifts: 0 };
        assert(wide@.skip(0) =~= wide@);
        assert(r.remaining() =~= wide_to_bytes(wide@));
        r
    }

    /// Hands out the next byte, or `None` when all have been handed out.
    pub fn next(&mut self) -> (r: Option<u8>)
        ensures
            match r {
                Some(byte) => old(self).remaining() == seq![byte] + final(self).remaining(),
                None => old(self).remaining().len() == 0 && *final(self) == *old(self),
            },
    {
        proof {
            use_type_invariant(&*self);
        }
        let wide = self.wide;
        let code_point = self.code_point;
        if self.shifts > 0 {
            let shifts = self.shifts - 1;
            let shifted = if shifts == 2 {
                code_point >> 12
            } else if shifts == 1 {
                code_point >> 6
            } else {
                code_point
            };
            let byte = CONT_TAG | (shifted & 0x3F) as u8;
            *self = DecodeWide { wide, index: self.index, code_point, shifts };
            assert(old(self).remaining() =~= seq![byte] + self.remaining());
            return Some(byte);
        }
        let index = self.index;
        if index >= wide.len() {
            proof {
                assert(wide@.skip(index as int).len() == 0);
            }
            return None;
        }
        let ghost rest = wide@.skip(index as int);
        let unit = wide[index];
        let mut code_point: u32 = unit as u32;
        let mut used: usize = 1;
        if 0xD800 <= unit && unit <= 0xDBFF && index + 1 < wide.len() {
            let next = wide[index + 1];
            if 0xDC00 <= next && next <= 0xDFFF {
                code_point = MIN_SURROGATE_CODE + (((unit - MIN_HIGH_SURROGATE) as u32) * 0x400 + (
                next - MIN_LOW_SURROGATE) as u32);
                used = 2;
            }
        }
        proof {
            assert(rest[0] == unit);
            if rest.len() >= 2 {
                assert(rest[1] == wide@[index + 1]);
            }
            assert(rest.skip(used as int) == wide@.skip(index + used));
            assert(wide_to_bytes(rest) == encode_code_point(code_point) + wide_to_bytes(
                wide@.skip(index + used),
            ));
            lemma_encode_code_point_parts(code_point);
        }
        let (byte, shifts): (u8, u8) = if code_point < 0x80 {
            (code_point as u8, 0)
        } else if code_point < 0x800 {
            (0xC0 | (code_point >> 6) as u8, 1)
        } else if code_point < 0x10000 {
            (0xE0 | (code_point >> 12) as u8, 2)
        } else {
            (0xF0 | (code_point >> 18) as u8, 3)
        };
        proof {
            lemma_lead_byte(code_point);
        }
        *self = DecodeWide { wide, index: index + used, code_point, shifts };
        assert(old(self).remaining() =~= seq![byte] + self.remaining());
        Some(byte)
    }
}

/// The first byte can be computed without masking: the bits above it are
/// clear for a code point of the width at hand.
proof fn lemma_lead_byte(code_point: u32)
    requires
        code_point <= 0x10FFFF,
    ensures
        code_point < 0x80 ==> lead_byte(code_point) == code_point as u8,
        0x80 <= code_point < 0x800 ==> lead_byte(code_point) == 0xC0u8 | (code_point >> 6) as u8,
        0x800 <= code_point < 0x10000 ==> lead_byte(code_point) == 0xE0u8 | (code_point
            >> 12) as u8,
        0x10000 <= code_point ==> lead_byte(code_point) == 0xF0u8 | (code_point >> 18) as u8,
{
    assert(code_point < 0x80 ==> (code_point & 0x7F) as u8 == code_point as u8) by (bit_vector);
    assert(0x80 <= code_point < 0x800 ==> 0xC0u8 | ((code_point >> 6) & 0x1F) as u8 == 0xC0u8 | (
    code_point >> 6) as u8) by (bit_vector);
    assert(0x800 <= code_point < 0x10000 ==> 0xE0u8 | ((code_point >> 12) & 0x0F) as u8 == 0xE0u8
        | (code_point >> 12) as u8) by (bit_vector);
    assert(0x10000 <= code_point <= 0x10FFFF ==> 0xF0u8 | ((code_point >> 18) & 0x7) as u8
        == 0xF0u8 | (code_point >> 18) as u8) by (bit_vector);
}

/// Puts `unit` in front of a result, unless the result is an error.
pub open spec fn prepend_unit(unit: u16, rest: Result<Seq<u16>, EncodingError>) -> Result<
    Seq<u16>,
    EncodingError,
> {
    match rest {
        Ok(units) => Ok(seq![unit] + units),
        Err(e) => Err(e),
    }
}

/// A reader that walks a byte string and hands out the 16-bit units that it
/// stands for, or the first error.
pub struct EncodeWide<'a> {
    iter: CodePoints<'a>,
    surrogate: Option<u16>,
}

impl<'a> EncodeWide<'a> {
    /// The second half of a pair whose first half was handed out last.
    pub closed spec fn pending_low(self) -> Option<u16> {
        self.surrogate
    }

    /// The bytes that have not been read yet.
    pub closed spec fn unread(self) -> Seq<u8> {
        self.iter.remaining()
    }

    /// Whether the unit read last was a high surrogate on its own.
    pub closed spec fn after_high(self) -> bool {
        self.iter.after_high()
    }

    /// The units that have not been handed out yet, or the error that reading
    /// on will meet.
    pub open spec fn outcome(self) -> Result<Seq<u16>, EncodingError> {
        let rest = bytes_to_wide(self.unread(), self.after_high());
        match self.pending_low() {
            Some(low) => prepend_unit(low, rest),
            None => rest,
        }
    }

    /// What is handed out next: the pending half of a pair, else the first
    /// 16-bit unit of the next unit of the byte form or the error met when
    /// reading it, and nothing at the end.
    pub open spec fn next_item(self) -> Option<Result<u16, EncodingError>> {
        match self.pending_low() {
            Some(low) => Some(Ok(low)),
            None => if self.unread().len() == 0 {
                None
            } else {
                match decode_code_point(self.unread(), self.after_high()) {
                    Ok((code_point, _)) => Some(Ok(code_point_units(code_point)[0])),
                    Err(e) => Some(Err(e)),
                }
            },
        }
    }

    /// Whether nothing is left: neither a unit nor an error.
    pub open spec fn finished(self) -> bool {
        self.pending_low() is None && self.unread().len() == 0
    }

    /// Whether the bytes read so far are UTF-8.
    pub closed spec fn still_text(self) -> bool {
        self.iter.still_text()
    }

    /// All the bytes, read or not.
    pub closed spec fn source(self) -> Seq<u8> {
        self.iter.source()
    }

    /// A bound on the number of items that are still to come.
    pub open spec fn steps_left(self) -> nat {
        self.unread().len() + if self.pending_low() is Some {
            1nat
        } else {
            0nat
        }
    }

    /// Starts at the first byte of `string`.
    pub fn new(string: &'a [u8]) -> (r: Self)
        ensures
            r.pending_low() is None,
            r.unread() == string@,
            !r.after_high(),
            r.source() == string@,
            r.still_text(),
    {
        EncodeWide { iter: CodePoints::new(string), surrogate: None }
    }

    /// Tells whether the bytes read so far are UTF-8. When all units have
    /// been handed out, this tells whether the string is UTF-8.
    pub fn is_still_utf8(&self) -> (r: bool)
        ensures
            r == self.still_text(),
            self.finished() ==> r == valid_utf8(self.source()),
    {
        self.iter.is_still_utf8()
    }

    /// Hands out the next unit. Returns `None` at the end of the string.
    /// After an error nothing more is handed out.
    pub fn next(&mut self) -> (r: Option<Result<u16, EncodingError>>)
        ensures
            r == old(self).next_item(),
            match r {
                Some(Ok(unit)) => old(self).outcome() == prepend_unit(unit, final(self).outcome()),
                Some(Err(e)) => {
                    &&& old(self).outcome() == Err::<Seq<u16>, EncodingError>(e)
                    &&& final(self).finished()
                },
                None => old(self).finished() && *final(self) == *old(self),
            },
            old(self).finished() ==> r is None,
            final(self).source() == old(self).source(),
            r is Some ==> final(self).steps_left() < old(self).steps_left(),
            final(self).finished() ==> final(self).outcome() == Ok::<Seq<u16>, EncodingError>(
                Seq::empty(),
            ),
    {
        if let Some(low) = self.surrogate {
            self.surrogate = None;
            return Some(Ok(low));
        }
        let ghost rest = self.iter.remaining();
        let ghost after_high = self.iter.after_high();
        match self.iter.next() {
            None => None,
            Some(Err(e)) => Some(Err(e)),
            Some(Ok(code_point)) => {
                if code_point >= MIN_SURROGATE_CODE {
                    proof {
                        lemma_code_point_range(rest, after_high);
                    }
                    let offset = code_point - MIN_SURROGATE_CODE;
                    let high = (offset >> 10) as u16 | MIN_HIGH_SURROGATE;
                    let low = (offset & 0x3FF) as u16 | MIN_LOW_SURROGATE;
                    proof {
                        lemma_split_surrogates(code_point);
                        assert(code_point_units(code_point) =~= seq![high, low]);
                        let tail = bytes_to_wide(self.iter.remaining(), self.iter.after_high());
                        if let Ok(units) = tail {
                            assert(code_point_units(code_point) + units =~= seq![high] + (seq![low]
                                + units));
                        }
                    }
                    self.surrogate = Some(low);
                    Some(Ok(high))
                } else {
                    proof {
                        assert(code_point_units(code_point) =~= seq![code_point as u16]);
                    }
                    Some(Ok(code_point as u16))
                }
            },
        }
    }
}

/// A code point that was read is at most `0x10FFFF`.
pub proof fn lemma_code_point_range(bytes: Seq<u8>, after_high: bool)
    requires
        bytes.len() > 0,
    ensures
        decode_code_point(bytes, after_high) matches Ok((code_point, n)) ==> {
            &&& code_point <= 0x10FFFF
            &&& 0 < n <= bytes.len()
            &&& n == continuation_count(code_point) + 1
        },
{
    let b0 = bytes[0];
    if b0 >= 0xC2 && b0 < 0xE0 && bytes.len() > 1 {
        let b1 = bytes[1];
        assert(0xC2 <= b0 < 0xE0 ==> 0x80 <= (((b0 & 0x1F) as u32) << 6 | (b1 & 0x3F) as u32)
            < 0x800) by (bit_vector);
    }
    if b0 >= 0xE0 && b0 < 0xF0 && bytes.len() > 2 {
        let b1 = bytes[1];
        let b2 = bytes[2];
        assert((((b0 & 0x0F) as u32) << 12 | ((b1 & 0x3F) as u32) << 6 | (b2 & 0x3F) as u32)
            < 0x10000) by (bit_vector);
    }
}

/// The surrogates of a code point above the 16-bit range, in the bitwise
/// form in which they are computed.
proof fn lemma_split_surrogates(code_point: u32)
    requires
        0x10000 <= code_point <= 0x10FFFF,
    ensures
        high_surrogate_of(code_point) == (((code_point - 0x10000) as u32) >> 10) as u16 | 0xD800u16,
        low_surrogate_of(code_point) == (((code_point - 0x10000) as u32) & 0x3FF) as u16
            | 0xDC00u16,
        is_high_surrogate(high_surrogate_of(code_point)),
        is_low_surrogate(low_surrogate_of(code_point)),
        join_surrogates(high_surrogate_of(code_point), low_surrogate_of(code_point)) == code_point,
{
    let offset = (code_point - 0x10000) as u32;
    assert(offset < 0x100000 ==> (offset >> 10) as u16 | 0xD800u16 == (0xD800 + offset / 0x400) as u16)
        by (bit_vector);
    assert(offset < 0x100000 ==> (offset & 0x3FF) as u16 | 0xDC00u16 == (0xDC00 + offset % 0x400) as u16)
        by (bit_vector);
}

/// Starts reading the 16-bit units that `string` stands for.
pub fn encode_wide<'a>(string: &'a [u8]) -> (r: EncodeWide<'a>)
    ensures
        r.pending_low() is None,
        r.unread() == string@,
        !r.after_high(),
        r.source() == string@,
        r.still_text(),
{
    EncodeWide::new(string)
}

} // verus!
