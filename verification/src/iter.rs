//! Walking through the pieces of a string.

use vstd::prelude::*;
use vstd::pervasive::unreached;
use vstd::slice::slice_subrange;
use vstd::utf8::*;
use crate::ext::lemma_first_match_unique;
use crate::ext::lemma_last_match_unique;
use crate::ext::rsplit_seq;
use crate::ext::split_once_bytes;
use crate::ext::split_seq;
use crate::pattern::Encoded;
use crate::pattern::Pattern;
use crate::raw_str::RawOsStr;
use crate::text::defect_skip;
use crate::text::from_utf8;
use crate::text::lemma_longest_prefix_unique;
use crate::text::valid_prefix_len;
use crate::text::Utf8Defect;

verus! {

/// Takes the next piece off `string`: what stands before the first
/// occurrence of `pat`, or behind the last one where `reverse` is set. The
/// second part of the result is what is left to split, or `None` where `pat`
/// did not occur and the piece is all of `string`.
pub fn split_step<'a>(string: &'a [u8], pat: &[u8], reverse: bool) -> (r: (
    &'a [u8],
    Option<&'a [u8]>,
))
    requires
        pat@.len() > 0,
    ensures
        r.0@ == if reverse {
            rsplit_seq(string@, pat@)[0]
        } else {
            split_seq(string@, pat@)[0]
        },
        match r.1 {
            Some(rest) => {
                &&& rest@.len() < string@.len()
                &&& if reverse {
                    rsplit_seq(string@, pat@) == seq![r.0@] + rsplit_seq(rest@, pat@)
                } else {
                    split_seq(string@, pat@) == seq![r.0@] + split_seq(rest@, pat@)
                }
            },
            None => if reverse {
                rsplit_seq(string@, pat@) == seq![r.0@]
            } else {
                split_seq(string@, pat@) == seq![r.0@]
            },
        },
{
    match split_once_bytes(string, pat, reverse) {
        Some((prefix, suffix)) => {
            proof {
                if reverse {
                    lemma_last_match_unique(string@, pat@, prefix@.len() as int);
                } else {
                    lemma_first_match_unique(string@, pat@, prefix@.len() as int);
                }
            }
            if reverse {
                (suffix, Some(prefix))
            } else {
                (prefix, Some(suffix))
            }
        },
        None => (string, None),
    }
}

/// The pieces between the occurrences of a pattern, from left to right.
pub struct Split<'a, P: Pattern> {
    string: Option<&'a [u8]>,
    pat: P::__Encoded,
}

impl<'a, P: Pattern> Split<'a, P> {
    #[verifier::type_invariant]
    spec fn well_formed(self) -> bool {
        self.pat.bytes().len() > 0
    }

    /// The pieces that are still to come.
    pub closed spec fn remaining(self) -> Seq<Seq<u8>> {
        match self.string {
            Some(string) => split_seq(string@, self.pat.bytes()),
            None => Seq::empty(),
        }
    }

    /// Starts splitting `string` at the occurrences of `pat`, which must not
    /// be empty.
    pub fn new(string: &'a [u8], pat: P) -> (r: Self)
        requires
            pat.pattern_bytes().len() > 0,
        ensures
            r.remaining() == split_seq(string@, pat.pattern_bytes()),
    {
        Split { string: Some(string), pat: pat.__encode() }
    }

    /// Starts splitting `string` at the occurrences of `pat`, unless `pat`
    /// is empty.
    pub fn try_new(string: &'a [u8], pat: P) -> (r: Option<Self>)
        ensures
            match r {
                Some(split) => pat.pattern_bytes().len() > 0 && split.remaining() == split_seq(
                    string@,
                    pat.pattern_bytes(),
                ),
                None => pat.pattern_bytes().len() == 0,
            },
    {
        let pat = pat.__encode();
        if pat.__as_bytes().len() == 0 {
            None
        } else {
            Some(Split { string: Some(string), pat })
        }
    }

    /// Hands out the next piece, or `None` when all have been handed out.
    pub fn next(&mut self) -> (r: Option<&'a [u8]>)
        ensures
            match r {
                Some(piece) => {
                    &&& old(self).remaining().len() > 0
                    &&& piece@ == old(self).remaining()[0]
                    &&& final(self).remaining() == old(self).remaining().drop_first()
                },
                None => old(self).remaining().len() == 0 && final(self).remaining().len() == 0,
            },
    {
        proof {
            use_type_invariant(&*self);
        }
        match self.string {
            None => None,
            Some(string) => {
                let (piece, rest) = split_step(string, self.pat.__as_bytes(), false);
                self.string = rest;
                proof {
                    let all = old(self).remaining();
                    match rest {
                        Some(more) => {
                            assert(all.drop_first() =~= split_seq(more@, self.pat.bytes()));
                        },
                        None => {
                            assert(all.drop_first() =~= Seq::<Seq<u8>>::empty());
                        },
                    }
                }
                Some(piece)
            },
        }
    }
}

/// The pieces between the occurrences of a pattern, from right to left.
pub struct RSplit<'a, P: Pattern> {
    string: Option<&'a [u8]>,
    pat: P::__Encoded,
}

impl<'a, P: Pattern> RSplit<'a, P> {
    #[verifier::type_invariant]
    spec fn well_formed(self) -> bool {
        self.pat.bytes().len() > 0
    }

    /// The pieces that are still to come.
    pub closed spec fn remaining(self) -> Seq<Seq<u8>> {
        match self.string {
            Some(string) => rsplit_seq(string@, self.pat.bytes()),
            None => Seq::empty(),
        }
    }

    /// Starts splitting `string` at the occurrences of `pat`, which must not
    /// be empty.
    pub fn new(string: &'a [u8], pat: P) -> (r: Self)
        requires
            pat.pattern_bytes().len() > 0,
        ensures
            r.remaining() == rsplit_seq(string@, pat.pattern_bytes()),
    {
        RSplit { string: Some(string), pat: pat.__encode() }
    }

    /// Starts splitting `string` at the occurrences of `pat`, unless `pat`
    /// is empty.
    pub fn try_new(string: &'a [u8], pat: P) -> (r: Option<Self>)
        ensures
            match r {
                Some(split) => pat.pattern_bytes().len() > 0 && split.remaining() == rsplit_seq(
                    string@,
                    pat.pattern_bytes(),
                ),
                None => pat.pattern_bytes().len() == 0,
            },
    {
        let pat = pat.__encode();
        if pat.__as_bytes().len() == 0 {
            None
        } else {
            Some(RSplit { string: Some(string), pat })
        }
    }

    /// Hands out the next piece, or `None` when all have been handed out.
    pub fn next(&mut self) -> (r: Option<&'a [u8]>)
        ensures
            match r {
                Some(piece) => {
                    &&& old(self).remaining().len() > 0
                    &&& piece@ == old(self).remaining()[0]
                    &&& final(self).remaining() == old(self).remaining().drop_first()
                },
                None => old(self).remaining().len() == 0 && final(self).remaining().len() == 0,
            },
    {
        proof {
            use_type_invariant(&*self);
        }
        match self.string {
            None => None,
            Some(string) => {
                let (piece, rest) = split_step(string, self.pat.__as_bytes(), true);
                self.string = rest;
                proof {
                    let all = old(self).remaining();
                    match rest {
                        Some(more) => {
                            assert(all.drop_first() =~= rsplit_seq(more@, self.pat.bytes()));
                        },
                        None => {
                            assert(all.drop_first() =~= Seq::<Seq<u8>>::empty());
                        },
                    }
                }
                Some(piece)
            },
        }
    }
}

/// The length of the span of bytes at the start of `string` that belong to
/// no text, given that the first `known` bytes belong to none.
///
/// Behind the known bytes the span goes on, one ill-formed sequence after
/// the other, until what follows is UTF-8 or begins with UTF-8.
pub open spec fn invalid_span(string: Seq<u8>, known: int) -> int
    decreases string.len() - known,
{
    let rest = string.skip(known);
    if known < 0 || known >= string.len() || valid_utf8(rest) || valid_prefix_len(rest) > 0 {
        known
    } else if 0 < defect_skip(rest) <= rest.len() {
        invalid_span(string, known + defect_skip(rest))
    } else {
        known
    }
}

/// The bytes of the first chunk that belong to no text.
pub open spec fn chunk_invalid(string: Seq<u8>, known: int) -> Seq<u8> {
    string.take(invalid_span(string, known))
}

/// The bytes of the text of the first chunk: the longest UTF-8 prefix of
/// what follows the invalid span.
pub open spec fn chunk_valid(string: Seq<u8>, known: int) -> Seq<u8> {
    let rest = string.skip(invalid_span(string, known));
    if valid_utf8(rest) {
        rest
    } else {
        rest.take(valid_prefix_len(rest))
    }
}

/// What is left of `string` behind its first chunk.
pub open spec fn chunk_rest(string: Seq<u8>, known: int) -> Seq<u8> {
    let rest = string.skip(invalid_span(string, known));
    if valid_utf8(rest) {
        Seq::empty()
    } else {
        rest.skip(valid_prefix_len(rest))
    }
}

/// How many bytes at the start of what is left are known to belong to no
/// text.
pub open spec fn chunk_rest_known(string: Seq<u8>, known: int) -> int {
    let rest = string.skip(invalid_span(string, known));
    if valid_utf8(rest) {
        0
    } else {
        defect_skip(rest)
    }
}

/// The chunks of `string`: pairs of bytes that belong to no text and of
/// the bytes of the text that follows them.
pub open spec fn chunks(string: Seq<u8>, known: int) -> Seq<(Seq<u8>, Seq<u8>)>
    decreases string.len(),
{
    if string.len() == 0 {
        Seq::empty()
    } else {
        let rest = chunk_rest(string, known);
        let first = seq![(chunk_invalid(string, known), chunk_valid(string, known))];
        if rest.len() < string.len() {
            first + chunks(rest, chunk_rest_known(string, known))
        } else {
            first
        }
    }
}

/// What one check of the bytes behind the invalid span leads to.
pub enum ChunkStep<'a> {
    /// The invalid span grows to this length, and the bytes behind it are
    /// to be checked next.
    Grow(usize),
    /// A chunk is complete.
    Done {
        /// The bytes that belong to no text.
        invalid: &'a [u8],
        /// The text that follows them.
        valid: &'a str,
        /// What is left of the string.
        rest: &'a [u8],
        /// How many bytes at the start of `rest` belong to no text.
        rest_invalid: usize,
    },
}

/// Decides how to go on after the bytes of `string` behind the first `known`
/// have been checked with the result `check`.
///
/// Where they are text, the chunk is the known bytes and the text, and
/// nothing is left. Where they begin with text, the chunk is the known bytes
/// and that text, and the ill-formed sequence behind it opens the next
/// chunk. Otherwise the ill-formed sequence at their start joins the known
/// bytes.
pub fn chunk_step<'a>(string: &'a [u8], known: usize, check: Result<&'a str, Utf8Defect>) -> (r:
    ChunkStep<'a>)
    requires
        known <= string@.len(),
        match check {
            Ok(text) => encode_utf8(text@) == string@.skip(known as int),
            Err(defect) => {
                &&& defect.valid_up_to < string@.len() - known
                &&& valid_utf8(string@.subrange(known as int, known + defect.valid_up_to))
                &&& (defect.error_len matches Some(n) ==> 1 <= n && defect.valid_up_to + n
                    <= string@.len() - known)
            },
        },
    ensures
        match check {
            Ok(text) => r matches ChunkStep::Done { invalid, valid, rest, rest_invalid } && {
                &&& invalid@ == string@.take(known as int)
                &&& valid@ == text@
                &&& rest@.len() == 0
                &&& rest_invalid == 0
            },
            Err(defect) => {
                let skip = match defect.error_len {
                    Some(n) => n as int,
                    None => string@.len() - known - defect.valid_up_to,
                };
                if defect.valid_up_to == 0 {
                    r == ChunkStep::Grow((known + skip) as usize)
                } else {
                    r matches ChunkStep::Done { invalid, valid, rest, rest_invalid } && {
                        &&& invalid@ == string@.take(known as int)
                        &&& encode_utf8(valid@) == string@.subrange(
                            known as int,
                            known + defect.valid_up_to,
                        )
                        &&& rest@ == string@.skip(known + defect.valid_up_to)
                        &&& rest_invalid == skip
                    }
                }
            },
        },
{
    let len = string.len();
    let invalid = slice_subrange(string, 0, known);
    assert(invalid@ =~= string@.take(known as int));
    match check {
        Ok(text) => {
            ChunkStep::Done { invalid, valid: text, rest: slice_subrange(string, len, len), rest_invalid: 0 }
        },
        Err(defect) => {
            let start = known + defect.valid_up_to;
            let skip = match defect.error_len {
                Some(n) => n,
                None => len - start,
            };
            if defect.valid_up_to == 0 {
                ChunkStep::Grow(known + skip)
            } else {
                let valid = match from_utf8(slice_subrange(string, known, start)) {
                    Ok(text) => text,
                    Err(_) => unreached(),
                };
                let rest = slice_subrange(string, start, len);
                assert(rest@ =~= string@.skip(start as int));
                ChunkStep::Done { invalid, valid, rest, rest_invalid: skip }
            }
        },
    }
}

/// The chunks of a string: alternately bytes that belong to no text, and
/// text.
pub struct Utf8Chunks<'a> {
    string: &'a [u8],
    invalid_length: usize,
}

impl<'a> Utf8Chunks<'a> {
    #[verifier::type_invariant]
    spec fn well_formed(self) -> bool {
        self.invalid_length <= self.string@.len()
    }

    /// The chunks that are still to come.
    pub closed spec fn remaining(self) -> Seq<(Seq<u8>, Seq<u8>)> {
        chunks(self.string@, self.invalid_length as int)
    }

    /// Starts at the first byte of `string`.
    pub fn new(string: &'a [u8]) -> (r: Self)
        ensures
            r.remaining() == chunks(string@, 0),
    {
        Utf8Chunks { string, invalid_length: 0 }
    }

    /// Hands out the next chunk, or `None` when all have been handed out.
    pub fn next(&mut self) -> (r: Option<(&'a [u8], &'a str)>)
        ensures
            match r {
                Some((invalid, valid)) => {
                    &&& old(self).remaining().len() > 0
                    &&& invalid@ == old(self).remaining()[0].0
                    &&& encode_utf8(valid@) == old(self).remaining()[0].1
                    &&& final(self).remaining() == old(self).remaining().drop_first()
                },
                None => old(self).remaining().len() == 0 && final(self).remaining().len() == 0,
            },
    {
        proof {
            use_type_invariant(&*self);
        }
        let string = self.string;
        let len = string.len();
        if len == 0 {
            return None;
        }
        let ghost first_known = self.invalid_length as int;
        let mut known = self.invalid_length;
        loop
            invariant
                len == string@.len(),
                0 < len,
                known <= len,
                invalid_span(string@, known as int) == invalid_span(string@, first_known),
                string == old(self).string,
                first_known == old(self).invalid_length,
            decreases len - known,
        {
            let substring = slice_subrange(string, known, len);
            let check = from_utf8(substring);
            proof {
                assert(substring@ =~= string@.skip(known as int));
                if let Err(defect) = check {
                    lemma_longest_prefix_unique(substring@, defect.valid_up_to as int);
                    assert(substring@.subrange(0, defect.valid_up_to as int) =~= string@.subrange(
                        known as int,
                        known + defect.valid_up_to,
                    ));
                    if defect.valid_up_to == substring@.len() {
                        assert(substring@.subrange(0, substring@.len() as int) =~= substring@);
                    }
                }
            }
            match chunk_step(string, known, check) {
                ChunkStep::Grow(grown) => {
                    known = grown;
                },
                ChunkStep::Done { invalid, valid, rest, rest_invalid } => {
                    *self = Utf8Chunks { string: rest, invalid_length: rest_invalid };
                    proof {
                        let all = chunks(string@, first_known);
                        assert(invalid_span(string@, known as int) == known);
                        assert(rest@ =~= chunk_rest(string@, first_known));
                        assert(encode_utf8(valid@) =~= chunk_valid(string@, first_known));
                        assert(all.drop_first() =~= chunks(rest@, rest_invalid as int));
                    }
                    return Some((invalid, valid));
                },
            }
        }
    }
}

/// The pieces of a string view between the occurrences of a pattern, from
/// left to right.
pub struct RawSplit<'a, P: Pattern>(Split<'a, P>);

impl<'a, P: Pattern> RawSplit<'a, P> {
    /// The pieces that are still to come.
    pub closed spec fn remaining(self) -> Seq<Seq<u8>> {
        self.0.remaining()
    }

    /// Starts splitting `string` at the occurrences of `pat`, which must not
    /// be empty.
    pub fn new(string: RawOsStr<'a>, pat: P) -> (r: Self)
        requires
            pat.pattern_bytes().len() > 0,
        ensures
            r.remaining() == split_seq(string@, pat.pattern_bytes()),
    {
        RawSplit(Split::new(string.as_encoded_bytes(), pat))
    }

    /// Hands out the next piece, or `None` when all have been handed out.
    pub fn next(&mut self) -> (r: Option<RawOsStr<'a>>)
        ensures
            match r {
                Some(piece) => {
                    &&& old(self).remaining().len() > 0
                    &&& piece@ == old(self).remaining()[0]
                    &&& final(self).remaining() == old(self).remaining().drop_first()
                },
                None => old(self).remaining().len() == 0 && final(self).remaining().len() == 0,
            },
    {
        match self.0.next() {
            Some(piece) => Some(RawOsStr::from_encoded_bytes_unchecked(piece)),
            None => None,
        }
    }

    /// Collects the pieces that are still to come.
    pub fn to_vec(self) -> (r: Vec<RawOsStr<'a>>)
        ensures
            r@.len() == self.remaining().len(),
            forall|i: int| 0 <= i < r@.len() ==> (#[trigger] r@[i])@ == self.remaining()[i],
    {
        let mut pieces: Vec<RawOsStr<'a>> = Vec::new();
        let mut iter = self;
        loop
            invariant
                pieces@.len() + iter.remaining().len() == self.remaining().len(),
                forall|i: int|
                    0 <= i < pieces@.len() ==> (#[trigger] pieces@[i])@ == self.remaining()[i],
                forall|i: int|
                    0 <= i < iter.remaining().len() ==> iter.remaining()[i]
                        == self.remaining()[pieces@.len() + i],
            decreases iter.remaining().len(),
        {
            match iter.next() {
                Some(piece) => {
                    pieces.push(piece);
                },
                None => {
                    return pieces;
                },
            }
        }
    }
}

/// The pieces of a string view between the occurrences of a pattern, from
/// right to left.
pub struct RawRSplit<'a, P: Pattern>(RSplit<'a, P>);

impl<'a, P: Pattern> RawRSplit<'a, P> {
    /// The pieces that are still to come.
    pub closed spec fn remaining(self) -> Seq<Seq<u8>> {
        self.0.remaining()
    }

    /// Starts splitting `string` at the occurrences of `pat`, which must not
    /// be empty.
    pub fn new(string: RawOsStr<'a>, pat: P) -> (r: Self)
        requires
            pat.pattern_bytes().len() > 0,
        ensures
            r.remaining() == rsplit_seq(string@, pat.pattern_bytes()),
    {
        RawRSplit(RSplit::new(string.as_encoded_bytes(), pat))
    }

    /// Hands out the next piece, or `None` when all have been handed out.
    pub fn next(&mut self) -> (r: Option<RawOsStr<'a>>)
        ensures
            match r {
                Some(piece) => {
                    &&& old(self).remaining().len() > 0
                    &&& piece@ == old(self).remaining()[0]
                    &&& final(self).remaining() == old(self).remaining().drop_first()
                },
                None => old(self).remaining().len() == 0 && final(self).remaining().len() == 0,
            },
    {
        match self.0.next() {
            Some(piece) => Some(RawOsStr::from_encoded_bytes_unchecked(piece)),
            None => None,
        }
    }

    /// Collects the pieces that are still to come.
    pub fn to_vec(self) -> (r: Vec<RawOsStr<'a>>)
        ensures
            r@.len() == self.remaining().len(),
            forall|i: int| 0 <= i < r@.len() ==> (#[trigger] r@[i])@ == self.remaining()[i],
    {
        let mut pieces: Vec<RawOsStr<'a>> = Vec::new();
        let mut iter = self;
        loop
            invariant
                pieces@.len() + iter.remaining().len() == self.remaining().len(),
                forall|i: int|
                    0 <= i < pieces@.len() ==> (#[trigger] pieces@[i])@ == self.remaining()[i],
                forall|i: int|
                    0 <= i < iter.remaining().len() ==> iter.remaining()[i]
                        == self.remaining()[pieces@.len() + i],
            decreases iter.remaining().len(),
        {
            match iter.next() {
                Some(piece) => {
                    pieces.push(piece);
                },
                None => {
                    return pieces;
                },
            }
        }
    }
}

} // verus!
