//! Platform strings seen as bytes: a borrowed view and an owned buffer.

use std::borrow::Cow;
use vstd::prelude::*;
use vstd::string::StringExecFns;
use vstd::utf8::*;
use crate::ext;
use crate::ext::has_match;
use crate::ext::has_prefix;
use crate::ext::has_suffix;
use crate::ext::is_boundary_at;
use crate::ext::is_first_match;
use crate::ext::is_last_match;
use crate::ext::repeated;
use crate::ext::rsplit_seq;
use crate::ext::split_seq;
use crate::ext::trimmed_end;
use crate::ext::trimmed_start;
use crate::ext::SliceIndex;
use crate::conversions::OsStrBytes;
use crate::conversions::OsStringBytes;
use crate::error::EncodingError;
use crate::imp::convert;
use crate::imp::raw;
use crate::iter::chunks;
use crate::iter::RawRSplit;
use crate::iter::RawSplit;
use crate::iter::Utf8Chunks;
use crate::pattern::Pattern;
use crate::text::escape_debug;
use crate::text::escaped_debug;
use crate::text::from_utf8;
use crate::text::string_from_utf8;
use crate::text::string_into_bytes;

verus! {

/// A borrowed platform string, seen as its bytes.
#[derive(Clone, Copy, Debug, Eq, Hash, Ord, PartialEq, PartialOrd)]
pub struct RawOsStr<'a> {
    bytes: &'a [u8],
}

impl<'a> View for RawOsStr<'a> {
    type V = Seq<u8>;

    closed spec fn view(&self) -> Seq<u8> {
        self.bytes@
    }
}

/// The text in which every chunk is told: the replacement character for
/// bytes that belong to no text, then the text of the chunk.
pub open spec fn lossy_text(chunks: Seq<(Seq<u8>, Seq<u8>)>) -> Seq<char>
    decreases chunks.len(),
{
    if chunks.len() == 0 {
        Seq::empty()
    } else {
        let mark = if chunks[0].0.len() > 0 {
            seq!['\u{FFFD}']
        } else {
            Seq::empty()
        };
        mark + decode_utf8(chunks[0].1) + lossy_text(chunks.drop_first())
    }
}

/// The chunks as they are shown: the bytes that belong to no text with
/// escapes, then the text with the escapes that text is shown with.
pub open spec fn debug_chunks_text(chunks: Seq<(Seq<u8>, Seq<u8>)>) -> Seq<char>
    decreases chunks.len(),
{
    if chunks.len() == 0 {
        Seq::empty()
    } else {
        raw::debug_text(chunks[0].0) + escaped_debug(decode_utf8(chunks[0].1)) + debug_chunks_text(
            chunks.drop_first(),
        )
    }
}

/// Writes the string behind `f` as it is shown between quotes.
fn debug_chunks(string: &[u8], f: &mut String)
    ensures
        final(f)@ == old(f)@ + debug_chunks_text(chunks(string@, 0)),
{
    let mut chunks = Utf8Chunks::new(string);
    assert(f@ + debug_chunks_text(chunks.remaining()) =~= old(f)@ + debug_chunks_text(
        chunks.remaining(),
    ));
    loop
        invariant
            f@ + debug_chunks_text(chunks.remaining()) == old(f)@ + debug_chunks_text(
                crate::iter::chunks(string@, 0),
            ),
        ensures
            f@ == old(f)@ + debug_chunks_text(crate::iter::chunks(string@, 0)),
        decreases chunks.remaining().len(),
    {
        let ghost before = f@;
        let ghost pending = chunks.remaining();
        match chunks.next() {
            None => {
                assert(debug_chunks_text(pending) =~= Seq::<char>::empty());
                assert(before + Seq::<char>::empty() =~= before);
                break ;
            },
            Some((invalid, valid)) => {
                proof {
                    encode_utf8_decode_utf8(valid@);
                }
                raw::debug(&RawOsStr { bytes: invalid }, f);
                let shown = escape_debug(valid);
                f.append(shown.as_str());
                assert(f@ + debug_chunks_text(chunks.remaining()) =~= before + debug_chunks_text(
                    pending,
                ));
            },
        }
    }
}

impl<'a> RawOsStr<'a> {
    /// The string as it is shown: its text between quotes with the escapes
    /// that text is shown with, and its other bytes with escapes of their
    /// own.
    pub open spec fn debug_text(self) -> Seq<char> {
        "RawOsStr(\""@ + debug_chunks_text(chunks(self@, 0)) + "\")"@
    }

    /// Shows the string.
    pub fn debug_string(&self) -> (r: String)
        ensures
            r@ == self.debug_text(),
    {
        let mut f = String::from_str("RawOsStr(\"");
        debug_chunks(self.bytes, &mut f);
        f.append("\")");
        f
    }

    /// Sees text as a platform string.
    pub fn from_str(string: &'a str) -> (r: Self)
        ensures
            r@ == encode_utf8(string@),
    {
        RawOsStr { bytes: string.as_bytes() }
    }

    /// Sees bytes as a platform string. The bytes are taken as they are.
    pub fn from_encoded_bytes_unchecked(string: &'a [u8]) -> (r: Self)
        ensures
            r@ == string@,
    {
        RawOsStr { bytes: string }
    }

    /// Sees bytes that are known to stand for a platform string as that
    /// string.
    pub fn assert_cow_from_raw_bytes(string: &'a [u8]) -> (r: Self)
        requires
            <[u8] as OsStrBytes>::raw_error(string@) is None,
        ensures
            r@ == string@,
    {
        match convert::os_str_from_bytes(string) {
            Ok(native) => RawOsStr { bytes: native },
            Err(_) => vstd::pervasive::unreached(),
        }
    }

    /// Sees bytes as the platform string that they stand for, if they stand
    /// for one.
    pub fn cow_from_raw_bytes(string: &'a [u8]) -> (r: Result<Self, EncodingError>)
        ensures
            match r {
                Ok(native) => <[u8] as OsStrBytes>::raw_error(string@) is None && native@
                    == string@,
                Err(e) => <[u8] as OsStrBytes>::raw_error(string@) == Some(e),
            },
    {
        match convert::os_str_from_bytes(string) {
            Ok(native) => Ok(RawOsStr { bytes: native }),
            Err(e) => Err(e),
        }
    }

    /// The bytes that stand for the string.
    pub fn to_raw_bytes(&self) -> (r: Cow<'a, [u8]>)
        ensures
            r@ == self@,
    {
        Cow::Borrowed(convert::os_str_to_bytes(self.bytes))
    }

    /// The bytes of the string.
    pub fn as_encoded_bytes(&self) -> (r: &'a [u8])
        ensures
            r@ == self@,
    {
        self.bytes
    }

    /// Tells whether `pat` occurs in the string.
    pub fn contains<P: Pattern>(&self, pat: P) -> (r: bool)
        ensures
            r == has_match(self@, pat.pattern_bytes()),
    {
        ext::contains(self.bytes, pat)
    }

    /// Tells whether the string ends with `pat`.
    pub fn ends_with<P: Pattern>(&self, pat: P) -> (r: bool)
        ensures
            r == has_suffix(self@, pat.pattern_bytes()),
    {
        ext::ends_with(self.bytes, pat)
    }

    /// Tells whether the string ends with the string `pat`.
    pub fn ends_with_os(&self, pat: &RawOsStr) -> (r: bool)
        ensures
            r == has_suffix(self@, pat@),
    {
        raw::ends_with(self.bytes, pat.bytes)
    }

    /// Returns the index of the first occurrence of `pat`.
    pub fn find<P: Pattern>(&self, pat: P) -> (r: Option<usize>)
        ensures
            match r {
                Some(index) => is_first_match(self@, pat.pattern_bytes(), index as int),
                None => !has_match(self@, pat.pattern_bytes()),
            },
    {
        ext::find(self.bytes, pat)
    }

    /// Tells whether the range can be taken out of the string.
    pub fn check_range(&self, range: SliceIndex) -> (r: bool)
        ensures
            r == range.fits(self@),
    {
        ext::check_range(self.bytes, range)
    }

    /// Takes the range out of the string.
    pub fn index(&self, range: SliceIndex) -> (r: RawOsStr<'a>)
        requires
            range.fits(self@),
        ensures
            r@ == self@.subrange(range.start(), range.end(self@.len() as int)),
    {
        RawOsStr { bytes: ext::index(self.bytes, range) }
    }

    /// Tells whether the string has no bytes.
    pub fn is_empty(&self) -> (r: bool)
        ensures
            r == (self@.len() == 0),
    {
        self.bytes.len() == 0
    }

    /// Builds `n` copies of the string, one after the other.
    pub fn repeat(&self, n: usize) -> (r: RawOsString)
        ensures
            r@ == repeated(self@, n as nat),
    {
        RawOsString { bytes: ext::repeat(self.bytes, n) }
    }

    /// Returns the index of the last occurrence of `pat`.
    pub fn rfind<P: Pattern>(&self, pat: P) -> (r: Option<usize>)
        ensures
            match r {
                Some(index) => is_last_match(self@, pat.pattern_bytes(), index as int),
                None => !has_match(self@, pat.pattern_bytes()),
            },
    {
        ext::rfind(self.bytes, pat)
    }

    /// The pieces between the occurrences of `pat`, from right to left.
    /// `pat` must not be empty.
    pub fn rsplit<P: Pattern>(&self, pat: P) -> (r: RawRSplit<'a, P>)
        requires
            pat.pattern_bytes().len() > 0,
        ensures
            r.remaining() == rsplit_seq(self@, pat.pattern_bytes()),
    {
        RawRSplit::new(*self, pat)
    }

    /// Cuts the string around the last occurrence of `pat`.
    pub fn rsplit_once<P: Pattern>(&self, pat: P) -> (r: Option<(RawOsStr<'a>, RawOsStr<'a>)>)
        ensures
            match r {
                Some((prefix, suffix)) => {
                    &&& is_last_match(self@, pat.pattern_bytes(), prefix@.len() as int)
                    &&& prefix@ == self@.take(prefix@.len() as int)
                    &&& suffix@ == self@.skip(prefix@.len() + pat.pattern_bytes().len() as int)
                },
                None => !has_match(self@, pat.pattern_bytes()),
            },
    {
        match ext::rsplit_once(self.bytes, pat) {
            Some((prefix, suffix)) => Some((RawOsStr { bytes: prefix }, RawOsStr { bytes: suffix })),
            None => None,
        }
    }

    /// The pieces between the occurrences of `pat`, from left to right.
    /// `pat` must not be empty.
    pub fn split<P: Pattern>(&self, pat: P) -> (r: RawSplit<'a, P>)
        requires
            pat.pattern_bytes().len() > 0,
        ensures
            r.remaining() == split_seq(self@, pat.pattern_bytes()),
    {
        RawSplit::new(*self, pat)
    }

    /// Cuts the string in two at `mid`, where it may be cut.
    pub fn split_at(&self, mid: usize) -> (r: (RawOsStr<'a>, RawOsStr<'a>))
        requires
            mid <= self@.len(),
            is_boundary_at(self@, mid as int),
        ensures
            r.0@ == self@.take(mid as int),
            r.1@ == self@.skip(mid as int),
    {
        let (prefix, suffix) = ext::split_at(self.bytes, mid);
        (RawOsStr { bytes: prefix }, RawOsStr { bytes: suffix })
    }

    /// Cuts the string around the first occurrence of `pat`.
    pub fn split_once<P: Pattern>(&self, pat: P) -> (r: Option<(RawOsStr<'a>, RawOsStr<'a>)>)
        ensures
            match r {
                Some((prefix, suffix)) => {
                    &&& is_first_match(self@, pat.pattern_bytes(), prefix@.len() as int)
                    &&& prefix@ == self@.take(prefix@.len() as int)
                    &&& suffix@ == self@.skip(prefix@.len() + pat.pattern_bytes().len() as int)
                },
                None => !has_match(self@, pat.pattern_bytes()),
            },
    {
        match ext::split_once(self.bytes, pat) {
            Some((prefix, suffix)) => Some((RawOsStr { bytes: prefix }, RawOsStr { bytes: suffix })),
            None => None,
        }
    }

    /// Tells whether the string starts with `pat`.
    pub fn starts_with<P: Pattern>(&self, pat: P) -> (r: bool)
        ensures
            r == has_prefix(self@, pat.pattern_bytes()),
    {
        ext::starts_with(self.bytes, pat)
    }

    /// Tells whether the string starts with the string `pat`.
    pub fn starts_with_os(&self, pat: &RawOsStr) -> (r: bool)
        ensures
            r == has_prefix(self@, pat@),
    {
        raw::starts_with(self.bytes, pat.bytes)
    }

    /// Removes `pat` from the start of the string, if it is there.
    pub fn strip_prefix<P: Pattern>(&self, pat: P) -> (r: Option<RawOsStr<'a>>)
        ensures
            match r {
                Some(rest) => has_prefix(self@, pat.pattern_bytes()) && rest@ == self@.skip(
                    pat.pattern_bytes().len() as int,
                ),
                None => !has_prefix(self@, pat.pattern_bytes()),
            },
    {
        match ext::strip_prefix(self.bytes, pat) {
            Some(rest) => Some(RawOsStr { bytes: rest }),
            None => None,
        }
    }

    /// Removes `pat` from the end of the string, if it is there.
    pub fn strip_suffix<P: Pattern>(&self, pat: P) -> (r: Option<RawOsStr<'a>>)
        ensures
            match r {
                Some(rest) => has_suffix(self@, pat.pattern_bytes()) && rest@ == self@.take(
                    self@.len() - pat.pattern_bytes().len(),
                ),
                None => !has_suffix(self@, pat.pattern_bytes()),
            },
    {
        match ext::strip_suffix(self.bytes, pat) {
            Some(rest) => Some(RawOsStr { bytes: rest }),
            None => None,
        }
    }

    /// The string as text, where its bytes are UTF-8.
    pub fn to_str(&self) -> (r: Option<&'a str>)
        ensures
            match r {
                Some(text) => encode_utf8(text@) == self@,
                None => !valid_utf8(self@),
            },
    {
        match from_utf8(self.bytes) {
            Ok(text) => Some(text),
            Err(_) => None,
        }
    }

    /// The string as text, with the replacement character in place of each
    /// span of bytes that belong to no text.
    pub fn to_str_lossy(&self) -> (r: Cow<'a, str>)
        ensures
            r@ == lossy_text(chunks(self@, 0)),
            valid_utf8(self@) ==> (r matches Cow::Borrowed(text) && encode_utf8(text@) == self@),
            !valid_utf8(self@) ==> r is Owned,
    {
        match self.to_str() {
            Some(same) => {
                proof {
                    encode_utf8_valid_utf8(same@);
                    lemma_lossy_text_of_text(self@);
                    encode_utf8_decode_utf8(same@);
                }
                return Cow::Borrowed(same);
            },
            None => {},
        }
        let mut chunks = Utf8Chunks::new(self.bytes);
        let mut text = String::new();
        assert(text@ + lossy_text(chunks.remaining()) =~= lossy_text(chunks.remaining()));
        loop
            invariant
                text@ + lossy_text(chunks.remaining()) == lossy_text(crate::iter::chunks(self@, 0)),
            ensures
                text@ == lossy_text(crate::iter::chunks(self@, 0)),
            decreases chunks.remaining().len(),
        {
            let ghost before = text@;
            let ghost pending = chunks.remaining();
            match chunks.next() {
                None => {
                    assert(lossy_text(pending) =~= Seq::<char>::empty());
                    assert(before + Seq::<char>::empty() =~= before);
                    break ;
                },
                Some((invalid, valid)) => {
                    proof {
                        encode_utf8_decode_utf8(valid@);
                    }
                    if invalid.len() > 0 {
                        proof {
                            reveal_strlit("\u{FFFD}");
                        }
                        text.append("\u{FFFD}");
                        assert("\u{FFFD}"@ =~= seq!['\u{FFFD}']);
                    }
                    text.append(valid);
                    assert(text@ + lossy_text(chunks.remaining()) =~= before + lossy_text(pending));
                },
            }
        }
        Cow::Owned(text)
    }

    /// Removes `pat` from the end of the string as often as it stands there.
    pub fn trim_end_matches<P: Pattern>(&self, pat: P) -> (r: RawOsStr<'a>)
        ensures
            r@ == trimmed_end(self@, pat.pattern_bytes()),
    {
        RawOsStr { bytes: ext::trim_end_matches(self.bytes, pat) }
    }

    /// Removes `pat` from both ends of the string as often as it stands
    /// there.
    pub fn trim_matches<P: Pattern>(&self, pat: P) -> (r: RawOsStr<'a>)
        ensures
            r@ == trimmed_end(trimmed_start(self@, pat.pattern_bytes()), pat.pattern_bytes()),
    {
        RawOsStr { bytes: ext::trim_matches(self.bytes, pat) }
    }

    /// Removes `pat` from the start of the string as often as it stands
    /// there.
    pub fn trim_start_matches<P: Pattern>(&self, pat: P) -> (r: RawOsStr<'a>)
        ensures
            r@ == trimmed_start(self@, pat.pattern_bytes()),
    {
        RawOsStr { bytes: ext::trim_start_matches(self.bytes, pat) }
    }

    /// The chunks of the string: alternately bytes that belong to no text,
    /// and text.
    pub fn utf8_chunks(&self) -> (r: Utf8Chunks<'a>)
        ensures
            r.remaining() == chunks(self@, 0),
    {
        Utf8Chunks::new(self.bytes)
    }
}

/// Bytes that are UTF-8 are one chunk, and their lossy text is their text.
pub proof fn lemma_lossy_text_of_text(bytes: Seq<u8>)
    requires
        valid_utf8(bytes),
    ensures
        lossy_text(chunks(bytes, 0)) == decode_utf8(bytes),
{
    if bytes.len() == 0 {
    } else {
        assert(bytes.skip(0) =~= bytes);
        assert(bytes.take(0) =~= Seq::<u8>::empty());
        assert(crate::iter::invalid_span(bytes, 0) == 0);
        assert(crate::iter::chunk_invalid(bytes, 0) =~= Seq::<u8>::empty());
        assert(crate::iter::chunk_valid(bytes, 0) == bytes);
        assert(crate::iter::chunk_rest(bytes, 0) =~= Seq::<u8>::empty());
        let all = chunks(bytes, 0);
        let first = seq![(Seq::<u8>::empty(), bytes)];
        assert(chunks(Seq::<u8>::empty(), crate::iter::chunk_rest_known(bytes, 0))
            =~= Seq::<(Seq<u8>, Seq<u8>)>::empty());
        assert(all =~= first);
        assert(all.drop_first() =~= Seq::<(Seq<u8>, Seq<u8>)>::empty());
        assert(lossy_text(all.drop_first()) =~= Seq::<char>::empty());
        assert(lossy_text(all) =~= decode_utf8(bytes));
    }
}

/// An owned platform string, seen as its bytes.
#[derive(Clone, Debug, Default, Eq, Hash, Ord, PartialEq, PartialOrd)]
pub struct RawOsString {
    bytes: Vec<u8>,
}

impl View for RawOsString {
    type V = Seq<u8>;

    closed spec fn view(&self) -> Seq<u8> {
        self.bytes@
    }
}

/// Calls `Vec::into_boxed_slice`, which keeps the items.
#[verifier::external_body]
fn vec_into_boxed_slice(bytes: Vec<u8>) -> (r: Box<[u8]>)
    ensures
        r@ == bytes@,
{
    bytes.into_boxed_slice()
}

/// Calls `Vec::shrink_to_fit`, which keeps the items.
#[verifier::external_body]
fn vec_shrink_to_fit(bytes: &mut Vec<u8>)
    ensures
        final(bytes)@ == old(bytes)@,
{
    bytes.shrink_to_fit()
}

impl RawOsString {
    /// The string as it is shown: its text between quotes with the escapes
    /// that text is shown with, and its other bytes with escapes of their
    /// own.
    pub open spec fn debug_text(self) -> Seq<char> {
        "RawOsString(\""@ + debug_chunks_text(chunks(self@, 0)) + "\")"@
    }

    /// Shows the string.
    pub fn debug_string(&self) -> (r: String)
        ensures
            r@ == self.debug_text(),
    {
        let mut f = String::from_str("RawOsString(\"");
        debug_chunks(self.bytes.as_slice(), &mut f);
        f.append("\")");
        f
    }

    /// Takes text as a platform string.
    pub fn from_string(string: String) -> (r: Self)
        ensures
            r@ == encode_utf8(string@),
    {
        RawOsString { bytes: string_into_bytes(string) }
    }

    /// Takes bytes as a platform string. The bytes are taken as they are.
    pub fn from_encoded_vec_unchecked(string: Vec<u8>) -> (r: Self)
        ensures
            r@ == string@,
    {
        RawOsString { bytes: string }
    }

    /// Takes bytes that are known to stand for a platform string as that
    /// string.
    pub fn assert_from_raw_vec(string: Vec<u8>) -> (r: Self)
        requires
            <Vec<u8> as OsStringBytes>::raw_error(string@) is None,
        ensures
            r@ == string@,
    {
        match convert::os_string_from_vec(string) {
            Ok(native) => RawOsString { bytes: native },
            Err(_) => vstd::pervasive::unreached(),
        }
    }

    /// Takes bytes as the platform string that they stand for, if they
    /// stand for one.
    pub fn from_raw_vec(string: Vec<u8>) -> (r: Result<Self, EncodingError>)
        ensures
            match r {
                Ok(native) => <Vec<u8> as OsStringBytes>::raw_error(string@) is None && native@
                    == string@,
                Err(e) => <Vec<u8> as OsStringBytes>::raw_error(string@) == Some(e),
            },
    {
        match convert::os_string_from_vec(string) {
            Ok(native) => Ok(RawOsString { bytes: native }),
            Err(e) => Err(e),
        }
    }

    /// The bytes that stand for the string.
    pub fn into_raw_vec(self) -> (r: Vec<u8>)
        ensures
            r@ == self@,
    {
        convert::os_string_into_vec(self.bytes)
    }

    /// The string as a borrowed view.
    pub fn as_raw_os_str(&self) -> (r: RawOsStr<'_>)
        ensures
            r@ == self@,
    {
        RawOsStr { bytes: self.bytes.as_slice() }
    }

    /// Removes all bytes.
    pub fn clear(&mut self)
        ensures
            final(self)@.len() == 0,
    {
        self.bytes.clear();
    }

    /// The bytes of the string in a box.
    pub fn into_box(self) -> (r: Box<[u8]>)
        ensures
            r@ == self@,
    {
        vec_into_boxed_slice(self.bytes)
    }

    /// The bytes of the string.
    pub fn into_encoded_vec(self) -> (r: Vec<u8>)
        ensures
            r@ == self@,
    {
        self.bytes
    }

    /// The string as text, where its bytes are UTF-8. Otherwise the string
    /// comes back unchanged.
    pub fn into_string(self) -> (r: Result<String, RawOsString>)
        ensures
            match r {
                Ok(text) => encode_utf8(text@) == self@,
                Err(same) => !valid_utf8(self@) && same@ == self@,
            },
    {
        match string_from_utf8(self.bytes) {
            Ok(text) => Ok(text),
            Err((bytes, _)) => Err(RawOsString { bytes }),
        }
    }

    /// Gives back memory that the string does not need.
    pub fn shrink_to_fit(&mut self)
        ensures
            final(self)@ == old(self)@,
    {
        vec_shrink_to_fit(&mut self.bytes);
    }

    /// Tells whether `index` is accepted where the string is cut.
    pub fn check_bound(&self, index: usize) -> (r: bool)
        ensures
            r == (index >= self@.len() || is_boundary_at(self@, index as int)),
    {
        ext::check_bound(self.bytes.as_slice(), index)
    }

    /// Cuts the string at `at`, where it may be cut: the string keeps what
    /// stands before, and what stands behind is returned.
    pub fn split_off(&mut self, at: usize) -> (r: RawOsString)
        requires
            at <= old(self)@.len(),
            is_boundary_at(old(self)@, at as int),
        ensures
            final(self)@ == old(self)@.take(at as int),
            r@ == old(self)@.skip(at as int),
    {
        let rest = self.bytes.split_off(at);
        assert(self@ =~= old(self)@.take(at as int));
        assert(rest@ =~= old(self)@.skip(at as int));
        RawOsString { bytes: rest }
    }

    /// Shortens the string to `new_len` bytes, where it may be cut. A length
    /// that the string does not reach leaves it as it is.
    pub fn truncate(&mut self, new_len: usize)
        requires
            new_len >= old(self)@.len() || is_boundary_at(old(self)@, new_len as int),
        ensures
            final(self)@ == if new_len <= old(self)@.len() {
                old(self)@.take(new_len as int)
            } else {
                old(self)@
            },
    {
        self.bytes.truncate(new_len);
        assert(new_len <= old(self)@.len() ==> self@ =~= old(self)@.take(new_len as int));
    }
}

} // verus!
