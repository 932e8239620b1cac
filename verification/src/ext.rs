//! Searching and slicing on the bytes of a platform string.
//!
//! Patterns are text, so a match starts where a character starts and ends
//! where one ends. Cutting a string at the ends of a match therefore never
//! cuts through an encoded code point.

use vstd::prelude::*;
use vstd::slice::slice_subrange;
use vstd::utf8::*;
use crate::pattern::Encoded;
use crate::pattern::Pattern;
use crate::text::from_utf8;
use crate::text::lemma_first_scalar_window;
use crate::text::lemma_lone_lead_is_scalar;
use crate::text::lemma_scalar_shape;
use crate::text::lemma_scalar_start_prefix;
use crate::text::scalar_ends_at;
use crate::text::scalar_spans;
use crate::text::scalar_starts_at;
use crate::util::is_continuation;
use crate::util::MAX_UTF8_LENGTH;

verus! {

/// `needle` occurs in `haystack` at `index`.
pub open spec fn matches_at(haystack: Seq<u8>, needle: Seq<u8>, index: int) -> bool {
    &&& 0 <= index
    &&& index + needle.len() <= haystack.len()
    &&& haystack.subrange(index, index + needle.len()) == needle
}

/// `needle` occurs somewhere in `haystack`.
pub open spec fn has_match(haystack: Seq<u8>, needle: Seq<u8>) -> bool {
    exists|index: int| matches_at(haystack, needle, index)
}

/// `index` is where `needle` occurs first in `haystack`.
pub open spec fn is_first_match(haystack: Seq<u8>, needle: Seq<u8>, index: int) -> bool {
    &&& matches_at(haystack, needle, index)
    &&& forall|earlier: int| 0 <= earlier < index ==> !matches_at(haystack, needle, earlier)
}

/// `index` is where `needle` occurs last in `haystack`.
pub open spec fn is_last_match(haystack: Seq<u8>, needle: Seq<u8>, index: int) -> bool {
    &&& matches_at(haystack, needle, index)
    &&& forall|later: int| index < later ==> !matches_at(haystack, needle, later)
}

/// `prefix` is what `string` begins with.
pub open spec fn has_prefix(string: Seq<u8>, prefix: Seq<u8>) -> bool {
    matches_at(string, prefix, 0)
}

/// `suffix` is what `string` ends with.
pub open spec fn has_suffix(string: Seq<u8>, suffix: Seq<u8>) -> bool {
    matches_at(string, suffix, string.len() - suffix.len())
}

/// Calls `memchr::memmem::find`, which returns the index of the first
/// occurrence of the needle, or `None` where it does not occur. The empty
/// needle occurs at index 0.
#[verifier::external_body]
fn memmem_find(haystack: &[u8], needle: &[u8]) -> (r: Option<usize>)
    ensures
        match r {
            Some(index) => is_first_match(haystack@, needle@, index as int),
            None => !has_match(haystack@, needle@),
        },
{
    memchr::memmem::find(haystack, needle)
}

/// Calls `memchr::memmem::rfind`, which returns the index of the last
/// occurrence of the needle, or `None` where it does not occur. The empty
/// needle occurs last at the end of the haystack.
#[verifier::external_body]
fn memmem_rfind(haystack: &[u8], needle: &[u8]) -> (r: Option<usize>)
    ensures
        match r {
            Some(index) => is_last_match(haystack@, needle@, index as int),
            None => !has_match(haystack@, needle@),
        },
{
    memchr::memmem::rfind(haystack, needle)
}

/// Tells whether `string` begins with `prefix`.
pub fn starts_with_bytes(string: &[u8], prefix: &[u8]) -> (r: bool)
    ensures
        r == has_prefix(string@, prefix@),
{
    let n = prefix.len();
    if n > string.len() {
        return false;
    }
    let mut i: usize = 0;
    while i < n
        invariant
            i <= n <= string.len(),
            n == prefix.len(),
            forall|k: int| 0 <= k < i ==> string@[k] == prefix@[k],
        decreases n - i,
    {
        if string[i] != prefix[i] {
            assert(string@.subrange(0, n as int)[i as int] != prefix@[i as int]);
            return false;
        }
        i += 1;
    }
    assert(string@.subrange(0, n as int) =~= prefix@);
    true
}

/// Tells whether `string` ends with `suffix`.
pub fn ends_with_bytes(string: &[u8], suffix: &[u8]) -> (r: bool)
    ensures
        r == has_suffix(string@, suffix@),
{
    let n = suffix.len();
    if n > string.len() {
        return false;
    }
    let start = string.len() - n;
    let mut i: usize = 0;
    while i < n
        invariant
            i <= n <= string.len(),
            n == suffix.len(),
            start == string.len() - n,
            forall|k: int| 0 <= k < i ==> string@[start + k] == suffix@[k],
        decreases n - i,
    {
        if string[start + i] != suffix[i] {
            assert(string@.subrange(start as int, start + n)[i as int] != suffix@[i as int]);
            return false;
        }
        i += 1;
    }
    assert(string@.subrange(start as int, start + n) =~= suffix@);
    true
}

/// Returns the index of the first occurrence of `pat`.
pub fn find<P: Pattern>(string: &[u8], pat: P) -> (r: Option<usize>)
    ensures
        match r {
            Some(index) => is_first_match(string@, pat.pattern_bytes(), index as int),
            None => !has_match(string@, pat.pattern_bytes()),
        },
{
    let pat = pat.__encode();
    memmem_find(string, pat.__as_bytes())
}

/// Returns the index of the last occurrence of `pat`.
pub fn rfind<P: Pattern>(string: &[u8], pat: P) -> (r: Option<usize>)
    ensures
        match r {
            Some(index) => is_last_match(string@, pat.pattern_bytes(), index as int),
            None => !has_match(string@, pat.pattern_bytes()),
        },
{
    let pat = pat.__encode();
    memmem_rfind(string, pat.__as_bytes())
}

/// Tells whether `pat` occurs in `string`.
pub fn contains<P: Pattern>(string: &[u8], pat: P) -> (r: bool)
    ensures
        r == has_match(string@, pat.pattern_bytes()),
{
    find(string, pat).is_some()
}

/// Tells whether `string` begins with `pat`.
pub fn starts_with<P: Pattern>(string: &[u8], pat: P) -> (r: bool)
    ensures
        r == has_prefix(string@, pat.pattern_bytes()),
{
    let pat = pat.__encode();
    starts_with_bytes(string, pat.__as_bytes())
}

/// Tells whether `string` ends with `pat`.
pub fn ends_with<P: Pattern>(string: &[u8], pat: P) -> (r: bool)
    ensures
        r == has_suffix(string@, pat.pattern_bytes()),
{
    let pat = pat.__encode();
    ends_with_bytes(string, pat.__as_bytes())
}

/// Removes `prefix` from the start of `string`, if it is there.
pub fn strip_prefix_bytes<'a>(string: &'a [u8], prefix: &[u8]) -> (r: Option<&'a [u8]>)
    ensures
        match r {
            Some(rest) => has_prefix(string@, prefix@) && rest@ == string@.skip(
                prefix@.len() as int,
            ),
            None => !has_prefix(string@, prefix@),
        },
{
    if starts_with_bytes(string, prefix) {
        let rest = slice_subrange(string, prefix.len(), string.len());
        assert(rest@ =~= string@.skip(prefix@.len() as int));
        Some(rest)
    } else {
        None
    }
}

/// Removes `suffix` from the end of `string`, if it is there.
pub fn strip_suffix_bytes<'a>(string: &'a [u8], suffix: &[u8]) -> (r: Option<&'a [u8]>)
    ensures
        match r {
            Some(rest) => has_suffix(string@, suffix@) && rest@ == string@.take(
                string@.len() - suffix@.len(),
            ),
            None => !has_suffix(string@, suffix@),
        },
{
    if ends_with_bytes(string, suffix) {
        let rest = slice_subrange(string, 0, string.len() - suffix.len());
        assert(rest@ =~= string@.take(string@.len() - suffix@.len()));
        Some(rest)
    } else {
        None
    }
}

/// Removes `pat` from the start of `string`, if it is there.
pub fn strip_prefix<'a, P: Pattern>(string: &'a [u8], pat: P) -> (r: Option<&'a [u8]>)
    ensures
        match r {
            Some(rest) => has_prefix(string@, pat.pattern_bytes()) && rest@ == string@.skip(
                pat.pattern_bytes().len() as int,
            ),
            None => !has_prefix(string@, pat.pattern_bytes()),
        },
{
    let pat = pat.__encode();
    strip_prefix_bytes(string, pat.__as_bytes())
}

/// Removes `pat` from the end of `string`, if it is there.
pub fn strip_suffix<'a, P: Pattern>(string: &'a [u8], pat: P) -> (r: Option<&'a [u8]>)
    ensures
        match r {
            Some(rest) => has_suffix(string@, pat.pattern_bytes()) && rest@ == string@.take(
                string@.len() - pat.pattern_bytes().len(),
            ),
            None => !has_suffix(string@, pat.pattern_bytes()),
        },
{
    let pat = pat.__encode();
    strip_suffix_bytes(string, pat.__as_bytes())
}

/// Cuts `string` around one occurrence of `pat`: the first one, or the last
/// one where `reverse` is set. The occurrence itself is left out.
pub fn split_once_bytes<'a>(string: &'a [u8], pat: &[u8], reverse: bool) -> (r: Option<
    (&'a [u8], &'a [u8]),
>)
    ensures
        match r {
            Some((prefix, suffix)) => {
                &&& if reverse {
                    is_last_match(string@, pat@, prefix@.len() as int)
                } else {
                    is_first_match(string@, pat@, prefix@.len() as int)
                }
                &&& prefix@ == string@.take(prefix@.len() as int)
                &&& suffix@ == string@.skip(prefix@.len() + pat@.len() as int)
            },
            None => !has_match(string@, pat@),
        },
{
    let found = if reverse {
        memmem_rfind(string, pat)
    } else {
        memmem_find(string, pat)
    };
    match found {
        Some(index) => {
            let len = string.len();
            assert(matches_at(string@, pat@, index as int));
            let prefix = slice_subrange(string, 0, index);
            let suffix = slice_subrange(string, index + pat.len(), len);
            assert(prefix@ =~= string@.take(index as int));
            assert(suffix@ =~= string@.skip(index + pat@.len() as int));
            Some((prefix, suffix))
        },
        None => None,
    }
}

/// Cuts `string` around the first occurrence of `pat`.
pub fn split_once<'a, P: Pattern>(string: &'a [u8], pat: P) -> (r: Option<(&'a [u8], &'a [u8])>)
    ensures
        match r {
            Some((prefix, suffix)) => {
                &&& is_first_match(string@, pat.pattern_bytes(), prefix@.len() as int)
                &&& prefix@ == string@.take(prefix@.len() as int)
                &&& suffix@ == string@.skip(prefix@.len() + pat.pattern_bytes().len() as int)
            },
            None => !has_match(string@, pat.pattern_bytes()),
        },
{
    let pat = pat.__encode();
    split_once_bytes(string, pat.__as_bytes(), false)
}

/// Cuts `string` around the last occurrence of `pat`.
pub fn rsplit_once<'a, P: Pattern>(string: &'a [u8], pat: P) -> (r: Option<(&'a [u8], &'a [u8])>)
    ensures
        match r {
            Some((prefix, suffix)) => {
                &&& is_last_match(string@, pat.pattern_bytes(), prefix@.len() as int)
                &&& prefix@ == string@.take(prefix@.len() as int)
                &&& suffix@ == string@.skip(prefix@.len() + pat.pattern_bytes().len() as int)
            },
            None => !has_match(string@, pat.pattern_bytes()),
        },
{
    let pat = pat.__encode();
    split_once_bytes(string, pat.__as_bytes(), true)
}

/// What is left of `string` when `pat` has been removed from its start as
/// often as it stands there. An empty `pat` removes nothing.
pub open spec fn trimmed_start(string: Seq<u8>, pat: Seq<u8>) -> Seq<u8>
    decreases string.len(),
{
    if pat.len() > 0 && has_prefix(string, pat) {
        trimmed_start(string.skip(pat.len() as int), pat)
    } else {
        string
    }
}

/// What is left of `string` when `pat` has been removed from its end as
/// often as it stands there. An empty `pat` removes nothing.
pub open spec fn trimmed_end(string: Seq<u8>, pat: Seq<u8>) -> Seq<u8>
    decreases string.len(),
{
    if pat.len() > 0 && has_suffix(string, pat) {
        trimmed_end(string.take(string.len() - pat.len()), pat)
    } else {
        string
    }
}

/// Removes `pat` from one end of `string` until it no longer stands there:
/// from the end where `from_end` is set, else from the start.
pub fn trim_matches_bytes<'a>(string: &'a [u8], pat: &[u8], from_end: bool) -> (r: &'a [u8])
    ensures
        r@ == if from_end {
            trimmed_end(string@, pat@)
        } else {
            trimmed_start(string@, pat@)
        },
{
    let ghost whole = string@;
    let mut string = string;
    if pat.len() > 0 {
        loop
            invariant
                pat@.len() > 0,
                if from_end {
                    trimmed_end(string@, pat@) == trimmed_end(whole, pat@)
                } else {
                    trimmed_start(string@, pat@) == trimmed_start(whole, pat@)
                },
            ensures
                if from_end {
                    !has_suffix(string@, pat@)
                } else {
                    !has_prefix(string@, pat@)
                },
            decreases string@.len(),
        {
            let stripped = if from_end {
                strip_suffix_bytes(string, pat)
            } else {
                strip_prefix_bytes(string, pat)
            };
            match stripped {
                Some(substring) => {
                    string = substring;
                },
                None => {
                    break ;
                },
            }
        }
    }
    string
}

/// Removes `pat` from the start of `string` as often as it stands there.
pub fn trim_start_matches<'a, P: Pattern>(string: &'a [u8], pat: P) -> (r: &'a [u8])
    ensures
        r@ == trimmed_start(string@, pat.pattern_bytes()),
{
    let pat = pat.__encode();
    trim_matches_bytes(string, pat.__as_bytes(), false)
}

/// Removes `pat` from the end of `string` as often as it stands there.
pub fn trim_end_matches<'a, P: Pattern>(string: &'a [u8], pat: P) -> (r: &'a [u8])
    ensures
        r@ == trimmed_end(string@, pat.pattern_bytes()),
{
    let pat = pat.__encode();
    trim_matches_bytes(string, pat.__as_bytes(), true)
}

/// Removes `pat` from both ends of `string` as often as it stands there,
/// first from the start and then from the end.
pub fn trim_matches<'a, P: Pattern>(string: &'a [u8], pat: P) -> (r: &'a [u8])
    ensures
        r@ == trimmed_end(
            trimmed_start(string@, pat.pattern_bytes()),
            pat.pattern_bytes(),
        ),
{
    let pat = pat.__encode();
    let start = trim_matches_bytes(string, pat.__as_bytes(), false);
    trim_matches_bytes(start, pat.__as_bytes(), true)
}

/// `n` copies of `string`, one after the other.
pub open spec fn repeated(string: Seq<u8>, n: nat) -> Seq<u8>
    decreases n,
{
    if n == 0 {
        Seq::empty()
    } else {
        repeated(string, (n - 1) as nat) + string
    }
}

/// Builds `n` copies of `string`, one after the other.
pub fn repeat(string: &[u8], n: usize) -> (r: Vec<u8>)
    ensures
        r@ == repeated(string@, n as nat),
{
    let mut out: Vec<u8> = Vec::new();
    let mut i: usize = 0;
    while i < n
        invariant
            i <= n,
            out@ == repeated(string@, i as nat),
        decreases n - i,
    {
        out.extend_from_slice(string);
        i += 1;
    }
    out
}

/// A string may be cut at `index`: at its start, at its end, where a
/// well-formed scalar value starts, or where one ends.
///
/// Bytes that are not UTF-8 can only have come from a platform string whose
/// units have no text form. Cutting next to a scalar value leaves those
/// bytes together.
pub open spec fn is_boundary_at(string: Seq<u8>, index: int) -> bool {
    ||| index == 0
    ||| index == string.len()
    ||| scalar_starts_at(string, index)
    ||| scalar_ends_at(string, index)
}

/// Tells whether `string` may be cut at `index`, which lies inside it.
pub fn is_boundary(string: &[u8], index: usize) -> (r: bool)
    requires
        index < string.len(),
    ensures
        r == is_boundary_at(string@, index as int),
{
    if index == 0 {
        return true;
    }
    let len = string.len();
    let byte = string[index];
    let ghost tail = string@.subrange(index as int, len as int);
    assert(tail[0] == byte);
    if byte < 0x80 {
        assert(byte < 0x80 ==> (byte & 0x7F) as u32 <= 0x7F) by (bit_vector);
        return true;
    }
    if !is_continuation(byte) {
        let end = if len - index < MAX_UTF8_LENGTH {
            len
        } else {
            index + MAX_UTF8_LENGTH
        };
        let window = slice_subrange(string, index, end);
        let starts = match from_utf8(window) {
            Ok(_) => true,
            Err(defect) => defect.valid_up_to != 0,
        };
        proof {
            assert(window@ =~= tail.take(end - index));
            lemma_first_scalar_window(tail, end - index);
            lemma_scalar_start_prefix(window@);
            if valid_utf8(window@) {
                assert(window@.subrange(0, window@.len() as int) =~= window@);
            }
            assert(starts == valid_first_scalar(tail));
        }
        if starts {
            return true;
        }
    } else {
        proof {
            if valid_first_scalar(tail) {
                lemma_scalar_shape(tail);
            }
        }
    }
    assert(!scalar_starts_at(string@, index as int));
    let mut start = index;
    while start > 0 && index - start < MAX_UTF8_LENGTH
        invariant
            0 < index,
            start <= index < string@.len(),
            index - start <= MAX_UTF8_LENGTH,
            !scalar_starts_at(string@, index as int),
            forall|k: int| start <= k < index ==> is_continuation_byte(#[trigger] string@[k]),
        decreases start,
    {
        start -= 1;
        if !is_continuation(string[start]) {
            let unit = slice_subrange(string, start, index);
            let whole = match from_utf8(unit) {
                Ok(_) => true,
                Err(_) => false,
            };
            proof {
                assert(forall|k: int| 0 <= k < unit@.len() ==> unit@[k] == string@[start + k]);
                lemma_lone_lead_is_scalar(unit@);
                assert(whole == scalar_spans(string@, start as int, index as int));
                assert forall|other: int|
                    scalar_spans(string@, other, index as int) implies other == start by {
                    let span = string@.subrange(other, index as int);
                    lemma_scalar_shape(span);
                    assert(span[0] == string@[other]);
                    if other < start {
                        assert(span[start - other] == string@[start as int]);
                    }
                }
                assert(whole == scalar_ends_at(string@, index as int));
            }
            return whole;
        }
    }
    proof {
        assert forall|other: int| !scalar_spans(string@, other, index as int) by {
            if scalar_spans(string@, other, index as int) {
                let span = string@.subrange(other, index as int);
                lemma_scalar_shape(span);
                assert(span[0] == string@[other]);
            }
        }
    }
    false
}

/// Tells whether `index` is accepted where a string is cut: it lies at or
/// beyond the end of `string`, or `string` may be cut there.
pub fn check_bound(string: &[u8], index: usize) -> (r: bool)
    ensures
        r == (index >= string@.len() || is_boundary_at(string@, index as int)),
{
    index >= string.len() || is_boundary(string, index)
}

/// Cuts `string` in two at `mid`.
pub fn split_at<'a>(string: &'a [u8], mid: usize) -> (r: (&'a [u8], &'a [u8]))
    requires
        mid <= string@.len(),
        is_boundary_at(string@, mid as int),
    ensures
        r.0@ == string@.take(mid as int),
        r.1@ == string@.skip(mid as int),
{
    let prefix = slice_subrange(string, 0, mid);
    let suffix = slice_subrange(string, mid, string.len());
    assert(prefix@ =~= string@.take(mid as int));
    assert(suffix@ =~= string@.skip(mid as int));
    (prefix, suffix)
}

/// Where `needle` occurs first in `haystack`, if it occurs.
pub open spec fn first_match(haystack: Seq<u8>, needle: Seq<u8>) -> Option<int> {
    if has_match(haystack, needle) {
        Some(choose|index: int| is_first_match(haystack, needle, index))
    } else {
        None
    }
}

/// Where `needle` occurs last in `haystack`, if it occurs.
pub open spec fn last_match(haystack: Seq<u8>, needle: Seq<u8>) -> Option<int> {
    if has_match(haystack, needle) {
        Some(choose|index: int| is_last_match(haystack, needle, index))
    } else {
        None
    }
}

/// There is one first occurrence at most.
pub proof fn lemma_first_match_unique(haystack: Seq<u8>, needle: Seq<u8>, index: int)
    requires
        is_first_match(haystack, needle, index),
    ensures
        first_match(haystack, needle) == Some(index),
{
    assert(matches_at(haystack, needle, index));
    let chosen = choose|i: int| is_first_match(haystack, needle, i);
    assert(is_first_match(haystack, needle, chosen));
    if chosen < index {
        assert(!matches_at(haystack, needle, chosen));
    }
    if index < chosen {
        assert(!matches_at(haystack, needle, index));
    }
}

/// There is one last occurrence at most.
pub proof fn lemma_last_match_unique(haystack: Seq<u8>, needle: Seq<u8>, index: int)
    requires
        is_last_match(haystack, needle, index),
    ensures
        last_match(haystack, needle) == Some(index),
{
    assert(matches_at(haystack, needle, index));
    let chosen = choose|i: int| is_last_match(haystack, needle, i);
    assert(is_last_match(haystack, needle, chosen));
    if chosen < index {
        assert(!matches_at(haystack, needle, index));
    }
    if index < chosen {
        assert(!matches_at(haystack, needle, chosen));
    }
}

/// The pieces between the occurrences of a non-empty `pat` in `string`,
/// from left to right, where each occurrence is the first one in what is
/// left.
pub open spec fn split_seq(string: Seq<u8>, pat: Seq<u8>) -> Seq<Seq<u8>>
    decreases string.len(),
{
    match first_match(string, pat) {
        Some(index) => {
            if pat.len() > 0 && 0 <= index && index + pat.len() <= string.len() {
                seq![string.take(index)] + split_seq(string.skip(index + pat.len() as int), pat)
            } else {
                seq![string]
            }
        },
        None => seq![string],
    }
}

/// The pieces between the occurrences of a non-empty `pat` in `string`,
/// from right to left, where each occurrence is the last one in what is
/// left.
pub open spec fn rsplit_seq(string: Seq<u8>, pat: Seq<u8>) -> Seq<Seq<u8>>
    decreases string.len(),
{
    match last_match(string, pat) {
        Some(index) => {
            if pat.len() > 0 && 0 <= index && index + pat.len() <= string.len() {
                seq![string.skip(index + pat.len() as int)] + rsplit_seq(string.take(index), pat)
            } else {
                seq![string]
            }
        },
        None => seq![string],
    }
}

/// The pieces put together again, with `separator` between each two.
pub open spec fn joined(pieces: Seq<Seq<u8>>, separator: Seq<u8>) -> Seq<u8>
    decreases pieces.len(),
{
    if pieces.len() == 0 {
        Seq::empty()
    } else if pieces.len() == 1 {
        pieces[0]
    } else {
        pieces[0] + separator + joined(pieces.drop_first(), separator)
    }
}

/// A range of byte indices, in one of the forms in which ranges are
/// written.
#[derive(Clone, Copy, Debug, PartialEq, Eq, Structural)]
pub enum SliceIndex {
    /// From the first index up to, but without, the second.
    Range(usize, usize),
    /// From the index to the end.
    RangeFrom(usize),
    /// The whole string.
    RangeFull,
    /// From the first index up to and with the second.
    RangeInclusive(usize, usize),
    /// From the start up to, but without, the index.
    RangeTo(usize),
    /// From the start up to and with the index.
    RangeToInclusive(usize),
}

impl SliceIndex {
    /// The index at which the range starts.
    pub open spec fn start(self) -> int {
        match self {
            SliceIndex::Range(start, _) => start as int,
            SliceIndex::RangeFrom(start) => start as int,
            SliceIndex::RangeInclusive(start, _) => start as int,
            _ => 0,
        }
    }

    /// The index before which the range ends, in a string of `len` bytes.
    pub open spec fn end(self, len: int) -> int {
        match self {
            SliceIndex::Range(_, end) => end as int,
            SliceIndex::RangeInclusive(_, last) => last + 1,
            SliceIndex::RangeTo(end) => end as int,
            SliceIndex::RangeToInclusive(last) => last + 1,
            _ => len,
        }
    }

    /// The range lies in `string` and both its ends are places where
    /// `string` may be cut.
    pub open spec fn fits(self, string: Seq<u8>) -> bool {
        &&& 0 <= self.start() <= self.end(string.len() as int) <= string.len()
        &&& is_boundary_at(string, self.start())
        &&& is_boundary_at(string, self.end(string.len() as int))
    }
}

/// Tells whether the range can be taken out of `string`: it lies in it and
/// both its ends are places where `string` may be cut.
pub fn check_range(string: &[u8], range: SliceIndex) -> (r: bool)
    ensures
        r == range.fits(string@),
{
    let len = string.len();
    let (start, end): (usize, usize) = match range {
        SliceIndex::Range(start, end) => (start, end),
        SliceIndex::RangeFrom(start) => (start, len),
        SliceIndex::RangeFull => (0, len),
        SliceIndex::RangeInclusive(start, last) => {
            if last >= len {
                return false;
            }
            (start, last + 1)
        },
        SliceIndex::RangeTo(end) => (0, end),
        SliceIndex::RangeToInclusive(last) => {
            if last >= len {
                return false;
            }
            (0, last + 1)
        },
    };
    start <= end && end <= len && check_bound(string, start) && check_bound(string, end)
}

/// Takes the range out of `string`.
pub fn index<'a>(string: &'a [u8], range: SliceIndex) -> (r: &'a [u8])
    requires
        range.fits(string@),
    ensures
        r@ == string@.subrange(range.start(), range.end(string@.len() as int)),
{
    let len = string.len();
    match range {
        SliceIndex::Range(start, end) => slice_subrange(string, start, end),
        SliceIndex::RangeFrom(start) => slice_subrange(string, start, len),
        SliceIndex::RangeFull => slice_subrange(string, 0, len),
        SliceIndex::RangeInclusive(start, last) => slice_subrange(string, start, last + 1),
        SliceIndex::RangeTo(end) => slice_subrange(string, 0, end),
        SliceIndex::RangeToInclusive(last) => slice_subrange(string, 0, last + 1),
    }
}

} // verus!
