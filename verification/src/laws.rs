//! What holds of searching, splitting, trimming and chunking, whatever the
//! string and the pattern.

use vstd::prelude::*;
use vstd::utf8::*;
use crate::ext::first_match;
use crate::ext::has_match;
use crate::ext::has_prefix;
use crate::ext::has_suffix;
use crate::ext::is_boundary_at;
use crate::ext::is_first_match;
use crate::ext::is_last_match;
use crate::ext::joined;
use crate::ext::last_match;
use crate::ext::matches_at;
use crate::ext::rsplit_seq;
use crate::ext::split_seq;
use crate::ext::trimmed_end;
use crate::ext::trimmed_start;
use crate::iter::chunk_invalid;
use crate::iter::chunk_rest;
use crate::iter::chunk_rest_known;
use crate::iter::chunk_valid;
use crate::iter::chunks;
use crate::iter::invalid_span;
use crate::text::defect_skip;
use crate::text::lemma_first_scalar_window;
use crate::text::lemma_longest_prefix_exists;
use crate::text::scalar_ends_at;
use crate::text::scalar_spans;
use crate::text::scalar_starts_at;
use crate::text::valid_prefix_len;

verus! {

/// A string that is cut where it may be cut, and put together again without
/// anything in between, is the same string.
pub proof fn lemma_split_at_rejoins(string: Seq<u8>, index: int)
    requires
        is_boundary_at(string, index),
    ensures
        0 <= index <= string.len(),
        string.take(index) + string.skip(index) == string,
{
    if scalar_ends_at(string, index) {
        let start = choose|start: int| scalar_spans(string, start, index);
        assert(scalar_spans(string, start, index));
    }
    assert(string.take(index) + string.skip(index) =~= string);
}

/// Searching finds a pattern exactly if the pattern occurs, and the index
/// found is where the pattern occurs first: the bytes from there on are the
/// pattern, and no earlier index is such a place.
pub proof fn lemma_search_consistency(haystack: Seq<u8>, needle: Seq<u8>)
    ensures
        first_match(haystack, needle) is Some <==> has_match(haystack, needle),
        first_match(haystack, needle) matches Some(index) ==> {
            &&& 0 <= index
            &&& index + needle.len() <= haystack.len()
            &&& haystack.subrange(index, index + needle.len()) == needle
            &&& forall|earlier: int| 0 <= earlier < index ==> !matches_at(haystack, needle, earlier)
        },
{
    if has_match(haystack, needle) {
        lemma_first_match_exists(haystack, needle);
    }
}

/// Where nothing before `from` matches and something matches, there is a
/// first match.
proof fn lemma_first_match_from(haystack: Seq<u8>, needle: Seq<u8>, from: int, witness: int)
    requires
        0 <= from <= witness,
        matches_at(haystack, needle, witness),
        forall|earlier: int| 0 <= earlier < from ==> !matches_at(haystack, needle, earlier),
    ensures
        exists|index: int| is_first_match(haystack, needle, index),
    decreases witness - from,
{
    if matches_at(haystack, needle, from) {
        assert(is_first_match(haystack, needle, from));
    } else {
        lemma_first_match_from(haystack, needle, from + 1, witness);
    }
}

/// Where nothing behind `from` matches and something matches, there is a
/// last match.
proof fn lemma_last_match_from(haystack: Seq<u8>, needle: Seq<u8>, from: int, witness: int)
    requires
        witness <= from,
        matches_at(haystack, needle, witness),
        forall|later: int| from < later ==> !matches_at(haystack, needle, later),
    ensures
        exists|index: int| is_last_match(haystack, needle, index),
    decreases from - witness,
{
    if matches_at(haystack, needle, from) {
        assert(is_last_match(haystack, needle, from));
    } else {
        lemma_last_match_from(haystack, needle, from - 1, witness);
    }
}

/// A pattern that occurs has a first occurrence.
pub proof fn lemma_first_match_exists(haystack: Seq<u8>, needle: Seq<u8>)
    requires
        has_match(haystack, needle),
    ensures
        first_match(haystack, needle) matches Some(index) && is_first_match(
            haystack,
            needle,
            index,
        ),
{
    let witness = choose|index: int| matches_at(haystack, needle, index);
    lemma_first_match_from(haystack, needle, 0, witness);
}

/// A pattern that occurs has a last occurrence.
pub proof fn lemma_last_match_exists(haystack: Seq<u8>, needle: Seq<u8>)
    requires
        has_match(haystack, needle),
    ensures
        last_match(haystack, needle) matches Some(index) && is_last_match(haystack, needle, index),
{
    let witness = choose|index: int| matches_at(haystack, needle, index);
    lemma_last_match_from(haystack, needle, haystack.len() as int, witness);
}

/// Splitting yields at least one piece.
pub proof fn lemma_split_not_empty(string: Seq<u8>, pat: Seq<u8>)
    ensures
        split_seq(string, pat).len() >= 1,
        rsplit_seq(string, pat).len() >= 1,
{
}

/// The pieces of a string, put together again with the pattern between
/// them, are the string.
pub proof fn lemma_split_join(string: Seq<u8>, pat: Seq<u8>)
    requires
        pat.len() > 0,
    ensures
        joined(split_seq(string, pat), pat) == string,
    decreases string.len(),
{
    if has_match(string, pat) {
        lemma_first_match_exists(string, pat);
        let index = first_match(string, pat)->0;
        let rest = string.skip(index + pat.len() as int);
        let pieces = split_seq(string, pat);
        lemma_split_join(rest, pat);
        lemma_split_not_empty(rest, pat);
        assert(pieces == seq![string.take(index)] + split_seq(rest, pat));
        assert(pieces.drop_first() =~= split_seq(rest, pat));
        assert(pieces[0] == string.take(index));
        assert(string.take(index) + pat + rest =~= string);
    }
}

/// The pieces of a string from the right, put together again in the order
/// of the string with the pattern between them, are the string.
pub proof fn lemma_rsplit_join(string: Seq<u8>, pat: Seq<u8>)
    requires
        pat.len() > 0,
    ensures
        joined(rsplit_seq(string, pat).reverse(), pat) == string,
    decreases string.len(),
{
    if has_match(string, pat) {
        lemma_last_match_exists(string, pat);
        let index = last_match(string, pat)->0;
        let head = string.take(index);
        let tail = string.skip(index + pat.len() as int);
        let pieces = rsplit_seq(string, pat);
        lemma_rsplit_join(head, pat);
        lemma_split_not_empty(head, pat);
        assert(pieces == seq![tail] + rsplit_seq(head, pat));
        assert(pieces.reverse() =~= rsplit_seq(head, pat).reverse() + seq![tail]);
        lemma_joined_push(rsplit_seq(head, pat).reverse(), tail, pat);
        assert(head + pat + tail =~= string);
    } else {
        assert(rsplit_seq(string, pat).reverse() =~= seq![string]);
    }
}

/// Joining with one more piece at the end adds the separator and the piece.
proof fn lemma_joined_push(pieces: Seq<Seq<u8>>, last: Seq<u8>, separator: Seq<u8>)
    requires
        pieces.len() >= 1,
    ensures
        joined(pieces + seq![last], separator) == joined(pieces, separator) + separator + last,
    decreases pieces.len(),
{
    let all = pieces + seq![last];
    if pieces.len() == 1 {
        assert(all.drop_first() =~= seq![last]);
        assert(joined(seq![last], separator) == last);
        assert(joined(pieces, separator) == pieces[0]);
        assert(all[0] == pieces[0]);
        assert(joined(all, separator) =~= pieces[0] + separator + last);
    } else {
        lemma_joined_push(pieces.drop_first(), last, separator);
        assert(all.drop_first() =~= pieces.drop_first() + seq![last]);
        assert(joined(all, separator) =~= joined(pieces, separator) + separator + last);
    }
}

/// Trimming the start a second time changes nothing.
pub proof fn lemma_trim_start_idempotent(string: Seq<u8>, pat: Seq<u8>)
    ensures
        trimmed_start(trimmed_start(string, pat), pat) == trimmed_start(string, pat),
        pat.len() > 0 ==> !has_prefix(trimmed_start(string, pat), pat),
    decreases string.len(),
{
    if pat.len() > 0 && has_prefix(string, pat) {
        lemma_trim_start_idempotent(string.skip(pat.len() as int), pat);
    }
}

/// Trimming the end a second time changes nothing.
pub proof fn lemma_trim_end_idempotent(string: Seq<u8>, pat: Seq<u8>)
    ensures
        trimmed_end(trimmed_end(string, pat), pat) == trimmed_end(string, pat),
        pat.len() > 0 ==> !has_suffix(trimmed_end(string, pat), pat),
    decreases string.len(),
{
    if pat.len() > 0 && has_suffix(string, pat) {
        lemma_trim_end_idempotent(string.take(string.len() - pat.len()), pat);
    }
}

/// The bytes of all chunks, one after the other.
pub open spec fn chunks_concat(chunks: Seq<(Seq<u8>, Seq<u8>)>) -> Seq<u8>
    decreases chunks.len(),
{
    if chunks.len() == 0 {
        Seq::empty()
    } else {
        chunks[0].0 + chunks[0].1 + chunks_concat(chunks.drop_first())
    }
}

/// The invalid span reaches from the known bytes at most to the end of the
/// string.
pub proof fn lemma_invalid_span_bounds(string: Seq<u8>, known: int)
    requires
        0 <= known <= string.len(),
    ensures
        known <= invalid_span(string, known) <= string.len(),
        ({
            let rest = string.skip(invalid_span(string, known));
            rest.len() == 0 || valid_utf8(rest) || valid_prefix_len(rest) > 0
        }),
    decreases string.len() - known,
{
    let rest = string.skip(known);
    lemma_longest_prefix_exists(rest);
    if known < string.len() && !valid_utf8(rest) && valid_prefix_len(rest) == 0 {
        lemma_invalid_span_bounds(string, known + defect_skip(rest));
    }
}

/// The chunks of a string, of which the first `known` bytes are known to
/// belong to no text, hold all its bytes in order. In no chunk both parts
/// are empty. After the first chunk every chunk begins with bytes that
/// belong to no text, and so does the first where `known` is not zero.
/// Before the last chunk every chunk holds text.
pub proof fn lemma_chunks_total_from(string: Seq<u8>, known: int)
    requires
        0 <= known <= string.len(),
    ensures
        chunks_concat(chunks(string, known)) == string,
        forall|i: int|
            0 <= i < chunks(string, known).len() ==> {
                let chunk = #[trigger] chunks(string, known)[i];
                &&& chunk.0.len() > 0 || chunk.1.len() > 0
                &&& (i > 0 || known > 0 ==> chunk.0.len() > 0)
                &&& (i < chunks(string, known).len() - 1 ==> chunk.1.len() > 0)
                &&& valid_utf8(chunk.1)
            },
    decreases string.len(),
{
    if string.len() > 0 {
        lemma_invalid_span_bounds(string, known);
        let span = invalid_span(string, known);
        let behind = string.skip(span);
        lemma_longest_prefix_exists(behind);
        let invalid = chunk_invalid(string, known);
        let valid = chunk_valid(string, known);
        let rest = chunk_rest(string, known);
        let rest_known = chunk_rest_known(string, known);
        let all = chunks(string, known);
        assert(invalid + valid + rest =~= string);
        assert(rest.len() < string.len());
        if rest.len() < string.len() {
            assert(all == seq![(invalid, valid)] + chunks(rest, rest_known));
            assert(all.drop_first() =~= chunks(rest, rest_known));
            if valid_utf8(behind) {
                assert(chunks(rest, rest_known) =~= Seq::<(Seq<u8>, Seq<u8>)>::empty());
            } else {
                lemma_chunks_total_from(rest, rest_known);
                assert(behind.take(valid_prefix_len(behind)) == behind.subrange(
                    0,
                    valid_prefix_len(behind),
                ));
            }
            assert(chunks_concat(chunks(rest, rest_known)) == rest);
            assert(chunks_concat(all) =~= invalid + valid + rest);
            assert forall|i: int| 0 <= i < all.len() implies {
                let chunk = #[trigger] all[i];
                &&& chunk.0.len() > 0 || chunk.1.len() > 0
                &&& (i > 0 || known > 0 ==> chunk.0.len() > 0)
                &&& (i < all.len() - 1 ==> chunk.1.len() > 0)
                &&& valid_utf8(chunk.1)
            } by {
                if i > 0 {
                    assert(all[i] == chunks(rest, rest_known)[i - 1]);
                }
            }
        } else {
            assert(all =~= seq![(invalid, valid)]);
            assert(all.drop_first() =~= Seq::<(Seq<u8>, Seq<u8>)>::empty());
        }
    }
}

/// The chunks of a string hold all its bytes in order. In no chunk both
/// parts are empty: only the first chunk may begin with text, and only the
/// last may end without text.
pub proof fn lemma_chunks_total(string: Seq<u8>)
    ensures
        chunks_concat(chunks(string, 0)) == string,
        forall|i: int|
            0 <= i < chunks(string, 0).len() ==> {
                let chunk = #[trigger] chunks(string, 0)[i];
                &&& chunk.0.len() > 0 || chunk.1.len() > 0
                &&& (i > 0 ==> chunk.0.len() > 0)
                &&& (i < chunks(string, 0).len() - 1 ==> chunk.1.len() > 0)
                &&& valid_utf8(chunk.1)
            },
{
    lemma_chunks_total_from(string, 0);
}

/// Text that is not empty ends with one scalar value.
proof fn lemma_text_ends_with_scalar(text: Seq<u8>) -> (start: int)
    requires
        valid_utf8(text),
        text.len() > 0,
    ensures
        scalar_spans(text, start, text.len() as int),
    decreases text.len(),
{
    let n = length_of_first_scalar(text);
    let rest = pop_first_scalar(text);
    if rest.len() == 0 {
        assert(text.subrange(0, text.len() as int) =~= text);
        0
    } else {
        let inner = lemma_text_ends_with_scalar(rest);
        assert(rest.subrange(inner, rest.len() as int) =~= text.subrange(
            n + inner,
            text.len() as int,
        ));
        n + inner
    }
}

/// Where text that is not empty occurs in a string, the string may be cut
/// before and behind it: no search for a pattern leads into the middle of
/// an encoded code point.
pub proof fn lemma_match_is_boundary(string: Seq<u8>, pat: Seq<u8>, index: int)
    requires
        valid_utf8(pat),
        pat.len() > 0,
        matches_at(string, pat, index),
    ensures
        is_boundary_at(string, index),
        is_boundary_at(string, index + pat.len()),
{
    if pat.len() > 0 {
        let end = index + pat.len();
        let tail = string.subrange(index, string.len() as int);
        assert(tail.take(pat.len() as int) =~= pat);
        assert(valid_first_scalar(pat));
        lemma_first_scalar_window(tail, pat.len() as int);
        assert(scalar_starts_at(string, index));
        let start = lemma_text_ends_with_scalar(pat);
        assert(pat.subrange(start, pat.len() as int) =~= string.subrange(index + start, end));
        assert(scalar_spans(string, index + start, end));
        assert(scalar_ends_at(string, end));
    }
}

} // verus!
