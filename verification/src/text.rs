//! Checked conversion from bytes to text.

use vstd::prelude::*;
use vstd::utf8::*;

verus! {

/// What is known about bytes that are not UTF-8.
#[derive(Clone, Copy, Debug, PartialEq, Eq)]
pub struct Utf8Defect {
    /// Length of the longest prefix that is UTF-8.
    pub valid_up_to: usize,
    /// Length of the ill-formed sequence that follows the prefix, or `None`
    /// where the input ends inside a sequence that could still be completed.
    pub error_len: Option<usize>,
}

/// For bytes that are not UTF-8: the length of the ill-formed sequence that
/// follows their longest UTF-8 prefix, or `None` where the bytes end inside
/// a sequence that more bytes could complete.
pub uninterp spec fn invalid_sequence_len(bytes: Seq<u8>) -> Option<nat>;

/// `n` is the length of the longest prefix of `bytes` that is UTF-8.
pub open spec fn is_longest_valid_prefix(bytes: Seq<u8>, n: int) -> bool {
    &&& 0 <= n <= bytes.len()
    &&& valid_utf8(bytes.subrange(0, n))
    &&& forall|m: int| n < m <= bytes.len() ==> !valid_utf8(#[trigger] bytes.subrange(0, m))
}

/// Calls `std::str::from_utf8`.
///
/// The text is returned if and only if the bytes are UTF-8, and it then
/// consists of these bytes. Otherwise the report holds the length of the
/// longest UTF-8 prefix and the length that the standard library gives for
/// the ill-formed sequence behind it, which is at least one byte and lies
/// within the input.
#[verifier::external_body]
pub(crate) fn from_utf8<'a>(bytes: &'a [u8]) -> (r: Result<&'a str, Utf8Defect>)
    ensures
        match r {
            Ok(text) => valid_utf8(bytes@) && encode_utf8(text@) == bytes@,
            Err(defect) => {
                &&& !valid_utf8(bytes@)
                &&& is_longest_valid_prefix(bytes@, defect.valid_up_to as int)
                &&& match invalid_sequence_len(bytes@) {
                    Some(n) => {
                        &&& defect.error_len == Some(n as usize)
                        &&& 1 <= n
                        &&& defect.valid_up_to + n <= bytes@.len()
                    },
                    None => defect.error_len is None,
                }
            },
        },
{
    match std::str::from_utf8(bytes) {
        Ok(text) => Ok(text),
        Err(e) => Err(Utf8Defect { valid_up_to: e.valid_up_to(), error_len: e.error_len() }),
    }
}

/// Calls `String::from_utf8`.
///
/// The text is returned if and only if the bytes are UTF-8, and it then
/// consists of these bytes. Otherwise the bytes come back unchanged,
/// together with the report that `std::str::from_utf8` gives for them.
#[verifier::external_body]
pub(crate) fn string_from_utf8(bytes: Vec<u8>) -> (r: Result<String, (Vec<u8>, Utf8Defect)>)
    ensures
        match r {
            Ok(text) => valid_utf8(bytes@) && encode_utf8(text@) == bytes@,
            Err((same, defect)) => {
                &&& same@ == bytes@
                &&& !valid_utf8(bytes@)
                &&& is_longest_valid_prefix(bytes@, defect.valid_up_to as int)
                &&& match invalid_sequence_len(bytes@) {
                    Some(n) => {
                        &&& defect.error_len == Some(n as usize)
                        &&& 1 <= n
                        &&& defect.valid_up_to + n <= bytes@.len()
                    },
                    None => defect.error_len is None,
                }
            },
        },
{
    match String::from_utf8(bytes) {
        Ok(text) => Ok(text),
        Err(e) => {
            let found = e.utf8_error();
            let defect = Utf8Defect { valid_up_to: found.valid_up_to(), error_len: found.error_len() };
            Err((e.into_bytes(), defect))
        },
    }
}

/// The text in which `str::escape_debug` shows `text`.
pub uninterp spec fn escaped_debug(text: Seq<char>) -> Seq<char>;

/// Calls `str::escape_debug` and collects what it yields: the text with
/// the escapes of `char::escape_debug` in place of its characters.
#[verifier::external_body]
pub(crate) fn escape_debug(text: &str) -> (r: String)
    ensures
        r@ == escaped_debug(text@),
{
    text.escape_debug().collect()
}

/// Calls `String::into_bytes`, which hands out the UTF-8 bytes of the text.
#[verifier::external_body]
pub(crate) fn string_into_bytes(text: String) -> (r: Vec<u8>)
    ensures
        r@ == encode_utf8(text@),
{
    text.into_bytes()
}

/// The bytes of a single character.
pub fn encode_char(c: char) -> (r: ([u8; 4], usize))
    ensures
        1 <= r.1 <= 4,
        r.0@.take(r.1 as int) == encode_scalar(c as u32),
{
    let code = c as u32;
    proof {
        char_is_scalar(c);
    }
    let mut buffer: [u8; 4] = [0, 0, 0, 0];
    let length: usize = if code < 0x80 {
        buffer[0] = (code & 0x7F) as u8;
        1
    } else if code < 0x800 {
        buffer[0] = 0xC0 | ((code >> 6) & 0x1F) as u8;
        buffer[1] = 0x80 | (code & 0x3F) as u8;
        2
    } else if code < 0x10000 {
        buffer[0] = 0xE0 | ((code >> 12) & 0x0F) as u8;
        buffer[1] = 0x80 | ((code >> 6) & 0x3F) as u8;
        buffer[2] = 0x80 | (code & 0x3F) as u8;
        3
    } else {
        buffer[0] = 0xF0 | ((code >> 18) & 0x7) as u8;
        buffer[1] = 0x80 | ((code >> 12) & 0x3F) as u8;
        buffer[2] = 0x80 | ((code >> 6) & 0x3F) as u8;
        buffer[3] = 0x80 | (code & 0x3F) as u8;
        4
    };
    assert(buffer@.take(length as int) =~= encode_scalar(code));
    (buffer, length)
}

/// The bytes of a single character are UTF-8.
pub proof fn lemma_encode_scalar_valid(c: char)
    ensures
        valid_utf8(encode_scalar(c as u32)),
        encode_scalar(c as u32) == encode_utf8(seq![c]),
        1 <= encode_scalar(c as u32).len() <= 4,
{
    let chars = seq![c];
    reveal_with_fuel(encode_utf8, 2);
    assert(chars.drop_first() =~= Seq::<char>::empty());
    assert(encode_utf8(chars) =~= encode_scalar(c as u32));
    encode_utf8_valid_utf8(chars);
}

/// A well-formed scalar value starts at `index`.
pub open spec fn scalar_starts_at(string: Seq<u8>, index: int) -> bool {
    &&& 0 <= index < string.len()
    &&& valid_first_scalar(string.subrange(index, string.len() as int))
}

/// The bytes from `start` up to `end` are one well-formed scalar value.
pub open spec fn scalar_spans(string: Seq<u8>, start: int, end: int) -> bool {
    &&& 0 <= start < end <= string.len()
    &&& valid_first_scalar(string.subrange(start, end))
    &&& length_of_first_scalar(string.subrange(start, end)) == end - start
}

/// A well-formed scalar value ends just before `index`.
pub open spec fn scalar_ends_at(string: Seq<u8>, index: int) -> bool {
    exists|start: int| scalar_spans(string, start, index)
}

/// Whether a scalar value starts a byte string depends on its first four
/// bytes alone.
pub proof fn lemma_first_scalar_window(bytes: Seq<u8>, n: int)
    requires
        0 <= n <= bytes.len(),
        n >= 4 || n == bytes.len() || (valid_first_scalar(bytes.take(n))) || (valid_first_scalar(
            bytes,
        ) && length_of_first_scalar(bytes) <= n),
    ensures
        valid_first_scalar(bytes.take(n)) == valid_first_scalar(bytes),
        valid_first_scalar(bytes) ==> length_of_first_scalar(bytes.take(n))
            == length_of_first_scalar(bytes),
{
    let window = bytes.take(n);
    assert(forall|k: int| 0 <= k < n ==> window[k] == bytes[k]);
    if n == bytes.len() {
        assert(window =~= bytes);
    }
}

/// A single well-formed scalar value is UTF-8.
pub proof fn lemma_single_scalar_valid(bytes: Seq<u8>)
    requires
        valid_first_scalar(bytes),
        length_of_first_scalar(bytes) == bytes.len(),
    ensures
        valid_utf8(bytes),
{
    reveal_with_fuel(valid_utf8, 2);
    assert(pop_first_scalar(bytes).len() == 0);
}

/// A byte string starts with a scalar value exactly if one of its non-empty
/// prefixes is UTF-8.
pub proof fn lemma_scalar_start_prefix(bytes: Seq<u8>)
    ensures
        valid_first_scalar(bytes) <==> exists|n: int|
            0 < n <= bytes.len() && valid_utf8(#[trigger] bytes.subrange(0, n)),
{
    if valid_first_scalar(bytes) {
        let n = length_of_first_scalar(bytes);
        lemma_first_scalar_window(bytes, n);
        assert(bytes.take(n) == bytes.subrange(0, n));
        lemma_single_scalar_valid(bytes.subrange(0, n));
    }
    if exists|n: int| 0 < n <= bytes.len() && valid_utf8(#[trigger] bytes.subrange(0, n)) {
        let n = choose|n: int| 0 < n <= bytes.len() && valid_utf8(#[trigger] bytes.subrange(0, n));
        assert(bytes.take(n) == bytes.subrange(0, n));
        assert(valid_first_scalar(bytes.take(n)));
        lemma_first_scalar_window(bytes, n);
    }
}

/// Bytes of which only the first is no continuation byte are UTF-8 exactly
/// if they are one scalar value.
pub proof fn lemma_lone_lead_is_scalar(bytes: Seq<u8>)
    requires
        bytes.len() > 0,
        forall|k: int| 0 < k < bytes.len() ==> is_continuation_byte(#[trigger] bytes[k]),
    ensures
        valid_utf8(bytes) <==> valid_first_scalar(bytes) && length_of_first_scalar(bytes)
            == bytes.len(),
{
    if valid_utf8(bytes) {
        reveal_with_fuel(valid_utf8, 2);
        let n = length_of_first_scalar(bytes);
        let rest = pop_first_scalar(bytes);
        assert(valid_first_scalar(bytes));
        assert(n <= bytes.len());
        if rest.len() > 0 {
            assert(valid_first_scalar(rest));
            assert(rest[0] == bytes[n]);
            assert(is_continuation_byte(bytes[n]));
        }
    }
    if valid_first_scalar(bytes) && length_of_first_scalar(bytes) == bytes.len() {
        lemma_single_scalar_valid(bytes);
    }
}

/// The bytes of a scalar value: a lead byte, which is no continuation byte,
/// and then continuation bytes only.
pub proof fn lemma_scalar_shape(bytes: Seq<u8>)
    requires
        valid_first_scalar(bytes),
    ensures
        !is_continuation_byte(bytes[0]),
        1 <= length_of_first_scalar(bytes) <= 4,
        length_of_first_scalar(bytes) <= bytes.len(),
        forall|k: int|
            0 < k < length_of_first_scalar(bytes) ==> is_continuation_byte(#[trigger] bytes[k]),
{
}

/// The length of the longest prefix of `bytes` that is UTF-8.
pub open spec fn valid_prefix_len(bytes: Seq<u8>) -> int {
    choose|n: int| is_longest_valid_prefix(bytes, n)
}

/// There is one longest UTF-8 prefix.
pub proof fn lemma_longest_prefix_unique(bytes: Seq<u8>, n: int)
    requires
        is_longest_valid_prefix(bytes, n),
    ensures
        valid_prefix_len(bytes) == n,
{
    let chosen = valid_prefix_len(bytes);
    assert(is_longest_valid_prefix(bytes, chosen));
    if chosen < n {
        assert(!valid_utf8(bytes.subrange(0, n)));
    }
    if n < chosen {
        assert(!valid_utf8(bytes.subrange(0, chosen)));
    }
}

/// For bytes that are not UTF-8: how many bytes behind the longest UTF-8
/// prefix belong to the ill-formed sequence. Where the bytes end inside a
/// sequence, these are all the bytes that are left.
pub open spec fn defect_skip(bytes: Seq<u8>) -> int {
    let left = bytes.len() - valid_prefix_len(bytes);
    match invalid_sequence_len(bytes) {
        Some(n) => if 1 <= n <= left {
            n as int
        } else {
            left
        },
        None => left,
    }
}

/// Among the prefixes of `bytes` of at most `limit` bytes, one is the
/// longest that is UTF-8.
proof fn lemma_longest_prefix_below(bytes: Seq<u8>, limit: int) -> (n: int)
    requires
        0 <= limit <= bytes.len(),
    ensures
        0 <= n <= limit,
        valid_utf8(bytes.subrange(0, n)),
        forall|m: int| n < m <= limit ==> !valid_utf8(#[trigger] bytes.subrange(0, m)),
    decreases limit,
{
    if valid_utf8(bytes.subrange(0, limit)) {
        limit
    } else {
        assert(limit > 0) by {
            if limit == 0 {
                assert(bytes.subrange(0, 0).len() == 0);
            }
        }
        lemma_longest_prefix_below(bytes, limit - 1)
    }
}

/// Every byte string has a longest UTF-8 prefix. Where the bytes are not
/// UTF-8, it is shorter than they are.
pub proof fn lemma_longest_prefix_exists(bytes: Seq<u8>)
    ensures
        is_longest_valid_prefix(bytes, valid_prefix_len(bytes)),
        !valid_utf8(bytes) ==> valid_prefix_len(bytes) < bytes.len() && 1 <= defect_skip(bytes)
            <= bytes.len() - valid_prefix_len(bytes),
        valid_utf8(bytes) ==> valid_prefix_len(bytes) == bytes.len(),
{
    let n = lemma_longest_prefix_below(bytes, bytes.len() as int);
    assert(is_longest_valid_prefix(bytes, n));
    assert(bytes.subrange(0, bytes.len() as int) =~= bytes);
    lemma_longest_prefix_unique(bytes, n);
}

} // verus!
