//! Comparing byte forms gives what comparing the 16-bit strings gives.

use vstd::prelude::*;
use vstd::utf8::*;
use crate::ext::has_suffix;
use crate::windows::wtf8::laws::lemma_decode_encoded;
use crate::windows::wtf8::laws::lemma_encode_decoded;
use crate::windows::wtf8::laws::lemma_round_trip;
use crate::windows::wtf8::model::encode_code_point;
use crate::windows::wtf8::model::is_high_surrogate;
use crate::windows::wtf8::model::is_low_surrogate;
use crate::windows::wtf8::model::join_surrogates;
use crate::windows::wtf8::model::low_surrogate_of;
use crate::windows::wtf8::model::wide_to_bytes;
use crate::windows::wtf8::string::lone_unit;
use crate::windows::wtf8::string::second_unit;
use crate::windows::wtf8::string::wtf8_has_prefix;
use crate::windows::wtf8::string::wtf8_has_suffix;

verus! {

/// The 16-bit string `string` ends with `suffix`.
pub open spec fn wide_has_suffix(string: Seq<u16>, suffix: Seq<u16>) -> bool {
    suffix.len() <= string.len() && string.skip(string.len() - suffix.len()) == suffix
}

/// The 16-bit string `string` starts with `prefix`.
pub open spec fn wide_has_prefix(string: Seq<u16>, prefix: Seq<u16>) -> bool {
    prefix.len() <= string.len() && string.take(prefix.len() as int) == prefix
}

/// The string begins with a surrogate pair.
pub open spec fn begins_with_pair(wide: Seq<u16>) -> bool {
    wide.len() >= 2 && is_high_surrogate(wide[0]) && is_low_surrogate(wide[1])
}

/// The number of 16-bit units that the first unit of the byte form stands
/// for.
pub open spec fn first_used(wide: Seq<u16>) -> int {
    if begins_with_pair(wide) {
        2
    } else {
        1
    }
}

/// The code point of the first unit of the byte form.
pub open spec fn first_code_point(wide: Seq<u16>) -> u32 {
    if begins_with_pair(wide) {
        join_surrogates(wide[0], wide[1])
    } else {
        wide[0] as u32
    }
}

/// The bytes of a code point: between one and four, the first no
/// continuation byte and the others continuation bytes. Read back they give
/// the code point.
pub proof fn lemma_unit_shape(code_point: u32)
    requires
        code_point <= 0x10FFFF,
    ensures
        1 <= encode_code_point(code_point).len() <= 4,
        code_point >= 0x10000 <==> encode_code_point(code_point).len() == 4,
        0x800 <= code_point < 0x10000 <==> encode_code_point(code_point).len() == 3,
        !is_continuation_byte(encode_code_point(code_point)[0]),
        forall|k: int|
            0 < k < encode_code_point(code_point).len() ==> is_continuation_byte(
                #[trigger] encode_code_point(code_point)[k],
            ),
{
    let unit = encode_code_point(code_point);
    lemma_decode_encoded(code_point, Seq::<u8>::empty(), false);
    assert(unit + Seq::<u8>::empty() =~= unit);
}

/// The byte form, unit by unit.
pub proof fn lemma_first_unit(wide: Seq<u16>)
    requires
        wide.len() > 0,
    ensures
        first_code_point(wide) <= 0x10FFFF,
        begins_with_pair(wide) <==> first_code_point(wide) >= 0x10000,
        wide_to_bytes(wide) == encode_code_point(first_code_point(wide)) + wide_to_bytes(
            wide.skip(first_used(wide)),
        ),
        wide_to_bytes(wide).len() == encode_code_point(first_code_point(wide)).len()
            + wide_to_bytes(wide.skip(first_used(wide))).len(),
        wide_to_bytes(wide).len() >= 1,
        !is_continuation_byte(wide_to_bytes(wide)[0]),
{
    lemma_unit_shape(first_code_point(wide));
}

/// The byte form of two strings put together is their byte forms put
/// together, unless the first ends with a high surrogate and the second
/// begins with a low one.
pub proof fn lemma_concat(a: Seq<u16>, b: Seq<u16>)
    requires
        a.len() == 0 || b.len() == 0 || !(is_high_surrogate(a.last()) && is_low_surrogate(b[0])),
    ensures
        wide_to_bytes(a + b) == wide_to_bytes(a) + wide_to_bytes(b),
    decreases a.len(),
{
    if a.len() == 0 {
        assert(a + b =~= b);
        assert(wide_to_bytes(a) + wide_to_bytes(b) =~= wide_to_bytes(b));
    } else if b.len() == 0 {
        assert(a + b =~= a);
        assert(wide_to_bytes(a) + wide_to_bytes(b) =~= wide_to_bytes(a));
    } else {
        let all = a + b;
        assert(all[0] == a[0]);
        if a.len() >= 2 {
            assert(all[1] == a[1]);
        } else {
            assert(all[1] == b[0]);
            assert(a.last() == a[0]);
        }
        assert(begins_with_pair(all) == begins_with_pair(a));
        let used = first_used(a);
        let rest = a.skip(used);
        assert(all.skip(used) =~= rest + b);
        if rest.len() > 0 {
            assert(rest.last() == a.last());
        }
        lemma_concat(rest, b);
        lemma_first_unit(a);
        lemma_first_unit(all);
        assert(wide_to_bytes(all) =~= wide_to_bytes(a) + wide_to_bytes(b));
    }
}

/// A low surrogate in front of a string adds three bytes in front of its
/// byte form.
pub proof fn lemma_low_in_front(low: u16, rest: Seq<u16>)
    requires
        is_low_surrogate(low),
    ensures
        wide_to_bytes(seq![low] + rest) == encode_code_point(low as u32) + wide_to_bytes(rest),
        encode_code_point(low as u32).len() == 3,
{
    let all = seq![low] + rest;
    assert(all[0] == low);
    assert(all.skip(1) =~= rest);
    lemma_unit_shape(low as u32);
}

/// What is left of a string behind some of its units has a shorter byte
/// form.
pub proof fn lemma_tail_is_shorter(wide: Seq<u16>, from: int)
    requires
        0 < from <= wide.len(),
    ensures
        wide_to_bytes(wide.skip(from)).len() < wide_to_bytes(wide).len(),
    decreases wide.len(),
{
    lemma_first_unit(wide);
    let used = first_used(wide);
    let rest = wide.skip(used);
    if from >= used {
        assert(wide.skip(from) =~= rest.skip(from - used));
        if from > used {
            lemma_tail_is_shorter(rest, from - used);
        } else {
            assert(rest.skip(0) =~= rest);
        }
    } else {
        assert(wide.skip(1) =~= seq![wide[1]] + rest);
        lemma_low_in_front(wide[1], rest);
        lemma_unit_shape(first_code_point(wide));
    }
}

/// Strings with the same byte form are the same.
pub proof fn lemma_same_bytes_same_string(a: Seq<u16>, b: Seq<u16>)
    requires
        wide_to_bytes(a) == wide_to_bytes(b),
    ensures
        a == b,
{
    lemma_round_trip(a);
    lemma_round_trip(b);
}

/// A suffix of a string has a byte form that is not longer.
proof fn lemma_suffix_not_longer(string: Seq<u16>, suffix: Seq<u16>)
    requires
        wide_has_suffix(string, suffix),
    ensures
        wide_to_bytes(suffix).len() <= wide_to_bytes(string).len(),
        wide_to_bytes(suffix).len() == wide_to_bytes(string).len() ==> suffix == string,
{
    let from = string.len() - suffix.len();
    if from > 0 {
        lemma_tail_is_shorter(string, from);
    } else {
        assert(string.skip(0) =~= string);
    }
}

/// Comparing the byte forms of two 16-bit strings tells whether the one
/// string ends with the other.
pub proof fn lemma_ends_with(string: Seq<u16>, suffix: Seq<u16>)
    ensures
        wtf8_has_suffix(wide_to_bytes(string), wide_to_bytes(suffix)) == wide_has_suffix(
            string,
            suffix,
        ),
    decreases string.len(),
{
    let s = wide_to_bytes(string);
    let p = wide_to_bytes(suffix);
    let index = s.len() - p.len();
    if wide_has_suffix(string, suffix) {
        lemma_suffix_not_longer(string, suffix);
    }
    if string.len() == 0 {
        if suffix.len() > 0 {
            lemma_first_unit(suffix);
        } else {
            assert(s.subrange(0, 0) =~= p);
            assert(string.skip(0) =~= suffix);
        }
    } else if index < 0 {
    } else {
        lemma_first_unit(string);
        let used = first_used(string);
        let code_point = first_code_point(string);
        let unit = encode_code_point(code_point);
        let n = unit.len() as int;
        let rest = string.skip(used);
        let r = wide_to_bytes(rest);
        lemma_unit_shape(code_point);
        assert(s == unit + r);
        if index == 0 {
            if has_suffix(s, p) {
                assert(s.subrange(0, s.len() as int) =~= s);
                lemma_same_bytes_same_string(string, suffix);
                assert(string.skip(0) =~= string);
            }
            if wide_has_suffix(string, suffix) {
                assert(s.subrange(0, s.len() as int) =~= s);
            }
        } else if index < n {
            assert(s[index] == unit[index]);
            lemma_ends_inside_first_unit(string, suffix);
        } else {
            lemma_ends_with(rest, suffix);
            lemma_ends_behind_first_unit(string, suffix);
        }
    }
}

/// The case of `lemma_ends_with` in which the suffix begins behind the
/// first unit of the string: the first unit plays no part.
proof fn lemma_ends_behind_first_unit(string: Seq<u16>, suffix: Seq<u16>)
    requires
        string.len() > 0,
        wide_to_bytes(string).len() - wide_to_bytes(suffix).len() >= encode_code_point(
            first_code_point(string),
        ).len(),
        wtf8_has_suffix(
            wide_to_bytes(string.skip(first_used(string))),
            wide_to_bytes(suffix),
        ) == wide_has_suffix(string.skip(first_used(string)), suffix),
    ensures
        wtf8_has_suffix(wide_to_bytes(string), wide_to_bytes(suffix)) == wide_has_suffix(
            string,
            suffix,
        ),
{
    let s = wide_to_bytes(string);
    let p = wide_to_bytes(suffix);
    let index = s.len() - p.len();
    lemma_first_unit(string);
    let used = first_used(string);
    let code_point = first_code_point(string);
    let unit = encode_code_point(code_point);
    let n = unit.len() as int;
    let rest = string.skip(used);
    let r = wide_to_bytes(rest);
    lemma_unit_shape(code_point);
    assert(s == unit + r);
    let shifted = index - n;
    assert(shifted == r.len() - p.len());
    assert(s.skip(n) =~= r);
    assert(wtf8_has_suffix(s, p) == wtf8_has_suffix(r, p)) by {
        if shifted == 0 {
            if r.len() > 0 {
                lemma_first_unit(rest);
                assert(s[index] == r[0]);
            }
            assert(s.subrange(index, s.len() as int) =~= r.subrange(0, r.len() as int));
            assert(has_suffix(s, p) == has_suffix(r, p));
        } else {
            if index < s.len() {
                assert(s[index] == r[shifted]);
            }
            assert(s.skip(index - 1) =~= r.skip(shifted - 1));
            assert(s.subrange(index, s.len() as int) =~= r.subrange(shifted, r.len() as int));
            assert(has_suffix(s, p) == has_suffix(r, p));
            if p.len() >= 3 {
                let tail = p.skip(3);
                assert(s.subrange(s.len() - tail.len(), s.len() as int) =~= r.subrange(
                    r.len() - tail.len(),
                    r.len() as int,
                ));
                assert(has_suffix(s, tail) == has_suffix(r, tail));
            }
        }
    }
    assert(wide_has_suffix(string, suffix) == wide_has_suffix(rest, suffix)) by {
        if wide_has_suffix(rest, suffix) {
            assert(string.skip(string.len() - suffix.len()) =~= rest.skip(
                rest.len() - suffix.len(),
            ));
        }
        if wide_has_suffix(string, suffix) {
            let from = string.len() - suffix.len();
            if from == 0 {
                assert(string.skip(0) =~= string);
            } else if from < used {
                assert(string.skip(1) =~= seq![string[1]] + rest);
                lemma_low_in_front(string[1], rest);
            } else {
                assert(string.skip(from) =~= rest.skip(from - used));
            }
        }
    }
}

/// The case of `lemma_ends_with` in which the suffix begins inside the
/// first unit of the string.
proof fn lemma_ends_inside_first_unit(string: Seq<u16>, suffix: Seq<u16>)
    requires
        string.len() > 0,
        0 < wide_to_bytes(string).len() - wide_to_bytes(suffix).len() < encode_code_point(
            first_code_point(string),
        ).len(),
    ensures
        wtf8_has_suffix(wide_to_bytes(string), wide_to_bytes(suffix)) == wide_has_suffix(
            string,
            suffix,
        ),
{
    let s = wide_to_bytes(string);
    let p = wide_to_bytes(suffix);
    let index = s.len() - p.len();
    lemma_first_unit(string);
    let used = first_used(string);
    let code_point = first_code_point(string);
    let unit = encode_code_point(code_point);
    let n = unit.len() as int;
    let rest = string.skip(used);
    let r = wide_to_bytes(rest);
    lemma_unit_shape(code_point);
    assert(s == unit + r);
    assert(s[index] == unit[index]);
    assert(is_continuation_byte(s[index]));
    lemma_decode_encoded(code_point, r, false);
    if wide_has_suffix(string, suffix) {
        // The suffix is the second half of the pair and what follows it.
        let from = string.len() - suffix.len();
        lemma_suffix_not_longer(string, suffix);
        if from == 0 {
            assert(string.skip(0) =~= string);
        } else if from >= used {
            assert(string.skip(from) =~= rest.skip(from - used));
            if from > used {
                lemma_tail_is_shorter(rest, from - used);
            } else {
                assert(rest.skip(0) =~= rest);
            }
        } else {
            let low = string[1];
            assert(suffix =~= seq![low] + rest);
            lemma_low_in_front(low, rest);
            let three = encode_code_point(low as u32);
            assert(p.take(3) =~= three);
            assert(p.skip(3) =~= r);
            lemma_decode_encoded(low as u32, Seq::<u8>::empty(), false);
            assert(three + Seq::<u8>::empty() =~= three);
            assert(lone_unit(three) == Some(low));
            assert(s.skip(0) =~= s);
            assert(second_unit(s) == Some(low));
            assert(s.subrange(s.len() - r.len(), s.len() as int) =~= r);
        }
    }
    if wtf8_has_suffix(s, p) {
        let three = p.take(3);
        let found = lone_unit(three)->0;
        if index > 1 {
            // Reading cannot start at a continuation byte.
            let around = s.skip(index - 1);
            assert(around[0] == unit[index - 1]);
            assert(false);
        }
        assert(s.skip(0) =~= s);
        lemma_first_unit(suffix);
        let head = first_code_point(suffix);
        let head_unit = encode_code_point(head);
        let behind = wide_to_bytes(suffix.skip(first_used(suffix)));
        lemma_unit_shape(head);
        lemma_decode_encoded(head, behind, false);
        lemma_encode_decoded(three, false);
        assert(p == head_unit + behind);
        assert(three[0] == p[0]);
        assert(three[1] == p[1]);
        assert(three[2] == p[2]);
        assert(three.take(3) =~= three);
        // The first three bytes of the suffix are its first unit.
        assert(head_unit.len() == 3);
        assert(p.skip(3) =~= behind);
        if code_point < 0x10000 {
            // The suffix would go on inside the second unit of the string.
            lemma_first_unit(rest);
            let next = first_code_point(rest);
            let next_unit = encode_code_point(next);
            let after = wide_to_bytes(rest.skip(first_used(rest)));
            lemma_unit_shape(next);
            lemma_decode_encoded(next, after, is_high_surrogate(string[0]));
            assert(s.skip(n) =~= r);
            assert(r == next_unit + after);
            assert(next_unit.len() >= 3);
            assert(behind.len() == s.len() - 4);
            assert(s.subrange(4, s.len() as int) == behind);
            assert(behind[0] == s[4]);
            assert(s[4] == next_unit[4 - n]);
            if suffix.skip(first_used(suffix)).len() > 0 {
                lemma_first_unit(suffix.skip(first_used(suffix)));
            }
            assert(false);
        }
        // The string begins with a pair, and the suffix with its second half.
        let low = string[1];
        assert(found == low_surrogate_of(code_point));
        assert(low_surrogate_of(code_point) == low);
        assert(head == low as u32);
        assert(!begins_with_pair(suffix));
        assert(suffix[0] == low);
        assert(s.subrange(s.len() - behind.len(), s.len() as int) =~= r);
        lemma_low_in_front(low, rest);
        lemma_same_bytes_same_string(suffix, seq![low] + rest);
        assert(string.skip(1) =~= seq![low] + rest);
    }
}

/// A byte form can be cut wherever a unit begins: the parts are the byte
/// forms of the parts of the string at some place.
pub proof fn lemma_cut_at_lead(wide: Seq<u16>, at: int) -> (place: int)
    requires
        0 <= at <= wide_to_bytes(wide).len(),
        at == wide_to_bytes(wide).len() || !is_continuation_byte(wide_to_bytes(wide)[at]),
    ensures
        0 <= place <= wide.len(),
        wide_to_bytes(wide.take(place)) == wide_to_bytes(wide).take(at),
        wide_to_bytes(wide.skip(place)) == wide_to_bytes(wide).skip(at),
    decreases wide.len(),
{
    let s = wide_to_bytes(wide);
    if at == 0 {
        assert(wide.take(0) =~= Seq::<u16>::empty());
        assert(wide.skip(0) =~= wide);
        assert(s.take(0) =~= wide_to_bytes(wide.take(0)));
        assert(s.skip(0) =~= s);
        0
    } else {
        lemma_first_unit(wide);
        let used = first_used(wide);
        let code_point = first_code_point(wide);
        let unit = encode_code_point(code_point);
        let n = unit.len() as int;
        let rest = wide.skip(used);
        let r = wide_to_bytes(rest);
        lemma_unit_shape(code_point);
        assert(s == unit + r);
        if at < n {
            assert(s[at] == unit[at]);
        }
        if at < s.len() {
            assert(s[at] == r[at - n]);
        }
        let inner = lemma_cut_at_lead(rest, at - n);
        let place = used + inner;
        let front = wide.take(place);
        assert(front[0] == wide[0]);
        if front.len() >= 2 {
            assert(front[1] == wide[1]);
        }
        assert(begins_with_pair(front) == begins_with_pair(wide));
        lemma_first_unit(front);
        assert(front.skip(used) =~= rest.take(inner));
        assert(wide.skip(place) =~= rest.skip(inner));
        assert(unit + r.take(at - n) =~= s.take(at));
        assert(r.skip(at - n) =~= s.skip(at));
        place
    }
}

/// The byte form of a string that begins with a given unit.
proof fn lemma_one_unit(unit: u16)
    ensures
        wide_to_bytes(seq![unit]) == encode_code_point(unit as u32),
{
    let one = seq![unit];
    assert(one.skip(1) =~= Seq::<u16>::empty());
    assert(wide_to_bytes(one.skip(1)) =~= Seq::<u8>::empty());
    assert(one[0] == unit);
    assert(wide_to_bytes(one) =~= encode_code_point(unit as u32) + wide_to_bytes(one.skip(1)));
    assert(encode_code_point(unit as u32) + Seq::<u8>::empty() =~= encode_code_point(unit as u32));
}

/// Comparing the byte forms of two 16-bit strings tells whether the one
/// string starts with the other.
pub proof fn lemma_starts_with(string: Seq<u16>, prefix: Seq<u16>)
    ensures
        wtf8_has_prefix(wide_to_bytes(string), wide_to_bytes(prefix)) == wide_has_prefix(
            string,
            prefix,
        ),
{
    if wide_has_prefix(string, prefix) {
        lemma_prefix_is_found(string, prefix);
    }
    if wtf8_has_prefix(wide_to_bytes(string), wide_to_bytes(prefix)) {
        lemma_found_is_prefix(string, prefix);
    }
}

/// Where the one string starts with the other, the comparison of their
/// byte forms says so.
proof fn lemma_prefix_is_found(string: Seq<u16>, prefix: Seq<u16>)
    requires
        wide_has_prefix(string, prefix),
    ensures
        wtf8_has_prefix(wide_to_bytes(string), wide_to_bytes(prefix)),
{
    let s = wide_to_bytes(string);
    let p = wide_to_bytes(prefix);
    let tail = string.skip(prefix.len() as int);
    assert(string =~= prefix + tail);
    if prefix.len() > 0 && tail.len() > 0 && is_high_surrogate(prefix.last())
        && is_low_surrogate(tail[0]) {
        let high = prefix.last();
        let low = tail[0];
        let front = prefix.drop_last();
        let back = tail.skip(1);
        let pair = seq![high, low] + back;
        assert(prefix =~= front + seq![high]);
        assert(string =~= front + pair);
        lemma_concat(front, seq![high]);
        lemma_concat(front, pair);
        lemma_one_unit(high);
        lemma_first_unit(pair);
        assert(pair.skip(2) =~= back);
        let four = encode_code_point(join_surrogates(high, low));
        let three = encode_code_point(high as u32);
        let f = wide_to_bytes(front);
        lemma_unit_shape(join_surrogates(high, low));
        lemma_unit_shape(high as u32);
        assert(p == f + three);
        assert(s == f + (four + wide_to_bytes(back)));
        let index = p.len() - 3;
        assert(s[p.len() as int] == four[3]);
        assert(p.skip(index) =~= three);
        assert(p.take(index) =~= f);
        assert(s.skip(index) =~= four + wide_to_bytes(back));
        lemma_decode_encoded(high as u32, Seq::<u8>::empty(), false);
        assert(three + Seq::<u8>::empty() =~= three);
        lemma_decode_encoded(join_surrogates(high, low), wide_to_bytes(back), false);
        assert(s.subrange(0, index) =~= f);
    } else {
        lemma_concat(prefix, tail);
        assert(s == p + wide_to_bytes(tail));
        assert(s.subrange(0, p.len() as int) =~= p);
        if tail.len() > 0 {
            lemma_first_unit(tail);
            assert(s[p.len() as int] == wide_to_bytes(tail)[0]);
        }
    }
}

/// Where the comparison of byte forms says that the one string starts
/// with the other, it does.
proof fn lemma_found_is_prefix(string: Seq<u16>, prefix: Seq<u16>)
    requires
        wtf8_has_prefix(wide_to_bytes(string), wide_to_bytes(prefix)),
    ensures
        wide_has_prefix(string, prefix),
{
    let s = wide_to_bytes(string);
    let p = wide_to_bytes(prefix);
    if p.len() < s.len() && is_continuation_byte(s[p.len() as int]) {
        let index = p.len() - 3;
        let three = p.skip(index);
        let found = lone_unit(three)->0;
        // The prefix ends with a unit of three bytes.
        lemma_encode_decoded(three, false);
        assert(three.take(3) =~= three);
        assert(three[0] == p[index]);
        let cut = lemma_cut_at_lead(prefix, index);
        let front = prefix.take(cut);
        lemma_one_unit(found);
        lemma_same_bytes_same_string(prefix.skip(cut), seq![found]);
        assert(prefix =~= front + seq![found]);
        // The string goes on with a unit of four bytes at that place.
        assert(s.subrange(0, index) =~= s.take(index));
        let around = s.skip(index);
        assert(around[0] == s[index]);
        let place = lemma_cut_at_lead(string, index);
        lemma_same_bytes_same_string(string.take(place), front);
        let tail = string.skip(place);
        lemma_first_unit(tail);
        let code_point = first_code_point(tail);
        let unit = encode_code_point(code_point);
        lemma_unit_shape(code_point);
        lemma_decode_encoded(code_point, wide_to_bytes(tail.skip(first_used(tail))), false);
        assert(around[3] == s[p.len() as int]);
        if unit.len() <= 3 {
            let behind = tail.skip(first_used(tail));
            assert(around.skip(unit.len() as int) =~= wide_to_bytes(behind));
            if unit.len() == 3 {
                lemma_first_unit(behind);
                assert(around[3] == wide_to_bytes(behind)[0]);
            }
            assert(false);
        }
        assert(tail[0] == found);
        assert(string.take(place + 1) =~= string.take(place) + seq![tail[0]]);
        assert(string.take(prefix.len() as int) =~= prefix);
    } else {
        assert(s.subrange(0, p.len() as int) =~= s.take(p.len() as int));
        let place = lemma_cut_at_lead(string, p.len() as int);
        lemma_same_bytes_same_string(string.take(place), prefix);
    }
}

} // verus!
