//! Bytes behind a value play no part in what is read.

use vstd::prelude::*;
use crate::dict::dict_insert;
use crate::grammar::{
    decimal_value, digits_end, is_digit, lemma_decimal_nonnegative, lemma_digits_end_bounds,
    spec_decode, spec_digits, spec_items, spec_marker, spec_num, spec_pair, spec_pairs,
    spec_string, spec_value, Outcome, COLON, DICT_START, END, INT_START, LIST_START, MINUS,
};
use crate::value::Value;

verus! {

/// A run of digits that ends before the end of the input ends at the same
/// place when bytes are appended.
pub proof fn lemma_digits_end_extend(s: Seq<u8>, rest: Seq<u8>, pos: int)
    requires
        0 <= pos,
        digits_end(s, pos) < s.len(),
    ensures
        digits_end(s + rest, pos) == digits_end(s, pos),
    decreases s.len() - pos,
{
    if pos < s.len() && is_digit(s[pos]) {
        assert((s + rest)[pos] == s[pos]);
        lemma_digits_end_extend(s, rest, pos + 1);
    } else {
        assert((s + rest)[pos] == s[pos]);
    }
}

/// Digits inside the input write the same number when bytes are appended.
pub proof fn lemma_decimal_value_extend(s: Seq<u8>, rest: Seq<u8>, lo: int, hi: int)
    requires
        0 <= lo,
        hi <= s.len(),
    ensures
        decimal_value(s + rest, lo, hi) == decimal_value(s, lo, hi),
    decreases hi - lo,
{
    if lo < hi {
        lemma_decimal_value_extend(s, rest, lo, hi - 1);
        assert((s + rest)[hi - 1] == s[hi - 1]);
    }
}

/// Digits that are read, and end before the end of the input, are read
/// alike when bytes are appended.
pub proof fn lemma_digits_extend(s: Seq<u8>, rest: Seq<u8>, pos: int, max: int)
    requires
        spec_digits(s, pos, max) is Done,
        digits_end(s, pos) < s.len(),
    ensures
        spec_digits(s + rest, pos, max) == spec_digits(s, pos, max),
{
    assert((s + rest)[pos] == s[pos]);
    lemma_digits_end_extend(s, rest, pos);
    lemma_decimal_value_extend(s, rest, pos, digits_end(s, pos));
}

/// An integer that is read is read alike when bytes are appended.
pub proof fn lemma_num_extend(s: Seq<u8>, rest: Seq<u8>, pos: int)
    requires
        spec_num(s, pos) is Done,
    ensures
        spec_num(s + rest, pos) == spec_num(s, pos),
{
    let t = s + rest;
    let neg = spec_marker(s, pos + 1, MINUS) is None;
    let start: int = if neg { pos + 2 } else { pos + 1 };
    assert(t[pos] == s[pos]);
    lemma_digits_end_bounds(s, start);
    assert(t[pos + 1] == s[pos + 1]);
    let end: int = digits_end(s, start);
    assert(spec_marker(s, end, END) is None);
    lemma_digits_extend(s, rest, start, i64::MAX as int);
    assert(t[end] == s[end]);
}

/// A string that is read is read alike when bytes are appended.
pub proof fn lemma_string_extend(s: Seq<u8>, rest: Seq<u8>, pos: int)
    requires
        spec_string(s, pos) is Done,
    ensures
        spec_string(s + rest, pos) == spec_string(s, pos),
{
    let t = s + rest;
    let end: int = digits_end(s, pos);
    let n: int = decimal_value(s, pos, end);
    lemma_digits_end_bounds(s, pos);
    lemma_decimal_nonnegative(s, pos, end);
    assert(spec_marker(s, end, COLON) is None);
    lemma_digits_extend(s, rest, pos, usize::MAX as int);
    assert(t[end] == s[end]);
    assert(t.subrange(end + 1, end + 1 + n) =~= s.subrange(end + 1, end + 1 + n));
}

/// A value that is read is read alike when bytes are appended: what stands
/// behind a value plays no part in it.
pub proof fn lemma_value_extend(s: Seq<u8>, rest: Seq<u8>, pos: int)
    requires
        spec_value(s, pos) is Done,
    ensures
        spec_value(s + rest, pos) == spec_value(s, pos),
    decreases s.len() - pos, 2int,
{
    let t = s + rest;
    assert(t[pos] == s[pos]);
    if s[pos] == INT_START {
        lemma_num_extend(s, rest, pos);
    } else if is_digit(s[pos]) {
        lemma_string_extend(s, rest, pos);
    } else if s[pos] == LIST_START {
        lemma_items_extend(s, rest, pos + 1, Seq::empty());
    } else if s[pos] == DICT_START {
        lemma_pairs_extend(s, rest, pos + 1, Seq::empty());
    }
}

/// The items of a list that is read are read alike when bytes are appended.
pub proof fn lemma_items_extend(s: Seq<u8>, rest: Seq<u8>, pos: int, acc: Seq<Value>)
    requires
        spec_items(s, pos, acc) is Done,
    ensures
        spec_items(s + rest, pos, acc) == spec_items(s, pos, acc),
    decreases s.len() - pos, 3int,
{
    let t = s + rest;
    match spec_value(s, pos) {
        Outcome::Done(v, next) => {
            lemma_value_extend(s, rest, pos);
            lemma_items_extend(s, rest, next, acc.push(v));
            assert(spec_items(s, pos, acc) == spec_items(s, next, acc.push(v)));
            assert(spec_items(t, pos, acc) == spec_items(t, next, acc.push(v)));
        },
        Outcome::Fail(_) => {
            assert(spec_marker(s, pos, END) is None);
            assert(t[pos] == s[pos]);
            assert(spec_value(t, pos) is Fail);
        },
    }
}

/// The pairs of a dictionary that is read are read alike when bytes are
/// appended.
pub proof fn lemma_pairs_extend(s: Seq<u8>, rest: Seq<u8>, pos: int, acc: Seq<(Seq<u8>, Value)>)
    requires
        spec_pairs(s, pos, acc) is Done,
    ensures
        spec_pairs(s + rest, pos, acc) == spec_pairs(s, pos, acc),
    decreases s.len() - pos, 4int,
{
    let t = s + rest;
    match spec_pair(s, pos) {
        Outcome::Done(kv, next) => {
            let mid: int = spec_string(s, pos)->Done_1;
            lemma_string_extend(s, rest, pos);
            lemma_value_extend(s, rest, mid);
            lemma_pairs_extend(s, rest, next, dict_insert(acc, kv.0, kv.1));
            assert(spec_pair(t, pos) == spec_pair(s, pos));
            assert(spec_pairs(s, pos, acc) == spec_pairs(s, next, dict_insert(acc, kv.0, kv.1)));
            assert(spec_pairs(t, pos, acc) == spec_pairs(t, next, dict_insert(acc, kv.0, kv.1)));
        },
        Outcome::Fail(_) => {
            assert(spec_marker(s, pos, END) is None);
            assert(t[pos] == s[pos]);
            assert(spec_string(t, pos) is Fail);
            assert(spec_pair(t, pos) is Fail);
        },
    }
}

/// Decoding ignores whatever follows the first value: appending bytes to an
/// input that decodes leaves the decoded value as it was.
pub proof fn lemma_decode_ignores_trailing(s: Seq<u8>, rest: Seq<u8>)
    requires
        spec_decode(s) is Some,
    ensures
        spec_decode(s + rest) == spec_decode(s),
{
    lemma_value_extend(s, rest, 0);
}

} // verus!
