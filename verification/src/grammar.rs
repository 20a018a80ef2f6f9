//! The grammar, as mathematical functions from a byte sequence and a position
//! to an outcome.
//!
//! ```text
//! value      := integer | string | list | dictionary
//! integer    := 'i' '-'? digit+ 'e'
//! string     := digit+ ':' <as many bytes as the digits say>
//! list       := 'l' value* 'e'
//! dictionary := 'd' (string value)* 'e'
//! ```

use vstd::prelude::*;
use vstd::utf8::valid_utf8;
use crate::dict::{dict_insert, lemma_insert_sorted, lemma_insert_values_wf};
use crate::value::{entries_sorted, value_wf, Value};

verus! {

/// Why a reader gave no value.
#[derive(Debug, PartialEq, Eq, Clone, Copy)]
pub enum ParseError {
    /// A marker or separator byte is not the one the grammar asks for here.
    Malformed,
    /// The bytes of a string are not valid UTF-8.
    InvalidEncoding,
    /// A run of digits stands for a number too large for its target type.
    NumericOverflow,
    /// The input ends where the grammar asks for more bytes.
    Incomplete,
}

/// What a reader makes of the input from some position on: a value and the
/// position just behind what was consumed, or the reason for failure.
pub enum Outcome<T> {
    Done(T, int),
    Fail(ParseError),
}

/// Opens an integer.
pub const INT_START: u8 = 0x69;

/// Opens a list.
pub const LIST_START: u8 = 0x6c;

/// Opens a dictionary.
pub const DICT_START: u8 = 0x64;

/// Closes an integer, a list or a dictionary.
pub const END: u8 = 0x65;

/// The sign of a negative integer.
pub const MINUS: u8 = 0x2d;

/// Stands between the length of a string and its bytes.
pub const COLON: u8 = 0x3a;

/// The ten digits `'0'` to `'9'`.
pub open spec fn is_digit(b: u8) -> bool {
    0x30 <= b <= 0x39
}

/// The end of the longest run of digits that starts at `pos`.
pub open spec fn digits_end(s: Seq<u8>, pos: int) -> int
    decreases s.len() - pos,
{
    if 0 <= pos < s.len() && is_digit(s[pos]) {
        digits_end(s, pos + 1)
    } else {
        pos
    }
}

/// The number that the digits `s[lo..hi]` write in base ten.
pub open spec fn decimal_value(s: Seq<u8>, lo: int, hi: int) -> int
    decreases hi - lo,
{
    if hi <= lo {
        0
    } else {
        10 * decimal_value(s, lo, hi - 1) + (s[hi - 1] - 0x30)
    }
}

/// One or more digits, read as a number no larger than `max`.
pub open spec fn spec_digits(s: Seq<u8>, pos: int, max: int) -> Outcome<int> {
    if pos < 0 || pos >= s.len() {
        Outcome::Fail(ParseError::Incomplete)
    } else if !is_digit(s[pos]) {
        Outcome::Fail(ParseError::Malformed)
    } else if decimal_value(s, pos, digits_end(s, pos)) > max {
        Outcome::Fail(ParseError::NumericOverflow)
    } else {
        Outcome::Done(decimal_value(s, pos, digits_end(s, pos)), digits_end(s, pos))
    }
}

/// The marker `m` at `pos`: nothing if it is there, else the failure.
pub open spec fn spec_marker(s: Seq<u8>, pos: int, m: u8) -> Option<ParseError> {
    if pos < 0 || pos >= s.len() {
        Some(ParseError::Incomplete)
    } else if s[pos] != m {
        Some(ParseError::Malformed)
    } else {
        None
    }
}

/// `'i' '-'? digit+ 'e'`: the digits as a 64-bit magnitude, negated after a sign.
pub open spec fn spec_num(s: Seq<u8>, pos: int) -> Outcome<int> {
    if let Some(e) = spec_marker(s, pos, INT_START) {
        Outcome::Fail(e)
    } else {
        let neg = spec_marker(s, pos + 1, MINUS) is None;
        let start: int = if neg { pos + 2 } else { pos + 1 };
        match spec_digits(s, start, i64::MAX as int) {
            Outcome::Fail(e) => Outcome::Fail(e),
            Outcome::Done(n, end) => {
                if let Some(e) = spec_marker(s, end, END) {
                    Outcome::Fail(e)
                } else {
                    Outcome::Done(if neg { -n } else { n }, end + 1)
                }
            },
        }
    }
}

/// `digit+ ':' bytes`: as many bytes as the digits say, which must be UTF-8.
pub open spec fn spec_string(s: Seq<u8>, pos: int) -> Outcome<Seq<u8>> {
    match spec_digits(s, pos, usize::MAX as int) {
        Outcome::Fail(e) => Outcome::Fail(e),
        Outcome::Done(n, end) => {
            if let Some(e) = spec_marker(s, end, COLON) {
                Outcome::Fail(e)
            } else if s.len() - (end + 1) < n {
                Outcome::Fail(ParseError::Incomplete)
            } else if !valid_utf8(s.subrange(end + 1, end + 1 + n)) {
                Outcome::Fail(ParseError::InvalidEncoding)
            } else {
                Outcome::Done(s.subrange(end + 1, end + 1 + n), end + 1 + n)
            }
        },
    }
}

/// One value: the first byte picks the alternative.
pub open spec fn spec_value(s: Seq<u8>, pos: int) -> Outcome<Value>
    decreases s.len() - pos, 2int,
{
    if pos < 0 || pos >= s.len() {
        Outcome::Fail(ParseError::Incomplete)
    } else if s[pos] == INT_START {
        match spec_num(s, pos) {
            Outcome::Done(n, next) => Outcome::Done(Value::Int(n), next),
            Outcome::Fail(e) => Outcome::Fail(e),
        }
    } else if is_digit(s[pos]) {
        match spec_string(s, pos) {
            Outcome::Done(b, next) => Outcome::Done(Value::Str(b), next),
            Outcome::Fail(e) => Outcome::Fail(e),
        }
    } else if s[pos] == LIST_START {
        match spec_list(s, pos) {
            Outcome::Done(items, next) => Outcome::Done(Value::List(items), next),
            Outcome::Fail(e) => Outcome::Fail(e),
        }
    } else if s[pos] == DICT_START {
        match spec_dict(s, pos) {
            Outcome::Done(entries, next) => Outcome::Done(Value::Dict(entries), next),
            Outcome::Fail(e) => Outcome::Fail(e),
        }
    } else {
        Outcome::Fail(ParseError::Malformed)
    }
}

/// `'l' value* 'e'`.
pub open spec fn spec_list(s: Seq<u8>, pos: int) -> Outcome<Seq<Value>>
    decreases s.len() - pos, 1int,
{
    if let Some(e) = spec_marker(s, pos, LIST_START) {
        Outcome::Fail(e)
    } else {
        spec_items(s, pos + 1, Seq::empty())
    }
}

/// The rest of a list behind the items `acc`: values for as long as one
/// can be read, then the closing `'e'`. Where no value can be read and no
/// `'e'` stands, the failure is that of the value.
pub open spec fn spec_items(s: Seq<u8>, pos: int, acc: Seq<Value>) -> Outcome<Seq<Value>>
    decreases s.len() - pos, 3int,
{
    match spec_value(s, pos) {
        Outcome::Done(v, next) => {
            if pos < next <= s.len() {
                spec_items(s, next, acc.push(v))
            } else {
                Outcome::Fail(ParseError::Malformed)
            }
        },
        Outcome::Fail(e) => {
            if spec_marker(s, pos, END) is None {
                Outcome::Done(acc, pos + 1)
            } else {
                Outcome::Fail(e)
            }
        },
    }
}

/// `'d' (string value)* 'e'`.
pub open spec fn spec_dict(s: Seq<u8>, pos: int) -> Outcome<Seq<(Seq<u8>, Value)>>
    decreases s.len() - pos, 1int,
{
    if let Some(e) = spec_marker(s, pos, DICT_START) {
        Outcome::Fail(e)
    } else {
        spec_pairs(s, pos + 1, Seq::empty())
    }
}

/// A key and its value.
pub open spec fn spec_pair(s: Seq<u8>, pos: int) -> Outcome<(Seq<u8>, Value)>
    decreases s.len() - pos, 3int,
{
    match spec_string(s, pos) {
        Outcome::Fail(e) => Outcome::Fail(e),
        Outcome::Done(key, mid) => {
            if pos < mid {
                match spec_value(s, mid) {
                    Outcome::Fail(e) => Outcome::Fail(e),
                    Outcome::Done(v, next) => Outcome::Done((key, v), next),
                }
            } else {
                Outcome::Fail(ParseError::Malformed)
            }
        },
    }
}

/// The rest of a dictionary behind the entries `acc`: pairs for as long as
/// one can be read, each put into the entries at its key's place (a later
/// pair replaces an earlier one with the same key), then the closing `'e'`.
pub open spec fn spec_pairs(s: Seq<u8>, pos: int, acc: Seq<(Seq<u8>, Value)>) -> Outcome<
    Seq<(Seq<u8>, Value)>,
>
    decreases s.len() - pos, 4int,
{
    match spec_pair(s, pos) {
        Outcome::Done(kv, next) => {
            if pos < next <= s.len() {
                spec_pairs(s, next, dict_insert(acc, kv.0, kv.1))
            } else {
                Outcome::Fail(ParseError::Malformed)
            }
        },
        Outcome::Fail(e) => {
            if spec_marker(s, pos, END) is None {
                Outcome::Done(acc, pos + 1)
            } else {
                Outcome::Fail(e)
            }
        },
    }
}

/// The whole decoder: the value at the front of `s`, whatever follows it.
pub open spec fn spec_decode(s: Seq<u8>) -> Option<Value> {
    match spec_value(s, 0) {
        Outcome::Done(v, _) => Some(v),
        Outcome::Fail(_) => None,
    }
}

/// A string that is read ends behind its start and inside the input.
pub proof fn lemma_string_advances(s: Seq<u8>, pos: int)
    ensures
        spec_string(s, pos) is Done ==> pos < spec_string(s, pos)->Done_1 <= s.len(),
{
    if spec_string(s, pos) is Done {
        lemma_digits_end_bounds(s, pos);
        lemma_decimal_nonnegative(s, pos, digits_end(s, pos));
    }
}

/// A value that is read ends behind its start and inside the input: every
/// reader consumes at least one byte, and none reads past the end.
pub proof fn lemma_value_advances(s: Seq<u8>, pos: int)
    ensures
        spec_value(s, pos) is Done ==> pos < spec_value(s, pos)->Done_1 <= s.len(),
    decreases s.len() - pos, 2int,
{
    if 0 <= pos < s.len() {
        if s[pos] == INT_START {
            if spec_num(s, pos) is Done {
                let start: int = if spec_marker(s, pos + 1, MINUS) is None { pos + 2 } else { pos + 1 };
                lemma_digits_end_bounds(s, start);
            }
        } else if is_digit(s[pos]) {
            lemma_string_advances(s, pos);
        } else if s[pos] == LIST_START {
            lemma_items_advance(s, pos + 1, Seq::empty());
        } else if s[pos] == DICT_START {
            lemma_pairs_advance(s, pos + 1, Seq::empty());
        }
    }
}

/// The items of a list end behind their start and inside the input.
pub proof fn lemma_items_advance(s: Seq<u8>, pos: int, acc: Seq<Value>)
    ensures
        spec_items(s, pos, acc) is Done ==> pos < spec_items(s, pos, acc)->Done_1 <= s.len(),
    decreases s.len() - pos, 3int,
{
    if let Outcome::Done(v, next) = spec_value(s, pos) {
        if pos < next <= s.len() {
            lemma_items_advance(s, next, acc.push(v));
        }
    }
}

/// The pairs of a dictionary end behind their start and inside the input.
pub proof fn lemma_pairs_advance(s: Seq<u8>, pos: int, acc: Seq<(Seq<u8>, Value)>)
    ensures
        spec_pairs(s, pos, acc) is Done ==> pos < spec_pairs(s, pos, acc)->Done_1 <= s.len(),
    decreases s.len() - pos, 4int,
{
    if let Outcome::Done(kv, next) = spec_pair(s, pos) {
        if pos < next <= s.len() {
            lemma_pairs_advance(s, next, dict_insert(acc, kv.0, kv.1));
        }
    }
}

/// Whatever the input, a value that is read is well-formed: each of its
/// dictionaries, at any depth, has its entries in strict key order.
pub proof fn lemma_value_wf(s: Seq<u8>, pos: int)
    ensures
        spec_value(s, pos) is Done ==> value_wf(spec_value(s, pos)->Done_0),
    decreases s.len() - pos, 2int,
{
    if 0 <= pos < s.len() {
        if s[pos] == LIST_START {
            lemma_items_wf(s, pos + 1, Seq::empty());
        } else if s[pos] == DICT_START {
            lemma_pairs_wf(s, pos + 1, Seq::empty());
        }
    }
}

/// Items read behind well-formed items are well-formed.
pub proof fn lemma_items_wf(s: Seq<u8>, pos: int, acc: Seq<Value>)
    requires
        forall|i: int| 0 <= i < acc.len() ==> value_wf(#[trigger] acc[i]),
    ensures
        spec_items(s, pos, acc) is Done ==> forall|i: int|
            0 <= i < spec_items(s, pos, acc)->Done_0.len() ==> value_wf(
                #[trigger] spec_items(s, pos, acc)->Done_0[i],
            ),
    decreases s.len() - pos, 3int,
{
    lemma_value_wf(s, pos);
    if let Outcome::Done(v, next) = spec_value(s, pos) {
        if pos < next <= s.len() {
            lemma_items_wf(s, next, acc.push(v));
        }
    }
}

/// Pairs read behind well-formed entries in key order leave the entries
/// well-formed and in key order.
pub proof fn lemma_pairs_wf(s: Seq<u8>, pos: int, acc: Seq<(Seq<u8>, Value)>)
    requires
        entries_sorted(acc),
        forall|i: int| 0 <= i < acc.len() ==> value_wf((#[trigger] acc[i]).1),
    ensures
        spec_pairs(s, pos, acc) is Done ==> entries_sorted(spec_pairs(s, pos, acc)->Done_0),
        spec_pairs(s, pos, acc) is Done ==> forall|i: int|
            0 <= i < spec_pairs(s, pos, acc)->Done_0.len() ==> value_wf(
                (#[trigger] spec_pairs(s, pos, acc)->Done_0[i]).1,
            ),
    decreases s.len() - pos, 4int,
{
    if let Outcome::Done(kv, next) = spec_pair(s, pos) {
        if pos < next <= s.len() {
            let mid: int = spec_string(s, pos)->Done_1;
            lemma_value_wf(s, mid);
            lemma_insert_sorted(acc, kv.0, kv.1);
            lemma_insert_values_wf(acc, kv.0, kv.1);
            lemma_pairs_wf(s, next, dict_insert(acc, kv.0, kv.1));
        }
    }
}

/// A run of digits ends inside the input, holds digits only, and no digit
/// follows it.
pub proof fn lemma_digits_end_bounds(s: Seq<u8>, pos: int)
    requires
        0 <= pos <= s.len(),
    ensures
        pos <= digits_end(s, pos) <= s.len(),
        forall|i: int| pos <= i < digits_end(s, pos) ==> is_digit(#[trigger] s[i]),
        digits_end(s, pos) < s.len() ==> !is_digit(s[digits_end(s, pos)]),
    decreases s.len() - pos,
{
    if pos < s.len() && is_digit(s[pos]) {
        lemma_digits_end_bounds(s, pos + 1);
    }
}

/// A longer run of digits writes no smaller a number than its beginning.
pub proof fn lemma_decimal_monotone(s: Seq<u8>, lo: int, mid: int, hi: int)
    requires
        0 <= lo <= mid <= hi <= s.len(),
        forall|i: int| lo <= i < hi ==> is_digit(#[trigger] s[i]),
    ensures
        0 <= decimal_value(s, lo, mid) <= decimal_value(s, lo, hi),
    decreases hi - mid,
{
    if mid < hi {
        lemma_decimal_monotone(s, lo, mid, hi - 1);
    } else {
        lemma_decimal_nonnegative(s, lo, mid);
    }
}

/// A run of digits writes a number that is not negative.
pub proof fn lemma_decimal_nonnegative(s: Seq<u8>, lo: int, hi: int)
    requires
        0 <= lo <= hi <= s.len(),
        forall|i: int| lo <= i < hi ==> is_digit(#[trigger] s[i]),
    ensures
        0 <= decimal_value(s, lo, hi),
    decreases hi - lo,
{
    if lo < hi {
        lemma_decimal_nonnegative(s, lo, hi - 1);
    }
}

} // verus!
