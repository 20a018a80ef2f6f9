//! The readers: one executable function for each rule of the grammar, each
//! returning exactly what the grammar's function says.

use vstd::prelude::*;
use vstd::slice::{slice_subrange, slice_to_vec};
use vstd::utf8::{decode_utf8, decode_utf8_encode_utf8, encode_utf8, valid_utf8};
use crate::dict::insert_entry;
use crate::grammar::{
    decimal_value, digits_end, is_digit, lemma_decimal_monotone, lemma_digits_end_bounds,
    lemma_pairs_wf, lemma_value_wf, spec_decode, spec_dict, spec_digits, spec_items, spec_list,
    spec_marker, spec_num, spec_pair, spec_pairs, spec_string, spec_value, Outcome, ParseError,
    COLON, DICT_START, END, INT_START, LIST_START, MINUS,
};
use crate::value::{
    entries_model, entries_sorted, lemma_dict_view, lemma_list_view, list_model, BVal, Value,
};

verus! {

/// Calls `String::from_utf8` of std.
///
/// The contract is believed, not proved. It claims that the call gives a
/// string exactly where `bytes` are valid UTF-8, and that the string is then
/// the text that the bytes encode.
#[verifier::external_body]
fn string_from_utf8(bytes: Vec<u8>) -> (r: Option<String>)
    ensures
        r is Some <==> valid_utf8(bytes@),
        r is Some ==> r->0@ == decode_utf8(bytes@),
{
    match String::from_utf8(bytes) {
        Ok(s) => Some(s),
        Err(_) => None,
    }
}

/// What a reader of digits returned, as an outcome of the grammar.
pub open spec fn digits_outcome(r: Result<(u64, usize), ParseError>) -> Outcome<int> {
    match r {
        Ok((n, next)) => Outcome::Done(n as int, next as int),
        Err(e) => Outcome::Fail(e),
    }
}

/// What a reader of integers returned, as an outcome of the grammar.
pub open spec fn num_outcome(r: Result<(i64, usize), ParseError>) -> Outcome<int> {
    match r {
        Ok((n, next)) => Outcome::Done(n as int, next as int),
        Err(e) => Outcome::Fail(e),
    }
}

/// What a reader of strings returned, as an outcome of the grammar: the
/// text stands for its UTF-8 bytes.
pub open spec fn string_outcome(r: Result<(String, usize), ParseError>) -> Outcome<Seq<u8>> {
    match r {
        Ok((text, next)) => Outcome::Done(encode_utf8(text@), next as int),
        Err(e) => Outcome::Fail(e),
    }
}

/// What a reader of lists returned, as an outcome of the grammar.
pub open spec fn list_outcome(r: Result<(Vec<BVal>, usize), ParseError>) -> Outcome<Seq<Value>> {
    match r {
        Ok((items, next)) => Outcome::Done(list_model(items@), next as int),
        Err(e) => Outcome::Fail(e),
    }
}

/// What a reader of dictionaries returned, as an outcome of the grammar.
pub open spec fn dict_outcome(r: Result<(Vec<(String, BVal)>, usize), ParseError>) -> Outcome<
    Seq<(Seq<u8>, Value)>,
> {
    match r {
        Ok((entries, next)) => Outcome::Done(entries_model(entries@), next as int),
        Err(e) => Outcome::Fail(e),
    }
}

/// What a reader of values returned, as an outcome of the grammar.
pub open spec fn value_outcome(r: Result<(BVal, usize), ParseError>) -> Outcome<Value> {
    match r {
        Ok((v, next)) => Outcome::Done(v@, next as int),
        Err(e) => Outcome::Fail(e),
    }
}

/// Whether `b` is one of the ten digits.
fn is_digit_byte(b: u8) -> (r: bool)
    ensures
        r == is_digit(b),
{
    0x30 <= b && b <= 0x39
}

/// Looks for the marker `m` at `pos`.
fn marker(input: &[u8], pos: usize, m: u8) -> (r: Option<ParseError>)
    ensures
        r == spec_marker(input@, pos as int, m),
{
    if pos >= input.len() {
        Some(ParseError::Incomplete)
    } else if input[pos] != m {
        Some(ParseError::Malformed)
    } else {
        None
    }
}

/// Reads one or more digits at `pos` as a number no larger than `max`.
///
/// Returns the number and the position behind the last digit. Fails with
/// `Incomplete` at the end of the input, with `Malformed` where no digit
/// stands, and with `NumericOverflow` where the digits write more than `max`.
pub fn digits(input: &[u8], pos: usize, max: u64) -> (r: Result<(u64, usize), ParseError>)
    ensures
        digits_outcome(r) == spec_digits(input@, pos as int, max as int),
        r is Ok ==> pos < r->Ok_0.1 <= input.len(),
{
    if pos >= input.len() {
        return Err(ParseError::Incomplete);
    }
    if !is_digit_byte(input[pos]) {
        return Err(ParseError::Malformed);
    }
    let mut i: usize = pos;
    let mut acc: u64 = 0;
    proof {
        lemma_digits_end_bounds(input@, pos as int);
    }
    while i < input.len() && is_digit_byte(input[i])
        invariant
            pos <= i <= input.len(),
            i <= digits_end(input@, pos as int) <= input.len(),
            digits_end(input@, pos as int) == digits_end(input@, i as int),
            forall|j: int| pos <= j < digits_end(input@, pos as int) ==> is_digit(#[trigger] input@[j]),
            acc == decimal_value(input@, pos as int, i as int),
            acc <= max,
        decreases input.len() - i,
    {
        let d: u64 = (input[i] - 0x30) as u64;
        proof {
            lemma_digits_end_bounds(input@, i as int + 1);
            lemma_decimal_monotone(
                input@,
                pos as int,
                i as int + 1,
                digits_end(input@, pos as int),
            );
        }
        if max < d || acc > (max - d) / 10 {
            return Err(ParseError::NumericOverflow);
        }
        acc = acc * 10 + d;
        i += 1;
    }
    Ok((acc, i))
}

/// Reads an integer at `pos`: `'i'`, an optional `'-'`, digits, `'e'`.
///
/// The digits are read as a magnitude of at most `i64::MAX`, then negated
/// after a sign. Leading zeros and `-0` are accepted.
pub fn num(input: &[u8], pos: usize) -> (r: Result<(i64, usize), ParseError>)
    ensures
        num_outcome(r) == spec_num(input@, pos as int),
        r is Ok ==> pos < r->Ok_0.1 <= input.len(),
{
    if let Some(e) = marker(input, pos, INT_START) {
        return Err(e);
    }
    assert(pos < input.len());
    let neg = marker(input, pos + 1, MINUS).is_none();
    let start: usize = if neg { pos + 2 } else { pos + 1 };
    match digits(input, start, 0x7fff_ffff_ffff_ffff) {
        Err(e) => Err(e),
        Ok((n, end)) => {
            if let Some(e) = marker(input, end, END) {
                return Err(e);
            }
            let m: i64 = n as i64;
            Ok((if neg { -m } else { m }, end + 1))
        },
    }
}

/// Reads a string at `pos`: digits, `':'`, then as many bytes as the digits
/// say, which must be valid UTF-8.
///
/// Fails with `Incomplete` where fewer bytes are left than the length asks
/// for, and with `InvalidEncoding` where the bytes are not UTF-8.
pub fn string(input: &[u8], pos: usize) -> (r: Result<(String, usize), ParseError>)
    ensures
        string_outcome(r) == spec_string(input@, pos as int),
        r is Ok ==> pos < r->Ok_0.1 <= input.len(),
{
    match digits(input, pos, usize::MAX as u64) {
        Err(e) => Err(e),
        Ok((n, end)) => {
            if let Some(e) = marker(input, end, COLON) {
                return Err(e);
            }
            let len: usize = n as usize;
            let start: usize = end + 1;
            if input.len() - start < len {
                return Err(ParseError::Incomplete);
            }
            let payload = slice_to_vec(slice_subrange(input, start, start + len));
            let ghost bytes = payload@;
            match string_from_utf8(payload) {
                None => Err(ParseError::InvalidEncoding),
                Some(text) => {
                    proof {
                        decode_utf8_encode_utf8(bytes);
                    }
                    Ok((text, start + len))
                },
            }
        },
    }
}

/// Reads a list at `pos`: `'l'`, values for as long as one can be read, `'e'`.
///
/// Where neither a value nor the closing `'e'` can be read, the failure is
/// that of the value.
pub fn list(input: &[u8], pos: usize) -> (r: Result<(Vec<BVal>, usize), ParseError>)
    ensures
        list_outcome(r) == spec_list(input@, pos as int),
        r is Ok ==> pos < r->Ok_0.1 <= input.len(),
    decreases input.len() - pos, 0int,
{
    if let Some(e) = marker(input, pos, LIST_START) {
        return Err(e);
    }
    let mut items: Vec<BVal> = Vec::new();
    let mut p: usize = pos + 1;
    assert(list_model(items@) =~= Seq::<Value>::empty());
    loop
        invariant
            pos < p <= input.len(),
            spec_list(input@, pos as int) == spec_items(input@, p as int, list_model(items@)),
        decreases input.len() - p,
    {
        match bval(input, p) {
            Ok((v, next)) => {
                assert(list_model(items@.push(v)) =~= list_model(items@).push(v@));
                items.push(v);
                p = next;
            },
            Err(e) => {
                if marker(input, p, END).is_none() {
                    return Ok((items, p + 1));
                }
                return Err(e);
            },
        }
    }
}

/// Reads a dictionary at `pos`: `'d'`, pairs of a string and a value for as
/// long as one can be read, `'e'`.
///
/// The entries come out in key order; of two pairs with one key the later
/// stays. Where neither a pair nor the closing `'e'` can be read, the failure
/// is that of the pair.
pub fn dict(input: &[u8], pos: usize) -> (r: Result<(Vec<(String, BVal)>, usize), ParseError>)
    ensures
        dict_outcome(r) == spec_dict(input@, pos as int),
        r is Ok ==> pos < r->Ok_0.1 <= input.len(),
        r is Ok ==> entries_sorted(entries_model(r->Ok_0.0@)),
    decreases input.len() - pos, 0int,
{
    if let Some(e) = marker(input, pos, DICT_START) {
        return Err(e);
    }
    let mut entries: Vec<(String, BVal)> = Vec::new();
    let mut p: usize = pos + 1;
    assert(entries_model(entries@) =~= Seq::<(Seq<u8>, Value)>::empty());
    loop
        invariant
            pos < p <= input.len(),
            spec_dict(input@, pos as int) == spec_pairs(input@, p as int, entries_model(entries@)),
        decreases input.len() - p,
    {
        let key = match string(input, p) {
            Ok(found) => found,
            Err(e) => {
                assert(spec_pair(input@, p as int) == Outcome::<(Seq<u8>, Value)>::Fail(e));
                if marker(input, p, END).is_none() {
                    proof {
                        lemma_pairs_wf(input@, pos as int + 1, Seq::empty());
                    }
                    return Ok((entries, p + 1));
                }
                return Err(e);
            },
        };
        match bval(input, key.1) {
            Ok((v, next)) => {
                assert(spec_pair(input@, p as int) == Outcome::Done(
                    (encode_utf8(key.0@), v@),
                    next as int,
                ));
                entries = insert_entry(entries, key.0, v);
                p = next;
            },
            Err(e) => {
                assert(spec_pair(input@, p as int) == Outcome::<(Seq<u8>, Value)>::Fail(e));
                assert(spec_marker(input@, p as int, END) is Some);
                return Err(e);
            },
        }
    }
}

/// Reads one value at `pos`. The first byte picks the alternative: `'i'` an
/// integer, a digit a string, `'l'` a list, `'d'` a dictionary; any other
/// byte is `Malformed`, and the end of the input `Incomplete`.
pub fn bval(input: &[u8], pos: usize) -> (r: Result<(BVal, usize), ParseError>)
    ensures
        value_outcome(r) == spec_value(input@, pos as int),
        r is Ok ==> pos < r->Ok_0.1 <= input.len(),
        r is Ok ==> r->Ok_0.0.wf(),
    decreases input.len() - pos, 1int,
{
    proof {
        lemma_value_wf(input@, pos as int);
    }
    if pos >= input.len() {
        return Err(ParseError::Incomplete);
    }
    let first: u8 = input[pos];
    if first == INT_START {
        match num(input, pos) {
            Ok((n, next)) => Ok((BVal::BInt(n), next)),
            Err(e) => Err(e),
        }
    } else if is_digit_byte(first) {
        match string(input, pos) {
            Ok((text, next)) => Ok((BVal::BStr(text), next)),
            Err(e) => Err(e),
        }
    } else if first == LIST_START {
        match list(input, pos) {
            Ok((items, next)) => {
                proof {
                    lemma_list_view(items);
                }
                Ok((BVal::BList(items), next))
            },
            Err(e) => Err(e),
        }
    } else if first == DICT_START {
        match dict(input, pos) {
            Ok((entries, next)) => {
                proof {
                    lemma_dict_view(entries);
                }
                Ok((BVal::BDict(entries), next))
            },
            Err(e) => Err(e),
        }
    } else {
        Err(ParseError::Malformed)
    }
}

/// What decoding the bytes `s` may return: a well-formed value whose model
/// is the value that the grammar reads at the front of `s`, or nothing where
/// the grammar reads none.
pub open spec fn decodes_to(s: Seq<u8>, r: Option<BVal>) -> bool {
    match r {
        Some(v) => spec_decode(s) == Some(v@) && v.wf(),
        None => spec_decode(s) is None,
    }
}

/// Decodes the value at the front of `input`; bytes behind it are ignored.
///
/// Returns `None` for every failure, whatever its kind; [`bval`] at position
/// 0 tells the kinds apart.
pub fn parse_bencode(input: &[u8]) -> (r: Option<BVal>)
    ensures
        decodes_to(input@, r),
{
    match bval(input, 0) {
        Ok((v, _)) => Some(v),
        Err(_) => None,
    }
}

} // verus!
