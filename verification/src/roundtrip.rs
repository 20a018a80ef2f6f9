//! What the decoder makes of encoded integers and strings.

use vstd::prelude::*;
use vstd::utf8::valid_utf8;
use crate::grammar::{
    decimal_value, digits_end, is_digit, lemma_decimal_nonnegative, lemma_digits_end_bounds,
    spec_decode, spec_digits, spec_marker, spec_num,
    spec_string, spec_value, Outcome, ParseError, COLON, END, INT_START, MINUS,
};
use crate::decode::decodes_to;
use crate::value::{BVal, Value};

verus! {

/// The digits of `n` in base ten, without leading zeros.
pub open spec fn decimal_digits(n: nat) -> Seq<u8>
    decreases n,
{
    if n < 10 {
        seq![(0x30 + n) as u8]
    } else {
        decimal_digits(n / 10).push((0x30 + n % 10) as u8)
    }
}

/// The encoding of the integer `n`.
pub open spec fn encode_int(n: int) -> Seq<u8> {
    if n < 0 {
        seq![INT_START, MINUS] + decimal_digits((-n) as nat) + seq![END]
    } else {
        seq![INT_START] + decimal_digits(n as nat) + seq![END]
    }
}

/// The encoding of the string with the bytes `bytes` where `declared` is
/// their number; with another `declared`, an encoding whose length is wrong.
pub open spec fn encode_bytes(declared: nat, bytes: Seq<u8>) -> Seq<u8> {
    decimal_digits(declared) + seq![COLON] + bytes
}

/// The digits of a number are at least one, and all are digits.
pub proof fn lemma_decimal_digits_shape(n: nat)
    ensures
        decimal_digits(n).len() >= 1,
        forall|i: int| 0 <= i < decimal_digits(n).len() ==> is_digit(#[trigger] decimal_digits(n)[i]),
    decreases n,
{
    if n >= 10 {
        lemma_decimal_digits_shape(n / 10);
    }
}

/// A stretch of digits that no digit follows is the run that starts at its
/// first byte.
pub proof fn lemma_digits_end_run(s: Seq<u8>, lo: int, hi: int)
    requires
        0 <= lo <= hi <= s.len(),
        forall|i: int| lo <= i < hi ==> is_digit(#[trigger] s[i]),
        hi == s.len() || !is_digit(s[hi]),
    ensures
        digits_end(s, lo) == hi,
    decreases hi - lo,
{
    if lo < hi {
        lemma_digits_end_run(s, lo + 1, hi);
    }
}

/// Where the digits of `n` stand in `s` from `lo` on, they write `n`.
pub proof fn lemma_decimal_value_digits(s: Seq<u8>, lo: int, n: nat)
    requires
        0 <= lo,
        lo + decimal_digits(n).len() <= s.len(),
        forall|i: int| 0 <= i < decimal_digits(n).len() ==> s[lo + i] == #[trigger] decimal_digits(n)[i],
    ensures
        decimal_value(s, lo, lo + decimal_digits(n).len()) == n,
    decreases n,
{
    let hi: int = lo + decimal_digits(n).len();
    if n < 10 {
        assert(decimal_value(s, lo, lo) == 0);
        assert(s[lo + 0] == decimal_digits(n)[0]);
    } else {
        lemma_decimal_digits_shape(n / 10);
        assert forall|i: int| 0 <= i < decimal_digits(n / 10).len() implies s[lo + i]
            == #[trigger] decimal_digits(n / 10)[i] by {
            assert(decimal_digits(n)[i] == decimal_digits(n / 10)[i]);
        }
        lemma_decimal_value_digits(s, lo, n / 10);
        assert(s[lo + (hi - 1 - lo)] == decimal_digits(n)[hi - 1 - lo]);
        assert(decimal_value(s, lo, hi) == 10 * decimal_value(s, lo, hi - 1) + (s[hi - 1] - 0x30));
    }
}

/// Reading digits where the digits of `n` stand, and no digit behind them,
/// gives `n`, if `n` is within the target's range.
pub proof fn lemma_read_decimal_digits(s: Seq<u8>, lo: int, n: nat, max: int)
    requires
        0 <= lo,
        lo + decimal_digits(n).len() <= s.len(),
        forall|i: int| 0 <= i < decimal_digits(n).len() ==> s[lo + i] == #[trigger] decimal_digits(n)[i],
        lo + decimal_digits(n).len() == s.len() || !is_digit(s[lo + decimal_digits(n).len()]),
    ensures
        n <= max ==> spec_digits(s, lo, max) == Outcome::Done(
            n as int,
            lo + decimal_digits(n).len(),
        ),
        n > max ==> spec_digits(s, lo, max) == Outcome::<int>::Fail(ParseError::NumericOverflow),
{
    let len: int = decimal_digits(n).len() as int;
    lemma_decimal_digits_shape(n);
    assert forall|i: int| lo <= i < lo + len implies is_digit(#[trigger] s[i]) by {
        assert(s[lo + (i - lo)] == decimal_digits(n)[i - lo]);
    }
    lemma_digits_end_run(s, lo, lo + len);
    lemma_decimal_value_digits(s, lo, n);
}

/// Every integer whose magnitude fits 64 signed bits decodes from its
/// encoding to itself, whatever bytes follow the encoding.
pub proof fn lemma_int_roundtrip_prefix(n: int, rest: Seq<u8>)
    requires
        -i64::MAX <= n <= i64::MAX,
    ensures
        spec_value(encode_int(n) + rest, 0) == Outcome::Done(
            Value::Int(n),
            encode_int(n).len() as int,
        ),
        spec_decode(encode_int(n) + rest) == Some(Value::Int(n)),
{
    let s = encode_int(n) + rest;
    let m: nat = if n < 0 { (-n) as nat } else { n as nat };
    let start: int = if n < 0 { 2 } else { 1 };
    let len: int = decimal_digits(m).len() as int;
    lemma_decimal_digits_shape(m);
    assert(s[0] == INT_START);
    if n < 0 {
        assert(s[1] == MINUS);
    } else {
        assert(s[1] == decimal_digits(m)[0]);
    }
    assert forall|i: int| 0 <= i < len implies s[start + i] == #[trigger] decimal_digits(m)[i] by {}
    assert(s[start + len] == END);
    lemma_read_decimal_digits(s, start, m, i64::MAX as int);
    assert(spec_marker(s, start + len, END) is None);
    assert(spec_num(s, 0) == Outcome::Done(n, start + len + 1));
}

/// Every integer whose magnitude fits 64 signed bits, negative or not,
/// decodes from its encoding to itself.
pub proof fn lemma_int_roundtrip(n: int)
    requires
        -i64::MAX <= n <= i64::MAX,
    ensures
        spec_decode(encode_int(n)) == Some(Value::Int(n)),
{
    lemma_int_roundtrip_prefix(n, Seq::empty());
    assert(encode_int(n) + Seq::<u8>::empty() =~= encode_int(n));
}

/// What a string reader makes of a declared length, a colon and bytes, with
/// `rest` behind them: the bytes if they are as many as declared and valid
/// UTF-8; `InvalidEncoding` if they are as many and not valid; `Incomplete`
/// if the input ends before the declared number of bytes.
pub proof fn lemma_string_outcomes(declared: nat, bytes: Seq<u8>, rest: Seq<u8>)
    requires
        declared <= usize::MAX,
    ensures
        declared == bytes.len() && valid_utf8(bytes) ==> spec_value(
            encode_bytes(declared, bytes) + rest,
            0,
        ) == Outcome::Done(Value::Str(bytes), encode_bytes(declared, bytes).len() as int),
        declared == bytes.len() && !valid_utf8(bytes) ==> spec_value(
            encode_bytes(declared, bytes) + rest,
            0,
        ) == Outcome::<Value>::Fail(ParseError::InvalidEncoding),
        declared > bytes.len() + rest.len() ==> spec_value(encode_bytes(declared, bytes) + rest, 0)
            == Outcome::<Value>::Fail(ParseError::Incomplete),
{
    let s = encode_bytes(declared, bytes) + rest;
    let len: int = decimal_digits(declared).len() as int;
    lemma_decimal_digits_shape(declared);
    assert(s[0] == decimal_digits(declared)[0]);
    assert forall|i: int| 0 <= i < len implies s[0 + i] == #[trigger] decimal_digits(declared)[i] by {}
    assert(s[len] == COLON);
    lemma_read_decimal_digits(s, 0, declared, usize::MAX as int);
    assert(spec_marker(s, len, COLON) is None);
    if declared == bytes.len() {
        assert(s.subrange(len + 1, len + 1 + declared) =~= bytes);
    }
}

/// Every valid UTF-8 string decodes from its length, a colon and its bytes
/// to itself.
pub proof fn lemma_string_roundtrip(bytes: Seq<u8>)
    requires
        valid_utf8(bytes),
        bytes.len() <= usize::MAX,
    ensures
        spec_decode(encode_bytes(bytes.len(), bytes)) == Some(Value::Str(bytes)),
{
    lemma_string_outcomes(bytes.len(), bytes, Seq::empty());
    assert(encode_bytes(bytes.len(), bytes) + Seq::<u8>::empty() =~= encode_bytes(
        bytes.len(),
        bytes,
    ));
}

/// A string whose declared length exceeds the bytes that follow is
/// `Incomplete`: no value is made of fewer bytes than declared.
pub proof fn lemma_truncated_string(declared: nat, bytes: Seq<u8>)
    requires
        declared <= usize::MAX,
        bytes.len() < declared,
    ensures
        spec_value(encode_bytes(declared, bytes), 0) == Outcome::<Value>::Fail(
            ParseError::Incomplete,
        ),
        spec_decode(encode_bytes(declared, bytes)) is None,
{
    lemma_string_outcomes(declared, bytes, Seq::empty());
    assert(encode_bytes(declared, bytes) + Seq::<u8>::empty() =~= encode_bytes(declared, bytes));
}

/// A string that is read has exactly as many bytes as its digits declare,
/// and they are the bytes of the input behind the colon.
pub proof fn lemma_string_has_declared_length(s: Seq<u8>, pos: int)
    requires
        spec_string(s, pos) is Done,
    ensures
        spec_digits(s, pos, usize::MAX as int) is Done,
        spec_string(s, pos)->Done_0.len() == spec_digits(s, pos, usize::MAX as int)->Done_0,
        spec_string(s, pos)->Done_1 == spec_digits(s, pos, usize::MAX as int)->Done_1 + 1
            + spec_string(s, pos)->Done_0.len(),
        spec_string(s, pos)->Done_1 <= s.len(),
        valid_utf8(spec_string(s, pos)->Done_0),
{
    lemma_digits_end_bounds(s, pos);
    lemma_decimal_nonnegative(s, pos, digits_end(s, pos));
}

/// A string whose bytes are not valid UTF-8 is refused as `InvalidEncoding`,
/// and the decoder gives nothing.
pub proof fn lemma_invalid_utf8_refused(bytes: Seq<u8>, rest: Seq<u8>)
    requires
        !valid_utf8(bytes),
        bytes.len() <= usize::MAX,
    ensures
        spec_value(encode_bytes(bytes.len(), bytes) + rest, 0) == Outcome::<Value>::Fail(
            ParseError::InvalidEncoding,
        ),
        spec_decode(encode_bytes(bytes.len(), bytes) + rest) is None,
{
    lemma_string_outcomes(bytes.len(), bytes, rest);
}

/// Decoding depends on the bytes alone: two calls on equal inputs both
/// give nothing, or give values with the same model.
pub proof fn lemma_decode_deterministic(a: Seq<u8>, b: Seq<u8>, x: Option<BVal>, y: Option<BVal>)
    requires
        a == b,
        decodes_to(a, x),
        decodes_to(b, y),
    ensures
        x is Some <==> y is Some,
        x is Some ==> x->0@ == y->0@,
{
}

} // verus!
