//! Decoding JSON numbers: the extent of a number in the input, and integers by value.
use core::ops::Range;

use vstd::prelude::*;

use crate::errors::{json_error, JsonError, JsonErrorType, JsonResult};
use crate::string_decoder::result_index;
use crate::parse::{consume_infinity, consume_nan, ident_rest, is_digit, spec_consume_ident, Ident};

verus! {

#[verifier::external_type_specification]
#[verifier::external_body]
pub struct ExBigInt(num_bigint::BigInt);

/// `Clone::clone` of num-bigint's `BigInt`: its source copies the sign and the digits, so the
/// copy equals the original.
pub assume_specification[ <num_bigint::BigInt as Clone>::clone ](b: &num_bigint::BigInt) -> (r:
    num_bigint::BigInt)
    ensures
        r == *b,
;

/// The first index at or after `i` that does not hold an ASCII digit (or the end of the input).
pub open spec fn digit_run_end(s: Seq<u8>, i: int) -> int
    decreases s.len() - i,
{
    if 0 <= i < s.len() && is_digit(s[i]) {
        digit_run_end(s, i + 1)
    } else {
        i
    }
}

pub proof fn lemma_digit_run_end(s: Seq<u8>, i: int)
    requires
        0 <= i,
    ensures
        i <= digit_run_end(s, i),
        i <= s.len() ==> digit_run_end(s, i) <= s.len(),
        i > s.len() ==> digit_run_end(s, i) == i,
        digit_run_end(s, i) < s.len() ==> !is_digit(s[digit_run_end(s, i)]),
        forall|k: int| i <= k < digit_run_end(s, i) ==> is_digit(#[trigger] s[k]),
    decreases s.len() - i,
{
    if 0 <= i < s.len() && is_digit(s[i]) {
        lemma_digit_run_end(s, i + 1);
    }
}

/// `10` to the power `n`.
pub open spec fn pow10(n: nat) -> nat
    decreases n,
{
    if n == 0 {
        1
    } else {
        10 * pow10((n - 1) as nat)
    }
}

/// The value of the decimal digit values `d`, most significant first.
pub open spec fn value_of_digits(d: Seq<u8>) -> nat
    decreases d.len(),
{
    if d.len() == 0 {
        0
    } else {
        value_of_digits(d.drop_last()) * 10 + d.last() as nat
    }
}

/// The digit values (`0` to `9`) of the ASCII digits `s[a..b]`.
pub open spec fn digit_values(s: Seq<u8>, a: int, b: int) -> Seq<u8> {
    Seq::new((b - a) as nat, |k: int| (s[a + k] - 0x30) as u8)
}

/// The digit values of an integer whose first digit is `c` and whose other digits are
/// `s[i + 1..e]`.
pub open spec fn int_digits(c: u8, s: Seq<u8>, i: int, e: int) -> Seq<u8> {
    seq![(c - 0x30) as u8] + digit_values(s, i + 1, e)
}

proof fn lemma_value_of_digits_bound(d: Seq<u8>)
    requires
        forall|k: int| 0 <= k < d.len() ==> d[k] < 10,
    ensures
        value_of_digits(d) < pow10(d.len()),
    decreases d.len(),
{
    if d.len() > 0 {
        lemma_value_of_digits_bound(d.drop_last());
    }
}

/// `.`, `e` or `E`: a byte after an integer's digits that makes the number a float.
pub open spec fn is_float_marker(b: u8) -> bool {
    b == 0x2e || b == 0x65 || b == 0x45
}

/// Consuming an exponent whose digits (after an optional sign) start at `i`: the index after
/// it, or why it is malformed.
pub open spec fn spec_consume_exponential(s: Seq<u8>, i: int) -> Result<usize, JsonError> {
    if i >= s.len() {
        Err(json_error(JsonErrorType::EofWhileParsingValue, i))
    } else if !(s[i] == 0x2d || s[i] == 0x2b || is_digit(s[i])) {
        Err(json_error(JsonErrorType::InvalidNumber, i))
    } else {
        let d = if is_digit(s[i]) {
            i
        } else {
            i + 1
        };
        if d >= s.len() {
            Err(json_error(JsonErrorType::EofWhileParsingValue, d))
        } else if !is_digit(s[d]) {
            Err(json_error(JsonErrorType::InvalidNumber, d))
        } else {
            Ok(digit_run_end(s, d + 1) as usize)
        }
    }
}

/// Consuming a fraction whose digits start at `i`, and any exponent after them.
pub open spec fn spec_consume_decimal(s: Seq<u8>, i: int) -> Result<usize, JsonError> {
    if i >= s.len() {
        Err(json_error(JsonErrorType::EofWhileParsingValue, i))
    } else if !is_digit(s[i]) {
        Err(json_error(JsonErrorType::InvalidNumber, i))
    } else {
        let e = digit_run_end(s, i + 1);
        if e < s.len() && (s[e] == 0x65 || s[e] == 0x45) {
            spec_consume_exponential(s, e + 1)
        } else {
            Ok(e as usize)
        }
    }
}

/// The end of the run of ASCII digits from `index`, or `None` if it reaches past `limit`.
fn find_digit_run_end(data: &[u8], index: usize, limit: usize) -> (r: Option<usize>)
    requires
        index <= limit,
        data.len() <= isize::MAX,
    ensures
        r == (if digit_run_end(data@, index as int) > limit {
            None::<usize>
        } else {
            Some(digit_run_end(data@, index as int) as usize)
        }),
{
    proof {
        lemma_digit_run_end(data@, index as int);
    }
    let mut i = index;
    while i < limit && i < data.len() && 0x30 <= data[i] && data[i] <= 0x39
        invariant
            index <= i <= limit,
            data.len() <= isize::MAX,
            digit_run_end(data@, i as int) == digit_run_end(data@, index as int),
            index <= data.len() ==> i <= data.len(),
            index > data.len() ==> i == index,
        decreases limit - i,
    {
        i += 1;
    }
    if i < data.len() && 0x30 <= data[i] && data[i] <= 0x39 {
        proof {
            lemma_digit_run_end(data@, i as int + 1);
        }
        None
    } else {
        Some(i)
    }
}

/// The end of the run of ASCII digits from `index`.
fn digit_run_end_unbounded(data: &[u8], index: usize) -> (r: usize)
    requires
        index <= data.len(),
        data.len() <= isize::MAX,
    ensures
        r == digit_run_end(data@, index as int),
        index <= r <= data.len(),
{
    proof {
        lemma_digit_run_end(data@, index as int);
    }
    match find_digit_run_end(data, index, data.len()) {
        Some(end) => end,
        None => data.len(),
    }
}

/// Consume an exponent whose digits (after an optional sign) start at `index`.
fn consume_exponential(data: &[u8], index: usize) -> (r: JsonResult<usize>)
    requires
        index <= data.len(),
        data.len() <= isize::MAX,
    ensures
        r == spec_consume_exponential(data@, index as int),
        r matches Ok(end) ==> index < end <= data.len(),
{
    if index >= data.len() {
        return Err(JsonError::new(JsonErrorType::EofWhileParsingValue, index));
    }
    let c = data[index];
    let d = if c == 0x2d || c == 0x2b {
        index + 1
    } else if 0x30 <= c && c <= 0x39 {
        index
    } else {
        return Err(JsonError::new(JsonErrorType::InvalidNumber, index));
    };
    if d >= data.len() {
        return Err(JsonError::new(JsonErrorType::EofWhileParsingValue, d));
    }
    if !(0x30 <= data[d] && data[d] <= 0x39) {
        return Err(JsonError::new(JsonErrorType::InvalidNumber, d));
    }
    Ok(digit_run_end_unbounded(data, d + 1))
}

/// Consume a fraction whose digits start at `index`, and any exponent after them.
fn consume_decimal(data: &[u8], index: usize) -> (r: JsonResult<usize>)
    requires
        index <= data.len(),
        data.len() <= isize::MAX,
    ensures
        r == spec_consume_decimal(data@, index as int),
        r matches Ok(end) ==> index < end <= data.len(),
{
    if index >= data.len() {
        return Err(JsonError::new(JsonErrorType::EofWhileParsingValue, index));
    }
    if !(0x30 <= data[index] && data[index] <= 0x39) {
        return Err(JsonError::new(JsonErrorType::InvalidNumber, index));
    }
    let e = digit_run_end_unbounded(data, index + 1);
    if e < data.len() && (data[e] == 0x65 || data[e] == 0x45) {
        consume_exponential(data, e + 1)
    } else {
        Ok(e)
    }
}

/// Consuming `Infinity` whose `I` is at `index`, after a sign if `!positive`: allowed only with
/// `allow_inf_nan`.
pub open spec fn spec_consume_inf(s: Seq<u8>, index: int, positive: bool, allow_inf_nan: bool) -> Result<
    usize,
    JsonError,
> {
    if allow_inf_nan {
        spec_consume_ident(s, index, ident_rest(Ident::Infinity))
    } else if positive {
        Err(json_error(JsonErrorType::ExpectedSomeValue, index))
    } else {
        Err(json_error(JsonErrorType::InvalidNumber, index))
    }
}

fn consume_inf(data: &[u8], index: usize, positive: bool, allow_inf_nan: bool) -> (r: JsonResult<
    usize,
>)
    requires
        index <= data.len(),
        data.len() <= isize::MAX,
    ensures
        r == spec_consume_inf(data@, index as int, positive, allow_inf_nan),
        r matches Ok(end) ==> end <= data.len(),
{
    if allow_inf_nan {
        consume_infinity(data, index)
    } else if positive {
        Err(JsonError::new(JsonErrorType::ExpectedSomeValue, index))
    } else {
        Err(JsonError::new(JsonErrorType::InvalidNumber, index))
    }
}

/// Consuming `NaN` whose `N` is at `index`: allowed only with `allow_inf_nan`.
pub open spec fn spec_consume_nan(s: Seq<u8>, index: int, allow_inf_nan: bool) -> Result<
    usize,
    JsonError,
> {
    if allow_inf_nan {
        spec_consume_ident(s, index, ident_rest(Ident::NaN))
    } else {
        Err(json_error(JsonErrorType::ExpectedSomeValue, index))
    }
}

fn consume_nan_number(data: &[u8], index: usize, allow_inf_nan: bool) -> (r: JsonResult<usize>)
    requires
        index <= data.len(),
        data.len() <= isize::MAX,
    ensures
        r == spec_consume_nan(data@, index as int, allow_inf_nan),
        r matches Ok(end) ==> end <= data.len(),
{
    if allow_inf_nan {
        consume_nan(data, index)
    } else {
        Err(JsonError::new(JsonErrorType::ExpectedSomeValue, index))
    }
}

/// The most digits an integer (or the integer part of a float) may have.
pub const MAX_INT_DIGITS: usize = 4300;

/// Decodes a JSON number whose first byte is `first`, at `index`.
pub trait AbstractNumberDecoder: Sized {
    /// Decoding the number at `index`, whose first byte is `first`: the index after it, or the
    /// error.
    spec fn spec_next(data: Seq<u8>, index: int, first: u8, allow_inf_nan: bool) -> Result<
        usize,
        JsonError,
    >;

    /// Whether `out` is what decoding the number at `index`, whose first byte is `first`, gives.
    spec fn spec_output(data: Seq<u8>, index: int, first: u8, allow_inf_nan: bool, out: Self) -> bool;

    /// Decode the number at `index`, returning it and the index after it.
    fn decode(data: &[u8], index: usize, first: u8, allow_inf_nan: bool) -> (r: JsonResult<
        (Self, usize),
    >)
        requires
            index < data.len(),
            data.len() <= isize::MAX,
        ensures
            result_index(r) == Self::spec_next(data@, index as int, first, allow_inf_nan),
            r matches Ok((o, _)) ==> Self::spec_output(data@, index as int, first, allow_inf_nan, o),
            r matches Ok((_, n)) ==> index < n <= data.len(),
    ;
}

/// Where a number lies in the input, and whether it is an integer.
#[derive(Debug)]
pub struct NumberRange {
    pub range: Range<usize>,
    pub is_int: bool,
}

/// The extent of a float's fraction or exponent after its integer part ends at `e`: the
/// number is a float if `e` holds `.`, `e` or `E`, otherwise an integer ending at `e`.
pub open spec fn spec_number_tail(s: Seq<u8>, e: int) -> Result<(bool, usize), JsonError> {
    if e < s.len() && s[e] == 0x2e {
        match spec_consume_decimal(s, e + 1) {
            Ok(end) => Ok((false, end)),
            Err(err) => Err(err),
        }
    } else if e < s.len() && (s[e] == 0x65 || s[e] == 0x45) {
        match spec_consume_exponential(s, e + 1) {
            Ok(end) => Ok((false, end)),
            Err(err) => Err(err),
        }
    } else {
        Ok((true, e as usize))
    }
}

/// Decoding by its extent the number whose first byte after any sign is `c`, at `i`.
pub open spec fn spec_range_unsigned(
    s: Seq<u8>,
    i: int,
    c: u8,
    positive: bool,
    allow_inf_nan: bool,
) -> Result<(bool, usize), JsonError> {
    if c == 0x30 {
        if i + 1 < s.len() && is_digit(s[i + 1]) {
            Err(json_error(JsonErrorType::InvalidNumber, i + 1))
        } else {
            spec_number_tail(s, i + 1)
        }
    } else if c == 0x49 {
        match spec_consume_inf(s, i, positive, allow_inf_nan) {
            Ok(end) => Ok((false, end)),
            Err(e) => Err(e),
        }
    } else if 0x31 <= c <= 0x39 {
        let e = digit_run_end(s, i + 1);
        if e - i > MAX_INT_DIGITS {
            Err(json_error(JsonErrorType::NumberOutOfRange, i + MAX_INT_DIGITS + 1))
        } else {
            spec_number_tail(s, e)
        }
    } else {
        Err(json_error(JsonErrorType::InvalidNumber, i))
    }
}

/// Decoding the number at `index` whose first byte is `first` by its extent: whether it is an
/// integer and the index after it, or why it is malformed. An integer, or the integer part of a
/// float, may have at most 4300 digits.
pub open spec fn spec_number_range(s: Seq<u8>, index: int, first: u8, allow_inf_nan: bool) -> Result<
    (bool, usize),
    JsonError,
> {
    if first == 0x4e {
        match spec_consume_nan(s, index, allow_inf_nan) {
            Ok(end) => Ok((false, end)),
            Err(e) => Err(e),
        }
    } else if first == 0x2d {
        if index + 1 >= s.len() {
            Err(json_error(JsonErrorType::EofWhileParsingValue, index + 1))
        } else {
            spec_range_unsigned(s, index + 1, s[index + 1], false, allow_inf_nan)
        }
    } else {
        spec_range_unsigned(s, index, first, true, allow_inf_nan)
    }
}

impl NumberRange {
    fn integer(start: usize, end: usize) -> (r: Self)
        ensures
            r.range.start == start && r.range.end == end && r.is_int,
    {
        NumberRange { range: start..end, is_int: true }
    }

    fn non_integer(start: usize, end: usize) -> (r: Self)
        ensures
            r.range.start == start && r.range.end == end && !r.is_int,
    {
        NumberRange { range: start..end, is_int: false }
    }
}

/// The number's tail after its integer part ends at `e`.
fn number_tail(data: &[u8], e: usize) -> (r: JsonResult<(bool, usize)>)
    requires
        e <= data.len(),
        data.len() <= isize::MAX,
    ensures
        r == spec_number_tail(data@, e as int),
        r matches Ok((_, end)) ==> e <= end <= data.len(),
{
    if e < data.len() && data[e] == 0x2e {
        match consume_decimal(data, e + 1) {
            Ok(end) => Ok((false, end)),
            Err(err) => Err(err),
        }
    } else if e < data.len() && (data[e] == 0x65 || data[e] == 0x45) {
        match consume_exponential(data, e + 1) {
            Ok(end) => Ok((false, end)),
            Err(err) => Err(err),
        }
    } else {
        Ok((true, e))
    }
}

fn range_unsigned(data: &[u8], i: usize, c: u8, positive: bool, allow_inf_nan: bool) -> (r:
    JsonResult<(bool, usize)>)
    requires
        i < data.len(),
        data.len() <= isize::MAX,
    ensures
        r == spec_range_unsigned(data@, i as int, c, positive, allow_inf_nan),
        r matches Ok((_, end)) ==> i < end <= data.len(),
{
    if c == 0x30 {
        if i + 1 < data.len() && 0x30 <= data[i + 1] && data[i + 1] <= 0x39 {
            Err(JsonError::new(JsonErrorType::InvalidNumber, i + 1))
        } else {
            number_tail(data, i + 1)
        }
    } else if c == 0x49 {
        match consume_inf(data, i, positive, allow_inf_nan) {
            Ok(end) => {
                proof {
                    assert(ident_rest(Ident::Infinity).len() == 7);
                }
                Ok((false, end))
            },
            Err(e) => Err(e),
        }
    } else if 0x31 <= c && c <= 0x39 {
        proof {
            lemma_digit_run_end(data@, i + 1);
        }
        match find_digit_run_end(data, i + 1, i + MAX_INT_DIGITS) {
            Some(e) => number_tail(data, e),
            None => Err(JsonError::new(JsonErrorType::NumberOutOfRange, i + MAX_INT_DIGITS + 1)),
        }
    } else {
        Err(JsonError::new(JsonErrorType::InvalidNumber, i))
    }
}

impl AbstractNumberDecoder for NumberRange {
    open spec fn spec_next(data: Seq<u8>, index: int, first: u8, allow_inf_nan: bool) -> Result<
        usize,
        JsonError,
    > {
        result_index(spec_number_range(data, index, first, allow_inf_nan))
    }

    open spec fn spec_output(
        data: Seq<u8>,
        index: int,
        first: u8,
        allow_inf_nan: bool,
        out: NumberRange,
    ) -> bool {
        &&& spec_number_range(data, index, first, allow_inf_nan) matches Ok((is_int, end))
        &&& out.range.start == index
        &&& out.range.end == end
        &&& out.is_int == is_int
    }

    fn decode(data: &[u8], index: usize, first: u8, allow_inf_nan: bool) -> (r: JsonResult<
        (NumberRange, usize),
    >) {
        let start = index;
        let res = if first == 0x4e {
            match consume_nan_number(data, index, allow_inf_nan) {
                Ok(end) => {
                    proof {
                        assert(ident_rest(Ident::NaN).len() == 2);
                    }
                    Ok((false, end))
                },
                Err(e) => Err(e),
            }
        } else if first == 0x2d {
            if index + 1 >= data.len() {
                Err(JsonError::new(JsonErrorType::EofWhileParsingValue, index + 1))
            } else {
                range_unsigned(data, index + 1, data[index + 1], false, allow_inf_nan)
            }
        } else {
            range_unsigned(data, index, first, true, allow_inf_nan)
        };
        match res {
            Ok((true, end)) => Ok((NumberRange::integer(start, end), end)),
            Ok((false, end)) => Ok((NumberRange::non_integer(start, end), end)),
            Err(e) => Err(e),
        }
    }
}

/// An integer: an `i64` when it has at most 18 digits, otherwise a `BigInt`.
#[derive(Debug, Clone, PartialEq)]
pub enum NumberInt {
    Int(i64),
    BigInt(num_bigint::BigInt),
}

/// The number whose decimal digits, most significant first, are `digits`, negated if
/// `negative`, as num-bigint builds it.
pub uninterp spec fn spec_big_int_from_digits(negative: bool, digits: Seq<u8>) -> num_bigint::BigInt;

/// Builds the number from its decimal digits with `BigInt::from_radix_be` of num-bigint, radix
/// 10, negative if `negative`. That function returns `None` exactly when some digit is not
/// below the radix; otherwise the contract names the number it builds.
#[verifier::external_body]
fn big_int_from_digits(negative: bool, digits: &[u8]) -> (r: Option<num_bigint::BigInt>)
    ensures
        r is Some <==> (forall|k: int| 0 <= k < digits.len() ==> digits[k] < 10),
        r matches Some(b) ==> b == spec_big_int_from_digits(negative, digits@),
{
    let sign = if negative {
        num_bigint::Sign::Minus
    } else {
        num_bigint::Sign::Plus
    };
    num_bigint::BigInt::from_radix_be(sign, digits, 10)
}

/// The most digits an integer may have to be decoded as an `i64`.
pub const MAX_SMALL_INT_DIGITS: usize = 18;

/// Decoding as an integer the number whose first byte after any sign is `c`, at `i`.
pub open spec fn spec_int_unsigned(s: Seq<u8>, i: int, c: u8, positive: bool) -> Result<
    (NumberInt, usize),
    JsonError,
> {
    if c == 0x30 {
        if i + 1 < s.len() && is_float_marker(s[i + 1]) {
            Err(json_error(JsonErrorType::FloatExpectingInt, i + 1))
        } else if i + 1 < s.len() && is_digit(s[i + 1]) {
            Err(json_error(JsonErrorType::InvalidNumber, i + 1))
        } else {
            Ok((NumberInt::Int(0), (i + 1) as usize))
        }
    } else if c == 0x49 {
        Err(json_error(JsonErrorType::FloatExpectingInt, i))
    } else if 0x31 <= c <= 0x39 {
        let e = digit_run_end(s, i + 1);
        if e - i > MAX_INT_DIGITS {
            Err(json_error(JsonErrorType::NumberOutOfRange, i + MAX_INT_DIGITS + 1))
        } else if e < s.len() && is_float_marker(s[e]) {
            Err(json_error(JsonErrorType::FloatExpectingInt, e))
        } else if e - i <= MAX_SMALL_INT_DIGITS {
            let v = value_of_digits(int_digits(c, s, i, e)) as int;
            Ok(
                (
                    NumberInt::Int(
                        (if positive {
                            v
                        } else {
                            -v
                        }) as i64,
                    ),
                    e as usize,
                ),
            )
        } else {
            Ok(
                (
                    NumberInt::BigInt(spec_big_int_from_digits(!positive, int_digits(c, s, i, e))),
                    e as usize,
                ),
            )
        }
    } else {
        Err(json_error(JsonErrorType::InvalidNumber, i))
    }
}

/// Decoding the number at `index` whose first byte is `first` as an integer: its value and the
/// index after it, or why it is not an integer or is malformed.
pub open spec fn spec_parse_int(s: Seq<u8>, index: int, first: u8) -> Result<
    (NumberInt, usize),
    JsonError,
> {
    if first == 0x4e {
        Err(json_error(JsonErrorType::FloatExpectingInt, index))
    } else if first == 0x2d {
        if index + 1 >= s.len() {
            Err(json_error(JsonErrorType::EofWhileParsingValue, index + 1))
        } else {
            spec_int_unsigned(s, index + 1, s[index + 1], false)
        }
    } else {
        spec_int_unsigned(s, index, first, true)
    }
}

/// Decoding all of `s` as an integer: an error where it stops being one.
pub open spec fn spec_int_from_bytes(s: Seq<u8>) -> Result<NumberInt, JsonError> {
    if s.len() == 0 {
        Err(json_error(JsonErrorType::InvalidNumber, 0))
    } else {
        match spec_parse_int(s, 0, s[0]) {
            Ok((v, n)) => if n == s.len() {
                Ok(v)
            } else {
                Err(json_error(JsonErrorType::InvalidNumber, n as int))
            },
            Err(e) => if e.error_type == JsonErrorType::FloatExpectingInt {
                Err(json_error(JsonErrorType::InvalidNumber, e.index as int))
            } else {
                Err(e)
            },
        }
    }
}

proof fn lemma_pow10_mono(a: nat, b: nat)
    requires
        a <= b,
    ensures
        pow10(a) <= pow10(b),
    decreases b - a,
{
    if a < b {
        lemma_pow10_mono(a, (b - 1) as nat);
    }
}

/// The value of the integer whose first digit is `c` and whose other digits are `data[i + 1..e]`,
/// at most 18 digits in all.
fn small_int_value(c: u8, data: &[u8], i: usize, e: usize) -> (r: u64)
    requires
        0x30 <= c <= 0x39,
        i < e <= data.len(),
        e - i <= MAX_SMALL_INT_DIGITS,
        forall|k: int| i < k < e ==> is_digit(#[trigger] data@[k]),
    ensures
        r == value_of_digits(int_digits(c, data@, i as int, e as int)),
        r < 1_000_000_000_000_000_000,
{
    assert(pow10(18) == 1_000_000_000_000_000_000) by {
        reveal_with_fuel(pow10, 19);
    }
    let mut v: u64 = (c - 0x30) as u64;
    let mut k = i + 1;
    proof {
        let d = int_digits(c, data@, i as int, k as int);
        assert(d =~= seq![(c - 0x30) as u8]);
        assert(d.drop_last() =~= Seq::<u8>::empty());
        reveal_with_fuel(value_of_digits, 2);
        reveal_with_fuel(pow10, 2);
        assert(value_of_digits(d) == v);
        assert(pow10(1) == 10);
    }
    while k < e
        invariant
            i < k <= e <= data.len(),
            e - i <= MAX_SMALL_INT_DIGITS,
            forall|m: int| i < m < e ==> is_digit(#[trigger] data@[m]),
            v == value_of_digits(int_digits(c, data@, i as int, k as int)),
            v < pow10((k - i) as nat),
            pow10(18) == 1_000_000_000_000_000_000,
        decreases e - k,
    {
        proof {
            lemma_pow10_mono((k - i + 1) as nat, 18);
            assert(is_digit(data@[k as int]));
            assert(int_digits(c, data@, i as int, k + 1).drop_last() =~= int_digits(
                c,
                data@,
                i as int,
                k as int,
            ));
        }
        v = v * 10 + (data[k] - 0x30) as u64;
        k += 1;
    }
    proof {
        lemma_pow10_mono((e - i) as nat, 18);
    }
    v
}

/// The digit values of the integer whose first digit is `c` and whose other digits are
/// `data[i + 1..e]`.
fn int_digits_of(c: u8, data: &[u8], i: usize, e: usize) -> (r: Vec<u8>)
    requires
        0x30 <= c <= 0x39,
        i < e <= data.len(),
        forall|k: int| i < k < e ==> is_digit(#[trigger] data@[k]),
    ensures
        r@ == int_digits(c, data@, i as int, e as int),
        forall|k: int| 0 <= k < r.len() ==> r[k] < 10,
{
    let mut out: Vec<u8> = Vec::new();
    out.push(c - 0x30);
    let mut k = i + 1;
    assert(out@ =~= int_digits(c, data@, i as int, k as int));
    while k < e
        invariant
            i < k <= e <= data.len(),
            0x30 <= c <= 0x39,
            forall|m: int| i < m < e ==> is_digit(#[trigger] data@[m]),
            out@ == int_digits(c, data@, i as int, k as int),
            forall|m: int| 0 <= m < out.len() ==> out[m] < 10,
        decreases e - k,
    {
        assert(is_digit(data@[k as int]));
        out.push(data[k] - 0x30);
        k += 1;
        assert(out@ =~= int_digits(c, data@, i as int, k as int));
    }
    out
}

fn int_unsigned(data: &[u8], i: usize, c: u8, positive: bool) -> (r: JsonResult<(NumberInt, usize)>)
    requires
        i < data.len(),
        data.len() <= isize::MAX,
    ensures
        r == spec_int_unsigned(data@, i as int, c, positive),
        r matches Ok((_, end)) ==> i < end <= data.len(),
{
    if c == 0x30 {
        let k = i + 1;
        if k < data.len() && (data[k] == 0x2e || data[k] == 0x65 || data[k] == 0x45) {
            Err(JsonError::new(JsonErrorType::FloatExpectingInt, k))
        } else if k < data.len() && 0x30 <= data[k] && data[k] <= 0x39 {
            Err(JsonError::new(JsonErrorType::InvalidNumber, k))
        } else {
            Ok((NumberInt::Int(0), k))
        }
    } else if c == 0x49 {
        Err(JsonError::new(JsonErrorType::FloatExpectingInt, i))
    } else if 0x31 <= c && c <= 0x39 {
        proof {
            lemma_digit_run_end(data@, i + 1);
        }
        let e = match find_digit_run_end(data, i + 1, i + MAX_INT_DIGITS) {
            Some(e) => e,
            None => {
                return Err(JsonError::new(JsonErrorType::NumberOutOfRange, i + MAX_INT_DIGITS + 1));
            },
        };
        if e < data.len() && (data[e] == 0x2e || data[e] == 0x65 || data[e] == 0x45) {
            return Err(JsonError::new(JsonErrorType::FloatExpectingInt, e));
        }
        if e - i <= MAX_SMALL_INT_DIGITS {
            let v = small_int_value(c, data, i, e);
            let x: i64 = if positive {
                v as i64
            } else {
                -(v as i64)
            };
            Ok((NumberInt::Int(x), e))
        } else {
            let digits = int_digits_of(c, data, i, e);
            match big_int_from_digits(!positive, digits.as_slice()) {
                Some(b) => Ok((NumberInt::BigInt(b), e)),
                None => Err(JsonError::new(JsonErrorType::NumberOutOfRange, i + 1)),
            }
        }
    } else {
        Err(JsonError::new(JsonErrorType::InvalidNumber, i))
    }
}

impl NumberInt {
    /// Decode the number at `index`, whose first byte is `first`, as an integer.
    fn parse(data: &[u8], index: usize, first: u8) -> (r: JsonResult<(NumberInt, usize)>)
        requires
            index < data.len(),
            data.len() <= isize::MAX,
        ensures
            r == spec_parse_int(data@, index as int, first),
            r matches Ok((_, end)) ==> index < end <= data.len(),
    {
        if first == 0x4e {
            Err(JsonError::new(JsonErrorType::FloatExpectingInt, index))
        } else if first == 0x2d {
            if index + 1 >= data.len() {
                Err(JsonError::new(JsonErrorType::EofWhileParsingValue, index + 1))
            } else {
                int_unsigned(data, index + 1, data[index + 1], false)
            }
        } else {
            int_unsigned(data, index, first, true)
        }
    }

    /// Decode `data` as a JSON integer, an error if it is empty, not an integer, or has bytes
    /// after the integer.
    pub fn from_bytes(data: &[u8]) -> (r: JsonResult<NumberInt>)
        requires
            data.len() <= isize::MAX,
        ensures
            r == spec_int_from_bytes(data@),
    {
        if data.len() == 0 {
            return Err(JsonError::new(JsonErrorType::InvalidNumber, 0));
        }
        match NumberInt::parse(data, 0, data[0]) {
            Ok((v, n)) => if n == data.len() {
                Ok(v)
            } else {
                Err(JsonError::new(JsonErrorType::InvalidNumber, n))
            },
            Err(e) => match e.error_type {
                JsonErrorType::FloatExpectingInt => Err(
                    JsonError::new(JsonErrorType::InvalidNumber, e.index),
                ),
                _ => Err(e),
            },
        }
    }
}

impl AbstractNumberDecoder for NumberInt {
    open spec fn spec_next(data: Seq<u8>, index: int, first: u8, allow_inf_nan: bool) -> Result<
        usize,
        JsonError,
    > {
        result_index(spec_parse_int(data, index, first))
    }

    open spec fn spec_output(
        data: Seq<u8>,
        index: int,
        first: u8,
        allow_inf_nan: bool,
        out: NumberInt,
    ) -> bool {
        spec_parse_int(data, index, first) matches Ok((v, _)) && v == out
    }

    fn decode(data: &[u8], index: usize, first: u8, allow_inf_nan: bool) -> (r: JsonResult<
        (NumberInt, usize),
    >) {
        NumberInt::parse(data, index, first)
    }
}

/// An integer decoded by value ends where decoding it by its extent ends, which finds it an
/// integer.
pub proof fn lemma_int_agrees_with_range(s: Seq<u8>, index: int, first: u8, allow_inf_nan: bool)
    requires
        0 <= index < s.len(),
    ensures
        spec_parse_int(s, index, first) matches Ok((_, n)) ==> spec_number_range(
            s,
            index,
            first,
            allow_inf_nan,
        ) == Ok::<(bool, usize), JsonError>((true, n)),
{
}

/// The decimal value of ASCII digits, most significant first.
pub open spec fn decimal_value(t: Seq<u8>) -> int
    decreases t.len(),
{
    if t.len() == 0 {
        0
    } else {
        decimal_value(t.drop_last()) * 10 + (t.last() - 0x30)
    }
}

/// Whether `s[a..e]` is the digits of a JSON integer: at least one digit, and no leading zero
/// unless the zero is the whole of it.
pub open spec fn integer_digits(s: Seq<u8>, a: int, e: int) -> bool {
    &&& 0 <= a < e <= s.len()
    &&& forall|k: int| a <= k < e ==> 0x30 <= #[trigger] s[k] <= 0x39
    &&& (s[a] == 0x30 ==> e == a + 1)
}

proof fn lemma_int_digits_value(s: Seq<u8>, a: int, e: int)
    requires
        0 <= a < e <= s.len(),
        forall|k: int| a <= k < e ==> 0x30 <= #[trigger] s[k] <= 0x39,
    ensures
        value_of_digits(int_digits(s[a], s, a, e)) == decimal_value(s.subrange(a, e)),
        forall|k: int| 0 <= k < int_digits(s[a], s, a, e).len() ==> #[trigger] int_digits(s[a], s, a, e)[k] < 10,
        int_digits(s[a], s, a, e).len() == e - a,
    decreases e - a,
{
    let d = int_digits(s[a], s, a, e);
    if e > a + 1 {
        lemma_int_digits_value(s, a, e - 1);
        assert(d.drop_last() =~= int_digits(s[a], s, a, e - 1));
        assert(s.subrange(a, e).drop_last() =~= s.subrange(a, e - 1));
        assert(d.last() == (s[e - 1] - 0x30) as u8);
        assert(s.subrange(a, e).last() == s[e - 1]);
        assert(0x30 <= s[e - 1] <= 0x39);
        assert(d.last() as int == s[e - 1] - 0x30);
        assert(value_of_digits(d) == value_of_digits(d.drop_last()) * 10 + d.last() as nat);
        assert(decimal_value(s.subrange(a, e)) == decimal_value(s.subrange(a, e - 1)) * 10 + (s[e - 1] - 0x30));
    } else {
        assert(s.subrange(a, e).drop_last() =~= Seq::<u8>::empty());
        assert(d.drop_last() =~= Seq::<u8>::empty());
        assert(d.last() == (s[a] - 0x30) as u8);
        assert(s.subrange(a, e).last() == s[a]);
        assert(0x30 <= s[a] <= 0x39);
        assert(d.last() as int == s[a] - 0x30);
        assert(value_of_digits(d) == value_of_digits(d.drop_last()) * 10 + d.last() as nat);
        assert(decimal_value(s.subrange(a, e)) == decimal_value(s.subrange(a, e).drop_last()) * 10 + (s[a] - 0x30));
    }
}

/// An integer literal decodes as an integer of the decimal value of its digits, negated after a
/// minus sign: as an `i64` up to 18 digits, otherwise as a big integer of those digits. Its
/// digits `s[a..e]` (after the sign, if any) are followed by the end of the input or by a byte
/// that is not `.`, `e` or `E`; the value ends at `e`.
pub proof fn lemma_integer_literal_value(s: Seq<u8>, i: int, a: int, e: int)
    requires
        s.len() <= isize::MAX,
        0 <= i,
        a == (if s[i] == 0x2d { i + 1 } else { i }),
        integer_digits(s, a, e),
        e == digit_run_end(s, a),
        e - a <= 4300,
        e < s.len() ==> !(s[e] == 0x2e || s[e] == 0x65 || s[e] == 0x45),
    ensures
        spec_parse_int(s, i, s[i]) is Ok,
        spec_parse_int(s, i, s[i])->Ok_0.1 == e,
        e - a <= 18 ==> (spec_parse_int(s, i, s[i])->Ok_0.0 matches NumberInt::Int(x) && x == (if s[i] == 0x2d {
            -decimal_value(s.subrange(a, e))
        } else {
            decimal_value(s.subrange(a, e))
        })),
        e - a > 18 ==> spec_parse_int(s, i, s[i])->Ok_0.0 == NumberInt::BigInt(
            spec_big_int_from_digits(s[i] == 0x2d, Seq::new((e - a) as nat, |k: int| (s[a + k] - 0x30) as u8)),
        ),
{
    lemma_int_digits_value(s, a, e);
    lemma_digit_run_end(s, a + 1);
    if e - a <= 18 {
        lemma_value_of_digits_bound(int_digits(s[a], s, a, e));
        lemma_pow10_mono((e - a) as nat, 18);
        assert(pow10(18) == 1000000000000000000) by {
            reveal_with_fuel(pow10, 19);
        }
        let v = value_of_digits(int_digits(s[a], s, a, e)) as int;
        assert(0 <= v < 1000000000000000000);
        assert(v as i64 == v);
        assert((-v) as i64 == -v);
        assert(spec_parse_int(s, i, s[i]) == spec_int_unsigned(s, a, s[a], s[i] != 0x2d));
        if s[a] == 0x30 {
            assert(s.subrange(a, e) =~= seq![0x30u8]);
            assert(s.subrange(a, e).drop_last() =~= Seq::<u8>::empty());
            assert(decimal_value(Seq::<u8>::empty()) == 0);
            assert(s.subrange(a, e).last() == 0x30);
            assert(decimal_value(s.subrange(a, e)) == 0);
        } else {
            assert(digit_run_end(s, a + 1) == e);
            assert(spec_int_unsigned(s, a, s[a], s[i] != 0x2d) == Ok::<(NumberInt, usize), JsonError>(
                (NumberInt::Int((if s[i] != 0x2d { v } else { -v }) as i64), e as usize),
            ));
        }
    } else {
        assert(int_digits(s[a], s, a, e) =~= Seq::new((e - a) as nat, |k: int| (s[a + k] - 0x30) as u8));
    }
}

/// One or more ASCII digits.
pub open spec fn json_digits(t: Seq<u8>) -> bool {
    t.len() >= 1 && forall|k: int| 0 <= k < t.len() ==> 0x30 <= #[trigger] t[k] <= 0x39
}

/// The integer part of a JSON number (RFC 8259 `int`): digits, with no leading zero unless the
/// zero is all of it.
pub open spec fn json_int(t: Seq<u8>) -> bool {
    json_digits(t) && (t[0] == 0x30 ==> t.len() == 1)
}

/// The fraction of a JSON number (`frac`), which may be absent: `.` and digits.
pub open spec fn json_frac(t: Seq<u8>) -> bool {
    t.len() == 0 || (t[0] == 0x2e && json_digits(t.drop_first()))
}

/// The exponent of a JSON number (`exp`), which may be absent: `e` or `E`, an optional sign,
/// digits.
pub open spec fn json_exp(t: Seq<u8>) -> bool {
    t.len() == 0 || ((t[0] == 0x65 || t[0] == 0x45) && (json_digits(t.drop_first()) || (t.len() >= 2 && (t[1]
        == 0x2b || t[1] == 0x2d) && json_digits(t.subrange(2, t.len() as int)))))
}

/// Whether `t` is a JSON number (RFC 8259 `number`): an optional minus sign, an integer part,
/// an optional fraction, an optional exponent.
pub open spec fn json_number(t: Seq<u8>) -> bool {
    exists|a: int, j: int, k: int|
        (a == 0 || (a == 1 && t[0] == 0x2d)) && 0 <= a <= j <= k <= t.len() && json_int(#[trigger] t.subrange(a, j))
            && json_frac(#[trigger] t.subrange(j, k)) && json_exp(t.subrange(k, t.len() as int))
}

/// `s[x..y]` are all digits.
pub open spec fn digits_between(s: Seq<u8>, x: int, y: int) -> bool {
    forall|q: int| x <= q < y ==> 0x30 <= #[trigger] s[q] <= 0x39
}

/// A fraction in the input from `j` to `k`: `.` and digits.
pub open spec fn frac_part(s: Seq<u8>, j: int, k: int) -> bool {
    s[j] == 0x2e && j + 2 <= k && digits_between(s, j + 1, k)
}

/// An exponent in the input from `k` to `m`: `e` or `E`, an optional sign, digits.
pub open spec fn exp_part(s: Seq<u8>, k: int, m: int) -> bool {
    (s[k] == 0x65 || s[k] == 0x45) && ((k + 2 <= m && digits_between(s, k + 1, m)) || (k + 3 <= m && (s[k + 1]
        == 0x2b || s[k + 1] == 0x2d) && digits_between(s, k + 2, m)))
}

/// The parts of a JSON number in `s[i..m]`, in the input's positions: sign up to `a`, integer
/// part up to `j`, fraction up to `k`, exponent up to `m`.
pub open spec fn number_parts(s: Seq<u8>, i: int, a: int, j: int, k: int, m: int) -> bool {
    &&& 0 <= i <= a <= j <= k <= m <= s.len()
    &&& (a == i || (a == i + 1 && s[i] == 0x2d))
    &&& a < j && digits_between(s, a, j) && (s[a] == 0x30 ==> j == a + 1)
    &&& (k == j || frac_part(s, j, k))
    &&& (m == k || exp_part(s, k, m))
}

/// The parts of a JSON number in `s[i..m]`, found in the text, are its parts in the input.
#[verifier::spinoff_prover]
proof fn lemma_parts_of_number(s: Seq<u8>, i: int, m: int, a: int, j: int, k: int)
    requires
        0 <= i <= m <= s.len(),
        ({
            let t = s.subrange(i, m);
            (a == 0 || (a == 1 && t[0] == 0x2d)) && 0 <= a <= j <= k <= t.len() && json_int(t.subrange(a, j))
                && json_frac(t.subrange(j, k)) && json_exp(t.subrange(k, t.len() as int))
        }),
    ensures
        number_parts(s, i, i + a, i + j, i + k, m),
{
    let t = s.subrange(i, m);
    let ti = t.subrange(a, j);
    let tf = t.subrange(j, k);
    let te = t.subrange(k, t.len() as int);
    assert forall|q: int| i + a <= q < i + j implies 0x30 <= #[trigger] s[q] <= 0x39 by {
        assert(ti[q - i - a] == s[q]);
    }
    assert(ti[0] == s[i + a]);
    if a == 1 {
        assert(t[0] == s[i]);
    }
    if k > j {
        assert(tf[0] == s[i + j]);
        assert forall|q: int| i + j + 1 <= q < i + k implies 0x30 <= #[trigger] s[q] <= 0x39 by {
            assert(tf.drop_first()[q - i - j - 1] == s[q]);
        }
    }
    if m > i + k {
        assert(te[0] == s[i + k]);
        if json_digits(te.drop_first()) {
            assert forall|q: int| i + k + 1 <= q < m implies 0x30 <= #[trigger] s[q] <= 0x39 by {
                assert(te.drop_first()[q - i - k - 1] == s[q]);
            }
        } else {
            assert(te[1] == s[i + k + 1]);
            assert forall|q: int| i + k + 2 <= q < m implies 0x30 <= #[trigger] s[q] <= 0x39 by {
                assert(te.subrange(2, te.len() as int)[q - i - k - 2] == s[q]);
            }
        }
    }
}

/// Parts of a JSON number in the input make a JSON number of their text.
#[verifier::spinoff_prover]
proof fn lemma_number_of_parts(s: Seq<u8>, i: int, a: int, j: int, k: int, m: int)
    requires
        number_parts(s, i, a, j, k, m),
    ensures
        json_number(s.subrange(i, m)),
{
    let t = s.subrange(i, m);
    let ti = t.subrange(a - i, j - i);
    let tf = t.subrange(j - i, k - i);
    let te = t.subrange(k - i, t.len() as int);
    assert forall|q: int| 0 <= q < ti.len() implies 0x30 <= #[trigger] ti[q] <= 0x39 by {
        assert(ti[q] == s[a + q]);
    }
    assert(ti[0] == s[a]);
    if k > j {
        assert(tf[0] == s[j]);
        assert forall|q: int| 0 <= q < tf.drop_first().len() implies 0x30 <= #[trigger] tf.drop_first()[q] <= 0x39 by {
            assert(tf.drop_first()[q] == s[j + 1 + q]);
        }
    }
    if m > k {
        assert(te[0] == s[k]);
        if k + 2 <= m && digits_between(s, k + 1, m) {
            assert forall|q: int| 0 <= q < te.drop_first().len() implies 0x30 <= #[trigger] te.drop_first()[q] <= 0x39 by {
                assert(te.drop_first()[q] == s[k + 1 + q]);
            }
        } else {
            assert(te[1] == s[k + 1]);
            let u = te.subrange(2, te.len() as int);
            assert forall|q: int| 0 <= q < u.len() implies 0x30 <= #[trigger] u[q] <= 0x39 by {
                assert(u[q] == s[k + 2 + q]);
            }
        }
    } else {
        assert(te.len() == 0);
    }
    if a == i + 1 {
        assert(t[0] == s[i]);
    }
    assert(json_int(t.subrange(a - i, j - i)));
    assert(json_frac(t.subrange(j - i, k - i)));
    assert(json_exp(t.subrange(k - i, t.len() as int)));
}

/// A run of digits from `x` covers any digits that follow `x` up to `y`.
proof fn lemma_digit_run_covers(s: Seq<u8>, x: int, y: int)
    requires
        0 <= x <= y <= s.len(),
        digits_between(s, x, y),
    ensures
        digit_run_end(s, x) >= y,
    decreases y - x,
{
    lemma_digit_run_end(s, x);
    if x < y {
        assert(0x30 <= s[x] <= 0x39);
        assert(is_digit(s[x]));
        lemma_digit_run_covers(s, x + 1, y);
    }
}

/// The exponent read after the `e` or `E` at `k` is an exponent, and the longest one there.
proof fn lemma_exp_longest(s: Seq<u8>, k: int)
    requires
        0 <= k < s.len(),
        s.len() <= isize::MAX,
        s[k] == 0x65 || s[k] == 0x45,
    ensures
        spec_consume_exponential(s, k + 1) matches Ok(n) ==> {
            &&& exp_part(s, k, n as int)
            &&& n <= s.len()
            &&& forall|m: int| k <= m <= s.len() && #[trigger] exp_part(s, k, m) ==> m <= n
        },
{
    lemma_digit_run_end(s, k + 2);
    lemma_digit_run_end(s, k + 3);
    if let Ok(n) = spec_consume_exponential(s, k + 1) {
        assert forall|m: int| k <= m <= s.len() && #[trigger] exp_part(s, k, m) implies m <= n by {
            if k + 2 <= m && digits_between(s, k + 1, m) {
                lemma_digit_run_covers(s, k + 2, m);
            } else {
                lemma_digit_run_covers(s, k + 3, m);
            }
        }
    }
}

/// Where a fraction or exponent may follow an integer part that ends at `x`: what is read is
/// an optional fraction to where the digits after `.` end, then an optional exponent, and no
/// longer fraction and exponent follow `x`.
proof fn lemma_tail_longest(s: Seq<u8>, x: int)
    requires
        0 <= x <= s.len(),
        s.len() <= isize::MAX,
    ensures
        spec_number_tail(s, x) matches Ok((_, n)) ==> {
            let k = if x < s.len() && s[x] == 0x2e { digit_run_end(s, x + 2) } else { x };
            &&& x <= k <= n <= s.len()
            &&& (k == x || frac_part(s, x, k))
            &&& (n == k || exp_part(s, k, n as int))
            &&& forall|k2: int, m: int|
                x <= k2 <= m <= s.len() && (k2 == x || frac_part(s, x, k2)) && (m == k2 || #[trigger] exp_part(
                    s,
                    k2,
                    m,
                )) ==> m <= n
        },
{
    lemma_digit_run_end(s, x + 2);
    if x < s.len() && s[x] == 0x2e {
        let d = digit_run_end(s, x + 2);
        if d < s.len() && (s[d] == 0x65 || s[d] == 0x45) {
            lemma_exp_longest(s, d);
        }
        if let Ok((_, n)) = spec_number_tail(s, x) {
            assert forall|k2: int, m: int|
                x <= k2 <= m <= s.len() && (k2 == x || frac_part(s, x, k2)) && (m == k2 || #[trigger] exp_part(
                    s,
                    k2,
                    m,
                )) implies m <= n by {
                if k2 == x {
                    // an exponent cannot start at the `.`
                } else {
                    lemma_digit_run_covers(s, x + 2, k2);
                    if k2 < d {
                        assert(0x30 <= s[k2] <= 0x39);
                    }
                }
            }
        }
    } else if x < s.len() && (s[x] == 0x65 || s[x] == 0x45) {
        lemma_exp_longest(s, x);
    }
}

/// The integer part of a number after its sign at `a`: a lone zero, or the run of digits.
pub open spec fn int_part_end(s: Seq<u8>, a: int) -> int {
    if s[a] == 0x30 {
        a + 1
    } else {
        digit_run_end(s, a + 1)
    }
}

/// Reading a number that starts with a digit, or a minus sign and a digit, is reading the
/// fraction and exponent after its integer part.
#[verifier::spinoff_prover]
proof fn lemma_range_is_tail(s: Seq<u8>, i: int, allow_inf_nan: bool)
    requires
        0 <= i < s.len(),
        s.len() <= isize::MAX,
        0x30 <= s[i] <= 0x39 || (s[i] == 0x2d && i + 1 < s.len() && 0x30 <= s[i + 1] <= 0x39),
    ensures
        ({
            let a = if s[i] == 0x2d { i + 1 } else { i };
            let j = int_part_end(s, a);
            &&& a < j <= s.len()
            &&& digits_between(s, a, j)
            &&& (s[a] == 0x30 ==> j == a + 1)
            &&& (s[a] != 0x30 ==> (j < s.len() ==> !(0x30 <= s[j] <= 0x39)))
            &&& (spec_number_range(s, i, s[i], allow_inf_nan) is Ok ==> spec_number_range(s, i, s[i], allow_inf_nan)
                == spec_number_tail(s, j))
        }),
{
    let a = if s[i] == 0x2d { i + 1 } else { i };
    lemma_digit_run_end(s, a + 1);
}

/// Where reading a number succeeds, the text it read is a JSON number.
#[verifier::spinoff_prover]
proof fn lemma_number_extent_is_json_number(s: Seq<u8>, i: int, allow_inf_nan: bool)
    requires
        0 <= i < s.len(),
        s.len() <= isize::MAX,
        0x30 <= s[i] <= 0x39 || (s[i] == 0x2d && i + 1 < s.len() && 0x30 <= s[i + 1] <= 0x39),
        spec_number_range(s, i, s[i], allow_inf_nan) is Ok,
    ensures
        json_number(s.subrange(i, spec_number_range(s, i, s[i], allow_inf_nan)->Ok_0.1 as int)),
{
    lemma_range_is_tail(s, i, allow_inf_nan);
    let a = if s[i] == 0x2d { i + 1 } else { i };
    let j = int_part_end(s, a);
    lemma_tail_longest(s, j);
    let n = spec_number_range(s, i, s[i], allow_inf_nan)->Ok_0.1;
    let k = if j < s.len() && s[j] == 0x2e { digit_run_end(s, j + 2) } else { j };
    assert(number_parts(s, i, a, j, k, n as int));
    lemma_number_of_parts(s, i, a, j, k, n as int);
}

/// Where reading a number succeeds, no text from `i` longer than what it read is a JSON number.
#[verifier::spinoff_prover]
#[verifier::rlimit(30)]
proof fn lemma_no_longer_json_number(s: Seq<u8>, i: int, allow_inf_nan: bool, m: int)
    requires
        0 <= i < s.len(),
        s.len() <= isize::MAX,
        0x30 <= s[i] <= 0x39 || (s[i] == 0x2d && i + 1 < s.len() && 0x30 <= s[i + 1] <= 0x39),
        spec_number_range(s, i, s[i], allow_inf_nan) is Ok,
        spec_number_range(s, i, s[i], allow_inf_nan)->Ok_0.1 < m <= s.len(),
    ensures
        !json_number(s.subrange(i, m)),
{
    lemma_range_is_tail(s, i, allow_inf_nan);
    let a = if s[i] == 0x2d { i + 1 } else { i };
    let j = int_part_end(s, a);
    lemma_tail_longest(s, j);
    let n = spec_number_range(s, i, s[i], allow_inf_nan)->Ok_0.1;
    assert(spec_number_tail(s, j) is Ok);
    assert(j <= n);
    if json_number(s.subrange(i, m)) {
        let t = s.subrange(i, m);
        let (a2, j2, k2) = choose|a2: int, j2: int, k2: int|
            (a2 == 0 || (a2 == 1 && t[0] == 0x2d)) && 0 <= a2 <= j2 <= k2 <= t.len() && json_int(
                #[trigger] t.subrange(a2, j2),
            ) && json_frac(#[trigger] t.subrange(j2, k2)) && json_exp(t.subrange(k2, t.len() as int));
        lemma_parts_of_number(s, i, m, a2, j2, k2);
        let pj = i + j2;
        let pk = i + k2;
        assert(i + a2 == a);
        if s[a] != 0x30 {
            lemma_digit_run_covers(s, a + 1, pj);
        }
        if pj < j {
            assert(0x30 <= s[pj] <= 0x39);
            assert(pk == pj);
            assert(m == pk);
        } else {
            assert(pj == j);
            assert(j <= pk <= m <= s.len());
            assert(pk == j || frac_part(s, j, pk));
            assert(m == pk || exp_part(s, pk, m));
            assert(m <= n);
        }
    }
}

/// The extent of a number is the longest prefix of the input from `i` that is a JSON number
/// (RFC 8259): where reading a number that starts with a digit, or a minus sign and a digit,
/// succeeds, the text it reads is a JSON number, and no longer text from `i` is one.
pub proof fn lemma_number_extent_is_longest_json_number(s: Seq<u8>, i: int, allow_inf_nan: bool)
    requires
        0 <= i < s.len(),
        s.len() <= isize::MAX,
        0x30 <= s[i] <= 0x39 || (s[i] == 0x2d && i + 1 < s.len() && 0x30 <= s[i + 1] <= 0x39),
    ensures
        spec_number_range(s, i, s[i], allow_inf_nan) matches Ok((_, n)) ==> {
            &&& json_number(s.subrange(i, n as int))
            &&& forall|m: int| n < m <= s.len() ==> !json_number(#[trigger] s.subrange(i, m))
        },
{
    if spec_number_range(s, i, s[i], allow_inf_nan) is Ok {
        lemma_number_extent_is_json_number(s, i, allow_inf_nan);
        assert forall|m: int| spec_number_range(s, i, s[i], allow_inf_nan)->Ok_0.1 < m <= s.len() implies !json_number(
            #[trigger] s.subrange(i, m),
        ) by {
            lemma_no_longer_json_number(s, i, allow_inf_nan, m);
        }
    }
}

} // verus!
