//! The parser: a position in the input and the steps that move it past JSON tokens.
use vstd::prelude::*;

use crate::errors::{json_error, spec_find_position, JsonError, JsonErrorType, JsonResult, LinePosition};
use crate::number_decoder::AbstractNumberDecoder;
use crate::string_decoder::{AbstractStringDecoder, Tape};

verus! {

/// ASCII digit `0` to `9`.
pub open spec fn is_digit(b: u8) -> bool {
    0x30 <= b <= 0x39
}

/// The four bytes JSON treats as whitespace: space, carriage return, tab, line feed.
pub open spec fn is_ws(b: u8) -> bool {
    b == 0x20 || b == 0x0d || b == 0x09 || b == 0x0a
}

/// The first index at or after `i` that does not hold whitespace (or the end of the input).
pub open spec fn skip_ws(s: Seq<u8>, i: int) -> int
    decreases s.len() - i,
{
    if 0 <= i < s.len() && is_ws(s[i]) {
        skip_ws(s, i + 1)
    } else {
        i
    }
}

pub proof fn lemma_skip_ws(s: Seq<u8>, i: int)
    requires
        0 <= i,
    ensures
        i <= skip_ws(s, i),
        i <= s.len() ==> skip_ws(s, i) <= s.len(),
        i > s.len() ==> skip_ws(s, i) == i,
        skip_ws(s, i) < s.len() ==> !is_ws(s[skip_ws(s, i)]),
        forall|k: int| i <= k < skip_ws(s, i) ==> is_ws(#[trigger] s[k]),
    decreases s.len() - i,
{
    if 0 <= i < s.len() && is_ws(s[i]) {
        lemma_skip_ws(s, i + 1);
    }
}

/// Skipping whitespace moves past exactly the four whitespace bytes of JSON (RFC 8259): space,
/// tab, line feed and carriage return. Every byte it moves past is one of them, and it stops
/// only at the end of the input or at a byte that is none of them.
pub proof fn lemma_skip_ws_is_json_whitespace(s: Seq<u8>, i: int)
    requires
        0 <= i <= s.len(),
    ensures
        i <= skip_ws(s, i) <= s.len(),
        forall|k: int|
            i <= k < skip_ws(s, i) ==> (#[trigger] s[k] == 0x20u8 || s[k] == 0x09u8 || s[k] == 0x0au8 || s[k]
                == 0x0du8),
        skip_ws(s, i) < s.len() ==> !(s[skip_ws(s, i)] == 0x20u8 || s[skip_ws(s, i)] == 0x09u8 || s[skip_ws(
            s,
            i,
        )] == 0x0au8 || s[skip_ws(s, i)] == 0x0du8),
{
    lemma_skip_ws(s, i);
}

/// Finishing succeeds exactly when nothing but JSON whitespace (space, tab, line feed,
/// carriage return) follows.
pub proof fn lemma_finish_only_whitespace(s: Seq<u8>, i: int)
    requires
        0 <= i <= s.len(),
    ensures
        spec_finish(s, i) is Ok <==> forall|k: int|
            i <= k < s.len() ==> (#[trigger] s[k] == 0x20u8 || s[k] == 0x09u8 || s[k] == 0x0au8 || s[k]
                == 0x0du8),
{
    lemma_skip_ws_is_json_whitespace(s, i);
}

/// What the next value looks like, from its first byte.
///
/// The named variants are the bytes that open a literal, a string, an array, an object or a
/// signed or non-finite number; any other byte is kept as the character it encodes.
#[derive(Debug, Clone, Copy, PartialEq, Eq, Structural)]
pub enum Peek {
    Null,
    True,
    False,
    Minus,
    Infinity,
    NaN,
    String,
    Array,
    Object,
    Peek(char),
}

/// The peek for a first byte.
pub open spec fn peek_of(b: u8) -> Peek {
    // n t f - I N " [ {
    if b == 0x6e {
        Peek::Null
    } else if b == 0x74 {
        Peek::True
    } else if b == 0x66 {
        Peek::False
    } else if b == 0x2d {
        Peek::Minus
    } else if b == 0x49 {
        Peek::Infinity
    } else if b == 0x4e {
        Peek::NaN
    } else if b == 0x22 {
        Peek::String
    } else if b == 0x5b {
        Peek::Array
    } else if b == 0x7b {
        Peek::Object
    } else {
        Peek::Peek(b as char)
    }
}

/// The byte a peek stands for.
pub open spec fn peek_byte(p: Peek) -> u8 {
    match p {
        Peek::Null => 0x6e,
        Peek::True => 0x74,
        Peek::False => 0x66,
        Peek::Minus => 0x2d,
        Peek::Infinity => 0x49,
        Peek::NaN => 0x4e,
        Peek::String => 0x22,
        Peek::Array => 0x5b,
        Peek::Object => 0x7b,
        Peek::Peek(c) => c as u8,
    }
}

/// Whether the peek opens a number: a digit, a minus sign, `Infinity` or `NaN`.
pub open spec fn peek_is_num(p: Peek) -> bool {
    match p {
        Peek::Minus | Peek::Infinity | Peek::NaN => true,
        Peek::Peek(c) => '0' <= c <= '9',
        _ => false,
    }
}

pub proof fn lemma_peek_roundtrip(b: u8)
    ensures
        peek_byte(peek_of(b)) == b,
        peek_is_num(peek_of(b)) <==> (is_digit(b) || b == 0x2d || b == 0x49 || b == 0x4e),
{
    if !(b == 0x6e || b == 0x74 || b == 0x66 || b == 0x2d || b == 0x49 || b == 0x4e || b == 0x22
        || b == 0x5b || b == 0x7b) {
        assert((b as char) as u32 == b as u32);
    }
}

impl Peek {
    /// The peek for the byte `next`.
    pub fn new(next: u8) -> (r: Self)
        ensures
            r == peek_of(next),
    {
        if next == 0x6e {
            Peek::Null
        } else if next == 0x74 {
            Peek::True
        } else if next == 0x66 {
            Peek::False
        } else if next == 0x2d {
            Peek::Minus
        } else if next == 0x49 {
            Peek::Infinity
        } else if next == 0x4e {
            Peek::NaN
        } else if next == 0x22 {
            Peek::String
        } else if next == 0x5b {
            Peek::Array
        } else if next == 0x7b {
            Peek::Object
        } else {
            Peek::Peek(next as char)
        }
    }

    /// Whether the next value is a number.
    pub fn is_num(self) -> (r: bool)
        ensures
            r == peek_is_num(self),
    {
        match self {
            Peek::Minus | Peek::Infinity | Peek::NaN => true,
            Peek::Peek(c) => '0' <= c && c <= '9',
            _ => false,
        }
    }

    /// The byte this peek stands for.
    pub fn into_inner(self) -> (r: u8)
        ensures
            r == peek_byte(self),
    {
        match self {
            Peek::Null => 0x6e,
            Peek::True => 0x74,
            Peek::False => 0x66,
            Peek::Minus => 0x2d,
            Peek::Infinity => 0x49,
            Peek::NaN => 0x4e,
            Peek::String => 0x22,
            Peek::Array => 0x5b,
            Peek::Object => 0x7b,
            Peek::Peek(c) => c as u8,
        }
    }
}

/// The literals, by the bytes that follow their first.
pub enum Ident {
    True,
    False,
    Null,
    NaN,
    Infinity,
}

/// The bytes of a literal after its first byte.
pub open spec fn ident_rest(id: Ident) -> Seq<u8> {
    match id {
        Ident::True => seq![0x72u8, 0x75, 0x65],  // rue
        Ident::False => seq![0x61u8, 0x6c, 0x73, 0x65],  // alse
        Ident::Null => seq![0x75u8, 0x6c, 0x6c],  // ull
        Ident::NaN => seq![0x61u8, 0x4e],  // aN
        Ident::Infinity => seq![0x6eu8, 0x66, 0x69, 0x6e, 0x69, 0x74, 0x79],  // nfinity
    }
}

fn ident_rest_len(id: &Ident) -> (r: usize)
    ensures
        r == ident_rest(*id).len(),
{
    match id {
        Ident::True => 3,
        Ident::False => 4,
        Ident::Null => 3,
        Ident::NaN => 2,
        Ident::Infinity => 7,
    }
}

fn ident_rest_byte(id: &Ident, k: usize) -> (r: u8)
    requires
        k < ident_rest(*id).len(),
    ensures
        r == ident_rest(*id)[k as int],
{
    match id {
        Ident::True => if k == 0 {
            0x72
        } else if k == 1 {
            0x75
        } else {
            0x65
        },
        Ident::False => if k == 0 {
            0x61
        } else if k == 1 {
            0x6c
        } else if k == 2 {
            0x73
        } else {
            0x65
        },
        Ident::Null => if k == 0 {
            0x75
        } else {
            0x6c
        },
        Ident::NaN => if k == 0 {
            0x61
        } else {
            0x4e
        },
        Ident::Infinity => if k == 0 {
            0x6e
        } else if k == 1 {
            0x66
        } else if k == 2 {
            0x69
        } else if k == 3 {
            0x6e
        } else if k == 4 {
            0x69
        } else if k == 5 {
            0x74
        } else {
            0x79
        },
    }
}

/// How many bytes of `rest`, from its `k`-th on, the input matches after the literal's first
/// byte at `i`.
pub open spec fn ident_match_len(s: Seq<u8>, i: int, rest: Seq<u8>, k: int) -> int
    decreases rest.len() - k,
{
    if 0 <= k < rest.len() && 0 <= i + 1 + k < s.len() && s[i + 1 + k] == rest[k] {
        ident_match_len(s, i, rest, k + 1)
    } else {
        k
    }
}

proof fn lemma_ident_match_len(s: Seq<u8>, i: int, rest: Seq<u8>, k: int)
    requires
        0 <= k <= rest.len(),
        0 <= i,
    ensures
        k <= ident_match_len(s, i, rest, k) <= rest.len(),
        ident_match_len(s, i, rest, k) < rest.len() ==> (i + 1 + ident_match_len(s, i, rest, k)
            >= s.len() || s[i + 1 + ident_match_len(s, i, rest, k)] != rest[ident_match_len(
            s,
            i,
            rest,
            k,
        )]),
    decreases rest.len() - k,
{
    if 0 <= k < rest.len() && 0 <= i + 1 + k < s.len() && s[i + 1 + k] == rest[k] {
        lemma_ident_match_len(s, i, rest, k + 1);
    }
}

/// Consuming the literal whose first byte is at `i`: the index after it, or where and why it
/// fails to match.
pub open spec fn spec_consume_ident(s: Seq<u8>, i: int, rest: Seq<u8>) -> Result<usize, JsonError> {
    let m = ident_match_len(s, i, rest, 0);
    if m == rest.len() {
        Ok((i + rest.len() + 1) as usize)
    } else if i + 1 + m < s.len() {
        Err(json_error(JsonErrorType::ExpectedSomeIdent, i + 1 + m))
    } else {
        Err(json_error(JsonErrorType::EofWhileParsingValue, i + 1 + m))
    }
}

/// Consume the literal `id` whose first byte is at `index`, returning the index after it.
pub fn consume_ident(data: &[u8], index: usize, id: Ident) -> (r: JsonResult<usize>)
    requires
        index <= data.len() + 1,
        data.len() <= isize::MAX,
    ensures
        r == spec_consume_ident(data@, index as int, ident_rest(id)),
        r matches Ok(end) ==> end <= data.len(),
{
    let n = ident_rest_len(&id);
    let mut k: usize = 0;
    proof {
        lemma_ident_match_len(data@, index as int, ident_rest(id), 0);
    }
    while k < n && index + 1 + k < data.len() && data[index + 1 + k] == ident_rest_byte(&id, k)
        invariant
            n == ident_rest(id).len(),
            k <= n,
            k > 0 ==> index + k < data.len(),
            index <= data.len() + 1,
            data.len() <= isize::MAX,
            ident_match_len(data@, index as int, ident_rest(id), k as int) == ident_match_len(
                data@,
                index as int,
                ident_rest(id),
                0,
            ),
        decreases n - k,
    {
        k += 1;
    }
    proof {
        lemma_ident_match_len(data@, index as int, ident_rest(id), k as int);
    }
    if k == n {
        Ok(index + n + 1)
    } else if index + 1 + k < data.len() {
        Err(JsonError::new(JsonErrorType::ExpectedSomeIdent, index + 1 + k))
    } else {
        Err(JsonError::new(JsonErrorType::EofWhileParsingValue, index + 1 + k))
    }
}

/// Consume `Infinity` whose `I` is at `index`.
pub fn consume_infinity(data: &[u8], index: usize) -> (r: JsonResult<usize>)
    requires
        index <= data.len() + 1,
        data.len() <= isize::MAX,
    ensures
        r == spec_consume_ident(data@, index as int, ident_rest(Ident::Infinity)),
        r matches Ok(end) ==> end <= data.len(),
{
    consume_ident(data, index, Ident::Infinity)
}

/// Consume `NaN` whose first `N` is at `index`.
pub fn consume_nan(data: &[u8], index: usize) -> (r: JsonResult<usize>)
    requires
        index <= data.len() + 1,
        data.len() <= isize::MAX,
    ensures
        r == spec_consume_ident(data@, index as int, ident_rest(Ident::NaN)),
        r matches Ok(end) ==> end <= data.len(),
{
    consume_ident(data, index, Ident::NaN)
}

/// The next byte after any whitespace from `i`, if there is one.
pub open spec fn next_byte(s: Seq<u8>, i: int) -> Option<u8> {
    let j = skip_ws(s, i);
    if 0 <= j < s.len() {
        Some(s[j])
    } else {
        None
    }
}

/// Peeking at the value after any whitespace from `i`.
pub open spec fn spec_peek(s: Seq<u8>, i: int) -> Result<Peek, JsonError> {
    let j = skip_ws(s, i);
    if j < s.len() {
        Ok(peek_of(s[j]))
    } else {
        Err(json_error(JsonErrorType::EofWhileParsingValue, j))
    }
}

/// Entering the array whose `[` is at `i`: a peek at its first value (`None` if it is empty),
/// and where the parser then stands.
pub open spec fn spec_array_first(s: Seq<u8>, i: int) -> (Result<Option<Peek>, JsonError>, int) {
    let j = skip_ws(s, i + 1);
    if j < s.len() {
        if s[j] == 0x5d {
            (Ok(None), j + 1)
        } else {
            (Ok(Some(peek_of(s[j]))), j)
        }
    } else {
        (Err(json_error(JsonErrorType::EofWhileParsingList, j)), j)
    }
}

/// Moving past a value in an array, from `i`: a peek at the next value (`None` at the end of the
/// array), and where the parser then stands.
pub open spec fn spec_array_step(s: Seq<u8>, i: int) -> (Result<Option<Peek>, JsonError>, int) {
    let j = skip_ws(s, i);
    if j < s.len() {
        if s[j] == 0x2c {
            let k = skip_ws(s, j + 1);
            if k < s.len() {
                if s[k] == 0x5d {
                    (Err(json_error(JsonErrorType::TrailingComma, k)), k)
                } else {
                    (Ok(Some(peek_of(s[k]))), k)
                }
            } else {
                (Err(json_error(JsonErrorType::EofWhileParsingValue, k)), k)
            }
        } else if s[j] == 0x5d {
            (Ok(None), j + 1)
        } else {
            (Err(json_error(JsonErrorType::ExpectedListCommaOrEnd, j)), j)
        }
    } else {
        (Err(json_error(JsonErrorType::EofWhileParsingList, j)), j)
    }
}

/// After an object key that ends before `n`: the colon, and where the parser then stands.
pub open spec fn spec_after_key(s: Seq<u8>, n: int) -> (Result<(), JsonError>, int) {
    let k = skip_ws(s, n);
    if k < s.len() {
        if s[k] == 0x3a {
            (Ok(()), k + 1)
        } else {
            (Err(json_error(JsonErrorType::ExpectedColon, k)), k)
        }
    } else {
        (Err(json_error(JsonErrorType::EofWhileParsingObject, k)), k)
    }
}

/// Whether `r` and `end` are what reading the object key whose opening quote is at `j` gives:
/// the key decoded by `D`, then the colon; `end` is where the parser then stands.
pub open spec fn key_outcome<'t, 'j, D: AbstractStringDecoder<'t, 'j>>(
    s: Seq<u8>,
    j: int,
    r: JsonResult<Option<D::Output>>,
    end: int,
) -> bool {
    match D::spec_next(s, j, false) {
        Err(e) => r == Err::<Option<D::Output>, JsonError>(e) && end == j,
        Ok(n) => {
            &&& end == spec_after_key(s, n as int).1
            &&& match spec_after_key(s, n as int).0 {
                Err(e) => r == Err::<Option<D::Output>, JsonError>(e),
                Ok(_) => r matches Ok(Some(o)) && D::spec_output(s, j, false, o),
            }
        },
    }
}

/// Whether `r` and `end` are what entering the object whose `{` is at `i` gives: its first key
/// (`None` if it is empty), and where the parser then stands.
pub open spec fn object_first_outcome<'t, 'j, D: AbstractStringDecoder<'t, 'j>>(
    s: Seq<u8>,
    i: int,
    r: JsonResult<Option<D::Output>>,
    end: int,
) -> bool {
    let j = skip_ws(s, i + 1);
    if j < s.len() {
        if s[j] == 0x22 {
            key_outcome::<D>(s, j, r, end)
        } else if s[j] == 0x7d {
            r == Ok::<Option<D::Output>, JsonError>(None) && end == j + 1
        } else {
            r == Err::<Option<D::Output>, JsonError>(json_error(JsonErrorType::KeyMustBeAString, j))
                && end == j
        }
    } else {
        r == Err::<Option<D::Output>, JsonError>(json_error(JsonErrorType::EofWhileParsingObject, j))
            && end == j
    }
}

/// Whether `r` and `end` are what moving past a value in an object, from `i`, gives: the next
/// key (`None` at the end of the object), and where the parser then stands.
pub open spec fn object_step_outcome<'t, 'j, D: AbstractStringDecoder<'t, 'j>>(
    s: Seq<u8>,
    i: int,
    r: JsonResult<Option<D::Output>>,
    end: int,
) -> bool {
    let j = skip_ws(s, i);
    if j < s.len() {
        if s[j] == 0x2c {
            let k = skip_ws(s, j + 1);
            if k < s.len() {
                if s[k] == 0x22 {
                    key_outcome::<D>(s, k, r, end)
                } else if s[k] == 0x7d {
                    r == Err::<Option<D::Output>, JsonError>(
                        json_error(JsonErrorType::TrailingComma, k),
                    ) && end == k
                } else {
                    r == Err::<Option<D::Output>, JsonError>(
                        json_error(JsonErrorType::KeyMustBeAString, k),
                    ) && end == k
                }
            } else {
                r == Err::<Option<D::Output>, JsonError>(
                    json_error(JsonErrorType::EofWhileParsingValue, k),
                ) && end == k
            }
        } else if s[j] == 0x7d {
            r == Ok::<Option<D::Output>, JsonError>(None) && end == j + 1
        } else {
            r == Err::<Option<D::Output>, JsonError>(
                json_error(JsonErrorType::ExpectedObjectCommaOrEnd, j),
            ) && end == j
        }
    } else {
        r == Err::<Option<D::Output>, JsonError>(json_error(JsonErrorType::EofWhileParsingObject, j))
            && end == j
    }
}

/// Finishing: nothing but whitespace may follow from `i`.
pub open spec fn spec_finish(s: Seq<u8>, i: int) -> Result<(), JsonError> {
    let j = skip_ws(s, i);
    if j < s.len() {
        Err(json_error(JsonErrorType::TrailingCharacters, j))
    } else {
        Ok(())
    }
}

/// A position in JSON input, and the steps that move it past the input's tokens.
#[derive(Debug, Clone)]
pub struct Parser<'j> {
    pub data: &'j [u8],
    pub index: usize,
}

impl<'j> Parser<'j> {
    /// The input fits in an `isize`, and the position is at most one past its end.
    pub open spec fn wf(&self) -> bool {
        &&& self.data.len() <= isize::MAX
        &&& self.index <= self.data.len() + 1
    }

    /// A parser at the start of `data`.
    pub fn new(data: &'j [u8]) -> (r: Self)
        requires
            data.len() <= isize::MAX,
        ensures
            r.data == data,
            r.index == 0,
            r.wf(),
    {
        Parser { data, index: 0 }
    }

    /// The line and column of the current position.
    pub fn current_position(&self) -> (r: LinePosition)
        requires
            self.wf(),
        ensures
            r == spec_find_position(self.data@, self.index as int),
    {
        LinePosition::find(self.data, self.index)
    }

    /// Move past whitespace, returning the byte that follows, if any.
    fn eat_whitespace(&mut self) -> (r: Option<u8>)
        requires
            old(self).wf(),
        ensures
            final(self).wf(),
            final(self).data == old(self).data,
            final(self).index == skip_ws(old(self).data@, old(self).index as int),
            r == next_byte(old(self).data@, old(self).index as int),
            r is Some ==> final(self).index < final(self).data.len(),
    {
        proof {
            lemma_skip_ws(self.data@, self.index as int);
        }
        while self.index < self.data.len()
            invariant
                self.wf(),
                self.data == old(self).data,
                old(self).index <= self.index,
                skip_ws(self.data@, self.index as int) == skip_ws(
                    self.data@,
                    old(self).index as int,
                ),
            decreases self.data.len() - self.index,
        {
            let b = self.data[self.index];
            if b == 0x20 || b == 0x0d || b == 0x09 || b == 0x0a {
                self.index += 1;
            } else {
                return Some(b);
            }
        }
        None
    }

    /// Peek at the next value after any whitespace.
    pub fn peek(&mut self) -> (r: JsonResult<Peek>)
        requires
            old(self).wf(),
        ensures
            final(self).wf(),
            final(self).data == old(self).data,
            final(self).index == skip_ws(old(self).data@, old(self).index as int),
            r == spec_peek(old(self).data@, old(self).index as int),
    {
        match self.eat_whitespace() {
            Some(next) => Ok(Peek::new(next)),
            None => Err(JsonError::new(JsonErrorType::EofWhileParsingValue, self.index)),
        }
    }

    /// Enter the array whose `[` is at the current position, peeking at its first value.
    pub fn array_first(&mut self) -> (r: JsonResult<Option<Peek>>)
        requires
            old(self).wf(),
            old(self).index < old(self).data.len(),
        ensures
            final(self).wf(),
            final(self).data == old(self).data,
            (r, final(self).index as int) == spec_array_first(old(self).data@, old(self).index as int),
    {
        self.index += 1;
        match self.eat_whitespace() {
            Some(next) => if next == 0x5d {
                self.index += 1;
                Ok(None)
            } else {
                Ok(Some(Peek::new(next)))
            },
            None => Err(JsonError::new(JsonErrorType::EofWhileParsingList, self.index)),
        }
    }

    /// Move past the value just read in an array, peeking at the next one.
    pub fn array_step(&mut self) -> (r: JsonResult<Option<Peek>>)
        requires
            old(self).wf(),
        ensures
            final(self).wf(),
            final(self).data == old(self).data,
            (r, final(self).index as int) == spec_array_step(old(self).data@, old(self).index as int),
    {
        match self.eat_whitespace() {
            Some(next) => if next == 0x2c {
                self.index += 1;
                match self.eat_whitespace() {
                    Some(next) => if next == 0x5d {
                        Err(JsonError::new(JsonErrorType::TrailingComma, self.index))
                    } else {
                        Ok(Some(Peek::new(next)))
                    },
                    None => Err(JsonError::new(JsonErrorType::EofWhileParsingValue, self.index)),
                }
            } else if next == 0x5d {
                self.index += 1;
                Ok(None)
            } else {
                Err(JsonError::new(JsonErrorType::ExpectedListCommaOrEnd, self.index))
            },
            None => Err(JsonError::new(JsonErrorType::EofWhileParsingList, self.index)),
        }
    }

    /// Read the object key whose opening quote is at the current position, and the colon after
    /// it.
    fn object_key<'t, D: AbstractStringDecoder<'t, 'j>>(&mut self, tape: &'t mut Tape) -> (r:
        JsonResult<Option<D::Output>>)
        requires
            old(self).wf(),
            old(self).index < old(self).data.len(),
        ensures
            final(self).wf(),
            final(self).data == old(self).data,
            key_outcome::<D>(old(self).data@, old(self).index as int, r, final(self).index as int),
    {
        match D::decode(self.data, self.index, tape, false) {
            Ok((output, index)) => {
                self.index = index;
                match self.eat_whitespace() {
                    Some(next) => if next == 0x3a {
                        self.index += 1;
                        Ok(Some(output))
                    } else {
                        Err(JsonError::new(JsonErrorType::ExpectedColon, self.index))
                    },
                    None => Err(JsonError::new(JsonErrorType::EofWhileParsingObject, self.index)),
                }
            },
            Err(e) => Err(e),
        }
    }

    /// Enter the object whose `{` is at the current position, reading its first key.
    pub fn object_first<'t, D: AbstractStringDecoder<'t, 'j>>(&mut self, tape: &'t mut Tape) -> (r:
        JsonResult<Option<D::Output>>)
        requires
            old(self).wf(),
            old(self).index < old(self).data.len(),
        ensures
            final(self).wf(),
            final(self).data == old(self).data,
            object_first_outcome::<D>(
                old(self).data@,
                old(self).index as int,
                r,
                final(self).index as int,
            ),
    {
        self.index += 1;
        match self.eat_whitespace() {
            Some(next) => if next == 0x22 {
                self.object_key::<D>(tape)
            } else if next == 0x7d {
                self.index += 1;
                Ok(None)
            } else {
                Err(JsonError::new(JsonErrorType::KeyMustBeAString, self.index))
            },
            None => Err(JsonError::new(JsonErrorType::EofWhileParsingObject, self.index)),
        }
    }

    /// Move past the value just read in an object, reading the next key.
    pub fn object_step<'t, D: AbstractStringDecoder<'t, 'j>>(&mut self, tape: &'t mut Tape) -> (r:
        JsonResult<Option<D::Output>>)
        requires
            old(self).wf(),
        ensures
            final(self).wf(),
            final(self).data == old(self).data,
            object_step_outcome::<D>(
                old(self).data@,
                old(self).index as int,
                r,
                final(self).index as int,
            ),
    {
        match self.eat_whitespace() {
            Some(next) => if next == 0x2c {
                self.index += 1;
                match self.eat_whitespace() {
                    Some(next) => if next == 0x22 {
                        self.object_key::<D>(tape)
                    } else if next == 0x7d {
                        Err(JsonError::new(JsonErrorType::TrailingComma, self.index))
                    } else {
                        Err(JsonError::new(JsonErrorType::KeyMustBeAString, self.index))
                    },
                    None => Err(JsonError::new(JsonErrorType::EofWhileParsingValue, self.index)),
                }
            } else if next == 0x7d {
                self.index += 1;
                Ok(None)
            } else {
                Err(JsonError::new(JsonErrorType::ExpectedObjectCommaOrEnd, self.index))
            },
            None => Err(JsonError::new(JsonErrorType::EofWhileParsingObject, self.index)),
        }
    }

    /// Check that only whitespace is left.
    pub fn finish(&mut self) -> (r: JsonResult<()>)
        requires
            old(self).wf(),
        ensures
            final(self).wf(),
            final(self).data == old(self).data,
            final(self).index == skip_ws(old(self).data@, old(self).index as int),
            r == spec_finish(old(self).data@, old(self).index as int),
    {
        match self.eat_whitespace() {
            Some(_) => Err(JsonError::new(JsonErrorType::TrailingCharacters, self.index)),
            None => Ok(()),
        }
    }

    fn consume_literal(&mut self, id: Ident) -> (r: JsonResult<()>)
        requires
            old(self).wf(),
        ensures
            final(self).wf(),
            final(self).data == old(self).data,
            match spec_consume_ident(old(self).data@, old(self).index as int, ident_rest(id)) {
                Ok(end) => r is Ok && final(self).index == end,
                Err(e) => r == Err::<(), JsonError>(e) && final(self).index == old(self).index,
            },
    {
        match consume_ident(self.data, self.index, id) {
            Ok(end) => {
                self.index = end;
                Ok(())
            },
            Err(e) => Err(e),
        }
    }

    /// Consume `true`, whose first byte is at the current position.
    pub fn consume_true(&mut self) -> (r: JsonResult<()>)
        requires
            old(self).wf(),
        ensures
            final(self).wf(),
            final(self).data == old(self).data,
            match spec_consume_ident(old(self).data@, old(self).index as int, ident_rest(Ident::True)) {
                Ok(end) => r is Ok && final(self).index == end,
                Err(e) => r == Err::<(), JsonError>(e) && final(self).index == old(self).index,
            },
    {
        self.consume_literal(Ident::True)
    }

    /// Consume `false`, whose first byte is at the current position.
    pub fn consume_false(&mut self) -> (r: JsonResult<()>)
        requires
            old(self).wf(),
        ensures
            final(self).wf(),
            final(self).data == old(self).data,
            match spec_consume_ident(old(self).data@, old(self).index as int, ident_rest(Ident::False)) {
                Ok(end) => r is Ok && final(self).index == end,
                Err(e) => r == Err::<(), JsonError>(e) && final(self).index == old(self).index,
            },
    {
        self.consume_literal(Ident::False)
    }

    /// Consume `null`, whose first byte is at the current position.
    pub fn consume_null(&mut self) -> (r: JsonResult<()>)
        requires
            old(self).wf(),
        ensures
            final(self).wf(),
            final(self).data == old(self).data,
            match spec_consume_ident(old(self).data@, old(self).index as int, ident_rest(Ident::Null)) {
                Ok(end) => r is Ok && final(self).index == end,
                Err(e) => r == Err::<(), JsonError>(e) && final(self).index == old(self).index,
            },
    {
        self.consume_literal(Ident::Null)
    }

    /// Decode the string whose opening quote is at the current position, moving past it.
    pub fn consume_string<'t, D: AbstractStringDecoder<'t, 'j>>(
        &mut self,
        tape: &'t mut Tape,
        allow_partial: bool,
    ) -> (r: JsonResult<D::Output>)
        requires
            old(self).wf(),
            allow_partial ==> old(self).index < old(self).data.len(),
        ensures
            final(self).wf(),
            final(self).data == old(self).data,
            match D::spec_next(old(self).data@, old(self).index as int, allow_partial) {
                Ok(n) => r matches Ok(o) && D::spec_output(
                    old(self).data@,
                    old(self).index as int,
                    allow_partial,
                    o,
                ) && final(self).index == n && old(self).index < n,
                Err(e) => r == Err::<D::Output, JsonError>(e) && final(self).index == old(
                    self,
                ).index,
            },
    {
        match D::decode(self.data, self.index, tape, allow_partial) {
            Ok((output, index)) => {
                self.index = index;
                Ok(output)
            },
            Err(e) => Err(e),
        }
    }

    /// Decode the number whose first byte, `first`, is at the current position, moving past it.
    pub fn consume_number<D: AbstractNumberDecoder>(&mut self, first: u8, allow_inf_nan: bool) -> (r:
        JsonResult<D>)
        requires
            old(self).wf(),
            old(self).index < old(self).data.len(),
        ensures
            final(self).wf(),
            final(self).data == old(self).data,
            match D::spec_next(old(self).data@, old(self).index as int, first, allow_inf_nan) {
                Ok(n) => r matches Ok(o) && D::spec_output(
                    old(self).data@,
                    old(self).index as int,
                    first,
                    allow_inf_nan,
                    o,
                ) && final(self).index == n && old(self).index < n <= old(self).data.len(),
                Err(e) => r == Err::<D, JsonError>(e) && final(self).index == old(self).index,
            },
    {
        match D::decode(self.data, self.index, first, allow_inf_nan) {
            Ok((output, index)) => {
                self.index = index;
                Ok(output)
            },
            Err(e) => Err(e),
        }
    }
}

} // verus!
