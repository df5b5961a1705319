//! The iterator: reading a JSON document one value, key or element at a time.
use vstd::prelude::*;
use vstd::string::*;

use crate::errors::{
    json_error, spec_description, spec_find_position, spec_jiter_error_from,
    spec_jiter_error_type_message, spec_wrong_type, JiterError, JiterErrorType, JsonError,
    JsonErrorType, JsonResult, JsonType, LinePosition, DEFAULT_RECURSION_LIMIT,
};
use crate::number_decoder::{
    spec_number_range, spec_parse_int, AbstractNumberDecoder, NumberInt, NumberRange,
};
use crate::parse::{
    ident_rest, lemma_peek_roundtrip, lemma_skip_ws, peek_byte, peek_is_num, peek_of, skip_ws, spec_after_key,
    spec_array_first, spec_array_step, spec_consume_ident, spec_finish, spec_peek, Ident, Parser,
    Peek,
};
use crate::value_tree::{spec_value, take_value, tree_view, PartialMode, ValueTree};
use crate::string_decoder::{
    spec_decode_str, spec_range_content, AbstractStringDecoder, StringDecoder, StringDecoderRange,
    Tape,
};
use crate::value::{spec_skip_walk, take_value_skip};

verus! {

pub type JiterResult<T> = Result<T, JiterError>;

/// A parser error as an iterator error.
pub open spec fn lift<T>(r: JsonResult<T>) -> JiterResult<T> {
    match r {
        Ok(v) => Ok(v),
        Err(e) => Err(spec_jiter_error_from(e)),
    }
}

/// The error for a value whose peek is `peek`, at `i`, where one of type `expected` was wanted:
/// its actual type, a number classified by decoding it; a malformed number's own error; or
/// `ExpectedSomeValue` where no value starts.
pub open spec fn spec_wrong_type_at(
    s: Seq<u8>,
    i: int,
    expected: JsonType,
    peek: Peek,
    allow_inf_nan: bool,
) -> JiterError {
    match peek {
        Peek::True | Peek::False => spec_wrong_type(expected, JsonType::Bool, i),
        Peek::Null => spec_wrong_type(expected, JsonType::Null, i),
        Peek::String => spec_wrong_type(expected, JsonType::String, i),
        Peek::Array => spec_wrong_type(expected, JsonType::Array, i),
        Peek::Object => spec_wrong_type(expected, JsonType::Object, i),
        _ => if peek_is_num(peek) {
            match spec_number_range(s, i, peek_byte(peek), allow_inf_nan) {
                Ok((true, _)) => spec_wrong_type(expected, JsonType::Int, i),
                Ok((false, _)) => spec_wrong_type(expected, JsonType::Float, i),
                Err(e) => spec_jiter_error_from(e),
            }
        } else {
            spec_jiter_error_from(json_error(JsonErrorType::ExpectedSomeValue, i))
        },
    }
}

/// The error for a number that failed to decode with `e`: `e` itself if the peek opens a
/// number, otherwise the wrong-type error.
pub open spec fn spec_number_error_at(
    s: Seq<u8>,
    i: int,
    e: JsonError,
    expected: JsonType,
    peek: Peek,
    allow_inf_nan: bool,
) -> JiterError {
    if peek_is_num(peek) {
        spec_jiter_error_from(e)
    } else {
        spec_wrong_type_at(s, i, expected, peek, allow_inf_nan)
    }
}

/// Reading an object key whose opening quote is at `j` as text, then its colon: the key's UTF-8
/// bytes, and where the parser then stands.
pub open spec fn spec_key_str(s: Seq<u8>, j: int) -> (Result<Seq<u8>, JsonError>, int) {
    match spec_decode_str(s, j, false) {
        Err(e) => (Err(e), j),
        Ok((b, _, n)) => match spec_after_key(s, n as int) {
            (Ok(_), k) => (Ok(b), k),
            (Err(e), k) => (Err(e), k),
        },
    }
}

/// Reading an object key whose opening quote is at `j` as a range of the input, then its
/// colon: the range, and where the parser then stands.
pub open spec fn spec_key_range(s: Seq<u8>, j: int) -> (Result<(int, int), JsonError>, int) {
    match spec_range_content(s, j + 1, false) {
        Err(e) => (Err(e), j),
        Ok((end, n)) => match spec_after_key(s, n as int) {
            (Ok(_), k) => (Ok((j + 1, end as int)), k),
            (Err(e), k) => (Err(e), k),
        },
    }
}

/// Entering the object whose `{` is at `i`: where its first key starts (`None` if it is empty),
/// or the error, and where the parser stands if there is no key.
pub open spec fn spec_object_open(s: Seq<u8>, i: int) -> (Result<Option<int>, JsonError>, int) {
    let j = skip_ws(s, i + 1);
    if j < s.len() {
        if s[j] == 0x22 {
            (Ok(Some(j)), j)
        } else if s[j] == 0x7d {
            (Ok(None), j + 1)
        } else {
            (Err(json_error(JsonErrorType::KeyMustBeAString, j)), j)
        }
    } else {
        (Err(json_error(JsonErrorType::EofWhileParsingObject, j)), j)
    }
}

/// Moving past a value in an object, from `i`: where the next key starts (`None` at the end of
/// the object), or the error, and where the parser stands if there is no key.
pub open spec fn spec_object_next(s: Seq<u8>, i: int) -> (Result<Option<int>, JsonError>, int) {
    let j = skip_ws(s, i);
    if j < s.len() {
        if s[j] == 0x2c {
            let k = skip_ws(s, j + 1);
            if k < s.len() {
                if s[k] == 0x22 {
                    (Ok(Some(k)), k)
                } else if s[k] == 0x7d {
                    (Err(json_error(JsonErrorType::TrailingComma, k)), k)
                } else {
                    (Err(json_error(JsonErrorType::KeyMustBeAString, k)), k)
                }
            } else {
                (Err(json_error(JsonErrorType::EofWhileParsingValue, k)), k)
            }
        } else if s[j] == 0x7d {
            (Ok(None), j + 1)
        } else {
            (Err(json_error(JsonErrorType::ExpectedObjectCommaOrEnd, j)), j)
        }
    } else {
        (Err(json_error(JsonErrorType::EofWhileParsingObject, j)), j)
    }
}

/// Whether `r` and `end` are what reading an object key as text gives, where `key` says where the
/// key starts (from [`spec_object_open`] or [`spec_object_next`]).
pub open spec fn key_str_outcome(
    s: Seq<u8>,
    key: (Result<Option<int>, JsonError>, int),
    r: JiterResult<Option<&str>>,
    end: int,
) -> bool {
    match key.0 {
        Err(e) => r == Err::<Option<&str>, JiterError>(spec_jiter_error_from(e)) && end == key.1,
        Ok(None) => r == Ok::<Option<&str>, JiterError>(None) && end == key.1,
        Ok(Some(j)) => match spec_key_str(s, j) {
            (Ok(b), k) => r matches Ok(Some(t)) && t.spec_bytes() == b && end == k,
            (Err(e), k) => r == Err::<Option<&str>, JiterError>(spec_jiter_error_from(e)) && end
                == k,
        },
    }
}

/// Whether `r` and `end` are what reading an object key as bytes of the input gives.
pub open spec fn key_bytes_outcome(
    s: Seq<u8>,
    key: (Result<Option<int>, JsonError>, int),
    r: JiterResult<Option<&[u8]>>,
    end: int,
) -> bool {
    match key.0 {
        Err(e) => r == Err::<Option<&[u8]>, JiterError>(spec_jiter_error_from(e)) && end == key.1,
        Ok(None) => r == Ok::<Option<&[u8]>, JiterError>(None) && end == key.1,
        Ok(Some(j)) => match spec_key_range(s, j) {
            (Ok((a, b)), k) => r matches Ok(Some(t)) && t@ == s.subrange(a, b) && end == k,
            (Err(e), k) => r == Err::<Option<&[u8]>, JiterError>(spec_jiter_error_from(e))
                && end == k,
        },
    }
}

/// A JSON iterator over `data`.
#[derive(Debug)]
pub struct Jiter<'j> {
    data: &'j [u8],
    parser: Parser<'j>,
    tape: Tape,
    allow_inf_nan: bool,
    allow_partial_strings: bool,
}

impl<'j> Jiter<'j> {
    /// The input.
    pub closed spec fn spec_data(&self) -> Seq<u8> {
        self.data@
    }

    /// The current position in the input.
    pub closed spec fn spec_index(&self) -> usize {
        self.parser.index
    }

    /// Whether `NaN`, `Infinity` and `-Infinity` are accepted as numbers.
    pub closed spec fn spec_allow_inf_nan(&self) -> bool {
        self.allow_inf_nan
    }

    /// Whether a string that the input cuts short is accepted up to where it ends.
    pub closed spec fn spec_allow_partial_strings(&self) -> bool {
        self.allow_partial_strings
    }

    /// The parser reads this iterator's input, which fits in an `isize`.
    pub closed spec fn wf(&self) -> bool {
        &&& self.parser.wf()
        &&& self.parser.data == self.data
    }

    /// Whether `after` is this iterator with only its position changed, to `index`.
    pub open spec fn moved_to(&self, after: Self, index: int) -> bool {
        &&& after.wf()
        &&& after.spec_data() == self.spec_data()
        &&& after.spec_allow_inf_nan() == self.spec_allow_inf_nan()
        &&& after.spec_allow_partial_strings() == self.spec_allow_partial_strings()
        &&& after.spec_index() == index
    }

    /// Whether `after` is this iterator with at most its position changed.
    pub open spec fn kept(&self, after: Self) -> bool {
        &&& after.wf()
        &&& after.spec_data() == self.spec_data()
        &&& after.spec_allow_inf_nan() == self.spec_allow_inf_nan()
        &&& after.spec_allow_partial_strings() == self.spec_allow_partial_strings()
    }

    /// An iterator at the start of `data`, accepting neither non-finite numbers nor partial
    /// strings.
    pub fn new(data: &'j [u8]) -> (r: Self)
        requires
            data.len() <= isize::MAX,
        ensures
            r.wf(),
            r.spec_data() == data@,
            r.spec_index() == 0,
            !r.spec_allow_inf_nan(),
            !r.spec_allow_partial_strings(),
    {
        Jiter {
            data,
            parser: Parser::new(data),
            tape: Vec::new(),
            allow_inf_nan: false,
            allow_partial_strings: false,
        }
    }

    /// This iterator, accepting `NaN`, `Infinity` and `-Infinity` as numbers.
    pub fn with_allow_inf_nan(self) -> (r: Self)
        requires
            self.wf(),
        ensures
            r.wf(),
            r.spec_data() == self.spec_data(),
            r.spec_index() == self.spec_index(),
            r.spec_allow_inf_nan(),
            r.spec_allow_partial_strings() == self.spec_allow_partial_strings(),
    {
        let mut j = self;
        j.allow_inf_nan = true;
        j
    }

    /// This iterator, accepting a string that the input cuts short up to where it ends.
    pub fn with_allow_partial_strings(self) -> (r: Self)
        requires
            self.wf(),
        ensures
            r.wf(),
            r.spec_data() == self.spec_data(),
            r.spec_index() == self.spec_index(),
            r.spec_allow_inf_nan() == self.spec_allow_inf_nan(),
            r.spec_allow_partial_strings(),
    {
        let mut j = self;
        j.allow_partial_strings = true;
        j
    }

    /// The line and column of the current position.
    pub fn current_position(&self) -> (r: LinePosition)
        requires
            self.wf(),
        ensures
            r == spec_find_position(self.spec_data(), self.spec_index() as int),
    {
        self.parser.current_position()
    }

    /// The current position.
    pub fn current_index(&self) -> (r: usize)
        ensures
            r == self.spec_index(),
    {
        self.parser.index
    }

    /// The input from `start` to the current position.
    pub fn slice_to_current(&self, start: usize) -> (r: &'j [u8])
        requires
            self.wf(),
            start <= self.spec_index() <= self.spec_data().len(),
        ensures
            r@ == self.spec_data().subrange(start as int, self.spec_index() as int),
    {
        &self.data[start..self.parser.index]
    }

    /// The line and column of `index` in the input.
    pub fn error_position(&self, index: usize) -> (r: LinePosition)
        requires
            self.wf(),
        ensures
            r == spec_find_position(self.spec_data(), index as int),
    {
        LinePosition::find(self.data, index)
    }

    /// Peek at the next value, moving past whitespace.
    pub fn peek(&mut self) -> (r: JiterResult<Peek>)
        requires
            old(self).wf(),
        ensures
            old(self).moved_to(*final(self), skip_ws(old(self).spec_data(), old(self).spec_index() as int)),
            r == lift(spec_peek(old(self).spec_data(), old(self).spec_index() as int)),
    {
        match self.parser.peek() {
            Ok(p) => Ok(p),
            Err(e) => Err(JiterError::from_json_error(e)),
        }
    }

    /// The error for the value whose peek is `peek`, at the current position, where one of type
    /// `expected` was wanted.
    fn wrong_type(&self, expected: JsonType, peek: Peek) -> (r: JiterError)
        requires
            self.wf(),
            self.spec_index() < self.spec_data().len(),
        ensures
            r == spec_wrong_type_at(
                self.spec_data(),
                self.spec_index() as int,
                expected,
                peek,
                self.spec_allow_inf_nan(),
            ),
    {
        match peek {
            Peek::True | Peek::False => JiterError::wrong_type(expected, JsonType::Bool, self.parser.index),
            Peek::Null => JiterError::wrong_type(expected, JsonType::Null, self.parser.index),
            Peek::String => JiterError::wrong_type(expected, JsonType::String, self.parser.index),
            Peek::Array => JiterError::wrong_type(expected, JsonType::Array, self.parser.index),
            Peek::Object => JiterError::wrong_type(expected, JsonType::Object, self.parser.index),
            _ => if peek.is_num() {
                self.wrong_num(peek.into_inner(), expected)
            } else {
                JiterError::from_json_error(
                    JsonError::new(JsonErrorType::ExpectedSomeValue, self.parser.index),
                )
            },
        }
    }

    /// The error for the number whose first byte is `first`, at the current position, where a
    /// value of type `expected` was wanted: its actual type, or its own error.
    fn wrong_num(&self, first: u8, expected: JsonType) -> (r: JiterError)
        requires
            self.wf(),
            self.spec_index() < self.spec_data().len(),
        ensures
            r == (match spec_number_range(
                self.spec_data(),
                self.spec_index() as int,
                first,
                self.spec_allow_inf_nan(),
            ) {
                Ok((true, _)) => spec_wrong_type(expected, JsonType::Int, self.spec_index() as int),
                Ok((false, _)) => spec_wrong_type(expected, JsonType::Float, self.spec_index() as int),
                Err(e) => spec_jiter_error_from(e),
            }),
    {
        let mut parser2 = Parser { data: self.parser.data, index: self.parser.index };
        match parser2.consume_number::<NumberRange>(first, self.allow_inf_nan) {
            Ok(range) => if range.is_int {
                JiterError::wrong_type(expected, JsonType::Int, self.parser.index)
            } else {
                JiterError::wrong_type(expected, JsonType::Float, self.parser.index)
            },
            Err(e) => JiterError::from_json_error(e),
        }
    }

    /// The error for a number that failed to decode with `e`.
    fn maybe_number_error(&self, e: JsonError, expected: JsonType, peek: Peek) -> (r: JiterError)
        requires
            self.wf(),
            self.spec_index() < self.spec_data().len(),
        ensures
            r == spec_number_error_at(
                self.spec_data(),
                self.spec_index() as int,
                e,
                expected,
                peek,
                self.spec_allow_inf_nan(),
            ),
    {
        if peek.is_num() {
            JiterError::from_json_error(e)
        } else {
            self.wrong_type(expected, peek)
        }
    }

    /// Knowing the next value is `null`, consume it.
    pub fn known_null(&mut self) -> (r: JiterResult<()>)
        requires
            old(self).wf(),
        ensures
            old(self).kept(*final(self)),
            match spec_consume_ident(
                old(self).spec_data(),
                old(self).spec_index() as int,
                ident_rest(Ident::Null),
            ) {
                Ok(end) => r == Ok::<(), JiterError>(()) && final(self).spec_index() == end,
                Err(e) => r == Err::<(), JiterError>(spec_jiter_error_from(e))
                    && final(self).spec_index() == old(self).spec_index(),
            },
    {
        match self.parser.consume_null() {
            Ok(()) => Ok(()),
            Err(e) => Err(JiterError::from_json_error(e)),
        }
    }

    /// Assuming the next value is `null`, consume it: an error if it is not `null`, or is
    /// invalid.
    pub fn next_null(&mut self) -> (r: JiterResult<()>)
        requires
            old(self).wf(),
        ensures
            old(self).kept(*final(self)),
            ({
                let s = old(self).spec_data();
                let j = skip_ws(s, old(self).spec_index() as int);
                if j >= s.len() {
                    r == Err::<(), JiterError>(
                        spec_jiter_error_from(json_error(JsonErrorType::EofWhileParsingValue, j)),
                    ) && final(self).spec_index() == j
                } else if s[j] == 0x6e {
                    match spec_consume_ident(s, j, ident_rest(Ident::Null)) {
                        Ok(end) => r == Ok::<(), JiterError>(()) && final(self).spec_index() == end,
                        Err(e) => r == Err::<(), JiterError>(spec_jiter_error_from(e))
                            && final(self).spec_index() == j,
                    }
                } else {
                    r == Err::<(), JiterError>(
                        spec_wrong_type_at(
                            s,
                            j,
                            JsonType::Null,
                            peek_of(s[j]),
                            old(self).spec_allow_inf_nan(),
                        ),
                    ) && final(self).spec_index() == j
                }
            }),
    {
        let peek = match self.peek() {
            Ok(p) => p,
            Err(e) => return Err(e),
        };
        match peek {
            Peek::Null => self.known_null(),
            _ => Err(self.wrong_type(JsonType::Null, peek)),
        }
    }

    /// Knowing the next value is `true` or `false`, parse it.
    pub fn known_bool(&mut self, peek: Peek) -> (r: JiterResult<bool>)
        requires
            old(self).wf(),
            old(self).spec_index() < old(self).spec_data().len(),
        ensures
            old(self).kept(*final(self)),
            ({
                let s = old(self).spec_data();
                let i = old(self).spec_index() as int;
                match peek {
                    Peek::True => match spec_consume_ident(s, i, ident_rest(Ident::True)) {
                        Ok(end) => r == Ok::<bool, JiterError>(true) && final(self).spec_index()
                            == end,
                        Err(e) => r == Err::<bool, JiterError>(spec_jiter_error_from(e))
                            && final(self).spec_index() == i,
                    },
                    Peek::False => match spec_consume_ident(s, i, ident_rest(Ident::False)) {
                        Ok(end) => r == Ok::<bool, JiterError>(false) && final(self).spec_index()
                            == end,
                        Err(e) => r == Err::<bool, JiterError>(spec_jiter_error_from(e))
                            && final(self).spec_index() == i,
                    },
                    _ => r == Err::<bool, JiterError>(
                        spec_wrong_type_at(s, i, JsonType::Bool, peek, old(self).spec_allow_inf_nan()),
                    ) && final(self).spec_index() == i,
                }
            }),
    {
        match peek {
            Peek::True => match self.parser.consume_true() {
                Ok(()) => Ok(true),
                Err(e) => Err(JiterError::from_json_error(e)),
            },
            Peek::False => match self.parser.consume_false() {
                Ok(()) => Ok(false),
                Err(e) => Err(JiterError::from_json_error(e)),
            },
            _ => Err(self.wrong_type(JsonType::Bool, peek)),
        }
    }

    /// Assuming the next value is `true` or `false`, consume it: an error if it is not a
    /// boolean, or is invalid.
    pub fn next_bool(&mut self) -> (r: JiterResult<bool>)
        requires
            old(self).wf(),
        ensures
            old(self).kept(*final(self)),
            ({
                let s = old(self).spec_data();
                let j = skip_ws(s, old(self).spec_index() as int);
                if j >= s.len() {
                    r == Err::<bool, JiterError>(
                        spec_jiter_error_from(json_error(JsonErrorType::EofWhileParsingValue, j)),
                    ) && final(self).spec_index() == j
                } else if s[j] == 0x74 {
                    match spec_consume_ident(s, j, ident_rest(Ident::True)) {
                        Ok(end) => r == Ok::<bool, JiterError>(true) && final(self).spec_index()
                            == end,
                        Err(e) => r == Err::<bool, JiterError>(spec_jiter_error_from(e))
                            && final(self).spec_index() == j,
                    }
                } else if s[j] == 0x66 {
                    match spec_consume_ident(s, j, ident_rest(Ident::False)) {
                        Ok(end) => r == Ok::<bool, JiterError>(false) && final(self).spec_index()
                            == end,
                        Err(e) => r == Err::<bool, JiterError>(spec_jiter_error_from(e))
                            && final(self).spec_index() == j,
                    }
                } else {
                    r == Err::<bool, JiterError>(
                        spec_wrong_type_at(
                            s,
                            j,
                            JsonType::Bool,
                            peek_of(s[j]),
                            old(self).spec_allow_inf_nan(),
                        ),
                    ) && final(self).spec_index() == j
                }
            }),
    {
        let peek = match self.peek() {
            Ok(p) => p,
            Err(e) => return Err(e),
        };
        self.known_bool(peek)
    }

    /// Knowing the next value is an integer, parse it.
    pub fn known_int(&mut self, peek: Peek) -> (r: JiterResult<NumberInt>)
        requires
            old(self).wf(),
            old(self).spec_index() < old(self).spec_data().len(),
        ensures
            old(self).kept(*final(self)),
            ({
                let s = old(self).spec_data();
                let i = old(self).spec_index() as int;
                match spec_parse_int(s, i, peek_byte(peek)) {
                    Ok((v, n)) => r == Ok::<NumberInt, JiterError>(v) && final(self).spec_index()
                        == n,
                    Err(e) => final(self).spec_index() == i && r == Err::<NumberInt, JiterError>(
                        if e.error_type == JsonErrorType::FloatExpectingInt {
                            spec_wrong_type(JsonType::Int, JsonType::Float, i)
                        } else {
                            spec_number_error_at(
                                s,
                                i,
                                e,
                                JsonType::Int,
                                peek,
                                old(self).spec_allow_inf_nan(),
                            )
                        },
                    ),
                }
            }),
    {
        match self.parser.consume_number::<NumberInt>(peek.into_inner(), self.allow_inf_nan) {
            Ok(n) => Ok(n),
            Err(e) => match e.error_type {
                JsonErrorType::FloatExpectingInt => Err(
                    JiterError::wrong_type(JsonType::Int, JsonType::Float, self.parser.index),
                ),
                _ => Err(self.maybe_number_error(e, JsonType::Int, peek)),
            },
        }
    }

    /// Assuming the next value is an integer, consume it: an error if it is not an integer, or
    /// is invalid.
    pub fn next_int(&mut self) -> (r: JiterResult<NumberInt>)
        requires
            old(self).wf(),
        ensures
            old(self).kept(*final(self)),
            ({
                let s = old(self).spec_data();
                let j = skip_ws(s, old(self).spec_index() as int);
                if j >= s.len() {
                    r == Err::<NumberInt, JiterError>(
                        spec_jiter_error_from(json_error(JsonErrorType::EofWhileParsingValue, j)),
                    ) && final(self).spec_index() == j
                } else {
                    match spec_parse_int(s, j, s[j]) {
                        Ok((v, n)) => r == Ok::<NumberInt, JiterError>(v)
                            && final(self).spec_index() == n,
                        Err(e) => final(self).spec_index() == j && r == Err::<
                            NumberInt,
                            JiterError,
                        >(
                            if e.error_type == JsonErrorType::FloatExpectingInt {
                                spec_wrong_type(JsonType::Int, JsonType::Float, j)
                            } else {
                                spec_number_error_at(
                                    s,
                                    j,
                                    e,
                                    JsonType::Int,
                                    peek_of(s[j]),
                                    old(self).spec_allow_inf_nan(),
                                )
                            },
                        ),
                    }
                }
            }),
    {
        let peek = match self.peek() {
            Ok(p) => p,
            Err(e) => return Err(e),
        };
        proof {
            lemma_peek_roundtrip(self.spec_data()[self.spec_index() as int]);
        }
        self.known_int(peek)
    }

    /// Knowing the next value is a number, parse it, returning its bytes in the input.
    fn known_number_bytes(&mut self, peek: Peek) -> (r: JiterResult<&'j [u8]>)
        requires
            old(self).wf(),
            old(self).spec_index() < old(self).spec_data().len(),
        ensures
            old(self).kept(*final(self)),
            ({
                let s = old(self).spec_data();
                let i = old(self).spec_index() as int;
                match spec_number_range(s, i, peek_byte(peek), old(self).spec_allow_inf_nan()) {
                    Ok((_, n)) => r matches Ok(b) && b@ == s.subrange(i, n as int)
                        && final(self).spec_index() == n,
                    Err(e) => final(self).spec_index() == i && r == Err::<&[u8], JiterError>(
                        spec_number_error_at(
                            s,
                            i,
                            e,
                            JsonType::Float,
                            peek,
                            old(self).spec_allow_inf_nan(),
                        ),
                    ),
                }
            }),
    {
        match self.parser.consume_number::<NumberRange>(peek.into_inner(), self.allow_inf_nan) {
            Ok(range) => Ok(&self.data[range.range.start..range.range.end]),
            Err(e) => Err(self.maybe_number_error(e, JsonType::Float, peek)),
        }
    }

    /// Assuming the next value is a number, consume it, returning its bytes in the input.
    pub fn next_number_bytes(&mut self) -> (r: JiterResult<&'j [u8]>)
        requires
            old(self).wf(),
        ensures
            old(self).kept(*final(self)),
            ({
                let s = old(self).spec_data();
                let j = skip_ws(s, old(self).spec_index() as int);
                if j >= s.len() {
                    r == Err::<&[u8], JiterError>(
                        spec_jiter_error_from(json_error(JsonErrorType::EofWhileParsingValue, j)),
                    ) && final(self).spec_index() == j
                } else {
                    match spec_number_range(s, j, s[j], old(self).spec_allow_inf_nan()) {
                        Ok((_, n)) => r matches Ok(b) && b@ == s.subrange(j, n as int)
                            && final(self).spec_index() == n,
                        Err(e) => final(self).spec_index() == j && r == Err::<&[u8], JiterError>(
                            spec_number_error_at(
                                s,
                                j,
                                e,
                                JsonType::Float,
                                peek_of(s[j]),
                                old(self).spec_allow_inf_nan(),
                            ),
                        ),
                    }
                }
            }),
    {
        let peek = match self.peek() {
            Ok(p) => p,
            Err(e) => return Err(e),
        };
        proof {
            lemma_peek_roundtrip(self.spec_data()[self.spec_index() as int]);
        }
        self.known_number_bytes(peek)
    }

    /// Knowing the next value is a string, decode it to its text.
    pub fn known_str(&mut self) -> (r: JiterResult<&str>)
        requires
            old(self).wf(),
            old(self).spec_allow_partial_strings() ==> old(self).spec_index() < old(
                self,
            ).spec_data().len(),
        ensures
            old(self).kept(*final(self)),
            match spec_decode_str(
                old(self).spec_data(),
                old(self).spec_index() as int,
                old(self).spec_allow_partial_strings(),
            ) {
                Ok((b, _, n)) => r matches Ok(t) && t.spec_bytes() == b && final(self).spec_index()
                    == n,
                Err(e) => r == Err::<&str, JiterError>(spec_jiter_error_from(e))
                    && final(self).spec_index() == old(self).spec_index(),
            },
    {
        match self.parser.consume_string::<StringDecoder>(&mut self.tape, self.allow_partial_strings) {
            Ok(output) => Ok(output.as_str()),
            Err(e) => Err(JiterError::from_json_error(e)),
        }
    }

    /// Assuming the next value is a string, decode it to its text: an error if it is not a
    /// string, or is invalid.
    pub fn next_str(&mut self) -> (r: JiterResult<&str>)
        requires
            old(self).wf(),
        ensures
            old(self).kept(*final(self)),
            ({
                let s = old(self).spec_data();
                let j = skip_ws(s, old(self).spec_index() as int);
                if j >= s.len() {
                    r == Err::<&str, JiterError>(
                        spec_jiter_error_from(json_error(JsonErrorType::EofWhileParsingValue, j)),
                    ) && final(self).spec_index() == j
                } else if s[j] == 0x22 {
                    match spec_decode_str(s, j, old(self).spec_allow_partial_strings()) {
                        Ok((b, _, n)) => r matches Ok(t) && t.spec_bytes() == b
                            && final(self).spec_index() == n,
                        Err(e) => r == Err::<&str, JiterError>(spec_jiter_error_from(e))
                            && final(self).spec_index() == j,
                    }
                } else {
                    r == Err::<&str, JiterError>(
                        spec_wrong_type_at(
                            s,
                            j,
                            JsonType::String,
                            peek_of(s[j]),
                            old(self).spec_allow_inf_nan(),
                        ),
                    ) && final(self).spec_index() == j
                }
            }),
    {
        let peek = match self.peek() {
            Ok(p) => p,
            Err(e) => return Err(e),
        };
        match peek {
            Peek::String => self.known_str(),
            _ => Err(self.wrong_type(JsonType::String, peek)),
        }
    }

    /// Knowing the next value is a string, find where it ends, returning its content's bytes
    /// in the input (undecoded, and not checked to be UTF-8).
    pub fn known_bytes(&mut self) -> (r: JiterResult<&'j [u8]>)
        requires
            old(self).wf(),
            old(self).spec_allow_partial_strings() ==> old(self).spec_index() < old(
                self,
            ).spec_data().len(),
        ensures
            old(self).kept(*final(self)),
            match spec_range_content(
                old(self).spec_data(),
                old(self).spec_index() + 1,
                old(self).spec_allow_partial_strings(),
            ) {
                Ok((end, n)) => r matches Ok(t) && t@ == old(self).spec_data().subrange(
                    old(self).spec_index() + 1,
                    end as int,
                ) && final(self).spec_index() == n,
                Err(e) => r == Err::<&[u8], JiterError>(spec_jiter_error_from(e))
                    && final(self).spec_index() == old(self).spec_index(),
            },
    {
        match self.parser.consume_string::<StringDecoderRange>(
            &mut self.tape,
            self.allow_partial_strings,
        ) {
            Ok(range) => Ok(&self.data[range.start..range.end]),
            Err(e) => Err(JiterError::from_json_error(e)),
        }
    }

    /// Assuming the next value is a string, find where it ends, returning its content's bytes
    /// in the input: an error if it is not a string, or is invalid.
    pub fn next_bytes(&mut self) -> (r: JiterResult<&'j [u8]>)
        requires
            old(self).wf(),
        ensures
            old(self).kept(*final(self)),
            ({
                let s = old(self).spec_data();
                let j = skip_ws(s, old(self).spec_index() as int);
                if j >= s.len() {
                    r == Err::<&[u8], JiterError>(
                        spec_jiter_error_from(json_error(JsonErrorType::EofWhileParsingValue, j)),
                    ) && final(self).spec_index() == j
                } else if s[j] == 0x22 {
                    match spec_range_content(s, j + 1, old(self).spec_allow_partial_strings()) {
                        Ok((end, n)) => r matches Ok(t) && t@ == s.subrange(j + 1, end as int)
                            && final(self).spec_index() == n,
                        Err(e) => r == Err::<&[u8], JiterError>(spec_jiter_error_from(e))
                            && final(self).spec_index() == j,
                    }
                } else {
                    r == Err::<&[u8], JiterError>(
                        spec_wrong_type_at(
                            s,
                            j,
                            JsonType::String,
                            peek_of(s[j]),
                            old(self).spec_allow_inf_nan(),
                        ),
                    ) && final(self).spec_index() == j
                }
            }),
    {
        let peek = match self.peek() {
            Ok(p) => p,
            Err(e) => return Err(e),
        };
        match peek {
            Peek::String => self.known_bytes(),
            _ => Err(self.wrong_type(JsonType::String, peek)),
        }
    }

    /// Knowing the next value's peek, move past the value, checking its syntax but not that
    /// its strings are valid UTF-8.
    pub fn known_skip(&mut self, peek: Peek) -> (r: JiterResult<()>)
        requires
            old(self).wf(),
            old(self).spec_index() < old(self).spec_data().len(),
        ensures
            old(self).kept(*final(self)),
            match spec_skip_walk(
                old(self).spec_data(),
                old(self).spec_index(),
                peek,
                Seq::empty(),
                DEFAULT_RECURSION_LIMIT as nat,
                old(self).spec_allow_inf_nan(),
            ) {
                Ok(end) => r == Ok::<(), JiterError>(()) && final(self).spec_index() == end,
                Err(e) => r == Err::<(), JiterError>(spec_jiter_error_from(e)),
            },
    {
        match take_value_skip(
            peek,
            &mut self.parser,
            &mut self.tape,
            DEFAULT_RECURSION_LIMIT,
            self.allow_inf_nan,
        ) {
            Ok(()) => Ok(()),
            Err(e) => Err(JiterError::from_json_error(e)),
        }
    }

    /// Move past the next value, checking its syntax but not that its strings are valid UTF-8.
    pub fn next_skip(&mut self) -> (r: JiterResult<()>)
        requires
            old(self).wf(),
        ensures
            old(self).kept(*final(self)),
            ({
                let s = old(self).spec_data();
                let j = skip_ws(s, old(self).spec_index() as int);
                if j >= s.len() {
                    r == Err::<(), JiterError>(
                        spec_jiter_error_from(json_error(JsonErrorType::EofWhileParsingValue, j)),
                    ) && final(self).spec_index() == j
                } else {
                    match spec_skip_walk(
                        s,
                        j as usize,
                        peek_of(s[j]),
                        Seq::empty(),
                        DEFAULT_RECURSION_LIMIT as nat,
                        old(self).spec_allow_inf_nan(),
                    ) {
                        Ok(end) => r == Ok::<(), JiterError>(()) && final(self).spec_index() == end,
                        Err(e) => r == Err::<(), JiterError>(spec_jiter_error_from(e)),
                    }
                }
            }),
    {
        let peek = match self.peek() {
            Ok(p) => p,
            Err(e) => return Err(e),
        };
        self.known_skip(peek)
    }

    /// Knowing the next value's peek, parse the value into a tree, nested at most the default
    /// limit deep; at the end of the input there is no value to parse.
    pub fn known_value(&mut self, peek: Peek) -> (r: JiterResult<ValueTree>)
        requires
            old(self).wf(),
        ensures
            old(self).kept(*final(self)),
            old(self).spec_index() >= old(self).spec_data().len() ==> r == Err::<ValueTree, JiterError>(
                spec_jiter_error_from(json_error(JsonErrorType::EofWhileParsingValue, old(self).spec_index() as int)),
            ) && final(self).spec_index() == old(self).spec_index(),
            old(self).spec_index() < old(self).spec_data().len() ==> ({
                let (t, end) = spec_value(
                    old(self).spec_data(),
                    old(self).spec_index() as int,
                    peek,
                    0,
                    DEFAULT_RECURSION_LIMIT as nat,
                    old(self).spec_allow_inf_nan(),
                    PartialMode::Off,
                );
                &&& final(self).spec_index() == end
                &&& match t {
                    Ok(v) => r is Ok && tree_view(r->Ok_0) == v,
                    Err(e) => r == Err::<ValueTree, JiterError>(spec_jiter_error_from(e)),
                }
            }),
    {
        if self.parser.index >= self.data.len() {
            return Err(JiterError::from_json_error(JsonError::new(JsonErrorType::EofWhileParsingValue, self.parser.index)));
        }
        match take_value(
            peek,
            &mut self.parser,
            &mut self.tape,
            DEFAULT_RECURSION_LIMIT,
            self.allow_inf_nan,
            PartialMode::Off,
        ) {
            Ok(v) => Ok(v),
            Err(e) => Err(JiterError::from_json_error(e)),
        }
    }

    /// Parse the next value into a tree, nested at most the default limit deep.
    pub fn next_value(&mut self) -> (r: JiterResult<ValueTree>)
        requires
            old(self).wf(),
        ensures
            old(self).kept(*final(self)),
            ({
                let s = old(self).spec_data();
                let j = skip_ws(s, old(self).spec_index() as int);
                if j >= s.len() {
                    r == Err::<ValueTree, JiterError>(
                        spec_jiter_error_from(json_error(JsonErrorType::EofWhileParsingValue, j)),
                    ) && final(self).spec_index() == j
                } else {
                    let (t, end) = spec_value(
                        s,
                        j,
                        peek_of(s[j]),
                        0,
                        DEFAULT_RECURSION_LIMIT as nat,
                        old(self).spec_allow_inf_nan(),
                        PartialMode::Off,
                    );
                    &&& final(self).spec_index() == end
                    &&& match t {
                        Ok(v) => r is Ok && tree_view(r->Ok_0) == v,
                        Err(e) => r == Err::<ValueTree, JiterError>(spec_jiter_error_from(e)),
                    }
                }
            }),
    {
        let peek = match self.peek() {
            Ok(p) => p,
            Err(e) => return Err(e),
        };
        self.known_value(peek)
    }

    /// Knowing the next value is an array, enter it, peeking at its first value (`None` if it
    /// is empty).
    pub fn known_array(&mut self) -> (r: JiterResult<Option<Peek>>)
        requires
            old(self).wf(),
            old(self).spec_index() < old(self).spec_data().len(),
        ensures
            old(self).kept(*final(self)),
            (r, final(self).spec_index() as int) == (
                lift(spec_array_first(old(self).spec_data(), old(self).spec_index() as int).0),
                spec_array_first(old(self).spec_data(), old(self).spec_index() as int).1,
            ),
    {
        match self.parser.array_first() {
            Ok(p) => Ok(p),
            Err(e) => Err(JiterError::from_json_error(e)),
        }
    }

    /// Assuming the next value is an array, enter it, peeking at its first value (`None` if it
    /// is empty): an error if it is not an array, or is invalid.
    pub fn next_array(&mut self) -> (r: JiterResult<Option<Peek>>)
        requires
            old(self).wf(),
        ensures
            old(self).kept(*final(self)),
            ({
                let s = old(self).spec_data();
                let j = skip_ws(s, old(self).spec_index() as int);
                if j >= s.len() {
                    r == Err::<Option<Peek>, JiterError>(
                        spec_jiter_error_from(json_error(JsonErrorType::EofWhileParsingValue, j)),
                    ) && final(self).spec_index() == j
                } else if s[j] == 0x5b {
                    r == lift(spec_array_first(s, j).0) && final(self).spec_index()
                        == spec_array_first(s, j).1
                } else {
                    r == Err::<Option<Peek>, JiterError>(
                        spec_wrong_type_at(
                            s,
                            j,
                            JsonType::Array,
                            peek_of(s[j]),
                            old(self).spec_allow_inf_nan(),
                        ),
                    ) && final(self).spec_index() == j
                }
            }),
    {
        let peek = match self.peek() {
            Ok(p) => p,
            Err(e) => return Err(e),
        };
        match peek {
            Peek::Array => self.known_array(),
            _ => Err(self.wrong_type(JsonType::Array, peek)),
        }
    }

    /// Move past the value just read in an array, peeking at the next one (`None` at the end
    /// of the array).
    pub fn array_step(&mut self) -> (r: JiterResult<Option<Peek>>)
        requires
            old(self).wf(),
        ensures
            old(self).kept(*final(self)),
            r == lift(spec_array_step(old(self).spec_data(), old(self).spec_index() as int).0),
            final(self).spec_index() == spec_array_step(
                old(self).spec_data(),
                old(self).spec_index() as int,
            ).1,
    {
        match self.parser.array_step() {
            Ok(p) => Ok(p),
            Err(e) => Err(JiterError::from_json_error(e)),
        }
    }

    /// Knowing the next value is an object, enter it, reading its first key as text (`None` if
    /// it is empty).
    pub fn known_object(&mut self) -> (r: JiterResult<Option<&str>>)
        requires
            old(self).wf(),
            old(self).spec_index() < old(self).spec_data().len(),
        ensures
            old(self).kept(*final(self)),
            key_str_outcome(
                old(self).spec_data(),
                spec_object_open(old(self).spec_data(), old(self).spec_index() as int),
                r,
                final(self).spec_index() as int,
            ),
    {
        match self.parser.object_first::<StringDecoder>(&mut self.tape) {
            Ok(Some(key)) => Ok(Some(key.as_str())),
            Ok(None) => Ok(None),
            Err(e) => Err(JiterError::from_json_error(e)),
        }
    }

    /// Assuming the next value is an object, enter it, reading its first key as text (`None` if
    /// it is empty): an error if it is not an object, or is invalid.
    pub fn next_object(&mut self) -> (r: JiterResult<Option<&str>>)
        requires
            old(self).wf(),
        ensures
            old(self).kept(*final(self)),
            ({
                let s = old(self).spec_data();
                let j = skip_ws(s, old(self).spec_index() as int);
                if j >= s.len() {
                    r == Err::<Option<&str>, JiterError>(
                        spec_jiter_error_from(json_error(JsonErrorType::EofWhileParsingValue, j)),
                    ) && final(self).spec_index() == j
                } else if s[j] == 0x7b {
                    key_str_outcome(s, spec_object_open(s, j), r, final(self).spec_index() as int)
                } else {
                    r == Err::<Option<&str>, JiterError>(
                        spec_wrong_type_at(
                            s,
                            j,
                            JsonType::Object,
                            peek_of(s[j]),
                            old(self).spec_allow_inf_nan(),
                        ),
                    ) && final(self).spec_index() == j
                }
            }),
    {
        let peek = match self.peek() {
            Ok(p) => p,
            Err(e) => return Err(e),
        };
        match peek {
            Peek::Object => self.known_object(),
            _ => Err(self.wrong_type(JsonType::Object, peek)),
        }
    }

    /// Assuming the next value is an object, enter it, reading its first key as bytes of the
    /// input (`None` if it is empty): an error if it is not an object, or is invalid.
    pub fn next_object_bytes(&mut self) -> (r: JiterResult<Option<&'j [u8]>>)
        requires
            old(self).wf(),
        ensures
            old(self).kept(*final(self)),
            ({
                let s = old(self).spec_data();
                let j = skip_ws(s, old(self).spec_index() as int);
                if j >= s.len() {
                    r == Err::<Option<&[u8]>, JiterError>(
                        spec_jiter_error_from(json_error(JsonErrorType::EofWhileParsingValue, j)),
                    ) && final(self).spec_index() == j
                } else if s[j] == 0x7b {
                    key_bytes_outcome(s, spec_object_open(s, j), r, final(self).spec_index() as int)
                } else {
                    r == Err::<Option<&[u8]>, JiterError>(
                        spec_wrong_type_at(
                            s,
                            j,
                            JsonType::Object,
                            peek_of(s[j]),
                            old(self).spec_allow_inf_nan(),
                        ),
                    ) && final(self).spec_index() == j
                }
            }),
    {
        let peek = match self.peek() {
            Ok(p) => p,
            Err(e) => return Err(e),
        };
        match peek {
            Peek::Object => match self.parser.object_first::<StringDecoderRange>(&mut self.tape) {
                Ok(Some(range)) => Ok(Some(&self.data[range.start..range.end])),
                Ok(None) => Ok(None),
                Err(e) => Err(JiterError::from_json_error(e)),
            },
            _ => Err(self.wrong_type(JsonType::Object, peek)),
        }
    }

    /// Move past the value just read in an object, reading the next key as text (`None` at
    /// the end of the object).
    pub fn next_key(&mut self) -> (r: JiterResult<Option<&str>>)
        requires
            old(self).wf(),
        ensures
            old(self).kept(*final(self)),
            key_str_outcome(
                old(self).spec_data(),
                spec_object_next(old(self).spec_data(), old(self).spec_index() as int),
                r,
                final(self).spec_index() as int,
            ),
    {
        match self.parser.object_step::<StringDecoder>(&mut self.tape) {
            Ok(Some(key)) => Ok(Some(key.as_str())),
            Ok(None) => Ok(None),
            Err(e) => Err(JiterError::from_json_error(e)),
        }
    }

    /// Move past the value just read in an object, reading the next key as bytes of the input
    /// (`None` at the end of the object).
    pub fn next_key_bytes(&mut self) -> (r: JiterResult<Option<&'j [u8]>>)
        requires
            old(self).wf(),
        ensures
            old(self).kept(*final(self)),
            key_bytes_outcome(
                old(self).spec_data(),
                spec_object_next(old(self).spec_data(), old(self).spec_index() as int),
                r,
                final(self).spec_index() as int,
            ),
    {
        match self.parser.object_step::<StringDecoderRange>(&mut self.tape) {
            Ok(Some(range)) => Ok(Some(&self.data[range.start..range.end])),
            Ok(None) => Ok(None),
            Err(e) => Err(JiterError::from_json_error(e)),
        }
    }

    /// Check that nothing but whitespace is left.
    pub fn finish(&mut self) -> (r: JiterResult<()>)
        requires
            old(self).wf(),
        ensures
            old(self).moved_to(*final(self), skip_ws(old(self).spec_data(), old(self).spec_index() as int)),
            r == lift(spec_finish(old(self).spec_data(), old(self).spec_index() as int)),
    {
        match self.parser.finish() {
            Ok(()) => Ok(()),
            Err(e) => Err(JiterError::from_json_error(e)),
        }
    }
}

impl JiterError {
    /// The line and column of this error in the input of `jiter`.
    pub fn get_position(&self, jiter: &Jiter) -> (r: LinePosition)
        requires
            jiter.wf(),
        ensures
            r == spec_find_position(jiter.spec_data(), self.index as int),
    {
        jiter.error_position(self.index)
    }

    /// The message of this error followed by its line and column in the input of `jiter`.
    pub fn description(&self, jiter: &Jiter) -> (r: String)
        requires
            jiter.wf(),
        ensures
            r@ == spec_description(
                spec_jiter_error_type_message(self.error_type),
                jiter.spec_data(),
                self.index as int,
            ),
    {
        let position = self.get_position(jiter);
        let mut out = String::new();
        self.error_type.write_message(&mut out);
        out.append(" at ");
        position.write_to(&mut out);
        out
    }
}

} // verus!
