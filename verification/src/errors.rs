//! Errors of the JSON parser and the iterator, and the line/column positions they are reported at.
use vstd::prelude::*;
use vstd::string::*;

use crate::text::{append_decimal, decimal_chars, debug_quoted_str, spec_debug_quoted};

verus! {

/// Every error that JSON syntax can raise.
///
/// Most variants carry the same names and messages as the errors of `serde_json`.
#[derive(Debug, PartialEq, Eq, Clone)]
pub enum JsonErrorType {
    /// float value was found where an int was expected
    FloatExpectingInt,
    /// duplicate keys in an object
    DuplicateKey(String),
    /// happens when getting the `Decimal` type or constructing a decimal fails
    InternalError(String),
    /// EOF while parsing a list.
    EofWhileParsingList,
    /// EOF while parsing an object.
    EofWhileParsingObject,
    /// EOF while parsing a string.
    EofWhileParsingString,
    /// EOF while parsing a JSON value.
    EofWhileParsingValue,
    /// Expected this character to be a `':'`.
    ExpectedColon,
    /// Expected this character to be either a `','` or a `']'`.
    ExpectedListCommaOrEnd,
    /// Expected this character to be either a `','` or a `'}'`.
    ExpectedObjectCommaOrEnd,
    /// Expected to parse either a `true`, `false`, or a `null`.
    ExpectedSomeIdent,
    /// Expected this character to start a JSON value.
    ExpectedSomeValue,
    /// Invalid hex escape code.
    InvalidEscape,
    /// Invalid number.
    InvalidNumber,
    /// Number is bigger than the maximum value of its type.
    NumberOutOfRange,
    /// Invalid unicode code point.
    InvalidUnicodeCodePoint,
    /// Control character found while parsing a string.
    ControlCharacterWhileParsingString,
    /// Object key is not a string.
    KeyMustBeAString,
    /// Lone leading surrogate in hex escape.
    LoneLeadingSurrogateInHexEscape,
    /// JSON has a comma after the last value in an array or map.
    TrailingComma,
    /// JSON has non-whitespace trailing characters after the value.
    TrailingCharacters,
    /// Unexpected end of hex escape.
    UnexpectedEndOfHexEscape,
    /// Encountered nesting of JSON maps and arrays more than the recursion limit allows.
    RecursionLimitExceeded,
}

/// The message of an error type, as `to_string` renders it.
pub open spec fn spec_error_type_message(t: JsonErrorType) -> Seq<char> {
    match t {
        JsonErrorType::FloatExpectingInt => "float value was found where an int was expected"@,
        JsonErrorType::DuplicateKey(s) => "Detected duplicate key "@ + spec_debug_quoted(s@),
        JsonErrorType::InternalError(s) => "Internal error: "@ + spec_debug_quoted(s@),
        JsonErrorType::EofWhileParsingList => "EOF while parsing a list"@,
        JsonErrorType::EofWhileParsingObject => "EOF while parsing an object"@,
        JsonErrorType::EofWhileParsingString => "EOF while parsing a string"@,
        JsonErrorType::EofWhileParsingValue => "EOF while parsing a value"@,
        JsonErrorType::ExpectedColon => "expected `:`"@,
        JsonErrorType::ExpectedListCommaOrEnd => "expected `,` or `]`"@,
        JsonErrorType::ExpectedObjectCommaOrEnd => "expected `,` or `}`"@,
        JsonErrorType::ExpectedSomeIdent => "expected ident"@,
        JsonErrorType::ExpectedSomeValue => "expected value"@,
        JsonErrorType::InvalidEscape => "invalid escape"@,
        JsonErrorType::InvalidNumber => "invalid number"@,
        JsonErrorType::NumberOutOfRange => "number out of range"@,
        JsonErrorType::InvalidUnicodeCodePoint => "invalid unicode code point"@,
        JsonErrorType::ControlCharacterWhileParsingString =>
            "control character (\\u0000-\\u001F) found while parsing a string"@,
        JsonErrorType::KeyMustBeAString => "key must be a string"@,
        JsonErrorType::LoneLeadingSurrogateInHexEscape => "lone leading surrogate in hex escape"@,
        JsonErrorType::TrailingComma => "trailing comma"@,
        JsonErrorType::TrailingCharacters => "trailing characters"@,
        JsonErrorType::UnexpectedEndOfHexEscape => "unexpected end of hex escape"@,
        JsonErrorType::RecursionLimitExceeded => "recursion limit exceeded"@,
    }
}

impl JsonErrorType {
    /// Append the message of this error type to `out`.
    pub fn write_message(&self, out: &mut String)
        ensures
            final(out)@ == old(out)@ + spec_error_type_message(*self),
    {
        match self {
            JsonErrorType::FloatExpectingInt => out.append("float value was found where an int was expected"),
            JsonErrorType::DuplicateKey(s) => {
                out.append("Detected duplicate key ");
                let q = debug_quoted_str(s.as_str());
                out.append(q.as_str());
            },
            JsonErrorType::InternalError(s) => {
                out.append("Internal error: ");
                let q = debug_quoted_str(s.as_str());
                out.append(q.as_str());
            },
            JsonErrorType::EofWhileParsingList => out.append("EOF while parsing a list"),
            JsonErrorType::EofWhileParsingObject => out.append("EOF while parsing an object"),
            JsonErrorType::EofWhileParsingString => out.append("EOF while parsing a string"),
            JsonErrorType::EofWhileParsingValue => out.append("EOF while parsing a value"),
            JsonErrorType::ExpectedColon => out.append("expected `:`"),
            JsonErrorType::ExpectedListCommaOrEnd => out.append("expected `,` or `]`"),
            JsonErrorType::ExpectedObjectCommaOrEnd => out.append("expected `,` or `}`"),
            JsonErrorType::ExpectedSomeIdent => out.append("expected ident"),
            JsonErrorType::ExpectedSomeValue => out.append("expected value"),
            JsonErrorType::InvalidEscape => out.append("invalid escape"),
            JsonErrorType::InvalidNumber => out.append("invalid number"),
            JsonErrorType::NumberOutOfRange => out.append("number out of range"),
            JsonErrorType::InvalidUnicodeCodePoint => out.append("invalid unicode code point"),
            JsonErrorType::ControlCharacterWhileParsingString => out.append(
                "control character (\\u0000-\\u001F) found while parsing a string",
            ),
            JsonErrorType::KeyMustBeAString => out.append("key must be a string"),
            JsonErrorType::LoneLeadingSurrogateInHexEscape => out.append("lone leading surrogate in hex escape"),
            JsonErrorType::TrailingComma => out.append("trailing comma"),
            JsonErrorType::TrailingCharacters => out.append("trailing characters"),
            JsonErrorType::UnexpectedEndOfHexEscape => out.append("unexpected end of hex escape"),
            JsonErrorType::RecursionLimitExceeded => out.append("recursion limit exceeded"),
        }
    }

    /// The message of this error type.
    pub fn to_string(&self) -> (r: String)
        ensures
            r@ == spec_error_type_message(*self),
    {
        let mut out = String::new();
        self.write_message(&mut out);
        out
    }
}

pub type JsonResult<T> = Result<T, JsonError>;

/// An error from parsing JSON: what went wrong and the byte index where it did.
#[derive(Debug, Clone, Eq, PartialEq)]
pub struct JsonError {
    /// The type of error.
    pub error_type: JsonErrorType,
    /// The index in the data where the error occurred.
    pub index: usize,
}

/// The error of type `t` at index `index`.
pub open spec fn json_error(t: JsonErrorType, index: int) -> JsonError {
    JsonError { error_type: t, index: index as usize }
}

/// The errors that a partial parse tolerates, because the input may simply have been cut short.
pub open spec fn spec_allowed_if_partial(t: JsonErrorType) -> bool {
    ||| t == JsonErrorType::EofWhileParsingList
    ||| t == JsonErrorType::EofWhileParsingObject
    ||| t == JsonErrorType::EofWhileParsingString
    ||| t == JsonErrorType::EofWhileParsingValue
    ||| t == JsonErrorType::ExpectedListCommaOrEnd
    ||| t == JsonErrorType::ExpectedObjectCommaOrEnd
}

/// `"{message} at index {index}"`
pub open spec fn spec_json_error_string(e: JsonError) -> Seq<char> {
    spec_error_type_message(e.error_type) + " at index "@ + decimal_chars(e.index as nat)
}

/// `"{message} at {position}"`
pub open spec fn spec_description(message: Seq<char>, data: Seq<u8>, index: int) -> Seq<char> {
    message + " at "@ + spec_position_string(spec_find_position(data, index))
}

impl JsonError {
    pub fn new(error_type: JsonErrorType, index: usize) -> (r: Self)
        ensures
            r == (JsonError { error_type, index }),
    {
        Self { error_type, index }
    }

    /// The line and column of this error in `json_data`.
    pub fn get_position(&self, json_data: &[u8]) -> (r: LinePosition)
        requires
            json_data.len() < usize::MAX,
        ensures
            r == spec_find_position(json_data@, self.index as int),
    {
        LinePosition::find(json_data, self.index)
    }

    /// The message of this error followed by its line and column in `json_data`.
    pub fn description(&self, json_data: &[u8]) -> (r: String)
        requires
            json_data.len() < usize::MAX,
        ensures
            r@ == spec_description(spec_error_type_message(self.error_type), json_data@, self.index as int),
    {
        let position = self.get_position(json_data);
        let mut out = String::new();
        self.error_type.write_message(&mut out);
        out.append(" at ");
        position.write_to(&mut out);
        out
    }

    /// Whether a partial parse may ignore this error.
    pub fn allowed_if_partial(&self) -> (r: bool)
        ensures
            r == spec_allowed_if_partial(self.error_type),
    {
        match self.error_type {
            JsonErrorType::EofWhileParsingList
            | JsonErrorType::EofWhileParsingObject
            | JsonErrorType::EofWhileParsingString
            | JsonErrorType::EofWhileParsingValue
            | JsonErrorType::ExpectedListCommaOrEnd
            | JsonErrorType::ExpectedObjectCommaOrEnd => true,
            _ => false,
        }
    }

    /// `"{message} at index {index}"`, as the error is displayed.
    pub fn to_string(&self) -> (r: String)
        ensures
            r@ == spec_json_error_string(*self),
    {
        let mut out = String::new();
        self.error_type.write_message(&mut out);
        out.append(" at index ");
        append_decimal(&mut out, self.index);
        out
    }
}

/// The recursion limit used when none is given.
pub const DEFAULT_RECURSION_LIMIT: u8 = 200;

/// Every JSON type.
#[derive(Debug, Clone, Copy, Eq, PartialEq)]
pub enum JsonType {
    Null,
    Bool,
    Int,
    Float,
    String,
    Array,
    Object,
}

/// The name of a JSON type, as it is displayed.
pub open spec fn spec_json_type_name(t: JsonType) -> Seq<char> {
    match t {
        JsonType::Null => "null"@,
        JsonType::Bool => "bool"@,
        JsonType::Int => "int"@,
        JsonType::Float => "float"@,
        JsonType::String => "string"@,
        JsonType::Array => "array"@,
        JsonType::Object => "object"@,
    }
}

impl JsonType {
    /// Append the name of this type to `out`.
    pub fn write_name(&self, out: &mut String)
        ensures
            final(out)@ == old(out)@ + spec_json_type_name(*self),
    {
        match self {
            JsonType::Null => out.append("null"),
            JsonType::Bool => out.append("bool"),
            JsonType::Int => out.append("int"),
            JsonType::Float => out.append("float"),
            JsonType::String => out.append("string"),
            JsonType::Array => out.append("array"),
            JsonType::Object => out.append("object"),
        }
    }

    /// The name of this type.
    pub fn to_string(&self) -> (r: String)
        ensures
            r@ == spec_json_type_name(*self),
    {
        let mut out = String::new();
        self.write_name(&mut out);
        out
    }
}

/// Either a [JsonErrorType] or a value of the wrong type.
#[derive(Debug, Clone, Eq, PartialEq)]
pub enum JiterErrorType {
    JsonError(JsonErrorType),
    WrongType { expected: JsonType, actual: JsonType },
}

/// The message of an iterator error type, as it is displayed.
pub open spec fn spec_jiter_error_type_message(t: JiterErrorType) -> Seq<char> {
    match t {
        JiterErrorType::JsonError(e) => spec_error_type_message(e),
        JiterErrorType::WrongType { expected, actual } =>
            "expected "@ + spec_json_type_name(expected) + " but found "@ + spec_json_type_name(actual),
    }
}

impl JiterErrorType {
    /// Append the message of this error type to `out`.
    pub fn write_message(&self, out: &mut String)
        ensures
            final(out)@ == old(out)@ + spec_jiter_error_type_message(*self),
    {
        match self {
            JiterErrorType::JsonError(e) => e.write_message(out),
            JiterErrorType::WrongType { expected, actual } => {
                out.append("expected ");
                expected.write_name(out);
                out.append(" but found ");
                actual.write_name(out);
            },
        }
    }

    /// The message of this error type.
    pub fn to_string(&self) -> (r: String)
        ensures
            r@ == spec_jiter_error_type_message(*self),
    {
        let mut out = String::new();
        self.write_message(&mut out);
        out
    }
}

/// An error from the iterator: what went wrong and the byte index where it did.
#[derive(Debug, Clone, Eq, PartialEq)]
pub struct JiterError {
    pub error_type: JiterErrorType,
    pub index: usize,
}

/// The iterator error that a parser error becomes.
pub open spec fn spec_jiter_error_from(e: JsonError) -> JiterError {
    JiterError { error_type: JiterErrorType::JsonError(e.error_type), index: e.index }
}

/// The error for a value of type `actual` where one of type `expected` was wanted.
pub open spec fn spec_wrong_type(expected: JsonType, actual: JsonType, index: int) -> JiterError {
    JiterError { error_type: JiterErrorType::WrongType { expected, actual }, index: index as usize }
}

/// `"{message} at index {index}"`
pub open spec fn spec_jiter_error_string(e: JiterError) -> Seq<char> {
    spec_jiter_error_type_message(e.error_type) + " at index "@ + decimal_chars(e.index as nat)
}

impl JiterError {
    pub fn new(error_type: JiterErrorType, index: usize) -> (r: Self)
        ensures
            r == (JiterError { error_type, index }),
    {
        Self { error_type, index }
    }

    pub fn wrong_type(expected: JsonType, actual: JsonType, index: usize) -> (r: Self)
        ensures
            r == spec_wrong_type(expected, actual, index as int),
    {
        Self::new(JiterErrorType::WrongType { expected, actual }, index)
    }

    /// The iterator error that a parser error becomes.
    pub fn from_json_error(error: JsonError) -> (r: Self)
        ensures
            r == spec_jiter_error_from(error),
    {
        Self { error_type: JiterErrorType::JsonError(error.error_type), index: error.index }
    }

    /// `"{message} at index {index}"`, as the error is displayed.
    pub fn to_string(&self) -> (r: String)
        ensures
            r@ == spec_jiter_error_string(*self),
    {
        let mut out = String::new();
        self.error_type.write_message(&mut out);
        out.append(" at index ");
        append_decimal(&mut out, self.index);
        out
    }
}

/// A line and column in the input, both counted from 1.
#[derive(Debug, Clone, Copy, PartialEq, Eq)]
pub struct LinePosition {
    /// Line number, starting at 1.
    pub line: usize,
    /// Column number, starting at 1.
    pub column: usize,
}

/// The number of line feeds among the first `k` bytes of `s`.
pub open spec fn count_newlines(s: Seq<u8>, k: int) -> int
    decreases k,
{
    if k <= 0 {
        0
    } else {
        count_newlines(s, k - 1) + if s[k - 1] == 10u8 { 1int } else { 0int }
    }
}

/// The index where the line holding byte `k - 1` starts: just after the last line feed among the
/// first `k` bytes, or 0.
pub open spec fn line_start(s: Seq<u8>, k: int) -> int
    decreases k,
{
    if k <= 0 {
        0
    } else if s[k - 1] == 10u8 {
        k
    } else {
        line_start(s, k - 1)
    }
}

/// The position of byte `index` of `s`; for an index past the end, the position just after the
/// last byte.
pub open spec fn spec_find_position(s: Seq<u8>, index: int) -> LinePosition {
    if 0 <= index < s.len() {
        LinePosition {
            line: (1 + count_newlines(s, index + 1)) as usize,
            column: (index + 1 - line_start(s, index + 1)) as usize,
        }
    } else {
        LinePosition {
            line: (1 + count_newlines(s, s.len() as int)) as usize,
            column: (s.len() - line_start(s, s.len() as int)) as usize,
        }
    }
}

/// `"line {line} column {column}"`
pub open spec fn spec_position_string(p: LinePosition) -> Seq<char> {
    "line "@ + decimal_chars(p.line as nat) + " column "@ + decimal_chars(p.column as nat)
}

/// `"{line}:{column}"`
pub open spec fn spec_position_short(p: LinePosition) -> Seq<char> {
    decimal_chars(p.line as nat) + ":"@ + decimal_chars(p.column as nat)
}

proof fn lemma_newline_bounds(s: Seq<u8>, k: int)
    requires
        0 <= k <= s.len(),
    ensures
        0 <= count_newlines(s, k) <= k,
        0 <= line_start(s, k) <= k,
    decreases k,
{
    if k > 0 {
        lemma_newline_bounds(s, k - 1);
    }
}

impl LinePosition {
    pub fn new(line: usize, column: usize) -> (r: Self)
        ensures
            r == (LinePosition { line, column }),
    {
        Self { line, column }
    }

    /// Find the line and column of byte `find` of `json_data`.
    pub fn find(json_data: &[u8], find: usize) -> (r: Self)
        requires
            json_data.len() < usize::MAX,
        ensures
            r == spec_find_position(json_data@, find as int),
    {
        let mut line: usize = 1;
        let mut last_line_start: usize = 0;
        let mut index: usize = 0;
        while index < json_data.len()
            invariant
                index <= json_data.len() < usize::MAX,
                line == 1 + count_newlines(json_data@, index as int),
                last_line_start == line_start(json_data@, index as int),
                index <= find || find >= json_data.len(),
            decreases json_data.len() - index,
        {
            proof {
                lemma_newline_bounds(json_data@, index as int);
            }
            if json_data[index] == 10u8 {
                line += 1;
                last_line_start = index + 1;
            }
            if index == find {
                proof {
                    lemma_newline_bounds(json_data@, index + 1);
                }
                return Self { line, column: index + 1 - last_line_start };
            }
            index += 1;
        }
        proof {
            lemma_newline_bounds(json_data@, index as int);
        }
        Self { line, column: index - last_line_start }
    }

    /// Append `"line {line} column {column}"` to `out`.
    pub fn write_to(&self, out: &mut String)
        ensures
            final(out)@ == old(out)@ + spec_position_string(*self),
    {
        out.append("line ");
        append_decimal(out, self.line);
        out.append(" column ");
        append_decimal(out, self.column);
    }

    /// `"line {line} column {column}"`, as the position is displayed.
    pub fn to_string(&self) -> (r: String)
        ensures
            r@ == spec_position_string(*self),
    {
        let mut out = String::new();
        self.write_to(&mut out);
        out
    }

    /// `"{line}:{column}"`
    pub fn short(&self) -> (r: String)
        ensures
            r@ == spec_position_short(*self),
    {
        let mut out = String::new();
        append_decimal(&mut out, self.line);
        out.append(":");
        append_decimal(&mut out, self.column);
        out
    }
}

} // verus!
