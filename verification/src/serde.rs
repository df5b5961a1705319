//! The state of a serde deserializer over the parser: its options, its nesting depth, and its
//! errors. The `Deserializer` trait itself is implemented outside this library.
use vstd::prelude::*;
use vstd::string::*;

use crate::errors::{
    spec_description, spec_error_type_message, spec_find_position, spec_json_error_string,
    spec_position_string, JsonError, JsonErrorType, LinePosition, DEFAULT_RECURSION_LIMIT,
};
use crate::parse::{skip_ws, spec_finish, Parser};
use crate::string_decoder::Tape;
use crate::text::{append_decimal, decimal_chars};

verus! {

/// Ways a JSON value can fail to match an enum's expected shape.
#[derive(Debug, Clone, Copy, PartialEq, Eq)]
pub enum EnumError {
    /// neither a string (unit variant) nor a single-key object
    NotStringOrSingleKeyObject,
    /// the object did not contain exactly one key
    NotSingleKey,
}

/// The message of an enum error.
pub open spec fn spec_enum_error_message(e: EnumError) -> Seq<char> {
    match e {
        EnumError::NotStringOrSingleKeyObject => "expected a string or single-key object for an enum"@,
        EnumError::NotSingleKey => "expected a single-key object for an enum"@,
    }
}

impl EnumError {
    /// The message of this error.
    pub fn to_string(&self) -> (r: String)
        ensures
            r@ == spec_enum_error_message(*self),
    {
        match self {
            EnumError::NotStringOrSingleKeyObject => String::from_str(
                "expected a string or single-key object for an enum",
            ),
            EnumError::NotSingleKey => String::from_str("expected a single-key object for an enum"),
        }
    }
}

/// An error from deserializing JSON.
#[derive(Debug, Clone, PartialEq, Eq)]
pub enum Error {
    /// A JSON syntax error from the parser.
    Syntax(JsonError),
    /// A `serde` error (type mismatch, missing field, ...); `index` is set when the position is
    /// known.
    Data { message: String, index: Option<usize> },
    /// A malformed enum encoding.
    Enum { kind: EnumError, index: usize },
}

/// The byte index of an error, if known.
pub open spec fn spec_error_index(e: Error) -> Option<usize> {
    match e {
        Error::Syntax(err) => Some(err.index),
        Error::Data { index, .. } => index,
        Error::Enum { index, .. } => Some(index),
    }
}

/// An error as it is displayed: its message, then where it occurred if that is known.
pub open spec fn spec_error_string(e: Error) -> Seq<char> {
    match e {
        Error::Syntax(err) => spec_json_error_string(err),
        Error::Data { message, index: Some(index) } => message@ + " at index "@ + decimal_chars(
            index as nat,
        ),
        Error::Data { message, index: None } => message@,
        Error::Enum { kind, index } => spec_enum_error_message(kind) + " at index "@
            + decimal_chars(index as nat),
    }
}

/// An error with its line and column in `data`, where its position is known.
pub open spec fn spec_error_description(e: Error, data: Seq<u8>) -> Seq<char> {
    match e {
        Error::Syntax(err) => spec_description(spec_error_type_message(err.error_type), data, err.index as int),
        Error::Data { message, index: Some(index) } => spec_description(message@, data, index as int),
        Error::Data { message, index: None } => message@,
        Error::Enum { kind, index } => spec_description(spec_enum_error_message(kind), data, index as int),
    }
}

impl Error {
    /// The byte index where the error occurred, if known.
    pub fn index(&self) -> (r: Option<usize>)
        ensures
            r == spec_error_index(*self),
    {
        match self {
            Error::Syntax(err) => Some(err.index),
            Error::Data { index, .. } => *index,
            Error::Enum { index, .. } => Some(*index),
        }
    }

    /// The line and column of the error in `data`, if its position is known.
    pub fn get_position(&self, data: &[u8]) -> (r: Option<LinePosition>)
        requires
            data.len() < usize::MAX,
        ensures
            r == (match spec_error_index(*self) {
                Some(i) => Some(spec_find_position(data@, i as int)),
                None => None,
            }),
    {
        match self.index() {
            Some(index) => Some(LinePosition::find(data, index)),
            None => None,
        }
    }

    /// The error with its line and column in `data`, where its position is known.
    pub fn description(&self, data: &[u8]) -> (r: String)
        requires
            data.len() < usize::MAX,
        ensures
            r@ == spec_error_description(*self, data@),
    {
        match self {
            Error::Syntax(err) => err.description(data),
            Error::Data { message, index: Some(index) } => {
                let mut out = message.clone();
                out.append(" at ");
                LinePosition::find(data, *index).write_to(&mut out);
                out
            },
            Error::Data { message, index: None } => message.clone(),
            Error::Enum { kind, index } => {
                let mut out = kind.to_string();
                out.append(" at ");
                LinePosition::find(data, *index).write_to(&mut out);
                out
            },
        }
    }

    /// The error as it is displayed.
    pub fn to_string(&self) -> (r: String)
        ensures
            r@ == spec_error_string(*self),
    {
        match self {
            Error::Syntax(err) => err.to_string(),
            Error::Data { message, index: Some(index) } => {
                let mut out = message.clone();
                out.append(" at index ");
                append_decimal(&mut out, *index);
                out
            },
            Error::Data { message, index: None } => message.clone(),
            Error::Enum { kind, index } => {
                let mut out = kind.to_string();
                out.append(" at index ");
                append_decimal(&mut out, *index);
                out
            },
        }
    }

    /// A parser error.
    pub fn from_json_error(err: JsonError) -> (r: Self)
        ensures
            r == Error::Syntax(err),
    {
        Error::Syntax(err)
    }

    /// Give an error of serde, whose position was not known, the position `index`.
    pub fn stamp_index(self, index: usize) -> (r: Self)
        ensures
            r == (match self {
                Error::Data { message, index: None } => Error::Data { message, index: Some(index) },
                e => e,
            }),
    {
        match self {
            Error::Data { message, index: None } => Error::Data { message, index: Some(index) },
            e => e,
        }
    }
}

/// The state of a deserializer: the parser and its tape, whether non-finite numbers are
/// accepted, the nesting limit (`None` for none) and the current nesting depth.
#[derive(Debug)]
pub struct JiterDeserializer<'j> {
    pub parser: Parser<'j>,
    pub tape: Tape,
    allow_inf_nan: bool,
    recursion_limit: Option<usize>,
    depth: usize,
}

impl<'j> JiterDeserializer<'j> {
    pub closed spec fn spec_parser(&self) -> Parser<'j> {
        self.parser
    }

    pub closed spec fn spec_allow_inf_nan(&self) -> bool {
        self.allow_inf_nan
    }

    pub closed spec fn spec_recursion_limit(&self) -> Option<usize> {
        self.recursion_limit
    }

    pub closed spec fn spec_depth(&self) -> usize {
        self.depth
    }

    /// A deserializer at the start of `data`, with the default nesting limit and no non-finite
    /// numbers.
    pub fn new(data: &'j [u8]) -> (r: Self)
        requires
            data.len() <= isize::MAX,
        ensures
            r.spec_parser().data == data,
            r.spec_parser().index == 0,
            r.spec_parser().wf(),
            !r.spec_allow_inf_nan(),
            r.spec_recursion_limit() == Some(DEFAULT_RECURSION_LIMIT as usize),
            r.spec_depth() == 0,
    {
        JiterDeserializer {
            parser: Parser::new(data),
            tape: Vec::new(),
            allow_inf_nan: false,
            recursion_limit: Some(DEFAULT_RECURSION_LIMIT as usize),
            depth: 0,
        }
    }

    /// Accept `NaN`, `Infinity` and `-Infinity` as numbers.
    pub fn with_allow_inf_nan(self) -> (r: Self)
        ensures
            r.spec_parser() == self.spec_parser(),
            r.spec_allow_inf_nan(),
            r.spec_recursion_limit() == self.spec_recursion_limit(),
            r.spec_depth() == self.spec_depth(),
    {
        let mut d = self;
        d.allow_inf_nan = true;
        d
    }

    /// Set the nesting limit; deeper input is an error.
    pub fn with_recursion_limit(self, limit: usize) -> (r: Self)
        ensures
            r.spec_parser() == self.spec_parser(),
            r.spec_allow_inf_nan() == self.spec_allow_inf_nan(),
            r.spec_recursion_limit() == Some(limit),
            r.spec_depth() == self.spec_depth(),
    {
        let mut d = self;
        d.recursion_limit = Some(limit);
        d
    }

    /// Remove the nesting limit.
    pub fn disable_recursion_limit(self) -> (r: Self)
        ensures
            r.spec_parser() == self.spec_parser(),
            r.spec_allow_inf_nan() == self.spec_allow_inf_nan(),
            r.spec_recursion_limit() == None::<usize>,
            r.spec_depth() == self.spec_depth(),
    {
        let mut d = self;
        d.recursion_limit = None;
        d
    }

    /// Whether non-finite numbers are accepted.
    pub fn allow_inf_nan(&self) -> (r: bool)
        ensures
            r == self.spec_allow_inf_nan(),
    {
        self.allow_inf_nan
    }

    /// The current nesting depth.
    pub fn depth(&self) -> (r: usize)
        ensures
            r == self.spec_depth(),
    {
        self.depth
    }

    /// An error unless only whitespace is left.
    pub fn finish(&mut self) -> (r: Result<(), Error>)
        requires
            old(self).spec_parser().wf(),
        ensures
            final(self).spec_parser().wf(),
            final(self).spec_parser().data == old(self).spec_parser().data,
            final(self).spec_parser().index == skip_ws(old(self).spec_parser().data@, old(self).spec_parser().index as int),
            r == (match spec_finish(old(self).spec_parser().data@, old(self).spec_parser().index as int) {
                Ok(()) => Ok::<(), Error>(()),
                Err(e) => Err(Error::Syntax(e)),
            }),
            final(self).spec_depth() == old(self).spec_depth(),
            final(self).spec_recursion_limit() == old(self).spec_recursion_limit(),
            final(self).spec_allow_inf_nan() == old(self).spec_allow_inf_nan(),
    {
        match self.parser.finish() {
            Ok(()) => Ok(()),
            Err(e) => Err(Error::Syntax(e)),
        }
    }

    /// Enter a nested array or object: an error once the depth passes the nesting limit.
    pub fn enter(&mut self) -> (r: Result<(), Error>)
        requires
            old(self).spec_depth() < usize::MAX,
        ensures
            final(self).spec_depth() == old(self).spec_depth() + 1,
            final(self).spec_parser() == old(self).spec_parser(),
            final(self).spec_recursion_limit() == old(self).spec_recursion_limit(),
            final(self).spec_allow_inf_nan() == old(self).spec_allow_inf_nan(),
            r == (match old(self).spec_recursion_limit() {
                Some(limit) => if old(self).spec_depth() + 1 > limit {
                    Err(
                        Error::Syntax(
                            JsonError {
                                error_type: JsonErrorType::RecursionLimitExceeded,
                                index: old(self).spec_parser().index,
                            },
                        ),
                    )
                } else {
                    Ok::<(), Error>(())
                },
                None => Ok(()),
            }),
    {
        self.depth += 1;
        match self.recursion_limit {
            Some(limit) => if self.depth > limit {
                Err(
                    Error::Syntax(
                        JsonError::new(JsonErrorType::RecursionLimitExceeded, self.parser.index),
                    ),
                )
            } else {
                Ok(())
            },
            None => Ok(()),
        }
    }

    /// Leave a nested array or object.
    pub fn leave(&mut self)
        requires
            old(self).spec_depth() > 0,
        ensures
            final(self).spec_depth() == old(self).spec_depth() - 1,
            final(self).spec_parser() == old(self).spec_parser(),
            final(self).spec_recursion_limit() == old(self).spec_recursion_limit(),
            final(self).spec_allow_inf_nan() == old(self).spec_allow_inf_nan(),
    {
        self.depth -= 1;
    }

    /// The nesting that skipping a value may still use: what is left of the limit, at most
    /// 255, or 255 with no limit.
    pub fn skip_recursion_budget(&self) -> (r: u8)
        ensures
            r == (match self.spec_recursion_limit() {
                None => 255,
                Some(limit) => if limit <= self.spec_depth() {
                    0
                } else if limit - self.spec_depth() > 255 {
                    255
                } else {
                    (limit - self.spec_depth()) as u8
                },
            }),
    {
        match self.recursion_limit {
            None => 255,
            Some(limit) => if limit <= self.depth {
                0
            } else if limit - self.depth > 255 {
                255
            } else {
                (limit - self.depth) as u8
            },
        }
    }
}

} // verus!
