//! Errors of encoding and decoding batson.
use vstd::prelude::*;

verus! {

#[verifier::external_type_specification]
#[verifier::external_body]
pub struct ExUtf8Error(simdutf8::basic::Utf8Error);

#[verifier::external_type_specification]
#[verifier::external_body]
pub struct ExPodCastError(bytemuck::PodCastError);

pub type EncodeResult<T> = Result<T, EncodeError>;

/// Why a value cannot be encoded: a length beyond what a `u32` holds.
#[derive(Debug, Copy, Clone, PartialEq, Eq)]
pub enum EncodeError {
    StrTooLong,
    ObjectTooLarge,
    ArrayTooLarge,
}

pub type DecodeResult<T> = Result<T, DecodeError>;

/// An error from decoding batson: what went wrong and the byte index where it did.
#[derive(Debug, Copy, Clone, PartialEq, Eq)]
pub struct DecodeError {
    pub index: usize,
    pub error_type: DecodeErrorType,
}

/// Every error that decoding batson can raise.
#[derive(Debug, Copy, Clone, PartialEq, Eq)]
pub enum DecodeErrorType {
    EOF,
    ObjectBodyIndexInvalid,
    HeaderInvalid { value: u8, ty: &'static str },
    Utf8Error(simdutf8::basic::Utf8Error),
    PodCastError(bytemuck::PodCastError),
}

impl DecodeError {
    pub fn new(index: usize, error_type: DecodeErrorType) -> (r: Self)
        ensures
            r == (DecodeError { index, error_type }),
    {
        DecodeError { index, error_type }
    }

    /// The error for input that is not valid UTF-8, at `index`.
    pub fn from_utf8_error(index: usize, error: simdutf8::basic::Utf8Error) -> (r: Self)
        ensures
            r == (DecodeError { index, error_type: DecodeErrorType::Utf8Error(error) }),
    {
        Self::new(index, DecodeErrorType::Utf8Error(error))
    }
}

} // verus!
