//! Batson: a compact binary encoding of JSON values, with headers that say each value's type and
//! size, and objects whose keys can be found by binary search.
pub mod errors;
pub mod header;
pub mod encoder;
pub mod decoder;
pub mod object;
pub mod array;
pub mod json_writer;
pub mod to_json;
pub mod round_trip;
pub mod zero_sign;
pub mod frame;
pub mod get;
pub mod text_view;
pub mod check;

use vstd::prelude::*;

use crate::batson::decoder::{casts_value, spec_take_value, Decoded, Decoder};
use crate::batson::encoder::{encodable, spec_encode_value, Encoder};
use crate::batson::errors::{DecodeError, DecodeResult, EncodeError, EncodeResult};
use crate::value::{json_view, JsonValue};

verus! {

/// Encode `value` as batson bytes.
pub fn encode_from_json(value: &JsonValue) -> (r: EncodeResult<Vec<u8>>)
    requires
        encodable(*value),
    ensures
        match spec_encode_value(*value, Seq::empty()) {
            Ok(d) => r matches Ok(v) && v@ == d,
            Err(e) => r == Err::<Vec<u8>, EncodeError>(e),
        },
{
    let mut encoder = Encoder::new();
    match encoder.encode_value(value) {
        Ok(()) => {},
        Err(e) => return Err(e),
    }
    Ok(encoder.into_bytes())
}

/// Decode batson bytes to the value they start with.
pub fn decode_to_json_value(bytes: &[u8]) -> (r: DecodeResult<JsonValue>)
    requires
        bytes@.len() <= isize::MAX,
        !(spec_take_value(bytes@, 0) is Panic),
    ensures
        (casts_value(bytes@, 0) && (r matches Err(e) && e.error_type is PodCastError)) || match spec_take_value(bytes@, 0) {
            Decoded::Done(v, _) => r matches Ok(x) && json_view(x) == v,
            Decoded::Fail(e) => r == Err::<JsonValue, DecodeError>(e),
            Decoded::BadUtf8(i) => r matches Err(e) && e.index == i && e.error_type is Utf8Error,
            Decoded::Panic => false,
        },
{
    let mut decoder = Decoder::new(bytes);
    decoder.take_value()
}

} // verus!
