//! A JSON parser and iterator, and a compact binary encoding of JSON values.
pub mod errors;
pub mod text;
pub mod parse;
pub mod utf8;
pub mod string_decoder;
pub mod number_decoder;
pub mod value;
pub mod value_tree;
pub mod jiter;
pub mod batson;
pub mod serde;
