# jiter

A fast iterable JSON parser, and batson, a compact binary encoding of JSON values whose
objects can be searched without decoding them, with their behaviour stated in Verus contracts
and proved.

## Layout

- `src/` — the verified library.
  - `parse.rs`, `string_decoder.rs`, `number_decoder.rs`, `utf8.rs`: the parser, string
    decoding (escapes, surrogate pairs, partial strings), integer and number-extent decoding,
    and UTF-8 validation, each against a specification over the input bytes.
  - `jiter.rs`: `Jiter`, the iterator over JSON values, and its wrong-type errors.
  - `value.rs`: the library's `JsonValue` (floats by their binary64 bits), skipping values
    with a nesting limit, and skipping a whole array or object (`skip_container`).
  - `value_tree.rs`: parsing a JSON value into a tree (`ValueTree`) with a nesting limit and
    the partial modes for input cut short; a float leaf is the extent of its text.
  - `serde.rs`: the state of the serde deserializer (nesting, errors and their positions).
  - `errors.rs`, `text.rs`: errors, their messages and line/column positions.
  - `batson/`: encoding (`encoder.rs`, `array.rs`, `object.rs`), decoding (`decoder.rs`,
    `header.rs`), finding whether decoding meets what is not decoded (`check.rs`), lookups by
    path (`get.rs`), JSON text (`json_writer.rs`, `to_json.rs`), the
    text of a decoded value (`text_view.rs`), the locality of decoding (`frame.rs`) and the
    laws relating encoding to decoding and to JSON text (`round_trip.rs`, and `zero_sign.rs` for
    values holding negative zero).
- `app/` — what the library does not hold: floats (parsing float text, and `JsonValue` with
  `f64`, built from the library's tree),
  the serde trait impls, a lazily indexed map, and writing the floats of batson's JSON text.
- `tests/` — tests of the library.

Outside crates used in `src/` stand behind small trusted wrappers, each with a doc comment
saying what its contract claims: num-bigint (building big integers), simdutf8 (UTF-8 checks),
bitvec (the nesting stack of `skip`), bytemuck (reading and writing numbers in place) and
serde_json (writing strings and integers as JSON).
