//! Writing JSON text from decoded batson values.
//!
//! The text is kept as bytes, with the floats that go into it kept aside by their binary64 bits
//! and the position where each goes: their decimal form is for the caller to write.
use vstd::prelude::*;
use vstd::string::*;
use vstd::utf8::*;

use crate::batson::errors::DecodeError;
use crate::text::decimal_chars;

verus! {

/// Why batson could not be written as JSON.
#[derive(Debug)]
pub enum ToJsonError {
    Str(&'static str),
    DecodeError(DecodeError),
    /// serde_json's error, by its message
    JsonError(String),
}

pub type ToJsonResult<T> = Result<T, ToJsonError>;

/// A piece of JSON text: a byte, or a float by its binary64 bits.
pub enum JsonPiece {
    Byte(u8),
    Float(u64),
}

/// The bytes `s` as pieces of text.
pub open spec fn text_pieces(s: Seq<u8>) -> Seq<JsonPiece> {
    s.map_values(|b: u8| JsonPiece::Byte(b))
}

/// The lowercase hexadecimal digit of `d`, below sixteen.
pub open spec fn hex_digit(d: u8) -> u8 {
    if d < 10 {
        (0x30 + d) as u8
    } else {
        (0x61 + d - 10) as u8
    }
}

/// What serde_json writes for the byte `b` of a string: a short escape for a quote, a
/// backslash, backspace, form feed, line feed, carriage return and tab; `\u00` and two
/// lowercase hexadecimal digits for the other bytes below `0x20`; the byte itself otherwise.
pub open spec fn json_escape_byte(b: u8) -> Seq<u8> {
    if b == 0x22 {
        seq![0x5cu8, 0x22]
    } else if b == 0x5c {
        seq![0x5cu8, 0x5c]
    } else if b == 0x08 {
        seq![0x5cu8, 0x62]
    } else if b == 0x0c {
        seq![0x5cu8, 0x66]
    } else if b == 0x0a {
        seq![0x5cu8, 0x6e]
    } else if b == 0x0d {
        seq![0x5cu8, 0x72]
    } else if b == 0x09 {
        seq![0x5cu8, 0x74]
    } else if b < 0x20 {
        seq![0x5cu8, 0x75, 0x30, 0x30, hex_digit(b / 16), hex_digit(b % 16)]
    } else {
        seq![b]
    }
}

/// The bytes `t` with each escaped as serde_json writes it in a string.
pub open spec fn json_escape_bytes(t: Seq<u8>) -> Seq<u8>
    decreases t.len(),
{
    if t.len() == 0 {
        Seq::empty()
    } else {
        json_escape_bytes(t.drop_last()) + json_escape_byte(t.last())
    }
}

/// The JSON string literal of `s`, as serde_json writes it: a quote, the UTF-8 bytes of `s`
/// each escaped, and a quote. Opaque where it is not revealed: most proofs carry it whole.
#[verifier::opaque]
pub open spec fn spec_json_string(s: Seq<char>) -> Seq<u8> {
    seq![0x22u8] + json_escape_bytes(encode_utf8(s)) + seq![0x22u8]
}

/// The ASCII bytes of the decimal digits of `n`.
pub open spec fn decimal_bytes(n: nat) -> Seq<u8> {
    decimal_chars(n).map_values(|c: char| c as u8)
}

/// The JSON number for the integer `v`: a minus sign if it is negative, then its digits.
pub open spec fn spec_json_int(v: int) -> Seq<u8> {
    if v < 0 {
        seq![0x2du8] + decimal_bytes((-v) as nat)
    } else {
        decimal_bytes(v as nat)
    }
}

/// Writes the JSON string literal of `value` to `out` with `serialize_str` of a serde_json
/// `Serializer`, and its error by its message. The serializer appends a quote, the bytes of
/// `value` escaped by its table (`spec_json_string`), and a quote; it fails only where its
/// writer does, and writing to a `Vec<u8>` appends and does not fail.
#[verifier::external_body]
fn serde_json_write_str(out: &mut Vec<u8>, value: &str) -> (r: Result<(), String>)
    ensures
        r is Ok,
        final(out)@ == old(out)@ + spec_json_string(value@),
{
    let mut ser = serde_json::Serializer::new(out);
    match ::serde::Serializer::serialize_str(&mut ser, value) {
        Ok(()) => Ok(()),
        Err(e) => Err(e.to_string()),
    }
}

/// Writes the integer `value` to `out` with `serialize_i64` of a serde_json `Serializer`, which
/// appends its decimal digits, after a minus sign if it is negative; it fails only where its
/// writer does, and writing to a `Vec<u8>` does not fail.
#[verifier::external_body]
fn serde_json_write_i64(out: &mut Vec<u8>, value: i64) -> (r: Result<(), String>)
    ensures
        r is Ok,
        final(out)@ == old(out)@ + spec_json_int(value as int),
{
    let mut ser = serde_json::Serializer::new(out);
    match ::serde::Serializer::serialize_i64(&mut ser, value) {
        Ok(()) => Ok(()),
        Err(e) => Err(e.to_string()),
    }
}

/// Writes the byte `value` as a number to `out` with `serialize_u8` of a serde_json
/// `Serializer`, which appends its decimal digits; it fails only where its writer does, and
/// writing to a `Vec<u8>` does not fail.
#[verifier::external_body]
fn serde_json_write_u8(out: &mut Vec<u8>, value: u8) -> (r: Result<(), String>)
    ensures
        r is Ok,
        final(out)@ == old(out)@ + spec_json_int(value as int),
{
    let mut ser = serde_json::Serializer::new(out);
    match ::serde::Serializer::serialize_u8(&mut ser, value) {
        Ok(()) => Ok(()),
        Err(e) => Err(e.to_string()),
    }
}

/// The text of the bytes `v` with the floats `f` put in, each before the byte at its position.
pub open spec fn render(v: Seq<u8>, f: Seq<(usize, u64)>) -> Seq<JsonPiece>
    decreases f.len(),
{
    if f.len() == 0 {
        text_pieces(v)
    } else {
        let p = f.last().0 as int;
        render(v.take(p), f.drop_last()) + seq![JsonPiece::Float(f.last().1)] + text_pieces(v.skip(p))
    }
}

/// Every float goes at a position within the bytes.
pub open spec fn positions_within(v: Seq<u8>, f: Seq<(usize, u64)>) -> bool {
    forall|i: int| 0 <= i < f.len() ==> #[trigger] f[i].0 <= v.len()
}

proof fn lemma_render_append(v: Seq<u8>, f: Seq<(usize, u64)>, t: Seq<u8>)
    requires
        positions_within(v, f),
    ensures
        render(v + t, f) == render(v, f) + text_pieces(t),
        positions_within(v + t, f),
{
    if f.len() == 0 {
        assert(text_pieces(v + t) =~= text_pieces(v) + text_pieces(t));
    } else {
        let p = f.last().0 as int;
        assert(f[f.len() - 1].0 <= v.len());
        assert((v + t).take(p) =~= v.take(p));
        assert((v + t).skip(p) =~= v.skip(p) + t);
        assert(text_pieces(v.skip(p) + t) =~= text_pieces(v.skip(p)) + text_pieces(t));
        assert(render(v + t, f) =~= render(v, f) + text_pieces(t));
    }
}

proof fn lemma_render_float(v: Seq<u8>, f: Seq<(usize, u64)>, bits: u64)
    requires
        positions_within(v, f),
        v.len() <= usize::MAX,
    ensures
        render(v, f.push((v.len() as usize, bits))) == render(v, f).push(JsonPiece::Float(bits)),
        positions_within(v, f.push((v.len() as usize, bits))),
{
    let g = f.push((v.len() as usize, bits));
    assert(g.drop_last() =~= f);
    assert(v.take(v.len() as int) =~= v);
    assert(text_pieces(v.skip(v.len() as int)) =~= Seq::<JsonPiece>::empty());
    assert(render(v, g) =~= render(v, f).push(JsonPiece::Float(bits)));
    assert forall|i: int| 0 <= i < g.len() implies #[trigger] g[i].0 <= v.len() by {
        if i < f.len() {
            assert(g[i] == f[i]);
        }
    }
}

/// `null`.
pub open spec fn null_text() -> Seq<JsonPiece> {
    text_pieces(seq![0x6eu8, 0x75, 0x6c, 0x6c])
}

/// `true` or `false`.
pub open spec fn bool_text(b: bool) -> Seq<JsonPiece> {
    if b {
        text_pieces(seq![0x74u8, 0x72, 0x75, 0x65])
    } else {
        text_pieces(seq![0x66u8, 0x61, 0x6c, 0x73, 0x65])
    }
}

/// The texts `items` with a comma between each two.
pub open spec fn comma_list(items: Seq<Seq<JsonPiece>>) -> Seq<JsonPiece>
    decreases items.len(),
{
    if items.len() == 0 {
        Seq::empty()
    } else if items.len() == 1 {
        items[0]
    } else {
        comma_list(items.drop_last()) + text_pieces(seq![0x2cu8]) + items.last()
    }
}

/// A JSON array of the texts `items`.
pub open spec fn array_text(items: Seq<Seq<JsonPiece>>) -> Seq<JsonPiece> {
    text_pieces(seq![0x5bu8]) + comma_list(items) + text_pieces(seq![0x5du8])
}

/// A JSON object of the texts `entries`, each a key, its colon and its value.
pub open spec fn object_text(entries: Seq<Seq<JsonPiece>>) -> Seq<JsonPiece> {
    text_pieces(seq![0x7bu8]) + comma_list(entries) + text_pieces(seq![0x7du8])
}

/// The text of an entry of an object: the key `key`, a colon, and the text of the value.
pub open spec fn entry_text(key: Seq<char>, value: Seq<JsonPiece>) -> Seq<JsonPiece> {
    text_pieces(spec_json_string(key).push(0x3a)) + value
}

/// One more item in a comma list.
pub proof fn lemma_comma_list_push(items: Seq<Seq<JsonPiece>>, x: Seq<JsonPiece>)
    ensures
        comma_list(items.push(x)) == if items.len() == 0 {
            x
        } else {
            comma_list(items) + text_pieces(seq![0x2cu8]) + x
        },
{
    assert(items.push(x).drop_last() =~= items);
}

/// A value that can be written as JSON.
pub trait WriteJson {
    /// The JSON text of this value.
    spec fn spec_json(&self) -> Seq<JsonPiece>;

    /// Append the JSON text of this value to `writer`.
    fn write_json(&self, writer: &mut JsonWriter) -> (r: ToJsonResult<()>)
        requires
            old(writer).wf(),
        ensures
            final(writer).wf(),
            final(writer).spec_pieces() == old(writer).spec_pieces() + self.spec_json(),
            r is Ok,
    ;
}

/// A buffer of JSON text: its bytes, and the floats that go into it by position and bits.
pub struct JsonWriter {
    vec: Vec<u8>,
    floats: Vec<(usize, u64)>,
}

impl JsonWriter {
    /// The text written so far.
    pub closed spec fn spec_pieces(&self) -> Seq<JsonPiece> {
        render(self.vec@, self.floats@)
    }

    /// Every float goes at a position within the bytes.
    pub closed spec fn wf(&self) -> bool {
        positions_within(self.vec@, self.floats@)
    }

    /// The bytes, with no floats in them.
    pub closed spec fn spec_bytes(&self) -> Seq<u8> {
        self.vec@
    }

    /// The floats, each with the position in the bytes where it goes.
    pub closed spec fn spec_floats(&self) -> Seq<(usize, u64)> {
        self.floats@
    }

    /// The text is the bytes with the floats put in.
    pub proof fn lemma_pieces(&self)
        ensures
            self.spec_pieces() == render(self.spec_bytes(), self.spec_floats()),
            self.wf() == positions_within(self.spec_bytes(), self.spec_floats()),
    {
    }

    /// An empty buffer.
    pub fn new() -> (r: Self)
        ensures
            r.wf(),
            r.spec_pieces() == Seq::<JsonPiece>::empty(),
    {
        let r = JsonWriter { vec: Vec::with_capacity(128), floats: Vec::new() };
        assert(text_pieces(r.vec@) =~= Seq::<JsonPiece>::empty());
        r
    }

    /// Append the byte `b`.
    fn push_byte(&mut self, b: u8)
        requires
            old(self).wf(),
        ensures
            final(self).wf(),
            final(self).spec_pieces() == old(self).spec_pieces() + text_pieces(seq![b]),
    {
        proof {
            lemma_render_append(self.vec@, self.floats@, seq![b]);
            assert(self.vec@.push(b) =~= self.vec@ + seq![b]);
        }
        self.vec.push(b);
    }

    /// Append the bytes `b`.
    fn push_bytes(&mut self, b: &[u8])
        requires
            old(self).wf(),
        ensures
            final(self).wf(),
            final(self).spec_pieces() == old(self).spec_pieces() + text_pieces(b@),
    {
        proof {
            lemma_render_append(self.vec@, self.floats@, b@);
        }
        self.vec.extend_from_slice(b);
        assert(self.vec@ =~= old(self).vec@ + b@);
    }

    /// Append `null`.
    pub fn write_null(&mut self)
        requires
            old(self).wf(),
        ensures
            final(self).wf(),
            final(self).spec_pieces() == old(self).spec_pieces() + null_text(),
    {
        self.push_bytes(&[0x6e, 0x75, 0x6c, 0x6c]);
    }

    /// Append the JSON text of `v`.
    pub fn write_value<V: WriteJson>(&mut self, v: V) -> (r: ToJsonResult<()>)
        requires
            old(self).wf(),
        ensures
            final(self).wf(),
            final(self).spec_pieces() == old(self).spec_pieces() + v.spec_json(),
            r is Ok,
    {
        v.write_json(self)
    }

    /// Append the float with binary64 bits `bits`.
    pub fn write_float(&mut self, bits: u64)
        requires
            old(self).wf(),
        ensures
            final(self).wf(),
            final(self).spec_pieces() == old(self).spec_pieces().push(JsonPiece::Float(bits)),
    {
        let at = self.vec.len();
        proof {
            lemma_render_float(self.vec@, self.floats@, bits);
        }
        self.floats.push((at, bits));
    }

    /// Append a JSON array of the items `v`.
    pub fn write_seq<T: WriteJson>(&mut self, v: &[T]) -> (r: ToJsonResult<()>)
        requires
            old(self).wf(),
        ensures
            final(self).wf(),
            final(self).spec_pieces() == old(self).spec_pieces() + array_text(
                v@.map_values(|x: T| x.spec_json()),
            ),
            r is Ok,
    {
        let ghost before = self.spec_pieces();
        let ghost texts = v@.map_values(|x: T| x.spec_json());
        self.start_array();
        let mut k: usize = 0;
        while k < v.len()
            invariant
                k <= v.len(),
                self.wf(),
                texts == v@.map_values(|x: T| x.spec_json()),
                self.spec_pieces() == before + text_pieces(seq![0x5bu8]) + comma_list(texts.take(k as int)),
            decreases v.len() - k,
        {
            proof {
                lemma_comma_list_push(texts.take(k as int), texts[k as int]);
                assert(texts.take(k as int).push(texts[k as int]) =~= texts.take(k + 1));
            }
            if k > 0 {
                self.comma();
            }
            match v[k].write_json(self) {
                Ok(()) => {},
                Err(e) => return Err(e),
            }
            k += 1;
        }
        self.end_array();
        assert(texts.take(v.len() as int) =~= texts);
        Ok(())
    }

    /// Append `[]`.
    pub fn write_empty_array(&mut self)
        requires
            old(self).wf(),
        ensures
            final(self).wf(),
            final(self).spec_pieces() == old(self).spec_pieces() + array_text(Seq::empty()),
    {
        self.push_bytes(&[0x5b, 0x5d]);
        assert(text_pieces(seq![0x5bu8, 0x5d]) =~= array_text(Seq::empty()));
    }

    /// Append `[`.
    pub fn start_array(&mut self)
        requires
            old(self).wf(),
        ensures
            final(self).wf(),
            final(self).spec_pieces() == old(self).spec_pieces() + text_pieces(seq![0x5bu8]),
    {
        self.push_byte(0x5b);
    }

    /// Append `]`.
    pub fn end_array(&mut self)
        requires
            old(self).wf(),
        ensures
            final(self).wf(),
            final(self).spec_pieces() == old(self).spec_pieces() + text_pieces(seq![0x5du8]),
    {
        self.push_byte(0x5d);
    }

    /// Append the key `key` of an object and its colon.
    pub fn write_key(&mut self, key: &str) -> (r: ToJsonResult<()>)
        requires
            old(self).wf(),
        ensures
            final(self).wf(),
            final(self).spec_pieces() == old(self).spec_pieces() + text_pieces(
                spec_json_string(key@).push(0x3a),
            ),
            r is Ok,
    {
        let ghost v0 = self.vec@;
        let r = serde_json_write_str(&mut self.vec, key);
        proof {
            lemma_extended(v0, self.floats@, self.vec@);
        }
        match r {
            Ok(()) => {},
            Err(e) => return Err(ToJsonError::JsonError(e)),
        }
        proof {
            lemma_render_append(v0, self.floats@, spec_json_string(key@).push(0x3a));
        }
        self.vec.push(0x3a);
        assert(self.vec@ =~= v0 + spec_json_string(key@).push(0x3a));
        Ok(())
    }

    /// Append `{}`.
    pub fn write_empty_object(&mut self)
        requires
            old(self).wf(),
        ensures
            final(self).wf(),
            final(self).spec_pieces() == old(self).spec_pieces() + object_text(Seq::empty()),
    {
        self.push_bytes(&[0x7b, 0x7d]);
        assert(text_pieces(seq![0x7bu8, 0x7d]) =~= object_text(Seq::empty()));
    }

    /// Append `{`.
    pub fn start_object(&mut self)
        requires
            old(self).wf(),
        ensures
            final(self).wf(),
            final(self).spec_pieces() == old(self).spec_pieces() + text_pieces(seq![0x7bu8]),
    {
        self.push_byte(0x7b);
    }

    /// Append `}`.
    pub fn end_object(&mut self)
        requires
            old(self).wf(),
        ensures
            final(self).wf(),
            final(self).spec_pieces() == old(self).spec_pieces() + text_pieces(seq![0x7du8]),
    {
        self.push_byte(0x7d);
    }

    /// Append `,`.
    pub fn comma(&mut self)
        requires
            old(self).wf(),
        ensures
            final(self).wf(),
            final(self).spec_pieces() == old(self).spec_pieces() + text_pieces(seq![0x2cu8]),
    {
        self.push_byte(0x2c);
    }

    /// The bytes written, and the floats that go into them, each with its position.
    pub fn into_parts(self) -> (r: (Vec<u8>, Vec<(usize, u64)>))
        ensures
            r.0@ == self.spec_bytes(),
            r.1@ == self.spec_floats(),
    {
        (self.vec, self.floats)
    }
}

/// Appends what `append` wrote to `out` to the writer's text, when it wrote `t`.
proof fn lemma_appended(v0: Seq<u8>, f: Seq<(usize, u64)>, v1: Seq<u8>, t: Seq<u8>)
    requires
        positions_within(v0, f),
        v1 == v0 + t,
    ensures
        positions_within(v1, f),
        render(v1, f) == render(v0, f) + text_pieces(t),
{
    lemma_render_append(v0, f, t);
}

/// The writer stays well formed whatever an appending call wrote.
proof fn lemma_extended(v0: Seq<u8>, f: Seq<(usize, u64)>, v1: Seq<u8>)
    requires
        positions_within(v0, f),
        v0.is_prefix_of(v1),
    ensures
        positions_within(v1, f),
{
    assert(v1 =~= v0 + v1.skip(v0.len() as int));
    lemma_render_append(v0, f, v1.skip(v0.len() as int));
}

impl<'a> WriteJson for &'a str {
    open spec fn spec_json(&self) -> Seq<JsonPiece> {
        text_pieces(spec_json_string((*self)@))
    }

    fn write_json(&self, writer: &mut JsonWriter) -> (r: ToJsonResult<()>) {
        let ghost v0 = writer.vec@;
        let r = serde_json_write_str(&mut writer.vec, self);
        proof {
            lemma_extended(v0, writer.floats@, writer.vec@);
            if r is Ok {
                lemma_appended(v0, writer.floats@, writer.vec@, spec_json_string((*self)@));
            }
        }
        match r {
            Ok(()) => Ok(()),
            Err(e) => Err(ToJsonError::JsonError(e)),
        }
    }
}

impl WriteJson for bool {
    open spec fn spec_json(&self) -> Seq<JsonPiece> {
        bool_text(*self)
    }

    fn write_json(&self, writer: &mut JsonWriter) -> (r: ToJsonResult<()>)
        ensures
            r is Ok,
    {
        if *self {
            writer.push_bytes(&[0x74, 0x72, 0x75, 0x65]);
        } else {
            writer.push_bytes(&[0x66, 0x61, 0x6c, 0x73, 0x65]);
        }
        Ok(())
    }
}

impl WriteJson for u8 {
    open spec fn spec_json(&self) -> Seq<JsonPiece> {
        text_pieces(spec_json_int(*self as int))
    }

    fn write_json(&self, writer: &mut JsonWriter) -> (r: ToJsonResult<()>) {
        let ghost v0 = writer.vec@;
        let r = serde_json_write_u8(&mut writer.vec, *self);
        proof {
            lemma_extended(v0, writer.floats@, writer.vec@);
            if r is Ok {
                lemma_appended(v0, writer.floats@, writer.vec@, spec_json_int(*self as int));
            }
        }
        match r {
            Ok(()) => Ok(()),
            Err(e) => Err(ToJsonError::JsonError(e)),
        }
    }
}

impl WriteJson for i64 {
    open spec fn spec_json(&self) -> Seq<JsonPiece> {
        text_pieces(spec_json_int(*self as int))
    }

    fn write_json(&self, writer: &mut JsonWriter) -> (r: ToJsonResult<()>) {
        let ghost v0 = writer.vec@;
        let r = serde_json_write_i64(&mut writer.vec, *self);
        proof {
            lemma_extended(v0, writer.floats@, writer.vec@);
            if r is Ok {
                lemma_appended(v0, writer.floats@, writer.vec@, spec_json_int(*self as int));
            }
        }
        match r {
            Ok(()) => Ok(()),
            Err(e) => Err(ToJsonError::JsonError(e)),
        }
    }
}

} // verus!
