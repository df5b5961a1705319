//! Writing batson straight to JSON text, without building the values.
use vstd::prelude::*;
use vstd::string::*;
use vstd::utf8::*;

use crate::batson::array::{
    i64_array_slice, spec_het_header, spec_i64_array, spec_u8_array, u8_array_slice, HetArray,
};
use crate::batson::decoder::{
    wide, hint_float_bits, int_size, le_value, spec_take_slice, twos_complement, Decoder,
};
use crate::batson::errors::{DecodeError, DecodeErrorType};
use crate::batson::header::{
    number_hint_code, spec_header_of, spec_read_header, spec_read_length, Header, Length, NumberHint,
};
use crate::batson::json_writer::{
    array_text, bool_text, comma_list, entry_text, lemma_comma_list_push, null_text, object_text,
    spec_json_int, spec_json_string, text_pieces, JsonPiece, JsonWriter, ToJsonError, ToJsonResult,
    WriteJson,
};
use crate::batson::object::{items_view, spec_object_header, Object};

verus! {

/// What writing gives: the text and where reading ended, a decoding error, invalid UTF-8 at an
/// index, a value that batson cannot write as JSON, or a panic.
pub enum Written<T> {
    Done(T, int),
    Fail(DecodeError),
    BadUtf8(int),
    Refused,
    Panic,
}

/// The text of the integer `v`.
pub open spec fn int_text(v: int) -> Seq<JsonPiece> {
    text_pieces(spec_json_int(v))
}

/// The text of the string `s`.
pub open spec fn str_text(s: Seq<char>) -> Seq<JsonPiece> {
    text_pieces(spec_json_string(s))
}

/// The text that the header `h` alone gives, as an item of an array of headers: `None` where
/// that panics (a number given by its size rather than its value), `Some(None)` where batson
/// cannot write it (a big integer, or a length that is not empty).
pub open spec fn spec_header_text(h: Header) -> Option<Option<Seq<JsonPiece>>> {
    match h {
        Header::Null => Some(Some(null_text())),
        Header::Bool(b) => Some(Some(bool_text(b))),
        Header::Int(n) => if number_hint_code(n) <= 10 {
            Some(Some(int_text(number_hint_code(n) as int)))
        } else {
            None
        },
        Header::IntBig(..) => Some(None),
        Header::Float(n) => if number_hint_code(n) <= 10 {
            Some(Some(seq![JsonPiece::Float(hint_float_bits(n))]))
        } else {
            None
        },
        Header::Str(l) => if l == Length::Empty {
            Some(Some(str_text(Seq::empty())))
        } else {
            Some(None)
        },
        Header::Object(l) => if l == Length::Empty {
            Some(Some(object_text(Seq::empty())))
        } else {
            Some(None)
        },
        Header::HeaderArray(l) | Header::U8Array(l) | Header::I64Array(l) | Header::HetArray(l) => if l
            == Length::Empty {
            Some(Some(array_text(Seq::empty())))
        } else {
            Some(None)
        },
    }
}

/// The texts of the header bytes `t` from the `k`-th on, the array's bytes ending at `end`.
pub open spec fn spec_header_texts(t: Seq<u8>, end: int, k: int, acc: Seq<Seq<JsonPiece>>) -> Written<
    Seq<Seq<JsonPiece>>,
>
    decreases t.len() - k,
{
    if k >= t.len() {
        Written::Done(acc, end)
    } else {
        match spec_header_of(t[k]) {
            Err(error_type) => Written::Fail(DecodeError { index: end as usize, error_type }),
            Ok(h) => match spec_header_text(h) {
                None => Written::Panic,
                Some(None) => Written::Refused,
                Some(Some(x)) => spec_header_texts(t, end, k + 1, acc.push(x)),
            },
        }
    }
}

/// Writing the value at `index` of `s` as JSON.
pub open spec fn spec_write_value(s: Seq<u8>, index: int) -> Written<Seq<JsonPiece>>
    decreases s.len() - index, 0int,
{
    match spec_read_header(s, index) {
        Err(e) => Written::Fail(e),
        Ok((h, i1)) => match h {
            Header::Null => Written::Done(null_text(), i1),
            Header::Bool(b) => Written::Done(bool_text(b), i1),
            Header::Int(n) => if int_size(n) == 0 {
                Written::Done(int_text(number_hint_code(n) as int), i1)
            } else {
                match spec_take_slice(s, i1, int_size(n) as int) {
                    Ok(t) => Written::Done(int_text(twos_complement(le_value(t), int_size(n))), i1 + int_size(n)),
                    Err(e) => Written::Fail(e),
                }
            },
            Header::IntBig(..) => Written::Panic,
            Header::Float(n) => if n == NumberHint::Size8 || n == NumberHint::Size32 {
                Written::Fail(
                    DecodeError {
                        index: i1 as usize,
                        error_type: DecodeErrorType::HeaderInvalid { value: number_hint_code(n), ty: "f64" },
                    },
                )
            } else if n == NumberHint::Size64 {
                match spec_take_slice(s, i1, 8) {
                    Ok(t) => Written::Done(seq![JsonPiece::Float(le_value(t) as u64)], i1 + 8),
                    Err(e) => Written::Fail(e),
                }
            } else {
                Written::Done(seq![JsonPiece::Float(hint_float_bits(n))], i1)
            },
            Header::Str(l) => match spec_read_length(s, i1, l) {
                Err(e) => Written::Fail(e),
                Ok((len, i2)) => if len == 0 {
                    Written::Done(str_text(Seq::empty()), i2)
                } else {
                    match spec_take_slice(s, i2, len) {
                        Err(e) => Written::Fail(e),
                        Ok(t) => if valid_utf8(t) {
                            Written::Done(str_text(decode_utf8(t)), i2 + len)
                        } else {
                            Written::BadUtf8(i2)
                        },
                    }
                },
            },
            Header::Object(l) => match spec_object_header(s, i1, l) {
                Err(e) => Written::Fail(e),
                Ok((w, items, i2)) => if i2 <= index || i2 > s.len() {
                    Written::Panic
                } else {
                    match spec_write_entries(s, i2, w, items, items.len() as int, Seq::empty()) {
                        Written::Done(es, e) => Written::Done(object_text(es), e),
                        Written::Fail(e) => Written::Fail(e),
                        Written::BadUtf8(x) => Written::BadUtf8(x),
                        Written::Refused => Written::Refused,
                        Written::Panic => Written::Panic,
                    }
                },
            },
            Header::HetArray(l) => match spec_het_header(s, i1, l) {
                Err(e) => Written::Fail(e),
                Ok((offsets, i2)) => if i2 <= index || i2 > s.len() {
                    Written::Panic
                } else {
                    match spec_write_items(s, i2, offsets.len() as int, Seq::empty()) {
                        Written::Done(vs, e) => Written::Done(array_text(vs), e),
                        Written::Fail(e) => Written::Fail(e),
                        Written::BadUtf8(x) => Written::BadUtf8(x),
                        Written::Refused => Written::Refused,
                        Written::Panic => Written::Panic,
                    }
                },
            },
            Header::U8Array(l) => match spec_u8_array(s, i1, l) {
                Err(e) => Written::Fail(e),
                Ok((t, i2)) => Written::Done(array_text(t.map_values(|b: u8| int_text(b as int))), i2),
            },
            Header::HeaderArray(l) => match spec_u8_array(s, i1, l) {
                Err(e) => Written::Fail(e),
                Ok((t, i2)) => match spec_header_texts(t, i2, 0, Seq::empty()) {
                    Written::Done(vs, e) => Written::Done(array_text(vs), e),
                    Written::Fail(e) => Written::Fail(e),
                    Written::BadUtf8(x) => Written::BadUtf8(x),
                    Written::Refused => Written::Refused,
                    Written::Panic => Written::Panic,
                },
            },
            Header::I64Array(l) => match spec_i64_array(s, i1, l) {
                Err(e) => Written::Fail(e),
                Ok((xs, i2)) => Written::Done(array_text(xs.map_values(|x: int| int_text(x))), i2),
            },
        },
    }
}

/// Writing `k` more values from `index`, after the texts `acc`.
pub open spec fn spec_write_items(s: Seq<u8>, index: int, k: int, acc: Seq<Seq<JsonPiece>>) -> Written<
    Seq<Seq<JsonPiece>>,
>
    decreases s.len() - index, 1 + k,
{
    if k <= 0 {
        Written::Done(acc, index)
    } else {
        match spec_write_value(s, index) {
            Written::Done(v, i2) => if i2 <= index || i2 > s.len() {
                Written::Panic
            } else {
                spec_write_items(s, i2, k - 1, acc.push(v))
            },
            Written::Fail(e) => Written::Fail(e),
            Written::BadUtf8(x) => Written::BadUtf8(x),
            Written::Refused => Written::Refused,
            Written::Panic => Written::Panic,
        }
    }
}

/// Writing `k` more entries of an object from `index`, after the texts `acc`: each a header
/// index of `w` bytes, the key that the super header item there gives the length of, and the
/// value.
pub open spec fn spec_write_entries(
    s: Seq<u8>,
    index: int,
    w: nat,
    items: Seq<(int, int, int)>,
    k: int,
    acc: Seq<Seq<JsonPiece>>,
) -> Written<Seq<Seq<JsonPiece>>>
    decreases s.len() - index, 1 + k,
{
    if k <= 0 {
        Written::Done(acc, index)
    } else {
        match spec_take_slice(s, index, w as int) {
            Err(e) => Written::Fail(e),
            Ok(t) => {
                let idx = le_value(t);
                let i1 = index + w;
                if idx >= items.len() {
                    Written::Fail(
                        DecodeError { index: i1 as usize, error_type: DecodeErrorType::ObjectBodyIndexInvalid },
                    )
                } else {
                    let kl = items[idx as int].0;
                    match spec_take_slice(s, i1, kl) {
                        Err(e) => Written::Fail(e),
                        Ok(kt) => if !valid_utf8(kt) {
                            Written::BadUtf8(i1)
                        } else if w == 0 || kl < 0 {
                            Written::Panic
                        } else {
                            match spec_write_value(s, i1 + kl) {
                                Written::Done(v, i3) => if i3 <= index || i3 > s.len() {
                                    Written::Panic
                                } else {
                                    spec_write_entries(
                                        s,
                                        i3,
                                        w,
                                        items,
                                        k - 1,
                                        acc.push(entry_text(decode_utf8(kt), v)),
                                    )
                                },
                                Written::Fail(e) => Written::Fail(e),
                                Written::BadUtf8(x) => Written::BadUtf8(x),
                                Written::Refused => Written::Refused,
                                Written::Panic => Written::Panic,
                            }
                        },
                    }
                }
            },
        }
    }
}

/// Whether writing the value at `index` of `s` as JSON reads memory as numbers: an `i64` array,
/// or an array of mixed values or an object with a wide table, at the value or within it,
/// reached before writing ends.
pub open spec fn write_casts_value(s: Seq<u8>, index: int) -> bool
    decreases s.len() - index, 0int,
{
    match spec_read_header(s, index) {
        Err(_) => false,
        Ok((h, i1)) => match h {
            Header::I64Array(_) => true,
            Header::Object(l) => wide(l) || match spec_object_header(s, i1, l) {
                Ok((w, items, i2)) => index < i2 <= s.len() && write_casts_entries(s, i2, w, items, items.len() as int),
                Err(_) => false,
            },
            Header::HetArray(l) => wide(l) || match spec_het_header(s, i1, l) {
                Ok((offsets, i2)) => index < i2 <= s.len() && write_casts_items(s, i2, offsets.len() as int),
                Err(_) => false,
            },
            _ => false,
        },
    }
}

/// Whether writing `k` more values from `index` reads memory as numbers.
pub open spec fn write_casts_items(s: Seq<u8>, index: int, k: int) -> bool
    decreases s.len() - index, 1 + k,
{
    k > 0 && (write_casts_value(s, index) || match spec_write_value(s, index) {
        Written::Done(_, i2) => index < i2 <= s.len() && write_casts_items(s, i2, k - 1),
        _ => false,
    })
}

/// Whether writing `k` more entries of an object from `index` reads memory as numbers.
pub open spec fn write_casts_entries(s: Seq<u8>, index: int, w: nat, items: Seq<(int, int, int)>, k: int) -> bool
    decreases s.len() - index, 1 + k,
{
    k > 0 && match spec_take_slice(s, index, w as int) {
        Ok(t) => {
            let idx = le_value(t);
            let i1 = index + w;
            idx < items.len() && {
                let kl = items[idx as int].0;
                match spec_take_slice(s, i1, kl) {
                    Ok(kt) => valid_utf8(kt) && w > 0 && kl >= 0 && (write_casts_value(s, i1 + kl)
                        || match spec_write_value(s, i1 + kl) {
                        Written::Done(_, i3) => index < i3 <= s.len() && write_casts_entries(s, i3, w, items, k - 1),
                        _ => false,
                    }),
                    Err(_) => false,
                }
            }
        },
        Err(_) => false,
    }
}

/// Whether `r` is what writing gives by `o`, reading ending at `end` and the text going from
/// `before` to `after` with the text of `o` taken by `view`; or, where writing reads memory as
/// numbers (`cast`), an error from that read, which depends on where the bytes lie.
pub open spec fn written_as<T>(
    r: ToJsonResult<()>,
    o: Written<T>,
    end: int,
    before: Seq<JsonPiece>,
    after: Seq<JsonPiece>,
    view: spec_fn(T) -> Seq<JsonPiece>,
    cast: bool,
) -> bool {
    (cast && (r matches Err(ToJsonError::DecodeError(e)) && e.error_type is PodCastError)) || match o {
        Written::Done(t, e) => r is Ok && after == before + view(t) && end == e,
        Written::Fail(e) => r == Err::<(), ToJsonError>(ToJsonError::DecodeError(e)),
        Written::BadUtf8(i) => r matches Err(ToJsonError::DecodeError(e)) && e.index == i
            && e.error_type is Utf8Error,
        Written::Refused => r matches Err(ToJsonError::Str(_)),
        Written::Panic => false,
    }
}

impl Length {
    /// `Ok` for an empty length, an error otherwise.
    pub fn check_empty(self) -> (r: ToJsonResult<()>)
        ensures
            r is Ok <==> self == Length::Empty,
            r matches Err(e) ==> e is Str,
    {
        match self {
            Length::Empty => Ok(()),
            _ => Err(ToJsonError::Str("Expected empty length, got non-empty")),
        }
    }
}

impl Header {
    /// Write the value that this header alone gives, as an item of an array of headers: empty
    /// for strings, objects and arrays, which must have an empty length.
    pub fn write_json_header_only(self, writer: &mut JsonWriter) -> (r: ToJsonResult<()>)
        requires
            old(writer).wf(),
            spec_header_text(self) is Some,
        ensures
            final(writer).wf(),
            match spec_header_text(self) {
                Some(Some(t)) => r is Ok && final(writer).spec_pieces() == old(writer).spec_pieces() + t,
                _ => r matches Err(ToJsonError::Str(_)),
            },
    {
        match self {
            Header::Null => {
                writer.write_null();
                Ok(())
            },
            Header::Bool(b) => (&b).write_json(writer),
            Header::Int(n) => {
                let v = n.decode_i64_header();
                let r = v.write_json(writer);
                assert(r is Ok ==> writer.spec_pieces() == old(writer).spec_pieces() + int_text(number_hint_code(n) as int));
                r
            },
            Header::IntBig(..) => Err(ToJsonError::Str("Big ints are not supported as header only values")),
            Header::Float(n) => {
                let ghost before = writer.spec_pieces();
                let bits = n.decode_f64_header();
                writer.write_float(bits);
                assert(writer.spec_pieces() =~= before + seq![JsonPiece::Float(bits)]);
                Ok(())
            },
            Header::Str(len) => {
                match len.check_empty() {
                    Ok(()) => {},
                    Err(e) => return Err(e),
                }
                let empty = "";
                proof {
                    reveal_strlit("");
                }
                let r = empty.write_json(writer);
                assert(empty@ =~= Seq::<char>::empty());
                assert(r is Ok ==> writer.spec_pieces() == old(writer).spec_pieces() + str_text(Seq::empty()));
                r
            },
            Header::Object(len) => {
                match len.check_empty() {
                    Ok(()) => {},
                    Err(e) => return Err(e),
                }
                writer.write_empty_object();
                Ok(())
            },
            Header::HeaderArray(len) | Header::U8Array(len) | Header::I64Array(len) | Header::HetArray(
                len,
            ) => {
                match len.check_empty() {
                    Ok(()) => {},
                    Err(e) => return Err(e),
                }
                writer.write_empty_array();
                Ok(())
            },
        }
    }
}

/// The text of the writer grows by the texts of the items in `v`, taken by `f`.
proof fn lemma_map_texts<T>(v: Seq<T>, f: spec_fn(T) -> Seq<JsonPiece>, g: spec_fn(T) -> Seq<JsonPiece>)
    requires
        forall|x: T| #[trigger] f(x) == g(x),
    ensures
        v.map_values(f) == v.map_values(g),
{
    assert(v.map_values(f) =~= v.map_values(g));
}

/// Write the items of an array of headers after a header with length `length`: the value each
/// header gives alone (errors from decoding a header at the end of the array).
pub fn header_array_write_to_json(d: &mut Decoder, length: Length, writer: &mut JsonWriter) -> (r: ToJsonResult<()>)
    requires
        old(d).wf(),
        old(writer).wf(),
        match spec_u8_array(old(d).spec_bytes(), old(d).index as int, length) {
            Ok((t, end)) => !(spec_header_texts(t, end, 0, Seq::empty()) is Panic),
            Err(_) => true,
        },
    ensures
        final(d).wf(),
        final(d).spec_bytes() == old(d).spec_bytes(),
        final(writer).wf(),
        match spec_u8_array(old(d).spec_bytes(), old(d).index as int, length) {
            Ok((t, end)) => written_as(
                r,
                spec_header_texts(t, end, 0, Seq::empty()),
                final(d).index as int,
                old(writer).spec_pieces(),
                final(writer).spec_pieces(),
                |ts: Seq<Seq<JsonPiece>>| array_text(ts),
                false,
            ),
            Err(e) => r == Err::<(), ToJsonError>(ToJsonError::DecodeError(e)),
        },
        r is Ok ==> old(d).index <= final(d).index <= final(d).spec_bytes().len(),
{
    let bytes = match u8_array_slice(d, length) {
        Ok(b) => b,
        Err(e) => return Err(ToJsonError::DecodeError(e)),
    };
    let ghost end = d.index as int;
    let ghost before = writer.spec_pieces();
    let ghost texts: Seq<Seq<JsonPiece>> = Seq::empty();
    writer.start_array();
    let mut k: usize = 0;
    while k < bytes.len()
        invariant
            k <= bytes.len(),
            d.wf(),
            writer.wf(),
            d.index == end,
            d.spec_bytes() == old(d).spec_bytes(),
            spec_u8_array(old(d).spec_bytes(), old(d).index as int, length) == Ok::<(Seq<u8>, int), DecodeError>((bytes@, end)),
            texts.len() == k,
            writer.spec_pieces() == before + text_pieces(seq![0x5bu8]) + comma_list(texts),
            spec_header_texts(bytes@, end, 0, Seq::empty()) == spec_header_texts(bytes@, end, k as int, texts),
            !(spec_header_texts(bytes@, end, 0, Seq::empty()) is Panic),
        decreases bytes.len() - k,
    {
        let h = match Header::decode(bytes[k], d) {
            Ok(h) => h,
            Err(e) => return Err(ToJsonError::DecodeError(e)),
        };
        if k > 0 {
            writer.comma();
        }
        match h.write_json_header_only(writer) {
            Ok(()) => {},
            Err(e) => return Err(e),
        }
        proof {
            let x = spec_header_text(h)->0->0;
            lemma_comma_list_push(texts, x);
            texts = texts.push(x);
        }
        k += 1;
    }
    writer.end_array();
    assert(writer.spec_pieces() =~= before + array_text(texts));
    Ok(())
}

impl<'b> HetArray<'b> {
    /// Write the items of the array, one after another, as a JSON array.
    pub fn write_json(&self, d: &mut Decoder<'b>, writer: &mut JsonWriter) -> (r: ToJsonResult<()>)
        requires
            old(d).wf(),
            old(writer).wf(),
            !(spec_write_items(old(d).spec_bytes(), old(d).index as int, self.spec_offsets().len() as int, Seq::empty()) is Panic),
        ensures
            final(d).wf(),
            final(d).spec_bytes() == old(d).spec_bytes(),
            final(writer).wf(),
            written_as(
                r,
                spec_write_items(old(d).spec_bytes(), old(d).index as int, self.spec_offsets().len() as int, Seq::empty()),
                final(d).index as int,
                old(writer).spec_pieces(),
                final(writer).spec_pieces(),
                |ts: Seq<Seq<JsonPiece>>| array_text(ts),
                write_casts_items(old(d).spec_bytes(), old(d).index as int, self.spec_offsets().len() as int),
            ),
            r is Ok ==> old(d).index <= final(d).index <= final(d).spec_bytes().len() || (
                old(d).index == final(d).index && self.spec_offsets().len() == 0),
        decreases old(d).spec_bytes().len() - old(d).index, 1int,
    {
        let n = self.len();
        let ghost s = d.spec_bytes();
        let ghost i0 = d.index;
        let ghost before = writer.spec_pieces();
        let ghost texts: Seq<Seq<JsonPiece>> = Seq::empty();
        writer.start_array();
        let mut k: usize = 0;
        while k < n
            invariant
                k <= n,
                n == self.spec_offsets().len(),
                d.wf(),
                writer.wf(),
                d.spec_bytes() == s,
                s == old(d).spec_bytes(),
                i0 == old(d).index,
                i0 <= d.index,
                k > 0 ==> d.index <= s.len(),
                k == 0 ==> d.index == i0,
                texts.len() == k,
                writer.spec_pieces() == before + text_pieces(seq![0x5bu8]) + comma_list(texts),
                spec_write_items(s, i0 as int, n as int, Seq::empty()) == spec_write_items(s, d.index as int, n - k, texts),
                !(spec_write_items(s, i0 as int, n as int, Seq::empty()) is Panic),
                write_casts_items(s, d.index as int, n - k) ==> write_casts_items(s, i0 as int, n as int),
            decreases n - k,
        {
            if k > 0 {
                writer.comma();
            }
            let ghost at = writer.spec_pieces();
            let ghost vs = spec_write_value(s, d.index as int);
            match d.write_json(writer) {
                Ok(()) => {},
                Err(e) => return Err(e),
            }
            proof {
                let x = match vs {
                    Written::Done(t, _) => t,
                    _ => Seq::empty(),
                };
                lemma_comma_list_push(texts, x);
                texts = texts.push(x);
            }
            k += 1;
        }
        writer.end_array();
        assert(writer.spec_pieces() =~= before + array_text(texts));
        Ok(())
    }
}

impl Object {
    /// Write the entries of the object, one after another, as a JSON object: each key, then its
    /// value.
    #[verifier::rlimit(40)]
    pub fn write_json(&self, d: &mut Decoder, writer: &mut JsonWriter) -> (r: ToJsonResult<()>)
        requires
            old(d).wf(),
            old(writer).wf(),
            self.width == 1 || self.width == 2 || self.width == 4,
            !(spec_write_entries(
                old(d).spec_bytes(),
                old(d).index as int,
                self.width as nat,
                items_view(self.super_header@),
                self.super_header@.len() as int,
                Seq::empty(),
            ) is Panic),
        ensures
            final(d).wf(),
            final(d).spec_bytes() == old(d).spec_bytes(),
            final(writer).wf(),
            written_as(
                r,
                spec_write_entries(
                    old(d).spec_bytes(),
                    old(d).index as int,
                    self.width as nat,
                    items_view(self.super_header@),
                    self.super_header@.len() as int,
                    Seq::empty(),
                ),
                final(d).index as int,
                old(writer).spec_pieces(),
                final(writer).spec_pieces(),
                |ts: Seq<Seq<JsonPiece>>| object_text(ts),
                write_casts_entries(
                    old(d).spec_bytes(),
                    old(d).index as int,
                    self.width as nat,
                    items_view(self.super_header@),
                    self.super_header@.len() as int,
                ),
            ),
            r is Ok ==> old(d).index <= final(d).index <= final(d).spec_bytes().len() || (
                old(d).index == final(d).index && self.super_header@.len() == 0),
        decreases old(d).spec_bytes().len() - old(d).index, 1int,
    {
        let n = self.len();
        let ghost s = d.spec_bytes();
        let ghost i0 = d.index;
        let ghost items = items_view(self.super_header@);
        let ghost before = writer.spec_pieces();
        let ghost texts: Seq<Seq<JsonPiece>> = Seq::empty();
        writer.start_object();
        let mut k: usize = 0;
        while k < n
            invariant
                k <= n,
                n == self.super_header@.len(),
                self.width == 1 || self.width == 2 || self.width == 4,
                items == items_view(self.super_header@),
                d.wf(),
                writer.wf(),
                d.spec_bytes() == s,
                s == old(d).spec_bytes(),
                i0 == old(d).index,
                i0 <= d.index,
                k > 0 ==> d.index <= s.len(),
                k == 0 ==> d.index == i0,
                texts.len() == k,
                writer.spec_pieces() == before + text_pieces(seq![0x7bu8]) + comma_list(texts),
                spec_write_entries(s, i0 as int, self.width as nat, items, n as int, Seq::empty())
                    == spec_write_entries(s, d.index as int, self.width as nat, items, n - k, texts),
                !(spec_write_entries(s, i0 as int, self.width as nat, items, n as int, Seq::empty()) is Panic),
                write_casts_entries(s, d.index as int, self.width as nat, items, n - k) ==> write_casts_entries(
                    s,
                    i0 as int,
                    self.width as nat,
                    items,
                    n as int,
                ),
            decreases n - k,
        {
            if k > 0 {
                writer.comma();
            }
            let ghost at = writer.spec_pieces();
            let key = match self.take_next_key(d) {
                Ok(key) => key,
                Err(e) => return Err(ToJsonError::DecodeError(e)),
            };
            match writer.write_key(key) {
                Ok(()) => {},
                Err(e) => return Err(e),
            }
            let ghost after_key = writer.spec_pieces();
            let ghost vs = spec_write_value(s, d.index as int);
            proof {
                vstd::utf8::encode_utf8_decode_utf8(key@);
            }
            match d.write_json(writer) {
                Ok(()) => {},
                Err(e) => return Err(e),
            }
            proof {
                let v = match vs {
                    Written::Done(t, _) => t,
                    _ => Seq::empty(),
                };
                let x = entry_text(key@, v);
                assert(writer.spec_pieces() =~= at + x);
                lemma_comma_list_push(texts, x);
                texts = texts.push(x);
            }
            k += 1;
        }
        writer.end_object();
        assert(writer.spec_pieces() =~= before + object_text(texts));
        Ok(())
    }
}

impl<'b> Decoder<'b> {
    /// Write the value whose header is next as JSON text.
    #[verifier::rlimit(40)]
    pub fn write_json(&mut self, writer: &mut JsonWriter) -> (r: ToJsonResult<()>)
        requires
            old(self).wf(),
            old(writer).wf(),
            !(spec_write_value(old(self).spec_bytes(), old(self).index as int) is Panic),
        ensures
            final(self).wf(),
            final(self).spec_bytes() == old(self).spec_bytes(),
            final(writer).wf(),
            written_as(
                r,
                spec_write_value(old(self).spec_bytes(), old(self).index as int),
                final(self).index as int,
                old(writer).spec_pieces(),
                final(writer).spec_pieces(),
                |t: Seq<JsonPiece>| t,
                write_casts_value(old(self).spec_bytes(), old(self).index as int),
            ),
            r is Ok ==> old(self).index < final(self).index <= final(self).spec_bytes().len(),
        decreases old(self).spec_bytes().len() - old(self).index, 0int,
    {
        let header = match self.take_header() {
            Ok(h) => h,
            Err(e) => return Err(ToJsonError::DecodeError(e)),
        };
        match header {
            Header::Null => {
                writer.write_null();
                Ok(())
            },
            Header::Bool(b) => (&b).write_json(writer),
            Header::Int(n) => {
                let i = match n.decode_i64(self) {
                    Ok(i) => i,
                    Err(e) => return Err(ToJsonError::DecodeError(e)),
                };
                i.write_json(writer)
            },
            Header::IntBig(..) => Err(ToJsonError::DecodeError(self.eof())),
            Header::Float(n) => {
                let bits = match n.decode_f64(self) {
                    Ok(b) => b,
                    Err(e) => return Err(ToJsonError::DecodeError(e)),
                };
                let ghost at = writer.spec_pieces();
                writer.write_float(bits);
                assert(writer.spec_pieces() =~= at + seq![JsonPiece::Float(bits)]);
                Ok(())
            },
            Header::Str(length) => {
                let s = match self.decode_str(length) {
                    Ok(s) => s,
                    Err(e) => return Err(ToJsonError::DecodeError(e)),
                };
                proof {
                    vstd::utf8::encode_utf8_decode_utf8(s@);
                }
                s.write_json(writer)
            },
            Header::Object(length) => {
                let obj = match Object::decode_header(self, length) {
                    Ok(o) => o,
                    Err(e) => return Err(ToJsonError::DecodeError(e)),
                };
                obj.write_json(self, writer)
            },
            Header::HetArray(length) => {
                let het = match HetArray::decode_header(self, length) {
                    Ok(h) => h,
                    Err(e) => return Err(ToJsonError::DecodeError(e)),
                };
                het.write_json(self, writer)
            },
            Header::U8Array(length) => {
                let a = match u8_array_slice(self, length) {
                    Ok(a) => a,
                    Err(e) => return Err(ToJsonError::DecodeError(e)),
                };
                proof {
                    lemma_map_texts(a@, |x: u8| x.spec_json(), |b: u8| int_text(b as int));
                }
                writer.write_seq(a)
            },
            Header::HeaderArray(length) => header_array_write_to_json(self, length, writer),
            Header::I64Array(length) => {
                let a = match i64_array_slice(self, length) {
                    Ok(a) => a,
                    Err(e) => return Err(ToJsonError::DecodeError(e)),
                };
                proof {
                    let xs = a@.map_values(|x: i64| x as int);
                    assert(a@.map_values(|x: i64| x.spec_json()) =~= xs.map_values(|x: int| int_text(x)));
                }
                writer.write_seq(a)
            },
        }
    }
}

/// Write batson bytes as JSON text: the text of the value they start with.
pub fn batson_to_json_writer(batson_bytes: &[u8]) -> (r: ToJsonResult<JsonWriter>)
    requires
        batson_bytes@.len() <= isize::MAX,
        !(spec_write_value(batson_bytes@, 0) is Panic),
    ensures
        r matches Ok(w) ==> w.wf(),
        ({
            let out = match r {
                Ok(w) => Ok::<(), ToJsonError>(()),
                Err(e) => Err::<(), ToJsonError>(e),
            };
            let after = match r {
                Ok(w) => w.spec_pieces(),
                Err(_) => Seq::<JsonPiece>::empty(),
            };
            written_as(
                out,
                spec_write_value(batson_bytes@, 0),
                spec_end(spec_write_value(batson_bytes@, 0)),
                Seq::empty(),
                after,
                |t: Seq<JsonPiece>| t,
                write_casts_value(batson_bytes@, 0),
            )
        }),
{
    let mut writer = JsonWriter::new();
    let mut decoder = Decoder::new(batson_bytes);
    match decoder.write_json(&mut writer) {
        Ok(()) => Ok(writer),
        Err(e) => Err(e),
    }
}

/// Where reading ended, for a text that was written.
pub open spec fn spec_end<T>(o: Written<T>) -> int {
    match o {
        Written::Done(_, e) => e,
        _ => 0,
    }
}

} // verus!
