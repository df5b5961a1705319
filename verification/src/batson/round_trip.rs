//! What decoding, and writing as JSON, give back of what encoding wrote.
use vstd::prelude::*;
use vstd::string::*;
use vstd::utf8::*;

use crate::batson::array::{pack_fold, PackState};
use crate::batson::frame::{agree_from, lemma_value_agree};
use crate::batson::array::spec_het_header;
use crate::batson::object::{spec_object_header, header_width, items_of, lemma_insert_item_from, lemma_sort_items_from};
use crate::batson::encoder::{spec_encode_entries, spec_encode_object, spec_encode_object_sized, min_object_size, insert_item, item_le, items_bytes, lemma_items_bytes_len, set_indices, sort_items};
use crate::batson::errors::EncodeError;
use crate::batson::decoder::{
    le_words, spec_take_slice, align_up, hint_float_bits, le_bytes, le_i64_words, le_value, le_word, lemma_le_roundtrip, pow256,
    spec_header_value, spec_header_values, spec_take_items, spec_take_value, twos_complement, Decoded,
};
use crate::batson::encoder::{
    extends, aligned, le_seq, lemma_extends_append, lemma_extends_trans, lemma_le_seq_len, lemma_splice,
    min_array_size, min_value_size, offset_align, spec_encode_array_sized, spec_encode_items,
    spec_encode_len_u32, splice, header_byte, le_i64s, lemma_header_byte_split, lemma_le_signed, pad_to, spec_encode_array,
    spec_encode_f64, spec_encode_i64, spec_encode_length, spec_encode_value, unsigned_of, with_length,
    zeros,
};
use crate::batson::header::{
    float_hint, length_of, number_hint_code, primitive_code, spec_header_of, spec_read_header,
    spec_read_length, Category, Header, IntSign, Length, Primitive,
};
use crate::value::{entries_view, json_view, values_view, JsonValue, ValueView};
use crate::batson::decoder::spec_take_entries;
use crate::batson::json_writer::JsonPiece;
use crate::batson::to_json::{spec_header_text, spec_header_texts, spec_write_entries, spec_write_items, spec_write_value, Written};
use crate::batson::frame::{lemma_write_value_agree};
use crate::batson::text_view::{lemma_write_value_text, view_text};

verus! {

/// Null, a boolean, an integer, a float or a string.
pub open spec fn is_scalar(v: JsonValue) -> bool {
    v is Null || v is Bool || v is Int || v is Float || v is Str
}

/// The bits of binary64 negative zero, which batson writes as zero.
pub open spec fn negative_zero_bits() -> u64 {
    0x8000_0000_0000_0000
}

/// The float a hint holds gives back the bits it was chosen for, but for negative zero.
proof fn lemma_float_hint_bits(bits: u64)
    requires
        float_hint(bits) is Some,
        bits != negative_zero_bits(),
    ensures
        hint_float_bits(float_hint(bits)->0) == bits,
        number_hint_code(float_hint(bits)->0) <= 10,
{
}

/// The length header that `spec_encode_length` writes for a string reads back as the length,
/// from where it starts, whatever comes before and after it.
proof fn lemma_string_round_trip(st: Seq<char>, data: Seq<u8>, rest: Seq<u8>)
    requires
        spec_encode_length(Category::Str, encode_utf8(st).len()) is Ok,
    ensures
        spec_take_value(
            data + spec_encode_length(Category::Str, encode_utf8(st).len())->Ok_0 + encode_utf8(st) + rest,
            data.len() as int,
        ) == Decoded::Done(
            crate::value::ValueView::Str(st),
            (data.len() + spec_encode_length(Category::Str, encode_utf8(st).len())->Ok_0.len()
                + encode_utf8(st).len()) as int,
        ),
{
    reveal_with_fuel(pow256, 5);
    encode_utf8_valid_utf8(st);
    encode_utf8_decode_utf8(st);
    let u = encode_utf8(st);
    let len = u.len();
    let h = spec_encode_length(Category::Str, len)->Ok_0;
    let s = data + h + u + rest;
    let k = data.len() as int;
    let i2 = k + h.len();
    assert(s.subrange(i2, i2 + len) =~= u);
    if len <= 10 {
        lemma_header_byte_split(Category::Str, len as u8);
        assert(s[k] == h[0]);
        if len == 0 {
            assert(u =~= Seq::<u8>::empty());
            assert(decode_utf8(Seq::<u8>::empty()) =~= Seq::<char>::empty());
        }
    } else if len <= 0xff {
        lemma_header_byte_split(Category::Str, 11);
        reveal_with_fuel(le_value, 2);
        assert(s[k] == h[0]);
        assert(s.subrange(k + 1, k + 2) =~= seq![len as u8]);
        assert(s.subrange(k + 1, k + 2).drop_first().len() == 0);
    } else if len <= 0xffff {
        lemma_header_byte_split(Category::Str, 12);
        lemma_le_roundtrip(len, 2);
        vstd::arithmetic::div_mod::lemma_small_mod(len, pow256(2));
        assert(s[k] == h[0]);
        assert(s.subrange(k + 1, k + 3) =~= le_bytes(len, 2));
    } else {
        lemma_header_byte_split(Category::Str, 13);
        lemma_le_roundtrip(len, 4);
        vstd::arithmetic::div_mod::lemma_small_mod(len, pow256(4));
        assert(s[k] == h[0]);
        assert(s.subrange(k + 1, k + 5) =~= le_bytes(len, 4));
    }
}

/// Encoding a scalar value appends at least one byte to what was there.
proof fn lemma_scalar_extends(v: JsonValue, data: Seq<u8>)
    requires
        is_scalar(v),
        spec_encode_value(v, data) is Ok,
    ensures
        extends(spec_encode_value(v, data)->Ok_0, data),
        spec_encode_value(v, data)->Ok_0.len() > data.len(),
{
    let e = spec_encode_value(v, data)->Ok_0;
    match v {
        JsonValue::Int(i) => {
            assert(e =~= data + spec_encode_i64(i));
        },
        JsonValue::Float(bits) => {
            assert(e =~= data + spec_encode_f64(bits));
        },
        JsonValue::Str(st) => {
            let h = spec_encode_length(Category::Str, encode_utf8(st@).len())->Ok_0;
            assert(e =~= data + h + encode_utf8(st@));
        },
        _ => {},
    }
    assert(e.subrange(0, data.len() as int) =~= data);
}

/// Decoding gives back a scalar value that was encoded: null, a boolean, an integer, a float
/// other than negative zero, or a string, encoded after any bytes `data`, decodes from where
/// its encoding starts to the same value, taking exactly its bytes, whatever follows them.
pub proof fn lemma_scalar_round_trip(v: JsonValue, data: Seq<u8>, rest: Seq<u8>)
    requires
        is_scalar(v),
        v matches JsonValue::Float(bits) ==> bits != negative_zero_bits(),
        spec_encode_value(v, data) is Ok,
    ensures
        spec_take_value(spec_encode_value(v, data)->Ok_0 + rest, data.len() as int) == Decoded::Done(
            json_view(v),
            spec_encode_value(v, data)->Ok_0.len() as int,
        ),
        extends(spec_encode_value(v, data)->Ok_0, data),
        spec_encode_value(v, data)->Ok_0.len() > data.len(),
        !(spec_write_value(spec_encode_value(v, data)->Ok_0 + rest, data.len() as int) is Refused),
{
    reveal_with_fuel(pow256, 9);
    let e = spec_encode_value(v, data)->Ok_0;
    lemma_scalar_extends(v, data);
    let s = e + rest;
    let k = data.len() as int;
    match v {
        JsonValue::Null => {
            lemma_header_byte_split(Category::Primitive, 0);
            assert(s[k] == header_byte(Category::Primitive, 0));
        },
        JsonValue::Bool(b) => {
            lemma_header_byte_split(Category::Primitive, 1);
            lemma_header_byte_split(Category::Primitive, 2);
            assert(s[k] == e[k]);
        },
        JsonValue::Int(i) => {
            let x = spec_encode_i64(i);
            assert(e =~= data + x);
            assert(s[k] == x[0]);
            if 0 <= i <= 10 {
                lemma_header_byte_split(Category::Int, i as u8);
            } else if -0x80 <= i < 0x80 {
                lemma_header_byte_split(Category::Int, 11);
                lemma_le_signed(i as int, 1);
                lemma_le_roundtrip(unsigned_of(i as int, 1), 1);
                assert(s.subrange(k + 1, k + 2) =~= le_bytes(unsigned_of(i as int, 1), 1));
            } else if -0x8000_0000 <= i < 0x8000_0000 {
                lemma_header_byte_split(Category::Int, 12);
                lemma_le_signed(i as int, 4);
                lemma_le_roundtrip(unsigned_of(i as int, 4), 4);
                assert(s.subrange(k + 1, k + 5) =~= le_bytes(unsigned_of(i as int, 4), 4));
            } else {
                lemma_header_byte_split(Category::Int, 13);
                lemma_le_signed(i as int, 8);
                lemma_le_roundtrip(unsigned_of(i as int, 8), 8);
                assert(s.subrange(k + 1, k + 9) =~= le_bytes(unsigned_of(i as int, 8), 8));
            }
        },
        JsonValue::Float(bits) => {
            let x = spec_encode_f64(bits);
            assert(e =~= data + x);
            assert(s[k] == x[0]);
            match float_hint(bits) {
                Some(n) => {
                    lemma_float_hint_bits(bits);
                    lemma_header_byte_split(Category::Float, number_hint_code(n));
                },
                None => {
                    lemma_header_byte_split(Category::Float, 13);
                    lemma_le_roundtrip(bits as nat, 8);
                    vstd::arithmetic::div_mod::lemma_small_mod(bits as nat, pow256(8));
                    assert(s.subrange(k + 1, k + 9) =~= le_bytes(bits as nat, 8));
                },
            }
        },
        JsonValue::Str(st) => {
            let h = spec_encode_length(Category::Str, encode_utf8(st@).len())->Ok_0;
            assert(e =~= data + h + encode_utf8(st@));
            assert(s =~= data + h + encode_utf8(st@) + rest);
            lemma_string_round_trip(st@, data, rest);
        },
        _ => {},
    }
}

/// The header of a value of category `c` with the length `l`.
pub open spec fn length_header(c: Category, l: Length) -> Header {
    match c {
        Category::BigIntPos => Header::IntBig(IntSign::Plus, l),
        Category::BigIntNeg => Header::IntBig(IntSign::Minus, l),
        Category::Str => Header::Str(l),
        Category::Object => Header::Object(l),
        Category::HeaderArray => Header::HeaderArray(l),
        Category::U8Array => Header::U8Array(l),
        Category::I64Array => Header::I64Array(l),
        _ => Header::HetArray(l),
    }
}

/// The bytes that `spec_encode_length` writes for a length of category `c` read back as a
/// header of that category and the length, wherever they stand and whatever follows them.
proof fn lemma_length_header(c: Category, len: nat, data: Seq<u8>, rest: Seq<u8>) -> (l: Length)
    requires
        !(c is Primitive || c is Int || c is Float),
        spec_encode_length(c, len) is Ok,
    ensures
        ({
            let h = spec_encode_length(c, len)->Ok_0;
            let s = data + h + rest;
            &&& spec_read_header(s, data.len() as int) == Ok::<(Header, int), crate::batson::errors::DecodeError>(
                (length_header(c, l), data.len() + 1int),
            )
            &&& spec_read_length(s, data.len() + 1int, l) == Ok::<(int, int), crate::batson::errors::DecodeError>(
                (len as int, (data.len() + h.len()) as int),
            )
        }),
        len <= 0xff ==> header_width(l) == 1,
        len > 0 ==> l != Length::Empty,
{
    reveal_with_fuel(pow256, 5);
    let h = spec_encode_length(c, len)->Ok_0;
    let s = data + h + rest;
    let k = data.len() as int;
    assert(s[k] == h[0]);
    if len <= 10 {
        lemma_header_byte_split(c, len as u8);
        length_of(len as u8)->0
    } else if len <= 0xff {
        lemma_header_byte_split(c, 11);
        reveal_with_fuel(le_value, 2);
        assert(s.subrange(k + 1, k + 2) =~= seq![len as u8]);
        assert(s.subrange(k + 1, k + 2).drop_first().len() == 0);
        Length::U8
    } else if len <= 0xffff {
        lemma_header_byte_split(c, 12);
        lemma_le_roundtrip(len, 2);
        vstd::arithmetic::div_mod::lemma_small_mod(len, pow256(2));
        assert(s.subrange(k + 1, k + 3) =~= le_bytes(len, 2));
        Length::U16
    } else {
        lemma_header_byte_split(c, 13);
        lemma_le_roundtrip(len, 4);
        vstd::arithmetic::div_mod::lemma_small_mod(len, pow256(4));
        assert(s.subrange(k + 1, k + 5) =~= le_bytes(len, 4));
        Length::U32
    }
}

/// The views of the first `k` values are the views of those values.
proof fn lemma_values_view_index(a: Seq<JsonValue>, k: int)
    requires
        0 <= k <= a.len(),
    ensures
        values_view(a, k).len() == k,
        forall|j: int| 0 <= j < k ==> #[trigger] values_view(a, k)[j] == json_view(a[j]),
    decreases k,
{
    if k > 0 {
        lemma_values_view_index(a, k - 1);
    }
}

/// Not the float negative zero.
pub open spec fn not_negative_zero(v: JsonValue) -> bool {
    !(v matches JsonValue::Float(bits) && bits == negative_zero_bits())
}

/// Whether the header byte `b` decodes, as an item of an array of headers, to the value `v`,
/// and has a text of its own.
pub open spec fn header_item(v: JsonValue, b: u8) -> bool {
    &&& spec_header_of(b) matches Ok(h)
    &&& spec_header_value(spec_header_of(b)->Ok_0) == Some(json_view(v))
    &&& spec_header_text(spec_header_of(b)->Ok_0) matches Some(Some(_))
}

/// What packing gathers stands for the items packed so far: their bytes, their integers, and
/// header bytes that decode back to them.
proof fn lemma_pack_fold(a: Seq<JsonValue>, k: int)
    requires
        0 <= k <= a.len(),
        forall|j: int| 0 <= j < k ==> not_negative_zero(#[trigger] a[j]),
    ensures
        pack_fold(a, k) matches Some(st) ==> {
            &&& st.bytes matches Some(b) ==> b.len() == k && forall|j: int| 0 <= j < k ==> a[j] == JsonValue::Int(
                #[trigger] b[j] as i64,
            )
            &&& st.ints matches Some(x) ==> x.len() == k && forall|j: int| 0 <= j < k ==> a[j] == JsonValue::Int(
                #[trigger] x[j],
            )
            &&& st.headers matches Some(h) ==> h.len() == k && forall|j: int| 0 <= j < k ==> header_item(
                a[j],
                #[trigger] h[j],
            )
        },
    decreases k,
{
    if k > 0 {
        lemma_pack_fold(a, k - 1);
        if let Some(st) = pack_fold(a, k - 1) {
            let v = a[k - 1];
            lemma_header_byte_split(Category::Primitive, 0);
            lemma_header_byte_split(Category::Primitive, 1);
            lemma_header_byte_split(Category::Primitive, 2);
            lemma_header_byte_split(Category::Str, 0);
            lemma_header_byte_split(Category::HetArray, 0);
            lemma_header_byte_split(Category::Object, 0);
            match v {
                JsonValue::Int(x) => {
                    if 0 <= x <= 10 {
                        lemma_header_byte_split(Category::Int, x as u8);
                    }
                },
                JsonValue::Float(bits) => {
                    if let Some(n) = float_hint(bits) {
                        lemma_float_hint_bits(bits);
                        lemma_header_byte_split(Category::Float, number_hint_code(n));
                    }
                },
                JsonValue::Str(t) => {
                    if t@.len() == 0 {
                        assert(t@ =~= Seq::<char>::empty());
                    }
                },
                JsonValue::Array(b) => {
                    if b@.len() == 0 {
                        assert(values_view(b@, 0) =~= Seq::<ValueView>::empty());
                    }
                },
                JsonValue::Object(o) => {
                    if o@.len() == 0 {
                        assert(crate::value::entries_view(o@, 0) =~= Seq::<(Seq<char>, ValueView)>::empty());
                    }
                },
                _ => {},
            }
            if let Some(st2) = pack_fold(a, k) {
                if let Some(b) = st2.bytes {
                    let b0 = st.bytes->0;
                    assert(b =~= b0.push(b[k - 1]));
                    assert forall|j: int| 0 <= j < k implies a[j] == JsonValue::Int(#[trigger] b[j] as i64) by {
                        if j < k - 1 {
                            assert(b[j] == b0[j]);
                        }
                    }
                }
                if let Some(x) = st2.ints {
                    let x0 = st.ints->0;
                    assert forall|j: int| 0 <= j < k implies a[j] == JsonValue::Int(#[trigger] x[j]) by {
                        if j < k - 1 {
                            assert(x[j] == x0[j]);
                        }
                    }
                }
                if let Some(h) = st2.headers {
                    let h0 = st.headers->0;
                    assert forall|j: int| 0 <= j < k implies header_item(a[j], #[trigger] h[j]) by {
                        if j < k - 1 {
                            assert(h[j] == h0[j]);
                        }
                    }
                }
            }
        }
    }
}

/// The values of header bytes that each decode back to an item are the views of the items.
proof fn lemma_header_values(a: Seq<JsonValue>, t: Seq<u8>, end: int, k: int)
    requires
        0 <= k <= t.len(),
        t.len() == a.len(),
        forall|j: int| 0 <= j < t.len() ==> header_item(a[j], #[trigger] t[j]),
    ensures
        spec_header_values(t, end, k, values_view(a, k)) == Decoded::Done(values_view(a, a.len() as int), end),
    decreases t.len() - k,
{
    if k < t.len() {
        assert(header_item(a[k], t[k]));
        lemma_header_values(a, t, end, k + 1);
    }
}

/// Writing header bytes that each decode back to an item does not refuse.
proof fn lemma_header_texts_done(a: Seq<JsonValue>, t: Seq<u8>, end: int, k: int, acc: Seq<Seq<JsonPiece>>)
    requires
        0 <= k <= t.len(),
        t.len() == a.len(),
        forall|j: int| 0 <= j < t.len() ==> header_item(a[j], #[trigger] t[j]),
    ensures
        spec_header_texts(t, end, k, acc) is Done,
    decreases t.len() - k,
{
    if k < t.len() {
        assert(header_item(a[k], t[k]));
        let x = spec_header_text(spec_header_of(t[k])->Ok_0)->0->0;
        lemma_header_texts_done(a, t, end, k + 1, acc.push(x));
    }
}

/// The integers written eight bytes each read back as themselves.
proof fn lemma_le_i64s(x: Seq<i64>)
    ensures
        le_i64s(x).len() == 8 * x.len(),
        le_i64_words(le_i64s(x)) == x.map_values(|v: i64| v as int),
    decreases x.len(),
{
    reveal_with_fuel(pow256, 9);
    if x.len() > 0 {
        let n = x.len() as int;
        let p = le_i64s(x.drop_last());
        lemma_le_i64s(x.drop_last());
        let last = x.last();
        let b = le_bytes(unsigned_of(last as int, 8), 8);
        lemma_le_roundtrip(unsigned_of(last as int, 8), 8);
        lemma_le_signed(last as int, 8);
        let t = le_i64s(x);
        assert(t =~= p + b);
        assert(t.len() / 8 == n) by {
            vstd::arithmetic::div_mod::lemma_div_multiples_vanish(n, 8);
        }
        assert forall|j: int| 0 <= j < n implies #[trigger] le_i64_words(t)[j] == x.map_values(|v: i64| v as int)[j] by {
            if j < n - 1 {
                assert(p.len() / 8 == n - 1) by {
                    vstd::arithmetic::div_mod::lemma_div_multiples_vanish(n - 1, 8);
                }
                assert(t.subrange(j * 8, j * 8 + 8) =~= p.subrange(j * 8, j * 8 + 8));
                assert(le_i64_words(p)[j] == x.drop_last().map_values(|v: i64| v as int)[j]);
            } else {
                assert(t.subrange(j * 8, j * 8 + 8) =~= b);
            }
        }
        assert(le_i64_words(t) =~= x.map_values(|v: i64| v as int));
    } else {
        assert(le_i64_words(le_i64s(x)) =~= x.map_values(|v: i64| v as int));
    }
}

/// An array that batson packs: empty, or all integers, or all values that one header holds.
pub open spec fn packed_array(a: Seq<JsonValue>) -> bool {
    a.len() == 0 || pack_fold(a, a.len() as int) is Some
}

proof fn lemma_u8_array(a: Seq<JsonValue>, b: Seq<u8>, data: Seq<u8>, rest: Seq<u8>)
    requires
        b.len() == a.len(),
        forall|j: int| 0 <= j < a.len() ==> a[j] == JsonValue::Int(#[trigger] b[j] as i64),
        spec_encode_length(Category::U8Array, b.len()) is Ok,
    ensures
        spec_take_value(data + spec_encode_length(Category::U8Array, b.len())->Ok_0 + b + rest, data.len() as int)
            == Decoded::Done(
            ValueView::Array(values_view(a, a.len() as int)),
            (data.len() + spec_encode_length(Category::U8Array, b.len())->Ok_0.len() + b.len()) as int,
        ),
        !(spec_write_value(data + spec_encode_length(Category::U8Array, b.len())->Ok_0 + b + rest, data.len() as int) is Refused),
{
    let h = spec_encode_length(Category::U8Array, b.len())->Ok_0;
    let s = data + h + b + rest;
    let k = data.len() as int;
    assert(s =~= data + h + (b + rest));
    let l = lemma_length_header(Category::U8Array, b.len(), data, b + rest);
    assert(s.subrange(k + h.len(), k + h.len() + b.len()) =~= b);
    lemma_values_view_index(a, a.len() as int);
    assert(values_view(a, a.len() as int) =~= b.map_values(|x: u8| ValueView::Int(x as i64)));
}

proof fn lemma_header_array(a: Seq<JsonValue>, hs: Seq<u8>, data: Seq<u8>, rest: Seq<u8>)
    requires
        hs.len() == a.len(),
        forall|j: int| 0 <= j < a.len() ==> header_item(a[j], #[trigger] hs[j]),
        spec_encode_length(Category::HeaderArray, hs.len()) is Ok,
    ensures
        spec_take_value(data + spec_encode_length(Category::HeaderArray, hs.len())->Ok_0 + hs + rest, data.len() as int)
            == Decoded::Done(
            ValueView::Array(values_view(a, a.len() as int)),
            (data.len() + spec_encode_length(Category::HeaderArray, hs.len())->Ok_0.len() + hs.len()) as int,
        ),
        !(spec_write_value(data + spec_encode_length(Category::HeaderArray, hs.len())->Ok_0 + hs + rest, data.len() as int) is Refused),
{
    let h = spec_encode_length(Category::HeaderArray, hs.len())->Ok_0;
    let s = data + h + hs + rest;
    let k = data.len() as int;
    assert(s =~= data + h + (hs + rest));
    let l = lemma_length_header(Category::HeaderArray, hs.len(), data, hs + rest);
    assert(s.subrange(k + h.len(), k + h.len() + hs.len()) =~= hs);
    assert(values_view(a, 0) =~= Seq::<ValueView>::empty());
    lemma_header_values(a, hs, k + h.len() + hs.len(), 0);
    lemma_header_texts_done(a, hs, k + h.len() + hs.len(), 0, Seq::empty());
}

proof fn lemma_i64_array(a: Seq<JsonValue>, x: Seq<i64>, data: Seq<u8>, rest: Seq<u8>)
    requires
        x.len() == a.len(),
        forall|j: int| 0 <= j < a.len() ==> a[j] == JsonValue::Int(#[trigger] x[j]),
        spec_encode_length(Category::I64Array, x.len()) is Ok,
    ensures
        ({
            let d = aligned(data + spec_encode_length(Category::I64Array, x.len())->Ok_0, vstd::layout::align_of::<i64>());
            &&& spec_take_value(d + le_i64s(x) + rest, data.len() as int) == Decoded::Done(
                ValueView::Array(values_view(a, a.len() as int)),
                (d.len() + le_i64s(x).len()) as int,
            )
            &&& !(spec_write_value(d + le_i64s(x) + rest, data.len() as int) is Refused)
        }),
{
    let h = spec_encode_length(Category::I64Array, x.len())->Ok_0;
    let k = data.len() as int;
    let al = vstd::layout::align_of::<i64>() as int;
    let d = aligned(data + h, vstd::layout::align_of::<i64>());
    let pad = zeros(pad_to((data + h).len() as int, al) as nat);
    let s = d + le_i64s(x) + rest;
    lemma_le_i64s(x);
    assert(d =~= data + h + pad);
    assert(s =~= data + h + (pad + le_i64s(x) + rest));
    let l = lemma_length_header(Category::I64Array, x.len(), data, pad + le_i64s(x) + rest);
    let i2 = k + h.len();
    assert(align_up(i2, al) == d.len());
    assert(s.subrange(d.len() as int, (d.len() + x.len() * 8) as int) =~= le_i64s(x));
    lemma_values_view_index(a, a.len() as int);
    assert(values_view(a, a.len() as int) =~= x.map_values(|v: i64| v as int).map_values(
        |v: int| ValueView::Int(v as i64),
    ));
}

proof fn lemma_empty_array(data: Seq<u8>, rest: Seq<u8>)
    ensures
        spec_take_value(data + spec_encode_length(Category::HetArray, 0)->Ok_0 + rest, data.len() as int)
            == Decoded::Done(ValueView::Array(Seq::empty()), data.len() + 1int),
        !(spec_write_value(data + spec_encode_length(Category::HetArray, 0)->Ok_0 + rest, data.len() as int) is Refused),
{
    let h = spec_encode_length(Category::HetArray, 0)->Ok_0;
    let l = lemma_length_header(Category::HetArray, 0, data, rest);
    assert(l == Length::Empty);
}

/// Decoding gives back an array that batson packs (empty, all integers, or all values that a
/// header alone holds: null, booleans, integers and whole floats from zero to ten, empty
/// strings, arrays and objects), none of its items negative zero: encoded after any bytes
/// `data`, it decodes from where its encoding starts to the same array, taking exactly its
/// bytes, whatever follows them.
pub proof fn lemma_packed_array_round_trip(a: Seq<JsonValue>, data: Seq<u8>, rest: Seq<u8>)
    requires
        packed_array(a),
        forall|j: int| 0 <= j < a.len() ==> not_negative_zero(#[trigger] a[j]),
        spec_encode_array(a, data) is Ok,
    ensures
        spec_take_value(spec_encode_array(a, data)->Ok_0 + rest, data.len() as int) == Decoded::Done(
            ValueView::Array(values_view(a, a.len() as int)),
            spec_encode_array(a, data)->Ok_0.len() as int,
        ),
        extends(spec_encode_array(a, data)->Ok_0, data),
        spec_encode_array(a, data)->Ok_0.len() > data.len(),
        !(spec_write_value(spec_encode_array(a, data)->Ok_0 + rest, data.len() as int) is Refused),
{
    let e = spec_encode_array(a, data)->Ok_0;
    let n = a.len() as int;
    if n == 0 {
        let h = spec_encode_length(Category::HetArray, 0)->Ok_0;
        assert(e =~= data + h);
        lemma_empty_array(data, rest);
        assert(values_view(a, 0) =~= Seq::<ValueView>::empty());
    } else {
        lemma_pack_fold(a, n);
        let st = pack_fold(a, n)->0;
        if let Some(b) = st.bytes {
            let h = spec_encode_length(Category::U8Array, b.len())->Ok_0;
            assert(e =~= data + h + b);
            lemma_u8_array(a, b, data, rest);
        } else if let Some(hs) = st.headers {
            let h = spec_encode_length(Category::HeaderArray, hs.len())->Ok_0;
            assert(e =~= data + h + hs);
            lemma_header_array(a, hs, data, rest);
        } else {
            let x = st.ints->0;
            let h = spec_encode_length(Category::I64Array, x.len())->Ok_0;
            let d = aligned(data + h, vstd::layout::align_of::<i64>());
            assert(e =~= d + le_i64s(x));
            assert(d.subrange(0, data.len() as int) =~= data);
            lemma_i64_array(a, x, data, rest);
        }
    }
    assert(e.subrange(0, data.len() as int) =~= data);
}

/// Whether decoding gives `v` back from its encoding: no big integer and no negative zero, at
/// any depth.
pub open spec fn decodes_back(v: JsonValue) -> bool
    decreases v, 1nat,
{
    match v {
        JsonValue::BigInt(_) => false,
        JsonValue::Float(bits) => bits != negative_zero_bits(),
        JsonValue::Array(a) => items_decode_back(a@),
        JsonValue::Object(o) => entries_decode_back(o@),
        _ => true,
    }
}

/// Every value of an object decodes back.
pub open spec fn entries_decode_back(o: Seq<(String, JsonValue)>) -> bool
    decreases o, 0nat,
{
    forall|i: int| 0 <= i < o.len() ==> decodes_back(#[trigger] o[i].1)
}

/// Every item decodes back.
pub open spec fn items_decode_back(a: Seq<JsonValue>) -> bool
    decreases a, 0nat,
{
    forall|i: int| 0 <= i < a.len() ==> decodes_back(#[trigger] a[i])
}

/// `s` holds the bytes of `e` from `from` on, and maybe more after them.
pub open spec fn agrees_within(s: Seq<u8>, e: Seq<u8>, from: int) -> bool {
    &&& s.len() >= e.len()
    &&& forall|x: int| from <= x < e.len() ==> #[trigger] s[x] == e[x]
}

/// The bytes and offsets of a successful encoding of items.
pub open spec fn items_result(r: Result<Option<(Seq<u8>, Seq<int>)>, EncodeError>) -> (Seq<u8>, Seq<int>) {
    match r {
        Ok(Some(p)) => p,
        _ => (Seq::empty(), Seq::empty()),
    }
}

/// The bytes of a successful sized encoding.
pub open spec fn sized_result(r: Result<Option<Seq<u8>>, EncodeError>) -> Seq<u8> {
    match r {
        Ok(Some(d)) => d,
        _ => Seq::empty(),
    }
}

/// Items other than big integers take at least a byte each.
proof fn lemma_min_array_size_ge(a: Seq<JsonValue>, k: int)
    requires
        0 <= k <= a.len(),
        items_decode_back(a),
    ensures
        min_array_size(a, k) >= k,
    decreases k,
{
    if k > 0 {
        lemma_min_array_size_ge(a, k - 1);
        assert(decodes_back(a[k - 1]));
    }
}

/// Encoding items appends to what was there, one offset for each item.
proof fn lemma_items_grow(w: nat, a: Seq<JsonValue>, k: nat, start: int, d: Seq<u8>, offsets: Seq<int>)
    requires
        k <= a.len(),
        items_decode_back(a),
        spec_encode_items(w, a, k, start, d, offsets) matches Ok(Some(_)),
    ensures
        extends(items_result(spec_encode_items(w, a, k, start, d, offsets)).0, d),
        items_result(spec_encode_items(w, a, k, start, d, offsets)).1.len() == offsets.len() + a.len() - k,
    decreases a, 1nat, a.len() - k,
{
    if k < a.len() {
        let off = d.len() - start;
        assert(decodes_back(a[k as int]));
        lemma_encode_grows(a[k as int], d);
        let dk = spec_encode_value(a[k as int], d)->Ok_0;
        lemma_items_grow(w, a, k + 1, start, dk, offsets.push(off));
        lemma_extends_trans(items_result(spec_encode_items(w, a, k, start, d, offsets)).0, dk, d);
    } else {
        assert(d.subrange(0, d.len() as int) =~= d);
    }
}

/// A sized encoding of items appends to what was there.
proof fn lemma_sized_grows(w: nat, a: Seq<JsonValue>, dh: Seq<u8>)
    requires
        w == 1 || w == 2 || w == 4,
        a.len() > 0,
        items_decode_back(a),
        spec_encode_array_sized(w, a, dh) matches Ok(Some(_)),
    ensures
        extends(sized_result(spec_encode_array_sized(w, a, dh)), dh),
        sized_result(spec_encode_array_sized(w, a, dh)).len() > dh.len(),
    decreases a, 2nat, 0nat,
{
    let n = a.len();
    let d1 = aligned(dh, offset_align(w));
    let d2 = d1 + zeros(n * w);
    assert(n * w >= 1) by (nonlinear_arith)
        requires
            n >= 1,
            w >= 1;
    lemma_items_grow(w, a, 0, d2.len() as int, d2, Seq::empty());
    let (d3, offs) = items_result(spec_encode_items(w, a, 0, d2.len() as int, d2, Seq::empty()));
    lemma_le_seq_len(offs, w);
    lemma_extends_append(dh, zeros(pad_to(dh.len() as int, offset_align(w) as int) as nat));
    lemma_extends_append(d1, zeros(n * w));
    lemma_extends_trans(d2, d1, dh);
    lemma_extends_trans(d3, d2, dh);
    lemma_splice(d3, d1.len() as int, le_seq(offs, w), dh);
}

/// Encoding a value that decodes back appends at least one byte to what was there.
pub proof fn lemma_encode_grows(v: JsonValue, data: Seq<u8>)
    requires
        decodes_back(v),
        spec_encode_value(v, data) is Ok,
    ensures
        extends(spec_encode_value(v, data)->Ok_0, data),
        spec_encode_value(v, data)->Ok_0.len() > data.len(),
    decreases v, 0nat, 0nat,
{
    match v {
        JsonValue::Array(a) => {
            lemma_array_grows(a@, data);
        },
        JsonValue::Object(o) => {
            if o@.len() == 0 {
                let h = spec_encode_length(Category::Object, 0)->Ok_0;
                assert(spec_encode_value(v, data)->Ok_0 =~= data + h);
                assert((data + h).subrange(0, data.len() as int) =~= data);
            } else {
                lemma_object_grows(o@, data);
            }
        },
        _ => {
            lemma_scalar_extends(v, data);
        },
    }
}

/// Encoding an array whose items decode back appends at least one byte to what was there.
proof fn lemma_array_grows(a: Seq<JsonValue>, data: Seq<u8>)
    requires
        items_decode_back(a),
        spec_encode_array(a, data) is Ok,
    ensures
        extends(spec_encode_array(a, data)->Ok_0, data),
        spec_encode_array(a, data)->Ok_0.len() > data.len(),
    decreases a, 3nat, 0nat,
{
    let e = spec_encode_array(a, data)->Ok_0;
    if packed_array(a) {
        assert forall|j: int| 0 <= j < a.len() implies not_negative_zero(#[trigger] a[j]) by {
            assert(decodes_back(a[j]));
        }
        lemma_packed_array_round_trip(a, data, Seq::empty());
    } else {
        let n = a.len();
        let min = min_array_size(a, n as int);
        lemma_min_array_size_ge(a, n as int);
        assert(pack_fold(a, n as int) is None);
        let h1 = spec_encode_length(Category::HetArray, n);
        let h2 = seq![header_byte(Category::HetArray, 12)] + le_bytes(n, 2);
        let dh2 = data + seq![header_byte(Category::HetArray, 12)] + le_bytes(n, 2);
        assert(dh2 =~= data + h2);
        let h4 = spec_encode_len_u32(Category::HetArray, n);
        let r1 = if h1 is Ok { spec_encode_array_sized(1, a, data + h1->Ok_0) } else { Ok(None) };
        let r2 = spec_encode_array_sized(2, a, dh2);
        if min <= 0xff && h1 is Ok && r1 matches Ok(Some(_)) {
            assert(e == sized_result(r1));
            lemma_sized_grows(1, a, data + h1->Ok_0);
            lemma_extends_append(data, h1->Ok_0);
            lemma_extends_trans(e, data + h1->Ok_0, data);
        } else if min <= 0xffff && r2 matches Ok(Some(_)) {
            assert(e == sized_result(r2));
            lemma_sized_grows(2, a, dh2);
            lemma_extends_append(data, h2);
            lemma_extends_trans(e, dh2, data);
        } else {
            assert(h4 is Ok);
            assert(spec_encode_array_sized(4, a, data + h4->Ok_0) matches Ok(Some(_)));
            assert(e == sized_result(spec_encode_array_sized(4, a, data + h4->Ok_0)));
            lemma_sized_grows(4, a, data + h4->Ok_0);
            lemma_extends_append(data, h4->Ok_0);
            lemma_extends_trans(e, data + h4->Ok_0, data);
        }
    }
}

/// A header of category `c` forced to hold the length `len` in the two (`code` 12) or four
/// (`code` 13) bytes after it reads back as such a header and the length.
proof fn lemma_forced_header(c: Category, code: u8, len: nat, data: Seq<u8>, rest: Seq<u8>) -> (l: Length)
    requires
        !(c is Primitive || c is Int || c is Float),
        code == 12 || code == 13,
        code == 12 ==> len <= 0xffff,
        code == 13 ==> len <= 0xffff_ffff,
    ensures
        ({
            let nb: nat = if code == 12 { 2 } else { 4 };
            let h = seq![header_byte(c, code)] + le_bytes(len, nb);
            let s = data + h + rest;
            &&& spec_read_header(s, data.len() as int) == Ok::<(Header, int), crate::batson::errors::DecodeError>(
                (length_header(c, l), data.len() + 1int),
            )
            &&& spec_read_length(s, data.len() + 1int, l) == Ok::<(int, int), crate::batson::errors::DecodeError>(
                (len as int, (data.len() + h.len()) as int),
            )
            &&& header_width(l) == nb
            &&& l != Length::Empty
        }),
{
    reveal_with_fuel(pow256, 5);
    let nb: nat = if code == 12 { 2 } else { 4 };
    let h = seq![header_byte(c, code)] + le_bytes(len, nb);
    let s = data + h + rest;
    let k = data.len() as int;
    lemma_header_byte_split(c, code);
    lemma_le_roundtrip(len, nb);
    vstd::arithmetic::div_mod::lemma_small_mod(len, pow256(nb));
    assert(s[k] == h[0]);
    assert(s.subrange(k + 1, k + 1 + nb) =~= le_bytes(len, nb));
    if code == 12 {
        Length::U16
    } else {
        Length::U32
    }
}

/// Decoding the items that encoding `a` from the `k`-th on wrote gives them back, from where
/// they start, in bytes `s` that hold what was written.
#[verifier::rlimit(30)]
proof fn lemma_rt_items(
    w: nat,
    a: Seq<JsonValue>,
    k: nat,
    start: int,
    d: Seq<u8>,
    offsets: Seq<int>,
    s: Seq<u8>,
    tacc: Seq<Seq<JsonPiece>>,
)
    requires
        k <= a.len(),
        items_decode_back(a),
        spec_encode_items(w, a, k, start, d, offsets) matches Ok(Some(_)),
        agrees_within(s, items_result(spec_encode_items(w, a, k, start, d, offsets)).0, d.len() as int),
    ensures
        spec_take_items(s, d.len() as int, a.len() - k, values_view(a, k as int)) == Decoded::Done(
            values_view(a, a.len() as int),
            items_result(spec_encode_items(w, a, k, start, d, offsets)).0.len() as int,
        ),
        !(spec_write_items(s, d.len() as int, a.len() - k, tacc) is Refused),
    decreases a, 1nat, a.len() - k,
{
    let d3 = items_result(spec_encode_items(w, a, k, start, d, offsets)).0;
    if k < a.len() {
        let off = d.len() - start;
        assert(decodes_back(a[k as int]));
        let dk = spec_encode_value(a[k as int], d)->Ok_0;
        let rest_k = s.skip(dk.len() as int);
        lemma_encode_grows(a[k as int], d);
        lemma_round_trip(a[k as int], d, rest_k);
        lemma_items_grow(w, a, k + 1, start, dk, offsets.push(off));
        assert(items_result(spec_encode_items(w, a, k + 1, start, dk, offsets.push(off))).0 == d3);
        assert(agree_from(s, dk + rest_k, d.len() as int)) by {
            assert forall|x: int| d.len() <= x < s.len() implies #[trigger] s[x] == (dk + rest_k)[x] by {
                if x < dk.len() {
                    assert(d3.subrange(0, dk.len() as int)[x] == dk[x]);
                }
            }
        }
        lemma_value_agree(s, dk + rest_k, d.len() as int);
        lemma_write_value_agree(s, dk + rest_k, d.len() as int);
        lemma_write_value_text(s, d.len() as int);
        let x = spec_write_value(s, d.len() as int)->Done_0;
        lemma_rt_items(w, a, k + 1, start, dk, offsets.push(off), s, tacc.push(x));
        lemma_values_view_index(a, k as int);
        lemma_values_view_index(a, k + 1int);
        assert(values_view(a, k + 1int) == values_view(a, k as int).push(json_view(a[k as int])));
    }
}

/// Decoding what the sized encoding of `a` wrote after `dh` gives the items back: the table of
/// offsets is there, and the items follow it.
proof fn lemma_rt_sized(w: nat, a: Seq<JsonValue>, dh: Seq<u8>, s: Seq<u8>)
    requires
        w == 1 || w == 2 || w == 4,
        a.len() > 0,
        items_decode_back(a),
        spec_encode_array_sized(w, a, dh) matches Ok(Some(_)),
        agrees_within(s, sized_result(spec_encode_array_sized(w, a, dh)), dh.len() as int),
    ensures
        ({
            let al = align_up(dh.len() as int, offset_align(w) as int);
            &&& spec_take_slice(s, al, (a.len() * w) as int) is Ok
            &&& spec_take_items(s, al + a.len() * w, a.len() as int, Seq::empty()) == Decoded::Done(
                values_view(a, a.len() as int),
                sized_result(spec_encode_array_sized(w, a, dh)).len() as int,
            )
            &&& !(spec_write_items(s, al + a.len() * w, a.len() as int, Seq::empty()) is Refused)
        }),
    decreases a, 2nat, 0nat,
{
    let n = a.len();
    let e = sized_result(spec_encode_array_sized(w, a, dh));
    let d1 = aligned(dh, offset_align(w));
    let d2 = d1 + zeros(n * w);
    lemma_items_grow(w, a, 0, d2.len() as int, d2, Seq::empty());
    let (d3, offs) = items_result(spec_encode_items(w, a, 0, d2.len() as int, d2, Seq::empty()));
    let l = le_seq(offs, w);
    lemma_le_seq_len(offs, w);
    lemma_extends_append(d1, zeros(n * w));
    lemma_extends_trans(d3, d2, d1);
    lemma_splice(d3, d1.len() as int, l, d1);
    assert(e == splice(d3, d1.len() as int, l));
    assert(d1.len() == align_up(dh.len() as int, offset_align(w) as int));
    assert forall|x: int| d2.len() <= x < d3.len() implies #[trigger] e[x] == d3[x] by {
        assert(e[x] == d3.subrange((d1.len() + l.len()) as int, d3.len() as int)[x - d1.len() - l.len()]);
    }
    assert(agrees_within(s, d3, d2.len() as int));
    lemma_rt_items(w, a, 0, d2.len() as int, d2, Seq::empty(), s, Seq::empty());
    assert(values_view(a, 0) =~= Seq::<ValueView>::empty());
}

/// Decoding an array of mixed values whose header, of width `w`, reads back from `data + h`.
proof fn lemma_het_value(w: nat, a: Seq<JsonValue>, data: Seq<u8>, h: Seq<u8>, l: Length, rest: Seq<u8>)
    requires
        w == 1 || w == 2 || w == 4,
        a.len() > 0,
        items_decode_back(a),
        spec_encode_array_sized(w, a, data + h) matches Ok(Some(_)),
        header_width(l) == w,
        l != Length::Empty,
        h.len() > 0,
        ({
            let s = sized_result(spec_encode_array_sized(w, a, data + h)) + rest;
            &&& spec_read_header(s, data.len() as int) == Ok::<(Header, int), crate::batson::errors::DecodeError>(
                (Header::HetArray(l), data.len() + 1int),
            )
            &&& spec_read_length(s, data.len() + 1int, l) == Ok::<(int, int), crate::batson::errors::DecodeError>(
                (a.len() as int, (data.len() + h.len()) as int),
            )
        }),
    ensures
        spec_take_value(sized_result(spec_encode_array_sized(w, a, data + h)) + rest, data.len() as int)
            == Decoded::Done(
            ValueView::Array(values_view(a, a.len() as int)),
            sized_result(spec_encode_array_sized(w, a, data + h)).len() as int,
        ),
        !(spec_write_value(sized_result(spec_encode_array_sized(w, a, data + h)) + rest, data.len() as int) is Refused),
    decreases a, 3nat, 0nat,
{
    let n = a.len();
    let dh = data + h;
    let e = sized_result(spec_encode_array_sized(w, a, dh));
    let s = e + rest;
    lemma_sized_grows(w, a, dh);
    assert(agrees_within(s, e, dh.len() as int));
    lemma_rt_sized(w, a, dh, s);
    let al = align_up(dh.len() as int, offset_align(w) as int);
    let t = spec_take_slice(s, al, (n * w) as int)->Ok_0;
    assert(le_words(t, w).len() == n) by {
        vstd::arithmetic::div_mod::lemma_div_multiples_vanish(n as int, w as int);
    }
    assert(al >= dh.len());
    assert(spec_het_header(s, data.len() + 1int, l) == Ok::<(Seq<int>, int), crate::batson::errors::DecodeError>(
        (le_words(t, w), al + n * w),
    ));
}

/// The width and header that encoding a non-empty array of mixed values chose.
proof fn lemma_array_choice(a: Seq<JsonValue>, data: Seq<u8>) -> (r: (nat, Seq<u8>))
    requires
        a.len() > 0,
        !packed_array(a),
        items_decode_back(a),
        spec_encode_array(a, data) is Ok,
    ensures
        r.0 == 1 || r.0 == 2 || r.0 == 4,
        spec_encode_array_sized(r.0, a, data + r.1) matches Ok(Some(_)),
        spec_encode_array(a, data)->Ok_0 == sized_result(spec_encode_array_sized(r.0, a, data + r.1)),
        r.0 == 1 ==> a.len() <= 0xff && spec_encode_length(Category::HetArray, a.len()) == Ok::<Seq<u8>, EncodeError>(r.1),
        r.0 == 2 ==> a.len() <= 0xffff && r.1 == seq![header_byte(Category::HetArray, 12)] + le_bytes(a.len(), 2),
        r.0 == 4 ==> a.len() <= 0xffff_ffff && r.1 == seq![header_byte(Category::HetArray, 13)] + le_bytes(a.len(), 4),
{
    let e = spec_encode_array(a, data)->Ok_0;
    let n = a.len();
    let min = min_array_size(a, n as int);
    lemma_min_array_size_ge(a, n as int);
    assert(pack_fold(a, n as int) is None);
    let h1 = spec_encode_length(Category::HetArray, n);
    let h2 = seq![header_byte(Category::HetArray, 12)] + le_bytes(n, 2);
    let dh2 = data + seq![header_byte(Category::HetArray, 12)] + le_bytes(n, 2);
    assert(dh2 =~= data + h2);
    let h4 = spec_encode_len_u32(Category::HetArray, n);
    let r1 = if h1 is Ok { spec_encode_array_sized(1, a, data + h1->Ok_0) } else { Ok(None) };
    let r2 = spec_encode_array_sized(2, a, dh2);
    if min <= 0xff && h1 is Ok && r1 matches Ok(Some(_)) {
        (1, h1->Ok_0)
    } else if min <= 0xffff && r2 matches Ok(Some(_)) {
        (2, h2)
    } else {
        (4, h4->Ok_0)
    }
}

/// Decoding gives back an array whose items decode back, from where its encoding starts.
#[verifier::spinoff_prover]
proof fn lemma_rt_array(a: Seq<JsonValue>, data: Seq<u8>, rest: Seq<u8>)
    requires
        items_decode_back(a),
        spec_encode_array(a, data) is Ok,
    ensures
        spec_take_value(spec_encode_array(a, data)->Ok_0 + rest, data.len() as int) == Decoded::Done(
            ValueView::Array(values_view(a, a.len() as int)),
            spec_encode_array(a, data)->Ok_0.len() as int,
        ),
        !(spec_write_value(spec_encode_array(a, data)->Ok_0 + rest, data.len() as int) is Refused),
    decreases a, 4nat, 0nat,
{
    if packed_array(a) {
        assert forall|j: int| 0 <= j < a.len() implies not_negative_zero(#[trigger] a[j]) by {
            assert(decodes_back(a[j]));
        }
        lemma_packed_array_round_trip(a, data, rest);
    } else {
        let e = spec_encode_array(a, data)->Ok_0;
        let n = a.len();
        let (w, h) = lemma_array_choice(a, data);
        lemma_sized_grows(w, a, data + h);
        let tail = e.skip((data + h).len() as int) + rest;
        assert(e + rest =~= data + h + tail);
        let l = if w == 1 {
            lemma_length_header(Category::HetArray, n, data, tail)
        } else if w == 2 {
            lemma_forced_header(Category::HetArray, 12, n, data, tail)
        } else {
            lemma_forced_header(Category::HetArray, 13, n, data, tail)
        };
        lemma_het_value(w, a, data, h, l, rest);
    }
}

/// Decoding gives back what encoding wrote: a value with no big integer and no negative zero,
/// at any depth, encoded after any bytes `data`, decodes from where its encoding starts to
/// itself, taking exactly its bytes, whatever follows them.
pub proof fn lemma_round_trip(v: JsonValue, data: Seq<u8>, rest: Seq<u8>)
    requires
        decodes_back(v),
        spec_encode_value(v, data) is Ok,
    ensures
        spec_take_value(spec_encode_value(v, data)->Ok_0 + rest, data.len() as int) == Decoded::Done(
            json_view(v),
            spec_encode_value(v, data)->Ok_0.len() as int,
        ),
        !(spec_write_value(spec_encode_value(v, data)->Ok_0 + rest, data.len() as int) is Refused),
    decreases v, 0nat, 0nat,
{
    match v {
        JsonValue::Array(a) => {
            lemma_rt_array(a@, data, rest);
        },
        JsonValue::Object(o) => {
            if o@.len() == 0 {
                let h = spec_encode_length(Category::Object, 0)->Ok_0;
                let e = spec_encode_value(v, data)->Ok_0;
                assert(e =~= data + h);
                assert(e + rest =~= data + h + rest);
                let l = lemma_length_header(Category::Object, 0, data, rest);
                assert(entries_view(o@, 0) =~= Seq::<(Seq<char>, ValueView)>::empty());
            } else {
                lemma_rt_object(o@, data, rest);
            }
        },
        _ => {
            lemma_scalar_round_trip(v, data, rest);
        },
    }
}

/// Writing as JSON gives the text of what encoding wrote: a value with no big integer and no
/// negative zero, at any depth, encoded after any bytes `data`, writes from where its encoding
/// starts as its own JSON text (each float set aside as its bits), taking exactly its bytes,
/// whatever follows them.
pub proof fn lemma_json_round_trip(v: JsonValue, data: Seq<u8>, rest: Seq<u8>)
    requires
        decodes_back(v),
        spec_encode_value(v, data) is Ok,
    ensures
        spec_write_value(spec_encode_value(v, data)->Ok_0 + rest, data.len() as int) == Written::Done(
            view_text(json_view(v)),
            spec_encode_value(v, data)->Ok_0.len() as int,
        ),
{
    lemma_round_trip(v, data, rest);
    lemma_write_value_text(spec_encode_value(v, data)->Ok_0 + rest, data.len() as int);
}

/// Every field of every item is below `256` to the `w` and not negative.
pub open spec fn fields_fit(items: Seq<(int, int, int)>, w: nat) -> bool {
    forall|i: int| 0 <= i < items.len() ==> {
        &&& 0 <= (#[trigger] items[i]).0 < pow256(w)
        &&& 0 <= items[i].1 < pow256(w)
        &&& 0 <= items[i].2 < pow256(w)
    }
}

/// The fields written `w` bytes each read back as the items.
proof fn lemma_items_of_bytes(x: Seq<(int, int, int)>, w: nat)
    requires
        w > 0,
        fields_fit(x, w),
    ensures
        items_of(items_bytes(x, w), w) == x,
    decreases x.len(),
{
    lemma_items_bytes_len(x, w);
    let t = items_bytes(x, w);
    let n = x.len() as int;
    assert(t.len() / (3 * w) == n) by {
        assert(t.len() == n * (3 * w)) by (nonlinear_arith)
            requires
                t.len() == n * 3 * w;
        vstd::arithmetic::div_mod::lemma_div_multiples_vanish(n, (3 * w) as int);
    }
    if n > 0 {
        let p = items_bytes(x.drop_last(), w);
        lemma_items_of_bytes(x.drop_last(), w);
        lemma_items_bytes_len(x.drop_last(), w);
        let last = x.last();
        assert(fields_fit(x.drop_last(), w)) by {
            assert forall|i: int| 0 <= i < x.drop_last().len() implies {
                &&& 0 <= (#[trigger] x.drop_last()[i]).0 < pow256(w)
                &&& 0 <= x.drop_last()[i].1 < pow256(w)
                &&& 0 <= x.drop_last()[i].2 < pow256(w)
            } by {
                assert(x.drop_last()[i] == x[i]);
            }
        }
        assert(0 <= last.0 < pow256(w) && 0 <= last.1 < pow256(w) && 0 <= last.2 < pow256(w)) by {
            assert(x[n - 1] == last);
        }
        let b0 = le_bytes(last.0 as nat, w);
        let b1 = le_bytes(last.1 as nat, w);
        let b2 = le_bytes(last.2 as nat, w);
        lemma_le_roundtrip(last.0 as nat, w);
        lemma_le_roundtrip(last.1 as nat, w);
        lemma_le_roundtrip(last.2 as nat, w);
        vstd::arithmetic::div_mod::lemma_small_mod(last.0 as nat, pow256(w));
        vstd::arithmetic::div_mod::lemma_small_mod(last.1 as nat, pow256(w));
        vstd::arithmetic::div_mod::lemma_small_mod(last.2 as nat, pow256(w));
        assert(t =~= p + b0 + b1 + b2);
        let m = p.len() as int;
        assert(m == (n - 1) * 3 * w);
        assert forall|i: int| 0 <= i < n implies #[trigger] items_of(t, w)[i] == x[i] by {
            if i < n - 1 {
                assert(p.len() / (3 * w) == n - 1) by {
                    assert(p.len() == (n - 1) * (3 * w)) by (nonlinear_arith)
                        requires
                            p.len() == (n - 1) * 3 * w;
                    vstd::arithmetic::div_mod::lemma_div_multiples_vanish(n - 1, (3 * w) as int);
                }
                assert(0 <= 3 * i * w && 3 * i * w + 3 * w <= m && (3 * i + 1) * w == 3 * i * w + w && (3
                    * i + 2) * w == 3 * i * w + 2 * w) by (nonlinear_arith)
                    requires
                        0 <= i < n - 1,
                        m == (n - 1) * 3 * w,
                        w > 0;
                assert(t.subrange(3 * i * w, 3 * i * w + w) =~= p.subrange(3 * i * w, 3 * i * w + w));
                assert(t.subrange((3 * i + 1) * w, (3 * i + 1) * w + w) =~= p.subrange(
                    (3 * i + 1) * w,
                    (3 * i + 1) * w + w,
                ));
                assert(t.subrange((3 * i + 2) * w, (3 * i + 2) * w + w) =~= p.subrange(
                    (3 * i + 2) * w,
                    (3 * i + 2) * w + w,
                ));
                assert(items_of(p, w)[i] == x.drop_last()[i]);
            } else {
                assert(3 * i * w == m && (3 * i + 1) * w == m + w && (3 * i + 2) * w == m + 2 * w) by (nonlinear_arith)
                    requires
                        i == n - 1,
                        m == (n - 1) * 3 * w;
                assert(t.subrange(m, m + w) =~= b0);
                assert(t.subrange(m + w, m + 2 * w) =~= b1);
                assert(t.subrange(m + 2 * w, m + 3 * w) =~= b2);
            }
        }
        assert(items_of(t, w) =~= x);
    } else {
        assert(items_of(t, w) =~= x);
    }
}

/// Inserting keeps every item and adds `x`, with no item twice if none was and `x` is new.
proof fn lemma_insert_item_keeps(sorted: Seq<(int, int, int)>, x: (int, int, int))
    ensures
        insert_item(sorted, x).contains(x),
        forall|j: int| 0 <= j < sorted.len() ==> insert_item(sorted, x).contains(#[trigger] sorted[j]),
        sorted.no_duplicates() && !sorted.contains(x) ==> insert_item(sorted, x).no_duplicates(),
    decreases sorted.len(),
{
    lemma_insert_item_from(sorted, x);
    let r = insert_item(sorted, x);
    if sorted.len() == 0 {
        assert(r[0] == x);
    } else if item_le(sorted.last(), x) {
        assert(r[r.len() - 1] == x);
        assert forall|j: int| 0 <= j < sorted.len() implies r.contains(#[trigger] sorted[j]) by {
            assert(r[j] == sorted[j]);
        }
    } else {
        let d = sorted.drop_last();
        lemma_insert_item_keeps(d, x);
        lemma_insert_item_from(d, x);
        let r0 = insert_item(d, x);
        assert(r == r0.push(sorted.last()));
        let u = choose|u: int| 0 <= u < r0.len() && r0[u] == x;
        assert(r[u] == x);
        assert forall|j: int| 0 <= j < sorted.len() implies r.contains(#[trigger] sorted[j]) by {
            if j < sorted.len() - 1 {
                assert(d[j] == sorted[j]);
                let v = choose|v: int| 0 <= v < r0.len() && r0[v] == d[j];
                assert(r[v] == sorted[j]);
            } else {
                assert(r[r.len() - 1] == sorted[j]);
            }
        }
        if sorted.no_duplicates() && !sorted.contains(x) {
            assert(d.no_duplicates()) by {
                assert forall|a: int, b: int| 0 <= a < d.len() && 0 <= b < d.len() && a != b implies d[a] != d[b] by {
                    assert(d[a] == sorted[a] && d[b] == sorted[b]);
                }
            }
            assert(!d.contains(x)) by {
                if d.contains(x) {
                    let v = choose|v: int| 0 <= v < d.len() && d[v] == x;
                    assert(sorted[v] == x);
                }
            }
            assert forall|a: int, b: int| 0 <= a < r.len() && 0 <= b < r.len() && a != b implies r[a] != r[b] by {
                if a < r.len() - 1 && b < r.len() - 1 {
                    assert(r[a] == r0[a] && r[b] == r0[b]);
                } else {
                    let t = if a < r.len() - 1 { a } else { b };
                    assert(r[r.len() - 1] == sorted[sorted.len() - 1]);
                    assert(r[t] == r0[t]);
                    if r0[t] == x {
                        assert(sorted[sorted.len() - 1] == sorted.last());
                    } else {
                        assert(d.contains(r0[t]));
                        let v = choose|v: int| 0 <= v < d.len() && d[v] == r0[t];
                        assert(sorted[v] == d[v]);
                    }
                }
            }
        }
    }
}

/// Sorting keeps every item, with no item twice if none was.
proof fn lemma_sort_items_keeps(items: Seq<(int, int, int)>)
    requires
        items.no_duplicates(),
    ensures
        sort_items(items).no_duplicates(),
        forall|j: int| 0 <= j < items.len() ==> sort_items(items).contains(#[trigger] items[j]),
    decreases items.len(),
{
    if items.len() > 0 {
        let d = items.drop_last();
        assert(d.no_duplicates()) by {
            assert forall|a: int, b: int| 0 <= a < d.len() && 0 <= b < d.len() && a != b implies d[a] != d[b] by {
                assert(d[a] == items[a] && d[b] == items[b]);
            }
        }
        lemma_sort_items_keeps(d);
        lemma_sort_items_from(d);
        let p = sort_items(d);
        assert(!p.contains(items.last())) by {
            if p.contains(items.last()) {
                let u = choose|u: int| 0 <= u < p.len() && p[u] == items.last();
                assert(d.contains(p[u]));
                let v = choose|v: int| 0 <= v < d.len() && d[v] == p[u];
                assert(items[v] == items[items.len() - 1]);
            }
        }
        lemma_insert_item_keeps(p, items.last());
        assert forall|j: int| 0 <= j < items.len() implies sort_items(items).contains(#[trigger] items[j]) by {
            if j < items.len() - 1 {
                assert(d[j] == items[j]);
                assert(p.contains(d[j]));
                let u = choose|u: int| 0 <= u < p.len() && p[u] == d[j];
                assert(insert_item(p, items.last()).contains(p[u]));
            }
        }
    }
}

/// Where the header index of sorted item `j` goes: the `w` bytes before its key.
pub open spec fn slot(start: int, sorted: Seq<(int, int, int)>, w: nat, j: int) -> int {
    start + sorted[j].2 - w
}

/// Whether `x` lies in the slot of a sorted item from the `i`-th on.
pub open spec fn in_some_slot(start: int, sorted: Seq<(int, int, int)>, w: nat, i: int, x: int) -> bool {
    exists|j: int| i <= j < sorted.len() && slot(start, sorted, w, j) <= x < #[trigger] slot(start, sorted, w, j) + w
}

/// Setting the header indices writes each index in its item's slot and leaves every other byte.
proof fn lemma_set_indices(data: Seq<u8>, start: int, sorted: Seq<(int, int, int)>, w: nat, i: nat)
    requires
        i <= sorted.len(),
        w > 0,
        forall|j: int| i <= j < sorted.len() ==> 0 <= #[trigger] slot(start, sorted, w, j) && slot(start, sorted, w, j) + w <= data.len(),
        forall|j: int, j2: int|
            i <= j < sorted.len() && i <= j2 < sorted.len() && j != j2 ==> #[trigger] slot(start, sorted, w, j) + w <= #[trigger] slot(
                start,
                sorted,
                w,
                j2,
            ) || slot(start, sorted, w, j2) + w <= slot(start, sorted, w, j),
    ensures
        set_indices(data, start, sorted, w, i).len() == data.len(),
        forall|j: int|
            i <= j < sorted.len() ==> set_indices(data, start, sorted, w, i).subrange(
                #[trigger] slot(start, sorted, w, j),
                slot(start, sorted, w, j) + w,
            ) == le_bytes(j as nat, w),
        forall|x: int|
            0 <= x < data.len() && !in_some_slot(start, sorted, w, i as int, x) ==> #[trigger] set_indices(
                data,
                start,
                sorted,
                w,
                i,
            )[x] == data[x],
    decreases sorted.len() - i,
{
    if i < sorted.len() {
        let p = slot(start, sorted, w, i as int);
        let b = le_bytes(i as nat, w);
        lemma_le_roundtrip(i as nat, w);
        let d2 = splice(data, p, b);
        assert(start + sorted[i as int].2 - w == p);
        assert(d2.len() == data.len());
        lemma_set_indices(d2, start, sorted, w, i + 1);
        let r = set_indices(data, start, sorted, w, i);
        assert(r == set_indices(d2, start, sorted, w, i + 1));
        assert forall|x: int| p <= x < p + w implies #[trigger] r[x] == b[x - p] by {
            if in_some_slot(start, sorted, w, i + 1int, x) {
                let j = choose|j: int| i + 1 <= j < sorted.len() && slot(start, sorted, w, j) <= x < #[trigger] slot(start, sorted, w, j) + w;
                assert(slot(start, sorted, w, i as int) + w <= slot(start, sorted, w, j) || slot(start, sorted, w, j) + w <= slot(start, sorted, w, i as int));
            }
            assert(d2[x] == b[x - p]);
        }
        assert(r.subrange(p, p + w) =~= b);
        assert forall|x: int| 0 <= x < data.len() && !in_some_slot(start, sorted, w, i as int, x) implies #[trigger] r[x] == data[x] by {
            if in_some_slot(start, sorted, w, i + 1int, x) {
                let j = choose|j: int| i + 1 <= j < sorted.len() && slot(start, sorted, w, j) <= x < #[trigger] slot(start, sorted, w, j) + w;
                assert(in_some_slot(start, sorted, w, i as int, x));
            }
            if p <= x < p + w {
                assert(in_some_slot(start, sorted, w, i as int, x));
            }
            assert(d2[x] == data[x]);
        }
    }
}

/// The bytes and items of a successful encoding of entries.
pub open spec fn entries_result(r: Result<Option<(Seq<u8>, Seq<(int, int, int)>)>, EncodeError>) -> (
    Seq<u8>,
    Seq<(int, int, int)>,
) {
    match r {
        Ok(Some(p)) => p,
        _ => (Seq::empty(), Seq::empty()),
    }
}

/// What encoding entries from the `k`-th on records: one item for each, its fields fitting in
/// `w` bytes, its key starting past the slot for its header index, each after the one before.
pub open spec fn items_laid_out(its: Seq<(int, int, int)>, from: int, start: int, lo: int, hi: int, w: nat) -> bool {
    &&& forall|j: int| from <= j < its.len() ==> {
        &&& lo + w <= start + (#[trigger] its[j]).2 <= hi
        &&& 0 <= its[j].0 < pow256(w)
        &&& 0 <= its[j].1 < pow256(w)
        &&& 0 <= its[j].2 < pow256(w)
    }
    &&& forall|j: int, j2: int| from <= j < j2 < its.len() ==> (#[trigger] its[j]).2 + w <= (#[trigger] its[j2]).2
}

/// Encoding entries appends to what was there and lays out their items.
proof fn lemma_entries_grow(
    w: nat,
    o: Seq<(String, JsonValue)>,
    k: nat,
    start: int,
    d: Seq<u8>,
    items: Seq<(int, int, int)>,
)
    requires
        k <= o.len(),
        w > 0,
        start <= d.len(),
        entries_decode_back(o),
        spec_encode_entries(w, o, k, start, d, items) matches Ok(Some(_)),
    ensures
        ({
            let (d3, its) = entries_result(spec_encode_entries(w, o, k, start, d, items));
            &&& extends(d3, d)
            &&& its.len() == items.len() + o.len() - k
            &&& its.subrange(0, items.len() as int) == items
            &&& items_laid_out(its, items.len() as int, start, d.len() as int, d3.len() as int, w)
        }),
    decreases o, 1nat, o.len() - k,
{
    let (d3, its) = entries_result(spec_encode_entries(w, o, k, start, d, items));
    if k < o.len() {
        let key = encode_utf8(o[k as int].0@);
        let d1 = d + le_bytes(0, w);
        lemma_le_roundtrip(0, w);
        let off = d1.len() - start;
        let item = (key.len() as int, crate::batson::object::spec_djb2(key) as int % pow256(w) as int, off);
        assert(decodes_back(o[k as int].1));
        lemma_encode_grows(o[k as int].1, d1 + key);
        let dk = spec_encode_value(o[k as int].1, d1 + key)->Ok_0;
        lemma_entries_grow(w, o, k + 1, start, dk, items.push(item));
        assert(entries_result(spec_encode_entries(w, o, k + 1, start, dk, items.push(item))) == (d3, its));
        lemma_extends_append(d, le_bytes(0, w));
        lemma_extends_append(d1, key);
        lemma_extends_trans(dk, d1 + key, d1);
        lemma_extends_trans(dk, d1, d);
        lemma_extends_trans(d3, dk, d);
        assert(its.subrange(0, items.len() as int) =~= its.subrange(0, items.len() + 1int).subrange(0, items.len() as int));
        assert(its[items.len() as int] == item) by {
            assert(its.subrange(0, items.len() + 1int)[items.len() as int] == items.push(item)[items.len() as int]);
        }
        lemma_pow256_pos_local(w);
        assert forall|j: int| items.len() <= j < its.len() implies {
            &&& d.len() + w <= start + (#[trigger] its[j]).2 <= d3.len()
            &&& 0 <= its[j].0 < pow256(w)
            &&& 0 <= its[j].1 < pow256(w)
            &&& 0 <= its[j].2 < pow256(w)
        } by {
            if j > items.len() {
                assert(dk.len() + w <= start + its[j].2);
            }
        }
        assert forall|j: int, j2: int| items.len() <= j < j2 < its.len() implies (#[trigger] its[j]).2 + w <= (#[trigger] its[j2]).2 by {
            if j == items.len() {
                assert(dk.len() + w <= start + its[j2].2);
            }
        }
    } else {
        assert(d.subrange(0, d.len() as int) =~= d);
        assert(items.subrange(0, items.len() as int) =~= items);
    }
}

proof fn lemma_pow256_pos_local(n: nat)
    ensures
        pow256(n) > 0,
{
    crate::batson::decoder::lemma_pow256_pos(n);
}

/// Entries take at least a byte each.
proof fn lemma_min_object_size_at_least(o: Seq<(String, JsonValue)>, k: int)
    requires
        0 <= k <= o.len(),
    ensures
        min_object_size(o, k) >= k,
    decreases k,
{
    if k > 0 {
        lemma_min_object_size_at_least(o, k - 1);
        assert(min_value_size(o[k - 1].1) >= 0);
    }
}

/// The pieces of a sized encoding of an object: the super header's place, the entries'
/// bytes and items, the items sorted, and the body with the header indices set.
pub open spec fn object_body(w: nat, o: Seq<(String, JsonValue)>, dh: Seq<u8>) -> (Seq<u8>, Seq<u8>, Seq<u8>, Seq<(int, int, int)>, Seq<(int, int, int)>, Seq<u8>) {
    let d1 = aligned(dh, offset_align(w));
    let d2 = d1 + zeros(o.len() * 3 * w);
    let (d3, its) = entries_result(spec_encode_entries(w, o, 0, d2.len() as int, d2, Seq::empty()));
    let sorted = sort_items(its);
    let t = set_indices(d3, d2.len() as int, sorted, w, 0);
    (d1, d2, d3, its, sorted, t)
}

/// The items sorted keep their layout: no item twice, each slot within the body and apart from
/// the others, the fields fitting in `w` bytes.
proof fn lemma_sorted_layout(its: Seq<(int, int, int)>, start: int, hi: int, w: nat)
    requires
        w > 0,
        items_laid_out(its, 0, start, start, hi, w),
    ensures
        ({
            let sorted = sort_items(its);
            &&& sorted.len() == its.len()
            &&& sorted.no_duplicates()
            &&& forall|j: int| 0 <= j < its.len() ==> sorted.contains(#[trigger] its[j])
            &&& forall|j: int| 0 <= j < sorted.len() ==> its.contains(#[trigger] sorted[j])
            &&& fields_fit(sorted, w)
            &&& forall|j: int|
                0 <= j < sorted.len() ==> start <= #[trigger] slot(start, sorted, w, j) && slot(start, sorted, w, j) + w <= hi
            &&& forall|j: int, j2: int|
                0 <= j < sorted.len() && 0 <= j2 < sorted.len() && j != j2 ==> #[trigger] slot(start, sorted, w, j) + w
                    <= #[trigger] slot(start, sorted, w, j2) || slot(start, sorted, w, j2) + w <= slot(start, sorted, w, j)
        }),
{
    let sorted = sort_items(its);
    lemma_sort_items_from(its);
    assert(its.no_duplicates()) by {
        assert forall|a: int, b: int| 0 <= a < its.len() && 0 <= b < its.len() && a != b implies its[a] != its[b] by {
            if a < b {
                assert(its[a].2 + w <= its[b].2);
            } else {
                assert(its[b].2 + w <= its[a].2);
            }
        }
    }
    lemma_sort_items_keeps(its);
    assert forall|j: int| 0 <= j < sorted.len() implies start <= #[trigger] slot(start, sorted, w, j) && slot(start, sorted, w, j) + w <= hi by {
        assert(its.contains(sorted[j]));
        let a = choose|a: int| 0 <= a < its.len() && its[a] == sorted[j];
        assert(start + w <= start + its[a].2 <= hi);
    }
    assert forall|j: int, j2: int|
        0 <= j < sorted.len() && 0 <= j2 < sorted.len() && j != j2 implies #[trigger] slot(start, sorted, w, j) + w <= #[trigger] slot(
        start,
        sorted,
        w,
        j2,
    ) || slot(start, sorted, w, j2) + w <= slot(start, sorted, w, j) by {
        assert(its.contains(sorted[j]) && its.contains(sorted[j2]));
        let a = choose|a: int| 0 <= a < its.len() && its[a] == sorted[j];
        let b = choose|b: int| 0 <= b < its.len() && its[b] == sorted[j2];
        assert(sorted[j] != sorted[j2]);
        if a < b {
            assert(its[a].2 + w <= its[b].2);
        } else {
            assert(its[b].2 + w <= its[a].2);
        }
    }
    assert forall|j: int| 0 <= j < sorted.len() implies {
        &&& 0 <= (#[trigger] sorted[j]).0 < pow256(w)
        &&& 0 <= sorted[j].1 < pow256(w)
        &&& 0 <= sorted[j].2 < pow256(w)
    } by {
        assert(its.contains(sorted[j]));
        let a = choose|a: int| 0 <= a < its.len() && its[a] == sorted[j];
        assert(0 <= its[a].0 < pow256(w));
    }
}

/// Bytes before every slot are left as they were by setting the header indices.
proof fn lemma_body_prefix(d3: Seq<u8>, t: Seq<u8>, start: int, sorted: Seq<(int, int, int)>, w: nat, d1: Seq<u8>)
    requires
        d1.len() <= start,
        extends(d3, d1),
        t.len() == d3.len(),
        forall|j: int| 0 <= j < sorted.len() ==> start <= #[trigger] slot(start, sorted, w, j),
        forall|x: int| 0 <= x < d3.len() && !in_some_slot(start, sorted, w, 0, x) ==> #[trigger] t[x] == d3[x],
    ensures
        extends(t, d1),
{
    assert forall|x: int| 0 <= x < d1.len() implies #[trigger] t.subrange(0, d1.len() as int)[x] == d1[x] by {
        if in_some_slot(start, sorted, w, 0, x) {
            let j = choose|j: int| 0 <= j < sorted.len() && slot(start, sorted, w, j) <= x < #[trigger] slot(start, sorted, w, j) + w;
            assert(start <= slot(start, sorted, w, j));
        }
        assert(t[x] == d3[x]);
        assert(d3.subrange(0, d1.len() as int)[x] == d1[x]);
    }
    assert(t.subrange(0, d1.len() as int) =~= d1);
}

/// What holds of a sized encoding of an object: it appends to what was there; its body is the
/// entries with each header index set in its slot; its super header is the sorted items.
proof fn lemma_object_sized(w: nat, o: Seq<(String, JsonValue)>, dh: Seq<u8>)
    requires
        w == 1 || w == 2 || w == 4,
        o.len() > 0,
        entries_decode_back(o),
        spec_encode_object_sized(w, o, dh) matches Ok(Some(_)),
    ensures
        ({
            let e = sized_result(spec_encode_object_sized(w, o, dh));
            let (d1, d2, d3, its, sorted, t) = object_body(w, o, dh);
            &&& extends(e, dh)
            &&& e.len() > dh.len()
            &&& e.len() == t.len() == d3.len()
            &&& e == splice(t, d1.len() as int, items_bytes(sorted, w))
            &&& d1.len() == align_up(dh.len() as int, offset_align(w) as int)
            &&& d2.len() == d1.len() + o.len() * 3 * w
            &&& extends(d3, d2)
            &&& its.len() == o.len()
            &&& items_laid_out(its, 0, d2.len() as int, d2.len() as int, d3.len() as int, w)
            &&& sorted.len() == o.len()
            &&& sorted.no_duplicates()
            &&& forall|j: int| 0 <= j < its.len() ==> sorted.contains(#[trigger] its[j])
            &&& forall|j: int| 0 <= j < sorted.len() ==> its.contains(#[trigger] sorted[j])
            &&& fields_fit(sorted, w)
            &&& forall|j: int|
                0 <= j < sorted.len() ==> t.subrange(#[trigger] slot(d2.len() as int, sorted, w, j), slot(d2.len() as int, sorted, w, j) + w)
                    == le_bytes(j as nat, w)
            &&& forall|x: int|
                0 <= x < d3.len() && !in_some_slot(d2.len() as int, sorted, w, 0, x) ==> #[trigger] t[x] == d3[x]
            &&& forall|j: int| 0 <= j < sorted.len() ==> d2.len() <= #[trigger] slot(d2.len() as int, sorted, w, j)
        }),
    decreases o, 2nat, 0nat,
{
    let n = o.len();
    let e = sized_result(spec_encode_object_sized(w, o, dh));
    let (d1, d2, d3, its, sorted, t) = object_body(w, o, dh);
    let start = d2.len() as int;
    assert(n * 3 * w >= 3) by (nonlinear_arith)
        requires
            n >= 1,
            w >= 1;
    lemma_entries_grow(w, o, 0, start, d2, Seq::empty());
    lemma_sorted_layout(its, start, d3.len() as int, w);
    lemma_set_indices(d3, start, sorted, w, 0);
    lemma_items_bytes_len(sorted, w);
    lemma_extends_append(dh, zeros(pad_to(dh.len() as int, offset_align(w) as int) as nat));
    lemma_extends_append(d1, zeros(n * 3 * w));
    lemma_extends_trans(d3, d2, d1);
    lemma_body_prefix(d3, t, start, sorted, w, d1);
    lemma_extends_trans(t, d1, dh);
    lemma_splice(t, d1.len() as int, items_bytes(sorted, w), dh);
    assert(e == splice(t, d1.len() as int, items_bytes(sorted, w)));
}

/// Encoding an object whose values decode back appends at least one byte to what was there.
proof fn lemma_object_grows(o: Seq<(String, JsonValue)>, data: Seq<u8>)
    requires
        o.len() > 0,
        entries_decode_back(o),
        spec_encode_object(o, data) is Ok,
    ensures
        extends(spec_encode_object(o, data)->Ok_0, data),
        spec_encode_object(o, data)->Ok_0.len() > data.len(),
    decreases o, 3nat, 0nat,
{
    let e = spec_encode_object(o, data)->Ok_0;
    let n = o.len();
    let min = min_object_size(o, n as int);
    lemma_min_object_size_at_least(o, n as int);
    let h1 = spec_encode_length(Category::Object, n);
    let h2 = seq![header_byte(Category::Object, 12)] + le_bytes(n, 2);
    let dh2 = data + seq![header_byte(Category::Object, 12)] + le_bytes(n, 2);
    assert(dh2 =~= data + h2);
    let h4 = spec_encode_len_u32(Category::Object, n);
    let r1 = if h1 is Ok { spec_encode_object_sized(1, o, data + h1->Ok_0) } else { Ok(None) };
    let r2 = spec_encode_object_sized(2, o, dh2);
    if min <= 0xff && h1 is Ok && r1 matches Ok(Some(_)) {
        assert(e == sized_result(r1));
        lemma_object_sized(1, o, data + h1->Ok_0);
        lemma_extends_append(data, h1->Ok_0);
        lemma_extends_trans(e, data + h1->Ok_0, data);
    } else if min <= 0xffff && r2 matches Ok(Some(_)) {
        assert(e == sized_result(r2));
        lemma_object_sized(2, o, dh2);
        lemma_extends_append(data, h2);
        lemma_extends_trans(e, dh2, data);
    } else {
        assert(h4 is Ok);
        assert(spec_encode_object_sized(4, o, data + h4->Ok_0) matches Ok(Some(_)));
        assert(e == sized_result(spec_encode_object_sized(4, o, data + h4->Ok_0)));
        lemma_object_sized(4, o, data + h4->Ok_0);
        lemma_extends_append(data, h4->Ok_0);
        lemma_extends_trans(e, data + h4->Ok_0, data);
    }
}

/// A byte between the slot of entry `k` and the first slot after it lies in no slot.
proof fn lemma_not_in_slot(
    sorted: Seq<(int, int, int)>,
    its: Seq<(int, int, int)>,
    start: int,
    w: nat,
    k: int,
    lo: int,
    hi: int,
    x: int,
)
    requires
        0 <= k < its.len(),
        forall|j: int| 0 <= j < sorted.len() ==> its.contains(#[trigger] sorted[j]),
        forall|a: int| 0 <= a < k ==> start + (#[trigger] its[a]).2 <= lo - w,
        start + its[k].2 == lo,
        forall|a: int| k < a < its.len() ==> start + (#[trigger] its[a]).2 - w >= hi,
        lo <= x < hi,
    ensures
        !in_some_slot(start, sorted, w, 0, x),
{
    if in_some_slot(start, sorted, w, 0, x) {
        let j = choose|j: int| 0 <= j < sorted.len() && slot(start, sorted, w, j) <= x < #[trigger] slot(start, sorted, w, j) + w;
        assert(its.contains(sorted[j]));
        let a = choose|a: int| 0 <= a < its.len() && its[a] == sorted[j];
        if a < k {
            assert(start + its[a].2 <= lo - w);
        } else if a > k {
            assert(start + its[a].2 - w >= hi);
        }
    }
}

/// One entry decodes from its header index, its key and its value.
proof fn lemma_entries_step(
    s: Seq<u8>,
    pos: int,
    w: nat,
    sorted: Seq<(int, int, int)>,
    m: int,
    acc: Seq<(Seq<char>, ValueView)>,
    i: int,
    key: Seq<u8>,
    kchars: Seq<char>,
    v: ValueView,
    end: int,
)
    requires
        m >= 1,
        w > 0,
        0 <= i < sorted.len(),
        i < pow256(w),
        sorted[i].0 == key.len(),
        spec_take_slice(s, pos, w as int) == Ok::<Seq<u8>, crate::batson::errors::DecodeError>(le_bytes(i as nat, w)),
        spec_take_slice(s, pos + w, key.len() as int) == Ok::<Seq<u8>, crate::batson::errors::DecodeError>(key),
        valid_utf8(key),
        decode_utf8(key) == kchars,
        spec_take_value(s, pos + w + key.len()) == Decoded::Done(v, end),
        pos < end <= s.len(),
    ensures
        spec_take_entries(s, pos, w, sorted, m, acc) == spec_take_entries(s, end, w, sorted, m - 1, acc.push((kchars, v))),
{
    lemma_le_roundtrip(i as nat, w);
    vstd::arithmetic::div_mod::lemma_small_mod(i as nat, pow256(w));
}

/// One entry writes from its header index, its key and its value.
proof fn lemma_write_entries_step(
    s: Seq<u8>,
    pos: int,
    w: nat,
    sorted: Seq<(int, int, int)>,
    m: int,
    tacc: Seq<Seq<JsonPiece>>,
    i: int,
    key: Seq<u8>,
    kchars: Seq<char>,
    end: int,
)
    requires
        m >= 1,
        w > 0,
        0 <= i < sorted.len(),
        i < pow256(w),
        sorted[i].0 == key.len(),
        spec_take_slice(s, pos, w as int) == Ok::<Seq<u8>, crate::batson::errors::DecodeError>(le_bytes(i as nat, w)),
        spec_take_slice(s, pos + w, key.len() as int) == Ok::<Seq<u8>, crate::batson::errors::DecodeError>(key),
        valid_utf8(key),
        decode_utf8(key) == kchars,
        spec_write_value(s, pos + w + key.len()) matches Written::Done(_, e) && e == end,
        pos < end <= s.len(),
    ensures
        spec_write_entries(s, pos, w, sorted, m, tacc) == spec_write_entries(
            s,
            end,
            w,
            sorted,
            m - 1,
            tacc.push(crate::batson::json_writer::entry_text(kchars, spec_write_value(s, pos + w + key.len())->Done_0)),
        ),
{
    lemma_le_roundtrip(i as nat, w);
    vstd::arithmetic::div_mod::lemma_small_mod(i as nat, pow256(w));
}

/// The bytes of entry `k` in `s`: its header index, the place of its item among the sorted
/// items, and its key and value as encoding wrote them.
proof fn lemma_entry_bytes(
    s: Seq<u8>,
    sorted: Seq<(int, int, int)>,
    its: Seq<(int, int, int)>,
    start: int,
    w: nat,
    k: int,
    d: Seq<u8>,
    d1: Seq<u8>,
    dk: Seq<u8>,
    d3: Seq<u8>,
) -> (ik: int)
    requires
        0 <= k < its.len(),
        w > 0,
        d1.len() == d.len() + w,
        start + its[k].2 == d1.len(),
        d1.len() <= dk.len() <= d3.len() <= s.len(),
        extends(d3, dk),
        forall|a: int| 0 <= a < k ==> start + (#[trigger] its[a]).2 <= d.len(),
        forall|a: int| k < a < its.len() ==> start + (#[trigger] its[a]).2 - w >= dk.len(),
        forall|j: int| 0 <= j < sorted.len() ==> its.contains(#[trigger] sorted[j]),
        forall|j: int| 0 <= j < its.len() ==> sorted.contains(#[trigger] its[j]),
        forall|j: int|
            0 <= j < sorted.len() && d.len() <= slot(start, sorted, w, j) ==> s.subrange(#[trigger] slot(start, sorted, w, j), slot(start, sorted, w, j) + w)
                == le_bytes(j as nat, w),
        forall|x: int| d.len() <= x < d3.len() && !in_some_slot(start, sorted, w, 0, x) ==> #[trigger] s[x] == d3[x],
    ensures
        0 <= ik < sorted.len(),
        sorted[ik] == its[k],
        s.subrange(d.len() as int, d1.len() as int) == le_bytes(ik as nat, w),
        forall|x: int| d1.len() <= x < dk.len() ==> #[trigger] s[x] == dk[x],
{
    assert(sorted.contains(its[k]));
    let ik = choose|i: int| 0 <= i < sorted.len() && sorted[i] == its[k];
    assert(slot(start, sorted, w, ik) == d.len());
    assert forall|x: int| d1.len() <= x < dk.len() implies #[trigger] s[x] == dk[x] by {
        lemma_not_in_slot(sorted, its, start, w, k, d1.len() as int, dk.len() as int, x);
        assert(d3.subrange(0, dk.len() as int)[x] == dk[x]);
    }
    ik
}

/// The value of an entry, encoded after `dk` into `de` and standing in `s`, decodes back and
/// writes as its text.
proof fn lemma_entry_value(v: JsonValue, dk: Seq<u8>, de: Seq<u8>, s: Seq<u8>)
    requires
        decodes_back(v),
        spec_encode_value(v, dk) == Ok::<Seq<u8>, EncodeError>(de),
        s.len() >= de.len(),
        de.len() >= dk.len(),
        forall|x: int| dk.len() <= x < de.len() ==> #[trigger] s[x] == de[x],
    ensures
        spec_take_value(s, dk.len() as int) == Decoded::Done(json_view(v), de.len() as int),
        spec_write_value(s, dk.len() as int) == Written::Done(view_text(json_view(v)), de.len() as int),
    decreases v, 1nat, 0nat,
{
    let rest = s.skip(de.len() as int);
    lemma_round_trip(v, dk, rest);
    assert(agree_from(s, de + rest, dk.len() as int)) by {
        assert forall|x: int| dk.len() <= x < s.len() implies #[trigger] s[x] == (de + rest)[x] by {
            if x < de.len() {
                assert(s[x] == de[x]);
            }
        }
    }
    lemma_value_agree(s, de + rest, dk.len() as int);
    lemma_write_value_agree(s, de + rest, dk.len() as int);
    lemma_write_value_text(s, dk.len() as int);
}

/// Decoding the entries that encoding `o` from the `k`-th on wrote gives them back, in bytes
/// `s` that hold the body with each header index in its slot.
#[verifier::spinoff_prover]
#[verifier::rlimit(60)]
proof fn lemma_rt_entries(
    w: nat,
    o: Seq<(String, JsonValue)>,
    k: nat,
    start: int,
    d: Seq<u8>,
    items: Seq<(int, int, int)>,
    s: Seq<u8>,
    sorted: Seq<(int, int, int)>,
    d3: Seq<u8>,
    its: Seq<(int, int, int)>,
    tacc: Seq<Seq<JsonPiece>>,
)
    requires
        k <= o.len(),
        w == 1 || w == 2 || w == 4,
        start <= d.len(),
        entries_decode_back(o),
        spec_encode_entries(w, o, k, start, d, items) matches Ok(Some(_)),
        entries_result(spec_encode_entries(w, o, k, start, d, items)) == (d3, its),
        items.len() == k,
        forall|a: int| 0 <= a < k ==> start + (#[trigger] items[a]).2 <= d.len(),
        sorted.len() == o.len(),
        o.len() < pow256(w),
        forall|j: int| 0 <= j < sorted.len() ==> its.contains(#[trigger] sorted[j]),
        forall|j: int| 0 <= j < its.len() ==> sorted.contains(#[trigger] its[j]),
        s.len() >= d3.len(),
        forall|j: int|
            0 <= j < sorted.len() && d.len() <= slot(start, sorted, w, j) ==> s.subrange(#[trigger] slot(start, sorted, w, j), slot(start, sorted, w, j) + w)
                == le_bytes(j as nat, w),
        forall|x: int| d.len() <= x < d3.len() && !in_some_slot(start, sorted, w, 0, x) ==> #[trigger] s[x] == d3[x],
    ensures
        spec_take_entries(s, d.len() as int, w, sorted, o.len() - k, entries_view(o, k as int)) == Decoded::Done(
            entries_view(o, o.len() as int),
            d3.len() as int,
        ),
        !(spec_write_entries(s, d.len() as int, w, sorted, o.len() - k, tacc) is Refused),
    decreases o, 1nat, o.len() - k,
{
    if k < o.len() {
        let key = encode_utf8(o[k as int].0@);
        let d1 = d + le_bytes(0, w);
        lemma_le_roundtrip(0, w);
        let off = d1.len() - start;
        let item = (key.len() as int, crate::batson::object::spec_djb2(key) as int % pow256(w) as int, off);
        let dk = spec_encode_value(o[k as int].1, d1 + key)->Ok_0;
        assert(decodes_back(o[k as int].1));
        lemma_encode_grows(o[k as int].1, d1 + key);
        assert(entries_result(spec_encode_entries(w, o, k + 1, start, dk, items.push(item))) == (d3, its));
        lemma_entries_grow(w, o, k + 1, start, dk, items.push(item));
        assert(its[k as int] == item) by {
            assert(its.subrange(0, k + 1int)[k as int] == items.push(item)[k as int]);
        }
        assert forall|a: int| 0 <= a < k implies start + (#[trigger] its[a]).2 <= d.len() by {
            assert(its.subrange(0, k + 1int)[a] == items.push(item)[a]);
            assert(items.push(item)[a] == items[a]);
        }
        lemma_extends_append(d1, key);
        lemma_extends_trans(dk, d1 + key, d1);
        let ik = lemma_entry_bytes(s, sorted, its, start, w, k as int, d, d1, dk, d3);
        assert forall|x: int| (d1 + key).len() <= x < dk.len() implies #[trigger] s[x] == dk[x] by {}
        lemma_entry_value(o[k as int].1, d1 + key, dk, s);
        assert(s.subrange(d1.len() as int, (d1.len() + key.len()) as int) =~= key) by {
            assert forall|x: int| 0 <= x < key.len() implies s.subrange(d1.len() as int, (d1.len() + key.len()) as int)[x] == key[x] by {
                assert(s[d1.len() + x] == dk[d1.len() + x]);
                assert(dk.subrange(0, (d1 + key).len() as int)[d1.len() + x] == (d1 + key)[d1.len() + x]);
            }
        }
        encode_utf8_valid_utf8(o[k as int].0@);
        encode_utf8_decode_utf8(o[k as int].0@);
        lemma_entries_step(
            s,
            d.len() as int,
            w,
            sorted,
            o.len() - k,
            entries_view(o, k as int),
            ik,
            key,
            o[k as int].0@,
            json_view(o[k as int].1),
            dk.len() as int,
        );
        assert forall|a: int| 0 <= a < k + 1 implies start + (#[trigger] items.push(item)[a]).2 <= dk.len() by {
            if a < k {
                assert(items.push(item)[a] == items[a]);
            }
        }
        lemma_write_entries_step(
            s,
            d.len() as int,
            w,
            sorted,
            o.len() - k,
            tacc,
            ik,
            key,
            o[k as int].0@,
            dk.len() as int,
        );
        let vt = view_text(json_view(o[k as int].1));
        lemma_rt_entries(w, o, k + 1, start, dk, items.push(item), s, sorted, d3, its, tacc.push(
            crate::batson::json_writer::entry_text(o[k as int].0@, vt),
        ));
        assert(entries_view(o, k + 1int) == entries_view(o, k as int).push((o[k as int].0@, json_view(o[k as int].1))));
    } else {
        assert(d3 == d);
    }
}

/// Where a sized encoding of an object stands in front of `rest`: its super header holds the
/// sorted items, each header index stands in its slot, and every other byte of the body is
/// what encoding the entries wrote.
#[verifier::spinoff_prover]
#[verifier::rlimit(60)]
proof fn lemma_object_bytes(w: nat, o: Seq<(String, JsonValue)>, dh: Seq<u8>, rest: Seq<u8>)
    requires
        w == 1 || w == 2 || w == 4,
        o.len() > 0,
        entries_decode_back(o),
        spec_encode_object_sized(w, o, dh) matches Ok(Some(_)),
    ensures
        ({
            let e = sized_result(spec_encode_object_sized(w, o, dh));
            let s = e + rest;
            let (d1, d2, d3, its, sorted, t) = object_body(w, o, dh);
            &&& extends(e, dh)
            &&& e.len() == d3.len()
            &&& d1.len() == align_up(dh.len() as int, offset_align(w) as int)
            &&& d2.len() == d1.len() + o.len() * 3 * w
            &&& d2.len() <= s.len()
            &&& items_of(s.subrange(d1.len() as int, d2.len() as int), w) == sorted
            &&& spec_encode_entries(w, o, 0, d2.len() as int, d2, Seq::empty()) matches Ok(Some(_))
            &&& entries_result(spec_encode_entries(w, o, 0, d2.len() as int, d2, Seq::empty())) == (d3, its)
            &&& sorted.len() == o.len()
            &&& forall|j: int| 0 <= j < sorted.len() ==> its.contains(#[trigger] sorted[j])
            &&& forall|j: int| 0 <= j < its.len() ==> sorted.contains(#[trigger] its[j])
            &&& forall|j: int|
                0 <= j < sorted.len() && d2.len() <= slot(d2.len() as int, sorted, w, j) ==> s.subrange(
                    #[trigger] slot(d2.len() as int, sorted, w, j),
                    slot(d2.len() as int, sorted, w, j) + w,
                ) == le_bytes(j as nat, w)
            &&& forall|x: int|
                d2.len() <= x < d3.len() && !in_some_slot(d2.len() as int, sorted, w, 0, x) ==> #[trigger] s[x] == d3[x]
        }),
{
    let n = o.len();
    let e = sized_result(spec_encode_object_sized(w, o, dh));
    let s = e + rest;
    lemma_object_sized(w, o, dh);
    let (d1, d2, d3, its, sorted, t) = object_body(w, o, dh);
    let sh = items_bytes(sorted, w);
    lemma_items_bytes_len(sorted, w);
    lemma_items_of_bytes(sorted, w);
    assert(s.subrange(d1.len() as int, d2.len() as int) =~= sh) by {
        assert forall|x: int| 0 <= x < sh.len() implies #[trigger] s.subrange(d1.len() as int, d2.len() as int)[x] == sh[x] by {
            assert(e[d1.len() + x] == sh[x]);
        }
    }
    assert forall|x: int| d2.len() <= x < e.len() implies #[trigger] s[x] == t[x] by {
        assert(e[x] == t.subrange((d1.len() + sh.len()) as int, t.len() as int)[x - d1.len() - sh.len()]);
    }
    assert forall|j: int|
        0 <= j < sorted.len() && d2.len() <= slot(d2.len() as int, sorted, w, j) implies s.subrange(
        #[trigger] slot(d2.len() as int, sorted, w, j),
        slot(d2.len() as int, sorted, w, j) + w,
    ) == le_bytes(j as nat, w) by {
        let p = slot(d2.len() as int, sorted, w, j);
        assert(s.subrange(p, p + w) =~= t.subrange(p, p + w));
    }
}

/// Decoding an object whose header, of width `w`, reads back from `data + h`.
#[verifier::spinoff_prover]
#[verifier::rlimit(60)]
proof fn lemma_object_value(w: nat, o: Seq<(String, JsonValue)>, data: Seq<u8>, h: Seq<u8>, l: Length, rest: Seq<u8>)
    requires
        w == 1 || w == 2 || w == 4,
        o.len() > 0,
        o.len() < pow256(w),
        entries_decode_back(o),
        spec_encode_object_sized(w, o, data + h) matches Ok(Some(_)),
        header_width(l) == w,
        l != Length::Empty,
        h.len() > 0,
        ({
            let s = sized_result(spec_encode_object_sized(w, o, data + h)) + rest;
            &&& spec_read_header(s, data.len() as int) == Ok::<(Header, int), crate::batson::errors::DecodeError>(
                (Header::Object(l), data.len() + 1int),
            )
            &&& spec_read_length(s, data.len() + 1int, l) == Ok::<(int, int), crate::batson::errors::DecodeError>(
                (o.len() as int, (data.len() + h.len()) as int),
            )
        }),
    ensures
        spec_take_value(sized_result(spec_encode_object_sized(w, o, data + h)) + rest, data.len() as int)
            == Decoded::Done(
            ValueView::Object(entries_view(o, o.len() as int)),
            sized_result(spec_encode_object_sized(w, o, data + h)).len() as int,
        ),
        !(spec_write_value(sized_result(spec_encode_object_sized(w, o, data + h)) + rest, data.len() as int) is Refused),
    decreases o, 3nat, 0nat,
{
    let dh = data + h;
    let e = sized_result(spec_encode_object_sized(w, o, dh));
    let s = e + rest;
    lemma_object_bytes(w, o, dh, rest);
    let (d1, d2, d3, its, sorted, t) = object_body(w, o, dh);
    assert(spec_object_header(s, data.len() + 1int, l) == Ok::<(nat, Seq<(int, int, int)>, int), crate::batson::errors::DecodeError>(
        (w, sorted, d2.len() as int),
    ));
    assert(entries_view(o, 0) =~= Seq::<(Seq<char>, ValueView)>::empty());
    lemma_rt_entries(w, o, 0, d2.len() as int, d2, Seq::empty(), s, sorted, d3, its, Seq::empty());
}

/// The width and header that encoding a non-empty object chose.
proof fn lemma_object_choice(o: Seq<(String, JsonValue)>, data: Seq<u8>) -> (r: (nat, Seq<u8>))
    requires
        o.len() > 0,
        spec_encode_object(o, data) is Ok,
    ensures
        r.0 == 1 || r.0 == 2 || r.0 == 4,
        spec_encode_object_sized(r.0, o, data + r.1) matches Ok(Some(_)),
        spec_encode_object(o, data)->Ok_0 == sized_result(spec_encode_object_sized(r.0, o, data + r.1)),
        r.0 == 1 ==> o.len() <= 0xff && spec_encode_length(Category::Object, o.len()) == Ok::<Seq<u8>, EncodeError>(r.1),
        r.0 == 2 ==> o.len() <= 0xffff && r.1 == seq![header_byte(Category::Object, 12)] + le_bytes(o.len(), 2),
        r.0 == 4 ==> o.len() <= 0xffff_ffff && r.1 == seq![header_byte(Category::Object, 13)] + le_bytes(o.len(), 4),
{
    let e = spec_encode_object(o, data)->Ok_0;
    let n = o.len();
    let min = min_object_size(o, n as int);
    lemma_min_object_size_at_least(o, n as int);
    let h1 = spec_encode_length(Category::Object, n);
    let h2 = seq![header_byte(Category::Object, 12)] + le_bytes(n, 2);
    let dh2 = data + seq![header_byte(Category::Object, 12)] + le_bytes(n, 2);
    assert(dh2 =~= data + h2);
    let h4 = spec_encode_len_u32(Category::Object, n);
    let r1 = if h1 is Ok { spec_encode_object_sized(1, o, data + h1->Ok_0) } else { Ok(None) };
    let r2 = spec_encode_object_sized(2, o, dh2);
    if min <= 0xff && h1 is Ok && r1 matches Ok(Some(_)) {
        (1, h1->Ok_0)
    } else if min <= 0xffff && r2 matches Ok(Some(_)) {
        (2, h2)
    } else {
        (4, h4->Ok_0)
    }
}

/// Decoding gives back an object whose values decode back, from where its encoding starts.
#[verifier::spinoff_prover]
#[verifier::rlimit(30)]
proof fn lemma_rt_object(o: Seq<(String, JsonValue)>, data: Seq<u8>, rest: Seq<u8>)
    requires
        o.len() > 0,
        entries_decode_back(o),
        spec_encode_object(o, data) is Ok,
    ensures
        spec_take_value(spec_encode_object(o, data)->Ok_0 + rest, data.len() as int) == Decoded::Done(
            ValueView::Object(entries_view(o, o.len() as int)),
            spec_encode_object(o, data)->Ok_0.len() as int,
        ),
        !(spec_write_value(spec_encode_object(o, data)->Ok_0 + rest, data.len() as int) is Refused),
    decreases o, 4nat, 0nat,
{
    reveal_with_fuel(pow256, 5);
    let e = spec_encode_object(o, data)->Ok_0;
    let n = o.len();
    let (w, h) = lemma_object_choice(o, data);
    lemma_object_sized(w, o, data + h);
    let tail = e.skip((data + h).len() as int) + rest;
    assert(e + rest =~= data + h + tail);
    let l = if w == 1 {
        lemma_length_header(Category::Object, n, data, tail)
    } else if w == 2 {
        lemma_forced_header(Category::Object, 12, n, data, tail)
    } else {
        lemma_forced_header(Category::Object, 13, n, data, tail)
    };
    lemma_object_value(w, o, data, h, l, rest);
}

} // verus!
