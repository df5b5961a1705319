//! Encoding forgets the sign of zero, so a value holding negative zero decodes back, and is
//! written as JSON, with zero in its place.
use vstd::prelude::*;

use crate::batson::array::{pack_fold, pack_step, PackState};
use crate::batson::decoder::{spec_take_value, Decoded};
use crate::batson::encoder::{
    min_array_size, min_object_size, min_value_size, spec_encode_array, spec_encode_array_sized,
    spec_encode_entries, spec_encode_items, spec_encode_object, spec_encode_object_sized,
    spec_encode_len_u32, spec_encode_value, header_byte, with_length,
};
use crate::batson::decoder::le_bytes;
use crate::batson::header::{float_hint, Category};
use crate::batson::round_trip::{decodes_back, lemma_json_round_trip, lemma_round_trip, negative_zero_bits};
use crate::batson::text_view::view_text;
use crate::batson::to_json::{spec_write_value, Written};
use crate::value::{json_view, JsonValue};

verus! {

/// Whether the float bits `a` and `b` are the same, or are both zero of either sign.
pub open spec fn same_float(a: u64, b: u64) -> bool {
    a == b || ((a == 0 || a == negative_zero_bits()) && (b == 0 || b == negative_zero_bits()))
}

/// Whether `v` and `w` are the same value but for the sign of zero floats, at any depth.
pub open spec fn same_but_zero_sign(v: JsonValue, w: JsonValue) -> bool
    decreases v, 1nat,
{
    match v {
        JsonValue::Float(a) => w matches JsonValue::Float(b) && same_float(a, b),
        JsonValue::Array(a) => w matches JsonValue::Array(b) && items_same_but_zero_sign(a@, b@),
        JsonValue::Object(o) => w matches JsonValue::Object(p) && entries_same_but_zero_sign(o@, p@),
        _ => v == w,
    }
}

/// Items that are pairwise the same but for the sign of zero floats.
pub open spec fn items_same_but_zero_sign(a: Seq<JsonValue>, b: Seq<JsonValue>) -> bool
    decreases a, 0nat,
{
    a.len() == b.len() && forall|i: int| 0 <= i < a.len() ==> same_but_zero_sign(#[trigger] a[i], b[i])
}

/// Entries with the same keys whose values are pairwise the same but for the sign of zero
/// floats.
pub open spec fn entries_same_but_zero_sign(o: Seq<(String, JsonValue)>, p: Seq<(String, JsonValue)>) -> bool
    decreases o, 0nat,
{
    o.len() == p.len() && forall|i: int|
        0 <= i < o.len() ==> (#[trigger] o[i]).0 == p[i].0 && same_but_zero_sign(o[i].1, p[i].1)
}

/// Packing steps alike over values the same but for the sign of zero.
proof fn lemma_pack_step_same(st: PackState, v: JsonValue, w: JsonValue)
    requires
        same_but_zero_sign(v, w),
    ensures
        pack_step(st, v) == pack_step(st, w),
{
    match v {
        JsonValue::Float(a) => {
            assert(float_hint(a) == float_hint(w->Float_0));
        },
        JsonValue::Array(a) => {
            assert(a@.len() == w->Array_0@.len());
        },
        JsonValue::Object(o) => {
            assert(o@.len() == w->Object_0@.len());
        },
        _ => {},
    }
}

/// Packing the first `k` items goes alike.
proof fn lemma_pack_fold_same(a: Seq<JsonValue>, b: Seq<JsonValue>, k: int)
    requires
        items_same_but_zero_sign(a, b),
        k <= a.len(),
    ensures
        pack_fold(a, k) == pack_fold(b, k),
    decreases k,
{
    if k > 0 {
        lemma_pack_fold_same(a, b, k - 1);
        if let Some(st) = pack_fold(a, k - 1) {
            lemma_pack_step_same(st, a[k - 1], b[k - 1]);
        }
    }
}

/// The least sizes of values the same but for the sign of zero are equal.
proof fn lemma_min_value_size_same(v: JsonValue, w: JsonValue)
    requires
        same_but_zero_sign(v, w),
    ensures
        min_value_size(v) == min_value_size(w),
{
    match v {
        JsonValue::Array(a) => {
            assert(a@.len() == w->Array_0@.len());
        },
        JsonValue::Object(o) => {
            assert(o@.len() == w->Object_0@.len());
        },
        _ => {},
    }
}

proof fn lemma_min_array_size_same(a: Seq<JsonValue>, b: Seq<JsonValue>, k: int)
    requires
        items_same_but_zero_sign(a, b),
        k <= a.len(),
    ensures
        min_array_size(a, k) == min_array_size(b, k),
    decreases k,
{
    if k > 0 {
        lemma_min_array_size_same(a, b, k - 1);
        lemma_min_value_size_same(a[k - 1], b[k - 1]);
    }
}

proof fn lemma_min_object_size_same(o: Seq<(String, JsonValue)>, p: Seq<(String, JsonValue)>, k: int)
    requires
        entries_same_but_zero_sign(o, p),
        k <= o.len(),
    ensures
        min_object_size(o, k) == min_object_size(p, k),
    decreases k,
{
    if k > 0 {
        lemma_min_object_size_same(o, p, k - 1);
        assert(o[k - 1].0 == p[k - 1].0);
        lemma_min_value_size_same(o[k - 1].1, p[k - 1].1);
    }
}

/// Values the same but for the sign of zero encode to the same bytes.
pub proof fn lemma_encode_same(v: JsonValue, w: JsonValue, data: Seq<u8>)
    requires
        same_but_zero_sign(v, w),
    ensures
        spec_encode_value(v, data) == spec_encode_value(w, data),
    decreases v, 0nat, 0nat,
{
    match v {
        JsonValue::Array(a) => {
            lemma_encode_array_same(a@, w->Array_0@, data);
        },
        JsonValue::Object(o) => {
            lemma_encode_object_same(o@, w->Object_0@, data);
        },
        _ => {},
    }
}

proof fn lemma_encode_array_same(a: Seq<JsonValue>, b: Seq<JsonValue>, data: Seq<u8>)
    requires
        items_same_but_zero_sign(a, b),
    ensures
        spec_encode_array(a, data) == spec_encode_array(b, data),
    decreases a, 3nat, 0nat,
{
    if a.len() > 0 {
        lemma_pack_fold_same(a, b, a.len() as int);
        lemma_min_array_size_same(a, b, a.len() as int);
        let len = a.len();
        if let Ok(h) = spec_encode_len_u32(Category::HetArray, len) {
            lemma_encode_array_sized_same(4, a, b, data + h);
        }
        lemma_encode_array_sized_same(2, a, b, data + seq![header_byte(Category::HetArray, 12)] + le_bytes(len, 2));
        if let Ok(d0) = with_length(Category::HetArray, len, data) {
            lemma_encode_array_sized_same(1, a, b, d0);
        }
    }
}

proof fn lemma_encode_array_sized_same(w: nat, a: Seq<JsonValue>, b: Seq<JsonValue>, data: Seq<u8>)
    requires
        items_same_but_zero_sign(a, b),
    ensures
        spec_encode_array_sized(w, a, data) == spec_encode_array_sized(w, b, data),
    decreases a, 2nat, 0nat,
{
    let d1 = crate::batson::encoder::aligned(data, crate::batson::encoder::offset_align(w));
    let d2 = d1 + crate::batson::encoder::zeros(a.len() * w);
    lemma_encode_items_same(w, a, b, 0, d2.len() as int, d2, Seq::empty());
}

proof fn lemma_encode_items_same(
    w: nat,
    a: Seq<JsonValue>,
    b: Seq<JsonValue>,
    k: nat,
    start: int,
    data: Seq<u8>,
    offsets: Seq<int>,
)
    requires
        items_same_but_zero_sign(a, b),
    ensures
        spec_encode_items(w, a, k, start, data, offsets) == spec_encode_items(w, b, k, start, data, offsets),
    decreases a, 1nat, a.len() - k,
{
    if k < a.len() {
        let off = data.len() - start;
        lemma_encode_same(a[k as int], b[k as int], data);
        if let Ok(d) = spec_encode_value(a[k as int], data) {
            lemma_encode_items_same(w, a, b, k + 1, start, d, offsets.push(off));
        }
    }
}

proof fn lemma_encode_object_same(o: Seq<(String, JsonValue)>, p: Seq<(String, JsonValue)>, data: Seq<u8>)
    requires
        entries_same_but_zero_sign(o, p),
    ensures
        spec_encode_object(o, data) == spec_encode_object(p, data),
    decreases o, 3nat, 0nat,
{
    if o.len() > 0 {
        lemma_min_object_size_same(o, p, o.len() as int);
        let len = o.len();
        if let Ok(h) = spec_encode_len_u32(Category::Object, len) {
            lemma_encode_object_sized_same(4, o, p, data + h);
        }
        lemma_encode_object_sized_same(2, o, p, data + seq![header_byte(Category::Object, 12)] + le_bytes(len, 2));
        if let Ok(d0) = with_length(Category::Object, len, data) {
            lemma_encode_object_sized_same(1, o, p, d0);
        }
    }
}

proof fn lemma_encode_object_sized_same(w: nat, o: Seq<(String, JsonValue)>, p: Seq<(String, JsonValue)>, data: Seq<u8>)
    requires
        entries_same_but_zero_sign(o, p),
    ensures
        spec_encode_object_sized(w, o, data) == spec_encode_object_sized(w, p, data),
    decreases o, 2nat, 0nat,
{
    let d1 = crate::batson::encoder::aligned(data, crate::batson::encoder::offset_align(w));
    let d2 = d1 + crate::batson::encoder::zeros(o.len() * 3 * w);
    lemma_encode_entries_same(w, o, p, 0, d2.len() as int, d2, Seq::empty());
}

proof fn lemma_encode_entries_same(
    w: nat,
    o: Seq<(String, JsonValue)>,
    p: Seq<(String, JsonValue)>,
    k: nat,
    start: int,
    data: Seq<u8>,
    items: Seq<(int, int, int)>,
)
    requires
        entries_same_but_zero_sign(o, p),
    ensures
        spec_encode_entries(w, o, k, start, data, items) == spec_encode_entries(w, p, k, start, data, items),
    decreases o, 1nat, o.len() - k,
{
    if k < o.len() {
        assert(o[k as int].0 == p[k as int].0);
        let key = vstd::utf8::encode_utf8(o[k as int].0@);
        let d1 = data + crate::batson::decoder::le_bytes(0, w);
        let off = d1.len() - start;
        lemma_encode_same(o[k as int].1, p[k as int].1, d1 + key);
        if let Ok(d) = spec_encode_value(o[k as int].1, d1 + key) {
            lemma_encode_entries_same(
                w,
                o,
                p,
                k + 1,
                start,
                d,
                items.push(
                    (
                        key.len() as int,
                        crate::batson::object::spec_djb2(key) as int % crate::batson::decoder::pow256(w) as int,
                        off,
                    ),
                ),
            );
        }
    }
}

/// Decoding gives back what encoding wrote, but for the sign of zero: a value encoded after any
/// bytes `data` decodes, from where its encoding starts and whatever follows it, to any value
/// that is the same but for the sign of its zero floats and holds no big integer and no
/// negative zero, taking exactly the encoding's bytes.
pub proof fn lemma_round_trip_but_zero_sign(v: JsonValue, w: JsonValue, data: Seq<u8>, rest: Seq<u8>)
    requires
        same_but_zero_sign(v, w),
        decodes_back(w),
        spec_encode_value(v, data) is Ok,
    ensures
        spec_take_value(spec_encode_value(v, data)->Ok_0 + rest, data.len() as int) == Decoded::Done(
            json_view(w),
            spec_encode_value(v, data)->Ok_0.len() as int,
        ),
{
    lemma_encode_same(v, w, data);
    lemma_round_trip(w, data, rest);
}

/// Writing as JSON gives the text of what encoding wrote, but for the sign of zero: a value
/// encoded after any bytes `data` writes, from where its encoding starts and whatever follows
/// it, as the JSON text of any value that is the same but for the sign of its zero floats and
/// holds no big integer and no negative zero, taking exactly the encoding's bytes.
pub proof fn lemma_json_round_trip_but_zero_sign(v: JsonValue, w: JsonValue, data: Seq<u8>, rest: Seq<u8>)
    requires
        same_but_zero_sign(v, w),
        decodes_back(w),
        spec_encode_value(v, data) is Ok,
    ensures
        spec_write_value(spec_encode_value(v, data)->Ok_0 + rest, data.len() as int) == Written::Done(
            view_text(json_view(w)),
            spec_encode_value(v, data)->Ok_0.len() as int,
        ),
{
    lemma_encode_same(v, w, data);
    lemma_json_round_trip(w, data, rest);
}

} // verus!
