//! Writing batson: headers, lengths and the bytes of values, appended to a buffer.
use vstd::prelude::*;
use vstd::string::*;

use crate::batson::decoder::{
    le_bytes, le_value, lemma_le_bytes_push, lemma_le_roundtrip, lemma_pow256_pos, pow256,
    twos_complement,
};
use crate::batson::errors::{EncodeError, EncodeResult};
use crate::batson::header::{
    category_code, float_hint, length_code, length_of, number_hint_code, primitive_code,
    spec_header_of, Category, Header, Length, NumberHint, Primitive,
};
use crate::batson::array::{encode_array, pack_fold, PackState};
use crate::batson::object::{encode_object, spec_djb2};
use crate::value::{BigIntLe, JsonValue};
use vstd::utf8::encode_utf8;

verus! {

/// The header of `cat` with `right` in its low four bits.
pub open spec fn header_byte(cat: Category, right: u8) -> u8 {
    (category_code(cat) * 16 + right) as u8
}

/// `v` as an unsigned value over `n` bytes, in two's complement.
pub open spec fn unsigned_of(v: int, n: nat) -> nat {
    ((v + pow256(n)) % (pow256(n) as int)) as nat
}

/// The bytes that encode the integer `v`: its header alone for zero to ten, otherwise the
/// header and its little-endian bytes in the smallest of one, four and eight that holds it.
pub open spec fn spec_encode_i64(v: i64) -> Seq<u8> {
    if 0 <= v <= 10 {
        seq![header_byte(Category::Int, v as u8)]
    } else if -0x80 <= v < 0x80 {
        seq![header_byte(Category::Int, 11)] + le_bytes(unsigned_of(v as int, 1), 1)
    } else if -0x8000_0000 <= v < 0x8000_0000 {
        seq![header_byte(Category::Int, 12)] + le_bytes(unsigned_of(v as int, 4), 4)
    } else {
        seq![header_byte(Category::Int, 13)] + le_bytes(unsigned_of(v as int, 8), 8)
    }
}

/// The bytes that give the length `len` of a value of category `cat`: the header alone up to
/// ten, then a `u8`, `u16` or `u32` after it; or the error for a length beyond a `u32`.
pub open spec fn spec_encode_length(cat: Category, len: nat) -> Result<Seq<u8>, EncodeError> {
    if len <= 10 {
        Ok(seq![header_byte(cat, len as u8)])
    } else if len <= 0xff {
        Ok(seq![header_byte(cat, 11), len as u8])
    } else if len <= 0xffff {
        Ok(seq![header_byte(cat, 12)] + le_bytes(len, 2))
    } else {
        spec_encode_len_u32(cat, len)
    }
}

/// The bytes of a length `len` held in a `u32`, or the error if it does not fit: for a
/// string, an object (under the category of arrays of mixed values) or any other array.
pub open spec fn spec_encode_len_u32(cat: Category, len: nat) -> Result<Seq<u8>, EncodeError> {
    if len <= 0xffff_ffff {
        Ok(seq![header_byte(cat, 13)] + le_bytes(len, 4))
    } else {
        Err(
            match cat {
                Category::Str => EncodeError::StrTooLong,
                Category::HetArray => EncodeError::ObjectTooLarge,
                _ => EncodeError::ArrayTooLarge,
            },
        )
    }
}

/// The bytes that encode the float with binary64 bits `bits`: its header alone for the whole
/// numbers zero to ten, otherwise the header and the eight little-endian bytes of the bits.
pub open spec fn spec_encode_f64(bits: u64) -> Seq<u8> {
    match float_hint(bits) {
        Some(n) => seq![header_byte(Category::Float, number_hint_code(n))],
        None => seq![header_byte(Category::Float, 13)] + le_bytes(bits as nat, 8),
    }
}

/// The category of a big integer of the given sign.
pub open spec fn big_int_category(negative: bool) -> Category {
    if negative {
        Category::BigIntNeg
    } else {
        Category::BigIntPos
    }
}

/// `data` with the header of the length `len` of a value of category `cat` appended.
pub open spec fn with_length(cat: Category, len: nat, data: Seq<u8>) -> Result<Seq<u8>, EncodeError> {
    match spec_encode_length(cat, len) {
        Ok(h) => Ok(data + h),
        Err(e) => Err(e),
    }
}

/// `data` padded with zero bytes up to a multiple of `align`.
pub open spec fn aligned(data: Seq<u8>, align: nat) -> Seq<u8> {
    data + zeros(pad_to(data.len() as int, align as int) as nat)
}

/// `data` with the bytes from `start` replaced by `s`.
pub open spec fn splice(data: Seq<u8>, start: int, s: Seq<u8>) -> Seq<u8> {
    data.subrange(0, start) + s + data.subrange(start + s.len(), data.len() as int)
}

/// The values, each in `w` little-endian bytes, one after the other.
pub open spec fn le_seq(values: Seq<int>, w: nat) -> Seq<u8>
    decreases values.len(),
{
    if values.len() == 0 {
        Seq::empty()
    } else {
        le_seq(values.drop_last(), w) + le_bytes(values.last() as nat, w)
    }
}

/// The integers, each in eight little-endian bytes of two's complement, one after the other.
pub open spec fn le_i64s(values: Seq<i64>) -> Seq<u8>
    decreases values.len(),
{
    if values.len() == 0 {
        Seq::empty()
    } else {
        le_i64s(values.drop_last()) + le_bytes(unsigned_of(values.last() as int, 8), 8)
    }
}

/// Whether `v` can be encoded: no big integer inside an array or an object (sizing one is not
/// supported), and every array and object short enough that its table of offsets or super
/// header has a size that fits a `usize`.
pub open spec fn encodable(v: JsonValue) -> bool
    decreases v, 1nat,
{
    match v {
        JsonValue::Array(a) => a@.len() * 4 <= usize::MAX && items_encodable(a@),
        JsonValue::Object(o) => o@.len() * 12 <= usize::MAX && entries_encodable(o@),
        _ => true,
    }
}

/// Every item of an array is encodable and no big integer.
pub open spec fn items_encodable(a: Seq<JsonValue>) -> bool
    decreases a, 0nat,
{
    forall|i: int| 0 <= i < a.len() ==> !(#[trigger] a[i] is BigInt) && encodable(a[i])
}

/// Every value of an object is encodable and no big integer.
pub open spec fn entries_encodable(o: Seq<(String, JsonValue)>) -> bool
    decreases o, 0nat,
{
    forall|i: int| 0 <= i < o.len() ==> !(#[trigger] o[i].1 is BigInt) && encodable(o[i].1)
}

/// Whether `value` can be encoded: no big integer inside an array or an object, and every array
/// and object short enough for its table.
pub fn is_encodable(value: &JsonValue) -> (r: bool)
    ensures
        r == encodable(*value),
    decreases *value, 1nat,
{
    match value {
        JsonValue::Array(a) => a.len() <= usize::MAX / 4 && items_are_encodable(a),
        JsonValue::Object(o) => o.len() <= usize::MAX / 12 && entries_are_encodable(o),
        _ => true,
    }
}

/// Whether every item of `a` is encodable and no big integer.
fn items_are_encodable(a: &Vec<JsonValue>) -> (r: bool)
    ensures
        r == items_encodable(a@),
    decreases a@, 0nat,
{
    let mut k: usize = 0;
    while k < a.len()
        invariant
            k <= a.len(),
            forall|i: int| 0 <= i < k ==> !(#[trigger] a@[i] is BigInt) && encodable(a@[i]),
        decreases a.len() - k,
    {
        let ok = match &a[k] {
            JsonValue::BigInt(_) => false,
            item => is_encodable(item),
        };
        if !ok {
            return false;
        }
        k += 1;
    }
    true
}

/// Whether every value of `o` is encodable and no big integer.
fn entries_are_encodable(o: &Vec<(String, JsonValue)>) -> (r: bool)
    ensures
        r == entries_encodable(o@),
    decreases o@, 0nat,
{
    let mut k: usize = 0;
    while k < o.len()
        invariant
            k <= o.len(),
            forall|i: int| 0 <= i < k ==> !(#[trigger] o@[i].1 is BigInt) && encodable(o@[i].1),
        decreases o.len() - k,
    {
        let ok = match &o[k].1 {
            JsonValue::BigInt(_) => false,
            item => is_encodable(item),
        };
        if !ok {
            return false;
        }
        k += 1;
    }
    true
}

/// The least space a value can take, as a guess that does not look inside arrays and objects.
pub open spec fn min_value_size(v: JsonValue) -> int {
    match v {
        JsonValue::Int(i) => if 0 <= i <= 10 {
            1
        } else {
            2
        },
        JsonValue::BigInt(_) => 0,
        JsonValue::Str(s) => 1 + encode_utf8(s@).len() as int,
        JsonValue::Array(a) => 1 + a@.len() as int,
        JsonValue::Object(o) => 1 + o@.len() as int,
        _ => 1,
    }
}

/// The least space the first `k` items of an array can take.
pub open spec fn min_array_size(a: Seq<JsonValue>, k: int) -> int
    decreases k,
{
    if k <= 0 {
        0
    } else {
        min_array_size(a, k - 1) + min_value_size(a[k - 1])
    }
}

/// The least space the first `k` entries of an object can take: a byte for each header
/// index, the keys and the values.
pub open spec fn min_object_size(o: Seq<(String, JsonValue)>, k: int) -> int
    decreases k,
{
    if k <= 0 {
        0
    } else {
        min_object_size(o, k - 1) + 1 + encode_utf8(o[k - 1].0@).len() + min_value_size(o[k - 1].1)
    }
}

/// The alignment of a table of `w`-byte numbers: offsets, or the fields of super header items
/// (the alignment of a struct of such fields).
pub open spec fn offset_align(w: nat) -> nat {
    if w == 1 {
        vstd::layout::align_of::<u8>()
    } else if w == 2 {
        vstd::layout::align_of::<u16>()
    } else {
        vstd::layout::align_of::<u32>()
    }
}

/// Super header items are ordered by key length, then by key hash.
pub open spec fn item_le(a: (int, int, int), b: (int, int, int)) -> bool {
    a.0 < b.0 || (a.0 == b.0 && a.1 <= b.1)
}

/// `x` inserted into `sorted` after every item that does not order above it.
pub open spec fn insert_item(sorted: Seq<(int, int, int)>, x: (int, int, int)) -> Seq<(int, int, int)>
    decreases sorted.len(),
{
    if sorted.len() == 0 {
        seq![x]
    } else if item_le(sorted.last(), x) {
        sorted.push(x)
    } else {
        insert_item(sorted.drop_last(), x).push(sorted.last())
    }
}

/// The items sorted by key length then key hash, equal ones kept in their order.
pub open spec fn sort_items(items: Seq<(int, int, int)>) -> Seq<(int, int, int)>
    decreases items.len(),
{
    if items.len() == 0 {
        Seq::empty()
    } else {
        insert_item(sort_items(items.drop_last()), items.last())
    }
}

/// The items' fields, each in `w` little-endian bytes: key length, key hash, offset.
pub open spec fn items_bytes(items: Seq<(int, int, int)>, w: nat) -> Seq<u8>
    decreases items.len(),
{
    if items.len() == 0 {
        Seq::empty()
    } else {
        items_bytes(items.drop_last(), w) + le_bytes(items.last().0 as nat, w) + le_bytes(
            items.last().1 as nat,
            w,
        ) + le_bytes(items.last().2 as nat, w)
    }
}

/// `data` with the header index of each entry, from the `i`-th of the sorted items on, written
/// in the `w` bytes before its key (which starts at `start` plus the item's offset).
pub open spec fn set_indices(data: Seq<u8>, start: int, sorted: Seq<(int, int, int)>, w: nat, i: nat) -> Seq<u8>
    decreases sorted.len() - i,
{
    if i >= sorted.len() {
        data
    } else {
        set_indices(splice(data, start + sorted[i as int].2 - w, le_bytes(i, w)), start, sorted, w, i + 1)
    }
}

/// The bytes after encoding `v` onto `data`, or the error that stops it.
pub open spec fn spec_encode_value(v: JsonValue, data: Seq<u8>) -> Result<Seq<u8>, EncodeError>
    decreases v, 0nat, 0nat,
{
    match v {
        JsonValue::Null => Ok(data.push(header_byte(Category::Primitive, primitive_code(Primitive::Null)))),
        JsonValue::Bool(b) => Ok(
            data.push(
                header_byte(
                    Category::Primitive,
                    primitive_code(
                        if b {
                            Primitive::True
                        } else {
                            Primitive::False
                        },
                    ),
                ),
            ),
        ),
        JsonValue::Int(i) => Ok(data + spec_encode_i64(i)),
        JsonValue::BigInt(b) => match with_length(big_int_category(b.negative), b.magnitude@.len(), data) {
            Ok(d) => Ok(d + b.magnitude@),
            Err(e) => Err(e),
        },
        JsonValue::Float(bits) => Ok(data + spec_encode_f64(bits)),
        JsonValue::Str(s) => match with_length(Category::Str, encode_utf8(s@).len(), data) {
            Ok(d) => Ok(d + encode_utf8(s@)),
            Err(e) => Err(e),
        },
        JsonValue::Array(a) => spec_encode_array(a@, data),
        JsonValue::Object(o) => spec_encode_object(o@, data),
    }
}

/// The bytes after encoding the array `a` onto `data`: packed if its items allow, otherwise
/// with a table of offsets in the narrowest of `u8`, `u16` and `u32` that holds them.
pub open spec fn spec_encode_array(a: Seq<JsonValue>, data: Seq<u8>) -> Result<Seq<u8>, EncodeError>
    decreases a, 3nat, 0nat,
{
    if a.len() == 0 {
        with_length(Category::HetArray, 0, data)
    } else {
        match pack_fold(a, a.len() as int) {
            Some(PackState { bytes: Some(b), .. }) => match with_length(Category::U8Array, b.len(), data) {
                Ok(d) => Ok(d + b),
                Err(e) => Err(e),
            },
            Some(PackState { bytes: None, headers: Some(h), .. }) => match with_length(
                Category::HeaderArray,
                h.len(),
                data,
            ) {
                Ok(d) => Ok(d + h),
                Err(e) => Err(e),
            },
            Some(PackState { bytes: None, headers: None, ints: Some(x) }) => match with_length(
                Category::I64Array,
                x.len(),
                data,
            ) {
                Ok(d) => Ok(aligned(d, vstd::layout::align_of::<i64>()) + le_i64s(x)),
                Err(e) => Err(e),
            },
            _ => {
                let min = min_array_size(a, a.len() as int);
                let len = a.len();
                let try32 = match spec_encode_len_u32(Category::HetArray, len) {
                    Err(e) => Err(e),
                    Ok(h) => match spec_encode_array_sized(4, a, data + h) {
                        Err(e) => Err(e),
                        Ok(Some(d)) => Ok(d),
                        Ok(None) => Err(EncodeError::ArrayTooLarge),
                    },
                };
                let try16 = if min <= 0xffff {
                    match spec_encode_array_sized(
                        2,
                        a,
                        data + seq![header_byte(Category::HetArray, 12)] + le_bytes(len, 2),
                    ) {
                        Err(e) => Err(e),
                        Ok(Some(d)) => Ok(d),
                        Ok(None) => try32,
                    }
                } else {
                    try32
                };
                if min <= 0xff {
                    match with_length(Category::HetArray, len, data) {
                        Err(e) => Err(e),
                        Ok(d0) => match spec_encode_array_sized(1, a, d0) {
                            Err(e) => Err(e),
                            Ok(Some(d)) => Ok(d),
                            Ok(None) => try16,
                        },
                    }
                } else {
                    try16
                }
            },
        }
    }
}

/// Encoding the items of an array with offsets of `w` bytes: the table of offsets (aligned
/// and zeroed), then the items, then the offsets written into the table; `None` if an offset
/// does not fit in `w` bytes.
pub open spec fn spec_encode_array_sized(w: nat, a: Seq<JsonValue>, data: Seq<u8>) -> Result<
    Option<Seq<u8>>,
    EncodeError,
>
    decreases a, 2nat, 0nat,
{
    let d1 = aligned(data, offset_align(w));
    let d2 = d1 + zeros(a.len() * w);
    match spec_encode_items(w, a, 0, d2.len() as int, d2, Seq::empty()) {
        Err(e) => Err(e),
        Ok(None) => Ok(None),
        Ok(Some((d3, offsets))) => Ok(Some(splice(d3, d1.len() as int, le_seq(offsets, w)))),
    }
}

/// Encoding the items of `a` from the `k`-th on, each recording its offset from `start`.
pub open spec fn spec_encode_items(
    w: nat,
    a: Seq<JsonValue>,
    k: nat,
    start: int,
    data: Seq<u8>,
    offsets: Seq<int>,
) -> Result<Option<(Seq<u8>, Seq<int>)>, EncodeError>
    decreases a, 1nat, a.len() - k,
{
    if k >= a.len() {
        Ok(Some((data, offsets)))
    } else {
        let off = data.len() - start;
        if off >= pow256(w) {
            Ok(None)
        } else {
            match spec_encode_value(a[k as int], data) {
                Err(e) => Err(e),
                Ok(d) => spec_encode_items(w, a, k + 1, start, d, offsets.push(off)),
            }
        }
    }
}

/// The bytes after encoding the object `o` onto `data`, with a super header of items whose
/// fields take the narrowest of `u8`, `u16` and `u32` that holds them.
pub open spec fn spec_encode_object(o: Seq<(String, JsonValue)>, data: Seq<u8>) -> Result<
    Seq<u8>,
    EncodeError,
>
    decreases o, 3nat, 0nat,
{
    if o.len() == 0 {
        with_length(Category::Object, 0, data)
    } else {
        let min = min_object_size(o, o.len() as int);
        let len = o.len();
        let try32 = match spec_encode_len_u32(Category::Object, len) {
            Err(e) => Err(e),
            Ok(h) => match spec_encode_object_sized(4, o, data + h) {
                Err(e) => Err(e),
                Ok(Some(d)) => Ok(d),
                Ok(None) => Err(EncodeError::ObjectTooLarge),
            },
        };
        let try16 = if min <= 0xffff {
            match spec_encode_object_sized(
                2,
                o,
                data + seq![header_byte(Category::Object, 12)] + le_bytes(len, 2),
            ) {
                Err(e) => Err(e),
                Ok(Some(d)) => Ok(d),
                Ok(None) => try32,
            }
        } else {
            try32
        };
        if min <= 0xff {
            match with_length(Category::Object, len, data) {
                Err(e) => Err(e),
                Ok(d0) => match spec_encode_object_sized(1, o, d0) {
                    Err(e) => Err(e),
                    Ok(Some(d)) => Ok(d),
                    Ok(None) => try16,
                },
            }
        } else {
            try16
        }
    }
}

/// Encoding the entries of an object with super header fields of `w` bytes: the super header
/// (aligned and zeroed), then for each entry a header index, its key and its value; then each
/// header index set to the place of its item in the sorted super header, and the sorted super
/// header written. `None` if a key length or an offset does not fit in `w` bytes.
pub open spec fn spec_encode_object_sized(w: nat, o: Seq<(String, JsonValue)>, data: Seq<u8>) -> Result<
    Option<Seq<u8>>,
    EncodeError,
>
    decreases o, 2nat, 0nat,
{
    let d1 = aligned(data, offset_align(w));
    let d2 = d1 + zeros(o.len() * 3 * w);
    match spec_encode_entries(w, o, 0, d2.len() as int, d2, Seq::empty()) {
        Err(e) => Err(e),
        Ok(None) => Ok(None),
        Ok(Some((d3, items))) => {
            let sorted = sort_items(items);
            Ok(
                Some(
                    splice(
                        set_indices(d3, d2.len() as int, sorted, w, 0),
                        d1.len() as int,
                        items_bytes(sorted, w),
                    ),
                ),
            )
        },
    }
}

/// Encoding the entries of `o` from the `k`-th on, each recording its super header item: key
/// length, key hash cut to `w` bytes, and the offset of its key from `start`.
pub open spec fn spec_encode_entries(
    w: nat,
    o: Seq<(String, JsonValue)>,
    k: nat,
    start: int,
    data: Seq<u8>,
    items: Seq<(int, int, int)>,
) -> Result<Option<(Seq<u8>, Seq<(int, int, int)>)>, EncodeError>
    decreases o, 1nat, o.len() - k,
{
    if k >= o.len() {
        Ok(Some((data, items)))
    } else {
        let key = encode_utf8(o[k as int].0@);
        let d1 = data + le_bytes(0, w);
        let off = d1.len() - start;
        if key.len() >= pow256(w) || off >= pow256(w) {
            Ok(None)
        } else {
            match spec_encode_value(o[k as int].1, d1 + key) {
                Err(e) => Err(e),
                Ok(d) => spec_encode_entries(
                    w,
                    o,
                    k + 1,
                    start,
                    d,
                    items.push((key.len() as int, spec_djb2(key) as int % pow256(w) as int, off)),
                ),
            }
        }
    }
}

/// The number of zero bytes that bring `len` up to a multiple of `align`.
pub open spec fn pad_to(len: int, align: int) -> int {
    if len % align == 0 {
        0
    } else {
        align - len % align
    }
}

/// `n` zero bytes.
pub open spec fn zeros(n: nat) -> Seq<u8> {
    Seq::new(n, |_i: int| 0u8)
}

/// A value in the signed range of `n` bytes, as an unsigned value: itself if not negative,
/// otherwise offset by `256` to the `n`.
pub proof fn lemma_unsigned_of(v: int, n: nat)
    requires
        -(pow256(n) as int) <= v < pow256(n),
    ensures
        unsigned_of(v, n) == (if v >= 0 {
            v
        } else {
            v + pow256(n)
        }),
{
    lemma_pow256_pos(n);
    let p = pow256(n) as int;
    if v >= 0 {
        vstd::arithmetic::div_mod::lemma_mod_add_multiples_vanish(v, p);
        vstd::arithmetic::div_mod::lemma_small_mod(v as nat, p as nat);
    } else {
        vstd::arithmetic::div_mod::lemma_small_mod((v + p) as nat, p as nat);
    }
}

/// `d` starts with `prefix`.
pub open spec fn extends(d: Seq<u8>, prefix: Seq<u8>) -> bool {
    d.len() >= prefix.len() && d.subrange(0, prefix.len() as int) == prefix
}

/// Each value's `w` bytes make `le_seq` `w` bytes longer per value.
pub proof fn lemma_le_seq_len(values: Seq<int>, w: nat)
    ensures
        le_seq(values, w).len() == values.len() * w,
    decreases values.len(),
{
    if values.len() > 0 {
        lemma_le_seq_len(values.drop_last(), w);
        lemma_le_roundtrip(values.last() as nat, w);
        vstd::arithmetic::mul::lemma_mul_is_distributive_add_other_way(w as int, values.len() - 1, 1);
    } else {
        assert(0 * w == 0);
    }
}

/// Each item's three fields of `w` bytes make `items_bytes` `3 * w` bytes longer per item.
pub proof fn lemma_items_bytes_len(items: Seq<(int, int, int)>, w: nat)
    ensures
        items_bytes(items, w).len() == items.len() * 3 * w,
    decreases items.len(),
{
    if items.len() > 0 {
        lemma_items_bytes_len(items.drop_last(), w);
        lemma_le_roundtrip(items.last().0 as nat, w);
        lemma_le_roundtrip(items.last().1 as nat, w);
        lemma_le_roundtrip(items.last().2 as nat, w);
        let n = items.len() as int;
        let prev = items_bytes(items.drop_last(), w);
        assert(prev.len() == (n - 1) * 3 * w);
        assert(items_bytes(items, w).len() == prev.len() + w + w + w);
        assert((n - 1) * 3 * w + w + w + w == n * 3 * w) by (nonlinear_arith);
    } else {
        assert(0 * 3 * w == 0) by (nonlinear_arith);
    }
}

/// Replacing bytes inside `d` keeps its length, and what lies before `start`.
pub proof fn lemma_splice(d: Seq<u8>, start: int, s: Seq<u8>, prefix: Seq<u8>)
    requires
        0 <= start,
        start + s.len() <= d.len(),
        extends(d, prefix),
        prefix.len() <= start,
    ensures
        splice(d, start, s).len() == d.len(),
        extends(splice(d, start, s), prefix),
        splice(d, start, s).subrange(start, start + s.len()) == s,
{
    let r = splice(d, start, s);
    assert(r.subrange(0, prefix.len() as int) =~= d.subrange(0, prefix.len() as int));
    assert(r.subrange(start, start + s.len()) =~= s);
}

/// Appending keeps what was there.
pub proof fn lemma_extends_append(a: Seq<u8>, b: Seq<u8>)
    ensures
        extends(a + b, a),
{
    assert((a + b).subrange(0, a.len() as int) =~= a);
}

/// `extends` carries over a chain of prefixes.
pub proof fn lemma_extends_trans(a: Seq<u8>, b: Seq<u8>, c: Seq<u8>)
    requires
        extends(a, b),
        extends(b, c),
    ensures
        extends(a, c),
{
    assert(a.subrange(0, c.len() as int) =~= b.subrange(0, c.len() as int));
}

/// The `n` little-endian bytes of `v`.
pub fn le_bytes_of(v: u64, n: usize) -> (r: Vec<u8>)
    requires
        n <= 8,
    ensures
        r@ == le_bytes(v as nat, n as nat),
{
    let mut e = Encoder::new();
    e.push_le(v, n);
    e.into_bytes()
}

/// A writer of batson bytes.
#[derive(Debug)]
pub struct Encoder {
    data: Vec<u8>,
}

impl Encoder {
    /// The bytes written so far.
    pub closed spec fn spec_data(&self) -> Seq<u8> {
        self.data@
    }

    /// A writer with nothing written.
    pub fn new() -> (r: Self)
        ensures
            r.spec_data() == Seq::<u8>::empty(),
    {
        Encoder { data: Vec::new() }
    }

    /// The number of bytes written so far.
    pub fn position(&self) -> (r: usize)
        ensures
            r == self.spec_data().len(),
    {
        self.data.len()
    }

    /// Drop what was written after `position`.
    pub fn reset_position(&mut self, position: usize)
        ensures
            position <= old(self).spec_data().len() ==> final(self).spec_data() == old(
                self,
            ).spec_data().subrange(0, position as int),
            position > old(self).spec_data().len() ==> final(self).spec_data() == old(
                self,
            ).spec_data(),
    {
        self.data.truncate(position);
    }

    /// Append the byte `h`.
    pub fn push(&mut self, h: u8)
        ensures
            final(self).spec_data() == old(self).spec_data().push(h),
    {
        self.data.push(h);
    }

    /// Append the bytes `s`.
    pub fn extend(&mut self, s: &[u8])
        ensures
            final(self).spec_data() == old(self).spec_data() + s@,
    {
        self.data.extend_from_slice(s);
        assert(self.data@ =~= old(self).spec_data() + s@);
    }

    /// Overwrite the bytes from `start` with `s`.
    pub fn set_range(&mut self, start: usize, s: &[u8])
        requires
            start + s.len() <= old(self).spec_data().len(),
        ensures
            final(self).spec_data() == old(self).spec_data().subrange(0, start as int) + s@
                + old(self).spec_data().subrange(start + s.len(), old(self).spec_data().len() as int),
    {
        let mut k: usize = 0;
        while k < s.len()
            invariant
                k <= s.len(),
                start + s.len() <= old(self).spec_data().len(),
                self.data.len() == old(self).spec_data().len(),
                self.data@.len() == old(self).spec_data().len(),
                forall|i: int| 0 <= i < start ==> self.data@[i] == old(self).spec_data()[i],
                forall|i: int| start <= i < start + k ==> self.data@[i] == s@[i - start],
                forall|i: int|
                    start + k <= i < self.data@.len() ==> self.data@[i] == old(self).spec_data()[i],
            decreases s.len() - k,
        {
            self.data.set(start + k, s[k]);
            k += 1;
        }
        assert(self.data@ =~= old(self).spec_data().subrange(0, start as int) + s@ + old(
            self,
        ).spec_data().subrange(start + s.len(), old(self).spec_data().len() as int));
    }

    /// Append `size` zero bytes, to be set later, returning where they start.
    pub fn ring_fence(&mut self, size: usize) -> (r: usize)
        ensures
            r == old(self).spec_data().len(),
            final(self).spec_data() == old(self).spec_data() + zeros(size as nat),
    {
        let start = self.data.len();
        self.push_zeros(size);
        start
    }

    /// Append `n` zero bytes.
    pub fn push_zeros(&mut self, n: usize)
        ensures
            final(self).spec_data() == old(self).spec_data() + zeros(n as nat),
    {
        let mut k: usize = 0;
        while k < n
            invariant
                k <= n,
                self.data@ == old(self).spec_data() + zeros(k as nat),
            decreases n - k,
        {
            self.data.push(0);
            k += 1;
            assert(self.data@ =~= old(self).spec_data() + zeros(k as nat));
        }
    }

    /// Pad with zero bytes up to the next multiple of the alignment of `T`.
    pub fn align<T>(&mut self)
        ensures
            final(self).spec_data() == old(self).spec_data() + zeros(
                pad_to(old(self).spec_data().len() as int, vstd::layout::align_of::<T>() as int) as nat,
            ),
    {
        vstd::layout::layout_for_type_is_valid::<T>();
        let align = core::mem::align_of::<T>();
        let rem = self.data.len() % align;
        let pad = if rem == 0 {
            0
        } else {
            align - rem
        };
        self.push_zeros(pad);
    }

    /// Append the little-endian bytes of `v`, `n` of them.
    fn push_le(&mut self, v: u64, n: usize)
        requires
            n <= 8,
        ensures
            final(self).spec_data() == old(self).spec_data() + le_bytes(v as nat, n as nat),
    {
        let mut cur = v;
        let mut k: usize = 0;
        assert(le_bytes(v as nat, 0) =~= Seq::<u8>::empty());
        assert(pow256(0) == 1);
        assert(v as nat / 1 == v);
        while k < n
            invariant
                k <= n <= 8,
                cur == v as nat / pow256(k as nat),
                self.data@ == old(self).spec_data() + le_bytes(v as nat, k as nat),
            decreases n - k,
        {
            proof {
                lemma_le_bytes_push(v as nat, k as nat);
                lemma_pow256_pos(k as nat);
                vstd::arithmetic::div_mod::lemma_div_denominator(v as int, pow256(k as nat) as int, 256);
                vstd::arithmetic::mul::lemma_mul_is_commutative(pow256(k as nat) as int, 256);
            }
            self.data.push((cur % 256) as u8);
            cur = cur / 256;
            k += 1;
            assert(self.data@ =~= old(self).spec_data() + le_bytes(v as nat, k as nat));
        }
    }

    /// Append `null`.
    pub fn encode_null(&mut self)
        ensures
            final(self).spec_data() == old(self).spec_data().push(
                header_byte(Category::Primitive, primitive_code(Primitive::Null)),
            ),
    {
        let h = Category::Primitive.encode_with(Primitive::Null.code());
        self.push(h);
    }

    /// Append the boolean `value`.
    pub fn encode_bool(&mut self, value: bool)
        ensures
            final(self).spec_data() == old(self).spec_data().push(
                header_byte(
                    Category::Primitive,
                    primitive_code(
                        if value {
                            Primitive::True
                        } else {
                            Primitive::False
                        },
                    ),
                ),
            ),
    {
        let right = Primitive::from_bool(value);
        let h = Category::Primitive.encode_with(right.code());
        self.push(h);
    }

    /// Append the integer `value`, in as few bytes as hold it.
    pub fn encode_i64(&mut self, value: i64)
        ensures
            final(self).spec_data() == old(self).spec_data() + spec_encode_i64(value),
    {
        proof {
            reveal_with_fuel(pow256, 9);
        }
        if 0 <= value && value <= 10 {
            let h = Category::Int.encode_with(value as u8);
            assert(h == header_byte(Category::Int, value as u8));
            self.push(h);
            assert(self.spec_data() =~= old(self).spec_data() + spec_encode_i64(value));
        } else if -0x80 <= value && value < 0x80 {
            proof {
                lemma_unsigned_of(value as int, 1);
            }
            self.push(Category::Int.encode_with(NumberHint::Size8.code()));
            let u: u64 = if value >= 0 {
                value as u64
            } else {
                (value + 0x100) as u64
            };
            self.push_le(u, 1);
            assert(self.spec_data() =~= old(self).spec_data() + spec_encode_i64(value));
        } else if -0x8000_0000 <= value && value < 0x8000_0000 {
            proof {
                lemma_unsigned_of(value as int, 4);
            }
            self.push(Category::Int.encode_with(NumberHint::Size32.code()));
            let u: u64 = if value >= 0 {
                value as u64
            } else {
                (value + 0x1_0000_0000) as u64
            };
            self.push_le(u, 4);
            assert(self.spec_data() =~= old(self).spec_data() + spec_encode_i64(value));
        } else {
            proof {
                lemma_unsigned_of(value as int, 8);
            }
            self.push(Category::Int.encode_with(NumberHint::Size64.code()));
            let u: u64 = if value >= 0 {
                value as u64
            } else {
                (value as i128 + 0x1_0000_0000_0000_0000) as u64
            };
            self.push_le(u, 8);
            assert(self.spec_data() =~= old(self).spec_data() + spec_encode_i64(value));
        }
    }

    /// Append the header of a `u16` length and the length.
    pub fn encode_len_u16(&mut self, cat: Category, len: u16)
        ensures
            final(self).spec_data() == old(self).spec_data() + seq![header_byte(cat, 12)]
                + le_bytes(len as nat, 2),
    {
        self.push(cat.encode_with(Length::U16.code()));
        self.push_le(len as u64, 2);
        assert(self.spec_data() =~= old(self).spec_data() + seq![header_byte(cat, 12)] + le_bytes(
            len as nat,
            2,
        ));
    }

    /// Append the header of a `u32` length and the length, or the error if it does not fit.
    pub fn encode_len_u32(&mut self, cat: Category, len: usize) -> (r: EncodeResult<()>)
        ensures
            match spec_encode_len_u32(cat, len as nat) {
                Ok(b) => r is Ok && final(self).spec_data() == old(self).spec_data() + b,
                Err(e) => r == Err::<(), EncodeError>(e) && final(self).spec_data() == old(
                    self,
                ).spec_data(),
            },
    {
        if len > 0xffff_ffff {
            return Err(
                match cat {
                    Category::Str => EncodeError::StrTooLong,
                    Category::HetArray => EncodeError::ObjectTooLarge,
                    _ => EncodeError::ArrayTooLarge,
                },
            );
        }
        self.push(cat.encode_with(Length::U32.code()));
        self.push_le(len as u64, 4);
        assert(self.spec_data() =~= old(self).spec_data() + seq![header_byte(cat, 13)] + le_bytes(
            len as nat,
            4,
        ));
        Ok(())
    }

    /// Append the header that gives the length `len` of a value of category `cat`.
    pub fn encode_length(&mut self, cat: Category, len: usize) -> (r: EncodeResult<()>)
        ensures
            match spec_encode_length(cat, len as nat) {
                Ok(b) => r is Ok && final(self).spec_data() == old(self).spec_data() + b,
                Err(e) => r == Err::<(), EncodeError>(e) && final(self).spec_data() == old(
                    self,
                ).spec_data(),
            },
    {
        if len <= 10 {
            self.push(cat.encode_with(len as u8));
            assert(self.spec_data() =~= old(self).spec_data() + seq![header_byte(cat, len as u8)]);
            Ok(())
        } else if len <= 0xff {
            self.push(cat.encode_with(Length::U8.code()));
            self.push(len as u8);
            assert(self.spec_data() =~= old(self).spec_data() + seq![header_byte(cat, 11), len as u8]);
            Ok(())
        } else if len <= 0xffff {
            self.encode_len_u16(cat, len as u16);
            Ok(())
        } else {
            self.encode_len_u32(cat, len)
        }
    }

    /// Append the float with binary64 bits `bits`, its header alone if it holds the value.
    pub fn encode_f64(&mut self, bits: u64)
        ensures
            final(self).spec_data() == old(self).spec_data() + spec_encode_f64(bits),
    {
        match NumberHint::header_only_f64(bits) {
            Some(n) => {
                self.push(Category::Float.encode_with(n.code()));
            },
            None => {
                self.push(Category::Float.encode_with(NumberHint::Size64.code()));
                self.push_le(bits, 8);
            },
        }
        assert(self.spec_data() =~= old(self).spec_data() + spec_encode_f64(bits));
    }

    /// Append the big integer `big`: the header with its sign and the number of bytes of its
    /// magnitude, then those little-endian bytes.
    pub fn encode_big_int(&mut self, big: &BigIntLe) -> (r: EncodeResult<()>)
        ensures
            match spec_encode_length(big_int_category(big.negative), big.magnitude@.len()) {
                Ok(b) => r is Ok && final(self).spec_data() == old(self).spec_data() + b
                    + big.magnitude@,
                Err(e) => r == Err::<(), EncodeError>(e) && final(self).spec_data() == old(
                    self,
                ).spec_data(),
            },
    {
        let cat = if big.negative {
            Category::BigIntNeg
        } else {
            Category::BigIntPos
        };
        match self.encode_length(cat, big.magnitude.len()) {
            Ok(()) => {},
            Err(e) => return Err(e),
        }
        self.extend(big.magnitude.as_slice());
        Ok(())
    }

    /// Append the value `value`: its header, then what the header does not hold.
    pub fn encode_value(&mut self, value: &JsonValue) -> (r: EncodeResult<()>)
        requires
            encodable(*value),
        ensures
            match spec_encode_value(*value, old(self).spec_data()) {
                Ok(d) => r is Ok && final(self).spec_data() == d,
                Err(e) => r == Err::<(), EncodeError>(e),
            },
            r is Ok ==> extends(final(self).spec_data(), old(self).spec_data()),
        decreases *value, 0nat, 0nat,
    {
        let ghost d0 = self.spec_data();
        match value {
            JsonValue::Null => {
                self.encode_null();
                proof {
                    lemma_extends_append(d0, seq![header_byte(Category::Primitive, primitive_code(Primitive::Null))]);
                    assert(self.spec_data() =~= d0 + seq![header_byte(Category::Primitive, primitive_code(Primitive::Null))]);
                }
                Ok(())
            },
            JsonValue::Bool(b) => {
                self.encode_bool(*b);
                proof {
                    lemma_extends_append(d0, self.spec_data().subrange(d0.len() as int, self.spec_data().len() as int));
                    assert(self.spec_data() =~= d0 + self.spec_data().subrange(d0.len() as int, self.spec_data().len() as int));
                }
                Ok(())
            },
            JsonValue::Int(i) => {
                self.encode_i64(*i);
                proof {
                    lemma_extends_append(d0, spec_encode_i64(*i));
                }
                Ok(())
            },
            JsonValue::BigInt(b) => {
                let r = self.encode_big_int(b);
                proof {
                    if r is Ok {
                        lemma_extends_append(d0, self.spec_data().subrange(d0.len() as int, self.spec_data().len() as int));
                        assert(self.spec_data() =~= d0 + self.spec_data().subrange(d0.len() as int, self.spec_data().len() as int));
                    }
                }
                r
            },
            JsonValue::Float(bits) => {
                self.encode_f64(*bits);
                proof {
                    lemma_extends_append(d0, spec_encode_f64(*bits));
                }
                Ok(())
            },
            JsonValue::Str(s) => {
                let r = self.encode_str(s.as_str());
                proof {
                    if r is Ok {
                        lemma_extends_append(d0, self.spec_data().subrange(d0.len() as int, self.spec_data().len() as int));
                        assert(self.spec_data() =~= d0 + self.spec_data().subrange(d0.len() as int, self.spec_data().len() as int));
                    }
                }
                r
            },
            JsonValue::Array(a) => encode_array(self, a),
            JsonValue::Object(o) => encode_object(self, o),
        }
    }

    /// Append the array `array`.
    pub fn encode_array(&mut self, array: &Vec<JsonValue>) -> (r: EncodeResult<()>)
        requires
            array@.len() * 4 <= usize::MAX,
            items_encodable(array@),
        ensures
            match spec_encode_array(array@, old(self).spec_data()) {
                Ok(d) => r is Ok && final(self).spec_data() == d,
                Err(e) => r == Err::<(), EncodeError>(e),
            },
    {
        encode_array(self, array)
    }

    /// Append the object `object`.
    pub fn encode_object(&mut self, object: &Vec<(String, JsonValue)>) -> (r: EncodeResult<()>)
        requires
            object@.len() * 12 <= usize::MAX,
            entries_encodable(object@),
        ensures
            match spec_encode_object(object@, old(self).spec_data()) {
                Ok(d) => r is Ok && final(self).spec_data() == d,
                Err(e) => r == Err::<(), EncodeError>(e),
            },
    {
        encode_object(self, object)
    }

    /// Append the string `s`: the header with its length in bytes, then its UTF-8 bytes.
    pub fn encode_str(&mut self, s: &str) -> (r: EncodeResult<()>)
        ensures
            match spec_encode_length(Category::Str, s.spec_bytes().len()) {
                Ok(b) => r is Ok && final(self).spec_data() == old(self).spec_data() + b
                    + s.spec_bytes(),
                Err(e) => r == Err::<(), EncodeError>(e) && final(self).spec_data() == old(
                    self,
                ).spec_data(),
            },
    {
        let bytes = s.as_bytes();
        match self.encode_length(Category::Str, bytes.len()) {
            Ok(()) => {},
            Err(e) => return Err(e),
        }
        self.extend(bytes);
        Ok(())
    }

    /// The bytes written.
    pub fn into_bytes(self) -> (r: Vec<u8>)
        ensures
            r@ == self.spec_data(),
    {
        self.data
    }
}

/// Decoding an integer from the start of `s` as `Decoder::take_header` and then
/// `NumberHint::decode_i64` read it: its value and the number of bytes taken, if it is one.
pub open spec fn spec_decode_int(s: Seq<u8>) -> Option<(int, int)> {
    if s.len() == 0 {
        None
    } else {
        match spec_header_of(s[0]) {
            Ok(Header::Int(h)) => {
                let n: nat = match h {
                    NumberHint::Size8 => 1,
                    NumberHint::Size32 => 4,
                    NumberHint::Size64 => 8,
                    _ => 0,
                };
                if n == 0 {
                    Some((number_hint_code(h) as int, 1))
                } else if 1 + n <= s.len() {
                    Some((twos_complement(le_value(s.subrange(1, 1 + n as int)), n), 1 + n as int))
                } else {
                    None
                }
            },
            _ => None,
        }
    }
}

/// The header byte of category `cat` with `right` below sixteen reads back as both.
pub proof fn lemma_header_byte_split(cat: Category, right: u8)
    requires
        right < 16,
    ensures
        header_byte(cat, right) / 16 == category_code(cat),
        header_byte(cat, right) % 16 == right,
{
}

/// An unsigned value below `256` to the `n`, written in `n` little-endian bytes, reads back in
/// two's complement as the signed value it stands for.
pub proof fn lemma_le_signed(v: int, n: nat)
    requires
        n > 0,
        -(pow256(n) as int) / 2 <= v < (pow256(n) as int) / 2,
    ensures
        twos_complement(le_value(le_bytes(unsigned_of(v, n), n)), n) == v,
{
    lemma_pow256_pos(n);
    assert(pow256(n) == 256 * pow256((n - 1) as nat));
    lemma_pow256_pos((n - 1) as nat);
    lemma_unsigned_of(v, n);
    lemma_le_roundtrip(unsigned_of(v, n), n);
    vstd::arithmetic::div_mod::lemma_small_mod(unsigned_of(v, n), pow256(n));
}

/// An integer written by `Encoder::encode_i64` decodes back to itself, taking exactly its
/// bytes, whatever follows them.
pub proof fn lemma_i64_roundtrip(v: i64, rest: Seq<u8>)
    ensures
        spec_decode_int(spec_encode_i64(v) + rest) == Some(
            (v as int, spec_encode_i64(v).len() as int),
        ),
{
    reveal_with_fuel(pow256, 9);
    let e = spec_encode_i64(v);
    let s = e + rest;
    if 0 <= v <= 10 {
        lemma_header_byte_split(Category::Int, v as u8);
    } else if -0x80 <= v < 0x80 {
        lemma_header_byte_split(Category::Int, 11);
        lemma_le_signed(v as int, 1);
        lemma_le_roundtrip(unsigned_of(v as int, 1), 1);
        assert(s.subrange(1, 2) =~= le_bytes(unsigned_of(v as int, 1), 1));
    } else if -0x8000_0000 <= v < 0x8000_0000 {
        lemma_header_byte_split(Category::Int, 12);
        lemma_le_signed(v as int, 4);
        lemma_le_roundtrip(unsigned_of(v as int, 4), 4);
        assert(s.subrange(1, 5) =~= le_bytes(unsigned_of(v as int, 4), 4));
    } else {
        lemma_header_byte_split(Category::Int, 13);
        lemma_le_signed(v as int, 8);
        lemma_le_roundtrip(unsigned_of(v as int, 8), 8);
        assert(s.subrange(1, 9) =~= le_bytes(unsigned_of(v as int, 8), 8));
    }
}

/// Decoding the length of a value of category `cat` from the start of `s`, as
/// `Decoder::take_header` and then `Length::decode` read it: the length and the number of bytes
/// taken, if the header is of that category.
pub open spec fn spec_decode_length(cat: Category, s: Seq<u8>) -> Option<(int, int)> {
    if s.len() == 0 || s[0] / 16 != category_code(cat) {
        None
    } else {
        match length_of(s[0] % 16) {
            None => None,
            Some(l) => {
                let n: nat = match l {
                    Length::U8 => 1,
                    Length::U16 => 2,
                    Length::U32 => 4,
                    _ => 0,
                };
                if n == 0 {
                    Some((length_code(l) as int, 1))
                } else if 1 + n <= s.len() {
                    Some((le_value(s.subrange(1, 1 + n as int)) as int, 1 + n as int))
                } else {
                    None
                }
            },
        }
    }
}

/// A length written by `Encoder::encode_length` decodes back to itself under the same
/// category, taking exactly its bytes, whatever follows them.
pub proof fn lemma_length_roundtrip(cat: Category, len: nat, rest: Seq<u8>)
    requires
        spec_encode_length(cat, len) is Ok,
    ensures
        spec_decode_length(cat, spec_encode_length(cat, len)->Ok_0 + rest) == Some(
            (len as int, spec_encode_length(cat, len)->Ok_0.len() as int),
        ),
{
    reveal_with_fuel(pow256, 5);
    let e = spec_encode_length(cat, len)->Ok_0;
    let s = e + rest;
    if len <= 10 {
        lemma_header_byte_split(cat, len as u8);
    } else if len <= 0xff {
        lemma_header_byte_split(cat, 11);
        reveal_with_fuel(le_value, 2);
        assert(s.subrange(1, 2) =~= seq![len as u8]);
        assert(s.subrange(1, 2).drop_first().len() == 0);
    } else if len <= 0xffff {
        lemma_header_byte_split(cat, 12);
        lemma_le_roundtrip(len, 2);
        vstd::arithmetic::div_mod::lemma_small_mod(len, pow256(2));
        assert(s.subrange(1, 3) =~= le_bytes(len, 2));
    } else {
        lemma_header_byte_split(cat, 13);
        lemma_le_roundtrip(len, 4);
        vstd::arithmetic::div_mod::lemma_small_mod(len, pow256(4));
        assert(s.subrange(1, 5) =~= le_bytes(len, 4));
    }
}

} // verus!
