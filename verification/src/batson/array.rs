//! Arrays of mixed values: a list of offsets, one per item, to where each item starts.
use vstd::prelude::*;

use crate::batson::decoder::Decoder;
use crate::batson::decoder::{
    casts_items, decoded_as, spec_header_value, wide, spec_header_values, spec_take_items, Decoded, align_up, bytes_as_u16s, bytes_as_u32s, le_i64_words, le_value, le_words, lemma_align_le_size,
    pow256, spec_take_slice,
};
use crate::batson::encoder::{
    aligned, encodable, extends, items_encodable, header_byte, le_i64s, le_seq, le_bytes_of, lemma_extends_append,
    lemma_extends_trans, lemma_le_seq_len, lemma_splice, min_array_size, offset_align, splice,
    spec_encode_array, spec_encode_array_sized, spec_encode_items, zeros, Encoder,
};
use crate::batson::errors::{DecodeError, DecodeErrorType, DecodeResult, EncodeError, EncodeResult};
use crate::batson::object::{minimum_value_size_estimate, saturated};
use crate::batson::header::{
    float_hint, number_hint_code, primitive_code, spec_header_of, spec_read_length, Category, Header,
    Length, NumberHint, Primitive,
};
use crate::batson::object::header_width;
use crate::value::{
    json_view, lemma_values_view_push, values_view, JsonValue, ValueView,
};

verus! {

/// The offsets of the items of an array of mixed values, in the narrowest width that holds them.
#[derive(Debug)]
pub enum HetArrayOffsets<'b> {
    U8(&'b [u8]),
    U16(&'b [u16]),
    U32(&'b [u32]),
}

/// An array of mixed values, by the offsets of its items.
#[derive(Debug)]
pub struct HetArray<'b> {
    pub offsets: HetArrayOffsets<'b>,
}

impl<'b> HetArray<'b> {
    /// The offsets, as numbers.
    pub open spec fn spec_offsets(&self) -> Seq<int> {
        match self.offsets {
            HetArrayOffsets::U8(v) => Seq::new(v@.len(), |i: int| v@[i] as int),
            HetArrayOffsets::U16(v) => Seq::new(v@.len(), |i: int| v@[i] as int),
            HetArrayOffsets::U32(v) => Seq::new(v@.len(), |i: int| v@[i] as int),
        }
    }

    /// Offsets fit in a `u32`.
    pub proof fn lemma_offsets_bounded(&self)
        ensures
            forall|i: int| 0 <= i < self.spec_offsets().len() ==> 0 <= #[trigger] self.spec_offsets()[i] <= 0xffff_ffff,
    {
    }

    /// The number of items.
    pub fn len(&self) -> (r: usize)
        ensures
            r == self.spec_offsets().len(),
    {
        match self.offsets {
            HetArrayOffsets::U8(v) => v.len(),
            HetArrayOffsets::U16(v) => v.len(),
            HetArrayOffsets::U32(v) => v.len(),
        }
    }

    /// The offset of item `index` from the end of the offsets, if there is such an item.
    pub fn offset(&self, index: usize) -> (r: Option<usize>)
        ensures
            r == (if index < self.spec_offsets().len() {
                Some(self.spec_offsets()[index as int] as usize)
            } else {
                None
            }),
    {
        match self.offsets {
            HetArrayOffsets::U8(v) => if index < v.len() {
                Some(v[index] as usize)
            } else {
                None
            },
            HetArrayOffsets::U16(v) => if index < v.len() {
                Some(v[index] as usize)
            } else {
                None
            },
            HetArrayOffsets::U32(v) => if index < v.len() {
                Some(v[index] as usize)
            } else {
                None
            },
        }
    }

    /// Move the decoder forward to item `index`, if there is one (`false` if not).
    pub fn get(&self, d: &mut Decoder<'b>, index: usize) -> (r: bool)
        requires
            index < self.spec_offsets().len() ==> old(d).index + self.spec_offsets()[index as int]
                <= usize::MAX,
        ensures
            r == (index < self.spec_offsets().len()),
            final(d).bytes == old(d).bytes,
            r ==> final(d).index == old(d).index + self.spec_offsets()[index as int],
            !r ==> final(d).index == old(d).index,
    {
        let opt_offset: Option<usize> = match self.offsets {
            HetArrayOffsets::U8(v) => if index < v.len() {
                Some(v[index] as usize)
            } else {
                None
            },
            HetArrayOffsets::U16(v) => if index < v.len() {
                Some(v[index] as usize)
            } else {
                None
            },
            HetArrayOffsets::U32(v) => if index < v.len() {
                Some(v[index] as usize)
            } else {
                None
            },
        };
        match opt_offset {
            Some(offset) => {
                d.index = d.index + offset;
                true
            },
            None => false,
        }
    }
}

/// What packing the items of an array has gathered so far: their header bytes while each is
/// one header alone, their bytes while each is an integer from 0 to 255, and the integers while
/// each is one.
pub struct PackState {
    pub headers: Option<Seq<u8>>,
    pub bytes: Option<Seq<u8>>,
    pub ints: Option<Seq<i64>>,
}

/// The state after an item that only a header array can take: its header byte `b` added, if
/// the headers are still gathered (packing gives up if not).
pub open spec fn pack_header(st: PackState, b: u8) -> Option<PackState> {
    match st.headers {
        Some(h) => Some(PackState { headers: Some(h.push(b)), bytes: None, ints: None }),
        None => None,
    }
}

/// The state after the item `v`, or `None` where packing gives up: at a big integer, or when
/// neither headers nor integers are left.
pub open spec fn pack_step(st: PackState, v: JsonValue) -> Option<PackState> {
    let next = match v {
        JsonValue::Null => pack_header(st, header_byte(Category::Primitive, primitive_code(Primitive::Null))),
        JsonValue::Bool(b) => pack_header(
            st,
            header_byte(
                Category::Primitive,
                primitive_code(
                    if b {
                        Primitive::True
                    } else {
                        Primitive::False
                    },
                ),
            ),
        ),
        JsonValue::Int(x) => Some(
            PackState {
                headers: match st.headers {
                    Some(h) => if 0 <= x <= 10 {
                        Some(h.push(header_byte(Category::Int, x as u8)))
                    } else {
                        None
                    },
                    None => None,
                },
                bytes: match st.bytes {
                    Some(b) => if 0 <= x <= 255 {
                        Some(b.push(x as u8))
                    } else {
                        None
                    },
                    None => None,
                },
                ints: match st.ints {
                    Some(i) => Some(i.push(x)),
                    None => None,
                },
            },
        ),
        JsonValue::BigInt(_) => None,
        JsonValue::Float(bits) => match float_hint(bits) {
            Some(n) => pack_header(st, header_byte(Category::Float, number_hint_code(n))),
            None => Some(PackState { headers: None, bytes: None, ints: None }),
        },
        JsonValue::Str(t) => if t@.len() == 0 {
            pack_header(st, header_byte(Category::Str, 0))
        } else {
            Some(PackState { headers: None, bytes: None, ints: None })
        },
        JsonValue::Array(a) => if a@.len() == 0 {
            pack_header(st, header_byte(Category::HetArray, 0))
        } else {
            Some(PackState { headers: None, bytes: None, ints: None })
        },
        JsonValue::Object(o) => if o@.len() == 0 {
            pack_header(st, header_byte(Category::Object, 0))
        } else {
            Some(PackState { headers: None, bytes: None, ints: None })
        },
    };
    match next {
        Some(n) => if n.headers is None && n.ints is None {
            None
        } else {
            Some(n)
        },
        None => None,
    }
}

/// The state after the first `k` items of `a`, or `None` if packing gave up on the way.
pub open spec fn pack_fold(a: Seq<JsonValue>, k: int) -> Option<PackState>
    decreases k,
{
    if k <= 0 {
        Some(PackState { headers: Some(Seq::empty()), bytes: Some(Seq::empty()), ints: Some(Seq::empty()) })
    } else {
        match pack_fold(a, k - 1) {
            Some(st) => pack_step(st, a[k - 1]),
            None => None,
        }
    }
}

/// An array packed into one of the compact forms: its items' header bytes, their bytes, or
/// their integers.
#[derive(Debug)]
pub enum PackedArray {
    Header(Vec<u8>),
    U8(Vec<u8>),
    I64(Vec<i64>),
}

/// Whether `p` is the packing that the final state `st` chooses: bytes over headers over
/// integers.
pub open spec fn packed_from(st: PackState, p: Option<PackedArray>) -> bool {
    match p {
        Some(PackedArray::U8(v)) => st.bytes == Some(v@),
        Some(PackedArray::Header(v)) => st.bytes is None && st.headers == Some(v@),
        Some(PackedArray::I64(v)) => st.bytes is None && st.headers is None && st.ints == Some(v@),
        None => st.bytes is None && st.headers is None && st.ints is None,
    }
}

/// The sequence that an optional vector holds.
pub open spec fn opt_seq<T>(v: Option<Vec<T>>) -> Option<Seq<T>> {
    match v {
        Some(x) => Some(x@),
        None => None,
    }
}

/// Once packing gives up it stays given up.
proof fn lemma_pack_fold_gave_up(a: Seq<JsonValue>, k: int, n: int)
    requires
        0 <= k <= n,
        pack_fold(a, k) is None,
    ensures
        pack_fold(a, n) is None,
    decreases n - k,
{
    if k < n {
        lemma_pack_fold_gave_up(a, k + 1, n);
    }
}

impl PackedArray {
    /// Pack `array` into a compact form if its items allow one: bytes if all are integers from
    /// 0 to 255, otherwise header bytes if each is one header alone, otherwise integers if all
    /// are; `None` if none fits (or at a big integer).
    pub fn new(array: &[JsonValue]) -> (r: Option<Self>)
        ensures
            match pack_fold(array@, array@.len() as int) {
                Some(st) => packed_from(st, r),
                None => r is None,
            },
    {
        let mut header_only: Option<Vec<u8>> = Some(Vec::new());
        let mut u8_only: Option<Vec<u8>> = Some(Vec::new());
        let mut i64_only: Option<Vec<i64>> = Some(Vec::new());
        let mut k: usize = 0;
        while k < array.len()
            invariant
                k <= array.len(),
                pack_fold(array@, k as int) == Some(
                    PackState {
                        headers: opt_seq(header_only),
                        bytes: opt_seq(u8_only),
                        ints: opt_seq(i64_only),
                    },
                ),
            decreases array.len() - k,
        {
            let ghost st = PackState {
                headers: opt_seq(header_only),
                bytes: opt_seq(u8_only),
                ints: opt_seq(i64_only),
            };
            let mut gave_up = false;
            match &array[k] {
                JsonValue::Null => {
                    u8_only = None;
                    i64_only = None;
                    match header_only.as_mut() {
                        Some(h) => h.push(Category::Primitive.encode_with(Primitive::Null.code())),
                        None => {
                            gave_up = true;
                        },
                    }
                },
                JsonValue::Bool(b) => {
                    u8_only = None;
                    i64_only = None;
                    let right = Primitive::from_bool(*b);
                    match header_only.as_mut() {
                        Some(h) => h.push(Category::Primitive.encode_with(right.code())),
                        None => {
                            gave_up = true;
                        },
                    }
                },
                JsonValue::Int(i) => {
                    let i = *i;
                    match i64_only.as_mut() {
                        Some(v) => v.push(i),
                        None => {},
                    }
                    let keep_u8 = match u8_only.as_mut() {
                        Some(v) => if 0 <= i && i <= 255 {
                            v.push(i as u8);
                            true
                        } else {
                            false
                        },
                        None => true,
                    };
                    if !keep_u8 {
                        u8_only = None;
                    }
                    let keep_header = match header_only.as_mut() {
                        Some(h) => match NumberHint::header_only_i64(i) {
                            Some(n) => {
                                h.push(Category::Int.encode_with(n.code()));
                                true
                            },
                            None => false,
                        },
                        None => true,
                    };
                    if !keep_header {
                        header_only = None;
                    }
                },
                JsonValue::BigInt(_) => {
                    gave_up = true;
                },
                JsonValue::Float(bits) => {
                    u8_only = None;
                    i64_only = None;
                    match NumberHint::header_only_f64(*bits) {
                        Some(n) => match header_only.as_mut() {
                            Some(h) => h.push(Category::Float.encode_with(n.code())),
                            None => {
                            gave_up = true;
                        },
                        },
                        None => {
                            header_only = None;
                        },
                    }
                },
                JsonValue::Str(t) => {
                    u8_only = None;
                    i64_only = None;
                    if t.as_str().is_empty() {
                        match header_only.as_mut() {
                            Some(h) => h.push(Category::Str.encode_with(0)),
                            None => {
                            gave_up = true;
                        },
                        }
                    } else {
                        header_only = None;
                    }
                },
                JsonValue::Array(a) => {
                    u8_only = None;
                    i64_only = None;
                    if a.len() == 0 {
                        match header_only.as_mut() {
                            Some(h) => h.push(Category::HetArray.encode_with(0)),
                            None => {
                            gave_up = true;
                        },
                        }
                    } else {
                        header_only = None;
                    }
                },
                JsonValue::Object(o) => {
                    u8_only = None;
                    i64_only = None;
                    if o.len() == 0 {
                        match header_only.as_mut() {
                            Some(h) => h.push(Category::Object.encode_with(0)),
                            None => {
                            gave_up = true;
                        },
                        }
                    } else {
                        header_only = None;
                    }
                },
            }
            if gave_up || (header_only.is_none() && i64_only.is_none()) {
                proof {
                    lemma_pack_fold_gave_up(array@, k as int + 1, array@.len() as int);
                }
                return None;
            }
            k += 1;
        }
        match u8_only {
            Some(v) => Some(PackedArray::U8(v)),
            None => match header_only {
                Some(v) => Some(PackedArray::Header(v)),
                None => match i64_only {
                    Some(v) => Some(PackedArray::I64(v)),
                    None => None,
                },
            },
        }
    }
}

/// The least space the items of `array` can take (capped at `usize::MAX`).
fn minimum_array_size_estimate(array: &Vec<JsonValue>) -> (r: usize)
    requires
        items_encodable(array@),
    ensures
        r == saturated(min_array_size(array@, array@.len() as int)),
        min_array_size(array@, array@.len() as int) >= array@.len(),
{
    let mut size: usize = 0;
    let mut k: usize = 0;
    while k < array.len()
        invariant
            k <= array.len(),
            items_encodable(array@),
            size == saturated(min_array_size(array@, k as int)),
            min_array_size(array@, k as int) >= k,
        decreases array.len() - k,
    {
        let step = minimum_value_size_estimate(&array[k]);
        assert(min_array_size(array@, k + 1) == min_array_size(array@, k as int) + crate::batson::encoder::min_value_size(array@[k as int]));
        size = size.saturating_add(step);
        k += 1;
    }
    size
}

/// The bytes of `values` by `bytemuck::cast_slice`, which reinterprets the same memory: on the
/// little-endian targets that batson is laid out for, each value's two little-endian bytes in
/// turn.
/// The little-endian reading this contract states holds only on little-endian targets; the
/// library does not check the target (the crate's application layer refuses to build for a
/// big-endian one).
#[verifier::external_body]
fn u16s_as_bytes(values: &[u16]) -> (r: &[u8])
    ensures
        r@ == le_seq(values@.map_values(|v: u16| v as int), 2),
{
    bytemuck::cast_slice(values)
}

/// The bytes of `values` by `bytemuck::cast_slice`, which reinterprets the same memory: on the
/// little-endian targets that batson is laid out for, each value's four little-endian bytes in
/// turn.
/// The little-endian reading this contract states holds only on little-endian targets; the
/// library does not check the target (the crate's application layer refuses to build for a
/// big-endian one).
#[verifier::external_body]
fn u32s_as_bytes(values: &[u32]) -> (r: &[u8])
    ensures
        r@ == le_seq(values@.map_values(|v: u32| v as int), 4),
{
    bytemuck::cast_slice(values)
}

/// The bytes of `values` by `bytemuck::cast_slice`, which reinterprets the same memory: on the
/// little-endian targets that batson is laid out for, each integer's eight little-endian bytes
/// of two's complement in turn.
/// The little-endian reading this contract states holds only on little-endian targets; the
/// library does not check the target (the crate's application layer refuses to build for a
/// big-endian one).
#[verifier::external_body]
fn i64s_as_bytes(values: &[i64]) -> (r: &[u8])
    ensures
        r@ == le_i64s(values@),
{
    bytemuck::cast_slice(values)
}

/// The offsets as numbers.
pub open spec fn offsets_view(v: Seq<u32>) -> Seq<int> {
    v.map_values(|o: u32| o as int)
}

/// Encode `array` as an array of mixed values: the header, a table of offsets of `width` bytes
/// (aligned), then the items; `false` (with what was written left for the caller to drop) if
/// an offset does not fit in `width` bytes.
fn encode_array_sized(encoder: &mut Encoder, array: &Vec<JsonValue>, width: usize) -> (r: EncodeResult<bool>)
    requires
        width == 1 || width == 2 || width == 4,
        array@.len() * 4 <= usize::MAX,
        items_encodable(array@),
    ensures
        match spec_encode_array_sized(width as nat, array@, old(encoder).spec_data()) {
            Ok(Some(d)) => r == Ok::<bool, EncodeError>(true) && final(encoder).spec_data() == d,
            Ok(None) => r == Ok::<bool, EncodeError>(false),
            Err(e) => r == Err::<bool, EncodeError>(e),
        },
        r is Ok ==> extends(final(encoder).spec_data(), old(encoder).spec_data()),
    decreases array@, 2nat, 0nat,
{
    let ghost d0 = encoder.spec_data();
    if width == 1 {
        encoder.align::<u8>();
    } else if width == 2 {
        encoder.align::<u16>();
    } else {
        encoder.align::<u32>();
    }
    let ghost d1 = encoder.spec_data();
    assert(d1 == aligned(d0, offset_align(width as nat)));
    let positions_start = encoder.ring_fence(array.len() * width);
    let ghost d2 = encoder.spec_data();
    let offset_start = encoder.position();
    proof {
        lemma_extends_append(d0, d1.subrange(d0.len() as int, d1.len() as int));
        assert(d1 =~= d0 + d1.subrange(d0.len() as int, d1.len() as int));
        lemma_extends_append(d1, zeros((array.len() * width) as nat));
        lemma_extends_trans(d2, d1, d0);
        reveal_with_fuel(pow256, 5);
    }
    let ghost goal = spec_encode_items(width as nat, array@, 0, offset_start as int, d2, Seq::empty());
    assert(d2.subrange(0, d2.len() as int) =~= d2);
    assert(offsets_view(Seq::<u32>::empty()) =~= Seq::<int>::empty());
    let max: usize = if width == 1 {
        0xff
    } else if width == 2 {
        0xffff
    } else {
        0xffff_ffff
    };
    let mut offsets: Vec<u32> = Vec::new();
    let mut k: usize = 0;
    while k < array.len()
        invariant
            k <= array.len(),
            width == 1 || width == 2 || width == 4,
            max + 1 == pow256(width as nat),
            max <= 0xffff_ffff,
            items_encodable(array@),
            d0 == old(encoder).spec_data(),
            d1 == aligned(d0, offset_align(width as nat)),
            d2 == d1 + zeros((array@.len() * width) as nat),
            positions_start == d1.len(),
            goal == spec_encode_items(width as nat, array@, 0, offset_start as int, d2, Seq::empty()),
            offset_start == d2.len(),
            extends(d2, d0),
            extends(encoder.spec_data(), d2),
            offsets@.len() == k,
            forall|i: int| 0 <= i < k ==> #[trigger] offsets@[i] <= max,
            goal == spec_encode_items(
                width as nat,
                array@,
                k as nat,
                offset_start as int,
                encoder.spec_data(),
                offsets_view(offsets@),
            ),
        decreases array.len() - k,
    {
        let pos = encoder.position();
        let off = pos - offset_start;
        if off > max {
            proof {
                lemma_extends_trans(encoder.spec_data(), d2, d0);
                assert(off >= pow256(width as nat));
                assert(goal == Ok::<Option<(Seq<u8>, Seq<int>)>, EncodeError>(None));
            }
            return Ok(false);
        }
        let ghost before = encoder.spec_data();
        let ghost old_off = offsets@;
        offsets.push(off as u32);
        match encoder.encode_value(&array[k]) {
            Err(e) => return Err(e),
            Ok(()) => {},
        }
        proof {
            lemma_extends_trans(encoder.spec_data(), before, d2);
            assert(offsets@ == old_off.push(off as u32));
            assert(offsets_view(offsets@) =~= offsets_view(old_off).push(off as int));
        }
        k += 1;
    }
    let ghost d3 = encoder.spec_data();
    proof {
        lemma_le_seq_len(offsets_view(offsets@), width as nat);
        lemma_extends_trans(d3, d2, d0);
    }
    if width == 1 {
        let mut bytes: Vec<u8> = Vec::new();
        let mut i: usize = 0;
        while i < offsets.len()
            invariant
                i <= offsets.len(),
                bytes@ == le_seq(offsets_view(offsets@.subrange(0, i as int)), 1),
            decreases offsets.len() - i,
        {
            let b = le_bytes_of(offsets[i] as u64, 1);
            bytes.extend_from_slice(b.as_slice());
            proof {
                let sub = offsets_view(offsets@.subrange(0, i + 1));
                assert(sub.drop_last() =~= offsets_view(offsets@.subrange(0, i as int)));
            }
            i += 1;
            assert(bytes@ =~= le_seq(offsets_view(offsets@.subrange(0, i as int)), 1));
        }
        assert(offsets@.subrange(0, offsets.len() as int) =~= offsets@);
        encoder.set_range(positions_start, bytes.as_slice());
    } else if width == 2 {
        let mut narrow: Vec<u16> = Vec::new();
        let mut i: usize = 0;
        while i < offsets.len()
            invariant
                i <= offsets.len(),
                max == 0xffff,
                forall|t: int| 0 <= t < offsets@.len() ==> #[trigger] offsets@[t] <= max,
                narrow@.len() == i,
                forall|t: int| 0 <= t < i ==> #[trigger] narrow@[t] as int == offsets@[t] as int,
            decreases offsets.len() - i,
        {
            let o = offsets[i];
            assert(o <= 0xffff);
            narrow.push(o as u16);
            i += 1;
        }
        assert(narrow@.map_values(|v: u16| v as int) =~= offsets_view(offsets@));
        encoder.set_range(positions_start, u16s_as_bytes(narrow.as_slice()));
    } else {
        encoder.set_range(positions_start, u32s_as_bytes(offsets.as_slice()));
    }
    proof {
        lemma_splice(d3, d1.len() as int, le_seq(offsets_view(offsets@), width as nat), d0);
    }
    Ok(true)
}

/// Encode `array`: an empty header for none; a packed array of bytes, headers or integers if
/// its items allow; otherwise an array of mixed values, with offsets in the narrowest of `u8`,
/// `u16` and `u32` that the estimate of its size and then its offsets allow.
pub fn encode_array(encoder: &mut Encoder, array: &Vec<JsonValue>) -> (r: EncodeResult<()>)
    requires
        array@.len() * 4 <= usize::MAX,
        items_encodable(array@),
    ensures
        match spec_encode_array(array@, old(encoder).spec_data()) {
            Ok(d) => r is Ok && final(encoder).spec_data() == d,
            Err(e) => r == Err::<(), EncodeError>(e),
        },
        r is Ok ==> extends(final(encoder).spec_data(), old(encoder).spec_data()),
    decreases array@, 3nat, 0nat,
{
    let ghost d0 = encoder.spec_data();
    if array.len() == 0 {
        let r = encoder.encode_length(Category::HetArray, 0);
        proof {
            if r is Ok {
                lemma_extends_append(d0, encoder.spec_data().subrange(d0.len() as int, encoder.spec_data().len() as int));
                assert(encoder.spec_data() =~= d0 + encoder.spec_data().subrange(d0.len() as int, encoder.spec_data().len() as int));
            }
        }
        return r;
    }
    match PackedArray::new(array.as_slice()) {
        Some(PackedArray::Header(v)) => {
            match encoder.encode_length(Category::HeaderArray, v.len()) {
                Ok(()) => {},
                Err(e) => return Err(e),
            }
            encoder.extend(v.as_slice());
            proof {
                lemma_extends_append(d0, encoder.spec_data().subrange(d0.len() as int, encoder.spec_data().len() as int));
                assert(encoder.spec_data() =~= d0 + encoder.spec_data().subrange(d0.len() as int, encoder.spec_data().len() as int));
            }
            Ok(())
        },
        Some(PackedArray::I64(v)) => {
            match encoder.encode_length(Category::I64Array, v.len()) {
                Ok(()) => {},
                Err(e) => return Err(e),
            }
            encoder.align::<i64>();
            encoder.extend(i64s_as_bytes(v.as_slice()));
            proof {
                lemma_extends_append(d0, encoder.spec_data().subrange(d0.len() as int, encoder.spec_data().len() as int));
                assert(encoder.spec_data() =~= d0 + encoder.spec_data().subrange(d0.len() as int, encoder.spec_data().len() as int));
            }
            Ok(())
        },
        Some(PackedArray::U8(v)) => {
            match encoder.encode_length(Category::U8Array, v.len()) {
                Ok(()) => {},
                Err(e) => return Err(e),
            }
            encoder.extend(v.as_slice());
            proof {
                lemma_extends_append(d0, encoder.spec_data().subrange(d0.len() as int, encoder.spec_data().len() as int));
                assert(encoder.spec_data() =~= d0 + encoder.spec_data().subrange(d0.len() as int, encoder.spec_data().len() as int));
            }
            Ok(())
        },
        None => {
            let min_size = minimum_array_size_estimate(array);
            let encoder_position = encoder.position();
            if min_size <= 0xff {
                match encoder.encode_length(Category::HetArray, array.len()) {
                    Ok(()) => {},
                    Err(e) => return Err(e),
                }
                let ghost d1 = encoder.spec_data();
                match encode_array_sized(encoder, array, 1) {
                    Ok(true) => {
                        proof {
                            lemma_extends_append(d0, d1.subrange(d0.len() as int, d1.len() as int));
                            assert(d1 =~= d0 + d1.subrange(d0.len() as int, d1.len() as int));
                            lemma_extends_trans(encoder.spec_data(), d1, d0);
                        }
                        return Ok(());
                    },
                    Ok(false) => {},
                    Err(e) => return Err(e),
                }
                proof {
                    lemma_extends_append(d0, d1.subrange(d0.len() as int, d1.len() as int));
                    assert(d1 =~= d0 + d1.subrange(d0.len() as int, d1.len() as int));
                    lemma_extends_trans(encoder.spec_data(), d1, d0);
                }
                encoder.reset_position(encoder_position);
            }
            if min_size <= 0xffff {
                encoder.encode_len_u16(Category::HetArray, array.len() as u16);
                let ghost d1 = encoder.spec_data();
                match encode_array_sized(encoder, array, 2) {
                    Ok(true) => {
                        proof {
                            lemma_extends_append(d0, d1.subrange(d0.len() as int, d1.len() as int));
                            assert(d1 =~= d0 + d1.subrange(d0.len() as int, d1.len() as int));
                            lemma_extends_trans(encoder.spec_data(), d1, d0);
                        }
                        return Ok(());
                    },
                    Ok(false) => {},
                    Err(e) => return Err(e),
                }
                proof {
                    lemma_extends_append(d0, d1.subrange(d0.len() as int, d1.len() as int));
                    assert(d1 =~= d0 + d1.subrange(d0.len() as int, d1.len() as int));
                    lemma_extends_trans(encoder.spec_data(), d1, d0);
                }
                encoder.reset_position(encoder_position);
            }
            match encoder.encode_len_u32(Category::HetArray, array.len()) {
                Ok(()) => {},
                Err(e) => return Err(e),
            }
            let ghost d1 = encoder.spec_data();
            match encode_array_sized(encoder, array, 4) {
                Ok(true) => {
                    proof {
                        lemma_extends_append(d0, d1.subrange(d0.len() as int, d1.len() as int));
                        assert(d1 =~= d0 + d1.subrange(d0.len() as int, d1.len() as int));
                        lemma_extends_trans(encoder.spec_data(), d1, d0);
                    }
                    Ok(())
                },
                Ok(false) => Err(EncodeError::ArrayTooLarge),
                Err(e) => Err(e),
            }
        },
    }
}

/// Decoding the offsets of an array of mixed values, after a header with length `l`: the
/// number of items, then their offsets in a `u32` or `u16` (aligned) for those lengths and in a
/// `u8` otherwise. The offsets and where they end; the memory taken to read as numbers.
pub open spec fn spec_het_header(s: Seq<u8>, index: int, l: Length) -> Result<(Seq<int>, int), DecodeError> {
    if l == Length::Empty {
        Ok((Seq::empty(), index))
    } else {
        let w = header_width(l);
        match spec_read_length(s, index, l) {
            Err(e) => Err(e),
            Ok((n, i1)) => {
                let a = align_up(i1, offset_align(w) as int);
                match spec_take_slice(s, a, n * w) {
                    Ok(t) => Ok((le_words(t, w), a + n * w)),
                    Err(e) => Err(e),
                }
            },
        }
    }
}

/// A byte is the number of its one little-endian byte.
proof fn lemma_le_words_bytes(t: Seq<u8>)
    ensures
        le_words(t, 1) == t.map_values(|b: u8| b as int),
{
    reveal_with_fuel(le_value, 2);
    assert forall|j: int| 0 <= j < t.len() implies #[trigger] le_words(t, 1)[j] == t[j] as int by {
        assert(t.subrange(j, j + 1).drop_first().len() == 0);
    }
    assert(le_words(t, 1) =~= t.map_values(|b: u8| b as int));
}

impl<'b> HetArray<'b> {
    /// Decode the offsets of an array of mixed values after a header with length `length`.
    pub fn decode_header(d: &mut Decoder<'b>, length: Length) -> (r: DecodeResult<Self>)
        requires
            old(d).wf(),
            old(d).index <= old(d).spec_bytes().len(),
        ensures
            final(d).wf(),
            final(d).spec_bytes() == old(d).spec_bytes(),
            match spec_het_header(old(d).spec_bytes(), old(d).index as int, length) {
                Ok((offsets, end)) => (r matches Ok(a) && a.spec_offsets() == offsets && final(d).index == end)
                    || (wide(length) && (r matches Err(e) && e.error_type is PodCastError)),
                Err(e) => r == Err::<Self, DecodeError>(e),
            },
            r is Ok ==> final(d).index <= final(d).spec_bytes().len(),
    {
        proof {
            broadcast use vstd::layout::layout_of_primitives;
            lemma_align_le_size::<u8>();
        }
        match length {
            Length::Empty => {
                let empty: &[u8] = &[];
                assert(empty@.len() == 0);
                let r = HetArray { offsets: HetArrayOffsets::U8(empty) };
                assert(r.spec_offsets() =~= Seq::<int>::empty());
                Ok(r)
            },
            Length::U32 => {
                let n = match length.decode(d) {
                    Ok(n) => n,
                    Err(e) => return Err(e),
                };
                match d.take_u32s(n) {
                    Ok(v) => {
                        let r = HetArray { offsets: HetArrayOffsets::U32(v) };
                        assert(r.spec_offsets() =~= v@.map_values(|x: u32| x as int));
                        Ok(r)
                    },
                    Err(e) => Err(e),
                }
            },
            Length::U16 => {
                let n = match length.decode(d) {
                    Ok(n) => n,
                    Err(e) => return Err(e),
                };
                match d.take_u16s(n) {
                    Ok(v) => {
                        let r = HetArray { offsets: HetArrayOffsets::U16(v) };
                        assert(r.spec_offsets() =~= v@.map_values(|x: u16| x as int));
                        Ok(r)
                    },
                    Err(e) => Err(e),
                }
            },
            _ => {
                let n = match length.decode(d) {
                    Ok(n) => n,
                    Err(e) => return Err(e),
                };
                let v = match d.aligned_bytes::<u8>(n, 1) {
                    Ok(v) => v,
                    Err(e) => return Err(e),
                };
                d.index = d.index + v.len();
                let r = HetArray { offsets: HetArrayOffsets::U8(v) };
                proof {
                    lemma_le_words_bytes(v@);
                    assert(r.spec_offsets() =~= v@.map_values(|b: u8| b as int));
                }
                Ok(r)
            },
        }
    }
}

/// Reading the bytes of a `u8` array after a header with length `l`: the bytes and where they
/// end.
pub open spec fn spec_u8_array(s: Seq<u8>, index: int, l: Length) -> Result<(Seq<u8>, int), DecodeError> {
    match spec_read_length(s, index, l) {
        Err(e) => Err(e),
        Ok((n, i1)) => match spec_take_slice(s, i1, n) {
            Ok(t) => Ok((t, i1 + n)),
            Err(e) => Err(e),
        },
    }
}

/// The bytes of a `u8` array after a header with length `length`.
pub fn u8_array_slice<'b>(d: &mut Decoder<'b>, length: Length) -> (r: DecodeResult<&'b [u8]>)
    requires
        old(d).wf(),
    ensures
        final(d).wf(),
        final(d).spec_bytes() == old(d).spec_bytes(),
        match spec_u8_array(old(d).spec_bytes(), old(d).index as int, length) {
            Ok((t, end)) => r matches Ok(v) && v@ == t && final(d).index == end,
            Err(e) => r == Err::<&[u8], DecodeError>(e),
        },
{
    let n = match length.decode(d) {
        Ok(n) => n,
        Err(e) => return Err(e),
    };
    d.take_slice(n)
}

/// Item `index` of a `u8` array after a header with length `length`, if there is one.
pub fn u8_array_get(d: &mut Decoder, length: Length, index: usize) -> (r: DecodeResult<Option<u8>>)
    requires
        old(d).wf(),
    ensures
        final(d).wf(),
        final(d).spec_bytes() == old(d).spec_bytes(),
        match spec_u8_array(old(d).spec_bytes(), old(d).index as int, length) {
            Ok((t, end)) => r == Ok::<Option<u8>, DecodeError>(
                if index < t.len() {
                    Some(t[index as int])
                } else {
                    None
                },
            ) && final(d).index == end,
            Err(e) => r == Err::<Option<u8>, DecodeError>(e),
        },
{
    let v = match u8_array_slice(d, length) {
        Ok(v) => v,
        Err(e) => return Err(e),
    };
    if index < v.len() {
        Ok(Some(v[index]))
    } else {
        Ok(None)
    }
}

/// The header of item `index` of an array of headers after a header with length `length`, if
/// there is one: the item's byte decoded as a header, or its error at the end of the array.
pub fn header_array_get(d: &mut Decoder, length: Length, index: usize) -> (r: DecodeResult<Option<Header>>)
    requires
        old(d).wf(),
    ensures
        final(d).wf(),
        final(d).spec_bytes() == old(d).spec_bytes(),
        match spec_u8_array(old(d).spec_bytes(), old(d).index as int, length) {
            Ok((t, end)) => final(d).index == end && if index < t.len() {
                match spec_header_of(t[index as int]) {
                    Ok(h) => r == Ok::<Option<Header>, DecodeError>(Some(h)),
                    Err(error_type) => r == Err::<Option<Header>, DecodeError>(
                        DecodeError { index: end as usize, error_type },
                    ),
                }
            } else {
                r == Ok::<Option<Header>, DecodeError>(None)
            },
            Err(e) => r == Err::<Option<Header>, DecodeError>(e),
        },
{
    match u8_array_get(d, length, index) {
        Ok(Some(b)) => match Header::decode(b, d) {
            Ok(h) => Ok(Some(h)),
            Err(e) => Err(e),
        },
        Ok(None) => Ok(None),
        Err(e) => Err(e),
    }
}

/// Reading the integers of an `i64` array after a header with length `l`: the integers (aligned)
/// and where they end; the memory taken to read as integers.
pub open spec fn spec_i64_array(s: Seq<u8>, index: int, l: Length) -> Result<(Seq<int>, int), DecodeError> {
    match spec_read_length(s, index, l) {
        Err(e) => Err(e),
        Ok((n, i1)) => {
            let a = align_up(i1, vstd::layout::align_of::<i64>() as int);
            match spec_take_slice(s, a, n * 8) {
                Ok(t) => Ok((le_i64_words(t), a + n * 8)),
                Err(e) => Err(e),
            }
        },
    }
}

/// The integers of an `i64` array after a header with length `length`.
pub fn i64_array_slice<'b>(d: &mut Decoder<'b>, length: Length) -> (r: DecodeResult<&'b [i64]>)
    requires
        old(d).wf(),
        old(d).index <= old(d).spec_bytes().len(),
    ensures
        final(d).wf(),
        final(d).spec_bytes() == old(d).spec_bytes(),
        match spec_i64_array(old(d).spec_bytes(), old(d).index as int, length) {
            Ok((t, end)) => (r matches Ok(v) && v@.map_values(|x: i64| x as int) == t && final(d).index == end)
                || (r matches Err(e) && e.error_type is PodCastError),
            Err(e) => r == Err::<&[i64], DecodeError>(e),
        },
{
    let n = match length.decode(d) {
        Ok(n) => n,
        Err(e) => return Err(e),
    };
    d.take_i64s(n)
}

/// Item `index` of an `i64` array after a header with length `length`, if there is one.
pub fn i64_array_get(d: &mut Decoder, length: Length, index: usize) -> (r: DecodeResult<Option<i64>>)
    requires
        old(d).wf(),
        old(d).index <= old(d).spec_bytes().len(),
    ensures
        final(d).wf(),
        final(d).spec_bytes() == old(d).spec_bytes(),
        match spec_i64_array(old(d).spec_bytes(), old(d).index as int, length) {
            Ok((t, end)) => (r matches Ok(x) && x == (if index < t.len() {
                Some(t[index as int] as i64)
            } else {
                None
            }) && final(d).index == end) || (r matches Err(e) && e.error_type is PodCastError),
            Err(e) => r == Err::<Option<i64>, DecodeError>(e),
        },
{
    let v = match i64_array_slice(d, length) {
        Ok(v) => v,
        Err(e) => return Err(e),
    };
    if index < v.len() {
        proof {
            assert(v@.map_values(|x: i64| x as int)[index as int] == v@[index as int] as int);
        }
        Ok(Some(v[index]))
    } else {
        Ok(None)
    }
}

impl<'b> HetArray<'b> {
    /// Decode the items of the array, one value after another.
    pub fn to_value(&self, d: &mut Decoder<'b>) -> (r: DecodeResult<Vec<JsonValue>>)
        requires
            old(d).wf(),
            !(spec_take_items(old(d).spec_bytes(), old(d).index as int, self.spec_offsets().len() as int, Seq::empty()) is Panic),
        ensures
            final(d).wf(),
            final(d).spec_bytes() == old(d).spec_bytes(),
            decoded_as(
                r,
                spec_take_items(old(d).spec_bytes(), old(d).index as int, self.spec_offsets().len() as int, Seq::empty()),
                final(d).index as int,
                |v: Vec<JsonValue>| values_view(v@, v@.len() as int),
                casts_items(old(d).spec_bytes(), old(d).index as int, self.spec_offsets().len() as int),
            ),
            r is Ok ==> old(d).index <= final(d).index <= final(d).spec_bytes().len() || (
                old(d).index == final(d).index && self.spec_offsets().len() == 0),
        decreases old(d).spec_bytes().len() - old(d).index, 1int,
    {
        let n = self.len();
        let ghost s = d.spec_bytes();
        let ghost i0 = d.index;
        let mut out: Vec<JsonValue> = Vec::new();
        let mut k: usize = 0;
        while k < n
            invariant
                k <= n,
                n == self.spec_offsets().len(),
                d.wf(),
                d.spec_bytes() == s,
                s == old(d).spec_bytes(),
                i0 == old(d).index,
                i0 <= d.index,
                k > 0 ==> d.index <= s.len(),
                k == 0 ==> d.index == i0,
                out@.len() == k,
                spec_take_items(s, i0 as int, n as int, Seq::empty()) == spec_take_items(
                    s,
                    d.index as int,
                    n - k,
                    values_view(out@, k as int),
                ),
                !(spec_take_items(s, i0 as int, n as int, Seq::empty()) is Panic),
                casts_items(s, d.index as int, n - k) ==> casts_items(s, i0 as int, n as int),
            decreases n - k,
        {
            let ghost before = d.index;
            let v = match d.take_value() {
                Ok(v) => v,
                Err(e) => return Err(e),
            };
            proof {
                lemma_values_view_push(out@, v);
            }
            out.push(v);
            k += 1;
        }
        Ok(out)
    }
}

/// Decode the items of a `u8` array after a header with length `length`: integers.
pub fn u8_array_to_json(d: &mut Decoder, length: Length) -> (r: DecodeResult<Vec<JsonValue>>)
    requires
        old(d).wf(),
    ensures
        final(d).wf(),
        final(d).spec_bytes() == old(d).spec_bytes(),
        match spec_u8_array(old(d).spec_bytes(), old(d).index as int, length) {
            Ok((t, end)) => r matches Ok(v) && values_view(v@, v@.len() as int) == t.map_values(
                |b: u8| ValueView::Int(b as i64),
            ) && final(d).index == end,
            Err(e) => r == Err::<Vec<JsonValue>, DecodeError>(e),
        },
        r is Ok ==> old(d).index <= final(d).index <= final(d).spec_bytes().len(),
{
    let bytes = match u8_array_slice(d, length) {
        Ok(b) => b,
        Err(e) => return Err(e),
    };
    let mut out: Vec<JsonValue> = Vec::new();
    let mut k: usize = 0;
    while k < bytes.len()
        invariant
            k <= bytes.len(),
            out@.len() == k,
            values_view(out@, k as int) == bytes@.subrange(0, k as int).map_values(|b: u8| ValueView::Int(b as i64)),
        decreases bytes.len() - k,
    {
        let v = JsonValue::Int(bytes[k] as i64);
        proof {
            lemma_values_view_push(out@, v);
        }
        out.push(v);
        k += 1;
        assert(values_view(out@, k as int) =~= bytes@.subrange(0, k as int).map_values(|b: u8| ValueView::Int(b as i64)));
    }
    assert(bytes@.subrange(0, bytes.len() as int) =~= bytes@);
    Ok(out)
}

/// Decode the items of an `i64` array after a header with length `length`: integers.
pub fn i64_array_to_json(d: &mut Decoder, length: Length) -> (r: DecodeResult<Vec<JsonValue>>)
    requires
        old(d).wf(),
        old(d).index <= old(d).spec_bytes().len(),
    ensures
        final(d).wf(),
        final(d).spec_bytes() == old(d).spec_bytes(),
        (r matches Err(e) && e.error_type is PodCastError) || match spec_i64_array(old(d).spec_bytes(), old(d).index as int, length) {
            Ok((xs, end)) => r matches Ok(v) && values_view(v@, v@.len() as int) == xs.map_values(
                |x: int| ValueView::Int(x as i64),
            ) && final(d).index == end,
            Err(e) => r == Err::<Vec<JsonValue>, DecodeError>(e),
        },
        r is Ok ==> old(d).index <= final(d).index <= final(d).spec_bytes().len(),
{
    let ints = match i64_array_slice(d, length) {
        Ok(v) => v,
        Err(e) => return Err(e),
    };
    let ghost xs = ints@.map_values(|x: i64| x as int);
    let mut out: Vec<JsonValue> = Vec::new();
    let mut k: usize = 0;
    while k < ints.len()
        invariant
            k <= ints.len(),
            xs == ints@.map_values(|x: i64| x as int),
            out@.len() == k,
            values_view(out@, k as int) == xs.subrange(0, k as int).map_values(|x: int| ValueView::Int(x as i64)),
        decreases ints.len() - k,
    {
        let v = JsonValue::Int(ints[k]);
        proof {
            lemma_values_view_push(out@, v);
        }
        out.push(v);
        k += 1;
        assert(values_view(out@, k as int) =~= xs.subrange(0, k as int).map_values(|x: int| ValueView::Int(x as i64)));
    }
    assert(xs.subrange(0, ints.len() as int) =~= xs);
    Ok(out)
}

/// Decode the items of an array of headers after a header with length `length`: the value each
/// header gives alone (errors from decoding a header at the end of the array).
pub fn header_array_to_json(d: &mut Decoder, length: Length) -> (r: DecodeResult<Vec<JsonValue>>)
    requires
        old(d).wf(),
        match spec_u8_array(old(d).spec_bytes(), old(d).index as int, length) {
            Ok((t, end)) => !(spec_header_values(t, end, 0, Seq::empty()) is Panic),
            Err(_) => true,
        },
    ensures
        final(d).wf(),
        final(d).spec_bytes() == old(d).spec_bytes(),
        match spec_u8_array(old(d).spec_bytes(), old(d).index as int, length) {
            Ok((t, end)) => decoded_as(
                r,
                spec_header_values(t, end, 0, Seq::empty()),
                final(d).index as int,
                |v: Vec<JsonValue>| values_view(v@, v@.len() as int),
                false,
            ),
            Err(e) => r == Err::<Vec<JsonValue>, DecodeError>(e),
        },
        r is Ok ==> old(d).index <= final(d).index <= final(d).spec_bytes().len(),
{
    let bytes = match u8_array_slice(d, length) {
        Ok(b) => b,
        Err(e) => return Err(e),
    };
    let ghost end = d.index as int;
    let mut out: Vec<JsonValue> = Vec::new();
    let mut k: usize = 0;
    while k < bytes.len()
        invariant
            k <= bytes.len(),
            d.wf(),
            d.index == end,
            d.spec_bytes() == old(d).spec_bytes(),
            spec_u8_array(old(d).spec_bytes(), old(d).index as int, length) == Ok::<(Seq<u8>, int), DecodeError>((bytes@, end)),
            out@.len() == k,
            spec_header_values(bytes@, end, 0, Seq::empty()) == spec_header_values(
                bytes@,
                end,
                k as int,
                values_view(out@, k as int),
            ),
            !(spec_header_values(bytes@, end, 0, Seq::empty()) is Panic),
        decreases bytes.len() - k,
    {
        let h = match Header::decode(bytes[k], d) {
            Ok(h) => h,
            Err(e) => return Err(e),
        };
        let v = h.header_as_value(d);
        proof {
            lemma_values_view_push(out@, v);
        }
        out.push(v);
        k += 1;
    }
    Ok(out)
}

} // verus!
