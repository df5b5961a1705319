//! Reading batson: a position in the encoded bytes and the steps that take values from it.
use vstd::prelude::*;
use vstd::string::*;
use vstd::utf8::*;

use crate::batson::errors::{DecodeError, DecodeErrorType, DecodeResult};
use crate::batson::encoder::pad_to;
use crate::batson::array::{
    header_array_to_json, i64_array_to_json, spec_het_header, spec_i64_array, spec_u8_array,
    u8_array_to_json, HetArray,
};
use crate::batson::header::{
    number_hint_code, spec_header_of, spec_read_header, spec_read_length, Header, Length, NumberHint,
};
use crate::batson::object::{spec_object_header, Object};
use crate::value::{json_view, JsonValue, ValueView};

verus! {

/// The value of the little-endian bytes `s`.
pub open spec fn le_value(s: Seq<u8>) -> nat
    decreases s.len(),
{
    if s.len() == 0 {
        0
    } else {
        s[0] as nat + 256 * le_value(s.drop_first())
    }
}

/// The signed value, in two's complement over `n` bytes, of the unsigned value `v`.
pub open spec fn twos_complement(v: nat, n: nat) -> int {
    if v >= pow256(n) / 2 {
        v - pow256(n)
    } else {
        v as int
    }
}

/// `256` to the power `n`.
pub open spec fn pow256(n: nat) -> nat
    decreases n,
{
    if n == 0 {
        1
    } else {
        256 * pow256((n - 1) as nat)
    }
}

/// The `n` little-endian bytes of `v`: its low `8 * n` bits.
pub open spec fn le_bytes(v: nat, n: nat) -> Seq<u8>
    decreases n,
{
    if n == 0 {
        Seq::empty()
    } else {
        seq![(v % 256) as u8] + le_bytes(v / 256, (n - 1) as nat)
    }
}

pub proof fn lemma_pow256_pos(n: nat)
    ensures
        pow256(n) > 0,
    decreases n,
{
    if n > 0 {
        lemma_pow256_pos((n - 1) as nat);
    }
}

/// Reading back `n` little-endian bytes of `v` gives `v` modulo `256` to the `n`.
pub proof fn lemma_le_roundtrip(v: nat, n: nat)
    ensures
        le_bytes(v, n).len() == n,
        le_value(le_bytes(v, n)) == v % pow256(n),
    decreases n,
{
    if n == 0 {
        assert(v % 1 == 0);
    } else {
        lemma_le_roundtrip(v / 256, (n - 1) as nat);
        lemma_pow256_pos((n - 1) as nat);
        let s = le_bytes(v, n);
        assert(s.drop_first() =~= le_bytes(v / 256, (n - 1) as nat));
        vstd::arithmetic::div_mod::lemma_mod_breakdown(v as int, 256, pow256((n - 1) as nat) as int);
    }
}

/// The bytes of `v` extend one at a time, the `k`-th being that of `v / 256^k`.
pub proof fn lemma_le_bytes_push(v: nat, k: nat)
    ensures
        le_bytes(v, k + 1) == le_bytes(v, k).push(((v / pow256(k)) % 256) as u8),
    decreases k,
{
    if k == 0 {
        reveal_with_fuel(le_bytes, 2);
        assert(v / 1 == v);
        assert(le_bytes(v, 1) =~= seq![(v % 256) as u8]);
        assert(le_bytes(v, 0) =~= Seq::<u8>::empty());
    } else {
        lemma_le_bytes_push(v / 256, (k - 1) as nat);
        lemma_pow256_pos((k - 1) as nat);
        vstd::arithmetic::div_mod::lemma_div_denominator(v as int, 256, pow256((k - 1) as nat) as int);
        assert(le_bytes(v, k + 1) =~= le_bytes(v, k).push(((v / pow256(k)) % 256) as u8));
    }
}

pub proof fn lemma_le_value_bound(s: Seq<u8>)
    ensures
        le_value(s) < pow256(s.len()),
    decreases s.len(),
{
    if s.len() > 0 {
        lemma_le_value_bound(s.drop_first());
    }
}

/// `index` rounded up to a multiple of `align`.
pub open spec fn align_up(index: int, align: int) -> int {
    index + pad_to(index, align)
}

/// The `j`-th number of `w` little-endian bytes in `t`.
pub open spec fn le_word(t: Seq<u8>, w: nat, j: int) -> int {
    le_value(t.subrange(j * w, j * w + w)) as int
}

/// The numbers in `t`, `w` little-endian bytes each.
pub open spec fn le_words(t: Seq<u8>, w: nat) -> Seq<int> {
    Seq::new(t.len() / w, |j: int| le_word(t, w, j))
}

/// The signed integers in `t`, eight little-endian bytes of two's complement each.
pub open spec fn le_i64_words(t: Seq<u8>) -> Seq<int> {
    Seq::new(t.len() / 8, |j: int| twos_complement(le_word(t, 8, j) as nat, 8))
}

/// Reading `size` bytes at `index` rounded up to `align`: the bytes, or `EOF` there.
pub open spec fn spec_take_aligned(s: Seq<u8>, index: int, align: int, size: int) -> Result<Seq<u8>, DecodeError> {
    spec_take_slice(s, align_up(index, align), size)
}

/// A type's alignment is no more than its size, where that is not zero.
pub proof fn lemma_align_le_size<T>()
    requires
        vstd::layout::size_of::<T>() > 0,
    ensures
        vstd::layout::align_of::<T>() <= vstd::layout::size_of::<T>(),
{
    broadcast use vstd::layout::align_properties, vstd::layout::align_nonzero;

    let a = vstd::layout::align_of::<T>();
    let z = vstd::layout::size_of::<T>();
    if a > z {
        vstd::arithmetic::div_mod::lemma_small_mod(z, a);
    }
}

/// Reads `bytes` as `u16`s with `bytemuck::try_cast_slice::<u8, u16>`, which reinterprets the
/// same memory: on the little-endian targets that batson is laid out for, each pair of bytes
/// little-endian. It fails where the bytes are not aligned for `u16` in memory (which this
/// contract leaves open) or are not a whole number of `u16`s.
/// The little-endian reading this contract states holds only on little-endian targets; the
/// library does not check the target (the crate's application layer refuses to build for a
/// big-endian one).
#[verifier::external_body]
pub(crate) fn bytes_as_u16s(bytes: &[u8]) -> (r: Result<&[u16], bytemuck::PodCastError>)
    ensures
        r matches Ok(v) ==> bytes@.len() % 2 == 0 && v@.map_values(|x: u16| x as int) == le_words(bytes@, 2),
        bytes@.len() % 2 != 0 ==> r is Err,
{
    bytemuck::try_cast_slice(bytes)
}

/// Reads `bytes` as `u32`s with `bytemuck::try_cast_slice::<u8, u32>`, which reinterprets the
/// same memory: on the little-endian targets that batson is laid out for, each four bytes
/// little-endian. It fails where the bytes are not aligned for `u32` in memory (which this
/// contract leaves open) or are not a whole number of `u32`s.
/// The little-endian reading this contract states holds only on little-endian targets; the
/// library does not check the target (the crate's application layer refuses to build for a
/// big-endian one).
#[verifier::external_body]
pub(crate) fn bytes_as_u32s(bytes: &[u8]) -> (r: Result<&[u32], bytemuck::PodCastError>)
    ensures
        r matches Ok(v) ==> bytes@.len() % 4 == 0 && v@.map_values(|x: u32| x as int) == le_words(bytes@, 4),
        bytes@.len() % 4 != 0 ==> r is Err,
{
    bytemuck::try_cast_slice(bytes)
}

/// Reads `bytes` as `i64`s with `bytemuck::try_cast_slice::<u8, i64>`, which reinterprets the
/// same memory: on the little-endian targets that batson is laid out for, each eight bytes
/// little-endian in two's complement. It fails where the bytes are not aligned for `i64` in
/// memory (which this contract leaves open) or are not a whole number of `i64`s.
/// The little-endian reading this contract states holds only on little-endian targets; the
/// library does not check the target (the crate's application layer refuses to build for a
/// big-endian one).
#[verifier::external_body]
fn bytes_as_i64s(bytes: &[u8]) -> (r: Result<&[i64], bytemuck::PodCastError>)
    ensures
        r matches Ok(v) ==> bytes@.len() % 8 == 0 && v@.map_values(|x: i64| x as int) == le_i64_words(bytes@),
        bytes@.len() % 8 != 0 ==> r is Err,
{
    bytemuck::try_cast_slice(bytes)
}

/// What decoding gives: the result and where decoding ended, an error, invalid UTF-8 at an
/// index (the error's detail being simdutf8's), or a panic.
pub enum Decoded<T> {
    Done(T, int),
    Fail(DecodeError),
    BadUtf8(int),
    Panic,
}

/// The bits of the binary64 float, zero to ten, that the hint `n` holds itself.
pub open spec fn hint_float_bits(n: NumberHint) -> u64 {
    match n {
        NumberHint::One => 0x3ff0_0000_0000_0000,
        NumberHint::Two => 0x4000_0000_0000_0000,
        NumberHint::Three => 0x4008_0000_0000_0000,
        NumberHint::Four => 0x4010_0000_0000_0000,
        NumberHint::Five => 0x4014_0000_0000_0000,
        NumberHint::Six => 0x4018_0000_0000_0000,
        NumberHint::Seven => 0x401c_0000_0000_0000,
        NumberHint::Eight => 0x4020_0000_0000_0000,
        NumberHint::Nine => 0x4022_0000_0000_0000,
        NumberHint::Ten => 0x4024_0000_0000_0000,
        _ => 0,
    }
}

/// The number of bytes after an integer's header that hold it: 1, 4 or 8 for the size hints,
/// none for the values the hint holds itself.
pub open spec fn int_size(n: NumberHint) -> nat {
    match n {
        NumberHint::Size8 => 1,
        NumberHint::Size32 => 4,
        NumberHint::Size64 => 8,
        _ => 0,
    }
}

/// The value that a header alone gives, as an item of an array of headers: `None` where that
/// panics (a big integer, or a number given by its size rather than its value).
pub open spec fn spec_header_value(h: Header) -> Option<ValueView> {
    match h {
        Header::Null => Some(ValueView::Null),
        Header::Bool(b) => Some(ValueView::Bool(b)),
        Header::Int(n) => if number_hint_code(n) <= 10 {
            Some(ValueView::Int(number_hint_code(n) as i64))
        } else {
            None
        },
        Header::IntBig(..) => None,
        Header::Float(n) => if number_hint_code(n) <= 10 {
            Some(ValueView::Float(hint_float_bits(n)))
        } else {
            None
        },
        Header::Str(_) => Some(ValueView::Str(Seq::empty())),
        Header::Object(_) => Some(ValueView::Object(Seq::empty())),
        _ => Some(ValueView::Array(Seq::empty())),
    }
}

/// The values of the header bytes `t` from the `k`-th on, the array's bytes ending at `end`.
pub open spec fn spec_header_values(t: Seq<u8>, end: int, k: int, acc: Seq<ValueView>) -> Decoded<Seq<ValueView>>
    decreases t.len() - k,
{
    if k >= t.len() {
        Decoded::Done(acc, end)
    } else {
        match spec_header_of(t[k]) {
            Err(error_type) => Decoded::Fail(DecodeError { index: end as usize, error_type }),
            Ok(h) => match spec_header_value(h) {
                None => Decoded::Panic,
                Some(v) => spec_header_values(t, end, k + 1, acc.push(v)),
            },
        }
    }
}

/// Decoding the value at `index` of `s`.
pub open spec fn spec_take_value(s: Seq<u8>, index: int) -> Decoded<ValueView>
    decreases s.len() - index, 0int,
{
    match spec_read_header(s, index) {
        Err(e) => Decoded::Fail(e),
        Ok((h, i1)) => match h {
            Header::Null => Decoded::Done(ValueView::Null, i1),
            Header::Bool(b) => Decoded::Done(ValueView::Bool(b), i1),
            Header::Int(n) => if int_size(n) == 0 {
                Decoded::Done(ValueView::Int(number_hint_code(n) as i64), i1)
            } else {
                match spec_take_slice(s, i1, int_size(n) as int) {
                    Ok(t) => Decoded::Done(
                        ValueView::Int(twos_complement(le_value(t), int_size(n)) as i64),
                        i1 + int_size(n),
                    ),
                    Err(e) => Decoded::Fail(e),
                }
            },
            Header::IntBig(..) => Decoded::Panic,
            Header::Float(n) => if n == NumberHint::Size8 || n == NumberHint::Size32 {
                Decoded::Fail(
                    DecodeError {
                        index: i1 as usize,
                        error_type: DecodeErrorType::HeaderInvalid { value: number_hint_code(n), ty: "f64" },
                    },
                )
            } else if n == NumberHint::Size64 {
                match spec_take_slice(s, i1, 8) {
                    Ok(t) => Decoded::Done(ValueView::Float(le_value(t) as u64), i1 + 8),
                    Err(e) => Decoded::Fail(e),
                }
            } else {
                Decoded::Done(ValueView::Float(hint_float_bits(n)), i1)
            },
            Header::Str(l) => match spec_read_length(s, i1, l) {
                Err(e) => Decoded::Fail(e),
                Ok((len, i2)) => if len == 0 {
                    Decoded::Done(ValueView::Str(Seq::empty()), i2)
                } else {
                    match spec_take_slice(s, i2, len) {
                        Err(e) => Decoded::Fail(e),
                        Ok(t) => if valid_utf8(t) {
                            Decoded::Done(ValueView::Str(decode_utf8(t)), i2 + len)
                        } else {
                            Decoded::BadUtf8(i2)
                        },
                    }
                },
            },
            Header::Object(l) => match spec_object_header(s, i1, l) {
                Err(e) => Decoded::Fail(e),
                Ok((w, items, i2)) => if i2 <= index || i2 > s.len() {
                    Decoded::Panic
                } else {
                    match spec_take_entries(s, i2, w, items, items.len() as int, Seq::empty()) {
                        Decoded::Done(es, e) => Decoded::Done(ValueView::Object(es), e),
                        Decoded::Fail(e) => Decoded::Fail(e),
                        Decoded::BadUtf8(x) => Decoded::BadUtf8(x),
                        Decoded::Panic => Decoded::Panic,
                    }
                },
            },
            Header::HetArray(l) => match spec_het_header(s, i1, l) {
                Err(e) => Decoded::Fail(e),
                Ok((offsets, i2)) => if i2 <= index || i2 > s.len() {
                    Decoded::Panic
                } else {
                    match spec_take_items(s, i2, offsets.len() as int, Seq::empty()) {
                        Decoded::Done(vs, e) => Decoded::Done(ValueView::Array(vs), e),
                        Decoded::Fail(e) => Decoded::Fail(e),
                        Decoded::BadUtf8(x) => Decoded::BadUtf8(x),
                        Decoded::Panic => Decoded::Panic,
                    }
                },
            },
            Header::U8Array(l) => match spec_u8_array(s, i1, l) {
                Err(e) => Decoded::Fail(e),
                Ok((t, i2)) => Decoded::Done(
                    ValueView::Array(t.map_values(|b: u8| ValueView::Int(b as i64))),
                    i2,
                ),
            },
            Header::HeaderArray(l) => match spec_u8_array(s, i1, l) {
                Err(e) => Decoded::Fail(e),
                Ok((t, i2)) => match spec_header_values(t, i2, 0, Seq::empty()) {
                    Decoded::Done(vs, e) => Decoded::Done(ValueView::Array(vs), e),
                    Decoded::Fail(e) => Decoded::Fail(e),
                    Decoded::BadUtf8(x) => Decoded::BadUtf8(x),
                    Decoded::Panic => Decoded::Panic,
                },
            },
            Header::I64Array(l) => match spec_i64_array(s, i1, l) {
                Err(e) => Decoded::Fail(e),
                Ok((xs, i2)) => Decoded::Done(
                    ValueView::Array(xs.map_values(|x: int| ValueView::Int(x as i64))),
                    i2,
                ),
            },
        },
    }
}

/// Decoding `k` more values from `index`, after those in `acc`.
pub open spec fn spec_take_items(s: Seq<u8>, index: int, k: int, acc: Seq<ValueView>) -> Decoded<Seq<ValueView>>
    decreases s.len() - index, 1 + k,
{
    if k <= 0 {
        Decoded::Done(acc, index)
    } else {
        match spec_take_value(s, index) {
            Decoded::Done(v, i2) => if i2 <= index || i2 > s.len() {
                Decoded::Panic
            } else {
                spec_take_items(s, i2, k - 1, acc.push(v))
            },
            Decoded::Fail(e) => Decoded::Fail(e),
            Decoded::BadUtf8(x) => Decoded::BadUtf8(x),
            Decoded::Panic => Decoded::Panic,
        }
    }
}

/// Decoding `k` more entries of an object from `index`, after those in `acc`: each a header
/// index of `w` bytes, the key that the super header item there gives the length of, and the
/// value.
pub open spec fn spec_take_entries(
    s: Seq<u8>,
    index: int,
    w: nat,
    items: Seq<(int, int, int)>,
    k: int,
    acc: Seq<(Seq<char>, ValueView)>,
) -> Decoded<Seq<(Seq<char>, ValueView)>>
    decreases s.len() - index, 1 + k,
{
    if k <= 0 {
        Decoded::Done(acc, index)
    } else {
        match spec_take_slice(s, index, w as int) {
            Err(e) => Decoded::Fail(e),
            Ok(t) => {
                let idx = le_value(t);
                let i1 = index + w;
                if idx >= items.len() {
                    Decoded::Fail(
                        DecodeError { index: i1 as usize, error_type: DecodeErrorType::ObjectBodyIndexInvalid },
                    )
                } else {
                    let kl = items[idx as int].0;
                    match spec_take_slice(s, i1, kl) {
                        Err(e) => Decoded::Fail(e),
                        Ok(kt) => if !valid_utf8(kt) {
                            Decoded::BadUtf8(i1)
                        } else if w == 0 || kl < 0 {
                            Decoded::Panic
                        } else {
                            match spec_take_value(s, i1 + kl) {
                                Decoded::Done(v, i3) => if i3 <= index || i3 > s.len() {
                                    Decoded::Panic
                                } else {
                                    spec_take_entries(s, i3, w, items, k - 1, acc.push((decode_utf8(kt), v)))
                                },
                                Decoded::Fail(e) => Decoded::Fail(e),
                                Decoded::BadUtf8(x) => Decoded::BadUtf8(x),
                                Decoded::Panic => Decoded::Panic,
                            }
                        },
                    }
                }
            },
        }
    }
}

/// Whether the table after a header with length `l` has fields of two or four bytes, which are
/// read from memory as numbers.
pub open spec fn wide(l: Length) -> bool {
    l == Length::U16 || l == Length::U32
}

/// Whether decoding the value at `index` of `s` reads memory as numbers: an `i64` array, or an
/// array of mixed values or an object with a wide table, at the value or within it, reached
/// before decoding ends.
pub open spec fn casts_value(s: Seq<u8>, index: int) -> bool
    decreases s.len() - index, 0int,
{
    match spec_read_header(s, index) {
        Err(_) => false,
        Ok((h, i1)) => match h {
            Header::I64Array(_) => true,
            Header::Object(l) => wide(l) || match spec_object_header(s, i1, l) {
                Ok((w, items, i2)) => index < i2 <= s.len() && casts_entries(s, i2, w, items, items.len() as int),
                Err(_) => false,
            },
            Header::HetArray(l) => wide(l) || match spec_het_header(s, i1, l) {
                Ok((offsets, i2)) => index < i2 <= s.len() && casts_items(s, i2, offsets.len() as int),
                Err(_) => false,
            },
            _ => false,
        },
    }
}

/// Whether decoding `k` more values from `index` reads memory as numbers.
pub open spec fn casts_items(s: Seq<u8>, index: int, k: int) -> bool
    decreases s.len() - index, 1 + k,
{
    k > 0 && (casts_value(s, index) || match spec_take_value(s, index) {
        Decoded::Done(_, i2) => index < i2 <= s.len() && casts_items(s, i2, k - 1),
        _ => false,
    })
}

/// Whether decoding `k` more entries of an object from `index` reads memory as numbers.
pub open spec fn casts_entries(s: Seq<u8>, index: int, w: nat, items: Seq<(int, int, int)>, k: int) -> bool
    decreases s.len() - index, 1 + k,
{
    k > 0 && match spec_take_slice(s, index, w as int) {
        Ok(t) => {
            let idx = le_value(t);
            let i1 = index + w;
            idx < items.len() && {
                let kl = items[idx as int].0;
                match spec_take_slice(s, i1, kl) {
                    Ok(kt) => valid_utf8(kt) && w > 0 && kl >= 0 && (casts_value(s, i1 + kl) || match spec_take_value(
                        s,
                        i1 + kl,
                    ) {
                        Decoded::Done(_, i3) => index < i3 <= s.len() && casts_entries(s, i3, w, items, k - 1),
                        _ => false,
                    }),
                    Err(_) => false,
                }
            }
        },
        Err(_) => false,
    }
}

/// Whether `r` is what decoding gives by `o`, ending at `end`, the views of results taken by
/// `view`; or, where decoding reads memory as numbers (`cast`), an error from that read, which
/// depends on where the bytes lie.
pub open spec fn decoded_as<T, V>(r: DecodeResult<T>, o: Decoded<V>, end: int, view: spec_fn(T) -> V, cast: bool) -> bool {
    (cast && (r matches Err(e) && e.error_type is PodCastError)) || match o {
        Decoded::Done(v, e) => r matches Ok(x) && view(x) == v && end == e,
        Decoded::Fail(e) => r == Err::<T, DecodeError>(e),
        Decoded::BadUtf8(i) => r matches Err(e) && e.index == i && e.error_type is Utf8Error,
        Decoded::Panic => false,
    }
}

/// A reader of batson bytes.
#[derive(Debug, Clone)]
pub struct Decoder<'b> {
    pub bytes: &'b [u8],
    pub index: usize,
}

/// Reading `size` bytes at `index`: the bytes, or `EOF` at `index`.
pub open spec fn spec_take_slice(s: Seq<u8>, index: int, size: int) -> Result<Seq<u8>, DecodeError> {
    if index + size <= s.len() {
        Ok(s.subrange(index, index + size))
    } else {
        Err(DecodeError { index: index as usize, error_type: DecodeErrorType::EOF })
    }
}

impl<'b> Decoder<'b> {
    /// The bytes being read.
    pub open spec fn spec_bytes(&self) -> Seq<u8> {
        self.bytes@
    }

    /// The bytes fit in an `isize`.
    pub open spec fn wf(&self) -> bool {
        self.spec_bytes().len() <= isize::MAX
    }

    /// A reader at the start of `bytes`.
    pub fn new(bytes: &'b [u8]) -> (r: Self)
        requires
            bytes.len() <= isize::MAX,
        ensures
            r.wf(),
            r.spec_bytes() == bytes@,
            r.index == 0,
    {
        Decoder { bytes, index: 0 }
    }

    /// The error `error_type` at the current position.
    pub fn error(&self, error_type: DecodeErrorType) -> (r: DecodeError)
        ensures
            r == (DecodeError { index: self.index, error_type }),
    {
        DecodeError::new(self.index, error_type)
    }

    /// The end-of-input error at the current position.
    pub fn eof(&self) -> (r: DecodeError)
        ensures
            r == (DecodeError { index: self.index, error_type: DecodeErrorType::EOF }),
    {
        self.error(DecodeErrorType::EOF)
    }

    /// The next byte, if there is one, moving past it.
    pub fn next_byte(&mut self) -> (r: Option<u8>)
        requires
            old(self).wf(),
        ensures
            final(self).wf(),
            final(self).spec_bytes() == old(self).spec_bytes(),
            old(self).index < old(self).spec_bytes().len() ==> r == Some(
                old(self).spec_bytes()[old(self).index as int],
            ) && final(self).index == old(self).index + 1,
            old(self).index >= old(self).spec_bytes().len() ==> r is None && final(self).index
                == old(self).index,
    {
        if self.index < self.bytes.len() {
            let b = self.bytes[self.index];
            self.index += 1;
            Some(b)
        } else {
            None
        }
    }

    /// Take the next `size` bytes.
    pub fn take_slice(&mut self, size: usize) -> (r: DecodeResult<&'b [u8]>)
        requires
            old(self).wf(),
        ensures
            final(self).wf(),
            final(self).spec_bytes() == old(self).spec_bytes(),
            match spec_take_slice(old(self).spec_bytes(), old(self).index as int, size as int) {
                Ok(t) => r matches Ok(v) && v@ == t && final(self).index == old(self).index + size,
                Err(e) => r == Err::<&[u8], DecodeError>(e) && final(self).index == old(
                    self,
                ).index,
            },
    {
        if self.index <= self.bytes.len() && size <= self.bytes.len() - self.index {
            let end = self.index + size;
            let s = &self.bytes[self.index..end];
            self.index = end;
            Ok(s)
        } else {
            Err(self.eof())
        }
    }

    /// Move up to the next multiple of the alignment of `T`.
    pub fn align<T>(&mut self)
        requires
            old(self).index + vstd::layout::align_of::<T>() <= usize::MAX,
        ensures
            final(self).bytes == old(self).bytes,
            final(self).index == align_up(old(self).index as int, vstd::layout::align_of::<T>() as int),
    {
        vstd::layout::layout_for_type_is_valid::<T>();
        let align = core::mem::align_of::<T>();
        let rem = self.index % align;
        if rem != 0 {
            self.index = self.index + (align - rem);
        }
    }

    /// Align to `T`, then the next `length` items of `size` bytes, without moving past them.
    pub fn aligned_bytes<T>(&mut self, length: usize, size: usize) -> (r: DecodeResult<&'b [u8]>)
        requires
            old(self).wf(),
            old(self).index <= old(self).spec_bytes().len(),
            0 < size <= 16,
            vstd::layout::align_of::<T>() <= size,
        ensures
            final(self).wf(),
            final(self).spec_bytes() == old(self).spec_bytes(),
            final(self).index == align_up(old(self).index as int, vstd::layout::align_of::<T>() as int),
            match spec_take_aligned(
                old(self).spec_bytes(),
                old(self).index as int,
                vstd::layout::align_of::<T>() as int,
                length * size,
            ) {
                Ok(t) => r matches Ok(v) && v@ == t,
                Err(e) => r == Err::<&[u8], DecodeError>(e),
            },
    {
        self.align::<T>();
        if self.index <= self.bytes.len() && length <= (self.bytes.len() - self.index) / size {
            proof {
                let rest: int = (self.bytes.len() - self.index) as int;
                let sz: int = size as int;
                let q: int = rest / sz;
                let l: int = length as int;
                vstd::arithmetic::div_mod::lemma_fundamental_div_mod(rest, sz);
                assert(l * sz <= rest) by (nonlinear_arith)
                    requires
                        l <= q,
                        rest == sz * q + rest % sz,
                        rest % sz >= 0,
                        sz > 0;
            }
            let end = self.index + length * size;
            Ok(&self.bytes[self.index..end])
        } else {
            proof {
                if self.index <= self.bytes.len() {
                    let rest: int = (self.bytes.len() - self.index) as int;
                    let sz: int = size as int;
                    let q: int = rest / sz;
                    let m: int = rest % sz;
                    let l: int = length as int;
                    vstd::arithmetic::div_mod::lemma_fundamental_div_mod(rest, sz);
                    assert(l * sz > rest) by (nonlinear_arith)
                        requires
                            l > q,
                            rest == sz * q + m,
                            m < sz,
                            sz > 0;
                }
            }
            Err(self.eof())
        }
    }

    /// Align to `u16` and take the next `length` of them.
    pub fn take_u16s(&mut self, length: usize) -> (r: DecodeResult<&'b [u16]>)
        requires
            old(self).wf(),
            old(self).index <= old(self).spec_bytes().len(),
        ensures
            final(self).wf(),
            final(self).spec_bytes() == old(self).spec_bytes(),
            ({
                let a = align_up(old(self).index as int, vstd::layout::align_of::<u16>() as int);
                match spec_take_slice(old(self).spec_bytes(), a, length * 2) {
                    Ok(t) => (r matches Ok(v) && v@.map_values(|x: u16| x as int) == le_words(t, 2)
                        && final(self).index == a + length * 2) || (r matches Err(e) && e.index == a
                        && e.error_type is PodCastError && final(self).index == a),
                    Err(e) => r == Err::<&[u16], DecodeError>(e) && final(self).index == a,
                }
            }),
    {
        proof {
            broadcast use vstd::layout::layout_of_primitives;
            lemma_align_le_size::<u16>();
        }
        let s = match self.aligned_bytes::<u16>(length, 2) {
            Ok(s) => s,
            Err(e) => return Err(e),
        };
        match bytes_as_u16s(s) {
            Ok(v) => {
                self.index = self.index + s.len();
                Ok(v)
            },
            Err(e) => Err(self.error(DecodeErrorType::PodCastError(e))),
        }
    }

    /// Align to `u32` and take the next `length` of them.
    pub fn take_u32s(&mut self, length: usize) -> (r: DecodeResult<&'b [u32]>)
        requires
            old(self).wf(),
            old(self).index <= old(self).spec_bytes().len(),
        ensures
            final(self).wf(),
            final(self).spec_bytes() == old(self).spec_bytes(),
            ({
                let a = align_up(old(self).index as int, vstd::layout::align_of::<u32>() as int);
                match spec_take_slice(old(self).spec_bytes(), a, length * 4) {
                    Ok(t) => (r matches Ok(v) && v@.map_values(|x: u32| x as int) == le_words(t, 4)
                        && final(self).index == a + length * 4) || (r matches Err(e) && e.index == a
                        && e.error_type is PodCastError && final(self).index == a),
                    Err(e) => r == Err::<&[u32], DecodeError>(e) && final(self).index == a,
                }
            }),
    {
        proof {
            broadcast use vstd::layout::layout_of_primitives;
            lemma_align_le_size::<u32>();
        }
        let s = match self.aligned_bytes::<u32>(length, 4) {
            Ok(s) => s,
            Err(e) => return Err(e),
        };
        match bytes_as_u32s(s) {
            Ok(v) => {
                self.index = self.index + s.len();
                Ok(v)
            },
            Err(e) => Err(self.error(DecodeErrorType::PodCastError(e))),
        }
    }

    /// Align to `i64` and take the next `length` of them.
    pub fn take_i64s(&mut self, length: usize) -> (r: DecodeResult<&'b [i64]>)
        requires
            old(self).wf(),
            old(self).index <= old(self).spec_bytes().len(),
        ensures
            final(self).wf(),
            final(self).spec_bytes() == old(self).spec_bytes(),
            ({
                let a = align_up(old(self).index as int, vstd::layout::align_of::<i64>() as int);
                match spec_take_slice(old(self).spec_bytes(), a, length * 8) {
                    Ok(t) => (r matches Ok(v) && v@.map_values(|x: i64| x as int) == le_i64_words(t)
                        && final(self).index == a + length * 8) || (r matches Err(e) && e.index == a
                        && e.error_type is PodCastError && final(self).index == a),
                    Err(e) => r == Err::<&[i64], DecodeError>(e) && final(self).index == a,
                }
            }),
    {
        proof {
            broadcast use vstd::layout::layout_of_primitives;
            lemma_align_le_size::<i64>();
        }
        let s = match self.aligned_bytes::<i64>(length, 8) {
            Ok(s) => s,
            Err(e) => return Err(e),
        };
        match bytes_as_i64s(s) {
            Ok(v) => {
                self.index = self.index + s.len();
                Ok(v)
            },
            Err(e) => Err(self.error(DecodeErrorType::PodCastError(e))),
        }
    }

    /// Take the next eight bytes as the bits of a little-endian binary64 float.
    pub fn take_f64(&mut self) -> (r: DecodeResult<u64>)
        requires
            old(self).wf(),
        ensures
            final(self).wf(),
            final(self).spec_bytes() == old(self).spec_bytes(),
            match spec_take_slice(old(self).spec_bytes(), old(self).index as int, 8) {
                Ok(t) => r == Ok::<u64, DecodeError>(le_value(t) as u64) && final(self).index == old(self).index + 8,
                Err(e) => r == Err::<u64, DecodeError>(e) && final(self).index == old(self).index,
            },
    {
        self.take_le(8)
    }

    /// Decode a string whose header has the length `length`: the length, then its UTF-8 bytes.
    pub fn decode_str(&mut self, length: crate::batson::header::Length) -> (r: DecodeResult<&'b str>)
        requires
            old(self).wf(),
        ensures
            final(self).wf(),
            final(self).spec_bytes() == old(self).spec_bytes(),
            match spec_read_length(old(self).spec_bytes(), old(self).index as int, length) {
                Err(e) => r == Err::<&str, DecodeError>(e),
                Ok((len, i2)) => if len == 0 {
                    r matches Ok(v) && v@ == Seq::<char>::empty() && final(self).index == i2
                } else {
                    match spec_take_slice(old(self).spec_bytes(), i2, len) {
                        Err(e) => r == Err::<&str, DecodeError>(e),
                        Ok(t) => if valid_utf8(t) {
                            r matches Ok(v) && v.spec_bytes() == t && final(self).index == i2 + len
                        } else {
                            r matches Err(e) && e.index == i2 && e.error_type is Utf8Error
                        },
                    }
                },
            },
    {
        let len = match length.decode(self) {
            Ok(n) => n,
            Err(e) => return Err(e),
        };
        if len == 0 {
            let empty = "";
            proof {
                reveal_strlit("");
            }
            Ok(empty)
        } else {
            self.take_str(len)
        }
    }

    /// Decode bytes whose header has the length `length`: the length, then the bytes.
    pub fn decode_bytes(&mut self, length: crate::batson::header::Length) -> (r: DecodeResult<&'b [u8]>)
        requires
            old(self).wf(),
        ensures
            final(self).wf(),
            final(self).spec_bytes() == old(self).spec_bytes(),
            match spec_read_length(old(self).spec_bytes(), old(self).index as int, length) {
                Err(e) => r == Err::<&[u8], DecodeError>(e),
                Ok((len, i2)) => if len == 0 {
                    r matches Ok(v) && v@ == Seq::<u8>::empty() && final(self).index == i2
                } else {
                    match spec_take_slice(old(self).spec_bytes(), i2, len) {
                        Err(e) => r == Err::<&[u8], DecodeError>(e),
                        Ok(t) => r matches Ok(v) && v@ == t && final(self).index == i2 + len,
                    }
                },
            },
    {
        let len = match length.decode(self) {
            Ok(n) => n,
            Err(e) => return Err(e),
        };
        if len == 0 {
            let bytes: &'b [u8] = self.bytes;
            Ok(&bytes[0..0])
        } else {
            self.take_slice(len)
        }
    }

    /// Decode the value whose header is next.
    pub fn take_value(&mut self) -> (r: DecodeResult<JsonValue>)
        requires
            old(self).wf(),
            !(spec_take_value(old(self).spec_bytes(), old(self).index as int) is Panic),
        ensures
            final(self).wf(),
            final(self).spec_bytes() == old(self).spec_bytes(),
            decoded_as(
                r,
                spec_take_value(old(self).spec_bytes(), old(self).index as int),
                final(self).index as int,
                |v: JsonValue| json_view(v),
                casts_value(old(self).spec_bytes(), old(self).index as int),
            ),
            r is Ok ==> old(self).index < final(self).index <= final(self).spec_bytes().len(),
        decreases old(self).spec_bytes().len() - old(self).index, 0int,
    {
        let header = match self.take_header() {
            Ok(h) => h,
            Err(e) => return Err(e),
        };
        match header {
            Header::Null => Ok(JsonValue::Null),
            Header::Bool(b) => Ok(JsonValue::Bool(b)),
            Header::Int(n) => match n.decode_i64(self) {
                Ok(i) => Ok(JsonValue::Int(i)),
                Err(e) => Err(e),
            },
            Header::IntBig(..) => Err(self.eof()),
            Header::Float(n) => match n.decode_f64(self) {
                Ok(b) => Ok(JsonValue::Float(b)),
                Err(e) => Err(e),
            },
            Header::Str(length) => match self.decode_str(length) {
                Ok(s) => {
                    let owned = s.to_owned();
                    proof {
                        vstd::utf8::encode_utf8_decode_utf8(s@);
                    }
                    Ok(JsonValue::Str(owned))
                },
                Err(e) => Err(e),
            },
            Header::Object(length) => {
                let obj = match Object::decode_header(self, length) {
                    Ok(o) => o,
                    Err(e) => return Err(e),
                };
                match obj.to_json(self) {
                    Ok(entries) => Ok(JsonValue::Object(entries)),
                    Err(e) => Err(e),
                }
            },
            Header::HetArray(length) => {
                let het = match HetArray::decode_header(self, length) {
                    Ok(h) => h,
                    Err(e) => return Err(e),
                };
                match het.to_value(self) {
                    Ok(items) => Ok(JsonValue::Array(items)),
                    Err(e) => Err(e),
                }
            },
            Header::U8Array(length) => match u8_array_to_json(self, length) {
                Ok(items) => Ok(JsonValue::Array(items)),
                Err(e) => Err(e),
            },
            Header::HeaderArray(length) => match header_array_to_json(self, length) {
                Ok(items) => Ok(JsonValue::Array(items)),
                Err(e) => Err(e),
            },
            Header::I64Array(length) => match i64_array_to_json(self, length) {
                Ok(items) => Ok(JsonValue::Array(items)),
                Err(e) => Err(e),
            },
        }
    }

    /// Take the next byte.
    pub fn take_u8(&mut self) -> (r: DecodeResult<u8>)
        requires
            old(self).wf(),
        ensures
            final(self).wf(),
            final(self).spec_bytes() == old(self).spec_bytes(),
            match spec_take_slice(old(self).spec_bytes(), old(self).index as int, 1) {
                Ok(t) => r == Ok::<u8, DecodeError>(t[0]) && le_value(t) == t[0] && final(self).index
                    == old(self).index + 1,
                Err(e) => r == Err::<u8, DecodeError>(e) && final(self).index == old(self).index,
            },
    {
        proof {
            reveal_with_fuel(le_value, 2);
        }
        match self.next_byte() {
            Some(b) => {
                proof {
                    let t = self.spec_bytes().subrange(self.index - 1, self.index as int);
                    assert(t.drop_first().len() == 0);
                }
                Ok(b)
            },
            None => Err(self.eof()),
        }
    }

    /// Take the next `n` bytes, `n` at most 8, as a little-endian unsigned value.
    fn take_le(&mut self, n: usize) -> (r: DecodeResult<u64>)
        requires
            old(self).wf(),
            n <= 8,
        ensures
            final(self).wf(),
            final(self).spec_bytes() == old(self).spec_bytes(),
            match spec_take_slice(old(self).spec_bytes(), old(self).index as int, n as int) {
                Ok(t) => r == Ok::<u64, DecodeError>(le_value(t) as u64) && le_value(t)
                    < pow256(n as nat) && final(self).index == old(self).index + n,
                Err(e) => r == Err::<u64, DecodeError>(e) && final(self).index == old(self).index,
            },
    {
        let s = match self.take_slice(n) {
            Ok(s) => s,
            Err(e) => return Err(e),
        };
        proof {
            reveal_with_fuel(pow256, 9);
            lemma_le_value_bound(s@);
        }
        let mut v: u64 = 0;
        let mut k: usize = n;
        while k > 0
            invariant
                k <= n <= 8,
                s@.len() == n,
                v == le_value(s@.subrange(k as int, n as int)),
                v < pow256((n - k) as nat),
                pow256(8) == 0x1_0000_0000_0000_0000,
            decreases k,
        {
            proof {
                lemma_pow256_mono((n - k + 1) as nat, 8);
                assert(s@.subrange(k - 1, n as int).drop_first() =~= s@.subrange(k as int, n as int));
            }
            v = v * 256 + s[k - 1] as u64;
            k -= 1;
        }
        assert(s@.subrange(0, n as int) =~= s@);
        Ok(v)
    }

    /// Take the next two bytes as a little-endian `u16`.
    pub fn take_u16(&mut self) -> (r: DecodeResult<u16>)
        requires
            old(self).wf(),
        ensures
            final(self).wf(),
            final(self).spec_bytes() == old(self).spec_bytes(),
            match spec_take_slice(old(self).spec_bytes(), old(self).index as int, 2) {
                Ok(t) => (r matches Ok(v) && v as int == le_value(t)) && final(self).index == old(
                    self,
                ).index + 2,
                Err(e) => r == Err::<u16, DecodeError>(e) && final(self).index == old(self).index,
            },
    {
        match self.take_le(2) {
            Ok(v) => {
                proof {
                    reveal_with_fuel(pow256, 3);
                }
                Ok(v as u16)
            },
            Err(e) => Err(e),
        }
    }

    /// Take the next four bytes as a little-endian `u32`.
    pub fn take_u32(&mut self) -> (r: DecodeResult<u32>)
        requires
            old(self).wf(),
        ensures
            final(self).wf(),
            final(self).spec_bytes() == old(self).spec_bytes(),
            match spec_take_slice(old(self).spec_bytes(), old(self).index as int, 4) {
                Ok(t) => (r matches Ok(v) && v as int == le_value(t)) && final(self).index == old(
                    self,
                ).index + 4,
                Err(e) => r == Err::<u32, DecodeError>(e) && final(self).index == old(self).index,
            },
    {
        match self.take_le(4) {
            Ok(v) => {
                proof {
                    reveal_with_fuel(pow256, 5);
                }
                Ok(v as u32)
            },
            Err(e) => Err(e),
        }
    }

    /// Take the next byte as an `i8`.
    pub fn take_i8(&mut self) -> (r: DecodeResult<i8>)
        requires
            old(self).wf(),
        ensures
            final(self).wf(),
            final(self).spec_bytes() == old(self).spec_bytes(),
            match spec_take_slice(old(self).spec_bytes(), old(self).index as int, 1) {
                Ok(t) => (r matches Ok(v) && v as int == twos_complement(le_value(t), 1))
                    && final(self).index == old(self).index + 1,
                Err(e) => r == Err::<i8, DecodeError>(e) && final(self).index == old(self).index,
            },
    {
        match self.take_le(1) {
            Ok(v) => {
                proof {
                    reveal_with_fuel(pow256, 2);
                }
                if v < 0x80 {
                    Ok(v as i8)
                } else {
                    Ok((v as i16 - 0x100) as i8)
                }
            },
            Err(e) => Err(e),
        }
    }

    /// Take the next four bytes as a little-endian `i32`.
    pub fn take_i32(&mut self) -> (r: DecodeResult<i32>)
        requires
            old(self).wf(),
        ensures
            final(self).wf(),
            final(self).spec_bytes() == old(self).spec_bytes(),
            match spec_take_slice(old(self).spec_bytes(), old(self).index as int, 4) {
                Ok(t) => (r matches Ok(v) && v as int == twos_complement(le_value(t), 4))
                    && final(self).index == old(self).index + 4,
                Err(e) => r == Err::<i32, DecodeError>(e) && final(self).index == old(self).index,
            },
    {
        match self.take_le(4) {
            Ok(v) => {
                proof {
                    reveal_with_fuel(pow256, 5);
                }
                if v < 0x8000_0000 {
                    Ok(v as i32)
                } else {
                    Ok((v as i64 - 0x1_0000_0000) as i32)
                }
            },
            Err(e) => Err(e),
        }
    }

    /// Take the next eight bytes as a little-endian `i64`.
    pub fn take_i64(&mut self) -> (r: DecodeResult<i64>)
        requires
            old(self).wf(),
        ensures
            final(self).wf(),
            final(self).spec_bytes() == old(self).spec_bytes(),
            match spec_take_slice(old(self).spec_bytes(), old(self).index as int, 8) {
                Ok(t) => (r matches Ok(v) && v as int == twos_complement(le_value(t), 8))
                    && final(self).index == old(self).index + 8,
                Err(e) => r == Err::<i64, DecodeError>(e) && final(self).index == old(self).index,
            },
    {
        match self.take_le(8) {
            Ok(v) => {
                proof {
                    reveal_with_fuel(pow256, 9);
                }
                if v < 0x8000_0000_0000_0000 {
                    Ok(v as i64)
                } else {
                    Ok((v as i128 - 0x1_0000_0000_0000_0000) as i64)
                }
            },
            Err(e) => Err(e),
        }
    }

    /// Take the next `length` bytes as UTF-8 text.
    pub fn take_str(&mut self, length: usize) -> (r: DecodeResult<&'b str>)
        requires
            old(self).wf(),
        ensures
            final(self).wf(),
            final(self).spec_bytes() == old(self).spec_bytes(),
            match spec_take_slice(old(self).spec_bytes(), old(self).index as int, length as int) {
                Ok(t) => if valid_utf8(t) {
                    r matches Ok(v) && v.spec_bytes() == t && final(self).index == old(self).index
                        + length
                } else {
                    r matches Err(e) && e.index == old(self).index && e.error_type is Utf8Error
                        && final(self).index == old(self).index
                },
                Err(e) => r == Err::<&str, DecodeError>(e) && final(self).index == old(self).index,
            },
    {
        if !(self.index <= self.bytes.len() && length <= self.bytes.len() - self.index) {
            return Err(self.eof());
        }
        let end = self.index + length;
        let slice = &self.bytes[self.index..end];
        match simdutf8_from_utf8(slice) {
            Ok(s) => {
                self.index = end;
                Ok(s)
            },
            Err(e) => Err(DecodeError::from_utf8_error(self.index, e)),
        }
    }

    /// Take the header whose byte is next.
    pub fn take_header(&mut self) -> (r: DecodeResult<Header>)
        requires
            old(self).wf(),
        ensures
            match spec_read_header(old(self).spec_bytes(), old(self).index as int) {
                Ok((h, e)) => r == Ok::<Header, DecodeError>(h) && final(self).index == e,
                Err(e) => r == Err::<Header, DecodeError>(e),
            },
            final(self).wf(),
            final(self).spec_bytes() == old(self).spec_bytes(),
            match spec_take_slice(old(self).spec_bytes(), old(self).index as int, 1) {
                Ok(t) => final(self).index == old(self).index + 1 && match spec_header_of(t[0]) {
                    Ok(h) => r == Ok::<Header, DecodeError>(h),
                    Err(error_type) => r == Err::<Header, DecodeError>(
                        DecodeError { index: final(self).index, error_type },
                    ),
                },
                Err(e) => r == Err::<Header, DecodeError>(e) && final(self).index == old(self).index,
            },
    {
        match self.next_byte() {
            Some(byte) => Header::decode(byte, self),
            None => Err(self.eof()),
        }
    }
}

proof fn lemma_pow256_mono(a: nat, b: nat)
    requires
        a <= b,
    ensures
        pow256(a) <= pow256(b),
    decreases b - a,
{
    if a < b {
        lemma_pow256_mono(a, (b - 1) as nat);
    }
}

/// Checks that `input` is UTF-8 with `simdutf8::basic::from_utf8`; its documentation says it
/// returns the text when the bytes are valid UTF-8, and an error otherwise.
#[verifier::external_body]
fn simdutf8_from_utf8(input: &[u8]) -> (r: Result<&str, simdutf8::basic::Utf8Error>)
    ensures
        r is Ok <==> valid_utf8(input@),
        r matches Ok(s) ==> s.spec_bytes() == input@,
{
    simdutf8::basic::from_utf8(input)
}

} // verus!
