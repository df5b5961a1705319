//! Headers: the first byte of every batson value, its category in the high four bits and a
//! small value, a size hint or a length in the low four.
use vstd::prelude::*;

use crate::batson::decoder::{hint_float_bits, le_value, spec_header_value, spec_take_slice, Decoder};
use crate::value::{json_view, JsonValue, ValueView};
use crate::batson::errors::{DecodeError, DecodeErrorType, DecodeResult};

verus! {

/// The sign of a big integer.
#[derive(Debug, Copy, Clone, PartialEq, Eq)]
pub enum IntSign {
    Plus,
    Minus,
}

/// What a header byte says of the value that starts with it.
#[derive(Debug, Copy, Clone, PartialEq, Eq)]
pub enum Header {
    Null,
    Bool(bool),
    Int(NumberHint),
    IntBig(IntSign, Length),
    Float(NumberHint),
    Str(Length),
    Object(Length),
    HeaderArray(Length),
    U8Array(Length),
    I64Array(Length),
    HetArray(Length),
}

/// The category of a value: the high four bits of its header.
#[derive(Debug, Copy, Clone, PartialEq, Eq)]
pub enum Category {
    Primitive,
    Int,
    BigIntPos,
    BigIntNeg,
    Float,
    Str,
    Object,
    HeaderArray,
    U8Array,
    I64Array,
    HetArray,
}

/// The code of a category.
pub open spec fn category_code(c: Category) -> u8 {
    match c {
        Category::Primitive => 0,
        Category::Int => 1,
        Category::BigIntPos => 2,
        Category::BigIntNeg => 3,
        Category::Float => 4,
        Category::Str => 5,
        Category::Object => 6,
        Category::HeaderArray => 7,
        Category::U8Array => 8,
        Category::I64Array => 9,
        Category::HetArray => 10,
    }
}

/// The category with code `v`, if there is one.
pub open spec fn category_of(v: u8) -> Option<Category> {
    if v == 0 {
        Some(Category::Primitive)
    } else if v == 1 {
        Some(Category::Int)
    } else if v == 2 {
        Some(Category::BigIntPos)
    } else if v == 3 {
        Some(Category::BigIntNeg)
    } else if v == 4 {
        Some(Category::Float)
    } else if v == 5 {
        Some(Category::Str)
    } else if v == 6 {
        Some(Category::Object)
    } else if v == 7 {
        Some(Category::HeaderArray)
    } else if v == 8 {
        Some(Category::U8Array)
    } else if v == 9 {
        Some(Category::I64Array)
    } else if v == 10 {
        Some(Category::HetArray)
    } else {
        None
    }
}

/// `null`, `true` or `false`: the low four bits of a primitive's header.
#[derive(Debug, Copy, Clone, PartialEq, Eq)]
pub enum Primitive {
    Null,
    True,
    False,
}

/// The code of a primitive.
pub open spec fn primitive_code(p: Primitive) -> u8 {
    match p {
        Primitive::Null => 0,
        Primitive::True => 1,
        Primitive::False => 2,
    }
}

/// A number's value, zero to ten, or the size of the bytes that hold it.
#[derive(Debug, Copy, Clone, PartialEq, Eq)]
pub enum NumberHint {
    Zero,
    One,
    Two,
    Three,
    Four,
    Five,
    Six,
    Seven,
    Eight,
    Nine,
    Ten,
    Size8,
    Size32,
    Size64,
}

/// The code of a number hint: the value for zero to ten, then 11, 12 and 13 for the sizes.
pub open spec fn number_hint_code(n: NumberHint) -> u8 {
    match n {
        NumberHint::Zero => 0,
        NumberHint::One => 1,
        NumberHint::Two => 2,
        NumberHint::Three => 3,
        NumberHint::Four => 4,
        NumberHint::Five => 5,
        NumberHint::Six => 6,
        NumberHint::Seven => 7,
        NumberHint::Eight => 8,
        NumberHint::Nine => 9,
        NumberHint::Ten => 10,
        NumberHint::Size8 => 11,
        NumberHint::Size32 => 12,
        NumberHint::Size64 => 13,
    }
}

/// The number hint with code `v`, if there is one.
pub open spec fn number_hint_of(v: u8) -> Option<NumberHint> {
    if v == 0 {
        Some(NumberHint::Zero)
    } else if v == 1 {
        Some(NumberHint::One)
    } else if v == 2 {
        Some(NumberHint::Two)
    } else if v == 3 {
        Some(NumberHint::Three)
    } else if v == 4 {
        Some(NumberHint::Four)
    } else if v == 5 {
        Some(NumberHint::Five)
    } else if v == 6 {
        Some(NumberHint::Six)
    } else if v == 7 {
        Some(NumberHint::Seven)
    } else if v == 8 {
        Some(NumberHint::Eight)
    } else if v == 9 {
        Some(NumberHint::Nine)
    } else if v == 10 {
        Some(NumberHint::Ten)
    } else if v == 11 {
        Some(NumberHint::Size8)
    } else if v == 12 {
        Some(NumberHint::Size32)
    } else if v == 13 {
        Some(NumberHint::Size64)
    } else {
        None
    }
}

/// The hint of a float that its header alone holds, from the bits of its binary64 value: the
/// whole numbers zero (of either sign) to ten.
pub open spec fn float_hint(bits: u64) -> Option<NumberHint> {
    if bits == 0 || bits == 0x8000_0000_0000_0000 {
        Some(NumberHint::Zero)
    } else if bits == 0x3ff0_0000_0000_0000 {
        Some(NumberHint::One)
    } else if bits == 0x4000_0000_0000_0000 {
        Some(NumberHint::Two)
    } else if bits == 0x4008_0000_0000_0000 {
        Some(NumberHint::Three)
    } else if bits == 0x4010_0000_0000_0000 {
        Some(NumberHint::Four)
    } else if bits == 0x4014_0000_0000_0000 {
        Some(NumberHint::Five)
    } else if bits == 0x4018_0000_0000_0000 {
        Some(NumberHint::Six)
    } else if bits == 0x401c_0000_0000_0000 {
        Some(NumberHint::Seven)
    } else if bits == 0x4020_0000_0000_0000 {
        Some(NumberHint::Eight)
    } else if bits == 0x4022_0000_0000_0000 {
        Some(NumberHint::Nine)
    } else if bits == 0x4024_0000_0000_0000 {
        Some(NumberHint::Ten)
    } else {
        None
    }
}

/// A string's, object's or array's length, zero to ten, or the size of the bytes that hold it.
#[derive(Debug, Copy, Clone, PartialEq, Eq)]
pub enum Length {
    Empty,
    One,
    Two,
    Three,
    Four,
    Five,
    Six,
    Seven,
    Eight,
    Nine,
    Ten,
    U8,
    U16,
    U32,
}

/// The code of a length: the length for zero to ten, then 11, 12 and 13 for the sizes.
pub open spec fn length_code(l: Length) -> u8 {
    match l {
        Length::Empty => 0,
        Length::One => 1,
        Length::Two => 2,
        Length::Three => 3,
        Length::Four => 4,
        Length::Five => 5,
        Length::Six => 6,
        Length::Seven => 7,
        Length::Eight => 8,
        Length::Nine => 9,
        Length::Ten => 10,
        Length::U8 => 11,
        Length::U16 => 12,
        Length::U32 => 13,
    }
}

/// The length with code `v`, if there is one.
pub open spec fn length_of(v: u8) -> Option<Length> {
    if v == 0 {
        Some(Length::Empty)
    } else if v == 1 {
        Some(Length::One)
    } else if v == 2 {
        Some(Length::Two)
    } else if v == 3 {
        Some(Length::Three)
    } else if v == 4 {
        Some(Length::Four)
    } else if v == 5 {
        Some(Length::Five)
    } else if v == 6 {
        Some(Length::Six)
    } else if v == 7 {
        Some(Length::Seven)
    } else if v == 8 {
        Some(Length::Eight)
    } else if v == 9 {
        Some(Length::Nine)
    } else if v == 10 {
        Some(Length::Ten)
    } else if v == 11 {
        Some(Length::U8)
    } else if v == 12 {
        Some(Length::U16)
    } else if v == 13 {
        Some(Length::U32)
    } else {
        None
    }
}

/// What the header byte `byte` says: the header, or the error its category or low bits raise.
pub open spec fn spec_header_of(byte: u8) -> Result<Header, DecodeErrorType> {
    let left = byte / 16;
    let right = byte % 16;
    match category_of(left) {
        None => Err(DecodeErrorType::HeaderInvalid { value: left, ty: "Category" }),
        Some(Category::Primitive) => if right == 0 {
            Ok(Header::Null)
        } else if right == 1 {
            Ok(Header::Bool(true))
        } else if right == 2 {
            Ok(Header::Bool(false))
        } else {
            Err(DecodeErrorType::HeaderInvalid { value: right, ty: "Primitive" })
        },
        Some(Category::Int) => match number_hint_of(right) {
            Some(n) => Ok(Header::Int(n)),
            None => Err(DecodeErrorType::HeaderInvalid { value: right, ty: "NumberHint" }),
        },
        Some(Category::Float) => match number_hint_of(right) {
            Some(n) => Ok(Header::Float(n)),
            None => Err(DecodeErrorType::HeaderInvalid { value: right, ty: "NumberHint" }),
        },
        Some(c) => match length_of(right) {
            None => Err(DecodeErrorType::HeaderInvalid { value: right, ty: "Length" }),
            Some(l) => Ok(
                match c {
                    Category::BigIntPos => Header::IntBig(IntSign::Plus, l),
                    Category::BigIntNeg => Header::IntBig(IntSign::Minus, l),
                    Category::Str => Header::Str(l),
                    Category::Object => Header::Object(l),
                    Category::HeaderArray => Header::HeaderArray(l),
                    Category::U8Array => Header::U8Array(l),
                    Category::I64Array => Header::I64Array(l),
                    _ => Header::HetArray(l),
                },
            ),
        },
    }
}

impl Category {
    /// The category with code `value`, or an error at the decoder's position.
    fn from_u8(value: u8, d: &Decoder) -> (r: DecodeResult<Category>)
        ensures
            match category_of(value) {
                Some(c) => r == Ok::<Category, DecodeError>(c),
                None => r == Err::<Category, DecodeError>(
                    DecodeError {
                        index: d.index,
                        error_type: DecodeErrorType::HeaderInvalid { value, ty: "Category" },
                    },
                ),
            },
    {
        if value == 0 {
            Ok(Category::Primitive)
        } else if value == 1 {
            Ok(Category::Int)
        } else if value == 2 {
            Ok(Category::BigIntPos)
        } else if value == 3 {
            Ok(Category::BigIntNeg)
        } else if value == 4 {
            Ok(Category::Float)
        } else if value == 5 {
            Ok(Category::Str)
        } else if value == 6 {
            Ok(Category::Object)
        } else if value == 7 {
            Ok(Category::HeaderArray)
        } else if value == 8 {
            Ok(Category::U8Array)
        } else if value == 9 {
            Ok(Category::I64Array)
        } else if value == 10 {
            Ok(Category::HetArray)
        } else {
            Err(d.error(DecodeErrorType::HeaderInvalid { value, ty: "Category" }))
        }
    }

    /// The code of this category.
    pub fn code(self) -> (r: u8)
        ensures
            r == category_code(self),
    {
        match self {
            Category::Primitive => 0,
            Category::Int => 1,
            Category::BigIntPos => 2,
            Category::BigIntNeg => 3,
            Category::Float => 4,
            Category::Str => 5,
            Category::Object => 6,
            Category::HeaderArray => 7,
            Category::U8Array => 8,
            Category::I64Array => 9,
            Category::HetArray => 10,
        }
    }

    /// The header byte of this category with `right` in its low bits.
    pub fn encode_with(self, right: u8) -> (r: u8)
        ensures
            r == ((category_code(self) << 4u8) | right),
            right < 16 ==> r == category_code(self) * 16 + right,
    {
        let left = self.code();
        assert(left <= 10 && right < 16 ==> ((left << 4u8) | right) == left * 16 + right)
            by (bit_vector);
        (left << 4u8) | right
    }
}

impl Primitive {
    /// The code of this primitive.
    pub fn code(self) -> (r: u8)
        ensures
            r == primitive_code(self),
    {
        match self {
            Primitive::Null => 0,
            Primitive::True => 1,
            Primitive::False => 2,
        }
    }

    /// The primitive for a boolean.
    pub fn from_bool(value: bool) -> (r: Primitive)
        ensures
            r == (if value {
                Primitive::True
            } else {
                Primitive::False
            }),
    {
        if value {
            Primitive::True
        } else {
            Primitive::False
        }
    }
}

impl NumberHint {
    /// The code of this hint.
    pub fn code(self) -> (r: u8)
        ensures
            r == number_hint_code(self),
    {
        match self {
            NumberHint::Zero => 0,
            NumberHint::One => 1,
            NumberHint::Two => 2,
            NumberHint::Three => 3,
            NumberHint::Four => 4,
            NumberHint::Five => 5,
            NumberHint::Six => 6,
            NumberHint::Seven => 7,
            NumberHint::Eight => 8,
            NumberHint::Nine => 9,
            NumberHint::Ten => 10,
            NumberHint::Size8 => 11,
            NumberHint::Size32 => 12,
            NumberHint::Size64 => 13,
        }
    }

    /// The value, zero to ten, that this hint holds itself.
    pub fn decode_i64_header(self) -> (r: i64)
        requires
            number_hint_code(self) <= 10,
        ensures
            r == number_hint_code(self),
    {
        match self {
            NumberHint::Zero => 0,
            NumberHint::One => 1,
            NumberHint::Two => 2,
            NumberHint::Three => 3,
            NumberHint::Four => 4,
            NumberHint::Five => 5,
            NumberHint::Six => 6,
            NumberHint::Seven => 7,
            NumberHint::Eight => 8,
            NumberHint::Nine => 9,
            _ => 10,
        }
    }

    /// The hint that holds `value` itself, if it is zero to ten.
    pub fn header_only_i64(value: i64) -> (r: Option<NumberHint>)
        ensures
            0 <= value <= 10 ==> (r matches Some(n) && number_hint_code(n) == value),
            !(0 <= value <= 10) ==> r is None,
    {
        if value == 0 {
            Some(NumberHint::Zero)
        } else if value == 1 {
            Some(NumberHint::One)
        } else if value == 2 {
            Some(NumberHint::Two)
        } else if value == 3 {
            Some(NumberHint::Three)
        } else if value == 4 {
            Some(NumberHint::Four)
        } else if value == 5 {
            Some(NumberHint::Five)
        } else if value == 6 {
            Some(NumberHint::Six)
        } else if value == 7 {
            Some(NumberHint::Seven)
        } else if value == 8 {
            Some(NumberHint::Eight)
        } else if value == 9 {
            Some(NumberHint::Nine)
        } else if value == 10 {
            Some(NumberHint::Ten)
        } else {
            None
        }
    }

    /// The hint that holds the float with binary64 bits `bits` itself, if it is a whole number
    /// from zero to ten.
    pub fn header_only_f64(bits: u64) -> (r: Option<NumberHint>)
        ensures
            r == float_hint(bits),
    {
        if bits == 0 || bits == 0x8000_0000_0000_0000 {
            Some(NumberHint::Zero)
        } else if bits == 0x3ff0_0000_0000_0000 {
            Some(NumberHint::One)
        } else if bits == 0x4000_0000_0000_0000 {
            Some(NumberHint::Two)
        } else if bits == 0x4008_0000_0000_0000 {
            Some(NumberHint::Three)
        } else if bits == 0x4010_0000_0000_0000 {
            Some(NumberHint::Four)
        } else if bits == 0x4014_0000_0000_0000 {
            Some(NumberHint::Five)
        } else if bits == 0x4018_0000_0000_0000 {
            Some(NumberHint::Six)
        } else if bits == 0x401c_0000_0000_0000 {
            Some(NumberHint::Seven)
        } else if bits == 0x4020_0000_0000_0000 {
            Some(NumberHint::Eight)
        } else if bits == 0x4022_0000_0000_0000 {
            Some(NumberHint::Nine)
        } else if bits == 0x4024_0000_0000_0000 {
            Some(NumberHint::Ten)
        } else {
            None
        }
    }

    /// The bits of the binary64 float, zero to ten, that this hint holds itself.
    pub fn decode_f64_header(self) -> (r: u64)
        requires
            number_hint_code(self) <= 10,
        ensures
            r == hint_float_bits(self),
    {
        match self {
            NumberHint::One => 0x3ff0_0000_0000_0000,
            NumberHint::Two => 0x4000_0000_0000_0000,
            NumberHint::Three => 0x4008_0000_0000_0000,
            NumberHint::Four => 0x4010_0000_0000_0000,
            NumberHint::Five => 0x4014_0000_0000_0000,
            NumberHint::Six => 0x4018_0000_0000_0000,
            NumberHint::Seven => 0x401c_0000_0000_0000,
            NumberHint::Eight => 0x4020_0000_0000_0000,
            NumberHint::Nine => 0x4022_0000_0000_0000,
            NumberHint::Ten => 0x4024_0000_0000_0000,
            _ => 0,
        }
    }

    /// Decode the float this hint starts, by the bits of its binary64 value: the eight bytes
    /// that follow it, or the value it holds itself; an error for the sizes of one and four
    /// bytes, which floats do not use.
    pub fn decode_f64(self, d: &mut Decoder) -> (r: DecodeResult<u64>)
        requires
            old(d).wf(),
        ensures
            final(d).wf(),
            final(d).spec_bytes() == old(d).spec_bytes(),
            if self == NumberHint::Size8 || self == NumberHint::Size32 {
                r == Err::<u64, DecodeError>(
                    DecodeError {
                        index: old(d).index,
                        error_type: DecodeErrorType::HeaderInvalid { value: number_hint_code(self), ty: "f64" },
                    },
                ) && final(d).index == old(d).index
            } else if self == NumberHint::Size64 {
                match spec_take_slice(old(d).spec_bytes(), old(d).index as int, 8) {
                    Ok(t) => r == Ok::<u64, DecodeError>(le_value(t) as u64) && final(d).index == old(d).index + 8,
                    Err(e) => r == Err::<u64, DecodeError>(e) && final(d).index == old(d).index,
                }
            } else {
                r == Ok::<u64, DecodeError>(hint_float_bits(self)) && final(d).index == old(d).index
            },
    {
        match self {
            NumberHint::Size8 | NumberHint::Size32 => Err(
                d.error(DecodeErrorType::HeaderInvalid { value: self.code(), ty: "f64" }),
            ),
            NumberHint::Size64 => d.take_f64(),
            _ => Ok(self.decode_f64_header()),
        }
    }

    /// The number of bytes after the header that hold the value.
    pub fn data_length(self) -> (r: usize)
        ensures
            r == (match self {
                NumberHint::Size8 => 1usize,
                NumberHint::Size32 => 4,
                NumberHint::Size64 => 8,
                _ => 0,
            }),
    {
        match self {
            NumberHint::Size8 => 1,
            NumberHint::Size32 => 4,
            NumberHint::Size64 => 8,
            _ => 0,
        }
    }

    /// Decode the integer this hint starts: its value, or the `i8`, `i32` or `i64` that
    /// follows it.
    pub fn decode_i64(self, d: &mut Decoder) -> (r: DecodeResult<i64>)
        requires
            old(d).wf(),
        ensures
            final(d).wf(),
            final(d).spec_bytes() == old(d).spec_bytes(),
            match self {
                NumberHint::Size8 => spec_int_bytes(old(d).spec_bytes(), old(d).index as int, 1, r, final(d).index as int),
                NumberHint::Size32 => spec_int_bytes(old(d).spec_bytes(), old(d).index as int, 4, r, final(d).index as int),
                NumberHint::Size64 => spec_int_bytes(old(d).spec_bytes(), old(d).index as int, 8, r, final(d).index as int),
                _ => r == Ok::<i64, DecodeError>(number_hint_code(self) as i64) && final(d).index == old(d).index,
            },
    {
        match self {
            NumberHint::Size8 => match d.take_i8() {
                Ok(v) => Ok(v as i64),
                Err(e) => Err(e),
            },
            NumberHint::Size32 => match d.take_i32() {
                Ok(v) => Ok(v as i64),
                Err(e) => Err(e),
            },
            NumberHint::Size64 => d.take_i64(),
            _ => Ok(self.decode_i64_header()),
        }
    }
}

/// Whether `r` and `end` are what reading an `n`-byte little-endian signed integer at `index`
/// gives.
pub open spec fn spec_int_bytes(s: Seq<u8>, index: int, n: nat, r: DecodeResult<i64>, end: int) -> bool {
    match spec_take_slice(s, index, n as int) {
        Ok(t) => (r matches Ok(v) && v as int == crate::batson::decoder::twos_complement(le_value(t), n))
            && end == index + n,
        Err(e) => r == Err::<i64, DecodeError>(e) && end == index,
    }
}

/// The length that a header gives for `len` items: the length itself up to ten, otherwise
/// the smallest of `u8`, `u16` and `u32` that holds it.
pub open spec fn spec_length_for(len: u64) -> Length {
    if len <= 10 {
        length_of(len as u8)->0
    } else if len <= 0xff {
        Length::U8
    } else if len <= 0xffff {
        Length::U16
    } else {
        Length::U32
    }
}

impl Length {
    /// The code of this length.
    pub fn code(self) -> (r: u8)
        ensures
            r == length_code(self),
    {
        match self {
            Length::Empty => 0,
            Length::One => 1,
            Length::Two => 2,
            Length::Three => 3,
            Length::Four => 4,
            Length::Five => 5,
            Length::Six => 6,
            Length::Seven => 7,
            Length::Eight => 8,
            Length::Nine => 9,
            Length::Ten => 10,
            Length::U8 => 11,
            Length::U16 => 12,
            Length::U32 => 13,
        }
    }

    /// The length with code `value`, or an error at the decoder's position.
    fn from_u8(value: u8, d: &Decoder) -> (r: DecodeResult<Length>)
        ensures
            match length_of(value) {
                Some(l) => r == Ok::<Length, DecodeError>(l),
                None => r == Err::<Length, DecodeError>(
                    DecodeError {
                        index: d.index,
                        error_type: DecodeErrorType::HeaderInvalid { value, ty: "Length" },
                    },
                ),
            },
    {
        if value == 0 {
            Ok(Length::Empty)
        } else if value == 1 {
            Ok(Length::One)
        } else if value == 2 {
            Ok(Length::Two)
        } else if value == 3 {
            Ok(Length::Three)
        } else if value == 4 {
            Ok(Length::Four)
        } else if value == 5 {
            Ok(Length::Five)
        } else if value == 6 {
            Ok(Length::Six)
        } else if value == 7 {
            Ok(Length::Seven)
        } else if value == 8 {
            Ok(Length::Eight)
        } else if value == 9 {
            Ok(Length::Nine)
        } else if value == 10 {
            Ok(Length::Ten)
        } else if value == 11 {
            Ok(Length::U8)
        } else if value == 12 {
            Ok(Length::U16)
        } else if value == 13 {
            Ok(Length::U32)
        } else {
            Err(d.error(DecodeErrorType::HeaderInvalid { value, ty: "Length" }))
        }
    }

    /// The length that a header gives for `len` items.
    pub fn from_len(len: u64) -> (r: Length)
        ensures
            r == spec_length_for(len),
    {
        if len == 0 {
            Length::Empty
        } else if len == 1 {
            Length::One
        } else if len == 2 {
            Length::Two
        } else if len == 3 {
            Length::Three
        } else if len == 4 {
            Length::Four
        } else if len == 5 {
            Length::Five
        } else if len == 6 {
            Length::Six
        } else if len == 7 {
            Length::Seven
        } else if len == 8 {
            Length::Eight
        } else if len == 9 {
            Length::Nine
        } else if len == 10 {
            Length::Ten
        } else if len <= 0xff {
            Length::U8
        } else if len <= 0xffff {
            Length::U16
        } else {
            Length::U32
        }
    }

    /// Decode the length this starts: its value, or the `u8`, `u16` or `u32` that follows it.
    pub fn decode(self, d: &mut Decoder) -> (r: DecodeResult<usize>)
        requires
            old(d).wf(),
        ensures
            final(d).wf(),
            final(d).spec_bytes() == old(d).spec_bytes(),
            match self {
                Length::U8 => spec_len_bytes(old(d).spec_bytes(), old(d).index as int, 1, r, final(d).index as int),
                Length::U16 => spec_len_bytes(old(d).spec_bytes(), old(d).index as int, 2, r, final(d).index as int),
                Length::U32 => spec_len_bytes(old(d).spec_bytes(), old(d).index as int, 4, r, final(d).index as int),
                _ => r == Ok::<usize, DecodeError>(length_code(self) as usize) && final(d).index == old(d).index,
            },
            match spec_read_length(old(d).spec_bytes(), old(d).index as int, self) {
                Ok((v, e)) => r matches Ok(x) && x == v && final(d).index == e,
                Err(e) => r == Err::<usize, DecodeError>(e) && final(d).index == old(d).index,
            },
    {
        match self {
            Length::U8 => match d.take_u8() {
                Ok(v) => Ok(v as usize),
                Err(e) => Err(e),
            },
            Length::U16 => match d.take_u16() {
                Ok(v) => Ok(v as usize),
                Err(e) => Err(e),
            },
            Length::U32 => match d.take_u32() {
                Ok(v) => Ok(v as usize),
                Err(e) => Err(e),
            },
            _ => Ok(self.code() as usize),
        }
    }
}

/// The number of bytes after the header that hold the length `l`.
pub open spec fn length_size(l: Length) -> nat {
    match l {
        Length::U8 => 1,
        Length::U16 => 2,
        Length::U32 => 4,
        _ => 0,
    }
}

/// Reading the length `l` at `index`: its value and where reading ends, or the error.
pub open spec fn spec_read_length(s: Seq<u8>, index: int, l: Length) -> Result<(int, int), DecodeError> {
    if length_size(l) == 0 {
        Ok((length_code(l) as int, index))
    } else {
        match spec_take_slice(s, index, length_size(l) as int) {
            Ok(t) => Ok((le_value(t) as int, index + length_size(l))),
            Err(e) => Err(e),
        }
    }
}

/// Reading a header at `index`: the header and the index after it, or the error.
pub open spec fn spec_read_header(s: Seq<u8>, index: int) -> Result<(Header, int), DecodeError> {
    if 0 <= index < s.len() {
        match spec_header_of(s[index]) {
            Ok(h) => Ok((h, index + 1)),
            Err(error_type) => Err(DecodeError { index: (index + 1) as usize, error_type }),
        }
    } else {
        Err(DecodeError { index: index as usize, error_type: DecodeErrorType::EOF })
    }
}

/// Whether `r` and `end` are what reading an `n`-byte little-endian length at `index` gives.
pub open spec fn spec_len_bytes(s: Seq<u8>, index: int, n: nat, r: DecodeResult<usize>, end: int) -> bool {
    match spec_take_slice(s, index, n as int) {
        Ok(t) => (r matches Ok(v) && v as int == le_value(t)) && end == index + n,
        Err(e) => r == Err::<usize, DecodeError>(e) && end == index,
    }
}

impl Header {
    /// Decode the header byte `byte`, an error at the decoder's position if it is invalid.
    pub fn decode(byte: u8, d: &Decoder) -> (r: DecodeResult<Header>)
        ensures
            match spec_header_of(byte) {
                Ok(h) => r == Ok::<Header, DecodeError>(h),
                Err(error_type) => r == Err::<Header, DecodeError>(
                    DecodeError { index: d.index, error_type },
                ),
            },
    {
        let (left, right) = split_byte(byte);
        let cat = match Category::from_u8(left, d) {
            Ok(c) => c,
            Err(e) => return Err(e),
        };
        match cat {
            Category::Primitive => if right == 0 {
                Ok(Header::Null)
            } else if right == 1 {
                Ok(Header::Bool(true))
            } else if right == 2 {
                Ok(Header::Bool(false))
            } else {
                Err(d.error(DecodeErrorType::HeaderInvalid { value: right, ty: "Primitive" }))
            },
            Category::Int => match number_hint_from_u8(right, d) {
                Ok(n) => Ok(Header::Int(n)),
                Err(e) => Err(e),
            },
            Category::Float => match number_hint_from_u8(right, d) {
                Ok(n) => Ok(Header::Float(n)),
                Err(e) => Err(e),
            },
            _ => match Length::from_u8(right, d) {
                Err(e) => Err(e),
                Ok(l) => Ok(
                    match cat {
                        Category::BigIntPos => Header::IntBig(IntSign::Plus, l),
                        Category::BigIntNeg => Header::IntBig(IntSign::Minus, l),
                        Category::Str => Header::Str(l),
                        Category::Object => Header::Object(l),
                        Category::HeaderArray => Header::HeaderArray(l),
                        Category::U8Array => Header::U8Array(l),
                        Category::I64Array => Header::I64Array(l),
                        _ => Header::HetArray(l),
                    },
                ),
            },
        }
    }

    /// The value that this header alone gives, as an item of an array of headers: empty for
    /// strings, objects and arrays.
    pub fn header_as_value(self, _d: &Decoder) -> (r: JsonValue)
        requires
            spec_header_value(self) is Some,
        ensures
            spec_header_value(self) == Some(json_view(r)),
    {
        match self {
            Header::Null => JsonValue::Null,
            Header::Bool(b) => JsonValue::Bool(b),
            Header::Int(n) => JsonValue::Int(n.decode_i64_header()),
            Header::IntBig(..) => JsonValue::Null,
            Header::Float(n) => JsonValue::Float(n.decode_f64_header()),
            Header::Str(_) => {
                let s = String::new();
                JsonValue::Str(s)
            },
            Header::Object(_) => {
                let o: Vec<(String, JsonValue)> = Vec::new();
                proof {
                    assert(crate::value::entries_view(o@, 0) =~= Seq::<(Seq<char>, ValueView)>::empty());
                }
                JsonValue::Object(o)
            },
            _ => {
                let a: Vec<JsonValue> = Vec::new();
                proof {
                    assert(crate::value::values_view(a@, 0) =~= Seq::<ValueView>::empty());
                }
                JsonValue::Array(a)
            },
        }
    }

    /// The value of a boolean header.
    pub fn into_bool(self) -> (r: Option<bool>)
        ensures
            r == (match self {
                Header::Bool(b) => Some(b),
                _ => None,
            }),
    {
        match self {
            Header::Bool(b) => Some(b),
            _ => None,
        }
    }
}

/// The number hint with code `value`, or an error at the decoder's position.
fn number_hint_from_u8(value: u8, d: &Decoder) -> (r: DecodeResult<NumberHint>)
    ensures
        match number_hint_of(value) {
            Some(n) => r == Ok::<NumberHint, DecodeError>(n),
            None => r == Err::<NumberHint, DecodeError>(
                DecodeError {
                    index: d.index,
                    error_type: DecodeErrorType::HeaderInvalid { value, ty: "NumberHint" },
                },
            ),
        },
{
    if value == 0 {
        Ok(NumberHint::Zero)
    } else if value == 1 {
        Ok(NumberHint::One)
    } else if value == 2 {
        Ok(NumberHint::Two)
    } else if value == 3 {
        Ok(NumberHint::Three)
    } else if value == 4 {
        Ok(NumberHint::Four)
    } else if value == 5 {
        Ok(NumberHint::Five)
    } else if value == 6 {
        Ok(NumberHint::Six)
    } else if value == 7 {
        Ok(NumberHint::Seven)
    } else if value == 8 {
        Ok(NumberHint::Eight)
    } else if value == 9 {
        Ok(NumberHint::Nine)
    } else if value == 10 {
        Ok(NumberHint::Ten)
    } else if value == 11 {
        Ok(NumberHint::Size8)
    } else if value == 12 {
        Ok(NumberHint::Size32)
    } else if value == 13 {
        Ok(NumberHint::Size64)
    } else {
        Err(d.error(DecodeErrorType::HeaderInvalid { value, ty: "NumberHint" }))
    }
}

/// The high and low four bits of a byte.
fn split_byte(byte: u8) -> (r: (u8, u8))
    ensures
        r == (byte / 16, byte % 16),
{
    assert((byte >> 4u8) == byte / 16 && (byte & 0x0fu8) == byte % 16) by (bit_vector);
    (byte >> 4u8, byte & 0x0fu8)
}

} // verus!
