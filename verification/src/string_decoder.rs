//! Decoding JSON strings: scanning for the closing quote, resolving escapes and checking UTF-8.
use core::ops::Range;

use vstd::prelude::*;
use vstd::string::*;
use vstd::utf8::*;

use crate::errors::{json_error, JsonError, JsonErrorType, JsonResult};
use crate::utf8::{all_ascii, lemma_ascii_valid, str_from_valid_utf8, utf8_check, utf8_check_spec, lemma_utf8_scan_bounds, lemma_utf8_scan_valid, Utf8Check};

verus! {

/// The reusable buffer that escaped strings are decoded into.
pub type Tape = Vec<u8>;

/// A byte that ends a run of plain string content: a quote, a backslash or a control character.
pub open spec fn is_string_special(b: u8) -> bool {
    b == 0x22 || b == 0x5c || b < 0x20
}

/// The first index at or after `i` that holds a quote, a backslash or a control character (or
/// the end of the input).
pub open spec fn find_special(s: Seq<u8>, i: int) -> int
    decreases s.len() - i,
{
    if 0 <= i < s.len() && !is_string_special(s[i]) {
        find_special(s, i + 1)
    } else {
        i
    }
}

pub proof fn lemma_find_special(s: Seq<u8>, i: int)
    requires
        0 <= i,
    ensures
        i <= find_special(s, i),
        i <= s.len() ==> find_special(s, i) <= s.len(),
        i > s.len() ==> find_special(s, i) == i,
        find_special(s, i) < s.len() ==> is_string_special(s[find_special(s, i)]),
    decreases s.len() - i,
{
    if 0 <= i < s.len() && !is_string_special(s[i]) {
        lemma_find_special(s, i + 1);
    }
}

/// Whether every byte in `s[i..j]` is ASCII.
pub open spec fn ascii_between(s: Seq<u8>, i: int, j: int) -> bool {
    forall|k: int| i <= k < j ==> s[k] < 0x80
}

/// Where a run of plain string content ended.
#[derive(Debug, Clone, Copy, PartialEq, Eq)]
pub enum StringChunk {
    /// at the closing quote (or, for a partial string, at the end of the input)
    StringEnd,
    /// at a backslash that starts an escape
    Backslash,
}

/// Scanning plain string content from `i`: where it ends and how, and whether it stayed ASCII.
pub open spec fn spec_string_chunk(s: Seq<u8>, i: int, ascii: bool, partial: bool) -> Result<
    (StringChunk, bool, usize),
    JsonError,
> {
    let j = find_special(s, i);
    let a = ascii && ascii_between(s, i, j);
    if j >= s.len() {
        if partial {
            Ok((StringChunk::StringEnd, a, j as usize))
        } else {
            Err(json_error(JsonErrorType::EofWhileParsingString, j))
        }
    } else if s[j] == 0x22 {
        Ok((StringChunk::StringEnd, a, j as usize))
    } else if s[j] == 0x5c {
        Ok((StringChunk::Backslash, a, j as usize))
    } else {
        Err(json_error(JsonErrorType::ControlCharacterWhileParsingString, j))
    }
}

/// Scan plain string content from `index` to the next quote, backslash or control character.
pub fn decode_string_chunk(data: &[u8], index: usize, ascii_only: bool, allow_partial: bool) -> (r:
    JsonResult<(StringChunk, bool, usize)>)
    requires
        index <= data.len() + 2,
        data.len() <= isize::MAX,
    ensures
        r == spec_string_chunk(data@, index as int, ascii_only, allow_partial),
        r matches Ok((_, _, j)) ==> index <= j && (j <= data.len() || j == index),
{
    let mut i = index;
    let mut ascii = ascii_only;
    proof {
        lemma_find_special(data@, index as int);
    }
    while i < data.len() && !(data[i] == 0x22 || data[i] == 0x5c || data[i] < 0x20)
        invariant
            index <= i,
            i <= data.len() + 2,
            index <= data.len() ==> i <= data.len(),
            index > data.len() ==> i == index,
            find_special(data@, i as int) == find_special(data@, index as int),
            ascii == (ascii_only && ascii_between(data@, index as int, i as int)),
        decreases data.len() + 1 - i,
    {
        if data[i] >= 0x80 {
            ascii = false;
        }
        i += 1;
    }
    if i >= data.len() {
        if allow_partial {
            Ok((StringChunk::StringEnd, ascii, i))
        } else {
            Err(JsonError::new(JsonErrorType::EofWhileParsingString, i))
        }
    } else if data[i] == 0x22 {
        Ok((StringChunk::StringEnd, ascii, i))
    } else if data[i] == 0x5c {
        Ok((StringChunk::Backslash, ascii, i))
    } else {
        Err(JsonError::new(JsonErrorType::ControlCharacterWhileParsingString, i))
    }
}

/// The value of a hexadecimal digit.
pub open spec fn hex_val(b: u8) -> Option<u16> {
    if 0x30 <= b <= 0x39 {
        Some((b - 0x30) as u16)
    } else if 0x61 <= b <= 0x66 {
        Some((b - 0x61 + 10) as u16)
    } else if 0x41 <= b <= 0x46 {
        Some((b - 0x41 + 10) as u16)
    } else {
        None
    }
}

/// The four hex digits after the `u` at `i`: their value and the index of the last one, or the
/// first digit that is not hex, or the end of the input.
pub open spec fn spec_parse_u4(s: Seq<u8>, i: int) -> Result<(u16, usize), JsonError> {
    if i + 5 <= s.len() {
        if hex_val(s[i + 1]) is None {
            Err(json_error(JsonErrorType::InvalidEscape, i + 1))
        } else if hex_val(s[i + 2]) is None {
            Err(json_error(JsonErrorType::InvalidEscape, i + 2))
        } else if hex_val(s[i + 3]) is None {
            Err(json_error(JsonErrorType::InvalidEscape, i + 3))
        } else if hex_val(s[i + 4]) is None {
            Err(json_error(JsonErrorType::InvalidEscape, i + 4))
        } else {
            Ok(
                (
                    (hex_val(s[i + 1])->0 * 4096 + hex_val(s[i + 2])->0 * 256 + hex_val(s[i + 3])->0
                        * 16 + hex_val(s[i + 4])->0) as u16,
                    (i + 4) as usize,
                ),
            )
        }
    } else {
        Err(json_error(JsonErrorType::EofWhileParsingString, s.len() as int))
    }
}

fn hex_digit(c: u8) -> (r: Option<u16>)
    ensures
        r == hex_val(c),
        r matches Some(v) ==> v < 16,
{
    if 0x30 <= c && c <= 0x39 {
        Some((c - 0x30) as u16)
    } else if 0x61 <= c && c <= 0x66 {
        Some((c - 0x61 + 10) as u16)
    } else if 0x41 <= c && c <= 0x46 {
        Some((c - 0x41 + 10) as u16)
    } else {
        None
    }
}

/// Parse the four hex digits after the `u` at `index`.
pub fn parse_u4(data: &[u8], index: usize) -> (r: JsonResult<(u16, usize)>)
    requires
        index <= data.len(),
        data.len() <= isize::MAX,
    ensures
        r == spec_parse_u4(data@, index as int),
        r matches Ok((_, j)) ==> j == index + 4 && j < data.len(),
{
    if index + 5 > data.len() {
        return Err(JsonError::new(JsonErrorType::EofWhileParsingString, data.len()));
    }
    let mut n: u16 = 0;
    let mut k: usize = 1;
    while k <= 4
        invariant
            1 <= k <= 5,
            index + 5 <= data.len(),
            forall|m: int| 1 <= m < k ==> hex_val(#[trigger] data@[index + m]) is Some,
            n as int == (if k > 1 {
                hex_val(data@[index + 1])->0 * (if k == 2 {
                    1int
                } else if k == 3 {
                    16int
                } else if k == 4 {
                    256int
                } else {
                    4096int
                })
            } else {
                0int
            }) + (if k > 2 {
                hex_val(data@[index + 2])->0 * (if k == 3 {
                    1int
                } else if k == 4 {
                    16int
                } else {
                    256int
                })
            } else {
                0int
            }) + (if k > 3 {
                hex_val(data@[index + 3])->0 * (if k == 4 {
                    1int
                } else {
                    16int
                })
            } else {
                0int
            }) + (if k > 4 {
                hex_val(data@[index + 4])->0 as int
            } else {
                0int
            }),
        decreases 5 - k,
    {
        match hex_digit(data[index + k]) {
            Some(h) => {
                n = n * 16 + h;
            },
            None => {
                return Err(JsonError::new(JsonErrorType::InvalidEscape, index + k));
            },
        }
        k += 1;
    }
    Ok((n, index + 4))
}

/// The escape `\u` at `i` (the index of the `u`): the scalar it stands for, joining a surrogate
/// pair, and the index of its last byte; or why it is malformed.
pub open spec fn spec_parse_escape(s: Seq<u8>, i: int) -> Result<(u32, usize), JsonError> {
    match spec_parse_u4(s, i) {
        Err(e) => Err(e),
        Ok((n, j)) => {
            if 0xDC00 <= n <= 0xDFFF {
                Err(json_error(JsonErrorType::LoneLeadingSurrogateInHexEscape, j as int))
            } else if 0xD800 <= n <= 0xDBFF {
                if j + 3 <= s.len() {
                    if s[j + 1] == 0x5c && s[j + 2] == 0x75 {
                        match spec_parse_u4(s, j + 2) {
                            Err(e) => Err(e),
                            Ok((n2, j2)) => {
                                if !(0xDC00 <= n2 <= 0xDFFF) {
                                    Err(
                                        json_error(
                                            JsonErrorType::LoneLeadingSurrogateInHexEscape,
                                            j2 as int,
                                        ),
                                    )
                                } else {
                                    Ok(
                                        (
                                            ((n - 0xD800) * 1024 + (n2 - 0xDC00) + 0x10000) as u32,
                                            j2,
                                        ),
                                    )
                                }
                            },
                        }
                    } else if s[j + 1] == 0x5c {
                        Err(json_error(JsonErrorType::UnexpectedEndOfHexEscape, j + 2))
                    } else {
                        Err(json_error(JsonErrorType::UnexpectedEndOfHexEscape, j + 1))
                    }
                } else if j + 1 >= s.len() || s[j + 1] == 0x5c {
                    Err(json_error(JsonErrorType::EofWhileParsingString, s.len() as int))
                } else {
                    Err(json_error(JsonErrorType::UnexpectedEndOfHexEscape, j + 1))
                }
            } else {
                Ok((n as u32, j))
            }
        },
    }
}

/// Parse the escape `\u` whose `u` is at `index`.
pub fn parse_escape(data: &[u8], index: usize) -> (r: JsonResult<(u32, usize)>)
    requires
        index < data.len(),
        data.len() <= isize::MAX,
    ensures
        r == spec_parse_escape(data@, index as int),
        r matches Ok((c, j)) ==> index < j < data.len() && is_scalar(c),
{
    let (n, index) = match parse_u4(data, index) {
        Ok(v) => v,
        Err(e) => return Err(e),
    };
    if 0xDC00 <= n && n <= 0xDFFF {
        Err(JsonError::new(JsonErrorType::LoneLeadingSurrogateInHexEscape, index))
    } else if 0xD800 <= n && n <= 0xDBFF {
        if index + 3 <= data.len() {
            if data[index + 1] == 0x5c && data[index + 2] == 0x75 {
                let (n2, index2) = match parse_u4(data, index + 2) {
                    Ok(v) => v,
                    Err(e) => return Err(e),
                };
                if !(0xDC00 <= n2 && n2 <= 0xDFFF) {
                    return Err(JsonError::new(JsonErrorType::LoneLeadingSurrogateInHexEscape, index2));
                }
                let hi = (n - 0xD800) as u32;
                let lo = (n2 - 0xDC00) as u32;
                assert((hi << 10u32 | lo) == hi * 1024 + lo && hi * 1024 + lo <= 0xFFFFF) by (bit_vector)
                    requires
                        hi <= 0x3FF,
                        lo <= 0x3FF,
                ;
                let c: u32 = (hi << 10u32 | lo) + 0x10000;
                Ok((c, index2))
            } else if data[index + 1] == 0x5c {
                Err(JsonError::new(JsonErrorType::UnexpectedEndOfHexEscape, index + 2))
            } else {
                Err(JsonError::new(JsonErrorType::UnexpectedEndOfHexEscape, index + 1))
            }
        } else if index + 1 >= data.len() || data[index + 1] == 0x5c {
            Err(JsonError::new(JsonErrorType::EofWhileParsingString, data.len()))
        } else {
            Err(JsonError::new(JsonErrorType::UnexpectedEndOfHexEscape, index + 1))
        }
    } else {
        Ok((n as u32, index))
    }
}

/// Append the UTF-8 encoding of the scalar `c` to `tape`.
pub fn push_scalar(tape: &mut Tape, c: u32)
    requires
        is_scalar(c),
    ensures
        final(tape)@ == old(tape)@ + encode_scalar(c),
{
    if c <= 0x7F {
        tape.push((c & 0x7F) as u8);
    } else if c <= 0x7FF {
        tape.push(0xC0 | ((c >> 6u32) & 0x1F) as u8);
        tape.push(0x80 | (c & 0x3F) as u8);
    } else if c <= 0xFFFF {
        tape.push(0xE0 | ((c >> 12u32) & 0x0F) as u8);
        tape.push(0x80 | ((c >> 6u32) & 0x3F) as u8);
        tape.push(0x80 | (c & 0x3F) as u8);
    } else {
        tape.push(0xF0 | ((c >> 18u32) & 0x7) as u8);
        tape.push(0x80 | ((c >> 12u32) & 0x3F) as u8);
        tape.push(0x80 | ((c >> 6u32) & 0x3F) as u8);
        tape.push(0x80 | (c & 0x3F) as u8);
    }
    assert(final(tape)@ =~= old(tape)@ + encode_scalar(c));
}

/// Append `data[start..end]` to `tape`.
pub fn extend_tape(tape: &mut Tape, data: &[u8], start: usize, end: usize)
    requires
        start <= end <= data.len(),
    ensures
        final(tape)@ == old(tape)@ + data@.subrange(start as int, end as int),
{
    let part = &data[start..end];
    tape.extend_from_slice(part);
    assert(final(tape)@ =~= old(tape)@ + data@.subrange(start as int, end as int));
}

/// The byte that the simple escape `\e` stands for.
pub open spec fn escape_byte(e: u8) -> Option<u8> {
    // " \ / stand for themselves; b f n r t for backspace, form feed, line feed, carriage
    // return and tab
    if e == 0x22 || e == 0x5c || e == 0x2f {
        Some(e)
    } else if e == 0x62 {
        Some(0x08u8)
    } else if e == 0x66 {
        Some(0x0cu8)
    } else if e == 0x6e {
        Some(0x0au8)
    } else if e == 0x72 {
        Some(0x0du8)
    } else if e == 0x74 {
        Some(0x09u8)
    } else {
        None
    }
}

fn simple_escape(e: u8) -> (r: Option<u8>)
    ensures
        r == escape_byte(e),
        e == 0x22 ==> r == Some(0x22u8),
        e == 0x5c ==> r == Some(0x5cu8),
        e == 0x2f ==> r == Some(0x2fu8),
        e == 0x62 ==> r == Some(0x08u8),
        e == 0x66 ==> r == Some(0x0cu8),
        e == 0x6e ==> r == Some(0x0au8),
        e == 0x72 ==> r == Some(0x0du8),
        e == 0x74 ==> r == Some(0x09u8),
        !(e == 0x22 || e == 0x5c || e == 0x2f || e == 0x62 || e == 0x66 || e == 0x6e || e == 0x72 || e
            == 0x74) ==> r is None,
{
    if e == 0x22 || e == 0x5c || e == 0x2f {
        Some(e)
    } else if e == 0x62 {
        Some(0x08)
    } else if e == 0x66 {
        Some(0x0c)
    } else if e == 0x6e {
        Some(0x0a)
    } else if e == 0x72 {
        Some(0x0d)
    } else if e == 0x74 {
        Some(0x09)
    } else {
        None
    }
}

pub proof fn lemma_parse_escape_progress(s: Seq<u8>, i: int)
    requires
        0 <= i,
    ensures
        s.len() <= usize::MAX ==> (spec_parse_escape(s, i) matches Ok((c, j)) ==> i + 4 <= j
            < s.len()),
{
}

/// Decoding string content from `pos` to the closing quote: the bytes it stands for, whether
/// they stayed ASCII (given `ascii` for what came before), and the index after the string.
/// A partial string may end with the input, or inside an escape, which is then dropped.
#[verifier::opaque]
pub open spec fn spec_str_content(s: Seq<u8>, pos: int, ascii: bool, partial: bool) -> Result<
    (Seq<u8>, bool, usize),
    JsonError,
>
    decreases s.len() - pos,
{
    if pos < 0 || s.len() > usize::MAX {
        Err(json_error(JsonErrorType::EofWhileParsingString, pos))
    } else {
        match spec_string_chunk(s, pos, ascii, partial) {
            Err(e) => Err(e),
            Ok((StringChunk::StringEnd, a, j)) => Ok((s.subrange(pos, j as int), a, (j + 1) as usize)),
            Ok((StringChunk::Backslash, a, j)) => {
                let k = j + 1;
                if k >= s.len() {
                    if partial {
                        Ok((s.subrange(pos, j as int), a, k as usize))
                    } else {
                        Err(json_error(JsonErrorType::EofWhileParsingString, k))
                    }
                } else if s[k] == 0x75 {
                    proof {
                        lemma_parse_escape_progress(s, k);
                        lemma_find_special(s, pos);
                    }
                    match spec_parse_escape(s, k) {
                        Ok((c, ni)) => match spec_str_content(s, ni + 1, false, partial) {
                            Ok((rest, a2, n)) => Ok(
                                (s.subrange(pos, j as int) + encode_scalar(c) + rest, a2, n),
                            ),
                            Err(e) => Err(e),
                        },
                        Err(e) => if partial && e.error_type == JsonErrorType::EofWhileParsingString {
                            Ok((s.subrange(pos, j as int), a, e.index))
                        } else {
                            Err(e)
                        },
                    }
                } else {
                    proof {
                        lemma_find_special(s, pos);
                    }
                    match escape_byte(s[k]) {
                        Some(b) => match spec_str_content(s, k + 1, a, partial) {
                            Ok((rest, a2, n)) => Ok((s.subrange(pos, j as int).push(b) + rest, a2, n)),
                            Err(e) => Err(e),
                        },
                        None => Err(json_error(JsonErrorType::InvalidEscape, k)),
                    }
                }
            },
        }
    }
}

/// `t` followed by the content that `r` decoded.
pub open spec fn prepend_content(t: Seq<u8>, r: Result<(Seq<u8>, bool, usize), JsonError>) -> Result<
    (Seq<u8>, bool, usize),
    JsonError,
> {
    match r {
        Ok((b, a, n)) => Ok((t + b, a, n)),
        Err(e) => Err(e),
    }
}

/// The text of decoded string content: all of it if it is valid UTF-8, in a partial string the
/// part before a final scalar that the input cut short, otherwise an error at the first bad
/// byte (`start` is where the content began in the input).
pub open spec fn spec_to_str(b: Seq<u8>, start: int, partial: bool) -> Result<Seq<u8>, JsonError> {
    match utf8_check_spec(b) {
        Utf8Check::Valid => Ok(b),
        Utf8Check::Incomplete { valid_up_to } => if partial {
            Ok(b.subrange(0, valid_up_to as int))
        } else {
            Err(json_error(JsonErrorType::InvalidUnicodeCodePoint, start + valid_up_to + 1))
        },
        Utf8Check::Invalid { valid_up_to, .. } => Err(
            json_error(JsonErrorType::InvalidUnicodeCodePoint, start + valid_up_to + 1),
        ),
    }
}

/// Decoding the string whose opening quote is at `index`: its text, whether it is all ASCII, and
/// the index after it.
pub open spec fn spec_decode_str(s: Seq<u8>, index: int, partial: bool) -> Result<
    (Seq<u8>, bool, usize),
    JsonError,
> {
    match spec_str_content(s, index + 1, true, partial) {
        Err(e) => Err(e),
        Ok((b, a, n)) => match spec_to_str(b, index + 1, partial) {
            Ok(t) => Ok((t, a, n)),
            Err(e) => Err(e),
        },
    }
}

/// The text of decoded content, checked as UTF-8.
fn to_str(bytes: &[u8], start: usize, allow_partial: bool) -> (r: JsonResult<&str>)
    requires
        start <= isize::MAX,
        bytes.len() <= isize::MAX,
    ensures
        r matches Ok(t) ==> spec_to_str(bytes@, start as int, allow_partial) == Ok::<
            Seq<u8>,
            JsonError,
        >(t.spec_bytes()),
        r matches Err(e) ==> spec_to_str(bytes@, start as int, allow_partial) == Err::<
            Seq<u8>,
            JsonError,
        >(e),
{
    proof {
        lemma_utf8_scan_valid(bytes@, 0);
        lemma_utf8_scan_bounds(bytes@, 0);
        assert(bytes@.subrange(0, bytes@.len() as int) =~= bytes@);
    }
    match utf8_check(bytes) {
        Utf8Check::Valid => Ok(str_from_valid_utf8(bytes)),
        Utf8Check::Incomplete { valid_up_to } => {
            if allow_partial {
                let valid = &bytes[0..valid_up_to];
                Ok(str_from_valid_utf8(valid))
            } else {
                Err(JsonError::new(JsonErrorType::InvalidUnicodeCodePoint, start + valid_up_to + 1))
            }
        },
        Utf8Check::Invalid { valid_up_to, .. } => Err(
            JsonError::new(JsonErrorType::InvalidUnicodeCodePoint, start + valid_up_to + 1),
        ),
    }
}

/// Where decoded text lives: in the input, when the string holds no escape, or on the tape.
#[derive(Debug, Clone, Copy)]
pub enum StringOutputType<'t, 'j> {
    Tape(&'t str),
    Data(&'j str),
}

/// Decoded text, and whether it is known to be ASCII only.
#[derive(Debug)]
pub struct StringOutput<'t, 'j> {
    data: StringOutputType<'t, 'j>,
    ascii_only: bool,
}

impl<'t, 'j> StringOutput<'t, 'j> {
    /// The text.
    pub closed spec fn spec_str(&self) -> Seq<char> {
        match self.data {
            StringOutputType::Tape(s) => s@,
            StringOutputType::Data(s) => s@,
        }
    }

    /// Whether the text was decoded from the input without copying.
    pub closed spec fn spec_borrowed(&self) -> bool {
        self.data is Data
    }

    /// Whether the text was found to be ASCII only.
    pub closed spec fn spec_ascii_only(&self) -> bool {
        self.ascii_only
    }

    /// The UTF-8 bytes of the text.
    pub open spec fn spec_bytes(&self) -> Seq<u8> {
        encode_utf8(self.spec_str())
    }

    #[verifier::type_invariant]
    closed spec fn inv(&self) -> bool {
        self.ascii_only ==> all_ascii(encode_utf8(self.spec_str()))
    }

    /// Text decoded onto the tape; `ascii_only` may only be set if it is ASCII.
    pub fn tape(data: &'t str, ascii_only: bool) -> (r: Self)
        requires
            ascii_only ==> all_ascii(data.spec_bytes()),
        ensures
            r.spec_str() == data@,
            r.spec_ascii_only() == ascii_only,
            !r.spec_borrowed(),
    {
        StringOutput { data: StringOutputType::Tape(data), ascii_only }
    }

    /// Text borrowed from the input; `ascii_only` may only be set if it is ASCII.
    pub fn data(data: &'j str, ascii_only: bool) -> (r: Self)
        requires
            ascii_only ==> all_ascii(data.spec_bytes()),
        ensures
            r.spec_str() == data@,
            r.spec_ascii_only() == ascii_only,
            r.spec_borrowed(),
    {
        StringOutput { data: StringOutputType::Data(data), ascii_only }
    }

    /// The text.
    pub fn as_str(&self) -> (r: &'t str) where 'j: 't
        ensures
            r@ == self.spec_str(),
    {
        match self.data {
            StringOutputType::Tape(s) => s,
            StringOutputType::Data(s) => s,
        }
    }

    /// Where the text lives, and the text.
    pub fn output_type(&self) -> (r: StringOutputType<'t, 'j>)
        ensures
            match r {
                StringOutputType::Tape(t) => t@ == self.spec_str() && !self.spec_borrowed(),
                StringOutputType::Data(t) => t@ == self.spec_str() && self.spec_borrowed(),
            },
    {
        match self.data {
            StringOutputType::Tape(t) => StringOutputType::Tape(t),
            StringOutputType::Data(t) => StringOutputType::Data(t),
        }
    }

    /// Whether the text is known to be ASCII only; when it is, it is.
    pub fn ascii_only(&self) -> (r: bool)
        ensures
            r == self.spec_ascii_only(),
            r ==> all_ascii(self.spec_bytes()),
    {
        proof {
            use_type_invariant(self);
        }
        self.ascii_only
    }

    /// An owned copy of the text.
    pub fn to_owned_string(&self) -> (r: String) where 'j: 't
        ensures
            r@ == self.spec_str(),
    {
        self.as_str().to_owned()
    }
}

/// One step of decoding string content, by how the next run of plain content ends.
pub proof fn lemma_content_step(s: Seq<u8>, pos: int, ascii: bool, partial: bool)
    requires
        0 <= pos <= s.len() + 2,
        s.len() <= isize::MAX,
    ensures
        ({
            let r = spec_str_content(s, pos, ascii, partial);
            match spec_string_chunk(s, pos, ascii, partial) {
                Err(e) => r == Err::<(Seq<u8>, bool, usize), JsonError>(e),
                Ok((StringChunk::StringEnd, a, j)) => {
                    &&& pos <= j
                    &&& (j <= s.len() || j == pos)
                    &&& (pos <= s.len() ==> r == Ok::<(Seq<u8>, bool, usize), JsonError>(
                        (s.subrange(pos, j as int), a, (j + 1) as usize),
                    ))
                    &&& (a ==> ascii_between(s, pos, j as int))
                },
                Ok((StringChunk::Backslash, a, j)) => {
                    let k = j + 1;
                    &&& pos <= j < s.len()
                    &&& s[j as int] == 0x5c
                    &&& (a ==> ascii_between(s, pos, j as int))
                    &&& (a ==> ascii)
                    &&& (k >= s.len() ==> r == if partial {
                        Ok::<(Seq<u8>, bool, usize), JsonError>(
                            (s.subrange(pos, j as int), a, k as usize),
                        )
                    } else {
                        Err::<(Seq<u8>, bool, usize), JsonError>(
                            json_error(JsonErrorType::EofWhileParsingString, k),
                        )
                    })
                    &&& (k < s.len() && s[k] == 0x75 ==> match spec_parse_escape(s, k) {
                        Ok((c, ni)) => {
                            &&& k + 4 <= ni < s.len()
                            &&& r == prepend_content(
                                s.subrange(pos, j as int) + encode_scalar(c),
                                spec_str_content(s, ni + 1, false, partial),
                            )
                        },
                        Err(e) => r == if partial && e.error_type
                            == JsonErrorType::EofWhileParsingString {
                            Ok::<(Seq<u8>, bool, usize), JsonError>(
                                (s.subrange(pos, j as int), a, e.index),
                            )
                        } else {
                            Err::<(Seq<u8>, bool, usize), JsonError>(e)
                        },
                    })
                    &&& (k < s.len() && s[k] != 0x75 ==> match escape_byte(s[k]) {
                        Some(b) => r == prepend_content(
                            s.subrange(pos, j as int).push(b),
                            spec_str_content(s, k + 1, a, partial),
                        ),
                        None => r == Err::<(Seq<u8>, bool, usize), JsonError>(
                            json_error(JsonErrorType::InvalidEscape, k),
                        ),
                    })
                },
            }
        }),
{
    reveal(spec_str_content);
    lemma_find_special(s, pos);
    let j = find_special(s, pos);
    if j < s.len() {
        lemma_parse_escape_progress(s, j + 1);
    }
}

/// The simple escapes decode to the bytes JSON (RFC 8259) gives them: content that starts with
/// a backslash and one of `"`, `\`, `/`, `b`, `f`, `n`, `r`, `t` decodes to 0x22, 0x5C, 0x2F,
/// 0x08, 0x0C, 0x0A, 0x0D, 0x09 respectively, followed by what the content after the escape
/// decodes to.
pub proof fn lemma_simple_escapes_decode(s: Seq<u8>, pos: int, ascii: bool, partial: bool)
    requires
        0 <= pos,
        pos + 1 < s.len(),
        s.len() <= isize::MAX,
        s[pos] == 0x5c,
    ensures
        ({
            let r = spec_str_content(s, pos, ascii, partial);
            let rest = spec_str_content(s, pos + 2, ascii, partial);
            &&& s[pos + 1] == 0x22 ==> r == prepend_content(seq![0x22u8], rest)
            &&& s[pos + 1] == 0x5c ==> r == prepend_content(seq![0x5cu8], rest)
            &&& s[pos + 1] == 0x2f ==> r == prepend_content(seq![0x2fu8], rest)
            &&& s[pos + 1] == 0x62 ==> r == prepend_content(seq![0x08u8], rest)
            &&& s[pos + 1] == 0x66 ==> r == prepend_content(seq![0x0cu8], rest)
            &&& s[pos + 1] == 0x6e ==> r == prepend_content(seq![0x0au8], rest)
            &&& s[pos + 1] == 0x72 ==> r == prepend_content(seq![0x0du8], rest)
            &&& s[pos + 1] == 0x74 ==> r == prepend_content(seq![0x09u8], rest)
        }),
{
    lemma_content_step(s, pos, ascii, partial);
    lemma_find_special(s, pos);
    assert(find_special(s, pos) == pos);
    assert(s.subrange(pos, pos) =~= Seq::<u8>::empty());
    assert((ascii && ascii_between(s, pos, pos)) == ascii);
    assert(Seq::<u8>::empty().push(0x22u8) =~= seq![0x22u8]);
    assert(Seq::<u8>::empty().push(0x5cu8) =~= seq![0x5cu8]);
    assert(Seq::<u8>::empty().push(0x2fu8) =~= seq![0x2fu8]);
    assert(Seq::<u8>::empty().push(0x08u8) =~= seq![0x08u8]);
    assert(Seq::<u8>::empty().push(0x0cu8) =~= seq![0x0cu8]);
    assert(Seq::<u8>::empty().push(0x0au8) =~= seq![0x0au8]);
    assert(Seq::<u8>::empty().push(0x0du8) =~= seq![0x0du8]);
    assert(Seq::<u8>::empty().push(0x09u8) =~= seq![0x09u8]);
}

pub proof fn lemma_prepend_assoc(t: Seq<u8>, x: Seq<u8>, r: Result<(Seq<u8>, bool, usize), JsonError>)
    ensures
        prepend_content(t, prepend_content(x, r)) == prepend_content(t + x, r),
{
    if let Ok((b, a, n)) = r {
        assert(t + (x + b) =~= (t + x) + b);
    }
}

/// Decoded content flagged as ASCII is ASCII.
pub proof fn lemma_content_ascii(s: Seq<u8>, pos: int, ascii: bool, partial: bool)
    requires
        0 <= pos <= s.len(),
        s.len() <= isize::MAX,
    ensures
        spec_str_content(s, pos, ascii, partial) matches Ok((b, a, n)) ==> (a ==> all_ascii(b)
            && ascii),
    decreases s.len() - pos,
{
    lemma_content_step(s, pos, ascii, partial);
    match spec_string_chunk(s, pos, ascii, partial) {
        Ok((StringChunk::Backslash, a, j)) => {
            let k = j + 1;
            if a {
                let b = s.subrange(pos, j as int);
                assert forall|m: int| 0 <= m < b.len() implies b[m] < 0x80 by {
                    assert(b[m] == s[pos + m]);
                }
            }
            if k < s.len() {
                if s[k] == 0x75 {
                    if let Ok((c, ni)) = spec_parse_escape(s, k) {
                        lemma_content_ascii(s, ni + 1, false, partial);
                    }
                } else if let Some(b) = escape_byte(s[k]) {
                    lemma_content_ascii(s, k + 1, a, partial);
                    if let Ok((rest, a2, n)) = spec_str_content(s, k + 1, a, partial) {
                        let whole = s.subrange(pos, j as int).push(b) + rest;
                        if a2 {
                            assert(b < 0x80);
                            assert forall|m: int| 0 <= m < whole.len() implies whole[m] < 0x80 by {
                                if m < j - pos {
                                    assert(whole[m] == s[pos + m]);
                                } else if m > j - pos {
                                    assert(whole[m] == rest[m - (j - pos) - 1]);
                                }
                            }
                        }
                    }
                }
            }
        },
        Ok((StringChunk::StringEnd, a, j)) => {
            if a {
                let b = s.subrange(pos, j as int);
                assert forall|m: int| 0 <= m < b.len() implies b[m] < 0x80 by {
                    assert(b[m] == s[pos + m]);
                }
            }
        },
        _ => {},
    }
}

/// Decoded content is no longer than the input it was decoded from.
pub proof fn lemma_content_len(s: Seq<u8>, pos: int, ascii: bool, partial: bool)
    requires
        0 <= pos <= s.len(),
        s.len() <= isize::MAX,
    ensures
        spec_str_content(s, pos, ascii, partial) matches Ok((b, a, n)) ==> b.len() <= s.len() - pos
            && pos < n <= s.len() + 1,
    decreases s.len() - pos,
{
    lemma_content_step(s, pos, ascii, partial);
    match spec_string_chunk(s, pos, ascii, partial) {
        Ok((StringChunk::Backslash, a, j)) => {
            let k = j + 1;
            if k < s.len() {
                if s[k] == 0x75 {
                    if let Ok((c, ni)) = spec_parse_escape(s, k) {
                        lemma_content_len(s, ni + 1, false, partial);
                        assert(encode_scalar(c).len() <= 4);
                    }
                } else if let Some(b) = escape_byte(s[k]) {
                    lemma_content_len(s, k + 1, a, partial);
                }
            }
        },
        _ => {},
    }
}

/// The index part of a decoding result: the index after what was decoded, or the error.
pub open spec fn result_index<T>(r: Result<(T, usize), JsonError>) -> Result<usize, JsonError> {
    match r {
        Ok((_, n)) => Ok(n),
        Err(e) => Err(e),
    }
}

/// Decodes a JSON string. `'t` is the lifetime of the tape (the reusable buffer), `'j` that of
/// the input, which outlives the tape.
pub trait AbstractStringDecoder<'t, 'j> {
    type Output;

    /// Decoding the string whose opening quote is at `index`: the index after it, or the error.
    spec fn spec_next(data: Seq<u8>, index: int, partial: bool) -> Result<usize, JsonError>;

    /// Whether `out` is the output of decoding the string whose opening quote is at `index`.
    spec fn spec_output(data: Seq<u8>, index: int, partial: bool, out: Self::Output) -> bool;

    /// Decode the string whose opening quote is at `index`, returning its output and the index
    /// after it.
    fn decode(data: &'j [u8], index: usize, tape: &'t mut Tape, allow_partial: bool) -> (r:
        JsonResult<(Self::Output, usize)>)
        requires
            index < data.len() || (!allow_partial && index <= data.len() + 1),
            data.len() <= isize::MAX,
        ensures
            result_index(r) == Self::spec_next(data@, index as int, allow_partial),
            r matches Ok((o, _)) ==> Self::spec_output(data@, index as int, allow_partial, o),
            r matches Ok((_, n)) ==> index < n <= data.len() + 1,
    ;
}

/// Decodes a string to its text: borrowed from the input when it holds no escape, otherwise
/// decoded onto the tape.
pub struct StringDecoder;

/// What decoding the string at `index` returns: the text, its ASCII flag and the index after.
pub open spec fn decoded_matches<'t, 'j>(
    r: JsonResult<(StringOutput<'t, 'j>, usize)>,
    s: Seq<u8>,
    index: int,
    partial: bool,
) -> bool {
    &&& r matches Ok((o, n)) ==> spec_decode_str(s, index, partial) == Ok::<
        (Seq<u8>, bool, usize),
        JsonError,
    >((o.spec_bytes(), o.spec_ascii_only(), n))
    &&& r matches Err(e) ==> spec_decode_str(s, index, partial) == Err::<
        (Seq<u8>, bool, usize),
        JsonError,
    >(e)
}

impl<'t, 'j> AbstractStringDecoder<'t, 'j> for StringDecoder {
    type Output = StringOutput<'t, 'j>;

    open spec fn spec_next(data: Seq<u8>, index: int, partial: bool) -> Result<usize, JsonError> {
        match spec_decode_str(data, index, partial) {
            Ok((_, _, n)) => Ok(n),
            Err(e) => Err(e),
        }
    }

    open spec fn spec_output(data: Seq<u8>, index: int, partial: bool, out: StringOutput<'t, 'j>) -> bool {
        spec_decode_str(data, index, partial) matches Ok((b, a, _)) && b == out.spec_bytes() && a
            == out.spec_ascii_only()
    }

    fn decode(data: &'j [u8], index: usize, tape: &'t mut Tape, allow_partial: bool) -> (r:
        JsonResult<(StringOutput<'t, 'j>, usize)>)
    {
        let r = decode_str(data, index, tape, allow_partial);
        assert(decoded_matches(r, data@, index as int, allow_partial));
        r
    }
}

/// Decode the string whose opening quote is at `index` to its text.
fn decode_str<'t, 'j>(data: &'j [u8], index: usize, tape: &'t mut Tape, allow_partial: bool) -> (r:
    JsonResult<(StringOutput<'t, 'j>, usize)>)
    requires
        index < data.len() || (!allow_partial && index <= data.len() + 1),
        data.len() <= isize::MAX,
    ensures
        decoded_matches(r, data@, index as int, allow_partial),
        r matches Ok((_, n)) ==> index < n <= data.len() + 1,
{
    {
        let start = index + 1;
        proof {
            lemma_content_step(data@, start as int, true, allow_partial);
        }
        match decode_string_chunk(data, start, true, allow_partial) {
            Err(e) => Err(e),
            Ok((StringChunk::StringEnd, ascii, j)) => {
                let content = &data[start..j];
                proof {
                    if ascii {
                        assert forall|m: int| 0 <= m < content@.len() implies content@[m] < 0x80 by {
                            assert(content@[m] == data@[start + m]);
                        }
                        lemma_ascii_valid(content@);
                    }
                }
                match to_str(content, start, allow_partial) {
                    Ok(s) => Ok((StringOutput::data(s, ascii), j + 1)),
                    Err(e) => Err(e),
                }
            },
            Ok((StringChunk::Backslash, ascii, j)) => decode_to_tape(data, start, j, ascii, tape, allow_partial),
        }
    }
}

/// Decode the content of an escaped string onto `tape`, from `start`, where the first run of
/// plain content ends at the backslash at `j0`.
#[verifier::rlimit(80)]
fn decode_escaped_content(
    data: &[u8],
    start: usize,
    j0: usize,
    ascii0: bool,
    tape: &mut Tape,
    allow_partial: bool,
) -> (r: JsonResult<(bool, usize)>)
    requires
        1 <= start <= j0 < data.len(),
        data.len() <= isize::MAX,
        spec_string_chunk(data@, start as int, true, allow_partial) == Ok::<
            (StringChunk, bool, usize),
            JsonError,
        >((StringChunk::Backslash, ascii0, j0)),
    ensures
        r matches Ok((a, n)) ==> spec_str_content(data@, start as int, true, allow_partial) == Ok::<
            (Seq<u8>, bool, usize),
            JsonError,
        >((final(tape)@, a, n)),
        r matches Err(e) ==> spec_str_content(data@, start as int, true, allow_partial) == Err::<
            (Seq<u8>, bool, usize),
            JsonError,
        >(e),
        final(tape)@.len() <= data.len(),
{
    tape.clear();
    let mut pos = start;
    let mut ascii = true;
    let mut a = ascii0;
    let mut j = j0;
    assert(prepend_content(tape@, spec_str_content(data@, pos as int, ascii, allow_partial))
        == spec_str_content(data@, pos as int, ascii, allow_partial)) by {
        if let Ok((b, x, n)) = spec_str_content(data@, pos as int, ascii, allow_partial) {
            assert(tape@ + b =~= b);
        }
    }
    loop
        invariant
            1 <= start <= pos <= j < data.len(),
            data.len() <= isize::MAX,
            tape@.len() <= pos - start,
            spec_string_chunk(data@, pos as int, ascii, allow_partial) == Ok::<
                (StringChunk, bool, usize),
                JsonError,
            >((StringChunk::Backslash, a, j)),
            spec_str_content(data@, start as int, true, allow_partial) == prepend_content(
                tape@,
                spec_str_content(data@, pos as int, ascii, allow_partial),
            ),
        decreases data.len() - pos,
    {
        let ghost before = tape@;
        let ghost pos_old = pos;
        proof {
            lemma_content_step(data@, pos as int, ascii, allow_partial);
        }
        extend_tape(tape, data, pos, j);
        let k = j + 1;
        if k >= data.len() {
            if allow_partial {
                return Ok((a, k));
            } else {
                return Err(JsonError::new(JsonErrorType::EofWhileParsingString, k));
            }
        }
        if data[k] == 0x75 {
            match parse_escape(data, k) {
                Ok((c, ni)) => {
                    push_scalar(tape, c);
                    ascii = false;
                    pos = ni + 1;
                    proof {
                        let x = data@.subrange(pos_old as int, j as int) + encode_scalar(c);
                        assert(tape@ =~= before + x);
                        assert(encode_scalar(c).len() <= 4);
                        lemma_prepend_assoc(
                            before,
                            x,
                            spec_str_content(data@, pos as int, ascii, allow_partial),
                        );
                    }
                },
                Err(e) => {
                    let eof = match e.error_type {
                        JsonErrorType::EofWhileParsingString => true,
                        _ => false,
                    };
                    if allow_partial && eof {
                        return Ok((a, e.index));
                    }
                    return Err(e);
                },
            }
        } else {
            match simple_escape(data[k]) {
                Some(b) => {
                    tape.push(b);
                    ascii = a;
                    pos = k + 1;
                    proof {
                        let x = data@.subrange(pos_old as int, j as int).push(b);
                        assert(tape@ =~= before + x);
                        lemma_prepend_assoc(
                            before,
                            x,
                            spec_str_content(data@, pos as int, ascii, allow_partial),
                        );
                    }
                },
                None => {
                    return Err(JsonError::new(JsonErrorType::InvalidEscape, k));
                },
            }
        }
        proof {
            lemma_content_step(data@, pos as int, ascii, allow_partial);
        }
        match decode_string_chunk(data, pos, ascii, allow_partial) {
            Err(e) => {
                return Err(e);
            },
            Ok((StringChunk::StringEnd, a2, j2)) => {
                extend_tape(tape, data, pos, j2);
                return Ok((a2, j2 + 1));
            },
            Ok((StringChunk::Backslash, a2, j2)) => {
                a = a2;
                j = j2;
            },
        }
    }
}

fn decode_to_tape<'t, 'j>(
    data: &'j [u8],
    start: usize,
    j0: usize,
    ascii0: bool,
    tape: &'t mut Tape,
    allow_partial: bool,
) -> (r: JsonResult<(StringOutput<'t, 'j>, usize)>)
    requires
        1 <= start <= j0 < data.len(),
        data.len() <= isize::MAX,
        spec_string_chunk(data@, start as int, true, allow_partial) == Ok::<
            (StringChunk, bool, usize),
            JsonError,
        >((StringChunk::Backslash, ascii0, j0)),
    ensures
        decoded_matches(r, data@, start - 1, allow_partial),
        r matches Ok((_, n)) ==> start - 1 < n <= data.len() + 1,
{
    proof {
        lemma_content_ascii(data@, start as int, true, allow_partial);
        lemma_content_len(data@, start as int, true, allow_partial);
    }
    match decode_escaped_content(data, start, j0, ascii0, tape, allow_partial) {
        Err(e) => Err(e),
        Ok((ascii, next)) => {
            let t: &'t Tape = tape;
            proof {
                if ascii {
                    lemma_ascii_valid(t@);
                }
            }
            match to_str(t.as_slice(), start, allow_partial) {
                Ok(s) => Ok((StringOutput::tape(s, ascii), next)),
                Err(e) => Err(e),
            }
        },
    }
}

/// Scanning string content from `pos` without decoding it: where the content ends and the index
/// after the string, or why it is malformed. A partial string may end with the input, or inside
/// an escape, whose backslash then ends the content.
#[verifier::opaque]
pub open spec fn spec_range_content(s: Seq<u8>, pos: int, partial: bool) -> Result<
    (usize, usize),
    JsonError,
>
    decreases s.len() - pos,
{
    if pos < 0 || s.len() > usize::MAX {
        Err(json_error(JsonErrorType::EofWhileParsingString, pos))
    } else {
        match spec_string_chunk(s, pos, true, partial) {
            Err(e) => Err(e),
            Ok((StringChunk::StringEnd, _, j)) => Ok((j, (j + 1) as usize)),
            Ok((StringChunk::Backslash, _, j)) => {
                let k = j + 1;
                if k >= s.len() {
                    if partial {
                        Ok((j, k as usize))
                    } else {
                        Err(json_error(JsonErrorType::EofWhileParsingString, k))
                    }
                } else if s[k] == 0x75 {
                    proof {
                        lemma_parse_escape_progress(s, k);
                        lemma_find_special(s, pos);
                    }
                    match spec_parse_escape(s, k) {
                        Ok((_, ni)) => spec_range_content(s, ni + 1, partial),
                        Err(e) => if partial && e.error_type == JsonErrorType::EofWhileParsingString {
                            Ok((j, e.index))
                        } else {
                            Err(e)
                        },
                    }
                } else {
                    proof {
                        lemma_find_special(s, pos);
                    }
                    if escape_byte(s[k]) is Some {
                        spec_range_content(s, k + 1, partial)
                    } else {
                        Err(json_error(JsonErrorType::InvalidEscape, k))
                    }
                }
            },
        }
    }
}

/// One step of scanning string content, by how the next run of plain content ends.
pub proof fn lemma_range_step(s: Seq<u8>, pos: int, partial: bool)
    requires
        0 <= pos <= s.len(),
        s.len() <= isize::MAX,
    ensures
        ({
            let r = spec_range_content(s, pos, partial);
            match spec_string_chunk(s, pos, true, partial) {
                Err(e) => r == Err::<(usize, usize), JsonError>(e),
                Ok((StringChunk::StringEnd, _, j)) => {
                    &&& pos <= j <= s.len()
                    &&& r == Ok::<(usize, usize), JsonError>((j, (j + 1) as usize))
                },
                Ok((StringChunk::Backslash, _, j)) => {
                    let k = j + 1;
                    &&& pos <= j < s.len()
                    &&& (k >= s.len() ==> r == if partial {
                        Ok::<(usize, usize), JsonError>((j, k as usize))
                    } else {
                        Err::<(usize, usize), JsonError>(
                            json_error(JsonErrorType::EofWhileParsingString, k),
                        )
                    })
                    &&& (k < s.len() && s[k] == 0x75 ==> match spec_parse_escape(s, k) {
                        Ok((_, ni)) => {
                            &&& k + 4 <= ni < s.len()
                            &&& r == spec_range_content(s, ni + 1, partial)
                        },
                        Err(e) => r == if partial && e.error_type
                            == JsonErrorType::EofWhileParsingString {
                            Ok::<(usize, usize), JsonError>((j, e.index))
                        } else {
                            Err::<(usize, usize), JsonError>(e)
                        },
                    })
                    &&& (k < s.len() && s[k] != 0x75 ==> if escape_byte(s[k]) is Some {
                        r == spec_range_content(s, k + 1, partial)
                    } else {
                        r == Err::<(usize, usize), JsonError>(
                            json_error(JsonErrorType::InvalidEscape, k),
                        )
                    })
                },
            }
        }),
{
    reveal(spec_range_content);
    lemma_find_special(s, pos);
    let j = find_special(s, pos);
    if j < s.len() {
        lemma_parse_escape_progress(s, j + 1);
    }
}

/// Scanned string content ends within the input, no earlier than it starts.
pub proof fn lemma_range_bounds(s: Seq<u8>, pos: int, partial: bool)
    requires
        0 <= pos <= s.len(),
        s.len() <= isize::MAX,
    ensures
        spec_range_content(s, pos, partial) matches Ok((end, n)) ==> pos <= end <= s.len() && end
            < n <= s.len() + 1,
    decreases s.len() - pos,
{
    lemma_range_step(s, pos, partial);
    if let Ok((StringChunk::Backslash, _, j)) = spec_string_chunk(s, pos, true, partial) {
        let k = j + 1;
        if k < s.len() {
            if s[k] == 0x75 {
                if let Ok((_, ni)) = spec_parse_escape(s, k) {
                    lemma_range_bounds(s, ni + 1, partial);
                } else {
                    lemma_parse_escape_error_index(s, k);
                }
            } else if escape_byte(s[k]) is Some {
                lemma_range_bounds(s, k + 1, partial);
            }
        }
    }
}

/// An escape cut short by the end of the input is reported at the end of the input.
pub proof fn lemma_parse_escape_error_index(s: Seq<u8>, i: int)
    requires
        0 <= i < s.len(),
        s.len() <= isize::MAX,
    ensures
        spec_parse_escape(s, i) matches Err(e) ==> (e.error_type
            == JsonErrorType::EofWhileParsingString ==> e.index == s.len()),
{
}

/// Finds where a string ends without decoding it, returning the range of its content in the
/// input. It does not check that the content is valid UTF-8.
pub struct StringDecoderRange;

/// What scanning the string at `index` returns: the range of its content and the index after.
pub open spec fn range_matches(r: JsonResult<(Range<usize>, usize)>, s: Seq<u8>, index: int, partial: bool) -> bool {
    &&& r matches Ok((rg, n)) ==> rg.start == index + 1 && rg.start <= rg.end <= s.len()
        && spec_range_content(s, index + 1, partial) == Ok::<(usize, usize), JsonError>((rg.end, n))
    &&& r matches Err(e) ==> spec_range_content(s, index + 1, partial) == Err::<
        (usize, usize),
        JsonError,
    >(e)
}

impl<'t, 'j> AbstractStringDecoder<'t, 'j> for StringDecoderRange {
    type Output = Range<usize>;

    open spec fn spec_next(data: Seq<u8>, index: int, partial: bool) -> Result<usize, JsonError> {
        match spec_range_content(data, index + 1, partial) {
            Ok((_, n)) => Ok(n),
            Err(e) => Err(e),
        }
    }

    open spec fn spec_output(data: Seq<u8>, index: int, partial: bool, out: Range<usize>) -> bool {
        &&& spec_range_content(data, index + 1, partial) matches Ok((end, _))
        &&& out.start == index + 1
        &&& out.end == end
        &&& out.start <= out.end <= data.len()
    }

    fn decode(data: &'j [u8], index: usize, tape: &'t mut Tape, allow_partial: bool) -> (r:
        JsonResult<(Range<usize>, usize)>)
    {
        decode_range(data, index, allow_partial)
    }
}

/// Scan the string whose opening quote is at `index`, returning the range of its content.
fn decode_range(data: &[u8], index: usize, allow_partial: bool) -> (r: JsonResult<(Range<usize>, usize)>)
    requires
        index < data.len() || (!allow_partial && index <= data.len() + 1),
        data.len() <= isize::MAX,
    ensures
        range_matches(r, data@, index as int, allow_partial),
        r matches Ok((_, n)) ==> index < n <= data.len() + 1,
{
        let start = index + 1;
        if start > data.len() {
            proof {
                reveal(spec_range_content);
                lemma_find_special(data@, start as int);
            }
            return Err(JsonError::new(JsonErrorType::EofWhileParsingString, start));
        }
        proof {
            lemma_range_bounds(data@, start as int, allow_partial);
        }
        let mut pos = start;
        loop
            invariant
                start == index + 1,
                start <= pos <= data.len(),
                data.len() <= isize::MAX,
                spec_range_content(data@, start as int, allow_partial) matches Ok((end, n)) ==> start
                    <= end <= data.len(),
                spec_range_content(data@, start as int, allow_partial) == spec_range_content(
                    data@,
                    pos as int,
                    allow_partial,
                ),
            decreases data.len() - pos,
        {
            proof {
                lemma_range_step(data@, pos as int, allow_partial);
            }
            let j = match decode_string_chunk(data, pos, true, allow_partial) {
                Err(e) => return Err(e),
                Ok((StringChunk::StringEnd, _, j)) => return Ok((start..j, j + 1)),
                Ok((StringChunk::Backslash, _, j)) => j,
            };
            let k = j + 1;
            if k >= data.len() {
                if allow_partial {
                    return Ok((start..j, k));
                } else {
                    return Err(JsonError::new(JsonErrorType::EofWhileParsingString, k));
                }
            }
            if data[k] == 0x75 {
                match parse_escape(data, k) {
                    Ok((_, ni)) => {
                        pos = ni + 1;
                    },
                    Err(e) => {
                        let eof = match e.error_type {
                            JsonErrorType::EofWhileParsingString => true,
                            _ => false,
                        };
                        if allow_partial && eof {
                            return Ok((start..j, e.index));
                        }
                        return Err(e);
                    },
                }
            } else {
                match simple_escape(data[k]) {
                    Some(_) => {
                        pos = k + 1;
                    },
                    None => {
                        return Err(JsonError::new(JsonErrorType::InvalidEscape, k));
                    },
                }
            }
        }
}

/// Finding where a string ends without decoding it agrees with decoding it: the same index
/// after the string, and the same error, for every input (decoding then also checks UTF-8).
pub proof fn lemma_range_agrees_with_content(s: Seq<u8>, pos: int, ascii: bool, partial: bool)
    requires
        0 <= pos <= s.len(),
        s.len() <= isize::MAX,
    ensures
        match (spec_range_content(s, pos, partial), spec_str_content(s, pos, ascii, partial)) {
            (Ok((_, n1)), Ok((_, _, n2))) => n1 == n2,
            (Err(e1), Err(e2)) => e1 == e2,
            _ => false,
        },
    decreases s.len() - pos,
{
    lemma_range_step(s, pos, partial);
    lemma_content_step(s, pos, ascii, partial);
    lemma_find_special(s, pos);
    if let Ok((StringChunk::Backslash, a, j)) = spec_string_chunk(s, pos, ascii, partial) {
        let k = j + 1;
        if k < s.len() {
            if s[k] == 0x75 {
                if let Ok((c, ni)) = spec_parse_escape(s, k) {
                    lemma_range_agrees_with_content(s, ni + 1, false, partial);
                }
            } else if let Some(b) = escape_byte(s[k]) {
                lemma_range_agrees_with_content(s, k + 1, a, partial);
            }
        }
    }
}

} // verus!
