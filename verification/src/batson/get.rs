//! Looking up a value in batson bytes by a path of keys and indices, without decoding the rest.
use vstd::prelude::*;
use vstd::string::*;
use vstd::utf8::*;

use crate::batson::array::{
    header_array_get, i64_array_get, spec_het_header, spec_i64_array, spec_u8_array, u8_array_get,
    HetArray,
};
use crate::batson::decoder::{pow256, spec_take_slice, wide, Decoder};
use crate::batson::errors::{DecodeError, DecodeErrorType, DecodeResult};
use crate::batson::header::{
    number_hint_code, spec_header_of, spec_int_bytes, spec_read_header, spec_read_length, Header,
    NumberHint,
};
use crate::batson::object::{index_past, spec_object_get, spec_object_header, Object};

verus! {

/// A step of a path into a batson value: an object's key or an array's index.
#[derive(Debug)]
pub enum BatsonPath<'s> {
    Key(&'s str),
    Index(usize),
}

/// What a lookup reached: the header of a value (with where its data starts), an item of a
/// `u8` array, or an item of an `i64` array.
pub enum Found {
    AtHeader(int, Header),
    Byte(u8),
    Int(i64),
}

/// Where a lookup is: the decoder's position, the header of the value reached (if the last step
/// reached one), and the last item of a `u8` or `i64` array reached.
pub struct GetState {
    pub index: int,
    pub header: Option<Header>,
    pub item: Option<Found>,
}

/// Whether a lookup of `key` in an object whose super header is `items` (fields of `w` bytes)
/// panics: a key short enough to look for, in an object with no items.
pub open spec fn lookup_panics(key: Seq<u8>, w: nat, items: Seq<(int, int, int)>) -> bool {
    key.len() < pow256(w) && items.len() == 0
}

/// One step of a lookup from `st`, whose header is `h`: the state after it, its error, or
/// `None` where the step panics.
pub open spec fn spec_get_step(s: Seq<u8>, st: GetState, h: Header, step: BatsonPath) -> Option<Result<GetState, DecodeError>> {
    let none = GetState { index: st.index, header: None, item: st.item };
    match step {
        BatsonPath::Key(key) => match h {
            Header::Object(l) => match spec_object_header(s, st.index, l) {
                Err(e) => Some(Err(e)),
                Ok((w, items, end)) => if lookup_panics(key.spec_bytes(), w, items) {
                    None
                } else {
                    match spec_object_get(s, end, w, items, key.spec_bytes()) {
                        Err(e) => Some(Err(e)),
                        Ok((found, i2)) => if found {
                            match spec_read_header(s, i2) {
                                Err(e) => Some(Err(e)),
                                Ok((h2, i3)) => Some(Ok(GetState { index: i3, header: Some(h2), item: st.item })),
                            }
                        } else {
                            Some(Ok(GetState { index: i2, header: None, item: st.item }))
                        },
                    }
                },
            },
            _ => Some(Ok(none)),
        },
        BatsonPath::Index(i) => match h {
            Header::HeaderArray(l) => match spec_u8_array(s, st.index, l) {
                Err(e) => Some(Err(e)),
                Ok((t, end)) => if i < t.len() {
                    match spec_header_of(t[i as int]) {
                        Ok(h2) => Some(Ok(GetState { index: end, header: Some(h2), item: st.item })),
                        Err(error_type) => Some(Err(DecodeError { index: end as usize, error_type })),
                    }
                } else {
                    Some(Ok(GetState { index: end, header: None, item: st.item }))
                },
            },
            Header::U8Array(l) => match spec_u8_array(s, st.index, l) {
                Err(e) => Some(Err(e)),
                Ok((t, end)) => Some(
                    Ok(
                        GetState {
                            index: end,
                            header: None,
                            item: if i < t.len() {
                                Some(Found::Byte(t[i as int]))
                            } else {
                                st.item
                            },
                        },
                    ),
                ),
            },
            Header::I64Array(l) => match spec_i64_array(s, st.index, l) {
                Err(e) => Some(Err(e)),
                Ok((t, end)) => Some(
                    Ok(
                        GetState {
                            index: end,
                            header: None,
                            item: if i < t.len() {
                                Some(Found::Int(t[i as int] as i64))
                            } else {
                                st.item
                            },
                        },
                    ),
                ),
            },
            Header::HetArray(l) => match spec_het_header(s, st.index, l) {
                Err(e) => Some(Err(e)),
                Ok((offsets, end)) => if i < offsets.len() {
                    match spec_read_header(s, end + offsets[i as int]) {
                        Err(e) => Some(Err(e)),
                        Ok((h2, i3)) => Some(Ok(GetState { index: i3, header: Some(h2), item: st.item })),
                    }
                } else {
                    Some(Ok(GetState { index: end, header: None, item: st.item }))
                },
            },
            _ => Some(Ok(none)),
        },
    }
}

/// The lookup of the steps of `path` from the `k`-th on, from `st`: what it reaches (nothing
/// once a step reaches no header before the path ends), its error, or `None` where it panics.
pub open spec fn spec_get_walk(s: Seq<u8>, path: Seq<BatsonPath>, k: int, st: GetState) -> Option<
    Result<Option<Found>, DecodeError>,
>
    decreases path.len() - k,
{
    if k >= path.len() {
        Some(
            Ok(
                match st.header {
                    Some(h) => Some(Found::AtHeader(st.index, h)),
                    None => st.item,
                },
            ),
        )
    } else {
        match st.header {
            None => Some(Ok(None)),
            Some(h) => match spec_get_step(s, st, h, path[k]) {
                None => None,
                Some(Err(e)) => Some(Err(e)),
                Some(Ok(st2)) => spec_get_walk(s, path, k + 1, st2),
            },
        }
    }
}

/// Looking up `path` in the batson bytes `s`: from the first header, each key through an
/// object's super header and each index through an array; what it reaches, its error, or
/// `None` where it panics.
pub open spec fn spec_get(s: Seq<u8>, path: Seq<BatsonPath>) -> Option<Result<Option<Found>, DecodeError>> {
    match spec_read_header(s, 0) {
        Err(e) => Some(Err(e)),
        Ok((h, i)) => spec_get_walk(s, path, 0, GetState { index: i, header: Some(h), item: None }),
    }
}

/// Whether the step `step` from a value with header `h` reads memory as numbers: a key looked up
/// in an object with a wide table, or an index into an `i64` array or into an array of mixed
/// values with a wide table.
pub open spec fn step_casts(h: Header, step: BatsonPath) -> bool {
    match step {
        BatsonPath::Key(_) => match h {
            Header::Object(l) => wide(l),
            _ => false,
        },
        BatsonPath::Index(_) => match h {
            Header::I64Array(_) => true,
            Header::HetArray(l) => wide(l),
            _ => false,
        },
    }
}

/// Whether the lookup of the steps of `path` from the `k`-th on, from `st`, reads memory as
/// numbers at some step it takes.
pub open spec fn walk_casts(s: Seq<u8>, path: Seq<BatsonPath>, k: int, st: GetState) -> bool
    decreases path.len() - k,
{
    if k >= path.len() {
        false
    } else {
        match st.header {
            None => false,
            Some(h) => step_casts(h, path[k]) || match spec_get_step(s, st, h, path[k]) {
                Some(Ok(st2)) => walk_casts(s, path, k + 1, st2),
                _ => false,
            },
        }
    }
}

/// Whether looking up `path` in `s` reads memory as numbers at some step.
pub open spec fn get_casts(s: Seq<u8>, path: Seq<BatsonPath>) -> bool {
    match spec_read_header(s, 0) {
        Err(_) => false,
        Ok((h, i)) => walk_casts(s, path, 0, GetState { index: i, header: Some(h), item: None }),
    }
}

/// A value a lookup reached: the decoder at the value's data with its header, an item of a
/// `u8` array, or an item of an `i64` array.
#[derive(Debug)]
pub enum GetValue<'b> {
    Header(Decoder<'b>, Header),
    U8(u8),
    I64(i64),
}

/// Whether `v` is what the lookup reached in `bytes`.
pub open spec fn found_is(v: GetValue, found: Found, bytes: Seq<u8>) -> bool {
    match (v, found) {
        (GetValue::Header(d, h), Found::AtHeader(i, h2)) => d.spec_bytes() == bytes && d.wf() && d.index == i && h == h2,
        (GetValue::U8(b), Found::Byte(b2)) => b == b2,
        (GetValue::I64(x), Found::Int(x2)) => x == x2,
        _ => false,
    }
}

/// Whether `r` is the lookup's outcome `spec` for `bytes`; or, where the lookup reads memory as
/// numbers (`cast`), an error from that read, which depends on where the bytes lie.
pub open spec fn get_outcome<'b>(
    r: DecodeResult<Option<GetValue<'b>>>,
    spec: Result<Option<Found>, DecodeError>,
    bytes: Seq<u8>,
    cast: bool,
) -> bool {
    (cast && (r matches Err(e) && e.error_type is PodCastError)) || match spec {
        Err(e) => r == Err::<Option<GetValue>, DecodeError>(e),
        Ok(None) => r matches Ok(None),
        Ok(Some(f)) => r matches Ok(Some(v)) && found_is(v, f, bytes),
    }
}

/// Whether the bytes and path can be looked up: the bytes fit an `isize`, and the lookup does
/// not meet an empty object with a key short enough to look for.
pub open spec fn can_get(bytes: Seq<u8>, path: Seq<BatsonPath>) -> bool {
    bytes.len() <= isize::MAX && spec_get(bytes, path) is Some
}

impl<'b> GetValue<'b> {
    /// Look `path` up in `bytes`: from the first header, each key through an object's super
    /// header and each index through an array.
    #[verifier::rlimit(40)]
    pub fn get(bytes: &'b [u8], path: &[BatsonPath]) -> (r: DecodeResult<Option<Self>>)
        requires
            can_get(bytes@, path@),
        ensures
            get_outcome(r, spec_get(bytes@, path@)->0, bytes@, get_casts(bytes@, path@)),
    {
        let mut decoder = Decoder::new(bytes);
        let first = match decoder.take_header() {
            Ok(h) => h,
            Err(e) => return Err(e),
        };
        let mut opt_header: Option<Header> = Some(first);
        let mut value: Option<GetValue<'b>> = None;
        let ghost item: Option<Found> = None;
        let mut k: usize = 0;
        while k < path.len()
            invariant
                k <= path.len(),
                can_get(bytes@, path@),
                decoder.wf(),
                decoder.spec_bytes() == bytes@,
                opt_header is Some ==> decoder.index <= bytes@.len(),
                match (value, item) {
                    (None, None) => true,
                    (Some(v), Some(f)) => found_is(v, f, bytes@) && !(f is AtHeader),
                    _ => false,
                },
                spec_get(bytes@, path@) == spec_get_walk(
                    bytes@,
                    path@,
                    k as int,
                    GetState { index: decoder.index as int, header: opt_header, item },
                ),
                walk_casts(
                    bytes@,
                    path@,
                    k as int,
                    GetState { index: decoder.index as int, header: opt_header, item },
                ) ==> get_casts(bytes@, path@),
            decreases path.len() - k,
        {
            let header = match opt_header {
                Some(h) => h,
                None => return Ok(None),
            };
            opt_header = None;
            let ghost st = GetState { index: decoder.index as int, header: Some(header), item };
            match &path[k] {
                BatsonPath::Key(key) => {
                    match header {
                        Header::Object(length) => {
                            let object = match Object::decode_header(&mut decoder, length) {
                                Ok(o) => o,
                                Err(e) => return Err(e),
                            };
                            let found = match object.get(&mut decoder, key) {
                                Ok(f) => f,
                                Err(e) => return Err(e),
                            };
                            if found {
                                opt_header = match decoder.take_header() {
                                    Ok(h) => Some(h),
                                    Err(e) => return Err(e),
                                };
                            }
                        },
                        _ => {},
                    }
                },
                BatsonPath::Index(index) => {
                    let index = *index;
                    match header {
                        Header::HeaderArray(length) => {
                            opt_header = match header_array_get(&mut decoder, length, index) {
                                Ok(h) => h,
                                Err(e) => return Err(e),
                            };
                        },
                        Header::U8Array(length) => {
                            match u8_array_get(&mut decoder, length, index) {
                                Ok(Some(u)) => {
                                    value = Some(GetValue::U8(u));
                                    proof {
                                        item = Some(Found::Byte(u));
                                    }
                                },
                                Ok(None) => {},
                                Err(e) => return Err(e),
                            }
                        },
                        Header::I64Array(length) => {
                            match i64_array_get(&mut decoder, length, index) {
                                Ok(Some(x)) => {
                                    value = Some(GetValue::I64(x));
                                    proof {
                                        item = Some(Found::Int(x));
                                    }
                                },
                                Ok(None) => {},
                                Err(e) => return Err(e),
                            }
                        },
                        Header::HetArray(length) => {
                            let a = match HetArray::decode_header(&mut decoder, length) {
                                Ok(a) => a,
                                Err(e) => return Err(e),
                            };
                            proof {
                                a.lemma_offsets_bounded();
                            }
                            if let Some(offset) = a.offset(index) {
                                if offset > usize::MAX - decoder.index {
                                    // the item would start past any index, so past the end of the bytes
                                    return Err(
                                        DecodeError { index: index_past(decoder.index, offset), error_type: DecodeErrorType::EOF },
                                    );
                                }
                            }
                            if a.get(&mut decoder, index) {
                                opt_header = match decoder.take_header() {
                                    Ok(h) => Some(h),
                                    Err(e) => return Err(e),
                                };
                            }
                        },
                        _ => {},
                    }
                },
            }
            k += 1;
        }
        match opt_header {
            Some(header) => Ok(Some(GetValue::Header(decoder, header))),
            None => match value {
                Some(v) => Ok(Some(v)),
                None => Ok(None),
            },
        }
    }
}

/// Whether `r` is an error from reading memory as numbers.
pub open spec fn cast_failed<T>(r: DecodeResult<T>) -> bool {
    r matches Err(e) && e.error_type is PodCastError
}

impl<'b> GetValue<'b> {
    /// The header reached, if the lookup reached one.
    pub fn header(self) -> (r: Option<Header>)
        ensures
            r == (match self {
                GetValue::Header(_, h) => Some(h),
                _ => None,
            }),
    {
        match self {
            GetValue::Header(_, h) => Some(h),
            _ => None,
        }
    }

    /// The length of the string, object or array reached: the length its header gives.
    pub fn into_length(self) -> (r: DecodeResult<Option<usize>>)
        requires
            self matches GetValue::Header(d, _) ==> d.wf(),
        ensures
            match self {
                GetValue::Header(d, h) => match h {
                    Header::Str(l) | Header::Object(l) | Header::HeaderArray(l) | Header::U8Array(l)
                    | Header::I64Array(l) | Header::HetArray(l) => match spec_read_length(
                        d.spec_bytes(),
                        d.index as int,
                        l,
                    ) {
                        Ok((v, _)) => r matches Ok(Some(x)) && x == v,
                        Err(e) => r == Err::<Option<usize>, DecodeError>(e),
                    },
                    _ => r == Ok::<Option<usize>, DecodeError>(None),
                },
                _ => r == Ok::<Option<usize>, DecodeError>(None),
            },
    {
        match self {
            GetValue::Header(mut decoder, header) => match header {
                Header::Str(length) | Header::Object(length) | Header::HeaderArray(length)
                | Header::U8Array(length) | Header::I64Array(length) | Header::HetArray(length) => {
                    match length.decode(&mut decoder) {
                        Ok(n) => Ok(Some(n)),
                        Err(e) => Err(e),
                    }
                },
                _ => Ok(None),
            },
            _ => Ok(None),
        }
    }

    /// The boolean reached, if the lookup reached one.
    pub fn to_bool(self) -> (r: Option<bool>)
        ensures
            r == (match self {
                GetValue::Header(_, Header::Bool(b)) => Some(b),
                _ => None,
            }),
    {
        match self.header() {
            Some(h) => h.into_bool(),
            None => None,
        }
    }

    /// The string reached, if the lookup reached one: its length, then its UTF-8 bytes.
    pub fn to_str(self) -> (r: DecodeResult<Option<&'b str>>)
        requires
            self matches GetValue::Header(d, _) ==> d.wf(),
        ensures
            match self {
                GetValue::Header(d, Header::Str(l)) => match spec_read_length(d.spec_bytes(), d.index as int, l) {
                    Err(e) => r == Err::<Option<&str>, DecodeError>(e),
                    Ok((n, i1)) => match spec_take_slice(d.spec_bytes(), i1, n) {
                        Err(e) => r == Err::<Option<&str>, DecodeError>(e),
                        Ok(t) => if valid_utf8(t) {
                            r matches Ok(Some(v)) && v.spec_bytes() == t
                        } else {
                            r matches Err(e) && e.index == i1 && e.error_type is Utf8Error
                        },
                    },
                },
                _ => r == Ok::<Option<&str>, DecodeError>(None),
            },
    {
        match self {
            GetValue::Header(mut decoder, Header::Str(length)) => {
                let n = match length.decode(&mut decoder) {
                    Ok(n) => n,
                    Err(e) => return Err(e),
                };
                match decoder.take_str(n) {
                    Ok(s) => Ok(Some(s)),
                    Err(e) => Err(e),
                }
            },
            _ => Ok(None),
        }
    }

    /// The integer reached, if the lookup reached one: from an integer's header and the bytes
    /// after it, or an item of a `u8` or `i64` array.
    pub fn to_int(self) -> (r: DecodeResult<Option<i64>>)
        requires
            self matches GetValue::Header(d, _) ==> d.wf(),
        ensures
            match self {
                GetValue::Header(d, Header::Int(n)) => match n {
                    NumberHint::Size8 => spec_int_result(d.spec_bytes(), d.index as int, 1, r),
                    NumberHint::Size32 => spec_int_result(d.spec_bytes(), d.index as int, 4, r),
                    NumberHint::Size64 => spec_int_result(d.spec_bytes(), d.index as int, 8, r),
                    _ => r == Ok::<Option<i64>, DecodeError>(Some(number_hint_code(n) as i64)),
                },
                GetValue::I64(x) => r == Ok::<Option<i64>, DecodeError>(Some(x)),
                GetValue::U8(b) => r == Ok::<Option<i64>, DecodeError>(Some(b as i64)),
                _ => r == Ok::<Option<i64>, DecodeError>(None),
            },
    {
        match self {
            GetValue::Header(mut decoder, Header::Int(n)) => match n.decode_i64(&mut decoder) {
                Ok(x) => Ok(Some(x)),
                Err(e) => Err(e),
            },
            GetValue::I64(x) => Ok(Some(x)),
            GetValue::U8(b) => Ok(Some(b as i64)),
            _ => Ok(None),
        }
    }
}

/// Whether `r` is what reading an `n`-byte little-endian signed integer at `index` gives.
pub open spec fn spec_int_result(s: Seq<u8>, index: int, n: nat, r: DecodeResult<Option<i64>>) -> bool {
    match spec_take_slice(s, index, n as int) {
        Ok(t) => r matches Ok(Some(v)) && v as int == crate::batson::decoder::twos_complement(
            crate::batson::decoder::le_value(t),
            n,
        ),
        Err(e) => r == Err::<Option<i64>, DecodeError>(e),
    }
}

/// The boolean at `path` in the batson bytes `bytes`, if there is one there.
pub fn get_bool(bytes: &[u8], path: &[BatsonPath]) -> (r: DecodeResult<Option<bool>>)
    requires
        can_get(bytes@, path@),
    ensures
        (get_casts(bytes@, path@) && cast_failed(r)) || match spec_get(bytes@, path@)->0 {
            Err(e) => r == Err::<Option<bool>, DecodeError>(e),
            Ok(Some(Found::AtHeader(_, Header::Bool(b)))) => r == Ok::<Option<bool>, DecodeError>(Some(b)),
            Ok(_) => r == Ok::<Option<bool>, DecodeError>(None),
        },
{
    match GetValue::get(bytes, path) {
        Ok(Some(v)) => Ok(v.to_bool()),
        Ok(None) => Ok(None),
        Err(e) => Err(e),
    }
}

/// The string at `path` in the batson bytes `bytes`, if there is one there.
pub fn get_str<'b>(bytes: &'b [u8], path: &[BatsonPath]) -> (r: DecodeResult<Option<&'b str>>)
    requires
        can_get(bytes@, path@),
    ensures
        (get_casts(bytes@, path@) && cast_failed(r)) || match spec_get(bytes@, path@)->0 {
            Err(e) => r == Err::<Option<&str>, DecodeError>(e),
            Ok(Some(Found::AtHeader(i, Header::Str(l)))) => match spec_read_length(bytes@, i, l) {
                Err(e) => r == Err::<Option<&str>, DecodeError>(e),
                Ok((n, i1)) => match spec_take_slice(bytes@, i1, n) {
                    Err(e) => r == Err::<Option<&str>, DecodeError>(e),
                    Ok(t) => if valid_utf8(t) {
                        r matches Ok(Some(v)) && v.spec_bytes() == t
                    } else {
                        r matches Err(e) && e.index == i1 && e.error_type is Utf8Error
                    },
                },
            },
            Ok(_) => r == Ok::<Option<&str>, DecodeError>(None),
        },
{
    match GetValue::get(bytes, path) {
        Ok(Some(v)) => v.to_str(),
        Ok(None) => Ok(None),
        Err(e) => Err(e),
    }
}

/// The integer at `path` in the batson bytes `bytes`, if there is one there.
pub fn get_int(bytes: &[u8], path: &[BatsonPath]) -> (r: DecodeResult<Option<i64>>)
    requires
        can_get(bytes@, path@),
    ensures
        (get_casts(bytes@, path@) && cast_failed(r)) || match spec_get(bytes@, path@)->0 {
            Err(e) => r == Err::<Option<i64>, DecodeError>(e),
            Ok(Some(Found::AtHeader(i, Header::Int(n)))) => match n {
                NumberHint::Size8 => spec_int_result(bytes@, i, 1, r),
                NumberHint::Size32 => spec_int_result(bytes@, i, 4, r),
                NumberHint::Size64 => spec_int_result(bytes@, i, 8, r),
                _ => r == Ok::<Option<i64>, DecodeError>(Some(number_hint_code(n) as i64)),
            },
            Ok(Some(Found::Int(x))) => r == Ok::<Option<i64>, DecodeError>(Some(x)),
            Ok(Some(Found::Byte(b))) => r == Ok::<Option<i64>, DecodeError>(Some(b as i64)),
            Ok(_) => r == Ok::<Option<i64>, DecodeError>(None),
        },
{
    match GetValue::get(bytes, path) {
        Ok(Some(v)) => v.to_int(),
        Ok(None) => Ok(None),
        Err(e) => Err(e),
    }
}

/// Whether `path` reaches a value in the batson bytes `bytes`.
pub fn contains(bytes: &[u8], path: &[BatsonPath]) -> (r: DecodeResult<bool>)
    requires
        can_get(bytes@, path@),
    ensures
        (get_casts(bytes@, path@) && cast_failed(r)) || match spec_get(bytes@, path@)->0 {
            Err(e) => r == Err::<bool, DecodeError>(e),
            Ok(f) => r == Ok::<bool, DecodeError>(f is Some),
        },
{
    match GetValue::get(bytes, path) {
        Ok(v) => Ok(v.is_some()),
        Err(e) => Err(e),
    }
}

/// The length of the string, object or array at `path` in the batson bytes `bytes`, if there is
/// one there.
pub fn get_length(bytes: &[u8], path: &[BatsonPath]) -> (r: DecodeResult<Option<usize>>)
    requires
        can_get(bytes@, path@),
    ensures
        (get_casts(bytes@, path@) && cast_failed(r)) || match spec_get(bytes@, path@)->0 {
            Err(e) => r == Err::<Option<usize>, DecodeError>(e),
            Ok(Some(Found::AtHeader(i, h))) => match h {
                Header::Str(l) | Header::Object(l) | Header::HeaderArray(l) | Header::U8Array(l)
                | Header::I64Array(l) | Header::HetArray(l) => match spec_read_length(bytes@, i, l) {
                    Ok((v, _)) => r matches Ok(Some(x)) && x == v,
                    Err(e) => r == Err::<Option<usize>, DecodeError>(e),
                },
                _ => r == Ok::<Option<usize>, DecodeError>(None),
            },
            Ok(_) => r == Ok::<Option<usize>, DecodeError>(None),
        },
{
    match GetValue::get(bytes, path) {
        Ok(Some(v)) => v.into_length(),
        Ok(None) => Ok(None),
        Err(e) => Err(e),
    }
}

} // verus!
