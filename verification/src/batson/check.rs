//! Finding whether decoding batson bytes would reach what jiter does not decode (a big integer,
//! or a number given by its size in an array of headers), without building the values.
use vstd::prelude::*;

use crate::batson::array::{spec_u8_array, u8_array_slice, HetArray};
use crate::batson::decoder::{
    casts_entries, casts_items, casts_value, spec_header_value, spec_header_values, spec_take_entries, spec_take_items,
    spec_take_value, Decoded, Decoder,
};
use crate::batson::errors::{DecodeError, DecodeResult};
use crate::batson::header::{Header, NumberHint};
use crate::batson::object::{items_view, Object};
use crate::value::ValueView;

verus! {

/// Whether `r` is what decoding gives by `o`, with no value built: `Some(())` where decoding
/// ends (there `end`), `None` where it does not decode what it meets, decoding's own error where
/// it fails; or, where decoding reads memory as numbers (`cast`), an error from that read.
pub open spec fn checked_as<V>(r: DecodeResult<Option<()>>, o: Decoded<V>, end: int, cast: bool) -> bool {
    (cast && (r matches Err(e) && e.error_type is PodCastError)) || match o {
        Decoded::Done(_, e) => r == Ok::<Option<()>, DecodeError>(Some(())) && end == e,
        Decoded::Fail(e) => r == Err::<Option<()>, DecodeError>(e),
        Decoded::BadUtf8(i) => r matches Err(e) && e.index == i && e.error_type is Utf8Error,
        Decoded::Panic => r == Ok::<Option<()>, DecodeError>(None),
    }
}

/// Whether the header alone gives a value, as an item of an array of headers.
fn header_alone(h: Header) -> (r: bool)
    ensures
        r == (spec_header_value(h) is Some),
{
    match h {
        Header::IntBig(..) => false,
        Header::Int(n) | Header::Float(n) => match n {
            NumberHint::Size8 | NumberHint::Size32 | NumberHint::Size64 => false,
            _ => true,
        },
        _ => true,
    }
}

/// Check the items of an array of headers after a header with length `length`.
fn check_header_array(d: &mut Decoder, length: crate::batson::header::Length) -> (r: DecodeResult<Option<()>>)
    requires
        old(d).wf(),
    ensures
        final(d).wf(),
        final(d).spec_bytes() == old(d).spec_bytes(),
        match spec_u8_array(old(d).spec_bytes(), old(d).index as int, length) {
            Ok((t, end)) => checked_as(r, spec_header_values(t, end, 0, Seq::empty()), final(d).index as int, false),
            Err(e) => r == Err::<Option<()>, DecodeError>(e),
        },
        r == Ok::<Option<()>, DecodeError>(Some(())) ==> old(d).index <= final(d).index <= final(d).spec_bytes().len(),
{
    let bytes = match u8_array_slice(d, length) {
        Ok(b) => b,
        Err(e) => return Err(e),
    };
    let ghost end = d.index as int;
    let ghost mut acc: Seq<ValueView> = Seq::empty();
    let mut k: usize = 0;
    while k < bytes.len()
        invariant
            k <= bytes.len(),
            d.wf(),
            d.index == end,
            d.spec_bytes() == old(d).spec_bytes(),
            spec_u8_array(old(d).spec_bytes(), old(d).index as int, length) == Ok::<(Seq<u8>, int), DecodeError>((bytes@, end)),
            spec_header_values(bytes@, end, 0, Seq::empty()) == spec_header_values(bytes@, end, k as int, acc),
        decreases bytes.len() - k,
    {
        let h = match Header::decode(bytes[k], d) {
            Ok(h) => h,
            Err(e) => return Err(e),
        };
        if !header_alone(h) {
            return Ok(None);
        }
        proof {
            acc = acc.push(spec_header_value(h)->0);
        }
        k += 1;
    }
    Ok(Some(()))
}

impl<'b> Decoder<'b> {
    /// Check the value whose header is next: decode it without building it.
    pub fn check_value(&mut self) -> (r: DecodeResult<Option<()>>)
        requires
            old(self).wf(),
        ensures
            final(self).wf(),
            final(self).spec_bytes() == old(self).spec_bytes(),
            checked_as(
                r,
                spec_take_value(old(self).spec_bytes(), old(self).index as int),
                final(self).index as int,
                casts_value(old(self).spec_bytes(), old(self).index as int),
            ),
            r == Ok::<Option<()>, DecodeError>(Some(())) ==> old(self).index < final(self).index
                <= final(self).spec_bytes().len(),
        decreases old(self).spec_bytes().len() - old(self).index, 0int,
    {
        let header = match self.take_header() {
            Ok(h) => h,
            Err(e) => return Err(e),
        };
        match header {
            Header::Null | Header::Bool(_) => Ok(Some(())),
            Header::Int(n) => match n.decode_i64(self) {
                Ok(_) => Ok(Some(())),
                Err(e) => Err(e),
            },
            Header::IntBig(..) => Ok(None),
            Header::Float(n) => match n.decode_f64(self) {
                Ok(_) => Ok(Some(())),
                Err(e) => Err(e),
            },
            Header::Str(length) => match self.decode_str(length) {
                Ok(_) => Ok(Some(())),
                Err(e) => Err(e),
            },
            Header::Object(length) => {
                let obj = match Object::decode_header(self, length) {
                    Ok(o) => o,
                    Err(e) => return Err(e),
                };
                self.check_entries(&obj)
            },
            Header::HetArray(length) => {
                let het = match HetArray::decode_header(self, length) {
                    Ok(h) => h,
                    Err(e) => return Err(e),
                };
                let n = het.len();
                self.check_items(n)
            },
            Header::U8Array(length) => match u8_array_slice(self, length) {
                Ok(_) => Ok(Some(())),
                Err(e) => Err(e),
            },
            Header::HeaderArray(length) => check_header_array(self, length),
            Header::I64Array(length) => match crate::batson::array::i64_array_slice(self, length) {
                Ok(_) => Ok(Some(())),
                Err(e) => Err(e),
            },
        }
    }

    /// Check `n` values, one after another.
    fn check_items(&mut self, n: usize) -> (r: DecodeResult<Option<()>>)
        requires
            old(self).wf(),
        ensures
            final(self).wf(),
            final(self).spec_bytes() == old(self).spec_bytes(),
            checked_as(
                r,
                spec_take_items(old(self).spec_bytes(), old(self).index as int, n as int, Seq::empty()),
                final(self).index as int,
                casts_items(old(self).spec_bytes(), old(self).index as int, n as int),
            ),
            r == Ok::<Option<()>, DecodeError>(Some(())) ==> old(self).index <= final(self).index <= final(self).spec_bytes().len() || (old(self).index == final(self).index && n == 0),
        decreases old(self).spec_bytes().len() - old(self).index, 1int,
    {
        let ghost s = self.spec_bytes();
        let ghost i0 = self.index;
        let ghost mut acc: Seq<ValueView> = Seq::empty();
        let mut k: usize = 0;
        while k < n
            invariant
                k <= n,
                self.wf(),
                self.spec_bytes() == s,
                s == old(self).spec_bytes(),
                i0 == old(self).index,
                i0 <= self.index,
                k > 0 ==> self.index <= s.len(),
                k == 0 ==> self.index == i0,
                spec_take_items(s, i0 as int, n as int, Seq::empty()) == spec_take_items(s, self.index as int, n - k, acc),
                casts_items(s, self.index as int, n - k) ==> casts_items(s, i0 as int, n as int),
            decreases n - k,
        {
            let ghost before = self.index as int;
            match self.check_value() {
                Ok(Some(())) => {},
                Ok(None) => return Ok(None),
                Err(e) => return Err(e),
            }
            proof {
                acc = acc.push(spec_take_value(s, before)->Done_0);
            }
            k += 1;
        }
        Ok(Some(()))
    }

    /// Check the entries of the object `obj`, one after another: each key, then its value.
    fn check_entries(&mut self, obj: &Object) -> (r: DecodeResult<Option<()>>)
        requires
            old(self).wf(),
            obj.width == 1 || obj.width == 2 || obj.width == 4,
        ensures
            final(self).wf(),
            final(self).spec_bytes() == old(self).spec_bytes(),
            checked_as(
                r,
                spec_take_entries(
                    old(self).spec_bytes(),
                    old(self).index as int,
                    obj.width as nat,
                    items_view(obj.super_header@),
                    obj.super_header@.len() as int,
                    Seq::empty(),
                ),
                final(self).index as int,
                casts_entries(
                    old(self).spec_bytes(),
                    old(self).index as int,
                    obj.width as nat,
                    items_view(obj.super_header@),
                    obj.super_header@.len() as int,
                ),
            ),
            r == Ok::<Option<()>, DecodeError>(Some(())) ==> old(self).index <= final(self).index <= final(self).spec_bytes().len() || (old(self).index == final(self).index && obj.super_header@.len() == 0),
        decreases old(self).spec_bytes().len() - old(self).index, 1int,
    {
        let n = obj.len();
        let ghost s = self.spec_bytes();
        let ghost i0 = self.index;
        let ghost items = items_view(obj.super_header@);
        let ghost mut acc: Seq<(Seq<char>, ValueView)> = Seq::empty();
        let mut k: usize = 0;
        while k < n
            invariant
                k <= n,
                n == obj.super_header@.len(),
                obj.width == 1 || obj.width == 2 || obj.width == 4,
                items == items_view(obj.super_header@),
                self.wf(),
                self.spec_bytes() == s,
                s == old(self).spec_bytes(),
                i0 == old(self).index,
                i0 <= self.index,
                k > 0 ==> self.index <= s.len(),
                k == 0 ==> self.index == i0,
                spec_take_entries(s, i0 as int, obj.width as nat, items, n as int, Seq::empty())
                    == spec_take_entries(s, self.index as int, obj.width as nat, items, n - k, acc),
                casts_entries(s, self.index as int, obj.width as nat, items, n - k) ==> casts_entries(
                    s,
                    i0 as int,
                    obj.width as nat,
                    items,
                    n as int,
                ),
            decreases n - k,
        {
            let key = match obj.take_next_key(self) {
                Ok(key) => key,
                Err(e) => return Err(e),
            };
            let ghost before = self.index as int;
            match self.check_value() {
                Ok(Some(())) => {},
                Ok(None) => return Ok(None),
                Err(e) => return Err(e),
            }
            proof {
                vstd::utf8::encode_utf8_decode_utf8(key@);
                acc = acc.push((key@, spec_take_value(s, before)->Done_0));
            }
            k += 1;
        }
        Ok(Some(()))
    }
}

/// Check batson bytes: decode the value they start with without building it, finding whether
/// decoding would end, fail, or meet what jiter does not decode (`None`).
pub fn check_decodes(bytes: &[u8]) -> (r: DecodeResult<Option<()>>)
    requires
        bytes@.len() <= isize::MAX,
    ensures
        (casts_value(bytes@, 0) && (r matches Err(e) && e.error_type is PodCastError)) || match spec_take_value(bytes@, 0) {
            Decoded::Done(_, _) => r == Ok::<Option<()>, DecodeError>(Some(())),
            Decoded::Fail(e) => r == Err::<Option<()>, DecodeError>(e),
            Decoded::BadUtf8(i) => r matches Err(e) && e.index == i && e.error_type is Utf8Error,
            Decoded::Panic => r == Ok::<Option<()>, DecodeError>(None),
        },
{
    let mut decoder = Decoder::new(bytes);
    decoder.check_value()
}

} // verus!
