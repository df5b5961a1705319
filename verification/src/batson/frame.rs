//! Decoding, or writing as JSON, at an index reads only the bytes from that index on.
use vstd::prelude::*;

use crate::batson::array::{spec_het_header, spec_i64_array, spec_u8_array};
use crate::batson::decoder::{spec_take_entries, spec_take_items, spec_take_slice, spec_take_value, Decoded};
use crate::batson::header::{spec_read_header, spec_read_length, Header, Length};
use crate::batson::object::spec_object_header;
use crate::value::ValueView;
use crate::batson::json_writer::JsonPiece;
use crate::batson::to_json::{spec_write_entries, spec_write_items, spec_write_value, Written};

verus! {

/// Two byte strings of the same length with the same bytes from `i` on.
pub open spec fn agree_from(s1: Seq<u8>, s2: Seq<u8>, i: int) -> bool {
    &&& s1.len() == s2.len()
    &&& forall|x: int| i <= x < s1.len() ==> #[trigger] s1[x] == s2[x]
}

proof fn lemma_slice_agree(s1: Seq<u8>, s2: Seq<u8>, i: int, j: int, n: int)
    requires
        agree_from(s1, s2, i),
        0 <= i <= j,
        0 <= n,
    ensures
        spec_take_slice(s1, j, n) == spec_take_slice(s2, j, n),
{
    if j + n <= s1.len() {
        assert(s1.subrange(j, j + n) =~= s2.subrange(j, j + n));
    }
}

proof fn lemma_length_agree(s1: Seq<u8>, s2: Seq<u8>, i: int, j: int, l: Length)
    requires
        agree_from(s1, s2, i),
        0 <= i <= j,
    ensures
        spec_read_length(s1, j, l) == spec_read_length(s2, j, l),
{
    lemma_slice_agree(s1, s2, i, j, 1);
    lemma_slice_agree(s1, s2, i, j, 2);
    lemma_slice_agree(s1, s2, i, j, 4);
}

proof fn lemma_tables_agree(s1: Seq<u8>, s2: Seq<u8>, i: int, j: int, l: Length)
    requires
        agree_from(s1, s2, i),
        0 <= i <= j,
    ensures
        spec_object_header(s1, j, l) == spec_object_header(s2, j, l),
        spec_het_header(s1, j, l) == spec_het_header(s2, j, l),
        spec_u8_array(s1, j, l) == spec_u8_array(s2, j, l),
        spec_i64_array(s1, j, l) == spec_i64_array(s2, j, l),
{
    lemma_length_agree(s1, s2, i, j, l);
    match spec_read_length(s1, j, l) {
        Ok((n, i1)) => {
            if n >= 0 {
                lemma_slice_agree(s1, s2, i, i1, n);
                let a8 = crate::batson::decoder::align_up(i1, vstd::layout::align_of::<i64>() as int);
                assert(a8 >= i1) by {
                    broadcast use vstd::layout::align_properties, vstd::layout::align_nonzero;
                }
                lemma_slice_agree(s1, s2, i, a8, n * 8);
                let w = crate::batson::object::header_width(l);
                let aw = crate::batson::decoder::align_up(i1, crate::batson::encoder::offset_align(w) as int);
                assert(aw >= i1);
                assert(n * w >= 0 && n * 3 * w >= 0) by (nonlinear_arith)
                    requires
                        n >= 0;
                lemma_slice_agree(s1, s2, i, aw, n * w);
                lemma_slice_agree(s1, s2, i, aw, n * 3 * w);
            }
        },
        Err(_) => {},
    }
}

/// Decoding the value at `i` gives the same on two byte strings that agree from `i` on.
pub proof fn lemma_value_agree(s1: Seq<u8>, s2: Seq<u8>, i: int)
    requires
        agree_from(s1, s2, i),
        0 <= i,
    ensures
        spec_take_value(s1, i) == spec_take_value(s2, i),
    decreases s1.len() - i, 0int,
{
    if i < s1.len() {
        assert(s1[i] == s2[i]);
    }
    match spec_read_header(s1, i) {
        Err(_) => {},
        Ok((h, i1)) => {
            lemma_tables_agree(s1, s2, i, i1, Length::Empty);
            lemma_slice_agree(s1, s2, i, i1, 1);
            lemma_slice_agree(s1, s2, i, i1, 4);
            lemma_slice_agree(s1, s2, i, i1, 8);
            match h {
                Header::Str(l) => {
                    lemma_length_agree(s1, s2, i, i1, l);
                    match spec_read_length(s1, i1, l) {
                        Ok((len, i2)) => {
                            if len >= 0 {
                                lemma_slice_agree(s1, s2, i, i2, len);
                            }
                        },
                        Err(_) => {},
                    }
                },
                Header::Object(l) => {
                    lemma_tables_agree(s1, s2, i, i1, l);
                    match spec_object_header(s1, i1, l) {
                        Ok((w, items, i2)) => {
                            if i < i2 <= s1.len() {
                                assert forall|j: int| 0 <= j < items.len() implies (#[trigger] items[j]).0 >= 0 by {
                                    if l != Length::Empty {
                                        let w0 = crate::batson::object::header_width(l);
                                        let n = spec_read_length(s1, i1, l)->Ok_0.0;
                                        let aw = crate::batson::decoder::align_up(
                                            spec_read_length(s1, i1, l)->Ok_0.1,
                                            crate::batson::encoder::offset_align(w0) as int,
                                        );
                                        let t = spec_take_slice(s1, aw, n * 3 * w0)->Ok_0;
                                        assert(items == crate::batson::object::items_of(t, w0));
                                    }
                                }
                                lemma_entries_agree(s1, s2, i2, w, items, items.len() as int, Seq::empty());
                            }
                        },
                        Err(_) => {},
                    }
                },
                Header::HetArray(l) => {
                    lemma_tables_agree(s1, s2, i, i1, l);
                    match spec_het_header(s1, i1, l) {
                        Ok((offsets, i2)) => {
                            if i < i2 <= s1.len() {
                                lemma_items_agree(s1, s2, i2, offsets.len() as int, Seq::empty());
                            }
                        },
                        Err(_) => {},
                    }
                },
                Header::U8Array(l) => {
                    lemma_tables_agree(s1, s2, i, i1, l);
                },
                Header::HeaderArray(l) => {
                    lemma_tables_agree(s1, s2, i, i1, l);
                },
                Header::I64Array(l) => {
                    lemma_tables_agree(s1, s2, i, i1, l);
                },
                _ => {},
            }
        },
    }
}

/// Decoding items from `i` gives the same on two byte strings that agree from `i` on.
pub proof fn lemma_items_agree(s1: Seq<u8>, s2: Seq<u8>, i: int, k: int, acc: Seq<ValueView>)
    requires
        agree_from(s1, s2, i),
        0 <= i,
    ensures
        spec_take_items(s1, i, k, acc) == spec_take_items(s2, i, k, acc),
    decreases s1.len() - i, 1 + k,
{
    if k > 0 {
        lemma_value_agree(s1, s2, i);
        match spec_take_value(s1, i) {
            Decoded::Done(v, i2) => {
                if i < i2 <= s1.len() {
                    lemma_items_agree(s1, s2, i2, k - 1, acc.push(v));
                }
            },
            _ => {},
        }
    }
}

/// Decoding entries from `i` gives the same on two byte strings that agree from `i` on.
pub proof fn lemma_entries_agree(
    s1: Seq<u8>,
    s2: Seq<u8>,
    i: int,
    w: nat,
    items: Seq<(int, int, int)>,
    k: int,
    acc: Seq<(Seq<char>, ValueView)>,
)
    requires
        agree_from(s1, s2, i),
        0 <= i,
        forall|j: int| 0 <= j < items.len() ==> (#[trigger] items[j]).0 >= 0,
    ensures
        spec_take_entries(s1, i, w, items, k, acc) == spec_take_entries(s2, i, w, items, k, acc),
    decreases s1.len() - i, 1 + k,
{
    if k > 0 {
        lemma_slice_agree(s1, s2, i, i, w as int);
        if let Ok(t) = spec_take_slice(s1, i, w as int) {
            let idx = crate::batson::decoder::le_value(t);
            let i1 = i + w;
            if idx < items.len() {
                let kl = items[idx as int].0;
                if kl >= 0 {
                    lemma_slice_agree(s1, s2, i, i1, kl);
                    if let Ok(kt) = spec_take_slice(s1, i1, kl) {
                        if w > 0 && vstd::utf8::valid_utf8(kt) {
                            lemma_value_agree(s1, s2, i1 + kl);
                            if let Decoded::Done(v, i3) = spec_take_value(s1, i1 + kl) {
                                if i < i3 <= s1.len() {
                                    lemma_entries_agree(
                                        s1,
                                        s2,
                                        i3,
                                        w,
                                        items,
                                        k - 1,
                                        acc.push((vstd::utf8::decode_utf8(kt), v)),
                                    );
                                }
                            }
                        }
                    }
                }
            }
        }
    }
}

/// Writing the value at `i` gives the same on two byte strings that agree from `i` on.
pub proof fn lemma_write_value_agree(s1: Seq<u8>, s2: Seq<u8>, i: int)
    requires
        agree_from(s1, s2, i),
        0 <= i,
    ensures
        spec_write_value(s1, i) == spec_write_value(s2, i),
    decreases s1.len() - i, 0int,
{
    if i < s1.len() {
        assert(s1[i] == s2[i]);
    }
    match spec_read_header(s1, i) {
        Err(_) => {},
        Ok((h, i1)) => {
            lemma_tables_agree(s1, s2, i, i1, Length::Empty);
            lemma_slice_agree(s1, s2, i, i1, 1);
            lemma_slice_agree(s1, s2, i, i1, 4);
            lemma_slice_agree(s1, s2, i, i1, 8);
            match h {
                Header::Str(l) => {
                    lemma_length_agree(s1, s2, i, i1, l);
                    match spec_read_length(s1, i1, l) {
                        Ok((len, i2)) => {
                            if len >= 0 {
                                lemma_slice_agree(s1, s2, i, i2, len);
                            }
                        },
                        Err(_) => {},
                    }
                },
                Header::Object(l) => {
                    lemma_tables_agree(s1, s2, i, i1, l);
                    match spec_object_header(s1, i1, l) {
                        Ok((w, items, i2)) => {
                            if i < i2 <= s1.len() {
                                assert forall|j: int| 0 <= j < items.len() implies (#[trigger] items[j]).0 >= 0 by {
                                    if l != Length::Empty {
                                        let w0 = crate::batson::object::header_width(l);
                                        let n = spec_read_length(s1, i1, l)->Ok_0.0;
                                        let aw = crate::batson::decoder::align_up(
                                            spec_read_length(s1, i1, l)->Ok_0.1,
                                            crate::batson::encoder::offset_align(w0) as int,
                                        );
                                        let t = spec_take_slice(s1, aw, n * 3 * w0)->Ok_0;
                                        assert(items == crate::batson::object::items_of(t, w0));
                                    }
                                }
                                lemma_write_entries_agree(s1, s2, i2, w, items, items.len() as int, Seq::empty());
                            }
                        },
                        Err(_) => {},
                    }
                },
                Header::HetArray(l) => {
                    lemma_tables_agree(s1, s2, i, i1, l);
                    match spec_het_header(s1, i1, l) {
                        Ok((offsets, i2)) => {
                            if i < i2 <= s1.len() {
                                lemma_write_items_agree(s1, s2, i2, offsets.len() as int, Seq::empty());
                            }
                        },
                        Err(_) => {},
                    }
                },
                Header::U8Array(l) => {
                    lemma_tables_agree(s1, s2, i, i1, l);
                },
                Header::HeaderArray(l) => {
                    lemma_tables_agree(s1, s2, i, i1, l);
                },
                Header::I64Array(l) => {
                    lemma_tables_agree(s1, s2, i, i1, l);
                },
                _ => {},
            }
        },
    }
}

/// Writing items from `i` gives the same on two byte strings that agree from `i` on.
pub proof fn lemma_write_items_agree(s1: Seq<u8>, s2: Seq<u8>, i: int, k: int, acc: Seq<Seq<JsonPiece>>)
    requires
        agree_from(s1, s2, i),
        0 <= i,
    ensures
        spec_write_items(s1, i, k, acc) == spec_write_items(s2, i, k, acc),
    decreases s1.len() - i, 1 + k,
{
    if k > 0 {
        lemma_write_value_agree(s1, s2, i);
        match spec_write_value(s1, i) {
            Written::Done(v, i2) => {
                if i < i2 <= s1.len() {
                    lemma_write_items_agree(s1, s2, i2, k - 1, acc.push(v));
                }
            },
            _ => {},
        }
    }
}

/// Writing entries from `i` gives the same on two byte strings that agree from `i` on.
pub proof fn lemma_write_entries_agree(
    s1: Seq<u8>,
    s2: Seq<u8>,
    i: int,
    w: nat,
    items: Seq<(int, int, int)>,
    k: int,
    acc: Seq<Seq<JsonPiece>>,
)
    requires
        agree_from(s1, s2, i),
        0 <= i,
        forall|j: int| 0 <= j < items.len() ==> (#[trigger] items[j]).0 >= 0,
    ensures
        spec_write_entries(s1, i, w, items, k, acc) == spec_write_entries(s2, i, w, items, k, acc),
    decreases s1.len() - i, 1 + k,
{
    if k > 0 {
        lemma_slice_agree(s1, s2, i, i, w as int);
        if let Ok(t) = spec_take_slice(s1, i, w as int) {
            let idx = crate::batson::decoder::le_value(t);
            let i1 = i + w;
            if idx < items.len() {
                let kl = items[idx as int].0;
                if kl >= 0 {
                    lemma_slice_agree(s1, s2, i, i1, kl);
                    if let Ok(kt) = spec_take_slice(s1, i1, kl) {
                        if w > 0 && vstd::utf8::valid_utf8(kt) {
                            lemma_write_value_agree(s1, s2, i1 + kl);
                            if let Written::Done(v, i3) = spec_write_value(s1, i1 + kl) {
                                if i < i3 <= s1.len() {
                                    lemma_write_entries_agree(
                                        s1,
                                        s2,
                                        i3,
                                        w,
                                        items,
                                        k - 1,
                                        acc.push(crate::batson::json_writer::entry_text(vstd::utf8::decode_utf8(kt), v)),
                                    );
                                }
                            }
                        }
                    }
                }
            }
        }
    }
}

} // verus!
