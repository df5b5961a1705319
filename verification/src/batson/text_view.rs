//! The JSON text of a value, and what writing batson as JSON gives by what decoding gives.
use vstd::prelude::*;
use vstd::utf8::*;

use crate::batson::array::{spec_het_header, spec_i64_array, spec_u8_array};
use crate::batson::decoder::{
    int_size, le_i64_words, le_value, le_word, pow256, spec_header_value, spec_header_values, spec_take_entries,
    spec_take_items, spec_take_slice, spec_take_value, twos_complement, Decoded, lemma_le_value_bound,
};
use crate::batson::header::{number_hint_code, spec_header_of, spec_read_header, spec_read_length, Header, Length};
use crate::batson::json_writer::{
    array_text, bool_text, entry_text, null_text, object_text, JsonPiece,
};
use crate::batson::object::spec_object_header;
use crate::batson::to_json::{
    int_text, spec_header_text, spec_header_texts, spec_write_entries, spec_write_items, spec_write_value,
    str_text, Written,
};
use crate::value::ValueView;

verus! {

/// The JSON text of a value, each float set aside as its bits; batson writes no big integer,
/// which has no text here.
pub open spec fn view_text(v: ValueView) -> Seq<JsonPiece>
    decreases v, 0nat, 0int,
{
    match v {
        ValueView::Null => null_text(),
        ValueView::Bool(b) => bool_text(b),
        ValueView::Int(i) => int_text(i as int),
        ValueView::BigInt(..) => Seq::empty(),
        ValueView::Float(bits) => seq![JsonPiece::Float(bits)],
        ValueView::Str(s) => str_text(s),
        ValueView::Array(vs) => array_text(view_texts(vs, vs.len() as int)),
        ValueView::Object(es) => object_text(entry_texts(es, es.len() as int)),
    }
}

/// The texts of the first `k` values.
pub open spec fn view_texts(vs: Seq<ValueView>, k: int) -> Seq<Seq<JsonPiece>>
    decreases vs, 1nat, k,
{
    if k <= 0 || k > vs.len() {
        Seq::empty()
    } else {
        view_texts(vs, k - 1).push(view_text(vs[k - 1]))
    }
}

/// The texts of the first `k` entries: each key, a colon, and the text of its value.
pub open spec fn entry_texts(es: Seq<(Seq<char>, ValueView)>, k: int) -> Seq<Seq<JsonPiece>>
    decreases es, 1nat, k,
{
    if k <= 0 || k > es.len() {
        Seq::empty()
    } else {
        entry_texts(es, k - 1).push(entry_text(es[k - 1].0, view_text(es[k - 1].1)))
    }
}

/// The texts of the first `k` values are the texts of those values.
pub proof fn lemma_view_texts_index(vs: Seq<ValueView>, k: int)
    requires
        0 <= k <= vs.len(),
    ensures
        view_texts(vs, k).len() == k,
        forall|j: int| 0 <= j < k ==> #[trigger] view_texts(vs, k)[j] == view_text(vs[j]),
    decreases k,
{
    if k > 0 {
        lemma_view_texts_index(vs, k - 1);
    }
}

/// The texts of the first `k` entries are the texts of those entries.
pub proof fn lemma_entry_texts_index(es: Seq<(Seq<char>, ValueView)>, k: int)
    requires
        0 <= k <= es.len(),
    ensures
        entry_texts(es, k).len() == k,
        forall|j: int| 0 <= j < k ==> #[trigger] entry_texts(es, k)[j] == entry_text(es[j].0, view_text(es[j].1)),
    decreases k,
{
    if k > 0 {
        lemma_entry_texts_index(es, k - 1);
    }
}

/// One more value, one more text.
proof fn lemma_view_texts_push(vs: Seq<ValueView>, v: ValueView)
    ensures
        view_texts(vs.push(v), vs.len() + 1int) == view_texts(vs, vs.len() as int).push(view_text(v)),
{
    lemma_view_texts_index(vs, vs.len() as int);
    lemma_view_texts_index(vs.push(v), vs.len() as int);
    assert(view_texts(vs.push(v), vs.len() as int) =~= view_texts(vs, vs.len() as int)) by {
        assert forall|j: int| 0 <= j < vs.len() implies #[trigger] view_texts(vs.push(v), vs.len() as int)[j]
            == view_texts(vs, vs.len() as int)[j] by {
            assert(vs.push(v)[j] == vs[j]);
        }
    }
}

/// One more entry, one more text.
proof fn lemma_entry_texts_push(es: Seq<(Seq<char>, ValueView)>, e: (Seq<char>, ValueView))
    ensures
        entry_texts(es.push(e), es.len() + 1int) == entry_texts(es, es.len() as int).push(
            entry_text(e.0, view_text(e.1)),
        ),
{
    lemma_entry_texts_index(es, es.len() as int);
    lemma_entry_texts_index(es.push(e), es.len() as int);
    assert(entry_texts(es.push(e), es.len() as int) =~= entry_texts(es, es.len() as int)) by {
        assert forall|j: int| 0 <= j < es.len() implies #[trigger] entry_texts(es.push(e), es.len() as int)[j]
            == entry_texts(es, es.len() as int)[j] by {
            assert(es.push(e)[j] == es[j]);
        }
    }
}

/// A header that gives a value and a text alone gives the text of that value.
proof fn lemma_header_text(h: Header)
    requires
        spec_header_value(h) is Some,
        spec_header_text(h) matches Some(Some(_)),
    ensures
        spec_header_text(h)->0->0 == view_text(spec_header_value(h)->0),
{
    assert(view_texts(Seq::<ValueView>::empty(), 0) =~= Seq::<Seq<JsonPiece>>::empty());
    assert(entry_texts(Seq::<(Seq<char>, ValueView)>::empty(), 0) =~= Seq::<Seq<JsonPiece>>::empty());
}

/// Writing the header bytes of an array of headers that decode, where writing does not refuse,
/// gives the texts of their values.
proof fn lemma_header_texts(t: Seq<u8>, end: int, k: int, acc: Seq<ValueView>)
    requires
        0 <= k,
        spec_header_values(t, end, k, acc) is Done,
        !(spec_header_texts(t, end, k, view_texts(acc, acc.len() as int)) is Refused),
    ensures
        spec_header_texts(t, end, k, view_texts(acc, acc.len() as int)) == Written::Done(
            view_texts(spec_header_values(t, end, k, acc)->Done_0, spec_header_values(t, end, k, acc)->Done_0.len() as int),
            end,
        ),
        spec_header_values(t, end, k, acc)->Done_1 == end,
    decreases t.len() - k,
{
    if k < t.len() {
        let h = spec_header_of(t[k])->Ok_0;
        lemma_header_text(h);
        let v = spec_header_value(h)->0;
        lemma_view_texts_push(acc, v);
        lemma_header_texts(t, end, k + 1, acc.push(v));
    }
}

/// Two's complement of `n` bytes, for `n` up to eight, fits in an `i64`.
proof fn lemma_twos_complement_i64(v: nat, n: nat)
    requires
        n <= 8,
        v < pow256(n),
    ensures
        i64::MIN <= twos_complement(v, n) <= i64::MAX,
    decreases n,
{
    reveal_with_fuel(pow256, 9);
    if n < 8 {
        lemma_pow256_le8(n);
    }
}

/// `256` to the `n` is at most `256` to the eight for `n` up to eight.
proof fn lemma_pow256_le8(n: nat)
    requires
        n <= 8,
    ensures
        pow256(n) <= pow256(8),
        pow256(n) >= 1,
    decreases 8 - n,
{
    reveal_with_fuel(pow256, 9);
    if n < 8 {
        lemma_pow256_le8(n + 1);
    }
}

/// The integers of an `i64` array fit in an `i64`.
proof fn lemma_i64_words_fit(t: Seq<u8>)
    ensures
        forall|j: int| 0 <= j < le_i64_words(t).len() ==> i64::MIN <= #[trigger] le_i64_words(t)[j] <= i64::MAX,
{
    assert forall|j: int| 0 <= j < le_i64_words(t).len() implies i64::MIN <= #[trigger] le_i64_words(t)[j] <= i64::MAX by {
        let u = t.subrange(j * 8, j * 8 + 8);
        lemma_le_value_bound(u);
        lemma_twos_complement_i64(le_word(t, 8, j) as nat, 8);
    }
}

/// Writing the value at `i` as JSON, where decoding it succeeds and writing does not refuse,
/// gives the text of the value decoding gives, ending where decoding ends.
#[verifier::spinoff_prover]
#[verifier::rlimit(60)]
pub proof fn lemma_write_value_text(s: Seq<u8>, i: int)
    requires
        0 <= i,
        spec_take_value(s, i) is Done,
        !(spec_write_value(s, i) is Refused),
    ensures
        spec_write_value(s, i) == Written::Done(view_text(spec_take_value(s, i)->Done_0), spec_take_value(s, i)->Done_1),
    decreases s.len() - i, 0int,
{
    reveal_with_fuel(pow256, 9);
    let (h, i1) = spec_read_header(s, i)->Ok_0;
    match h {
        Header::Int(n) => {
            if int_size(n) != 0 {
                let t = spec_take_slice(s, i1, int_size(n) as int)->Ok_0;
                lemma_le_value_bound(t);
                lemma_twos_complement_i64(le_value(t), int_size(n));
                let x = twos_complement(le_value(t), int_size(n));
                assert((x as i64) as int == x);
                assert(spec_take_value(s, i) == Decoded::Done(ValueView::Int(x as i64), i1 + int_size(n)));
                assert(spec_write_value(s, i) == Written::Done(int_text(x), i1 + int_size(n)));
                assert(view_text(ValueView::Int(x as i64)) == int_text(x));
                } else {
                let c = number_hint_code(n);
                assert(c <= 10);
                assert((c as i64) as int == c as int);
                assert(spec_take_value(s, i) == Decoded::Done(ValueView::Int(c as i64), i1));
                assert(spec_write_value(s, i) == Written::Done(int_text(c as int), i1));
                assert(view_text(ValueView::Int(c as i64)) == int_text(c as int));
                }
        },
        Header::Object(l) => {
            let (w, items, i2) = spec_object_header(s, i1, l)->Ok_0;
            assert(view_texts(Seq::<ValueView>::empty(), 0) =~= Seq::<Seq<JsonPiece>>::empty());
            assert(entry_texts(Seq::<(Seq<char>, ValueView)>::empty(), 0) =~= Seq::<Seq<JsonPiece>>::empty());
            lemma_write_entries_text(s, i2, w, items, items.len() as int, Seq::empty());
        },
        Header::HetArray(l) => {
            let (offsets, i2) = spec_het_header(s, i1, l)->Ok_0;
            assert(view_texts(Seq::<ValueView>::empty(), 0) =~= Seq::<Seq<JsonPiece>>::empty());
            lemma_write_items_text(s, i2, offsets.len() as int, Seq::empty());
        },
        Header::U8Array(l) => {
            let (t, i2) = spec_u8_array(s, i1, l)->Ok_0;
            let vs = t.map_values(|b: u8| ValueView::Int(b as i64));
            lemma_view_texts_index(vs, vs.len() as int);
            assert(view_texts(vs, vs.len() as int) =~= t.map_values(|b: u8| int_text(b as int)));
        },
        Header::HeaderArray(l) => {
            let (t, i2) = spec_u8_array(s, i1, l)->Ok_0;
            assert(view_texts(Seq::<ValueView>::empty(), 0) =~= Seq::<Seq<JsonPiece>>::empty());
            lemma_header_texts(t, i2, 0, Seq::empty());
            let vals = spec_header_values(t, i2, 0, Seq::empty())->Done_0;
            assert(spec_header_values(t, i2, 0, Seq::empty())->Done_1 == i2);
            assert(spec_take_value(s, i) == Decoded::Done(ValueView::Array(vals), i2));
            assert(spec_header_texts(t, i2, 0, Seq::empty()) == Written::Done(view_texts(vals, vals.len() as int), i2));
            assert(spec_write_value(s, i) == Written::Done(array_text(view_texts(vals, vals.len() as int)), i2));
        },
        Header::I64Array(l) => {
            let (xs, i2) = spec_i64_array(s, i1, l)->Ok_0;
            let vs = xs.map_values(|x: int| ValueView::Int(x as i64));
            let n = spec_read_length(s, i1, l)->Ok_0.0;
            let a = crate::batson::decoder::align_up(
                spec_read_length(s, i1, l)->Ok_0.1,
                vstd::layout::align_of::<i64>() as int,
            );
            lemma_i64_words_fit(spec_take_slice(s, a, n * 8)->Ok_0);
            lemma_view_texts_index(vs, vs.len() as int);
            assert(view_texts(vs, vs.len() as int) =~= xs.map_values(|x: int| int_text(x)));
        },
        _ => {},
    }
}

/// Writing `k` values from `i`, where decoding them succeeds and writing does not refuse,
/// gives the texts of the values decoding gives, after the texts of those before.
pub proof fn lemma_write_items_text(s: Seq<u8>, i: int, k: int, acc: Seq<ValueView>)
    requires
        0 <= i,
        spec_take_items(s, i, k, acc) is Done,
        !(spec_write_items(s, i, k, view_texts(acc, acc.len() as int)) is Refused),
    ensures
        spec_write_items(s, i, k, view_texts(acc, acc.len() as int)) == Written::Done(
            view_texts(spec_take_items(s, i, k, acc)->Done_0, spec_take_items(s, i, k, acc)->Done_0.len() as int),
            spec_take_items(s, i, k, acc)->Done_1,
        ),
    decreases s.len() - i, 1 + k,
{
    if k > 0 {
        let v = spec_take_value(s, i)->Done_0;
        let i2 = spec_take_value(s, i)->Done_1;
        if !(spec_write_value(s, i) is Refused) {
            lemma_write_value_text(s, i);
            lemma_view_texts_push(acc, v);
            lemma_write_items_text(s, i2, k - 1, acc.push(v));
        }
    }
}

/// Writing `k` entries from `i`, where decoding them succeeds and writing does not refuse,
/// gives the texts of the entries decoding gives, after the texts of those before.
pub proof fn lemma_write_entries_text(
    s: Seq<u8>,
    i: int,
    w: nat,
    items: Seq<(int, int, int)>,
    k: int,
    acc: Seq<(Seq<char>, ValueView)>,
)
    requires
        0 <= i,
        spec_take_entries(s, i, w, items, k, acc) is Done,
        !(spec_write_entries(s, i, w, items, k, entry_texts(acc, acc.len() as int)) is Refused),
    ensures
        spec_write_entries(s, i, w, items, k, entry_texts(acc, acc.len() as int)) == Written::Done(
            entry_texts(
                spec_take_entries(s, i, w, items, k, acc)->Done_0,
                spec_take_entries(s, i, w, items, k, acc)->Done_0.len() as int,
            ),
            spec_take_entries(s, i, w, items, k, acc)->Done_1,
        ),
    decreases s.len() - i, 1 + k,
{
    if k > 0 {
        let t = spec_take_slice(s, i, w as int)->Ok_0;
        let idx = le_value(t);
        let i1 = i + w;
        let kl = items[idx as int].0;
        let kt = spec_take_slice(s, i1, kl)->Ok_0;
        let v = spec_take_value(s, i1 + kl)->Done_0;
        let i3 = spec_take_value(s, i1 + kl)->Done_1;
        if !(spec_write_value(s, i1 + kl) is Refused) {
            lemma_write_value_text(s, i1 + kl);
            lemma_entry_texts_push(acc, (decode_utf8(kt), v));
            lemma_write_entries_text(s, i3, w, items, k - 1, acc.push((decode_utf8(kt), v)));
        }
    }
}

} // verus!
