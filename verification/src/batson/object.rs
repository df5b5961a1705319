//! Objects: a super header of one item per key (its length, hash and offset), sorted so that a
//! key is found by binary search, then the keys and values.
use core::cmp::Ordering;

use vstd::prelude::*;
use vstd::string::*;

use crate::batson::decoder::{
    casts_entries, decoded_as, spec_take_entries, wide, Decoded, align_up, bytes_as_u16s, bytes_as_u32s, le_word, le_words, lemma_align_le_size, le_value,
    le_bytes, pow256, spec_take_slice, Decoder,
};
use crate::batson::encoder::{
    spec_encode_value, aligned, encodable, entries_encodable, extends, insert_item, offset_align, item_le, items_bytes, le_bytes_of,
    lemma_extends_append, lemma_extends_trans, lemma_items_bytes_len, lemma_splice,
    min_object_size, min_value_size, set_indices, sort_items, spec_encode_entries,
    spec_encode_object, spec_encode_object_sized, splice, zeros, Encoder,
};
use crate::batson::errors::{DecodeError, DecodeErrorType, DecodeResult, EncodeError, EncodeResult};
use crate::batson::header::{spec_read_length, Category, Length};
use crate::value::{entries_view, json_view, lemma_entries_view_push, JsonValue, ValueView};
use vstd::utf8::{encode_utf8, valid_utf8};

verus! {

/// The djb2 hash of `s`, kept to 32 bits: from 5381, each byte adds itself to 33 times the hash.
pub open spec fn spec_djb2(s: Seq<u8>) -> u32
    decreases s.len(),
{
    if s.len() == 0 {
        5381
    } else {
        ((spec_djb2(s.drop_last()) as nat * 33 + s.last() as nat) % 0x1_0000_0000) as u32
    }
}

/// The djb2 hash of the UTF-8 bytes of `s`: simple and fast, with a good spread.
pub fn djb2_hash(s: &str) -> (r: u32)
    ensures
        r == spec_djb2(s.spec_bytes()),
{
    let bytes = s.as_bytes();
    let mut hash_value: u32 = 5381;
    let mut k: usize = 0;
    while k < bytes.len()
        invariant
            k <= bytes.len(),
            hash_value == spec_djb2(bytes@.subrange(0, k as int)),
        decreases bytes.len() - k,
    {
        let next = ((hash_value as u64 * 33 + bytes[k] as u64) % 0x1_0000_0000) as u32;
        assert(bytes@.subrange(0, k + 1).drop_last() =~= bytes@.subrange(0, k as int));
        hash_value = next;
        k += 1;
    }
    assert(bytes@.subrange(0, bytes@.len() as int) =~= bytes@);
    hash_value
}

/// A super header item of an object whose body fits in `u8` offsets.
#[derive(Debug, Copy, Clone, PartialEq, Eq)]
pub struct SuperHeaderItem8 {
    pub key_length: u8,
    pub key_hash: u8,
    pub offset: u8,
}

/// A super header item of an object whose body fits in `u16` offsets.
#[derive(Debug, Copy, Clone, PartialEq, Eq)]
pub struct SuperHeaderItem16 {
    pub key_length: u16,
    pub key_hash: u16,
    pub offset: u16,
}

/// A super header item of an object whose body needs `u32` offsets.
#[derive(Debug, Copy, Clone, PartialEq, Eq)]
pub struct SuperHeaderItem32 {
    pub key_length: u32,
    pub key_hash: u32,
    pub offset: u32,
}

/// How an ordering ranks: less, then equal, then greater.
pub open spec fn rank(o: Ordering) -> int {
    match o {
        Ordering::Less => 0,
        Ordering::Equal => 1,
        Ordering::Greater => 2,
    }
}

/// The order of two super header items, from their key lengths and hashes: by key length,
/// then by key hash.
fn order_of(length_a: u32, hash_a: u32, length_b: u32, hash_b: u32) -> (r: Ordering)
    ensures
        r == (if length_a < length_b {
            Ordering::Less
        } else if length_a > length_b {
            Ordering::Greater
        } else if hash_a < hash_b {
            Ordering::Less
        } else if hash_a > hash_b {
            Ordering::Greater
        } else {
            Ordering::Equal
        }),
{
    if length_a < length_b {
        Ordering::Less
    } else if length_a > length_b {
        Ordering::Greater
    } else if hash_a < hash_b {
        Ordering::Less
    } else if hash_a > hash_b {
        Ordering::Greater
    } else {
        Ordering::Equal
    }
}

impl SuperHeaderItem8 {
    /// The item for `key` at `offset`, if its length and the offset fit in a `u8`; the hash is
    /// that of the key, cut to a `u8`.
    pub fn new(key: &str, offset: usize) -> (r: Option<Self>)
        ensures
            (key.spec_bytes().len() <= 0xff && offset <= 0xff) <==> r is Some,
            r matches Some(h) ==> h.key_length == key.spec_bytes().len() && h.key_hash
                == spec_djb2(key.spec_bytes()) % 0x100 && h.offset == offset,
    {
        let len = key.as_bytes().len();
        if len > 0xff || offset > 0xff {
            return None;
        }
        let hash = djb2_hash(key);
        Some(SuperHeaderItem8 { key_length: len as u8, key_hash: (hash % 0x100) as u8, offset: offset as u8 })
    }

    /// The order of this item against `other`: by key length, then by key hash.
    pub fn sort_order(&self, other: &Self) -> (r: Ordering)
        ensures
            r == (if self.key_length < other.key_length {
                Ordering::Less
            } else if self.key_length > other.key_length {
                Ordering::Greater
            } else if self.key_hash < other.key_hash {
                Ordering::Less
            } else if self.key_hash > other.key_hash {
                Ordering::Greater
            } else {
                Ordering::Equal
            }),
    {
        order_of(self.key_length.into(), self.key_hash.into(), other.key_length.into(), other.key_hash.into())
    }

    /// Where the key starts, after the object's super header.
    pub fn offset(&self) -> (r: usize)
        ensures
            r == self.offset,
    {
        self.offset.into()
    }

    /// The length of the key in bytes.
    pub fn key_length(&self) -> (r: usize)
        ensures
            r == self.key_length,
    {
        self.key_length.into()
    }
}

impl SuperHeaderItem16 {
    /// The item for `key` at `offset`, if its length and the offset fit in a `u16`; the hash
    /// is that of the key, cut to a `u16`.
    pub fn new(key: &str, offset: usize) -> (r: Option<Self>)
        ensures
            (key.spec_bytes().len() <= 0xffff && offset <= 0xffff) <==> r is Some,
            r matches Some(h) ==> h.key_length == key.spec_bytes().len() && h.key_hash
                == spec_djb2(key.spec_bytes()) % 0x1_0000 && h.offset == offset,
    {
        let len = key.as_bytes().len();
        if len > 0xffff || offset > 0xffff {
            return None;
        }
        let hash = djb2_hash(key);
        Some(
            SuperHeaderItem16 {
                key_length: len as u16,
                key_hash: (hash % 0x1_0000) as u16,
                offset: offset as u16,
            },
        )
    }

    /// The order of this item against `other`: by key length, then by key hash.
    pub fn sort_order(&self, other: &Self) -> (r: Ordering)
        ensures
            r == (if self.key_length < other.key_length {
                Ordering::Less
            } else if self.key_length > other.key_length {
                Ordering::Greater
            } else if self.key_hash < other.key_hash {
                Ordering::Less
            } else if self.key_hash > other.key_hash {
                Ordering::Greater
            } else {
                Ordering::Equal
            }),
    {
        order_of(self.key_length.into(), self.key_hash.into(), other.key_length.into(), other.key_hash.into())
    }

    /// Where the key starts, after the object's super header.
    pub fn offset(&self) -> (r: usize)
        ensures
            r == self.offset,
    {
        self.offset.into()
    }

    /// The length of the key in bytes.
    pub fn key_length(&self) -> (r: usize)
        ensures
            r == self.key_length,
    {
        self.key_length.into()
    }
}

impl SuperHeaderItem32 {
    /// The item for `key` at `offset`, if its length and the offset fit in a `u32`.
    pub fn new(key: &str, offset: usize) -> (r: Option<Self>)
        ensures
            (key.spec_bytes().len() <= 0xffff_ffff && offset <= 0xffff_ffff) <==> r is Some,
            r matches Some(h) ==> h.key_length == key.spec_bytes().len() && h.key_hash
                == spec_djb2(key.spec_bytes()) && h.offset == offset,
    {
        let len = key.as_bytes().len();
        if len > 0xffff_ffff || offset > 0xffff_ffff {
            return None;
        }
        let hash = djb2_hash(key);
        Some(SuperHeaderItem32 { key_length: len as u32, key_hash: hash, offset: offset as u32 })
    }

    /// The order of this item against `other`: by key length, then by key hash.
    pub fn sort_order(&self, other: &Self) -> (r: Ordering)
        ensures
            r == (if self.key_length < other.key_length {
                Ordering::Less
            } else if self.key_length > other.key_length {
                Ordering::Greater
            } else if self.key_hash < other.key_hash {
                Ordering::Less
            } else if self.key_hash > other.key_hash {
                Ordering::Greater
            } else {
                Ordering::Equal
            }),
    {
        order_of(self.key_length, self.key_hash, other.key_length, other.key_hash)
    }

    /// Where the key starts, after the object's super header.
    pub fn offset(&self) -> (r: usize)
        requires
            self.offset <= usize::MAX,
        ensures
            r == self.offset,
    {
        self.offset as usize
    }

    /// The length of the key in bytes.
    pub fn key_length(&self) -> (r: usize)
        requires
            self.key_length <= usize::MAX,
        ensures
            r == self.key_length,
    {
        self.key_length as usize
    }
}

/// The item at `i`.
pub open spec fn item_at<S>(s: Seq<S>, i: usize) -> S {
    s[i as int]
}

/// Whether `g` gives the rank (less, equal, greater as 0, 1, 2) of whatever `compare` returns
/// for each item of `haystack`.
pub open spec fn consistent<S, F: Fn(&S) -> Ordering>(haystack: Seq<S>, compare: F, g: spec_fn(int) -> int) -> bool {
    forall|k: int, o: Ordering|
        0 <= k < haystack.len() && #[trigger] call_ensures(compare, (&haystack[k],), o) ==> g(k) == rank(o)
}

/// The start of the run of items that `outcome` ranks equal and that ends just before `k`.
pub open spec fn run_start(outcome: spec_fn(int) -> int, k: int) -> int
    decreases k,
{
    if k <= 0 {
        0
    } else if outcome(k - 1) == 1 {
        run_start(outcome, k - 1)
    } else {
        k
    }
}

/// The end of the run of items that `outcome` ranks equal and that starts at `k`.
pub open spec fn run_end(n: int, outcome: spec_fn(int) -> int, k: int) -> int
    decreases n - k,
{
    if k >= n {
        n
    } else if outcome(k) == 1 {
        run_end(n, outcome, k + 1)
    } else {
        k
    }
}

/// The binary search between `low` and `high` of `n` items whose ranked comparisons are
/// `outcome`: halving until an item ranks equal, then the run of equal items around it; `None`
/// if the range empties first.
pub open spec fn search_range(n: int, outcome: spec_fn(int) -> int, low: int, high: int) -> Option<(int, int)>
    decreases high - low,
{
    if low >= high {
        None
    } else {
        let mid = low + (high - low) / 2;
        if outcome(mid) == 0 {
            if mid + 1 >= high {
                None
            } else {
                search_range(n, outcome, mid + 1, high)
            }
        } else if outcome(mid) == 2 {
            if low >= mid {
                None
            } else {
                search_range(n, outcome, low, mid)
            }
        } else {
            Some((run_start(outcome, mid), run_end(n, outcome, mid + 1)))
        }
    }
}

/// The ranked comparison of item `i`.
pub open spec fn outcome_of(outcome: spec_fn(int) -> int, i: usize) -> int {
    outcome(i as int)
}

/// The search of `n` items between `low` and `high`.
pub open spec fn search_between(n: nat, outcome: spec_fn(int) -> int, low: usize, high: usize) -> Option<(int, int)> {
    search_range(n as int, outcome, low as int, high as int)
}

/// The index before `i`.
pub open spec fn before_index(i: usize) -> usize {
    (i - 1) as usize
}

/// The index after `i`.
pub open spec fn after_index(i: usize) -> usize {
    (i + 1) as usize
}

/// The start of the run of equal items that ends just before `i`.
pub open spec fn run_start_at(outcome: spec_fn(int) -> int, i: usize) -> int {
    run_start(outcome, i as int)
}

/// The end of the run of equal items among `n` that starts at `i`.
pub open spec fn run_end_at(n: nat, outcome: spec_fn(int) -> int, i: usize) -> int {
    run_end(n as int, outcome, i as int)
}

/// Whether `r` is the search of `n` items between `low` and `high`.
pub open spec fn is_search(r: Option<(usize, usize)>, n: nat, outcome: spec_fn(int) -> int, low: usize, high: usize) -> bool {
    match search_between(n, outcome, low, high) {
        None => r is None,
        Some((a, b)) => r == Some((a as usize, b as usize)) && 0 <= a <= b <= n,
    }
}

/// Whether `r` is the run of `n` items around `mid`.
pub open spec fn is_run(r: (usize, usize), n: nat, outcome: spec_fn(int) -> int, mid: usize) -> bool {
    r.0 as int == run_start(outcome, mid as int) && r.1 as int == run_end(n as int, outcome, mid as int + 1)
}

/// Whether `compare` places the items of `haystack` in order: no item ranks above a later one,
/// whatever the calls return.
pub open spec fn sorted_by<S, F: Fn(&S) -> Ordering>(haystack: Seq<S>, compare: F) -> bool {
    forall|i: int, j: int, oi: Ordering, oj: Ordering|
        #![trigger call_ensures(compare, (&haystack[i],), oi), call_ensures(compare, (&haystack[j],), oj)]
        0 <= i <= j < haystack.len() && call_ensures(compare, (&haystack[i],), oi) && call_ensures(
            compare,
            (&haystack[j],),
            oj,
        ) ==> rank(oi) <= rank(oj)
}

/// Search `haystack` for items that `compare` finds equal, returning the range of them around
/// the first one the search meets: from after the last item before it that is not equal, up to
/// the first item after it that is not.
pub fn binary_search<S, F: Fn(&S) -> Ordering>(haystack: &[S], compare: F) -> (r: Option<
    (usize, usize),
>)
    requires
        haystack.len() > 0,
        forall|k: int| 0 <= k < haystack.len() ==> call_requires(compare, (&haystack@[k],)),
    ensures
        r matches Some((start, end)) ==> {
            &&& start < end <= haystack.len()
            &&& forall|k: int|
                start <= k < end ==> call_ensures(compare, (&haystack@[k],), Ordering::Equal)
            &&& start > 0 ==> exists|o: Ordering|
                o != Ordering::Equal && #[trigger] call_ensures(compare, (&haystack@[start - 1],), o)
            &&& end < haystack.len() ==> exists|o: Ordering|
                o != Ordering::Equal && #[trigger] call_ensures(compare, (&item_at(haystack@, end),), o)
        },
        sorted_by(haystack@, compare) ==> (r is None <==> forall|k: int, o: Ordering|
            0 <= k < haystack.len() && call_ensures(compare, (&haystack@[k],), o) ==> o
                != Ordering::Equal),
        sorted_by(haystack@, compare) ==> (r matches Some((start, end)) ==> forall|k: int, o: Ordering|
            0 <= k < haystack.len() && !(start <= k < end) && call_ensures(compare, (&haystack@[k],), o)
                ==> o != Ordering::Equal),
        forall|g: spec_fn(int) -> int|
            #[trigger] consistent(haystack@, compare, g) ==> is_search(r, haystack@.len(), g, 0, haystack.len()),
{
    let mut low: usize = 0;
    let mut high: usize = haystack.len();
    loop
        invariant
            low < high <= haystack.len(),
            forall|k: int| 0 <= k < haystack.len() ==> call_requires(compare, (&haystack@[k],)),
            sorted_by(haystack@, compare) ==> forall|k: int, o: Ordering|
                0 <= k < low && call_ensures(compare, (&haystack@[k],), o) ==> o == Ordering::Less,
            sorted_by(haystack@, compare) ==> forall|k: int, o: Ordering|
                high <= k < haystack.len() && call_ensures(compare, (&haystack@[k],), o) ==> o
                    == Ordering::Greater,
            forall|g: spec_fn(int) -> int|
                #[trigger] consistent(haystack@, compare, g) ==> search_between(haystack@.len(), g, 0, haystack.len())
                    == search_between(haystack@.len(), g, low, high),
        decreases high - low,
    {
        let mid = low + (high - low) / 2;
        let c = compare(&haystack[mid]);
        proof {
            assert forall|g: spec_fn(int) -> int| #[trigger] consistent(haystack@, compare, g) implies outcome_of(g, mid)
                == rank(c) by {
                assert(call_ensures(compare, (&item_at(haystack@, mid),), c));
            }
        }
        match c {
            Ordering::Less => {
                low = mid + 1;
            },
            Ordering::Greater => {
                high = mid;
            },
            Ordering::Equal => {
                return Some(equal_run(haystack, &compare, mid));
            },
        }
        if low >= high {
            return None;
        }
    }
}

/// The run of items that `compare` finds equal around `mid`, which it did.
fn equal_run<S, F: Fn(&S) -> Ordering>(haystack: &[S], compare: &F, mid: usize) -> (r: (usize, usize))
    requires
        mid < haystack.len(),
        forall|k: int| 0 <= k < haystack.len() ==> call_requires(*compare, (&haystack@[k],)),
        call_ensures(*compare, (&item_at(haystack@, mid),), Ordering::Equal),
    ensures
        r.0 <= mid < r.1 <= haystack.len(),
        forall|k: int| r.0 <= k < r.1 ==> call_ensures(*compare, (&haystack@[k],), Ordering::Equal),
        r.0 > 0 ==> exists|o: Ordering|
            o != Ordering::Equal && #[trigger] call_ensures(*compare, (&haystack@[r.0 - 1],), o),
        r.1 < haystack.len() ==> exists|o: Ordering|
            o != Ordering::Equal && #[trigger] call_ensures(*compare, (&item_at(haystack@, r.1),), o),
        forall|g: spec_fn(int) -> int| #[trigger] consistent(haystack@, *compare, g) ==> is_run(r, haystack@.len(), g, mid),
{
    let mut start = mid;
    loop
        invariant
            start <= mid < haystack.len(),
            forall|k: int| 0 <= k < haystack.len() ==> call_requires(*compare, (&haystack@[k],)),
            forall|k: int| start <= k <= mid ==> call_ensures(*compare, (&haystack@[k],), Ordering::Equal),
            forall|g: spec_fn(int) -> int| #[trigger] consistent(haystack@, *compare, g) ==> run_start_at(g, mid)
                == run_start_at(g, start),
        ensures
            start > 0 ==> exists|o: Ordering|
                o != Ordering::Equal && #[trigger] call_ensures(*compare, (&haystack@[start - 1],), o),
            forall|g: spec_fn(int) -> int| #[trigger] consistent(haystack@, *compare, g) ==> run_start_at(g, mid)
                == start,
        decreases start,
    {
        if start == 0 {
            break;
        }
        let c = compare(&haystack[start - 1]);
        proof {
            assert forall|g: spec_fn(int) -> int| #[trigger] consistent(haystack@, *compare, g) implies outcome_of(
                g,
                before_index(start),
            ) == rank(c) by {
                assert(call_ensures(*compare, (&item_at(haystack@, before_index(start)),), c));
            }
        }
        match c {
            Ordering::Equal => {
                start -= 1;
            },
            _ => {
                break;
            },
        }
    }
    let mut end = mid + 1;
    loop
        invariant
            start <= mid < end <= haystack.len(),
            forall|k: int| 0 <= k < haystack.len() ==> call_requires(*compare, (&haystack@[k],)),
            forall|k: int| start <= k < end ==> call_ensures(*compare, (&haystack@[k],), Ordering::Equal),
            forall|g: spec_fn(int) -> int| #[trigger] consistent(haystack@, *compare, g) ==> run_end_at(
                haystack@.len(),
                g,
                after_index(mid),
            ) == run_end_at(haystack@.len(), g, end),
        ensures
            mid < end <= haystack.len(),
            forall|k: int| start <= k < end ==> call_ensures(*compare, (&haystack@[k],), Ordering::Equal),
            end < haystack.len() ==> exists|o: Ordering|
                o != Ordering::Equal && #[trigger] call_ensures(*compare, (&item_at(haystack@, end),), o),
            forall|g: spec_fn(int) -> int| #[trigger] consistent(haystack@, *compare, g) ==> run_end_at(
                haystack@.len(),
                g,
                after_index(mid),
            ) == end,
        decreases haystack.len() - end,
    {
        if end >= haystack.len() {
            break;
        }
        let c = compare(&haystack[end]);
        proof {
            assert forall|g: spec_fn(int) -> int| #[trigger] consistent(haystack@, *compare, g) implies outcome_of(
                g,
                end,
            ) == rank(c) by {
                assert(call_ensures(*compare, (&item_at(haystack@, end),), c));
            }
        }
        match c {
            Ordering::Equal => {
                end += 1;
            },
            _ => {
                assert(call_ensures(*compare, (&item_at(haystack@, end),), c));
                break;
            },
        }
    }
    (start, end)
}

/// A super header item as numbers: key length, key hash, offset.
pub open spec fn item_view(h: SuperHeaderItem32) -> (int, int, int) {
    (h.key_length as int, h.key_hash as int, h.offset as int)
}

/// Super header items as numbers.
pub open spec fn items_view(s: Seq<SuperHeaderItem32>) -> Seq<(int, int, int)> {
    s.map_values(|h: SuperHeaderItem32| item_view(h))
}

/// Inserting `x` into `sorted` after a run of items that order strictly above it is inserting
/// it into what comes before the run, the run then following.
proof fn lemma_insert_item_skip(sorted: Seq<(int, int, int)>, x: (int, int, int), j: int)
    requires
        0 <= j <= sorted.len(),
        forall|t: int| j <= t < sorted.len() ==> !item_le(#[trigger] sorted[t], x),
    ensures
        insert_item(sorted, x) == insert_item(sorted.subrange(0, j), x) + sorted.subrange(
            j,
            sorted.len() as int,
        ),
    decreases sorted.len() - j,
{
    if j == sorted.len() {
        assert(sorted.subrange(0, j) =~= sorted);
        assert(sorted.subrange(j, sorted.len() as int) =~= Seq::<(int, int, int)>::empty());
        assert(insert_item(sorted, x) + Seq::<(int, int, int)>::empty() =~= insert_item(sorted, x));
    } else {
        lemma_insert_item_skip(sorted, x, j + 1);
        let pre = sorted.subrange(0, j + 1);
        assert(pre.drop_last() =~= sorted.subrange(0, j));
        assert(pre.last() == sorted[j]);
        assert(insert_item(pre, x) == insert_item(sorted.subrange(0, j), x).push(sorted[j]));
        assert(insert_item(sorted.subrange(0, j), x).push(sorted[j]) + sorted.subrange(
            j + 1,
            sorted.len() as int,
        ) =~= insert_item(sorted.subrange(0, j), x) + sorted.subrange(j, sorted.len() as int));
    }
}

/// Every item that inserting gives is the inserted one or was there already.
pub proof fn lemma_insert_item_from(sorted: Seq<(int, int, int)>, x: (int, int, int))
    ensures
        insert_item(sorted, x).len() == sorted.len() + 1,
        forall|t: int|
            0 <= t < insert_item(sorted, x).len() ==> #[trigger] insert_item(sorted, x)[t] == x
                || sorted.contains(insert_item(sorted, x)[t]),
    decreases sorted.len(),
{
    if sorted.len() > 0 && !item_le(sorted.last(), x) {
        lemma_insert_item_from(sorted.drop_last(), x);
        let r = insert_item(sorted, x);
        assert forall|t: int| 0 <= t < r.len() implies #[trigger] r[t] == x || sorted.contains(r[t]) by {
            if t < r.len() - 1 {
                let rest = insert_item(sorted.drop_last(), x);
                assert(r[t] == rest[t]);
                if rest[t] != x {
                    let u = choose|u: int| 0 <= u < sorted.drop_last().len() && sorted.drop_last()[u] == rest[t];
                    assert(sorted[u] == r[t]);
                }
            } else {
                assert(r[t] == sorted[sorted.len() - 1]);
            }
        }
    } else if sorted.len() > 0 {
        let r = insert_item(sorted, x);
        assert forall|t: int| 0 <= t < r.len() implies #[trigger] r[t] == x || sorted.contains(r[t]) by {
            if t < sorted.len() {
                assert(r[t] == sorted[t]);
            }
        }
    }
}

/// Every item of the sorted items is one of the items.
pub proof fn lemma_sort_items_from(items: Seq<(int, int, int)>)
    ensures
        sort_items(items).len() == items.len(),
        forall|t: int| 0 <= t < items.len() ==> items.contains(#[trigger] sort_items(items)[t]),
    decreases items.len(),
{
    if items.len() > 0 {
        lemma_sort_items_from(items.drop_last());
        let prev = sort_items(items.drop_last());
        lemma_insert_item_from(prev, items.last());
        assert forall|t: int| 0 <= t < items.len() implies items.contains(#[trigger] sort_items(items)[t]) by {
            let r = sort_items(items);
            if r[t] == items.last() {
                assert(items[items.len() - 1] == r[t]);
            } else {
                assert(prev.contains(r[t]));
                let u = choose|u: int| 0 <= u < prev.len() && prev[u] == r[t];
                assert(items.drop_last().contains(prev[u]));
                let v = choose|v: int| 0 <= v < items.drop_last().len() && items.drop_last()[v] == prev[u];
                assert(items[v] == r[t]);
            }
        }
    }
}

/// The super header items sorted by key length, then key hash, equal ones kept in order.
fn sort_super_header(items: Vec<SuperHeaderItem32>) -> (r: Vec<SuperHeaderItem32>)
    ensures
        items_view(r@) == sort_items(items_view(items@)),
{
    let mut out: Vec<SuperHeaderItem32> = Vec::new();
    let mut i: usize = 0;
    while i < items.len()
        invariant
            i <= items.len(),
            items_view(out@) == sort_items(items_view(items@.subrange(0, i as int))),
        decreases items.len() - i,
    {
        let x = items[i];
        let ghost before = items_view(out@);
        out.push(x);
        let mut j: usize = out.len() - 1;
        while j > 0 && (out[j - 1].key_length > x.key_length || (out[j - 1].key_length == x.key_length
            && out[j - 1].key_hash > x.key_hash))
            invariant
                0 <= j < out.len(),
                out.len() == before.len() + 1,
                items_view(out@) == before.subrange(0, j as int).push(item_view(x)) + before.subrange(
                    j as int,
                    before.len() as int,
                ),
                forall|t: int| j <= t < before.len() ==> !item_le(#[trigger] before[t], item_view(x)),
                forall|t: int| 0 <= t < j ==> item_view(#[trigger] out@[t]) == before[t],
                out@[j as int] == x,
            decreases j,
        {
            let prev = out[j - 1];
            assert(item_view(prev) == before[j - 1]);
            let ghost old_out = out@;
            out.set(j, prev);
            out.set(j - 1, x);
            j -= 1;
            assert(items_view(out@) =~= before.subrange(0, j as int).push(item_view(x)) + before.subrange(
                j as int,
                before.len() as int,
            )) by {
                assert forall|t: int| 0 <= t < out@.len() implies #[trigger] items_view(out@)[t] == (
                before.subrange(0, j as int).push(item_view(x)) + before.subrange(
                    j as int,
                    before.len() as int,
                ))[t] by {
                    if t == j + 1 {
                        assert(items_view(out@)[t] == item_view(prev));
                    } else if t != j {
                        assert(out@[t] == old_out[t]);
                        assert(items_view(old_out)[t] == items_view(out@)[t]);
                    }
                }
            }
        }
        proof {
            lemma_insert_item_skip(before, item_view(x), j as int);
            let pre = before.subrange(0, j as int);
            if j > 0 {
                assert(pre.last() == before[j - 1]);
                assert(item_view(out@[j - 1]) == before[j - 1]);
                assert(item_le(pre.last(), item_view(x)));
            }
            assert(insert_item(pre, item_view(x)) =~= pre.push(item_view(x)));
            let sub = items_view(items@.subrange(0, i + 1));
            assert(sub.drop_last() =~= items_view(items@.subrange(0, i as int)));
            assert(sub.last() == item_view(x));
        }
        i += 1;
    }
    assert(items@.subrange(0, items.len() as int) =~= items@);
    out
}

/// `x` capped at `usize::MAX`.
pub open spec fn saturated(x: int) -> int {
    if x > usize::MAX {
        usize::MAX as int
    } else {
        x
    }
}

/// The least space `value` can take, as a guess that does not look inside arrays and objects
/// (capped at `usize::MAX`).
pub fn minimum_value_size_estimate(value: &JsonValue) -> (r: usize)
    requires
        !(*value is BigInt),
    ensures
        r == saturated(min_value_size(*value)),
{
    match value {
        JsonValue::Int(i) => if 0 <= *i && *i <= 10 {
            1
        } else {
            2
        },
        JsonValue::BigInt(_) => 0,
        JsonValue::Str(s) => {
            let n = s.as_str().as_bytes().len();
            n.saturating_add(1)
        },
        JsonValue::Array(a) => {
            let n = a.len();
            assert(n == a@.len());
            n.saturating_add(1)
        },
        JsonValue::Object(o) => {
            let n = o.len();
            n.saturating_add(1)
        },
        _ => 1,
    }
}

/// The least space the entries of `object` can take: for each a byte of header index, its key
/// and the least space of its value (capped at `usize::MAX`).
pub fn minimum_size_estimate(object: &Vec<(String, JsonValue)>) -> (r: usize)
    requires
        entries_encodable(object@),
    ensures
        r == saturated(min_object_size(object@, object@.len() as int)),
{
    let mut size: usize = 0;
    let mut k: usize = 0;
    while k < object.len()
        invariant
            k <= object.len(),
            entries_encodable(object@),
            size == saturated(min_object_size(object@, k as int)),
            min_object_size(object@, k as int) >= 0,
        decreases object.len() - k,
    {
        let (key, value) = &object[k];
        let step = key.as_str().as_bytes().len().saturating_add(1).saturating_add(
            minimum_value_size_estimate(value),
        );
        proof {
            assert(object@[k as int].0 == *key && object@[k as int].1 == *value);
            assert(min_value_size(*value) >= 0);
        }
        size = size.saturating_add(step);
        k += 1;
    }
    size
}

/// The super header item, widened to `u32` fields, for a key `key` whose entry starts `offset`
/// bytes into the object's body, if its length and the offset fit in `width` bytes; the hash is
/// cut to `width` bytes.
fn new_item(width: usize, key: &str, offset: usize) -> (r: Option<SuperHeaderItem32>)
    requires
        width == 1 || width == 2 || width == 4,
    ensures
        (key.spec_bytes().len() < pow256(width as nat) && offset < pow256(width as nat)) <==> r is Some,
        r matches Some(h) ==> item_view(h) == (
            key.spec_bytes().len() as int,
            spec_djb2(key.spec_bytes()) as int % pow256(width as nat) as int,
            offset as int,
        ),
{
    proof {
        reveal_with_fuel(pow256, 5);
    }
    if width == 1 {
        match SuperHeaderItem8::new(key, offset) {
            Some(h) => Some(
                SuperHeaderItem32 { key_length: h.key_length as u32, key_hash: h.key_hash as u32, offset: h.offset as u32 },
            ),
            None => None,
        }
    } else if width == 2 {
        match SuperHeaderItem16::new(key, offset) {
            Some(h) => Some(
                SuperHeaderItem32 { key_length: h.key_length as u32, key_hash: h.key_hash as u32, offset: h.offset as u32 },
            ),
            None => None,
        }
    } else {
        SuperHeaderItem32::new(key, offset)
    }
}

/// The super header: each item's key length, key hash and offset, in `width` little-endian
/// bytes each, item after item.
fn items_as_bytes(items: &Vec<SuperHeaderItem32>, width: usize) -> (r: Vec<u8>)
    requires
        width <= 8,
    ensures
        r@ == items_bytes(items_view(items@), width as nat),
{
    let mut out: Vec<u8> = Vec::new();
    let mut i: usize = 0;
    while i < items.len()
        invariant
            i <= items.len(),
            width <= 8,
            out@ == items_bytes(items_view(items@.subrange(0, i as int)), width as nat),
        decreases items.len() - i,
    {
        let h = items[i];
        let a = le_bytes_of(h.key_length as u64, width);
        let b = le_bytes_of(h.key_hash as u64, width);
        let c = le_bytes_of(h.offset as u64, width);
        out.extend_from_slice(a.as_slice());
        out.extend_from_slice(b.as_slice());
        out.extend_from_slice(c.as_slice());
        proof {
            let sub = items_view(items@.subrange(0, i + 1));
            assert(sub.drop_last() =~= items_view(items@.subrange(0, i as int)));
            assert(sub.last() == item_view(h));
        }
        i += 1;
        assert(out@ =~= items_bytes(items_view(items@.subrange(0, i as int)), width as nat));
    }
    assert(items@.subrange(0, items.len() as int) =~= items@);
    out
}

/// The least space of the entries is at least one byte each.
proof fn lemma_min_object_size_ge(o: Seq<(String, JsonValue)>, k: int)
    requires
        0 <= k <= o.len(),
        entries_encodable(o),
    ensures
        min_object_size(o, k) >= k,
    decreases k,
{
    if k > 0 {
        lemma_min_object_size_ge(o, k - 1);
        assert(min_value_size(o[k - 1].1) >= 0);
    }
}

/// Encode one entry of an object: a zeroed header index of `width` bytes, the key and the value,
/// returning the entry's super header item (widened to `u32` fields), or `None` (with what was
/// written left for the caller to drop) if the key length or its offset from `offset_start`
/// does not fit in `width` bytes.
fn encode_entry(encoder: &mut Encoder, key: &String, value: &JsonValue, offset_start: usize, width: usize) -> (r:
    EncodeResult<Option<SuperHeaderItem32>>)
    requires
        width == 1 || width == 2 || width == 4,
        encodable(*value),
        offset_start <= old(encoder).spec_data().len(),
    ensures
        ({
            let d1 = old(encoder).spec_data() + le_bytes(0, width as nat);
            let off = d1.len() - offset_start;
            let kb = encode_utf8(key@);
            if kb.len() >= pow256(width as nat) || off >= pow256(width as nat) {
                r == Ok::<Option<SuperHeaderItem32>, EncodeError>(None)
            } else {
                match spec_encode_value(*value, d1 + kb) {
                    Err(e) => r == Err::<Option<SuperHeaderItem32>, EncodeError>(e),
                    Ok(d) => r matches Ok(Some(h)) && final(encoder).spec_data() == d && item_view(h) == (
                        kb.len() as int,
                        spec_djb2(kb) as int % pow256(width as nat) as int,
                        off,
                    ) && width <= h.offset && offset_start + h.offset <= d.len(),
                }
            }
        }),
        r is Ok ==> extends(final(encoder).spec_data(), old(encoder).spec_data()),
    decreases *value, 1nat, 0nat,
{
    let ghost before = encoder.spec_data();
    let zero = le_bytes_of(0, width);
    encoder.extend(zero.as_slice());
    let pos = encoder.position();
    proof {
        crate::batson::decoder::lemma_le_roundtrip(0, width as nat);
        lemma_extends_append(before, zero@);
    }
    let h = match new_item(width, key.as_str(), pos - offset_start) {
        Some(h) => h,
        None => {
            return Ok(None);
        },
    };
    let key_bytes = key.as_str().as_bytes();
    encoder.extend(key_bytes);
    let ghost mid = encoder.spec_data();
    match encoder.encode_value(value) {
        Err(e) => return Err(e),
        Ok(()) => {},
    }
    proof {
        lemma_extends_append(before + zero@, key_bytes@);
        assert(mid == before + zero@ + key_bytes@);
        lemma_extends_trans(mid, before + zero@, before);
        lemma_extends_trans(encoder.spec_data(), mid, before);
    }
    Ok(Some(h))
}

/// Encode the entries of `object` with a super header whose item fields take `width` bytes:
/// the super header (aligned, zeroed), then for each entry a header index, its key and its
/// value; then the header indices and the sorted super header written in. `false` (with what
/// was written left for the caller to drop) if a key length or an offset does not fit.
fn encode_object_sized(encoder: &mut Encoder, object: &Vec<(String, JsonValue)>, width: usize) -> (r:
    EncodeResult<bool>)
    requires
        width == 1 || width == 2 || width == 4,
        object@.len() * 12 <= usize::MAX,
        entries_encodable(object@),
    ensures
        match spec_encode_object_sized(width as nat, object@, old(encoder).spec_data()) {
            Ok(Some(d)) => r == Ok::<bool, EncodeError>(true) && final(encoder).spec_data() == d,
            Ok(None) => r == Ok::<bool, EncodeError>(false),
            Err(e) => r == Err::<bool, EncodeError>(e),
        },
        r is Ok ==> extends(final(encoder).spec_data(), old(encoder).spec_data()),
    decreases object@, 2nat, 0nat,
{
    let ghost d0 = encoder.spec_data();
    if width == 1 {
        encoder.align::<u8>();
    } else if width == 2 {
        encoder.align::<u16>();
    } else {
        encoder.align::<u32>();
    }
    let ghost d1 = encoder.spec_data();
    assert(d1 == aligned(d0, offset_align(width as nat)));
    let super_header_start = encoder.ring_fence(object.len() * 3 * width);
    let ghost d2 = encoder.spec_data();
    let offset_start = encoder.position();
    proof {
        lemma_extends_append(d0, d1.subrange(d0.len() as int, d1.len() as int));
        assert(d1 =~= d0 + d1.subrange(d0.len() as int, d1.len() as int));
        lemma_extends_append(d1, zeros((object.len() * 3 * width) as nat));
        lemma_extends_trans(d2, d1, d0);
    }
    let ghost goal = spec_encode_entries(width as nat, object@, 0, offset_start as int, d2, Seq::empty());
    assert(d2.subrange(0, d2.len() as int) =~= d2);
    assert(items_view(Seq::<SuperHeaderItem32>::empty()) =~= Seq::<(int, int, int)>::empty());
    let mut super_header: Vec<SuperHeaderItem32> = Vec::new();
    let mut k: usize = 0;
    while k < object.len()
        invariant
            k <= object.len(),
            width == 1 || width == 2 || width == 4,
            entries_encodable(object@),
            d0 == old(encoder).spec_data(),
            d1 == aligned(d0, offset_align(width as nat)),
            d2 == d1 + zeros((object@.len() * 3 * width) as nat),
            super_header_start == d1.len(),
            goal == spec_encode_entries(width as nat, object@, 0, offset_start as int, d2, Seq::empty()),
            offset_start == d2.len(),
            extends(d2, d0),
            extends(encoder.spec_data(), d2),
            super_header@.len() == k,
            forall|i: int|
                0 <= i < k ==> width <= (#[trigger] super_header@[i]).offset && offset_start
                    + super_header@[i].offset <= encoder.spec_data().len(),
            goal == spec_encode_entries(
                width as nat,
                object@,
                k as nat,
                offset_start as int,
                encoder.spec_data(),
                items_view(super_header@),
            ),
        decreases object.len() - k,
    {
        let ghost before = encoder.spec_data();
        let (key, value) = &object[k];
        proof {
            assert(object@[k as int].0 == *key && object@[k as int].1 == *value);
            assert(!(object@[k as int].1 is BigInt) && encodable(object@[k as int].1));
        }
        let h = match encode_entry(encoder, key, value, offset_start, width) {
            Err(e) => return Err(e),
            Ok(None) => {
                proof {
                    lemma_extends_trans(encoder.spec_data(), before, d2);
                    lemma_extends_trans(encoder.spec_data(), d2, d0);
                }
                return Ok(false);
            },
            Ok(Some(h)) => h,
        };
        let ghost old_items = super_header@;
        super_header.push(h);
        proof {
            lemma_extends_trans(encoder.spec_data(), before, d2);
            assert(items_view(super_header@) =~= items_view(old_items).push(item_view(h)));
            assert forall|i: int|
                0 <= i < k + 1 implies width <= (#[trigger] super_header@[i]).offset && offset_start
                    + super_header@[i].offset <= encoder.spec_data().len() by {
                if i < k {
                    assert(super_header@[i] == old_items[i]);
                }
            }
        }
        k += 1;
    }
    let ghost d3 = encoder.spec_data();
    let ghost items = items_view(super_header@);
    let sorted = sort_super_header(super_header);
    proof {
        crate::batson::object::lemma_sort_items_from(items);
    }
    let ghost sv = items_view(sorted@);
    let mut i: usize = 0;
    while i < sorted.len()
        invariant
            i <= sorted.len(),
            width == 1 || width == 2 || width == 4,
            sv == items_view(sorted@),
            sv.len() == items.len(),
            forall|t: int| 0 <= t < items.len() ==> items.contains(#[trigger] sv[t]),
            forall|t: int|
                0 <= t < items.len() ==> width <= (#[trigger] items[t]).2 && offset_start + items[t].2
                    <= d3.len(),
            d0 == old(encoder).spec_data(),
            d1 == aligned(d0, offset_align(width as nat)),
            d2 == d1 + zeros((object@.len() * 3 * width) as nat),
            super_header_start == d1.len(),
            goal == spec_encode_entries(width as nat, object@, 0, offset_start as int, d2, Seq::empty()),
            goal == Ok::<Option<(Seq<u8>, Seq<(int, int, int)>)>, EncodeError>(Some((d3, items))),
            sv == sort_items(items),
            offset_start == d2.len(),
            extends(d2, d0),
            encoder.spec_data().len() == d3.len(),
            extends(encoder.spec_data(), d2),
            set_indices(d3, offset_start as int, sv, width as nat, 0) == set_indices(
                encoder.spec_data(),
                offset_start as int,
                sv,
                width as nat,
                i as nat,
            ),
        decreases sorted.len() - i,
    {
        let h = sorted[i];
        let len_now = encoder.position();
        proof {
            assert(sv[i as int] == item_view(h));
            assert(items.contains(sv[i as int]));
            let u = choose|u: int| 0 <= u < items.len() && items[u] == sv[i as int];
            assert(width <= items[u].2 && offset_start + items[u].2 <= d3.len());
        }
        let idx = le_bytes_of(i as u64, width);
        proof {
            crate::batson::decoder::lemma_le_roundtrip(i as nat, width as nat);
            lemma_splice(encoder.spec_data(), offset_start + h.offset - width, idx@, d2);
        }
        encoder.set_range(offset_start + h.offset as usize - width, idx.as_slice());
        i += 1;
    }
    let sh = items_as_bytes(&sorted, width);
    proof {
        lemma_extends_trans(encoder.spec_data(), d2, d0);
        lemma_items_bytes_len(sv, width as nat);
        lemma_splice(encoder.spec_data(), super_header_start as int, sh@, d0);
    }
    encoder.set_range(super_header_start, sh.as_slice());
    Ok(true)
}

/// Encode `object`: an empty header for no entries; otherwise with the super header's fields in
/// the narrowest of `u8`, `u16` and `u32` that the estimate of its size and then its keys and
/// offsets allow.
pub fn encode_object(encoder: &mut Encoder, object: &Vec<(String, JsonValue)>) -> (r: EncodeResult<()>)
    requires
        object@.len() * 12 <= usize::MAX,
        entries_encodable(object@),
    ensures
        match spec_encode_object(object@, old(encoder).spec_data()) {
            Ok(d) => r is Ok && final(encoder).spec_data() == d,
            Err(e) => r == Err::<(), EncodeError>(e),
        },
        r is Ok ==> extends(final(encoder).spec_data(), old(encoder).spec_data()),
    decreases object@, 3nat, 0nat,
{
    let ghost d0 = encoder.spec_data();
    if object.len() == 0 {
        let r = encoder.encode_length(Category::Object, 0);
        proof {
            if r is Ok {
                lemma_extends_append(d0, encoder.spec_data().subrange(d0.len() as int, encoder.spec_data().len() as int));
                assert(encoder.spec_data() =~= d0 + encoder.spec_data().subrange(d0.len() as int, encoder.spec_data().len() as int));
            }
        }
        return r;
    }
    let min_size = minimum_size_estimate(object);
    proof {
        lemma_min_object_size_ge(object@, object@.len() as int);
    }
    let encoder_position = encoder.position();
    if min_size <= 0xff {
        match encoder.encode_length(Category::Object, object.len()) {
            Ok(()) => {},
            Err(e) => return Err(e),
        }
        let ghost d1 = encoder.spec_data();
        match encode_object_sized(encoder, object, 1) {
            Ok(true) => {
                proof {
                    lemma_extends_append(d0, d1.subrange(d0.len() as int, d1.len() as int));
                    assert(d1 =~= d0 + d1.subrange(d0.len() as int, d1.len() as int));
                    lemma_extends_trans(encoder.spec_data(), d1, d0);
                }
                return Ok(());
            },
            Ok(false) => {},
            Err(e) => return Err(e),
        }
        proof {
            lemma_extends_append(d0, d1.subrange(d0.len() as int, d1.len() as int));
            assert(d1 =~= d0 + d1.subrange(d0.len() as int, d1.len() as int));
            lemma_extends_trans(encoder.spec_data(), d1, d0);
        }
        encoder.reset_position(encoder_position);
    }
    if min_size <= 0xffff {
        encoder.encode_len_u16(Category::Object, object.len() as u16);
        let ghost d1 = encoder.spec_data();
        match encode_object_sized(encoder, object, 2) {
            Ok(true) => {
                proof {
                    lemma_extends_append(d0, d1.subrange(d0.len() as int, d1.len() as int));
                    assert(d1 =~= d0 + d1.subrange(d0.len() as int, d1.len() as int));
                    lemma_extends_trans(encoder.spec_data(), d1, d0);
                }
                return Ok(());
            },
            Ok(false) => {},
            Err(e) => return Err(e),
        }
        proof {
            lemma_extends_append(d0, d1.subrange(d0.len() as int, d1.len() as int));
            assert(d1 =~= d0 + d1.subrange(d0.len() as int, d1.len() as int));
            lemma_extends_trans(encoder.spec_data(), d1, d0);
        }
        encoder.reset_position(encoder_position);
    }
    match encoder.encode_len_u32(Category::Object, object.len()) {
        Ok(()) => {},
        Err(e) => return Err(e),
    }
    let ghost d1 = encoder.spec_data();
    match encode_object_sized(encoder, object, 4) {
        Ok(true) => {
            proof {
                lemma_extends_append(d0, d1.subrange(d0.len() as int, d1.len() as int));
                assert(d1 =~= d0 + d1.subrange(d0.len() as int, d1.len() as int));
                lemma_extends_trans(encoder.spec_data(), d1, d0);
            }
            Ok(())
        },
        Ok(false) => Err(EncodeError::ObjectTooLarge),
        Err(e) => Err(e),
    }
}

/// The super header items in `t`: three numbers of `w` little-endian bytes each, for key
/// length, key hash and offset.
pub open spec fn items_of(t: Seq<u8>, w: nat) -> Seq<(int, int, int)> {
    Seq::new(
        t.len() / (3 * w),
        |i: int| (le_word(t, w, 3 * i), le_word(t, w, 3 * i + 1), le_word(t, w, 3 * i + 2)),
    )
}

/// The width of the fields of the super header of an object whose header has the length `l`.
pub open spec fn header_width(l: Length) -> nat {
    match l {
        Length::U32 => 4,
        Length::U16 => 2,
        _ => 1,
    }
}

/// Decoding an object's super header at `index`, after a header with length `l`: the width of
/// its item fields, the items and where they end; the memory taken to read as numbers.
pub open spec fn spec_object_header(s: Seq<u8>, index: int, l: Length) -> Result<
    (nat, Seq<(int, int, int)>, int),
    DecodeError,
> {
    if l == Length::Empty {
        Ok((2, Seq::empty(), index))
    } else {
        let w = header_width(l);
        match spec_read_length(s, index, l) {
            Err(e) => Err(e),
            Ok((n, i1)) => {
                let a = align_up(i1, offset_align(w) as int);
                match spec_take_slice(s, a, n * 3 * w) {
                    Ok(t) => Ok((w, items_of(t, w), a + n * 3 * w)),
                    Err(e) => Err(e),
                }
            },
        }
    }
}

/// Whether `r` is an error from reading memory as numbers, at `index`.
pub open spec fn cast_error_at<T>(r: DecodeResult<T>, index: int) -> bool {
    r matches Err(e) && e.index == index && e.error_type is PodCastError
}

/// Take the `length` items of a super header whose fields take `width` bytes (aligned as such
/// fields), widened to `u32` fields.
fn take_super_header(d: &mut Decoder, length: usize, width: usize) -> (r: DecodeResult<Vec<SuperHeaderItem32>>)
    requires
        old(d).wf(),
        old(d).index <= old(d).spec_bytes().len(),
        width == 1 || width == 2 || width == 4,
    ensures
        final(d).wf(),
        final(d).spec_bytes() == old(d).spec_bytes(),
        ({
            let a = align_up(old(d).index as int, offset_align(width as nat) as int);
            match spec_take_slice(old(d).spec_bytes(), a, length * 3 * width) {
                Ok(t) => (r matches Ok(v) && items_view(v@) == items_of(t, width as nat) && final(d).index
                    == a + length * 3 * width) || (width != 1 && cast_error_at(r, a)),
                Err(e) => r == Err::<Vec<SuperHeaderItem32>, DecodeError>(e),
            }
        }),
{
    proof {
        broadcast use vstd::layout::layout_of_primitives;
        lemma_align_le_size::<u8>();
        lemma_align_le_size::<u16>();
        lemma_align_le_size::<u32>();
        assert(length * 3 * width == length * (3 * width)) by (nonlinear_arith);
    }
    let mut items: Vec<SuperHeaderItem32> = Vec::new();
    if width == 1 {
        let bytes = match d.aligned_bytes::<u8>(length, 3) {
            Ok(b) => b,
            Err(e) => return Err(e),
        };
        let ghost t = bytes@;
        assert(t.len() == length * 3);
        proof {
            assert(t.len() / 3 == length) by {
                vstd::arithmetic::div_mod::lemma_div_by_multiple(length as int, 3);
            }
        }
        let mut i: usize = 0;
        while i < length
            invariant
                i <= length,
                t == bytes@,
                t.len() == length * 3,
                t.len() / 3 == length,
                length * 3 == bytes.len(),
                items@.len() == i,
                forall|j: int| 0 <= j < i ==> #[trigger] item_view(items@[j]) == items_of(t, 1)[j],
            decreases length - i,
        {
            let h = SuperHeaderItem32 {
                key_length: bytes[3 * i] as u32,
                key_hash: bytes[3 * i + 1] as u32,
                offset: bytes[3 * i + 2] as u32,
            };
            proof {
                reveal_with_fuel(le_value, 2);
                assert(t.subrange(3 * i, 3 * i + 1).drop_first().len() == 0);
                assert(t.subrange(3 * i + 1, 3 * i + 2).drop_first().len() == 0);
                assert(t.subrange(3 * i + 2, 3 * i + 3).drop_first().len() == 0);
                assert(item_view(h) == items_of(t, 1)[i as int]);
            }
            items.push(h);
            i += 1;
        }
        assert(items_view(items@) =~= items_of(t, 1));
        d.index = d.index + bytes.len();
        Ok(items)
    } else if width == 2 {
        let bytes = match d.aligned_bytes::<u16>(length, 6) {
            Ok(b) => b,
            Err(e) => return Err(e),
        };
        let v = match bytes_as_u16s(bytes) {
            Ok(v) => v,
            Err(e) => return Err(d.error(DecodeErrorType::PodCastError(e))),
        };
        let ghost t = bytes@;
        assert(t.len() == length * 6);
        proof {
            vstd::arithmetic::div_mod::lemma_div_by_multiple(length as int, 6);
            assert(length * 6 == (length * 3) * 2) by (nonlinear_arith);
            vstd::arithmetic::div_mod::lemma_div_by_multiple((length * 3) as int, 2);
            assert(le_words(t, 2).len() == length * 3);
            assert(v@.len() == v@.map_values(|x: u16| x as int).len());
        }
        let mut i: usize = 0;
        while i < length
            invariant
                i <= length,
                t == bytes@,
                t.len() / 6 == length,
                v@.len() == length * 3,
                v.len() == length * 3,
                v@.map_values(|x: u16| x as int) == le_words(t, 2),
                items@.len() == i,
                forall|j: int| 0 <= j < i ==> #[trigger] item_view(items@[j]) == items_of(t, 2)[j],
            decreases length - i,
        {
            let h = SuperHeaderItem32 {
                key_length: v[3 * i] as u32,
                key_hash: v[3 * i + 1] as u32,
                offset: v[3 * i + 2] as u32,
            };
            proof {
                assert(v@.map_values(|x: u16| x as int)[3 * i as int] == le_words(t, 2)[3 * i as int]);
                assert(v@.map_values(|x: u16| x as int)[3 * i + 1] == le_words(t, 2)[3 * i + 1]);
                assert(v@.map_values(|x: u16| x as int)[3 * i + 2] == le_words(t, 2)[3 * i + 2]);
                assert(item_view(h) == items_of(t, 2)[i as int]);
            }
            items.push(h);
            i += 1;
        }
        assert(items_view(items@) =~= items_of(t, 2));
        d.index = d.index + bytes.len();
        Ok(items)
    } else {
        let bytes = match d.aligned_bytes::<u32>(length, 12) {
            Ok(b) => b,
            Err(e) => return Err(e),
        };
        let v = match bytes_as_u32s(bytes) {
            Ok(v) => v,
            Err(e) => return Err(d.error(DecodeErrorType::PodCastError(e))),
        };
        let ghost t = bytes@;
        assert(t.len() == length * 12);
        proof {
            vstd::arithmetic::div_mod::lemma_div_by_multiple(length as int, 12);
            assert(length * 12 == (length * 3) * 4) by (nonlinear_arith);
            vstd::arithmetic::div_mod::lemma_div_by_multiple((length * 3) as int, 4);
            assert(le_words(t, 4).len() == length * 3);
            assert(v@.len() == v@.map_values(|x: u32| x as int).len());
        }
        let mut i: usize = 0;
        while i < length
            invariant
                i <= length,
                t == bytes@,
                t.len() / 12 == length,
                v@.len() == length * 3,
                v.len() == length * 3,
                v@.map_values(|x: u32| x as int) == le_words(t, 4),
                items@.len() == i,
                forall|j: int| 0 <= j < i ==> #[trigger] item_view(items@[j]) == items_of(t, 4)[j],
            decreases length - i,
        {
            let h = SuperHeaderItem32 { key_length: v[3 * i], key_hash: v[3 * i + 1], offset: v[3 * i + 2] };
            proof {
                assert(v@.map_values(|x: u32| x as int)[3 * i as int] == le_words(t, 4)[3 * i as int]);
                assert(v@.map_values(|x: u32| x as int)[3 * i + 1] == le_words(t, 4)[3 * i + 1]);
                assert(v@.map_values(|x: u32| x as int)[3 * i + 2] == le_words(t, 4)[3 * i + 2]);
                assert(item_view(h) == items_of(t, 4)[i as int]);
            }
            items.push(h);
            i += 1;
        }
        assert(items_view(items@) =~= items_of(t, 4));
        d.index = d.index + bytes.len();
        Ok(items)
    }
}

/// An object, by its super header: the items widened to `u32` fields, and the width in bytes
/// that their fields take in the encoding.
#[derive(Debug)]
pub struct Object {
    pub width: usize,
    pub super_header: Vec<SuperHeaderItem32>,
}

/// How an item ranks against a key of length `key_len` and hash `key_hash` (0, 1, 2 for less,
/// equal, greater): by key length, then by key hash.
pub open spec fn item_rank(item: (int, int, int), key_len: int, key_hash: int) -> int {
    if item.0 < key_len {
        0
    } else if item.0 > key_len {
        2
    } else if item.1 < key_hash {
        0
    } else if item.1 > key_hash {
        2
    } else {
        1
    }
}

/// The ranks of the items against a key, as a function of the index.
pub open spec fn item_outcomes(items: Seq<(int, int, int)>, key_len: int, key_hash: int) -> spec_fn(int) -> int {
    |k: int| if 0 <= k < items.len() {
        item_rank(items[k], key_len, key_hash)
    } else {
        1
    }
}

/// Looking for `key` among the keys of items `k` to `hi`, each starting at `start` plus its
/// offset: whether one matched and where reading ended, or the error of reading a key.
pub open spec fn spec_scan(s: Seq<u8>, start: int, items: Seq<(int, int, int)>, key: Seq<u8>, k: int, hi: int) -> Result<
    (bool, int),
    DecodeError,
>
    decreases hi - k,
{
    if k >= hi {
        Ok((false, start))
    } else {
        let p = start + items[k].2;
        match spec_take_slice(s, p, items[k].0) {
            Err(e) => Err(e),
            Ok(t) => if t == key {
                Ok((true, p + items[k].0))
            } else {
                spec_scan(s, start, items, key, k + 1, hi)
            },
        }
    }
}

/// Looking up `key` in an object whose body starts at `start`: not there if it is too long for
/// the item width `w`; otherwise the keys of the run of items that match its length and hash,
/// which binary search finds, compared in turn. Whether it was found and where reading ended
/// (just after the key, or back at `start`), or the error of reading a key.
pub open spec fn spec_object_get(s: Seq<u8>, start: int, w: nat, items: Seq<(int, int, int)>, key: Seq<u8>) -> Result<
    (bool, int),
    DecodeError,
> {
    if key.len() >= pow256(w) {
        Ok((false, start))
    } else {
        let kh = spec_djb2(key) as int % pow256(w) as int;
        match search_range(items.len() as int, item_outcomes(items, key.len() as int, kh), 0, items.len() as int) {
            None => Ok((false, start)),
            Some((lo, hi)) => spec_scan(s, start, items, key, lo, hi),
        }
    }
}

/// A run of equal outcomes ending at `k` starts no later than any `m` from which all outcomes
/// up to `k` are equal.
proof fn lemma_run_start_le(o: spec_fn(int) -> int, k: int, m: int)
    requires
        0 <= m <= k,
        forall|j: int| m <= j < k ==> #[trigger] o(j) == 1,
    ensures
        run_start(o, k) <= m,
    decreases k,
{
    if k > 0 && o(k - 1) == 1 {
        if m <= k - 1 {
            lemma_run_start_le(o, k - 1, m);
        } else {
            lemma_run_start_le(o, k - 1, k - 1);
        }
    }
}

/// Runs stay within the items: a run start is at least zero and at most where it ends, and a
/// run end is at least where it starts and at most `n`.
proof fn lemma_run_bounds(n: int, o: spec_fn(int) -> int, k: int)
    requires
        0 <= k <= n,
    ensures
        0 <= run_start(o, k) <= k,
        k <= run_end(n, o, k) <= n,
    decreases n - k,
{
    if k < n {
        lemma_run_bounds(n, o, k + 1);
    }
    lemma_run_start_bound(o, k);
}

proof fn lemma_run_start_bound(o: spec_fn(int) -> int, k: int)
    requires
        0 <= k,
    ensures
        0 <= run_start(o, k) <= k,
    decreases k,
{
    if k > 0 {
        lemma_run_start_bound(o, k - 1);
    }
}

/// A run of equal outcomes starting at `k` ends after any `m` up to which all outcomes from
/// `k` are equal.
proof fn lemma_run_end_gt(n: int, o: spec_fn(int) -> int, k: int, m: int)
    requires
        0 <= k <= m + 1,
        m < n,
        forall|j: int| k <= j <= m ==> #[trigger] o(j) == 1,
    ensures
        run_end(n, o, k) > m,
    decreases n - k,
{
    if k <= m {
        lemma_run_end_gt(n, o, k + 1, m);
    } else {
        lemma_run_bounds(n, o, k);
    }
}

/// Binary search over outcomes that never decrease finds a range holding every item whose
/// outcome is equal, if there is one between `low` and `high`.
proof fn lemma_search_range_finds(n: int, o: spec_fn(int) -> int, low: int, high: int, m: int)
    requires
        0 <= low <= m < high <= n,
        o(m) == 1,
        forall|j: int| 0 <= j < n ==> 0 <= #[trigger] o(j) <= 2,
        forall|i: int, j: int| 0 <= i <= j < n ==> #[trigger] o(i) <= #[trigger] o(j),
    ensures
        search_range(n, o, low, high) matches Some((lo, hi)) && 0 <= lo <= m < hi <= n,
    decreases high - low,
{
    let mid = low + (high - low) / 2;
    assert(low <= mid < high);
    if o(mid) == 0 {
        assert(o(m) <= o(mid) || mid <= m);
        lemma_search_range_finds(n, o, mid + 1, high, m);
    } else if o(mid) == 2 {
        assert(o(mid) <= o(m) || m <= mid);
        lemma_search_range_finds(n, o, low, mid, m);
    } else {
        if m <= mid {
            assert forall|j: int| m <= j < mid implies #[trigger] o(j) == 1 by {
                assert(o(m) <= o(j));
                assert(o(j) <= o(mid));
            }
            lemma_run_start_le(o, mid, m);
            lemma_run_end_gt(n, o, mid + 1, mid);
            lemma_run_bounds(n, o, mid);
            lemma_run_bounds(n, o, mid + 1);
        } else {
            lemma_run_start_le(o, mid, mid);
            lemma_run_bounds(n, o, mid);
            lemma_run_bounds(n, o, mid + 1);
            assert forall|j: int| mid + 1 <= j <= m implies #[trigger] o(j) == 1 by {
                assert(o(mid) <= o(j));
                assert(o(j) <= o(m));
            }
            lemma_run_end_gt(n, o, mid + 1, m);
        }
    }
}

/// Scanning the keys of items `k` to `hi`, all within the bytes, finds a key equal to `key` if
/// one of them is: it stops just after the first such key.
proof fn lemma_scan_finds(s: Seq<u8>, start: int, items: Seq<(int, int, int)>, key: Seq<u8>, k: int, hi: int, m: int)
    requires
        0 <= k <= m < hi <= items.len(),
        forall|q: int|
            0 <= q < items.len() ==> 0 <= start + (#[trigger] items[q]).2 && 0 <= items[q].0 && start + items[q].2
                + items[q].0 <= s.len(),
        s.subrange(start + items[m].2, start + items[m].2 + items[m].0) == key,
    ensures
        spec_scan(s, start, items, key, k, hi) matches Ok((true, e)) && exists|q: int|
            k <= q <= m && s.subrange(start + (#[trigger] items[q]).2, start + items[q].2 + items[q].0) == key && e
                == start + items[q].2 + items[q].0,
    decreases hi - k,
{
    let q = k;
    let _ = items[q];
    if s.subrange(start + items[k].2, start + items[k].2 + items[k].0) != key {
        lemma_scan_finds(s, start, items, key, k + 1, hi, m);
    }
}

/// Looking up a key in an object finds it wherever it is: if the super header's items are in
/// order of key length, then key hash, all of its keys lie within the bytes, and some item has
/// the key's length and hash (cut to the width `w`) and holds the key, then the lookup reports
/// it found, stopping just after a key equal to it (where that key's value starts).
pub proof fn lemma_object_get_finds_every_key(
    s: Seq<u8>,
    start: int,
    w: nat,
    items: Seq<(int, int, int)>,
    key: Seq<u8>,
    m: int,
)
    requires
        forall|i: int, j: int|
            0 <= i <= j < items.len() ==> (#[trigger] items[i]).0 < (#[trigger] items[j]).0 || (items[i].0
                == items[j].0 && items[i].1 <= items[j].1),
        forall|q: int|
            0 <= q < items.len() ==> 0 <= start + (#[trigger] items[q]).2 && 0 <= items[q].0 && start + items[q].2
                + items[q].0 <= s.len(),
        0 <= m < items.len(),
        key.len() < pow256(w),
        items[m].1 == spec_djb2(key) as int % pow256(w) as int,
        s.subrange(start + items[m].2, start + items[m].2 + items[m].0) == key,
    ensures
        spec_object_get(s, start, w, items, key) matches Ok((true, e)) && exists|q: int|
            0 <= q < items.len() && s.subrange(start + (#[trigger] items[q]).2, start + items[q].2 + items[q].0)
                == key && e == start + items[q].2 + items[q].0,
{
    let kh = spec_djb2(key) as int % pow256(w) as int;
    let n = items.len() as int;
    let o = item_outcomes(items, key.len() as int, kh);
    assert(items[m].0 == key.len());
    assert forall|j: int| 0 <= j < n implies 0 <= #[trigger] o(j) <= 2 by {}
    assert forall|i: int, j: int| 0 <= i <= j < n implies #[trigger] o(i) <= #[trigger] o(j) by {
        let _ = items[i];
        let _ = items[j];
    }
    lemma_search_range_finds(n, o, 0, n, m);
    let (lo, hi) = search_range(n, o, 0, n)->Some_0;
    lemma_scan_finds(s, start, items, key, lo, hi, m);
}

/// A search, whatever the outcomes, gives a range within the items.
proof fn lemma_search_range_bounds(n: int, o: spec_fn(int) -> int, low: int, high: int)
    requires
        0 <= low,
        high <= n,
    ensures
        search_range(n, o, low, high) matches Some((lo, hi)) ==> 0 <= lo <= hi <= n,
    decreases high - low,
{
    if low < high {
        let mid = low + (high - low) / 2;
        if o(mid) == 0 {
            if mid + 1 < high {
                lemma_search_range_bounds(n, o, mid + 1, high);
            }
        } else if o(mid) == 2 {
            if low < mid {
                lemma_search_range_bounds(n, o, low, mid);
            }
        } else {
            lemma_run_bounds(n, o, mid);
            lemma_run_bounds(n, o, mid + 1);
            lemma_run_start_bound(o, mid);
        }
    }
}

/// A scan that finds the key stops just after one of the scanned keys that is equal to it; one
/// that does not stays at `start`.
proof fn lemma_scan_sound(s: Seq<u8>, start: int, items: Seq<(int, int, int)>, key: Seq<u8>, k: int, hi: int)
    requires
        0 <= k,
        hi <= items.len(),
    ensures
        spec_scan(s, start, items, key, k, hi) matches Ok((found, e)) ==> if found {
            exists|q: int|
                k <= q < hi && spec_take_slice(s, start + (#[trigger] items[q]).2, items[q].0) == Ok::<
                    Seq<u8>,
                    DecodeError,
                >(key) && e == start + items[q].2 + items[q].0
        } else {
            e == start
        },
    decreases hi - k,
{
    if k < hi {
        lemma_scan_sound(s, start, items, key, k + 1, hi);
        let _ = items[k];
    }
}

/// Looking up a key in an object reports it found only where it is: stopping just after an
/// item's key that is equal to it; and a lookup that does not find it stays where the object's
/// body starts.
pub proof fn lemma_object_get_found_only_if_present(s: Seq<u8>, start: int, w: nat, items: Seq<(int, int, int)>, key: Seq<u8>)
    ensures
        spec_object_get(s, start, w, items, key) matches Ok((found, e)) ==> if found {
            exists|q: int|
                0 <= q < items.len() && spec_take_slice(s, start + (#[trigger] items[q]).2, items[q].0) == Ok::<
                    Seq<u8>,
                    DecodeError,
                >(key) && e == start + items[q].2 + items[q].0
        } else {
            e == start
        },
{
    if key.len() < pow256(w) {
        let kh = spec_djb2(key) as int % pow256(w) as int;
        let n = items.len() as int;
        let o = item_outcomes(items, key.len() as int, kh);
        lemma_search_range_bounds(n, o, 0, n);
        if let Some((lo, hi)) = search_range(n, o, 0, n) {
            lemma_scan_sound(s, start, items, key, lo, hi);
        }
    }
}

/// `spec_object_get` from an index and a width held as `usize`.
pub open spec fn object_lookup(s: Seq<u8>, start: usize, w: usize, items: Seq<(int, int, int)>, key: Seq<u8>) -> Result<
    (bool, int),
    DecodeError,
> {
    spec_object_get(s, start as int, w as nat, items, key)
}

/// Whether `key` is too long for items of width `w`, so that a lookup needs no items.
pub open spec fn key_too_long(key: Seq<u8>, w: usize) -> bool {
    key.len() >= pow256(w as nat)
}

/// Whether `r` is the rank of an item against a key of length `kl` and hash `kh`.
pub open spec fn rank_matches(r: int, h: SuperHeaderItem32, kl: u32, kh: u32) -> bool {
    r == item_rank(item_view(h), kl as int, kh as int)
}

/// The ranks of the items against a key of length `kl` and hash `kh`.
pub open spec fn outcomes_for(items: Seq<(int, int, int)>, kl: u32, kh: u32) -> spec_fn(int) -> int {
    item_outcomes(items, kl as int, kh as int)
}

/// `spec_scan` from indices held as `usize`.
pub open spec fn scan_from(s: Seq<u8>, start: usize, items: Seq<(int, int, int)>, key: Seq<u8>, k: usize, hi: usize) -> Result<
    (bool, int),
    DecodeError,
> {
    spec_scan(s, start as int, items, key, k as int, hi as int)
}

/// Whether the bytes `a` and `b` are the same.
fn bytes_equal(a: &[u8], b: &[u8]) -> (r: bool)
    ensures
        r == (a@ == b@),
{
    if a.len() != b.len() {
        return false;
    }
    let mut k: usize = 0;
    while k < a.len()
        invariant
            k <= a.len(),
            a.len() == b.len(),
            forall|j: int| 0 <= j < k ==> a@[j] == b@[j],
        decreases a.len() - k,
    {
        if a[k] != b[k] {
            return false;
        }
        k += 1;
    }
    assert(a@ =~= b@);
    true
}

/// The item's offset, as a `usize`.
fn offset_of(h: SuperHeaderItem32) -> (r: usize)
    ensures
        r == h.offset,
{
    h.offset as usize
}

/// The index `offset` past `start`, cut to a `usize` where it passes the largest one.
pub(crate) fn index_past(start: usize, offset: usize) -> (r: usize)
    requires
        start <= isize::MAX,
        offset <= u32::MAX,
    ensures
        r == (start + offset) as usize,
{
    ((start as u64) + (offset as u64)) as usize
}

/// The item's key length, as a `usize`.
fn key_length_of(h: SuperHeaderItem32) -> (r: usize)
    ensures
        r == h.key_length,
{
    h.key_length as usize
}

impl Object {
    /// Decode an object's super header after a header with length `length`: none for an empty
    /// object; otherwise the number of items, then the items, with fields of a `u32` or `u16`
    /// for those lengths and of a `u8` otherwise.
    pub fn decode_header(d: &mut Decoder, length: Length) -> (r: DecodeResult<Object>)
        requires
            old(d).wf(),
            old(d).index <= old(d).spec_bytes().len(),
        ensures
            final(d).wf(),
            final(d).spec_bytes() == old(d).spec_bytes(),
            match spec_object_header(old(d).spec_bytes(), old(d).index as int, length) {
                Ok((w, items, end)) => (r matches Ok(o) && o.width == w && items_view(o.super_header@) == items
                    && final(d).index == end) || (wide(length) && (r matches Err(e) && e.error_type is PodCastError)),
                Err(e) => r == Err::<Object, DecodeError>(e),
            },
            r matches Ok(o) ==> (o.width == 1 || o.width == 2 || o.width == 4) && final(d).index <= final(d).spec_bytes().len(),
    {
        let width: usize = match length {
            Length::Empty => {
                return Ok(Object { width: 2, super_header: Vec::new() });
            },
            Length::U32 => 4,
            Length::U16 => 2,
            _ => 1,
        };
        let n = match length.decode(d) {
            Ok(n) => n,
            Err(e) => return Err(e),
        };
        let r = match take_super_header(d, n, width) {
            Ok(items) => Ok(Object { width, super_header: items }),
            Err(e) => Err(e),
        };
        r
    }

    /// Look `key` up: move the decoder to just after the key in the object's body if the object
    /// holds it (`true`), otherwise leave it where it was (`false`).
    pub fn get(&self, d: &mut Decoder, key: &str) -> (r: DecodeResult<bool>)
        requires
            old(d).wf(),
            old(d).index <= old(d).spec_bytes().len(),
            self.width == 1 || self.width == 2 || self.width == 4,
            self.super_header@.len() > 0 || key_too_long(key.spec_bytes(), self.width),
        ensures
            final(d).wf(),
            final(d).spec_bytes() == old(d).spec_bytes(),
            match object_lookup(
                old(d).spec_bytes(),
                old(d).index,
                self.width,
                items_view(self.super_header@),
                key.spec_bytes(),
            ) {
                Ok((found, end)) => r == Ok::<bool, DecodeError>(found) && final(d).index == end,
                Err(e) => r == Err::<bool, DecodeError>(e),
            },
    {
        let key_item = match new_item(self.width, key, 0) {
            Some(h) => h,
            None => return Ok(false),
        };
        let kl = key_item.key_length;
        let kh = key_item.key_hash;
        let compare = move |h: &SuperHeaderItem32| -> (o: Ordering)
            ensures
                rank_matches(rank(o), *h, kl, kh),
            { order_of(h.key_length, h.key_hash, kl, kh) };
        let ghost g = outcomes_for(items_view(self.super_header@), kl, kh);
        proof {
            assert forall|k: int, o: Ordering|
                0 <= k < self.super_header@.len() && #[trigger] call_ensures(compare, (&self.super_header@[k],), o)
                    implies g(k) == rank(o) by {
                assert(rank_matches(rank(o), self.super_header@[k], kl, kh));
                assert(items_view(self.super_header@)[k] == item_view(self.super_header@[k]));
            }
            assert(consistent(self.super_header@, compare, g));
        }
        let found = binary_search(self.super_header.as_slice(), compare);
        let (lo, hi) = match found {
            None => return Ok(false),
            Some(x) => x,
        };
        let start = d.index;
        let mut k = lo;
        while k < hi
            invariant
                lo <= k <= hi <= self.super_header@.len(),
                d.wf(),
                d.spec_bytes() == old(d).spec_bytes(),
                start == old(d).index,
                start <= d.spec_bytes().len(),
                object_lookup(
                    old(d).spec_bytes(),
                    old(d).index,
                    self.width,
                    items_view(self.super_header@),
                    key.spec_bytes(),
                ) == scan_from(d.spec_bytes(), start, items_view(self.super_header@), key.spec_bytes(), lo, hi),
                scan_from(d.spec_bytes(), start, items_view(self.super_header@), key.spec_bytes(), lo, hi)
                    == scan_from(d.spec_bytes(), start, items_view(self.super_header@), key.spec_bytes(), k, hi),
            decreases hi - k,
        {
            let h = self.super_header[k];
            proof {
                assert(item_at(items_view(self.super_header@), k) == item_view(h));
            }
            let offset = offset_of(h);
            if offset > usize::MAX - start {
                // the key would start past any index, so past the end of the bytes
                return Err(DecodeError { index: index_past(start, offset), error_type: DecodeErrorType::EOF });
            }
            d.index = start + offset;
            let possible_key = match d.take_slice(key_length_of(h)) {
                Ok(p) => p,
                Err(e) => return Err(e),
            };
            if bytes_equal(possible_key, key.as_bytes()) {
                return Ok(true);
            }
            k += 1;
        }
        d.index = start;
        Ok(false)
    }

    /// The number of items.
    pub fn len(&self) -> (r: usize)
        ensures
            r == self.super_header@.len(),
    {
        self.super_header.len()
    }
}

/// Take a header index of `width` bytes, little-endian.
fn take_header_index(d: &mut Decoder, width: usize) -> (r: DecodeResult<usize>)
    requires
        old(d).wf(),
        width == 1 || width == 2 || width == 4,
    ensures
        final(d).wf(),
        final(d).spec_bytes() == old(d).spec_bytes(),
        match spec_take_slice(old(d).spec_bytes(), old(d).index as int, width as int) {
            Ok(t) => r matches Ok(v) && v == le_value(t) && final(d).index == old(d).index + width,
            Err(e) => r == Err::<usize, DecodeError>(e),
        },
{
    if width == 1 {
        match d.take_u8() {
            Ok(v) => Ok(v as usize),
            Err(e) => Err(e),
        }
    } else if width == 2 {
        match d.take_u16() {
            Ok(v) => Ok(v as usize),
            Err(e) => Err(e),
        }
    } else {
        match d.take_u32() {
            Ok(v) => Ok(v as usize),
            Err(e) => Err(e),
        }
    }
}

impl Object {
    /// Take the key of the next entry: its header index, then the key whose length the super
    /// header item there gives.
    pub fn take_next_key<'b>(&self, d: &mut Decoder<'b>) -> (r: DecodeResult<&'b str>)
        requires
            old(d).wf(),
            self.width == 1 || self.width == 2 || self.width == 4,
        ensures
            final(d).wf(),
            final(d).spec_bytes() == old(d).spec_bytes(),
            match spec_take_slice(old(d).spec_bytes(), old(d).index as int, self.width as int) {
                Err(e) => r == Err::<&str, DecodeError>(e),
                Ok(t) => {
                    let i1 = old(d).index + self.width;
                    if le_value(t) >= self.super_header@.len() {
                        r == Err::<&str, DecodeError>(
                            DecodeError { index: i1 as usize, error_type: DecodeErrorType::ObjectBodyIndexInvalid },
                        )
                    } else {
                        let kl = items_view(self.super_header@)[le_value(t) as int].0;
                        match spec_take_slice(old(d).spec_bytes(), i1, kl) {
                            Err(e) => r == Err::<&str, DecodeError>(e),
                            Ok(kt) => if valid_utf8(kt) {
                                r matches Ok(v) && v.spec_bytes() == kt && final(d).index == i1 + kl
                            } else {
                                r matches Err(e) && e.index == i1 && e.error_type is Utf8Error
                            },
                        }
                    }
                },
            },
    {
        let header_index = match take_header_index(d, self.width) {
            Ok(i) => i,
            Err(e) => return Err(e),
        };
        if header_index < self.super_header.len() {
            let h = self.super_header[header_index];
            d.take_str(key_length_of(h))
        } else {
            Err(d.error(DecodeErrorType::ObjectBodyIndexInvalid))
        }
    }

    /// Decode the entries of the object, one after another: each key, then its value.
    pub fn to_json(&self, d: &mut Decoder) -> (r: DecodeResult<Vec<(String, JsonValue)>>)
        requires
            old(d).wf(),
            self.width == 1 || self.width == 2 || self.width == 4,
            !(spec_take_entries(
                old(d).spec_bytes(),
                old(d).index as int,
                self.width as nat,
                items_view(self.super_header@),
                self.super_header@.len() as int,
                Seq::empty(),
            ) is Panic),
        ensures
            final(d).wf(),
            final(d).spec_bytes() == old(d).spec_bytes(),
            decoded_as(
                r,
                spec_take_entries(
                    old(d).spec_bytes(),
                    old(d).index as int,
                    self.width as nat,
                    items_view(self.super_header@),
                    self.super_header@.len() as int,
                    Seq::empty(),
                ),
                final(d).index as int,
                |v: Vec<(String, JsonValue)>| entries_view(v@, v@.len() as int),
                casts_entries(
                    old(d).spec_bytes(),
                    old(d).index as int,
                    self.width as nat,
                    items_view(self.super_header@),
                    self.super_header@.len() as int,
                ),
            ),
            r is Ok ==> old(d).index <= final(d).index <= final(d).spec_bytes().len() || (
                old(d).index == final(d).index && self.super_header@.len() == 0),
        decreases old(d).spec_bytes().len() - old(d).index, 1int,
    {
        let n = self.len();
        let ghost s = d.spec_bytes();
        let ghost i0 = d.index;
        let ghost items = items_view(self.super_header@);
        let mut out: Vec<(String, JsonValue)> = Vec::new();
        let mut k: usize = 0;
        while k < n
            invariant
                k <= n,
                n == self.super_header@.len(),
                self.width == 1 || self.width == 2 || self.width == 4,
                items == items_view(self.super_header@),
                d.wf(),
                d.spec_bytes() == s,
                s == old(d).spec_bytes(),
                i0 == old(d).index,
                i0 <= d.index,
                k > 0 ==> d.index <= s.len(),
                k == 0 ==> d.index == i0,
                out@.len() == k,
                spec_take_entries(s, i0 as int, self.width as nat, items, n as int, Seq::empty())
                    == spec_take_entries(
                    s,
                    d.index as int,
                    self.width as nat,
                    items,
                    n - k,
                    entries_view(out@, k as int),
                ),
                !(spec_take_entries(s, i0 as int, self.width as nat, items, n as int, Seq::empty()) is Panic),
                casts_entries(s, d.index as int, self.width as nat, items, n - k) ==> casts_entries(
                    s,
                    i0 as int,
                    self.width as nat,
                    items,
                    n as int,
                ),
            decreases n - k,
        {
            let key = match self.take_next_key(d) {
                Ok(key) => key,
                Err(e) => return Err(e),
            };
            let value = match d.take_value() {
                Ok(v) => v,
                Err(e) => return Err(e),
            };
            let owned = key.to_owned();
            proof {
                vstd::utf8::encode_utf8_decode_utf8(key@);
                lemma_entries_view_push(out@, (owned, value));
            }
            out.push((owned, value));
            k += 1;
        }
        Ok(out)
    }
}

} // verus!
