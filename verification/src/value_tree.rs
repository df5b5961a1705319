//! Parsing a JSON value into a tree: objects, arrays and leaves, each number an integer or the
//! extent of a float's text, with a nesting limit and, if asked, a partial mode for input cut
//! short.
use vstd::prelude::*;

use crate::errors::{
    json_error, spec_allowed_if_partial, JsonError, JsonErrorType, JsonResult, DEFAULT_RECURSION_LIMIT,
};
use crate::number_decoder::{
    decimal_value, digit_run_end, integer_digits, lemma_digit_run_end, lemma_int_agrees_with_range,
    lemma_integer_literal_value, spec_big_int_from_digits, spec_number_range, spec_parse_int, NumberInt,
    NumberRange,
};
use crate::parse::{
    ident_rest, lemma_peek_roundtrip, lemma_skip_ws, peek_byte, peek_is_num, peek_of, skip_ws, spec_after_key, spec_array_first,
    spec_array_step, spec_consume_ident, spec_finish, spec_peek, Ident, Parser, Peek,
};
use crate::string_decoder::{
    lemma_range_agrees_with_content, lemma_range_bounds, spec_decode_str, spec_range_content, StringDecoder, Tape,
};
use crate::value::{spec_skip_after, spec_skip_walk};

verus! {

/// How much of a value cut short by the end of the input a parse accepts: none; containers cut
/// short; or those and a string cut short as well.
#[derive(Debug, Clone, Copy, PartialEq, Eq)]
pub enum PartialMode {
    Off,
    On,
    TrailingStrings,
}

impl PartialMode {
    /// Whether input cut short is accepted at all.
    pub fn is_active(self) -> (r: bool)
        ensures
            r == !(self is Off),
    {
        match self {
            PartialMode::Off => false,
            _ => true,
        }
    }

    /// Whether a string cut short is accepted.
    pub fn allow_trailing_str(self) -> (r: bool)
        ensures
            r == (self is TrailingStrings),
    {
        match self {
            PartialMode::TrailingStrings => true,
            _ => false,
        }
    }
}

/// A parsed JSON value: each number an integer, or the extent of a float's text in the input
/// (the float itself is read from that text by the caller); objects keep their keys in order,
/// duplicates and all.
#[derive(Debug)]
pub enum ValueTree {
    Null,
    Bool(bool),
    Int(NumberInt),
    Float(NumberRange),
    Str(String),
    Array(Vec<ValueTree>),
    Object(Vec<(String, ValueTree)>),
}

/// A parsed value as mathematics: text by its UTF-8 bytes, a float by the start and end of its
/// text.
pub enum TreeView {
    Null,
    Bool(bool),
    Int(NumberInt),
    Float(int, int),
    Str(Seq<u8>),
    Array(Seq<TreeView>),
    Object(Seq<(Seq<u8>, TreeView)>),
}

/// The view of a tree.
pub open spec fn tree_view(t: ValueTree) -> TreeView
    decreases t, 0nat, 0int,
{
    match t {
        ValueTree::Null => TreeView::Null,
        ValueTree::Bool(b) => TreeView::Bool(b),
        ValueTree::Int(n) => TreeView::Int(n),
        ValueTree::Float(r) => TreeView::Float(r.range.start as int, r.range.end as int),
        ValueTree::Str(s) => TreeView::Str(vstd::utf8::encode_utf8(s@)),
        ValueTree::Array(a) => TreeView::Array(trees_view(a@, a@.len() as int)),
        ValueTree::Object(o) => TreeView::Object(members_view(o@, o@.len() as int)),
    }
}

/// The views of the first `k` trees.
pub open spec fn trees_view(a: Seq<ValueTree>, k: int) -> Seq<TreeView>
    decreases a, 1nat, k,
{
    if k <= 0 || k > a.len() {
        Seq::empty()
    } else {
        trees_view(a, k - 1).push(tree_view(a[k - 1]))
    }
}

/// The views of the first `k` members: keys by their UTF-8 bytes, values by their views.
pub open spec fn members_view(o: Seq<(String, ValueTree)>, k: int) -> Seq<(Seq<u8>, TreeView)>
    decreases o, 1nat, k,
{
    if k <= 0 || k > o.len() {
        Seq::empty()
    } else {
        members_view(o, k - 1).push((vstd::utf8::encode_utf8(o[k - 1].0@), tree_view(o[k - 1].1)))
    }
}

/// One more tree, one more view.
proof fn lemma_trees_view_push(a: Seq<ValueTree>, t: ValueTree)
    ensures
        trees_view(a.push(t), a.len() + 1int) == trees_view(a, a.len() as int).push(tree_view(t)),
{
    lemma_trees_view_prefix(a.push(t), a, a.len() as int);
}

proof fn lemma_trees_view_prefix(a: Seq<ValueTree>, b: Seq<ValueTree>, k: int)
    requires
        0 <= k <= a.len(),
        k <= b.len(),
        forall|j: int| 0 <= j < k ==> a[j] == b[j],
    ensures
        trees_view(a, k) == trees_view(b, k),
    decreases k,
{
    if k > 0 {
        lemma_trees_view_prefix(a, b, k - 1);
    }
}

/// One more member, one more view.
proof fn lemma_members_view_push(o: Seq<(String, ValueTree)>, m: (String, ValueTree))
    ensures
        members_view(o.push(m), o.len() + 1int) == members_view(o, o.len() as int).push(
            (vstd::utf8::encode_utf8(m.0@), tree_view(m.1)),
        ),
{
    lemma_members_view_prefix(o.push(m), o, o.len() as int);
}

proof fn lemma_members_view_prefix(a: Seq<(String, ValueTree)>, b: Seq<(String, ValueTree)>, k: int)
    requires
        0 <= k <= a.len(),
        k <= b.len(),
        forall|j: int| 0 <= j < k ==> a[j] == b[j],
    ensures
        members_view(a, k) == members_view(b, k),
    decreases k,
{
    if k > 0 {
        lemma_members_view_prefix(a, b, k - 1);
    }
}

/// The view of a parse's result.
pub open spec fn view_result(r: JsonResult<ValueTree>) -> JsonResult<TreeView> {
    match r {
        Ok(t) => Ok(tree_view(t)),
        Err(e) => Err(e),
    }
}

/// Whether a partial parse in mode `pm` ignores the error `e`, closing what is open.
pub open spec fn partial_ok(pm: PartialMode, e: JsonError) -> bool {
    !(pm is Off) && spec_allowed_if_partial(e.error_type)
}

/// Reading an object key whose opening quote is at `j`, then its colon: the key's bytes, and
/// where the parser then stands.
pub open spec fn spec_key(s: Seq<u8>, j: int) -> (JsonResult<Option<Seq<u8>>>, int) {
    match spec_decode_str(s, j, false) {
        Err(e) => (Err(e), j),
        Ok((b, _, n)) => match spec_after_key(s, n as int).0 {
            Err(e) => (Err(e), spec_after_key(s, n as int).1),
            Ok(_) => (Ok(Some(b)), spec_after_key(s, n as int).1),
        },
    }
}

/// Entering the object whose `{` is at `i`: its first key (`None` if it is empty), and where
/// the parser then stands.
pub open spec fn spec_first_key(s: Seq<u8>, i: int) -> (JsonResult<Option<Seq<u8>>>, int) {
    let j = skip_ws(s, i + 1);
    if j < s.len() {
        if s[j] == 0x22 {
            spec_key(s, j)
        } else if s[j] == 0x7d {
            (Ok(None), j + 1)
        } else {
            (Err(json_error(JsonErrorType::KeyMustBeAString, j)), j)
        }
    } else {
        (Err(json_error(JsonErrorType::EofWhileParsingObject, j)), j)
    }
}

/// Moving past a value in an object, from `i`: the next key (`None` at the end of the object),
/// and where the parser then stands.
pub open spec fn spec_next_key(s: Seq<u8>, i: int) -> (JsonResult<Option<Seq<u8>>>, int) {
    let j = skip_ws(s, i);
    if j < s.len() {
        if s[j] == 0x2c {
            let k = skip_ws(s, j + 1);
            if k < s.len() {
                if s[k] == 0x22 {
                    spec_key(s, k)
                } else if s[k] == 0x7d {
                    (Err(json_error(JsonErrorType::TrailingComma, k)), k)
                } else {
                    (Err(json_error(JsonErrorType::KeyMustBeAString, k)), k)
                }
            } else {
                (Err(json_error(JsonErrorType::EofWhileParsingValue, k)), k)
            }
        } else if s[j] == 0x7d {
            (Ok(None), j + 1)
        } else {
            (Err(json_error(JsonErrorType::ExpectedObjectCommaOrEnd, j)), j)
        }
    } else {
        (Err(json_error(JsonErrorType::EofWhileParsingObject, j)), j)
    }
}

/// A number, or what else the peek `p` stands for, at `i`: an integer where it is one,
/// otherwise the extent of a float; a value that is not a number at all is expected there.
pub open spec fn spec_number_leaf(s: Seq<u8>, i: int, p: Peek, allow_inf_nan: bool) -> (JsonResult<TreeView>, int) {
    let first = peek_byte(p);
    let r = match spec_parse_int(s, i, first) {
        Ok((v, n)) => Ok((TreeView::Int(v), n as int)),
        Err(e) => if e.error_type == JsonErrorType::FloatExpectingInt {
            match spec_number_range(s, i, first, allow_inf_nan) {
                Ok((_, n)) => Ok((TreeView::Float(i, n as int), n as int)),
                Err(e2) => Err(e2),
            }
        } else {
            Err(e)
        },
    };
    match r {
        Ok((v, n)) => (Ok(v), n),
        Err(e) => if !peek_is_num(p) {
            (Err(json_error(JsonErrorType::ExpectedSomeValue, i)), i)
        } else {
            (Err(e), i)
        },
    }
}

/// Parsing the value at `i`, whose peek is `p`, inside `depth` open containers: the tree and
/// where the parser then stands, or the error and where the parser stood. A container entered
/// inside `limit` or more open ones, one at least, is an error at its first value. In a partial
/// mode, an error it allows closes what is open.
pub open spec fn spec_value(
    s: Seq<u8>,
    i: int,
    p: Peek,
    depth: nat,
    limit: nat,
    allow_inf_nan: bool,
    pm: PartialMode,
) -> (JsonResult<TreeView>, int)
    decreases s.len() - i, 0int,
{
    match p {
        Peek::True => match spec_consume_ident(s, i, ident_rest(Ident::True)) {
            Ok(e) => (Ok(TreeView::Bool(true)), e as int),
            Err(e) => (Err(e), i),
        },
        Peek::False => match spec_consume_ident(s, i, ident_rest(Ident::False)) {
            Ok(e) => (Ok(TreeView::Bool(false)), e as int),
            Err(e) => (Err(e), i),
        },
        Peek::Null => match spec_consume_ident(s, i, ident_rest(Ident::Null)) {
            Ok(e) => (Ok(TreeView::Null), e as int),
            Err(e) => (Err(e), i),
        },
        Peek::String => match spec_decode_str(s, i, pm is TrailingStrings) {
            Ok((b, _, n)) => (Ok(TreeView::Str(b)), n as int),
            Err(e) => (Err(e), i),
        },
        Peek::Array => {
            let (r, j) = spec_array_first(s, i);
            match r {
                Ok(Some(p2)) => if depth > 0 && depth >= limit {
                    (Err(json_error(JsonErrorType::RecursionLimitExceeded, j)), j)
                } else if i < j < s.len() {
                    spec_items(s, j, p2, depth + 1, limit, allow_inf_nan, pm, Seq::empty())
                } else {
                    (Err(json_error(JsonErrorType::EofWhileParsingValue, j)), j)
                },
                Ok(None) => (Ok(TreeView::Array(Seq::empty())), j),
                Err(e) => if partial_ok(pm, e) {
                    (Ok(TreeView::Array(Seq::empty())), j)
                } else {
                    (Err(e), j)
                },
            }
        },
        Peek::Object => {
            let (r, j) = spec_first_key(s, i);
            match r {
                Ok(Some(k)) => match spec_peek(s, j) {
                    Ok(p2) => {
                        let j2 = skip_ws(s, j);
                        if depth > 0 && depth >= limit {
                            (Err(json_error(JsonErrorType::RecursionLimitExceeded, j2)), j2)
                        } else if i < j2 < s.len() {
                            spec_members(s, j2, p2, k, depth + 1, limit, allow_inf_nan, pm, Seq::empty())
                        } else {
                            (Err(json_error(JsonErrorType::EofWhileParsingValue, j2)), j2)
                        }
                    },
                    Err(e) => if partial_ok(pm, e) {
                        (Ok(TreeView::Object(Seq::empty())), skip_ws(s, j))
                    } else {
                        (Err(e), skip_ws(s, j))
                    },
                },
                Ok(None) => (Ok(TreeView::Object(Seq::empty())), j),
                Err(e) => if partial_ok(pm, e) {
                    (Ok(TreeView::Object(Seq::empty())), j)
                } else {
                    (Err(e), j)
                },
            }
        },
        _ => spec_number_leaf(s, i, p, allow_inf_nan),
    }
}

/// Parsing the items of an array from the one at `j`, whose peek is `p`, after the items `acc`:
/// the array and where the parser then stands, or the error.
pub open spec fn spec_items(
    s: Seq<u8>,
    j: int,
    p: Peek,
    depth: nat,
    limit: nat,
    allow_inf_nan: bool,
    pm: PartialMode,
    acc: Seq<TreeView>,
) -> (JsonResult<TreeView>, int)
    decreases s.len() - j, 1int,
{
    let (r, e) = spec_value(s, j, p, depth, limit, allow_inf_nan, pm);
    match r {
        Ok(v) => {
            let (r2, j2) = spec_array_step(s, e);
            match r2 {
                Ok(Some(p2)) => if j < j2 < s.len() {
                    spec_items(s, j2, p2, depth, limit, allow_inf_nan, pm, acc.push(v))
                } else {
                    (Err(json_error(JsonErrorType::EofWhileParsingValue, j2)), j2)
                },
                Ok(None) => (Ok(TreeView::Array(acc.push(v))), j2),
                Err(x) => if partial_ok(pm, x) {
                    (Ok(TreeView::Array(acc.push(v))), j2)
                } else {
                    (Err(x), j2)
                },
            }
        },
        Err(x) => if partial_ok(pm, x) {
            (Ok(TreeView::Array(acc)), e)
        } else {
            (Err(x), e)
        },
    }
}

/// Parsing the members of an object from the value at `j`, whose peek is `p` and whose key is
/// `key`, after the members `acc`: the object and where the parser then stands, or the error.
pub open spec fn spec_members(
    s: Seq<u8>,
    j: int,
    p: Peek,
    key: Seq<u8>,
    depth: nat,
    limit: nat,
    allow_inf_nan: bool,
    pm: PartialMode,
    acc: Seq<(Seq<u8>, TreeView)>,
) -> (JsonResult<TreeView>, int)
    decreases s.len() - j, 1int,
{
    let (r, e) = spec_value(s, j, p, depth, limit, allow_inf_nan, pm);
    match r {
        Ok(v) => {
            let (r2, j2) = spec_next_key(s, e);
            match r2 {
                Ok(Some(k2)) => match spec_peek(s, j2) {
                    Ok(p2) => {
                        let j3 = skip_ws(s, j2);
                        if j < j3 < s.len() {
                            spec_members(s, j3, p2, k2, depth, limit, allow_inf_nan, pm, acc.push((key, v)))
                        } else {
                            (Err(json_error(JsonErrorType::EofWhileParsingValue, j3)), j3)
                        }
                    },
                    Err(x) => if partial_ok(pm, x) {
                        (Ok(TreeView::Object(acc.push((key, v)))), skip_ws(s, j2))
                    } else {
                        (Err(x), skip_ws(s, j2))
                    },
                },
                Ok(None) => (Ok(TreeView::Object(acc.push((key, v)))), j2),
                Err(x) => if partial_ok(pm, x) {
                    (Ok(TreeView::Object(acc.push((key, v)))), j2)
                } else {
                    (Err(x), j2)
                },
            }
        },
        Err(x) => if partial_ok(pm, x) {
            (Ok(TreeView::Object(acc)), e)
        } else {
            (Err(x), e)
        },
    }
}

/// Parsing the whole of `s` as one JSON value, nested at most the default limit deep: in a
/// partial mode what follows the value is not looked at, otherwise only whitespace may follow.
pub open spec fn spec_parse(s: Seq<u8>, allow_inf_nan: bool, pm: PartialMode) -> JsonResult<TreeView> {
    match spec_peek(s, 0) {
        Err(e) => Err(e),
        Ok(p) => {
            let (r, e) = spec_value(s, skip_ws(s, 0), p, 0, DEFAULT_RECURSION_LIMIT as nat, allow_inf_nan, pm);
            match r {
                Err(x) => Err(x),
                Ok(t) => if pm is Off {
                    match spec_finish(s, e) {
                        Err(x) => Err(x),
                        Ok(_) => Ok(t),
                    }
                } else {
                    Ok(t)
                },
            }
        },
    }
}

/// The fraction or exponent after an integer part that ends at `e` ends no earlier.
proof fn lemma_number_tail_advances(s: Seq<u8>, e: int)
    requires
        0 <= e <= s.len(),
        s.len() <= isize::MAX,
    ensures
        crate::number_decoder::spec_number_tail(s, e) matches Ok((_, n)) ==> e <= n,
{
    lemma_digit_run_end(s, e + 2);
    let e2 = digit_run_end(s, e + 2);
    lemma_digit_run_end(s, e2 + 2);
    lemma_digit_run_end(s, e2 + 3);
    lemma_digit_run_end(s, e + 3);
    lemma_digit_run_end(s, e + 4);
}

/// A number read by its extent ends after where it starts.
proof fn lemma_number_range_advances(s: Seq<u8>, i: int, first: u8, allow_inf_nan: bool)
    requires
        0 <= i < s.len(),
        s.len() <= isize::MAX,
    ensures
        spec_number_range(s, i, first, allow_inf_nan) matches Ok((_, n)) ==> i < n,
{
    assert(ident_rest(Ident::NaN).len() == 2);
    assert(ident_rest(Ident::Infinity).len() == 7);
    lemma_digit_run_end(s, i + 1);
    lemma_digit_run_end(s, i + 2);
    lemma_number_tail_advances(s, i + 1);
    lemma_number_tail_advances(s, digit_run_end(s, i + 1));
    if i + 2 <= s.len() {
        lemma_number_tail_advances(s, i + 2);
        lemma_number_tail_advances(s, digit_run_end(s, i + 2));
    }
}

/// A key read by decoding it ends where reading it without decoding ends.
proof fn lemma_key_agrees(s: Seq<u8>, j: int)
    requires
        0 <= j < s.len(),
        s.len() <= isize::MAX,
        spec_key(s, j).0 is Ok,
    ensures
        crate::value::spec_skip_key(s, j) == Ok::<usize, JsonError>(spec_key(s, j).1 as usize),
        j < spec_key(s, j).1 <= s.len(),
{
    lemma_range_agrees_with_content(s, j + 1, true, false);
    lemma_range_bounds(s, j + 1, false);
    if let Ok((_, n)) = spec_range_content(s, j + 1, false) {
        lemma_skip_ws(s, n as int);
    }
}

/// A literal, string or number parsed into a tree, where that succeeds, is skipped to the same
/// end.
proof fn lemma_tree_skip_scalar(s: Seq<u8>, i: int, p: Peek, depth: nat, limit: nat, allow_inf_nan: bool)
    requires
        s.len() <= isize::MAX,
        0 <= i < s.len(),
        !(p is Array || p is Object),
        spec_value(s, i, p, depth, limit, allow_inf_nan, PartialMode::Off).0 is Ok,
    ensures
        i < spec_value(s, i, p, depth, limit, allow_inf_nan, PartialMode::Off).1 <= usize::MAX,
        crate::value::spec_walk_step(s, i, p, allow_inf_nan) == Ok::<crate::value::WalkStep, JsonError>(
            crate::value::WalkStep::Value {
                end: spec_value(s, i, p, depth, limit, allow_inf_nan, PartialMode::Off).1 as usize,
            },
        ),
{
    assert(ident_rest(Ident::True).len() == 3);
    assert(ident_rest(Ident::False).len() == 4);
    assert(ident_rest(Ident::Null).len() == 3);
    match p {
        Peek::String => {
            lemma_range_agrees_with_content(s, i + 1, true, false);
            lemma_range_bounds(s, i + 1, false);
        },
        Peek::True | Peek::False | Peek::Null => {},
        _ => {
            lemma_number_range_advances(s, i, peek_byte(p), allow_inf_nan);
            lemma_int_agrees_with_range(s, i, peek_byte(p), allow_inf_nan);
        },
    }
}

/// Parsing a value into a tree inside the open containers `stack`, where it succeeds, agrees
/// with skipping it: skipping on from its start is skipping on from its end.
proof fn lemma_tree_skip_value(s: Seq<u8>, i: int, p: Peek, stack: Seq<bool>, limit: nat, allow_inf_nan: bool)
    requires
        s.len() <= isize::MAX,
        0 <= i < s.len(),
        spec_value(s, i, p, stack.len(), limit, allow_inf_nan, PartialMode::Off).0 is Ok,
    ensures
        i < spec_value(s, i, p, stack.len(), limit, allow_inf_nan, PartialMode::Off).1 <= usize::MAX,
        spec_skip_walk(s, i as usize, p, stack, limit, allow_inf_nan) == spec_skip_after(
            s,
            spec_value(s, i, p, stack.len(), limit, allow_inf_nan, PartialMode::Off).1 as usize,
            stack,
            limit,
            allow_inf_nan,
        ),
    decreases s.len() - i, 0int,
{
    lemma_skip_ws(s, i + 1);
    if p is Array {
        let (r, j) = spec_array_first(s, i);
        if let Ok(Some(p2)) = r {
            lemma_tree_skip_items(s, j, p2, stack.push(false), limit, allow_inf_nan, Seq::empty());
            assert(stack.push(false).drop_last() =~= stack);
        }
    } else if p is Object {
        let j = skip_ws(s, i + 1);
        if j < s.len() && s[j] == 0x22 {
            lemma_key_agrees(s, j);
            let k = spec_key(s, j).1;
            lemma_skip_ws(s, k);
            let j2 = skip_ws(s, k);
            if j2 < s.len() {
                let key = spec_key(s, j).0->Ok_0->Some_0;
                lemma_tree_skip_members(s, j2, peek_of(s[j2]), key, stack.push(true), limit, allow_inf_nan, Seq::empty());
                assert(stack.push(true).drop_last() =~= stack);
            }
        }
    } else {
        lemma_tree_skip_scalar(s, i, p, stack.len(), limit, allow_inf_nan);
    }
}

/// Parsing the items of an array from the one at `j` agrees with skipping them, the array
/// being the innermost of `stack`: skipping on from that item is skipping on, from after the
/// array, in what is around it.
proof fn lemma_tree_skip_items(
    s: Seq<u8>,
    j: int,
    p: Peek,
    stack: Seq<bool>,
    limit: nat,
    allow_inf_nan: bool,
    acc: Seq<TreeView>,
)
    requires
        s.len() <= isize::MAX,
        0 <= j < s.len(),
        stack.len() > 0,
        !stack.last(),
        spec_items(s, j, p, stack.len(), limit, allow_inf_nan, PartialMode::Off, acc).0 is Ok,
    ensures
        j < spec_items(s, j, p, stack.len(), limit, allow_inf_nan, PartialMode::Off, acc).1 <= usize::MAX,
        spec_skip_walk(s, j as usize, p, stack, limit, allow_inf_nan) == spec_skip_after(
            s,
            spec_items(s, j, p, stack.len(), limit, allow_inf_nan, PartialMode::Off, acc).1 as usize,
            stack.drop_last(),
            limit,
            allow_inf_nan,
        ),
    decreases s.len() - j, 1int,
{
    let pm = PartialMode::Off;
    lemma_tree_skip_value(s, j, p, stack, limit, allow_inf_nan);
    let (r, e) = spec_value(s, j, p, stack.len(), limit, allow_inf_nan, pm);
    let v = r->Ok_0;
    lemma_skip_ws(s, e);
    lemma_skip_ws(s, skip_ws(s, e) + 1);
    let (r2, j2) = spec_array_step(s, e);
    if let Ok(Some(p2)) = r2 {
        lemma_tree_skip_items(s, j2, p2, stack, limit, allow_inf_nan, acc.push(v));
    }
}

/// Parsing the members of an object from the value at `j` agrees with skipping them, the
/// object being the innermost of `stack`: skipping on from that value is skipping on, from
/// after the object, in what is around it.
proof fn lemma_tree_skip_members(
    s: Seq<u8>,
    j: int,
    p: Peek,
    key: Seq<u8>,
    stack: Seq<bool>,
    limit: nat,
    allow_inf_nan: bool,
    acc: Seq<(Seq<u8>, TreeView)>,
)
    requires
        s.len() <= isize::MAX,
        0 <= j < s.len(),
        stack.len() > 0,
        stack.last(),
        spec_members(s, j, p, key, stack.len(), limit, allow_inf_nan, PartialMode::Off, acc).0 is Ok,
    ensures
        j < spec_members(s, j, p, key, stack.len(), limit, allow_inf_nan, PartialMode::Off, acc).1 <= usize::MAX,
        spec_skip_walk(s, j as usize, p, stack, limit, allow_inf_nan) == spec_skip_after(
            s,
            spec_members(s, j, p, key, stack.len(), limit, allow_inf_nan, PartialMode::Off, acc).1 as usize,
            stack.drop_last(),
            limit,
            allow_inf_nan,
        ),
    decreases s.len() - j, 1int,
{
    let pm = PartialMode::Off;
    lemma_tree_skip_value(s, j, p, stack, limit, allow_inf_nan);
    let (r, e) = spec_value(s, j, p, stack.len(), limit, allow_inf_nan, pm);
    let v = r->Ok_0;
    lemma_skip_ws(s, e);
    let j1 = skip_ws(s, e);
    lemma_skip_ws(s, j1 + 1);
    let k = skip_ws(s, j1 + 1);
    if j1 < s.len() && s[j1] == 0x2c && k < s.len() && s[k] == 0x22 {
        lemma_key_agrees(s, k);
        let m = spec_key(s, k).1;
        lemma_skip_ws(s, m);
        let j3 = skip_ws(s, m);
        if j3 < s.len() {
            let k2 = spec_key(s, k).0->Ok_0->Some_0;
            lemma_tree_skip_members(s, j3, peek_of(s[j3]), k2, stack, limit, allow_inf_nan, acc.push((key, v)));
        }
    }
}

/// Parsing a value into a tree and skipping it agree: where the parse succeeds (not in a
/// partial mode), skipping the value from the same place with the same nesting limit succeeds
/// too, and ends where the parse ends.
pub proof fn lemma_tree_parse_agrees_with_skip(s: Seq<u8>, i: int, p: Peek, limit: nat, allow_inf_nan: bool)
    requires
        s.len() <= isize::MAX,
        0 <= i < s.len(),
        spec_value(s, i, p, 0, limit, allow_inf_nan, PartialMode::Off).0 is Ok,
    ensures
        spec_skip_walk(s, i as usize, p, Seq::empty(), limit, allow_inf_nan) == Ok::<usize, JsonError>(
            spec_value(s, i, p, 0, limit, allow_inf_nan, PartialMode::Off).1 as usize,
        ),
{
    lemma_tree_skip_value(s, i, p, Seq::empty(), limit, allow_inf_nan);
}

/// A number literal with neither a fraction nor an exponent parses to an integer leaf, never a
/// float: the decimal value of its digits, negated after a minus sign, as an `i64` up to 18
/// digits and otherwise as a big integer of those digits. Its digits are `s[a..e]` (after the
/// sign, if any), followed by the end of the input or by a byte that is not `.`, `e` or `E`;
/// parsing ends at `e`.
pub proof fn lemma_integer_literal_is_int_leaf(
    s: Seq<u8>,
    i: int,
    a: int,
    e: int,
    depth: nat,
    limit: nat,
    allow_inf_nan: bool,
    pm: PartialMode,
)
    requires
        s.len() <= isize::MAX,
        0 <= i,
        a == (if s[i] == 0x2d { i + 1 } else { i }),
        integer_digits(s, a, e),
        e == digit_run_end(s, a),
        e - a <= 4300,
        e < s.len() ==> !(s[e] == 0x2e || s[e] == 0x65 || s[e] == 0x45),
    ensures
        spec_value(s, i, peek_of(s[i]), depth, limit, allow_inf_nan, pm).1 == e,
        spec_value(s, i, peek_of(s[i]), depth, limit, allow_inf_nan, pm).0 matches Ok(TreeView::Int(_)),
        e - a <= 18 ==> (spec_value(s, i, peek_of(s[i]), depth, limit, allow_inf_nan, pm).0 matches Ok(
            TreeView::Int(NumberInt::Int(x)),
        ) && x == (if s[i] == 0x2d {
            -decimal_value(s.subrange(a, e))
        } else {
            decimal_value(s.subrange(a, e))
        })),
        e - a > 18 ==> spec_value(s, i, peek_of(s[i]), depth, limit, allow_inf_nan, pm).0 == Ok::<
            TreeView,
            JsonError,
        >(
            TreeView::Int(
                NumberInt::BigInt(
                    spec_big_int_from_digits(s[i] == 0x2d, Seq::new((e - a) as nat, |k: int| (s[a + k] - 0x30) as u8)),
                ),
            ),
        ),
{
    lemma_integer_literal_value(s, i, a, e);
    lemma_peek_roundtrip(s[i]);
}

/// The view of a key read by the parser.
pub open spec fn key_view(r: JsonResult<Option<String>>) -> JsonResult<Option<Seq<u8>>> {
    match r {
        Ok(Some(k)) => Ok(Some(vstd::utf8::encode_utf8(k@))),
        Ok(None) => Ok(None),
        Err(e) => Err(e),
    }
}

/// Enter the object whose `{` is at the parser's position, reading its first key.
fn first_key(parser: &mut Parser, tape: &mut Tape) -> (r: JsonResult<Option<String>>)
    requires
        old(parser).wf(),
        old(parser).index < old(parser).data.len(),
    ensures
        final(parser).wf(),
        final(parser).data == old(parser).data,
        (key_view(r), final(parser).index as int) == spec_first_key(old(parser).data@, old(parser).index as int),
{
    match parser.object_first::<StringDecoder>(tape) {
        Ok(Some(k)) => Ok(Some(k.to_owned_string())),
        Ok(None) => Ok(None),
        Err(e) => Err(e),
    }
}

/// Move past a value in an object, reading the next key.
fn next_key(parser: &mut Parser, tape: &mut Tape) -> (r: JsonResult<Option<String>>)
    requires
        old(parser).wf(),
    ensures
        final(parser).wf(),
        final(parser).data == old(parser).data,
        (key_view(r), final(parser).index as int) == spec_next_key(old(parser).data@, old(parser).index as int),
{
    match parser.object_step::<StringDecoder>(tape) {
        Ok(Some(k)) => Ok(Some(k.to_owned_string())),
        Ok(None) => Ok(None),
        Err(e) => Err(e),
    }
}

/// Parse the number, or what the peek `peek` stands for, at the parser's position.
fn take_number(peek: Peek, parser: &mut Parser, allow_inf_nan: bool) -> (r: JsonResult<ValueTree>)
    requires
        old(parser).wf(),
        old(parser).index < old(parser).data.len(),
    ensures
        final(parser).wf(),
        final(parser).data == old(parser).data,
        (view_result(r), final(parser).index as int) == spec_number_leaf(
            old(parser).data@,
            old(parser).index as int,
            peek,
            allow_inf_nan,
        ),
{
    let first = peek.into_inner();
    let r = match parser.consume_number::<NumberInt>(first, allow_inf_nan) {
        Ok(n) => Ok(ValueTree::Int(n)),
        Err(e) => match e.error_type {
            JsonErrorType::FloatExpectingInt => match parser.consume_number::<NumberRange>(first, allow_inf_nan) {
                Ok(range) => Ok(ValueTree::Float(range)),
                Err(e2) => Err(e2),
            },
            _ => Err(e),
        },
    };
    match r {
        Ok(t) => Ok(t),
        Err(e) => if !peek.is_num() {
            Err(JsonError::new(JsonErrorType::ExpectedSomeValue, parser.index))
        } else {
            Err(e)
        },
    }
}

/// Parse the JSON value whose peek is `peek`, at the parser's position, into a tree: containers
/// may nest `recursion_limit` deep, and in a partial mode input cut short closes what is open.
pub fn take_value<'j>(
    peek: Peek,
    parser: &mut Parser<'j>,
    tape: &mut Tape,
    recursion_limit: u8,
    allow_inf_nan: bool,
    partial_mode: PartialMode,
) -> (r: JsonResult<ValueTree>)
    requires
        old(parser).wf(),
        old(parser).index < old(parser).data.len(),
    ensures
        final(parser).wf(),
        final(parser).data == old(parser).data,
        (view_result(r), final(parser).index as int) == spec_value(
            old(parser).data@,
            old(parser).index as int,
            peek,
            0,
            recursion_limit as nat,
            allow_inf_nan,
            partial_mode,
        ),
{
    take_value_at(peek, parser, tape, 0, recursion_limit, allow_inf_nan, partial_mode)
}

impl ValueTree {
    /// Parse `data` as one JSON value, with only whitespace after it.
    pub fn parse(data: &[u8], allow_inf_nan: bool) -> (r: JsonResult<ValueTree>)
        requires
            data.len() <= isize::MAX,
        ensures
            view_result(r) == spec_parse(data@, allow_inf_nan, PartialMode::Off),
    {
        ValueTree::parse_with_config(data, allow_inf_nan, PartialMode::Off)
    }

    /// Parse `data` as one JSON value; in a partial mode, input cut short closes what is open
    /// and what follows the value is not looked at.
    pub fn parse_with_config(data: &[u8], allow_inf_nan: bool, partial_mode: PartialMode) -> (r: JsonResult<
        ValueTree,
    >)
        requires
            data.len() <= isize::MAX,
        ensures
            view_result(r) == spec_parse(data@, allow_inf_nan, partial_mode),
    {
        let mut parser = Parser::new(data);
        let mut tape: Tape = Vec::new();
        let peek = match parser.peek() {
            Ok(p) => p,
            Err(e) => return Err(e),
        };
        let v = match take_value(peek, &mut parser, &mut tape, DEFAULT_RECURSION_LIMIT, allow_inf_nan, partial_mode) {
            Ok(v) => v,
            Err(e) => return Err(e),
        };
        if !partial_mode.is_active() {
            match parser.finish() {
                Ok(()) => {},
                Err(e) => return Err(e),
            }
        }
        Ok(v)
    }
}

/// Parse the value whose peek is `peek`, at the parser's position, inside `depth` open
/// containers.
#[verifier::spinoff_prover]
#[verifier::rlimit(50)]
fn take_value_at<'j>(
    peek: Peek,
    parser: &mut Parser<'j>,
    tape: &mut Tape,
    depth: u8,
    limit: u8,
    allow_inf_nan: bool,
    pm: PartialMode,
) -> (r: JsonResult<ValueTree>)
    requires
        old(parser).wf(),
        old(parser).index < old(parser).data.len(),
        depth <= limit || depth <= 1,
    ensures
        final(parser).wf(),
        final(parser).data == old(parser).data,
        (view_result(r), final(parser).index as int) == spec_value(
            old(parser).data@,
            old(parser).index as int,
            peek,
            depth as nat,
            limit as nat,
            allow_inf_nan,
            pm,
        ),
    decreases old(parser).data.len() - old(parser).index, 0int,
{
    let start = parser.index;
    match peek {
        Peek::True => match parser.consume_true() {
            Ok(()) => Ok(ValueTree::Bool(true)),
            Err(e) => Err(e),
        },
        Peek::False => match parser.consume_false() {
            Ok(()) => Ok(ValueTree::Bool(false)),
            Err(e) => Err(e),
        },
        Peek::Null => match parser.consume_null() {
            Ok(()) => Ok(ValueTree::Null),
            Err(e) => Err(e),
        },
        Peek::String => match parser.consume_string::<StringDecoder>(tape, pm.allow_trailing_str()) {
            Ok(out) => Ok(ValueTree::Str(out.to_owned_string())),
            Err(e) => Err(e),
        },
        Peek::Array => match parser.array_first() {
            Ok(Some(first)) => {
                if depth > 0 && depth >= limit {
                    return Err(JsonError::new(JsonErrorType::RecursionLimitExceeded, parser.index));
                }
                if !(start < parser.index && parser.index < parser.data.len()) {
                    return Err(JsonError::new(JsonErrorType::EofWhileParsingValue, parser.index));
                }
                take_items(first, parser, tape, depth + 1, limit, allow_inf_nan, pm)
            },
            Ok(None) => Ok(ValueTree::Array(Vec::new())),
            Err(e) => if pm.is_active() && e.allowed_if_partial() {
                Ok(ValueTree::Array(Vec::new()))
            } else {
                Err(e)
            },
        },
        Peek::Object => match first_key(parser, tape) {
            Ok(Some(key)) => match parser.peek() {
                Ok(first) => {
                    if depth > 0 && depth >= limit {
                        return Err(JsonError::new(JsonErrorType::RecursionLimitExceeded, parser.index));
                    }
                    if !(start < parser.index && parser.index < parser.data.len()) {
                        return Err(JsonError::new(JsonErrorType::EofWhileParsingValue, parser.index));
                    }
                    take_members(first, key, parser, tape, depth + 1, limit, allow_inf_nan, pm)
                },
                Err(e) => if pm.is_active() && e.allowed_if_partial() {
                    Ok(ValueTree::Object(Vec::new()))
                } else {
                    Err(e)
                },
            },
            Ok(None) => Ok(ValueTree::Object(Vec::new())),
            Err(e) => if pm.is_active() && e.allowed_if_partial() {
                Ok(ValueTree::Object(Vec::new()))
            } else {
                Err(e)
            },
        },
        _ => take_number(peek, parser, allow_inf_nan),
    }
}

/// Parse the items of an array from the one whose peek is `peek`, at the parser's position.
#[verifier::spinoff_prover]
#[verifier::rlimit(50)]
fn take_items<'j>(
    peek: Peek,
    parser: &mut Parser<'j>,
    tape: &mut Tape,
    depth: u8,
    limit: u8,
    allow_inf_nan: bool,
    pm: PartialMode,
) -> (r: JsonResult<ValueTree>)
    requires
        old(parser).wf(),
        old(parser).index < old(parser).data.len(),
        depth <= limit || depth <= 1,
    ensures
        final(parser).wf(),
        final(parser).data == old(parser).data,
        (view_result(r), final(parser).index as int) == spec_items(
            old(parser).data@,
            old(parser).index as int,
            peek,
            depth as nat,
            limit as nat,
            allow_inf_nan,
            pm,
            Seq::empty(),
        ),
    decreases old(parser).data.len() - old(parser).index, 1int,
{
    let ghost s = parser.data@;
    let ghost j0 = parser.index as int;
    let mut out: Vec<ValueTree> = Vec::new();
    let mut next_peek = peek;
    loop
        invariant
            parser.wf(),
            parser.data@ == s,
            s == old(parser).data@,
            parser.data == old(parser).data,
            j0 == old(parser).index,
            j0 <= parser.index < s.len(),
            depth <= limit || depth <= 1,
            spec_items(s, j0, peek, depth as nat, limit as nat, allow_inf_nan, pm, Seq::empty()) == spec_items(
                s,
                parser.index as int,
                next_peek,
                depth as nat,
                limit as nat,
                allow_inf_nan,
                pm,
                trees_view(out@, out@.len() as int),
            ),
        decreases s.len() - parser.index,
    {
        let j = parser.index;
        let v = match take_value_at(next_peek, parser, tape, depth, limit, allow_inf_nan, pm) {
            Ok(v) => v,
            Err(e) => {
                if pm.is_active() && e.allowed_if_partial() {
                    return Ok(ValueTree::Array(out));
                }
                return Err(e);
            },
        };
        proof {
            lemma_trees_view_push(out@, v);
        }
        match parser.array_step() {
            Ok(Some(next)) => {
                if !(j < parser.index && parser.index < parser.data.len()) {
                    return Err(JsonError::new(JsonErrorType::EofWhileParsingValue, parser.index));
                }
                out.push(v);
                next_peek = next;
            },
            Ok(None) => {
                out.push(v);
                return Ok(ValueTree::Array(out));
            },
            Err(e) => {
                if pm.is_active() && e.allowed_if_partial() {
                    out.push(v);
                    return Ok(ValueTree::Array(out));
                }
                return Err(e);
            },
        }
    }
}

/// Parse the members of an object from the value whose peek is `peek` and whose key is `key`,
/// at the parser's position.
#[verifier::spinoff_prover]
#[verifier::rlimit(50)]
fn take_members<'j>(
    peek: Peek,
    key: String,
    parser: &mut Parser<'j>,
    tape: &mut Tape,
    depth: u8,
    limit: u8,
    allow_inf_nan: bool,
    pm: PartialMode,
) -> (r: JsonResult<ValueTree>)
    requires
        old(parser).wf(),
        old(parser).index < old(parser).data.len(),
        depth <= limit || depth <= 1,
    ensures
        final(parser).wf(),
        final(parser).data == old(parser).data,
        (view_result(r), final(parser).index as int) == spec_members(
            old(parser).data@,
            old(parser).index as int,
            peek,
            vstd::utf8::encode_utf8(key@),
            depth as nat,
            limit as nat,
            allow_inf_nan,
            pm,
            Seq::empty(),
        ),
    decreases old(parser).data.len() - old(parser).index, 1int,
{
    let ghost s = parser.data@;
    let ghost j0 = parser.index as int;
    let mut out: Vec<(String, ValueTree)> = Vec::new();
    let mut next_peek = peek;
    let mut cur_key = key;
    loop
        invariant
            parser.wf(),
            parser.data@ == s,
            s == old(parser).data@,
            parser.data == old(parser).data,
            j0 == old(parser).index,
            j0 <= parser.index < s.len(),
            depth <= limit || depth <= 1,
            spec_members(s, j0, peek, vstd::utf8::encode_utf8(key@), depth as nat, limit as nat, allow_inf_nan, pm, Seq::empty())
                == spec_members(
                s,
                parser.index as int,
                next_peek,
                vstd::utf8::encode_utf8(cur_key@),
                depth as nat,
                limit as nat,
                allow_inf_nan,
                pm,
                members_view(out@, out@.len() as int),
            ),
        decreases s.len() - parser.index,
    {
        let j = parser.index;
        let v = match take_value_at(next_peek, parser, tape, depth, limit, allow_inf_nan, pm) {
            Ok(v) => v,
            Err(e) => {
                if pm.is_active() && e.allowed_if_partial() {
                    return Ok(ValueTree::Object(out));
                }
                return Err(e);
            },
        };
        match next_key(parser, tape) {
            Ok(Some(k2)) => match parser.peek() {
                Ok(next) => {
                    if !(j < parser.index && parser.index < parser.data.len()) {
                        return Err(JsonError::new(JsonErrorType::EofWhileParsingValue, parser.index));
                    }
                    proof {
                        lemma_members_view_push(out@, (cur_key, v));
                    }
                    out.push((cur_key, v));
                    cur_key = k2;
                    next_peek = next;
                },
                Err(e) => {
                    if pm.is_active() && e.allowed_if_partial() {
                        proof {
                            lemma_members_view_push(out@, (cur_key, v));
                        }
                        out.push((cur_key, v));
                        return Ok(ValueTree::Object(out));
                    }
                    return Err(e);
                },
            },
            Ok(None) => {
                proof {
                    lemma_members_view_push(out@, (cur_key, v));
                }
                out.push((cur_key, v));
                return Ok(ValueTree::Object(out));
            },
            Err(e) => {
                if pm.is_active() && e.allowed_if_partial() {
                    proof {
                        lemma_members_view_push(out@, (cur_key, v));
                    }
                    out.push((cur_key, v));
                    return Ok(ValueTree::Object(out));
                }
                return Err(e);
            },
        }
    }
}

} // verus!
