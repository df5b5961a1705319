//! Skipping a JSON value: checking its syntax and moving past it without building it.
use bitvec::array::BitArray;
use bitvec::order::Lsb0;
use vstd::prelude::*;

use crate::errors::{json_error, JsonError, JsonErrorType, JsonResult};
use crate::number_decoder::{digit_run_end, spec_number_range, AbstractNumberDecoder, NumberRange};
use crate::parse::{
    ident_rest, lemma_peek_roundtrip, lemma_skip_ws, peek_byte, peek_is_num, peek_of, skip_ws, spec_after_key, spec_array_first,
    spec_array_step, spec_consume_ident, Ident, Parser, Peek,
};
use crate::string_decoder::{
    lemma_range_bounds, spec_range_content, AbstractStringDecoder, StringDecoderRange, Tape,
};

verus! {

/// The stack of open containers while skipping: one bit per nesting level, set for an object,
/// held in a bitvec `BitArray` of 256 bits.
#[verifier::external_body]
pub struct RecursionStack {
    bits: BitArray<[u8; 32], Lsb0>,
}

/// The bits a recursion stack holds, from the first.
pub uninterp spec fn spec_stack_bits(stack: RecursionStack) -> Seq<bool>;

/// A stack of 256 bits, all clear: `BitArray::ZERO` of bitvec, over 32 bytes.
#[verifier::external_body]
fn stack_zero() -> (r: RecursionStack)
    ensures
        spec_stack_bits(r) == Seq::new(256, |_k: int| false),
{
    RecursionStack { bits: BitArray::ZERO }
}

/// Set bit `index` to `value`: `BitSlice::set` of bitvec, which panics when `index` is out of
/// bounds and otherwise writes that one bit.
#[verifier::external_body]
fn stack_set(stack: &mut RecursionStack, index: usize, value: bool)
    requires
        index < spec_stack_bits(*old(stack)).len(),
    ensures
        spec_stack_bits(*final(stack)) == spec_stack_bits(*old(stack)).update(index as int, value),
{
    stack.bits.set(index, value);
}

/// Bit `index`: indexing of bitvec, which panics when `index` is out of bounds.
#[verifier::external_body]
fn stack_get(stack: &RecursionStack, index: usize) -> (r: bool)
    requires
        index < spec_stack_bits(*stack).len(),
    ensures
        r == spec_stack_bits(*stack)[index as int],
{
    stack.bits[index]
}

/// Reading an object key whose opening quote is at `j`, without decoding it, and the colon
/// after it: the index after the colon, or the error.
pub open spec fn spec_skip_key(s: Seq<u8>, j: int) -> Result<usize, JsonError> {
    match spec_range_content(s, j + 1, false) {
        Err(e) => Err(e),
        Ok((_, n)) => match spec_after_key(s, n as int) {
            (Ok(_), k) => Ok(k as usize),
            (Err(e), _) => Err(e),
        },
    }
}

/// Entering the object whose `{` is at `i`, reading its first key: whether it has one, and the
/// index after its colon (or after the `}` of an empty object).
pub open spec fn spec_skip_object_first(s: Seq<u8>, i: int) -> Result<(bool, usize), JsonError> {
    let j = skip_ws(s, i + 1);
    if j < s.len() {
        if s[j] == 0x22 {
            match spec_skip_key(s, j) {
                Ok(k) => Ok((true, k)),
                Err(e) => Err(e),
            }
        } else if s[j] == 0x7d {
            Ok((false, (j + 1) as usize))
        } else {
            Err(json_error(JsonErrorType::KeyMustBeAString, j))
        }
    } else {
        Err(json_error(JsonErrorType::EofWhileParsingObject, j))
    }
}

/// Moving past a value in an object, from `e`, reading the next key: whether there is one, and
/// the index after its colon (or after the `}` that closes the object).
pub open spec fn spec_skip_object_step(s: Seq<u8>, e: int) -> Result<(bool, usize), JsonError> {
    let j = skip_ws(s, e);
    if j < s.len() {
        if s[j] == 0x2c {
            let k = skip_ws(s, j + 1);
            if k < s.len() {
                if s[k] == 0x22 {
                    match spec_skip_key(s, k) {
                        Ok(m) => Ok((true, m)),
                        Err(x) => Err(x),
                    }
                } else if s[k] == 0x7d {
                    Err(json_error(JsonErrorType::TrailingComma, k))
                } else {
                    Err(json_error(JsonErrorType::KeyMustBeAString, k))
                }
            } else {
                Err(json_error(JsonErrorType::EofWhileParsingValue, k))
            }
        } else if s[j] == 0x7d {
            Ok((false, (j + 1) as usize))
        } else {
            Err(json_error(JsonErrorType::ExpectedObjectCommaOrEnd, j))
        }
    } else {
        Err(json_error(JsonErrorType::EofWhileParsingObject, j))
    }
}

/// Skipping the literal, string or number at `i` whose peek is `p`: the index after it, or the
/// error. A peek that opens no value is reported as `ExpectedSomeValue` at `i`.
pub open spec fn spec_skip_scalar(s: Seq<u8>, i: int, p: Peek, allow_inf_nan: bool) -> Result<
    usize,
    JsonError,
> {
    match p {
        Peek::True => spec_consume_ident(s, i, ident_rest(Ident::True)),
        Peek::False => spec_consume_ident(s, i, ident_rest(Ident::False)),
        Peek::Null => spec_consume_ident(s, i, ident_rest(Ident::Null)),
        Peek::String => match spec_range_content(s, i + 1, false) {
            Ok((_, n)) => Ok(n),
            Err(e) => Err(e),
        },
        _ => match spec_number_range(s, i, peek_byte(p), allow_inf_nan) {
            Ok((_, n)) => Ok(n),
            Err(e) => if peek_is_num(p) {
                Err(e)
            } else {
                Err(json_error(JsonErrorType::ExpectedSomeValue, i))
            },
        },
    }
}

/// One step of skipping, at a value: a container entered, with the peek at its first value, or
/// the end of a value (an empty container too).
pub enum WalkStep {
    Enter { object: bool, at: usize, peek: Peek },
    Value { end: usize },
}

/// One step of skipping, after a value: the end of the container it is in, or the next value in
/// it.
pub enum AfterStep {
    Close { end: usize },
    Next { at: usize, peek: Peek },
}

/// The step of skipping the value at `i` whose peek is `p`.
pub open spec fn spec_walk_step(s: Seq<u8>, i: int, p: Peek, allow_inf_nan: bool) -> Result<
    WalkStep,
    JsonError,
> {
    match p {
        Peek::Array => match spec_array_first(s, i) {
            (Err(e), _) => Err(e),
            (Ok(None), j) => Ok(WalkStep::Value { end: j as usize }),
            (Ok(Some(p2)), j) => Ok(WalkStep::Enter { object: false, at: j as usize, peek: p2 }),
        },
        Peek::Object => match spec_skip_object_first(s, i) {
            Err(e) => Err(e),
            Ok((false, j)) => Ok(WalkStep::Value { end: j }),
            Ok((true, k)) => {
                let v = skip_ws(s, k as int);
                if v < s.len() {
                    Ok(WalkStep::Enter { object: true, at: v as usize, peek: peek_of(s[v]) })
                } else {
                    Err(json_error(JsonErrorType::EofWhileParsingValue, v))
                }
            },
        },
        _ => match spec_skip_scalar(s, i, p, allow_inf_nan) {
            Err(e) => Err(e),
            Ok(e) => Ok(WalkStep::Value { end: e }),
        },
    }
}

/// The step of skipping after a value that ended at `e`, in a container that is an object if
/// `object`.
pub open spec fn spec_after_step(s: Seq<u8>, e: int, object: bool) -> Result<AfterStep, JsonError> {
    if !object {
        match spec_array_step(s, e) {
            (Err(x), _) => Err(x),
            (Ok(None), k) => Ok(AfterStep::Close { end: k as usize }),
            (Ok(Some(p2)), k) => Ok(AfterStep::Next { at: k as usize, peek: p2 }),
        }
    } else {
        match spec_skip_object_step(s, e) {
            Err(x) => Err(x),
            Ok((false, k)) => Ok(AfterStep::Close { end: k }),
            Ok((true, k)) => {
                let v = skip_ws(s, k as int);
                if v < s.len() {
                    Ok(AfterStep::Next { at: v as usize, peek: peek_of(s[v]) })
                } else {
                    Err(json_error(JsonErrorType::EofWhileParsingValue, v))
                }
            },
        }
    }
}

/// Skipping, from the value at `i` whose peek is `p`, to the end of the outermost of the open
/// containers `stack` (innermost last; set for an object), or of that value if none is open:
/// the index after it, or the first error. Entering a container while `limit` or more are
/// open, one at least, is an error at its first value. Each step moves forward; the
/// comparisons of positions say so to the termination check.
pub open spec fn spec_skip_walk(
    s: Seq<u8>,
    i: usize,
    p: Peek,
    stack: Seq<bool>,
    limit: nat,
    allow_inf_nan: bool,
) -> Result<usize, JsonError>
    decreases usize::MAX - i, 1nat,
{
    match spec_walk_step(s, i as int, p, allow_inf_nan) {
        Err(e) => Err(e),
        Ok(WalkStep::Value { end }) => if i < end {
            spec_skip_after(s, end, stack, limit, allow_inf_nan)
        } else {
            Err(json_error(JsonErrorType::EofWhileParsingValue, end as int))
        },
        Ok(WalkStep::Enter { object, at, peek }) => if stack.len() > 0 && stack.len() >= limit {
            Err(json_error(JsonErrorType::RecursionLimitExceeded, at as int))
        } else if i < at {
            spec_skip_walk(s, at, peek, stack.push(object), limit, allow_inf_nan)
        } else {
            Err(json_error(JsonErrorType::EofWhileParsingValue, at as int))
        },
    }
}

/// Skipping, after a value that ended at `e`, to the end of the outermost of the open
/// containers `stack`: the index after it, or the first error.
pub open spec fn spec_skip_after(
    s: Seq<u8>,
    e: usize,
    stack: Seq<bool>,
    limit: nat,
    allow_inf_nan: bool,
) -> Result<usize, JsonError>
    decreases usize::MAX - e, 0nat,
{
    if stack.len() == 0 {
        Ok(e)
    } else {
        match spec_after_step(s, e as int, stack.last()) {
            Err(x) => Err(x),
            Ok(AfterStep::Close { end }) => if e < end {
                spec_skip_after(s, end, stack.drop_last(), limit, allow_inf_nan)
            } else {
                Err(json_error(JsonErrorType::EofWhileParsingValue, end as int))
            },
            Ok(AfterStep::Next { at, peek }) => if e < at {
                spec_skip_walk(s, at, peek, stack, limit, allow_inf_nan)
            } else {
                Err(json_error(JsonErrorType::EofWhileParsingValue, at as int))
            },
        }
    }
}

/// Skip the literal, string or number whose peek is `peek`, at the parser's position.
fn skip_scalar<'j>(peek: Peek, parser: &mut Parser<'j>, tape: &mut Tape, allow_inf_nan: bool) -> (r:
    JsonResult<()>)
    requires
        old(parser).wf(),
        old(parser).index < old(parser).data.len(),
        !(peek is Array || peek is Object),
    ensures
        final(parser).wf(),
        final(parser).data == old(parser).data,
        match spec_skip_scalar(old(parser).data@, old(parser).index as int, peek, allow_inf_nan) {
            Ok(e) => r is Ok && final(parser).index == e && old(parser).index < e,
            Err(x) => r == Err::<(), JsonError>(x),
        },
{
    match peek {
        Peek::True => {
            assert(ident_rest(Ident::True).len() == 3);
            parser.consume_true()
        },
        Peek::False => {
            assert(ident_rest(Ident::False).len() == 4);
            parser.consume_false()
        },
        Peek::Null => {
            assert(ident_rest(Ident::Null).len() == 3);
            parser.consume_null()
        },
        Peek::String => match parser.consume_string::<StringDecoderRange>(tape, false) {
            Ok(_) => Ok(()),
            Err(e) => Err(e),
        },
        _ => {
            let index = parser.index;
            match parser.consume_number::<NumberRange>(peek.into_inner(), allow_inf_nan) {
                Ok(_) => Ok(()),
                Err(e) => if peek.is_num() {
                    Err(e)
                } else {
                    Err(JsonError::new(JsonErrorType::ExpectedSomeValue, index))
                },
            }
        },
    }
}

/// Entering an array moves past its `[`, and stays within one past the end of the input.
proof fn lemma_array_first_advances(s: Seq<u8>, i: int)
    requires
        0 <= i < s.len(),
    ensures
        i < spec_array_first(s, i).1 <= s.len(),
        spec_array_first(s, i).0 matches Ok(Some(_)) ==> spec_array_first(s, i).1 < s.len(),
{
    lemma_skip_ws(s, i + 1);
}

/// A step in an array that yields a value or closes it moves forward.
proof fn lemma_array_step_advances(s: Seq<u8>, e: int)
    requires
        0 <= e,
    ensures
        spec_array_step(s, e).0 is Ok ==> e < spec_array_step(s, e).1,
        spec_array_step(s, e).0 matches Ok(Some(_)) ==> spec_array_step(s, e).1 < s.len(),
{
    lemma_skip_ws(s, e);
    let j = skip_ws(s, e);
    lemma_skip_ws(s, j + 1);
}

/// Reading an object key and its colon moves past them, staying within the input.
proof fn lemma_skip_key_advances(s: Seq<u8>, j: int)
    requires
        0 <= j < s.len(),
        s.len() <= isize::MAX,
    ensures
        spec_skip_key(s, j) matches Ok(k) ==> j < k <= s.len(),
{
    lemma_range_bounds(s, j + 1, false);
    if let Ok((_, n)) = spec_range_content(s, j + 1, false) {
        lemma_skip_ws(s, n as int);
    }
}

/// Entering an object, or stepping in one, moves forward and stays within the input.
proof fn lemma_object_steps_advance(s: Seq<u8>, i: int)
    requires
        0 <= i <= s.len() + 1,
        s.len() <= isize::MAX,
    ensures
        i < s.len() ==> (spec_skip_object_first(s, i) matches Ok((_, k)) ==> i < k <= s.len()),
        spec_skip_object_step(s, i) matches Ok((_, k)) ==> i < k <= s.len(),
{
    lemma_skip_ws(s, i + 1);
    let j1 = skip_ws(s, i + 1);
    if 0 <= j1 < s.len() {
        lemma_skip_key_advances(s, j1);
    }
    lemma_skip_ws(s, i);
    let j = skip_ws(s, i);
    lemma_skip_ws(s, j + 1);
    let k = skip_ws(s, j + 1);
    if 0 <= k < s.len() {
        lemma_skip_key_advances(s, k);
    }
}

/// Take one step of skipping at the value whose peek is `peek`.
fn walk_step<'j>(peek: Peek, parser: &mut Parser<'j>, tape: &mut Tape, allow_inf_nan: bool) -> (r:
    JsonResult<WalkStep>)
    requires
        old(parser).wf(),
        old(parser).index < old(parser).data.len(),
    ensures
        final(parser).wf(),
        final(parser).data == old(parser).data,
        r == spec_walk_step(old(parser).data@, old(parser).index as int, peek, allow_inf_nan),
        r matches Ok(WalkStep::Value { end }) ==> final(parser).index == end && old(parser).index
            < end,
        r matches Ok(WalkStep::Enter { at, .. }) ==> final(parser).index == at && old(parser).index
            < at < final(parser).data.len(),
{
    proof {
        lemma_array_first_advances(parser.data@, parser.index as int);
        lemma_object_steps_advance(parser.data@, parser.index as int);
    }
    match peek {
        Peek::Array => match parser.array_first() {
            Err(e) => Err(e),
            Ok(Some(next)) => Ok(WalkStep::Enter { object: false, at: parser.index, peek: next }),
            Ok(None) => Ok(WalkStep::Value { end: parser.index }),
        },
        Peek::Object => match parser.object_first::<StringDecoderRange>(tape) {
            Err(e) => Err(e),
            Ok(Some(_)) => {
                proof {
                    lemma_skip_ws(parser.data@, parser.index as int);
                }
                match parser.peek() {
                    Ok(next) => Ok(WalkStep::Enter { object: true, at: parser.index, peek: next }),
                    Err(e) => Err(e),
                }
            },
            Ok(None) => Ok(WalkStep::Value { end: parser.index }),
        },
        _ => match skip_scalar(peek, parser, tape, allow_inf_nan) {
            Err(e) => Err(e),
            Ok(()) => Ok(WalkStep::Value { end: parser.index }),
        },
    }
}

/// Take one step of skipping after a value, in a container that is an object if `object`.
fn after_step<'j>(object: bool, parser: &mut Parser<'j>, tape: &mut Tape) -> (r: JsonResult<
    AfterStep,
>)
    requires
        old(parser).wf(),
    ensures
        final(parser).wf(),
        final(parser).data == old(parser).data,
        r == spec_after_step(old(parser).data@, old(parser).index as int, object),
        r matches Ok(AfterStep::Close { end }) ==> final(parser).index == end && old(parser).index
            < end,
        r matches Ok(AfterStep::Next { at, .. }) ==> final(parser).index == at && old(parser).index
            < at < final(parser).data.len(),
{
    proof {
        lemma_array_step_advances(parser.data@, parser.index as int);
        lemma_object_steps_advance(parser.data@, parser.index as int);
    }
    if !object {
        match parser.array_step() {
            Err(e) => Err(e),
            Ok(Some(next)) => Ok(AfterStep::Next { at: parser.index, peek: next }),
            Ok(None) => Ok(AfterStep::Close { end: parser.index }),
        }
    } else {
        match parser.object_step::<StringDecoderRange>(tape) {
            Err(e) => Err(e),
            Ok(Some(_)) => {
                proof {
                    lemma_skip_ws(parser.data@, parser.index as int);
                }
                match parser.peek() {
                    Ok(next) => Ok(AfterStep::Next { at: parser.index, peek: next }),
                    Err(e) => Err(e),
                }
            },
            Ok(None) => Ok(AfterStep::Close { end: parser.index }),
        }
    }
}

/// The open containers: the bits below `depth` of the stack, then the innermost, `current`.
pub open spec fn open_containers(bits: Seq<bool>, depth: int, current: bool) -> Seq<bool> {
    bits.subrange(0, depth).push(current)
}

/// Skip, from the value whose peek is `peek`, to the end of the container it is in, whose kind is
/// `current` (set for an object), checking the syntax on the way. The containers it opens are
/// tracked on a stack of bits rather than by recursion.
fn take_value_skip_recursive<'j>(
    peek: Peek,
    current: bool,
    parser: &mut Parser<'j>,
    tape: &mut Tape,
    recursion_limit: u8,
    allow_inf_nan: bool,
) -> (r: JsonResult<()>)
    requires
        old(parser).wf(),
        old(parser).index < old(parser).data.len(),
    ensures
        final(parser).wf(),
        final(parser).data == old(parser).data,
        match spec_skip_walk(
            old(parser).data@,
            old(parser).index,
            peek,
            seq![current],
            recursion_limit as nat,
            allow_inf_nan,
        ) {
            Ok(e) => r is Ok && final(parser).index == e,
            Err(x) => r == Err::<(), JsonError>(x),
        },
{
    let ghost s = parser.data@;
    let ghost data0 = parser.data;
    let ghost goal = spec_skip_walk(
        s,
        parser.index,
        peek,
        seq![current],
        recursion_limit as nat,
        allow_inf_nan,
    );
    let mut stack = stack_zero();
    let limit: usize = recursion_limit as usize;
    let mut depth: usize = 0;
    let mut value_peek = peek;
    let mut kind = current;
    proof {
        assert(open_containers(spec_stack_bits(stack), 0, kind) =~= seq![kind]);
    }
    loop
        invariant
            parser.wf(),
            parser.data == data0,
            s == data0@,
            data0 == old(parser).data,
            goal == spec_skip_walk(
                s,
                old(parser).index,
                peek,
                seq![current],
                recursion_limit as nat,
                allow_inf_nan,
            ),
            parser.index < parser.data.len(),
            limit == recursion_limit,
            depth < 256,
            depth == 0 || depth < limit,
            spec_stack_bits(stack).len() == 256,
            spec_skip_walk(
                s,
                parser.index,
                value_peek,
                open_containers(spec_stack_bits(stack), depth as int, kind),
                limit as nat,
                allow_inf_nan,
            ) == goal,
        decreases usize::MAX - parser.index,
    {
        let ghost gstack = open_containers(spec_stack_bits(stack), depth as int, kind);
        match walk_step(value_peek, parser, tape, allow_inf_nan) {
            Err(e) => return Err(e),
            Ok(WalkStep::Enter { object, at, peek: next }) => {
                stack_set(&mut stack, depth, kind);
                kind = object;
                depth += 1;
                if depth >= limit {
                    return Err(JsonError::new(JsonErrorType::RecursionLimitExceeded, at));
                }
                value_peek = next;
                proof {
                    assert(open_containers(spec_stack_bits(stack), depth as int, kind)
                        =~= gstack.push(object));
                }
            },
            Ok(WalkStep::Value { end }) => {
                match close_containers(parser, tape, &mut stack, &mut depth, &mut kind, limit, allow_inf_nan) {
                    Err(e) => return Err(e),
                    Ok(None) => return Ok(()),
                    Ok(Some(next)) => {
                        value_peek = next;
                    },
                }
            },
        }
    }
}

/// After a value, move on in the open containers (the bits below `depth` of `stack`, then
/// `kind`), closing those that end, to the next value (its peek), or to the end of the
/// outermost (`None`).
fn close_containers<'j>(
    parser: &mut Parser<'j>,
    tape: &mut Tape,
    stack: &mut RecursionStack,
    depth: &mut usize,
    kind: &mut bool,
    limit: usize,
    allow_inf_nan: bool,
) -> (r: JsonResult<Option<Peek>>)
    requires
        old(parser).wf(),
        *old(depth) < 256,
        *old(depth) == 0 || *old(depth) < limit,
        spec_stack_bits(*old(stack)).len() == 256,
    ensures
        final(parser).wf(),
        final(parser).data == old(parser).data,
        *final(depth) < 256,
        *final(depth) == 0 || *final(depth) < limit,
        spec_stack_bits(*final(stack)).len() == 256,
        ({
            let before = spec_skip_after(
                old(parser).data@,
                old(parser).index,
                open_containers(spec_stack_bits(*old(stack)), *old(depth) as int, *old(kind)),
                limit as nat,
                allow_inf_nan,
            );
            match r {
                Err(e) => before == Err::<usize, JsonError>(e),
                Ok(None) => before == Ok::<usize, JsonError>(final(parser).index),
                Ok(Some(p)) => old(parser).index < final(parser).index < old(parser).data.len()
                    && before == spec_skip_walk(
                    old(parser).data@,
                    final(parser).index,
                    p,
                    open_containers(spec_stack_bits(*final(stack)), *final(depth) as int, *final(kind)),
                    limit as nat,
                    allow_inf_nan,
                ),
            }
        }),
{
    let ghost before = spec_skip_after(
        parser.data@,
        parser.index,
        open_containers(spec_stack_bits(*stack), *depth as int, *kind),
        limit as nat,
        allow_inf_nan,
    );
    loop
        invariant
            parser.wf(),
            parser.data == old(parser).data,
            *depth < 256,
            *depth == 0 || *depth < limit,
            spec_stack_bits(*stack).len() == 256,
            old(parser).index <= parser.index,
            before == spec_skip_after(
                old(parser).data@,
                old(parser).index,
                open_containers(spec_stack_bits(*old(stack)), *old(depth) as int, *old(kind)),
                limit as nat,
                allow_inf_nan,
            ),
            before == spec_skip_after(
                parser.data@,
                parser.index,
                open_containers(spec_stack_bits(*stack), *depth as int, *kind),
                limit as nat,
                allow_inf_nan,
            ),
        decreases usize::MAX - parser.index,
    {
        let ghost gstack = open_containers(spec_stack_bits(*stack), *depth as int, *kind);
        match after_step(*kind, parser, tape) {
            Err(e) => return Err(e),
            Ok(AfterStep::Next { at, peek: next }) => {
                return Ok(Some(next));
            },
            Ok(AfterStep::Close { end }) => {
                if *depth == 0 {
                    proof {
                        assert(gstack.drop_last().len() == 0);
                        assert(spec_skip_after(
                            parser.data@,
                            end,
                            gstack.drop_last(),
                            limit as nat,
                            allow_inf_nan,
                        ) == Ok::<usize, JsonError>(end));
                    }
                    return Ok(None);
                }
                *depth -= 1;
                *kind = stack_get(stack, *depth);
                proof {
                    assert(open_containers(spec_stack_bits(*stack), *depth as int, *kind)
                        =~= gstack.drop_last());
                }
            },
        }
    }
}

/// Skip the value whose peek is `peek`, at the parser's position, checking its syntax (but not
/// that its strings are valid UTF-8). Containers may nest `recursion_limit` deep.
pub fn take_value_skip<'j>(
    peek: Peek,
    parser: &mut Parser<'j>,
    tape: &mut Tape,
    recursion_limit: u8,
    allow_inf_nan: bool,
) -> (r: JsonResult<()>)
    requires
        old(parser).wf(),
        old(parser).index < old(parser).data.len(),
    ensures
        final(parser).wf(),
        final(parser).data == old(parser).data,
        match spec_skip_walk(
            old(parser).data@,
            old(parser).index,
            peek,
            Seq::empty(),
            recursion_limit as nat,
            allow_inf_nan,
        ) {
            Ok(e) => r is Ok && final(parser).index == e,
            Err(x) => r == Err::<(), JsonError>(x),
        },
{
    let ghost s = parser.data@;
    let ghost i = parser.index;
    match walk_step(peek, parser, tape, allow_inf_nan) {
        Err(e) => Err(e),
        Ok(WalkStep::Value { end }) => {
            assert(spec_skip_after(s, end, Seq::empty(), recursion_limit as nat, allow_inf_nan)
                == Ok::<usize, JsonError>(end));
            Ok(())
        },
        Ok(WalkStep::Enter { object, at, peek: next }) => {
            proof {
                assert(Seq::<bool>::empty().push(object) =~= seq![object]);
            }
            take_value_skip_recursive(next, object, parser, tape, recursion_limit, allow_inf_nan)
        },
    }
}

/// The index just past the array or object starting at `start`, or `None` where it is not
/// valid JSON, nests deeper than `recursion_limit`, or is unterminated. Strings' UTF-8 is not
/// checked. The language accepted is exactly the one skipping value by value accepts; the
/// container is skipped by that walk.
pub fn skip_container(data: &[u8], start: usize, recursion_limit: u8, allow_inf_nan: bool) -> (r: Option<usize>)
    requires
        data.len() <= isize::MAX,
        start < data.len(),
        data@[start as int] == 0x5b || data@[start as int] == 0x7b,
    ensures
        r == match spec_skip_walk(
            data@,
            start,
            peek_of(data@[start as int]),
            Seq::empty(),
            recursion_limit as nat,
            allow_inf_nan,
        ) {
            Ok(e) => Some(e),
            Err(_) => None::<usize>,
        },
{
    let mut parser = Parser::new(data);
    parser.index = start;
    let mut tape: Tape = Vec::new();
    let peek = Peek::new(data[start]);
    match take_value_skip(peek, &mut parser, &mut tape, recursion_limit, allow_inf_nan) {
        Ok(()) => Some(parser.index),
        Err(_) => None,
    }
}

/// `n` nested arrays around the number `1`: `n` brackets, `1`, `n` closing brackets.
pub open spec fn nested_arrays(n: nat) -> Seq<u8> {
    Seq::new(2 * n + 1, |k: int| if k < n { 0x5bu8 } else if k == n { 0x31u8 } else { 0x5du8 })
}

/// Closing the `n - k` arrays still open after the `1` and `k` closing brackets.
proof fn lemma_nested_close(n: nat, k: nat, limit: nat, allow_inf_nan: bool)
    requires
        1 <= n <= 255,
        k <= n,
    ensures
        spec_skip_after(
            nested_arrays(n),
            (n + 1 + k) as usize,
            Seq::new((n - k) as nat, |_i: int| false),
            limit,
            allow_inf_nan,
        ) == Ok::<usize, JsonError>((2 * n + 1) as usize),
    decreases n - k,
{
    let s = nested_arrays(n);
    let e = n + 1 + k;
    let stack = Seq::new((n - k) as nat, |_i: int| false);
    if k < n {
        assert(s[e as int] == 0x5d);
        assert(skip_ws(s, e as int) == e);
        assert(spec_array_step(s, e as int) == (Ok::<Option<Peek>, JsonError>(None), e + 1int));
        assert(stack.drop_last() =~= Seq::new((n - (k + 1)) as nat, |_i: int| false));
        lemma_nested_close(n, k + 1, limit, allow_inf_nan);
    } else {
        assert(stack =~= Seq::<bool>::empty());
    }
}

/// Walking into the array at `d`, inside `d` open ones, all entered within the limit.
proof fn lemma_nested_open(n: nat, d: nat, limit: nat, allow_inf_nan: bool)
    requires
        1 <= n,
        1 <= limit <= 255,
        d <= n,
        d <= limit,
    ensures
        spec_skip_walk(
            nested_arrays(n),
            d as usize,
            peek_of(nested_arrays(n)[d as int]),
            Seq::new(d, |_i: int| false),
            limit,
            allow_inf_nan,
        ) is Ok <==> n <= limit,
        n <= limit ==> spec_skip_walk(
            nested_arrays(n),
            d as usize,
            peek_of(nested_arrays(n)[d as int]),
            Seq::new(d, |_i: int| false),
            limit,
            allow_inf_nan,
        ) == Ok::<usize, JsonError>((2 * n + 1) as usize),
    decreases n - d,
{
    let s = nested_arrays(n);
    let stack = Seq::new(d, |_i: int| false);
    if d == n {
        assert(s[d as int] == 0x31);
        lemma_peek_roundtrip(0x31);
        assert(s[n + 1int] == 0x5d);
        assert(digit_run_end(s, n + 1int) == n + 1);
        assert(spec_number_range(s, n as int, 0x31, allow_inf_nan) == Ok::<(bool, usize), JsonError>(
            (true, (n + 1) as usize),
        ));
        lemma_nested_close(n, 0, limit, allow_inf_nan);
        assert(Seq::new((n - 0) as nat, |_i: int| false) =~= stack);
    } else {
        assert(s[d as int] == 0x5b);
        assert(skip_ws(s, d + 1int) == d + 1);
        assert(s[d + 1int] != 0x5d);
        if d > 0 && d >= limit {
        } else {
            assert(stack.push(false) =~= Seq::new(d + 1, |_i: int| false));
            lemma_nested_open(n, d + 1, limit, allow_inf_nan);
        }
    }
}

/// Skipping `n` nested arrays around a number succeeds exactly when they nest no deeper than
/// the recursion limit (for a limit of at least one), and then ends after the last bracket.
pub proof fn lemma_skip_nested_arrays(n: nat, limit: u8, allow_inf_nan: bool)
    requires
        1 <= n,
        1 <= limit,
    ensures
        spec_skip_walk(nested_arrays(n), 0, peek_of(nested_arrays(n)[0]), Seq::empty(), limit as nat, allow_inf_nan)
            is Ok <==> n <= limit,
        n <= limit ==> spec_skip_walk(
            nested_arrays(n),
            0,
            peek_of(nested_arrays(n)[0]),
            Seq::empty(),
            limit as nat,
            allow_inf_nan,
        ) == Ok::<usize, JsonError>((2 * n + 1) as usize),
{
    assert(Seq::new(0, |_i: int| false) =~= Seq::<bool>::empty());
    lemma_nested_open(n, 0, limit as nat, allow_inf_nan);
}

/// A big integer, by its sign and the little-endian bytes of its magnitude.
#[derive(Debug, Clone, PartialEq, Eq)]
pub struct BigIntLe {
    pub negative: bool,
    pub magnitude: Vec<u8>,
}

/// A JSON value. A float is held by the bits of its IEEE 754 binary64 value; an object is its
/// entries in order, duplicate keys and all.
#[derive(Debug)]
pub enum JsonValue {
    Null,
    Bool(bool),
    Int(i64),
    BigInt(BigIntLe),
    Float(u64),
    Str(String),
    Array(Vec<JsonValue>),
    Object(Vec<(String, JsonValue)>),
}

/// A JSON value as mathematics: text as characters, arrays and objects as sequences.
pub enum ValueView {
    Null,
    Bool(bool),
    Int(i64),
    BigInt(bool, Seq<u8>),
    Float(u64),
    Str(Seq<char>),
    Array(Seq<ValueView>),
    Object(Seq<(Seq<char>, ValueView)>),
}

/// The view of a value.
pub open spec fn json_view(v: JsonValue) -> ValueView
    decreases v, 0nat, 0int,
{
    match v {
        JsonValue::Null => ValueView::Null,
        JsonValue::Bool(b) => ValueView::Bool(b),
        JsonValue::Int(i) => ValueView::Int(i),
        JsonValue::BigInt(b) => ValueView::BigInt(b.negative, b.magnitude@),
        JsonValue::Float(x) => ValueView::Float(x),
        JsonValue::Str(s) => ValueView::Str(s@),
        JsonValue::Array(a) => ValueView::Array(values_view(a@, a@.len() as int)),
        JsonValue::Object(o) => ValueView::Object(entries_view(o@, o@.len() as int)),
    }
}

/// The views of the first `k` values.
pub open spec fn values_view(a: Seq<JsonValue>, k: int) -> Seq<ValueView>
    decreases a, 1nat, k,
{
    if k <= 0 || k > a.len() {
        Seq::empty()
    } else {
        values_view(a, k - 1).push(json_view(a[k - 1]))
    }
}

/// The views of the first `k` entries: keys as characters, values by their views.
pub open spec fn entries_view(o: Seq<(String, JsonValue)>, k: int) -> Seq<(Seq<char>, ValueView)>
    decreases o, 1nat, k,
{
    if k <= 0 || k > o.len() {
        Seq::empty()
    } else {
        entries_view(o, k - 1).push((o[k - 1].0@, json_view(o[k - 1].1)))
    }
}

/// The views of the first `k` values depend only on those values, and grow by one with each.
pub proof fn lemma_values_view_push(a: Seq<JsonValue>, x: JsonValue)
    ensures
        values_view(a.push(x), a.len() + 1int) == values_view(a, a.len() as int).push(json_view(x)),
{
    lemma_values_view_prefix(a.push(x), a, a.len() as int);
}

/// The views of the first `k` values of two sequences that agree on them are the same.
pub proof fn lemma_values_view_prefix(a: Seq<JsonValue>, b: Seq<JsonValue>, k: int)
    requires
        0 <= k <= a.len(),
        k <= b.len(),
        forall|i: int| 0 <= i < k ==> a[i] == b[i],
    ensures
        values_view(a, k) == values_view(b, k),
    decreases k,
{
    if k > 0 {
        lemma_values_view_prefix(a, b, k - 1);
    }
}

/// The views of the first `k` entries grow by one with each.
pub proof fn lemma_entries_view_push(o: Seq<(String, JsonValue)>, x: (String, JsonValue))
    ensures
        entries_view(o.push(x), o.len() + 1int) == entries_view(o, o.len() as int).push((x.0@, json_view(x.1))),
{
    lemma_entries_view_prefix(o.push(x), o, o.len() as int);
}

/// The views of the first `k` entries of two sequences that agree on them are the same.
pub proof fn lemma_entries_view_prefix(a: Seq<(String, JsonValue)>, b: Seq<(String, JsonValue)>, k: int)
    requires
        0 <= k <= a.len(),
        k <= b.len(),
        forall|i: int| 0 <= i < k ==> a[i] == b[i],
    ensures
        entries_view(a, k) == entries_view(b, k),
    decreases k,
{
    if k > 0 {
        lemma_entries_view_prefix(a, b, k - 1);
    }
}

} // verus!
