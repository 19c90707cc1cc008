//! What the operations compute.

use vstd::prelude::*;

use crate::dispatch::backend::kernel::raw::RawView;
use crate::dispatch::backend::meaning::facts::{group_meaning, lemma_named};
use crate::dispatch::backend::meaning::{
    absolute, at_least, choice, exponential, greatest, guarded, inverse, logarithm, minus, negated,
    num, over, plus, tangent, times, Expr,
};
use crate::dispatch::backend::sound::{expression, group_sound, statement};
use crate::dispatch::backend::std_lib::unary::{
    abs_grad, elu_grad, elu_value, gelu_grad, gelu_value, relu_grad, relu_value, tanh_grad,
    unary_grad, unary_value,
};
use crate::dispatch::backend::{Op, OpName, ParamId, ValueId};
use crate::scalar::{
    Float32, GELU_CUBIC_BITS, HALF_BITS, ONE_BITS, SQRT_FRAC_BITS, THREE_BITS, ZERO_BITS,
};

verus! {

/// Whether a kernel continues another that has no block open, and has changed no variable but one.
pub open spec fn framed(r: RawView, q: RawView, out: ValueId) -> bool {
    &&& q.continues(r)
    &&& q.guards() == r.guards()
    &&& r.straight() ==> q.straight()
    &&& forall|j: ValueId| #![trigger q.solid(j)] r.solid(j) ==> q.solid(j)
    &&& forall|j: ValueId| #![trigger q.held(j)] r.solid(j) && j != out ==> q.held(j) == r.held(j)
}

/// Whether a kernel changes no parameter that another does not.
pub open spec fn reserved(r: RawView, q: RawView) -> bool {
    forall|p: ParamId| #[trigger] q.keeps(p) == r.keeps(p)
}

/// The tangent that GELU computes.
pub open spec fn gelu_tangent(x: Expr) -> Expr {
    let cubic = times(times(times(x, x), x), num(GELU_CUBIC_BITS));
    tangent(times(num(SQRT_FRAC_BITS), plus(x, cubic)))
}

/// What an operation on one number computes.
pub open spec fn applied(name: OpName, x: Expr) -> Expr {
    match name {
        OpName::Log => logarithm(x),
        OpName::Tanh => tangent(x),
        OpName::Elu => choice(
            at_least(x, num(ZERO_BITS)),
            x,
            minus(exponential(x), num(ONE_BITS)),
        ),
        OpName::Relu => greatest(x, num(ZERO_BITS)),
        OpName::Gelu => times(
            times(num(HALF_BITS), x),
            plus(num(ONE_BITS), gelu_tangent(x)),
        ),
        OpName::Exp => exponential(x),
        OpName::Abs => absolute(x),
        _ => negated(x),
    }
}

proof fn lemma_elu_held(r: RawView, out: ValueId, inp: ValueId)
    requires
        r.sound(),
        r.solid(out),
        r.solid(inp),
        out < r.span(),
        inp < r.span(),
        r.guards().len() == 0,
        elu_value(r, out, inp).small(),
    ensures
        elu_value(r, out, inp).held(out) == applied(OpName::Elu, r.held(inp)),
        framed(r, elu_value(r, out, inp), out),
        reserved(r, elu_value(r, out, inp)),
{
    broadcast use {group_sound, group_meaning};

}

proof fn lemma_relu_held(r: RawView, out: ValueId, inp: ValueId)
    requires
        r.sound(),
        r.solid(out),
        r.solid(inp),
        out < r.span(),
        inp < r.span(),
        r.guards().len() == 0,
        relu_value(r, out, inp).small(),
    ensures
        relu_value(r, out, inp).held(out) == applied(OpName::Relu, r.held(inp)),
        framed(r, relu_value(r, out, inp), out),
        reserved(r, relu_value(r, out, inp)),
{
    broadcast use {group_sound, group_meaning};

}

proof fn lemma_gelu_held(r: RawView, out: ValueId, inp: ValueId)
    requires
        r.sound(),
        r.solid(out),
        r.solid(inp),
        out < r.span(),
        inp < r.span(),
        r.guards().len() == 0,
        gelu_value(r, out, inp).0.small(),
    ensures
        gelu_value(r, out, inp).0.held(out) == applied(OpName::Gelu, r.held(inp)),
        framed(r, gelu_value(r, out, inp).0, out),
        reserved(r, gelu_value(r, out, inp).0),
{
    broadcast use {group_sound, group_meaning};

}

/// What the code of an operation on one number computes.
pub proof fn lemma_unary_held(name: OpName, r: RawView, out: ValueId, inp: ValueId)
    requires
        r.sound(),
        r.solid(out),
        r.solid(inp),
        out < r.span(),
        inp < r.span(),
        r.guards().len() == 0,
        unary_value(name, r, out, inp).0.small(),
    ensures
        unary_value(name, r, out, inp).0.held(out) == applied(name, r.held(inp)),
        framed(r, unary_value(name, r, out, inp).0, out),
        reserved(r, unary_value(name, r, out, inp).0),
{
    match name {
        OpName::Elu => {
            lemma_elu_held(r, out, inp);
        },
        OpName::Relu => {
            lemma_relu_held(r, out, inp);
        },
        OpName::Gelu => {
            lemma_gelu_held(r, out, inp);
        },
        _ => {
            broadcast use {group_sound, group_meaning};

        },
    }
}

/// The slope of GELU that is computed from the tangent that it saves.
pub open spec fn gelu_slope(t: Expr) -> Expr {
    let cubic = times(times(num(GELU_CUBIC_BITS), num(THREE_BITS)), times(t, t));
    let inner = times(num(SQRT_FRAC_BITS), plus(num(ONE_BITS), cubic));
    let rest = times(minus(num(ONE_BITS), times(t, t)), times(t, inner));
    times(num(HALF_BITS), plus(plus(num(ONE_BITS), t), rest))
}

/// What a gradient becomes when a backward pass adds the gradient `g` through an operation on one
/// number to it, where `y` is what the forward pass saved.
///
/// The pass works with what was saved of the result. That of a logarithm is divided by, where the
/// derivative divides by the operand; and that of GELU is the tangent, which stands for the operand
/// as well in the slope.
pub open spec fn graded(name: OpName, sum: Expr, y: Expr, g: Expr) -> Expr {
    match name {
        OpName::Log => plus(sum, over(g, y)),
        OpName::Tanh => plus(sum, times(g, minus(num(ONE_BITS), times(y, y)))),
        OpName::Elu => plus(
            sum,
            choice(at_least(y, num(ZERO_BITS)), g, times(g, plus(y, num(ONE_BITS)))),
        ),
        OpName::Relu => choice(at_least(y, num(ZERO_BITS)), plus(sum, g), sum),
        OpName::Gelu => plus(sum, times(g, gelu_slope(y))),
        OpName::Exp => plus(sum, times(g, y)),
        OpName::Abs => {
            let c = at_least(y, num(ZERO_BITS));
            let n = inverse(c);
            let first = choice(c, plus(sum, g), sum);
            let second = choice(c, choice(n, plus(first, negated(g)), first), first);
            choice(n, choice(n, plus(second, num(ZERO_BITS)), second), second)
        },
        _ => plus(sum, negated(g)),
    }
}

pub proof fn lemma_guarded_one(c: Expr, new: Expr, old: Expr)
    ensures
        guarded(seq![c], new, old) == choice(c, new, old),
{
    assert(seq![c].drop_last() =~= seq![]);
    reveal_with_fuel(guarded, 2);
}

pub proof fn lemma_guarded_two(a: Expr, b: Expr, new: Expr, old: Expr)
    ensures
        guarded(seq![a, b], new, old) == choice(b, choice(a, new, old), old),
{
    lemma_guarded_one(a, new, old);
    assert(seq![a, b].drop_last() =~= seq![a]);
}

proof fn lemma_tanh_grad_held(r: RawView, out: ValueId, inp: ValueId, upstream: ValueId)
    requires
        r.sound(),
        r.solid(out),
        r.solid(inp),
        r.solid(upstream),
        inp != out,
        upstream != out,
        r.guards().len() == 0,
        tanh_grad(r, out, inp, upstream).small(),
    ensures
        tanh_grad(r, out, inp, upstream).held(out) == graded(
            OpName::Tanh,
            r.held(out),
            r.held(inp),
            r.held(upstream),
        ),
        framed(r, tanh_grad(r, out, inp, upstream), out),
        reserved(r, tanh_grad(r, out, inp, upstream)),
{
    broadcast use {group_sound, group_meaning};

}

proof fn lemma_elu_grad_held(r: RawView, out: ValueId, inp: ValueId, upstream: ValueId)
    requires
        r.sound(),
        r.solid(out),
        r.solid(inp),
        r.solid(upstream),
        inp != out,
        upstream != out,
        r.guards().len() == 0,
        elu_grad(r, out, inp, upstream).small(),
    ensures
        elu_grad(r, out, inp, upstream).held(out) == graded(
            OpName::Elu,
            r.held(out),
            r.held(inp),
            r.held(upstream),
        ),
        framed(r, elu_grad(r, out, inp, upstream), out),
        reserved(r, elu_grad(r, out, inp, upstream)),
{
    broadcast use {group_sound, group_meaning};

}

proof fn lemma_relu_grad_held(r: RawView, out: ValueId, inp: ValueId, upstream: ValueId)
    requires
        r.sound(),
        r.solid(out),
        r.solid(inp),
        r.solid(upstream),
        inp != out,
        upstream != out,
        r.guards().len() == 0,
        relu_grad(r, out, inp, upstream).small(),
    ensures
        relu_grad(r, out, inp, upstream).held(out) == graded(
            OpName::Relu,
            r.held(out),
            r.held(inp),
            r.held(upstream),
        ),
        framed(r, relu_grad(r, out, inp, upstream), out),
        reserved(r, relu_grad(r, out, inp, upstream)),
{
    broadcast use {group_sound, group_meaning};

    let (r1, zero) = r.inline_f(Op::ConstF32 { value: Float32 { bits: ZERO_BITS } });
    let (r2, cond) = r1.inline_b(Op::Ge { a: inp, b: zero });
    let r3 = r2.emit(Op::IfBegin { cond });
    let c = at_least(r.held(inp), num(ZERO_BITS));
    assert(r3.guards() == r.guards().push(c));
    assert(r.guards().push(c) =~= seq![c]);
    lemma_guarded_one(c, plus(r.held(out), r.held(upstream)), r.held(out));
    assert(r.guards().push(c).drop_last() =~= r.guards());
}

proof fn lemma_gelu_grad_held(r: RawView, out: ValueId, inp: ValueId, upstream: ValueId)
    requires
        r.sound(),
        r.solid(out),
        r.solid(inp),
        r.solid(upstream),
        inp != out,
        upstream != out,
        r.guards().len() == 0,
        gelu_grad(r, out, inp, upstream).small(),
    ensures
        gelu_grad(r, out, inp, upstream).held(out) == graded(
            OpName::Gelu,
            r.held(out),
            r.held(inp),
            r.held(upstream),
        ),
        framed(r, gelu_grad(r, out, inp, upstream), out),
        reserved(r, gelu_grad(r, out, inp, upstream)),
{
    broadcast use {group_sound, group_meaning};

}

/// What an addition in a block of its own does.
proof fn lemma_branch_held(r: RawView, begin: Op, c: Expr, out: ValueId, val: Op, e: Expr)
    requires
        r.sound(),
        r.small(),
        r.solid(out),
        expression(val, r.span()),
        statement(begin, r.span()),
        match begin {
            Op::IfBegin { cond } => c == r.held(cond),
            Op::ElseBegin => c == inverse(r.ended()),
            _ => false,
        },
        r.emit(begin).spelled(val) == e,
    ensures
        ({
            let q = r.emit(begin).accum(out, val).emit(Op::EndScope);
            &&& framed(r, q, out)
            &&& reserved(r, q)
            &&& q.small()
            &&& q.ended() == c
            &&& q.held(out) == guarded(r.guards().push(c), plus(r.held(out), e), r.held(out))
            &&& forall|j: ValueId, d: Op| #[trigger] q.names(j, d) == r.names(j, d)
        }),
{
    broadcast use {group_sound, group_meaning};

    assert(r.guards().push(c).drop_last() =~= r.guards());
    assert(r.emit(begin).accum(out, val).emit(Op::EndScope).values == r.values) by {
        reveal(RawView::emit);
    }
}

proof fn lemma_abs_grad_held(r: RawView, out: ValueId, inp: ValueId, upstream: ValueId)
    requires
        r.sound(),
        r.solid(out),
        r.solid(inp),
        r.solid(upstream),
        inp != out,
        upstream != out,
        r.guards().len() == 0,
        abs_grad(r, out, inp, upstream).small(),
    ensures
        abs_grad(r, out, inp, upstream).held(out) == graded(
            OpName::Abs,
            r.held(out),
            r.held(inp),
            r.held(upstream),
        ),
        framed(r, abs_grad(r, out, inp, upstream), out),
        reserved(r, abs_grad(r, out, inp, upstream)),
{
    let zero_op = Op::ConstF32 { value: Float32 { bits: ZERO_BITS } };
    let (r1, zero) = r.inline_f(zero_op);
    let test = Op::Ge { a: inp, b: zero };
    let (r2, ge0) = r1.inline_f(test);
    let (r3, le0) = r2.inline_f(test);
    let g = r.held(upstream);
    let c = at_least(r.held(inp), num(ZERO_BITS));
    let add = Op::CopyVar { id: upstream };
    let begin = Op::IfBegin { cond: ge0 };
    assert({
        &&& framed(r, r3, out)
        &&& reserved(r, r3)
        &&& r3.held(out) == r.held(out)
        &&& r3.held(ge0) == c
        &&& r3.names(le0, test)
        &&& r3.names(zero, zero_op)
        &&& r3.emit(begin).spelled(add) == g
        &&& ge0 < r3.span()
        &&& le0 < r3.span()
        &&& zero < r3.span()
        &&& r3.span() <= abs_grad(r, out, inp, upstream).span()
    }) by {
        broadcast use {group_sound, group_meaning};

    }
    lemma_branch_held(r3, begin, c, out, add, g);
    let r6 = r3.emit(begin).accum(out, add).emit(Op::EndScope);
    assert(r3.guards().push(c) =~= seq![c]);
    lemma_guarded_one(c, plus(r.held(out), g), r.held(out));
    let r7 = r6.emit(Op::ElseBegin);
    let n = inverse(c);
    let less = Op::Neg { x: upstream };
    let begin = Op::IfBegin { cond: le0 };
    assert({
        &&& r7.sound()
        &&& r7.small()
        &&& r7.level() == r6.level() + 1
        &&& r7.span() == r6.span()
        &&& r7.launched_as(r6)
        &&& r7.guards() == r6.guards().push(n)
        &&& forall|j: ValueId| #[trigger] r7.solid(j) == r6.solid(j)
        &&& forall|j: ValueId| #![trigger r7.held(j)] r6.solid(j) ==> r7.held(j) == r6.held(j)
        &&& r7.names(le0, test)
        &&& r7.names(zero, zero_op)
        &&& r6.straight() ==> r7.straight()
        &&& reserved(r6, r7)
    }) by {
        broadcast use {group_sound, group_meaning};

    }
    lemma_named(r7, zero, zero_op);
    lemma_named(r7, le0, test);
    assert(r7.held(le0) == c);
    assert(r7.emit(begin).spelled(less) == negated(g)) by {
        broadcast use {group_sound, group_meaning};

    }
    lemma_branch_held(r7, begin, c, out, less, negated(g));
    let r10 = r7.emit(begin).accum(out, less).emit(Op::EndScope);
    assert(r7.guards().push(c) =~= seq![n, c]);
    let first = r7.held(out);
    lemma_guarded_two(n, c, plus(first, negated(g)), first);
    let second = r10.held(out);
    assert(r10.emit(Op::ElseBegin).spelled(zero_op) == num(ZERO_BITS));
    lemma_branch_held(r10, Op::ElseBegin, n, out, zero_op, num(ZERO_BITS));
    let r13 = r10.emit(Op::ElseBegin).accum(out, zero_op).emit(Op::EndScope);
    assert(r10.guards().push(n) =~= seq![n, n]);
    lemma_guarded_two(n, n, plus(second, num(ZERO_BITS)), second);
    let r14 = r13.emit(Op::EndScope);
    assert(r13.guards().drop_last() =~= r3.guards());
    assert({
        &&& r14.sound()
        &&& r14.level() == r13.level() - 1
        &&& r14.span() == r13.span()
        &&& r14.launched_as(r13)
        &&& r14.guards() == r13.guards().drop_last()
        &&& forall|j: ValueId| #[trigger] r14.solid(j) == r13.solid(j)
        &&& forall|j: ValueId| #![trigger r14.held(j)] r13.solid(j) ==> r14.held(j) == r13.held(j)
        &&& r13.straight() ==> r14.straight()
        &&& reserved(r13, r14)
    }) by {
        broadcast use {group_sound, group_meaning};

    }
    assert(r14 == abs_grad(r, out, inp, upstream));
}

/// What the code of a gradient through an operation on one number computes.
pub proof fn lemma_unary_grad_held(
    name: OpName,
    r: RawView,
    out: ValueId,
    inp: ValueId,
    upstream: ValueId,
)
    requires
        r.sound(),
        r.solid(out),
        r.solid(inp),
        r.solid(upstream),
        inp != out,
        upstream != out,
        r.guards().len() == 0,
        unary_grad(name, r, out, inp, upstream).small(),
    ensures
        unary_grad(name, r, out, inp, upstream).held(out) == graded(
            name,
            r.held(out),
            r.held(inp),
            r.held(upstream),
        ),
        framed(r, unary_grad(name, r, out, inp, upstream), out),
        reserved(r, unary_grad(name, r, out, inp, upstream)),
{
    match name {
        OpName::Tanh => {
            lemma_tanh_grad_held(r, out, inp, upstream);
        },
        OpName::Elu => {
            lemma_elu_grad_held(r, out, inp, upstream);
        },
        OpName::Relu => {
            lemma_relu_grad_held(r, out, inp, upstream);
        },
        OpName::Gelu => {
            lemma_gelu_grad_held(r, out, inp, upstream);
        },
        OpName::Abs => {
            lemma_abs_grad_held(r, out, inp, upstream);
        },
        _ => {
            broadcast use {group_sound, group_meaning};

        },
    }
}

} // verus!
