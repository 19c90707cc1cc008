//! What the code of the gradients through operations on one number does when a block runs it.

use vstd::prelude::*;

use crate::dispatch::backend::kernel::raw::RawView;
use crate::dispatch::backend::meaning::ops::{
    gelu_slope, graded, lemma_guarded_one, lemma_guarded_two,
};
use crate::dispatch::backend::meaning::parts::{hold, turned};
use crate::dispatch::backend::meaning::tiles::{
    advances, alone, flat_op, lemma_inline, lemma_run_step, lemma_scope_skip, next, passes, quiet,
    read_by, run, scope_end, stores, thread, thread_step, var, Block, Item, Place, Thread,
};
use crate::dispatch::backend::meaning::{
    at_least, choice, extends, inverse, minus, negated, num, plus, times, Expr,
};
use crate::dispatch::backend::std_lib::unary::unary_grad;
use crate::dispatch::backend::wgsl::source::{declared, inlined};
use crate::dispatch::backend::{Op, OpName, ValueId};
use crate::scalar::{GELU_CUBIC_BITS, ONE_BITS, SQRT_FRAC_BITS, THREE_BITS, ZERO_BITS};

verus! {

/// The state of a thread after a number of operations that it runs alone.
pub open spec fn after(
    k: RawView,
    w: Place,
    t: Thread,
    r: int,
    c: int,
    at: nat,
    count: nat,
) -> Thread
    decreases count,
{
    if count == 0 {
        t
    } else {
        thread_step(
            k,
            w,
            after(k, w, t, r, c, at, (count - 1) as nat),
            r,
            c,
            k.ops[at + count - 1],
        )
    }
}

/// The state of a block after a number of operations that its threads run alone.
spec fn all_after(k: RawView, w: Place, s: Block, at: nat, count: nat) -> Block {
    Block { threads: |r: int, c: int| after(k, w, (s.threads)(r, c), r, c, at, count), ..s }
}

proof fn lemma_all_after(k: RawView, w: Place, s: Block, at: nat, count: nat, last: nat)
    requires
        !s.stuck,
        at + count <= last,
        forall|i: int| at <= i < at + count ==> alone(k, #[trigger] k.ops[i]),
    ensures
        run(k, w, at, last, s) == run(k, w, at + count, last, all_after(k, w, s, at, count)),
    decreases count,
{
    if count == 0 {
        assert(all_after(k, w, s, at, 0).threads =~= s.threads);
    } else {
        let c = (count - 1) as nat;
        lemma_all_after(k, w, s, at, c, last);
        let t = all_after(k, w, s, at, c);
        assert(alone(k, k.ops[(at + c) as int]));
        lemma_run_step(k, w, at + c, last, t);
        assert(next(k, w, t, at + c).threads =~= all_after(k, w, s, at, count).threads);
    }
}

/// Operations that the threads run alone change each thread by itself.
proof fn lemma_alone_runs(k: RawView, w: Place, s: Block, at: nat, count: nat) -> (t: Block)
    requires
        !s.stuck,
        forall|i: int| at <= i < at + count ==> alone(k, #[trigger] k.ops[i]),
        passes(k, at, at + count),
    ensures
        advances(k, w, at, at + count, s, t),
        t.tiles == s.tiles,
        !t.stuck,
        forall|r: int, c: int| #[trigger]
            (t.threads)(r, c) == after(k, w, (s.threads)(r, c), r, c, at, count),
{
    let t = all_after(k, w, s, at, count);
    assert(advances(k, w, at, at + count, s, t)) by {
        reveal(advances);
        assert forall|last: nat| last >= at + count implies #[trigger] run(k, w, at, last, s) == run(
            k,
            w,
            at + count,
            last,
            t,
        ) by {
            lemma_all_after(k, w, s, at, count, last);
        }
    }
    t
}

/// Whether an operation is written wherever it is read.
spec fn silent(k: RawView, op: Op) -> bool {
    op matches Op::DefineVar { id } && !declared(k.values[id as int])
}

proof fn lemma_silent(k: RawView, w: Place, t: Thread, r: int, c: int, at: nat, count: nat)
    requires
        forall|i: int| at <= i < at + count ==> silent(k, #[trigger] k.ops[i]),
    ensures
        after(k, w, t, r, c, at, count) == t,
    decreases count,
{
    if count > 0 {
        lemma_silent(k, w, t, r, c, at, (count - 1) as nat);
        assert(silent(k, k.ops[at + count - 1]));
    }
}

/// Whether a thread has one variable set, and differs in nothing else that was there before.
spec fn moved(t: Thread, u: Thread, limit: nat, out: ValueId, e: Expr) -> bool {
    &&& (u.vars)(out) == Item::Real(e)
    &&& u.guards.len() == 0
    &&& u.stores == t.stores
    &&& forall|v: ValueId| v < limit && v != out ==> #[trigger] (u.vars)(v) == (t.vars)(v)
}

/// What a thread needs to add a gradient.
spec fn given(
    k: RawView,
    t: Thread,
    limit: nat,
    out: ValueId,
    inp: ValueId,
    up: ValueId,
    o: Expr,
    y: Expr,
    g: Expr,
) -> bool {
    &&& k.values.len() <= usize::MAX
    &&& out < limit && inp < limit && up < limit && limit <= k.values.len()
    &&& out != inp && out != up
    &&& !inlined(k.values[inp as int])
    &&& !inlined(k.values[up as int])
    &&& !inlined(k.values[out as int])
    &&& t.guards.len() == 0
    &&& (t.vars)(out) == Item::Real(o)
    &&& (t.vars)(inp) == Item::Real(y)
    &&& (t.vars)(up) == Item::Real(g)
}

proof fn lemma_plain_slope(
    name: OpName,
    r0: RawView,
    out: ValueId,
    inp: ValueId,
    up: ValueId,
    k: RawView,
    w: Place,
    t: Thread,
    r: int,
    c: int,
    o: Expr,
    y: Expr,
    g: Expr,
)
    requires
        extends(unary_grad(name, r0, out, inp, up), k),
        given(k, t, r0.values.len(), out, inp, up, o, y, g),
        name != OpName::Relu,
        name != OpName::Abs,
        name != OpName::Gelu,
    ensures
        ({
            let q = unary_grad(name, r0, out, inp, up);
            let p = r0.ops.len();
            &&& q.ops.len() >= p
            &&& moved(
                t,
                after(k, w, t, r, c, p, (q.ops.len() - p) as nat),
                r0.values.len(),
                out,
                graded(name, o, y, g),
            )
        }),
{
    let q = unary_grad(name, r0, out, inp, up);
    let p = r0.ops.len();
    let v = r0.values.len() as int;
    reveal(RawView::def);
    reveal(RawView::emit);
    let count = (q.ops.len() - p) as nat;
    assert(count >= 1 && q.values.len() == v + count - 1);
    assert forall|i: int| p <= i < p + count - 1 implies silent(k, #[trigger] k.ops[i]) by {
        assert(k.ops[i] == q.ops[i]);
        assert(k.values[v + (i - p)] == q.values[v + (i - p)]);
    }
    lemma_silent(k, w, t, r, c, p, (count - 1) as nat);
    assert(k.ops[p + count - 1] == q.ops[p + count - 1]);
    lemma_inline(k, w, t, r, c, inp);
    lemma_inline(k, w, t, r, c, up);
    let at = |i: int| (v + i) as usize;
    if name == OpName::Tanh {
        assert forall|i: int| 0 <= i < 3 implies #[trigger] k.values[v + i] == q.values[v + i] by {}
        assert(k.values[v] == q.values[v]);
        lemma_inline(k, w, t, r, c, at(0));
        lemma_inline(k, w, t, r, c, at(1));
        lemma_inline(k, w, t, r, c, at(2));
        assert(read_by(k, w, t, r, c, at(0)) == Item::Real(num(ONE_BITS)));
        assert(read_by(k, w, t, r, c, at(1)) == Item::Real(times(y, y)));
    }
    if name == OpName::Elu {
        assert forall|i: int| 0 <= i < 5 implies #[trigger] k.values[v + i] == q.values[v + i] by {}
        assert(k.values[v] == q.values[v]);
        lemma_inline(k, w, t, r, c, at(0));
        lemma_inline(k, w, t, r, c, at(1));
        lemma_inline(k, w, t, r, c, at(2));
        lemma_inline(k, w, t, r, c, at(3));
        lemma_inline(k, w, t, r, c, at(4));
        assert(read_by(k, w, t, r, c, at(0)) == Item::Real(num(ZERO_BITS)));
        assert(read_by(k, w, t, r, c, at(1)) == Item::Real(num(ONE_BITS)));
        assert(read_by(k, w, t, r, c, at(2)) == Item::Real(plus(y, num(ONE_BITS))));
        assert(read_by(k, w, t, r, c, at(3)) == Item::Real(times(g, plus(y, num(ONE_BITS)))));
        assert(read_by(k, w, t, r, c, at(4)) == Item::Real(at_least(y, num(ZERO_BITS))));
    }
}

/// A thread reads a value that it has kept as before.
proof fn lemma_read_same(k: RawView, w: Place, t: Thread, u: Thread, r: int, c: int, id: ValueId)
    requires
        !inlined(k.values[id as int]),
        (u.vars)(id) == (t.vars)(id),
    ensures
        read_by(k, w, u, r, c, id) == (t.vars)(id),
{
    lemma_inline(k, w, u, r, c, id);
}

proof fn lemma_relu_slope(
    r0: RawView,
    out: ValueId,
    inp: ValueId,
    up: ValueId,
    k: RawView,
    w: Place,
    t: Thread,
    r: int,
    c: int,
    o: Expr,
    y: Expr,
    g: Expr,
)
    requires
        extends(unary_grad(OpName::Relu, r0, out, inp, up), k),
        given(k, t, r0.values.len(), out, inp, up, o, y, g),
    ensures
        unary_grad(OpName::Relu, r0, out, inp, up).ops.len() == r0.ops.len() + 5,
        moved(
            t,
            after(k, w, t, r, c, r0.ops.len(), 5),
            r0.values.len(),
            out,
            graded(OpName::Relu, o, y, g),
        ),
{
    let q = unary_grad(OpName::Relu, r0, out, inp, up);
    let p = r0.ops.len();
    let v = r0.values.len() as int;
    reveal(RawView::def);
    reveal(RawView::emit);
    assert forall|i: int| 0 <= i < 5 implies #[trigger] k.ops[p + i] == q.ops[p + i] by {}
    assert(k.ops[p as int] == q.ops[p as int]);
    assert(k.values[v] == q.values[v]);
    assert(k.values[v + 1] == q.values[v + 1]);
    assert forall|i: int| p <= i < p + 2 implies silent(k, #[trigger] k.ops[i]) by {}
    lemma_silent(k, w, t, r, c, p, 2);
    let zero = v as usize;
    let cond = (v + 1) as usize;
    let test = at_least(y, num(ZERO_BITS));
    lemma_inline(k, w, t, r, c, inp);
    lemma_inline(k, w, t, r, c, zero);
    lemma_inline(k, w, t, r, c, cond);
    assert(read_by(k, w, t, r, c, zero) == Item::Real(num(ZERO_BITS)));
    assert(read_by(k, w, t, r, c, cond) == Item::Real(test));
    let t3 = after(k, w, t, r, c, p, 3);
    assert(t3 == thread_step(k, w, t, r, c, k.ops[(p + 2) as int]));
    assert(t3.guards =~= seq![test]);
    let t4 = after(k, w, t, r, c, p, 4);
    assert(t4 == thread_step(k, w, t3, r, c, k.ops[(p + 3) as int]));
    lemma_read_same(k, w, t, t3, r, c, up);
    lemma_guarded_one(test, plus(o, g), o);
    assert((t4.vars)(out) == Item::Real(graded(OpName::Relu, o, y, g)));
    let t5 = after(k, w, t, r, c, p, 5);
    assert(t5 == thread_step(k, w, t4, r, c, k.ops[(p + 4) as int]));
}

proof fn lemma_abs_slope(
    r0: RawView,
    out: ValueId,
    inp: ValueId,
    up: ValueId,
    k: RawView,
    w: Place,
    t: Thread,
    r: int,
    c: int,
    o: Expr,
    y: Expr,
    g: Expr,
)
    requires
        extends(unary_grad(OpName::Abs, r0, out, inp, up), k),
        given(k, t, r0.values.len(), out, inp, up, o, y, g),
    ensures
        unary_grad(OpName::Abs, r0, out, inp, up).ops.len() == r0.ops.len() + 14,
        moved(
            t,
            after(k, w, t, r, c, r0.ops.len(), 14),
            r0.values.len(),
            out,
            graded(OpName::Abs, o, y, g),
        ),
{
    let q = unary_grad(OpName::Abs, r0, out, inp, up);
    let p = r0.ops.len();
    let v = r0.values.len() as int;
    reveal(RawView::def);
    reveal(RawView::emit);
    assert forall|i: int| 0 <= i < 14 implies #[trigger] k.ops[p + i] == q.ops[p + i] by {}
    assert(k.ops[p as int] == q.ops[p as int]);
    assert(k.values[v] == q.values[v]);
    assert(k.values[v + 1] == q.values[v + 1]);
    assert(k.values[v + 2] == q.values[v + 2]);
    assert forall|i: int| p <= i < p + 3 implies silent(k, #[trigger] k.ops[i]) by {}
    lemma_silent(k, w, t, r, c, p, 3);
    let zero = v as usize;
    let ge0 = (v + 1) as usize;
    let le0 = (v + 2) as usize;
    let test = at_least(y, num(ZERO_BITS));
    let not = inverse(test);
    lemma_inline(k, w, t, r, c, inp);
    lemma_inline(k, w, t, r, c, zero);
    lemma_inline(k, w, t, r, c, ge0);
    assert(read_by(k, w, t, r, c, zero) == Item::Real(num(ZERO_BITS)));
    assert(read_by(k, w, t, r, c, ge0) == Item::Real(test));
    let t4 = after(k, w, t, r, c, p, 4);
    assert(t4 == thread_step(k, w, t, r, c, k.ops[(p + 3) as int]));
    assert(t4.guards =~= seq![test]);
    let t5 = after(k, w, t, r, c, p, 5);
    assert(t5 == thread_step(k, w, t4, r, c, k.ops[(p + 4) as int]));
    lemma_read_same(k, w, t, t4, r, c, up);
    let first = choice(test, plus(o, g), o);
    lemma_guarded_one(test, plus(o, g), o);
    assert((t5.vars)(out) == Item::Real(first));
    let t6 = after(k, w, t, r, c, p, 6);
    assert(t6 == thread_step(k, w, t5, r, c, k.ops[(p + 5) as int]));
    assert(t6.guards =~= seq![] && t6.ended == test);
    let t7 = after(k, w, t, r, c, p, 7);
    assert(t7 == thread_step(k, w, t6, r, c, k.ops[(p + 6) as int]));
    assert(t7.guards =~= seq![not]);
    let t8 = after(k, w, t, r, c, p, 8);
    assert(t8 == thread_step(k, w, t7, r, c, k.ops[(p + 7) as int]));
    lemma_inline(k, w, t7, r, c, inp);
    lemma_inline(k, w, t7, r, c, zero);
    lemma_inline(k, w, t7, r, c, le0);
    assert(read_by(k, w, t7, r, c, zero) == Item::Real(num(ZERO_BITS)));
    assert(read_by(k, w, t7, r, c, le0) == Item::Real(test));
    assert(t8.guards =~= seq![not, test]);
    let t9 = after(k, w, t, r, c, p, 9);
    assert(t9 == thread_step(k, w, t8, r, c, k.ops[(p + 8) as int]));
    lemma_read_same(k, w, t, t8, r, c, up);
    let less = plus(first, negated(g));
    lemma_guarded_two(not, test, less, first);
    let second = choice(test, choice(not, less, first), first);
    assert((t9.vars)(out) == Item::Real(second));
    let t10 = after(k, w, t, r, c, p, 10);
    assert(t10 == thread_step(k, w, t9, r, c, k.ops[(p + 9) as int]));
    assert(t10.guards =~= seq![not] && t10.ended == test);
    let t11 = after(k, w, t, r, c, p, 11);
    assert(t11 == thread_step(k, w, t10, r, c, k.ops[(p + 10) as int]));
    assert(t11.guards =~= seq![not, not]);
    let t12 = after(k, w, t, r, c, p, 12);
    assert(t12 == thread_step(k, w, t11, r, c, k.ops[(p + 11) as int]));
    let more = plus(second, num(ZERO_BITS));
    lemma_guarded_two(not, not, more, second);
    assert((t12.vars)(out) == Item::Real(choice(not, choice(not, more, second), second)));
    let t13 = after(k, w, t, r, c, p, 13);
    assert(t13 == thread_step(k, w, t12, r, c, k.ops[(p + 12) as int]));
    assert(t13.guards =~= seq![not]);
    let t14 = after(k, w, t, r, c, p, 14);
    assert(t14 == thread_step(k, w, t13, r, c, k.ops[(p + 13) as int]));
}

#[verifier::rlimit(60)]
#[verifier::spinoff_prover]
proof fn lemma_gelu_slope(
    r0: RawView,
    out: ValueId,
    inp: ValueId,
    up: ValueId,
    k: RawView,
    w: Place,
    t: Thread,
    r: int,
    c: int,
    o: Expr,
    y: Expr,
    g: Expr,
)
    requires
        extends(unary_grad(OpName::Gelu, r0, out, inp, up), k),
        given(k, t, r0.values.len(), out, inp, up, o, y, g),
    ensures
        unary_grad(OpName::Gelu, r0, out, inp, up).ops.len() == r0.ops.len() + 18,
        moved(
            t,
            after(k, w, t, r, c, r0.ops.len(), 18),
            r0.values.len(),
            out,
            graded(OpName::Gelu, o, y, g),
        ),
{
    let q = unary_grad(OpName::Gelu, r0, out, inp, up);
    let p = r0.ops.len();
    let v = r0.values.len() as int;
    assert({
        &&& q.ops.len() == p + 18
        &&& q.values.len() == v + 17
        &&& forall|i: int|
            0 <= i < 17 ==> q.ops[#[trigger] (p + i)] == (Op::DefineVar { id: (v + i) as usize })
        &&& q.ops[(p + 17) as int] == (Op::AddAssign {
            id: out,
            val: Box::new(Op::Mul { a: up, b: (v + 16) as usize }),
        })
    }) by {
        reveal(RawView::def);
        reveal(RawView::emit);
    }
    reveal(RawView::def);
    reveal(RawView::emit);
    assert forall|i: int| 0 <= i < 18 implies #[trigger] k.ops[p + i] == q.ops[p + i] by {}
    assert forall|i: int| 0 <= i < 17 implies #[trigger] k.values[v + i] == q.values[v + i] by {}
    assert(k.ops[p as int] == q.ops[p as int]);
    assert(k.values[v] == q.values[v]);
    let at = |i: int| (v + i) as usize;
    let one = num(ONE_BITS);
    let three = times(num(GELU_CUBIC_BITS), num(THREE_BITS));
    let yy = times(y, y);
    assert forall|i: int| p <= i < p + 5 implies silent(k, #[trigger] k.ops[i]) by {
        let j = i - p;
        assert(k.ops[p + j] == q.ops[p + j]);
        assert(k.values[v + j] == q.values[v + j]);
    }
    lemma_silent(k, w, t, r, c, p, 5);
    lemma_inline(k, w, t, r, c, at(2));
    lemma_inline(k, w, t, r, c, at(3));
    let t6 = after(k, w, t, r, c, p, 6);
    assert(t6 == thread_step(k, w, t, r, c, k.ops[(p + 5) as int]));
    assert((t6.vars)(at(5)) == Item::Real(three));
    let t7 = after(k, w, t, r, c, p, 7);
    assert(t7 == thread_step(k, w, t6, r, c, k.ops[(p + 6) as int]));
    assert(t7 == t6);
    let t8 = after(k, w, t, r, c, p, 8);
    assert(t8 == thread_step(k, w, t7, r, c, k.ops[(p + 7) as int]));
    lemma_inline(k, w, t7, r, c, at(1));
    lemma_inline(k, w, t7, r, c, inp);
    assert((t8.vars)(at(7)) == Item::Real(plus(one, y)));
    let t9 = after(k, w, t, r, c, p, 9);
    assert(t9 == thread_step(k, w, t8, r, c, k.ops[(p + 8) as int]));
    assert(t9 == t8);
    let t10 = after(k, w, t, r, c, p, 10);
    assert(t10 == thread_step(k, w, t9, r, c, k.ops[(p + 9) as int]));
    lemma_inline(k, w, t9, r, c, at(1));
    lemma_inline(k, w, t9, r, c, at(8));
    lemma_inline(k, w, t9, r, c, inp);
    assert(read_by(k, w, t9, r, c, at(8)) == Item::Real(yy));
    assert((t10.vars)(at(9)) == Item::Real(minus(one, yy)));
    let t11 = after(k, w, t, r, c, p, 11);
    assert(t11 == thread_step(k, w, t10, r, c, k.ops[(p + 10) as int]));
    let t12 = after(k, w, t, r, c, p, 12);
    assert(t12 == thread_step(k, w, t11, r, c, k.ops[(p + 11) as int]));
    assert(t12 == t10);
    let t13 = after(k, w, t, r, c, p, 13);
    assert(t13 == thread_step(k, w, t12, r, c, k.ops[(p + 12) as int]));
    lemma_inline(k, w, t12, r, c, inp);
    lemma_inline(k, w, t12, r, c, at(1));
    lemma_inline(k, w, t12, r, c, at(4));
    lemma_inline(k, w, t12, r, c, at(5));
    lemma_inline(k, w, t12, r, c, at(6));
    lemma_inline(k, w, t12, r, c, at(10));
    lemma_inline(k, w, t12, r, c, at(11));
    assert(read_by(k, w, t12, r, c, at(6)) == Item::Real(yy));
    assert((t12.vars)(at(5)) == (t6.vars)(at(5)));
    assert(read_by(k, w, t12, r, c, at(10)) == Item::Real(times(three, yy)));
    assert(read_by(k, w, t12, r, c, at(11)) == Item::Real(plus(one, times(three, yy))));
    let inner = times(num(SQRT_FRAC_BITS), plus(one, times(three, yy)));
    assert((t13.vars)(at(12)) == Item::Real(inner));
    let t14 = after(k, w, t, r, c, p, 14);
    assert(t14 == thread_step(k, w, t13, r, c, k.ops[(p + 13) as int]));
    lemma_inline(k, w, t13, r, c, inp);
    lemma_inline(k, w, t13, r, c, at(12));
    assert((t14.vars)(at(13)) == Item::Real(times(y, inner)));
    let t15 = after(k, w, t, r, c, p, 15);
    assert(t15 == thread_step(k, w, t14, r, c, k.ops[(p + 14) as int]));
    lemma_inline(k, w, t14, r, c, at(9));
    lemma_inline(k, w, t14, r, c, at(13));
    assert((t14.vars)(at(9)) == (t10.vars)(at(9)));
    let rest = times(minus(one, yy), times(y, inner));
    assert((t15.vars)(at(14)) == Item::Real(rest));
    let t16 = after(k, w, t, r, c, p, 16);
    assert(t16 == thread_step(k, w, t15, r, c, k.ops[(p + 15) as int]));
    lemma_inline(k, w, t15, r, c, at(7));
    lemma_inline(k, w, t15, r, c, at(14));
    assert((t15.vars)(at(7)) == (t8.vars)(at(7)));
    assert((t16.vars)(at(15)) == Item::Real(plus(plus(one, y), rest)));
    let t17 = after(k, w, t, r, c, p, 17);
    assert(t17 == thread_step(k, w, t16, r, c, k.ops[(p + 16) as int]));
    lemma_inline(k, w, t16, r, c, at(0));
    lemma_inline(k, w, t16, r, c, at(15));
    assert((t17.vars)(at(16)) == Item::Real(gelu_slope(y)));
    let t18 = after(k, w, t, r, c, p, 18);
    assert(t18 == thread_step(k, w, t17, r, c, k.ops[(p + 17) as int]));
    lemma_inline(k, w, t17, r, c, up);
    lemma_inline(k, w, t17, r, c, at(16));
    assert((t17.vars)(up) == (t.vars)(up));
    assert((t17.vars)(out) == (t.vars)(out));
}

/// What an operation does to how deep blocks of operations are nested.
proof fn lemma_depth(ops: Seq<Op>, at: nat, last: nat, depth: nat)
    requires
        at < last,
    ensures
        scope_end(ops, at, last, depth) == match ops[at as int] {
            Op::EndScope => if depth == 0 {
                at
            } else {
                scope_end(ops, at + 1, last, (depth - 1) as nat)
            },
            Op::ForLoopBegin { .. }
            | Op::WhileLoopBegin { .. }
            | Op::ForeverLoopBegin
            | Op::IfBegin { .. }
            | Op::ElseBegin => scope_end(ops, at + 1, last, depth + 1),
            _ => scope_end(ops, at + 1, last, depth),
        },
{
}

/// The code of a gradient opens no block of operations that it does not end.
proof fn lemma_slope_passes(
    name: OpName,
    r0: RawView,
    out: ValueId,
    inp: ValueId,
    up: ValueId,
    k: RawView,
)
    requires
        k.values.len() <= usize::MAX,
        extends(unary_grad(name, r0, out, inp, up), k),
    ensures
        ({
            let q = unary_grad(name, r0, out, inp, up);
            &&& q.ops.len() >= r0.ops.len()
            &&& passes(k, r0.ops.len(), q.ops.len())
            &&& forall|i: int|
                r0.ops.len() <= i < q.ops.len() ==> alone(k, #[trigger] k.ops[i])
        }),
{
    let q = unary_grad(name, r0, out, inp, up);
    let p = r0.ops.len();
    reveal(RawView::def);
    reveal(RawView::emit);
    let n = (q.ops.len() - p) as nat;
    let v = r0.values.len() as int;
    assert forall|i: int| p <= i < q.ops.len() implies alone(k, #[trigger] k.ops[i]) by {
        assert(k.ops[i] == q.ops[i]);
        if q.ops[i] is DefineVar {
            let j = i - p;
            assert(0 <= j < q.values.len() - v);
            assert(k.values[v + j] == q.values[v + j]);
        }
    }
    assert forall|last: nat, depth: nat| last >= p + n implies #[trigger] scope_end(
        k.ops,
        p,
        last,
        depth,
    ) == scope_end(k.ops, p + n, last, depth) by {
        assert forall|i: int| 0 <= i < n implies #[trigger] k.ops[p + i] == q.ops[p + i] by {}
        assert(k.ops[p as int] == q.ops[p as int]);
        if name == OpName::Relu {
            lemma_depth(k.ops, p, last, depth);
            lemma_depth(k.ops, p + 1, last, depth);
            lemma_depth(k.ops, p + 2, last, depth);
            lemma_depth(k.ops, p + 3, last, depth + 1);
            lemma_depth(k.ops, p + 4, last, depth + 1);
        } else if name == OpName::Abs {
            lemma_depth(k.ops, p, last, depth);
            lemma_depth(k.ops, p + 1, last, depth);
            lemma_depth(k.ops, p + 2, last, depth);
            lemma_depth(k.ops, p + 3, last, depth);
            lemma_depth(k.ops, p + 4, last, depth + 1);
            lemma_depth(k.ops, p + 5, last, depth + 1);
            lemma_depth(k.ops, p + 6, last, depth);
            lemma_depth(k.ops, p + 7, last, depth + 1);
            lemma_depth(k.ops, p + 8, last, depth + 2);
            lemma_depth(k.ops, p + 9, last, depth + 2);
            lemma_depth(k.ops, p + 10, last, depth + 1);
            lemma_depth(k.ops, p + 11, last, depth + 2);
            lemma_depth(k.ops, p + 12, last, depth + 2);
            lemma_depth(k.ops, p + 13, last, depth + 1);
        } else {
            assert forall|i: int| p <= i < p + n implies flat_op(
                #[trigger] k.ops[i],
            ) by {
                assert(k.ops[i] == q.ops[i]);
            }
            lemma_scope_skip(k.ops, p, p + n, last, depth);
        }
    }
}

/// The code of the gradient through an operation on one number adds it.
pub proof fn lemma_unary_grad_runs(
    name: OpName,
    r0: RawView,
    out: ValueId,
    inp: ValueId,
    up: ValueId,
    k: RawView,
    w: Place,
    s: Block,
    o: spec_fn(int, int) -> Expr,
    y: spec_fn(int, int) -> Expr,
    g: spec_fn(int, int) -> Expr,
) -> (t: Block)
    requires
        extends(unary_grad(name, r0, out, inp, up), k),
        k.values.len() <= usize::MAX,
        out < r0.values.len(),
        inp < r0.values.len(),
        up < r0.values.len(),
        out != inp,
        out != up,
        !inlined(k.values[inp as int]),
        !inlined(k.values[up as int]),
        !inlined(k.values[out as int]),
        !s.stuck,
        quiet(k, s),
        hold(k, s, out, o),
        hold(k, s, inp, y),
        hold(k, s, up, g),
    ensures
        advances(k, w, r0.ops.len(), unary_grad(name, r0, out, inp, up).ops.len(), s, t),
        turned(
            k,
            s,
            t,
            r0.values.len(),
            out,
            |r: int, c: int| graded(name, o(r, c), y(r, c), g(r, c)),
        ),
{
    let q = unary_grad(name, r0, out, inp, up);
    let p = r0.ops.len();
    let n = (q.ops.len() - p) as nat;
    lemma_slope_passes(name, r0, out, inp, up, k);
    assert(r0.values.len() <= k.values.len()) by {
        reveal(RawView::def);
        reveal(RawView::emit);
    }
    let t = lemma_alone_runs(k, w, s, p, n);
    assert forall|r: int, c: int| #[trigger] thread(k, r, c) implies moved(
        (s.threads)(r, c),
        (t.threads)(r, c),
        r0.values.len(),
        out,
        graded(name, o(r, c), y(r, c), g(r, c)),
    ) by {
        let h = (s.threads)(r, c);
        assert(var(s, r, c, out) == Item::Real(o(r, c)));
        assert(var(s, r, c, inp) == Item::Real(y(r, c)));
        assert(var(s, r, c, up) == Item::Real(g(r, c)));
        assert((t.threads)(r, c) == after(k, w, h, r, c, p, n));
        if name == OpName::Relu {
            lemma_relu_slope(r0, out, inp, up, k, w, h, r, c, o(r, c), y(r, c), g(r, c));
        } else if name == OpName::Abs {
            lemma_abs_slope(r0, out, inp, up, k, w, h, r, c, o(r, c), y(r, c), g(r, c));
        } else if name == OpName::Gelu {
            lemma_gelu_slope(r0, out, inp, up, k, w, h, r, c, o(r, c), y(r, c), g(r, c));
        } else {
            lemma_plain_slope(
                name,
                r0,
                out,
                inp,
                up,
                k,
                w,
                h,
                r,
                c,
                o(r, c),
                y(r, c),
                g(r, c),
            );
        }
    }
    assert forall|r: int, c: int, v: ValueId|
        thread(k, r, c) && v < r0.values.len() && v != out implies #[trigger] var(t, r, c, v)
        == var(s, r, c, v) by {
        assert(moved(
            (s.threads)(r, c),
            (t.threads)(r, c),
            r0.values.len(),
            out,
            graded(name, o(r, c), y(r, c), g(r, c)),
        ));
    }
    t
}

} // verus!
