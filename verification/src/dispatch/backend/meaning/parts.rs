//! What the code of operations on one number does when a block runs it.

use vstd::prelude::*;

use crate::dispatch::backend::kernel::raw::RawView;
use crate::dispatch::backend::meaning::ops::{applied, gelu_tangent};
use crate::dispatch::backend::meaning::product::framed_by;
use crate::dispatch::backend::meaning::tiles::{
    advances, item, lemma_advance_none, lemma_advance_on, lemma_assign, lemma_inline, lemma_name,
    quiet, result, stores, read_by, result_by, thread, var, Block, Item, Place, Thread,
};
use crate::dispatch::backend::meaning::{any, exponential, extends, minus, num, plus, times, Expr};
use crate::dispatch::backend::std_lib::unary::unary_value;
use crate::dispatch::backend::wgsl::source::{declared, inlined};
use crate::dispatch::backend::{Op, OpName, ValueId};
use crate::scalar::{GELU_CUBIC_BITS, ONE_BITS, SQRT_FRAC_BITS, ZERO_BITS};

verus! {

/// Definitions that are written wherever they are read do nothing.
pub proof fn lemma_names(k: RawView, w: Place, s: Block, at: nat, first: nat, count: nat)
    requires
        !s.stuck,
        first + count <= usize::MAX,
        forall|i: int|
            0 <= i < count ==> k.ops[#[trigger] (at + i)] == (Op::DefineVar {
                id: (first + i) as usize,
            }) && !declared(k.values[first + i]),
    ensures
        advances(k, w, at, at + count, s, s),
    decreases count,
{
    if count == 0 {
        lemma_advance_none(k, w, at, s);
    } else {
        let c = (count - 1) as nat;
        lemma_names(k, w, s, at, first, c);
        let i = c as int;
        assert(k.ops[at + i] == (Op::DefineVar { id: (first + i) as usize }));
        lemma_name(k, w, s, at + c, (first + c) as usize);
        lemma_advance_on(k, w, at, at + c, at + count, s, s, s);
    }
}

/// Whether a block has come to another state with one variable set, and nothing else that was there
/// before.
pub open spec fn turned(
    k: RawView,
    s: Block,
    t: Block,
    limit: nat,
    out: ValueId,
    f: spec_fn(int, int) -> Expr,
) -> bool {
    &&& !t.stuck
    &&& quiet(k, t)
    &&& t.tiles == s.tiles
    &&& framed_by(k, s, t, limit, out)
    &&& forall|r: int, c: int| #[trigger] thread(k, r, c) ==> stores(t, r, c) == stores(s, r, c)
    &&& forall|r: int, c: int| #[trigger]
        thread(k, r, c) ==> var(t, r, c, out) == Item::Real(f(r, c))
}

/// Whether all the threads hold a number in a variable.
pub open spec fn hold(k: RawView, s: Block, id: ValueId, f: spec_fn(int, int) -> Expr) -> bool {
    forall|r: int, c: int| #[trigger]
        thread(k, r, c) ==> var(s, r, c, id) == Item::Real(f(r, c))
}

/// What a thread computes as an operation on one number, and what it keeps of it.
proof fn lemma_unary_value(
    name: OpName,
    r0: RawView,
    out: ValueId,
    inp: ValueId,
    k: RawView,
    w: Place,
    t: Thread,
    r: int,
    c: int,
    x: Expr,
)
    requires
        extends(unary_value(name, r0, out, inp).0, k),
        k.values.len() <= usize::MAX,
        inp < r0.values.len(),
        !inlined(k.values[inp as int]),
        (t.vars)(inp) == Item::Real(x),
    ensures
        ({
            let (q, save) = unary_value(name, r0, out, inp);
            &&& q.ops.last() matches Op::OverwriteVar { id, val } && id == out && !(
            *val is SharedLoad) && result_by(k, w, t, r, c, *val, any()) == Item::Real(
                applied(name, x),
            )
            &&& name == OpName::Gelu ==> read_by(k, w, t, r, c, save) == Item::Real(
                gelu_tangent(x),
            )
        }),
{
    let q = unary_value(name, r0, out, inp).0;
    let v = r0.values.len() as int;
    reveal(RawView::def);
    reveal(RawView::emit);
    lemma_inline(k, w, t, r, c, inp);
    let at = |i: int| (v + i) as usize;
    match name {
        OpName::Elu => {
            assert forall|i: int| 0 <= i < 5 implies #[trigger] k.values[v + i] == q.values[v
                + i] by {}
            assert(k.values[v] == q.values[v]);
            lemma_inline(k, w, t, r, c, at(0));
            lemma_inline(k, w, t, r, c, at(1));
            lemma_inline(k, w, t, r, c, at(2));
            lemma_inline(k, w, t, r, c, at(3));
            lemma_inline(k, w, t, r, c, at(4));
            assert(read_by(k, w, t, r, c, at(0)) == Item::Real(num(ZERO_BITS)));
            assert(read_by(k, w, t, r, c, at(1)) == Item::Real(num(ONE_BITS)));
            assert(read_by(k, w, t, r, c, at(2)) == Item::Real(exponential(x)));
            assert(read_by(k, w, t, r, c, at(3)) == Item::Real(
                minus(exponential(x), num(ONE_BITS)),
            ));
        },
        OpName::Relu => {
            assert(k.values[v] == q.values[v]);
            lemma_inline(k, w, t, r, c, at(0));
        },
        OpName::Gelu => {
            assert forall|i: int| 0 <= i < 12 implies #[trigger] k.values[v + i] == q.values[v
                + i] by {}
            assert(k.values[v] == q.values[v]);
            lemma_inline(k, w, t, r, c, at(0));
            lemma_inline(k, w, t, r, c, at(1));
            lemma_inline(k, w, t, r, c, at(2));
            lemma_inline(k, w, t, r, c, at(3));
            lemma_inline(k, w, t, r, c, at(4));
            lemma_inline(k, w, t, r, c, at(5));
            lemma_inline(k, w, t, r, c, at(6));
            lemma_inline(k, w, t, r, c, at(7));
            lemma_inline(k, w, t, r, c, at(8));
            lemma_inline(k, w, t, r, c, at(9));
            lemma_inline(k, w, t, r, c, at(10));
            lemma_inline(k, w, t, r, c, at(11));
            assert(read_by(k, w, t, r, c, at(4)) == Item::Real(times(x, x)));
            assert(read_by(k, w, t, r, c, at(5)) == Item::Real(times(times(x, x), x)));
            let cubic = times(times(times(x, x), x), num(GELU_CUBIC_BITS));
            assert(read_by(k, w, t, r, c, at(6)) == Item::Real(cubic));
            assert(read_by(k, w, t, r, c, at(7)) == Item::Real(plus(x, cubic)));
            assert(read_by(k, w, t, r, c, at(8)) == Item::Real(
                times(num(SQRT_FRAC_BITS), plus(x, cubic)),
            ));
            assert(read_by(k, w, t, r, c, at(9)) == Item::Real(gelu_tangent(x)));
        },
        _ => {},
    }
}

/// The code of an operation on one number computes it.
pub proof fn lemma_unary_runs(
    name: OpName,
    r0: RawView,
    out: ValueId,
    inp: ValueId,
    k: RawView,
    w: Place,
    s: Block,
    e: spec_fn(int, int) -> Expr,
) -> (t: Block)
    requires
        extends(unary_value(name, r0, out, inp).0, k),
        k.values.len() <= usize::MAX,
        out < r0.values.len(),
        inp < r0.values.len(),
        out != inp,
        !inlined(k.values[inp as int]),
        !s.stuck,
        quiet(k, s),
        hold(k, s, inp, e),
    ensures
        ({
            let (q, save) = unary_value(name, r0, out, inp);
            &&& advances(k, w, r0.ops.len(), q.ops.len(), s, t)
            &&& turned(
                k,
                s,
                t,
                r0.values.len(),
                out,
                |r: int, c: int| applied(name, e(r, c)),
            )
            &&& name == OpName::Gelu ==> forall|r: int, c: int| #[trigger]
                thread(k, r, c) ==> item(k, w, t, r, c, save) == Item::Real(
                    gelu_tangent(e(r, c)),
                )
        }),
{
    let q = unary_value(name, r0, out, inp).0;
    let p = r0.ops.len();
    let v = r0.values.len();
    let count = (q.ops.len() - p - 1) as nat;
    reveal(RawView::def);
    reveal(RawView::emit);
    assert(q.values.len() == v + count && q.ops.len() == p + count + 1);
    assert forall|i: int| 0 <= i < count implies k.ops[#[trigger] (p + i)] == (Op::DefineVar {
        id: (v + i) as usize,
    }) && !declared(k.values[v + i]) by {
        assert(k.ops[p + i] == q.ops[p + i]);
        assert(k.values[v + i] == q.values[v + i]);
    }
    lemma_names(k, w, s, p, v, count);
    let at = p + count;
    assert(k.ops[at as int] == q.ops[at as int]);
    let val = match q.ops[at as int] {
        Op::OverwriteVar { val, .. } => *val,
        _ => Op::Nop,
    };
    let f = |r: int, c: int| Item::Real(applied(name, e(r, c)));
    assert forall|i: int| v <= i < v + count implies #[trigger] k.values[i] == q.values[i] by {}
    assert forall|r: int, c: int| #[trigger] thread(k, r, c) implies result(
        k,
        w,
        s,
        r,
        c,
        val,
        any(),
    ) == f(r, c) by {
        assert(var(s, r, c, inp) == Item::Real(e(r, c)));
        lemma_unary_value(name, r0, out, inp, k, w, (s.threads)(r, c), r, c, e(r, c));
    }
    let t = lemma_assign(k, w, s, at, out, val, f);
    lemma_advance_on(k, w, p, at, at + 1, s, s, t);
    if name == OpName::Gelu {
        let save = unary_value(name, r0, out, inp).1;
        assert forall|r: int, c: int| #[trigger] thread(k, r, c) implies item(
            k,
            w,
            t,
            r,
            c,
            save,
        ) == Item::Real(gelu_tangent(e(r, c))) by {
            assert(var(t, r, c, inp) == Item::Real(e(r, c)));
            lemma_unary_value(name, r0, out, inp, k, w, (t.threads)(r, c), r, c, e(r, c));
        }
    }
    t
}

} // verus!
