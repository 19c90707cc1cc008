//! The optimizer keeps a kernel sound.

use vstd::prelude::*;

use crate::dispatch::backend::kernel::optimize::{
    closed_under, copy_all, dead_code, factors, fold_all, folds, fuse, fuse_all, invert, invert_all,
    optimized, pass, passes, reaches, refuse_all, refuse_sum, same_as, swept, terms, without_nops,
    without_writes, FloatExpr, OptFlags,
};
use crate::dispatch::backend::kernel::raw::RawView;
use crate::dispatch::backend::sound::marks::{covered, group_marks, within_marks};
use crate::dispatch::backend::sound::{
    expression, group_sound, lemma_level_prefix, lemma_sound_printable, level, shift, statement,
};
use crate::dispatch::backend::wgsl::source::printable;
use crate::dispatch::backend::{Op, Value, ValueId, ValueState};
use crate::scalar::Float32;

verus! {

/// Whether a kernel is sound and has as many values as another, with the same blocks open at its
/// end, and takes no parameter that is not marked.
pub open spec fn kept_sound(k: RawView, r: RawView, flags: Seq<bool>) -> bool {
    &&& r.sound()
    &&& r.level() == k.level()
    &&& r.values.len() == k.values.len()
    &&& r.marked(flags)
}

/// Whether a kernel can be optimized: it is sound, its values can be counted, and the parameters
/// that it takes are marked.
pub open spec fn steady(k: RawView, flags: Seq<bool>) -> bool {
    &&& k.sound()
    &&& k.values.len() <= usize::MAX
    &&& k.marked(flags)
}

/// What a definition of a sound kernel is.
proof fn lemma_definition(k: RawView, id: ValueId)
    requires
        k.sound(),
        k.values.len() <= usize::MAX,
        id < k.values.len(),
    ensures
        k.values[id as int].init matches Some(op) ==> expression(op, id as nat),
{
    reveal(RawView::built);
}

/// Another definition, which takes no parameter, keeps a kernel sound.
proof fn lemma_init_kept(k: RawView, id: ValueId, op: Op, flags: Seq<bool>)
    requires
        steady(k, flags),
        id < k.values.len(),
        expression(op, id as nat),
        covered(op, flags),
    ensures
        kept_sound(k, k.with_init(id, op), flags),
{
    broadcast use {group_sound, group_marks};

    reveal(RawView::with_init);
}

proof fn lemma_state_kept(k: RawView, id: ValueId, state: ValueState, flags: Seq<bool>)
    requires
        steady(k, flags),
        id < k.values.len(),
    ensures
        kept_sound(k, k.with_state(id, state), flags),
        forall|v: int|
            0 <= v < k.values.len() ==> (#[trigger] k.with_state(id, state).values[v]).init
                == k.values[v].init,
{
    broadcast use {group_sound, group_marks};

    reveal(RawView::with_state);
}

proof fn lemma_fuse_kept(k: RawView, id: ValueId, flags: Seq<bool>)
    requires
        steady(k, flags),
        id < k.values.len(),
    ensures
        kept_sound(k, fuse(k, id), flags),
{
    lemma_definition(k, id);
    match terms(k.values[id as int]) {
        Some((a, b)) => {
            lemma_definition(k, a);
            lemma_definition(k, b);
            match factors(k.values[a as int]) {
                Some((x, y)) => {
                    lemma_state_kept(k, a, ValueState::Masked, flags);
                    let m = k.with_state(a, ValueState::Masked);
                    lemma_init_kept(m, id, Op::Fma { a: x, b: y, c: b }, flags);
                },
                None => {
                    if factors(k.values[b as int]) is Some {
                        let (x, y) = factors(k.values[b as int])->0;
                        lemma_state_kept(k, b, ValueState::Masked, flags);
                        let m = k.with_state(b, ValueState::Masked);
                        lemma_init_kept(m, id, Op::Fma { a: x, b: y, c: a }, flags);
                    }
                },
            }
        },
        None => {},
    }
}

proof fn lemma_fuse_all_kept(k: RawView, n: nat, flags: Seq<bool>)
    requires
        steady(k, flags),
        n <= k.values.len(),
    ensures
        kept_sound(k, fuse_all(k, n), flags),
    decreases n,
{
    if n > 0 {
        lemma_fuse_all_kept(k, (n - 1) as nat, flags);
        lemma_fuse_kept(fuse_all(k, (n - 1) as nat), (n - 1) as usize, flags);
    }
}

proof fn lemma_refuse_kept(k: RawView, was: Value, id: ValueId, flags: Seq<bool>)
    requires
        steady(k, flags),
        id < k.values.len(),
        was.init matches Some(op) ==> expression(op, id as nat),
    ensures
        kept_sound(k, refuse_sum(k, was, id), flags),
{
    match terms(was) {
        Some((a, b)) => {
            lemma_definition(k, a);
            let m = match factors(k.values[a as int]) {
                Some((x, y)) => k.with_init(id, Op::Fma { a: x, b: y, c: b }),
                None => k,
            };
            if factors(k.values[a as int]) is Some {
                let (x, y) = factors(k.values[a as int])->0;
                lemma_init_kept(k, id, Op::Fma { a: x, b: y, c: b }, flags);
            }
            lemma_definition(m, b);
            if factors(m.values[b as int]) is Some {
                let (x, y) = factors(m.values[b as int])->0;
                lemma_init_kept(m, id, Op::Fma { a: x, b: y, c: a }, flags);
            }
        },
        None => {},
    }
}

proof fn lemma_refuse_all_kept(k: RawView, n: nat, flags: Seq<bool>)
    requires
        steady(k, flags),
        n <= k.values.len(),
    ensures
        kept_sound(k, refuse_all(k, n), flags),
    decreases n,
{
    if n > 0 {
        let id = (n - 1) as usize;
        lemma_refuse_all_kept(k, (n - 1) as nat, flags);
        lemma_definition(k, id);
        lemma_refuse_kept(refuse_all(k, (n - 1) as nat), k.values[n - 1], id, flags);
    }
}

proof fn lemma_invert_kept(
    k: RawView,
    was: Value,
    id: ValueId,
    t: spec_fn(FloatExpr) -> Float32,
    flags: Seq<bool>,
)
    requires
        steady(k, flags),
        id < k.values.len(),
        was.init matches Some(op) ==> expression(op, id as nat),
    ensures
        kept_sound(k, invert(k, was, id, t), flags),
{
    match was.init {
        Some(Op::Div { a, b }) => {
            match k.values[b as int].init {
                Some(Op::ConstF32 { value }) => {
                    let inverse = Op::ConstF32 { value: t(FloatExpr::Inverse(value)) };
                    lemma_init_kept(k, b, inverse, flags);
                    lemma_init_kept(k.with_init(b, inverse), id, Op::Mul { a, b }, flags);
                },
                _ => {},
            }
        },
        _ => {},
    }
}

proof fn lemma_invert_all_kept(
    k: RawView,
    n: nat,
    t: spec_fn(FloatExpr) -> Float32,
    flags: Seq<bool>,
)
    requires
        steady(k, flags),
        n <= k.values.len(),
    ensures
        kept_sound(k, invert_all(k, n, t), flags),
    decreases n,
{
    if n > 0 {
        let id = (n - 1) as usize;
        lemma_invert_all_kept(k, (n - 1) as nat, t, flags);
        lemma_definition(k, id);
        lemma_invert_kept(invert_all(k, (n - 1) as nat, t), k.values[n - 1], id, t, flags);
    }
}

proof fn lemma_fold_all_kept(
    k: RawView,
    n: nat,
    t: spec_fn(FloatExpr) -> Float32,
    flags: Seq<bool>,
)
    requires
        steady(k, flags),
        n <= k.values.len(),
    ensures
        kept_sound(k, fold_all(k, n, t), flags),
    decreases n,
{
    if n > 0 {
        let id = (n - 1) as usize;
        lemma_fold_all_kept(k, (n - 1) as nat, t, flags);
        let m = fold_all(k, (n - 1) as nat, t);
        match m.values[id as int].init {
            Some(op) => {
                if folds(m, op, t) is Some {
                    lemma_init_kept(m, id, folds(m, op, t)->0, flags);
                }
            },
            None => {},
        }
    }
}

proof fn lemma_copy_all_kept(k: RawView, n: nat, flags: Seq<bool>)
    requires
        steady(k, flags),
        n <= k.values.len(),
    ensures
        kept_sound(k, copy_all(k, n), flags),
    decreases n,
{
    if n > 0 {
        let id = (n - 1) as usize;
        lemma_copy_all_kept(k, (n - 1) as nat, flags);
        let m = copy_all(k, (n - 1) as nat);
        lemma_definition(m, id);
        match m.values[id as int].init {
            Some(op) => {
                if same_as(m, op) is Some {
                    lemma_init_kept(m, id, Op::CopyVar { id: same_as(m, op)->0 }, flags);
                }
            },
            None => {},
        }
    }
}

proof fn lemma_level_same(a: Seq<Op>, b: Seq<Op>, count: nat)
    requires
        a.len() == b.len(),
        count <= a.len(),
        forall|i: int| 0 <= i < a.len() ==> shift(#[trigger] b[i]) == shift(a[i]),
    ensures
        level(b, count) == level(a, count),
    decreases count,
{
    if count > 0 {
        lemma_level_same(a, b, (count - 1) as nat);
    }
}

proof fn lemma_writes_kept(k: RawView, id: ValueId, flags: Seq<bool>)
    requires
        steady(k, flags),
    ensures
        kept_sound(k, without_writes(k, id), flags),
        without_writes(k, id).values == k.values,
{
    reveal(RawView::built);
    reveal(RawView::level);
    reveal(RawView::marked);
    let r = without_writes(k, id);
    assert forall|i: int| 0 <= i < k.ops.len() implies shift(#[trigger] r.ops[i]) == shift(
        k.ops[i],
    ) by {}
    assert forall|c: nat| c <= r.ops.len() implies #[trigger] level(r.ops, c) >= 0 by {
        lemma_level_same(k.ops, r.ops, c);
        assert(level(k.ops, c) >= 0);
    }
    lemma_level_same(k.ops, r.ops, k.ops.len());
    assert forall|i: int| 0 <= i < r.ops.len() implies statement(
        #[trigger] r.ops[i],
        r.values.len(),
    ) && within_marks(r.ops[i], flags) by {
        assert(statement(k.ops[i], k.values.len()));
        assert(within_marks(k.ops[i], flags));
    }
}

proof fn lemma_dead_code_kept(k: RawView, n: nat, flags: Seq<bool>)
    requires
        steady(k, flags),
        n <= k.values.len(),
    ensures
        kept_sound(k, dead_code(k, n), flags),
    decreases n,
{
    if n > 0 {
        let id = (n - 1) as usize;
        lemma_dead_code_kept(k, (n - 1) as nat, flags);
        let m = dead_code(k, (n - 1) as nat);
        lemma_state_kept(m, id, ValueState::Masked, flags);
        lemma_writes_kept(m.with_state(id, ValueState::Masked), id, flags);
    }
}

/// Leaving out what does nothing keeps the level after each operation that is left.
proof fn lemma_nops_level(ops: Seq<Op>, n: nat)
    requires
        n <= ops.len(),
    ensures
        level(without_nops(ops, n), without_nops(ops, n).len()) == level(ops, n),
        forall|c: nat|
            c <= without_nops(ops, n).len() ==> exists|d: nat|
                d <= n && #[trigger] level(ops, d) == #[trigger] level(without_nops(ops, n), c),
        forall|i: int|
            0 <= i < without_nops(ops, n).len() ==> exists|j: int|
                0 <= j < n && #[trigger] without_nops(ops, n)[i] == #[trigger] ops[j],
    decreases n,
{
    let r = without_nops(ops, n);
    if n > 0 {
        let before = without_nops(ops, (n - 1) as nat);
        lemma_nops_level(ops, (n - 1) as nat);
        if !(ops[n - 1] is Nop) {
            assert(r == before.push(ops[n - 1]));
            assert forall|c: nat| c <= before.len() implies level(r, c) == level(before, c) by {
                lemma_level_prefix(before, ops[n - 1], c);
            }
            assert(r[r.len() - 1] == ops[n - 1]);
            assert(level(r, r.len()) == level(before, before.len()) + shift(ops[n - 1])) by {
                assert((r.len() - 1) as nat == before.len());
            }
        }
        assert forall|c: nat| c <= r.len() implies exists|d: nat|
            d <= n && #[trigger] level(ops, d) == #[trigger] level(r, c) by {
            if c <= before.len() {
                let d = choose|d: nat|
                    d <= n - 1 && #[trigger] level(ops, d) == #[trigger] level(before, c);
                assert(d <= n && level(ops, d) == level(r, c));
            } else {
                assert(level(ops, n) == level(r, c));
            }
        }
        assert forall|i: int| 0 <= i < r.len() implies exists|j: int|
            0 <= j < n && #[trigger] r[i] == #[trigger] ops[j] by {
            if i < before.len() {
                let j = choose|j: int|
                    0 <= j < n - 1 && #[trigger] before[i] == #[trigger] ops[j];
                assert(0 <= j < n && r[i] == ops[j]);
            } else {
                assert(r[i] == ops[n - 1]);
            }
        }
    } else {
        assert forall|c: nat| c <= r.len() implies exists|d: nat|
            d <= n && #[trigger] level(ops, d) == #[trigger] level(r, c) by {
            assert(level(ops, 0) == level(r, c));
        }
    }
}

proof fn lemma_nops_kept(k: RawView, flags: Seq<bool>)
    requires
        steady(k, flags),
    ensures
        kept_sound(k, (RawView { ops: without_nops(k.ops, k.ops.len()), ..k }), flags),
{
    reveal(RawView::built);
    reveal(RawView::level);
    reveal(RawView::marked);
    let ops = without_nops(k.ops, k.ops.len());
    let r = RawView { ops, ..k };
    lemma_nops_level(k.ops, k.ops.len());
    assert forall|c: nat| c <= r.ops.len() implies #[trigger] level(r.ops, c) >= 0 by {
        let d = choose|d: nat|
            d <= k.ops.len() && #[trigger] level(k.ops, d) == #[trigger] level(ops, c);
        assert(level(k.ops, d) >= 0);
    }
    assert forall|i: int| 0 <= i < r.ops.len() implies statement(
        #[trigger] r.ops[i],
        r.values.len(),
    ) && within_marks(r.ops[i], flags) by {
        let j = choose|j: int| 0 <= j < k.ops.len() && #[trigger] ops[i] == #[trigger] k.ops[j];
        assert(statement(k.ops[j], k.values.len()));
        assert(within_marks(k.ops[j], flags));
    }
}

proof fn lemma_swept_kept(k: RawView, opt: OptFlags, flags: Seq<bool>)
    requires
        steady(k, flags),
    ensures
        kept_sound(k, swept(k, opt), flags),
{
    lemma_dead_code_kept(k, k.values.len(), flags);
}

proof fn lemma_pass_kept(
    k: RawView,
    opt: OptFlags,
    t: spec_fn(FloatExpr) -> Float32,
    flags: Seq<bool>,
)
    requires
        steady(k, flags),
    ensures
        kept_sound(k, pass(k, opt, t), flags),
{
    let n = k.values.len();
    lemma_swept_kept(k, opt, flags);
    let k1 = swept(k, opt);
    lemma_fuse_all_kept(k1, n, flags);
    lemma_refuse_all_kept(fuse_all(k1, n), n, flags);
    let k2 = if opt.mul_add {
        refuse_all(fuse_all(k1, n), n)
    } else {
        k1
    };
    lemma_invert_all_kept(k2, n, t, flags);
    let k3 = if opt.div_const {
        invert_all(k2, n, t)
    } else {
        k2
    };
    lemma_fold_all_kept(k3, n, t, flags);
    let k4 = if opt.const_fold {
        fold_all(k3, n, t)
    } else {
        k3
    };
    lemma_copy_all_kept(k4, n, flags);
    let k5 = if opt.identity {
        copy_all(k4, n)
    } else {
        k4
    };
    lemma_nops_kept(k5, flags);
}

/// The optimizer keeps a kernel sound: values are defined by values before them, blocks that end
/// have begun, and no parameter is taken that was not marked.
pub proof fn lemma_optimized_sound(
    k: RawView,
    opt: OptFlags,
    count: nat,
    t: spec_fn(FloatExpr) -> Float32,
    flags: Seq<bool>,
)
    requires
        steady(k, flags),
    ensures
        kept_sound(k, passes(k, opt, count, t), flags),
        kept_sound(k, optimized(k, opt, count, t), flags),
    decreases count,
{
    if count > 0 {
        lemma_optimized_sound(k, opt, (count - 1) as nat, t, flags);
        lemma_pass_kept(passes(k, opt, (count - 1) as nat, t), opt, t, flags);
    }
    lemma_swept_kept(passes(k, opt, count, t), opt, flags);
}

/// A sound kernel can be optimized: its arithmetic reads values of the kernel only.
pub proof fn lemma_sound_closed(k: RawView)
    requires
        k.sound(),
        k.values.len() <= usize::MAX,
    ensures
        closed_under(k),
{
    assert forall|v: int| 0 <= v < k.values.len() implies ((
    #[trigger] k.values[v]).init matches Some(op) ==> reaches(op, k.values.len())) by {
        lemma_definition(k, v as usize);
    }
}

/// An optimized kernel can be written if the kernel was sound.
pub proof fn lemma_optimized_printable(
    k: RawView,
    opt: OptFlags,
    count: nat,
    t: spec_fn(FloatExpr) -> Float32,
    flags: Seq<bool>,
)
    requires
        steady(k, flags),
        optimized(k, opt, count, t).ops.len() <= usize::MAX,
    ensures
        printable(optimized(k, opt, count, t)),
{
    lemma_optimized_sound(k, opt, count, t, flags);
    lemma_sound_printable(optimized(k, opt, count, t));
}

} // verus!
