//! What the kernel of a softmax computes.

use vstd::prelude::*;

use crate::dispatch::backend::kernel::forward::node_value;
use crate::dispatch::backend::kernel::frame::{Lowered, Operand, Scope};
use crate::dispatch::backend::kernel::raw::{LinkedView, RawView};
use crate::dispatch::backend::meaning::extends;
use crate::dispatch::backend::meaning::lanes::{
    behind, comes, gathers, got, joined, known, lemma_comes_next, lemma_comes_none, lemma_comes_on,
    passes_by, seen, tread, Address, Calculus, Lane, Site, Slot,
};
use crate::dispatch::backend::meaning::rows::{
    best_laid, best_of, calm, divided, exp_laid, grounded, inverse_laid, laid, lemma_first_stage,
    lemma_strided_all, orderless, plain, power, raised_by, scale_laid, sits, stands, sum_set,
    takes_greatest, takes_sum, total, Row, Setting,
};
use crate::dispatch::backend::std_lib::softmax::{
    exp_loop, max_loop, reduction, row_setup, scale_loop, shared_row, softmax_lowering,
    softmax_value, stride_setup, SoftmaxRow,
};
use crate::dispatch::backend::{
    Axis, DType, GraphOp, NodeId, Op, ParamId, Value, ValueId, ValueState,
};
use crate::scalar::{Float32, MIN_BITS, ONE_BITS, ZERO_BITS};

verus! {

/// The parameter that a node is loaded from where a softmax reads it, if it is loaded.
pub open spec fn load_of(f: Scope, n: NodeId, resolved: Seq<NodeId>) -> Option<ParamId> {
    let op = f.node(n).op;
    match op {
        GraphOp::Input => f.node_params[n as int],
        GraphOp::ConstF32(_) => None,
        GraphOp::Custom { .. } => if (op.transform() || (op.dims_needed() && f.claimed(resolved)))
            && f.node(n).outputs@.len() > 0 {
            f.saved_params[n as int]
        } else {
            None
        },
    }
}

/// A node that is loaded is assigned from its parameter.
proof fn lemma_operand(
    f: Scope,
    n: NodeId,
    out: ValueId,
    kernel: LinkedView,
    resolved: Seq<NodeId>,
    idx: ValueId,
    input: ParamId,
)
    requires
        f.placed(Operand::Node(n)),
        load_of(f, n, resolved) == Some(input),
    ensures
        ({
            let l = node_value(f, Operand::Node(n), out, kernel, resolved, idx, false);
            &&& l.kernel.raw == kernel.raw.assign(out, Op::ParamLoad { param: input, index: idx })
            &&& l.nodes is Ok
            &&& load_of(f, n, l.resolved) == Some(input)
        }),
{
    reveal_with_fuel(node_value, 2);
}

/// A kernel that goes on from a definition has it.
proof fn lemma_def_in(
    r: RawView,
    dtype: DType,
    state: ValueState,
    init: Option<Op>,
    k: RawView,
)
    requires
        extends(r.def(dtype, state, init).0, k),
        k.small(),
    ensures
        extends(r, k),
        r.ops.len() < k.ops.len(),
        k.ops[r.ops.len() as int] == (Op::DefineVar { id: r.values.len() as usize }),
        r.values.len() < k.values.len(),
        k.values[r.values.len() as int] == (Value { state, dtype, init }),
        r.def(dtype, state, init).0.ops.len() == r.ops.len() + 1,
        r.def(dtype, state, init).0.values.len() == r.values.len() + 1,
        r.def(dtype, state, init).1 == r.values.len(),
{
    reveal(RawView::def);
    let q = r.def(dtype, state, init).0;
    assert(k.ops[r.ops.len() as int] == q.ops[r.ops.len() as int]);
    assert(k.values[r.values.len() as int] == q.values[r.values.len() as int]);
    assert forall|i: int| 0 <= i < r.values.len() implies #[trigger] k.values[i] == r.values[i] by {
        assert(q.values[i] == r.values[i]);
    }
    assert forall|i: int| 0 <= i < r.ops.len() implies #[trigger] k.ops[i] == r.ops[i] by {
        assert(q.ops[i] == r.ops[i]);
    }
}

/// A kernel that goes on from an operation has it.
proof fn lemma_emit_in(r: RawView, op: Op, k: RawView)
    requires
        extends(r.emit(op), k),
    ensures
        extends(r, k),
        r.ops.len() < k.ops.len(),
        k.ops[r.ops.len() as int] == op,
        r.emit(op).ops.len() == r.ops.len() + 1,
        r.emit(op).values.len() == r.values.len(),
{
    reveal(RawView::emit);
    let q = r.emit(op);
    assert(k.ops[r.ops.len() as int] == q.ops[r.ops.len() as int]);
    assert forall|i: int| 0 <= i < r.ops.len() implies #[trigger] k.ops[i] == r.ops[i] by {
        assert(q.ops[i] == r.ops[i]);
    }
}

/// A kernel that goes on from a shared buffer goes on from what was there before.
proof fn lemma_share_in(r: RawView, dtype: DType, size: u32, k: RawView)
    requires
        extends(r.share(dtype, size).0, k),
    ensures
        extends(r, k),
        r.share(dtype, size).0.ops == r.ops,
        r.share(dtype, size).0.values == r.values,
{
    reveal(RawView::share);
}

/// Whether the operand of a softmax is loaded from a parameter.
pub open spec fn takes_load(f: Scope, n: NodeId, resolved: Seq<NodeId>, input: ParamId) -> bool {
    &&& f.operable(n)
    &&& f.node(n).inputs@.len() >= 1
    &&& f.placed(Operand::Node(f.input(n, 0)))
    &&& load_of(f, f.input(n, 0), resolved) == Some(input)
}

/// The kernel once each thread has stored the greatest of its columns.
spec fn max_part(
    f: Scope,
    n: NodeId,
    s: SoftmaxRow,
    kernel: LinkedView,
    resolved: Seq<NodeId>,
) -> (RawView, LinkedView, Seq<NodeId>, ValueId) {
    let (raw, local_max) = kernel.raw.var_f(Op::ConstF32 { value: Float32 { bits: MIN_BITS } });
    let x = max_loop(f, n, s, local_max, LinkedView { raw, ..kernel }, resolved);
    (shared_row(x.kernel.raw, s, local_max), x.kernel, x.resolved, local_max)
}

#[verifier::spinoff_prover]
#[verifier::rlimit(60)]
proof fn lemma_max_part<N>(
    z: Setting<N>,
    f: Scope,
    n: NodeId,
    kernel: LinkedView,
    resolved: Seq<NodeId>,
)
    requires
        takes_load(f, n, resolved, z.h.input),
        extends(max_part(f, n, z.s, kernel, resolved).0, z.k),
        z.k.small(),
        z.p == kernel.raw.ops.len(),
        z.b == kernel.raw.values.len(),
        z.s.col < z.b,
        max_part(f, n, z.s, kernel, resolved).0.ops.len() < z.k.ops.len(),
    ensures
        z.max_laid(),
        extends(kernel.raw, z.k),
        max_part(f, n, z.s, kernel, resolved).3 == z.v(0),
        takes_load(f, n, max_part(f, n, z.s, kernel, resolved).2, z.h.input),
        max_part(f, n, z.s, kernel, resolved).0.ops.len() == z.p + 11,
        max_part(f, n, z.s, kernel, resolved).0.values.len() == z.b + 4,
{
    let (k, s) = (z.k, z.s);
    let init = Op::ConstF32 { value: Float32 { bits: MIN_BITS } };
    let r0 = kernel.raw;
    let (r1, lm) = r0.var_f(init);
    let head = Op::WhileLoopBegin { cond: Box::new(Op::Lt { a: s.col, b: s.cols }) };
    let r2 = r1.emit(head);
    let (r3, flat) = r2.inline_u(Op::Mul { a: s.row, b: s.cols });
    let (r4, idx) = r3.let_u(Op::Add { a: flat, b: s.col });
    let (r5, xv) = r4.def(DType::Float, ValueState::Mut, None);
    let load = Op::ParamLoad { param: z.h.input, index: idx };
    let r6 = r5.assign(xv, load);
    let r7 = r6.assign(lm, Op::Max { a: lm, b: xv });
    let r8 = r7.accum(s.col, Op::ConstU32 { value: s.step });
    let r9 = r8.emit(Op::EndScope);
    let r10 = r9.emit(Op::SharedStore { mem: s.scratch, index: s.tid, value: lm });
    let r11 = r10.emit(Op::Barrier);
    let part = max_part(f, n, s, kernel, resolved);
    assert(part.0 == r11 && part.3 == lm && load_of(f, f.input(n, 0), part.2) == Some(
        z.h.input,
    )) by {
        reveal_with_fuel(max_loop, 2);
        lemma_operand(
            f,
            f.input(n, 0),
            xv,
            LinkedView { raw: r5, ..kernel },
            resolved,
            idx,
            z.h.input,
        );
    }
    lemma_emit_in(r10, Op::Barrier, k);
    lemma_emit_in(r9, Op::SharedStore { mem: s.scratch, index: s.tid, value: lm }, k);
    lemma_emit_in(r8, Op::EndScope, k);
    lemma_emit_in(
        r7,
        Op::AddAssign { id: s.col, val: Box::new(Op::ConstU32 { value: s.step }) },
        k,
    );
    lemma_emit_in(r6, Op::OverwriteVar { id: lm, val: Box::new(Op::Max { a: lm, b: xv }) }, k);
    lemma_emit_in(r5, Op::OverwriteVar { id: xv, val: Box::new(load) }, k);
    lemma_def_in(r4, DType::Float, ValueState::Mut, None, k);
    lemma_def_in(
        r3,
        DType::UnsignedInt,
        ValueState::Immut,
        Some(Op::Add { a: flat, b: s.col }),
        k,
    );
    lemma_def_in(
        r2,
        DType::UnsignedInt,
        ValueState::Inline,
        Some(Op::Mul { a: s.row, b: s.cols }),
        k,
    );
    lemma_emit_in(r1, head, k);
    lemma_def_in(r0, DType::Float, ValueState::Mut, Some(init), k);
    assert(r11.ops.len() == z.p + 11);
    assert(lm == z.v(0) && flat == z.v(1) && idx == z.v(2) && xv == z.v(3));
    reveal(Setting::max_laid);
    assert(z.op(0) == k.ops[r0.ops.len() as int]);
    assert(z.op(6) == k.ops[r6.ops.len() as int]);
    assert(z.op(9) == k.ops[r9.ops.len() as int]);
    assert(z.op(10) == k.ops[r10.ops.len() as int]);
    assert(k.ops[(z.p + 1) as int] == head);
    assert(k.ops[(z.p + 1 + 1) as int] == k.ops[r2.ops.len() as int]);
    assert(k.ops[(z.p + 1 + 2) as int] == k.ops[r3.ops.len() as int]);
    assert(k.ops[(z.p + 4) as int] == k.ops[r4.ops.len() as int]);
    assert(k.ops[(z.p + 4 + 1) as int] == k.ops[r5.ops.len() as int]);
    assert(k.ops[(z.p + 7) as int] == k.ops[r7.ops.len() as int]);
    assert(k.ops[(z.p + 7 + 1) as int] == k.ops[r8.ops.len() as int]);
}

/// The kernel once all the threads know the greatest of the row.
spec fn best_part(r: RawView, s: SoftmaxRow) -> (RawView, ValueId, ValueId, ValueId) {
    let (r, stride_const, stride) = stride_setup(r, s);
    let r = reduction(r, s, stride, true);
    let (r, row_max) = r.let_f(Op::SharedLoad { mem: s.scratch, index: s.zero });
    (r.emit(Op::Barrier), stride_const, stride, row_max)
}

#[verifier::spinoff_prover]
#[verifier::rlimit(60)]
proof fn lemma_best_part<N>(z: Setting<N>, r0: RawView)
    requires
        extends(best_part(r0, z.s).0, z.k),
        z.k.small(),
        r0.ops.len() == z.p + 11,
        r0.values.len() == z.b + 4,
    ensures
        takes_greatest(z),
        best_laid(z),
        extends(r0, z.k),
        best_part(r0, z.s).1 == z.v(4),
        best_part(r0, z.s).2 == z.v(5),
        best_part(r0, z.s).3 == z.v(12),
        best_part(r0, z.s).0.ops.len() == z.p + 31,
        best_part(r0, z.s).0.values.len() == z.b + 13,
{
    let (k, s) = (z.k, z.s);
    let (r1, sc) = r0.def(
        DType::UnsignedInt,
        ValueState::Const,
        Some(Op::Shr { a: s.size, b: s.one }),
    );
    let (r2, st) = r1.var_u(Op::CopyVar { id: sc });
    let r3 = r2.emit(Op::ForeverLoopBegin);
    let (r4, less) = r3.inline_b(Op::Lt { a: s.tid, b: st });
    let r5 = r4.emit(Op::IfBegin { cond: less });
    let (r6, a1) = r5.inline_f(Op::SharedLoad { mem: s.scratch, index: s.tid });
    let (r7, a2) = r6.inline_u(Op::Add { a: st, b: s.tid });
    let (r8, a3) = r7.inline_f(Op::SharedLoad { mem: s.scratch, index: a2 });
    let (r9, a4) = r8.inline_f(Op::Max { a: a1, b: a3 });
    let store = Op::SharedStore { mem: s.scratch, index: s.tid, value: a4 };
    let r10 = r9.emit(store);
    let r11 = r10.emit(Op::EndScope);
    let r12 = r11.emit(Op::Barrier);
    let (r13, is) = r12.inline_b(Op::Eq { a: st, b: s.one });
    let r14 = r13.emit(Op::IfBegin { cond: is });
    let r15 = r14.emit(Op::Break);
    let r16 = r15.emit(Op::EndScope);
    let half = Op::OverwriteVar { id: st, val: Box::new(Op::Shr { a: st, b: s.one }) };
    let r17 = r16.emit(half);
    let r18 = r17.emit(Op::EndScope);
    let (r19, rm) = r18.let_f(Op::SharedLoad { mem: s.scratch, index: s.zero });
    let r20 = r19.emit(Op::Barrier);
    assert(best_part(r0, s) == (r20, sc, st, rm));
    lemma_emit_in(r19, Op::Barrier, k);
    lemma_def_in(
        r18,
        DType::Float,
        ValueState::Immut,
        Some(Op::SharedLoad { mem: s.scratch, index: s.zero }),
        k,
    );
    lemma_emit_in(r17, Op::EndScope, k);
    lemma_emit_in(r16, half, k);
    lemma_emit_in(r15, Op::EndScope, k);
    lemma_emit_in(r14, Op::Break, k);
    lemma_emit_in(r13, Op::IfBegin { cond: is }, k);
    lemma_def_in(r12, DType::Bool, ValueState::Inline, Some(Op::Eq { a: st, b: s.one }), k);
    lemma_emit_in(r11, Op::Barrier, k);
    lemma_emit_in(r10, Op::EndScope, k);
    lemma_emit_in(r9, store, k);
    lemma_def_in(r8, DType::Float, ValueState::Inline, Some(Op::Max { a: a1, b: a3 }), k);
    lemma_def_in(
        r7,
        DType::Float,
        ValueState::Inline,
        Some(Op::SharedLoad { mem: s.scratch, index: a2 }),
        k,
    );
    lemma_def_in(
        r6,
        DType::UnsignedInt,
        ValueState::Inline,
        Some(Op::Add { a: st, b: s.tid }),
        k,
    );
    lemma_def_in(
        r5,
        DType::Float,
        ValueState::Inline,
        Some(Op::SharedLoad { mem: s.scratch, index: s.tid }),
        k,
    );
    lemma_emit_in(r4, Op::IfBegin { cond: less }, k);
    lemma_def_in(r3, DType::Bool, ValueState::Inline, Some(Op::Lt { a: s.tid, b: st }), k);
    lemma_emit_in(r2, Op::ForeverLoopBegin, k);
    lemma_def_in(
        r1,
        DType::UnsignedInt,
        ValueState::Mut,
        Some(Op::CopyVar { id: sc }),
        k,
    );
    lemma_def_in(
        r0,
        DType::UnsignedInt,
        ValueState::Const,
        Some(Op::Shr { a: s.size, b: s.one }),
        k,
    );
    assert(sc == z.v(4) && st == z.v(5) && less == z.v(6) && a1 == z.v(7) && a2 == z.v(8) && a3
        == z.v(9) && a4 == z.v(10) && is == z.v(11) && rm == z.v(12));
    let q = z.p + 13;
    assert(z.op(11) == k.ops[r0.ops.len() as int]);
    assert(z.op(12) == k.ops[r1.ops.len() as int]);
    assert(k.ops[q as int] == k.ops[r2.ops.len() as int]);
    assert(k.ops[(q + 1) as int] == k.ops[r3.ops.len() as int]);
    assert(k.ops[(q + 2) as int] == k.ops[r4.ops.len() as int]);
    assert(z.op(16) == k.ops[r5.ops.len() as int]);
    assert(z.op(17) == k.ops[r6.ops.len() as int]);
    assert(z.op(18) == k.ops[r7.ops.len() as int]);
    assert(z.op(19) == k.ops[r8.ops.len() as int]);
    assert(z.op(20) == k.ops[r9.ops.len() as int]);
    let r = q + 4 + 5;
    assert(k.ops[(q + 4 + 4) as int] == k.ops[r10.ops.len() as int]);
    assert(k.ops[r as int] == k.ops[r11.ops.len() as int]);
    assert(k.ops[(r + 1) as int] == k.ops[r12.ops.len() as int]);
    assert(k.ops[(r + 2) as int] == k.ops[r13.ops.len() as int]);
    assert(k.ops[(r + 3) as int] == k.ops[r14.ops.len() as int]);
    assert(k.ops[(r + 4) as int] == k.ops[r15.ops.len() as int]);
    assert(k.ops[(r + 5) as int] == k.ops[r16.ops.len() as int]);
    assert(k.ops[(r + 6) as int] == k.ops[r17.ops.len() as int]);
    assert(z.op(29) == k.ops[r18.ops.len() as int]);
    assert(z.op(30) == k.ops[r19.ops.len() as int]);
    reveal(takes_greatest);
    reveal(best_laid);
}

/// The kernel once each thread has stored the exponentials of its columns, and their sum.
spec fn exp_part(
    f: Scope,
    n: NodeId,
    s: SoftmaxRow,
    row_max: ValueId,
    kernel: LinkedView,
    resolved: Seq<NodeId>,
) -> (RawView, Lowered) {
    let (raw, local_sum) = kernel.raw.var_f(Op::ConstF32 { value: Float32 { bits: ZERO_BITS } });
    let raw = raw.assign(s.col, Op::CopyVar { id: s.tid });
    let e = exp_loop(f, n, s, row_max, local_sum, LinkedView { raw, ..kernel }, resolved);
    (shared_row(e.kernel.raw, s, local_sum), e)
}

#[verifier::spinoff_prover]
#[verifier::rlimit(80)]
proof fn lemma_exp_part<N>(
    z: Setting<N>,
    f: Scope,
    n: NodeId,
    kernel: LinkedView,
    resolved: Seq<NodeId>,
)
    requires
        takes_load(f, n, resolved, z.h.input),
        z.output == f.node_params[n as int],
        extends(exp_part(f, n, z.s, z.v(12), kernel, resolved).0, z.k),
        exp_part(f, n, z.s, z.v(12), kernel, resolved).0.ops.len() < z.k.ops.len(),
        z.k.small(),
        kernel.raw.ops.len() == z.p + 31,
        kernel.raw.values.len() == z.b + 13,
        z.s.col < z.b,
        best_laid(z),
    ensures
        exp_laid(z),
        extends(kernel.raw, z.k),
        exp_part(f, n, z.s, z.v(12), kernel, resolved).1.nodes is Ok,
        exp_part(f, n, z.s, z.v(12), kernel, resolved).0.ops.len() == z.p + z.x() + 46,
        exp_part(f, n, z.s, z.v(12), kernel, resolved).0.values.len() == z.b + 19,
{
    let (k, s) = (z.k, z.s);
    let init = Op::ConstF32 { value: Float32 { bits: ZERO_BITS } };
    let r0 = kernel.raw;
    let (r1, ls) = r0.var_f(init);
    let reset = Op::OverwriteVar { id: s.col, val: Box::new(Op::CopyVar { id: s.tid }) };
    let r2 = r1.emit(reset);
    let head = Op::WhileLoopBegin { cond: Box::new(Op::Lt { a: s.col, b: s.cols }) };
    let r3 = r2.emit(head);
    let (r4, flat) = r3.inline_u(Op::Mul { a: s.row, b: s.cols });
    let (r5, idx) = r4.let_u(Op::Add { a: flat, b: s.col });
    let (r6, xv) = r5.def(DType::Float, ValueState::Mut, None);
    let load = Op::ParamLoad { param: z.h.input, index: idx };
    let r7 = r6.assign(xv, load);
    let (r8, diff) = r7.inline_f(Op::Sub { a: xv, b: z.v(12) });
    let (r9, e) = r8.let_f(Op::Exp { x: diff });
    let store = Op::ParamStore { param: s.saved, index: idx, value: e };
    let r10 = r9.emit(store);
    let second = Op::ParamStore {
        param: match z.output {
            Some(q) => q,
            None => 0,
        },
        index: idx,
        value: e,
    };
    let r11 = if z.output is Some {
        r10.emit(second)
    } else {
        r10
    };
    let grow = Op::AddAssign { id: ls, val: Box::new(Op::CopyVar { id: e }) };
    let r12 = r11.emit(grow);
    let step = Op::AddAssign { id: s.col, val: Box::new(Op::ConstU32 { value: s.step }) };
    let r13 = r12.emit(step);
    let r14 = r13.emit(Op::EndScope);
    let share = Op::SharedStore { mem: s.scratch, index: s.tid, value: ls };
    let r15 = r14.emit(share);
    let r16 = r15.emit(Op::Barrier);
    let part = exp_part(f, n, s, z.v(12), kernel, resolved);
    assert(part.0 == r16 && part.1.nodes is Ok) by {
        reveal_with_fuel(exp_loop, 2);
        lemma_operand(
            f,
            f.input(n, 0),
            xv,
            LinkedView { raw: r6, ..kernel },
            resolved,
            idx,
            z.h.input,
        );
    }
    lemma_emit_in(r15, Op::Barrier, k);
    lemma_emit_in(r14, share, k);
    lemma_emit_in(r13, Op::EndScope, k);
    lemma_emit_in(r12, step, k);
    lemma_emit_in(r11, grow, k);
    if z.output is Some {
        lemma_emit_in(r10, second, k);
    }
    lemma_emit_in(r9, store, k);
    lemma_def_in(r8, DType::Float, ValueState::Immut, Some(Op::Exp { x: diff }), k);
    lemma_def_in(
        r7,
        DType::Float,
        ValueState::Inline,
        Some(Op::Sub { a: xv, b: z.v(12) }),
        k,
    );
    lemma_emit_in(r6, Op::OverwriteVar { id: xv, val: Box::new(load) }, k);
    lemma_def_in(r5, DType::Float, ValueState::Mut, None, k);
    lemma_def_in(
        r4,
        DType::UnsignedInt,
        ValueState::Immut,
        Some(Op::Add { a: flat, b: s.col }),
        k,
    );
    lemma_def_in(
        r3,
        DType::UnsignedInt,
        ValueState::Inline,
        Some(Op::Mul { a: s.row, b: s.cols }),
        k,
    );
    lemma_emit_in(r2, head, k);
    lemma_emit_in(r1, reset, k);
    lemma_def_in(r0, DType::Float, ValueState::Mut, Some(init), k);
    assert(ls == z.v(13) && flat == z.v(14) && idx == z.v(15) && xv == z.v(16) && diff == z.v(17)
        && e == z.v(18));
    assert(z.op(31) == k.ops[r0.ops.len() as int]);
    assert(z.op(32) == k.ops[r1.ops.len() as int]);
    assert(k.ops[(z.p + 33) as int] == k.ops[r2.ops.len() as int]);
    assert(k.ops[(z.p + 33 + 1) as int] == k.ops[r3.ops.len() as int]);
    assert(k.ops[(z.p + 33 + 2) as int] == k.ops[r4.ops.len() as int]);
    assert(k.ops[(z.p + 36) as int] == k.ops[r5.ops.len() as int]);
    assert(k.ops[(z.p + 36 + 1) as int] == k.ops[r6.ops.len() as int]);
    assert(z.op(38) == k.ops[r7.ops.len() as int]);
    assert(z.op(39) == k.ops[r8.ops.len() as int]);
    assert(z.op(40) == k.ops[r9.ops.len() as int]);
    if z.output is Some {
        assert(z.op(41) == k.ops[r10.ops.len() as int]);
    }
    let x = z.x();
    assert(z.op(x + 41) == k.ops[r11.ops.len() as int]);
    assert(k.ops[(z.p + x + 42) as int] == k.ops[r12.ops.len() as int]);
    assert(k.ops[(z.p + x + 42 + 1) as int] == k.ops[r13.ops.len() as int]);
    assert(z.op(x + 44) == k.ops[r14.ops.len() as int]);
    assert(z.op(x + 45) == k.ops[r15.ops.len() as int]);
    reveal(exp_laid);
    reveal(best_laid);
}

/// The kernel once all the threads know one over the sum of the row.
spec fn sum_part(r: RawView, s: SoftmaxRow, stride_const: ValueId, stride: ValueId) -> (
    RawView,
    ValueId,
) {
    let r = r.assign(stride, Op::CopyVar { id: stride_const });
    let r = reduction(r, s, stride, false);
    let (r, row_sum) = r.inline_f(Op::SharedLoad { mem: s.scratch, index: s.zero });
    let (r, inv) = r.let_f(Op::Div { a: s.one_f, b: row_sum });
    (r.emit(Op::Barrier), inv)
}

#[verifier::spinoff_prover]
#[verifier::rlimit(80)]
proof fn lemma_sum_part<N>(z: Setting<N>, r0: RawView)
    requires
        extends(sum_part(r0, z.s, z.v(4), z.v(5)).0, z.k),
        z.k.small(),
        r0.ops.len() == z.p + z.x() + 46,
        r0.values.len() == z.b + 19,
        best_laid(z),
    ensures
        sum_set(z),
        takes_sum(z),
        inverse_laid(z),
        extends(r0, z.k),
        sum_part(r0, z.s, z.v(4), z.v(5)).1 == z.v(24),
        sum_part(r0, z.s, z.v(4), z.v(5)).0.ops.len() == z.p + z.x() + 64,
        sum_part(r0, z.s, z.v(4), z.v(5)).0.values.len() == z.b + 25,
{
    let (k, s) = (z.k, z.s);
    let st = z.v(5);
    let set = Op::OverwriteVar { id: st, val: Box::new(Op::CopyVar { id: z.v(4) }) };
    let r2 = r0.emit(set);
    let r3 = r2.emit(Op::ForeverLoopBegin);
    let (r4, less) = r3.inline_b(Op::Lt { a: s.tid, b: st });
    let r5 = r4.emit(Op::IfBegin { cond: less });
    let (r6, a2) = r5.inline_u(Op::Add { a: st, b: s.tid });
    let (r7, a3) = r6.inline_f(Op::SharedLoad { mem: s.scratch, index: a2 });
    let accum = Op::SharedAccum { mem: s.scratch, index: s.tid, value: a3 };
    let r10 = r7.emit(accum);
    let r11 = r10.emit(Op::EndScope);
    let r12 = r11.emit(Op::Barrier);
    let (r13, is) = r12.inline_b(Op::Eq { a: st, b: s.one });
    let r14 = r13.emit(Op::IfBegin { cond: is });
    let r15 = r14.emit(Op::Break);
    let r16 = r15.emit(Op::EndScope);
    let half = Op::OverwriteVar { id: st, val: Box::new(Op::Shr { a: st, b: s.one }) };
    let r17 = r16.emit(half);
    let r18 = r17.emit(Op::EndScope);
    let (r19, rs) = r18.inline_f(Op::SharedLoad { mem: s.scratch, index: s.zero });
    let (r20, inv) = r19.let_f(Op::Div { a: s.one_f, b: rs });
    let r21 = r20.emit(Op::Barrier);
    assert(sum_part(r0, s, z.v(4), st) == (r21, inv));
    lemma_emit_in(r20, Op::Barrier, k);
    lemma_def_in(r19, DType::Float, ValueState::Immut, Some(Op::Div { a: s.one_f, b: rs }), k);
    lemma_def_in(
        r18,
        DType::Float,
        ValueState::Inline,
        Some(Op::SharedLoad { mem: s.scratch, index: s.zero }),
        k,
    );
    lemma_emit_in(r17, Op::EndScope, k);
    lemma_emit_in(r16, half, k);
    lemma_emit_in(r15, Op::EndScope, k);
    lemma_emit_in(r14, Op::Break, k);
    lemma_emit_in(r13, Op::IfBegin { cond: is }, k);
    lemma_def_in(r12, DType::Bool, ValueState::Inline, Some(Op::Eq { a: st, b: s.one }), k);
    lemma_emit_in(r11, Op::Barrier, k);
    lemma_emit_in(r10, Op::EndScope, k);
    lemma_emit_in(r7, accum, k);
    lemma_def_in(
        r6,
        DType::Float,
        ValueState::Inline,
        Some(Op::SharedLoad { mem: s.scratch, index: a2 }),
        k,
    );
    lemma_def_in(
        r5,
        DType::UnsignedInt,
        ValueState::Inline,
        Some(Op::Add { a: st, b: s.tid }),
        k,
    );
    lemma_emit_in(r4, Op::IfBegin { cond: less }, k);
    lemma_def_in(r3, DType::Bool, ValueState::Inline, Some(Op::Lt { a: s.tid, b: st }), k);
    lemma_emit_in(r2, Op::ForeverLoopBegin, k);
    lemma_emit_in(r0, set, k);
    assert(less == z.v(19) && a2 == z.v(20) && a3 == z.v(21) && is == z.v(22) && rs == z.v(23)
        && inv == z.v(24));
    let x = z.x();
    let q = z.p + (x + 47);
    assert(z.op(x + 46) == k.ops[r0.ops.len() as int]);
    assert(k.ops[q as int] == k.ops[r2.ops.len() as int]);
    assert(k.ops[(q + 1) as int] == k.ops[r3.ops.len() as int]);
    assert(k.ops[(q + 2) as int] == k.ops[r4.ops.len() as int]);
    assert(z.op(x + 47 + 3) == k.ops[r5.ops.len() as int]);
    assert(z.op(x + 47 + 4) == k.ops[r6.ops.len() as int]);
    assert(z.op(x + 47 + 5) == k.ops[r7.ops.len() as int]);
    let r = q + 2 + 5;
    assert(k.ops[(q + 2 + 4) as int] == k.ops[r10.ops.len() as int]);
    assert(k.ops[r as int] == k.ops[r11.ops.len() as int]);
    assert(k.ops[(r + 1) as int] == k.ops[r12.ops.len() as int]);
    assert(k.ops[(r + 2) as int] == k.ops[r13.ops.len() as int]);
    assert(k.ops[(r + 3) as int] == k.ops[r14.ops.len() as int]);
    assert(k.ops[(r + 4) as int] == k.ops[r15.ops.len() as int]);
    assert(k.ops[(r + 5) as int] == k.ops[r16.ops.len() as int]);
    assert(k.ops[(r + 6) as int] == k.ops[r17.ops.len() as int]);
    assert(z.op(x + 61) == k.ops[r18.ops.len() as int]);
    assert(z.op(x + 62) == k.ops[r19.ops.len() as int]);
    assert(z.op(x + 63) == k.ops[r20.ops.len() as int]);
    reveal(best_laid);
    reveal(takes_sum);
    reveal(sum_set);
    reveal(inverse_laid);
}

/// The kernel once the stored row is divided by its sum.
spec fn scale_part(output: Option<ParamId>, s: SoftmaxRow, inv: ValueId, kernel: LinkedView) -> RawView {
    let raw = kernel.raw.assign(s.col, Op::CopyVar { id: s.tid });
    scale_loop(output, s, inv, LinkedView { raw, ..kernel }).raw
}

#[verifier::spinoff_prover]
#[verifier::rlimit(60)]
proof fn lemma_scale_part<N>(z: Setting<N>, kernel: LinkedView)
    requires
        extends(scale_part(z.output, z.s, z.v(24), kernel), z.k),
        z.k.small(),
        kernel.raw.ops.len() == z.p + z.x() + 64,
        kernel.raw.values.len() == z.b + 25,
        z.s.col < z.b,
        inverse_laid(z),
    ensures
        scale_laid(z),
        extends(kernel.raw, z.k),
        scale_part(z.output, z.s, z.v(24), kernel).ops.len() == z.p + 2 * z.x() + 71,
        scale_part(z.output, z.s, z.v(24), kernel).values.len() == z.b + 27,
{
    let (k, s) = (z.k, z.s);
    let r0 = kernel.raw;
    let reset = Op::OverwriteVar { id: s.col, val: Box::new(Op::CopyVar { id: s.tid }) };
    let r1 = r0.emit(reset);
    let head = Op::WhileLoopBegin { cond: Box::new(Op::Lt { a: s.col, b: s.cols }) };
    let r2 = r1.emit(head);
    let (r3, flat) = r2.inline_u(Op::Mul { a: s.row, b: s.cols });
    let (r4, idx) = r3.let_u(Op::Add { a: flat, b: s.col });
    let first = Op::ParamMul { param: s.saved, index: idx, value: z.v(24) };
    let r5 = r4.emit(first);
    let second = Op::ParamMul {
        param: match z.output {
            Some(q) => q,
            None => 0,
        },
        index: idx,
        value: z.v(24),
    };
    let r6 = if z.output is Some {
        r5.emit(second)
    } else {
        r5
    };
    let step = Op::AddAssign { id: s.col, val: Box::new(Op::ConstU32 { value: s.step }) };
    let r7 = r6.emit(step);
    let r8 = r7.emit(Op::EndScope);
    assert(scale_part(z.output, s, z.v(24), kernel) == r8);
    lemma_emit_in(r7, Op::EndScope, k);
    lemma_emit_in(r6, step, k);
    if z.output is Some {
        lemma_emit_in(r5, second, k);
    }
    lemma_emit_in(r4, first, k);
    lemma_def_in(
        r3,
        DType::UnsignedInt,
        ValueState::Immut,
        Some(Op::Add { a: flat, b: s.col }),
        k,
    );
    lemma_def_in(
        r2,
        DType::UnsignedInt,
        ValueState::Inline,
        Some(Op::Mul { a: s.row, b: s.cols }),
        k,
    );
    lemma_emit_in(r1, head, k);
    lemma_emit_in(r0, reset, k);
    assert(flat == z.v(25) && idx == z.v(26));
    let o = z.x() + 64;
    assert(z.op(o) == k.ops[r0.ops.len() as int]);
    assert(k.ops[(z.p + o + 1) as int] == k.ops[r1.ops.len() as int]);
    assert(k.ops[(z.p + o + 1 + 1) as int] == k.ops[r2.ops.len() as int]);
    assert(k.ops[(z.p + o + 1 + 2) as int] == k.ops[r3.ops.len() as int]);
    assert(z.op(o + 4) == k.ops[r4.ops.len() as int]);
    if z.output is Some {
        assert(z.op(o + 5) == k.ops[r5.ops.len() as int]);
    }
    assert(k.ops[(z.p + o + 5 + z.x()) as int] == k.ops[r6.ops.len() as int]);
    assert(k.ops[(z.p + o + 5 + z.x() + 1) as int] == k.ops[r7.ops.len() as int]);
    reveal(scale_laid);
    reveal(inverse_laid);
}

proof fn lemma_max_len(
    f: Scope,
    n: NodeId,
    s: SoftmaxRow,
    kernel: LinkedView,
    resolved: Seq<NodeId>,
    input: ParamId,
)
    requires
        takes_load(f, n, resolved, input),
    ensures
        ({
            let part = max_part(f, n, s, kernel, resolved);
            &&& part.0.ops.len() == kernel.raw.ops.len() + 11
            &&& part.0.values.len() == kernel.raw.values.len() + 4
            &&& takes_load(f, n, part.2, input)
        }),
{
    reveal_with_fuel(max_loop, 2);
    let (r1, lm) = kernel.raw.var_f(Op::ConstF32 { value: Float32 { bits: MIN_BITS } });
    let head = Op::WhileLoopBegin { cond: Box::new(Op::Lt { a: s.col, b: s.cols }) };
    let (r3, flat) = r1.emit(head).inline_u(Op::Mul { a: s.row, b: s.cols });
    let (r4, idx) = r3.let_u(Op::Add { a: flat, b: s.col });
    let (r5, xv) = r4.def(DType::Float, ValueState::Mut, None);
    lemma_operand(
        f,
        f.input(n, 0),
        xv,
        LinkedView { raw: r5, ..kernel },
        resolved,
        idx,
        input,
    );
    reveal(RawView::def);
    reveal(RawView::emit);
}

proof fn lemma_best_len(r: RawView, s: SoftmaxRow)
    ensures
        ({
            let part = best_part(r, s);
            &&& part.0.ops.len() == r.ops.len() + 20
            &&& part.0.values.len() == r.values.len() + 9
            &&& part.1 == r.values.len() as usize
            &&& part.2 == (r.values.len() + 1) as usize
            &&& part.3 == (r.values.len() + 8) as usize
        }),
{
    reveal(RawView::def);
    reveal(RawView::emit);
}

proof fn lemma_exp_len(
    f: Scope,
    n: NodeId,
    s: SoftmaxRow,
    row_max: ValueId,
    kernel: LinkedView,
    resolved: Seq<NodeId>,
    input: ParamId,
)
    requires
        takes_load(f, n, resolved, input),
    ensures
        ({
            let part = exp_part(f, n, s, row_max, kernel, resolved);
            &&& part.0.ops.len() == kernel.raw.ops.len() + 15 + if f.node_params[n as int] is Some {
                1int
            } else {
                0int
            }
            &&& part.0.values.len() == kernel.raw.values.len() + 6
            &&& part.1.nodes is Ok
        }),
{
    reveal_with_fuel(exp_loop, 2);
    let (r1, ls) = kernel.raw.var_f(Op::ConstF32 { value: Float32 { bits: ZERO_BITS } });
    let r2 = r1.assign(s.col, Op::CopyVar { id: s.tid });
    let head = Op::WhileLoopBegin { cond: Box::new(Op::Lt { a: s.col, b: s.cols }) };
    let (r3, flat) = r2.emit(head).inline_u(Op::Mul { a: s.row, b: s.cols });
    let (r4, idx) = r3.let_u(Op::Add { a: flat, b: s.col });
    let (r5, xv) = r4.def(DType::Float, ValueState::Mut, None);
    lemma_operand(
        f,
        f.input(n, 0),
        xv,
        LinkedView { raw: r5, ..kernel },
        resolved,
        idx,
        input,
    );
    reveal(RawView::def);
    reveal(RawView::emit);
}

proof fn lemma_sum_len(r: RawView, s: SoftmaxRow, stride_const: ValueId, stride: ValueId)
    ensures
        ({
            let part = sum_part(r, s, stride_const, stride);
            &&& part.0.ops.len() == r.ops.len() + 18
            &&& part.0.values.len() == r.values.len() + 6
            &&& part.1 == (r.values.len() + 5) as usize
        }),
{
    reveal(RawView::def);
    reveal(RawView::emit);
}

/// The values that all the stages of a softmax share are set up.
#[verifier::spinoff_prover]
#[verifier::rlimit(60)]
proof fn lemma_setup_part(f: Scope, n: NodeId, saved: ParamId, kernel: LinkedView, k: RawView)
    requires
        extends(row_setup(f, n, saved, kernel).0.raw, k),
        k.small(),
        f.local_col < kernel.raw.values.len(),
        plain(k, f.local_col),
    ensures
        ({
            let (q, s) = row_setup(f, n, saved, kernel);
            let (p, b) = (kernel.raw.ops.len(), kernel.raw.values.len());
            &&& grounded(k, s, b + 7)
            &&& extends(kernel.raw, k)
            &&& q.raw.ops.len() == p + 7
            &&& q.raw.values.len() == b + 7
            &&& p + 7 <= k.ops.len()
            &&& b + 7 <= k.values.len()
            &&& k.ops[p as int] == (Op::DefineVar { id: s.cols })
            &&& k.values[s.cols as int].init == Some(
                Op::ReadMeta { param: 0, field: f.node(n).shape@.last() },
            )
            &&& k.ops[(p + 1) as int] == (Op::DefineVar { id: s.size })
            &&& k.ops[(p + 2) as int] == (Op::DefineVar { id: s.zero })
            &&& k.ops[(p + 3) as int] == (Op::DefineVar { id: s.one })
            &&& k.ops[(p + 4) as int] == (Op::DefineVar { id: s.one_f })
            &&& k.ops[(p + 5) as int] == (Op::DefineVar { id: s.row })
            &&& k.values[s.row as int].init == Some(Op::BlockId { axis: Axis::X })
            &&& k.ops[(p + 6) as int] == (Op::DefineVar { id: s.col })
            &&& k.values[s.col as int].init == Some(Op::CopyVar { id: s.tid })
            &&& s.tid == f.local_col
            &&& s.step == f.shared_size
            &&& s.saved == saved
        }),
{
    let field = f.node(n).shape@.last();
    let r0 = kernel.raw;
    let (r1, cols) = r0.let_u(Op::ReadMeta { param: 0, field });
    let (r2, size) = r1.inline_u(Op::ConstU32 { value: f.shared_size });
    let (r3, zero) = r2.inline_u(Op::ConstU32 { value: 0 });
    let (r4, one) = r3.inline_u(Op::ConstU32 { value: 1 });
    let one_op = Op::ConstF32 { value: Float32 { bits: ONE_BITS } };
    let (r5, one_f) = r4.inline_f(one_op);
    let (r6, row) = r5.let_u(Op::BlockId { axis: Axis::X });
    let (r7, scratch) = r6.share(DType::Float, f.shared_size);
    let (r8, col) = r7.var_u(Op::CopyVar { id: f.local_col });
    assert(row_setup(f, n, saved, kernel).0.raw == r8);
    let u = DType::UnsignedInt;
    lemma_def_in(r7, u, ValueState::Mut, Some(Op::CopyVar { id: f.local_col }), k);
    lemma_share_in(r6, DType::Float, f.shared_size, k);
    lemma_def_in(r5, u, ValueState::Immut, Some(Op::BlockId { axis: Axis::X }), k);
    lemma_def_in(r4, DType::Float, ValueState::Inline, Some(one_op), k);
    lemma_def_in(r3, u, ValueState::Inline, Some(Op::ConstU32 { value: 1 }), k);
    lemma_def_in(r2, u, ValueState::Inline, Some(Op::ConstU32 { value: 0 }), k);
    lemma_def_in(r1, u, ValueState::Inline, Some(Op::ConstU32 { value: f.shared_size }), k);
    lemma_def_in(r0, u, ValueState::Immut, Some(Op::ReadMeta { param: 0, field }), k);
}

/// The setting of a softmax in a kernel.
pub open spec fn setting<N>(
    c: Calculus<N>,
    w: Site,
    k: RawView,
    f: Scope,
    n: NodeId,
    kernel: LinkedView,
    input: ParamId,
    x: spec_fn(int) -> N,
) -> Setting<N> {
    Setting {
        c,
        w,
        k,
        s: row_setup(f, n, f.saved_params[n as int]->0, kernel).1,
        h: Row {
            row: w.block,
            cols: w.fields[f.node(n).shape@.last() as int] as int,
            size: f.shared_size as int,
            input,
            x,
        },
        p: kernel.raw.ops.len() + 7,
        b: kernel.raw.values.len() + 7,
        output: f.node_params[n as int],
    }
}

/// The code of a softmax is where it should be.
proof fn lemma_laid<N>(
    z: Setting<N>,
    f: Scope,
    n: NodeId,
    kernel: LinkedView,
    resolved: Seq<NodeId>,
)
    requires
        takes_load(f, n, resolved, z.h.input),
        f.saved_params[n as int] is Some,
        z == setting(z.c, z.w, z.k, f, n, kernel, z.h.input, z.h.x),
        extends(softmax_lowering(f, None, n, kernel, resolved).kernel.raw, z.k),
        z.k.small(),
        f.local_col < kernel.raw.values.len(),
        plain(z.k, f.local_col),
    ensures
        laid(z),
        z.b + 27 <= usize::MAX,
        softmax_lowering(f, None, n, kernel, resolved).kernel.raw.ops.len() == z.p + 2 * z.x() + 71,
        extends(row_setup(f, n, f.saved_params[n as int]->0, kernel).0.raw, z.k),
{
    let saved = f.saved_params[n as int]->0;
    let (q0, s) = row_setup(f, n, saved, kernel);
    let k = z.k;
    assert(q0.raw.ops.len() == z.p && q0.raw.values.len() == z.b && s.col
        == (z.b - 1) as usize) by {
        reveal(RawView::def);
        reveal(RawView::share);
    }
    lemma_max_len(f, n, s, q0, resolved, z.h.input);
    let m = max_part(f, n, s, q0, resolved);
    lemma_best_len(m.0, s);
    let b = best_part(m.0, s);
    let k1 = LinkedView { raw: b.0, ..m.1 };
    lemma_exp_len(f, n, s, b.3, k1, m.2, z.h.input);
    let e = exp_part(f, n, s, b.3, k1, m.2);
    lemma_sum_len(e.0, s, b.1, b.2);
    let u = sum_part(e.0, s, b.1, b.2);
    let k2 = LinkedView { raw: u.0, ..e.1.kernel };
    let last = scale_part(z.output, s, u.1, k2);
    assert(softmax_lowering(f, None, n, kernel, resolved).kernel.raw == last) by {
        reveal_with_fuel(softmax_lowering, 2);
        reveal_with_fuel(softmax_value, 2);
    }
    assert(last.values.len() == z.b + 27 && last.ops.len() == z.p + 2 * z.x() + 71) by {
        reveal(RawView::def);
        reveal(RawView::emit);
    }
    lemma_parts(z, f, n, q0, resolved);
    lemma_setup_part(f, n, saved, kernel, k);
}

/// All the parts of a softmax are where they should be.
proof fn lemma_parts<N>(
    z: Setting<N>,
    f: Scope,
    n: NodeId,
    q0: LinkedView,
    resolved: Seq<NodeId>,
)
    requires
        takes_load(f, n, resolved, z.h.input),
        z.output == f.node_params[n as int],
        q0.raw.ops.len() == z.p,
        q0.raw.values.len() == z.b,
        z.b + 27 <= z.k.values.len(),
        z.k.small(),
        z.s.col < z.b,
        ({
            let m = max_part(f, n, z.s, q0, resolved);
            let b = best_part(m.0, z.s);
            let e = exp_part(f, n, z.s, b.3, LinkedView { raw: b.0, ..m.1 }, m.2);
            let u = sum_part(e.0, z.s, b.1, b.2);
            extends(
                scale_part(z.output, z.s, u.1, LinkedView { raw: u.0, ..e.1.kernel }),
                z.k,
            )
        }),
    ensures
        z.max_laid(),
        takes_greatest(z),
        best_laid(z),
        exp_laid(z),
        sum_set(z),
        takes_sum(z),
        inverse_laid(z),
        scale_laid(z),
        extends(q0.raw, z.k),
{
    let (k, s) = (z.k, z.s);
    lemma_max_len(f, n, s, q0, resolved, z.h.input);
    let m = max_part(f, n, s, q0, resolved);
    lemma_best_len(m.0, s);
    let b = best_part(m.0, s);
    let k1 = LinkedView { raw: b.0, ..m.1 };
    lemma_exp_len(f, n, s, b.3, k1, m.2, z.h.input);
    let e = exp_part(f, n, s, b.3, k1, m.2);
    lemma_sum_len(e.0, s, b.1, b.2);
    let u = sum_part(e.0, s, b.1, b.2);
    let k2 = LinkedView { raw: u.0, ..e.1.kernel };
    let last = scale_part(z.output, s, u.1, k2);
    assert(b.1 == z.v(4) && b.2 == z.v(5) && b.3 == z.v(12) && u.1 == z.v(24));
    assert(extends(k2.raw, last)) by {
        lemma_scale_grows(z.output, s, u.1, k2);
    }
    lemma_extends_on(k2.raw, last, k);
    assert(extends(e.0, u.0)) by {
        lemma_sum_grows(e.0, s, b.1, b.2);
    }
    lemma_extends_on(e.0, u.0, k);
    assert(extends(b.0, e.0)) by {
        lemma_exp_grows(f, n, s, b.3, k1, m.2, z.h.input);
    }
    lemma_extends_on(b.0, e.0, k);
    assert(extends(m.0, b.0)) by {
        lemma_best_grows(m.0, s);
    }
    lemma_extends_on(m.0, b.0, k);
    lemma_max_part(z, f, n, q0, resolved);
    lemma_best_part(z, m.0);
    lemma_exp_part(z, f, n, k1, m.2);
    lemma_sum_part(z, e.0);
    lemma_scale_part(z, k2);
}

proof fn lemma_extends_on(a: RawView, b: RawView, k: RawView)
    requires
        extends(a, b),
        extends(b, k),
    ensures
        extends(a, k),
{
    assert forall|i: int| 0 <= i < a.values.len() implies #[trigger] k.values[i] == a.values[i] by {
        assert(b.values[i] == a.values[i]);
    }
    assert forall|i: int| 0 <= i < a.ops.len() implies #[trigger] k.ops[i] == a.ops[i] by {
        assert(b.ops[i] == a.ops[i]);
    }
}

proof fn lemma_scale_grows(
    output: Option<ParamId>,
    s: SoftmaxRow,
    inv: ValueId,
    kernel: LinkedView,
)
    ensures
        extends(kernel.raw, scale_part(output, s, inv, kernel)),
{
    reveal(RawView::def);
    reveal(RawView::emit);
}

proof fn lemma_sum_grows(r: RawView, s: SoftmaxRow, stride_const: ValueId, stride: ValueId)
    ensures
        extends(r, sum_part(r, s, stride_const, stride).0),
{
    reveal(RawView::def);
    reveal(RawView::emit);
}

proof fn lemma_best_grows(r: RawView, s: SoftmaxRow)
    ensures
        extends(r, best_part(r, s).0),
{
    reveal(RawView::def);
    reveal(RawView::emit);
}

proof fn lemma_exp_grows(
    f: Scope,
    n: NodeId,
    s: SoftmaxRow,
    row_max: ValueId,
    kernel: LinkedView,
    resolved: Seq<NodeId>,
    input: ParamId,
)
    requires
        takes_load(f, n, resolved, input),
    ensures
        extends(kernel.raw, exp_part(f, n, s, row_max, kernel, resolved).0),
{
    reveal_with_fuel(exp_loop, 2);
    let (r1, ls) = kernel.raw.var_f(Op::ConstF32 { value: Float32 { bits: ZERO_BITS } });
    let r2 = r1.assign(s.col, Op::CopyVar { id: s.tid });
    let head = Op::WhileLoopBegin { cond: Box::new(Op::Lt { a: s.col, b: s.cols }) };
    let (r3, flat) = r2.emit(head).inline_u(Op::Mul { a: s.row, b: s.cols });
    let (r4, idx) = r3.let_u(Op::Add { a: flat, b: s.col });
    let (r5, xv) = r4.def(DType::Float, ValueState::Mut, None);
    lemma_operand(
        f,
        f.input(n, 0),
        xv,
        LinkedView { raw: r5, ..kernel },
        resolved,
        idx,
        input,
    );
    reveal(RawView::def);
    reveal(RawView::emit);
}

/// Whether the threads of a block are about to run a softmax: each knows its number, none has
/// touched anything, and the operand is in memory.
pub open spec fn begins<N>(
    f: Scope,
    kernel: LinkedView,
    h: Row<N>,
    lanes: spec_fn(int) -> Lane<N>,
) -> bool {
    &&& forall|t: int|
        0 <= t < h.size ==> {
            &&& (#[trigger] lanes(t)).at == kernel.raw.ops.len()
            &&& lanes(t).open == Seq::<nat>::empty()
            &&& !lanes(t).stuck
            &&& (lanes(t).vars)(f.local_col) == Slot::<N>::Int(t)
            &&& lanes(t).read == Set::<Address>::empty()
            &&& lanes(t).wrote == Set::<Address>::empty()
            &&& lanes(t).mem == lanes(0).mem
        }
    &&& forall|j: int|
        0 <= j < h.cols ==> (lanes(0).mem)(Address::Param(h.input, #[trigger] h.place(j)))
            == Slot::Num((h.x)(j))
}

/// What a thread has done when the values are set up that all the stages share.
spec fn set_up<N>(z: Setting<N>, t: int, l: Lane<N>, m: Lane<N>) -> bool {
    &&& comes(z.c, z.w, z.k, t, l, m)
    &&& m.at == z.p
    &&& m.open == l.open
    &&& sits(m, z.s, z.h, t)
    &&& (m.vars)(z.s.col) == Slot::<N>::Int(t)
    &&& m.mem == l.mem
    &&& m.read == l.read
    &&& m.wrote == l.wrote
}

spec fn set_up_lane<N>(z: Setting<N>, t: int, l: Lane<N>) -> Lane<N> {
    choose|m: Lane<N>| #[trigger] set_up(z, t, l, m)
}

proof fn lemma_set_up<N>(
    z: Setting<N>,
    f: Scope,
    n: NodeId,
    kernel: LinkedView,
    t: int,
    l: Lane<N>,
) -> (m: Lane<N>)
    requires
        z == setting(z.c, z.w, z.k, f, n, kernel, z.h.input, z.h.x),
        extends(row_setup(f, n, f.saved_params[n as int]->0, kernel).0.raw, z.k),
        z.k.small(),
        f.local_col < kernel.raw.values.len(),
        plain(z.k, f.local_col),
        l.at == kernel.raw.ops.len(),
        !l.stuck,
        (l.vars)(f.local_col) == Slot::<N>::Int(t),
    ensures
        set_up(z, t, l, m),
{
    let (c, w, k, s) = (z.c, z.w, z.k, z.s);
    lemma_setup_part(f, n, f.saved_params[n as int]->0, kernel, k);
    let p = kernel.raw.ops.len();
    lemma_comes_none(c, w, k, t, l);
    lemma_comes_next(c, w, k, t, l, l);
    let l1 = tread(c, w, k, t, l);
    assert((l1.vars)(s.cols) == Slot::<N>::Int(z.h.cols) && l1.read =~= l.read) by {
        reveal_with_fuel(got, 2);
    }
    lemma_comes_next(c, w, k, t, l, l1);
    let l2 = tread(c, w, k, t, l1);
    assert(k.ops[l1.at as int] == (Op::DefineVar { id: s.size }));
    lemma_comes_next(c, w, k, t, l, l2);
    let l3 = tread(c, w, k, t, l2);
    assert(k.ops[l2.at as int] == (Op::DefineVar { id: s.zero }));
    lemma_comes_next(c, w, k, t, l, l3);
    let l4 = tread(c, w, k, t, l3);
    assert(k.ops[l3.at as int] == (Op::DefineVar { id: s.one }));
    lemma_comes_next(c, w, k, t, l, l4);
    let l5 = tread(c, w, k, t, l4);
    assert(k.ops[l4.at as int] == (Op::DefineVar { id: s.one_f }));
    assert(l5.at == p + 5 && l5.vars == l1.vars && l5.read == l1.read);
    lemma_comes_next(c, w, k, t, l, l5);
    let l6 = tread(c, w, k, t, l5);
    assert(k.ops[l5.at as int] == (Op::DefineVar { id: s.row }));
    assert((l6.vars)(s.row) == Slot::<N>::Int(z.h.row) && l6.read =~= l.read) by {
        reveal_with_fuel(got, 2);
    }
    lemma_comes_next(c, w, k, t, l, l6);
    let m = tread(c, w, k, t, l6);
    assert(k.ops[l6.at as int] == (Op::DefineVar { id: s.col }));
    assert(seen(c, w, k, t, l6, s.tid) == known(Slot::<N>::Int(t)));
    assert(got(c, w, k, t, l6, Op::CopyVar { id: s.tid }, s.col as nat) == known(
        Slot::<N>::Int(t),
    ));
    assert(m.read =~= l.read);
    m
}

proof fn lemma_passes_from<N>(
    z: Setting<N>,
    a: spec_fn(int) -> Lane<N>,
    m: spec_fn(int) -> Lane<N>,
    b: spec_fn(int) -> Lane<N>,
    n: nat,
)
    requires
        forall|t: int| 0 <= t < z.h.size ==> comes(z.c, z.w, z.k, t, a(t), #[trigger] m(t)),
        passes_by(z.c, z.w, z.k, z.h.size, m, b, n),
    ensures
        passes_by(z.c, z.w, z.k, z.h.size, a, b, n),
{
    let (c, w, k, size) = (z.c, z.w, z.k, z.h.size);
    if n == 0 {
        assert forall|t: int| 0 <= t < size implies comes(c, w, k, t, a(t), #[trigger] b(t)) by {
            assert(comes(c, w, k, t, a(t), m(t)));
            lemma_comes_on(c, w, k, t, a(t), m(t), b(t));
        }
    } else {
        let g = choose|g: spec_fn(int) -> Lane<N>| #[trigger]
            gathers(c, w, k, size, m, g) && passes_by(
                c,
                w,
                k,
                size,
                behind(size, g),
                b,
                (n - 1) as nat,
            );
        assert(gathers(c, w, k, size, a, g)) by {
            assert forall|t: int| 0 <= t < size implies comes(c, w, k, t, a(t), #[trigger] g(t)) by {
                assert(comes(c, w, k, t, a(t), m(t)));
                lemma_comes_on(c, w, k, t, a(t), m(t), g(t));
            }
        }
    }
}

/// The greatest operand of a row.
pub open spec fn row_best<N>(c: Calculus<N>, x: spec_fn(int) -> N, cols: nat) -> N {
    total(c.greatest, (c.number)(MIN_BITS), x, cols)
}

/// The softmax of a row: the exponential of each operand less the greatest of the row, over the sum
/// of them all.
pub open spec fn softened<N>(c: Calculus<N>, x: spec_fn(int) -> N, cols: nat) -> spec_fn(int) -> N {
    let raised = raised_by(c, x, row_best(c, x, cols));
    let sum = total(c.plus, (c.number)(ZERO_BITS), raised, cols);
    |j: int| (c.times)(raised(j), (c.over)((c.number)(ONE_BITS), sum))
}

/// A softmax, run by all the threads of a block on one row with any number of columns: the threads
/// come to its end, without getting in the way of each other, every column is written by exactly one
/// of them, and in every column there is the exponential of the operand less the greatest of the
/// row, over the sum of all the exponentials of the row. Nothing else of the parameters is changed.
///
/// The operand is loaded from a parameter, the number of threads is a power of two, two at least,
/// and it is of no account in which order numbers are added, nor in which order the greatest is
/// found.
pub proof fn lemma_softmax_row<N>(
    c: Calculus<N>,
    w: Site,
    k: RawView,
    f: Scope,
    n: NodeId,
    kernel: LinkedView,
    resolved: Seq<NodeId>,
    input: ParamId,
    x: spec_fn(int) -> N,
    lanes: spec_fn(int) -> Lane<N>,
) -> (r: (spec_fn(int) -> Lane<N>, nat))
    requires
        takes_load(f, n, resolved, input),
        f.saved_params[n as int] is Some,
        f.saved_params[n as int] != Some(input),
        f.node_params[n as int] != Some(input),
        f.node_params[n as int] != f.saved_params[n as int],
        extends(softmax_lowering(f, None, n, kernel, resolved).kernel.raw, k),
        k.small(),
        f.local_col < kernel.raw.values.len(),
        plain(k, f.local_col),
        setting(c, w, k, f, n, kernel, input, x).h.sized(),
        power(f.shared_size as int),
        f.shared_size >= 2,
        orderless(c),
        begins(f, kernel, setting(c, w, k, f, n, kernel, input, x).h, lanes),
    ensures
        ({
            let h = setting(c, w, k, f, n, kernel, input, x).h;
            let after = joined(h.size, r.0);
            let end = softmax_lowering(f, None, n, kernel, resolved).kernel.raw.ops.len();
            &&& passes_by(c, w, k, h.size, lanes, r.0, r.1)
            &&& forall|t: int| 0 <= t < h.size ==> (#[trigger] r.0(t)).at == end
            &&& forall|t: int, p: ParamId, j: int|
                0 <= t < h.size && f.saved_params[n as int] == Some(p) && 0 <= j < h.cols ==> (
                #[trigger] r.0(t).wrote.contains(Address::Param(p, h.place(j))) <==> t == j
                    % h.size)
            &&& forall|p: ParamId, j: int|
                (f.saved_params[n as int] == Some(p) || f.node_params[n as int] == Some(p)) && 0
                    <= j < h.cols ==> #[trigger] after(Address::Param(p, h.place(j))) == Slot::Num(
                    softened(c, x, h.cols as nat)(j),
                )
            &&& forall|p: ParamId, i: int|
                !((f.saved_params[n as int] == Some(p) || f.node_params[n as int] == Some(p))
                    && h.place(0) <= i < h.place(h.cols)) ==> #[trigger] after(Address::Param(p, i))
                    == (lanes(0).mem)(Address::Param(p, i))
        }),
{
    let z = setting(c, w, k, f, n, kernel, input, x);
    lemma_laid(z, f, n, kernel, resolved);
    let size = z.h.size;
    let m = |t: int| set_up_lane(z, t, lanes(t));
    assert forall|t: int| 0 <= t < size implies set_up(z, t, lanes(t), #[trigger] m(t)) by {
        let l = lemma_set_up(z, f, n, kernel, t, lanes(t));
        assert(set_up(z, t, lanes(t), l));
    }
    assert(stands(z, m, z.p)) by {
        assert(set_up(z, 0, lanes(0), m(0)));
        assert forall|t: int| 0 <= t < size implies {
            &&& sits(#[trigger] m(t), z.s, z.h, t)
            &&& m(t).at == z.p
            &&& m(t).open == Seq::<nat>::empty()
            &&& calm(z, m(t), t)
            &&& m(t).mem == m(0).mem
        } by {
            assert(set_up(z, t, lanes(t), m(t)));
        }
    }
    let (b, count) = lemma_first_stage(z, m);
    lemma_passes_from(z, lanes, m, b, count);
    assert(set_up(z, 0, lanes(0), m(0)));
    let cols = z.h.cols as nat;
    let best = row_best(c, x, cols);
    assert(best_of(z, 0, 1) == best) by {
        lemma_strided_all(c.greatest, (c.number)(MIN_BITS), x, cols);
    }
    let raised = raised_by(c, x, best);
    lemma_strided_all(c.plus, (c.number)(ZERO_BITS), raised, cols);
    assert forall|j: int| #[trigger] divided(z, best)(j) == softened(c, x, cols)(j) by {}
    (b, count)
}

/// Whether products distribute over sums of numbers, and a number that is not zero times one over
/// it is one.
pub open spec fn divisible<N>(c: Calculus<N>) -> bool {
    &&& forall|a: N, b: N, d: N| #[trigger]
        (c.times)((c.plus)(a, b), d) == (c.plus)((c.times)(a, d), (c.times)(b, d))
    &&& forall|d: N| #[trigger]
        (c.times)((c.number)(ZERO_BITS), d) == (c.number)(ZERO_BITS)
    &&& forall|a: N|
        a != (c.number)(ZERO_BITS) ==> (c.times)(
            a,
            #[trigger] (c.over)((c.number)(ONE_BITS), a),
        ) == (c.number)(ONE_BITS)
}

/// The softmax of a row adds up to one, unless the exponentials add up to nothing.
pub proof fn lemma_softmax_sums_to_one<N>(c: Calculus<N>, x: spec_fn(int) -> N, cols: nat)
    requires
        divisible(c),
        total(
            c.plus,
            (c.number)(ZERO_BITS),
            raised_by(c, x, row_best(c, x, cols)),
            cols,
        ) != (c.number)(ZERO_BITS),
    ensures
        total(c.plus, (c.number)(ZERO_BITS), softened(c, x, cols), cols) == (c.number)(ONE_BITS),
{
    let raised = raised_by(c, x, row_best(c, x, cols));
    let sum = total(c.plus, (c.number)(ZERO_BITS), raised, cols);
    let by = (c.over)((c.number)(ONE_BITS), sum);
    lemma_total_times(c, raised, softened(c, x, cols), by, cols);
}

proof fn lemma_total_times<N>(
    c: Calculus<N>,
    y: spec_fn(int) -> N,
    scaled: spec_fn(int) -> N,
    by: N,
    n: nat,
)
    requires
        divisible(c),
        forall|j: int| #[trigger] scaled(j) == (c.times)(y(j), by),
    ensures
        total(c.plus, (c.number)(ZERO_BITS), scaled, n) == (c.times)(
            total(c.plus, (c.number)(ZERO_BITS), y, n),
            by,
        ),
    decreases n,
{
    if n > 0 {
        lemma_total_times(c, y, scaled, by, (n - 1) as nat);
        let before = total(c.plus, (c.number)(ZERO_BITS), y, (n - 1) as nat);
        assert((c.times)((c.plus)(before, y(n - 1)), by) == (c.plus)(
            (c.times)(before, by),
            (c.times)(y(n - 1), by),
        ));
        assert(scaled(n - 1) == (c.times)(y(n - 1), by));
    }
}

} // verus!
