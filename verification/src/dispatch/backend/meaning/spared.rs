//! Which parameters the code of a node changes.

use vstd::prelude::*;

use crate::dispatch::backend::kernel::forward::{node_done, node_value};
use crate::dispatch::backend::kernel::frame::{has_operands, Operand, Scope};
use crate::dispatch::backend::kernel::raw::{LinkedView, RawView};
use crate::dispatch::backend::meaning::emitted::{lemma_stages_grow, stages};
use crate::dispatch::backend::meaning::facts::lemma_emit_keeps;
use crate::dispatch::backend::meaning::forward::is_joined;
use crate::dispatch::backend::meaning::fused::{
    fusible, lemma_node_grows, product_setting, saves, Scene,
};
use crate::dispatch::backend::meaning::changes;
use crate::dispatch::backend::meaning::product::zero;
use crate::dispatch::backend::std_lib::binary::{binary_lowering, binary_value};
use crate::dispatch::backend::std_lib::lowering;
use crate::dispatch::backend::std_lib::matmul::{
    matmul_lowering, product, tile_product, tile_round, Extent, Terms,
};
use crate::dispatch::backend::std_lib::unary::{unary_lowering, unary_value};
use crate::dispatch::backend::{
    DType, GraphOp, MetaId, NodeId, Op, OpName, ParamId, ValueId, ValueState,
};

verus! {

/// A definition changes no parameter.
pub broadcast proof fn lemma_new_keeps(
    r: RawView,
    dtype: DType,
    state: ValueState,
    init: Option<Op>,
    p: ParamId,
)
    ensures
        #[trigger] r.def(dtype, state, init).0.keeps(p) == r.keeps(p),
{
    reveal(RawView::def);
    reveal(RawView::keeps);
    let q = r.def(dtype, state, init).0;
    if q.keeps(p) {
        assert forall|i: int| 0 <= i < r.ops.len() implies !changes(#[trigger] r.ops[i], p) by {
            assert(q.ops[i] == r.ops[i]);
        }
    }
}

/// Shared memory changes no parameter.
broadcast proof fn lemma_share_keeps(r: RawView, dtype: DType, size: u32, p: ParamId)
    ensures
        #[trigger] r.share(dtype, size).0.keeps(p) == r.keeps(p),
{
    reveal(RawView::share);
    reveal(RawView::keeps);
}

/// A product changes the parameters that its factors change.
#[verifier::rlimit(40)]
#[verifier::spinoff_prover]
pub proof fn lemma_product_keeps(
    f: Scope,
    backward: bool,
    e: Extent,
    terms: Terms,
    out: ValueId,
    kernel: LinkedView,
    resolved: Seq<NodeId>,
    p: ParamId,
)
    requires
        f.placed(terms.a),
        f.placed(terms.b),
        product(f, backward, e, terms, out, kernel, resolved).nodes is Ok,
    ensures
        ({
            let s = stages(f, backward, e, terms, kernel, resolved);
            let l = product(f, backward, e, terms, out, kernel, resolved);
            &&& kernel.raw.keeps(p) ==> s.ka.raw.keeps(p)
            &&& s.a.kernel.raw.keeps(p) ==> s.kb.raw.keeps(p)
            &&& s.b.kernel.raw.keeps(p) ==> l.kernel.raw.keeps(p)
        }),
{
    broadcast use lemma_new_keeps, lemma_emit_keeps, lemma_share_keeps;

    lemma_stages_grow(f, backward, e, terms, out, kernel, resolved);
    let s = stages(f, backward, e, terms, kernel, resolved);
    let l = product(f, backward, e, terms, out, kernel, resolved);
    let (raw, a_tile) = kernel.raw.share(DType::Float, f.shared_size);
    let (raw, b_tile) = raw.share(DType::Float, f.shared_size);
    let (raw, one) = raw.inline_u(Op::ConstU32 { value: 1 });
    let (raw, tk) = raw.var_u(Op::ConstU32 { value: 0 });
    let (raw, tile_row) = raw.inline_u(Op::Mul { a: f.local_row, b: f.tile_size });
    let (raw, shared_idx) = raw.var_u(Op::Add { a: tile_row, b: f.local_col });
    let r0 = raw.emit(Op::ForLoopBegin { index: tk, end: e.k, step: f.tile_size });
    assert(kernel.raw.keeps(p) ==> r0.keeps(p));
    assert(r0.keeps(p) ==> s.ka.raw.keeps(p));
    let r1 = s.a.kernel.raw.emit(
        Op::SharedStore { mem: a_tile, index: shared_idx, value: s.a_val },
    );
    assert(s.a.kernel.raw.keeps(p) ==> r1.keeps(p));
    assert(r1.keeps(p) ==> s.kb.raw.keeps(p));
    let t = tile_round(
        f,
        backward,
        e,
        terms,
        (a_tile, b_tile),
        one,
        tk,
        shared_idx,
        out,
        LinkedView { raw: r0, ..kernel },
        resolved,
    );
    let r2 = s.b.kernel.raw.emit(
        Op::SharedStore { mem: b_tile, index: shared_idx, value: s.b_val },
    ).emit(Op::Barrier);
    assert(s.b.kernel.raw.keeps(p) ==> r2.keeps(p));
    let q = tile_product(r2, f, a_tile, b_tile, one, out).emit(Op::Barrier).emit(Op::EndScope);
    assert(l.kernel.raw == q);
    assert(r2.keeps(p) ==> q.keeps(p));
}

/// An operation on one operand changes no parameter.
pub proof fn lemma_unary_keeps(name: OpName, r: RawView, out: ValueId, inp: ValueId, p: ParamId)
    requires
        r.keeps(p),
    ensures
        unary_value(name, r, out, inp).0.keeps(p),
{
    broadcast use lemma_new_keeps, lemma_emit_keeps;


}

/// The code of a node changes only the parameters that it saves results in.
#[verifier::rlimit(40)]
#[verifier::spinoff_prover]
pub proof fn lemma_node_keeps(
    z: Scene,
    f: Scope,
    n: NodeId,
    out: ValueId,
    kernel: LinkedView,
    resolved: Seq<NodeId>,
    idx: ValueId,
    grid: Option<(MetaId, MetaId)>,
    p: ParamId,
)
    requires
        z.nodes == f.nodes,
        z.saved == f.saved_params,
        f.placed(Operand::Node(n)),
        forall|m: int| 0 <= m < f.nodes.len() ==> #[trigger] has_operands(f.nodes, m),
        fusible(f.nodes, n, grid),
        !f.claimed(resolved),
        node_value(f, Operand::Node(n), out, kernel, resolved, idx, grid is Some).nodes is Ok,
        !saves(z, n, grid, p),
        kernel.raw.keeps(p),
    ensures
        node_value(
            f,
            Operand::Node(n),
            out,
            kernel,
            resolved,
            idx,
            grid is Some,
        ).kernel.raw.keeps(p),
    decreases n,
{
    broadcast use lemma_new_keeps, lemma_emit_keeps;

    let op = f.node(n).op;
    let stable = grid is Some;
    let l = node_value(f, Operand::Node(n), out, kernel, resolved, idx, stable);
    let k = kernel.computes(op);
    if let GraphOp::Custom { lower, .. } = op {
        assert(has_operands(f.nodes, n as int));
        if !(op.transform() && !stable) {
            let u = lowering(f, None, n, out, k, resolved, idx, stable);
            let a = f.input(n, 0);
            let b = f.input(n, 1);
            assert(u.nodes is Ok);
            if lower == OpName::Matmul {
                let (e, terms, k4) = product_setting(f, n, out, k);
                assert(u == product(f, false, e, terms, out, k4, resolved)) by {
                    assert(u == matmul_lowering(f, None, n, out, k, resolved));
                }
                lemma_stages_grow(f, false, e, terms, out, k4, resolved);
                lemma_product_keeps(f, false, e, terms, out, k4, resolved, p);
                let s = stages(f, false, e, terms, k4, resolved);
                lemma_node_grows(f, a, s.a_val, s.ka, resolved, s.a_idx, None);
                lemma_node_keeps(z, f, a, s.a_val, s.ka, resolved, s.a_idx, None, p);
                lemma_node_keeps(z, f, b, s.b_val, s.kb, s.a.resolved, s.b_idx, None, p);
            } else if is_joined(lower) {
                assert(u == binary_lowering(lower, f, None, n, out, k, resolved, idx, stable));
                assert(u == binary_value(lower, f, n, out, k, resolved, idx, stable));
                let (k1, a_val) = k.def(DType::Float, ValueState::Mut, None);
                let x = node_value(f, Operand::Node(a), a_val, k1, resolved, idx, stable);
                lemma_node_grows(f, a, a_val, k1, resolved, idx, grid);
                lemma_node_keeps(z, f, a, a_val, k1, resolved, idx, grid, p);
                let (k2, b_val) = x.kernel.def(DType::Float, ValueState::Mut, None);
                lemma_node_keeps(z, f, b, b_val, k2, x.resolved, idx, grid, p);
            } else {
                assert(u == unary_lowering(lower, f, None, n, out, k, resolved, idx, stable));
                let (raw, upstream) = k.raw.var_f(zero());
                let k1 = LinkedView { raw, ..k };
                let x = node_value(f, Operand::Node(a), upstream, k1, resolved, idx, stable);
                lemma_node_keeps(z, f, a, upstream, k1, resolved, idx, grid, p);
                lemma_unary_keeps(lower, x.kernel.raw, out, upstream, p);
                assert(u.kernel.raw.keeps(p));
            }
            let own: Seq<NodeId> = if f.node(n).inputs@.len() > 0 {
                seq![n]
            } else {
                Seq::empty()
            };
            assert(l == node_done(f, n, out, u.kernel, u.resolved, idx, own + u.nodes->Ok_0));
        }
    }
}

} // verus!
