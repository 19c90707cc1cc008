//! A kernel that has just been opened.

use vstd::prelude::*;

use crate::dispatch::backend::kernel::index::{
    blank, dim_values, index_step, index_steps, opened, IndexVars,
};
use crate::dispatch::backend::kernel::raw::{LinkedView, RawView};
use crate::dispatch::backend::meaning::{changes, conditions, straight_op};
use crate::dispatch::backend::meaning::facts::group_meaning;
use crate::dispatch::backend::sound::group_sound;
use crate::dispatch::backend::sound::pass::{
    lemma_blank_sound, lemma_dim_values_sound, lemma_index_step_sound, lemma_index_steps_sound,
    lemma_opened_sound,
};
use crate::dispatch::backend::wgsl::source::form;
use crate::dispatch::backend::{
    Axis, DType, MetaId, Metadata, NodeId, Op, ParamId, ValueId, ValueState,
};

verus! {

/// Whether an operation neither branches nor changes a buffer.
pub open spec fn flat_op(op: Op) -> bool {
    straight_op(op) && match op {
        Op::IfBegin { .. } | Op::ElseBegin | Op::EndScope => false,
        _ => !(form(op) is Write),
    }
}

impl RawView {
    /// Whether a kernel neither branches nor changes a buffer.
    #[verifier::opaque]
    pub open spec fn flat(self) -> bool {
        forall|i: int| 0 <= i < self.ops.len() ==> flat_op(#[trigger] self.ops[i])
    }
}

proof fn lemma_flat_conditions(r: RawView, count: nat)
    requires
        r.flat(),
        count <= r.ops.len(),
    ensures
        conditions(r, count).0.len() == 0,
    decreases count,
{
    reveal(RawView::flat);
    if count > 0 {
        lemma_flat_conditions(r, (count - 1) as nat);
        assert(flat_op(r.ops[count - 1]));
    }
}

/// A flat kernel has no block open, and has changed no parameter.
pub proof fn lemma_flat(r: RawView)
    requires
        r.flat(),
    ensures
        r.guards().len() == 0,
        r.straight(),
        forall|p: ParamId| #[trigger] r.keeps(p),
{
    reveal(RawView::guards);
    reveal(RawView::straight);
    reveal(RawView::keeps);
    lemma_flat_conditions(r, r.ops.len());
    assert forall|i: int| 0 <= i < r.ops.len() implies straight_op(#[trigger] r.ops[i]) by {
        reveal(RawView::flat);
        assert(flat_op(r.ops[i]));
    }
    assert forall|p: ParamId, i: int| 0 <= i < r.ops.len() implies !#[trigger] changes(
        r.ops[i],
        p,
    ) by {
        reveal(RawView::flat);
        assert(flat_op(r.ops[i]));
    }
}

/// A definition keeps a kernel flat.
pub broadcast proof fn lemma_def_flat(
    r: RawView,
    dtype: DType,
    state: ValueState,
    init: Option<Op>,
)
    requires
        r.flat(),
    ensures
        #[trigger] r.def(dtype, state, init).0.flat(),
{
    reveal(RawView::def);
    reveal(RawView::flat);
    let q = r.def(dtype, state, init).0;
    assert forall|i: int| 0 <= i < q.ops.len() implies flat_op(#[trigger] q.ops[i]) by {
        if i < r.ops.len() {
            assert(q.ops[i] == r.ops[i]);
        }
    }
}

/// A flat operation keeps a kernel flat.
pub broadcast proof fn lemma_emit_flat(r: RawView, op: Op)
    requires
        r.flat(),
        flat_op(op),
    ensures
        #[trigger] r.emit(op).flat(),
{
    reveal(RawView::emit);
    reveal(RawView::flat);
    let q = r.emit(op);
    assert forall|i: int| 0 <= i < q.ops.len() implies flat_op(#[trigger] q.ops[i]) by {
        if i < r.ops.len() {
            assert(q.ops[i] == r.ops[i]);
        }
    }
}

/// Another state keeps a kernel flat.
pub broadcast proof fn lemma_state_flat(r: RawView, id: ValueId, state: ValueState)
    requires
        r.flat(),
    ensures
        #[trigger] r.with_state(id, state).flat(),
{
    reveal(RawView::with_state);
    reveal(RawView::flat);
}

/// Another state than that of a name makes no value a name.
pub broadcast proof fn lemma_state_solid(r: RawView, id: ValueId, state: ValueState, j: ValueId)
    requires
        r.solid(j),
        !(state is Inline),
        id < r.span(),
    ensures
        #[trigger] r.with_state(id, state).solid(j),
{
    reveal(RawView::with_state);
    reveal(RawView::apart);
}

/// What keeps a kernel flat.
pub broadcast group group_flat {
    lemma_def_flat,
    lemma_emit_flat,
    lemma_state_flat,
    lemma_state_solid,
}

proof fn lemma_dim_values_flat(kernel: LinkedView, shape: Seq<MetaId>, count: nat)
    requires
        kernel.raw.flat(),
    ensures
        dim_values(kernel, shape, count).0.raw.flat(),
    decreases count,
{
    broadcast use group_flat;

    if count > 0 {
        lemma_dim_values_flat(kernel, shape, (count - 1) as nat);
    }
}

proof fn lemma_index_step_flat(
    r: RawView,
    v: IndexVars,
    base: ValueId,
    i: int,
    dim: ValueId,
    backward: bool,
    j: ValueId,
)
    requires
        r.sound(),
        r.flat(),
        r.solid(j),
        base < r.span(),
        v.gid < r.span(),
        v.gid2 < r.span(),
        v.total < r.span(),
        dim < r.span(),
    ensures
        index_step(r, v, base, i, dim, backward).0.flat(),
        index_step(r, v, base, i, dim, backward).0.solid(j),
{
    broadcast use {group_flat, group_sound, group_meaning};

    lemma_index_step_sound(r, v, base, i, dim, backward);
}

proof fn lemma_index_steps_flat(
    r: RawView,
    v: IndexVars,
    base: ValueId,
    dims: Seq<ValueId>,
    upto: nat,
    backward: bool,
    j: ValueId,
)
    requires
        r.sound(),
        r.flat(),
        r.solid(j),
        v.gid < r.span(),
        v.gid2 < r.span(),
        v.total < r.span(),
        base < r.span(),
        upto <= dims.len(),
        forall|i: int| 0 <= i < dims.len() ==> #[trigger] dims[i] < r.span(),
    ensures
        index_steps(r, v, base, dims, upto, backward).0.flat(),
        index_steps(r, v, base, dims, upto, backward).0.solid(j),
    decreases upto,
{
    if upto > 1 {
        lemma_index_steps_flat(r, v, base, dims, (upto - 1) as nat, backward, j);
        lemma_index_steps_sound(r, v, base, dims, (upto - 1) as nat, backward);
        let (q, next) = index_steps(r, v, base, dims, (upto - 1) as nat, backward);
        assert(dims[upto - 1] < r.span());
        lemma_index_step_flat(q, v, next, upto - 1, dims[upto - 1], backward, j);
    }
}

/// An opened kernel neither branches nor changes a buffer, and its index is a variable.
pub proof fn lemma_opened_flat(
    meta: Metadata,
    params: nat,
    block: Seq<u32>,
    root: NodeId,
    shape: Seq<MetaId>,
    backward: bool,
)
    requires
        params >= 1,
        shape.len() >= 1,
        forall|i: int| 0 <= i < shape.len() ==> #[trigger] shape[i] < meta.count(),
        opened(meta, params, block, root, shape, backward).0.raw.small(),
    ensures
        opened(meta, params, block, root, shape, backward).0.raw.flat(),
        opened(meta, params, block, root, shape, backward).0.raw.solid(
            opened(meta, params, block, root, shape, backward).2,
        ),
{
    broadcast use {group_flat, group_sound, group_meaning};

    lemma_opened_sound(meta, params, block, root, shape, backward);
    let start = blank(meta, params, block, root, shape);
    assert(start.raw.flat()) by {
        reveal(RawView::flat);
    }
    lemma_blank_sound(start.raw);
    assert forall|i: int| 0 <= i < shape.len() implies #[trigger] shape[i] < start.meta.len() by {}
    lemma_dim_values_flat(start, shape, shape.len());
    lemma_dim_values_sound(start, shape, shape.len());
    let (k, found) = dim_values(start, shape, shape.len());
    let rank = found.len() as int;
    let dims = if backward && rank > 3 {
        found.update(rank - 2, found[rank - 1]).update(rank - 1, found[rank - 2])
    } else {
        found
    };
    assert forall|i: int| 0 <= i < dims.len() implies #[trigger] dims[i] < k.raw.span() by {
        assert(found[rank - 1] < k.raw.span());
        if rank > 3 {
            assert(found[rank - 2] < k.raw.span());
        }
        assert(found[i] < k.raw.span());
    }
    let (raw1, gid) = k.raw.var_u(Op::GlobalId { axis: Axis::X });
    let (raw2, base) = raw1.def(
        DType::UnsignedInt,
        if backward {
            ValueState::Mut
        } else {
            ValueState::Immut
        },
        Some(Op::ConstU32 { value: 0 }),
    );
    assert(dims[0] < k.raw.span());
    let raw3 = raw2.with_state(dims[0], ValueState::Mut);
    if dims.len() > 1 {
        let (raw4, gid2) = raw3.def(DType::UnsignedInt, ValueState::Mut, None);
        lemma_index_steps_sound(
            raw4,
            IndexVars { gid, gid2, total: dims[0] },
            base,
            dims,
            dims.len(),
            backward,
        );
        lemma_index_steps_flat(
            raw4,
            IndexVars { gid, gid2, total: dims[0] },
            base,
            dims,
            dims.len(),
            backward,
            gid,
        );
    }
}

} // verus!
