//! Which parameters a kernel takes.

use vstd::prelude::*;

use crate::dispatch::backend::kernel::raw::RawView;
use crate::dispatch::backend::{DType, Op, ParamId, ValueId, ValueState};

verus! {

/// The parameter that an operation reads or writes by itself.
pub open spec fn parameter(op: Op) -> Option<ParamId> {
    match op {
        Op::ReadMeta { param, .. }
        | Op::ParamLoad { param, .. }
        | Op::ParamStore { param, .. }
        | Op::ParamAccum { param, .. }
        | Op::ParamMul { param, .. }
        | Op::ParamDiv { param, .. }
        | Op::ParamSub { param, .. }
        | Op::ParamShl { param, .. }
        | Op::ParamShr { param, .. } => Some(param),
        _ => None,
    }
}

/// Whether the parameter that an operation reads or writes by itself is marked.
pub open spec fn covered(op: Op, flags: Seq<bool>) -> bool {
    parameter(op) matches Some(p) ==> p < flags.len() && flags[p as int]
}

/// Whether the parameters that an operation reads or writes are marked.
pub open spec fn within_marks(op: Op, flags: Seq<bool>) -> bool {
    match op {
        Op::OverwriteVar { val, .. }
        | Op::AddAssign { val, .. }
        | Op::MulAssign { val, .. }
        | Op::DivAssign { val, .. }
        | Op::SubAssign { val, .. }
        | Op::ShlAssign { val, .. }
        | Op::ShrAssign { val, .. } => covered(*val, flags),
        Op::WhileLoopBegin { cond } => covered(*cond, flags),
        _ => covered(op, flags),
    }
}

impl RawView {
    /// Whether all the parameters that a kernel reads or writes are marked.
    #[verifier::opaque]
    pub open spec fn marked(self, flags: Seq<bool>) -> bool {
        &&& forall|i: int|
            0 <= i < self.values.len() ==> ((#[trigger] self.values[i]).init matches Some(op)
                ==> covered(op, flags))
        &&& forall|i: int| 0 <= i < self.ops.len() ==> within_marks(#[trigger] self.ops[i], flags)
    }
}

/// A definition takes no parameter but those of its expression.
pub broadcast proof fn lemma_def_marked(
    r: RawView,
    dtype: DType,
    state: ValueState,
    init: Option<Op>,
    flags: Seq<bool>,
)
    requires
        r.marked(flags),
        init matches Some(op) ==> covered(op, flags),
    ensures
        #[trigger] r.def(dtype, state, init).0.marked(flags),
{
    reveal(RawView::def);
    reveal(RawView::marked);
    let q = r.def(dtype, state, init).0;
    assert forall|i: int| 0 <= i < q.values.len() implies ((
    #[trigger] q.values[i]).init matches Some(op) ==> covered(op, flags)) by {
        if i < r.values.len() {
            assert(q.values[i] == r.values[i]);
        }
    }
    assert forall|i: int| 0 <= i < q.ops.len() implies within_marks(#[trigger] q.ops[i], flags) by {
        if i < r.ops.len() {
            assert(q.ops[i] == r.ops[i]);
        }
    }
}

/// A statement takes no parameter but its own.
pub broadcast proof fn lemma_emit_marked(r: RawView, op: Op, flags: Seq<bool>)
    requires
        r.marked(flags),
        within_marks(op, flags),
    ensures
        #[trigger] r.emit(op).marked(flags),
{
    reveal(RawView::emit);
    reveal(RawView::marked);
    let q = r.emit(op);
    assert forall|i: int| 0 <= i < q.ops.len() implies within_marks(#[trigger] q.ops[i], flags) by {
        if i < r.ops.len() {
            assert(q.ops[i] == r.ops[i]);
        }
    }
}

/// A shared buffer takes no parameter.
pub broadcast proof fn lemma_share_marked(r: RawView, dtype: DType, size: u32, flags: Seq<bool>)
    requires
        r.marked(flags),
    ensures
        #[trigger] r.share(dtype, size).0.marked(flags),
{
    reveal(RawView::share);
    reveal(RawView::marked);
}

/// Another state takes no parameter.
pub broadcast proof fn lemma_state_marked(
    r: RawView,
    id: ValueId,
    state: ValueState,
    flags: Seq<bool>,
)
    requires
        r.marked(flags),
        id < r.span(),
    ensures
        #[trigger] r.with_state(id, state).marked(flags),
{
    reveal(RawView::with_state);
    reveal(RawView::marked);
    let q = r.with_state(id, state);
    assert forall|i: int| 0 <= i < q.values.len() implies (#[trigger] q.values[i]).init
        == r.values[i].init by {}
}

/// Another data type takes no parameter.
pub broadcast proof fn lemma_dtype_marked(r: RawView, id: ValueId, dtype: DType, flags: Seq<bool>)
    requires
        r.marked(flags),
        id < r.span(),
    ensures
        #[trigger] r.with_dtype(id, dtype).marked(flags),
{
    reveal(RawView::with_dtype);
    reveal(RawView::marked);
    let q = r.with_dtype(id, dtype);
    assert forall|i: int| 0 <= i < q.values.len() implies (#[trigger] q.values[i]).init
        == r.values[i].init by {}
}

/// Another definition takes no parameter but those of its expression.
pub broadcast proof fn lemma_init_marked(r: RawView, id: ValueId, init: Op, flags: Seq<bool>)
    requires
        r.marked(flags),
        id < r.span(),
        covered(init, flags),
    ensures
        #[trigger] r.with_init(id, init).marked(flags),
{
    reveal(RawView::with_init);
    reveal(RawView::marked);
    let q = r.with_init(id, init);
    assert forall|i: int| 0 <= i < q.values.len() implies ((
    #[trigger] q.values[i]).init matches Some(op) ==> covered(op, flags)) by {
        if i != id {
            assert(q.values[i] == r.values[i]);
        }
    }
}

/// What is marked stays marked when another parameter is.
pub broadcast proof fn lemma_more_marked(r: RawView, flags: Seq<bool>, p: int)
    requires
        r.marked(flags),
        0 <= p < flags.len(),
    ensures
        #[trigger] r.marked(flags.update(p, true)),
{
    reveal(RawView::marked);
}

/// Which parameters the operations that build a kernel take.
pub broadcast group group_marks {
    lemma_def_marked,
    lemma_emit_marked,
    lemma_share_marked,
    lemma_state_marked,
    lemma_dtype_marked,
    lemma_init_marked,
    lemma_more_marked,
}

} // verus!
