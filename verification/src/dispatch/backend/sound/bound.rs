//! Each parameter that a kernel takes is one that it is compiled with.

use vstd::prelude::*;

use crate::dispatch::backend::kernel::backward::backward_setup;
use crate::dispatch::backend::kernel::forward::{forward_setup, input_slots, operand_slots};
use crate::dispatch::backend::kernel::loss::loss_params;
use crate::dispatch::backend::kernel::plan::{forward_flags, marked, param_run};
use crate::dispatch::backend::kernel::raw::{LinkedView, RawView};
use crate::dispatch::backend::kernel::save::SaveIndicator;
use crate::dispatch::backend::sound::marks::{covered, parameter, within_marks};
use crate::dispatch::backend::{DType, Metadata, Node, Op, Param, ParamId, ParamTy};
use crate::dispatch::compile::taken;

verus! {

/// Whether each parameter is numbered by its place.
pub open spec fn numbered(params: Seq<Param>) -> bool {
    forall|i: int| 0 <= i < params.len() ==> (#[trigger] params[i]).pid == i as usize
}

proof fn lemma_operand_slots_numbered(
    nodes: Seq<Node>,
    n: int,
    count: nat,
    s: (Seq<Option<ParamId>>, Seq<Param>),
)
    requires
        numbered(s.1),
    ensures
        numbered(operand_slots(nodes, n, count, s).1),
    decreases count,
{
    if count > 0 {
        lemma_operand_slots_numbered(nodes, n, (count - 1) as nat, s);
    }
}

proof fn lemma_input_slots_numbered(
    nodes: Seq<Node>,
    count: nat,
    s: (Seq<Option<ParamId>>, Seq<Param>),
)
    requires
        numbered(s.1),
    ensures
        numbered(input_slots(nodes, count, s).1),
    decreases count,
{
    if count > 0 {
        lemma_input_slots_numbered(nodes, (count - 1) as nat, s);
        let t = input_slots(nodes, (count - 1) as nat, s);
        lemma_operand_slots_numbered(nodes, count - 1, nodes[count - 1].inputs@.len(), t);
    }
}

/// The parameters of a forward pass are numbered by their places.
pub proof fn lemma_forward_numbered(
    nodes: Seq<Node>,
    meta: Metadata,
    saved: Seq<SaveIndicator>,
    tile: u32,
)
    ensures
        numbered(forward_setup(nodes, meta, saved, tile).params),
{
    let flags = forward_flags(saved, nodes.len());
    let first = seq![Param { dtype: DType::UnsignedInt, ty: ParamTy::Uniform, pid: 0 }];
    let kept = first + param_run(1, marked(flags, nodes.len()), ParamTy::ReadWrite);
    let none = Seq::new(nodes.len(), |n: int| None::<ParamId>);
    lemma_input_slots_numbered(nodes, nodes.len(), (none, kept));
}

/// The parameters of a backward pass are numbered by their places.
pub proof fn lemma_backward_numbered(
    nodes: Seq<Node>,
    meta: Metadata,
    saved: Seq<SaveIndicator>,
    tile: u32,
)
    ensures
        numbered(backward_setup(nodes, meta, saved, tile).params),
{
}

/// The parameters of a loss are numbered by their places.
pub proof fn lemma_loss_numbered()
    ensures
        numbered(loss_params()),
{
}

proof fn lemma_taken(params: Seq<Param>, flags: Seq<bool>, n: nat, p: int)
    requires
        n <= params.len(),
        n <= flags.len(),
        0 <= p < n,
        flags[p],
    ensures
        taken(params, flags, n).contains(params[p]),
    decreases n,
{
    let rest = taken(params, flags, (n - 1) as nat);
    if p < n - 1 {
        lemma_taken(params, flags, (n - 1) as nat, p);
        let j = rest.index_of(params[p]);
        assert(taken(params, flags, n)[j] == params[p]);
    } else {
        assert(taken(params, flags, n)[rest.len() as int] == params[p]);
    }
}

/// Whether an operation reads or writes a parameter.
pub open spec fn takes(op: Op, p: ParamId) -> bool {
    match op {
        Op::OverwriteVar { val, .. }
        | Op::AddAssign { val, .. }
        | Op::MulAssign { val, .. }
        | Op::DivAssign { val, .. }
        | Op::SubAssign { val, .. }
        | Op::ShlAssign { val, .. }
        | Op::ShrAssign { val, .. } => parameter(*val) == Some(p),
        Op::WhileLoopBegin { cond } => parameter(*cond) == Some(p),
        _ => parameter(op) == Some(p),
    }
}

/// A parameter that a statement of a finished kernel takes is one that the kernel is compiled with,
/// under its own number.
pub proof fn lemma_statement_bound(kernel: LinkedView, params: Seq<Param>, i: int, p: ParamId)
    requires
        kernel.finished(params.len()),
        numbered(params),
        0 <= i < kernel.raw.ops.len(),
        takes(kernel.raw.ops[i], p),
    ensures
        params[p as int].pid == p,
        taken(params, kernel.params, params.len()).contains(params[p as int]),
{
    reveal(RawView::marked);
    assert(within_marks(kernel.raw.ops[i], kernel.params));
    lemma_taken(params, kernel.params, params.len(), p as int);
}

/// A parameter that a value of a finished kernel is defined by is one that the kernel is compiled
/// with, under its own number.
pub proof fn lemma_definition_bound(kernel: LinkedView, params: Seq<Param>, i: int, p: ParamId)
    requires
        kernel.finished(params.len()),
        numbered(params),
        0 <= i < kernel.raw.values.len(),
        kernel.raw.values[i].init matches Some(op) && parameter(op) == Some(p),
    ensures
        params[p as int].pid == p,
        taken(params, kernel.params, params.len()).contains(params[p as int]),
{
    reveal(RawView::marked);
    assert(covered(kernel.raw.values[i].init->0, kernel.params));
    lemma_taken(params, kernel.params, params.len(), p as int);
}

} // verus!
