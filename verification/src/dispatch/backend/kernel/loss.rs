//! The loss.

use vstd::prelude::*;

use crate::dispatch::backend::kernel::index::{axis_at, unset};
use crate::dispatch::backend::kernel::raw::{Kernel, KernelView, RawKernel, RawView};
use crate::dispatch::backend::sound::pass::lemma_loss_finished;
use crate::dispatch::backend::std_lib::basic_loss::loss_values;
use crate::dispatch::backend::{
    Axis, DType, Graph, LossType, MetaId, Metadata, Node, NodeId, Op, Param, ParamTy, ValueId,
    ValueState,
};

verus! {

/// The parameter of the loss.
pub const LOSS_PARAM: usize = 1;

/// The parameter of the gradient of the loss.
pub const GRAD_PARAM: usize = 2;

/// The parameter of the prediction.
pub const PRED_PARAM: usize = 3;

/// The parameter of the target.
pub const TARGET_PARAM: usize = 4;

/// The parameters of a loss: the metadata, the loss, its gradient, the prediction and the target.
pub open spec fn loss_params() -> Seq<Param> {
    seq![
        Param { dtype: DType::UnsignedInt, ty: ParamTy::Uniform, pid: 0 },
        Param { dtype: DType::Float, ty: ParamTy::ReadWrite, pid: LOSS_PARAM },
        Param { dtype: DType::Float, ty: ParamTy::ReadWrite, pid: GRAD_PARAM },
        Param { dtype: DType::Float, ty: ParamTy::ReadOnly, pid: PRED_PARAM },
        Param { dtype: DType::Float, ty: ParamTy::ReadOnly, pid: TARGET_PARAM },
    ]
}

/// The block of threads of a loss: a row of threads where all the operations work element by
/// element, and a tile otherwise.
pub open spec fn loss_block(nodes: Seq<Node>) -> Seq<u32> {
    if forall|n: int|
        0 <= n < nodes.len() ==> (#[trigger] nodes[n]).op.elementwise() || nodes[n].op.leaf() {
        seq![256, 1, 1]
    } else {
        seq![16, 16, 1]
    }
}

/// The kernel with the extents of the first dimensions of a shape, and those values.
pub open spec fn loss_dims(r: RawView, shape: Seq<MetaId>, count: nat) -> (RawView, Seq<ValueId>)
    decreases count,
{
    if count == 0 {
        (r, Seq::empty())
    } else {
        let (r, dims) = loss_dims(r, shape, (count - 1) as nat);
        let (r, dim) = r.let_u(Op::ReadMeta { param: 0, field: shape[count - 1] });
        (r, dims.push(dim))
    }
}

/// The kernel with one more dimension in the index.
pub open spec fn loss_index_step(
    r: RawView,
    gid: ValueId,
    gid2: ValueId,
    total: ValueId,
    i: int,
    dim: ValueId,
) -> RawView {
    let r = r.assign(gid2, Op::GlobalId { axis: axis_at(i) });
    let r = r.assign(gid2, Op::Mul { a: gid2, b: dim });
    let r = r.assign(gid, Op::Add { a: gid, b: gid2 });
    r.assign(total, Op::Mul { a: total, b: dim })
}

/// The kernel with the dimensions up to the given one in the index.
pub open spec fn loss_index_steps(
    r: RawView,
    gid: ValueId,
    gid2: ValueId,
    dims: Seq<ValueId>,
    upto: nat,
) -> RawView
    decreases upto,
{
    if upto <= 1 {
        r
    } else {
        let r = loss_index_steps(r, gid, gid2, dims, (upto - 1) as nat);
        loss_index_step(r, gid, gid2, dims[0], upto - 1, dims[upto - 1])
    }
}

/// The kernel with the index of a thread, and the index.
pub open spec fn loss_index(r: RawView, shape: Seq<MetaId>) -> (RawView, ValueId) {
    let (r, dims) = loss_dims(r, shape, shape.len());
    let (r, gid) = r.var_u(Op::GlobalId { axis: Axis::X });
    let r = r.with_state(dims[0], ValueState::Mut);
    if dims.len() > 1 {
        let (r, gid2) = r.def(DType::UnsignedInt, ValueState::Mut, None);
        (loss_index_steps(r, gid, gid2, dims, dims.len()), gid)
    } else {
        (r, gid)
    }
}

/// The kernel of the loss of a graph: it compares the last node to the target, and stores the loss
/// and its gradient.
pub open spec fn loss_kernel(nodes: Seq<Node>, loss: LossType, meta: Metadata) -> KernelView {
    let root = (nodes.len() - 1) as usize;
    let shape = nodes[root as int].shape@;
    let raw = RawView {
        meta,
        shared: Seq::empty(),
        values: Seq::empty(),
        ops: Seq::empty(),
        block: loss_block(nodes),
        iter_space: shape,
        root,
    };
    let (raw, gid) = loss_index(raw, shape);
    let (raw, row) = raw.let_u(Op::GlobalId { axis: Axis::Y });
    let (raw, col) = raw.let_u(Op::GlobalId { axis: Axis::X });
    let (raw, pred) = raw.let_f(Op::ParamLoad { param: PRED_PARAM, index: gid });
    let (raw, target) = raw.let_f(Op::ParamLoad { param: TARGET_PARAM, index: gid });
    let kernel = KernelView {
        raw,
        params: loss_params(),
        meta: Seq::new(meta.count(), |i: int| shape.contains(i as usize)),
    };
    let (kernel, loss_val, grad_val) = loss_values(
        loss,
        kernel,
        pred,
        target,
        TARGET_PARAM,
        row,
        col,
    );
    let raw = kernel.raw.emit(Op::ParamStore { param: LOSS_PARAM, index: gid, value: loss_val });
    let raw = raw.emit(Op::ParamStore { param: GRAD_PARAM, index: gid, value: grad_val });
    KernelView { raw, ..kernel }
}

fn all_elementwise(graph: &Graph) -> (r: bool)
    ensures
        r == forall|n: int|
            0 <= n < graph.nodes@.len() ==> (#[trigger] graph.nodes@[n]).op.elementwise()
                || graph.nodes@[n].op.leaf(),
{
    let mut n: usize = 0;
    while n < graph.nodes.len()
        invariant
            n <= graph.nodes@.len(),
            forall|i: int|
                0 <= i < n ==> (#[trigger] graph.nodes@[i]).op.elementwise()
                    || graph.nodes@[i].op.leaf(),
        decreases graph.nodes@.len() - n,
    {
        let op = graph.nodes[n].op;
        if !op.is_elementwise() && !op.is_leaf() {
            assert(!(graph.nodes@[n as int].op.elementwise() || graph.nodes@[n as int].op.leaf()));
            return false;
        }
        n += 1;
    }
    true
}

fn emit_loss_index(raw: &mut RawKernel, shape: &Vec<MetaId>) -> (gid: ValueId)
    requires
        shape@.len() >= 1,
    ensures
        (final(raw)@, gid) == loss_index(old(raw)@, shape@),
{
    let ghost start = raw@;
    let mut dims: Vec<ValueId> = Vec::new();
    let mut i: usize = 0;
    while i < shape.len()
        invariant
            i <= shape@.len(),
            dims@.len() == i,
            (raw@, dims@) == loss_dims(start, shape@, i as nat),
            forall|j: int| 0 <= j < dims@.len() ==> dims@[j] < raw@.values.len(),
        decreases shape@.len() - i,
    {
        let dim: ValueId = raw.let_u(Op::ReadMeta { param: 0, field: shape[i] });
        dims.push(dim);
        i += 1;
    }
    let gid: ValueId = raw.var_u(Op::GlobalId { axis: Axis::X });
    let total: ValueId = dims[0];
    raw.update_var_state(total, ValueState::Mut);
    if dims.len() > 1 {
        let gid2: ValueId = raw.def_var(DType::UnsignedInt, ValueState::Mut, None);
        let ghost opened = raw@;
        let mut i: usize = 1;
        while i < dims.len()
            invariant
                1 <= i <= dims@.len(),
                total == dims@[0],
                raw@ == loss_index_steps(opened, gid, gid2, dims@, i as nat),
            decreases dims@.len() - i,
        {
            let axis = match Axis::try_from(#[verifier::truncate] (i as u8)) {
                Ok(axis) => axis,
                Err(_) => Axis::Z,
            };
            let d: ValueId = dims[i];
            raw.overwrite_var(gid2, Op::GlobalId { axis });
            raw.overwrite_var(gid2, Op::Mul { a: gid2, b: d });
            raw.overwrite_var(gid, Op::Add { a: gid, b: gid2 });
            raw.overwrite_var(total, Op::Mul { a: total, b: d });
            i += 1;
        }
    }
    gid
}

fn used_fields(meta: Metadata, shape: &Vec<MetaId>) -> (r: Vec<bool>)
    requires
        forall|i: int| 0 <= i < shape@.len() ==> shape@[i] < meta.count(),
    ensures
        r@ == Seq::new(meta.count(), |i: int| shape@.contains(i as usize)),
{
    let mut r = unset(meta.iter_fields().end);
    let mut i: usize = 0;
    while i < shape.len()
        invariant
            i <= shape@.len(),
            r@.len() == meta.count(),
            forall|j: int| 0 <= j < shape@.len() ==> shape@[j] < meta.count(),
            forall|f: int|
                0 <= f < r@.len() ==> #[trigger] r@[f] == exists|j: int|
                    0 <= j < i && #[trigger] shape@[j] == f,
        decreases shape@.len() - i,
    {
        let field: MetaId = shape[i];
        let ghost before = r@;
        r[field] = true;
        proof {
            assert forall|f: int| 0 <= f < r@.len() implies #[trigger] r@[f] == exists|j: int|
                0 <= j < i + 1 && #[trigger] shape@[j] == f by {
                if f == field {
                    assert(shape@[i as int] == f);
                } else {
                    assert(r@[f] == before[f]);
                    if exists|j: int| 0 <= j < i + 1 && #[trigger] shape@[j] == f {
                        let j = choose|j: int| 0 <= j < i + 1 && #[trigger] shape@[j] == f;
                        assert(0 <= j < i && shape@[j] == f);
                    }
                }
            }
        }
        i += 1;
    }
    assert forall|f: int| 0 <= f < r@.len() implies r@[f] == shape@.contains(f as usize) by {
        if r@[f] {
            let j = choose|j: int| 0 <= j < shape@.len() && #[trigger] shape@[j] == f;
            assert(shape@[j] == f as usize);
        } else if shape@.contains(f as usize) {
            let j = choose|j: int| 0 <= j < shape@.len() && shape@[j] == f as usize;
            assert(shape@[j] == f);
        }
    }
    assert(r@ == Seq::new(meta.count(), |i: int| shape@.contains(i as usize)));
    r
}

/// Lowers the loss of a graph.
pub fn lower_loss(graph: &Graph, meta: Metadata) -> (r: Kernel)
    requires
        graph.nodes@.len() >= 1,
        graph.nodes@.last().shape@.len() >= 1,
        forall|i: int|
            0 <= i < graph.nodes@.last().shape@.len() ==> graph.nodes@.last().shape@[i]
                < meta.count(),
    ensures
        r@ == loss_kernel(graph.nodes@, graph.loss, meta),
        r@.finished(),
{
    let root: NodeId = graph.nodes.len() - 1;
    proof {
        lemma_loss_finished(graph.nodes@, graph.loss, meta);
    }
    let shape = &graph.nodes[root].shape;
    let block: [u32; 3] = if all_elementwise(graph) {
        [256, 1, 1]
    } else {
        [16, 16, 1]
    };
    let mut params: Vec<Param> = Vec::new();
    params.push(Param { dtype: DType::UnsignedInt, ty: ParamTy::Uniform, pid: 0 });
    params.push(Param { dtype: DType::Float, ty: ParamTy::ReadWrite, pid: LOSS_PARAM });
    params.push(Param { dtype: DType::Float, ty: ParamTy::ReadWrite, pid: GRAD_PARAM });
    params.push(Param { dtype: DType::Float, ty: ParamTy::ReadOnly, pid: PRED_PARAM });
    params.push(Param { dtype: DType::Float, ty: ParamTy::ReadOnly, pid: TARGET_PARAM });
    assert(params@ == loss_params());
    let raw = RawKernel {
        meta,
        shared: Vec::new(),
        values: Vec::new(),
        ops: Vec::new(),
        block,
        iter_space: shape.clone(),
        root,
    };
    assert(raw@ == (RawView {
        meta,
        shared: Seq::empty(),
        values: Seq::empty(),
        ops: Seq::empty(),
        block: loss_block(graph.nodes@),
        iter_space: shape@,
        root,
    }));
    let mut kernel = Kernel { raw, params, meta: used_fields(meta, shape) };
    let gid: ValueId = emit_loss_index(&mut kernel.raw, shape);
    let row: ValueId = kernel.raw.let_u(Op::GlobalId { axis: Axis::Y });
    let col: ValueId = kernel.raw.let_u(Op::GlobalId { axis: Axis::X });
    let pred: ValueId = kernel.raw.let_f(Op::ParamLoad { param: PRED_PARAM, index: gid });
    let target: ValueId = kernel.raw.let_f(Op::ParamLoad { param: TARGET_PARAM, index: gid });
    let (loss_val, grad_val) = graph.loss.lower(
        &mut kernel,
        pred,
        target,
        PRED_PARAM,
        TARGET_PARAM,
        row,
        col,
    );
    kernel.raw.param_store(LOSS_PARAM, gid, loss_val);
    kernel.raw.param_store(GRAD_PARAM, gid, grad_val);
    kernel
}

} // verus!
