//! The kernels of all the passes are sound.

use vstd::prelude::*;

use crate::dispatch::backend::kernel::backward::{backward_root, node_grad, BackwardSetup};
use crate::dispatch::backend::kernel::forward::{forward_root, node_value, ForwardSetup};
use crate::dispatch::backend::kernel::frame::{Operand, Scope};
use crate::dispatch::backend::kernel::index::{
    blank, dim_values, index_step, index_steps, opened, IndexVars,
};
use crate::dispatch::backend::kernel::loss::{
    loss_block, loss_dims, loss_index, loss_index_steps, loss_kernel, PRED_PARAM, TARGET_PARAM,
};
use crate::dispatch::backend::kernel::plan::{blocked, depending, with_block, Plan, Step};
use crate::dispatch::backend::kernel::raw::{KernelView, LinkedView, RawView};
use crate::dispatch::backend::sound::lower::{
    carried, lemma_node_grad_sound, lemma_node_value_sound, marks,
};
use crate::dispatch::backend::sound::marks::group_marks;
use crate::dispatch::backend::sound::{group_sound, lemma_sound_printable, level};
use crate::dispatch::backend::std_lib::basic_loss::{bce, cross_entropy, mse};
use crate::dispatch::backend::wgsl::source::printable;
use crate::dispatch::backend::{
    Axis, DType, LossType, MetaId, Metadata, Node, NodeId, Op, ParamId, ValueId, ValueState,
};
use crate::scalar::{Float32, ZERO_BITS};

verus! {

impl LinkedView {
    /// Whether a kernel is finished: it is sound, its blocks are closed, there is a mark for each
    /// of the given number of parameters, and those that it takes are marked.
    pub open spec fn finished(self, params: nat) -> bool {
        &&& self.raw.sound()
        &&& self.raw.level() == 0
        &&& self.params.len() == params
        &&& marks(self)
    }
}

/// Whether all the kernels are finished.
pub open spec fn all_finished(steps: Seq<Step>, params: nat) -> bool {
    forall|i: int| 0 <= i < steps.len() ==> (#[trigger] steps[i]).kernel.finished(params)
}

pub proof fn lemma_blank_sound(r: RawView)
    requires
        r.values.len() == 0,
        r.ops.len() == 0,
    ensures
        r.sound(),
        r.level() == 0,
        forall|flags: Seq<bool>| #[trigger] r.marked(flags),
{
    reveal(RawView::built);
    reveal(RawView::level);
    reveal(RawView::marked);
    assert(level(r.ops, 0) == 0);
}

pub proof fn lemma_dim_values_sound(kernel: LinkedView, shape: Seq<MetaId>, count: nat)
    requires
        kernel.raw.sound(),
        marks(kernel),
        count <= shape.len(),
        forall|i: int| 0 <= i < shape.len() ==> #[trigger] shape[i] < kernel.meta.len(),
    ensures
        carried(kernel, dim_values(kernel, shape, count).0),
        dim_values(kernel, shape, count).0.params == kernel.params,
        dim_values(kernel, shape, count).1.len() == count,
        forall|i: int|
            0 <= i < count ==> #[trigger] dim_values(kernel, shape, count).1[i] < dim_values(
                kernel,
                shape,
                count,
            ).0.raw.span(),
    decreases count,
{
    broadcast use {group_sound, group_marks};

    if count > 0 {
        lemma_dim_values_sound(kernel, shape, (count - 1) as nat);
    }
}

pub proof fn lemma_index_step_sound(
    r: RawView,
    v: IndexVars,
    base: ValueId,
    i: int,
    dim: ValueId,
    backward: bool,
)
    requires
        r.sound(),
        v.gid < r.span(),
        v.gid2 < r.span(),
        v.total < r.span(),
        base < r.span(),
        dim < r.span(),
    ensures
        index_step(r, v, base, i, dim, backward).0.continues(r),
        index_step(r, v, base, i, dim, backward).1 < r.span(),
        forall|flags: Seq<bool>|
            r.marked(flags) ==> #[trigger] index_step(r, v, base, i, dim, backward).0.marked(flags),
{
    broadcast use {group_sound, group_marks};

}

pub proof fn lemma_index_steps_sound(
    r: RawView,
    v: IndexVars,
    base: ValueId,
    dims: Seq<ValueId>,
    upto: nat,
    backward: bool,
)
    requires
        r.sound(),
        v.gid < r.span(),
        v.gid2 < r.span(),
        v.total < r.span(),
        base < r.span(),
        upto <= dims.len(),
        forall|i: int| 0 <= i < dims.len() ==> #[trigger] dims[i] < r.span(),
    ensures
        index_steps(r, v, base, dims, upto, backward).0.continues(r),
        index_steps(r, v, base, dims, upto, backward).1 < index_steps(
            r,
            v,
            base,
            dims,
            upto,
            backward,
        ).0.span(),
        forall|flags: Seq<bool>|
            r.marked(flags) ==> #[trigger] index_steps(
                r,
                v,
                base,
                dims,
                upto,
                backward,
            ).0.marked(flags),
    decreases upto,
{
    if upto > 1 {
        lemma_index_steps_sound(r, v, base, dims, (upto - 1) as nat, backward);
        let (q, next) = index_steps(r, v, base, dims, (upto - 1) as nat, backward);
        assert(dims[upto - 1] < r.span());
        lemma_index_step_sound(q, v, next, upto - 1, dims[upto - 1], backward);
    }
}

pub proof fn lemma_opened_sound(
    meta: Metadata,
    params: nat,
    block: Seq<u32>,
    root: NodeId,
    shape: Seq<MetaId>,
    backward: bool,
)
    requires
        params >= 1,
        shape.len() >= 1,
        forall|i: int| 0 <= i < shape.len() ==> #[trigger] shape[i] < meta.count(),
    ensures
        ({
            let (k, base, gid) = opened(meta, params, block, root, shape, backward);
            &&& k.finished(params)
            &&& k.meta.len() == meta.count()
            &&& base < k.raw.span()
            &&& gid < k.raw.span()
            &&& k.raw.launched_as(blank(meta, params, block, root, shape).raw)
        }),
{
    broadcast use {group_sound, group_marks};

    let start = blank(meta, params, block, root, shape);
    lemma_blank_sound(start.raw);
    lemma_dim_values_sound(start, shape, shape.len());
    let (k, found) = dim_values(start, shape, shape.len());
    let rank = found.len() as int;
    let dims = if backward && rank > 3 {
        found.update(rank - 2, found[rank - 1]).update(rank - 1, found[rank - 2])
    } else {
        found
    };
    assert forall|i: int| 0 <= i < dims.len() implies #[trigger] dims[i] < k.raw.span() by {
        assert(found[rank - 1] < k.raw.span());
        if rank > 3 {
            assert(found[rank - 2] < k.raw.span());
        }
        assert(found[i] < k.raw.span());
    }
    let (raw, gid) = k.raw.var_u(Op::GlobalId { axis: Axis::X });
    let (raw, base) = raw.def(
        DType::UnsignedInt,
        if backward {
            ValueState::Mut
        } else {
            ValueState::Immut
        },
        Some(Op::ConstU32 { value: 0 }),
    );
    assert(dims[0] < k.raw.span());
    let raw = raw.with_state(dims[0], ValueState::Mut);
    if dims.len() > 1 {
        let (raw, gid2) = raw.def(DType::UnsignedInt, ValueState::Mut, None);
        lemma_index_steps_sound(
            raw,
            IndexVars { gid, gid2, total: dims[0] },
            base,
            dims,
            dims.len(),
            backward,
        );
    }
}

/// A block changes nothing that makes a kernel finished.
pub proof fn lemma_blocked_finished(
    nodes: Seq<Node>,
    kernel: LinkedView,
    ids: Seq<NodeId>,
    count: nat,
    size: u32,
    params: nat,
)
    requires
        kernel.finished(params),
    ensures
        blocked(nodes, kernel, ids, count, size).finished(params),
        blocked(nodes, kernel, ids, count, size).raw.span() == kernel.raw.span(),
        blocked(nodes, kernel, ids, count, size).raw.launched_as(kernel.raw),
    decreases count,
{
    if count > 0 {
        lemma_blocked_finished(nodes, kernel, ids, (count - 1) as nat, size, params);
        let k = blocked(nodes, kernel, ids, (count - 1) as nat, size);
        assert forall|block: Seq<u32>| #[trigger]
            with_block(k, block).finished(params) && with_block(k, block).raw.span()
                == k.raw.span() by {
            reveal(RawView::built);
            reveal(RawView::level);
            reveal(RawView::marked);
        }
    }
}

/// A root of a forward pass adds a finished kernel.
pub proof fn lemma_forward_root_finished(s: ForwardSetup, root: NodeId, first: bool, p: Plan)
    requires
        s.ready(),
        root < s.nodes.len(),
        s.nodes[root as int].shape@.len() >= 1,
        all_finished(p.steps, s.params.len()),
    ensures
        forward_root(s, root, first, p) matches Ok(q) ==> all_finished(q.steps, s.params.len()),
{
    if !p.resolved.contains(root) {
        let params = s.params.len();
        let shape = s.nodes[root as int].shape@;
        let size = (s.tile * s.tile) as u32;
        assert forall|i: int| 0 <= i < shape.len() implies #[trigger] shape[i] < s.meta.count() by {
            assert(s.nodes[root as int].shape@[i] < s.meta.count());
        }
        let block = seq![s.tile, s.tile, 1];
        lemma_opened_sound(s.meta, params, block, root, shape, false);
        let (kernel, base, gid) = opened(s.meta, params, block, root, shape, false);
        let (raw1, tile_size) = kernel.raw.def(
            DType::UnsignedInt,
            ValueState::Const,
            Some(Op::ConstU32 { value: s.tile }),
        );
        let (raw2, local_row) = raw1.let_u(Op::LocalId { axis: Axis::Y });
        let (raw3, local_col) = raw2.let_u(Op::LocalId { axis: Axis::X });
        let (raw, out) = raw3.def(DType::Float, ValueState::Mut, None);
        assert(raw.continues(kernel.raw) && raw.marked(kernel.params) && tile_size < raw.span()
            && local_row < raw.span() && local_col < raw.span() && out < raw.span()) by {
            broadcast use {group_sound, group_marks};

        }
        let scope = Scope {
            nodes: s.nodes,
            node_params: s.node_params,
            saved_params: s.saved_params,
            base,
            local_row,
            local_col,
            shared_size: size,
            tile_size,
            since: p.resolved.len() as usize,
        };
        let k = LinkedView { raw, ..kernel };
        let node = Operand::Node(root);
        lemma_node_value_sound(scope, node, out, k, p.resolved, gid, true);
        let l = node_value(scope, node, out, k, p.resolved, gid, true);
        if l.nodes is Ok {
            let ids = l.nodes->Ok_0;
            lemma_blocked_finished(s.nodes, l.kernel, ids, ids.len(), size, params);
            let k = blocked(s.nodes, l.kernel, ids, ids.len(), size);
            assert(k.store(s.output, gid, out).finished(params)) by {
                broadcast use {group_sound, group_marks};

            }
            let q = forward_root(s, root, first, p)->Ok_0;
            assert forall|i: int| 0 <= i < q.steps.len() implies (
            #[trigger] q.steps[i]).kernel.finished(params) by {
                if i < p.steps.len() {
                    assert(q.steps[i] == depending(p.steps, root, false)[i]);
                    assert(q.steps[i].kernel == p.steps[i].kernel);
                }
            }
        }
    }
}

/// A root of a backward pass adds a finished kernel.
pub proof fn lemma_backward_root_finished(s: BackwardSetup, root: NodeId, p: Plan)
    requires
        s.ready(),
        root < s.nodes.len(),
        s.nodes[root as int].shape@.len() >= 1,
        all_finished(p.steps, s.params.len()),
    ensures
        backward_root(s, root, p) matches Ok(q) ==> all_finished(q.steps, s.params.len()),
{
    if !p.resolved.contains(root) {
        let params = s.params.len();
        let shape = s.nodes[root as int].shape@;
        let size = (s.tile * s.tile) as u32;
        assert forall|i: int| 0 <= i < shape.len() implies #[trigger] shape[i] < s.meta.count() by {
            assert(s.nodes[root as int].shape@[i] < s.meta.count());
        }
        let block = seq![s.tile, s.tile, 1];
        lemma_opened_sound(s.meta, params, block, root, shape, true);
        let (kernel, base, gid) = opened(s.meta, params, block, root, shape, true);
        let (raw1, upstream) = kernel.raw.var_f(
            Op::ConstF32 { value: Float32 { bits: ZERO_BITS } },
        );
        let (raw2, tile_size) = raw1.def(
            DType::UnsignedInt,
            ValueState::Const,
            Some(Op::ConstU32 { value: s.tile }),
        );
        let (raw3, local_row) = raw2.let_u(Op::LocalId { axis: Axis::Y });
        let (raw, local_col) = raw3.let_u(Op::LocalId { axis: Axis::X });
        assert(raw.continues(kernel.raw) && raw.marked(kernel.params) && tile_size < raw.span()
            && local_row < raw.span() && local_col < raw.span() && upstream < raw.span()) by {
            broadcast use {group_sound, group_marks};

        }
        let scope = Scope {
            nodes: s.nodes,
            node_params: s.grad_params,
            saved_params: s.saved_params,
            base,
            local_row,
            local_col,
            shared_size: size,
            tile_size,
            since: p.resolved.len() as usize,
        };
        let k = LinkedView { raw, ..kernel };
        let node = Operand::Node(root);
        lemma_node_grad_sound(scope, node, upstream, k, p.resolved, gid, true);
        let l = node_grad(scope, node, upstream, k, p.resolved, gid, true);
        if backward_root(s, root, p) is Ok {
            let ids = l.nodes->Ok_0;
            let op = s.nodes[root as int].op;
            let k = if op.computed_gid() || op.leaf() {
                l.kernel.store(s.grad_params[root as int].unwrap(), gid, upstream)
            } else {
                l.kernel
            };
            assert(s.grad_params[root as int] matches Some(p) ==> p < params);
            assert(k.finished(params)) by {
                broadcast use {group_sound, group_marks};

            }
            lemma_blocked_finished(s.nodes, k, ids, ids.len(), size, params);
            let q = backward_root(s, root, p)->Ok_0;
            assert forall|i: int| 0 <= i < q.steps.len() implies (
            #[trigger] q.steps[i]).kernel.finished(params) by {
                if i < p.steps.len() {
                    assert(q.steps[i] == depending(p.steps, root, true)[i]);
                    assert(q.steps[i].kernel == p.steps[i].kernel);
                }
            }
        }
    }
}

impl KernelView {
    /// Whether a kernel is finished: it is sound, its blocks are closed, and it takes its own
    /// parameters only.
    pub open spec fn finished(self) -> bool {
        &&& self.raw.sound()
        &&& self.raw.level() == 0
        &&& self.raw.marked(Seq::new(self.params.len(), |i: int| true))
    }
}

pub proof fn lemma_loss_dims_sound(r: RawView, shape: Seq<MetaId>, count: nat, flags: Seq<bool>)
    requires
        r.sound(),
        r.marked(flags),
        flags.len() > 0,
        flags[0],
        count <= shape.len(),
    ensures
        loss_dims(r, shape, count).0.continues(r),
        loss_dims(r, shape, count).0.marked(flags),
        loss_dims(r, shape, count).1.len() == count,
        forall|i: int|
            0 <= i < count ==> #[trigger] loss_dims(r, shape, count).1[i] < loss_dims(
                r,
                shape,
                count,
            ).0.span(),
    decreases count,
{
    broadcast use {group_sound, group_marks};

    if count > 0 {
        lemma_loss_dims_sound(r, shape, (count - 1) as nat, flags);
    }
}

pub proof fn lemma_loss_index_steps_sound(
    r: RawView,
    gid: ValueId,
    gid2: ValueId,
    dims: Seq<ValueId>,
    upto: nat,
    flags: Seq<bool>,
)
    requires
        r.sound(),
        r.marked(flags),
        gid < r.span(),
        gid2 < r.span(),
        upto <= dims.len(),
        forall|i: int| 0 <= i < dims.len() ==> #[trigger] dims[i] < r.span(),
    ensures
        loss_index_steps(r, gid, gid2, dims, upto).continues(r),
        loss_index_steps(r, gid, gid2, dims, upto).marked(flags),
    decreases upto,
{
    broadcast use {group_sound, group_marks};

    if upto > 1 {
        lemma_loss_index_steps_sound(r, gid, gid2, dims, (upto - 1) as nat, flags);
        assert(dims[0] < r.span());
        assert(dims[upto - 1] < r.span());
    }
}

pub proof fn lemma_loss_index_sound(r: RawView, shape: Seq<MetaId>, flags: Seq<bool>)
    requires
        r.sound(),
        r.marked(flags),
        flags.len() > 0,
        flags[0],
        shape.len() >= 1,
    ensures
        loss_index(r, shape).0.continues(r),
        loss_index(r, shape).0.marked(flags),
        loss_index(r, shape).1 < loss_index(r, shape).0.span(),
{
    broadcast use {group_sound, group_marks};

    lemma_loss_dims_sound(r, shape, shape.len(), flags);
    let (q, dims) = loss_dims(r, shape, shape.len());
    let (q, gid) = q.var_u(Op::GlobalId { axis: Axis::X });
    assert(dims[0] < q.span());
    let q = q.with_state(dims[0], ValueState::Mut);
    if dims.len() > 1 {
        let (q, gid2) = q.def(DType::UnsignedInt, ValueState::Mut, None);
        lemma_loss_index_steps_sound(q, gid, gid2, dims, dims.len(), flags);
    }
}

pub proof fn lemma_mse_sound(r: RawView, pred: ValueId, target: ValueId, flags: Seq<bool>)
    requires
        r.sound(),
        r.marked(flags),
        pred < r.span(),
        target < r.span(),
    ensures
        mse(r, pred, target).0.continues(r),
        mse(r, pred, target).0.marked(flags),
        mse(r, pred, target).1 < mse(r, pred, target).0.span(),
        mse(r, pred, target).2 < mse(r, pred, target).0.span(),
{
    broadcast use {group_sound, group_marks};

}

pub proof fn lemma_bce_sound(r: RawView, pred: ValueId, target: ValueId, flags: Seq<bool>)
    requires
        r.sound(),
        r.marked(flags),
        pred < r.span(),
        target < r.span(),
    ensures
        bce(r, pred, target).0.continues(r),
        bce(r, pred, target).0.marked(flags),
        bce(r, pred, target).1 < bce(r, pred, target).0.span(),
        bce(r, pred, target).2 < bce(r, pred, target).0.span(),
{
    broadcast use {group_sound, group_marks};

}

pub proof fn lemma_cross_entropy_sound(
    r: RawView,
    pred: ValueId,
    target: ValueId,
    param: ParamId,
    row: ValueId,
    col: ValueId,
    flags: Seq<bool>,
)
    requires
        r.sound(),
        r.marked(flags),
        param < flags.len(),
        flags[param as int],
        pred < r.span(),
        target < r.span(),
        r.values.len() <= usize::MAX ==> row < target,
        col < r.span(),
    ensures
        cross_entropy(r, pred, target, param, row, col).0.continues(r),
        cross_entropy(r, pred, target, param, row, col).0.marked(flags),
        cross_entropy(r, pred, target, param, row, col).1 < cross_entropy(
            r,
            pred,
            target,
            param,
            row,
            col,
        ).0.span(),
        cross_entropy(r, pred, target, param, row, col).2 < cross_entropy(
            r,
            pred,
            target,
            param,
            row,
            col,
        ).0.span(),
{
    broadcast use {group_sound, group_marks};

}

/// The kernel of a loss is finished.
pub proof fn lemma_loss_finished(nodes: Seq<Node>, loss: LossType, meta: Metadata)
    requires
        1 <= nodes.len() <= usize::MAX,
        nodes.last().shape@.len() >= 1,
    ensures
        loss_kernel(nodes, loss, meta).finished(),
{
    broadcast use {group_sound, group_marks};

    let flags = Seq::new(5, |i: int| true);
    let root = (nodes.len() - 1) as usize;
    let shape = nodes[root as int].shape@;
    let start = RawView {
        meta,
        shared: Seq::empty(),
        values: Seq::empty(),
        ops: Seq::empty(),
        block: loss_block(nodes),
        iter_space: shape,
        root,
    };
    lemma_blank_sound(start);
    lemma_loss_index_sound(start, shape, flags);
    let (raw, gid) = loss_index(start, shape);
    let (raw, row) = raw.let_u(Op::GlobalId { axis: Axis::Y });
    let (raw, col) = raw.let_u(Op::GlobalId { axis: Axis::X });
    let (raw, pred) = raw.let_f(Op::ParamLoad { param: PRED_PARAM, index: gid });
    let before = raw;
    let (raw, target) = raw.let_f(Op::ParamLoad { param: TARGET_PARAM, index: gid });
    assert(raw.values.len() <= usize::MAX ==> row < target) by {
        reveal(RawView::def);
    }
    match loss {
        LossType::MeanSquaredError => {
            lemma_mse_sound(raw, pred, target, flags);
        },
        LossType::BinaryCrossEntropy => {
            lemma_bce_sound(raw, pred, target, flags);
        },
        LossType::CrossEntropy => {
            lemma_cross_entropy_sound(raw, pred, target, TARGET_PARAM, row, col, flags);
        },
    }
    assert(loss_kernel(nodes, loss, meta).params.len() == 5);
    assert(flags == Seq::new(loss_kernel(nodes, loss, meta).params.len(), |i: int| true));
}

/// A finished kernel of a pass can be written.
pub proof fn lemma_finished_printable(kernel: LinkedView, params: nat)
    requires
        kernel.finished(params),
        kernel.raw.values.len() <= usize::MAX,
        kernel.raw.ops.len() <= usize::MAX,
    ensures
        printable(kernel.raw),
{
    lemma_sound_printable(kernel.raw);
}

/// A finished kernel of a loss can be written.
pub proof fn lemma_finished_loss_printable(kernel: KernelView)
    requires
        kernel.finished(),
        kernel.raw.values.len() <= usize::MAX,
        kernel.raw.ops.len() <= usize::MAX,
    ensures
        printable(kernel.raw),
{
    lemma_sound_printable(kernel.raw);
}

} // verus!
