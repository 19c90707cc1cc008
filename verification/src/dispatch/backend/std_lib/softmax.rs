//! Softmax over the last dimension, one row per block of threads.

use vstd::prelude::*;

use crate::dispatch::backend::graph::grown;
use crate::dispatch::backend::kernel::backward::{eval_grad, node_grad};
use crate::dispatch::backend::kernel::forward::{eval_node, node_value};
use crate::dispatch::backend::kernel::frame::{
    reached, stopped, Frame, Lowered, NodeInput, Operand, Scope,
};
use crate::dispatch::backend::kernel::raw::{LinkedKernel, LinkedView, RawKernel, RawView};
use crate::dispatch::backend::std_lib::unary::{no_such_input, unsaved};
use crate::dispatch::backend::{
    Axis, DType, DispatchOptions, Graph, GraphOp, MetaId, NodeId, Op, OpName, ParamId, SaveRule,
    ShapeRule, SharedId, ValueId, ValueState,
};
use crate::errors::{Error, ErrorKind};
use crate::scalar::{Float32, MIN_BITS, ONE_BITS, ZERO_BITS};

verus! {

/// The values that all the stages of a softmax share.
#[derive(Clone, Copy)]
pub struct SoftmaxRow {
    /// The parameter that the result is saved in.
    pub saved: ParamId,
    /// The thread in its block.
    pub tid: ValueId,
    /// The number of threads in a block, as a step.
    pub step: u32,
    /// The number of columns.
    pub cols: ValueId,
    /// The number of threads in a block, as a value.
    pub size: ValueId,
    /// Zero.
    pub zero: ValueId,
    /// One.
    pub one: ValueId,
    /// The number one.
    pub one_f: ValueId,
    /// The row of the block.
    pub row: ValueId,
    /// The scratch buffer, with one number for each thread.
    pub scratch: SharedId,
    /// The column that the thread is at.
    pub col: ValueId,
}

/// The kernel with the values that all the stages of a softmax share.
pub open spec fn row_setup(f: Scope, n: NodeId, saved: ParamId, kernel: LinkedView) -> (
    LinkedView,
    SoftmaxRow,
) {
    let field = f.node(n).shape@.last();
    let (raw, cols) = kernel.raw.let_u(Op::ReadMeta { param: 0, field });
    let (raw, size) = raw.inline_u(Op::ConstU32 { value: f.shared_size });
    let (raw, zero) = raw.inline_u(Op::ConstU32 { value: 0 });
    let (raw, one) = raw.inline_u(Op::ConstU32 { value: 1 });
    let (raw, one_f) = raw.inline_f(Op::ConstF32 { value: Float32 { bits: ONE_BITS } });
    let (raw, row) = raw.let_u(Op::BlockId { axis: Axis::X });
    let (raw, scratch) = raw.share(DType::Float, f.shared_size);
    let (raw, col) = raw.var_u(Op::CopyVar { id: f.local_col });
    (
        LinkedView { raw, ..kernel }.field(field),
        SoftmaxRow {
            saved,
            tid: f.local_col,
            step: f.shared_size,
            cols,
            size,
            zero,
            one,
            one_f,
            row,
            scratch,
            col,
        },
    )
}

fn emit_row_setup(
    frame: &Frame<'_>,
    node_id: NodeId,
    saved: ParamId,
    kernel: &mut LinkedKernel,
) -> (s: SoftmaxRow)
    requires
        node_id < frame@.count(),
        frame@.node(node_id).shape@.len() >= 1,
        frame@.node(node_id).shape@.last() < old(kernel)@.meta.len(),
    ensures
        (final(kernel)@, s) == row_setup(frame@, node_id, saved, old(kernel)@),
{
    let shape = &frame.graph.nodes[node_id].shape;
    let field: MetaId = shape[shape.len() - 1];
    let cols: ValueId = kernel.raw.let_u(Op::ReadMeta { param: 0, field });
    kernel.register_meta(field);
    let size: ValueId = kernel.raw.inline_u(Op::ConstU32 { value: frame.shared_size });
    let zero: ValueId = kernel.raw.inline_u(Op::ConstU32 { value: 0 });
    let one: ValueId = kernel.raw.inline_u(Op::ConstU32 { value: 1 });
    let one_f: ValueId = kernel.raw.inline_f(Op::ConstF32 { value: Float32 { bits: ONE_BITS } });
    let row: ValueId = kernel.raw.let_u(Op::BlockId { axis: Axis::X });
    let scratch: SharedId = kernel.raw.new_shared(DType::Float, frame.shared_size);
    let col: ValueId = kernel.raw.var_u(Op::CopyVar { id: frame.local_col });
    SoftmaxRow {
        saved,
        tid: frame.local_col,
        step: frame.shared_size,
        cols,
        size,
        zero,
        one,
        one_f,
        row,
        scratch,
        col,
    }
}

/// The kernel inside a loop over the columns of a thread, with the index of the element.
pub open spec fn column_begin(r: RawView, s: SoftmaxRow) -> (RawView, ValueId) {
    let r = r.emit(Op::WhileLoopBegin { cond: Box::new(Op::Lt { a: s.col, b: s.cols }) });
    let (r, row_flat) = r.inline_u(Op::Mul { a: s.row, b: s.cols });
    r.let_u(Op::Add { a: row_flat, b: s.col })
}

fn emit_column_begin(raw: &mut RawKernel, s: SoftmaxRow) -> (idx: ValueId)
    ensures
        (final(raw)@, idx) == column_begin(old(raw)@, s),
{
    raw.emit(Op::WhileLoopBegin { cond: Box::new(Op::Lt { a: s.col, b: s.cols }) });
    let row_flat: ValueId = raw.inline_u(Op::Mul { a: s.row, b: s.cols });
    raw.let_u(Op::Add { a: row_flat, b: s.col })
}

/// The kernel after a loop over the columns of a thread, which steps to the next column.
pub open spec fn column_end(r: RawView, s: SoftmaxRow) -> RawView {
    r.accum(s.col, Op::ConstU32 { value: s.step }).emit(Op::EndScope)
}

fn emit_column_end(raw: &mut RawKernel, s: SoftmaxRow)
    ensures
        final(raw)@ == column_end(old(raw)@, s),
{
    raw.accum_var(s.col, Op::ConstU32 { value: s.step });
    raw.emit(Op::EndScope);
}

/// The kernel with the distance at which a reduction starts, as a constant and as a variable.
pub open spec fn stride_setup(r: RawView, s: SoftmaxRow) -> (RawView, ValueId, ValueId) {
    let (r, stride_const) = r.def(
        DType::UnsignedInt,
        ValueState::Const,
        Some(Op::Shr { a: s.size, b: s.one }),
    );
    let (r, stride) = r.var_u(Op::CopyVar { id: stride_const });
    (r, stride_const, stride)
}

fn emit_stride_setup(raw: &mut RawKernel, s: SoftmaxRow) -> (ids: (ValueId, ValueId))
    ensures
        (final(raw)@, ids.0, ids.1) == stride_setup(old(raw)@, s),
{
    let stride_const: ValueId = raw.def_var(
        DType::UnsignedInt,
        ValueState::Const,
        Some(Op::Shr { a: s.size, b: s.one }),
    );
    let stride: ValueId = raw.var_u(Op::CopyVar { id: stride_const });
    (stride_const, stride)
}

/// The kernel with the scratch buffer reduced to its first element, to the greatest element or to
/// the sum: the distance is halved until it is one, and each thread below the distance takes in
/// the element at that distance.
pub open spec fn reduction(r: RawView, s: SoftmaxRow, stride: ValueId, greatest: bool) -> RawView {
    let r = r.emit(Op::ForeverLoopBegin);
    let (r, tid_less_stride) = r.inline_b(Op::Lt { a: s.tid, b: stride });
    let r = r.emit(Op::IfBegin { cond: tid_less_stride });
    let r = if greatest {
        let (r, scratch_tid) = r.inline_f(Op::SharedLoad { mem: s.scratch, index: s.tid });
        let (r, tid_stride) = r.inline_u(Op::Add { a: stride, b: s.tid });
        let (r, scratch_tid_stride) = r.inline_f(
            Op::SharedLoad { mem: s.scratch, index: tid_stride },
        );
        let (r, max_scratch) = r.inline_f(Op::Max { a: scratch_tid, b: scratch_tid_stride });
        r.emit(Op::SharedStore { mem: s.scratch, index: s.tid, value: max_scratch })
    } else {
        let (r, tid_stride) = r.inline_u(Op::Add { a: stride, b: s.tid });
        let (r, scratch_tid_stride) = r.inline_f(
            Op::SharedLoad { mem: s.scratch, index: tid_stride },
        );
        r.emit(Op::SharedAccum { mem: s.scratch, index: s.tid, value: scratch_tid_stride })
    };
    let r = r.emit(Op::EndScope);
    let r = r.emit(Op::Barrier);
    let (r, stride_is_one) = r.inline_b(Op::Eq { a: stride, b: s.one });
    let r = r.emit(Op::IfBegin { cond: stride_is_one });
    let r = r.emit(Op::Break);
    let r = r.emit(Op::EndScope);
    let r = r.assign(stride, Op::Shr { a: stride, b: s.one });
    r.emit(Op::EndScope)
}

fn emit_reduction(raw: &mut RawKernel, s: SoftmaxRow, stride: ValueId, greatest: bool)
    ensures
        final(raw)@ == reduction(old(raw)@, s, stride, greatest),
{
    raw.emit(Op::ForeverLoopBegin);
    let tid_less_stride: ValueId = raw.inline_b(Op::Lt { a: s.tid, b: stride });
    raw.emit(Op::IfBegin { cond: tid_less_stride });
    if greatest {
        let scratch_tid: ValueId = raw.inline_f(
            Op::SharedLoad { mem: s.scratch, index: s.tid },
        );
        let tid_stride: ValueId = raw.inline_u(Op::Add { a: stride, b: s.tid });
        let scratch_tid_stride: ValueId = raw.inline_f(
            Op::SharedLoad { mem: s.scratch, index: tid_stride },
        );
        let max_scratch: ValueId = raw.inline_f(
            Op::Max { a: scratch_tid, b: scratch_tid_stride },
        );
        raw.shared_store(s.scratch, s.tid, max_scratch);
    } else {
        let tid_stride: ValueId = raw.inline_u(Op::Add { a: stride, b: s.tid });
        let scratch_tid_stride: ValueId = raw.inline_f(
            Op::SharedLoad { mem: s.scratch, index: tid_stride },
        );
        raw.shared_accum(s.scratch, s.tid, scratch_tid_stride);
    }
    raw.emit(Op::EndScope);
    raw.push_barrier();
    let stride_is_one: ValueId = raw.inline_b(Op::Eq { a: stride, b: s.one });
    raw.emit(Op::IfBegin { cond: stride_is_one });
    raw.push_break();
    raw.emit(Op::EndScope);
    raw.overwrite_var(stride, Op::Shr { a: stride, b: s.one });
    raw.emit(Op::EndScope);
}

/// The kernel with a number of each thread in the scratch buffer, and all the threads at one point.
pub open spec fn shared_row(r: RawView, s: SoftmaxRow, value: ValueId) -> RawView {
    r.emit(Op::SharedStore { mem: s.scratch, index: s.tid, value }).emit(Op::Barrier)
}

fn emit_shared_row(raw: &mut RawKernel, s: SoftmaxRow, value: ValueId)
    ensures
        final(raw)@ == shared_row(old(raw)@, s, value),
{
    raw.shared_store(s.scratch, s.tid, value);
    raw.push_barrier();
}

/// What finding the greatest operand of each thread does to a kernel.
pub open spec fn max_loop(
    f: Scope,
    n: NodeId,
    s: SoftmaxRow,
    local_max: ValueId,
    kernel: LinkedView,
    resolved: Seq<NodeId>,
) -> Lowered
    decreases f.left(None, n), 2int, 0int,
    when f.operable(n) && f.node(n).inputs@.len() >= 1
{
    let (raw, idx) = column_begin(kernel.raw, s);
    let (raw, x_val) = raw.def(DType::Float, ValueState::Mut, None);
    let l = node_value(
        f,
        Operand::Node(f.input(n, 0)),
        x_val,
        LinkedView { raw, ..kernel },
        resolved,
        idx,
        false,
    );
    let raw = l.kernel.raw.assign(local_max, Op::Max { a: local_max, b: x_val });
    Lowered {
        kernel: LinkedView { raw: column_end(raw, s), ..l.kernel },
        resolved: l.resolved,
        nodes: l.nodes,
    }
}

fn lower_max_loop(
    frame: &Frame<'_>,
    node_id: NodeId,
    s: SoftmaxRow,
    local_max: ValueId,
    resolved: &mut Vec<NodeId>,
    kernel: &mut LinkedKernel,
) -> (r: Result<Vec<NodeId>, Error>)
    requires
        frame@.fits(old(kernel)@, old(resolved)@),
        frame@.operable(node_id),
        frame@.node(node_id).inputs@.len() >= 1,
    ensures
        (Lowered { kernel: final(kernel)@, resolved: final(resolved)@, nodes: reached(r) })
            == max_loop(frame@, node_id, s, local_max, old(kernel)@, old(resolved)@),
        frame@.fits(final(kernel)@, final(resolved)@),
        final(kernel)@.params.len() == old(kernel)@.params.len(),
        final(kernel)@.meta.len() == old(kernel)@.meta.len(),
        r matches Ok(ids) ==> frame@.between(ids@, 0, node_id as int),
    decreases frame@.left(None, node_id), 2int, 0int,
{
    let idx: ValueId = emit_column_begin(&mut kernel.raw, s);
    let x_val: ValueId = kernel.raw.def_var(DType::Float, ValueState::Mut, None);
    let x_deep = eval_node(
        frame,
        &NodeInput::Node(frame.graph.nodes[node_id].inputs[0]),
        x_val,
        resolved,
        kernel,
        idx,
        false,
    );
    kernel.raw.overwrite_var(local_max, Op::Max { a: local_max, b: x_val });
    emit_column_end(&mut kernel.raw, s);
    x_deep
}

/// What storing the exponentials of a row, and adding up those of each thread, does to a kernel.
pub open spec fn exp_loop(
    f: Scope,
    n: NodeId,
    s: SoftmaxRow,
    row_max: ValueId,
    local_sum: ValueId,
    kernel: LinkedView,
    resolved: Seq<NodeId>,
) -> Lowered
    decreases f.left(None, n), 2int, 0int,
    when f.operable(n) && f.node(n).inputs@.len() >= 1
{
    let (raw, idx) = column_begin(kernel.raw, s);
    let (raw, x_val) = raw.def(DType::Float, ValueState::Mut, None);
    let l = node_value(
        f,
        Operand::Node(f.input(n, 0)),
        x_val,
        LinkedView { raw, ..kernel },
        resolved,
        idx,
        false,
    );
    match l.nodes {
        Err(_) => Lowered {
            kernel: l.kernel.emit(Op::EndScope),
            resolved: l.resolved,
            nodes: l.nodes,
        },
        Ok(_) => {
            let (raw, x_minus_max) = l.kernel.raw.inline_f(Op::Sub { a: x_val, b: row_max });
            let (raw, e) = raw.let_f(Op::Exp { x: x_minus_max });
            let kernel = LinkedView { raw, ..l.kernel }.store(s.saved, idx, e);
            let kernel = match f.node_params[n as int] {
                Some(output) => kernel.store(output, idx, e),
                None => kernel,
            };
            let raw = kernel.raw.accum(local_sum, Op::CopyVar { id: e });
            Lowered {
                kernel: LinkedView { raw: column_end(raw, s), ..kernel },
                resolved: l.resolved,
                nodes: l.nodes,
            }
        },
    }
}

fn lower_exp_loop(
    frame: &Frame<'_>,
    node_id: NodeId,
    s: SoftmaxRow,
    row_max: ValueId,
    local_sum: ValueId,
    resolved: &mut Vec<NodeId>,
    kernel: &mut LinkedKernel,
) -> (r: Result<Vec<NodeId>, Error>)
    requires
        frame@.fits(old(kernel)@, old(resolved)@),
        frame@.operable(node_id),
        frame@.node(node_id).inputs@.len() >= 1,
        s.saved < old(kernel)@.params.len(),
    ensures
        (Lowered { kernel: final(kernel)@, resolved: final(resolved)@, nodes: reached(r) })
            == exp_loop(frame@, node_id, s, row_max, local_sum, old(kernel)@, old(resolved)@),
        frame@.fits(final(kernel)@, final(resolved)@),
        final(kernel)@.params.len() == old(kernel)@.params.len(),
        final(kernel)@.meta.len() == old(kernel)@.meta.len(),
    decreases frame@.left(None, node_id), 2int, 0int,
{
    let idx: ValueId = emit_column_begin(&mut kernel.raw, s);
    let x_val: ValueId = kernel.raw.def_var(DType::Float, ValueState::Mut, None);
    let deep = eval_node(
        frame,
        &NodeInput::Node(frame.graph.nodes[node_id].inputs[0]),
        x_val,
        resolved,
        kernel,
        idx,
        false,
    );
    if deep.is_err() {
        kernel.raw.emit(Op::EndScope);
        return deep;
    }
    let x_minus_max: ValueId = kernel.raw.inline_f(Op::Sub { a: x_val, b: row_max });
    let e: ValueId = kernel.raw.let_f(Op::Exp { x: x_minus_max });
    kernel.param_store(s.saved, idx, e);
    if let Some(output) = frame.node_params[node_id] {
        kernel.param_store(output, idx, e);
    }
    kernel.raw.accum_var(local_sum, Op::CopyVar { id: e });
    emit_column_end(&mut kernel.raw, s);
    deep
}

/// The kernel with the stored exponentials of a row multiplied by a number.
pub open spec fn scale_loop(
    output: Option<ParamId>,
    s: SoftmaxRow,
    inv_row_sum: ValueId,
    kernel: LinkedView,
) -> LinkedView {
    let (raw, idx) = column_begin(kernel.raw, s);
    let kernel = LinkedView { raw, ..kernel }.param(s.saved).emit(
        Op::ParamMul { param: s.saved, index: idx, value: inv_row_sum },
    );
    let kernel = match output {
        Some(param) => kernel.param(param).emit(
            Op::ParamMul { param, index: idx, value: inv_row_sum },
        ),
        None => kernel,
    };
    LinkedView { raw: column_end(kernel.raw, s), ..kernel }
}

fn emit_scale_loop(
    output: Option<ParamId>,
    s: SoftmaxRow,
    inv_row_sum: ValueId,
    kernel: &mut LinkedKernel,
)
    requires
        s.saved < old(kernel)@.params.len(),
        output matches Some(param) ==> param < old(kernel)@.params.len(),
    ensures
        final(kernel)@ == scale_loop(output, s, inv_row_sum, old(kernel)@),
{
    let idx: ValueId = emit_column_begin(&mut kernel.raw, s);
    kernel.param_mul(s.saved, idx, inv_row_sum);
    if let Some(param) = output {
        kernel.param_mul(param, idx, inv_row_sum);
    }
    emit_column_end(&mut kernel.raw, s);
}

/// What the forward pass of a softmax does to a kernel: the exponential of each operand, less the
/// greatest of its row, over the sum of the row.
pub open spec fn softmax_value(
    f: Scope,
    n: NodeId,
    s: SoftmaxRow,
    kernel: LinkedView,
    resolved: Seq<NodeId>,
) -> Lowered
    decreases f.left(None, n), 3int, 0int,
    when f.operable(n) && f.node(n).inputs@.len() >= 1
{
    let (raw, local_max) = kernel.raw.var_f(Op::ConstF32 { value: Float32 { bits: MIN_BITS } });
    let x = max_loop(f, n, s, local_max, LinkedView { raw, ..kernel }, resolved);
    let raw = shared_row(x.kernel.raw, s, local_max);
    let (raw, stride_const, stride) = stride_setup(raw, s);
    let raw = reduction(raw, s, stride, true);
    let (raw, row_max) = raw.let_f(Op::SharedLoad { mem: s.scratch, index: s.zero });
    let raw = raw.emit(Op::Barrier);
    let (raw, local_sum) = raw.var_f(Op::ConstF32 { value: Float32 { bits: ZERO_BITS } });
    let raw = raw.assign(s.col, Op::CopyVar { id: s.tid });
    let e = exp_loop(
        f,
        n,
        s,
        row_max,
        local_sum,
        LinkedView { raw, ..x.kernel },
        x.resolved,
    );
    match e.nodes {
        Err(_) => e,
        Ok(_) => {
            let raw = shared_row(e.kernel.raw, s, local_sum);
            let raw = raw.assign(stride, Op::CopyVar { id: stride_const });
            let raw = reduction(raw, s, stride, false);
            let (raw, row_sum) = raw.inline_f(Op::SharedLoad { mem: s.scratch, index: s.zero });
            let (raw, inv_row_sum) = raw.let_f(Op::Div { a: s.one_f, b: row_sum });
            let raw = raw.emit(Op::Barrier);
            let raw = raw.assign(s.col, Op::CopyVar { id: s.tid });
            Lowered {
                kernel: scale_loop(
                    f.node_params[n as int],
                    s,
                    inv_row_sum,
                    LinkedView { raw, ..e.kernel },
                ),
                resolved: e.resolved,
                nodes: x.nodes,
            }
        },
    }
}

fn lower_softmax_value(
    frame: &Frame<'_>,
    node_id: NodeId,
    s: SoftmaxRow,
    resolved: &mut Vec<NodeId>,
    kernel: &mut LinkedKernel,
) -> (r: Result<Vec<NodeId>, Error>)
    requires
        frame@.fits(old(kernel)@, old(resolved)@),
        frame@.operable(node_id),
        frame@.node(node_id).inputs@.len() >= 1,
        s.saved < old(kernel)@.params.len(),
    ensures
        (Lowered { kernel: final(kernel)@, resolved: final(resolved)@, nodes: reached(r) })
            == softmax_value(frame@, node_id, s, old(kernel)@, old(resolved)@),
        frame@.fits(final(kernel)@, final(resolved)@),
        final(kernel)@.params.len() == old(kernel)@.params.len(),
        final(kernel)@.meta.len() == old(kernel)@.meta.len(),
        r matches Ok(ids) ==> frame@.between(ids@, 0, node_id as int),
    decreases frame@.left(None, node_id), 3int, 0int,
{
    let local_max: ValueId = kernel.raw.var_f(Op::ConstF32 { value: Float32 { bits: MIN_BITS } });
    let x_deep = lower_max_loop(frame, node_id, s, local_max, resolved, kernel);
    emit_shared_row(&mut kernel.raw, s, local_max);
    let (stride_const, stride) = emit_stride_setup(&mut kernel.raw, s);
    emit_reduction(&mut kernel.raw, s, stride, true);
    let row_max: ValueId = kernel.raw.let_f(Op::SharedLoad { mem: s.scratch, index: s.zero });
    kernel.raw.push_barrier();
    let local_sum: ValueId = kernel.raw.var_f(
        Op::ConstF32 { value: Float32 { bits: ZERO_BITS } },
    );
    kernel.raw.overwrite_var(s.col, Op::CopyVar { id: s.tid });
    match lower_exp_loop(frame, node_id, s, row_max, local_sum, resolved, kernel) {
        Ok(_) => {},
        Err(e) => {
            return Err(e);
        },
    }
    emit_shared_row(&mut kernel.raw, s, local_sum);
    kernel.raw.overwrite_var(stride, Op::CopyVar { id: stride_const });
    emit_reduction(&mut kernel.raw, s, stride, false);
    let row_sum: ValueId = kernel.raw.inline_f(Op::SharedLoad { mem: s.scratch, index: s.zero });
    let inv_row_sum: ValueId = kernel.raw.let_f(Op::Div { a: s.one_f, b: row_sum });
    kernel.raw.push_barrier();
    kernel.raw.overwrite_var(s.col, Op::CopyVar { id: s.tid });
    emit_scale_loop(frame.node_params[node_id], s, inv_row_sum, kernel);
    x_deep
}

/// The kernel with the saved result at an index.
pub open spec fn saved_result(kernel: LinkedView, s: SoftmaxRow, idx: ValueId) -> (
    LinkedView,
    ValueId,
) {
    let (raw, y) = kernel.raw.inline_f(Op::ParamLoad { param: s.saved, index: idx });
    (LinkedView { raw, ..kernel }.param(s.saved), y)
}

fn emit_saved_result(kernel: &mut LinkedKernel, s: SoftmaxRow, idx: ValueId) -> (y: ValueId)
    requires
        s.saved < old(kernel)@.params.len(),
    ensures
        (final(kernel)@, y) == saved_result(old(kernel)@, s, idx),
{
    let y: ValueId = kernel.raw.inline_f(Op::ParamLoad { param: s.saved, index: idx });
    kernel.register_param(s.saved);
    y
}

/// What adding up the gradient of each thread times the result does to a kernel.
pub open spec fn dot_loop(
    f: Scope,
    n: NodeId,
    s: SoftmaxRow,
    local_dot: ValueId,
    kernel: LinkedView,
    resolved: Seq<NodeId>,
) -> Lowered
    decreases f.left(Some(0), n), 2int, 0int,
    when f.operable(n)
{
    let (raw, idx) = column_begin(kernel.raw, s);
    let (raw, dy) = raw.var_f(Op::ConstF32 { value: Float32 { bits: ZERO_BITS } });
    let l = node_grad(
        f,
        Operand::Node(n),
        dy,
        LinkedView { raw, ..kernel },
        resolved,
        idx,
        false,
    );
    let (kernel, y) = saved_result(l.kernel, s, idx);
    let raw = kernel.raw.accum(local_dot, Op::Mul { a: dy, b: y });
    Lowered {
        kernel: LinkedView { raw: column_end(raw, s), ..kernel },
        resolved: l.resolved,
        nodes: l.nodes,
    }
}

fn lower_dot_loop(
    frame: &Frame<'_>,
    node_id: NodeId,
    s: SoftmaxRow,
    local_dot: ValueId,
    resolved: &mut Vec<NodeId>,
    kernel: &mut LinkedKernel,
) -> (r: Result<Vec<NodeId>, Error>)
    requires
        frame@.fits(old(kernel)@, old(resolved)@),
        frame@.operable(node_id),
        frame@.node(node_id).inputs@.len() >= 1,
        s.saved < old(kernel)@.params.len(),
    ensures
        (Lowered { kernel: final(kernel)@, resolved: final(resolved)@, nodes: reached(r) })
            == dot_loop(frame@, node_id, s, local_dot, old(kernel)@, old(resolved)@),
        frame@.fits(final(kernel)@, final(resolved)@),
        final(kernel)@.params.len() == old(kernel)@.params.len(),
        final(kernel)@.meta.len() == old(kernel)@.meta.len(),
        r matches Ok(ids) ==> frame@.between(ids@, node_id as int, frame@.count() as int),
    decreases frame@.left(Some(0u8), node_id), 2int, 0int,
{
    let idx: ValueId = emit_column_begin(&mut kernel.raw, s);
    let dy: ValueId = kernel.raw.var_f(Op::ConstF32 { value: Float32 { bits: ZERO_BITS } });
    let dy_deep = eval_grad(
        frame,
        &NodeInput::Node(node_id),
        dy,
        resolved,
        kernel,
        idx,
        false,
    );
    let y: ValueId = emit_saved_result(kernel, s, idx);
    kernel.raw.accum_var(local_dot, Op::Mul { a: dy, b: y });
    emit_column_end(&mut kernel.raw, s);
    dy_deep
}

/// What adding the gradient of a row to the gradient of the node does to a kernel.
pub open spec fn grad_loop(
    f: Scope,
    n: NodeId,
    s: SoftmaxRow,
    row_dot: ValueId,
    kernel: LinkedView,
    resolved: Seq<NodeId>,
) -> Lowered
    decreases f.left(Some(0), n), 2int, 0int,
    when f.operable(n)
{
    let (raw, idx) = column_begin(kernel.raw, s);
    let (raw, dy) = raw.def(DType::Float, ValueState::Mut, None);
    let l = node_grad(
        f,
        Operand::Node(n),
        dy,
        LinkedView { raw, ..kernel },
        resolved,
        idx,
        false,
    );
    match l.nodes {
        Err(_) => Lowered {
            kernel: l.kernel.emit(Op::EndScope),
            resolved: l.resolved,
            nodes: l.nodes,
        },
        Ok(_) => {
            let (kernel, y) = saved_result(l.kernel, s, idx);
            let (raw, dy_minus_row_dot) = kernel.raw.inline_f(Op::Sub { a: dy, b: row_dot });
            let (raw, y_scaled) = raw.inline_f(Op::Mul { a: y, b: dy_minus_row_dot });
            let kernel = LinkedView { raw, ..kernel };
            match f.node_params[n as int] {
                None => stopped(
                    kernel.emit(Op::EndScope),
                    l.resolved,
                    "could not materialize grad param in softmax backward",
                    ErrorKind::ParamNotMaterialized,
                ),
                Some(param) => {
                    let kernel = kernel.param(param).emit(
                        Op::ParamAccum { param, index: idx, value: y_scaled },
                    );
                    Lowered {
                        kernel: LinkedView { raw: column_end(kernel.raw, s), ..kernel },
                        resolved: l.resolved,
                        nodes: l.nodes,
                    }
                },
            }
        },
    }
}

fn lower_grad_loop(
    frame: &Frame<'_>,
    node_id: NodeId,
    s: SoftmaxRow,
    row_dot: ValueId,
    resolved: &mut Vec<NodeId>,
    kernel: &mut LinkedKernel,
) -> (r: Result<Vec<NodeId>, Error>)
    requires
        frame@.fits(old(kernel)@, old(resolved)@),
        frame@.operable(node_id),
        frame@.node(node_id).inputs@.len() >= 1,
        s.saved < old(kernel)@.params.len(),
    ensures
        (Lowered { kernel: final(kernel)@, resolved: final(resolved)@, nodes: reached(r) })
            == grad_loop(frame@, node_id, s, row_dot, old(kernel)@, old(resolved)@),
        frame@.fits(final(kernel)@, final(resolved)@),
        final(kernel)@.params.len() == old(kernel)@.params.len(),
        final(kernel)@.meta.len() == old(kernel)@.meta.len(),
    decreases frame@.left(Some(0u8), node_id), 2int, 0int,
{
    let idx: ValueId = emit_column_begin(&mut kernel.raw, s);
    let dy: ValueId = kernel.raw.def_var(DType::Float, ValueState::Mut, None);
    let deep = eval_grad(
        frame,
        &NodeInput::Node(node_id),
        dy,
        resolved,
        kernel,
        idx,
        false,
    );
    if deep.is_err() {
        kernel.raw.emit(Op::EndScope);
        return deep;
    }
    let y: ValueId = emit_saved_result(kernel, s, idx);
    let dy_minus_row_dot: ValueId = kernel.raw.inline_f(Op::Sub { a: dy, b: row_dot });
    let y_scaled: ValueId = kernel.raw.inline_f(Op::Mul { a: y, b: dy_minus_row_dot });
    match frame.node_params[node_id] {
        Some(grad) => {
            kernel.param_accum(grad, idx, y_scaled);
            emit_column_end(&mut kernel.raw, s);
            deep
        },
        None => {
            kernel.raw.emit(Op::EndScope);
            Err(
                Error {
                    msg: "could not materialize grad param in softmax backward",
                    kind: ErrorKind::ParamNotMaterialized,
                    ctx: (),
                },
            )
        },
    }
}

/// What the backward pass of a softmax does to a kernel: the result times what the gradient is
/// above the dot product of the gradient and the result.
///
/// Every thread adds this from the first column on, in steps of the threads of a row, while the dot
/// product is taken from the column of the thread on.
pub open spec fn softmax_grad(
    f: Scope,
    n: NodeId,
    s: SoftmaxRow,
    kernel: LinkedView,
    resolved: Seq<NodeId>,
) -> Lowered
    decreases f.left(Some(0), n), 3int, 0int,
    when f.operable(n)
{
    let (raw, local_dot) = kernel.raw.var_f(Op::ConstF32 { value: Float32 { bits: ZERO_BITS } });
    let d = dot_loop(f, n, s, local_dot, LinkedView { raw, ..kernel }, resolved);
    let raw = shared_row(d.kernel.raw, s, local_dot);
    let (raw, stride_const, stride) = stride_setup(raw, s);
    let raw = reduction(raw, s, stride, false);
    let (raw, row_dot) = raw.let_f(Op::SharedLoad { mem: s.scratch, index: s.zero });
    let raw = raw.emit(Op::Barrier);
    let raw = raw.assign(s.col, Op::ConstU32 { value: 0 });
    let g = grad_loop(f, n, s, row_dot, LinkedView { raw, ..d.kernel }, d.resolved);
    match g.nodes {
        Err(_) => g,
        Ok(_) => Lowered { kernel: g.kernel, resolved: g.resolved, nodes: d.nodes },
    }
}

fn lower_softmax_grad(
    frame: &Frame<'_>,
    node_id: NodeId,
    s: SoftmaxRow,
    resolved: &mut Vec<NodeId>,
    kernel: &mut LinkedKernel,
) -> (r: Result<Vec<NodeId>, Error>)
    requires
        frame@.fits(old(kernel)@, old(resolved)@),
        frame@.operable(node_id),
        frame@.node(node_id).inputs@.len() >= 1,
        s.saved < old(kernel)@.params.len(),
    ensures
        (Lowered { kernel: final(kernel)@, resolved: final(resolved)@, nodes: reached(r) })
            == softmax_grad(frame@, node_id, s, old(kernel)@, old(resolved)@),
        frame@.fits(final(kernel)@, final(resolved)@),
        final(kernel)@.params.len() == old(kernel)@.params.len(),
        final(kernel)@.meta.len() == old(kernel)@.meta.len(),
        r matches Ok(ids) ==> frame@.between(ids@, node_id as int, frame@.count() as int),
    decreases frame@.left(Some(0u8), node_id), 3int, 0int,
{
    let local_dot: ValueId = kernel.raw.var_f(
        Op::ConstF32 { value: Float32 { bits: ZERO_BITS } },
    );
    let dy_deep = lower_dot_loop(frame, node_id, s, local_dot, resolved, kernel);
    emit_shared_row(&mut kernel.raw, s, local_dot);
    let (_stride_const, stride) = emit_stride_setup(&mut kernel.raw, s);
    emit_reduction(&mut kernel.raw, s, stride, false);
    let row_dot: ValueId = kernel.raw.let_f(Op::SharedLoad { mem: s.scratch, index: s.zero });
    kernel.raw.push_barrier();
    kernel.raw.overwrite_var(s.col, Op::ConstU32 { value: 0 });
    match lower_grad_loop(frame, node_id, s, row_dot, resolved, kernel) {
        Ok(_) => dy_deep,
        Err(e) => Err(e),
    }
}

/// What lowering a softmax does to a kernel.
pub open spec fn softmax_lowering(
    f: Scope,
    backwardness: Option<u8>,
    n: NodeId,
    kernel: LinkedView,
    resolved: Seq<NodeId>,
) -> Lowered
    decreases f.left(backwardness, n), 5int, 0int,
    when f.operable(n) && f.node(n).inputs@.len() >= 1
{
    match f.saved_params[n as int] {
        None => unsaved(kernel, resolved),
        Some(saved) => {
            let (kernel, s) = row_setup(f, n, saved, kernel);
            match backwardness {
                None => softmax_value(f, n, s, kernel, resolved),
                Some(edge) => if edge == 0 {
                    softmax_grad(f, n, s, kernel, resolved)
                } else {
                    no_such_input(kernel, resolved)
                },
            }
        },
    }
}

/// Lowers a softmax.
pub fn lower_softmax_recursive(
    frame: &Frame<'_>,
    resolved: &mut Vec<NodeId>,
    backwardness: Option<u8>,
    node_id: NodeId,
    kernel: &mut LinkedKernel,
) -> (r: Result<Vec<NodeId>, Error>)
    requires
        frame@.fits(old(kernel)@, old(resolved)@),
        frame@.operable(node_id),
        frame@.node(node_id).inputs@.len() >= 1,
        frame@.node(node_id).shape@.len() >= 1,
    ensures
        (Lowered { kernel: final(kernel)@, resolved: final(resolved)@, nodes: reached(r) })
            == softmax_lowering(frame@, backwardness, node_id, old(kernel)@, old(resolved)@),
        frame@.fits(final(kernel)@, final(resolved)@),
        final(kernel)@.params.len() == old(kernel)@.params.len(),
        final(kernel)@.meta.len() == old(kernel)@.meta.len(),
        r matches Ok(ids) ==> frame@.reaches(backwardness, node_id, ids@),
    decreases frame@.left(backwardness, node_id), 5int, 0int,
{
    let saved = match frame.saved_params[node_id] {
        Some(saved) => saved,
        None => {
            return Err(
                Error {
                    msg: "could not materialize saved forward param",
                    kind: ErrorKind::ParamNotMaterialized,
                    ctx: (),
                },
            );
        },
    };
    let s = emit_row_setup(frame, node_id, saved, kernel);
    match backwardness {
        None => lower_softmax_value(frame, node_id, s, resolved, kernel),
        Some(0) => lower_softmax_grad(frame, node_id, s, resolved, kernel),
        Some(_) => Err(
            Error {
                msg: "backwardness must be restricted to input count",
                kind: ErrorKind::UnresolvedInput,
                ctx: (),
            },
        ),
    }
}

/// A softmax.
pub open spec fn softmax_op() -> GraphOp {
    GraphOp::Custom {
        lower: OpName::Softmax,
        display: OpName::Softmax,
        save: SaveRule::Softmax,
        valid_shape: ShapeRule::Softmax,
        arity: 1,
        need_dims: true,
        stable_iter: false,
        auto_save: false,
        computes_gid: false,
        prefer_separate: true,
        valid_dispatch: DispatchOptions::ReqCol,
    }
}

impl Graph {
    /// Adds the softmax of a node over its last dimension.
    pub fn softmax(&mut self, x: NodeId) -> (id: NodeId)
        requires
            x < old(self).nodes@.len(),
        ensures
            id == old(self).nodes@.len(),
            final(self).loss == old(self).loss,
            grown(
                old(self).nodes@,
                softmax_op(),
                seq![x],
                old(self).nodes@[x as int].shape@,
                final(self).nodes@,
            ),
    {
        let op = GraphOp::Custom {
            lower: OpName::Softmax,
            display: OpName::Softmax,
            save: SaveRule::Softmax,
            valid_shape: ShapeRule::Softmax,
            arity: 1,
            need_dims: true,
            stable_iter: false,
            auto_save: false,
            computes_gid: false,
            prefer_separate: true,
            valid_dispatch: DispatchOptions::ReqCol,
        };
        let shape = self.nodes[x].shape.clone();
        let inputs: Vec<NodeId> = vec![x];
        assert(inputs@ == seq![x]);
        self.add_node(op, inputs, shape)
    }
}

} // verus!
