//! The lowering of nodes keeps a kernel sound.

use vstd::prelude::*;

use crate::dispatch::backend::kernel::backward::{grad_loaded, node_grad, user_grads};
use crate::dispatch::backend::kernel::forward::node_value;
use crate::dispatch::backend::kernel::frame::{has_operands, Operand, Scope};
use crate::dispatch::backend::kernel::raw::{LinkedView, RawView};
use crate::dispatch::backend::sound::{group_sound, lemma_def_sound, lemma_emit_sound};
use crate::dispatch::backend::sound::marks::{group_marks, lemma_def_marked, lemma_emit_marked};
use crate::dispatch::backend::sound::ops::{lemma_unary_grad_sound, lemma_unary_value_sound};
use crate::dispatch::backend::std_lib;
use crate::dispatch::backend::std_lib::binary::{
    binary_grad, binary_lowering, binary_value, factor_grad,
};
use crate::dispatch::backend::std_lib::matmul::{
    a_index, b_index, factor_value, matmul_lowering, product, product_fields, rest, sized_product,
    terms_rest, tile_product, tile_round, Extent, Terms,
};
use crate::dispatch::backend::std_lib::softmax::{
    column_begin, column_end, dot_loop, exp_loop, grad_loop, max_loop, reduction, row_setup,
    saved_result, scale_loop, shared_row, softmax_grad, softmax_lowering, softmax_value,
    stride_setup, SoftmaxRow,
};
use crate::dispatch::backend::std_lib::unary::{reads_saved, unary_lowering};
use crate::dispatch::backend::{
    Axis, DType, GraphOp, MetaId, NodeId, Op, OpName, ParamId, SharedId, ValueId, ValueState,
};
use crate::scalar::{Float32, MIN_BITS, ZERO_BITS};

verus! {

/// Whether a kernel is sound and has what the first one has: as many marks for parameters and for
/// metadata fields, the same blocks open, and at least the same values.
pub open spec fn carried(before: LinkedView, after: LinkedView) -> bool {
    &&& after.raw.continues(before.raw)
    &&& after.params.len() == before.params.len()
    &&& after.meta.len() == before.meta.len()
    &&& marks(after)
}

/// Whether a kernel is marked for the metadata, and for all the parameters that it takes.
pub open spec fn marks(kernel: LinkedView) -> bool {
    &&& kernel.params.len() > 0
    &&& kernel.params[0]
    &&& kernel.raw.marked(kernel.params)
}

impl Scope {
    /// Whether the parameters, fields and values of a scope are those of a sound kernel.
    pub open spec fn settled(self, kernel: LinkedView) -> bool {
        &&& kernel.raw.sound()
        &&& marks(kernel)
        &&& self.ready(kernel.params.len(), kernel.meta.len())
        &&& self.base < kernel.raw.span()
        &&& self.local_row < kernel.raw.span()
        &&& self.local_col < kernel.raw.span()
        &&& self.tile_size < kernel.raw.span()
    }
}

pub proof fn lemma_node_value_sound(
    f: Scope,
    node: Operand,
    out: ValueId,
    kernel: LinkedView,
    resolved: Seq<NodeId>,
    idx: ValueId,
    stable: bool,
)
    requires
        f.placed(node),
        f.settled(kernel),
        out < kernel.raw.span(),
        idx < kernel.raw.span(),
    ensures
        carried(kernel, node_value(f, node, out, kernel, resolved, idx, stable).kernel),
    decreases f.below(node), 0int, 0int,
{
    broadcast use {group_sound, group_marks};

    match node {
        Operand::Raw(_) => {},
        Operand::Node(n) => {
            let op = f.node(n).op;
            assert(f.node_params[n as int] matches Some(p) ==> p < kernel.params.len());
            assert(f.saved_params[n as int] matches Some(p) ==> p < kernel.params.len());
            if op is Custom && !((op.transform() && !stable) || (op.dims_needed() && f.claimed(
                resolved,
            ))) {
                assert(has_operands(f.nodes, n as int));
                lemma_lowering_sound(
                    f,
                    None,
                    n,
                    out,
                    kernel.computes(op),
                    resolved,
                    idx,
                    stable,
                );
            }
        },
    }
}

pub proof fn lemma_lowering_sound(
    f: Scope,
    backwardness: Option<u8>,
    n: NodeId,
    out: ValueId,
    kernel: LinkedView,
    resolved: Seq<NodeId>,
    idx: ValueId,
    stable: bool,
)
    requires
        f.operable(n),
        f.node(n).op is Custom,
        f.settled(kernel),
        out < kernel.raw.span(),
        idx < kernel.raw.span(),
    ensures
        carried(
            kernel,
            std_lib::lowering(f, backwardness, n, out, kernel, resolved, idx, stable).kernel,
        ),
    decreases f.left(backwardness, n), 9int, 0int,
{
    match f.node(n).op {
        GraphOp::Custom { lower, .. } => match lower {
            OpName::Matmul => {
                lemma_matmul_sound(f, backwardness, n, out, kernel, resolved);
            },
            OpName::Softmax => {
                lemma_softmax_sound(f, backwardness, n, kernel, resolved);
            },
            OpName::Add | OpName::Sub | OpName::Mul | OpName::Div => {
                if backwardness is None {
                    lemma_binary_value_sound(lower, f, n, out, kernel, resolved, idx, stable);
                } else {
                    lemma_binary_grad_sound(
                        lower,
                        f,
                        backwardness->0,
                        n,
                        out,
                        kernel,
                        resolved,
                        idx,
                        stable,
                    );
                }
                assert(binary_lowering(
                    lower,
                    f,
                    backwardness,
                    n,
                    out,
                    kernel,
                    resolved,
                    idx,
                    stable,
                ) == match backwardness {
                    None => binary_value(lower, f, n, out, kernel, resolved, idx, stable),
                    Some(edge) => binary_grad(
                        lower,
                        f,
                        edge,
                        n,
                        out,
                        kernel,
                        resolved,
                        idx,
                        stable,
                    ),
                });
            },
            _ => {
                lemma_unary_sound(
                    lower,
                    f,
                    backwardness,
                    n,
                    out,
                    kernel,
                    resolved,
                    idx,
                    stable,
                );
            },
        },
        _ => {},
    }
}

pub proof fn lemma_node_grad_sound(
    f: Scope,
    node: Operand,
    upstream: ValueId,
    kernel: LinkedView,
    resolved: Seq<NodeId>,
    idx: ValueId,
    stable: bool,
)
    requires
        f.placed(node),
        f.settled(kernel),
        f.knows(node, kernel.params.len()),
        upstream < kernel.raw.span(),
        idx < kernel.raw.span(),
    ensures
        carried(kernel, node_grad(f, node, upstream, kernel, resolved, idx, stable).kernel),
    decreases
            f.above(node),
            0int,
            match node {
                Operand::Node(n) => f.node(n).outputs@.len() + 1,
                Operand::Raw(_) => 0,
            },
{
    broadcast use {group_sound, group_marks};

    match node {
        Operand::Raw(_) => {},
        Operand::Node(n) => {
            let op = f.node(n).op;
            assert(f.node_params[n as int] matches Some(p) ==> p < kernel.params.len());
            if f.node(n).outputs@.len() > 0 && !grad_loaded(f, n, resolved, stable) {
                lemma_user_grads_sound(
                    f,
                    n,
                    0,
                    upstream,
                    kernel.computes(op),
                    resolved,
                    idx,
                    stable,
                    seq![n],
                );
            }
        },
    }
}

pub proof fn lemma_user_grads_sound(
    f: Scope,
    n: NodeId,
    from: int,
    upstream: ValueId,
    kernel: LinkedView,
    resolved: Seq<NodeId>,
    idx: ValueId,
    stable: bool,
    nodes: Seq<NodeId>,
)
    requires
        f.placed(Operand::Node(n)),
        0 <= from <= f.node(n).outputs@.len(),
        f.settled(kernel),
        upstream < kernel.raw.span(),
        idx < kernel.raw.span(),
    ensures
        carried(
            kernel,
            user_grads(f, n, from, upstream, kernel, resolved, idx, stable, nodes).kernel,
        ),
    decreases f.above(Operand::Node(n)), 0int, f.node(n).outputs@.len() - from,
{
    if from < f.node(n).outputs@.len() {
        let user = f.node(n).outputs@[from];
        assert(n < f.nodes[n as int].outputs@[from] < f.nodes.len());
        assert(has_operands(f.nodes, user as int));
        if !f.node(user).op.leaf() && f.node(user).inputs@.contains(n) {
            let edge = f.node(user).inputs@.index_of_first(n).unwrap() as u8;
            lemma_lowering_sound(
                f,
                Some(edge),
                user,
                upstream,
                kernel,
                resolved,
                idx,
                stable,
            );
            let l = std_lib::lowering(
                f,
                Some(edge),
                user,
                upstream,
                kernel,
                resolved,
                idx,
                stable,
            );
            if l.nodes is Ok {
                lemma_user_grads_sound(
                    f,
                    n,
                    from + 1,
                    upstream,
                    l.kernel,
                    l.resolved,
                    idx,
                    stable,
                    nodes + l.nodes->Ok_0,
                );
            }
        }
    }
}

proof fn lemma_unary_sound(
    name: OpName,
    f: Scope,
    backwardness: Option<u8>,
    n: NodeId,
    out: ValueId,
    kernel: LinkedView,
    resolved: Seq<NodeId>,
    idx: ValueId,
    stable: bool,
)
    requires
        f.operable(n),
        f.node(n).inputs@.len() >= 1,
        f.settled(kernel),
        out < kernel.raw.span(),
        idx < kernel.raw.span(),
    ensures
        carried(
            kernel,
            unary_lowering(
                name,
                f,
                backwardness,
                n,
                out,
                kernel,
                resolved,
                idx,
                stable,
            ).kernel,
        ),
    decreases f.left(backwardness, n), 5int, 0int,
{
    broadcast use {group_sound, group_marks};

    let zero = Op::ConstF32 { value: Float32 { bits: ZERO_BITS } };
    assert(f.saved_params[n as int] matches Some(p) ==> p < kernel.params.len());
    match backwardness {
        None => {
            assert(f.nodes[n as int].inputs@[0] < n);
            let (raw, upstream) = kernel.raw.var_f(zero);
            let node = Operand::Node(f.input(n, 0));
            let k = LinkedView { raw, ..kernel };
            lemma_node_value_sound(f, node, upstream, k, resolved, idx, stable);
            let l = node_value(f, node, upstream, k, resolved, idx, stable);
            lemma_unary_value_sound(name, l.kernel.raw, out, upstream);
        },
        Some(edge) => {
            let (raw, saved) = kernel.raw.var_f(zero);
            let k = LinkedView { raw, ..kernel };
            let param = f.saved_params[n as int];
            if edge == 0 && !(reads_saved(name) && param is None) {
                let k = if reads_saved(name) {
                    k.accum(
                        saved,
                        Op::ParamLoad { param: param.unwrap(), index: idx },
                    ).param(param.unwrap())
                } else {
                    k
                };
                let (raw, acc) = k.raw.var_f(zero);
                let k = LinkedView { raw, ..k };
                lemma_node_grad_sound(f, Operand::Node(n), acc, k, resolved, idx, stable);
                let l = node_grad(f, Operand::Node(n), acc, k, resolved, idx, stable);
                lemma_unary_grad_sound(name, l.kernel.raw, out, saved, acc);
            }
        },
    }
}

proof fn lemma_binary_value_sound(
    name: OpName,
    f: Scope,
    n: NodeId,
    out: ValueId,
    kernel: LinkedView,
    resolved: Seq<NodeId>,
    idx: ValueId,
    stable: bool,
)
    requires
        f.operable(n),
        f.node(n).inputs@.len() >= 2,
        f.settled(kernel),
        out < kernel.raw.span(),
        idx < kernel.raw.span(),
    ensures
        carried(
            kernel,
            binary_value(name, f, n, out, kernel, resolved, idx, stable).kernel,
        ),
    decreases f.left(None, n), 4int, 0int,
{
    broadcast use {group_sound, group_marks};

    assert(f.nodes[n as int].inputs@[0] < n);
    assert(f.nodes[n as int].inputs@[1] < n);
    let (k, a_val) = kernel.def(DType::Float, ValueState::Mut, None);
    let a_node = Operand::Node(f.input(n, 0));
    lemma_node_value_sound(f, a_node, a_val, k, resolved, idx, stable);
    let a = node_value(f, a_node, a_val, k, resolved, idx, stable);
    let (k, b_val) = a.kernel.def(DType::Float, ValueState::Mut, None);
    let b_node = Operand::Node(f.input(n, 1));
    lemma_node_value_sound(f, b_node, b_val, k, a.resolved, idx, stable);
}

proof fn lemma_factor_grad_sound(
    name: OpName,
    f: Scope,
    edge: u8,
    n: NodeId,
    out: ValueId,
    g_val: ValueId,
    kernel: LinkedView,
    resolved: Seq<NodeId>,
    idx: ValueId,
    nodes: Seq<NodeId>,
)
    requires
        f.operable(n),
        f.node(n).inputs@.len() >= 2,
        f.settled(kernel),
        out < kernel.raw.span(),
        idx < kernel.raw.span(),
        g_val < kernel.raw.span(),
        edge <= 1,
    ensures
        carried(
            kernel,
            factor_grad(name, f, edge, n, out, g_val, kernel, resolved, idx, nodes).kernel,
        ),
{
    broadcast use {group_sound, group_marks};

    assert(f.nodes[n as int].inputs@[1 - edge] < n);
    assert(f.nodes[n as int].inputs@[1] < n);
    assert(f.saved_params[f.input(n, 1 - edge) as int] matches Some(p) ==> p
        < kernel.params.len());
    assert(f.saved_params[f.input(n, 1) as int] matches Some(p) ==> p < kernel.params.len());
}

proof fn lemma_binary_grad_sound(
    name: OpName,
    f: Scope,
    edge: u8,
    n: NodeId,
    out: ValueId,
    kernel: LinkedView,
    resolved: Seq<NodeId>,
    idx: ValueId,
    stable: bool,
)
    requires
        f.operable(n),
        f.node(n).inputs@.len() >= 2,
        f.settled(kernel),
        out < kernel.raw.span(),
        idx < kernel.raw.span(),
    ensures
        carried(
            kernel,
            binary_grad(name, f, edge, n, out, kernel, resolved, idx, stable).kernel,
        ),
    decreases f.left(Some(edge), n), 4int, 0int,
{
    broadcast use {group_sound, group_marks};

    let node = Operand::Node(n);
    lemma_node_grad_sound(f, node, out, kernel, resolved, idx, stable);
    if edge <= 1 {
        let zero = Op::ConstF32 { value: Float32 { bits: ZERO_BITS } };
        let (raw, g_val) = kernel.raw.var_f(zero);
        let k = LinkedView { raw, ..kernel };
        lemma_node_grad_sound(f, node, g_val, k, resolved, idx, stable);
        let l = node_grad(f, node, g_val, k, resolved, idx, stable);
        if let Ok(nodes) = l.nodes {
            lemma_factor_grad_sound(
                name,
                f,
                edge,
                n,
                out,
                g_val,
                l.kernel,
                l.resolved,
                idx,
                nodes,
            );
        }
    }
}

proof fn lemma_matmul_sound(
    f: Scope,
    backwardness: Option<u8>,
    n: NodeId,
    out: ValueId,
    kernel: LinkedView,
    resolved: Seq<NodeId>,
)
    requires
        f.operable(n),
        f.node(n).op matches GraphOp::Custom { lower, .. } && lower == OpName::Matmul,
        f.settled(kernel),
        out < kernel.raw.span(),
    ensures
        carried(kernel, matmul_lowering(f, backwardness, n, out, kernel, resolved).kernel),
    decreases f.left(backwardness, n), 5int, 0int,
{
    broadcast use {group_sound, group_marks};

    let (raw, row) = kernel.raw.let_u(Op::GlobalId { axis: Axis::Y });
    let (raw, col) = raw.let_u(Op::GlobalId { axis: Axis::X });
    let k = LinkedView { raw, ..kernel };
    let a = f.input(n, 0);
    let b = f.input(n, 1);
    assert(f.nodes[n as int].inputs@[0] < n);
    assert(f.nodes[n as int].inputs@[1] < n);
    let fields = product_fields(f, backwardness, n);
    assert(fields.0 < kernel.meta.len() && fields.1 < kernel.meta.len() && fields.2
        < kernel.meta.len());
    match backwardness {
        None => {
            let terms = Terms {
                a: Operand::Node(a),
                b: Operand::Node(b),
                swap_a: false,
                swap_b: false,
            };
            lemma_sized_product_sound(f, false, fields, row, col, terms, out, k, resolved);
        },
        Some(edge) => {
            let slot = f.saved_params[if edge == 0 {
                b as int
            } else {
                a as int
            }];
            if slot is Some {
                let param = slot->0;
                assert(param < kernel.params.len());
                let terms = if edge == 0 {
                    Terms {
                        a: Operand::Node(n),
                        b: Operand::Raw(param),
                        swap_a: false,
                        swap_b: true,
                    }
                } else {
                    Terms {
                        a: Operand::Raw(param),
                        b: Operand::Node(n),
                        swap_a: true,
                        swap_b: false,
                    }
                };
                lemma_sized_product_sound(f, true, fields, row, col, terms, out, k, resolved);
            }
        },
    }
}

proof fn lemma_sized_product_sound(
    f: Scope,
    backward: bool,
    fields: (MetaId, MetaId, MetaId),
    row: ValueId,
    col: ValueId,
    terms: Terms,
    out: ValueId,
    kernel: LinkedView,
    resolved: Seq<NodeId>,
)
    requires
        f.placed(terms.a),
        f.placed(terms.b),
        f.knows(terms.a, kernel.params.len()),
        f.knows(terms.b, kernel.params.len()),
        f.settled(kernel),
        fields.0 < kernel.meta.len(),
        fields.1 < kernel.meta.len(),
        fields.2 < kernel.meta.len(),
        row < kernel.raw.span(),
        col < kernel.raw.span(),
        out < kernel.raw.span(),
    ensures
        carried(
            kernel,
            sized_product(f, backward, fields, row, col, terms, out, kernel, resolved).kernel,
        ),
    decreases terms_rest(f, backward, terms), 4int, 0int,
{
    broadcast use {group_sound, group_marks};

    let (raw, m) = kernel.raw.let_u(Op::ReadMeta { param: 0, field: fields.0 });
    let (raw, n) = raw.let_u(Op::ReadMeta { param: 0, field: fields.1 });
    let (raw, k) = raw.let_u(Op::ReadMeta { param: 0, field: fields.2 });
    let kernel2 = LinkedView { raw, ..kernel }.field(fields.0).field(fields.1).field(fields.2);
    let kernel3 = if backward {
        kernel2
    } else {
        kernel2.assign(out, Op::ConstF32 { value: Float32 { bits: ZERO_BITS } })
    };
    lemma_product_sound(
        f,
        backward,
        Extent { m, n, k, row, col },
        terms,
        out,
        kernel3,
        resolved,
    );
}

proof fn lemma_product_sound(
    f: Scope,
    backward: bool,
    e: Extent,
    terms: Terms,
    out: ValueId,
    kernel: LinkedView,
    resolved: Seq<NodeId>,
)
    requires
        f.placed(terms.a),
        f.placed(terms.b),
        f.knows(terms.a, kernel.params.len()),
        f.knows(terms.b, kernel.params.len()),
        f.settled(kernel),
        e.m < kernel.raw.span(),
        e.n < kernel.raw.span(),
        e.k < kernel.raw.span(),
        e.row < kernel.raw.span(),
        e.col < kernel.raw.span(),
        out < kernel.raw.span(),
    ensures
        carried(kernel, product(f, backward, e, terms, out, kernel, resolved).kernel),
    decreases terms_rest(f, backward, terms), 3int, 0int,
{
    broadcast use {group_sound, group_marks};

    let (raw, a_tile) = kernel.raw.share(DType::Float, f.shared_size);
    let (raw, b_tile) = raw.share(DType::Float, f.shared_size);
    let (raw, one) = raw.inline_u(Op::ConstU32 { value: 1 });
    let (raw, tk) = raw.var_u(Op::ConstU32 { value: 0 });
    let (raw, tile_row) = raw.inline_u(Op::Mul { a: f.local_row, b: f.tile_size });
    let (raw, shared_idx) = raw.var_u(Op::Add { a: tile_row, b: f.local_col });
    let raw = raw.emit(Op::ForLoopBegin { index: tk, end: e.k, step: f.tile_size });
    lemma_tile_round_sound(
        f,
        backward,
        e,
        terms,
        (a_tile, b_tile),
        one,
        tk,
        shared_idx,
        out,
        LinkedView { raw, ..kernel },
        resolved,
    );
}

proof fn lemma_a_index_sound(r: RawView, swap: bool, e: Extent, a_k: ValueId, base: ValueId)
    requires
        r.sound(),
        e.m < r.span(),
        e.k < r.span(),
        e.row < r.span(),
        a_k < r.span(),
        base < r.span(),
    ensures
        a_index(r, swap, e, a_k, base).0.continues(r),
        forall|flags: Seq<bool>|
            r.marked(flags) ==> #[trigger] a_index(r, swap, e, a_k, base).0.marked(flags),
        a_index(r, swap, e, a_k, base).1 < a_index(r, swap, e, a_k, base).0.span(),
{
    broadcast use {group_sound, group_marks};

}

proof fn lemma_b_index_sound(r: RawView, swap: bool, e: Extent, b_k: ValueId, base: ValueId)
    requires
        r.sound(),
        e.n < r.span(),
        e.k < r.span(),
        e.col < r.span(),
        b_k < r.span(),
        base < r.span(),
    ensures
        b_index(r, swap, e, b_k, base).0.continues(r),
        forall|flags: Seq<bool>|
            r.marked(flags) ==> #[trigger] b_index(r, swap, e, b_k, base).0.marked(flags),
        b_index(r, swap, e, b_k, base).1 < b_index(r, swap, e, b_k, base).0.span(),
{
    broadcast use {group_sound, group_marks};

}

proof fn lemma_tile_product_sound(
    r: RawView,
    f: Scope,
    a_tile: SharedId,
    b_tile: SharedId,
    one: ValueId,
    out: ValueId,
)
    requires
        r.sound(),
        f.local_row < r.span(),
        f.local_col < r.span(),
        f.tile_size < r.span(),
        one < r.span(),
        out < r.span(),
    ensures
        tile_product(r, f, a_tile, b_tile, one, out).continues(r),
        forall|flags: Seq<bool>|
            r.marked(flags) ==> #[trigger] tile_product(r, f, a_tile, b_tile, one, out).marked(flags),
{
    broadcast use {group_sound, group_marks};

}

proof fn lemma_factor_sound(
    f: Scope,
    backward: bool,
    node: Operand,
    out: ValueId,
    kernel: LinkedView,
    resolved: Seq<NodeId>,
    idx: ValueId,
)
    requires
        f.placed(node),
        f.knows(node, kernel.params.len()),
        f.settled(kernel),
        out < kernel.raw.span(),
        idx < kernel.raw.span(),
    ensures
        carried(kernel, factor_value(f, backward, node, out, kernel, resolved, idx).kernel),
    decreases rest(f, backward, node), 1int, 0int,
{
    if backward {
        lemma_node_grad_sound(f, node, out, kernel, resolved, idx, false);
    } else {
        lemma_node_value_sound(f, node, out, kernel, resolved, idx, false);
    }
}

proof fn lemma_tile_columns_sound(r: RawView, f: Scope, tk: ValueId, flags: Seq<bool>)
    requires
        r.sound(),
        r.marked(flags),
        tk < r.span(),
        f.local_row < r.span(),
        f.local_col < r.span(),
    ensures
        ({
            let (r1, a_k) = r.let_u(Op::Add { a: tk, b: f.local_col });
            let (r2, b_k) = r1.let_u(Op::Add { a: tk, b: f.local_row });
            r2.continues(r) && r2.marked(flags) && a_k < r2.span() && b_k < r2.span()
        }),
{
    broadcast use {group_sound, group_marks};

}

proof fn lemma_zero_sound(r: RawView, flags: Seq<bool>)
    requires
        r.sound(),
        r.marked(flags),
    ensures
        ({
            let (q, id) = r.var_f(Op::ConstF32 { value: Float32 { bits: ZERO_BITS } });
            q.continues(r) && q.marked(flags) && id < q.span()
        }),
{
    broadcast use {group_sound, group_marks};

}

proof fn lemma_tile_store_sound(
    r: RawView,
    mem: SharedId,
    index: ValueId,
    value: ValueId,
    flags: Seq<bool>,
)
    requires
        r.sound(),
        r.marked(flags),
        index < r.span(),
        value < r.span(),
    ensures
        ({
            let q = r.emit(Op::SharedStore { mem, index, value });
            let b = q.emit(Op::Barrier);
            q.continues(r) && q.marked(flags) && b.continues(r) && b.marked(flags)
        }),
{
    broadcast use {group_sound, group_marks};

}

proof fn lemma_tile_round_sound(
    f: Scope,
    backward: bool,
    e: Extent,
    terms: Terms,
    tiles: (SharedId, SharedId),
    one: ValueId,
    tk: ValueId,
    shared_idx: ValueId,
    out: ValueId,
    kernel: LinkedView,
    resolved: Seq<NodeId>,
)
    requires
        f.placed(terms.a),
        f.placed(terms.b),
        f.knows(terms.a, kernel.params.len()),
        f.knows(terms.b, kernel.params.len()),
        f.settled(kernel),
        e.m < kernel.raw.span(),
        e.n < kernel.raw.span(),
        e.k < kernel.raw.span(),
        e.row < kernel.raw.span(),
        e.col < kernel.raw.span(),
        one < kernel.raw.span(),
        tk < kernel.raw.span(),
        shared_idx < kernel.raw.span(),
        out < kernel.raw.span(),
    ensures
        carried(
            kernel,
            tile_round(
                f,
                backward,
                e,
                terms,
                tiles,
                one,
                tk,
                shared_idx,
                out,
                kernel,
                resolved,
            ).kernel,
        ),
    decreases terms_rest(f, backward, terms), 2int, 0int,
{
    let zero = Op::ConstF32 { value: Float32 { bits: ZERO_BITS } };
    let (raw1, a_k) = kernel.raw.let_u(Op::Add { a: tk, b: f.local_col });
    let (raw2, b_k) = raw1.let_u(Op::Add { a: tk, b: f.local_row });
    lemma_tile_columns_sound(kernel.raw, f, tk, kernel.params);
    lemma_a_index_sound(raw2, terms.swap_a, e, a_k, f.base);
    let (raw3, a_idx) = a_index(raw2, terms.swap_a, e, a_k, f.base);
    let (raw4, a_val) = raw3.var_f(zero);
    lemma_zero_sound(raw3, kernel.params);
    let k = LinkedView { raw: raw4, ..kernel };
    lemma_factor_sound(f, backward, terms.a, a_val, k, resolved, a_idx);
    let a = factor_value(f, backward, terms.a, a_val, k, resolved, a_idx);
    let raw5 = a.kernel.raw.emit(
        Op::SharedStore { mem: tiles.0, index: shared_idx, value: a_val },
    );
    lemma_tile_store_sound(a.kernel.raw, tiles.0, shared_idx, a_val, a.kernel.params);
    lemma_b_index_sound(raw5, terms.swap_b, e, b_k, f.base);
    let (raw6, b_idx) = b_index(raw5, terms.swap_b, e, b_k, f.base);
    let (raw7, b_val) = raw6.var_f(zero);
    lemma_zero_sound(raw6, a.kernel.params);
    let k = LinkedView { raw: raw7, ..a.kernel };
    lemma_factor_sound(f, backward, terms.b, b_val, k, a.resolved, b_idx);
    let b = factor_value(f, backward, terms.b, b_val, k, a.resolved, b_idx);
    let raw8 = b.kernel.raw.emit(
        Op::SharedStore { mem: tiles.1, index: shared_idx, value: b_val },
    ).emit(Op::Barrier);
    lemma_tile_store_sound(b.kernel.raw, tiles.1, shared_idx, b_val, b.kernel.params);
    lemma_tile_product_sound(raw8, f, tiles.0, tiles.1, one, out);
    let raw9 = tile_product(raw8, f, tiles.0, tiles.1, one, out);
    lemma_emit_sound(raw9, Op::Barrier);
    lemma_emit_marked(raw9, Op::Barrier, b.kernel.params);
}

impl SoftmaxRow {
    /// Whether the values of a row are those of a kernel.
    pub open spec fn placed(self, r: RawView) -> bool {
        &&& self.tid < r.span()
        &&& self.cols < r.span()
        &&& self.size < r.span()
        &&& self.zero < r.span()
        &&& self.one < r.span()
        &&& self.one_f < r.span()
        &&& self.row < r.span()
        &&& self.col < r.span()
    }
}

proof fn lemma_row_setup_sound(f: Scope, n: NodeId, saved: ParamId, kernel: LinkedView)
    requires
        f.settled(kernel),
        f.node(n).shape@.last() < kernel.meta.len(),
    ensures
        carried(kernel, row_setup(f, n, saved, kernel).0),
        row_setup(f, n, saved, kernel).1.placed(row_setup(f, n, saved, kernel).0.raw),
        row_setup(f, n, saved, kernel).1.saved == saved,
{
    broadcast use {group_sound, group_marks};

}

proof fn lemma_column_begin_sound(r: RawView, s: SoftmaxRow)
    requires
        r.sound(),
        s.placed(r),
    ensures
        column_begin(r, s).0.sound(),
        forall|flags: Seq<bool>|
            r.marked(flags) ==> #[trigger] column_begin(r, s).0.marked(flags),
        column_begin(r, s).0.level() == r.level() + 1,
        column_begin(r, s).0.span() >= r.span(),
        column_begin(r, s).0.launched_as(r),
        column_begin(r, s).1 < column_begin(r, s).0.span(),
{
    broadcast use {group_sound, group_marks};

}

proof fn lemma_column_end_sound(r: RawView, s: SoftmaxRow)
    requires
        r.sound(),
        r.level() >= 1,
        s.placed(r),
    ensures
        column_end(r, s).sound(),
        forall|flags: Seq<bool>|
            r.marked(flags) ==> #[trigger] column_end(r, s).marked(flags),
        column_end(r, s).level() == r.level() - 1,
        column_end(r, s).span() >= r.span(),
        column_end(r, s).launched_as(r),
{
    broadcast use {group_sound, group_marks};

}

proof fn lemma_stride_setup_sound(r: RawView, s: SoftmaxRow)
    requires
        r.sound(),
        s.placed(r),
    ensures
        stride_setup(r, s).0.continues(r),
        forall|flags: Seq<bool>|
            r.marked(flags) ==> #[trigger] stride_setup(r, s).0.marked(flags),
        stride_setup(r, s).1 < stride_setup(r, s).0.span(),
        stride_setup(r, s).2 < stride_setup(r, s).0.span(),
{
    broadcast use {group_sound, group_marks};

}

proof fn lemma_reduction_sound(r: RawView, s: SoftmaxRow, stride: ValueId, greatest: bool)
    requires
        r.sound(),
        s.placed(r),
        stride < r.span(),
    ensures
        reduction(r, s, stride, greatest).continues(r),
        forall|flags: Seq<bool>|
            r.marked(flags) ==> #[trigger] reduction(r, s, stride, greatest).marked(flags),
{
    broadcast use {group_sound, group_marks};

}

proof fn lemma_shared_row_sound(r: RawView, s: SoftmaxRow, value: ValueId)
    requires
        r.sound(),
        s.placed(r),
        value < r.span(),
    ensures
        shared_row(r, s, value).continues(r),
        forall|flags: Seq<bool>|
            r.marked(flags) ==> #[trigger] shared_row(r, s, value).marked(flags),
{
    broadcast use {group_sound, group_marks};

}

proof fn lemma_max_loop_sound(
    f: Scope,
    n: NodeId,
    s: SoftmaxRow,
    local_max: ValueId,
    kernel: LinkedView,
    resolved: Seq<NodeId>,
)
    requires
        f.operable(n),
        f.node(n).inputs@.len() >= 1,
        f.settled(kernel),
        s.placed(kernel.raw),
        local_max < kernel.raw.span(),
    ensures
        carried(kernel, max_loop(f, n, s, local_max, kernel, resolved).kernel),
    decreases f.left(None, n), 2int, 0int,
{
    broadcast use {group_sound, group_marks};

    assert(f.nodes[n as int].inputs@[0] < n);
    lemma_column_begin_sound(kernel.raw, s);
    let (raw, idx) = column_begin(kernel.raw, s);
    let (raw, x_val) = raw.def(DType::Float, ValueState::Mut, None);
    let node = Operand::Node(f.input(n, 0));
    let k = LinkedView { raw, ..kernel };
    lemma_node_value_sound(f, node, x_val, k, resolved, idx, false);
    let l = node_value(f, node, x_val, k, resolved, idx, false);
    let raw = l.kernel.raw.assign(local_max, Op::Max { a: local_max, b: x_val });
    lemma_column_end_sound(raw, s);
}

proof fn lemma_exp_loop_sound(
    f: Scope,
    n: NodeId,
    s: SoftmaxRow,
    row_max: ValueId,
    local_sum: ValueId,
    kernel: LinkedView,
    resolved: Seq<NodeId>,
)
    requires
        f.operable(n),
        f.node(n).inputs@.len() >= 1,
        f.settled(kernel),
        s.placed(kernel.raw),
        s.saved < kernel.params.len(),
        row_max < kernel.raw.span(),
        local_sum < kernel.raw.span(),
    ensures
        carried(kernel, exp_loop(f, n, s, row_max, local_sum, kernel, resolved).kernel),
    decreases f.left(None, n), 2int, 0int,
{
    broadcast use {group_sound, group_marks};

    assert(f.nodes[n as int].inputs@[0] < n);
    assert(f.node_params[n as int] matches Some(p) ==> p < kernel.params.len());
    lemma_column_begin_sound(kernel.raw, s);
    let (raw, idx) = column_begin(kernel.raw, s);
    let (raw, x_val) = raw.def(DType::Float, ValueState::Mut, None);
    let node = Operand::Node(f.input(n, 0));
    let k = LinkedView { raw, ..kernel };
    lemma_node_value_sound(f, node, x_val, k, resolved, idx, false);
    let l = node_value(f, node, x_val, k, resolved, idx, false);
    let (raw, x_minus_max) = l.kernel.raw.inline_f(Op::Sub { a: x_val, b: row_max });
    let (raw, e) = raw.let_f(Op::Exp { x: x_minus_max });
    let k = LinkedView { raw, ..l.kernel }.store(s.saved, idx, e);
    let k = match f.node_params[n as int] {
        Some(output) => k.store(output, idx, e),
        None => k,
    };
    let raw = k.raw.accum(local_sum, Op::CopyVar { id: e });
    lemma_column_end_sound(raw, s);
}

proof fn lemma_scale_loop_sound(
    output: Option<ParamId>,
    s: SoftmaxRow,
    inv_row_sum: ValueId,
    kernel: LinkedView,
)
    requires
        kernel.raw.sound(),
        marks(kernel),
        s.placed(kernel.raw),
        s.saved < kernel.params.len(),
        output matches Some(p) ==> p < kernel.params.len(),
        inv_row_sum < kernel.raw.span(),
    ensures
        carried(kernel, scale_loop(output, s, inv_row_sum, kernel)),
{
    broadcast use {group_sound, group_marks};

    lemma_column_begin_sound(kernel.raw, s);
    let (raw, idx) = column_begin(kernel.raw, s);
    let k = LinkedView { raw, ..kernel }.param(s.saved).emit(
        Op::ParamMul { param: s.saved, index: idx, value: inv_row_sum },
    );
    let k = match output {
        Some(param) => k.param(param).emit(
            Op::ParamMul { param, index: idx, value: inv_row_sum },
        ),
        None => k,
    };
    lemma_column_end_sound(k.raw, s);
}

/// Reading the greatest number of a row, and starting the sum.
proof fn lemma_row_read_sound(r: RawView, s: SoftmaxRow)
    requires
        r.sound(),
        s.placed(r),
    ensures
        ({
            let (r1, row_max) = r.let_f(Op::SharedLoad { mem: s.scratch, index: s.zero });
            let r2 = r1.emit(Op::Barrier);
            let (r3, sum) = r2.var_f(Op::ConstF32 { value: Float32 { bits: ZERO_BITS } });
            let r4 = r3.assign(s.col, Op::CopyVar { id: s.tid });
            &&& r4.continues(r)
            &&& row_max < r4.span()
            &&& sum < r4.span()
            &&& forall|flags: Seq<bool>| r.marked(flags) ==> #[trigger] r4.marked(flags)
        }),
{
    broadcast use {group_sound, group_marks};

}

/// Reading the sum of a row, and inverting it.
proof fn lemma_row_inverse_sound(r: RawView, s: SoftmaxRow)
    requires
        r.sound(),
        s.placed(r),
    ensures
        ({
            let (r1, row_sum) = r.inline_f(Op::SharedLoad { mem: s.scratch, index: s.zero });
            let (r2, inverse) = r1.let_f(Op::Div { a: s.one_f, b: row_sum });
            let r3 = r2.emit(Op::Barrier).assign(s.col, Op::CopyVar { id: s.tid });
            &&& r3.continues(r)
            &&& inverse < r3.span()
            &&& forall|flags: Seq<bool>| r.marked(flags) ==> #[trigger] r3.marked(flags)
        }),
{
    broadcast use {group_sound, group_marks};

}

proof fn lemma_softmax_value_sound(
    f: Scope,
    n: NodeId,
    s: SoftmaxRow,
    kernel: LinkedView,
    resolved: Seq<NodeId>,
)
    requires
        f.operable(n),
        f.node(n).inputs@.len() >= 1,
        f.settled(kernel),
        s.placed(kernel.raw),
        s.saved < kernel.params.len(),
    ensures
        carried(kernel, softmax_value(f, n, s, kernel, resolved).kernel),
    decreases f.left(None, n), 3int, 0int,
{
    assert(f.node_params[n as int] matches Some(p) ==> p < kernel.params.len());
    let (raw1, local_max) = kernel.raw.var_f(Op::ConstF32 { value: Float32 { bits: MIN_BITS } });
    lemma_def_sound(
        kernel.raw,
        DType::Float,
        ValueState::Mut,
        Some(Op::ConstF32 { value: Float32 { bits: MIN_BITS } }),
    );
    lemma_def_marked(
        kernel.raw,
        DType::Float,
        ValueState::Mut,
        Some(Op::ConstF32 { value: Float32 { bits: MIN_BITS } }),
        kernel.params,
    );
    let k = LinkedView { raw: raw1, ..kernel };
    lemma_max_loop_sound(f, n, s, local_max, k, resolved);
    let x = max_loop(f, n, s, local_max, k, resolved);
    lemma_shared_row_sound(x.kernel.raw, s, local_max);
    let raw2 = shared_row(x.kernel.raw, s, local_max);
    lemma_stride_setup_sound(raw2, s);
    let (raw3, stride_const, stride) = stride_setup(raw2, s);
    lemma_reduction_sound(raw3, s, stride, true);
    let raw4 = reduction(raw3, s, stride, true);
    let (raw5, row_max) = raw4.let_f(Op::SharedLoad { mem: s.scratch, index: s.zero });
    let raw6 = raw5.emit(Op::Barrier);
    let (raw7, local_sum) = raw6.var_f(Op::ConstF32 { value: Float32 { bits: ZERO_BITS } });
    let raw8 = raw7.assign(s.col, Op::CopyVar { id: s.tid });
    lemma_row_read_sound(raw4, s);
    let k = LinkedView { raw: raw8, ..x.kernel };
    lemma_exp_loop_sound(f, n, s, row_max, local_sum, k, x.resolved);
    let e = exp_loop(f, n, s, row_max, local_sum, k, x.resolved);
    lemma_shared_row_sound(e.kernel.raw, s, local_sum);
    let raw9 = shared_row(e.kernel.raw, s, local_sum);
    let raw10 = raw9.assign(stride, Op::CopyVar { id: stride_const });
    lemma_emit_sound(
        raw9,
        Op::OverwriteVar { id: stride, val: Box::new(Op::CopyVar { id: stride_const }) },
    );
    lemma_emit_marked(
        raw9,
        Op::OverwriteVar { id: stride, val: Box::new(Op::CopyVar { id: stride_const }) },
        e.kernel.params,
    );
    lemma_reduction_sound(raw10, s, stride, false);
    let raw11 = reduction(raw10, s, stride, false);
    let (raw12, row_sum) = raw11.inline_f(Op::SharedLoad { mem: s.scratch, index: s.zero });
    let (raw13, inv_row_sum) = raw12.let_f(Op::Div { a: s.one_f, b: row_sum });
    let raw14 = raw13.emit(Op::Barrier).assign(s.col, Op::CopyVar { id: s.tid });
    lemma_row_inverse_sound(raw11, s);
    lemma_scale_loop_sound(
        f.node_params[n as int],
        s,
        inv_row_sum,
        LinkedView { raw: raw14, ..e.kernel },
    );
}

proof fn lemma_dot_loop_sound(
    f: Scope,
    n: NodeId,
    s: SoftmaxRow,
    local_dot: ValueId,
    kernel: LinkedView,
    resolved: Seq<NodeId>,
)
    requires
        f.operable(n),
        f.settled(kernel),
        s.placed(kernel.raw),
        s.saved < kernel.params.len(),
        local_dot < kernel.raw.span(),
    ensures
        carried(kernel, dot_loop(f, n, s, local_dot, kernel, resolved).kernel),
    decreases f.left(Some(0), n), 2int, 0int,
{
    broadcast use {group_sound, group_marks};

    lemma_column_begin_sound(kernel.raw, s);
    let (raw, idx) = column_begin(kernel.raw, s);
    let (raw, dy) = raw.var_f(Op::ConstF32 { value: Float32 { bits: ZERO_BITS } });
    let k = LinkedView { raw, ..kernel };
    lemma_node_grad_sound(f, Operand::Node(n), dy, k, resolved, idx, false);
    let l = node_grad(f, Operand::Node(n), dy, k, resolved, idx, false);
    let (k, y) = saved_result(l.kernel, s, idx);
    let raw = k.raw.accum(local_dot, Op::Mul { a: dy, b: y });
    lemma_column_end_sound(raw, s);
}

proof fn lemma_grad_loop_sound(
    f: Scope,
    n: NodeId,
    s: SoftmaxRow,
    row_dot: ValueId,
    kernel: LinkedView,
    resolved: Seq<NodeId>,
)
    requires
        f.operable(n),
        f.settled(kernel),
        s.placed(kernel.raw),
        s.saved < kernel.params.len(),
        row_dot < kernel.raw.span(),
    ensures
        carried(kernel, grad_loop(f, n, s, row_dot, kernel, resolved).kernel),
    decreases f.left(Some(0), n), 2int, 0int,
{
    broadcast use {group_sound, group_marks};

    assert(f.node_params[n as int] matches Some(p) ==> p < kernel.params.len());
    lemma_column_begin_sound(kernel.raw, s);
    let (raw, idx) = column_begin(kernel.raw, s);
    let (raw, dy) = raw.def(DType::Float, ValueState::Mut, None);
    let k = LinkedView { raw, ..kernel };
    lemma_node_grad_sound(f, Operand::Node(n), dy, k, resolved, idx, false);
    let l = node_grad(f, Operand::Node(n), dy, k, resolved, idx, false);
    let (k, y) = saved_result(l.kernel, s, idx);
    let (raw, dy_minus_row_dot) = k.raw.inline_f(Op::Sub { a: dy, b: row_dot });
    let (raw, y_scaled) = raw.inline_f(Op::Mul { a: y, b: dy_minus_row_dot });
    let k = LinkedView { raw, ..k };
    if f.node_params[n as int] is Some {
        let param = f.node_params[n as int]->0;
        let k = k.param(param).emit(Op::ParamAccum { param, index: idx, value: y_scaled });
        lemma_column_end_sound(k.raw, s);
    }
}

/// Reading the dot product of a row, and going back to its start.
proof fn lemma_row_dot_sound(r: RawView, s: SoftmaxRow, flags: Seq<bool>)
    requires
        r.sound(),
        r.marked(flags),
        s.placed(r),
    ensures
        ({
            let (r1, row_dot) = r.let_f(Op::SharedLoad { mem: s.scratch, index: s.zero });
            let r2 = r1.emit(Op::Barrier).assign(s.col, Op::ConstU32 { value: 0 });
            r2.continues(r) && r2.marked(flags) && row_dot < r2.span()
        }),
{
    broadcast use {group_sound, group_marks};

}

proof fn lemma_softmax_grad_sound(
    f: Scope,
    n: NodeId,
    s: SoftmaxRow,
    kernel: LinkedView,
    resolved: Seq<NodeId>,
)
    requires
        f.operable(n),
        f.settled(kernel),
        s.placed(kernel.raw),
        s.saved < kernel.params.len(),
    ensures
        carried(kernel, softmax_grad(f, n, s, kernel, resolved).kernel),
    decreases f.left(Some(0), n), 3int, 0int,
{
    let (raw, local_dot) = kernel.raw.var_f(Op::ConstF32 { value: Float32 { bits: ZERO_BITS } });
    lemma_zero_sound(kernel.raw, kernel.params);
    let k = LinkedView { raw, ..kernel };
    lemma_dot_loop_sound(f, n, s, local_dot, k, resolved);
    let d = dot_loop(f, n, s, local_dot, k, resolved);
    lemma_shared_row_sound(d.kernel.raw, s, local_dot);
    let raw = shared_row(d.kernel.raw, s, local_dot);
    lemma_stride_setup_sound(raw, s);
    let (raw, stride_const, stride) = stride_setup(raw, s);
    lemma_reduction_sound(raw, s, stride, false);
    let raw = reduction(raw, s, stride, false);
    lemma_row_dot_sound(raw, s, d.kernel.params);
    let (raw, row_dot) = raw.let_f(Op::SharedLoad { mem: s.scratch, index: s.zero });
    let raw = raw.emit(Op::Barrier);
    let raw = raw.assign(s.col, Op::ConstU32 { value: 0 });
    lemma_grad_loop_sound(f, n, s, row_dot, LinkedView { raw, ..d.kernel }, d.resolved);
}

proof fn lemma_softmax_sound(
    f: Scope,
    backwardness: Option<u8>,
    n: NodeId,
    kernel: LinkedView,
    resolved: Seq<NodeId>,
)
    requires
        f.operable(n),
        f.node(n).op matches GraphOp::Custom { lower, .. } && lower == OpName::Softmax,
        f.settled(kernel),
    ensures
        carried(kernel, softmax_lowering(f, backwardness, n, kernel, resolved).kernel),
    decreases f.left(backwardness, n), 5int, 0int,
{
    if f.saved_params[n as int] is Some {
        let saved = f.saved_params[n as int]->0;
        assert(saved < kernel.params.len());
        let shape = f.nodes[n as int].shape@;
        assert(shape[shape.len() - 1] < kernel.meta.len());
        lemma_row_setup_sound(f, n, saved, kernel);
        let (k, s) = row_setup(f, n, saved, kernel);
        match backwardness {
            None => {
                lemma_softmax_value_sound(f, n, s, k, resolved);
            },
            Some(edge) => {
                if edge == 0 {
                    lemma_softmax_grad_sound(f, n, s, k, resolved);
                }
            },
        }
    }
}

} // verus!
