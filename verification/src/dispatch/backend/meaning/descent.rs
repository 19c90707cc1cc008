//! What the kernels of a backward pass compute, where operations that work element by element are
//! fused with products of matrices.

use vstd::prelude::*;

use crate::dispatch::backend::kernel::backward::{grad_loaded, node_grad, user_grads};
use crate::dispatch::backend::kernel::frame::{has_operands, Operand, Scope};
use crate::dispatch::backend::kernel::raw::{LinkedView, RawView};
use crate::dispatch::backend::meaning::backward::operand;
use crate::dispatch::backend::meaning::emitted::{
    grows, lemma_grows_on, lemma_stages_grow, stages,
};
use crate::dispatch::backend::meaning::facts::lemma_emit_keeps;
use crate::dispatch::backend::meaning::forward::is_joined;
use crate::dispatch::backend::meaning::fused::{size, Scene};
use crate::dispatch::backend::meaning::ops::graded;
use crate::dispatch::backend::meaning::product::zero;
use crate::dispatch::backend::meaning::spared::{lemma_new_keeps, lemma_product_keeps};
use crate::dispatch::backend::meaning::tiles::Place;
use crate::dispatch::backend::meaning::{fused, load, negated, num, over, plus, times, Expr};
use crate::dispatch::backend::std_lib::binary::{binary_grad, binary_lowering, factor_grad};
use crate::dispatch::backend::std_lib::lowering;
use crate::dispatch::backend::std_lib::matmul::{
    factor_value, matmul_lowering, product, product_fields, Extent, Terms,
};
use crate::dispatch::backend::std_lib::unary::{reads_saved, unary_grad, unary_lowering};
use crate::dispatch::backend::{
    Axis, DispatchOptions, GraphOp, MetaId, Node, NodeId, Op, OpName, ParamId, ValueId,
};
use crate::scalar::ZERO_BITS;

verus! {

/// The parameter that holds the gradient of a node for the kernels of the nodes below it: the seed,
/// where nothing takes the node, or else that which the kernel of the node stores it in.
///
/// Of the scene, the inputs are the parameters of the gradients.
pub open spec fn drawn(z: Scene, n: NodeId) -> ParamId {
    if z.nodes[n as int].outputs@.len() == 0 {
        1
    } else {
        z.inputs[n as int]->0
    }
}

/// The edge of a node that leads to one of its operands.
pub open spec fn edge_of(nodes: Seq<Node>, user: NodeId, n: NodeId) -> u8 {
    nodes[user as int].inputs@.index_of_first(n).unwrap() as u8
}

/// The dimension that the gradient of an operand of a product sums over.
pub open spec fn span_of(nodes: Seq<Node>, user: NodeId, edge: u8) -> MetaId {
    if edge == 0 {
        nodes[user as int].shape@[1]
    } else {
        nodes[user as int].shape@[0]
    }
}

/// What a sum becomes when a number of terms of the gradient of an operand of a product are added to
/// it. That of the first operand is the gradient of the product times the second operand transposed,
/// that of the second the first operand transposed times the gradient of the product.
pub open spec fn terms_at(
    z: Scene,
    user: NodeId,
    edge: u8,
    sum: Expr,
    grid: (MetaId, MetaId),
    x: int,
    count: nat,
) -> Expr
    decreases count,
{
    let none = num(ZERO_BITS);
    let rows = z.fields[grid.0 as int] as int;
    let cols = z.fields[grid.1 as int] as int;
    let span = z.fields[span_of(z.nodes, user, edge) as int] as int;
    let up = |y: int| plus(none, load(drawn(z, user), num(y as u32)));
    let other = z.saved[z.nodes[user as int].inputs@[1 - edge] as int]->0;
    let at = |y: int| plus(none, load(other, num(y as u32)));
    if count == 0 {
        sum
    } else {
        let t = count - 1;
        let before = terms_at(z, user, edge, sum, grid, x, (count - 1) as nat);
        if edge == 0 {
            fused(up((x / cols) * span + t), at((x % cols) * span + t), before)
        } else {
            fused(at(t * rows + x / cols), up(t * cols + x % cols), before)
        }
    }
}

/// What a sum becomes when a backward pass adds the gradient of a node to it, at a place in the rows
/// of the matrix of the node.
pub open spec fn gradient_at(
    z: Scene,
    n: NodeId,
    sum: Expr,
    grid: (MetaId, MetaId),
    x: int,
) -> Expr
    decreases z.nodes.len() - n, 1nat, 0int,
{
    if z.nodes[n as int].outputs@.len() == 0 {
        plus(sum, load(1, num(x as u32)))
    } else {
        users_at(z, n, 0, sum, grid, x)
    }
}

/// What a sum becomes when a backward pass adds the gradients through the nodes that take a node,
/// from the given one on.
pub open spec fn users_at(
    z: Scene,
    n: NodeId,
    from: int,
    sum: Expr,
    grid: (MetaId, MetaId),
    x: int,
) -> Expr
    decreases z.nodes.len() - n, 0nat, z.nodes[n as int].outputs@.len() - from,
{
    if from >= z.nodes[n as int].outputs@.len() {
        sum
    } else {
        let user = z.nodes[n as int].outputs@[from];
        let next = if n < user < z.nodes.len() {
            through_at(z, user, edge_of(z.nodes, user, n), sum, grid, x)
        } else {
            sum
        };
        users_at(z, n, from + 1, next, grid, x)
    }
}

/// What a sum becomes when a backward pass adds the gradient through a node to one of its inputs.
pub open spec fn through_at(
    z: Scene,
    user: NodeId,
    edge: u8,
    sum: Expr,
    grid: (MetaId, MetaId),
    x: int,
) -> Expr
    decreases z.nodes.len() - user, 2nat, 0int,
{
    let none = num(ZERO_BITS);
    let saved = |m: NodeId| load(z.saved[m as int]->0, num(x as u32));
    let ins = z.nodes[user as int].inputs@;
    match z.nodes[user as int].op {
        GraphOp::Custom { lower, .. } => match lower {
            OpName::Matmul => terms_at(
                z,
                user,
                edge,
                sum,
                grid,
                x,
                z.fields[span_of(z.nodes, user, edge) as int] as nat,
            ),
            OpName::Add => gradient_at(z, user, sum, grid, x),
            OpName::Sub => if edge == 0 {
                gradient_at(z, user, sum, grid, x)
            } else {
                plus(sum, negated(gradient_at(z, user, none, grid, x)))
            },
            OpName::Mul => plus(
                sum,
                times(gradient_at(z, user, none, grid, x), saved(ins[1 - edge])),
            ),
            OpName::Div => {
                let g = gradient_at(z, user, none, grid, x);
                let a = operand(z.nodes, z.saved, ins[0], num(x as u32));
                let b = operand(z.nodes, z.saved, ins[1], num(x as u32));
                if edge == 0 {
                    plus(sum, over(g, b))
                } else {
                    plus(sum, negated(over(times(g, a), times(b, b))))
                }
            },
            _ => graded(
                lower,
                sum,
                if reads_saved(lower) {
                    plus(none, saved(user))
                } else {
                    none
                },
                gradient_at(z, user, none, grid, x),
            ),
        },
        _ => sum,
    }
}

/// Whether one kernel can compute the gradient of a node: each node that takes it works element by
/// element and is such a node too, or is a product of matrices that fit each other.
pub open spec fn flows(nodes: Seq<Node>, n: NodeId, grid: (MetaId, MetaId)) -> bool
    decreases nodes.len() - n,
{
    let node = nodes[n as int];
    &&& node.op.dispatch() == DispatchOptions::Any
    &&& !(node.op is ConstF32)
    &&& node.outputs@.len() > 0 ==> node.op.leaf() || node.op.computed_gid()
    &&& forall|i: int|
        0 <= i < node.outputs@.len() ==> n < #[trigger] node.outputs@[i] < nodes.len() && (
        if nodes[node.outputs@[i] as int].op matches GraphOp::Custom { lower, .. } && lower
            == OpName::Matmul {
            multiplies(nodes, node.outputs@[i], edge_of(nodes, node.outputs@[i], n), grid)
        } else {
            nodes[node.outputs@[i] as int].op matches GraphOp::Custom { lower, .. } && lower
                != OpName::Softmax && flows(nodes, node.outputs@[i], grid)
        })
}

/// Whether a node is a product whose operand at an edge has the given dimensions, and the gradient of
/// which lies in a parameter.
pub open spec fn multiplies(
    nodes: Seq<Node>,
    user: NodeId,
    edge: u8,
    grid: (MetaId, MetaId),
) -> bool {
    let node = nodes[user as int];
    let a = nodes[node.inputs@[0] as int];
    let b = nodes[node.inputs@[1] as int];
    &&& node.op.dispatch() == DispatchOptions::Any
    &&& node.op.transform()
    &&& node.shape@.len() == 2
    &&& edge <= 1
    &&& if edge == 0 {
        node.shape@[0] == grid.0 && b.shape@ == seq![grid.1, node.shape@[1]]
    } else {
        node.shape@[1] == grid.1 && a.shape@ == seq![node.shape@[0], grid.0]
    }
}

/// Whether the sums of the products that the gradient of a node is made of run over a multiple of the
/// tile, and all the places in the matrices are unsigned integers.
pub open spec fn gauged(
    nodes: Seq<Node>,
    w: Place,
    tile: u32,
    n: NodeId,
    grid: (MetaId, MetaId),
) -> bool
    decreases nodes.len() - n,
{
    let node = nodes[n as int];
    forall|i: int|
        0 <= i < node.outputs@.len() && n < #[trigger] node.outputs@[i] < nodes.len() ==> if nodes[
        node.outputs@[i] as int].op matches GraphOp::Custom { lower, .. } && lower
            == OpName::Matmul {
            size(
                w,
                tile,
                (
                    grid.0,
                    grid.1,
                    span_of(nodes, node.outputs@[i], edge_of(nodes, node.outputs@[i], n)),
                ),
            ).fits()
        } else {
            gauged(nodes, w, tile, node.outputs@[i], grid)
        }
}

/// Whether a kernel goes on from another, and changes no parameter besides those that the other does.
pub open spec fn passes_on(r: RawView, q: RawView) -> bool {
    &&& grows(r, q)
    &&& forall|p: ParamId| r.keeps(p) ==> #[trigger] q.keeps(p)
}

proof fn lemma_passes_on(a: RawView, b: RawView, c: RawView)
    requires
        passes_on(a, b),
        passes_on(b, c),
    ensures
        passes_on(a, c),
{
    lemma_grows_on(a, b, c);
    assert forall|p: ParamId| a.keeps(p) implies #[trigger] c.keeps(p) by {
        assert(b.keeps(p));
    }
}

/// Whether all the nodes are in a graph, none is a constant, and none needs a dispatch of its own.
pub open spec fn all_any(nodes: Seq<Node>, ids: Seq<NodeId>) -> bool {
    forall|i: int|
        0 <= i < ids.len() ==> #[trigger] ids[i] < nodes.len() && !(
        nodes[ids[i] as int].op is ConstF32) && nodes[ids[i] as int].op.dispatch()
            == DispatchOptions::Any
}

pub proof fn lemma_all_any(nodes: Seq<Node>, a: Seq<NodeId>, b: Seq<NodeId>)
    requires
        all_any(nodes, a),
        all_any(nodes, b),
    ensures
        all_any(nodes, a + b),
{
    assert forall|i: int| 0 <= i < (a + b).len() implies #[trigger] (a + b)[i] < nodes.len() && !(
    nodes[(a + b)[i] as int].op is ConstF32) && nodes[(a + b)[i] as int].op.dispatch()
        == DispatchOptions::Any by {
        if i < a.len() {
            assert((a + b)[i] == a[i]);
        } else {
            assert((a + b)[i] == b[i - a.len()]);
        }
    }
}

/// What the gradient of an operand of a product is lowered as.
pub open spec fn gradient_setting(f: Scope, user: NodeId, edge: u8, kernel: LinkedView) -> (
    Extent,
    Terms,
    LinkedView,
) {
    let param = f.saved_params[f.input(user, 1 - edge) as int]->0;
    let (raw, row) = kernel.raw.let_u(Op::GlobalId { axis: Axis::Y });
    let (raw, col) = raw.let_u(Op::GlobalId { axis: Axis::X });
    let fields = product_fields(f, Some(edge), user);
    let (raw, m) = raw.let_u(Op::ReadMeta { param: 0, field: fields.0 });
    let (raw, nn) = raw.let_u(Op::ReadMeta { param: 0, field: fields.1 });
    let (raw, k) = raw.let_u(Op::ReadMeta { param: 0, field: fields.2 });
    let kernel = LinkedView { raw, ..kernel }.field(fields.0).field(fields.1).field(fields.2);
    (
        Extent { m, n: nn, k, row, col },
        if edge == 0 {
            Terms {
                a: Operand::Node(user),
                b: Operand::Raw(param),
                swap_a: false,
                swap_b: true,
            }
        } else {
            Terms {
                a: Operand::Raw(param),
                b: Operand::Node(user),
                swap_a: true,
                swap_b: false,
            }
        },
        kernel,
    )
}

/// A factor of the gradient of an operand of a product is one load.
pub proof fn lemma_factor_code(
    f: Scope,
    user: NodeId,
    node: Operand,
    out: ValueId,
    kernel: LinkedView,
    resolved: Seq<NodeId>,
    idx: ValueId,
)
    requires
        f.placed(Operand::Node(user)),
        f.nodes[user as int].op.dispatch() == DispatchOptions::Any,
        f.nodes[user as int].op.transform(),
        node is Raw || node == Operand::Node(user),
        factor_value(f, true, node, out, kernel, resolved, idx).nodes is Ok,
    ensures
        ({
            let l = factor_value(f, true, node, out, kernel, resolved, idx);
            let param = match node {
                Operand::Raw(param) => param,
                Operand::Node(_) => if f.nodes[user as int].outputs@.len() == 0 {
                    1
                } else {
                    f.node_params[user as int]->0
                },
            };
            &&& l.kernel.raw == kernel.raw.accum(out, Op::ParamLoad { param, index: idx })
            &&& l.resolved == resolved
            &&& all_any(f.nodes, l.nodes->Ok_0)
        }),
{
    assert(factor_value(f, true, node, out, kernel, resolved, idx) == node_grad(
        f,
        node,
        out,
        kernel,
        resolved,
        idx,
        false,
    ));
}

/// The code of the gradient of an operand of a product.
pub proof fn lemma_gradient_product(
    f: Scope,
    user: NodeId,
    edge: u8,
    out: ValueId,
    kernel: LinkedView,
    resolved: Seq<NodeId>,
    idx: ValueId,
    grid: (MetaId, MetaId),
)
    requires
        f.placed(Operand::Node(user)),
        has_operands(f.nodes, user as int),
        f.nodes[user as int].op matches GraphOp::Custom { lower, .. } && lower == OpName::Matmul,
        multiplies(f.nodes, user, edge, grid),
        lowering(f, Some(edge), user, out, kernel, resolved, idx, true).nodes is Ok,
    ensures
        ({
            let l = lowering(f, Some(edge), user, out, kernel, resolved, idx, true);
            let (e, terms, k4) = gradient_setting(f, user, edge, kernel);
            let s = stages(f, true, e, terms, k4, resolved);
            let other = f.saved_params[f.input(user, 1 - edge) as int];
            let up: ParamId = if f.nodes[user as int].outputs@.len() == 0 {
                1
            } else {
                f.node_params[user as int]->0
            };
            let a_param = if edge == 0 {
                up
            } else {
                other->0
            };
            let b_param = if edge == 0 {
                other->0
            } else {
                up
            };
            &&& other is Some
            &&& l == product(f, true, e, terms, out, k4, resolved)
            &&& passes_on(kernel.raw, k4.raw)
            &&& s.a.nodes is Ok && s.b.nodes is Ok
            &&& s.a.kernel.raw == s.ka.raw.accum(
                s.a_val,
                Op::ParamLoad { param: a_param, index: s.a_idx },
            )
            &&& s.b.kernel.raw == s.kb.raw.accum(
                s.b_val,
                Op::ParamLoad { param: b_param, index: s.b_idx },
            )
            &&& passes_on(k4.raw, l.kernel.raw)
            &&& l.resolved == resolved
            &&& all_any(f.nodes, l.nodes->Ok_0)
        }),
{
    let l = lowering(f, Some(edge), user, out, kernel, resolved, idx, true);
    assert(l == matmul_lowering(f, Some(edge), user, out, kernel, resolved));
    let other = f.saved_params[f.input(user, 1 - edge) as int];
    assert(other is Some);
    let (e, terms, k4) = gradient_setting(f, user, edge, kernel);
    assert(l == product(f, true, e, terms, out, k4, resolved));
    assert(grows(kernel.raw, k4.raw)) by {
        reveal(RawView::def);
    }
    assert forall|p: ParamId| kernel.raw.keeps(p) implies #[trigger] k4.raw.keeps(p) by {
        broadcast use lemma_new_keeps;

    }
    lemma_stages_grow(f, true, e, terms, out, k4, resolved);
    let s = stages(f, true, e, terms, k4, resolved);
    lemma_factor_code(f, user, terms.a, s.a_val, s.ka, resolved, s.a_idx);
    lemma_factor_code(f, user, terms.b, s.b_val, s.kb, s.a.resolved, s.b_idx);
    lemma_all_any(f.nodes, s.a.nodes->Ok_0, s.b.nodes->Ok_0);
    assert(grows(s.ka.raw, s.a.kernel.raw) && grows(s.kb.raw, s.b.kernel.raw)) by {
        reveal(RawView::emit);
    }
    lemma_grows_on(k4.raw, s.ka.raw, s.a.kernel.raw);
    lemma_grows_on(k4.raw, s.a.kernel.raw, s.kb.raw);
    lemma_grows_on(k4.raw, s.kb.raw, s.b.kernel.raw);
    lemma_grows_on(k4.raw, s.b.kernel.raw, l.kernel.raw);
    assert forall|p: ParamId| k4.raw.keeps(p) implies #[trigger] l.kernel.raw.keeps(p) by {
        lemma_product_keeps(f, true, e, terms, out, k4, resolved, p);
        broadcast use lemma_emit_keeps;

    }
}

/// The code of the gradient of a node goes on from the kernel that it is added to.
pub proof fn lemma_gradient_code(
    f: Scope,
    n: NodeId,
    out: ValueId,
    kernel: LinkedView,
    resolved: Seq<NodeId>,
    idx: ValueId,
    grid: (MetaId, MetaId),
)
    requires
        f.placed(Operand::Node(n)),
        forall|m: int| 0 <= m < f.nodes.len() ==> #[trigger] has_operands(f.nodes, m),
        flows(f.nodes, n, grid),
        node_grad(f, Operand::Node(n), out, kernel, resolved, idx, true).nodes is Ok,
    ensures
        ({
            let l = node_grad(f, Operand::Node(n), out, kernel, resolved, idx, true);
            &&& passes_on(kernel.raw, l.kernel.raw)
            &&& all_any(f.nodes, l.nodes->Ok_0)
        }),
    decreases f.nodes.len() - n, 1nat, 0int,
{
    let k = kernel.computes(f.node(n).op);
    let l = node_grad(f, Operand::Node(n), out, kernel, resolved, idx, true);
    if f.node(n).outputs@.len() == 0 {
        assert(grows(kernel.raw, l.kernel.raw)) by {
            reveal(RawView::emit);
        }
        broadcast use lemma_emit_keeps;

    } else {
        assert(!grad_loaded(f, n, resolved, true));
        lemma_users_code(f, n, 0, out, k, resolved, idx, grid, seq![n]);
    }
}

pub proof fn lemma_users_code(
    f: Scope,
    n: NodeId,
    from: int,
    out: ValueId,
    kernel: LinkedView,
    resolved: Seq<NodeId>,
    idx: ValueId,
    grid: (MetaId, MetaId),
    ids: Seq<NodeId>,
)
    requires
        f.placed(Operand::Node(n)),
        forall|m: int| 0 <= m < f.nodes.len() ==> #[trigger] has_operands(f.nodes, m),
        flows(f.nodes, n, grid),
        0 <= from <= f.node(n).outputs@.len(),
        all_any(f.nodes, ids),
        user_grads(f, n, from, out, kernel, resolved, idx, true, ids).nodes is Ok,
    ensures
        ({
            let l = user_grads(f, n, from, out, kernel, resolved, idx, true, ids);
            &&& passes_on(kernel.raw, l.kernel.raw)
            &&& all_any(f.nodes, l.nodes->Ok_0)
        }),
    decreases f.nodes.len() - n, 0nat, f.node(n).outputs@.len() - from,
{
    if from < f.node(n).outputs@.len() {
        let user = f.node(n).outputs@[from];
        let edge = edge_of(f.nodes, user, n);
        assert(f.nodes[n as int].outputs@[from] == user);
        let u = lowering(f, Some(edge), user, out, kernel, resolved, idx, true);
        assert(u.nodes is Ok);
        lemma_through_code(f, user, edge, out, kernel, resolved, idx, grid);
        let more = ids + u.nodes->Ok_0;
        lemma_all_any(f.nodes, ids, u.nodes->Ok_0);
        lemma_users_code(f, n, from + 1, out, u.kernel, u.resolved, idx, grid, more);
        let l = user_grads(f, n, from, out, kernel, resolved, idx, true, ids);
        lemma_passes_on(kernel.raw, u.kernel.raw, l.kernel.raw);
    }
}

/// A new variable that starts with zero.
proof fn lemma_zero_code(r: RawView)
    ensures
        passes_on(r, r.var_f(zero()).0),
{
    reveal(RawView::def);
    broadcast use lemma_new_keeps;

}

proof fn lemma_factor_grad_code(
    name: OpName,
    f: Scope,
    edge: u8,
    n: NodeId,
    out: ValueId,
    g_val: ValueId,
    kernel: LinkedView,
    resolved: Seq<NodeId>,
    idx: ValueId,
    nodes: Seq<NodeId>,
)
    ensures
        ({
            let l = factor_grad(name, f, edge, n, out, g_val, kernel, resolved, idx, nodes);
            passes_on(kernel.raw, l.kernel.raw)
        }),
{
    let l = factor_grad(name, f, edge, n, out, g_val, kernel, resolved, idx, nodes);
    assert(grows(kernel.raw, l.kernel.raw)) by {
        reveal(RawView::def);
        reveal(RawView::emit);
    }
    broadcast use {lemma_new_keeps, lemma_emit_keeps};

}

proof fn lemma_slope_code(
    name: OpName,
    r: RawView,
    out: ValueId,
    inp: ValueId,
    up: ValueId,
)
    ensures
        passes_on(r, unary_grad(name, r, out, inp, up)),
{
    let q = unary_grad(name, r, out, inp, up);
    assert(grows(r, q)) by {
        reveal(RawView::def);
        reveal(RawView::emit);
    }
    broadcast use {lemma_new_keeps, lemma_emit_keeps};

}

pub proof fn lemma_through_code(
    f: Scope,
    user: NodeId,
    edge: u8,
    out: ValueId,
    kernel: LinkedView,
    resolved: Seq<NodeId>,
    idx: ValueId,
    grid: (MetaId, MetaId),
)
    requires
        f.placed(Operand::Node(user)),
        forall|m: int| 0 <= m < f.nodes.len() ==> #[trigger] has_operands(f.nodes, m),
        f.nodes[user as int].op is Custom,
        if f.nodes[user as int].op->lower == OpName::Matmul {
            multiplies(f.nodes, user, edge, grid)
        } else {
            f.nodes[user as int].op->lower != OpName::Softmax && flows(f.nodes, user, grid)
        },
        lowering(f, Some(edge), user, out, kernel, resolved, idx, true).nodes is Ok,
    ensures
        ({
            let l = lowering(f, Some(edge), user, out, kernel, resolved, idx, true);
            &&& passes_on(kernel.raw, l.kernel.raw)
            &&& all_any(f.nodes, l.nodes->Ok_0)
        }),
    decreases f.nodes.len() - user, 2nat, 0int,
{
    let l = lowering(f, Some(edge), user, out, kernel, resolved, idx, true);
    let name = f.nodes[user as int].op->lower;
    let node = Operand::Node(user);
    assert(has_operands(f.nodes, user as int));
    if name == OpName::Matmul {
        lemma_gradient_product(f, user, edge, out, kernel, resolved, idx, grid);
        let k4 = gradient_setting(f, user, edge, kernel).2;
        lemma_passes_on(kernel.raw, k4.raw, l.kernel.raw);
    } else if is_joined(name) {
        assert(l == binary_lowering(name, f, Some(edge), user, out, kernel, resolved, idx, true));
        assert(l == binary_grad(name, f, edge, user, out, kernel, resolved, idx, true));
        if name == OpName::Add || (name == OpName::Sub && edge == 0) {
            lemma_gradient_code(f, user, out, kernel, resolved, idx, grid);
        } else {
            let (raw, g_val) = kernel.raw.var_f(zero());
            let k1 = LinkedView { raw, ..kernel };
            lemma_zero_code(kernel.raw);
            let x = node_grad(f, node, g_val, k1, resolved, idx, true);
            assert(x.nodes is Ok);
            lemma_gradient_code(f, user, g_val, k1, resolved, idx, grid);
            lemma_passes_on(kernel.raw, raw, x.kernel.raw);
            if name == OpName::Sub {
                assert(grows(x.kernel.raw, l.kernel.raw)) by {
                    reveal(RawView::emit);
                }
                assert(passes_on(x.kernel.raw, l.kernel.raw)) by {
                    broadcast use lemma_emit_keeps;

                }
            } else {
                lemma_factor_grad_code(
                    name,
                    f,
                    edge,
                    user,
                    out,
                    g_val,
                    x.kernel,
                    x.resolved,
                    idx,
                    x.nodes->Ok_0,
                );
            }
            lemma_passes_on(kernel.raw, x.kernel.raw, l.kernel.raw);
        }
    } else {
        assert(l == unary_lowering(name, f, Some(edge), user, out, kernel, resolved, idx, true));
        let (raw1, saved) = kernel.raw.var_f(zero());
        let k1 = LinkedView { raw: raw1, ..kernel };
        lemma_zero_code(kernel.raw);
        let param = f.saved_params[user as int];
        let k2 = if reads_saved(name) {
            k1.accum(saved, Op::ParamLoad { param: param.unwrap(), index: idx }).param(
                param.unwrap(),
            )
        } else {
            k1
        };
        assert(grows(k1.raw, k2.raw)) by {
            reveal(RawView::emit);
        }
        assert(passes_on(k1.raw, k2.raw)) by {
            broadcast use lemma_emit_keeps;

        }
        let (raw3, acc) = k2.raw.var_f(zero());
        let k3 = LinkedView { raw: raw3, ..k2 };
        lemma_zero_code(k2.raw);
        let x = node_grad(f, node, acc, k3, resolved, idx, true);
        assert(x.nodes is Ok);
        lemma_gradient_code(f, user, acc, k3, resolved, idx, grid);
        lemma_slope_code(name, x.kernel.raw, out, saved, acc);
        lemma_passes_on(kernel.raw, k1.raw, k2.raw);
        lemma_passes_on(kernel.raw, k2.raw, k3.raw);
        lemma_passes_on(kernel.raw, k3.raw, x.kernel.raw);
        lemma_passes_on(kernel.raw, x.kernel.raw, l.kernel.raw);
    }
}

} // verus!
