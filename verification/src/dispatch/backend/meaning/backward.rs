//! What a backward pass computes.

use vstd::prelude::*;

use crate::dispatch::backend::kernel::backward::{grad_loaded, node_grad, user_grads};
use crate::dispatch::backend::kernel::frame::{has_operands, Operand, Scope};
use crate::dispatch::backend::kernel::raw::{LinkedView, RawView};
use crate::dispatch::backend::meaning::facts::group_meaning;
use crate::dispatch::backend::meaning::forward::{is_joined, pointwise_op};
use crate::dispatch::backend::meaning::ops::{framed, graded, lemma_unary_grad_held};
use crate::dispatch::backend::meaning::{load, negated, num, over, plus, times, Expr};
use crate::dispatch::backend::sound::group_sound;
use crate::dispatch::backend::sound::lower::{
    lemma_lowering_sound, lemma_node_grad_sound, lemma_user_grads_sound,
};
use crate::dispatch::backend::sound::marks::group_marks;
use crate::dispatch::backend::sound::ops::lemma_unary_grad_sound;
use crate::dispatch::backend::std_lib;
use crate::dispatch::backend::std_lib::binary::{binary_grad, binary_lowering, operand_op};
use crate::dispatch::backend::std_lib::unary::{reads_saved, unary_grad, unary_lowering};
use crate::dispatch::backend::{GraphOp, Node, NodeId, Op, OpName, ParamId, ValueId};
use crate::scalar::{Float32, ZERO_BITS};

verus! {

/// What a sum becomes when a backward pass adds the gradient of a node at an index to it: the seed of
/// a node that nothing takes, and otherwise what it adds through all the nodes that take it.
///
/// This is what the pass adds, which is not the derivative everywhere: see [`through`] and
/// [`graded`](crate::dispatch::backend::meaning::ops::graded).
pub open spec fn gradient(
    nodes: Seq<Node>,
    saved: Seq<Option<ParamId>>,
    n: NodeId,
    sum: Expr,
    i: Expr,
) -> Expr
    decreases nodes.len() - n, 1nat, 0int,
{
    if nodes[n as int].outputs@.len() == 0 {
        plus(sum, load(1, i))
    } else {
        through_users(nodes, saved, n, 0, sum, i)
    }
}

/// What a sum becomes when a backward pass adds the gradients through the nodes that take a node,
/// from the given one on.
///
/// A node that takes the same node twice is met twice, each time at its first edge. So a difference of
/// a node and itself adds its gradient twice, where the derivative is zero.
pub open spec fn through_users(
    nodes: Seq<Node>,
    saved: Seq<Option<ParamId>>,
    n: NodeId,
    from: int,
    sum: Expr,
    i: Expr,
) -> Expr
    decreases nodes.len() - n, 0nat, nodes[n as int].outputs@.len() - from,
{
    if from >= nodes[n as int].outputs@.len() {
        sum
    } else {
        let user = nodes[n as int].outputs@[from];
        let edge = nodes[user as int].inputs@.index_of_first(n).unwrap() as u8;
        let next = if n < user < nodes.len() {
            through(nodes, saved, user, edge, sum, i)
        } else {
            sum
        };
        through_users(nodes, saved, n, from + 1, next, i)
    }
}

/// What a backward pass reads an operand of a quotient as, at an index.
pub open spec fn operand(
    nodes: Seq<Node>,
    saved: Seq<Option<ParamId>>,
    m: NodeId,
    i: Expr,
) -> Expr {
    match nodes[m as int].op {
        GraphOp::ConstF32(value) => num(value.bits),
        _ => load(saved[m as int]->0, i),
    }
}

/// What a sum becomes when a backward pass adds the gradient through a node to one of its inputs.
pub open spec fn through(
    nodes: Seq<Node>,
    saved: Seq<Option<ParamId>>,
    user: NodeId,
    edge: u8,
    sum: Expr,
    i: Expr,
) -> Expr
    decreases nodes.len() - user, 2nat, 0int,
{
    let zero = num(ZERO_BITS);
    match nodes[user as int].op {
        GraphOp::Custom { lower, .. } => match lower {
            OpName::Add => gradient(nodes, saved, user, sum, i),
            OpName::Sub => if edge == 0 {
                gradient(nodes, saved, user, sum, i)
            } else {
                plus(sum, negated(gradient(nodes, saved, user, zero, i)))
            },
            OpName::Mul => {
                let other = nodes[user as int].inputs@[1 - edge];
                plus(
                    sum,
                    times(
                        gradient(nodes, saved, user, zero, i),
                        load(saved[other as int]->0, i),
                    ),
                )
            },
            OpName::Div => {
                let g = gradient(nodes, saved, user, zero, i);
                let b = operand(nodes, saved, nodes[user as int].inputs@[1], i);
                if edge == 0 {
                    plus(sum, over(g, b))
                } else {
                    let a = operand(nodes, saved, nodes[user as int].inputs@[0], i);
                    plus(sum, negated(over(times(g, a), times(b, b))))
                }
            },
            _ => {
                let y = if reads_saved(lower) {
                    plus(zero, load(saved[user as int]->0, i))
                } else {
                    zero
                };
                graded(lower, sum, y, gradient(nodes, saved, user, zero, i))
            },
        },
        _ => sum,
    }
}

/// Whether all the operations from a node on work element by element, one element for each thread.
pub open spec fn pointwise_from(nodes: Seq<Node>, n: int) -> bool {
    forall|m: int|
        n <= m < nodes.len() ==> pointwise_op((#[trigger] nodes[m]).op) && (nodes[m].op is Custom
            ==> nodes[m].op.computed_gid())
}

/// Whether a kernel has changed no parameter.
pub open spec fn unchanged(r: RawView) -> bool {
    forall|p: ParamId| #[trigger] r.keeps(p)
}

/// Whether a kernel can add a gradient to a variable.
pub open spec fn disposed(f: Scope, kernel: LinkedView, out: ValueId, idx: ValueId) -> bool {
    &&& f.settled(kernel)
    &&& unchanged(kernel.raw)
    &&& kernel.raw.solid(out)
    &&& kernel.raw.solid(idx)
    &&& out != idx
    &&& kernel.raw.guards().len() == 0
}

/// Whether a kernel has brought a variable to a formula, and changed nothing else.
pub open spec fn brought(r: RawView, q: RawView, out: ValueId, e: Expr) -> bool {
    &&& framed(r, q, out)
    &&& unchanged(q)
    &&& q.held(out) == e
}

/// The code of the gradient of a node adds what the gradient is.
pub proof fn lemma_node_grad_held(
    f: Scope,
    n: NodeId,
    upstream: ValueId,
    kernel: LinkedView,
    resolved: Seq<NodeId>,
    idx: ValueId,
)
    requires
        f.placed(Operand::Node(n)),
        pointwise_from(f.nodes, n as int),
        disposed(f, kernel, upstream, idx),
        node_grad(f, Operand::Node(n), upstream, kernel, resolved, idx, true).nodes is Ok,
        node_grad(f, Operand::Node(n), upstream, kernel, resolved, idx, true).kernel.raw.small(),
    ensures
        brought(
            kernel.raw,
            node_grad(f, Operand::Node(n), upstream, kernel, resolved, idx, true).kernel.raw,
            upstream,
            gradient(
                f.nodes,
                f.saved_params,
                n,
                kernel.raw.held(upstream),
                kernel.raw.held(idx),
            ),
        ),
    decreases f.count() - n, 0nat, f.node(n).outputs@.len() + 1,
{
    let op = f.node(n).op;
    let k = kernel.computes(op);
    let node = Operand::Node(n);
    lemma_node_grad_sound(f, node, upstream, kernel, resolved, idx, true);
    if f.node(n).outputs@.len() == 0 {
        assert(kernel.raw.keeps(1));
        broadcast use {group_sound, group_meaning};

    } else {
        assert(pointwise_op(f.nodes[n as int].op));
        assert(!grad_loaded(f, n, resolved, true));
        lemma_user_grads_held(f, n, 0, upstream, k, resolved, idx, seq![n]);
    }
}

proof fn lemma_user_grads_held(
    f: Scope,
    n: NodeId,
    from: int,
    upstream: ValueId,
    kernel: LinkedView,
    resolved: Seq<NodeId>,
    idx: ValueId,
    nodes: Seq<NodeId>,
)
    requires
        f.placed(Operand::Node(n)),
        pointwise_from(f.nodes, n as int),
        0 <= from <= f.node(n).outputs@.len(),
        disposed(f, kernel, upstream, idx),
        user_grads(f, n, from, upstream, kernel, resolved, idx, true, nodes).nodes is Ok,
        user_grads(f, n, from, upstream, kernel, resolved, idx, true, nodes).kernel.raw.small(),
    ensures
        brought(
            kernel.raw,
            user_grads(f, n, from, upstream, kernel, resolved, idx, true, nodes).kernel.raw,
            upstream,
            through_users(
                f.nodes,
                f.saved_params,
                n,
                from,
                kernel.raw.held(upstream),
                kernel.raw.held(idx),
            ),
        ),
    decreases f.count() - n, 0nat, f.node(n).outputs@.len() - from,
{
    if from < f.node(n).outputs@.len() {
        let user = f.node(n).outputs@[from];
        assert(n < f.nodes[n as int].outputs@[from] < f.nodes.len());
        assert(has_operands(f.nodes, user as int));
        let edge = f.node(user).inputs@.index_of_first(n).unwrap() as u8;
        lemma_lowering_sound(f, Some(edge), user, upstream, kernel, resolved, idx, true);
        let l = std_lib::lowering(f, Some(edge), user, upstream, kernel, resolved, idx, true);
        let more = nodes + l.nodes->Ok_0;
        lemma_user_grads_sound(
            f,
            n,
            from + 1,
            upstream,
            l.kernel,
            l.resolved,
            idx,
            true,
            more,
        );
        lemma_through_held(f, user, edge, upstream, kernel, resolved, idx);
        lemma_user_grads_held(f, n, from + 1, upstream, l.kernel, l.resolved, idx, more);
    }
}

proof fn lemma_through_held(
    f: Scope,
    user: NodeId,
    edge: u8,
    out: ValueId,
    kernel: LinkedView,
    resolved: Seq<NodeId>,
    idx: ValueId,
)
    requires
        f.operable(user),
        f.node(user).op is Custom,
        pointwise_from(f.nodes, user as int),
        disposed(f, kernel, out, idx),
        std_lib::lowering(f, Some(edge), user, out, kernel, resolved, idx, true).nodes is Ok,
        std_lib::lowering(f, Some(edge), user, out, kernel, resolved, idx, true).kernel.raw.small(),
    ensures
        brought(
            kernel.raw,
            std_lib::lowering(f, Some(edge), user, out, kernel, resolved, idx, true).kernel.raw,
            out,
            through(
                f.nodes,
                f.saved_params,
                user,
                edge,
                kernel.raw.held(out),
                kernel.raw.held(idx),
            ),
        ),
    decreases f.count() - user, 9nat, 0int,
{
    assert(pointwise_op(f.nodes[user as int].op));
    let l = std_lib::lowering(f, Some(edge), user, out, kernel, resolved, idx, true);
    match f.node(user).op {
        GraphOp::Custom { lower, .. } => {
            if is_joined(lower) {
                assert(l == binary_lowering(
                    lower,
                    f,
                    Some(edge),
                    user,
                    out,
                    kernel,
                    resolved,
                    idx,
                    true,
                ));
                assert(l == binary_grad(
                    lower,
                    f,
                    edge,
                    user,
                    out,
                    kernel,
                    resolved,
                    idx,
                    true,
                ));
                lemma_binary_grad_held(lower, f, edge, user, out, kernel, resolved, idx);
            } else {
                assert(l == unary_lowering(
                    lower,
                    f,
                    Some(edge),
                    user,
                    out,
                    kernel,
                    resolved,
                    idx,
                    true,
                ));
                lemma_unary_through_held(lower, f, edge, user, out, kernel, resolved, idx);
            }
        },
        _ => {},
    }
}

proof fn lemma_unary_through_held(
    name: OpName,
    f: Scope,
    edge: u8,
    n: NodeId,
    out: ValueId,
    kernel: LinkedView,
    resolved: Seq<NodeId>,
    idx: ValueId,
)
    requires
        f.operable(n),
        f.node(n).inputs@.len() >= 1,
        f.node(n).op matches GraphOp::Custom { lower, .. } && lower == name,
        !is_joined(name),
        pointwise_from(f.nodes, n as int),
        disposed(f, kernel, out, idx),
        unary_lowering(name, f, Some(edge), n, out, kernel, resolved, idx, true).nodes is Ok,
        unary_lowering(name, f, Some(edge), n, out, kernel, resolved, idx, true).kernel.raw.small(),
    ensures
        brought(
            kernel.raw,
            unary_lowering(name, f, Some(edge), n, out, kernel, resolved, idx, true).kernel.raw,
            out,
            through(
                f.nodes,
                f.saved_params,
                n,
                edge,
                kernel.raw.held(out),
                kernel.raw.held(idx),
            ),
        ),
    decreases f.count() - n, 5nat, 0int,
{
    let zero = Op::ConstF32 { value: Float32 { bits: ZERO_BITS } };
    let param = f.saved_params[n as int];
    assert(param matches Some(p) ==> p < kernel.params.len());
    let (raw1, saved) = kernel.raw.var_f(zero);
    let k1 = LinkedView { raw: raw1, ..kernel };
    let k2 = if reads_saved(name) {
        k1.accum(
            saved,
            Op::ParamLoad { param: param.unwrap(), index: idx },
        ).param(param.unwrap())
    } else {
        k1
    };
    let (raw3, acc) = k2.raw.var_f(zero);
    let k3 = LinkedView { raw: raw3, ..k2 };
    assert(f.settled(k3) && acc < raw3.span() && saved < raw3.span() && raw3.continues(
        kernel.raw,
    )) by {
        broadcast use {group_sound, group_marks};

    }
    let node = Operand::Node(n);
    lemma_node_grad_sound(f, node, acc, k3, resolved, idx, true);
    let l = node_grad(f, node, acc, k3, resolved, idx, true);
    lemma_unary_grad_sound(name, l.kernel.raw, out, saved, acc);
    let q = unary_grad(name, l.kernel.raw, out, saved, acc);
    let i = kernel.raw.held(idx);
    let y = if reads_saved(name) {
        plus(num(ZERO_BITS), load(param->0, i))
    } else {
        num(ZERO_BITS)
    };
    assert({
        &&& raw3.guards() == kernel.raw.guards()
        &&& raw3.held(out) == kernel.raw.held(out)
        &&& raw3.held(idx) == i
        &&& raw3.held(acc) == num(ZERO_BITS)
        &&& raw3.held(saved) == y
        &&& raw3.solid(out)
        &&& raw3.solid(idx)
        &&& raw3.solid(acc)
        &&& raw3.solid(saved)
        &&& acc != idx
        &&& acc != out
        &&& acc != saved
        &&& saved != out
        &&& acc >= kernel.raw.span()
        &&& unchanged(raw3)
        &&& framed(kernel.raw, raw3, acc)
    }) by {
        assert(raw1.small() && k2.raw.small()) by {
            broadcast use group_sound;

        }
        assert(reads_saved(name) ==> kernel.raw.keeps(param->0));
        broadcast use {group_sound, group_meaning};

    }
    lemma_node_grad_held(f, n, acc, k3, resolved, idx);
    lemma_unary_grad_held(name, l.kernel.raw, out, saved, acc);
    assert(framed(kernel.raw, q, out));
}

#[verifier::rlimit(100)]
#[verifier::spinoff_prover]
proof fn lemma_binary_grad_held(
    name: OpName,
    f: Scope,
    edge: u8,
    n: NodeId,
    out: ValueId,
    kernel: LinkedView,
    resolved: Seq<NodeId>,
    idx: ValueId,
)
    requires
        f.operable(n),
        f.node(n).inputs@.len() >= 2,
        f.node(n).op matches GraphOp::Custom { lower, .. } && lower == name,
        is_joined(name),
        pointwise_from(f.nodes, n as int),
        disposed(f, kernel, out, idx),
        binary_grad(name, f, edge, n, out, kernel, resolved, idx, true).nodes is Ok,
        binary_grad(name, f, edge, n, out, kernel, resolved, idx, true).kernel.raw.small(),
    ensures
        brought(
            kernel.raw,
            binary_grad(name, f, edge, n, out, kernel, resolved, idx, true).kernel.raw,
            out,
            through(
                f.nodes,
                f.saved_params,
                n,
                edge,
                kernel.raw.held(out),
                kernel.raw.held(idx),
            ),
        ),
    decreases f.count() - n, 4nat, 0int,
{
    let node = Operand::Node(n);
    let i = kernel.raw.held(idx);
    if name == OpName::Add || (name == OpName::Sub && edge == 0) {
        lemma_node_grad_sound(f, node, out, kernel, resolved, idx, true);
        lemma_node_grad_held(f, n, out, kernel, resolved, idx);
    } else {
        let zero = Op::ConstF32 { value: Float32 { bits: ZERO_BITS } };
        let (raw, g_val) = kernel.raw.var_f(zero);
        let k = LinkedView { raw, ..kernel };
        assert(f.settled(k) && g_val < raw.span() && raw.continues(kernel.raw)) by {
            broadcast use {group_sound, group_marks};

        }
        lemma_node_grad_sound(f, node, g_val, k, resolved, idx, true);
        let l = node_grad(f, node, g_val, k, resolved, idx, true);
        let other = f.saved_params[f.input(n, 1 - edge) as int];
        let (raw2, saved) = l.kernel.raw.let_f(
            Op::ParamLoad { param: other->0, index: idx },
        );
        let done = binary_grad(name, f, edge, n, out, kernel, resolved, idx, true).kernel.raw;
        assert(l.kernel.raw.small() && (name == OpName::Mul ==> raw2.small())) by {
            broadcast use group_sound;

        }
        assert({
            &&& disposed(f, k, g_val, idx)
            &&& raw.guards() == kernel.raw.guards()
            &&& raw.held(idx) == i
            &&& raw.held(out) == kernel.raw.held(out)
            &&& raw.held(g_val) == num(ZERO_BITS)
            &&& raw.solid(out)
            &&& g_val != out
            &&& framed(kernel.raw, raw, g_val)
        }) by {
            broadcast use {group_sound, group_meaning};

        }
        lemma_node_grad_held(f, n, g_val, k, resolved, idx);
        assert(name == OpName::Mul ==> l.kernel.raw.keeps(other->0));
        let a = f.input(n, 0);
        let b = f.input(n, 1);
        assert(f.saved_params[a as int] matches Some(p) ==> l.kernel.raw.keeps(p));
        assert(f.saved_params[b as int] matches Some(p) ==> l.kernel.raw.keeps(p));
        if name == OpName::Div && edge == 1 {
            let top = operand_op(f, a, idx)->0;
            let bottom = operand_op(f, b, idx)->0;
            let (r1, dividend) = l.kernel.raw.let_f(top);
            let (r2, divisor) = r1.let_f(bottom);
            let (r3, scaled) = r2.let_f(Op::Mul { a: g_val, b: dividend });
            let (r4, square) = r3.let_f(Op::Mul { a: divisor, b: divisor });
            let (r5, slope) = r4.let_f(Op::Div { a: scaled, b: square });
            assert(r5.small() && r4.small() && r3.small() && r2.small() && r1.small()) by {
                broadcast use group_sound;

            }
            broadcast use {group_sound, group_meaning};

            assert(r1.held(dividend) == operand(f.nodes, f.saved_params, a, i));
            assert(r2.held(divisor) == operand(f.nodes, f.saved_params, b, i));
        }
        broadcast use {group_sound, group_meaning};

    }
}

} // verus!
