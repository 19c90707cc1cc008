//! What a forward pass computes.

use vstd::prelude::*;

use crate::dispatch::backend::kernel::forward::{node_done, node_value};
use crate::dispatch::backend::kernel::frame::{has_operands, Operand, Scope};
use crate::dispatch::backend::kernel::raw::{LinkedView, RawView};
use crate::dispatch::backend::meaning::facts::group_meaning;
use crate::dispatch::backend::meaning::ops::{applied, framed, lemma_unary_held};
use crate::dispatch::backend::meaning::{load, minus, num, over, plus, times, Expr};
use crate::dispatch::backend::sound::group_sound;
use crate::dispatch::backend::sound::lower::{lemma_lowering_sound, lemma_node_value_sound, marks};
use crate::dispatch::backend::sound::marks::group_marks;
use crate::dispatch::backend::sound::ops::lemma_unary_value_sound;
use crate::dispatch::backend::std_lib;
use crate::dispatch::backend::std_lib::binary::{binary_lowering, binary_value};
use crate::dispatch::backend::std_lib::unary::{unary_lowering, unary_value};
use crate::dispatch::backend::{
    DType, GraphOp, Node, NodeId, Op, OpName, ParamId, ValueId, ValueState,
};
use crate::scalar::{Float32, ZERO_BITS};

verus! {

/// Whether an operation works element by element, or is a leaf.
pub open spec fn pointwise_op(op: GraphOp) -> bool {
    match op {
        GraphOp::Custom { lower, need_dims, .. } => lower != OpName::Matmul && lower
            != OpName::Softmax && !need_dims,
        _ => true,
    }
}

/// Whether all the operations up to a node work element by element.
pub open spec fn pointwise(nodes: Seq<Node>, n: NodeId) -> bool {
    forall|m: int| 0 <= m <= n ==> pointwise_op(#[trigger] nodes[m].op)
}

/// What an operation on two numbers computes.
pub open spec fn joined(name: OpName, a: Expr, b: Expr) -> Expr {
    match name {
        OpName::Add => plus(a, b),
        OpName::Sub => minus(a, b),
        OpName::Mul => times(a, b),
        _ => over(a, b),
    }
}

/// Whether an operation takes two operands.
pub open spec fn is_joined(name: OpName) -> bool {
    name == OpName::Add || name == OpName::Sub || name == OpName::Mul || name == OpName::Div
}

/// What a node of a graph is, at an index: an element of an input, a constant, or what its
/// operation makes of its operands.
pub open spec fn denoted(
    nodes: Seq<Node>,
    inputs: Seq<Option<ParamId>>,
    n: NodeId,
    i: Expr,
) -> Expr
    decreases n,
{
    match nodes[n as int].op {
        GraphOp::Input => load(inputs[n as int]->0, i),
        GraphOp::ConstF32(value) => num(value.bits),
        GraphOp::Custom { lower, .. } => {
            let of = |m: NodeId|
                if m < n {
                    denoted(nodes, inputs, m, i)
                } else {
                    Expr::Unset
                };
            let a = nodes[n as int].inputs@[0];
            let b = nodes[n as int].inputs@[1];
            if is_joined(lower) {
                joined(lower, of(a), of(b))
            } else {
                applied(lower, of(a))
            }
        },
    }
}

/// Whether no result is saved to the parameter of an input.
pub open spec fn inputs_apart(
    nodes: Seq<Node>,
    inputs: Seq<Option<ParamId>>,
    saved: Seq<Option<ParamId>>,
) -> bool {
    forall|n: int, m: int|
        #![trigger inputs[n], saved[m]]
        0 <= n < nodes.len() && 0 <= m < nodes.len() && nodes[n].op is Input && inputs[n] is Some
            ==> inputs[n] != saved[m]
}

/// Whether a kernel has not changed the parameters of the inputs.
pub open spec fn inputs_kept(f: Scope, r: RawView) -> bool {
    forall|n: int|
        0 <= n < f.count() && f.nodes[n].op is Input && f.node_params[n] is Some ==> r.keeps(
            (#[trigger] f.node_params[n])->0,
        )
}

/// Whether a kernel can compute a node into a variable.
pub open spec fn prepared(f: Scope, kernel: LinkedView, out: ValueId, idx: ValueId) -> bool {
    &&& f.settled(kernel)
    &&& inputs_apart(f.nodes, f.node_params, f.saved_params)
    &&& inputs_kept(f, kernel.raw)
    &&& kernel.raw.solid(out)
    &&& kernel.raw.solid(idx)
    &&& out != idx
    &&& kernel.raw.guards().len() == 0
}

/// Whether a kernel has computed a formula into a variable, and nothing else that was there before.
pub open spec fn computed(f: Scope, r: RawView, q: RawView, out: ValueId, e: Expr) -> bool {
    &&& framed(r, q, out)
    &&& inputs_kept(f, q)
    &&& q.held(out) == e
}

proof fn lemma_done_held(
    f: Scope,
    n: NodeId,
    out: ValueId,
    kernel: LinkedView,
    resolved: Seq<NodeId>,
    idx: ValueId,
    nodes: Seq<NodeId>,
)
    requires
        n < f.count(),
        prepared(f, kernel, out, idx),
        kernel.raw.small(),
    ensures
        ({
            let q = node_done(f, n, out, kernel, resolved, idx, nodes).kernel.raw;
            computed(f, kernel.raw, q, out, kernel.raw.held(out))
        }),
{
    broadcast use {group_sound, group_meaning};

    assert(f.saved_params[n as int] == f.saved_params[n as int]);
}

proof fn lemma_computed_again(
    f: Scope,
    r: RawView,
    q: RawView,
    s: RawView,
    out: ValueId,
    e: Expr,
)
    requires
        framed(r, q, out),
        computed(f, q, s, out, e),
    ensures
        computed(f, r, s, out, e),
{
}

/// The code of a node computes what the node is.
pub proof fn lemma_node_value_held(
    f: Scope,
    n: NodeId,
    out: ValueId,
    kernel: LinkedView,
    resolved: Seq<NodeId>,
    idx: ValueId,
)
    requires
        f.placed(Operand::Node(n)),
        pointwise(f.nodes, n),
        prepared(f, kernel, out, idx),
        node_value(f, Operand::Node(n), out, kernel, resolved, idx, true).nodes is Ok,
        node_value(f, Operand::Node(n), out, kernel, resolved, idx, true).kernel.raw.small(),
    ensures
        computed(
            f,
            kernel.raw,
            node_value(f, Operand::Node(n), out, kernel, resolved, idx, true).kernel.raw,
            out,
            denoted(f.nodes, f.node_params, n, kernel.raw.held(idx)),
        ),
    decreases n, 1nat,
{
    let op = f.node(n).op;
    let l = node_value(f, Operand::Node(n), out, kernel, resolved, idx, true);
    assert(pointwise_op(f.nodes[n as int].op));
    lemma_node_value_sound(f, Operand::Node(n), out, kernel, resolved, idx, true);
    let own: Seq<NodeId> = if f.node(n).inputs@.len() > 0 {
        seq![n]
    } else {
        Seq::empty()
    };
    let k = kernel.computes(op);
    let e = denoted(f.nodes, f.node_params, n, kernel.raw.held(idx));
    match op {
        GraphOp::Input => {
            let param = f.node_params[n as int]->0;
            let k2 = k.assign(out, Op::ParamLoad { param, index: idx }).param(param);
            assert(k.raw.keeps(param));
            assert(param < kernel.params.len());
            assert(computed(f, kernel.raw, k2.raw, out, e) && marks(k2)) by {
                broadcast use {group_sound, group_meaning, group_marks};

            }
            lemma_done_held(f, n, out, k2, resolved, idx, own);
            lemma_computed_again(f, kernel.raw, k2.raw, l.kernel.raw, out, k2.raw.held(out));
        },
        GraphOp::ConstF32(value) => {
            let k2 = k.assign(out, Op::ConstF32 { value });
            assert(computed(f, kernel.raw, k2.raw, out, e) && marks(k2)) by {
                broadcast use {group_sound, group_meaning, group_marks};

            }
            lemma_done_held(f, n, out, k2, resolved, idx, own);
            lemma_computed_again(f, kernel.raw, k2.raw, l.kernel.raw, out, k2.raw.held(out));
        },
        GraphOp::Custom { lower, .. } => {
            assert(has_operands(f.nodes, n as int));
            let m = std_lib::lowering(f, None, n, out, k, resolved, idx, true);
            lemma_lowering_sound(f, None, n, out, k, resolved, idx, true);
            assert(m.nodes is Ok);
            let done = node_done(
                f,
                n,
                out,
                m.kernel,
                m.resolved,
                idx,
                own + m.nodes->Ok_0,
            );
            assert(l == done);
            assert(m.kernel.raw.small()) by {
                reveal(RawView::emit);
            }
            if is_joined(lower) {
                assert(m == binary_lowering(lower, f, None, n, out, k, resolved, idx, true));
                assert(m == binary_value(lower, f, n, out, k, resolved, idx, true));
                lemma_binary_held(lower, f, n, out, k, resolved, idx);
            } else {
                assert(m == unary_lowering(lower, f, None, n, out, k, resolved, idx, true));
                lemma_unary_node_held(lower, f, n, out, k, resolved, idx);
            }
            lemma_done_held(f, n, out, m.kernel, m.resolved, idx, own + m.nodes->Ok_0);
            lemma_computed_again(
                f,
                kernel.raw,
                m.kernel.raw,
                l.kernel.raw,
                out,
                m.kernel.raw.held(out),
            );
        },
    }
}

/// The code of an operation on one operand computes what it makes of the operand.
pub proof fn lemma_unary_node_held(
    name: OpName,
    f: Scope,
    n: NodeId,
    out: ValueId,
    kernel: LinkedView,
    resolved: Seq<NodeId>,
    idx: ValueId,
)
    requires
        f.operable(n),
        f.node(n).inputs@.len() >= 1,
        pointwise(f.nodes, n),
        prepared(f, kernel, out, idx),
        unary_lowering(name, f, None, n, out, kernel, resolved, idx, true).nodes is Ok,
        unary_lowering(name, f, None, n, out, kernel, resolved, idx, true).kernel.raw.small(),
    ensures
        computed(
            f,
            kernel.raw,
            unary_lowering(name, f, None, n, out, kernel, resolved, idx, true).kernel.raw,
            out,
            applied(name, denoted(f.nodes, f.node_params, f.input(n, 0), kernel.raw.held(idx))),
        ),
    decreases n, 0nat,
{
    let u = unary_lowering(name, f, None, n, out, kernel, resolved, idx, true);
    let zero = Op::ConstF32 { value: Float32 { bits: ZERO_BITS } };
    let a = f.input(n, 0);
    assert(f.nodes[n as int].inputs@[0] < n);
    let (raw, upstream) = kernel.raw.var_f(zero);
    let k = LinkedView { raw, ..kernel };
    let node = Operand::Node(a);
    assert(f.settled(k) && upstream < raw.span() && raw.continues(kernel.raw)) by {
        broadcast use {group_sound, group_meaning, group_marks};

    }
    lemma_node_value_sound(f, node, upstream, k, resolved, idx, true);
    let l = node_value(f, node, upstream, k, resolved, idx, true);
    lemma_unary_value_sound(name, l.kernel.raw, out, upstream);
    let (q, save) = unary_value(name, l.kernel.raw, out, upstream);
    let last = u.kernel.raw;
    let param = f.saved_params[n as int];
    assert(q.span() <= last.span() && (last == q || last == q.emit(
        Op::ParamStore { param: param->0, index: idx, value: save },
    ))) by {
        broadcast use {group_sound, group_meaning};

    }
    assert({
        &&& prepared(f, k, upstream, idx)
        &&& raw.held(idx) == kernel.raw.held(idx)
        &&& raw.held(out) == kernel.raw.held(out)
        &&& raw.solid(out)
        &&& upstream != out
        &&& raw.guards() == kernel.raw.guards()
    }) by {
        broadcast use {group_sound, group_meaning};

    }
    lemma_node_value_held(f, a, upstream, k, resolved, idx);
    lemma_unary_held(name, l.kernel.raw, out, upstream);
    assert(computed(
        f,
        kernel.raw,
        q,
        out,
        applied(name, denoted(f.nodes, f.node_params, a, kernel.raw.held(idx))),
    )) by {
        broadcast use {group_sound, group_meaning};

    }
    if last != q {
        assert(f.saved_params[n as int] == param);
        broadcast use {group_sound, group_meaning};

    }
}

/// The code of an operation on two operands computes what it makes of them.
pub proof fn lemma_binary_held(
    name: OpName,
    f: Scope,
    n: NodeId,
    out: ValueId,
    kernel: LinkedView,
    resolved: Seq<NodeId>,
    idx: ValueId,
)
    requires
        f.operable(n),
        f.node(n).inputs@.len() >= 2,
        is_joined(name),
        pointwise(f.nodes, n),
        prepared(f, kernel, out, idx),
        binary_value(name, f, n, out, kernel, resolved, idx, true).nodes is Ok,
        binary_value(name, f, n, out, kernel, resolved, idx, true).kernel.raw.small(),
    ensures
        computed(
            f,
            kernel.raw,
            binary_value(name, f, n, out, kernel, resolved, idx, true).kernel.raw,
            out,
            joined(
                name,
                denoted(f.nodes, f.node_params, f.input(n, 0), kernel.raw.held(idx)),
                denoted(f.nodes, f.node_params, f.input(n, 1), kernel.raw.held(idx)),
            ),
        ),
    decreases n, 0nat,
{
    assert(f.nodes[n as int].inputs@[0] < n);
    assert(f.nodes[n as int].inputs@[1] < n);
    let i = kernel.raw.held(idx);
    let (k1, a_val) = kernel.def(DType::Float, ValueState::Mut, None);
    let a_node = Operand::Node(f.input(n, 0));
    assert(f.settled(k1) && a_val < k1.raw.span() && k1.raw.continues(kernel.raw)) by {
        broadcast use {group_sound, group_meaning, group_marks};

    }
    lemma_node_value_sound(f, a_node, a_val, k1, resolved, idx, true);
    let a = node_value(f, a_node, a_val, k1, resolved, idx, true);
    let (k2, b_val) = a.kernel.def(DType::Float, ValueState::Mut, None);
    let b_node = Operand::Node(f.input(n, 1));
    assert(f.settled(k2) && b_val < k2.raw.span() && k2.raw.continues(a.kernel.raw)) by {
        broadcast use {group_sound, group_meaning, group_marks};

    }
    lemma_node_value_sound(f, b_node, b_val, k2, a.resolved, idx, true);
    let b = node_value(f, b_node, b_val, k2, a.resolved, idx, true);
    assert(b.kernel.raw.small()) by {
        broadcast use group_sound;

    }
    assert({
        &&& prepared(f, k1, a_val, idx)
        &&& k1.raw.held(idx) == i
        &&& a_val != out
        &&& framed(kernel.raw, k1.raw, out)
    }) by {
        broadcast use {group_sound, group_meaning};

    }
    lemma_node_value_held(f, f.input(n, 0), a_val, k1, resolved, idx);
    assert({
        &&& prepared(f, k2, b_val, idx)
        &&& k2.raw.held(idx) == i
        &&& k2.raw.held(a_val) == a.kernel.raw.held(a_val)
        &&& k2.raw.solid(a_val)
        &&& b_val != out
        &&& b_val != a_val
        &&& framed(a.kernel.raw, k2.raw, out)
    }) by {
        broadcast use {group_sound, group_meaning};

    }
    lemma_node_value_held(f, f.input(n, 1), b_val, k2, a.resolved, idx);
    assert(b.kernel.raw.held(a_val) == denoted(f.nodes, f.node_params, f.input(n, 0), i));
    broadcast use {group_sound, group_meaning};

}

} // verus!
