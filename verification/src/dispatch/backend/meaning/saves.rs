//! What a forward pass saves.

use vstd::prelude::*;

use crate::dispatch::backend::kernel::forward::{node_done, node_value};
use crate::dispatch::backend::kernel::frame::{has_operands, Operand, Scope};
use crate::dispatch::backend::kernel::raw::{LinkedView, RawView};
use crate::dispatch::backend::meaning::facts::group_meaning;
use crate::dispatch::backend::meaning::forward::{
    denoted, is_joined, lemma_binary_held, lemma_node_value_held, lemma_unary_node_held, pointwise,
    pointwise_op, prepared,
};
use crate::dispatch::backend::meaning::{extends, lemma_read_extends, read, Expr};
use crate::dispatch::backend::sound::group_sound;
use crate::dispatch::backend::sound::lower::{lemma_lowering_sound, lemma_node_value_sound};
use crate::dispatch::backend::sound::marks::group_marks;
use crate::dispatch::backend::sound::statement;
use crate::dispatch::backend::std_lib;
use crate::dispatch::backend::std_lib::binary::{binary_lowering, binary_value};
use crate::dispatch::backend::std_lib::unary::{unary_lowering, unary_value};
use crate::dispatch::backend::{
    DType, GraphOp, Node, NodeId, Op, OpName, ParamId, ValueId, ValueState,
};
use crate::scalar::{Float32, ZERO_BITS};

verus! {

/// Whether an operation of a kernel stores a formula to a parameter, at an index.
spec fn stored_at(k: RawView, j: int, param: ParamId, index: Expr, value: Expr) -> bool {
    &&& 0 <= j < k.ops.len()
    &&& k.ops[j] matches Op::ParamStore { param: p, index: i, value: v }
    &&& p == param
    &&& read(k, j as nat, i) == index
    &&& read(k, j as nat, v) == value
}

impl RawView {
    /// Whether a kernel stores a formula to a parameter, at an index.
    #[verifier::opaque]
    pub closed spec fn saves(self, param: ParamId, index: Expr, value: Expr) -> bool {
        exists|j: int| #[trigger] stored_at(self, j, param, index, value)
    }
}

/// A kernel that goes on from another stores what the other does.
pub proof fn lemma_saves_extend(r: RawView, q: RawView, param: ParamId, index: Expr, value: Expr)
    requires
        r.sound(),
        r.small(),
        extends(r, q),
        r.saves(param, index, value),
    ensures
        q.saves(param, index, value),
{
    reveal(RawView::saves);
    reveal(RawView::built);
    let j = choose|j: int| #[trigger] stored_at(r, j, param, index, value);
    assert(q.ops[j] == r.ops[j]);
    assert(statement(r.ops[j], r.values.len()));
    if let Op::ParamStore { index: i, value: v, .. } = r.ops[j] {
        lemma_read_extends(r, q, j as nat, i);
        lemma_read_extends(r, q, j as nat, v);
    }
    assert(stored_at(q, j, param, index, value));
}

/// A store stores what the kernel holds.
pub proof fn lemma_store_saves(r: RawView, param: ParamId, index: ValueId, value: ValueId)
    requires
        r.sound(),
        index < r.span(),
        value < r.span(),
        r.small(),
    ensures
        r.emit(Op::ParamStore { param, index, value }).saves(param, r.held(index), r.held(value)),
{
    reveal(RawView::saves);
    reveal(RawView::built);
    reveal(RawView::held);
    reveal(RawView::emit);
    let q = r.emit(Op::ParamStore { param, index, value });
    let j = r.ops.len();
    lemma_read_extends(r, q, j, index);
    lemma_read_extends(r, q, j, value);
    assert(stored_at(q, j as int, param, r.held(index), r.held(value)));
}

/// Whether a node is, or takes directly or through others, another.
pub open spec fn covers(nodes: Seq<Node>, n: NodeId, m: NodeId) -> bool
    decreases n,
{
    ||| m == n
    ||| match nodes[n as int].op {
        GraphOp::Custom { lower, .. } => {
            let a = nodes[n as int].inputs@[0];
            let b = nodes[n as int].inputs@[1];
            ||| a < n && covers(nodes, a, m)
            ||| is_joined(lower) && b < n && covers(nodes, b, m)
        },
        _ => false,
    }
}

/// The code of a node saves what every node is that it computes on the way and that the pass saves.
pub proof fn lemma_node_value_saves(
    f: Scope,
    n: NodeId,
    out: ValueId,
    kernel: LinkedView,
    resolved: Seq<NodeId>,
    idx: ValueId,
    m: NodeId,
    param: ParamId,
)
    requires
        f.placed(Operand::Node(n)),
        pointwise(f.nodes, n),
        prepared(f, kernel, out, idx),
        node_value(f, Operand::Node(n), out, kernel, resolved, idx, true).nodes is Ok,
        node_value(f, Operand::Node(n), out, kernel, resolved, idx, true).kernel.raw.small(),
        covers(f.nodes, n, m),
        f.node(m).op.auto_saved(),
        f.saved_params[m as int] == Some(param),
    ensures
        node_value(f, Operand::Node(n), out, kernel, resolved, idx, true).kernel.raw.saves(
            param,
            kernel.raw.held(idx),
            denoted(f.nodes, f.node_params, m, kernel.raw.held(idx)),
        ),
    decreases n, 1nat,
{
    let op = f.node(n).op;
    let l = node_value(f, Operand::Node(n), out, kernel, resolved, idx, true);
    assert(pointwise_op(f.nodes[n as int].op));
    lemma_node_value_sound(f, Operand::Node(n), out, kernel, resolved, idx, true);
    let k = kernel.computes(op);
    let i = kernel.raw.held(idx);
    let e = denoted(f.nodes, f.node_params, m, i);
    if let GraphOp::Custom { lower, .. } = op {
        assert(has_operands(f.nodes, n as int));
        let u = std_lib::lowering(f, None, n, out, k, resolved, idx, true);
        lemma_lowering_sound(f, None, n, out, k, resolved, idx, true);
        assert(u.nodes is Ok);
        let own = seq![n];
        assert(l == node_done(f, n, out, u.kernel, u.resolved, idx, own + u.nodes->Ok_0));
        assert(u.kernel.raw.small() && extends(u.kernel.raw, l.kernel.raw)) by {
            reveal(RawView::emit);
        }
        if is_joined(lower) {
            assert(u == binary_lowering(lower, f, None, n, out, k, resolved, idx, true));
            assert(u == binary_value(lower, f, n, out, k, resolved, idx, true));
            if m == n {
                lemma_binary_held(lower, f, n, out, k, resolved, idx);
            } else {
                lemma_binary_saves(lower, f, n, out, k, resolved, idx, m, param);
            }
        } else {
            assert(u == unary_lowering(lower, f, None, n, out, k, resolved, idx, true));
            if m == n {
                lemma_unary_node_held(lower, f, n, out, k, resolved, idx);
            } else {
                lemma_unary_saves(lower, f, n, out, k, resolved, idx, m, param);
            }
        }
        if m == n {
            lemma_store_saves(u.kernel.raw, param, idx, out);
        } else {
            lemma_saves_extend(u.kernel.raw, l.kernel.raw, param, i, e);
        }
    }
}

/// The code of an operation on one number goes on from that of the number.
proof fn lemma_unary_extends(name: OpName, r: RawView, out: ValueId, inp: ValueId)
    ensures
        extends(r, unary_value(name, r, out, inp).0),
{
    reveal(RawView::def);
    reveal(RawView::emit);
}

/// The code of a node goes on from the kernel that it is added to.
proof fn lemma_node_value_extends(
    f: Scope,
    n: NodeId,
    out: ValueId,
    kernel: LinkedView,
    resolved: Seq<NodeId>,
    idx: ValueId,
)
    requires
        f.placed(Operand::Node(n)),
        pointwise(f.nodes, n),
        forall|m: int| 0 <= m < f.nodes.len() ==> #[trigger] has_operands(f.nodes, m),
    ensures
        extends(
            kernel.raw,
            node_value(f, Operand::Node(n), out, kernel, resolved, idx, true).kernel.raw,
        ),
    decreases n,
{
    let op = f.node(n).op;
    let l = node_value(f, Operand::Node(n), out, kernel, resolved, idx, true);
    assert(pointwise_op(f.nodes[n as int].op));
    let k = kernel.computes(op);
    if let GraphOp::Custom { lower, .. } = op {
        assert(has_operands(f.nodes, n as int));
        let u = std_lib::lowering(f, None, n, out, k, resolved, idx, true);
        assert(f.nodes[n as int].inputs@[0] < n);
        if is_joined(lower) {
            assert(f.nodes[n as int].inputs@[1] < n);
            assert(u == binary_lowering(lower, f, None, n, out, k, resolved, idx, true));
            assert(u == binary_value(lower, f, n, out, k, resolved, idx, true));
            let (k1, a_val) = k.def(DType::Float, ValueState::Mut, None);
            lemma_node_value_extends(f, f.input(n, 0), a_val, k1, resolved, idx);
            let a = node_value(
                f,
                Operand::Node(f.input(n, 0)),
                a_val,
                k1,
                resolved,
                idx,
                true,
            );
            let (k2, b_val) = a.kernel.def(DType::Float, ValueState::Mut, None);
            lemma_node_value_extends(f, f.input(n, 1), b_val, k2, a.resolved, idx);
            assert(extends(k.raw, k1.raw) && extends(a.kernel.raw, k2.raw)) by {
                reveal(RawView::def);
            }
        } else {
            assert(u == unary_lowering(lower, f, None, n, out, k, resolved, idx, true));
            let zero = Op::ConstF32 { value: Float32 { bits: ZERO_BITS } };
            let (raw, upstream) = k.raw.var_f(zero);
            let k1 = LinkedView { raw, ..k };
            lemma_node_value_extends(f, f.input(n, 0), upstream, k1, resolved, idx);
            let a = node_value(
                f,
                Operand::Node(f.input(n, 0)),
                upstream,
                k1,
                resolved,
                idx,
                true,
            );
            lemma_unary_extends(lower, a.kernel.raw, out, upstream);
            assert(extends(k.raw, k1.raw)) by {
                reveal(RawView::def);
            }
        }
        assert(extends(k.raw, u.kernel.raw)) by {
            reveal(RawView::emit);
        }
    }
    reveal(RawView::emit);
}

proof fn lemma_unary_saves(
    name: OpName,
    f: Scope,
    n: NodeId,
    out: ValueId,
    kernel: LinkedView,
    resolved: Seq<NodeId>,
    idx: ValueId,
    m: NodeId,
    param: ParamId,
)
    requires
        f.operable(n),
        f.node(n).inputs@.len() >= 1,
        pointwise(f.nodes, n),
        prepared(f, kernel, out, idx),
        unary_lowering(name, f, None, n, out, kernel, resolved, idx, true).nodes is Ok,
        unary_lowering(name, f, None, n, out, kernel, resolved, idx, true).kernel.raw.small(),
        covers(f.nodes, f.input(n, 0), m),
        f.node(m).op.auto_saved(),
        f.saved_params[m as int] == Some(param),
    ensures
        unary_lowering(name, f, None, n, out, kernel, resolved, idx, true).kernel.raw.saves(
            param,
            kernel.raw.held(idx),
            denoted(f.nodes, f.node_params, m, kernel.raw.held(idx)),
        ),
    decreases n, 0nat,
{
    let u = unary_lowering(name, f, None, n, out, kernel, resolved, idx, true);
    let zero = Op::ConstF32 { value: Float32 { bits: ZERO_BITS } };
    let a = f.input(n, 0);
    assert(f.nodes[n as int].inputs@[0] < n);
    let (raw, upstream) = kernel.raw.var_f(zero);
    let k = LinkedView { raw, ..kernel };
    let node = Operand::Node(a);
    assert(f.settled(k) && upstream < raw.span() && raw.continues(kernel.raw)) by {
        broadcast use {group_sound, group_meaning, group_marks};

    }
    lemma_node_value_sound(f, node, upstream, k, resolved, idx, true);
    let l = node_value(f, node, upstream, k, resolved, idx, true);
    let (q, save) = unary_value(name, l.kernel.raw, out, upstream);
    let last = u.kernel.raw;
    lemma_unary_extends(name, l.kernel.raw, out, upstream);
    assert(extends(l.kernel.raw, last)) by {
        reveal(RawView::emit);
    }
    assert({
        &&& prepared(f, k, upstream, idx)
        &&& raw.held(idx) == kernel.raw.held(idx)
    }) by {
        broadcast use {group_sound, group_meaning};

    }
    lemma_node_value_saves(f, a, upstream, k, resolved, idx, m, param);
    let i = kernel.raw.held(idx);
    lemma_saves_extend(
        l.kernel.raw,
        last,
        param,
        i,
        denoted(f.nodes, f.node_params, m, i),
    );
}

proof fn lemma_binary_saves(
    name: OpName,
    f: Scope,
    n: NodeId,
    out: ValueId,
    kernel: LinkedView,
    resolved: Seq<NodeId>,
    idx: ValueId,
    m: NodeId,
    param: ParamId,
)
    requires
        f.operable(n),
        f.node(n).inputs@.len() >= 2,
        is_joined(name),
        pointwise(f.nodes, n),
        prepared(f, kernel, out, idx),
        binary_value(name, f, n, out, kernel, resolved, idx, true).nodes is Ok,
        binary_value(name, f, n, out, kernel, resolved, idx, true).kernel.raw.small(),
        covers(f.nodes, f.input(n, 0), m) || covers(f.nodes, f.input(n, 1), m),
        f.node(m).op.auto_saved(),
        f.saved_params[m as int] == Some(param),
    ensures
        binary_value(name, f, n, out, kernel, resolved, idx, true).kernel.raw.saves(
            param,
            kernel.raw.held(idx),
            denoted(f.nodes, f.node_params, m, kernel.raw.held(idx)),
        ),
    decreases n, 0nat,
{
    assert(f.nodes[n as int].inputs@[0] < n);
    assert(f.nodes[n as int].inputs@[1] < n);
    let i = kernel.raw.held(idx);
    let e = denoted(f.nodes, f.node_params, m, i);
    let (k1, a_val) = kernel.def(DType::Float, ValueState::Mut, None);
    let a_node = Operand::Node(f.input(n, 0));
    assert(f.settled(k1) && a_val < k1.raw.span() && k1.raw.continues(kernel.raw)) by {
        broadcast use {group_sound, group_meaning, group_marks};

    }
    lemma_node_value_sound(f, a_node, a_val, k1, resolved, idx, true);
    let a = node_value(f, a_node, a_val, k1, resolved, idx, true);
    let (k2, b_val) = a.kernel.def(DType::Float, ValueState::Mut, None);
    let b_node = Operand::Node(f.input(n, 1));
    assert(f.settled(k2) && b_val < k2.raw.span() && k2.raw.continues(a.kernel.raw)) by {
        broadcast use {group_sound, group_meaning, group_marks};

    }
    lemma_node_value_sound(f, b_node, b_val, k2, a.resolved, idx, true);
    let b = node_value(f, b_node, b_val, k2, a.resolved, idx, true);
    let last = binary_value(name, f, n, out, kernel, resolved, idx, true).kernel.raw;
    assert(b.kernel.raw.small() && extends(b.kernel.raw, last)) by {
        broadcast use group_sound;

        reveal(RawView::emit);
    }
    assert({
        &&& prepared(f, k1, a_val, idx)
        &&& k1.raw.held(idx) == i
    }) by {
        broadcast use {group_sound, group_meaning};

    }
    lemma_node_value_held(f, f.input(n, 0), a_val, k1, resolved, idx);
    assert({
        &&& prepared(f, k2, b_val, idx)
        &&& k2.raw.held(idx) == i
    }) by {
        broadcast use {group_sound, group_meaning};

    }
    if covers(f.nodes, f.input(n, 1), m) {
        lemma_node_value_saves(f, f.input(n, 1), b_val, k2, a.resolved, idx, m, param);
        lemma_saves_extend(b.kernel.raw, last, param, i, e);
    } else {
        lemma_node_value_saves(f, f.input(n, 0), a_val, k1, resolved, idx, m, param);
        assert(extends(a.kernel.raw, k2.raw)) by {
            reveal(RawView::def);
        }
        lemma_node_value_extends(f, f.input(n, 1), b_val, k2, a.resolved, idx);
        lemma_saves_extend(a.kernel.raw, last, param, i, e);
    }
}

} // verus!
