//! Which nodes the code of a node resolves and reaches.

use vstd::prelude::*;

use crate::dispatch::backend::kernel::forward::{node_done, node_value};
use crate::dispatch::backend::kernel::frame::{has_operands, Operand, Scope};
use crate::dispatch::backend::kernel::raw::LinkedView;
use crate::dispatch::backend::meaning::emitted::{lemma_stages_grow, stages};
use crate::dispatch::backend::meaning::forward::is_joined;
use crate::dispatch::backend::meaning::fused::{fusible, lemma_node_grows, product_setting};
use crate::dispatch::backend::meaning::pass::{lemma_resolve, taken_back};
use crate::dispatch::backend::meaning::product::zero;
use crate::dispatch::backend::std_lib::binary::{binary_lowering, binary_value};
use crate::dispatch::backend::std_lib::lowering;
use crate::dispatch::backend::std_lib::matmul::{matmul_lowering, product};
use crate::dispatch::backend::std_lib::unary::unary_lowering;
use crate::dispatch::backend::{DType, GraphOp, MetaId, Node, NodeId, OpName, ValueId, ValueState};

verus! {

/// Whether a node is another one, or one that some node takes.
pub open spec fn under(nodes: Seq<Node>, n: NodeId, m: NodeId) -> bool {
    m == n || (m < nodes.len() && nodes[m as int].outputs@.len() > 0)
}

/// Whether nodes that take inputs are reached below a node, or are the node.
pub open spec fn all_under(nodes: Seq<Node>, n: NodeId, ids: Seq<NodeId>) -> bool {
    forall|i: int|
        0 <= i < ids.len() ==> under(nodes, n, #[trigger] ids[i])
            && nodes[ids[i] as int].inputs@.len() > 0
}

/// Whether the nodes that are resolved are those that were before, the node, and nodes that some node
/// takes.
pub open spec fn resolves(
    nodes: Seq<Node>,
    n: NodeId,
    before: Seq<NodeId>,
    after: Seq<NodeId>,
) -> bool {
    &&& forall|m: NodeId| before.contains(m) ==> #[trigger] after.contains(m)
    &&& forall|m: NodeId| #[trigger]
        after.contains(m) ==> before.contains(m) || under(nodes, n, m)
}

proof fn lemma_resolves_on(
    nodes: Seq<Node>,
    n: NodeId,
    a: NodeId,
    x: Seq<NodeId>,
    y: Seq<NodeId>,
    z: Seq<NodeId>,
)
    requires
        resolves(nodes, n, x, y),
        resolves(nodes, a, y, z),
        a < nodes.len(),
        nodes[a as int].outputs@.len() > 0,
    ensures
        resolves(nodes, n, x, z),
{
    assert forall|m: NodeId| x.contains(m) implies #[trigger] z.contains(m) by {
        assert(y.contains(m));
    }
    assert forall|m: NodeId| #[trigger] z.contains(m) implies x.contains(m) || under(
        nodes,
        n,
        m,
    ) by {
        assert(y.contains(m) || under(nodes, a, m));
    }
}

proof fn lemma_all_under_on(
    nodes: Seq<Node>,
    n: NodeId,
    a: NodeId,
    ids: Seq<NodeId>,
    more: Seq<NodeId>,
)
    requires
        all_under(nodes, n, ids),
        all_under(nodes, a, more),
        a < nodes.len(),
        nodes[a as int].outputs@.len() > 0,
    ensures
        all_under(nodes, n, ids + more),
{
    assert forall|i: int| 0 <= i < (ids + more).len() implies under(
        nodes,
        n,
        #[trigger] (ids + more)[i],
    ) && nodes[(ids + more)[i] as int].inputs@.len() > 0 by {
        if i >= ids.len() {
            assert(under(nodes, a, more[i - ids.len()]));
        }
    }
}

/// The code of a node resolves the node, and besides it only nodes that others take; the nodes that
/// it reaches are such nodes too.
pub proof fn lemma_node_reaches(
    f: Scope,
    n: NodeId,
    out: ValueId,
    kernel: LinkedView,
    resolved: Seq<NodeId>,
    idx: ValueId,
    grid: Option<(MetaId, MetaId)>,
)
    requires
        f.placed(Operand::Node(n)),
        forall|m: int| 0 <= m < f.nodes.len() ==> #[trigger] has_operands(f.nodes, m),
        fusible(f.nodes, n, grid),
        taken_back(f.nodes),
        !f.claimed(resolved),
        node_value(f, Operand::Node(n), out, kernel, resolved, idx, grid is Some).nodes is Ok,
    ensures
        ({
            let l = node_value(f, Operand::Node(n), out, kernel, resolved, idx, grid is Some);
            &&& resolves(f.nodes, n, resolved, l.resolved)
            &&& all_under(f.nodes, n, l.nodes->Ok_0)
            &&& grid is Some ==> l.resolved.contains(n)
        }),
    decreases n,
{
    let op = f.node(n).op;
    let stable = grid is Some;
    let nodes = f.nodes;
    let l = node_value(f, Operand::Node(n), out, kernel, resolved, idx, stable);
    let k = kernel.computes(op);
    lemma_resolve(resolved, n);
    if op is Custom && !(op.transform() && !stable) {
        let lower = op->lower;
        assert(has_operands(f.nodes, n as int));
        let u = lowering(f, None, n, out, k, resolved, idx, stable);
        let a = f.input(n, 0);
        let b = f.input(n, 1);
        assert(u.nodes is Ok);
        assert(a < n && nodes[a as int].outputs@.len() > 0) by {
            assert(nodes[n as int].inputs@[0] == a);
        }
        let ids = u.nodes->Ok_0;
        let none = Seq::<NodeId>::empty();
        if lower == OpName::Matmul {
            assert(nodes[n as int].inputs@[1] == b);
            let (e, terms, k4) = product_setting(f, n, out, k);
            assert(u == product(f, false, e, terms, out, k4, resolved)) by {
                assert(u == matmul_lowering(f, None, n, out, k, resolved));
            }
            lemma_stages_grow(f, false, e, terms, out, k4, resolved);
            let s = stages(f, false, e, terms, k4, resolved);
            lemma_node_grows(f, a, s.a_val, s.ka, resolved, s.a_idx, None);
            lemma_node_reaches(f, a, s.a_val, s.ka, resolved, s.a_idx, None);
            lemma_node_reaches(f, b, s.b_val, s.kb, s.a.resolved, s.b_idx, None);
            lemma_resolves_on(nodes, n, a, resolved, resolved, s.a.resolved);
            lemma_resolves_on(nodes, n, b, resolved, s.a.resolved, s.b.resolved);
            lemma_all_under_on(nodes, n, a, none, s.a.nodes->Ok_0);
            lemma_all_under_on(nodes, n, b, none + s.a.nodes->Ok_0, s.b.nodes->Ok_0);
            assert(ids == none + s.a.nodes->Ok_0 + s.b.nodes->Ok_0);
        } else if is_joined(lower) {
            assert(nodes[n as int].inputs@[1] == b);
            assert(u == binary_lowering(lower, f, None, n, out, k, resolved, idx, stable));
            assert(u == binary_value(lower, f, n, out, k, resolved, idx, stable));
            let (k1, a_val) = k.def(DType::Float, ValueState::Mut, None);
            let x = node_value(f, Operand::Node(a), a_val, k1, resolved, idx, stable);
            lemma_node_grows(f, a, a_val, k1, resolved, idx, grid);
            lemma_node_reaches(f, a, a_val, k1, resolved, idx, grid);
            let (k2, b_val) = x.kernel.def(DType::Float, ValueState::Mut, None);
            let y = node_value(f, Operand::Node(b), b_val, k2, x.resolved, idx, stable);
            lemma_node_reaches(f, b, b_val, k2, x.resolved, idx, grid);
            lemma_resolves_on(nodes, n, a, resolved, resolved, x.resolved);
            lemma_resolves_on(nodes, n, b, resolved, x.resolved, y.resolved);
            lemma_all_under_on(nodes, n, a, none, x.nodes->Ok_0);
            lemma_all_under_on(nodes, n, b, none + x.nodes->Ok_0, y.nodes->Ok_0);
            assert(ids == none + x.nodes->Ok_0 + y.nodes->Ok_0);
        } else {
            assert(u == unary_lowering(lower, f, None, n, out, k, resolved, idx, stable));
            let (raw, upstream) = k.raw.var_f(zero());
            let k1 = LinkedView { raw, ..k };
            let x = node_value(f, Operand::Node(a), upstream, k1, resolved, idx, stable);
            lemma_node_reaches(f, a, upstream, k1, resolved, idx, grid);
            lemma_resolves_on(nodes, n, a, resolved, resolved, x.resolved);
            lemma_all_under_on(nodes, n, a, none, x.nodes->Ok_0);
            assert(ids == none + x.nodes->Ok_0);
        }
        let own: Seq<NodeId> = if f.node(n).inputs@.len() > 0 {
            seq![n]
        } else {
            Seq::empty()
        };
        assert(l == node_done(f, n, out, u.kernel, u.resolved, idx, own + ids));
        lemma_resolve(u.resolved, n);
        assert forall|i: int| 0 <= i < (own + ids).len() implies under(
            nodes,
            n,
            #[trigger] (own + ids)[i],
        ) && nodes[(own + ids)[i] as int].inputs@.len() > 0 by {
            if i >= own.len() {
                assert(under(nodes, n, ids[i - own.len()]));
            }
        }
    }
}

/// Whether computing a node loads what was saved of another.
pub open spec fn fetches(
    nodes: Seq<Node>,
    n: NodeId,
    grid: Option<(MetaId, MetaId)>,
    m: NodeId,
) -> bool
    decreases n,
{
    let node = nodes[n as int];
    let a = node.inputs@[0];
    let b = node.inputs@[1];
    match node.op {
        GraphOp::Custom { lower, .. } => if grid is None && node.op.transform() {
            m == n
        } else {
            let below = if lower == OpName::Matmul {
                None
            } else {
                grid
            };
            ||| a < n && fetches(nodes, a, below, m)
            ||| (is_joined(lower) || lower == OpName::Matmul) && b < n && fetches(
                nodes,
                b,
                below,
                m,
            )
        },
        _ => false,
    }
}

/// Whether a node is computed on the way to another.
pub open spec fn works_out(
    nodes: Seq<Node>,
    n: NodeId,
    grid: Option<(MetaId, MetaId)>,
    m: NodeId,
) -> bool
    decreases n,
{
    let node = nodes[n as int];
    let a = node.inputs@[0];
    let b = node.inputs@[1];
    match node.op {
        GraphOp::Custom { lower, .. } => if grid is None && node.op.transform() {
            false
        } else {
            let below = if lower == OpName::Matmul {
                None
            } else {
                grid
            };
            ||| m == n
            ||| a < n && works_out(nodes, a, below, m)
            ||| (is_joined(lower) || lower == OpName::Matmul) && b < n && works_out(
                nodes,
                b,
                below,
                m,
            )
        },
        _ => m == n,
    }
}

/// Whether a list of nodes that are not above a node holds those that computing it loads.
spec fn finds(
    nodes: Seq<Node>,
    n: NodeId,
    grid: Option<(MetaId, MetaId)>,
    ids: Seq<NodeId>,
) -> bool {
    &&& forall|m: NodeId| #[trigger] fetches(nodes, n, grid, m) ==> ids.contains(m)
    &&& forall|i: int| 0 <= i < ids.len() ==> #[trigger] ids[i] <= n
}

/// Whether the nodes that are newly resolved are computed on the way to a node.
spec fn adds(
    nodes: Seq<Node>,
    n: NodeId,
    grid: Option<(MetaId, MetaId)>,
    before: Seq<NodeId>,
    after: Seq<NodeId>,
) -> bool {
    forall|m: NodeId| #[trigger]
        after.contains(m) ==> before.contains(m) || works_out(nodes, n, grid, m)
}

proof fn lemma_in_sum(a: Seq<NodeId>, b: Seq<NodeId>, m: NodeId)
    requires
        a.contains(m) || b.contains(m),
    ensures
        (a + b).contains(m),
{
    if a.contains(m) {
        let i = a.index_of(m);
        assert((a + b)[i] == m);
    } else {
        let i = b.index_of(m);
        assert((a + b)[a.len() + i] == m);
    }
}

/// The code of a node reaches what it loads, and resolves only what it computes.
pub proof fn lemma_node_finds(
    f: Scope,
    n: NodeId,
    out: ValueId,
    kernel: LinkedView,
    resolved: Seq<NodeId>,
    idx: ValueId,
    grid: Option<(MetaId, MetaId)>,
)
    requires
        f.placed(Operand::Node(n)),
        forall|m: int| 0 <= m < f.nodes.len() ==> #[trigger] has_operands(f.nodes, m),
        fusible(f.nodes, n, grid),
        !f.claimed(resolved),
        node_value(f, Operand::Node(n), out, kernel, resolved, idx, grid is Some).nodes is Ok,
    ensures
        ({
            let l = node_value(f, Operand::Node(n), out, kernel, resolved, idx, grid is Some);
            let ids = l.nodes->Ok_0;
            &&& forall|m: NodeId| #[trigger] fetches(f.nodes, n, grid, m) ==> ids.contains(m)
            &&& forall|i: int| 0 <= i < ids.len() ==> #[trigger] ids[i] <= n
            &&& forall|m: NodeId| #[trigger]
                l.resolved.contains(m) ==> resolved.contains(m) || works_out(f.nodes, n, grid, m)
        }),
    decreases n,
{
    let op = f.node(n).op;
    let stable = grid is Some;
    let nodes = f.nodes;
    let l = node_value(f, Operand::Node(n), out, kernel, resolved, idx, stable);
    let k = kernel.computes(op);
    let own: Seq<NodeId> = if f.node(n).inputs@.len() > 0 {
        seq![n]
    } else {
        Seq::empty()
    };
    lemma_resolve(resolved, n);
    if op is Custom {
        let lower = op->lower;
        assert(has_operands(f.nodes, n as int));
        assert(own[0] == n);
        if op.transform() && !stable {
            assert(l.nodes->Ok_0 == own);
        } else {
            let u = lowering(f, None, n, out, k, resolved, idx, stable);
            let a = f.input(n, 0);
            let b = f.input(n, 1);
            assert(u.nodes is Ok);
            let ids = u.nodes->Ok_0;
            let below = if lower == OpName::Matmul {
                None
            } else {
                grid
            };
            let (a_ids, b_ids, mid) = if lower == OpName::Matmul {
                let (e, terms, k4) = product_setting(f, n, out, k);
                assert(u == product(f, false, e, terms, out, k4, resolved)) by {
                    assert(u == matmul_lowering(f, None, n, out, k, resolved));
                }
                lemma_stages_grow(f, false, e, terms, out, k4, resolved);
                let s = stages(f, false, e, terms, k4, resolved);
                lemma_node_grows(f, a, s.a_val, s.ka, resolved, s.a_idx, None);
                lemma_node_finds(f, a, s.a_val, s.ka, resolved, s.a_idx, None);
                lemma_node_finds(f, b, s.b_val, s.kb, s.a.resolved, s.b_idx, None);
                (s.a.nodes->Ok_0, s.b.nodes->Ok_0, s.a.resolved)
            } else if is_joined(lower) {
                assert(u == binary_lowering(lower, f, None, n, out, k, resolved, idx, stable));
                assert(u == binary_value(lower, f, n, out, k, resolved, idx, stable));
                let (k1, a_val) = k.def(DType::Float, ValueState::Mut, None);
                let x = node_value(f, Operand::Node(a), a_val, k1, resolved, idx, stable);
                lemma_node_grows(f, a, a_val, k1, resolved, idx, grid);
                lemma_node_finds(f, a, a_val, k1, resolved, idx, grid);
                let (k2, b_val) = x.kernel.def(DType::Float, ValueState::Mut, None);
                let y = node_value(f, Operand::Node(b), b_val, k2, x.resolved, idx, stable);
                lemma_node_finds(f, b, b_val, k2, x.resolved, idx, grid);
                (x.nodes->Ok_0, y.nodes->Ok_0, x.resolved)
            } else {
                assert(u == unary_lowering(lower, f, None, n, out, k, resolved, idx, stable));
                let (raw, upstream) = k.raw.var_f(zero());
                let k1 = LinkedView { raw, ..k };
                let x = node_value(f, Operand::Node(a), upstream, k1, resolved, idx, stable);
                lemma_node_finds(f, a, upstream, k1, resolved, idx, grid);
                (x.nodes->Ok_0, Seq::<NodeId>::empty(), x.resolved)
            };
            assert(finds(nodes, a, below, a_ids) && adds(nodes, a, below, resolved, mid));
            let two = is_joined(lower) || lower == OpName::Matmul;
            assert(two ==> finds(nodes, b, below, b_ids) && adds(
                nodes,
                b,
                below,
                mid,
                u.resolved,
            ));
            assert(!two ==> u.resolved == mid && b_ids.len() == 0);
            assert(ids == a_ids + b_ids);
            assert(l == node_done(f, n, out, u.kernel, u.resolved, idx, own + ids));
            lemma_resolve(u.resolved, n);
            assert forall|m: NodeId| #[trigger] fetches(nodes, n, grid, m) implies (own
                + ids).contains(m) by {
                if a < n && fetches(nodes, a, below, m) {
                    lemma_in_sum(a_ids, b_ids, m);
                } else {
                    assert(fetches(nodes, b, below, m));
                    lemma_in_sum(a_ids, b_ids, m);
                }
                lemma_in_sum(own, ids, m);
            }
            assert forall|i: int| 0 <= i < (own + ids).len() implies #[trigger] (own + ids)[i]
                <= n by {
                if i >= own.len() {
                    let j = i - own.len();
                    if j < a_ids.len() {
                        assert((own + ids)[i] == a_ids[j]);
                    } else {
                        assert((own + ids)[i] == b_ids[j - a_ids.len()]);
                    }
                }
            }
            assert forall|m: NodeId| #[trigger] l.resolved.contains(m) implies resolved.contains(m)
                || works_out(nodes, n, grid, m) by {
                if m != n {
                    assert(u.resolved.contains(m));
                    if two && !mid.contains(m) {
                        assert(works_out(nodes, b, below, m));
                    } else {
                        assert(mid.contains(m));
                    }
                }
            }
        }
    }
}

} // verus!
