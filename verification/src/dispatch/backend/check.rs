//! The checks of a graph.

use vstd::prelude::*;

use crate::dispatch::backend::graph::inputs_of;
use crate::dispatch::backend::sort::{acyclic, descends, inputs_exist};
use crate::dispatch::backend::{Graph, GraphOp, MetaId, Metadata, Node, NodeId, ShapeRule};
use crate::errors::{
    faults, graph_error, lists, Error, ErrorKind, Fault, GraphErrorContext,
};

verus! {

/// Adds an error to a list.
fn report(
    errors: &mut Vec<Error<GraphErrorContext>>,
    msg: &'static str,
    ctx: GraphErrorContext,
)
    ensures
        faults(final(errors)@) == faults(old(errors)@).push(graph_error(msg, ctx@)),
{
    errors.push(Error { msg, kind: ErrorKind::ComputeGraphError, ctx });
    assert(faults(errors@) == faults(old(errors)@).push(graph_error(msg, ctx@)));
}

/// How far a search for cycles has come: the nodes that were visited, those that lead to the
/// current one, the nodes visited since one was left, and the errors.
#[verifier::ext_equal]
pub struct Walk {
    pub visited: Seq<bool>,
    pub stack: Seq<bool>,
    pub path: Seq<NodeId>,
    pub errors: Seq<Error<Fault>>,
}

/// The search after a node: a node that leads to itself is an error, and a node that was not
/// visited yet leads to its inputs.
///
/// The number of nodes that are not visited bounds how deep the search goes.
pub open spec fn walk(inputs: Seq<Seq<NodeId>>, node: NodeId, w: Walk, depth: nat) -> Walk
    decreases depth, 0nat,
{
    if w.stack[node as int] {
        Walk {
            errors: w.errors.push(
                graph_error(
                    "graph must be acrylic",
                    Fault::CycleDetected { node, path: w.path },
                ),
            ),
            ..w
        }
    } else if w.visited[node as int] || depth == 0 {
        w
    } else {
        let entered = Walk {
            visited: w.visited.update(node as int, true),
            stack: w.stack.update(node as int, true),
            path: w.path.push(node),
            ..w
        };
        let left = walk_inputs(
            inputs,
            node,
            inputs[node as int].len(),
            entered,
            (depth - 1) as nat,
        );
        Walk { stack: left.stack.update(node as int, false), path: Seq::empty(), ..left }
    }
}

/// The search after the first inputs of a node. Inputs that are no nodes are passed over.
pub open spec fn walk_inputs(
    inputs: Seq<Seq<NodeId>>,
    node: NodeId,
    count: nat,
    w: Walk,
    depth: nat,
) -> Walk
    decreases depth, count + 1,
{
    if count == 0 {
        w
    } else {
        let w = walk_inputs(inputs, node, (count - 1) as nat, w, depth);
        let input = inputs[node as int][count - 1];
        if input < inputs.len() {
            walk(inputs, input, w, depth)
        } else {
            w
        }
    }
}

/// The search after the first nodes.
pub open spec fn walk_nodes(inputs: Seq<Seq<NodeId>>, count: nat, w: Walk) -> Walk
    decreases count,
{
    if count == 0 {
        w
    } else {
        walk(
            inputs,
            (count - 1) as usize,
            walk_nodes(inputs, (count - 1) as nat, w),
            inputs.len(),
        )
    }
}

/// A search that has not begun.
pub open spec fn fresh_walk(count: nat) -> Walk {
    Walk {
        visited: Seq::new(count, |n: int| false),
        stack: Seq::new(count, |n: int| false),
        path: Seq::empty(),
        errors: Seq::empty(),
    }
}

/// The nodes that lead back to themselves, as a search finds them.
pub open spec fn cycle_faults(inputs: Seq<Seq<NodeId>>) -> Seq<Error<Fault>> {
    walk_nodes(inputs, inputs.len(), fresh_walk(inputs.len())).errors
}

/// How many of the first nodes are not visited.
spec fn unvisited(visited: Seq<bool>, count: nat) -> nat
    decreases count,
{
    if count == 0 {
        0
    } else {
        unvisited(visited, (count - 1) as nat) + if visited[count - 1] {
            0nat
        } else {
            1nat
        }
    }
}

proof fn lemma_unvisited_update(visited: Seq<bool>, n: int, count: nat)
    requires
        0 <= n < visited.len(),
        count <= visited.len(),
        !visited[n],
    ensures
        unvisited(visited.update(n, true), count) == unvisited(visited, count) - if n < count {
            1int
        } else {
            0int
        },
    decreases count,
{
    if count > 0 {
        lemma_unvisited_update(visited, n, (count - 1) as nat);
    }
}

proof fn lemma_unvisited_monotone(a: Seq<bool>, b: Seq<bool>, count: nat)
    requires
        a.len() == b.len(),
        count <= a.len(),
        forall|n: int| 0 <= n < a.len() && #[trigger] a[n] ==> b[n],
    ensures
        unvisited(b, count) <= unvisited(a, count),
    decreases count,
{
    if count > 0 {
        lemma_unvisited_monotone(a, b, (count - 1) as nat);
    }
}

proof fn lemma_unvisited_bound(visited: Seq<bool>, count: nat)
    ensures
        unvisited(visited, count) <= count,
    decreases count,
{
    if count > 0 {
        lemma_unvisited_bound(visited, (count - 1) as nat);
    }
}

proof fn lemma_unvisited_zero(visited: Seq<bool>, n: int, count: nat)
    requires
        0 <= n < count <= visited.len(),
        !visited[n],
    ensures
        unvisited(visited, count) > 0,
    decreases count,
{
    if n < count - 1 {
        lemma_unvisited_zero(visited, n, (count - 1) as nat);
    }
}

/// The state of a search for cycles.
struct Search {
    visited: Vec<bool>,
    stack: Vec<bool>,
    path: Vec<NodeId>,
    errors: Vec<Error<GraphErrorContext>>,
}

impl Search {
    spec fn state(self) -> Walk {
        Walk {
            visited: self.visited@,
            stack: self.stack@,
            path: self.path@,
            errors: faults(self.errors@),
        }
    }

    spec fn fits(self, count: nat) -> bool {
        self.visited@.len() == count && self.stack@.len() == count
    }

    spec fn left(self) -> nat {
        unvisited(self.visited@, self.visited@.len())
    }
}

fn dfs(graph: &Graph, node: NodeId, s: &mut Search, Ghost(depth): Ghost<nat>)
    requires
        node < graph.nodes@.len(),
        old(s).fits(graph.nodes@.len()),
        old(s).left() <= depth,
    ensures
        final(s).fits(graph.nodes@.len()),
        final(s).state() == walk(inputs_of(graph.nodes@), node, old(s).state(), depth),
        forall|n: int|
            0 <= n < old(s).visited@.len() && #[trigger] old(s).visited@[n]
                ==> final(s).visited@[n],
    decreases depth,
{
    let ghost ins = inputs_of(graph.nodes@);
    if s.stack[node] {
        let path = s.path.clone();
        report(
            &mut s.errors,
            "graph must be acrylic",
            GraphErrorContext::CycleDetected { node, path },
        );
        return;
    }
    if s.visited[node] {
        return;
    }
    proof {
        lemma_unvisited_zero(s.visited@, node as int, s.visited@.len());
        lemma_unvisited_update(s.visited@, node as int, s.visited@.len());
    }
    s.visited[node] = true;
    s.stack[node] = true;
    s.path.push(node);
    let ghost entered = s.state();
    let inputs = &graph.nodes[node].inputs;
    let mut i: usize = 0;
    while i < inputs.len()
        invariant
            i <= inputs@.len(),
            depth > 0,
            node < graph.nodes@.len(),
            ins == inputs_of(graph.nodes@),
            inputs@ == ins[node as int],
            s.fits(graph.nodes@.len()),
            s.left() <= depth - 1,
            s.state() == walk_inputs(ins, node, i as nat, entered, (depth - 1) as nat),
            forall|n: int|
                0 <= n < old(s).visited@.len() && #[trigger] old(s).visited@[n]
                    ==> s.visited@[n],
            old(s).visited@.len() == s.visited@.len(),
        decreases inputs@.len() - i,
    {
        let input: NodeId = inputs[i];
        if input < graph.nodes.len() {
            let ghost seen = s.visited@;
            dfs(graph, input, s, Ghost((depth - 1) as nat));
            proof {
                lemma_unvisited_monotone(seen, s.visited@, seen.len());
            }
        }
        i += 1;
    }
    s.stack[node] = false;
    s.path.clear();
}

fn check_acrylicity(graph: &Graph, errors: &mut Vec<Error<GraphErrorContext>>)
    requires
        old(errors)@.len() == 0,
    ensures
        faults(final(errors)@) == cycle_faults(inputs_of(graph.nodes@)),
{
    let count: usize = graph.nodes.len();
    let mut s = Search {
        visited: crate::dispatch::backend::kernel::index::unset(count),
        stack: crate::dispatch::backend::kernel::index::unset(count),
        path: Vec::new(),
        errors: Vec::new(),
    };
    let ghost ins = inputs_of(graph.nodes@);
    assert(s.state() == fresh_walk(ins.len()));
    let mut n: usize = 0;
    while n < count
        invariant
            n <= count,
            count == graph.nodes@.len(),
            ins == inputs_of(graph.nodes@),
            s.fits(graph.nodes@.len()),
            s.state() == walk_nodes(ins, n as nat, fresh_walk(ins.len())),
        decreases count - n,
    {
        proof {
            lemma_unvisited_bound(s.visited@, s.visited@.len());
        }
        dfs(graph, n, &mut s, Ghost(ins.len()));
        n += 1;
    }
    *errors = s.errors;
}

/// The errors for the first inputs of a node that are no nodes.
pub open spec fn missing_inputs(nodes: Seq<Node>, n: int, count: nat) -> Seq<Error<Fault>>
    decreases count,
{
    if count == 0 {
        Seq::empty()
    } else {
        let before = missing_inputs(nodes, n, (count - 1) as nat);
        let input = nodes[n].inputs@[count - 1];
        if input >= nodes.len() {
            before.push(
                graph_error(
                    "node referenced non-existent input(s)",
                    Fault::MissingInput { node: n as usize, input },
                ),
            )
        } else {
            before
        }
    }
}

/// The errors for the inputs of the first nodes that are no nodes.
pub open spec fn input_faults(nodes: Seq<Node>, count: nat) -> Seq<Error<Fault>>
    decreases count,
{
    if count == 0 {
        Seq::empty()
    } else {
        input_faults(nodes, (count - 1) as nat) + missing_inputs(
            nodes,
            count - 1,
            nodes[count - 1].inputs@.len(),
        )
    }
}

fn check_inputs_exist(graph: &Graph, errors: &mut Vec<Error<GraphErrorContext>>)
    ensures
        faults(final(errors)@) == faults(old(errors)@) + input_faults(
            graph.nodes@,
            graph.nodes@.len(),
        ),
{
    let count: usize = graph.nodes.len();
    let ghost start = faults(errors@);
    let mut n: usize = 0;
    while n < count
        invariant
            n <= count,
            count == graph.nodes@.len(),
            faults(errors@) == start + input_faults(graph.nodes@, n as nat),
        decreases count - n,
    {
        let inputs = &graph.nodes[n].inputs;
        let ghost before = faults(errors@);
        let mut i: usize = 0;
        while i < inputs.len()
            invariant
                i <= inputs@.len(),
                n < count,
                count == graph.nodes@.len(),
                inputs@ == graph.nodes@[n as int].inputs@,
                faults(errors@) == before + missing_inputs(graph.nodes@, n as int, i as nat),
            decreases inputs@.len() - i,
        {
            let input: NodeId = inputs[i];
            if input >= count {
                report(
                    errors,
                    "node referenced non-existent input(s)",
                    GraphErrorContext::MissingInput { node: n, input },
                );
            }
            i += 1;
        }
        n += 1;
    }
}

/// The errors for the first dimensions of a node that are no metadata fields.
pub open spec fn missing_fields(nodes: Seq<Node>, fields: nat, n: int, count: nat) -> Seq<
    Error<Fault>,
>
    decreases count,
{
    if count == 0 {
        Seq::empty()
    } else {
        let before = missing_fields(nodes, fields, n, (count - 1) as nat);
        let meta = nodes[n].shape@[count - 1];
        if meta >= fields {
            before.push(
                graph_error(
                    "node has no metadata entry",
                    Fault::MissingMetadata { node: n as usize, meta },
                ),
            )
        } else {
            before
        }
    }
}

/// The errors for the dimensions of the first nodes that are no metadata fields.
pub open spec fn field_faults(nodes: Seq<Node>, fields: nat, count: nat) -> Seq<Error<Fault>>
    decreases count,
{
    if count == 0 {
        Seq::empty()
    } else {
        field_faults(nodes, fields, (count - 1) as nat) + missing_fields(
            nodes,
            fields,
            count - 1,
            nodes[count - 1].shape@.len(),
        )
    }
}

fn check_metadata(graph: &Graph, meta: Metadata, errors: &mut Vec<Error<GraphErrorContext>>)
    ensures
        faults(final(errors)@) == faults(old(errors)@) + field_faults(
            graph.nodes@,
            meta.count(),
            graph.nodes@.len(),
        ),
{
    let count: usize = graph.nodes.len();
    let fields: usize = meta.iter_fields().end;
    let ghost start = faults(errors@);
    let mut n: usize = 0;
    while n < count
        invariant
            n <= count,
            count == graph.nodes@.len(),
            fields == meta.count(),
            faults(errors@) == start + field_faults(graph.nodes@, meta.count(), n as nat),
        decreases count - n,
    {
        let shape = &graph.nodes[n].shape;
        let ghost before = faults(errors@);
        let mut i: usize = 0;
        while i < shape.len()
            invariant
                i <= shape@.len(),
                n < count,
                count == graph.nodes@.len(),
                fields == meta.count(),
                shape@ == graph.nodes@[n as int].shape@,
                faults(errors@) == before + missing_fields(
                    graph.nodes@,
                    meta.count(),
                    n as int,
                    i as nat,
                ),
            decreases shape@.len() - i,
        {
            let dim: MetaId = shape[i];
            if dim >= fields {
                report(
                    errors,
                    "node has no metadata entry",
                    GraphErrorContext::MissingMetadata { node: n, meta: dim },
                );
            }
            i += 1;
        }
        n += 1;
    }
}

/// The errors of a node that should have another number of inputs.
pub open spec fn arity_fault(nodes: Seq<Node>, n: int, arity: usize, msg: &'static str) -> Seq<
    Error<Fault>,
> {
    if nodes[n].inputs@.len() == arity {
        Seq::empty()
    } else {
        seq![
            graph_error(
                msg,
                Fault::InvalidInputs {
                    node: n as usize,
                    arity,
                    args: nodes[n].inputs@.len() as usize,
                },
            ),
        ]
    }
}

/// The error of a node whose operands do not fit together.
pub open spec fn mismatch(nodes: Seq<Node>, n: int, msg: &'static str) -> Error<Fault> {
    let a = nodes[nodes[n].inputs@[0] as int].shape@;
    let b = nodes[nodes[n].inputs@[1] as int].shape@;
    graph_error(
        msg,
        Fault::ShapeMismatch { node: n as usize, sides: seq![a, b], op: nodes[n].op },
    )
}

/// Whether the first two inputs of a node are nodes.
pub open spec fn has_pair(nodes: Seq<Node>, n: int) -> bool {
    &&& nodes[n].inputs@.len() >= 2
    &&& nodes[n].inputs@[0] < nodes.len()
    &&& nodes[n].inputs@[1] < nodes.len()
}

/// The errors of an operation with two operands: it takes two, and they have the same shape.
pub open spec fn binary_faults(nodes: Seq<Node>, n: int) -> Seq<Error<Fault>> {
    arity_fault(nodes, n, 2, "binary operation has invalid input count") + if has_pair(nodes, n)
        && nodes[nodes[n].inputs@[0] as int].shape@ != nodes[nodes[n].inputs@[1] as int].shape@ {
        seq![mismatch(nodes, n, "binary operation has different shaped inputs")]
    } else {
        Seq::empty()
    }
}

/// The errors of a matrix product: it takes two operands of the same rank, not both constants, and
/// the last dimension of the first is the second to last of the second.
pub open spec fn matmul_faults(nodes: Seq<Node>, n: int) -> Seq<Error<Fault>> {
    if nodes[n].inputs@.len() != 2 {
        arity_fault(nodes, n, 2, "matrix multiplication has invalid input count")
    } else if !has_pair(nodes, n) {
        Seq::empty()
    } else {
        let a = nodes[nodes[n].inputs@[0] as int];
        let b = nodes[nodes[n].inputs@[1] as int];
        let rank_a = a.shape@.len();
        let rank_b = b.shape@.len();
        let ranks: Seq<Error<Fault>> = if rank_a == rank_b {
            Seq::empty()
        } else {
            seq![
                graph_error(
                    "matrix multiplication has invalid input rank(s)",
                    Fault::RankMismatch {
                        node: n as usize,
                        sides: seq![rank_a as usize, rank_b as usize],
                    },
                ),
            ]
        };
        let inner: Seq<Error<Fault>> = if rank_a >= 1 && rank_b >= 2 && a.shape@[rank_a - 1]
            != b.shape@[rank_b - 2] {
            seq![mismatch(nodes, n, "inner dimensions don't match for matrix multiplication")]
        } else {
            Seq::empty()
        };
        let constants: Seq<Error<Fault>> = if a.op is ConstF32 && b.op is ConstF32 {
            seq![
                graph_error(
                    "binary operation has only constant inputs",
                    Fault::CannotInferShape {
                        node: n as usize,
                        sides: seq![a.shape@, b.shape@],
                        op: nodes[n].op,
                    },
                ),
            ]
        } else {
            Seq::empty()
        };
        ranks + inner + constants
    }
}

/// The errors that the operation of a node finds.
pub open spec fn rule_faults(nodes: Seq<Node>, n: int) -> Seq<Error<Fault>> {
    match nodes[n].op {
        GraphOp::Custom { valid_shape, .. } => match valid_shape {
            ShapeRule::Unary => arity_fault(
                nodes,
                n,
                1,
                "unary operation has invalid input count",
            ),
            ShapeRule::Softmax => arity_fault(nodes, n, 1, "softmax has invalid input count"),
            ShapeRule::Binary => binary_faults(nodes, n),
            ShapeRule::Matmul => matmul_faults(nodes, n),
        },
        _ => arity_fault(nodes, n, 0, "leaf node accepting inputs"),
    }
}

/// The errors of the shape of a node: an operation has two dimensions at least.
pub open spec fn node_faults(nodes: Seq<Node>, n: int) -> Seq<Error<Fault>> {
    let rank = nodes[n].shape@.len();
    let low: Seq<Error<Fault>> = if rank < 2 && !nodes[n].op.leaf() {
        seq![
            graph_error(
                "no compute node can have less than two dimensions",
                Fault::LowRank { node: n as usize, rank: rank as usize, required: 2 },
            ),
        ]
    } else {
        Seq::empty()
    };
    low + rule_faults(nodes, n)
}

/// The errors of the shapes of the first nodes.
pub open spec fn shape_faults(nodes: Seq<Node>, count: nat) -> Seq<Error<Fault>>
    decreases count,
{
    if count == 0 {
        Seq::empty()
    } else {
        shape_faults(nodes, (count - 1) as nat) + node_faults(nodes, count - 1)
    }
}

fn check_arity(
    graph: &Graph,
    n: NodeId,
    arity: usize,
    msg: &'static str,
    errors: &mut Vec<Error<GraphErrorContext>>,
)
    requires
        n < graph.nodes@.len(),
    ensures
        faults(final(errors)@) == faults(old(errors)@) + arity_fault(
            graph.nodes@,
            n as int,
            arity,
            msg,
        ),
{
    let args: usize = graph.nodes[n].inputs.len();
    if args != arity {
        report(errors, msg, GraphErrorContext::InvalidInputs { node: n, arity, args });
    }
}

fn two_shapes(a: &Vec<MetaId>, b: &Vec<MetaId>) -> (r: Vec<Vec<MetaId>>)
    ensures
        lists(r@) == seq![a@, b@],
{
    let mut r: Vec<Vec<MetaId>> = Vec::new();
    r.push(a.clone());
    r.push(b.clone());
    assert(lists(r@) == seq![a@, b@]);
    r
}

fn same_shape(a: &Vec<MetaId>, b: &Vec<MetaId>) -> (r: bool)
    ensures
        r == (a@ == b@),
{
    if a.len() != b.len() {
        return false;
    }
    let mut i: usize = 0;
    while i < a.len()
        invariant
            i <= a@.len(),
            a@.len() == b@.len(),
            forall|j: int| 0 <= j < i ==> a@[j] == b@[j],
        decreases a@.len() - i,
    {
        if a[i] != b[i] {
            return false;
        }
        i += 1;
    }
    assert(a@ == b@);
    true
}

fn valid_binary(graph: &Graph, n: NodeId, errors: &mut Vec<Error<GraphErrorContext>>)
    requires
        n < graph.nodes@.len(),
    ensures
        faults(final(errors)@) == faults(old(errors)@) + binary_faults(graph.nodes@, n as int),
{
    check_arity(graph, n, 2, "binary operation has invalid input count", errors);
    let node = &graph.nodes[n];
    if node.inputs.len() < 2 || node.inputs[0] >= graph.nodes.len() || node.inputs[1]
        >= graph.nodes.len() {
        return;
    }
    let a_shape = &graph.nodes[node.inputs[0]].shape;
    let b_shape = &graph.nodes[node.inputs[1]].shape;
    if !same_shape(a_shape, b_shape) {
        report(
            errors,
            "binary operation has different shaped inputs",
            GraphErrorContext::ShapeMismatch {
                node: n,
                all_hand_sides: two_shapes(a_shape, b_shape),
                op: node.op,
            },
        );
    }
}

fn valid_matmul(graph: &Graph, n: NodeId, errors: &mut Vec<Error<GraphErrorContext>>)
    requires
        n < graph.nodes@.len(),
    ensures
        faults(final(errors)@) == faults(old(errors)@) + matmul_faults(graph.nodes@, n as int),
{
    let node = &graph.nodes[n];
    if node.inputs.len() != 2 {
        check_arity(graph, n, 2, "matrix multiplication has invalid input count", errors);
        return;
    }
    if node.inputs[0] >= graph.nodes.len() || node.inputs[1] >= graph.nodes.len() {
        return;
    }
    let a = &graph.nodes[node.inputs[0]];
    let b = &graph.nodes[node.inputs[1]];
    let rank_a: usize = a.shape.len();
    let rank_b: usize = b.shape.len();
    if rank_a != rank_b {
        let ranks: Vec<usize> = vec![rank_a, rank_b];
        assert(ranks@ == seq![rank_a, rank_b]);
        report(
            errors,
            "matrix multiplication has invalid input rank(s)",
            GraphErrorContext::RankMismatch { node: n, all_hand_sides: ranks },
        );
    }
    if rank_a >= 1 && rank_b >= 2 && a.shape[rank_a - 1] != b.shape[rank_b - 2] {
        report(
            errors,
            "inner dimensions don't match for matrix multiplication",
            GraphErrorContext::ShapeMismatch {
                node: n,
                all_hand_sides: two_shapes(&a.shape, &b.shape),
                op: node.op,
            },
        );
    }
    if a.op.is_const() && b.op.is_const() {
        report(
            errors,
            "binary operation has only constant inputs",
            GraphErrorContext::CannotInferShape {
                node: n,
                all_hand_sides: two_shapes(&a.shape, &b.shape),
                op: node.op,
            },
        );
    }
}

fn check_shapes(graph: &Graph, errors: &mut Vec<Error<GraphErrorContext>>)
    ensures
        faults(final(errors)@) == faults(old(errors)@) + shape_faults(
            graph.nodes@,
            graph.nodes@.len(),
        ),
{
    let ghost start = faults(errors@);
    let mut n: usize = 0;
    while n < graph.nodes.len()
        invariant
            n <= graph.nodes@.len(),
            faults(errors@) == start + shape_faults(graph.nodes@, n as nat),
        decreases graph.nodes@.len() - n,
    {
        let node = &graph.nodes[n];
        let ghost before = faults(errors@);
        let rank: usize = node.shape.len();
        if rank < 2 && !node.op.is_leaf() {
            report(
                errors,
                "no compute node can have less than two dimensions",
                GraphErrorContext::LowRank { node: n, rank, required: 2 },
            );
        }
        match node.op {
            GraphOp::Custom { valid_shape, .. } => match valid_shape {
                ShapeRule::Unary => {
                    check_arity(graph, n, 1, "unary operation has invalid input count", errors);
                },
                ShapeRule::Softmax => {
                    check_arity(graph, n, 1, "softmax has invalid input count", errors);
                },
                ShapeRule::Binary => {
                    valid_binary(graph, n, errors);
                },
                ShapeRule::Matmul => {
                    valid_matmul(graph, n, errors);
                },
            },
            GraphOp::Input | GraphOp::ConstF32(_) => {
                check_arity(graph, n, 0, "leaf node accepting inputs", errors);
            },
        }
        assert(faults(errors@) == before + node_faults(graph.nodes@, n as int));
        assert(faults(errors@) == start + shape_faults(graph.nodes@, n as nat + 1));
        n += 1;
    }
}

/// All the errors of a graph: cycles, inputs that are no nodes, dimensions that are no metadata
/// fields, and shapes that do not fit.
pub open spec fn graph_faults(nodes: Seq<Node>, meta: Metadata) -> Seq<Error<Fault>> {
    cycle_faults(inputs_of(nodes)) + input_faults(nodes, nodes.len()) + field_faults(
        nodes,
        meta.count(),
        nodes.len(),
    ) + shape_faults(nodes, nodes.len())
}

/// A search leaves the nodes that lead to the current one as they were, forgets no visit and no
/// error, and is of the same size.
spec fn grown(w: Walk, r: Walk) -> bool {
    &&& r.stack == w.stack
    &&& r.visited.len() == w.visited.len()
    &&& r.errors.len() >= w.errors.len()
    &&& forall|n: int| 0 <= n < w.visited.len() && #[trigger] w.visited[n] ==> r.visited[n]
}

proof fn lemma_walk_grows(inputs: Seq<Seq<NodeId>>, node: NodeId, w: Walk, depth: nat)
    requires
        node < inputs.len(),
        w.visited.len() == inputs.len(),
        w.stack.len() == inputs.len(),
    ensures
        grown(w, walk(inputs, node, w, depth)),
    decreases depth, 0nat,
{
    if !w.stack[node as int] && !w.visited[node as int] && depth > 0 {
        let entered = Walk {
            visited: w.visited.update(node as int, true),
            stack: w.stack.update(node as int, true),
            path: w.path.push(node),
            ..w
        };
        let count = inputs[node as int].len();
        lemma_walk_inputs_grows(inputs, node, count, entered, (depth - 1) as nat);
        let left = walk_inputs(inputs, node, count, entered, (depth - 1) as nat);
        assert(left.stack.update(node as int, false) =~= w.stack);
        assert forall|n: int| 0 <= n < w.visited.len() && #[trigger] w.visited[n] implies
            left.visited[n] by {
            assert(entered.visited[n]);
        }
    }
}

proof fn lemma_walk_inputs_grows(
    inputs: Seq<Seq<NodeId>>,
    node: NodeId,
    count: nat,
    w: Walk,
    depth: nat,
)
    requires
        node < inputs.len(),
        count <= inputs[node as int].len(),
        w.visited.len() == inputs.len(),
        w.stack.len() == inputs.len(),
    ensures
        grown(w, walk_inputs(inputs, node, count, w, depth)),
    decreases depth, count + 1,
{
    if count > 0 {
        lemma_walk_inputs_grows(inputs, node, (count - 1) as nat, w, depth);
        let m = walk_inputs(inputs, node, (count - 1) as nat, w, depth);
        let input = inputs[node as int][count - 1];
        if input < inputs.len() {
            lemma_walk_grows(inputs, input, m, depth);
        }
    }
}

/// Where every node has a greater number than its inputs, a search from a node below all the nodes
/// that lead to it finds nothing.
proof fn lemma_walk_quiet(
    inputs: Seq<Seq<NodeId>>,
    rank: spec_fn(int) -> nat,
    node: NodeId,
    w: Walk,
    depth: nat,
)
    requires
        descends(inputs, rank),
        node < inputs.len(),
        w.visited.len() == inputs.len(),
        w.stack.len() == inputs.len(),
        forall|u: int| 0 <= u < w.stack.len() && #[trigger] w.stack[u] ==> rank(u) > rank(
            node as int,
        ),
    ensures
        walk(inputs, node, w, depth).errors == w.errors,
    decreases depth, 0nat,
{
    if !w.stack[node as int] && !w.visited[node as int] && depth > 0 {
        let entered = Walk {
            visited: w.visited.update(node as int, true),
            stack: w.stack.update(node as int, true),
            path: w.path.push(node),
            ..w
        };
        lemma_walk_inputs_quiet(
            inputs,
            rank,
            node,
            inputs[node as int].len(),
            entered,
            (depth - 1) as nat,
        );
    }
}

proof fn lemma_walk_inputs_quiet(
    inputs: Seq<Seq<NodeId>>,
    rank: spec_fn(int) -> nat,
    node: NodeId,
    count: nat,
    w: Walk,
    depth: nat,
)
    requires
        descends(inputs, rank),
        node < inputs.len(),
        count <= inputs[node as int].len(),
        w.visited.len() == inputs.len(),
        w.stack.len() == inputs.len(),
        forall|u: int| 0 <= u < w.stack.len() && #[trigger] w.stack[u] ==> rank(u) >= rank(
            node as int,
        ),
    ensures
        walk_inputs(inputs, node, count, w, depth).errors == w.errors,
    decreases depth, count + 1,
{
    if count > 0 {
        lemma_walk_inputs_quiet(inputs, rank, node, (count - 1) as nat, w, depth);
        lemma_walk_inputs_grows(inputs, node, (count - 1) as nat, w, depth);
        let m = walk_inputs(inputs, node, (count - 1) as nat, w, depth);
        let input = inputs[node as int][count - 1];
        if input < inputs.len() {
            lemma_walk_quiet(inputs, rank, input, m, depth);
        }
    }
}

/// Whether a node was visited and left.
spec fn done(w: Walk, n: int) -> bool {
    0 <= n < w.visited.len() && w.visited[n] && !w.stack[n]
}

/// Whether every node that was left has only inputs that were left, and a greater number than
/// they.
spec fn settled(inputs: Seq<Seq<NodeId>>, w: Walk, rank: spec_fn(int) -> nat) -> bool {
    forall|v: int, i: int|
        done(w, v) && 0 <= i < inputs[v].len() ==> {
            &&& rank((#[trigger] inputs[v][i]) as int) < rank(v)
            &&& inputs[v][i] < inputs.len() ==> done(w, inputs[v][i] as int)
        }
}

/// The greatest number of the first nodes of a list.
spec fn highest(ids: Seq<NodeId>, rank: spec_fn(int) -> nat, count: nat) -> nat
    decreases count,
{
    if count == 0 {
        0
    } else {
        let before = highest(ids, rank, (count - 1) as nat);
        let r = rank(ids[count - 1] as int);
        if r > before {
            r
        } else {
            before
        }
    }
}

proof fn lemma_highest(ids: Seq<NodeId>, rank: spec_fn(int) -> nat, count: nat)
    requires
        count <= ids.len(),
    ensures
        forall|i: int|
            0 <= i < count ==> rank((#[trigger] ids[i]) as int) <= highest(ids, rank, count),
    decreases count,
{
    if count > 0 {
        lemma_highest(ids, rank, (count - 1) as nat);
    }
}

proof fn lemma_walk_settles(
    inputs: Seq<Seq<NodeId>>,
    rank: spec_fn(int) -> nat,
    node: NodeId,
    w: Walk,
    depth: nat,
) -> (r: spec_fn(int) -> nat)
    requires
        node < inputs.len(),
        w.visited.len() == inputs.len(),
        w.stack.len() == inputs.len(),
        unvisited(w.visited, inputs.len()) <= depth,
        settled(inputs, w, rank),
        walk(inputs, node, w, depth).errors.len() == w.errors.len(),
    ensures
        settled(inputs, walk(inputs, node, w, depth), r),
        done(walk(inputs, node, w, depth), node as int),
    decreases depth, 0nat,
{
    if w.visited[node as int] {
        rank
    } else {
        let n = node as int;
        lemma_unvisited_zero(w.visited, n, inputs.len());
        lemma_unvisited_update(w.visited, n, inputs.len());
        let entered = Walk {
            visited: w.visited.update(n, true),
            stack: w.stack.update(n, true),
            path: w.path.push(node),
            ..w
        };
        assert forall|v: int| #[trigger] done(entered, v) == done(w, v) by {}
        let count = inputs[n].len();
        let d = (depth - 1) as nat;
        lemma_walk_inputs_grows(inputs, node, count, entered, d);
        let below = lemma_walk_inputs_settles(inputs, rank, node, count, entered, d);
        let left = walk_inputs(inputs, node, count, entered, d);
        let last = walk(inputs, node, w, depth);
        let top = highest(inputs[n], below, count);
        lemma_highest(inputs[n], below, count);
        let r = |v: int|
            if v == n {
                top + 1
            } else {
                below(v)
            };
        assert(left.stack[n]);
        assert(!done(left, n));
        assert(left.visited[n]) by {
            assert(entered.visited[n]);
        }
        assert forall|v: int| #[trigger] done(last, v) == (done(left, v) || v == n) by {}
        assert forall|v: int, i: int| done(last, v) && 0 <= i < inputs[v].len() implies {
            &&& r((#[trigger] inputs[v][i]) as int) < r(v)
            &&& inputs[v][i] < inputs.len() ==> done(last, inputs[v][i] as int)
        } by {
            if v == n {
                assert(inputs[n][i] < inputs.len() ==> done(left, inputs[n][i] as int));
            } else {
                assert(done(left, v));
            }
        }
        r
    }
}

proof fn lemma_walk_inputs_settles(
    inputs: Seq<Seq<NodeId>>,
    rank: spec_fn(int) -> nat,
    node: NodeId,
    count: nat,
    w: Walk,
    depth: nat,
) -> (r: spec_fn(int) -> nat)
    requires
        node < inputs.len(),
        count <= inputs[node as int].len(),
        w.visited.len() == inputs.len(),
        w.stack.len() == inputs.len(),
        unvisited(w.visited, inputs.len()) <= depth,
        settled(inputs, w, rank),
        walk_inputs(inputs, node, count, w, depth).errors.len() == w.errors.len(),
    ensures
        settled(inputs, walk_inputs(inputs, node, count, w, depth), r),
        forall|i: int|
            0 <= i < count && (#[trigger] inputs[node as int][i]) < inputs.len() ==> done(
                walk_inputs(inputs, node, count, w, depth),
                inputs[node as int][i] as int,
            ),
    decreases depth, count + 1,
{
    if count == 0 {
        rank
    } else {
        lemma_walk_inputs_grows(inputs, node, (count - 1) as nat, w, depth);
        let m = walk_inputs(inputs, node, (count - 1) as nat, w, depth);
        let input = inputs[node as int][count - 1];
        if input < inputs.len() {
            lemma_walk_grows(inputs, input, m, depth);
            let rank = lemma_walk_inputs_settles(
                inputs,
                rank,
                node,
                (count - 1) as nat,
                w,
                depth,
            );
            lemma_unvisited_monotone(w.visited, m.visited, inputs.len());
            lemma_walk_settles(inputs, rank, input, m, depth)
        } else {
            lemma_walk_inputs_settles(inputs, rank, node, (count - 1) as nat, w, depth)
        }
    }
}

proof fn lemma_walk_nodes_grows(inputs: Seq<Seq<NodeId>>, count: nat, w: Walk)
    requires
        count <= inputs.len(),
        inputs.len() <= usize::MAX,
        w.visited.len() == inputs.len(),
        w.stack.len() == inputs.len(),
    ensures
        grown(w, walk_nodes(inputs, count, w)),
    decreases count,
{
    if count > 0 {
        lemma_walk_nodes_grows(inputs, (count - 1) as nat, w);
        lemma_walk_grows(
            inputs,
            (count - 1) as usize,
            walk_nodes(inputs, (count - 1) as nat, w),
            inputs.len(),
        );
    }
}

proof fn lemma_walk_nodes_quiet(
    inputs: Seq<Seq<NodeId>>,
    rank: spec_fn(int) -> nat,
    count: nat,
    w: Walk,
)
    requires
        descends(inputs, rank),
        count <= inputs.len(),
        inputs.len() <= usize::MAX,
        w.visited.len() == inputs.len(),
        w.stack.len() == inputs.len(),
        forall|u: int| 0 <= u < w.stack.len() ==> !#[trigger] w.stack[u],
    ensures
        walk_nodes(inputs, count, w).errors == w.errors,
    decreases count,
{
    if count > 0 {
        lemma_walk_nodes_quiet(inputs, rank, (count - 1) as nat, w);
        lemma_walk_nodes_grows(inputs, (count - 1) as nat, w);
        lemma_walk_quiet(
            inputs,
            rank,
            (count - 1) as usize,
            walk_nodes(inputs, (count - 1) as nat, w),
            inputs.len(),
        );
    }
}

proof fn lemma_walk_nodes_settles(
    inputs: Seq<Seq<NodeId>>,
    rank: spec_fn(int) -> nat,
    count: nat,
    w: Walk,
) -> (r: spec_fn(int) -> nat)
    requires
        count <= inputs.len(),
        inputs.len() <= usize::MAX,
        w.visited.len() == inputs.len(),
        w.stack.len() == inputs.len(),
        settled(inputs, w, rank),
        walk_nodes(inputs, count, w).errors.len() == w.errors.len(),
    ensures
        settled(inputs, walk_nodes(inputs, count, w), r),
        forall|n: int| 0 <= n < count ==> #[trigger] done(walk_nodes(inputs, count, w), n),
    decreases count,
{
    if count == 0 {
        rank
    } else {
        let node = (count - 1) as usize;
        let m = walk_nodes(inputs, (count - 1) as nat, w);
        lemma_walk_nodes_grows(inputs, (count - 1) as nat, w);
        lemma_walk_grows(inputs, node, m, inputs.len());
        let below = lemma_walk_nodes_settles(inputs, rank, (count - 1) as nat, w);
        lemma_unvisited_bound(m.visited, inputs.len());
        let r = lemma_walk_settles(inputs, below, node, m, inputs.len());
        assert forall|n: int| 0 <= n < count implies #[trigger] done(
            walk_nodes(inputs, count, w),
            n,
        ) by {
            if n < count - 1 {
                assert(done(m, n));
            }
        }
        r
    }
}

/// The check for cycles finds nothing exactly in a graph where no node leads back to itself.
pub proof fn lemma_cycle_faults(inputs: Seq<Seq<NodeId>>)
    requires
        inputs.len() <= usize::MAX,
    ensures
        cycle_faults(inputs).len() == 0 <==> acyclic(inputs),
{
    let w = fresh_walk(inputs.len());
    if acyclic(inputs) {
        let rank = choose|rank: spec_fn(int) -> nat| #[trigger] descends(inputs, rank);
        lemma_walk_nodes_quiet(inputs, rank, inputs.len(), w);
    }
    if cycle_faults(inputs).len() == 0 {
        let rank = lemma_walk_nodes_settles(inputs, |n: int| 0nat, inputs.len(), w);
        let last = walk_nodes(inputs, inputs.len(), w);
        assert forall|v: int, i: int| 0 <= v < inputs.len() && 0 <= i < inputs[v].len() implies rank(
            (#[trigger] inputs[v][i]) as int,
        ) < rank(v) by {
            assert(done(last, v));
        }
        assert(descends(inputs, rank));
    }
}

proof fn lemma_missing_inputs(nodes: Seq<Node>, n: int, count: nat)
    requires
        0 <= n < nodes.len(),
        count <= nodes[n].inputs@.len(),
    ensures
        missing_inputs(nodes, n, count).len() == 0 <==> forall|i: int|
            0 <= i < count ==> (#[trigger] nodes[n].inputs@[i]) < nodes.len(),
    decreases count,
{
    if count > 0 {
        lemma_missing_inputs(nodes, n, (count - 1) as nat);
    }
}

proof fn lemma_input_faults_upto(nodes: Seq<Node>, count: nat)
    requires
        count <= nodes.len(),
    ensures
        input_faults(nodes, count).len() == 0 <==> forall|n: int, i: int|
            0 <= n < count && 0 <= i < nodes[n].inputs@.len() ==> (#[trigger] nodes[n].inputs@[i])
                < nodes.len(),
    decreases count,
{
    if count > 0 {
        lemma_input_faults_upto(nodes, (count - 1) as nat);
        lemma_missing_inputs(nodes, count - 1, nodes[count - 1].inputs@.len());
    }
}

/// The check of the inputs finds nothing exactly in a graph where all inputs are nodes.
pub proof fn lemma_input_faults(nodes: Seq<Node>)
    ensures
        input_faults(nodes, nodes.len()).len() == 0 <==> inputs_exist(inputs_of(nodes)),
{
    lemma_input_faults_upto(nodes, nodes.len());
    let inputs = inputs_of(nodes);
    if inputs_exist(inputs) {
        assert forall|n: int, i: int|
            0 <= n < nodes.len() && 0 <= i < nodes[n].inputs@.len() implies (
        #[trigger] nodes[n].inputs@[i]) < nodes.len() by {
            assert(inputs[n][i] < inputs.len());
        }
    }
}

proof fn lemma_missing_fields(nodes: Seq<Node>, fields: nat, n: int, count: nat)
    requires
        0 <= n < nodes.len(),
        count <= nodes[n].shape@.len(),
    ensures
        missing_fields(nodes, fields, n, count).len() == 0 <==> forall|i: int|
            0 <= i < count ==> (#[trigger] nodes[n].shape@[i]) < fields,
    decreases count,
{
    if count > 0 {
        lemma_missing_fields(nodes, fields, n, (count - 1) as nat);
    }
}

/// The check of the dimensions finds nothing exactly in a graph where all dimensions are metadata
/// fields.
pub proof fn lemma_field_faults(nodes: Seq<Node>, fields: nat, count: nat)
    requires
        count <= nodes.len(),
    ensures
        field_faults(nodes, fields, count).len() == 0 <==> forall|n: int, i: int|
            0 <= n < count && 0 <= i < nodes[n].shape@.len() ==> (#[trigger] nodes[n].shape@[i])
                < fields,
    decreases count,
{
    if count > 0 {
        lemma_field_faults(nodes, fields, (count - 1) as nat);
        lemma_missing_fields(nodes, fields, count - 1, nodes[count - 1].shape@.len());
    }
}

/// The check of the shapes finds nothing exactly in a graph where the shape of every node fits its
/// operation.
pub proof fn lemma_shape_faults(nodes: Seq<Node>, count: nat)
    requires
        count <= nodes.len(),
    ensures
        shape_faults(nodes, count).len() == 0 <==> forall|n: int|
            0 <= n < count ==> (#[trigger] node_faults(nodes, n)).len() == 0,
    decreases count,
{
    if count > 0 {
        lemma_shape_faults(nodes, (count - 1) as nat);
    }
}

/// Whether a graph can be lowered: no node leads back to itself, all inputs are nodes, all
/// dimensions are metadata fields, and the shape of every node fits its operation.
pub open spec fn well_formed(nodes: Seq<Node>, meta: Metadata) -> bool {
    &&& acyclic(inputs_of(nodes))
    &&& inputs_exist(inputs_of(nodes))
    &&& forall|n: int, i: int|
        0 <= n < nodes.len() && 0 <= i < nodes[n].shape@.len() ==> (#[trigger] nodes[n].shape@[i])
            < meta.count()
    &&& forall|n: int| 0 <= n < nodes.len() ==> (#[trigger] node_faults(nodes, n)).len() == 0
}

/// A graph has no errors exactly if it is well formed.
pub proof fn lemma_graph_faults(nodes: Seq<Node>, meta: Metadata)
    requires
        nodes.len() <= usize::MAX,
    ensures
        graph_faults(nodes, meta).len() == 0 <==> well_formed(nodes, meta),
{
    lemma_cycle_faults(inputs_of(nodes));
    lemma_input_faults(nodes);
    lemma_field_faults(nodes, meta.count(), nodes.len());
    lemma_shape_faults(nodes, nodes.len());
}

/// Whether two shapes have the same rank and the same field in every dimension.
pub open spec fn agree(a: Seq<MetaId>, b: Seq<MetaId>) -> bool {
    &&& a.len() == b.len()
    &&& forall|d: int| 0 <= d < a.len() ==> #[trigger] a[d] == b[d]
}

/// Whether the rows of one shape can be multiplied by the columns of another: they have the same
/// rank, and a row of the first is as long as a column of the second.
pub open spec fn multipliable(a: Seq<MetaId>, b: Seq<MetaId>) -> bool {
    &&& a.len() == b.len()
    &&& a.len() >= 2 ==> a[a.len() - 1] == b[b.len() - 2]
}

/// Whether a node has the inputs and the shapes that its operation asks for.
pub open spec fn fits(nodes: Seq<Node>, n: int) -> bool {
    let inputs = nodes[n].inputs@;
    let a = nodes[inputs[0] as int];
    let b = nodes[inputs[1] as int];
    match nodes[n].op {
        GraphOp::Custom { valid_shape, .. } => {
            &&& nodes[n].shape@.len() >= 2
            &&& match valid_shape {
                ShapeRule::Unary | ShapeRule::Softmax => inputs.len() == 1,
                ShapeRule::Binary => inputs.len() == 2 && agree(a.shape@, b.shape@),
                ShapeRule::Matmul => inputs.len() == 2 && multipliable(a.shape@, b.shape@) && !(
                a.op is ConstF32 && b.op is ConstF32),
            }
        },
        _ => inputs.len() == 0,
    }
}

/// Whether a graph makes sense: no node leads back to itself, all inputs are nodes, all dimensions
/// are metadata fields, and every node has the inputs and the shapes that its operation asks for.
pub open spec fn consistent(nodes: Seq<Node>, meta: Metadata) -> bool {
    &&& acyclic(inputs_of(nodes))
    &&& forall|n: int, i: int|
        0 <= n < nodes.len() && 0 <= i < nodes[n].inputs@.len() ==> (#[trigger] nodes[n].inputs@[i])
            < nodes.len()
    &&& forall|n: int, d: int|
        0 <= n < nodes.len() && 0 <= d < nodes[n].shape@.len() ==> (#[trigger] nodes[n].shape@[d])
            < meta.count()
    &&& forall|n: int| 0 <= n < nodes.len() ==> #[trigger] fits(nodes, n)
}

proof fn lemma_node_fits(nodes: Seq<Node>, n: int)
    requires
        0 <= n < nodes.len(),
        forall|i: int|
            0 <= i < nodes[n].inputs@.len() ==> (#[trigger] nodes[n].inputs@[i]) < nodes.len(),
    ensures
        node_faults(nodes, n).len() == 0 <==> fits(nodes, n),
{
    let inputs = nodes[n].inputs@;
    if inputs.len() >= 2 {
        assert(inputs[0] < nodes.len() && inputs[1] < nodes.len());
        let a = nodes[inputs[0] as int].shape@;
        let b = nodes[inputs[1] as int].shape@;
        assert(a == b <==> agree(a, b)) by {
            if agree(a, b) {
                assert(a =~= b);
            }
        }
    }
}

/// A graph has no errors exactly if it makes sense: in particular it has one as soon as the
/// operands of a node with the rule of a binary operation differ in any dimension.
pub proof fn lemma_consistent(nodes: Seq<Node>, meta: Metadata)
    requires
        nodes.len() <= usize::MAX,
    ensures
        graph_faults(nodes, meta).len() == 0 <==> consistent(nodes, meta),
        well_formed(nodes, meta) <==> consistent(nodes, meta),
{
    lemma_graph_faults(nodes, meta);
    lemma_input_faults_upto(nodes, nodes.len());
    lemma_input_faults(nodes);
    if inputs_exist(inputs_of(nodes)) {
        assert forall|n: int| 0 <= n < nodes.len() implies (#[trigger] node_faults(nodes, n)).len()
            == 0 <==> fits(nodes, n) by {
            lemma_node_fits(nodes, n);
        }
        if consistent(nodes, meta) {
            assert forall|n: int| 0 <= n < nodes.len() implies (#[trigger] node_faults(
                nodes,
                n,
            )).len() == 0 by {
                assert(fits(nodes, n));
            }
        }
        if well_formed(nodes, meta) {
            assert forall|n: int| 0 <= n < nodes.len() implies #[trigger] fits(nodes, n) by {
                assert(node_faults(nodes, n).len() == 0);
            }
        }
    }
}

/// The operands of every node with the rule of a binary operation, in a graph without errors, have
/// the same extent in every dimension.
pub proof fn lemma_binary_operands(nodes: Seq<Node>, meta: Metadata, n: int)
    requires
        nodes.len() <= usize::MAX,
        graph_faults(nodes, meta).len() == 0,
        0 <= n < nodes.len(),
        nodes[n].op matches GraphOp::Custom { valid_shape, .. } && valid_shape == ShapeRule::Binary,
    ensures
        nodes[n].inputs@.len() == 2,
        ({
            let a = nodes[nodes[n].inputs@[0] as int].shape@;
            let b = nodes[nodes[n].inputs@[1] as int].shape@;
            &&& a.len() == b.len()
            &&& forall|d: int| 0 <= d < a.len() ==> #[trigger] a[d] == b[d]
        }),
{
    lemma_consistent(nodes, meta);
    assert(fits(nodes, n));
}

/// A graph where the operands of a node with the rule of a binary operation differ in some
/// dimension has an error.
pub proof fn lemma_binary_mismatch(nodes: Seq<Node>, meta: Metadata, n: int, d: int)
    requires
        nodes.len() <= usize::MAX,
        0 <= n < nodes.len(),
        nodes[n].op matches GraphOp::Custom { valid_shape, .. } && valid_shape == ShapeRule::Binary,
        nodes[n].inputs@.len() >= 2,
        ({
            let a = nodes[nodes[n].inputs@[0] as int].shape@;
            let b = nodes[nodes[n].inputs@[1] as int].shape@;
            a.len() != b.len() || (0 <= d < a.len() && a[d] != b[d])
        }),
    ensures
        graph_faults(nodes, meta).len() > 0,
{
    lemma_consistent(nodes, meta);
    if consistent(nodes, meta) {
        assert(fits(nodes, n));
    }
}

/// Whether every error of a list can be shown.
pub open spec fn all_showable(errors: Seq<Error<Fault>>) -> bool {
    forall|i: int| 0 <= i < errors.len() ==> (#[trigger] errors[i]).ctx.showable()
}

proof fn lemma_walk_showable(inputs: Seq<Seq<NodeId>>, node: NodeId, w: Walk, depth: nat)
    requires
        all_showable(w.errors),
    ensures
        all_showable(walk(inputs, node, w, depth).errors),
    decreases depth, 0nat,
{
    if !w.stack[node as int] && !w.visited[node as int] && depth > 0 {
        let entered = Walk {
            visited: w.visited.update(node as int, true),
            stack: w.stack.update(node as int, true),
            path: w.path.push(node),
            ..w
        };
        lemma_walk_inputs_showable(
            inputs,
            node,
            inputs[node as int].len(),
            entered,
            (depth - 1) as nat,
        );
    }
}

proof fn lemma_walk_inputs_showable(
    inputs: Seq<Seq<NodeId>>,
    node: NodeId,
    count: nat,
    w: Walk,
    depth: nat,
)
    requires
        all_showable(w.errors),
    ensures
        all_showable(walk_inputs(inputs, node, count, w, depth).errors),
    decreases depth, count + 1,
{
    if count > 0 {
        lemma_walk_inputs_showable(inputs, node, (count - 1) as nat, w, depth);
        let m = walk_inputs(inputs, node, (count - 1) as nat, w, depth);
        lemma_walk_showable(inputs, inputs[node as int][count - 1], m, depth);
    }
}

proof fn lemma_walk_nodes_showable(inputs: Seq<Seq<NodeId>>, count: nat, w: Walk)
    requires
        all_showable(w.errors),
    ensures
        all_showable(walk_nodes(inputs, count, w).errors),
    decreases count,
{
    if count > 0 {
        lemma_walk_nodes_showable(inputs, (count - 1) as nat, w);
        let m = walk_nodes(inputs, (count - 1) as nat, w);
        lemma_walk_showable(inputs, (count - 1) as usize, m, inputs.len());
    }
}

proof fn lemma_missing_showable(nodes: Seq<Node>, fields: nat, n: int, count: nat)
    ensures
        all_showable(missing_inputs(nodes, n, count)),
        all_showable(missing_fields(nodes, fields, n, count)),
    decreases count,
{
    if count > 0 {
        lemma_missing_showable(nodes, fields, n, (count - 1) as nat);
    }
}

proof fn lemma_checks_showable(nodes: Seq<Node>, fields: nat, count: nat)
    ensures
        all_showable(input_faults(nodes, count)),
        all_showable(field_faults(nodes, fields, count)),
        all_showable(shape_faults(nodes, count)),
    decreases count,
{
    if count > 0 {
        lemma_checks_showable(nodes, fields, (count - 1) as nat);
        lemma_missing_showable(nodes, fields, count - 1, nodes[count - 1].inputs@.len());
        lemma_missing_showable(nodes, fields, count - 1, nodes[count - 1].shape@.len());
        assert(all_showable(node_faults(nodes, count - 1)));
    }
}

/// Every error of a graph can be shown.
pub proof fn lemma_faults_showable(nodes: Seq<Node>, meta: Metadata)
    ensures
        all_showable(graph_faults(nodes, meta)),
{
    lemma_walk_nodes_showable(inputs_of(nodes), nodes.len(), fresh_walk(nodes.len()));
    lemma_checks_showable(nodes, meta.count(), nodes.len());
}

impl Graph {
    /// Validates the graph for mathematical correctness given the metadata usesd during lowering.
    ///
    /// # Errors
    ///
    /// This function will not panic, but it can stop many panics and bugs in:
    ///
    /// - [`Self::lower`]
    /// - [`GpuContext::compile`](`super::super::GpuContext::compile`)
    ///
    /// It is recommended that you run this function on your graph at least in debug mode, or
    /// you could have panics in production code.
    pub fn validate(&self, meta: Metadata) -> (r: Result<(), Vec<Error<GraphErrorContext>>>)
        ensures
            r is Ok <==> well_formed(self.nodes@, meta),
            r is Ok <==> consistent(self.nodes@, meta),
            match r {
                Ok(()) => graph_faults(self.nodes@, meta).len() == 0,
                Err(errors) => faults(errors@) == graph_faults(self.nodes@, meta),
            },
    {
        proof {
            let size: usize = self.nodes.len();
            lemma_consistent(self.nodes@, meta);
        }
        let mut errors: Vec<Error<GraphErrorContext>> = Vec::new();
        check_acrylicity(self, &mut errors);
        check_inputs_exist(self, &mut errors);
        check_metadata(self, meta, &mut errors);
        check_shapes(self, &mut errors);
        if errors.len() == 0 {
            Ok(())
        } else {
            Err(errors)
        }
    }
}

} // verus!
