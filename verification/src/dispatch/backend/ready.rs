//! Which graphs can be lowered.

use vstd::prelude::*;

use crate::dispatch::backend::check::{node_faults, well_formed};
use crate::dispatch::backend::kernel::forward::{sinks, sinks_lower, unfinished, untaken};
use crate::dispatch::backend::kernel::frame::{has_operands, in_graph, lowerable, sorted};
use crate::dispatch::backend::kernel::group::compilable;
use crate::dispatch::backend::kernel::plan::schedulable;
use crate::dispatch::backend::saved::savable;
use crate::dispatch::backend::{Graph, GraphOp, Metadata, Node, NodeId, OpName, SaveRule, ShapeRule};

verus! {

/// The rule by which the shapes of an operation are checked.
pub open spec fn shape_rule(name: OpName) -> ShapeRule {
    match name {
        OpName::Add | OpName::Mul | OpName::Sub | OpName::Div => ShapeRule::Binary,
        OpName::Matmul => ShapeRule::Matmul,
        OpName::Softmax => ShapeRule::Softmax,
        _ => ShapeRule::Unary,
    }
}

/// Whether the shapes of a node are checked by the rule of the operation it is lowered as.
pub open spec fn ruled(node: Node) -> bool {
    node.op matches GraphOp::Custom { lower, valid_shape, .. } ==> valid_shape == shape_rule(lower)
}

/// Whether the inputs of a graph have the dimensions that operations read: those that something
/// takes have one, and those of matrix products have two.
pub open spec fn inputs_shaped(nodes: Seq<Node>) -> bool {
    &&& forall|n: int|
        0 <= n < nodes.len() && (#[trigger] nodes[n]).op is Input && nodes[n].outputs@.len() > 0
            ==> nodes[n].shape@.len() >= 1
    &&& forall|n: int, i: int|
        0 <= n < nodes.len() && is_product(nodes[n]) && 0 <= i < nodes[n].inputs@.len() ==> nodes[(
        #[trigger] nodes[n].inputs@[i]) as int].shape@.len() >= 2
}

/// Whether a node is a matrix product.
pub open spec fn is_product(node: Node) -> bool {
    node.op matches GraphOp::Custom { lower, .. } && lower == OpName::Matmul
}

/// A graph that passes validation can be lowered once it is sorted, as long as its inputs have the
/// dimensions that operations read, its last node has a dimension, and the forward pass can take up
/// every node that nothing takes.
pub proof fn lemma_valid_compilable(nodes: Seq<Node>, meta: Metadata, saved: nat, tile: u32)
    requires
        nodes.len() > 0,
        well_formed(nodes, meta),
        sorted(nodes),
        forall|n: int| 0 <= n < nodes.len() ==> ruled(#[trigger] nodes[n]),
        inputs_shaped(nodes),
        sinks_lower(nodes),
        nodes.last().shape@.len() >= 1,
        saved >= nodes.len(),
        tile * tile <= u32::MAX,
    ensures
        compilable(nodes, meta, saved, tile),
{
    assert forall|n: int| 0 <= n < nodes.len() implies #[trigger] has_operands(nodes, n) by {
        assert(node_faults(nodes, n).len() == 0);
        assert(ruled(nodes[n]));
        if let GraphOp::Custom { lower, .. } = nodes[n].op {
            if lower == OpName::Matmul {
                assert(nodes[n].inputs@.len() == 2);
                assert(nodes[nodes[n].inputs@[0] as int].shape@.len() >= 2);
                assert(nodes[nodes[n].inputs@[1] as int].shape@.len() >= 2);
            }
        }
    }
    assert forall|n: int|
        0 <= n < nodes.len() && ((#[trigger] nodes[n]).inputs@.len() > 0 || (nodes[n].op is Input
            && nodes[n].outputs@.len() > 0)) implies nodes[n].shape@.len() >= 1 by {
        assert(node_faults(nodes, n).len() == 0);
    }
}

fn ids_below(ids: &Vec<usize>, bound: usize) -> (r: bool)
    ensures
        r == in_graph(ids@, bound as nat),
{
    let mut i: usize = 0;
    while i < ids.len()
        invariant
            i <= ids@.len(),
            forall|j: int| 0 <= j < i ==> #[trigger] ids@[j] < bound,
        decreases ids@.len() - i,
    {
        if ids[i] >= bound {
            return false;
        }
        i += 1;
    }
    true
}

/// Whether all the users of a node come after it.
spec fn followed(nodes: Seq<Node>, n: int) -> bool {
    forall|i: int|
        0 <= i < nodes[n].outputs@.len() ==> n < (#[trigger] nodes[n].outputs@[i]) < nodes.len()
}

fn ids_above(ids: &Vec<usize>, low: usize, bound: usize) -> (r: bool)
    ensures
        r == (forall|i: int| 0 <= i < ids@.len() ==> low < (#[trigger] ids@[i]) < bound),
{
    let mut i: usize = 0;
    while i < ids.len()
        invariant
            i <= ids@.len(),
            forall|j: int| 0 <= j < i ==> low < (#[trigger] ids@[j]) < bound,
        decreases ids@.len() - i,
    {
        if ids[i] <= low || ids[i] >= bound {
            return false;
        }
        i += 1;
    }
    true
}

/// What the lowering of one node needs, apart from its operands.
spec fn placed(nodes: Seq<Node>, fields: nat, n: int) -> bool {
    &&& in_graph(nodes[n].inputs@, n as nat)
    &&& followed(nodes, n)
    &&& in_graph(nodes[n].shape@, fields)
    &&& nodes[n].inputs@.len() > 0 || (nodes[n].op is Input && nodes[n].outputs@.len() > 0)
        ==> nodes[n].shape@.len() >= 1
}

/// Whether a node that nothing takes takes inputs itself.
spec fn computing(nodes: Seq<Node>, n: int) -> bool {
    nodes[n].outputs@.len() == 0 && nodes[n].inputs@.len() > 0
}

/// Whether a node that nothing takes stands in the way of one that takes inputs.
spec fn idle(nodes: Seq<Node>, n: int) -> bool {
    nodes[n].outputs@.len() == 0 && nodes[n].inputs@.len() == 0 && !untaken(nodes, n)
}

proof fn lemma_unfinished(nodes: Seq<Node>, count: nat)
    requires
        count <= nodes.len() <= usize::MAX,
    ensures
        unfinished(nodes, sinks(nodes, count)) <==> exists|n: int|
            0 <= n < count && #[trigger] computing(nodes, n),
    decreases count,
{
    if count > 0 {
        let c = (count - 1) as nat;
        let before = sinks(nodes, c);
        let ids = sinks(nodes, count);
        lemma_unfinished(nodes, c);
        if unfinished(nodes, before) {
            let i = choose|i: int|
                0 <= i < before.len() && nodes[#[trigger] before[i] as int].inputs@.len() > 0;
            assert(ids[i] == before[i]);
            let n = choose|n: int| 0 <= n < c && #[trigger] computing(nodes, n);
            assert(0 <= n < count);
        } else {
            if computing(nodes, c as int) {
                assert(ids.last() == c);
            }
            if unfinished(nodes, ids) {
                let i = choose|i: int|
                    0 <= i < ids.len() && nodes[#[trigger] ids[i] as int].inputs@.len() > 0;
                if i < before.len() {
                    assert(before[i] == ids[i]);
                } else {
                    assert(computing(nodes, c as int));
                }
            }
        }
    }
}

impl Graph {
    fn is_placed(&self, fields: usize, n: NodeId) -> (r: bool)
        requires
            n < self.nodes@.len(),
        ensures
            r == placed(self.nodes@, fields as nat, n as int),
    {
        let node = &self.nodes[n];
        let size: usize = self.nodes.len();
        ids_below(&node.inputs, n) && ids_above(&node.outputs, n, size) && ids_below(
            &node.shape,
            fields,
        ) && (node.shape.len() >= 1 || (node.inputs.len() == 0 && (!node.op.is_input()
            || node.outputs.len() == 0)))
    }

    fn is_untaken(&self, n: NodeId) -> (r: bool)
        requires
            n < self.nodes@.len(),
        ensures
            r == untaken(self.nodes@, n as int),
    {
        let node = &self.nodes[n];
        if !node.op.is_input() || node.inputs.len() > 0 || node.shape.len() == 0 {
            return false;
        }
        let mut m: usize = 0;
        while m < self.nodes.len()
            invariant
                m <= self.nodes@.len(),
                forall|k: int, i: int|
                    0 <= k < m && 0 <= i < self.nodes@[k].inputs@.len()
                        ==> #[trigger] self.nodes@[k].inputs@[i] != n,
            decreases self.nodes@.len() - m,
        {
            let inputs = &self.nodes[m].inputs;
            let mut i: usize = 0;
            while i < inputs.len()
                invariant
                    i <= inputs@.len(),
                    m < self.nodes@.len(),
                    *inputs == self.nodes@[m as int].inputs,
                    forall|j: int| 0 <= j < i ==> #[trigger] inputs@[j] != n,
                decreases inputs@.len() - i,
            {
                if inputs[i] == n {
                    assert(self.nodes@[m as int].inputs@[i as int] == n);
                    return false;
                }
                i += 1;
            }
            m += 1;
        }
        true
    }

    fn are_sinks_lowered(&self) -> (r: bool)
        ensures
            r == sinks_lower(self.nodes@),
    {
        let mut any_computing = false;
        let mut any_idle = false;
        let size: usize = self.nodes.len();
        let mut n: usize = 0;
        while n < size
            invariant
                n <= size,
                size == self.nodes@.len(),
                any_computing <==> exists|m: int| 0 <= m < n && #[trigger] computing(self.nodes@, m),
                any_idle <==> exists|m: int| 0 <= m < n && #[trigger] idle(self.nodes@, m),
            decreases size - n,
        {
            let node = &self.nodes[n];
            let ghost before_computing = any_computing;
            let ghost before_idle = any_idle;
            if node.outputs.len() == 0 {
                if node.inputs.len() > 0 {
                    any_computing = true;
                } else if !self.is_untaken(n) {
                    any_idle = true;
                }
            }
            proof {
                assert(any_computing == (before_computing || computing(self.nodes@, n as int)));
                assert(any_idle == (before_idle || idle(self.nodes@, n as int)));
                if exists|m: int| 0 <= m < n + 1 && #[trigger] computing(self.nodes@, m) {
                    let m = choose|m: int| 0 <= m < n + 1 && #[trigger] computing(self.nodes@, m);
                    assert(m < n || m == n);
                }
                if exists|m: int| 0 <= m < n + 1 && #[trigger] idle(self.nodes@, m) {
                    let m = choose|m: int| 0 <= m < n + 1 && #[trigger] idle(self.nodes@, m);
                    assert(m < n || m == n);
                }
            }
            n += 1;
        }
        proof {
            let nodes = self.nodes@;
            lemma_unfinished(nodes, nodes.len());
            if any_idle {
                let m = choose|m: int| 0 <= m < n && #[trigger] idle(nodes, m);
                assert(nodes[m].outputs@.len() == 0);
            } else {
                assert forall|m: int|
                    0 <= m < nodes.len() && (#[trigger] nodes[m]).outputs@.len() == 0
                        && nodes[m].inputs@.len() == 0 implies untaken(nodes, m) by {
                    assert(!idle(nodes, m));
                }
            }
        }
        !any_computing || !any_idle
    }

    fn operands_given(&self, n: NodeId) -> (r: bool)
        requires
            n < self.nodes@.len(),
            in_graph(self.nodes@[n as int].inputs@, self.nodes@.len()),
        ensures
            r == has_operands(self.nodes@, n as int),
    {
        let node = &self.nodes[n];
        match node.op {
            GraphOp::Custom { lower, .. } => match lower {
                OpName::Add | OpName::Sub | OpName::Mul | OpName::Div => node.inputs.len() >= 2,
                OpName::Matmul => node.inputs.len() == 2 && node.shape.len() >= 2
                    && self.nodes[node.inputs[0]].shape.len() >= 2
                    && self.nodes[node.inputs[1]].shape.len() >= 2,
                OpName::Softmax => node.inputs.len() >= 1 && node.shape.len() >= 1,
                _ => node.inputs.len() >= 1,
            },
            _ => true,
        }
    }

    /// Whether the graph can be lowered with the given metadata, number of nodes that may be saved
    /// and tile size.
    pub fn is_compilable(&self, meta: Metadata, saved: usize, tile_size: u32) -> (r: bool)
        requires
            self.nodes@.len() > 0,
        ensures
            r == compilable(self.nodes@, meta, saved as nat, tile_size),
    {
        let fields: usize = meta.iter_fields().end;
        let size: usize = self.nodes.len();
        let mut n: usize = 0;
        while n < size
            invariant
                n <= size,
                size == self.nodes@.len(),
                fields == meta.count(),
                forall|m: int| 0 <= m < n ==> #[trigger] placed(self.nodes@, meta.count(), m),
                forall|m: int| 0 <= m < n ==> #[trigger] has_operands(self.nodes@, m),
            decreases size - n,
        {
            if !self.is_placed(fields, n) {
                proof {
                    self.lemma_unplaced(meta, saved as nat, tile_size, n as int);
                }
                return false;
            }
            assert(in_graph(self.nodes@[n as int].inputs@, self.nodes@.len()));
            if !self.operands_given(n) {
                return false;
            }
            n += 1;
        }
        proof {
            let nodes = self.nodes@;
            assert forall|n: int, i: int|
                0 <= n < nodes.len() && 0 <= i < nodes[n].inputs@.len() implies (
            #[trigger] nodes[n].inputs@[i]) < n by {
                assert(placed(nodes, meta.count(), n));
            }
            assert forall|n: int, i: int|
                0 <= n < nodes.len() && 0 <= i < nodes[n].outputs@.len() implies n < (
            #[trigger] nodes[n].outputs@[i]) < nodes.len() by {
                assert(placed(nodes, meta.count(), n));
            }
            assert forall|n: int, i: int|
                0 <= n < nodes.len() && 0 <= i < nodes[n].shape@.len() implies (
            #[trigger] nodes[n].shape@[i]) < meta.count() by {
                assert(placed(nodes, meta.count(), n));
            }
            assert forall|n: int| 0 <= n < nodes.len() implies #[trigger] has_operands(
                nodes,
                n,
            ) by {
                assert(placed(nodes, meta.count(), n));
            }
            assert(lowerable(nodes, meta.count()));
            assert forall|n: int|
                0 <= n < nodes.len() && ((#[trigger] nodes[n]).inputs@.len() > 0 || (
                nodes[n].op is Input && nodes[n].outputs@.len() > 0)) implies nodes[n].shape@.len()
                >= 1 by {
                assert(placed(nodes, meta.count(), n));
            }
        }
        self.are_sinks_lowered() && saved >= size && tile_size.checked_mul(tile_size).is_some() && self.nodes[size
            - 1].shape.len() >= 1
    }

    proof fn lemma_unplaced(self, meta: Metadata, saved: nat, tile_size: u32, n: int)
        requires
            0 <= n < self.nodes@.len(),
            !placed(self.nodes@, meta.count(), n),
        ensures
            !compilable(self.nodes@, meta, saved, tile_size),
    {
        let nodes = self.nodes@;
        if compilable(nodes, meta, saved, tile_size) {
            assert(schedulable(nodes, meta));
            assert(placed(nodes, meta.count(), n));
        }
    }

    /// Whether [`Self::compute_saved_nodes`] can look at all the nodes that it asks for.
    pub fn is_savable(&self) -> (r: bool)
        ensures
            r == savable(self.nodes@),
    {
        let size: usize = self.nodes.len();
        let mut n: usize = 0;
        while n < size
            invariant
                n <= size,
                size == self.nodes@.len(),
                forall|m: int|
                    0 <= m < n ==> ((#[trigger] self.nodes@[m]).op matches GraphOp::Custom {
                        save,
                        ..
                    } ==> {
                        &&& in_graph(self.nodes@[m].inputs@, self.nodes@.len())
                        &&& save == SaveRule::Unary ==> self.nodes@[m].inputs@.len() >= 1
                        &&& save == SaveRule::Softmax ==> in_graph(
                            self.nodes@[m].outputs@,
                            self.nodes@.len(),
                        )
                    }),
            decreases size - n,
        {
            let node = &self.nodes[n];
            assert(self.nodes@[n as int] == *node);
            if let GraphOp::Custom { save, .. } = node.op {
                if !ids_below(&node.inputs, size) {
                    return false;
                }
                if save == SaveRule::Unary && node.inputs.len() == 0 {
                    return false;
                }
                if save == SaveRule::Softmax && !ids_below(&node.outputs, size) {
                    return false;
                }
            }
            n += 1;
        }
        true
    }
}

} // verus!
