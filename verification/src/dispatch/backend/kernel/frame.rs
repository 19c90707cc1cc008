//! What a lowering works in: the graph, its parameters, and the values that index a kernel.

use vstd::prelude::*;

use crate::dispatch::backend::kernel::raw::LinkedView;
use crate::dispatch::backend::{
    DispatchOptions, Graph, GraphOp, MetaId, Node, NodeId, OpName, ParamId, ValueId,
};
use crate::errors::{Error, ErrorKind};

verus! {

/// What a lowering evaluates: a node, or a parameter that already holds what is wanted.
pub enum NodeInput<'a> {
    Raw { param: ParamId, shape: &'a [MetaId] },
    Node(NodeId),
}

/// What a [`NodeInput`] stands for.
pub enum Operand {
    Raw(ParamId),
    Node(NodeId),
}

impl View for NodeInput<'_> {
    type V = Operand;

    open spec fn view(&self) -> Operand {
        match *self {
            NodeInput::Raw { param, .. } => Operand::Raw(param),
            NodeInput::Node(n) => Operand::Node(n),
        }
    }
}

/// What stays the same while one kernel is lowered.
pub struct Frame<'a> {
    /// The graph that is lowered.
    pub graph: &'a Graph,
    /// The parameters of inputs in a forward pass, and of gradients in a backward pass.
    pub node_params: &'a [Option<ParamId>],
    /// The parameters of results that a forward pass saves.
    pub saved_params: &'a [Option<ParamId>],
    /// The offset of the batch that a thread works in.
    pub base: ValueId,
    /// The row of a thread in its block.
    pub local_row: ValueId,
    /// The column of a thread in its block.
    pub local_col: ValueId,
    /// The number of threads in a block.
    pub shared_size: u32,
    /// The side of a tile, as a value of the kernel.
    pub tile_size: ValueId,
    /// How many nodes were resolved before the kernel was begun.
    pub since: usize,
}

/// The contents of a [`Frame`].
pub struct Scope {
    pub nodes: Seq<Node>,
    pub node_params: Seq<Option<ParamId>>,
    pub saved_params: Seq<Option<ParamId>>,
    pub base: ValueId,
    pub local_row: ValueId,
    pub local_col: ValueId,
    pub shared_size: u32,
    pub tile_size: ValueId,
    pub since: usize,
}

impl View for Frame<'_> {
    type V = Scope;

    open spec fn view(&self) -> Scope {
        Scope {
            nodes: self.graph.nodes@,
            node_params: self.node_params@,
            saved_params: self.saved_params@,
            base: self.base,
            local_row: self.local_row,
            local_col: self.local_col,
            shared_size: self.shared_size,
            tile_size: self.tile_size,
            since: self.since,
        }
    }
}

/// How many inputs the lowering of an operation takes.
pub open spec fn operand_count(name: OpName) -> nat {
    match name {
        OpName::Add | OpName::Sub | OpName::Mul | OpName::Div | OpName::Matmul => 2,
        _ => 1,
    }
}

/// Whether inputs come before a node and outputs come after it.
pub open spec fn sorted(nodes: Seq<Node>) -> bool {
    &&& forall|n: int, i: int|
        0 <= n < nodes.len() && 0 <= i < nodes[n].inputs@.len()
            ==> #[trigger] nodes[n].inputs@[i] < n
    &&& forall|n: int, i: int|
        0 <= n < nodes.len() && 0 <= i < nodes[n].outputs@.len() ==> n < #[trigger] (
        nodes[n].outputs@[i]) < nodes.len()
}

/// Whether a node has the inputs and the dimensions that its lowering reads.
pub open spec fn has_operands(nodes: Seq<Node>, n: int) -> bool {
    nodes[n].op matches GraphOp::Custom { lower, .. } ==> {
        &&& nodes[n].inputs@.len() >= operand_count(lower)
        &&& lower == OpName::Softmax ==> nodes[n].shape@.len() >= 1
        &&& lower == OpName::Matmul ==> {
            &&& nodes[n].inputs@.len() == 2
            &&& nodes[n].shape@.len() >= 2
            &&& nodes[nodes[n].inputs@[0] as int].shape@.len() >= 2
            &&& nodes[nodes[n].inputs@[1] as int].shape@.len() >= 2
        }
    }
}

/// Whether a graph can be lowered with the given number of metadata fields: it is sorted, each
/// operation has its operands, and each dimension is a field.
pub open spec fn lowerable(nodes: Seq<Node>, fields: nat) -> bool {
    &&& sorted(nodes)
    &&& forall|n: int| 0 <= n < nodes.len() ==> #[trigger] has_operands(nodes, n)
    &&& forall|n: int, i: int|
        0 <= n < nodes.len() && 0 <= i < nodes[n].shape@.len()
            ==> #[trigger] nodes[n].shape@[i] < fields
}

/// Whether there is one slot for each node, and each one that is taken holds a parameter.
pub open spec fn slots_fit(slots: Seq<Option<ParamId>>, nodes: nat, params: nat) -> bool {
    &&& slots.len() == nodes
    &&& forall|n: int|
        0 <= n < slots.len() ==> (#[trigger] slots[n] matches Some(p) ==> p < params)
}

/// Whether all the identifiers are those of nodes.
pub open spec fn in_graph(ids: Seq<NodeId>, nodes: nat) -> bool {
    forall|i: int| 0 <= i < ids.len() ==> #[trigger] ids[i] < nodes
}

/// A list without its first element.
pub open spec fn tail(ids: Seq<NodeId>) -> Seq<NodeId> {
    if ids.len() == 0 {
        ids
    } else {
        ids.subrange(1, ids.len() as int)
    }
}

impl Scope {
    /// Whether the scope fits kernels with the given numbers of parameters and metadata fields.
    pub open spec fn ready(self, params: nat, fields: nat) -> bool {
        &&& lowerable(self.nodes, fields)
        &&& slots_fit(self.node_params, self.nodes.len(), params)
        &&& slots_fit(self.saved_params, self.nodes.len(), params)
        &&& params >= 2
    }

    /// The number of nodes.
    pub open spec fn count(self) -> nat {
        self.nodes.len()
    }

    /// A node of the graph.
    pub open spec fn node(self, n: NodeId) -> Node {
        self.nodes[n as int]
    }

    /// An input of a node.
    pub open spec fn input(self, n: NodeId, i: int) -> NodeId {
        self.nodes[n as int].inputs@[i]
    }

    /// Whether a kernel and a list of resolved nodes fit the scope.
    pub open spec fn fits(self, kernel: LinkedView, resolved: Seq<NodeId>) -> bool {
        &&& self.ready(kernel.params.len(), kernel.meta.len())
        &&& in_graph(resolved, self.count())
    }

    /// Whether a node to evaluate is one of the graph, or a parameter of the kernel.
    pub open spec fn knows(self, node: Operand, params: nat) -> bool {
        match node {
            Operand::Node(n) => n < self.count(),
            Operand::Raw(param) => param < params,
        }
    }

    /// How much of a forward pass is left when it evaluates a node.
    pub open spec fn below(self, node: Operand) -> nat {
        match node {
            Operand::Node(n) => n as nat + 1,
            Operand::Raw(_) => 0,
        }
    }

    /// How much of a backward pass is left when it evaluates a node.
    pub open spec fn above(self, node: Operand) -> nat {
        match node {
            Operand::Node(n) => (self.count() - n) as nat,
            Operand::Raw(_) => 0,
        }
    }

    /// How much of a pass is left when it lowers a node.
    pub open spec fn left(self, backwardness: Option<u8>, n: NodeId) -> nat {
        if backwardness is None {
            n as nat
        } else {
            (self.count() - n) as nat
        }
    }

    /// Whether a node to evaluate has its place in a sorted graph.
    pub open spec fn placed(self, node: Operand) -> bool {
        &&& sorted(self.nodes)
        &&& node matches Operand::Node(n) ==> n < self.count()
    }

    /// Whether a node to lower has its place in a sorted graph, and its operands.
    pub open spec fn operable(self, n: NodeId) -> bool {
        &&& sorted(self.nodes)
        &&& n < self.count()
        &&& has_operands(self.nodes, n as int)
    }

    /// Whether all the nodes take inputs and lie between two bounds, the second excluded.
    pub open spec fn between(self, ids: Seq<NodeId>, low: int, high: int) -> bool {
        forall|i: int|
            0 <= i < ids.len() ==> low <= #[trigger] ids[i] < high && self.node(
                ids[i],
            ).inputs@.len() > 0
    }

    /// Whether the nodes that the lowering of a node reaches come before it in a forward pass, and
    /// not before it in a backward pass.
    pub open spec fn reaches(self, backwardness: Option<u8>, n: NodeId, ids: Seq<NodeId>) -> bool {
        if backwardness is None {
            self.between(ids, 0, n as int)
        } else {
            self.between(ids, n as int, self.count() as int)
        }
    }

    /// Whether the nodes that evaluating a node reaches are the node itself, if any, and nodes
    /// before it.
    pub open spec fn reaches_down(self, node: Operand, ids: Seq<NodeId>) -> bool {
        match node {
            Operand::Raw(_) => ids.len() == 0,
            Operand::Node(n) => self.between(ids, 0, n + 1) && forall|i: int|
                1 <= i < ids.len() ==> #[trigger] ids[i] < n,
        }
    }

    /// Whether the nodes that evaluating the gradient of a node reaches are the node itself and
    /// nodes after it.
    pub open spec fn reaches_up(self, node: Operand, ids: Seq<NodeId>) -> bool {
        match node {
            Operand::Raw(_) => ids.len() == 0,
            Operand::Node(n) => ids.len() > 0 && ids[0] == n && forall|i: int|
                1 <= i < ids.len() ==> n < #[trigger] ids[i] < self.count() && self.node(
                    ids[i],
                ).inputs@.len() > 0,
        }
    }

    /// Whether some node that was resolved in the kernel needs a dispatch of its own.
    pub open spec fn claimed(self, resolved: Seq<NodeId>) -> bool {
        exists|i: int|
            self.since <= i < resolved.len() && (#[trigger] self.node(resolved[i])).op.dispatch()
                != DispatchOptions::Any
    }
}

impl Frame<'_> {
    /// Whether some node that was resolved in the kernel needs a dispatch of its own.
    pub fn is_claimed(&self, resolved: &Vec<NodeId>) -> (r: bool)
        requires
            in_graph(resolved@, self@.count()),
        ensures
            r == self@.claimed(resolved@),
    {
        let mut i: usize = self.since;
        while i < resolved.len()
            invariant
                self.since <= i,
                in_graph(resolved@, self@.count()),
                forall|j: int|
                    self.since <= j < i && j < resolved@.len() ==> (#[trigger] self@.node(
                        resolved@[j],
                    )).op.dispatch() == DispatchOptions::Any,
            decreases resolved@.len() - i,
        {
            if self.graph.nodes[resolved[i]].op.valid_dispatch() != DispatchOptions::Any {
                assert(self@.node(resolved@[i as int]).op.dispatch() != DispatchOptions::Any);
                return true;
            }
            i += 1;
        }
        false
    }
}

/// What a lowering leaves behind: the kernel, the nodes resolved so far, and the nodes it reached,
/// or the error that stopped it.
#[verifier::ext_equal]
pub struct Lowered {
    pub kernel: LinkedView,
    pub resolved: Seq<NodeId>,
    pub nodes: Result<Seq<NodeId>, Error>,
}

/// The contents of a list of nodes that may have failed.
pub open spec fn reached(r: Result<Vec<NodeId>, Error>) -> Result<Seq<NodeId>, Error> {
    match r {
        Ok(v) => Ok(v@),
        Err(e) => Err(e),
    }
}

/// The nodes resolved so far, with one more unless it is among them.
pub open spec fn resolve(resolved: Seq<NodeId>, n: NodeId) -> Seq<NodeId> {
    if resolved.contains(n) {
        resolved
    } else {
        resolved.push(n)
    }
}

/// An error of a lowering.
pub open spec fn fault(msg: &'static str, kind: ErrorKind) -> Error {
    Error { msg, kind, ctx: () }
}

/// A lowering that stopped with an error.
pub open spec fn stopped(
    kernel: LinkedView,
    resolved: Seq<NodeId>,
    msg: &'static str,
    kind: ErrorKind,
) -> Lowered {
    Lowered { kernel, resolved, nodes: Err(fault(msg, kind)) }
}

/// Whether a list holds an identifier.
pub fn contains(ids: &Vec<NodeId>, id: NodeId) -> (r: bool)
    ensures
        r == ids@.contains(id),
{
    let mut i: usize = 0;
    while i < ids.len()
        invariant
            i <= ids@.len(),
            forall|j: int| 0 <= j < i ==> ids@[j] != id,
        decreases ids@.len() - i,
    {
        if ids[i] == id {
            return true;
        }
        i += 1;
    }
    false
}

/// Adds a node to the resolved ones unless it is among them.
pub fn mark_resolved(resolved: &mut Vec<NodeId>, id: NodeId)
    ensures
        final(resolved)@ == resolve(old(resolved)@, id),
{
    if !contains(resolved, id) {
        resolved.push(id);
    }
}

} // verus!
