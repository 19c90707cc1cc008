//! Execution graphs.

use vstd::prelude::*;

use crate::dispatch::backend::kernel::frame::sorted;
use crate::dispatch::backend::kernel::group::{compilable, group_finished, group_result};
use crate::dispatch::backend::kernel::{KernelGroup, KernelsChained, SaveIndicator};
use crate::dispatch::backend::sort::{
    find_missing, first_missing, free_order, inputs_exist, is_order, lemma_occurrences_contains,
    lemma_occurrences_push, lemma_renumber_descends, list_users, occurrences, positions, renumber,
    renumber_ids, users_listed,
};
use crate::dispatch::backend::{GraphOp, MetaId, Metadata, NodeId};
use crate::dispatch::{CompilationOptions, GpuBackend};
use crate::errors::{graph_error, lists, Error, ErrorKind, Fault, GraphErrorContext};
use crate::scalar::Float32;

verus! {

/// The ways to measure how far a prediction is off.
#[non_exhaustive]
#[derive(Debug, Clone, Copy, Hash, PartialEq, Eq, Structural)]
pub enum LossType {
    MeanSquaredError,
    BinaryCrossEntropy,
    CrossEntropy,
}

impl LossType {
    /// The square of the difference.
    pub const MEAN_SQUARED_ERROR: Self = Self::MeanSquaredError;

    /// The cross entropy of two classes.
    pub const BINARY_CROSS_ENTROPY: Self = Self::BinaryCrossEntropy;

    /// The cross entropy of any number of classes, with the target as a class index.
    pub const CROSS_ENTROPY: Self = Self::CrossEntropy;
}

/// A node of a graph: an operation, the nodes it takes and the nodes that take it, and its shape,
/// one metadata field for each dimension.
#[derive(Debug)]
pub struct Node {
    pub op: GraphOp,
    pub inputs: Vec<NodeId>,
    pub outputs: Vec<NodeId>,
    pub shape: Vec<MetaId>,
}

impl Clone for Node {
    fn clone(&self) -> (r: Self)
        ensures
            r.op == self.op,
            r.inputs@ == self.inputs@,
            r.outputs@ == self.outputs@,
            r.shape@ == self.shape@,
    {
        Self {
            op: self.op,
            inputs: self.inputs.clone(),
            outputs: self.outputs.clone(),
            shape: self.shape.clone(),
        }
    }
}

/// The inputs of each node.
pub open spec fn inputs_of(nodes: Seq<Node>) -> Seq<Seq<NodeId>> {
    Seq::new(nodes.len(), |n: int| nodes[n].inputs@)
}

/// The outputs of each node.
pub open spec fn outputs_of(nodes: Seq<Node>) -> Seq<Vec<NodeId>> {
    Seq::new(nodes.len(), |n: int| nodes[n].outputs)
}

/// Whether a node is another with its inputs renumbered and without outputs.
pub open spec fn is_renumbered(before: Node, order: Seq<NodeId>, after: Node) -> bool {
    &&& after.op == before.op
    &&& after.inputs@ == renumber(before.inputs@, order)
    &&& after.outputs@ == Seq::<NodeId>::empty()
    &&& after.shape@ == before.shape@
}

/// Whether a list of nodes is another, put into an order.
pub open spec fn reordered(before: Seq<Node>, order: Seq<NodeId>, after: Seq<Node>) -> bool {
    &&& after.len() == order.len()
    &&& forall|i: int|
        0 <= i < after.len() ==> is_renumbered(before[order[i] as int], order, #[trigger] after[i])
}

/// Whether two nodes differ in their outputs at most.
pub open spec fn same_but_outputs(a: Node, b: Node) -> bool {
    a.op == b.op && a.inputs == b.inputs && a.shape == b.shape
}

/// The same element a number of times.
pub open spec fn repeated_id(id: NodeId, times: nat) -> Seq<NodeId> {
    Seq::new(times, |i: int| id)
}

/// Whether a list of nodes is another with a node added, and added to the outputs of its inputs.
pub open spec fn grown(
    before: Seq<Node>,
    op: GraphOp,
    inputs: Seq<NodeId>,
    shape: Seq<MetaId>,
    after: Seq<Node>,
) -> bool {
    &&& after.len() == before.len() + 1
    &&& forall|n: int|
        0 <= n < before.len() ==> same_but_outputs(#[trigger] after[n], before[n])
            && after[n].outputs@ == before[n].outputs@ + repeated_id(
            before.len() as usize,
            occurrences(inputs, n as usize),
        )
    &&& after.last().op == op
    &&& after.last().inputs@ == inputs
    &&& after.last().outputs@ == Seq::<NodeId>::empty()
    &&& after.last().shape@ == shape
}

/// An execution graph.
#[derive(Debug)]
pub struct Graph {
    pub nodes: Vec<Node>,
    pub loss: LossType,
}

impl Graph {
    /// The nodes that take the same node as `user` does, if `user` takes `node`.
    #[must_use]
    pub fn get_adjacent(&self, node: NodeId, user: NodeId) -> (r: &[NodeId])
        requires
            user < self.nodes@.len(),
            self.nodes@[user as int].inputs@.contains(node) ==> node < self.nodes@.len(),
        ensures
            r@ == if self.nodes@[user as int].inputs@.contains(node) {
                self.nodes@[node as int].outputs@
            } else {
                Seq::<NodeId>::empty()
            },
    {
        match self.get_edge(node, user) {
            Some(_) => self.nodes[node].outputs.as_slice(),
            None => &[],
        }
    }

    /// Whether `user` takes `node` as its first input.
    #[must_use]
    pub fn is_lhs_edge(&self, node: NodeId, user: NodeId) -> (r: bool)
        requires
            user < self.nodes@.len(),
        ensures
            r == (self.nodes@[user as int].inputs@.len() > 0 && self.nodes@[user as int].inputs@[0]
                == node),
    {
        self.is_edge(node, user, 0)
    }

    /// Whether `user` takes `node` as its second input.
    #[must_use]
    pub fn is_rhs_edge(&self, node: NodeId, user: NodeId) -> (r: bool)
        requires
            user < self.nodes@.len(),
        ensures
            r == (self.nodes@[user as int].inputs@.len() > 1 && self.nodes@[user as int].inputs@[1]
                == node),
    {
        self.is_edge(node, user, 1)
    }

    /// Whether `user` takes `node` as the given input.
    #[must_use]
    pub fn is_edge(&self, node: NodeId, user: NodeId, edge: usize) -> (r: bool)
        requires
            user < self.nodes@.len(),
        ensures
            r == (self.nodes@[user as int].inputs@.len() > edge
                && self.nodes@[user as int].inputs@[edge as int] == node),
    {
        let user_inputs = &self.nodes[user].inputs;
        user_inputs.len() > edge && user_inputs[edge] == node
    }

    /// The first input of `user` that is `node`.
    #[must_use]
    pub fn get_edge(&self, node: NodeId, user: NodeId) -> (r: Option<usize>)
        requires
            user < self.nodes@.len(),
        ensures
            match r {
                Some(edge) => {
                    &&& self.nodes@[user as int].inputs@.contains(node)
                    &&& self.nodes@[user as int].inputs@.index_of_first(node) == Some(edge as int)
                    &&& edge < self.nodes@[user as int].inputs@.len()
                },
                None => !self.nodes@[user as int].inputs@.contains(node),
            },
    {
        let user_inputs = &self.nodes[user].inputs;
        proof {
            user_inputs@.index_of_first_ensures(node);
        }
        let mut i: usize = 0;
        while i < user_inputs.len()
            invariant
                i <= user_inputs@.len(),
                *user_inputs == self.nodes@[user as int].inputs,
                forall|j: int| 0 <= j < i ==> user_inputs@[j] != node,
                match user_inputs@.index_of_first(node) {
                    Some(index) => {
                        &&& 0 <= index < user_inputs@.len()
                        &&& user_inputs@[index] == node
                        &&& forall|j: int| 0 <= j < index ==> user_inputs@[j] != node
                    },
                    None => !user_inputs@.contains(node),
                },
            decreases user_inputs@.len() - i,
        {
            if user_inputs[i] == node {
                assert(user_inputs@.contains(node));
                return Some(i);
            }
            i += 1;
        }
        None
    }

    /// A graph without nodes.
    #[must_use]
    pub fn new(loss: LossType) -> (r: Self)
        ensures
            r.nodes@ == Seq::<Node>::empty(),
            r.loss == loss,
    {
        Self { nodes: Vec::new(), loss }
    }

    fn input_lists(&self) -> (r: Vec<Vec<NodeId>>)
        ensures
            lists(r@) == inputs_of(self.nodes@),
    {
        let mut r: Vec<Vec<NodeId>> = Vec::new();
        let mut n: usize = 0;
        while n < self.nodes.len()
            invariant
                n <= self.nodes@.len(),
                r@.len() == n,
                forall|i: int| 0 <= i < n ==> (#[trigger] r@[i])@ == self.nodes@[i].inputs@,
            decreases self.nodes@.len() - n,
        {
            r.push(self.nodes[n].inputs.clone());
            n += 1;
        }
        assert(lists(r@) == inputs_of(self.nodes@));
        r
    }

    /// Topologically sorts the nodes in the graph by inputs.
    ///
    /// After sorting, it's important to rebuild the outputs ([`Self::rebuild_outputs`]) before
    /// lowering. Its probably a good idea to sort it before lowering and validate it before
    /// sorting too.
    ///
    /// # Errors
    ///
    /// Fails if the graph is structurally broken (e.g. containing loops).
    pub fn topo_sort(&mut self) -> (r: Result<(), Error<GraphErrorContext>>)
        ensures
            final(self).loss == old(self).loss,
            match r {
                Ok(()) => {
                    &&& inputs_exist(inputs_of(old(self).nodes@))
                    &&& exists|order: Seq<NodeId>|
                        {
                            &&& is_order(inputs_of(old(self).nodes@), order)
                            &&& order.len() == old(self).nodes@.len()
                            &&& #[trigger] reordered(old(self).nodes@, order, final(self).nodes@)
                        }
                    &&& forall|n: int, i: int|
                        0 <= n < final(self).nodes@.len() && 0 <= i
                            < final(self).nodes@[n].inputs@.len()
                            ==> #[trigger] final(self).nodes@[n].inputs@[i] < n
                },
                Err(e) => {
                    &&& *final(self) == *old(self)
                    &&& match e@.ctx {
                        Fault::MissingInput { node, input } => {
                            &&& first_missing(inputs_of(old(self).nodes@), node, input)
                            &&& e@ == graph_error(
                                "invalid node reference in graph",
                                Fault::MissingInput { node, input },
                            )
                        },
                        Fault::CycleDetected { node, path } => {
                            &&& inputs_exist(inputs_of(old(self).nodes@))
                            &&& is_order(inputs_of(old(self).nodes@), path)
                            &&& path.len() != old(self).nodes@.len()
                            &&& e@ == graph_error(
                                "cycle detected in graph",
                                Fault::CycleDetected { node: 0, path },
                            )
                        },
                        _ => false,
                    }
                },
            },
    {
        let inputs = self.input_lists();
        let ghost ins = inputs_of(self.nodes@);
        let ghost before = self.nodes@;
        let n: usize = self.nodes.len();
        if let Some((node, input)) = find_missing(&inputs) {
            return Err(
                Error {
                    msg: "invalid node reference in graph",
                    kind: ErrorKind::ComputeGraphError,
                    ctx: GraphErrorContext::MissingInput { node, input },
                },
            );
        }
        let order = free_order(&inputs);
        if order.len() != n {
            return Err(
                Error {
                    msg: "cycle detected in graph",
                    kind: ErrorKind::ComputeGraphError,
                    ctx: GraphErrorContext::CycleDetected { node: 0, path: order },
                },
            );
        }
        let places = positions(&order, Ghost(ins));
        let mut nodes: Vec<Node> = Vec::new();
        let mut i: usize = 0;
        while i < n
            invariant
                i <= n,
                n == order@.len(),
                n == before.len(),
                before == self.nodes@,
                ins == inputs_of(before),
                inputs_exist(ins),
                is_order(ins, order@),
                places@.len() == n,
                forall|v: usize| v < n ==> #[trigger] places@[v as int] == order@.index_of(v),
                nodes@.len() == i,
                forall|j: int|
                    0 <= j < i ==> is_renumbered(
                        before[order@[j] as int],
                        order@,
                        #[trigger] nodes@[j],
                    ),
                *self == *old(self),
            decreases n - i,
        {
            let old_id: usize = order[i];
            let node = &self.nodes[old_id];
            assert(ins[old_id as int] == node.inputs@);
            assert forall|j: int| 0 <= j < node.inputs@.len() implies #[trigger] node.inputs@[j]
                < n by {
                assert(ins[old_id as int][j] < n);
            }
            let renumbered = renumber_ids(&node.inputs, &places, Ghost(order@));
            nodes.push(
                Node {
                    op: node.op,
                    inputs: renumbered,
                    outputs: Vec::new(),
                    shape: node.shape.clone(),
                },
            );
            i += 1;
        }
        self.nodes = nodes;
        proof {
            assert(reordered(before, order@, self.nodes@));
            assert forall|m: int, j: int|
                0 <= m < self.nodes@.len() && 0 <= j
                    < self.nodes@[m].inputs@.len() implies #[trigger] self.nodes@[m].inputs@[j]
                < m by {
                lemma_renumber_descends(ins, order@, m);
                assert(is_renumbered(before[order@[m] as int], order@, self.nodes@[m]));
                assert(ins[order@[m] as int] == before[order@[m] as int].inputs@);
            }
        }
        Ok(())
    }

    /// Lists, for each node, the nodes that take it.
    pub fn rebuild_outputs(&mut self)
        requires
            inputs_exist(inputs_of(old(self).nodes@)),
        ensures
            final(self).loss == old(self).loss,
            final(self).nodes@.len() == old(self).nodes@.len(),
            forall|n: int|
                0 <= n < final(self).nodes@.len() ==> same_but_outputs(
                    #[trigger] final(self).nodes@[n],
                    old(self).nodes@[n],
                ),
            users_listed(inputs_of(old(self).nodes@), outputs_of(final(self).nodes@)),
            (forall|n: int, i: int|
                0 <= n < old(self).nodes@.len() && 0 <= i < old(self).nodes@[n].inputs@.len()
                    ==> #[trigger] old(self).nodes@[n].inputs@[i] < n) ==> sorted(
                final(self).nodes@,
            ),
    {
        let inputs = self.input_lists();
        let ghost ins = inputs_of(self.nodes@);
        let ghost before = self.nodes@;
        let users = list_users(&inputs);
        let mut n: usize = 0;
        while n < self.nodes.len()
            invariant
                n <= self.nodes@.len(),
                self.nodes@.len() == before.len(),
                users@.len() == before.len(),
                self.loss == old(self).loss,
                forall|i: int|
                    0 <= i < self.nodes@.len() ==> same_but_outputs(
                        #[trigger] self.nodes@[i],
                        before[i],
                    ),
                forall|i: int|
                    0 <= i < n ==> (#[trigger] self.nodes@[i]).outputs@ == users@[i]@,
            decreases self.nodes@.len() - n,
        {
            self.nodes[n].outputs = users[n].clone();
            n += 1;
        }
        proof {
            let after = outputs_of(self.nodes@);
            assert forall|u: int| 0 <= u < after.len() implies (#[trigger] after[u])@
                == users@[u]@ by {}
            assert(users_listed(ins, after)) by {
                assert forall|u: int, i: int, j: int|
                    0 <= u < after.len() && 0 <= i <= j < after[u]@.len() implies
                    #[trigger] after[u]@[i] <= #[trigger] after[u]@[j] by {
                    assert(after[u]@ == users@[u]@);
                    assert(users@[u]@[i] <= users@[u]@[j]);
                }
                assert forall|u: int, i: int|
                    0 <= u < after.len() && 0 <= i < after[u]@.len() implies
                    #[trigger] after[u]@[i] < ins.len() by {
                    assert(after[u]@ == users@[u]@);
                    assert(users@[u]@[i] < ins.len());
                }
                assert forall|u: usize, v: usize|
                    u < ins.len() && v < ins.len() implies #[trigger] occurrences(
                    after[u as int]@,
                    v,
                ) == occurrences(ins[v as int], u) by {
                    assert(after[u as int]@ == users@[u as int]@);
                    assert(occurrences(users@[u as int]@, v) == occurrences(ins[v as int], u));
                }
            }
            if forall|n: int, i: int|
                0 <= n < before.len() && 0 <= i < before[n].inputs@.len()
                    ==> #[trigger] before[n].inputs@[i] < n {
                lemma_rebuilt_sorted(before, self.nodes@);
            }
        }
    }

    /// Lowers an execution graph into kernels.
    ///
    /// # Errors
    ///
    /// Fails for a graph without nodes, and when a kernel would have to load or store a result
    /// that no parameter holds.
    pub fn lower<B: GpuBackend>(
        &self,
        meta: Metadata,
        options: &CompilationOptions<B>,
        saved: &[SaveIndicator],
    ) -> (r: Result<KernelGroup, Error>)
        requires
            self.nodes@.len() > 0 ==> compilable(
                self.nodes@,
                meta,
                saved@.len(),
                options.opt.tile_size,
            ),
        ensures
            group_result(self.nodes@, self.loss, meta, saved@, options.opt.tile_size, r),
            r matches Ok(group) ==> group_finished(group@),
    {
        KernelsChained::lower(self, meta, saved, options)
    }

    /// Adds a node, and adds it to the outputs of its inputs.
    pub fn add_node(&mut self, op: GraphOp, inputs: Vec<NodeId>, shape: Vec<MetaId>) -> (id: NodeId)
        requires
            forall|i: int|
                0 <= i < inputs@.len() ==> #[trigger] inputs@[i] < old(self).nodes@.len(),
        ensures
            id == old(self).nodes@.len(),
            final(self).loss == old(self).loss,
            grown(old(self).nodes@, op, inputs@, shape@, final(self).nodes@),
    {
        let id: NodeId = self.nodes.len();
        let ghost before = self.nodes@;
        let mut i: usize = 0;
        proof {
            assert(inputs@.take(0) == Seq::<NodeId>::empty());
            assert forall|n: int| 0 <= n < before.len() implies (#[trigger] before[n]).outputs@
                == before[n].outputs@ + repeated_id(
                id,
                occurrences(inputs@.take(0), n as usize),
            ) by {
                assert(repeated_id(id, 0) == Seq::<NodeId>::empty());
            }
        }
        while i < inputs.len()
            invariant
                i <= inputs@.len(),
                id == before.len(),
                self.nodes@.len() == before.len(),
                self.loss == old(self).loss,
                forall|j: int| 0 <= j < inputs@.len() ==> #[trigger] inputs@[j] < before.len(),
                forall|n: int|
                    0 <= n < before.len() ==> same_but_outputs(#[trigger] self.nodes@[n], before[n])
                        && self.nodes@[n].outputs@ == before[n].outputs@ + repeated_id(
                        id,
                        occurrences(inputs@.take(i as int), n as usize),
                    ),
            decreases inputs@.len() - i,
        {
            let node: NodeId = inputs[i];
            let ghost current = self.nodes@;
            self.nodes[node].outputs.push(id);
            proof {
                assert(inputs@.take(i + 1) == inputs@.take(i as int).push(node));
                assert forall|n: int| 0 <= n < before.len() implies same_but_outputs(
                    #[trigger] self.nodes@[n],
                    before[n],
                ) && self.nodes@[n].outputs@ == before[n].outputs@ + repeated_id(
                    id,
                    occurrences(inputs@.take(i + 1), n as usize),
                ) by {
                    let times = occurrences(inputs@.take(i as int), n as usize);
                    lemma_occurrences_push(inputs@.take(i as int), node, n as usize);
                    assert(same_but_outputs(current[n], before[n]));
                    assert(repeated_id(id, times).push(id) == repeated_id(id, times + 1));
                }
            }
            i += 1;
        }
        assert(inputs@.take(inputs@.len() as int) == inputs@);
        self.nodes.push(Node { op, inputs, outputs: Vec::new(), shape });
        id
    }

    /// Adds an input with the given shape.
    pub fn input(&mut self, shape: &[MetaId]) -> (id: NodeId)
        ensures
            id == old(self).nodes@.len(),
            final(self).loss == old(self).loss,
            grown(
                old(self).nodes@,
                GraphOp::Input,
                Seq::empty(),
                shape@,
                final(self).nodes@,
            ),
    {
        self.add_node(GraphOp::Input, Vec::new(), vstd::slice::slice_to_vec(shape))
    }

    /// Adds a constant.
    pub fn constant_f32(&mut self, data: Float32) -> (id: NodeId)
        ensures
            id == old(self).nodes@.len(),
            final(self).loss == old(self).loss,
            grown(
                old(self).nodes@,
                GraphOp::ConstF32(data),
                Seq::empty(),
                Seq::empty(),
                final(self).nodes@,
            ),
    {
        self.add_node(GraphOp::ConstF32(data), Vec::new(), Vec::new())
    }

    /// Applies a structure a number of times, each time to what the last time gave.
    pub fn repeat<I, F: Fn(&mut Self, I) -> I>(&mut self, count: usize, start: I, structure: F)
        requires
            forall|
                befores: Seq<Graph>,
                given: Seq<I>,
                afters: Seq<Graph>,
                got: Seq<I>,
                done: nat,
                g: &mut Self,
                i: I,
            |
                {
                    &&& done < count
                    &&& #[trigger] chains(befores, afters, *old(self), *g, done)
                    &&& #[trigger] follows_on(given, got, start, done)
                    &&& i == reached(start, got)
                    &&& forall|k: int|
                        #[trigger] within(k, done) ==> exists|h: &mut Graph|
                            {
                                &&& *h == befores[k]
                                &&& #[trigger] structure.ensures((h, given[k]), got[k])
                                &&& *final(h) == afters[k]
                            }
                } ==> #[trigger] structure.requires((g, i)),
        ensures
            exists|befores: Seq<Graph>, given: Seq<I>, afters: Seq<Graph>, got: Seq<I>|
                {
                    &&& #[trigger] chains(befores, afters, *old(self), *final(self), count as nat)
                    &&& #[trigger] follows_on(given, got, start, count as nat)
                    &&& forall|k: int|
                        #[trigger] within(k, count as nat) ==> exists|g: &mut Graph|
                            {
                                &&& *g == befores[k]
                                &&& #[trigger] structure.ensures((g, given[k]), got[k])
                                &&& *final(g) == afters[k]
                            }
                },
    {
        let ghost mut befores: Seq<Graph> = Seq::empty();
        let ghost mut given: Seq<I> = Seq::empty();
        let ghost mut afters: Seq<Graph> = Seq::empty();
        let ghost mut got: Seq<I> = Seq::empty();
        let mut item = start;
        let mut i: usize = 0;
        while i < count
            invariant
                i <= count,
                forall|
                    befores: Seq<Graph>,
                    given: Seq<I>,
                    afters: Seq<Graph>,
                    got: Seq<I>,
                    done: nat,
                    g: &mut Self,
                    i: I,
                |
                    {
                        &&& done < count
                        &&& #[trigger] chains(befores, afters, *old(self), *g, done)
                        &&& #[trigger] follows_on(given, got, start, done)
                        &&& i == reached(start, got)
                        &&& forall|k: int|
                            #[trigger] within(k, done) ==> exists|h: &mut Graph|
                                {
                                    &&& *h == befores[k]
                                    &&& #[trigger] structure.ensures((h, given[k]), got[k])
                                    &&& *final(h) == afters[k]
                                }
                    } ==> #[trigger] structure.requires((g, i)),
                chains(befores, afters, *old(self), *self, i as nat),
                follows_on(given, got, start, i as nat),
                item == reached(start, got),
                forall|k: int|
                    #[trigger] within(k, i as nat) ==> exists|g: &mut Graph|
                            {
                                &&& *g == befores[k]
                                &&& #[trigger] structure.ensures((g, given[k]), got[k])
                                &&& *final(g) == afters[k]
                            },
            decreases count - i,
        {
            let ghost b = befores;
            let ghost v = given;
            let ghost a = afters;
            let ghost t = got;
            let ghost graph = *self;
            let ghost last = item;
            item = structure(self, item);
            assert(exists|g: &mut Graph|
                {
                    &&& *g == graph
                    &&& #[trigger] structure.ensures((g, last), item)
                    &&& *final(g) == *self
                });
            proof {
                befores = befores.push(graph);
                given = given.push(last);
                afters = afters.push(*self);
                got = got.push(item);
                assert forall|k: int| #[trigger] within(k, i as nat + 1) implies exists|g: &mut Graph|
                            {
                                &&& *g == befores[k]
                                &&& #[trigger] structure.ensures((g, given[k]), got[k])
                                &&& *final(g) == afters[k]
                            } by {
                    if k < i {
                        assert(within(k, i as nat));
                        assert(befores[k] == b[k] && given[k] == v[k] && afters[k] == a[k]
                            && got[k] == t[k]);
                    } else {
                        assert(befores[k] == graph && given[k] == last && afters[k] == *self
                            && got[k] == item);
                    }
                }
            }
            i += 1;
        }
    }
}

/// Whether a position is one of the first.
pub open spec fn within(k: int, count: nat) -> bool {
    0 <= k < count
}

/// Whether steps lead from one graph to another, each from where the last ended.
pub open spec fn chains(
    befores: Seq<Graph>,
    afters: Seq<Graph>,
    from: Graph,
    to: Graph,
    count: nat,
) -> bool {
    &&& befores.len() == count
    &&& afters.len() == count
    &&& count > 0 ==> befores[0] == from
    &&& forall|j: int, k: int|
        0 <= j < count && 0 <= k < count && k == j + 1 ==> #[trigger] befores[k]
            == #[trigger] afters[j]
    &&& to == if count == 0 {
        from
    } else {
        afters.last()
    }
}

/// What the last call gave, or what the first call gets where there was none.
pub open spec fn reached<I>(start: I, got: Seq<I>) -> I {
    if got.len() == 0 {
        start
    } else {
        got.last()
    }
}

/// Whether each item that is given is the one that was got last, and the first is `start`.
pub open spec fn follows_on<I>(given: Seq<I>, got: Seq<I>, start: I, count: nat) -> bool {
    &&& given.len() == count
    &&& got.len() == count
    &&& count > 0 ==> given[0] == start
    &&& forall|j: int, k: int|
        0 <= j < count && 0 <= k < count && k == j + 1 ==> #[trigger] given[k]
            == #[trigger] got[j]
}

/// A graph whose inputs come before the nodes that take them is sorted once its outputs are
/// rebuilt.
proof fn lemma_rebuilt_sorted(before: Seq<Node>, after: Seq<Node>)
    requires
        after.len() == before.len(),
        before.len() <= usize::MAX,
        forall|n: int|
            0 <= n < after.len() ==> same_but_outputs(#[trigger] after[n], before[n]),
        users_listed(inputs_of(before), outputs_of(after)),
        forall|n: int, i: int|
            0 <= n < before.len() && 0 <= i < before[n].inputs@.len()
                ==> #[trigger] before[n].inputs@[i] < n,
    ensures
        sorted(after),
{
    let ins = inputs_of(before);
    let outs = outputs_of(after);
    assert forall|n: int, i: int|
        0 <= n < after.len() && 0 <= i < after[n].inputs@.len() implies #[trigger] after[n].inputs@[i]
        < n by {
        assert(same_but_outputs(after[n], before[n]));
        assert(before[n].inputs@[i] < n);
    }
    assert forall|n: int, i: int| 0 <= n < after.len() && 0 <= i < after[n].outputs@.len() implies n
        < #[trigger] after[n].outputs@[i] < after.len() by {
        let v = after[n].outputs@[i];
        assert(outs[n]@[i] == v);
        assert(outs[n]@[i] < ins.len());
        lemma_occurrences_contains(outs[n]@, v);
        assert(outs[n]@.contains(v));
        assert(occurrences(outs[n as usize as int]@, v) == occurrences(ins[v as int], n as usize));
        lemma_occurrences_contains(ins[v as int], n as usize);
        let j = ins[v as int].index_of(n as usize);
        assert(before[v as int].inputs@[j] == n as usize);
        assert(before[v as int].inputs@[j] < v);
    }
}

} // verus!
