//! Which results the passes define and use.

use vstd::prelude::*;

use crate::dispatch::backend::kernel::frame::in_graph;
use crate::dispatch::backend::kernel::save::{
    lemma_flags, lemma_or_small, BACKWARD_DEFINED, BACKWARD_USED, FORWARD_USED,
};
use crate::dispatch::backend::kernel::{SaveIndicator, Saves};
use crate::dispatch::backend::{Graph, GraphOp, Node, NodeId, SaveRule};

verus! {

/// Defined in the forward pass and used by the backward pass.
pub open spec fn kept_for_backward() -> Saves {
    Saves { defined_in_forward: true, used_by_backward: true, ..Saves::none() }
}

/// Defined in the forward pass and used by the forward pass.
pub open spec fn kept_for_forward() -> Saves {
    Saves { defined_in_forward: true, used_by_forward: true, ..Saves::none() }
}

/// Defined in the backward pass and used by the backward pass.
pub open spec fn gradient_kept() -> Saves {
    Saves { defined_in_backward: true, used_by_backward: true, ..Saves::none() }
}

/// Defined in and used by both passes.
pub open spec fn always_kept() -> Saves {
    Saves {
        defined_in_forward: true,
        used_by_forward: true,
        defined_in_backward: true,
        used_by_backward: true,
    }
}

/// What holds of a node if a condition does.
pub open spec fn when(cond: bool, what: Saves) -> Saves {
    if cond {
        what
    } else {
        Saves::none()
    }
}

/// What a node says of its own result or of that of another.
///
/// The gradients of inputs are kept. An operation with one operand keeps its operand for the
/// backward pass, as a product and a quotient keep theirs, unless it is a leaf. A matrix product is
/// always kept, and keeps its operands for the forward pass, unless they are leaves. A softmax is
/// always kept, as are operands of it that need dimensions or a kernel of their own; and the
/// gradients of nodes that take it are kept.
pub open spec fn says(nodes: Seq<Node>, m: int, n: int) -> Saves {
    let node = nodes[m];
    let taken = node.inputs@.contains(n as usize);
    let computed = nodes[n].inputs@.len() > 0;
    match node.op {
        GraphOp::Input => when(m == n, gradient_kept()),
        GraphOp::ConstF32(_) => Saves::none(),
        GraphOp::Custom { save, .. } => match save {
            SaveRule::Nothing => Saves::none(),
            SaveRule::Unary => when(node.inputs@[0] == n && computed, kept_for_backward()),
            SaveRule::Factors => when(taken && computed, kept_for_backward()),
            SaveRule::Matmul => when(m == n, always_kept()).or(
                when(taken && computed, kept_for_forward()),
            ),
            SaveRule::Softmax => when(m == n, always_kept()).or(
                when(taken && (nodes[n].op.dims_needed() || nodes[n].op.separate()), always_kept()),
            ).or(when(node.outputs@.contains(n as usize), gradient_kept())),
        },
    }
}

/// What the first nodes say of the result of a node.
pub open spec fn said(nodes: Seq<Node>, n: int, count: nat) -> Saves
    decreases count,
{
    if count == 0 {
        Saves::none()
    } else {
        said(nodes, n, (count - 1) as nat).or(says(nodes, count - 1, n))
    }
}

/// Whether the nodes that say something of others name nodes, and have the operand they speak of.
pub open spec fn savable(nodes: Seq<Node>) -> bool {
    forall|m: int|
        0 <= m < nodes.len() ==> ((#[trigger] nodes[m]).op matches GraphOp::Custom { save, .. } ==> {
            &&& in_graph(nodes[m].inputs@, nodes.len())
            &&& save == SaveRule::Unary ==> nodes[m].inputs@.len() >= 1
            &&& save == SaveRule::Softmax ==> in_graph(nodes[m].outputs@, nodes.len())
        })
}

/// Which of the nodes in a list are marked.
#[derive(Clone, Copy, PartialEq, Eq, Structural)]
enum Chosen {
    All,
    Computed,
    Separate,
}

/// Whether a node is one of those that are marked.
spec fn is_chosen(node: Node, chosen: Chosen) -> bool {
    match chosen {
        Chosen::All => true,
        Chosen::Computed => node.inputs@.len() > 0,
        Chosen::Separate => node.op.dims_needed() || node.op.separate(),
    }
}

/// Whether no flags are set but those of the passes.
spec fn plain(saved: Seq<SaveIndicator>) -> bool {
    forall|n: int| 0 <= n < saved.len() ==> (#[trigger] saved[n]).flags < 16
}

/// Marks the nodes in a list that are chosen.
fn mark(
    graph: &Graph,
    saved: &mut Vec<SaveIndicator>,
    ids: &Vec<NodeId>,
    count: usize,
    chosen: Chosen,
    what: SaveIndicator,
)
    requires
        count <= ids@.len(),
        in_graph(ids@, graph.nodes@.len()),
        old(saved)@.len() == graph.nodes@.len(),
        plain(old(saved)@),
        what.flags < 16,
    ensures
        final(saved)@.len() == old(saved)@.len(),
        plain(final(saved)@),
        forall|n: int|
            0 <= n < final(saved)@.len() ==> (#[trigger] final(saved)@[n])@ == old(saved)@[n]@.or(
                when(
                    ids@.take(count as int).contains(n as usize) && is_chosen(
                        graph.nodes@[n],
                        chosen,
                    ),
                    what@,
                ),
            ),
{
    let ghost before = saved@;
    let size: usize = saved.len();
    let mut i: usize = 0;
    assert(ids@.take(0) == Seq::<NodeId>::empty());
    while i < count
        invariant
            i <= count <= ids@.len(),
            in_graph(ids@, graph.nodes@.len()),
            saved@.len() == graph.nodes@.len(),
            before.len() == saved@.len(),
            size == saved@.len(),
            plain(saved@),
            what.flags < 16,
            forall|n: int|
                0 <= n < saved@.len() ==> (#[trigger] saved@[n])@ == before[n]@.or(
                    when(
                        ids@.take(i as int).contains(n as usize) && is_chosen(
                            graph.nodes@[n],
                            chosen,
                        ),
                        what@,
                    ),
                ),
        decreases count - i,
    {
        let id: NodeId = ids[i];
        let node = &graph.nodes[id];
        let hit = match chosen {
            Chosen::All => true,
            Chosen::Computed => node.inputs.len() > 0,
            Chosen::Separate => node.op.is_need_dims() || node.op.is_prefer_separate(),
        };
        let ghost current = saved@;
        if hit {
            proof {
                lemma_or_small(saved@[id as int].flags, what.flags);
            }
            saved[id] = saved[id].or(what);
        }
        proof {
            let taken = ids@.take(i as int);
            assert(ids@.take(i + 1) == taken.push(id));
            assert forall|n: int| 0 <= n < saved@.len() implies (#[trigger] saved@[n])@
                == before[n]@.or(
                when(
                    ids@.take(i + 1).contains(n as usize) && is_chosen(graph.nodes@[n], chosen),
                    what@,
                ),
            ) by {
                assert(current[n]@ == before[n]@.or(
                    when(
                        taken.contains(n as usize) && is_chosen(graph.nodes@[n], chosen),
                        what@,
                    ),
                ));
                if taken.contains(n as usize) {
                    let j = taken.index_of(n as usize);
                    assert(taken.push(id)[j] == n as usize);
                } else if n == id {
                    assert(taken.push(id)[i as int] == n as usize);
                } else if taken.push(id).contains(n as usize) {
                    let j = taken.push(id).index_of(n as usize);
                    assert(taken[j] == n as usize);
                }
            }
        }
        i += 1;
    }
}

impl Graph {
    /// Marks what one node says of its own result and of those of others.
    fn mark_node(&self, saved: &mut Vec<SaveIndicator>, m: NodeId)
        requires
            savable(self.nodes@),
            m < self.nodes@.len(),
            old(saved)@.len() == self.nodes@.len(),
            plain(old(saved)@),
        ensures
            final(saved)@.len() == old(saved)@.len(),
            plain(final(saved)@),
            forall|n: int|
                0 <= n < final(saved)@.len() ==> (#[trigger] final(saved)@[n])@
                    == old(saved)@[n]@.or(says(self.nodes@, m as int, n)),
    {
        let node = &self.nodes[m];
        let ghost before = saved@;
        let ghost nodes = self.nodes@;
        let ghost size = self.nodes.len();
        let forward = SaveIndicator::defined_in_forward();
        let gradient = SaveIndicator::defined_in_backward().or(SaveIndicator::used_by_backward());
        let always = forward.or(SaveIndicator::used_by_forward()).or(gradient);
        proof {
            let what = forward.flags | FORWARD_USED;
            lemma_or_small(BACKWARD_DEFINED, BACKWARD_USED);
            lemma_or_small(forward.flags, FORWARD_USED);
            lemma_or_small(forward.flags, BACKWARD_USED);
            lemma_or_small(what, gradient.flags);
            lemma_or_small(saved@[m as int].flags, gradient.flags);
            lemma_or_small(saved@[m as int].flags, always.flags);
        }
        assert(node.inputs@.take(node.inputs@.len() as int) == node.inputs@);
        assert(node.outputs@.take(node.outputs@.len() as int) == node.outputs@);
        match node.op {
            GraphOp::Input => {
                saved[m] = saved[m].or(gradient);
            },
            GraphOp::ConstF32(_) => {},
            GraphOp::Custom { save, .. } => match save {
                SaveRule::Nothing => {},
                SaveRule::Unary => {
                    let what = forward.or(SaveIndicator::used_by_backward());
                    mark(self, saved, &node.inputs, 1, Chosen::Computed, what);
                    proof {
                        let first = node.inputs@.take(1);
                        assert forall|n: int| 0 <= n < saved@.len() implies (#[trigger] saved@[n])@
                            == before[n]@.or(says(nodes, m as int, n)) by {
                            assert(first.contains(n as usize) <==> node.inputs@[0] == n) by {
                                assert(first[0] == node.inputs@[0]);
                                if first.contains(n as usize) {
                                    let j = first.index_of(n as usize);
                                    assert(j == 0);
                                }
                            }
                        }
                    }
                },
                SaveRule::Factors => {
                    let what = forward.or(SaveIndicator::used_by_backward());
                    mark(self, saved, &node.inputs, node.inputs.len(), Chosen::Computed, what);
                },
                SaveRule::Matmul => {
                    saved[m] = saved[m].or(always);
                    let what = forward.or(SaveIndicator::used_by_forward());
                    mark(self, saved, &node.inputs, node.inputs.len(), Chosen::Computed, what);
                },
                SaveRule::Softmax => {
                    saved[m] = saved[m].or(always);
                    mark(self, saved, &node.inputs, node.inputs.len(), Chosen::Separate, always);
                    mark(self, saved, &node.outputs, node.outputs.len(), Chosen::All, gradient);
                },
            },
        }
    }

    /// Finds out which results the passes define and use.
    #[must_use]
    pub fn compute_saved_nodes(&self) -> (saved: Vec<SaveIndicator>)
        requires
            savable(self.nodes@),
        ensures
            saved@.len() == self.nodes@.len(),
            forall|n: int|
                0 <= n < saved@.len() ==> (#[trigger] saved@[n])@ == said(
                    self.nodes@,
                    n,
                    self.nodes@.len(),
                ),
            forall|n: int|
                0 <= n < saved@.len() ==> (#[trigger] saved@[n]).flags == said(
                    self.nodes@,
                    n,
                    self.nodes@.len(),
                ).flags(),
    {
        let mut saved: Vec<SaveIndicator> = Vec::new();
        let mut n: usize = 0;
        while n < self.nodes.len()
            invariant
                n <= self.nodes@.len(),
                saved@.len() == n,
                plain(saved@),
                forall|i: int| 0 <= i < n ==> (#[trigger] saved@[i])@ == Saves::none(),
            decreases self.nodes@.len() - n,
        {
            saved.push(SaveIndicator::none());
            n += 1;
        }
        let mut m: usize = 0;
        while m < self.nodes.len()
            invariant
                m <= self.nodes@.len(),
                savable(self.nodes@),
                saved@.len() == self.nodes@.len(),
                plain(saved@),
                forall|n: int|
                    0 <= n < saved@.len() ==> (#[trigger] saved@[n])@ == said(
                        self.nodes@,
                        n,
                        m as nat,
                    ),
            decreases self.nodes@.len() - m,
        {
            self.mark_node(&mut saved, m);
            m += 1;
        }
        proof {
            assert forall|n: int| 0 <= n < saved@.len() implies (#[trigger] saved@[n]).flags == said(
                self.nodes@,
                n,
                self.nodes@.len(),
            ).flags() by {
                lemma_flags(saved@[n]);
            }
        }
        saved
    }
}

} // verus!
