//! Graphs that are built node by node list the nodes that take each node, as rebuilding the lists does.

use vstd::prelude::*;

use crate::dispatch::backend::graph::{
    grown, inputs_of, outputs_of, repeated_id, same_but_outputs,
};
use crate::dispatch::backend::sort::{
    lemma_occurrences_contains, lemma_occurrences_push, occurrences, users_listed,
};
use crate::dispatch::backend::{GraphOp, MetaId, Node, NodeId};

verus! {

/// Whether the outputs of each node of a graph list the nodes that take it, in order, once for each
/// time they take it.
pub open spec fn listed(nodes: Seq<Node>) -> bool {
    users_listed(inputs_of(nodes), outputs_of(nodes))
}

/// A graph without nodes lists what takes each node.
pub proof fn lemma_empty_listed()
    ensures
        listed(Seq::empty()),
{
}

proof fn lemma_repeated(s: Seq<usize>, id: usize, times: nat, x: usize)
    ensures
        occurrences(s + repeated_id(id, times), x) == occurrences(s, x) + if id == x {
            times
        } else {
            0
        },
    decreases times,
{
    if times == 0 {
        assert(s + repeated_id(id, 0) =~= s);
    } else {
        let t = (times - 1) as nat;
        lemma_repeated(s, id, t, x);
        assert(s + repeated_id(id, times) =~= (s + repeated_id(id, t)).push(id));
        lemma_occurrences_push(s + repeated_id(id, t), id, x);
    }
}

proof fn lemma_absent(s: Seq<usize>, x: usize)
    requires
        forall|i: int| 0 <= i < s.len() ==> #[trigger] s[i] != x,
    ensures
        occurrences(s, x) == 0,
{
    lemma_occurrences_contains(s, x);
}

/// A graph with a node added lists what takes each node, if it did before.
pub proof fn lemma_grown_listed(
    before: Seq<Node>,
    op: GraphOp,
    inputs: Seq<NodeId>,
    shape: Seq<MetaId>,
    after: Seq<Node>,
)
    requires
        listed(before),
        before.len() <= usize::MAX,
        forall|n: int, i: int|
            0 <= n < before.len() && 0 <= i < before[n].inputs@.len()
                ==> #[trigger] before[n].inputs@[i] < before.len(),
        forall|i: int| 0 <= i < inputs.len() ==> #[trigger] inputs[i] < before.len(),
        grown(before, op, inputs, shape, after),
    ensures
        listed(after),
{
    let count = before.len();
    let last = count as usize;
    let ins = inputs_of(after);
    let outs = outputs_of(after);
    let was = outputs_of(before);
    assert forall|u: int| 0 <= u < count implies (#[trigger] outs[u])@ == was[u]@ + repeated_id(
        last,
        occurrences(inputs, u as usize),
    ) && ins[u] == inputs_of(before)[u] by {
        assert(same_but_outputs(after[u], before[u]));
    }
    assert(outs[count as int]@ == Seq::<NodeId>::empty() && ins[count as int] == inputs);
    assert forall|u: int, i: int|
        0 <= u < outs.len() && 0 <= i < outs[u]@.len() implies #[trigger] outs[u]@[i]
        < ins.len() by {
        if i < was[u]@.len() {
            assert(outs[u]@[i] == was[u]@[i]);
        }
    }
    assert forall|u: int, i: int, j: int|
        0 <= u < outs.len() && 0 <= i <= j < outs[u]@.len() implies #[trigger] outs[u]@[i]
        <= #[trigger] outs[u]@[j] by {
        if j < was[u]@.len() {
            assert(was[u]@[i] <= was[u]@[j]);
        } else if i < was[u]@.len() {
            assert(was[u]@[i] < count);
        }
    }
    assert forall|u: usize, v: usize| u < ins.len() && v < ins.len() implies #[trigger] occurrences(
        outs[u as int]@,
        v,
    ) == occurrences(ins[v as int], u) by {
        if u < count {
            lemma_repeated(was[u as int]@, last, occurrences(inputs, u), v);
            if v < count {
                assert(occurrences(was[u as int]@, v) == occurrences(
                    inputs_of(before)[v as int],
                    u,
                ));
                assert(ins[v as int] == inputs_of(before)[v as int]);
            } else {
                assert forall|i: int| 0 <= i < was[u as int]@.len() implies #[trigger] was[
                u as int]@[i] != v by {
                    assert(was[u as int]@[i] < count);
                }
                lemma_absent(was[u as int]@, v);
            }
        } else {
            let taken = ins[v as int];
            assert forall|i: int| 0 <= i < taken.len() implies #[trigger] taken[i] != u by {
                if v < count {
                    assert(taken == before[v as int].inputs@);
                    assert(before[v as int].inputs@[i] < count);
                }
            }
            lemma_absent(taken, u);
        }
    }
}

/// Two ordered lists that hold each number equally often are the same.
proof fn lemma_same_list(a: Seq<usize>, b: Seq<usize>, bound: nat)
    requires
        forall|i: int, j: int| 0 <= i <= j < a.len() ==> #[trigger] a[i] <= #[trigger] a[j],
        forall|i: int, j: int| 0 <= i <= j < b.len() ==> #[trigger] b[i] <= #[trigger] b[j],
        forall|i: int| 0 <= i < a.len() ==> #[trigger] a[i] < bound,
        forall|i: int| 0 <= i < b.len() ==> #[trigger] b[i] < bound,
        forall|v: usize| v < bound ==> #[trigger] occurrences(a, v) == occurrences(b, v),
    ensures
        a == b,
    decreases a.len(),
{
    if a.len() == 0 {
        if b.len() > 0 {
            let v = b[0];
            lemma_occurrences_contains(b, v);
            assert(occurrences(a, v) == occurrences(b, v));
        }
    } else {
        let x = a.last();
        lemma_occurrences_contains(a, x);
        lemma_occurrences_contains(b, x);
        assert(occurrences(a, x) == occurrences(b, x));
        assert(a.contains(x));
        let i = b.index_of(x);
        let y = b.last();
        assert(b[i] <= b[b.len() - 1]);
        lemma_occurrences_contains(b, y);
        lemma_occurrences_contains(a, y);
        assert(occurrences(a, y) == occurrences(b, y));
        assert(b.contains(y));
        let j = a.index_of(y);
        assert(a[j] <= a[a.len() - 1]);
        let c = a.drop_last();
        let d = b.drop_last();
        assert forall|v: usize| v < bound implies #[trigger] occurrences(c, v) == occurrences(
            d,
            v,
        ) by {
            assert(occurrences(a, v) == occurrences(b, v));
        }
        lemma_same_list(c, d, bound);
        assert(a =~= c.push(x));
        assert(b =~= d.push(y));
    }
}

/// Rebuilding the outputs of a graph that lists what takes each node changes nothing.
pub proof fn lemma_rebuilt_same(before: Seq<Node>, after: Seq<Node>)
    requires
        listed(before),
        after.len() == before.len() <= usize::MAX,
        forall|n: int|
            0 <= n < after.len() ==> same_but_outputs(#[trigger] after[n], before[n]),
        users_listed(inputs_of(before), outputs_of(after)),
    ensures
        forall|n: int| 0 <= n < after.len() ==> (#[trigger] after[n]).outputs@ == before[n].outputs@,
{
    let a = outputs_of(after);
    let b = outputs_of(before);
    assert forall|n: int| 0 <= n < after.len() implies (#[trigger] after[n]).outputs@
        == before[n].outputs@ by {
        let u = n as usize;
        assert forall|v: usize| v < before.len() implies #[trigger] occurrences(a[n]@, v)
            == occurrences(b[n]@, v) by {
            assert(occurrences(a[u as int]@, v) == occurrences(inputs_of(before)[v as int], u));
            assert(occurrences(b[u as int]@, v) == occurrences(inputs_of(before)[v as int], u));
        }
        lemma_same_list(a[n]@, b[n]@, before.len());
    }
}

} // verus!
