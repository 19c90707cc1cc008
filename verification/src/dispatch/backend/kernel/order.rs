//! The order of values that depend on each other.

use vstd::prelude::*;

use crate::dispatch::backend::kernel::Dependencies;
use crate::dispatch::backend::sort::{
    find_missing, first_missing, free_order, inputs_exist, is_order, lemma_renumber_descends,
    positions, renumber, renumber_ids,
};
use crate::errors::{graph_error, lists, Error, ErrorKind, Fault, GraphErrorContext};

verus! {

/// What each value depends on.
pub open spec fn deps_of<T>(nodes: Seq<Dependencies<T>>) -> Seq<Seq<usize>> {
    Seq::new(nodes.len(), |n: int| nodes[n].dep@)
}

/// Whether values are the given ones in another order: copies of them, with what they depend on
/// renumbered.
pub open spec fn arranged<T: Clone>(
    before: Seq<Dependencies<T>>,
    order: Seq<usize>,
    after: Seq<Dependencies<T>>,
) -> bool {
    &&& after.len() == order.len()
    &&& forall|k: int|
        0 <= k < after.len() ==> {
            &&& cloned(before[order[k] as int].val, (#[trigger] after[k]).val)
            &&& after[k].dep@ == renumber(before[order[k] as int].dep@, order)
        }
}

fn dep_lists<T>(nodes: &[Dependencies<T>]) -> (r: Vec<Vec<usize>>)
    ensures
        lists(r@) == deps_of(nodes@),
{
    let mut r: Vec<Vec<usize>> = Vec::new();
    let mut n: usize = 0;
    while n < nodes.len()
        invariant
            n <= nodes@.len(),
            r@.len() == n,
            forall|j: int| 0 <= j < n ==> (#[trigger] r@[j])@ == nodes@[j].dep@,
        decreases nodes@.len() - n,
    {
        r.push(nodes[n].dep.clone());
        n += 1;
    }
    assert(lists(r@) == deps_of(nodes@));
    r
}

/// Sorts values so that each comes after what it depends on.
///
/// # Errors
///
/// Fails if a value depends on one that is not there, or on itself.
pub fn topo_sort<T: Clone>(nodes: &mut [Dependencies<T>]) -> (r: Result<
    (),
    Error<GraphErrorContext>,
>)
    ensures
        match r {
            Ok(()) => {
                &&& inputs_exist(deps_of(old(nodes)@))
                &&& exists|order: Seq<usize>|
                    {
                        &&& is_order(deps_of(old(nodes)@), order)
                        &&& order.len() == old(nodes)@.len()
                        &&& #[trigger] arranged(old(nodes)@, order, final(nodes)@)
                    }
                &&& forall|n: int, i: int|
                    0 <= n < final(nodes)@.len() && 0 <= i < final(nodes)@[n].dep@.len()
                        ==> #[trigger] final(nodes)@[n].dep@[i] < n
            },
            Err(e) => {
                &&& final(nodes)@ == old(nodes)@
                &&& match e@.ctx {
                    Fault::MissingInput { node, input } => {
                        &&& first_missing(deps_of(old(nodes)@), node, input)
                        &&& e@ == graph_error(
                            "invalid node reference in graph",
                            Fault::MissingInput { node, input },
                        )
                    },
                    Fault::CycleDetected { node, path } => {
                        &&& inputs_exist(deps_of(old(nodes)@))
                        &&& is_order(deps_of(old(nodes)@), path)
                        &&& path.len() != old(nodes)@.len()
                        &&& e@ == graph_error(
                            "cycle detected in graph",
                            Fault::CycleDetected { node: 0, path },
                        )
                    },
                    _ => false,
                }
            },
        },
{
    let inputs = dep_lists(nodes);
    let ghost before = nodes@;
    let ghost ins = deps_of(nodes@);
    let n: usize = nodes.len();
    if let Some((node, input)) = find_missing(&inputs) {
        return Err(
            Error {
                msg: "invalid node reference in graph",
                kind: ErrorKind::ComputeGraphError,
                ctx: GraphErrorContext::MissingInput { node, input },
            },
        );
    }
    let order = free_order(&inputs);
    if order.len() != n {
        return Err(
            Error {
                msg: "cycle detected in graph",
                kind: ErrorKind::ComputeGraphError,
                ctx: GraphErrorContext::CycleDetected { node: 0, path: order },
            },
        );
    }
    let places = positions(&order, Ghost(ins));
    let mut sorted: Vec<Dependencies<T>> = Vec::new();
    let mut i: usize = 0;
    while i < n
        invariant
            i <= n,
            n == order@.len(),
            n == before.len(),
            before == nodes@,
            nodes@.len() == n,
            ins == deps_of(before),
            inputs_exist(ins),
            is_order(ins, order@),
            places@.len() == n,
            forall|v: usize| v < n ==> #[trigger] places@[v as int] == order@.index_of(v),
            sorted@.len() == i,
            forall|k: int|
                0 <= k < i ==> {
                    &&& cloned(before[order@[k] as int].val, (#[trigger] sorted@[k]).val)
                    &&& sorted@[k].dep@ == renumber(before[order@[k] as int].dep@, order@)
                },
        decreases n - i,
    {
        let old_id: usize = order[i];
        let node = &nodes[old_id];
        assert(ins[old_id as int] == node.dep@);
        assert forall|j: int| 0 <= j < node.dep@.len() implies #[trigger] node.dep@[j] < n by {
            assert(ins[old_id as int][j] < n);
        }
        let dep = renumber_ids(&node.dep, &places, Ghost(order@));
        sorted.push(Dependencies { val: node.val.clone(), dep });
        i += 1;
    }
    let ghost all = sorted@;
    let mut left: usize = n;
    while left > 0
        invariant
            left <= n,
            n == all.len(),
            nodes@.len() == n,
            sorted@ == all.take(left as int),
            forall|k: int| left <= k < n ==> #[trigger] nodes@[k] == all[k],
        decreases left,
    {
        left -= 1;
        if let Some(last) = sorted.pop() {
            nodes[left] = last;
        }
    }
    proof {
        assert(nodes@ == all);
        assert(arranged(before, order@, all));
        assert forall|m: int, j: int|
            0 <= m < all.len() && 0 <= j < all[m].dep@.len() implies #[trigger] all[m].dep@[j]
            < m by {
            lemma_renumber_descends(ins, order@, m);
            assert(ins[order@[m] as int] == before[order@[m] as int].dep@);
            assert(all[m].dep@ == renumber(before[order@[m] as int].dep@, order@));
        }
    }
    Ok(())
}

} // verus!
