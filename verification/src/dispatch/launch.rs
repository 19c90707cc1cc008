//! What a launch of a compiled kernel takes.

use vstd::prelude::*;

use crate::dispatch::backend::kernel::{Dependencies, Redirect};
use crate::dispatch::backend::{NodeId, Param};
use crate::dispatch::compile::taken;
use crate::tensor::gridable;

verus! {

/// The compiled kernel at an index, or the one it is redirected to. Nothing, where that is
/// redirected once more or is not there.
pub open spec fn resolved<'a, K>(
    kernels: Seq<Dependencies<Redirect<(K, NodeId, &'a [bool])>>>,
    i: int,
) -> Option<(K, NodeId, &'a [bool])> {
    match kernels[i].val {
        Redirect::Unmasked(kernel) => Some(kernel),
        Redirect::Redirected(j) => if j < kernels.len() {
            match kernels[j as int].val {
                Redirect::Unmasked(kernel) => Some(kernel),
                Redirect::Redirected(_) => None,
            }
        } else {
            None
        },
    }
}

/// Finds the compiled kernel at an index, or the one it is redirected to.
pub fn resolve<'a, 'b, K>(
    kernels: &'b [Dependencies<Redirect<(K, NodeId, &'a [bool])>>],
    i: usize,
) -> (r: Option<&'b (K, NodeId, &'a [bool])>)
    requires
        i < kernels@.len(),
    ensures
        match r {
            Some(kernel) => resolved(kernels@, i as int) == Some(*kernel),
            None => resolved(kernels@, i as int) is None,
        },
{
    match &kernels[i].val {
        Redirect::Unmasked(kernel) => Some(kernel),
        Redirect::Redirected(j) => if *j < kernels.len() {
            match &kernels[*j].val {
                Redirect::Unmasked(kernel) => Some(kernel),
                Redirect::Redirected(_) => None,
            }
        } else {
            None
        },
    }
}

/// Whether a kernel is that of a node.
pub open spec fn is_of<'a, K>(
    kernels: Seq<Dependencies<Redirect<(K, NodeId, &'a [bool])>>>,
    i: int,
    node: NodeId,
) -> bool {
    resolved(kernels, i) matches Some(kernel) && kernel.1 == node
}

/// Whether a kernel of a node stands after the given place in the list.
pub open spec fn stands_after<'a, K>(
    kernels: Seq<Dependencies<Redirect<(K, NodeId, &'a [bool])>>>,
    i: int,
    node: NodeId,
) -> bool {
    exists|j: int| i < j < kernels.len() && #[trigger] is_of(kernels, j, node)
}

/// Whether each kernel stands before a kernel of every node that it depends on.
pub open spec fn leading<'a, K>(
    kernels: Seq<Dependencies<Redirect<(K, NodeId, &'a [bool])>>>,
) -> bool {
    forall|i: int, d: int|
        0 <= i < kernels.len() && 0 <= d < kernels[i].dep@.len() ==> stands_after(
            kernels,
            i,
            #[trigger] kernels[i].dep@[d],
        )
}

/// Whether a kernel of a node is launched before the given place in an order.
pub open spec fn launched_before<'a, K>(
    kernels: Seq<Dependencies<Redirect<(K, NodeId, &'a [bool])>>>,
    order: Seq<usize>,
    p: int,
    node: NodeId,
) -> bool {
    exists|q: int| 0 <= q < p && is_of(kernels, #[trigger] order[q] as int, node)
}

/// Whether each kernel is launched after a kernel of every node that it depends on.
pub open spec fn launches<'a, K>(
    kernels: Seq<Dependencies<Redirect<(K, NodeId, &'a [bool])>>>,
    order: Seq<usize>,
) -> bool {
    forall|p: int, d: int|
        0 <= p < order.len() && 0 <= d < kernels[order[p] as int].dep@.len() ==> launched_before(
            kernels,
            order,
            p,
            #[trigger] kernels[order[p] as int].dep@[d],
        )
}

/// Orders the kernels of a pass for launching, each once: the last first, as a kernel stands before
/// those that it depends on.
pub fn launch_order<'a, K>(
    kernels: &[Dependencies<Redirect<(K, NodeId, &'a [bool])>>],
) -> (order: Vec<usize>)
    ensures
        order@.len() == kernels@.len(),
        forall|p: int|
            0 <= p < order@.len() ==> #[trigger] order@[p] == kernels@.len() - 1 - p,
        leading(kernels@) ==> launches(kernels@, order@),
{
    let n: usize = kernels.len();
    let mut order: Vec<usize> = Vec::new();
    while order.len() < n
        invariant
            n == kernels@.len(),
            order@.len() <= n,
            forall|p: int| 0 <= p < order@.len() ==> #[trigger] order@[p] == n - 1 - p,
        decreases n - order@.len(),
    {
        order.push(n - 1 - order.len());
    }
    proof {
        if leading(kernels@) {
            assert forall|p: int, d: int|
                0 <= p < order@.len() && 0 <= d
                    < kernels@[order@[p] as int].dep@.len() implies launched_before(
                kernels@,
                order@,
                p,
                #[trigger] kernels@[order@[p] as int].dep@[d],
            ) by {
                let i = order@[p] as int;
                let node = kernels@[i].dep@[d];
                assert(stands_after(kernels@, i, node));
                let j = choose|j: int|
                    i < j < kernels@.len() && #[trigger] is_of(kernels@, j, node);
                let q = n - 1 - j;
                assert(order@[q] == j);
            }
        }
    }
    order
}

/// The positions among the first that are marked.
pub open spec fn positions(flags: Seq<bool>, n: nat) -> Seq<usize>
    decreases n,
{
    if n == 0 {
        Seq::empty()
    } else if flags[n - 1] {
        positions(flags, (n - 1) as nat).push((n - 1) as usize)
    } else {
        positions(flags, (n - 1) as nat)
    }
}

/// The buffers that a kernel is launched with are those of the parameters that it is compiled
/// with, in the same order.
pub proof fn lemma_bindings_fit(params: Seq<Param>, flags: Seq<bool>, n: nat)
    requires
        n <= params.len() <= usize::MAX,
        n <= flags.len(),
    ensures
        taken(params, flags, n).len() == positions(flags, n).len(),
        forall|j: int|
            0 <= j < positions(flags, n).len() ==> #[trigger] positions(flags, n)[j] < n
                && taken(params, flags, n)[j] == params[positions(flags, n)[j] as int],
    decreases n,
{
    if n > 0 {
        lemma_bindings_fit(params, flags, (n - 1) as nat);
    }
}

/// Lists which of a number of buffers a kernel takes, in the order of its bindings.
pub fn taken_bindings(flags: &[bool], count: usize) -> (r: Vec<usize>)
    ensures
        r@ == positions(
            flags@,
            if count < flags@.len() {
                count as nat
            } else {
                flags@.len()
            },
        ),
        forall|i: int| 0 <= i < r@.len() ==> #[trigger] r@[i] < count,
{
    let mut r: Vec<usize> = Vec::new();
    let mut i: usize = 0;
    while i < flags.len() && i < count
        invariant
            i <= flags@.len(),
            i <= count,
            r@ == positions(flags@, i as nat),
            forall|j: int| 0 <= j < r@.len() ==> #[trigger] r@[j] < i,
        decreases flags@.len() - i,
    {
        if flags[i] {
            r.push(i);
        }
        i += 1;
    }
    r
}

/// Whether a grid of blocks can be laid over dimensions.
pub fn is_gridable(shape: &[u32], block: [u32; 3]) -> (r: bool)
    ensures
        r == gridable(shape@, block),
{
    shape.len() >= 2 && crate::tensor::checked_product(shape, shape.len() - 2).is_some() && block[2]
        > 0 && (block[0] != block[1] || block[0] > 0)
}

/// Whether metadata gives all the dimensions of a shape.
pub fn has_fields(shape: &[usize], fields: usize) -> (r: bool)
    ensures
        r == (forall|i: int| 0 <= i < shape@.len() ==> #[trigger] shape@[i] < fields),
{
    let mut i: usize = 0;
    while i < shape.len()
        invariant
            i <= shape@.len(),
            forall|j: int| 0 <= j < i ==> #[trigger] shape@[j] < fields,
        decreases shape@.len() - i,
    {
        if shape[i] >= fields {
            return false;
        }
        i += 1;
    }
    true
}

} // verus!
