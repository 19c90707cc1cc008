//! What the two passes have in common: the parameters of their kernels, and the order of the
//! kernels.

use vstd::prelude::*;

use crate::dispatch::backend::kernel::frame::{contains, in_graph, lowerable, slots_fit};
use crate::dispatch::backend::kernel::raw::{LinkedKernel, LinkedView, RawView};
use crate::dispatch::backend::kernel::save::SaveIndicator;
use crate::dispatch::backend::kernel::Dependencies;
use crate::dispatch::backend::{
    DType, DispatchOptions, Graph, Metadata, Node, NodeId, Param, ParamId, ParamTy,
};
use crate::errors::Error;

verus! {

/// A kernel of a pass, and the roots of the kernels that must come before it.
#[verifier::ext_equal]
pub struct Step {
    pub kernel: LinkedView,
    pub dep: Seq<usize>,
}

impl View for Dependencies<LinkedKernel> {
    type V = Step;

    open spec fn view(&self) -> Step {
        Step { kernel: self.val@, dep: self.dep@ }
    }
}

/// The contents of a list of kernels.
pub open spec fn steps(kernels: Seq<Dependencies<LinkedKernel>>) -> Seq<Step> {
    Seq::new(kernels.len(), |i: int| kernels[i]@)
}

/// The kernels of a pass, and the parameters that they take.
#[derive(Debug)]
pub struct KernelsChained {
    pub kernels: Vec<Dependencies<LinkedKernel>>,
    pub params: Vec<Param>,
}

/// The contents of [`KernelsChained`].
#[verifier::ext_equal]
pub struct Chain {
    pub steps: Seq<Step>,
    pub params: Seq<Param>,
}

impl View for KernelsChained {
    type V = Chain;

    open spec fn view(&self) -> Chain {
        Chain { steps: steps(self.kernels@), params: self.params@ }
    }
}

/// The contents of a pass that may have failed.
pub open spec fn chained(r: Result<KernelsChained, Error>) -> Result<Chain, Error> {
    match r {
        Ok(k) => Ok(k@),
        Err(e) => Err(e),
    }
}

/// How far a pass has come: its kernels, the roots of the next round, and the resolved nodes.
#[verifier::ext_equal]
pub struct Plan {
    pub steps: Seq<Step>,
    pub roots: Seq<NodeId>,
    pub resolved: Seq<NodeId>,
}

/// The kernels with a root that those which come after it depend on.
///
/// In a forward pass these are the kernels of greater roots, and in a backward pass those of
/// lesser ones.
pub open spec fn depending(steps: Seq<Step>, root: NodeId, backward: bool) -> Seq<Step> {
    Seq::new(
        steps.len(),
        |i: int|
            if (backward && steps[i].kernel.raw.root < root) || (!backward
                && steps[i].kernel.raw.root > root) {
                Step { dep: steps[i].dep.push(root), ..steps[i] }
            } else {
                steps[i]
            },
    )
}

/// Makes the kernels that come after a root depend on it.
pub fn add_dependency(
    kernels: &mut Vec<Dependencies<LinkedKernel>>,
    root: NodeId,
    backward: bool,
)
    ensures
        steps(final(kernels)@) == depending(steps(old(kernels)@), root, backward),
{
    let ghost start = steps(kernels@);
    let mut i: usize = 0;
    while i < kernels.len()
        invariant
            i <= kernels@.len(),
            kernels@.len() == start.len(),
            forall|j: int|
                0 <= j < kernels@.len() ==> (#[trigger] kernels@[j])@ == if j < i {
                    depending(start, root, backward)[j]
                } else {
                    start[j]
                },
        decreases kernels@.len() - i,
    {
        let other: NodeId = kernels[i].val.raw.root;
        assert(kernels@[i as int]@ == start[i as int]);
        if (backward && other < root) || (!backward && other > root) {
            kernels[i].dep.push(root);
        }
        i += 1;
    }
    assert(steps(kernels@) == depending(start, root, backward));
}

/// The roots with the first of the given nodes added: those that are not among them yet, nor
/// resolved, nor the root that reached them.
pub open spec fn more_roots(
    roots: Seq<NodeId>,
    ids: Seq<NodeId>,
    count: nat,
    resolved: Seq<NodeId>,
    root: NodeId,
) -> Seq<NodeId>
    decreases count,
{
    if count == 0 {
        roots
    } else {
        let roots = more_roots(roots, ids, (count - 1) as nat, resolved, root);
        let id = ids[count - 1];
        if id == root || roots.contains(id) || resolved.contains(id) {
            roots
        } else {
            roots.push(id)
        }
    }
}

/// Every root that is added is one of the given nodes, and not the root that reached them.
pub proof fn lemma_more_roots(
    roots: Seq<NodeId>,
    ids: Seq<NodeId>,
    count: nat,
    resolved: Seq<NodeId>,
    root: NodeId,
)
    requires
        count <= ids.len(),
    ensures
        forall|i: int|
            0 <= i < more_roots(roots, ids, count, resolved, root).len() ==> {
                let id = #[trigger] more_roots(roots, ids, count, resolved, root)[i];
                roots.contains(id) || (id != root && ids.contains(id))
            },
    decreases count,
{
    let all = more_roots(roots, ids, count, resolved, root);
    if count > 0 {
        let before = more_roots(roots, ids, (count - 1) as nat, resolved, root);
        lemma_more_roots(roots, ids, (count - 1) as nat, resolved, root);
        assert(ids.contains(ids[count - 1]));
        assert forall|i: int| 0 <= i < all.len() implies roots.contains(#[trigger] all[i]) || (
        all[i] != root && ids.contains(all[i])) by {
            if i < before.len() {
                assert(all[i] == before[i]);
            }
        }
    } else {
        assert forall|i: int| 0 <= i < all.len() implies roots.contains(#[trigger] all[i]) by {
            assert(roots[i] == all[i]);
        }
    }
}

/// Adds the nodes from the given one on to the roots, except those that are among them or
/// resolved, and the root that reached them.
pub fn add_roots(
    roots: &mut Vec<NodeId>,
    ids: &Vec<NodeId>,
    from: usize,
    resolved: &Vec<NodeId>,
    root: NodeId,
)
    requires
        from <= ids@.len(),
    ensures
        final(roots)@ == more_roots(
            old(roots)@,
            ids@.subrange(from as int, ids@.len() as int),
            (ids@.len() - from) as nat,
            resolved@,
            root,
        ),
{
    let ghost start = roots@;
    let ghost rest = ids@.subrange(from as int, ids@.len() as int);
    let mut i: usize = from;
    while i < ids.len()
        invariant
            from <= i <= ids@.len(),
            rest == ids@.subrange(from as int, ids@.len() as int),
            roots@ == more_roots(start, rest, (i - from) as nat, resolved@, root),
        decreases ids@.len() - i,
    {
        let id: NodeId = ids[i];
        assert(rest[i - from] == id);
        if id != root && !contains(roots, id) && !contains(resolved, id) {
            roots.push(id);
        }
        i += 1;
    }
}

/// The kernel with the block of threads that the dispatch of a node requires.
pub open spec fn with_block(kernel: LinkedView, block: Seq<u32>) -> LinkedView {
    LinkedView { raw: RawView { block, ..kernel.raw }, ..kernel }
}

/// The kernel with the block that the last of the first nodes with a dispatch requires.
pub open spec fn blocked(
    nodes: Seq<Node>,
    kernel: LinkedView,
    ids: Seq<NodeId>,
    count: nat,
    size: u32,
) -> LinkedView
    decreases count,
{
    if count == 0 {
        kernel
    } else {
        let kernel = blocked(nodes, kernel, ids, (count - 1) as nat, size);
        match nodes[ids[count - 1] as int].op.dispatch() {
            DispatchOptions::Any => kernel,
            DispatchOptions::ReqRow => with_block(kernel, seq![1, size, 1]),
            DispatchOptions::ReqCol => with_block(kernel, seq![size, 1, 1]),
        }
    }
}

/// Sets the block of a kernel to the one that the nodes it reached require.
pub fn set_block(
    graph: &Graph,
    kernel: &mut LinkedKernel,
    ids: &Vec<NodeId>,
    from: usize,
    size: u32,
)
    requires
        from <= ids@.len(),
        in_graph(ids@, graph.nodes@.len()),
    ensures
        final(kernel)@ == blocked(
            graph.nodes@,
            old(kernel)@,
            ids@.subrange(from as int, ids@.len() as int),
            (ids@.len() - from) as nat,
            size,
        ),
        final(kernel)@.params.len() == old(kernel)@.params.len(),
{
    let ghost start = kernel@;
    let ghost rest = ids@.subrange(from as int, ids@.len() as int);
    let mut i: usize = from;
    while i < ids.len()
        invariant
            from <= i <= ids@.len(),
            in_graph(ids@, graph.nodes@.len()),
            rest == ids@.subrange(from as int, ids@.len() as int),
            kernel@ == blocked(graph.nodes@, start, rest, (i - from) as nat, size),
            kernel@.params.len() == start.params.len(),
        decreases ids@.len() - i,
    {
        assert(rest[i - from] == ids@[i as int]);
        match graph.nodes[ids[i]].op.valid_dispatch() {
            DispatchOptions::Any => {},
            DispatchOptions::ReqRow => {
                kernel.raw.block = [1, size, 1];
            },
            DispatchOptions::ReqCol => {
                kernel.raw.block = [size, 1, 1];
            },
        }
        i += 1;
    }
}

/// How many of the first flags are set.
pub open spec fn marked(flags: Seq<bool>, count: nat) -> nat
    decreases count,
{
    if count == 0 {
        0
    } else {
        marked(flags, (count - 1) as nat) + if flags[count - 1] {
            1nat
        } else {
            0nat
        }
    }
}

/// One parameter for each flag that is set, numbered in order from the given one.
pub open spec fn slots(flags: Seq<bool>, first: nat) -> Seq<Option<ParamId>> {
    Seq::new(
        flags.len(),
        |n: int|
            if flags[n] {
                Some((first + marked(flags, n as nat)) as usize)
            } else {
                None
            },
    )
}

/// The slots of the second list where they are taken, and of the first elsewhere.
pub open spec fn overlay(a: Seq<Option<ParamId>>, b: Seq<Option<ParamId>>) -> Seq<
    Option<ParamId>,
> {
    Seq::new(
        a.len(),
        |n: int|
            if b[n] is Some {
                b[n]
            } else {
                a[n]
            },
    )
}

/// Parameters of numbers, numbered in order from the given one.
pub open spec fn param_run(first: nat, count: nat, ty: ParamTy) -> Seq<Param> {
    Seq::new(
        count,
        |i: int| Param { dtype: DType::Float, ty, pid: (first + i) as usize },
    )
}

/// Adds a parameter for each flag that is set.
pub fn assign_slots(
    taken: &mut Vec<Option<ParamId>>,
    flags: &Vec<bool>,
    ty: ParamTy,
    params: &mut Vec<Param>,
)
    requires
        old(taken)@.len() == flags@.len(),
        slots_fit(old(taken)@, flags@.len(), old(params)@.len()),
    ensures
        final(taken)@ == overlay(old(taken)@, slots(flags@, old(params)@.len())),
        final(params)@ == old(params)@ + param_run(
            old(params)@.len(),
            marked(flags@, flags@.len()),
            ty,
        ),
        slots_fit(final(taken)@, flags@.len(), final(params)@.len()),
{
    let ghost first = params@.len();
    let ghost before = params@;
    let ghost start = taken@;
    let mut n: usize = 0;
    while n < flags.len()
        invariant
            n <= flags@.len(),
            taken@.len() == flags@.len(),
            start.len() == flags@.len(),
            before.len() == first,
            params@ == before + param_run(first, marked(flags@, n as nat), ty),
            forall|j: int|
                0 <= j < n ==> #[trigger] taken@[j] == overlay(start, slots(flags@, first))[j],
            forall|j: int| n <= j < taken@.len() ==> #[trigger] taken@[j] == start[j],
            slots_fit(taken@, flags@.len(), params@.len()),
        decreases flags@.len() - n,
    {
        if flags[n] {
            let pid: ParamId = params.len();
            taken[n] = Some(pid);
            params.push(Param { dtype: DType::Float, ty, pid });
            assert(params@ == before + param_run(first, marked(flags@, n as nat + 1), ty));
        }
        n += 1;
    }
    assert(taken@ == overlay(start, slots(flags@, first)));
}

/// No slot taken.
pub fn no_slots(len: usize) -> (r: Vec<Option<ParamId>>)
    ensures
        r@ == Seq::new(len as nat, |n: int| None::<ParamId>),
{
    let mut r: Vec<Option<ParamId>> = Vec::new();
    let mut n: usize = 0;
    while n < len
        invariant
            n <= len,
            r@ == Seq::new(n as nat, |j: int| None::<ParamId>),
        decreases len - n,
    {
        r.push(None);
        n += 1;
    }
    r
}

/// The results that the forward pass defines.
pub open spec fn forward_flags(saved: Seq<SaveIndicator>, count: nat) -> Seq<bool> {
    Seq::new(count, |n: int| saved[n]@.defined_in_forward)
}

/// The results that the backward pass defines.
pub open spec fn backward_flags(saved: Seq<SaveIndicator>, count: nat) -> Seq<bool> {
    Seq::new(count, |n: int| saved[n]@.defined_in_backward)
}

/// The nodes that are inputs.
pub open spec fn input_flags(nodes: Seq<Node>) -> Seq<bool> {
    Seq::new(nodes.len(), |n: int| nodes[n].op is Input)
}

/// Collects the results that a pass defines.
pub fn collect_flags(saved: &[SaveIndicator], count: usize, backward: bool) -> (r: Vec<bool>)
    requires
        count <= saved@.len(),
    ensures
        r@ == if backward {
            backward_flags(saved@, count as nat)
        } else {
            forward_flags(saved@, count as nat)
        },
{
    let mut r: Vec<bool> = Vec::new();
    let mut n: usize = 0;
    while n < count
        invariant
            n <= count <= saved@.len(),
            r@ == if backward {
                backward_flags(saved@, n as nat)
            } else {
                forward_flags(saved@, n as nat)
            },
        decreases count - n,
    {
        if backward {
            r.push(saved[n].is_defined_in_backward());
        } else {
            r.push(saved[n].is_defined_in_forward());
        }
        n += 1;
        assert(r@ == if backward {
            backward_flags(saved@, n as nat)
        } else {
            forward_flags(saved@, n as nat)
        });
    }
    r
}

/// Collects the nodes that are inputs.
pub fn collect_inputs(graph: &Graph) -> (r: Vec<bool>)
    ensures
        r@ == input_flags(graph.nodes@),
{
    let mut r: Vec<bool> = Vec::new();
    let mut n: usize = 0;
    while n < graph.nodes.len()
        invariant
            n <= graph.nodes@.len(),
            r@ == input_flags(graph.nodes@.take(n as int)),
        decreases graph.nodes@.len() - n,
    {
        r.push(graph.nodes[n].op.is_input());
        n += 1;
        assert(r@ == input_flags(graph.nodes@.take(n as int)));
    }
    assert(graph.nodes@.take(n as int) == graph.nodes@);
    r
}

/// Whether a graph can be turned into kernels: it can be lowered, and every node that takes inputs
/// has a dimension, as has every input that something takes.
pub open spec fn schedulable(nodes: Seq<Node>, meta: Metadata) -> bool {
    &&& lowerable(nodes, meta.count())
    &&& forall|n: int|
        0 <= n < nodes.len() && ((#[trigger] nodes[n]).inputs@.len() > 0 || (nodes[n].op is Input
            && nodes[n].outputs@.len() > 0)) ==> nodes[n].shape@.len() >= 1
}

} // verus!
