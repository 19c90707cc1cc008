//! The kernels of all the passes.

use vstd::prelude::*;

use crate::dispatch::backend::kernel::backward::{backward_pass, lower_backward};
use crate::dispatch::backend::kernel::forward::{forward_pass, lower_forward, sinks_lower};
use crate::dispatch::backend::kernel::frame::fault;
use crate::dispatch::backend::kernel::loss::{loss_kernel, lower_loss};
use crate::dispatch::backend::kernel::plan::{schedulable, steps, KernelsChained, Step};
use crate::dispatch::backend::kernel::raw::{Kernel, KernelView, LinkedKernel, LinkedView};
use crate::dispatch::backend::kernel::save::SaveIndicator;
use crate::dispatch::backend::kernel::{Dependencies, Redirect};
use crate::dispatch::backend::sound::pass::all_finished;
use crate::dispatch::backend::{Graph, GraphOp, LossType, Metadata, Node, Param};
use crate::dispatch::{CompilationOptions, GpuBackend};
use crate::errors::{Error, ErrorKind};

verus! {

/// A kernel of a pass or the index of one that computes the same, and the roots of the kernels
/// that must come before it.
#[verifier::ext_equal]
pub struct RedirectStep {
    pub val: Redirect<LinkedView>,
    pub dep: Seq<usize>,
}

impl View for Dependencies<Redirect<LinkedKernel>> {
    type V = RedirectStep;

    open spec fn view(&self) -> RedirectStep {
        RedirectStep {
            val: match self.val {
                Redirect::Unmasked(kernel) => Redirect::Unmasked(kernel@),
                Redirect::Redirected(i) => Redirect::Redirected(i),
            },
            dep: self.dep@,
        }
    }
}

/// The contents of a list of kernels.
pub open spec fn redirect_steps(kernels: Seq<Dependencies<Redirect<LinkedKernel>>>) -> Seq<
    RedirectStep,
> {
    Seq::new(kernels.len(), |i: int| kernels[i]@)
}

/// The kernels of a pass, each computed once, and the parameters that they take.
#[derive(Debug)]
pub struct KernelsRedirected {
    pub kernels: Vec<Dependencies<Redirect<LinkedKernel>>>,
    pub params: Vec<Param>,
}

/// The contents of [`KernelsRedirected`].
#[verifier::ext_equal]
pub struct RedirectChain {
    pub steps: Seq<RedirectStep>,
    pub params: Seq<Param>,
}

impl View for KernelsRedirected {
    type V = RedirectChain;

    open spec fn view(&self) -> RedirectChain {
        RedirectChain { steps: redirect_steps(self.kernels@), params: self.params@ }
    }
}

/// Forward, backward, and loss kernel IR.
#[derive(Debug)]
pub struct KernelGroup {
    pub forward: KernelsRedirected,
    pub backward: KernelsRedirected,
    pub loss: Kernel,
}

/// The contents of a [`KernelGroup`].
pub struct GroupView {
    pub forward: RedirectChain,
    pub backward: RedirectChain,
    pub loss: KernelView,
}

impl View for KernelGroup {
    type V = GroupView;

    open spec fn view(&self) -> GroupView {
        GroupView { forward: self.forward@, backward: self.backward@, loss: self.loss@ }
    }
}

/// Whether two lists hold the same graph operations, in the same order.
pub open spec fn same_ops(a: Seq<GraphOp>, b: Seq<GraphOp>) -> bool {
    a.len() == b.len() && forall|i: int| 0 <= i < a.len() ==> #[trigger] a[i].same(b[i])
}

/// Whether two kernels compute the same graph operations from the same parameters and metadata
/// fields.
pub open spec fn same_kernel(a: LinkedView, b: LinkedView) -> bool {
    same_ops(a.ops, b.ops) && a.meta == b.meta && a.params == b.params
}

/// Whether a kernel is kept, and computes the same as the given one.
pub open spec fn is_twin(step: RedirectStep, kernel: LinkedView) -> bool {
    step.val matches Redirect::Unmasked(other) && same_kernel(kernel, other)
}

/// Whether `step` stands for a kernel after those that are done: the kernel itself if none of them
/// computes the same, and otherwise the index of the last that does.
pub open spec fn stands_for(done: Seq<RedirectStep>, kernel: LinkedView, step: RedirectStep) -> bool {
    match step.val {
        Redirect::Unmasked(kept) => kept == kernel && forall|i: int|
            0 <= i < done.len() ==> !is_twin(#[trigger] done[i], kernel),
        Redirect::Redirected(twin) => twin < done.len() && is_twin(done[twin as int], kernel)
            && forall|i: int| twin < i < done.len() ==> !is_twin(#[trigger] done[i], kernel),
    }
}

/// Whether a list of kernels has become another, where a kernel that computes the same as one
/// before it is replaced by the index of that one.
pub open spec fn eliminated(before: Seq<Step>, after: Seq<RedirectStep>) -> bool {
    &&& after.len() == before.len()
    &&& forall|i: int|
        0 <= i < after.len() ==> (#[trigger] after[i]).dep == before[i].dep && stands_for(
            after.take(i),
            before[i].kernel,
            after[i],
        )
}

/// Elimination has only one result.
pub proof fn lemma_eliminated_unique(
    before: Seq<Step>,
    a: Seq<RedirectStep>,
    b: Seq<RedirectStep>,
)
    requires
        eliminated(before, a),
        eliminated(before, b),
    ensures
        a == b,
{
    assert forall|k: int| 0 <= k <= a.len() implies #[trigger] a.take(k) == b.take(k) by {
        lemma_eliminated_prefix(before, a, b, k);
    }
    assert(a.take(a.len() as int) == a);
    assert(b.take(b.len() as int) == b);
}

/// A redirection leads to an earlier kernel, which is none itself and is the same kernel as the one
/// that is redirected.
pub proof fn lemma_redirected(before: Seq<Step>, after: Seq<RedirectStep>, i: int, j: usize)
    requires
        eliminated(before, after),
        0 <= i < after.len(),
        after[i].val == Redirect::<LinkedView>::Redirected(j),
    ensures
        j < i,
        after[j as int].val matches Redirect::Unmasked(kernel) && same_kernel(
            before[i].kernel,
            kernel,
        ),
{
    assert(stands_for(after.take(i), before[i].kernel, after[i]));
    assert(after.take(i)[j as int] == after[j as int]);
}

proof fn lemma_eliminated_prefix(
    before: Seq<Step>,
    a: Seq<RedirectStep>,
    b: Seq<RedirectStep>,
    k: int,
)
    requires
        eliminated(before, a),
        eliminated(before, b),
        0 <= k <= a.len(),
    ensures
        a.take(k) == b.take(k),
    decreases k,
{
    if k > 0 {
        lemma_eliminated_prefix(before, a, b, k - 1);
        let i = k - 1;
        let done = a.take(i);
        assert(a[i].dep == b[i].dep);
        match (a[i].val, b[i].val) {
            (Redirect::Redirected(x), Redirect::Redirected(y)) => {
                if x < y {
                    assert(is_twin(done[y as int], before[i].kernel));
                } else if y < x {
                    assert(is_twin(done[x as int], before[i].kernel));
                }
            },
            (Redirect::Unmasked(_), Redirect::Redirected(y)) => {
                assert(is_twin(done[y as int], before[i].kernel));
            },
            (Redirect::Redirected(x), Redirect::Unmasked(_)) => {
                assert(is_twin(done[x as int], before[i].kernel));
            },
            _ => {},
        }
        assert(a[i] == b[i]);
        assert(a.take(k) == a.take(i).push(a[i]));
        assert(b.take(k) == b.take(i).push(b[i]));
    }
}

fn ops_match(a: &Vec<GraphOp>, b: &Vec<GraphOp>) -> (r: bool)
    ensures
        r == same_ops(a@, b@),
{
    if a.len() != b.len() {
        return false;
    }
    let mut i: usize = 0;
    while i < a.len()
        invariant
            i <= a@.len(),
            a@.len() == b@.len(),
            forall|j: int| 0 <= j < i ==> #[trigger] a@[j].same(b@[j]),
        decreases a@.len() - i,
    {
        if !a[i].is_same(&b[i]) {
            assert(!a@[i as int].same(b@[i as int]));
            return false;
        }
        i += 1;
    }
    true
}

fn flags_match(a: &Vec<bool>, b: &Vec<bool>) -> (r: bool)
    ensures
        r == (a@ == b@),
{
    if a.len() != b.len() {
        return false;
    }
    let mut i: usize = 0;
    while i < a.len()
        invariant
            i <= a@.len(),
            a@.len() == b@.len(),
            forall|j: int| 0 <= j < i ==> a@[j] == b@[j],
        decreases a@.len() - i,
    {
        if a[i] != b[i] {
            return false;
        }
        i += 1;
    }
    assert(a@ == b@);
    true
}

fn find_twin(done: &Vec<Dependencies<Redirect<LinkedKernel>>>, kernel: &LinkedKernel) -> (r: Option<
    usize,
>)
    ensures
        match r {
            Some(twin) => twin < done@.len() && is_twin(done@[twin as int]@, kernel@)
                && forall|i: int| twin < i < done@.len() ==> !is_twin((#[trigger] done@[i])@, kernel@),
            None => forall|i: int|
                0 <= i < done@.len() ==> !is_twin((#[trigger] done@[i])@, kernel@),
        },
{
    let mut found: Option<usize> = None;
    let mut i: usize = 0;
    while i < done.len()
        invariant
            i <= done@.len(),
            match found {
                Some(twin) => twin < i && is_twin(done@[twin as int]@, kernel@) && forall|j: int|
                    twin < j < i ==> !is_twin((#[trigger] done@[j])@, kernel@),
                None => forall|j: int| 0 <= j < i ==> !is_twin((#[trigger] done@[j])@, kernel@),
            },
        decreases done@.len() - i,
    {
        if let Redirect::Unmasked(other) = &done[i].val {
            if ops_match(&kernel.ops, &other.ops) && flags_match(&kernel.meta, &other.meta)
                && flags_match(&kernel.params, &other.params) {
                found = Some(i);
            }
        }
        i += 1;
    }
    found
}

/// Keeps one of the kernels of a pass that compute the same.
pub fn eliminate_kernels(kernels: KernelsChained) -> (r: KernelsRedirected)
    ensures
        eliminated(kernels@.steps, r@.steps),
        r@.params == kernels@.params,
{
    let mut rest = kernels.kernels;
    let ghost before = steps(rest@);
    let ghost all = rest@;
    let mut reversed: Vec<Dependencies<LinkedKernel>> = Vec::new();
    while rest.len() > 0
        invariant
            rest@.len() + reversed@.len() == all.len(),
            rest@ == all.take(rest@.len() as int),
            forall|i: int|
                0 <= i < reversed@.len() ==> #[trigger] reversed@[i] == all[all.len() - 1 - i],
        decreases rest@.len(),
    {
        match rest.pop() {
            Some(kernel) => {
                reversed.push(kernel);
            },
            None => {},
        }
    }
    let mut done: Vec<Dependencies<Redirect<LinkedKernel>>> = Vec::new();
    while reversed.len() > 0
        invariant
            before == steps(all),
            done@.len() + reversed@.len() == all.len(),
            forall|i: int|
                0 <= i < reversed@.len() ==> #[trigger] reversed@[i] == all[all.len() - 1 - i],
            eliminated(before.take(done@.len() as int), redirect_steps(done@)),
        decreases reversed@.len(),
    {
        match reversed.pop() {
            Some(kernel) => {
                let ghost k = done@.len() as int;
                let ghost so_far = redirect_steps(done@);
                assert(kernel == all[k]);
                assert(before[k] == kernel@);
                let twin = find_twin(&done, &kernel.val);
                let ghost step = before[k];
                match twin {
                    None => {
                        done.push(
                            Dependencies {
                                val: Redirect::Unmasked(kernel.val),
                                dep: kernel.dep,
                            },
                        );
                    },
                    Some(twin) => {
                        done.push(
                            Dependencies { val: Redirect::Redirected(twin), dep: kernel.dep },
                        );
                    },
                }
                proof {
                    let after = redirect_steps(done@);
                    assert(after == so_far.push(done@[k]@));
                    assert(stands_for(so_far, step.kernel, after[k])) by {
                        assert forall|i: int| 0 <= i < so_far.len() implies so_far[i]
                            == #[trigger] done@[i]@ by {}
                        match twin {
                            None => {
                                assert forall|i: int| 0 <= i < so_far.len() implies !is_twin(
                                    #[trigger] so_far[i],
                                    step.kernel,
                                ) by {
                                    assert(so_far[i] == done@[i]@);
                                }
                            },
                            Some(t) => {
                                assert(so_far[t as int] == done@[t as int]@);
                                assert forall|i: int| t < i < so_far.len() implies !is_twin(
                                    #[trigger] so_far[i],
                                    step.kernel,
                                ) by {
                                    assert(so_far[i] == done@[i]@);
                                }
                            },
                        }
                    }
                    let longer = before.take(k + 1);
                    assert forall|i: int| 0 <= i < after.len() implies (
                    #[trigger] after[i]).dep == longer[i].dep && stands_for(
                        after.take(i),
                        longer[i].kernel,
                        after[i],
                    ) by {
                        if i < k {
                            assert(after.take(i) == so_far.take(i));
                            assert(after[i] == so_far[i]);
                            assert(before.take(k)[i] == longer[i]);
                        } else {
                            assert(after.take(k) == so_far);
                        }
                    }
                }
            },
            None => {},
        }
    }
    assert(before.take(done@.len() as int) == before);
    KernelsRedirected { kernels: done, params: kernels.params }
}

/// Whether a graph can be turned into the kernels of all the passes.
pub open spec fn compilable(nodes: Seq<Node>, meta: Metadata, saved: nat, tile: u32) -> bool {
    &&& schedulable(nodes, meta)
    &&& sinks_lower(nodes)
    &&& saved >= nodes.len()
    &&& tile * tile <= u32::MAX
    &&& nodes.last().shape@.len() >= 1
}

/// Whether a result of lowering a graph is the right one: an error for a graph without nodes, else
/// that of the forward pass, else that of the backward pass; and otherwise the kernels of all the
/// passes.
pub open spec fn group_result(
    nodes: Seq<Node>,
    loss: LossType,
    meta: Metadata,
    saved: Seq<SaveIndicator>,
    tile: u32,
    r: Result<KernelGroup, Error>,
) -> bool {
    if nodes.len() == 0 {
        r == Err::<KernelGroup, Error>(fault("graph empty", ErrorKind::GraphEmpty))
    } else {
        match (forward_pass(nodes, meta, saved, tile), backward_pass(nodes, meta, saved, tile)) {
            (Err(e), _) => r == Err::<KernelGroup, Error>(e),
            (Ok(_), Err(e)) => r == Err::<KernelGroup, Error>(e),
            (Ok(f), Ok(b)) => r matches Ok(group) && {
                &&& eliminated(f.steps, group@.forward.steps)
                &&& group@.forward.params == f.params
                &&& eliminated(b.steps, group@.backward.steps)
                &&& group@.backward.params == b.params
                &&& group@.loss == loss_kernel(nodes, loss, meta)
            },
        }
    }
}

/// Whether all the kernels that are kept are finished.
pub open spec fn chain_finished(chain: RedirectChain) -> bool {
    forall|i: int|
        0 <= i < chain.steps.len() ==> ((#[trigger] chain.steps[i]).val matches Redirect::Unmasked(k)
            ==> k.finished(chain.params.len()))
}

/// Whether the kernels of all the passes are finished.
pub open spec fn group_finished(group: GroupView) -> bool {
    &&& chain_finished(group.forward)
    &&& chain_finished(group.backward)
    &&& group.loss.finished()
}

/// What is kept of finished kernels is finished.
proof fn lemma_eliminated_finished(before: Seq<Step>, after: RedirectChain)
    requires
        all_finished(before, after.params.len()),
        eliminated(before, after.steps),
    ensures
        chain_finished(after),
{
    assert forall|i: int| 0 <= i < after.steps.len() implies ((
    #[trigger] after.steps[i]).val matches Redirect::Unmasked(k) ==> k.finished(
        after.params.len(),
    )) by {
        assert(stands_for(after.steps.take(i), before[i].kernel, after.steps[i]));
    }
}

impl KernelsChained {
    /// Lowers a graph into the kernels of all the passes.
    pub fn lower<B: GpuBackend>(
        graph: &Graph,
        meta: Metadata,
        saved: &[SaveIndicator],
        options: &CompilationOptions<B>,
    ) -> (r: Result<KernelGroup, Error>)
        requires
            graph.nodes@.len() > 0 ==> compilable(
                graph.nodes@,
                meta,
                saved@.len(),
                options.opt.tile_size,
            ),
        ensures
            group_result(graph.nodes@, graph.loss, meta, saved@, options.opt.tile_size, r),
            r matches Ok(group) ==> group_finished(group@),
    {
        if graph.nodes.len() == 0 {
            return Err(Error { msg: "graph empty", kind: ErrorKind::GraphEmpty, ctx: () });
        }
        let forward = match lower_forward(graph, meta, saved, options) {
            Ok(forward) => forward,
            Err(e) => {
                return Err(e);
            },
        };
        let backward = match lower_backward(graph, meta, saved, options) {
            Ok(backward) => backward,
            Err(e) => {
                return Err(e);
            },
        };
        let loss = lower_loss(graph, meta);
        let ghost forward_steps = forward@.steps;
        let ghost backward_steps = backward@.steps;
        let forward = eliminate_kernels(forward);
        let backward = eliminate_kernels(backward);
        proof {
            lemma_eliminated_finished(forward_steps, forward@);
            lemma_eliminated_finished(backward_steps, backward@);
        }
        Ok(KernelGroup { forward, backward, loss })
    }
}

} // verus!
