//! Compiling the kernels of a graph, and planning their launch.

use vstd::prelude::*;

use crate::dispatch::backend::kernel::group::chain_finished;
use crate::dispatch::backend::kernel::{
    self, Dependencies, KernelsRedirected, Redirect,
};
use crate::dispatch::backend::{NodeId, Param};
use crate::dispatch::context::GpuContext;
use crate::dispatch::{CompilationOptions, GpuBackend};
use crate::errors::Error;

verus! {

/// A group of compiled kernels including all required metadata.
///
/// It includes the kernels of the forward, backward, and loss passes, the order
/// in which to execute them, and the parameters they use.
pub struct KernelGroup<'a, B: GpuBackend> {
    pub forward: Vec<Dependencies<Redirect<(B::Kernel, NodeId, &'a [bool])>>>,
    pub backward: Vec<Dependencies<Redirect<(B::Kernel, NodeId, &'a [bool])>>>,
    pub loss: B::Kernel,
}

/// The parameters that are marked, of the first ones.
pub open spec fn taken(params: Seq<Param>, flags: Seq<bool>, n: nat) -> Seq<Param>
    decreases n,
{
    if n == 0 {
        Seq::empty()
    } else if flags[n - 1] {
        taken(params, flags, (n - 1) as nat).push(params[n - 1])
    } else {
        taken(params, flags, (n - 1) as nat)
    }
}

fn taken_params(params: &Vec<Param>, flags: &Vec<bool>) -> (r: Vec<Param>)
    requires
        flags@.len() >= params@.len(),
    ensures
        r@ == taken(params@, flags@, params@.len()),
{
    let mut r: Vec<Param> = Vec::new();
    let mut i: usize = 0;
    while i < params.len()
        invariant
            i <= params@.len(),
            flags@.len() >= params@.len(),
            r@ == taken(params@, flags@, i as nat),
        decreases params@.len() - i,
    {
        if flags[i] {
            r.push(params[i]);
        }
        i += 1;
    }
    r
}

/// Whether a result is one that the backend gives for a kernel that takes the given parameters.
pub open spec fn gave<B: GpuBackend>(
    context: GpuContext<B>,
    src: kernel::RawKernel,
    params: Seq<Param>,
    options: CompilationOptions<B>,
    given: Result<B::Kernel, Error>,
) -> bool {
    exists|p: &[Param]|
        p@ == params && #[trigger] call_ensures(B::compile, (&context.inner, &src, p, &options), given)
}

/// Whether a kernel is marked for each parameter.
pub open spec fn linked(ir: KernelsRedirected) -> bool {
    forall|n: int|
        0 <= n < ir.kernels@.len() ==> ((#[trigger] ir.kernels@[n]).val matches Redirect::Unmasked(k)
            ==> k.params@.len() >= ir.params@.len())
}

/// The kernels that a graph is lowered to are marked for each parameter, so that they can be
/// compiled.
pub proof fn lemma_finished_linked(ir: KernelsRedirected)
    requires
        chain_finished(ir@),
    ensures
        linked(ir),
{
    assert forall|n: int| 0 <= n < ir.kernels@.len() implies ((
    #[trigger] ir.kernels@[n]).val matches Redirect::Unmasked(k) ==> k.params@.len()
        >= ir.params@.len()) by {
        assert(ir@.steps[n] == ir.kernels@[n]@);
    }
}

/// Whether one kernel of a pass is compiled: it depends on what it depended on; a redirection
/// stays; and otherwise the backend gave the kernel for the parameters that are marked.
pub open spec fn is_compiled<'a, B: GpuBackend>(
    context: GpuContext<B>,
    ir: KernelsRedirected,
    options: CompilationOptions<B>,
    n: int,
    r: Dependencies<Redirect<(B::Kernel, NodeId, &'a [bool])>>,
) -> bool {
    &&& r.dep@ == ir.kernels@[n].dep@
    &&& match (ir.kernels@[n].val, r.val) {
        (Redirect::Redirected(i), Redirect::Redirected(j)) => i == j,
        (Redirect::Unmasked(k), Redirect::Unmasked((c, root, flags))) => {
            &&& root == k.raw.root
            &&& flags@ == k.params@
            &&& gave(
                context,
                k.raw,
                taken(ir.params@, k.params@, ir.params@.len()),
                options,
                Ok(c),
            )
        },
        _ => false,
    }
}

/// Whether the first kernels of a pass are compiled.
pub open spec fn all_compiled<'a, B: GpuBackend>(
    context: GpuContext<B>,
    ir: KernelsRedirected,
    options: CompilationOptions<B>,
    r: Seq<Dependencies<Redirect<(B::Kernel, NodeId, &'a [bool])>>>,
) -> bool {
    &&& r.len() <= ir.kernels@.len()
    &&& forall|n: int|
        0 <= n < r.len() ==> is_compiled(context, ir, options, n, #[trigger] r[n])
}

/// Whether the backend gave all the kernels of a pass.
pub open spec fn accepted<'a, B: GpuBackend>(
    context: GpuContext<B>,
    ir: KernelsRedirected,
    options: CompilationOptions<B>,
) -> bool {
    exists|r: Seq<Dependencies<Redirect<(B::Kernel, NodeId, &'a [bool])>>>|
        {
            &&& #[trigger] all_compiled(context, ir, options, r)
            &&& r.len() == ir.kernels@.len()
        }
}

/// Whether the backend refused a kernel of a pass after it gave all the ones before it.
pub open spec fn refused<'a, B: GpuBackend>(
    context: GpuContext<B>,
    ir: KernelsRedirected,
    options: CompilationOptions<B>,
    e: Error,
) -> bool {
    exists|r: Seq<Dependencies<Redirect<(B::Kernel, NodeId, &'a [bool])>>>|
        {
            &&& #[trigger] all_compiled(context, ir, options, r)
            &&& r.len() < ir.kernels@.len()
            &&& ir.kernels@[r.len() as int].val matches Redirect::Unmasked(k) && gave(
                context,
                k.raw,
                taken(ir.params@, k.params@, ir.params@.len()),
                options,
                Err(e),
            )
        }
}

impl<B: GpuBackend> GpuContext<B> {
    fn compile_kernel(
        &self,
        src: &kernel::RawKernel,
        params: &Vec<Param>,
        options: &CompilationOptions<B>,
    ) -> (r: Result<B::Kernel, Error>)
        ensures
            gave(*self, *src, params@, *options, r),
    {
        self.inner.compile(src, params.as_slice(), options)
    }

    #[verifier::loop_isolation(false)]
    fn compile_pass<'a>(
        &self,
        ir: &'a KernelsRedirected,
        options: &CompilationOptions<B>,
    ) -> (r: Result<Vec<Dependencies<Redirect<(B::Kernel, NodeId, &'a [bool])>>>, Error>)
        requires
            linked(*ir),
        ensures
            match r {
                Ok(kernels) => {
                    &&& kernels@.len() == ir.kernels@.len()
                    &&& all_compiled(*self, *ir, *options, kernels@)
                },
                Err(e) => refused(*self, *ir, *options, e),
            },
    {
        let mut r: Vec<Dependencies<Redirect<(B::Kernel, NodeId, &'a [bool])>>> = Vec::new();
        let mut n: usize = 0;
        while n < ir.kernels.len()
            invariant
                n <= ir.kernels@.len(),
                linked(*ir),
                r@.len() == n,
                all_compiled(*self, *ir, *options, r@),
            decreases ir.kernels@.len() - n,
        {
            let step = &ir.kernels[n];
            assert(ir.kernels@[n as int] == *step);
            let val: Redirect<(B::Kernel, NodeId, &'a [bool])> = match &step.val {
                Redirect::Redirected(i) => Redirect::Redirected(*i),
                Redirect::Unmasked(kernel) => {
                    let params = taken_params(&ir.params, &kernel.params);
                    match self.compile_kernel(&kernel.raw, &params, options) {
                        Ok(compiled) => {
                            let root: NodeId = kernel.raw.root;
                            Redirect::Unmasked((compiled, root, kernel.params.as_slice()))
                        },
                        Err(e) => {
                            return Err(e);
                        },
                    }
                },
            };
            let ghost before = r@;
            r.push(Dependencies { val, dep: step.dep.clone() });
            n += 1;
            assert forall|m: int| 0 <= m < r@.len() implies is_compiled(
                *self,
                *ir,
                *options,
                m,
                #[trigger] r@[m],
            ) by {
                if m < before.len() {
                    assert(r@[m] == before[m]);
                }
            }
        }
        Ok(r)
    }

    /// Compiles the kernels of a graph.
    ///
    /// # Errors
    ///
    /// Failure is platform-specific and backend-dependent but often a result of invalid input.
    /// Regardless, errors must be handled properly in critical code.
    pub fn compile<'a>(
        &self,
        ir: &'a kernel::KernelGroup,
        options: &CompilationOptions<B>,
    ) -> (r: Result<KernelGroup<'a, B>, Error>)
        requires
            linked(ir.forward),
            linked(ir.backward),
        ensures
            match r {
                Ok(group) => {
                    &&& group.forward@.len() == ir.forward.kernels@.len()
                    &&& all_compiled(*self, ir.forward, *options, group.forward@)
                    &&& group.backward@.len() == ir.backward.kernels@.len()
                    &&& all_compiled(*self, ir.backward, *options, group.backward@)
                    &&& gave(*self, ir.loss.raw, ir.loss.params@, *options, Ok(group.loss))
                },
                Err(e) => {
                    ||| refused(*self, ir.forward, *options, e)
                    ||| {
                        &&& accepted(*self, ir.forward, *options)
                        &&& refused(*self, ir.backward, *options, e)
                    }
                    ||| {
                        &&& accepted(*self, ir.forward, *options)
                        &&& accepted(*self, ir.backward, *options)
                        &&& gave(*self, ir.loss.raw, ir.loss.params@, *options, Err(e))
                    }
                },
            },
    {
        let forward = match self.compile_pass(&ir.forward, options) {
            Ok(forward) => forward,
            Err(e) => {
                return Err(e);
            },
        };
        let backward = match self.compile_pass(&ir.backward, options) {
            Ok(backward) => backward,
            Err(e) => {
                return Err(e);
            },
        };
        match self.compile_kernel(&ir.loss.raw, &ir.loss.params, options) {
            Ok(loss) => Ok(KernelGroup { forward, backward, loss }),
            Err(e) => Err(e),
        }
    }
}

} // verus!
