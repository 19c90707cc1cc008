//! What compiles graphs, holds tensors and runs kernels.

use vstd::prelude::*;

use crate::dispatch::backend::kernel::{Dependencies, Redirect, SaveIndicator};
use crate::dispatch::backend::{Graph, Node, NodeId};
use crate::dispatch::bytes::{is_bytes, slice_to_bytes, slice_to_bytes_mut};
use crate::dispatch::compile::KernelGroup;
use crate::dispatch::{GpuBackend, GpuBuffer, GpuBufferBackend, GpuKernelBackend};
use crate::errors::Error;
use crate::tensor::{
    build_dims, dims_of, gridable, is_grid, product, product_fits, product_of, shape_of, Tensor,
};

verus! {

/// Allocates a buffer on the GPU.
pub fn gpu_alloc<B: GpuBackend>(context: &B, len: usize) -> (r: GpuBuffer<B>)
    ensures
        call_ensures(B::alloc_buffer, (context, len), r.inner),
        B::allocates() ==> r.inner.bytes() == len,
{
    GpuBuffer { inner: context.alloc_buffer(len) }
}

/// Whether a buffer was allocated with the bytes of words.
pub open spec fn holds<B: GpuBackend>(context: B, words: Seq<u32>, buffer: B::Buffer) -> bool {
    exists|bytes: &[u8], little: bool|
        #[trigger] is_bytes(bytes@, words, little) && #[trigger] call_ensures(
            B::alloc_init,
            (&context, bytes),
            buffer,
        )
}

/// Allocates a buffer on the GPU and copies CPU memory into it.
pub fn gpu_alloc_init<B: GpuBackend>(context: &B, data: &[u32]) -> (r: GpuBuffer<B>)
    ensures
        holds(*context, data@, r.inner),
        B::allocates() ==> r.inner.bytes() == 4 * data@.len(),
{
    let bytes = slice_to_bytes(data);
    GpuBuffer { inner: context.alloc_init(bytes) }
}

/// Generic GPU context storing a handle to the device and shaders.
///
/// Perhaps most important structure in all of Fused GPU this is. Without it,
/// you couldn't compile kernels, execute kernels, create tensors, copy data.
pub struct GpuContext<B: GpuBackend> {
    pub inner: B,
}

/// Handle to a series of GPU submissions.
#[must_use]
pub struct SubmissionIndex<'a, B: GpuBackend>(pub B::SubmissionIndex, pub &'a GpuContext<B>);

impl<B: GpuBackend> SubmissionIndex<'_, B> {
    /// Waits for the submissions.
    pub fn sync(self)
        ensures
            call_ensures(B::sync, (&self.1.inner, self.0), ()),
    {
        self.1.inner.sync(self.0);
    }
}

/// Handle to a series of unsubmitted GPU kernels.
#[must_use]
pub struct SyncSubmission<'a, B: GpuBackend>(pub B::SyncSubmissions, pub &'a GpuContext<B>);

impl<'a, B: GpuBackend> SyncSubmission<'a, B> {
    /// Submits the kernels.
    pub fn submit(self) -> (r: SubmissionIndex<'a, B>)
        ensures
            r.1 == self.1,
            call_ensures(B::submit, (&self.1.inner, self.0), r.0),
    {
        SubmissionIndex(self.1.inner.submit(self.0), self.1)
    }
}

/// A batch of launches under construction.
#[must_use]
pub struct BatchState<'a, B: GpuBackend>(pub B::BatchState, pub &'a GpuContext<B>);

impl<'a, B: GpuBackend> BatchState<'a, B> {
    /// Ends the batch.
    pub fn encode(self) -> (r: SyncSubmission<'a, B>)
        ensures
            r.1 == self.1,
            call_ensures(B::encode, (&self.1.inner, self.0), r.0),
    {
        SyncSubmission(self.1.inner.encode(self.0), self.1)
    }
}

impl<B: GpuBackend> GpuContext<B> {
    /// Wrapping the inner context.
    pub fn new_with_context(ctx: B) -> (r: Self)
        ensures
            r.inner == ctx,
    {
        Self { inner: ctx }
    }

    /// Copies the content of a GPU buffer into a CPU buffer of 32-bit words.
    ///
    /// # Errors
    ///
    /// Failure is platform-specific and backend-dependent. It might only return an error
    /// if buffer lengths are unequal, but its behavior should not be assumed. Errors
    /// must be handled properly in critical code.
    pub fn download(&self, tensor: &Tensor<B>, dst: &mut [u32]) -> (r: Result<(), Error>)
        ensures
            final(dst)@.len() == old(dst)@.len(),
            exists|bytes: &mut [u8], little: bool|
                {
                    &&& #[trigger] is_bytes(bytes@, old(dst)@, little)
                    &&& is_bytes(final(bytes)@, final(dst)@, little)
                    &&& #[trigger] call_ensures(
                        B::download,
                        (&self.inner, &tensor.data.inner, bytes),
                        r,
                    )
                },
    {
        let bytes = slice_to_bytes_mut(dst);
        self.inner.download(&tensor.data.inner, bytes)
    }

    /// Copies the content of a CPU buffer of 32-bit words into GPU buffer.
    ///
    /// # Errors
    ///
    /// Failure is platform-specific and backend-dependent. It might only return an error
    /// if buffer lengths are unequal, but its behavior should not be assumed. Errors
    /// must be handled properly in critical code.
    pub fn upload(&self, tensor: &Tensor<B>, dst: &[u32]) -> (r: Result<
        SubmissionIndex<'_, B>,
        Error,
    >)
        ensures
            exists|bytes: &[u8], little: bool, x: Result<B::SubmissionIndex, Error>|
                {
                    &&& #[trigger] is_bytes(bytes@, dst@, little)
                    &&& #[trigger] call_ensures(
                        B::upload,
                        (&self.inner, &tensor.data.inner, bytes),
                        x,
                    )
                    &&& handed_on(self, x, r)
                },
    {
        let bytes = slice_to_bytes(dst);
        let x = self.inner.upload(&tensor.data.inner, bytes);
        let ghost given = x;
        let r = match x {
            Ok(x) => Ok(SubmissionIndex(x, self)),
            Err(e) => Err(e),
        };
        assert(handed_on(self, given, r));
        r
    }

    /// Copies the content of one buffer to another without mutating the source.
    ///
    /// This is faster than chaining [`Self::download`] into [`Self::upload`] because it
    /// bypasses CPU memory.
    ///
    /// # Errors
    ///
    /// Failure is platform-specific and backend-dependent. It might only return an error
    /// if buffer lengths are unequal, but its behavior should not be assumed. Errors
    /// must be handled properly in critical code.
    pub fn pipe(&self, src: &Tensor<B>, dst: &Tensor<B>) -> (r: Result<
        SubmissionIndex<'_, B>,
        Error,
    >)
        ensures
            exists|x: Result<B::SubmissionIndex, Error>|
                {
                    &&& #[trigger] call_ensures(
                        B::pipe,
                        (&self.inner, &src.data.inner, &dst.data.inner),
                        x,
                    )
                    &&& handed_on(self, x, r)
                },
    {
        let x = self.inner.pipe(&src.data.inner, &dst.data.inner);
        let ghost given = x;
        let r = match x {
            Ok(x) => Ok(SubmissionIndex(x, self)),
            Err(e) => Err(e),
        };
        assert(handed_on(self, given, r));
        r
    }

    /// Begins to prepare a batch of launches.
    pub fn prepare_batch(&self) -> (r: BatchState<'_, B>)
        ensures
            r.1 == self,
            call_ensures(B::prepare_batch, (&self.inner,), r.0),
    {
        BatchState(self.inner.prepare_batch(), self)
    }

    /// Begins to add launches to a batch.
    pub fn start_batch<'a>(&'a self, state: &'a mut BatchState<'_, B>) -> (r: Batcher<'a, B>)
        ensures
            r.1 == self,
            final(state).1 == old(state).1,
            exists|s: &'a mut B::BatchState|
                {
                    &&& *s == old(state).0
                    &&& *final(s) == final(state).0
                    &&& #[trigger] call_ensures(B::start_batch, (&self.inner, s), r.0)
                },
    {
        let batcher = self.inner.start_batch(&mut state.0);
        let ghost given = batcher;
        let r = Batcher(batcher, self);
        assert(r.0 == given);
        r
    }

    /// Allocates a tensor of the given dimensions.
    pub fn new_tensor(&self, shape: &[u32]) -> (r: Tensor<B>)
        requires
            allocatable(shape@),
        ensures
            allocated(self.inner, shape@, r),
            B::allocates() ==> r.words() == product(shape@, shape@.len()),
    {
        let len: u32 = product_of(shape, shape.len());
        let data = self.inner.alloc_buffer(4 * (len as usize));
        Tensor { shape: Some(vstd::slice::slice_to_vec(shape)), data: GpuBuffer { inner: data } }
    }

    /// Allocates a tensor of the given dimensions and copies numbers into it, each as the 32 bits
    /// of its representation.
    pub fn new_tensor_init(&self, shape: &[u32], data: &[u32]) -> (r: Tensor<B>)
        requires
            product_fits(shape@, shape@.len()),
            product(shape@, shape@.len()) == data@.len(),
        ensures
            shape_of(r.shape) == Some(shape@),
            holds(self.inner, data@, r.data.inner),
            B::allocates() ==> r.words() == product(shape@, shape@.len()),
    {
        let data = gpu_alloc_init(&self.inner, data);
        Tensor { shape: Some(vstd::slice::slice_to_vec(shape)), data }
    }

    /// Allocates an empty one-hot vector.
    pub fn new_onehot(&self, classes: u32) -> (r: Tensor<B>)
        requires
            4 * classes <= usize::MAX,
        ensures
            allocated(self.inner, seq![classes], r),
            B::allocates() ==> r.words() == classes,
    {
        proof {
            reveal_with_fuel(product, 2);
        }
        let data = gpu_alloc(&self.inner, 4 * (classes as usize));
        let shape: Vec<u32> = vec![classes];
        assert(shape@ == seq![classes]);
        Tensor { shape: Some(shape), data }
    }

    /// Allocates a new one-hot vector with the defined classes.
    pub fn new_onehot_init(&self, indices: &[u32]) -> (r: Tensor<B>)
        ensures
            shape_of(r.shape) == Some(seq![indices@.len() as u32]),
            holds(self.inner, indices@, r.data.inner),
            B::allocates() ==> r.words() == indices@.len(),
    {
        let data = gpu_alloc_init(&self.inner, indices);
        let shape: Vec<u32> = vec![indices.len() as u32];
        assert(shape@ == seq![indices@.len() as u32]);
        Tensor { shape: Some(shape), data }
    }
}

/// Whether the bytes of a tensor of the given dimensions can be counted.
pub open spec fn allocatable(shape: Seq<u32>) -> bool {
    product_fits(shape, shape.len()) && 4 * product(shape, shape.len()) <= usize::MAX
}

/// Whether a tensor has the given dimensions, and a buffer with four bytes for each element.
pub open spec fn allocated<B: GpuBackend>(context: B, shape: Seq<u32>, t: Tensor<B>) -> bool {
    &&& shape_of(t.shape) == Some(shape)
    &&& call_ensures(
        B::alloc_buffer,
        (&context, (4 * product(shape, shape.len())) as usize),
        t.data.inner,
    )
}

/// The length of a tensor that a context has allocated is the product of its dimensions.
pub proof fn lemma_allocated_len<B: GpuBackend>(context: B, shape: Seq<u32>, t: Tensor<B>)
    requires
        B::allocates(),
        allocatable(shape),
        allocated(context, shape, t),
    ensures
        t.words() == product(shape, shape.len()),
        t.words() as u32 == product(shape, shape.len()),
{
}

/// The tensors that the passes of a graph need besides its inputs.
pub struct AllocTensors<B: GpuBackend> {
    pub meta: B::Buffer,
    pub forward_saved: Vec<Tensor<B>>,
    pub grad_tensors: Vec<Tensor<B>>,
    pub forward_out: Tensor<B>,
    pub loss_t: Tensor<B>,
    pub seed: Tensor<B>,
}

/// The nodes among the first whose results one of the passes saves.
pub open spec fn saved_by(saved: Seq<SaveIndicator>, backward: bool, n: nat) -> Seq<int>
    decreases n,
{
    if n == 0 {
        Seq::empty()
    } else {
        let before = saved_by(saved, backward, (n - 1) as nat);
        let s = saved[n - 1]@;
        if if backward {
            s.defined_in_backward
        } else {
            s.defined_in_forward
        } {
            before.push(n - 1)
        } else {
            before
        }
    }
}

/// Whether the metadata gives all the dimensions of a node, and its result can be allocated if that
/// is asked for.
pub open spec fn sized(nodes: Seq<Node>, meta: Seq<u32>, n: int, stored: bool) -> bool {
    &&& forall|i: int| 0 <= i < nodes[n].shape@.len() ==> #[trigger] nodes[n].shape@[i] < meta.len()
    &&& stored ==> allocatable(dims_of(nodes[n].shape@, meta))
}

/// Whether one of the passes saves the result of a node.
pub open spec fn is_stored(save: SaveIndicator) -> bool {
    save@.defined_in_forward || save@.defined_in_backward
}

/// Whether tensors have the dimensions of nodes.
pub open spec fn allocated_for<B: GpuBackend>(
    context: B,
    nodes: Seq<Node>,
    meta: Seq<u32>,
    ids: Seq<int>,
    tensors: Seq<Tensor<B>>,
) -> bool {
    &&& tensors.len() == ids.len()
    &&& forall|i: int|
        0 <= i < tensors.len() ==> allocated(
            context,
            dims_of(nodes[ids[i]].shape@, meta),
            #[trigger] tensors[i],
        )
}

impl<B: GpuBackend> GpuContext<B> {
    /// Allocates the tensors that the passes of a graph need besides its inputs: the results that
    /// are saved, and the output, the loss and the first gradient, all of which have the dimensions
    /// of the last node.
    pub fn alloc_tensors(&self, graph: &Graph, saved: &[SaveIndicator], meta: &[u32]) -> (r:
        AllocTensors<B>)
        requires
            graph.nodes@.len() > 0,
            saved@.len() <= graph.nodes@.len(),
            forall|n: int|
                0 <= n < saved@.len() ==> sized(
                    graph.nodes@,
                    meta@,
                    n,
                    is_stored(#[trigger] saved@[n]),
                ),
            sized(graph.nodes@, meta@, graph.nodes@.len() - 1, true),
        ensures
            allocated_for(
                self.inner,
                graph.nodes@,
                meta@,
                saved_by(saved@, false, saved@.len()),
                r.forward_saved@,
            ),
            allocated_for(
                self.inner,
                graph.nodes@,
                meta@,
                saved_by(saved@, true, saved@.len()),
                r.grad_tensors@,
            ),
            call_ensures(B::alloc_meta, (&self.inner, meta), r.meta),
            allocated(
                self.inner,
                dims_of(graph.nodes@.last().shape@, meta@),
                r.forward_out,
            ),
            allocated(self.inner, dims_of(graph.nodes@.last().shape@, meta@), r.loss_t),
            allocated(self.inner, dims_of(graph.nodes@.last().shape@, meta@), r.seed),
    {
        let mut forward_saved: Vec<Tensor<B>> = Vec::new();
        let mut grad_tensors: Vec<Tensor<B>> = Vec::new();
        let mut n: usize = 0;
        while n < saved.len()
            invariant
                n <= saved@.len(),
                saved@.len() <= graph.nodes@.len(),
                forall|n: int|
                    0 <= n < saved@.len() ==> sized(
                        graph.nodes@,
                        meta@,
                        n,
                        is_stored(#[trigger] saved@[n]),
                    ),
                allocated_for(
                    self.inner,
                    graph.nodes@,
                    meta@,
                    saved_by(saved@, false, n as nat),
                    forward_saved@,
                ),
                allocated_for(
                    self.inner,
                    graph.nodes@,
                    meta@,
                    saved_by(saved@, true, n as nat),
                    grad_tensors@,
                ),
            decreases saved@.len() - n,
        {
            let save = saved[n];
            assert(saved@[n as int] == save);
            let num_shape = build_dims(graph.nodes[n].shape.as_slice(), meta);
            if save.is_defined_in_forward() {
                forward_saved.push(self.new_tensor(num_shape.as_slice()));
            }
            if save.is_defined_in_backward() {
                grad_tensors.push(self.new_tensor(num_shape.as_slice()));
            }
            n += 1;
        }
        let meta_buffer = self.inner.alloc_meta(meta);
        let node = &graph.nodes[graph.nodes.len() - 1];
        let shape = build_dims(node.shape.as_slice(), meta);
        let forward_out = self.new_tensor(shape.as_slice());
        let loss_t = self.new_tensor(shape.as_slice());
        let seed = self.new_tensor(shape.as_slice());
        AllocTensors { meta: meta_buffer, forward_saved, grad_tensors, forward_out, loss_t, seed }
    }
}

/// Adds launches to a batch.
#[must_use]
pub struct Batcher<'a, B: GpuBackend>(pub B::Batcher<'a>, pub &'a GpuContext<B>);

/// Schedule used to improve performance by caching critical launch information.
pub struct Schedule<'a, B: GpuBackend> {
    pub forward: B::Schedule<'a>,
    pub backward: B::Schedule<'a>,
}

impl<'a, B: GpuBackend> Batcher<'a, B> {
    /// Adds the launches of the forward pass.
    pub fn dispatch_forward(&mut self, schedule: &Schedule<'_, B>)
        ensures
            final(self).1 == old(self).1,
            exists|b: &mut B::Batcher<'a>|
                {
                    &&& *b == old(self).0
                    &&& *final(b) == final(self).0
                    &&& #[trigger] call_ensures(
                        B::dispatch_schedule,
                        (&old(self).1.inner, b, &schedule.forward),
                        (),
                    )
                },
    {
        self.1.inner.dispatch_schedule(&mut self.0, &schedule.forward);
    }

    /// Adds the launches of the backward pass.
    pub fn dispatch_backward(&mut self, schedule: &Schedule<'_, B>)
        ensures
            final(self).1 == old(self).1,
            exists|b: &mut B::Batcher<'a>|
                {
                    &&& *b == old(self).0
                    &&& *final(b) == final(self).0
                    &&& #[trigger] call_ensures(
                        B::dispatch_schedule,
                        (&old(self).1.inner, b, &schedule.backward),
                        (),
                    )
                },
    {
        self.1.inner.dispatch_schedule(&mut self.0, &schedule.backward);
    }

    /// Adds the launch of the loss, which takes the output and a target, and computes the loss and
    /// the first gradient.
    pub fn launch_loss(
        &mut self,
        kernels: &KernelGroup<'_, B>,
        target: &Tensor<B>,
        tensors: &AllocTensors<B>,
    )
        requires
            forall|block: &[u32; 3]|
                #![trigger call_ensures(B::Kernel::block, (&kernels.loss,), block)]
                call_ensures(B::Kernel::block, (&kernels.loss,), block) ==> (shape_of(
                    tensors.loss_t.shape,
                ) matches Some(shape) ==> gridable(shape, *block)),
        ensures
            final(self).1 == old(self).1,
            exists|b: &mut B::Batcher<'a>, block: &[u32; 3], grid: [u32; 3], bindings: &[&B::Buffer]|
                {
                    &&& *b == old(self).0
                    &&& *final(b) == final(self).0
                    &&& #[trigger] call_ensures(B::Kernel::block, (&kernels.loss,), block)
                    &&& match shape_of(tensors.loss_t.shape) {
                        Some(shape) => is_grid(shape, *block, grid),
                        None => grid@ == seq![0u32, 0, 0],
                    }
                    &&& bindings@ == seq![
                        &tensors.meta,
                        &tensors.loss_t.data.inner,
                        &tensors.seed.data.inner,
                        &tensors.forward_out.data.inner,
                        &target.data.inner,
                    ]
                    &&& #[trigger] call_ensures(
                        B::dispatch_kernel,
                        (&old(self).1.inner, b, &kernels.loss, grid, bindings),
                        (),
                    )
                },
    {
        let block = kernels.loss.block();
        let grid: [u32; 3] = tensors.loss_t.calc_grid(*block);
        let mut bindings: Vec<&B::Buffer> = Vec::new();
        bindings.push(&tensors.meta);
        bindings.push(&tensors.loss_t.data.inner);
        bindings.push(&tensors.seed.data.inner);
        bindings.push(&tensors.forward_out.data.inner);
        bindings.push(&target.data.inner);
        self.1.inner.dispatch_kernel(&mut self.0, &kernels.loss, grid, bindings.as_slice());
    }
}

/// The buffers of tensors.
pub open spec fn buffers<'a, B: GpuBackend>(tensors: Seq<Tensor<B>>) -> Seq<&'a B::Buffer> {
    Seq::new(tensors.len(), |i: int| &tensors[i].data.inner)
}

/// The buffers of the forward pass: the metadata, the saved results, the inputs and the output.
pub open spec fn forward_bindings<'a, B: GpuBackend>(
    ins: Seq<Tensor<B>>,
    tensors: AllocTensors<B>,
) -> Seq<&'a B::Buffer> {
    seq![&tensors.meta] + buffers(tensors.forward_saved@) + buffers(ins) + seq![
        &tensors.forward_out.data.inner,
    ]
}

/// The buffers of the backward pass: the metadata, the first gradient, the saved gradients, the
/// inputs and the saved results.
pub open spec fn backward_bindings<'a, B: GpuBackend>(
    ins: Seq<Tensor<B>>,
    tensors: AllocTensors<B>,
) -> Seq<&'a B::Buffer> {
    seq![&tensors.meta, &tensors.seed.data.inner] + buffers(tensors.grad_tensors@) + buffers(ins)
        + buffers(tensors.forward_saved@)
}

fn push_buffers<'a, B: GpuBackend>(bindings: &mut Vec<&'a B::Buffer>, tensors: &'a [Tensor<B>])
    ensures
        final(bindings)@ == old(bindings)@ + buffers(tensors@),
{
    let mut i: usize = 0;
    while i < tensors.len()
        invariant
            i <= tensors@.len(),
            bindings@ =~= old(bindings)@ + buffers(tensors@).take(i as int),
        decreases tensors@.len() - i,
    {
        bindings.push(&tensors[i].data.inner);
        i += 1;
    }
}

/// Whether a result is one that the backend gives for the schedule of a pass.
pub open spec fn planned<'a, B: GpuBackend>(
    context: GpuContext<B>,
    kernels: Seq<Dependencies<Redirect<(B::Kernel, NodeId, &'a [bool])>>>,
    bindings: Seq<&'a B::Buffer>,
    meta: &[u32],
    given: Result<B::Schedule<'a>, Error>,
) -> bool {
    exists|k: &'a [Dependencies<Redirect<(B::Kernel, NodeId, &'a [bool])>>], b: &[&'a B::Buffer]|
        {
            &&& k@ == kernels
            &&& b@ == bindings
            &&& #[trigger] call_ensures(B::schedule, (&context.inner, k, b, meta), given)
        }
}

impl<B: GpuBackend> GpuContext<B> {
    /// Plans the launch of the forward and the backward pass.
    ///
    /// # Errors
    ///
    /// Fails where the backend cannot plan one of the passes.
    pub fn schedule<'a>(
        &self,
        kernels: &'a KernelGroup<'a, B>,
        meta: &[u32],
        in_tensors: &'a [Tensor<B>],
        alloc_tensors: &'a AllocTensors<B>,
    ) -> (r: Result<Schedule<'a, B>, Error>)
        ensures
            match r {
                Ok(schedule) => {
                    &&& planned(
                        *self,
                        kernels.forward@,
                        forward_bindings(in_tensors@, *alloc_tensors),
                        meta,
                        Ok(schedule.forward),
                    )
                    &&& planned(
                        *self,
                        kernels.backward@,
                        backward_bindings(in_tensors@, *alloc_tensors),
                        meta,
                        Ok(schedule.backward),
                    )
                },
                Err(e) => {
                    ||| planned(
                        *self,
                        kernels.forward@,
                        forward_bindings(in_tensors@, *alloc_tensors),
                        meta,
                        Err(e),
                    )
                    ||| {
                        &&& exists|forward: B::Schedule<'a>| #[trigger]
                            planned(
                                *self,
                                kernels.forward@,
                                forward_bindings(in_tensors@, *alloc_tensors),
                                meta,
                                Ok(forward),
                            )
                        &&& planned(
                            *self,
                            kernels.backward@,
                            backward_bindings(in_tensors@, *alloc_tensors),
                            meta,
                            Err(e),
                        )
                    }
                },
            },
    {
        let mut bindings: Vec<&'a B::Buffer> = Vec::new();
        bindings.push(&alloc_tensors.meta);
        push_buffers(&mut bindings, alloc_tensors.forward_saved.as_slice());
        push_buffers(&mut bindings, in_tensors);
        bindings.push(&alloc_tensors.forward_out.data.inner);
        assert(bindings@ =~= forward_bindings(in_tensors@, *alloc_tensors));
        let given = self.inner.schedule(kernels.forward.as_slice(), bindings.as_slice(), meta);
        assert(planned(
            *self,
            kernels.forward@,
            forward_bindings(in_tensors@, *alloc_tensors),
            meta,
            given,
        ));
        let forward = match given {
            Ok(forward) => forward,
            Err(e) => {
                return Err(e);
            },
        };
        bindings.truncate(1);
        bindings.push(&alloc_tensors.seed.data.inner);
        push_buffers(&mut bindings, alloc_tensors.grad_tensors.as_slice());
        push_buffers(&mut bindings, in_tensors);
        push_buffers(&mut bindings, alloc_tensors.forward_saved.as_slice());
        assert(bindings@ =~= backward_bindings(in_tensors@, *alloc_tensors));
        let given = self.inner.schedule(kernels.backward.as_slice(), bindings.as_slice(), meta);
        assert(planned(
            *self,
            kernels.backward@,
            backward_bindings(in_tensors@, *alloc_tensors),
            meta,
            given,
        ));
        match given {
            Ok(backward) => Ok(Schedule { forward, backward }),
            Err(e) => Err(e),
        }
    }
}

/// Whether a result is what the backend gave, with the context it came from.
pub open spec fn handed_on<'a, B: GpuBackend>(
    context: &'a GpuContext<B>,
    given: Result<B::SubmissionIndex, Error>,
    r: Result<SubmissionIndex<'a, B>, Error>,
) -> bool {
    match given {
        Ok(x) => r == Ok::<SubmissionIndex<'a, B>, Error>(SubmissionIndex(x, context)),
        Err(e) => r == Err::<SubmissionIndex<'a, B>, Error>(e),
    }
}

} // verus!
