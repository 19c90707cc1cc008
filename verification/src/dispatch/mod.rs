//! Full dispatch of math operations to a GPU.

use vstd::prelude::*;

use core::marker::PhantomData;

use crate::dispatch::backend::kernel::{Dependencies, RawKernel, Redirect};
use crate::dispatch::backend::{MetaId, NodeId, Param};
use crate::errors::Error;

pub mod backend;

pub mod binding;

pub mod bytes;

pub mod compile;

pub mod context;

pub mod launch;

pub use compile::KernelGroup;
pub use context::{
    gpu_alloc, gpu_alloc_init, AllocTensors, BatchState, Batcher, GpuContext, Schedule,
    SubmissionIndex, SyncSubmission,
};

verus! {

/// How far a device has come with what it was given.
#[derive(Debug, Clone, Copy, Hash, PartialEq, Eq, Structural)]
pub enum PollStatus {
    QueueEmpty,
    Failed,
    Pending,
    Ready,
}

/// How a graph is lowered and compiled.
#[derive(Debug, Hash, PartialEq, Eq)]
pub struct CompilationOptions<B: GpuBackend> {
    pub target: TargetCompilationOptions<B>,
    pub debug: DebugCompilationOptions,
    pub opt: OptCompilationOptions,
}

impl<B: GpuBackend> Default for CompilationOptions<B> {
    fn default() -> (r: Self)
        ensures
            call_ensures(B::target_spec, (), r.target),
            r.debug == (DebugCompilationOptions { pretty_print_ir: false }),
            r.opt == (OptCompilationOptions { tile_size: 16, opt_passes: 0, opt_level: 0 }),
    {
        Self {
            target: B::target_spec(),
            debug: DebugCompilationOptions::default(),
            opt: OptCompilationOptions::default(),
        }
    }
}

/// What a target supports.
#[derive(Debug, Hash, PartialEq, Eq)]
pub struct TargetCompilationOptions<B: GpuBackend> {
    /// Support for linear algebra accelerator (e.g. tensor cores)?
    pub lin_acc: bool,
    /// Support for asyncronous memory loads/reads?
    pub async_mem_load: bool,
    /// Support for asyncronous memory stores/writes?
    pub async_mem_store: bool,
    pub marker: PhantomData<B>,
}

impl<B: GpuBackend> TargetCompilationOptions<B> {
    #[must_use]
    pub fn new(lin_acc: bool, async_mem_load: bool, async_mem_store: bool) -> (r: Self)
        ensures
            r.lin_acc == lin_acc,
            r.async_mem_load == async_mem_load,
            r.async_mem_store == async_mem_store,
    {
        Self { lin_acc, async_mem_load, async_mem_store, marker: PhantomData }
    }
}

/// How the source of kernels is shown.
#[derive(Debug, Clone, Copy, Hash, PartialEq, Eq, Structural)]
pub struct DebugCompilationOptions {
    pub pretty_print_ir: bool,
}

impl Default for DebugCompilationOptions {
    fn default() -> (r: Self)
        ensures
            !r.pretty_print_ir,
    {
        Self { pretty_print_ir: false }
    }
}

/// How kernels are tiled and optimized.
#[derive(Debug, Clone, Copy, Hash, PartialEq, Eq, Structural)]
pub struct OptCompilationOptions {
    pub tile_size: u32,
    pub opt_passes: u8,
    pub opt_level: u8,
}

impl Default for OptCompilationOptions {
    fn default() -> (r: Self)
        ensures
            r == (OptCompilationOptions { tile_size: 16, opt_passes: 0, opt_level: 0 }),
    {
        Self { tile_size: 16, opt_passes: 0, opt_level: 0 }
    }
}

/// A buffer of a backend.
pub trait GpuBufferBackend {
    /// The number of bytes in the buffer. Nothing is known of it where a backend does not say.
    open spec fn bytes(&self) -> nat {
        arbitrary()
    }

    /// The length of the buffer in 32-bit chunks.
    fn size(&self) -> (r: u32)
        ensures
            r == (self.bytes() / 4) as u32,
    ;

    /// The length of the buffer in bytes.
    fn size_bytes(&self) -> (r: u32)
        ensures
            r == self.bytes() as u32,
    ;
}

/// A compiled kernel of a backend.
pub trait GpuKernelBackend {
    /// The dimensions that the kernel iterates over.
    fn iteration_space(&self) -> &[MetaId];

    /// The numbers of threads in a block.
    fn block(&self) -> &[u32; 3];
}

/// What compiles and runs kernels.
pub trait GpuBackend: Sized {
    type Buffer: GpuBufferBackend;

    type Kernel: GpuKernelBackend;

    type Batcher<'a>;

    type BatchState;

    type SubmissionIndex;

    type ParamLayout;

    type Schedule<'a>;

    type SyncSubmissions;

    /// Whether the backend has a device, so that its buffers are as long as they are asked to be.
    open spec fn allocates() -> bool {
        false
    }

    /// The target-specific configuration for the compiler.
    fn target_spec() -> TargetCompilationOptions<Self>;

    /// Allocates an uninitialized GPU buffer with the size `len` in bytes.
    fn alloc_buffer(&self, len: usize) -> (r: Self::Buffer)
        ensures
            Self::allocates() ==> r.bytes() == len,
    ;

    /// Allocates a slice of `u8` (to be reinterpreted as larger datatypes).
    fn alloc_init(&self, data: &[u8]) -> (r: Self::Buffer)
        ensures
            Self::allocates() ==> r.bytes() == data@.len(),
    ;

    /// Allocates a slice of `u32` on the GPU.
    ///
    /// This allocation is often small and uniform.
    fn alloc_meta(&self, data: &[u32]) -> Self::Buffer;

    /// Copies the content of a CPU buffer to a GPU buffer.
    fn upload(&self, buffer: &Self::Buffer, data: &[u8]) -> Result<Self::SubmissionIndex, Error>;

    /// Copies the content of one buffer to another.
    fn pipe(&self, src: &Self::Buffer, dst: &Self::Buffer) -> Result<Self::SubmissionIndex, Error>;

    /// Copies the content of a GPU buffer to a CPU buffer.
    fn download(&self, buffer: &Self::Buffer, out: &mut [u8]) -> Result<(), Error>;

    /// Compiles a kernel that takes the given parameters.
    fn compile(
        &self,
        src: &RawKernel,
        params: &[Param],
        options: &CompilationOptions<Self>,
    ) -> Result<Self::Kernel, Error>;

    /// Plans the launch of the kernels of a pass.
    fn schedule<'a>(
        &self,
        kernels: &'a [Dependencies<Redirect<(Self::Kernel, NodeId, &'a [bool])>>],
        bindings: &[&'a Self::Buffer],
        meta: &[u32],
    ) -> Result<Self::Schedule<'a>, Error>;

    /// Adds a launch of one kernel to a batch.
    fn dispatch_kernel(
        &self,
        batcher: &mut Self::Batcher<'_>,
        kernel: &Self::Kernel,
        wg: [u32; 3],
        bindings: &[&Self::Buffer],
    );

    /// Adds the launches of a schedule to a batch.
    fn dispatch_schedule(
        &self,
        batcher: &mut Self::Batcher<'_>,
        schedule: &Self::Schedule<'_>,
    );

    /// Waits for a submission.
    fn sync(&self, submission_index: Self::SubmissionIndex);

    fn prepare_batch(&self) -> Self::BatchState;

    fn start_batch<'a>(&self, state: &'a mut Self::BatchState) -> Self::Batcher<'a>;

    fn encode(&self, state: Self::BatchState) -> Self::SyncSubmissions;

    fn submit(&self, submission: Self::SyncSubmissions) -> Self::SubmissionIndex;

    fn poll(&self) -> PollStatus;
}

/// Generic GPU buffer for any backend.
pub struct GpuBuffer<B: GpuBackend> {
    pub inner: B::Buffer,
}

impl<B: GpuBackend> GpuBuffer<B> {
    /// Requests the length of the buffer in 32-bit chunks (`f32`, `u32`, etc.).
    pub fn size(&self) -> (r: u32)
        ensures
            r == (self.inner.bytes() / 4) as u32,
    {
        self.inner.size()
    }

    /// Requests the length of the buffer in bytes.
    pub fn size_bytes(&self) -> (r: u32)
        ensures
            r == self.inner.bytes() as u32,
    {
        self.inner.size_bytes()
    }
}

/// The length in 32-bit chunks is a quarter of the length in bytes, rounded down.
pub proof fn lemma_sizes<B: GpuBackend>(buffer: GpuBuffer<B>)
    requires
        buffer.inner.bytes() <= u32::MAX,
    ensures
        (buffer.inner.bytes() / 4) as u32 == (buffer.inner.bytes() as u32) / 4,
{
}

} // verus!
