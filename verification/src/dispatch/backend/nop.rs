//! A backend that does nothing, for builds without a device.

use vstd::prelude::*;

use core::marker::PhantomData;

use crate::dispatch::backend::kernel::{Dependencies, RawKernel, Redirect};
use crate::dispatch::backend::{MetaId, NodeId, Param};
use crate::dispatch::{
    CompilationOptions, GpuBackend, GpuBufferBackend, GpuKernelBackend, PollStatus,
    TargetCompilationOptions,
};
use crate::errors::{Error, ErrorKind};

verus! {

/// A buffer that holds nothing.
#[derive(Debug, Clone, Copy)]
pub struct NopGpuBuffer;

impl GpuBufferBackend for NopGpuBuffer {
    open spec fn bytes(&self) -> nat {
        0
    }

    fn size(&self) -> (r: u32)
        ensures
            r == 0,
    {
        0
    }

    fn size_bytes(&self) -> (r: u32)
        ensures
            r == 0,
    {
        0
    }
}

/// A kernel that computes nothing.
#[derive(Debug, Clone, Copy)]
pub struct NopGpuKernel;

impl GpuKernelBackend for NopGpuKernel {
    fn iteration_space(&self) -> (r: &[MetaId])
        ensures
            r@ == Seq::<MetaId>::empty(),
    {
        let r: &[MetaId; 0] = &[];
        assert(r@ == Seq::<MetaId>::empty());
        r
    }

    fn block(&self) -> (r: &[u32; 3])
        ensures
            r@ == seq![0u32, 0, 0],
    {
        let r: &[u32; 3] = &[0, 0, 0];
        assert(r@ == seq![0u32, 0, 0]);
        r
    }
}

/// The context of the backend that does nothing.
#[derive(Debug, Clone, Copy)]
pub struct NopGpuContext;

/// The error of whatever the backend would have to do.
pub open spec fn nop_error() -> Error {
    Error { msg: "using nop backend", kind: ErrorKind::UnsupportedFeature, ctx: () }
}

fn refuse() -> (r: Error)
    ensures
        r == nop_error(),
{
    Error { msg: "using nop backend", kind: ErrorKind::UnsupportedFeature, ctx: () }
}

impl NopGpuContext {
    /// There is no device to find.
    ///
    /// # Errors
    ///
    /// Always fails.
    pub fn new() -> (r: Result<Self, Error>)
        ensures
            r == Err::<Self, Error>(nop_error()),
    {
        Err(refuse())
    }
}

impl GpuBackend for NopGpuContext {
    type Buffer = NopGpuBuffer;

    type Kernel = NopGpuKernel;

    type Batcher<'a> = ();

    type BatchState = ();

    type SubmissionIndex = ();

    type ParamLayout = ();

    type Schedule<'a> = ();

    type SyncSubmissions = ();

    open spec fn allocates() -> bool {
        false
    }

    fn target_spec() -> (r: TargetCompilationOptions<Self>)
        ensures
            !r.lin_acc && !r.async_mem_load && !r.async_mem_store,
    {
        TargetCompilationOptions {
            lin_acc: false,
            async_mem_load: false,
            async_mem_store: false,
            marker: PhantomData,
        }
    }

    fn alloc_buffer(&self, _len: usize) -> Self::Buffer {
        NopGpuBuffer
    }

    fn alloc_init(&self, _data: &[u8]) -> Self::Buffer {
        NopGpuBuffer
    }

    fn alloc_meta(&self, _data: &[u32]) -> Self::Buffer {
        NopGpuBuffer
    }

    fn upload(&self, _buffer: &Self::Buffer, _data: &[u8]) -> (r: Result<
        Self::SubmissionIndex,
        Error,
    >)
        ensures
            r == Err::<Self::SubmissionIndex, Error>(nop_error()),
    {
        Err(refuse())
    }

    fn pipe(&self, _src: &Self::Buffer, _dst: &Self::Buffer) -> (r: Result<
        Self::SubmissionIndex,
        Error,
    >)
        ensures
            r == Err::<Self::SubmissionIndex, Error>(nop_error()),
    {
        Err(refuse())
    }

    fn download(&self, _buffer: &Self::Buffer, out: &mut [u8]) -> (r: Result<(), Error>)
        ensures
            r == Err::<(), Error>(nop_error()),
            final(out)@ == old(out)@,
    {
        Err(refuse())
    }

    fn compile(
        &self,
        _src: &RawKernel,
        _params: &[Param],
        _options: &CompilationOptions<Self>,
    ) -> (r: Result<Self::Kernel, Error>)
        ensures
            r == Err::<Self::Kernel, Error>(nop_error()),
    {
        Err(refuse())
    }

    fn schedule<'a>(
        &self,
        _kernels: &'a [Dependencies<Redirect<(Self::Kernel, NodeId, &'a [bool])>>],
        _bindings: &[&'a Self::Buffer],
        _meta: &[u32],
    ) -> (r: Result<Self::Schedule<'a>, Error>)
        ensures
            r == Err::<Self::Schedule<'a>, Error>(nop_error()),
    {
        Err(refuse())
    }

    fn dispatch_kernel(
        &self,
        _batcher: &mut Self::Batcher<'_>,
        _kernel: &Self::Kernel,
        _wg: [u32; 3],
        _bindings: &[&Self::Buffer],
    ) {
    }

    fn dispatch_schedule(
        &self,
        _batcher: &mut Self::Batcher<'_>,
        _schedule: &Self::Schedule<'_>,
    ) {
    }

    fn sync(&self, _submission_index: Self::SubmissionIndex) {
    }

    fn prepare_batch(&self) -> Self::BatchState {
    }

    fn start_batch<'a>(&self, _state: &'a mut Self::BatchState) -> Self::Batcher<'a> {
    }

    fn encode(&self, _state: Self::BatchState) -> Self::SyncSubmissions {
    }

    fn submit(&self, _submission: Self::SyncSubmissions) -> Self::SubmissionIndex {
    }

    fn poll(&self) -> (r: PollStatus)
        ensures
            r is Failed,
    {
        PollStatus::Failed
    }
}

} // verus!
