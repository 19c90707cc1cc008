//! Kernels and buffers for WGSL.

use vstd::prelude::*;

use crate::dispatch::backend::{Param, ParamTy};
use crate::errors::{Error, ErrorKind};

pub mod grammar;

pub mod names;

pub mod source;

pub use source::{generate_wgsl, is_printable};

verus! {

/// How a buffer is bound.
#[derive(Debug, Clone, Copy, PartialEq, Eq, Structural)]
pub enum BindingKind {
    Uniform,
    Storage { read_only: bool },
}

/// How a buffer for a parameter is bound.
pub open spec fn binding_kind(ty: ParamTy) -> BindingKind {
    match ty {
        ParamTy::Uniform => BindingKind::Uniform,
        ParamTy::ReadOnly => BindingKind::Storage { read_only: true },
        ParamTy::ReadWrite => BindingKind::Storage { read_only: false },
    }
}

/// Lists how the buffers of parameters are bound, by the numbers of the bindings.
pub fn generate_layout_desc(params: &[Param]) -> (r: Vec<BindingKind>)
    ensures
        r@ == Seq::new(params@.len(), |i: int| binding_kind(params@[i].ty)),
{
    let mut r: Vec<BindingKind> = Vec::new();
    let mut i: usize = 0;
    while i < params.len()
        invariant
            i <= params@.len(),
            r@ == Seq::new(i as nat, |j: int| binding_kind(params@[j].ty)),
        decreases params@.len() - i,
    {
        let kind = match params[i].ty {
            ParamTy::Uniform => BindingKind::Uniform,
            ParamTy::ReadOnly => BindingKind::Storage { read_only: true },
            ParamTy::ReadWrite => BindingKind::Storage { read_only: false },
        };
        r.push(kind);
        i += 1;
    }
    r
}

/// Fills metadata up to a multiple of four fields.
pub fn align_meta(data: &[u32]) -> (r: Vec<u32>)
    requires
        data@.len() + 3 <= usize::MAX,
    ensures
        r@.len() % 4 == 0,
        data@.len() <= r@.len() < data@.len() + 4,
        r@.take(data@.len() as int) == data@,
        forall|i: int| data@.len() <= i < r@.len() ==> #[trigger] r@[i] == u32::MAX,
{
    let offset: usize = (4 - data.len() % 4) % 4;
    let new_len: usize = data.len() + offset;
    let mut r: Vec<u32> = vstd::slice::slice_to_vec(data);
    while r.len() < new_len
        invariant
            data@.len() <= r@.len() <= new_len,
            r@.take(data@.len() as int) == data@,
            forall|i: int| data@.len() <= i < r@.len() ==> #[trigger] r@[i] == u32::MAX,
        decreases new_len - r@.len(),
    {
        let ghost before = r@;
        r.push(u32::MAX);
        assert(r@.take(data@.len() as int) == before.take(data@.len() as int));
    }
    r
}

/// Checks that a buffer can be filled with `len` bytes.
///
/// # Errors
///
/// Fails unless the buffer holds exactly as many bytes.
pub fn check_upload(size_bytes: u32, len: usize) -> (r: Result<(), Error>)
    ensures
        match r {
            Ok(()) => size_bytes == len,
            Err(e) => {
                &&& size_bytes != len
                &&& e == (Error {
                    msg: "CPU and GPU buffers of unequal sizes during upload",
                    kind: ErrorKind::FailedDownload,
                    ctx: (),
                })
            },
        },
{
    if size_bytes as usize != len {
        return Err(
            Error {
                msg: "CPU and GPU buffers of unequal sizes during upload",
                kind: ErrorKind::FailedDownload,
                ctx: (),
            },
        );
    }
    Ok(())
}

/// Checks that a buffer can be copied into `len` bytes, and counts the bytes that are copied.
///
/// # Errors
///
/// Fails if the buffer holds more bytes.
pub fn check_download(size_bytes: u32, len: usize) -> (r: Result<usize, Error>)
    ensures
        match r {
            Ok(n) => size_bytes <= len && n == size_bytes,
            Err(e) => {
                &&& size_bytes > len
                &&& e == (Error {
                    msg: "insufficient CPU memory allocated for GPU download",
                    kind: ErrorKind::FailedDownload,
                    ctx: (),
                })
            },
        },
{
    if size_bytes as usize > len {
        return Err(
            Error {
                msg: "insufficient CPU memory allocated for GPU download",
                kind: ErrorKind::FailedDownload,
                ctx: (),
            },
        );
    }
    Ok(size_bytes as usize)
}

/// The length of a buffer in bytes, as far as 32 bits can hold it.
pub fn size_in_bytes(bytes: u64) -> (r: u32)
    ensures
        r == bytes % 0x1_0000_0000,
{
    assert(bytes as u32 == bytes % 0x1_0000_0000) by (bit_vector);
    bytes as u32
}

/// The length of a buffer in 32-bit chunks, as far as 32 bits can hold it.
pub fn size_in_words(bytes: u64) -> (r: u32)
    ensures
        r == (bytes / 4) % 0x1_0000_0000,
{
    let words: u64 = bytes / 4;
    assert(words as u32 == words % 0x1_0000_0000) by (bit_vector);
    words as u32
}

} // verus!
