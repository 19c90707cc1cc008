//! A graph compiler for linear algebra on GPUs: execution graphs are checked, sorted and lowered
//! into kernels, and kernels are optimised and written out as shader source.

pub mod dispatch;
pub mod errors;
pub mod scalar;
pub mod tensor;
pub mod text;
