//! Kernel IR, and the lowering of graphs into it.

use vstd::prelude::*;

pub mod backward;

pub mod forward;

pub mod frame;

pub mod group;

pub mod index;

pub mod loss;

pub mod optimize;

pub mod order;

pub mod plan;

pub mod raw;

pub mod save;

pub use frame::NodeInput;
pub use group::{GroupView, KernelGroup, KernelsRedirected, RedirectChain, RedirectStep};
pub use order::topo_sort;
pub use plan::{Chain, KernelsChained, Step};
pub use raw::{Kernel, KernelView, LinkedKernel, LinkedView, RawKernel, RawView};
pub use save::{SaveIndicator, Saves};

verus! {

/// A value, and what must come before it: of a kernel, the roots whose kernels are run first.
#[derive(Debug, Clone, PartialEq, Eq, PartialOrd, Ord)]
pub struct Dependencies<T> {
    pub val: T,
    pub dep: Vec<usize>,
}

/// A value, or the index of an equal one.
#[derive(Debug)]
pub enum Redirect<T> {
    Unmasked(T),
    Redirected(usize),
}

} // verus!
