//! The operations that come with the library.

use vstd::prelude::*;

use crate::dispatch::backend::kernel::frame::{reached, Frame, Lowered, Scope};
use crate::dispatch::backend::kernel::raw::{LinkedKernel, LinkedView};
use crate::dispatch::backend::{GraphOp, NodeId, OpName, ValueId};
use crate::errors::Error;

pub mod basic_loss;

pub mod binary;

pub mod matmul;

pub mod softmax;

pub mod unary;

verus! {

/// What lowering a node does to a kernel.
pub open spec fn lowering(
    f: Scope,
    backwardness: Option<u8>,
    n: NodeId,
    out: ValueId,
    kernel: LinkedView,
    resolved: Seq<NodeId>,
    idx: ValueId,
    stable: bool,
) -> Lowered
    decreases f.left(backwardness, n), 9int, 0int,
    when f.operable(n)
{
    match f.node(n).op {
        GraphOp::Custom { lower, .. } => match lower {
            OpName::Matmul => matmul::matmul_lowering(f, backwardness, n, out, kernel, resolved),
            OpName::Softmax => softmax::softmax_lowering(f, backwardness, n, kernel, resolved),
            OpName::Add | OpName::Sub | OpName::Mul | OpName::Div => binary::binary_lowering(
                lower,
                f,
                backwardness,
                n,
                out,
                kernel,
                resolved,
                idx,
                stable,
            ),
            _ => unary::unary_lowering(
                lower,
                f,
                backwardness,
                n,
                out,
                kernel,
                resolved,
                idx,
                stable,
            ),
        },
        _ => arbitrary(),
    }
}

/// Lowers a node that is no leaf: evaluates its operands and applies its operation in a forward
/// pass, or adds the gradient of one of its inputs in a backward pass.
pub fn lower(
    frame: &Frame<'_>,
    resolved: &mut Vec<NodeId>,
    backwardness: Option<u8>,
    node_id: NodeId,
    out: ValueId,
    kernel: &mut LinkedKernel,
    idx: ValueId,
    stable_iteration_space: bool,
) -> (r: Result<Vec<NodeId>, Error>)
    requires
        frame@.fits(old(kernel)@, old(resolved)@),
        frame@.operable(node_id),
        !frame@.node(node_id).op.leaf(),
        backwardness matches Some(edge) ==> edge < frame@.node(node_id).inputs@.len(),
    ensures
        (Lowered { kernel: final(kernel)@, resolved: final(resolved)@, nodes: reached(r) })
            == lowering(
            frame@,
            backwardness,
            node_id,
            out,
            old(kernel)@,
            old(resolved)@,
            idx,
            stable_iteration_space,
        ),
        frame@.fits(final(kernel)@, final(resolved)@),
        final(kernel)@.params.len() == old(kernel)@.params.len(),
        final(kernel)@.meta.len() == old(kernel)@.meta.len(),
        r matches Ok(ids) ==> frame@.reaches(backwardness, node_id, ids@),
    decreases frame@.left(backwardness, node_id), 9int, 0int,
{
    match frame.graph.nodes[node_id].op {
        GraphOp::Custom { lower, .. } => match lower {
            OpName::Matmul => matmul::lower_matmul_recursive(
                frame,
                resolved,
                backwardness,
                node_id,
                out,
                kernel,
            ),
            OpName::Softmax => softmax::lower_softmax_recursive(
                frame,
                resolved,
                backwardness,
                node_id,
                kernel,
            ),
            OpName::Add | OpName::Sub | OpName::Mul | OpName::Div => binary::lower_binary(
                lower,
                frame,
                resolved,
                backwardness,
                node_id,
                out,
                kernel,
                idx,
                stable_iteration_space,
            ),
            _ => unary::lower_unary(
                lower,
                frame,
                resolved,
                backwardness,
                node_id,
                out,
                kernel,
                idx,
                stable_iteration_space,
            ),
        },
        _ => Ok(Vec::new()),
    }
}

} // verus!
