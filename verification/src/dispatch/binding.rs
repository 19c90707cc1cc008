//! Which tensor stands for which parameter of a pass.

use vstd::prelude::*;

use crate::dispatch::backend::kernel::backward::backward_setup;
use crate::dispatch::backend::kernel::forward::{
    forward_setup, input_param, input_slots, operand_slots, with_slot,
};
use crate::dispatch::backend::kernel::frame::sorted;
use crate::dispatch::backend::kernel::plan::{
    backward_flags, forward_flags, input_flags, marked, param_run, slots,
};
use crate::dispatch::backend::kernel::SaveIndicator;
use crate::dispatch::backend::{DType, Metadata, Node, NodeId, Param, ParamId, ParamTy};
use crate::dispatch::context::{
    backward_bindings, buffers, forward_bindings, saved_by, AllocTensors,
};
use crate::dispatch::GpuBackend;
use crate::tensor::Tensor;

verus! {

/// The inputs that the first operands of a node take for the first time, after some others.
pub open spec fn first_taken_by(
    nodes: Seq<Node>,
    n: int,
    count: nat,
    ids: Seq<NodeId>,
) -> Seq<NodeId>
    decreases count,
{
    if count == 0 {
        ids
    } else {
        let ids = first_taken_by(nodes, n, (count - 1) as nat, ids);
        let input = nodes[n].inputs@[count - 1];
        if nodes[input as int].op is Input && !ids.contains(input) {
            ids.push(input)
        } else {
            ids
        }
    }
}

/// The inputs that the first nodes take, in the order in which they are first taken.
pub open spec fn first_taken(nodes: Seq<Node>, count: nat) -> Seq<NodeId>
    decreases count,
{
    if count == 0 {
        Seq::empty()
    } else {
        first_taken_by(
            nodes,
            count - 1,
            nodes[count - 1].inputs@.len(),
            first_taken(nodes, (count - 1) as nat),
        )
    }
}

/// The inputs among the first nodes, in order.
pub open spec fn inputs_of(nodes: Seq<Node>, count: nat) -> Seq<NodeId>
    decreases count,
{
    if count == 0 {
        Seq::empty()
    } else {
        let ids = inputs_of(nodes, (count - 1) as nat);
        if nodes[count - 1].op is Input {
            ids.push((count - 1) as usize)
        } else {
            ids
        }
    }
}

/// Whether the inputs in a list have the slots from some number on, in order.
spec fn numbered(
    nodes: Seq<Node>,
    s: (Seq<Option<ParamId>>, Seq<Param>),
    ids: Seq<NodeId>,
    low: nat,
) -> bool {
    &&& s.0.len() == nodes.len()
    &&& s.1.len() == low + ids.len()
    &&& forall|j: int|
        0 <= j < ids.len() ==> #[trigger] ids[j] < nodes.len() && s.0[ids[j] as int] == Some(
            (low + j) as usize,
        )
    &&& forall|n: int|
        0 <= n < nodes.len() && (#[trigger] s.0[n]) is Some ==> ids.contains(n as usize)
}

proof fn lemma_operands_numbered(
    nodes: Seq<Node>,
    n: int,
    count: nat,
    s: (Seq<Option<ParamId>>, Seq<Param>),
    ids: Seq<NodeId>,
    low: nat,
)
    requires
        sorted(nodes),
        nodes.len() <= usize::MAX,
        0 <= n < nodes.len(),
        count <= nodes[n].inputs@.len(),
        numbered(nodes, s, ids, low),
    ensures
        numbered(nodes, operand_slots(nodes, n, count, s), first_taken_by(nodes, n, count, ids), low),
    decreases count,
{
    if count > 0 {
        let c = (count - 1) as nat;
        lemma_operands_numbered(nodes, n, c, s, ids, low);
        let t = operand_slots(nodes, n, c, s);
        let before = first_taken_by(nodes, n, c, ids);
        let input = nodes[n].inputs@[count - 1];
        assert(input < n);
        if nodes[input as int].op is Input {
            if before.contains(input) {
                let j = before.index_of(input);
                assert(before[j] == input);
                assert(t.0[input as int] is Some);
            } else {
                assert(t.0[input as int] is None);
                let u = with_slot(t, input, input_param(t.1.len()));
                let after = before.push(input);
                assert forall|j: int| 0 <= j < after.len() implies #[trigger] after[j] < nodes.len()
                    && u.0[after[j] as int] == Some((low + j) as usize) by {
                    if j < before.len() {
                        assert(before[j] == after[j]);
                        assert(before[j] != input) by {
                            if before[j] == input {
                                assert(before.contains(input));
                            }
                        }
                    }
                }
                assert forall|m: int|
                    0 <= m < nodes.len() && (#[trigger] u.0[m]) is Some implies after.contains(
                    m as usize,
                ) by {
                    if m == input {
                        assert(after[before.len() as int] == m as usize);
                    } else {
                        assert(t.0[m] is Some);
                        let j = before.index_of(m as usize);
                        assert(after[j] == m as usize);
                    }
                }
            }
        }
    }
}

proof fn lemma_inputs_numbered(
    nodes: Seq<Node>,
    count: nat,
    s: (Seq<Option<ParamId>>, Seq<Param>),
)
    requires
        sorted(nodes),
        nodes.len() <= usize::MAX,
        count <= nodes.len() == s.0.len(),
        forall|n: int| 0 <= n < nodes.len() ==> (#[trigger] s.0[n]) is None,
    ensures
        numbered(nodes, input_slots(nodes, count, s), first_taken(nodes, count), s.1.len()),
    decreases count,
{
    if count > 0 {
        let c = (count - 1) as nat;
        lemma_inputs_numbered(nodes, c, s);
        lemma_operands_numbered(
            nodes,
            c as int,
            nodes[c as int].inputs@.len(),
            input_slots(nodes, c, s),
            first_taken(nodes, c),
            s.1.len(),
        );
    }
}

/// The results that a pass saves are counted as its parameters for them are.
proof fn lemma_saved_by(saved: Seq<SaveIndicator>, backward: bool, flags: Seq<bool>, count: nat)
    requires
        count <= flags.len(),
        forall|n: int|
            0 <= n < flags.len() ==> #[trigger] flags[n] == if backward {
                saved[n]@.defined_in_backward
            } else {
                saved[n]@.defined_in_forward
            },
    ensures
        saved_by(saved, backward, count).len() == marked(flags, count),
        forall|n: int|
            #![trigger flags[n]]
            0 <= n < count && flags[n] ==> marked(flags, n as nat) < marked(flags, count)
                && saved_by(saved, backward, count)[marked(flags, n as nat) as int] == n,
    decreases count,
{
    if count > 0 {
        lemma_saved_by(saved, backward, flags, (count - 1) as nat);
        assert(flags[count - 1] == flags[count - 1]);
    }
}

proof fn lemma_inputs_of(nodes: Seq<Node>, count: nat)
    requires
        count <= nodes.len() <= usize::MAX,
    ensures
        inputs_of(nodes, count).len() == marked(input_flags(nodes), count),
        forall|n: int|
            #![trigger nodes[n]]
            0 <= n < count && nodes[n].op is Input ==> marked(input_flags(nodes), n as nat) < marked(
                input_flags(nodes),
                count,
            ) && inputs_of(nodes, count)[marked(input_flags(nodes), n as nat) as int] == n,
    decreases count,
{
    if count > 0 {
        lemma_inputs_of(nodes, (count - 1) as nat);
        assert(input_flags(nodes)[count - 1] == (nodes[count - 1].op is Input));
    }
}

/// The buffers of the forward pass stand for its parameters, where there is a tensor for each result
/// that it saves and one for each input that is taken, in the order in which they are first taken:
/// the parameter of such a result or input is bound to its tensor, and the output to the output.
pub proof fn lemma_forward_bound<'a, B: GpuBackend + 'a>(
    nodes: Seq<Node>,
    meta: Metadata,
    saved: Seq<SaveIndicator>,
    tile: u32,
    ins: Seq<Tensor<B>>,
    tensors: AllocTensors<B>,
)
    requires
        sorted(nodes),
        forward_setup(nodes, meta, saved, tile).params.len() <= usize::MAX,
        nodes.len() <= usize::MAX,
        saved.len() == nodes.len(),
        tensors.forward_saved@.len() == saved_by(saved, false, saved.len()).len(),
        ins.len() == first_taken(nodes, nodes.len()).len(),
    ensures
        ({
            let s = forward_setup(nodes, meta, saved, tile);
            let bound: Seq<&'a B::Buffer> = forward_bindings(ins, tensors);
            let kept = saved_by(saved, false, saved.len());
            let taken = first_taken(nodes, nodes.len());
            &&& bound.len() == s.params.len()
            &&& bound[0] == &tensors.meta
            &&& bound[s.output as int] == &tensors.forward_out.data.inner
            &&& forall|j: int|
                0 <= j < kept.len() ==> (s.saved_params[#[trigger] kept[j]] matches Some(p)
                    && bound[p as int] == &tensors.forward_saved@[j].data.inner)
            &&& forall|j: int|
                0 <= j < taken.len() ==> (s.node_params[(#[trigger] taken[j]) as int] matches Some(
                    p,
                ) && bound[p as int] == &ins[j].data.inner)
        }),
{
    let s = forward_setup(nodes, meta, saved, tile);
    let count = nodes.len();
    let flags = forward_flags(saved, count);
    let first = seq![Param { dtype: DType::UnsignedInt, ty: ParamTy::Uniform, pid: 0 }];
    let params = first + param_run(1, marked(flags, count), ParamTy::ReadWrite);
    let none = Seq::new(count, |n: int| None::<ParamId>);
    lemma_saved_by(saved, false, flags, count);
    lemma_inputs_numbered(nodes, count, (none, params));
    let kept = saved_by(saved, false, saved.len());
    let taken = first_taken(nodes, count);
    let bound: Seq<&'a B::Buffer> = forward_bindings(ins, tensors);
    lemma_kept_flagged(saved, false, count);
    assert forall|j: int| 0 <= j < kept.len() implies (s.saved_params[
    #[trigger] kept[j]] matches Some(p) && bound[p as int]
        == &tensors.forward_saved@[j].data.inner) by {
        let n = kept[j];
        assert(flags[n]);
        assert(s.saved_params[n] == Some((1 + j) as usize));
    }
    assert forall|j: int| 0 <= j < taken.len() implies (s.node_params[(
    #[trigger] taken[j]) as int] matches Some(p) && bound[p as int] == &ins[j].data.inner) by {
        lemma_taken_input(nodes, count, j);
    }
}

/// The nodes in the list of the results that a pass saves are those that it saves, each in its place.
proof fn lemma_kept_flagged(saved: Seq<SaveIndicator>, backward: bool, count: nat)
    requires
        count <= saved.len(),
    ensures
        forall|j: int|
            0 <= j < saved_by(saved, backward, count).len() ==> {
                let n = #[trigger] saved_by(saved, backward, count)[j];
                let flags = if backward {
                    backward_flags(saved, saved.len())
                } else {
                    forward_flags(saved, saved.len())
                };
                &&& 0 <= n < count
                &&& flags[n]
                &&& marked(flags, n as nat) == j
            },
    decreases count,
{
    if count > 0 {
        let flags = if backward {
            backward_flags(saved, saved.len())
        } else {
            forward_flags(saved, saved.len())
        };
        lemma_kept_flagged(saved, backward, (count - 1) as nat);
        lemma_saved_by(saved, backward, flags, (count - 1) as nat);
    }
}

proof fn lemma_taken_input(nodes: Seq<Node>, count: nat, j: int)
    requires
        sorted(nodes),
        count <= nodes.len(),
        0 <= j < first_taken(nodes, count).len(),
    ensures
        first_taken(nodes, count)[j] < nodes.len(),
        nodes[first_taken(nodes, count)[j] as int].op is Input,
    decreases count,
{
    if count > 0 {
        let c = (count - 1) as nat;
        let before = first_taken(nodes, c);
        assert forall|i: int| 0 <= i < before.len() implies before[i] < nodes.len() && nodes[(
        #[trigger] before[i]) as int].op is Input by {
            lemma_taken_input(nodes, c, i);
        }
        lemma_taken_by_input(nodes, c as int, nodes[c as int].inputs@.len(), before);
    }
}

proof fn lemma_taken_by_input(nodes: Seq<Node>, n: int, count: nat, ids: Seq<NodeId>)
    requires
        sorted(nodes),
        0 <= n < nodes.len(),
        count <= nodes[n].inputs@.len(),
        forall|i: int|
            0 <= i < ids.len() ==> ids[i] < nodes.len() && nodes[(
            #[trigger] ids[i]) as int].op is Input,
    ensures
        forall|i: int|
            0 <= i < first_taken_by(nodes, n, count, ids).len() ==> first_taken_by(
                nodes,
                n,
                count,
                ids,
            )[i] < nodes.len() && nodes[(#[trigger] first_taken_by(
                nodes,
                n,
                count,
                ids,
            )[i]) as int].op is Input,
    decreases count,
{
    if count > 0 {
        lemma_taken_by_input(nodes, n, (count - 1) as nat, ids);
        assert(nodes[n].inputs@[count - 1] < n);
    }
}

/// The buffers of the forward pass stand for its parameters where the inputs are given in order, as
/// long as every input is taken and they are first taken in that order.
pub proof fn lemma_forward_bound_in_order<'a, B: GpuBackend + 'a>(
    nodes: Seq<Node>,
    meta: Metadata,
    saved: Seq<SaveIndicator>,
    tile: u32,
    ins: Seq<Tensor<B>>,
    tensors: AllocTensors<B>,
)
    requires
        sorted(nodes),
        forward_setup(nodes, meta, saved, tile).params.len() <= usize::MAX,
        nodes.len() <= usize::MAX,
        saved.len() == nodes.len(),
        tensors.forward_saved@.len() == saved_by(saved, false, saved.len()).len(),
        first_taken(nodes, nodes.len()) == inputs_of(nodes, nodes.len()),
        ins.len() == inputs_of(nodes, nodes.len()).len(),
    ensures
        ({
            let s = forward_setup(nodes, meta, saved, tile);
            let bound: Seq<&'a B::Buffer> = forward_bindings(ins, tensors);
            let inputs = inputs_of(nodes, nodes.len());
            forall|j: int|
                0 <= j < inputs.len() ==> (s.node_params[(#[trigger] inputs[j]) as int] matches Some(
                    p,
                ) && bound[p as int] == &ins[j].data.inner)
        }),
{
    lemma_forward_bound(nodes, meta, saved, tile, ins, tensors);
}

/// The buffers of the backward pass stand for its parameters, where there is a tensor for each
/// gradient that it stores, for each result that the forward pass saves, and for each input: the
/// parameter of each is bound to its tensor.
pub proof fn lemma_backward_bound<'a, B: GpuBackend + 'a>(
    nodes: Seq<Node>,
    meta: Metadata,
    saved: Seq<SaveIndicator>,
    tile: u32,
    ins: Seq<Tensor<B>>,
    tensors: AllocTensors<B>,
)
    requires
        backward_setup(nodes, meta, saved, tile).params.len() <= usize::MAX,
        nodes.len() <= usize::MAX,
        saved.len() == nodes.len(),
        tensors.forward_saved@.len() == saved_by(saved, false, saved.len()).len(),
        tensors.grad_tensors@.len() == saved_by(saved, true, saved.len()).len(),
        ins.len() == inputs_of(nodes, nodes.len()).len(),
    ensures
        ({
            let s = backward_setup(nodes, meta, saved, tile);
            let bound: Seq<&'a B::Buffer> = backward_bindings(ins, tensors);
            let kept = saved_by(saved, false, saved.len());
            let grads = saved_by(saved, true, saved.len());
            let inputs = inputs_of(nodes, nodes.len());
            &&& bound.len() == s.params.len()
            &&& bound[0] == &tensors.meta
            &&& bound[1] == &tensors.seed.data.inner
            &&& forall|j: int|
                0 <= j < grads.len() ==> (s.grad_params[#[trigger] grads[j]] matches Some(p)
                    && bound[p as int] == &tensors.grad_tensors@[j].data.inner)
            &&& forall|j: int|
                0 <= j < kept.len() ==> (s.saved_params[#[trigger] kept[j]] matches Some(p)
                    && bound[p as int] == &tensors.forward_saved@[j].data.inner)
            &&& forall|j: int|
                0 <= j < inputs.len() && !saved[(
                #[trigger] inputs[j]) as int]@.defined_in_forward ==> (s.saved_params[
                inputs[j] as int] matches Some(p) && bound[p as int] == &ins[j].data.inner)
        }),
{
    let s = backward_setup(nodes, meta, saved, tile);
    let count = nodes.len();
    let grad_flags = backward_flags(saved, count);
    let in_flags = input_flags(nodes);
    let flags = forward_flags(saved, count);
    lemma_saved_by(saved, false, flags, count);
    lemma_saved_by(saved, true, grad_flags, count);
    lemma_inputs_of(nodes, count);
    lemma_kept_flagged(saved, false, count);
    lemma_kept_flagged(saved, true, count);
    let kept = saved_by(saved, false, saved.len());
    let grads = saved_by(saved, true, saved.len());
    let inputs = inputs_of(nodes, count);
    let bound: Seq<&'a B::Buffer> = backward_bindings(ins, tensors);
    assert forall|j: int| 0 <= j < grads.len() implies (s.grad_params[
    #[trigger] grads[j]] matches Some(p) && bound[p as int]
        == &tensors.grad_tensors@[j].data.inner) by {
        assert(s.grad_params[grads[j]] == Some((2 + j) as usize));
    }
    assert forall|j: int| 0 <= j < kept.len() implies (s.saved_params[
    #[trigger] kept[j]] matches Some(p) && bound[p as int]
        == &tensors.forward_saved@[j].data.inner) by {
        assert(s.saved_params[kept[j]] == Some((2 + grads.len() + inputs.len() + j) as usize));
    }
    assert forall|j: int|
        0 <= j < inputs.len() && !saved[(
        #[trigger] inputs[j]) as int]@.defined_in_forward implies (s.saved_params[
    inputs[j] as int] matches Some(p) && bound[p as int] == &ins[j].data.inner) by {
        lemma_input_counted(nodes, count, j);
        assert(s.saved_params[inputs[j] as int] == Some((2 + grads.len() + j) as usize));
    }
}

proof fn lemma_input_counted(nodes: Seq<Node>, count: nat, j: int)
    requires
        count <= nodes.len() <= usize::MAX,
        0 <= j < inputs_of(nodes, count).len(),
    ensures
        inputs_of(nodes, count)[j] < count,
        nodes[inputs_of(nodes, count)[j] as int].op is Input,
        marked(input_flags(nodes), inputs_of(nodes, count)[j] as nat) == j,
    decreases count,
{
    if count > 0 {
        let c = (count - 1) as nat;
        lemma_inputs_of(nodes, c);
        if j < inputs_of(nodes, c).len() {
            lemma_input_counted(nodes, c, j);
        }
    }
}

} // verus!
