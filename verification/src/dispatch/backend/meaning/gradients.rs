//! What the kernels of a backward pass store.

use vstd::prelude::*;

use crate::dispatch::backend::kernel::backward::{
    backward_pass, backward_root, backward_round, backward_rounds, backward_setup, grad_loaded,
    input_pass, input_passes, node_grad, pending, user_grads, BackwardSetup,
};
use crate::dispatch::backend::kernel::frame::{has_operands, resolve, Operand, Scope};
use crate::dispatch::backend::kernel::index::opened;
use crate::dispatch::backend::kernel::plan::{
    backward_flags, blocked, forward_flags, input_flags, lemma_more_roots, more_roots, schedulable,
    Chain, Plan,
};
use crate::dispatch::backend::kernel::raw::{LinkedView, RawView};
use crate::dispatch::backend::kernel::save::SaveIndicator;
use crate::dispatch::backend::meaning::backward::{
    disposed, gradient, lemma_node_grad_held, pointwise_from,
};
use crate::dispatch::backend::meaning::facts::group_meaning;
use crate::dispatch::backend::meaning::forward::{is_joined, pointwise_op};
use crate::dispatch::backend::meaning::index::{lemma_flat, lemma_opened_flat};
use crate::dispatch::backend::meaning::num;
use crate::dispatch::backend::meaning::pass::{
    lemma_blocked_held, lemma_blocked_same, lemma_marked_grows, lemma_resolve,
};
use crate::dispatch::backend::sound::group_sound;
use crate::dispatch::backend::sound::lower::lemma_node_grad_sound;
use crate::dispatch::backend::sound::marks::group_marks;
use crate::dispatch::backend::sound::pass::{lemma_blocked_finished, lemma_opened_sound};
use crate::dispatch::backend::std_lib;
use crate::dispatch::backend::std_lib::binary::{binary_grad, binary_lowering};
use crate::dispatch::backend::std_lib::unary::{reads_saved, unary_lowering};
use crate::dispatch::backend::{
    Axis, DType, GraphOp, Metadata, Node, NodeId, Op, OpName, ParamId, ValueId, ValueState,
};
use crate::errors::Error;
use crate::scalar::{Float32, ZERO_BITS};

verus! {

/// Whether a kernel runs straight through and ends with a store of the gradient of a node, at the
/// index of the store.
pub open spec fn stores_gradient(
    k: RawView,
    output: ParamId,
    nodes: Seq<Node>,
    saved: Seq<Option<ParamId>>,
    n: NodeId,
) -> bool {
    &&& k.straight()
    &&& k.guards().len() == 0
    &&& k.ops.len() > 0
    &&& k.ops.last() matches Op::ParamStore { param, index, value }
    &&& param == output
    &&& k.held(value) == gradient(nodes, saved, n, num(ZERO_BITS), k.held(index))
}

/// What a backward pass lowers a root with: its scope, the kernel that it opens, the variable of the
/// gradient, and the index.
pub open spec fn begun(s: BackwardSetup, root: NodeId, p: Plan) -> (
    Scope,
    LinkedView,
    ValueId,
    ValueId,
) {
    let (kernel, base, gid) = opened(
        s.meta,
        s.params.len(),
        seq![s.tile, s.tile, 1],
        root,
        s.nodes[root as int].shape@,
        true,
    );
    let (raw, upstream) = kernel.raw.var_f(Op::ConstF32 { value: Float32 { bits: ZERO_BITS } });
    let (raw, tile_size) = raw.def(
        DType::UnsignedInt,
        ValueState::Const,
        Some(Op::ConstU32 { value: s.tile }),
    );
    let (raw, local_row) = raw.let_u(Op::LocalId { axis: Axis::Y });
    let (raw, local_col) = raw.let_u(Op::LocalId { axis: Axis::X });
    let scope = Scope {
        nodes: s.nodes,
        node_params: s.grad_params,
        saved_params: s.saved_params,
        base,
        local_row,
        local_col,
        shared_size: (s.tile * s.tile) as u32,
        tile_size,
        since: p.resolved.len() as usize,
    };
    (scope, LinkedView { raw, ..kernel }, upstream, gid)
}

proof fn lemma_begun(s: BackwardSetup, root: NodeId, p: Plan)
    requires
        s.ready(),
        root < s.nodes.len(),
        s.nodes[root as int].shape@.len() >= 1,
    ensures
        ({
            let (f, k, upstream, gid) = begun(s, root, p);
            &&& f.settled(k)
            &&& k.finished(s.params.len())
            &&& k.raw.root == root
            &&& upstream < k.raw.span()
            &&& gid < k.raw.span()
        }),
{
    let shape = s.nodes[root as int].shape@;
    assert forall|i: int| 0 <= i < shape.len() implies #[trigger] shape[i] < s.meta.count() by {
        assert(s.nodes[root as int].shape@[i] < s.meta.count());
    }
    let block = seq![s.tile, s.tile, 1];
    lemma_opened_sound(s.meta, s.params.len(), block, root, shape, true);
    broadcast use {group_sound, group_marks};

}

proof fn lemma_begun_disposed(s: BackwardSetup, root: NodeId, p: Plan)
    requires
        s.ready(),
        root < s.nodes.len(),
        s.nodes[root as int].shape@.len() >= 1,
        begun(s, root, p).1.raw.small(),
    ensures
        ({
            let (f, k, upstream, gid) = begun(s, root, p);
            &&& disposed(f, k, upstream, gid)
            &&& k.raw.straight()
            &&& k.raw.held(upstream) == num(ZERO_BITS)
        }),
{
    let shape = s.nodes[root as int].shape@;
    assert forall|i: int| 0 <= i < shape.len() implies #[trigger] shape[i] < s.meta.count() by {
        assert(s.nodes[root as int].shape@[i] < s.meta.count());
    }
    let block = seq![s.tile, s.tile, 1];
    lemma_begun(s, root, p);
    lemma_opened_sound(s.meta, s.params.len(), block, root, shape, true);
    let kernel = opened(s.meta, s.params.len(), block, root, shape, true).0;
    assert(kernel.raw.small()) by {
        broadcast use group_sound;

    }
    lemma_opened_flat(s.meta, s.params.len(), block, root, shape, true);
    lemma_flat(kernel.raw);
    broadcast use {group_sound, group_meaning};

}

/// The kernel of an input stores the gradient of the input, where all the operations after it work
/// element by element.
pub proof fn lemma_backward_root_stores(s: BackwardSetup, root: NodeId, p: Plan)
    requires
        s.ready(),
        root < s.nodes.len(),
        s.nodes[root as int].op is Input,
        s.nodes[root as int].shape@.len() >= 1,
        pointwise_from(s.nodes, root as int),
        !p.resolved.contains(root),
        backward_root(s, root, p) is Ok,
        (backward_root(s, root, p)->Ok_0).steps.last().kernel.raw.small(),
    ensures
        stores_gradient(
            (backward_root(s, root, p)->Ok_0).steps.last().kernel.raw,
            s.grad_params[root as int]->0,
            s.nodes,
            s.saved_params,
            root,
        ),
{
    let size = (s.tile * s.tile) as u32;
    let (f, k, upstream, gid) = begun(s, root, p);
    lemma_begun(s, root, p);
    let node = Operand::Node(root);
    lemma_node_grad_sound(f, node, upstream, k, p.resolved, gid, true);
    let l = node_grad(f, node, upstream, k, p.resolved, gid, true);
    let ids = l.nodes->Ok_0;
    let output = s.grad_params[root as int]->0;
    assert(output < s.params.len());
    let store = Op::ParamStore { param: output, index: gid, value: upstream };
    let stored = l.kernel.store(output, gid, upstream);
    let b = blocked(s.nodes, stored, ids, ids.len(), size);
    assert(stored.finished(s.params.len()) && stored.raw.span() == l.kernel.raw.span()) by {
        broadcast use {group_sound, group_marks};

    }
    lemma_blocked_finished(s.nodes, stored, ids, ids.len(), size, s.params.len());
    lemma_blocked_same(s.nodes, stored, ids, ids.len(), size);
    let done = backward_root(s, root, p)->Ok_0;
    assert(done.steps.last().kernel.raw == b.raw);
    lemma_begun_disposed(s, root, p);
    lemma_node_grad_held(f, root, upstream, k, p.resolved, gid);
    let q = stored.raw;
    assert(q.held(upstream) == l.kernel.raw.held(upstream) && q.held(gid) == l.kernel.raw.held(gid)
        && q.straight() && q.guards() == l.kernel.raw.guards()) by {
        broadcast use {group_sound, group_meaning};

    }
    assert(q.ops.len() > 0 && q.ops.last() == store) by {
        reveal(RawView::emit);
    }
    lemma_blocked_held(s.nodes, stored, ids, ids.len(), size);
    assert(l.kernel.raw.held(gid) == k.raw.held(gid));
}

/// Whether all the nodes are resolved, or taken by nothing.
spec fn settled_ids(nodes: Seq<Node>, ids: Seq<NodeId>, resolved: Seq<NodeId>) -> bool {
    forall|i: int|
        0 <= i < ids.len() ==> resolved.contains(#[trigger] ids[i])
            || nodes[ids[i] as int].outputs@.len() == 0
}

/// Whether all that is resolved in one list is resolved in another.
spec fn resolves(before: Seq<NodeId>, after: Seq<NodeId>) -> bool {
    forall|m: NodeId| before.contains(m) ==> #[trigger] after.contains(m)
}

proof fn lemma_node_grad_resolved(
    f: Scope,
    n: NodeId,
    upstream: ValueId,
    kernel: LinkedView,
    resolved: Seq<NodeId>,
    idx: ValueId,
)
    requires
        f.placed(Operand::Node(n)),
        pointwise_from(f.nodes, n as int),
        forall|m: int| 0 <= m < f.nodes.len() ==> #[trigger] has_operands(f.nodes, m),
        node_grad(f, Operand::Node(n), upstream, kernel, resolved, idx, true).nodes is Ok,
    ensures
        ({
            let l = node_grad(f, Operand::Node(n), upstream, kernel, resolved, idx, true);
            &&& resolves(resolved, l.resolved)
            &&& settled_ids(f.nodes, l.nodes->Ok_0, l.resolved)
        }),
    decreases f.count() - n, 0nat, f.node(n).outputs@.len() + 1,
{
    let k = kernel.computes(f.node(n).op);
    let node = Operand::Node(n);
    if f.node(n).outputs@.len() > 0 {
        assert(pointwise_op(f.nodes[n as int].op));
        assert(!grad_loaded(f, n, resolved, true));
        lemma_user_grads_resolved(f, n, 0, upstream, k, resolved, idx, seq![n]);
        let l = user_grads(f, n, 0, upstream, k, resolved, idx, true, seq![n]);
        lemma_resolve(l.resolved, n);
        let ids = l.nodes->Ok_0;
        let after = resolve(l.resolved, n);
        assert forall|i: int| 0 <= i < ids.len() implies after.contains(#[trigger] ids[i])
            || f.nodes[ids[i] as int].outputs@.len() == 0 by {
            if l.resolved.contains(ids[i]) {
                assert(after.contains(ids[i]));
            }
        }
    }
}

proof fn lemma_user_grads_resolved(
    f: Scope,
    n: NodeId,
    from: int,
    upstream: ValueId,
    kernel: LinkedView,
    resolved: Seq<NodeId>,
    idx: ValueId,
    nodes: Seq<NodeId>,
)
    requires
        f.placed(Operand::Node(n)),
        pointwise_from(f.nodes, n as int),
        0 <= from <= f.node(n).outputs@.len(),
        forall|m: int| 0 <= m < f.nodes.len() ==> #[trigger] has_operands(f.nodes, m),
        user_grads(f, n, from, upstream, kernel, resolved, idx, true, nodes).nodes is Ok,
        forall|i: int|
            0 <= i < nodes.len() ==> resolved.contains(#[trigger] nodes[i]) || nodes[i] == n
                || f.nodes[nodes[i] as int].outputs@.len() == 0,
    ensures
        ({
            let l = user_grads(f, n, from, upstream, kernel, resolved, idx, true, nodes);
            &&& resolves(resolved, l.resolved)
            &&& forall|i: int|
                0 <= i < (l.nodes->Ok_0).len() ==> l.resolved.contains(
                    #[trigger] (l.nodes->Ok_0)[i],
                ) || (l.nodes->Ok_0)[i] == n || f.nodes[(
                l.nodes->Ok_0)[i] as int].outputs@.len() == 0
        }),
    decreases f.count() - n, 0nat, f.node(n).outputs@.len() - from,
{
    if from < f.node(n).outputs@.len() {
        let user = f.node(n).outputs@[from];
        assert(n < f.nodes[n as int].outputs@[from] < f.nodes.len());
        assert(has_operands(f.nodes, user as int));
        let edge = f.node(user).inputs@.index_of_first(n).unwrap() as u8;
        let l = std_lib::lowering(f, Some(edge), user, upstream, kernel, resolved, idx, true);
        lemma_through_resolved(f, user, edge, upstream, kernel, resolved, idx);
        let deep = l.nodes->Ok_0;
        let more = nodes + deep;
        assert forall|i: int| 0 <= i < more.len() implies l.resolved.contains(#[trigger] more[i])
            || more[i] == n || f.nodes[more[i] as int].outputs@.len() == 0 by {
            if i < nodes.len() {
                assert(more[i] == nodes[i]);
            } else {
                assert(more[i] == deep[i - nodes.len()]);
            }
        }
        lemma_user_grads_resolved(f, n, from + 1, upstream, l.kernel, l.resolved, idx, more);
    }
}

proof fn lemma_through_resolved(
    f: Scope,
    user: NodeId,
    edge: u8,
    out: ValueId,
    kernel: LinkedView,
    resolved: Seq<NodeId>,
    idx: ValueId,
)
    requires
        f.operable(user),
        f.node(user).op is Custom,
        pointwise_from(f.nodes, user as int),
        forall|m: int| 0 <= m < f.nodes.len() ==> #[trigger] has_operands(f.nodes, m),
        std_lib::lowering(f, Some(edge), user, out, kernel, resolved, idx, true).nodes is Ok,
    ensures
        ({
            let l = std_lib::lowering(f, Some(edge), user, out, kernel, resolved, idx, true);
            &&& resolves(resolved, l.resolved)
            &&& settled_ids(f.nodes, l.nodes->Ok_0, l.resolved)
        }),
    decreases f.count() - user, 9nat, 0int,
{
    assert(pointwise_op(f.nodes[user as int].op));
    let l = std_lib::lowering(f, Some(edge), user, out, kernel, resolved, idx, true);
    let zero = Op::ConstF32 { value: Float32 { bits: ZERO_BITS } };
    match f.node(user).op {
        GraphOp::Custom { lower, .. } => {
            if is_joined(lower) {
                let b = binary_grad(lower, f, edge, user, out, kernel, resolved, idx, true);
                assert(l == binary_lowering(
                    lower,
                    f,
                    Some(edge),
                    user,
                    out,
                    kernel,
                    resolved,
                    idx,
                    true,
                ));
                assert(l == b);
                if lower == OpName::Add || (lower == OpName::Sub && edge == 0) {
                    lemma_node_grad_resolved(f, user, out, kernel, resolved, idx);
                } else {
                    let (raw, g_val) = kernel.raw.var_f(zero);
                    let k = LinkedView { raw, ..kernel };
                    lemma_node_grad_resolved(f, user, g_val, k, resolved, idx);
                }
            } else {
                assert(l == unary_lowering(
                    lower,
                    f,
                    Some(edge),
                    user,
                    out,
                    kernel,
                    resolved,
                    idx,
                    true,
                ));
                let param = f.saved_params[user as int];
                let (raw1, saved) = kernel.raw.var_f(zero);
                let k1 = LinkedView { raw: raw1, ..kernel };
                let k2 = if reads_saved(lower) {
                    k1.accum(
                        saved,
                        Op::ParamLoad { param: param.unwrap(), index: idx },
                    ).param(param.unwrap())
                } else {
                    k1
                };
                let (raw3, acc) = k2.raw.var_f(zero);
                let k3 = LinkedView { raw: raw3, ..k2 };
                lemma_node_grad_resolved(f, user, acc, k3, resolved, idx);
            }
        },
        _ => {},
    }
}

/// The parameters of a backward pass fit.
pub proof fn lemma_backward_setup(
    nodes: Seq<Node>,
    meta: Metadata,
    saved: Seq<SaveIndicator>,
    tile: u32,
)
    requires
        schedulable(nodes, meta),
        tile * tile <= u32::MAX,
        backward_setup(nodes, meta, saved, tile).params.len() <= usize::MAX,
    ensures
        backward_setup(nodes, meta, saved, tile).ready(),
{
    let s = backward_setup(nodes, meta, saved, tile);
    let count = nodes.len();
    let grads = backward_flags(saved, count);
    let inputs = input_flags(nodes);
    let kept = forward_flags(saved, count);
    assert forall|m: int| 0 <= m < count implies (#[trigger] s.grad_params[m] matches Some(p) ==> p
        < s.params.len()) by {
        lemma_marked_grows(grads, (m + 1) as nat, count);
    }
    assert forall|m: int| 0 <= m < count implies (#[trigger] s.saved_params[m] matches Some(p) ==> p
        < s.params.len()) by {
        lemma_marked_grows(inputs, (m + 1) as nat, count);
        lemma_marked_grows(kept, (m + 1) as nat, count);
    }
}

/// The first inputs that some node takes.
pub open spec fn taken_inputs(nodes: Seq<Node>, count: nat) -> Seq<NodeId>
    decreases count,
{
    if count == 0 {
        Seq::empty()
    } else {
        let before = taken_inputs(nodes, (count - 1) as nat);
        if nodes[count - 1].op is Input && nodes[count - 1].outputs@.len() > 0 {
            before.push((count - 1) as usize)
        } else {
            before
        }
    }
}

/// The backward pass of an input has one kernel, if some node takes the input.
proof fn lemma_input_pass_stores(s: BackwardSetup, input: NodeId)
    requires
        s.ready(),
        input < s.nodes.len(),
        s.nodes[input as int].op is Input,
        pointwise_from(s.nodes, 0),
        input_pass(s, input) is Ok,
    ensures
        ({
            let steps = input_pass(s, input)->Ok_0;
            if s.nodes[input as int].outputs@.len() > 0 {
                &&& steps.len() == 1
                &&& steps[0].kernel.raw.root == input
                &&& steps[0].kernel.raw.small() ==> stores_gradient(
                    steps[0].kernel.raw,
                    s.grad_params[input as int]->0,
                    s.nodes,
                    s.saved_params,
                    input,
                )
            } else {
                steps.len() == 0
            }
        }),
{
    let start = Plan { steps: Seq::empty(), roots: seq![input], resolved: Seq::empty() };
    if s.nodes[input as int].outputs@.len() == 0 {
        assert(!pending(s.nodes, start.roots));
    } else {
        assert(pending(s.nodes, start.roots)) by {
            assert(s.nodes[start.roots[0] as int].outputs@.len() > 0);
        }
        let p = Plan { roots: Seq::empty(), ..start };
        let round = backward_round(s, start.roots, 1, p);
        assert(round == backward_root(s, input, p)) by {
            reveal_with_fuel(backward_round, 2);
        }
        let q = round->Ok_0;
        let size = (s.tile * s.tile) as u32;
        let (f, k, upstream, gid) = begun(s, input, p);
        lemma_begun(s, input, p);
        let node = Operand::Node(input);
        let l = node_grad(f, node, upstream, k, p.resolved, gid, true);
        lemma_node_grad_sound(f, node, upstream, k, p.resolved, gid, true);
        lemma_node_grad_resolved(f, input, upstream, k, p.resolved, gid);
        let ids = l.nodes->Ok_0;
        lemma_more_roots(p.roots, ids, ids.len(), l.resolved, input);
        assert(!pending(s.nodes, q.roots)) by {
            assert forall|i: int| 0 <= i < q.roots.len() implies s.nodes[
            #[trigger] q.roots[i] as int].outputs@.len() == 0 by {
                let id = q.roots[i];
                lemma_unresolved_root(p.roots, ids, ids.len(), l.resolved, input, i);
                assert(ids.contains(id));
                let j = ids.index_of(id);
                assert(ids[j] == id);
            }
        }
        let output = s.grad_params[input as int]->0;
        assert(s.grad_params[input as int] is Some);
        assert(output < s.params.len());
        let stored = l.kernel.store(output, gid, upstream);
        assert(stored.raw.root == input) by {
            broadcast use group_sound;

        }
        lemma_blocked_same(s.nodes, stored, ids, ids.len(), size);
        assert(q.steps.len() == 1);
        if q.steps.last().kernel.raw.small() {
            lemma_backward_root_stores(s, input, p);
        }
        reveal_with_fuel(backward_rounds, 2);
    }
}

/// A root that is added is not resolved, and one of the nodes that were reached.
proof fn lemma_unresolved_root(
    roots: Seq<NodeId>,
    ids: Seq<NodeId>,
    count: nat,
    resolved: Seq<NodeId>,
    root: NodeId,
    i: int,
)
    requires
        roots.len() == 0,
        count <= ids.len(),
        0 <= i < more_roots(roots, ids, count, resolved, root).len(),
    ensures
        !resolved.contains(more_roots(roots, ids, count, resolved, root)[i]),
        ids.contains(more_roots(roots, ids, count, resolved, root)[i]),
    decreases count,
{
    if count > 0 {
        let before = more_roots(roots, ids, (count - 1) as nat, resolved, root);
        if i < before.len() {
            lemma_unresolved_root(roots, ids, (count - 1) as nat, resolved, root, i);
        } else {
            assert(ids[count - 1] == more_roots(roots, ids, count, resolved, root)[i]);
        }
    }
}

proof fn lemma_passes_store(s: BackwardSetup, count: nat)
    requires
        s.ready(),
        pointwise_from(s.nodes, 0),
        count <= s.nodes.len() <= usize::MAX,
        input_passes(s, count) is Ok,
    ensures
        ({
            let steps = input_passes(s, count)->Ok_0;
            let inputs = taken_inputs(s.nodes, count);
            &&& steps.len() == inputs.len()
            &&& forall|i: int|
                0 <= i < steps.len() ==> (#[trigger] steps[i]).kernel.raw.root == inputs[i] && (
                steps[i].kernel.raw.small() ==> stores_gradient(
                    steps[i].kernel.raw,
                    s.grad_params[inputs[i] as int]->0,
                    s.nodes,
                    s.saved_params,
                    inputs[i],
                ))
        }),
    decreases count,
{
    if count > 0 {
        let c = (count - 1) as nat;
        lemma_passes_store(s, c);
        if s.nodes[count - 1].op is Input {
            lemma_input_pass_stores(s, c as usize);
        }
    }
}

/// The backward pass of a graph of operations that work element by element is fused: it has one
/// kernel for each input that some node takes, and the kernel runs straight through and stores what
/// [`gradient`] says the pass adds up for the input.
pub proof fn lemma_backward_pass_stores(
    nodes: Seq<Node>,
    meta: Metadata,
    saved: Seq<SaveIndicator>,
    tile: u32,
    chain: Chain,
)
    requires
        schedulable(nodes, meta),
        tile * tile <= u32::MAX,
        pointwise_from(nodes, 0),
        backward_pass(nodes, meta, saved, tile) == Ok::<Chain, Error>(chain),
        nodes.len() <= usize::MAX,
        chain.params.len() <= usize::MAX,
    ensures
        chain.steps.len() == taken_inputs(nodes, nodes.len()).len(),
        forall|i: int|
            0 <= i < chain.steps.len() ==> (
            #[trigger] chain.steps[i]).kernel.raw.root == taken_inputs(nodes, nodes.len())[i] && (
            chain.steps[i].kernel.raw.small() ==> stores_gradient(
                chain.steps[i].kernel.raw,
                backward_setup(nodes, meta, saved, tile).grad_params[taken_inputs(
                    nodes,
                    nodes.len(),
                )[i] as int]->0,
                nodes,
                backward_setup(nodes, meta, saved, tile).saved_params,
                taken_inputs(nodes, nodes.len())[i],
            )),
{
    let s = backward_setup(nodes, meta, saved, tile);
    lemma_backward_setup(nodes, meta, saved, tile);
    lemma_passes_store(s, nodes.len());
}

} // verus!
