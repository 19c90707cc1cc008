//! What the kernels of the passes store.

use vstd::prelude::*;

use crate::dispatch::backend::kernel::forward::{
    forward_pass, forward_root, forward_round, forward_rounds, forward_setup, input_slots,
    lemma_untaken_missing, node_value, operand_slots, sinks, sinks_lower, unfinished, untaken,
    ForwardSetup,
};
use crate::dispatch::backend::kernel::frame::{
    has_operands, resolve, sorted, tail, Operand, Scope,
};
use crate::dispatch::backend::kernel::index::opened;
use crate::dispatch::backend::kernel::plan::{
    blocked, depending, forward_flags, marked, more_roots, param_run, schedulable, slots, Chain,
    Plan,
};
use crate::dispatch::backend::kernel::raw::{LinkedView, RawView};
use crate::dispatch::backend::kernel::save::SaveIndicator;
use crate::dispatch::backend::meaning::facts::group_meaning;
use crate::dispatch::backend::meaning::forward::{
    denoted, inputs_apart, is_joined, lemma_node_value_held, pointwise, pointwise_op, prepared,
};
use crate::dispatch::backend::meaning::index::{lemma_flat, lemma_opened_flat};
use crate::dispatch::backend::meaning::saves::{
    covers, lemma_node_value_saves, lemma_saves_extend,
};
use crate::dispatch::backend::meaning::{extends, lemma_conditions_extend, lemma_read_extends};
use crate::dispatch::backend::sound::lower::lemma_node_value_sound;
use crate::dispatch::backend::sound::marks::group_marks;
use crate::dispatch::backend::sound::pass::{lemma_blocked_finished, lemma_opened_sound};
use crate::dispatch::backend::sound::group_sound;
use crate::dispatch::backend::std_lib;
use crate::dispatch::backend::std_lib::binary::{binary_lowering, binary_value};
use crate::dispatch::backend::std_lib::unary::unary_lowering;
use crate::dispatch::backend::{
    Axis, DType, GraphOp, Metadata, Node, NodeId, Op, Param, ParamId, ParamTy, ValueId, ValueState,
};
use crate::errors::Error;
use crate::scalar::{Float32, ZERO_BITS};

verus! {

/// Whether a kernel runs straight through and ends with a store of what a node is, at the index of
/// the store, and stores at the same index what every other node is that it computes on the way and
/// that the pass saves. GELU, which saves the tangent that it computes instead, is not among these.
pub open spec fn stores_node(
    k: RawView,
    output: ParamId,
    nodes: Seq<Node>,
    inputs: Seq<Option<ParamId>>,
    saved: Seq<Option<ParamId>>,
    n: NodeId,
) -> bool {
    &&& k.straight()
    &&& k.guards().len() == 0
    &&& k.ops.len() > 0
    &&& k.ops.last() matches Op::ParamStore { param, index, value }
    &&& param == output
    &&& k.held(value) == denoted(nodes, inputs, n, k.held(index))
    &&& forall|m: NodeId| #[trigger]
        covers(nodes, n, m) && nodes[m as int].op.auto_saved() && saved[m as int] is Some
            ==> k.saves(
            saved[m as int]->0,
            k.held(index),
            denoted(nodes, inputs, m, k.held(index)),
        )
}

/// A block changes nothing that a kernel computes.
pub proof fn lemma_blocked_held(
    nodes: Seq<Node>,
    kernel: LinkedView,
    ids: Seq<NodeId>,
    count: nat,
    size: u32,
)
    requires
        kernel.raw.sound(),
        kernel.raw.small(),
    ensures
        ({
            let q = blocked(nodes, kernel, ids, count, size).raw;
            let r = kernel.raw;
            &&& q.values == r.values
            &&& q.ops == r.ops
            &&& q.guards() == r.guards()
            &&& q.straight() == r.straight()
            &&& forall|j: ValueId| #[trigger] q.solid(j) == r.solid(j)
            &&& forall|j: ValueId| #![trigger q.held(j)] j < r.span() ==> q.held(j) == r.held(j)
        }),
{
    lemma_blocked_same(nodes, kernel, ids, count, size);
    let q = blocked(nodes, kernel, ids, count, size).raw;
    let r = kernel.raw;
    reveal(RawView::built);
    reveal(RawView::held);
    reveal(RawView::guards);
    reveal(RawView::straight);
    reveal(RawView::apart);
    lemma_conditions_extend(r, q, r.ops.len());
    assert forall|j: ValueId| #![trigger q.held(j)] j < r.span() implies q.held(j) == r.held(j) by {
        lemma_read_extends(r, q, r.ops.len(), j);
    }
}

pub proof fn lemma_blocked_same(
    nodes: Seq<Node>,
    kernel: LinkedView,
    ids: Seq<NodeId>,
    count: nat,
    size: u32,
)
    ensures
        blocked(nodes, kernel, ids, count, size).raw.values == kernel.raw.values,
        blocked(nodes, kernel, ids, count, size).raw.ops == kernel.raw.ops,
        blocked(nodes, kernel, ids, count, size).raw.root == kernel.raw.root,
    decreases count,
{
    if count > 0 {
        lemma_blocked_same(nodes, kernel, ids, (count - 1) as nat, size);
    }
}

/// What a forward pass lowers a root with: its scope, the kernel that it opens, the variable of the
/// result, and the index.
pub open spec fn begun(s: ForwardSetup, root: NodeId, p: Plan) -> (
    Scope,
    LinkedView,
    ValueId,
    ValueId,
) {
    let (kernel, base, gid) = opened(
        s.meta,
        s.params.len(),
        seq![s.tile, s.tile, 1],
        root,
        s.nodes[root as int].shape@,
        false,
    );
    let (raw, tile_size) = kernel.raw.def(
        DType::UnsignedInt,
        ValueState::Const,
        Some(Op::ConstU32 { value: s.tile }),
    );
    let (raw, local_row) = raw.let_u(Op::LocalId { axis: Axis::Y });
    let (raw, local_col) = raw.let_u(Op::LocalId { axis: Axis::X });
    let (raw, out) = raw.def(DType::Float, ValueState::Mut, None);
    let scope = Scope {
        nodes: s.nodes,
        node_params: s.node_params,
        saved_params: s.saved_params,
        base,
        local_row,
        local_col,
        shared_size: (s.tile * s.tile) as u32,
        tile_size,
        since: p.resolved.len() as usize,
    };
    (scope, LinkedView { raw, ..kernel }, out, gid)
}

proof fn lemma_begun(s: ForwardSetup, root: NodeId, p: Plan)
    requires
        s.ready(),
        root < s.nodes.len(),
        s.nodes[root as int].inputs@.len() > 0,
    ensures
        ({
            let (f, k, out, gid) = begun(s, root, p);
            &&& f.settled(k)
            &&& k.finished(s.params.len())
            &&& k.raw.root == root
            &&& out < k.raw.span()
            &&& gid < k.raw.span()
        }),
{
    let shape = s.nodes[root as int].shape@;
    assert forall|i: int| 0 <= i < shape.len() implies #[trigger] shape[i] < s.meta.count() by {
        assert(s.nodes[root as int].shape@[i] < s.meta.count());
    }
    let block = seq![s.tile, s.tile, 1];
    lemma_opened_sound(s.meta, s.params.len(), block, root, shape, false);
    broadcast use {group_sound, group_marks};

}

/// Whether a kernel has just been opened, and can compute into a variable.
proof fn lemma_begun_prepared(s: ForwardSetup, root: NodeId, p: Plan)
    requires
        s.ready(),
        root < s.nodes.len(),
        s.nodes[root as int].inputs@.len() > 0,
        inputs_apart(s.nodes, s.node_params, s.saved_params),
        begun(s, root, p).1.raw.small(),
    ensures
        ({
            let (f, k, out, gid) = begun(s, root, p);
            prepared(f, k, out, gid) && k.raw.straight()
        }),
{
    let shape = s.nodes[root as int].shape@;
    assert forall|i: int| 0 <= i < shape.len() implies #[trigger] shape[i] < s.meta.count() by {
        assert(s.nodes[root as int].shape@[i] < s.meta.count());
    }
    let block = seq![s.tile, s.tile, 1];
    lemma_begun(s, root, p);
    lemma_opened_sound(s.meta, s.params.len(), block, root, shape, false);
    let kernel = opened(s.meta, s.params.len(), block, root, shape, false).0;
    assert(kernel.raw.small()) by {
        broadcast use group_sound;

    }
    lemma_opened_flat(s.meta, s.params.len(), block, root, shape, false);
    lemma_flat(kernel.raw);
    broadcast use {group_sound, group_meaning};

}

/// The kernel of a root of the first round stores what the root is, where all the operations up to
/// the root work element by element.
pub proof fn lemma_forward_root_stores(s: ForwardSetup, root: NodeId, p: Plan)
    requires
        s.ready(),
        root < s.nodes.len(),
        s.nodes[root as int].inputs@.len() > 0,
        s.nodes[root as int].op.computed_gid(),
        pointwise(s.nodes, root),
        inputs_apart(s.nodes, s.node_params, s.saved_params),
        !p.resolved.contains(root),
        forward_root(s, root, true, p) is Ok,
        (forward_root(s, root, true, p)->Ok_0).steps.last().kernel.raw.small(),
    ensures
        stores_node(
            (forward_root(s, root, true, p)->Ok_0).steps.last().kernel.raw,
            s.output,
            s.nodes,
            s.node_params,
            s.saved_params,
            root,
        ),
{
    let size = (s.tile * s.tile) as u32;
    let (f, k, out, gid) = begun(s, root, p);
    lemma_begun(s, root, p);
    let node = Operand::Node(root);
    lemma_node_value_sound(f, node, out, k, p.resolved, gid, true);
    let l = node_value(f, node, out, k, p.resolved, gid, true);
    let ids = l.nodes->Ok_0;
    let b = blocked(s.nodes, l.kernel, ids, ids.len(), size);
    lemma_blocked_finished(s.nodes, l.kernel, ids, ids.len(), size, s.params.len());
    let store = Op::ParamStore { param: s.output, index: gid, value: out };
    let q = b.raw.emit(store);
    let done = forward_root(s, root, true, p)->Ok_0;
    assert(done.steps.last().kernel.raw == q);
    assert(q.span() == b.raw.span()) by {
        broadcast use group_sound;

    }
    lemma_begun_prepared(s, root, p);
    lemma_node_value_held(f, root, out, k, p.resolved, gid);
    lemma_blocked_held(s.nodes, l.kernel, ids, ids.len(), size);
    assert(q.held(out) == b.raw.held(out) && q.held(gid) == b.raw.held(gid) && q.straight()
        && q.guards() == b.raw.guards()) by {
        broadcast use {group_sound, group_meaning};

    }
    assert(q.ops.len() > 0 && q.ops.last() == store) by {
        reveal(RawView::emit);
    }
    assert(l.kernel.raw.held(gid) == k.raw.held(gid));
    assert(q.held(out) == denoted(s.nodes, s.node_params, root, q.held(gid)));
    assert(extends(l.kernel.raw, q)) by {
        reveal(RawView::emit);
    }
    assert forall|m: NodeId| #[trigger]
        covers(s.nodes, root, m) && s.nodes[m as int].op.auto_saved()
            && s.saved_params[m as int] is Some implies q.saves(
        s.saved_params[m as int]->0,
        q.held(gid),
        denoted(s.nodes, s.node_params, m, q.held(gid)),
    ) by {
        let param = s.saved_params[m as int]->0;
        lemma_node_value_saves(f, root, out, k, p.resolved, gid, m, param);
        lemma_saves_extend(
            l.kernel.raw,
            q,
            param,
            q.held(gid),
            denoted(s.nodes, s.node_params, m, q.held(gid)),
        );
    }
}

/// Whether the slots that are taken hold parameters from some number on.
spec fn slots_from(slots: Seq<Option<ParamId>>, params: Seq<Param>, low: nat) -> bool {
    &&& low <= params.len()
    &&& forall|m: int|
        0 <= m < slots.len() ==> (#[trigger] slots[m] matches Some(p) ==> low <= p < params.len())
}

proof fn lemma_operand_slots_from(
    nodes: Seq<Node>,
    n: int,
    count: nat,
    s: (Seq<Option<ParamId>>, Seq<Param>),
    low: nat,
)
    requires
        sorted(nodes),
        0 <= n < nodes.len(),
        count <= nodes[n].inputs@.len(),
        s.0.len() == nodes.len(),
        slots_from(s.0, s.1, low),
        operand_slots(nodes, n, count, s).1.len() <= usize::MAX,
    ensures
        operand_slots(nodes, n, count, s).0.len() == nodes.len(),
        slots_from(
            operand_slots(nodes, n, count, s).0,
            operand_slots(nodes, n, count, s).1,
            low,
        ),
        operand_slots(nodes, n, count, s).1.len() >= s.1.len(),
    decreases count,
{
    if count > 0 {
        assert(nodes[n].inputs@[count - 1] < n);
        lemma_operand_slots_from(nodes, n, (count - 1) as nat, s, low);
    }
}

proof fn lemma_operand_slots_grow(
    nodes: Seq<Node>,
    n: int,
    count: nat,
    s: (Seq<Option<ParamId>>, Seq<Param>),
)
    ensures
        operand_slots(nodes, n, count, s).1.len() >= s.1.len(),
    decreases count,
{
    if count > 0 {
        lemma_operand_slots_grow(nodes, n, (count - 1) as nat, s);
    }
}

proof fn lemma_input_slots_from(
    nodes: Seq<Node>,
    count: nat,
    s: (Seq<Option<ParamId>>, Seq<Param>),
    low: nat,
)
    requires
        sorted(nodes),
        count <= nodes.len(),
        s.0.len() == nodes.len(),
        slots_from(s.0, s.1, low),
        input_slots(nodes, count, s).1.len() <= usize::MAX,
    ensures
        input_slots(nodes, count, s).0.len() == nodes.len(),
        slots_from(input_slots(nodes, count, s).0, input_slots(nodes, count, s).1, low),
    decreases count,
{
    if count > 0 {
        let t = input_slots(nodes, (count - 1) as nat, s);
        lemma_operand_slots_grow(nodes, count - 1, nodes[count - 1].inputs@.len(), t);
        lemma_input_slots_from(nodes, (count - 1) as nat, s, low);
        lemma_operand_slots_from(nodes, count - 1, nodes[count - 1].inputs@.len(), t, low);
    }
}

pub proof fn lemma_marked_grows(flags: Seq<bool>, m: nat, n: nat)
    requires
        m <= n,
    ensures
        marked(flags, m) <= marked(flags, n),
    decreases n,
{
    if m < n {
        lemma_marked_grows(flags, m, (n - 1) as nat);
    }
}

/// Whether the output of a forward pass is neither an input nor a result that it saves.
pub open spec fn outputs_apart(s: ForwardSetup) -> bool {
    &&& forall|n: int|
        0 <= n < s.nodes.len() && s.nodes[n].op is Input ==> #[trigger] s.node_params[n] != Some(
            s.output,
        )
    &&& forall|n: int| 0 <= n < s.nodes.len() ==> #[trigger] s.saved_params[n] != Some(s.output)
}

/// The parameters of a forward pass fit, no result is saved to the parameter of an input, and the
/// output is a parameter of its own.
pub proof fn lemma_forward_setup(
    nodes: Seq<Node>,
    meta: Metadata,
    saved: Seq<SaveIndicator>,
    tile: u32,
)
    requires
        schedulable(nodes, meta),
        tile * tile <= u32::MAX,
        forward_setup(nodes, meta, saved, tile).params.len() <= usize::MAX,
    ensures
        forward_setup(nodes, meta, saved, tile).ready(),
        inputs_apart(
            nodes,
            forward_setup(nodes, meta, saved, tile).node_params,
            forward_setup(nodes, meta, saved, tile).saved_params,
        ),
        outputs_apart(forward_setup(nodes, meta, saved, tile)),
{
    let s = forward_setup(nodes, meta, saved, tile);
    let flags = forward_flags(saved, nodes.len());
    let first = seq![Param { dtype: DType::UnsignedInt, ty: ParamTy::Uniform, pid: 0 }];
    let kept = first + param_run(1, marked(flags, nodes.len()), ParamTy::ReadWrite);
    let none = Seq::new(nodes.len(), |n: int| None::<ParamId>);
    lemma_input_slots_from(nodes, nodes.len(), (none, kept), kept.len());
    let (taken, params) = input_slots(nodes, nodes.len(), (none, kept));
    assert forall|m: int| 0 <= m < nodes.len() implies (#[trigger] s.saved_params[m] matches Some(p)
        ==> p < kept.len()) by {
        lemma_marked_grows(flags, (m + 1) as nat, nodes.len());
    }
    assert forall|n: int| 0 <= n < nodes.len() implies (#[trigger] s.node_params[n] matches Some(p)
        ==> kept.len() <= p < s.params.len()) by {
        assert(taken[n] matches Some(p) ==> kept.len() <= p < params.len());
    }
}

/// Whether every node that another takes has an output.
pub open spec fn taken_back(nodes: Seq<Node>) -> bool {
    forall|n: int, i: int|
        0 <= n < nodes.len() && 0 <= i < nodes[n].inputs@.len() ==> nodes[(
        #[trigger] nodes[n].inputs@[i]) as int].outputs@.len() > 0
}

/// The nodes that an element by element node reaches are resolved, and besides the node itself only
/// nodes that others take.
proof fn lemma_node_value_resolved(
    f: Scope,
    n: NodeId,
    out: ValueId,
    kernel: LinkedView,
    resolved: Seq<NodeId>,
    idx: ValueId,
)
    requires
        f.placed(Operand::Node(n)),
        pointwise(f.nodes, n),
        forall|m: int| 0 <= m < f.nodes.len() ==> #[trigger] has_operands(f.nodes, m),
        taken_back(f.nodes),
        node_value(f, Operand::Node(n), out, kernel, resolved, idx, true).nodes is Ok,
    ensures
        ({
            let l = node_value(f, Operand::Node(n), out, kernel, resolved, idx, true);
            &&& forall|m: NodeId| resolved.contains(m) ==> #[trigger] l.resolved.contains(m)
            &&& forall|m: NodeId|
                (l.nodes->Ok_0).contains(m) ==> #[trigger] l.resolved.contains(m)
            &&& forall|m: NodeId| #[trigger]
                l.resolved.contains(m) ==> resolved.contains(m) || m == n || f.node(
                    m,
                ).outputs@.len() > 0
        }),
    decreases n,
{
    let op = f.node(n).op;
    let l = node_value(f, Operand::Node(n), out, kernel, resolved, idx, true);
    assert(pointwise_op(f.nodes[n as int].op));
    let own: Seq<NodeId> = if f.node(n).inputs@.len() > 0 {
        seq![n]
    } else {
        Seq::empty()
    };
    let k = kernel.computes(op);
    match op {
        GraphOp::Custom { lower, .. } => {
            assert(has_operands(f.nodes, n as int));
            assert(f.nodes[n as int].inputs@[0] < n);
            let m = std_lib::lowering(f, None, n, out, k, resolved, idx, true);
            let ids = m.nodes->Ok_0;
            if is_joined(lower) {
                assert(f.nodes[n as int].inputs@[1] < n);
                assert(m == binary_lowering(lower, f, None, n, out, k, resolved, idx, true));
                assert(m == binary_value(lower, f, n, out, k, resolved, idx, true));
                let (k1, a_val) = k.def(DType::Float, ValueState::Mut, None);
                let a_node = Operand::Node(f.input(n, 0));
                let a = node_value(f, a_node, a_val, k1, resolved, idx, true);
                lemma_node_value_resolved(f, f.input(n, 0), a_val, k1, resolved, idx);
                let (k2, b_val) = a.kernel.def(DType::Float, ValueState::Mut, None);
                let b_node = Operand::Node(f.input(n, 1));
                let b = node_value(f, b_node, b_val, k2, a.resolved, idx, true);
                lemma_node_value_resolved(f, f.input(n, 1), b_val, k2, a.resolved, idx);
                assert(ids == a.nodes->Ok_0 + b.nodes->Ok_0);
                assert forall|x: NodeId| ids.contains(x) implies m.resolved.contains(x) by {
                    let j = ids.index_of(x);
                    if j < (a.nodes->Ok_0).len() {
                        assert((a.nodes->Ok_0)[j] == x);
                        assert(a.resolved.contains(x));
                    } else {
                        assert((b.nodes->Ok_0)[j - (a.nodes->Ok_0).len()] == x);
                    }
                }
                assert forall|x: NodeId| resolved.contains(x) implies m.resolved.contains(x) by {
                    assert(a.resolved.contains(x));
                }
            } else {
                assert(m == unary_lowering(lower, f, None, n, out, k, resolved, idx, true));
                let zero = Op::ConstF32 { value: Float32 { bits: ZERO_BITS } };
                let (raw, upstream) = k.raw.var_f(zero);
                let k1 = LinkedView { raw, ..k };
                lemma_node_value_resolved(f, f.input(n, 0), upstream, k1, resolved, idx);
            }
            assert(l.nodes->Ok_0 == own + ids);
            lemma_resolve(m.resolved, n);
            assert forall|x: NodeId| (own + ids).contains(x) implies l.resolved.contains(x) by {
                let j = (own + ids).index_of(x);
                if j >= own.len() {
                    assert(ids[j - own.len()] == x);
                    assert(m.resolved.contains(x));
                }
            }
        },
        _ => {
            lemma_resolve(resolved, n);
            assert forall|x: NodeId| own.contains(x) implies l.resolved.contains(x) by {}
        },
    }
}

pub proof fn lemma_resolve(resolved: Seq<NodeId>, n: NodeId)
    ensures
        resolve(resolved, n).contains(n),
        forall|m: NodeId| resolved.contains(m) ==> #[trigger] resolve(resolved, n).contains(m),
        forall|m: NodeId| #[trigger]
            resolve(resolved, n).contains(m) ==> resolved.contains(m) || m == n,
{
    assert forall|m: NodeId| resolved.contains(m) implies #[trigger] resolve(
        resolved,
        n,
    ).contains(m) by {
        let j = resolved.index_of(m);
        assert(resolve(resolved, n)[j] == m);
    }
    if !resolved.contains(n) {
        assert(resolve(resolved, n)[resolved.len() as int] == n);
    }
}

/// Nodes that are resolved become no roots.
proof fn lemma_no_more_roots(
    roots: Seq<NodeId>,
    ids: Seq<NodeId>,
    count: nat,
    resolved: Seq<NodeId>,
    root: NodeId,
)
    requires
        count <= ids.len(),
        forall|i: int| 0 <= i < ids.len() ==> resolved.contains(#[trigger] ids[i]),
    ensures
        more_roots(roots, ids, count, resolved, root) == roots,
    decreases count,
{
    if count > 0 {
        lemma_no_more_roots(roots, ids, (count - 1) as nat, resolved, root);
        assert(resolved.contains(ids[count - 1]));
    }
}

/// Whether all the operations of a graph work element by element, one element for each thread.
pub open spec fn pointwise_graph(nodes: Seq<Node>) -> bool {
    forall|n: int|
        0 <= n < nodes.len() ==> pointwise_op((#[trigger] nodes[n]).op) && (
        nodes[n].inputs@.len() > 0 ==> nodes[n].op.computed_gid())
}

/// Whether the kernels of a plan are those of the first roots, and store what these are.
spec fn plan_stores(s: ForwardSetup, roots: Seq<NodeId>, count: nat, p: Plan) -> bool {
    &&& p.roots.len() == 0
    &&& p.steps.len() == count
    &&& forall|i: int|
        0 <= i < count ==> (#[trigger] p.steps[i]).kernel.raw.root == roots[i] && (
        p.steps[i].kernel.raw.small() ==> stores_node(
            p.steps[i].kernel.raw,
            s.output,
            s.nodes,
            s.node_params,
            s.saved_params,
            roots[i],
        ))
    &&& forall|m: NodeId| #[trigger]
        p.resolved.contains(m) ==> s.nodes[m as int].outputs@.len() > 0 || roots.take(
            count as int,
        ).contains(m)
}

proof fn lemma_root_step(s: ForwardSetup, roots: Seq<NodeId>, count: nat, p: Plan)
    requires
        s.ready(),
        pointwise_graph(s.nodes),
        taken_back(s.nodes),
        inputs_apart(s.nodes, s.node_params, s.saved_params),
        count < roots.len(),
        roots.no_duplicates(),
        roots[count as int] < s.nodes.len(),
        s.nodes[roots[count as int] as int].inputs@.len() > 0,
        s.nodes[roots[count as int] as int].outputs@.len() == 0,
        plan_stores(s, roots, count, p),
        forward_root(s, roots[count as int], true, p) is Ok,
    ensures
        plan_stores(
            s,
            roots,
            count + 1,
            forward_root(s, roots[count as int], true, p)->Ok_0,
        ),
{
    let root = roots[count as int];
    if p.resolved.contains(root) {
        let j = roots.take(count as int).index_of(root);
        assert(roots[j] == root);
    }
    let size = (s.tile * s.tile) as u32;
    let q = forward_root(s, root, true, p)->Ok_0;
    assert(pointwise(s.nodes, root)) by {
        assert forall|m: int| 0 <= m <= root implies pointwise_op(#[trigger] s.nodes[m].op) by {
            assert(pointwise_op(s.nodes[m].op));
        }
    }
    let (f, k, out, gid) = begun(s, root, p);
    lemma_begun(s, root, p);
    let node = Operand::Node(root);
    let l = node_value(f, node, out, k, p.resolved, gid, true);
    lemma_node_value_sound(f, node, out, k, p.resolved, gid, true);
    lemma_node_value_resolved(f, root, out, k, p.resolved, gid);
    let ids = l.nodes->Ok_0;
    let reached = tail(ids);
    assert forall|i: int| 0 <= i < reached.len() implies l.resolved.contains(
        #[trigger] reached[i],
    ) by {
        assert(ids.contains(reached[i]));
    }
    lemma_no_more_roots(p.roots, reached, reached.len(), l.resolved, root);
    lemma_blocked_finished(s.nodes, l.kernel, ids, ids.len(), size, s.params.len());
    let b = blocked(s.nodes, l.kernel, ids, ids.len(), size);
    assert(b.store(s.output, gid, out).raw.root == root) by {
        broadcast use group_sound;

    }
    assert(q.steps.last().kernel.raw.root == root);
    if q.steps.last().kernel.raw.small() {
        lemma_forward_root_stores(s, root, p);
    }
    assert forall|i: int| 0 <= i < count + 1 implies (#[trigger] q.steps[i]).kernel.raw.root
        == roots[i] && (q.steps[i].kernel.raw.small() ==> stores_node(
        q.steps[i].kernel.raw,
        s.output,
        s.nodes,
        s.node_params,
        s.saved_params,
        roots[i],
    )) by {
        if i < count {
            assert(q.steps[i] == depending(p.steps, root, false)[i]);
            assert(q.steps[i].kernel == p.steps[i].kernel);
        }
    }
    let done = roots.take((count + 1) as int);
    assert forall|m: NodeId| #[trigger] q.resolved.contains(m) implies s.nodes[m as int].outputs@.len()
        > 0 || done.contains(m) by {
        if p.resolved.contains(m) && roots.take(count as int).contains(m) {
            let j = roots.take(count as int).index_of(m);
            assert(done[j] == m);
        }
        if m == root {
            assert(done[count as int] == m);
        }
    }
}

/// Whether a node is an input that no parameter holds.
spec fn refused(s: ForwardSetup, n: NodeId) -> bool {
    s.nodes[n as int].op is Input && s.node_params[n as int] is None
}

proof fn lemma_round_stores(s: ForwardSetup, roots: Seq<NodeId>, count: nat, p: Plan)
    requires
        s.ready(),
        pointwise_graph(s.nodes),
        taken_back(s.nodes),
        inputs_apart(s.nodes, s.node_params, s.saved_params),
        count <= roots.len(),
        roots.no_duplicates(),
        forall|i: int|
            0 <= i < roots.len() ==> #[trigger] roots[i] < s.nodes.len() && (
            s.nodes[roots[i] as int].inputs@.len() > 0 || refused(s, roots[i]))
                && s.nodes[roots[i] as int].outputs@.len() == 0,
        p.roots.len() == 0,
        p.steps.len() == 0,
        p.resolved.len() == 0,
        forward_round(s, roots, count, true, p) is Ok,
    ensures
        plan_stores(s, roots, count, forward_round(s, roots, count, true, p)->Ok_0),
    decreases count,
{
    if count > 0 {
        let c = (count - 1) as nat;
        lemma_round_stores(s, roots, c, p);
        let q = forward_round(s, roots, c, true, p)->Ok_0;
        let root = roots[c as int];
        assert(root < s.nodes.len());
        if q.resolved.contains(root) {
            let j = roots.take(c as int).index_of(root);
            assert(roots[j] == root);
        }
        lemma_root_step(s, roots, c, q);
    }
}

pub proof fn lemma_sinks(nodes: Seq<Node>, count: nat)
    requires
        count <= nodes.len() <= usize::MAX,
    ensures
        sinks(nodes, count).no_duplicates(),
        forall|i: int|
            0 <= i < sinks(nodes, count).len() ==> #[trigger] sinks(nodes, count)[i] < count
                && nodes[sinks(nodes, count)[i] as int].outputs@.len() == 0,
    decreases count,
{
    if count > 0 {
        lemma_sinks(nodes, (count - 1) as nat);
    }
}

/// A graph of operations that work element by element is fused: its forward pass has one kernel for
/// each node that nothing takes, and the kernel runs straight through and stores what the node is,
/// and saves what the nodes are that it computes on the way.
pub proof fn lemma_forward_pass_stores(
    nodes: Seq<Node>,
    meta: Metadata,
    saved: Seq<SaveIndicator>,
    tile: u32,
    chain: Chain,
)
    requires
        schedulable(nodes, meta),
        sinks_lower(nodes),
        tile * tile <= u32::MAX,
        pointwise_graph(nodes),
        taken_back(nodes),
        forward_pass(nodes, meta, saved, tile) == Ok::<Chain, Error>(chain),
        nodes.len() <= usize::MAX,
        chain.params.len() <= usize::MAX,
    ensures
        chain.steps.len() == if unfinished(nodes, sinks(nodes, nodes.len())) {
            sinks(nodes, nodes.len()).len()
        } else {
            0
        },
        forall|i: int|
            0 <= i < chain.steps.len() ==> (#[trigger] chain.steps[i]).kernel.raw.root == sinks(
                nodes,
                nodes.len(),
            )[i] && (chain.steps[i].kernel.raw.small() ==> stores_node(
                chain.steps[i].kernel.raw,
                forward_setup(nodes, meta, saved, tile).output,
                nodes,
                forward_setup(nodes, meta, saved, tile).node_params,
                forward_setup(nodes, meta, saved, tile).saved_params,
                sinks(nodes, nodes.len())[i],
            )),
{
    let s = forward_setup(nodes, meta, saved, tile);
    let roots = sinks(nodes, nodes.len());
    let start = Plan { steps: Seq::empty(), roots, resolved: Seq::empty() };
    lemma_forward_setup(nodes, meta, saved, tile);
    lemma_sinks(nodes, nodes.len());
    let p = Plan { roots: Seq::empty(), ..start };
    if unfinished(nodes, roots) {
        assert forall|i: int| 0 <= i < roots.len() implies #[trigger] roots[i] < s.nodes.len() && (
        s.nodes[roots[i] as int].inputs@.len() > 0 || refused(s, roots[i]))
            && s.nodes[roots[i] as int].outputs@.len() == 0 by {
            if untaken(nodes, roots[i] as int) {
                lemma_untaken_missing(nodes, meta, saved, tile, roots[i], true, p);
            }
        }
        lemma_round_stores(s, roots, roots.len(), p);
        let q = forward_round(s, roots, roots.len(), true, p)->Ok_0;
        assert(!unfinished(nodes, q.roots));
        reveal_with_fuel(forward_rounds, 2);
    }
}

} // verus!
