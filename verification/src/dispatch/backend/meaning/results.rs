//! What the kernels of a forward pass store, where operations that work element by element are fused
//! with products of matrices.

use vstd::prelude::*;

use crate::dispatch::backend::kernel::forward::{
    forward_pass, forward_root, forward_round, forward_rounds, forward_setup, node_value, sinks,
    unfinished, ForwardSetup,
};
use crate::dispatch::backend::kernel::frame::{tail, Operand};
use crate::dispatch::backend::kernel::index::opened;
use crate::dispatch::backend::kernel::plan::{
    depending, lemma_more_roots, more_roots, schedulable, Chain, Plan, Step,
};
use crate::dispatch::backend::kernel::raw::RawView;
use crate::dispatch::backend::kernel::save::SaveIndicator;
use crate::dispatch::backend::meaning::emitted::lemma_extends_on;
use crate::dispatch::backend::meaning::fused::{
    fusible, kept_at, lemma_kept_lasts, lemma_node_grows, lemma_store, loads, measured, right,
    saves, value_at, Scene, Stage,
};
use crate::dispatch::backend::meaning::opening::{
    grid, lemma_blocked_any, lemma_grid_extends, lemma_index_fits, lemma_opened_grid, lemma_opening,
    lemma_set_up_extends, lies_in, sets_up,
};
use crate::dispatch::backend::meaning::pass::{
    begun, lemma_forward_setup, lemma_sinks, outputs_apart, taken_back,
};
use crate::dispatch::backend::meaning::product::{goes_on, stored_on};
use crate::dispatch::backend::meaning::reach::{
    fetches, lemma_node_finds, lemma_node_reaches, resolves, under, works_out,
};
use crate::dispatch::backend::meaning::spared::lemma_node_keeps;
use crate::dispatch::backend::meaning::sums::lemma_block_start;
use crate::dispatch::backend::meaning::tiles::{
    advances, fresh, item, lemma_advance_on, lemma_run_done, run, stores, thread, var, Item, Place,
    Write,
};
use crate::dispatch::backend::meaning::{changes, extends, untouched};
use crate::dispatch::backend::{
    DispatchOptions, MetaId, Metadata, Node, NodeId, Op, OpName, ParamId, ValueId,
};
use crate::errors::Error;

verus! {

/// The dimensions of the matrix of a node.
pub open spec fn matrix_of(nodes: Seq<Node>, n: NodeId) -> (MetaId, MetaId) {
    (nodes[n as int].shape@[0], nodes[n as int].shape@[1])
}

/// Whether one kernel can compute a node, in the places of its matrix.
pub open spec fn lowers(nodes: Seq<Node>, n: NodeId) -> bool {
    &&& nodes[n as int].shape@.len() == 2
    &&& fusible(nodes, n, Some(matrix_of(nodes, n)))
}

/// Whether a block lies in the matrix of a node, the sums of the products that the node is made of
/// run over multiples of the tile, and all the places in the matrices are unsigned integers.
pub open spec fn covers(nodes: Seq<Node>, w: Place, tile: u32, n: NodeId) -> bool {
    let g = matrix_of(nodes, n);
    &&& lies_in(w, tile as int, w.fields[g.0 as int] as int, w.fields[g.1 as int] as int)
    &&& measured(nodes, w, tile, n, Some(g))
}

/// Whether no result is both computed and loaded by the kernel of a node.
pub open spec fn unmixed(z: Scene, n: NodeId) -> bool {
    let g = Some(matrix_of(z.nodes, n));
    forall|p: ParamId| #[trigger] loads(z, n, g, p) ==> !saves(z, n, g, p)
}

/// Whether a block of a kernel comes to its end, and each of its threads has stored what it computes
/// on the way to a node, in its place, at last to the output what the node is, if there is one, and
/// nothing else.
pub open spec fn tells(
    k: RawView,
    w: Place,
    tile: u32,
    z: Scene,
    n: NodeId,
    output: Option<ParamId>,
) -> bool {
    let t = run(k, w, 0, k.ops.len(), fresh());
    let g = matrix_of(z.nodes, n);
    &&& k.block == seq![tile, tile, 1u32]
    &&& !t.stuck
    &&& forall|r: int, c: int| #[trigger]
        thread(k, r, c) ==> {
            let row = w.row * tile + r;
            let col = w.col * tile + c;
            let x = row * z.fields[g.1 as int] + col;
            let done = stores(t, r, c);
            &&& kept_at(z, n, Some(g), tile, r, c, done, x)
            &&& match output {
                Some(param) => {
                    &&& done.len() > 0
                    &&& done.last() == (Write {
                        param,
                        index: Item::Int(x),
                        value: Item::Real(value_at(z, n, Some(g), x)),
                    })
                    &&& forall|i: int| 0 <= i < done.len() - 1 ==> right(z, #[trigger] done[i])
                },
                None => forall|i: int| 0 <= i < done.len() ==> right(z, #[trigger] done[i]),
            }
        }
}

/// A graph, its parameters in a forward pass, and the dimensions.
pub open spec fn scene_of(s: ForwardSetup, fields: Seq<u32>) -> Scene {
    Scene { nodes: s.nodes, inputs: s.node_params, saved: s.saved_params, fields }
}

/// The output of a kernel: that of the pass, where the kernel is one of the first round and each of
/// its threads has an element.
pub open spec fn output_of(s: ForwardSetup, root: NodeId, first: bool) -> Option<ParamId> {
    if first && s.nodes[root as int].op.computed_gid() {
        Some(s.output)
    } else {
        None
    }
}

/// How the kernel of a root begins.
proof fn lemma_begins(s: ForwardSetup, root: NodeId, p: Plan)
    requires
        s.nodes[root as int].shape@.len() == 2,
    ensures
        ({
            let (f, k, out, gid) = begun(s, root, p);
            let g = matrix_of(s.nodes, root);
            &&& grid(k.raw, g.0, g.1, false)
            &&& sets_up(k.raw, s.tile, false)
            &&& k.raw.values.len() == 9
            &&& k.raw.ops.len() == 13
            &&& k.raw.shared.len() == 0
            &&& k.raw.block == seq![s.tile, s.tile, 1u32]
            &&& k.raw.root == root
            &&& f.base == 3 && f.tile_size == 5 && f.local_row == 6 && f.local_col == 7
            &&& out == 8
            &&& gid == 2
        }),
{
    lemma_opened_grid(
        s.meta,
        s.params.len(),
        seq![s.tile, s.tile, 1],
        root,
        s.nodes[root as int].shape@,
        false,
    );
    let (kernel, base, gid) = opened_of(s, root);
    let (f, k, out, gid2) = begun(s, root, p);
    assert(extends(kernel, k.raw) && sets_up(k.raw, s.tile, false) && k.raw.values.len() == 9
        && k.raw.ops.len() == 13 && k.raw.shared == kernel.shared && k.raw.block == kernel.block
        && k.raw.root == kernel.root && f.tile_size == 5 && f.local_row == 6 && f.local_col == 7
        && out == 8) by {
        reveal(RawView::def);
    }
    let g = matrix_of(s.nodes, root);
    lemma_grid_extends(kernel, k.raw, g.0, g.1, false);
}

spec fn opened_of(s: ForwardSetup, root: NodeId) -> (RawView, ValueId, ValueId) {
    let (kernel, base, gid) = opened(
        s.meta,
        s.params.len(),
        seq![s.tile, s.tile, 1],
        root,
        s.nodes[root as int].shape@,
        false,
    );
    (kernel.raw, base, gid)
}

/// The beginning of a kernel changes no parameter.
pub proof fn lemma_beginning_keeps(
    k: RawView,
    rows: MetaId,
    cols: MetaId,
    tile: u32,
    backward: bool,
    p: ParamId,
)
    requires
        grid(k, rows, cols, backward),
        sets_up(k, tile, backward),
        k.ops.len() == 13,
    ensures
        k.keeps(p),
{
    reveal(RawView::keeps);
    assert forall|i: int| 0 <= i < k.ops.len() implies !changes(#[trigger] k.ops[i], p) by {
        assert(i == 0 || i == 1 || i == 2 || i == 3 || i == 4 || i == 5 || i == 6 || i == 7 || i == 8
            || i == 9 || i == 10 || i == 11 || i == 12);
    }
}

/// The kernel that a root adds to a plan.
pub open spec fn kernel_of(s: ForwardSetup, root: NodeId, first: bool, p: Plan) -> RawView {
    (forward_root(s, root, first, p)->Ok_0).steps.last().kernel.raw
}

/// What the kernel of a root is: the code of the node, and the store to the output.
proof fn lemma_kernel_of(s: ForwardSetup, root: NodeId, first: bool, p: Plan)
    requires
        s.ready(),
        root < s.nodes.len(),
        lowers(s.nodes, root),
        !p.resolved.contains(root),
        !begun(s, root, p).0.claimed(p.resolved),
        forward_root(s, root, first, p) is Ok,
    ensures
        ({
            let (f, k, out, gid) = begun(s, root, p);
            let l = node_value(f, Operand::Node(root), out, k, p.resolved, gid, true);
            let q = kernel_of(s, root, first, p);
            &&& l.nodes is Ok
            &&& extends(k.raw, l.kernel.raw)
            &&& extends(l.kernel.raw, q)
            &&& q.shared == l.kernel.raw.shared
            &&& q.block == k.raw.block
            &&& q.root == k.raw.root
            &&& match output_of(s, root, first) {
                Some(param) => q == l.kernel.raw.emit(
                    Op::ParamStore { param, index: gid, value: out },
                ) && q.ops.len() == l.kernel.raw.ops.len() + 1 && q.ops[l.kernel.raw.ops.len() as int]
                    == (Op::ParamStore { param, index: gid, value: out }),
                None => q == l.kernel.raw,
            }
        }),
{
    let (f, k, out, gid) = begun(s, root, p);
    let g = matrix_of(s.nodes, root);
    let l = node_value(f, Operand::Node(root), out, k, p.resolved, gid, true);
    assert(l.nodes is Ok);
    lemma_node_grows(f, root, out, k, p.resolved, gid, Some(g));
    let ids = l.nodes->Ok_0;
    let size = (s.tile * s.tile) as u32;
    lemma_blocked_any(s.nodes, l.kernel, ids, ids.len(), size);
    reveal(RawView::emit);
}

/// The kernel of a root stores what the root is, and saves what it computes on the way, in any round
/// of a forward pass.
pub proof fn lemma_forward_root_tells(
    s: ForwardSetup,
    root: NodeId,
    first: bool,
    p: Plan,
    w: Place,
)
    requires
        s.ready(),
        root < s.nodes.len(),
        lowers(s.nodes, root),
        covers(s.nodes, w, s.tile, root),
        unmixed(scene_of(s, w.fields), root),
        forall|p: ParamId| #[trigger]
            loads(scene_of(s, w.fields), root, Some(matrix_of(s.nodes, root)), p) ==> p != s.output,
        !p.resolved.contains(root),
        !begun(s, root, p).0.claimed(p.resolved),
        forward_root(s, root, first, p) is Ok,
        kernel_of(s, root, first, p).values.len() <= usize::MAX,
        kernel_of(s, root, first, p).shared.len() <= usize::MAX,
    ensures
        tells(
            kernel_of(s, root, first, p),
            w,
            s.tile,
            scene_of(s, w.fields),
            root,
            output_of(s, root, first),
        ),
{
    let (f, k, out, gid) = begun(s, root, p);
    let g = matrix_of(s.nodes, root);
    let tile = s.tile;
    let z = scene_of(s, w.fields);
    let l = node_value(f, Operand::Node(root), out, k, p.resolved, gid, true);
    let q = kernel_of(s, root, first, p);
    lemma_kernel_of(s, root, first, p);
    lemma_begins(s, root, p);
    lemma_extends_on(k.raw, l.kernel.raw, q);
    lemma_grid_extends(k.raw, q, g.0, g.1, false);
    lemma_set_up_extends(k.raw, q, tile, false);
    let stage = Stage { f, k: q, w, tile, saving: true };
    assert(stage.scene() == z);
    assert forall|a: ParamId| #[trigger] loads(z, root, Some(g), a) implies untouched(
        q.ops,
        a,
        q.ops.len(),
    ) by {
        lemma_beginning_keeps(k.raw, g.0, g.1, tile, false, a);
        lemma_node_keeps(z, f, root, out, k, p.resolved, gid, Some(g), a);
        reveal(RawView::keeps);
        assert forall|i: int| 0 <= i < q.ops.len() implies !changes(#[trigger] q.ops[i], a) by {
            if i < l.kernel.raw.ops.len() {
                assert(q.ops[i] == l.kernel.raw.ops[i]);
            }
        }
    }
    let t0 = lemma_opening(q, w, g.0, g.1, false, tile);
    let at = |r: int, c: int| stage.cell(g, r, c);
    lemma_block_start(w.row, tile as int);
    lemma_block_start(w.col, tile as int);
    assert forall|r: int, c: int| #[trigger] thread(q, r, c) implies var(t0, r, c, gid)
        == Item::Int(at(r, c)) && 0 <= at(r, c) <= u32::MAX by {
        lemma_index_fits(
            w.row * tile + r,
            w.col * tile + c,
            w.fields[g.0 as int] as int,
            w.fields[g.1 as int] as int,
        );
    }
    assert(stage.may_run(root, out, 9, gid, Some(g), t0, at));
    let t1 = stage.lemma_node_runs(root, out, k, p.resolved, gid, Some(g), t0, at);
    let mid = l.kernel.raw.ops.len();
    lemma_advance_on(q, w, 0, 13, mid, fresh(), t0, t1);
    reveal(stored_on);
    let t2 = match output_of(s, root, first) {
        Some(param) => {
            let put = |r: int, c: int|
                Write {
                    param,
                    index: Item::Int(at(r, c)),
                    value: Item::Real(value_at(z, root, Some(g), at(r, c))),
                };
            assert forall|r: int, c: int| #[trigger] thread(q, r, c) implies put(r, c) == (Write {
                param,
                index: item(q, w, t1, r, c, gid),
                value: item(q, w, t1, r, c, out),
            }) by {
                assert(var(t1, r, c, gid) == var(t0, r, c, gid));
                assert(item(q, w, t1, r, c, gid) == var(t1, r, c, gid));
                assert(item(q, w, t1, r, c, out) == var(t1, r, c, out));
                assert(var(t1, r, c, out) == Item::Real(stage.values(root, Some(g), at)(r, c)));
            }
            let t = lemma_store(q, w, t1, mid, param, gid, out, put);
            lemma_advance_on(q, w, 0, mid, mid + 1, fresh(), t1, t);
            assert forall|r: int, c: int| #[trigger] thread(q, r, c) implies kept_at(
                z,
                root,
                Some(g),
                tile,
                r,
                c,
                stores(t, r, c),
                at(r, c),
            ) && stores(t, r, c).len() > 0 && stores(t, r, c).last() == put(r, c) && forall|i: int|
                0 <= i < stores(t, r, c).len() - 1 ==> right(z, #[trigger] stores(t, r, c)[i]) by {
                let before = stores(t1, r, c);
                assert(goes_on(stores(t0, r, c), before, stage.good()));
                let any_store = |x: Write| true;
                assert(goes_on(before, stores(t, r, c), any_store));
                lemma_kept_lasts(
                    z,
                    root,
                    Some(g),
                    tile,
                    r,
                    c,
                    before,
                    stores(t, r, c),
                    any_store,
                    at(r, c),
                );
                assert forall|i: int| 0 <= i < stores(t, r, c).len() - 1 implies right(
                    z,
                    #[trigger] stores(t, r, c)[i],
                ) by {
                    assert(stores(t, r, c)[i] == before[i]);
                    assert(stage.good()(before[i]));
                }
            }
            t
        },
        None => {
            assert forall|r: int, c: int| #[trigger] thread(q, r, c) implies forall|i: int|
                0 <= i < stores(t1, r, c).len() ==> right(z, #[trigger] stores(t1, r, c)[i]) by {
                let done = stores(t1, r, c);
                assert(goes_on(stores(t0, r, c), done, stage.good()));
                assert forall|i: int| 0 <= i < done.len() implies right(z, #[trigger] done[i]) by {
                    assert(stage.good()(done[i]));
                }
            }
            t1
        },
    };
    assert(run(q, w, 0, q.ops.len(), fresh()) == t2) by {
        reveal(advances);
        lemma_run_done(q, w, q.ops.len(), t2);
    }
}

/// Whether all the operations of a graph work element by element or are products, each of which one
/// kernel can compute.
pub open spec fn fused_graph(nodes: Seq<Node>) -> bool {
    forall|n: int|
        0 <= n < nodes.len() ==> (#[trigger] nodes[n]).op.dispatch() == DispatchOptions::Any && (
        nodes[n].inputs@.len() > 0 ==> lowers(nodes, n as NodeId))
}

/// Whether all the nodes are in a graph.
spec fn within(nodes: Seq<Node>, ids: Seq<NodeId>) -> bool {
    forall|m: NodeId| #[trigger] ids.contains(m) ==> m < nodes.len()
}

/// Whether all the nodes are operations of a graph.
spec fn operations(nodes: Seq<Node>, ids: Seq<NodeId>) -> bool {
    forall|i: int|
        0 <= i < ids.len() ==> #[trigger] ids[i] < nodes.len() && nodes[ids[i] as int].inputs@.len()
            > 0
}

/// Whether a kernel of a node stands after the given place in a list.
pub open spec fn follows(steps: Seq<Step>, i: int, node: NodeId) -> bool {
    exists|j: int| i < j < steps.len() && (#[trigger] steps[j]).kernel.raw.root == node
}

/// Whether each kernel stands before a kernel of every node that it depends on.
pub open spec fn led(steps: Seq<Step>) -> bool {
    forall|i: int, d: int|
        0 <= i < steps.len() && 0 <= d < steps[i].dep.len() ==> follows(
            steps,
            i,
            #[trigger] steps[i].dep[d],
        )
}

/// A kernel that those before it may depend on comes after them.
pub proof fn lemma_led_on(steps: Seq<Step>, root: NodeId, backward: bool, step: Step)
    requires
        led(steps),
        step.dep.len() == 0,
        step.kernel.raw.root == root,
    ensures
        led(depending(steps, root, backward).push(step)),
{
    let more = depending(steps, root, backward).push(step);
    assert(more[steps.len() as int] == step);
    assert forall|i: int, d: int|
        0 <= i < more.len() && 0 <= d < more[i].dep.len() implies follows(
        more,
        i,
        #[trigger] more[i].dep[d],
    ) by {
        assert(more[i].kernel == steps[i].kernel);
        if d < steps[i].dep.len() {
            let node = steps[i].dep[d];
            assert(follows(steps, i, node));
            let j = choose|j: int|
                i < j < steps.len() && (#[trigger] steps[j]).kernel.raw.root == node;
            assert(more[j].kernel == steps[j].kernel);
        }
    }
}

/// Whether a kernel is that of its root in some plan.
spec fn made_in(s: ForwardSetup, step: Step, first: bool, p: Plan) -> bool {
    let root = step.kernel.raw.root;
    &&& root < s.nodes.len()
    &&& s.nodes[root as int].inputs@.len() > 0
    &&& !p.resolved.contains(root)
    &&& within(s.nodes, p.resolved)
    &&& forward_root(s, root, first, p) is Ok
    &&& kernel_of(s, root, first, p) == step.kernel.raw
}

spec fn made(s: ForwardSetup, step: Step, first: bool) -> bool {
    exists|p: Plan| #[trigger] made_in(s, step, first, p)
}

/// Whether the first kernels of a plan are those of a first round, and the others are not.
spec fn planned(s: ForwardSetup, count: nat, p: Plan) -> bool {
    &&& within(s.nodes, p.resolved)
    &&& operations(s.nodes, p.roots)
    &&& count <= p.steps.len()
    &&& led(p.steps)
    &&& forall|i: int| 0 <= i < p.steps.len() ==> made(s, #[trigger] p.steps[i], i < count)
}

proof fn lemma_unclaimed(s: ForwardSetup, root: NodeId, p: Plan)
    requires
        fused_graph(s.nodes),
        within(s.nodes, p.resolved),
    ensures
        !begun(s, root, p).0.claimed(p.resolved),
{
    let f = begun(s, root, p).0;
    assert forall|i: int| f.since <= i < p.resolved.len() implies (#[trigger] f.node(
        p.resolved[i],
    )).op.dispatch() == DispatchOptions::Any by {
        assert(p.resolved.contains(p.resolved[i]));
        assert(s.nodes[p.resolved[i] as int].op.dispatch() == DispatchOptions::Any);
    }
}

/// What a root adds to a plan.
proof fn lemma_adds(s: ForwardSetup, root: NodeId, first: bool, p: Plan, count: nat)
    requires
        s.ready(),
        fused_graph(s.nodes),
        taken_back(s.nodes),
        root < s.nodes.len(),
        s.nodes[root as int].inputs@.len() > 0,
        planned(s, count, p),
        first ==> count == p.steps.len(),
        forward_root(s, root, first, p) is Ok,
    ensures
        ({
            let q = forward_root(s, root, first, p)->Ok_0;
            if p.resolved.contains(root) {
                q == p
            } else {
                &&& planned(
                    s,
                    if first {
                        count + 1
                    } else {
                        count
                    },
                    q,
                )
                &&& q.steps.len() == p.steps.len() + 1
                &&& q.steps.last().kernel.raw.root == root
                &&& forall|i: int|
                    0 <= i < p.steps.len() ==> (#[trigger] q.steps[i]).kernel == p.steps[i].kernel
                &&& resolves(s.nodes, root, p.resolved, q.resolved)
            }
        }),
{
    if !p.resolved.contains(root) {
        let (f, k, out, gid) = begun(s, root, p);
        let q = forward_root(s, root, first, p)->Ok_0;
        let g = matrix_of(s.nodes, root);
        assert(lowers(s.nodes, root)) by {
            assert(s.nodes[root as int].inputs@.len() > 0);
        }
        lemma_unclaimed(s, root, p);
        lemma_kernel_of(s, root, first, p);
        lemma_begins(s, root, p);
        let l = node_value(f, Operand::Node(root), out, k, p.resolved, gid, true);
        lemma_node_reaches(f, root, out, k, p.resolved, gid, Some(g));
        let step = q.steps.last();
        assert(made_in(s, step, first, p));
        assert(q.steps == depending(p.steps, root, false).push(step));
        lemma_led_on(p.steps, root, false, step);
        let ids = l.nodes->Ok_0;
        let reached = tail(ids);
        lemma_more_roots(p.roots, reached, reached.len(), l.resolved, root);
        assert forall|i: int| 0 <= i < q.roots.len() implies #[trigger] q.roots[i] < s.nodes.len()
            && s.nodes[q.roots[i] as int].inputs@.len() > 0 by {
            let id = q.roots[i];
            if p.roots.contains(id) {
                let j = p.roots.index_of(id);
                assert(p.roots[j] == id);
            } else {
                let j = reached.index_of(id);
                assert(ids[j + 1] == id);
                assert(under(s.nodes, root, ids[j + 1]));
            }
        }
        let grown = if first {
            count + 1
        } else {
            count
        };
        assert forall|i: int| 0 <= i < q.steps.len() implies made(
            s,
            #[trigger] q.steps[i],
            i < grown,
        ) by {
            if i < p.steps.len() {
                let old_step = p.steps[i];
                assert(q.steps[i] == depending(p.steps, root, false)[i]);
                assert(q.steps[i].kernel == old_step.kernel);
                let early = i < count;
                assert(made(s, old_step, early));
                let from = choose|from: Plan| #[trigger] made_in(s, old_step, early, from);
                assert(made_in(s, q.steps[i], early, from));
            } else {
                assert(q.steps[i] == step);
            }
        }
    }
}

/// The kernels of the first round: one for each node that nothing takes, in order.
proof fn lemma_first_round(s: ForwardSetup, roots: Seq<NodeId>, count: nat, p: Plan)
    requires
        s.ready(),
        fused_graph(s.nodes),
        taken_back(s.nodes),
        operations(s.nodes, roots),
        roots.no_duplicates(),
        forall|i: int|
            0 <= i < roots.len() ==> s.nodes[#[trigger] roots[i] as int].outputs@.len() == 0,
        count <= roots.len(),
        p.steps.len() == 0,
        p.resolved.len() == 0,
        p.roots.len() == 0,
        forward_round(s, roots, count, true, p) is Ok,
    ensures
        ({
            let q = forward_round(s, roots, count, true, p)->Ok_0;
            &&& planned(s, count, q)
            &&& q.steps.len() == count
            &&& forall|i: int|
                0 <= i < count ==> (#[trigger] q.steps[i]).kernel.raw.root == roots[i]
            &&& forall|m: NodeId| #[trigger]
                q.resolved.contains(m) ==> s.nodes[m as int].outputs@.len() > 0 || roots.take(
                    count as int,
                ).contains(m)
        }),
    decreases count,
{
    if count > 0 {
        let c = (count - 1) as nat;
        lemma_first_round(s, roots, c, p);
        let q = forward_round(s, roots, c, true, p)->Ok_0;
        let root = roots[c as int];
        if q.resolved.contains(root) {
            let j = roots.take(c as int).index_of(root);
            assert(roots[j] == root);
        }
        lemma_adds(s, root, true, q, c);
        let u = forward_root(s, root, true, q)->Ok_0;
        let done = roots.take(count as int);
        assert forall|m: NodeId| #[trigger] u.resolved.contains(m) implies s.nodes[
        m as int].outputs@.len() > 0 || done.contains(m) by {
            if q.resolved.contains(m) && roots.take(c as int).contains(m) {
                let j = roots.take(c as int).index_of(m);
                assert(done[j] == m);
            }
            if m == root {
                assert(done[c as int] == m);
            }
        }
        assert forall|i: int| 0 <= i < count implies (#[trigger] u.steps[i]).kernel.raw.root
            == roots[i] by {
            if i < c {
                assert(u.steps[i].kernel == q.steps[i].kernel);
            }
        }
    }
}

/// The kernels of a later round.
proof fn lemma_later_round(s: ForwardSetup, roots: Seq<NodeId>, at: nat, p: Plan, count: nat)
    requires
        s.ready(),
        fused_graph(s.nodes),
        taken_back(s.nodes),
        operations(s.nodes, roots),
        at <= roots.len(),
        planned(s, count, p),
        forward_round(s, roots, at, false, p) is Ok,
    ensures
        ({
            let q = forward_round(s, roots, at, false, p)->Ok_0;
            &&& planned(s, count, q)
            &&& p.steps.len() <= q.steps.len()
            &&& forall|i: int|
                0 <= i < p.steps.len() ==> (#[trigger] q.steps[i]).kernel == p.steps[i].kernel
        }),
    decreases at,
{
    if at > 0 {
        lemma_later_round(s, roots, (at - 1) as nat, p, count);
        let q = forward_round(s, roots, (at - 1) as nat, false, p)->Ok_0;
        let root = roots[at - 1];
        lemma_adds(s, root, false, q, count);
        let u = forward_root(s, root, false, q)->Ok_0;
        assert forall|i: int| 0 <= i < p.steps.len() implies (#[trigger] u.steps[i]).kernel
            == p.steps[i].kernel by {
            assert(u.steps[i].kernel == q.steps[i].kernel);
        }
    }
}

proof fn lemma_later_rounds(s: ForwardSetup, p: Plan, bound: nat, count: nat)
    requires
        s.ready(),
        fused_graph(s.nodes),
        taken_back(s.nodes),
        planned(s, count, p),
        p.steps.len() > 0,
        forward_rounds(s, p, bound) is Ok,
    ensures
        ({
            let steps = forward_rounds(s, p, bound)->Ok_0;
            &&& p.steps.len() <= steps.len()
            &&& led(steps)
            &&& forall|i: int|
                0 <= i < p.steps.len() ==> (#[trigger] steps[i]).kernel == p.steps[i].kernel
            &&& forall|i: int| 0 <= i < steps.len() ==> made(s, #[trigger] steps[i], i < count)
        }),
    decreases bound,
{
    if unfinished(s.nodes, p.roots) && bound > 0 {
        let start = Plan { roots: Seq::empty(), ..p };
        lemma_later_round(s, p.roots, p.roots.len(), start, count);
        let q = forward_round(s, p.roots, p.roots.len(), false, start)->Ok_0;
        lemma_later_rounds(s, q, (bound - 1) as nat, count);
        let steps = forward_rounds(s, p, bound)->Ok_0;
        assert forall|i: int| 0 <= i < p.steps.len() implies (#[trigger] steps[i]).kernel
            == p.steps[i].kernel by {
            assert(q.steps[i].kernel == p.steps[i].kernel);
        }
    }
}

/// What a forward pass of a graph of operations that work element by element and of products stores.
///
/// The first kernels are those of the nodes that nothing takes, in order, and the others are those of
/// results that these load, round by round. A block of each, in the matrix of its root, stores what
/// it computes on the way, each result in the parameter that it is saved in, and a kernel of the
/// first round at last stores what the root is to the output. What a node is goes through products
/// down to the inputs and to the results that are saved by the kernels of later rounds.
///
/// Each kernel stands before those that it depends on. Blocks of kernels that load a result which they
/// also compute are left out.
pub proof fn lemma_forward_pass_tells(
    nodes: Seq<Node>,
    meta: Metadata,
    saved: Seq<SaveIndicator>,
    tile: u32,
    chain: Chain,
)
    requires
        schedulable(nodes, meta),
        fused_graph(nodes),
        taken_back(nodes),
        operations_only(nodes),
        tile * tile <= u32::MAX,
        nodes.len() <= usize::MAX,
        forward_pass(nodes, meta, saved, tile) == Ok::<Chain, Error>(chain),
        chain.params.len() <= usize::MAX,
    ensures
        ({
            let s = forward_setup(nodes, meta, saved, tile);
            let ends = sinks(nodes, nodes.len());
            &&& ends.len() <= chain.steps.len()
            &&& led(chain.steps)
            &&& forall|i: int|
                0 <= i < ends.len() ==> (#[trigger] chain.steps[i]).kernel.raw.root == ends[i]
            &&& forall|i: int, w: Place|
                #![trigger chain.steps[i], w.fields]
                0 <= i < chain.steps.len() ==> told(
                    s,
                    chain.steps[i].kernel.raw,
                    w,
                    i < ends.len(),
                )
        }),
{
    let s = forward_setup(nodes, meta, saved, tile);
    let roots = sinks(nodes, nodes.len());
    let start = Plan { steps: Seq::empty(), roots, resolved: Seq::empty() };
    lemma_forward_setup(nodes, meta, saved, tile);
    lemma_sinks(nodes, nodes.len());
    let p = Plan { roots: Seq::empty(), ..start };
    assert forall|i: int| 0 <= i < roots.len() implies #[trigger] roots[i] < nodes.len()
        && nodes[roots[i] as int].inputs@.len() > 0 by {
        assert(nodes[roots[i] as int].outputs@.len() == 0);
    }
    if roots.len() > 0 {
        assert(nodes[roots[0] as int].inputs@.len() > 0);
        assert(unfinished(nodes, roots));
        assert(nodes.len() > 0);
        lemma_first_round(s, roots, roots.len(), p);
        let q = forward_round(s, roots, roots.len(), true, p)->Ok_0;
        lemma_later_rounds(s, q, (nodes.len() - 1) as nat, roots.len());
    }
    assert forall|i: int, w: Place|
        #![trigger chain.steps[i], w.fields]
        0 <= i < chain.steps.len() implies told(
        s,
        chain.steps[i].kernel.raw,
        w,
        i < roots.len(),
    ) by {
        let k = chain.steps[i].kernel.raw;
        let first = i < roots.len();
        assert(made(s, chain.steps[i], first));
        let from = choose|from: Plan| #[trigger] made_in(s, chain.steps[i], first, from);
        let root = k.root;
        let z = scene_of(s, w.fields);
        if covers(nodes, w, tile, root) && unmixed(z, root) && k.values.len() <= usize::MAX
            && k.shared.len() <= usize::MAX {
            lemma_unclaimed(s, root, from);
            let g = Some(matrix_of(nodes, root));
            assert(lowers(nodes, root)) by {
                assert(nodes[root as int].inputs@.len() > 0);
            }
            assert forall|a: ParamId| #[trigger] loads(z, root, g, a) implies a != s.output by {
                lemma_loads_apart(s, z, root, g, a);
            }
            lemma_forward_root_tells(s, root, first, from, w);
        }
    }
}

/// Whether every node that nothing takes is an operation.
pub open spec fn operations_only(nodes: Seq<Node>) -> bool {
    forall|n: int|
        0 <= n < nodes.len() && (#[trigger] nodes[n]).outputs@.len() == 0 ==> nodes[n].inputs@.len()
            > 0
}

/// Whether a block of a kernel, where it lies in the matrix of the root and the kernel computes no
/// result that it loads, stores what is computed.
pub open spec fn told(s: ForwardSetup, k: RawView, w: Place, first: bool) -> bool {
    let z = scene_of(s, w.fields);
    covers(s.nodes, w, s.tile, k.root) && unmixed(z, k.root) && k.values.len() <= usize::MAX
        && k.shared.len() <= usize::MAX ==> tells(
        k,
        w,
        s.tile,
        z,
        k.root,
        output_of(s, k.root, first),
    )
}

/// What a node loads is not the output.
proof fn lemma_loads_apart(
    s: ForwardSetup,
    z: Scene,
    n: NodeId,
    g: Option<(MetaId, MetaId)>,
    p: ParamId,
)
    requires
        n < s.nodes.len(),
        z.nodes == s.nodes,
        z.inputs == s.node_params,
        z.saved == s.saved_params,
        outputs_apart(s),
        loads(z, n, g, p),
    ensures
        p != s.output,
    decreases n,
{
    let node = z.nodes[n as int];
    let a = node.inputs@[0];
    let b = node.inputs@[1];
    if node.op is Custom && !(g is None && node.op.transform()) {
        let below = if node.op->lower == OpName::Matmul {
            None
        } else {
            g
        };
        if a < n && loads(z, a, below, p) {
            lemma_loads_apart(s, z, a, below, p);
        } else {
            lemma_loads_apart(s, z, b, below, p);
        }
    }
}

/// Whether a kernel loads what was saved of a node.
pub open spec fn kernel_fetches(nodes: Seq<Node>, step: Step, m: NodeId) -> bool {
    let root = step.kernel.raw.root;
    fetches(nodes, root, Some(matrix_of(nodes, root)), m)
}

/// Whether a kernel computes a node.
pub open spec fn kernel_computes(nodes: Seq<Node>, step: Step, m: NodeId) -> bool {
    let root = step.kernel.raw.root;
    works_out(nodes, root, Some(matrix_of(nodes, root)), m)
}

/// Whether some kernel computes a node.
pub open spec fn worked_out(nodes: Seq<Node>, steps: Seq<Step>, m: NodeId) -> bool {
    exists|j: int| 0 <= j < steps.len() && kernel_computes(nodes, #[trigger] steps[j], m)
}

/// Whether what the kernels load is computed by others.
pub open spec fn complete(nodes: Seq<Node>, steps: Seq<Step>) -> bool {
    forall|i: int, m: NodeId|
        0 <= i < steps.len() && #[trigger] kernel_fetches(nodes, steps[i], m) ==> worked_out(
            nodes,
            steps,
            m,
        )
}

/// Whether a node is among the roots from the given one on.
spec fn waits(roots: Seq<NodeId>, from: int, m: NodeId) -> bool {
    exists|k: int| from <= k < roots.len() && #[trigger] roots[k] == m
}

/// Whether all that is resolved is computed, and all that is loaded is resolved or will be a root.
spec fn covered(s: ForwardSetup, p: Plan, roots: Seq<NodeId>, from: int) -> bool {
    &&& forall|m: NodeId| #[trigger] p.resolved.contains(m) ==> worked_out(s.nodes, p.steps, m)
    &&& forall|i: int, m: NodeId|
        0 <= i < p.steps.len() && #[trigger] kernel_fetches(s.nodes, p.steps[i], m)
            ==> p.resolved.contains(m) || p.roots.contains(m) || waits(roots, from, m)
}

proof fn lemma_more_roots_hold(
    roots: Seq<NodeId>,
    ids: Seq<NodeId>,
    count: nat,
    resolved: Seq<NodeId>,
    root: NodeId,
    m: NodeId,
)
    requires
        count <= ids.len(),
    ensures
        roots.contains(m) ==> more_roots(roots, ids, count, resolved, root).contains(m),
        ids.take(count as int).contains(m) && m != root ==> resolved.contains(m) || more_roots(
            roots,
            ids,
            count,
            resolved,
            root,
        ).contains(m),
    decreases count,
{
    if count > 0 {
        let c = (count - 1) as nat;
        lemma_more_roots_hold(roots, ids, c, resolved, root, m);
        let before = more_roots(roots, ids, c, resolved, root);
        let after = more_roots(roots, ids, count, resolved, root);
        if before.contains(m) {
            let i = before.index_of(m);
            assert(after[i] == m);
        }
        if ids.take(count as int).contains(m) {
            let i = ids.take(count as int).index_of(m);
            if i < c {
                assert(ids.take(c as int)[i] == m);
            } else {
                assert(ids[c as int] == m);
                if after.len() > before.len() {
                    assert(after[before.len() as int] == m);
                }
            }
        }
    }
}

/// A root that is taken up is no longer waited for.
proof fn lemma_adds_covered(
    s: ForwardSetup,
    roots: Seq<NodeId>,
    from: int,
    first: bool,
    p: Plan,
    count: nat,
    bound: nat,
)
    requires
        s.ready(),
        fused_graph(s.nodes),
        taken_back(s.nodes),
        operations(s.nodes, roots),
        0 <= from < roots.len(),
        planned(s, count, p),
        first ==> count == p.steps.len(),
        covered(s, p, roots, from),
        roots[from] < bound,
        forall|i: int| 0 <= i < p.roots.len() ==> #[trigger] p.roots[i] + 1 < bound,
        forward_root(s, roots[from], first, p) is Ok,
    ensures
        ({
            let q = forward_root(s, roots[from], first, p)->Ok_0;
            &&& covered(s, q, roots, from + 1)
            &&& forall|i: int| 0 <= i < q.roots.len() ==> #[trigger] q.roots[i] + 1 < bound
        }),
{
    let root = roots[from];
    lemma_adds(s, root, first, p, count);
    let q = forward_root(s, root, first, p)->Ok_0;
    if p.resolved.contains(root) {
        assert forall|i: int, m: NodeId|
            0 <= i < q.steps.len() && #[trigger] kernel_fetches(
                s.nodes,
                q.steps[i],
                m,
            ) implies q.resolved.contains(m) || q.roots.contains(m) || waits(
            roots,
            from + 1,
            m,
        ) by {
            if waits(roots, from, m) {
                let k = choose|k: int| from <= k < roots.len() && #[trigger] roots[k] == m;
                assert(k == from || waits(roots, from + 1, m));
            }
        }
    } else {
        let (f, k, out, gid) = begun(s, root, p);
        let g = matrix_of(s.nodes, root);
        assert(lowers(s.nodes, root)) by {
            assert(s.nodes[root as int].inputs@.len() > 0);
        }
        lemma_unclaimed(s, root, p);
        lemma_kernel_of(s, root, first, p);
        let l = node_value(f, Operand::Node(root), out, k, p.resolved, gid, true);
        lemma_node_reaches(f, root, out, k, p.resolved, gid, Some(g));
        lemma_node_finds(f, root, out, k, p.resolved, gid, Some(g));
        let ids = l.nodes->Ok_0;
        let reached = tail(ids);
        assert(ids.len() > 0 ==> reached == ids.subrange(1, ids.len() as int));
        lemma_more_roots(p.roots, reached, reached.len(), l.resolved, root);
        let last = q.steps.len() - 1;
        assert(q.steps[last].kernel.raw.root == root);
        assert forall|m: NodeId| #[trigger] q.resolved.contains(m) implies worked_out(
            s.nodes,
            q.steps,
            m,
        ) by {
            if p.resolved.contains(m) {
                let j = choose|j: int|
                    0 <= j < p.steps.len() && kernel_computes(s.nodes, #[trigger] p.steps[j], m);
                assert(q.steps[j].kernel == p.steps[j].kernel);
            } else {
                assert(kernel_computes(s.nodes, q.steps[last], m));
            }
        }
        assert forall|i: int, m: NodeId|
            0 <= i < q.steps.len() && #[trigger] kernel_fetches(
                s.nodes,
                q.steps[i],
                m,
            ) implies q.resolved.contains(m) || q.roots.contains(m) || waits(
            roots,
            from + 1,
            m,
        ) by {
            lemma_more_roots_hold(p.roots, reached, reached.len(), l.resolved, root, m);
            if i < last {
                assert(q.steps[i].kernel == p.steps[i].kernel);
                assert(kernel_fetches(s.nodes, p.steps[i], m));
                if waits(roots, from, m) {
                    let j = choose|j: int| from <= j < roots.len() && #[trigger] roots[j] == m;
                    assert(j == from || waits(roots, from + 1, m));
                }
            } else {
                assert(ids.contains(m));
                let j = ids.index_of(m);
                if m != root {
                    if j == 0 {
                        lemma_first_id(s, root, p);
                    }
                    assert(reached[j - 1] == m);
                    assert(reached.take(reached.len() as int)[j - 1] == m);
                }
            }
        }
        assert forall|i: int| 0 <= i < q.roots.len() implies #[trigger] q.roots[i] + 1 < bound by {
            let id = q.roots[i];
            if p.roots.contains(id) {
                let j = p.roots.index_of(id);
                assert(p.roots[j] == id);
            } else {
                let j = reached.index_of(id);
                assert(ids[j + 1] == id);
            }
        }
    }
}

/// The first node that a root reaches is the root.
proof fn lemma_first_id(s: ForwardSetup, root: NodeId, p: Plan)
    requires
        root < s.nodes.len(),
        s.nodes[root as int].inputs@.len() > 0,
        lowers(s.nodes, root),
        schedulable(s.nodes, s.meta),
        ({
            let (f, k, out, gid) = begun(s, root, p);
            node_value(f, Operand::Node(root), out, k, p.resolved, gid, true).nodes is Ok
        }),
    ensures
        ({
            let (f, k, out, gid) = begun(s, root, p);
            let l = node_value(f, Operand::Node(root), out, k, p.resolved, gid, true);
            (l.nodes->Ok_0).len() > 0 && (l.nodes->Ok_0)[0] == root
        }),
{
}

proof fn lemma_round_covered(
    s: ForwardSetup,
    roots: Seq<NodeId>,
    at: nat,
    first: bool,
    p: Plan,
    bound: nat,
)
    requires
        s.ready(),
        fused_graph(s.nodes),
        taken_back(s.nodes),
        operations(s.nodes, roots),
        at <= roots.len(),
        forall|i: int| 0 <= i < roots.len() ==> #[trigger] roots[i] < bound,
        exists|c: nat| #[trigger] planned(s, c, p),
        first ==> p.steps.len() == 0,
        p.roots.len() == 0,
        covered(s, p, roots, 0),
        forward_round(s, roots, at, first, p) is Ok,
    ensures
        ({
            let q = forward_round(s, roots, at, first, p)->Ok_0;
            &&& covered(s, q, roots, at as int)
            &&& exists|c: nat|
                #[trigger] planned(s, c, q) && (first ==> c == q.steps.len())
            &&& forall|i: int| 0 <= i < q.roots.len() ==> #[trigger] q.roots[i] + 1 < bound
        }),
    decreases at,
{
    if at > 0 {
        let b = (at - 1) as nat;
        lemma_round_covered(s, roots, b, first, p, bound);
        let q = forward_round(s, roots, b, first, p)->Ok_0;
        let c = choose|c: nat|
            #[trigger] planned(s, c, q) && (first ==> c == q.steps.len());
        let root = roots[b as int];
        lemma_adds(s, root, first, q, c);
        lemma_adds_covered(s, roots, b as int, first, q, c, bound);
        let u = forward_root(s, root, first, q)->Ok_0;
        if q.resolved.contains(root) {
            assert(planned(s, c, u));
        } else if first {
            assert(planned(s, c + 1, u));
        } else {
            assert(planned(s, c, u));
        }
    } else if first {
        assert(planned(s, 0, p));
    }
}

/// What the kernels of a forward pass load is computed by others, and saved where they load it.
proof fn lemma_rounds_complete(s: ForwardSetup, p: Plan, bound: nat)
    requires
        s.ready(),
        fused_graph(s.nodes),
        taken_back(s.nodes),
        exists|c: nat| #[trigger] planned(s, c, p),
        forall|i: int| 0 <= i < p.roots.len() ==> #[trigger] p.roots[i] < bound,
        covered(s, Plan { roots: Seq::empty(), ..p }, p.roots, 0),
        forward_rounds(s, p, bound) is Ok,
    ensures
        complete(s.nodes, forward_rounds(s, p, bound)->Ok_0),
    decreases bound,
{
    let c = choose|c: nat| #[trigger] planned(s, c, p);
    if !unfinished(s.nodes, p.roots) || bound == 0 {
        assert(p.roots.len() == 0) by {
            if p.roots.len() > 0 {
                assert(p.roots[0] < bound);
                assert(s.nodes[p.roots[0] as int].inputs@.len() > 0);
            }
        }
        assert forall|i: int, m: NodeId|
            0 <= i < p.steps.len() && #[trigger] kernel_fetches(
                s.nodes,
                p.steps[i],
                m,
            ) implies worked_out(s.nodes, p.steps, m) by {
            assert(p.resolved.contains(m));
        }
    } else {
        let start = Plan { roots: Seq::empty(), ..p };
        let first = p.steps.len() == 0;
        assert(planned(s, c, start));
        lemma_round_covered(s, p.roots, p.roots.len(), first, start, bound);
        let q = forward_round(s, p.roots, p.roots.len(), first, start)->Ok_0;
        let r = Plan { roots: Seq::empty(), ..q };
        assert forall|i: int, m: NodeId|
            0 <= i < r.steps.len() && #[trigger] kernel_fetches(
                s.nodes,
                r.steps[i],
                m,
            ) implies r.resolved.contains(m) || r.roots.contains(m) || waits(q.roots, 0, m) by {
            if q.roots.contains(m) {
                let j = q.roots.index_of(m);
                assert(q.roots[j] == m);
            }
        }
        let cc = choose|c: nat|
            #[trigger] planned(s, c, q) && (first ==> c == q.steps.len());
        assert forall|i: int| 0 <= i < q.roots.len() implies #[trigger] q.roots[i] < bound
            - 1 by {}
        lemma_rounds_complete(s, q, (bound - 1) as nat);
    }
}

/// Every result that a kernel of a forward pass loads is computed by some kernel of the pass, which
/// saves it where it is loaded from.
pub proof fn lemma_forward_pass_complete(
    nodes: Seq<Node>,
    meta: Metadata,
    saved: Seq<SaveIndicator>,
    tile: u32,
    chain: Chain,
)
    requires
        schedulable(nodes, meta),
        fused_graph(nodes),
        taken_back(nodes),
        operations_only(nodes),
        tile * tile <= u32::MAX,
        nodes.len() <= usize::MAX,
        forward_pass(nodes, meta, saved, tile) == Ok::<Chain, Error>(chain),
        chain.params.len() <= usize::MAX,
    ensures
        complete(nodes, chain.steps),
{
    let s = forward_setup(nodes, meta, saved, tile);
    let roots = sinks(nodes, nodes.len());
    let start = Plan { steps: Seq::empty(), roots, resolved: Seq::empty() };
    lemma_forward_setup(nodes, meta, saved, tile);
    lemma_sinks(nodes, nodes.len());
    assert forall|i: int| 0 <= i < roots.len() implies #[trigger] roots[i] < nodes.len()
        && nodes[roots[i] as int].inputs@.len() > 0 by {
        assert(nodes[roots[i] as int].outputs@.len() == 0);
    }
    assert(planned(s, 0, start));
    lemma_rounds_complete(s, start, nodes.len());
}

} // verus!
