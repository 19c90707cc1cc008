//! What the kernels of a backward pass store, where operations that work element by element are
//! fused with products of matrices.

use vstd::prelude::*;

use crate::dispatch::backend::kernel::backward::{
    backward_pass, backward_root, backward_round, backward_rounds, backward_setup, input_pass,
    input_passes, node_grad, pending, BackwardSetup,
};
use crate::dispatch::backend::kernel::frame::Operand;
use crate::dispatch::backend::kernel::index::opened;
use crate::dispatch::backend::kernel::plan::{
    backward_flags, depending, forward_flags, input_flags, lemma_more_roots, marked, schedulable,
    Chain, Plan, Step,
};
use crate::dispatch::backend::kernel::raw::RawView;
use crate::dispatch::backend::kernel::save::SaveIndicator;
use crate::dispatch::backend::meaning::descent::{
    all_any, flows, gauged, gradient_at, lemma_gradient_code,
};
use crate::dispatch::backend::meaning::emitted::{grows, lemma_extends_on};
use crate::dispatch::backend::meaning::fused::{lemma_store, Scene, Stage};
use crate::dispatch::backend::meaning::gradients::{begun, lemma_backward_setup};
use crate::dispatch::backend::meaning::opening::{
    grid, lemma_blocked_any, lemma_grid_extends, lemma_index_fits, lemma_opened_grid, lemma_opening,
    lemma_set_up_extends, lies_in, sets_up,
};
use crate::dispatch::backend::meaning::parts::hold;
use crate::dispatch::backend::meaning::pass::lemma_marked_grows;
use crate::dispatch::backend::meaning::product::{goes_on, stored_on};
use crate::dispatch::backend::meaning::results::{
    follows, led, lemma_beginning_keeps, lemma_led_on, matrix_of,
};
use crate::dispatch::backend::meaning::sums::lemma_block_start;
use crate::dispatch::backend::meaning::tiles::{
    advances, fresh, item, lemma_advance_on, lemma_run_done, run, stores, thread, var, Item, Place,
    Write,
};
use crate::dispatch::backend::meaning::{changes, extends, num, untouched};
use crate::dispatch::backend::{Metadata, Node, NodeId, Op, ParamId};
use crate::errors::Error;
use crate::scalar::ZERO_BITS;

verus! {

/// A graph, its parameters in a backward pass, and the dimensions.
pub open spec fn scene_of(s: BackwardSetup, fields: Seq<u32>) -> Scene {
    Scene { nodes: s.nodes, inputs: s.grad_params, saved: s.saved_params, fields }
}

/// Whether one kernel can compute the gradient of a node, in the places of its matrix, and stores
/// it.
pub open spec fn recovers(nodes: Seq<Node>, n: NodeId) -> bool {
    &&& nodes[n as int].shape@.len() == 2
    &&& nodes[n as int].op.leaf() || nodes[n as int].op.computed_gid()
    &&& flows(nodes, n, matrix_of(nodes, n))
}

/// Whether a block lies in the matrix of a node, the sums of the products that its gradient is made
/// of run over multiples of the tile, and all the places in the matrices are unsigned integers.
pub open spec fn spans(nodes: Seq<Node>, w: Place, tile: u32, n: NodeId) -> bool {
    let g = matrix_of(nodes, n);
    &&& lies_in(w, tile as int, w.fields[g.0 as int] as int, w.fields[g.1 as int] as int)
    &&& gauged(nodes, w, tile, n, g)
}

/// Whether a block of a kernel comes to its end, and each of its threads has stored its element of
/// the gradient of a node, in its place, and nothing else.
pub open spec fn answers(k: RawView, w: Place, tile: u32, z: Scene, n: NodeId) -> bool {
    let t = run(k, w, 0, k.ops.len(), fresh());
    let g = matrix_of(z.nodes, n);
    &&& k.block == seq![tile, tile, 1u32]
    &&& !t.stuck
    &&& z.inputs[n as int] is Some
    &&& forall|r: int, c: int| #[trigger]
        thread(k, r, c) ==> {
            let row = w.row * tile + r;
            let col = w.col * tile + c;
            let x = row * z.fields[g.1 as int] + col;
            stores(t, r, c) == seq![
                Write {
                    param: z.inputs[n as int]->0,
                    index: Item::Int(x),
                    value: Item::Real(gradient_at(z, n, num(ZERO_BITS), g, x)),
                },
            ]
        }
}

/// Whether the parameter of the gradient of a node holds nothing else.
pub open spec fn gradient_apart(s: BackwardSetup, n: NodeId) -> bool {
    s.grad_params[n as int] matches Some(p) ==> {
        &&& p != 1
        &&& forall|m: int| 0 <= m < s.nodes.len() ==> #[trigger] s.saved_params[m] != Some(p)
        &&& forall|m: int| n < m < s.nodes.len() ==> #[trigger] s.grad_params[m] != Some(p)
    }
}

/// The kernel that a root adds to a plan.
pub open spec fn kernel_of(s: BackwardSetup, root: NodeId, p: Plan) -> RawView {
    (backward_root(s, root, p)->Ok_0).steps.last().kernel.raw
}

spec fn opened_of(s: BackwardSetup, root: NodeId) -> RawView {
    opened(
        s.meta,
        s.params.len(),
        seq![s.tile, s.tile, 1],
        root,
        s.nodes[root as int].shape@,
        true,
    ).0.raw
}

/// How the kernel of a root begins.
proof fn lemma_begins(s: BackwardSetup, root: NodeId, p: Plan)
    requires
        s.nodes[root as int].shape@.len() == 2,
    ensures
        ({
            let (f, k, out, gid) = begun(s, root, p);
            let g = matrix_of(s.nodes, root);
            &&& grid(k.raw, g.0, g.1, true)
            &&& sets_up(k.raw, s.tile, true)
            &&& k.raw.values.len() == 9
            &&& k.raw.ops.len() == 13
            &&& k.raw.shared.len() == 0
            &&& k.raw.block == seq![s.tile, s.tile, 1u32]
            &&& k.raw.root == root
            &&& f.base == 3 && f.tile_size == 6 && f.local_row == 7 && f.local_col == 8
            &&& out == 5
            &&& gid == 2
        }),
{
    lemma_opened_grid(
        s.meta,
        s.params.len(),
        seq![s.tile, s.tile, 1],
        root,
        s.nodes[root as int].shape@,
        true,
    );
    let kernel = opened_of(s, root);
    let (f, k, out, gid) = begun(s, root, p);
    assert(extends(kernel, k.raw) && sets_up(k.raw, s.tile, true) && k.raw.values.len() == 9
        && k.raw.ops.len() == 13 && k.raw.shared == kernel.shared && k.raw.block == kernel.block
        && k.raw.root == kernel.root && f.tile_size == 6 && f.local_row == 7 && f.local_col == 8
        && out == 5) by {
        reveal(RawView::def);
    }
    let g = matrix_of(s.nodes, root);
    lemma_grid_extends(kernel, k.raw, g.0, g.1, true);
}

/// What the kernel of a root is: the code of the gradient, and the store of it.
proof fn lemma_kernel_of(s: BackwardSetup, root: NodeId, p: Plan)
    requires
        s.ready(),
        root < s.nodes.len(),
        recovers(s.nodes, root),
        !p.resolved.contains(root),
        backward_root(s, root, p) is Ok,
    ensures
        ({
            let (f, k, out, gid) = begun(s, root, p);
            let l = node_grad(f, Operand::Node(root), out, k, p.resolved, gid, true);
            let q = kernel_of(s, root, p);
            let store = Op::ParamStore {
                param: s.grad_params[root as int]->0,
                index: gid,
                value: out,
            };
            &&& s.grad_params[root as int] is Some
            &&& l.nodes is Ok
            &&& grows(k.raw, l.kernel.raw)
            &&& forall|p: ParamId| k.raw.keeps(p) ==> #[trigger] l.kernel.raw.keeps(p)
            &&& extends(l.kernel.raw, q)
            &&& q.shared == l.kernel.raw.shared
            &&& q.block == k.raw.block
            &&& q.root == k.raw.root
            &&& q.ops.len() == l.kernel.raw.ops.len() + 1
            &&& q.ops[l.kernel.raw.ops.len() as int] == store
            &&& all_any(s.nodes, l.nodes->Ok_0)
        }),
{
    let (f, k, out, gid) = begun(s, root, p);
    let g = matrix_of(s.nodes, root);
    let l = node_grad(f, Operand::Node(root), out, k, p.resolved, gid, true);
    assert(l.nodes is Ok);
    lemma_gradient_code(f, root, out, k, p.resolved, gid, g);
    let ids = l.nodes->Ok_0;
    let size = (s.tile * s.tile) as u32;
    let stored = l.kernel.store(s.grad_params[root as int]->0, gid, out);
    lemma_blocked_any(s.nodes, stored, ids, ids.len(), size);
    reveal(RawView::emit);
}

/// The kernel of a root stores the gradient of the root, in any round of a backward pass.
pub proof fn lemma_backward_root_answers(s: BackwardSetup, root: NodeId, p: Plan, w: Place)
    requires
        s.ready(),
        root < s.nodes.len(),
        recovers(s.nodes, root),
        spans(s.nodes, w, s.tile, root),
        gradient_apart(s, root),
        !p.resolved.contains(root),
        backward_root(s, root, p) is Ok,
        kernel_of(s, root, p).values.len() <= usize::MAX,
        kernel_of(s, root, p).shared.len() <= usize::MAX,
    ensures
        answers(kernel_of(s, root, p), w, s.tile, scene_of(s, w.fields), root),
{
    let (f, k, out, gid) = begun(s, root, p);
    let g = matrix_of(s.nodes, root);
    let tile = s.tile;
    let z = scene_of(s, w.fields);
    let l = node_grad(f, Operand::Node(root), out, k, p.resolved, gid, true);
    let q = kernel_of(s, root, p);
    lemma_kernel_of(s, root, p);
    lemma_begins(s, root, p);
    lemma_extends_on(k.raw, l.kernel.raw, q);
    lemma_grid_extends(k.raw, q, g.0, g.1, true);
    lemma_set_up_extends(k.raw, q, tile, true);
    let param = s.grad_params[root as int]->0;
    let stage = Stage { f, k: q, w, tile, saving: false };
    assert(stage.scene() == z);
    let mid = l.kernel.raw.ops.len();
    assert forall|a: ParamId| a != param implies #[trigger] untouched(q.ops, a, q.ops.len()) by {
        lemma_beginning_keeps(k.raw, g.0, g.1, tile, true, a);
        assert(l.kernel.raw.keeps(a));
        reveal(RawView::keeps);
        assert forall|i: int| 0 <= i < q.ops.len() implies !changes(#[trigger] q.ops[i], a) by {
            if i < mid {
                assert(q.ops[i] == l.kernel.raw.ops[i]);
            }
        }
    }
    assert(stage.spares(root, param));
    let t0 = lemma_opening(q, w, g.0, g.1, true, tile);
    let at = |r: int, c: int| stage.cell(g, r, c);
    lemma_block_start(w.row, tile as int);
    lemma_block_start(w.col, tile as int);
    assert forall|r: int, c: int| #[trigger] thread(q, r, c) implies var(t0, r, c, gid)
        == Item::Int(at(r, c)) && 0 <= at(r, c) <= u32::MAX by {
        lemma_index_fits(
            w.row * tile + r,
            w.col * tile + c,
            w.fields[g.0 as int] as int,
            w.fields[g.1 as int] as int,
        );
    }
    let none = |r: int, c: int| num(ZERO_BITS);
    assert(stage.laid(g, at));
    assert(stage.steady(9, out, gid, t0, at));
    assert(hold(q, t0, out, none));
    let t1 = stage.lemma_gradient_runs(
        root,
        out,
        k,
        p.resolved,
        gid,
        g,
        t0,
        at,
        none,
        param,
    );
    lemma_advance_on(q, w, 0, 13, mid, fresh(), t0, t1);
    let put = |r: int, c: int|
        Write {
            param,
            index: Item::Int(at(r, c)),
            value: Item::Real(gradient_at(z, root, num(ZERO_BITS), g, at(r, c))),
        };
    assert forall|r: int, c: int| #[trigger] thread(q, r, c) implies put(r, c) == (Write {
        param,
        index: item(q, w, t1, r, c, gid),
        value: item(q, w, t1, r, c, out),
    }) by {
        assert(var(t1, r, c, gid) == var(t0, r, c, gid));
        assert(item(q, w, t1, r, c, gid) == var(t1, r, c, gid));
        assert(item(q, w, t1, r, c, out) == var(t1, r, c, out));
    }
    let t2 = lemma_store(q, w, t1, mid, param, gid, out, put);
    lemma_advance_on(q, w, 0, mid, mid + 1, fresh(), t1, t2);
    reveal(stored_on);
    assert forall|r: int, c: int| #[trigger] thread(q, r, c) implies stores(t2, r, c) == seq![
        put(r, c),
    ] by {
        let done = stores(t1, r, c);
        assert(goes_on(stores(t0, r, c), done, stage.good()));
        if done.len() > 0 {
            assert(stage.good()(done[0]));
        }
        assert(stores(t2, r, c) =~= seq![put(r, c)]);
    }
    assert(run(q, w, 0, q.ops.len(), fresh()) == t2) by {
        reveal(advances);
        lemma_run_done(q, w, q.ops.len(), t2);
    }
}

/// Whether the gradients of all the nodes of a graph, besides constants, can each be computed by
/// one kernel.
pub open spec fn flowing_graph(nodes: Seq<Node>) -> bool {
    forall|n: int|
        0 <= n < nodes.len() && !((#[trigger] nodes[n]).op is ConstF32) ==> recovers(
            nodes,
            n as NodeId,
        )
}

/// Whether a kernel is that of its root in some plan.
spec fn made_in(s: BackwardSetup, step: Step, p: Plan) -> bool {
    let root = step.kernel.raw.root;
    &&& root < s.nodes.len()
    &&& !(s.nodes[root as int].op is ConstF32)
    &&& !p.resolved.contains(root)
    &&& backward_root(s, root, p) is Ok
    &&& kernel_of(s, root, p) == step.kernel.raw
}

spec fn made(s: BackwardSetup, step: Step) -> bool {
    exists|p: Plan| #[trigger] made_in(s, step, p)
}

/// Whether all the nodes are in a graph, and none is a constant.
spec fn rooted(nodes: Seq<Node>, ids: Seq<NodeId>) -> bool {
    forall|i: int|
        0 <= i < ids.len() ==> #[trigger] ids[i] < nodes.len() && !(
        nodes[ids[i] as int].op is ConstF32)
}

spec fn all_made(s: BackwardSetup, steps: Seq<Step>) -> bool {
    &&& led(steps)
    &&& forall|i: int| 0 <= i < steps.len() ==> made(s, #[trigger] steps[i])
}

/// Whether the kernels of a plan are still there.
spec fn kept_on(before: Seq<Step>, after: Seq<Step>) -> bool {
    &&& before.len() <= after.len()
    &&& forall|i: int|
        0 <= i < before.len() ==> (#[trigger] after[i]).kernel == before[i].kernel
}

/// What a root adds to a plan.
proof fn lemma_adds(s: BackwardSetup, root: NodeId, p: Plan)
    requires
        s.ready(),
        flowing_graph(s.nodes),
        root < s.nodes.len(),
        !(s.nodes[root as int].op is ConstF32),
        all_made(s, p.steps),
        rooted(s.nodes, p.roots),
        backward_root(s, root, p) is Ok,
    ensures
        ({
            let q = backward_root(s, root, p)->Ok_0;
            &&& all_made(s, q.steps)
            &&& rooted(s.nodes, q.roots)
            &&& kept_on(p.steps, q.steps)
            &&& !p.resolved.contains(root) ==> q.steps.len() == p.steps.len() + 1
                && q.steps.last().kernel.raw.root == root
        }),
{
    if !p.resolved.contains(root) {
        let q = backward_root(s, root, p)->Ok_0;
        let (f, k, out, gid) = begun(s, root, p);
        assert(recovers(s.nodes, root)) by {
            assert(!(s.nodes[root as int].op is ConstF32));
        }
        lemma_kernel_of(s, root, p);
        lemma_begins(s, root, p);
        let l = node_grad(f, Operand::Node(root), out, k, p.resolved, gid, true);
        let ids = l.nodes->Ok_0;
        lemma_more_roots(p.roots, ids, ids.len(), l.resolved, root);
        assert forall|i: int| 0 <= i < q.roots.len() implies #[trigger] q.roots[i] < s.nodes.len()
            && !(s.nodes[q.roots[i] as int].op is ConstF32) by {
            let id = q.roots[i];
            if p.roots.contains(id) {
                let j = p.roots.index_of(id);
                assert(p.roots[j] == id);
            } else {
                let j = ids.index_of(id);
                assert(ids[j] == id);
            }
        }
        let step = q.steps.last();
        assert(made_in(s, step, p));
        assert(q.steps == depending(p.steps, root, true).push(step));
        lemma_led_on(p.steps, root, true, step);
        assert forall|i: int| 0 <= i < p.steps.len() implies (#[trigger] q.steps[i]).kernel
            == p.steps[i].kernel by {
            assert(q.steps[i] == depending(p.steps, root, true)[i]);
        }
        assert forall|i: int| 0 <= i < q.steps.len() implies made(s, #[trigger] q.steps[i]) by {
            if i < p.steps.len() {
                let old_step = p.steps[i];
                assert(q.steps[i].kernel == old_step.kernel);
                assert(made(s, old_step));
                let from = choose|from: Plan| #[trigger] made_in(s, old_step, from);
                assert(made_in(s, q.steps[i], from));
            } else {
                assert(q.steps[i] == step);
            }
        }
    }
}

proof fn lemma_round(s: BackwardSetup, roots: Seq<NodeId>, count: nat, p: Plan)
    requires
        s.ready(),
        flowing_graph(s.nodes),
        rooted(s.nodes, roots),
        count <= roots.len(),
        all_made(s, p.steps),
        rooted(s.nodes, p.roots),
        backward_round(s, roots, count, p) is Ok,
    ensures
        ({
            let q = backward_round(s, roots, count, p)->Ok_0;
            &&& all_made(s, q.steps)
            &&& rooted(s.nodes, q.roots)
            &&& kept_on(p.steps, q.steps)
        }),
    decreases count,
{
    if count > 0 {
        let c = (count - 1) as nat;
        lemma_round(s, roots, c, p);
        let q = backward_round(s, roots, c, p)->Ok_0;
        lemma_adds(s, roots[c as int], q);
        let u = backward_root(s, roots[c as int], q)->Ok_0;
        assert forall|i: int| 0 <= i < p.steps.len() implies (#[trigger] u.steps[i]).kernel
            == p.steps[i].kernel by {
            assert(u.steps[i].kernel == q.steps[i].kernel);
        }
    }
}

proof fn lemma_rounds(s: BackwardSetup, p: Plan, rest: nat)
    requires
        s.ready(),
        flowing_graph(s.nodes),
        all_made(s, p.steps),
        rooted(s.nodes, p.roots),
        backward_rounds(s, p, rest) is Ok,
    ensures
        all_made(s, backward_rounds(s, p, rest)->Ok_0),
        kept_on(p.steps, backward_rounds(s, p, rest)->Ok_0),
    decreases rest,
{
    if pending(s.nodes, p.roots) && rest > 0 {
        let start = Plan { roots: Seq::empty(), ..p };
        lemma_round(s, p.roots, p.roots.len(), start);
        let q = backward_round(s, p.roots, p.roots.len(), start)->Ok_0;
        lemma_rounds(s, q, (rest - 1) as nat);
        let steps = backward_rounds(s, p, rest)->Ok_0;
        assert forall|i: int| 0 <= i < p.steps.len() implies (#[trigger] steps[i]).kernel
            == p.steps[i].kernel by {
            assert(q.steps[i].kernel == p.steps[i].kernel);
        }
    }
}

/// The kernels of the backward pass of an input; the first is that of the input.
proof fn lemma_input_pass(s: BackwardSetup, input: NodeId)
    requires
        s.ready(),
        flowing_graph(s.nodes),
        input < s.nodes.len(),
        s.nodes[input as int].op is Input,
        input_pass(s, input) is Ok,
    ensures
        ({
            let steps = input_pass(s, input)->Ok_0;
            &&& all_made(s, steps)
            &&& s.nodes[input as int].outputs@.len() > 0 ==> steps.len() > 0
                && steps[0].kernel.raw.root == input
        }),
{
    let start = Plan { steps: Seq::empty(), roots: seq![input], resolved: Seq::empty() };
    lemma_rounds(s, start, s.nodes.len());
    if s.nodes[input as int].outputs@.len() > 0 {
        let p = Plan { roots: Seq::empty(), ..start };
        assert(start.roots[0] == input);
        assert(pending(s.nodes, start.roots));
        reveal_with_fuel(backward_round, 2);
        let q = backward_round(s, start.roots, 1, p)->Ok_0;
        assert(backward_round(s, start.roots, 1, p) == backward_root(s, input, p));
        lemma_adds(s, input, p);
        lemma_rounds(s, q, (s.nodes.len() - 1) as nat);
        let steps = input_pass(s, input)->Ok_0;
        assert(steps[0].kernel == q.steps[0].kernel);
    }
}

/// Whether some kernel is that of a node.
pub open spec fn has_root(steps: Seq<Step>, n: NodeId) -> bool {
    exists|i: int| 0 <= i < steps.len() && (#[trigger] steps[i]).kernel.raw.root == n
}

proof fn lemma_input_passes(s: BackwardSetup, count: nat)
    requires
        s.ready(),
        flowing_graph(s.nodes),
        count <= s.nodes.len() <= usize::MAX,
        input_passes(s, count) is Ok,
    ensures
        all_made(s, input_passes(s, count)->Ok_0),
        forall|n: NodeId|
            n < count && (#[trigger] s.nodes[n as int]).op is Input
                && s.nodes[n as int].outputs@.len() > 0 ==> has_root(
                input_passes(s, count)->Ok_0,
                n,
            ),
    decreases count,
{
    if count > 0 {
        let c = (count - 1) as nat;
        lemma_input_passes(s, c);
        let before = input_passes(s, c)->Ok_0;
        let steps = input_passes(s, count)->Ok_0;
        let input = c as usize;
        if s.nodes[count - 1].op is Input {
            lemma_input_pass(s, input);
            let more = input_pass(s, input)->Ok_0;
            assert(steps == before + more);
            assert forall|i: int, d: int|
                0 <= i < steps.len() && 0 <= d < steps[i].dep.len() implies follows(
                steps,
                i,
                #[trigger] steps[i].dep[d],
            ) by {
                let node = steps[i].dep[d];
                if i < before.len() {
                    assert(before[i].dep[d] == node);
                    let j = choose|j: int|
                        i < j < before.len() && (#[trigger] before[j]).kernel.raw.root == node;
                    assert(steps[j] == before[j]);
                } else {
                    let k = i - before.len();
                    assert(more[k].dep[d] == node);
                    let j = choose|j: int|
                        k < j < more.len() && (#[trigger] more[j]).kernel.raw.root == node;
                    assert(steps[j + before.len()] == more[j]);
                }
            }
            assert forall|i: int| 0 <= i < steps.len() implies made(s, #[trigger] steps[i]) by {
                if i < before.len() {
                    assert(steps[i] == before[i]);
                } else {
                    assert(steps[i] == more[i - before.len()]);
                }
            }
            assert forall|n: NodeId|
                n < count && (#[trigger] s.nodes[n as int]).op is Input
                    && s.nodes[n as int].outputs@.len() > 0 implies has_root(steps, n) by {
                if n < c {
                    assert(has_root(before, n));
                    let i = choose|i: int|
                        0 <= i < before.len() && (#[trigger] before[i]).kernel.raw.root == n;
                    assert(steps[i] == before[i]);
                } else {
                    assert(steps[before.len() as int] == more[0]);
                }
            }
        }
    }
}

/// The parameters of the gradients hold nothing else.
proof fn lemma_gradients_apart(
    nodes: Seq<Node>,
    meta: Metadata,
    saved: Seq<SaveIndicator>,
    tile: u32,
    n: NodeId,
)
    requires
        n < nodes.len(),
        backward_setup(nodes, meta, saved, tile).params.len() <= usize::MAX,
    ensures
        gradient_apart(backward_setup(nodes, meta, saved, tile), n),
{
    let s = backward_setup(nodes, meta, saved, tile);
    let count = nodes.len();
    let grads = backward_flags(saved, count);
    let inputs = input_flags(nodes);
    let kept = forward_flags(saved, count);
    lemma_marked_grows(grads, (n + 1) as nat, count);
    assert forall|m: int| 0 <= m < count implies (#[trigger] s.saved_params[m] matches Some(p) ==> p
        >= 2 + marked(grads, count)) by {
        lemma_marked_grows(inputs, (m + 1) as nat, count);
        lemma_marked_grows(kept, (m + 1) as nat, count);
    }
    assert forall|m: int| n < m < count implies (#[trigger] s.grad_params[m] matches Some(p)
        ==> s.grad_params[n as int] != Some(p)) by {
        lemma_marked_grows(grads, (n + 1) as nat, m as nat);
        lemma_marked_grows(grads, (m + 1) as nat, count);
    }
}

/// What a backward pass of a graph of operations that work element by element and of products
/// stores.
///
/// There is a kernel for every input that some node takes. A block of each kernel, in the matrix of
/// its root, stores the gradient of the root: what the pass adds up through all the nodes that take
/// it, up to those that nothing takes, which add the seed, and to products, whose gradients are
/// loaded from their parameters. Each kernel stands before those that it depends on.
///
/// A product whose gradient is loaded is a root of a later round, unless it was reached through a
/// sum, which hands on no nodes: it is then a root only where the pass of another input reaches it.
pub proof fn lemma_backward_pass_answers(
    nodes: Seq<Node>,
    meta: Metadata,
    saved: Seq<SaveIndicator>,
    tile: u32,
    chain: Chain,
)
    requires
        schedulable(nodes, meta),
        flowing_graph(nodes),
        tile * tile <= u32::MAX,
        nodes.len() <= usize::MAX,
        backward_pass(nodes, meta, saved, tile) == Ok::<Chain, Error>(chain),
        chain.params.len() <= usize::MAX,
    ensures
        ({
            let s = backward_setup(nodes, meta, saved, tile);
            &&& led(chain.steps)
            &&& forall|n: NodeId|
                n < nodes.len() && (#[trigger] nodes[n as int]).op is Input
                    && nodes[n as int].outputs@.len() > 0 ==> has_root(chain.steps, n)
            &&& forall|i: int, w: Place|
                #![trigger chain.steps[i], w.fields]
                0 <= i < chain.steps.len() ==> answered(s, chain.steps[i].kernel.raw, w)
        }),
{
    let s = backward_setup(nodes, meta, saved, tile);
    lemma_backward_setup(nodes, meta, saved, tile);
    lemma_input_passes(s, nodes.len());
    assert forall|i: int, w: Place|
        #![trigger chain.steps[i], w.fields]
        0 <= i < chain.steps.len() implies answered(s, chain.steps[i].kernel.raw, w) by {
        let k = chain.steps[i].kernel.raw;
        assert(made(s, chain.steps[i]));
        let from = choose|from: Plan| #[trigger] made_in(s, chain.steps[i], from);
        let root = k.root;
        if spans(nodes, w, tile, root) && k.values.len() <= usize::MAX && k.shared.len()
            <= usize::MAX {
            assert(recovers(nodes, root)) by {
                assert(!(nodes[root as int].op is ConstF32));
            }
            lemma_gradients_apart(nodes, meta, saved, tile, root);
            lemma_backward_root_answers(s, root, from, w);
        }
    }
}

/// Whether a block of a kernel, where it lies in the matrix of the root, stores the gradient.
pub open spec fn answered(s: BackwardSetup, k: RawView, w: Place) -> bool {
    spans(s.nodes, w, s.tile, k.root) && k.values.len() <= usize::MAX && k.shared.len()
        <= usize::MAX ==> answers(k, w, s.tile, scene_of(s, w.fields), k.root)
}

} // verus!
