//! The backward pass.

use vstd::prelude::*;

use crate::dispatch::backend::kernel::frame::{
    contains, fault, in_graph, mark_resolved, reached, resolve, slots_fit, stopped, Frame, Lowered,
    NodeInput, Operand, Scope,
};
use crate::dispatch::backend::kernel::index::{open_kernel, opened};
use crate::dispatch::backend::kernel::plan::{
    add_dependency, add_roots, assign_slots, backward_flags, blocked, chained, collect_flags,
    collect_inputs, depending, forward_flags, input_flags, lemma_more_roots, marked, more_roots,
    no_slots, overlay, param_run, schedulable, set_block, slots, steps, Chain, KernelsChained, Plan,
    Step,
};
use crate::dispatch::backend::kernel::raw::{LinkedKernel, LinkedView};
use crate::dispatch::backend::kernel::save::SaveIndicator;
use crate::dispatch::backend::kernel::Dependencies;
use crate::dispatch::backend::sound::pass::{all_finished, lemma_backward_root_finished};
use crate::dispatch::backend::std_lib;
use crate::dispatch::backend::{
    Axis, DType, Graph, Metadata, Node, NodeId, Op, Param, ParamId, ParamTy, ValueId, ValueState,
};
use crate::dispatch::{CompilationOptions, GpuBackend};
use crate::errors::{Error, ErrorKind};
use crate::scalar::{Float32, ZERO_BITS};

verus! {

/// Whether the gradient of a node is loaded where a backward pass evaluates it, and not computed:
/// the node changes the iteration space where that must be stable; or it is no leaf, computes more
/// than one element per thread, and either no node is resolved yet or one that is has fixed the
/// dispatch that the node would need.
pub open spec fn grad_loaded(f: Scope, n: NodeId, resolved: Seq<NodeId>, stable: bool) -> bool {
    let op = f.node(n).op;
    ||| op.transform() && !stable
    ||| !op.leaf() && !op.computed_gid() && (resolved.len() == 0 || ((op.dims_needed()
        || op.separate()) && f.claimed(resolved)))
}

/// What evaluating the gradient of a node at an index, into `upstream`, does to a kernel.
///
/// The seed is loaded for a node that nothing takes. Otherwise the gradient is loaded, or it is
/// the sum over the nodes that take this one.
pub open spec fn node_grad(
    f: Scope,
    node: Operand,
    upstream: ValueId,
    kernel: LinkedView,
    resolved: Seq<NodeId>,
    idx: ValueId,
    stable: bool,
) -> Lowered
    decreases
            f.above(node),
            0int,
            match node {
                Operand::Node(n) => f.node(n).outputs@.len() + 1,
                Operand::Raw(_) => 0,
            },
    when f.placed(node)
{
    match node {
        Operand::Raw(param) => Lowered {
            kernel: kernel.accum(upstream, Op::ParamLoad { param, index: idx }).param(param),
            resolved,
            nodes: Ok(Seq::empty()),
        },
        Operand::Node(n) => {
            let kernel = kernel.computes(f.node(n).op);
            if f.node(n).outputs@.len() == 0 {
                Lowered {
                    kernel: kernel.accum(upstream, Op::ParamLoad { param: 1, index: idx }).param(1),
                    resolved,
                    nodes: Ok(seq![n]),
                }
            } else if grad_loaded(f, n, resolved, stable) {
                match f.node_params[n as int] {
                    None => stopped(
                        kernel,
                        resolved,
                        "grad root param not materialized",
                        ErrorKind::ParamNotMaterialized,
                    ),
                    Some(param) => Lowered {
                        kernel: kernel.accum(upstream, Op::ParamLoad { param, index: idx }).param(
                            param,
                        ),
                        resolved,
                        nodes: Ok(seq![n]),
                    },
                }
            } else {
                let l = user_grads(f, n, 0, upstream, kernel, resolved, idx, stable, seq![n]);
                match l.nodes {
                    Err(_) => l,
                    Ok(nodes) => Lowered {
                        kernel: l.kernel,
                        resolved: resolve(l.resolved, n),
                        nodes: Ok(nodes),
                    },
                }
            }
        },
    }
}

/// What the nodes that take `n`, from the given one on, add to its gradient.
pub open spec fn user_grads(
    f: Scope,
    n: NodeId,
    from: int,
    upstream: ValueId,
    kernel: LinkedView,
    resolved: Seq<NodeId>,
    idx: ValueId,
    stable: bool,
    nodes: Seq<NodeId>,
) -> Lowered
    decreases f.above(Operand::Node(n)), 0int, f.node(n).outputs@.len() - from,
    when f.placed(Operand::Node(n)) && 0 <= from <= f.node(n).outputs@.len()
{
    if from >= f.node(n).outputs@.len() {
        Lowered { kernel, resolved, nodes: Ok(nodes) }
    } else {
        let user = f.node(n).outputs@[from];
        if f.node(user).op.leaf() {
            stopped(
                kernel,
                resolved,
                "node output accepting no inputs",
                ErrorKind::UnresolvedOutput,
            )
        } else if !f.node(user).inputs@.contains(n) {
            stopped(
                kernel,
                resolved,
                "recieved invalid node edge",
                ErrorKind::UnresolvedInput,
            )
        } else {
            let edge = f.node(user).inputs@.index_of_first(n).unwrap() as u8;
            let l = std_lib::lowering(
                f,
                Some(edge),
                user,
                upstream,
                kernel,
                resolved,
                idx,
                stable,
            );
            match l.nodes {
                Err(_) => l,
                Ok(deep) => user_grads(
                    f,
                    n,
                    from + 1,
                    upstream,
                    l.kernel,
                    l.resolved,
                    idx,
                    stable,
                    nodes + deep,
                ),
            }
        }
    }
}

/// Evaluates the gradient of a node at an index, into `upstream`, and returns the nodes that it
/// reached.
#[verifier::loop_isolation(false)]
pub fn eval_grad(
    frame: &Frame<'_>,
    node: &NodeInput<'_>,
    upstream: ValueId,
    resolved: &mut Vec<NodeId>,
    kernel: &mut LinkedKernel,
    idx: ValueId,
    stable_iteration_space: bool,
) -> (r: Result<Vec<NodeId>, Error>)
    requires
        frame@.fits(old(kernel)@, old(resolved)@),
        frame@.knows(node@, old(kernel)@.params.len()),
    ensures
        (Lowered { kernel: final(kernel)@, resolved: final(resolved)@, nodes: reached(r) })
            == node_grad(
            frame@,
            node@,
            upstream,
            old(kernel)@,
            old(resolved)@,
            idx,
            stable_iteration_space,
        ),
        frame@.fits(final(kernel)@, final(resolved)@),
        final(kernel)@.params.len() == old(kernel)@.params.len(),
        final(kernel)@.meta.len() == old(kernel)@.meta.len(),
        r matches Ok(ids) ==> frame@.reaches_up(node@, ids@),
    decreases frame@.above(node@), 0int, 0int,
{
    let n: NodeId = match node {
        NodeInput::Node(n) => *n,
        NodeInput::Raw { param, .. } => {
            kernel.raw.accum_var(upstream, Op::ParamLoad { param: *param, index: idx });
            kernel.register_param(*param);
            return Ok(Vec::new());
        },
    };
    let ghost input = node@;
    let node = &frame.graph.nodes[n];
    kernel.ops.push(node.op);
    let mut deepest: Vec<NodeId> = Vec::new();
    deepest.push(n);
    if node.outputs.len() == 0 {
        kernel.raw.accum_var(upstream, Op::ParamLoad { param: 1, index: idx });
        kernel.register_param(1);
        return Ok(deepest);
    }
    let dims_invalid = (node.op.is_need_dims() || node.op.is_prefer_separate())
        && frame.is_claimed(resolved);
    if (node.op.is_transform() && !stable_iteration_space) || (!node.op.is_leaf()
        && !node.op.is_compute_gid() && (dims_invalid || resolved.len() == 0)) {
        let param = match frame.node_params[n] {
            Some(param) => param,
            None => {
                return Err(
                    Error {
                        msg: "grad root param not materialized",
                        kind: ErrorKind::ParamNotMaterialized,
                        ctx: (),
                    },
                );
            },
        };
        kernel.raw.accum_var(upstream, Op::ParamLoad { param, index: idx });
        kernel.register_param(param);
        return Ok(deepest);
    }
    let ghost start = kernel@;
    let ghost known = resolved@;
    let mut i: usize = 0;
    while i < node.outputs.len()
        invariant
            input == Operand::Node(n),
            n < frame@.count(),
            *node == frame@.node(n),
            i <= node.outputs@.len(),
            frame@.fits(kernel@, resolved@),
            kernel@.params.len() == start.params.len(),
            kernel@.meta.len() == start.meta.len(),
            frame@.reaches_up(input, deepest@),
            user_grads(
                frame@,
                n,
                0,
                upstream,
                start,
                known,
                idx,
                stable_iteration_space,
                seq![n],
            ) == user_grads(
                frame@,
                n,
                i as int,
                upstream,
                kernel@,
                resolved@,
                idx,
                stable_iteration_space,
                deepest@,
            ),
        decreases node.outputs@.len() - i,
    {
        let user: NodeId = node.outputs[i];
        if frame.graph.nodes[user].op.is_leaf() {
            return Err(
                Error {
                    msg: "node output accepting no inputs",
                    kind: ErrorKind::UnresolvedOutput,
                    ctx: (),
                },
            );
        }
        let edge: usize = match frame.graph.get_edge(n, user) {
            Some(edge) => edge,
            None => {
                return Err(
                    Error {
                        msg: "recieved invalid node edge",
                        kind: ErrorKind::UnresolvedInput,
                        ctx: (),
                    },
                );
            },
        };
        assert((edge as u8) <= edge) by (bit_vector);
        match std_lib::lower(
            frame,
            resolved,
            Some(#[verifier::truncate] (edge as u8)),
            user,
            upstream,
            kernel,
            idx,
            stable_iteration_space,
        ) {
            Ok(mut deep) => {
                deepest.append(&mut deep);
            },
            Err(e) => {
                return Err(e);
            },
        }
        i += 1;
    }
    mark_resolved(resolved, n);
    Ok(deepest)
}

/// Starts a kernel of the backward pass, and returns it with the offset of its batch and the index.
pub fn gen_kernel(
    meta: Metadata,
    params: &[Param],
    block: [u32; 3],
    input: NodeId,
    root_node: &Node,
) -> (r: (LinkedKernel, ValueId, ValueId))
    requires
        params@.len() >= 1,
        root_node.shape@.len() >= 1,
        forall|i: int| 0 <= i < root_node.shape@.len() ==> root_node.shape@[i] < meta.count(),
    ensures
        (r.0@, r.1, r.2) == opened(
            meta,
            params@.len(),
            block@,
            input,
            root_node.shape@,
            true,
        ),
        r.0@.params.len() == params@.len(),
        r.0@.meta.len() == meta.count(),
{
    open_kernel(meta, params.len(), block, input, &root_node.shape, true)
}

/// What a backward pass works with.
pub struct BackwardSetup {
    pub nodes: Seq<Node>,
    pub meta: Metadata,
    pub tile: u32,
    pub params: Seq<Param>,
    pub grad_params: Seq<Option<ParamId>>,
    pub saved_params: Seq<Option<ParamId>>,
}

impl BackwardSetup {
    /// Whether the parameters fit the graph, and the graph can be turned into kernels.
    pub open spec fn ready(self) -> bool {
        &&& schedulable(self.nodes, self.meta)
        &&& slots_fit(self.grad_params, self.nodes.len(), self.params.len())
        &&& slots_fit(self.saved_params, self.nodes.len(), self.params.len())
        &&& self.params.len() >= 2
        &&& self.tile * self.tile <= u32::MAX
    }
}

/// What a backward pass works with.
struct BackwardState<'a> {
    graph: &'a Graph,
    meta: Metadata,
    tile: u32,
    params: Vec<Param>,
    grad_params: Vec<Option<ParamId>>,
    saved_params: Vec<Option<ParamId>>,
}

impl BackwardState<'_> {
    spec fn setup(self) -> BackwardSetup {
        BackwardSetup {
            nodes: self.graph.nodes@,
            meta: self.meta,
            tile: self.tile,
            params: self.params@,
            grad_params: self.grad_params@,
            saved_params: self.saved_params@,
        }
    }
}

/// The parameters of a backward pass: the metadata, the seed, the gradients that it defines, the
/// inputs, and the results that the forward pass saved.
pub open spec fn backward_setup(
    nodes: Seq<Node>,
    meta: Metadata,
    saved: Seq<SaveIndicator>,
    tile: u32,
) -> BackwardSetup {
    let count = nodes.len();
    let none = Seq::new(count, |n: int| None::<ParamId>);
    let grads = backward_flags(saved, count);
    let inputs = input_flags(nodes);
    let kept = forward_flags(saved, count);
    let first = 2 + marked(grads, count);
    let second = first + marked(inputs, count);
    BackwardSetup {
        nodes,
        meta,
        tile,
        params: seq![
            Param { dtype: DType::UnsignedInt, ty: ParamTy::Uniform, pid: 0 },
            Param { dtype: DType::Float, ty: ParamTy::ReadOnly, pid: 1 },
        ] + param_run(2, marked(grads, count), ParamTy::ReadWrite) + param_run(
            first,
            marked(inputs, count),
            ParamTy::ReadOnly,
        ) + param_run(second, marked(kept, count), ParamTy::ReadOnly),
        grad_params: overlay(none, slots(grads, 2)),
        saved_params: overlay(overlay(none, slots(inputs, first)), slots(kept, second)),
    }
}

/// The plan with a kernel for one root, unless the root is resolved.
///
/// The gradient of the root is stored, except that of an operation which stores its own.
pub open spec fn backward_root(s: BackwardSetup, root: NodeId, p: Plan) -> Result<Plan, Error> {
    if p.resolved.contains(root) {
        Ok(p)
    } else {
        let size = (s.tile * s.tile) as u32;
        let op = s.nodes[root as int].op;
        let (kernel, base, gid) = opened(
            s.meta,
            s.params.len(),
            seq![s.tile, s.tile, 1],
            root,
            s.nodes[root as int].shape@,
            true,
        );
        let (raw, upstream) = kernel.raw.var_f(
            Op::ConstF32 { value: Float32 { bits: ZERO_BITS } },
        );
        let (raw, tile_size) = raw.def(
            DType::UnsignedInt,
            ValueState::Const,
            Some(Op::ConstU32 { value: s.tile }),
        );
        let (raw, local_row) = raw.let_u(Op::LocalId { axis: Axis::Y });
        let (raw, local_col) = raw.let_u(Op::LocalId { axis: Axis::X });
        let scope = Scope {
            nodes: s.nodes,
            node_params: s.grad_params,
            saved_params: s.saved_params,
            base,
            local_row,
            local_col,
            shared_size: size,
            tile_size,
            since: p.resolved.len() as usize,
        };
        let l = node_grad(
            scope,
            Operand::Node(root),
            upstream,
            LinkedView { raw, ..kernel },
            p.resolved,
            gid,
            true,
        );
        let stores = op.computed_gid() || op.leaf();
        match l.nodes {
            Err(e) => Err(e),
            Ok(ids) => if stores && s.grad_params[root as int] is None {
                Err(
                    fault(
                        "grad param could not be materialized during invalid dispatch fusion",
                        ErrorKind::ParamNotMaterialized,
                    ),
                )
            } else {
                let kernel = if stores {
                    l.kernel.store(s.grad_params[root as int].unwrap(), gid, upstream)
                } else {
                    l.kernel
                };
                Ok(
                    Plan {
                        steps: depending(p.steps, root, true).push(
                            Step {
                                kernel: blocked(s.nodes, kernel, ids, ids.len(), size),
                                dep: Seq::empty(),
                            },
                        ),
                        roots: more_roots(p.roots, ids, ids.len(), l.resolved, root),
                        resolved: l.resolved,
                    },
                )
            },
        }
    }
}

/// The plan with kernels for the first roots of a round.
pub open spec fn backward_round(s: BackwardSetup, roots: Seq<NodeId>, count: nat, p: Plan) -> Result<
    Plan,
    Error,
>
    decreases count,
{
    if count == 0 {
        Ok(p)
    } else {
        match backward_round(s, roots, (count - 1) as nat, p) {
            Err(e) => Err(e),
            Ok(p) => backward_root(s, roots[count - 1], p),
        }
    }
}

/// A round that stops at some root stops there whatever roots follow.
pub proof fn lemma_backward_stops(
    s: BackwardSetup,
    roots: Seq<NodeId>,
    a: nat,
    b: nat,
    p: Plan,
)
    requires
        a <= b,
        backward_round(s, roots, a, p) is Err,
    ensures
        backward_round(s, roots, b, p) == backward_round(s, roots, a, p),
    decreases b,
{
    if a < b {
        lemma_backward_stops(s, roots, a, (b - 1) as nat, p);
    }
}

/// Whether something takes some root.
pub open spec fn pending(nodes: Seq<Node>, roots: Seq<NodeId>) -> bool {
    exists|i: int| 0 <= i < roots.len() && nodes[#[trigger] roots[i] as int].outputs@.len() > 0
}

/// The kernels of all the rounds from a plan on. Each round lowers the roots of the one before,
/// until nothing takes any root; the roots of each lie above those of the one before.
pub open spec fn backward_rounds(s: BackwardSetup, p: Plan, rest: nat) -> Result<Seq<Step>, Error>
    decreases rest,
{
    if !pending(s.nodes, p.roots) || rest == 0 {
        Ok(p.steps)
    } else {
        match backward_round(s, p.roots, p.roots.len(), Plan { roots: Seq::empty(), ..p }) {
            Err(e) => Err(e),
            Ok(q) => backward_rounds(s, q, (rest - 1) as nat),
        }
    }
}

/// The kernels that compute the gradient of one input.
pub open spec fn input_pass(s: BackwardSetup, input: NodeId) -> Result<Seq<Step>, Error> {
    backward_rounds(
        s,
        Plan { steps: Seq::empty(), roots: seq![input], resolved: Seq::empty() },
        s.nodes.len(),
    )
}

/// The kernels that compute the gradients of the inputs among the first nodes.
pub open spec fn input_passes(s: BackwardSetup, count: nat) -> Result<Seq<Step>, Error>
    decreases count,
{
    if count == 0 {
        Ok(Seq::empty())
    } else {
        match input_passes(s, (count - 1) as nat) {
            Err(e) => Err(e),
            Ok(before) => if s.nodes[count - 1].op is Input {
                match input_pass(s, (count - 1) as usize) {
                    Err(e) => Err(e),
                    Ok(more) => Ok(before + more),
                }
            } else {
                Ok(before)
            },
        }
    }
}

/// Passes that stop at some input stop there whatever inputs follow.
pub proof fn lemma_passes_stop(s: BackwardSetup, a: nat, b: nat)
    requires
        a <= b,
        input_passes(s, a) is Err,
    ensures
        input_passes(s, b) == input_passes(s, a),
    decreases b,
{
    if a < b {
        lemma_passes_stop(s, a, (b - 1) as nat);
    }
}

/// The kernels of a backward pass, and their parameters.
pub open spec fn backward_pass(
    nodes: Seq<Node>,
    meta: Metadata,
    saved: Seq<SaveIndicator>,
    tile: u32,
) -> Result<Chain, Error> {
    let s = backward_setup(nodes, meta, saved, tile);
    match input_passes(s, nodes.len()) {
        Err(e) => Err(e),
        Ok(steps) => Ok(Chain { steps, params: s.params }),
    }
}

/// Whether all the roots have a dimension, and lie above a bound.
pub open spec fn rooted_above(nodes: Seq<Node>, roots: Seq<NodeId>, low: nat) -> bool {
    forall|i: int|
        0 <= i < roots.len() ==> low <= #[trigger] roots[i] < nodes.len()
            && nodes[roots[i] as int].shape@.len() >= 1
}

fn is_pending(graph: &Graph, roots: &Vec<NodeId>) -> (r: bool)
    requires
        in_graph(roots@, graph.nodes@.len()),
    ensures
        r == pending(graph.nodes@, roots@),
{
    let mut i: usize = 0;
    while i < roots.len()
        invariant
            i <= roots@.len(),
            in_graph(roots@, graph.nodes@.len()),
            forall|j: int|
                0 <= j < i ==> graph.nodes@[#[trigger] roots@[j] as int].outputs@.len() == 0,
        decreases roots@.len() - i,
    {
        if graph.nodes[roots[i]].outputs.len() > 0 {
            assert(graph.nodes@[roots@[i as int] as int].outputs@.len() > 0);
            return true;
        }
        i += 1;
    }
    false
}

fn setup_backward<'a>(
    graph: &'a Graph,
    meta: Metadata,
    saved: &[SaveIndicator],
    tile: u32,
) -> (s: BackwardState<'a>)
    requires
        schedulable(graph.nodes@, meta),
        saved@.len() >= graph.nodes@.len(),
        tile * tile <= u32::MAX,
    ensures
        s.setup() == backward_setup(graph.nodes@, meta, saved@, tile),
        s.setup().ready(),
        *s.graph == *graph,
{
    let count: usize = graph.nodes.len();
    let mut params: Vec<Param> = Vec::new();
    params.push(Param { dtype: DType::UnsignedInt, ty: ParamTy::Uniform, pid: 0 });
    params.push(Param { dtype: DType::Float, ty: ParamTy::ReadOnly, pid: 1 });
    let mut grad_params = no_slots(count);
    let grads = collect_flags(saved, count, true);
    assign_slots(&mut grad_params, &grads, ParamTy::ReadWrite, &mut params);
    let mut saved_params = no_slots(count);
    let inputs = collect_inputs(graph);
    assign_slots(&mut saved_params, &inputs, ParamTy::ReadOnly, &mut params);
    let kept = collect_flags(saved, count, false);
    assign_slots(&mut saved_params, &kept, ParamTy::ReadOnly, &mut params);
    let s = BackwardState { graph, meta, tile, params, grad_params, saved_params };
    assert(s.setup().params == backward_setup(graph.nodes@, meta, saved@, tile).params);
    s
}

fn lower_backward_root(
    s: &BackwardState<'_>,
    root: NodeId,
    kernels: &mut Vec<Dependencies<LinkedKernel>>,
    roots: &mut Vec<NodeId>,
    resolved: &mut Vec<NodeId>,
    Ghost(low): Ghost<nat>,
) -> (r: Result<(), Error>)
    requires
        s.setup().ready(),
        low <= root < s.graph.nodes@.len(),
        s.graph.nodes@[root as int].shape@.len() >= 1,
        in_graph(old(resolved)@, s.graph.nodes@.len()),
        rooted_above(s.graph.nodes@, old(roots)@, low + 1),
    ensures
        match backward_root(
            s.setup(),
            root,
            Plan { steps: steps(old(kernels)@), roots: old(roots)@, resolved: old(resolved)@ },
        ) {
            Err(e) => r == Err::<(), Error>(e),
            Ok(p) => r is Ok && p == (Plan {
                steps: steps(final(kernels)@),
                roots: final(roots)@,
                resolved: final(resolved)@,
            }),
        },
        r is Ok ==> in_graph(final(resolved)@, s.graph.nodes@.len()),
        r is Ok ==> rooted_above(s.graph.nodes@, final(roots)@, low + 1),
        r is Ok && all_finished(steps(old(kernels)@), s.setup().params.len()) ==> all_finished(
            steps(final(kernels)@),
            s.setup().params.len(),
        ),
{
    proof {
        let p = Plan { steps: steps(kernels@), roots: roots@, resolved: resolved@ };
        if all_finished(p.steps, s.setup().params.len()) {
            lemma_backward_root_finished(s.setup(), root, p);
        }
    }
    if contains(resolved, root) {
        return Ok(());
    }
    let tile: u32 = s.tile;
    assert(tile * tile <= u32::MAX);
    let size: u32 = tile * tile;
    let (mut kernel, base, gid) = gen_kernel(
        s.meta,
        s.params.as_slice(),
        [tile, tile, 1],
        root,
        &s.graph.nodes[root],
    );
    let upstream: ValueId = kernel.raw.var_f(Op::ConstF32 { value: Float32 { bits: ZERO_BITS } });
    let tile_size: ValueId = kernel.raw.def_var(
        DType::UnsignedInt,
        ValueState::Const,
        Some(Op::ConstU32 { value: tile }),
    );
    let local_row: ValueId = kernel.raw.let_u(Op::LocalId { axis: Axis::Y });
    let local_col: ValueId = kernel.raw.let_u(Op::LocalId { axis: Axis::X });
    let since: usize = resolved.len();
    let frame = Frame {
        graph: s.graph,
        node_params: s.grad_params.as_slice(),
        saved_params: s.saved_params.as_slice(),
        base,
        local_row,
        local_col,
        shared_size: size,
        tile_size,
        since,
    };
    let new_roots = match eval_grad(
        &frame,
        &NodeInput::Node(root),
        upstream,
        resolved,
        &mut kernel,
        gid,
        true,
    ) {
        Ok(new_roots) => new_roots,
        Err(e) => {
            return Err(e);
        },
    };
    let op = s.graph.nodes[root].op;
    if op.is_compute_gid() || op.is_leaf() {
        match s.grad_params[root] {
            Some(pid) => {
                kernel.param_store(pid, gid, upstream);
            },
            None => {
                return Err(
                    Error {
                        msg: "grad param could not be materialized during invalid dispatch fusion",
                        kind: ErrorKind::ParamNotMaterialized,
                        ctx: (),
                    },
                );
            },
        }
    }
    assert(new_roots@ == new_roots@.subrange(0, new_roots@.len() as int));
    set_block(s.graph, &mut kernel, &new_roots, 0, size);
    add_roots(roots, &new_roots, 0, resolved, root);
    proof {
        let nodes = s.graph.nodes@;
        lemma_more_roots(old(roots)@, new_roots@, new_roots@.len(), resolved@, root);
        assert forall|i: int| 0 <= i < roots@.len() implies low + 1 <= #[trigger] roots@[i]
            < nodes.len() && nodes[roots@[i] as int].shape@.len() >= 1 by {
            let id = roots@[i];
            if old(roots)@.contains(id) {
                let j = old(roots)@.index_of(id);
                assert(old(roots)@[j] == id);
            } else {
                let j = new_roots@.index_of(id);
                assert(new_roots@[j] == id);
            }
        }
    }
    add_dependency(kernels, root, true);
    let ghost before = steps(kernels@);
    kernels.push(Dependencies { val: kernel, dep: Vec::new() });
    assert(steps(kernels@) == before.push(kernels@.last()@));
    Ok(())
}

fn lower_input(s: &BackwardState<'_>, input: NodeId) -> (r: Result<
    Vec<Dependencies<LinkedKernel>>,
    Error,
>)
    requires
        s.setup().ready(),
        input < s.graph.nodes@.len(),
        s.graph.nodes@[input as int].op is Input,
    ensures
        match input_pass(s.setup(), input) {
            Err(e) => r == Err::<Vec<Dependencies<LinkedKernel>>, Error>(e),
            Ok(all) => r matches Ok(kernels) && steps(kernels@) == all,
        },
        r matches Ok(kernels) ==> all_finished(steps(kernels@), s.setup().params.len()),
{
    let mut kernels: Vec<Dependencies<LinkedKernel>> = Vec::new();
    let mut resolved: Vec<NodeId> = Vec::new();
    let mut roots: Vec<NodeId> = Vec::new();
    roots.push(input);
    let ghost setup = s.setup();
    let ghost nodes = s.graph.nodes@;
    let ghost start = Plan { steps: Seq::empty(), roots: seq![input], resolved: Seq::empty() };
    let ghost mut low = 0nat;
    assert(steps(kernels@) == start.steps);
    assert(roots@ == start.roots);
    while is_pending(s.graph, &roots)
        invariant
            nodes == s.graph.nodes@,
            setup == s.setup(),
            setup.ready(),
            input < nodes.len(),
            low <= nodes.len(),
            start == (Plan { steps: Seq::empty(), roots: seq![input], resolved: Seq::empty() }),
            pending(nodes, roots@) ==> rooted_above(nodes, roots@, low),
            in_graph(roots@, nodes.len()),
            in_graph(resolved@, nodes.len()),
            all_finished(steps(kernels@), setup.params.len()),
            backward_rounds(setup, start, nodes.len()) == backward_rounds(
                setup,
                Plan { steps: steps(kernels@), roots: roots@, resolved: resolved@ },
                (nodes.len() - low) as nat,
            ),
        decreases nodes.len() - low,
    {
        let ghost p = Plan {
            steps: steps(kernels@),
            roots: Seq::empty(),
            resolved: resolved@,
        };
        let current = roots;
        roots = Vec::new();
        let mut i: usize = 0;
        while i < current.len()
            invariant
                i <= current@.len(),
                nodes == s.graph.nodes@,
                setup == s.setup(),
                setup.ready(),
                start == (Plan {
                    steps: Seq::empty(),
                    roots: seq![input],
                    resolved: Seq::empty(),
                }),
                pending(nodes, current@),
                p.roots == Seq::<NodeId>::empty(),
                low < nodes.len(),
                rooted_above(nodes, current@, low),
                rooted_above(nodes, roots@, low + 1),
                in_graph(resolved@, nodes.len()),
                all_finished(steps(kernels@), setup.params.len()),
                backward_round(setup, current@, i as nat, p) == Ok::<Plan, Error>(
                    Plan { steps: steps(kernels@), roots: roots@, resolved: resolved@ },
                ),
                backward_rounds(setup, start, nodes.len()) == backward_rounds(
                    setup,
                    Plan { roots: current@, ..p },
                    (nodes.len() - low) as nat,
                ),
            decreases current@.len() - i,
        {
            match lower_backward_root(
                s,
                current[i],
                &mut kernels,
                &mut roots,
                &mut resolved,
                Ghost(low),
            ) {
                Ok(()) => {},
                Err(e) => {
                    proof {
                        lemma_backward_stops(
                            setup,
                            current@,
                            (i + 1) as nat,
                            current@.len(),
                            p,
                        );
                    }
                    return Err(e);
                },
            }
            i += 1;
        }
        proof {
            low = low + 1;
        }
    }
    Ok(kernels)
}

/// Lowers a graph into the kernels of its backward pass.
///
/// # Errors
///
/// Fails when a kernel would have to load or store a result that no parameter holds, or when a
/// node is listed as taking another and does not.
pub fn lower_backward<B: GpuBackend>(
    graph: &Graph,
    meta: Metadata,
    saved: &[SaveIndicator],
    options: &CompilationOptions<B>,
) -> (r: Result<KernelsChained, Error>)
    requires
        schedulable(graph.nodes@, meta),
        saved@.len() >= graph.nodes@.len(),
        options.opt.tile_size * options.opt.tile_size <= u32::MAX,
    ensures
        chained(r) == backward_pass(graph.nodes@, meta, saved@, options.opt.tile_size),
        r matches Ok(k) ==> all_finished(k@.steps, k@.params.len()),
{
    let s = setup_backward(graph, meta, saved, options.opt.tile_size);
    let mut kernels: Vec<Dependencies<LinkedKernel>> = Vec::new();
    let ghost setup = s.setup();
    let ghost nodes = graph.nodes@;
    assert(steps(kernels@) == Seq::<Step>::empty());
    let mut n: usize = 0;
    while n < graph.nodes.len()
        invariant
            n <= graph.nodes@.len(),
            nodes == graph.nodes@,
            *s.graph == *graph,
            setup == s.setup(),
            setup.ready(),
            setup == backward_setup(nodes, meta, saved@, options.opt.tile_size),
            input_passes(setup, n as nat) == Ok::<Seq<Step>, Error>(steps(kernels@)),
            all_finished(steps(kernels@), setup.params.len()),
        decreases graph.nodes@.len() - n,
    {
        if graph.nodes[n].op.is_input() {
            match lower_input(&s, n) {
                Ok(mut grad_kernels) => {
                    let ghost before = steps(kernels@);
                    let ghost more = steps(grad_kernels@);
                    kernels.append(&mut grad_kernels);
                    assert(steps(kernels@) == before + more);
                },
                Err(e) => {
                    proof {
                        lemma_passes_stop(setup, (n + 1) as nat, nodes.len());
                    }
                    return Err(e);
                },
            }
        }
        n += 1;
    }
    Ok(KernelsChained { kernels, params: s.params })
}

} // verus!
