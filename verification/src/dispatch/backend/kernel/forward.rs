//! The forward pass.

use vstd::prelude::*;

use crate::dispatch::backend::kernel::frame::{
    contains, fault, in_graph, mark_resolved, reached, resolve, slots_fit, sorted, stopped, tail,
    Frame, Lowered, NodeInput, Operand, Scope,
};
use crate::dispatch::backend::kernel::index::{open_kernel, opened};
use crate::dispatch::backend::kernel::plan::{
    add_dependency, add_roots, assign_slots, blocked, chained, collect_flags, depending,
    forward_flags, lemma_more_roots, marked, more_roots, no_slots, overlay, param_run, schedulable,
    set_block, slots, steps, Chain, KernelsChained, Plan, Step,
};
use crate::dispatch::backend::kernel::raw::{LinkedKernel, LinkedView};
use crate::dispatch::backend::kernel::save::SaveIndicator;
use crate::dispatch::backend::kernel::Dependencies;
use crate::dispatch::backend::sound::pass::{all_finished, lemma_forward_root_finished};
use crate::dispatch::backend::std_lib;
use crate::dispatch::backend::{
    Axis, DType, Graph, GraphOp, Metadata, Node, NodeId, Op, Param, ParamId, ParamTy, ValueId,
    ValueState,
};
use crate::dispatch::{CompilationOptions, GpuBackend};
use crate::errors::{Error, ErrorKind};

verus! {

/// A node evaluated: its result stored if the pass saves it, and the node resolved.
pub open spec fn node_done(
    f: Scope,
    n: NodeId,
    out: ValueId,
    kernel: LinkedView,
    resolved: Seq<NodeId>,
    idx: ValueId,
    nodes: Seq<NodeId>,
) -> Lowered {
    Lowered {
        kernel: match f.saved_params[n as int] {
            Some(p) if f.node(n).op.auto_saved() => kernel.store(p, idx, out),
            _ => kernel,
        },
        resolved: resolve(resolved, n),
        nodes: Ok(nodes),
    }
}

/// What evaluating a node at an index, into `out`, does to a kernel.
///
/// An input is loaded and a constant assigned. Any other node is lowered, unless it changes the
/// iteration space where that must be stable, or needs the dimensions where a resolved node has
/// fixed the dispatch: such a node is loaded from where an earlier kernel has saved it, or is left
/// alone when nothing reads it.
pub open spec fn node_value(
    f: Scope,
    node: Operand,
    out: ValueId,
    kernel: LinkedView,
    resolved: Seq<NodeId>,
    idx: ValueId,
    stable: bool,
) -> Lowered
    decreases f.below(node), 0int, 0int,
    when f.placed(node)
{
    match node {
        Operand::Raw(_) => stopped(
            kernel,
            resolved,
            "cannot evaluate raw node input during forward pass",
            ErrorKind::InvalidArgument,
        ),
        Operand::Node(n) => {
            let op = f.node(n).op;
            let own: Seq<NodeId> = if f.node(n).inputs@.len() > 0 {
                seq![n]
            } else {
                Seq::empty()
            };
            let kernel = kernel.computes(op);
            match op {
                GraphOp::Input => match f.node_params[n as int] {
                    None => stopped(
                        kernel,
                        resolved,
                        "input param missing",
                        ErrorKind::ParamNotMaterialized,
                    ),
                    Some(param) => node_done(
                        f,
                        n,
                        out,
                        kernel.assign(out, Op::ParamLoad { param, index: idx }).param(param),
                        resolved,
                        idx,
                        own,
                    ),
                },
                GraphOp::ConstF32(value) => node_done(
                    f,
                    n,
                    out,
                    kernel.assign(out, Op::ConstF32 { value }),
                    resolved,
                    idx,
                    own,
                ),
                GraphOp::Custom { .. } => if (op.transform() && !stable) || (op.dims_needed()
                    && f.claimed(resolved)) {
                    if f.node(n).outputs@.len() == 0 {
                        Lowered { kernel, resolved, nodes: Ok(own) }
                    } else {
                        match f.saved_params[n as int] {
                            None => stopped(
                                kernel,
                                resolved,
                                "saved root param not materialized",
                                ErrorKind::ParamNotMaterialized,
                            ),
                            Some(param) => Lowered {
                                kernel: kernel.assign(
                                    out,
                                    Op::ParamLoad { param, index: idx },
                                ).param(param),
                                resolved,
                                nodes: Ok(own),
                            },
                        }
                    }
                } else {
                    let l = std_lib::lowering(f, None, n, out, kernel, resolved, idx, stable);
                    match l.nodes {
                        Err(_) => l,
                        Ok(deep) => node_done(f, n, out, l.kernel, l.resolved, idx, own + deep),
                    }
                },
            }
        },
    }
}

/// Evaluates a node at an index, into `out`, and returns the nodes with inputs that it reached.
pub fn eval_node(
    frame: &Frame<'_>,
    node: &NodeInput<'_>,
    out: ValueId,
    resolved: &mut Vec<NodeId>,
    kernel: &mut LinkedKernel,
    idx: ValueId,
    stable_iteration_space: bool,
) -> (r: Result<Vec<NodeId>, Error>)
    requires
        frame@.fits(old(kernel)@, old(resolved)@),
        frame@.knows(node@, old(kernel)@.params.len()),
    ensures
        (Lowered { kernel: final(kernel)@, resolved: final(resolved)@, nodes: reached(r) })
            == node_value(
            frame@,
            node@,
            out,
            old(kernel)@,
            old(resolved)@,
            idx,
            stable_iteration_space,
        ),
        frame@.fits(final(kernel)@, final(resolved)@),
        final(kernel)@.params.len() == old(kernel)@.params.len(),
        final(kernel)@.meta.len() == old(kernel)@.meta.len(),
        r matches Ok(ids) ==> frame@.reaches_down(node@, ids@),
    decreases frame@.below(node@), 0int, 0int,
{
    let n: NodeId = match node {
        NodeInput::Node(n) => *n,
        NodeInput::Raw { .. } => {
            return Err(
                Error {
                    msg: "cannot evaluate raw node input during forward pass",
                    kind: ErrorKind::InvalidArgument,
                    ctx: (),
                },
            );
        },
    };
    let node = &frame.graph.nodes[n];
    let mut deepest: Vec<NodeId> = Vec::new();
    if node.inputs.len() > 0 {
        deepest.push(n);
    }
    kernel.ops.push(node.op);
    match node.op {
        GraphOp::Input => {
            let param = match frame.node_params[n] {
                Some(param) => param,
                None => {
                    return Err(
                        Error {
                            msg: "input param missing",
                            kind: ErrorKind::ParamNotMaterialized,
                            ctx: (),
                        },
                    );
                },
            };
            kernel.raw.overwrite_var(out, Op::ParamLoad { param, index: idx });
            kernel.register_param(param);
        },
        GraphOp::ConstF32(value) => {
            kernel.raw.overwrite_var(out, Op::ConstF32 { value });
        },
        GraphOp::Custom { .. } => {
            if (node.op.is_transform() && !stable_iteration_space) || (node.op.is_need_dims()
                && frame.is_claimed(resolved)) {
                if node.outputs.len() > 0 {
                    let param = match frame.saved_params[n] {
                        Some(param) => param,
                        None => {
                            return Err(
                                Error {
                                    msg: "saved root param not materialized",
                                    kind: ErrorKind::ParamNotMaterialized,
                                    ctx: (),
                                },
                            );
                        },
                    };
                    kernel.raw.overwrite_var(out, Op::ParamLoad { param, index: idx });
                    kernel.register_param(param);
                }
                return Ok(deepest);
            }
            match std_lib::lower(
                frame,
                resolved,
                None,
                n,
                out,
                kernel,
                idx,
                stable_iteration_space,
            ) {
                Ok(mut deep) => {
                    deepest.append(&mut deep);
                },
                Err(e) => {
                    return Err(e);
                },
            }
        },
    }
    if let Some(saved) = frame.saved_params[n] {
        if node.op.is_auto_save() {
            kernel.param_store(saved, idx, out);
        }
    }
    mark_resolved(resolved, n);
    Ok(deepest)
}

/// The slots and the parameters with a slot for a node, which takes a new parameter unless it has
/// one.
pub open spec fn with_slot(s: (Seq<Option<ParamId>>, Seq<Param>), n: NodeId, param: Param) -> (
    Seq<Option<ParamId>>,
    Seq<Param>,
) {
    if s.0[n as int] is Some {
        s
    } else {
        (s.0.update(n as int, Some(s.1.len() as usize)), s.1.push(param))
    }
}

/// Gives a node a slot unless it has one, and returns the parameter in it.
pub fn ensure_param_slot(
    node_params: &mut Vec<Option<ParamId>>,
    node_id: NodeId,
    param: Param,
    params: &mut Vec<Param>,
) -> (r: ParamId)
    requires
        node_id < old(node_params)@.len(),
    ensures
        (final(node_params)@, final(params)@) == with_slot(
            (old(node_params)@, old(params)@),
            node_id,
            param,
        ),
        final(node_params)@[node_id as int] == Some(r),
{
    match node_params[node_id] {
        Some(pid) => pid,
        None => {
            let pid: ParamId = params.len();
            params.push(param);
            node_params[node_id] = Some(pid);
            pid
        },
    }
}

/// A parameter that an input is read from.
pub open spec fn input_param(pid: nat) -> Param {
    Param { dtype: DType::Float, ty: ParamTy::ReadOnly, pid: pid as usize }
}

/// The slots and the parameters after the first inputs of a node: one for each that is an input of
/// the graph.
pub open spec fn operand_slots(
    nodes: Seq<Node>,
    n: int,
    count: nat,
    s: (Seq<Option<ParamId>>, Seq<Param>),
) -> (Seq<Option<ParamId>>, Seq<Param>)
    decreases count,
{
    if count == 0 {
        s
    } else {
        let s = operand_slots(nodes, n, (count - 1) as nat, s);
        let input = nodes[n].inputs@[count - 1];
        if nodes[input as int].op is Input {
            with_slot(s, input, input_param(s.1.len()))
        } else {
            s
        }
    }
}

/// The slots and the parameters after the first nodes: one for each input of the graph that they
/// take, in the order in which they are first taken.
pub open spec fn input_slots(
    nodes: Seq<Node>,
    count: nat,
    s: (Seq<Option<ParamId>>, Seq<Param>),
) -> (Seq<Option<ParamId>>, Seq<Param>)
    decreases count,
{
    if count == 0 {
        s
    } else {
        let s = input_slots(nodes, (count - 1) as nat, s);
        operand_slots(nodes, count - 1, nodes[count - 1].inputs@.len(), s)
    }
}

fn assign_operand_slots(
    graph: &Graph,
    n: NodeId,
    node_params: &mut Vec<Option<ParamId>>,
    params: &mut Vec<Param>,
)
    requires
        n < graph.nodes@.len(),
        in_graph(graph.nodes@[n as int].inputs@, graph.nodes@.len()),
        slots_fit(old(node_params)@, graph.nodes@.len(), old(params)@.len()),
    ensures
        (final(node_params)@, final(params)@) == operand_slots(
            graph.nodes@,
            n as int,
            graph.nodes@[n as int].inputs@.len(),
            (old(node_params)@, old(params)@),
        ),
        slots_fit(final(node_params)@, graph.nodes@.len(), final(params)@.len()),
        final(params)@.len() >= old(params)@.len(),
{
    let ghost start = (node_params@, params@);
    let inputs = &graph.nodes[n].inputs;
    let mut i: usize = 0;
    while i < inputs.len()
        invariant
            i <= inputs@.len(),
            n < graph.nodes@.len(),
            *inputs == graph.nodes@[n as int].inputs,
            in_graph(inputs@, graph.nodes@.len()),
            slots_fit(node_params@, graph.nodes@.len(), params@.len()),
            (node_params@, params@) == operand_slots(graph.nodes@, n as int, i as nat, start),
            params@.len() >= start.1.len(),
        decreases inputs@.len() - i,
    {
        let input: NodeId = inputs[i];
        if graph.nodes[input].op.is_input() {
            let pid: ParamId = params.len();
            let _pid: ParamId = ensure_param_slot(
                node_params,
                input,
                Param { dtype: DType::Float, ty: ParamTy::ReadOnly, pid },
                params,
            );
        }
        i += 1;
    }
}

/// What a forward pass works with.
pub struct ForwardSetup {
    pub nodes: Seq<Node>,
    pub meta: Metadata,
    pub tile: u32,
    pub params: Seq<Param>,
    pub node_params: Seq<Option<ParamId>>,
    pub saved_params: Seq<Option<ParamId>>,
    pub output: ParamId,
}

impl ForwardSetup {
    /// Whether the parameters fit the graph, and the graph can be turned into kernels.
    pub open spec fn ready(self) -> bool {
        &&& schedulable(self.nodes, self.meta)
        &&& slots_fit(self.node_params, self.nodes.len(), self.params.len())
        &&& slots_fit(self.saved_params, self.nodes.len(), self.params.len())
        &&& self.params.len() >= 2
        &&& self.output < self.params.len()
        &&& self.tile * self.tile <= u32::MAX
    }
}

/// What a forward pass works with.
struct ForwardState<'a> {
    graph: &'a Graph,
    meta: Metadata,
    tile: u32,
    params: Vec<Param>,
    node_params: Vec<Option<ParamId>>,
    saved_params: Vec<Option<ParamId>>,
    output: ParamId,
}

impl ForwardState<'_> {
    spec fn setup(self) -> ForwardSetup {
        ForwardSetup {
            nodes: self.graph.nodes@,
            meta: self.meta,
            tile: self.tile,
            params: self.params@,
            node_params: self.node_params@,
            saved_params: self.saved_params@,
            output: self.output,
        }
    }
}

/// The slots with one parameter for every operation that nothing takes.
pub open spec fn sink_slots(
    nodes: Seq<Node>,
    slots: Seq<Option<ParamId>>,
    output: ParamId,
) -> Seq<Option<ParamId>> {
    Seq::new(
        slots.len(),
        |n: int|
            if nodes[n].outputs@.len() == 0 && nodes[n].op is Custom {
                Some(output)
            } else {
                slots[n]
            },
    )
}

/// The parameters of a forward pass: the metadata, the results that it saves, the inputs, and the
/// output, which holds the results that nothing takes.
pub open spec fn forward_setup(
    nodes: Seq<Node>,
    meta: Metadata,
    saved: Seq<SaveIndicator>,
    tile: u32,
) -> ForwardSetup {
    let flags = forward_flags(saved, nodes.len());
    let first = seq![Param { dtype: DType::UnsignedInt, ty: ParamTy::Uniform, pid: 0 }];
    let kept = first + param_run(1, marked(flags, nodes.len()), ParamTy::ReadWrite);
    let none = Seq::new(nodes.len(), |n: int| None::<ParamId>);
    let (node_params, params) = input_slots(nodes, nodes.len(), (none, kept));
    let output = params.len() as usize;
    ForwardSetup {
        nodes,
        meta,
        tile,
        params: params.push(
            Param { dtype: DType::Float, ty: ParamTy::ReadWrite, pid: output },
        ),
        node_params: sink_slots(nodes, node_params, output),
        saved_params: overlay(none, slots(flags, 1)),
        output,
    }
}

/// The plan with a kernel for one root, unless the root is resolved.
///
/// The kernels of the first round store their results to the output. An operation that computes its
/// own index has stored its result by then.
pub open spec fn forward_root(s: ForwardSetup, root: NodeId, first: bool, p: Plan) -> Result<
    Plan,
    Error,
> {
    if p.resolved.contains(root) {
        Ok(p)
    } else {
        let size = (s.tile * s.tile) as u32;
        let (kernel, base, gid) = opened(
            s.meta,
            s.params.len(),
            seq![s.tile, s.tile, 1],
            root,
            s.nodes[root as int].shape@,
            false,
        );
        let (raw, tile_size) = kernel.raw.def(
            DType::UnsignedInt,
            ValueState::Const,
            Some(Op::ConstU32 { value: s.tile }),
        );
        let (raw, local_row) = raw.let_u(Op::LocalId { axis: Axis::Y });
        let (raw, local_col) = raw.let_u(Op::LocalId { axis: Axis::X });
        let (raw, out) = raw.def(DType::Float, ValueState::Mut, None);
        let scope = Scope {
            nodes: s.nodes,
            node_params: s.node_params,
            saved_params: s.saved_params,
            base,
            local_row,
            local_col,
            shared_size: size,
            tile_size,
            since: p.resolved.len() as usize,
        };
        let l = node_value(
            scope,
            Operand::Node(root),
            out,
            LinkedView { raw, ..kernel },
            p.resolved,
            gid,
            true,
        );
        match l.nodes {
            Err(e) => Err(e),
            Ok(ids) => {
                let reached = tail(ids);
                let kernel = blocked(s.nodes, l.kernel, ids, ids.len(), size);
                let kernel = if first && s.nodes[root as int].op.computed_gid() {
                    kernel.store(s.output, gid, out)
                } else {
                    kernel
                };
                Ok(
                    Plan {
                        steps: depending(p.steps, root, false).push(
                            Step { kernel, dep: Seq::empty() },
                        ),
                        roots: more_roots(p.roots, reached, reached.len(), l.resolved, root),
                        resolved: l.resolved,
                    },
                )
            },
        }
    }
}

/// The plan with kernels for the first roots of a round.
pub open spec fn forward_round(
    s: ForwardSetup,
    roots: Seq<NodeId>,
    count: nat,
    first: bool,
    p: Plan,
) -> Result<Plan, Error>
    decreases count,
{
    if count == 0 {
        Ok(p)
    } else {
        match forward_round(s, roots, (count - 1) as nat, first, p) {
            Err(e) => Err(e),
            Ok(p) => forward_root(s, roots[count - 1], first, p),
        }
    }
}

/// A round that stops at some root stops there whatever roots follow.
pub proof fn lemma_forward_stops(
    s: ForwardSetup,
    roots: Seq<NodeId>,
    a: nat,
    b: nat,
    first: bool,
    p: Plan,
)
    requires
        a <= b,
        forward_round(s, roots, a, first, p) is Err,
    ensures
        forward_round(s, roots, b, first, p) == forward_round(s, roots, a, first, p),
    decreases b,
{
    if a < b {
        lemma_forward_stops(s, roots, a, (b - 1) as nat, first, p);
    }
}

/// Whether a node is an input of the graph that nothing takes, so that no parameter holds it.
pub open spec fn untaken(nodes: Seq<Node>, n: int) -> bool {
    &&& nodes[n].op is Input
    &&& nodes[n].inputs@.len() == 0
    &&& nodes[n].shape@.len() >= 1
    &&& forall|m: int, i: int|
        0 <= m < nodes.len() && 0 <= i < nodes[m].inputs@.len() ==> #[trigger] nodes[m].inputs@[i]
            != n
}

/// Whether all the roots lie below a bound, and each takes inputs or is an input that nothing takes.
pub open spec fn rooted(nodes: Seq<Node>, roots: Seq<NodeId>, bound: nat) -> bool {
    forall|i: int|
        0 <= i < roots.len() ==> #[trigger] roots[i] < bound && (
        nodes[roots[i] as int].inputs@.len() > 0 || untaken(nodes, roots[i] as int))
}

/// Whether some root takes inputs.
pub open spec fn unfinished(nodes: Seq<Node>, roots: Seq<NodeId>) -> bool {
    exists|i: int| 0 <= i < roots.len() && nodes[#[trigger] roots[i] as int].inputs@.len() > 0
}

/// The kernels of all the rounds from a plan on. Each round lowers the roots of the one before,
/// until no root takes inputs; the roots of each lie below those of the one before.
pub open spec fn forward_rounds(s: ForwardSetup, p: Plan, bound: nat) -> Result<Seq<Step>, Error>
    decreases bound,
{
    if !unfinished(s.nodes, p.roots) || bound == 0 {
        Ok(p.steps)
    } else {
        match forward_round(
            s,
            p.roots,
            p.roots.len(),
            p.steps.len() == 0,
            Plan { roots: Seq::empty(), ..p },
        ) {
            Err(e) => Err(e),
            Ok(q) => forward_rounds(s, q, (bound - 1) as nat),
        }
    }
}

/// The first nodes that nothing takes.
pub open spec fn sinks(nodes: Seq<Node>, count: nat) -> Seq<NodeId>
    decreases count,
{
    if count == 0 {
        Seq::empty()
    } else {
        let ids = sinks(nodes, (count - 1) as nat);
        if nodes[count - 1].outputs@.len() == 0 {
            ids.push((count - 1) as usize)
        } else {
            ids
        }
    }
}

/// The kernels of a forward pass, and their parameters.
pub open spec fn forward_pass(
    nodes: Seq<Node>,
    meta: Metadata,
    saved: Seq<SaveIndicator>,
    tile: u32,
) -> Result<Chain, Error> {
    let s = forward_setup(nodes, meta, saved, tile);
    match forward_rounds(
        s,
        Plan { steps: Seq::empty(), roots: sinks(nodes, nodes.len()), resolved: Seq::empty() },
        nodes.len(),
    ) {
        Err(e) => Err(e),
        Ok(steps) => Ok(Chain { steps, params: s.params }),
    }
}

/// Whether the forward pass can take up every node that nothing takes: where one of them takes
/// inputs, the others are operations too, or inputs that nothing takes.
///
/// Where none takes inputs there is nothing to lower. An input that nothing takes beside an
/// operation is an error.
pub open spec fn sinks_lower(nodes: Seq<Node>) -> bool {
    unfinished(nodes, sinks(nodes, nodes.len())) ==> forall|n: int|
        0 <= n < nodes.len() && (#[trigger] nodes[n]).outputs@.len() == 0
            && nodes[n].inputs@.len() == 0 ==> untaken(nodes, n)
}

/// A node that nothing takes has no slot among those of the inputs.
pub proof fn lemma_untaken_slot(
    nodes: Seq<Node>,
    count: nat,
    s: (Seq<Option<ParamId>>, Seq<Param>),
    n: int,
)
    requires
        count <= nodes.len() == s.0.len(),
        sorted(nodes),
        untaken(nodes, n),
        0 <= n < s.0.len(),
    ensures
        input_slots(nodes, count, s).0.len() == s.0.len(),
        input_slots(nodes, count, s).0[n] == s.0[n],
    decreases count,
{
    if count > 0 {
        let c = (count - 1) as nat;
        lemma_untaken_slot(nodes, c, s, n);
        lemma_untaken_operand(
            nodes,
            c as int,
            nodes[c as int].inputs@.len(),
            input_slots(nodes, c, s),
            n,
        );
    }
}

proof fn lemma_untaken_operand(
    nodes: Seq<Node>,
    m: int,
    count: nat,
    s: (Seq<Option<ParamId>>, Seq<Param>),
    n: int,
)
    requires
        0 <= m < nodes.len(),
        count <= nodes[m].inputs@.len(),
        nodes.len() == s.0.len(),
        sorted(nodes),
        untaken(nodes, n),
        0 <= n < s.0.len(),
    ensures
        operand_slots(nodes, m, count, s).0.len() == s.0.len(),
        operand_slots(nodes, m, count, s).0[n] == s.0[n],
    decreases count,
{
    if count > 0 {
        lemma_untaken_operand(nodes, m, (count - 1) as nat, s, n);
        assert(nodes[m].inputs@[count - 1] != n && nodes[m].inputs@[count - 1] < m);
    }
}

/// The forward pass has no parameter for an input that nothing takes, and so stops at it.
pub proof fn lemma_untaken_missing(
    nodes: Seq<Node>,
    meta: Metadata,
    saved: Seq<SaveIndicator>,
    tile: u32,
    n: NodeId,
    first: bool,
    p: Plan,
)
    requires
        schedulable(nodes, meta),
        n < nodes.len(),
        untaken(nodes, n as int),
    ensures
        forward_setup(nodes, meta, saved, tile).node_params[n as int] is None,
        !p.resolved.contains(n) ==> forward_root(
            forward_setup(nodes, meta, saved, tile),
            n,
            first,
            p,
        ) == Err::<Plan, Error>(fault("input param missing", ErrorKind::ParamNotMaterialized)),
{
    let flags = forward_flags(saved, nodes.len());
    let start = seq![Param { dtype: DType::UnsignedInt, ty: ParamTy::Uniform, pid: 0 }];
    let kept = start + param_run(1, marked(flags, nodes.len()), ParamTy::ReadWrite);
    let none = Seq::new(nodes.len(), |n: int| None::<ParamId>);
    lemma_untaken_slot(nodes, nodes.len(), (none, kept), n as int);
}

fn find_sinks(graph: &Graph) -> (r: Vec<NodeId>)
    ensures
        r@ == sinks(graph.nodes@, graph.nodes@.len()),
        in_graph(r@, graph.nodes@.len()),
        forall|i: int|
            0 <= i < r@.len() ==> graph.nodes@[#[trigger] r@[i] as int].outputs@.len() == 0,
{
    let mut r: Vec<NodeId> = Vec::new();
    let mut n: usize = 0;
    while n < graph.nodes.len()
        invariant
            n <= graph.nodes@.len(),
            r@ == sinks(graph.nodes@, n as nat),
            in_graph(r@, graph.nodes@.len()),
            forall|i: int|
                0 <= i < r@.len() ==> graph.nodes@[#[trigger] r@[i] as int].outputs@.len() == 0,
        decreases graph.nodes@.len() - n,
    {
        if graph.nodes[n].outputs.len() == 0 {
            r.push(n);
        }
        n += 1;
    }
    r
}

fn is_unfinished(graph: &Graph, roots: &Vec<NodeId>) -> (r: bool)
    requires
        in_graph(roots@, graph.nodes@.len()),
    ensures
        r == unfinished(graph.nodes@, roots@),
{
    let mut i: usize = 0;
    while i < roots.len()
        invariant
            i <= roots@.len(),
            in_graph(roots@, graph.nodes@.len()),
            forall|j: int|
                0 <= j < i ==> graph.nodes@[#[trigger] roots@[j] as int].inputs@.len() == 0,
        decreases roots@.len() - i,
    {
        if graph.nodes[roots[i]].inputs.len() > 0 {
            assert(graph.nodes@[roots@[i as int] as int].inputs@.len() > 0);
            return true;
        }
        i += 1;
    }
    false
}

fn setup_forward<'a>(
    graph: &'a Graph,
    meta: Metadata,
    saved: &[SaveIndicator],
    tile: u32,
) -> (s: ForwardState<'a>)
    requires
        schedulable(graph.nodes@, meta),
        saved@.len() >= graph.nodes@.len(),
        tile * tile <= u32::MAX,
    ensures
        s.setup() == forward_setup(graph.nodes@, meta, saved@, tile),
        s.setup().ready(),
        *s.graph == *graph,
{
    let count: usize = graph.nodes.len();
    let mut params: Vec<Param> = Vec::new();
    params.push(Param { dtype: DType::UnsignedInt, ty: ParamTy::Uniform, pid: 0 });
    let mut saved_params = no_slots(count);
    let flags = collect_flags(saved, count, false);
    assign_slots(&mut saved_params, &flags, ParamTy::ReadWrite, &mut params);
    let mut node_params = no_slots(count);
    let ghost start = (node_params@, params@);
    let mut n: usize = 0;
    while n < graph.nodes.len()
        invariant
            n <= graph.nodes@.len(),
            schedulable(graph.nodes@, meta),
            slots_fit(node_params@, graph.nodes@.len(), params@.len()),
            (node_params@, params@) == input_slots(graph.nodes@, n as nat, start),
            params@.len() >= start.1.len(),
        decreases graph.nodes@.len() - n,
    {
        assign_operand_slots(graph, n, &mut node_params, &mut params);
        n += 1;
    }
    let output: ParamId = params.len();
    params.push(Param { dtype: DType::Float, ty: ParamTy::ReadWrite, pid: output });
    let ghost taken = node_params@;
    let mut n: usize = 0;
    while n < count
        invariant
            n <= count,
            count == graph.nodes@.len(),
            node_params@.len() == count,
            taken.len() == count,
            slots_fit(taken, count as nat, output as nat),
            forall|m: int|
                0 <= m < n ==> #[trigger] node_params@[m] == sink_slots(
                    graph.nodes@,
                    taken,
                    output,
                )[m],
            forall|m: int| n <= m < count ==> #[trigger] node_params@[m] == taken[m],
        decreases count - n,
    {
        if graph.nodes[n].outputs.len() == 0 && !graph.nodes[n].op.is_leaf() {
            node_params[n] = Some(output);
        }
        n += 1;
    }
    assert(node_params@ == sink_slots(graph.nodes@, taken, output));
    ForwardState { graph, meta, tile, params, node_params, saved_params, output }
}

fn lower_forward_root(
    s: &ForwardState<'_>,
    root: NodeId,
    first: bool,
    kernels: &mut Vec<Dependencies<LinkedKernel>>,
    roots: &mut Vec<NodeId>,
    resolved: &mut Vec<NodeId>,
    Ghost(bound): Ghost<nat>,
) -> (r: Result<(), Error>)
    requires
        s.setup().ready(),
        root < bound <= s.graph.nodes@.len(),
        s.graph.nodes@[root as int].inputs@.len() > 0 || untaken(s.graph.nodes@, root as int),
        untaken(s.graph.nodes@, root as int) ==> s.node_params@[root as int] is None,
        in_graph(old(resolved)@, s.graph.nodes@.len()),
        rooted(s.graph.nodes@, old(roots)@, (bound - 1) as nat),
    ensures
        match forward_root(
            s.setup(),
            root,
            first,
            Plan { steps: steps(old(kernels)@), roots: old(roots)@, resolved: old(resolved)@ },
        ) {
            Err(e) => r == Err::<(), Error>(e),
            Ok(p) => r is Ok && p == (Plan {
                steps: steps(final(kernels)@),
                roots: final(roots)@,
                resolved: final(resolved)@,
            }),
        },
        r is Ok ==> in_graph(final(resolved)@, s.graph.nodes@.len()),
        r is Ok ==> rooted(s.graph.nodes@, final(roots)@, (bound - 1) as nat),
        r is Ok && all_finished(steps(old(kernels)@), s.setup().params.len()) ==> all_finished(
            steps(final(kernels)@),
            s.setup().params.len(),
        ),
{
    proof {
        let p = Plan { steps: steps(kernels@), roots: roots@, resolved: resolved@ };
        if all_finished(p.steps, s.setup().params.len()) {
            lemma_forward_root_finished(s.setup(), root, first, p);
        }
    }
    if contains(resolved, root) {
        return Ok(());
    }
    let tile: u32 = s.tile;
    assert(tile * tile <= u32::MAX);
    let size: u32 = tile * tile;
    let (mut kernel, base, gid) = open_kernel(
        s.meta,
        s.params.len(),
        [tile, tile, 1],
        root,
        &s.graph.nodes[root].shape,
        false,
    );
    let tile_size: ValueId = kernel.raw.def_var(
        DType::UnsignedInt,
        ValueState::Const,
        Some(Op::ConstU32 { value: tile }),
    );
    let local_row: ValueId = kernel.raw.let_u(Op::LocalId { axis: Axis::Y });
    let local_col: ValueId = kernel.raw.let_u(Op::LocalId { axis: Axis::X });
    let out: ValueId = kernel.raw.def_var(DType::Float, ValueState::Mut, None);
    let since: usize = resolved.len();
    let frame = Frame {
        graph: s.graph,
        node_params: s.node_params.as_slice(),
        saved_params: s.saved_params.as_slice(),
        base,
        local_row,
        local_col,
        shared_size: size,
        tile_size,
        since,
    };
    let new_roots = match eval_node(
        &frame,
        &NodeInput::Node(root),
        out,
        resolved,
        &mut kernel,
        gid,
        true,
    ) {
        Ok(new_roots) => new_roots,
        Err(e) => {
            return Err(e);
        },
    };
    let from: usize = if new_roots.len() == 0 {
        0
    } else {
        1
    };
    assert(tail(new_roots@) == new_roots@.subrange(from as int, new_roots@.len() as int));
    assert(new_roots@.subrange(0, new_roots@.len() as int) == new_roots@);
    set_block(s.graph, &mut kernel, &new_roots, 0, size);
    add_roots(roots, &new_roots, from, resolved, root);
    proof {
        let reached = tail(new_roots@);
        lemma_more_roots(old(roots)@, reached, reached.len(), resolved@, root);
        assert forall|i: int| 0 <= i < roots@.len() implies #[trigger] roots@[i] < bound - 1
            && (s.graph.nodes@[roots@[i] as int].inputs@.len() > 0 || untaken(
            s.graph.nodes@,
            roots@[i] as int,
        )) by {
            let id = roots@[i];
            if old(roots)@.contains(id) {
                let j = old(roots)@.index_of(id);
                assert(old(roots)@[j] == id);
            } else {
                let j = reached.index_of(id);
                assert(new_roots@[j + from] == id);
            }
        }
    }
    if first && s.graph.nodes[root].op.is_compute_gid() {
        kernel.param_store(s.output, gid, out);
    }
    add_dependency(kernels, root, false);
    let ghost before = steps(kernels@);
    kernels.push(Dependencies { val: kernel, dep: Vec::new() });
    assert(steps(kernels@) == before.push(kernels@.last()@));
    Ok(())
}

/// Lowers a graph into the kernels of its forward pass.
///
/// # Errors
///
/// Fails when a kernel would have to load a result that no parameter holds, as that of an input that
/// nothing takes beside an operation.
pub fn lower_forward<B: GpuBackend>(
    graph: &Graph,
    meta: Metadata,
    saved: &[SaveIndicator],
    options: &CompilationOptions<B>,
) -> (r: Result<KernelsChained, Error>)
    requires
        schedulable(graph.nodes@, meta),
        sinks_lower(graph.nodes@),
        saved@.len() >= graph.nodes@.len(),
        options.opt.tile_size * options.opt.tile_size <= u32::MAX,
    ensures
        chained(r) == forward_pass(graph.nodes@, meta, saved@, options.opt.tile_size),
        !unfinished(graph.nodes@, sinks(graph.nodes@, graph.nodes@.len())) ==> (r matches Ok(k)
            && k@.steps.len() == 0),
        r matches Ok(k) ==> all_finished(k@.steps, k@.params.len()),
{
    let s = setup_forward(graph, meta, saved, options.opt.tile_size);
    let mut kernels: Vec<Dependencies<LinkedKernel>> = Vec::new();
    let mut roots = find_sinks(graph);
    let mut resolved: Vec<NodeId> = Vec::new();
    let ghost setup = s.setup();
    let ghost nodes = graph.nodes@;
    let ghost start = Plan {
        steps: Seq::empty(),
        roots: sinks(nodes, nodes.len()),
        resolved: Seq::empty(),
    };
    let ghost mut bound = nodes.len();
    assert(steps(kernels@) == start.steps);
    assert(unfinished(nodes, roots@) ==> rooted(nodes, roots@, bound));
    while is_unfinished(graph, &roots)
        invariant
            *s.graph == *graph,
            nodes == graph.nodes@,
            setup == s.setup(),
            setup.ready(),
            setup == forward_setup(nodes, meta, saved@, options.opt.tile_size),
            start == (Plan {
                steps: Seq::empty(),
                roots: sinks(nodes, nodes.len()),
                resolved: Seq::empty(),
            }),
            bound <= nodes.len(),
            unfinished(nodes, roots@) ==> rooted(nodes, roots@, bound),
            !unfinished(nodes, start.roots) ==> kernels@.len() == 0 && roots@ == start.roots,
            in_graph(roots@, nodes.len()),
            in_graph(resolved@, nodes.len()),
            all_finished(steps(kernels@), setup.params.len()),
            forward_rounds(setup, start, nodes.len()) == forward_rounds(
                setup,
                Plan { steps: steps(kernels@), roots: roots@, resolved: resolved@ },
                bound,
            ),
        decreases bound,
    {
        let first = kernels.len() == 0;
        let ghost p = Plan {
            steps: steps(kernels@),
            roots: Seq::empty(),
            resolved: resolved@,
        };
        let current = roots;
        roots = Vec::new();
        let mut i: usize = 0;
        while i < current.len()
            invariant
                i <= current@.len(),
                *s.graph == *graph,
                nodes == graph.nodes@,
                setup == s.setup(),
                setup.ready(),
                setup == forward_setup(nodes, meta, saved@, options.opt.tile_size),
                start == (Plan {
                    steps: Seq::empty(),
                    roots: sinks(nodes, nodes.len()),
                    resolved: Seq::empty(),
                }),
                unfinished(nodes, current@),
                unfinished(nodes, start.roots),
                first == (p.steps.len() == 0),
                p.roots == Seq::<NodeId>::empty(),
                bound <= nodes.len(),
                rooted(nodes, current@, bound),
                rooted(nodes, roots@, (bound - 1) as nat),
                current@.len() > 0 ==> bound > 0,
                in_graph(resolved@, nodes.len()),
                all_finished(steps(kernels@), setup.params.len()),
                forward_round(setup, current@, i as nat, first, p) == Ok::<Plan, Error>(
                    Plan { steps: steps(kernels@), roots: roots@, resolved: resolved@ },
                ),
                forward_rounds(setup, start, nodes.len()) == forward_rounds(
                    setup,
                    Plan { roots: current@, ..p },
                    bound,
                ),
            decreases current@.len() - i,
        {
            proof {
                let root = current@[i as int];
                if untaken(nodes, root as int) {
                    let q = Plan { steps: steps(kernels@), roots: roots@, resolved: resolved@ };
                    lemma_untaken_missing(
                        nodes,
                        meta,
                        saved@,
                        options.opt.tile_size,
                        root,
                        first,
                        q,
                    );
                }
            }
            match lower_forward_root(
                &s,
                current[i],
                first,
                &mut kernels,
                &mut roots,
                &mut resolved,
                Ghost(bound),
            ) {
                Ok(()) => {},
                Err(e) => {
                    proof {
                        lemma_forward_stops(
                            setup,
                            current@,
                            (i + 1) as nat,
                            current@.len(),
                            first,
                            p,
                        );
                    }
                    return Err(e);
                },
            }
            i += 1;
        }
        proof {
            bound = (bound - 1) as nat;
        }
    }
    Ok(KernelsChained { kernels, params: s.params })
}

} // verus!
