//! Operations that take two nodes, element by element.

use vstd::prelude::*;

use crate::dispatch::backend::graph::grown;
use crate::dispatch::backend::kernel::backward::{eval_grad, node_grad};
use crate::dispatch::backend::kernel::forward::{eval_node, node_value};
use crate::dispatch::backend::kernel::frame::{
    reached, stopped, Frame, Lowered, NodeInput, Operand, Scope,
};
use crate::dispatch::backend::kernel::raw::{LinkedKernel, LinkedView};
use crate::dispatch::backend::std_lib::unary::no_such_input;
use crate::dispatch::backend::{
    DType, DispatchOptions, Graph, GraphOp, NodeId, Op, OpName, SaveRule, ShapeRule, ValueId,
    ValueState,
};
use crate::errors::{Error, ErrorKind};
use crate::scalar::{Float32, ZERO_BITS};

verus! {

/// The operation that combines two operands.
pub open spec fn combined(name: OpName, a: ValueId, b: ValueId) -> Op {
    match name {
        OpName::Add => Op::Add { a, b },
        OpName::Sub => Op::Sub { a, b },
        OpName::Mul => Op::Mul { a, b },
        _ => Op::Div { a, b },
    }
}

fn combine(name: OpName, a: ValueId, b: ValueId) -> (op: Op)
    ensures
        op == combined(name, a, b),
{
    match name {
        OpName::Add => Op::Add { a, b },
        OpName::Sub => Op::Sub { a, b },
        OpName::Mul => Op::Mul { a, b },
        _ => Op::Div { a, b },
    }
}

/// What evaluating two operands and combining them into `out` does to a kernel.
pub open spec fn binary_value(
    name: OpName,
    f: Scope,
    n: NodeId,
    out: ValueId,
    kernel: LinkedView,
    resolved: Seq<NodeId>,
    idx: ValueId,
    stable: bool,
) -> Lowered
    decreases f.left(None, n), 4int, 0int,
    when f.operable(n) && f.node(n).inputs@.len() >= 2
{
    let (kernel, a_val) = kernel.def(DType::Float, ValueState::Mut, None);
    let a = node_value(
        f,
        Operand::Node(f.input(n, 0)),
        a_val,
        kernel,
        resolved,
        idx,
        stable,
    );
    match a.nodes {
        Err(_) => a,
        Ok(a_nodes) => {
            let (kernel, b_val) = a.kernel.def(DType::Float, ValueState::Mut, None);
            let b = node_value(
                f,
                Operand::Node(f.input(n, 1)),
                b_val,
                kernel,
                a.resolved,
                idx,
                stable,
            );
            match b.nodes {
                Err(_) => b,
                Ok(b_nodes) => Lowered {
                    kernel: b.kernel.assign(out, combined(name, a_val, b_val)),
                    resolved: b.resolved,
                    nodes: Ok(a_nodes + b_nodes),
                },
            }
        },
    }
}

/// What a backward pass reads an operand of a quotient as: a constant, or what the forward pass saved
/// of it.
pub open spec fn operand_op(f: Scope, m: NodeId, idx: ValueId) -> Option<Op> {
    match (f.node(m).op, f.saved_params[m as int]) {
        (GraphOp::ConstF32(value), _) => Some(Op::ConstF32 { value }),
        (_, Some(param)) => Some(Op::ParamLoad { param, index: idx }),
        _ => None,
    }
}

/// The kernel with the parameter that an operand is loaded from, if it is loaded.
pub open spec fn operand_taken(kernel: LinkedView, op: Op) -> LinkedView {
    match op {
        Op::ParamLoad { param, .. } => kernel.param(param),
        _ => kernel,
    }
}

fn operand_of(frame: &Frame<'_>, m: NodeId, idx: ValueId) -> (r: Option<Op>)
    requires
        m < frame.graph.nodes@.len(),
        m < frame.saved_params@.len(),
    ensures
        r == operand_op(frame@, m, idx),
{
    if let GraphOp::ConstF32(value) = frame.graph.nodes[m].op {
        return Some(Op::ConstF32 { value });
    }
    match frame.saved_params[m] {
        Some(param) => Some(Op::ParamLoad { param, index: idx }),
        None => None,
    }
}

fn take_operand(kernel: &mut LinkedKernel, op: &Op)
    requires
        op matches Op::ParamLoad { param, .. } ==> param < old(kernel)@.params.len(),
    ensures
        final(kernel)@ == operand_taken(old(kernel)@, *op),
{
    if let Op::ParamLoad { param, .. } = op {
        kernel.register_param(*param);
    }
}

/// What adding the gradient of a factor, or of an operand of a quotient, to `out` does to a kernel
/// that holds the gradient of the result.
pub open spec fn factor_grad(
    name: OpName,
    f: Scope,
    edge: u8,
    n: NodeId,
    out: ValueId,
    g_val: ValueId,
    kernel: LinkedView,
    resolved: Seq<NodeId>,
    idx: ValueId,
    nodes: Seq<NodeId>,
) -> Lowered {
    let missing = stopped(
        kernel,
        resolved,
        "could not materialize saved forward param in backward",
        ErrorKind::ParamNotMaterialized,
    );
    if name == OpName::Mul {
        match f.saved_params[f.input(n, 1 - edge) as int] {
            None => missing,
            Some(param) => {
                let (raw, saved) = kernel.raw.let_f(Op::ParamLoad { param, index: idx });
                Lowered {
                    kernel: LinkedView { raw, ..kernel }.param(param).accum(
                        out,
                        Op::Mul { a: g_val, b: saved },
                    ),
                    resolved,
                    nodes: Ok(nodes),
                }
            },
        }
    } else {
        match (operand_op(f, f.input(n, 0), idx), operand_op(f, f.input(n, 1), idx)) {
            (_, Some(b)) if edge == 0 => {
                let (raw, divisor) = kernel.raw.let_f(b);
                Lowered {
                    kernel: operand_taken(LinkedView { raw, ..kernel }, b).accum(
                        out,
                        Op::Div { a: g_val, b: divisor },
                    ),
                    resolved,
                    nodes: Ok(nodes),
                }
            },
            (Some(a), Some(b)) => {
                let (raw, dividend) = kernel.raw.let_f(a);
                let (raw, divisor) = raw.let_f(b);
                let (raw, scaled) = raw.let_f(Op::Mul { a: g_val, b: dividend });
                let (raw, square) = raw.let_f(Op::Mul { a: divisor, b: divisor });
                let (raw, slope) = raw.let_f(Op::Div { a: scaled, b: square });
                Lowered {
                    kernel: operand_taken(
                        operand_taken(LinkedView { raw, ..kernel }, a),
                        b,
                    ).accum(out, Op::Neg { x: slope }),
                    resolved,
                    nodes: Ok(nodes),
                }
            },
            _ => missing,
        }
    }
}

/// What adding the gradient of one of two operands to `out` does to a kernel.
///
/// A sum hands on its own gradient, and no nodes. A difference hands on its own gradient to its
/// first operand, and the negation to its second. A product hands on its own gradient times what
/// the forward pass saved of the other factor. A quotient hands on to its first operand its own
/// gradient divided by the second, and to its second the negation of its own gradient times the
/// first, divided by the square of the second; an operand is a constant, or what was saved of it.
pub open spec fn binary_grad(
    name: OpName,
    f: Scope,
    edge: u8,
    n: NodeId,
    out: ValueId,
    kernel: LinkedView,
    resolved: Seq<NodeId>,
    idx: ValueId,
    stable: bool,
) -> Lowered
    decreases f.left(Some(edge), n), 4int, 0int,
    when f.operable(n) && f.node(n).inputs@.len() >= 2
{
    let node = Operand::Node(n);
    if edge > 1 {
        no_such_input(kernel, resolved)
    } else if name == OpName::Add {
        let l = node_grad(f, node, out, kernel, resolved, idx, stable);
        match l.nodes {
            Err(_) => l,
            Ok(_) => Lowered { kernel: l.kernel, resolved: l.resolved, nodes: Ok(Seq::empty()) },
        }
    } else if name == OpName::Sub && edge == 0 {
        node_grad(f, node, out, kernel, resolved, idx, stable)
    } else {
        let zero = Op::ConstF32 { value: Float32 { bits: ZERO_BITS } };
        let (raw, g_val) = kernel.raw.var_f(zero);
        let l = node_grad(f, node, g_val, LinkedView { raw, ..kernel }, resolved, idx, stable);
        match l.nodes {
            Err(_) => l,
            Ok(nodes) => if name == OpName::Sub {
                Lowered {
                    kernel: l.kernel.accum(out, Op::Neg { x: g_val }),
                    resolved: l.resolved,
                    nodes: Ok(nodes),
                }
            } else {
                factor_grad(name, f, edge, n, out, g_val, l.kernel, l.resolved, idx, nodes)
            },
        }
    }
}

/// What lowering an operation with two operands does to a kernel.
pub open spec fn binary_lowering(
    name: OpName,
    f: Scope,
    backwardness: Option<u8>,
    n: NodeId,
    out: ValueId,
    kernel: LinkedView,
    resolved: Seq<NodeId>,
    idx: ValueId,
    stable: bool,
) -> Lowered
    decreases f.left(backwardness, n), 5int, 0int,
    when f.operable(n) && f.node(n).inputs@.len() >= 2
{
    match backwardness {
        None => binary_value(name, f, n, out, kernel, resolved, idx, stable),
        Some(edge) => binary_grad(name, f, edge, n, out, kernel, resolved, idx, stable),
    }
}

/// Lowers an operation with two operands.
pub fn lower_binary(
    name: OpName,
    frame: &Frame<'_>,
    resolved: &mut Vec<NodeId>,
    backwardness: Option<u8>,
    node_id: NodeId,
    out: ValueId,
    kernel: &mut LinkedKernel,
    idx: ValueId,
    stable_iteration_space: bool,
) -> (r: Result<Vec<NodeId>, Error>)
    requires
        frame@.fits(old(kernel)@, old(resolved)@),
        frame@.operable(node_id),
        frame@.node(node_id).inputs@.len() >= 2,
    ensures
        (Lowered { kernel: final(kernel)@, resolved: final(resolved)@, nodes: reached(r) })
            == binary_lowering(
            name,
            frame@,
            backwardness,
            node_id,
            out,
            old(kernel)@,
            old(resolved)@,
            idx,
            stable_iteration_space,
        ),
        frame@.fits(final(kernel)@, final(resolved)@),
        final(kernel)@.params.len() == old(kernel)@.params.len(),
        final(kernel)@.meta.len() == old(kernel)@.meta.len(),
        r matches Ok(ids) ==> frame@.reaches(backwardness, node_id, ids@),
    decreases frame@.left(backwardness, node_id), 5int, 0int,
{
    match backwardness {
        None => {
            let a: NodeId = frame.graph.nodes[node_id].inputs[0];
            let b: NodeId = frame.graph.nodes[node_id].inputs[1];
            let a_val: ValueId = kernel.raw.def_var(DType::Float, ValueState::Mut, None);
            let mut deepest = match eval_node(
                frame,
                &NodeInput::Node(a),
                a_val,
                resolved,
                kernel,
                idx,
                stable_iteration_space,
            ) {
                Ok(a_deep) => a_deep,
                Err(e) => {
                    return Err(e);
                },
            };
            let b_val: ValueId = kernel.raw.def_var(DType::Float, ValueState::Mut, None);
            match eval_node(
                frame,
                &NodeInput::Node(b),
                b_val,
                resolved,
                kernel,
                idx,
                stable_iteration_space,
            ) {
                Ok(mut b_deep) => {
                    deepest.append(&mut b_deep);
                },
                Err(e) => {
                    return Err(e);
                },
            }
            kernel.raw.overwrite_var(out, combine(name, a_val, b_val));
            Ok(deepest)
        },
        Some(edge) => lower_binary_grad(
            name,
            frame,
            resolved,
            edge,
            node_id,
            out,
            kernel,
            idx,
            stable_iteration_space,
        ),
    }
}

fn lower_binary_grad(
    name: OpName,
    frame: &Frame<'_>,
    resolved: &mut Vec<NodeId>,
    edge: u8,
    node_id: NodeId,
    out: ValueId,
    kernel: &mut LinkedKernel,
    idx: ValueId,
    stable_iteration_space: bool,
) -> (r: Result<Vec<NodeId>, Error>)
    requires
        frame@.fits(old(kernel)@, old(resolved)@),
        frame@.operable(node_id),
        frame@.node(node_id).inputs@.len() >= 2,
    ensures
        (Lowered { kernel: final(kernel)@, resolved: final(resolved)@, nodes: reached(r) })
            == binary_grad(
            name,
            frame@,
            edge,
            node_id,
            out,
            old(kernel)@,
            old(resolved)@,
            idx,
            stable_iteration_space,
        ),
        frame@.fits(final(kernel)@, final(resolved)@),
        final(kernel)@.params.len() == old(kernel)@.params.len(),
        final(kernel)@.meta.len() == old(kernel)@.meta.len(),
        r matches Ok(ids) ==> frame@.reaches(Some(edge), node_id, ids@),
    decreases frame@.left(Some(edge), node_id), 4int, 0int,
{
    let node = NodeInput::Node(node_id);
    if edge > 1 {
        return Err(
            Error {
                msg: "backwardness must be restricted to input count",
                kind: ErrorKind::UnresolvedInput,
                ctx: (),
            },
        );
    }
    if name == OpName::Add {
        return match eval_grad(
            frame,
            &node,
            out,
            resolved,
            kernel,
            idx,
            stable_iteration_space,
        ) {
            Ok(_) => Ok(Vec::new()),
            Err(e) => Err(e),
        };
    }
    if name == OpName::Sub && edge == 0 {
        return eval_grad(frame, &node, out, resolved, kernel, idx, stable_iteration_space);
    }
    let g_val: ValueId = kernel.raw.var_f(Op::ConstF32 { value: Float32 { bits: ZERO_BITS } });
    let deepest = match eval_grad(
        frame,
        &node,
        g_val,
        resolved,
        kernel,
        idx,
        stable_iteration_space,
    ) {
        Ok(deep) => deep,
        Err(e) => {
            return Err(e);
        },
    };
    if name == OpName::Sub {
        kernel.raw.accum_var(out, Op::Neg { x: g_val });
        return Ok(deepest);
    }
    proof {
        assert(frame@.nodes[node_id as int].inputs@[0] < node_id);
        assert(frame@.nodes[node_id as int].inputs@[1] < node_id);
    }
    let a: NodeId = frame.graph.nodes[node_id].inputs[0];
    let b: NodeId = frame.graph.nodes[node_id].inputs[1];
    if name == OpName::Mul {
        let other: NodeId = if edge == 0 {
            b
        } else {
            a
        };
        let param = match frame.saved_params[other] {
            Some(param) => param,
            None => {
                return Err(
                    Error {
                        msg: "could not materialize saved forward param in backward",
                        kind: ErrorKind::ParamNotMaterialized,
                        ctx: (),
                    },
                );
            },
        };
        let saved: ValueId = kernel.raw.let_f(Op::ParamLoad { param, index: idx });
        kernel.register_param(param);
        kernel.raw.accum_var(out, Op::Mul { a: g_val, b: saved });
        return Ok(deepest);
    }
    let bottom = match operand_of(frame, b, idx) {
        Some(bottom) => bottom,
        None => {
            return Err(
                Error {
                    msg: "could not materialize saved forward param in backward",
                    kind: ErrorKind::ParamNotMaterialized,
                    ctx: (),
                },
            );
        },
    };
    if edge == 0 {
        let divisor: ValueId = kernel.raw.let_f(bottom.clone());
        take_operand(kernel, &bottom);
        kernel.raw.accum_var(out, Op::Div { a: g_val, b: divisor });
        return Ok(deepest);
    }
    let top = match operand_of(frame, a, idx) {
        Some(top) => top,
        None => {
            return Err(
                Error {
                    msg: "could not materialize saved forward param in backward",
                    kind: ErrorKind::ParamNotMaterialized,
                    ctx: (),
                },
            );
        },
    };
    let dividend: ValueId = kernel.raw.let_f(top.clone());
    let divisor: ValueId = kernel.raw.let_f(bottom.clone());
    let scaled: ValueId = kernel.raw.let_f(Op::Mul { a: g_val, b: dividend });
    let square: ValueId = kernel.raw.let_f(Op::Mul { a: divisor, b: divisor });
    let slope: ValueId = kernel.raw.let_f(Op::Div { a: scaled, b: square });
    take_operand(kernel, &top);
    take_operand(kernel, &bottom);
    kernel.raw.accum_var(out, Op::Neg { x: slope });
    Ok(deepest)
}

/// An operation with two operands, element by element.
pub open spec fn binary_op(name: OpName) -> GraphOp {
    GraphOp::Custom {
        lower: name,
        display: name,
        save: if name == OpName::Mul || name == OpName::Div {
            SaveRule::Factors
        } else {
            SaveRule::Nothing
        },
        valid_shape: ShapeRule::Binary,
        arity: 2,
        need_dims: false,
        stable_iter: true,
        auto_save: true,
        computes_gid: true,
        prefer_separate: false,
        valid_dispatch: DispatchOptions::Any,
    }
}

impl Graph {
    fn add_binary(&mut self, name: OpName, a: NodeId, b: NodeId) -> (id: NodeId)
        requires
            a < old(self).nodes@.len(),
            b < old(self).nodes@.len(),
        ensures
            id == old(self).nodes@.len(),
            final(self).loss == old(self).loss,
            grown(
                old(self).nodes@,
                binary_op(name),
                seq![a, b],
                old(self).nodes@[a as int].shape@,
                final(self).nodes@,
            ),
    {
        let save = if name == OpName::Mul || name == OpName::Div {
            SaveRule::Factors
        } else {
            SaveRule::Nothing
        };
        let op = GraphOp::Custom {
            lower: name,
            display: name,
            save,
            valid_shape: ShapeRule::Binary,
            arity: 2,
            need_dims: false,
            stable_iter: true,
            auto_save: true,
            computes_gid: true,
            prefer_separate: false,
            valid_dispatch: DispatchOptions::Any,
        };
        let shape = self.nodes[a].shape.clone();
        let inputs: Vec<NodeId> = vec![a, b];
        assert(inputs@ == seq![a, b]);
        self.add_node(op, inputs, shape)
    }

    /// Adds the sum of two nodes.
    pub fn add(&mut self, a: NodeId, b: NodeId) -> (id: NodeId)
        requires
            a < old(self).nodes@.len(),
            b < old(self).nodes@.len(),
        ensures
            id == old(self).nodes@.len(),
            final(self).loss == old(self).loss,
            grown(
                old(self).nodes@,
                binary_op(OpName::Add),
                seq![a, b],
                old(self).nodes@[a as int].shape@,
                final(self).nodes@,
            ),
    {
        self.add_binary(OpName::Add, a, b)
    }

    /// Adds the product of two nodes, element by element.
    pub fn mul(&mut self, a: NodeId, b: NodeId) -> (id: NodeId)
        requires
            a < old(self).nodes@.len(),
            b < old(self).nodes@.len(),
        ensures
            id == old(self).nodes@.len(),
            final(self).loss == old(self).loss,
            grown(
                old(self).nodes@,
                binary_op(OpName::Mul),
                seq![a, b],
                old(self).nodes@[a as int].shape@,
                final(self).nodes@,
            ),
    {
        self.add_binary(OpName::Mul, a, b)
    }

    /// Adds the difference of two nodes.
    pub fn sub(&mut self, a: NodeId, b: NodeId) -> (id: NodeId)
        requires
            a < old(self).nodes@.len(),
            b < old(self).nodes@.len(),
        ensures
            id == old(self).nodes@.len(),
            final(self).loss == old(self).loss,
            grown(
                old(self).nodes@,
                binary_op(OpName::Sub),
                seq![a, b],
                old(self).nodes@[a as int].shape@,
                final(self).nodes@,
            ),
    {
        self.add_binary(OpName::Sub, a, b)
    }

    /// Adds the quotient of two nodes, element by element.
    pub fn div(&mut self, a: NodeId, b: NodeId) -> (id: NodeId)
        requires
            a < old(self).nodes@.len(),
            b < old(self).nodes@.len(),
        ensures
            id == old(self).nodes@.len(),
            final(self).loss == old(self).loss,
            grown(
                old(self).nodes@,
                binary_op(OpName::Div),
                seq![a, b],
                old(self).nodes@[a as int].shape@,
                final(self).nodes@,
            ),
    {
        self.add_binary(OpName::Div, a, b)
    }
}

} // verus!
