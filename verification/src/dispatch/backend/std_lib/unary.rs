//! Operations that take one node.

use vstd::prelude::*;

use crate::dispatch::backend::graph::grown;
use crate::dispatch::backend::kernel::backward::{eval_grad, node_grad};
use crate::dispatch::backend::kernel::forward::{eval_node, node_value};
use crate::dispatch::backend::kernel::frame::{
    reached, stopped, Frame, Lowered, NodeInput, Operand, Scope,
};
use crate::dispatch::backend::kernel::raw::{LinkedKernel, LinkedView, RawKernel, RawView};
use crate::dispatch::backend::{
    DType, DispatchOptions, Graph, GraphOp, NodeId, Op, OpName, SaveRule, ShapeRule, ValueId,
    ValueState,
};
use crate::errors::{Error, ErrorKind};
use crate::scalar::{
    Float32, GELU_CUBIC_BITS, HALF_BITS, ONE_BITS, SQRT_FRAC_BITS, THREE_BITS, ZERO_BITS,
};

verus! {

/// The kernel with the natural logarithm of `inp` assigned to `out`.
pub open spec fn log_value(r: RawView, out: ValueId, inp: ValueId) -> RawView {
    r.assign(out, Op::Log { x: inp })
}

/// The kernel with the gradient through the natural logarithm added to `out`; `inp` is what the
/// forward pass saved.
pub open spec fn log_grad(r: RawView, out: ValueId, inp: ValueId, upstream: ValueId) -> RawView {
    r.accum(out, Op::Div { a: upstream, b: inp })
}

fn emit_log(raw: &mut RawKernel, out: ValueId, inp: ValueId)
    ensures
        final(raw)@ == log_value(old(raw)@, out, inp),
{
    raw.overwrite_var(out, Op::Log { x: inp });
}

fn emit_log_grad(raw: &mut RawKernel, out: ValueId, inp: ValueId, upstream: ValueId)
    ensures
        final(raw)@ == log_grad(old(raw)@, out, inp, upstream),
{
    raw.accum_var(out, Op::Div { a: upstream, b: inp });
}

/// The kernel with the hyperbolic tangent of `inp` assigned to `out`.
pub open spec fn tanh_value(r: RawView, out: ValueId, inp: ValueId) -> RawView {
    r.assign(out, Op::Tanh { x: inp })
}

/// The kernel with the gradient through the hyperbolic tangent added to `out`; `inp` is what the
/// forward pass saved.
pub open spec fn tanh_grad(r: RawView, out: ValueId, inp: ValueId, upstream: ValueId) -> RawView {
    let (r, one) = r.inline_f(Op::ConstF32 { value: Float32 { bits: ONE_BITS } });
    let (r, forward_squared) = r.inline_f(Op::Mul { a: inp, b: inp });
    let (r, one_minus_forward_squared) = r.inline_f(Op::Sub { a: one, b: forward_squared });
    r.accum(out, Op::Mul { a: upstream, b: one_minus_forward_squared })
}

fn emit_tanh(raw: &mut RawKernel, out: ValueId, inp: ValueId)
    ensures
        final(raw)@ == tanh_value(old(raw)@, out, inp),
{
    raw.overwrite_var(out, Op::Tanh { x: inp });
}

fn emit_tanh_grad(raw: &mut RawKernel, out: ValueId, inp: ValueId, upstream: ValueId)
    ensures
        final(raw)@ == tanh_grad(old(raw)@, out, inp, upstream),
{
    let one: ValueId = raw.inline_f(Op::ConstF32 { value: Float32 { bits: ONE_BITS } });
    let forward_squared: ValueId = raw.inline_f(Op::Mul { a: inp, b: inp });
    let one_minus_forward_squared: ValueId = raw.inline_f(Op::Sub { a: one, b: forward_squared });
    raw.accum_var(out, Op::Mul { a: upstream, b: one_minus_forward_squared });
}

/// The kernel with ELU of `inp` assigned to `out`.
pub open spec fn elu_value(r: RawView, out: ValueId, inp: ValueId) -> RawView {
    let (r, zero) = r.inline_f(Op::ConstF32 { value: Float32 { bits: ZERO_BITS } });
    let (r, one) = r.inline_f(Op::ConstF32 { value: Float32 { bits: ONE_BITS } });
    let (r, exp_inp) = r.inline_f(Op::Exp { x: inp });
    let (r, exp_inp_minus_one) = r.inline_f(Op::Sub { a: exp_inp, b: one });
    let (r, cond) = r.inline_b(Op::Ge { a: inp, b: zero });
    r.assign(out, Op::Select { cond, a: inp, b: exp_inp_minus_one })
}

/// The kernel with the gradient through ELU added to `out`; `inp` is what the
/// forward pass saved.
pub open spec fn elu_grad(r: RawView, out: ValueId, inp: ValueId, upstream: ValueId) -> RawView {
    let (r, zero) = r.inline_f(Op::ConstF32 { value: Float32 { bits: ZERO_BITS } });
    let (r, one) = r.inline_f(Op::ConstF32 { value: Float32 { bits: ONE_BITS } });
    let (r, forward_plus_one) = r.inline_f(Op::Add { a: inp, b: one });
    let (r, upstream_forward_plus_one) = r.inline_f(Op::Mul { a: upstream, b: forward_plus_one });
    let (r, cond) = r.inline_b(Op::Ge { a: inp, b: zero });
    r.accum(out, Op::Select { cond, a: upstream, b: upstream_forward_plus_one })
}

fn emit_elu(raw: &mut RawKernel, out: ValueId, inp: ValueId)
    ensures
        final(raw)@ == elu_value(old(raw)@, out, inp),
{
    let zero: ValueId = raw.inline_f(Op::ConstF32 { value: Float32 { bits: ZERO_BITS } });
    let one: ValueId = raw.inline_f(Op::ConstF32 { value: Float32 { bits: ONE_BITS } });
    let exp_inp: ValueId = raw.inline_f(Op::Exp { x: inp });
    let exp_inp_minus_one: ValueId = raw.inline_f(Op::Sub { a: exp_inp, b: one });
    let cond: ValueId = raw.inline_b(Op::Ge { a: inp, b: zero });
    raw.overwrite_var(out, Op::Select { cond, a: inp, b: exp_inp_minus_one });
}

fn emit_elu_grad(raw: &mut RawKernel, out: ValueId, inp: ValueId, upstream: ValueId)
    ensures
        final(raw)@ == elu_grad(old(raw)@, out, inp, upstream),
{
    let zero: ValueId = raw.inline_f(Op::ConstF32 { value: Float32 { bits: ZERO_BITS } });
    let one: ValueId = raw.inline_f(Op::ConstF32 { value: Float32 { bits: ONE_BITS } });
    let forward_plus_one: ValueId = raw.inline_f(Op::Add { a: inp, b: one });
    let upstream_forward_plus_one: ValueId = raw.inline_f(
        Op::Mul { a: upstream, b: forward_plus_one },
    );
    let cond: ValueId = raw.inline_b(Op::Ge { a: inp, b: zero });
    raw.accum_var(out, Op::Select { cond, a: upstream, b: upstream_forward_plus_one });
}

/// The kernel with ReLU of `inp` assigned to `out`.
pub open spec fn relu_value(r: RawView, out: ValueId, inp: ValueId) -> RawView {
    let (r, zero) = r.inline_f(Op::ConstF32 { value: Float32 { bits: ZERO_BITS } });
    r.assign(out, Op::Max { a: inp, b: zero })
}

/// The kernel with the gradient through ReLU added to `out`; `inp` is what the
/// forward pass saved.
pub open spec fn relu_grad(r: RawView, out: ValueId, inp: ValueId, upstream: ValueId) -> RawView {
    let (r, zero) = r.inline_f(Op::ConstF32 { value: Float32 { bits: ZERO_BITS } });
    let (r, cond) = r.inline_b(Op::Ge { a: inp, b: zero });
    let r = r.emit(Op::IfBegin { cond });
    let r = r.accum(out, Op::CopyVar { id: upstream });
    r.emit(Op::EndScope)
}

fn emit_relu(raw: &mut RawKernel, out: ValueId, inp: ValueId)
    ensures
        final(raw)@ == relu_value(old(raw)@, out, inp),
{
    let zero: ValueId = raw.inline_f(Op::ConstF32 { value: Float32 { bits: ZERO_BITS } });
    raw.overwrite_var(out, Op::Max { a: inp, b: zero });
}

fn emit_relu_grad(raw: &mut RawKernel, out: ValueId, inp: ValueId, upstream: ValueId)
    ensures
        final(raw)@ == relu_grad(old(raw)@, out, inp, upstream),
{
    let zero: ValueId = raw.inline_f(Op::ConstF32 { value: Float32 { bits: ZERO_BITS } });
    let cond: ValueId = raw.inline_b(Op::Ge { a: inp, b: zero });
    raw.emit(Op::IfBegin { cond });
    raw.accum_var(out, Op::CopyVar { id: upstream });
    raw.emit(Op::EndScope);
}

/// The kernel with GELU of `inp` assigned to `out`, and the tangent that it saves.
pub open spec fn gelu_value(r: RawView, out: ValueId, inp: ValueId) -> (RawView, ValueId) {
    let (r, gelu_a) = r.inline_f(Op::ConstF32 { value: Float32 { bits: GELU_CUBIC_BITS } });
    let (r, gelu_b) = r.inline_f(Op::ConstF32 { value: Float32 { bits: SQRT_FRAC_BITS } });
    let (r, half) = r.inline_f(Op::ConstF32 { value: Float32 { bits: HALF_BITS } });
    let (r, one) = r.inline_f(Op::ConstF32 { value: Float32 { bits: ONE_BITS } });
    let (r, xx) = r.inline_f(Op::Mul { a: inp, b: inp });
    let (r, xxx) = r.inline_f(Op::Mul { a: xx, b: inp });
    let (r, a_x3) = r.inline_f(Op::Mul { a: xxx, b: gelu_a });
    let (r, x_plus_a_x3) = r.inline_f(Op::Add { a: inp, b: a_x3 });
    let (r, b_x_plus_a_x3) = r.inline_f(Op::Mul { a: gelu_b, b: x_plus_a_x3 });
    let (r, tanh_u) = r.inline_f(Op::Tanh { x: b_x_plus_a_x3 });
    let (r, one_plus_tanh_u) = r.inline_f(Op::Add { a: one, b: tanh_u });
    let (r, half_x) = r.inline_f(Op::Mul { a: half, b: inp });
    let r = r.assign(out, Op::Mul { a: half_x, b: one_plus_tanh_u });
    (r, tanh_u)
}

/// The kernel with the gradient through GELU added to `out`; `inp` is what the
/// forward pass saved.
pub open spec fn gelu_grad(r: RawView, out: ValueId, inp: ValueId, upstream: ValueId) -> RawView {
    let (r, half) = r.inline_f(Op::ConstF32 { value: Float32 { bits: HALF_BITS } });
    let (r, one) = r.inline_f(Op::ConstF32 { value: Float32 { bits: ONE_BITS } });
    let (r, three) = r.inline_f(Op::ConstF32 { value: Float32 { bits: THREE_BITS } });
    let (r, gelu_a) = r.inline_f(Op::ConstF32 { value: Float32 { bits: GELU_CUBIC_BITS } });
    let (r, gelu_b) = r.inline_f(Op::ConstF32 { value: Float32 { bits: SQRT_FRAC_BITS } });
    let (r, gelu_c) = r.def(DType::Float, ValueState::Const, Some(Op::Mul { a: gelu_a, b: three }));
    let (r, xx) = r.inline_f(Op::Mul { a: inp, b: inp });
    let (r, one_plus_t) = r.let_f(Op::Add { a: one, b: inp });
    let (r, tt) = r.inline_f(Op::Mul { a: inp, b: inp });
    let (r, one_minus_tt) = r.let_f(Op::Sub { a: one, b: tt });
    let (r, c_xx) = r.inline_f(Op::Mul { a: gelu_c, b: xx });
    let (r, one_plus_c_xx) = r.inline_f(Op::Add { a: one, b: c_xx });
    let (r, du_dx) = r.let_f(Op::Mul { a: gelu_b, b: one_plus_c_xx });
    let (r, x_du_dx) = r.let_f(Op::Mul { a: inp, b: du_dx });
    let (r, one_minus_tt_x_du_dx) = r.let_f(Op::Mul { a: one_minus_tt, b: x_du_dx });
    let (r, two_dy_dx) = r.let_f(Op::Add { a: one_plus_t, b: one_minus_tt_x_du_dx });
    let (r, dy_dx) = r.let_f(Op::Mul { a: half, b: two_dy_dx });
    r.accum(out, Op::Mul { a: upstream, b: dy_dx })
}

fn emit_gelu(raw: &mut RawKernel, out: ValueId, inp: ValueId) -> (save: ValueId)
    ensures
        (final(raw)@, save) == gelu_value(old(raw)@, out, inp),
{
    let gelu_a: ValueId = raw.inline_f(Op::ConstF32 { value: Float32 { bits: GELU_CUBIC_BITS } });
    let gelu_b: ValueId = raw.inline_f(Op::ConstF32 { value: Float32 { bits: SQRT_FRAC_BITS } });
    let half: ValueId = raw.inline_f(Op::ConstF32 { value: Float32 { bits: HALF_BITS } });
    let one: ValueId = raw.inline_f(Op::ConstF32 { value: Float32 { bits: ONE_BITS } });
    let xx: ValueId = raw.inline_f(Op::Mul { a: inp, b: inp });
    let xxx: ValueId = raw.inline_f(Op::Mul { a: xx, b: inp });
    let a_x3: ValueId = raw.inline_f(Op::Mul { a: xxx, b: gelu_a });
    let x_plus_a_x3: ValueId = raw.inline_f(Op::Add { a: inp, b: a_x3 });
    let b_x_plus_a_x3: ValueId = raw.inline_f(Op::Mul { a: gelu_b, b: x_plus_a_x3 });
    let tanh_u: ValueId = raw.inline_f(Op::Tanh { x: b_x_plus_a_x3 });
    let one_plus_tanh_u: ValueId = raw.inline_f(Op::Add { a: one, b: tanh_u });
    let half_x: ValueId = raw.inline_f(Op::Mul { a: half, b: inp });
    raw.overwrite_var(out, Op::Mul { a: half_x, b: one_plus_tanh_u });
    tanh_u
}

fn emit_gelu_grad(raw: &mut RawKernel, out: ValueId, inp: ValueId, upstream: ValueId)
    ensures
        final(raw)@ == gelu_grad(old(raw)@, out, inp, upstream),
{
    let half: ValueId = raw.inline_f(Op::ConstF32 { value: Float32 { bits: HALF_BITS } });
    let one: ValueId = raw.inline_f(Op::ConstF32 { value: Float32 { bits: ONE_BITS } });
    let three: ValueId = raw.inline_f(Op::ConstF32 { value: Float32 { bits: THREE_BITS } });
    let gelu_a: ValueId = raw.inline_f(Op::ConstF32 { value: Float32 { bits: GELU_CUBIC_BITS } });
    let gelu_b: ValueId = raw.inline_f(Op::ConstF32 { value: Float32 { bits: SQRT_FRAC_BITS } });
    let gelu_c: ValueId = raw.def_var(
        DType::Float,
        ValueState::Const,
        Some(Op::Mul { a: gelu_a, b: three }),
    );
    let xx: ValueId = raw.inline_f(Op::Mul { a: inp, b: inp });
    let one_plus_t: ValueId = raw.let_f(Op::Add { a: one, b: inp });
    let tt: ValueId = raw.inline_f(Op::Mul { a: inp, b: inp });
    let one_minus_tt: ValueId = raw.let_f(Op::Sub { a: one, b: tt });
    let c_xx: ValueId = raw.inline_f(Op::Mul { a: gelu_c, b: xx });
    let one_plus_c_xx: ValueId = raw.inline_f(Op::Add { a: one, b: c_xx });
    let du_dx: ValueId = raw.let_f(Op::Mul { a: gelu_b, b: one_plus_c_xx });
    let x_du_dx: ValueId = raw.let_f(Op::Mul { a: inp, b: du_dx });
    let one_minus_tt_x_du_dx: ValueId = raw.let_f(Op::Mul { a: one_minus_tt, b: x_du_dx });
    let two_dy_dx: ValueId = raw.let_f(Op::Add { a: one_plus_t, b: one_minus_tt_x_du_dx });
    let dy_dx: ValueId = raw.let_f(Op::Mul { a: half, b: two_dy_dx });
    raw.accum_var(out, Op::Mul { a: upstream, b: dy_dx });
}

/// The kernel with the exponential of `inp` assigned to `out`.
pub open spec fn exp_value(r: RawView, out: ValueId, inp: ValueId) -> RawView {
    r.assign(out, Op::Exp { x: inp })
}

/// The kernel with the gradient through the exponential added to `out`; `inp` is what the
/// forward pass saved.
pub open spec fn exp_grad(r: RawView, out: ValueId, inp: ValueId, upstream: ValueId) -> RawView {
    r.accum(out, Op::Mul { a: upstream, b: inp })
}

fn emit_exp(raw: &mut RawKernel, out: ValueId, inp: ValueId)
    ensures
        final(raw)@ == exp_value(old(raw)@, out, inp),
{
    raw.overwrite_var(out, Op::Exp { x: inp });
}

fn emit_exp_grad(raw: &mut RawKernel, out: ValueId, inp: ValueId, upstream: ValueId)
    ensures
        final(raw)@ == exp_grad(old(raw)@, out, inp, upstream),
{
    raw.accum_var(out, Op::Mul { a: upstream, b: inp });
}

/// The kernel with the absolute value of `inp` assigned to `out`.
pub open spec fn abs_value(r: RawView, out: ValueId, inp: ValueId) -> RawView {
    r.assign(out, Op::Abs { x: inp })
}

/// The kernel with the gradient through the absolute value added to `out`; `inp` is what the
/// forward pass saved.
pub open spec fn abs_grad(r: RawView, out: ValueId, inp: ValueId, upstream: ValueId) -> RawView {
    let (r, zero) = r.inline_f(Op::ConstF32 { value: Float32 { bits: ZERO_BITS } });
    let (r, ge0) = r.inline_f(Op::Ge { a: inp, b: zero });
    let (r, le0) = r.inline_f(Op::Ge { a: inp, b: zero });
    let r = r.emit(Op::IfBegin { cond: ge0 });
    let r = r.accum(out, Op::CopyVar { id: upstream });
    let r = r.emit(Op::EndScope);
    let r = r.emit(Op::ElseBegin);
    let r = r.emit(Op::IfBegin { cond: le0 });
    let r = r.accum(out, Op::Neg { x: upstream });
    let r = r.emit(Op::EndScope);
    let r = r.emit(Op::ElseBegin);
    let r = r.accum(out, Op::ConstF32 { value: Float32 { bits: ZERO_BITS } });
    let r = r.emit(Op::EndScope);
    r.emit(Op::EndScope)
}

fn emit_abs(raw: &mut RawKernel, out: ValueId, inp: ValueId)
    ensures
        final(raw)@ == abs_value(old(raw)@, out, inp),
{
    raw.overwrite_var(out, Op::Abs { x: inp });
}

fn emit_abs_grad(raw: &mut RawKernel, out: ValueId, inp: ValueId, upstream: ValueId)
    ensures
        final(raw)@ == abs_grad(old(raw)@, out, inp, upstream),
{
    let zero: ValueId = raw.inline_f(Op::ConstF32 { value: Float32 { bits: ZERO_BITS } });
    let ge0: ValueId = raw.inline_f(Op::Ge { a: inp, b: zero });
    let le0: ValueId = raw.inline_f(Op::Ge { a: inp, b: zero });
    raw.emit(Op::IfBegin { cond: ge0 });
    raw.accum_var(out, Op::CopyVar { id: upstream });
    raw.emit(Op::EndScope);
    raw.emit(Op::ElseBegin);
    raw.emit(Op::IfBegin { cond: le0 });
    raw.accum_var(out, Op::Neg { x: upstream });
    raw.emit(Op::EndScope);
    raw.emit(Op::ElseBegin);
    raw.accum_var(out, Op::ConstF32 { value: Float32 { bits: ZERO_BITS } });
    raw.emit(Op::EndScope);
    raw.emit(Op::EndScope);
}

/// The kernel with the negation of `inp` assigned to `out`.
pub open spec fn neg_value(r: RawView, out: ValueId, inp: ValueId) -> RawView {
    r.assign(out, Op::Neg { x: inp })
}

/// The kernel with the gradient through the negation added to `out`; `inp` is not read.
pub open spec fn neg_grad(r: RawView, out: ValueId, inp: ValueId, upstream: ValueId) -> RawView {
    r.accum(out, Op::Neg { x: upstream })
}

fn emit_neg(raw: &mut RawKernel, out: ValueId, inp: ValueId)
    ensures
        final(raw)@ == neg_value(old(raw)@, out, inp),
{
    raw.overwrite_var(out, Op::Neg { x: inp });
}

fn emit_neg_grad(raw: &mut RawKernel, out: ValueId, _inp: ValueId, upstream: ValueId)
    ensures
        final(raw)@ == neg_grad(old(raw)@, out, _inp, upstream),
{
    raw.accum_var(out, Op::Neg { x: upstream });
}

/// Whether the gradient through an operation reads what the forward pass saved.
pub open spec fn reads_saved(name: OpName) -> bool {
    name != OpName::Neg
}

/// The kernel with an operation on `inp` assigned to `out`, and the value that a forward pass saves
/// by itself.
pub open spec fn unary_value(name: OpName, r: RawView, out: ValueId, inp: ValueId) -> (
    RawView,
    ValueId,
) {
    match name {
        OpName::Log => (log_value(r, out, inp), out),
        OpName::Tanh => (tanh_value(r, out, inp), out),
        OpName::Elu => (elu_value(r, out, inp), out),
        OpName::Relu => (relu_value(r, out, inp), out),
        OpName::Gelu => gelu_value(r, out, inp),
        OpName::Exp => (exp_value(r, out, inp), out),
        OpName::Abs => (abs_value(r, out, inp), out),
        _ => (neg_value(r, out, inp), out),
    }
}

/// The kernel with the gradient through an operation added to `out`.
pub open spec fn unary_grad(
    name: OpName,
    r: RawView,
    out: ValueId,
    inp: ValueId,
    upstream: ValueId,
) -> RawView {
    match name {
        OpName::Log => log_grad(r, out, inp, upstream),
        OpName::Tanh => tanh_grad(r, out, inp, upstream),
        OpName::Elu => elu_grad(r, out, inp, upstream),
        OpName::Relu => relu_grad(r, out, inp, upstream),
        OpName::Gelu => gelu_grad(r, out, inp, upstream),
        OpName::Exp => exp_grad(r, out, inp, upstream),
        OpName::Abs => abs_grad(r, out, inp, upstream),
        _ => neg_grad(r, out, inp, upstream),
    }
}

fn emit_unary(name: OpName, raw: &mut RawKernel, out: ValueId, inp: ValueId) -> (save: ValueId)
    ensures
        (final(raw)@, save) == unary_value(name, old(raw)@, out, inp),
{
    match name {
        OpName::Log => emit_log(raw, out, inp),
        OpName::Tanh => emit_tanh(raw, out, inp),
        OpName::Elu => emit_elu(raw, out, inp),
        OpName::Relu => emit_relu(raw, out, inp),
        OpName::Gelu => {
            return emit_gelu(raw, out, inp);
        },
        OpName::Exp => emit_exp(raw, out, inp),
        OpName::Abs => emit_abs(raw, out, inp),
        _ => emit_neg(raw, out, inp),
    }
    out
}

fn emit_unary_grad(
    name: OpName,
    raw: &mut RawKernel,
    out: ValueId,
    inp: ValueId,
    upstream: ValueId,
)
    ensures
        final(raw)@ == unary_grad(name, old(raw)@, out, inp, upstream),
{
    match name {
        OpName::Log => emit_log_grad(raw, out, inp, upstream),
        OpName::Tanh => emit_tanh_grad(raw, out, inp, upstream),
        OpName::Elu => emit_elu_grad(raw, out, inp, upstream),
        OpName::Relu => emit_relu_grad(raw, out, inp, upstream),
        OpName::Gelu => emit_gelu_grad(raw, out, inp, upstream),
        OpName::Exp => emit_exp_grad(raw, out, inp, upstream),
        OpName::Abs => emit_abs_grad(raw, out, inp, upstream),
        _ => emit_neg_grad(raw, out, inp, upstream),
    }
}

/// The error for a forward result that no parameter holds.
pub open spec fn unsaved(kernel: LinkedView, resolved: Seq<NodeId>) -> Lowered {
    stopped(
        kernel,
        resolved,
        "could not materialize saved forward param",
        ErrorKind::ParamNotMaterialized,
    )
}

/// The error for an input that an operation does not have.
pub open spec fn no_such_input(kernel: LinkedView, resolved: Seq<NodeId>) -> Lowered {
    stopped(
        kernel,
        resolved,
        "backwardness must be restricted to input count",
        ErrorKind::UnresolvedInput,
    )
}

/// What lowering an operation with one operand does to a kernel.
///
/// A forward pass evaluates the operand and applies the operation to it. A backward pass loads
/// what the forward pass saved, where the operation reads it, evaluates the gradient of the node,
/// and adds the gradient of the operand to `out`.
pub open spec fn unary_lowering(
    name: OpName,
    f: Scope,
    backwardness: Option<u8>,
    n: NodeId,
    out: ValueId,
    kernel: LinkedView,
    resolved: Seq<NodeId>,
    idx: ValueId,
    stable: bool,
) -> Lowered
    decreases f.left(backwardness, n), 5int, 0int,
    when f.operable(n) && f.node(n).inputs@.len() >= 1
{
    let zero = Op::ConstF32 { value: Float32 { bits: ZERO_BITS } };
    match backwardness {
        None => {
            let (raw, upstream) = kernel.raw.var_f(zero);
            let l = node_value(
                f,
                Operand::Node(f.input(n, 0)),
                upstream,
                LinkedView { raw, ..kernel },
                resolved,
                idx,
                stable,
            );
            match l.nodes {
                Err(_) => l,
                Ok(nodes) => {
                    let (raw, save) = unary_value(name, l.kernel.raw, out, upstream);
                    let kernel = LinkedView { raw, ..l.kernel };
                    if name != OpName::Gelu {
                        Lowered { kernel, resolved: l.resolved, nodes: Ok(nodes) }
                    } else {
                        match f.saved_params[n as int] {
                            None => unsaved(kernel, l.resolved),
                            Some(param) => Lowered {
                                kernel: kernel.store(param, idx, save),
                                resolved: l.resolved,
                                nodes: Ok(nodes),
                            },
                        }
                    }
                },
            }
        },
        Some(edge) => if edge != 0 {
            no_such_input(kernel, resolved)
        } else {
            let (raw, saved) = kernel.raw.var_f(zero);
            let kernel = LinkedView { raw, ..kernel };
            let param = f.saved_params[n as int];
            if reads_saved(name) && param is None {
                unsaved(kernel, resolved)
            } else {
                let kernel = if reads_saved(name) {
                    kernel.accum(
                        saved,
                        Op::ParamLoad { param: param.unwrap(), index: idx },
                    ).param(param.unwrap())
                } else {
                    kernel
                };
                let (raw, acc) = kernel.raw.var_f(zero);
                let l = node_grad(
                    f,
                    Operand::Node(n),
                    acc,
                    LinkedView { raw, ..kernel },
                    resolved,
                    idx,
                    stable,
                );
                match l.nodes {
                    Err(_) => l,
                    Ok(nodes) => Lowered {
                        kernel: LinkedView {
                            raw: unary_grad(name, l.kernel.raw, out, saved, acc),
                            ..l.kernel
                        },
                        resolved: l.resolved,
                        nodes: Ok(nodes),
                    },
                }
            }
        },
    }
}

/// Lowers an operation with one operand.
pub fn lower_unary(
    name: OpName,
    frame: &Frame<'_>,
    resolved: &mut Vec<NodeId>,
    backwardness: Option<u8>,
    node_id: NodeId,
    out: ValueId,
    kernel: &mut LinkedKernel,
    idx: ValueId,
    stable_iteration_space: bool,
) -> (r: Result<Vec<NodeId>, Error>)
    requires
        frame@.fits(old(kernel)@, old(resolved)@),
        frame@.operable(node_id),
        frame@.node(node_id).inputs@.len() >= 1,
    ensures
        (Lowered { kernel: final(kernel)@, resolved: final(resolved)@, nodes: reached(r) })
            == unary_lowering(
            name,
            frame@,
            backwardness,
            node_id,
            out,
            old(kernel)@,
            old(resolved)@,
            idx,
            stable_iteration_space,
        ),
        frame@.fits(final(kernel)@, final(resolved)@),
        final(kernel)@.params.len() == old(kernel)@.params.len(),
        final(kernel)@.meta.len() == old(kernel)@.meta.len(),
        r matches Ok(ids) ==> frame@.reaches(backwardness, node_id, ids@),
    decreases frame@.left(backwardness, node_id), 5int, 0int,
{
    let node = &frame.graph.nodes[node_id];
    match backwardness {
        None => {
            let upstream: ValueId = kernel.raw.var_f(
                Op::ConstF32 { value: Float32 { bits: ZERO_BITS } },
            );
            let deepest = match eval_node(
                frame,
                &NodeInput::Node(node.inputs[0]),
                upstream,
                resolved,
                kernel,
                idx,
                stable_iteration_space,
            ) {
                Ok(deepest) => deepest,
                Err(e) => {
                    return Err(e);
                },
            };
            let save: ValueId = emit_unary(name, &mut kernel.raw, out, upstream);
            if name == OpName::Gelu {
                match frame.saved_params[node_id] {
                    Some(param) => {
                        kernel.param_store(param, idx, save);
                    },
                    None => {
                        return Err(
                            Error {
                                msg: "could not materialize saved forward param",
                                kind: ErrorKind::ParamNotMaterialized,
                                ctx: (),
                            },
                        );
                    },
                }
            }
            Ok(deepest)
        },
        Some(0) => {
            let saved: ValueId = kernel.raw.var_f(
                Op::ConstF32 { value: Float32 { bits: ZERO_BITS } },
            );
            let mut deepest: Vec<NodeId> = Vec::new();
            if name != OpName::Neg {
                let param = match frame.saved_params[node_id] {
                    Some(param) => param,
                    None => {
                        return Err(
                            Error {
                                msg: "could not materialize saved forward param",
                                kind: ErrorKind::ParamNotMaterialized,
                                ctx: (),
                            },
                        );
                    },
                };
                match eval_grad(
                    frame,
                    &NodeInput::Raw { param, shape: node.shape.as_slice() },
                    saved,
                    resolved,
                    kernel,
                    idx,
                    stable_iteration_space,
                ) {
                    Ok(loaded) => {
                        deepest = loaded;
                    },
                    Err(e) => {
                        return Err(e);
                    },
                }
            }
            let acc: ValueId = kernel.raw.var_f(
                Op::ConstF32 { value: Float32 { bits: ZERO_BITS } },
            );
            match eval_grad(
                frame,
                &NodeInput::Node(node_id),
                acc,
                resolved,
                kernel,
                idx,
                stable_iteration_space,
            ) {
                Ok(mut back_deepest) => {
                    deepest.append(&mut back_deepest);
                },
                Err(e) => {
                    return Err(e);
                },
            }
            emit_unary_grad(name, &mut kernel.raw, out, saved, acc);
            Ok(deepest)
        },
        Some(_) => Err(
            Error {
                msg: "backwardness must be restricted to input count",
                kind: ErrorKind::UnresolvedInput,
                ctx: (),
            },
        ),
    }
}

/// An operation with one operand, element by element.
///
/// GELU saves more than its result, and so saves by itself and in a kernel of its own.
pub open spec fn unary_op(name: OpName) -> GraphOp {
    GraphOp::Custom {
        lower: name,
        display: name,
        save: SaveRule::Unary,
        valid_shape: ShapeRule::Unary,
        arity: 1,
        need_dims: false,
        stable_iter: true,
        auto_save: name != OpName::Gelu,
        computes_gid: true,
        prefer_separate: name == OpName::Gelu,
        valid_dispatch: DispatchOptions::Any,
    }
}

impl Graph {
    fn add_unary(&mut self, name: OpName, x: NodeId) -> (id: NodeId)
        requires
            x < old(self).nodes@.len(),
        ensures
            id == old(self).nodes@.len(),
            final(self).loss == old(self).loss,
            grown(
                old(self).nodes@,
                unary_op(name),
                seq![x],
                old(self).nodes@[x as int].shape@,
                final(self).nodes@,
            ),
    {
        let op = GraphOp::Custom {
            lower: name,
            display: name,
            save: SaveRule::Unary,
            valid_shape: ShapeRule::Unary,
            arity: 1,
            need_dims: false,
            stable_iter: true,
            auto_save: name != OpName::Gelu,
            computes_gid: true,
            prefer_separate: name == OpName::Gelu,
            valid_dispatch: DispatchOptions::Any,
        };
        let shape = self.nodes[x].shape.clone();
        let inputs: Vec<NodeId> = vec![x];
        assert(inputs@ == seq![x]);
        self.add_node(op, inputs, shape)
    }

    /// Adds the natural logarithm of a node.
    pub fn log(&mut self, x: NodeId) -> (id: NodeId)
        requires
            x < old(self).nodes@.len(),
        ensures
            id == old(self).nodes@.len(),
            final(self).loss == old(self).loss,
            grown(
                old(self).nodes@,
                unary_op(OpName::Log),
                seq![x],
                old(self).nodes@[x as int].shape@,
                final(self).nodes@,
            ),
    {
        self.add_unary(OpName::Log, x)
    }

    /// Adds the hyperbolic tangent of a node.
    pub fn tanh(&mut self, x: NodeId) -> (id: NodeId)
        requires
            x < old(self).nodes@.len(),
        ensures
            id == old(self).nodes@.len(),
            final(self).loss == old(self).loss,
            grown(
                old(self).nodes@,
                unary_op(OpName::Tanh),
                seq![x],
                old(self).nodes@[x as int].shape@,
                final(self).nodes@,
            ),
    {
        self.add_unary(OpName::Tanh, x)
    }

    /// Adds the exponential linear unit of a node.
    pub fn elu(&mut self, x: NodeId) -> (id: NodeId)
        requires
            x < old(self).nodes@.len(),
        ensures
            id == old(self).nodes@.len(),
            final(self).loss == old(self).loss,
            grown(
                old(self).nodes@,
                unary_op(OpName::Elu),
                seq![x],
                old(self).nodes@[x as int].shape@,
                final(self).nodes@,
            ),
    {
        self.add_unary(OpName::Elu, x)
    }

    /// Adds the rectified linear unit of a node.
    pub fn relu(&mut self, x: NodeId) -> (id: NodeId)
        requires
            x < old(self).nodes@.len(),
        ensures
            id == old(self).nodes@.len(),
            final(self).loss == old(self).loss,
            grown(
                old(self).nodes@,
                unary_op(OpName::Relu),
                seq![x],
                old(self).nodes@[x as int].shape@,
                final(self).nodes@,
            ),
    {
        self.add_unary(OpName::Relu, x)
    }

    /// Adds the Gaussian error linear unit of a node.
    pub fn gelu(&mut self, x: NodeId) -> (id: NodeId)
        requires
            x < old(self).nodes@.len(),
        ensures
            id == old(self).nodes@.len(),
            final(self).loss == old(self).loss,
            grown(
                old(self).nodes@,
                unary_op(OpName::Gelu),
                seq![x],
                old(self).nodes@[x as int].shape@,
                final(self).nodes@,
            ),
    {
        self.add_unary(OpName::Gelu, x)
    }

    /// Adds the exponential of a node.
    pub fn exp(&mut self, x: NodeId) -> (id: NodeId)
        requires
            x < old(self).nodes@.len(),
        ensures
            id == old(self).nodes@.len(),
            final(self).loss == old(self).loss,
            grown(
                old(self).nodes@,
                unary_op(OpName::Exp),
                seq![x],
                old(self).nodes@[x as int].shape@,
                final(self).nodes@,
            ),
    {
        self.add_unary(OpName::Exp, x)
    }

    /// Adds the absolute value of a node.
    pub fn abs(&mut self, x: NodeId) -> (id: NodeId)
        requires
            x < old(self).nodes@.len(),
        ensures
            id == old(self).nodes@.len(),
            final(self).loss == old(self).loss,
            grown(
                old(self).nodes@,
                unary_op(OpName::Abs),
                seq![x],
                old(self).nodes@[x as int].shape@,
                final(self).nodes@,
            ),
    {
        self.add_unary(OpName::Abs, x)
    }

    /// Adds the negation of a node.
    pub fn neg(&mut self, x: NodeId) -> (id: NodeId)
        requires
            x < old(self).nodes@.len(),
        ensures
            id == old(self).nodes@.len(),
            final(self).loss == old(self).loss,
            grown(
                old(self).nodes@,
                unary_op(OpName::Neg),
                seq![x],
                old(self).nodes@[x as int].shape@,
                final(self).nodes@,
            ),
    {
        self.add_unary(OpName::Neg, x)
    }
}

} // verus!
