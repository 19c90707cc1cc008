//! Losses.

use vstd::prelude::*;

use crate::dispatch::backend::kernel::raw::{Kernel, KernelView, RawKernel, RawView};
use crate::dispatch::backend::{DType, LossType, Op, Param, ParamId, ValueId};
use crate::scalar::{Float32, ONE_BITS, TWO_BITS, ZERO_BITS};

verus! {

impl LossType {
    /// The square of the difference.
    pub const LOSS_MSE: Self = Self::MeanSquaredError;

    /// The cross entropy of two classes.
    pub const LOSS_BCE: Self = Self::BinaryCrossEntropy;

    /// The cross entropy of any number of classes, with the target as a class index.
    pub const LOSS_CROSS_ENTROPY: Self = Self::CrossEntropy;
}

/// The kernel with the square of the difference, and its gradient.
pub open spec fn mse(r: RawView, pred: ValueId, target: ValueId) -> (RawView, ValueId, ValueId) {
    let (r, diff) = r.let_f(Op::Sub { a: pred, b: target });
    let (r, loss_val) = r.let_f(Op::Mul { a: diff, b: diff });
    let (r, two) = r.inline_f(Op::ConstF32 { value: Float32 { bits: TWO_BITS } });
    let (r, grad_val) = r.let_f(Op::Mul { a: two, b: diff });
    (r, loss_val, grad_val)
}

fn emit_mse(raw: &mut RawKernel, pred: ValueId, target: ValueId) -> (r: (ValueId, ValueId))
    ensures
        (final(raw)@, r.0, r.1) == mse(old(raw)@, pred, target),
        final(raw)@.values.len() >= old(raw)@.values.len(),
{
    let diff: ValueId = raw.let_f(Op::Sub { a: pred, b: target });
    let loss_val: ValueId = raw.let_f(Op::Mul { a: diff, b: diff });
    let two: ValueId = raw.inline_f(Op::ConstF32 { value: Float32 { bits: TWO_BITS } });
    let grad_val: ValueId = raw.let_f(Op::Mul { a: two, b: diff });
    (loss_val, grad_val)
}

/// The kernel with the cross entropy of two classes, and its gradient. Both logarithms of its second
/// part are of one minus the target.
pub open spec fn bce(r: RawView, pred: ValueId, target: ValueId) -> (RawView, ValueId, ValueId) {
    let (r, one) = r.inline_f(Op::ConstF32 { value: Float32 { bits: ONE_BITS } });
    let (r, log_pred) = r.let_f(Op::Log { x: pred });
    let (r, one_minus_target) = r.let_f(Op::Sub { a: one, b: target });
    let (r, one_minus_pred) = r.let_f(Op::Sub { a: one, b: target });
    let (r, log_one_minus_pred) = r.let_f(Op::Log { x: one_minus_pred });
    let (r, term1) = r.let_f(Op::Mul { a: target, b: log_pred });
    let (r, term2) = r.let_f(Op::Mul { a: one_minus_target, b: log_one_minus_pred });
    let (r, loss_val) = r.let_f(Op::Sub { a: term2, b: term1 });
    let (r, grad_val) = r.let_f(Op::Sub { a: pred, b: target });
    (r, loss_val, grad_val)
}

fn emit_bce(raw: &mut RawKernel, pred: ValueId, target: ValueId) -> (r: (ValueId, ValueId))
    ensures
        (final(raw)@, r.0, r.1) == bce(old(raw)@, pred, target),
{
    let one: ValueId = raw.inline_f(Op::ConstF32 { value: Float32 { bits: ONE_BITS } });
    let log_pred: ValueId = raw.let_f(Op::Log { x: pred });
    let one_minus_target: ValueId = raw.let_f(Op::Sub { a: one, b: target });
    let one_minus_pred: ValueId = raw.let_f(Op::Sub { a: one, b: target });
    let log_one_minus_pred: ValueId = raw.let_f(Op::Log { x: one_minus_pred });
    let term1: ValueId = raw.let_f(Op::Mul { a: target, b: log_pred });
    let term2: ValueId = raw.let_f(Op::Mul { a: one_minus_target, b: log_one_minus_pred });
    let loss_val: ValueId = raw.let_f(Op::Sub { a: term2, b: term1 });
    let grad_val: ValueId = raw.let_f(Op::Sub { a: pred, b: target });
    (loss_val, grad_val)
}

/// The kernel with the cross entropy of any number of classes, and its gradient. The target of a
/// row is the index of its class.
pub open spec fn cross_entropy(
    r: RawView,
    pred: ValueId,
    target: ValueId,
    target_param: ParamId,
    row: ValueId,
    col: ValueId,
) -> (RawView, ValueId, ValueId) {
    let r = r.with_dtype(target, DType::UnsignedInt);
    let r = r.with_init(target, Op::ParamLoad { param: target_param, index: row });
    let (r, target_eq_col) = r.inline_b(Op::Eq { a: target, b: col });
    let (r, loss_val) = r.var_f(Op::ConstF32 { value: Float32 { bits: ZERO_BITS } });
    let (r, grad_val) = r.var_f(Op::CopyVar { id: pred });
    let r = r.emit(Op::IfBegin { cond: target_eq_col });
    let (r, one) = r.inline_f(Op::ConstF32 { value: Float32 { bits: ONE_BITS } });
    let (r, log_pred) = r.inline_f(Op::Log { x: pred });
    let r = r.assign(loss_val, Op::Neg { x: log_pred });
    let r = r.assign(grad_val, Op::Sub { a: pred, b: one });
    let r = r.emit(Op::EndScope);
    (r, loss_val, grad_val)
}

fn emit_cross_entropy(
    raw: &mut RawKernel,
    pred: ValueId,
    target: ValueId,
    target_param: ParamId,
    row: ValueId,
    col: ValueId,
) -> (r: (ValueId, ValueId))
    requires
        target < old(raw)@.values.len(),
    ensures
        (final(raw)@, r.0, r.1) == cross_entropy(
            old(raw)@,
            pred,
            target,
            target_param,
            row,
            col,
        ),
{
    raw.update_var_dtype(target, DType::UnsignedInt);
    raw.update_var_init(target, Op::ParamLoad { param: target_param, index: row });
    let target_eq_col: ValueId = raw.inline_b(Op::Eq { a: target, b: col });
    let loss_val: ValueId = raw.var_f(Op::ConstF32 { value: Float32 { bits: ZERO_BITS } });
    let grad_val: ValueId = raw.var_f(Op::CopyVar { id: pred });
    raw.emit(Op::IfBegin { cond: target_eq_col });
    let one: ValueId = raw.inline_f(Op::ConstF32 { value: Float32 { bits: ONE_BITS } });
    let log_pred: ValueId = raw.inline_f(Op::Log { x: pred });
    raw.overwrite_var(loss_val, Op::Neg { x: log_pred });
    raw.overwrite_var(grad_val, Op::Sub { a: pred, b: one });
    raw.emit(Op::EndScope);
    (loss_val, grad_val)
}

/// The kernel with a loss and its gradient.
pub open spec fn loss_values(
    loss: LossType,
    kernel: KernelView,
    pred: ValueId,
    target: ValueId,
    target_param: ParamId,
    row: ValueId,
    col: ValueId,
) -> (KernelView, ValueId, ValueId) {
    match loss {
        LossType::MeanSquaredError => {
            let (raw, loss_val, grad_val) = mse(kernel.raw, pred, target);
            (KernelView { raw, ..kernel }, loss_val, grad_val)
        },
        LossType::BinaryCrossEntropy => {
            let (raw, loss_val, grad_val) = bce(kernel.raw, pred, target);
            (KernelView { raw, ..kernel }, loss_val, grad_val)
        },
        LossType::CrossEntropy => {
            let (raw, loss_val, grad_val) = cross_entropy(
                kernel.raw,
                pred,
                target,
                target_param,
                row,
                col,
            );
            let param = Param {
                dtype: DType::UnsignedInt,
                ..kernel.params[target_param as int]
            };
            (
                KernelView {
                    raw,
                    params: kernel.params.update(target_param as int, param),
                    ..kernel
                },
                loss_val,
                grad_val,
            )
        },
    }
}

impl LossType {
    /// Emits a loss and its gradient, and returns the two values.
    pub fn lower(
        self,
        kernel: &mut Kernel,
        pred: ValueId,
        target: ValueId,
        _pred_param: ParamId,
        target_param: ParamId,
        row: ValueId,
        col: ValueId,
    ) -> (r: (ValueId, ValueId))
        requires
            target < old(kernel)@.raw.values.len(),
            target_param < old(kernel)@.params.len(),
        ensures
            (final(kernel)@, r.0, r.1) == loss_values(
                self,
                old(kernel)@,
                pred,
                target,
                target_param,
                row,
                col,
            ),
    {
        match self {
            Self::MeanSquaredError => emit_mse(&mut kernel.raw, pred, target),
            Self::BinaryCrossEntropy => emit_bce(&mut kernel.raw, pred, target),
            Self::CrossEntropy => {
                kernel.update_param_dtype(target_param, DType::UnsignedInt);
                emit_cross_entropy(&mut kernel.raw, pred, target, target_param, row, col)
            },
        }
    }
}

} // verus!
