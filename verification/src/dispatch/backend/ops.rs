//! The operations of kernel IR.

use vstd::prelude::*;

use crate::dispatch::backend::{Axis, MetaId, ParamId, SharedId, ValueId};
use crate::scalar::Float32;

verus! {

/// An operation of kernel IR.
///
/// An operation either stands in the body of a kernel, where it takes effect, or computes the
/// value that a variable starts with or is assigned.
#[non_exhaustive]
#[derive(Debug, PartialEq)]
#[allow(inconsistent_fields)]
pub enum Op {
    Nop,
    DefineVar { id: ValueId },
    OverwriteVar { id: ValueId, val: Box<Op> },
    AddAssign { id: ValueId, val: Box<Op> },
    MulAssign { id: ValueId, val: Box<Op> },
    DivAssign { id: ValueId, val: Box<Op> },
    SubAssign { id: ValueId, val: Box<Op> },
    ShlAssign { id: ValueId, val: Box<Op> },
    ShrAssign { id: ValueId, val: Box<Op> },
    CopyVar { id: ValueId },
    ConstF32 { value: Float32 },
    ConstU32 { value: u32 },
    ConstI32 { value: i32 },
    ReadMeta { param: ParamId, field: MetaId },
    LocalId { axis: Axis },
    BlockId { axis: Axis },
    GlobalId { axis: Axis },
    Add { a: ValueId, b: ValueId },
    Sub { a: ValueId, b: ValueId },
    Mul { a: ValueId, b: ValueId },
    Div { a: ValueId, b: ValueId },
    Mod { a: ValueId, b: ValueId },
    Pow { a: ValueId, b: ValueId },
    Shl { a: ValueId, b: ValueId },
    Shr { a: ValueId, b: ValueId },
    /// (Fused) Operation `a * b + c`
    Fma { a: ValueId, b: ValueId, c: ValueId },
    Exp { x: ValueId },
    Abs { x: ValueId },
    Neg { x: ValueId },
    Log { x: ValueId },
    Tanh { x: ValueId },
    Sqrt { x: ValueId },
    ParamLoad { param: ParamId, index: ValueId },
    ParamStore { param: ParamId, index: ValueId, value: ValueId },
    ParamAccum { param: ParamId, index: ValueId, value: ValueId },
    ParamMul { param: ParamId, index: ValueId, value: ValueId },
    ParamDiv { param: ParamId, index: ValueId, value: ValueId },
    ParamSub { param: ParamId, index: ValueId, value: ValueId },
    ParamShl { param: ParamId, index: ValueId, value: ValueId },
    ParamShr { param: ParamId, index: ValueId, value: ValueId },
    SharedLoad { mem: SharedId, index: ValueId },
    SharedStore { mem: SharedId, index: ValueId, value: ValueId },
    SharedAccum { mem: SharedId, index: ValueId, value: ValueId },
    SharedMul { mem: SharedId, index: ValueId, value: ValueId },
    SharedDiv { mem: SharedId, index: ValueId, value: ValueId },
    SharedSub { mem: SharedId, index: ValueId, value: ValueId },
    SharedShl { mem: SharedId, index: ValueId, value: ValueId },
    SharedShr { mem: SharedId, index: ValueId, value: ValueId },
    Eq { a: ValueId, b: ValueId },
    Ne { a: ValueId, b: ValueId },
    Lt { a: ValueId, b: ValueId },
    Gt { a: ValueId, b: ValueId },
    Le { a: ValueId, b: ValueId },
    Ge { a: ValueId, b: ValueId },
    Not { cond: ValueId },
    Max { a: ValueId, b: ValueId },
    Min { a: ValueId, b: ValueId },
    Select { cond: ValueId, a: ValueId, b: ValueId },
    ForLoopBegin { index: ValueId, end: ValueId, step: ValueId },
    WhileLoopBegin { cond: Box<Op> },
    ForeverLoopBegin,
    Continue,
    Break,
    IfBegin { cond: ValueId },
    ElseBegin,
    EndScope,
    Barrier,
    Return,
}

impl Op {
    /// The values that the operation reads. An assignment reads what its value reads.
    pub open spec fn operands(self) -> Set<ValueId>
        decreases self,
    {
        match self {
            Self::CopyVar { id } => set![id],
            Self::Exp { x }
            | Self::Abs { x }
            | Self::Neg { x }
            | Self::Log { x }
            | Self::Tanh { x }
            | Self::Sqrt { x } => set![x],
            Self::Not { cond } | Self::IfBegin { cond } => set![cond],
            Self::Add { a, b }
            | Self::Sub { a, b }
            | Self::Mul { a, b }
            | Self::Div { a, b }
            | Self::Mod { a, b }
            | Self::Pow { a, b }
            | Self::Shl { a, b }
            | Self::Shr { a, b }
            | Self::Eq { a, b }
            | Self::Ne { a, b }
            | Self::Lt { a, b }
            | Self::Gt { a, b }
            | Self::Le { a, b }
            | Self::Ge { a, b }
            | Self::Max { a, b }
            | Self::Min { a, b } => set![a, b],
            Self::Fma { a, b, c } => set![a, b, c],
            Self::OverwriteVar { val, .. }
            | Self::AddAssign { val, .. }
            | Self::MulAssign { val, .. }
            | Self::DivAssign { val, .. }
            | Self::SubAssign { val, .. }
            | Self::ShlAssign { val, .. }
            | Self::ShrAssign { val, .. } => (*val).operands(),
            Self::ForLoopBegin { index, end, step } => set![index, end, step],
            Self::WhileLoopBegin { cond } => (*cond).operands(),
            Self::ParamStore { index, value, .. }
            | Self::ParamAccum { index, value, .. }
            | Self::ParamMul { index, value, .. }
            | Self::ParamDiv { index, value, .. }
            | Self::ParamSub { index, value, .. }
            | Self::ParamShl { index, value, .. }
            | Self::ParamShr { index, value, .. }
            | Self::SharedStore { index, value, .. }
            | Self::SharedAccum { index, value, .. }
            | Self::SharedMul { index, value, .. }
            | Self::SharedDiv { index, value, .. }
            | Self::SharedSub { index, value, .. }
            | Self::SharedShl { index, value, .. }
            | Self::SharedShr { index, value, .. } => set![index, value],
            Self::ParamLoad { index, .. } | Self::SharedLoad { index, .. } => set![index],
            Self::Select { cond, a, b } => set![cond, a, b],
            _ => set![],
        }
    }

    /// The variable that the operation defines or assigns, if any.
    pub open spec fn target(self) -> Option<ValueId> {
        match self {
            Self::DefineVar { id }
            | Self::OverwriteVar { id, .. }
            | Self::AddAssign { id, .. }
            | Self::MulAssign { id, .. }
            | Self::DivAssign { id, .. }
            | Self::SubAssign { id, .. }
            | Self::ShlAssign { id, .. }
            | Self::ShrAssign { id, .. } => Some(id),
            _ => None,
        }
    }

    /// Whether the operation is a constant equal to zero.
    pub open spec fn zero(self) -> bool {
        match self {
            Self::ConstF32 { value } => value.zero(),
            Self::ConstI32 { value } => value == 0,
            Self::ConstU32 { value } => value == 0,
            _ => false,
        }
    }

    /// Whether the operation is a constant equal to one.
    pub open spec fn one(self) -> bool {
        match self {
            Self::ConstF32 { value } => value.one(),
            Self::ConstI32 { value } => value == 1,
            Self::ConstU32 { value } => value == 1,
            _ => false,
        }
    }

    /// Whether the operation reads the given value.
    #[must_use]
    pub fn does_read(&self, value_id: ValueId) -> (r: bool)
        ensures
            r == self.operands().contains(value_id),
        decreases self,
    {
        match self {
            Self::CopyVar { id } => *id == value_id,
            Self::Exp { x }
            | Self::Abs { x }
            | Self::Neg { x }
            | Self::Log { x }
            | Self::Tanh { x }
            | Self::Sqrt { x } => *x == value_id,
            Self::Not { cond } | Self::IfBegin { cond } => *cond == value_id,
            Self::Add { a, b }
            | Self::Sub { a, b }
            | Self::Mul { a, b }
            | Self::Div { a, b }
            | Self::Mod { a, b }
            | Self::Pow { a, b }
            | Self::Shl { a, b }
            | Self::Shr { a, b }
            | Self::Eq { a, b }
            | Self::Ne { a, b }
            | Self::Lt { a, b }
            | Self::Gt { a, b }
            | Self::Le { a, b }
            | Self::Ge { a, b }
            | Self::Max { a, b }
            | Self::Min { a, b } => *a == value_id || *b == value_id,
            Self::Fma { a, b, c } => *a == value_id || *b == value_id || *c == value_id,
            Self::OverwriteVar { val, .. }
            | Self::AddAssign { val, .. }
            | Self::MulAssign { val, .. }
            | Self::DivAssign { val, .. }
            | Self::SubAssign { val, .. }
            | Self::ShlAssign { val, .. }
            | Self::ShrAssign { val, .. } => val.does_read(value_id),
            Self::ForLoopBegin { index, end, step } => {
                *index == value_id || *end == value_id || *step == value_id
            },
            Self::WhileLoopBegin { cond } => cond.does_read(value_id),
            Self::ParamStore { index, value, .. }
            | Self::ParamAccum { index, value, .. }
            | Self::ParamMul { index, value, .. }
            | Self::ParamDiv { index, value, .. }
            | Self::ParamSub { index, value, .. }
            | Self::ParamShl { index, value, .. }
            | Self::ParamShr { index, value, .. }
            | Self::SharedStore { index, value, .. }
            | Self::SharedAccum { index, value, .. }
            | Self::SharedMul { index, value, .. }
            | Self::SharedDiv { index, value, .. }
            | Self::SharedSub { index, value, .. }
            | Self::SharedShl { index, value, .. }
            | Self::SharedShr { index, value, .. } => *index == value_id || *value == value_id,
            Self::ParamLoad { index, .. } | Self::SharedLoad { index, .. } => *index == value_id,
            Self::Select { cond, a, b } => {
                *cond == value_id || *a == value_id || *b == value_id
            },
            Self::Nop
            | Self::DefineVar { .. }
            | Self::ConstF32 { .. }
            | Self::ConstU32 { .. }
            | Self::ConstI32 { .. }
            | Self::ReadMeta { .. }
            | Self::LocalId { .. }
            | Self::BlockId { .. }
            | Self::GlobalId { .. }
            | Self::ForeverLoopBegin
            | Self::Continue
            | Self::Break
            | Self::ElseBegin
            | Self::EndScope
            | Self::Barrier
            | Self::Return => false,
        }
    }

    /// Whether the operation defines or assigns the given value.
    #[must_use]
    pub fn does_write(&self, value_id: ValueId) -> (r: bool)
        ensures
            r == (self.target() == Some(value_id)),
    {
        match self.writes_to() {
            Some(id) => id == value_id,
            None => false,
        }
    }

    /// The variable that the operation defines or assigns, if any.
    #[must_use]
    pub fn writes_to(&self) -> (r: Option<ValueId>)
        ensures
            r == self.target(),
    {
        match self {
            Self::DefineVar { id }
            | Self::OverwriteVar { id, .. }
            | Self::AddAssign { id, .. }
            | Self::MulAssign { id, .. }
            | Self::DivAssign { id, .. }
            | Self::SubAssign { id, .. }
            | Self::ShlAssign { id, .. }
            | Self::ShrAssign { id, .. } => Some(*id),
            _ => None,
        }
    }

    /// Whether the operation is a constant equal to zero.
    #[must_use]
    pub fn is_zero(&self) -> (r: bool)
        ensures
            r == self.zero(),
    {
        match self {
            Self::ConstF32 { value } => value.is_zero(),
            Self::ConstI32 { value } => *value == 0,
            Self::ConstU32 { value } => *value == 0,
            _ => false,
        }
    }

    /// Whether the operation is a constant equal to one.
    #[must_use]
    pub fn is_one(&self) -> (r: bool)
        ensures
            r == self.one(),
    {
        match self {
            Self::ConstF32 { value } => value.is_one(),
            Self::ConstI32 { value } => *value == 1,
            Self::ConstU32 { value } => *value == 1,
            _ => false,
        }
    }
}


impl Clone for Op {
    fn clone(&self) -> (r: Self)
        ensures
            r == *self,
        decreases self,
    {
        match self {
            Self::Nop => Self::Nop,
            Self::DefineVar { id } => Self::DefineVar { id: *id },
            Self::OverwriteVar { id, val } => {
                Self::OverwriteVar { id: *id, val: Box::new((**val).clone()) }
            },
            Self::AddAssign { id, val } => {
                Self::AddAssign { id: *id, val: Box::new((**val).clone()) }
            },
            Self::MulAssign { id, val } => {
                Self::MulAssign { id: *id, val: Box::new((**val).clone()) }
            },
            Self::DivAssign { id, val } => {
                Self::DivAssign { id: *id, val: Box::new((**val).clone()) }
            },
            Self::SubAssign { id, val } => {
                Self::SubAssign { id: *id, val: Box::new((**val).clone()) }
            },
            Self::ShlAssign { id, val } => {
                Self::ShlAssign { id: *id, val: Box::new((**val).clone()) }
            },
            Self::ShrAssign { id, val } => {
                Self::ShrAssign { id: *id, val: Box::new((**val).clone()) }
            },
            Self::CopyVar { id } => Self::CopyVar { id: *id },
            Self::ConstF32 { value } => Self::ConstF32 { value: *value },
            Self::ConstU32 { value } => Self::ConstU32 { value: *value },
            Self::ConstI32 { value } => Self::ConstI32 { value: *value },
            Self::ReadMeta { param, field } => Self::ReadMeta { param: *param, field: *field },
            Self::LocalId { axis } => Self::LocalId { axis: *axis },
            Self::BlockId { axis } => Self::BlockId { axis: *axis },
            Self::GlobalId { axis } => Self::GlobalId { axis: *axis },
            Self::Add { a, b } => Self::Add { a: *a, b: *b },
            Self::Sub { a, b } => Self::Sub { a: *a, b: *b },
            Self::Mul { a, b } => Self::Mul { a: *a, b: *b },
            Self::Div { a, b } => Self::Div { a: *a, b: *b },
            Self::Mod { a, b } => Self::Mod { a: *a, b: *b },
            Self::Pow { a, b } => Self::Pow { a: *a, b: *b },
            Self::Shl { a, b } => Self::Shl { a: *a, b: *b },
            Self::Shr { a, b } => Self::Shr { a: *a, b: *b },
            Self::Fma { a, b, c } => Self::Fma { a: *a, b: *b, c: *c },
            Self::Exp { x } => Self::Exp { x: *x },
            Self::Abs { x } => Self::Abs { x: *x },
            Self::Neg { x } => Self::Neg { x: *x },
            Self::Log { x } => Self::Log { x: *x },
            Self::Tanh { x } => Self::Tanh { x: *x },
            Self::Sqrt { x } => Self::Sqrt { x: *x },
            Self::ParamLoad { param, index } => Self::ParamLoad { param: *param, index: *index },
            Self::ParamStore { param, index, value } => {
                Self::ParamStore { param: *param, index: *index, value: *value }
            },
            Self::ParamAccum { param, index, value } => {
                Self::ParamAccum { param: *param, index: *index, value: *value }
            },
            Self::ParamMul { param, index, value } => {
                Self::ParamMul { param: *param, index: *index, value: *value }
            },
            Self::ParamDiv { param, index, value } => {
                Self::ParamDiv { param: *param, index: *index, value: *value }
            },
            Self::ParamSub { param, index, value } => {
                Self::ParamSub { param: *param, index: *index, value: *value }
            },
            Self::ParamShl { param, index, value } => {
                Self::ParamShl { param: *param, index: *index, value: *value }
            },
            Self::ParamShr { param, index, value } => {
                Self::ParamShr { param: *param, index: *index, value: *value }
            },
            Self::SharedLoad { mem, index } => Self::SharedLoad { mem: *mem, index: *index },
            Self::SharedStore { mem, index, value } => {
                Self::SharedStore { mem: *mem, index: *index, value: *value }
            },
            Self::SharedAccum { mem, index, value } => {
                Self::SharedAccum { mem: *mem, index: *index, value: *value }
            },
            Self::SharedMul { mem, index, value } => {
                Self::SharedMul { mem: *mem, index: *index, value: *value }
            },
            Self::SharedDiv { mem, index, value } => {
                Self::SharedDiv { mem: *mem, index: *index, value: *value }
            },
            Self::SharedSub { mem, index, value } => {
                Self::SharedSub { mem: *mem, index: *index, value: *value }
            },
            Self::SharedShl { mem, index, value } => {
                Self::SharedShl { mem: *mem, index: *index, value: *value }
            },
            Self::SharedShr { mem, index, value } => {
                Self::SharedShr { mem: *mem, index: *index, value: *value }
            },
            Self::Eq { a, b } => Self::Eq { a: *a, b: *b },
            Self::Ne { a, b } => Self::Ne { a: *a, b: *b },
            Self::Lt { a, b } => Self::Lt { a: *a, b: *b },
            Self::Gt { a, b } => Self::Gt { a: *a, b: *b },
            Self::Le { a, b } => Self::Le { a: *a, b: *b },
            Self::Ge { a, b } => Self::Ge { a: *a, b: *b },
            Self::Not { cond } => Self::Not { cond: *cond },
            Self::Max { a, b } => Self::Max { a: *a, b: *b },
            Self::Min { a, b } => Self::Min { a: *a, b: *b },
            Self::Select { cond, a, b } => Self::Select { cond: *cond, a: *a, b: *b },
            Self::ForLoopBegin { index, end, step } => {
                Self::ForLoopBegin { index: *index, end: *end, step: *step }
            },
            Self::WhileLoopBegin { cond } => {
                Self::WhileLoopBegin { cond: Box::new((**cond).clone()) }
            },
            Self::ForeverLoopBegin => Self::ForeverLoopBegin,
            Self::Continue => Self::Continue,
            Self::Break => Self::Break,
            Self::IfBegin { cond } => Self::IfBegin { cond: *cond },
            Self::ElseBegin => Self::ElseBegin,
            Self::EndScope => Self::EndScope,
            Self::Barrier => Self::Barrier,
            Self::Return => Self::Return,
        }
    }
}

} // verus!
