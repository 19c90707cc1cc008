//! Kernels under construction, and the operations that build them.

use vstd::prelude::*;

use crate::dispatch::backend::{
    DType, GraphOp, MetaId, Metadata, NodeId, Op, Param, ParamId, SharedAlloc, SharedId, Value,
    ValueId, ValueState,
};
use crate::errors::Error;

verus! {

/// The contents of a [`RawKernel`].
#[verifier::ext_equal]
pub struct RawView {
    pub meta: Metadata,
    pub shared: Seq<SharedAlloc>,
    pub values: Seq<Value>,
    pub ops: Seq<Op>,
    pub block: Seq<u32>,
    pub iter_space: Seq<MetaId>,
    pub root: NodeId,
}

impl RawView {
    /// The kernel with a new value, which is numbered after the ones before it, and the operation
    /// that defines it.
    #[verifier::opaque]
    pub open spec fn def(self, dtype: DType, state: ValueState, init: Option<Op>) -> (
        RawView,
        ValueId,
    ) {
        let id = self.values.len() as usize;
        (
            RawView {
                values: self.values.push(Value { state, dtype, init }),
                ops: self.ops.push(Op::DefineVar { id }),
                ..self
            },
            id,
        )
    }

    /// The kernel with one more operation at its end.
    #[verifier::opaque]
    pub open spec fn emit(self, op: Op) -> RawView {
        RawView { ops: self.ops.push(op), ..self }
    }

    /// The kernel with `op` assigned to a variable.
    pub open spec fn assign(self, id: ValueId, op: Op) -> RawView {
        self.emit(Op::OverwriteVar { id, val: Box::new(op) })
    }

    /// The kernel with `op` added to a variable.
    pub open spec fn accum(self, id: ValueId, op: Op) -> RawView {
        self.emit(Op::AddAssign { id, val: Box::new(op) })
    }

    /// The kernel with a new shared buffer, which is numbered after the ones before it.
    #[verifier::opaque]
    pub open spec fn share(self, dtype: DType, size: u32) -> (RawView, SharedId) {
        (
            RawView { shared: self.shared.push(SharedAlloc { dtype, size }), ..self },
            self.shared.len() as usize,
        )
    }

    /// The kernel with another state of one value.
    #[verifier::opaque]
    pub open spec fn with_state(self, id: ValueId, state: ValueState) -> RawView {
        RawView {
            values: self.values.update(
                id as int,
                Value { state, ..self.values[id as int] },
            ),
            ..self
        }
    }

    /// The kernel with another data type of one value.
    #[verifier::opaque]
    pub open spec fn with_dtype(self, id: ValueId, dtype: DType) -> RawView {
        RawView {
            values: self.values.update(
                id as int,
                Value { dtype, ..self.values[id as int] },
            ),
            ..self
        }
    }

    /// The kernel with another initial value of one value.
    #[verifier::opaque]
    pub open spec fn with_init(self, id: ValueId, init: Op) -> RawView {
        RawView {
            values: self.values.update(
                id as int,
                Value { init: Some(init), ..self.values[id as int] },
            ),
            ..self
        }
    }

    /// The kernel with a new number that stands wherever it is read.
    pub open spec fn inline_f(self, op: Op) -> (RawView, ValueId) {
        self.def(DType::Float, ValueState::Inline, Some(op))
    }

    /// The kernel with a new number that is computed once.
    pub open spec fn let_f(self, op: Op) -> (RawView, ValueId) {
        self.def(DType::Float, ValueState::Immut, Some(op))
    }

    /// The kernel with a new number that changes and starts with `op`.
    pub open spec fn var_f(self, op: Op) -> (RawView, ValueId) {
        self.def(DType::Float, ValueState::Mut, Some(op))
    }

    /// The kernel with a new unsigned integer that stands wherever it is read.
    pub open spec fn inline_u(self, op: Op) -> (RawView, ValueId) {
        self.def(DType::UnsignedInt, ValueState::Inline, Some(op))
    }

    /// The kernel with a new unsigned integer that is computed once.
    pub open spec fn let_u(self, op: Op) -> (RawView, ValueId) {
        self.def(DType::UnsignedInt, ValueState::Immut, Some(op))
    }

    /// The kernel with a new unsigned integer that changes and starts with `op`.
    pub open spec fn var_u(self, op: Op) -> (RawView, ValueId) {
        self.def(DType::UnsignedInt, ValueState::Mut, Some(op))
    }

    /// The kernel with a new truth value that stands wherever it is read.
    pub open spec fn inline_b(self, op: Op) -> (RawView, ValueId) {
        self.def(DType::Bool, ValueState::Inline, Some(op))
    }
}

/// The contents of a [`LinkedKernel`].
#[verifier::ext_equal]
pub struct LinkedView {
    pub raw: RawView,
    pub params: Seq<bool>,
    pub meta: Seq<bool>,
    pub ops: Seq<GraphOp>,
}

impl LinkedView {
    /// The kernel with a new value.
    pub open spec fn def(self, dtype: DType, state: ValueState, init: Option<Op>) -> (
        LinkedView,
        ValueId,
    ) {
        let (raw, id) = self.raw.def(dtype, state, init);
        (LinkedView { raw, ..self }, id)
    }

    /// The kernel with one more operation at its end.
    pub open spec fn emit(self, op: Op) -> LinkedView {
        LinkedView { raw: self.raw.emit(op), ..self }
    }

    /// The kernel with `op` assigned to a variable.
    pub open spec fn assign(self, id: ValueId, op: Op) -> LinkedView {
        LinkedView { raw: self.raw.assign(id, op), ..self }
    }

    /// The kernel with `op` added to a variable.
    pub open spec fn accum(self, id: ValueId, op: Op) -> LinkedView {
        LinkedView { raw: self.raw.accum(id, op), ..self }
    }

    /// The kernel with a new shared buffer.
    pub open spec fn share(self, dtype: DType, size: u32) -> (LinkedView, SharedId) {
        let (raw, id) = self.raw.share(dtype, size);
        (LinkedView { raw, ..self }, id)
    }

    /// The kernel with a parameter marked as used.
    pub open spec fn param(self, id: ParamId) -> LinkedView {
        LinkedView { params: self.params.update(id as int, true), ..self }
    }

    /// The kernel with a metadata field marked as used.
    pub open spec fn field(self, field: MetaId) -> LinkedView {
        LinkedView { meta: self.meta.update(field as int, true), ..self }
    }

    /// The kernel with a store of a value to a parameter.
    pub open spec fn store(self, param: ParamId, index: ValueId, value: ValueId) -> LinkedView {
        self.param(param).emit(Op::ParamStore { param, index, value })
    }

    /// The kernel with one more graph operation that it computes.
    pub open spec fn computes(self, op: GraphOp) -> LinkedView {
        LinkedView { ops: self.ops.push(op), ..self }
    }
}

/// A kernel: its values, shared buffers and operations, and how it is launched.
#[derive(Debug)]
pub struct RawKernel {
    pub meta: Metadata,
    pub shared: Vec<SharedAlloc>,
    pub values: Vec<Value>,
    pub ops: Vec<Op>,
    pub block: [u32; 3],
    pub iter_space: Vec<MetaId>,
    pub root: NodeId,
}

impl View for RawKernel {
    type V = RawView;

    open spec fn view(&self) -> RawView {
        RawView {
            meta: self.meta,
            shared: self.shared@,
            values: self.values@,
            ops: self.ops@,
            block: self.block@,
            iter_space: self.iter_space@,
            root: self.root,
        }
    }
}

impl RawKernel {
    /// Appends an operation.
    pub fn emit(&mut self, op: Op)
        ensures
            final(self)@ == old(self)@.emit(op),
            final(self)@.values.len() == old(self)@.values.len(),
    {
        reveal(RawView::emit);
        self.ops.push(op);
    }

    /// Defines a new value and returns its identifier.
    pub fn def_var(&mut self, dtype: DType, state: ValueState, init: Option<Op>) -> (id: ValueId)
        ensures
            (final(self)@, id) == old(self)@.def(dtype, state, init),
            id == old(self)@.values.len(),
            final(self)@.values.len() == id + 1,
    {
        reveal(RawView::def);
        let id: ValueId = self.values.len();
        self.values.push(Value { state, dtype, init });
        self.ops.push(Op::DefineVar { id });
        id
    }

    /// Defines a number that stands wherever it is read.
    pub(crate) fn inline_f(&mut self, op: Op) -> (id: ValueId)
        ensures
            (final(self)@, id) == old(self)@.inline_f(op),
            id == old(self)@.values.len(),
            final(self)@.values.len() == id + 1,
    {
        self.def_var(DType::Float, ValueState::Inline, Some(op))
    }

    /// Defines a number that is computed once.
    pub(crate) fn let_f(&mut self, op: Op) -> (id: ValueId)
        ensures
            (final(self)@, id) == old(self)@.let_f(op),
            id == old(self)@.values.len(),
            final(self)@.values.len() == id + 1,
    {
        self.def_var(DType::Float, ValueState::Immut, Some(op))
    }

    /// Defines a number that changes.
    pub(crate) fn var_f(&mut self, op: Op) -> (id: ValueId)
        ensures
            (final(self)@, id) == old(self)@.var_f(op),
            id == old(self)@.values.len(),
            final(self)@.values.len() == id + 1,
    {
        self.def_var(DType::Float, ValueState::Mut, Some(op))
    }

    /// Defines an unsigned integer that stands wherever it is read.
    pub(crate) fn inline_u(&mut self, op: Op) -> (id: ValueId)
        ensures
            (final(self)@, id) == old(self)@.inline_u(op),
            id == old(self)@.values.len(),
            final(self)@.values.len() == id + 1,
    {
        self.def_var(DType::UnsignedInt, ValueState::Inline, Some(op))
    }

    /// Defines an unsigned integer that is computed once.
    pub(crate) fn let_u(&mut self, op: Op) -> (id: ValueId)
        ensures
            (final(self)@, id) == old(self)@.let_u(op),
            id == old(self)@.values.len(),
            final(self)@.values.len() == id + 1,
    {
        self.def_var(DType::UnsignedInt, ValueState::Immut, Some(op))
    }

    /// Defines an unsigned integer that changes.
    pub(crate) fn var_u(&mut self, op: Op) -> (id: ValueId)
        ensures
            (final(self)@, id) == old(self)@.var_u(op),
            id == old(self)@.values.len(),
            final(self)@.values.len() == id + 1,
    {
        self.def_var(DType::UnsignedInt, ValueState::Mut, Some(op))
    }

    /// Defines a truth value that stands wherever it is read.
    pub(crate) fn inline_b(&mut self, op: Op) -> (id: ValueId)
        ensures
            (final(self)@, id) == old(self)@.inline_b(op),
            id == old(self)@.values.len(),
            final(self)@.values.len() == id + 1,
    {
        self.def_var(DType::Bool, ValueState::Inline, Some(op))
    }

    /// Assigns a variable.
    pub fn overwrite_var(&mut self, id: ValueId, op: Op)
        ensures
            final(self)@ == old(self)@.assign(id, op),
            final(self)@.values.len() == old(self)@.values.len(),
    {
        self.emit(Op::OverwriteVar { id, val: Box::new(op) });
    }

    /// Adds to a variable.
    pub fn accum_var(&mut self, id: ValueId, op: Op)
        ensures
            final(self)@ == old(self)@.accum(id, op),
            final(self)@.values.len() == old(self)@.values.len(),
    {
        self.emit(Op::AddAssign { id, val: Box::new(op) });
    }

    /// Multiplies a variable.
    pub fn mul_assign_var(&mut self, id: ValueId, op: Op)
        ensures
            final(self)@ == old(self)@.emit(Op::MulAssign { id, val: Box::new(op) }),
            final(self)@.values.len() == old(self)@.values.len(),
    {
        self.emit(Op::MulAssign { id, val: Box::new(op) });
    }

    /// Divides a variable.
    pub fn div_assign_var(&mut self, id: ValueId, op: Op)
        ensures
            final(self)@ == old(self)@.emit(Op::DivAssign { id, val: Box::new(op) }),
            final(self)@.values.len() == old(self)@.values.len(),
    {
        self.emit(Op::DivAssign { id, val: Box::new(op) });
    }

    /// Subtracts from a variable.
    pub fn sub_assign_var(&mut self, id: ValueId, op: Op)
        ensures
            final(self)@ == old(self)@.emit(Op::SubAssign { id, val: Box::new(op) }),
            final(self)@.values.len() == old(self)@.values.len(),
    {
        self.emit(Op::SubAssign { id, val: Box::new(op) });
    }

    /// Shifts a variable left.
    pub fn shl_assign_var(&mut self, id: ValueId, op: Op)
        ensures
            final(self)@ == old(self)@.emit(Op::ShlAssign { id, val: Box::new(op) }),
            final(self)@.values.len() == old(self)@.values.len(),
    {
        self.emit(Op::ShlAssign { id, val: Box::new(op) });
    }

    /// Shifts a variable right.
    pub fn shr_assign_var(&mut self, id: ValueId, op: Op)
        ensures
            final(self)@ == old(self)@.emit(Op::ShrAssign { id, val: Box::new(op) }),
            final(self)@.values.len() == old(self)@.values.len(),
    {
        self.emit(Op::ShrAssign { id, val: Box::new(op) });
    }

    /// Sets the state of a value.
    pub fn update_var_state(&mut self, id: ValueId, state: ValueState)
        requires
            id < old(self)@.values.len(),
        ensures
            final(self)@ == old(self)@.with_state(id, state),
            final(self)@.values.len() == old(self)@.values.len(),
    {
        reveal(RawView::with_state);
        self.values[id].state = state;
    }

    /// Sets the data type of a value.
    pub fn update_var_dtype(&mut self, id: ValueId, dtype: DType)
        requires
            id < old(self)@.values.len(),
        ensures
            final(self)@ == old(self)@.with_dtype(id, dtype),
            final(self)@.values.len() == old(self)@.values.len(),
    {
        reveal(RawView::with_dtype);
        self.values[id].dtype = dtype;
    }

    /// Sets what a value starts with.
    pub fn update_var_init(&mut self, id: ValueId, init: Op)
        requires
            id < old(self)@.values.len(),
        ensures
            final(self)@ == old(self)@.with_init(id, init),
            final(self)@.values.len() == old(self)@.values.len(),
    {
        reveal(RawView::with_init);
        self.values[id].init = Some(init);
    }

    /// Defines a new shared buffer and returns its identifier.
    pub fn new_shared(&mut self, dtype: DType, size: u32) -> (id: SharedId)
        ensures
            (final(self)@, id) == old(self)@.share(dtype, size),
    {
        reveal(RawView::share);
        let id: SharedId = self.shared.len();
        self.shared.push(SharedAlloc { dtype, size });
        id
    }

    /// Appends a barrier.
    pub fn push_barrier(&mut self)
        ensures
            final(self)@ == old(self)@.emit(Op::Barrier),
    {
        self.emit(Op::Barrier);
    }

    /// Appends a return.
    pub fn push_return(&mut self)
        ensures
            final(self)@ == old(self)@.emit(Op::Return),
    {
        self.emit(Op::Return);
    }

    /// Appends a continue.
    pub fn push_continue(&mut self)
        ensures
            final(self)@ == old(self)@.emit(Op::Continue),
    {
        self.emit(Op::Continue);
    }

    /// Appends a break.
    pub fn push_break(&mut self)
        ensures
            final(self)@ == old(self)@.emit(Op::Break),
    {
        self.emit(Op::Break);
    }

    /// Stores a value to a shared buffer.
    pub fn shared_store(&mut self, mem: SharedId, index: ValueId, value: ValueId)
        ensures
            final(self)@ == old(self)@.emit(Op::SharedStore { mem, index, value }),
    {
        self.emit(Op::SharedStore { mem, index, value });
    }

    /// Adds a value to a shared buffer.
    pub fn shared_accum(&mut self, mem: SharedId, index: ValueId, value: ValueId)
        ensures
            final(self)@ == old(self)@.emit(Op::SharedAccum { mem, index, value }),
    {
        self.emit(Op::SharedAccum { mem, index, value });
    }

    /// Multiplies a shared buffer by a value.
    pub fn shared_mul(&mut self, mem: SharedId, index: ValueId, value: ValueId)
        ensures
            final(self)@ == old(self)@.emit(Op::SharedMul { mem, index, value }),
    {
        self.emit(Op::SharedMul { mem, index, value });
    }

    /// Divides a shared buffer by a value.
    pub fn shared_div(&mut self, mem: SharedId, index: ValueId, value: ValueId)
        ensures
            final(self)@ == old(self)@.emit(Op::SharedDiv { mem, index, value }),
    {
        self.emit(Op::SharedDiv { mem, index, value });
    }

    /// Subtracts a value from a shared buffer.
    pub fn shared_sub(&mut self, mem: SharedId, index: ValueId, value: ValueId)
        ensures
            final(self)@ == old(self)@.emit(Op::SharedSub { mem, index, value }),
    {
        self.emit(Op::SharedSub { mem, index, value });
    }

    /// Shifts a shared buffer left by a value.
    pub fn shared_shl(&mut self, mem: SharedId, index: ValueId, value: ValueId)
        ensures
            final(self)@ == old(self)@.emit(Op::SharedShl { mem, index, value }),
    {
        self.emit(Op::SharedShl { mem, index, value });
    }

    /// Shifts a shared buffer right by a value.
    pub fn shared_shr(&mut self, mem: SharedId, index: ValueId, value: ValueId)
        ensures
            final(self)@ == old(self)@.emit(Op::SharedShr { mem, index, value }),
    {
        self.emit(Op::SharedShr { mem, index, value });
    }

    /// Appends what `content` appends, under a condition.
    ///
    /// The scope is closed whatever the content returns.
    pub fn push_if<F: FnOnce(&mut Self) -> Result<R, Error>, R>(
        &mut self,
        cond: ValueId,
        content: F,
    ) -> (ret: Result<R, Error>)
        requires
            forall|k: &mut Self|
                (*k)@ == old(self)@.emit(Op::IfBegin { cond })
                    ==> #[trigger] content.requires((k,)),
        ensures
            exists|k: &mut Self|
                (*k)@ == old(self)@.emit(Op::IfBegin { cond })
                    && #[trigger] content.ensures((k,), ret)
                    && final(self)@ == (*final(k))@.emit(Op::EndScope),
    {
        self.emit(Op::IfBegin { cond });
        let ret = content(self);
        self.emit(Op::EndScope);
        ret
    }

    /// Appends what the first content appends under a condition, and what the second appends
    /// otherwise.
    ///
    /// An error of either content is returned at once, and leaves its scope open.
    pub fn push_if_else<
        F: FnOnce(&mut Self) -> Result<(), Error>,
        G: FnOnce(&mut Self) -> Result<(), Error>,
    >(&mut self, cond: ValueId, content: F, else_content: G) -> (ret: Result<(), Error>)
        requires
            forall|k: &mut Self|
                (*k)@ == old(self)@.emit(Op::IfBegin { cond }) ==> #[trigger] content.requires(
                    (k,),
                ),
            forall|k: &mut Self, first: Result<(), Error>, l: &mut Self|
                (*k)@ == old(self)@.emit(Op::IfBegin { cond }) && #[trigger] content.ensures(
                    (k,),
                    first,
                ) && first is Ok && (*l)@ == (*final(k))@.emit(Op::EndScope).emit(Op::ElseBegin)
                    ==> #[trigger] else_content.requires((l,)),
        ensures
            ({
                ||| exists|k: &mut Self|
                    {
                        &&& (*k)@ == old(self)@.emit(Op::IfBegin { cond })
                        &&& #[trigger] content.ensures((k,), ret)
                        &&& ret is Err
                        &&& final(self)@ == (*final(k))@
                    }
                ||| exists|k: &mut Self, first: Result<(), Error>, l: &mut Self|
                    {
                        &&& (*k)@ == old(self)@.emit(Op::IfBegin { cond })
                        &&& #[trigger] content.ensures((k,), first)
                        &&& first is Ok
                        &&& (*l)@ == (*final(k))@.emit(Op::EndScope).emit(Op::ElseBegin)
                        &&& #[trigger] else_content.ensures((l,), ret)
                        &&& final(self)@ == if ret is Ok {
                            (*final(l))@.emit(Op::EndScope)
                        } else {
                            (*final(l))@
                        }
                    }
            }),
    {
        self.emit(Op::IfBegin { cond });
        let first = content(self);
        if first.is_err() {
            return first;
        }
        self.emit(Op::EndScope);
        self.emit(Op::ElseBegin);
        let second = else_content(self);
        if second.is_ok() {
            self.emit(Op::EndScope);
        }
        second
    }

    /// Appends what `content` appends, in a loop that counts a variable up to an end.
    ///
    /// The scope is closed whatever the content returns.
    pub fn push_for_loop<F: FnOnce(&mut Self) -> Result<R, Error>, R>(
        &mut self,
        index: ValueId,
        end: ValueId,
        step: ValueId,
        content: F,
    ) -> (ret: Result<R, Error>)
        requires
            forall|k: &mut Self|
                (*k)@ == old(self)@.emit(Op::ForLoopBegin { index, end, step })
                    ==> #[trigger] content.requires((k,)),
        ensures
            exists|k: &mut Self|
                (*k)@ == old(self)@.emit(Op::ForLoopBegin { index, end, step })
                    && #[trigger] content.ensures((k,), ret)
                    && final(self)@ == (*final(k))@.emit(Op::EndScope),
    {
        self.emit(Op::ForLoopBegin { index, end, step });
        let ret = content(self);
        self.emit(Op::EndScope);
        ret
    }

    /// Appends what `content` appends, in a loop that runs while a condition holds.
    ///
    /// The scope is closed whatever the content returns.
    pub fn push_while_loop<F: FnOnce(&mut Self) -> Result<R, Error>, R>(
        &mut self,
        cond: Op,
        content: F,
    ) -> (ret: Result<R, Error>)
        requires
            forall|k: &mut Self|
                (*k)@ == old(self)@.emit((Op::WhileLoopBegin { cond: Box::new(cond) }))
                    ==> #[trigger] content.requires((k,)),
        ensures
            exists|k: &mut Self|
                (*k)@ == old(self)@.emit((Op::WhileLoopBegin { cond: Box::new(cond) }))
                    && #[trigger] content.ensures((k,), ret)
                    && final(self)@ == (*final(k))@.emit(Op::EndScope),
    {
        self.emit(Op::WhileLoopBegin { cond: Box::new(cond) });
        let ret = content(self);
        self.emit(Op::EndScope);
        ret
    }

    /// Appends what `content` appends, in a loop that only a break leaves.
    ///
    /// The scope is closed whatever the content returns.
    pub fn push_forever_loop<F: FnOnce(&mut Self) -> Result<R, Error>, R>(
        &mut self,
        content: F,
    ) -> (ret: Result<R, Error>)
        requires
            forall|k: &mut Self|
                (*k)@ == old(self)@.emit(Op::ForeverLoopBegin)
                    ==> #[trigger] content.requires((k,)),
        ensures
            exists|k: &mut Self|
                (*k)@ == old(self)@.emit(Op::ForeverLoopBegin)
                    && #[trigger] content.ensures((k,), ret)
                    && final(self)@ == (*final(k))@.emit(Op::EndScope),
    {
        self.emit(Op::ForeverLoopBegin);
        let ret = content(self);
        self.emit(Op::EndScope);
        ret
    }

    /// Stores a value to a parameter.
    pub fn param_store(&mut self, param: ParamId, index: ValueId, value: ValueId)
        ensures
            final(self)@ == old(self)@.emit(Op::ParamStore { param, index, value }),
    {
        self.emit(Op::ParamStore { param, index, value });
    }

    /// Adds a value to a parameter.
    pub fn param_accum(&mut self, param: ParamId, index: ValueId, value: ValueId)
        ensures
            final(self)@ == old(self)@.emit(Op::ParamAccum { param, index, value }),
    {
        self.emit(Op::ParamAccum { param, index, value });
    }

    /// Multiplies a parameter by a value.
    pub fn param_mul(&mut self, param: ParamId, index: ValueId, value: ValueId)
        ensures
            final(self)@ == old(self)@.emit(Op::ParamMul { param, index, value }),
    {
        self.emit(Op::ParamMul { param, index, value });
    }

    /// Divides a parameter by a value.
    pub fn param_div(&mut self, param: ParamId, index: ValueId, value: ValueId)
        ensures
            final(self)@ == old(self)@.emit(Op::ParamDiv { param, index, value }),
    {
        self.emit(Op::ParamDiv { param, index, value });
    }

    /// Subtracts a value from a parameter.
    pub fn param_sub(&mut self, param: ParamId, index: ValueId, value: ValueId)
        ensures
            final(self)@ == old(self)@.emit(Op::ParamSub { param, index, value }),
    {
        self.emit(Op::ParamSub { param, index, value });
    }

    /// Shifts a parameter left by a value.
    pub fn param_shl(&mut self, param: ParamId, index: ValueId, value: ValueId)
        ensures
            final(self)@ == old(self)@.emit(Op::ParamShl { param, index, value }),
    {
        self.emit(Op::ParamShl { param, index, value });
    }

    /// Shifts a parameter right by a value.
    pub fn param_shr(&mut self, param: ParamId, index: ValueId, value: ValueId)
        ensures
            final(self)@ == old(self)@.emit(Op::ParamShr { param, index, value }),
    {
        self.emit(Op::ParamShr { param, index, value });
    }
}

/// A kernel with the parameters that its source declares.
#[derive(Debug)]
pub struct Kernel {
    pub raw: RawKernel,
    pub params: Vec<Param>,
    pub meta: Vec<bool>,
}

/// The contents of a [`Kernel`].
#[verifier::ext_equal]
pub struct KernelView {
    pub raw: RawView,
    pub params: Seq<Param>,
    pub meta: Seq<bool>,
}

impl View for Kernel {
    type V = KernelView;

    open spec fn view(&self) -> KernelView {
        KernelView { raw: self.raw@, params: self.params@, meta: self.meta@ }
    }
}

impl Kernel {
    /// Sets the data type of a parameter.
    pub fn update_param_dtype(&mut self, id: ValueId, dtype: DType)
        requires
            id < old(self).params@.len(),
        ensures
            final(self)@ == (KernelView {
                params: old(self).params@.update(
                    id as int,
                    Param { dtype, ..old(self).params@[id as int] },
                ),
                ..old(self)@
            }),
    {
        self.params[id].dtype = dtype;
    }

    /// Marks a metadata field as used.
    pub fn register_meta(&mut self, field: MetaId)
        requires
            field < old(self).meta@.len(),
        ensures
            final(self)@ == (KernelView {
                meta: old(self).meta@.update(field as int, true),
                ..old(self)@
            }),
    {
        self.meta[field] = true;
    }

    /// Marks a metadata field as not used.
    pub fn unregister_meta(&mut self, field: MetaId)
        requires
            field < old(self).meta@.len(),
        ensures
            final(self)@ == (KernelView {
                meta: old(self).meta@.update(field as int, false),
                ..old(self)@
            }),
    {
        self.meta[field] = false;
    }
}

/// A kernel with the parameters and metadata fields it uses, among those of all the kernels of a
/// pass, and the graph operations it computes.
#[derive(Debug)]
pub struct LinkedKernel {
    pub raw: RawKernel,
    pub params: Vec<bool>,
    pub meta: Vec<bool>,
    pub ops: Vec<GraphOp>,
}

impl View for LinkedKernel {
    type V = LinkedView;

    open spec fn view(&self) -> LinkedView {
        LinkedView {
            raw: self.raw@,
            params: self.params@,
            meta: self.meta@,
            ops: self.ops@,
        }
    }
}

impl LinkedKernel {
    /// Marks a parameter as used.
    pub fn register_param(&mut self, id: ParamId)
        requires
            id < old(self).params@.len(),
        ensures
            final(self)@ == old(self)@.param(id),
    {
        self.params[id] = true;
    }

    /// Marks a metadata field as used.
    pub fn register_meta(&mut self, field: MetaId)
        requires
            field < old(self).meta@.len(),
        ensures
            final(self)@ == old(self)@.field(field),
    {
        self.meta[field] = true;
    }

    /// Marks a parameter as not used.
    pub fn unregister_param(&mut self, id: ParamId)
        requires
            id < old(self).params@.len(),
        ensures
            final(self)@ == (LinkedView {
                params: old(self).params@.update(id as int, false),
                ..old(self)@
            }),
    {
        self.params[id] = false;
    }

    /// Marks a metadata field as not used.
    pub fn unregister_meta(&mut self, field: MetaId)
        requires
            field < old(self).meta@.len(),
        ensures
            final(self)@ == (LinkedView {
                meta: old(self).meta@.update(field as int, false),
                ..old(self)@
            }),
    {
        self.meta[field] = false;
    }

    /// Appends what `content` appends, under a condition.
    ///
    /// The scope is closed whatever the content returns.
    pub fn push_if<F: FnOnce(&mut Self) -> Result<R, Error>, R>(
        &mut self,
        cond: ValueId,
        content: F,
    ) -> (ret: Result<R, Error>)
        requires
            forall|k: &mut Self|
                (*k)@ == old(self)@.emit(Op::IfBegin { cond })
                    ==> #[trigger] content.requires((k,)),
        ensures
            exists|k: &mut Self|
                (*k)@ == old(self)@.emit(Op::IfBegin { cond })
                    && #[trigger] content.ensures((k,), ret)
                    && final(self)@ == (*final(k))@.emit(Op::EndScope),
    {
        self.raw.emit(Op::IfBegin { cond });
        let ret = content(self);
        self.raw.emit(Op::EndScope);
        ret
    }

    /// Appends what the first content appends under a condition, and what the second appends
    /// otherwise.
    ///
    /// An error of either content is returned at once, and leaves its scope open.
    pub fn push_if_else<
        F: FnOnce(&mut Self) -> Result<(), Error>,
        G: FnOnce(&mut Self) -> Result<(), Error>,
    >(&mut self, cond: ValueId, content: F, else_content: G) -> (ret: Result<(), Error>)
        requires
            forall|k: &mut Self|
                (*k)@ == old(self)@.emit(Op::IfBegin { cond }) ==> #[trigger] content.requires(
                    (k,),
                ),
            forall|k: &mut Self, first: Result<(), Error>, l: &mut Self|
                (*k)@ == old(self)@.emit(Op::IfBegin { cond }) && #[trigger] content.ensures(
                    (k,),
                    first,
                ) && first is Ok && (*l)@ == (*final(k))@.emit(Op::EndScope).emit(Op::ElseBegin)
                    ==> #[trigger] else_content.requires((l,)),
        ensures
            ({
                ||| exists|k: &mut Self|
                    {
                        &&& (*k)@ == old(self)@.emit(Op::IfBegin { cond })
                        &&& #[trigger] content.ensures((k,), ret)
                        &&& ret is Err
                        &&& final(self)@ == (*final(k))@
                    }
                ||| exists|k: &mut Self, first: Result<(), Error>, l: &mut Self|
                    {
                        &&& (*k)@ == old(self)@.emit(Op::IfBegin { cond })
                        &&& #[trigger] content.ensures((k,), first)
                        &&& first is Ok
                        &&& (*l)@ == (*final(k))@.emit(Op::EndScope).emit(Op::ElseBegin)
                        &&& #[trigger] else_content.ensures((l,), ret)
                        &&& final(self)@ == if ret is Ok {
                            (*final(l))@.emit(Op::EndScope)
                        } else {
                            (*final(l))@
                        }
                    }
            }),
    {
        self.raw.emit(Op::IfBegin { cond });
        let first = content(self);
        if first.is_err() {
            return first;
        }
        self.raw.emit(Op::EndScope);
        self.raw.emit(Op::ElseBegin);
        let second = else_content(self);
        if second.is_ok() {
            self.raw.emit(Op::EndScope);
        }
        second
    }

    /// Appends what `content` appends, in a loop that counts a variable up to an end.
    ///
    /// The scope is closed whatever the content returns.
    pub fn push_for_loop<F: FnOnce(&mut Self) -> Result<R, Error>, R>(
        &mut self,
        index: ValueId,
        end: ValueId,
        step: ValueId,
        content: F,
    ) -> (ret: Result<R, Error>)
        requires
            forall|k: &mut Self|
                (*k)@ == old(self)@.emit(Op::ForLoopBegin { index, end, step })
                    ==> #[trigger] content.requires((k,)),
        ensures
            exists|k: &mut Self|
                (*k)@ == old(self)@.emit(Op::ForLoopBegin { index, end, step })
                    && #[trigger] content.ensures((k,), ret)
                    && final(self)@ == (*final(k))@.emit(Op::EndScope),
    {
        self.raw.emit(Op::ForLoopBegin { index, end, step });
        let ret = content(self);
        self.raw.emit(Op::EndScope);
        ret
    }

    /// Appends what `content` appends, in a loop that runs while a condition holds.
    ///
    /// The scope is closed whatever the content returns.
    pub fn push_while_loop<F: FnOnce(&mut Self) -> Result<R, Error>, R>(
        &mut self,
        cond: Op,
        content: F,
    ) -> (ret: Result<R, Error>)
        requires
            forall|k: &mut Self|
                (*k)@ == old(self)@.emit((Op::WhileLoopBegin { cond: Box::new(cond) }))
                    ==> #[trigger] content.requires((k,)),
        ensures
            exists|k: &mut Self|
                (*k)@ == old(self)@.emit((Op::WhileLoopBegin { cond: Box::new(cond) }))
                    && #[trigger] content.ensures((k,), ret)
                    && final(self)@ == (*final(k))@.emit(Op::EndScope),
    {
        self.raw.emit(Op::WhileLoopBegin { cond: Box::new(cond) });
        let ret = content(self);
        self.raw.emit(Op::EndScope);
        ret
    }

    /// Appends what `content` appends, in a loop that only a break leaves.
    ///
    /// The scope is closed whatever the content returns.
    pub fn push_forever_loop<F: FnOnce(&mut Self) -> Result<R, Error>, R>(
        &mut self,
        content: F,
    ) -> (ret: Result<R, Error>)
        requires
            forall|k: &mut Self|
                (*k)@ == old(self)@.emit(Op::ForeverLoopBegin)
                    ==> #[trigger] content.requires((k,)),
        ensures
            exists|k: &mut Self|
                (*k)@ == old(self)@.emit(Op::ForeverLoopBegin)
                    && #[trigger] content.ensures((k,), ret)
                    && final(self)@ == (*final(k))@.emit(Op::EndScope),
    {
        self.raw.emit(Op::ForeverLoopBegin);
        let ret = content(self);
        self.raw.emit(Op::EndScope);
        ret
    }

    /// Stores a value to a parameter.
    pub fn param_store(&mut self, param: ParamId, index: ValueId, value: ValueId)
        requires
            param < old(self).params@.len(),
        ensures
            final(self)@ == old(self)@.param(param).emit(Op::ParamStore { param, index, value }),
    {
        self.register_param(param);
        self.raw.emit(Op::ParamStore { param, index, value });
    }

    /// Adds a value to a parameter.
    pub fn param_accum(&mut self, param: ParamId, index: ValueId, value: ValueId)
        requires
            param < old(self).params@.len(),
        ensures
            final(self)@ == old(self)@.param(param).emit(Op::ParamAccum { param, index, value }),
    {
        self.register_param(param);
        self.raw.emit(Op::ParamAccum { param, index, value });
    }

    /// Multiplies a parameter by a value.
    pub fn param_mul(&mut self, param: ParamId, index: ValueId, value: ValueId)
        requires
            param < old(self).params@.len(),
        ensures
            final(self)@ == old(self)@.param(param).emit(Op::ParamMul { param, index, value }),
    {
        self.register_param(param);
        self.raw.emit(Op::ParamMul { param, index, value });
    }

    /// Divides a parameter by a value.
    pub fn param_div(&mut self, param: ParamId, index: ValueId, value: ValueId)
        requires
            param < old(self).params@.len(),
        ensures
            final(self)@ == old(self)@.param(param).emit(Op::ParamDiv { param, index, value }),
    {
        self.register_param(param);
        self.raw.emit(Op::ParamDiv { param, index, value });
    }

    /// Subtracts a value from a parameter.
    pub fn param_sub(&mut self, param: ParamId, index: ValueId, value: ValueId)
        requires
            param < old(self).params@.len(),
        ensures
            final(self)@ == old(self)@.param(param).emit(Op::ParamSub { param, index, value }),
    {
        self.register_param(param);
        self.raw.emit(Op::ParamSub { param, index, value });
    }

    /// Shifts a parameter left by a value.
    pub fn param_shl(&mut self, param: ParamId, index: ValueId, value: ValueId)
        requires
            param < old(self).params@.len(),
        ensures
            final(self)@ == old(self)@.param(param).emit(Op::ParamShl { param, index, value }),
    {
        self.register_param(param);
        self.raw.emit(Op::ParamShl { param, index, value });
    }

    /// Shifts a parameter right by a value.
    pub fn param_shr(&mut self, param: ParamId, index: ValueId, value: ValueId)
        requires
            param < old(self).params@.len(),
        ensures
            final(self)@ == old(self)@.param(param).emit(Op::ParamShr { param, index, value }),
    {
        self.register_param(param);
        self.raw.emit(Op::ParamShr { param, index, value });
    }
}

} // verus!
