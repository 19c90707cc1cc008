//! What holds of every kernel that a graph is lowered to.
//!
//! Each value is defined by an expression of values before it, each operation reads values of the
//! kernel, and each block that ends has begun. Such a kernel can be written.

use vstd::prelude::*;

pub mod bound;

pub mod lower;

pub mod marks;

pub mod ops;

pub mod optimize;

pub mod pass;

use crate::dispatch::backend::kernel::raw::RawView;
use crate::dispatch::backend::wgsl::source::{
    form, form_fits, inlined, nest, nesting_at, op_fits, printable, val_fits, Form,
};
use crate::dispatch::backend::{DType, Op, ValueId, ValueState};

verus! {

/// Whether an operation is an expression of values below a bound.
pub open spec fn expression(op: Op, bound: nat) -> bool {
    match form(op) {
        Form::Infix { a, b, .. } | Form::Call2 { a, b, .. } => a < bound && b < bound,
        Form::Prefix { x, .. } | Form::Call { x, .. } => x < bound,
        Form::Call3 { a, b, c, .. } => a < bound && b < bound && c < bound,
        Form::Read { index, .. } => index < bound,
        Form::Place { .. } => true,
        Form::Write { .. } | Form::Fixed { .. } => false,
        Form::Own => match op {
            Op::CopyVar { id } => id < bound,
            Op::ConstF32 { .. }
            | Op::ConstU32 { .. }
            | Op::ConstI32 { .. }
            | Op::ReadMeta { .. } => true,
            _ => false,
        },
    }
}

/// Whether an operation is a statement on values below a bound.
pub open spec fn statement(op: Op, bound: nat) -> bool {
    match op {
        Op::DefineVar { id } => id < bound,
        Op::OverwriteVar { id, val }
        | Op::AddAssign { id, val }
        | Op::MulAssign { id, val }
        | Op::DivAssign { id, val }
        | Op::SubAssign { id, val }
        | Op::ShlAssign { id, val }
        | Op::ShrAssign { id, val } => id < bound && expression(*val, bound),
        Op::ForLoopBegin { index, end, step } => index < bound && end < bound && step < bound,
        Op::WhileLoopBegin { cond } => expression(*cond, bound),
        Op::IfBegin { cond } => cond < bound,
        _ => match form(op) {
            Form::Write { index, value, .. } => index < bound && value < bound,
            Form::Fixed { .. } => true,
            _ => false,
        },
    }
}

/// How many blocks an operation begins, less those that it ends.
pub open spec fn shift(op: Op) -> int {
    match op {
        Op::ForLoopBegin { .. }
        | Op::WhileLoopBegin { .. }
        | Op::ForeverLoopBegin
        | Op::IfBegin { .. }
        | Op::ElseBegin => 1,
        Op::EndScope => -1,
        _ => 0,
    }
}

/// How many blocks are open after the first operations.
pub open spec fn level(ops: Seq<Op>, count: nat) -> int
    decreases count,
{
    if count == 0 {
        0
    } else {
        level(ops, (count - 1) as nat) + shift(ops[count - 1])
    }
}

impl RawView {
    /// The bound below which the identifiers of the values lie, as far as values can be counted.
    pub open spec fn span(self) -> nat {
        if self.values.len() <= usize::MAX {
            self.values.len()
        } else {
            usize::MAX as nat + 1
        }
    }

    /// How many blocks are open at the end.
    #[verifier::opaque]
    pub open spec fn level(self) -> int {
        level(self.ops, self.ops.len())
    }

    /// Whether each value is defined by an expression of values before it.
    pub open spec fn defined(self) -> bool {
        forall|i: int|
            0 <= i < self.values.len() ==> ((#[trigger] self.values[i]).init matches Some(op)
                ==> expression(op, i as nat))
    }

    /// Whether each operation is a statement on values of the kernel.
    pub open spec fn stated(self) -> bool {
        forall|i: int|
            0 <= i < self.ops.len() ==> statement(#[trigger] self.ops[i], self.values.len())
    }

    /// Whether the values are defined, the operations are statements, and no block ends that has
    /// not begun. Nothing is said of the values and operations once there are more values than can
    /// be counted.
    #[verifier::opaque]
    pub open spec fn built(self) -> bool {
        &&& self.values.len() <= usize::MAX ==> self.defined() && self.stated()
        &&& forall|c: nat| c <= self.ops.len() ==> #[trigger] level(self.ops, c) >= 0
    }

    /// Whether a kernel under construction is sound.
    pub open spec fn sound(self) -> bool {
        &&& self.built()
        &&& self.level() >= 0
    }

    /// Whether a kernel is launched as another is: for the same node, over the same elements.
    pub open spec fn launched_as(self, before: RawView) -> bool {
        &&& self.root == before.root
        &&& self.iter_space == before.iter_space
        &&& self.meta == before.meta
    }

    /// Whether a kernel is sound, and has what the first one has, with the same blocks open.
    pub open spec fn continues(self, before: RawView) -> bool {
        &&& self.sound()
        &&& self.level() == before.level()
        &&& before.span() <= self.span()
        &&& self.launched_as(before)
    }
}

/// The level after the first operations depends on these alone.
pub proof fn lemma_level_prefix(ops: Seq<Op>, op: Op, count: nat)
    requires
        count <= ops.len(),
    ensures
        level(ops.push(op), count) == level(ops, count),
    decreases count,
{
    if count > 0 {
        lemma_level_prefix(ops, op, (count - 1) as nat);
    }
}

/// What is a statement on some values is one on more.
proof fn lemma_statement_more(op: Op, bound: nat, more: nat)
    requires
        statement(op, bound),
        bound <= more,
    ensures
        statement(op, more),
{
}

proof fn lemma_ops(r: RawView, q: RawView, op: Op)
    requires
        r.built(),
        q.ops == r.ops.push(op),
        r.level() + shift(op) >= 0,
    ensures
        q.level() == r.level() + shift(op),
        forall|c: nat| c <= q.ops.len() ==> #[trigger] level(q.ops, c) >= 0,
{
    reveal(RawView::built);
    reveal(RawView::level);
    lemma_level_prefix(r.ops, op, r.ops.len());
    assert(level(q.ops, q.ops.len()) == level(r.ops, r.ops.len()) + shift(op)) by {
        assert(q.ops[q.ops.len() - 1] == op);
        assert((q.ops.len() - 1) as nat == r.ops.len());
    }
    assert forall|c: nat| c <= q.ops.len() implies #[trigger] level(q.ops, c) >= 0 by {
        if c <= r.ops.len() {
            lemma_level_prefix(r.ops, op, c);
            assert(level(r.ops, c) >= 0);
        } else {
            assert(c == q.ops.len());
        }
    }
}

/// A definition by an expression keeps a kernel sound.
pub broadcast proof fn lemma_def_sound(
    r: RawView,
    dtype: DType,
    state: ValueState,
    init: Option<Op>,
)
    requires
        r.sound(),
        init matches Some(op) ==> expression(op, r.span()),
    ensures
        (#[trigger] r.def(dtype, state, init)).0.continues(r),
        r.def(dtype, state, init).1 < r.def(dtype, state, init).0.span(),
        r.def(dtype, state, init).1 >= r.span() || r.values.len() > usize::MAX,
{
    reveal(RawView::def);
    reveal(RawView::built);
    let q = r.def(dtype, state, init).0;
    let id = r.values.len() as usize;
    lemma_ops(r, q, Op::DefineVar { id });
    if q.values.len() <= usize::MAX {
        assert forall|i: int| 0 <= i < q.values.len() implies ((
        #[trigger] q.values[i]).init matches Some(op) ==> expression(op, i as nat)) by {
            if i < r.values.len() {
                assert(q.values[i] == r.values[i]);
            }
        }
        assert forall|i: int| 0 <= i < q.ops.len() implies statement(
            #[trigger] q.ops[i],
            q.values.len(),
        ) by {
            if i < r.ops.len() {
                assert(q.ops[i] == r.ops[i]);
                lemma_statement_more(r.ops[i], r.values.len(), q.values.len());
            }
        }
    }
}

/// A statement keeps a kernel sound, unless it ends a block that has not begun.
pub broadcast proof fn lemma_emit_sound(r: RawView, op: Op)
    requires
        r.sound(),
        statement(op, r.span()),
        r.level() + shift(op) >= 0,
    ensures
        (#[trigger] r.emit(op)).sound(),
        r.emit(op).level() == r.level() + shift(op),
        r.emit(op).span() == r.span(),
        r.emit(op).launched_as(r),
{
    reveal(RawView::emit);
    reveal(RawView::built);
    let q = r.emit(op);
    lemma_ops(r, q, op);
    if q.values.len() <= usize::MAX {
        assert forall|i: int| 0 <= i < q.ops.len() implies statement(
            #[trigger] q.ops[i],
            q.values.len(),
        ) by {
            if i < r.ops.len() {
                assert(q.ops[i] == r.ops[i]);
            }
        }
    }
}

/// A shared buffer keeps a kernel sound.
pub broadcast proof fn lemma_share_sound(r: RawView, dtype: DType, size: u32)
    requires
        r.sound(),
    ensures
        (#[trigger] r.share(dtype, size)).0.continues(r),
{
    reveal(RawView::share);
    reveal(RawView::built);
    reveal(RawView::level);
}

/// Another state of a value keeps a kernel sound.
pub broadcast proof fn lemma_state_sound(r: RawView, id: ValueId, state: ValueState)
    requires
        r.sound(),
        id < r.span(),
    ensures
        (#[trigger] r.with_state(id, state)).continues(r),
{
    reveal(RawView::with_state);
    reveal(RawView::built);
    reveal(RawView::level);
    let q = r.with_state(id, state);
    assert forall|i: int| 0 <= i < q.values.len() implies (#[trigger] q.values[i]).init
        == r.values[i].init by {}
}

/// Another data type of a value keeps a kernel sound.
pub broadcast proof fn lemma_dtype_sound(r: RawView, id: ValueId, dtype: DType)
    requires
        r.sound(),
        id < r.span(),
    ensures
        (#[trigger] r.with_dtype(id, dtype)).continues(r),
{
    reveal(RawView::with_dtype);
    reveal(RawView::built);
    reveal(RawView::level);
    let q = r.with_dtype(id, dtype);
    assert forall|i: int| 0 <= i < q.values.len() implies (#[trigger] q.values[i]).init
        == r.values[i].init by {}
}

/// Another definition of a value, by values before it, keeps a kernel sound.
pub broadcast proof fn lemma_init_sound(r: RawView, id: ValueId, init: Op)
    requires
        r.sound(),
        id < r.span(),
        r.values.len() <= usize::MAX ==> expression(init, id as nat),
    ensures
        (#[trigger] r.with_init(id, init)).continues(r),
{
    reveal(RawView::with_init);
    reveal(RawView::built);
    reveal(RawView::level);
    let q = r.with_init(id, init);
    if q.values.len() <= usize::MAX {
        assert forall|i: int| 0 <= i < q.values.len() implies ((
        #[trigger] q.values[i]).init matches Some(op) ==> expression(op, i as nat)) by {
            if i != id {
                assert(q.values[i] == r.values[i]);
            }
        }
    }
}

/// How the operations that build a kernel keep it sound.
pub broadcast group group_sound {
    lemma_def_sound,
    lemma_emit_sound,
    lemma_share_sound,
    lemma_state_sound,
    lemma_dtype_sound,
    lemma_init_sound,
}

/// A value of a sound kernel can be written: it leads to values before it only.
proof fn lemma_val_fits(k: RawView, id: ValueId, fuel: nat)
    requires
        k.defined(),
        id < k.values.len(),
        id < fuel,
    ensures
        val_fits(k, id, fuel),
    decreases fuel, 0nat,
{
    if inlined(k.values[id as int]) {
        let op = k.values[id as int].init->0;
        lemma_expression_fits(k, op, id as nat, (fuel - 1) as nat);
    }
}

proof fn lemma_expression_fits(k: RawView, op: Op, bound: nat, fuel: nat)
    requires
        k.defined(),
        expression(op, bound),
        bound <= k.values.len(),
        bound <= fuel,
    ensures
        op_fits(k, op, fuel),
        forall|nesting: nat| #[trigger] nest(k, op, nesting, fuel) == Some(nesting),
    decreases fuel, 1nat,
{
    match form(op) {
        Form::Infix { a, b, .. } | Form::Call2 { a, b, .. } => {
            lemma_val_fits(k, a, fuel);
            lemma_val_fits(k, b, fuel);
        },
        Form::Prefix { x, .. } | Form::Call { x, .. } => {
            lemma_val_fits(k, x, fuel);
        },
        Form::Call3 { a, b, c, .. } => {
            lemma_val_fits(k, a, fuel);
            lemma_val_fits(k, b, fuel);
            lemma_val_fits(k, c, fuel);
        },
        Form::Read { index, .. } => {
            lemma_val_fits(k, index, fuel);
        },
        Form::Own => match op {
            Op::CopyVar { id } => {
                lemma_val_fits(k, id, fuel);
            },
            _ => {},
        },
        _ => {},
    }
    assert(form_fits(k, form(op), fuel));
}

proof fn lemma_statement_fits(k: RawView, op: Op, nesting: nat)
    requires
        k.defined(),
        statement(op, k.values.len()),
        nesting + shift(op) >= 0,
        nesting < usize::MAX,
    ensures
        op_fits(k, op, k.values.len()),
        nest(k, op, nesting, k.values.len()) == Some((nesting + shift(op)) as nat),
{
    let n = k.values.len();
    match op {
        Op::DefineVar { id } => {
            if k.values[id as int].init is Some {
                let init = k.values[id as int].init->0;
                lemma_expression_fits(k, init, id as nat, (n - 1) as nat);
                assert(nest(k, init, nesting, (n - 1) as nat) == Some(nesting));
            }
        },
        Op::OverwriteVar { val, .. }
        | Op::AddAssign { val, .. }
        | Op::MulAssign { val, .. }
        | Op::DivAssign { val, .. }
        | Op::SubAssign { val, .. }
        | Op::ShlAssign { val, .. }
        | Op::ShrAssign { val, .. } => {
            lemma_expression_fits(k, *val, n, n);
            assert(nest(k, *val, nesting, n) == Some(nesting));
        },
        Op::ForLoopBegin { index, end, step } => {
            lemma_val_fits(k, end, n);
            lemma_val_fits(k, step, n);
        },
        Op::WhileLoopBegin { cond } => {
            lemma_expression_fits(k, *cond, n, n);
            assert(nest(k, *cond, nesting, n) == Some(nesting));
        },
        Op::IfBegin { cond } => {
            lemma_val_fits(k, cond, n);
        },
        _ => {
            match form(op) {
                Form::Write { index, value, .. } => {
                    lemma_val_fits(k, index, n);
                    lemma_val_fits(k, value, n);
                },
                _ => {},
            }
            assert(form_fits(k, form(op), n));
        },
    }
}

proof fn lemma_nesting(k: RawView, count: nat)
    requires
        k.defined(),
        k.stated(),
        count <= k.ops.len() <= usize::MAX,
        forall|c: nat| c <= k.ops.len() ==> #[trigger] level(k.ops, c) >= 0,
    ensures
        nesting_at(k, count) == Some(level(k.ops, count) as nat),
        level(k.ops, count) <= count,
        forall|i: int| 0 <= i < count ==> op_fits(k, #[trigger] k.ops[i], k.values.len()),
    decreases count,
{
    if count > 0 {
        lemma_nesting(k, (count - 1) as nat);
        assert(level(k.ops, (count - 1) as nat) >= 0);
        assert(level(k.ops, count) >= 0);
        lemma_statement_fits(k, k.ops[count - 1], level(k.ops, (count - 1) as nat) as nat);
    }
}

/// A sound kernel can be written.
pub proof fn lemma_sound_printable(k: RawView)
    requires
        k.sound(),
        k.values.len() <= usize::MAX,
        k.ops.len() <= usize::MAX,
    ensures
        printable(k),
{
    reveal(RawView::built);
    lemma_nesting(k, k.ops.len());
}

} // verus!
