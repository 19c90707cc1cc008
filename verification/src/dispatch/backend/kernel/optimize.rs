//! The optimizer of kernels.

use vstd::prelude::*;

use crate::dispatch::backend::kernel::{RawKernel, RawView};
use crate::dispatch::backend::{DType, Op, Value, ValueId, ValueState};
use crate::scalar::Float32;

verus! {

/// What the optimizer does.
#[derive(Debug, Clone, Copy, Hash, PartialEq, Eq, Structural)]
pub struct OptFlags {
    /// Turns a sum with a product into one operation.
    pub mul_add: bool,
    /// Turns a division by a constant into a product with its inverse.
    pub div_const: bool,
    /// Computes operations on constants.
    pub const_fold: bool,
    /// Leaves out operations that change nothing.
    pub identity: bool,
    /// Leaves out values that nothing reads.
    pub dead_code: bool,
}

/// An operation on constants that are not integers.
#[derive(Debug, Clone, Copy)]
pub enum FloatExpr {
    Add(Float32, Float32),
    Mul(Float32, Float32),
    Sub(Float32, Float32),
    Div(Float32, Float32),
    /// The product of two numbers, plus a third.
    MulAdd(Float32, Float32, Float32),
    /// One over a number.
    Inverse(Float32),
}

/// Whether a function computes each expression as `t` says.
pub open spec fn computes<F: Fn(FloatExpr) -> Float32>(
    f: F,
    t: spec_fn(FloatExpr) -> Float32,
) -> bool {
    forall|e: FloatExpr, r: Float32| #[trigger] f.ensures((e,), r) ==> r == t(e)
}

/// Whether the operands of an arithmetic operation are among the first `n` values.
pub open spec fn reaches(op: Op, n: nat) -> bool {
    match op {
        Op::Add { a, b }
        | Op::Mul { a, b }
        | Op::Sub { a, b }
        | Op::Div { a, b }
        | Op::Shr { a, b }
        | Op::Shl { a, b } => a < n && b < n,
        Op::Fma { a, b, c } => a < n && b < n && c < n,
        _ => true,
    }
}

/// Whether arithmetic reads values of the kernel only.
pub open spec fn closed_under(k: RawView) -> bool {
    forall|v: int|
        0 <= v < k.values.len() ==> ((#[trigger] k.values[v]).init matches Some(op) ==> reaches(
            op,
            k.values.len(),
        ))
}

/// Whether an operation reads a value, and does not write it.
pub open spec fn uses(op: Op, id: ValueId) -> bool {
    op.operands().contains(id) && op.target() != Some(id)
}

/// Whether an operation of the kernel, or the definition of a value, uses a value.
pub open spec fn used(k: RawView, id: ValueId) -> bool {
    ||| exists|i: int| 0 <= i < k.ops.len() && uses(#[trigger] k.ops[i], id)
    ||| exists|v: int|
        0 <= v < k.values.len() && ((#[trigger] k.values[v]).init matches Some(op) && uses(op, id))
}

/// The kernel without what writes a value.
pub open spec fn without_writes(k: RawView, id: ValueId) -> RawView {
    RawView {
        ops: Seq::new(
            k.ops.len(),
            |i: int|
                if k.ops[i].target() == Some(id) {
                    Op::Nop
                } else {
                    k.ops[i]
                },
        ),
        ..k
    }
}

/// The kernel after the first values that nothing uses are left out.
pub open spec fn dead_code(k: RawView, n: nat) -> RawView
    decreases n,
{
    if n == 0 {
        k
    } else {
        let k = dead_code(k, (n - 1) as nat);
        let id = (n - 1) as usize;
        if k.values[n - 1].state is Masked || used(k, id) {
            k
        } else {
            without_writes(k.with_state(id, ValueState::Masked), id)
        }
    }
}

fn any_ops(kernel: &RawKernel, id: ValueId) -> (r: bool)
    ensures
        r == used(kernel@, id),
{
    let mut i: usize = 0;
    while i < kernel.ops.len()
        invariant
            i <= kernel@.ops.len(),
            forall|j: int| 0 <= j < i ==> !uses(#[trigger] kernel@.ops[j], id),
        decreases kernel@.ops.len() - i,
    {
        let op = &kernel.ops[i];
        if op.does_read(id) && !op.does_write(id) {
            assert(uses(kernel@.ops[i as int], id));
            return true;
        }
        i += 1;
    }
    let mut v: usize = 0;
    while v < kernel.values.len()
        invariant
            v <= kernel@.values.len(),
            forall|j: int| 0 <= j < kernel@.ops.len() ==> !uses(#[trigger] kernel@.ops[j], id),
            forall|j: int|
                0 <= j < v ==> !((#[trigger] kernel@.values[j]).init matches Some(op) && uses(
                    op,
                    id,
                )),
        decreases kernel@.values.len() - v,
    {
        if let Some(op) = &kernel.values[v].init {
            if op.does_read(id) && !op.does_write(id) {
                assert(kernel@.values[v as int].init == Some(*op));
                return true;
            }
        }
        v += 1;
    }
    false
}

fn erase_writes(kernel: &mut RawKernel, id: ValueId)
    ensures
        final(kernel)@ == without_writes(old(kernel)@, id),
{
    let ghost before = kernel@;
    let mut i: usize = 0;
    while i < kernel.ops.len()
        invariant
            i <= kernel@.ops.len(),
            kernel@ == (RawView { ops: kernel@.ops, ..before }),
            kernel@.ops.len() == before.ops.len(),
            forall|j: int|
                0 <= j < i ==> #[trigger] kernel@.ops[j] == without_writes(before, id).ops[j],
            forall|j: int| i <= j < before.ops.len() ==> #[trigger] kernel@.ops[j] == before.ops[j],
        decreases kernel@.ops.len() - i,
    {
        if kernel.ops[i].does_write(id) {
            kernel.ops[i] = Op::Nop;
        }
        i += 1;
    }
    assert(kernel@.ops == without_writes(before, id).ops);
}

fn dead_code_elimination(kernel: &mut RawKernel)
    requires
        closed_under(old(kernel)@),
    ensures
        final(kernel)@ == dead_code(old(kernel)@, old(kernel)@.values.len()),
        final(kernel)@.values.len() == old(kernel)@.values.len(),
        closed_under(final(kernel)@),
{
    let ghost before = kernel@;
    let n: usize = kernel.values.len();
    let mut id: usize = 0;
    while id < n
        invariant
            id <= n,
            n == before.values.len(),
            kernel@.values.len() == n,
            closed_under(kernel@),
            kernel@ == dead_code(before, id as nat),
        decreases n - id,
    {
        let ghost k = kernel@;
        if kernel.values[id].state != ValueState::Masked && !any_ops(kernel, id) {
            kernel.update_var_state(id, ValueState::Masked);
            erase_writes(kernel, id);
            proof {
                reveal(RawView::with_state);
                assert forall|v: int| 0 <= v < kernel@.values.len() implies ((
                #[trigger] kernel@.values[v]).init matches Some(op) ==> reaches(
                    op,
                    kernel@.values.len(),
                )) by {
                    assert(k.values[v].init == kernel@.values[v].init);
                }
            }
        }
        assert(k.values[id as int].state is Masked == (k.values[id as int].state
            == ValueState::Masked));
        id += 1;
    }
}

/// Whether a value is a number that is not left out.
pub open spec fn is_number(value: Value) -> bool {
    !(value.state is Masked) && value.dtype is Float
}

fn is_live_number(value: &Value) -> (r: bool)
    ensures
        r == is_number(*value),
{
    value.state != ValueState::Masked && value.dtype == DType::Float
}

/// The factors of a value that is defined as a product.
pub open spec fn factors(value: Value) -> Option<(ValueId, ValueId)> {
    match value.init {
        Some(Op::Mul { a, b }) => Some((a, b)),
        _ => None,
    }
}

fn factors_of(value: &Value) -> (r: Option<(ValueId, ValueId)>)
    ensures
        r == factors(*value),
{
    match &value.init {
        Some(Op::Mul { a, b }) => Some((*a, *b)),
        _ => None,
    }
}

/// The terms of a value that is defined as a sum.
pub open spec fn terms(value: Value) -> Option<(ValueId, ValueId)> {
    match value.init {
        Some(Op::Add { a, b }) => Some((a, b)),
        _ => None,
    }
}

fn terms_of(value: &Value) -> (r: Option<(ValueId, ValueId)>)
    ensures
        r == terms(*value),
{
    match &value.init {
        Some(Op::Add { a, b }) => Some((*a, *b)),
        _ => None,
    }
}

/// The kernel after one sum with a product is turned into one operation, and the product is left
/// out.
pub open spec fn fuse(k: RawView, id: ValueId) -> RawView {
    if !is_number(k.values[id as int]) {
        k
    } else {
        match terms(k.values[id as int]) {
            Some((a, b)) => match factors(k.values[a as int]) {
                Some((x, y)) => k.with_state(a, ValueState::Masked).with_init(
                    id,
                    Op::Fma { a: x, b: y, c: b },
                ),
                None => match factors(k.values[b as int]) {
                    Some((x, y)) => k.with_state(b, ValueState::Masked).with_init(
                        id,
                        Op::Fma { a: x, b: y, c: a },
                    ),
                    None => k,
                },
            },
            None => k,
        }
    }
}

/// The kernel after the first sums with a product are turned into one operation each.
pub open spec fn fuse_all(k: RawView, n: nat) -> RawView
    decreases n,
{
    if n == 0 {
        k
    } else {
        fuse(fuse_all(k, (n - 1) as nat), (n - 1) as usize)
    }
}

/// The kernel after one value, if it was a sum, is turned into one operation for each term that is
/// a product.
pub open spec fn refuse_sum(k: RawView, was: Value, id: ValueId) -> RawView {
    match terms(was) {
        Some((a, b)) if is_number(was) => {
            let k = match factors(k.values[a as int]) {
                Some((x, y)) => k.with_init(id, Op::Fma { a: x, b: y, c: b }),
                None => k,
            };
            match factors(k.values[b as int]) {
                Some((x, y)) => k.with_init(id, Op::Fma { a: x, b: y, c: a }),
                None => k,
            }
        },
        _ => k,
    }
}

/// The kernel after the first values that were sums are looked at once more.
pub open spec fn refuse_all(k: RawView, n: nat) -> RawView
    decreases n,
{
    if n == 0 {
        k
    } else {
        refuse_sum(refuse_all(k, (n - 1) as nat), k.values[n - 1], (n - 1) as usize)
    }
}

/// The kernel after one division by a constant is turned into a product with its inverse.
pub open spec fn invert(
    k: RawView,
    was: Value,
    id: ValueId,
    t: spec_fn(FloatExpr) -> Float32,
) -> RawView {
    match was.init {
        Some(Op::Div { a, b }) if is_number(was) => {
            match (k.values[b as int].state, k.values[b as int].init) {
                (ValueState::Mut, _) => k,
                (_, Some(Op::ConstF32 { value })) => k.with_init(
                    b,
                    Op::ConstF32 { value: t(FloatExpr::Inverse(value)) },
                ).with_init(id, Op::Mul { a, b }),
                _ => k,
            }
        },
        _ => k,
    }
}

/// The kernel after the first values that were divisions are turned into products.
pub open spec fn invert_all(k: RawView, n: nat, t: spec_fn(FloatExpr) -> Float32) -> RawView
    decreases n,
{
    if n == 0 {
        k
    } else {
        invert(invert_all(k, (n - 1) as nat, t), k.values[n - 1], (n - 1) as usize, t)
    }
}

/// Another definition that reads values of the kernel keeps arithmetic within the kernel.
pub proof fn lemma_with_init(k: RawView, id: ValueId, op: Op)
    requires
        id < k.values.len(),
        closed_under(k),
        reaches(op, k.values.len()),
    ensures
        closed_under(k.with_init(id, op)),
        k.with_init(id, op).values.len() == k.values.len(),
        forall|v: int|
            #![trigger k.with_init(id, op).values[v]]
            0 <= v < k.values.len() ==> k.with_init(id, op).values[v].state == k.values[v].state,
{
    reveal(RawView::with_init);
    let after = k.with_init(id, op);
    assert forall|v: int| 0 <= v < after.values.len() implies ((#[trigger] after.values[v]).init
        matches Some(op) ==> reaches(op, after.values.len())) by {
        if v != id {
            assert(after.values[v] == k.values[v]);
        }
    }
}

/// Another state keeps arithmetic within the kernel.
pub proof fn lemma_with_state(k: RawView, id: ValueId, state: ValueState)
    requires
        id < k.values.len(),
        closed_under(k),
    ensures
        closed_under(k.with_state(id, state)),
        k.with_state(id, state).values.len() == k.values.len(),
        forall|v: int|
            #![trigger k.with_state(id, state).values[v]]
            0 <= v < k.values.len() ==> k.with_state(id, state).values[v].init == k.values[v].init,
{
    reveal(RawView::with_state);
    let after = k.with_state(id, state);
    assert forall|v: int| 0 <= v < after.values.len() implies ((#[trigger] after.values[v]).init
        matches Some(op) ==> reaches(op, after.values.len())) by {
        assert(after.values[v].init == k.values[v].init);
    }
}

fn fuse_sum(kernel: &mut RawKernel, id: ValueId)
    requires
        id < old(kernel)@.values.len(),
        closed_under(old(kernel)@),
    ensures
        final(kernel)@ == fuse(old(kernel)@, id),
        final(kernel)@.values.len() == old(kernel)@.values.len(),
        closed_under(final(kernel)@),
{
    let ghost k = kernel@;
    if !is_live_number(&kernel.values[id]) {
        return ;
    }
    if let Some((a, b)) = terms_of(&kernel.values[id]) {
        assert(k.values[id as int].init == Some(Op::Add { a, b }));
        if let Some((x, y)) = factors_of(&kernel.values[a]) {
            assert(k.values[a as int].init == Some(Op::Mul { a: x, b: y }));
            kernel.update_var_state(a, ValueState::Masked);
            proof {
                lemma_with_state(k, a, ValueState::Masked);
                lemma_with_init(kernel@, id, Op::Fma { a: x, b: y, c: b });
            }
            kernel.update_var_init(id, Op::Fma { a: x, b: y, c: b });
        } else if let Some((x, y)) = factors_of(&kernel.values[b]) {
            assert(k.values[b as int].init == Some(Op::Mul { a: x, b: y }));
            kernel.update_var_state(b, ValueState::Masked);
            proof {
                lemma_with_state(k, b, ValueState::Masked);
                lemma_with_init(kernel@, id, Op::Fma { a: x, b: y, c: a });
            }
            kernel.update_var_init(id, Op::Fma { a: x, b: y, c: a });
        }
    }
}

fn iter_values(kernel: &RawKernel) -> (r: Vec<Value>)
    ensures
        r@ == kernel@.values,
{
    let mut r: Vec<Value> = Vec::new();
    let mut v: usize = 0;
    while v < kernel.values.len()
        invariant
            v <= kernel@.values.len(),
            r@ == kernel@.values.take(v as int),
        decreases kernel@.values.len() - v,
    {
        r.push(kernel.values[v].clone());
        v += 1;
    }
    assert(kernel@.values.take(v as int) == kernel@.values);
    r
}

fn fuse_again(kernel: &mut RawKernel, was: &Value, id: ValueId)
    requires
        id < old(kernel)@.values.len(),
        closed_under(old(kernel)@),
        was.init matches Some(op) ==> reaches(op, old(kernel)@.values.len()),
    ensures
        final(kernel)@ == refuse_sum(old(kernel)@, *was, id),
        final(kernel)@.values.len() == old(kernel)@.values.len(),
        closed_under(final(kernel)@),
{
    if !is_live_number(was) {
        return ;
    }
    if let Some((a, b)) = terms_of(was) {
        assert(was.init == Some(Op::Add { a, b }));
        let ghost k = kernel@;
        if let Some((x, y)) = factors_of(&kernel.values[a]) {
            assert(k.values[a as int].init == Some(Op::Mul { a: x, b: y }));
            proof {
                lemma_with_init(kernel@, id, Op::Fma { a: x, b: y, c: b });
            }
            kernel.update_var_init(id, Op::Fma { a: x, b: y, c: b });
        }
        let ghost k = kernel@;
        if let Some((x, y)) = factors_of(&kernel.values[b]) {
            assert(k.values[b as int].init == Some(Op::Mul { a: x, b: y }));
            proof {
                lemma_with_init(kernel@, id, Op::Fma { a: x, b: y, c: a });
            }
            kernel.update_var_init(id, Op::Fma { a: x, b: y, c: a });
        }
    }
}

fn fuse_sums(kernel: &mut RawKernel)
    requires
        closed_under(old(kernel)@),
    ensures
        final(kernel)@ == refuse_all(
            fuse_all(old(kernel)@, old(kernel)@.values.len()),
            old(kernel)@.values.len(),
        ),
        final(kernel)@.values.len() == old(kernel)@.values.len(),
        closed_under(final(kernel)@),
{
    let ghost before = kernel@;
    let n: usize = kernel.values.len();
    let mut id: usize = 0;
    while id < n
        invariant
            id <= n,
            n == before.values.len(),
            kernel@.values.len() == n,
            closed_under(kernel@),
            kernel@ == fuse_all(before, id as nat),
        decreases n - id,
    {
        fuse_sum(kernel, id);
        id += 1;
    }
    let ghost middle = kernel@;
    let values = iter_values(kernel);
    let mut id: usize = 0;
    while id < n
        invariant
            id <= n,
            n == middle.values.len(),
            kernel@.values.len() == n,
            values@ == middle.values,
            closed_under(middle),
            closed_under(kernel@),
            kernel@ == refuse_all(middle, id as nat),
        decreases n - id,
    {
        assert(middle.values[id as int] == values@[id as int]);
        fuse_again(kernel, &values[id], id);
        id += 1;
    }
}

fn invert_one<F: Fn(FloatExpr) -> Float32>(
    kernel: &mut RawKernel,
    was: &Value,
    id: ValueId,
    f: &F,
)
    requires
        forall|e: FloatExpr| f.requires((e,)),
        id < old(kernel)@.values.len(),
        closed_under(old(kernel)@),
        was.init matches Some(op) ==> reaches(op, old(kernel)@.values.len()),
    ensures
        forall|t: spec_fn(FloatExpr) -> Float32| #[trigger]
            computes(*f, t) ==> final(kernel)@ == invert(old(kernel)@, *was, id, t),
        final(kernel)@.values.len() == old(kernel)@.values.len(),
        closed_under(final(kernel)@),
{
    if !is_live_number(was) {
        return ;
    }
    if let Some(Op::Div { a, b }) = &was.init {
        let (a, b): (ValueId, ValueId) = (*a, *b);
        if kernel.values[b].state == ValueState::Mut {
            return ;
        }
        if let Some(Op::ConstF32 { value }) = &kernel.values[b].init {
            let value: Float32 = *value;
            let inverse: Float32 = f(FloatExpr::Inverse(value));
            proof {
                lemma_with_init(kernel@, b, Op::ConstF32 { value: inverse });
            }
            kernel.update_var_init(b, Op::ConstF32 { value: inverse });
            proof {
                lemma_with_init(kernel@, id, Op::Mul { a, b });
            }
            kernel.update_var_init(id, Op::Mul { a, b });
        }
    }
}

fn invert_divisions<F: Fn(FloatExpr) -> Float32>(kernel: &mut RawKernel, f: &F)
    requires
        forall|e: FloatExpr| f.requires((e,)),
        closed_under(old(kernel)@),
    ensures
        forall|t: spec_fn(FloatExpr) -> Float32| #[trigger]
            computes(*f, t) ==> final(kernel)@ == invert_all(
                old(kernel)@,
                old(kernel)@.values.len(),
                t,
            ),
        final(kernel)@.values.len() == old(kernel)@.values.len(),
        closed_under(final(kernel)@),
{
    let ghost before = kernel@;
    let values = iter_values(kernel);
    let n: usize = kernel.values.len();
    let mut id: usize = 0;
    while id < n
        invariant
            id <= n,
            n == before.values.len(),
            kernel@.values.len() == n,
            values@ == before.values,
            forall|e: FloatExpr| f.requires((e,)),
            closed_under(before),
            closed_under(kernel@),
            forall|t: spec_fn(FloatExpr) -> Float32| #[trigger]
                computes(*f, t) ==> kernel@ == invert_all(before, id as nat, t),
        decreases n - id,
    {
        assert(before.values[id as int] == values@[id as int]);
        invert_one(kernel, &values[id], id, f);
        id += 1;
    }
}

/// The quotient of two integers, rounded towards zero.
pub open spec fn quotient(a: int, b: int) -> int {
    let (x, y) = (
        if a < 0 {
            -a
        } else {
            a
        },
        if b < 0 {
            -b
        } else {
            b
        },
    );
    if (a < 0) == (b < 0) {
        x / y
    } else {
        -(x / y)
    }
}

/// What an operation on unsigned constants gives. Nothing, where it gives no unsigned number.
pub open spec fn fold_unsigned(op: Op, a: u32, b: u32) -> Option<u32> {
    match op {
        Op::Add { .. } if a + b <= u32::MAX => Some((a + b) as u32),
        Op::Mul { .. } if a * b <= u32::MAX => Some((a * b) as u32),
        Op::Sub { .. } if a >= b => Some((a - b) as u32),
        Op::Div { .. } if b != 0 => Some((a / b) as u32),
        Op::Shr { .. } if b < 32 => Some(a >> b),
        Op::Shl { .. } if b < 32 => Some(a << b),
        _ => None,
    }
}

fn folded_unsigned(op: &Op, a: u32, b: u32) -> (r: Option<u32>)
    ensures
        r == fold_unsigned(*op, a, b),
{
    match op {
        Op::Add { .. } => a.checked_add(b),
        Op::Mul { .. } => a.checked_mul(b),
        Op::Sub { .. } => a.checked_sub(b),
        Op::Div { .. } => if b != 0 {
            Some(a / b)
        } else {
            None
        },
        Op::Shr { .. } => if b < 32 {
            Some(a >> b)
        } else {
            None
        },
        Op::Shl { .. } => if b < 32 {
            Some(a << b)
        } else {
            None
        },
        _ => None,
    }
}

/// What an operation on signed constants gives. Nothing, where it gives no signed number.
pub open spec fn fold_signed(op: Op, a: i32, b: i32) -> Option<i32> {
    match op {
        Op::Add { .. } if i32::MIN <= a + b <= i32::MAX => Some((a + b) as i32),
        Op::Mul { .. } if i32::MIN <= a * b <= i32::MAX => Some((a * b) as i32),
        Op::Sub { .. } if i32::MIN <= a - b <= i32::MAX => Some((a - b) as i32),
        Op::Div { .. } if b != 0 && quotient(a as int, b as int) <= i32::MAX => Some(
            quotient(a as int, b as int) as i32,
        ),
        Op::Shr { .. } if 0 <= b < 32 => Some(a >> b),
        Op::Shl { .. } if 0 <= b < 32 => Some(a << b),
        _ => None,
    }
}

fn divide(a: i32, b: i32) -> (r: Option<i32>)
    ensures
        r == if b != 0 && quotient(a as int, b as int) <= i32::MAX {
            Some(quotient(a as int, b as int) as i32)
        } else {
            None
        },
{
    if b == 0 {
        return None;
    }
    let x: u64 = if a < 0 {
        (-(a as i64)) as u64
    } else {
        a as u64
    };
    let y: u64 = if b < 0 {
        (-(b as i64)) as u64
    } else {
        b as u64
    };
    let q: u64 = x / y;
    assert(q <= x) by (nonlinear_arith)
        requires
            y >= 1,
            q == x / y,
    ;
    if (a < 0) == (b < 0) {
        if q <= 0x7fff_ffff {
            Some(q as i32)
        } else {
            None
        }
    } else {
        Some((-(q as i64)) as i32)
    }
}

fn folded_signed(op: &Op, a: i32, b: i32) -> (r: Option<i32>)
    ensures
        r == fold_signed(*op, a, b),
{
    match op {
        Op::Add { .. } => a.checked_add(b),
        Op::Mul { .. } => a.checked_mul(b),
        Op::Sub { .. } => a.checked_sub(b),
        Op::Div { .. } => divide(a, b),
        Op::Shr { .. } => if 0 <= b && b < 32 {
            Some(a >> b)
        } else {
            None
        },
        Op::Shl { .. } => if 0 <= b && b < 32 {
            Some(a << b)
        } else {
            None
        },
        _ => None,
    }
}

/// The constant that an operation on two constants gives, if it gives one.
pub open spec fn fold(op: Op, x: Op, y: Op, t: spec_fn(FloatExpr) -> Float32) -> Option<Op> {
    match (x, y) {
        (Op::ConstF32 { value: a }, Op::ConstF32 { value: b }) => match op {
            Op::Add { .. } => Some(Op::ConstF32 { value: t(FloatExpr::Add(a, b)) }),
            Op::Mul { .. } => Some(Op::ConstF32 { value: t(FloatExpr::Mul(a, b)) }),
            Op::Sub { .. } => Some(Op::ConstF32 { value: t(FloatExpr::Sub(a, b)) }),
            Op::Div { .. } => Some(Op::ConstF32 { value: t(FloatExpr::Div(a, b)) }),
            _ => None,
        },
        (Op::ConstU32 { value: a }, Op::ConstU32 { value: b }) => match fold_unsigned(op, a, b) {
            Some(value) => Some(Op::ConstU32 { value }),
            None => None,
        },
        (Op::ConstI32 { value: a }, Op::ConstI32 { value: b }) => match fold_signed(op, a, b) {
            Some(value) => Some(Op::ConstI32 { value }),
            None => None,
        },
        _ => None,
    }
}

fn folded<F: Fn(FloatExpr) -> Float32>(op: &Op, x: &Op, y: &Op, f: &F) -> (r: Option<Op>)
    requires
        forall|e: FloatExpr| f.requires((e,)),
    ensures
        forall|t: spec_fn(FloatExpr) -> Float32| #[trigger]
            computes(*f, t) ==> r == fold(*op, *x, *y, t),
        r matches Some(o) ==> forall|n: nat| reaches(o, n),
{
    match (x, y) {
        (Op::ConstF32 { value: a }, Op::ConstF32 { value: b }) => match op {
            Op::Add { .. } => Some(Op::ConstF32 { value: f(FloatExpr::Add(*a, *b)) }),
            Op::Mul { .. } => Some(Op::ConstF32 { value: f(FloatExpr::Mul(*a, *b)) }),
            Op::Sub { .. } => Some(Op::ConstF32 { value: f(FloatExpr::Sub(*a, *b)) }),
            Op::Div { .. } => Some(Op::ConstF32 { value: f(FloatExpr::Div(*a, *b)) }),
            _ => None,
        },
        (Op::ConstU32 { value: a }, Op::ConstU32 { value: b }) => match folded_unsigned(
            op,
            *a,
            *b,
        ) {
            Some(value) => Some(Op::ConstU32 { value }),
            None => None,
        },
        (Op::ConstI32 { value: a }, Op::ConstI32 { value: b }) => match folded_signed(op, *a, *b) {
            Some(value) => Some(Op::ConstI32 { value }),
            None => None,
        },
        _ => None,
    }
}

/// What a value is defined as, unless it changes.
pub open spec fn settled(value: Value) -> Option<Op> {
    if value.state is Mut {
        None
    } else {
        value.init
    }
}

fn settled_of(value: &Value) -> (r: Option<Op>)
    ensures
        r == settled(*value),
{
    if value.state == ValueState::Mut {
        None
    } else {
        match &value.init {
            Some(op) => Some(op.clone()),
            None => None,
        }
    }
}

/// The constant that an operation of the kernel gives, if its operands are constants.
pub open spec fn folds(k: RawView, op: Op, t: spec_fn(FloatExpr) -> Float32) -> Option<Op> {
    match op {
        Op::Add { a, b }
        | Op::Mul { a, b }
        | Op::Sub { a, b }
        | Op::Div { a, b }
        | Op::Shr { a, b }
        | Op::Shl { a, b } => match (settled(k.values[a as int]), settled(k.values[b as int])) {
            (Some(x), Some(y)) => fold(op, x, y, t),
            _ => None,
        },
        Op::Fma { a, b, c } => match (
            settled(k.values[a as int]),
            settled(k.values[b as int]),
            settled(k.values[c as int]),
        ) {
            (
                Some(Op::ConstF32 { value: a }),
                Some(Op::ConstF32 { value: b }),
                Some(Op::ConstF32 { value: c }),
            ) => Some(Op::ConstF32 { value: t(FloatExpr::MulAdd(a, b, c)) }),
            _ => None,
        },
        _ => None,
    }
}

fn folds_of<F: Fn(FloatExpr) -> Float32>(kernel: &RawKernel, op: &Op, f: &F) -> (r: Option<Op>)
    requires
        forall|e: FloatExpr| f.requires((e,)),
        reaches(*op, kernel@.values.len()),
    ensures
        forall|t: spec_fn(FloatExpr) -> Float32| #[trigger]
            computes(*f, t) ==> r == folds(kernel@, *op, t),
        r matches Some(o) ==> forall|n: nat| reaches(o, n),
{
    match op {
        Op::Add { a, b }
        | Op::Mul { a, b }
        | Op::Sub { a, b }
        | Op::Div { a, b }
        | Op::Shr { a, b }
        | Op::Shl { a, b } => match (
            settled_of(&kernel.values[*a]),
            settled_of(&kernel.values[*b]),
        ) {
            (Some(x), Some(y)) => folded(op, &x, &y, f),
            _ => None,
        },
        Op::Fma { a, b, c } => match (
            settled_of(&kernel.values[*a]),
            settled_of(&kernel.values[*b]),
            settled_of(&kernel.values[*c]),
        ) {
            (
                Some(Op::ConstF32 { value: a }),
                Some(Op::ConstF32 { value: b }),
                Some(Op::ConstF32 { value: c }),
            ) => Some(Op::ConstF32 { value: f(FloatExpr::MulAdd(a, b, c)) }),
            _ => None,
        },
        _ => None,
    }
}

/// Whether a value never changes and is the number zero.
pub open spec fn is_zero(k: RawView, id: ValueId) -> bool {
    settled(k.values[id as int]) matches Some(op) && op.zero()
}

/// Whether a value never changes and is the number one.
pub open spec fn is_one(k: RawView, id: ValueId) -> bool {
    settled(k.values[id as int]) matches Some(op) && op.one()
}

fn holds_zero(kernel: &RawKernel, id: ValueId) -> (r: bool)
    requires
        id < kernel@.values.len(),
    ensures
        r == is_zero(kernel@, id),
{
    match settled_of(&kernel.values[id]) {
        Some(op) => op.is_zero(),
        None => false,
    }
}

fn holds_one(kernel: &RawKernel, id: ValueId) -> (r: bool)
    requires
        id < kernel@.values.len(),
    ensures
        r == is_one(kernel@, id),
{
    match settled_of(&kernel.values[id]) {
        Some(op) => op.is_one(),
        None => false,
    }
}

/// The value that an operation of the kernel equals because its other operand changes nothing.
pub open spec fn same_as(k: RawView, op: Op) -> Option<ValueId> {
    match op {
        Op::Add { a, b } => if is_zero(k, a) {
            Some(b)
        } else if is_zero(k, b) {
            Some(a)
        } else {
            None
        },
        Op::Sub { a, b } => if is_zero(k, b) {
            Some(a)
        } else {
            None
        },
        Op::Mul { a, b } => if is_one(k, b) {
            Some(a)
        } else if is_one(k, a) {
            Some(b)
        } else {
            None
        },
        Op::Div { a, b } => if is_one(k, b) {
            Some(a)
        } else {
            None
        },
        _ => None,
    }
}

fn same_as_of(kernel: &RawKernel, op: &Op) -> (r: Option<ValueId>)
    requires
        reaches(*op, kernel@.values.len()),
    ensures
        r == same_as(kernel@, *op),
{
    match op {
        Op::Add { a, b } => if holds_zero(kernel, *a) {
            Some(*b)
        } else if holds_zero(kernel, *b) {
            Some(*a)
        } else {
            None
        },
        Op::Sub { a, b } => if holds_zero(kernel, *b) {
            Some(*a)
        } else {
            None
        },
        Op::Mul { a, b } => if holds_one(kernel, *b) {
            Some(*a)
        } else if holds_one(kernel, *a) {
            Some(*b)
        } else {
            None
        },
        Op::Div { a, b } => if holds_one(kernel, *b) {
            Some(*a)
        } else {
            None
        },
        _ => None,
    }
}

/// The kernel after one value that is not left out is computed, if it is an operation on
/// constants.
pub open spec fn fold_one(k: RawView, id: ValueId, t: spec_fn(FloatExpr) -> Float32) -> RawView {
    match k.values[id as int].init {
        Some(op) if !(k.values[id as int].state is Masked) => match folds(k, op, t) {
            Some(constant) => k.with_init(id, constant),
            None => k,
        },
        _ => k,
    }
}

/// The kernel after the first values that are operations on constants are computed.
pub open spec fn fold_all(k: RawView, n: nat, t: spec_fn(FloatExpr) -> Float32) -> RawView
    decreases n,
{
    if n == 0 {
        k
    } else {
        fold_one(fold_all(k, (n - 1) as nat, t), (n - 1) as usize, t)
    }
}

/// The kernel after one value that is not left out is defined as the value it equals, if it is an
/// operation that changes nothing.
pub open spec fn copy_one(k: RawView, id: ValueId) -> RawView {
    match k.values[id as int].init {
        Some(op) if !(k.values[id as int].state is Masked) => match same_as(k, op) {
            Some(other) => k.with_init(id, Op::CopyVar { id: other }),
            None => k,
        },
        _ => k,
    }
}

/// The kernel after the first values that are operations that change nothing are defined as the
/// values they equal.
pub open spec fn copy_all(k: RawView, n: nat) -> RawView
    decreases n,
{
    if n == 0 {
        k
    } else {
        copy_one(copy_all(k, (n - 1) as nat), (n - 1) as usize)
    }
}

fn const_fold<F: Fn(FloatExpr) -> Float32>(kernel: &mut RawKernel, id: ValueId, f: &F)
    requires
        forall|e: FloatExpr| f.requires((e,)),
        id < old(kernel)@.values.len(),
        closed_under(old(kernel)@),
    ensures
        forall|t: spec_fn(FloatExpr) -> Float32| #[trigger]
            computes(*f, t) ==> final(kernel)@ == fold_one(old(kernel)@, id, t),
        final(kernel)@.values.len() == old(kernel)@.values.len(),
        closed_under(final(kernel)@),
{
    if kernel.values[id].state == ValueState::Masked {
        return ;
    }
    let ghost k = kernel@;
    let mut found: Option<Op> = None;
    if let Some(op) = &kernel.values[id].init {
        assert(k.values[id as int].init == Some(*op));
        found = folds_of(kernel, op, f);
    }
    if let Some(constant) = found {
        proof {
            lemma_with_init(kernel@, id, constant);
        }
        kernel.update_var_init(id, constant);
    }
}

fn identity(kernel: &mut RawKernel, id: ValueId)
    requires
        id < old(kernel)@.values.len(),
        closed_under(old(kernel)@),
    ensures
        final(kernel)@ == copy_one(old(kernel)@, id),
        final(kernel)@.values.len() == old(kernel)@.values.len(),
        closed_under(final(kernel)@),
{
    if kernel.values[id].state == ValueState::Masked {
        return ;
    }
    let ghost k = kernel@;
    let mut found: Option<ValueId> = None;
    if let Some(op) = &kernel.values[id].init {
        assert(k.values[id as int].init == Some(*op));
        found = same_as_of(kernel, op);
    }
    if let Some(other) = found {
        proof {
            lemma_with_init(kernel@, id, Op::CopyVar { id: other });
        }
        kernel.update_var_init(id, Op::CopyVar { id: other });
    }
}

fn fold_constants<F: Fn(FloatExpr) -> Float32>(kernel: &mut RawKernel, f: &F)
    requires
        forall|e: FloatExpr| f.requires((e,)),
        closed_under(old(kernel)@),
    ensures
        forall|t: spec_fn(FloatExpr) -> Float32| #[trigger]
            computes(*f, t) ==> final(kernel)@ == fold_all(
                old(kernel)@,
                old(kernel)@.values.len(),
                t,
            ),
        final(kernel)@.values.len() == old(kernel)@.values.len(),
        closed_under(final(kernel)@),
{
    let ghost before = kernel@;
    let n: usize = kernel.values.len();
    let mut id: usize = 0;
    while id < n
        invariant
            id <= n,
            n == before.values.len(),
            kernel@.values.len() == n,
            forall|e: FloatExpr| f.requires((e,)),
            closed_under(kernel@),
            forall|t: spec_fn(FloatExpr) -> Float32| #[trigger]
                computes(*f, t) ==> kernel@ == fold_all(before, id as nat, t),
        decreases n - id,
    {
        const_fold(kernel, id, f);
        id += 1;
    }
}

fn copy_identities(kernel: &mut RawKernel)
    requires
        closed_under(old(kernel)@),
    ensures
        final(kernel)@ == copy_all(old(kernel)@, old(kernel)@.values.len()),
        final(kernel)@.values.len() == old(kernel)@.values.len(),
        closed_under(final(kernel)@),
{
    let ghost before = kernel@;
    let n: usize = kernel.values.len();
    let mut id: usize = 0;
    while id < n
        invariant
            id <= n,
            n == before.values.len(),
            kernel@.values.len() == n,
            closed_under(kernel@),
            kernel@ == copy_all(before, id as nat),
        decreases n - id,
    {
        identity(kernel, id);
        id += 1;
    }
}

/// The first operations of a list that do something.
pub open spec fn without_nops(ops: Seq<Op>, n: nat) -> Seq<Op>
    decreases n,
{
    if n == 0 {
        Seq::empty()
    } else if ops[n - 1] is Nop {
        without_nops(ops, (n - 1) as nat)
    } else {
        without_nops(ops, (n - 1) as nat).push(ops[n - 1])
    }
}

fn erase_nops(ops: &Vec<Op>) -> (r: Vec<Op>)
    ensures
        r@ == without_nops(ops@, ops@.len()),
{
    let mut r: Vec<Op> = Vec::new();
    let mut i: usize = 0;
    while i < ops.len()
        invariant
            i <= ops@.len(),
            r@ == without_nops(ops@, i as nat),
        decreases ops@.len() - i,
    {
        if !matches!(ops[i], Op::Nop) {
            r.push(ops[i].clone());
        }
        i += 1;
    }
    r
}

/// The kernel after values that nothing uses are left out, if that is asked for.
pub open spec fn swept(k: RawView, flags: OptFlags) -> RawView {
    if flags.dead_code {
        dead_code(k, k.values.len())
    } else {
        k
    }
}

/// The kernel after one pass: values that nothing uses are left out, sums with products become one
/// operation, divisions by constants become products, operations on constants are computed,
/// operations that change nothing become copies, each as far as it is asked for; and operations
/// that do nothing are left out.
pub open spec fn pass(
    k: RawView,
    flags: OptFlags,
    t: spec_fn(FloatExpr) -> Float32,
) -> RawView {
    let n = k.values.len();
    let k = swept(k, flags);
    let k = if flags.mul_add {
        refuse_all(fuse_all(k, n), n)
    } else {
        k
    };
    let k = if flags.div_const {
        invert_all(k, n, t)
    } else {
        k
    };
    let k = if flags.const_fold {
        fold_all(k, n, t)
    } else {
        k
    };
    let k = if flags.identity {
        copy_all(k, n)
    } else {
        k
    };
    RawView { ops: without_nops(k.ops, k.ops.len()), ..k }
}

/// The kernel after a number of passes.
pub open spec fn passes(
    k: RawView,
    flags: OptFlags,
    count: nat,
    t: spec_fn(FloatExpr) -> Float32,
) -> RawView
    decreases count,
{
    if count == 0 {
        k
    } else {
        pass(passes(k, flags, (count - 1) as nat, t), flags, t)
    }
}

/// The kernel after all passes, and after the values that nothing uses then are left out.
pub open spec fn optimized(
    k: RawView,
    flags: OptFlags,
    count: nat,
    t: spec_fn(FloatExpr) -> Float32,
) -> RawView {
    swept(passes(k, flags, count, t), flags)
}

fn run_pass<F: Fn(FloatExpr) -> Float32>(kernel: &mut RawKernel, flags: OptFlags, f: &F)
    requires
        forall|e: FloatExpr| f.requires((e,)),
        closed_under(old(kernel)@),
    ensures
        forall|t: spec_fn(FloatExpr) -> Float32| #[trigger]
            computes(*f, t) ==> final(kernel)@ == pass(old(kernel)@, flags, t),
        final(kernel)@.values.len() == old(kernel)@.values.len(),
        closed_under(final(kernel)@),
{
    if flags.dead_code {
        dead_code_elimination(kernel);
    }
    if flags.mul_add {
        fuse_sums(kernel);
    }
    if flags.div_const {
        invert_divisions(kernel, f);
    }
    if flags.const_fold {
        fold_constants(kernel, f);
    }
    if flags.identity {
        copy_identities(kernel);
    }
    let ghost k = kernel@;
    let ops = erase_nops(&kernel.ops);
    kernel.ops = ops;
    assert(kernel@ == (RawView { ops: without_nops(k.ops, k.ops.len()), ..k }));
}

/// Optimizes a kernel in a number of passes. The function computes the constants that are not
/// integers.
///
/// An operation on integers that overflows, divides by zero or shifts too far is not computed.
pub fn optimize<F: Fn(FloatExpr) -> Float32>(
    kernel: &mut RawKernel,
    flags: OptFlags,
    count: u8,
    f: &F,
)
    requires
        forall|e: FloatExpr| f.requires((e,)),
        closed_under(old(kernel)@),
    ensures
        forall|t: spec_fn(FloatExpr) -> Float32| #[trigger]
            computes(*f, t) ==> final(kernel)@ == optimized(old(kernel)@, flags, count as nat, t),
        final(kernel)@.values.len() == old(kernel)@.values.len(),
        closed_under(final(kernel)@),
{
    let ghost before = kernel@;
    let mut i: u8 = 0;
    while i < count
        invariant
            i <= count,
            forall|e: FloatExpr| f.requires((e,)),
            kernel@.values.len() == before.values.len(),
            closed_under(kernel@),
            forall|t: spec_fn(FloatExpr) -> Float32| #[trigger]
                computes(*f, t) ==> kernel@ == passes(before, flags, i as nat, t),
        decreases count - i,
    {
        run_pass(kernel, flags, f);
        i += 1;
    }
    if flags.dead_code {
        dead_code_elimination(kernel);
    }
}

/// Whether a kernel has the same parts and as many values as another, each value has the same
/// type, no value that was left out is back, the others are left out or as they were, and
/// arithmetic reads values of the kernel only.
pub open spec fn tamed(k: RawView, r: RawView) -> bool {
    &&& r.meta == k.meta
    &&& r.shared == k.shared
    &&& r.block == k.block
    &&& r.iter_space == k.iter_space
    &&& r.root == k.root
    &&& r.values.len() == k.values.len()
    &&& forall|v: int|
        0 <= v < k.values.len() ==> {
            &&& (#[trigger] r.values[v]).dtype == k.values[v].dtype
            &&& r.values[v].state is Masked || r.values[v].state == k.values[v].state
        }
    &&& closed_under(r)
}

proof fn lemma_set_init(k: RawView, id: ValueId, op: Op)
    requires
        id < k.values.len(),
        closed_under(k),
        reaches(op, k.values.len()),
    ensures
        tamed(k, k.with_init(id, op)),
{
    lemma_with_init(k, id, op);
    reveal(RawView::with_init);
}

proof fn lemma_mask(k: RawView, id: ValueId)
    requires
        id < k.values.len(),
        closed_under(k),
    ensures
        tamed(k, k.with_state(id, ValueState::Masked)),
{
    lemma_with_state(k, id, ValueState::Masked);
    reveal(RawView::with_state);
}

proof fn lemma_dead_code_tamed(k: RawView, n: nat)
    requires
        n <= k.values.len(),
        k.values.len() <= usize::MAX,
        closed_under(k),
    ensures
        tamed(k, dead_code(k, n)),
    decreases n,
{
    if n > 0 {
        lemma_dead_code_tamed(k, (n - 1) as nat);
        let m = dead_code(k, (n - 1) as nat);
        let id = (n - 1) as usize;
        if !(m.values[n - 1].state is Masked || used(m, id)) {
            lemma_mask(m, id);
            let masked = m.with_state(id, ValueState::Masked);
            let r = without_writes(masked, id);
            assert forall|v: int| 0 <= v < r.values.len() implies ((#[trigger] r.values[v]).init
                matches Some(op) ==> reaches(op, r.values.len())) by {
                assert(masked.values[v] == r.values[v]);
            }
        }
    }
}

proof fn lemma_fuse_tamed(k: RawView, id: ValueId)
    requires
        id < k.values.len(),
        closed_under(k),
    ensures
        tamed(k, fuse(k, id)),
{
    if let Some((a, b)) = terms(k.values[id as int]) {
        assert(k.values[id as int].init == Some(Op::Add { a, b }));
        if let Some((x, y)) = factors(k.values[a as int]) {
            assert(k.values[a as int].init == Some(Op::Mul { a: x, b: y }));
            lemma_mask(k, a);
            lemma_set_init(k.with_state(a, ValueState::Masked), id, Op::Fma { a: x, b: y, c: b });
        } else if let Some((x, y)) = factors(k.values[b as int]) {
            assert(k.values[b as int].init == Some(Op::Mul { a: x, b: y }));
            lemma_mask(k, b);
            lemma_set_init(k.with_state(b, ValueState::Masked), id, Op::Fma { a: x, b: y, c: a });
        }
    }
}

proof fn lemma_fuse_all_tamed(k: RawView, n: nat)
    requires
        n <= k.values.len(),
        k.values.len() <= usize::MAX,
        closed_under(k),
    ensures
        tamed(k, fuse_all(k, n)),
    decreases n,
{
    if n > 0 {
        lemma_fuse_all_tamed(k, (n - 1) as nat);
        let m = fuse_all(k, (n - 1) as nat);
        let id = (n - 1) as usize;
        lemma_fuse_tamed(m, id);
    }
}

proof fn lemma_refuse_tamed(k: RawView, was: Value, id: ValueId)
    requires
        id < k.values.len(),
        closed_under(k),
        was.init matches Some(op) ==> reaches(op, k.values.len()),
    ensures
        tamed(k, refuse_sum(k, was, id)),
{
    if let Some((a, b)) = terms(was) {
        assert(was.init == Some(Op::Add { a, b }));
        let m = match factors(k.values[a as int]) {
            Some((x, y)) => k.with_init(id, Op::Fma { a: x, b: y, c: b }),
            None => k,
        };
        if let Some((x, y)) = factors(k.values[a as int]) {
            assert(k.values[a as int].init == Some(Op::Mul { a: x, b: y }));
            lemma_set_init(k, id, Op::Fma { a: x, b: y, c: b });
        }
        if let Some((x, y)) = factors(m.values[b as int]) {
            assert(m.values[b as int].init == Some(Op::Mul { a: x, b: y }));
            lemma_set_init(m, id, Op::Fma { a: x, b: y, c: a });
        }
    }
}

proof fn lemma_refuse_all_tamed(k: RawView, n: nat)
    requires
        n <= k.values.len(),
        k.values.len() <= usize::MAX,
        closed_under(k),
    ensures
        tamed(k, refuse_all(k, n)),
    decreases n,
{
    if n > 0 {
        lemma_refuse_all_tamed(k, (n - 1) as nat);
        let m = refuse_all(k, (n - 1) as nat);
        let id = (n - 1) as usize;
        lemma_refuse_tamed(m, k.values[n - 1], id);
    }
}

proof fn lemma_invert_tamed(
    k: RawView,
    was: Value,
    id: ValueId,
    t: spec_fn(FloatExpr) -> Float32,
)
    requires
        id < k.values.len(),
        closed_under(k),
        was.init matches Some(op) ==> reaches(op, k.values.len()),
    ensures
        tamed(k, invert(k, was, id, t)),
{
    if let Some(Op::Div { a, b }) = was.init {
        if let Some(Op::ConstF32 { value }) = k.values[b as int].init {
            let inverse = Op::ConstF32 { value: t(FloatExpr::Inverse(value)) };
            lemma_set_init(k, b, inverse);
            lemma_set_init(k.with_init(b, inverse), id, Op::Mul { a, b });
        }
    }
}

proof fn lemma_invert_all_tamed(k: RawView, n: nat, t: spec_fn(FloatExpr) -> Float32)
    requires
        n <= k.values.len(),
        k.values.len() <= usize::MAX,
        closed_under(k),
    ensures
        tamed(k, invert_all(k, n, t)),
    decreases n,
{
    if n > 0 {
        lemma_invert_all_tamed(k, (n - 1) as nat, t);
        let m = invert_all(k, (n - 1) as nat, t);
        let id = (n - 1) as usize;
        lemma_invert_tamed(m, k.values[n - 1], id, t);
    }
}

proof fn lemma_fold_one_tamed(k: RawView, id: ValueId, t: spec_fn(FloatExpr) -> Float32)
    requires
        id < k.values.len(),
        closed_under(k),
    ensures
        tamed(k, fold_one(k, id, t)),
{
    if let Some(op) = k.values[id as int].init {
        if let Some(constant) = folds(k, op, t) {
            lemma_set_init(k, id, constant);
        }
    }
}

proof fn lemma_fold_all_tamed(k: RawView, n: nat, t: spec_fn(FloatExpr) -> Float32)
    requires
        n <= k.values.len(),
        k.values.len() <= usize::MAX,
        closed_under(k),
    ensures
        tamed(k, fold_all(k, n, t)),
    decreases n,
{
    if n > 0 {
        lemma_fold_all_tamed(k, (n - 1) as nat, t);
        let m = fold_all(k, (n - 1) as nat, t);
        let id = (n - 1) as usize;
        lemma_fold_one_tamed(m, id, t);
    }
}

proof fn lemma_copy_one_tamed(k: RawView, id: ValueId)
    requires
        id < k.values.len(),
        closed_under(k),
    ensures
        tamed(k, copy_one(k, id)),
{
    if let Some(op) = k.values[id as int].init {
        if let Some(other) = same_as(k, op) {
            lemma_set_init(k, id, Op::CopyVar { id: other });
        }
    }
}

proof fn lemma_copy_all_tamed(k: RawView, n: nat)
    requires
        n <= k.values.len(),
        k.values.len() <= usize::MAX,
        closed_under(k),
    ensures
        tamed(k, copy_all(k, n)),
    decreases n,
{
    if n > 0 {
        lemma_copy_all_tamed(k, (n - 1) as nat);
        let m = copy_all(k, (n - 1) as nat);
        let id = (n - 1) as usize;
        lemma_copy_one_tamed(m, id);
    }
}

proof fn lemma_without_nops(ops: Seq<Op>, n: nat)
    requires
        n <= ops.len(),
    ensures
        forall|i: int|
            0 <= i < without_nops(ops, n).len() ==> !(#[trigger] without_nops(ops, n)[i] is Nop),
    decreases n,
{
    if n > 0 {
        lemma_without_nops(ops, (n - 1) as nat);
    }
}

proof fn lemma_pass_tamed(k: RawView, flags: OptFlags, t: spec_fn(FloatExpr) -> Float32)
    requires
        k.values.len() <= usize::MAX,
        closed_under(k),
    ensures
        tamed(k, pass(k, flags, t)),
        forall|i: int|
            0 <= i < pass(k, flags, t).ops.len() ==> !(#[trigger] pass(k, flags, t).ops[i] is Nop),
{
    let n = k.values.len();
    lemma_dead_code_tamed(k, n);
    let k1 = swept(k, flags);
    lemma_fuse_all_tamed(k1, n);
    lemma_refuse_all_tamed(fuse_all(k1, n), n);
    let k2 = if flags.mul_add {
        refuse_all(fuse_all(k1, n), n)
    } else {
        k1
    };
    lemma_invert_all_tamed(k2, n, t);
    let k3 = if flags.div_const {
        invert_all(k2, n, t)
    } else {
        k2
    };
    lemma_fold_all_tamed(k3, n, t);
    let k4 = if flags.const_fold {
        fold_all(k3, n, t)
    } else {
        k3
    };
    lemma_copy_all_tamed(k4, n);
    let k5 = if flags.identity {
        copy_all(k4, n)
    } else {
        k4
    };
    lemma_without_nops(k5.ops, k5.ops.len());
    let r = pass(k, flags, t);
    assert(r.values == k5.values);
    assert forall|v: int| 0 <= v < r.values.len() implies ((#[trigger] r.values[v]).init
        matches Some(op) ==> reaches(op, r.values.len())) by {
        assert(k5.values[v] == r.values[v]);
    }
    assert forall|v: int| 0 <= v < k.values.len() implies {
        &&& (#[trigger] r.values[v]).dtype == k.values[v].dtype
        &&& r.values[v].state is Masked || r.values[v].state == k.values[v].state
    } by {
        assert(k5.values[v].dtype == k4.values[v].dtype);
        assert(k4.values[v].dtype == k3.values[v].dtype);
        assert(k3.values[v].dtype == k2.values[v].dtype);
        assert(fuse_all(k1, n).values[v].dtype == k1.values[v].dtype);
        assert(k2.values[v].dtype == k1.values[v].dtype);
        assert(k1.values[v].dtype == k.values[v].dtype);
    }
}

/// The optimizer changes how values are computed, and nothing else: the parts of the kernel stay,
/// every value keeps its type, and a value is as it was or left out.
pub proof fn lemma_optimized_tamed(
    k: RawView,
    flags: OptFlags,
    count: nat,
    t: spec_fn(FloatExpr) -> Float32,
)
    requires
        k.values.len() <= usize::MAX,
        closed_under(k),
    ensures
        tamed(k, passes(k, flags, count, t)),
        tamed(k, optimized(k, flags, count, t)),
    decreases count,
{
    if count > 0 {
        lemma_optimized_tamed(k, flags, (count - 1) as nat, t);
        let before = passes(k, flags, (count - 1) as nat, t);
        lemma_pass_tamed(before, flags, t);
        let after = passes(k, flags, count, t);
        assert forall|v: int| 0 <= v < k.values.len() implies {
            &&& (#[trigger] after.values[v]).dtype == k.values[v].dtype
            &&& after.values[v].state is Masked || after.values[v].state == k.values[v].state
        } by {
            assert(before.values[v].dtype == k.values[v].dtype);
        }
    }
    let last = passes(k, flags, count, t);
    lemma_dead_code_tamed(last, last.values.len());
    let r = optimized(k, flags, count, t);
    assert forall|v: int| 0 <= v < k.values.len() implies {
        &&& (#[trigger] r.values[v]).dtype == k.values[v].dtype
        &&& r.values[v].state is Masked || r.values[v].state == k.values[v].state
    } by {
        assert(last.values[v].dtype == k.values[v].dtype);
    }
}

/// Without passes, and without leaving out what nothing uses, the optimizer changes nothing.
pub proof fn lemma_unoptimized(k: RawView, flags: OptFlags, t: spec_fn(FloatExpr) -> Float32)
    requires
        !flags.dead_code,
    ensures
        optimized(k, flags, 0, t) == k,
{
}

/// After a pass no operation is left that does nothing.
pub proof fn lemma_no_nops(
    k: RawView,
    flags: OptFlags,
    count: nat,
    t: spec_fn(FloatExpr) -> Float32,
)
    requires
        k.values.len() <= usize::MAX,
        closed_under(k),
        count > 0,
    ensures
        forall|i: int|
            0 <= i < passes(k, flags, count, t).ops.len() ==> !(#[trigger] passes(
                k,
                flags,
                count,
                t,
            ).ops[i] is Nop),
{
    lemma_optimized_tamed(k, flags, (count - 1) as nat, t);
    lemma_pass_tamed(passes(k, flags, (count - 1) as nat, t), flags, t);
}

} // verus!
