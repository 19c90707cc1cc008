//! What kernels compute.
//!
//! A kernel without loops is run on formulas: each variable holds the formula of what it was
//! assigned, over what the parameters hold when the kernel starts. A kernel with loops, shared
//! buffers and barriers is run on formulas too, by all the threads of a block, with given
//! dimensions. A kernel whose threads take turns of their own is run on numbers, each thread for
//! itself from barrier to barrier.

use vstd::prelude::*;

pub mod answers;

pub mod backward;

pub mod dead;

pub mod descends;

pub mod descent;

pub mod emitted;

pub mod facts;

pub mod factors;

pub mod forward;

pub mod fused;

pub mod gradients;

pub mod index;

pub mod kept;

pub mod lanes;

pub mod loss;

pub mod opening;

pub mod ops;

pub mod parts;

pub mod pass;

pub mod places;

pub mod product;

pub mod reach;

pub mod results;

pub mod rows;

pub mod runs;

pub mod saves;

pub mod slopes;

pub mod softmax;

pub mod spared;

pub mod sums;

pub mod tiles;

use crate::dispatch::backend::kernel::raw::RawView;
use crate::dispatch::backend::sound::{expression, statement};
use crate::dispatch::backend::wgsl::source::{declared, form, inlined, Form};
use crate::dispatch::backend::{Op, ParamId, ValueId};

verus! {

/// A formula.
pub enum Expr {
    /// Nothing yet.
    Unset,
    /// A number, by its bits.
    Num(u32),
    /// An element of a parameter, as it was when the kernel started.
    Load(ParamId, Box<Expr>),
    /// An element of a buffer, as it was after some changes of buffers.
    Memory(Op, nat, Box<Expr>),
    Not(Box<Expr>),
    Neg(Box<Expr>),
    Abs(Box<Expr>),
    Exp(Box<Expr>),
    Log(Box<Expr>),
    Tanh(Box<Expr>),
    Plus(Box<Expr>, Box<Expr>),
    Minus(Box<Expr>, Box<Expr>),
    Times(Box<Expr>, Box<Expr>),
    Over(Box<Expr>, Box<Expr>),
    Greatest(Box<Expr>, Box<Expr>),
    AtLeast(Box<Expr>, Box<Expr>),
    Same(Box<Expr>, Box<Expr>),
    /// The second formula where the first holds, and otherwise the third.
    Choice(Box<Expr>, Box<Expr>, Box<Expr>),
    /// The product of the first two formulas plus the third, rounded once.
    Fused(Box<Expr>, Box<Expr>, Box<Expr>),
    /// Any other operation, on up to three formulas.
    Other(Op, Box<Expr>, Box<Expr>, Box<Expr>),
}

pub open spec fn num(bits: u32) -> Expr {
    Expr::Num(bits)
}

pub open spec fn load(param: ParamId, index: Expr) -> Expr {
    Expr::Load(param, Box::new(index))
}

pub open spec fn inverse(a: Expr) -> Expr {
    Expr::Not(Box::new(a))
}

pub open spec fn negated(a: Expr) -> Expr {
    Expr::Neg(Box::new(a))
}

pub open spec fn absolute(a: Expr) -> Expr {
    Expr::Abs(Box::new(a))
}

pub open spec fn exponential(a: Expr) -> Expr {
    Expr::Exp(Box::new(a))
}

pub open spec fn logarithm(a: Expr) -> Expr {
    Expr::Log(Box::new(a))
}

pub open spec fn tangent(a: Expr) -> Expr {
    Expr::Tanh(Box::new(a))
}

pub open spec fn plus(a: Expr, b: Expr) -> Expr {
    Expr::Plus(Box::new(a), Box::new(b))
}

pub open spec fn minus(a: Expr, b: Expr) -> Expr {
    Expr::Minus(Box::new(a), Box::new(b))
}

pub open spec fn times(a: Expr, b: Expr) -> Expr {
    Expr::Times(Box::new(a), Box::new(b))
}

pub open spec fn over(a: Expr, b: Expr) -> Expr {
    Expr::Over(Box::new(a), Box::new(b))
}

pub open spec fn greatest(a: Expr, b: Expr) -> Expr {
    Expr::Greatest(Box::new(a), Box::new(b))
}

pub open spec fn at_least(a: Expr, b: Expr) -> Expr {
    Expr::AtLeast(Box::new(a), Box::new(b))
}

pub open spec fn same(a: Expr, b: Expr) -> Expr {
    Expr::Same(Box::new(a), Box::new(b))
}

pub open spec fn choice(c: Expr, a: Expr, b: Expr) -> Expr {
    Expr::Choice(Box::new(c), Box::new(a), Box::new(b))
}

pub open spec fn fused(a: Expr, b: Expr, c: Expr) -> Expr {
    Expr::Fused(Box::new(a), Box::new(b), Box::new(c))
}

/// What a variable holds after an assignment that takes place where all the conditions hold.
pub open spec fn guarded(guards: Seq<Expr>, new: Expr, old: Expr) -> Expr
    decreases guards.len(),
{
    if guards.len() == 0 {
        new
    } else {
        choice(guards.last(), guarded(guards.drop_last(), new, old), old)
    }
}

/// The values that an operation reads, up to three.
pub open spec fn arguments(op: Op) -> (Option<ValueId>, Option<ValueId>, Option<ValueId>) {
    match form(op) {
        Form::Infix { a, b, .. } | Form::Call2 { a, b, .. } => (Some(a), Some(b), None),
        Form::Prefix { x, .. } | Form::Call { x, .. } => (Some(x), None, None),
        Form::Call3 { a, b, c, .. } => (Some(a), Some(b), Some(c)),
        Form::Read { index, .. } => (Some(index), None, None),
        _ => (None, None, None),
    }
}

/// Whether an operation changes a parameter.
pub open spec fn changes(op: Op, p: ParamId) -> bool {
    match op {
        Op::ParamStore { param, .. }
        | Op::ParamAccum { param, .. }
        | Op::ParamMul { param, .. }
        | Op::ParamDiv { param, .. }
        | Op::ParamSub { param, .. }
        | Op::ParamShl { param, .. }
        | Op::ParamShr { param, .. } => param == p,
        _ => false,
    }
}

/// Whether none of the first operations changes a parameter.
pub open spec fn untouched(ops: Seq<Op>, p: ParamId, count: nat) -> bool {
    forall|i: int| 0 <= i < count ==> !changes(#[trigger] ops[i], p)
}

/// Whether an operation changes some buffer, or waits until others have.
pub open spec fn stirs(op: Op) -> bool {
    op is Barrier || form(op) is Write
}

/// How many of the first operations change some buffer.
pub open spec fn version(ops: Seq<Op>, count: nat) -> nat
    decreases count,
{
    if count == 0 {
        0
    } else {
        version(ops, (count - 1) as nat) + if stirs(ops[count - 1]) {
            1nat
        } else {
            0nat
        }
    }
}

/// Whether an operation begins no loop and does not leave one, or the kernel.
pub open spec fn straight_op(op: Op) -> bool {
    match op {
        Op::ForLoopBegin { .. }
        | Op::WhileLoopBegin { .. }
        | Op::ForeverLoopBegin
        | Op::Continue
        | Op::Break
        | Op::Return => false,
        _ => true,
    }
}

/// The bound of all the identifiers.
pub open spec fn any() -> nat {
    usize::MAX as nat + 1
}

/// What a variable holds after the first operations of a kernel.
pub open spec fn env(k: RawView, count: nat, id: ValueId) -> Expr
    decreases count, 0nat, 0nat,
{
    if count == 0 {
        Expr::Unset
    } else {
        let c = (count - 1) as nat;
        match k.ops[count - 1] {
            Op::DefineVar { id: d } => if d == id && declared(k.values[d as int]) {
                match k.values[d as int].init {
                    Some(op) => eval(k, c, op, d as nat),
                    None => Expr::Unset,
                }
            } else {
                env(k, c, id)
            },
            Op::OverwriteVar { id: d, val } => if d == id {
                guarded(conditions(k, c).0, eval(k, c, *val, any()), env(k, c, id))
            } else {
                env(k, c, id)
            },
            Op::AddAssign { id: d, val } => if d == id {
                guarded(
                    conditions(k, c).0,
                    plus(env(k, c, id), eval(k, c, *val, any())),
                    env(k, c, id),
                )
            } else {
                env(k, c, id)
            },
            Op::MulAssign { id: d, .. }
            | Op::DivAssign { id: d, .. }
            | Op::SubAssign { id: d, .. }
            | Op::ShlAssign { id: d, .. }
            | Op::ShrAssign { id: d, .. } => if d == id {
                Expr::Memory(k.ops[count - 1], c, Box::new(env(k, c, id)))
            } else {
                env(k, c, id)
            },
            _ => env(k, c, id),
        }
    }
}

/// The formula of a value that is read after the first operations of a kernel.
pub open spec fn read(k: RawView, count: nat, id: ValueId) -> Expr
    decreases count, id as nat, 2nat,
{
    if inlined(k.values[id as int]) {
        eval(k, count, k.values[id as int].init->0, id as nat)
    } else {
        env(k, count, id)
    }
}

/// The formula of an expression of values below a bound, after the first operations of a kernel.
pub open spec fn eval(k: RawView, count: nat, op: Op, bound: nat) -> Expr
    decreases count, bound, 1nat,
{
    let of = |id: ValueId|
        if id < bound {
            read(k, count, id)
        } else {
            Expr::Unset
        };
    let at = |id: Option<ValueId>|
        match id {
            Some(id) => of(id),
            None => Expr::Unset,
        };
    match op {
        Op::CopyVar { id } => of(id),
        Op::ConstF32 { value } => num(value.bits),
        Op::Not { cond } => inverse(of(cond)),
        Op::Neg { x } => negated(of(x)),
        Op::Abs { x } => absolute(of(x)),
        Op::Exp { x } => exponential(of(x)),
        Op::Log { x } => logarithm(of(x)),
        Op::Tanh { x } => tangent(of(x)),
        Op::Add { a, b } => plus(of(a), of(b)),
        Op::Sub { a, b } => minus(of(a), of(b)),
        Op::Mul { a, b } => times(of(a), of(b)),
        Op::Div { a, b } => over(of(a), of(b)),
        Op::Max { a, b } => greatest(of(a), of(b)),
        Op::Ge { a, b } => at_least(of(a), of(b)),
        Op::Eq { a, b } => same(of(a), of(b)),
        Op::Select { cond, a, b } => choice(of(cond), of(a), of(b)),
        Op::Fma { a, b, c } => fused(of(a), of(b), of(c)),
        Op::ParamLoad { param, index } => if untouched(k.ops, param, count) {
            load(param, of(index))
        } else {
            Expr::Memory(op, version(k.ops, count), Box::new(of(index)))
        },
        Op::SharedLoad { index, .. } => Expr::Memory(
            op,
            version(k.ops, count),
            Box::new(of(index)),
        ),
        _ => {
            let (a, b, c) = arguments(op);
            Expr::Other(op, Box::new(at(a)), Box::new(at(b)), Box::new(at(c)))
        },
    }
}

/// The conditions of the blocks that are open after the first operations of a kernel, and that of
/// the block that ended last.
pub open spec fn conditions(k: RawView, count: nat) -> (Seq<Expr>, Expr)
    decreases count, 0nat, 0nat,
{
    if count == 0 {
        (Seq::empty(), Expr::Unset)
    } else {
        let c = (count - 1) as nat;
        let (open, last) = conditions(k, c);
        match k.ops[count - 1] {
            Op::IfBegin { cond } => (open.push(read(k, c, cond)), last),
            Op::ElseBegin => (open.push(inverse(last)), last),
            Op::EndScope => (open.drop_last(), open.last()),
            _ => (open, last),
        }
    }
}

/// Whether a kernel has the values and operations of another, and more.
pub open spec fn extends(k: RawView, q: RawView) -> bool {
    &&& k.values.len() <= q.values.len()
    &&& k.ops.len() <= q.ops.len()
    &&& forall|i: int| 0 <= i < k.values.len() ==> #[trigger] q.values[i] == k.values[i]
    &&& forall|i: int| 0 <= i < k.ops.len() ==> #[trigger] q.ops[i] == k.ops[i]
}

pub proof fn lemma_version_extends(k: RawView, q: RawView, count: nat)
    requires
        extends(k, q),
        count <= k.ops.len(),
    ensures
        version(q.ops, count) == version(k.ops, count),
    decreases count,
{
    if count > 0 {
        lemma_version_extends(k, q, (count - 1) as nat);
        assert(q.ops[count - 1] == k.ops[count - 1]);
    }
}

pub proof fn lemma_read_extends(k: RawView, q: RawView, count: nat, id: ValueId)
    requires
        extends(k, q),
        k.defined(),
        k.stated(),
        count <= k.ops.len(),
        id < k.values.len(),
    ensures
        read(q, count, id) == read(k, count, id),
    decreases count, id as nat, 2nat,
{
    assert(q.values[id as int] == k.values[id as int]);
    if inlined(k.values[id as int]) {
        let op = k.values[id as int].init->0;
        lemma_eval_extends(k, q, count, op, id as nat, id as nat);
    } else {
        lemma_env_extends(k, q, count, id);
    }
}

pub proof fn lemma_eval_extends(k: RawView, q: RawView, count: nat, op: Op, limit: nat, bound: nat)
    requires
        extends(k, q),
        k.defined(),
        k.stated(),
        count <= k.ops.len(),
        expression(op, limit),
        limit <= k.values.len(),
        limit <= bound,
    ensures
        eval(q, count, op, bound) == eval(k, count, op, bound),
    decreases count, bound, 1nat,
{
    match form(op) {
        Form::Infix { a, b, .. } | Form::Call2 { a, b, .. } => {
            lemma_read_extends(k, q, count, a);
            lemma_read_extends(k, q, count, b);
        },
        Form::Prefix { x, .. } | Form::Call { x, .. } => {
            lemma_read_extends(k, q, count, x);
        },
        Form::Call3 { a, b, c, .. } => {
            lemma_read_extends(k, q, count, a);
            lemma_read_extends(k, q, count, b);
            lemma_read_extends(k, q, count, c);
        },
        Form::Read { index, .. } => {
            lemma_read_extends(k, q, count, index);
        },
        Form::Own => match op {
            Op::CopyVar { id } => {
                lemma_read_extends(k, q, count, id);
            },
            _ => {},
        },
        _ => {},
    }
    lemma_version_extends(k, q, count);
    match op {
        Op::ParamLoad { param, .. } => {
            assert(untouched(q.ops, param, count) == untouched(k.ops, param, count)) by {
                if untouched(q.ops, param, count) {
                    assert forall|i: int| 0 <= i < count implies !changes(
                        #[trigger] k.ops[i],
                        param,
                    ) by {
                        assert(q.ops[i] == k.ops[i]);
                    }
                }
            }
        },
        _ => {},
    }
}

proof fn lemma_env_extends(k: RawView, q: RawView, count: nat, id: ValueId)
    requires
        extends(k, q),
        k.defined(),
        k.stated(),
        count <= k.ops.len(),
        id < k.values.len(),
    ensures
        env(q, count, id) == env(k, count, id),
    decreases count, 0nat, 0nat,
{
    if count > 0 {
        let c = (count - 1) as nat;
        let op = k.ops[count - 1];
        assert(q.ops[count - 1] == op);
        assert(statement(op, k.values.len()));
        lemma_env_extends(k, q, c, id);
        match op {
            Op::DefineVar { id: d } => {
                assert(q.values[d as int] == k.values[d as int]);
                if k.values[d as int].init is Some {
                    let init = k.values[d as int].init->0;
                    lemma_eval_extends(k, q, c, init, d as nat, d as nat);
                }
            },
            Op::OverwriteVar { val, .. } | Op::AddAssign { val, .. } => {
                if k.values.len() <= any() {
                    lemma_eval_extends(k, q, c, *val, k.values.len(), any());
                } else {
                    lemma_expression_any(*val, k.values.len());
                    lemma_eval_extends(k, q, c, *val, any(), any());
                }
                lemma_conditions_extend(k, q, c);
            },
            _ => {},
        }
    }
}

/// All the identifiers lie below the bound.
proof fn lemma_expression_any(op: Op, bound: nat)
    requires
        expression(op, bound),
    ensures
        expression(op, any()),
{
}

pub proof fn lemma_conditions_extend(k: RawView, q: RawView, count: nat)
    requires
        extends(k, q),
        k.defined(),
        k.stated(),
        count <= k.ops.len(),
    ensures
        conditions(q, count) == conditions(k, count),
    decreases count, 0nat, 0nat,
{
    if count > 0 {
        let c = (count - 1) as nat;
        let op = k.ops[count - 1];
        assert(q.ops[count - 1] == op);
        assert(statement(op, k.values.len()));
        lemma_conditions_extend(k, q, c);
        match op {
            Op::IfBegin { cond } => {
                lemma_read_extends(k, q, c, cond);
            },
            _ => {},
        }
    }
}

} // verus!
