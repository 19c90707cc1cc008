//! What the operations that build a kernel do to what it computes.

use vstd::prelude::*;

use crate::dispatch::backend::kernel::raw::RawView;
use crate::dispatch::backend::meaning::{
    absolute, any, arguments, at_least, changes, choice, conditions, eval, exponential, extends,
    fused, greatest, guarded, inverse, lemma_conditions_extend, lemma_eval_extends,
    lemma_read_extends, lemma_version_extends, load, logarithm, minus, negated, num, over, plus, read, same,
    straight_op, tangent, times, untouched, version, Expr,
};
use crate::dispatch::backend::sound::{expression, statement};
use crate::dispatch::backend::wgsl::source::{form, inlined, Form};
use crate::dispatch::backend::{DType, Op, ParamId, ValueId, ValueState};

verus! {

impl RawView {
    /// Whether the values can be counted.
    pub open spec fn small(self) -> bool {
        self.values.len() <= usize::MAX
    }

    /// The formula of a value at the end of a kernel.
    #[verifier::opaque]
    pub open spec fn held(self, id: ValueId) -> Expr {
        read(self, self.ops.len(), id)
    }

    /// The conditions of the blocks that are open at the end of a kernel.
    #[verifier::opaque]
    pub open spec fn guards(self) -> Seq<Expr> {
        conditions(self, self.ops.len()).0
    }

    /// The condition of the block that ended last.
    #[verifier::opaque]
    pub open spec fn ended(self) -> Expr {
        conditions(self, self.ops.len()).1
    }

    /// Whether a value is no mere name for its definition.
    #[verifier::opaque]
    pub open spec fn apart(self, id: ValueId) -> bool {
        !inlined(self.values[id as int])
    }

    /// Whether a value is one of the kernel, and no mere name for its definition.
    pub open spec fn solid(self, id: ValueId) -> bool {
        id < self.span() && self.apart(id)
    }

    /// Whether a value is a name for an expression.
    #[verifier::opaque]
    pub open spec fn names(self, id: ValueId, op: Op) -> bool {
        &&& id < self.values.len()
        &&& self.values[id as int].state is Inline
        &&& self.values[id as int].init == Some(op)
    }

    /// Whether a kernel has no loops, and nothing leaves it early.
    #[verifier::opaque]
    pub open spec fn straight(self) -> bool {
        forall|i: int| 0 <= i < self.ops.len() ==> straight_op(#[trigger] self.ops[i])
    }

    /// Whether a kernel does not change a parameter.
    #[verifier::opaque]
    pub open spec fn keeps(self, p: ParamId) -> bool {
        untouched(self.ops, p, self.ops.len())
    }

    /// How often a kernel changes buffers.
    #[verifier::opaque]
    pub open spec fn stirred(self) -> nat {
        version(self.ops, self.ops.len())
    }

    /// The formula of an expression at the end of a kernel.
    pub open spec fn spelled(self, op: Op) -> Expr {
        let at = |id: Option<ValueId>|
            match id {
                Some(id) => self.held(id),
                None => Expr::Unset,
            };
        match op {
            Op::CopyVar { id } => self.held(id),
            Op::ConstF32 { value } => num(value.bits),
            Op::Not { cond } => inverse(self.held(cond)),
            Op::Neg { x } => negated(self.held(x)),
            Op::Abs { x } => absolute(self.held(x)),
            Op::Exp { x } => exponential(self.held(x)),
            Op::Log { x } => logarithm(self.held(x)),
            Op::Tanh { x } => tangent(self.held(x)),
            Op::Add { a, b } => plus(self.held(a), self.held(b)),
            Op::Sub { a, b } => minus(self.held(a), self.held(b)),
            Op::Mul { a, b } => times(self.held(a), self.held(b)),
            Op::Div { a, b } => over(self.held(a), self.held(b)),
            Op::Max { a, b } => greatest(self.held(a), self.held(b)),
            Op::Ge { a, b } => at_least(self.held(a), self.held(b)),
            Op::Eq { a, b } => same(self.held(a), self.held(b)),
            Op::Select { cond, a, b } => choice(self.held(cond), self.held(a), self.held(b)),
            Op::Fma { a, b, c } => fused(self.held(a), self.held(b), self.held(c)),
            Op::ParamLoad { param, index } => if self.keeps(param) {
                load(param, self.held(index))
            } else {
                Expr::Memory(op, self.stirred(), Box::new(self.held(index)))
            },
            Op::SharedLoad { index, .. } => Expr::Memory(
                op,
                self.stirred(),
                Box::new(self.held(index)),
            ),
            _ => {
                let (a, b, c) = arguments(op);
                Expr::Other(op, Box::new(at(a)), Box::new(at(b)), Box::new(at(c)))
            },
        }
    }

    /// The formula of a variable after one more statement.
    pub open spec fn after(self, op: Op, id: ValueId) -> Expr {
        match op {
            Op::OverwriteVar { id: d, val } if d == id => guarded(
                self.guards(),
                self.spelled(*val),
                self.held(id),
            ),
            Op::AddAssign { id: d, val } if d == id => guarded(
                self.guards(),
                plus(self.held(id), self.spelled(*val)),
                self.held(id),
            ),
            _ => self.held(id),
        }
    }
}

/// Whether an operation is one of those that the lowering of a graph assigns and branches by.
pub open spec fn simple(op: Op) -> bool {
    match op {
        Op::DefineVar { .. }
        | Op::MulAssign { .. }
        | Op::DivAssign { .. }
        | Op::SubAssign { .. }
        | Op::ShlAssign { .. }
        | Op::ShrAssign { .. } => false,
        _ => true,
    }
}

/// An expression is spelled by what the values hold.
proof fn lemma_spelled(k: RawView, op: Op, limit: nat, bound: nat)
    requires
        expression(op, limit),
        limit <= bound,
    ensures
        eval(k, k.ops.len(), op, bound) == k.spelled(op),
{
    reveal(RawView::held);
    reveal(RawView::keeps);
    reveal(RawView::stirred);
}

proof fn lemma_def_extends(r: RawView, dtype: DType, state: ValueState, init: Option<Op>)
    requires
        r.sound(),
        r.def(dtype, state, init).0.small(),
    ensures
        ({
            let (q, id) = r.def(dtype, state, init);
            &&& extends(r, q)
            &&& r.defined()
            &&& r.stated()
            &&& id == r.values.len()
            &&& q.values.len() == id + 1
            &&& q.values[id as int].state == state
            &&& q.values[id as int].init == init
            &&& q.ops.len() == r.ops.len() + 1
            &&& q.ops[r.ops.len() as int] == Op::DefineVar { id }
            &&& r.small()
        }),
{
    reveal(RawView::def);
    reveal(RawView::built);
}

/// A definition leaves the values before it as they are.
proof fn lemma_define_read(r: RawView, q: RawView, id: ValueId, j: ValueId)
    requires
        extends(r, q),
        r.defined(),
        r.stated(),
        id == r.values.len(),
        q.ops.len() == r.ops.len() + 1,
        q.ops[r.ops.len() as int] == (Op::DefineVar { id }),
        j < id,
    ensures
        read(q, q.ops.len(), j) == read(r, r.ops.len(), j),
    decreases j,
{
    let c = r.ops.len();
    assert(q.values[j as int] == r.values[j as int]);
    lemma_read_extends(r, q, c, j);
    if inlined(r.values[j as int]) {
        let op = r.values[j as int].init->0;
        assert(expression(op, j as nat));
        match form(op) {
            Form::Infix { a, b, .. } | Form::Call2 { a, b, .. } => {
                lemma_define_read(r, q, id, a);
                lemma_define_read(r, q, id, b);
            },
            Form::Prefix { x, .. } | Form::Call { x, .. } => {
                lemma_define_read(r, q, id, x);
            },
            Form::Call3 { a, b, c, .. } => {
                lemma_define_read(r, q, id, a);
                lemma_define_read(r, q, id, b);
                lemma_define_read(r, q, id, c);
            },
            Form::Read { index, .. } => {
                lemma_define_read(r, q, id, index);
            },
            Form::Own => match op {
                Op::CopyVar { id: x } => {
                    lemma_define_read(r, q, id, x);
                },
                _ => {},
            },
            _ => {},
        }
        lemma_define_memory(r, q, id);
        assert(eval(q, q.ops.len(), op, j as nat) == eval(r, r.ops.len(), op, j as nat));
    }
}

/// A definition changes no buffer.
proof fn lemma_define_memory(r: RawView, q: RawView, id: ValueId)
    requires
        extends(r, q),
        q.ops.len() == r.ops.len() + 1,
        q.ops[r.ops.len() as int] == (Op::DefineVar { id }),
    ensures
        version(q.ops, q.ops.len()) == version(r.ops, r.ops.len()),
        forall|p: ParamId| #[trigger]
            untouched(q.ops, p, q.ops.len()) == untouched(r.ops, p, r.ops.len()),
{
    lemma_version_extends(r, q, r.ops.len());
    assert forall|p: ParamId| #[trigger]
        untouched(q.ops, p, q.ops.len()) == untouched(r.ops, p, r.ops.len()) by {
        if untouched(q.ops, p, q.ops.len()) {
            assert forall|i: int| 0 <= i < r.ops.len() implies !changes(#[trigger] r.ops[i], p) by {
                assert(q.ops[i] == r.ops[i]);
            }
        }
        if untouched(r.ops, p, r.ops.len()) {
            assert forall|i: int| 0 <= i < q.ops.len() implies !changes(#[trigger] q.ops[i], p) by {
                if i < r.ops.len() {
                    assert(q.ops[i] == r.ops[i]);
                }
            }
        }
    }
}

/// A new value holds its definition.
pub broadcast proof fn lemma_def_new(
    r: RawView,
    dtype: DType,
    state: ValueState,
    init: Option<Op>,
)
    requires
        r.sound(),
        r.def(dtype, state, init).0.small(),
        !(state is Masked),
        state is Inline ==> init is Some,
        init matches Some(op) ==> expression(op, r.span()),
    ensures
        #[trigger] r.def(dtype, state, init).0.held(r.def(dtype, state, init).1) == match init {
            Some(op) => r.spelled(op),
            None => Expr::Unset,
        },
{
    lemma_def_extends(r, dtype, state, init);
    let (q, id) = r.def(dtype, state, init);
    let c = r.ops.len();
    reveal(RawView::held);
    if init is Some {
        let op = init->0;
        lemma_eval_extends(r, q, c, op, id as nat, id as nat);
        lemma_spelled(r, op, id as nat, id as nat);
        if inlined(q.values[id as int]) {
            match form(op) {
                Form::Infix { a, b, .. } | Form::Call2 { a, b, .. } => {
                    lemma_define_read(r, q, id, a);
                    lemma_define_read(r, q, id, b);
                },
                Form::Prefix { x, .. } | Form::Call { x, .. } => {
                    lemma_define_read(r, q, id, x);
                },
                Form::Call3 { a, b, c, .. } => {
                    lemma_define_read(r, q, id, a);
                    lemma_define_read(r, q, id, b);
                    lemma_define_read(r, q, id, c);
                },
                Form::Read { index, .. } => {
                    lemma_define_read(r, q, id, index);
                },
                Form::Own => match op {
                    Op::CopyVar { id: x } => {
                        lemma_define_read(r, q, id, x);
                    },
                    _ => {},
                },
                _ => {},
            }
            lemma_define_memory(r, q, id);
            assert(eval(q, q.ops.len(), op, id as nat) == eval(r, c, op, id as nat));
        }
    }
}

/// A definition leaves the values before it as they are.
pub broadcast proof fn lemma_def_old(
    r: RawView,
    dtype: DType,
    state: ValueState,
    init: Option<Op>,
    j: ValueId,
)
    requires
        r.sound(),
        r.def(dtype, state, init).0.small(),
        j < r.span(),
    ensures
        #[trigger] r.def(dtype, state, init).0.held(j) == r.held(j),
{
    lemma_def_extends(r, dtype, state, init);
    let (q, id) = r.def(dtype, state, init);
    reveal(RawView::held);
    lemma_define_read(r, q, id, j);
}

/// A definition opens and closes no block.
pub broadcast proof fn lemma_def_guards(
    r: RawView,
    dtype: DType,
    state: ValueState,
    init: Option<Op>,
)
    requires
        r.sound(),
        r.def(dtype, state, init).0.small(),
    ensures
        (#[trigger] r.def(dtype, state, init)).0.guards() == r.guards(),
        r.def(dtype, state, init).0.ended() == r.ended(),
        r.straight() ==> r.def(dtype, state, init).0.straight(),
        r.def(dtype, state, init).0.solid(r.def(dtype, state, init).1) == (!(state is Inline)
            || init is None),
        state is Inline && init is Some ==> r.def(dtype, state, init).0.names(
            r.def(dtype, state, init).1,
            init->0,
        ),
        r.def(dtype, state, init).0.stirred() == r.stirred(),
{
    lemma_def_extends(r, dtype, state, init);
    let (q, id) = r.def(dtype, state, init);
    lemma_conditions_extend(r, q, r.ops.len());
    lemma_define_memory(r, q, id);
    reveal(RawView::guards);
    reveal(RawView::ended);
    reveal(RawView::straight);
    reveal(RawView::apart);
    reveal(RawView::names);
    reveal(RawView::stirred);
    if r.straight() {
        assert forall|i: int| 0 <= i < q.ops.len() implies straight_op(#[trigger] q.ops[i]) by {
            if i < r.ops.len() {
                assert(q.ops[i] == r.ops[i]);
            }
        }
    }
}

/// A definition changes no parameter.
pub broadcast proof fn lemma_def_keeps(
    r: RawView,
    dtype: DType,
    state: ValueState,
    init: Option<Op>,
    p: ParamId,
)
    requires
        r.sound(),
        r.def(dtype, state, init).0.small(),
    ensures
        #[trigger] r.def(dtype, state, init).0.keeps(p) == r.keeps(p),
{
    lemma_def_extends(r, dtype, state, init);
    let (q, id) = r.def(dtype, state, init);
    lemma_define_memory(r, q, id);
    reveal(RawView::keeps);
}

/// A definition leaves it open whether the values before it are names.
pub broadcast proof fn lemma_def_solid(
    r: RawView,
    dtype: DType,
    state: ValueState,
    init: Option<Op>,
    j: ValueId,
)
    requires
        r.sound(),
        r.def(dtype, state, init).0.small(),
        j < r.span(),
    ensures
        #[trigger] r.def(dtype, state, init).0.solid(j) == r.solid(j),
{
    lemma_def_extends(r, dtype, state, init);
    reveal(RawView::apart);
}

proof fn lemma_emit_extends(r: RawView, op: Op)
    requires
        r.sound(),
        r.small(),
    ensures
        ({
            let q = r.emit(op);
            &&& extends(r, q)
            &&& r.defined()
            &&& r.stated()
            &&& q.values == r.values
            &&& q.ops.len() == r.ops.len() + 1
            &&& q.ops[r.ops.len() as int] == op
        }),
{
    reveal(RawView::emit);
    reveal(RawView::built);
}

/// A statement changes the variable that it assigns.
pub broadcast proof fn lemma_emit_held(r: RawView, op: Op, j: ValueId)
    requires
        r.sound(),
        r.small(),
        statement(op, r.span()),
        simple(op),
        r.solid(j),
    ensures
        #[trigger] r.emit(op).held(j) == r.after(op, j),
{
    lemma_emit_extends(r, op);
    let q = r.emit(op);
    let c = r.ops.len();
    reveal(RawView::held);
    reveal(RawView::apart);
    reveal(RawView::guards);
    lemma_read_extends(r, q, c, j);
    lemma_conditions_extend(r, q, c);
    match op {
        Op::OverwriteVar { val, .. } | Op::AddAssign { val, .. } => {
            lemma_eval_extends(r, q, c, *val, r.values.len(), any());
            lemma_spelled(r, *val, r.values.len(), any());
        },
        _ => {},
    }
}

/// A statement changes the parameter that it writes.
pub broadcast proof fn lemma_emit_keeps(r: RawView, op: Op, p: ParamId)
    ensures
        #[trigger] r.emit(op).keeps(p) == (r.keeps(p) && !changes(op, p)),
{
    reveal(RawView::emit);
    reveal(RawView::keeps);
    let q = r.emit(op);
    if q.keeps(p) {
        assert(q.ops[r.ops.len() as int] == op);
        assert forall|i: int| 0 <= i < r.ops.len() implies !changes(#[trigger] r.ops[i], p) by {
            assert(q.ops[i] == r.ops[i]);
        }
    }
}

/// A statement makes no value a name.
pub broadcast proof fn lemma_emit_solid(r: RawView, op: Op, j: ValueId)
    ensures
        #[trigger] r.emit(op).solid(j) == r.solid(j),
{
    reveal(RawView::emit);
    reveal(RawView::apart);
}

/// A statement opens or closes a block.
pub broadcast proof fn lemma_emit_guards(r: RawView, op: Op)
    requires
        r.sound(),
        r.small(),
        statement(op, r.span()),
    ensures
        (#[trigger] r.emit(op)).guards() == match op {
            Op::IfBegin { cond } => r.guards().push(r.held(cond)),
            Op::ElseBegin => r.guards().push(inverse(r.ended())),
            Op::EndScope => r.guards().drop_last(),
            _ => r.guards(),
        },
        r.emit(op).ended() == if op is EndScope {
            r.guards().last()
        } else {
            r.ended()
        },
        r.straight() && straight_op(op) ==> r.emit(op).straight(),
{
    lemma_emit_extends(r, op);
    let q = r.emit(op);
    let c = r.ops.len();
    reveal(RawView::held);
    reveal(RawView::guards);
    reveal(RawView::ended);
    reveal(RawView::straight);
    lemma_conditions_extend(r, q, c);
    match op {
        Op::IfBegin { cond } => {
            lemma_read_extends(r, q, c, cond);
        },
        _ => {},
    }
    if r.straight() && straight_op(op) {
        assert forall|i: int| 0 <= i < q.ops.len() implies straight_op(#[trigger] q.ops[i]) by {
            if i < r.ops.len() {
                assert(q.ops[i] == r.ops[i]);
            }
        }
    }
}

/// A name stands for its definition.
pub proof fn lemma_named(r: RawView, j: ValueId, op: Op)
    requires
        r.sound(),
        r.small(),
        r.names(j, op),
    ensures
        r.held(j) == r.spelled(op),
{
    reveal(RawView::names);
    reveal(RawView::built);
    assert(expression(op, j as nat));
    lemma_spelled(r, op, j as nat, j as nat);
    reveal(RawView::held);
}

/// A name stays one.
pub broadcast proof fn lemma_emit_names(r: RawView, op: Op, j: ValueId, d: Op)
    ensures
        #[trigger] r.emit(op).names(j, d) == r.names(j, d),
{
    reveal(RawView::emit);
    reveal(RawView::names);
}

/// A name stays one.
pub broadcast proof fn lemma_def_names(
    r: RawView,
    dtype: DType,
    state: ValueState,
    init: Option<Op>,
    j: ValueId,
    d: Op,
)
    requires
        r.names(j, d),
    ensures
        #[trigger] r.def(dtype, state, init).0.names(j, d),
{
    reveal(RawView::def);
    reveal(RawView::names);
}

/// What the operations that build a kernel do to what it computes.
pub broadcast group group_meaning {
    lemma_def_new,
    lemma_def_old,
    lemma_def_guards,
    lemma_def_keeps,
    lemma_def_solid,
    lemma_def_names,
    lemma_emit_held,
    lemma_emit_keeps,
    lemma_emit_solid,
    lemma_emit_guards,
    lemma_emit_names,
}

} // verus!
