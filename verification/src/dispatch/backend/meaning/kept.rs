//! What the optimizer keeps.
//!
//! The definition of each value gives the same number before and after a pass, in any arithmetic
//! that the constants are computed by.

use vstd::prelude::*;

use crate::dispatch::backend::kernel::optimize::{
    closed_under, copy_all, copy_one, dead_code, factors, fold_all, fold_one, folds, fuse, fuse_all,
    invert_all, is_number, is_one, is_zero, lemma_with_init, lemma_with_state, optimized, pass,
    passes, reaches, refuse_all, refuse_sum, same_as, settled, swept, terms, used, uses,
    without_nops, FloatExpr, OptFlags,
};
use crate::dispatch::backend::kernel::raw::RawView;
use crate::dispatch::backend::meaning::arguments;
use crate::dispatch::backend::{Op, Value, ValueId, ValueState};
use crate::scalar::Float32;

verus! {

/// What a value holds: a number, an integer, or nothing where its definition makes no sense.
pub enum Datum<N> {
    Nothing,
    Number(N),
    Unsigned(u32),
    Signed(i32),
}

/// An arithmetic: what the constants stand for, what sums, differences, products and quotients of
/// numbers are, what the variables hold, and what all other operations give.
#[verifier::reject_recursive_types(N)]
pub struct Arithmetic<N> {
    pub number: spec_fn(Float32) -> N,
    pub plus: spec_fn(N, N) -> N,
    pub minus: spec_fn(N, N) -> N,
    pub times: spec_fn(N, N) -> N,
    pub over: spec_fn(N, N) -> N,
    pub held: spec_fn(ValueId) -> Datum<N>,
    pub other: spec_fn(Op, Option<Datum<N>>, Option<Datum<N>>, Option<Datum<N>>) -> Datum<N>,
}

/// The quotient of two integers, rounded towards zero.
pub open spec fn cut(a: int, b: int) -> int {
    let x = if a < 0 {
        -a
    } else {
        a
    };
    let y = if b < 0 {
        -b
    } else {
        b
    };
    if (a < 0) == (b < 0) {
        x / y
    } else {
        -(x / y)
    }
}

impl<N> Arithmetic<N> {
    pub open spec fn sum(self, x: Datum<N>, y: Datum<N>) -> Datum<N> {
        match (x, y) {
            (Datum::Number(a), Datum::Number(b)) => Datum::Number((self.plus)(a, b)),
            (Datum::Unsigned(a), Datum::Unsigned(b)) => Datum::Unsigned((a + b) as u32),
            (Datum::Signed(a), Datum::Signed(b)) => Datum::Signed((a + b) as i32),
            _ => Datum::Nothing,
        }
    }

    pub open spec fn difference(self, x: Datum<N>, y: Datum<N>) -> Datum<N> {
        match (x, y) {
            (Datum::Number(a), Datum::Number(b)) => Datum::Number((self.minus)(a, b)),
            (Datum::Unsigned(a), Datum::Unsigned(b)) => Datum::Unsigned((a - b) as u32),
            (Datum::Signed(a), Datum::Signed(b)) => Datum::Signed((a - b) as i32),
            _ => Datum::Nothing,
        }
    }

    pub open spec fn product(self, x: Datum<N>, y: Datum<N>) -> Datum<N> {
        match (x, y) {
            (Datum::Number(a), Datum::Number(b)) => Datum::Number((self.times)(a, b)),
            (Datum::Unsigned(a), Datum::Unsigned(b)) => Datum::Unsigned((a * b) as u32),
            (Datum::Signed(a), Datum::Signed(b)) => Datum::Signed((a * b) as i32),
            _ => Datum::Nothing,
        }
    }

    pub open spec fn quotient(self, x: Datum<N>, y: Datum<N>) -> Datum<N> {
        match (x, y) {
            (Datum::Number(a), Datum::Number(b)) => Datum::Number((self.over)(a, b)),
            (Datum::Unsigned(a), Datum::Unsigned(b)) if b != 0 => Datum::Unsigned(a / b),
            (Datum::Signed(a), Datum::Signed(b)) if b != 0 && cut(a as int, b as int)
                <= i32::MAX => Datum::Signed(cut(a as int, b as int) as i32),
            _ => Datum::Nothing,
        }
    }

    pub open spec fn shift_left(self, x: Datum<N>, y: Datum<N>) -> Datum<N> {
        match (x, y) {
            (Datum::Unsigned(a), Datum::Unsigned(b)) if b < 32 => Datum::Unsigned(a << b),
            (Datum::Signed(a), Datum::Signed(b)) if 0 <= b < 32 => Datum::Signed(a << b),
            _ => Datum::Nothing,
        }
    }

    pub open spec fn shift_right(self, x: Datum<N>, y: Datum<N>) -> Datum<N> {
        match (x, y) {
            (Datum::Unsigned(a), Datum::Unsigned(b)) if b < 32 => Datum::Unsigned(a >> b),
            (Datum::Signed(a), Datum::Signed(b)) if 0 <= b < 32 => Datum::Signed(a >> b),
            _ => Datum::Nothing,
        }
    }

    /// What any other operation gives. Nothing, where an operand is nothing.
    pub open spec fn rest(
        self,
        op: Op,
        a: Option<Datum<N>>,
        b: Option<Datum<N>>,
        c: Option<Datum<N>>,
    ) -> Datum<N> {
        if a == Some(Datum::<N>::Nothing) || b == Some(Datum::<N>::Nothing) || c == Some(
            Datum::<N>::Nothing,
        ) {
            Datum::Nothing
        } else {
            (self.other)(op, a, b, c)
        }
    }
}

/// What is read where a value below a bound is read.
pub open spec fn read_below<N>(
    m: Arithmetic<N>,
    vars: spec_fn(ValueId) -> bool,
    k: RawView,
    x: ValueId,
    bound: nat,
) -> Datum<N>
    decreases bound, 0nat,
{
    if x < bound {
        worth(m, vars, k, x)
    } else {
        Datum::Nothing
    }
}

/// What an operation on values below a bound gives.
pub open spec fn given<N>(
    m: Arithmetic<N>,
    vars: spec_fn(ValueId) -> bool,
    k: RawView,
    op: Op,
    bound: nat,
) -> Datum<N>
    decreases bound, 1nat,
{
    match op {
        Op::CopyVar { id } => read_below(m, vars, k, id, bound),
        Op::ConstF32 { value } => Datum::Number((m.number)(value)),
        Op::ConstU32 { value } => Datum::Unsigned(value),
        Op::ConstI32 { value } => Datum::Signed(value),
        Op::Add { a, b } => m.sum(
            read_below(m, vars, k, a, bound),
            read_below(m, vars, k, b, bound),
        ),
        Op::Sub { a, b } => m.difference(
            read_below(m, vars, k, a, bound),
            read_below(m, vars, k, b, bound),
        ),
        Op::Mul { a, b } => m.product(
            read_below(m, vars, k, a, bound),
            read_below(m, vars, k, b, bound),
        ),
        Op::Div { a, b } => m.quotient(
            read_below(m, vars, k, a, bound),
            read_below(m, vars, k, b, bound),
        ),
        Op::Shl { a, b } => m.shift_left(
            read_below(m, vars, k, a, bound),
            read_below(m, vars, k, b, bound),
        ),
        Op::Shr { a, b } => m.shift_right(
            read_below(m, vars, k, a, bound),
            read_below(m, vars, k, b, bound),
        ),
        Op::Fma { a, b, c } => m.sum(
            m.product(read_below(m, vars, k, a, bound), read_below(m, vars, k, b, bound)),
            read_below(m, vars, k, c, bound),
        ),
        _ => {
            let (a, b, c) = arguments(op);
            m.rest(
                op,
                match a {
                    Some(x) => Some(read_below(m, vars, k, x, bound)),
                    None => None,
                },
                match b {
                    Some(x) => Some(read_below(m, vars, k, x, bound)),
                    None => None,
                },
                match c {
                    Some(x) => Some(read_below(m, vars, k, x, bound)),
                    None => None,
                },
            )
        },
    }
}

/// What a value holds where it is read: a variable whatever it was last assigned, and any other
/// value what its definition gives.
pub open spec fn worth<N>(
    m: Arithmetic<N>,
    vars: spec_fn(ValueId) -> bool,
    k: RawView,
    id: ValueId,
) -> Datum<N>
    decreases id as nat, 2nat,
{
    match k.values[id as int].init {
        Some(op) if !vars(id) => given(m, vars, k, op, id as nat),
        _ => (m.held)(id),
    }
}

/// What the definition of a value gives.
pub open spec fn defined_as<N>(
    m: Arithmetic<N>,
    vars: spec_fn(ValueId) -> bool,
    k: RawView,
    id: ValueId,
) -> Datum<N> {
    match k.values[id as int].init {
        Some(op) => given(m, vars, k, op, id as nat),
        None => Datum::Nothing,
    }
}

/// Whether an operation reads a value.
pub open spec fn reads(op: Op, x: ValueId) -> bool {
    let (a, b, c) = arguments(op);
    op == (Op::CopyVar { id: x }) || a == Some(x) || b == Some(x) || c == Some(x)
}

/// Whether the definition of a value gives the same in two kernels, if it gives anything.
pub open spec fn keeps_value<N>(
    m: Arithmetic<N>,
    vars: spec_fn(ValueId) -> bool,
    k: RawView,
    q: RawView,
    id: ValueId,
) -> bool {
    &&& k.values[id as int].init is Some == q.values[id as int].init is Some
    &&& !(defined_as(m, vars, k, id) is Nothing) ==> defined_as(m, vars, q, id) == defined_as(
        m,
        vars,
        k,
        id,
    )
}

/// What an operation gives depends on the values that it reads alone.
proof fn lemma_given<N>(
    m: Arithmetic<N>,
    vars: spec_fn(ValueId) -> bool,
    k: RawView,
    q: RawView,
    op: Op,
    bound: nat,
)
    requires
        forall|x: ValueId|
            #[trigger] reads(op, x) && x < bound && !(worth(m, vars, k, x) is Nothing) ==> worth(
                m,
                vars,
                q,
                x,
            ) == worth(m, vars, k, x),
    ensures
        !(given(m, vars, k, op, bound) is Nothing) ==> given(m, vars, q, op, bound) == given(
            m,
            vars,
            k,
            op,
            bound,
        ),
{
    reveal_with_fuel(given, 2);
    reveal_with_fuel(read_below, 2);
    let (a, b, c) = arguments(op);
    if a is Some {
        assert(reads(op, a->0));
    }
    if b is Some {
        assert(reads(op, b->0));
    }
    if c is Some {
        assert(reads(op, c->0));
    }
    match op {
        Op::CopyVar { id } => {
            assert(reads(op, id));
        },
        _ => {},
    }
}

/// A value that is kept is read as before.
proof fn lemma_worth<N>(
    m: Arithmetic<N>,
    vars: spec_fn(ValueId) -> bool,
    k: RawView,
    q: RawView,
    id: ValueId,
)
    requires
        keeps_value(m, vars, k, q, id),
    ensures
        !(worth(m, vars, k, id) is Nothing) ==> worth(m, vars, q, id) == worth(m, vars, k, id),
{
    reveal_with_fuel(worth, 2);
}

/// Kernels with the same definitions give the same.
proof fn lemma_same_inits<N>(
    m: Arithmetic<N>,
    vars: spec_fn(ValueId) -> bool,
    k: RawView,
    q: RawView,
    id: ValueId,
)
    requires
        q.values.len() == k.values.len(),
        id < k.values.len(),
        forall|v: int| 0 <= v < k.values.len() ==> (#[trigger] q.values[v]).init == k.values[v].init,
    ensures
        keeps_value(m, vars, k, q, id),
    decreases id,
{
    assert(q.values[id as int].init == k.values[id as int].init);
    if k.values[id as int].init is Some {
        let op = k.values[id as int].init->0;
        assert forall|x: ValueId|
            #[trigger] reads(op, x) && x < id && !(worth(m, vars, k, x) is Nothing) implies worth(
            m,
            vars,
            q,
            x,
        ) == worth(m, vars, k, x) by {
            lemma_same_inits(m, vars, k, q, x);
            lemma_worth(m, vars, k, q, x);
        }
        lemma_given(m, vars, k, q, op, id as nat);
    }
}

/// A value that is defined otherwise, by what gives the same, keeps what all the values give.
proof fn lemma_redefined<N>(
    m: Arithmetic<N>,
    vars: spec_fn(ValueId) -> bool,
    k: RawView,
    id: ValueId,
    new: Op,
    v: ValueId,
)
    requires
        id < k.values.len(),
        v < k.values.len(),
        k.values[id as int].init is Some,
        !(defined_as(m, vars, k, id) is Nothing) ==> given(m, vars, k, new, id as nat) == defined_as(
            m,
            vars,
            k,
            id,
        ),
    ensures
        keeps_value(m, vars, k, k.with_init(id, new), v),
    decreases v,
{
    let q = k.with_init(id, new);
    assert(q.values[v as int].init == if v == id {
        Some(new)
    } else {
        k.values[v as int].init
    }) by {
        reveal(RawView::with_init);
    }
    if k.values[v as int].init is Some {
        let op = q.values[v as int].init->0;
        assert forall|x: ValueId|
            #[trigger] reads(op, x) && x < v && !(worth(m, vars, k, x) is Nothing) implies worth(
            m,
            vars,
            q,
            x,
        ) == worth(m, vars, k, x) by {
            lemma_redefined(m, vars, k, id, new, x);
            lemma_worth(m, vars, k, q, x);
        }
        lemma_given(m, vars, k, q, op, v as nat);
    }
}

/// Whether the definition of some value reads a value.
pub open spec fn is_read(k: RawView, x: ValueId) -> bool {
    exists|u: int|
        0 <= u < k.values.len() && ((#[trigger] k.values[u]).init matches Some(op) && reads(op, x))
}

/// Whether the variables that are read are variables still, and none is defined as a product or a
/// quotient.
pub open spec fn steady(vars: spec_fn(ValueId) -> bool, k: RawView) -> bool {
    &&& forall|x: ValueId|
        x < k.values.len() && #[trigger] vars(x) && is_read(k, x) ==> k.values[x as int].state is Mut
    &&& forall|x: ValueId|
        x < k.values.len() && #[trigger] vars(x) ==> !(k.values[x as int].init matches Some(
            Op::Mul { .. },
        )) && !(k.values[x as int].init matches Some(Op::Div { .. }))
}

proof fn lemma_steady_init(
    vars: spec_fn(ValueId) -> bool,
    k: RawView,
    id: ValueId,
    new: Op,
)
    requires
        id < k.values.len(),
        steady(vars, k),
        forall|x: ValueId| #[trigger] reads(new, x) ==> is_read(k, x),
        vars(id) ==> !(new is Mul) && !(new is Div),
    ensures
        steady(vars, k.with_init(id, new)),
        k.with_init(id, new).values.len() == k.values.len(),
{
    reveal(RawView::with_init);
    let q = k.with_init(id, new);
    assert forall|x: ValueId|
        x < q.values.len() && #[trigger] vars(x) && is_read(q, x) implies q.values[x as int].state
        is Mut by {
        let u = choose|u: int|
            0 <= u < q.values.len() && ((#[trigger] q.values[u]).init matches Some(op) && reads(
                op,
                x,
            ));
        if u != id {
            assert(k.values[u].init == q.values[u].init);
            assert(is_read(k, x));
        } else {
            assert(reads(new, x));
        }
        assert(k.values[x as int].state == q.values[x as int].state);
    }
}

proof fn lemma_steady_masked(vars: spec_fn(ValueId) -> bool, k: RawView, a: ValueId)
    requires
        a < k.values.len(),
        steady(vars, k),
        !vars(a) || !is_read(k, a),
    ensures
        steady(vars, k.with_state(a, ValueState::Masked)),
        k.with_state(a, ValueState::Masked).values.len() == k.values.len(),
        forall|v: int|
            0 <= v < k.values.len() ==> (#[trigger] k.with_state(
                a,
                ValueState::Masked,
            ).values[v]).init == k.values[v].init,
{
    reveal(RawView::with_state);
    let q = k.with_state(a, ValueState::Masked);
    assert forall|x: ValueId|
        x < q.values.len() && #[trigger] vars(x) && is_read(q, x) implies q.values[x as int].state
        is Mut by {
        let u = choose|u: int|
            0 <= u < q.values.len() && ((#[trigger] q.values[u]).init matches Some(op) && reads(
                op,
                x,
            ));
        assert(k.values[u].init == q.values[u].init);
        assert(is_read(k, x));
    }
    assert forall|x: ValueId| x < q.values.len() && #[trigger] vars(x) implies !(
    q.values[x as int].init matches Some(Op::Mul { .. })) && !(
    q.values[x as int].init matches Some(Op::Div { .. })) by {
        assert(k.values[x as int].init == q.values[x as int].init);
    }
}

/// Whether the order of the terms of a sum is of no account.
pub open spec fn commutes<N>(m: Arithmetic<N>) -> bool {
    forall|a: N, b: N| #[trigger] (m.plus)(a, b) == (m.plus)(b, a)
}

/// A sum with a product gives what one operation gives.
proof fn lemma_fused<N>(
    m: Arithmetic<N>,
    vars: spec_fn(ValueId) -> bool,
    k: RawView,
    id: ValueId,
    a: ValueId,
    b: ValueId,
    x: ValueId,
    y: ValueId,
)
    requires
        commutes(m),
        steady(vars, k),
        id < k.values.len(),
        a < k.values.len(),
        k.values[a as int].init == Some(Op::Mul { a: x, b: y }),
        k.values[id as int].init == Some(Op::Add { a, b }) || k.values[id as int].init == Some(
            Op::Add { a: b, b: a },
        ),
    ensures
        !(defined_as(m, vars, k, id) is Nothing) ==> given(
            m,
            vars,
            k,
            Op::Fma { a: x, b: y, c: b },
            id as nat,
        ) == defined_as(m, vars, k, id),
{
    assert(!vars(a));
    reveal_with_fuel(given, 3);
    reveal_with_fuel(worth, 3);
    reveal_with_fuel(read_below, 3);
}

/// What a kernel keeps of another.
pub open spec fn keeps<N>(
    m: Arithmetic<N>,
    vars: spec_fn(ValueId) -> bool,
    k: RawView,
    q: RawView,
) -> bool {
    &&& q.values.len() == k.values.len()
    &&& forall|v: ValueId| v < k.values.len() ==> #[trigger] keeps_value(m, vars, k, q, v)
}

proof fn lemma_keeps_init<N>(
    m: Arithmetic<N>,
    vars: spec_fn(ValueId) -> bool,
    k: RawView,
    id: ValueId,
    new: Op,
)
    requires
        id < k.values.len(),
        k.values[id as int].init is Some,
        !(defined_as(m, vars, k, id) is Nothing) ==> given(m, vars, k, new, id as nat) == defined_as(
            m,
            vars,
            k,
            id,
        ),
    ensures
        keeps(m, vars, k, k.with_init(id, new)),
{
    assert(k.with_init(id, new).values.len() == k.values.len()) by {
        reveal(RawView::with_init);
    }
    assert forall|v: ValueId| v < k.values.len() implies #[trigger] keeps_value(
        m,
        vars,
        k,
        k.with_init(id, new),
        v,
    ) by {
        lemma_redefined(m, vars, k, id, new, v);
    }
}

proof fn lemma_keeps_same<N>(
    m: Arithmetic<N>,
    vars: spec_fn(ValueId) -> bool,
    k: RawView,
    q: RawView,
)
    requires
        q.values.len() == k.values.len(),
        forall|v: int| 0 <= v < k.values.len() ==> (#[trigger] q.values[v]).init == k.values[v].init,
    ensures
        keeps(m, vars, k, q),
{
    assert forall|v: ValueId| v < k.values.len() implies #[trigger] keeps_value(
        m,
        vars,
        k,
        q,
        v,
    ) by {
        lemma_same_inits(m, vars, k, q, v);
    }
}

proof fn lemma_keeps_on<N>(
    m: Arithmetic<N>,
    vars: spec_fn(ValueId) -> bool,
    k: RawView,
    p: RawView,
    q: RawView,
)
    requires
        keeps(m, vars, k, p),
        keeps(m, vars, p, q),
    ensures
        keeps(m, vars, k, q),
{
    assert forall|v: ValueId| v < k.values.len() implies #[trigger] keeps_value(
        m,
        vars,
        k,
        q,
        v,
    ) by {
        assert(keeps_value(m, vars, k, p, v));
        assert(keeps_value(m, vars, p, q, v));
    }
}

/// A constant that some number is divided by.
pub open spec fn divides(
    vars: spec_fn(ValueId) -> bool,
    k: RawView,
    b: ValueId,
    v: int,
) -> bool {
    &&& 0 <= v < k.values.len()
    &&& b < k.values.len()
    &&& !vars(b)
    &&& k.values[b as int].init matches Some(Op::ConstF32 { .. })
    &&& k.values[v].dtype is Float
    &&& k.values[v].init matches Some(Op::Div { b: d, .. })
    &&& d == b
}

/// Whether a value is a constant that some number is divided by.
pub open spec fn divisor(vars: spec_fn(ValueId) -> bool, k: RawView, b: ValueId) -> bool {
    exists|v: int| #[trigger] divides(vars, k, b, v)
}

/// Whether each constant that a number is divided by is read there only.
pub open spec fn lone_divisors(vars: spec_fn(ValueId) -> bool, k: RawView) -> bool {
    &&& forall|b: ValueId, v: int| #[trigger]
        divides(vars, k, b, v) ==> (k.values[v].init matches Some(Op::Div { a, .. }) && a != b)
    &&& forall|b: ValueId, v: int, u: int|
        #![trigger divides(vars, k, b, v), k.values[u]]
        divides(vars, k, b, v) && 0 <= u < k.values.len() && (k.values[u].init matches Some(op)
            && reads(op, b)) ==> u == v
}

/// Whether a kernel divides by constants as another does.
spec fn divides_as(vars: spec_fn(ValueId) -> bool, k: RawView, q: RawView) -> bool {
    &&& forall|b: ValueId, v: int| #[trigger] divides(vars, q, b, v) <==> divides(vars, k, b, v)
    &&& lone_divisors(vars, k) ==> lone_divisors(vars, q)
}

proof fn lemma_divides_one(
    vars: spec_fn(ValueId) -> bool,
    k: RawView,
    id: ValueId,
    x: ValueId,
    y: ValueId,
    c: ValueId,
    p: ValueId,
)
    requires
        id < k.values.len(),
        p < k.values.len(),
        k.values[id as int].init matches Some(Op::Add { a, b }) && (a == c || b == c),
        k.values[p as int].init == Some(Op::Mul { a: x, b: y }),
    ensures
        divides_as(vars, k, k.with_init(id, Op::Fma { a: x, b: y, c })),
{
    reveal(RawView::with_init);
    let new = Op::Fma { a: x, b: y, c };
    let q = k.with_init(id, new);
    assert forall|d: ValueId, v: int| #[trigger] divides(vars, q, d, v) <==> divides(
        vars,
        k,
        d,
        v,
    ) by {}
    if lone_divisors(vars, k) {
        assert forall|d: ValueId, v: int| #[trigger]
            divides(vars, q, d, v) implies (q.values[v].init matches Some(Op::Div { a, .. }) && a
            != d) by {
            assert(divides(vars, k, d, v));
        }
        assert forall|d: ValueId, v: int, u: int|
            #![trigger divides(vars, q, d, v), q.values[u]]
            divides(vars, q, d, v) && 0 <= u < q.values.len() && (q.values[u].init matches Some(op)
                && reads(op, d)) implies u == v by {
            assert(divides(vars, k, d, v));
            if u == id {
                assert(reads(new, d));
                let w: int = if d == c {
                    id as int
                } else {
                    p as int
                };
                assert(reads(k.values[w].init->0, d));
                assert(w == v);
            } else {
                assert(k.values[u].init == q.values[u].init);
            }
        }
    }
}

/// Whether a kernel is steady, and arithmetic reads values of the kernel only.
pub open spec fn tidy(vars: spec_fn(ValueId) -> bool, k: RawView) -> bool {
    &&& steady(vars, k)
    &&& closed_under(k)
    &&& k.values.len() <= usize::MAX
}

proof fn lemma_same_divides(vars: spec_fn(ValueId) -> bool, k: RawView, q: RawView)
    requires
        q.values.len() == k.values.len(),
        forall|v: int|
            0 <= v < k.values.len() ==> (#[trigger] q.values[v]).init == k.values[v].init
                && q.values[v].dtype == k.values[v].dtype,
    ensures
        divides_as(vars, k, q),
{
    assert forall|d: ValueId, v: int| #[trigger] divides(vars, q, d, v) <==> divides(
        vars,
        k,
        d,
        v,
    ) by {
        if 0 <= v < k.values.len() && d < k.values.len() {
            assert(q.values[v].init == k.values[v].init);
            assert(q.values[d as int].init == k.values[d as int].init);
        }
    }
    if lone_divisors(vars, k) {
        assert forall|d: ValueId, v: int| #[trigger]
            divides(vars, q, d, v) implies (q.values[v].init matches Some(Op::Div { a, .. }) && a
            != d) by {
            assert(divides(vars, k, d, v));
        }
        assert forall|d: ValueId, v: int, u: int|
            #![trigger divides(vars, q, d, v), q.values[u]]
            divides(vars, q, d, v) && 0 <= u < q.values.len() && (q.values[u].init matches Some(op)
                && reads(op, d)) implies u == v by {
            assert(divides(vars, k, d, v));
            assert(k.values[u].init == q.values[u].init);
        }
    }
}

proof fn lemma_divides_on(
    vars: spec_fn(ValueId) -> bool,
    k: RawView,
    p: RawView,
    q: RawView,
)
    requires
        divides_as(vars, k, p),
        divides_as(vars, p, q),
    ensures
        divides_as(vars, k, q),
{
    assert forall|d: ValueId, v: int| #[trigger] divides(vars, q, d, v) <==> divides(
        vars,
        k,
        d,
        v,
    ) by {
        assert(divides(vars, p, d, v) <==> divides(vars, k, d, v));
    }
}

/// What a step of the optimizer keeps.
spec fn steps<N>(
    m: Arithmetic<N>,
    vars: spec_fn(ValueId) -> bool,
    k: RawView,
    q: RawView,
) -> bool {
    &&& keeps(m, vars, k, q)
    &&& tidy(vars, q)
    &&& divides_as(vars, k, q)
}

proof fn lemma_steps_on<N>(
    m: Arithmetic<N>,
    vars: spec_fn(ValueId) -> bool,
    k: RawView,
    p: RawView,
    q: RawView,
)
    requires
        steps(m, vars, k, p),
        steps(m, vars, p, q),
    ensures
        steps(m, vars, k, q),
{
    lemma_keeps_on(m, vars, k, p, q);
    lemma_divides_on(vars, k, p, q);
}

proof fn lemma_steps_none<N>(m: Arithmetic<N>, vars: spec_fn(ValueId) -> bool, k: RawView)
    requires
        tidy(vars, k),
    ensures
        steps(m, vars, k, k),
{
    lemma_keeps_same(m, vars, k, k);
    lemma_same_divides(vars, k, k);
}

/// What a definition reads, its operation names as an operand.
proof fn lemma_reads_uses(op: Op, x: ValueId)
    requires
        reads(op, x),
    ensures
        uses(op, x),
{
}

proof fn lemma_dead_code_steps<N>(
    m: Arithmetic<N>,
    vars: spec_fn(ValueId) -> bool,
    k: RawView,
    n: nat,
)
    requires
        tidy(vars, k),
        n <= k.values.len(),
    ensures
        steps(m, vars, k, dead_code(k, n)),
    decreases n,
{
    if n == 0 {
        lemma_steps_none(m, vars, k);
    } else {
        lemma_dead_code_steps(m, vars, k, (n - 1) as nat);
        let p = dead_code(k, (n - 1) as nat);
        let id = (n - 1) as usize;
        let q = dead_code(k, n);
        if !(p.values[n - 1].state is Masked) && !used(p, id) {
            if is_read(p, id) {
                let u = choose|u: int|
                    0 <= u < p.values.len() && ((#[trigger] p.values[u]).init matches Some(op)
                        && reads(op, id));
                lemma_reads_uses(p.values[u].init->0, id);
            }
            lemma_steady_masked(vars, p, id);
            lemma_with_state(p, id, ValueState::Masked);
            let s = p.with_state(id, ValueState::Masked);
            assert(q.values == s.values);
            assert(forall|v: int|
                0 <= v < p.values.len() ==> (#[trigger] q.values[v]).init == p.values[v].init
                    && q.values[v].dtype == p.values[v].dtype) by {
                reveal(RawView::with_state);
            }
            lemma_keeps_same(m, vars, p, q);
            lemma_same_divides(vars, p, q);
            assert(tidy(vars, q)) by {
                assert(forall|x: ValueId| is_read(q, x) == is_read(s, x));
            }
            assert(steps(m, vars, p, q));
            lemma_steps_on(m, vars, k, p, q);
        }
    }
}

/// A sum with a product is turned into one operation.
proof fn lemma_fma_steps<N>(
    m: Arithmetic<N>,
    vars: spec_fn(ValueId) -> bool,
    k: RawView,
    id: ValueId,
    a: ValueId,
    b: ValueId,
    x: ValueId,
    y: ValueId,
)
    requires
        commutes(m),
        tidy(vars, k),
        id < k.values.len(),
        k.values[a as int].init == Some(Op::Mul { a: x, b: y }),
        k.values[id as int].init == Some(Op::Add { a, b }) || k.values[id as int].init == Some(
            Op::Add { a: b, b: a },
        ),
    ensures
        steps(m, vars, k, k.with_init(id, Op::Fma { a: x, b: y, c: b })),
{
    let new = Op::Fma { a: x, b: y, c: b };
    assert(reaches(k.values[id as int].init->0, k.values.len()));
    assert(reaches(k.values[a as int].init->0, k.values.len()));
    lemma_fused(m, vars, k, id, a, b, x, y);
    lemma_keeps_init(m, vars, k, id, new);
    lemma_with_init(k, id, new);
    assert forall|z: ValueId| #[trigger] reads(new, z) implies is_read(k, z) by {
        if z == b {
            assert(reads(k.values[id as int].init->0, z));
        } else {
            assert(reads(k.values[a as int].init->0, z));
        }
    }
    lemma_steady_init(vars, k, id, new);
    lemma_divides_one(vars, k, id, x, y, b, a);
}

proof fn lemma_fuse_steps<N>(
    m: Arithmetic<N>,
    vars: spec_fn(ValueId) -> bool,
    k: RawView,
    id: ValueId,
)
    requires
        commutes(m),
        tidy(vars, k),
        id < k.values.len(),
    ensures
        steps(m, vars, k, fuse(k, id)),
{
    lemma_steps_none(m, vars, k);
    if is_number(k.values[id as int]) && terms(k.values[id as int]) is Some {
        let (l, r) = terms(k.values[id as int])->0;
        assert(reaches(k.values[id as int].init->0, k.values.len()));
        if factors(k.values[l as int]) is Some || factors(k.values[r as int]) is Some {
            let (a, b) = if factors(k.values[l as int]) is Some {
                (l, r)
            } else {
                (r, l)
            };
            let (x, y) = factors(k.values[a as int])->0;
            let p = k.with_state(a, ValueState::Masked);
            lemma_steady_masked(vars, k, a);
            lemma_with_state(k, a, ValueState::Masked);
            assert(forall|v: int|
                0 <= v < k.values.len() ==> (#[trigger] p.values[v]).init == k.values[v].init
                    && p.values[v].dtype == k.values[v].dtype) by {
                reveal(RawView::with_state);
            }
            lemma_keeps_same(m, vars, k, p);
            lemma_same_divides(vars, k, p);
            lemma_fma_steps(m, vars, p, id, a, b, x, y);
            lemma_steps_on(m, vars, k, p, p.with_init(id, Op::Fma { a: x, b: y, c: b }));
        }
    }
}

proof fn lemma_fuse_all_steps<N>(
    m: Arithmetic<N>,
    vars: spec_fn(ValueId) -> bool,
    k: RawView,
    n: nat,
)
    requires
        commutes(m),
        tidy(vars, k),
        n <= k.values.len(),
    ensures
        steps(m, vars, k, fuse_all(k, n)),
    decreases n,
{
    if n == 0 {
        lemma_steps_none(m, vars, k);
    } else {
        lemma_fuse_all_steps(m, vars, k, (n - 1) as nat);
        let p = fuse_all(k, (n - 1) as nat);
        lemma_fuse_steps(m, vars, p, (n - 1) as usize);
        lemma_steps_on(m, vars, k, p, fuse_all(k, n));
    }
}

proof fn lemma_refuse_steps<N>(
    m: Arithmetic<N>,
    vars: spec_fn(ValueId) -> bool,
    k: RawView,
    was: Value,
    id: ValueId,
)
    requires
        commutes(m),
        tidy(vars, k),
        id < k.values.len(),
        k.values[id as int].init == was.init,
    ensures
        steps(m, vars, k, refuse_sum(k, was, id)),
        forall|v: int|
            0 <= v < k.values.len() && v != id ==> (#[trigger] refuse_sum(
                k,
                was,
                id,
            ).values[v]).init == k.values[v].init,
{
    lemma_steps_none(m, vars, k);
    reveal(RawView::with_init);
    if is_number(was) && terms(was) is Some {
        let (a, b) = terms(was)->0;
        assert(reaches(k.values[id as int].init->0, k.values.len()));
        let p = match factors(k.values[a as int]) {
            Some((x, y)) => k.with_init(id, Op::Fma { a: x, b: y, c: b }),
            None => k,
        };
        if factors(k.values[a as int]) is Some {
            let (x, y) = factors(k.values[a as int])->0;
            lemma_fma_steps(m, vars, k, id, a, b, x, y);
        }
        if factors(p.values[b as int]) is Some {
            let (x, y) = factors(p.values[b as int])->0;
            let new = Op::Fma { a: x, b: y, c: a };
            assert(b != id);
            assert(k.values[b as int].init == p.values[b as int].init);
            lemma_fma_steps(m, vars, k, id, b, a, x, y);
            assert(p.with_init(id, new).values =~= k.with_init(id, new).values);
            assert(p.with_init(id, new) == k.with_init(id, new));
        }
    }
}

proof fn lemma_refuse_all_steps<N>(
    m: Arithmetic<N>,
    vars: spec_fn(ValueId) -> bool,
    k: RawView,
    n: nat,
)
    requires
        commutes(m),
        tidy(vars, k),
        n <= k.values.len(),
    ensures
        steps(m, vars, k, refuse_all(k, n)),
        forall|v: int|
            n <= v < k.values.len() ==> (#[trigger] refuse_all(k, n).values[v]).init
                == k.values[v].init,
    decreases n,
{
    if n == 0 {
        lemma_steps_none(m, vars, k);
    } else {
        lemma_refuse_all_steps(m, vars, k, (n - 1) as nat);
        let p = refuse_all(k, (n - 1) as nat);
        lemma_refuse_steps(m, vars, p, k.values[n - 1], (n - 1) as usize);
        lemma_steps_on(m, vars, k, p, refuse_all(k, n));
    }
}

/// Whether dividing by a constant is multiplying by its inverse.
pub open spec fn inverts<N>(m: Arithmetic<N>, t: spec_fn(FloatExpr) -> Float32) -> bool {
    forall|x: N, v: Float32|
        #![trigger (m.over)(x, (m.number)(v))]
        (m.over)(x, (m.number)(v)) == (m.times)(x, (m.number)(t(FloatExpr::Inverse(v))))
}

/// Whether the constants are computed as the numbers that they stand for.
pub open spec fn exact<N>(m: Arithmetic<N>, t: spec_fn(FloatExpr) -> Float32) -> bool {
    &&& forall|a: Float32, b: Float32|
        (m.number)(#[trigger] t(FloatExpr::Add(a, b))) == (m.plus)((m.number)(a), (m.number)(b))
    &&& forall|a: Float32, b: Float32|
        (m.number)(#[trigger] t(FloatExpr::Sub(a, b))) == (m.minus)((m.number)(a), (m.number)(b))
    &&& forall|a: Float32, b: Float32|
        (m.number)(#[trigger] t(FloatExpr::Mul(a, b))) == (m.times)((m.number)(a), (m.number)(b))
    &&& forall|a: Float32, b: Float32|
        (m.number)(#[trigger] t(FloatExpr::Div(a, b))) == (m.over)((m.number)(a), (m.number)(b))
    &&& forall|a: Float32, b: Float32, c: Float32|
        (m.number)(#[trigger] t(FloatExpr::MulAdd(a, b, c))) == (m.plus)(
            (m.times)((m.number)(a), (m.number)(b)),
            (m.number)(c),
        )
}

/// Whether adding or subtracting zero changes no number, nor multiplying by one or dividing by it.
#[verifier::opaque]
pub open spec fn neutral<N>(m: Arithmetic<N>) -> bool {
    &&& forall|x: N, v: Float32|
        #![trigger (m.plus)(x, (m.number)(v))]
        v.zero() ==> (m.plus)(x, (m.number)(v)) == x
    &&& forall|x: N, v: Float32|
        #![trigger (m.plus)((m.number)(v), x)]
        v.zero() ==> (m.plus)((m.number)(v), x) == x
    &&& forall|x: N, v: Float32|
        #![trigger (m.minus)(x, (m.number)(v))]
        v.zero() ==> (m.minus)(x, (m.number)(v)) == x
    &&& forall|x: N, v: Float32|
        #![trigger (m.times)(x, (m.number)(v))]
        v.one() ==> (m.times)(x, (m.number)(v)) == x
    &&& forall|x: N, v: Float32|
        #![trigger (m.times)((m.number)(v), x)]
        v.one() ==> (m.times)((m.number)(v), x) == x
    &&& forall|x: N, v: Float32|
        #![trigger (m.over)(x, (m.number)(v))]
        v.one() ==> (m.over)(x, (m.number)(v)) == x
}

/// Whether the laws hold that each part of the optimizer that is asked for rests on.
pub open spec fn lawful<N>(
    m: Arithmetic<N>,
    flags: OptFlags,
    t: spec_fn(FloatExpr) -> Float32,
) -> bool {
    &&& flags.mul_add ==> commutes(m)
    &&& flags.div_const ==> inverts(m, t)
    &&& flags.const_fold ==> exact(m, t)
    &&& flags.identity ==> neutral(m)
}

/// What a constant that is read holds.
proof fn lemma_settled<N>(
    m: Arithmetic<N>,
    vars: spec_fn(ValueId) -> bool,
    k: RawView,
    id: ValueId,
    a: ValueId,
)
    requires
        tidy(vars, k),
        id < k.values.len(),
        a < k.values.len(),
        k.values[id as int].init matches Some(op) && reads(op, a),
        settled(k.values[a as int]) is Some,
    ensures
        worth(m, vars, k, a) == given(m, vars, k, settled(k.values[a as int])->0, a as nat),
{
    assert(is_read(k, a)) by {
        assert(reads(k.values[id as int].init->0, a));
    }
    assert(!vars(a));
    reveal_with_fuel(worth, 2);
}

proof fn lemma_fold_keeps<N>(
    m: Arithmetic<N>,
    vars: spec_fn(ValueId) -> bool,
    k: RawView,
    id: ValueId,
    t: spec_fn(FloatExpr) -> Float32,
)
    requires
        exact(m, t),
        tidy(vars, k),
        id < k.values.len(),
    ensures
        keeps(m, vars, k, fold_one(k, id, t)),
        tidy(vars, fold_one(k, id, t)),
{
    lemma_keeps_same(m, vars, k, k);
    if k.values[id as int].init is Some && !(k.values[id as int].state is Masked) {
        let op = k.values[id as int].init->0;
        if folds(k, op, t) is Some {
            let new = folds(k, op, t)->0;
            assert(reaches(op, k.values.len()));
            reveal_with_fuel(given, 3);
            reveal_with_fuel(read_below, 3);
            match op {
                Op::Add { a, b }
                | Op::Mul { a, b }
                | Op::Sub { a, b }
                | Op::Div { a, b }
                | Op::Shr { a, b }
                | Op::Shl { a, b } => {
                    assert(reads(op, a) && reads(op, b));
                    lemma_settled(m, vars, k, id, a);
                    lemma_settled(m, vars, k, id, b);
                },
                Op::Fma { a, b, c } => {
                    assert(reads(op, a) && reads(op, b) && reads(op, c));
                    lemma_settled(m, vars, k, id, a);
                    lemma_settled(m, vars, k, id, b);
                    lemma_settled(m, vars, k, id, c);
                },
                _ => {},
            }
            lemma_keeps_init(m, vars, k, id, new);
            lemma_with_init(k, id, new);
            lemma_steady_init(vars, k, id, new);
        }
    }
}

proof fn lemma_fold_all_keeps<N>(
    m: Arithmetic<N>,
    vars: spec_fn(ValueId) -> bool,
    k: RawView,
    n: nat,
    t: spec_fn(FloatExpr) -> Float32,
)
    requires
        exact(m, t),
        tidy(vars, k),
        n <= k.values.len(),
    ensures
        keeps(m, vars, k, fold_all(k, n, t)),
        tidy(vars, fold_all(k, n, t)),
    decreases n,
{
    if n == 0 {
        lemma_keeps_same(m, vars, k, k);
    } else {
        lemma_fold_all_keeps(m, vars, k, (n - 1) as nat, t);
        let p = fold_all(k, (n - 1) as nat, t);
        lemma_fold_keeps(m, vars, p, (n - 1) as usize, t);
        lemma_keeps_on(m, vars, k, p, fold_all(k, n, t));
    }
}

/// What a constant stands for.
spec fn constant<N>(m: Arithmetic<N>, op: Op) -> Datum<N> {
    match op {
        Op::ConstF32 { value } => Datum::Number((m.number)(value)),
        Op::ConstU32 { value } => Datum::Unsigned(value),
        Op::ConstI32 { value } => Datum::Signed(value),
        _ => Datum::Nothing,
    }
}

proof fn lemma_zero<N>(m: Arithmetic<N>, x: Datum<N>, op: Op)
    requires
        neutral(m),
        op.zero(),
    ensures
        m.sum(x, constant(m, op)) is Nothing || m.sum(x, constant(m, op)) == x,
        m.sum(constant(m, op), x) is Nothing || m.sum(constant(m, op), x) == x,
        m.difference(x, constant(m, op)) is Nothing || m.difference(x, constant(m, op)) == x,
{
    reveal(neutral);
}

proof fn lemma_one<N>(m: Arithmetic<N>, x: Datum<N>, op: Op)
    requires
        neutral(m),
        op.one(),
    ensures
        m.product(x, constant(m, op)) is Nothing || m.product(x, constant(m, op)) == x,
        m.product(constant(m, op), x) is Nothing || m.product(constant(m, op), x) == x,
        m.quotient(x, constant(m, op)) is Nothing || m.quotient(x, constant(m, op)) == x,
{
    reveal(neutral);
    match (x, op) {
        (Datum::Unsigned(a), Op::ConstU32 { value }) => {
            assert(a * value == a && value * a == a && a / value == a) by (nonlinear_arith)
                requires
                    value == 1,
            ;
        },
        (Datum::Signed(a), Op::ConstI32 { value }) => {
            assert(a * value == a && value * a == a) by (nonlinear_arith)
                requires
                    value == 1,
            ;
            assert(cut(a as int, 1) == a);
        },
        _ => {},
    }
}

/// An operation with an operand that changes nothing gives the other operand.
proof fn lemma_same_as<N>(
    m: Arithmetic<N>,
    vars: spec_fn(ValueId) -> bool,
    k: RawView,
    id: ValueId,
)
    requires
        neutral(m),
        tidy(vars, k),
        id < k.values.len(),
        k.values[id as int].init matches Some(op) && same_as(k, op) is Some,
    ensures
        ({
            let op = k.values[id as int].init->0;
            let new = Op::CopyVar { id: same_as(k, op)->0 };
            &&& reads(op, same_as(k, op)->0)
            &&& !(given(m, vars, k, op, id as nat) is Nothing) ==> given(
                m,
                vars,
                k,
                new,
                id as nat,
            ) == given(m, vars, k, op, id as nat)
        }),
{
    let op = k.values[id as int].init->0;
    assert(reaches(op, k.values.len()));
    let (a, b) = match op {
        Op::Add { a, b } | Op::Mul { a, b } | Op::Sub { a, b } | Op::Div { a, b } => (a, b),
        _ => (0, 0),
    };
    assert(reads(op, a) && reads(op, b));
    let x = read_below(m, vars, k, a, id as nat);
    let y = read_below(m, vars, k, b, id as nat);
    if is_zero(k, a) || is_one(k, a) {
        lemma_settled(m, vars, k, id, a);
        let c = settled(k.values[a as int])->0;
        assert(worth(m, vars, k, a) == constant(m, c));
        if c.zero() {
            lemma_zero(m, y, c);
        } else {
            lemma_one(m, y, c);
        }
    }
    if is_zero(k, b) || is_one(k, b) {
        lemma_settled(m, vars, k, id, b);
        let c = settled(k.values[b as int])->0;
        assert(worth(m, vars, k, b) == constant(m, c));
        if c.zero() {
            lemma_zero(m, x, c);
        } else {
            lemma_one(m, x, c);
        }
    }
}

proof fn lemma_copy_keeps<N>(
    m: Arithmetic<N>,
    vars: spec_fn(ValueId) -> bool,
    k: RawView,
    id: ValueId,
)
    requires
        neutral(m),
        tidy(vars, k),
        id < k.values.len(),
    ensures
        keeps(m, vars, k, copy_one(k, id)),
        tidy(vars, copy_one(k, id)),
{
    lemma_keeps_same(m, vars, k, k);
    if k.values[id as int].init is Some && !(k.values[id as int].state is Masked) {
        let op = k.values[id as int].init->0;
        if same_as(k, op) is Some {
            let new = Op::CopyVar { id: same_as(k, op)->0 };
            lemma_same_as(m, vars, k, id);
            lemma_keeps_init(m, vars, k, id, new);
            lemma_with_init(k, id, new);
            assert forall|x: ValueId| #[trigger] reads(new, x) implies is_read(k, x) by {
                assert(reads(k.values[id as int].init->0, x));
            }
            lemma_steady_init(vars, k, id, new);
        }
    }
}

proof fn lemma_copy_all_keeps<N>(
    m: Arithmetic<N>,
    vars: spec_fn(ValueId) -> bool,
    k: RawView,
    n: nat,
)
    requires
        neutral(m),
        tidy(vars, k),
        n <= k.values.len(),
    ensures
        keeps(m, vars, k, copy_all(k, n)),
        tidy(vars, copy_all(k, n)),
    decreases n,
{
    if n == 0 {
        lemma_keeps_same(m, vars, k, k);
    } else {
        lemma_copy_all_keeps(m, vars, k, (n - 1) as nat);
        let p = copy_all(k, (n - 1) as nat);
        lemma_copy_keeps(m, vars, p, (n - 1) as usize);
        lemma_keeps_on(m, vars, k, p, copy_all(k, n));
    }
}

/// Whether a division by a constant becomes a product.
spec fn turned(k: RawView, v: int) -> bool {
    &&& 0 <= v < k.values.len()
    &&& is_number(k.values[v])
    &&& k.values[v].init matches Some(Op::Div { b, .. })
    &&& !(k.values[b as int].state is Mut)
    &&& k.values[b as int].init matches Some(Op::ConstF32 { .. })
}

/// Whether a constant becomes its inverse.
spec fn flipped(k: RawView, n: int, b: int) -> bool {
    exists|u: int|
        u < n && #[trigger] turned(k, u) && (k.values[u].init matches Some(Op::Div { b: d, .. })
            && d == b)
}

/// The definition of a value after the first divisions have become products.
spec fn inverted_init(k: RawView, n: int, t: spec_fn(FloatExpr) -> Float32, v: int) -> Option<Op> {
    if v < n && turned(k, v) {
        match k.values[v].init {
            Some(Op::Div { a, b }) => Some(Op::Mul { a, b }),
            _ => None,
        }
    } else if flipped(k, n, v) {
        match k.values[v].init {
            Some(Op::ConstF32 { value }) => Some(
                Op::ConstF32 { value: t(FloatExpr::Inverse(value)) },
            ),
            _ => None,
        }
    } else {
        k.values[v].init
    }
}

proof fn lemma_turned_divides(vars: spec_fn(ValueId) -> bool, k: RawView, v: int)
    requires
        tidy(vars, k),
        turned(k, v),
    ensures
        k.values[v].init matches Some(Op::Div { a, b }) && divides(vars, k, b, v) && a
            < k.values.len(),
{
    let op = k.values[v].init->0;
    assert(reaches(op, k.values.len()));
    match op {
        Op::Div { a, b } => {
            assert(reads(op, b));
            assert(is_read(k, b));
        },
        _ => {},
    }
}

/// What the definitions are once the first divisions by constants have become products.
proof fn lemma_invert_all(
    vars: spec_fn(ValueId) -> bool,
    k: RawView,
    n: nat,
    t: spec_fn(FloatExpr) -> Float32,
)
    requires
        tidy(vars, k),
        lone_divisors(vars, k),
        n <= k.values.len(),
    ensures
        ({
            let q = invert_all(k, n, t);
            &&& q.values.len() == k.values.len()
            &&& forall|v: int|
                0 <= v < k.values.len() ==> (#[trigger] q.values[v]).init == inverted_init(
                    k,
                    n as int,
                    t,
                    v,
                ) && q.values[v].state == k.values[v].state && q.values[v].dtype
                    == k.values[v].dtype
        }),
    decreases n,
{
    if n == 0 {
        assert forall|v: int| 0 <= v < k.values.len() implies inverted_init(k, 0, t, v)
            == k.values[v].init by {}
    } else {
        lemma_invert_all(vars, k, (n - 1) as nat, t);
        let p = invert_all(k, (n - 1) as nat, t);
        let q = invert_all(k, n, t);
        let w = n - 1;
        if turned(k, w) {
            lemma_turned_divides(vars, k, w);
            let (a, b) = match k.values[w].init {
                Some(Op::Div { a, b }) => (a, b),
                _ => (0, 0),
            };
            assert(!flipped(k, w, b as int)) by {
                if flipped(k, w, b as int) {
                    let u = choose|u: int|
                        u < w && #[trigger] turned(k, u) && (k.values[u].init matches Some(
                            Op::Div { b: d, .. },
                        ) && d == b);
                    lemma_turned_divides(vars, k, u);
                    assert(reads(k.values[w].init->0, b));
                    assert(divides(vars, k, b, u));
                }
            }
            assert(p.values[b as int].init == k.values[b as int].init);
            let value = match k.values[b as int].init {
                Some(Op::ConstF32 { value }) => value,
                _ => Float32 { bits: 0 },
            };
            assert(q == p.with_init(
                b,
                Op::ConstF32 { value: t(FloatExpr::Inverse(value)) },
            ).with_init(w as usize, Op::Mul { a, b }));
            assert(q.values.len() == k.values.len()) by {
                reveal(RawView::with_init);
            }
            assert forall|v: int| 0 <= v < k.values.len() implies (#[trigger] q.values[v]).init
                == inverted_init(k, n as int, t, v) && q.values[v].state == k.values[v].state
                && q.values[v].dtype == k.values[v].dtype by {
                reveal(RawView::with_init);
                assert(p.values[v].init == inverted_init(k, w, t, v));
                if v == b {
                    assert(turned(k, w) && flipped(k, n as int, v));
                } else if v != w {
                    assert(flipped(k, n as int, v) == flipped(k, w, v)) by {
                        if flipped(k, n as int, v) {
                            let u = choose|u: int|
                                u < n && #[trigger] turned(k, u) && (k.values[u].init matches Some(
                                    Op::Div { b: d, .. },
                                ) && d == v);
                            assert(u < w);
                        }
                        if flipped(k, w, v) {
                            let u = choose|u: int|
                                u < w && #[trigger] turned(k, u) && (k.values[u].init matches Some(
                                    Op::Div { b: d, .. },
                                ) && d == v);
                            assert(u < n);
                        }
                    }
                }
            }
        } else {
            assert(q == p) by {
                if is_number(k.values[w]) {
                    match k.values[w].init {
                        Some(Op::Div { a, b }) => {
                            assert(reaches(k.values[w].init->0, k.values.len()));
                            assert(p.values[b as int].state == k.values[b as int].state);
                            assert(p.values[b as int].init == inverted_init(k, w, t, b as int));
                            if flipped(k, w, b as int) {
                                let u = choose|u: int|
                                    u < w && #[trigger] turned(k, u) && (
                                    k.values[u].init matches Some(Op::Div { b: d, .. }) && d == b);
                            }
                        },
                        _ => {},
                    }
                }
            }
            assert forall|v: int| 0 <= v < k.values.len() implies inverted_init(k, n as int, t, v)
                == inverted_init(k, w, t, v) by {
                if flipped(k, n as int, v) {
                    let u = choose|u: int|
                        u < n && #[trigger] turned(k, u) && (k.values[u].init matches Some(
                            Op::Div { b: d, .. },
                        ) && d == v);
                    assert(u < w);
                }
                if flipped(k, w, v) {
                    let u = choose|u: int|
                        u < w && #[trigger] turned(k, u) && (k.values[u].init matches Some(
                            Op::Div { b: d, .. },
                        ) && d == v);
                    assert(u < n);
                }
            }
        }
    }
}

/// A constant stays where the number that is divided by it is left out.
proof fn lemma_unturned<N>(
    m: Arithmetic<N>,
    vars: spec_fn(ValueId) -> bool,
    k: RawView,
    t: spec_fn(FloatExpr) -> Float32,
    v: ValueId,
    b: ValueId,
)
    requires
        tidy(vars, k),
        lone_divisors(vars, k),
        divides(vars, k, b, v as int),
        !turned(k, v as int),
    ensures
        worth(m, vars, invert_all(k, k.values.len(), t), b) == worth(m, vars, k, b),
{
    let n = k.values.len();
    lemma_invert_all(vars, k, n, t);
    let q = invert_all(k, n, t);
    assert(q.values[b as int].init == inverted_init(k, n as int, t, b as int));
    if flipped(k, n as int, b as int) {
        let u = choose|u: int|
            u < n && #[trigger] turned(k, u) && (k.values[u].init matches Some(Op::Div { b: d, .. })
                && d == b);
        lemma_turned_divides(vars, k, u);
        assert(divides(vars, k, b, u));
        assert(reads(k.values[v as int].init->0, b));
    }
    reveal_with_fuel(given, 2);
    reveal_with_fuel(worth, 2);
}

proof fn lemma_invert_keeps<N>(
    m: Arithmetic<N>,
    vars: spec_fn(ValueId) -> bool,
    k: RawView,
    t: spec_fn(FloatExpr) -> Float32,
    v: ValueId,
)
    requires
        inverts(m, t),
        tidy(vars, k),
        lone_divisors(vars, k),
        v < k.values.len(),
        !divisor(vars, k, v),
    ensures
        keeps_value(m, vars, k, invert_all(k, k.values.len(), t), v),
    decreases v,
{
    let n = k.values.len();
    let q = invert_all(k, n, t);
    lemma_invert_all(vars, k, n, t);
    assert(q.values[v as int].init == inverted_init(k, n as int, t, v as int));
    assert(!flipped(k, n as int, v as int)) by {
        if flipped(k, n as int, v as int) {
            let u = choose|u: int|
                u < n && #[trigger] turned(k, u) && (k.values[u].init matches Some(
                    Op::Div { b: d, .. },
                ) && d == v);
            lemma_turned_divides(vars, k, u);
        }
    }
    if k.values[v as int].init is Some {
        let op = k.values[v as int].init->0;
        assert forall|x: ValueId|
            #[trigger] reads(op, x) && x < v && !divisor(vars, k, x) && !(worth(m, vars, k, x)
                is Nothing) implies worth(m, vars, q, x) == worth(m, vars, k, x) by {
            lemma_invert_keeps(m, vars, k, t, x);
            lemma_worth(m, vars, k, q, x);
        }
        if turned(k, v as int) {
            lemma_turned_divides(vars, k, v as int);
            match op {
                Op::Div { a, b } => {
                    assert(reads(op, a) && reads(op, b));
                    assert(!divisor(vars, k, a)) by {
                        if divisor(vars, k, a) {
                            let u = choose|u: int| #[trigger] divides(vars, k, a, u);
                            assert(reads(k.values[v as int].init->0, a));
                            assert(divides(vars, k, a, v as int));
                        }
                    }
                    assert(flipped(k, n as int, b as int)) by {
                        assert(turned(k, v as int));
                    }
                    assert(q.values[b as int].init == inverted_init(k, n as int, t, b as int));
                    assert(!turned(k, b as int));
                    reveal_with_fuel(given, 3);
                    reveal_with_fuel(worth, 3);
                    reveal_with_fuel(read_below, 3);
                },
                _ => {},
            }
        } else {
            assert forall|x: ValueId|
                #[trigger] reads(op, x) && x < v && !(worth(m, vars, k, x) is Nothing) implies worth(
                m,
                vars,
                q,
                x,
            ) == worth(m, vars, k, x) by {
                if divisor(vars, k, x) {
                    let u = choose|u: int| #[trigger] divides(vars, k, x, u);
                    assert(reads(k.values[v as int].init->0, x));
                    assert(u == v);
                    lemma_unturned(m, vars, k, t, v, x);
                }
            }
            lemma_given(m, vars, k, q, op, v as nat);
        }
    }
}

proof fn lemma_invert_tidy(
    vars: spec_fn(ValueId) -> bool,
    k: RawView,
    t: spec_fn(FloatExpr) -> Float32,
)
    requires
        tidy(vars, k),
        lone_divisors(vars, k),
    ensures
        tidy(vars, invert_all(k, k.values.len(), t)),
{
    let n = k.values.len();
    lemma_invert_all(vars, k, n, t);
    let q = invert_all(k, n, t);
    assert forall|x: ValueId|
        x < q.values.len() && #[trigger] vars(x) && is_read(q, x) implies q.values[x as int].state
        is Mut by {
        let u = choose|u: int|
            0 <= u < q.values.len() && ((#[trigger] q.values[u]).init matches Some(op) && reads(
                op,
                x,
            ));
        assert(q.values[u].init == inverted_init(k, n as int, t, u));
        assert(reads(k.values[u].init->0, x));
        assert(is_read(k, x));
        assert(q.values[x as int].state == k.values[x as int].state);
    }
    assert forall|x: ValueId| x < q.values.len() && #[trigger] vars(x) implies !(
    q.values[x as int].init matches Some(Op::Mul { .. })) && !(
    q.values[x as int].init matches Some(Op::Div { .. })) by {
        assert(q.values[x as int].init == inverted_init(k, n as int, t, x as int));
    }
    assert forall|v: int| 0 <= v < q.values.len() implies ((#[trigger] q.values[v]).init
        matches Some(op) ==> reaches(op, q.values.len())) by {
        assert(q.values[v].init == inverted_init(k, n as int, t, v));
        if k.values[v].init is Some {
            assert(reaches(k.values[v].init->0, k.values.len()));
        }
    }
}

/// One pass of the optimizer keeps the number that the definition of each value gives.
///
/// No variable may be defined as a product or a quotient. Where divisions by constants become
/// products, the constants are defined anew as their inverses, so that they are not kept, and
/// nothing else may read them.
pub proof fn lemma_pass_keeps<N>(
    m: Arithmetic<N>,
    vars: spec_fn(ValueId) -> bool,
    k: RawView,
    flags: OptFlags,
    t: spec_fn(FloatExpr) -> Float32,
    id: ValueId,
)
    requires
        lawful(m, flags, t),
        tidy(vars, k),
        flags.div_const ==> lone_divisors(vars, k) && !divisor(vars, k, id),
        id < k.values.len(),
    ensures
        keeps_value(m, vars, k, pass(k, flags, t), id),
        tidy(vars, pass(k, flags, t)),
        pass(k, flags, t).values.len() == k.values.len(),
{
    let n = k.values.len();
    let k1 = swept(k, flags);
    if flags.dead_code {
        lemma_dead_code_steps(m, vars, k, n);
    } else {
        lemma_steps_none(m, vars, k);
    }
    let k2 = if flags.mul_add {
        refuse_all(fuse_all(k1, n), n)
    } else {
        k1
    };
    if flags.mul_add {
        lemma_fuse_all_steps(m, vars, k1, n);
        lemma_refuse_all_steps(m, vars, fuse_all(k1, n), n);
        lemma_steps_on(m, vars, k1, fuse_all(k1, n), k2);
        lemma_steps_on(m, vars, k, k1, k2);
    }
    let k3 = if flags.div_const {
        invert_all(k2, n, t)
    } else {
        k2
    };
    assert(keeps_value(m, vars, k, k2, id));
    if flags.div_const {
        assert(!divisor(vars, k2, id)) by {
            if divisor(vars, k2, id) {
                let v = choose|v: int| #[trigger] divides(vars, k2, id, v);
                assert(divides(vars, k, id, v));
            }
        }
        lemma_invert_keeps(m, vars, k2, t, id);
        lemma_invert_tidy(vars, k2, t);
        lemma_invert_all(vars, k2, n, t);
    }
    let k4 = if flags.const_fold {
        fold_all(k3, n, t)
    } else {
        k3
    };
    if flags.const_fold {
        lemma_fold_all_keeps(m, vars, k3, n, t);
        assert(keeps_value(m, vars, k3, k4, id));
    }
    let k5 = if flags.identity {
        copy_all(k4, n)
    } else {
        k4
    };
    if flags.identity {
        lemma_copy_all_keeps(m, vars, k4, n);
        assert(keeps_value(m, vars, k4, k5, id));
    }
    let q = pass(k, flags, t);
    assert(q.values == k5.values);
    lemma_keeps_same(m, vars, k5, q);
    assert(keeps_value(m, vars, k5, q, id));
    assert(tidy(vars, q)) by {
        assert(forall|x: ValueId| is_read(q, x) == is_read(k5, x));
    }
}

/// The variables of a kernel.
pub open spec fn variables(k: RawView) -> spec_fn(ValueId) -> bool {
    |id: ValueId| k.values[id as int].state is Mut
}

/// The optimizer keeps the number that the definition of each value gives, and with it what every
/// operation on such values gives, in any arithmetic that has the laws it rests on.
///
/// No variable may be defined as a product or a quotient. Where divisions by constants become
/// products, the constants are defined anew as their inverses, so that they are not kept, and
/// nothing else may read them.
pub proof fn lemma_optimized_keeps<N>(
    m: Arithmetic<N>,
    k: RawView,
    flags: OptFlags,
    count: nat,
    t: spec_fn(FloatExpr) -> Float32,
    id: ValueId,
)
    requires
        lawful(m, flags, t),
        closed_under(k),
        k.values.len() <= usize::MAX,
        forall|v: int|
            0 <= v < k.values.len() && (#[trigger] k.values[v]).state is Mut ==> !(
            k.values[v].init matches Some(Op::Mul { .. })) && !(k.values[v].init matches Some(
                Op::Div { .. },
            )),
        flags.div_const ==> forall|i: nat|
            i < count ==> lone_divisors(variables(k), #[trigger] passes(k, flags, i, t))
                && !divisor(variables(k), passes(k, flags, i, t), id),
        id < k.values.len(),
    ensures
        keeps_value(m, variables(k), k, optimized(k, flags, count, t), id),
{
    let vars = variables(k);
    assert(tidy(vars, k));
    lemma_passes_keep(m, vars, k, flags, count, t, id);
    let p = passes(k, flags, count, t);
    if flags.dead_code {
        lemma_dead_code_steps(m, vars, p, p.values.len());
        assert(keeps_value(m, vars, p, optimized(k, flags, count, t), id));
    }
}

proof fn lemma_passes_keep<N>(
    m: Arithmetic<N>,
    vars: spec_fn(ValueId) -> bool,
    k: RawView,
    flags: OptFlags,
    count: nat,
    t: spec_fn(FloatExpr) -> Float32,
    id: ValueId,
)
    requires
        lawful(m, flags, t),
        tidy(vars, k),
        flags.div_const ==> forall|i: nat|
            i < count ==> lone_divisors(vars, #[trigger] passes(k, flags, i, t)) && !divisor(
                vars,
                passes(k, flags, i, t),
                id,
            ),
        id < k.values.len(),
    ensures
        keeps_value(m, vars, k, passes(k, flags, count, t), id),
        tidy(vars, passes(k, flags, count, t)),
        passes(k, flags, count, t).values.len() == k.values.len(),
    decreases count,
{
    if count == 0 {
        lemma_keeps_same(m, vars, k, k);
        assert(keeps_value(m, vars, k, k, id));
    } else {
        let p = passes(k, flags, (count - 1) as nat, t);
        lemma_passes_keep(m, vars, k, flags, (count - 1) as nat, t, id);
        lemma_pass_keeps(m, vars, p, flags, t, id);
    }
}

/// Of the operations those that do nothing are left out, and no others; the rest stay in order.
pub proof fn lemma_only_nops_left_out(ops: Seq<Op>)
    ensures
        without_nops(ops, ops.len()) == ops.filter(|op: Op| !(op is Nop)),
{
    lemma_nops_upto(ops, ops.len());
    assert(ops.take(ops.len() as int) =~= ops);
}

proof fn lemma_nops_upto(ops: Seq<Op>, n: nat)
    requires
        n <= ops.len(),
    ensures
        without_nops(ops, n) == ops.take(n as int).filter(|op: Op| !(op is Nop)),
    decreases n,
{
    reveal(Seq::filter);
    if n > 0 {
        lemma_nops_upto(ops, (n - 1) as nat);
        assert(ops.take(n as int).drop_last() =~= ops.take(n - 1));
    }
}

} // verus!
