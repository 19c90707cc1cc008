//! What a softmax makes of a row.
//!
//! Each thread of a block takes the columns at a distance of the number of threads. What it has
//! found, the threads bring together in a shared buffer, over half the distance at each turn.

use vstd::prelude::*;

use crate::dispatch::backend::kernel::raw::RawView;
use crate::dispatch::backend::meaning::any;
use crate::dispatch::backend::meaning::lanes::{
    behind, clear, comes, gathers, got, joined, known, lemma_comes_next, lemma_comes_none,
    lemma_comes_on, loops, passes_by, seen, to_loop, tread, Address, Calculus, Lane, Site, Slot,
};
use crate::dispatch::backend::meaning::tiles::scope_end;
use crate::dispatch::backend::std_lib::softmax::SoftmaxRow;
use crate::dispatch::backend::wgsl::source::{declared, inlined};
use crate::dispatch::backend::{Op, ParamId, ValueId};
use crate::scalar::{Float32, MIN_BITS, ONE_BITS, ZERO_BITS};

verus! {

/// The numbers of the columns before a bound that lie a multiple of a distance behind a first one,
/// brought together one after the other.
pub open spec fn strided<N>(
    op: spec_fn(N, N) -> N,
    unit: N,
    x: spec_fn(int) -> N,
    first: int,
    step: int,
    n: nat,
) -> N
    decreases n,
{
    if n == 0 {
        unit
    } else if (n - 1) % step == first {
        op(strided(op, unit, x, first, step, (n - 1) as nat), x(n - 1))
    } else {
        strided(op, unit, x, first, step, (n - 1) as nat)
    }
}

/// All the numbers of a row, brought together one after the other.
pub open spec fn total<N>(op: spec_fn(N, N) -> N, unit: N, x: spec_fn(int) -> N, n: nat) -> N
    decreases n,
{
    if n == 0 {
        unit
    } else {
        op(total(op, unit, x, (n - 1) as nat), x(n - 1))
    }
}

/// Whether it is of no account in which order numbers are brought together, and the unit adds
/// nothing.
pub open spec fn gathered<N>(op: spec_fn(N, N) -> N, unit: N) -> bool {
    &&& forall|a: N, b: N| #[trigger] op(a, b) == op(b, a)
    &&& forall|a: N, b: N, d: N| #[trigger] op(op(a, b), d) == op(a, op(b, d))
    &&& forall|a: N| #[trigger] op(unit, a) == a
}

proof fn lemma_strided_gap<N>(
    op: spec_fn(N, N) -> N,
    unit: N,
    x: spec_fn(int) -> N,
    first: int,
    step: int,
    a: nat,
    b: nat,
)
    requires
        a <= b,
        forall|j: int| a <= j < b ==> #[trigger] (j % step) != first,
    ensures
        strided(op, unit, x, first, step, b) == strided(op, unit, x, first, step, a),
    decreases b,
{
    if a < b {
        assert((b - 1) % step != first);
        lemma_strided_gap(op, unit, x, first, step, a, (b - 1) as nat);
    }
}

/// Behind a column of a thread none of the thread follows before the distance.
proof fn lemma_next_column(first: int, step: int, j: int, i: int)
    requires
        0 <= first < step,
        j % step == first,
        j < i < j + step,
    ensures
        i % step != first,
{
    vstd::arithmetic::div_mod::lemma_fundamental_div_mod(j, step);
    vstd::arithmetic::div_mod::lemma_fundamental_div_mod(i, step);
    if i % step == first {
        let d = i / step - j / step;
        assert(i - j == step * d) by (nonlinear_arith)
            requires
                j == step * (j / step) + first,
                i == step * (i / step) + first,
                d == i / step - j / step,
        ;
        assert(false) by (nonlinear_arith)
            requires
                i - j == step * d,
                0 < i - j < step,
        ;
    }
}

/// What a thread has found when it has taken one more column, or has none left.
proof fn lemma_strided_step<N>(
    op: spec_fn(N, N) -> N,
    unit: N,
    x: spec_fn(int) -> N,
    first: int,
    step: int,
    j: int,
    cols: int,
)
    requires
        0 <= first < step,
        0 <= j < cols,
        j % step == first,
    ensures
        (j + step) % step == first,
        strided(
            op,
            unit,
            x,
            first,
            step,
            (if j + step < cols {
                j + step
            } else {
                cols
            }) as nat,
        ) == op(strided(op, unit, x, first, step, j as nat), x(j)),
{
    vstd::arithmetic::div_mod::lemma_mod_add_multiples_vanish(j, step);
    let end = if j + step < cols {
        j + step
    } else {
        cols
    };
    assert forall|i: int| j + 1 <= i < end implies #[trigger] (i % step) != first by {
        lemma_next_column(first, step, j, i);
    }
    lemma_strided_gap(op, unit, x, first, step, (j + 1) as nat, end as nat);
}

/// A thread starts with nothing.
proof fn lemma_strided_start<N>(
    op: spec_fn(N, N) -> N,
    unit: N,
    x: spec_fn(int) -> N,
    first: int,
    step: int,
    n: nat,
)
    requires
        0 <= first < step,
        n <= first,
    ensures
        strided(op, unit, x, first, step, n) == unit,
{
    assert forall|j: int| 0 <= j < n implies #[trigger] (j % step) != first by {
        vstd::arithmetic::div_mod::lemma_small_mod(j as nat, step as nat);
    }
    lemma_strided_gap(op, unit, x, first, step, 0, n);
}

/// The columns at a distance are those at twice the distance, from two columns on.
proof fn lemma_strided_halves<N>(
    op: spec_fn(N, N) -> N,
    unit: N,
    x: spec_fn(int) -> N,
    first: int,
    step: int,
    n: nat,
)
    requires
        gathered(op, unit),
        0 <= first < step,
    ensures
        strided(op, unit, x, first, step, n) == op(
            strided(op, unit, x, first, 2 * step, n),
            strided(op, unit, x, first + step, 2 * step, n),
        ),
    decreases n,
{
    if n > 0 {
        lemma_strided_halves(op, unit, x, first, step, (n - 1) as nat);
        let j = n - 1;
        vstd::arithmetic::div_mod::lemma_mod_mod(j, step, 2);
        assert(step * 2 == 2 * step);
        let r = j % (2 * step);
        assert(r % step == j % step);
        if r < step {
            vstd::arithmetic::div_mod::lemma_small_mod(r as nat, step as nat);
        } else {
            vstd::arithmetic::div_mod::lemma_mod_add_multiples_vanish(r - step, step);
            vstd::arithmetic::div_mod::lemma_small_mod((r - step) as nat, step as nat);
        }
        let a = strided(op, unit, x, first, 2 * step, (n - 1) as nat);
        let b = strided(op, unit, x, first + step, 2 * step, (n - 1) as nat);
        if r == first {
            assert(op(op(a, b), x(j)) == op(a, op(b, x(j))));
            assert(op(b, x(j)) == op(x(j), b));
            assert(op(op(a, x(j)), b) == op(a, op(x(j), b)));
        } else if r == first + step {
            assert(op(op(a, b), x(j)) == op(a, op(b, x(j))));
        }
    }
}

/// At a distance of one no column is left out.
pub proof fn lemma_strided_all<N>(op: spec_fn(N, N) -> N, unit: N, x: spec_fn(int) -> N, n: nat)
    ensures
        strided(op, unit, x, 0, 1, n) == total(op, unit, x, n),
    decreases n,
{
    if n > 0 {
        lemma_strided_all(op, unit, x, (n - 1) as nat);
        assert((n - 1) % 1 == 0);
    }
}

/// A value that holds what it was assigned.
pub open spec fn plain(k: RawView, id: ValueId) -> bool {
    declared(k.values[id as int]) && !inlined(k.values[id as int])
}

/// A value that stands for an expression.
pub open spec fn names(k: RawView, id: ValueId, op: Op) -> bool {
    &&& inlined(k.values[id as int])
    &&& k.values[id as int].init == Some(op)
    &&& !declared(k.values[id as int])
}

/// Whether the values that all the stages of a softmax share are what they should be, and lie below
/// a bound.
pub open spec fn grounded(k: RawView, s: SoftmaxRow, base: nat) -> bool {
    &&& plain(k, s.tid)
    &&& plain(k, s.cols)
    &&& plain(k, s.row)
    &&& plain(k, s.col)
    &&& names(k, s.size, Op::ConstU32 { value: s.step })
    &&& names(k, s.zero, Op::ConstU32 { value: 0 })
    &&& names(k, s.one, Op::ConstU32 { value: 1 })
    &&& names(k, s.one_f, Op::ConstF32 { value: Float32 { bits: ONE_BITS } })
    &&& s.tid < s.cols < s.row < s.col < base
    &&& s.size < base
    &&& s.zero < base
    &&& s.one < base
    &&& s.one_f < base
}

/// The row of a block and its columns, and the threads of the block.
#[verifier::reject_recursive_types(N)]
pub struct Row<N> {
    /// The number of the row.
    pub row: int,
    pub cols: int,
    pub size: int,
    /// The parameter that the operand is loaded from.
    pub input: ParamId,
    /// The operand in each column.
    pub x: spec_fn(int) -> N,
}

impl<N> Row<N> {
    /// Whether all the places are unsigned integers.
    pub open spec fn sized(self) -> bool {
        &&& 0 <= self.row
        &&& 0 <= self.cols
        &&& self.row * self.cols + self.cols <= 0x1_0000_0000
        &&& 0 < self.size
        &&& self.cols + self.size <= 0x1_0000_0000
    }

    /// The place of a column.
    pub open spec fn place(self, j: int) -> int {
        self.row * self.cols + j
    }
}

/// Whether a thread knows its number, its row and how many columns there are.
pub open spec fn sits<N>(l: Lane<N>, s: SoftmaxRow, h: Row<N>, t: int) -> bool {
    &&& (l.vars)(s.tid) == Slot::<N>::Int(t)
    &&& (l.vars)(s.cols) == Slot::<N>::Int(h.cols)
    &&& (l.vars)(s.row) == Slot::<N>::Int(h.row)
    &&& !l.stuck
}

/// Whether the operand is in memory.
pub open spec fn provides<N>(l: Lane<N>, h: Row<N>) -> bool {
    forall|j: int|
        0 <= j < h.cols ==> (l.mem)(Address::Param(h.input, #[trigger] h.place(j))) == Slot::Num(
            (h.x)(j),
        )
}

/// A loop over the columns of a thread begins.
pub open spec fn heads(k: RawView, s: SoftmaxRow, p: nat, flat: ValueId, idx: ValueId) -> bool {
    &&& p + 2 < k.ops.len()
    &&& k.ops[p as int] == (Op::WhileLoopBegin { cond: Box::new(Op::Lt { a: s.col, b: s.cols }) })
    &&& k.ops[(p + 1) as int] == (Op::DefineVar { id: flat })
    &&& names(k, flat, Op::Mul { a: s.row, b: s.cols })
    &&& k.ops[(p + 2) as int] == (Op::DefineVar { id: idx })
    &&& plain(k, idx)
    &&& k.values[idx as int].init == Some(Op::Add { a: flat, b: s.col })
    &&& s.col < flat < idx
}

/// A loop over the columns of a thread ends.
pub open spec fn tails(k: RawView, s: SoftmaxRow, q: nat) -> bool {
    &&& q + 1 < k.ops.len()
    &&& k.ops[q as int] == (Op::AddAssign {
        id: s.col,
        val: Box::new(Op::ConstU32 { value: s.step }),
    })
    &&& k.ops[(q + 1) as int] == Op::EndScope
}

/// Whether a thread has gone on without a change in memory.
pub open spec fn strolls<N>(
    c: Calculus<N>,
    w: Site,
    k: RawView,
    t: int,
    l: Lane<N>,
    m: Lane<N>,
) -> bool {
    &&& comes(c, w, k, t, l, m)
    &&& m.mem == l.mem
    &&& m.wrote == l.wrote
    &&& m.stuck == l.stuck
}

/// Whether a thread has read nothing else than the operand.
pub open spec fn reads_operand<N>(l: Lane<N>, m: Lane<N>, h: Row<N>) -> bool {
    forall|a: Address| #[trigger]
        m.read.contains(a) ==> l.read.contains(a) || (a matches Address::Param(p, _) && p == h.input)
}

proof fn lemma_head<N>(
    c: Calculus<N>,
    w: Site,
    k: RawView,
    t: int,
    l: Lane<N>,
    s: SoftmaxRow,
    base: nat,
    h: Row<N>,
    p: nat,
    flat: ValueId,
    idx: ValueId,
    j: int,
) -> (m: Lane<N>)
    requires
        grounded(k, s, base),
        heads(k, s, p, flat, idx),
        h.sized(),
        sits(l, s, h, t),
        l.at == p,
        (l.vars)(s.col) == Slot::<N>::Int(j),
        0 <= j < h.cols,
    ensures
        strolls(c, w, k, t, l, m),
        m.at == p + 3,
        m.open == l.open.push(p),
        (m.vars)(idx) == Slot::<N>::Int(h.place(j)),
        forall|v: ValueId| v != idx ==> (#[trigger] (m.vars)(v)) == (l.vars)(v),
        m.read == l.read,
{
    reveal_with_fuel(got, 3);
    reveal_with_fuel(seen, 3);
    lemma_comes_none(c, w, k, t, l);
    lemma_comes_next(c, w, k, t, l, l);
    let l1 = tread(c, w, k, t, l);
    assert(got(c, w, k, t, l, Op::Lt { a: s.col, b: s.cols }, any()).slot == Slot::<N>::Truth(true));
    assert(l1.at == p + 1 && l1.open == l.open.push(p) && l1.vars == l.vars && l1.mem == l.mem);
    assert(l1.read =~= l.read);
    lemma_comes_next(c, w, k, t, l, l1);
    let l2 = tread(c, w, k, t, l1);
    assert(l2.at == p + 2 && l2.vars == l.vars);
    lemma_comes_next(c, w, k, t, l, l2);
    let m = tread(c, w, k, t, l2);
    let g = got(c, w, k, t, l2, Op::Add { a: flat, b: s.col }, idx as nat);
    let z = h.row * h.cols;
    assert(0 <= z) by (nonlinear_arith)
        requires
            z == h.row * h.cols,
            h.row >= 0,
            h.cols >= 0,
    ;
    vstd::arithmetic::div_mod::lemma_small_mod(z as nat, 0x1_0000_0000);
    vstd::arithmetic::div_mod::lemma_small_mod((z + j) as nat, 0x1_0000_0000);
    assert(seen(c, w, k, t, l2, flat).slot == Slot::<N>::Int(z));
    assert(g.slot == Slot::<N>::Int(h.place(j)));
    assert(m.read =~= l.read);
    m
}

proof fn lemma_tail<N>(
    c: Calculus<N>,
    w: Site,
    k: RawView,
    t: int,
    l: Lane<N>,
    s: SoftmaxRow,
    h: Row<N>,
    p: nat,
    q: nat,
    open: Seq<nat>,
    j: int,
) -> (m: Lane<N>)
    requires
        tails(k, s, q),
        s.step == h.size,
        h.sized(),
        l.at == q,
        l.open == open.push(p),
        loops(k.ops[p as int]),
        (l.vars)(s.col) == Slot::<N>::Int(j),
        0 <= j < h.cols,
    ensures
        strolls(c, w, k, t, l, m),
        m.at == p,
        m.open == open,
        (m.vars)(s.col) == Slot::<N>::Int(j + h.size),
        forall|v: ValueId| v != s.col ==> (#[trigger] (m.vars)(v)) == (l.vars)(v),
        m.read == l.read,
{
    reveal_with_fuel(got, 2);
    lemma_comes_none(c, w, k, t, l);
    lemma_comes_next(c, w, k, t, l, l);
    let l1 = tread(c, w, k, t, l);
    vstd::arithmetic::div_mod::lemma_small_mod((j + h.size) as nat, 0x1_0000_0000);
    assert(l1.read =~= l.read);
    lemma_comes_next(c, w, k, t, l, l1);
    let m = tread(c, w, k, t, l1);
    assert(m.open =~= open);
    m
}

/// The operand is loaded.
pub open spec fn loads(k: RawView, p: nat, idx: ValueId, x_val: ValueId, input: ParamId) -> bool {
    &&& p + 1 < k.ops.len()
    &&& k.ops[p as int] == (Op::DefineVar { id: x_val })
    &&& plain(k, x_val)
    &&& k.values[x_val as int].init is None
    &&& k.ops[(p + 1) as int] == (Op::OverwriteVar {
        id: x_val,
        val: Box::new(Op::ParamLoad { param: input, index: idx }),
    })
    &&& idx < x_val
}

proof fn lemma_loads<N>(
    c: Calculus<N>,
    w: Site,
    k: RawView,
    t: int,
    l: Lane<N>,
    h: Row<N>,
    p: nat,
    idx: ValueId,
    x_val: ValueId,
    j: int,
) -> (m: Lane<N>)
    requires
        loads(k, p, idx, x_val, h.input),
        plain(k, idx),
        provides(l, h),
        l.at == p,
        0 <= j < h.cols,
        (l.vars)(idx) == Slot::<N>::Int(h.place(j)),
    ensures
        strolls(c, w, k, t, l, m),
        m.at == p + 2,
        m.open == l.open,
        (m.vars)(x_val) == Slot::Num((h.x)(j)),
        forall|v: ValueId| v != x_val ==> (#[trigger] (m.vars)(v)) == (l.vars)(v),
        reads_operand(l, m, h),
{
    reveal_with_fuel(got, 2);
    reveal_with_fuel(seen, 2);
    lemma_comes_none(c, w, k, t, l);
    lemma_comes_next(c, w, k, t, l, l);
    let l1 = tread(c, w, k, t, l);
    lemma_comes_next(c, w, k, t, l, l1);
    let m = tread(c, w, k, t, l1);
    let g = got(c, w, k, t, l1, Op::ParamLoad { param: h.input, index: idx }, any());
    assert(l1.mem == l.mem);
    assert(g.slot == (l.mem)(Address::Param(h.input, h.place(j))));
    m
}

/// A softmax in a kernel: what it runs on, where its operations and its values begin, and the
/// parameters that it writes.
#[verifier::reject_recursive_types(N)]
pub struct Setting<N> {
    pub c: Calculus<N>,
    pub w: Site,
    pub k: RawView,
    pub s: SoftmaxRow,
    pub h: Row<N>,
    /// The number of the first operation.
    pub p: nat,
    /// The number of the first value.
    pub b: nat,
    /// The parameter that the result is stored in, besides the one that it is saved in.
    pub output: Option<ParamId>,
}

impl<N> Setting<N> {
    /// How many stores there are besides the one of the saved result.
    pub open spec fn x(self) -> nat {
        if self.output is Some {
            1
        } else {
            0
        }
    }

    /// A value by its number behind the first one.
    pub open spec fn v(self, i: nat) -> ValueId {
        (self.b + i) as usize
    }

    /// An operation by its number behind the first one.
    pub open spec fn op(self, i: nat) -> Op {
        self.k.ops[(self.p + i) as int]
    }

    pub open spec fn defines(self, i: nat, v: nat) -> bool {
        self.op(i) == (Op::DefineVar { id: self.v(v) })
    }

    pub open spec fn holds(self, v: nat, init: Option<Op>) -> bool {
        plain(self.k, self.v(v)) && self.k.values[self.v(v) as int].init == init
    }

    pub open spec fn means(self, v: nat, op: Op) -> bool {
        names(self.k, self.v(v), op)
    }

    /// Whether a parameter is written.
    pub open spec fn writes(self, p: ParamId) -> bool {
        p == self.s.saved || self.output == Some(p)
    }

    pub open spec fn numbers_fit(self) -> bool {
        &&& self.h.sized()
        &&& self.h.size == self.s.step
        &&& self.b + 27 <= usize::MAX
        &&& !self.writes(self.h.input)
        &&& self.output != Some(self.s.saved)
    }

    #[verifier::opaque]
    pub open spec fn max_laid(self) -> bool {
        &&& self.p + 11 < self.k.ops.len()
        &&& self.defines(0, 0)
        &&& self.holds(0, Some(Op::ConstF32 { value: Float32 { bits: MIN_BITS } }))
        &&& heads(self.k, self.s, self.p + 1, self.v(1), self.v(2))
        &&& loads(self.k, self.p + 4, self.v(2), self.v(3), self.h.input)
        &&& self.op(6) == (Op::OverwriteVar {
            id: self.v(0),
            val: Box::new(Op::Max { a: self.v(0), b: self.v(3) }),
        })
        &&& tails(self.k, self.s, self.p + 7)
        &&& self.op(9) == (Op::SharedStore {
            mem: self.s.scratch,
            index: self.s.tid,
            value: self.v(0),
        })
        &&& self.op(10) == Op::Barrier
    }
}

/// What a thread has in memory that no other one may touch.
pub open spec fn mine<N>(z: Setting<N>, t: int, a: Address) -> bool {
    match a {
        Address::Param(p, i) => z.writes(p) && exists|j: int|
            0 <= j < z.h.cols && j % z.h.size == t && i == #[trigger] z.h.place(j),
        Address::Shared(..) => false,
    }
}

/// Whether a thread has touched no shared buffer since the last barrier, and else only what it may.
pub open spec fn calm<N>(z: Setting<N>, l: Lane<N>, t: int) -> bool {
    &&& forall|a: Address| #[trigger] l.wrote.contains(a) ==> mine(z, t, a)
    &&& forall|a: Address| #[trigger]
        l.read.contains(a) ==> mine(z, t, a) || (a matches Address::Param(p, _) && p == z.h.input)
}

/// The column up to which a thread has come.
pub open spec fn upto<N>(h: Row<N>, j: int) -> nat {
    (if j < h.cols {
        j
    } else {
        h.cols
    }) as nat
}

/// One turn of the loop that finds the greatest operand of a thread.
proof fn lemma_max_turn<N>(
    z: Setting<N>,
    t: int,
    l: Lane<N>,
    open: Seq<nat>,
    j: int,
    best: N,
) -> (m: Lane<N>)
    requires
        z.numbers_fit(),
        grounded(z.k, z.s, z.b),
        z.max_laid(),
        sits(l, z.s, z.h, t),
        provides(l, z.h),
        l.at == z.p + 1,
        l.open == open,
        (l.vars)(z.s.col) == Slot::<N>::Int(j),
        0 <= j < z.h.cols,
        (l.vars)(z.v(0)) == Slot::Num(best),
    ensures
        strolls(z.c, z.w, z.k, t, l, m),
        m.at == z.p + 1,
        m.open == open,
        (m.vars)(z.s.col) == Slot::<N>::Int(j + z.h.size),
        (m.vars)(z.v(0)) == Slot::Num((z.c.greatest)(best, (z.h.x)(j))),
        forall|v: ValueId|
            v < z.b && v != z.s.col ==> (#[trigger] (m.vars)(v)) == (l.vars)(v),
        reads_operand(l, m, z.h),
{
    reveal(Setting::max_laid);
    let (c, w, k) = (z.c, z.w, z.k);
    let l1 = lemma_head(c, w, k, t, l, z.s, z.b, z.h, z.p + 1, z.v(1), z.v(2), j);
    let l2 = lemma_loads(c, w, k, t, l1, z.h, z.p + 4, z.v(2), z.v(3), j);
    lemma_comes_on(c, w, k, t, l, l1, l2);
    assert(k.ops[l2.at as int] == z.op(6));
    let l3 = tread(c, w, k, t, l2);
    lemma_comes_next(c, w, k, t, l, l2);
    assert(seen(c, w, k, t, l2, z.v(0)) == known((l2.vars)(z.v(0))));
    assert(seen(c, w, k, t, l2, z.v(3)) == known((l2.vars)(z.v(3))));
    assert(got(c, w, k, t, l2, Op::Max { a: z.v(0), b: z.v(3) }, any()).slot == Slot::Num(
        (c.greatest)(best, (z.h.x)(j)),
    ));
    assert(l3.read =~= l2.read);
    let m = lemma_tail(c, w, k, t, l3, z.s, z.h, z.p + 1, z.p + 7, open, j);
    lemma_comes_on(c, w, k, t, l, l3, m);
    m
}

/// The loop that finds the greatest operand of a thread.
proof fn lemma_max_loop<N>(
    z: Setting<N>,
    t: int,
    l: Lane<N>,
    open: Seq<nat>,
    j: int,
) -> (m: Lane<N>)
    requires
        z.numbers_fit(),
        grounded(z.k, z.s, z.b),
        z.max_laid(),
        sits(l, z.s, z.h, t),
        provides(l, z.h),
        0 <= t < z.h.size,
        l.at == z.p + 1,
        l.open == open,
        (l.vars)(z.s.col) == Slot::<N>::Int(j),
        0 <= j,
        j % z.h.size == t,
        (l.vars)(z.v(0)) == Slot::Num(
            strided(
                z.c.greatest,
                (z.c.number)(MIN_BITS),
                z.h.x,
                t,
                z.h.size,
                upto(z.h, j),
            ),
        ),
    ensures
        strolls(z.c, z.w, z.k, t, l, m),
        m.at == z.p + 9,
        m.open == open,
        (m.vars)(z.v(0)) == Slot::Num(
            strided(
                z.c.greatest,
                (z.c.number)(MIN_BITS),
                z.h.x,
                t,
                z.h.size,
                z.h.cols as nat,
            ),
        ),
        forall|v: ValueId|
            v < z.b && v != z.s.col ==> (#[trigger] (m.vars)(v)) == (l.vars)(v),
        reads_operand(l, m, z.h),
    decreases z.h.cols - upto(z.h, j),
{
    let (c, w, k) = (z.c, z.w, z.k);
    if j < z.h.cols {
        let best = strided(
            c.greatest,
            (c.number)(MIN_BITS),
            z.h.x,
            t,
            z.h.size,
            upto(z.h, j),
        );
        let l1 = lemma_max_turn(z, t, l, open, j, best);
        lemma_strided_step(
            c.greatest,
            (c.number)(MIN_BITS),
            z.h.x,
            t,
            z.h.size,
            j,
            z.h.cols,
        );
        let m = lemma_max_loop(z, t, l1, open, j + z.h.size);
        lemma_comes_on(c, w, k, t, l, l1, m);
        m
    } else {
        reveal(Setting::max_laid);
        lemma_comes_none(c, w, k, t, l);
        lemma_comes_next(c, w, k, t, l, l);
        let m = tread(c, w, k, t, l);
        lemma_leave(c, w, k, t, l, z.s, z.b, z.h, z.p + 1, z.v(1), z.v(2), j);
        assert(scope_end(k.ops, z.p + 2, k.ops.len(), 0) == z.p + 8) by {
            assert(k.ops[(z.p + 6) as int] == z.op(6));
            reveal_with_fuel(scope_end, 9);
        }
        m
    }
}

/// A thread without a column left leaves the loop.
proof fn lemma_leave<N>(
    c: Calculus<N>,
    w: Site,
    k: RawView,
    t: int,
    l: Lane<N>,
    s: SoftmaxRow,
    base: nat,
    h: Row<N>,
    p: nat,
    flat: ValueId,
    idx: ValueId,
    j: int,
)
    requires
        grounded(k, s, base),
        heads(k, s, p, flat, idx),
        sits(l, s, h, t),
        l.at == p,
        (l.vars)(s.col) == Slot::<N>::Int(j),
        j >= h.cols,
    ensures
        ({
            let m = tread(c, w, k, t, l);
            &&& m.at == scope_end(k.ops, p + 1, k.ops.len(), 0) + 1
            &&& m.open == l.open
            &&& m.vars == l.vars
            &&& m.mem == l.mem
            &&& m.wrote == l.wrote
            &&& m.stuck == l.stuck
            &&& m.read == l.read
        }),
{
    reveal_with_fuel(got, 2);
    reveal_with_fuel(seen, 2);
    let m = tread(c, w, k, t, l);
    assert(got(c, w, k, t, l, Op::Lt { a: s.col, b: s.cols }, any()).slot == Slot::<N>::Truth(
        false,
    ));
    assert(m.read =~= l.read);
}

/// What a thread has found when it comes to the first barrier.
pub open spec fn best_of<N>(z: Setting<N>, t: int, step: int) -> N {
    strided(z.c.greatest, (z.c.number)(MIN_BITS), z.h.x, t, step, z.h.cols as nat)
}

/// A cell of the scratch buffer.
pub open spec fn cell<N>(z: Setting<N>, i: int) -> Address {
    Address::Shared(z.s.scratch, i)
}

/// Whether a thread has gone from one barrier to the next and has written one cell of the scratch
/// buffer, its own.
pub open spec fn fills<N>(z: Setting<N>, t: int, l: Lane<N>, m: Lane<N>, new: Slot<N>) -> bool {
    &&& comes(z.c, z.w, z.k, t, l, m)
    &&& !m.stuck
    &&& (m.mem)(cell(z, t)) == new
    &&& forall|a: Address| a != cell(z, t) ==> #[trigger] (m.mem)(a) == (l.mem)(a)
    &&& forall|a: Address| #[trigger]
        m.wrote.contains(a) <==> l.wrote.contains(a) || a == cell(z, t)
}

pub open spec fn max_stored<N>(z: Setting<N>, t: int, l: Lane<N>, m: Lane<N>) -> bool {
    &&& fills(z, t, l, m, Slot::Num(best_of(z, t, z.h.size)))
    &&& m.at == z.p + 10
    &&& m.open == l.open
    &&& reads_operand(l, m, z.h)
    &&& forall|v: ValueId| v < z.b && v != z.s.col ==> (#[trigger] (m.vars)(v)) == (l.vars)(v)
}

proof fn lemma_max_stored<N>(z: Setting<N>, t: int, l: Lane<N>) -> (m: Lane<N>)
    requires
        z.numbers_fit(),
        grounded(z.k, z.s, z.b),
        z.max_laid(),
        sits(l, z.s, z.h, t),
        provides(l, z.h),
        0 <= t < z.h.size,
        l.at == z.p,
        (l.vars)(z.s.col) == Slot::<N>::Int(t),
    ensures
        max_stored(z, t, l, m),
{
    let (c, w, k) = (z.c, z.w, z.k);
    lemma_comes_none(c, w, k, t, l);
    lemma_comes_next(c, w, k, t, l, l);
    let l1 = tread(c, w, k, t, l);
    assert(k.ops[l.at as int] == z.op(0)) by {
        assert(z.p + 0 == z.p);
    }
    assert(l1.at == z.p + 1 && l1.open == l.open && l1.mem == l.mem && l1.wrote == l.wrote
        && !l1.stuck && (l1.vars)(z.v(0)) == Slot::Num((c.number)(MIN_BITS)) && l1.read =~= l.read
        && forall|v: ValueId| v != z.v(0) ==> (#[trigger] (l1.vars)(v)) == (l.vars)(v)) by {
        reveal(Setting::max_laid);
        reveal_with_fuel(got, 2);
    }
    lemma_strided_start(
        c.greatest,
        (c.number)(MIN_BITS),
        z.h.x,
        t,
        z.h.size,
        upto(z.h, t),
    );
    vstd::arithmetic::div_mod::lemma_small_mod(t as nat, z.h.size as nat);
    let l2 = lemma_max_loop(z, t, l1, l.open, t);
    lemma_comes_on(c, w, k, t, l, l1, l2);
    lemma_comes_next(c, w, k, t, l, l2);
    let m = tread(c, w, k, t, l2);
    assert(k.ops[l2.at as int] == z.op(9));
    reveal(Setting::max_laid);
    assert(seen(c, w, k, t, l2, z.v(0)) == known((l2.vars)(z.v(0))));
    assert(seen(c, w, k, t, l2, z.s.tid) == known(Slot::<N>::Int(t)));
    m
}

/// A reduction of the scratch buffer: its loop begins, and the threads meet at a barrier.
pub open spec fn reduces<N>(z: Setting<N>, q: nat, gap: nat, less: nat, is_one: nat) -> bool {
    let (k, s) = (z.k, z.s);
    let r = q + gap + 5;
    &&& r + 7 < k.ops.len()
    &&& k.ops[q as int] == Op::ForeverLoopBegin
    &&& k.ops[(q + 1) as int] == (Op::DefineVar { id: z.v(less) })
    &&& z.means(less, Op::Lt { a: s.tid, b: z.v(5) })
    &&& k.ops[(q + 2) as int] == (Op::IfBegin { cond: z.v(less) })
    &&& k.ops[(q + gap + 4) as int] == Op::EndScope
    &&& k.ops[r as int] == Op::Barrier
    &&& k.ops[(r + 1) as int] == (Op::DefineVar { id: z.v(is_one) })
    &&& z.means(is_one, Op::Eq { a: z.v(5), b: s.one })
    &&& k.ops[(r + 2) as int] == (Op::IfBegin { cond: z.v(is_one) })
    &&& k.ops[(r + 3) as int] == Op::Break
    &&& k.ops[(r + 4) as int] == Op::EndScope
    &&& k.ops[(r + 5) as int] == (Op::OverwriteVar {
        id: z.v(5),
        val: Box::new(Op::Shr { a: z.v(5), b: s.one }),
    })
    &&& k.ops[(r + 6) as int] == Op::EndScope
    &&& z.holds(5, Some(Op::CopyVar { id: z.v(4) }))
    &&& 5 < less < 27
    &&& 5 < is_one < 27
}

/// The cells are brought together as the greatest of two.
#[verifier::opaque]
pub open spec fn takes_greatest<N>(z: Setting<N>) -> bool {
    let (k, s) = (z.k, z.s);
    &&& reduces(z, z.p + 13, 4, 6, 11)
    &&& z.defines(16, 7)
    &&& z.means(7, Op::SharedLoad { mem: s.scratch, index: s.tid })
    &&& z.defines(17, 8)
    &&& z.means(8, Op::Add { a: z.v(5), b: s.tid })
    &&& z.defines(18, 9)
    &&& z.means(9, Op::SharedLoad { mem: s.scratch, index: z.v(8) })
    &&& z.defines(19, 10)
    &&& z.means(10, Op::Max { a: z.v(7), b: z.v(9) })
    &&& z.op(20) == (Op::SharedStore { mem: s.scratch, index: s.tid, value: z.v(10) })
}

/// The cells are brought together as the sum of two.
#[verifier::opaque]
pub open spec fn takes_sum<N>(z: Setting<N>) -> bool {
    let (k, s) = (z.k, z.s);
    let q = z.x() + 47;
    &&& reduces(z, z.p + q, 2, 19, 22)
    &&& z.defines(q + 3, 20)
    &&& z.means(20, Op::Add { a: z.v(5), b: s.tid })
    &&& z.defines(q + 4, 21)
    &&& z.means(21, Op::SharedLoad { mem: s.scratch, index: z.v(20) })
    &&& z.op(q + 5) == (Op::SharedAccum { mem: s.scratch, index: s.tid, value: z.v(21) })
}

/// Whether a thread is at the beginning of a turn of a reduction.
pub open spec fn turns<N>(z: Setting<N>, t: int, l: Lane<N>, q: nat, d: int) -> bool {
    &&& sits(l, z.s, z.h, t)
    &&& l.at == q
    &&& (l.vars)(z.v(5)) == Slot::<N>::Int(d)
    &&& 0 < d
    &&& 2 * d <= z.h.size
}

/// What a thread has done at the barrier of a turn of a reduction.
pub open spec fn turned<N>(
    z: Setting<N>,
    op: spec_fn(N, N) -> N,
    t: int,
    l: Lane<N>,
    m: Lane<N>,
    q: nat,
    r: nat,
    d: int,
) -> bool {
    &&& comes(z.c, z.w, z.k, t, l, m)
    &&& !m.stuck
    &&& m.at == r
    &&& m.open == l.open.push(q)
    &&& m.vars == l.vars
    &&& t < d ==> (m.mem)(cell(z, t)) == z.c.of_two(
        op,
        (l.mem)(cell(z, t)),
        (l.mem)(cell(z, t + d)),
    )
    &&& forall|a: Address| t >= d || a != cell(z, t) ==> #[trigger] (m.mem)(a) == (l.mem)(a)
    &&& forall|a: Address| #[trigger]
        m.wrote.contains(a) <==> l.wrote.contains(a) || (t < d && a == cell(z, t))
    &&& forall|a: Address| #[trigger]
        m.read.contains(a) ==> l.read.contains(a) || (t < d && (a == cell(z, t) || a == cell(
            z,
            t + d,
        )))
}

/// A thread begins a turn of a reduction.
proof fn lemma_turn_entry<N>(
    z: Setting<N>,
    t: int,
    l: Lane<N>,
    q: nat,
    gap: nat,
    less: nat,
    is_one: nat,
    d: int,
) -> (m: Lane<N>)
    requires
        z.numbers_fit(),
        grounded(z.k, z.s, z.b),
        reduces(z, q, gap, less, is_one),
        turns(z, t, l, q, d),
        scope_end(z.k.ops, q + 3, z.k.ops.len(), 0) == q + gap + 4,
    ensures
        strolls(z.c, z.w, z.k, t, l, m),
        m.read == l.read,
        m.vars == l.vars,
        t < d ==> m.at == q + 3 && m.open == l.open.push(q).push(q + 2),
        t >= d ==> m.at == q + gap + 5 && m.open == l.open.push(q),
{
    let (c, w, k) = (z.c, z.w, z.k);
    reveal_with_fuel(got, 2);
    reveal_with_fuel(seen, 2);
    lemma_comes_none(c, w, k, t, l);
    lemma_comes_next(c, w, k, t, l, l);
    let l1 = tread(c, w, k, t, l);
    assert(l1.at == q + 1 && l1.open == l.open.push(q) && l1.read =~= l.read);
    lemma_comes_next(c, w, k, t, l, l1);
    let l2 = tread(c, w, k, t, l1);
    assert(l2.at == q + 2 && l2.vars == l.vars);
    lemma_comes_next(c, w, k, t, l, l2);
    let m = tread(c, w, k, t, l2);
    assert(seen(c, w, k, t, l2, z.s.tid) == known(Slot::<N>::Int(t)));
    assert(seen(c, w, k, t, l2, z.v(5)) == known(Slot::<N>::Int(d)));
    assert(seen(c, w, k, t, l2, z.v(less)).slot == Slot::<N>::Truth(t < d));
    assert(m.read =~= l.read);
    m
}

/// A definition that is not written out does nothing.
proof fn lemma_skip<N>(z: Setting<N>, t: int, a: Lane<N>, l: Lane<N>, v: nat, op: Op) -> (m: Lane<
    N,
>)
    requires
        comes(z.c, z.w, z.k, t, a, l),
        z.k.ops[l.at as int] == (Op::DefineVar { id: z.v(v) }),
        z.means(v, op),
    ensures
        comes(z.c, z.w, z.k, t, a, m),
        m == l.next(),
{
    lemma_comes_next(z.c, z.w, z.k, t, a, l);
    tread(z.c, z.w, z.k, t, l)
}

#[verifier::spinoff_prover]
#[verifier::rlimit(60)]
proof fn lemma_greatest_turn<N>(z: Setting<N>, t: int, l: Lane<N>, d: int) -> (m: Lane<N>)
    requires
        z.numbers_fit(),
        grounded(z.k, z.s, z.b),
        takes_greatest(z),
        turns(z, t, l, z.p + 13, d),
        0 <= t < z.h.size,
    ensures
        turned(z, z.c.greatest, t, l, m, z.p + 13, z.p + 22, d),
{
    reveal(takes_greatest);
    let (c, w, k, q) = (z.c, z.w, z.k, z.p + 13);
    assert(scope_end(k.ops, q + 3, k.ops.len(), 0) == q + 8) by {
        assert(k.ops[(q + 3) as int] == z.op(16));
        assert(k.ops[(q + 4) as int] == z.op(17));
        assert(k.ops[(q + 5) as int] == z.op(18));
        assert(k.ops[(q + 6) as int] == z.op(19));
        assert(k.ops[(q + 7) as int] == z.op(20));
        reveal_with_fuel(scope_end, 7);
    }
    let l1 = lemma_turn_entry(z, t, l, q, 4, 6, 11, d);
    if t < d {
        assert(k.ops[(q + 3) as int] == z.op(16));
        let l2 = lemma_skip(z, t, l, l1, 7, Op::SharedLoad { mem: z.s.scratch, index: z.s.tid });
        assert(k.ops[(q + 4) as int] == z.op(17));
        let l3 = lemma_skip(z, t, l, l2, 8, Op::Add { a: z.v(5), b: z.s.tid });
        assert(k.ops[(q + 5) as int] == z.op(18));
        let l4 = lemma_skip(z, t, l, l3, 9, Op::SharedLoad { mem: z.s.scratch, index: z.v(8) });
        assert(k.ops[(q + 6) as int] == z.op(19));
        let l5 = lemma_skip(z, t, l, l4, 10, Op::Max { a: z.v(7), b: z.v(9) });
        assert(k.ops[(q + 7) as int] == z.op(20));
        lemma_comes_next(c, w, k, t, l, l5);
        let l6 = tread(c, w, k, t, l5);
        assert(l5.mem == l.mem && l5.vars == l.vars && l5.read == l.read);
        assert(seen(c, w, k, t, l5, z.s.tid) == known(Slot::<N>::Int(t)));
        assert(seen(c, w, k, t, l5, z.v(5)) == known(Slot::<N>::Int(d)));
        let first = seen(c, w, k, t, l5, z.v(7));
        assert(first.slot == (l.mem)(cell(z, t)) && first.from =~= set![cell(z, t)]) by {
            reveal_with_fuel(got, 2);
        }
        let place = seen(c, w, k, t, l5, z.v(8));
        assert(place.slot == Slot::<N>::Int(t + d) && place.from =~= Set::empty()) by {
            reveal_with_fuel(got, 2);
            vstd::arithmetic::div_mod::lemma_small_mod((d + t) as nat, 0x1_0000_0000);
        }
        let second = seen(c, w, k, t, l5, z.v(9));
        assert(second.slot == (l.mem)(cell(z, t + d)) && second.from =~= set![cell(z, t + d)]) by {
            reveal_with_fuel(got, 2);
        }
        let best = seen(c, w, k, t, l5, z.v(10));
        assert(best.slot == c.of_two(c.greatest, first.slot, second.slot) && best.from
            == first.from + second.from) by {
            reveal_with_fuel(got, 2);
        }
        lemma_comes_next(c, w, k, t, l, l6);
        let m = tread(c, w, k, t, l6);
        assert(m.open =~= l.open.push(q));
        m
    } else {
        l1
    }
}

proof fn lemma_sum_turn<N>(z: Setting<N>, t: int, l: Lane<N>, d: int) -> (m: Lane<N>)
    requires
        z.numbers_fit(),
        grounded(z.k, z.s, z.b),
        takes_sum(z),
        turns(z, t, l, z.p + z.x() + 47, d),
        0 <= t < z.h.size,
        t < d ==> (l.mem)(cell(z, t)) is Num && (l.mem)(cell(z, t + d)) is Num,
    ensures
        turned(z, z.c.plus, t, l, m, z.p + z.x() + 47, z.p + z.x() + 54, d),
{
    reveal(takes_sum);
    let (c, w, k, q) = (z.c, z.w, z.k, z.p + z.x() + 47);
    let o = z.x() + 47;
    assert(scope_end(k.ops, q + 3, k.ops.len(), 0) == q + 6) by {
        assert(k.ops[(q + 3) as int] == z.op(o + 3));
        assert(k.ops[(q + 4) as int] == z.op(o + 4));
        assert(k.ops[(q + 5) as int] == z.op(o + 5));
        reveal_with_fuel(scope_end, 5);
    }
    let l1 = lemma_turn_entry(z, t, l, q, 2, 19, 22, d);
    if t < d {
        assert(k.ops[(q + 3) as int] == z.op(o + 3));
        let l2 = lemma_skip(z, t, l, l1, 20, Op::Add { a: z.v(5), b: z.s.tid });
        assert(k.ops[(q + 4) as int] == z.op(o + 4));
        let l3 = lemma_skip(z, t, l, l2, 21, Op::SharedLoad { mem: z.s.scratch, index: z.v(20) });
        assert(k.ops[(q + 5) as int] == z.op(o + 5));
        lemma_comes_next(c, w, k, t, l, l3);
        let l4 = tread(c, w, k, t, l3);
        assert(l3.mem == l.mem && l3.vars == l.vars && l3.read == l.read);
        assert(seen(c, w, k, t, l3, z.s.tid) == known(Slot::<N>::Int(t)));
        assert(seen(c, w, k, t, l3, z.v(5)) == known(Slot::<N>::Int(d)));
        let place = seen(c, w, k, t, l3, z.v(20));
        assert(place.slot == Slot::<N>::Int(t + d) && place.from =~= Set::empty()) by {
            reveal_with_fuel(got, 2);
            vstd::arithmetic::div_mod::lemma_small_mod((d + t) as nat, 0x1_0000_0000);
        }
        let second = seen(c, w, k, t, l3, z.v(21));
        assert(second.slot == (l.mem)(cell(z, t + d)) && second.from =~= set![cell(z, t + d)]) by {
            reveal_with_fuel(got, 2);
        }
        lemma_comes_next(c, w, k, t, l, l4);
        let m = tread(c, w, k, t, l4);
        assert(m.open =~= l.open.push(q));
        m
    } else {
        l1
    }
}

/// Behind the barrier of a turn the threads leave the loop, or halve the distance.
proof fn lemma_turn_exit<N>(
    z: Setting<N>,
    t: int,
    l: Lane<N>,
    open: Seq<nat>,
    q: nat,
    gap: nat,
    less: nat,
    is_one: nat,
    d: int,
) -> (m: Lane<N>)
    requires
        z.numbers_fit(),
        grounded(z.k, z.s, z.b),
        reduces(z, q, gap, less, is_one),
        sits(l, z.s, z.h, t),
        l.at == q + gap + 6,
        l.open == open.push(q),
        (l.vars)(z.v(5)) == Slot::<N>::Int(d),
        0 < d,
        scope_end(z.k.ops, q + 1, z.k.ops.len(), 0) == q + gap + 11,
    ensures
        strolls(z.c, z.w, z.k, t, l, m),
        m.read == l.read,
        m.open == open,
        d == 1 ==> m.at == q + gap + 12 && m.vars == l.vars,
        d != 1 ==> m.at == q && (m.vars)(z.v(5)) == Slot::<N>::Int(d / 2),
        forall|v: ValueId| v != z.v(5) ==> (#[trigger] (m.vars)(v)) == (l.vars)(v),
{
    let (c, w, k) = (z.c, z.w, z.k);
    let r = q + gap + 5;
    lemma_comes_none(c, w, k, t, l);
    let l1 = lemma_skip(z, t, l, l, is_one, Op::Eq { a: z.v(5), b: z.s.one });
    lemma_comes_next(c, w, k, t, l, l1);
    let l2 = tread(c, w, k, t, l1);
    assert(seen(c, w, k, t, l1, z.v(5)) == known(Slot::<N>::Int(d)));
    assert(seen(c, w, k, t, l1, z.s.one) == known(Slot::<N>::Int(1))) by {
        reveal_with_fuel(got, 2);
    }
    let test = seen(c, w, k, t, l1, z.v(is_one));
    assert(test.slot == Slot::<N>::Truth(d == 1) && test.from =~= Set::empty()) by {
        reveal_with_fuel(got, 2);
    }
    assert(l2.read =~= l.read);
    if d == 1 {
        assert(l2.at == r + 3 && l2.open == open.push(q).push(r + 2));
        lemma_comes_next(c, w, k, t, l, l2);
        let m = tread(c, w, k, t, l2);
        assert(to_loop(k.ops, l2.open) == open.push(q)) by {
            reveal_with_fuel(to_loop, 3);
            assert(l2.open.drop_last() =~= open.push(q));
        }
        assert(m.open =~= open);
        m
    } else {
        assert(scope_end(k.ops, r + 3, k.ops.len(), 0) == r + 4) by {
            reveal_with_fuel(scope_end, 3);
        }
        assert(l2.at == r + 5 && l2.open == open.push(q));
        lemma_comes_next(c, w, k, t, l, l2);
        let l3 = tread(c, w, k, t, l2);
        let half = got(c, w, k, t, l2, Op::Shr { a: z.v(5), b: z.s.one }, any());
        assert(half.slot == Slot::<N>::Int(d / 2) && half.from =~= Set::empty()) by {
            assert(seen(c, w, k, t, l2, z.v(5)) == known(Slot::<N>::Int(d)));
            assert(seen(c, w, k, t, l2, z.s.one) == known(Slot::<N>::Int(1))) by {
                reveal_with_fuel(got, 2);
            }
            vstd::arithmetic::power2::lemma2_to64();
        }
        assert(l3.read =~= l.read);
        lemma_comes_next(c, w, k, t, l, l3);
        let m = tread(c, w, k, t, l3);
        assert(m.open =~= open);
        m
    }
}

/// What is written of a column.
pub open spec fn of_column<N>(z: Setting<N>, j: int, a: Address) -> bool {
    a matches Address::Param(p, i) && z.writes(p) && i == z.h.place(j)
}

/// Whether a thread has written one column, as a function of what was there.
pub open spec fn writes_column<N>(
    z: Setting<N>,
    l: Lane<N>,
    m: Lane<N>,
    j: int,
    f: spec_fn(int, Slot<N>) -> Slot<N>,
) -> bool {
    &&& forall|a: Address| of_column(z, j, a) ==> #[trigger] (m.mem)(a) == f(j, (l.mem)(a))
    &&& forall|a: Address| !of_column(z, j, a) ==> #[trigger] (m.mem)(a) == (l.mem)(a)
    &&& forall|a: Address| #[trigger]
        m.wrote.contains(a) <==> l.wrote.contains(a) || of_column(z, j, a)
    &&& forall|a: Address| #[trigger]
        m.read.contains(a) ==> l.read.contains(a) || of_column(z, j, a) || (
        a matches Address::Param(p, _) && p == z.h.input)
}

/// Whether a thread has written its columns up to a bound, as a function of what was there.
pub open spec fn worked<N>(
    z: Setting<N>,
    t: int,
    l: Lane<N>,
    m: Lane<N>,
    n: int,
    f: spec_fn(int, Slot<N>) -> Slot<N>,
) -> bool {
    &&& forall|p: ParamId, i: int|
        z.writes(p) && 0 <= i < z.h.cols ==> #[trigger] (m.mem)(Address::Param(p, z.h.place(i)))
            == if i < n && i % z.h.size == t {
            f(i, (l.mem)(Address::Param(p, z.h.place(i))))
        } else {
            (l.mem)(Address::Param(p, z.h.place(i)))
        }
    &&& forall|a: Address| !mine(z, t, a) ==> #[trigger] (m.mem)(a) == (l.mem)(a)
    &&& forall|a: Address| #[trigger]
        m.wrote.contains(a) ==> l.wrote.contains(a) || mine(z, t, a)
    &&& forall|p: ParamId, i: int|
        z.writes(p) && 0 <= i < n && i < z.h.cols && i % z.h.size == t
            ==> #[trigger] m.wrote.contains(Address::Param(p, z.h.place(i)))
    &&& forall|a: Address| #[trigger]
        m.read.contains(a) ==> l.read.contains(a) || mine(z, t, a) || (
        a matches Address::Param(p, _) && p == z.h.input)
}

proof fn lemma_worked_step<N>(
    z: Setting<N>,
    t: int,
    l0: Lane<N>,
    l: Lane<N>,
    m: Lane<N>,
    j: int,
    f: spec_fn(int, Slot<N>) -> Slot<N>,
)
    requires
        z.numbers_fit(),
        0 <= t < z.h.size,
        0 <= j < z.h.cols,
        j % z.h.size == t,
        worked(z, t, l0, l, j, f),
        writes_column(z, l, m, j, f),
    ensures
        worked(z, t, l0, m, j + z.h.size, f),
{
    let n = j + z.h.size;
    assert forall|a: Address| of_column(z, j, a) implies mine(z, t, a) by {
        assert(a matches Address::Param(_, i) && i == z.h.place(j));
    }
    assert forall|p: ParamId, i: int| z.writes(p) && 0 <= i < z.h.cols implies #[trigger] (m.mem)(
        Address::Param(p, z.h.place(i)),
    ) == if i < n && i % z.h.size == t {
        f(i, (l0.mem)(Address::Param(p, z.h.place(i))))
    } else {
        (l0.mem)(Address::Param(p, z.h.place(i)))
    } by {
        let a = Address::Param(p, z.h.place(i));
        assert((l.mem)(Address::Param(p, z.h.place(i))) == if i < j && i % z.h.size == t {
            f(i, (l0.mem)(a))
        } else {
            (l0.mem)(a)
        });
        if i == j {
            assert(of_column(z, j, a));
        } else {
            assert(!of_column(z, j, a));
            if j < i < n {
                lemma_next_column(t, z.h.size, j, i);
            }
        }
    }
    assert forall|p: ParamId, i: int|
        z.writes(p) && 0 <= i < n && i < z.h.cols && i % z.h.size == t implies #[trigger] m.wrote.contains(
    Address::Param(p, z.h.place(i))) by {
        let a = Address::Param(p, z.h.place(i));
        if i == j {
            assert(of_column(z, j, a));
        } else {
            if j < i < n {
                lemma_next_column(t, z.h.size, j, i);
            }
            assert(l.wrote.contains(Address::Param(p, z.h.place(i))));
        }
    }
}

proof fn lemma_worked_start<N>(
    z: Setting<N>,
    t: int,
    l: Lane<N>,
    m: Lane<N>,
    f: spec_fn(int, Slot<N>) -> Slot<N>,
)
    requires
        0 <= t < z.h.size,
        m.mem == l.mem,
        m.wrote == l.wrote,
        m.read == l.read,
    ensures
        worked(z, t, l, m, t, f),
{
    assert forall|i: int| 0 <= i < t implies #[trigger] (i % z.h.size) != t by {
        vstd::arithmetic::div_mod::lemma_small_mod(i as nat, z.h.size as nat);
    }
}

/// The stored row is multiplied by a number.
#[verifier::opaque]
pub open spec fn scale_laid<N>(z: Setting<N>) -> bool {
    let o = z.x() + 64;
    &&& z.p + o + 7 + z.x() <= z.k.ops.len()
    &&& z.op(o) == (Op::OverwriteVar { id: z.s.col, val: Box::new(Op::CopyVar { id: z.s.tid }) })
    &&& heads(z.k, z.s, z.p + o + 1, z.v(25), z.v(26))
    &&& z.op(o + 4) == (Op::ParamMul { param: z.s.saved, index: z.v(26), value: z.v(24) })
    &&& z.output matches Some(q) ==> z.op(o + 5) == (Op::ParamMul {
        param: q,
        index: z.v(26),
        value: z.v(24),
    })
    &&& tails(z.k, z.s, z.p + o + 5 + z.x())
    &&& plain(z.k, z.v(24))
}

/// What was in a column, times a number.
pub open spec fn multiplied<N>(z: Setting<N>, by: N) -> spec_fn(int, Slot<N>) -> Slot<N> {
    |j: int, old: Slot<N>| z.c.product(old, Slot::Num(by))
}

proof fn lemma_scale_turn<N>(
    z: Setting<N>,
    t: int,
    l: Lane<N>,
    open: Seq<nat>,
    j: int,
    by: N,
) -> (m: Lane<N>)
    requires
        z.numbers_fit(),
        grounded(z.k, z.s, z.b),
        scale_laid(z),
        sits(l, z.s, z.h, t),
        l.at == z.p + z.x() + 65,
        l.open == open,
        (l.vars)(z.s.col) == Slot::<N>::Int(j),
        0 <= j < z.h.cols,
        (l.vars)(z.v(24)) == Slot::Num(by),
    ensures
        comes(z.c, z.w, z.k, t, l, m),
        !m.stuck,
        writes_column(z, l, m, j, multiplied(z, by)),
        m.at == z.p + z.x() + 65,
        m.open == open,
        (m.vars)(z.s.col) == Slot::<N>::Int(j + z.h.size),
        forall|v: ValueId|
            v != z.v(26) && v != z.s.col ==> (#[trigger] (m.vars)(v)) == (l.vars)(v),
{
    reveal(scale_laid);
    let (c, w, k) = (z.c, z.w, z.k);
    let o = z.x() + 64;
    let l1 = lemma_head(c, w, k, t, l, z.s, z.b, z.h, z.p + o + 1, z.v(25), z.v(26), j);
    assert(k.ops[l1.at as int] == z.op(o + 4));
    assert(seen(c, w, k, t, l1, z.v(26)) == known(Slot::<N>::Int(z.h.place(j))));
    assert(seen(c, w, k, t, l1, z.v(24)) == known(Slot::Num(by)));
    lemma_comes_next(c, w, k, t, l, l1);
    let l2 = tread(c, w, k, t, l1);
    let a1 = Address::Param(z.s.saved, z.h.place(j));
    assert((l2.mem)(a1) == c.product((l.mem)(a1), Slot::Num(by)));
    let l3 = if z.output is Some {
        assert(k.ops[l2.at as int] == z.op(o + 5));
        assert(seen(c, w, k, t, l2, z.v(26)) == known(Slot::<N>::Int(z.h.place(j))));
        assert(seen(c, w, k, t, l2, z.v(24)) == known(Slot::Num(by)));
        lemma_comes_next(c, w, k, t, l, l2);
        tread(c, w, k, t, l2)
    } else {
        l2
    };
    assert(writes_column(z, l, l3, j, multiplied(z, by)));
    let m = lemma_tail(c, w, k, t, l3, z.s, z.h, z.p + o + 1, z.p + o + 5 + z.x(), open, j);
    lemma_comes_on(c, w, k, t, l, l3, m);
    m
}

proof fn lemma_scale_loop<N>(
    z: Setting<N>,
    t: int,
    l0: Lane<N>,
    l: Lane<N>,
    j: int,
    by: N,
) -> (m: Lane<N>)
    requires
        z.numbers_fit(),
        grounded(z.k, z.s, z.b),
        scale_laid(z),
        sits(l, z.s, z.h, t),
        0 <= t < z.h.size,
        l.at == z.p + z.x() + 65,
        (l.vars)(z.s.col) == Slot::<N>::Int(j),
        0 <= j,
        j % z.h.size == t,
        (l.vars)(z.v(24)) == Slot::Num(by),
        comes(z.c, z.w, z.k, t, l0, l),
        worked(z, t, l0, l, j, multiplied(z, by)),
    ensures
        comes(z.c, z.w, z.k, t, l0, m),
        !m.stuck,
        worked(z, t, l0, m, z.h.cols, multiplied(z, by)),
        m.at == z.p + 2 * z.x() + 71,
    decreases z.h.cols - upto(z.h, j),
{
    let (c, w, k) = (z.c, z.w, z.k);
    if j < z.h.cols {
        let l1 = lemma_scale_turn(z, t, l, l.open, j, by);
        lemma_comes_on(c, w, k, t, l0, l, l1);
        lemma_worked_step(z, t, l0, l, l1, j, multiplied(z, by));
        vstd::arithmetic::div_mod::lemma_mod_add_multiples_vanish(j, z.h.size);
        lemma_scale_loop(z, t, l0, l1, j + z.h.size, by)
    } else {
        reveal(scale_laid);
        let o = z.x() + 64;
        lemma_comes_next(c, w, k, t, l0, l);
        let m = tread(c, w, k, t, l);
        lemma_leave(c, w, k, t, l, z.s, z.b, z.h, z.p + o + 1, z.v(25), z.v(26), j);
        assert(scope_end(k.ops, z.p + o + 2, k.ops.len(), 0) == z.p + o + 6 + z.x()) by {
            assert(k.ops[(z.p + o + 4) as int] == z.op(o + 4));
            if z.output is Some {
                assert(k.ops[(z.p + o + 5) as int] == z.op(o + 5));
            }
            reveal_with_fuel(scope_end, 8);
        }
        m
    }
}

/// The exponentials of a row are stored, and those of each thread added up.
#[verifier::opaque]
pub open spec fn exp_laid<N>(z: Setting<N>) -> bool {
    let x = z.x();
    &&& z.p + 46 + x < z.k.ops.len()
    &&& z.defines(31, 13)
    &&& z.holds(13, Some(Op::ConstF32 { value: Float32 { bits: ZERO_BITS } }))
    &&& z.op(32) == (Op::OverwriteVar { id: z.s.col, val: Box::new(Op::CopyVar { id: z.s.tid }) })
    &&& heads(z.k, z.s, z.p + 33, z.v(14), z.v(15))
    &&& loads(z.k, z.p + 36, z.v(15), z.v(16), z.h.input)
    &&& z.defines(38, 17)
    &&& z.means(17, Op::Sub { a: z.v(16), b: z.v(12) })
    &&& plain(z.k, z.v(12))
    &&& z.defines(39, 18)
    &&& z.holds(18, Some(Op::Exp { x: z.v(17) }))
    &&& z.op(40) == (Op::ParamStore { param: z.s.saved, index: z.v(15), value: z.v(18) })
    &&& z.output matches Some(q) ==> z.op(41) == (Op::ParamStore {
        param: q,
        index: z.v(15),
        value: z.v(18),
    })
    &&& z.op(x + 41) == (Op::AddAssign {
        id: z.v(13),
        val: Box::new(Op::CopyVar { id: z.v(18) }),
    })
    &&& tails(z.k, z.s, z.p + x + 42)
    &&& z.op(x + 44) == (Op::SharedStore {
        mem: z.s.scratch,
        index: z.s.tid,
        value: z.v(13),
    })
    &&& z.op(x + 45) == Op::Barrier
}

/// The exponential of each operand, less a number.
pub open spec fn raised_by<N>(c: Calculus<N>, x: spec_fn(int) -> N, less: N) -> spec_fn(int) -> N {
    |j: int| (c.exponential)((c.minus)(x(j), less))
}

/// The exponentials, whatever was there.
pub open spec fn replaced<N>(z: Setting<N>, less: N) -> spec_fn(int, Slot<N>) -> Slot<N> {
    |j: int, old: Slot<N>| Slot::Num(raised_by(z.c, z.h.x, less)(j))
}

proof fn lemma_exp_turn<N>(
    z: Setting<N>,
    t: int,
    l: Lane<N>,
    open: Seq<nat>,
    j: int,
    less: N,
    sum: N,
) -> (m: Lane<N>)
    requires
        z.numbers_fit(),
        grounded(z.k, z.s, z.b),
        exp_laid(z),
        sits(l, z.s, z.h, t),
        provides(l, z.h),
        l.at == z.p + 33,
        l.open == open,
        (l.vars)(z.s.col) == Slot::<N>::Int(j),
        0 <= j < z.h.cols,
        (l.vars)(z.v(12)) == Slot::Num(less),
        (l.vars)(z.v(13)) == Slot::Num(sum),
    ensures
        comes(z.c, z.w, z.k, t, l, m),
        !m.stuck,
        writes_column(z, l, m, j, replaced(z, less)),
        m.at == z.p + 33,
        m.open == open,
        (m.vars)(z.s.col) == Slot::<N>::Int(j + z.h.size),
        (m.vars)(z.v(13)) == Slot::Num((z.c.plus)(sum, raised_by(z.c, z.h.x, less)(j))),
        forall|v: ValueId|
            v != z.v(13) && v != z.v(15) && v != z.v(16) && v != z.v(18) && v != z.s.col ==> (
            #[trigger] (m.vars)(v)) == (l.vars)(v),
{
    reveal(exp_laid);
    let (c, w, k) = (z.c, z.w, z.k);
    let e = raised_by(c, z.h.x, less)(j);
    let l1 = lemma_head(c, w, k, t, l, z.s, z.b, z.h, z.p + 33, z.v(14), z.v(15), j);
    let l2 = lemma_loads(c, w, k, t, l1, z.h, z.p + 36, z.v(15), z.v(16), j);
    lemma_comes_on(c, w, k, t, l, l1, l2);
    assert(k.ops[l2.at as int] == z.op(38));
    let l3 = lemma_skip(z, t, l, l2, 17, Op::Sub { a: z.v(16), b: z.v(12) });
    assert(k.ops[l3.at as int] == z.op(39));
    assert(seen(c, w, k, t, l3, z.v(16)) == known(Slot::Num((z.h.x)(j))));
    assert(seen(c, w, k, t, l3, z.v(12)) == known(Slot::Num(less)));
    let diff = seen(c, w, k, t, l3, z.v(17));
    assert(diff.slot == Slot::Num((c.minus)((z.h.x)(j), less)) && diff.from =~= Set::empty()) by {
        reveal_with_fuel(got, 2);
    }
    lemma_comes_next(c, w, k, t, l, l3);
    let l4 = tread(c, w, k, t, l3);
    assert((l4.vars)(z.v(18)) == Slot::Num(e));
    assert(l4.read =~= l3.read);
    assert(k.ops[l4.at as int] == z.op(40));
    assert(seen(c, w, k, t, l4, z.v(15)) == known(Slot::<N>::Int(z.h.place(j))));
    assert(seen(c, w, k, t, l4, z.v(18)) == known(Slot::Num(e)));
    lemma_comes_next(c, w, k, t, l, l4);
    let l5 = tread(c, w, k, t, l4);
    let l6 = if z.output is Some {
        assert(k.ops[l5.at as int] == z.op(41));
        assert(seen(c, w, k, t, l5, z.v(15)) == known(Slot::<N>::Int(z.h.place(j))));
        assert(seen(c, w, k, t, l5, z.v(18)) == known(Slot::Num(e)));
        lemma_comes_next(c, w, k, t, l, l5);
        tread(c, w, k, t, l5)
    } else {
        l5
    };
    assert(writes_column(z, l, l6, j, replaced(z, less)));
    assert(k.ops[l6.at as int] == z.op(z.x() + 41));
    assert(seen(c, w, k, t, l6, z.v(18)) == known(Slot::Num(e)));
    lemma_comes_next(c, w, k, t, l, l6);
    let l7 = tread(c, w, k, t, l6);
    assert((l7.vars)(z.v(13)) == Slot::Num((c.plus)(sum, e)));
    assert(l7.read =~= l6.read);
    let m = lemma_tail(c, w, k, t, l7, z.s, z.h, z.p + 33, z.p + z.x() + 42, open, j);
    lemma_comes_on(c, w, k, t, l, l7, m);
    m
}

/// The sum of the exponentials of the columns at a distance.
pub open spec fn sum_of<N>(z: Setting<N>, less: N, t: int, step: int, n: nat) -> N {
    strided(
        z.c.plus,
        (z.c.number)(ZERO_BITS),
        raised_by(z.c, z.h.x, less),
        t,
        step,
        n,
    )
}

proof fn lemma_exp_loop<N>(
    z: Setting<N>,
    t: int,
    l0: Lane<N>,
    l: Lane<N>,
    j: int,
    less: N,
) -> (m: Lane<N>)
    requires
        z.numbers_fit(),
        grounded(z.k, z.s, z.b),
        exp_laid(z),
        sits(l, z.s, z.h, t),
        provides(l0, z.h),
        0 <= t < z.h.size,
        l.at == z.p + 33,
        (l.vars)(z.s.col) == Slot::<N>::Int(j),
        0 <= j,
        j % z.h.size == t,
        (l.vars)(z.v(12)) == Slot::Num(less),
        (l.vars)(z.v(13)) == Slot::Num(sum_of(z, less, t, z.h.size, upto(z.h, j))),
        comes(z.c, z.w, z.k, t, l0, l),
        worked(z, t, l0, l, j, replaced(z, less)),
    ensures
        comes(z.c, z.w, z.k, t, l0, m),
        !m.stuck,
        worked(z, t, l0, m, z.h.cols, replaced(z, less)),
        m.at == z.p + z.x() + 44,
        m.open == l.open,
        (m.vars)(z.v(13)) == Slot::Num(sum_of(z, less, t, z.h.size, z.h.cols as nat)),
        forall|v: ValueId|
            v != z.v(13) && v != z.v(15) && v != z.v(16) && v != z.v(18) && v != z.s.col ==> (
            #[trigger] (m.vars)(v)) == (l.vars)(v),
    decreases z.h.cols - upto(z.h, j),
{
    let (c, w, k) = (z.c, z.w, z.k);
    if j < z.h.cols {
        assert(provides(l, z.h)) by {
            assert forall|i: int| 0 <= i < z.h.cols implies (l.mem)(
                Address::Param(z.h.input, #[trigger] z.h.place(i)),
            ) == Slot::Num((z.h.x)(i)) by {
                assert(!mine(z, t, Address::Param(z.h.input, z.h.place(i))));
            }
        }
        let sum = sum_of(z, less, t, z.h.size, upto(z.h, j));
        let l1 = lemma_exp_turn(z, t, l, l.open, j, less, sum);
        lemma_comes_on(c, w, k, t, l0, l, l1);
        lemma_worked_step(z, t, l0, l, l1, j, replaced(z, less));
        lemma_strided_step(
            c.plus,
            (c.number)(ZERO_BITS),
            raised_by(c, z.h.x, less),
            t,
            z.h.size,
            j,
            z.h.cols,
        );
        lemma_exp_loop(z, t, l0, l1, j + z.h.size, less)
    } else {
        reveal(exp_laid);
        lemma_comes_next(c, w, k, t, l0, l);
        let m = tread(c, w, k, t, l);
        lemma_leave(c, w, k, t, l, z.s, z.b, z.h, z.p + 33, z.v(14), z.v(15), j);
        assert(scope_end(k.ops, z.p + 34, k.ops.len(), 0) == z.p + z.x() + 43) by {
            assert(k.ops[(z.p + 38) as int] == z.op(38));
            assert(k.ops[(z.p + 39) as int] == z.op(39));
            assert(k.ops[(z.p + 40) as int] == z.op(40));
            assert(k.ops[(z.p + 41) as int] == z.op(41));
            assert(k.ops[(z.p + z.x() + 41) as int] == z.op(z.x() + 41));
            reveal_with_fuel(scope_end, 13);
        }
        m
    }
}

/// What a thread has done when the exponentials are stored.
pub open spec fn exp_stored<N>(z: Setting<N>, t: int, l: Lane<N>, m: Lane<N>, less: N) -> bool {
    &&& comes(z.c, z.w, z.k, t, l, m)
    &&& !m.stuck
    &&& m.at == z.p + z.x() + 45
    &&& m.open == l.open
    &&& (m.mem)(cell(z, t)) == Slot::Num(sum_of(z, less, t, z.h.size, z.h.cols as nat))
    &&& forall|p: ParamId, i: int|
        z.writes(p) && 0 <= i < z.h.cols && i % z.h.size == t ==> #[trigger] (m.mem)(
            Address::Param(p, z.h.place(i)),
        ) == Slot::Num(raised_by(z.c, z.h.x, less)(i))
    &&& forall|a: Address|
        !mine(z, t, a) && a != cell(z, t) ==> #[trigger] (m.mem)(a) == (l.mem)(a)
    &&& forall|a: Address| #[trigger]
        m.wrote.contains(a) ==> l.wrote.contains(a) || mine(z, t, a) || a == cell(z, t)
    &&& m.wrote.contains(cell(z, t))
    &&& forall|p: ParamId, i: int|
        z.writes(p) && 0 <= i < z.h.cols && i % z.h.size == t ==> #[trigger] m.wrote.contains(
            Address::Param(p, z.h.place(i)),
        )
    &&& forall|a: Address| #[trigger]
        m.read.contains(a) ==> l.read.contains(a) || mine(z, t, a) || (
        a matches Address::Param(p, _) && p == z.h.input)
    &&& forall|v: ValueId|
        v != z.v(13) && v != z.v(15) && v != z.v(16) && v != z.v(18) && v != z.s.col ==> (
        #[trigger] (m.vars)(v)) == (l.vars)(v)
}

proof fn lemma_exp_stored<N>(z: Setting<N>, t: int, l: Lane<N>, less: N) -> (m: Lane<N>)
    requires
        z.numbers_fit(),
        grounded(z.k, z.s, z.b),
        exp_laid(z),
        sits(l, z.s, z.h, t),
        provides(l, z.h),
        0 <= t < z.h.size,
        l.at == z.p + 31,
        (l.vars)(z.v(12)) == Slot::Num(less),
    ensures
        exp_stored(z, t, l, m, less),
{
    reveal(exp_laid);
    let (c, w, k) = (z.c, z.w, z.k);
    lemma_comes_none(c, w, k, t, l);
    lemma_comes_next(c, w, k, t, l, l);
    let l1 = tread(c, w, k, t, l);
    assert(k.ops[l.at as int] == z.op(31));
    assert((l1.vars)(z.v(13)) == Slot::Num((c.number)(ZERO_BITS)) && l1.read =~= l.read) by {
        reveal_with_fuel(got, 2);
    }
    assert(k.ops[l1.at as int] == z.op(32));
    lemma_comes_next(c, w, k, t, l, l1);
    let l2 = tread(c, w, k, t, l1);
    assert(seen(c, w, k, t, l1, z.s.tid) == known(Slot::<N>::Int(t)));
    assert((l2.vars)(z.s.col) == Slot::<N>::Int(t) && l2.read =~= l.read);
    lemma_worked_start(z, t, l, l2, replaced(z, less));
    lemma_strided_start(
        c.plus,
        (c.number)(ZERO_BITS),
        raised_by(c, z.h.x, less),
        t,
        z.h.size,
        upto(z.h, t),
    );
    vstd::arithmetic::div_mod::lemma_small_mod(t as nat, z.h.size as nat);
    let l3 = lemma_exp_loop(z, t, l, l2, t, less);
    assert(k.ops[l3.at as int] == z.op(z.x() + 44));
    lemma_comes_next(c, w, k, t, l, l3);
    let m = tread(c, w, k, t, l3);
    assert(seen(c, w, k, t, l3, z.s.tid) == known(Slot::<N>::Int(t)));
    assert(seen(c, w, k, t, l3, z.v(13)) == known((l3.vars)(z.v(13))));
    m
}

/// Whether all the threads of a block stand at one place, behind a barrier, with the same memory.
pub open spec fn stands<N>(z: Setting<N>, lanes: spec_fn(int) -> Lane<N>, at: nat) -> bool {
    &&& forall|t: int|
        0 <= t < z.h.size ==> {
            &&& sits(#[trigger] lanes(t), z.s, z.h, t)
            &&& lanes(t).at == at
            &&& lanes(t).open == Seq::<nat>::empty()
            &&& calm(z, lanes(t), t)
            &&& lanes(t).mem == lanes(0).mem
        }
    &&& provides(lanes(0), z.h)
}

/// What a thread has of a column is its own.
proof fn lemma_mine<N>(z: Setting<N>, t: int, u: int, a: Address)
    requires
        mine(z, t, a),
        mine(z, u, a),
    ensures
        t == u,
{
}

/// Threads that write cells of the scratch buffer that no other one touches do not get in the way of
/// each other.
proof fn lemma_clear<N>(
    z: Setting<N>,
    lanes: spec_fn(int) -> Lane<N>,
    fill: spec_fn(int, int) -> bool,
    touch: spec_fn(int, int) -> bool,
)
    requires
        z.numbers_fit(),
        forall|t: int, a: Address|
            0 <= t < z.h.size && #[trigger] lanes(t).wrote.contains(a) ==> mine(z, t, a) || (
            a matches Address::Shared(mem, i) && fill(t, i)),
        forall|t: int, a: Address|
            0 <= t < z.h.size && #[trigger] lanes(t).read.contains(a) ==> mine(z, t, a) || (
            a matches Address::Param(p, _) && p == z.h.input) || (a matches Address::Shared(mem, i)
                && touch(t, i)),
        forall|t: int, u: int, i: int|
            0 <= t < z.h.size && 0 <= u < z.h.size && t != u && #[trigger] fill(t, i)
                ==> !(#[trigger] fill(u, i)),
        forall|t: int, u: int, i: int|
            0 <= t < z.h.size && 0 <= u < z.h.size && t != u && #[trigger] fill(t, i)
                ==> !(#[trigger] touch(u, i)),
    ensures
        clear(z.h.size, lanes),
{
    assert forall|t: int, u: int, a: Address|
        0 <= t < z.h.size && 0 <= u < z.h.size && t != u && #[trigger] lanes(t).wrote.contains(
            a,
        ) implies !(#[trigger] lanes(u).wrote.contains(a)) && !lanes(u).read.contains(a) by {
        if lanes(u).wrote.contains(a) && mine(z, t, a) {
            lemma_mine(z, t, u, a);
        }
        if lanes(u).read.contains(a) && mine(z, t, a) && mine(z, u, a) {
            lemma_mine(z, t, u, a);
        }
    }
}

/// What one thread has written, all see behind a barrier.
proof fn lemma_joined_written<N>(size: int, lanes: spec_fn(int) -> Lane<N>, t: int, a: Address)
    requires
        clear(size, lanes),
        0 <= t < size,
        lanes(t).wrote.contains(a),
    ensures
        joined(size, lanes)(a) == (lanes(t).mem)(a),
{
    let u = choose|u: int| 0 <= u < size && #[trigger] lanes(u).wrote.contains(a);
    if u != t {
        assert(lanes(u).wrote.contains(a));
    }
}

proof fn lemma_joined_kept<N>(size: int, lanes: spec_fn(int) -> Lane<N>, a: Address)
    requires
        forall|t: int| 0 <= t < size ==> !(#[trigger] lanes(t).wrote.contains(a)),
    ensures
        joined(size, lanes)(a) == (lanes(0).mem)(a),
{
}

/// What a thread has done when the row is scaled.
pub open spec fn scaled<N>(z: Setting<N>, t: int, l: Lane<N>, m: Lane<N>, by: N) -> bool {
    &&& comes(z.c, z.w, z.k, t, l, m)
    &&& !m.stuck
    &&& worked(z, t, l, m, z.h.cols, multiplied(z, by))
    &&& m.at == z.p + 2 * z.x() + 71
}

pub open spec fn scaled_lane<N>(z: Setting<N>, t: int, l: Lane<N>, by: N) -> Lane<N> {
    choose|m: Lane<N>| #[trigger] scaled(z, t, l, m, by)
}

proof fn lemma_scaled<N>(z: Setting<N>, t: int, l: Lane<N>, by: N) -> (m: Lane<N>)
    requires
        z.numbers_fit(),
        grounded(z.k, z.s, z.b),
        scale_laid(z),
        sits(l, z.s, z.h, t),
        0 <= t < z.h.size,
        l.at == z.p + z.x() + 64,
        (l.vars)(z.v(24)) == Slot::Num(by),
    ensures
        scaled(z, t, l, m, by),
{
    reveal(scale_laid);
    let (c, w, k) = (z.c, z.w, z.k);
    lemma_comes_none(c, w, k, t, l);
    lemma_comes_next(c, w, k, t, l, l);
    let l1 = tread(c, w, k, t, l);
    assert(k.ops[l.at as int] == z.op(z.x() + 64));
    assert(seen(c, w, k, t, l, z.s.tid) == known(Slot::<N>::Int(t)));
    assert((l1.vars)(z.s.col) == Slot::<N>::Int(t) && l1.read =~= l.read);
    lemma_worked_start(z, t, l, l1, multiplied(z, by));
    vstd::arithmetic::div_mod::lemma_small_mod(t as nat, z.h.size as nat);
    lemma_scale_loop(z, t, l, l1, t, by)
}

/// Whether the threads have come to the end of a softmax, each column was written by exactly one of
/// them, and the row is in memory in every parameter that it is written to, and nothing else is
/// changed but the scratch buffer.
pub open spec fn leaves_row<N>(
    z: Setting<N>,
    lanes: spec_fn(int) -> Lane<N>,
    mem: spec_fn(Address) -> Slot<N>,
    y: spec_fn(int) -> N,
) -> bool {
    let after = joined(z.h.size, lanes);
    &&& forall|t: int| 0 <= t < z.h.size ==> (#[trigger] lanes(t)).at == z.p + 2 * z.x() + 71
    &&& forall|t: int, p: ParamId, j: int|
        0 <= t < z.h.size && z.writes(p) && 0 <= j < z.h.cols ==> (#[trigger] lanes(
            t,
        ).wrote.contains(Address::Param(p, z.h.place(j))) <==> t == j % z.h.size)
    &&& forall|p: ParamId, j: int|
        z.writes(p) && 0 <= j < z.h.cols ==> #[trigger] after(Address::Param(p, z.h.place(j)))
            == Slot::Num(y(j))
    &&& forall|p: ParamId, i: int|
        !(z.writes(p) && z.h.place(0) <= i < z.h.place(z.h.cols)) ==> #[trigger] after(
            Address::Param(p, i),
        ) == mem(Address::Param(p, i))
}

/// The last stage: the stored row is multiplied by a number.
proof fn lemma_last_stage<N>(
    z: Setting<N>,
    lanes: spec_fn(int) -> Lane<N>,
    y: spec_fn(int) -> N,
    by: N,
) -> (b: spec_fn(int) -> Lane<N>)
    requires
        z.numbers_fit(),
        grounded(z.k, z.s, z.b),
        scale_laid(z),
        stands(z, lanes, z.p + z.x() + 64),
        forall|t: int| 0 <= t < z.h.size ==> ((#[trigger] lanes(t)).vars)(z.v(24)) == Slot::Num(by),
        forall|p: ParamId, j: int|
            z.writes(p) && 0 <= j < z.h.cols ==> #[trigger] (lanes(0).mem)(
                Address::Param(p, z.h.place(j)),
            ) == Slot::Num(y(j)),
    ensures
        passes_by(z.c, z.w, z.k, z.h.size, lanes, b, 0),
        leaves_row(z, b, lanes(0).mem, |j: int| (z.c.times)(y(j), by)),
{
    let size = z.h.size;
    let b = |t: int| scaled_lane(z, t, lanes(t), by);
    assert forall|t: int| 0 <= t < size implies scaled(z, t, lanes(t), #[trigger] b(t), by) by {
        let m = lemma_scaled(z, t, lanes(t), by);
        assert(scaled(z, t, lanes(t), m, by));
    }
    assert forall|t: int, a: Address|
        0 <= t < size && #[trigger] b(t).wrote.contains(a) implies mine(z, t, a) by {
        assert(scaled(z, t, lanes(t), b(t), by));
        assert(calm(z, lanes(t), t));
    }
    assert forall|t: int, a: Address| 0 <= t < size && #[trigger] b(t).read.contains(a) implies mine(
        z,
        t,
        a,
    ) || (a matches Address::Param(p, _) && p == z.h.input) by {
        assert(scaled(z, t, lanes(t), b(t), by));
        assert(calm(z, lanes(t), t));
    }
    lemma_clear(z, b, |t: int, i: int| false, |t: int, i: int| false);
    assert forall|t: int, p: ParamId, j: int|
        0 <= t < size && z.writes(p) && 0 <= j < z.h.cols implies (#[trigger] b(t).wrote.contains(
        Address::Param(p, z.h.place(j)),
    ) <==> t == j % size) by {
        assert(scaled(z, t, lanes(t), b(t), by));
        if b(t).wrote.contains(Address::Param(p, z.h.place(j))) {
            assert(mine(z, t, Address::Param(p, z.h.place(j))));
        }
    }
    let after = joined(size, b);
    let times = |j: int| (z.c.times)(y(j), by);
    assert forall|p: ParamId, j: int| z.writes(p) && 0 <= j < z.h.cols implies #[trigger] after(
        Address::Param(p, z.h.place(j)),
    ) == Slot::Num(times(j)) by {
        let t = j % size;
        let a = Address::Param(p, z.h.place(j));
        vstd::arithmetic::div_mod::lemma_mod_bound(j, size);
        assert(scaled(z, t, lanes(t), b(t), by));
        assert(b(t).wrote.contains(Address::Param(p, z.h.place(j))));
        lemma_joined_written(size, b, t, a);
        assert((b(t).mem)(Address::Param(p, z.h.place(j))) == multiplied(z, by)(
            j,
            (lanes(t).mem)(a),
        ));
    }
    assert forall|p: ParamId, i: int|
        !(z.writes(p) && z.h.place(0) <= i < z.h.place(z.h.cols)) implies #[trigger] after(
        Address::Param(p, i),
    ) == (lanes(0).mem)(Address::Param(p, i)) by {
        let a = Address::Param(p, i);
        assert forall|t: int| 0 <= t < size implies !(#[trigger] b(t).wrote.contains(a)) by {
            if b(t).wrote.contains(a) {
                assert(mine(z, t, a));
            }
        }
        lemma_joined_kept(size, b, a);
        assert(scaled(z, 0, lanes(0), b(0), by));
        assert(!mine(z, 0, a));
    }
    b
}

/// What a thread has done at the barrier of a turn of a reduction, since the barrier before.
pub open spec fn regrouped<N>(
    z: Setting<N>,
    op: spec_fn(N, N) -> N,
    t: int,
    l: Lane<N>,
    m: Lane<N>,
    q: nat,
    r: nat,
    d: int,
) -> bool {
    &&& comes(z.c, z.w, z.k, t, l, m)
    &&& !m.stuck
    &&& m.at == r
    &&& m.open == seq![q]
    &&& (m.vars)(z.v(5)) == Slot::<N>::Int(d)
    &&& (m.vars)(z.v(4)) == Slot::<N>::Int(z.h.size / 2)
    &&& forall|v: ValueId| v != z.v(5) && v != z.v(4) ==> (#[trigger] (m.vars)(v)) == (l.vars)(v)
    &&& t < d ==> (m.mem)(cell(z, t)) == z.c.of_two(
        op,
        (l.mem)(cell(z, t)),
        (l.mem)(cell(z, t + d)),
    )
    &&& forall|a: Address| t >= d || a != cell(z, t) ==> #[trigger] (m.mem)(a) == (l.mem)(a)
    &&& forall|a: Address| #[trigger]
        m.wrote.contains(a) <==> l.wrote.contains(a) || (t < d && a == cell(z, t))
    &&& forall|a: Address| #[trigger]
        m.read.contains(a) ==> l.read.contains(a) || (t < d && (a == cell(z, t) || a == cell(
            z,
            t + d,
        )))
}

/// The cells of the scratch buffer hold what the columns at a distance come to.
pub open spec fn heaped<N>(
    z: Setting<N>,
    mem: spec_fn(Address) -> Slot<N>,
    op: spec_fn(N, N) -> N,
    unit: N,
    y: spec_fn(int) -> N,
    d: int,
) -> bool {
    forall|i: int|
        0 <= i < d ==> (mem)(#[trigger] cell(z, i)) == Slot::Num(
            strided(op, unit, y, i, d, z.h.cols as nat),
        )
}

/// Whether all the threads of a block stand behind the barrier of a turn of a reduction.
pub open spec fn paused<N>(z: Setting<N>, lanes: spec_fn(int) -> Lane<N>, q: nat, r: nat, d: int) -> bool {
    &&& forall|t: int|
        0 <= t < z.h.size ==> {
            &&& sits(#[trigger] lanes(t), z.s, z.h, t)
            &&& lanes(t).at == r + 1
            &&& lanes(t).open == seq![q]
            &&& calm(z, lanes(t), t)
            &&& lanes(t).mem == lanes(0).mem
            &&& (lanes(t).vars)(z.v(5)) == Slot::<N>::Int(d)
            &&& (lanes(t).vars)(z.v(4)) == Slot::<N>::Int(z.h.size / 2)
        }
    &&& provides(lanes(0), z.h)
}

#[verifier::spinoff_prover]
#[verifier::rlimit(60)]
proof fn lemma_regroup<N>(
    z: Setting<N>,
    op: spec_fn(N, N) -> N,
    unit: N,
    y: spec_fn(int) -> N,
    a: spec_fn(int) -> Lane<N>,
    m: spec_fn(int) -> Lane<N>,
    q: nat,
    r: nat,
    d: int,
)
    requires
        z.numbers_fit(),
        grounded(z.k, z.s, z.b),
        gathered(op, unit),
        forall|t: int|
            0 <= t < z.h.size ==> regrouped(z, op, t, a(t), #[trigger] m(t), q, r, d) && sits(
                a(t),
                z.s,
                z.h,
                t,
            ) && calm(z, a(t), t) && a(t).mem == a(0).mem,
        provides(a(0), z.h),
        0 < d,
        2 * d <= z.h.size,
        r < z.k.ops.len(),
        z.k.ops[r as int] is Barrier,
        heaped(z, a(0).mem, op, unit, y, 2 * d),
    ensures
        gathers(z.c, z.w, z.k, z.h.size, a, m),
        paused(z, behind(z.h.size, m), q, r, d),
        heaped(z, behind(z.h.size, m)(0).mem, op, unit, y, d),
        forall|p: ParamId, i: int| #[trigger] (behind(z.h.size, m)(0).mem)(Address::Param(p, i)) == (
        a(0).mem)(Address::Param(p, i)),
        forall|t: int, v: ValueId|
            0 <= t < z.h.size && v != z.v(5) && v != z.v(4) ==> (#[trigger] (behind(
                z.h.size,
                m,
            )(t).vars)(v)) == (a(t).vars)(v),
        forall|t: int|
            0 <= t < z.h.size ==> (#[trigger] behind(z.h.size, m)(t)).vars == m(t).vars,
{
    let size = z.h.size;
    let fill = |t: int, i: int| t < d && i == t;
    let touch = |t: int, i: int| t < d && (i == t || i == t + d);
    assert forall|t: int, x: Address|
        0 <= t < size && #[trigger] m(t).wrote.contains(x) implies mine(z, t, x) || (
    x matches Address::Shared(mem, i) && fill(t, i)) by {
        assert(regrouped(z, op, t, a(t), m(t), q, r, d));
    }
    assert forall|t: int, x: Address| 0 <= t < size && #[trigger] m(t).read.contains(x) implies mine(
        z,
        t,
        x,
    ) || (x matches Address::Param(p, _) && p == z.h.input) || (x matches Address::Shared(mem, i)
        && touch(t, i)) by {
        assert(regrouped(z, op, t, a(t), m(t), q, r, d));
    }
    lemma_clear(z, m, fill, touch);
    assert(gathers(z.c, z.w, z.k, size, a, m)) by {
        assert(regrouped(z, op, 0, a(0), m(0), q, r, d));
        assert forall|t: int| 0 <= t < size implies !(#[trigger] m(t)).stuck && m(t).at == m(0).at
            && m(t).open == m(0).open by {
            assert(regrouped(z, op, t, a(t), m(t), q, r, d));
        }
    }
    let next = behind(size, m);
    let after = joined(size, m);
    assert forall|p: ParamId, i: int| #[trigger] after(Address::Param(p, i)) == (a(0).mem)(
        Address::Param(p, i),
    ) by {
        let x = Address::Param(p, i);
        if exists|t: int| 0 <= t < size && #[trigger] m(t).wrote.contains(x) {
            let t = choose|t: int| 0 <= t < size && #[trigger] m(t).wrote.contains(x);
            lemma_joined_written(size, m, t, x);
            assert(regrouped(z, op, t, a(t), m(t), q, r, d));
        } else {
            lemma_joined_kept(size, m, x);
            assert(regrouped(z, op, 0, a(0), m(0), q, r, d));
        }
    }
    assert(heaped(z, after, op, unit, y, d)) by {
        assert forall|i: int| 0 <= i < d implies after(#[trigger] cell(z, i)) == Slot::Num(
            strided(op, unit, y, i, d, z.h.cols as nat),
        ) by {
            assert(regrouped(z, op, i, a(i), m(i), q, r, d));
            assert(m(i).wrote.contains(cell(z, i)));
            lemma_joined_written(size, m, i, cell(z, i));
            lemma_strided_halves(op, unit, y, i, d, z.h.cols as nat);
            assert((a(0).mem)(cell(z, i)) == Slot::Num(
                strided(op, unit, y, i, 2 * d, z.h.cols as nat),
            ));
            assert((a(0).mem)(cell(z, i + d)) == Slot::Num(
                strided(op, unit, y, i + d, 2 * d, z.h.cols as nat),
            ));
        }
    }
    assert(paused(z, next, q, r, d)) by {
        assert forall|t: int| 0 <= t < size implies {
            &&& sits(#[trigger] next(t), z.s, z.h, t)
            &&& next(t).at == r + 1
            &&& next(t).open == seq![q]
            &&& calm(z, next(t), t)
            &&& next(t).mem == next(0).mem
            &&& (next(t).vars)(z.v(5)) == Slot::<N>::Int(d)
            &&& (next(t).vars)(z.v(4)) == Slot::<N>::Int(z.h.size / 2)
        } by {
            assert(regrouped(z, op, t, a(t), m(t), q, r, d));
        }
        assert forall|j: int| 0 <= j < z.h.cols implies (next(0).mem)(
            Address::Param(z.h.input, #[trigger] z.h.place(j)),
        ) == Slot::Num((z.h.x)(j)) by {
            assert(after(Address::Param(z.h.input, z.h.place(j))) == (a(0).mem)(
                Address::Param(z.h.input, z.h.place(j)),
            ));
        }
    }
    assert forall|t: int, v: ValueId|
        0 <= t < size && v != z.v(5) && v != z.v(4) implies (#[trigger] (next(t).vars)(v)) == (a(
        t,
    ).vars)(v) by {
        assert(regrouped(z, op, t, a(t), m(t), q, r, d));
    }
}

/// Whether a number is a power of two.
pub open spec fn power(d: int) -> bool
    decreases d,
{
    d == 1 || (d > 1 && d % 2 == 0 && power(d / 2))
}

/// The row is divided by its sum.
#[verifier::opaque]
pub open spec fn inverse_laid<N>(z: Setting<N>) -> bool {
    let x = z.x();
    &&& z.p + x + 63 < z.k.ops.len()
    &&& z.defines(x + 61, 23)
    &&& z.means(23, Op::SharedLoad { mem: z.s.scratch, index: z.s.zero })
    &&& z.defines(x + 62, 24)
    &&& z.holds(24, Some(Op::Div { a: z.s.one_f, b: z.v(23) }))
    &&& z.op(x + 63) == Op::Barrier
}

/// The number one over another.
pub open spec fn inverted<N>(z: Setting<N>, sum: N) -> N {
    (z.c.over)((z.c.number)(ONE_BITS), sum)
}

/// What a thread has done when it knows the inverse of the sum of the row.
pub open spec fn inverse_known<N>(z: Setting<N>, t: int, l: Lane<N>, m: Lane<N>, sum: N) -> bool {
    &&& comes(z.c, z.w, z.k, t, l, m)
    &&& !m.stuck
    &&& m.at == z.p + z.x() + 63
    &&& m.open == Seq::<nat>::empty()
    &&& m.mem == l.mem
    &&& m.wrote == l.wrote
    &&& forall|a: Address| #[trigger]
        m.read.contains(a) ==> l.read.contains(a) || a == cell(z, 0)
    &&& (m.vars)(z.v(24)) == Slot::Num(inverted(z, sum))
    &&& forall|v: ValueId| v != z.v(24) && v != z.v(5) ==> (#[trigger] (m.vars)(v)) == (l.vars)(v)
}

pub open spec fn inverse_lane<N>(z: Setting<N>, t: int, l: Lane<N>, sum: N) -> Lane<N> {
    choose|m: Lane<N>| #[trigger] inverse_known(z, t, l, m, sum)
}

proof fn lemma_sum_scope<N>(z: Setting<N>)
    requires
        takes_sum(z),
    ensures
        scope_end(z.k.ops, z.p + z.x() + 48, z.k.ops.len(), 0) == z.p + z.x() + 60,
        reduces(z, z.p + z.x() + 47, 2, 19, 22),
{
    reveal(takes_sum);
    let q = z.p + z.x() + 47;
    let o = z.x() + 47;
    let k = z.k;
    assert(k.ops[(q + 3) as int] == z.op(o + 3));
    assert(k.ops[(q + 4) as int] == z.op(o + 4));
    assert(k.ops[(q + 5) as int] == z.op(o + 5));
    reveal_with_fuel(scope_end, 15);
}

proof fn lemma_greatest_scope<N>(z: Setting<N>)
    requires
        takes_greatest(z),
    ensures
        scope_end(z.k.ops, z.p + 14, z.k.ops.len(), 0) == z.p + 28,
        reduces(z, z.p + 13, 4, 6, 11),
{
    reveal(takes_greatest);
    let q = z.p + 13;
    let k = z.k;
    assert(k.ops[(q + 3) as int] == z.op(16));
    assert(k.ops[(q + 4) as int] == z.op(17));
    assert(k.ops[(q + 5) as int] == z.op(18));
    assert(k.ops[(q + 6) as int] == z.op(19));
    assert(k.ops[(q + 7) as int] == z.op(20));
    reveal_with_fuel(scope_end, 17);
}

proof fn lemma_inverse_known<N>(z: Setting<N>, t: int, l: Lane<N>, sum: N) -> (m: Lane<N>)
    requires
        z.numbers_fit(),
        grounded(z.k, z.s, z.b),
        takes_sum(z),
        inverse_laid(z),
        sits(l, z.s, z.h, t),
        l.at == z.p + z.x() + 55,
        l.open == seq![z.p + z.x() + 47],
        (l.vars)(z.v(5)) == Slot::<N>::Int(1),
        (l.mem)(cell(z, 0)) == Slot::Num(sum),
    ensures
        inverse_known(z, t, l, m, sum),
{
    let (c, w, k) = (z.c, z.w, z.k);
    lemma_sum_scope(z);
    let none = Seq::<nat>::empty();
    assert(seq![z.p + z.x() + 47] =~= none.push(z.p + z.x() + 47));
    let l1 = lemma_turn_exit(z, t, l, none, z.p + z.x() + 47, 2, 19, 22, 1);
    reveal(inverse_laid);
    assert(k.ops[l1.at as int] == z.op(z.x() + 61));
    let l2 = lemma_skip(
        z,
        t,
        l,
        l1,
        23,
        Op::SharedLoad { mem: z.s.scratch, index: z.s.zero },
    );
    assert(k.ops[l2.at as int] == z.op(z.x() + 62));
    lemma_comes_next(c, w, k, t, l, l2);
    let m = tread(c, w, k, t, l2);
    assert(seen(c, w, k, t, l2, z.s.zero) == known(Slot::<N>::Int(0))) by {
        reveal_with_fuel(got, 2);
    }
    assert(seen(c, w, k, t, l2, z.s.one_f) == known(Slot::Num((c.number)(ONE_BITS)))) by {
        reveal_with_fuel(got, 2);
    }
    let total = seen(c, w, k, t, l2, z.v(23));
    assert(total.slot == Slot::Num(sum) && total.from =~= set![cell(z, 0)]) by {
        reveal_with_fuel(got, 2);
    }
    m
}

/// The row after a softmax: the exponentials, over their sum.
pub open spec fn divided<N>(z: Setting<N>, less: N) -> spec_fn(int) -> N {
    let by = inverted(z, sum_of(z, less, 0, 1, z.h.cols as nat));
    |j: int| (z.c.times)(raised_by(z.c, z.h.x, less)(j), by)
}

/// Whether the exponentials are in memory.
pub open spec fn raised_in<N>(z: Setting<N>, mem: spec_fn(Address) -> Slot<N>, less: N) -> bool {
    forall|p: ParamId, j: int|
        z.writes(p) && 0 <= j < z.h.cols ==> #[trigger] mem(Address::Param(p, z.h.place(j)))
            == Slot::Num(raised_by(z.c, z.h.x, less)(j))
}

proof fn lemma_inverse_stage<N>(z: Setting<N>, lanes: spec_fn(int) -> Lane<N>, less: N) -> (b:
    spec_fn(int) -> Lane<N>)
    requires
        z.numbers_fit(),
        grounded(z.k, z.s, z.b),
        takes_sum(z),
        inverse_laid(z),
        scale_laid(z),
        paused(z, lanes, z.p + z.x() + 47, z.p + z.x() + 54, 1),
        (lanes(0).mem)(cell(z, 0)) == Slot::Num(sum_of(z, less, 0, 1, z.h.cols as nat)),
        raised_in(z, lanes(0).mem, less),
    ensures
        passes_by(z.c, z.w, z.k, z.h.size, lanes, b, 1),
        leaves_row(z, b, lanes(0).mem, divided(z, less)),
{
    let size = z.h.size;
    let sum = sum_of(z, less, 0, 1, z.h.cols as nat);
    let m = |t: int| inverse_lane(z, t, lanes(t), sum);
    assert forall|t: int| 0 <= t < size implies inverse_known(
        z,
        t,
        lanes(t),
        #[trigger] m(t),
        sum,
    ) by {
        let r = lemma_inverse_known(z, t, lanes(t), sum);
        assert(inverse_known(z, t, lanes(t), r, sum));
    }
    assert forall|t: int, a: Address|
        0 <= t < size && #[trigger] m(t).wrote.contains(a) implies mine(z, t, a) by {
        assert(inverse_known(z, t, lanes(t), m(t), sum));
        assert(calm(z, lanes(t), t));
    }
    let touch = |t: int, i: int| i == 0;
    assert forall|t: int, a: Address| 0 <= t < size && #[trigger] m(t).read.contains(a) implies mine(
        z,
        t,
        a,
    ) || (a matches Address::Param(p, _) && p == z.h.input) || (a matches Address::Shared(mem, i)
        && touch(t, i)) by {
        assert(inverse_known(z, t, lanes(t), m(t), sum));
        assert(calm(z, lanes(t), t));
    }
    lemma_clear(z, m, |t: int, i: int| false, touch);
    assert(gathers(z.c, z.w, z.k, size, lanes, m)) by {
        assert(inverse_known(z, 0, lanes(0), m(0), sum));
        assert(z.k.ops[m(0).at as int] == z.op(z.x() + 63));
        reveal(inverse_laid);
        assert forall|t: int| 0 <= t < size implies !(#[trigger] m(t)).stuck && m(t).at == m(0).at
            && m(t).open == m(0).open by {
            assert(inverse_known(z, t, lanes(t), m(t), sum));
        }
    }
    let next = behind(size, m);
    lemma_joined_same(z, lanes, m);
    assert(stands(z, next, z.p + z.x() + 64)) by {
        assert forall|t: int| 0 <= t < size implies {
            &&& sits(#[trigger] next(t), z.s, z.h, t)
            &&& next(t).at == z.p + z.x() + 64
            &&& next(t).open == Seq::<nat>::empty()
            &&& calm(z, next(t), t)
            &&& next(t).mem == next(0).mem
        } by {
            assert(inverse_known(z, t, lanes(t), m(t), sum));
        }
        assert forall|j: int| 0 <= j < z.h.cols implies (next(0).mem)(
            Address::Param(z.h.input, #[trigger] z.h.place(j)),
        ) == Slot::Num((z.h.x)(j)) by {
            assert(joined(size, m)(Address::Param(z.h.input, z.h.place(j))) == (lanes(0).mem)(
                Address::Param(z.h.input, z.h.place(j)),
            ));
        }
    }
    let y = raised_by(z.c, z.h.x, less);
    assert forall|p: ParamId, j: int| z.writes(p) && 0 <= j < z.h.cols implies #[trigger] (next(
        0,
    ).mem)(Address::Param(p, z.h.place(j))) == Slot::Num(y(j)) by {
        assert(joined(size, m)(Address::Param(p, z.h.place(j))) == (lanes(0).mem)(
            Address::Param(p, z.h.place(j)),
        ));
    }
    assert forall|t: int| 0 <= t < size implies ((#[trigger] next(t)).vars)(z.v(24)) == Slot::Num(
        inverted(z, sum),
    ) by {
        assert(inverse_known(z, t, lanes(t), m(t), sum));
    }
    let b = lemma_last_stage(z, next, y, inverted(z, sum));
    assert(passes_by(z.c, z.w, z.k, size, lanes, b, 1)) by {
        reveal_with_fuel(passes_by, 2);
    }
    assert(leaves_row(z, b, lanes(0).mem, divided(z, less))) by {
        let after = joined(size, b);
        assert forall|p: ParamId, i: int|
            !(z.writes(p) && z.h.place(0) <= i < z.h.place(z.h.cols)) implies #[trigger] after(
            Address::Param(p, i),
        ) == (lanes(0).mem)(Address::Param(p, i)) by {
            assert(after(Address::Param(p, i)) == (next(0).mem)(Address::Param(p, i)));
            assert(joined(size, m)(Address::Param(p, i)) == (lanes(0).mem)(Address::Param(p, i)));
        }
    }
    b
}

/// Threads that have written nothing since they had the same memory have it still.
proof fn lemma_joined_same<N>(
    z: Setting<N>,
    a: spec_fn(int) -> Lane<N>,
    m: spec_fn(int) -> Lane<N>,
)
    requires
        z.h.size > 0,
        clear(z.h.size, m),
        forall|t: int|
            0 <= t < z.h.size ==> (#[trigger] m(t)).mem == a(t).mem && a(t).mem == a(0).mem,
    ensures
        forall|x: Address| #[trigger] joined(z.h.size, m)(x) == (a(0).mem)(x),
{
    let size = z.h.size;
    assert forall|x: Address| #[trigger] joined(size, m)(x) == (a(0).mem)(x) by {
        if exists|t: int| 0 <= t < size && #[trigger] m(t).wrote.contains(x) {
            let t = choose|t: int| 0 <= t < size && #[trigger] m(t).wrote.contains(x);
            lemma_joined_written(size, m, t, x);
            assert(m(t).mem == a(t).mem);
        } else {
            lemma_joined_kept(size, m, x);
            assert(m(0).mem == a(0).mem);
        }
    }
}

pub open spec fn regrouped_lane<N>(
    z: Setting<N>,
    op: spec_fn(N, N) -> N,
    t: int,
    l: Lane<N>,
    q: nat,
    r: nat,
    d: int,
) -> Lane<N> {
    choose|m: Lane<N>| #[trigger] regrouped(z, op, t, l, m, q, r, d)
}

/// A thread halves the distance and takes one more turn of the sum.
proof fn lemma_sum_again<N>(z: Setting<N>, t: int, l: Lane<N>, d: int) -> (m: Lane<N>)
    requires
        z.numbers_fit(),
        grounded(z.k, z.s, z.b),
        takes_sum(z),
        sits(l, z.s, z.h, t),
        0 <= t < z.h.size,
        l.at == z.p + z.x() + 55,
        l.open == seq![z.p + z.x() + 47],
        (l.vars)(z.v(5)) == Slot::<N>::Int(d),
        (l.vars)(z.v(4)) == Slot::<N>::Int(z.h.size / 2),
        1 < d,
        d % 2 == 0,
        d <= z.h.size,
        forall|i: int| 0 <= i < d ==> (l.mem)(#[trigger] cell(z, i)) is Num,
    ensures
        regrouped(
            z,
            z.c.plus,
            t,
            l,
            m,
            z.p + z.x() + 47,
            z.p + z.x() + 54,
            d / 2,
        ),
{
    let q = z.p + z.x() + 47;
    lemma_sum_scope(z);
    let none = Seq::<nat>::empty();
    assert(seq![q] =~= none.push(q));
    let l1 = lemma_turn_exit(z, t, l, none, q, 2, 19, 22, d);
    if t < d / 2 {
        assert((l.mem)(cell(z, t)) is Num);
        assert((l.mem)(cell(z, t + d / 2)) is Num);
    }
    let m = lemma_sum_turn(z, t, l1, d / 2);
    lemma_comes_on(z.c, z.w, z.k, t, l, l1, m);
    m
}

proof fn lemma_greatest_again<N>(z: Setting<N>, t: int, l: Lane<N>, d: int) -> (m: Lane<N>)
    requires
        z.numbers_fit(),
        grounded(z.k, z.s, z.b),
        takes_greatest(z),
        sits(l, z.s, z.h, t),
        0 <= t < z.h.size,
        l.at == z.p + 23,
        l.open == seq![z.p + 13],
        (l.vars)(z.v(5)) == Slot::<N>::Int(d),
        (l.vars)(z.v(4)) == Slot::<N>::Int(z.h.size / 2),
        1 < d,
        d % 2 == 0,
        d <= z.h.size,
    ensures
        regrouped(z, z.c.greatest, t, l, m, z.p + 13, z.p + 22, d / 2),
{
    let q = z.p + 13;
    lemma_greatest_scope(z);
    let none = Seq::<nat>::empty();
    assert(seq![q] =~= none.push(q));
    let l1 = lemma_turn_exit(z, t, l, none, q, 4, 6, 11, d);
    let m = lemma_greatest_turn(z, t, l1, d / 2);
    lemma_comes_on(z.c, z.w, z.k, t, l, l1, m);
    m
}

/// Whether it is of no account in which order numbers are added, nor in which order the greatest is
/// found, and the constants that both begin with add nothing.
pub open spec fn orderless<N>(c: Calculus<N>) -> bool {
    &&& gathered(c.plus, (c.number)(ZERO_BITS))
    &&& gathered(c.greatest, (c.number)(MIN_BITS))
}

/// The sum of the row is brought together, and the row divided by it.
proof fn lemma_sum_down<N>(
    z: Setting<N>,
    lanes: spec_fn(int) -> Lane<N>,
    d: int,
    less: N,
) -> (r: (spec_fn(int) -> Lane<N>, nat))
    requires
        z.numbers_fit(),
        grounded(z.k, z.s, z.b),
        takes_sum(z),
        inverse_laid(z),
        scale_laid(z),
        orderless(z.c),
        power(d),
        2 * d <= z.h.size,
        paused(z, lanes, z.p + z.x() + 47, z.p + z.x() + 54, d),
        heaped(
            z,
            lanes(0).mem,
            z.c.plus,
            (z.c.number)(ZERO_BITS),
            raised_by(z.c, z.h.x, less),
            d,
        ),
        raised_in(z, lanes(0).mem, less),
    ensures
        passes_by(z.c, z.w, z.k, z.h.size, lanes, r.0, r.1),
        leaves_row(z, r.0, lanes(0).mem, divided(z, less)),
    decreases d,
{
    let size = z.h.size;
    let y = raised_by(z.c, z.h.x, less);
    let (q, r) = (z.p + z.x() + 47, z.p + z.x() + 54);
    if d == 1 {
        assert((lanes(0).mem)(cell(z, 0)) == Slot::Num(sum_of(z, less, 0, 1, z.h.cols as nat)));
        let b = lemma_inverse_stage(z, lanes, less);
        (b, 1)
    } else {
        let half = d / 2;
        let m = |t: int| regrouped_lane(z, z.c.plus, t, lanes(t), q, r, half);
        assert forall|t: int| 0 <= t < size implies regrouped(
            z,
            z.c.plus,
            t,
            lanes(t),
            #[trigger] m(t),
            q,
            r,
            half,
        ) by {
            let n = lemma_sum_again(z, t, lanes(t), d);
            assert(regrouped(z, z.c.plus, t, lanes(t), n, q, r, half));
        }
        lemma_sum_scope(z);
        lemma_regroup(z, z.c.plus, (z.c.number)(ZERO_BITS), y, lanes, m, q, r, half);
        let next = behind(size, m);
        assert(raised_in(z, next(0).mem, less));
        let (b, n) = lemma_sum_down(z, next, half, less);
        lemma_one_more(z, lanes, m, b, n);
        lemma_row_on(z, b, lanes(0).mem, next(0).mem, divided(z, less));
        (b, n + 1)
    }
}

proof fn lemma_one_more<N>(
    z: Setting<N>,
    a: spec_fn(int) -> Lane<N>,
    m: spec_fn(int) -> Lane<N>,
    b: spec_fn(int) -> Lane<N>,
    n: nat,
)
    requires
        gathers(z.c, z.w, z.k, z.h.size, a, m),
        passes_by(z.c, z.w, z.k, z.h.size, behind(z.h.size, m), b, n),
    ensures
        passes_by(z.c, z.w, z.k, z.h.size, a, b, n + 1),
{
    assert(((n + 1) - 1) as nat == n);
}

proof fn lemma_row_on<N>(
    z: Setting<N>,
    b: spec_fn(int) -> Lane<N>,
    mem: spec_fn(Address) -> Slot<N>,
    next: spec_fn(Address) -> Slot<N>,
    y: spec_fn(int) -> N,
)
    requires
        leaves_row(z, b, next, y),
        forall|p: ParamId, i: int|
            !(z.writes(p) && z.h.place(0) <= i < z.h.place(z.h.cols)) ==> #[trigger] next(
                Address::Param(p, i),
            ) == mem(Address::Param(p, i)),
    ensures
        leaves_row(z, b, mem, y),
{
    let after = joined(z.h.size, b);
    assert forall|p: ParamId, i: int|
        !(z.writes(p) && z.h.place(0) <= i < z.h.place(z.h.cols)) implies #[trigger] after(
        Address::Param(p, i),
    ) == mem(Address::Param(p, i)) by {
        assert(after(Address::Param(p, i)) == next(Address::Param(p, i)));
    }
}

/// Before the sum is brought together, the distance is set again.
#[verifier::opaque]
pub open spec fn sum_set<N>(z: Setting<N>) -> bool {
    &&& z.op(z.x() + 46) == (Op::OverwriteVar {
        id: z.v(5),
        val: Box::new(Op::CopyVar { id: z.v(4) }),
    })
    &&& z.holds(4, Some(Op::Shr { a: z.s.size, b: z.s.one }))
}

proof fn lemma_sum_first<N>(z: Setting<N>, t: int, l: Lane<N>) -> (m: Lane<N>)
    requires
        z.numbers_fit(),
        grounded(z.k, z.s, z.b),
        takes_sum(z),
        sum_set(z),
        sits(l, z.s, z.h, t),
        0 <= t < z.h.size,
        z.h.size % 2 == 0,
        l.at == z.p + z.x() + 46,
        l.open == Seq::<nat>::empty(),
        (l.vars)(z.v(4)) == Slot::<N>::Int(z.h.size / 2),
        forall|i: int| 0 <= i < z.h.size ==> (l.mem)(#[trigger] cell(z, i)) is Num,
    ensures
        regrouped(
            z,
            z.c.plus,
            t,
            l,
            m,
            z.p + z.x() + 47,
            z.p + z.x() + 54,
            z.h.size / 2,
        ),
{
    let (c, w, k) = (z.c, z.w, z.k);
    let d = z.h.size / 2;
    reveal(sum_set);
    lemma_comes_none(c, w, k, t, l);
    lemma_comes_next(c, w, k, t, l, l);
    let l1 = tread(c, w, k, t, l);
    assert(k.ops[l.at as int] == z.op(z.x() + 46));
    assert(seen(c, w, k, t, l, z.v(4)) == known(Slot::<N>::Int(d)));
    assert((l1.vars)(z.v(5)) == Slot::<N>::Int(d) && l1.read =~= l.read);
    if t < d {
        assert((l.mem)(cell(z, t)) is Num);
        assert((l.mem)(cell(z, t + d)) is Num);
    }
    let m = lemma_sum_turn(z, t, l1, d);
    lemma_comes_on(c, w, k, t, l, l1, m);
    assert(m.open =~= seq![z.p + z.x() + 47]);
    m
}

/// The sum of the row, from the barrier at which the threads have stored theirs.
proof fn lemma_sum_stage<N>(z: Setting<N>, lanes: spec_fn(int) -> Lane<N>, less: N) -> (r: (
    spec_fn(int) -> Lane<N>,
    nat,
))
    requires
        z.numbers_fit(),
        grounded(z.k, z.s, z.b),
        takes_sum(z),
        sum_set(z),
        inverse_laid(z),
        scale_laid(z),
        orderless(z.c),
        power(z.h.size),
        z.h.size >= 2,
        stands(z, lanes, z.p + z.x() + 46),
        forall|t: int|
            0 <= t < z.h.size ==> ((#[trigger] lanes(t)).vars)(z.v(4)) == Slot::<N>::Int(
                z.h.size / 2,
            ),
        heaped(
            z,
            lanes(0).mem,
            z.c.plus,
            (z.c.number)(ZERO_BITS),
            raised_by(z.c, z.h.x, less),
            z.h.size,
        ),
        raised_in(z, lanes(0).mem, less),
    ensures
        passes_by(z.c, z.w, z.k, z.h.size, lanes, r.0, r.1),
        leaves_row(z, r.0, lanes(0).mem, divided(z, less)),
{
    let size = z.h.size;
    let d = size / 2;
    let y = raised_by(z.c, z.h.x, less);
    let (q, r) = (z.p + z.x() + 47, z.p + z.x() + 54);
    let m = |t: int| regrouped_lane(z, z.c.plus, t, lanes(t), q, r, d);
    assert forall|t: int| 0 <= t < size implies regrouped(
        z,
        z.c.plus,
        t,
        lanes(t),
        #[trigger] m(t),
        q,
        r,
        d,
    ) by {
        let n = lemma_sum_first(z, t, lanes(t));
        assert(regrouped(z, z.c.plus, t, lanes(t), n, q, r, d));
    }
    lemma_sum_scope(z);
    lemma_regroup(z, z.c.plus, (z.c.number)(ZERO_BITS), y, lanes, m, q, r, d);
    let next = behind(size, m);
    assert(raised_in(z, next(0).mem, less));
    let (b, n) = lemma_sum_down(z, next, d, less);
    lemma_one_more(z, lanes, m, b, n);
    lemma_row_on(z, b, lanes(0).mem, next(0).mem, divided(z, less));
    (b, n + 1)
}

/// Whether the whole code of a softmax is where it should be.
pub open spec fn laid<N>(z: Setting<N>) -> bool {
    &&& grounded(z.k, z.s, z.b)
    &&& z.max_laid()
    &&& takes_greatest(z)
    &&& best_laid(z)
    &&& exp_laid(z)
    &&& sum_set(z)
    &&& takes_sum(z)
    &&& inverse_laid(z)
    &&& scale_laid(z)
}

/// Whether a softmax can run: its code is there, the block has as many threads as a power of two,
/// two at least, and it is of no account in which order numbers are brought together.
pub open spec fn ready<N>(z: Setting<N>) -> bool {
    &&& z.numbers_fit()
    &&& laid(z)
    &&& orderless(z.c)
    &&& power(z.h.size)
    &&& z.h.size >= 2
}

pub open spec fn exp_lane<N>(z: Setting<N>, t: int, l: Lane<N>, less: N) -> Lane<N> {
    choose|m: Lane<N>| #[trigger] exp_stored(z, t, l, m, less)
}

/// The exponentials are stored, and the row is divided by their sum.
#[verifier::spinoff_prover]
#[verifier::rlimit(60)]
proof fn lemma_exp_stage<N>(z: Setting<N>, lanes: spec_fn(int) -> Lane<N>, less: N) -> (r: (
    spec_fn(int) -> Lane<N>,
    nat,
))
    requires
        ready(z),
        stands(z, lanes, z.p + 31),
        forall|t: int|
            0 <= t < z.h.size ==> ((#[trigger] lanes(t)).vars)(z.v(4)) == Slot::<N>::Int(
                z.h.size / 2,
            ) && (lanes(t).vars)(z.v(12)) == Slot::Num(less),
    ensures
        passes_by(z.c, z.w, z.k, z.h.size, lanes, r.0, r.1),
        leaves_row(z, r.0, lanes(0).mem, divided(z, less)),
{
    let size = z.h.size;
    let m = |t: int| exp_lane(z, t, lanes(t), less);
    assert forall|t: int| 0 <= t < size implies exp_stored(
        z,
        t,
        lanes(t),
        #[trigger] m(t),
        less,
    ) by {
        let n = lemma_exp_stored(z, t, lanes(t), less);
        assert(exp_stored(z, t, lanes(t), n, less));
    }
    let fill = |t: int, i: int| i == t;
    assert forall|t: int, a: Address|
        0 <= t < size && #[trigger] m(t).wrote.contains(a) implies mine(z, t, a) || (
    a matches Address::Shared(mem, i) && fill(t, i)) by {
        assert(exp_stored(z, t, lanes(t), m(t), less));
        assert(calm(z, lanes(t), t));
    }
    assert forall|t: int, a: Address| 0 <= t < size && #[trigger] m(t).read.contains(a) implies mine(
        z,
        t,
        a,
    ) || (a matches Address::Param(p, _) && p == z.h.input) by {
        assert(exp_stored(z, t, lanes(t), m(t), less));
        assert(calm(z, lanes(t), t));
    }
    lemma_clear(z, m, fill, |t: int, i: int| false);
    assert(gathers(z.c, z.w, z.k, size, lanes, m)) by {
        assert(exp_stored(z, 0, lanes(0), m(0), less));
        assert(z.k.ops[m(0).at as int] == z.op(z.x() + 45));
        reveal(exp_laid);
        assert forall|t: int| 0 <= t < size implies !(#[trigger] m(t)).stuck && m(t).at == m(0).at
            && m(t).open == m(0).open by {
            assert(exp_stored(z, t, lanes(t), m(t), less));
        }
    }
    let next = behind(size, m);
    let after = joined(size, m);
    let y = raised_by(z.c, z.h.x, less);
    assert(heaped(z, after, z.c.plus, (z.c.number)(ZERO_BITS), y, size)) by {
        assert forall|i: int| 0 <= i < size implies after(#[trigger] cell(z, i)) == Slot::Num(
            strided(z.c.plus, (z.c.number)(ZERO_BITS), y, i, size, z.h.cols as nat),
        ) by {
            assert(exp_stored(z, i, lanes(i), m(i), less));
            lemma_joined_written(size, m, i, cell(z, i));
        }
    }
    assert(raised_in(z, after, less)) by {
        assert forall|p: ParamId, j: int| z.writes(p) && 0 <= j < z.h.cols implies #[trigger] after(
            Address::Param(p, z.h.place(j)),
        ) == Slot::Num(y(j)) by {
            let t = j % size;
            vstd::arithmetic::div_mod::lemma_mod_bound(j, size);
            assert(exp_stored(z, t, lanes(t), m(t), less));
            assert(m(t).wrote.contains(Address::Param(p, z.h.place(j))));
            lemma_joined_written(size, m, t, Address::Param(p, z.h.place(j)));
        }
    }
    assert forall|p: ParamId, i: int|
        !(z.writes(p) && z.h.place(0) <= i < z.h.place(z.h.cols)) implies #[trigger] after(
        Address::Param(p, i),
    ) == (lanes(0).mem)(Address::Param(p, i)) by {
        let a = Address::Param(p, i);
        assert forall|t: int| 0 <= t < size implies !(#[trigger] m(t).wrote.contains(a)) by {
            if m(t).wrote.contains(a) {
                assert(mine(z, t, a));
            }
        }
        lemma_joined_kept(size, m, a);
        assert(exp_stored(z, 0, lanes(0), m(0), less));
        assert(!mine(z, 0, a));
    }
    assert(stands(z, next, z.p + z.x() + 46)) by {
        assert forall|t: int| 0 <= t < size implies {
            &&& sits(#[trigger] next(t), z.s, z.h, t)
            &&& next(t).at == z.p + z.x() + 46
            &&& next(t).open == Seq::<nat>::empty()
            &&& calm(z, next(t), t)
            &&& next(t).mem == next(0).mem
        } by {
            assert(exp_stored(z, t, lanes(t), m(t), less));
        }
        assert forall|j: int| 0 <= j < z.h.cols implies (next(0).mem)(
            Address::Param(z.h.input, #[trigger] z.h.place(j)),
        ) == Slot::Num((z.h.x)(j)) by {
            assert(after(Address::Param(z.h.input, z.h.place(j))) == (lanes(0).mem)(
                Address::Param(z.h.input, z.h.place(j)),
            ));
        }
    }
    assert forall|t: int| 0 <= t < size implies ((#[trigger] next(t)).vars)(z.v(4)) == Slot::<
        N,
    >::Int(size / 2) by {
        assert(exp_stored(z, t, lanes(t), m(t), less));
    }
    let (b, n) = lemma_sum_stage(z, next, less);
    lemma_one_more(z, lanes, m, b, n);
    lemma_row_on(z, b, lanes(0).mem, next(0).mem, divided(z, less));
    (b, n + 1)
}

/// The greatest of the row is read.
#[verifier::opaque]
pub open spec fn best_laid<N>(z: Setting<N>) -> bool {
    &&& z.p + 30 < z.k.ops.len()
    &&& z.defines(29, 12)
    &&& z.holds(12, Some(Op::SharedLoad { mem: z.s.scratch, index: z.s.zero }))
    &&& z.op(30) == Op::Barrier
    &&& z.defines(11, 4)
    &&& z.holds(4, Some(Op::Shr { a: z.s.size, b: z.s.one }))
    &&& z.defines(12, 5)
    &&& z.holds(5, Some(Op::CopyVar { id: z.v(4) }))
}

/// What a thread has done when it knows the greatest of the row.
pub open spec fn best_known<N>(z: Setting<N>, t: int, l: Lane<N>, m: Lane<N>, best: N) -> bool {
    &&& comes(z.c, z.w, z.k, t, l, m)
    &&& !m.stuck
    &&& m.at == z.p + 30
    &&& m.open == Seq::<nat>::empty()
    &&& m.mem == l.mem
    &&& m.wrote == l.wrote
    &&& forall|a: Address| #[trigger]
        m.read.contains(a) ==> l.read.contains(a) || a == cell(z, 0)
    &&& (m.vars)(z.v(12)) == Slot::Num(best)
    &&& forall|v: ValueId| v != z.v(12) && v != z.v(5) ==> (#[trigger] (m.vars)(v)) == (l.vars)(v)
}

pub open spec fn best_lane<N>(z: Setting<N>, t: int, l: Lane<N>, best: N) -> Lane<N> {
    choose|m: Lane<N>| #[trigger] best_known(z, t, l, m, best)
}

proof fn lemma_best_known<N>(z: Setting<N>, t: int, l: Lane<N>, best: N) -> (m: Lane<N>)
    requires
        z.numbers_fit(),
        grounded(z.k, z.s, z.b),
        takes_greatest(z),
        best_laid(z),
        sits(l, z.s, z.h, t),
        l.at == z.p + 23,
        l.open == seq![z.p + 13],
        (l.vars)(z.v(5)) == Slot::<N>::Int(1),
        (l.mem)(cell(z, 0)) == Slot::Num(best),
    ensures
        best_known(z, t, l, m, best),
{
    let (c, w, k) = (z.c, z.w, z.k);
    lemma_greatest_scope(z);
    let none = Seq::<nat>::empty();
    assert(seq![z.p + 13] =~= none.push(z.p + 13));
    let l1 = lemma_turn_exit(z, t, l, none, z.p + 13, 4, 6, 11, 1);
    reveal(best_laid);
    assert(k.ops[l1.at as int] == z.op(29));
    lemma_comes_next(c, w, k, t, l, l1);
    let m = tread(c, w, k, t, l1);
    assert(seen(c, w, k, t, l1, z.s.zero) == known(Slot::<N>::Int(0))) by {
        reveal_with_fuel(got, 2);
    }
    let g = got(
        c,
        w,
        k,
        t,
        l1,
        Op::SharedLoad { mem: z.s.scratch, index: z.s.zero },
        z.v(12) as nat,
    );
    assert(g.slot == Slot::Num(best) && g.from =~= set![cell(z, 0)]);
    m
}

proof fn lemma_best_stage<N>(z: Setting<N>, lanes: spec_fn(int) -> Lane<N>) -> (r: (
    spec_fn(int) -> Lane<N>,
    nat,
))
    requires
        ready(z),
        paused(z, lanes, z.p + 13, z.p + 22, 1),
        (lanes(0).mem)(cell(z, 0)) == Slot::Num(best_of(z, 0, 1)),
    ensures
        passes_by(z.c, z.w, z.k, z.h.size, lanes, r.0, r.1),
        leaves_row(z, r.0, lanes(0).mem, divided(z, best_of(z, 0, 1))),
{
    let size = z.h.size;
    let best = best_of(z, 0, 1);
    let m = |t: int| best_lane(z, t, lanes(t), best);
    assert forall|t: int| 0 <= t < size implies best_known(
        z,
        t,
        lanes(t),
        #[trigger] m(t),
        best,
    ) by {
        let n = lemma_best_known(z, t, lanes(t), best);
        assert(best_known(z, t, lanes(t), n, best));
    }
    assert forall|t: int, a: Address|
        0 <= t < size && #[trigger] m(t).wrote.contains(a) implies mine(z, t, a) by {
        assert(best_known(z, t, lanes(t), m(t), best));
        assert(calm(z, lanes(t), t));
    }
    let touch = |t: int, i: int| i == 0;
    assert forall|t: int, a: Address| 0 <= t < size && #[trigger] m(t).read.contains(a) implies mine(
        z,
        t,
        a,
    ) || (a matches Address::Param(p, _) && p == z.h.input) || (a matches Address::Shared(mem, i)
        && touch(t, i)) by {
        assert(best_known(z, t, lanes(t), m(t), best));
        assert(calm(z, lanes(t), t));
    }
    lemma_clear(z, m, |t: int, i: int| false, touch);
    assert(gathers(z.c, z.w, z.k, size, lanes, m)) by {
        assert(best_known(z, 0, lanes(0), m(0), best));
        assert(z.k.ops[m(0).at as int] == z.op(30));
        reveal(best_laid);
        assert forall|t: int| 0 <= t < size implies !(#[trigger] m(t)).stuck && m(t).at == m(0).at
            && m(t).open == m(0).open by {
            assert(best_known(z, t, lanes(t), m(t), best));
        }
    }
    let next = behind(size, m);
    lemma_joined_same(z, lanes, m);
    assert(stands(z, next, z.p + 31)) by {
        assert forall|t: int| 0 <= t < size implies {
            &&& sits(#[trigger] next(t), z.s, z.h, t)
            &&& next(t).at == z.p + 31
            &&& next(t).open == Seq::<nat>::empty()
            &&& calm(z, next(t), t)
            &&& next(t).mem == next(0).mem
        } by {
            assert(best_known(z, t, lanes(t), m(t), best));
        }
        assert forall|j: int| 0 <= j < z.h.cols implies (next(0).mem)(
            Address::Param(z.h.input, #[trigger] z.h.place(j)),
        ) == Slot::Num((z.h.x)(j)) by {
            assert(joined(size, m)(Address::Param(z.h.input, z.h.place(j))) == (lanes(0).mem)(
                Address::Param(z.h.input, z.h.place(j)),
            ));
        }
    }
    assert forall|t: int| 0 <= t < size implies ((#[trigger] next(t)).vars)(z.v(4)) == Slot::<
        N,
    >::Int(size / 2) && (next(t).vars)(z.v(12)) == Slot::Num(best) by {
        assert(best_known(z, t, lanes(t), m(t), best));
    }
    let (b, n) = lemma_exp_stage(z, next, best);
    lemma_one_more(z, lanes, m, b, n);
    assert forall|p: ParamId, i: int| #[trigger] (next(0).mem)(Address::Param(p, i)) == (lanes(
        0,
    ).mem)(Address::Param(p, i)) by {
        assert(joined(size, m)(Address::Param(p, i)) == (lanes(0).mem)(Address::Param(p, i)));
    }
    lemma_row_on(z, b, lanes(0).mem, next(0).mem, divided(z, best));
    (b, n + 1)
}

/// The greatest of the row is brought together, and the rest follows.
proof fn lemma_greatest_down<N>(z: Setting<N>, lanes: spec_fn(int) -> Lane<N>, d: int) -> (r: (
    spec_fn(int) -> Lane<N>,
    nat,
))
    requires
        ready(z),
        power(d),
        2 * d <= z.h.size,
        paused(z, lanes, z.p + 13, z.p + 22, d),
        heaped(z, lanes(0).mem, z.c.greatest, (z.c.number)(MIN_BITS), z.h.x, d),
    ensures
        passes_by(z.c, z.w, z.k, z.h.size, lanes, r.0, r.1),
        leaves_row(z, r.0, lanes(0).mem, divided(z, best_of(z, 0, 1))),
    decreases d,
{
    let size = z.h.size;
    let (q, r) = (z.p + 13, z.p + 22);
    if d == 1 {
        assert((lanes(0).mem)(cell(z, 0)) == Slot::Num(best_of(z, 0, 1)));
        lemma_best_stage(z, lanes)
    } else {
        let half = d / 2;
        let m = |t: int| regrouped_lane(z, z.c.greatest, t, lanes(t), q, r, half);
        assert forall|t: int| 0 <= t < size implies regrouped(
            z,
            z.c.greatest,
            t,
            lanes(t),
            #[trigger] m(t),
            q,
            r,
            half,
        ) by {
            let n = lemma_greatest_again(z, t, lanes(t), d);
            assert(regrouped(z, z.c.greatest, t, lanes(t), n, q, r, half));
        }
        lemma_greatest_scope(z);
        lemma_regroup(z, z.c.greatest, (z.c.number)(MIN_BITS), z.h.x, lanes, m, q, r, half);
        let next = behind(size, m);
        let (b, n) = lemma_greatest_down(z, next, half);
        lemma_one_more(z, lanes, m, b, n);
        lemma_row_on(z, b, lanes(0).mem, next(0).mem, divided(z, best_of(z, 0, 1)));
        (b, n + 1)
    }
}

proof fn lemma_greatest_first<N>(z: Setting<N>, t: int, l: Lane<N>) -> (m: Lane<N>)
    requires
        z.numbers_fit(),
        grounded(z.k, z.s, z.b),
        takes_greatest(z),
        best_laid(z),
        sits(l, z.s, z.h, t),
        0 <= t < z.h.size,
        z.h.size % 2 == 0,
        l.at == z.p + 11,
        l.open == Seq::<nat>::empty(),
    ensures
        regrouped(z, z.c.greatest, t, l, m, z.p + 13, z.p + 22, z.h.size / 2),
{
    let (c, w, k) = (z.c, z.w, z.k);
    let d = z.h.size / 2;
    reveal(best_laid);
    lemma_comes_none(c, w, k, t, l);
    lemma_comes_next(c, w, k, t, l, l);
    let l1 = tread(c, w, k, t, l);
    assert(k.ops[l.at as int] == z.op(11));
    let g = got(c, w, k, t, l, Op::Shr { a: z.s.size, b: z.s.one }, z.v(4) as nat);
    assert(g.slot == Slot::<N>::Int(d) && g.from =~= Set::empty()) by {
        assert(seen(c, w, k, t, l, z.s.size) == known(Slot::<N>::Int(z.h.size))) by {
            reveal_with_fuel(got, 2);
        }
        assert(seen(c, w, k, t, l, z.s.one) == known(Slot::<N>::Int(1))) by {
            reveal_with_fuel(got, 2);
        }
        vstd::arithmetic::power2::lemma2_to64();
    }
    assert((l1.vars)(z.v(4)) == Slot::<N>::Int(d) && l1.read =~= l.read);
    lemma_comes_next(c, w, k, t, l, l1);
    let l2 = tread(c, w, k, t, l1);
    assert(k.ops[l1.at as int] == z.op(12));
    assert(seen(c, w, k, t, l1, z.v(4)) == known(Slot::<N>::Int(d)));
    assert((l2.vars)(z.v(5)) == Slot::<N>::Int(d) && l2.read =~= l.read);
    let m = lemma_greatest_turn(z, t, l2, d);
    lemma_comes_on(c, w, k, t, l, l2, m);
    assert(m.open =~= seq![z.p + 13]);
    m
}

pub open spec fn max_lane<N>(z: Setting<N>, t: int, l: Lane<N>) -> Lane<N> {
    choose|m: Lane<N>| #[trigger] max_stored(z, t, l, m)
}

/// The whole softmax: from its first operation to its last.
#[verifier::spinoff_prover]
#[verifier::rlimit(60)]
pub proof fn lemma_first_stage<N>(z: Setting<N>, lanes: spec_fn(int) -> Lane<N>) -> (r: (
    spec_fn(int) -> Lane<N>,
    nat,
))
    requires
        ready(z),
        stands(z, lanes, z.p),
        forall|t: int|
            0 <= t < z.h.size ==> ((#[trigger] lanes(t)).vars)(z.s.col) == Slot::<N>::Int(t),
    ensures
        passes_by(z.c, z.w, z.k, z.h.size, lanes, r.0, r.1),
        leaves_row(z, r.0, lanes(0).mem, divided(z, best_of(z, 0, 1))),
{
    let size = z.h.size;
    let a = |t: int| max_lane(z, t, lanes(t));
    assert forall|t: int| 0 <= t < size implies max_stored(z, t, lanes(t), #[trigger] a(t)) by {
        let n = lemma_max_stored(z, t, lanes(t));
        assert(max_stored(z, t, lanes(t), n));
    }
    let fill = |t: int, i: int| i == t;
    assert forall|t: int, x: Address|
        0 <= t < size && #[trigger] a(t).wrote.contains(x) implies mine(z, t, x) || (
    x matches Address::Shared(mem, i) && fill(t, i)) by {
        assert(max_stored(z, t, lanes(t), a(t)));
        assert(calm(z, lanes(t), t));
    }
    assert forall|t: int, x: Address| 0 <= t < size && #[trigger] a(t).read.contains(x) implies mine(
        z,
        t,
        x,
    ) || (x matches Address::Param(p, _) && p == z.h.input) by {
        assert(max_stored(z, t, lanes(t), a(t)));
        assert(calm(z, lanes(t), t));
    }
    lemma_clear(z, a, fill, |t: int, i: int| false);
    assert(gathers(z.c, z.w, z.k, size, lanes, a)) by {
        assert(max_stored(z, 0, lanes(0), a(0)));
        assert(z.k.ops[a(0).at as int] == z.op(10));
        reveal(Setting::max_laid);
        assert forall|t: int| 0 <= t < size implies !(#[trigger] a(t)).stuck && a(t).at == a(0).at
            && a(t).open == a(0).open by {
            assert(max_stored(z, t, lanes(t), a(t)));
        }
    }
    let next = behind(size, a);
    let after = joined(size, a);
    assert forall|p: ParamId, i: int| #[trigger] after(Address::Param(p, i)) == (lanes(0).mem)(
        Address::Param(p, i),
    ) by {
        let x = Address::Param(p, i);
        if exists|t: int| 0 <= t < size && #[trigger] a(t).wrote.contains(x) {
            let t = choose|t: int| 0 <= t < size && #[trigger] a(t).wrote.contains(x);
            lemma_joined_written(size, a, t, x);
            assert(max_stored(z, t, lanes(t), a(t)));
            assert((a(t).mem)(x) == (lanes(t).mem)(x));
        } else {
            lemma_joined_kept(size, a, x);
            assert(max_stored(z, 0, lanes(0), a(0)));
            assert((a(0).mem)(x) == (lanes(0).mem)(x));
        }
    }
    assert(heaped(z, after, z.c.greatest, (z.c.number)(MIN_BITS), z.h.x, size)) by {
        assert forall|i: int| 0 <= i < size implies after(#[trigger] cell(z, i)) == Slot::Num(
            strided(z.c.greatest, (z.c.number)(MIN_BITS), z.h.x, i, size, z.h.cols as nat),
        ) by {
            assert(max_stored(z, i, lanes(i), a(i)));
            assert(a(i).wrote.contains(cell(z, i)));
            lemma_joined_written(size, a, i, cell(z, i));
        }
    }
    assert(provides(next(0), z.h)) by {
        assert forall|j: int| 0 <= j < z.h.cols implies (next(0).mem)(
            Address::Param(z.h.input, #[trigger] z.h.place(j)),
        ) == Slot::Num((z.h.x)(j)) by {
            assert(after(Address::Param(z.h.input, z.h.place(j))) == (lanes(0).mem)(
                Address::Param(z.h.input, z.h.place(j)),
            ));
        }
    }
    let d = size / 2;
    let (q, r) = (z.p + 13, z.p + 22);
    let m = |t: int| regrouped_lane(z, z.c.greatest, t, next(t), q, r, d);
    assert forall|t: int| 0 <= t < size implies regrouped(
        z,
        z.c.greatest,
        t,
        next(t),
        #[trigger] m(t),
        q,
        r,
        d,
    ) && sits(next(t), z.s, z.h, t) && calm(z, next(t), t) && next(t).mem == next(0).mem by {
        assert(max_stored(z, t, lanes(t), a(t)));
        let n = lemma_greatest_first(z, t, next(t));
        assert(regrouped(z, z.c.greatest, t, next(t), n, q, r, d));
    }
    lemma_greatest_scope(z);
    lemma_regroup(z, z.c.greatest, (z.c.number)(MIN_BITS), z.h.x, next, m, q, r, d);
    let last = behind(size, m);
    let (b, n) = lemma_greatest_down(z, last, d);
    lemma_one_more(z, next, m, b, n);
    lemma_one_more(z, lanes, a, b, n + 1);
    lemma_row_on(z, b, next(0).mem, last(0).mem, divided(z, best_of(z, 0, 1)));
    lemma_row_on(z, b, lanes(0).mem, next(0).mem, divided(z, best_of(z, 0, 1)));
    (b, n + 2)
}

} // verus!
