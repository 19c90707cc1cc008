//! What the threads of a block compute together.
//!
//! All the threads of a block run each operation together, on integers and on formulas. What a thread
//! does alone, it does to its own variables; where conditions are open, an assignment takes place
//! where all of them hold. A loop runs as long as its condition holds, which must be the same for all
//! the threads. Between two barriers a shared buffer may be stored to once, by each thread in a place
//! of its own, or be loaded from, but not both: otherwise nothing is known of what it holds.

use vstd::prelude::*;

use crate::dispatch::backend::kernel::raw::RawView;
use crate::dispatch::backend::meaning::{
    absolute, any, at_least, choice, exponential, fused, greatest, guarded, inverse, load,
    logarithm, minus, negated, num, over, plus, tangent, times, untouched, Expr,
};
use crate::dispatch::backend::wgsl::source::{declared, inlined};
use crate::dispatch::backend::{Axis, Op, ParamId, SharedId, ValueId};

verus! {

/// What a variable or a place in a shared buffer holds.
pub enum Item {
    /// Nothing that is known.
    Unset,
    /// An unsigned integer.
    Int(int),
    /// A number, or a truth.
    Real(Expr),
}

/// An unsigned integer of 32 bits.
pub open spec fn wrapped(x: int) -> Item {
    Item::Int(x % 0x1_0000_0000)
}

/// The formula of a number.
pub open spec fn formula(a: Item) -> Expr {
    match a {
        Item::Real(e) => e,
        _ => Expr::Unset,
    }
}

/// A formula of one number.
pub open spec fn of_one(a: Item, e: Expr) -> Item {
    if a is Real {
        Item::Real(e)
    } else {
        Item::Unset
    }
}

/// A formula of two numbers.
pub open spec fn of_two(a: Item, b: Item, e: Expr) -> Item {
    if a is Real && b is Real {
        Item::Real(e)
    } else {
        Item::Unset
    }
}

/// The sum of two integers, or of two numbers.
pub open spec fn sum(a: Item, b: Item) -> Item {
    match (a, b) {
        (Item::Int(a), Item::Int(b)) => wrapped(a + b),
        (Item::Real(a), Item::Real(b)) => Item::Real(plus(a, b)),
        _ => Item::Unset,
    }
}

/// The product of two integers, or of two numbers.
pub open spec fn scaled(a: Item, b: Item) -> Item {
    match (a, b) {
        (Item::Int(a), Item::Int(b)) => wrapped(a * b),
        (Item::Real(a), Item::Real(b)) => Item::Real(times(a, b)),
        _ => Item::Unset,
    }
}

/// The product of two numbers plus a third.
pub open spec fn fused_sum(a: Item, b: Item, c: Item) -> Item {
    match (a, b, c) {
        (Item::Real(a), Item::Real(b), Item::Real(c)) => Item::Real(fused(a, b, c)),
        _ => Item::Unset,
    }
}

/// What has been done to a shared buffer since the last barrier.
pub enum Phase {
    Idle,
    Loaded,
    Stored,
    /// Threads may have got in the way of each other, now or before.
    Torn,
}

/// A shared buffer.
pub struct Tile {
    pub phase: Phase,
    pub cells: spec_fn(int) -> Item,
}

/// A store of a thread to a parameter.
pub struct Write {
    pub param: ParamId,
    pub index: Item,
    pub value: Item,
}

/// Where a block lies among the blocks of a launch, and what the metadata fields hold.
pub struct Place {
    pub row: int,
    pub col: int,
    pub depth: int,
    pub fields: Seq<u32>,
}

/// The state of a thread.
pub struct Thread {
    pub vars: spec_fn(ValueId) -> Item,
    /// The conditions that are open.
    pub guards: Seq<Expr>,
    /// The condition that was closed last.
    pub ended: Expr,
    pub stores: Seq<Write>,
}

/// The state of a block: its threads, by row and column, and its shared buffers.
pub struct Block {
    pub threads: spec_fn(int, int) -> Thread,
    pub tiles: spec_fn(SharedId) -> Tile,
    /// Whether there was an operation that blocks are not known to run together.
    pub stuck: bool,
}

/// The state in which a block starts.
pub open spec fn fresh() -> Block {
    Block {
        threads: |r: int, c: int|
            Thread {
                vars: |id: ValueId| Item::Unset,
                guards: Seq::empty(),
                ended: Expr::Unset,
                stores: Seq::empty(),
            },
        tiles: |mem: SharedId| Tile { phase: Phase::Idle, cells: |i: int| Item::Unset },
        stuck: false,
    }
}

/// Whether a block has a thread in a row and a column.
pub open spec fn thread(k: RawView, r: int, c: int) -> bool {
    0 <= r < k.block[1] && 0 <= c < k.block[0]
}

/// What a variable of a thread holds.
pub open spec fn var(s: Block, r: int, c: int, id: ValueId) -> Item {
    ((s.threads)(r, c).vars)(id)
}

/// What a thread has stored.
pub open spec fn stores(s: Block, r: int, c: int) -> Seq<Write> {
    (s.threads)(r, c).stores
}

/// Whether no conditions are open in a block.
pub open spec fn quiet(k: RawView, s: Block) -> bool {
    forall|r: int, c: int| #[trigger] thread(k, r, c) ==> (s.threads)(r, c).guards.len() == 0
}

/// What a thread reads as a value.
pub open spec fn read_by(k: RawView, w: Place, t: Thread, r: int, c: int, id: ValueId) -> Item
    decreases id as nat, 1nat,
{
    if inlined(k.values[id as int]) {
        result_by(k, w, t, r, c, k.values[id as int].init->0, id as nat)
    } else {
        (t.vars)(id)
    }
}

/// What a thread computes as the result of an operation on values below a bound.
pub open spec fn result_by(
    k: RawView,
    w: Place,
    t: Thread,
    r: int,
    c: int,
    op: Op,
    bound: nat,
) -> Item
    decreases bound, 0nat,
{
    let of = |id: ValueId|
        if id < bound {
            read_by(k, w, t, r, c, id)
        } else {
            Item::Unset
        };
    match op {
        Op::CopyVar { id } => of(id),
        Op::ConstU32 { value } => Item::Int(value as int),
        Op::ConstF32 { value } => Item::Real(num(value.bits)),
        Op::ReadMeta { field, .. } => Item::Int(w.fields[field as int] as int),
        Op::LocalId { axis } => match axis {
            Axis::X => wrapped(c),
            Axis::Y => wrapped(r),
            Axis::Z => Item::Int(0),
        },
        Op::GlobalId { axis } => match axis {
            Axis::X => wrapped(w.col * k.block[0] + c),
            Axis::Y => wrapped(w.row * k.block[1] + r),
            Axis::Z => wrapped(w.depth * k.block[2]),
        },
        Op::Add { a, b } => sum(of(a), of(b)),
        Op::Mul { a, b } => scaled(of(a), of(b)),
        Op::Fma { a, b, c: d } => fused_sum(of(a), of(b), of(d)),
        Op::Sub { a, b } => of_two(of(a), of(b), minus(formula(of(a)), formula(of(b)))),
        Op::Div { a, b } => of_two(of(a), of(b), over(formula(of(a)), formula(of(b)))),
        Op::Max { a, b } => of_two(of(a), of(b), greatest(formula(of(a)), formula(of(b)))),
        Op::Ge { a, b } => of_two(of(a), of(b), at_least(formula(of(a)), formula(of(b)))),
        Op::Not { cond } => of_one(of(cond), inverse(formula(of(cond)))),
        Op::Neg { x } => of_one(of(x), negated(formula(of(x)))),
        Op::Abs { x } => of_one(of(x), absolute(formula(of(x)))),
        Op::Exp { x } => of_one(of(x), exponential(formula(of(x)))),
        Op::Log { x } => of_one(of(x), logarithm(formula(of(x)))),
        Op::Tanh { x } => of_one(of(x), tangent(formula(of(x)))),
        Op::Select { cond, a, b } => if of(cond) is Real {
            of_two(of(a), of(b), choice(formula(of(cond)), formula(of(a)), formula(of(b))))
        } else {
            Item::Unset
        },
        Op::ParamLoad { param, index } => match of(index) {
            Item::Int(i) if untouched(k.ops, param, k.ops.len()) => Item::Real(
                load(param, num(i as u32)),
            ),
            _ => Item::Unset,
        },
        _ => Item::Unset,
    }
}

/// What a thread of a block reads as a value.
pub open spec fn item(k: RawView, w: Place, s: Block, r: int, c: int, id: ValueId) -> Item {
    read_by(k, w, (s.threads)(r, c), r, c, id)
}

/// What a thread of a block computes as the result of an operation on values below a bound.
pub open spec fn result(k: RawView, w: Place, s: Block, r: int, c: int, op: Op, bound: nat) -> Item {
    result_by(k, w, (s.threads)(r, c), r, c, op, bound)
}

/// What a variable holds after an assignment that takes place where all the conditions hold.
pub open spec fn masked(guards: Seq<Expr>, new: Item, old: Item) -> Item {
    if guards.len() == 0 {
        new
    } else {
        of_two(new, old, guarded(guards, formula(new), formula(old)))
    }
}

impl Thread {
    /// The state with a variable assigned.
    pub open spec fn with_var(self, id: ValueId, new: Item) -> Thread {
        Thread {
            vars: |v: ValueId|
                if v == id {
                    masked(self.guards, new, (self.vars)(id))
                } else {
                    (self.vars)(v)
                },
            ..self
        }
    }
}

/// Whether an operation is one that each thread runs alone.
pub open spec fn alone(k: RawView, op: Op) -> bool {
    match op {
        Op::DefineVar { id } => !(k.values[id as int].init matches Some(op) && op is SharedLoad)
            || !declared(k.values[id as int]),
        Op::OverwriteVar { val, .. } | Op::AddAssign { val, .. } => !(*val is SharedLoad),
        Op::ParamStore { .. } | Op::IfBegin { .. } | Op::ElseBegin | Op::EndScope => true,
        _ => false,
    }
}

/// The state of a thread after an operation that it runs alone.
pub open spec fn thread_step(k: RawView, w: Place, t: Thread, r: int, c: int, op: Op) -> Thread {
    match op {
        Op::DefineVar { id } => if declared(k.values[id as int]) {
            t.with_var(
                id,
                match k.values[id as int].init {
                    Some(init) => result_by(k, w, t, r, c, init, id as nat),
                    None => Item::Unset,
                },
            )
        } else {
            t
        },
        Op::OverwriteVar { id, val } => t.with_var(id, result_by(k, w, t, r, c, *val, any())),
        Op::AddAssign { id, val } => t.with_var(
            id,
            sum((t.vars)(id), result_by(k, w, t, r, c, *val, any())),
        ),
        Op::ParamStore { param, index, value } => Thread {
            stores: t.stores.push(
                Write {
                    param,
                    index: read_by(k, w, t, r, c, index),
                    value: if t.guards.len() == 0 {
                        read_by(k, w, t, r, c, value)
                    } else {
                        Item::Unset
                    },
                },
            ),
            ..t
        },
        Op::IfBegin { cond } => Thread {
            guards: t.guards.push(formula(read_by(k, w, t, r, c, cond))),
            ..t
        },
        Op::ElseBegin => Thread { guards: t.guards.push(inverse(t.ended)), ..t },
        Op::EndScope => if t.guards.len() > 0 {
            Thread { guards: t.guards.drop_last(), ended: t.guards.last(), ..t }
        } else {
            Thread { vars: |v: ValueId| Item::Unset, ..t }
        },
        _ => t,
    }
}

/// The state with a variable assigned by every thread.
pub open spec fn with_var(s: Block, id: ValueId, f: spec_fn(int, int) -> Item) -> Block {
    Block { threads: |r: int, c: int| (s.threads)(r, c).with_var(id, f(r, c)), ..s }
}

/// The state with another shared buffer.
pub open spec fn with_tile(s: Block, mem: SharedId, tile: Tile) -> Block {
    Block {
        tiles: |m: SharedId|
            if m == mem {
                tile
            } else {
                (s.tiles)(m)
            },
        ..s
    }
}

/// What a thread loads from a shared buffer.
pub open spec fn shared_item(s: Block, mem: SharedId, index: Item) -> Item {
    match index {
        Item::Int(i) => match (s.tiles)(mem).phase {
            Phase::Idle | Phase::Loaded => ((s.tiles)(mem).cells)(i),
            _ => Item::Unset,
        },
        _ => Item::Unset,
    }
}

/// A shared buffer that was loaded from.
pub open spec fn loaded(tile: Tile) -> Tile {
    Tile {
        phase: match tile.phase {
            Phase::Idle | Phase::Loaded => Phase::Loaded,
            _ => Phase::Torn,
        },
        ..tile
    }
}

/// Whether every thread has a place of its own.
pub open spec fn apart(k: RawView, index: spec_fn(int, int) -> Item) -> bool {
    &&& forall|r: int, c: int| #[trigger] thread(k, r, c) ==> index(r, c) is Int
    &&& forall|r: int, c: int, y: int, x: int|
        #![trigger thread(k, r, c), thread(k, y, x)]
        thread(k, r, c) && thread(k, y, x) && index(r, c) == index(y, x) ==> r == y && c == x
}

/// A shared buffer after every thread has stored to it.
pub open spec fn stored(
    k: RawView,
    tile: Tile,
    index: spec_fn(int, int) -> Item,
    value: spec_fn(int, int) -> Item,
) -> Tile {
    if tile.phase is Idle && apart(k, index) {
        Tile {
            phase: Phase::Stored,
            cells: |i: int|
                if exists|r: int, c: int| #[trigger] thread(k, r, c) && index(r, c) == Item::Int(i) {
                    let (r, c) = choose|r: int, c: int| #[trigger]
                        thread(k, r, c) && index(r, c) == Item::Int(i);
                    value(r, c)
                } else {
                    (tile.cells)(i)
                },
        }
    } else {
        Tile { phase: Phase::Torn, ..tile }
    }
}

/// The state after an operation that begins no loop. The threads run together only where no
/// conditions are open.
pub open spec fn step(k: RawView, w: Place, s: Block, op: Op) -> Block {
    if alone(k, op) {
        Block {
            threads: |r: int, c: int| thread_step(k, w, (s.threads)(r, c), r, c, op),
            ..s
        }
    } else if !quiet(k, s) {
        Block { stuck: true, ..s }
    } else {
        match op {
            Op::DefineVar { id } => match k.values[id as int].init {
                Some(Op::SharedLoad { mem, index }) => with_tile(
                    with_var(
                        s,
                        id,
                        |r: int, c: int| shared_item(s, mem, item(k, w, s, r, c, index)),
                    ),
                    mem,
                    loaded((s.tiles)(mem)),
                ),
                _ => Block { stuck: true, ..s },
            },
            Op::SharedStore { mem, index, value } => with_tile(
                s,
                mem,
                stored(
                    k,
                    (s.tiles)(mem),
                    |r: int, c: int| item(k, w, s, r, c, index),
                    |r: int, c: int| item(k, w, s, r, c, value),
                ),
            ),
            Op::Barrier => Block {
                tiles: |mem: SharedId|
                    Tile {
                        phase: if (s.tiles)(mem).phase is Torn {
                            Phase::Torn
                        } else {
                            Phase::Idle
                        },
                        ..(s.tiles)(mem)
                    },
                ..s
            },
            _ => Block { stuck: true, ..s },
        }
    }
}

/// Where the block of operations ends that is open at some depth.
pub open spec fn scope_end(ops: Seq<Op>, from: nat, to: nat, depth: nat) -> nat
    decreases to - from,
{
    if from >= to {
        to
    } else {
        match ops[from as int] {
            Op::EndScope => if depth == 0 {
                from
            } else {
                scope_end(ops, from + 1, to, (depth - 1) as nat)
            },
            Op::ForLoopBegin { .. }
            | Op::WhileLoopBegin { .. }
            | Op::ForeverLoopBegin
            | Op::IfBegin { .. }
            | Op::ElseBegin => scope_end(ops, from + 1, to, depth + 1),
            _ => scope_end(ops, from + 1, to, depth),
        }
    }
}

/// Whether all the threads read a value as the same integer.
pub open spec fn uniform(k: RawView, w: Place, s: Block, id: ValueId, x: int) -> bool {
    forall|r: int, c: int| #[trigger] thread(k, r, c) ==> item(k, w, s, r, c, id) == Item::Int(x)
}

/// The integer that the first thread reads a value as.
pub open spec fn first_int(k: RawView, w: Place, s: Block, id: ValueId) -> int {
    match item(k, w, s, 0, 0, id) {
        Item::Int(x) => x,
        _ => 0,
    }
}

/// The state after the operations from one position up to another.
#[verifier::opaque]
pub open spec fn run(k: RawView, w: Place, from: nat, to: nat, s: Block) -> Block
    decreases to - from, 0nat,
{
    if from >= to || s.stuck {
        s
    } else {
        match k.ops[from as int] {
            Op::ForLoopBegin { index, end, step: by } => {
                let last = scope_end(k.ops, from + 1, to, 0);
                if quiet(k, s) && from < last < to {
                    let count = first_int(k, w, s, end) - first_int(k, w, s, index);
                    let t = rounds(k, w, from, last, index, end, by, s, if count > 0 {
                        count as nat
                    } else {
                        0
                    });
                    run(k, w, last + 1, to, t)
                } else {
                    Block { stuck: true, ..s }
                }
            },
            op => run(k, w, from + 1, to, step(k, w, s, op)),
        }
    }
}

/// The state after the rounds of a loop, at most the given number, while the index lies below the
/// end. Each round adds the step to the index.
#[verifier::opaque]
pub open spec fn rounds(
    k: RawView,
    w: Place,
    from: nat,
    last: nat,
    index: ValueId,
    end: ValueId,
    by: ValueId,
    s: Block,
    most: nat,
) -> Block
    decreases last - from, most + 1,
{
    let i = first_int(k, w, s, index);
    let e = first_int(k, w, s, end);
    if s.stuck {
        s
    } else if !quiet(k, s) || !uniform(k, w, s, index, i) || !uniform(k, w, s, end, e) || from
        >= last {
        Block { stuck: true, ..s }
    } else if i >= e {
        s
    } else if most == 0 {
        Block { stuck: true, ..s }
    } else {
        let t = run(k, w, from + 1, last, s);
        let u = with_var(
            t,
            index,
            |r: int, c: int| sum(var(t, r, c, index), item(k, w, t, r, c, by)),
        );
        rounds(k, w, from, last, index, end, by, u, (most - 1) as nat)
    }
}

/// The state after the operation at a position.
pub open spec fn next(k: RawView, w: Place, s: Block, at: nat) -> Block {
    step(k, w, s, k.ops[at as int])
}

/// An operation that begins no loop is one step.
pub proof fn lemma_run_step(k: RawView, w: Place, from: nat, to: nat, s: Block)
    requires
        from < to,
        !s.stuck,
        !(k.ops[from as int] is ForLoopBegin),
    ensures
        run(k, w, from, to, s) == run(k, w, from + 1, to, next(k, w, s, from)),
{
    reveal_with_fuel(run, 2);
}

/// There is nothing to run at the end.
pub proof fn lemma_run_done(k: RawView, w: Place, to: nat, s: Block)
    ensures
        run(k, w, to, to, s) == s,
{
    reveal_with_fuel(run, 2);
}

/// A loop runs its rounds.
pub proof fn lemma_run_loop(k: RawView, w: Place, from: nat, to: nat, s: Block, last: nat)
    requires
        !s.stuck,
        quiet(k, s),
        from < last < to,
        last == scope_end(k.ops, from + 1, to, 0),
        k.ops[from as int] is ForLoopBegin,
    ensures
        k.ops[from as int] matches Op::ForLoopBegin { index, end, step: by } ==> {
            let count = first_int(k, w, s, end) - first_int(k, w, s, index);
            run(k, w, from, to, s) == run(
                k,
                w,
                last + 1,
                to,
                rounds(k, w, from, last, index, end, by, s, if count > 0 {
                    count as nat
                } else {
                    0
                }),
            )
        },
{
    reveal_with_fuel(run, 2);
    reveal_with_fuel(rounds, 2);
}

/// Whether an operation neither begins nor ends a block of operations.
pub open spec fn flat_op(op: Op) -> bool {
    match op {
        Op::EndScope
        | Op::ForLoopBegin { .. }
        | Op::WhileLoopBegin { .. }
        | Op::ForeverLoopBegin
        | Op::IfBegin { .. }
        | Op::ElseBegin => false,
        _ => true,
    }
}

/// Operations that neither begin nor end a block of operations are passed over.
pub proof fn lemma_scope_skip(ops: Seq<Op>, from: nat, upto: nat, to: nat, depth: nat)
    requires
        from <= upto <= to,
        forall|i: int| from <= i < upto ==> flat_op(#[trigger] ops[i]),
    ensures
        scope_end(ops, from, to, depth) == scope_end(ops, upto, to, depth),
    decreases upto - from,
{
    if from < upto {
        assert(flat_op(ops[from as int]));
        lemma_scope_skip(ops, from + 1, upto, to, depth);
    }
}

/// A thread's place in a square tile is its own.
pub proof fn lemma_place_apart(tile: int, r: int, c: int, y: int, x: int)
    requires
        0 <= c < tile,
        0 <= x < tile,
        r * tile + c == y * tile + x,
    ensures
        r == y,
        c == x,
{
    assert(r == y) by (nonlinear_arith)
        requires
            0 <= c < tile,
            0 <= x < tile,
            r * tile + c == y * tile + x,
    ;
}

/// What the threads have stored to a square tile, each in its own place, is what the tile holds.
pub proof fn lemma_stored(
    k: RawView,
    tile: Tile,
    index: spec_fn(int, int) -> Item,
    value: spec_fn(int, int) -> Item,
)
    requires
        k.block[0] == k.block[1],
        tile.phase is Idle,
        forall|r: int, c: int| #[trigger]
            thread(k, r, c) ==> index(r, c) == Item::Int(r * k.block[0] + c),
    ensures
        stored(k, tile, index, value).phase is Stored,
        forall|r: int, c: int| #[trigger]
            thread(k, r, c) ==> (stored(k, tile, index, value).cells)(r * k.block[0] + c) == value(
                r,
                c,
            ),
{
    let t = k.block[0] as int;
    assert forall|r: int, c: int, y: int, x: int|
        #![trigger thread(k, r, c), thread(k, y, x)]
        thread(k, r, c) && thread(k, y, x) && index(r, c) == index(y, x) implies r == y && c == x by {
        lemma_place_apart(t, r, c, y, x);
    }
    assert(apart(k, index));
    assert forall|r: int, c: int| #[trigger] thread(k, r, c) implies (stored(
        k,
        tile,
        index,
        value,
    ).cells)(r * k.block[0] + c) == value(r, c) by {
        let i = r * t + c;
        assert(thread(k, r, c) && index(r, c) == Item::Int(i));
        let (y, x) = choose|y: int, x: int| #[trigger]
            thread(k, y, x) && index(y, x) == Item::Int(i);
        assert(thread(k, y, x) && index(y, x) == Item::Int(i));
    }
}

/// Whether a block of operations that is open at a position ends where it does at a later one.
pub open spec fn passes(k: RawView, from: nat, to: nat) -> bool {
    forall|last: nat, depth: nat|
        last >= to ==> #[trigger] scope_end(k.ops, from, last, depth) == scope_end(
            k.ops,
            to,
            last,
            depth,
        )
}

/// Whether a block that is in one state at a position comes to another at a later position.
#[verifier::opaque]
pub open spec fn advances(k: RawView, w: Place, from: nat, to: nat, s: Block, t: Block) -> bool {
    &&& from <= to
    &&& passes(k, from, to)
    &&& forall|last: nat|
        last >= to ==> #[trigger] run(k, w, from, last, s) == run(k, w, to, last, t)
}

pub proof fn lemma_advance_none(k: RawView, w: Place, at: nat, s: Block)
    ensures
        advances(k, w, at, at, s, s),
{
    reveal(advances);
}

pub proof fn lemma_advance_on(
    k: RawView,
    w: Place,
    a: nat,
    b: nat,
    c: nat,
    s: Block,
    t: Block,
    u: Block,
)
    requires
        advances(k, w, a, b, s, t),
        advances(k, w, b, c, t, u),
    ensures
        advances(k, w, a, c, s, u),
{
    reveal(advances);
    assert forall|last: nat| last >= c implies #[trigger] run(k, w, a, last, s) == run(
        k,
        w,
        c,
        last,
        u,
    ) by {
        assert(run(k, w, a, last, s) == run(k, w, b, last, t));
    }
    assert forall|last: nat, depth: nat| last >= c implies #[trigger] scope_end(
        k.ops,
        a,
        last,
        depth,
    ) == scope_end(k.ops, c, last, depth) by {
        assert(scope_end(k.ops, a, last, depth) == scope_end(k.ops, b, last, depth));
    }
}

/// An operation that neither begins nor ends a block of operations is one step.
pub proof fn lemma_advance_step(k: RawView, w: Place, at: nat, s: Block)
    requires
        !s.stuck,
        flat_op(k.ops[at as int]),
    ensures
        advances(k, w, at, at + 1, s, next(k, w, s, at)),
{
    reveal(advances);
    assert forall|last: nat| last >= at + 1 implies #[trigger] run(k, w, at, last, s) == run(
        k,
        w,
        at + 1,
        last,
        next(k, w, s, at),
    ) by {
        lemma_run_step(k, w, at, last, s);
    }
    assert forall|last: nat, depth: nat| last >= at + 1 implies #[trigger] scope_end(
        k.ops,
        at,
        last,
        depth,
    ) == scope_end(k.ops, at + 1, last, depth) by {
        lemma_scope_skip(k.ops, at, at + 1, last, depth);
    }
}

/// Whether one state differs from another at most in one variable, which every thread has set.
pub open spec fn set_one(
    k: RawView,
    s: Block,
    t: Block,
    id: ValueId,
    f: spec_fn(int, int) -> Item,
) -> bool {
    &&& t.stuck == s.stuck
    &&& t.tiles == s.tiles
    &&& quiet(k, s) ==> quiet(k, t)
    &&& forall|r: int, c: int| #[trigger] stores(t, r, c) == stores(s, r, c)
    &&& forall|r: int, c: int, v: ValueId|
        v != id ==> #[trigger] var(t, r, c, v) == var(s, r, c, v)
    &&& forall|r: int, c: int| #[trigger] thread(k, r, c) ==> var(t, r, c, id) == f(r, c)
}

/// A definition that is written wherever it is read does nothing.
pub proof fn lemma_name(k: RawView, w: Place, s: Block, at: nat, id: ValueId)
    requires
        !s.stuck,
        k.ops[at as int] == (Op::DefineVar { id }),
        !declared(k.values[id as int]),
    ensures
        advances(k, w, at, at + 1, s, s),
{
    lemma_advance_step(k, w, at, s);
    let t = next(k, w, s, at);
    assert(t.threads =~= s.threads);
    assert(t == s);
}

/// A definition sets one variable.
pub proof fn lemma_define(
    k: RawView,
    w: Place,
    s: Block,
    at: nat,
    id: ValueId,
    f: spec_fn(int, int) -> Item,
) -> (t: Block)
    requires
        !s.stuck,
        quiet(k, s),
        k.ops[at as int] == (Op::DefineVar { id }),
        declared(k.values[id as int]),
        k.values[id as int].init matches Some(op) ==> !(op is SharedLoad) && forall|r: int, c: int|
            #[trigger] thread(k, r, c) ==> result(k, w, s, r, c, op, id as nat) == f(r, c),
        k.values[id as int].init is None ==> forall|r: int, c: int| #[trigger]
            thread(k, r, c) ==> f(r, c) == Item::Unset,
    ensures
        advances(k, w, at, at + 1, s, t),
        set_one(k, s, t, id, f),
{
    lemma_advance_step(k, w, at, s);
    next(k, w, s, at)
}

/// An assignment sets one variable.
pub proof fn lemma_assign(
    k: RawView,
    w: Place,
    s: Block,
    at: nat,
    id: ValueId,
    op: Op,
    f: spec_fn(int, int) -> Item,
) -> (t: Block)
    requires
        !s.stuck,
        quiet(k, s),
        !(op is SharedLoad),
        ({
            ||| k.ops[at as int] == (Op::OverwriteVar { id, val: Box::new(op) }) && forall|r: int, c:
                int|
                #[trigger] thread(k, r, c) ==> result(k, w, s, r, c, op, any()) == f(r, c)
            ||| k.ops[at as int] == (Op::AddAssign { id, val: Box::new(op) }) && forall|r: int, c:
                int|
                #[trigger] thread(k, r, c) ==> sum(
                    var(s, r, c, id),
                    result(k, w, s, r, c, op, any()),
                ) == f(r, c)
        }),
    ensures
        advances(k, w, at, at + 1, s, t),
        set_one(k, s, t, id, f),
{
    lemma_advance_step(k, w, at, s);
    next(k, w, s, at)
}

/// A value that is written as its definition is read as the result of it.
pub broadcast proof fn lemma_inline(k: RawView, w: Place, t: Thread, r: int, c: int, id: ValueId)
    ensures
        #[trigger] read_by(k, w, t, r, c, id) == if inlined(k.values[id as int]) {
            result_by(k, w, t, r, c, k.values[id as int].init->0, id as nat)
        } else {
            (t.vars)(id)
        },
{
}

} // verus!
