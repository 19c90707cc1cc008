//! What the threads of a block compute, each for itself from barrier to barrier.
//!
//! Between two barriers each thread runs on its own, on the memory as it was at the first barrier
//! and on what it writes itself. No thread may touch there what another one writes. At a barrier all
//! the threads have come to the same place, and see what all of them have written. Numbers are those
//! of any calculus.

use vstd::prelude::*;

use vstd::arithmetic::power2::pow2;

use crate::dispatch::backend::kernel::raw::RawView;
use crate::dispatch::backend::meaning::any;
use crate::dispatch::backend::meaning::tiles::scope_end;
use crate::dispatch::backend::wgsl::source::{declared, inlined};
use crate::dispatch::backend::{Axis, Op, ParamId, SharedId, ValueId};

verus! {

/// What a variable or a place in memory holds.
pub enum Slot<N> {
    /// Nothing that is known.
    Unset,
    /// An unsigned integer.
    Int(int),
    Num(N),
    Truth(bool),
}

/// A calculus: what the constants stand for, and what the operations on numbers give.
#[verifier::reject_recursive_types(N)]
pub struct Calculus<N> {
    pub number: spec_fn(u32) -> N,
    pub plus: spec_fn(N, N) -> N,
    pub minus: spec_fn(N, N) -> N,
    pub times: spec_fn(N, N) -> N,
    pub over: spec_fn(N, N) -> N,
    pub greatest: spec_fn(N, N) -> N,
    pub exponential: spec_fn(N) -> N,
}

/// A place in memory.
pub enum Address {
    Shared(SharedId, int),
    Param(ParamId, int),
}

/// Which block of a launch runs, and what the metadata fields hold.
pub struct Site {
    pub block: int,
    pub fields: Seq<u32>,
}

/// The state of a thread.
#[verifier::reject_recursive_types(N)]
pub struct Lane<N> {
    /// The operation that comes next.
    pub at: nat,
    /// Where the open blocks of operations begin.
    pub open: Seq<nat>,
    pub vars: spec_fn(ValueId) -> Slot<N>,
    /// The memory as the thread sees it.
    pub mem: spec_fn(Address) -> Slot<N>,
    /// What the thread has read.
    pub read: Set<Address>,
    /// What the thread has written.
    pub wrote: Set<Address>,
    /// Whether the thread cannot go on.
    pub stuck: bool,
}

/// A value, and where it was read from.
pub struct Got<N> {
    pub slot: Slot<N>,
    pub from: Set<Address>,
}

pub open spec fn known<N>(slot: Slot<N>) -> Got<N> {
    Got { slot, from: Set::empty() }
}

pub open spec fn modular<N>(x: int) -> Slot<N> {
    Slot::Int(x % 0x1_0000_0000)
}

pub open spec fn with_both<N>(a: Got<N>, b: Got<N>, slot: Slot<N>) -> Got<N> {
    Got { slot, from: a.from + b.from }
}

impl<N> Calculus<N> {
    pub open spec fn sum(self, a: Slot<N>, b: Slot<N>) -> Slot<N> {
        match (a, b) {
            (Slot::Int(a), Slot::Int(b)) => modular(a + b),
            (Slot::Num(a), Slot::Num(b)) => Slot::Num((self.plus)(a, b)),
            _ => Slot::Unset,
        }
    }

    pub open spec fn product(self, a: Slot<N>, b: Slot<N>) -> Slot<N> {
        match (a, b) {
            (Slot::Int(a), Slot::Int(b)) => modular(a * b),
            (Slot::Num(a), Slot::Num(b)) => Slot::Num((self.times)(a, b)),
            _ => Slot::Unset,
        }
    }

    pub open spec fn of_two(self, f: spec_fn(N, N) -> N, a: Slot<N>, b: Slot<N>) -> Slot<N> {
        match (a, b) {
            (Slot::Num(a), Slot::Num(b)) => Slot::Num(f(a, b)),
            _ => Slot::Unset,
        }
    }

    pub open spec fn raised(self, a: Slot<N>) -> Slot<N> {
        match a {
            Slot::Num(a) => Slot::Num((self.exponential)(a)),
            _ => Slot::Unset,
        }
    }
}

pub open spec fn halved<N>(a: Slot<N>, b: Slot<N>) -> Slot<N> {
    match (a, b) {
        (Slot::Int(a), Slot::Int(b)) if 0 <= b < 32 => Slot::Int(a / pow2(b as nat) as int),
        _ => Slot::Unset,
    }
}

pub open spec fn less<N>(a: Slot<N>, b: Slot<N>) -> Slot<N> {
    match (a, b) {
        (Slot::Int(a), Slot::Int(b)) => Slot::Truth(a < b),
        _ => Slot::Unset,
    }
}

pub open spec fn equal<N>(a: Slot<N>, b: Slot<N>) -> Slot<N> {
    match (a, b) {
        (Slot::Int(a), Slot::Int(b)) => Slot::Truth(a == b),
        _ => Slot::Unset,
    }
}

/// What a thread reads from memory.
pub open spec fn fetched<N>(l: Lane<N>, index: Got<N>, shared: Option<SharedId>, param: ParamId) -> Got<
    N,
> {
    match index.slot {
        Slot::Int(i) => {
            let a = match shared {
                Some(mem) => Address::Shared(mem, i),
                None => Address::Param(param, i),
            };
            Got { slot: (l.mem)(a), from: index.from.insert(a) }
        },
        _ => Got { slot: Slot::Unset, from: index.from },
    }
}

/// What a thread reads as a value.
pub open spec fn seen<N>(
    c: Calculus<N>,
    w: Site,
    k: RawView,
    t: int,
    l: Lane<N>,
    id: ValueId,
) -> Got<N>
    decreases id as nat, 1nat,
{
    if inlined(k.values[id as int]) {
        got(c, w, k, t, l, k.values[id as int].init->0, id as nat)
    } else {
        known((l.vars)(id))
    }
}

/// What a thread computes as the result of an operation on values below a bound.
pub open spec fn got<N>(
    c: Calculus<N>,
    w: Site,
    k: RawView,
    t: int,
    l: Lane<N>,
    op: Op,
    bound: nat,
) -> Got<N>
    decreases bound, 0nat,
{
    let of = |id: ValueId|
        if id < bound {
            seen(c, w, k, t, l, id)
        } else {
            known(Slot::Unset)
        };
    match op {
        Op::CopyVar { id } => of(id),
        Op::ConstU32 { value } => known(Slot::Int(value as int)),
        Op::ConstF32 { value } => known(Slot::Num((c.number)(value.bits))),
        Op::ReadMeta { field, .. } => known(Slot::Int(w.fields[field as int] as int)),
        Op::LocalId { axis } => known(
            Slot::Int(
                if axis == Axis::X {
                    t
                } else {
                    0
                },
            ),
        ),
        Op::BlockId { axis } => known(
            Slot::Int(
                if axis == Axis::X {
                    w.block
                } else {
                    0
                },
            ),
        ),
        Op::Add { a, b } => with_both(of(a), of(b), c.sum(of(a).slot, of(b).slot)),
        Op::Mul { a, b } => with_both(of(a), of(b), c.product(of(a).slot, of(b).slot)),
        Op::Sub { a, b } => with_both(of(a), of(b), c.of_two(c.minus, of(a).slot, of(b).slot)),
        Op::Div { a, b } => with_both(of(a), of(b), c.of_two(c.over, of(a).slot, of(b).slot)),
        Op::Max { a, b } => with_both(of(a), of(b), c.of_two(c.greatest, of(a).slot, of(b).slot)),
        Op::Shr { a, b } => with_both(of(a), of(b), halved(of(a).slot, of(b).slot)),
        Op::Lt { a, b } => with_both(of(a), of(b), less(of(a).slot, of(b).slot)),
        Op::Eq { a, b } => with_both(of(a), of(b), equal(of(a).slot, of(b).slot)),
        Op::Exp { x } => Got { slot: c.raised(of(x).slot), ..of(x) },
        Op::SharedLoad { mem, index } => fetched(l, of(index), Some(mem), 0),
        Op::ParamLoad { param, index } => fetched(l, of(index), None, param),
        _ => known(Slot::Unset),
    }
}

impl<N> Lane<N> {
    pub open spec fn next(self) -> Lane<N> {
        Lane { at: self.at + 1, ..self }
    }

    pub open spec fn halt(self) -> Lane<N> {
        Lane { stuck: true, ..self }
    }

    /// The state with a variable assigned.
    pub open spec fn set(self, id: ValueId, new: Got<N>) -> Lane<N> {
        Lane {
            at: self.at + 1,
            vars: |v: ValueId|
                if v == id {
                    new.slot
                } else {
                    (self.vars)(v)
                },
            read: self.read + new.from,
            ..self
        }
    }

    /// The state with a place in memory written.
    pub open spec fn put(self, a: Address, new: Slot<N>, from: Set<Address>) -> Lane<N> {
        Lane {
            at: self.at + 1,
            mem: |b: Address|
                if b == a {
                    new
                } else {
                    (self.mem)(b)
                },
            read: self.read + from,
            wrote: self.wrote.insert(a),
            ..self
        }
    }

    /// The state inside a block of operations, or behind it.
    pub open spec fn enter(self, ops: Seq<Op>, cond: Got<N>) -> Lane<N> {
        match cond.slot {
            Slot::Truth(true) => Lane {
                at: self.at + 1,
                open: self.open.push(self.at),
                read: self.read + cond.from,
                ..self
            },
            Slot::Truth(false) => Lane {
                at: scope_end(ops, self.at + 1, ops.len(), 0) + 1,
                read: self.read + cond.from,
                ..self
            },
            _ => self.halt(),
        }
    }
}

/// Whether an operation begins a loop.
pub open spec fn loops(op: Op) -> bool {
    op is WhileLoopBegin || op is ForeverLoopBegin
}

/// The open blocks of operations from the outermost to the innermost loop.
pub open spec fn to_loop(ops: Seq<Op>, open: Seq<nat>) -> Seq<nat>
    decreases open.len(),
{
    if open.len() == 0 || loops(ops[open.last() as int]) {
        open
    } else {
        to_loop(ops, open.drop_last())
    }
}

/// The state of a thread after its next operation. It waits at a barrier.
pub open spec fn tread<N>(c: Calculus<N>, w: Site, k: RawView, t: int, l: Lane<N>) -> Lane<N> {
    match k.ops[l.at as int] {
        Op::DefineVar { id } => if declared(k.values[id as int]) {
            l.set(
                id,
                match k.values[id as int].init {
                    Some(op) => got(c, w, k, t, l, op, id as nat),
                    None => known(Slot::Unset),
                },
            )
        } else {
            l.next()
        },
        Op::OverwriteVar { id, val } => l.set(id, got(c, w, k, t, l, *val, any())),
        Op::AddAssign { id, val } => {
            let g = got(c, w, k, t, l, *val, any());
            l.set(id, Got { slot: c.sum((l.vars)(id), g.slot), ..g })
        },
        Op::ParamStore { param, index, value } => {
            let i = seen(c, w, k, t, l, index);
            let v = seen(c, w, k, t, l, value);
            match i.slot {
                Slot::Int(i1) => l.put(Address::Param(param, i1), v.slot, i.from + v.from),
                _ => l.halt(),
            }
        },
        Op::ParamMul { param, index, value } => {
            let i = seen(c, w, k, t, l, index);
            let v = seen(c, w, k, t, l, value);
            match i.slot {
                Slot::Int(i1) => {
                    let a = Address::Param(param, i1);
                    l.put(a, c.product((l.mem)(a), v.slot), (i.from + v.from).insert(a))
                },
                _ => l.halt(),
            }
        },
        Op::SharedStore { mem, index, value } => {
            let i = seen(c, w, k, t, l, index);
            let v = seen(c, w, k, t, l, value);
            match i.slot {
                Slot::Int(i1) => l.put(Address::Shared(mem, i1), v.slot, i.from + v.from),
                _ => l.halt(),
            }
        },
        Op::SharedAccum { mem, index, value } => {
            let i = seen(c, w, k, t, l, index);
            let v = seen(c, w, k, t, l, value);
            match i.slot {
                Slot::Int(i1) => {
                    let a = Address::Shared(mem, i1);
                    l.put(a, c.sum((l.mem)(a), v.slot), (i.from + v.from).insert(a))
                },
                _ => l.halt(),
            }
        },
        Op::IfBegin { cond } => l.enter(k.ops, seen(c, w, k, t, l, cond)),
        Op::WhileLoopBegin { cond } => l.enter(k.ops, got(c, w, k, t, l, *cond, any())),
        Op::ForeverLoopBegin => l.enter(k.ops, known(Slot::Truth(true))),
        Op::EndScope => if l.open.len() == 0 {
            l.halt()
        } else if loops(k.ops[l.open.last() as int]) {
            Lane { at: l.open.last(), open: l.open.drop_last(), ..l }
        } else {
            Lane { at: l.at + 1, open: l.open.drop_last(), ..l }
        },
        Op::Break => {
            let open = to_loop(k.ops, l.open);
            if open.len() == 0 {
                l.halt()
            } else {
                Lane {
                    at: scope_end(k.ops, open.last() + 1, k.ops.len(), 0) + 1,
                    open: open.drop_last(),
                    ..l
                }
            }
        },
        _ => l.halt(),
    }
}

/// The state of a thread after a number of operations.
pub open spec fn walked<N>(
    c: Calculus<N>,
    w: Site,
    k: RawView,
    t: int,
    l: Lane<N>,
    n: nat,
) -> Lane<N>
    decreases n,
{
    if n == 0 {
        l
    } else {
        tread(c, w, k, t, walked(c, w, k, t, l, (n - 1) as nat))
    }
}

/// Whether a thread comes from one state to another.
pub open spec fn comes<N>(
    c: Calculus<N>,
    w: Site,
    k: RawView,
    t: int,
    l: Lane<N>,
    m: Lane<N>,
) -> bool {
    exists|n: nat| #[trigger] walked(c, w, k, t, l, n) == m
}

pub proof fn lemma_walked_on<N>(
    c: Calculus<N>,
    w: Site,
    k: RawView,
    t: int,
    l: Lane<N>,
    n: nat,
    more: nat,
)
    ensures
        walked(c, w, k, t, walked(c, w, k, t, l, n), more) == walked(c, w, k, t, l, n + more),
    decreases more,
{
    if more > 0 {
        lemma_walked_on(c, w, k, t, l, n, (more - 1) as nat);
        assert((n + more - 1) as nat == n + (more - 1) as nat);
    }
}

pub proof fn lemma_comes_on<N>(
    c: Calculus<N>,
    w: Site,
    k: RawView,
    t: int,
    a: Lane<N>,
    b: Lane<N>,
    d: Lane<N>,
)
    requires
        comes(c, w, k, t, a, b),
        comes(c, w, k, t, b, d),
    ensures
        comes(c, w, k, t, a, d),
{
    let n = choose|n: nat| #[trigger] walked(c, w, k, t, a, n) == b;
    let more = choose|n: nat| #[trigger] walked(c, w, k, t, b, n) == d;
    lemma_walked_on(c, w, k, t, a, n, more);
}

pub proof fn lemma_comes_none<N>(c: Calculus<N>, w: Site, k: RawView, t: int, l: Lane<N>)
    ensures
        comes(c, w, k, t, l, l),
{
    assert(walked(c, w, k, t, l, 0) == l);
}

/// One more operation.
pub proof fn lemma_comes_next<N>(
    c: Calculus<N>,
    w: Site,
    k: RawView,
    t: int,
    a: Lane<N>,
    b: Lane<N>,
)
    requires
        comes(c, w, k, t, a, b),
    ensures
        comes(c, w, k, t, a, tread(c, w, k, t, b)),
{
    let n = choose|n: nat| #[trigger] walked(c, w, k, t, a, n) == b;
    assert(walked(c, w, k, t, a, n + 1) == tread(c, w, k, t, b));
}

/// Whether no thread has touched what another one has written.
pub open spec fn clear<N>(size: int, lanes: spec_fn(int) -> Lane<N>) -> bool {
    forall|t: int, u: int, a: Address|
        0 <= t < size && 0 <= u < size && t != u && #[trigger] lanes(t).wrote.contains(a) ==> !(
        #[trigger] lanes(u).wrote.contains(a)) && !lanes(u).read.contains(a)
}

/// The memory with what all the threads have written.
pub open spec fn joined<N>(size: int, lanes: spec_fn(int) -> Lane<N>) -> spec_fn(Address) -> Slot<N> {
    |a: Address|
        if exists|t: int| 0 <= t < size && #[trigger] lanes(t).wrote.contains(a) {
            (lanes(
                choose|t: int| 0 <= t < size && #[trigger] lanes(t).wrote.contains(a),
            ).mem)(a)
        } else {
            (lanes(0).mem)(a)
        }
}

/// The places that a barrier orders: those in shared buffers.
pub open spec fn ordered(a: Address) -> bool {
    a is Shared
}

/// The state of a thread behind a barrier. It is known of the shared buffers alone that what was
/// touched before may be touched again.
pub open spec fn resumed<N>(size: int, lanes: spec_fn(int) -> Lane<N>, t: int) -> Lane<N> {
    Lane {
        at: lanes(t).at + 1,
        mem: joined(size, lanes),
        read: lanes(t).read.filter(|a: Address| !ordered(a)),
        wrote: lanes(t).wrote.filter(|a: Address| !ordered(a)),
        ..lanes(t)
    }
}

/// The states of the threads of a block behind a barrier.
pub open spec fn behind<N>(size: int, lanes: spec_fn(int) -> Lane<N>) -> spec_fn(int) -> Lane<N> {
    |t: int| resumed(size, lanes, t)
}

/// Whether all the threads of a block come from one state to the next barrier, and no further.
pub open spec fn gathers<N>(
    c: Calculus<N>,
    w: Site,
    k: RawView,
    size: int,
    a: spec_fn(int) -> Lane<N>,
    b: spec_fn(int) -> Lane<N>,
) -> bool {
    &&& forall|t: int| 0 <= t < size ==> comes(c, w, k, t, a(t), #[trigger] b(t))
    &&& forall|t: int|
        0 <= t < size ==> !(#[trigger] b(t)).stuck && b(t).at == b(0).at && b(t).open == b(0).open
    &&& b(0).at < k.ops.len()
    &&& k.ops[b(0).at as int] is Barrier
    &&& clear(size, b)
}

/// Whether all the threads of a block come from one state to another, over a number of barriers.
pub open spec fn passes_by<N>(
    c: Calculus<N>,
    w: Site,
    k: RawView,
    size: int,
    a: spec_fn(int) -> Lane<N>,
    b: spec_fn(int) -> Lane<N>,
    barriers: nat,
) -> bool
    decreases barriers,
{
    if barriers == 0 {
        &&& forall|t: int| 0 <= t < size ==> comes(c, w, k, t, a(t), #[trigger] b(t))
        &&& forall|t: int| 0 <= t < size ==> !(#[trigger] b(t)).stuck
        &&& clear(size, b)
    } else {
        exists|m: spec_fn(int) -> Lane<N>| #[trigger]
            gathers(c, w, k, size, a, m) && passes_by(
                c,
                w,
                k,
                size,
                behind(size, m),
                b,
                (barriers - 1) as nat,
            )
    }
}

} // verus!
