//! What the code of a matrix product computes.

use vstd::prelude::*;

use crate::dispatch::backend::kernel::raw::RawView;
use crate::dispatch::backend::meaning::tiles::{
    advances, first_int, item, lemma_advance_on, lemma_advance_step, lemma_assign, lemma_define,
    lemma_name, lemma_run_done, lemma_run_loop, lemma_scope_skip, lemma_stored, loaded, next,
    passes, quiet, result, rounds, run, scaled, scope_end, set_one, shared_item, stores, sum,
    thread, uniform, var, with_tile, with_var, Block, Item, Phase, Place, Thread, Tile, Write,
};
use crate::dispatch::backend::meaning::{any, fused, num, Expr};
use crate::dispatch::backend::std_lib::matmul::Extent;
use crate::dispatch::backend::wgsl::source::inlined;
use crate::dispatch::backend::{DType, Op, SharedId, Value, ValueId, ValueState};
use crate::scalar::{Float32, ZERO_BITS};

verus! {

/// An unsigned integer of a kernel.
pub open spec fn unsigned(state: ValueState, op: Op) -> Value {
    Value { state, dtype: DType::UnsignedInt, init: Some(op) }
}

/// A number of a kernel.
pub open spec fn float(state: ValueState, op: Op) -> Value {
    Value { state, dtype: DType::Float, init: Some(op) }
}

/// The number zero.
pub open spec fn zero() -> Op {
    Op::ConstF32 { value: Float32 { bits: ZERO_BITS } }
}

/// Whether what a thread has stored goes on from what it had stored, with stores that are all right.
pub open spec fn goes_on(a: Seq<Write>, b: Seq<Write>, good: spec_fn(Write) -> bool) -> bool {
    &&& a.len() <= b.len()
    &&& forall|i: int| 0 <= i < a.len() ==> #[trigger] b[i] == a[i]
    &&& forall|i: int| a.len() <= i < b.len() ==> good(#[trigger] b[i])
}

/// Whether what all the threads have stored goes on.
#[verifier::opaque]
pub open spec fn stored_on(k: RawView, s: Block, t: Block, good: spec_fn(Write) -> bool) -> bool {
    forall|r: int, c: int| #[trigger]
        thread(k, r, c) ==> goes_on(stores(s, r, c), stores(t, r, c), good)
}

pub proof fn lemma_stored_same(k: RawView, s: Block, t: Block, good: spec_fn(Write) -> bool)
    requires
        forall|r: int, c: int| #[trigger] thread(k, r, c) ==> stores(t, r, c) == stores(s, r, c),
    ensures
        stored_on(k, s, t, good),
{
    reveal(stored_on);
}

pub proof fn lemma_stored_on(
    k: RawView,
    s: Block,
    t: Block,
    u: Block,
    good: spec_fn(Write) -> bool,
)
    requires
        stored_on(k, s, t, good),
        stored_on(k, t, u, good),
    ensures
        stored_on(k, s, u, good),
{
    reveal(stored_on);
    assert forall|r: int, c: int| #[trigger] thread(k, r, c) implies goes_on(
        stores(s, r, c),
        stores(u, r, c),
        good,
    ) by {
        let a = stores(s, r, c);
        let b = stores(t, r, c);
        let d = stores(u, r, c);
        assert(goes_on(a, b, good) && goes_on(b, d, good));
        assert forall|i: int| 0 <= i < a.len() implies #[trigger] d[i] == a[i] by {
            assert(b[i] == a[i]);
        }
        assert forall|i: int| a.len() <= i < d.len() implies good(#[trigger] d[i]) by {
            if i < b.len() {
                assert(d[i] == b[i]);
            }
        }
    }
}

/// Whether what is said of what was stored stays true when more is stored.
pub open spec fn lasting(kept: spec_fn(Seq<Write>, int) -> bool) -> bool {
    forall|a: Seq<Write>, b: Seq<Write>, good: spec_fn(Write) -> bool, x: int|
        #![trigger goes_on(a, b, good), kept(b, x)]
        goes_on(a, b, good) && kept(a, x) ==> kept(b, x)
}

/// Whether the variables below a bound hold what they held, but for one.
pub open spec fn framed_by(k: RawView, s: Block, t: Block, limit: nat, out: ValueId) -> bool {
    forall|r: int, c: int, v: ValueId|
        thread(k, r, c) && v < limit && v != out ==> #[trigger] var(t, r, c, v) == var(s, r, c, v)
}

/// A factor of a product: where its code lies, which variables hold its index and its result, what
/// its elements are, and what is known of the stores of a thread that has evaluated one.
pub struct Factor {
    pub from: nat,
    pub to: nat,
    pub index: ValueId,
    pub out: ValueId,
    pub element: spec_fn(int) -> Expr,
    pub kept: spec_fn(Seq<Write>, int) -> bool,
}

impl Factor {
    /// Whether a block can evaluate the factor.
    pub open spec fn ready(self, k: RawView, s: Block) -> bool {
        &&& !s.stuck
        &&& quiet(k, s)
        &&& forall|r: int, c: int| #[trigger]
            thread(k, r, c) ==> var(s, r, c, self.out) == Item::Real(num(ZERO_BITS)) && (var(
                s,
                r,
                c,
                self.index,
            ) matches Item::Int(x) && 0 <= x <= u32::MAX)
    }

    /// Whether a block has evaluated the factor.
    pub open spec fn served(
        self,
        k: RawView,
        w: Place,
        limit: nat,
        good: spec_fn(Write) -> bool,
        s: Block,
        t: Block,
    ) -> bool {
        &&& advances(k, w, self.from, self.to, s, t)
        &&& !t.stuck
        &&& quiet(k, t)
        &&& t.tiles == s.tiles
        &&& framed_by(k, s, t, limit, self.out)
        &&& stored_on(k, s, t, good)
        &&& forall|r: int, c: int| #[trigger]
            thread(k, r, c) ==> (var(s, r, c, self.index) matches Item::Int(x) && {
                &&& var(t, r, c, self.out) == Item::Real((self.element)(x))
                &&& (self.kept)(stores(t, r, c), x)
            })
    }

    /// Whether the code of the factor evaluates it wherever a block can.
    pub open spec fn serves(
        self,
        k: RawView,
        w: Place,
        limit: nat,
        good: spec_fn(Write) -> bool,
    ) -> bool {
        &&& lasting(self.kept)
        &&& forall|s: Block| #[trigger]
            self.ready(k, s) ==> exists|t: Block| #[trigger] self.served(k, w, limit, good, s, t)
    }

    /// The code of a factor begins and ends the same blocks of operations.
    proof fn lemma_passes(self, k: RawView, w: Place, limit: nat, good: spec_fn(Write) -> bool)
        requires
            self.serves(k, w, limit, good),
            self.index != self.out,
        ensures
            self.from <= self.to,
            passes(k, self.from, self.to),
    {
        let s = Block {
            threads: |r: int, c: int|
                Thread {
                    vars: |v: ValueId|
                        if v == self.index {
                            Item::Int(0)
                        } else {
                            Item::Real(num(ZERO_BITS))
                        },
                    guards: Seq::empty(),
                    ended: Expr::Unset,
                    stores: Seq::empty(),
                },
            tiles: |mem: SharedId| Tile { phase: Phase::Idle, cells: |i: int| Item::Unset },
            stuck: false,
        };
        assert(self.ready(k, s));
        let t = choose|t: Block| #[trigger] self.served(k, w, limit, good, s, t);
        reveal(advances);
    }
}

/// A loop advances by its rounds.
pub proof fn lemma_advance_loop(
    k: RawView,
    w: Place,
    from: nat,
    last: nat,
    s: Block,
    index: ValueId,
    end: ValueId,
    by: ValueId,
)
    requires
        !s.stuck,
        quiet(k, s),
        from < last,
        k.ops[from as int] == (Op::ForLoopBegin { index, end, step: by }),
        k.ops[last as int] == Op::EndScope,
        passes(k, from + 1, last),
    ensures
        ({
            let count = first_int(k, w, s, end) - first_int(k, w, s, index);
            advances(
                k,
                w,
                from,
                last + 1,
                s,
                rounds(k, w, from, last, index, end, by, s, if count > 0 {
                    count as nat
                } else {
                    0
                }),
            )
        }),
{
    reveal(advances);
    let count = first_int(k, w, s, end) - first_int(k, w, s, index);
    let t = rounds(k, w, from, last, index, end, by, s, if count > 0 {
        count as nat
    } else {
        0
    });
    assert forall|to: nat| to >= last + 1 implies #[trigger] run(k, w, from, to, s) == run(
        k,
        w,
        last + 1,
        to,
        t,
    ) by {
        assert(scope_end(k.ops, from + 1, to, 0) == scope_end(k.ops, last, to, 0));
        lemma_run_loop(k, w, from, to, s, last);
    }
    assert forall|to: nat, depth: nat| to >= last + 1 implies #[trigger] scope_end(
        k.ops,
        from,
        to,
        depth,
    ) == scope_end(k.ops, last + 1, to, depth) by {
        assert(scope_end(k.ops, from, to, depth) == scope_end(k.ops, from + 1, to, depth + 1));
        assert(scope_end(k.ops, from + 1, to, depth + 1) == scope_end(
            k.ops,
            last,
            to,
            depth + 1,
        ));
    }
}

/// A definition by a load from a shared buffer sets one variable.
proof fn lemma_load_shared(
    k: RawView,
    w: Place,
    s: Block,
    at: nat,
    id: ValueId,
    mem: SharedId,
    index: ValueId,
    f: spec_fn(int, int) -> Item,
) -> (t: Block)
    requires
        !s.stuck,
        quiet(k, s),
        k.ops[at as int] == (Op::DefineVar { id }),
        k.values[id as int] == float(ValueState::Immut, Op::SharedLoad { mem, index }),
        forall|r: int, c: int| #[trigger]
            thread(k, r, c) ==> shared_item(s, mem, item(k, w, s, r, c, index)) == f(r, c),
    ensures
        advances(k, w, at, at + 1, s, t),
        t.stuck == s.stuck,
        forall|r: int, c: int| #[trigger] stores(t, r, c) == stores(s, r, c),
        forall|r: int, c: int, v: ValueId|
            v != id ==> #[trigger] var(t, r, c, v) == var(s, r, c, v),
        forall|r: int, c: int| #[trigger] thread(k, r, c) ==> var(t, r, c, id) == f(r, c),
        t.tiles == with_tile(s, mem, loaded((s.tiles)(mem))).tiles,
        quiet(k, t),
{
    lemma_advance_step(k, w, at, s);
    next(k, w, s, at)
}

/// An assignment by every thread sets one variable.
pub proof fn lemma_with_var(k: RawView, s: Block, id: ValueId, f: spec_fn(int, int) -> Item)
    requires
        quiet(k, s),
    ensures
        set_one(k, s, with_var(s, id, f), id, f),
{
}

/// A product in a kernel: where its values and operations start, where those start that follow each
/// of its factors, and what it works with.
pub struct Code {
    pub first: nat,
    pub start: nat,
    pub mid_value: nat,
    pub mid_op: nat,
    pub late_value: nat,
    pub late_op: nat,
    pub local_row: ValueId,
    pub local_col: ValueId,
    pub tile_size: ValueId,
    pub base: ValueId,
    pub e: Extent,
    pub a_tile: SharedId,
    pub b_tile: SharedId,
    pub swap_a: bool,
    pub swap_b: bool,
    pub out: ValueId,
    pub a_element: spec_fn(int) -> Expr,
    pub b_element: spec_fn(int) -> Expr,
    pub a_kept: spec_fn(Seq<Write>, int) -> bool,
    pub b_kept: spec_fn(Seq<Write>, int) -> bool,
    pub good: spec_fn(Write) -> bool,
}

impl Code {
    /// One of the values before the first factor.
    pub open spec fn id(self, i: int) -> ValueId {
        (self.first + i) as usize
    }

    /// One of the values between the factors.
    pub open spec fn mid(self, i: int) -> ValueId {
        (self.mid_value + i) as usize
    }

    /// One of the values after the second factor.
    pub open spec fn late(self, i: int) -> ValueId {
        (self.late_value + i) as usize
    }

    /// The first factor.
    pub open spec fn a_factor(self) -> Factor {
        Factor {
            from: self.start + 11,
            to: self.mid_op,
            index: self.id(8),
            out: self.id(9),
            element: self.a_element,
            kept: self.a_kept,
        }
    }

    /// The second factor.
    pub open spec fn b_factor(self) -> Factor {
        Factor {
            from: self.mid_op + 5,
            to: self.late_op,
            index: self.mid(2),
            out: self.mid(3),
            element: self.b_element,
            kept: self.b_kept,
        }
    }

    /// Whether a kernel holds what comes before the rounds over the tiles.
    pub open spec fn heads(self, k: RawView) -> bool {
        let v = self.first as int;
        let p = self.start as int;
        &&& k.values[v] == unsigned(ValueState::Inline, Op::ConstU32 { value: 1 })
        &&& k.values[v + 1] == unsigned(ValueState::Mut, Op::ConstU32 { value: 0 })
        &&& k.values[v + 2] == unsigned(
            ValueState::Inline,
            Op::Mul { a: self.local_row, b: self.tile_size },
        )
        &&& k.values[v + 3] == unsigned(
            ValueState::Mut,
            Op::Add { a: self.id(2), b: self.local_col },
        )
        &&& k.ops[p] == (Op::DefineVar { id: self.id(0) })
        &&& k.ops[p + 1] == (Op::DefineVar { id: self.id(1) })
        &&& k.ops[p + 2] == (Op::DefineVar { id: self.id(2) })
        &&& k.ops[p + 3] == (Op::DefineVar { id: self.id(3) })
        &&& k.ops[p + 4] == (Op::ForLoopBegin {
            index: self.id(1),
            end: self.e.k,
            step: self.tile_size,
        })
    }

    /// Whether a kernel holds what finds the elements of the first factor.
    pub open spec fn locates_a(self, k: RawView) -> bool {
        let v = self.first as int;
        let p = self.start as int;
        &&& k.values[v + 4] == unsigned(
            ValueState::Immut,
            Op::Add { a: self.id(1), b: self.local_col },
        )
        &&& k.values[v + 5] == unsigned(
            ValueState::Immut,
            Op::Add { a: self.id(1), b: self.local_row },
        )
        &&& k.values[v + 6] == unsigned(
            ValueState::Inline,
            if self.swap_a {
                Op::Mul { a: self.id(4), b: self.e.m }
            } else {
                Op::Mul { a: self.e.row, b: self.e.k }
            },
        )
        &&& k.values[v + 7] == unsigned(
            ValueState::Inline,
            Op::Add {
                a: self.id(6),
                b: if self.swap_a {
                    self.e.row
                } else {
                    self.id(4)
                },
            },
        )
        &&& k.values[v + 8] == unsigned(ValueState::Immut, Op::Add { a: self.id(7), b: self.base })
        &&& k.values[v + 9] == float(ValueState::Mut, zero())
        &&& k.ops[p + 5] == (Op::DefineVar { id: self.id(4) })
        &&& k.ops[p + 6] == (Op::DefineVar { id: self.id(5) })
        &&& k.ops[p + 7] == (Op::DefineVar { id: self.id(6) })
        &&& k.ops[p + 8] == (Op::DefineVar { id: self.id(7) })
        &&& k.ops[p + 9] == (Op::DefineVar { id: self.id(8) })
        &&& k.ops[p + 10] == (Op::DefineVar { id: self.id(9) })
    }

    /// Whether a kernel holds what stores the elements of the first factor to their tile.
    pub open spec fn stores_a(self, k: RawView) -> bool {
        k.ops[self.mid_op as int] == (Op::SharedStore {
            mem: self.a_tile,
            index: self.id(3),
            value: self.id(9),
        })
    }

    /// Whether a kernel holds what brings the elements of the first factor into their tile.
    pub open spec fn fetches_a(self, k: RawView) -> bool {
        self.locates_a(k) && self.stores_a(k)
    }

    /// Whether a kernel holds what finds the elements of the second factor.
    pub open spec fn locates_b(self, k: RawView) -> bool {
        let v = self.mid_value as int;
        let p = self.mid_op as int;
        &&& k.values[v] == unsigned(
            ValueState::Inline,
            if self.swap_b {
                Op::Mul { a: self.e.col, b: self.e.k }
            } else {
                Op::Mul { a: self.id(5), b: self.e.n }
            },
        )
        &&& k.values[v + 1] == unsigned(
            ValueState::Inline,
            Op::Add {
                a: self.mid(0),
                b: if self.swap_b {
                    self.id(5)
                } else {
                    self.e.col
                },
            },
        )
        &&& k.values[v + 2] == unsigned(ValueState::Immut, Op::Add { a: self.mid(1), b: self.base })
        &&& k.values[v + 3] == float(ValueState::Mut, zero())
        &&& k.ops[p + 1] == (Op::DefineVar { id: self.mid(0) })
        &&& k.ops[p + 2] == (Op::DefineVar { id: self.mid(1) })
        &&& k.ops[p + 3] == (Op::DefineVar { id: self.mid(2) })
        &&& k.ops[p + 4] == (Op::DefineVar { id: self.mid(3) })
    }

    /// Whether a kernel holds what brings the elements of the second factor into their tile, and
    /// waits for all of them.
    pub open spec fn fetches_b(self, k: RawView) -> bool {
        &&& self.locates_b(k)
        &&& k.ops[self.late_op as int] == (Op::SharedStore {
            mem: self.b_tile,
            index: self.id(3),
            value: self.mid(3),
        })
        &&& k.ops[(self.late_op + 1) as int] == Op::Barrier
    }

    /// Whether a kernel holds what adds the product of the tiles.
    pub open spec fn multiplies(self, k: RawView) -> bool {
        let v = self.late_value as int;
        let p = self.late_op as int;
        &&& k.values[v] == unsigned(ValueState::Mut, Op::ConstU32 { value: 0 })
        &&& k.values[v + 1] == unsigned(
            ValueState::Inline,
            Op::Mul { a: self.local_row, b: self.tile_size },
        )
        &&& k.values[v + 2] == unsigned(ValueState::Immut, Op::Add { a: self.late(1), b: self.late(0) })
        &&& k.values[v + 3] == float(
            ValueState::Immut,
            Op::SharedLoad { mem: self.a_tile, index: self.late(2) },
        )
        &&& k.values[v + 4] == unsigned(
            ValueState::Inline,
            Op::Mul { a: self.late(0), b: self.tile_size },
        )
        &&& k.values[v + 5] == unsigned(
            ValueState::Immut,
            Op::Add { a: self.late(4), b: self.local_col },
        )
        &&& k.values[v + 6] == float(
            ValueState::Immut,
            Op::SharedLoad { mem: self.b_tile, index: self.late(5) },
        )
        &&& k.ops[p + 2] == (Op::DefineVar { id: self.late(0) })
        &&& k.ops[p + 3] == (Op::ForLoopBegin {
            index: self.late(0),
            end: self.tile_size,
            step: self.id(0),
        })
        &&& k.ops[p + 4] == (Op::DefineVar { id: self.late(1) })
        &&& k.ops[p + 5] == (Op::DefineVar { id: self.late(2) })
        &&& k.ops[p + 6] == (Op::DefineVar { id: self.late(3) })
        &&& k.ops[p + 7] == (Op::DefineVar { id: self.late(4) })
        &&& k.ops[p + 8] == (Op::DefineVar { id: self.late(5) })
        &&& k.ops[p + 9] == (Op::DefineVar { id: self.late(6) })
        &&& k.ops[p + 10] == (Op::OverwriteVar {
            id: self.out,
            val: Box::new(Op::Fma { a: self.late(3), b: self.late(6), c: self.out }),
        })
        &&& k.ops[p + 11] == Op::EndScope
        &&& k.ops[p + 12] == Op::Barrier
        &&& k.ops[p + 13] == Op::EndScope
    }

    /// Whether a value comes before the product, and is not written wherever it is read.
    pub open spec fn given(self, k: RawView, id: ValueId) -> bool {
        id < self.first && !inlined(k.values[id as int])
    }

    /// Whether a kernel holds the product, and the values that it works with.
    pub open spec fn written(self, k: RawView) -> bool {
        &&& self.first + 10 <= self.mid_value
        &&& self.mid_value + 4 <= self.late_value
        &&& self.late_value + 7 <= usize::MAX
        &&& self.start + 11 <= self.mid_op
        &&& self.mid_op + 5 <= self.late_op
        &&& self.heads(k)
        &&& self.fetches_a(k)
        &&& self.fetches_b(k)
        &&& self.multiplies(k)
        &&& self.given(k, self.local_row) && self.local_row != self.out
        &&& self.given(k, self.local_col) && self.local_col != self.out
        &&& self.given(k, self.tile_size) && self.tile_size != self.out
        &&& self.given(k, self.base) && self.base != self.out
        &&& self.given(k, self.e.m) && self.e.m != self.out
        &&& self.given(k, self.e.n) && self.e.n != self.out
        &&& self.given(k, self.e.k) && self.e.k != self.out
        &&& self.given(k, self.e.row) && self.e.row != self.out
        &&& self.given(k, self.e.col) && self.e.col != self.out
        &&& self.given(k, self.out)
        &&& self.a_tile != self.b_tile
    }
}

/// The sizes of a product, and where in the result and in the factors a block works.
pub struct Size {
    pub tile: int,
    pub m: int,
    pub n: int,
    pub k: int,
    pub row: int,
    pub col: int,
    pub base: int,
}

impl Size {
    /// Whether the sizes are multiples of the tile, the block lies in the result, and the places in
    /// the factors are unsigned integers.
    pub open spec fn fits(self) -> bool {
        &&& 1 <= self.tile && self.tile * self.tile <= u32::MAX
        &&& 0 <= self.k && self.k % self.tile == 0
        &&& self.k + self.tile <= u32::MAX
        &&& 0 <= self.row && self.row + self.tile <= self.m
        &&& 0 <= self.col && self.col + self.tile <= self.n
        &&& 0 <= self.base
        &&& self.m * self.k + self.base <= u32::MAX
        &&& self.k * self.n + self.base <= u32::MAX
        &&& self.m * self.n <= u32::MAX
        &&& self.m <= u32::MAX
        &&& self.n <= u32::MAX
    }
}

/// Where in the first factor an element lies. The factor may be read transposed.
pub open spec fn a_place(swap: bool, z: Size, row: int, t: int) -> int {
    if swap {
        t * z.m + row + z.base
    } else {
        row * z.k + t + z.base
    }
}

/// Where in the second factor an element lies. The factor may be read transposed.
pub open spec fn b_place(swap: bool, z: Size, t: int, col: int) -> int {
    if swap {
        col * z.k + t + z.base
    } else {
        t * z.n + col + z.base
    }
}

impl Code {
    /// An element of the first factor.
    pub open spec fn a_at(self, z: Size, row: int, t: int) -> Expr {
        (self.a_element)(a_place(self.swap_a, z, row, t))
    }

    /// An element of the second factor.
    pub open spec fn b_at(self, z: Size, t: int, col: int) -> Expr {
        (self.b_element)(b_place(self.swap_b, z, t, col))
    }

    /// The first terms of an element of the product, each multiplied and added to those before it.
    pub open spec fn folded(self, z: Size, init: Expr, row: int, col: int, count: nat) -> Expr
        decreases count,
    {
        if count == 0 {
            init
        } else {
            let t = count - 1;
            fused(
                self.a_at(z, row, t),
                self.b_at(z, t, col),
                self.folded(z, init, row, col, (count - 1) as nat),
            )
        }
    }

    /// Whether a block holds the values that the product works with.
    pub open spec fn grounded(self, k: RawView, s: Block, z: Size) -> bool {
        &&& !s.stuck
        &&& quiet(k, s)
        &&& k.block[0] == z.tile && k.block[1] == z.tile
        &&& forall|r: int, c: int| #[trigger]
            thread(k, r, c) ==> {
                &&& var(s, r, c, self.local_row) == Item::Int(r)
                &&& var(s, r, c, self.local_col) == Item::Int(c)
                &&& var(s, r, c, self.tile_size) == Item::Int(z.tile)
                &&& var(s, r, c, self.base) == Item::Int(z.base)
                &&& var(s, r, c, self.e.m) == Item::Int(z.m)
                &&& var(s, r, c, self.e.n) == Item::Int(z.n)
                &&& var(s, r, c, self.e.k) == Item::Int(z.k)
                &&& var(s, r, c, self.e.row) == Item::Int(z.row + r)
                &&& var(s, r, c, self.e.col) == Item::Int(z.col + c)
            }
    }

    /// Whether all the threads hold their share of the product up to some term.
    pub open spec fn reached(
        self,
        k: RawView,
        s: Block,
        z: Size,
        init: spec_fn(int, int) -> Expr,
        count: nat,
    ) -> bool {
        forall|r: int, c: int| #[trigger]
            thread(k, r, c) ==> var(s, r, c, self.out) == Item::Real(
                self.folded(z, init(r, c), z.row + r, z.col + c, count),
            )
    }

    /// Whether the threads are in a round over the tiles.
    pub open spec fn rolling(self, k: RawView, s: Block, z: Size, k0: int) -> bool {
        forall|r: int, c: int| #[trigger]
            thread(k, r, c) ==> var(s, r, c, self.id(1)) == Item::Int(k0) && var(
                s,
                r,
                c,
                self.id(3),
            ) == Item::Int(r * z.tile + c)
    }

    /// Whether a shared buffer can be loaded from.
    pub open spec fn loadable(self, s: Block, mem: SharedId) -> bool {
        (s.tiles)(mem).phase is Idle || (s.tiles)(mem).phase is Loaded
    }

    /// Whether the tiles hold the elements of the factors from some term on.
    pub open spec fn filled(self, k: RawView, s: Block, z: Size, k0: int) -> bool {
        &&& self.loadable(s, self.a_tile)
        &&& self.loadable(s, self.b_tile)
        &&& forall|r: int, c: int| #[trigger]
            thread(k, r, c) ==> {
                &&& ((s.tiles)(self.a_tile).cells)(r * z.tile + c) == Item::Real(
                    self.a_at(z, z.row + r, k0 + c),
                )
                &&& ((s.tiles)(self.b_tile).cells)(r * z.tile + c) == Item::Real(
                    self.b_at(z, k0 + r, z.col + c),
                )
            }
    }

    /// Whether each thread has kept what it brought of the factors up to some term.
    pub open spec fn kept(self, k: RawView, s: Block, z: Size, count: int) -> bool {
        forall|r: int, c: int, t: int|
            #![trigger thread(k, r, c), a_place(self.swap_a, z, z.row + r, t)]
            #![trigger thread(k, r, c), b_place(self.swap_b, z, t, z.col + c)]
            thread(k, r, c) && 0 <= t < count ==> {
                &&& t % z.tile == c ==> (self.a_kept)(
                    stores(s, r, c),
                    a_place(self.swap_a, z, z.row + r, t),
                )
                &&& t % z.tile == r ==> (self.b_kept)(
                    stores(s, r, c),
                    b_place(self.swap_b, z, t, z.col + c),
                )
            }
    }
}

impl Code {
    /// A block holds what the product works with as long as only its own values change.
    proof fn lemma_grounded(self, k: RawView, s: Block, t: Block, z: Size, limit: nat, out: ValueId)
        requires
            self.written(k),
            self.grounded(k, s, z),
            framed_by(k, s, t, limit, out),
            limit >= self.first,
            out >= self.first || out == self.out,
            !t.stuck,
            quiet(k, t),
        ensures
            self.grounded(k, t, z),
    {
        assert forall|r: int, c: int| #[trigger] thread(k, r, c) implies {
            &&& var(t, r, c, self.local_row) == Item::Int(r)
            &&& var(t, r, c, self.local_col) == Item::Int(c)
            &&& var(t, r, c, self.tile_size) == Item::Int(z.tile)
            &&& var(t, r, c, self.base) == Item::Int(z.base)
            &&& var(t, r, c, self.e.m) == Item::Int(z.m)
            &&& var(t, r, c, self.e.n) == Item::Int(z.n)
            &&& var(t, r, c, self.e.k) == Item::Int(z.k)
            &&& var(t, r, c, self.e.row) == Item::Int(z.row + r)
            &&& var(t, r, c, self.e.col) == Item::Int(z.col + c)
        } by {
            assert(var(t, r, c, self.local_row) == var(s, r, c, self.local_row));
        }
    }
}

proof fn lemma_add(k: RawView, w: Place, s: Block, r: int, c: int, a: ValueId, b: ValueId, bound: nat)
    requires
        a < bound,
        b < bound,
    ensures
        result(k, w, s, r, c, Op::Add { a, b }, bound) == sum(
            item(k, w, s, r, c, a),
            item(k, w, s, r, c, b),
        ),
{
}

proof fn lemma_mul(k: RawView, w: Place, s: Block, r: int, c: int, a: ValueId, b: ValueId, bound: nat)
    requires
        a < bound,
        b < bound,
    ensures
        result(k, w, s, r, c, Op::Mul { a, b }, bound) == scaled(
            item(k, w, s, r, c, a),
            item(k, w, s, r, c, b),
        ),
{
}

proof fn lemma_read(k: RawView, w: Place, s: Block, r: int, c: int, id: ValueId)
    ensures
        inlined(k.values[id as int]) ==> item(k, w, s, r, c, id) == result(
            k,
            w,
            s,
            r,
            c,
            k.values[id as int].init->0,
            id as nat,
        ),
        !inlined(k.values[id as int]) ==> item(k, w, s, r, c, id) == var(s, r, c, id),
{
}

/// A place in a tile is an unsigned integer.
proof fn lemma_cell(tile: int, r: int, c: int)
    requires
        0 <= r < tile,
        0 <= c < tile,
        tile * tile <= u32::MAX,
    ensures
        0 <= r * tile,
        r * tile + c <= u32::MAX,
{
    assert(0 <= r * tile && r * tile + c <= tile * tile) by (nonlinear_arith)
        requires
            0 <= r < tile,
            0 <= c < tile,
    ;
}

impl Code {
    /// One term of the product of the tiles.
    #[verifier::rlimit(40)]
    #[verifier::spinoff_prover]
    proof fn lemma_term(
        self,
        k: RawView,
        w: Place,
        s: Block,
        z: Size,
        init: spec_fn(int, int) -> Expr,
        k0: nat,
        j: nat,
    ) -> (t: Block)
        requires
            self.written(k),
            z.fits(),
            self.grounded(k, s, z),
            self.reached(k, s, z, init, k0 + j),
            self.filled(k, s, z, k0 as int),
            j < z.tile,
            forall|r: int, c: int| #[trigger]
                thread(k, r, c) ==> var(s, r, c, self.late(0)) == Item::Int(j as int),
        ensures
            advances(k, w, self.late_op + 4, self.late_op + 11, s, t),
            !t.stuck,
            quiet(k, t),
            framed_by(k, s, t, self.late_value + 1, self.out),
            forall|r: int, c: int| #[trigger] stores(t, r, c) == stores(s, r, c),
            self.reached(k, t, z, init, k0 + j + 1),
            self.filled(k, t, z, k0 as int),
            forall|m: SharedId|
                !((#[trigger] (t.tiles)(m)).phase is Torn) || (s.tiles)(m).phase is Torn,
    {
        let p = self.late_op;
        lemma_name(k, w, s, p + 4, self.late(1));
        let a_cell = |r: int, c: int| Item::Int(r * z.tile + j);
        assert forall|r: int, c: int| #[trigger] thread(k, r, c) implies result(
            k,
            w,
            s,
            r,
            c,
            Op::Add { a: self.late(1), b: self.late(0) },
            self.late(2) as nat,
        ) == a_cell(r, c) by {
            lemma_cell(z.tile, r, j as int);
            lemma_read(k, w, s, r, c, self.late(1));
            lemma_read(k, w, s, r, c, self.late(0));
            lemma_read(k, w, s, r, c, self.local_row);
            lemma_read(k, w, s, r, c, self.tile_size);
            lemma_mul(k, w, s, r, c, self.local_row, self.tile_size, self.late(1) as nat);
            lemma_add(k, w, s, r, c, self.late(1), self.late(0), self.late(2) as nat);
        }
        let s1 = lemma_define(k, w, s, p + 5, self.late(2), a_cell);
        lemma_advance_on(k, w, p + 4, p + 5, p + 6, s, s, s1);
        let a_val = |r: int, c: int| Item::Real(self.a_at(z, z.row + r, (k0 + j) as int));
        assert forall|r: int, c: int| #[trigger] thread(k, r, c) implies shared_item(
            s1,
            self.a_tile,
            item(k, w, s1, r, c, self.late(2)),
        ) == a_val(r, c) by {
            assert(thread(k, r, j as int));
            lemma_read(k, w, s1, r, c, self.late(2));
        }
        let s2 = lemma_load_shared(
            k,
            w,
            s1,
            p + 6,
            self.late(3),
            self.a_tile,
            self.late(2),
            a_val,
        );
        lemma_advance_on(k, w, p + 4, p + 6, p + 7, s, s1, s2);
        lemma_name(k, w, s2, p + 7, self.late(4));
        lemma_advance_on(k, w, p + 4, p + 7, p + 8, s, s2, s2);
        let b_cell = |r: int, c: int| Item::Int(j * z.tile + c);
        self.lemma_b_cell(k, w, s, s1, s2, z, j);
        let s3 = lemma_define(k, w, s2, p + 8, self.late(5), b_cell);
        lemma_advance_on(k, w, p + 4, p + 8, p + 9, s, s2, s3);
        let b_val = |r: int, c: int| Item::Real(self.b_at(z, (k0 + j) as int, z.col + c));
        assert forall|r: int, c: int| #[trigger] thread(k, r, c) implies shared_item(
            s3,
            self.b_tile,
            item(k, w, s3, r, c, self.late(5)),
        ) == b_val(r, c) by {
            assert(thread(k, j as int, c));
            lemma_read(k, w, s3, r, c, self.late(5));
        }
        let s4 = lemma_load_shared(
            k,
            w,
            s3,
            p + 9,
            self.late(6),
            self.b_tile,
            self.late(5),
            b_val,
        );
        lemma_advance_on(k, w, p + 4, p + 9, p + 10, s, s3, s4);
        let total = |r: int, c: int|
            Item::Real(self.folded(z, init(r, c), z.row + r, z.col + c, k0 + j + 1));
        let fma = Op::Fma { a: self.late(3), b: self.late(6), c: self.out };
        assert forall|r: int, c: int| #[trigger] thread(k, r, c) implies result(
            k,
            w,
            s4,
            r,
            c,
            fma,
            any(),
        ) == total(r, c) by {
            lemma_read(k, w, s4, r, c, self.late(3));
            lemma_read(k, w, s4, r, c, self.late(6));
            lemma_read(k, w, s4, r, c, self.out);
            assert(var(s4, r, c, self.late(3)) == var(s2, r, c, self.late(3)));
            assert(var(s4, r, c, self.out) == var(s, r, c, self.out));
        }
        let s5 = lemma_assign(k, w, s4, p + 10, self.out, fma, total);
        lemma_advance_on(k, w, p + 4, p + 10, p + 11, s, s4, s5);
        s5
    }

    proof fn lemma_b_cell(
        self,
        k: RawView,
        w: Place,
        s: Block,
        s1: Block,
        s2: Block,
        z: Size,
        j: nat,
    )
        requires
            self.written(k),
            z.fits(),
            self.grounded(k, s, z),
            j < z.tile,
            forall|r: int, c: int| #[trigger]
                thread(k, r, c) ==> var(s, r, c, self.late(0)) == Item::Int(j as int),
            forall|r: int, c: int, v: ValueId|
                v < self.late_value + 1 ==> #[trigger] var(s1, r, c, v) == var(s, r, c, v),
            forall|r: int, c: int, v: ValueId|
                v < self.late_value + 1 ==> #[trigger] var(s2, r, c, v) == var(s1, r, c, v),
        ensures
            forall|r: int, c: int| #[trigger]
                thread(k, r, c) ==> result(
                    k,
                    w,
                    s2,
                    r,
                    c,
                    Op::Add { a: self.late(4), b: self.local_col },
                    self.late(5) as nat,
                ) == Item::Int(j * z.tile + c),
    {
        assert forall|r: int, c: int| #[trigger] thread(k, r, c) implies result(
            k,
            w,
            s2,
            r,
            c,
            Op::Add { a: self.late(4), b: self.local_col },
            self.late(5) as nat,
        ) == Item::Int(j * z.tile + c) by {
            lemma_cell(z.tile, j as int, c);
            lemma_read(k, w, s2, r, c, self.late(4));
            lemma_read(k, w, s2, r, c, self.late(0));
            lemma_read(k, w, s2, r, c, self.local_col);
            lemma_read(k, w, s2, r, c, self.tile_size);
            lemma_mul(k, w, s2, r, c, self.late(0), self.tile_size, self.late(4) as nat);
            lemma_add(k, w, s2, r, c, self.late(4), self.local_col, self.late(5) as nat);
        }
    }
}

/// The steps of a tile up to some term.
proof fn lemma_tile_end(tile: int, k: int, k0: int)
    requires
        1 <= tile,
        0 <= k0 < k,
        k % tile == 0,
        k0 % tile == 0,
    ensures
        k0 + tile <= k,
        (k0 + tile) % tile == 0,
{
    assert(k0 + tile <= k && (k0 + tile) % tile == 0) by (nonlinear_arith)
        requires
            1 <= tile,
            0 <= k0 < k,
            k % tile == 0,
            k0 % tile == 0,
    {
        let a = k / tile;
        let b = k0 / tile;
        assert(k == a * tile);
        assert(k0 == b * tile);
        assert(b < a);
        assert((b + 1) * tile <= a * tile);
        assert((b + 1) * tile == k0 + tile);
        assert(((b + 1) * tile) % tile == 0);
    }
}

/// Where an element of the first factor lies is an unsigned integer.
proof fn lemma_a_place(swap: bool, z: Size, row: int, t: int)
    requires
        z.fits(),
        0 <= row < z.m,
        0 <= t < z.k,
    ensures
        swap ==> 0 <= t * z.m && t * z.m + row + z.base <= u32::MAX,
        !swap ==> 0 <= row * z.k && row * z.k + t + z.base <= u32::MAX,
        0 <= a_place(swap, z, row, t) <= u32::MAX,
{
    let m = z.m;
    let k = z.k;
    assert(0 <= t * m && t * m + row <= m * k) by (nonlinear_arith)
        requires
            0 <= row < m,
            0 <= t < k,
    ;
    assert(0 <= row * k && row * k + t <= m * k) by (nonlinear_arith)
        requires
            0 <= row < m,
            0 <= t < k,
    ;
}

/// Where an element of the second factor lies is an unsigned integer.
proof fn lemma_b_place(swap: bool, z: Size, t: int, col: int)
    requires
        z.fits(),
        0 <= col < z.n,
        0 <= t < z.k,
    ensures
        swap ==> 0 <= col * z.k && col * z.k + t + z.base <= u32::MAX,
        !swap ==> 0 <= t * z.n && t * z.n + col + z.base <= u32::MAX,
        0 <= b_place(swap, z, t, col) <= u32::MAX,
{
    let n = z.n;
    let k = z.k;
    assert(0 <= t * n && t * n + col <= k * n) by (nonlinear_arith)
        requires
            0 <= col < n,
            0 <= t < k,
    ;
    assert(0 <= col * k && col * k + t <= k * n) by (nonlinear_arith)
        requires
            0 <= col < n,
            0 <= t < k,
    ;
}

/// The index that is a product of two values, plus a third, plus an offset.
proof fn lemma_flat_index(
    k: RawView,
    w: Place,
    s: Block,
    r: int,
    c: int,
    ids: (ValueId, ValueId, ValueId),
    given: (ValueId, ValueId, ValueId, ValueId),
    x: (int, int, int, int),
)
    requires
        k.values[ids.0 as int] == unsigned(
            ValueState::Inline,
            Op::Mul { a: given.0, b: given.1 },
        ),
        k.values[ids.1 as int] == unsigned(ValueState::Inline, Op::Add { a: ids.0, b: given.2 }),
        given.0 < ids.0 && given.1 < ids.0 && ids.0 < ids.1 && given.2 < ids.1 && ids.1 < ids.2
            && given.3 < ids.2,
        !inlined(k.values[given.0 as int]) && var(s, r, c, given.0) == Item::Int(x.0),
        !inlined(k.values[given.1 as int]) && var(s, r, c, given.1) == Item::Int(x.1),
        !inlined(k.values[given.2 as int]) && var(s, r, c, given.2) == Item::Int(x.2),
        !inlined(k.values[given.3 as int]) && var(s, r, c, given.3) == Item::Int(x.3),
        0 <= x.0 * x.1 && 0 <= x.2 && 0 <= x.3,
        x.0 * x.1 + x.2 + x.3 <= u32::MAX,
    ensures
        result(k, w, s, r, c, Op::Add { a: ids.1, b: given.3 }, ids.2 as nat) == Item::Int(
            x.0 * x.1 + x.2 + x.3,
        ),
{
    assert(item(k, w, s, r, c, ids.0) == Item::Int(x.0 * x.1)) by {
        lemma_read(k, w, s, r, c, ids.0);
        lemma_mul(k, w, s, r, c, given.0, given.1, ids.0 as nat);
        lemma_read(k, w, s, r, c, given.0);
        lemma_read(k, w, s, r, c, given.1);
    }
    assert(item(k, w, s, r, c, ids.1) == Item::Int(x.0 * x.1 + x.2)) by {
        lemma_read(k, w, s, r, c, ids.1);
        lemma_add(k, w, s, r, c, ids.0, given.2, ids.1 as nat);
        lemma_read(k, w, s, r, c, given.2);
    }
    lemma_add(k, w, s, r, c, ids.1, given.3, ids.2 as nat);
    lemma_read(k, w, s, r, c, given.3);
}

/// The remainder of a term is its place in the tile.
proof fn lemma_place_in_tile(tile: int, k0: int, t: int)
    requires
        1 <= tile,
        0 <= k0,
        k0 % tile == 0,
        k0 <= t < k0 + tile,
    ensures
        t % tile == t - k0,
{
    assert(t % tile == t - k0) by (nonlinear_arith)
        requires
            1 <= tile,
            0 <= k0,
            k0 % tile == 0,
            k0 <= t < k0 + tile,
    {
        let a = k0 / tile;
        assert(k0 == a * tile);
        assert(t == a * tile + (t - k0));
    }
}

impl Code {
    /// The terms of the product of the tiles.
    proof fn lemma_terms(
        self,
        k: RawView,
        w: Place,
        s: Block,
        z: Size,
        init: spec_fn(int, int) -> Expr,
        k0: nat,
        j: nat,
    ) -> (t: Block)
        requires
            self.written(k),
            z.fits(),
            self.grounded(k, s, z),
            self.reached(k, s, z, init, k0 + j),
            self.filled(k, s, z, k0 as int),
            j <= z.tile,
            forall|r: int, c: int| #[trigger]
                thread(k, r, c) ==> var(s, r, c, self.late(0)) == Item::Int(j as int),
        ensures
            t == rounds(
                k,
                w,
                self.late_op + 3,
                self.late_op + 11,
                self.late(0),
                self.tile_size,
                self.id(0),
                s,
                (z.tile - j) as nat,
            ),
            !t.stuck,
            quiet(k, t),
            framed_by(k, s, t, self.late_value, self.out),
            forall|r: int, c: int| #[trigger]
                thread(k, r, c) ==> stores(t, r, c) == stores(s, r, c),
            self.reached(k, t, z, init, (k0 + z.tile) as nat),
            self.filled(k, t, z, k0 as int),
            forall|m: SharedId|
                !((#[trigger] (t.tiles)(m)).phase is Torn) || (s.tiles)(m).phase is Torn,
        decreases z.tile - j,
    {
        reveal_with_fuel(rounds, 2);
        assert(z.tile <= u32::MAX) by {
            assert(z.tile <= z.tile * z.tile) by (nonlinear_arith)
                requires
                    1 <= z.tile,
            ;
        }
        assert(thread(k, 0, 0));
        assert forall|r: int, c: int| #[trigger] thread(k, r, c) implies item(
            k,
            w,
            s,
            r,
            c,
            self.late(0),
        ) == Item::Int(j as int) && item(k, w, s, r, c, self.tile_size) == Item::Int(z.tile) by {
            lemma_read(k, w, s, r, c, self.late(0));
            lemma_read(k, w, s, r, c, self.tile_size);
        }
        assert(uniform(k, w, s, self.late(0), j as int));
        assert(uniform(k, w, s, self.tile_size, z.tile));
        if j == z.tile {
            s
        } else {
            let t = self.lemma_term(k, w, s, z, init, k0, j);
            assert(run(k, w, self.late_op + 4, self.late_op + 11, s) == t) by {
                reveal(advances);
                lemma_run_done(k, w, self.late_op + 11, t);
            }
            let u = with_var(
                t,
                self.late(0),
                |r: int, c: int|
                    sum(var(t, r, c, self.late(0)), item(k, w, t, r, c, self.id(0))),
            );
            let by = |r: int, c: int|
                sum(var(t, r, c, self.late(0)), item(k, w, t, r, c, self.id(0)));
            lemma_with_var(k, t, self.late(0), by);
            assert(set_one(k, t, u, self.late(0), by));
            assert forall|r: int, c: int| #[trigger] thread(k, r, c) implies var(
                u,
                r,
                c,
                self.late(0),
            ) == Item::Int((j + 1) as int) by {
                lemma_read(k, w, t, r, c, self.id(0));
                assert(var(t, r, c, self.late(0)) == var(s, r, c, self.late(0)));
            }
            assert(framed_by(k, s, u, self.late_value, self.out));
            self.lemma_grounded(k, s, u, z, self.late_value, self.out);
            assert(self.reached(k, u, z, init, k0 + (j + 1)));
            assert(self.filled(k, u, z, k0 as int));
            self.lemma_terms(k, w, u, z, init, k0, j + 1)
        }
    }

    /// The steps that the threads are at in the factors.
    proof fn lemma_terms_at(self, k: RawView, w: Place, s: Block, z: Size, k0: nat) -> (t: Block)
        requires
            self.written(k),
            z.fits(),
            self.grounded(k, s, z),
            self.rolling(k, s, z, k0 as int),
            k0 + z.tile <= z.k,
        ensures
            advances(k, w, self.start + 5, self.start + 7, s, t),
            !t.stuck,
            quiet(k, t),
            framed_by(k, s, t, self.first + 4, self.id(4)),
            t.tiles == s.tiles,
            forall|r: int, c: int| #[trigger] stores(t, r, c) == stores(s, r, c),
            forall|r: int, c: int| #[trigger]
                thread(k, r, c) ==> var(t, r, c, self.id(4)) == Item::Int(k0 + c) && var(
                    t,
                    r,
                    c,
                    self.id(5),
                ) == Item::Int(k0 + r),
    {
        let p = self.start;
        let at_a = |r: int, c: int| Item::Int(k0 + c);
        assert forall|r: int, c: int| #[trigger] thread(k, r, c) implies result(
            k,
            w,
            s,
            r,
            c,
            Op::Add { a: self.id(1), b: self.local_col },
            self.id(4) as nat,
        ) == at_a(r, c) by {
            lemma_read(k, w, s, r, c, self.id(1));
            lemma_read(k, w, s, r, c, self.local_col);
            lemma_add(k, w, s, r, c, self.id(1), self.local_col, self.id(4) as nat);
        }
        let s1 = lemma_define(k, w, s, p + 5, self.id(4), at_a);
        let at_b = |r: int, c: int| Item::Int(k0 + r);
        assert forall|r: int, c: int| #[trigger] thread(k, r, c) implies result(
            k,
            w,
            s1,
            r,
            c,
            Op::Add { a: self.id(1), b: self.local_row },
            self.id(5) as nat,
        ) == at_b(r, c) by {
            lemma_read(k, w, s1, r, c, self.id(1));
            lemma_read(k, w, s1, r, c, self.local_row);
            lemma_add(k, w, s1, r, c, self.id(1), self.local_row, self.id(5) as nat);
        }
        let s2 = lemma_define(k, w, s1, p + 6, self.id(5), at_b);
        lemma_advance_on(k, w, p + 5, p + 6, p + 7, s, s1, s2);
        s2
    }

    /// The place in the first factor that a thread reads.
    proof fn lemma_a_index(
        self,
        k: RawView,
        w: Place,
        s: Block,
        z: Size,
        k0: nat,
        r: int,
        c: int,
    )
        requires
            self.written(k),
            z.fits(),
            self.grounded(k, s, z),
            thread(k, r, c),
            var(s, r, c, self.id(4)) == Item::Int(k0 + c),
            k0 + z.tile <= z.k,
        ensures
            result(k, w, s, r, c, Op::Add { a: self.id(7), b: self.base }, self.id(8) as nat)
                == Item::Int(a_place(self.swap_a, z, z.row + r, k0 + c)),
    {
        lemma_a_place(self.swap_a, z, z.row + r, k0 + c);
        let ids = (self.id(6), self.id(7), self.id(8));
        if self.swap_a {
            lemma_flat_index(
                k,
                w,
                s,
                r,
                c,
                ids,
                (self.id(4), self.e.m, self.e.row, self.base),
                (k0 + c, z.m, z.row + r, z.base),
            );
        } else {
            lemma_flat_index(
                k,
                w,
                s,
                r,
                c,
                ids,
                (self.e.row, self.e.k, self.id(4), self.base),
                (z.row + r, z.k, k0 + c, z.base),
            );
        }
    }

    /// The place in the second factor that a thread reads.
    proof fn lemma_b_index(
        self,
        k: RawView,
        w: Place,
        s: Block,
        z: Size,
        k0: nat,
        r: int,
        c: int,
    )
        requires
            self.written(k),
            z.fits(),
            self.grounded(k, s, z),
            thread(k, r, c),
            var(s, r, c, self.id(5)) == Item::Int(k0 + r),
            k0 + z.tile <= z.k,
        ensures
            result(k, w, s, r, c, Op::Add { a: self.mid(1), b: self.base }, self.mid(2) as nat)
                == Item::Int(b_place(self.swap_b, z, k0 + r, z.col + c)),
    {
        lemma_b_place(self.swap_b, z, k0 + r, z.col + c);
        let ids = (self.mid(0), self.mid(1), self.mid(2));
        if self.swap_b {
            lemma_flat_index(
                k,
                w,
                s,
                r,
                c,
                ids,
                (self.e.col, self.e.k, self.id(5), self.base),
                (z.col + c, z.k, k0 + r, z.base),
            );
        } else {
            lemma_flat_index(
                k,
                w,
                s,
                r,
                c,
                ids,
                (self.id(5), self.e.n, self.e.col, self.base),
                (k0 + r, z.n, z.col + c, z.base),
            );
        }
    }

    /// What brings the elements of the first factor into their tile.
    proof fn lemma_bring_a(self, k: RawView, w: Place, s: Block, z: Size, k0: nat) -> (t: Block)
        requires
            self.written(k),
            z.fits(),
            self.grounded(k, s, z),
            self.rolling(k, s, z, k0 as int),
            (s.tiles)(self.a_tile).phase is Idle,
            k0 + z.tile <= z.k,
            self.a_factor().serves(k, w, self.first + 10, self.good),
        ensures
            advances(k, w, self.start + 5, self.mid_op + 1, s, t),
            !t.stuck,
            quiet(k, t),
            framed_by(k, s, t, self.first + 4, self.id(4)),
            forall|r: int, c: int| #[trigger]
                thread(k, r, c) ==> var(t, r, c, self.id(5)) == Item::Int(k0 + r),
            stored_on(k, s, t, self.good),
            forall|r: int, c: int| #[trigger]
                thread(k, r, c) ==> (self.a_kept)(
                    stores(t, r, c),
                    a_place(self.swap_a, z, z.row + r, k0 + c),
                ),
            (t.tiles)(self.a_tile).phase is Stored,
            forall|m: SharedId|
                m != self.a_tile ==> #[trigger] (t.tiles)(m) == (s.tiles)(m),
            forall|r: int, c: int| #[trigger]
                thread(k, r, c) ==> ((t.tiles)(self.a_tile).cells)(r * z.tile + c) == Item::Real(
                    self.a_at(z, z.row + r, k0 + c),
                ),
    {
        let p = self.start;
        let s2 = self.lemma_terms_at(k, w, s, z, k0);
        lemma_name(k, w, s2, p + 7, self.id(6));
        lemma_advance_on(k, w, p + 5, p + 7, p + 8, s, s2, s2);
        lemma_name(k, w, s2, p + 8, self.id(7));
        lemma_advance_on(k, w, p + 5, p + 8, p + 9, s, s2, s2);
        let base = p + 9;
        let here = p + 5;
        let place = |r: int, c: int| Item::Int(a_place(self.swap_a, z, z.row + r, k0 + c));
        assert forall|r: int, c: int| #[trigger] thread(k, r, c) implies result(
            k,
            w,
            s2,
            r,
            c,
            Op::Add { a: self.id(7), b: self.base },
            self.id(8) as nat,
        ) == place(r, c) by {
            self.lemma_a_index(k, w, s2, z, k0, r, c);
        }
        let s3 = lemma_define(k, w, s2, base, self.id(8), place);
        lemma_advance_on(k, w, here, base, base + 1, s, s2, s3);
        let zeros = |r: int, c: int| Item::Real(num(ZERO_BITS));
        let s4 = lemma_define(k, w, s3, base + 1, self.id(9), zeros);
        lemma_advance_on(k, w, here, base + 1, base + 2, s, s3, s4);
        let fa = self.a_factor();
        assert forall|r: int, c: int| #[trigger] thread(k, r, c) implies var(s4, r, c, fa.out)
            == Item::Real(num(ZERO_BITS)) && var(s4, r, c, fa.index) == place(r, c) && (var(
            s4,
            r,
            c,
            fa.index,
        ) matches Item::Int(x) && 0 <= x <= u32::MAX) by {
            lemma_a_place(self.swap_a, z, z.row + r, k0 + c);
            assert(var(s4, r, c, fa.index) == var(s3, r, c, fa.index));
        }
        assert(fa.ready(k, s4));
        let s5 = choose|t: Block| #[trigger] fa.served(k, w, self.first + 10, self.good, s4, t);
        assert(fa.served(k, w, self.first + 10, self.good, s4, s5));
        lemma_advance_on(k, w, here, fa.from, fa.to, s, s4, s5);
        lemma_advance_step(k, w, fa.to, s5);
        let s6 = next(k, w, s5, fa.to);
        lemma_advance_on(k, w, here, fa.to, fa.to + 1, s, s5, s6);
        let index = |r: int, c: int| item(k, w, s5, r, c, self.id(3));
        let value = |r: int, c: int| item(k, w, s5, r, c, self.id(9));
        assert forall|r: int, c: int| #[trigger] thread(k, r, c) implies index(r, c) == Item::Int(
            r * k.block[0] + c,
        ) && value(r, c) == Item::Real(self.a_at(z, z.row + r, k0 + c)) by {
            lemma_read(k, w, s5, r, c, self.id(3));
            lemma_read(k, w, s5, r, c, self.id(9));
            assert(var(s5, r, c, self.id(3)) == var(s4, r, c, self.id(3)));
            assert(var(s4, r, c, fa.index) == place(r, c));
        }
        lemma_stored(k, (s5.tiles)(self.a_tile), index, value);
        assert forall|r: int, c: int| #[trigger] thread(k, r, c) implies stores(s4, r, c) == stores(
            s,
            r,
            c,
        ) by {
            assert(stores(s4, r, c) == stores(s3, r, c));
            assert(stores(s3, r, c) == stores(s2, r, c));
            assert(stores(s2, r, c) == stores(s, r, c));
        }
        lemma_stored_same(k, s, s4, self.good);
        lemma_stored_on(k, s, s4, s5, self.good);
        lemma_stored_same(k, s5, s6, self.good);
        lemma_stored_on(k, s, s5, s6, self.good);
        assert forall|r: int, c: int| #[trigger] thread(k, r, c) implies (self.a_kept)(
            stores(s6, r, c),
            a_place(self.swap_a, z, z.row + r, k0 + c),
        ) by {
            assert(stores(s6, r, c) == stores(s5, r, c));
            assert(var(s4, r, c, fa.index) == place(r, c));
        }
        assert forall|r: int, c: int, v: ValueId|
            thread(k, r, c) && v < self.first + 6 && v != self.id(4) implies #[trigger] var(s6, r, c, v)
            == var(s2, r, c, v) by {
            assert(var(s6, r, c, v) == var(s5, r, c, v));
            assert(var(s5, r, c, v) == var(s4, r, c, v));
            assert(var(s4, r, c, v) == var(s3, r, c, v));
            assert(var(s3, r, c, v) == var(s2, r, c, v));
        }
        s6
    }

    /// What brings the elements of the second factor into their tile.
    proof fn lemma_bring_b(self, k: RawView, w: Place, s: Block, z: Size, k0: nat) -> (t: Block)
        requires
            self.written(k),
            z.fits(),
            self.grounded(k, s, z),
            self.rolling(k, s, z, k0 as int),
            forall|r: int, c: int| #[trigger]
                thread(k, r, c) ==> var(s, r, c, self.id(5)) == Item::Int(k0 + r),
            (s.tiles)(self.b_tile).phase is Idle,
            k0 + z.tile <= z.k,
            self.b_factor().serves(k, w, self.mid_value + 4, self.good),
        ensures
            advances(k, w, self.mid_op + 1, self.late_op + 1, s, t),
            !t.stuck,
            quiet(k, t),
            framed_by(k, s, t, self.first + 4, self.id(4)),
            stored_on(k, s, t, self.good),
            forall|r: int, c: int| #[trigger]
                thread(k, r, c) ==> (self.b_kept)(
                    stores(t, r, c),
                    b_place(self.swap_b, z, k0 + r, z.col + c),
                ),
            (t.tiles)(self.b_tile).phase is Stored,
            forall|m: SharedId|
                m != self.b_tile ==> #[trigger] (t.tiles)(m) == (s.tiles)(m),
            forall|r: int, c: int| #[trigger]
                thread(k, r, c) ==> ((t.tiles)(self.b_tile).cells)(r * z.tile + c) == Item::Real(
                    self.b_at(z, k0 + r, z.col + c),
                ),
    {
        let p = self.mid_op;
        let s2 = s;
        lemma_name(k, w, s, p + 1, self.mid(0));
        lemma_name(k, w, s, p + 2, self.mid(1));
        lemma_advance_on(k, w, p + 1, p + 2, p + 3, s, s, s);
        let base = p + 3;
        let here = p + 1;
        let place = |r: int, c: int| Item::Int(b_place(self.swap_b, z, k0 + r, z.col + c));
        assert forall|r: int, c: int| #[trigger] thread(k, r, c) implies result(
            k,
            w,
            s2,
            r,
            c,
            Op::Add { a: self.mid(1), b: self.base },
            self.mid(2) as nat,
        ) == place(r, c) by {
            self.lemma_b_index(k, w, s2, z, k0, r, c);
        }
        let s3 = lemma_define(k, w, s2, base, self.mid(2), place);
        lemma_advance_on(k, w, here, base, base + 1, s, s2, s3);
        let zeros = |r: int, c: int| Item::Real(num(ZERO_BITS));
        let s4 = lemma_define(k, w, s3, base + 1, self.mid(3), zeros);
        lemma_advance_on(k, w, here, base + 1, base + 2, s, s3, s4);
        let fa = self.b_factor();
        assert forall|r: int, c: int| #[trigger] thread(k, r, c) implies var(s4, r, c, fa.out)
            == Item::Real(num(ZERO_BITS)) && var(s4, r, c, fa.index) == place(r, c) && (var(
            s4,
            r,
            c,
            fa.index,
        ) matches Item::Int(x) && 0 <= x <= u32::MAX) by {
            lemma_b_place(self.swap_b, z, k0 + r, z.col + c);
            assert(var(s4, r, c, fa.index) == var(s3, r, c, fa.index));
        }
        assert(fa.ready(k, s4));
        let s5 = choose|t: Block| #[trigger] fa.served(k, w, self.mid_value + 4, self.good, s4, t);
        assert(fa.served(k, w, self.mid_value + 4, self.good, s4, s5));
        lemma_advance_on(k, w, here, fa.from, fa.to, s, s4, s5);
        lemma_advance_step(k, w, fa.to, s5);
        let s6 = next(k, w, s5, fa.to);
        lemma_advance_on(k, w, here, fa.to, fa.to + 1, s, s5, s6);
        let index = |r: int, c: int| item(k, w, s5, r, c, self.id(3));
        let value = |r: int, c: int| item(k, w, s5, r, c, self.mid(3));
        assert forall|r: int, c: int| #[trigger] thread(k, r, c) implies index(r, c) == Item::Int(
            r * k.block[0] + c,
        ) && value(r, c) == Item::Real(self.b_at(z, k0 + r, z.col + c)) by {
            lemma_read(k, w, s5, r, c, self.id(3));
            lemma_read(k, w, s5, r, c, self.mid(3));
            assert(var(s5, r, c, self.id(3)) == var(s4, r, c, self.id(3)));
            assert(var(s4, r, c, fa.index) == place(r, c));
        }
        lemma_stored(k, (s5.tiles)(self.b_tile), index, value);
        assert forall|r: int, c: int| #[trigger] thread(k, r, c) implies stores(s4, r, c) == stores(
            s,
            r,
            c,
        ) by {
            assert(stores(s4, r, c) == stores(s3, r, c));
            assert(stores(s3, r, c) == stores(s2, r, c));
            assert(stores(s2, r, c) == stores(s, r, c));
        }
        lemma_stored_same(k, s, s4, self.good);
        lemma_stored_on(k, s, s4, s5, self.good);
        lemma_stored_same(k, s5, s6, self.good);
        lemma_stored_on(k, s, s5, s6, self.good);
        assert forall|r: int, c: int| #[trigger] thread(k, r, c) implies (self.b_kept)(
            stores(s6, r, c),
            b_place(self.swap_b, z, k0 + r, z.col + c),
        ) by {
            assert(stores(s6, r, c) == stores(s5, r, c));
            assert(var(s4, r, c, fa.index) == place(r, c));
        }
        assert forall|r: int, c: int, v: ValueId|
            thread(k, r, c) && v < self.first + 6 && v != self.id(4) implies #[trigger] var(s6, r, c, v)
            == var(s2, r, c, v) by {
            assert(var(s6, r, c, v) == var(s5, r, c, v));
            assert(var(s5, r, c, v) == var(s4, r, c, v));
            assert(var(s4, r, c, v) == var(s3, r, c, v));
            assert(var(s3, r, c, v) == var(s2, r, c, v));
        }
        s6
    }

    /// One round over the tiles.
    proof fn lemma_round(
        self,
        k: RawView,
        w: Place,
        s: Block,
        z: Size,
        init: spec_fn(int, int) -> Expr,
        k0: nat,
    ) -> (t: Block)
        requires
            self.written(k),
            self.a_factor().serves(k, w, self.first + 10, self.good),
            self.b_factor().serves(k, w, self.mid_value + 4, self.good),
            z.fits(),
            self.grounded(k, s, z),
            self.reached(k, s, z, init, k0),
            self.rolling(k, s, z, k0 as int),
            forall|m: SharedId| (#[trigger] (s.tiles)(m)).phase is Idle,
            k0 + z.tile <= z.k,
            k0 as int % z.tile == 0,
            self.kept(k, s, z, k0 as int),
        ensures
            advances(k, w, self.start + 5, self.late_op + 13, s, t),
            !t.stuck,
            quiet(k, t),
            framed_by(k, s, t, self.first + 4, self.out),
            stored_on(k, s, t, self.good),
            self.reached(k, t, z, init, (k0 + z.tile) as nat),
            forall|m: SharedId| (#[trigger] (t.tiles)(m)).phase is Idle,
            self.kept(k, t, z, k0 + z.tile),
    {
        let p = self.late_op;
        let here = self.start + 5;
        let s1 = self.lemma_bring_a(k, w, s, z, k0);
        self.lemma_grounded(k, s, s1, z, self.first + 4, self.id(4));
        assert(self.rolling(k, s1, z, k0 as int));
        let s2 = self.lemma_bring_b(k, w, s1, z, k0);
        lemma_advance_on(k, w, here, self.mid_op + 1, p + 1, s, s1, s2);
        lemma_stored_on(k, s, s1, s2, self.good);
        lemma_advance_step(k, w, p + 1, s2);
        let s3 = next(k, w, s2, p + 1);
        lemma_advance_on(k, w, here, p + 1, p + 2, s, s2, s3);
        let s4 = lemma_define(k, w, s3, p + 2, self.late(0), |r: int, c: int| Item::Int(0));
        lemma_advance_on(k, w, here, p + 2, p + 3, s, s3, s4);
        assert forall|r: int, c: int, v: ValueId|
            thread(k, r, c) && v < self.first + 4 implies #[trigger] var(s4, r, c, v) == var(
            s,
            r,
            c,
            v,
        ) by {
            assert(var(s4, r, c, v) == var(s3, r, c, v));
            assert(var(s3, r, c, v) == var(s2, r, c, v));
            assert(var(s2, r, c, v) == var(s1, r, c, v));
            assert(var(s1, r, c, v) == var(s, r, c, v));
        }
        assert(framed_by(k, s, s4, self.first + 4, self.out));
        self.lemma_grounded(k, s, s4, z, self.first + 4, self.out);
        assert(self.filled(k, s4, z, k0 as int));
        assert(self.reached(k, s4, z, init, k0 + 0));
        let s5 = self.lemma_terms(k, w, s4, z, init, k0, 0);
        assert(thread(k, 0, 0));
        lemma_read(k, w, s4, 0, 0, self.late(0));
        lemma_read(k, w, s4, 0, 0, self.tile_size);
        assert(passes(k, p + 4, p + 11)) by {
            assert forall|last: nat, depth: nat| last >= p + 11 implies #[trigger] scope_end(
                k.ops,
                p + 4,
                last,
                depth,
            ) == scope_end(k.ops, p + 11, last, depth) by {
                lemma_scope_skip(k.ops, p + 4, p + 11, last, depth);
            }
        }
        lemma_advance_loop(k, w, p + 3, p + 11, s4, self.late(0), self.tile_size, self.id(0));
        lemma_advance_on(k, w, here, p + 3, p + 12, s, s4, s5);
        lemma_advance_step(k, w, p + 12, s5);
        let s6 = next(k, w, s5, p + 12);
        lemma_advance_on(k, w, here, p + 12, p + 13, s, s5, s6);
        assert forall|r: int, c: int| #[trigger] thread(k, r, c) implies stores(s6, r, c) == stores(
            s2,
            r,
            c,
        ) by {
            assert(stores(s6, r, c) == stores(s5, r, c));
            assert(stores(s5, r, c) == stores(s4, r, c));
            assert(stores(s4, r, c) == stores(s3, r, c));
            assert(stores(s3, r, c) == stores(s2, r, c));
        }
        lemma_stored_same(k, s2, s6, self.good);
        lemma_stored_on(k, s, s2, s6, self.good);
        self.lemma_kept_round(k, s, s1, s2, s6, z, k0);
        assert forall|r: int, c: int, v: ValueId|
            thread(k, r, c) && v < self.first + 4 && v != self.out implies #[trigger] var(
            s6,
            r,
            c,
            v,
        ) == var(s, r, c, v) by {
            assert(var(s6, r, c, v) == var(s5, r, c, v));
            assert(var(s5, r, c, v) == var(s4, r, c, v));
            assert(var(s4, r, c, v) == var(s, r, c, v));
        }
        assert forall|m: SharedId| (#[trigger] (s6.tiles)(m)).phase is Idle by {
            assert((s4.tiles)(m) == (s3.tiles)(m));
            if m != self.a_tile && m != self.b_tile {
                assert((s2.tiles)(m) == (s1.tiles)(m));
                assert((s1.tiles)(m) == (s.tiles)(m));
            } else {
                assert((s2.tiles)(self.a_tile) == (s1.tiles)(self.a_tile));
            }
        }
        s6
    }

    proof fn lemma_kept_round(
        self,
        k: RawView,
        s: Block,
        s1: Block,
        s2: Block,
        t: Block,
        z: Size,
        k0: nat,
    )
        requires
            z.fits(),
            k.block[0] == z.tile && k.block[1] == z.tile,
            k0 as int % z.tile == 0,
            self.kept(k, s, z, k0 as int),
            lasting(self.a_kept),
            lasting(self.b_kept),
            stored_on(k, s, s1, self.good),
            stored_on(k, s1, s2, self.good),
            stored_on(k, s2, t, self.good),
            forall|r: int, c: int| #[trigger]
                thread(k, r, c) ==> (self.a_kept)(
                    stores(s1, r, c),
                    a_place(self.swap_a, z, z.row + r, k0 + c),
                ),
            forall|r: int, c: int| #[trigger]
                thread(k, r, c) ==> (self.b_kept)(
                    stores(s2, r, c),
                    b_place(self.swap_b, z, k0 + r, z.col + c),
                ),
        ensures
            self.kept(k, t, z, k0 + z.tile),
    {
        lemma_stored_on(k, s, s1, s2, self.good);
        lemma_stored_on(k, s, s2, t, self.good);
        lemma_stored_on(k, s1, s2, t, self.good);
        reveal(stored_on);
        assert forall|r: int, c: int, i: int|
            #![trigger thread(k, r, c), a_place(self.swap_a, z, z.row + r, i)]
            #![trigger thread(k, r, c), b_place(self.swap_b, z, i, z.col + c)]
            thread(k, r, c) && 0 <= i < k0 + z.tile implies {
            &&& i % z.tile == c ==> (self.a_kept)(
                stores(t, r, c),
                a_place(self.swap_a, z, z.row + r, i),
            )
            &&& i % z.tile == r ==> (self.b_kept)(
                stores(t, r, c),
                b_place(self.swap_b, z, i, z.col + c),
            )
        } by {
            assert(goes_on(stores(s, r, c), stores(t, r, c), self.good));
            assert(goes_on(stores(s1, r, c), stores(t, r, c), self.good));
            assert(goes_on(stores(s2, r, c), stores(t, r, c), self.good));
            if i >= k0 {
                lemma_place_in_tile(z.tile, k0 as int, i);
            } else {
                assert(i % z.tile == c ==> (self.a_kept)(
                    stores(s, r, c),
                    a_place(self.swap_a, z, z.row + r, i),
                ));
                assert(i % z.tile == r ==> (self.b_kept)(
                    stores(s, r, c),
                    b_place(self.swap_b, z, i, z.col + c),
                ));
            }
        }
    }

    /// The rounds over the tiles.
    proof fn lemma_rounds(
        self,
        k: RawView,
        w: Place,
        s: Block,
        z: Size,
        init: spec_fn(int, int) -> Expr,
        k0: nat,
        most: nat,
    ) -> (t: Block)
        requires
            self.written(k),
            self.a_factor().serves(k, w, self.first + 10, self.good),
            self.b_factor().serves(k, w, self.mid_value + 4, self.good),
            z.fits(),
            self.grounded(k, s, z),
            self.reached(k, s, z, init, k0),
            self.rolling(k, s, z, k0 as int),
            forall|m: SharedId| (#[trigger] (s.tiles)(m)).phase is Idle,
            k0 <= z.k,
            k0 as int % z.tile == 0,
            most >= z.k - k0,
            self.kept(k, s, z, k0 as int),
        ensures
            t == rounds(
                k,
                w,
                self.start + 4,
                self.late_op + 13,
                self.id(1),
                self.e.k,
                self.tile_size,
                s,
                most,
            ),
            !t.stuck,
            quiet(k, t),
            framed_by(k, s, t, self.first + 1, self.out),
            stored_on(k, s, t, self.good),
            forall|m: SharedId| (#[trigger] (t.tiles)(m)).phase is Idle,
            self.reached(k, t, z, init, z.k as nat),
            self.kept(k, t, z, z.k),
        decreases most,
    {
        reveal_with_fuel(rounds, 2);
        assert(thread(k, 0, 0));
        assert forall|r: int, c: int| #[trigger] thread(k, r, c) implies item(
            k,
            w,
            s,
            r,
            c,
            self.id(1),
        ) == Item::Int(k0 as int) && item(k, w, s, r, c, self.e.k) == Item::Int(z.k) by {
            lemma_read(k, w, s, r, c, self.id(1));
            lemma_read(k, w, s, r, c, self.e.k);
        }
        assert(uniform(k, w, s, self.id(1), k0 as int));
        assert(uniform(k, w, s, self.e.k, z.k));
        if k0 == z.k {
            lemma_stored_same(k, s, s, self.good);
            s
        } else {
            lemma_tile_end(z.tile, z.k, k0 as int);
            let t = self.lemma_round(k, w, s, z, init, k0);
            assert(run(k, w, self.start + 5, self.late_op + 13, s) == t) by {
                reveal(advances);
                lemma_run_done(k, w, self.late_op + 13, t);
            }
            let u = with_var(
                t,
                self.id(1),
                |r: int, c: int|
                    sum(var(t, r, c, self.id(1)), item(k, w, t, r, c, self.tile_size)),
            );
            let next = (k0 + z.tile) as nat;
            let by = |r: int, c: int|
                sum(var(t, r, c, self.id(1)), item(k, w, t, r, c, self.tile_size));
            lemma_with_var(k, t, self.id(1), by);
            assert(set_one(k, t, u, self.id(1), by));
            assert forall|r: int, c: int| #[trigger] thread(k, r, c) implies var(
                u,
                r,
                c,
                self.id(1),
            ) == Item::Int(next as int) && var(u, r, c, self.id(3)) == Item::Int(r * z.tile + c) by {
                lemma_read(k, w, t, r, c, self.tile_size);
                assert(var(t, r, c, self.id(1)) == var(s, r, c, self.id(1)));
                assert(var(t, r, c, self.tile_size) == var(s, r, c, self.tile_size));
                assert(var(t, r, c, self.id(3)) == var(s, r, c, self.id(3)));
            }
            assert(self.rolling(k, u, z, next as int));
            assert(framed_by(k, s, u, self.first + 1, self.out));
            self.lemma_grounded(k, s, u, z, self.first + 1, self.out);
            assert(self.reached(k, u, z, init, next));
            lemma_stored_same(k, t, u, self.good);
            lemma_stored_on(k, s, t, u, self.good);
            assert(self.kept(k, u, z, next as int)) by {
                assert forall|r: int, c: int| #[trigger] thread(k, r, c) implies stores(u, r, c)
                    == stores(t, r, c) by {}
            }
            let v = self.lemma_rounds(k, w, u, z, init, next, (most - 1) as nat);
            lemma_stored_on(k, s, u, v, self.good);
            v
        }
    }

    /// A block that holds what a product works with comes to hold, in each thread, an element of the
    /// product: its terms, each multiplied and added to those before it.
    pub proof fn lemma_product(
        self,
        k: RawView,
        w: Place,
        s: Block,
        z: Size,
        init: spec_fn(int, int) -> Expr,
    ) -> (t: Block)
        requires
            self.written(k),
            self.a_factor().serves(k, w, self.first + 10, self.good),
            self.b_factor().serves(k, w, self.mid_value + 4, self.good),
            z.fits(),
            self.grounded(k, s, z),
            self.reached(k, s, z, init, 0),
            forall|m: SharedId| (#[trigger] (s.tiles)(m)).phase is Idle,
        ensures
            advances(k, w, self.start, self.late_op + 14, s, t),
            !t.stuck,
            quiet(k, t),
            framed_by(k, s, t, self.first, self.out),
            stored_on(k, s, t, self.good),
            forall|m: SharedId| (#[trigger] (t.tiles)(m)).phase is Idle,
            self.reached(k, t, z, init, z.k as nat),
            self.kept(k, t, z, z.k),
    {
        let p = self.start;
        lemma_name(k, w, s, p, self.id(0));
        let s1 = lemma_define(k, w, s, p + 1, self.id(1), |r: int, c: int| Item::Int(0));
        lemma_advance_on(k, w, p, p + 1, p + 2, s, s, s1);
        lemma_name(k, w, s1, p + 2, self.id(2));
        lemma_advance_on(k, w, p, p + 2, p + 3, s, s1, s1);
        let cell = |r: int, c: int| Item::Int(r * z.tile + c);
        assert forall|r: int, c: int| #[trigger] thread(k, r, c) implies result(
            k,
            w,
            s1,
            r,
            c,
            Op::Add { a: self.id(2), b: self.local_col },
            self.id(3) as nat,
        ) == cell(r, c) by {
            lemma_cell(z.tile, r, c);
            lemma_read(k, w, s1, r, c, self.id(2));
            lemma_read(k, w, s1, r, c, self.local_row);
            lemma_read(k, w, s1, r, c, self.local_col);
            lemma_read(k, w, s1, r, c, self.tile_size);
            lemma_mul(k, w, s1, r, c, self.local_row, self.tile_size, self.id(2) as nat);
            lemma_add(k, w, s1, r, c, self.id(2), self.local_col, self.id(3) as nat);
        }
        let s2 = lemma_define(k, w, s1, p + 3, self.id(3), cell);
        lemma_advance_on(k, w, p, p + 3, p + 4, s, s1, s2);
        assert(self.rolling(k, s2, z, 0));
        assert(framed_by(k, s, s2, self.first, self.out));
        self.lemma_grounded(k, s, s2, z, self.first, self.out);
        let s3 = self.lemma_rounds(k, w, s2, z, init, 0, z.k as nat);
        assert(thread(k, 0, 0));
        lemma_read(k, w, s2, 0, 0, self.id(1));
        lemma_read(k, w, s2, 0, 0, self.e.k);
        self.lemma_body_passes(k, w);
        lemma_advance_loop(k, w, p + 4, self.late_op + 13, s2, self.id(1), self.e.k, self.tile_size);
        lemma_advance_on(k, w, p, p + 4, self.late_op + 14, s, s2, s3);
        assert forall|r: int, c: int| #[trigger] thread(k, r, c) implies stores(s2, r, c) == stores(
            s,
            r,
            c,
        ) by {
            assert(stores(s2, r, c) == stores(s1, r, c));
            assert(stores(s1, r, c) == stores(s, r, c));
        }
        lemma_stored_same(k, s, s2, self.good);
        lemma_stored_on(k, s, s2, s3, self.good);
        s3
    }

    /// The code of a round begins and ends the same blocks of operations.
    proof fn lemma_body_passes(self, k: RawView, w: Place)
        requires
            self.written(k),
            self.a_factor().serves(k, w, self.first + 10, self.good),
            self.b_factor().serves(k, w, self.mid_value + 4, self.good),
        ensures
            passes(k, self.start + 5, self.late_op + 13),
    {
        let a = self.a_factor();
        let b = self.b_factor();
        a.lemma_passes(k, w, self.first + 10, self.good);
        b.lemma_passes(k, w, self.mid_value + 4, self.good);
        let p = self.late_op;
        assert forall|last: nat, depth: nat| last >= p + 13 implies #[trigger] scope_end(
            k.ops,
            self.start + 5,
            last,
            depth,
        ) == scope_end(k.ops, p + 13, last, depth) by {
            lemma_scope_skip(k.ops, self.start + 5, self.start + 11, last, depth);
            assert(scope_end(k.ops, a.from, last, depth) == scope_end(k.ops, a.to, last, depth));
            lemma_scope_skip(k.ops, self.mid_op, self.mid_op + 5, last, depth);
            assert(scope_end(k.ops, b.from, last, depth) == scope_end(k.ops, b.to, last, depth));
            lemma_scope_skip(k.ops, p, p + 3, last, depth);
            assert(scope_end(k.ops, p + 3, last, depth) == scope_end(
                k.ops,
                p + 4,
                last,
                depth + 1,
            ));
            lemma_scope_skip(k.ops, p + 4, p + 11, last, depth + 1);
            assert(scope_end(k.ops, p + 11, last, depth + 1) == scope_end(
                k.ops,
                p + 12,
                last,
                depth,
            ));
            lemma_scope_skip(k.ops, p + 12, p + 13, last, depth);
        }
    }
}

} // verus!
