//! How the kernels of a pass begin: with the index of a thread in a matrix, and its place in a tile.

use vstd::prelude::*;

use crate::dispatch::backend::kernel::index::{axis_at, dim_values, index_steps, opened};
use crate::dispatch::backend::kernel::plan::blocked;
use crate::dispatch::backend::kernel::raw::{LinkedView, RawView};
use crate::dispatch::backend::meaning::product::{float, unsigned, zero};
use crate::dispatch::backend::meaning::sums::lemma_block_start;
use crate::dispatch::backend::meaning::tiles::{
    advances, fresh, item, lemma_advance_on, lemma_assign, lemma_define, quiet, result, stores, sum,
    thread, var, Block, Item, Place,
};
use crate::dispatch::backend::meaning::{any, extends, num};
use crate::dispatch::backend::{
    Axis, DType, DispatchOptions, MetaId, Metadata, Node, NodeId, Op, Value, ValueId, ValueState,
};
use crate::scalar::ZERO_BITS;

verus! {

/// Four steps, one after the other.
proof fn lemma_four(
    k: RawView,
    w: Place,
    at: nat,
    s: Block,
    s1: Block,
    s2: Block,
    s3: Block,
    s4: Block,
)
    requires
        advances(k, w, at, at + 1, s, s1),
        advances(k, w, at + 1, at + 2, s1, s2),
        advances(k, w, at + 2, at + 3, s2, s3),
        advances(k, w, at + 3, at + 4, s3, s4),
    ensures
        advances(k, w, at, at + 4, s, s4),
{
    lemma_advance_on(k, w, at, at + 1, at + 2, s, s1, s2);
    lemma_advance_on(k, w, at, at + 2, at + 3, s, s2, s3);
    lemma_advance_on(k, w, at, at + 3, at + 4, s, s3, s4);
}

/// Whether a block lies in a matrix, and the places in the matrix are unsigned integers.
pub open spec fn lies_in(w: Place, tile: int, rows: int, cols: int) -> bool {
    &&& 0 <= w.row && w.row * tile + tile <= rows
    &&& 0 <= w.col && w.col * tile + tile <= cols
    &&& rows * cols <= u32::MAX
}

/// Whether a kernel starts with the index of a thread in a matrix.
pub open spec fn grid(k: RawView, rows: MetaId, cols: MetaId, backward: bool) -> bool {
    &&& k.values[0] == unsigned(ValueState::Mut, Op::ReadMeta { param: 0, field: rows })
    &&& k.values[1] == unsigned(ValueState::Immut, Op::ReadMeta { param: 0, field: cols })
    &&& k.values[2] == unsigned(ValueState::Mut, Op::GlobalId { axis: Axis::X })
    &&& k.values[3] == unsigned(
        if backward {
            ValueState::Mut
        } else {
            ValueState::Immut
        },
        Op::ConstU32 { value: 0 },
    )
    &&& k.values[4] == (Value {
        state: ValueState::Mut,
        dtype: DType::UnsignedInt,
        init: None,
    })
    &&& k.ops[0] == (Op::DefineVar { id: 0 })
    &&& k.ops[1] == (Op::DefineVar { id: 1 })
    &&& k.ops[2] == (Op::DefineVar { id: 2 })
    &&& k.ops[3] == (Op::DefineVar { id: 3 })
    &&& k.ops[4] == (Op::DefineVar { id: 4 })
    &&& k.ops[5] == (Op::OverwriteVar { id: 4, val: Box::new(Op::GlobalId { axis: Axis::Y }) })
    &&& k.ops[6] == (Op::OverwriteVar { id: 4, val: Box::new(Op::Mul { a: 1, b: 4 }) })
    &&& k.ops[7] == if backward {
        Op::AddAssign { id: 2, val: Box::new(Op::CopyVar { id: 4 }) }
    } else {
        Op::OverwriteVar { id: 2, val: Box::new(Op::Add { a: 2, b: 4 }) }
    }
    &&& k.ops[8] == (Op::OverwriteVar { id: 0, val: Box::new(Op::Mul { a: 0, b: 1 }) })
}

pub proof fn lemma_index_fits(row: int, col: int, rows: int, cols: int)
    requires
        0 <= row < rows,
        0 <= col < cols,
        rows * cols <= u32::MAX,
    ensures
        cols * row == row * cols,
        0 <= cols * row,
        row * cols + col <= u32::MAX,
{
    assert(cols * row == row * cols && 0 <= cols * row && row * cols + col <= rows * cols)
        by (nonlinear_arith)
        requires
            0 <= row < rows,
            0 <= col < cols,
    ;
}

/// The index of each thread in a matrix.
pub proof fn lemma_grid(
    k: RawView,
    w: Place,
    rows: MetaId,
    cols: MetaId,
    backward: bool,
    tile: u32,
) -> (t: Block)
    requires
        grid(k, rows, cols, backward),
        k.block == seq![tile, tile, 1u32],
        lies_in(w, tile as int, w.fields[rows as int] as int, w.fields[cols as int] as int),
    ensures
        advances(k, w, 0, 9, fresh(), t),
        quiet(k, t),
        !t.stuck,
        forall|r: int, c: int| #[trigger] thread(k, r, c) ==> stores(t, r, c).len() == 0,
        t.tiles == fresh().tiles,
        forall|r: int, c: int| #[trigger]
            thread(k, r, c) ==> var(t, r, c, 2) == Item::Int(
                (w.row * tile + r) * w.fields[cols as int] + (w.col * tile + c),
            ) && var(t, r, c, 3) == Item::Int(0),
{
    let height = w.fields[rows as int] as int;
    let width = w.fields[cols as int] as int;
    let row = w.row * tile;
    let col = w.col * tile;
    lemma_block_start(w.row, tile as int);
    lemma_block_start(w.col, tile as int);
    let s1 = lemma_define(k, w, fresh(), 0, 0, |r: int, c: int| Item::Int(height));
    let s2 = lemma_define(k, w, s1, 1, 1, |r: int, c: int| Item::Int(width));
    let s3 = lemma_define(k, w, s2, 2, 2, |r: int, c: int| Item::Int(col + c));
    let s4 = lemma_define(k, w, s3, 3, 3, |r: int, c: int| Item::Int(0));
    let s5 = lemma_define(k, w, s4, 4, 4, |r: int, c: int| Item::Unset);
    let y = Op::GlobalId { axis: Axis::Y };
    let s6 = lemma_assign(k, w, s5, 5, 4, y, |r: int, c: int| Item::Int(row + r));
    let scale = Op::Mul { a: 1, b: 4 };
    assert forall|r: int, c: int| #[trigger] thread(k, r, c) implies result(
        k,
        w,
        s6,
        r,
        c,
        scale,
        any(),
    ) == Item::Int((row + r) * width) by {
        lemma_index_fits(row + r, col + c, height, width);
        assert(item(k, w, s6, r, c, 1) == var(s6, r, c, 1));
        assert(item(k, w, s6, r, c, 4) == var(s6, r, c, 4));
        assert(var(s6, r, c, 1) == var(s2, r, c, 1));
    }
    let s7 = lemma_assign(
        k,
        w,
        s6,
        6,
        4,
        scale,
        |r: int, c: int| Item::Int((row + r) * width),
    );
    let place = |r: int, c: int| Item::Int((row + r) * width + (col + c));
    assert forall|r: int, c: int| #[trigger] thread(k, r, c) implies sum(
        var(s7, r, c, 2),
        var(s7, r, c, 4),
    ) == place(r, c) && item(k, w, s7, r, c, 2) == var(s7, r, c, 2) && item(k, w, s7, r, c, 4)
        == var(s7, r, c, 4) by {
        lemma_index_fits(row + r, col + c, height, width);
        assert(var(s7, r, c, 2) == var(s3, r, c, 2));
    }
    let s8 = if backward {
        lemma_assign(k, w, s7, 7, 2, Op::CopyVar { id: 4 }, place)
    } else {
        lemma_assign(k, w, s7, 7, 2, Op::Add { a: 2, b: 4 }, place)
    };
    let total = Op::Mul { a: 0, b: 1 };
    let s9 = lemma_assign(
        k,
        w,
        s8,
        8,
        0,
        total,
        |r: int, c: int| result(k, w, s8, r, c, total, any()),
    );
    assert forall|r: int, c: int| #[trigger] thread(k, r, c) implies var(s9, r, c, 2) == Item::Int(
        (w.row * tile + r) * w.fields[cols as int] + (w.col * tile + c),
    ) && var(s9, r, c, 3) == Item::Int(0) by {
        assert(var(s9, r, c, 2) == var(s8, r, c, 2));
        assert(var(s9, r, c, 3) == var(s4, r, c, 3));
    }
    lemma_four(k, w, 0, fresh(), s1, s2, s3, s4);
    lemma_four(k, w, 4, s4, s5, s6, s7, s8);
    lemma_advance_on(k, w, 0, 4, 8, fresh(), s4, s8);
    lemma_advance_on(k, w, 0, 8, 9, fresh(), s8, s9);
    assert forall|r: int, c: int| #[trigger] thread(k, r, c) implies stores(s9, r, c).len()
        == 0 by {
        assert(stores(s9, r, c) == stores(s8, r, c));
        assert(stores(s8, r, c) == stores(s7, r, c));
        assert(stores(s7, r, c) == stores(s6, r, c));
        assert(stores(s6, r, c) == stores(s5, r, c));
        assert(stores(s5, r, c) == stores(s4, r, c));
        assert(stores(s4, r, c) == stores(s3, r, c));
        assert(stores(s3, r, c) == stores(s2, r, c));
        assert(stores(s2, r, c) == stores(s1, r, c));
    }
    s9
}

/// The values that a product in a kernel for a matrix works with.
pub open spec fn settings(backward: bool) -> (ValueId, ValueId, ValueId, ValueId) {
    if backward {
        (6, 7, 8, 5)
    } else {
        (5, 6, 7, 8)
    }
}

/// Whether a kernel goes on with what its nodes are computed with: the size of the tiles, the place of
/// the thread in the tile, and the variable of the result.
pub open spec fn sets_up(k: RawView, tile: u32, backward: bool) -> bool {
    let (tile_size, local_row, local_col, out) = settings(backward);
    &&& k.values[tile_size as int] == unsigned(ValueState::Const, Op::ConstU32 { value: tile })
    &&& k.values[local_row as int] == unsigned(ValueState::Immut, Op::LocalId { axis: Axis::Y })
    &&& k.values[local_col as int] == unsigned(ValueState::Immut, Op::LocalId { axis: Axis::X })
    &&& k.values[out as int] == if backward {
        float(ValueState::Mut, zero())
    } else {
        Value { state: ValueState::Mut, dtype: DType::Float, init: None }
    }
    &&& k.ops[9] == (Op::DefineVar { id: 5 })
    &&& k.ops[10] == (Op::DefineVar { id: 6 })
    &&& k.ops[11] == (Op::DefineVar { id: 7 })
    &&& k.ops[12] == (Op::DefineVar { id: 8 })
}

/// The place of each thread in its tile.
pub proof fn lemma_set_tile(
    k: RawView,
    w: Place,
    s: Block,
    tile: u32,
    backward: bool,
) -> (t: Block)
    requires
        sets_up(k, tile, backward),
        k.block == seq![tile, tile, 1u32],
        !s.stuck,
        quiet(k, s),
    ensures
        advances(k, w, 9, 13, s, t),
        quiet(k, t),
        !t.stuck,
        t.tiles == s.tiles,
        forall|r: int, c: int| #[trigger] thread(k, r, c) ==> stores(t, r, c) == stores(s, r, c),
        forall|r: int, c: int| #[trigger]
            thread(k, r, c) ==> {
                let (tile_size, local_row, local_col, out) = settings(backward);
                &&& var(t, r, c, 2) == var(s, r, c, 2)
                &&& var(t, r, c, 3) == var(s, r, c, 3)
                &&& var(t, r, c, tile_size) == Item::Int(tile as int)
                &&& var(t, r, c, local_row) == Item::Int(r)
                &&& var(t, r, c, local_col) == Item::Int(c)
                &&& backward ==> var(t, r, c, out) == Item::Real(num(ZERO_BITS))
            },
{
    let tiled = |r: int, c: int| Item::Int(tile as int);
    let at_row = |r: int, c: int| Item::Int(r);
    let at_col = |r: int, c: int| Item::Int(c);
    if backward {
        let zeros = |r: int, c: int| Item::Real(num(ZERO_BITS));
        let s1 = lemma_define(k, w, s, 9, 5, zeros);
        let s2 = lemma_define(k, w, s1, 10, 6, tiled);
        let s3 = lemma_define(k, w, s2, 11, 7, at_row);
        let s4 = lemma_define(k, w, s3, 12, 8, at_col);
        lemma_four(k, w, 9, s, s1, s2, s3, s4);
        assert forall|r: int, c: int| #[trigger] thread(k, r, c) implies {
            &&& var(s4, r, c, 2) == var(s, r, c, 2)
            &&& var(s4, r, c, 3) == var(s, r, c, 3)
            &&& var(s4, r, c, 5) == var(s1, r, c, 5)
            &&& var(s4, r, c, 6) == var(s2, r, c, 6)
            &&& var(s4, r, c, 7) == var(s3, r, c, 7)
            &&& stores(s4, r, c) == stores(s, r, c)
        } by {}
        s4
    } else {
        let s1 = lemma_define(k, w, s, 9, 5, tiled);
        let s2 = lemma_define(k, w, s1, 10, 6, at_row);
        let s3 = lemma_define(k, w, s2, 11, 7, at_col);
        let s4 = lemma_define(k, w, s3, 12, 8, |r: int, c: int| Item::Unset);
        lemma_four(k, w, 9, s, s1, s2, s3, s4);
        assert forall|r: int, c: int| #[trigger] thread(k, r, c) implies {
            &&& var(s4, r, c, 2) == var(s, r, c, 2)
            &&& var(s4, r, c, 3) == var(s, r, c, 3)
            &&& var(s4, r, c, 5) == var(s1, r, c, 5)
            &&& var(s4, r, c, 6) == var(s2, r, c, 6)
            &&& var(s4, r, c, 7) == var(s3, r, c, 7)
            &&& stores(s4, r, c) == stores(s, r, c)
        } by {}
        s4
    }
}

/// The block of a kernel stays as it is where no node requires another.
pub proof fn lemma_blocked_any(
    nodes: Seq<Node>,
    kernel: LinkedView,
    ids: Seq<NodeId>,
    count: nat,
    size: u32,
)
    requires
        count <= ids.len(),
        forall|i: int|
            0 <= i < ids.len() ==> nodes[#[trigger] ids[i] as int].op.dispatch()
                == DispatchOptions::Any,
    ensures
        blocked(nodes, kernel, ids, count, size) == kernel,
    decreases count,
{
    if count > 0 {
        lemma_blocked_any(nodes, kernel, ids, (count - 1) as nat, size);
        assert(nodes[ids[count - 1] as int].op.dispatch() == DispatchOptions::Any);
    }
}

/// A kernel for a matrix is opened with the index in the matrix.
pub proof fn lemma_opened_grid(
    meta: Metadata,
    params: nat,
    block: Seq<u32>,
    root: NodeId,
    shape: Seq<MetaId>,
    backward: bool,
)
    requires
        shape.len() == 2,
    ensures
        ({
            let (kernel, base, gid) = opened(meta, params, block, root, shape, backward);
            &&& grid(kernel.raw, shape[0], shape[1], backward)
            &&& kernel.raw.values.len() == 5
            &&& kernel.raw.ops.len() == 9
            &&& kernel.raw.shared.len() == 0
            &&& kernel.raw.block == block
            &&& kernel.raw.root == root
            &&& base == 3
            &&& gid == 2
        }),
{
    reveal(RawView::def);
    reveal(RawView::emit);
    reveal(RawView::with_state);
    reveal_with_fuel(dim_values, 3);
    reveal_with_fuel(index_steps, 3);
    assert(axis_at(1) == Axis::Y);
}

/// A kernel that goes on from another starts with the index in a matrix as the other does.
pub proof fn lemma_grid_extends(k: RawView, q: RawView, rows: MetaId, cols: MetaId, backward: bool)
    requires
        extends(k, q),
        grid(k, rows, cols, backward),
        k.values.len() >= 5,
        k.ops.len() >= 9,
    ensures
        grid(q, rows, cols, backward),
{
}

/// A kernel that goes on from another sets up its nodes as the other does.
pub proof fn lemma_set_up_extends(k: RawView, q: RawView, tile: u32, backward: bool)
    requires
        extends(k, q),
        sets_up(k, tile, backward),
        k.values.len() >= 9,
        k.ops.len() >= 13,
    ensures
        sets_up(q, tile, backward),
{
}

/// The beginning of a kernel gives each thread its index, and what its nodes are computed with.
pub proof fn lemma_opening(
    k: RawView,
    w: Place,
    rows: MetaId,
    cols: MetaId,
    backward: bool,
    tile: u32,
) -> (t: Block)
    requires
        grid(k, rows, cols, backward),
        sets_up(k, tile, backward),
        k.block == seq![tile, tile, 1u32],
        lies_in(w, tile as int, w.fields[rows as int] as int, w.fields[cols as int] as int),
    ensures
        advances(k, w, 0, 13, fresh(), t),
        quiet(k, t),
        !t.stuck,
        forall|r: int, c: int| #[trigger] thread(k, r, c) ==> stores(t, r, c).len() == 0,
        t.tiles == fresh().tiles,
        forall|r: int, c: int| #[trigger]
            thread(k, r, c) ==> {
                let (tile_size, local_row, local_col, out) = settings(backward);
                &&& var(t, r, c, 2) == Item::Int(
                    (w.row * tile + r) * w.fields[cols as int] + (w.col * tile + c),
                )
                &&& var(t, r, c, 3) == Item::Int(0)
                &&& var(t, r, c, tile_size) == Item::Int(tile as int)
                &&& var(t, r, c, local_row) == Item::Int(r)
                &&& var(t, r, c, local_col) == Item::Int(c)
                &&& backward ==> var(t, r, c, out) == Item::Real(num(ZERO_BITS))
            },
{
    let s = lemma_grid(k, w, rows, cols, backward, tile);
    let t = lemma_set_tile(k, w, s, tile, backward);
    lemma_advance_on(k, w, 0, 9, 13, fresh(), s, t);
    t
}

} // verus!
