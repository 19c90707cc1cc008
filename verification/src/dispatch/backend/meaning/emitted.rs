//! The code of matrix products in kernels.

use vstd::prelude::*;

use crate::dispatch::backend::kernel::frame::{Lowered, Scope};
use crate::dispatch::backend::kernel::raw::{LinkedView, RawView};
use crate::dispatch::backend::meaning::extends;
use crate::dispatch::backend::meaning::product::{zero, Code};
use crate::dispatch::backend::meaning::tiles::Write;
use crate::dispatch::backend::meaning::Expr;
use crate::dispatch::backend::std_lib::matmul::{
    a_index, b_index, factor_value, product, tile_product, tile_round, Extent, Terms,
};
use crate::dispatch::backend::{DType, NodeId, Op, ValueId};

verus! {

/// Whether a kernel has what another has, and more, and is launched as the other is.
pub open spec fn grows(k: RawView, q: RawView) -> bool {
    &&& extends(k, q)
    &&& k.shared.len() <= q.shared.len()
    &&& q.meta == k.meta
    &&& q.block == k.block
    &&& q.iter_space == k.iter_space
    &&& q.root == k.root
}

pub proof fn lemma_grows_on(a: RawView, b: RawView, c: RawView)
    requires
        grows(a, b),
        grows(b, c),
    ensures
        grows(a, c),
{
    assert forall|i: int| 0 <= i < a.values.len() implies #[trigger] c.values[i] == a.values[i] by {
        assert(b.values[i] == a.values[i]);
    }
    assert forall|i: int| 0 <= i < a.ops.len() implies #[trigger] c.ops[i] == a.ops[i] by {
        assert(b.ops[i] == a.ops[i]);
    }
}

/// What another extends, extends what it extends.
pub proof fn lemma_extends_on(a: RawView, b: RawView, c: RawView)
    requires
        extends(a, b),
        extends(b, c),
    ensures
        extends(a, c),
{
    assert forall|i: int| 0 <= i < a.values.len() implies #[trigger] c.values[i] == a.values[i] by {
        assert(b.values[i] == a.values[i]);
    }
    assert forall|i: int| 0 <= i < a.ops.len() implies #[trigger] c.ops[i] == a.ops[i] by {
        assert(b.ops[i] == a.ops[i]);
    }
}

/// The stages in which a product is added to a kernel: before and after each factor.
pub struct Stages {
    pub ka: LinkedView,
    pub a_idx: ValueId,
    pub a_val: ValueId,
    pub a: Lowered,
    pub kb: LinkedView,
    pub b_idx: ValueId,
    pub b_val: ValueId,
    pub b: Lowered,
}

/// The stages of a product.
pub open spec fn stages(
    f: Scope,
    backward: bool,
    e: Extent,
    terms: Terms,
    kernel: LinkedView,
    resolved: Seq<NodeId>,
) -> Stages {
    let (raw, a_tile) = kernel.raw.share(DType::Float, f.shared_size);
    let (raw, b_tile) = raw.share(DType::Float, f.shared_size);
    let (raw, one) = raw.inline_u(Op::ConstU32 { value: 1 });
    let (raw, tk) = raw.var_u(Op::ConstU32 { value: 0 });
    let (raw, tile_row) = raw.inline_u(Op::Mul { a: f.local_row, b: f.tile_size });
    let (raw, shared_idx) = raw.var_u(Op::Add { a: tile_row, b: f.local_col });
    let raw = raw.emit(Op::ForLoopBegin { index: tk, end: e.k, step: f.tile_size });
    let (raw, a_k) = raw.let_u(Op::Add { a: tk, b: f.local_col });
    let (raw, b_k) = raw.let_u(Op::Add { a: tk, b: f.local_row });
    let (raw, a_idx) = a_index(raw, terms.swap_a, e, a_k, f.base);
    let (raw, a_val) = raw.var_f(zero());
    let ka = LinkedView { raw, ..kernel };
    let a = factor_value(f, backward, terms.a, a_val, ka, resolved, a_idx);
    let raw = a.kernel.raw.emit(
        Op::SharedStore { mem: a_tile, index: shared_idx, value: a_val },
    );
    let (raw, b_idx) = b_index(raw, terms.swap_b, e, b_k, f.base);
    let (raw, b_val) = raw.var_f(zero());
    let kb = LinkedView { raw, ..a.kernel };
    let b = factor_value(f, backward, terms.b, b_val, kb, a.resolved, b_idx);
    Stages { ka, a_idx, a_val, a, kb, b_idx, b_val, b }
}

/// The code of the product of two tiles.
proof fn lemma_tile_product_code(r: RawView, f: Scope, c: Code)
    requires
        c.late_value + 7 <= usize::MAX,
        r.values.len() == c.late_value,
        r.ops.len() == c.late_op + 2,
        c.local_row == f.local_row,
        c.local_col == f.local_col,
        c.tile_size == f.tile_size,
    ensures
        ({
            let q = tile_product(r, f, c.a_tile, c.b_tile, c.id(0), c.out).emit(Op::Barrier).emit(
                Op::EndScope,
            );
            &&& c.multiplies(q)
            &&& grows(r, q)
            &&& q.values.len() == c.late_value + 7
            &&& q.ops.len() == c.late_op + 14
        }),
{
    reveal(RawView::def);
    reveal(RawView::emit);
}

/// The code before the element of the first factor.
proof fn lemma_a_code(r: RawView, f: Scope, e: Extent, c: Code)
    requires
        c.first + 10 <= usize::MAX,
        r.values.len() == c.first + 4,
        r.ops.len() == c.start + 5,
        c.local_row == f.local_row,
        c.local_col == f.local_col,
        c.base == f.base,
        c.e == e,
    ensures
        ({
            let (r1, a_k) = r.let_u(Op::Add { a: c.id(1), b: f.local_col });
            let (r2, b_k) = r1.let_u(Op::Add { a: c.id(1), b: f.local_row });
            let (r3, a_idx) = a_index(r2, c.swap_a, e, a_k, f.base);
            let (q, a_val) = r3.var_f(zero());
            &&& a_k == c.id(4) && b_k == c.id(5) && a_idx == c.id(8) && a_val == c.id(9)
            &&& c.locates_a(q)
            &&& grows(r, q)
            &&& q.values.len() == c.first + 10
            &&& q.ops.len() == c.start + 11
        }),
{
    reveal(RawView::def);
    reveal(RawView::emit);
}

/// The code before the element of the second factor.
proof fn lemma_b_code(r: RawView, f: Scope, e: Extent, c: Code)
    requires
        c.mid_value + 4 <= usize::MAX,
        r.values.len() == c.mid_value,
        r.ops.len() == c.mid_op + 1,
        c.base == f.base,
        c.e == e,
    ensures
        ({
            let (r3, b_idx) = b_index(r, c.swap_b, e, c.id(5), f.base);
            let (q, b_val) = r3.var_f(zero());
            &&& b_idx == c.mid(2) && b_val == c.mid(3)
            &&& c.locates_b(q)
            &&& grows(r, q)
            &&& q.values.len() == c.mid_value + 4
            &&& q.ops.len() == c.mid_op + 5
        }),
{
    reveal(RawView::def);
    reveal(RawView::emit);
}

/// A kernel that goes on from another holds the code that the other holds.
pub proof fn lemma_code_extends(c: Code, k: RawView, q: RawView)
    requires
        extends(k, q),
    ensures
        k.values.len() >= c.first + 4 && k.ops.len() >= c.start + 5 && c.heads(k) ==> c.heads(q),
        k.values.len() >= c.first + 10 && k.ops.len() >= c.start + 11 && c.locates_a(k)
            ==> c.locates_a(q),
        k.values.len() >= c.mid_value + 4 && k.ops.len() >= c.mid_op + 5 && c.locates_b(k)
            ==> c.locates_b(q),
        k.values.len() >= c.late_value + 7 && k.ops.len() >= c.late_op + 14 && c.multiplies(k)
            ==> c.multiplies(q),
{
}

/// What is known of the factors of a product, besides their code.
pub struct Known {
    pub a_element: spec_fn(int) -> Expr,
    pub b_element: spec_fn(int) -> Expr,
    pub a_kept: spec_fn(Seq<Write>, int) -> bool,
    pub b_kept: spec_fn(Seq<Write>, int) -> bool,
    pub good: spec_fn(Write) -> bool,
}

/// The code of a product.
pub open spec fn code_of(
    f: Scope,
    e: Extent,
    terms: Terms,
    out: ValueId,
    kernel: LinkedView,
    s: Stages,
    known: Known,
) -> Code {
    Code {
        first: kernel.raw.values.len(),
        start: kernel.raw.ops.len(),
        mid_value: s.a.kernel.raw.values.len(),
        mid_op: s.a.kernel.raw.ops.len(),
        late_value: s.b.kernel.raw.values.len(),
        late_op: s.b.kernel.raw.ops.len(),
        local_row: f.local_row,
        local_col: f.local_col,
        tile_size: f.tile_size,
        base: f.base,
        e,
        a_tile: kernel.raw.shared.len() as usize,
        b_tile: (kernel.raw.shared.len() + 1) as usize,
        swap_a: terms.swap_a,
        swap_b: terms.swap_b,
        out,
        a_element: known.a_element,
        b_element: known.b_element,
        a_kept: known.a_kept,
        b_kept: known.b_kept,
        good: known.good,
    }
}

/// What comes before the first factor of a product.
pub proof fn lemma_first_stage(
    f: Scope,
    backward: bool,
    e: Extent,
    terms: Terms,
    out: ValueId,
    kernel: LinkedView,
    resolved: Seq<NodeId>,
    known: Known,
)
    requires
        kernel.raw.values.len() + 10 <= usize::MAX,
        kernel.raw.shared.len() + 2 <= usize::MAX,
    ensures
        ({
            let s = stages(f, backward, e, terms, kernel, resolved);
            let c = code_of(f, e, terms, out, kernel, s, known);
            &&& c.heads(s.ka.raw)
            &&& c.locates_a(s.ka.raw)
            &&& grows(kernel.raw, s.ka.raw)
            &&& s.ka.raw.values.len() == c.first + 10
            &&& s.ka.raw.ops.len() == c.start + 11
            &&& s.ka.raw.shared.len() == kernel.raw.shared.len() + 2
            &&& s.a_idx == c.id(8)
            &&& s.a_val == c.id(9)
        }),
{
    let s = stages(f, backward, e, terms, kernel, resolved);
    let c = code_of(f, e, terms, out, kernel, s, known);
    let (raw, a_tile) = kernel.raw.share(DType::Float, f.shared_size);
    let (raw, b_tile) = raw.share(DType::Float, f.shared_size);
    let (raw, one) = raw.inline_u(Op::ConstU32 { value: 1 });
    let (raw, tk) = raw.var_u(Op::ConstU32 { value: 0 });
    let (raw, tile_row) = raw.inline_u(Op::Mul { a: f.local_row, b: f.tile_size });
    let (raw, shared_idx) = raw.var_u(Op::Add { a: tile_row, b: f.local_col });
    let r0 = raw.emit(Op::ForLoopBegin { index: tk, end: e.k, step: f.tile_size });
    assert(c.heads(r0) && grows(kernel.raw, r0) && r0.values.len() == c.first + 4 && r0.ops.len()
        == c.start + 5 && tk == c.id(1) && r0.shared.len() == kernel.raw.shared.len() + 2) by {
        reveal(RawView::def);
        reveal(RawView::emit);
        reveal(RawView::share);
    }
    lemma_a_code(r0, f, e, c);
    lemma_grows_on(kernel.raw, r0, s.ka.raw);
    lemma_code_extends(c, r0, s.ka.raw);
    assert(s.ka.raw.shared.len() == r0.shared.len()) by {
        reveal(RawView::def);
    }
}

/// What comes between the factors of a product.
pub proof fn lemma_second_stage(
    f: Scope,
    backward: bool,
    e: Extent,
    terms: Terms,
    out: ValueId,
    kernel: LinkedView,
    resolved: Seq<NodeId>,
    known: Known,
)
    requires
        kernel.raw.values.len() + 10 <= usize::MAX,
        kernel.raw.shared.len() + 2 <= usize::MAX,
        ({
            let s = stages(f, backward, e, terms, kernel, resolved);
            &&& grows(s.ka.raw, s.a.kernel.raw)
            &&& s.a.kernel.raw.values.len() + 4 <= usize::MAX
        }),
    ensures
        ({
            let s = stages(f, backward, e, terms, kernel, resolved);
            let c = code_of(f, e, terms, out, kernel, s, known);
            &&& c.locates_b(s.kb.raw)
            &&& c.stores_a(s.kb.raw)
            &&& grows(s.a.kernel.raw, s.kb.raw)
            &&& s.kb.raw.values.len() == c.mid_value + 4
            &&& s.kb.raw.ops.len() == c.mid_op + 5
            &&& s.b_idx == c.mid(2)
            &&& s.b_val == c.mid(3)
        }),
{
    let s = stages(f, backward, e, terms, kernel, resolved);
    let c = code_of(f, e, terms, out, kernel, s, known);
    lemma_first_stage(f, backward, e, terms, out, kernel, resolved, known);
    lemma_names_of(f, e, kernel, c);
    let store = Op::SharedStore { mem: c.a_tile, index: c.id(3), value: c.id(9) };
    let r1 = s.a.kernel.raw.emit(store);
    assert(r1.ops.len() == c.mid_op + 1 && r1.ops[c.mid_op as int] == store && grows(
        s.a.kernel.raw,
        r1,
    ) && r1.values == s.a.kernel.raw.values) by {
        reveal(RawView::emit);
    }
    lemma_b_code(r1, f, e, c);
    let (r3, b_idx) = b_index(r1, c.swap_b, e, c.id(5), f.base);
    let (q, b_val) = r3.var_f(zero());
    assert(q == s.kb.raw && b_idx == s.b_idx && b_val == s.b_val) by {
        reveal(RawView::def);
        reveal(RawView::emit);
        reveal(RawView::share);
    }
    lemma_grows_on(s.a.kernel.raw, r1, s.kb.raw);
}

/// The whole code of a product.
pub proof fn lemma_product_code(
    f: Scope,
    backward: bool,
    e: Extent,
    terms: Terms,
    out: ValueId,
    kernel: LinkedView,
    resolved: Seq<NodeId>,
    known: Known,
)
    requires
        f.placed(terms.a),
        f.placed(terms.b),
        kernel.raw.values.len() + 10 <= usize::MAX,
        kernel.raw.shared.len() + 2 <= usize::MAX,
        ({
            let s = stages(f, backward, e, terms, kernel, resolved);
            &&& s.a.nodes is Ok
            &&& s.b.nodes is Ok
            &&& grows(s.ka.raw, s.a.kernel.raw)
            &&& grows(s.kb.raw, s.b.kernel.raw)
            &&& s.a.kernel.raw.values.len() + 4 <= usize::MAX
            &&& s.b.kernel.raw.values.len() + 7 <= usize::MAX
        }),
    ensures
        ({
            let s = stages(f, backward, e, terms, kernel, resolved);
            let c = code_of(f, e, terms, out, kernel, s, known);
            let l = product(f, backward, e, terms, out, kernel, resolved);
            let q = l.kernel.raw;
            &&& l.nodes == Ok::<Seq<NodeId>, crate::errors::Error>(s.a.nodes->Ok_0 + s.b.nodes->Ok_0)
            &&& l.resolved == s.b.resolved
            &&& l.kernel == LinkedView { raw: q, ..s.b.kernel }
            &&& c.heads(q)
            &&& c.fetches_a(q)
            &&& c.fetches_b(q)
            &&& c.multiplies(q)
            &&& grows(kernel.raw, q)
            &&& grows(s.ka.raw, q)
            &&& grows(s.a.kernel.raw, q)
            &&& grows(s.kb.raw, q)
            &&& grows(s.b.kernel.raw, q)
            &&& q.values.len() == c.late_value + 7
            &&& q.ops.len() == c.late_op + 14
        }),
{
    let s = stages(f, backward, e, terms, kernel, resolved);
    let c = code_of(f, e, terms, out, kernel, s, known);
    lemma_first_stage(f, backward, e, terms, out, kernel, resolved, known);
    lemma_second_stage(f, backward, e, terms, out, kernel, resolved, known);
    let store = Op::SharedStore { mem: c.b_tile, index: c.id(3), value: c.mid(3) };
    let r2 = s.b.kernel.raw.emit(store).emit(Op::Barrier);
    assert(r2.ops.len() == c.late_op + 2 && r2.ops[c.late_op as int] == store && r2.ops[(c.late_op
        + 1) as int] == Op::Barrier && grows(s.b.kernel.raw, r2) && r2.values
        == s.b.kernel.raw.values) by {
        reveal(RawView::emit);
    }
    lemma_tile_product_code(r2, f, c);
    let q = tile_product(r2, f, c.a_tile, c.b_tile, c.id(0), c.out).emit(Op::Barrier).emit(
        Op::EndScope,
    );
    let l = product(f, backward, e, terms, out, kernel, resolved);
    lemma_names_of(f, e, kernel, c);
    let (raw, a_tile) = kernel.raw.share(DType::Float, f.shared_size);
    let (raw, b_tile) = raw.share(DType::Float, f.shared_size);
    let (raw, one) = raw.inline_u(Op::ConstU32 { value: 1 });
    let (raw, tk) = raw.var_u(Op::ConstU32 { value: 0 });
    let (raw, tile_row) = raw.inline_u(Op::Mul { a: f.local_row, b: f.tile_size });
    let (raw, shared_idx) = raw.var_u(Op::Add { a: tile_row, b: f.local_col });
    let r0 = raw.emit(Op::ForLoopBegin { index: tk, end: e.k, step: f.tile_size });
    let t = tile_round(
        f,
        backward,
        e,
        terms,
        (a_tile, b_tile),
        one,
        tk,
        shared_idx,
        out,
        LinkedView { raw: r0, ..kernel },
        resolved,
    );
    assert(t.nodes is Ok && t.kernel.raw.emit(Op::EndScope) == q);
    lemma_grows_on(s.b.kernel.raw, r2, q);
    lemma_grows_on(s.kb.raw, s.b.kernel.raw, q);
    lemma_grows_on(s.a.kernel.raw, s.kb.raw, q);
    lemma_grows_on(s.ka.raw, s.a.kernel.raw, q);
    lemma_grows_on(kernel.raw, s.ka.raw, q);
    assert(c.heads(q) && c.locates_a(q)) by {
        lemma_code_extends(c, s.ka.raw, q);
    }
    assert(c.locates_b(q)) by {
        lemma_code_extends(c, s.kb.raw, q);
    }
    assert(q.ops[c.mid_op as int] == s.kb.raw.ops[c.mid_op as int]);
    assert(q.ops[c.late_op as int] == r2.ops[c.late_op as int]);
    assert(q.ops[(c.late_op + 1) as int] == r2.ops[(c.late_op + 1) as int]);
}

/// The values that a product begins with.
proof fn lemma_names_of(f: Scope, e: Extent, kernel: LinkedView, c: Code)
    requires
        kernel.raw.values.len() + 10 <= usize::MAX,
        kernel.raw.shared.len() + 2 <= usize::MAX,
        c.first == kernel.raw.values.len(),
        c.a_tile == kernel.raw.shared.len(),
        c.b_tile == kernel.raw.shared.len() + 1,
    ensures
        ({
            let (raw, a_tile) = kernel.raw.share(DType::Float, f.shared_size);
            let (raw, b_tile) = raw.share(DType::Float, f.shared_size);
            let (raw, one) = raw.inline_u(Op::ConstU32 { value: 1 });
            let (raw, tk) = raw.var_u(Op::ConstU32 { value: 0 });
            let (raw, tile_row) = raw.inline_u(Op::Mul { a: f.local_row, b: f.tile_size });
            let (raw, shared_idx) = raw.var_u(Op::Add { a: tile_row, b: f.local_col });
            &&& a_tile == c.a_tile
            &&& b_tile == c.b_tile
            &&& one == c.id(0)
            &&& tk == c.id(1)
            &&& shared_idx == c.id(3)
        }),
{
    reveal(RawView::def);
    reveal(RawView::share);
}

proof fn lemma_tile_product_grows(
    r: RawView,
    f: Scope,
    tiles: (usize, usize),
    one: ValueId,
    out: ValueId,
)
    ensures
        ({
            let q = tile_product(r, f, tiles.0, tiles.1, one, out).emit(Op::Barrier).emit(
                Op::EndScope,
            );
            &&& grows(r, q)
            &&& q.values.len() == r.values.len() + 7
        }),
{
    reveal(RawView::def);
    reveal(RawView::emit);
}

/// The stages of a product go on from each other.
#[verifier::rlimit(40)]
#[verifier::spinoff_prover]
pub proof fn lemma_stages_grow(
    f: Scope,
    backward: bool,
    e: Extent,
    terms: Terms,
    out: ValueId,
    kernel: LinkedView,
    resolved: Seq<NodeId>,
)
    requires
        f.placed(terms.a),
        f.placed(terms.b),
    ensures
        ({
            let s = stages(f, backward, e, terms, kernel, resolved);
            let l = product(f, backward, e, terms, out, kernel, resolved);
            &&& grows(kernel.raw, s.ka.raw)
            &&& s.ka.raw.values.len() == kernel.raw.values.len() + 10
            &&& s.ka.raw.shared.len() == kernel.raw.shared.len() + 2
            &&& grows(s.a.kernel.raw, s.kb.raw)
            &&& s.kb.raw.values.len() == s.a.kernel.raw.values.len() + 4
            &&& s.a_idx == (kernel.raw.values.len() + 8) as usize
            &&& s.a_val == (kernel.raw.values.len() + 9) as usize
            &&& s.b_idx == (s.a.kernel.raw.values.len() + 2) as usize
            &&& s.b_val == (s.a.kernel.raw.values.len() + 3) as usize
            &&& l.nodes is Ok ==> {
                &&& s.a.nodes is Ok
                &&& s.b.nodes is Ok
                &&& l.resolved == s.b.resolved
                &&& l.nodes->Ok_0 == s.a.nodes->Ok_0 + s.b.nodes->Ok_0
                &&& grows(s.b.kernel.raw, l.kernel.raw)
                &&& l.kernel.raw.values.len() == s.b.kernel.raw.values.len() + 7
            }
        }),
{
    let s = stages(f, backward, e, terms, kernel, resolved);
    let l = product(f, backward, e, terms, out, kernel, resolved);
    let (raw, a_tile) = kernel.raw.share(DType::Float, f.shared_size);
    let (raw, b_tile) = raw.share(DType::Float, f.shared_size);
    let (raw, one) = raw.inline_u(Op::ConstU32 { value: 1 });
    let (raw, tk) = raw.var_u(Op::ConstU32 { value: 0 });
    let (raw, tile_row) = raw.inline_u(Op::Mul { a: f.local_row, b: f.tile_size });
    let (raw, shared_idx) = raw.var_u(Op::Add { a: tile_row, b: f.local_col });
    let r0 = raw.emit(Op::ForLoopBegin { index: tk, end: e.k, step: f.tile_size });
    assert(grows(kernel.raw, r0) && r0.values.len() == kernel.raw.values.len() + 4
        && r0.shared.len() == kernel.raw.shared.len() + 2) by {
        reveal(RawView::def);
        reveal(RawView::emit);
        reveal(RawView::share);
    }
    assert(grows(r0, s.ka.raw) && s.ka.raw.values.len() == r0.values.len() + 6
        && s.ka.raw.shared.len() == r0.shared.len() && s.a_idx == (r0.values.len() + 4) as usize
        && s.a_val == (r0.values.len() + 5) as usize) by {
        reveal(RawView::def);
    }
    lemma_grows_on(kernel.raw, r0, s.ka.raw);
    let r1 = s.a.kernel.raw.emit(
        Op::SharedStore { mem: a_tile, index: shared_idx, value: s.a_val },
    );
    assert(grows(s.a.kernel.raw, r1) && r1.values == s.a.kernel.raw.values) by {
        reveal(RawView::emit);
    }
    assert(grows(r1, s.kb.raw) && s.kb.raw.values.len() == r1.values.len() + 4 && s.b_idx == (
    r1.values.len() + 2) as usize && s.b_val == (r1.values.len() + 3) as usize) by {
        reveal(RawView::def);
    }
    lemma_grows_on(s.a.kernel.raw, r1, s.kb.raw);
    if l.nodes is Ok {
        let t = tile_round(
            f,
            backward,
            e,
            terms,
            (a_tile, b_tile),
            one,
            tk,
            shared_idx,
            out,
            LinkedView { raw: r0, ..kernel },
            resolved,
        );
        assert(s.a.nodes is Ok && s.b.nodes is Ok);
        let r2 = s.b.kernel.raw.emit(
            Op::SharedStore { mem: b_tile, index: shared_idx, value: s.b_val },
        ).emit(Op::Barrier);
        let q = tile_product(r2, f, a_tile, b_tile, one, out).emit(Op::Barrier).emit(Op::EndScope);
        assert(l.kernel.raw == q);
        lemma_tile_product_grows(r2, f, (a_tile, b_tile), one, out);
        assert(grows(s.b.kernel.raw, r2) && r2.values == s.b.kernel.raw.values) by {
            reveal(RawView::emit);
        }
        lemma_grows_on(s.b.kernel.raw, r2, q);
    }
}

} // verus!
