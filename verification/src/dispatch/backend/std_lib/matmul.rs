//! Matrix multiplication, tile by tile.

use vstd::prelude::*;

use crate::dispatch::backend::graph::grown;
use crate::dispatch::backend::kernel::backward::{eval_grad, node_grad};
use crate::dispatch::backend::kernel::forward::{eval_node, node_value};
use crate::dispatch::backend::kernel::frame::{
    reached, stopped, Frame, Lowered, NodeInput, Operand, Scope,
};
use crate::dispatch::backend::kernel::raw::{LinkedKernel, LinkedView, RawKernel, RawView};
use crate::dispatch::backend::{
    Axis, DType, DispatchOptions, Graph, GraphOp, MetaId, NodeId, Op, OpName, SaveRule, ShapeRule,
    SharedId, ValueId,
};
use crate::errors::{Error, ErrorKind};
use crate::scalar::{Float32, ZERO_BITS};

verus! {

/// What the two factors of a product are, and which of them are read transposed.
pub struct Factors<'a> {
    pub a_node: NodeInput<'a>,
    pub b_node: NodeInput<'a>,
    pub swap_a: bool,
    pub swap_b: bool,
}

/// What [`Factors`] stand for.
pub struct Terms {
    pub a: Operand,
    pub b: Operand,
    pub swap_a: bool,
    pub swap_b: bool,
}

impl View for Factors<'_> {
    type V = Terms;

    open spec fn view(&self) -> Terms {
        Terms {
            a: self.a_node@,
            b: self.b_node@,
            swap_a: self.swap_a,
            swap_b: self.swap_b,
        }
    }
}

/// The values that a product works with: its three dimensions, and the row and the column of the
/// result that a thread computes.
#[derive(Clone, Copy)]
pub struct Extent {
    pub m: ValueId,
    pub n: ValueId,
    pub k: ValueId,
    pub row: ValueId,
    pub col: ValueId,
}

/// How much of a pass is left when it evaluates a node.
pub open spec fn rest(f: Scope, backward: bool, node: Operand) -> nat {
    if backward {
        f.above(node)
    } else {
        f.below(node)
    }
}

/// Whether all the nodes take inputs and lie in the rest of a pass.
pub open spec fn reaches_rest(f: Scope, backward: bool, rest: nat, ids: Seq<NodeId>) -> bool {
    if backward {
        f.between(ids, f.count() - rest, f.count() as int)
    } else {
        f.between(ids, 0, rest as int)
    }
}

/// Whether a node whose gradient is evaluated takes inputs.
pub open spec fn computes(f: Scope, backward: bool, node: Operand) -> bool {
    backward ==> (node matches Operand::Node(n) ==> f.node(n).inputs@.len() > 0)
}

/// How much of a pass is left when it multiplies.
pub open spec fn terms_rest(f: Scope, backward: bool, terms: Terms) -> nat {
    let a = rest(f, backward, terms.a);
    let b = rest(f, backward, terms.b);
    if a < b {
        b
    } else {
        a
    }
}

/// What evaluating a node, or its gradient in a backward pass, does to a kernel.
pub open spec fn factor_value(
    f: Scope,
    backward: bool,
    node: Operand,
    out: ValueId,
    kernel: LinkedView,
    resolved: Seq<NodeId>,
    idx: ValueId,
) -> Lowered
    decreases rest(f, backward, node), 1int, 0int,
    when f.placed(node)
{
    if backward {
        node_grad(f, node, out, kernel, resolved, idx, false)
    } else {
        node_value(f, node, out, kernel, resolved, idx, false)
    }
}

fn eval_factor(
    frame: &Frame<'_>,
    backward: bool,
    node: &NodeInput<'_>,
    out: ValueId,
    resolved: &mut Vec<NodeId>,
    kernel: &mut LinkedKernel,
    idx: ValueId,
) -> (r: Result<Vec<NodeId>, Error>)
    requires
        frame@.fits(old(kernel)@, old(resolved)@),
        frame@.knows(node@, old(kernel)@.params.len()),
        computes(frame@, backward, node@),
    ensures
        (Lowered { kernel: final(kernel)@, resolved: final(resolved)@, nodes: reached(r) })
            == factor_value(
            frame@,
            backward,
            node@,
            out,
            old(kernel)@,
            old(resolved)@,
            idx,
        ),
        frame@.fits(final(kernel)@, final(resolved)@),
        final(kernel)@.params.len() == old(kernel)@.params.len(),
        final(kernel)@.meta.len() == old(kernel)@.meta.len(),
        r matches Ok(ids) ==> reaches_rest(
            frame@,
            backward,
            rest(frame@, backward, node@),
            ids@,
        ),
    decreases rest(frame@, backward, node@), 1int, 0int,
{
    if backward {
        eval_grad(frame, node, out, resolved, kernel, idx, false)
    } else {
        eval_node(frame, node, out, resolved, kernel, idx, false)
    }
}

/// The kernel with the index `x * y + z + base`.
pub open spec fn flat_index(r: RawView, x: ValueId, y: ValueId, z: ValueId, base: ValueId) -> (
    RawView,
    ValueId,
) {
    let (r, row) = r.inline_u(Op::Mul { a: x, b: y });
    let (r, col) = r.inline_u(Op::Add { a: row, b: z });
    r.let_u(Op::Add { a: col, b: base })
}

fn emit_flat_index(
    raw: &mut RawKernel,
    x: ValueId,
    y: ValueId,
    z: ValueId,
    base: ValueId,
) -> (id: ValueId)
    ensures
        (final(raw)@, id) == flat_index(old(raw)@, x, y, z, base),
{
    let row: ValueId = raw.inline_u(Op::Mul { a: x, b: y });
    let col: ValueId = raw.inline_u(Op::Add { a: row, b: z });
    raw.let_u(Op::Add { a: col, b: base })
}

/// The kernel with one product of two tiles added to `out`.
pub open spec fn tile_product(
    r: RawView,
    f: Scope,
    a_tile: SharedId,
    b_tile: SharedId,
    one: ValueId,
    out: ValueId,
) -> RawView {
    let (r, inner) = r.var_u(Op::ConstU32 { value: 0 });
    let r = r.emit(Op::ForLoopBegin { index: inner, end: f.tile_size, step: one });
    let (r, a_s_row) = r.inline_u(Op::Mul { a: f.local_row, b: f.tile_size });
    let (r, a_s_idx) = r.let_u(Op::Add { a: a_s_row, b: inner });
    let (r, a_val) = r.let_f(Op::SharedLoad { mem: a_tile, index: a_s_idx });
    let (r, b_s_row) = r.inline_u(Op::Mul { a: inner, b: f.tile_size });
    let (r, b_s_idx) = r.let_u(Op::Add { a: b_s_row, b: f.local_col });
    let (r, b_val) = r.let_f(Op::SharedLoad { mem: b_tile, index: b_s_idx });
    let r = r.assign(out, Op::Fma { a: a_val, b: b_val, c: out });
    r.emit(Op::EndScope)
}

fn emit_tile_product(
    raw: &mut RawKernel,
    frame: &Frame<'_>,
    a_tile: SharedId,
    b_tile: SharedId,
    one: ValueId,
    out: ValueId,
)
    ensures
        final(raw)@ == tile_product(old(raw)@, frame@, a_tile, b_tile, one, out),
{
    let inner: ValueId = raw.var_u(Op::ConstU32 { value: 0 });
    raw.emit(Op::ForLoopBegin { index: inner, end: frame.tile_size, step: one });
    let a_s_row: ValueId = raw.inline_u(Op::Mul { a: frame.local_row, b: frame.tile_size });
    let a_s_idx: ValueId = raw.let_u(Op::Add { a: a_s_row, b: inner });
    let a_val: ValueId = raw.let_f(Op::SharedLoad { mem: a_tile, index: a_s_idx });
    let b_s_row: ValueId = raw.inline_u(Op::Mul { a: inner, b: frame.tile_size });
    let b_s_idx: ValueId = raw.let_u(Op::Add { a: b_s_row, b: frame.local_col });
    let b_val: ValueId = raw.let_f(Op::SharedLoad { mem: b_tile, index: b_s_idx });
    raw.overwrite_var(out, Op::Fma { a: a_val, b: b_val, c: out });
    raw.emit(Op::EndScope);
}

/// The index of the element of the first factor that a thread brings into its tile.
pub open spec fn a_index(r: RawView, swap: bool, e: Extent, a_k: ValueId, base: ValueId) -> (
    RawView,
    ValueId,
) {
    if swap {
        flat_index(r, a_k, e.m, e.row, base)
    } else {
        flat_index(r, e.row, e.k, a_k, base)
    }
}

/// The index of the element of the second factor that a thread brings into its tile.
pub open spec fn b_index(r: RawView, swap: bool, e: Extent, b_k: ValueId, base: ValueId) -> (
    RawView,
    ValueId,
) {
    if swap {
        flat_index(r, e.col, e.k, b_k, base)
    } else {
        flat_index(r, b_k, e.n, e.col, base)
    }
}

/// What one round over the tiles does to a kernel: each thread brings one element of each factor
/// into the tiles, and then adds the product of the tiles to `out`.
pub open spec fn tile_round(
    f: Scope,
    backward: bool,
    e: Extent,
    terms: Terms,
    tiles: (SharedId, SharedId),
    one: ValueId,
    tk: ValueId,
    shared_idx: ValueId,
    out: ValueId,
    kernel: LinkedView,
    resolved: Seq<NodeId>,
) -> Lowered
    decreases terms_rest(f, backward, terms), 2int, 0int,
    when f.placed(terms.a) && f.placed(terms.b)
{
    let zero = Op::ConstF32 { value: Float32 { bits: ZERO_BITS } };
    let (raw, a_k) = kernel.raw.let_u(Op::Add { a: tk, b: f.local_col });
    let (raw, b_k) = raw.let_u(Op::Add { a: tk, b: f.local_row });
    let (raw, a_idx) = a_index(raw, terms.swap_a, e, a_k, f.base);
    let (raw, a_val) = raw.var_f(zero);
    let a = factor_value(
        f,
        backward,
        terms.a,
        a_val,
        LinkedView { raw, ..kernel },
        resolved,
        a_idx,
    );
    match a.nodes {
        Err(_) => a,
        Ok(a_nodes) => {
            let raw = a.kernel.raw.emit(
                Op::SharedStore { mem: tiles.0, index: shared_idx, value: a_val },
            );
            let (raw, b_idx) = b_index(raw, terms.swap_b, e, b_k, f.base);
            let (raw, b_val) = raw.var_f(zero);
            let b = factor_value(
                f,
                backward,
                terms.b,
                b_val,
                LinkedView { raw, ..a.kernel },
                a.resolved,
                b_idx,
            );
            match b.nodes {
                Err(_) => b,
                Ok(b_nodes) => {
                    let raw = b.kernel.raw.emit(
                        Op::SharedStore { mem: tiles.1, index: shared_idx, value: b_val },
                    );
                    let raw = raw.emit(Op::Barrier);
                    let raw = tile_product(raw, f, tiles.0, tiles.1, one, out);
                    let raw = raw.emit(Op::Barrier);
                    Lowered {
                        kernel: LinkedView { raw, ..b.kernel },
                        resolved: b.resolved,
                        nodes: Ok(a_nodes + b_nodes),
                    }
                },
            }
        },
    }
}

fn lower_tile_round(
    frame: &Frame<'_>,
    backward: bool,
    e: Extent,
    factors: &Factors<'_>,
    tiles: (SharedId, SharedId),
    one: ValueId,
    tk: ValueId,
    shared_idx: ValueId,
    out: ValueId,
    resolved: &mut Vec<NodeId>,
    kernel: &mut LinkedKernel,
) -> (r: Result<Vec<NodeId>, Error>)
    requires
        frame@.fits(old(kernel)@, old(resolved)@),
        frame@.knows(factors.a_node@, old(kernel)@.params.len()),
        frame@.knows(factors.b_node@, old(kernel)@.params.len()),
        computes(frame@, backward, factors.a_node@),
        computes(frame@, backward, factors.b_node@),
    ensures
        (Lowered { kernel: final(kernel)@, resolved: final(resolved)@, nodes: reached(r) })
            == tile_round(
            frame@,
            backward,
            e,
            factors@,
            tiles,
            one,
            tk,
            shared_idx,
            out,
            old(kernel)@,
            old(resolved)@,
        ),
        frame@.fits(final(kernel)@, final(resolved)@),
        final(kernel)@.params.len() == old(kernel)@.params.len(),
        final(kernel)@.meta.len() == old(kernel)@.meta.len(),
        r matches Ok(ids) ==> reaches_rest(
            frame@,
            backward,
            terms_rest(frame@, backward, factors@),
            ids@,
        ),
    decreases terms_rest(frame@, backward, factors@), 2int, 0int,
{
    let a_k: ValueId = kernel.raw.let_u(Op::Add { a: tk, b: frame.local_col });
    let b_k: ValueId = kernel.raw.let_u(Op::Add { a: tk, b: frame.local_row });
    let a_idx: ValueId = if factors.swap_a {
        emit_flat_index(&mut kernel.raw, a_k, e.m, e.row, frame.base)
    } else {
        emit_flat_index(&mut kernel.raw, e.row, e.k, a_k, frame.base)
    };
    let a_val: ValueId = kernel.raw.var_f(Op::ConstF32 { value: Float32 { bits: ZERO_BITS } });
    let mut deepest = match eval_factor(
        frame,
        backward,
        &factors.a_node,
        a_val,
        resolved,
        kernel,
        a_idx,
    ) {
        Ok(a_deepest) => a_deepest,
        Err(e) => {
            return Err(e);
        },
    };
    kernel.raw.shared_store(tiles.0, shared_idx, a_val);
    let b_idx: ValueId = if factors.swap_b {
        emit_flat_index(&mut kernel.raw, e.col, e.k, b_k, frame.base)
    } else {
        emit_flat_index(&mut kernel.raw, b_k, e.n, e.col, frame.base)
    };
    let b_val: ValueId = kernel.raw.var_f(Op::ConstF32 { value: Float32 { bits: ZERO_BITS } });
    match eval_factor(frame, backward, &factors.b_node, b_val, resolved, kernel, b_idx) {
        Ok(mut b_deepest) => {
            deepest.append(&mut b_deepest);
        },
        Err(e) => {
            return Err(e);
        },
    }
    kernel.raw.shared_store(tiles.1, shared_idx, b_val);
    kernel.raw.push_barrier();
    emit_tile_product(&mut kernel.raw, frame, tiles.0, tiles.1, one, out);
    kernel.raw.push_barrier();
    Ok(deepest)
}

/// What multiplying two factors into `out` does to a kernel.
pub open spec fn product(
    f: Scope,
    backward: bool,
    e: Extent,
    terms: Terms,
    out: ValueId,
    kernel: LinkedView,
    resolved: Seq<NodeId>,
) -> Lowered
    decreases terms_rest(f, backward, terms), 3int, 0int,
    when f.placed(terms.a) && f.placed(terms.b)
{
    let (raw, a_tile) = kernel.raw.share(DType::Float, f.shared_size);
    let (raw, b_tile) = raw.share(DType::Float, f.shared_size);
    let (raw, one) = raw.inline_u(Op::ConstU32 { value: 1 });
    let (raw, tk) = raw.var_u(Op::ConstU32 { value: 0 });
    let (raw, tile_row) = raw.inline_u(Op::Mul { a: f.local_row, b: f.tile_size });
    let (raw, shared_idx) = raw.var_u(Op::Add { a: tile_row, b: f.local_col });
    let raw = raw.emit(Op::ForLoopBegin { index: tk, end: e.k, step: f.tile_size });
    let l = tile_round(
        f,
        backward,
        e,
        terms,
        (a_tile, b_tile),
        one,
        tk,
        shared_idx,
        out,
        LinkedView { raw, ..kernel },
        resolved,
    );
    Lowered { kernel: l.kernel.emit(Op::EndScope), resolved: l.resolved, nodes: l.nodes }
}

/// Multiplies two factors into `out`, and returns the nodes that evaluating them reached.
pub fn forward_matmul(
    frame: &Frame<'_>,
    backward: bool,
    resolved: &mut Vec<NodeId>,
    e: Extent,
    factors: &Factors<'_>,
    out: ValueId,
    kernel: &mut LinkedKernel,
) -> (r: Result<Vec<NodeId>, Error>)
    requires
        frame@.fits(old(kernel)@, old(resolved)@),
        frame@.knows(factors.a_node@, old(kernel)@.params.len()),
        frame@.knows(factors.b_node@, old(kernel)@.params.len()),
        computes(frame@, backward, factors.a_node@),
        computes(frame@, backward, factors.b_node@),
    ensures
        (Lowered { kernel: final(kernel)@, resolved: final(resolved)@, nodes: reached(r) })
            == product(frame@, backward, e, factors@, out, old(kernel)@, old(resolved)@),
        frame@.fits(final(kernel)@, final(resolved)@),
        final(kernel)@.params.len() == old(kernel)@.params.len(),
        final(kernel)@.meta.len() == old(kernel)@.meta.len(),
        r matches Ok(ids) ==> reaches_rest(
            frame@,
            backward,
            terms_rest(frame@, backward, factors@),
            ids@,
        ),
    decreases terms_rest(frame@, backward, factors@), 3int, 0int,
{
    let a_tile: SharedId = kernel.raw.new_shared(DType::Float, frame.shared_size);
    let b_tile: SharedId = kernel.raw.new_shared(DType::Float, frame.shared_size);
    let one: ValueId = kernel.raw.inline_u(Op::ConstU32 { value: 1 });
    let tk: ValueId = kernel.raw.var_u(Op::ConstU32 { value: 0 });
    let tile_row: ValueId = kernel.raw.inline_u(
        Op::Mul { a: frame.local_row, b: frame.tile_size },
    );
    let shared_idx: ValueId = kernel.raw.var_u(Op::Add { a: tile_row, b: frame.local_col });
    kernel.raw.emit(Op::ForLoopBegin { index: tk, end: e.k, step: frame.tile_size });
    let r = lower_tile_round(
        frame,
        backward,
        e,
        factors,
        (a_tile, b_tile),
        one,
        tk,
        shared_idx,
        out,
        resolved,
        kernel,
    );
    kernel.raw.emit(Op::EndScope);
    r
}

/// A dimension of a node, counted from the last.
pub open spec fn dim(f: Scope, n: NodeId, from_last: int) -> MetaId {
    let shape = f.node(n).shape@;
    shape[shape.len() - 1 - from_last]
}

/// The fields of the dimensions of the product that a pass computes: `m` rows, `n` columns, and
/// `k` terms for each element.
///
/// The gradient of the first operand is the gradient of the node times the second operand
/// transposed, and that of the second operand is the first operand transposed times the gradient
/// of the node.
pub open spec fn product_fields(f: Scope, backwardness: Option<u8>, n: NodeId) -> (
    MetaId,
    MetaId,
    MetaId,
) {
    let a = f.input(n, 0);
    let b = f.input(n, 1);
    match backwardness {
        None => (dim(f, a, 1), dim(f, b, 0), dim(f, a, 0)),
        Some(edge) => if edge == 0 {
            (dim(f, n, 1), dim(f, b, 1), dim(f, n, 0))
        } else {
            (dim(f, a, 0), dim(f, n, 0), dim(f, a, 1))
        },
    }
}

/// What reading the dimensions of a product, and multiplying, does to a kernel. A forward pass
/// starts `out` at zero.
pub open spec fn sized_product(
    f: Scope,
    backward: bool,
    fields: (MetaId, MetaId, MetaId),
    row: ValueId,
    col: ValueId,
    terms: Terms,
    out: ValueId,
    kernel: LinkedView,
    resolved: Seq<NodeId>,
) -> Lowered
    decreases terms_rest(f, backward, terms), 4int, 0int,
    when f.placed(terms.a) && f.placed(terms.b)
{
    let (raw, m) = kernel.raw.let_u(Op::ReadMeta { param: 0, field: fields.0 });
    let (raw, n) = raw.let_u(Op::ReadMeta { param: 0, field: fields.1 });
    let (raw, k) = raw.let_u(Op::ReadMeta { param: 0, field: fields.2 });
    let kernel = LinkedView { raw, ..kernel }.field(fields.0).field(fields.1).field(fields.2);
    let kernel = if backward {
        kernel
    } else {
        kernel.assign(out, Op::ConstF32 { value: Float32 { bits: ZERO_BITS } })
    };
    product(f, backward, Extent { m, n, k, row, col }, terms, out, kernel, resolved)
}

fn lower_sized_product(
    frame: &Frame<'_>,
    backward: bool,
    fields: (MetaId, MetaId, MetaId),
    row: ValueId,
    col: ValueId,
    factors: &Factors<'_>,
    out: ValueId,
    resolved: &mut Vec<NodeId>,
    kernel: &mut LinkedKernel,
) -> (r: Result<Vec<NodeId>, Error>)
    requires
        frame@.fits(old(kernel)@, old(resolved)@),
        frame@.knows(factors.a_node@, old(kernel)@.params.len()),
        frame@.knows(factors.b_node@, old(kernel)@.params.len()),
        computes(frame@, backward, factors.a_node@),
        computes(frame@, backward, factors.b_node@),
        fields.0 < old(kernel)@.meta.len(),
        fields.1 < old(kernel)@.meta.len(),
        fields.2 < old(kernel)@.meta.len(),
    ensures
        (Lowered { kernel: final(kernel)@, resolved: final(resolved)@, nodes: reached(r) })
            == sized_product(
            frame@,
            backward,
            fields,
            row,
            col,
            factors@,
            out,
            old(kernel)@,
            old(resolved)@,
        ),
        frame@.fits(final(kernel)@, final(resolved)@),
        final(kernel)@.params.len() == old(kernel)@.params.len(),
        final(kernel)@.meta.len() == old(kernel)@.meta.len(),
        r matches Ok(ids) ==> reaches_rest(
            frame@,
            backward,
            terms_rest(frame@, backward, factors@),
            ids@,
        ),
    decreases terms_rest(frame@, backward, factors@), 4int, 0int,
{
    kernel.register_meta(fields.0);
    kernel.register_meta(fields.1);
    kernel.register_meta(fields.2);
    let m: ValueId = kernel.raw.let_u(Op::ReadMeta { param: 0, field: fields.0 });
    let n: ValueId = kernel.raw.let_u(Op::ReadMeta { param: 0, field: fields.1 });
    let k: ValueId = kernel.raw.let_u(Op::ReadMeta { param: 0, field: fields.2 });
    if !backward {
        kernel.raw.overwrite_var(out, Op::ConstF32 { value: Float32 { bits: ZERO_BITS } });
    }
    forward_matmul(
        frame,
        backward,
        resolved,
        Extent { m, n, k, row, col },
        factors,
        out,
        kernel,
    )
}

/// What lowering a matrix product does to a kernel.
pub open spec fn matmul_lowering(
    f: Scope,
    backwardness: Option<u8>,
    n: NodeId,
    out: ValueId,
    kernel: LinkedView,
    resolved: Seq<NodeId>,
) -> Lowered
    decreases f.left(backwardness, n), 5int, 0int,
    when f.operable(n) && f.node(n).inputs@.len() >= 2
{
    let (raw, row) = kernel.raw.let_u(Op::GlobalId { axis: Axis::Y });
    let (raw, col) = raw.let_u(Op::GlobalId { axis: Axis::X });
    let kernel = LinkedView { raw, ..kernel };
    let a = f.input(n, 0);
    let b = f.input(n, 1);
    let fields = product_fields(f, backwardness, n);
    match backwardness {
        None => {
            let terms = Terms {
                a: Operand::Node(a),
                b: Operand::Node(b),
                swap_a: false,
                swap_b: false,
            };
            sized_product(f, false, fields, row, col, terms, out, kernel, resolved)
        },
        Some(edge) => match f.saved_params[if edge == 0 {
            b as int
        } else {
            a as int
        }] {
            None => stopped(
                kernel,
                resolved,
                "saved input parameter could not be materialized",
                ErrorKind::ParamNotMaterialized,
            ),
            Some(param) => {
                let terms = if edge == 0 {
                    Terms {
                        a: Operand::Node(n),
                        b: Operand::Raw(param),
                        swap_a: false,
                        swap_b: true,
                    }
                } else {
                    Terms {
                        a: Operand::Raw(param),
                        b: Operand::Node(n),
                        swap_a: true,
                        swap_b: false,
                    }
                };
                sized_product(f, true, fields, row, col, terms, out, kernel, resolved)
            },
        },
    }
}

/// Lowers a matrix product.
pub fn lower_matmul_recursive(
    frame: &Frame<'_>,
    resolved: &mut Vec<NodeId>,
    backwardness: Option<u8>,
    node_id: NodeId,
    out: ValueId,
    kernel: &mut LinkedKernel,
) -> (r: Result<Vec<NodeId>, Error>)
    requires
        frame@.fits(old(kernel)@, old(resolved)@),
        frame@.operable(node_id),
        frame@.node(node_id).inputs@.len() >= 2,
        frame@.node(node_id).shape@.len() >= 2,
        frame@.node(frame@.input(node_id, 0)).shape@.len() >= 2,
        frame@.node(frame@.input(node_id, 1)).shape@.len() >= 2,
        backwardness matches Some(edge) ==> edge <= 1,
    ensures
        (Lowered { kernel: final(kernel)@, resolved: final(resolved)@, nodes: reached(r) })
            == matmul_lowering(
            frame@,
            backwardness,
            node_id,
            out,
            old(kernel)@,
            old(resolved)@,
        ),
        frame@.fits(final(kernel)@, final(resolved)@),
        final(kernel)@.params.len() == old(kernel)@.params.len(),
        final(kernel)@.meta.len() == old(kernel)@.meta.len(),
        r matches Ok(ids) ==> frame@.reaches(backwardness, node_id, ids@),
    decreases frame@.left(backwardness, node_id), 5int, 0int,
{
    let row: ValueId = kernel.raw.let_u(Op::GlobalId { axis: Axis::Y });
    let col: ValueId = kernel.raw.let_u(Op::GlobalId { axis: Axis::X });
    let node = &frame.graph.nodes[node_id];
    let shape = &node.shape;
    let a: NodeId = node.inputs[0];
    let b: NodeId = node.inputs[1];
    let a_shape = &frame.graph.nodes[a].shape;
    let b_shape = &frame.graph.nodes[b].shape;
    match backwardness {
        None => {
            let fields = (
                a_shape[a_shape.len() - 2],
                b_shape[b_shape.len() - 1],
                a_shape[a_shape.len() - 1],
            );
            let factors = Factors {
                a_node: NodeInput::Node(a),
                b_node: NodeInput::Node(b),
                swap_a: false,
                swap_b: false,
            };
            lower_sized_product(
                frame,
                false,
                fields,
                row,
                col,
                &factors,
                out,
                resolved,
                kernel,
            )
        },
        Some(edge) => {
            let param = match frame.saved_params[if edge == 0 {
                b
            } else {
                a
            }] {
                Some(param) => param,
                None => {
                    return Err(
                        Error {
                            msg: "saved input parameter could not be materialized",
                            kind: ErrorKind::ParamNotMaterialized,
                            ctx: (),
                        },
                    );
                },
            };
            if edge == 0 {
                let fields = (
                    shape[shape.len() - 2],
                    b_shape[b_shape.len() - 2],
                    shape[shape.len() - 1],
                );
                let factors = Factors {
                    a_node: NodeInput::Node(node_id),
                    b_node: NodeInput::Raw { param, shape: b_shape.as_slice() },
                    swap_a: false,
                    swap_b: true,
                };
                lower_sized_product(
                    frame,
                    true,
                    fields,
                    row,
                    col,
                    &factors,
                    out,
                    resolved,
                    kernel,
                )
            } else {
                let fields = (
                    a_shape[a_shape.len() - 1],
                    shape[shape.len() - 1],
                    a_shape[a_shape.len() - 2],
                );
                let factors = Factors {
                    a_node: NodeInput::Raw { param, shape: a_shape.as_slice() },
                    b_node: NodeInput::Node(node_id),
                    swap_a: true,
                    swap_b: false,
                };
                lower_sized_product(
                    frame,
                    true,
                    fields,
                    row,
                    col,
                    &factors,
                    out,
                    resolved,
                    kernel,
                )
            }
        },
    }
}

/// A matrix product.
pub open spec fn matmul_op() -> GraphOp {
    GraphOp::Custom {
        lower: OpName::Matmul,
        display: OpName::Matmul,
        save: SaveRule::Matmul,
        valid_shape: ShapeRule::Matmul,
        arity: 2,
        need_dims: true,
        stable_iter: false,
        auto_save: true,
        computes_gid: true,
        prefer_separate: true,
        valid_dispatch: DispatchOptions::Any,
    }
}

/// The shape of a matrix product: that of the first operand, with the last dimension of the second.
pub open spec fn product_shape(a: Seq<MetaId>, b: Seq<MetaId>) -> Seq<MetaId> {
    a.update(a.len() - 1, b[a.len() - 1])
}

impl Graph {
    /// Adds the matrix product of two nodes.
    pub fn matmul(&mut self, a: NodeId, b: NodeId) -> (id: NodeId)
        requires
            a < old(self).nodes@.len(),
            b < old(self).nodes@.len(),
            1 <= old(self).nodes@[a as int].shape@.len()
                <= old(self).nodes@[b as int].shape@.len(),
        ensures
            id == old(self).nodes@.len(),
            final(self).loss == old(self).loss,
            grown(
                old(self).nodes@,
                matmul_op(),
                seq![a, b],
                product_shape(
                    old(self).nodes@[a as int].shape@,
                    old(self).nodes@[b as int].shape@,
                ),
                final(self).nodes@,
            ),
    {
        let mut shape = self.nodes[a].shape.clone();
        let last_idx: usize = shape.len() - 1;
        shape[last_idx] = self.nodes[b].shape[last_idx];
        let op = GraphOp::Custom {
            lower: OpName::Matmul,
            display: OpName::Matmul,
            save: SaveRule::Matmul,
            valid_shape: ShapeRule::Matmul,
            arity: 2,
            need_dims: true,
            stable_iter: false,
            auto_save: true,
            computes_gid: true,
            prefer_separate: true,
            valid_dispatch: DispatchOptions::Any,
        };
        let inputs: Vec<NodeId> = vec![a, b];
        assert(inputs@ == seq![a, b]);
        self.add_node(op, inputs, shape)
    }
}

} // verus!
