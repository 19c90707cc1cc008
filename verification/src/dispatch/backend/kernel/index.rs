//! The index that each thread works at.

use vstd::prelude::*;

use crate::dispatch::backend::kernel::raw::{LinkedKernel, LinkedView, RawKernel, RawView};
use crate::dispatch::backend::{
    axis_of, Axis, DType, MetaId, Metadata, NodeId, Op, ValueId, ValueState,
};

verus! {

/// The axis that a dimension is spread over: the third for all but the first two.
pub open spec fn axis_at(i: int) -> Axis {
    match axis_of(i as u8) {
        Some(axis) => axis,
        None => Axis::Z,
    }
}

/// The kernel with the extents of the first dimensions of a shape, and those values.
pub open spec fn dim_values(kernel: LinkedView, shape: Seq<MetaId>, count: nat) -> (
    LinkedView,
    Seq<ValueId>,
)
    decreases count,
{
    if count == 0 {
        (kernel, Seq::empty())
    } else {
        let (kernel, dims) = dim_values(kernel, shape, (count - 1) as nat);
        let field = shape[count - 1];
        let (raw, dim) = kernel.raw.let_u(Op::ReadMeta { param: 0, field });
        (LinkedView { raw, ..kernel }.field(field), dims.push(dim))
    }
}

fn emit_dims(kernel: &mut LinkedKernel, shape: &Vec<MetaId>) -> (dims: Vec<ValueId>)
    requires
        forall|i: int| 0 <= i < shape@.len() ==> shape@[i] < old(kernel)@.meta.len(),
    ensures
        (final(kernel)@, dims@) == dim_values(old(kernel)@, shape@, shape@.len()),
        dims@.len() == shape@.len(),
        forall|i: int| 0 <= i < dims@.len() ==> dims@[i] < final(kernel)@.raw.values.len(),
        final(kernel)@.params.len() == old(kernel)@.params.len(),
        final(kernel)@.meta.len() == old(kernel)@.meta.len(),
{
    let mut dims: Vec<ValueId> = Vec::new();
    let mut i: usize = 0;
    let ghost start = kernel@;
    while i < shape.len()
        invariant
            i <= shape@.len(),
            dims@.len() == i,
            forall|j: int| 0 <= j < shape@.len() ==> shape@[j] < start.meta.len(),
            forall|j: int| 0 <= j < dims@.len() ==> dims@[j] < kernel@.raw.values.len(),
            (kernel@, dims@) == dim_values(start, shape@, i as nat),
            kernel@.params.len() == start.params.len(),
            kernel@.meta.len() == start.meta.len(),
        decreases shape@.len() - i,
    {
        let field: MetaId = shape[i];
        let dim: ValueId = kernel.raw.let_u(Op::ReadMeta { param: 0, field });
        kernel.register_meta(field);
        dims.push(dim);
        i += 1;
    }
    dims
}

/// The values of an index under construction.
#[derive(Clone, Copy)]
pub struct IndexVars {
    /// The index.
    pub gid: ValueId,
    /// The share of one dimension.
    pub gid2: ValueId,
    /// The product of the dimensions so far.
    pub total: ValueId,
}

/// The kernel with one more dimension in the index, and the offset of the batch.
///
/// The second dimension counts rows. Each further one counts all that came before it, and the
/// first of these is the offset of the batch.
pub open spec fn index_step(
    r: RawView,
    v: IndexVars,
    base: ValueId,
    i: int,
    dim: ValueId,
    backward: bool,
) -> (RawView, ValueId) {
    let r = r.assign(v.gid2, Op::GlobalId { axis: axis_at(i) });
    let r = if i >= 2 {
        r.assign(v.gid2, Op::Mul { a: v.total, b: v.gid2 })
    } else {
        r.assign(v.gid2, Op::Mul { a: dim, b: v.gid2 })
    };
    let r = if i == 2 {
        r.with_state(base, ValueState::Masked)
    } else {
        r
    };
    let r = if backward {
        r.accum(v.gid, Op::CopyVar { id: v.gid2 })
    } else {
        r.assign(v.gid, Op::Add { a: v.gid, b: v.gid2 })
    };
    let r = r.assign(v.total, Op::Mul { a: v.total, b: dim });
    (r, if i == 2 {
        v.gid2
    } else {
        base
    })
}

/// The kernel with the dimensions up to the given one in the index, and the offset of the batch.
pub open spec fn index_steps(
    r: RawView,
    v: IndexVars,
    base: ValueId,
    dims: Seq<ValueId>,
    upto: nat,
    backward: bool,
) -> (RawView, ValueId)
    decreases upto,
{
    if upto <= 1 {
        (r, base)
    } else {
        let (r, base) = index_steps(r, v, base, dims, (upto - 1) as nat, backward);
        index_step(r, v, base, upto - 1, dims[upto - 1], backward)
    }
}

/// The kernel with the index of a thread, the offset of its batch, and the index.
///
/// In a backward pass the last two of more than three dimensions change places.
pub open spec fn grid_index(kernel: LinkedView, shape: Seq<MetaId>, backward: bool) -> (
    LinkedView,
    ValueId,
    ValueId,
) {
    let (kernel, dims) = dim_values(kernel, shape, shape.len());
    let rank = dims.len() as int;
    let dims = if backward && rank > 3 {
        dims.update(rank - 2, dims[rank - 1]).update(rank - 1, dims[rank - 2])
    } else {
        dims
    };
    let (raw, gid) = kernel.raw.var_u(Op::GlobalId { axis: Axis::X });
    let (raw, base) = raw.def(
        DType::UnsignedInt,
        if backward {
            ValueState::Mut
        } else {
            ValueState::Immut
        },
        Some(Op::ConstU32 { value: 0 }),
    );
    let raw = raw.with_state(dims[0], ValueState::Mut);
    let (raw, base) = if dims.len() > 1 {
        let (raw, gid2) = raw.def(DType::UnsignedInt, ValueState::Mut, None);
        index_steps(
            raw,
            IndexVars { gid, gid2, total: dims[0] },
            base,
            dims,
            dims.len(),
            backward,
        )
    } else {
        (raw, base)
    };
    (LinkedView { raw, ..kernel }, base, gid)
}

fn emit_index_step(
    raw: &mut RawKernel,
    v: IndexVars,
    base: ValueId,
    i: usize,
    dim: ValueId,
    backward: bool,
) -> (r: ValueId)
    requires
        base < old(raw)@.values.len(),
        v.gid2 < old(raw)@.values.len(),
    ensures
        (final(raw)@, r) == index_step(old(raw)@, v, base, i as int, dim, backward),
        r < final(raw)@.values.len(),
        final(raw)@.values.len() == old(raw)@.values.len(),
{
    let axis = match Axis::try_from(#[verifier::truncate] (i as u8)) {
        Ok(axis) => axis,
        Err(_) => Axis::Z,
    };
    raw.overwrite_var(v.gid2, Op::GlobalId { axis });
    let mut base: ValueId = base;
    if i >= 2 {
        raw.overwrite_var(v.gid2, Op::Mul { a: v.total, b: v.gid2 });
        if i == 2 {
            raw.update_var_state(base, ValueState::Masked);
            base = v.gid2;
        }
    } else {
        raw.overwrite_var(v.gid2, Op::Mul { a: dim, b: v.gid2 });
    }
    if backward {
        raw.accum_var(v.gid, Op::CopyVar { id: v.gid2 });
    } else {
        raw.overwrite_var(v.gid, Op::Add { a: v.gid, b: v.gid2 });
    }
    raw.overwrite_var(v.total, Op::Mul { a: v.total, b: dim });
    base
}

/// Emits the index of a thread, and returns the offset of its batch and the index.
pub fn emit_grid_index(kernel: &mut LinkedKernel, shape: &Vec<MetaId>, backward: bool) -> (r: (
    ValueId,
    ValueId,
))
    requires
        shape@.len() >= 1,
        forall|i: int| 0 <= i < shape@.len() ==> shape@[i] < old(kernel)@.meta.len(),
    ensures
        (final(kernel)@, r.0, r.1) == grid_index(old(kernel)@, shape@, backward),
        final(kernel)@.params.len() == old(kernel)@.params.len(),
        final(kernel)@.meta.len() == old(kernel)@.meta.len(),
{
    let mut dims = emit_dims(kernel, shape);
    let rank: usize = dims.len();
    let ghost ordered = dims@;
    if backward && rank > 3 {
        let last: ValueId = dims[rank - 1];
        dims[rank - 1] = dims[rank - 2];
        dims[rank - 2] = last;
        assert(dims@ == ordered.update(rank - 2, ordered[rank - 1]).update(
            rank - 1,
            ordered[rank - 2],
        ));
    }
    let gid: ValueId = kernel.raw.var_u(Op::GlobalId { axis: Axis::X });
    let state = if backward {
        ValueState::Mut
    } else {
        ValueState::Immut
    };
    let mut base: ValueId = kernel.raw.def_var(
        DType::UnsignedInt,
        state,
        Some(Op::ConstU32 { value: 0 }),
    );
    let total: ValueId = dims[0];
    kernel.raw.update_var_state(total, ValueState::Mut);
    if dims.len() > 1 {
        let gid2: ValueId = kernel.raw.def_var(DType::UnsignedInt, ValueState::Mut, None);
        let v = IndexVars { gid, gid2, total };
        let ghost raw = kernel.raw@;
        let ghost linked = kernel@;
        let ghost first = base;
        let mut i: usize = 1;
        while i < dims.len()
            invariant
                1 <= i <= dims@.len(),
                base < kernel@.raw.values.len(),
                gid2 < kernel@.raw.values.len(),
                v.gid2 == gid2,
                (kernel.raw@, base) == index_steps(raw, v, first, dims@, i as nat, backward),
                kernel@ == (LinkedView { raw: kernel.raw@, ..linked }),
            decreases dims@.len() - i,
        {
            base = emit_index_step(&mut kernel.raw, v, base, i, dims[i], backward);
            i += 1;
        }
    }
    (base, gid)
}

/// An empty kernel, which takes the metadata as its first parameter.
pub open spec fn blank(
    meta: Metadata,
    params: nat,
    block: Seq<u32>,
    root: NodeId,
    shape: Seq<MetaId>,
) -> LinkedView {
    LinkedView {
        raw: RawView {
            meta,
            shared: Seq::empty(),
            values: Seq::empty(),
            ops: Seq::empty(),
            block,
            iter_space: shape,
            root,
        },
        params: Seq::new(params, |i: int| i == 0),
        meta: Seq::new(meta.count(), |i: int| false),
        ops: Seq::empty(),
    }
}

/// A list of flags, none of them set.
pub fn unset(len: usize) -> (r: Vec<bool>)
    ensures
        r@ == Seq::new(len as nat, |i: int| false),
{
    let mut r: Vec<bool> = Vec::new();
    let mut i: usize = 0;
    while i < len
        invariant
            i <= len,
            r@ == Seq::new(i as nat, |j: int| false),
        decreases len - i,
    {
        r.push(false);
        i += 1;
    }
    r
}

/// A kernel for a node, with the index of a thread, and the offset of its batch and the index.
pub open spec fn opened(
    meta: Metadata,
    params: nat,
    block: Seq<u32>,
    root: NodeId,
    shape: Seq<MetaId>,
    backward: bool,
) -> (LinkedView, ValueId, ValueId) {
    grid_index(blank(meta, params, block, root, shape), shape, backward)
}

/// Starts a kernel for a node, and returns it with the offset of its batch and the index.
pub fn open_kernel(
    meta: Metadata,
    params: usize,
    block: [u32; 3],
    root: NodeId,
    shape: &Vec<MetaId>,
    backward: bool,
) -> (r: (LinkedKernel, ValueId, ValueId))
    requires
        params >= 1,
        shape@.len() >= 1,
        forall|i: int| 0 <= i < shape@.len() ==> shape@[i] < meta.count(),
    ensures
        (r.0@, r.1, r.2) == opened(meta, params as nat, block@, root, shape@, backward),
        r.0@.params.len() == params,
        r.0@.meta.len() == meta.count(),
{
    let mut kernel = LinkedKernel {
        raw: RawKernel {
            meta,
            shared: Vec::new(),
            values: Vec::new(),
            ops: Vec::new(),
            block,
            iter_space: shape.clone(),
            root,
        },
        params: unset(params),
        meta: unset(meta.iter_fields().end),
        ops: Vec::new(),
    };
    kernel.register_param(0);
    assert(kernel@ == blank(meta, params as nat, block@, root, shape@));
    let (base, gid) = emit_grid_index(&mut kernel, shape, backward);
    (kernel, base, gid)
}

} // verus!
