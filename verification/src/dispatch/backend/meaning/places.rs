//! Where a loss is stored.

use vstd::prelude::*;

use crate::dispatch::backend::kernel::index::axis_at;
use crate::dispatch::backend::kernel::loss::{
    loss_dims, loss_index, loss_index_step, loss_index_steps,
};
use crate::dispatch::backend::kernel::raw::RawView;
use crate::dispatch::backend::meaning::facts::group_meaning;
use crate::dispatch::backend::meaning::index::{group_flat, lemma_flat, lemma_state_solid};
use crate::dispatch::backend::meaning::loss::{lemma_loss_dims_flat, position};
use crate::dispatch::backend::meaning::{any, conditions, env, eval, plus, read, times, Expr};
use crate::dispatch::backend::sound::{expression, group_sound, statement};
use crate::dispatch::backend::sound::marks::group_marks;
use crate::dispatch::backend::sound::pass::{
    lemma_loss_dims_sound, lemma_loss_index_steps_sound,
};
use crate::dispatch::backend::wgsl::source::{declared, form, inlined, Form};
use crate::dispatch::backend::{Axis, DType, MetaId, Op, ValueId, ValueState};

verus! {

/// The extent of a dimension.
pub open spec fn extent(field: MetaId) -> Expr {
    Expr::Other(
        Op::ReadMeta { param: 0, field },
        Box::new(Expr::Unset),
        Box::new(Expr::Unset),
        Box::new(Expr::Unset),
    )
}

/// The place of a thread in the first dimensions of a shape: its position along the first axis,
/// and for every further dimension its position along the next axis times the extent.
pub open spec fn place(shape: Seq<MetaId>, rank: nat) -> Expr
    decreases rank,
{
    if rank <= 1 {
        position(Axis::X)
    } else {
        plus(
            place(shape, (rank - 1) as nat),
            times(position(axis_at(rank - 1)), extent(shape[rank - 1])),
        )
    }
}

/// What a formula of positions and extents comes to in a thread, in arithmetic modulo the number
/// of words.
pub open spec fn whole(
    e: Expr,
    at: spec_fn(Axis) -> int,
    fields: spec_fn(MetaId) -> int,
) -> int
    decreases e,
{
    match e {
        Expr::Plus(a, b) => (whole(*a, at, fields) + whole(*b, at, fields)) % 0x1_0000_0000,
        Expr::Times(a, b) => (whole(*a, at, fields) * whole(*b, at, fields)) % 0x1_0000_0000,
        Expr::Other(Op::GlobalId { axis }, _, _, _) => at(axis),
        Expr::Other(Op::ReadMeta { field, .. }, _, _, _) => fields(field),
        _ => 0,
    }
}

/// In a shape of one dimension the place of a thread is its column.
pub proof fn lemma_place_line(
    shape: Seq<MetaId>,
    at: spec_fn(Axis) -> int,
    fields: spec_fn(MetaId) -> int,
)
    requires
        shape.len() == 1,
    ensures
        whole(place(shape, 1), at, fields) == at(Axis::X),
{
}

/// In a shape of rows and columns, the place of the thread at a row and a column is the row times
/// the number of columns plus the column.
pub proof fn lemma_place_grid(
    shape: Seq<MetaId>,
    at: spec_fn(Axis) -> int,
    fields: spec_fn(MetaId) -> int,
)
    requires
        shape.len() == 2,
        0 <= at(Axis::Y) < fields(shape[0]),
        0 <= at(Axis::X) < fields(shape[1]),
        fields(shape[0]) * fields(shape[1]) <= 0x1_0000_0000,
    ensures
        whole(place(shape, 2), at, fields) == at(Axis::Y) * fields(shape[1]) + at(Axis::X),
        whole(place(shape, 2), at, fields) < fields(shape[0]) * fields(shape[1]),
{
    let (y, x) = (at(Axis::Y), at(Axis::X));
    let (rows, cols) = (fields(shape[0]), fields(shape[1]));
    assert(axis_at(1) == Axis::Y);
    reveal_with_fuel(place, 3);
    reveal_with_fuel(whole, 4);
    assert(0 <= y * cols && y * cols + x < rows * cols) by (nonlinear_arith)
        requires
            0 <= y < rows,
            0 <= x < cols,
    ;
    vstd::arithmetic::div_mod::lemma_small_mod((y * cols) as nat, 0x1_0000_0000);
    vstd::arithmetic::div_mod::lemma_small_mod((y * cols + x) as nat, 0x1_0000_0000);
}

/// Every element of a matrix is the place of exactly one of the threads that lie in it: that in the
/// row and the column of the element.
pub proof fn lemma_place_once(
    shape: Seq<MetaId>,
    at: spec_fn(Axis) -> int,
    fields: spec_fn(MetaId) -> int,
    element: int,
)
    requires
        shape.len() == 2,
        0 <= at(Axis::Y) < fields(shape[0]),
        0 <= at(Axis::X) < fields(shape[1]),
        fields(shape[0]) * fields(shape[1]) <= 0x1_0000_0000,
        0 <= element < fields(shape[0]) * fields(shape[1]),
    ensures
        whole(place(shape, 2), at, fields) == element <==> at(Axis::Y) == element / fields(shape[1])
            && at(Axis::X) == element % fields(shape[1]),
{
    lemma_place_grid(shape, at, fields);
    let (y, x, cols) = (at(Axis::Y), at(Axis::X), fields(shape[1]));
    vstd::arithmetic::div_mod::lemma_fundamental_div_mod(element, cols);
    if y * cols + x == element {
        vstd::arithmetic::div_mod::lemma_fundamental_div_mod_converse(element, cols, y, x);
    }
    if y == element / cols && x == element % cols {
        assert(cols * (element / cols) == y * cols) by (nonlinear_arith)
            requires
                y == element / cols,
        ;
    }
}

/// Whether two kernels have the same operations, and values that are written in the same way.
spec fn alike(k: RawView, q: RawView) -> bool {
    &&& k.ops == q.ops
    &&& k.values.len() == q.values.len()
    &&& forall|i: int|
        0 <= i < k.values.len() ==> (#[trigger] q.values[i]).init == k.values[i].init && inlined(
            q.values[i],
        ) == inlined(k.values[i]) && declared(q.values[i]) == declared(k.values[i])
}

proof fn lemma_alike_read(k: RawView, q: RawView, count: nat, id: ValueId)
    requires
        alike(k, q),
        k.defined(),
        k.stated(),
        k.small(),
        count <= k.ops.len(),
        id < k.values.len(),
    ensures
        read(q, count, id) == read(k, count, id),
    decreases count, id as nat, 2nat,
{
    assert(inlined(q.values[id as int]) == inlined(k.values[id as int]));
    if inlined(k.values[id as int]) {
        lemma_alike_eval(k, q, count, k.values[id as int].init->0, id as nat, id as nat);
    } else {
        lemma_alike_env(k, q, count, id);
    }
}

proof fn lemma_alike_eval(k: RawView, q: RawView, count: nat, op: Op, limit: nat, bound: nat)
    requires
        alike(k, q),
        k.defined(),
        k.stated(),
        k.small(),
        count <= k.ops.len(),
        expression(op, limit),
        limit <= k.values.len(),
        limit <= bound,
    ensures
        eval(q, count, op, bound) == eval(k, count, op, bound),
    decreases count, bound, 1nat,
{
    match form(op) {
        Form::Infix { a, b, .. } | Form::Call2 { a, b, .. } => {
            lemma_alike_read(k, q, count, a);
            lemma_alike_read(k, q, count, b);
        },
        Form::Prefix { x, .. } | Form::Call { x, .. } => {
            lemma_alike_read(k, q, count, x);
        },
        Form::Call3 { a, b, c, .. } => {
            lemma_alike_read(k, q, count, a);
            lemma_alike_read(k, q, count, b);
            lemma_alike_read(k, q, count, c);
        },
        Form::Read { index, .. } => {
            lemma_alike_read(k, q, count, index);
        },
        Form::Own => match op {
            Op::CopyVar { id } => {
                lemma_alike_read(k, q, count, id);
            },
            _ => {},
        },
        _ => {},
    }
}

proof fn lemma_alike_env(k: RawView, q: RawView, count: nat, id: ValueId)
    requires
        alike(k, q),
        k.defined(),
        k.stated(),
        k.small(),
        count <= k.ops.len(),
        id < k.values.len(),
    ensures
        env(q, count, id) == env(k, count, id),
    decreases count, 0nat, 0nat,
{
    if count > 0 {
        let c = (count - 1) as nat;
        let op = k.ops[count - 1];
        assert(statement(op, k.values.len()));
        lemma_alike_env(k, q, c, id);
        match op {
            Op::DefineVar { id: d } => {
                assert(q.values[d as int].init == k.values[d as int].init);
                if k.values[d as int].init is Some {
                    lemma_alike_eval(k, q, c, k.values[d as int].init->0, d as nat, d as nat);
                }
            },
            Op::OverwriteVar { val, .. } | Op::AddAssign { val, .. } => {
                lemma_alike_eval(k, q, c, *val, k.values.len(), any());
                lemma_alike_conditions(k, q, c);
            },
            _ => {},
        }
    }
}

proof fn lemma_alike_conditions(k: RawView, q: RawView, count: nat)
    requires
        alike(k, q),
        k.defined(),
        k.stated(),
        k.small(),
        count <= k.ops.len(),
    ensures
        conditions(q, count) == conditions(k, count),
    decreases count, 0nat, 0nat,
{
    if count > 0 {
        let c = (count - 1) as nat;
        let op = k.ops[count - 1];
        assert(statement(op, k.values.len()));
        lemma_alike_conditions(k, q, c);
        match op {
            Op::IfBegin { cond } => {
                lemma_alike_read(k, q, c, cond);
            },
            _ => {},
        }
    }
}

/// A value that may be assigned holds what it held before.
proof fn lemma_state_held(r: RawView, id: ValueId, j: ValueId)
    requires
        r.sound(),
        r.small(),
        id < r.span(),
        j < r.span(),
        r.values[id as int].state is Immut,
    ensures
        r.with_state(id, ValueState::Mut).held(j) == r.held(j),
{
    reveal(RawView::with_state);
    reveal(RawView::held);
    reveal(RawView::built);
    let q = r.with_state(id, ValueState::Mut);
    lemma_alike_read(r, q, r.ops.len(), j);
}

/// What the values of the first extents of a shape hold.
spec fn measured(r: RawView, dims: Seq<ValueId>, shape: Seq<MetaId>, from: int) -> bool {
    &&& dims.len() <= shape.len()
    &&& forall|i: int|
        from <= i < dims.len() ==> r.solid(#[trigger] dims[i]) && r.held(dims[i]) == extent(
            shape[i],
        )
    &&& forall|i: int, j: int| 0 <= i < j < dims.len() ==> #[trigger] dims[i] < #[trigger] dims[j]
}

proof fn lemma_loss_dims_held(r: RawView, shape: Seq<MetaId>, count: nat, flags: Seq<bool>)
    requires
        r.sound(),
        r.marked(flags),
        flags.len() > 0,
        flags[0],
        count <= shape.len(),
        loss_dims(r, shape, count).0.small(),
    ensures
        measured(loss_dims(r, shape, count).0, loss_dims(r, shape, count).1, shape, 0),
        forall|i: int|
            0 <= i < count ==> loss_dims(
                r,
                shape,
                count,
            ).0.values[(#[trigger] loss_dims(r, shape, count).1[i]) as int].state is Immut,
    decreases count,
{
    broadcast use {group_sound, group_meaning};

    if count > 0 {
        lemma_loss_dims_sound(r, shape, (count - 1) as nat, flags);
        let (q, dims) = loss_dims(r, shape, (count - 1) as nat);
        let op = Op::ReadMeta { param: 0, field: shape[count - 1] };
        let (s, dim) = q.let_u(op);
        assert(q.small() && dim == q.values.len() && s.values == q.values.push(s.values.last())
            && s.values.last().state is Immut) by {
            reveal(RawView::def);
        }
        lemma_loss_dims_held(r, shape, (count - 1) as nat, flags);
        assert(s.held(dim) == extent(shape[count - 1]));
        assert(s.solid(dim)) by {
            reveal(RawView::apart);
        }
    }
}

/// What one more dimension in the index makes of it.
proof fn lemma_loss_index_step_held(
    r: RawView,
    gid: ValueId,
    gid2: ValueId,
    dims: Seq<ValueId>,
    i: int,
    shape: Seq<MetaId>,
)
    requires
        r.sound(),
        r.small(),
        r.guards().len() == 0,
        r.solid(gid),
        r.solid(gid2),
        gid != gid2,
        1 <= i < dims.len(),
        measured(r, dims, shape, 1),
        r.solid(dims[0]),
        forall|j: int| 0 <= j < dims.len() ==> #[trigger] dims[j] != gid && dims[j] != gid2,
    ensures
        ({
            let q = loss_index_step(r, gid, gid2, dims[0], i, dims[i]);
            &&& q.held(gid) == plus(
                r.held(gid),
                times(position(axis_at(i)), extent(shape[i])),
            )
            &&& measured(q, dims, shape, 1)
            &&& q.guards().len() == 0
            &&& q.solid(gid)
            &&& q.solid(gid2)
            &&& q.solid(dims[0])
            &&& q.small()
        }),
{
    broadcast use {group_sound, group_meaning};

    let d = dims[i];
    assert(dims[0] < dims[i] && dims[0] != gid && d != gid && d != gid2);
    let r1 = r.assign(gid2, Op::GlobalId { axis: axis_at(i) });
    assert(r1.held(gid2) == position(axis_at(i)));
    assert(r1.held(d) == extent(shape[i]) && r1.held(gid) == r.held(gid));
    let r2 = r1.assign(gid2, Op::Mul { a: gid2, b: d });
    assert(r2.held(gid2) == times(position(axis_at(i)), extent(shape[i])));
    assert(r2.held(gid) == r.held(gid));
    let r3 = r2.assign(gid, Op::Add { a: gid, b: gid2 });
    let q = r3.assign(dims[0], Op::Mul { a: dims[0], b: d });
    assert(q.small() && r3.small() && r2.small() && r1.small()) by {
        reveal(RawView::emit);
    }
    assert forall|j: int| 1 <= j < dims.len() implies q.solid(#[trigger] dims[j]) && q.held(dims[j])
        == extent(shape[j]) by {
        assert(r.solid(dims[j]));
        assert(dims[j] != gid && dims[0] < dims[j]);
        assert(r1.held(dims[j]) == r.held(dims[j]));
        assert(r2.held(dims[j]) == r.held(dims[j]));
        assert(r3.held(dims[j]) == r.held(dims[j]));
    }
}

proof fn lemma_loss_index_steps_held(
    r: RawView,
    gid: ValueId,
    gid2: ValueId,
    dims: Seq<ValueId>,
    upto: nat,
    shape: Seq<MetaId>,
    flags: Seq<bool>,
)
    requires
        r.sound(),
        r.small(),
        r.guards().len() == 0,
        r.marked(flags),
        r.solid(gid),
        r.solid(gid2),
        gid != gid2,
        1 <= upto <= dims.len(),
        measured(r, dims, shape, 1),
        r.solid(dims[0]),
        r.held(gid) == position(Axis::X),
        forall|j: int| 0 <= j < dims.len() ==> #[trigger] dims[j] != gid && dims[j] != gid2,
    ensures
        ({
            let q = loss_index_steps(r, gid, gid2, dims, upto);
            &&& q.held(gid) == place(shape, upto)
            &&& measured(q, dims, shape, 1)
            &&& q.guards().len() == 0
            &&& q.solid(gid)
            &&& q.solid(gid2)
            &&& q.solid(dims[0])
            &&& q.small()
        }),
    decreases upto,
{
    if upto > 1 {
        let before = (upto - 1) as nat;
        assert forall|i: int| 0 <= i < dims.len() implies #[trigger] dims[i] < r.span() by {
            if i > 0 {
                assert(r.solid(dims[i]));
            }
        }
        lemma_loss_index_steps_sound(r, gid, gid2, dims, before, flags);
        lemma_loss_index_steps_held(r, gid, gid2, dims, before, shape, flags);
        let q = loss_index_steps(r, gid, gid2, dims, before);
        lemma_loss_index_step_held(q, gid, gid2, dims, upto - 1, shape);
    }
}

/// The index of a loss is the place of the thread in the shape.
#[verifier::spinoff_prover]
#[verifier::rlimit(60)]
pub proof fn lemma_loss_index_held(r: RawView, shape: Seq<MetaId>, flags: Seq<bool>)
    requires
        r.sound(),
        r.flat(),
        r.marked(flags),
        flags.len() > 0,
        flags[0],
        shape.len() >= 1,
        loss_index(r, shape).0.small(),
    ensures
        loss_index(r, shape).0.held(loss_index(r, shape).1) == place(shape, shape.len()),
{
    broadcast use {group_sound, group_meaning};

    lemma_loss_dims_sound(r, shape, shape.len(), flags);
    let (q, dims) = loss_dims(r, shape, shape.len());
    let op = Op::GlobalId { axis: Axis::X };
    let (q1, gid) = q.var_u(op);
    let q2 = q1.with_state(dims[0], ValueState::Mut);
    let (q3, gid2) = q2.def(DType::UnsignedInt, ValueState::Mut, None);
    if dims.len() > 1 {
        lemma_loss_index_small(q3, gid, gid2, dims, dims.len());
    }
    assert(q.small() && q1.small() && q2.small() && q2.values.len() == q1.values.len() && gid
        == q.values.len() && q1.values.len() == q.values.len() + 1 && (dims.len() > 1 ==> gid2
        == q2.values.len() && q3.small())) by {
        reveal(RawView::def);
        reveal(RawView::with_state);
    }
    lemma_loss_dims_held(r, shape, shape.len(), flags);
    lemma_loss_dims_flat(r, shape, shape.len());
    lemma_flat(q);
    assert(q1.held(gid) == position(Axis::X));
    assert(dims[0] < q.span());
    assert(q1.values[dims[0] as int] == q.values[dims[0] as int]) by {
        reveal(RawView::def);
    }
    lemma_state_held(q1, dims[0], gid);
    assert(q1.solid(gid)) by {
        reveal(RawView::def);
        reveal(RawView::apart);
    }
    lemma_state_solid(q1, dims[0], ValueState::Mut, gid);
    if dims.len() > 1 {
        assert(measured(q1, dims, shape, 0));
        assert forall|i: int| 0 <= i < dims.len() implies q2.solid(#[trigger] dims[i]) && q2.held(
            dims[i],
        ) == extent(shape[i]) by {
            lemma_state_held(q1, dims[0], dims[i]);
            lemma_state_solid(q1, dims[0], ValueState::Mut, dims[i]);
        }
        assert(q2.guards().len() == 0) by {
            broadcast use group_flat;

            assert(q2.flat());
            lemma_flat(q2);
        }
        assert(q3.marked(flags)) by {
            broadcast use group_marks;

        }
        assert(q3.solid(gid2)) by {
            reveal(RawView::def);
            reveal(RawView::apart);
        }
        assert(measured(q3, dims, shape, 1));
        lemma_loss_index_steps_held(q3, gid, gid2, dims, dims.len(), shape, flags);
    }
}

/// Assignments define no value.
proof fn lemma_loss_index_small(
    r: RawView,
    gid: ValueId,
    gid2: ValueId,
    dims: Seq<ValueId>,
    upto: nat,
)
    ensures
        loss_index_steps(r, gid, gid2, dims, upto).values == r.values,
    decreases upto,
{
    reveal(RawView::emit);
    if upto > 1 {
        lemma_loss_index_small(r, gid, gid2, dims, (upto - 1) as nat);
    }
}

} // verus!
