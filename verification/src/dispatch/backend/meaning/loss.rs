//! What the kernel of a loss stores.

use vstd::prelude::*;

use crate::dispatch::backend::kernel::loss::{
    loss_block, loss_dims, loss_index, loss_index_steps, loss_kernel, GRAD_PARAM, LOSS_PARAM,
    PRED_PARAM, TARGET_PARAM,
};
use crate::dispatch::backend::kernel::raw::RawView;
use crate::dispatch::backend::meaning::facts::{group_meaning, lemma_named};
use crate::dispatch::backend::meaning::index::{group_flat, lemma_flat};
use crate::dispatch::backend::meaning::ops::lemma_guarded_one;
use crate::dispatch::backend::meaning::places::{
    lemma_loss_index_held, lemma_place_grid, lemma_place_line, lemma_place_once,
    place, whole,
};
use crate::dispatch::backend::meaning::{
    choice, load, logarithm, minus, negated, num, same, times, Expr,
};
use crate::dispatch::backend::sound::marks::group_marks;
use crate::dispatch::backend::sound::{expression, group_sound};
use crate::dispatch::backend::sound::pass::{
    lemma_bce_sound, lemma_blank_sound, lemma_cross_entropy_sound, lemma_loss_dims_sound,
    lemma_loss_index_sound, lemma_loss_index_steps_sound, lemma_mse_sound,
};
use crate::dispatch::backend::std_lib::basic_loss::{bce, cross_entropy, mse};
use crate::dispatch::backend::{
    Axis, DType, LossType, MetaId, Metadata, Node, Op, ParamId, ValueId, ValueState,
};
use crate::scalar::{Float32, ONE_BITS, TWO_BITS, ZERO_BITS};

verus! {

/// The position of a thread along an axis.
pub open spec fn position(axis: Axis) -> Expr {
    Expr::Other(
        Op::GlobalId { axis },
        Box::new(Expr::Unset),
        Box::new(Expr::Unset),
        Box::new(Expr::Unset),
    )
}

/// What is stored as the loss of a prediction at an index, and as its gradient.
///
/// The target of a cross entropy is the number of a column, one for each row. The second part of a
/// binary cross entropy is the logarithm of one minus the target, where one minus the prediction
/// would belong, and comes with the opposite sign; its gradient is that of the prediction before a
/// sigmoid.
pub open spec fn lost(loss: LossType, i: Expr) -> (Expr, Expr) {
    let pred = load(PRED_PARAM, i);
    let target = load(TARGET_PARAM, i);
    let one = num(ONE_BITS);
    match loss {
        LossType::MeanSquaredError => {
            let diff = minus(pred, target);
            (times(diff, diff), times(num(TWO_BITS), diff))
        },
        LossType::BinaryCrossEntropy => {
            let rest = minus(one, target);
            (
                minus(times(rest, logarithm(rest)), times(target, logarithm(pred))),
                minus(pred, target),
            )
        },
        LossType::CrossEntropy => {
            let hit = same(load(TARGET_PARAM, position(Axis::Y)), position(Axis::X));
            (
                choice(hit, negated(logarithm(pred)), num(ZERO_BITS)),
                choice(hit, minus(pred, one), pred),
            )
        },
    }
}

/// Whether a kernel runs straight through and ends with stores of a loss and of its gradient, at
/// the same index.
pub open spec fn stores_loss(k: RawView, loss: LossType) -> bool {
    &&& k.straight()
    &&& k.guards().len() == 0
    &&& k.ops.len() >= 2
    &&& k.ops[k.ops.len() - 2] matches Op::ParamStore { param: p1, index: i1, value: v1 }
    &&& k.ops[k.ops.len() - 1] matches Op::ParamStore { param: p2, index: i2, value: v2 }
    &&& p1 == LOSS_PARAM
    &&& p2 == GRAD_PARAM
    &&& i1 == i2
    &&& (k.held(v1), k.held(v2)) == lost(loss, k.held(i1))
}

/// Whether a kernel ends with a store at a place.
pub open spec fn stores_at(k: RawView, place: Expr) -> bool {
    &&& k.ops.len() >= 1
    &&& k.ops[k.ops.len() - 1] matches Op::ParamStore { index, .. }
    &&& k.held(index) == place
}

/// The extents of a shape keep a kernel flat.
pub proof fn lemma_loss_dims_flat(r: RawView, shape: Seq<MetaId>, count: nat)
    requires
        r.flat(),
    ensures
        loss_dims(r, shape, count).0.flat(),
    decreases count,
{
    broadcast use group_flat;

    if count > 0 {
        lemma_loss_dims_flat(r, shape, (count - 1) as nat);
    }
}

proof fn lemma_loss_index_steps_flat(
    r: RawView,
    gid: ValueId,
    gid2: ValueId,
    dims: Seq<ValueId>,
    upto: nat,
    flags: Seq<bool>,
)
    requires
        r.sound(),
        r.flat(),
        r.marked(flags),
        r.solid(gid),
        gid2 < r.span(),
        upto <= dims.len(),
        forall|i: int| 0 <= i < dims.len() ==> #[trigger] dims[i] < r.span(),
    ensures
        loss_index_steps(r, gid, gid2, dims, upto).flat(),
        loss_index_steps(r, gid, gid2, dims, upto).solid(gid),
    decreases upto,
{
    broadcast use {group_flat, group_sound, group_meaning};

    if upto > 1 {
        lemma_loss_index_steps_flat(r, gid, gid2, dims, (upto - 1) as nat, flags);
        lemma_loss_index_steps_sound(r, gid, gid2, dims, upto, flags);
    }
}

proof fn lemma_loss_index_flat(r: RawView, shape: Seq<MetaId>, flags: Seq<bool>)
    requires
        r.sound(),
        r.flat(),
        r.marked(flags),
        flags.len() > 0,
        flags[0],
        shape.len() >= 1,
        loss_index(r, shape).0.small(),
    ensures
        loss_index(r, shape).0.flat(),
        loss_index(r, shape).0.solid(loss_index(r, shape).1),
{
    broadcast use {group_flat, group_sound, group_meaning};

    lemma_loss_index_sound(r, shape, flags);
    lemma_loss_dims_flat(r, shape, shape.len());
    lemma_loss_dims_sound(r, shape, shape.len(), flags);
    let (q, dims) = loss_dims(r, shape, shape.len());
    let (q1, gid) = q.var_u(Op::GlobalId { axis: Axis::X });
    assert(dims[0] < q1.span());
    let q2 = q1.with_state(dims[0], ValueState::Mut);
    if dims.len() > 1 {
        let (q3, gid2) = q2.def(DType::UnsignedInt, ValueState::Mut, None);
        assert(q3.marked(flags)) by {
            broadcast use group_marks;

        }
        lemma_loss_index_steps_sound(q3, gid, gid2, dims, dims.len(), flags);
        lemma_loss_index_steps_flat(q3, gid, gid2, dims, dims.len(), flags);
    }
}

/// Whether a kernel has computed a loss and its gradient, and changed nothing else.
spec fn lossy(r: RawView, q: RawView, l: ValueId, g: ValueId, e: (Expr, Expr)) -> bool {
    &&& q.continues(r)
    &&& q.guards() == r.guards()
    &&& r.straight() ==> q.straight()
    &&& q.solid(l)
    &&& q.solid(g)
    &&& (q.held(l), q.held(g)) == e
    &&& forall|j: ValueId| #![trigger q.solid(j)] r.solid(j) ==> q.solid(j)
    &&& forall|j: ValueId| #![trigger q.held(j)] r.solid(j) ==> q.held(j) == r.held(j)
}

proof fn lemma_mse_held(r: RawView, pred: ValueId, target: ValueId, i: Expr)
    requires
        r.sound(),
        pred < r.span(),
        target < r.span(),
        r.held(pred) == load(PRED_PARAM, i),
        r.held(target) == load(TARGET_PARAM, i),
        mse(r, pred, target).0.small(),
    ensures
        lossy(
            r,
            mse(r, pred, target).0,
            mse(r, pred, target).1,
            mse(r, pred, target).2,
            lost(LossType::MeanSquaredError, i),
        ),
{
    broadcast use {group_sound, group_meaning};

}

proof fn lemma_bce_held(r: RawView, pred: ValueId, target: ValueId, i: Expr)
    requires
        r.sound(),
        pred < r.span(),
        target < r.span(),
        r.held(pred) == load(PRED_PARAM, i),
        r.held(target) == load(TARGET_PARAM, i),
        bce(r, pred, target).0.small(),
    ensures
        lossy(
            r,
            bce(r, pred, target).0,
            bce(r, pred, target).1,
            bce(r, pred, target).2,
            lost(LossType::BinaryCrossEntropy, i),
        ),
{
    broadcast use {group_sound, group_meaning};

}

/// A value that has just been defined can be defined otherwise.
proof fn lemma_redefined(r: RawView, old: Op, new: Op)
    requires
        r.values.len() < usize::MAX,
    ensures
        ({
            let (q, id) = r.let_f(old);
            q.with_dtype(id, DType::UnsignedInt).with_init(id, new) == r.let_u(new).0 && id
                == r.let_u(new).1
        }),
{
    reveal(RawView::def);
    reveal(RawView::with_dtype);
    reveal(RawView::with_init);
    let (q, id) = r.let_f(old);
    let a = q.with_dtype(id, DType::UnsignedInt).with_init(id, new);
    let b = r.let_u(new).0;
    assert(a.values =~= b.values);
}

/// What a cross entropy computes once its target is the number of a column.
proof fn lemma_cross_entropy_held(r: RawView, pred: ValueId, hit: Expr, test: Op, i: Expr)
    requires
        r.sound(),
        r.solid(pred),
        expression(test, r.span()),
        r.spelled(test) == hit,
        r.guards().len() == 0,
        r.held(pred) == load(PRED_PARAM, i),
        chosen(r, pred, test).0.small(),
    ensures
        lossy(
            r,
            chosen(r, pred, test).0,
            chosen(r, pred, test).1,
            chosen(r, pred, test).2,
            (
                choice(hit, negated(logarithm(load(PRED_PARAM, i))), num(ZERO_BITS)),
                choice(
                    hit,
                    minus(load(PRED_PARAM, i), num(ONE_BITS)),
                    load(PRED_PARAM, i),
                ),
            ),
        ),
{
    broadcast use {group_sound, group_meaning};

    let p = load(PRED_PARAM, i);
    lemma_guarded_one(hit, negated(logarithm(p)), num(ZERO_BITS));
    lemma_guarded_one(hit, minus(p, num(ONE_BITS)), p);
    assert(r.guards().push(hit) =~= seq![hit]);
    assert(r.guards().push(hit).drop_last() =~= r.guards());
    let one_op = Op::ConstF32 { value: Float32 { bits: ONE_BITS } };
    let (r1, cond) = r.inline_b(test);
    let (r2, loss_val) = r1.var_f(Op::ConstF32 { value: Float32 { bits: ZERO_BITS } });
    let (r3, grad_val) = r2.var_f(Op::CopyVar { id: pred });
    let r4 = r3.emit(Op::IfBegin { cond });
    assert(r4.guards() == r.guards().push(hit));
    let (r5, one) = r4.inline_f(one_op);
    let (r6, log_pred) = r5.inline_f(Op::Log { x: pred });
    let r7 = r6.assign(loss_val, Op::Neg { x: log_pred });
    assert(r7.names(one, one_op) && r7.small());
    lemma_named(r7, one, one_op);
}

/// The choice between what a cross entropy is where a test holds, and elsewhere.
spec fn chosen(r: RawView, pred: ValueId, test: Op) -> (RawView, ValueId, ValueId) {
    let (r, cond) = r.inline_b(test);
    let (r, loss_val) = r.var_f(Op::ConstF32 { value: Float32 { bits: ZERO_BITS } });
    let (r, grad_val) = r.var_f(Op::CopyVar { id: pred });
    let r = r.emit(Op::IfBegin { cond });
    let (r, one) = r.inline_f(Op::ConstF32 { value: Float32 { bits: ONE_BITS } });
    let (r, log_pred) = r.inline_f(Op::Log { x: pred });
    let r = r.assign(loss_val, Op::Neg { x: log_pred });
    let r = r.assign(grad_val, Op::Sub { a: pred, b: one });
    let r = r.emit(Op::EndScope);
    (r, loss_val, grad_val)
}

proof fn lemma_two_stores(q: RawView, index: ValueId, a: ValueId, b: ValueId)
    requires
        q.sound(),
        q.small(),
        q.straight(),
        q.solid(index),
        q.solid(a),
        q.solid(b),
    ensures
        ({
            let first = Op::ParamStore { param: LOSS_PARAM, index, value: a };
            let k = q.emit(first).emit(Op::ParamStore { param: GRAD_PARAM, index, value: b });
            &&& k.straight()
            &&& k.guards() == q.guards()
            &&& k.held(index) == q.held(index)
            &&& k.held(a) == q.held(a)
            &&& k.held(b) == q.held(b)
        }),
{
    broadcast use {group_sound, group_meaning};

}

/// What the kernel of a loss begins with: the kernel before the target is read, its index, its row
/// and column, and the prediction.
spec fn begun(nodes: Seq<Node>, meta: Metadata) -> (RawView, ValueId, ValueId, ValueId, ValueId) {
    let root = (nodes.len() - 1) as usize;
    let shape = nodes[root as int].shape@;
    let start = RawView {
        meta,
        shared: Seq::empty(),
        values: Seq::empty(),
        ops: Seq::empty(),
        block: loss_block(nodes),
        iter_space: shape,
        root,
    };
    let (r, gid) = loss_index(start, shape);
    let (r, row) = r.let_u(Op::GlobalId { axis: Axis::Y });
    let (r, col) = r.let_u(Op::GlobalId { axis: Axis::X });
    let (r, pred) = r.let_f(Op::ParamLoad { param: PRED_PARAM, index: gid });
    (r, gid, row, col, pred)
}

spec fn all_marked() -> Seq<bool> {
    Seq::new(5, |i: int| true)
}

proof fn lemma_begun_sound(nodes: Seq<Node>, meta: Metadata)
    requires
        1 <= nodes.len() <= usize::MAX,
        nodes.last().shape@.len() >= 1,
    ensures
        ({
            let (r, gid, row, col, pred) = begun(nodes, meta);
            &&& r.sound()
            &&& r.marked(all_marked())
            &&& gid < r.span()
            &&& row < r.span()
            &&& col < r.span()
            &&& pred < r.span()
        }),
{
    let root = (nodes.len() - 1) as usize;
    let shape = nodes[root as int].shape@;
    let start = RawView {
        meta,
        shared: Seq::empty(),
        values: Seq::empty(),
        ops: Seq::empty(),
        block: loss_block(nodes),
        iter_space: shape,
        root,
    };
    lemma_blank_sound(start);
    lemma_loss_index_sound(start, shape, all_marked());
    broadcast use {group_sound, group_marks};

}

proof fn lemma_begun_held(nodes: Seq<Node>, meta: Metadata)
    requires
        1 <= nodes.len() <= usize::MAX,
        nodes.last().shape@.len() >= 1,
        begun(nodes, meta).0.small(),
    ensures
        ({
            let (r, gid, row, col, pred) = begun(nodes, meta);
            let i = r.held(gid);
            &&& r.guards().len() == 0
            &&& r.straight()
            &&& r.keeps(TARGET_PARAM)
            &&& r.solid(gid)
            &&& r.solid(pred)
            &&& r.held(pred) == load(PRED_PARAM, i)
            &&& r.held(row) == position(Axis::Y)
            &&& r.held(col) == position(Axis::X)
            &&& i == place(nodes.last().shape@, nodes.last().shape@.len())
        }),
{
    let root = (nodes.len() - 1) as usize;
    let shape = nodes[root as int].shape@;
    let start = RawView {
        meta,
        shared: Seq::empty(),
        values: Seq::empty(),
        ops: Seq::empty(),
        block: loss_block(nodes),
        iter_space: shape,
        root,
    };
    lemma_blank_sound(start);
    assert(start.flat()) by {
        reveal(RawView::flat);
    }
    lemma_loss_index_sound(start, shape, all_marked());
    let r0 = loss_index(start, shape).0;
    assert(r0.small()) by {
        broadcast use group_sound;

    }
    lemma_loss_index_flat(start, shape, all_marked());
    lemma_loss_index_held(start, shape, all_marked());
    lemma_flat(r0);
    assert(r0.keeps(PRED_PARAM) && r0.keeps(TARGET_PARAM));
    broadcast use {group_sound, group_meaning};

}

/// Reading one more parameter.
proof fn lemma_read_held(r: RawView, dtype: DType, p: ParamId, index: ValueId, flags: Seq<bool>)
    requires
        r.sound(),
        r.marked(flags),
        p < flags.len(),
        flags[p as int],
        index < r.span(),
    ensures
        ({
            let load_op = Op::ParamLoad { param: p, index };
            let (q, id) = r.def(dtype, ValueState::Immut, Some(load_op));
            &&& q.continues(r)
            &&& q.marked(flags)
            &&& id < q.span()
            &&& r.small() ==> r.span() <= id
            &&& q.small() && r.keeps(p) ==> {
                &&& q.held(id) == load(p, r.held(index))
                &&& q.guards() == r.guards()
                &&& r.straight() ==> q.straight()
                &&& forall|j: ValueId| #![trigger q.solid(j)] r.solid(j) ==> q.solid(j)
                &&& forall|j: ValueId| #![trigger q.held(j)] j < r.span() ==> q.held(j) == r.held(j)
            }
        }),
{
    broadcast use {group_sound, group_marks, group_meaning};

}

/// The kernel of a loss stores the loss of the prediction, and its gradient, at the place of the
/// thread in the shape.
pub proof fn lemma_loss_stores(nodes: Seq<Node>, loss: LossType, meta: Metadata)
    requires
        1 <= nodes.len() <= usize::MAX,
        nodes.last().shape@.len() >= 1,
        loss_kernel(nodes, loss, meta).raw.small(),
    ensures
        stores_loss(loss_kernel(nodes, loss, meta).raw, loss),
        stores_at(
            loss_kernel(nodes, loss, meta).raw,
            place(nodes.last().shape@, nodes.last().shape@.len()),
        ),
{
    let flags = all_marked();
    let (r3, gid, row, col, pred) = begun(nodes, meta);
    lemma_begun_sound(nodes, meta);
    let i = r3.held(gid);
    let old = Op::ParamLoad { param: TARGET_PARAM, index: gid };
    let (r4, target) = r3.let_f(old);
    lemma_read_held(r3, DType::Float, TARGET_PARAM, gid, flags);
    let (q, l, g) = match loss {
        LossType::MeanSquaredError => mse(r4, pred, target),
        LossType::BinaryCrossEntropy => bce(r4, pred, target),
        LossType::CrossEntropy => cross_entropy(r4, pred, target, TARGET_PARAM, row, col),
    };
    let k = loss_kernel(nodes, loss, meta).raw;
    let first = Op::ParamStore { param: LOSS_PARAM, index: gid, value: l };
    let last = Op::ParamStore { param: GRAD_PARAM, index: gid, value: g };
    assert(k == q.emit(first).emit(last));
    assert(q.small() && k.ops.len() >= 2 && k.ops[k.ops.len() - 2] == first && k.ops[k.ops.len()
        - 1] == last) by {
        reveal(RawView::emit);
    }
    match loss {
        LossType::MeanSquaredError => {
            lemma_mse_sound(r4, pred, target, flags);
            lemma_begun_held(nodes, meta);
            lemma_mse_held(r4, pred, target, i);
        },
        LossType::BinaryCrossEntropy => {
            lemma_bce_sound(r4, pred, target, flags);
            lemma_begun_held(nodes, meta);
            lemma_bce_held(r4, pred, target, i);
        },
        LossType::CrossEntropy => {
            lemma_cross_entropy_sound(r4, pred, target, TARGET_PARAM, row, col, flags);
            lemma_begun_held(nodes, meta);
            let new = Op::ParamLoad { param: TARGET_PARAM, index: row };
            assert(r3.values.len() < usize::MAX) by {
                reveal(RawView::def);
            }
            lemma_redefined(r3, old, new);
            let (r5, number) = r3.let_u(new);
            lemma_read_held(r3, DType::UnsignedInt, TARGET_PARAM, row, flags);
            assert(r5.small()) by {
                reveal(RawView::def);
            }
            let test = Op::Eq { a: number, b: col };
            assert((q, l, g) == chosen(r5, pred, test));
            let hit = same(load(TARGET_PARAM, position(Axis::Y)), position(Axis::X));
            assert(r5.spelled(test) == hit);
            lemma_cross_entropy_held(r5, pred, hit, test, i);
        },
    }
    assert(q.sound() && q.guards().len() == 0 && q.straight() && q.solid(gid) && q.solid(l)
        && q.solid(g) && q.held(gid) == i && (q.held(l), q.held(g)) == lost(loss, i));
    lemma_two_stores(q, gid, l, g);
}

/// Where the kernel of a loss stores the loss and its gradient, as a number, in a thread at a
/// position.
pub open spec fn stored_at(
    nodes: Seq<Node>,
    loss: LossType,
    meta: Metadata,
    at: spec_fn(Axis) -> int,
    fields: spec_fn(MetaId) -> int,
) -> int {
    let k = loss_kernel(nodes, loss, meta).raw;
    match k.ops[k.ops.len() - 1] {
        Op::ParamStore { index, .. } => whole(k.held(index), at, fields),
        _ => -1,
    }
}

/// The loss of a matrix: the thread at a row and a column reads the prediction and stores the loss
/// and the gradient at the row times the number of columns plus the column. So every element of the
/// matrix gets its loss and its gradient from exactly one of the threads that lie in the matrix.
pub proof fn lemma_loss_stored_once(
    nodes: Seq<Node>,
    loss: LossType,
    meta: Metadata,
    at: spec_fn(Axis) -> int,
    fields: spec_fn(MetaId) -> int,
    element: int,
)
    requires
        1 <= nodes.len() <= usize::MAX,
        nodes.last().shape@.len() == 2,
        loss_kernel(nodes, loss, meta).raw.small(),
        0 <= at(Axis::Y) < fields(nodes.last().shape@[0]),
        0 <= at(Axis::X) < fields(nodes.last().shape@[1]),
        fields(nodes.last().shape@[0]) * fields(nodes.last().shape@[1]) <= 0x1_0000_0000,
        0 <= element < fields(nodes.last().shape@[0]) * fields(nodes.last().shape@[1]),
    ensures
        stores_loss(loss_kernel(nodes, loss, meta).raw, loss),
        stored_at(nodes, loss, meta, at, fields) == at(Axis::Y) * fields(nodes.last().shape@[1])
            + at(Axis::X),
        stored_at(nodes, loss, meta, at, fields) == element <==> at(Axis::Y) == element / fields(
            nodes.last().shape@[1],
        ) && at(Axis::X) == element % fields(nodes.last().shape@[1]),
{
    lemma_loss_stores(nodes, loss, meta);
    let shape = nodes.last().shape@;
    lemma_place_grid(shape, at, fields);
    lemma_place_once(shape, at, fields, element);
}

/// The loss of a vector: the thread at a column reads and stores at the column.
pub proof fn lemma_loss_stored_line(
    nodes: Seq<Node>,
    loss: LossType,
    meta: Metadata,
    at: spec_fn(Axis) -> int,
    fields: spec_fn(MetaId) -> int,
)
    requires
        1 <= nodes.len() <= usize::MAX,
        nodes.last().shape@.len() == 1,
        loss_kernel(nodes, loss, meta).raw.small(),
    ensures
        stored_at(nodes, loss, meta, at, fields) == at(Axis::X),
{
    lemma_loss_stores(nodes, loss, meta);
    lemma_place_line(nodes.last().shape@, at, fields);
}

/// What a formula of sums, differences and products of whole numbers comes to.
pub open spec fn amount(
    e: Expr,
    numbers: spec_fn(u32) -> int,
    loaded: spec_fn(ParamId, Expr) -> int,
) -> int
    decreases e,
{
    match e {
        Expr::Num(bits) => numbers(bits),
        Expr::Load(param, index) => loaded(param, *index),
        Expr::Plus(a, b) => amount(*a, numbers, loaded) + amount(*b, numbers, loaded),
        Expr::Minus(a, b) => amount(*a, numbers, loaded) - amount(*b, numbers, loaded),
        Expr::Times(a, b) => amount(*a, numbers, loaded) * amount(*b, numbers, loaded),
        _ => 0,
    }
}

/// The squared error is nothing exactly where the prediction is the target, and is otherwise
/// positive; and the gradient is its slope: when a prediction grows by some amount, the loss grows
/// by the gradient times that amount, plus the square of the amount.
pub proof fn lemma_mean_squared_slope(
    i: Expr,
    numbers: spec_fn(u32) -> int,
    loaded: spec_fn(ParamId, Expr) -> int,
    more: spec_fn(ParamId, Expr) -> int,
)
    requires
        numbers(TWO_BITS) == 2,
        more(TARGET_PARAM, i) == loaded(TARGET_PARAM, i),
    ensures
        ({
            let (loss, grad) = lost(LossType::MeanSquaredError, i);
            let step = more(PRED_PARAM, i) - loaded(PRED_PARAM, i);
            &&& amount(loss, numbers, loaded) >= 0
            &&& amount(loss, numbers, loaded) == 0 <==> loaded(PRED_PARAM, i) == loaded(
                TARGET_PARAM,
                i,
            )
            &&& amount(loss, numbers, more) - amount(loss, numbers, loaded) == amount(
                grad,
                numbers,
                loaded,
            ) * step + step * step
        }),
{
    reveal_with_fuel(amount, 4);
    let p = loaded(PRED_PARAM, i);
    let t = loaded(TARGET_PARAM, i);
    let d = p - t;
    let h = more(PRED_PARAM, i) - p;
    let (loss, grad) = lost(LossType::MeanSquaredError, i);
    assert(amount(loss, numbers, loaded) == d * d);
    assert(amount(loss, numbers, more) == (d + h) * (d + h));
    assert(amount(grad, numbers, loaded) == 2 * d);
    assert(d * d >= 0 && (d * d == 0 <==> d == 0)) by (nonlinear_arith);
    assert((d + h) * (d + h) - d * d == (2 * d) * h + h * h) by (nonlinear_arith);
}

} // verus!
