//! Leaving out what nothing uses changes nothing that a kernel computes.

use vstd::prelude::*;

use crate::dispatch::backend::kernel::optimize::{dead_code, used, uses, without_writes};
use crate::dispatch::backend::kernel::raw::RawView;
use crate::dispatch::backend::meaning::{
    any, changes, conditions, env, eval, read, stirs, untouched, version,
};
use crate::dispatch::backend::sound::{expression, statement};
use crate::dispatch::backend::wgsl::source::{form, inlined, Form};
use crate::dispatch::backend::{Op, ParamId, ValueId, ValueState};

verus! {

/// The kernel without a value.
spec fn dropped(k: RawView, id: ValueId) -> RawView {
    without_writes(k.with_state(id, ValueState::Masked), id)
}

proof fn lemma_dropped(k: RawView, id: ValueId)
    requires
        id < k.values.len(),
    ensures
        ({
            let q = dropped(k, id);
            &&& q.values.len() == k.values.len()
            &&& q.ops.len() == k.ops.len()
            &&& forall|i: int|
                0 <= i < k.ops.len() ==> #[trigger] q.ops[i] == if k.ops[i].target() == Some(id) {
                    Op::Nop
                } else {
                    k.ops[i]
                }
            &&& forall|v: int|
                0 <= v < k.values.len() && v != id ==> #[trigger] q.values[v] == k.values[v]
            &&& q.values[id as int].init == k.values[id as int].init
            &&& q.values[id as int].state is Masked
        }),
{
    reveal(RawView::with_state);
}

/// Whether an operation reads no value with the given identifier.
spec fn clear_of(op: Op, id: ValueId) -> bool {
    match form(op) {
        Form::Infix { a, b, .. } | Form::Call2 { a, b, .. } => a != id && b != id,
        Form::Prefix { x, .. } | Form::Call { x, .. } => x != id,
        Form::Call3 { a, b, c, .. } => a != id && b != id && c != id,
        Form::Read { index, .. } => index != id,
        Form::Own => match op {
            Op::CopyVar { id: x } => x != id,
            _ => true,
        },
        _ => true,
    }
}

proof fn lemma_clear(op: Op, id: ValueId, bound: nat)
    requires
        expression(op, bound),
        !op.operands().contains(id),
    ensures
        clear_of(op, id),
{
}

proof fn lemma_dropped_memory(k: RawView, id: ValueId, count: nat)
    requires
        id < k.values.len(),
        count <= k.ops.len(),
    ensures
        version(dropped(k, id).ops, count) == version(k.ops, count),
        forall|p: ParamId| #[trigger]
            untouched(dropped(k, id).ops, p, count) == untouched(k.ops, p, count),
    decreases count,
{
    lemma_dropped(k, id);
    let q = dropped(k, id);
    if count > 0 {
        lemma_dropped_memory(k, id, (count - 1) as nat);
        assert(stirs(q.ops[count - 1]) == stirs(k.ops[count - 1]));
    }
    assert forall|p: ParamId| #[trigger] untouched(q.ops, p, count) == untouched(
        k.ops,
        p,
        count,
    ) by {
        assert forall|i: int| 0 <= i < count implies changes(#[trigger] q.ops[i], p) == changes(
            k.ops[i],
            p,
        ) by {}
        if untouched(q.ops, p, count) {
            assert forall|i: int| 0 <= i < count implies !changes(#[trigger] k.ops[i], p) by {
                assert(!changes(q.ops[i], p));
            }
        }
    }
}

proof fn lemma_read_dropped(k: RawView, id: ValueId, count: nat, j: ValueId)
    requires
        k.defined(),
        k.stated(),
        id < k.values.len(),
        !used(k, id),
        count <= k.ops.len(),
        j < k.values.len(),
        j != id,
    ensures
        read(dropped(k, id), count, j) == read(k, count, j),
    decreases count, j as nat, 2nat,
{
    lemma_dropped(k, id);
    let q = dropped(k, id);
    assert(q.values[j as int] == k.values[j as int]);
    if inlined(k.values[j as int]) {
        let op = k.values[j as int].init->0;
        assert(!uses(op, id));
        lemma_eval_dropped(k, id, count, op, j as nat, j as nat);
    } else {
        lemma_env_dropped(k, id, count, j);
    }
}

proof fn lemma_eval_dropped(
    k: RawView,
    id: ValueId,
    count: nat,
    op: Op,
    limit: nat,
    bound: nat,
)
    requires
        k.defined(),
        k.stated(),
        id < k.values.len(),
        !used(k, id),
        count <= k.ops.len(),
        expression(op, limit),
        !op.operands().contains(id),
        limit <= k.values.len(),
        limit <= bound,
    ensures
        eval(dropped(k, id), count, op, bound) == eval(k, count, op, bound),
    decreases count, bound, 1nat,
{
    lemma_clear(op, id, limit);
    lemma_dropped_memory(k, id, count);
    match form(op) {
        Form::Infix { a, b, .. } | Form::Call2 { a, b, .. } => {
            lemma_read_dropped(k, id, count, a);
            lemma_read_dropped(k, id, count, b);
        },
        Form::Prefix { x, .. } | Form::Call { x, .. } => {
            lemma_read_dropped(k, id, count, x);
        },
        Form::Call3 { a, b, c, .. } => {
            lemma_read_dropped(k, id, count, a);
            lemma_read_dropped(k, id, count, b);
            lemma_read_dropped(k, id, count, c);
        },
        Form::Read { index, .. } => {
            lemma_read_dropped(k, id, count, index);
        },
        Form::Own => match op {
            Op::CopyVar { id: x } => {
                lemma_read_dropped(k, id, count, x);
            },
            _ => {},
        },
        _ => {},
    }
}

proof fn lemma_env_dropped(k: RawView, id: ValueId, count: nat, j: ValueId)
    requires
        k.defined(),
        k.stated(),
        id < k.values.len(),
        !used(k, id),
        count <= k.ops.len(),
        j < k.values.len(),
        j != id,
    ensures
        env(dropped(k, id), count, j) == env(k, count, j),
    decreases count, 0nat, 0nat,
{
    if count > 0 {
        lemma_dropped(k, id);
        let q = dropped(k, id);
        let c = (count - 1) as nat;
        let op = k.ops[count - 1];
        assert(statement(op, k.values.len()));
        assert(!uses(op, id));
        lemma_env_dropped(k, id, c, j);
        assert(q.ops[count - 1] == if op.target() == Some(id) {
            Op::Nop
        } else {
            op
        });
        if op.target() != Some(id) {
            match op {
                Op::DefineVar { id: d } => {
                    assert(q.values[d as int] == k.values[d as int]);
                    if k.values[d as int].init is Some {
                        let init = k.values[d as int].init->0;
                        assert(!uses(init, id));
                        lemma_eval_dropped(k, id, c, init, d as nat, d as nat);
                    }
                },
                Op::OverwriteVar { val, .. } | Op::AddAssign { val, .. } => {
                    assert(op.operands() == (*val).operands());
                    if k.values.len() <= any() {
                        lemma_eval_dropped(k, id, c, *val, k.values.len(), any());
                    } else {
                        assert(expression(*val, any()));
                        lemma_eval_dropped(k, id, c, *val, any(), any());
                    }
                    lemma_conditions_dropped(k, id, c);
                },
                _ => {},
            }
        }
    }
}

proof fn lemma_conditions_dropped(k: RawView, id: ValueId, count: nat)
    requires
        k.defined(),
        k.stated(),
        id < k.values.len(),
        !used(k, id),
        count <= k.ops.len(),
    ensures
        conditions(dropped(k, id), count) == conditions(k, count),
    decreases count, 0nat, 0nat,
{
    if count > 0 {
        lemma_dropped(k, id);
        let q = dropped(k, id);
        let c = (count - 1) as nat;
        let op = k.ops[count - 1];
        assert(statement(op, k.values.len()));
        assert(!uses(op, id));
        lemma_conditions_dropped(k, id, c);
        assert(q.ops[count - 1] == if op.target() == Some(id) {
            Op::Nop
        } else {
            op
        });
        match op {
            Op::IfBegin { cond } => {
                assert(op.operands().contains(cond));
                lemma_read_dropped(k, id, c, cond);
            },
            _ => {},
        }
    }
}

proof fn lemma_dropped_stated(k: RawView, id: ValueId)
    requires
        k.defined(),
        k.stated(),
        id < k.values.len(),
    ensures
        dropped(k, id).defined(),
        dropped(k, id).stated(),
{
    lemma_dropped(k, id);
    let q = dropped(k, id);
    assert forall|v: int| 0 <= v < q.values.len() implies ((
    #[trigger] q.values[v]).init matches Some(op) ==> expression(op, v as nat)) by {
        assert(k.values[v].init matches Some(op) ==> expression(op, v as nat));
    }
    assert forall|i: int| 0 <= i < q.ops.len() implies statement(
        #[trigger] q.ops[i],
        q.values.len(),
    ) by {
        assert(statement(k.ops[i], k.values.len()));
    }
}

/// Whether an operation writes a value that is left out.
pub open spec fn writes_dead(op: Op, q: RawView) -> bool {
    op.target() matches Some(id) && q.values[id as int].state is Masked
}

/// Whether a kernel computes what another computes, up to values that are left out: the values that
/// are left and the conditions of its blocks have the same formulas after each operation, and only
/// operations that write what is left out are left out.
pub open spec fn same_but_dead(k: RawView, q: RawView) -> bool {
    &&& q.values.len() == k.values.len()
    &&& q.ops.len() == k.ops.len()
    &&& forall|i: int|
        0 <= i < k.ops.len() ==> #[trigger] q.ops[i] == k.ops[i] || (q.ops[i] is Nop
            && writes_dead(k.ops[i], q))
    &&& forall|c: nat| c <= k.ops.len() ==> #[trigger] conditions(q, c) == conditions(k, c)
    &&& forall|c: nat, j: ValueId|
        c <= k.ops.len() && j < k.values.len() && !(q.values[j as int].state is Masked)
            ==> #[trigger] read(q, c, j) == read(k, c, j)
}

/// Leaving out the values that nothing uses changes nothing that a kernel computes otherwise.
pub proof fn lemma_dead_code_same(k: RawView, n: nat)
    requires
        k.defined(),
        k.stated(),
        n <= k.values.len() <= usize::MAX,
    ensures
        same_but_dead(k, dead_code(k, n)),
        dead_code(k, n).defined(),
        dead_code(k, n).stated(),
    decreases n,
{
    if n > 0 {
        lemma_dead_code_same(k, (n - 1) as nat);
        let m = dead_code(k, (n - 1) as nat);
        let id = (n - 1) as usize;
        let q = dead_code(k, n);
        if !(m.values[n - 1].state is Masked || used(m, id)) {
            assert(q == dropped(m, id));
            lemma_dropped(m, id);
            lemma_dropped_stated(m, id);
            assert forall|i: int| 0 <= i < k.ops.len() implies #[trigger] q.ops[i] == k.ops[i] || (
            q.ops[i] is Nop && writes_dead(k.ops[i], q)) by {
                assert(m.ops[i] == k.ops[i] || m.ops[i] is Nop);
                if m.ops[i] != k.ops[i] {
                    let d = k.ops[i].target()->0;
                    assert(statement(k.ops[i], k.values.len()));
                    if d != id {
                        assert(q.values[d as int] == m.values[d as int]);
                    }
                }
            }
            assert forall|c: nat| c <= k.ops.len() implies #[trigger] conditions(q, c)
                == conditions(k, c) by {
                lemma_conditions_dropped(m, id, c);
                assert(conditions(m, c) == conditions(k, c));
            }
            assert forall|c: nat, j: ValueId|
                c <= k.ops.len() && j < k.values.len() && !(q.values[j as int].state is Masked) implies
                #[trigger] read(q, c, j) == read(k, c, j) by {
                lemma_read_dropped(m, id, c, j);
                assert(q.values[j as int] == m.values[j as int]);
                assert(read(m, c, j) == read(k, c, j));
            }
        }
    }
}

} // verus!
