//! What the code of the gradient of a node computes when a block runs it, in a backward pass.

use vstd::prelude::*;

use crate::dispatch::backend::kernel::backward::{grad_loaded, node_grad, user_grads};
use crate::dispatch::backend::kernel::frame::{has_operands, Operand};
use crate::dispatch::backend::kernel::raw::{LinkedView, RawView};
use crate::dispatch::backend::meaning::backward::operand;
use crate::dispatch::backend::meaning::descent::{
    all_any, edge_of, flows, gauged, gradient_at, lemma_all_any, lemma_gradient_code,
    lemma_through_code, lemma_users_code, multiplies, span_of, through_at, users_at,
};
use crate::dispatch::backend::meaning::emitted::lemma_extends_on;
use crate::dispatch::backend::meaning::forward::is_joined;
use crate::dispatch::backend::meaning::fused::{size, Stage};
use crate::dispatch::backend::meaning::ops::graded;
use crate::dispatch::backend::meaning::parts::hold;
use crate::dispatch::backend::meaning::product::{
    framed_by, lemma_stored_on, lemma_stored_same, stored_on, zero,
};
use crate::dispatch::backend::meaning::slopes::lemma_unary_grad_runs;
use crate::dispatch::backend::meaning::tiles::{
    advances, item, lemma_advance_none, lemma_advance_on, lemma_assign, quiet, result, stores, sum,
    thread, var, Block, Item,
};
use crate::dispatch::backend::meaning::{
    any, extends, load, negated, num, over, plus, times, untouched, Expr,
};
use crate::dispatch::backend::std_lib::binary::{
    binary_grad, binary_lowering, factor_grad, operand_op,
};
use crate::dispatch::backend::std_lib::lowering;
use crate::dispatch::backend::std_lib::matmul::product;
use crate::dispatch::backend::std_lib::unary::{reads_saved, unary_grad, unary_lowering};
use crate::dispatch::backend::wgsl::source::inlined;
use crate::dispatch::backend::{MetaId, NodeId, Op, OpName, ParamId, SharedId, ValueId};
use crate::scalar::ZERO_BITS;

verus! {

impl Stage {
    /// Whether a kernel stores to one parameter only, and that is none which the gradient of a node
    /// is made of.
    pub open spec fn spares(self, n: NodeId, param: ParamId) -> bool {
        &&& forall|p: ParamId|
            p != param ==> #[trigger] untouched(self.k.ops, p, self.k.ops.len())
        &&& param != 1
        &&& forall|m: int|
            0 <= m < self.f.nodes.len() ==> #[trigger] self.f.saved_params[m] != Some(param)
        &&& forall|m: int|
            n < m < self.f.nodes.len() ==> #[trigger] self.f.node_params[m] != Some(param)
    }

    /// Whether a graph can be run through in the blocks of a matrix.
    pub open spec fn laid(self, grid: (MetaId, MetaId), at: spec_fn(int, int) -> int) -> bool {
        let k = self.k;
        &&& forall|m: int| 0 <= m < self.f.nodes.len() ==> #[trigger] has_operands(self.f.nodes, m)
        &&& k.values.len() <= usize::MAX
        &&& k.shared.len() <= usize::MAX
        &&& k.block == seq![self.tile, self.tile, 1u32]
        &&& self.lies_in(grid)
        &&& forall|r: int, c: int| #[trigger]
            thread(k, r, c) ==> at(r, c) == self.cell(grid, r, c) && 0 <= at(r, c) <= u32::MAX
    }

    /// Whether a block can compute into a variable, at an index.
    pub open spec fn steady(
        self,
        limit: nat,
        out: ValueId,
        idx: ValueId,
        s: Block,
        at: spec_fn(int, int) -> int,
    ) -> bool {
        let k = self.k;
        &&& out < limit && !inlined(k.values[out as int])
        &&& self.given(idx, limit, out)
        &&& self.settled(limit, out)
        &&& !s.stuck
        &&& quiet(k, s)
        &&& self.holds(s)
        &&& forall|m: SharedId| (#[trigger] (s.tiles)(m)).phase is Idle
        &&& forall|r: int, c: int| #[trigger]
            thread(k, r, c) ==> var(s, r, c, idx) == Item::Int(at(r, c))
    }

    /// A block that has changed at most a variable can still compute, into another new variable or
    /// the same.
    pub proof fn lemma_steady_on(
        self,
        limit: nat,
        out: ValueId,
        idx: ValueId,
        s: Block,
        at: spec_fn(int, int) -> int,
        t: Block,
        set: ValueId,
        more: nat,
        into: ValueId,
    )
        requires
            self.steady(limit, out, idx, s, at),
            framed_by(self.k, s, t, limit, set),
            set >= limit || set == out,
            !t.stuck,
            quiet(self.k, t),
            forall|m: SharedId| (#[trigger] (t.tiles)(m)).phase is Idle,
            limit <= more,
            into < more && !inlined(self.k.values[into as int]),
            into >= limit || into == out,
        ensures
            self.steady(more, into, idx, t, at),
    {
        assert forall|r: int, c: int| #[trigger] thread(self.k, r, c) implies {
            &&& var(t, r, c, idx) == var(s, r, c, idx)
            &&& var(t, r, c, self.f.local_row) == var(s, r, c, self.f.local_row)
            &&& var(t, r, c, self.f.local_col) == var(s, r, c, self.f.local_col)
            &&& var(t, r, c, self.f.tile_size) == var(s, r, c, self.f.tile_size)
            &&& var(t, r, c, self.f.base) == var(s, r, c, self.f.base)
        } by {}
    }

    /// Something is added to a variable.
    pub proof fn lemma_add(
        self,
        from: nat,
        out: ValueId,
        limit: nat,
        op: Op,
        grid: (MetaId, MetaId),
        s: Block,
        o: spec_fn(int, int) -> Expr,
        v: spec_fn(int, int) -> Expr,
        e: spec_fn(int, int) -> Expr,
    ) -> (t: Block)
        requires
            !s.stuck,
            quiet(self.k, s),
            forall|m: SharedId| (#[trigger] (s.tiles)(m)).phase is Idle,
            hold(self.k, s, out, o),
            !(op is SharedLoad),
            self.k.ops[from as int] == (Op::AddAssign { id: out, val: Box::new(op) }),
            forall|r: int, c: int| #[trigger]
                thread(self.k, r, c) ==> result(self.k, self.w, s, r, c, op, any()) == Item::Real(
                    v(r, c),
                ) && e(r, c) == plus(o(r, c), v(r, c)),
        ensures
            self.carried(limit, from, from + 1, out, Some(grid), s, t, e),
            t.tiles == s.tiles,
            forall|r: int, c: int| #[trigger]
                thread(self.k, r, c) ==> stores(t, r, c) == stores(s, r, c),
    {
        let f = |r: int, c: int| Item::Real(e(r, c));
        assert forall|r: int, c: int| #[trigger] thread(self.k, r, c) implies sum(
            var(s, r, c, out),
            result(self.k, self.w, s, r, c, op, any()),
        ) == f(r, c) by {
            assert(var(s, r, c, out) == Item::Real(o(r, c)));
        }
        let t = lemma_assign(self.k, self.w, s, from, out, op, f);
        assert forall|r: int, c: int| #[trigger] thread(self.k, r, c) implies stores(t, r, c)
            == stores(s, r, c) by {}
        lemma_stored_same(self.k, s, t, self.good());
        t
    }

    /// What a thread loads from a parameter that the kernel does not change.
    pub proof fn lemma_load_value(
        self,
        limit: nat,
        out: ValueId,
        idx: ValueId,
        s: Block,
        at: spec_fn(int, int) -> int,
        param: ParamId,
        bound: nat,
    )
        requires
            self.steady(limit, out, idx, s, at),
            untouched(self.k.ops, param, self.k.ops.len()),
            idx < bound,
        ensures
            forall|r: int, c: int| #[trigger]
                thread(self.k, r, c) ==> result(
                    self.k,
                    self.w,
                    s,
                    r,
                    c,
                    Op::ParamLoad { param, index: idx },
                    bound,
                ) == Item::Real(load(param, num(at(r, c) as u32))),
    {
        assert forall|r: int, c: int| #[trigger] thread(self.k, r, c) implies result(
            self.k,
            self.w,
            s,
            r,
            c,
            Op::ParamLoad { param, index: idx },
            bound,
        ) == Item::Real(load(param, num(at(r, c) as u32))) by {
            assert(item(self.k, self.w, s, r, c, idx) == var(s, r, c, idx));
        }
    }

    /// The code of the gradient of a node adds it to a variable.
    pub proof fn lemma_gradient_runs(
        self,
        n: NodeId,
        out: ValueId,
        kernel: LinkedView,
        resolved: Seq<NodeId>,
        idx: ValueId,
        grid: (MetaId, MetaId),
        s: Block,
        at: spec_fn(int, int) -> int,
        o: spec_fn(int, int) -> Expr,
        param: ParamId,
    ) -> (t: Block)
        requires
            self.f.placed(Operand::Node(n)),
            self.laid(grid, at),
            self.steady(kernel.raw.values.len(), out, idx, s, at),
            self.spares(n, param),
            hold(self.k, s, out, o),
            flows(self.f.nodes, n, grid),
            gauged(self.f.nodes, self.w, self.tile, n, grid),
            ({
                let l = node_grad(self.f, Operand::Node(n), out, kernel, resolved, idx, true);
                &&& l.nodes is Ok
                &&& self.within(l.kernel.raw)
            }),
        ensures
            self.carried(
                kernel.raw.values.len(),
                kernel.raw.ops.len(),
                node_grad(
                    self.f,
                    Operand::Node(n),
                    out,
                    kernel,
                    resolved,
                    idx,
                    true,
                ).kernel.raw.ops.len(),
                out,
                Some(grid),
                s,
                t,
                |r: int, c: int| gradient_at(self.scene(), n, o(r, c), grid, at(r, c)),
            ),
        decreases self.f.nodes.len() - n, 1nat, 0int,
    {
        let f = self.f;
        let k = kernel.computes(f.node(n).op);
        let l = node_grad(f, Operand::Node(n), out, kernel, resolved, idx, true);
        let from = kernel.raw.ops.len();
        let limit = kernel.raw.values.len();
        let e = |r: int, c: int| gradient_at(self.scene(), n, o(r, c), grid, at(r, c));
        if f.node(n).outputs@.len() == 0 {
            let op = Op::ParamLoad { param: 1, index: idx };
            assert(l.kernel.raw == kernel.raw.accum(out, op));
            assert(l.kernel.raw.ops.len() == from + 1 && self.k.ops[from as int]
                == (Op::AddAssign { id: out, val: Box::new(op) })) by {
                reveal(RawView::emit);
                assert(self.k.ops[from as int] == l.kernel.raw.ops[from as int]);
            }
            assert(untouched(self.k.ops, 1, self.k.ops.len()));
            self.lemma_load_value(limit, out, idx, s, at, 1, any());
            let v = |r: int, c: int| load(1, num(at(r, c) as u32));
            self.lemma_add(from, out, limit, op, grid, s, o, v, e)
        } else {
            assert(!grad_loaded(f, n, resolved, true));
            let t = self.lemma_users_run(
                n,
                0,
                out,
                k,
                resolved,
                idx,
                grid,
                s,
                at,
                o,
                param,
                seq![n],
            );
            assert(hold(self.k, t, out, e)) by {
                assert forall|r: int, c: int| #[trigger] thread(self.k, r, c) implies var(
                    t,
                    r,
                    c,
                    out,
                ) == Item::Real(e(r, c)) by {}
            }
            t
        }
    }

    /// The code of the gradients through the nodes that take a node adds them to a variable.
    pub proof fn lemma_users_run(
        self,
        n: NodeId,
        index: int,
        out: ValueId,
        kernel: LinkedView,
        resolved: Seq<NodeId>,
        idx: ValueId,
        grid: (MetaId, MetaId),
        s: Block,
        at: spec_fn(int, int) -> int,
        o: spec_fn(int, int) -> Expr,
        param: ParamId,
        ids: Seq<NodeId>,
    ) -> (t: Block)
        requires
            self.f.placed(Operand::Node(n)),
            self.laid(grid, at),
            self.steady(kernel.raw.values.len(), out, idx, s, at),
            self.spares(n, param),
            hold(self.k, s, out, o),
            flows(self.f.nodes, n, grid),
            gauged(self.f.nodes, self.w, self.tile, n, grid),
            0 <= index <= self.f.nodes[n as int].outputs@.len(),
            all_any(self.f.nodes, ids),
            ({
                let l = user_grads(self.f, n, index, out, kernel, resolved, idx, true, ids);
                &&& l.nodes is Ok
                &&& self.within(l.kernel.raw)
            }),
        ensures
            self.carried(
                kernel.raw.values.len(),
                kernel.raw.ops.len(),
                user_grads(
                    self.f,
                    n,
                    index,
                    out,
                    kernel,
                    resolved,
                    idx,
                    true,
                    ids,
                ).kernel.raw.ops.len(),
                out,
                Some(grid),
                s,
                t,
                |r: int, c: int| users_at(self.scene(), n, index, o(r, c), grid, at(r, c)),
            ),
        decreases
                self.f.nodes.len() - n,
                0nat,
                self.f.nodes[n as int].outputs@.len() - index,
    {
        let f = self.f;
        let z = self.scene();
        let from = kernel.raw.ops.len();
        let limit = kernel.raw.values.len();
        let l = user_grads(f, n, index, out, kernel, resolved, idx, true, ids);
        let e = |r: int, c: int| users_at(z, n, index, o(r, c), grid, at(r, c));
        if index >= f.node(n).outputs@.len() {
            lemma_advance_none(self.k, self.w, from, s);
            lemma_stored_same(self.k, s, s, self.good());
            assert(hold(self.k, s, out, e)) by {
                assert forall|r: int, c: int| #[trigger] thread(self.k, r, c) implies var(
                    s,
                    r,
                    c,
                    out,
                ) == Item::Real(e(r, c)) by {}
            }
            s
        } else {
            let user = f.node(n).outputs@[index];
            let edge = edge_of(f.nodes, user, n);
            assert(f.nodes[n as int].outputs@[index] == user);
            assert(n < user < f.nodes.len());
            let u = lowering(f, Some(edge), user, out, kernel, resolved, idx, true);
            assert(u.nodes is Ok);
            assert(f.nodes[user as int].op is Custom);
            lemma_through_code(f, user, edge, out, kernel, resolved, idx, grid);
            let more = ids + u.nodes->Ok_0;
            lemma_all_any(f.nodes, ids, u.nodes->Ok_0);
            assert(l == user_grads(
                f,
                n,
                index + 1,
                out,
                u.kernel,
                u.resolved,
                idx,
                true,
                more,
            ));
            lemma_users_code(f, n, index + 1, out, u.kernel, u.resolved, idx, grid, more);
            lemma_extends_on(u.kernel.raw, l.kernel.raw, self.k);
            let t = self.lemma_through_runs(
                user,
                edge,
                out,
                kernel,
                resolved,
                idx,
                grid,
                s,
                at,
                o,
                param,
            );
            let mid = |r: int, c: int| through_at(z, user, edge, o(r, c), grid, at(r, c));
            self.lemma_steady_on(
                limit,
                out,
                idx,
                s,
                at,
                t,
                out,
                u.kernel.raw.values.len(),
                out,
            );
            let t2 = self.lemma_users_run(
                n,
                index + 1,
                out,
                u.kernel,
                u.resolved,
                idx,
                grid,
                t,
                at,
                mid,
                param,
                more,
            );
            self.lemma_then(
                limit,
                out,
                grid,
                from,
                u.kernel.raw.ops.len(),
                l.kernel.raw.ops.len(),
                s,
                t,
                t2,
                u.kernel.raw.values.len(),
                out,
            );
            assert(hold(self.k, t2, out, e)) by {
                assert forall|r: int, c: int| #[trigger] thread(self.k, r, c) implies var(
                    t2,
                    r,
                    c,
                    out,
                ) == Item::Real(e(r, c)) by {
                    assert(e(r, c) == users_at(z, n, index + 1, mid(r, c), grid, at(r, c)));
                }
            }
            t2
        }
    }

    /// One part of the code comes after another.
    pub proof fn lemma_then(
        self,
        limit: nat,
        out: ValueId,
        grid: (MetaId, MetaId),
        a: nat,
        b: nat,
        c: nat,
        s: Block,
        t: Block,
        u: Block,
        more: nat,
        set: ValueId,
    )
        requires
            advances(self.k, self.w, a, b, s, t),
            advances(self.k, self.w, b, c, t, u),
            framed_by(self.k, s, t, limit, out),
            framed_by(self.k, t, u, more, set),
            stored_on(self.k, s, t, self.good()),
            stored_on(self.k, t, u, self.good()),
            limit <= more,
            set == out || set >= limit,
        ensures
            advances(self.k, self.w, a, c, s, u),
            framed_by(self.k, s, u, limit, out),
            stored_on(self.k, s, u, self.good()),
    {
        lemma_advance_on(self.k, self.w, a, b, c, s, t, u);
        lemma_stored_on(self.k, s, t, u, self.good());
        assert forall|r: int, d: int, v: ValueId|
            thread(self.k, r, d) && v < limit && v != out implies #[trigger] var(u, r, d, v) == var(
            s,
            r,
            d,
            v,
        ) by {
            assert(var(u, r, d, v) == var(t, r, d, v));
            assert(var(t, r, d, v) == var(s, r, d, v));
        }
    }

    /// The code of the gradient through a node adds it to a variable.
    pub proof fn lemma_through_runs(
        self,
        user: NodeId,
        edge: u8,
        out: ValueId,
        kernel: LinkedView,
        resolved: Seq<NodeId>,
        idx: ValueId,
        grid: (MetaId, MetaId),
        s: Block,
        at: spec_fn(int, int) -> int,
        o: spec_fn(int, int) -> Expr,
        param: ParamId,
    ) -> (t: Block)
        requires
            self.f.placed(Operand::Node(user)),
            self.laid(grid, at),
            self.steady(kernel.raw.values.len(), out, idx, s, at),
            self.spares(user, param),
            self.f.node_params[user as int] != Some(param),
            hold(self.k, s, out, o),
            self.f.nodes[user as int].op is Custom,
            if self.f.nodes[user as int].op->lower == OpName::Matmul {
                &&& multiplies(self.f.nodes, user, edge, grid)
                &&& size(
                    self.w,
                    self.tile,
                    (grid.0, grid.1, span_of(self.f.nodes, user, edge)),
                ).fits()
            } else {
                &&& self.f.nodes[user as int].op->lower != OpName::Softmax
                &&& flows(self.f.nodes, user, grid)
                &&& gauged(self.f.nodes, self.w, self.tile, user, grid)
            },
            ({
                let l = lowering(self.f, Some(edge), user, out, kernel, resolved, idx, true);
                &&& l.nodes is Ok
                &&& self.within(l.kernel.raw)
            }),
        ensures
            self.carried(
                kernel.raw.values.len(),
                kernel.raw.ops.len(),
                lowering(
                    self.f,
                    Some(edge),
                    user,
                    out,
                    kernel,
                    resolved,
                    idx,
                    true,
                ).kernel.raw.ops.len(),
                out,
                Some(grid),
                s,
                t,
                |r: int, c: int| through_at(self.scene(), user, edge, o(r, c), grid, at(r, c)),
            ),
        decreases self.f.nodes.len() - user, 2nat, 1int,
    {
        let name = self.f.nodes[user as int].op->lower;
        if name == OpName::Matmul {
            self.lemma_terms_run(user, edge, out, kernel, resolved, idx, grid, s, at, o, param)
        } else if is_joined(name) {
            self.lemma_joined_runs(user, edge, out, kernel, resolved, idx, grid, s, at, o, param)
        } else {
            self.lemma_slope_runs(user, edge, out, kernel, resolved, idx, grid, s, at, o, param)
        }
    }

    /// A new variable that starts with zero.
    pub proof fn lemma_zero_runs(
        self,
        r: RawView,
        out: ValueId,
        idx: ValueId,
        grid: (MetaId, MetaId),
        s: Block,
        at: spec_fn(int, int) -> int,
    ) -> (t: Block)
        requires
            self.steady(r.values.len(), out, idx, s, at),
            self.k.values.len() <= usize::MAX,
            extends(r.var_f(zero()).0, self.k),
        ensures
            ({
                let (q, id) = r.var_f(zero());
                &&& q.values.len() == r.values.len() + 1
                &&& q.ops.len() == r.ops.len() + 1
                &&& id == r.values.len()
                &&& !inlined(self.k.values[id as int])
                &&& advances(self.k, self.w, r.ops.len(), q.ops.len(), s, t)
                &&& framed_by(self.k, s, t, r.values.len(), id)
                &&& framed_by(self.k, s, t, r.values.len(), out)
                &&& stored_on(self.k, s, t, self.good())
                &&& hold(self.k, t, id, |r: int, c: int| num(ZERO_BITS))
                &&& self.steady(q.values.len(), id, idx, t, at)
                &&& self.steady(q.values.len(), out, idx, t, at)
                &&& forall|i: int, c: int| #[trigger]
                    thread(self.k, i, c) ==> var(t, i, c, out) == var(s, i, c, out)
            }),
    {
        let (q, id) = r.var_f(zero());
        let limit = r.values.len();
        let from = r.ops.len();
        assert(q.values.len() == limit + 1 && q.ops.len() == from + 1 && id == limit as usize
            && q.ops[from as int] == (Op::DefineVar { id }) && q.values[limit as int].init == Some(
            zero(),
        ) && q.values[limit as int].state is Mut) by {
            reveal(RawView::def);
        }
        assert(self.k.ops[from as int] == q.ops[from as int]);
        assert(self.k.values[limit as int] == q.values[limit as int]);
        let zeros = |i: int, c: int| Item::Real(num(ZERO_BITS));
        let t = self.lemma_new(from, id, Some(grid), s, zeros);
        self.lemma_steady_on(limit, out, idx, s, at, t, id, limit + 1, id);
        self.lemma_steady_on(limit, out, idx, s, at, t, id, limit + 1, out);
        t
    }

    pub proof fn lemma_joined_runs(
        self,
        user: NodeId,
        edge: u8,
        out: ValueId,
        kernel: LinkedView,
        resolved: Seq<NodeId>,
        idx: ValueId,
        grid: (MetaId, MetaId),
        s: Block,
        at: spec_fn(int, int) -> int,
        o: spec_fn(int, int) -> Expr,
        param: ParamId,
    ) -> (t: Block)
        requires
            self.f.placed(Operand::Node(user)),
            self.laid(grid, at),
            self.steady(kernel.raw.values.len(), out, idx, s, at),
            self.spares(user, param),
            hold(self.k, s, out, o),
            self.f.nodes[user as int].op is Custom,
            is_joined(self.f.nodes[user as int].op->lower),
            flows(self.f.nodes, user, grid),
            gauged(self.f.nodes, self.w, self.tile, user, grid),
            ({
                let l = lowering(self.f, Some(edge), user, out, kernel, resolved, idx, true);
                &&& l.nodes is Ok
                &&& self.within(l.kernel.raw)
            }),
        ensures
            self.carried(
                kernel.raw.values.len(),
                kernel.raw.ops.len(),
                lowering(
                    self.f,
                    Some(edge),
                    user,
                    out,
                    kernel,
                    resolved,
                    idx,
                    true,
                ).kernel.raw.ops.len(),
                out,
                Some(grid),
                s,
                t,
                |r: int, c: int| through_at(self.scene(), user, edge, o(r, c), grid, at(r, c)),
            ),
        decreases self.f.nodes.len() - user, 2nat, 0int,
    {
        let f = self.f;
        let z = self.scene();
        let k = self.k;
        let name = f.nodes[user as int].op->lower;
        let node = Operand::Node(user);
        let l = lowering(f, Some(edge), user, out, kernel, resolved, idx, true);
        let from = kernel.raw.ops.len();
        let limit = kernel.raw.values.len();
        let e = |r: int, c: int| through_at(z, user, edge, o(r, c), grid, at(r, c));
        assert(has_operands(f.nodes, user as int));
        assert(l == binary_lowering(name, f, Some(edge), user, out, kernel, resolved, idx, true));
        assert(l == binary_grad(name, f, edge, user, out, kernel, resolved, idx, true));
        if name == OpName::Add || (name == OpName::Sub && edge == 0) {
            let t = self.lemma_gradient_runs(
                user,
                out,
                kernel,
                resolved,
                idx,
                grid,
                s,
                at,
                o,
                param,
            );
            assert(hold(k, t, out, e)) by {
                assert forall|r: int, c: int| #[trigger] thread(k, r, c) implies var(t, r, c, out)
                    == Item::Real(e(r, c)) by {}
            }
            t
        } else {
            let (raw, g_val) = kernel.raw.var_f(zero());
            let k1 = LinkedView { raw, ..kernel };
            let x = node_grad(f, node, g_val, k1, resolved, idx, true);
            assert(x.nodes is Ok);
            lemma_gradient_code(f, user, g_val, k1, resolved, idx, grid);
            assert(extends(x.kernel.raw, l.kernel.raw) && l.kernel.raw.shared
                == x.kernel.raw.shared) by {
                reveal(RawView::def);
                reveal(RawView::emit);
            }
            lemma_extends_on(x.kernel.raw, l.kernel.raw, k);
            lemma_extends_on(raw, x.kernel.raw, k);
            let s1 = self.lemma_zero_runs(kernel.raw, out, idx, grid, s, at);
            let none = |r: int, c: int| num(ZERO_BITS);
            let s2 = self.lemma_gradient_runs(
                user,
                g_val,
                k1,
                resolved,
                idx,
                grid,
                s1,
                at,
                none,
                param,
            );
            let g = |r: int, c: int| gradient_at(z, user, num(ZERO_BITS), grid, at(r, c));
            assert(hold(k, s2, g_val, g)) by {
                assert forall|r: int, c: int| #[trigger] thread(k, r, c) implies var(
                    s2,
                    r,
                    c,
                    g_val,
                ) == Item::Real(g(r, c)) by {}
            }
            let v1 = x.kernel.raw.values.len();
            let p1 = x.kernel.raw.ops.len();
            self.lemma_then(limit, out, grid, from, from + 1, p1, s, s1, s2, limit + 1, g_val);
            self.lemma_steady_on(limit + 1, g_val, idx, s1, at, s2, g_val, v1, g_val);
            self.lemma_out_on(limit, out, idx, s, at, s1, s2, g_val, v1, o);
            let t = if name == OpName::Sub {
                let op = Op::Neg { x: g_val };
                assert(l.kernel.raw.ops.len() == p1 + 1 && k.ops[p1 as int] == (Op::AddAssign {
                    id: out,
                    val: Box::new(op),
                })) by {
                    reveal(RawView::emit);
                    assert(k.ops[p1 as int] == l.kernel.raw.ops[p1 as int]);
                }
                let v = |r: int, c: int| negated(g(r, c));
                assert forall|r: int, c: int| #[trigger] thread(k, r, c) implies result(
                    k,
                    self.w,
                    s2,
                    r,
                    c,
                    op,
                    any(),
                ) == Item::Real(v(r, c)) && e(r, c) == plus(o(r, c), v(r, c)) by {
                    assert(item(k, self.w, s2, r, c, g_val) == var(s2, r, c, g_val));
                }
                self.lemma_add(p1, out, v1, op, grid, s2, o, v, e)
            } else {
                self.lemma_factor_runs(
                    name,
                    user,
                    edge,
                    out,
                    g_val,
                    x.kernel,
                    x.resolved,
                    idx,
                    x.nodes->Ok_0,
                    grid,
                    s2,
                    at,
                    o,
                    g,
                    e,
                    param,
                )
            };
            self.lemma_then(limit, out, grid, from, p1, l.kernel.raw.ops.len(), s, s2, t, v1, out);
            t
        }
    }

    /// A variable that nothing has changed can still be added to.
    pub proof fn lemma_out_on(
        self,
        limit: nat,
        out: ValueId,
        idx: ValueId,
        s: Block,
        at: spec_fn(int, int) -> int,
        s1: Block,
        s2: Block,
        set: ValueId,
        more: nat,
        o: spec_fn(int, int) -> Expr,
    )
        requires
            self.steady(limit, out, idx, s, at),
            hold(self.k, s, out, o),
            framed_by(self.k, s, s1, limit, set),
            framed_by(self.k, s1, s2, limit + 1, set),
            set == limit,
            !s2.stuck,
            quiet(self.k, s2),
            forall|m: SharedId| (#[trigger] (s2.tiles)(m)).phase is Idle,
            limit < more,
        ensures
            self.steady(more, out, idx, s2, at),
            hold(self.k, s2, out, o),
    {
        assert forall|r: int, c: int, v: ValueId|
            thread(self.k, r, c) && v < limit && v != set implies #[trigger] var(s2, r, c, v)
            == var(s, r, c, v) by {
            assert(var(s2, r, c, v) == var(s1, r, c, v));
            assert(var(s1, r, c, v) == var(s, r, c, v));
        }
        self.lemma_steady_on(limit, out, idx, s, at, s2, set, more, out);
        assert forall|r: int, c: int| #[trigger] thread(self.k, r, c) implies var(s2, r, c, out)
            == Item::Real(o(r, c)) by {
            assert(var(s2, r, c, out) == var(s, r, c, out));
        }
    }

    /// A number that is computed once.
    pub proof fn lemma_let_runs(
        self,
        r: RawView,
        op: Op,
        out: ValueId,
        idx: ValueId,
        grid: (MetaId, MetaId),
        s: Block,
        at: spec_fn(int, int) -> int,
        v: spec_fn(int, int) -> Expr,
    ) -> (t: Block)
        requires
            self.steady(r.values.len(), out, idx, s, at),
            self.k.values.len() <= usize::MAX,
            extends(r.let_f(op).0, self.k),
            !(op is SharedLoad),
            forall|i: int, c: int| #[trigger]
                thread(self.k, i, c) ==> result(
                    self.k,
                    self.w,
                    s,
                    i,
                    c,
                    op,
                    r.values.len(),
                ) == Item::Real(v(i, c)),
        ensures
            ({
                let (q, id) = r.let_f(op);
                &&& q.values.len() == r.values.len() + 1
                &&& q.ops.len() == r.ops.len() + 1
                &&& q.shared == r.shared
                &&& id == r.values.len()
                &&& extends(r, q)
                &&& !inlined(self.k.values[id as int])
                &&& advances(self.k, self.w, r.ops.len(), q.ops.len(), s, t)
                &&& framed_by(self.k, s, t, r.values.len(), out)
                &&& stored_on(self.k, s, t, self.good())
                &&& hold(self.k, t, id, v)
                &&& self.steady(q.values.len(), out, idx, t, at)
                &&& forall|i: int, c: int, u: ValueId|
                    thread(self.k, i, c) && u < r.values.len() ==> #[trigger] var(t, i, c, u)
                        == var(s, i, c, u)
            }),
    {
        let (q, id) = r.let_f(op);
        let limit = r.values.len();
        let from = r.ops.len();
        assert(q.values.len() == limit + 1 && q.ops.len() == from + 1 && id == limit as usize
            && q.ops[from as int] == (Op::DefineVar { id }) && q.values[limit as int].init == Some(
            op,
        ) && q.values[limit as int].state is Immut && extends(r, q) && q.shared == r.shared) by {
            reveal(RawView::def);
        }
        assert(self.k.ops[from as int] == q.ops[from as int]);
        assert(self.k.values[limit as int] == q.values[limit as int]);
        let f = |i: int, c: int| Item::Real(v(i, c));
        let t = self.lemma_new(from, id, Some(grid), s, f);
        self.lemma_steady_on(limit, out, idx, s, at, t, id, limit + 1, out);
        t
    }

    /// What a thread reads an operand of a product or a quotient as.
    pub proof fn lemma_operand_value(
        self,
        limit: nat,
        out: ValueId,
        idx: ValueId,
        s: Block,
        at: spec_fn(int, int) -> int,
        m: NodeId,
        op: Op,
        param: ParamId,
        bound: nat,
        v: spec_fn(int, int) -> Expr,
    )
        requires
            self.steady(limit, out, idx, s, at),
            m < self.f.nodes.len(),
            self.f.saved_params[m as int] != Some(param),
            forall|p: ParamId|
                p != param ==> #[trigger] untouched(self.k.ops, p, self.k.ops.len()),
            idx < bound,
            ({
                ||| self.f.saved_params[m as int] is Some && op == (Op::ParamLoad {
                    param: self.f.saved_params[m as int]->0,
                    index: idx,
                }) && forall|r: int, c: int| #[trigger]
                    thread(self.k, r, c) ==> v(r, c) == load(
                        self.f.saved_params[m as int]->0,
                        num(at(r, c) as u32),
                    )
                ||| operand_op(self.f, m, idx) == Some(op) && forall|r: int, c: int| #[trigger]
                    thread(self.k, r, c) ==> v(r, c) == operand(
                        self.f.nodes,
                        self.f.saved_params,
                        m,
                        num(at(r, c) as u32),
                    )
            }),
        ensures
            !(op is SharedLoad),
            forall|r: int, c: int| #[trigger]
                thread(self.k, r, c) ==> result(self.k, self.w, s, r, c, op, bound) == Item::Real(
                    v(r, c),
                ),
    {
        if let Op::ParamLoad { param: own, .. } = op {
            assert(untouched(self.k.ops, own, self.k.ops.len()));
            self.lemma_load_value(limit, out, idx, s, at, own, bound);
        }
    }

    pub proof fn lemma_factor_runs(
        self,
        name: OpName,
        user: NodeId,
        edge: u8,
        out: ValueId,
        g_val: ValueId,
        kernel: LinkedView,
        resolved: Seq<NodeId>,
        idx: ValueId,
        nodes: Seq<NodeId>,
        grid: (MetaId, MetaId),
        s: Block,
        at: spec_fn(int, int) -> int,
        o: spec_fn(int, int) -> Expr,
        g: spec_fn(int, int) -> Expr,
        e: spec_fn(int, int) -> Expr,
        param: ParamId,
    ) -> (t: Block)
        requires
            self.f.placed(Operand::Node(user)),
            self.f.nodes[user as int].inputs@.len() >= 2,
            edge <= 1,
            self.laid(grid, at),
            self.steady(kernel.raw.values.len(), out, idx, s, at),
            self.spares(user, param),
            hold(self.k, s, out, o),
            hold(self.k, s, g_val, g),
            g_val < kernel.raw.values.len(),
            g_val != out,
            !inlined(self.k.values[g_val as int]),
            name == OpName::Mul || name == OpName::Div,
            ({
                let l = factor_grad(
                    name,
                    self.f,
                    edge,
                    user,
                    out,
                    g_val,
                    kernel,
                    resolved,
                    idx,
                    nodes,
                );
                &&& l.nodes is Ok
                &&& self.within(l.kernel.raw)
            }),
            forall|r: int, c: int| #[trigger]
                thread(self.k, r, c) ==> {
                    let ins = self.f.nodes[user as int].inputs@;
                    let saved = |m: NodeId|
                        load(self.f.saved_params[m as int]->0, num(at(r, c) as u32));
                    let i = num(at(r, c) as u32);
                    let a = operand(self.f.nodes, self.f.saved_params, ins[0], i);
                    let b = operand(self.f.nodes, self.f.saved_params, ins[1], i);
                    e(r, c) == plus(
                        o(r, c),
                        if name == OpName::Mul {
                            times(g(r, c), saved(ins[1 - edge]))
                        } else if edge == 0 {
                            over(g(r, c), b)
                        } else {
                            negated(over(times(g(r, c), a), times(b, b)))
                        },
                    )
                },
        ensures
            self.carried(
                kernel.raw.values.len(),
                kernel.raw.ops.len(),
                factor_grad(
                    name,
                    self.f,
                    edge,
                    user,
                    out,
                    g_val,
                    kernel,
                    resolved,
                    idx,
                    nodes,
                ).kernel.raw.ops.len(),
                out,
                Some(grid),
                s,
                t,
                e,
            ),
    {
        let f = self.f;
        let k = self.k;
        let w = self.w;
        let l = factor_grad(name, f, edge, user, out, g_val, kernel, resolved, idx, nodes);
        let q = l.kernel.raw;
        let v0 = kernel.raw.values.len();
        let p0 = kernel.raw.ops.len();
        let ins = f.nodes[user as int].inputs@;
        assert(ins[0] < user && ins[1] < user);
        let mult = name == OpName::Mul;
        let near = if mult {
            ins[1 - edge]
        } else if edge == 0 {
            ins[1]
        } else {
            ins[0]
        };
        let fetch = if mult {
            Op::ParamLoad { param: f.saved_params[near as int]->0, index: idx }
        } else {
            operand_op(f, near, idx)->0
        };
        let (r1, saved) = kernel.raw.let_f(fetch);
        assert(extends(r1, q)) by {
            reveal(RawView::def);
            reveal(RawView::emit);
        }
        lemma_extends_on(r1, q, k);
        let first = |r: int, c: int|
            if mult {
                load(f.saved_params[near as int]->0, num(at(r, c) as u32))
            } else {
                operand(f.nodes, f.saved_params, near, num(at(r, c) as u32))
            };
        self.lemma_operand_value(v0, out, idx, s, at, near, fetch, param, v0, first);
        let s1 = self.lemma_let_runs(kernel.raw, fetch, out, idx, grid, s, at, first);
        assert forall|r: int, c: int| #[trigger] thread(k, r, c) implies var(s1, r, c, g_val)
            == Item::Real(g(r, c)) && var(s1, r, c, out) == Item::Real(o(r, c)) by {
            assert(var(s1, r, c, g_val) == var(s, r, c, g_val));
            assert(var(s1, r, c, out) == var(s, r, c, out));
        }
        if name == OpName::Mul || edge == 0 {
            let op = if name == OpName::Mul {
                Op::Mul { a: g_val, b: saved }
            } else {
                Op::Div { a: g_val, b: saved }
            };
            assert(q.ops.len() == p0 + 2 && k.ops[(p0 + 1) as int] == (Op::AddAssign {
                id: out,
                val: Box::new(op),
            })) by {
                reveal(RawView::def);
                reveal(RawView::emit);
                assert(k.ops[(p0 + 1) as int] == q.ops[(p0 + 1) as int]);
            }
            let v = |r: int, c: int|
                if name == OpName::Mul {
                    times(g(r, c), first(r, c))
                } else {
                    over(g(r, c), first(r, c))
                };
            assert forall|r: int, c: int| #[trigger] thread(k, r, c) implies result(
                k,
                w,
                s1,
                r,
                c,
                op,
                any(),
            ) == Item::Real(v(r, c)) && e(r, c) == plus(o(r, c), v(r, c)) by {
                assert(item(k, w, s1, r, c, g_val) == var(s1, r, c, g_val));
                assert(item(k, w, s1, r, c, saved) == var(s1, r, c, saved));
            }
            let t = self.lemma_add(p0 + 1, out, v0 + 1, op, grid, s1, o, v, e);
            self.lemma_then(v0, out, grid, p0, p0 + 1, p0 + 2, s, s1, t, v0 + 1, out);
            t
        } else {
            let own = operand_op(f, ins[1], idx)->0;
            let (r2, divisor) = r1.let_f(own);
            let (r3, scaled) = r2.let_f(Op::Mul { a: g_val, b: saved });
            let (r4, square) = r3.let_f(Op::Mul { a: divisor, b: divisor });
            let (r5, slope) = r4.let_f(Op::Div { a: scaled, b: square });
            assert(extends(r2, r3) && extends(r3, r4) && extends(r4, r5) && extends(r5, q)
                && q.ops.len() == r5.ops.len() + 1 && q.ops[r5.ops.len() as int]
                == (Op::AddAssign { id: out, val: Box::new(Op::Neg { x: slope }) })) by {
                reveal(RawView::def);
                reveal(RawView::emit);
            }
            lemma_extends_on(r5, q, k);
            lemma_extends_on(r4, r5, k);
            lemma_extends_on(r3, r4, k);
            lemma_extends_on(r2, r3, k);
            let second = |r: int, c: int|
                operand(f.nodes, f.saved_params, ins[1], num(at(r, c) as u32));
            self.lemma_operand_value(v0 + 1, out, idx, s1, at, ins[1], own, param, v0 + 1, second);
            let s2 = self.lemma_let_runs(r1, own, out, idx, grid, s1, at, second);
            let e3 = |r: int, c: int| times(g(r, c), first(r, c));
            assert forall|r: int, c: int| #[trigger] thread(k, r, c) implies result(
                k,
                w,
                s2,
                r,
                c,
                Op::Mul { a: g_val, b: saved },
                v0 + 2,
            ) == Item::Real(e3(r, c)) by {
                assert(var(s2, r, c, g_val) == var(s1, r, c, g_val));
                assert(var(s2, r, c, saved) == var(s1, r, c, saved));
                assert(item(k, w, s2, r, c, g_val) == var(s2, r, c, g_val));
                assert(item(k, w, s2, r, c, saved) == var(s2, r, c, saved));
            }
            let s3 = self.lemma_let_runs(
                r2,
                Op::Mul { a: g_val, b: saved },
                out,
                idx,
                grid,
                s2,
                at,
                e3,
            );
            let e4 = |r: int, c: int| times(second(r, c), second(r, c));
            assert forall|r: int, c: int| #[trigger] thread(k, r, c) implies result(
                k,
                w,
                s3,
                r,
                c,
                Op::Mul { a: divisor, b: divisor },
                v0 + 3,
            ) == Item::Real(e4(r, c)) by {
                assert(var(s3, r, c, divisor) == var(s2, r, c, divisor));
                assert(item(k, w, s3, r, c, divisor) == var(s3, r, c, divisor));
            }
            let s4 = self.lemma_let_runs(
                r3,
                Op::Mul { a: divisor, b: divisor },
                out,
                idx,
                grid,
                s3,
                at,
                e4,
            );
            let e5 = |r: int, c: int| over(e3(r, c), e4(r, c));
            assert forall|r: int, c: int| #[trigger] thread(k, r, c) implies result(
                k,
                w,
                s4,
                r,
                c,
                Op::Div { a: scaled, b: square },
                v0 + 4,
            ) == Item::Real(e5(r, c)) by {
                assert(var(s4, r, c, scaled) == var(s3, r, c, scaled));
                assert(item(k, w, s4, r, c, scaled) == var(s4, r, c, scaled));
                assert(item(k, w, s4, r, c, square) == var(s4, r, c, square));
            }
            let s5 = self.lemma_let_runs(
                r4,
                Op::Div { a: scaled, b: square },
                out,
                idx,
                grid,
                s4,
                at,
                e5,
            );
            let op = Op::Neg { x: slope };
            let p5 = p0 + 5;
            assert(k.ops[p5 as int] == q.ops[p5 as int]);
            let v = |r: int, c: int| negated(e5(r, c));
            assert forall|r: int, c: int| #[trigger] thread(k, r, c) implies result(
                k,
                w,
                s5,
                r,
                c,
                op,
                any(),
            ) == Item::Real(v(r, c)) && e(r, c) == plus(o(r, c), v(r, c)) && var(s5, r, c, out)
                == Item::Real(o(r, c)) by {
                assert(item(k, w, s5, r, c, slope) == var(s5, r, c, slope));
                assert(var(s5, r, c, out) == var(s4, r, c, out));
                assert(var(s4, r, c, out) == var(s3, r, c, out));
                assert(var(s3, r, c, out) == var(s2, r, c, out));
                assert(var(s2, r, c, out) == var(s1, r, c, out));
            }
            let t = self.lemma_add(p5, out, v0 + 5, op, grid, s5, o, v, e);
            self.lemma_then(v0, out, grid, p0, p0 + 1, p0 + 2, s, s1, s2, v0 + 1, out);
            self.lemma_then(v0, out, grid, p0, p0 + 2, p0 + 3, s, s2, s3, v0 + 2, out);
            self.lemma_then(v0, out, grid, p0, p0 + 3, p0 + 4, s, s3, s4, v0 + 3, out);
            self.lemma_then(v0, out, grid, p0, p0 + 4, p5, s, s4, s5, v0 + 4, out);
            self.lemma_then(v0, out, grid, p0, p5, p0 + 6, s, s5, t, v0 + 5, out);
            t
        }
    }

    #[verifier::rlimit(60)]
    #[verifier::spinoff_prover]
    pub proof fn lemma_slope_runs(
        self,
        user: NodeId,
        edge: u8,
        out: ValueId,
        kernel: LinkedView,
        resolved: Seq<NodeId>,
        idx: ValueId,
        grid: (MetaId, MetaId),
        s: Block,
        at: spec_fn(int, int) -> int,
        o: spec_fn(int, int) -> Expr,
        param: ParamId,
    ) -> (t: Block)
        requires
            self.f.placed(Operand::Node(user)),
            self.laid(grid, at),
            self.steady(kernel.raw.values.len(), out, idx, s, at),
            self.spares(user, param),
            hold(self.k, s, out, o),
            self.f.nodes[user as int].op is Custom,
            !is_joined(self.f.nodes[user as int].op->lower),
            self.f.nodes[user as int].op->lower != OpName::Matmul,
            self.f.nodes[user as int].op->lower != OpName::Softmax,
            flows(self.f.nodes, user, grid),
            gauged(self.f.nodes, self.w, self.tile, user, grid),
            ({
                let l = lowering(self.f, Some(edge), user, out, kernel, resolved, idx, true);
                &&& l.nodes is Ok
                &&& self.within(l.kernel.raw)
            }),
        ensures
            self.carried(
                kernel.raw.values.len(),
                kernel.raw.ops.len(),
                lowering(
                    self.f,
                    Some(edge),
                    user,
                    out,
                    kernel,
                    resolved,
                    idx,
                    true,
                ).kernel.raw.ops.len(),
                out,
                Some(grid),
                s,
                t,
                |r: int, c: int| through_at(self.scene(), user, edge, o(r, c), grid, at(r, c)),
            ),
        decreases self.f.nodes.len() - user, 2nat, 0int,
    {
        let f = self.f;
        let z = self.scene();
        let k = self.k;
        let name = f.nodes[user as int].op->lower;
        let node = Operand::Node(user);
        let l = lowering(f, Some(edge), user, out, kernel, resolved, idx, true);
        let p0 = kernel.raw.ops.len();
        let v0 = kernel.raw.values.len();
        let e = |r: int, c: int| through_at(z, user, edge, o(r, c), grid, at(r, c));
        assert(has_operands(f.nodes, user as int));
        assert(l == unary_lowering(name, f, Some(edge), user, out, kernel, resolved, idx, true));
        let (raw1, saved) = kernel.raw.var_f(zero());
        let k1 = LinkedView { raw: raw1, ..kernel };
        let own = f.saved_params[user as int];
        let fetch = Op::ParamLoad { param: own->0, index: idx };
        let k2 = if reads_saved(name) {
            k1.accum(saved, Op::ParamLoad { param: own.unwrap(), index: idx }).param(own.unwrap())
        } else {
            k1
        };
        let (raw3, acc) = k2.raw.var_f(zero());
        let k3 = LinkedView { raw: raw3, ..k2 };
        let x = node_grad(f, node, acc, k3, resolved, idx, true);
        assert(x.nodes is Ok);
        lemma_gradient_code(f, user, acc, k3, resolved, idx, grid);
        let q = unary_grad(name, x.kernel.raw, out, saved, acc);
        assert(l.kernel.raw == q);
        let v1 = x.kernel.raw.values.len();
        let p1 = x.kernel.raw.ops.len();
        assert(extends(x.kernel.raw, q) && q.shared == x.kernel.raw.shared) by {
            reveal(RawView::def);
            reveal(RawView::emit);
        }
        assert(extends(raw1, k2.raw) && extends(k2.raw, raw3) && raw1.values.len() == v0 + 1
            && k2.raw.values == raw1.values && raw1.ops.len() == p0 + 1) by {
            reveal(RawView::def);
            reveal(RawView::emit);
        }
        lemma_extends_on(x.kernel.raw, q, k);
        lemma_extends_on(raw3, x.kernel.raw, k);
        lemma_extends_on(k2.raw, raw3, k);
        lemma_extends_on(raw1, k2.raw, k);
        let none = |r: int, c: int| num(ZERO_BITS);
        let s1 = self.lemma_zero_runs(kernel.raw, out, idx, grid, s, at);
        let y = |r: int, c: int|
            if reads_saved(name) {
                plus(num(ZERO_BITS), load(own->0, num(at(r, c) as u32)))
            } else {
                num(ZERO_BITS)
            };
        let p2 = k2.raw.ops.len();
        let s2 = if reads_saved(name) {
            assert(own is Some);
            assert(f.saved_params[user as int] != Some(param));
            assert(untouched(k.ops, own->0, k.ops.len()));
            assert(p2 == p0 + 2 && k.ops[(p0 + 1) as int] == (Op::AddAssign {
                id: saved,
                val: Box::new(fetch),
            })) by {
                reveal(RawView::emit);
                assert(k.ops[(p0 + 1) as int] == k2.raw.ops[(p0 + 1) as int]);
            }
            self.lemma_load_value(v0 + 1, saved, idx, s1, at, own->0, any());
            let v = |r: int, c: int| load(own->0, num(at(r, c) as u32));
            self.lemma_add(p0 + 1, saved, v0 + 1, fetch, grid, s1, none, v, y)
        } else {
            lemma_advance_none(k, self.w, p0 + 1, s1);
            lemma_stored_same(k, s1, s1, self.good());
            s1
        };
        assert(hold(k, s2, saved, y)) by {
            assert forall|r: int, c: int| #[trigger] thread(k, r, c) implies var(s2, r, c, saved)
                == Item::Real(y(r, c)) by {}
        }
        self.lemma_then(v0, out, grid, p0, p0 + 1, p2, s, s1, s2, v0 + 1, saved);
        self.lemma_steady_on(v0 + 1, saved, idx, s1, at, s2, saved, v0 + 1, saved);
        self.lemma_out_on(v0, out, idx, s, at, s1, s2, saved, v0 + 1, o);
        let s3 = self.lemma_zero_runs(k2.raw, saved, idx, grid, s2, at);
        let s4 = self.lemma_gradient_runs(
            user,
            acc,
            k3,
            resolved,
            idx,
            grid,
            s3,
            at,
            none,
            param,
        );
        let g = |r: int, c: int| gradient_at(z, user, num(ZERO_BITS), grid, at(r, c));
        assert forall|r: int, c: int| #[trigger] thread(k, r, c) implies {
            &&& var(s4, r, c, acc) == Item::Real(g(r, c))
            &&& var(s4, r, c, saved) == Item::Real(y(r, c))
            &&& var(s4, r, c, out) == Item::Real(o(r, c))
        } by {
            assert(var(s4, r, c, saved) == var(s3, r, c, saved));
            assert(var(s3, r, c, saved) == var(s2, r, c, saved));
            assert(var(s4, r, c, out) == var(s3, r, c, out));
            assert(var(s3, r, c, out) == var(s2, r, c, out));
        }
        let t = lemma_unary_grad_runs(
            name,
            x.kernel.raw,
            out,
            saved,
            acc,
            k,
            self.w,
            s4,
            o,
            y,
            g,
        );
        lemma_stored_same(k, s4, t, self.good());
        self.lemma_then(v0, out, grid, p0, p2, p2 + 1, s, s2, s3, v0 + 1, acc);
        self.lemma_then(v0, out, grid, p0, p2 + 1, p1, s, s3, s4, v0 + 2, acc);
        self.lemma_then(v0, out, grid, p0, p1, q.ops.len(), s, s4, t, v1, out);
        assert(hold(k, t, out, e)) by {
            assert forall|r: int, c: int| #[trigger] thread(k, r, c) implies var(t, r, c, out)
                == Item::Real(e(r, c)) by {
                assert(e(r, c) == graded(name, o(r, c), y(r, c), g(r, c)));
            }
        }
        t
    }
}

} // verus!
