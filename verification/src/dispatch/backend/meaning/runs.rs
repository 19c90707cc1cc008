//! What the code of a node computes when a block runs it, in a forward pass.

use vstd::prelude::*;

use crate::dispatch::backend::kernel::forward::{node_done, node_value};
use crate::dispatch::backend::kernel::frame::{has_operands, Operand};
use crate::dispatch::backend::kernel::raw::{LinkedView, RawView};
use crate::dispatch::backend::meaning::emitted::lemma_extends_on;
use crate::dispatch::backend::meaning::forward::is_joined;
use crate::dispatch::backend::meaning::fused::{
    kept_at, kept_below, lemma_node_grows, lemma_store, loads, right_for, saved_at, saved_in, Stage,
};
use crate::dispatch::backend::meaning::parts::lemma_unary_runs;
use crate::dispatch::backend::meaning::product::{
    framed_by, goes_on, lemma_stored_on, lemma_stored_same, stored_on, zero,
};
use crate::dispatch::backend::meaning::tiles::{
    advances, item, lemma_advance_on, lemma_assign, lemma_define, quiet, result, set_one, stores,
    thread, var, Block, Item, Write,
};
use crate::dispatch::backend::meaning::{any, extends, load, num, untouched, Expr};
use crate::dispatch::backend::std_lib::binary::{binary_lowering, binary_value, combined};
use crate::dispatch::backend::std_lib::lowering;
use crate::dispatch::backend::std_lib::matmul::product;
use crate::dispatch::backend::std_lib::unary::{unary_lowering, unary_value};
use crate::dispatch::backend::{
    DType, GraphOp, MetaId, NodeId, Op, OpName, ParamId, SharedId, ValueId, ValueState,
};
use crate::scalar::ZERO_BITS;

verus! {

impl Stage {
    /// Whether a kernel that is part of the whole one ends within it.
    pub open spec fn within(self, q: RawView) -> bool {
        extends(q, self.k) && q.shared.len() <= self.k.shared.len()
    }

    /// A definition of a new variable.
    pub proof fn lemma_new(
        self,
        from: nat,
        id: ValueId,
        grid: Option<(MetaId, MetaId)>,
        s: Block,
        f: spec_fn(int, int) -> Item,
    ) -> (t: Block)
        requires
            !s.stuck,
            quiet(self.k, s),
            self.k.ops[from as int] == (Op::DefineVar { id }),
            !(self.k.values[id as int].state is Inline),
            !(self.k.values[id as int].state is Masked),
            self.k.values[id as int].init matches Some(op) ==> !(op is SharedLoad) && forall|
                r: int,
                c: int,
            |
                #[trigger] thread(self.k, r, c) ==> result(self.k, self.w, s, r, c, op, id as nat)
                    == f(r, c),
            self.k.values[id as int].init is None ==> forall|r: int, c: int| #[trigger]
                thread(self.k, r, c) ==> f(r, c) == Item::Unset,
            grid is Some ==> forall|m: SharedId| (#[trigger] (s.tiles)(m)).phase is Idle,
        ensures
            advances(self.k, self.w, from, from + 1, s, t),
            !t.stuck,
            quiet(self.k, t),
            t.tiles == s.tiles,
            set_one(self.k, s, t, id, f),
            stored_on(self.k, s, t, self.good()),
            framed_by(self.k, s, t, id as nat, id),
    {
        let t = lemma_define(self.k, self.w, s, from, id, f);
        assert forall|r: int, c: int| #[trigger] thread(self.k, r, c) implies stores(t, r, c)
            == stores(s, r, c) by {}
        lemma_stored_same(self.k, s, t, self.good());
        t
    }

    /// An assignment of a number.
    pub proof fn lemma_put(
        self,
        from: nat,
        out: ValueId,
        limit: nat,
        op: Op,
        grid: Option<(MetaId, MetaId)>,
        s: Block,
        e: spec_fn(int, int) -> Expr,
    ) -> (t: Block)
        requires
            !s.stuck,
            quiet(self.k, s),
            !(op is SharedLoad),
            self.k.ops[from as int] == (Op::OverwriteVar { id: out, val: Box::new(op) }),
            forall|r: int, c: int| #[trigger]
                thread(self.k, r, c) ==> result(self.k, self.w, s, r, c, op, any()) == Item::Real(
                    e(r, c),
                ),
            grid is Some ==> forall|m: SharedId| (#[trigger] (s.tiles)(m)).phase is Idle,
        ensures
            self.carried(limit, from, from + 1, out, grid, s, t, e),
            t.tiles == s.tiles,
            forall|r: int, c: int| #[trigger]
                thread(self.k, r, c) ==> stores(t, r, c) == stores(s, r, c),
    {
        let t = lemma_assign(
            self.k,
            self.w,
            s,
            from,
            out,
            op,
            |r: int, c: int| Item::Real(e(r, c)),
        );
        assert forall|r: int, c: int| #[trigger] thread(self.k, r, c) implies stores(t, r, c)
            == stores(s, r, c) by {}
        lemma_stored_same(self.k, s, t, self.good());
        t
    }

    /// A store of what is saved of a node.
    proof fn lemma_save(
        self,
        n: NodeId,
        from: nat,
        index: ValueId,
        value: ValueId,
        grid: Option<(MetaId, MetaId)>,
        s: Block,
        at: spec_fn(int, int) -> int,
    ) -> (t: Block)
        requires
            self.saving,
            !s.stuck,
            quiet(self.k, s),
            saved_in(self.scene(), n) is Some,
            self.k.ops[from as int] == (Op::ParamStore {
                param: saved_in(self.scene(), n)->0,
                index,
                value,
            }),
            forall|r: int, c: int| #[trigger]
                thread(self.k, r, c) ==> item(self.k, self.w, s, r, c, index) == Item::Int(at(r, c))
                    && item(self.k, self.w, s, r, c, value) == Item::Real(
                    saved_at(self.scene(), n, grid, at(r, c)),
                ),
        ensures
            advances(self.k, self.w, from, from + 1, s, t),
            !t.stuck,
            quiet(self.k, t),
            t.tiles == s.tiles,
            forall|r: int, c: int, v: ValueId| #[trigger] var(t, r, c, v) == var(s, r, c, v),
            stored_on(self.k, s, t, self.good()),
            self.kept_own(n, grid, t, at),
    {
        let z = self.scene();
        let param = saved_in(z, n)->0;
        let f = |r: int, c: int|
            Write {
                param,
                index: Item::Int(at(r, c)),
                value: Item::Real(saved_at(z, n, grid, at(r, c))),
            };
        let t = lemma_store(self.k, self.w, s, from, param, index, value, f);
        reveal(stored_on);
        assert forall|r: int, c: int| #[trigger] thread(self.k, r, c) implies goes_on(
            stores(s, r, c),
            stores(t, r, c),
            self.good(),
        ) && stores(t, r, c).contains(f(r, c)) by {
            assert(right_for(z, n, grid, f(r, c)));
            assert(stores(t, r, c)[stores(s, r, c).len() as int] == f(r, c));
        }
        t
    }

    /// The code of a node computes what the node is, and saves what is computed on the way.
    pub proof fn lemma_node_runs(
        self,
        n: NodeId,
        out: ValueId,
        kernel: LinkedView,
        resolved: Seq<NodeId>,
        idx: ValueId,
        grid: Option<(MetaId, MetaId)>,
        s: Block,
        at: spec_fn(int, int) -> int,
    ) -> (t: Block)
        requires
            self.may_run(n, out, kernel.raw.values.len(), idx, grid, s, at),
            !self.f.claimed(resolved),
            ({
                let l = node_value(
                    self.f,
                    Operand::Node(n),
                    out,
                    kernel,
                    resolved,
                    idx,
                    grid is Some,
                );
                &&& l.nodes is Ok
                &&& self.within(l.kernel.raw)
            }),
        ensures
            ({
                let l = node_value(
                    self.f,
                    Operand::Node(n),
                    out,
                    kernel,
                    resolved,
                    idx,
                    grid is Some,
                );
                &&& self.carried(
                    kernel.raw.values.len(),
                    kernel.raw.ops.len(),
                    l.kernel.raw.ops.len(),
                    out,
                    grid,
                    s,
                    t,
                    self.values(n, grid, at),
                )
                &&& self.kept(n, grid, t, at)
            }),
        decreases n, 1nat,
    {
        let f = self.f;
        let k = self.k;
        let op = f.node(n).op;
        let stable = grid is Some;
        let l = node_value(f, Operand::Node(n), out, kernel, resolved, idx, stable);
        let from = kernel.raw.ops.len();
        let limit = kernel.raw.values.len();
        let z = self.scene();
        let e = self.values(n, grid, at);
        lemma_node_grows(f, n, out, kernel, resolved, idx, grid);
        if op is Input || op is ConstF32 || (op.transform() && !stable) {
            let val = if op is Input {
                Op::ParamLoad { param: f.node_params[n as int]->0, index: idx }
            } else if let GraphOp::ConstF32(value) = op {
                Op::ConstF32 { value }
            } else {
                Op::ParamLoad { param: f.saved_params[n as int]->0, index: idx }
            };
            assert(l.kernel.raw == kernel.raw.assign(out, val));
            assert(l.kernel.raw.ops.len() == from + 1 && k.ops[from as int] == (Op::OverwriteVar {
                id: out,
                val: Box::new(val),
            })) by {
                reveal(RawView::emit);
                assert(k.ops[from as int] == l.kernel.raw.ops[from as int]);
            }
            if let Op::ParamLoad { param, .. } = val {
                assert(loads(z, n, grid, param));
            }
            assert forall|r: int, c: int| #[trigger] thread(k, r, c) implies result(
                k,
                self.w,
                s,
                r,
                c,
                val,
                any(),
            ) == Item::Real(e(r, c)) by {
                assert(item(k, self.w, s, r, c, idx) == var(s, r, c, idx));
            }
            self.lemma_put(from, out, limit, val, grid, s, e)
        } else {
            assert(has_operands(f.nodes, n as int));
            let kn = kernel.computes(op);
            let u = lowering(f, None, n, out, kn, resolved, idx, stable);
            assert(u.nodes is Ok);
            let own: Seq<NodeId> = if f.node(n).inputs@.len() > 0 {
                seq![n]
            } else {
                Seq::empty()
            };
            assert(l == node_done(f, n, out, u.kernel, u.resolved, idx, own + u.nodes->Ok_0));
            let to = u.kernel.raw.ops.len();
            assert(extends(u.kernel.raw, l.kernel.raw) && u.kernel.raw.shared
                == l.kernel.raw.shared) by {
                reveal(RawView::emit);
            }
            lemma_extends_on(u.kernel.raw, l.kernel.raw, k);
            let t = if op matches GraphOp::Custom { lower, .. } && lower == OpName::Matmul {
                self.lemma_product_runs(n, out, kn, resolved, idx, grid->0, s, at)
            } else if op matches GraphOp::Custom { lower, .. } && is_joined(lower) {
                self.lemma_binary_runs(n, out, kn, resolved, idx, grid, s, at)
            } else {
                self.lemma_unary_node_runs(n, out, kn, resolved, idx, grid, s, at)
            };
            if op.auto_saved() && f.saved_params[n as int] is Some {
                let param = f.saved_params[n as int]->0;
                assert(l.kernel.raw.ops.len() == to + 1 && k.ops[to as int] == (Op::ParamStore {
                    param,
                    index: idx,
                    value: out,
                })) by {
                    reveal(RawView::emit);
                    assert(k.ops[to as int] == l.kernel.raw.ops[to as int]);
                }
                assert forall|r: int, c: int| #[trigger] thread(k, r, c) implies item(
                    k,
                    self.w,
                    t,
                    r,
                    c,
                    idx,
                ) == Item::Int(at(r, c)) && item(k, self.w, t, r, c, out) == Item::Real(
                    saved_at(z, n, grid, at(r, c)),
                ) by {
                    assert(var(t, r, c, idx) == var(s, r, c, idx));
                    assert(item(k, self.w, t, r, c, idx) == var(t, r, c, idx));
                    assert(item(k, self.w, t, r, c, out) == var(t, r, c, out));
                }
                let t2 = self.lemma_save(n, to, idx, out, grid, t, at);
                lemma_advance_on(k, self.w, from, to, to + 1, s, t, t2);
                lemma_stored_on(k, s, t, t2, self.good());
                self.lemma_kept_on(n, grid, t, t2, at);
                assert forall|r: int, c: int, v: ValueId|
                    thread(k, r, c) && v < limit && v != out implies #[trigger] var(t2, r, c, v)
                    == var(s, r, c, v) by {
                    assert(var(t2, r, c, v) == var(t, r, c, v));
                }
                assert forall|r: int, c: int| #[trigger] thread(k, r, c) implies kept_at(
                    z,
                    n,
                    grid,
                    self.tile,
                    r,
                    c,
                    stores(t2, r, c),
                    at(r, c),
                ) by {
                    assert(kept_below(
                        z,
                        n,
                        grid,
                        self.tile,
                        r,
                        c,
                        stores(t2, r, c),
                        at(r, c),
                    ));
                }
                t2
            } else {
                assert(l.kernel.raw == u.kernel.raw);
                assert forall|r: int, c: int| #[trigger] thread(k, r, c) implies kept_at(
                    z,
                    n,
                    grid,
                    self.tile,
                    r,
                    c,
                    stores(t, r, c),
                    at(r, c),
                ) by {
                    assert(kept_below(
                        z,
                        n,
                        grid,
                        self.tile,
                        r,
                        c,
                        stores(t, r, c),
                        at(r, c),
                    ));
                }
                t
            }
        }
    }

    /// What an operand may load, the node may load.
    pub proof fn lemma_operand_loads(
        self,
        n: NodeId,
        m: NodeId,
        grid: Option<(MetaId, MetaId)>,
        below: Option<(MetaId, MetaId)>,
    )
        requires
            forall|p: ParamId| #[trigger]
                loads(self.scene(), n, grid, p) ==> untouched(self.k.ops, p, self.k.ops.len()),
            self.f.nodes[n as int].op is Custom,
            !(grid is None && self.f.nodes[n as int].op.transform()),
            ({
                let node = self.f.nodes[n as int];
                let lower = node.op->lower;
                &&& m < n
                &&& m == node.inputs@[0] || (m == node.inputs@[1] && (is_joined(lower) || lower
                    == OpName::Matmul))
                &&& below == if lower == OpName::Matmul {
                    None
                } else {
                    grid
                }
            }),
        ensures
            forall|p: ParamId| #[trigger]
                loads(self.scene(), m, below, p) ==> untouched(self.k.ops, p, self.k.ops.len()),
    {
        assert forall|p: ParamId| #[trigger] loads(self.scene(), m, below, p) implies untouched(
            self.k.ops,
            p,
            self.k.ops.len(),
        ) by {
            assert(loads(self.scene(), n, grid, p));
        }
    }

    proof fn lemma_unary_node_runs(
        self,
        n: NodeId,
        out: ValueId,
        kernel: LinkedView,
        resolved: Seq<NodeId>,
        idx: ValueId,
        grid: Option<(MetaId, MetaId)>,
        s: Block,
        at: spec_fn(int, int) -> int,
    ) -> (t: Block)
        requires
            self.may_run(n, out, kernel.raw.values.len(), idx, grid, s, at),
            !self.f.claimed(resolved),
            self.f.nodes[n as int].op is Custom,
            !(grid is None && self.f.nodes[n as int].op.transform()),
            !is_joined(self.f.nodes[n as int].op->lower),
            self.f.nodes[n as int].op->lower != OpName::Matmul,
            ({
                let u = lowering(self.f, None, n, out, kernel, resolved, idx, grid is Some);
                &&& u.nodes is Ok
                &&& self.within(u.kernel.raw)
            }),
        ensures
            ({
                let u = lowering(self.f, None, n, out, kernel, resolved, idx, grid is Some);
                &&& self.carried(
                    kernel.raw.values.len(),
                    kernel.raw.ops.len(),
                    u.kernel.raw.ops.len(),
                    out,
                    grid,
                    s,
                    t,
                    self.values(n, grid, at),
                )
                &&& self.kept_under(n, grid, t, at)
                &&& self.f.nodes[n as int].op->lower == OpName::Gelu ==> self.kept_own(
                    n,
                    grid,
                    t,
                    at,
                )
            }),
        decreases n, 0nat,
    {
        let f = self.f;
        let k = self.k;
        let name = f.nodes[n as int].op->lower;
        let stable = grid is Some;
        let u = lowering(f, None, n, out, kernel, resolved, idx, stable);
        assert(has_operands(f.nodes, n as int));
        assert(u == unary_lowering(name, f, None, n, out, kernel, resolved, idx, stable));
        let a = f.input(n, 0);
        let from = kernel.raw.ops.len();
        let limit = kernel.raw.values.len();
        let (raw, upstream) = kernel.raw.var_f(zero());
        let k1 = LinkedView { raw, ..kernel };
        let x = node_value(f, Operand::Node(a), upstream, k1, resolved, idx, stable);
        assert(x.nodes is Ok);
        lemma_node_grows(f, a, upstream, k1, resolved, idx, grid);
        let q = unary_value(name, x.kernel.raw, out, upstream).0;
        assert(extends(kernel.raw, raw) && raw.values.len() == limit + 1 && raw.ops.len() == from
            + 1 && raw.ops[from as int] == (Op::DefineVar { id: upstream }) && upstream
            == limit as usize && raw.values[limit as int].init == Some(zero()) && !(
        raw.values[limit as int].state is Inline) && !(raw.values[limit as int].state is Masked)
            && extends(x.kernel.raw, q)) by {
            reveal(RawView::def);
            reveal(RawView::emit);
        }
        assert(extends(q, u.kernel.raw) && q.shared == x.kernel.raw.shared && u.kernel.raw.shared
            == q.shared) by {
            reveal(RawView::def);
            reveal(RawView::emit);
        }
        lemma_extends_on(q, u.kernel.raw, k);
        lemma_extends_on(x.kernel.raw, q, k);
        lemma_extends_on(raw, x.kernel.raw, k);
        assert(k.ops[from as int] == raw.ops[from as int]);
        assert(k.values[limit as int] == raw.values[limit as int]);
        let zeros = |r: int, c: int| Item::Real(num(ZERO_BITS));
        let s1 = self.lemma_new(from, upstream, grid, s, zeros);
        assert forall|r: int, c: int| #[trigger] thread(k, r, c) implies var(s1, r, c, idx)
            == Item::Int(at(r, c)) by {
            assert(var(s1, r, c, idx) == var(s, r, c, idx));
        }
        if stable {
            self.lemma_holds_on(s, s1, limit, upstream, out);
        }
        self.lemma_operand_loads(n, a, grid, grid);
        let s2 = self.lemma_node_runs(a, upstream, k1, resolved, idx, grid, s1, at);
        let e = self.values(a, grid, at);
        let s3 = lemma_unary_runs(name, x.kernel.raw, out, upstream, k, self.w, s2, e);
        lemma_advance_on(k, self.w, from, from + 1, x.kernel.raw.ops.len(), s, s1, s2);
        lemma_advance_on(k, self.w, from, x.kernel.raw.ops.len(), q.ops.len(), s, s2, s3);
        lemma_stored_on(k, s, s1, s2, self.good());
        lemma_stored_same(k, s2, s3, self.good());
        lemma_stored_on(k, s, s2, s3, self.good());
        assert forall|r: int, c: int, v: ValueId|
            thread(k, r, c) && v < limit && v != out implies #[trigger] var(s3, r, c, v) == var(
            s,
            r,
            c,
            v,
        ) by {
            assert(var(s3, r, c, v) == var(s2, r, c, v));
            assert(var(s2, r, c, v) == var(s1, r, c, v));
            assert(var(s1, r, c, v) == var(s, r, c, v));
        }
        self.lemma_kept_on(a, grid, s2, s3, at);
        assert(self.kept_under(n, grid, s3, at));
        assert forall|r: int, c: int| #[trigger] thread(k, r, c) implies var(s3, r, c, out)
            == Item::Real(self.values(n, grid, at)(r, c)) by {}
        if name == OpName::Gelu {
            let z = self.scene();
            let save = unary_value(name, x.kernel.raw, out, upstream).1;
            assert(f.saved_params[n as int] is Some);
            let param = f.saved_params[n as int]->0;
            let to = q.ops.len();
            assert(u.kernel.raw.ops.len() == to + 1 && k.ops[to as int] == (Op::ParamStore {
                param,
                index: idx,
                value: save,
            })) by {
                reveal(RawView::emit);
                assert(k.ops[to as int] == u.kernel.raw.ops[to as int]);
            }
            assert forall|r: int, c: int| #[trigger] thread(k, r, c) implies item(
                k,
                self.w,
                s3,
                r,
                c,
                idx,
            ) == Item::Int(at(r, c)) && item(k, self.w, s3, r, c, save) == Item::Real(
                saved_at(z, n, grid, at(r, c)),
            ) by {
                assert(var(s3, r, c, idx) == var(s, r, c, idx));
                assert(item(k, self.w, s3, r, c, idx) == var(s3, r, c, idx));
            }
            let s4 = self.lemma_save(n, to, idx, save, grid, s3, at);
            lemma_advance_on(k, self.w, from, to, to + 1, s, s3, s4);
            lemma_stored_on(k, s, s3, s4, self.good());
            self.lemma_kept_on(n, grid, s3, s4, at);
            assert forall|r: int, c: int, v: ValueId|
                thread(k, r, c) && v < limit && v != out implies #[trigger] var(s4, r, c, v) == var(
                s,
                r,
                c,
                v,
            ) by {
                assert(var(s4, r, c, v) == var(s3, r, c, v));
            }
            s4
        } else {
            s3
        }
    }

    /// A block that has set a new variable still holds the values of the scope.
    pub proof fn lemma_holds_on(self, s: Block, t: Block, limit: nat, id: ValueId, out: ValueId)
        requires
            self.holds(s),
            self.settled(limit, out),
            framed_by(self.k, s, t, limit, id),
            id >= limit || id == out,
        ensures
            self.holds(t),
    {
        assert forall|r: int, c: int| #[trigger] thread(self.k, r, c) implies {
            &&& var(t, r, c, self.f.local_row) == Item::Int(r)
            &&& var(t, r, c, self.f.local_col) == Item::Int(c)
            &&& var(t, r, c, self.f.tile_size) == Item::Int(self.tile as int)
            &&& var(t, r, c, self.f.base) == Item::Int(0)
        } by {
            assert(var(t, r, c, self.f.local_row) == var(s, r, c, self.f.local_row));
        }
    }

    proof fn lemma_binary_runs(
        self,
        n: NodeId,
        out: ValueId,
        kernel: LinkedView,
        resolved: Seq<NodeId>,
        idx: ValueId,
        grid: Option<(MetaId, MetaId)>,
        s: Block,
        at: spec_fn(int, int) -> int,
    ) -> (t: Block)
        requires
            self.may_run(n, out, kernel.raw.values.len(), idx, grid, s, at),
            !self.f.claimed(resolved),
            self.f.nodes[n as int].op is Custom,
            !(grid is None && self.f.nodes[n as int].op.transform()),
            is_joined(self.f.nodes[n as int].op->lower),
            ({
                let u = lowering(self.f, None, n, out, kernel, resolved, idx, grid is Some);
                &&& u.nodes is Ok
                &&& self.within(u.kernel.raw)
            }),
        ensures
            ({
                let u = lowering(self.f, None, n, out, kernel, resolved, idx, grid is Some);
                &&& self.carried(
                    kernel.raw.values.len(),
                    kernel.raw.ops.len(),
                    u.kernel.raw.ops.len(),
                    out,
                    grid,
                    s,
                    t,
                    self.values(n, grid, at),
                )
                &&& self.kept_under(n, grid, t, at)
            }),
        decreases n, 0nat,
    {
        let f = self.f;
        let k = self.k;
        let name = f.nodes[n as int].op->lower;
        let stable = grid is Some;
        let u = lowering(f, None, n, out, kernel, resolved, idx, stable);
        assert(has_operands(f.nodes, n as int));
        assert(u == binary_lowering(name, f, None, n, out, kernel, resolved, idx, stable));
        assert(u == binary_value(name, f, n, out, kernel, resolved, idx, stable));
        let a = f.input(n, 0);
        let b = f.input(n, 1);
        let from = kernel.raw.ops.len();
        let limit = kernel.raw.values.len();
        let (k1, a_val) = kernel.def(DType::Float, ValueState::Mut, None);
        let x = node_value(f, Operand::Node(a), a_val, k1, resolved, idx, stable);
        assert(x.nodes is Ok);
        lemma_node_grows(f, a, a_val, k1, resolved, idx, grid);
        let (k2, b_val) = x.kernel.def(DType::Float, ValueState::Mut, None);
        let y = node_value(f, Operand::Node(b), b_val, k2, x.resolved, idx, stable);
        assert(y.nodes is Ok);
        lemma_node_grows(f, b, b_val, k2, x.resolved, idx, grid);
        let join = combined(name, a_val, b_val);
        let p1 = x.kernel.raw.ops.len();
        let v1 = x.kernel.raw.values.len();
        let p2 = y.kernel.raw.ops.len();
        assert(k1.raw.values.len() == limit + 1 && k1.raw.ops.len() == from + 1
            && k1.raw.ops[from as int] == (Op::DefineVar { id: a_val }) && a_val == limit as usize
            && k1.raw.values[limit as int].init is None && k1.raw.values[limit as int].state is Mut
            && k2.raw.values.len() == v1 + 1 && k2.raw.ops.len() == p1 + 1
            && k2.raw.ops[p1 as int] == (Op::DefineVar { id: b_val }) && b_val == v1 as usize
            && k2.raw.values[v1 as int].init is None && k2.raw.values[v1 as int].state is Mut
            && extends(x.kernel.raw, k2.raw) && k1.raw.shared == kernel.raw.shared && k2.raw.shared
            == x.kernel.raw.shared) by {
            reveal(RawView::def);
        }
        assert(extends(y.kernel.raw, u.kernel.raw) && u.kernel.raw.shared == y.kernel.raw.shared
            && u.kernel.raw.ops.len() == p2 + 1 && u.kernel.raw.ops[p2 as int]
            == (Op::OverwriteVar { id: out, val: Box::new(join) })) by {
            reveal(RawView::emit);
        }
        lemma_extends_on(y.kernel.raw, u.kernel.raw, k);
        lemma_extends_on(k2.raw, y.kernel.raw, k);
        lemma_extends_on(x.kernel.raw, k2.raw, k);
        lemma_extends_on(k1.raw, x.kernel.raw, k);
        assert(k.ops[from as int] == k1.raw.ops[from as int]);
        assert(k.ops[p1 as int] == k2.raw.ops[p1 as int]);
        assert(k.ops[p2 as int] == u.kernel.raw.ops[p2 as int]);
        assert(k.values[limit as int] == k1.raw.values[limit as int]);
        assert(k.values[v1 as int] == k2.raw.values[v1 as int]);
        let unset = |r: int, c: int| Item::Unset;
        let s1 = self.lemma_new(from, a_val, grid, s, unset);
        assert forall|r: int, c: int| #[trigger] thread(k, r, c) implies var(s1, r, c, idx)
            == Item::Int(at(r, c)) by {
            assert(var(s1, r, c, idx) == var(s, r, c, idx));
        }
        if stable {
            self.lemma_holds_on(s, s1, limit, a_val, out);
        }
        self.lemma_operand_loads(n, a, grid, grid);
        self.lemma_operand_loads(n, b, grid, grid);
        let s2 = self.lemma_node_runs(a, a_val, k1, resolved, idx, grid, s1, at);
        let s3 = self.lemma_new(p1, b_val, grid, s2, unset);
        assert forall|r: int, c: int| #[trigger] thread(k, r, c) implies var(s3, r, c, idx)
            == Item::Int(at(r, c)) by {
            assert(var(s3, r, c, idx) == var(s2, r, c, idx));
            assert(var(s2, r, c, idx) == var(s1, r, c, idx));
        }
        if stable {
            assert(framed_by(k, s, s3, limit, a_val)) by {
                assert forall|r: int, c: int, v: ValueId|
                    thread(k, r, c) && v < limit && v != a_val implies #[trigger] var(s3, r, c, v)
                    == var(s, r, c, v) by {
                    assert(var(s3, r, c, v) == var(s2, r, c, v));
                    assert(var(s2, r, c, v) == var(s1, r, c, v));
                }
            }
            self.lemma_holds_on(s, s3, limit, a_val, out);
        }
        let s4 = self.lemma_node_runs(b, b_val, k2, x.resolved, idx, grid, s3, at);
        let e = self.values(n, grid, at);
        let ea = self.values(a, grid, at);
        let eb = self.values(b, grid, at);
        assert forall|r: int, c: int| #[trigger] thread(k, r, c) implies result(
            k,
            self.w,
            s4,
            r,
            c,
            join,
            any(),
        ) == Item::Real(e(r, c)) by {
            assert(var(s4, r, c, b_val) == Item::Real(eb(r, c)));
            assert(var(s4, r, c, a_val) == var(s3, r, c, a_val));
            assert(var(s3, r, c, a_val) == var(s2, r, c, a_val));
            assert(var(s2, r, c, a_val) == Item::Real(ea(r, c)));
            assert(item(k, self.w, s4, r, c, a_val) == var(s4, r, c, a_val));
            assert(item(k, self.w, s4, r, c, b_val) == var(s4, r, c, b_val));
        }
        let s5 = self.lemma_put(p2, out, limit, join, grid, s4, e);
        lemma_advance_on(k, self.w, from, from + 1, p1, s, s1, s2);
        lemma_advance_on(k, self.w, from, p1, p1 + 1, s, s2, s3);
        lemma_advance_on(k, self.w, from, p1 + 1, p2, s, s3, s4);
        lemma_advance_on(k, self.w, from, p2, p2 + 1, s, s4, s5);
        lemma_stored_on(k, s, s1, s2, self.good());
        lemma_stored_on(k, s, s2, s3, self.good());
        lemma_stored_on(k, s, s3, s4, self.good());
        lemma_stored_on(k, s, s4, s5, self.good());
        assert forall|r: int, c: int, v: ValueId|
            thread(k, r, c) && v < limit && v != out implies #[trigger] var(s5, r, c, v) == var(
            s,
            r,
            c,
            v,
        ) by {
            assert(var(s5, r, c, v) == var(s4, r, c, v));
            assert(var(s4, r, c, v) == var(s3, r, c, v));
            assert(var(s3, r, c, v) == var(s2, r, c, v));
            assert(var(s2, r, c, v) == var(s1, r, c, v));
            assert(var(s1, r, c, v) == var(s, r, c, v));
        }
        self.lemma_kept_on(a, grid, s2, s3, at);
        self.lemma_kept_on(a, grid, s3, s4, at);
        self.lemma_kept_on(a, grid, s4, s5, at);
        self.lemma_kept_on(b, grid, s4, s5, at);
        assert(self.kept_under(n, grid, s5, at)) by {
            assert forall|r: int, c: int| #[trigger] thread(k, r, c) implies kept_below(
                self.scene(),
                n,
                grid,
                self.tile,
                r,
                c,
                stores(s5, r, c),
                at(r, c),
            ) by {
                assert(kept_at(
                    self.scene(),
                    a,
                    grid,
                    self.tile,
                    r,
                    c,
                    stores(s5, r, c),
                    at(r, c),
                ));
            }
        }
        s5
    }
}

} // verus!
