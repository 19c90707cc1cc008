//! What the code of the gradient of an operand of a product computes when a block runs it.

use vstd::prelude::*;

use crate::dispatch::backend::kernel::backward::{grad_loaded, node_grad};
use crate::dispatch::backend::kernel::frame::{has_operands, Operand, Scope};
use crate::dispatch::backend::kernel::raw::{LinkedView, RawView};
use crate::dispatch::backend::meaning::descent::{
    drawn, gradient_setting, lemma_gradient_product, multiplies, span_of, terms_at, through_at,
};
use crate::dispatch::backend::meaning::emitted::{
    code_of, grows, lemma_code_extends, lemma_extends_on, lemma_first_stage, lemma_product_code,
    lemma_second_stage, lemma_stages_grow, stages, Known,
};
use crate::dispatch::backend::meaning::fused::{size, Stage};
use crate::dispatch::backend::meaning::parts::hold;
use crate::dispatch::backend::meaning::product::{
    framed_by, lemma_stored_on, lemma_stored_same, stored_on, unsigned, zero, Code, Factor, Size,
};
use crate::dispatch::backend::meaning::sums::{lemma_block_start, lemma_cell_parts};
use crate::dispatch::backend::meaning::tiles::{
    advances, item, lemma_advance_on, lemma_assign, quiet, result, stores, sum, thread, var, Block,
    Item, Write,
};
use crate::dispatch::backend::meaning::{any, load, num, plus, untouched, Expr};
use crate::dispatch::backend::std_lib::lowering;
use crate::dispatch::backend::std_lib::matmul::{factor_value, product_fields, Extent, Terms};
use crate::dispatch::backend::wgsl::source::inlined;
use crate::dispatch::backend::{Axis, MetaId, NodeId, Op, OpName, ParamId, ValueId, ValueState};
use crate::scalar::ZERO_BITS;

verus! {

impl Stage {
    /// The code of the gradient of an operand of a product adds it to a variable.
    #[verifier::rlimit(80)]
    #[verifier::spinoff_prover]
    pub proof fn lemma_terms_run(
        self,
        user: NodeId,
        edge: u8,
        out: ValueId,
        kernel: LinkedView,
        resolved: Seq<NodeId>,
        idx: ValueId,
        grid: (MetaId, MetaId),
        s: Block,
        at: spec_fn(int, int) -> int,
        o: spec_fn(int, int) -> Expr,
        param: ParamId,
    ) -> (t: Block)
        requires
            self.f.placed(Operand::Node(user)),
            self.laid(grid, at),
            self.steady(kernel.raw.values.len(), out, idx, s, at),
            self.spares(user, param),
            self.f.node_params[user as int] != Some(param),
            hold(self.k, s, out, o),
            self.f.nodes[user as int].op is Custom,
            self.f.nodes[user as int].op->lower == OpName::Matmul,
            multiplies(self.f.nodes, user, edge, grid),
            size(self.w, self.tile, (grid.0, grid.1, span_of(self.f.nodes, user, edge))).fits(),
            ({
                let l = lowering(self.f, Some(edge), user, out, kernel, resolved, idx, true);
                &&& l.nodes is Ok
                &&& self.within(l.kernel.raw)
            }),
        ensures
            self.carried(
                kernel.raw.values.len(),
                kernel.raw.ops.len(),
                lowering(
                    self.f,
                    Some(edge),
                    user,
                    out,
                    kernel,
                    resolved,
                    idx,
                    true,
                ).kernel.raw.ops.len(),
                out,
                Some(grid),
                s,
                t,
                |r: int, c: int| through_at(self.scene(), user, edge, o(r, c), grid, at(r, c)),
            ),
        decreases self.f.nodes.len() - user, 2nat, 0int,
    {
        let f = self.f;
        let k = self.k;
        let w = self.w;
        let z = self.scene();
        let l = lowering(f, Some(edge), user, out, kernel, resolved, idx, true);
        assert(has_operands(f.nodes, user as int));
        lemma_gradient_product(f, user, edge, out, kernel, resolved, idx, grid);
        let from = kernel.raw.ops.len();
        let limit = kernel.raw.values.len();
        let (e, terms, k4) = gradient_setting(f, user, edge, kernel);
        lemma_stages_grow(f, true, e, terms, out, k4, resolved);
        let st = stages(f, true, e, terms, k4, resolved);
        let ins = f.nodes[user as int].inputs@;
        let other = f.saved_params[ins[1 - edge] as int]->0;
        let up = drawn(z, user);
        let a_param = if edge == 0 {
            up
        } else {
            other
        };
        let b_param = if edge == 0 {
            other
        } else {
            up
        };
        assert(up != param && other != param) by {
            assert(ins[1 - edge] < user);
            assert(f.saved_params[ins[1 - edge] as int] != Some(param));
            if f.nodes[user as int].outputs@.len() > 0 {
                self.lemma_loaded(
                    f,
                    user,
                    st.a_val,
                    st.b_val,
                    st.ka,
                    st.kb,
                    resolved,
                    st.a_idx,
                    st.b_idx,
                    terms,
                    edge,
                );
            }
        }
        assert(untouched(k.ops, a_param, k.ops.len()) && untouched(k.ops, b_param, k.ops.len()));
        let known = Known {
            a_element: loaded_from(a_param),
            b_element: loaded_from(b_param),
            a_kept: |done: Seq<Write>, x: int| true,
            b_kept: |done: Seq<Write>, x: int| true,
            good: self.good(),
        };
        let c = code_of(f, e, terms, out, k4, st, known);
        assert(grows(st.ka.raw, st.a.kernel.raw) && grows(st.kb.raw, st.b.kernel.raw)
            && st.a.kernel.raw.values == st.ka.raw.values && st.b.kernel.raw.values
            == st.kb.raw.values && st.a.kernel.raw.ops.len() == st.ka.raw.ops.len() + 1
            && st.b.kernel.raw.ops.len() == st.kb.raw.ops.len() + 1
            && st.a.kernel.raw.ops[st.ka.raw.ops.len() as int] == (Op::AddAssign {
            id: st.a_val,
            val: Box::new(Op::ParamLoad { param: a_param, index: st.a_idx }),
        }) && st.b.kernel.raw.ops[st.kb.raw.ops.len() as int] == (Op::AddAssign {
            id: st.b_val,
            val: Box::new(Op::ParamLoad { param: b_param, index: st.b_idx }),
        })) by {
            reveal(RawView::emit);
        }
        self.lemma_bounds(
            k4.raw,
            st.ka.raw,
            st.a.kernel.raw,
            st.kb.raw,
            st.b.kernel.raw,
            l.kernel.raw,
        );
        lemma_first_stage(f, true, e, terms, out, k4, resolved, known);
        lemma_second_stage(f, true, e, terms, out, k4, resolved, known);
        lemma_product_code(f, true, e, terms, out, k4, resolved, known);
        assert(k4.raw.values.len() == limit + 5) by {
            reveal(RawView::def);
        }
        let s5 = self.lemma_terms_begin(user, edge, out, kernel, idx, grid, s, at, o, l.kernel.raw);
        lemma_code_extends(c, l.kernel.raw, k);
        assert(k.ops[c.mid_op as int] == l.kernel.raw.ops[c.mid_op as int]);
        assert(k.ops[c.late_op as int] == l.kernel.raw.ops[c.late_op as int]);
        assert(k.ops[(c.late_op + 1) as int] == l.kernel.raw.ops[(c.late_op + 1) as int]);
        assert(c.written(k));
        lemma_extends_on(st.b.kernel.raw, l.kernel.raw, k);
        lemma_extends_on(st.a.kernel.raw, l.kernel.raw, k);
        lemma_extends_on(st.ka.raw, l.kernel.raw, k);
        lemma_extends_on(st.kb.raw, l.kernel.raw, k);
        assert(k.ops[st.ka.raw.ops.len() as int] == st.a.kernel.raw.ops[st.ka.raw.ops.len() as int]);
        assert(k.ops[st.kb.raw.ops.len() as int] == st.b.kernel.raw.ops[st.kb.raw.ops.len() as int]);
        assert(!inlined(k.values[st.a_idx as int]) && !inlined(k.values[st.b_idx as int]));
        self.lemma_load_serves(c.a_factor(), a_param, st.ka.raw.values.len());
        self.lemma_load_serves(c.b_factor(), b_param, st.kb.raw.values.len());
        let sz = size(w, self.tile, (grid.0, grid.1, span_of(f.nodes, user, edge)));
        assert(c.grounded(k, s5, sz));
        assert(c.reached(k, s5, sz, o, 0));
        let t = c.lemma_product(k, w, s5, sz, o);
        self.lemma_then(
            limit,
            out,
            grid,
            from,
            k4.raw.ops.len(),
            l.kernel.raw.ops.len(),
            s,
            s5,
            t,
            k4.raw.values.len(),
            out,
        );
        let last = |r: int, d: int| through_at(z, user, edge, o(r, d), grid, at(r, d));
        assert forall|r: int, d: int| #[trigger] thread(k, r, d) implies var(t, r, d, out)
            == Item::Real(last(r, d)) by {
            lemma_block_start(w.row, self.tile as int);
            lemma_block_start(w.col, self.tile as int);
            lemma_cell_parts(sz.row + r, sz.col + d, sz.n);
            self.lemma_terms_folded(
                user,
                edge,
                c,
                sz,
                grid,
                o(r, d),
                sz.row + r,
                sz.col + d,
                at(r, d),
                sz.k as nat,
            );
        }
        t
    }

    /// The gradient of a product that something takes lies in a parameter.
    proof fn lemma_loaded(
        self,
        f: Scope,
        user: NodeId,
        a_val: ValueId,
        b_val: ValueId,
        ka: LinkedView,
        kb: LinkedView,
        resolved: Seq<NodeId>,
        a_idx: ValueId,
        b_idx: ValueId,
        terms: Terms,
        edge: u8,
    )
        requires
            f.placed(Operand::Node(user)),
            f.nodes[user as int].outputs@.len() > 0,
            f.nodes[user as int].op.transform(),
            if edge == 0 {
                &&& terms.a == Operand::Node(user)
                &&& factor_value(f, true, terms.a, a_val, ka, resolved, a_idx).nodes is Ok
            } else {
                &&& terms.b == Operand::Node(user)
                &&& exists|x: Seq<NodeId>|
                    (#[trigger] factor_value(f, true, terms.b, b_val, kb, x, b_idx)).nodes is Ok
            },
        ensures
            f.node_params[user as int] is Some,
    {
        assert forall|x: Seq<NodeId>, v: ValueId, kk: LinkedView, i: ValueId|
            (#[trigger] factor_value(f, true, Operand::Node(user), v, kk, x, i)).nodes
                is Ok implies f.node_params[user as int] is Some by {
            assert(factor_value(f, true, Operand::Node(user), v, kk, x, i) == node_grad(
                f,
                Operand::Node(user),
                v,
                kk,
                x,
                i,
                false,
            ));
            assert(grad_loaded(f, user, x, false));
        }
    }

    /// The block after what the gradient of an operand of a product begins with.
    proof fn lemma_terms_begin(
        self,
        user: NodeId,
        edge: u8,
        out: ValueId,
        kernel: LinkedView,
        idx: ValueId,
        grid: (MetaId, MetaId),
        s: Block,
        at: spec_fn(int, int) -> int,
        o: spec_fn(int, int) -> Expr,
        u: RawView,
    ) -> (t: Block)
        requires
            self.laid(grid, at),
            self.steady(kernel.raw.values.len(), out, idx, s, at),
            hold(self.k, s, out, o),
            multiplies(self.f.nodes, user, edge, grid),
            kernel.raw.values.len() + 5 <= usize::MAX,
            self.within(u),
            grows(gradient_setting(self.f, user, edge, kernel).2.raw, u),
        ensures
            ({
                let (e, terms, k4) = gradient_setting(self.f, user, edge, kernel);
                let span = span_of(self.f.nodes, user, edge);
                let v = kernel.raw.values.len();
                &&& e == (Extent {
                    row: v as usize,
                    col: (v + 1) as usize,
                    m: (v + 2) as usize,
                    n: (v + 3) as usize,
                    k: (v + 4) as usize,
                })
                &&& k4.raw.values.len() == v + 5
                &&& !inlined(self.k.values[v as int])
                &&& !inlined(self.k.values[(v + 1) as int])
                &&& !inlined(self.k.values[(v + 2) as int])
                &&& !inlined(self.k.values[(v + 3) as int])
                &&& !inlined(self.k.values[(v + 4) as int])
                &&& advances(self.k, self.w, kernel.raw.ops.len(), k4.raw.ops.len(), s, t)
                &&& !t.stuck
                &&& quiet(self.k, t)
                &&& t.tiles == s.tiles
                &&& framed_by(self.k, s, t, kernel.raw.values.len(), out)
                &&& stored_on(self.k, s, t, self.good())
                &&& self.holds(t)
                &&& hold(self.k, t, out, o)
                &&& forall|r: int, c: int| #[trigger]
                    thread(self.k, r, c) ==> {
                        &&& var(t, r, c, e.row) == Item::Int(self.w.row * self.tile + r)
                        &&& var(t, r, c, e.col) == Item::Int(self.w.col * self.tile + c)
                        &&& var(t, r, c, e.m) == Item::Int(self.w.fields[grid.0 as int] as int)
                        &&& var(t, r, c, e.n) == Item::Int(self.w.fields[grid.1 as int] as int)
                        &&& var(t, r, c, e.k) == Item::Int(self.w.fields[span as int] as int)
                    }
            }),
    {
        let k = self.k;
        let w = self.w;
        let (e, terms, k4) = gradient_setting(self.f, user, edge, kernel);
        let v = kernel.raw.values.len();
        let p = kernel.raw.ops.len();
        let span = span_of(self.f.nodes, user, edge);
        let q = k4.raw;
        assert(product_fields(self.f, Some(edge), user) == (grid.0, grid.1, span));
        assert({
            &&& e == (Extent {
                row: v as usize,
                col: (v + 1) as usize,
                m: (v + 2) as usize,
                n: (v + 3) as usize,
                k: (v + 4) as usize,
            })
            &&& q.values.len() == v + 5
            &&& q.ops.len() == p + 5
            &&& q.values[v as int] == unsigned(ValueState::Immut, Op::GlobalId { axis: Axis::Y })
            &&& q.values[(v + 1) as int] == unsigned(ValueState::Immut, Op::GlobalId { axis: Axis::X })
            &&& q.values[(v + 2) as int] == unsigned(
                ValueState::Immut,
                Op::ReadMeta { param: 0, field: grid.0 },
            )
            &&& q.values[(v + 3) as int] == unsigned(
                ValueState::Immut,
                Op::ReadMeta { param: 0, field: grid.1 },
            )
            &&& q.values[(v + 4) as int] == unsigned(
                ValueState::Immut,
                Op::ReadMeta { param: 0, field: span },
            )
            &&& q.ops[p as int] == (Op::DefineVar { id: v as usize })
            &&& q.ops[(p + 1) as int] == (Op::DefineVar { id: (v + 1) as usize })
            &&& q.ops[(p + 2) as int] == (Op::DefineVar { id: (v + 2) as usize })
            &&& q.ops[(p + 3) as int] == (Op::DefineVar { id: (v + 3) as usize })
            &&& q.ops[(p + 4) as int] == (Op::DefineVar { id: (v + 4) as usize })
        }) by {
            reveal(RawView::def);
        }
        lemma_extends_on(k4.raw, u, k);
        assert forall|i: int| 0 <= i < 5 implies #[trigger] k.values[v + i] == q.values[v + i] by {}
        assert forall|i: int| 0 <= i < 5 implies #[trigger] k.ops[p + i] == q.ops[p + i] by {}
        assert(k.values[v as int] == q.values[v as int]);
        assert(k.ops[p as int] == q.ops[p as int]);
        lemma_block_start(w.row, self.tile as int);
        lemma_block_start(w.col, self.tile as int);
        let row = |r: int, c: int| Item::Int(w.row * self.tile + r);
        let col = |r: int, c: int| Item::Int(w.col * self.tile + c);
        let m = |r: int, c: int| Item::Int(w.fields[grid.0 as int] as int);
        let nn = |r: int, c: int| Item::Int(w.fields[grid.1 as int] as int);
        let kk = |r: int, c: int| Item::Int(w.fields[span as int] as int);
        let s1 = self.lemma_new(p, e.row, Some(grid), s, row);
        let s2 = self.lemma_new(p + 1, e.col, Some(grid), s1, col);
        let s3 = self.lemma_new(p + 2, e.m, Some(grid), s2, m);
        let s4 = self.lemma_new(p + 3, e.n, Some(grid), s3, nn);
        let s5 = self.lemma_new(p + 4, e.k, Some(grid), s4, kk);
        lemma_advance_on(k, w, p, p + 1, p + 2, s, s1, s2);
        lemma_advance_on(k, w, p, p + 2, p + 3, s, s2, s3);
        lemma_advance_on(k, w, p, p + 3, p + 4, s, s3, s4);
        lemma_advance_on(k, w, p, p + 4, p + 5, s, s4, s5);
        lemma_stored_on(k, s, s1, s2, self.good());
        lemma_stored_on(k, s, s2, s3, self.good());
        lemma_stored_on(k, s, s3, s4, self.good());
        lemma_stored_on(k, s, s4, s5, self.good());
        assert forall|r: int, c: int, i: ValueId| thread(k, r, c) && i < v implies #[trigger] var(
            s5,
            r,
            c,
            i,
        ) == var(s, r, c, i) by {
            assert(var(s5, r, c, i) == var(s4, r, c, i));
            assert(var(s4, r, c, i) == var(s3, r, c, i));
            assert(var(s3, r, c, i) == var(s2, r, c, i));
            assert(var(s2, r, c, i) == var(s1, r, c, i));
        }
        self.lemma_holds_on(s, s5, v, out, out);
        assert forall|r: int, c: int| #[trigger] thread(k, r, c) implies {
            &&& var(s5, r, c, e.row) == row(r, c)
            &&& var(s5, r, c, e.col) == col(r, c)
            &&& var(s5, r, c, e.m) == m(r, c)
            &&& var(s5, r, c, e.n) == nn(r, c)
            &&& var(s5, r, c, e.k) == kk(r, c)
            &&& var(s5, r, c, out) == Item::Real(o(r, c))
        } by {
            assert(var(s5, r, c, e.row) == var(s1, r, c, e.row));
            assert(var(s5, r, c, e.col) == var(s2, r, c, e.col));
            assert(var(s5, r, c, e.m) == var(s3, r, c, e.m));
            assert(var(s5, r, c, e.n) == var(s4, r, c, e.n));
            assert(var(s5, r, c, out) == var(s, r, c, out));
        }
        s5
    }

    /// A factor that is one load is evaluated.
    proof fn lemma_load_serves(self, fa: Factor, param: ParamId, limit: nat)
        requires
            self.k.ops[fa.from as int] == (Op::AddAssign {
                id: fa.out,
                val: Box::new(Op::ParamLoad { param, index: fa.index }),
            }),
            fa.to == fa.from + 1,
            fa.element == loaded_from(param),
            fa.kept == (|done: Seq<Write>, x: int| true),
            untouched(self.k.ops, param, self.k.ops.len()),
            !inlined(self.k.values[fa.index as int]),
        ensures
            fa.serves(self.k, self.w, limit, self.good()),
    {
        let k = self.k;
        let op = Op::ParamLoad { param, index: fa.index };
        assert forall|s: Block| #[trigger] fa.ready(k, s) implies exists|t: Block| #[trigger]
            fa.served(k, self.w, limit, self.good(), s, t) by {
            let v = |r: int, c: int|
                match var(s, r, c, fa.index) {
                    Item::Int(x) => Item::Real((fa.element)(x)),
                    _ => Item::Unset,
                };
            assert forall|r: int, c: int| #[trigger] thread(k, r, c) implies sum(
                var(s, r, c, fa.out),
                result(k, self.w, s, r, c, op, any()),
            ) == v(r, c) by {
                assert(item(k, self.w, s, r, c, fa.index) == var(s, r, c, fa.index));
            }
            let t = lemma_assign(k, self.w, s, fa.from, fa.out, op, v);
            assert forall|r: int, c: int| #[trigger] thread(k, r, c) implies stores(t, r, c)
                == stores(s, r, c) by {}
            lemma_stored_same(k, s, t, self.good());
            assert forall|r: int, c: int| #[trigger] thread(k, r, c) implies (var(
                s,
                r,
                c,
                fa.index,
            ) matches Item::Int(x) && var(t, r, c, fa.out) == Item::Real((fa.element)(x))) by {
                assert(var(t, r, c, fa.out) == v(r, c));
            }
            assert(fa.served(k, self.w, limit, self.good(), s, t));
        }
    }

    /// The terms that are added up are those of the gradient.
    proof fn lemma_terms_folded(
        self,
        user: NodeId,
        edge: u8,
        c: Code,
        sz: Size,
        grid: (MetaId, MetaId),
        o: Expr,
        row: int,
        col: int,
        x: int,
        count: nat,
    )
        requires
            sz == size(self.w, self.tile, (grid.0, grid.1, span_of(self.f.nodes, user, edge))),
            x / sz.n == row,
            x % sz.n == col,
            edge <= 1,
            ({
                let z = self.scene();
                let other = z.saved[z.nodes[user as int].inputs@[1 - edge] as int]->0;
                if edge == 0 {
                    &&& c.a_element == loaded_from(drawn(z, user))
                    &&& c.b_element == loaded_from(other)
                    &&& !c.swap_a && c.swap_b
                } else {
                    &&& c.a_element == loaded_from(other)
                    &&& c.b_element == loaded_from(drawn(z, user))
                    &&& c.swap_a && !c.swap_b
                }
            }),
        ensures
            c.folded(sz, o, row, col, count) == terms_at(
                self.scene(),
                user,
                edge,
                o,
                grid,
                x,
                count,
            ),
        decreases count,
    {
        if count > 0 {
            self.lemma_terms_folded(
                user,
                edge,
                c,
                sz,
                grid,
                o,
                row,
                col,
                x,
                (count - 1) as nat,
            );
        }
    }
}

/// The elements of a matrix that lies in a parameter, each added to zero.
pub open spec fn loaded_from(param: ParamId) -> spec_fn(int) -> Expr {
    |x: int| plus(num(ZERO_BITS), load(param, num(x as u32)))
}

} // verus!
