//! What the code of a product computes when a block runs it, in a forward pass.

use vstd::prelude::*;

use crate::dispatch::backend::kernel::forward::node_value;
use crate::dispatch::backend::kernel::frame::{has_operands, Operand};
use crate::dispatch::backend::kernel::raw::{LinkedView, RawView};
use crate::dispatch::backend::meaning::emitted::{
    code_of, grows, lemma_code_extends, lemma_extends_on, lemma_first_stage, lemma_product_code,
    lemma_second_stage, lemma_stages_grow, stages, Known,
};
use crate::dispatch::backend::meaning::fused::{
    fields_of, fusible, kept_at, kept_below, lemma_kept_flat, lemma_kept_lasts, lemma_node_grows,
    loads, product_at, product_setting, size, value_at, Stage,
};
use crate::dispatch::backend::meaning::parts::hold;
use crate::dispatch::backend::meaning::product::{
    a_place, b_place, framed_by, goes_on, lasting, lemma_stored_on, stored_on, unsigned, zero, Code,
    Factor, Size,
};
use crate::dispatch::backend::meaning::tiles::{
    advances, lemma_advance_on, quiet, stores, thread, var, Block, Item, Write,
};
use crate::dispatch::backend::meaning::{extends, num, untouched};
use crate::dispatch::backend::std_lib::lowering;
use crate::dispatch::backend::std_lib::matmul::{matmul_lowering, product, product_fields, Extent};
use crate::dispatch::backend::wgsl::source::inlined;
use crate::dispatch::backend::{Axis, MetaId, NodeId, Op, OpName, ParamId, ValueId, ValueState};
use crate::scalar::ZERO_BITS;

verus! {

impl Stage {
    #[verifier::rlimit(60)]
    #[verifier::spinoff_prover]
    pub proof fn lemma_product_runs(
        self,
        n: NodeId,
        out: ValueId,
        kernel: LinkedView,
        resolved: Seq<NodeId>,
        idx: ValueId,
        grid: (MetaId, MetaId),
        s: Block,
        at: spec_fn(int, int) -> int,
    ) -> (t: Block)
        requires
            self.may_run(n, out, kernel.raw.values.len(), idx, Some(grid), s, at),
            !self.f.claimed(resolved),
            self.f.nodes[n as int].op is Custom,
            self.f.nodes[n as int].op->lower == OpName::Matmul,
            ({
                let u = lowering(self.f, None, n, out, kernel, resolved, idx, true);
                &&& u.nodes is Ok
                &&& self.within(u.kernel.raw)
            }),
        ensures
            ({
                let u = lowering(self.f, None, n, out, kernel, resolved, idx, true);
                &&& self.carried(
                    kernel.raw.values.len(),
                    kernel.raw.ops.len(),
                    u.kernel.raw.ops.len(),
                    out,
                    Some(grid),
                    s,
                    t,
                    self.values(n, Some(grid), at),
                )
                &&& self.kept_under(n, Some(grid), t, at)
            }),
        decreases n, 0nat,
    {
        let f = self.f;
        let k = self.k;
        let w = self.w;
        let u = lowering(f, None, n, out, kernel, resolved, idx, true);
        assert(has_operands(f.nodes, n as int));
        let a = f.input(n, 0);
        let b = f.input(n, 1);
        let from = kernel.raw.ops.len();
        let limit = kernel.raw.values.len();
        let (e, terms, k4) = product_setting(f, n, out, kernel);
        assert(u == product(f, false, e, terms, out, k4, resolved)) by {
            assert(u == matmul_lowering(f, None, n, out, kernel, resolved));
        }
        lemma_stages_grow(f, false, e, terms, out, k4, resolved);
        let st = stages(f, false, e, terms, k4, resolved);
        lemma_node_grows(f, a, st.a_val, st.ka, resolved, st.a_idx, None);
        lemma_node_grows(f, b, st.b_val, st.kb, st.a.resolved, st.b_idx, None);
        let z = self.scene();
        let tile = self.tile;
        let known = Known {
            a_element: |x: int| value_at(z, a, None, x),
            b_element: |x: int| value_at(z, b, None, x),
            a_kept: |done: Seq<Write>, x: int| kept_at(z, a, None, tile, 0, 0, done, x),
            b_kept: |done: Seq<Write>, x: int| kept_at(z, b, None, tile, 0, 0, done, x),
            good: self.good(),
        };
        let c = code_of(f, e, terms, out, k4, st, known);
        self.lemma_bounds(
            k4.raw,
            st.ka.raw,
            st.a.kernel.raw,
            st.kb.raw,
            st.b.kernel.raw,
            u.kernel.raw,
        );
        lemma_first_stage(f, false, e, terms, out, k4, resolved, known);
        lemma_second_stage(f, false, e, terms, out, k4, resolved, known);
        lemma_product_code(f, false, e, terms, out, k4, resolved, known);
        assert(k4.raw.values.len() == limit + 5) by {
            reveal(RawView::def);
            reveal(RawView::emit);
        }
        self.lemma_product_start(n, out, kernel, grid);
        let s6 = self.lemma_product_begins(n, out, kernel, idx, grid, s, at, u.kernel.raw);
        lemma_code_extends(c, u.kernel.raw, k);
        assert(k.ops[c.mid_op as int] == u.kernel.raw.ops[c.mid_op as int]);
        assert(k.ops[c.late_op as int] == u.kernel.raw.ops[c.late_op as int]);
        assert(k.ops[(c.late_op + 1) as int] == u.kernel.raw.ops[(c.late_op + 1) as int]);
        assert(c.written(k));
        self.lemma_operand_loads(n, a, Some(grid), None);
        self.lemma_operand_loads(n, b, Some(grid), None);
        lemma_extends_on(st.b.kernel.raw, u.kernel.raw, k);
        lemma_extends_on(st.a.kernel.raw, u.kernel.raw, k);
        lemma_extends_on(st.ka.raw, u.kernel.raw, k);
        lemma_extends_on(st.kb.raw, u.kernel.raw, k);
        assert(!inlined(k.values[st.a_idx as int]) && !inlined(k.values[st.a_val as int])
            && !inlined(k.values[st.b_idx as int]) && !inlined(k.values[st.b_val as int]));
        self.lemma_factor_serves(c.a_factor(), a, st.a_val, st.ka, resolved, st.a_idx);
        self.lemma_factor_serves(c.b_factor(), b, st.b_val, st.kb, st.a.resolved, st.b_idx);
        let fields = fields_of(f.nodes, n, grid);
        let sz = size(w, tile, fields);
        let init = |r: int, c: int| num(ZERO_BITS);
        assert(c.grounded(k, s6, sz));
        assert(c.reached(k, s6, sz, init, 0));
        let t = c.lemma_product(k, w, s6, sz, init);
        lemma_advance_on(k, w, from, k4.raw.ops.len(), u.kernel.raw.ops.len(), s, s6, t);
        lemma_stored_on(k, s, s6, t, self.good());
        assert forall|r: int, d: int, v: ValueId|
            thread(k, r, d) && v < limit && v != out implies #[trigger] var(t, r, d, v) == var(
            s,
            r,
            d,
            v,
        ) by {
            assert(var(t, r, d, v) == var(s6, r, d, v));
            assert(var(s6, r, d, v) == var(s, r, d, v));
        }
        assert forall|r: int, d: int| #[trigger] thread(k, r, d) implies var(t, r, d, out)
            == Item::Real(self.values(n, Some(grid), at)(r, d)) && kept_below(
            z,
            n,
            Some(grid),
            tile,
            r,
            d,
            stores(t, r, d),
            at(r, d),
        ) by {
            self.lemma_product_element(n, c, sz, grid, r, d, at(r, d));
            self.lemma_product_kept(n, c, sz, grid, r, d, at(r, d), t);
        }
        t
    }

    /// A product ends within the whole kernel, and so do all its stages.
    pub proof fn lemma_bounds(
        self,
        k4: RawView,
        ka: RawView,
        a: RawView,
        kb: RawView,
        b: RawView,
        u: RawView,
    )
        requires
            self.within(u),
            self.k.values.len() <= usize::MAX,
            self.k.shared.len() <= usize::MAX,
            ka.values.len() == k4.values.len() + 10,
            ka.shared.len() == k4.shared.len() + 2,
            grows(ka, a),
            kb.values.len() == a.values.len() + 4,
            grows(a, kb),
            grows(kb, b),
            u.values.len() == b.values.len() + 7,
            grows(b, u),
        ensures
            k4.values.len() + 10 <= usize::MAX,
            k4.shared.len() + 2 <= usize::MAX,
            a.values.len() + 4 <= usize::MAX,
            b.values.len() + 7 <= usize::MAX,
    {
    }

    /// The code of a factor evaluates it.
    proof fn lemma_factor_serves(
        self,
        fa: Factor,
        m: NodeId,
        out: ValueId,
        kernel: LinkedView,
        resolved: Seq<NodeId>,
        idx: ValueId,
    )
        requires
            self.saving,
            self.f.placed(Operand::Node(m)),
            forall|i: int|
                0 <= i < self.f.nodes.len() ==> #[trigger] has_operands(self.f.nodes, i),
            self.k.values.len() <= usize::MAX,
            self.k.shared.len() <= usize::MAX,
            self.k.block == seq![self.tile, self.tile, 1u32],
            fusible(self.f.nodes, m, None),
            !self.f.claimed(resolved),
            out < kernel.raw.values.len(),
            !inlined(self.k.values[out as int]),
            self.given(idx, kernel.raw.values.len(), out),
            forall|p: ParamId| #[trigger]
                loads(self.scene(), m, None, p) ==> untouched(self.k.ops, p, self.k.ops.len()),
            ({
                let l = node_value(self.f, Operand::Node(m), out, kernel, resolved, idx, false);
                let z = self.scene();
                let tile = self.tile;
                &&& l.nodes is Ok
                &&& self.within(l.kernel.raw)
                &&& fa == (Factor {
                    from: kernel.raw.ops.len(),
                    to: l.kernel.raw.ops.len(),
                    index: idx,
                    out,
                    element: |x: int| value_at(z, m, None, x),
                    kept: |done: Seq<Write>, x: int| kept_at(z, m, None, tile, 0, 0, done, x),
                })
            }),
        ensures
            fa.serves(self.k, self.w, kernel.raw.values.len(), self.good()),
        decreases m, 2nat,
    {
        let k = self.k;
        let z = self.scene();
        let limit = kernel.raw.values.len();
        assert(lasting(fa.kept)) by {
            assert forall|a: Seq<Write>, b: Seq<Write>, good: spec_fn(Write) -> bool, x: int|
                #![trigger goes_on(a, b, good), (fa.kept)(b, x)]
                goes_on(a, b, good) && (fa.kept)(a, x) implies (fa.kept)(b, x) by {
                lemma_kept_lasts(z, m, None, self.tile, 0, 0, a, b, good, x);
            }
        }
        assert forall|s: Block| #[trigger] fa.ready(k, s) implies exists|t: Block| #[trigger]
            fa.served(k, self.w, limit, self.good(), s, t) by {
            let at = |r: int, c: int|
                match var(s, r, c, idx) {
                    Item::Int(x) => x,
                    _ => 0,
                };
            assert forall|r: int, c: int| #[trigger] thread(k, r, c) implies var(s, r, c, idx)
                == Item::Int(at(r, c)) && 0 <= at(r, c) <= u32::MAX by {
                assert(var(s, r, c, fa.index) is Int);
            }
            assert(self.may_run(m, out, limit, idx, None, s, at));
            let t = self.lemma_node_runs(m, out, kernel, resolved, idx, None, s, at);
            assert forall|r: int, c: int| #[trigger] thread(k, r, c) implies (var(
                s,
                r,
                c,
                fa.index,
            ) matches Item::Int(x) && {
                &&& var(t, r, c, fa.out) == Item::Real((fa.element)(x))
                &&& (fa.kept)(stores(t, r, c), x)
            }) by {
                assert(var(s, r, c, idx) == Item::Int(at(r, c)));
                assert(var(t, r, c, out) == Item::Real(self.values(m, None, at)(r, c)));
                lemma_kept_flat(
                    z,
                    m,
                    self.tile,
                    r,
                    c,
                    0,
                    0,
                    stores(t, r, c),
                    at(r, c),
                );
            }
            assert(fa.served(k, self.w, limit, self.good(), s, t));
        }
    }

    /// What a product begins with.
    proof fn lemma_product_start(
        self,
        n: NodeId,
        out: ValueId,
        kernel: LinkedView,
        grid: (MetaId, MetaId),
    )
        requires
            fusible(self.f.nodes, n, Some(grid)),
            self.f.nodes[n as int].op is Custom,
            self.f.nodes[n as int].op->lower == OpName::Matmul,
            kernel.raw.values.len() + 5 <= usize::MAX,
        ensures
            ({
                let (e, terms, k4) = product_setting(self.f, n, out, kernel);
                let v = kernel.raw.values.len() as int;
                let p = kernel.raw.ops.len() as int;
                let fields = fields_of(self.f.nodes, n, grid);
                let q = k4.raw;
                &&& e == (Extent {
                    row: v as usize,
                    col: (v + 1) as usize,
                    m: (v + 2) as usize,
                    n: (v + 3) as usize,
                    k: (v + 4) as usize,
                })
                &&& extends(kernel.raw, q)
                &&& q.values.len() == v + 5
                &&& q.ops.len() == p + 6
                &&& q.shared == kernel.raw.shared
                &&& q.values[v] == unsigned(ValueState::Immut, Op::GlobalId { axis: Axis::Y })
                &&& q.values[v + 1] == unsigned(ValueState::Immut, Op::GlobalId { axis: Axis::X })
                &&& q.values[v + 2] == unsigned(
                    ValueState::Immut,
                    Op::ReadMeta { param: 0, field: fields.0 },
                )
                &&& q.values[v + 3] == unsigned(
                    ValueState::Immut,
                    Op::ReadMeta { param: 0, field: fields.1 },
                )
                &&& q.values[v + 4] == unsigned(
                    ValueState::Immut,
                    Op::ReadMeta { param: 0, field: fields.2 },
                )
                &&& q.ops[p] == (Op::DefineVar { id: v as usize })
                &&& q.ops[p + 1] == (Op::DefineVar { id: (v + 1) as usize })
                &&& q.ops[p + 2] == (Op::DefineVar { id: (v + 2) as usize })
                &&& q.ops[p + 3] == (Op::DefineVar { id: (v + 3) as usize })
                &&& q.ops[p + 4] == (Op::DefineVar { id: (v + 4) as usize })
                &&& q.ops[p + 5] == (Op::OverwriteVar { id: out, val: Box::new(zero()) })
            }),
    {
        assert(product_fields(self.f, None, n) == fields_of(self.f.nodes, n, grid));
        reveal(RawView::def);
        reveal(RawView::emit);
    }

    /// The block after what a product begins with.
    proof fn lemma_product_begins(
        self,
        n: NodeId,
        out: ValueId,
        kernel: LinkedView,
        idx: ValueId,
        grid: (MetaId, MetaId),
        s: Block,
        at: spec_fn(int, int) -> int,
        u: RawView,
    ) -> (t: Block)
        requires
            self.may_run(n, out, kernel.raw.values.len(), idx, Some(grid), s, at),
            self.f.nodes[n as int].op is Custom,
            self.f.nodes[n as int].op->lower == OpName::Matmul,
            kernel.raw.values.len() + 5 <= usize::MAX,
            self.within(u),
            grows(product_setting(self.f, n, out, kernel).2.raw, u),
        ensures
            ({
                let (e, terms, k4) = product_setting(self.f, n, out, kernel);
                let fields = fields_of(self.f.nodes, n, grid);
                &&& advances(self.k, self.w, kernel.raw.ops.len(), k4.raw.ops.len(), s, t)
                &&& !t.stuck
                &&& quiet(self.k, t)
                &&& t.tiles == s.tiles
                &&& framed_by(self.k, s, t, kernel.raw.values.len(), out)
                &&& stored_on(self.k, s, t, self.good())
                &&& self.holds(t)
                &&& forall|r: int, c: int| #[trigger]
                    thread(self.k, r, c) ==> {
                        &&& var(t, r, c, out) == Item::Real(num(ZERO_BITS))
                        &&& var(t, r, c, e.row) == Item::Int(self.w.row * self.tile + r)
                        &&& var(t, r, c, e.col) == Item::Int(self.w.col * self.tile + c)
                        &&& var(t, r, c, e.m) == Item::Int(self.w.fields[fields.0 as int] as int)
                        &&& var(t, r, c, e.n) == Item::Int(self.w.fields[fields.1 as int] as int)
                        &&& var(t, r, c, e.k) == Item::Int(self.w.fields[fields.2 as int] as int)
                    }
            }),
    {
        let k = self.k;
        let w = self.w;
        let (e, terms, k4) = product_setting(self.f, n, out, kernel);
        let v = kernel.raw.values.len();
        let p = kernel.raw.ops.len();
        let fields = fields_of(self.f.nodes, n, grid);
        self.lemma_product_start(n, out, kernel, grid);
        lemma_extends_on(k4.raw, u, k);
        assert forall|i: int| 0 <= i < 5 implies #[trigger] k.values[v + i] == k4.raw.values[v
            + i] by {}
        assert forall|i: int| 0 <= i < 6 implies #[trigger] k.ops[p + i] == k4.raw.ops[p + i] by {}
        assert(k.values[v as int] == k4.raw.values[v as int]);
        assert(k.ops[p as int] == k4.raw.ops[p as int]);
        lemma_block_start(w.row, self.tile as int);
        lemma_block_start(w.col, self.tile as int);
        let row = |r: int, c: int| Item::Int(w.row * self.tile + r);
        let col = |r: int, c: int| Item::Int(w.col * self.tile + c);
        let m = |r: int, c: int| Item::Int(w.fields[fields.0 as int] as int);
        let nn = |r: int, c: int| Item::Int(w.fields[fields.1 as int] as int);
        let kk = |r: int, c: int| Item::Int(w.fields[fields.2 as int] as int);
        let s1 = self.lemma_new(p, e.row, Some(grid), s, row);
        let s2 = self.lemma_new(p + 1, e.col, Some(grid), s1, col);
        let s3 = self.lemma_new(p + 2, e.m, Some(grid), s2, m);
        let s4 = self.lemma_new(p + 3, e.n, Some(grid), s3, nn);
        let s5 = self.lemma_new(p + 4, e.k, Some(grid), s4, kk);
        let s6 = self.lemma_put(
            p + 5,
            out,
            v + 5,
            zero(),
            Some(grid),
            s5,
            |r: int, c: int| num(ZERO_BITS),
        );
        lemma_advance_on(k, w, p, p + 1, p + 2, s, s1, s2);
        lemma_advance_on(k, w, p, p + 2, p + 3, s, s2, s3);
        lemma_advance_on(k, w, p, p + 3, p + 4, s, s3, s4);
        lemma_advance_on(k, w, p, p + 4, p + 5, s, s4, s5);
        lemma_advance_on(k, w, p, p + 5, p + 6, s, s5, s6);
        lemma_stored_on(k, s, s1, s2, self.good());
        lemma_stored_on(k, s, s2, s3, self.good());
        lemma_stored_on(k, s, s3, s4, self.good());
        lemma_stored_on(k, s, s4, s5, self.good());
        lemma_stored_on(k, s, s5, s6, self.good());
        assert forall|r: int, c: int, i: ValueId|
            thread(k, r, c) && i < v && i != out implies #[trigger] var(s6, r, c, i) == var(
            s,
            r,
            c,
            i,
        ) by {
            assert(var(s6, r, c, i) == var(s5, r, c, i));
            assert(var(s5, r, c, i) == var(s4, r, c, i));
            assert(var(s4, r, c, i) == var(s3, r, c, i));
            assert(var(s3, r, c, i) == var(s2, r, c, i));
            assert(var(s2, r, c, i) == var(s1, r, c, i));
        }
        self.lemma_holds_on(s, s6, v, out, out);
        assert forall|r: int, c: int| #[trigger] thread(k, r, c) implies {
            &&& var(s6, r, c, e.row) == row(r, c)
            &&& var(s6, r, c, e.col) == col(r, c)
            &&& var(s6, r, c, e.m) == m(r, c)
            &&& var(s6, r, c, e.n) == nn(r, c)
            &&& var(s6, r, c, e.k) == kk(r, c)
        } by {
            assert(var(s6, r, c, e.row) == var(s5, r, c, e.row));
            assert(var(s6, r, c, e.col) == var(s5, r, c, e.col));
            assert(var(s6, r, c, e.m) == var(s5, r, c, e.m));
            assert(var(s6, r, c, e.n) == var(s5, r, c, e.n));
            assert(var(s6, r, c, e.k) == var(s5, r, c, e.k));
            assert(var(s5, r, c, e.row) == var(s1, r, c, e.row));
            assert(var(s5, r, c, e.col) == var(s2, r, c, e.col));
            assert(var(s5, r, c, e.m) == var(s3, r, c, e.m));
            assert(var(s5, r, c, e.n) == var(s4, r, c, e.n));
        }
        s6
    }

    /// The terms that are added up are those of the product.
    proof fn lemma_folded(
        self,
        n: NodeId,
        c: Code,
        sz: Size,
        grid: (MetaId, MetaId),
        row: int,
        col: int,
        x: int,
        count: nat,
    )
        requires
            sz == size(self.w, self.tile, fields_of(self.f.nodes, n, grid)),
            x / sz.n == row,
            x % sz.n == col,
            ({
                let z = self.scene();
                let a = self.f.nodes[n as int].inputs@[0];
                let b = self.f.nodes[n as int].inputs@[1];
                &&& a < n && b < n
                &&& c.a_element == (|y: int| value_at(z, a, None, y))
                &&& c.b_element == (|y: int| value_at(z, b, None, y))
                &&& !c.swap_a && !c.swap_b
            }),
        ensures
            c.folded(sz, num(ZERO_BITS), row, col, count) == product_at(
                self.scene(),
                n,
                grid,
                x,
                count,
            ),
        decreases count,
    {
        if count > 0 {
            self.lemma_folded(n, c, sz, grid, row, col, x, (count - 1) as nat);
        }
    }

    /// What each thread comes to hold is an element of the product.
    proof fn lemma_product_element(
        self,
        n: NodeId,
        c: Code,
        sz: Size,
        grid: (MetaId, MetaId),
        r: int,
        d: int,
        x: int,
    )
        requires
            fusible(self.f.nodes, n, Some(grid)),
            self.f.nodes[n as int].op is Custom,
            self.f.nodes[n as int].op->lower == OpName::Matmul,
            self.lies_in(grid),
            0 <= r < self.tile,
            0 <= d < self.tile,
            x == self.cell(grid, r, d),
            sz == size(self.w, self.tile, fields_of(self.f.nodes, n, grid)),
            ({
                let z = self.scene();
                let a = self.f.nodes[n as int].inputs@[0];
                let b = self.f.nodes[n as int].inputs@[1];
                &&& c.a_element == (|y: int| value_at(z, a, None, y))
                &&& c.b_element == (|y: int| value_at(z, b, None, y))
                &&& !c.swap_a && !c.swap_b
            }),
        ensures
            c.folded(sz, num(ZERO_BITS), sz.row + r, sz.col + d, sz.k as nat) == value_at(
                self.scene(),
                n,
                Some(grid),
                x,
            ),
    {
        let z = self.scene();
        let a = self.f.nodes[n as int].inputs@[0];
        let b = self.f.nodes[n as int].inputs@[1];
        lemma_block_start(self.w.row, self.tile as int);
        lemma_block_start(self.w.col, self.tile as int);
        lemma_cell_parts(sz.row + r, sz.col + d, sz.n);
        self.lemma_folded(n, c, sz, grid, sz.row + r, sz.col + d, x, sz.k as nat);
    }

    /// What each thread has saved of the operands of a product is what it owes.
    proof fn lemma_product_kept(
        self,
        n: NodeId,
        c: Code,
        sz: Size,
        grid: (MetaId, MetaId),
        r: int,
        d: int,
        x: int,
        t: Block,
    )
        requires
            fusible(self.f.nodes, n, Some(grid)),
            self.f.nodes[n as int].op is Custom,
            self.f.nodes[n as int].op->lower == OpName::Matmul,
            self.lies_in(grid),
            self.k.block == seq![self.tile, self.tile, 1u32],
            thread(self.k, r, d),
            x == self.cell(grid, r, d),
            sz == size(self.w, self.tile, fields_of(self.f.nodes, n, grid)),
            c.kept(self.k, t, sz, sz.k),
            ({
                let z = self.scene();
                let tile = self.tile;
                let a = self.f.nodes[n as int].inputs@[0];
                let b = self.f.nodes[n as int].inputs@[1];
                &&& c.a_kept == (|done: Seq<Write>, y: int|
                    kept_at(z, a, None, tile, 0, 0, done, y))
                &&& c.b_kept == (|done: Seq<Write>, y: int|
                    kept_at(z, b, None, tile, 0, 0, done, y))
                &&& !c.swap_a && !c.swap_b
            }),
        ensures
            kept_below(
                self.scene(),
                n,
                Some(grid),
                self.tile,
                r,
                d,
                stores(t, r, d),
                x,
            ),
    {
        let z = self.scene();
        let tile = self.tile;
        let a = self.f.nodes[n as int].inputs@[0];
        let b = self.f.nodes[n as int].inputs@[1];
        lemma_block_start(self.w.row, self.tile as int);
        lemma_block_start(self.w.col, self.tile as int);
        lemma_cell_parts(sz.row + r, sz.col + d, sz.n);
        let done = stores(t, r, d);
        assert forall|i: int|
            #![trigger i % tile as int]
            0 <= i < sz.k implies {
            &&& a < n && i % tile as int == d ==> kept_at(
                z,
                a,
                None,
                tile,
                r,
                d,
                done,
                (x / sz.n) * sz.k + i,
            )
            &&& b < n && i % tile as int == r ==> kept_at(
                z,
                b,
                None,
                tile,
                r,
                d,
                done,
                i * sz.n + x % sz.n,
            )
        } by {
            let ya = a_place(c.swap_a, sz, sz.row + r, i);
            let yb = b_place(c.swap_b, sz, i, sz.col + d);
            if i % tile as int == d {
                assert((c.a_kept)(done, ya));
                lemma_kept_flat(z, a, tile, 0, 0, r, d, done, ya);
            }
            if i % tile as int == r {
                assert((c.b_kept)(done, yb));
                lemma_kept_flat(z, b, tile, 0, 0, r, d, done, yb);
            }
        }
    }
}

pub proof fn lemma_block_start(at: int, tile: int)
    requires
        0 <= at,
        0 <= tile,
    ensures
        0 <= at * tile,
{
    assert(0 <= at * tile) by (nonlinear_arith)
        requires
            0 <= at,
            0 <= tile,
    ;
}

/// The row and the column of a place in a matrix.
pub proof fn lemma_cell_parts(row: int, col: int, cols: int)
    requires
        0 <= row,
        0 <= col < cols,
    ensures
        (row * cols + col) / cols == row,
        (row * cols + col) % cols == col,
{
    vstd::arithmetic::div_mod::lemma_fundamental_div_mod_converse(
        row * cols + col,
        cols,
        row,
        col,
    );
}

} // verus!
