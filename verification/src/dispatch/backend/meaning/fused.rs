//! What the kernels of a forward pass compute, where operations are fused with matrix products.

use vstd::prelude::*;

use crate::dispatch::backend::kernel::forward::{node_done, node_value};
use crate::dispatch::backend::kernel::frame::{has_operands, Operand, Scope};
use crate::dispatch::backend::kernel::raw::{LinkedView, RawView};
use crate::dispatch::backend::meaning::emitted::{grows, lemma_grows_on, lemma_stages_grow, stages};
use crate::dispatch::backend::meaning::forward::{is_joined, joined};
use crate::dispatch::backend::meaning::ops::{applied, gelu_tangent};
use crate::dispatch::backend::meaning::parts::hold;
use crate::dispatch::backend::meaning::product::{framed_by, goes_on, stored_on, zero, Size};
use crate::dispatch::backend::meaning::tiles::{
    advances, item, lemma_advance_step, next, quiet, stores, thread, var, Block, Item, Place, Write,
};
use crate::dispatch::backend::meaning::{fused, load, num, untouched, Expr};
use crate::dispatch::backend::std_lib::binary::{binary_lowering, binary_value};
use crate::dispatch::backend::std_lib::lowering;
use crate::dispatch::backend::std_lib::matmul::{
    matmul_lowering, product, product_fields, Extent, Terms,
};
use crate::dispatch::backend::std_lib::unary::{unary_lowering, unary_value};
use crate::dispatch::backend::wgsl::source::inlined;
use crate::dispatch::backend::{
    Axis, DType, DispatchOptions, GraphOp, MetaId, Node, NodeId, Op, OpName, ParamId, SharedId,
    ValueId, ValueState,
};
use crate::scalar::ZERO_BITS;

verus! {

/// A graph, the parameters of its inputs and of the results that a pass saves, and the dimensions.
pub struct Scene {
    pub nodes: Seq<Node>,
    pub inputs: Seq<Option<ParamId>>,
    pub saved: Seq<Option<ParamId>>,
    pub fields: Seq<u32>,
}

/// What a node is, at a place in the rows of its matrix.
///
/// An input is loaded. An operation that works element by element is applied to its operands at the
/// same place. A product that is computed in the places of a matrix with the given dimensions is the
/// sum of the products of a row of its first operand and a column of its second. Below a product, or
/// wherever else the dimensions are not given, an operation that changes the iteration space is
/// loaded from where a kernel has saved it.
pub open spec fn value_at(
    z: Scene,
    n: NodeId,
    grid: Option<(MetaId, MetaId)>,
    x: int,
) -> Expr
    decreases n, 1nat, 0nat,
{
    match z.nodes[n as int].op {
        GraphOp::Input => load(z.inputs[n as int]->0, num(x as u32)),
        GraphOp::ConstF32(value) => num(value.bits),
        GraphOp::Custom { lower, .. } => {
            let of = |m: NodeId|
                if m < n {
                    value_at(z, m, grid, x)
                } else {
                    Expr::Unset
                };
            let a = z.nodes[n as int].inputs@[0];
            let b = z.nodes[n as int].inputs@[1];
            if grid is None && z.nodes[n as int].op.transform() {
                load(z.saved[n as int]->0, num(x as u32))
            } else if lower == OpName::Matmul {
                let terms = z.fields[z.nodes[a as int].shape@[1] as int];
                product_at(z, n, grid->0, x, terms as nat)
            } else if is_joined(lower) {
                joined(lower, of(a), of(b))
            } else {
                applied(lower, of(a))
            }
        },
    }
}

/// What an element of a product is after a number of its terms: each term is the product of an element
/// of a row of the first operand and one of a column of the second.
pub open spec fn product_at(
    z: Scene,
    n: NodeId,
    grid: (MetaId, MetaId),
    x: int,
    count: nat,
) -> Expr
    decreases n, 0nat, count,
{
    let a = z.nodes[n as int].inputs@[0];
    let b = z.nodes[n as int].inputs@[1];
    let cols = z.fields[grid.1 as int] as int;
    let terms = z.fields[z.nodes[a as int].shape@[1] as int] as int;
    if count == 0 || a >= n || b >= n {
        num(ZERO_BITS)
    } else {
        fused(
            value_at(z, a, None, (x / cols) * terms + (count - 1)),
            value_at(z, b, None, (count - 1) * cols + x % cols),
            product_at(z, n, grid, x, (count - 1) as nat),
        )
    }
}

/// What is saved of a node: what it is, except that GELU saves the tangent that it computes.
pub open spec fn saved_at(z: Scene, n: NodeId, grid: Option<(MetaId, MetaId)>, x: int) -> Expr {
    match z.nodes[n as int].op {
        GraphOp::Custom { lower, .. } if lower == OpName::Gelu => gelu_tangent(
            value_at(z, z.nodes[n as int].inputs@[0], grid, x),
        ),
        _ => value_at(z, n, grid, x),
    }
}

/// The parameter that a kernel which computes a node saves it in.
pub open spec fn saved_in(z: Scene, n: NodeId) -> Option<ParamId> {
    match z.nodes[n as int].op {
        GraphOp::Custom { lower, .. } if lower == OpName::Gelu || z.nodes[n as int].op.auto_saved()
            => z.saved[n as int],
        _ => None,
    }
}

/// Whether a node can be computed by one kernel: it is made of operations that work element by
/// element and of products of matrices that fit each other, where those below a product have been
/// saved.
pub open spec fn fusible(nodes: Seq<Node>, n: NodeId, grid: Option<(MetaId, MetaId)>) -> bool
    decreases n,
{
    let node = nodes[n as int];
    match node.op {
        GraphOp::Custom { lower, .. } => {
            let a = node.inputs@[0];
            let b = node.inputs@[1];
            &&& node.op.dispatch() == DispatchOptions::Any
            &&& if grid is None && node.op.transform() {
                node.outputs@.len() > 0
            } else if lower == OpName::Matmul {
                &&& grid is Some
                &&& a < n && b < n
                &&& node.shape@ == seq![(grid->0).0, (grid->0).1]
                &&& nodes[a as int].shape@.len() == 2
                &&& nodes[a as int].shape@[0] == (grid->0).0
                &&& nodes[b as int].shape@ == seq![nodes[a as int].shape@[1], (grid->0).1]
                &&& fusible(nodes, a, None)
                &&& fusible(nodes, b, None)
            } else {
                &&& lower != OpName::Softmax
                &&& !node.op.dims_needed()
                &&& lower == OpName::Gelu ==> !node.op.auto_saved()
                &&& a < n && fusible(nodes, a, grid)
                &&& is_joined(lower) ==> b < n && fusible(nodes, b, grid)
            }
        },
        _ => true,
    }
}

/// The sizes of a product, for a block.
pub open spec fn size(w: Place, tile: u32, fields: (MetaId, MetaId, MetaId)) -> Size {
    Size {
        tile: tile as int,
        m: w.fields[fields.0 as int] as int,
        n: w.fields[fields.1 as int] as int,
        k: w.fields[fields.2 as int] as int,
        row: w.row * tile,
        col: w.col * tile,
        base: 0,
    }
}

/// Whether the sums of the products that a node is made of run over a multiple of the tile, and all
/// the places in the matrices are unsigned integers.
pub open spec fn measured(
    nodes: Seq<Node>,
    w: Place,
    tile: u32,
    n: NodeId,
    grid: Option<(MetaId, MetaId)>,
) -> bool
    decreases n,
{
    let node = nodes[n as int];
    let a = node.inputs@[0];
    let b = node.inputs@[1];
    match node.op {
        GraphOp::Custom { lower, .. } => if grid is None {
            true
        } else if lower == OpName::Matmul {
            size(
                w,
                tile,
                ((grid->0).0, (grid->0).1, nodes[a as int].shape@[1]),
            ).fits()
        } else {
            &&& a < n ==> measured(nodes, w, tile, a, grid)
            &&& is_joined(lower) && b < n ==> measured(nodes, w, tile, b, grid)
        },
        _ => true,
    }
}

/// Whether computing a node loads from a parameter.
pub open spec fn loads(z: Scene, n: NodeId, grid: Option<(MetaId, MetaId)>, p: ParamId) -> bool
    decreases n,
{
    let node = z.nodes[n as int];
    let a = node.inputs@[0];
    let b = node.inputs@[1];
    match node.op {
        GraphOp::Input => z.inputs[n as int] == Some(p),
        GraphOp::ConstF32(_) => false,
        GraphOp::Custom { lower, .. } => if grid is None && node.op.transform() {
            z.saved[n as int] == Some(p)
        } else {
            let below = if lower == OpName::Matmul {
                None
            } else {
                grid
            };
            ||| a < n && loads(z, a, below, p)
            ||| (is_joined(lower) || lower == OpName::Matmul) && b < n && loads(z, b, below, p)
        },
    }
}

/// Whether computing a node stores to a parameter.
pub open spec fn saves(z: Scene, n: NodeId, grid: Option<(MetaId, MetaId)>, p: ParamId) -> bool
    decreases n,
{
    let node = z.nodes[n as int];
    let a = node.inputs@[0];
    let b = node.inputs@[1];
    match node.op {
        GraphOp::Custom { lower, .. } => if grid is None && node.op.transform() {
            false
        } else {
            let below = if lower == OpName::Matmul {
                None
            } else {
                grid
            };
            ||| saved_in(z, n) == Some(p)
            ||| a < n && saves(z, a, below, p)
            ||| (is_joined(lower) || lower == OpName::Matmul) && b < n && saves(z, b, below, p)
        },
        _ => false,
    }
}

/// Whether a store is one of what is saved of a node, in its place.
pub open spec fn right_for(
    z: Scene,
    m: NodeId,
    grid: Option<(MetaId, MetaId)>,
    s: Write,
) -> bool {
    &&& saved_in(z, m) == Some(s.param)
    &&& s.index matches Item::Int(x)
    &&& s.value == Item::Real(saved_at(z, m, grid, x))
}

/// Whether a store is one of what is saved of some node, in its place.
pub open spec fn right(z: Scene, s: Write) -> bool {
    exists|m: NodeId, grid: Option<(MetaId, MetaId)>| #[trigger] right_for(z, m, grid, s)
}

/// Whether a thread has saved what it computes on the way to a node, each in its place. The operands
/// of a product are saved tile by tile, each element by one thread of its row or column.
pub open spec fn kept_at(
    z: Scene,
    n: NodeId,
    grid: Option<(MetaId, MetaId)>,
    tile: u32,
    r: int,
    c: int,
    done: Seq<Write>,
    x: int,
) -> bool
    decreases n, 1nat,
{
    let op = z.nodes[n as int].op;
    if op is Custom && !(grid is None && op.transform()) {
        &&& saved_in(z, n) matches Some(param) ==> done.contains(
            Write { param, index: Item::Int(x), value: Item::Real(saved_at(z, n, grid, x)) },
        )
        &&& kept_below(z, n, grid, tile, r, c, done, x)
    } else {
        true
    }
}

/// Whether a thread has saved what it computes on the way to the operands of a node.
pub open spec fn kept_below(
    z: Scene,
    n: NodeId,
    grid: Option<(MetaId, MetaId)>,
    tile: u32,
    r: int,
    c: int,
    done: Seq<Write>,
    x: int,
) -> bool
    decreases n, 0nat,
{
    let node = z.nodes[n as int];
    let a = node.inputs@[0];
    let b = node.inputs@[1];
    match node.op {
        GraphOp::Custom { lower, .. } => if lower == OpName::Matmul {
            let cols = z.fields[(grid->0).1 as int] as int;
            let terms = z.fields[z.nodes[a as int].shape@[1] as int] as int;
            forall|t: int|
                #![trigger t % tile as int]
                0 <= t < terms ==> {
                    &&& a < n && t % tile as int == c ==> kept_at(
                        z,
                        a,
                        None,
                        tile,
                        r,
                        c,
                        done,
                        (x / cols) * terms + t,
                    )
                    &&& b < n && t % tile as int == r ==> kept_at(
                        z,
                        b,
                        None,
                        tile,
                        r,
                        c,
                        done,
                        t * cols + x % cols,
                    )
                }
        } else {
            &&& a < n ==> kept_at(z, a, grid, tile, r, c, done, x)
            &&& is_joined(lower) && b < n ==> kept_at(z, b, grid, tile, r, c, done, x)
        },
        _ => true,
    }
}

/// What a thread has saved stays saved.
pub proof fn lemma_kept_lasts(
    z: Scene,
    n: NodeId,
    grid: Option<(MetaId, MetaId)>,
    tile: u32,
    r: int,
    c: int,
    done: Seq<Write>,
    more: Seq<Write>,
    good: spec_fn(Write) -> bool,
    x: int,
)
    requires
        kept_at(z, n, grid, tile, r, c, done, x),
        goes_on(done, more, good),
    ensures
        kept_at(z, n, grid, tile, r, c, more, x),
    decreases n, 1nat,
{
    let op = z.nodes[n as int].op;
    if op is Custom && !(grid is None && op.transform()) {
        if let Some(param) = saved_in(z, n) {
            let s = Write {
                param,
                index: Item::Int(x),
                value: Item::Real(saved_at(z, n, grid, x)),
            };
            let i = done.index_of(s);
            assert(more[i] == s);
        }
        lemma_kept_below_lasts(z, n, grid, tile, r, c, done, more, good, x);
    }
}

proof fn lemma_kept_below_lasts(
    z: Scene,
    n: NodeId,
    grid: Option<(MetaId, MetaId)>,
    tile: u32,
    r: int,
    c: int,
    done: Seq<Write>,
    more: Seq<Write>,
    good: spec_fn(Write) -> bool,
    x: int,
)
    requires
        kept_below(z, n, grid, tile, r, c, done, x),
        goes_on(done, more, good),
    ensures
        kept_below(z, n, grid, tile, r, c, more, x),
    decreases n, 0nat,
{
    let node = z.nodes[n as int];
    let a = node.inputs@[0];
    let b = node.inputs@[1];
    if let GraphOp::Custom { lower, .. } = node.op {
        if lower == OpName::Matmul {
            let cols = z.fields[(grid->0).1 as int] as int;
            let terms = z.fields[z.nodes[a as int].shape@[1] as int] as int;
            assert forall|t: int|
                #![trigger t % tile as int]
                0 <= t < terms implies {
                &&& a < n && t % tile as int == c ==> kept_at(
                    z,
                    a,
                    None,
                    tile,
                    r,
                    c,
                    more,
                    (x / cols) * terms + t,
                )
                &&& b < n && t % tile as int == r ==> kept_at(
                    z,
                    b,
                    None,
                    tile,
                    r,
                    c,
                    more,
                    t * cols + x % cols,
                )
            } by {
                if a < n && t % tile as int == c {
                    let y = (x / cols) * terms + t;
                    lemma_kept_lasts(z, a, None, tile, r, c, done, more, good, y);
                }
                if b < n && t % tile as int == r {
                    let y = t * cols + x % cols;
                    lemma_kept_lasts(z, b, None, tile, r, c, done, more, good, y);
                }
            }
        } else {
            if a < n {
                lemma_kept_lasts(z, a, grid, tile, r, c, done, more, good, x);
            }
            if is_joined(lower) && b < n {
                lemma_kept_lasts(z, b, grid, tile, r, c, done, more, good, x);
            }
        }
    }
}

/// Where no product is computed it does not matter which thread has saved something.
pub proof fn lemma_kept_flat(
    z: Scene,
    n: NodeId,
    tile: u32,
    r: int,
    c: int,
    y: int,
    d: int,
    done: Seq<Write>,
    x: int,
)
    requires
        fusible(z.nodes, n, None),
        kept_at(z, n, None, tile, r, c, done, x),
    ensures
        kept_at(z, n, None, tile, y, d, done, x),
    decreases n,
{
    let node = z.nodes[n as int];
    let a = node.inputs@[0];
    let b = node.inputs@[1];
    if node.op is Custom && !node.op.transform() {
        assert(kept_below(z, n, None, tile, r, c, done, x));
        lemma_kept_flat(z, a, tile, r, c, y, d, done, x);
        if node.op matches GraphOp::Custom { lower, .. } && is_joined(lower) {
            lemma_kept_flat(z, b, tile, r, c, y, d, done, x);
        }
    }
}

/// What the fields of a product are.
pub open spec fn fields_of(nodes: Seq<Node>, n: NodeId, grid: (MetaId, MetaId)) -> (
    MetaId,
    MetaId,
    MetaId,
) {
    (grid.0, grid.1, nodes[nodes[n as int].inputs@[0] as int].shape@[1])
}

/// What a product is lowered as.
pub open spec fn product_setting(f: Scope, n: NodeId, out: ValueId, kernel: LinkedView) -> (
    Extent,
    Terms,
    LinkedView,
) {
    let (raw, row) = kernel.raw.let_u(Op::GlobalId { axis: Axis::Y });
    let (raw, col) = raw.let_u(Op::GlobalId { axis: Axis::X });
    let fields = product_fields(f, None, n);
    let (raw, m) = raw.let_u(Op::ReadMeta { param: 0, field: fields.0 });
    let (raw, nn) = raw.let_u(Op::ReadMeta { param: 0, field: fields.1 });
    let (raw, k) = raw.let_u(Op::ReadMeta { param: 0, field: fields.2 });
    let kernel = LinkedView { raw, ..kernel }.field(fields.0).field(fields.1).field(fields.2);
    (
        Extent { m, n: nn, k, row, col },
        Terms {
            a: Operand::Node(f.input(n, 0)),
            b: Operand::Node(f.input(n, 1)),
            swap_a: false,
            swap_b: false,
        },
        kernel.assign(out, zero()),
    )
}

/// The code of a node goes on from the kernel that it is added to, and claims no dispatch.
pub proof fn lemma_node_grows(
    f: Scope,
    n: NodeId,
    out: ValueId,
    kernel: LinkedView,
    resolved: Seq<NodeId>,
    idx: ValueId,
    grid: Option<(MetaId, MetaId)>,
)
    requires
        f.placed(Operand::Node(n)),
        forall|m: int| 0 <= m < f.nodes.len() ==> #[trigger] has_operands(f.nodes, m),
        fusible(f.nodes, n, grid),
        !f.claimed(resolved),
        node_value(f, Operand::Node(n), out, kernel, resolved, idx, grid is Some).nodes is Ok,
    ensures
        ({
            let l = node_value(f, Operand::Node(n), out, kernel, resolved, idx, grid is Some);
            &&& grows(kernel.raw, l.kernel.raw)
            &&& !f.claimed(l.resolved)
            &&& forall|i: int|
                0 <= i < (l.nodes->Ok_0).len() ==> f.node(
                    #[trigger] (l.nodes->Ok_0)[i],
                ).op.dispatch() == DispatchOptions::Any
        }),
    decreases n,
{
    let op = f.node(n).op;
    let stable = grid is Some;
    let l = node_value(f, Operand::Node(n), out, kernel, resolved, idx, stable);
    let k = kernel.computes(op);
    if let GraphOp::Custom { lower, .. } = op {
        assert(has_operands(f.nodes, n as int));
        if !(op.transform() && !stable) {
            let u = lowering(f, None, n, out, k, resolved, idx, stable);
            let a = f.input(n, 0);
            let b = f.input(n, 1);
            assert(u.nodes is Ok);
            if lower == OpName::Matmul {
                let (e, terms, k4) = product_setting(f, n, out, k);
                assert(u == product(f, false, e, terms, out, k4, resolved)) by {
                    assert(u == matmul_lowering(f, None, n, out, k, resolved));
                }
                assert(grows(k.raw, k4.raw)) by {
                    reveal(RawView::def);
                    reveal(RawView::emit);
                }
                lemma_stages_grow(f, false, e, terms, out, k4, resolved);
                let s = stages(f, false, e, terms, k4, resolved);
                lemma_node_grows(f, a, s.a_val, s.ka, resolved, s.a_idx, None);
                lemma_node_grows(f, b, s.b_val, s.kb, s.a.resolved, s.b_idx, None);
                lemma_grows_on(k4.raw, s.ka.raw, s.a.kernel.raw);
                lemma_grows_on(k4.raw, s.a.kernel.raw, s.kb.raw);
                lemma_grows_on(k4.raw, s.kb.raw, s.b.kernel.raw);
                lemma_grows_on(k4.raw, s.b.kernel.raw, u.kernel.raw);
                lemma_grows_on(k.raw, k4.raw, u.kernel.raw);
            } else if is_joined(lower) {
                assert(u == binary_lowering(lower, f, None, n, out, k, resolved, idx, stable));
                assert(u == binary_value(lower, f, n, out, k, resolved, idx, stable));
                let (k1, a_val) = k.def(DType::Float, ValueState::Mut, None);
                let x = node_value(f, Operand::Node(a), a_val, k1, resolved, idx, stable);
                lemma_node_grows(f, a, a_val, k1, resolved, idx, grid);
                let (k2, b_val) = x.kernel.def(DType::Float, ValueState::Mut, None);
                let y = node_value(f, Operand::Node(b), b_val, k2, x.resolved, idx, stable);
                lemma_node_grows(f, b, b_val, k2, x.resolved, idx, grid);
                assert(grows(k.raw, k1.raw) && grows(x.kernel.raw, k2.raw) && grows(
                    y.kernel.raw,
                    u.kernel.raw,
                )) by {
                    reveal(RawView::def);
                    reveal(RawView::emit);
                }
                lemma_grows_on(k.raw, k1.raw, x.kernel.raw);
                lemma_grows_on(k.raw, x.kernel.raw, k2.raw);
                lemma_grows_on(k.raw, k2.raw, y.kernel.raw);
                lemma_grows_on(k.raw, y.kernel.raw, u.kernel.raw);
            } else {
                assert(u == unary_lowering(lower, f, None, n, out, k, resolved, idx, stable));
                let (raw, upstream) = k.raw.var_f(zero());
                let k1 = LinkedView { raw, ..k };
                let x = node_value(f, Operand::Node(a), upstream, k1, resolved, idx, stable);
                lemma_node_grows(f, a, upstream, k1, resolved, idx, grid);
                let q = unary_value(lower, x.kernel.raw, out, upstream).0;
                assert(grows(k.raw, k1.raw) && grows(x.kernel.raw, q)) by {
                    reveal(RawView::def);
                    reveal(RawView::emit);
                }
                assert(grows(q, u.kernel.raw)) by {
                    reveal(RawView::emit);
                }
                lemma_grows_on(k.raw, k1.raw, x.kernel.raw);
                lemma_grows_on(k.raw, x.kernel.raw, q);
                lemma_grows_on(k.raw, q, u.kernel.raw);
            }
            assert(grows(k.raw, u.kernel.raw));
            assert(!f.claimed(u.resolved));
            let own: Seq<NodeId> = if f.node(n).inputs@.len() > 0 {
                seq![n]
            } else {
                Seq::empty()
            };
            let done = node_done(f, n, out, u.kernel, u.resolved, idx, own + u.nodes->Ok_0);
            assert(l == done);
            assert(grows(u.kernel.raw, l.kernel.raw)) by {
                reveal(RawView::emit);
            }
            lemma_grows_on(k.raw, u.kernel.raw, l.kernel.raw);
        }
    }
    assert(grows(kernel.raw, l.kernel.raw)) by {
        reveal(RawView::emit);
    }
}

/// What a node is computed with: the scope, the whole kernel, the place of the block, the tile, and
/// whether results are saved on the way.
pub struct Stage {
    pub f: Scope,
    pub k: RawView,
    pub w: Place,
    pub tile: u32,
    pub saving: bool,
}

impl Stage {
    pub open spec fn scene(self) -> Scene {
        Scene {
            nodes: self.f.nodes,
            inputs: self.f.node_params,
            saved: self.f.saved_params,
            fields: self.w.fields,
        }
    }

    /// The stores that are right.
    pub open spec fn good(self) -> spec_fn(Write) -> bool {
        let z = self.scene();
        let saving = self.saving;
        |s: Write| saving && right(z, s)
    }

    /// Whether a value is one of the kernel below a bound, not the given one, and no mere name.
    pub open spec fn given(self, id: ValueId, limit: nat, out: ValueId) -> bool {
        id < limit && id != out && !inlined(self.k.values[id as int])
    }

    /// Whether the values of the scope are given.
    pub open spec fn settled(self, limit: nat, out: ValueId) -> bool {
        &&& self.given(self.f.local_row, limit, out)
        &&& self.given(self.f.local_col, limit, out)
        &&& self.given(self.f.tile_size, limit, out)
        &&& self.given(self.f.base, limit, out)
    }

    /// Whether a block holds the values of the scope.
    pub open spec fn holds(self, s: Block) -> bool {
        forall|r: int, c: int| #[trigger]
            thread(self.k, r, c) ==> {
                &&& var(s, r, c, self.f.local_row) == Item::Int(r)
                &&& var(s, r, c, self.f.local_col) == Item::Int(c)
                &&& var(s, r, c, self.f.tile_size) == Item::Int(self.tile as int)
                &&& var(s, r, c, self.f.base) == Item::Int(0)
            }
    }

    /// The place of a thread in a matrix.
    pub open spec fn cell(self, grid: (MetaId, MetaId), r: int, c: int) -> int {
        (self.w.row * self.tile + r) * self.w.fields[grid.1 as int] + (self.w.col * self.tile + c)
    }

    /// Whether a block lies in a matrix, and the places in it are unsigned integers.
    pub open spec fn lies_in(self, grid: (MetaId, MetaId)) -> bool {
        let rows = self.w.fields[grid.0 as int] as int;
        let cols = self.w.fields[grid.1 as int] as int;
        &&& 0 <= self.w.row && self.w.row * self.tile + self.tile <= rows
        &&& 0 <= self.w.col && self.w.col * self.tile + self.tile <= cols
        &&& rows * cols <= u32::MAX
    }

    /// Whether a block can compute a node into a variable, at an index.
    pub open spec fn may_run(
        self,
        n: NodeId,
        out: ValueId,
        limit: nat,
        idx: ValueId,
        grid: Option<(MetaId, MetaId)>,
        s: Block,
        at: spec_fn(int, int) -> int,
    ) -> bool {
        let k = self.k;
        &&& self.saving
        &&& self.f.placed(Operand::Node(n))
        &&& forall|m: int| 0 <= m < self.f.nodes.len() ==> #[trigger] has_operands(self.f.nodes, m)
        &&& k.values.len() <= usize::MAX
        &&& k.shared.len() <= usize::MAX
        &&& k.block == seq![self.tile, self.tile, 1u32]
        &&& fusible(self.f.nodes, n, grid)
        &&& measured(self.f.nodes, self.w, self.tile, n, grid)
        &&& out < limit && !inlined(k.values[out as int])
        &&& self.given(idx, limit, out)
        &&& !s.stuck
        &&& quiet(k, s)
        &&& forall|r: int, c: int| #[trigger]
            thread(k, r, c) ==> var(s, r, c, idx) == Item::Int(at(r, c)) && 0 <= at(r, c)
                <= u32::MAX
        &&& grid matches Some(d) ==> {
            &&& self.settled(limit, out)
            &&& self.holds(s)
            &&& self.lies_in(d)
            &&& forall|r: int, c: int| #[trigger] thread(k, r, c) ==> at(r, c) == self.cell(d, r, c)
            &&& forall|m: SharedId| (#[trigger] (s.tiles)(m)).phase is Idle
        }
        &&& forall|p: ParamId| #[trigger]
            loads(self.scene(), n, grid, p) ==> untouched(k.ops, p, k.ops.len())
    }

    /// Whether a block has come to another state with a number in a variable, and has changed
    /// nothing else that was there before.
    pub open spec fn carried(
        self,
        limit: nat,
        from: nat,
        to: nat,
        out: ValueId,
        grid: Option<(MetaId, MetaId)>,
        s: Block,
        t: Block,
        e: spec_fn(int, int) -> Expr,
    ) -> bool {
        &&& advances(self.k, self.w, from, to, s, t)
        &&& !t.stuck
        &&& quiet(self.k, t)
        &&& framed_by(self.k, s, t, limit, out)
        &&& stored_on(self.k, s, t, self.good())
        &&& grid is None ==> t.tiles == s.tiles
        &&& grid is Some ==> forall|m: SharedId| (#[trigger] (t.tiles)(m)).phase is Idle
        &&& hold(self.k, t, out, e)
    }

    /// What a node is, for each thread.
    pub open spec fn values(
        self,
        n: NodeId,
        grid: Option<(MetaId, MetaId)>,
        at: spec_fn(int, int) -> int,
    ) -> spec_fn(int, int) -> Expr {
        |r: int, c: int| value_at(self.scene(), n, grid, at(r, c))
    }

    /// Whether all the threads have saved what they compute on the way to a node.
    pub open spec fn kept(
        self,
        n: NodeId,
        grid: Option<(MetaId, MetaId)>,
        t: Block,
        at: spec_fn(int, int) -> int,
    ) -> bool {
        forall|r: int, c: int| #[trigger]
            thread(self.k, r, c) ==> kept_at(
                self.scene(),
                n,
                grid,
                self.tile,
                r,
                c,
                stores(t, r, c),
                at(r, c),
            )
    }

    /// Whether all the threads have saved what they compute on the way to the operands of a node.
    pub open spec fn kept_under(
        self,
        n: NodeId,
        grid: Option<(MetaId, MetaId)>,
        t: Block,
        at: spec_fn(int, int) -> int,
    ) -> bool {
        forall|r: int, c: int| #[trigger]
            thread(self.k, r, c) ==> kept_below(
                self.scene(),
                n,
                grid,
                self.tile,
                r,
                c,
                stores(t, r, c),
                at(r, c),
            )
    }

    /// Whether all the threads have saved a node.
    pub open spec fn kept_own(
        self,
        n: NodeId,
        grid: Option<(MetaId, MetaId)>,
        t: Block,
        at: spec_fn(int, int) -> int,
    ) -> bool {
        saved_in(self.scene(), n) matches Some(param) ==> forall|r: int, c: int| #[trigger]
            thread(self.k, r, c) ==> stores(t, r, c).contains(
                Write {
                    param,
                    index: Item::Int(at(r, c)),
                    value: Item::Real(saved_at(self.scene(), n, grid, at(r, c))),
                },
            )
    }

    pub proof fn lemma_kept_on(
        self,
        n: NodeId,
        grid: Option<(MetaId, MetaId)>,
        s: Block,
        t: Block,
        at: spec_fn(int, int) -> int,
    )
        requires
            stored_on(self.k, s, t, self.good()),
        ensures
            self.kept(n, grid, s, at) ==> self.kept(n, grid, t, at),
            self.kept_under(n, grid, s, at) ==> self.kept_under(n, grid, t, at),
            self.kept_own(n, grid, s, at) ==> self.kept_own(n, grid, t, at),
    {
        reveal(stored_on);
        let z = self.scene();
        if self.kept(n, grid, s, at) {
            assert forall|r: int, c: int| #[trigger] thread(self.k, r, c) implies kept_at(
                z,
                n,
                grid,
                self.tile,
                r,
                c,
                stores(t, r, c),
                at(r, c),
            ) by {
                lemma_kept_lasts(
                    z,
                    n,
                    grid,
                    self.tile,
                    r,
                    c,
                    stores(s, r, c),
                    stores(t, r, c),
                    self.good(),
                    at(r, c),
                );
            }
        }
        if self.kept_under(n, grid, s, at) {
            assert forall|r: int, c: int| #[trigger] thread(self.k, r, c) implies kept_below(
                z,
                n,
                grid,
                self.tile,
                r,
                c,
                stores(t, r, c),
                at(r, c),
            ) by {
                lemma_kept_below_lasts(
                    z,
                    n,
                    grid,
                    self.tile,
                    r,
                    c,
                    stores(s, r, c),
                    stores(t, r, c),
                    self.good(),
                    at(r, c),
                );
            }
        }
        if self.kept_own(n, grid, s, at) {
            if let Some(param) = saved_in(z, n) {
                assert forall|r: int, c: int| #[trigger] thread(self.k, r, c) implies stores(
                    t,
                    r,
                    c,
                ).contains(
                    Write {
                        param,
                        index: Item::Int(at(r, c)),
                        value: Item::Real(saved_at(z, n, grid, at(r, c))),
                    },
                ) by {
                    let s0 = Write {
                        param,
                        index: Item::Int(at(r, c)),
                        value: Item::Real(saved_at(z, n, grid, at(r, c))),
                    };
                    let i = stores(s, r, c).index_of(s0);
                    assert(stores(t, r, c)[i] == s0);
                }
            }
        }
    }
}

/// A store adds to what each thread has stored.
pub proof fn lemma_store(
    k: RawView,
    w: Place,
    s: Block,
    at: nat,
    param: ParamId,
    index: ValueId,
    value: ValueId,
    f: spec_fn(int, int) -> Write,
) -> (t: Block)
    requires
        !s.stuck,
        quiet(k, s),
        k.ops[at as int] == (Op::ParamStore { param, index, value }),
        forall|r: int, c: int| #[trigger]
            thread(k, r, c) ==> f(r, c) == (Write {
                param,
                index: item(k, w, s, r, c, index),
                value: item(k, w, s, r, c, value),
            }),
    ensures
        advances(k, w, at, at + 1, s, t),
        !t.stuck,
        quiet(k, t),
        t.tiles == s.tiles,
        forall|r: int, c: int, v: ValueId| #[trigger] var(t, r, c, v) == var(s, r, c, v),
        forall|r: int, c: int| #[trigger]
            thread(k, r, c) ==> stores(t, r, c) == stores(s, r, c).push(f(r, c)),
{
    lemma_advance_step(k, w, at, s);
    next(k, w, s, at)
}

} // verus!
