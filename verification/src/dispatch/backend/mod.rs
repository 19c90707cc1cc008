//! Execution graphs and the intermediate representation of kernels.

use vstd::prelude::*;

use core::cmp::Ordering;

use crate::errors::{lists, Error, ErrorKind};
use crate::scalar::Float32;
use crate::text::{listing, push_listing};

pub mod built;

pub mod check;

pub mod graph;

pub mod kernel;

pub mod meaning;

pub mod nop;

pub mod ops;

pub mod ready;

pub mod saved;

pub mod sort;

pub mod sound;

pub mod std_lib;

pub mod wgsl;

pub use graph::{Graph, LossType, Node};
pub use nop::{NopGpuBuffer, NopGpuContext, NopGpuKernel};
pub use ops::Op;

verus! {

/// The context of the default backend.
pub type GpuContext = NopGpuContext;

/// The buffers of the default backend.
pub type GpuBuffer = NopGpuBuffer;

/// Identifier of a node in a graph.
pub type NodeId = usize;

/// Identifier of a parameter in kernel IR.
pub type ParamId = usize;

/// Identifier of a metadata field in kernel IR.
pub type MetaId = usize;

/// Identifier of a shared buffer in kernel IR.
pub type SharedId = usize;

/// Identifier of a value in kernel IR.
pub type ValueId = usize;

/// Data type used in kernel IR.
#[non_exhaustive]
#[derive(Debug, Clone, Copy, PartialEq, Eq, Structural)]
pub enum DType {
    Float,
    SignedInt,
    UnsignedInt,
    Bool,
}

/// Parameter type used in kernel IR.
#[derive(Debug, Clone, Copy, PartialEq, Eq, Structural)]
pub struct Param {
    pub dtype: DType,
    pub ty: ParamTy,
    pub pid: ParamId,
}

/// How a kernel accesses a parameter.
#[derive(Debug, Clone, Copy, PartialEq, Eq, Structural)]
pub enum ParamTy {
    Uniform,
    ReadWrite,
    ReadOnly,
}

/// A buffer shared by the threads of a block.
#[derive(Debug, Clone, Copy, PartialEq, Eq, Structural)]
pub struct SharedAlloc {
    pub dtype: DType,
    pub size: u32,
}

/// Value type used in kernel IR.
#[derive(Debug, PartialEq)]
pub struct Value {
    pub state: ValueState,
    pub dtype: DType,
    pub init: Option<Op>,
}

impl Clone for Value {
    fn clone(&self) -> (r: Self)
        ensures
            r == *self,
    {
        let init = match &self.init {
            Some(op) => Some(op.clone()),
            None => None,
        };
        Self { state: self.state, dtype: self.dtype, init }
    }
}

/// Value state type that defines a value.
#[derive(Debug, Clone, Copy, PartialEq, Eq, Structural)]
pub enum ValueState {
    Mut,
    Immut,
    Masked,
    Inline,
    Const,
}

/// Axis type used in kernel IR.
#[derive(Debug, Clone, Copy, PartialEq, Eq, Structural)]
pub enum Axis {
    /// x-axis (0)
    X,
    /// y-axis (1)
    Y,
    /// z-axis (2)
    Z,
}

/// The axis with the given number; every number above two has none.
pub open spec fn axis_of(value: u8) -> Option<Axis> {
    if value == 0 {
        Some(Axis::X)
    } else if value == 1 {
        Some(Axis::Y)
    } else if value == 2 {
        Some(Axis::Z)
    } else {
        None
    }
}

/// The error for a number that is no axis.
pub open spec fn no_axis() -> Error {
    Error {
        msg: "could not coerce invalid integer to axis",
        kind: ErrorKind::InvalidArgument,
        ctx: (),
    }
}

impl Axis {
    /// The axis with the given number.
    pub fn try_from(value: u8) -> (r: Result<Self, Error>)
        ensures
            r == match axis_of(value) {
                Some(axis) => Ok::<Axis, Error>(axis),
                None => Err(no_axis()),
            },
    {
        match value {
            0 => Ok(Self::X),
            1 => Ok(Self::Y),
            2 => Ok(Self::Z),
            _ => Err(
                Error {
                    msg: "could not coerce invalid integer to axis",
                    kind: ErrorKind::InvalidArgument,
                    ctx: (),
                },
            ),
        }
    }
}

/// The number of metadata fields that a graph is lowered with.
#[derive(Debug, Clone, Copy, Hash, PartialEq, Eq, PartialOrd, Ord)]
pub struct Metadata {
    fields: MetaId,
}

impl Default for Metadata {
    fn default() -> (r: Self)
        ensures
            r.count() == 0,
    {
        Self::new()
    }
}

/// Metadata is told apart by the number of its fields.
pub proof fn lemma_metadata_equal(a: Metadata, b: Metadata)
    requires
        a.count() == b.count(),
    ensures
        a == b,
{
}

impl Metadata {
    /// The number of fields defined so far.
    pub closed spec fn count(self) -> nat {
        self.fields as nat
    }

    /// Defines an empty metadata instance.
    #[must_use]
    pub fn new() -> (r: Self)
        ensures
            r.count() == 0,
    {
        Self { fields: 0 }
    }

    /// Defines a new metadata field, returning the identifier.
    ///
    /// The identifier will always be 1 more than than the previous field, starting from 0.
    pub fn new_field(&mut self) -> (r: MetaId)
        requires
            old(self).count() < usize::MAX,
        ensures
            r == old(self).count(),
            final(self).count() == old(self).count() + 1,
    {
        let field: MetaId = self.fields;
        self.fields = self.fields + 1;
        field
    }

    /// Returns the range of all identifiers.
    ///
    /// This is numerically `0..[len]`.
    #[must_use]
    pub fn iter_fields(&self) -> (r: core::ops::Range<MetaId>)
        ensures
            r.start == 0,
            r.end == self.count(),
    {
        0..self.fields
    }

    /// Checks if metadata is valid.
    ///
    /// Valid metadata is defined as:
    ///
    /// - instantiation must be the same length as compile time definition
    /// - all fields must be multiples of 16 (as of now)
    ///
    /// If valid, return `true`. If any of the above criteria fail, return `false`.
    #[must_use]
    pub fn validate_meta(&self, meta: &[u32]) -> (r: bool)
        ensures
            r == (meta@.len() == self.count() && forall|i: int|
                0 <= i < meta@.len() ==> #[trigger] meta@[i] % 16 == 0),
    {
        if meta.len() != self.fields {
            return false;
        }
        let mut i: usize = 0;
        while i < meta.len()
            invariant
                i <= meta@.len(),
                forall|j: int| 0 <= j < i ==> #[trigger] meta@[j] % 16 == 0,
            decreases meta@.len() - i,
        {
            if meta[i] % 16 != 0 {
                assert(meta@[i as int] % 16 != 0);
                return false;
            }
            i += 1;
        }
        true
    }
}

/// Which dispatch a graph operation can run under.
#[derive(Debug, Clone, Copy, PartialEq, Eq, Structural)]
pub enum DispatchOptions {
    Any,
    ReqRow,
    ReqCol,
}

/// The order of dispatches: `Any` is below the two others, which are not comparable.
pub open spec fn dispatch_order(a: DispatchOptions, b: DispatchOptions) -> Option<Ordering> {
    if a == b {
        Some(Ordering::Equal)
    } else if a == DispatchOptions::Any {
        Some(Ordering::Less)
    } else if b == DispatchOptions::Any {
        Some(Ordering::Greater)
    } else {
        None
    }
}

impl PartialOrd for DispatchOptions {
    fn partial_cmp(&self, other: &Self) -> (r: Option<Ordering>)
        ensures
            r == dispatch_order(*self, *other),
    {
        if *self == *other {
            return Some(Ordering::Equal);
        }
        match (self, other) {
            (Self::Any, _) => Some(Ordering::Less),
            (_, Self::Any) => Some(Ordering::Greater),
            _ => None,
        }
    }

    fn ge(&self, other: &Self) -> (r: bool)
        ensures
            r == (*self == *other),
    {
        *self == *other
    }

    fn gt(&self, other: &Self) -> (r: bool)
        ensures
            r == (*self != DispatchOptions::Any && *other == DispatchOptions::Any),
    {
        *self != Self::Any && *other == Self::Any
    }

    fn le(&self, other: &Self) -> (r: bool)
        ensures
            r == (*self == *other),
    {
        *self == *other
    }

    fn lt(&self, other: &Self) -> (r: bool)
        ensures
            r == (*self == DispatchOptions::Any && *other != DispatchOptions::Any),
    {
        *self == Self::Any && *other != Self::Any
    }
}

impl vstd::std_specs::cmp::PartialOrdSpecImpl for DispatchOptions {
    open spec fn obeys_partial_cmp_spec() -> bool {
        false
    }

    open spec fn partial_cmp_spec(&self, other: &Self) -> Option<Ordering> {
        dispatch_order(*self, *other)
    }
}

/// Names one of the operations that the library can lower and display.
#[derive(Debug, Clone, Copy, Hash, PartialEq, Eq, Structural)]
pub enum OpName {
    Log,
    Tanh,
    Elu,
    Relu,
    Gelu,
    Exp,
    Abs,
    Neg,
    Add,
    Mul,
    Sub,
    Div,
    Matmul,
    Softmax,
}

impl OpName {
    /// Whether the operation stands between two operands.
    pub open spec fn binary(self) -> bool {
        self is Add || self is Mul || self is Sub || self is Div || self is Matmul
    }

    /// The text of the operation on operands of the given shapes.
    pub open spec fn shown(self, sides: Seq<Seq<MetaId>>) -> Seq<char> {
        match self {
            OpName::Log => "log2("@ + listing(sides[0]) + ")"@,
            OpName::Tanh => "tanh("@ + listing(sides[0]) + ")"@,
            OpName::Elu => "ELU("@ + listing(sides[0]) + ")"@,
            OpName::Relu => "ReLU("@ + listing(sides[0]) + ")"@,
            OpName::Gelu => "GELU("@ + listing(sides[0]) + ")"@,
            OpName::Exp => "e^"@ + listing(sides[0]),
            OpName::Abs => "|"@ + listing(sides[0]) + "|"@,
            OpName::Neg => "-"@ + listing(sides[0]),
            OpName::Add => listing(sides[0]) + " + "@ + listing(sides[1]),
            OpName::Mul => listing(sides[0]) + " * "@ + listing(sides[1]),
            OpName::Sub => listing(sides[0]) + " - "@ + listing(sides[1]),
            OpName::Div => listing(sides[0]) + " / "@ + listing(sides[1]),
            OpName::Matmul => listing(sides[0]) + " @ "@ + listing(sides[1]),
            OpName::Softmax => "softmax("@ + listing(sides[0]) + ")"@,
        }
    }

    fn is_binary(self) -> (r: bool)
        ensures
            r == self.binary(),
    {
        matches!(self, OpName::Add | OpName::Mul | OpName::Sub | OpName::Div | OpName::Matmul)
    }

    spec fn before(self) -> &'static str {
        match self {
            OpName::Log => "log2(",
            OpName::Tanh => "tanh(",
            OpName::Elu => "ELU(",
            OpName::Relu => "ReLU(",
            OpName::Gelu => "GELU(",
            OpName::Exp => "e^",
            OpName::Abs => "|",
            OpName::Neg => "-",
            OpName::Softmax => "softmax(",
            _ => "",
        }
    }

    spec fn between(self) -> &'static str {
        match self {
            OpName::Add => " + ",
            OpName::Mul => " * ",
            OpName::Sub => " - ",
            OpName::Div => " / ",
            OpName::Matmul => " @ ",
            _ => "",
        }
    }

    spec fn after(self) -> &'static str {
        match self {
            OpName::Log | OpName::Tanh | OpName::Elu | OpName::Relu | OpName::Gelu
            | OpName::Softmax => ")",
            OpName::Abs => "|",
            _ => "",
        }
    }

    fn opening(self) -> (r: &'static str)
        ensures
            r == self.before(),
    {
        match self {
            OpName::Log => "log2(",
            OpName::Tanh => "tanh(",
            OpName::Elu => "ELU(",
            OpName::Relu => "ReLU(",
            OpName::Gelu => "GELU(",
            OpName::Exp => "e^",
            OpName::Abs => "|",
            OpName::Neg => "-",
            OpName::Softmax => "softmax(",
            _ => "",
        }
    }

    fn infix(self) -> (r: &'static str)
        ensures
            r == self.between(),
    {
        match self {
            OpName::Add => " + ",
            OpName::Mul => " * ",
            OpName::Sub => " - ",
            OpName::Div => " / ",
            OpName::Matmul => " @ ",
            _ => "",
        }
    }

    fn closing(self) -> (r: &'static str)
        ensures
            r == self.after(),
    {
        match self {
            OpName::Log | OpName::Tanh | OpName::Elu | OpName::Relu | OpName::Gelu
            | OpName::Softmax => ")",
            OpName::Abs => "|",
            _ => "",
        }
    }

    /// The text of an operation is its signs around and between the shapes.
    proof fn lemma_signs(self)
        ensures
            forall|sides: Seq<Seq<MetaId>>|
                #[trigger] self.shown(sides) == if self.binary() {
                    self.before()@ + listing(sides[0]) + self.between()@ + listing(sides[1])
                        + self.after()@
                } else {
                    self.before()@ + listing(sides[0]) + self.after()@
                },
    {
        reveal_strlit("");
        assert forall|sides: Seq<Seq<MetaId>>|
            #[trigger] self.shown(sides) == if self.binary() {
                self.before()@ + listing(sides[0]) + self.between()@ + listing(sides[1])
                    + self.after()@
            } else {
                self.before()@ + listing(sides[0]) + self.after()@
            } by {
            if self.binary() {
                assert(self.shown(sides) =~= self.before()@ + listing(sides[0]) + self.between()@
                    + listing(sides[1]) + self.after()@);
            } else {
                assert(self.shown(sides) =~= self.before()@ + listing(sides[0]) + self.after()@);
            }
        }
    }
}

/// Names one of the rules by which a node decides what is saved.
#[derive(Debug, Clone, Copy, Hash, PartialEq, Eq, Structural)]
pub enum SaveRule {
    Nothing,
    Unary,
    Factors,
    Matmul,
    Softmax,
}

/// Names one of the rules by which the shape of a node is checked.
#[derive(Debug, Clone, Copy, Hash, PartialEq, Eq, Structural)]
pub enum ShapeRule {
    Unary,
    Binary,
    Matmul,
    Softmax,
}

/// A linear operation in an execution graph.
///
/// This treats the name of a lowering as a unique identifier.
#[non_exhaustive]
#[derive(Debug, Clone, Copy)]
pub enum GraphOp {
    Input,
    ConstF32(Float32),
    Custom {
        lower: OpName,
        display: OpName,
        save: SaveRule,
        valid_shape: ShapeRule,
        arity: u8,
        need_dims: bool,
        stable_iter: bool,
        auto_save: bool,
        computes_gid: bool,
        prefer_separate: bool,
        valid_dispatch: DispatchOptions,
    },
}

impl PartialEq for GraphOp {
    fn eq(&self, other: &Self) -> (r: bool) {
        self.is_same(other)
    }
}

impl vstd::std_specs::cmp::PartialEqSpecImpl for GraphOp {
    open spec fn obeys_eq_spec() -> bool {
        true
    }

    open spec fn eq_spec(&self, other: &Self) -> bool {
        self.same(*other)
    }
}

impl GraphOp {
    /// Whether there are enough shapes to show the operation with.
    pub open spec fn showable(self, sides: nat) -> bool {
        self matches GraphOp::Custom { display, .. } ==> sides >= if display.binary() {
            2nat
        } else {
            1nat
        }
    }

    /// The text of the operation on operands of the given shapes.
    pub open spec fn shown(self, sides: Seq<Seq<MetaId>>) -> Seq<char> {
        match self {
            GraphOp::Custom { display, .. } => display.shown(sides),
            _ => Seq::empty(),
        }
    }

    /// Whether two operations are the same: two inputs, equal constants, or the same lowering.
    pub open spec fn same(self, other: GraphOp) -> bool {
        match (self, other) {
            (GraphOp::Input, GraphOp::Input) => true,
            (GraphOp::ConstF32(a), GraphOp::ConstF32(b)) => a.same_number(b),
            (
                GraphOp::Custom { lower: a, .. },
                GraphOp::Custom { lower: b, .. },
            ) => a == b,
            _ => false,
        }
    }

    /// Whether two operations are the same: two inputs, equal constants, or the same lowering.
    #[must_use]
    pub fn is_same(&self, other: &Self) -> (r: bool)
        ensures
            r == self.same(*other),
    {
        match (self, other) {
            (Self::Input, Self::Input) => true,
            (Self::ConstF32(a), Self::ConstF32(b)) => a.is_same_number(b),
            (Self::Custom { lower: a, .. }, Self::Custom { lower: b, .. }) => *a == *b,
            _ => false,
        }
    }

    /// Whether the operation works element by element: a custom one that needs no dimensions.
    pub open spec fn elementwise(self) -> bool {
        self matches GraphOp::Custom { need_dims, .. } && !need_dims
    }

    /// Whether the operation changes the iteration space.
    pub open spec fn transform(self) -> bool {
        self matches GraphOp::Custom { stable_iter, .. } && !stable_iter
    }

    /// Whether the operation is a leaf: an input or a constant.
    pub open spec fn leaf(self) -> bool {
        !(self is Custom)
    }

    /// Whether the result is stored by the pass that computes it.
    pub open spec fn auto_saved(self) -> bool {
        self matches GraphOp::Custom { auto_save, .. } && auto_save
    }

    /// Whether the operation computes one element per thread.
    pub open spec fn computed_gid(self) -> bool {
        self matches GraphOp::Custom { computes_gid, .. } && computes_gid
    }

    /// Whether the operation is better off in a kernel of its own.
    pub open spec fn separate(self) -> bool {
        self matches GraphOp::Custom { prefer_separate, .. } && prefer_separate
    }

    /// Whether the operation needs the dimensions of its inputs.
    pub open spec fn dims_needed(self) -> bool {
        self matches GraphOp::Custom { need_dims, .. } && need_dims
    }

    /// The dispatch that the operation requires; `Any` for a leaf.
    pub open spec fn dispatch(self) -> DispatchOptions {
        match self {
            GraphOp::Custom { valid_dispatch, .. } => valid_dispatch,
            _ => DispatchOptions::Any,
        }
    }

    #[must_use]
    pub fn is_elementwise(&self) -> (r: bool)
        ensures
            r == self.elementwise(),
    {
        match self {
            Self::Custom { need_dims, .. } => !*need_dims,
            _ => false,
        }
    }

    #[must_use]
    pub fn is_transform(&self) -> (r: bool)
        ensures
            r == self.transform(),
    {
        match self {
            Self::Custom { stable_iter, .. } => !*stable_iter,
            _ => false,
        }
    }

    #[must_use]
    pub fn is_leaf(&self) -> (r: bool)
        ensures
            r == self.leaf(),
            r == (*self is Input || *self is ConstF32),
    {
        matches!(self, Self::Input | Self::ConstF32(_))
    }

    #[must_use]
    pub fn is_const(&self) -> (r: bool)
        ensures
            r == (*self is ConstF32),
    {
        matches!(self, Self::ConstF32(_))
    }

    #[must_use]
    pub fn is_input(&self) -> (r: bool)
        ensures
            r == (*self is Input),
    {
        matches!(self, Self::Input)
    }

    #[must_use]
    pub fn is_auto_save(&self) -> (r: bool)
        ensures
            r == self.auto_saved(),
    {
        match self {
            Self::Custom { auto_save, .. } => *auto_save,
            _ => false,
        }
    }

    #[must_use]
    pub fn is_compute_gid(&self) -> (r: bool)
        ensures
            r == self.computed_gid(),
    {
        match self {
            Self::Custom { computes_gid, .. } => *computes_gid,
            _ => false,
        }
    }

    #[must_use]
    pub fn is_prefer_separate(&self) -> (r: bool)
        ensures
            r == self.separate(),
    {
        match self {
            Self::Custom { prefer_separate, .. } => *prefer_separate,
            _ => false,
        }
    }

    #[must_use]
    pub fn is_need_dims(&self) -> (r: bool)
        ensures
            r == self.dims_needed(),
    {
        match self {
            Self::Custom { need_dims, .. } => *need_dims,
            _ => false,
        }
    }

    #[must_use]
    pub fn valid_dispatch(&self) -> (r: DispatchOptions)
        ensures
            r == self.dispatch(),
    {
        match self {
            Self::Custom { valid_dispatch, .. } => *valid_dispatch,
            _ => DispatchOptions::Any,
        }
    }

    /// Whether there are enough shapes to show the operation with.
    pub fn is_showable(&self, sides: usize) -> (r: bool)
        ensures
            r == self.showable(sides as nat),
    {
        match self {
            Self::Custom { display, .. } => sides >= 2 || (sides == 1 && !display.is_binary()),
            _ => true,
        }
    }

    /// Shows the operation with the given shapes in place of its operands.
    #[must_use]
    pub fn debug(&self, all_hand_sides: &[Vec<MetaId>]) -> (r: String)
        requires
            self.showable(all_hand_sides@.len()),
        ensures
            r@ == self.shown(lists(all_hand_sides@)),
    {
        let mut out = String::new();
        if let Self::Custom { display, .. } = self {
            out.append(display.opening());
            push_listing(&mut out, &all_hand_sides[0]);
            if display.is_binary() {
                out.append(display.infix());
                push_listing(&mut out, &all_hand_sides[1]);
            }
            out.append(display.closing());
            proof {
                display.lemma_signs();
            }
            assert(out@ == self.shown(lists(all_hand_sides@)));
        }
        out
    }

    #[must_use]
    pub fn arity(&self) -> (r: u8)
        ensures
            r == match *self {
                GraphOp::Custom { arity, .. } => arity,
                _ => 0,
            },
    {
        match self {
            Self::Custom { arity, .. } => *arity,
            _ => 0,
        }
    }
}

} // verus!
