//! Errors, and the text they are shown with.

use vstd::prelude::*;

use crate::dispatch::backend::{GraphOp, MetaId, NodeId};
use crate::text::{decimal, listing, push_index, push_listing};

verus! {

/// An error: a message, its kind, and a context.
#[derive(Debug, Clone)]
pub struct Error<C = ()> {
    pub msg: &'static str,
    pub kind: ErrorKind,
    pub ctx: C,
}

/// The kinds of errors.
#[non_exhaustive]
#[derive(Debug, Clone, Copy, PartialEq, Eq, Structural)]
pub enum ErrorKind {
    /// An environment was not properly setup before use.
    EnvNotSet,
    /// A particular threshold was exceeded.
    LimitsExceeded,
    /// A feature was used that isn't supported.
    UnsupportedFeature,
    /// GPU adapter not found.
    AdapterNotFound,
    /// GPU device not found.
    DeviceNotFound,
    /// Kernel IR could not load input.
    ParamNotMaterialized,
    /// A graph without nodes.
    GraphEmpty,
    /// A data type that does not fit.
    InvalidDType,
    /// An input that could not be resolved.
    UnresolvedInput,
    /// An output that could not be resolved.
    UnresolvedOutput,
    /// An argument out of range.
    InvalidArgument,
    /// A graph that is structurally wrong.
    ComputeGraphError,
    /// A buffer that could not be copied.
    FailedDownload,
}

/// What is wrong with a graph, and where.
#[derive(Debug, Clone)]
#[allow(inconsistent_fields)]
pub enum GraphErrorContext {
    CycleDetected { node: NodeId, path: Vec<NodeId> },
    InvalidInputs { node: NodeId, arity: usize, args: usize },
    MissingInput { node: NodeId, input: NodeId },
    ShapeMismatch { node: NodeId, all_hand_sides: Vec<Vec<MetaId>>, op: GraphOp },
    RankMismatch { node: NodeId, all_hand_sides: Vec<usize> },
    InvalidAxis { node: NodeId, axis: usize, rank: usize },
    MissingMetadata { node: NodeId, meta: MetaId },
    LowRank { node: NodeId, rank: usize, required: usize },
    CannotInferShape { node: NodeId, all_hand_sides: Vec<Vec<MetaId>>, op: GraphOp },
}

/// The contents of a [`GraphErrorContext`].
#[allow(inconsistent_fields)]
pub enum Fault {
    CycleDetected { node: NodeId, path: Seq<NodeId> },
    InvalidInputs { node: NodeId, arity: usize, args: usize },
    MissingInput { node: NodeId, input: NodeId },
    ShapeMismatch { node: NodeId, sides: Seq<Seq<MetaId>>, op: GraphOp },
    RankMismatch { node: NodeId, sides: Seq<usize> },
    InvalidAxis { node: NodeId, axis: usize, rank: usize },
    MissingMetadata { node: NodeId, meta: MetaId },
    LowRank { node: NodeId, rank: usize, required: usize },
    CannotInferShape { node: NodeId, sides: Seq<Seq<MetaId>>, op: GraphOp },
}

/// The contents of a list of lists.
pub open spec fn lists(v: Seq<Vec<usize>>) -> Seq<Seq<usize>> {
    Seq::new(v.len(), |i: int| v[i]@)
}

impl View for GraphErrorContext {
    type V = Fault;

    open spec fn view(&self) -> Fault {
        match *self {
            Self::CycleDetected { node, path } => Fault::CycleDetected { node, path: path@ },
            Self::InvalidInputs { node, arity, args } => Fault::InvalidInputs { node, arity, args },
            Self::MissingInput { node, input } => Fault::MissingInput { node, input },
            Self::ShapeMismatch { node, all_hand_sides, op } => Fault::ShapeMismatch {
                node,
                sides: lists(all_hand_sides@),
                op,
            },
            Self::RankMismatch { node, all_hand_sides } => Fault::RankMismatch {
                node,
                sides: all_hand_sides@,
            },
            Self::InvalidAxis { node, axis, rank } => Fault::InvalidAxis { node, axis, rank },
            Self::MissingMetadata { node, meta } => Fault::MissingMetadata { node, meta },
            Self::LowRank { node, rank, required } => Fault::LowRank { node, rank, required },
            Self::CannotInferShape { node, all_hand_sides, op } => Fault::CannotInferShape {
                node,
                sides: lists(all_hand_sides@),
                op,
            },
        }
    }
}

impl View for Error<GraphErrorContext> {
    type V = Error<Fault>;

    open spec fn view(&self) -> Error<Fault> {
        Error { msg: self.msg, kind: self.kind, ctx: self.ctx@ }
    }
}

/// An error about a graph, with the given message.
pub open spec fn graph_error(msg: &'static str, fault: Fault) -> Error<Fault> {
    Error { msg, kind: ErrorKind::ComputeGraphError, ctx: fault }
}

/// The contents of a list of graph errors.
pub open spec fn faults(v: Seq<Error<GraphErrorContext>>) -> Seq<Error<Fault>> {
    Seq::new(v.len(), |i: int| v[i]@)
}

impl ErrorKind {
    /// The text of a kind of error.
    pub open spec fn words(self) -> &'static str {
        match self {
            ErrorKind::EnvNotSet => "environment not set",
            ErrorKind::LimitsExceeded => "GPU limits exceeded",
            ErrorKind::UnsupportedFeature => "unsupported feature",
            ErrorKind::AdapterNotFound => "adapter not found",
            ErrorKind::DeviceNotFound => "device not found",
            ErrorKind::ParamNotMaterialized => "param not materialized",
            ErrorKind::GraphEmpty => "graph empty",
            ErrorKind::InvalidDType => "invalid data type",
            ErrorKind::UnresolvedInput => "unresolved input",
            ErrorKind::UnresolvedOutput => "unresolved output",
            ErrorKind::InvalidArgument => "invalid argument",
            ErrorKind::ComputeGraphError => "compute graph error",
            ErrorKind::FailedDownload => "failed GPU buffer download",
        }
    }

    /// Shows the kind.
    pub fn text(&self) -> (r: &'static str)
        ensures
            r == self.words(),
    {
        match self {
            ErrorKind::EnvNotSet => "environment not set",
            ErrorKind::LimitsExceeded => "GPU limits exceeded",
            ErrorKind::UnsupportedFeature => "unsupported feature",
            ErrorKind::AdapterNotFound => "adapter not found",
            ErrorKind::DeviceNotFound => "device not found",
            ErrorKind::ParamNotMaterialized => "param not materialized",
            ErrorKind::GraphEmpty => "graph empty",
            ErrorKind::InvalidDType => "invalid data type",
            ErrorKind::UnresolvedInput => "unresolved input",
            ErrorKind::UnresolvedOutput => "unresolved output",
            ErrorKind::InvalidArgument => "invalid argument",
            ErrorKind::ComputeGraphError => "compute graph error",
            ErrorKind::FailedDownload => "failed GPU buffer download",
        }
    }
}

impl Error {
    /// Shows the error: its kind and its message.
    pub fn text(&self) -> (r: String)
        ensures
            r@ == self.kind.words()@ + ": "@ + self.msg@,
    {
        let mut out = String::new();
        out.append(self.kind.text());
        out.append(": ");
        out.append(self.msg);
        assert(out@ =~= self.kind.words()@ + ": "@ + self.msg@);
        out
    }
}

impl Error<GraphErrorContext> {
    /// Shows the error: its message and what is wrong with the graph.
    pub fn text(&self) -> (r: String)
        requires
            self.ctx@.showable(),
        ensures
            r@ == self.msg@ + ": "@ + self.ctx@.words(),
    {
        let mut out = String::new();
        out.append(self.msg);
        out.append(": ");
        self.ctx.push_text(&mut out);
        assert(out@ =~= self.msg@ + ": "@ + self.ctx@.words());
        out
    }
}

/// The first ranks of a list, after the first of them with an equality sign before each.
pub open spec fn chained(ranks: Seq<usize>, n: nat) -> Seq<char>
    decreases n,
{
    if n == 0 {
        Seq::empty()
    } else if n == 1 {
        decimal(ranks[0] as nat)
    } else {
        chained(ranks, (n - 1) as nat) + "== "@ + decimal(ranks[n - 1] as nat)
    }
}

impl Fault {
    /// Whether the operation has the shapes that it is shown with, and a rank mismatch has a rank.
    pub open spec fn showable(self) -> bool {
        match self {
            Fault::ShapeMismatch { sides, op, .. } => op.showable(sides.len()),
            Fault::CannotInferShape { sides, op, .. } => op.showable(sides.len()),
            Fault::RankMismatch { sides, .. } => sides.len() > 0,
            _ => true,
        }
    }

    /// The text of what is wrong.
    pub open spec fn words(self) -> Seq<char> {
        match self {
            Fault::CycleDetected { node, path } => "cycle detected at node "@ + decimal(node as nat)
                + " following "@ + listing(path),
            Fault::InvalidAxis { node, axis, rank } => "invalid axis "@ + decimal(axis as nat)
                + " for rank of "@ + decimal(rank as nat) + " at node "@ + decimal(node as nat),
            Fault::InvalidInputs { node, arity, args } => "invalid input count "@ + decimal(
                args as nat,
            ) + " for arity of "@ + decimal(arity as nat) + " at node "@ + decimal(node as nat),
            Fault::MissingInput { node, input } => "missing input at node "@ + decimal(node as nat)
                + " on input node "@ + decimal(input as nat),
            Fault::MissingMetadata { node, meta } => "missing metadata at node "@ + decimal(
                node as nat,
            ) + " on field f"@ + decimal(meta as nat),
            Fault::ShapeMismatch { node, sides, op } => "shape mismatch at node "@ + decimal(
                node as nat,
            ) + " "@ + op.shown(sides),
            Fault::RankMismatch { node, sides } => "rank mismatch at node "@ + decimal(node as nat)
                + chained(sides, sides.len()),
            Fault::LowRank { node, rank, required } => "rank too low at node "@ + decimal(
                node as nat,
            ) + " ("@ + decimal(rank as nat) + " >= "@ + decimal(required as nat) + ")"@,
            Fault::CannotInferShape { node, sides, op } => "cannot infer shape of node "@ + decimal(
                node as nat,
            ) + " with op "@ + op.shown(sides),
        }
    }
}

fn push_chained(out: &mut String, ranks: &Vec<usize>)
    ensures
        final(out)@ == old(out)@ + chained(ranks@, ranks@.len()),
{
    let mut i: usize = 0;
    while i < ranks.len()
        invariant
            i <= ranks@.len(),
            out@ =~= old(out)@ + chained(ranks@, i as nat),
        decreases ranks@.len() - i,
    {
        if i > 0 {
            out.append("== ");
        }
        push_index(out, ranks[i]);
        i += 1;
    }
}

impl GraphErrorContext {
    fn push_text(&self, out: &mut String)
        requires
            self@.showable(),
        ensures
            final(out)@ == old(out)@ + self@.words(),
    {
        match self {
            Self::CycleDetected { node, path } => {
                out.append("cycle detected at node ");
                push_index(out, *node);
                out.append(" following ");
                push_listing(out, path);
            },
            Self::InvalidAxis { node, axis, rank } => {
                out.append("invalid axis ");
                push_index(out, *axis);
                out.append(" for rank of ");
                push_index(out, *rank);
                out.append(" at node ");
                push_index(out, *node);
            },
            Self::InvalidInputs { node, arity, args } => {
                out.append("invalid input count ");
                push_index(out, *args);
                out.append(" for arity of ");
                push_index(out, *arity);
                out.append(" at node ");
                push_index(out, *node);
            },
            Self::MissingInput { node, input } => {
                out.append("missing input at node ");
                push_index(out, *node);
                out.append(" on input node ");
                push_index(out, *input);
            },
            Self::MissingMetadata { node, meta } => {
                out.append("missing metadata at node ");
                push_index(out, *node);
                out.append(" on field f");
                push_index(out, *meta);
            },
            Self::ShapeMismatch { node, all_hand_sides, op } => {
                out.append("shape mismatch at node ");
                push_index(out, *node);
                out.append(" ");
                let shown = op.debug(all_hand_sides.as_slice());
                out.append(shown.as_str());
            },
            Self::RankMismatch { node, all_hand_sides } => {
                out.append("rank mismatch at node ");
                push_index(out, *node);
                push_chained(out, all_hand_sides);
            },
            Self::LowRank { node, rank, required } => {
                out.append("rank too low at node ");
                push_index(out, *node);
                out.append(" (");
                push_index(out, *rank);
                out.append(" >= ");
                push_index(out, *required);
                out.append(")");
            },
            Self::CannotInferShape { node, all_hand_sides, op } => {
                out.append("cannot infer shape of node ");
                push_index(out, *node);
                out.append(" with op ");
                let shown = op.debug(all_hand_sides.as_slice());
                out.append(shown.as_str());
            },
        }
        assert(out@ =~= old(out)@ + self@.words());
    }

    /// Whether the operation has the shapes that it is shown with, and a rank mismatch has a rank.
    pub fn is_showable(&self) -> (r: bool)
        ensures
            r == self@.showable(),
    {
        match self {
            Self::ShapeMismatch { all_hand_sides, op, .. } => op.is_showable(all_hand_sides.len()),
            Self::CannotInferShape { all_hand_sides, op, .. } => op.is_showable(
                all_hand_sides.len(),
            ),
            Self::RankMismatch { all_hand_sides, .. } => all_hand_sides.len() > 0,
            _ => true,
        }
    }

    /// Shows what is wrong with the graph.
    pub fn text(&self) -> (r: String)
        requires
            self@.showable(),
        ensures
            r@ == self@.words(),
    {
        let mut out = String::new();
        self.push_text(&mut out);
        assert(out@ =~= self@.words());
        out
    }
}

} // verus!
