//! Core data model: node identifiers, node kinds, metadata and operations.

use vstd::prelude::*;

verus! {

/// Opaque 32-bit index into the registry. Stable for the lifetime of the
/// registry: nodes are never removed, so an id never changes meaning.
#[derive(Debug, Clone, Copy, PartialEq, Eq, Hash, PartialOrd, Ord, Default, Structural)]
pub struct NodeId(pub u32);

impl NodeId {
    pub fn index(&self) -> (i: usize)
        ensures
            i == self.0 as usize,
    {
        self.0 as usize
    }

    /// Builds an id from a registry index.
    pub fn new(idx: usize) -> (r: Self)
        requires
            idx <= u32::MAX as usize,
        ensures
            r.0 == idx,
    {
        NodeId(idx as u32)
    }
}

/// Whether a variable is measured at a point in time (a balance) or over an
/// interval (a revenue for a period).
#[derive(Debug, Clone, Copy, PartialEq, Eq, Hash, Structural)]
pub enum TemporalType {
    Stock,
    Flow,
}

/// A unit expression as written by the user, e.g. `kg*m/s^2`.
#[derive(Debug, Clone, PartialEq, Eq, Hash)]
pub struct Unit(pub String);

/// Per-node metadata: a registry-unique name plus optional declared unit and
/// temporal type.
#[derive(Debug, Clone, Default, PartialEq, Eq)]
pub struct NodeMetadata {
    pub name: String,
    pub temporal_type: Option<TemporalType>,
    pub unit: Option<Unit>,
}

/// The binary operation of a formula node.
#[derive(Debug, Clone, Copy, PartialEq, Eq, Structural)]
pub enum Operation {
    Add,
    Subtract,
    Multiply,
    Divide,
    /// A time-series lag: the first parent supplies the shifted values, the
    /// `default_node` parent fills the first `lag` periods.
    PreviousValue { lag: u32, default_node: NodeId },
}

/// The columnar registry's tagged node variant. A scalar constant stores its
/// 64-bit IEEE-754 bit pattern inline; a time series stores an index into the
/// registry's series table.
#[derive(Debug, Clone, Copy, PartialEq, Eq, Structural)]
pub enum NodeKind {
    /// Bit pattern of a single 64-bit float, stored inline.
    Scalar(u64),
    /// Index into the registry's `constants_data` table.
    TimeSeries(u32),
    Formula(Operation),
    SolverVariable,
}

/// A self-contained view of one node, for callers that want the kind,
/// parents and metadata in a single value.
#[derive(Debug, Clone, PartialEq)]
pub enum Node {
    Constant { meta: NodeMetadata },
    Formula { op: Operation, parents: Vec<NodeId>, meta: NodeMetadata },
    SolverVariable { meta: NodeMetadata, is_temporal_dependency: bool },
}

impl Node {
    pub fn meta(&self) -> (m: &NodeMetadata)
        ensures
            m == match self {
                Node::Constant { meta } => meta,
                Node::Formula { meta, .. } => meta,
                Node::SolverVariable { meta, .. } => meta,
            },
    {
        match self {
            Node::Constant { meta } => meta,
            Node::Formula { meta, .. } => meta,
            Node::SolverVariable { meta, .. } => meta,
        }
    }
}

/// The semantic flavour of a dependency edge.
#[derive(Debug, Clone, Copy, PartialEq, Eq, Hash, Structural)]
pub enum Edge {
    /// A standard arithmetic dependency, as in `C = A + B`.
    Arithmetic,
    /// A dependency on a previous time step of another node.
    Temporal,
    /// A dependency that supplies the default value of a lag operation.
    DefaultValue,
}

} // verus!
