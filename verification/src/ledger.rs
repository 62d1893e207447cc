//! The ledger: a dense per-node cache of computed values and errors.
//!
//! Cells are kept in a structure-of-arrays layout — an inline scalar slot,
//! an optional owned series, a status byte and an optional error per node.
//! Numeric values are 64-bit IEEE-754 bit patterns. Invalidation resets
//! statuses without freeing storage, which makes incremental recomputation
//! cheap.

use vstd::prelude::*;
use crate::types::NodeId;

verus! {

/// An element-for-element copy of a bit-pattern vector.
pub(crate) fn clone_bits(v: &Vec<u64>) -> (r: Vec<u64>)
    ensures
        r@ == v@,
{
    let mut out: Vec<u64> = Vec::new();
    let n = v.len();
    let mut i: usize = 0;
    while i < n
        invariant
            0 <= i <= n,
            n == v@.len(),
            out@ =~= v@.take(i as int),
        decreases n - i,
    {
        out.push(v[i]);
        proof {
            assert(out@ =~= v@.take(i + 1));
        }
        i = i + 1;
    }
    proof {
        assert(v@.take(n as int) =~= v@);
    }
    out
}

/// An error recorded for one node, or ending a whole computation.
#[derive(Debug, PartialEq)]
pub enum ComputationError {
    /// A division whose divisor row contains a zero.
    DivisionByZero { node_id: NodeId, node_name: String },
    /// A parent of this node failed, so its operation was not attempted.
    Upstream { node_id: NodeId, node_name: String, parent_id: NodeId, parent_name: String },
    /// A binary formula with other than two parents.
    ParentCountMismatch { node_id: NodeId, node_name: String, expected: usize, actual: usize },
    /// The ledger layout does not fit the program.
    Mismatch { msg: String },
    CycleDetected,
    SolverDidNotConverge(String),
    SolverConfiguration(String),
}

impl Clone for ComputationError {
    fn clone(&self) -> (r: Self)
        ensures
            r == *self,
    {
        match self {
            ComputationError::DivisionByZero { node_id, node_name } =>
                ComputationError::DivisionByZero {
                    node_id: *node_id,
                    node_name: node_name.clone(),
                },
            ComputationError::Upstream { node_id, node_name, parent_id, parent_name } =>
                ComputationError::Upstream {
                    node_id: *node_id,
                    node_name: node_name.clone(),
                    parent_id: *parent_id,
                    parent_name: parent_name.clone(),
                },
            ComputationError::ParentCountMismatch { node_id, node_name, expected, actual } =>
                ComputationError::ParentCountMismatch {
                    node_id: *node_id,
                    node_name: node_name.clone(),
                    expected: *expected,
                    actual: *actual,
                },
            ComputationError::Mismatch { msg } => ComputationError::Mismatch { msg: msg.clone() },
            ComputationError::CycleDetected => ComputationError::CycleDetected,
            ComputationError::SolverDidNotConverge(m) =>
                ComputationError::SolverDidNotConverge(m.clone()),
            ComputationError::SolverConfiguration(m) =>
                ComputationError::SolverConfiguration(m.clone()),
        }
    }
}

/// One captured solver iteration: the objective and infeasibilities are
/// 64-bit float bit patterns.
#[derive(Debug, Clone, Copy, PartialEq, Eq, Structural)]
pub struct SolverIteration {
    pub iter_count: i32,
    pub obj_value: u64,
    pub inf_pr: u64,
    pub inf_du: u64,
}

/// The atomic unit of data: a single value or an owned series, both as
/// 64-bit float bit patterns.
#[derive(Debug)]
pub enum Value {
    Scalar(u64),
    Series(Vec<u64>),
}

/// The width of a value: a scalar counts as one period.
pub open spec fn val_len(v: &Value) -> int {
    match v {
        Value::Scalar(_) => 1,
        Value::Series(s) => s@.len() as int,
    }
}

/// The value at time step `i`, broadcasting: a scalar repeats, a shorter
/// series extends its last element, an empty series reads as zero.
pub open spec fn val_at(v: &Value, i: int) -> u64 {
    match v {
        Value::Scalar(x) => *x,
        Value::Series(s) => if s@.len() == 0 {
            0
        } else if i < s@.len() {
            s@[i]
        } else {
            s@[s@.len() - 1]
        },
    }
}

impl Clone for Value {
    fn clone(&self) -> (r: Self)
        ensures
            match self {
                Value::Scalar(x) => r == Value::Scalar(*x),
                Value::Series(s) => r matches Value::Series(c) && c@ == s@,
            },
    {
        match self {
            Value::Scalar(x) => Value::Scalar(*x),
            Value::Series(s) => Value::Series(clone_bits(s)),
        }
    }
}

impl Value {
    /// The number of time steps this value spans.
    pub fn len(&self) -> (r: usize)
        ensures
            r == val_len(self),
    {
        match self {
            Value::Scalar(_) => 1,
            Value::Series(s) => s.len(),
        }
    }

    /// Width plus whether the value is a scalar.
    pub fn shape(&self) -> (r: (usize, bool))
        ensures
            r.0 == val_len(self),
            r.1 == (self is Scalar),
    {
        match self {
            Value::Scalar(_) => (1, true),
            Value::Series(s) => (s.len(), false),
        }
    }

    /// Reads time step `i` with broadcasting.
    pub fn get_at(&self, i: usize) -> (r: u64)
        ensures
            r == val_at(self, i as int),
    {
        match self {
            Value::Scalar(x) => *x,
            Value::Series(s) => {
                let n = s.len();
                if n == 0 {
                    0
                } else if i < n {
                    s[i]
                } else {
                    s[n - 1]
                }
            },
        }
    }

    /// The scalar payload; zero for a series.
    pub fn as_scalar_unchecked(&self) -> (r: u64)
        ensures
            r == match self { Value::Scalar(x) => *x, Value::Series(_) => 0u64 },
    {
        match self {
            Value::Scalar(x) => *x,
            Value::Series(_) => 0,
        }
    }

    /// The value as an owned vector; a scalar becomes a one-element vector.
    pub fn to_vec(&self) -> (r: Vec<u64>)
        ensures
            r@ == match self { Value::Scalar(x) => seq![*x], Value::Series(s) => s@ },
    {
        match self {
            Value::Scalar(x) => {
                let mut v: Vec<u64> = Vec::new();
                v.push(*x);
                proof {
                    assert(v@ =~= seq![*x]);
                }
                v
            },
            Value::Series(s) => clone_bits(s),
        }
    }
}

/// The state of one ledger cell.
#[derive(Debug, Clone, Copy, PartialEq, Eq, Structural)]
pub enum NodeStatus {
    Uncomputed,
    ComputedScalar,
    ComputedSeries,
    Error,
}

/// The dense per-node value cache in a structure-of-arrays layout.
#[derive(Debug)]
pub struct Ledger {
    /// Inline scalar results (float bit patterns).
    pub scalars: Vec<u64>,
    /// Series results, present exactly for `ComputedSeries` cells.
    pub series: Vec<Option<Vec<u64>>>,
    /// The state of every cell.
    pub status: Vec<NodeStatus>,
    /// Errors, present exactly for `Error` cells.
    pub errors: Vec<Option<ComputationError>>,
    /// The iteration history of the last solve, if any.
    pub solver_trace: Option<Vec<SolverIteration>>,
}

impl Ledger {
    /// All four columns aligned, with payloads present where the status
    /// requires them.
    pub open spec fn wf(&self) -> bool {
        &&& self.scalars@.len() == self.status@.len()
        &&& self.series@.len() == self.status@.len()
        &&& self.errors@.len() == self.status@.len()
        &&& forall|i: int| 0 <= i < self.status@.len()
            ==> (#[trigger] self.status@[i] == NodeStatus::ComputedSeries
                ==> self.series@[i] is Some)
        &&& forall|i: int| 0 <= i < self.status@.len()
            ==> (#[trigger] self.status@[i] == NodeStatus::Error ==> self.errors@[i] is Some)
    }

    /// The number of cells.
    pub open spec fn cells(&self) -> int {
        self.status@.len() as int
    }

    /// Whether cell `i` holds a result or error.
    pub open spec fn is_set(&self, i: int) -> bool {
        0 <= i < self.cells() && self.status@[i] != NodeStatus::Uncomputed
    }

    /// An empty ledger.
    pub fn new() -> (r: Self)
        ensures
            r.wf(),
            r.cells() == 0,
            r.solver_trace is None,
    {
        Ledger {
            scalars: Vec::new(),
            series: Vec::new(),
            status: Vec::new(),
            errors: Vec::new(),
            solver_trace: None,
        }
    }

    /// Grows the cell arrays to at least `size`, new cells uncomputed.
    /// Existing cells keep their contents.
    pub fn ensure_capacity(&mut self, size: usize)
        requires
            old(self).wf(),
        ensures
            final(self).wf(),
            final(self).cells() >= size,
            final(self).cells() >= old(self).cells(),
            final(self).cells() == (if old(self).cells() >= size { old(self).cells() } else {
                size as int
            }),
            forall|i: int| 0 <= i < old(self).cells()
                ==> #[trigger] final(self).status@[i] == old(self).status@[i]
                    && final(self).scalars@[i] == old(self).scalars@[i]
                    && final(self).series@[i] == old(self).series@[i]
                    && final(self).errors@[i] == old(self).errors@[i],
            forall|i: int| old(self).cells() <= i < final(self).cells()
                ==> #[trigger] final(self).status@[i] == NodeStatus::Uncomputed,
            final(self).solver_trace == old(self).solver_trace,
    {
        while self.status.len() < size
            invariant
                self.wf(),
                self.cells() >= old(self).cells(),
                old(self).cells() < size ==> self.cells() <= size,
                old(self).cells() >= size ==> self.cells() == old(self).cells(),
                forall|i: int| 0 <= i < old(self).cells()
                    ==> #[trigger] self.status@[i] == old(self).status@[i]
                        && self.scalars@[i] == old(self).scalars@[i]
                        && self.series@[i] == old(self).series@[i]
                        && self.errors@[i] == old(self).errors@[i],
                forall|i: int| old(self).cells() <= i < self.cells()
                    ==> #[trigger] self.status@[i] == NodeStatus::Uncomputed,
                self.solver_trace == old(self).solver_trace,
            decreases size - self.status.len(),
        {
            self.scalars.push(0);
            self.series.push(None);
            self.status.push(NodeStatus::Uncomputed);
            self.errors.push(None);
        }
    }

    /// Writes a scalar result into an existing cell.
    pub fn set_scalar(&mut self, id: NodeId, val: u64)
        requires
            old(self).wf(),
            (id.0 as int) < old(self).cells(),
        ensures
            final(self).wf(),
            final(self).cells() == old(self).cells(),
            final(self).status@ == old(self).status@.update(
                id.0 as int, NodeStatus::ComputedScalar),
            final(self).scalars@ == old(self).scalars@.update(id.0 as int, val),
            final(self).series == old(self).series,
            final(self).errors == old(self).errors,
            final(self).solver_trace == old(self).solver_trace,
    {
        let idx = id.index();
        self.scalars.set(idx, val);
        self.status.set(idx, NodeStatus::ComputedScalar);
    }

    /// Writes a series result into an existing cell.
    pub fn set_series(&mut self, id: NodeId, val: Vec<u64>)
        requires
            old(self).wf(),
            (id.0 as int) < old(self).cells(),
        ensures
            final(self).wf(),
            final(self).cells() == old(self).cells(),
            final(self).status@ == old(self).status@.update(
                id.0 as int, NodeStatus::ComputedSeries),
            final(self).series@ == old(self).series@.update(id.0 as int, Some(val)),
            final(self).scalars == old(self).scalars,
            final(self).errors == old(self).errors,
            final(self).solver_trace == old(self).solver_trace,
    {
        let idx = id.index();
        self.series.set(idx, Some(val));
        self.status.set(idx, NodeStatus::ComputedSeries);
    }

    /// Records an error for an existing cell.
    pub fn set_error(&mut self, id: NodeId, err: ComputationError)
        requires
            old(self).wf(),
            (id.0 as int) < old(self).cells(),
        ensures
            final(self).wf(),
            final(self).cells() == old(self).cells(),
            final(self).status@ == old(self).status@.update(id.0 as int, NodeStatus::Error),
            final(self).errors@ == old(self).errors@.update(id.0 as int, Some(err)),
            final(self).scalars == old(self).scalars,
            final(self).series == old(self).series,
            final(self).solver_trace == old(self).solver_trace,
    {
        let idx = id.index();
        self.errors.set(idx, Some(err));
        self.status.set(idx, NodeStatus::Error);
    }

    /// Stores a result, growing the ledger if the id is beyond its end.
    pub fn insert(&mut self, id: NodeId, result: Result<Value, ComputationError>)
        requires
            old(self).wf(),
            id.0 < 0xFFFF_FFFF,
        ensures
            final(self).wf(),
            final(self).cells() >= old(self).cells(),
            (id.0 as int) < final(self).cells(),
            forall|i: int| 0 <= i < old(self).cells() && i != id.0 as int
                ==> #[trigger] final(self).status@[i] == old(self).status@[i]
                    && final(self).scalars@[i] == old(self).scalars@[i]
                    && final(self).series@[i] == old(self).series@[i]
                    && final(self).errors@[i] == old(self).errors@[i],
            match result {
                Ok(Value::Scalar(x)) => final(self).status@[id.0 as int]
                    == NodeStatus::ComputedScalar && final(self).scalars@[id.0 as int] == x,
                Ok(Value::Series(s)) => final(self).status@[id.0 as int]
                    == NodeStatus::ComputedSeries
                    && final(self).series@[id.0 as int] == Some(s),
                Err(e) => final(self).status@[id.0 as int] == NodeStatus::Error
                    && final(self).errors@[id.0 as int] == Some(e),
            },
            final(self).solver_trace == old(self).solver_trace,
    {
        let idx = id.index();
        if idx >= self.status.len() {
            self.ensure_capacity(idx + 1);
        }
        match result {
            Ok(Value::Scalar(x)) => self.set_scalar(id, x),
            Ok(Value::Series(s)) => self.set_series(id, s),
            Err(e) => self.set_error(id, e),
        }
    }

    /// Reconstructs the cell's result: `None` while uncomputed or out of
    /// range, else the stored value or error.
    pub fn get(&self, id: NodeId) -> (r: Option<Result<Value, ComputationError>>)
        requires
            self.wf(),
        ensures
            r is None <==> !self.is_set(id.0 as int),
            self.is_set(id.0 as int) ==> match self.status@[id.0 as int] {
                NodeStatus::ComputedScalar => r
                    == Some(Ok::<Value, ComputationError>(Value::Scalar(
                        self.scalars@[id.0 as int]))),
                NodeStatus::ComputedSeries => r matches Some(res)
                    && res matches Ok(v) && v matches Value::Series(c)
                    && c@ == self.series@[id.0 as int].unwrap()@,
                NodeStatus::Error => r
                    == Some(Err::<Value, ComputationError>(
                        self.errors@[id.0 as int].unwrap())),
                NodeStatus::Uncomputed => false,
            },
    {
        let idx = id.index();
        if idx >= self.status.len() {
            return None;
        }
        match self.status[idx] {
            NodeStatus::Uncomputed => None,
            NodeStatus::ComputedScalar => Some(Ok(Value::Scalar(self.scalars[idx]))),
            NodeStatus::ComputedSeries => {
                match &self.series[idx] {
                    Some(s) => Some(Ok(Value::Series(clone_bits(s)))),
                    None => {
                        proof {
                            assert(false);
                        }
                        None
                    },
                }
            },
            NodeStatus::Error => {
                match &self.errors[idx] {
                    Some(e) => Some(Err(e.clone())),
                    None => {
                        proof {
                            assert(false);
                        }
                        None
                    },
                }
            },
        }
    }

    /// Whether the cell holds any result or error.
    pub fn is_computed(&self, id: NodeId) -> (r: bool)
        requires
            self.wf(),
        ensures
            r == self.is_set(id.0 as int),
    {
        let idx = id.index();
        if idx < self.status.len() {
            match self.status[idx] {
                NodeStatus::Uncomputed => false,
                _ => true,
            }
        } else {
            false
        }
    }

    /// Resets every cell named by the mask to uncomputed, keeping its
    /// storage. Cells beyond the mask or the ledger are untouched.
    pub fn invalidate(&mut self, dirty: &Vec<bool>)
        requires
            old(self).wf(),
        ensures
            final(self).wf(),
            final(self).cells() == old(self).cells(),
            forall|i: int| 0 <= i < old(self).cells()
                ==> #[trigger] final(self).status@[i] == (
                    if i < dirty@.len() && dirty@[i] { NodeStatus::Uncomputed }
                    else { old(self).status@[i] }
                ),
            final(self).scalars == old(self).scalars,
            final(self).series == old(self).series,
            final(self).errors == old(self).errors,
            final(self).solver_trace == old(self).solver_trace,
    {
        let n = dirty.len();
        let mut i: usize = 0;
        while i < n
            invariant
                0 <= i <= n,
                n == dirty@.len(),
                self.wf(),
                self.cells() == old(self).cells(),
                forall|j: int| 0 <= j < old(self).cells()
                    ==> #[trigger] self.status@[j] == (
                        if j < i && j < dirty@.len() && dirty@[j] { NodeStatus::Uncomputed }
                        else { old(self).status@[j] }
                    ),
                self.scalars == old(self).scalars,
                self.series == old(self).series,
                self.errors == old(self).errors,
                self.solver_trace == old(self).solver_trace,
            decreases n - i,
        {
            if dirty[i] && i < self.status.len() {
                self.status.set(i, NodeStatus::Uncomputed);
            }
            i = i + 1;
        }
    }

    /// Whether any of the given cells holds a series longer than one step.
    pub fn is_timeseries(&self, node_ids: &[NodeId]) -> (r: bool)
        requires
            self.wf(),
        ensures
            r == exists|k: int| 0 <= k < node_ids@.len()
                && self.is_set((#[trigger] node_ids@[k]).0 as int)
                && self.status@[node_ids@[k].0 as int] == NodeStatus::ComputedSeries
                && self.series@[node_ids@[k].0 as int].unwrap()@.len() > 1,
    {
        let n = node_ids.len();
        let mut k: usize = 0;
        while k < n
            invariant
                0 <= k <= n,
                n == node_ids@.len(),
                self.wf(),
                forall|j: int| 0 <= j < k ==> !(
                    self.is_set((#[trigger] node_ids@[j]).0 as int)
                    && self.status@[node_ids@[j].0 as int] == NodeStatus::ComputedSeries
                    && self.series@[node_ids@[j].0 as int].unwrap()@.len() > 1
                ),
            decreases n - k,
        {
            let id = node_ids[k];
            let idx = id.index();
            if idx < self.status.len() {
                match self.status[idx] {
                    NodeStatus::ComputedSeries => {
                        match &self.series[idx] {
                            Some(s) => {
                                if s.len() > 1 {
                                    proof {
                                        assert(self.is_set(node_ids@[k as int].0 as int));
                                    }
                                    return true;
                                }
                            },
                            None => {},
                        }
                    },
                    _ => {},
                }
            }
            k = k + 1;
        }
        false
    }
}

} // verus!
