//! The execution engine: planning and node-by-node evaluation.
//!
//! The planner walks the graph depth-first from the targets, treating any
//! node already present in the ledger as a terminator, and yields a plan in
//! which every node's parents are computed or scheduled earlier.
//!
//! Evaluation is a session: `session_step` handles one planned node. It
//! writes constants, solver placeholders, temporal shifts and every error
//! case itself; only for the four elementwise arithmetic operations does it
//! hand the two broadcast operand rows (64-bit float bit patterns) to the
//! caller, which runs the kernel and hands the result row back through
//! `session_resolve`. Broadcasting — repeating a scalar, extending a short
//! series by its last element — and the zero-divisor check are performed
//! and verified here, so the caller's kernel is a pure elementwise map.

use vstd::prelude::*;
use crate::ledger::{ComputationError, Ledger, NodeStatus, Value};
use crate::registry::Registry;
use crate::topology::{parents_precede, seq_pos, topo_bounds};
use crate::types::{NodeId, NodeKind, Operation};

verus! {

/// The bit patterns of positive and negative IEEE-754 zero: exactly the
/// divisors on which a division must fail.
pub open spec fn is_zero_bits(b: u64) -> bool {
    b == 0u64 || b == 0x8000_0000_0000_0000u64
}

/// The width of ledger cell `i`: one for a scalar, the stored length for a
/// series.
pub open spec fn cell_len(led: &Ledger, i: int) -> int {
    match led.status@[i] {
        NodeStatus::ComputedSeries => led.series@[i].unwrap()@.len() as int,
        _ => 1,
    }
}

/// The value of ledger cell `i` at time step `t`, with broadcasting: a
/// scalar repeats, a shorter series extends its last element, an empty
/// series reads as zero.
pub open spec fn cell_at(led: &Ledger, i: int, t: int) -> u64 {
    match led.status@[i] {
        NodeStatus::ComputedSeries => {
            let s = led.series@[i].unwrap()@;
            if s.len() == 0 {
                0u64
            } else if t < s.len() {
                s[t]
            } else {
                s[s.len() - 1]
            }
        },
        _ => led.scalars@[i],
    }
}

/// Cell `i` broadcast to a row of the given width.
pub open spec fn row_of(led: &Ledger, i: int, width: int) -> Seq<u64> {
    Seq::new(width as nat, |t: int| cell_at(led, i, t))
}

/// The larger of two widths.
pub open spec fn max_int(a: int, b: int) -> int {
    if a >= b { a } else { b }
}

/// What one node evaluates to when the engine can decide it alone.
pub enum CellOutcome {
    OutScalar(u64),
    OutSeries(Seq<u64>),
    OutDivByZero,
    /// A parent's cell holds an error; its id is carried.
    OutUpstream(int),
    OutParentCount(int),
}

/// The temporal shift: the first `lag` steps come from the default series,
/// the rest from the main series shifted right by `lag`.
pub open spec fn prev_spec(led: &Ledger, main: int, dflt: int, lag: int, width: int) -> Seq<u64> {
    Seq::new(width as nat, |t: int| if t < lag {
        cell_at(led, dflt, t)
    } else {
        cell_at(led, main, t - lag)
    })
}

/// Whether a formula node must be handed to the caller's arithmetic
/// kernel: a binary Add/Subtract/Multiply/Divide whose parents are both
/// healthy, and whose divisor row is free of zeros if it divides.
pub open spec fn needs_arith(reg: &Registry, led: &Ledger, n: int) -> bool {
    &&& reg.kinds@[n] matches NodeKind::Formula(op)
    &&& match reg.kinds@[n] {
        NodeKind::Formula(op) => {
            let ps = reg.parents_seq(n);
            &&& !(op matches Operation::PreviousValue { .. })
            &&& ps.len() == 2
            &&& led.status@[ps[0].0 as int] != NodeStatus::Error
            &&& led.status@[ps[1].0 as int] != NodeStatus::Error
            &&& (op == Operation::Divide ==> !(exists|t: int|
                0 <= t < arith_width(reg, led, n)
                    && is_zero_bits(#[trigger] cell_at(led, ps[1].0 as int, t))))
        },
        _ => false,
    }
}

/// The row width of a binary formula: the wider of its two parents.
pub open spec fn arith_width(reg: &Registry, led: &Ledger, n: int) -> int {
    let ps = reg.parents_seq(n);
    max_int(cell_len(led, ps[0].0 as int), cell_len(led, ps[1].0 as int))
}

/// Whether both parents of a binary formula are scalar cells, in which
/// case the result is stored as a scalar.
pub open spec fn arith_scalar(reg: &Registry, led: &Ledger, n: int) -> bool {
    let ps = reg.parents_seq(n);
    led.status@[ps[0].0 as int] == NodeStatus::ComputedScalar
        && led.status@[ps[1].0 as int] == NodeStatus::ComputedScalar
}

/// The result of a node that the engine decides without the caller:
/// constants and solver placeholders read their stored value, temporal
/// shifts are computed in place, and the error cases are classified.
pub open spec fn auto_outcome(reg: &Registry, led: &Ledger, n: int) -> CellOutcome {
    match reg.kinds@[n] {
        NodeKind::Scalar(x) => CellOutcome::OutScalar(x),
        NodeKind::TimeSeries(ix) => CellOutcome::OutSeries(reg.constants_data@[ix as int]@),
        NodeKind::SolverVariable => CellOutcome::OutScalar(0u64),
        NodeKind::Formula(op) => {
            let ps = reg.parents_seq(n);
            if ps.len() != 2 {
                CellOutcome::OutParentCount(ps.len() as int)
            } else if led.status@[ps[0].0 as int] == NodeStatus::Error {
                CellOutcome::OutUpstream(ps[0].0 as int)
            } else if led.status@[ps[1].0 as int] == NodeStatus::Error {
                CellOutcome::OutUpstream(ps[1].0 as int)
            } else {
                match op {
                    Operation::PreviousValue { lag, .. } => CellOutcome::OutSeries(prev_spec(
                        led,
                        ps[0].0 as int,
                        ps[1].0 as int,
                        lag as int,
                        arith_width(reg, led, n),
                    )),
                    _ => CellOutcome::OutDivByZero,
                }
            }
        },
    }
}

/// The cell written for an outcome matches it: value, status and — for
/// errors — the error variant with this node's id and registry name.
pub open spec fn outcome_written(
    reg: &Registry,
    led: &Ledger,
    n: int,
    out: CellOutcome,
) -> bool {
    match out {
        CellOutcome::OutScalar(x) => {
            &&& led.status@[n] == NodeStatus::ComputedScalar
            &&& led.scalars@[n] == x
        },
        CellOutcome::OutSeries(q) => {
            &&& led.status@[n] == NodeStatus::ComputedSeries
            &&& led.series@[n] matches Some(v) && v@ == q
        },
        CellOutcome::OutDivByZero => {
            &&& led.status@[n] == NodeStatus::Error
            &&& led.errors@[n] matches Some(e)
                && e matches ComputationError::DivisionByZero { node_id, node_name }
                && node_id.0 as int == n && node_name@ == reg.meta@[n].name@
        },
        CellOutcome::OutUpstream(p) => {
            &&& led.status@[n] == NodeStatus::Error
            &&& led.errors@[n] matches Some(e)
                && e matches ComputationError::Upstream {
                    node_id, node_name, parent_id, parent_name }
                && node_id.0 as int == n && node_name@ == reg.meta@[n].name@
                && parent_id.0 as int == p && parent_name@ == reg.meta@[p].name@
        },
        CellOutcome::OutParentCount(actual) => {
            &&& led.status@[n] == NodeStatus::Error
            &&& led.errors@[n] matches Some(e)
                && e matches ComputationError::ParentCountMismatch {
                    node_id, node_name, expected, actual: act }
                && node_id.0 as int == n && node_name@ == reg.meta@[n].name@
                && expected == 2 && act as int == actual
        },
    }
}

// ---------------------------------------------------------------------------
// Laws of the temporal shift
// ---------------------------------------------------------------------------

/// With lag zero, the shift is the identity on the main parent's row.
pub proof fn lemma_prev_zero_lag(led: &Ledger, main: int, dflt: int, width: int)
    requires
        0 <= width,
    ensures
        prev_spec(led, main, dflt, 0, width) == row_of(led, main, width),
{
    assert(prev_spec(led, main, dflt, 0, width) =~= row_of(led, main, width));
}

/// With a lag at least the width, the shift is the default parent's row.
pub proof fn lemma_prev_full_lag(led: &Ledger, main: int, dflt: int, lag: int, width: int)
    requires
        0 <= width,
        lag >= width,
    ensures
        prev_spec(led, main, dflt, lag, width) == row_of(led, dflt, width),
{
    let a = prev_spec(led, main, dflt, lag, width);
    let b = row_of(led, dflt, width);
    assert(a.len() == b.len());
    assert forall|t: int| 0 <= t < a.len() implies a[t] == b[t] by {
        assert(t < width);
        assert(t < lag);
        assert(a[t] == cell_at(led, dflt, t));
        assert(b[t] == cell_at(led, dflt, t));
    }
    assert(a =~= b);
}

/// In general the first `lag` steps read the default and the rest read the
/// main parent shifted right by `lag`.
pub proof fn lemma_prev_shift(led: &Ledger, main: int, dflt: int, lag: int, width: int, t: int)
    requires
        0 <= t < width,
    ensures
        t < lag ==> prev_spec(led, main, dflt, lag, width)[t] == cell_at(led, dflt, t),
        t >= lag ==> prev_spec(led, main, dflt, lag, width)[t] == cell_at(led, main, t - lag),
{
}

// ---------------------------------------------------------------------------
// Laws of broadcasting
// ---------------------------------------------------------------------------

/// A scalar cell broadcasts to the constant row: the engine hands the
/// kernel the same row it would get from promoting the scalar by hand.
pub proof fn lemma_broadcast_scalar(led: &Ledger, i: int, width: int)
    requires
        0 <= width,
        led.status@[i] == NodeStatus::ComputedScalar,
    ensures
        row_of(led, i, width) == Seq::new(width as nat, |t: int| led.scalars@[i]),
{
    assert(row_of(led, i, width) =~= Seq::new(width as nat, |t: int| led.scalars@[i]));
}

/// A nonempty series cell broadcasts by extending its last element.
pub proof fn lemma_broadcast_series(led: &Ledger, i: int, width: int, t: int)
    requires
        led.status@[i] == NodeStatus::ComputedSeries,
        led.series@[i].unwrap()@.len() > 0,
        0 <= t < width,
    ensures
        t < led.series@[i].unwrap()@.len()
            ==> row_of(led, i, width)[t] == led.series@[i].unwrap()@[t],
        t >= led.series@[i].unwrap()@.len()
            ==> row_of(led, i, width)[t]
                == led.series@[i].unwrap()@[led.series@[i].unwrap()@.len() - 1],
{
}

} // verus!

verus! {

/// The planner's bookkeeping, mirroring the sort's: the plan lists exactly
/// the finished, not-yet-computed nodes, parents covered before children.
pub open spec fn plan_inv(reg: &Registry, led: &Ledger, state: Seq<u8>, plan: Seq<NodeId>) -> bool {
    &&& state.len() == reg.kinds@.len()
    &&& forall|i: int| 0 <= i < state.len()
        ==> #[trigger] state[i] == 0 || state[i] == 1 || state[i] == 2
    &&& forall|k: int| 0 <= k < plan.len()
        ==> ((#[trigger] plan[k]).0 as int) < reg.kinds@.len()
            && state[plan[k].0 as int] == 2 && !led.is_set(plan[k].0 as int)
    &&& forall|i: int| 0 <= i < state.len()
        ==> (#[trigger] state[i] == 2 ==> exists|k: int|
            0 <= k < plan.len() && (#[trigger] plan[k]).0 as int == i)
    &&& forall|k1: int, k2: int| 0 <= k1 < k2 < plan.len()
        ==> (#[trigger] plan[k1]).0 != (#[trigger] plan[k2]).0
    &&& plan_parents_covered(reg, led, plan)
    &&& plan.len() == crate::topology::state_count(state, 2)
}

/// Every parent of a planned node is computed already or planned earlier.
pub open spec fn plan_parents_covered(reg: &Registry, led: &Ledger, plan: Seq<NodeId>) -> bool {
    forall|k: int, j: int|
        #![trigger reg.parents_seq(plan[k].0 as int)[j]]
        0 <= k < plan.len() && 0 <= j < reg.parents_seq(plan[k].0 as int).len()
        ==> {
            let p = reg.parents_seq(plan[k].0 as int)[j].0;
            led.is_set(p as int) || (
                0 <= seq_pos(plan, p) < k && plan[seq_pos(plan, p)].0 == p
            )
        }
}

/// The depth-first planner visit: finishes `node` after its uncomputed
/// ancestors, treating every cell already in the ledger as a terminator.
fn dfs_plan(
    reg: &Registry,
    led: &Ledger,
    node: NodeId,
    state: &mut Vec<u8>,
    plan: &mut Vec<NodeId>,
) -> (r: Result<(), ComputationError>)
    requires
        topo_bounds(reg),
        led.wf(),
        (node.0 as int) < reg.kinds@.len(),
        old(state)@[node.0 as int] == 0,
        !led.is_set(node.0 as int),
        plan_inv(reg, led, old(state)@, old(plan)@),
        parents_precede(reg) ==> forall|i: int| 0 <= i < old(state)@.len()
            ==> (#[trigger] old(state)@[i] == 1 ==> i > node.0 as int),
    ensures
        final(state)@.len() == old(state)@.len(),
        forall|i: int| 0 <= i < old(state)@.len()
            ==> (#[trigger] old(state)@[i] == 2 ==> final(state)@[i] == 2),
        forall|i: int| 0 <= i < old(state)@.len()
            ==> (#[trigger] old(state)@[i] == 1 ==> final(state)@[i] == 1),
        forall|i: int| 0 <= i < old(state)@.len()
            ==> (#[trigger] final(state)@[i] == 0 ==> old(state)@[i] == 0),
        forall|k: int| 0 <= k < old(plan)@.len()
            ==> #[trigger] final(plan)@[k] == old(plan)@[k],
        final(plan)@.len() >= old(plan)@.len(),
        crate::topology::state_count(final(state)@, 0)
            < crate::topology::state_count(old(state)@, 0),
        r is Ok ==> plan_inv(reg, led, final(state)@, final(plan)@)
            && final(state)@[node.0 as int] == 2
            && (forall|i: int| 0 <= i < old(state)@.len()
                ==> (#[trigger] final(state)@[i] == 1 ==> old(state)@[i] == 1)),
        r matches Err(e) ==> e == ComputationError::CycleDetected && !parents_precede(reg),
    decreases crate::topology::state_count(old(state)@, 0),
{
    let idx = node.index();
    state.set(idx, 1);
    proof {
        crate::topology::lemma_state_count_update(old(state)@, idx as int, 2, 1);
        crate::topology::lemma_state_count_update(old(state)@, idx as int, 0, 1);
    }
    let parents = reg.get_parents(node);
    let ghost pseq = reg.parents_seq(node.0 as int);
    let n = parents.len();
    let mut j: usize = 0;
    while j < n
        invariant
            0 <= j <= n,
            topo_bounds(reg),
            led.wf(),
            (node.0 as int) < reg.kinds@.len(),
            !led.is_set(node.0 as int),
            n == pseq.len(),
            parents@ == pseq,
            pseq == reg.parents_seq(node.0 as int),
            state@.len() == old(state)@.len(),
            state@.len() == reg.kinds@.len(),
            state@[node.0 as int] == 1,
            plan_inv(reg, led, state@, plan@),
            crate::topology::state_count(state@, 0)
                < crate::topology::state_count(old(state)@, 0),
            forall|jj: int| 0 <= jj < j
                ==> led.is_set((#[trigger] pseq[jj]).0 as int)
                    || state@[pseq[jj].0 as int] == 2,
            forall|i: int| 0 <= i < old(state)@.len()
                ==> (#[trigger] old(state)@[i] == 2 ==> state@[i] == 2),
            forall|i: int| 0 <= i < old(state)@.len()
                ==> (#[trigger] old(state)@[i] == 1 ==> state@[i] == 1),
            forall|i: int| 0 <= i < old(state)@.len()
                ==> (#[trigger] state@[i] == 0 ==> old(state)@[i] == 0),
            forall|i: int| 0 <= i < old(state)@.len() && i != node.0 as int
                ==> (#[trigger] state@[i] == 1 ==> old(state)@[i] == 1),
            forall|k: int| 0 <= k < old(plan)@.len()
                ==> #[trigger] plan@[k] == old(plan)@[k],
            plan@.len() >= old(plan)@.len(),
            parents_precede(reg) ==> forall|i: int| 0 <= i < state@.len()
                ==> (#[trigger] state@[i] == 1 ==> i >= node.0 as int),
        decreases n - j,
    {
        let p = parents[j];
        let pidx = p.index();
        proof {
            assert(pseq[j as int] == p);
            assert((p.0 as int) < reg.kinds@.len());
        }
        if !led.is_computed(p) {
            let st = state[pidx];
            if st == 1 {
                proof {
                    if parents_precede(reg) {
                        assert((pseq[j as int].0 as int) < node.0 as int);
                        assert(pidx as int >= node.0 as int);
                        assert(false);
                    }
                }
                return Err(ComputationError::CycleDetected);
            }
            if st == 0 {
                proof {
                    if parents_precede(reg) {
                        assert((pseq[j as int].0 as int) < node.0 as int);
                        assert forall|i: int| 0 <= i < state@.len()
                            implies (#[trigger] state@[i] == 1 ==> i > p.0 as int) by {
                            if state@[i] == 1 {
                                assert(i >= node.0 as int);
                            }
                        }
                    }
                    crate::topology::lemma_state_count_nonneg(state@, 0);
                    assert(state@[node.0 as int] == 1);
                }
                let res = dfs_plan(reg, led, p, state, plan);
                proof {
                    assert(state@[node.0 as int] == 1);
                }
                match res {
                    Ok(_) => {},
                    Err(e) => {
                        return Err(e);
                    },
                }
            }
        }
        proof {
            assert(led.is_set(pseq[j as int].0 as int)
                || state@[pseq[j as int].0 as int] == 2);
        }
        j = j + 1;
    }
    let ghost prev = state@;
    let ghost prev_plan = plan@;
    state.set(idx, 2);
    plan.push(node);
    proof {
        crate::topology::lemma_state_count_update(prev, idx as int, 0, 2);
        assert forall|k: int| 0 <= k < plan@.len()
            implies ((#[trigger] plan@[k]).0 as int) < reg.kinds@.len()
                && state@[plan@[k].0 as int] == 2 && !led.is_set(plan@[k].0 as int) by {
            if k < prev_plan.len() {
                assert(plan@[k] == prev_plan[k]);
                assert(prev[prev_plan[k].0 as int] == 2);
            } else {
                assert(plan@[k] == node);
            }
        }
        assert forall|i: int| 0 <= i < state@.len()
            implies (#[trigger] state@[i] == 2 ==> exists|k: int|
                0 <= k < plan@.len() && (#[trigger] plan@[k]).0 as int == i) by {
            if state@[i] == 2 {
                if i == idx as int {
                    assert(plan@[plan@.len() - 1].0 as int == i);
                } else {
                    assert(prev[i] == 2);
                    let k = choose|k: int| 0 <= k < prev_plan.len()
                        && (#[trigger] prev_plan[k]).0 as int == i;
                    assert(plan@[k].0 as int == i);
                }
            }
        }
        assert forall|k1: int, k2: int| 0 <= k1 < k2 < plan@.len()
            implies (#[trigger] plan@[k1]).0 != (#[trigger] plan@[k2]).0 by {
            if k2 == plan@.len() - 1 {
                assert(plan@[k1] == prev_plan[k1]);
                assert(prev[prev_plan[k1].0 as int] == 2);
                assert(prev[node.0 as int] == 1);
            } else {
                assert(plan@[k1] == prev_plan[k1] && plan@[k2] == prev_plan[k2]);
            }
        }
        assert forall|k: int, j2: int|
            #![trigger reg.parents_seq(plan@[k].0 as int)[j2]]
            0 <= k < plan@.len() && 0 <= j2 < reg.parents_seq(plan@[k].0 as int).len()
            implies {
                let p = reg.parents_seq(plan@[k].0 as int)[j2].0;
                led.is_set(p as int) || (
                    0 <= seq_pos(plan@, p) < k && plan@[seq_pos(plan@, p)].0 == p
                )
            } by {
            if k < prev_plan.len() {
                assert(plan@[k] == prev_plan[k]);
                let p = reg.parents_seq(prev_plan[k].0 as int)[j2].0;
                if !led.is_set(p as int) {
                    let k0 = seq_pos(prev_plan, p);
                    assert(0 <= k0 < k && prev_plan[k0].0 == p);
                    assert(plan@[k0].0 == p);
                    crate::topology::lemma_seq_pos_is(plan@, k0);
                }
            } else {
                assert(plan@[k] == node);
                let par = reg.parents_seq(node.0 as int)[j2];
                if !led.is_set(par.0 as int) {
                    assert(prev[par.0 as int] == 2);
                    let k0 = choose|k0: int| 0 <= k0 < prev_plan.len()
                        && (#[trigger] prev_plan[k0]).0 as int == par.0 as int;
                    assert(plan@[k0].0 == par.0);
                    crate::topology::lemma_seq_pos_is(plan@, k0);
                }
            }
        }
    }
    Ok(())
}

} // verus!

verus! {

/// The execution engine over one registry.
pub struct ComputationEngine<'a> {
    pub registry: &'a Registry,
}

/// A planned evaluation in progress: the nodes to evaluate in dependency
/// order, and how many have been written already.
pub struct ComputeSession {
    pub plan: Vec<NodeId>,
    pub pos: usize,
}

/// The session's standing facts: the finished prefix of the plan is
/// written, the rest is still uncomputed, and every parent of a planned
/// node is computed or planned earlier.
pub open spec fn session_inv(reg: &Registry, led: &Ledger, s: &ComputeSession) -> bool {
    &&& led.wf()
    &&& led.cells() >= reg.kinds@.len()
    &&& s.pos <= s.plan@.len()
    &&& forall|k: int| 0 <= k < s.plan@.len()
        ==> ((#[trigger] s.plan@[k]).0 as int) < reg.kinds@.len()
    &&& forall|k1: int, k2: int| 0 <= k1 < k2 < s.plan@.len()
        ==> (#[trigger] s.plan@[k1]).0 != (#[trigger] s.plan@[k2]).0
    &&& forall|k: int| 0 <= k < s.pos ==> led.is_set((#[trigger] s.plan@[k]).0 as int)
    &&& forall|k: int| s.pos <= k < s.plan@.len()
        ==> !led.is_set((#[trigger] s.plan@[k]).0 as int)
    &&& plan_parents_covered(reg, led, s.plan@)
}

/// What one `session_step` call did.
pub enum StepResult {
    /// The plan is exhausted; every planned node is written.
    Finished,
    /// The node at the old position was decided by the engine alone and
    /// written; the position advanced.
    Advanced,
    /// The node at the position is an arithmetic formula: the caller must
    /// apply the operation elementwise to the two rows and hand the result
    /// to `session_resolve`. Nothing was changed.
    Pending(PendingOp),
}

/// An arithmetic operation the caller must perform: two equal-length rows
/// of 64-bit float bit patterns, already broadcast to the result width.
pub struct PendingOp {
    pub op: Operation,
    pub lhs: Vec<u64>,
    pub rhs: Vec<u64>,
}

impl<'a> ComputationEngine<'a> {
    /// An engine over the given registry.
    pub fn new(registry: &'a Registry) -> (r: Self)
        ensures
            r.registry == registry,
    {
        ComputationEngine { registry }
    }

    /// Plans an evaluation: grows the ledger to the registry and walks the
    /// targets depth-first, collecting every uncomputed ancestor in an
    /// order that puts parents first. On a registry whose parents precede
    /// their nodes — the only kind the mutation API builds — planning
    /// always succeeds; the cycle error can only arise from topology
    /// written into the arrays directly.
    pub fn plan(&self, targets: &[NodeId], led: &mut Ledger)
        -> (r: Result<ComputeSession, ComputationError>)
        requires
            topo_bounds(self.registry),
            old(led).wf(),
            forall|t: int| 0 <= t < targets@.len()
                ==> ((#[trigger] targets@[t]).0 as int) < self.registry.kinds@.len(),
        ensures
            final(led).wf(),
            final(led).cells() >= self.registry.kinds@.len(),
            final(led).cells() == max_int(old(led).cells(), self.registry.kinds@.len() as int),
            forall|i: int| 0 <= i < old(led).cells()
                ==> #[trigger] final(led).status@[i] == old(led).status@[i]
                    && final(led).scalars@[i] == old(led).scalars@[i]
                    && final(led).series@[i] == old(led).series@[i]
                    && final(led).errors@[i] == old(led).errors@[i],
            forall|i: int| old(led).cells() <= i < final(led).cells()
                ==> #[trigger] final(led).status@[i] == NodeStatus::Uncomputed,
            final(led).solver_trace == old(led).solver_trace,
            r matches Ok(s) ==> {
                &&& session_inv(self.registry, final(led), &s)
                &&& s.pos == 0
                &&& forall|t: int| 0 <= t < targets@.len()
                    ==> final(led).is_set((#[trigger] targets@[t]).0 as int)
                        || (0 <= seq_pos(s.plan@, targets@[t].0) < s.plan@.len()
                            && s.plan@[seq_pos(s.plan@, targets@[t].0)].0 == targets@[t].0)
            },
            r matches Err(e) ==> e == ComputationError::CycleDetected
                && !parents_precede(self.registry),
            parents_precede(self.registry) ==> r is Ok,
    {
        let reg = self.registry;
        let count = reg.count();
        led.ensure_capacity(count);
        let ghost led1 = *led;
        let mut plan: Vec<NodeId> = Vec::new();
        let mut state: Vec<u8> = vec![0u8; count];
        proof {
            crate::topology::lemma_count_zero_pub(state@, 2);
        }
        let nt = targets.len();
        let mut t: usize = 0;
        while t < nt
            invariant
                0 <= t <= nt,
                nt == targets@.len(),
                topo_bounds(reg),
                reg == self.registry,
                *led == led1,
                led.wf(),
                led.cells() >= reg.kinds@.len(),
                led.cells() == max_int(old(led).cells(), reg.kinds@.len() as int),
                forall|i: int| 0 <= i < old(led).cells()
                    ==> #[trigger] led.status@[i] == old(led).status@[i]
                        && led.scalars@[i] == old(led).scalars@[i]
                        && led.series@[i] == old(led).series@[i]
                        && led.errors@[i] == old(led).errors@[i],
                forall|i: int| old(led).cells() <= i < led.cells()
                    ==> #[trigger] led.status@[i] == NodeStatus::Uncomputed,
                led.solver_trace == old(led).solver_trace,
                count == reg.kinds@.len(),
                forall|q: int| 0 <= q < targets@.len()
                    ==> ((#[trigger] targets@[q]).0 as int) < reg.kinds@.len(),
                state@.len() == count,
                plan_inv(reg, led, state@, plan@),
                forall|k: int| 0 <= k < state@.len() ==> #[trigger] state@[k] != 1,
                forall|q: int| 0 <= q < t
                    ==> led.is_set((#[trigger] targets@[q]).0 as int)
                        || state@[targets@[q].0 as int] == 2,
            decreases nt - t,
        {
            let tn = targets[t];
            if !led.is_computed(tn) {
                if state[tn.index()] == 0 {
                    let res = dfs_plan(reg, led, tn, &mut state, &mut plan);
                    match res {
                        Ok(_) => {},
                        Err(e) => {
                            return Err(e);
                        },
                    }
                }
            }
            proof {
                assert(led.is_set(targets@[t as int].0 as int)
                    || state@[targets@[t as int].0 as int] == 2);
            }
            t = t + 1;
        }
        let s = ComputeSession { plan, pos: 0 };
        proof {
            assert forall|q: int| 0 <= q < targets@.len()
                implies led.is_set((#[trigger] targets@[q]).0 as int)
                    || (0 <= seq_pos(s.plan@, targets@[q].0) < s.plan@.len()
                        && s.plan@[seq_pos(s.plan@, targets@[q].0)].0 == targets@[q].0) by {
                if !led.is_set(targets@[q].0 as int) {
                    assert(state@[targets@[q].0 as int] == 2);
                    let k = choose|k: int| 0 <= k < s.plan@.len()
                        && (#[trigger] s.plan@[k]).0 as int == targets@[q].0 as int;
                    assert(s.plan@[k].0 == targets@[q].0);
                    crate::topology::lemma_seq_pos_is(s.plan@, k);
                }
            }
        }
        Ok(s)
    }
}

} // verus!

verus! {

/// The width of one ledger cell.
fn cell_width(led: &Ledger, idx: usize) -> (r: usize)
    requires
        led.wf(),
        (idx as int) < led.cells(),
    ensures
        r == cell_len(led, idx as int),
{
    match led.status[idx] {
        NodeStatus::ComputedSeries => {
            match &led.series[idx] {
                Some(s) => s.len(),
                None => {
                    proof {
                        assert(false);
                    }
                    1
                },
            }
        },
        _ => 1,
    }
}

/// One broadcast read from a ledger cell.
fn cell_value_at(led: &Ledger, idx: usize, t: usize) -> (r: u64)
    requires
        led.wf(),
        (idx as int) < led.cells(),
    ensures
        r == cell_at(led, idx as int, t as int),
{
    match led.status[idx] {
        NodeStatus::ComputedSeries => {
            match &led.series[idx] {
                Some(s) => {
                    let n = s.len();
                    if n == 0 {
                        0
                    } else if t < n {
                        s[t]
                    } else {
                        s[n - 1]
                    }
                },
                None => {
                    proof {
                        assert(false);
                    }
                    0
                },
            }
        },
        _ => led.scalars[idx],
    }
}

/// One broadcast read from a ledger cell, for callers outside the engine.
pub fn cell_value_at_pub(led: &Ledger, idx: usize, t: usize) -> (r: u64)
    requires
        led.wf(),
        (idx as int) < led.cells(),
    ensures
        r == cell_at(led, idx as int, t as int),
{
    cell_value_at(led, idx, t)
}

/// A cell broadcast into an owned row of the given width.
fn build_row(led: &Ledger, idx: usize, w: usize) -> (r: Vec<u64>)
    requires
        led.wf(),
        (idx as int) < led.cells(),
    ensures
        r@ == row_of(led, idx as int, w as int),
{
    let mut out: Vec<u64> = Vec::new();
    let mut t: usize = 0;
    while t < w
        invariant
            0 <= t <= w,
            led.wf(),
            (idx as int) < led.cells(),
            out@ =~= row_of(led, idx as int, w as int).take(t as int),
        decreases w - t,
    {
        out.push(cell_value_at(led, idx, t));
        proof {
            assert(out@ =~= row_of(led, idx as int, w as int).take(t + 1));
        }
        t = t + 1;
    }
    proof {
        assert(row_of(led, idx as int, w as int).take(w as int)
            =~= row_of(led, idx as int, w as int));
    }
    out
}

/// Whether a row contains a positive or negative floating-point zero.
fn row_has_zero(row: &Vec<u64>) -> (r: bool)
    ensures
        r == exists|t: int| 0 <= t < row@.len() && is_zero_bits(#[trigger] row@[t]),
{
    let n = row.len();
    let mut t: usize = 0;
    while t < n
        invariant
            0 <= t <= n,
            n == row@.len(),
            forall|q: int| 0 <= q < t ==> !is_zero_bits(#[trigger] row@[q]),
        decreases n - t,
    {
        let b = row[t];
        if b == 0 || b == 0x8000_0000_0000_0000 {
            proof {
                assert(is_zero_bits(row@[t as int]));
            }
            return true;
        }
        t = t + 1;
    }
    false
}

} // verus!

verus! {

/// Pointwise equality of all cells except one, with equal bounds.
pub open spec fn cells_framed(led0: &Ledger, led1: &Ledger, n: int) -> bool {
    &&& led1.cells() == led0.cells()
    &&& forall|i: int| 0 <= i < led0.cells() && i != n
        ==> #[trigger] led1.status@[i] == led0.status@[i]
            && led1.scalars@[i] == led0.scalars@[i]
            && led1.series@[i] == led0.series@[i]
            && led1.errors@[i] == led0.errors@[i]
}

/// Evaluates the node at the session position, or hands the caller an
/// arithmetic operation to perform. Everything except the four elementwise
/// float operations — constants, solver placeholders, the temporal shift,
/// broadcasting, the zero-divisor check and all error propagation — is
/// decided and written here.
pub fn session_step(reg: &Registry, s: &mut ComputeSession, led: &mut Ledger) -> (r: StepResult)
    requires
        reg.wf(),
        session_inv(reg, old(led), old(s)),
    ensures
        final(s).plan == old(s).plan,
        session_inv(reg, final(led), final(s)),
        final(led).solver_trace == old(led).solver_trace,
        match r {
            StepResult::Finished => old(s).pos == old(s).plan@.len()
                && *final(led) == *old(led) && final(s).pos == old(s).pos,
            StepResult::Advanced => {
                let n = old(s).plan@[old(s).pos as int].0 as int;
                &&& old(s).pos < old(s).plan@.len()
                &&& !needs_arith(reg, old(led), n)
                &&& final(s).pos == old(s).pos + 1
                &&& outcome_written(reg, final(led), n, auto_outcome(reg, old(led), n))
                &&& cells_framed(old(led), final(led), n)
            },
            StepResult::Pending(p) => {
                let n = old(s).plan@[old(s).pos as int].0 as int;
                &&& old(s).pos < old(s).plan@.len()
                &&& needs_arith(reg, old(led), n)
                &&& *final(led) == *old(led)
                &&& final(s).pos == old(s).pos
                &&& reg.kinds@[n] == NodeKind::Formula(p.op)
                &&& !(p.op matches Operation::PreviousValue { .. })
                &&& p.lhs@ == row_of(old(led), reg.parents_seq(n)[0].0 as int,
                    arith_width(reg, old(led), n))
                &&& p.rhs@ == row_of(old(led), reg.parents_seq(n)[1].0 as int,
                    arith_width(reg, old(led), n))
                &&& p.lhs@.len() == arith_width(reg, old(led), n)
                &&& p.rhs@.len() == arith_width(reg, old(led), n)
            },
        },
{
    let plan_len = s.plan.len();
    if s.pos >= plan_len {
        return StepResult::Finished;
    }
    let node = s.plan[s.pos];
    let idx = node.index();
    let ghost n = idx as int;
    proof {
        // Parents of the current node are all computed: covered parents
        // are either already in the ledger or in the finished prefix.
        assert forall|j: int| 0 <= j < reg.parents_seq(n).len()
            implies old(led).is_set((#[trigger] reg.parents_seq(n)[j]).0 as int) by {
            let p = reg.parents_seq(n)[j].0;
            if !old(led).is_set(p as int) {
                assert(0 <= seq_pos(s.plan@, p) < s.pos as int);
                assert(old(led).is_set(s.plan@[seq_pos(s.plan@, p)].0 as int));
            }
        }
        assert forall|j: int| 0 <= j < reg.parents_seq(n).len()
            implies ((#[trigger] reg.parents_seq(n)[j]).0 as int) < reg.kinds@.len() by {
            assert((reg.parents_seq(n)[j].0 as int) < n);
        }
    }
    let outcome: Result<Value, ComputationError> = match reg.kinds[idx] {
        NodeKind::Scalar(x) => Ok(Value::Scalar(x)),
        NodeKind::TimeSeries(ix) => {
            let data = crate::ledger::clone_bits(&reg.constants_data[ix as usize]);
            Ok(Value::Series(data))
        },
        NodeKind::SolverVariable => Ok(Value::Scalar(0)),
        NodeKind::Formula(op) => {
            let parents = reg.get_parents(node);
            if parents.len() != 2 {
                Err(ComputationError::ParentCountMismatch {
                    node_id: node,
                    node_name: reg.meta[idx].name.clone(),
                    expected: 2,
                    actual: parents.len(),
                })
            } else {
                let p0 = parents[0];
                let p1 = parents[1];
                let i0 = p0.index();
                let i1 = p1.index();
                let e0 = match led.status[i0] {
                    NodeStatus::Error => true,
                    _ => false,
                };
                let e1 = match led.status[i1] {
                    NodeStatus::Error => true,
                    _ => false,
                };
                if e0 || e1 {
                    let bad = if e0 { p0 } else { p1 };
                    Err(ComputationError::Upstream {
                        node_id: node,
                        node_name: reg.meta[idx].name.clone(),
                        parent_id: bad,
                        parent_name: reg.meta[bad.index()].name.clone(),
                    })
                } else {
                    let w0 = cell_width(led, i0);
                    let w1 = cell_width(led, i1);
                    let w = if w0 >= w1 { w0 } else { w1 };
                    match op {
                        Operation::PreviousValue { lag, .. } => {
                            let lag_u = lag as usize;
                            let mut row: Vec<u64> = Vec::new();
                            let ghost pv = prev_spec(led, i0 as int, i1 as int,
                                lag as int, w as int);
                            let mut t: usize = 0;
                            while t < w
                                invariant
                                    0 <= t <= w,
                                    led.wf(),
                                    (i0 as int) < led.cells(),
                                    (i1 as int) < led.cells(),
                                    lag_u == lag as usize,
                                    pv == prev_spec(led, i0 as int, i1 as int,
                                        lag as int, w as int),
                                    row@ =~= pv.take(t as int),
                                decreases w - t,
                            {
                                let v = if t < lag_u {
                                    cell_value_at(led, i1, t)
                                } else {
                                    cell_value_at(led, i0, t - lag_u)
                                };
                                row.push(v);
                                proof {
                                    assert(row@ =~= pv.take(t + 1));
                                }
                                t = t + 1;
                            }
                            proof {
                                assert(pv.take(w as int) =~= pv);
                            }
                            Ok(Value::Series(row))
                        },
                        Operation::Divide => {
                            let rhs = build_row(led, i1, w);
                            if row_has_zero(&rhs) {
                                Err(ComputationError::DivisionByZero {
                                    node_id: node,
                                    node_name: reg.meta[idx].name.clone(),
                                })
                            } else {
                                let lhs = build_row(led, i0, w);
                                proof {
                                    assert(needs_arith(reg, old(led), n)) by {
                                        assert forall|t: int| 0 <= t < arith_width(
                                            reg, old(led), n)
                                            implies !is_zero_bits(#[trigger] cell_at(
                                                old(led), reg.parents_seq(n)[1].0 as int, t))
                                            by {
                                            assert(rhs@[t] == cell_at(led, i1 as int, t));
                                        }
                                    }
                                }
                                return StepResult::Pending(PendingOp { op, lhs, rhs });
                            }
                        },
                        _ => {
                            let lhs = build_row(led, i0, w);
                            let rhs = build_row(led, i1, w);
                            proof {
                                assert(needs_arith(reg, old(led), n));
                            }
                            return StepResult::Pending(PendingOp { op, lhs, rhs });
                        },
                    }
                }
            }
        },
    };
    let ghost led0 = *led;
    match outcome {
        Ok(Value::Scalar(x)) => led.set_scalar(node, x),
        Ok(Value::Series(q)) => led.set_series(node, q),
        Err(e) => led.set_error(node, e),
    }
    s.pos = s.pos + 1;
    proof {
        assert(outcome_written(reg, led, n, auto_outcome(reg, &led0, n)));
        assert(cells_framed(&led0, led, n));
        assert forall|k: int| 0 <= k < s.pos
            implies led.is_set((#[trigger] s.plan@[k]).0 as int) by {
            if k < s.pos - 1 {
                assert(s.plan@[k].0 != s.plan@[old(s).pos as int].0);
                assert(led0.is_set(s.plan@[k].0 as int));
            }
        }
        assert forall|k: int| s.pos <= k < s.plan@.len()
            implies !led.is_set((#[trigger] s.plan@[k]).0 as int) by {
            assert(s.plan@[old(s).pos as int].0 != s.plan@[k].0);
            assert(!led0.is_set(s.plan@[k].0 as int));
        }
        assert forall|k: int, j: int|
            #![trigger reg.parents_seq(s.plan@[k].0 as int)[j]]
            0 <= k < s.plan@.len() && 0 <= j < reg.parents_seq(s.plan@[k].0 as int).len()
            implies {
                let p = reg.parents_seq(s.plan@[k].0 as int)[j].0;
                led.is_set(p as int) || (
                    0 <= seq_pos(s.plan@, p) < k && s.plan@[seq_pos(s.plan@, p)].0 == p
                )
            } by {
            let p = reg.parents_seq(s.plan@[k].0 as int)[j].0;
            if led0.is_set(p as int) {
                assert(led.is_set(p as int));
            }
        }
    }
    StepResult::Advanced
}

/// Writes the caller-computed arithmetic row for the pending node: a
/// scalar when both operands were scalars, else a series, and advances.
pub fn session_resolve(reg: &Registry, s: &mut ComputeSession, led: &mut Ledger, result: Vec<u64>)
    requires
        reg.wf(),
        session_inv(reg, old(led), old(s)),
        old(s).pos < old(s).plan@.len(),
        needs_arith(reg, old(led), old(s).plan@[old(s).pos as int].0 as int),
        result@.len() == arith_width(reg, old(led), old(s).plan@[old(s).pos as int].0 as int),
    ensures
        final(s).plan == old(s).plan,
        final(s).pos == old(s).pos + 1,
        session_inv(reg, final(led), final(s)),
        final(led).solver_trace == old(led).solver_trace,
        cells_framed(old(led), final(led), old(s).plan@[old(s).pos as int].0 as int),
        ({
            let n = old(s).plan@[old(s).pos as int].0 as int;
            if arith_scalar(reg, old(led), n) {
                final(led).status@[n] == NodeStatus::ComputedScalar
                    && final(led).scalars@[n] == result@[0]
            } else {
                final(led).status@[n] == NodeStatus::ComputedSeries
                    && (final(led).series@[n] matches Some(v) && v@ == result@)
            }
        }),
{
    let node = s.plan[s.pos];
    let idx = node.index();
    let ghost n = idx as int;
    let parents = reg.get_parents(node);
    let p0 = parents[0];
    let p1 = parents[1];
    let s0 = match led.status[p0.index()] {
        NodeStatus::ComputedScalar => true,
        _ => false,
    };
    let s1 = match led.status[p1.index()] {
        NodeStatus::ComputedScalar => true,
        _ => false,
    };
    proof {
        assert((reg.parents_seq(n)[0].0 as int) < n);
        assert((reg.parents_seq(n)[1].0 as int) < n);
        if arith_scalar(reg, old(led), n) {
            assert(cell_len(old(led), reg.parents_seq(n)[0].0 as int) == 1);
            assert(cell_len(old(led), reg.parents_seq(n)[1].0 as int) == 1);
            assert(arith_width(reg, old(led), n) == 1);
        }
    }
    let ghost led0 = *led;
    let plan_len = s.plan.len();
    proof {
        assert(s.pos < plan_len);
    }
    if s0 && s1 {
        proof {
            assert(arith_scalar(reg, old(led), n));
            assert(result@.len() == 1);
        }
        led.set_scalar(node, result[0]);
    } else {
        led.set_series(node, result);
    }
    s.pos = s.pos + 1;
    proof {
        assert(cells_framed(&led0, led, n));
        assert forall|k: int| 0 <= k < s.pos
            implies led.is_set((#[trigger] s.plan@[k]).0 as int) by {
            if k < s.pos - 1 {
                assert(s.plan@[k].0 != s.plan@[old(s).pos as int].0);
                assert(led0.is_set(s.plan@[k].0 as int));
            }
        }
        assert forall|k: int| s.pos <= k < s.plan@.len()
            implies !led.is_set((#[trigger] s.plan@[k]).0 as int) by {
            assert(s.plan@[old(s).pos as int].0 != s.plan@[k].0);
            assert(!led0.is_set(s.plan@[k].0 as int));
        }
        assert forall|k: int, j: int|
            #![trigger reg.parents_seq(s.plan@[k].0 as int)[j]]
            0 <= k < s.plan@.len() && 0 <= j < reg.parents_seq(s.plan@[k].0 as int).len()
            implies {
                let p = reg.parents_seq(s.plan@[k].0 as int)[j].0;
                led.is_set(p as int) || (
                    0 <= seq_pos(s.plan@, p) < k && s.plan@[seq_pos(s.plan@, p)].0 == p
                )
            } by {
            let p = reg.parents_seq(s.plan@[k].0 as int)[j].0;
            if led0.is_set(p as int) {
                assert(led.is_set(p as int));
            }
        }
    }
}

} // verus!
