//! The solver harness's decision layer: which nodes are variables, which
//! are residuals, how wide the model is, and how variable vectors and
//! residual values map to and from the flat real vector that a nonlinear
//! programming solver iterates on. The numerical iteration itself is
//! floating-point work that the caller performs; everything it is handed
//! and everything it returns passes through these verified functions.

use vstd::prelude::*;
use crate::engine::cell_at;
use crate::graph::ComputationGraph;
use crate::ledger::{ComputationError, Ledger, NodeStatus, Value};
use crate::types::{NodeId, NodeKind};

verus! {

/// The flattened feasibility problem handed to a solver: variables and
/// residuals in order, the time width, and the ledger of everything that
/// does not depend on a variable.
pub struct PrismProblem {
    pub variables: Vec<NodeId>,
    pub residuals: Vec<NodeId>,
    pub model_len: usize,
    pub base_ledger: Ledger,
}

/// How many of the first `t` nodes are solver variables.
pub open spec fn svar_count(g: &ComputationGraph, t: int) -> int
    decreases t,
{
    if t <= 0 {
        0
    } else {
        svar_count(g, t - 1)
            + if g.store.kinds@[t - 1] is SolverVariable { 1int } else { 0int }
    }
}

/// Every solver variable of the graph, in id order.
pub fn solver_variables(g: &ComputationGraph) -> (r: Vec<NodeId>)
    requires
        g.wf(),
    ensures
        r@.len() == svar_count(g, g.store.kinds@.len() as int),
        forall|k: int| 0 <= k < r@.len()
            ==> ((#[trigger] r@[k]).0 as int) < g.store.kinds@.len()
                && g.store.kinds@[r@[k].0 as int] is SolverVariable,
        forall|k1: int, k2: int| 0 <= k1 < k2 < r@.len()
            ==> (#[trigger] r@[k1]).0 < (#[trigger] r@[k2]).0,
        forall|i: int| 0 <= i < g.store.kinds@.len()
            && #[trigger] g.store.kinds@[i] is SolverVariable
            ==> exists|k: int| 0 <= k < r@.len() && ((#[trigger] r@[k]).0 as int) == i,
{
    let count = g.node_count();
    let mut out: Vec<NodeId> = Vec::new();
    let mut i: usize = 0;
    while i < count
        invariant
            0 <= i <= count,
            count == g.store.kinds@.len(),
            g.wf(),
            out@.len() == svar_count(g, i as int),
            forall|k: int| 0 <= k < out@.len()
                ==> ((#[trigger] out@[k]).0 as int) < i
                    && g.store.kinds@[out@[k].0 as int] is SolverVariable,
            forall|k1: int, k2: int| 0 <= k1 < k2 < out@.len()
                ==> (#[trigger] out@[k1]).0 < (#[trigger] out@[k2]).0,
            forall|j: int| 0 <= j < i && #[trigger] g.store.kinds@[j] is SolverVariable
                ==> exists|k: int| 0 <= k < out@.len() && ((#[trigger] out@[k]).0 as int) == j,
        decreases count - i,
    {
        let is_var = match g.store.kinds[i] {
            NodeKind::SolverVariable => true,
            _ => false,
        };
        let ghost out0 = out@;
        if is_var {
            out.push(NodeId(i as u32));
            proof {
                assert(out@[out@.len() - 1].0 as int == i as int);
            }
        }
        proof {
            assert forall|j: int| 0 <= j < i + 1 && #[trigger] g.store.kinds@[j]
                is SolverVariable
                implies exists|k: int| 0 <= k < out@.len()
                    && ((#[trigger] out@[k]).0 as int) == j by {
                if j < i {
                    let k = choose|k: int| 0 <= k < out0.len()
                        && ((#[trigger] out0[k]).0 as int) == j;
                    assert(out@[k].0 as int == j);
                } else {
                    assert(out@[out@.len() - 1].0 as int == j);
                }
            }
        }
        i = i + 1;
    }
    out
}

/// The residual node of every appended constraint, in order.
pub fn residual_nodes(g: &ComputationGraph) -> (r: Vec<NodeId>)
    requires
        g.wf(),
    ensures
        r@.len() == g.constraints@.len(),
        forall|k: int| 0 <= k < r@.len()
            ==> #[trigger] r@[k] == g.constraints@[k].0
                && ((r@[k]).0 as int) < g.store.kinds@.len(),
{
    let n = g.constraints.len();
    let mut out: Vec<NodeId> = Vec::new();
    let mut k: usize = 0;
    while k < n
        invariant
            0 <= k <= n,
            n == g.constraints@.len(),
            g.wf(),
            out@.len() == k,
            forall|q: int| 0 <= q < k
                ==> #[trigger] out@[q] == g.constraints@[q].0
                    && ((out@[q]).0 as int) < g.store.kinds@.len(),
        decreases n - k,
    {
        out.push(g.constraints[k].0);
        k = k + 1;
    }
    out
}

/// The model length: the widest series constant on the given mask of
/// nodes (in practice everything upstream of the residuals), at least one.
pub fn model_len_over(g: &ComputationGraph, mask: &Vec<bool>) -> (r: usize)
    requires
        g.wf(),
        mask@.len() == g.store.kinds@.len(),
    ensures
        r >= 1,
        forall|i: int| 0 <= i < g.store.kinds@.len() && mask@[i]
            ==> match #[trigger] g.store.kinds@[i] {
                NodeKind::TimeSeries(ix) => g.store.constants_data@[ix as int]@.len() <= r,
                _ => true,
            },
        r == 1 || exists|i: int| 0 <= i < g.store.kinds@.len() && #[trigger] mask@[i]
            && (g.store.kinds@[i] matches NodeKind::TimeSeries(ix)
                && g.store.constants_data@[ix as int]@.len() == r),
{
    let count = g.node_count();
    let mut best: usize = 1;
    let mut i: usize = 0;
    while i < count
        invariant
            0 <= i <= count,
            count == g.store.kinds@.len(),
            g.wf(),
            mask@.len() == count,
            best >= 1,
            forall|j: int| 0 <= j < i && mask@[j]
                ==> match #[trigger] g.store.kinds@[j] {
                    NodeKind::TimeSeries(ix) => g.store.constants_data@[ix as int]@.len()
                        <= best,
                    _ => true,
                },
            best == 1 || exists|j: int| 0 <= j < count && #[trigger] mask@[j]
                && (g.store.kinds@[j] matches NodeKind::TimeSeries(ix)
                    && g.store.constants_data@[ix as int]@.len() == best),
        decreases count - i,
    {
        if mask[i] {
            match g.store.kinds[i] {
                NodeKind::TimeSeries(ix) => {
                    let w = g.store.constants_data[ix as usize].len();
                    if w > best {
                        best = w;
                        proof {
                            assert(mask@[i as int]);
                        }
                    }
                },
                _ => {},
            }
        }
        i = i + 1;
    }
    best
}

/// Writes a solver iterate into the ledger: variable `k`'s time series is
/// the slice `x[k*model_len .. (k+1)*model_len]`.
pub fn unflatten_variables(
    x: &Vec<u64>,
    variables: &Vec<NodeId>,
    model_len: usize,
    led: &mut Ledger,
)
    requires
        old(led).wf(),
        model_len >= 1,
        x@.len() == variables@.len() * model_len,
        forall|k: int| 0 <= k < variables@.len() ==> (#[trigger] variables@[k]).0 < 0xFFFF_FFFF,
        forall|k1: int, k2: int| 0 <= k1 < k2 < variables@.len()
            ==> (#[trigger] variables@[k1]).0 != (#[trigger] variables@[k2]).0,
    ensures
        final(led).wf(),
        forall|k: int| 0 <= k < variables@.len() ==> {
            let n = (#[trigger] variables@[k]).0 as int;
            &&& n < final(led).cells()
            &&& final(led).status@[n] == NodeStatus::ComputedSeries
            &&& final(led).series@[n] matches Some(v)
                && v@ == x@.subrange(k * model_len, (k + 1) * model_len)
        },
        forall|i: int| 0 <= i < old(led).cells()
            && (forall|k: int| 0 <= k < variables@.len()
                ==> ((#[trigger] variables@[k]).0 as int) != i)
            ==> #[trigger] final(led).status@[i] == old(led).status@[i]
                && final(led).scalars@[i] == old(led).scalars@[i]
                && final(led).series@[i] == old(led).series@[i]
                && final(led).errors@[i] == old(led).errors@[i],
        final(led).solver_trace == old(led).solver_trace,
{
    let nv = variables.len();
    let xl = x.len();
    let mut k: usize = 0;
    while k < nv
        invariant
            0 <= k <= nv,
            nv == variables@.len(),
            led.wf(),
            model_len >= 1,
            xl == x@.len(),
            x@.len() == variables@.len() * model_len,
            forall|q: int| 0 <= q < variables@.len()
                ==> (#[trigger] variables@[q]).0 < 0xFFFF_FFFF,
            forall|k1: int, k2: int| 0 <= k1 < k2 < variables@.len()
                ==> (#[trigger] variables@[k1]).0 != (#[trigger] variables@[k2]).0,
            forall|q: int| 0 <= q < k ==> {
                let n = (#[trigger] variables@[q]).0 as int;
                &&& n < led.cells()
                &&& led.status@[n] == NodeStatus::ComputedSeries
                &&& led.series@[n] matches Some(v)
                    && v@ == x@.subrange(q * model_len, (q + 1) * model_len)
            },
            forall|i: int| 0 <= i < old(led).cells()
                && (forall|q: int| 0 <= q < variables@.len()
                    ==> ((#[trigger] variables@[q]).0 as int) != i)
                ==> #[trigger] led.status@[i] == old(led).status@[i]
                    && led.scalars@[i] == old(led).scalars@[i]
                    && led.series@[i] == old(led).series@[i]
                    && led.errors@[i] == old(led).errors@[i],
            led.cells() >= old(led).cells(),
            led.solver_trace == old(led).solver_trace,
        decreases nv - k,
    {
        proof {
            assert((k + 1) * model_len <= variables@.len() * model_len) by (nonlinear_arith)
                requires k + 1 <= variables@.len(), model_len >= 1;
            assert(k * model_len + model_len == (k + 1) * model_len) by (nonlinear_arith);
            assert(k * model_len < (k + 1) * model_len) by (nonlinear_arith)
                requires model_len >= 1;
        }
        let lo = k * model_len;
        let hi = lo + model_len;
        let mut slice: Vec<u64> = Vec::new();
        let mut t: usize = lo;
        while t < hi
            invariant
                lo <= t <= hi,
                hi <= x@.len(),
                hi == lo + model_len,
                slice@ =~= x@.subrange(lo as int, t as int),
            decreases hi - t,
        {
            slice.push(x[t]);
            proof {
                assert(slice@ =~= x@.subrange(lo as int, t + 1));
            }
            t = t + 1;
        }
        let ghost pre = *led;
        led.insert(variables[k], Ok(Value::Series(slice)));
        proof {
            let me = variables@[k as int].0 as int;
            assert forall|q: int| 0 <= q < k + 1 implies {
                let n = (#[trigger] variables@[q]).0 as int;
                &&& n < led.cells()
                &&& led.status@[n] == NodeStatus::ComputedSeries
                &&& led.series@[n] matches Some(v)
                    && v@ == x@.subrange(q * model_len, (q + 1) * model_len)
            } by {
                if q < k {
                    assert(variables@[q].0 != variables@[k as int].0);
                    assert(pre.status@[variables@[q].0 as int] == NodeStatus::ComputedSeries);
                }
            }
        }
        k = k + 1;
    }
}

/// Flattens the computed residual values into one vector: residual `i`'s
/// value at time `t` lands at `i*model_len + t`, a scalar broadcasting to
/// every time step. Fails on the first residual that is missing or held
/// an error.
pub fn pack_residuals(led: &Ledger, residuals: &Vec<NodeId>, model_len: usize)
    -> (r: Result<Vec<u64>, ComputationError>)
    requires
        led.wf(),
        model_len >= 1,
        residuals@.len() * model_len <= usize::MAX,
    ensures
        r matches Ok(g) ==> {
            &&& g@.len() == residuals@.len() * model_len
            &&& forall|i: int, t: int|
                0 <= i < residuals@.len() && 0 <= t < model_len
                ==> #[trigger] g@[i * model_len + t]
                    == cell_at(led, (#[trigger] residuals@[i]).0 as int, t)
            &&& forall|i: int| 0 <= i < residuals@.len()
                ==> led.is_set((#[trigger] residuals@[i]).0 as int)
                    && led.status@[residuals@[i].0 as int] != NodeStatus::Error
        },
        r is Err ==> exists|i: int| 0 <= i < residuals@.len()
            && (!led.is_set((#[trigger] residuals@[i]).0 as int)
                || led.status@[residuals@[i].0 as int] == NodeStatus::Error),
{
    let nr = residuals.len();
    let mut out: Vec<u64> = Vec::new();
    let mut i: usize = 0;
    while i < nr
        invariant
            0 <= i <= nr,
            nr == residuals@.len(),
            led.wf(),
            model_len >= 1,
            residuals@.len() * model_len <= usize::MAX,
            out@.len() == i * model_len,
            forall|q: int, t: int| 0 <= q < i && 0 <= t < model_len
                ==> #[trigger] out@[q * model_len + t]
                    == cell_at(led, (#[trigger] residuals@[q]).0 as int, t),
            forall|q: int| 0 <= q < i
                ==> led.is_set((#[trigger] residuals@[q]).0 as int)
                    && led.status@[residuals@[q].0 as int] != NodeStatus::Error,
        decreases nr - i,
    {
        proof {
            assert((i + 1) * model_len <= residuals@.len() * model_len) by (nonlinear_arith)
                requires i + 1 <= residuals@.len(), model_len >= 1;
            assert(i * model_len + model_len == (i + 1) * model_len) by (nonlinear_arith);
        }
        let rid = residuals[i];
        let ridx = rid.index();
        if ridx >= led.status.len() {
            return Err(ComputationError::Mismatch {
                msg: "residual was not computed".to_owned(),
            });
        }
        let bad = match led.status[ridx] {
            NodeStatus::Uncomputed => true,
            NodeStatus::Error => true,
            _ => false,
        };
        if bad {
            return Err(ComputationError::Mismatch {
                msg: "residual was not computed".to_owned(),
            });
        }
        let ghost out0 = out@;
        let mut t: usize = 0;
        while t < model_len
            invariant
                0 <= t <= model_len,
                led.wf(),
                (ridx as int) < led.cells(),
                ridx == rid.0 as usize,
                out@.len() == out0.len() + t,
                forall|q: int| 0 <= q < out0.len() ==> #[trigger] out@[q] == out0[q],
                forall|q: int| 0 <= q < t
                    ==> #[trigger] out@[out0.len() + q] == cell_at(led, ridx as int, q),
            decreases model_len - t,
        {
            out.push(crate::engine::cell_value_at_pub(led, ridx, t));
            t = t + 1;
        }
        proof {
            assert forall|q: int, t2: int| 0 <= q < i + 1 && 0 <= t2 < model_len
                implies #[trigger] out@[q * model_len + t2]
                    == cell_at(led, (#[trigger] residuals@[q]).0 as int, t2) by {
                if q < i {
                    assert(out@[q * model_len + t2] == out0[q * model_len + t2]) by {
                        assert((q + 1) * model_len <= i * model_len) by (nonlinear_arith)
                            requires q + 1 <= i, model_len >= 1;
                        assert(q * model_len + t2 < (q + 1) * model_len) by (nonlinear_arith)
                            requires t2 < model_len;
                    }
                } else {
                    assert(q * model_len == out0.len());
                    assert(out@[out0.len() + t2] == cell_at(led, ridx as int, t2));
                }
            }
        }
        i = i + 1;
    }
    Ok(out)
}

/// The dense Jacobian index structure: entry `e` of a row-major `m` by
/// `n` matrix sits at row `e / n`, column `e % n`.
pub fn jacobian_structure(m: usize, n: usize) -> (r: (Vec<u32>, Vec<u32>))
    requires
        n >= 1,
        m * n <= 0xFFFF_FFFF,
    ensures
        r.0@.len() == m * n,
        r.1@.len() == m * n,
        forall|e: int| 0 <= e < m * n
            ==> ((#[trigger] r.0@[e]) as int) == e / (n as int),
        forall|e: int| 0 <= e < m * n
            ==> ((#[trigger] r.1@[e]) as int) == e % (n as int),
{
    let total = m * n;
    let mut rows: Vec<u32> = Vec::new();
    let mut cols: Vec<u32> = Vec::new();
    let mut e: usize = 0;
    while e < total
        invariant
            0 <= e <= total,
            total == m * n,
            n >= 1,
            total <= 0xFFFF_FFFF,
            rows@.len() == e,
            cols@.len() == e,
            forall|q: int| 0 <= q < e
                ==> ((#[trigger] rows@[q]) as int) == q / (n as int),
            forall|q: int| 0 <= q < e
                ==> ((#[trigger] cols@[q]) as int) == q % (n as int),
        decreases total - e,
    {
        let row = e / n;
        let col = e % n;
        proof {
            assert(row as int == (e as int) / (n as int));
            assert(col as int == (e as int) % (n as int));
            assert((e as int) / (n as int) <= e as int) by (nonlinear_arith)
                requires n >= 1, e >= 0;
            assert(row <= 0xFFFF_FFFF);
            assert(0 <= col < n);
            assert(total >= 1);
            assert(m >= 1) by (nonlinear_arith)
                requires m * n >= 1, n >= 1;
            assert(n <= m * n) by (nonlinear_arith)
                requires m >= 1, n >= 0;
            assert(col < 0xFFFF_FFFF);
        }
        rows.push(row as u32);
        cols.push(col as u32);
        proof {
            assert((rows@[e as int]) as int == (e as int) / (n as int));
            assert((cols@[e as int]) as int == (e as int) % (n as int));
        }
        e = e + 1;
    }
    (rows, cols)
}

} // verus!
