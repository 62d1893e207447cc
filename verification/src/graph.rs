//! The high-level computation graph: the registry together with the
//! graph algorithms and the constraint list for the solver.

use vstd::prelude::*;
use crate::ledger::ComputationError;
use crate::registry::Registry;
use crate::topology;
use crate::types::{NodeId, NodeKind, NodeMetadata, Operation};

verus! {

/// The name a constraint's residual node asks for: the constraint name
/// under the `residual_for_` prefix. Collisions are resolved by the
/// registry's usual `_k` suffixing.
pub open spec fn residual_name(n: Seq<char>) -> Seq<char> {
    "residual_for_"@.add(n)
}

/// A computation graph: the columnar registry plus the appended
/// equality constraints, each held as its synthetic residual node.
pub struct ComputationGraph {
    pub store: Registry,
    /// `(residual, name)`: the residual is a `lhs - rhs` formula whose
    /// zero encodes `lhs = rhs`.
    pub constraints: Vec<(NodeId, String)>,
}

impl ComputationGraph {
    /// Every constraint's residual is a registered node.
    pub open spec fn wf(&self) -> bool {
        &&& self.store.wf()
        &&& forall|c: int| 0 <= c < self.constraints@.len()
            ==> ((#[trigger] self.constraints@[c]).0.0 as int) < self.store.kinds@.len()
    }

    /// An empty graph.
    pub fn new() -> (r: Self)
        ensures
            r.wf(),
            r.store.kinds@.len() == 0,
            r.constraints@.len() == 0,
    {
        ComputationGraph { store: Registry::new(), constraints: Vec::new() }
    }

    /// The number of nodes.
    pub fn node_count(&self) -> (n: usize)
        ensures
            n == self.store.kinds@.len(),
    {
        self.store.count()
    }

    /// Adds a constant: inline scalar for one value, owned series for more.
    pub fn add_constant(&mut self, value: Vec<u64>, meta: NodeMetadata) -> (id: NodeId)
        requires
            old(self).wf(),
            value@.len() >= 1,
            old(self).store.kinds@.len() + 1 < 0xFFFF_FFFF,
            old(self).store.constants_data@.len() + 1 < 0xFFFF_FFFF,
        ensures
            final(self).wf(),
            id.0 as int == old(self).store.kinds@.len(),
            final(self).store.kinds@.len() == old(self).store.kinds@.len() + 1,
            value@.len() == 1 ==> final(self).store.kinds@
                == old(self).store.kinds@.push(NodeKind::Scalar(value@[0]))
                && final(self).store.constants_data@ == old(self).store.constants_data@,
            value@.len() >= 2 ==> final(self).store.kinds@ == old(self).store.kinds@.push(
                NodeKind::TimeSeries(old(self).store.constants_data@.len() as u32))
                && final(self).store.constants_data@
                    == old(self).store.constants_data@.push(value),
            final(self).store.parents_flat@ == old(self).store.parents_flat@,
            final(self).store.parents_seq(id.0 as int) == Seq::<NodeId>::empty(),
            final(self).constraints == old(self).constraints,
    {
        let id = self.store.add_constant(value, meta);
        proof {
            assert(self.store.parents_flat@ =~= old(self).store.parents_flat@);
        }
        id
    }

    /// Adds a binary or temporal formula over existing nodes.
    pub fn add_formula(&mut self, op: Operation, parents: Vec<NodeId>, meta: NodeMetadata)
        -> (id: NodeId)
        requires
            old(self).wf(),
            forall|j: int| 0 <= j < parents@.len()
                ==> ((#[trigger] parents@[j]).0 as int) < old(self).store.kinds@.len(),
            old(self).store.kinds@.len() + 1 < 0xFFFF_FFFF,
            old(self).store.parents_flat@.len() + parents@.len() < 0xFFFF_FFFF,
        ensures
            final(self).wf(),
            id.0 as int == old(self).store.kinds@.len(),
            final(self).store.kinds@ == old(self).store.kinds@.push(NodeKind::Formula(op)),
            final(self).store.parents_seq(id.0 as int) == parents@,
            final(self).store.parents_flat@ == old(self).store.parents_flat@ + parents@,
            final(self).store.constants_data == old(self).store.constants_data,
            final(self).constraints == old(self).constraints,
    {
        self.store.add_formula(op, parents, meta)
    }

    /// Adds a solver variable: a placeholder the solver will fill.
    pub fn add_solver_var(&mut self, meta: NodeMetadata) -> (id: NodeId)
        requires
            old(self).wf(),
            old(self).store.kinds@.len() + 1 < 0xFFFF_FFFF,
        ensures
            final(self).wf(),
            id.0 as int == old(self).store.kinds@.len(),
            final(self).store.kinds@ == old(self).store.kinds@.push(NodeKind::SolverVariable),
            final(self).store.constants_data == old(self).store.constants_data,
            final(self).store.parents_flat@ == old(self).store.parents_flat@,
            final(self).constraints == old(self).constraints,
    {
        let id = self.store.add_solver_var(meta);
        proof {
            assert(self.store.parents_flat@ =~= old(self).store.parents_flat@);
        }
        id
    }

    /// Replaces a constant's value; fails on kind or width changes.
    pub fn update_constant(&mut self, id: NodeId, val: Vec<u64>) -> (r: Result<(), String>)
        requires
            old(self).wf(),
            (id.0 as int) < old(self).store.kinds@.len(),
        ensures
            final(self).wf(),
            final(self).store.kinds@.len() == old(self).store.kinds@.len(),
            final(self).constraints == old(self).constraints,
            match old(self).store.kinds@[id.0 as int] {
                NodeKind::Scalar(_) => {
                    if val@.len() == 1 {
                        r is Ok && final(self).store.kinds@ == old(self).store.kinds@.update(
                            id.0 as int, NodeKind::Scalar(val@[0]))
                    } else {
                        r is Err && final(self).store == old(self).store
                    }
                },
                NodeKind::TimeSeries(ix) => {
                    if val@.len() >= 2 {
                        r is Ok && final(self).store.constants_data@
                            == old(self).store.constants_data@.update(ix as int, val)
                    } else {
                        r is Err && final(self).store == old(self).store
                    }
                },
                _ => r is Err && final(self).store == old(self).store,
            },
    {
        self.store.update_constant(id, val)
    }

    /// The stored series of a series constant.
    pub fn get_constant_value(&self, id: NodeId) -> (r: Option<&Vec<u64>>)
        requires
            self.wf(),
            (id.0 as int) < self.store.kinds@.len(),
        ensures
            match self.store.kinds@[id.0 as int] {
                NodeKind::TimeSeries(ix) => r matches Some(v)
                    && v@ == self.store.constants_data@[ix as int]@,
                _ => r is None,
            },
    {
        self.store.get_constant(id)
    }

    /// Appends the constraint `lhs = rhs` as the residual node `lhs - rhs`.
    pub fn must_equal(&mut self, lhs: NodeId, rhs: NodeId, name: String) -> (id: NodeId)
        requires
            old(self).wf(),
            (lhs.0 as int) < old(self).store.kinds@.len(),
            (rhs.0 as int) < old(self).store.kinds@.len(),
            old(self).store.kinds@.len() + 1 < 0xFFFF_FFFF,
            old(self).store.parents_flat@.len() + 2 < 0xFFFF_FFFF,
        ensures
            final(self).wf(),
            id.0 as int == old(self).store.kinds@.len(),
            final(self).store.kinds@ == old(self).store.kinds@.push(
                NodeKind::Formula(Operation::Subtract)),
            final(self).store.parents_seq(id.0 as int) == seq![lhs, rhs],
            final(self).constraints@ == old(self).constraints@.push((id, name)),
            old(self).store.name_free(residual_name(name@))
                ==> final(self).store.meta@[id.0 as int].name@ == residual_name(name@),
            !old(self).store.name_free(residual_name(name@)) ==> exists|k: int|
                1 <= k && final(self).store.meta@[id.0 as int].name@
                    == crate::registry::suffixed_name(residual_name(name@), k)
                    && old(self).store.name_free(
                        crate::registry::suffixed_name(residual_name(name@), k)),
    {
        let mut parents: Vec<NodeId> = Vec::new();
        parents.push(lhs);
        parents.push(rhs);
        proof {
            assert(parents@ =~= seq![lhs, rhs]);
        }
        let mut res_name = String::new();
        res_name.append("residual_for_");
        res_name.append(name.as_str());
        proof {
            assert(res_name@ =~= residual_name(name@));
        }
        let meta = NodeMetadata { name: res_name, temporal_type: None, unit: None };
        let id = self.store.add_formula(Operation::Subtract, parents, meta);
        self.constraints.push((id, name));
        id
    }

    /// A topological order of the whole graph, parents before children.
    pub fn topological_order(&self) -> (r: Result<Vec<NodeId>, String>)
        requires
            self.wf(),
        ensures
            r matches Ok(order) ==> topology::is_topo_order(&self.store, order@),
            r is Ok,
    {
        proof {
            assert(topology::parents_precede(&self.store));
        }
        topology::sort(&self.store)
    }

    /// Membership mask of everything downstream of the starts.
    pub fn downstream_from(&self, start_nodes: &[NodeId]) -> (r: Vec<bool>)
        requires
            self.wf(),
            forall|s: int| 0 <= s < start_nodes@.len()
                ==> ((#[trigger] start_nodes@[s]).0 as int) < self.store.kinds@.len(),
        ensures
            r@.len() == self.store.kinds@.len(),
            forall|v: int| 0 <= v < self.store.kinds@.len()
                ==> (#[trigger] r@[v] <==> topology::reaches(&self.store, true, start_nodes@, v)),
    {
        topology::downstream_from(&self.store, start_nodes)
    }

    /// Membership mask of everything upstream of the starts.
    pub fn upstream_from(&self, start_nodes: &[NodeId]) -> (r: Vec<bool>)
        requires
            self.wf(),
            forall|s: int| 0 <= s < start_nodes@.len()
                ==> ((#[trigger] start_nodes@[s]).0 as int) < self.store.kinds@.len(),
        ensures
            r@.len() == self.store.kinds@.len(),
            forall|v: int| 0 <= v < self.store.kinds@.len()
                ==> (#[trigger] r@[v] <==> topology::reaches(&self.store, false, start_nodes@, v)),
    {
        topology::upstream_from(&self.store, start_nodes)
    }

    /// The kind of one node.
    pub fn get_node_kind(&self, id: NodeId) -> (r: NodeKind)
        requires
            self.wf(),
            (id.0 as int) < self.store.kinds@.len(),
        ensures
            r == self.store.kinds@[id.0 as int],
    {
        self.store.kinds[id.index()]
    }

    /// The metadata of one node.
    pub fn get_node_meta(&self, id: NodeId) -> (r: &NodeMetadata)
        requires
            self.wf(),
            (id.0 as int) < self.store.kinds@.len(),
        ensures
            r == &self.store.meta@[id.0 as int],
    {
        &self.store.meta[id.index()]
    }

    /// The ordered parents of one node.
    pub fn get_parents(&self, id: NodeId) -> (r: &[NodeId])
        requires
            self.wf(),
            (id.0 as int) < self.store.kinds@.len(),
        ensures
            r@ == self.store.parents_seq(id.0 as int),
    {
        self.store.get_parents(id)
    }
}

} // verus!
