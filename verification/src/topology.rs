//! Topological sorting and reachability over the registry.
//!
//! `sort` performs a depth-first post-order from every node with a tri-state
//! visit map; entering a node that is already on the stack is a cycle error.
//! The result places every parent before its children. `downstream_from`
//! and `upstream_from` are breadth-first reachability over the child links
//! and the parent arrays respectively.

use vstd::prelude::*;
use crate::registry::Registry;
use crate::types::NodeId;
use crate::units::dec_u64;

verus! {

/// The bounds that the sort needs: ranges and parent entries in range.
/// Well-formed registries satisfy it, but the sort itself tolerates any
/// topology — including cycles written directly into the arrays.
pub open spec fn topo_bounds(reg: &Registry) -> bool {
    &&& reg.parents_ranges@.len() == reg.kinds@.len()
    &&& reg.kinds@.len() < 0xFFFF_FFFF
    &&& forall|i: int| 0 <= i < reg.kinds@.len()
        ==> (#[trigger] reg.parents_ranges@[i]).0 + reg.parents_ranges@[i].1
            <= reg.parents_flat@.len()
    &&& forall|e: int| 0 <= e < reg.parents_flat@.len()
        ==> ((#[trigger] reg.parents_flat@[e]).0 as int) < reg.kinds@.len()
}

/// The position at which the order lists node `p`.
pub open spec fn seq_pos(order: Seq<NodeId>, p: u32) -> int {
    choose|k: int| 0 <= k < order.len() && (#[trigger] order[k]).0 == p
}

/// In a duplicate-free order, `seq_pos` finds exactly the listed position.
pub proof fn lemma_seq_pos_is(order: Seq<NodeId>, k: int)
    requires
        0 <= k < order.len(),
        forall|k1: int, k2: int| 0 <= k1 < k2 < order.len()
            ==> (#[trigger] order[k1]).0 != (#[trigger] order[k2]).0,
    ensures
        seq_pos(order, order[k].0) == k,
{
    let p = order[k].0;
    assert(exists|k2: int| 0 <= k2 < order.len() && (#[trigger] order[k2]).0 == p) by {
        assert(order[k].0 == p);
    }
    let k0 = seq_pos(order, p);
    assert(0 <= k0 < order.len() && order[k0].0 == p);
    if k0 < k {
        assert(order[k0].0 != order[k].0);
    } else if k0 > k {
        assert(order[k].0 != order[k0].0);
    }
}

/// Every parent of every listed node appears earlier in the order.
pub open spec fn parents_before(reg: &Registry, order: Seq<NodeId>) -> bool {
    forall|i: int, j: int|
        #![trigger reg.parents_seq(order[i].0 as int)[j]]
        0 <= i < order.len() && 0 <= j < reg.parents_seq(order[i].0 as int).len()
        ==> 0 <= seq_pos(order, reg.parents_seq(order[i].0 as int)[j].0) < i
            && order[seq_pos(order, reg.parents_seq(order[i].0 as int)[j].0)].0
                == reg.parents_seq(order[i].0 as int)[j].0
}

/// A complete topological order: every node exactly once, parents first.
pub open spec fn is_topo_order(reg: &Registry, order: Seq<NodeId>) -> bool {
    &&& order.len() == reg.kinds@.len()
    &&& forall|i: int| 0 <= i < order.len()
        ==> ((#[trigger] order[i]).0 as int) < reg.kinds@.len()
    &&& forall|i: int, j: int| 0 <= i < j < order.len()
        ==> (#[trigger] order[i]).0 != (#[trigger] order[j]).0
    &&& forall|v: int| 0 <= v < reg.kinds@.len()
        ==> 0 <= #[trigger] seq_pos(order, v as u32) < order.len()
            && order[seq_pos(order, v as u32)].0 as int == v
    &&& parents_before(reg, order)
}

/// Structural acyclicity: every parent id is smaller than its node's id.
/// `Registry::add_node` only ever builds such topologies.
pub open spec fn parents_precede(reg: &Registry) -> bool {
    forall|c: int, j: int|
        0 <= c < reg.kinds@.len() && 0 <= j < reg.parents_seq(c).len()
        ==> ((#[trigger] reg.parents_seq(c)[j]).0 as int) < c
}

/// A directed cycle in the parent relation: consecutive entries are
/// parent edges and the walk returns to its start.
pub open spec fn is_cycle(reg: &Registry, path: Seq<int>) -> bool {
    &&& path.len() >= 2
    &&& forall|i: int| 0 <= i < path.len() ==> 0 <= #[trigger] path[i] < reg.kinds@.len()
    &&& forall|i: int| 0 <= i < path.len() - 1 ==> reg.has_parent(#[trigger] path[i], path[i + 1])
    &&& path.last() == path[0]
}

/// How many entries of the visit map hold `v`.
pub open spec fn state_count(s: Seq<u8>, v: u8) -> int
    decreases s.len(),
{
    if s.len() == 0 {
        0
    } else {
        state_count(s.drop_last(), v) + if s.last() == v { 1int } else { 0int }
    }
}

/// Pointwise agreement except at one index determines the count change.
pub proof fn lemma_state_count_update(s: Seq<u8>, i: int, v: u8, w: u8)
    requires
        0 <= i < s.len(),
        s[i] != w,
    ensures
        state_count(s.update(i, w), w) == state_count(s, w) + 1,
        state_count(s.update(i, w), v) == state_count(s, v) - (if s[i] == v { 1int } else { 0int })
            + (if v == w { 1int } else { 0int }),
    decreases s.len(),
{
    let t = s.update(i, w);
    if i == s.len() - 1 {
        assert(t.drop_last() =~= s.drop_last());
    } else {
        assert(t.drop_last() =~= s.drop_last().update(i, w));
        assert(t.last() == s.last());
        lemma_state_count_update(s.drop_last(), i, v, w);
    }
}

/// The count is bounded by the length.
pub proof fn lemma_state_count_nonneg(s: Seq<u8>, v: u8)
    ensures
        0 <= state_count(s, v) <= s.len(),
    decreases s.len(),
{
    if s.len() > 0 {
        lemma_state_count_nonneg(s.drop_last(), v);
    }
}

/// Pointwise dominance bounds the count: if every `v` of `b` is a `v` of
/// `a`, then `b` has no more `v`s.
pub proof fn lemma_state_count_mono(a: Seq<u8>, b: Seq<u8>, v: u8)
    requires
        a.len() == b.len(),
        forall|i: int| 0 <= i < b.len() ==> (#[trigger] b[i] == v ==> a[i] == v),
    ensures
        state_count(b, v) <= state_count(a, v),
    decreases a.len(),
{
    if a.len() > 0 {
        assert(forall|i: int| 0 <= i < b.len() - 1
            ==> (#[trigger] b.drop_last()[i] == b[i] && a.drop_last()[i] == a[i]));
        lemma_state_count_mono(a.drop_last(), b.drop_last(), v);
    }
}

/// The visit bookkeeping: `order` lists exactly the finished nodes, each
/// once, with every parent of a listed node earlier in the list.
pub open spec fn visit_inv(reg: &Registry, state: Seq<u8>, order: Seq<NodeId>) -> bool {
    &&& state.len() == reg.kinds@.len()
    &&& forall|i: int| 0 <= i < state.len()
        ==> #[trigger] state[i] == 0 || state[i] == 1 || state[i] == 2
    &&& forall|k: int| 0 <= k < order.len()
        ==> ((#[trigger] order[k]).0 as int) < reg.kinds@.len()
            && state[order[k].0 as int] == 2
    &&& forall|i: int| 0 <= i < state.len()
        ==> (#[trigger] state[i] == 2 ==> exists|k: int|
            0 <= k < order.len() && (#[trigger] order[k]).0 as int == i)
    &&& forall|k1: int, k2: int| 0 <= k1 < k2 < order.len()
        ==> (#[trigger] order[k1]).0 != (#[trigger] order[k2]).0
    &&& parents_before(reg, order)
    &&& order.len() == state_count(state, 2)
}

/// The recursive depth-first visit. Finishes `node` after all of its
/// ancestors, or reports a cycle when it runs into a node that is still
/// on the stack.
fn visit(
    reg: &Registry,
    node: NodeId,
    state: &mut Vec<u8>,
    order: &mut Vec<NodeId>,
) -> (r: Result<(), String>)
    requires
        topo_bounds(reg),
        (node.0 as int) < reg.kinds@.len(),
        old(state)@[node.0 as int] == 0,
        visit_inv(reg, old(state)@, old(order)@),
        parents_precede(reg) ==> forall|i: int| 0 <= i < old(state)@.len()
            ==> (#[trigger] old(state)@[i] == 1 ==> i > node.0 as int),
    ensures
        final(state)@.len() == old(state)@.len(),
        forall|i: int| 0 <= i < old(state)@.len()
            ==> (#[trigger] old(state)@[i] == 2 ==> final(state)@[i] == 2),
        forall|i: int| 0 <= i < old(state)@.len()
            ==> (#[trigger] old(state)@[i] == 1 ==> final(state)@[i] == 1),
        forall|i: int| 0 <= i < old(state)@.len()
            ==> (#[trigger] final(state)@[i] == 0 ==> old(state)@[i] == 0),
        forall|k: int| 0 <= k < old(order)@.len()
            ==> #[trigger] final(order)@[k] == old(order)@[k],
        final(order)@.len() >= old(order)@.len(),
        state_count(final(state)@, 0) < state_count(old(state)@, 0),
        r is Ok ==> visit_inv(reg, final(state)@, final(order)@)
            && final(state)@[node.0 as int] == 2
            && (forall|i: int| 0 <= i < old(state)@.len()
                ==> (#[trigger] final(state)@[i] == 1 ==> old(state)@[i] == 1)),
        r is Err ==> !parents_precede(reg),
    decreases state_count(old(state)@, 0),
{
    let idx = node.index();
    state.set(idx, 1);
    proof {
        lemma_state_count_update(old(state)@, idx as int, 2, 1);
        lemma_state_count_update(old(state)@, idx as int, 0, 1);
        assert(state_count(state@, 0) == state_count(old(state)@, 0) - 1);
        assert(state_count(state@, 2) == state_count(old(state)@, 2));
    }
    let parents = reg.get_parents(node);
    let ghost pseq = reg.parents_seq(node.0 as int);
    let n = parents.len();
    let mut j: usize = 0;
    while j < n
        invariant
            0 <= j <= n,
            topo_bounds(reg),
            (node.0 as int) < reg.kinds@.len(),
            n == pseq.len(),
            parents@ == pseq,
            pseq == reg.parents_seq(node.0 as int),
            state@.len() == old(state)@.len(),
            state@.len() == reg.kinds@.len(),
            state@[node.0 as int] == 1,
            visit_inv(reg, state@, order@),
            state_count(state@, 0) < state_count(old(state)@, 0),
            forall|jj: int| 0 <= jj < j ==> state@[(#[trigger] pseq[jj]).0 as int] == 2,
            forall|i: int| 0 <= i < old(state)@.len()
                ==> (#[trigger] old(state)@[i] == 2 ==> state@[i] == 2),
            forall|i: int| 0 <= i < old(state)@.len()
                ==> (#[trigger] old(state)@[i] == 1 ==> state@[i] == 1),
            forall|i: int| 0 <= i < old(state)@.len()
                ==> (#[trigger] state@[i] == 0 ==> old(state)@[i] == 0),
            forall|i: int| 0 <= i < old(state)@.len() && i != node.0 as int
                ==> (#[trigger] state@[i] == 1 ==> old(state)@[i] == 1),
            forall|k: int| 0 <= k < old(order)@.len()
                ==> #[trigger] order@[k] == old(order)@[k],
            order@.len() >= old(order)@.len(),
            parents_precede(reg) ==> forall|i: int| 0 <= i < state@.len()
                ==> (#[trigger] state@[i] == 1 ==> i >= node.0 as int),
        decreases n - j,
    {
        let p = parents[j];
        let pidx = p.index();
        proof {
            assert(pseq[j as int] == p);
            assert((p.0 as int) < reg.kinds@.len());
        }
        let st = state[pidx];
        if st == 1 {
            proof {
                if parents_precede(reg) {
                    assert((pseq[j as int].0 as int) < node.0 as int);
                    assert(pidx as int >= node.0 as int);
                    assert(false);
                }
            }
            let msg = "Cycle detected involving node ".to_owned();
            return Err(msg.concat(dec_u64(pidx as u64).as_str()));
        }
        if st == 0 {
            proof {
                if parents_precede(reg) {
                    assert((pseq[j as int].0 as int) < node.0 as int);
                    assert forall|i: int| 0 <= i < state@.len()
                        implies (#[trigger] state@[i] == 1 ==> i > p.0 as int) by {
                        if state@[i] == 1 {
                            assert(i >= node.0 as int);
                        }
                    }
                }
            }
            let ghost pre = state@;
            proof {
                lemma_state_count_nonneg(pre, 0);
                assert(pre[node.0 as int] == 1);
            }
            let res = visit(reg, p, state, order);
            proof {
                assert(state@[node.0 as int] == 1);
            }
            match res {
                Ok(_) => {},
                Err(e) => {
                    return Err(e);
                },
            }
        }
        proof {
            assert(state@[pseq[j as int].0 as int] == 2);
        }
        j = j + 1;
    }
    let ghost prev = state@;
    let ghost prev_order = order@;
    state.set(idx, 2);
    order.push(node);
    proof {
        lemma_state_count_update(prev, idx as int, 0, 2);
        assert(state_count(state@, 2) == state_count(prev, 2) + 1);
        assert(state_count(state@, 0) == state_count(prev, 0));
        // The invariant carries over to the now-finished node.
        assert forall|k: int| 0 <= k < order@.len()
            implies ((#[trigger] order@[k]).0 as int) < reg.kinds@.len()
                && state@[order@[k].0 as int] == 2 by {
            if k < prev_order.len() {
                assert(order@[k] == prev_order[k]);
                assert(prev[prev_order[k].0 as int] == 2);
            } else {
                assert(order@[k] == node);
            }
        }
        assert forall|i: int| 0 <= i < state@.len()
            implies (#[trigger] state@[i] == 2 ==> exists|k: int|
                0 <= k < order@.len() && (#[trigger] order@[k]).0 as int == i) by {
            if state@[i] == 2 {
                if i == idx as int {
                    assert(order@[order@.len() - 1].0 as int == i);
                } else {
                    assert(prev[i] == 2);
                    let k = choose|k: int| 0 <= k < prev_order.len()
                        && (#[trigger] prev_order[k]).0 as int == i;
                    assert(order@[k].0 as int == i);
                }
            }
        }
        assert forall|k1: int, k2: int| 0 <= k1 < k2 < order@.len()
            implies (#[trigger] order@[k1]).0 != (#[trigger] order@[k2]).0 by {
            if k2 == order@.len() - 1 {
                assert(order@[k1] == prev_order[k1]);
                assert(prev[prev_order[k1].0 as int] == 2);
                assert(prev[node.0 as int] == 1);
            } else {
                assert(order@[k1] == prev_order[k1] && order@[k2] == prev_order[k2]);
            }
        }
        assert forall|i2: int, j2: int|
            #![trigger reg.parents_seq(order@[i2].0 as int)[j2]]
            0 <= i2 < order@.len() && 0 <= j2 < reg.parents_seq(order@[i2].0 as int).len()
            implies 0 <= seq_pos(order@, reg.parents_seq(order@[i2].0 as int)[j2].0) < i2
                && order@[seq_pos(order@, reg.parents_seq(order@[i2].0 as int)[j2].0)].0
                    == reg.parents_seq(order@[i2].0 as int)[j2].0 by {
            if i2 < prev_order.len() {
                assert(order@[i2] == prev_order[i2]);
                let p = reg.parents_seq(prev_order[i2].0 as int)[j2].0;
                let k = seq_pos(prev_order, p);
                assert(0 <= k < i2 && prev_order[k].0 == p);
                assert(order@[k].0 == p);
                lemma_seq_pos_is(order@, k);
            } else {
                // The new node: each parent is finished, so listed earlier.
                assert(order@[i2] == node);
                let par = reg.parents_seq(node.0 as int)[j2];
                assert(prev[par.0 as int] == 2);
                let k = choose|k: int| 0 <= k < prev_order.len()
                    && (#[trigger] prev_order[k]).0 as int == par.0 as int;
                assert(order@[k].0 == par.0);
                lemma_seq_pos_is(order@, k);
            }
        }
    }
    Ok(())
}

/// Topological sort by depth-first post-order over every node.
///
/// On success the order lists every node exactly once with all parents
/// before their children. A registry whose parents all precede their
/// nodes — the only kind `add_node` builds — always sorts successfully;
/// an error is only possible when a cycle has been written into the
/// parent arrays directly.
pub fn sort(registry: &Registry) -> (r: Result<Vec<NodeId>, String>)
    requires
        topo_bounds(registry),
    ensures
        r matches Ok(order) ==> is_topo_order(registry, order@),
        parents_precede(registry) ==> r is Ok,
{
    let count = registry.count();
    let mut order: Vec<NodeId> = Vec::new();
    let mut state: Vec<u8> = vec![0u8; count];
    proof {
        lemma_count_zero(state@, 2);
    }
    let mut i: usize = 0;
    while i < count
        invariant
            0 <= i <= count,
            count == registry.kinds@.len(),
            topo_bounds(registry),
            state@.len() == count,
            visit_inv(registry, state@, order@),
            forall|k: int| 0 <= k < i ==> #[trigger] state@[k] == 2,
            forall|k: int| 0 <= k < state@.len() ==> #[trigger] state@[k] != 1,
        decreases count - i,
    {
        if state[i] == 0 {
            let res = visit(registry, NodeId::new(i), &mut state, &mut order);
            match res {
                Ok(_) => {},
                Err(e) => {
                    proof {
                        assert(!parents_precede(registry));
                    }
                    return Err(e);
                },
            }
        }
        proof {
            assert(state@[i as int] == 2);
        }
        i = i + 1;
    }
    proof {
        assert(order@.len() == state_count(state@, 2));
        lemma_count_all(state@, 2);
        assert forall|v: int| 0 <= v < registry.kinds@.len()
            implies 0 <= #[trigger] seq_pos(order@, v as u32) < order@.len()
                && order@[seq_pos(order@, v as u32)].0 as int == v by {
            assert(state@[v] == 2);
            let k = choose|k: int| 0 <= k < order@.len()
                && (#[trigger] order@[k]).0 as int == v;
            assert(order@[k].0 == v as u32);
            lemma_seq_pos_is(order@, k);
        }
    }
    Ok(order)
}

/// A sequence whose entries all differ from `v` counts no `v`s.
pub proof fn lemma_count_zero_pub(s: Seq<u8>, v: u8)
    requires
        forall|i: int| 0 <= i < s.len() ==> #[trigger] s[i] != v,
    ensures
        state_count(s, v) == 0,
{
    lemma_count_zero(s, v);
}

/// A sequence whose entries all differ from `v` counts no `v`s.
proof fn lemma_count_zero(s: Seq<u8>, v: u8)
    requires
        forall|i: int| 0 <= i < s.len() ==> #[trigger] s[i] != v,
    ensures
        state_count(s, v) == 0,
    decreases s.len(),
{
    if s.len() > 0 {
        assert(forall|i: int| 0 <= i < s.len() - 1 ==> #[trigger] s.drop_last()[i] == s[i]);
        lemma_count_zero(s.drop_last(), v);
    }
}

/// A sequence whose entries all equal `v` counts only `v`s.
proof fn lemma_count_all(s: Seq<u8>, v: u8)
    requires
        forall|i: int| 0 <= i < s.len() ==> #[trigger] s[i] == v,
    ensures
        state_count(s, v) == s.len(),
    decreases s.len(),
{
    if s.len() > 0 {
        assert(forall|i: int| 0 <= i < s.len() - 1 ==> #[trigger] s.drop_last()[i] == s[i]);
        lemma_count_all(s.drop_last(), v);
    }
}

} // verus!

verus! {

/// Along a parent path, positions in a topological order strictly fall.
proof fn lemma_path_pos_falls(reg: &Registry, order: Seq<NodeId>, path: Seq<int>, i: int)
    requires
        is_topo_order(reg, order),
        is_cycle(reg, path),
        0 <= i < path.len() - 1,
    ensures
        seq_pos(order, path[i + 1] as u32) < seq_pos(order, path[i] as u32),
{
    assert(reg.has_parent(path[i], path[i + 1]));
    let j = choose|j: int| 0 <= j < reg.parents_seq(path[i]).len()
        && (#[trigger] reg.parents_seq(path[i])[j]).0 == path[i + 1];
    let pos_c = seq_pos(order, path[i] as u32);
    assert(order[pos_c].0 as int == path[i]);
    assert(reg.parents_seq(order[pos_c].0 as int)[j].0 == path[i + 1]);
    assert(0 <= seq_pos(order, reg.parents_seq(order[pos_c].0 as int)[j].0) < pos_c);
}

/// Positions fall by at least one per edge walked.
proof fn lemma_path_pos_chain(reg: &Registry, order: Seq<NodeId>, path: Seq<int>, i: int)
    requires
        is_topo_order(reg, order),
        is_cycle(reg, path),
        0 <= i < path.len(),
    ensures
        seq_pos(order, path[i] as u32) <= seq_pos(order, path[0] as u32) - i,
    decreases i,
{
    if i > 0 {
        lemma_path_pos_chain(reg, order, path, i - 1);
        lemma_path_pos_falls(reg, order, path, i - 1);
    }
}

/// No topological order coexists with a cycle in the parent relation:
/// writing an edge whose endpoint is an ancestor of its source into the
/// registry leaves `sort` no choice but the cycle error.
pub proof fn lemma_cycle_has_no_topo_order(reg: &Registry, order: Seq<NodeId>, path: Seq<int>)
    requires
        is_cycle(reg, path),
    ensures
        !is_topo_order(reg, order),
{
    if is_topo_order(reg, order) {
        lemma_path_pos_chain(reg, order, path, path.len() - 1);
        assert(path.last() == path[0]);
    }
}

} // verus!

verus! {

/// A walk along child links (`fwd` true) or parent edges (`fwd` false).
pub open spec fn step_edge(reg: &Registry, fwd: bool, u: int, v: int) -> bool {
    if fwd { reg.links_to(u, v) } else { reg.has_parent(u, v) }
}

/// A path through the graph in the chosen direction, starting at one of
/// the given nodes.
pub open spec fn walk_from(
    reg: &Registry,
    fwd: bool,
    starts: Seq<NodeId>,
    path: Seq<int>,
    v: int,
) -> bool {
    &&& path.len() >= 1
    &&& forall|i: int| 0 <= i < path.len() ==> 0 <= #[trigger] path[i] < reg.kinds@.len()
    &&& forall|i: int| 0 <= i < path.len() - 1 ==> step_edge(reg, fwd, #[trigger] path[i], path[i + 1])
    &&& exists|s: int| 0 <= s < starts.len() && (#[trigger] starts[s]).0 as int == path[0]
    &&& path.last() == v
}

/// Reachability in the chosen direction, including the start nodes.
pub open spec fn reaches(reg: &Registry, fwd: bool, starts: Seq<NodeId>, v: int) -> bool {
    exists|path: Seq<int>| #[trigger] walk_from(reg, fwd, starts, path, v)
}

/// How many entries are still unmarked.
pub open spec fn unmarked_count(s: Seq<bool>) -> int
    decreases s.len(),
{
    if s.len() == 0 {
        0
    } else {
        unmarked_count(s.drop_last()) + if s.last() { 0int } else { 1int }
    }
}

proof fn lemma_unmarked_nonneg(s: Seq<bool>)
    ensures
        0 <= unmarked_count(s) <= s.len(),
    decreases s.len(),
{
    if s.len() > 0 {
        lemma_unmarked_nonneg(s.drop_last());
    }
}

proof fn lemma_unmarked_set(s: Seq<bool>, i: int)
    requires
        0 <= i < s.len(),
        !s[i],
    ensures
        unmarked_count(s.update(i, true)) == unmarked_count(s) - 1,
    decreases s.len(),
{
    let t = s.update(i, true);
    if i == s.len() - 1 {
        assert(t.drop_last() =~= s.drop_last());
    } else {
        assert(t.drop_last() =~= s.drop_last().update(i, true));
        lemma_unmarked_set(s.drop_last(), i);
    }
}

/// A mask that covers the starts and is closed under edges covers
/// everything reachable.
proof fn lemma_closed_mask_covers(
    reg: &Registry,
    fwd: bool,
    starts: Seq<NodeId>,
    mask: Seq<bool>,
    path: Seq<int>,
    v: int,
)
    requires
        mask.len() == reg.kinds@.len(),
        forall|s: int| 0 <= s < starts.len()
            ==> ((#[trigger] starts[s]).0 as int) < reg.kinds@.len()
                && mask[starts[s].0 as int],
        forall|u: int, c: int|
            0 <= u < mask.len() && 0 <= c < mask.len() && mask[u]
                && #[trigger] step_edge(reg, fwd, u, c) ==> mask[c],
        walk_from(reg, fwd, starts, path, v),
    ensures
        0 <= v < mask.len() && mask[v],
    decreases path.len(),
{
    if path.len() == 1 {
        let s = choose|s: int| 0 <= s < starts.len() && (#[trigger] starts[s]).0 as int == path[0];
        assert(mask[path[0]]);
    } else {
        let pre = path.drop_last();
        assert(forall|i: int| 0 <= i < pre.len() ==> #[trigger] pre[i] == path[i]);
        assert(walk_from(reg, fwd, starts, pre, pre.last())) by {
            let s = choose|s: int| 0 <= s < starts.len()
                && (#[trigger] starts[s]).0 as int == path[0];
            assert(starts[s].0 as int == pre[0]);
        }
        lemma_closed_mask_covers(reg, fwd, starts, mask, pre, pre.last());
        assert(step_edge(reg, fwd, path[path.len() - 2], path[path.len() - 1]));
    }
}

/// Extending a walk by one edge keeps it a walk.
proof fn lemma_walk_extend(
    reg: &Registry,
    fwd: bool,
    starts: Seq<NodeId>,
    path: Seq<int>,
    u: int,
    c: int,
)
    requires
        walk_from(reg, fwd, starts, path, u),
        step_edge(reg, fwd, u, c),
        0 <= c < reg.kinds@.len(),
    ensures
        walk_from(reg, fwd, starts, path.push(c), c),
{
    let p2 = path.push(c);
    assert(forall|i: int| 0 <= i < path.len() ==> #[trigger] p2[i] == path[i]);
    let s = choose|s: int| 0 <= s < starts.len() && (#[trigger] starts[s]).0 as int == path[0];
    assert(starts[s].0 as int == p2[0]);
    assert forall|i: int| 0 <= i < p2.len() - 1
        implies step_edge(reg, fwd, #[trigger] p2[i], p2[i + 1]) by {
        if i < path.len() - 1 {
            assert(step_edge(reg, fwd, path[i], path[i + 1]));
        } else {
            assert(p2[i] == u && p2[i + 1] == c);
        }
    }
}

} // verus!

verus! {

/// Whether the tail of the work queue still holds node `c`.
pub open spec fn pending(queue: Seq<NodeId>, head: int, c: int) -> bool {
    exists|k: int| head <= k < queue.len() && (#[trigger] queue[k]).0 as int == c
}

/// The nodes downstream of the start set — the starts themselves and
/// everything reachable over child links — as a dense membership mask.
pub fn downstream_from(reg: &Registry, start_nodes: &[NodeId]) -> (r: Vec<bool>)
    requires
        reg.wf(),
        forall|s: int| 0 <= s < start_nodes@.len()
            ==> ((#[trigger] start_nodes@[s]).0 as int) < reg.kinds@.len(),
    ensures
        r@.len() == reg.kinds@.len(),
        forall|v: int| 0 <= v < reg.kinds@.len()
            ==> (#[trigger] r@[v] <==> reaches(reg, true, start_nodes@, v)),
{
    let count = reg.count();
    let mut mask: Vec<bool> = vec![false; count];
    let mut queue: Vec<NodeId> = Vec::new();
    let ghost mut qpaths: Seq<Seq<int>> = Seq::empty();
    let n_starts = start_nodes.len();
    let mut s: usize = 0;
    while s < n_starts
        invariant
            0 <= s <= n_starts,
            n_starts == start_nodes@.len(),
            forall|q: int| 0 <= q < start_nodes@.len()
                ==> ((#[trigger] start_nodes@[q]).0 as int) < reg.kinds@.len(),
            queue@.len() == s,
            qpaths.len() == s,
            forall|k: int| 0 <= k < s ==> #[trigger] queue@[k] == start_nodes@[k],
            forall|k: int| 0 <= k < s
                ==> walk_from(reg, true, start_nodes@, #[trigger] qpaths[k], queue@[k].0 as int),
        decreases n_starts - s,
    {
        let nd = start_nodes[s];
        queue.push(nd);
        proof {
            let p: Seq<int> = seq![nd.0 as int];
            assert(walk_from(reg, true, start_nodes@, p, nd.0 as int)) by {
                assert(start_nodes@[s as int].0 as int == p[0]);
            }
            qpaths = qpaths.push(p);
        }
        s = s + 1;
    }
    proof {
        assert forall|q: int| 0 <= q < start_nodes@.len()
            implies mask@[(#[trigger] start_nodes@[q]).0 as int]
                || pending(queue@, 0, start_nodes@[q].0 as int) by {
            assert(queue@[q].0 as int == start_nodes@[q].0 as int);
        }
    }
    let mut head: usize = 0;
    while head < queue.len()
        invariant
            reg.wf(),
            mask@.len() == reg.kinds@.len(),
            0 <= head <= queue@.len(),
            qpaths.len() == queue@.len(),
            forall|q: int| 0 <= q < start_nodes@.len()
                ==> ((#[trigger] start_nodes@[q]).0 as int) < reg.kinds@.len(),
            forall|k: int| 0 <= k < queue@.len()
                ==> ((#[trigger] queue@[k]).0 as int) < reg.kinds@.len(),
            forall|k: int| 0 <= k < queue@.len()
                ==> walk_from(reg, true, start_nodes@, #[trigger] qpaths[k], queue@[k].0 as int),
            forall|v: int| 0 <= v < mask@.len()
                ==> (#[trigger] mask@[v] ==> reaches(reg, true, start_nodes@, v)),
            forall|q: int| 0 <= q < start_nodes@.len()
                ==> mask@[(#[trigger] start_nodes@[q]).0 as int]
                    || pending(queue@, head as int, start_nodes@[q].0 as int),
            forall|u: int, c: int|
                0 <= u < mask@.len() && 0 <= c < mask@.len() && mask@[u]
                    && #[trigger] step_edge(reg, true, u, c)
                ==> mask@[c] || pending(queue@, head as int, c),
        decreases unmarked_count(mask@), queue@.len() - head,
    {
        let u = queue[head];
        let uidx = u.index();
        let ghost upath = qpaths[head as int];
        if !mask[uidx] {
            let ghost mask0 = mask@;
            mask.set(uidx, true);
            proof {
                lemma_unmarked_set(mask0, uidx as int);
                lemma_unmarked_nonneg(mask@);
                assert(walk_from(reg, true, start_nodes@, upath, uidx as int));
                assert(reaches(reg, true, start_nodes@, uidx as int));
            }
            // Walk `u`'s child list, enqueueing every child.
            let mut e: u32 = reg.first_child[uidx];
            let ghost children = reg.children_of(uidx as int);
            let ghost mut done: int = 0;
            proof {
                assert(children =~= children.take(0).add(
                    crate::registry::children_from(reg.child_targets@, reg.next_child@, e as int)));
            }
            while e != crate::registry::NO_CHILD
                invariant
                    reg.wf(),
                    mask@.len() == reg.kinds@.len(),
                    0 <= head < queue@.len(),
                    (uidx as int) < reg.kinds@.len(),
                    mask@[uidx as int],
                    children == reg.children_of(uidx as int),
                    0 <= done <= children.len(),
                    e == crate::registry::NO_CHILD
                        || (e as int) < reg.child_targets@.len(),
                    children =~= children.take(done).add(crate::registry::children_from(
                        reg.child_targets@, reg.next_child@, e as int)),
                    qpaths.len() == queue@.len(),
                    forall|q: int| 0 <= q < start_nodes@.len()
                        ==> ((#[trigger] start_nodes@[q]).0 as int) < reg.kinds@.len(),
                    forall|k: int| 0 <= k < queue@.len()
                        ==> ((#[trigger] queue@[k]).0 as int) < reg.kinds@.len(),
                    forall|k: int| 0 <= k < queue@.len()
                        ==> walk_from(reg, true, start_nodes@, #[trigger] qpaths[k],
                            queue@[k].0 as int),
                    forall|v: int| 0 <= v < mask@.len()
                        ==> (#[trigger] mask@[v] ==> reaches(reg, true, start_nodes@, v)),
                    forall|q: int| 0 <= q < start_nodes@.len()
                        ==> mask@[(#[trigger] start_nodes@[q]).0 as int]
                            || pending(queue@, head as int, start_nodes@[q].0 as int),
                    forall|u2: int, c: int|
                        0 <= u2 < mask@.len() && 0 <= c < mask@.len() && mask@[u2]
                            && u2 != uidx as int && #[trigger] step_edge(reg, true, u2, c)
                        ==> mask@[c] || pending(queue@, head as int, c),
                    forall|ix: int| 0 <= ix < done
                        ==> pending(queue@, head as int, #[trigger] children[ix]),
                    walk_from(reg, true, start_nodes@, upath, uidx as int),
                    queue@[head as int] == u,
                decreases (if e == crate::registry::NO_CHILD { 0int } else { e as int + 1 }),
            {
                let c = reg.child_targets[e as usize];
                let ghost queue0 = queue@;
                queue.push(c);
                proof {
                    // The head of the remaining walk is this child.
                    let rest = crate::registry::children_from(
                        reg.child_targets@, reg.next_child@, e as int);
                    assert(rest[0] == c.0 as int);
                    assert(children[done] == c.0 as int);
                    assert(reg.children_of(uidx as int).contains(c.0 as int));
                    assert(reg.links_to(uidx as int, c.0 as int));
                    assert((c.0 as int) < reg.kinds@.len());
                    lemma_walk_extend(reg, true, start_nodes@, upath, uidx as int, c.0 as int);
                    qpaths = qpaths.push(upath.push(c.0 as int));
                    assert forall|k: int| 0 <= k < queue@.len()
                        implies walk_from(reg, true, start_nodes@, #[trigger] qpaths[k],
                            queue@[k].0 as int) by {
                        if k < queue0.len() {
                            assert(queue@[k] == queue0[k]);
                        }
                    }
                    assert forall|q: int| 0 <= q < start_nodes@.len()
                        implies mask@[(#[trigger] start_nodes@[q]).0 as int]
                            || pending(queue@, head as int, start_nodes@[q].0 as int) by {
                        if !mask@[start_nodes@[q].0 as int] {
                            let k = choose|k: int| head <= k < queue0.len()
                                && (#[trigger] queue0[k]).0 as int == start_nodes@[q].0 as int;
                            assert(queue@[k].0 as int == start_nodes@[q].0 as int);
                        }
                    }
                    assert forall|u2: int, c2: int|
                        0 <= u2 < mask@.len() && 0 <= c2 < mask@.len() && mask@[u2]
                            && u2 != uidx as int && #[trigger] step_edge(reg, true, u2, c2)
                        implies mask@[c2] || pending(queue@, head as int, c2) by {
                        if !mask@[c2] {
                            let k = choose|k: int| head <= k < queue0.len()
                                && (#[trigger] queue0[k]).0 as int == c2;
                            assert(queue@[k].0 as int == c2);
                        }
                    }
                    assert forall|ix: int| 0 <= ix < done + 1
                        implies pending(queue@, head as int, #[trigger] children[ix]) by {
                        if ix < done {
                            let k = choose|k: int| head <= k < queue0.len()
                                && (#[trigger] queue0[k]).0 as int == children[ix];
                            assert(queue@[k].0 as int == children[ix]);
                        } else {
                            assert(queue@[queue@.len() - 1].0 as int == children[done]);
                        }
                    }
                    // Step the decomposition one link onward.
                    let nx = reg.next_child@[e as int];
                    assert(crate::registry::children_from(
                        reg.child_targets@, reg.next_child@, e as int)
                        =~= seq![c.0 as int].add(crate::registry::children_from(
                            reg.child_targets@, reg.next_child@, nx as int)));
                    assert(children =~= children.take(done + 1).add(
                        crate::registry::children_from(
                            reg.child_targets@, reg.next_child@, nx as int))) by {
                        assert(children.take(done + 1) =~= children.take(done).push(c.0 as int));
                    }
                    done = done + 1;
                }
                e = reg.next_child[e as usize];
            }
            proof {
                assert(crate::registry::children_from(
                    reg.child_targets@, reg.next_child@, e as int) =~= Seq::<int>::empty());
                assert(children =~= children.take(done));
                assert(done == children.len());
                // All of `u`'s successors are now pending.
                assert forall|u2: int, c: int|
                    0 <= u2 < mask@.len() && 0 <= c < mask@.len() && mask@[u2]
                        && #[trigger] step_edge(reg, true, u2, c)
                    implies mask@[c] || pending(queue@, head as int, c) by {
                    if u2 == uidx as int && !mask@[c] {
                        let ix = choose|ix: int| 0 <= ix < children.len()
                            && children[ix] == c;
                        assert(pending(queue@, head as int, children[ix]));
                    }
                }
            }
        }
        let ghost queue_b = queue@;
        let ghost head_b = head as int;
        head = head + 1;
        proof {
            // Entry `head_b` is masked now, so dropping it from the pending
            // window keeps every covering fact.
            assert(mask@[queue_b[head_b].0 as int]);
            assert forall|q: int| 0 <= q < start_nodes@.len()
                implies mask@[(#[trigger] start_nodes@[q]).0 as int]
                    || pending(queue@, head as int, start_nodes@[q].0 as int) by {
                if !mask@[start_nodes@[q].0 as int] {
                    let k = choose|k: int| head_b <= k < queue_b.len()
                        && (#[trigger] queue_b[k]).0 as int == start_nodes@[q].0 as int;
                    assert(k != head_b);
                    assert(queue@[k].0 as int == start_nodes@[q].0 as int);
                }
            }
            assert forall|u2: int, c: int|
                0 <= u2 < mask@.len() && 0 <= c < mask@.len() && mask@[u2]
                    && #[trigger] step_edge(reg, true, u2, c)
                implies mask@[c] || pending(queue@, head as int, c) by {
                if !mask@[c] {
                    let k = choose|k: int| head_b <= k < queue_b.len()
                        && (#[trigger] queue_b[k]).0 as int == c;
                    assert(k != head_b);
                    assert(queue@[k].0 as int == c);
                }
            }
        }
    }
    proof {
        // With the queue drained, the mask is closed, so it covers exactly
        // the reachable nodes.
        assert forall|v: int| 0 <= v < reg.kinds@.len()
            implies (#[trigger] mask@[v] <==> reaches(reg, true, start_nodes@, v)) by {
            if reaches(reg, true, start_nodes@, v) {
                let path = choose|path: Seq<int>|
                    #[trigger] walk_from(reg, true, start_nodes@, path, v);
                assert forall|q: int| 0 <= q < start_nodes@.len()
                    implies ((#[trigger] start_nodes@[q]).0 as int) < reg.kinds@.len()
                        && mask@[start_nodes@[q].0 as int] by {}
                lemma_closed_mask_covers(reg, true, start_nodes@, mask@, path, v);
            }
        }
    }
    mask
}

} // verus!

verus! {

/// The nodes upstream of the start set — the starts themselves and
/// everything reachable over parent edges — as a dense membership mask.
pub fn upstream_from(reg: &Registry, start_nodes: &[NodeId]) -> (r: Vec<bool>)
    requires
        reg.wf(),
        forall|s: int| 0 <= s < start_nodes@.len()
            ==> ((#[trigger] start_nodes@[s]).0 as int) < reg.kinds@.len(),
    ensures
        r@.len() == reg.kinds@.len(),
        forall|v: int| 0 <= v < reg.kinds@.len()
            ==> (#[trigger] r@[v] <==> reaches(reg, false, start_nodes@, v)),
{
    let count = reg.count();
    let mut mask: Vec<bool> = vec![false; count];
    let mut queue: Vec<NodeId> = Vec::new();
    let ghost mut qpaths: Seq<Seq<int>> = Seq::empty();
    let n_starts = start_nodes.len();
    let mut s: usize = 0;
    while s < n_starts
        invariant
            0 <= s <= n_starts,
            n_starts == start_nodes@.len(),
            forall|q: int| 0 <= q < start_nodes@.len()
                ==> ((#[trigger] start_nodes@[q]).0 as int) < reg.kinds@.len(),
            queue@.len() == s,
            qpaths.len() == s,
            forall|k: int| 0 <= k < s ==> #[trigger] queue@[k] == start_nodes@[k],
            forall|k: int| 0 <= k < s
                ==> walk_from(reg, false, start_nodes@, #[trigger] qpaths[k], queue@[k].0 as int),
        decreases n_starts - s,
    {
        let nd = start_nodes[s];
        queue.push(nd);
        proof {
            let p: Seq<int> = seq![nd.0 as int];
            assert(walk_from(reg, false, start_nodes@, p, nd.0 as int)) by {
                assert(start_nodes@[s as int].0 as int == p[0]);
            }
            qpaths = qpaths.push(p);
        }
        s = s + 1;
    }
    proof {
        assert forall|q: int| 0 <= q < start_nodes@.len()
            implies mask@[(#[trigger] start_nodes@[q]).0 as int]
                || pending(queue@, 0, start_nodes@[q].0 as int) by {
            assert(queue@[q].0 as int == start_nodes@[q].0 as int);
        }
    }
    let mut head: usize = 0;
    while head < queue.len()
        invariant
            reg.wf(),
            mask@.len() == reg.kinds@.len(),
            0 <= head <= queue@.len(),
            qpaths.len() == queue@.len(),
            forall|q: int| 0 <= q < start_nodes@.len()
                ==> ((#[trigger] start_nodes@[q]).0 as int) < reg.kinds@.len(),
            forall|k: int| 0 <= k < queue@.len()
                ==> ((#[trigger] queue@[k]).0 as int) < reg.kinds@.len(),
            forall|k: int| 0 <= k < queue@.len()
                ==> walk_from(reg, false, start_nodes@, #[trigger] qpaths[k], queue@[k].0 as int),
            forall|v: int| 0 <= v < mask@.len()
                ==> (#[trigger] mask@[v] ==> reaches(reg, false, start_nodes@, v)),
            forall|q: int| 0 <= q < start_nodes@.len()
                ==> mask@[(#[trigger] start_nodes@[q]).0 as int]
                    || pending(queue@, head as int, start_nodes@[q].0 as int),
            forall|u: int, c: int|
                0 <= u < mask@.len() && 0 <= c < mask@.len() && mask@[u]
                    && #[trigger] step_edge(reg, false, u, c)
                ==> mask@[c] || pending(queue@, head as int, c),
        decreases unmarked_count(mask@), queue@.len() - head,
    {
        let u = queue[head];
        let uidx = u.index();
        let ghost upath = qpaths[head as int];
        if !mask[uidx] {
            let ghost mask0 = mask@;
            mask.set(uidx, true);
            proof {
                lemma_unmarked_set(mask0, uidx as int);
                lemma_unmarked_nonneg(mask@);
                assert(walk_from(reg, false, start_nodes@, upath, uidx as int));
                assert(reaches(reg, false, start_nodes@, uidx as int));
            }
            let parents = reg.get_parents(u);
            let ghost pseq = reg.parents_seq(uidx as int);
            let np = parents.len();
            let mut j: usize = 0;
            while j < np
                invariant
                    reg.wf(),
                    mask@.len() == reg.kinds@.len(),
                    0 <= head < queue@.len(),
                    (uidx as int) < reg.kinds@.len(),
                    mask@[uidx as int],
                    0 <= j <= np,
                    np == pseq.len(),
                    parents@ == pseq,
                    pseq == reg.parents_seq(uidx as int),
                    qpaths.len() == queue@.len(),
                    forall|q: int| 0 <= q < start_nodes@.len()
                        ==> ((#[trigger] start_nodes@[q]).0 as int) < reg.kinds@.len(),
                    forall|k: int| 0 <= k < queue@.len()
                        ==> ((#[trigger] queue@[k]).0 as int) < reg.kinds@.len(),
                    forall|k: int| 0 <= k < queue@.len()
                        ==> walk_from(reg, false, start_nodes@, #[trigger] qpaths[k],
                            queue@[k].0 as int),
                    forall|v: int| 0 <= v < mask@.len()
                        ==> (#[trigger] mask@[v] ==> reaches(reg, false, start_nodes@, v)),
                    forall|q: int| 0 <= q < start_nodes@.len()
                        ==> mask@[(#[trigger] start_nodes@[q]).0 as int]
                            || pending(queue@, head as int, start_nodes@[q].0 as int),
                    forall|u2: int, c: int|
                        0 <= u2 < mask@.len() && 0 <= c < mask@.len() && mask@[u2]
                            && u2 != uidx as int && #[trigger] step_edge(reg, false, u2, c)
                        ==> mask@[c] || pending(queue@, head as int, c),
                    forall|jj: int| 0 <= jj < j
                        ==> pending(queue@, head as int, (#[trigger] pseq[jj]).0 as int),
                    walk_from(reg, false, start_nodes@, upath, uidx as int),
                    queue@[head as int] == u,
                decreases np - j,
            {
                let c = parents[j];
                let ghost queue0 = queue@;
                queue.push(c);
                proof {
                    assert(pseq[j as int] == c);
                    assert((c.0 as int) < reg.kinds@.len());
                    assert(reg.has_parent(uidx as int, c.0 as int)) by {
                        assert(reg.parents_seq(uidx as int)[j as int].0 == c.0);
                    }
                    assert(step_edge(reg, false, uidx as int, c.0 as int));
                    lemma_walk_extend(reg, false, start_nodes@, upath, uidx as int, c.0 as int);
                    qpaths = qpaths.push(upath.push(c.0 as int));
                    assert forall|k: int| 0 <= k < queue@.len()
                        implies walk_from(reg, false, start_nodes@, #[trigger] qpaths[k],
                            queue@[k].0 as int) by {
                        if k < queue0.len() {
                            assert(queue@[k] == queue0[k]);
                        }
                    }
                    assert forall|q: int| 0 <= q < start_nodes@.len()
                        implies mask@[(#[trigger] start_nodes@[q]).0 as int]
                            || pending(queue@, head as int, start_nodes@[q].0 as int) by {
                        if !mask@[start_nodes@[q].0 as int] {
                            let k = choose|k: int| head <= k < queue0.len()
                                && (#[trigger] queue0[k]).0 as int == start_nodes@[q].0 as int;
                            assert(queue@[k].0 as int == start_nodes@[q].0 as int);
                        }
                    }
                    assert forall|u2: int, c2: int|
                        0 <= u2 < mask@.len() && 0 <= c2 < mask@.len() && mask@[u2]
                            && u2 != uidx as int && #[trigger] step_edge(reg, false, u2, c2)
                        implies mask@[c2] || pending(queue@, head as int, c2) by {
                        if !mask@[c2] {
                            let k = choose|k: int| head <= k < queue0.len()
                                && (#[trigger] queue0[k]).0 as int == c2;
                            assert(queue@[k].0 as int == c2);
                        }
                    }
                    assert forall|jj: int| 0 <= jj < j + 1
                        implies pending(queue@, head as int, (#[trigger] pseq[jj]).0 as int) by {
                        if jj < j {
                            let k = choose|k: int| head <= k < queue0.len()
                                && (#[trigger] queue0[k]).0 as int == pseq[jj].0 as int;
                            assert(queue@[k].0 as int == pseq[jj].0 as int);
                        } else {
                            assert(queue@[queue@.len() - 1].0 as int == pseq[j as int].0 as int);
                        }
                    }
                }
                j = j + 1;
            }
            proof {
                // All of `u`'s parents are now pending.
                assert forall|u2: int, c: int|
                    0 <= u2 < mask@.len() && 0 <= c < mask@.len() && mask@[u2]
                        && #[trigger] step_edge(reg, false, u2, c)
                    implies mask@[c] || pending(queue@, head as int, c) by {
                    if u2 == uidx as int && !mask@[c] {
                        let jj = choose|jj: int| 0 <= jj < reg.parents_seq(u2).len()
                            && (#[trigger] reg.parents_seq(u2)[jj]).0 == c;
                        assert(pending(queue@, head as int, (pseq[jj]).0 as int));
                    }
                }
            }
        }
        let ghost queue_b = queue@;
        let ghost head_b = head as int;
        head = head + 1;
        proof {
            assert(mask@[queue_b[head_b].0 as int]);
            assert forall|q: int| 0 <= q < start_nodes@.len()
                implies mask@[(#[trigger] start_nodes@[q]).0 as int]
                    || pending(queue@, head as int, start_nodes@[q].0 as int) by {
                if !mask@[start_nodes@[q].0 as int] {
                    let k = choose|k: int| head_b <= k < queue_b.len()
                        && (#[trigger] queue_b[k]).0 as int == start_nodes@[q].0 as int;
                    assert(k != head_b);
                    assert(queue@[k].0 as int == start_nodes@[q].0 as int);
                }
            }
            assert forall|u2: int, c: int|
                0 <= u2 < mask@.len() && 0 <= c < mask@.len() && mask@[u2]
                    && #[trigger] step_edge(reg, false, u2, c)
                implies mask@[c] || pending(queue@, head as int, c) by {
                if !mask@[c] {
                    let k = choose|k: int| head_b <= k < queue_b.len()
                        && (#[trigger] queue_b[k]).0 as int == c;
                    assert(k != head_b);
                    assert(queue@[k].0 as int == c);
                }
            }
        }
    }
    proof {
        assert forall|v: int| 0 <= v < reg.kinds@.len()
            implies (#[trigger] mask@[v] <==> reaches(reg, false, start_nodes@, v)) by {
            if reaches(reg, false, start_nodes@, v) {
                let path = choose|path: Seq<int>|
                    #[trigger] walk_from(reg, false, start_nodes@, path, v);
                lemma_closed_mask_covers(reg, false, start_nodes@, mask@, path, v);
            }
        }
    }
    mask
}

} // verus!
