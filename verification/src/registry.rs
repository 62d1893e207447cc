//! The columnar node registry: kinds, metadata, CSR parent topology, an
//! intrusive singly-linked child adjacency, and the owned series table.
//!
//! Topology is append-only: nodes are never removed and an id never changes
//! meaning. Each node's parents all have smaller ids, so a registry built
//! through `add_node` is acyclic by construction. Names are unique across
//! the registry: a collision is resolved by appending `_k` for the smallest
//! free `k`.

use vstd::prelude::*;
use crate::types::{NodeId, NodeKind, NodeMetadata, TemporalType, Unit};
use crate::units::{dec_spec, dec_u64};

verus! {

/// The sentinel marking the end of a child list.
pub const NO_CHILD: u32 = 0xFFFF_FFFF;

/// The child node indexes reachable from edge `e` through `next`.
/// Under the registry invariant each `next` pointer is either the sentinel
/// or a strictly smaller edge index, so the walk stops.
pub open spec fn children_from(targets: Seq<NodeId>, next: Seq<u32>, e: int) -> Seq<int>
    decreases (if e < 0 { 0int } else { e + 1 }),
{
    if e < 0 || e >= targets.len() || e >= next.len() {
        Seq::empty()
    } else {
        let t = targets[e].0 as int;
        let nx = next[e] as int;
        if nx >= e {
            seq![t]
        } else {
            seq![t].add(children_from(targets, next, nx))
        }
    }
}

/// A walk that stays in a common prefix of two edge tables is the same walk.
pub proof fn lemma_children_from_frame(
    t1: Seq<NodeId>,
    n1: Seq<u32>,
    t2: Seq<NodeId>,
    n2: Seq<u32>,
    e: int,
)
    requires
        n1.len() == t1.len(),
        n2.len() == t2.len(),
        t1.len() <= t2.len(),
        forall|i: int| 0 <= i < t1.len() ==> #[trigger] t2[i] == t1[i],
        forall|i: int| 0 <= i < t1.len() ==> #[trigger] n2[i] == n1[i],
        e < t1.len(),
    ensures
        children_from(t2, n2, e) == children_from(t1, n1, e),
    decreases (if e < 0 { 0int } else { e + 1 }),
{
    if e < 0 {
    } else {
        let nx = n1[e] as int;
        if nx < e {
            lemma_children_from_frame(t1, n1, t2, n2, nx);
        }
    }
}

/// Every child named by a walk is a stored target, hence within bounds.
pub proof fn lemma_children_from_bounds(targets: Seq<NodeId>, next: Seq<u32>, e: int, bound: int)
    requires
        forall|i: int| 0 <= i < targets.len() ==> ((#[trigger] targets[i]).0 as int) < bound,
    ensures
        forall|ix: int| 0 <= ix < children_from(targets, next, e).len()
            ==> #[trigger] children_from(targets, next, e)[ix] < bound
                && children_from(targets, next, e)[ix] >= 0,
    decreases (if e < 0 { 0int } else { e + 1 }),
{
    if e < 0 || e >= targets.len() || e >= next.len() {
    } else {
        let nx = next[e] as int;
        if nx < e {
            lemma_children_from_bounds(targets, next, nx, bound);
            assert forall|ix: int| 0 <= ix < children_from(targets, next, e).len()
                implies #[trigger] children_from(targets, next, e)[ix] < bound
                    && children_from(targets, next, e)[ix] >= 0 by {
                if ix > 0 {
                    assert(children_from(targets, next, e)[ix]
                        == children_from(targets, next, nx)[ix - 1]);
                }
            }
        }
    }
}

/// The registry: one row of each column per node.
#[derive(Debug)]
pub struct Registry {
    pub kinds: Vec<NodeKind>,
    pub meta: Vec<NodeMetadata>,
    /// CSR parents: node `i` owns `parents_flat[r .. r+c]` with
    /// `(r, c) = parents_ranges[i]`.
    pub parents_flat: Vec<NodeId>,
    pub parents_ranges: Vec<(u32, u32)>,
    /// Intrusive child lists: `first_child[i]` heads node `i`'s list,
    /// `next_child[e]` chains edge `e`, `NO_CHILD` ends a list.
    pub first_child: Vec<u32>,
    pub child_targets: Vec<NodeId>,
    pub next_child: Vec<u32>,
    /// Owned series constants (64-bit float bit patterns), length >= 2.
    pub constants_data: Vec<Vec<u64>>,
    /// The resolved name of each node, for uniqueness checks.
    pub used_names: Vec<String>,
}

impl Registry {
    /// The parent ids of node `c`, as stored.
    pub open spec fn parents_seq(&self, c: int) -> Seq<NodeId> {
        self.parents_flat@.subrange(
            self.parents_ranges@[c].0 as int,
            self.parents_ranges@[c].0 + self.parents_ranges@[c].1,
        )
    }

    /// Whether `p` is a parent of `c`.
    pub open spec fn has_parent(&self, c: int, p: int) -> bool {
        exists|j: int| 0 <= j < self.parents_seq(c).len()
            && (#[trigger] self.parents_seq(c)[j]).0 == p
    }

    /// The children of `p`, read from the intrusive lists.
    pub open spec fn children_of(&self, p: int) -> Seq<int> {
        children_from(self.child_targets@, self.next_child@, self.first_child@[p] as int)
    }

    /// Whether the child lists link `p` to `c`.
    pub open spec fn links_to(&self, p: int, c: int) -> bool {
        self.children_of(p).contains(c)
    }

    /// No node is named `n`.
    pub open spec fn name_free(&self, n: Seq<char>) -> bool {
        forall|i: int| 0 <= i < self.meta@.len() ==> (#[trigger] self.meta@[i].name)@ != n
    }

    /// Structural well-formedness: column lengths agree, every stored index
    /// is in bounds, child lists only point backwards, parents precede their
    /// node, series have length at least two, and names are unique and
    /// mirrored in `used_names`.
    pub open spec fn wf(&self) -> bool {
        &&& self.meta@.len() == self.kinds@.len()
        &&& self.parents_ranges@.len() == self.kinds@.len()
        &&& self.first_child@.len() == self.kinds@.len()
        &&& self.used_names@.len() == self.kinds@.len()
        &&& self.next_child@.len() == self.child_targets@.len()
        &&& self.child_targets@.len() == self.parents_flat@.len()
        &&& self.kinds@.len() < 0xFFFF_FFFF
        &&& self.parents_flat@.len() < 0xFFFF_FFFF
        &&& self.constants_data@.len() < 0xFFFF_FFFF
        &&& forall|i: int| 0 <= i < self.kinds@.len()
            ==> (#[trigger] self.parents_ranges@[i]).0 + self.parents_ranges@[i].1
                <= self.parents_flat@.len()
        &&& forall|e: int| 0 <= e < self.parents_flat@.len()
            ==> ((#[trigger] self.parents_flat@[e]).0 as int) < self.kinds@.len()
        &&& forall|e: int| 0 <= e < self.child_targets@.len()
            ==> ((#[trigger] self.child_targets@[e]).0 as int) < self.kinds@.len()
        &&& forall|e: int| 0 <= e < self.next_child@.len()
            ==> #[trigger] self.next_child@[e] == NO_CHILD || (self.next_child@[e] as int) < e
        &&& forall|i: int| 0 <= i < self.first_child@.len()
            ==> #[trigger] self.first_child@[i] == NO_CHILD
                || (self.first_child@[i] as int) < self.child_targets@.len()
        &&& forall|i: int| 0 <= i < self.kinds@.len()
            ==> match #[trigger] self.kinds@[i] {
                NodeKind::TimeSeries(ix) => (ix as int) < self.constants_data@.len()
                    && self.constants_data@[ix as int]@.len() >= 2,
                _ => true,
            }
        &&& forall|c: int, j: int| 0 <= c < self.kinds@.len() && 0 <= j < self.parents_seq(c).len()
            ==> ((#[trigger] self.parents_seq(c)[j]).0 as int) < c
        &&& forall|i: int, j: int| 0 <= i < j < self.meta@.len()
            ==> (#[trigger] self.meta@[i].name)@ != (#[trigger] self.meta@[j].name)@
        &&& forall|i: int| 0 <= i < self.used_names@.len()
            ==> (#[trigger] self.used_names@[i])@ == self.meta@[i].name@
        &&& forall|p: int, c: int| 0 <= p < self.kinds@.len() && 0 <= c < self.kinds@.len()
            ==> (#[trigger] self.links_to(p, c) <==> self.has_parent(c, p))
    }

    /// An empty registry.
    pub fn new() -> (r: Self)
        ensures
            r.wf(),
            r.kinds@.len() == 0,
            r.meta@.len() == 0,
            r.parents_flat@.len() == 0,
            r.parents_ranges@.len() == 0,
            r.first_child@.len() == 0,
            r.child_targets@.len() == 0,
            r.next_child@.len() == 0,
            r.constants_data@.len() == 0,
            r.used_names@.len() == 0,
    {
        let r = Registry {
            kinds: Vec::new(),
            meta: Vec::new(),
            parents_flat: Vec::new(),
            parents_ranges: Vec::new(),
            first_child: Vec::new(),
            child_targets: Vec::new(),
            next_child: Vec::new(),
            constants_data: Vec::new(),
            used_names: Vec::new(),
        };
        proof {
            assert forall|p: int, c: int| 0 <= p < r.kinds@.len() && 0 <= c < r.kinds@.len()
                implies (#[trigger] r.links_to(p, c) <==> r.has_parent(c, p)) by {}
        }
        r
    }

    /// The number of nodes.
    pub fn count(&self) -> (n: usize)
        ensures
            n == self.kinds@.len(),
    {
        self.kinds.len()
    }

    /// Rebuilds `used_names` from the metadata column, as after loading a
    /// serialized snapshot.
    pub fn rebuild_name_cache(&mut self)
        requires
            old(self).wf(),
        ensures
            final(self).wf(),
            final(self).kinds == old(self).kinds,
            final(self).meta == old(self).meta,
            final(self).parents_flat == old(self).parents_flat,
            final(self).parents_ranges == old(self).parents_ranges,
            final(self).first_child == old(self).first_child,
            final(self).child_targets == old(self).child_targets,
            final(self).next_child == old(self).next_child,
            final(self).constants_data == old(self).constants_data,
            final(self).used_names@.len() == old(self).used_names@.len(),
            forall|j: int| 0 <= j < old(self).used_names@.len()
                ==> (#[trigger] final(self).used_names@[j])@ == old(self).used_names@[j]@,
    {
        let mut names: Vec<String> = Vec::new();
        let n = self.meta.len();
        let mut i: usize = 0;
        while i < n
            invariant
                0 <= i <= n,
                n == self.meta@.len(),
                names@.len() == i,
                forall|j: int| 0 <= j < i
                    ==> (#[trigger] names@[j])@ == self.meta@[j].name@,
                self == old(self),
            decreases n - i,
        {
            names.push(self.meta[i].name.clone());
            proof {
                assert(names@[i as int]@ == self.meta@[i as int].name@);
            }
            i = i + 1;
        }
        self.used_names = names;
        proof {
            assert forall|c: int, j: int|
                0 <= c < self.kinds@.len() && 0 <= j < self.parents_seq(c).len()
                implies ((#[trigger] self.parents_seq(c)[j]).0 as int) < c by {
                assert(self.parents_seq(c) == old(self).parents_seq(c));
                assert((old(self).parents_seq(c)[j].0 as int) < c);
            }
            assert forall|p: int, c: int|
                0 <= p < self.kinds@.len() && 0 <= c < self.kinds@.len()
                implies (#[trigger] self.links_to(p, c) <==> self.has_parent(c, p)) by {
                assert(self.children_of(p) == old(self).children_of(p));
                assert(self.parents_seq(c) == old(self).parents_seq(c));
                assert(old(self).links_to(p, c) <==> old(self).has_parent(c, p));
                if old(self).has_parent(c, p) {
                    let j = choose|j: int| 0 <= j < old(self).parents_seq(c).len()
                        && (#[trigger] old(self).parents_seq(c)[j]).0 == p;
                    assert(self.parents_seq(c)[j].0 == p);
                }
                if self.has_parent(c, p) {
                    let j = choose|j: int| 0 <= j < self.parents_seq(c).len()
                        && (#[trigger] self.parents_seq(c)[j]).0 == p;
                    assert(old(self).parents_seq(c)[j].0 == p);
                }
            }
        }
    }
}

} // verus!

verus! {

/// The name `n` with the disambiguating suffix `_k`.
pub open spec fn suffixed_name(n: Seq<char>, k: int) -> Seq<char> {
    n.push('_').add(dec_spec(k))
}

/// Distinct counters give distinct suffixed names.
pub proof fn lemma_suffixed_injective(n: Seq<char>, k1: int, k2: int)
    requires
        k1 >= 0,
        k2 >= 0,
        k1 != k2,
    ensures
        suffixed_name(n, k1) != suffixed_name(n, k2),
{
    crate::units::lemma_dec_spec_digits(k1);
    crate::units::lemma_dec_spec_digits(k2);
    if suffixed_name(n, k1) == suffixed_name(n, k2) {
        assert(suffixed_name(n, k1).skip(n.len() as int + 1) =~= dec_spec(k1));
        assert(suffixed_name(n, k2).skip(n.len() as int + 1) =~= dec_spec(k2));
        assert(crate::units::digits_val(dec_spec(k1)) == crate::units::digits_val(dec_spec(k2)));
        assert(false);
    }
}

/// A duplicate-free list of names drawn from a pool is no longer than the
/// pool.
pub proof fn lemma_distinct_names_bound(tried: Seq<Seq<char>>, pool: Seq<Seq<char>>)
    requires
        tried.no_duplicates(),
        forall|j: int| 0 <= j < tried.len() ==> pool.contains(#[trigger] tried[j]),
    ensures
        tried.len() <= pool.len(),
{
    broadcast use vstd::seq_lib::seq_to_set_is_finite;
    tried.unique_seq_to_set();
    pool.lemma_cardinality_of_set();
    assert forall|x: Seq<char>| tried.to_set().contains(x)
        implies pool.to_set().contains(x) by {
        let j = choose|j: int| 0 <= j < tried.len() && tried[j] == x;
        assert(pool.contains(x));
    }
    vstd::set_lib::lemma_len_subset(tried.to_set(), pool.to_set());
}

impl Registry {
    /// Whether some node already bears the name.
    fn name_taken(&self, name: &String) -> (b: bool)
        requires
            self.wf(),
        ensures
            b == !self.name_free(name@),
    {
        let n = self.used_names.len();
        let mut i: usize = 0;
        while i < n
            invariant
                0 <= i <= n,
                n == self.used_names@.len(),
                self.wf(),
                forall|j: int| 0 <= j < i ==> (#[trigger] self.used_names@[j])@ != name@,
            decreases n - i,
        {
            if self.used_names[i] == *name {
                proof {
                    assert(self.meta@[i as int].name@ == name@);
                }
                return true;
            }
            i = i + 1;
        }
        proof {
            assert forall|j: int| 0 <= j < self.meta@.len()
                implies (#[trigger] self.meta@[j].name)@ != name@ by {
                assert(self.used_names@[j]@ == self.meta@[j].name@);
            }
        }
        false
    }

    /// The registry-unique name that `wanted` resolves to: `wanted` itself
    /// when free, else `wanted_k` for the smallest free `k >= 1`.
    fn resolve_name(&self, wanted: &String) -> (r: String)
        requires
            self.wf(),
        ensures
            self.name_free(r@),
            self.name_free(wanted@) ==> r@ == wanted@,
            !self.name_free(wanted@) ==> exists|k: int|
                1 <= k && r@ == suffixed_name(wanted@, k)
                    && self.name_free(suffixed_name(wanted@, k))
                    && forall|k2: int| 1 <= k2 < k
                        ==> !self.name_free(#[trigger] suffixed_name(wanted@, k2)),
    {
        if !self.name_taken(wanted) {
            return wanted.clone();
        }
        let ghost pool = Seq::new(self.used_names@.len(), |i: int| self.used_names@[i]@);
        let n = self.used_names.len();
        let mut k: u64 = 1;
        loop
            invariant
                1 <= k,
                n == self.used_names@.len(),
                self.wf(),
                k <= n + 1,
                !self.name_free(wanted@),
                pool.len() == n,
                forall|i: int| 0 <= i < n ==> #[trigger] pool[i] == self.used_names@[i]@,
                forall|k2: int| 1 <= k2 < k
                    ==> !self.name_free(#[trigger] suffixed_name(wanted@, k2)),
            decreases n + 1 - k,
        {
            let cand = wanted.clone().concat("_").concat(dec_u64(k).as_str());
            proof {
                reveal_strlit("_");
                assert("_"@ =~= seq!['_']);
                assert(cand@ =~= suffixed_name(wanted@, k as int));
            }
            if !self.name_taken(&cand) {
                return cand;
            }
            proof {
                // Every candidate so far is a distinct taken name, so the
                // counter cannot pass the number of nodes.
                let tried = Seq::new(k as nat, |j: int| suffixed_name(wanted@, j + 1));
                assert forall|p: int, q: int| 0 <= p < q < tried.len()
                    implies tried[p] != tried[q] by {
                    lemma_suffixed_injective(wanted@, p + 1, q + 1);
                }
                assert(tried.no_duplicates());
                assert forall|j: int| 0 <= j < tried.len()
                    implies pool.contains(#[trigger] tried[j]) by {
                    if j + 1 == k {
                        assert(!self.name_free(cand@));
                        assert(cand@ == suffixed_name(wanted@, j + 1));
                    }
                    assert(!self.name_free(suffixed_name(wanted@, j + 1)));
                    let i = choose|i: int| 0 <= i < self.meta@.len()
                        && (#[trigger] self.meta@[i].name)@ == suffixed_name(wanted@, j + 1);
                    assert(self.used_names@[i]@ == suffixed_name(wanted@, j + 1));
                    assert(pool[i] == suffixed_name(wanted@, j + 1));
                }
                lemma_distinct_names_bound(tried, pool);
                assert(k <= n);
            }
            k = k + 1;
        }
    }
}

} // verus!

verus! {

impl Registry {
    /// Appends a node: child edges are prepended to each parent's list,
    /// the parents go into the CSR arrays, and the metadata is stored under
    /// the resolved unique name. Returns the new node's id, which equals
    /// the node count before the call.
    pub fn add_node(&mut self, kind: NodeKind, parents: &Vec<NodeId>, meta: NodeMetadata)
        -> (id: NodeId)
        requires
            old(self).wf(),
            forall|j: int| 0 <= j < parents@.len()
                ==> ((#[trigger] parents@[j]).0 as int) < old(self).kinds@.len(),
            old(self).kinds@.len() + 1 < 0xFFFF_FFFF,
            old(self).parents_flat@.len() + parents@.len() < 0xFFFF_FFFF,
            kind matches NodeKind::TimeSeries(ix)
                ==> (ix as int) < old(self).constants_data@.len()
                    && old(self).constants_data@[ix as int]@.len() >= 2,
        ensures
            final(self).wf(),
            id.0 as int == old(self).kinds@.len(),
            final(self).kinds@ == old(self).kinds@.push(kind),
            final(self).parents_flat@ == old(self).parents_flat@ + parents@,
            final(self).parents_ranges@ == old(self).parents_ranges@.push((
                old(self).parents_flat@.len() as u32,
                parents@.len() as u32,
            )),
            final(self).constants_data == old(self).constants_data,
            final(self).meta@.len() == old(self).kinds@.len() + 1,
            forall|i: int| 0 <= i < old(self).kinds@.len()
                ==> #[trigger] final(self).meta@[i] == old(self).meta@[i],
            final(self).meta@[id.0 as int].temporal_type == meta.temporal_type,
            final(self).meta@[id.0 as int].unit == meta.unit,
            old(self).name_free(meta.name@)
                ==> final(self).meta@[id.0 as int].name@ == meta.name@,
            !old(self).name_free(meta.name@) ==> exists|k: int|
                1 <= k && final(self).meta@[id.0 as int].name@ == suffixed_name(meta.name@, k)
                    && old(self).name_free(suffixed_name(meta.name@, k))
                    && forall|k2: int| 1 <= k2 < k
                        ==> !old(self).name_free(#[trigger] suffixed_name(meta.name@, k2)),
            final(self).parents_seq(id.0 as int) == parents@,
    {
        let resolved = self.resolve_name(&meta.name);
        let n0 = self.kinds.len();
        let id = NodeId(n0 as u32);
        let ghost old_targets = self.child_targets@;
        let ghost old_next = self.next_child@;
        let ghost old_first = self.first_child@;
        let ghost old_e = self.child_targets@.len();

        // 1. Prepend the new node to each parent's child list.
        let m = parents.len();
        let mut j: usize = 0;
        while j < m
            invariant
                0 <= j <= m,
                m == parents@.len(),
                n0 == self.kinds@.len(),
                id.0 == n0 as u32,
                self.kinds == old(self).kinds,
                self.meta == old(self).meta,
                self.parents_flat == old(self).parents_flat,
                self.parents_ranges == old(self).parents_ranges,
                self.constants_data == old(self).constants_data,
                self.used_names == old(self).used_names,
                old(self).wf(),
                old_targets == old(self).child_targets@,
                old_next == old(self).next_child@,
                old_first == old(self).first_child@,
                old_e == old_targets.len(),
                forall|q: int| 0 <= q < parents@.len()
                    ==> ((#[trigger] parents@[q]).0 as int) < n0,
                self.child_targets@.len() == old_e + j,
                self.next_child@.len() == old_e + j,
                old_e + m < 0xFFFF_FFFF,
                forall|e: int| 0 <= e < old_e
                    ==> #[trigger] self.child_targets@[e] == old_targets[e],
                forall|e: int| 0 <= e < old_e ==> #[trigger] self.next_child@[e] == old_next[e],
                forall|e: int| old_e <= e < old_e + j
                    ==> #[trigger] self.child_targets@[e] == id,
                forall|e: int| 0 <= e < self.next_child@.len()
                    ==> #[trigger] self.next_child@[e] == NO_CHILD
                        || (self.next_child@[e] as int) < e,
                self.first_child@.len() == n0,
                forall|p: int| 0 <= p < n0
                    ==> #[trigger] self.first_child@[p] == NO_CHILD
                        || (self.first_child@[p] as int) < old_e + j,
                forall|p: int, c: int| 0 <= p < n0 && 0 <= c <= n0 ==> (
                    #[trigger] self.links_to(p, c) <==> (
                        old(self).links_to(p, c)
                        || (c == n0 && exists|q: int| 0 <= q < j
                            && ((#[trigger] parents@[q]).0 as int) == p)
                    )
                ),
            decreases m - j,
        {
            let p = parents[j].index();
            let ghost pre = *self;
            let head = self.first_child[p];
            let new_edge = self.child_targets.len() as u32;
            self.child_targets.push(id);
            self.next_child.push(head);
            self.first_child.set(p, new_edge);
            proof {
                // The new edge heads `p`'s list; its tail is the old list.
                let e2 = new_edge as int;
                let ps = pre.children_of(p as int);
                if head == NO_CHILD {
                    assert(self.children_of(p as int) =~= seq![n0 as int].add(ps)) by {
                        assert(ps =~= Seq::<int>::empty());
                    }
                } else {
                    assert((head as int) < e2);
                    lemma_children_from_frame(
                        pre.child_targets@,
                        pre.next_child@,
                        self.child_targets@,
                        self.next_child@,
                        head as int,
                    );
                    assert(self.children_of(p as int) == seq![n0 as int].add(ps));
                }
                let cs = self.children_of(p as int);
                assert(cs[0] == n0 as int);
                assert(cs.contains(n0 as int));
                assert forall|c2: int| #[trigger] cs.contains(c2)
                    implies c2 == n0 as int || ps.contains(c2) by {
                    let ix = choose|ix: int| 0 <= ix < cs.len() && cs[ix] == c2;
                    if ix > 0 {
                        assert(ps[ix - 1] == c2);
                    }
                }
                assert forall|c2: int| #[trigger] ps.contains(c2) implies cs.contains(c2) by {
                    let ix = choose|ix: int| 0 <= ix < ps.len() && ps[ix] == c2;
                    assert(cs[ix + 1] == c2);
                }
                assert forall|q: int, c: int| 0 <= q < n0 && 0 <= c <= n0 implies (
                    #[trigger] self.links_to(q, c) <==> (
                        old(self).links_to(q, c)
                        || (c == n0 && exists|qq: int| 0 <= qq < j + 1
                            && ((#[trigger] parents@[qq]).0 as int) == q)
                    )
                ) by {
                    if q != p {
                        assert(self.first_child@[q] == pre.first_child@[q]);
                        if pre.first_child@[q] == NO_CHILD {
                            assert(self.children_of(q) =~= Seq::<int>::empty());
                            assert(pre.children_of(q) =~= Seq::<int>::empty());
                        } else {
                            lemma_children_from_frame(
                                pre.child_targets@,
                                pre.next_child@,
                                self.child_targets@,
                                self.next_child@,
                                pre.first_child@[q] as int,
                            );
                        }
                        assert(self.links_to(q, c) <==> pre.links_to(q, c));
                        if c == n0 {
                            if exists|qq: int| 0 <= qq < j + 1
                                && ((#[trigger] parents@[qq]).0 as int) == q {
                                let qq = choose|qq: int| 0 <= qq < j + 1
                                    && ((#[trigger] parents@[qq]).0 as int) == q;
                                if qq == j {
                                    assert((parents@[j as int].0 as int) == p);
                                    assert(false);
                                } else {
                                    assert(0 <= qq < j
                                        && ((parents@[qq]).0 as int) == q);
                                }
                            }
                        }
                    } else {
                        assert(self.links_to(q, n0 as int));
                        assert(0 <= j < j + 1 && (parents@[j as int].0 as int) == q);
                        if c != n0 {
                            assert(self.links_to(q, c) <==> ps.contains(c));
                            assert(ps.contains(c) <==> pre.links_to(q, c));
                        }
                    }
                }
            }
            j = j + 1;
        }

        let ghost mid = *self;
        // 2. The CSR parent range, then the remaining columns.
        let start = self.parents_flat.len() as u32;
        let cnt = m as u32;
        self.parents_flat.extend_from_slice(parents.as_slice());
        self.parents_ranges.push((start, cnt));
        self.kinds.push(kind);
        self.first_child.push(NO_CHILD);
        self.used_names.push(resolved.clone());
        let new_meta = NodeMetadata {
            name: resolved,
            temporal_type: meta.temporal_type,
            unit: meta.unit,
        };
        self.meta.push(new_meta);
        let ghost n0i = n0 as int;
        proof {
            let fin = *self;
            let prev = *old(self);
            // Parent lists of existing nodes are untouched.
            assert forall|c: int| 0 <= c < n0i
                implies #[trigger] fin.parents_seq(c) == prev.parents_seq(c) by {
                assert(fin.parents_ranges@[c] == prev.parents_ranges@[c]);
                assert(prev.parents_ranges@[c].0 + prev.parents_ranges@[c].1
                    <= prev.parents_flat@.len());
                assert(fin.parents_seq(c) =~= prev.parents_seq(c));
            }
            // The new node's parent list is exactly `parents`.
            assert(fin.parents_seq(n0i) =~= parents@);
            // Bounds of the flattened parent array.
            assert forall|e: int| 0 <= e < fin.parents_flat@.len()
                implies ((#[trigger] fin.parents_flat@[e]).0 as int) < fin.kinds@.len() by {
                if e < prev.parents_flat@.len() {
                    assert(fin.parents_flat@[e] == prev.parents_flat@[e]);
                } else {
                    assert(fin.parents_flat@[e] == parents@[e - prev.parents_flat@.len()]);
                }
            }
            assert forall|e: int| 0 <= e < fin.child_targets@.len()
                implies ((#[trigger] fin.child_targets@[e]).0 as int) < fin.kinds@.len() by {
                if e < old_e {
                    assert(fin.child_targets@[e] == old_targets[e]);
                } else {
                    assert(fin.child_targets@[e] == id);
                }
            }
            assert forall|i: int| 0 <= i < fin.kinds@.len()
                implies (#[trigger] fin.parents_ranges@[i]).0 + fin.parents_ranges@[i].1
                    <= fin.parents_flat@.len() by {
                if i < n0i {
                    assert(fin.parents_ranges@[i] == prev.parents_ranges@[i]);
                }
            }
            assert forall|i: int| 0 <= i < fin.kinds@.len()
                implies match #[trigger] fin.kinds@[i] {
                    NodeKind::TimeSeries(ix) => (ix as int) < fin.constants_data@.len()
                        && fin.constants_data@[ix as int]@.len() >= 2,
                    _ => true,
                } by {
                if i < n0i {
                    assert(fin.kinds@[i] == prev.kinds@[i]);
                }
            }
            // Parents precede their node.
            assert forall|c: int, j2: int|
                0 <= c < fin.kinds@.len() && 0 <= j2 < fin.parents_seq(c).len()
                implies ((#[trigger] fin.parents_seq(c)[j2]).0 as int) < c by {
                if c < n0i {
                    assert(fin.parents_seq(c) == prev.parents_seq(c));
                    assert((prev.parents_seq(c)[j2].0 as int) < c);
                } else {
                    assert(fin.parents_seq(c)[j2] == parents@[j2]);
                }
            }
            // Names stay unique, and the cache mirrors them.
            assert forall|i: int, j2: int| 0 <= i < j2 < fin.meta@.len()
                implies (#[trigger] fin.meta@[i].name)@ != (#[trigger] fin.meta@[j2].name)@ by {
                if j2 < n0i {
                    assert(fin.meta@[i] == prev.meta@[i]);
                    assert(fin.meta@[j2] == prev.meta@[j2]);
                } else {
                    assert(fin.meta@[i] == prev.meta@[i]);
                    assert(prev.name_free(fin.meta@[n0i].name@));
                }
            }
            assert forall|i: int| 0 <= i < fin.used_names@.len()
                implies (#[trigger] fin.used_names@[i])@ == fin.meta@[i].name@ by {
                if i < n0i {
                    assert(fin.used_names@[i] == prev.used_names@[i]);
                    assert(fin.meta@[i] == prev.meta@[i]);
                }
            }
            // The child links and the parent arrays describe the same edges.
            assert forall|p: int, c: int|
                0 <= p < fin.kinds@.len() && 0 <= c < fin.kinds@.len()
                implies (#[trigger] fin.links_to(p, c) <==> fin.has_parent(c, p)) by {
                if p < n0i {
                    assert(fin.first_child@[p] == mid.first_child@[p]);
                    assert(fin.child_targets@ == mid.child_targets@);
                    assert(fin.next_child@ == mid.next_child@);
                    assert(fin.children_of(p) == mid.children_of(p));
                    assert(mid.links_to(p, c) <==> (
                        prev.links_to(p, c)
                        || (c == n0i && exists|q: int| 0 <= q < m
                            && ((#[trigger] parents@[q]).0 as int) == p)
                    ));
                    if c < n0i {
                        assert(fin.parents_seq(c) == prev.parents_seq(c));
                        assert(prev.links_to(p, c) <==> prev.has_parent(c, p));
                        if prev.has_parent(c, p) {
                            let q = choose|q: int| 0 <= q < prev.parents_seq(c).len()
                                && ((#[trigger] prev.parents_seq(c)[q]).0) == p;
                            assert(fin.parents_seq(c)[q].0 == p);
                        }
                        if fin.has_parent(c, p) {
                            let q = choose|q: int| 0 <= q < fin.parents_seq(c).len()
                                && ((#[trigger] fin.parents_seq(c)[q]).0) == p;
                            assert(prev.parents_seq(c)[q].0 == p);
                        }
                    } else {
                        assert(c == n0i);
                        assert(!prev.links_to(p, c)) by {
                            lemma_children_from_bounds(
                                prev.child_targets@,
                                prev.next_child@,
                                prev.first_child@[p] as int,
                                n0i,
                            );
                            if prev.links_to(p, c) {
                                let ix = choose|ix: int| 0 <= ix < prev.children_of(p).len()
                                    && prev.children_of(p)[ix] == c;
                                assert(prev.children_of(p)[ix] < n0i);
                            }
                        }
                        if fin.has_parent(c, p) {
                            let q = choose|q: int| 0 <= q < fin.parents_seq(c).len()
                                && ((#[trigger] fin.parents_seq(c)[q]).0) == p;
                            assert(parents@[q].0 as int == p);
                        }
                        if exists|q: int| 0 <= q < m
                            && ((#[trigger] parents@[q]).0 as int) == p {
                            let q = choose|q: int| 0 <= q < m
                                && ((#[trigger] parents@[q]).0 as int) == p;
                            assert(fin.parents_seq(n0i)[q].0 == p);
                        }
                    }
                } else {
                    assert(fin.first_child@[p] == NO_CHILD);
                    assert((NO_CHILD as int) >= fin.child_targets@.len());
                    assert(fin.children_of(p) =~= Seq::<int>::empty());
                    if fin.has_parent(c, p) {
                        let q = choose|q: int| 0 <= q < fin.parents_seq(c).len()
                            && ((#[trigger] fin.parents_seq(c)[q]).0) == p;
                        assert((fin.parents_seq(c)[q].0 as int) < c);
                        assert(false);
                    }
                }
            }
        }
        id
    }

}

} // verus!

verus! {

/// Changing only node kinds and series data, while keeping every referenced
/// series index valid, preserves well-formedness: topology, names and
/// metadata are untouched.
proof fn lemma_wf_same_topology(a: &Registry, b: &Registry)
    requires
        a.wf(),
        b.kinds@.len() == a.kinds@.len(),
        b.meta@ == a.meta@,
        b.parents_flat@ == a.parents_flat@,
        b.parents_ranges@ == a.parents_ranges@,
        b.first_child@ == a.first_child@,
        b.child_targets@ == a.child_targets@,
        b.next_child@ == a.next_child@,
        b.used_names@ == a.used_names@,
        b.constants_data@.len() < 0xFFFF_FFFF,
        forall|i: int| 0 <= i < b.kinds@.len()
            ==> match #[trigger] b.kinds@[i] {
                NodeKind::TimeSeries(ix) => (ix as int) < b.constants_data@.len()
                    && b.constants_data@[ix as int]@.len() >= 2,
                _ => true,
            },
    ensures
        b.wf(),
{
    assert forall|c: int, j: int|
        0 <= c < b.kinds@.len() && 0 <= j < b.parents_seq(c).len()
        implies ((#[trigger] b.parents_seq(c)[j]).0 as int) < c by {
        assert(b.parents_seq(c) == a.parents_seq(c));
        assert((a.parents_seq(c)[j].0 as int) < c);
    }
    assert forall|p: int, c: int| 0 <= p < b.kinds@.len() && 0 <= c < b.kinds@.len()
        implies (#[trigger] b.links_to(p, c) <==> b.has_parent(c, p)) by {
        assert(b.children_of(p) == a.children_of(p));
        assert(b.parents_seq(c) == a.parents_seq(c));
        assert(a.links_to(p, c) <==> a.has_parent(c, p));
        if a.has_parent(c, p) {
            let j = choose|j: int| 0 <= j < a.parents_seq(c).len()
                && (#[trigger] a.parents_seq(c)[j]).0 == p;
            assert(b.parents_seq(c)[j].0 == p);
        }
        if b.has_parent(c, p) {
            let j = choose|j: int| 0 <= j < b.parents_seq(c).len()
                && (#[trigger] b.parents_seq(c)[j]).0 == p;
            assert(a.parents_seq(c)[j].0 == p);
        }
    }
}

impl Registry {
    /// Adds a constant: a single value is stored inline as a scalar, a
    /// longer vector goes into the series table.
    pub fn add_constant(&mut self, value: Vec<u64>, meta: NodeMetadata) -> (id: NodeId)
        requires
            old(self).wf(),
            value@.len() >= 1,
            old(self).kinds@.len() + 1 < 0xFFFF_FFFF,
            old(self).constants_data@.len() + 1 < 0xFFFF_FFFF,
        ensures
            final(self).wf(),
            id.0 as int == old(self).kinds@.len(),
            final(self).kinds@.len() == old(self).kinds@.len() + 1,
            value@.len() == 1 ==> final(self).kinds@
                == old(self).kinds@.push(NodeKind::Scalar(value@[0]))
                && final(self).constants_data@ == old(self).constants_data@,
            value@.len() >= 2 ==> final(self).kinds@ == old(self).kinds@.push(
                NodeKind::TimeSeries(old(self).constants_data@.len() as u32))
                && final(self).constants_data@ == old(self).constants_data@.push(value),
            final(self).parents_seq(id.0 as int) == Seq::<NodeId>::empty(),
            final(self).parents_flat@ == old(self).parents_flat@,
            forall|i: int| 0 <= i < old(self).kinds@.len()
                ==> #[trigger] final(self).meta@[i] == old(self).meta@[i],
            final(self).meta@[id.0 as int].temporal_type == meta.temporal_type,
            final(self).meta@[id.0 as int].unit == meta.unit,
            old(self).name_free(meta.name@)
                ==> final(self).meta@[id.0 as int].name@ == meta.name@,
    {
        let no_parents: Vec<NodeId> = Vec::new();
        if value.len() == 1 {
            let v = value[0];
            let id = self.add_node(NodeKind::Scalar(v), &no_parents, meta);
            proof {
                assert(self.parents_seq(id.0 as int) =~= Seq::<NodeId>::empty());
                assert(self.parents_flat@ =~= old(self).parents_flat@);
            }
            id
        } else {
            let ix = self.constants_data.len() as u32;
            let ghost before = *self;
            self.constants_data.push(value);
            proof {
                lemma_wf_same_topology(&before, self);
            }
            let id = self.add_node(NodeKind::TimeSeries(ix), &no_parents, meta);
            proof {
                assert(self.parents_seq(id.0 as int) =~= Seq::<NodeId>::empty());
                assert(self.parents_flat@ =~= old(self).parents_flat@);
            }
            id
        }
    }

    /// Adds a binary or temporal formula node over existing parents.
    pub fn add_formula(&mut self, op: crate::types::Operation, parents: Vec<NodeId>, meta: NodeMetadata)
        -> (id: NodeId)
        requires
            old(self).wf(),
            forall|j: int| 0 <= j < parents@.len()
                ==> ((#[trigger] parents@[j]).0 as int) < old(self).kinds@.len(),
            old(self).kinds@.len() + 1 < 0xFFFF_FFFF,
            old(self).parents_flat@.len() + parents@.len() < 0xFFFF_FFFF,
        ensures
            final(self).wf(),
            id.0 as int == old(self).kinds@.len(),
            final(self).kinds@ == old(self).kinds@.push(NodeKind::Formula(op)),
            final(self).constants_data == old(self).constants_data,
            final(self).parents_seq(id.0 as int) == parents@,
            final(self).parents_flat@ == old(self).parents_flat@ + parents@,
            forall|i: int| 0 <= i < old(self).kinds@.len()
                ==> #[trigger] final(self).meta@[i] == old(self).meta@[i],
            final(self).meta@[id.0 as int].temporal_type == meta.temporal_type,
            final(self).meta@[id.0 as int].unit == meta.unit,
            old(self).name_free(meta.name@)
                ==> final(self).meta@[id.0 as int].name@ == meta.name@,
            !old(self).name_free(meta.name@) ==> exists|k: int|
                1 <= k && final(self).meta@[id.0 as int].name@ == suffixed_name(meta.name@, k)
                    && old(self).name_free(suffixed_name(meta.name@, k))
                    && forall|k2: int| 1 <= k2 < k
                        ==> !old(self).name_free(#[trigger] suffixed_name(meta.name@, k2)),
    {
        self.add_node(NodeKind::Formula(op), &parents, meta)
    }

    /// Adds a solver variable: a placeholder whose value the solver chooses.
    pub fn add_solver_var(&mut self, meta: NodeMetadata) -> (id: NodeId)
        requires
            old(self).wf(),
            old(self).kinds@.len() + 1 < 0xFFFF_FFFF,
        ensures
            final(self).wf(),
            id.0 as int == old(self).kinds@.len(),
            final(self).kinds@ == old(self).kinds@.push(NodeKind::SolverVariable),
            final(self).constants_data == old(self).constants_data,
            final(self).parents_flat@ == old(self).parents_flat@,
            forall|i: int| 0 <= i < old(self).kinds@.len()
                ==> #[trigger] final(self).meta@[i] == old(self).meta@[i],
            final(self).meta@[id.0 as int].temporal_type == meta.temporal_type,
            final(self).meta@[id.0 as int].unit == meta.unit,
            old(self).name_free(meta.name@)
                ==> final(self).meta@[id.0 as int].name@ == meta.name@,
    {
        let no_parents: Vec<NodeId> = Vec::new();
        let id = self.add_node(NodeKind::SolverVariable, &no_parents, meta);
        proof {
            assert(self.parents_flat@ =~= old(self).parents_flat@);
        }
        id
    }

    /// The stored series of a series constant; `None` for any other kind.
    pub fn get_constant(&self, id: NodeId) -> (r: Option<&Vec<u64>>)
        requires
            self.wf(),
            (id.0 as int) < self.kinds@.len(),
        ensures
            match self.kinds@[id.0 as int] {
                NodeKind::TimeSeries(ix) => r matches Some(v)
                    && v@ == self.constants_data@[ix as int]@,
                _ => r is None,
            },
    {
        match self.kinds[id.index()] {
            NodeKind::TimeSeries(ix) => Some(&self.constants_data[ix as usize]),
            _ => None,
        }
    }

    /// Replaces a constant's value. Fails on a formula or solver variable,
    /// and when the new length would turn a scalar into a series or a
    /// series into a scalar.
    pub fn update_constant(&mut self, id: NodeId, value: Vec<u64>) -> (r: Result<(), String>)
        requires
            old(self).wf(),
            (id.0 as int) < old(self).kinds@.len(),
        ensures
            final(self).wf(),
            final(self).kinds@.len() == old(self).kinds@.len(),
            final(self).meta == old(self).meta,
            final(self).parents_flat == old(self).parents_flat,
            final(self).parents_ranges == old(self).parents_ranges,
            match old(self).kinds@[id.0 as int] {
                NodeKind::Scalar(_) => {
                    if value@.len() == 1 {
                        r is Ok
                            && final(self).kinds@ == old(self).kinds@.update(
                                id.0 as int, NodeKind::Scalar(value@[0]))
                            && final(self).constants_data == old(self).constants_data
                    } else {
                        r is Err && *final(self) == *old(self)
                    }
                },
                NodeKind::TimeSeries(ix) => {
                    if value@.len() >= 2 {
                        r is Ok
                            && final(self).kinds == old(self).kinds
                            && final(self).constants_data@ == old(self).constants_data@
                                .update(ix as int, value)
                    } else {
                        r is Err && *final(self) == *old(self)
                    }
                },
                _ => r is Err && *final(self) == *old(self),
            },
    {
        let idx = id.index();
        let ghost before = *self;
        match self.kinds[idx] {
            NodeKind::Scalar(_) => {
                if value.len() == 1 {
                    let v = value[0];
                    self.kinds.set(idx, NodeKind::Scalar(v));
                    proof {
                        assert forall|i: int| 0 <= i < self.kinds@.len()
                            implies match #[trigger] self.kinds@[i] {
                                NodeKind::TimeSeries(ix2) => (ix2 as int)
                                    < self.constants_data@.len()
                                    && self.constants_data@[ix2 as int]@.len() >= 2,
                                _ => true,
                            } by {
                            if i != idx {
                                assert(self.kinds@[i] == before.kinds@[i]);
                            }
                        }
                        lemma_wf_same_topology(&before, self);
                    }
                    Ok(())
                } else {
                    Err("Cannot change a Scalar constant to a TimeSeries".to_owned())
                }
            },
            NodeKind::TimeSeries(ix) => {
                if value.len() >= 2 {
                    self.constants_data.set(ix as usize, value);
                    proof {
                        assert forall|i: int| 0 <= i < self.kinds@.len()
                            implies match #[trigger] self.kinds@[i] {
                                NodeKind::TimeSeries(ix2) => (ix2 as int)
                                    < self.constants_data@.len()
                                    && self.constants_data@[ix2 as int]@.len() >= 2,
                                _ => true,
                            } by {
                            assert(self.kinds@[i] == before.kinds@[i]);
                        }
                        lemma_wf_same_topology(&before, self);
                    }
                    Ok(())
                } else {
                    Err("Cannot change a TimeSeries constant to a Scalar".to_owned())
                }
            },
            _ => Err("Node is not a constant".to_owned()),
        }
    }

    /// The ordered parents of a node.
    pub fn get_parents(&self, id: NodeId) -> (r: &[NodeId])
        requires
            (id.0 as int) < self.parents_ranges@.len(),
            self.parents_ranges@[id.0 as int].0 + self.parents_ranges@[id.0 as int].1
                <= self.parents_flat@.len(),
        ensures
            r@ == self.parents_seq(id.0 as int),
    {
        let idx = id.index();
        let (start, cnt) = self.parents_ranges[idx];
        let s = start as usize;
        let c = cnt as usize;
        let flen = self.parents_flat.len();
        proof {
            assert(s + c <= flen);
        }
        &self.parents_flat[s..s + c]
    }
}

} // verus!

verus! {

impl Registry {
    /// Whether no node other than `id` bears the name.
    pub open spec fn name_free_besides(&self, id: int, n: Seq<char>) -> bool {
        forall|i: int| 0 <= i < self.meta@.len() && i != id
            ==> (#[trigger] self.meta@[i].name)@ != n
    }

    /// Renames a node, returning its old name. The new name goes through
    /// the usual uniqueness resolution: kept as-is when free, else
    /// suffixed with the smallest free `_k`. Renaming a node to its own
    /// current name changes nothing. Fails on an out-of-range id.
    pub fn set_node_name(&mut self, id: NodeId, new_name: String) -> (r: Result<String, String>)
        requires
            old(self).wf(),
        ensures
            final(self).wf(),
            (id.0 as int) >= old(self).kinds@.len()
                ==> r is Err && *final(self) == *old(self),
            (id.0 as int) < old(self).kinds@.len() ==> {
                let idx = id.0 as int;
                &&& r matches Ok(old_name) && old_name == old(self).meta@[idx].name
                &&& final(self).kinds == old(self).kinds
                &&& final(self).parents_flat == old(self).parents_flat
                &&& final(self).parents_ranges == old(self).parents_ranges
                &&& final(self).constants_data == old(self).constants_data
                &&& final(self).meta@.len() == old(self).meta@.len()
                &&& forall|i: int| 0 <= i < old(self).meta@.len() && i != idx
                    ==> #[trigger] final(self).meta@[i] == old(self).meta@[i]
                &&& final(self).meta@[idx].temporal_type == old(self).meta@[idx].temporal_type
                &&& final(self).meta@[idx].unit == old(self).meta@[idx].unit
                &&& (new_name@ == old(self).meta@[idx].name@
                    ==> final(self).meta@[idx].name@ == new_name@)
                &&& (new_name@ != old(self).meta@[idx].name@
                        && old(self).name_free(new_name@)
                    ==> final(self).meta@[idx].name@ == new_name@)
                &&& (new_name@ != old(self).meta@[idx].name@
                        && !old(self).name_free(new_name@)
                    ==> exists|k: int| 1 <= k
                        && final(self).meta@[idx].name@ == suffixed_name(new_name@, k)
                        && old(self).name_free(suffixed_name(new_name@, k)))
            },
    {
        let idx = id.index();
        if idx >= self.meta.len() {
            return Err("Node id out of range".to_owned());
        }
        let old_name = self.meta[idx].name.clone();
        if self.meta[idx].name == new_name {
            return Ok(old_name);
        }
        let resolved = self.resolve_name(&new_name);
        let ghost before = *self;
        let tt = self.meta[idx].temporal_type;
        let new_unit = match &self.meta[idx].unit {
            Some(u) => Some(Unit(u.0.clone())),
            None => None,
        };
        self.meta.set(idx, NodeMetadata { name: resolved.clone(), temporal_type: tt, unit: new_unit });
        self.used_names.set(idx, resolved);
        proof {
            assert(self.meta@[idx as int].unit == before.meta@[idx as int].unit);
            // Names stay unique: the resolved name is free of every other.
            assert forall|i: int, j: int| 0 <= i < j < self.meta@.len()
                implies (#[trigger] self.meta@[i].name)@ != (#[trigger] self.meta@[j].name)@ by {
                if i != idx && j != idx {
                    assert(self.meta@[i] == before.meta@[i]);
                    assert(self.meta@[j] == before.meta@[j]);
                } else if i == idx {
                    assert(self.meta@[j] == before.meta@[j]);
                    assert(before.name_free(self.meta@[idx as int].name@));
                } else {
                    assert(self.meta@[i] == before.meta@[i]);
                    assert(before.name_free(self.meta@[idx as int].name@));
                }
            }
            assert forall|i: int| 0 <= i < self.used_names@.len()
                implies (#[trigger] self.used_names@[i])@ == self.meta@[i].name@ by {
                if i != idx {
                    assert(self.used_names@[i] == before.used_names@[i]);
                    assert(self.meta@[i] == before.meta@[i]);
                }
            }
            self.lemma_links_unchanged(&before);
        }
        Ok(old_name)
    }

    /// Overwrites the declared unit and temporal type where given,
    /// returning the old pair. Fails on an out-of-range id.
    pub fn set_node_metadata(
        &mut self,
        id: NodeId,
        unit: Option<Unit>,
        temporal_type: Option<TemporalType>,
    ) -> (r: Result<(Option<Unit>, Option<TemporalType>), String>)
        requires
            old(self).wf(),
        ensures
            final(self).wf(),
            (id.0 as int) >= old(self).kinds@.len()
                ==> r is Err && *final(self) == *old(self),
            (id.0 as int) < old(self).kinds@.len() ==> {
                let idx = id.0 as int;
                &&& r matches Ok(olds)
                    && olds.0 == old(self).meta@[idx].unit
                    && olds.1 == old(self).meta@[idx].temporal_type
                &&& final(self).kinds == old(self).kinds
                &&& final(self).parents_flat == old(self).parents_flat
                &&& final(self).parents_ranges == old(self).parents_ranges
                &&& final(self).constants_data == old(self).constants_data
                &&& final(self).used_names == old(self).used_names
                &&& final(self).meta@.len() == old(self).meta@.len()
                &&& forall|i: int| 0 <= i < old(self).meta@.len() && i != idx
                    ==> #[trigger] final(self).meta@[i] == old(self).meta@[i]
                &&& final(self).meta@[idx].name == old(self).meta@[idx].name
                &&& final(self).meta@[idx].unit
                    == (if unit is Some { unit } else { old(self).meta@[idx].unit })
                &&& final(self).meta@[idx].temporal_type
                    == (if temporal_type is Some { temporal_type } else {
                        old(self).meta@[idx].temporal_type
                    })
            },
    {
        let idx = id.index();
        if idx >= self.meta.len() {
            return Err("Node id out of range".to_owned());
        }
        let ghost before = *self;
        let old_unit = match &self.meta[idx].unit {
            Some(u) => Some(Unit(u.0.clone())),
            None => None,
        };
        let old_tt = self.meta[idx].temporal_type;
        let name = self.meta[idx].name.clone();
        let stored_unit = match unit {
            Some(u) => Some(u),
            None => match &self.meta[idx].unit {
                Some(u) => Some(Unit(u.0.clone())),
                None => None,
            },
        };
        let stored_tt = match temporal_type {
            Some(t) => Some(t),
            None => old_tt,
        };
        self.meta.set(idx, NodeMetadata { name, temporal_type: stored_tt, unit: stored_unit });
        proof {
            assert(self.meta@[idx as int].name == before.meta@[idx as int].name);
            assert forall|i: int, j: int| 0 <= i < j < self.meta@.len()
                implies (#[trigger] self.meta@[i].name)@ != (#[trigger] self.meta@[j].name)@ by {
                assert(self.meta@[i].name@ == before.meta@[i].name@);
                assert(self.meta@[j].name@ == before.meta@[j].name@);
            }
            assert forall|i: int| 0 <= i < self.used_names@.len()
                implies (#[trigger] self.used_names@[i])@ == self.meta@[i].name@ by {
                assert(self.meta@[i].name@ == before.meta@[i].name@);
            }
            self.lemma_links_unchanged(&before);
        }
        Ok((old_unit, old_tt))
    }

    /// Metadata edits leave the topology columns alone, so the link and
    /// parent facts of well-formedness carry over unchanged.
    proof fn lemma_links_unchanged(&self, before: &Registry)
        requires
            before.wf(),
            self.kinds@ == before.kinds@,
            self.parents_flat@ == before.parents_flat@,
            self.parents_ranges@ == before.parents_ranges@,
            self.first_child@ == before.first_child@,
            self.child_targets@ == before.child_targets@,
            self.next_child@ == before.next_child@,
            self.constants_data@ == before.constants_data@,
        ensures
            forall|c: int, j: int|
                0 <= c < self.kinds@.len() && 0 <= j < self.parents_seq(c).len()
                ==> ((#[trigger] self.parents_seq(c)[j]).0 as int) < c,
            forall|p: int, c: int| 0 <= p < self.kinds@.len() && 0 <= c < self.kinds@.len()
                ==> (#[trigger] self.links_to(p, c) <==> self.has_parent(c, p)),
    {
        assert forall|c: int, j: int|
            0 <= c < self.kinds@.len() && 0 <= j < self.parents_seq(c).len()
            implies ((#[trigger] self.parents_seq(c)[j]).0 as int) < c by {
            assert(self.parents_seq(c) == before.parents_seq(c));
            assert((before.parents_seq(c)[j].0 as int) < c);
        }
        assert forall|p: int, c: int|
            0 <= p < self.kinds@.len() && 0 <= c < self.kinds@.len()
            implies (#[trigger] self.links_to(p, c) <==> self.has_parent(c, p)) by {
            assert(self.children_of(p) == before.children_of(p));
            assert(self.parents_seq(c) == before.parents_seq(c));
            assert(before.links_to(p, c) <==> before.has_parent(c, p));
            if before.has_parent(c, p) {
                let j = choose|j: int| 0 <= j < before.parents_seq(c).len()
                    && (#[trigger] before.parents_seq(c)[j]).0 == p;
                assert(self.parents_seq(c)[j].0 == p);
            }
            if self.has_parent(c, p) {
                let j = choose|j: int| 0 <= j < self.parents_seq(c).len()
                    && (#[trigger] self.parents_seq(c)[j]).0 == p;
                assert(before.parents_seq(c)[j].0 == p);
            }
        }
    }
}

} // verus!
