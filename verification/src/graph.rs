use vstd::prelude::*;

verus! {

/// Number of occupied slots in a node table.
pub open spec fn live_count(s: Seq<Option<usize>>) -> nat
    decreases s.len(),
{
    if s.len() == 0 {
        0
    } else {
        live_count(s.drop_last()) + if s.last() is Some {
            1nat
        } else {
            0nat
        }
    }
}

pub proof fn lemma_live_count_le_len(s: Seq<Option<usize>>)
    ensures
        live_count(s) <= s.len(),
    decreases s.len(),
{
    if s.len() > 0 {
        lemma_live_count_le_len(s.drop_last());
    }
}

pub proof fn lemma_live_count_update(s: Seq<Option<usize>>, n: int, v: Option<usize>)
    requires
        0 <= n < s.len(),
    ensures
        live_count(s.update(n, v)) == live_count(s) + (if v is Some {
            1int
        } else {
            0int
        }) - (if s[n] is Some {
            1int
        } else {
            0int
        }),
    decreases s.len(),
{
    let t = s.update(n, v);
    if n == s.len() - 1 {
        assert(t.drop_last() =~= s.drop_last());
    } else {
        lemma_live_count_update(s.drop_last(), n, v);
        assert(t.drop_last() =~= s.drop_last().update(n, v));
        assert(t.last() == s.last());
    }
}

pub proof fn lemma_live_count_pos(s: Seq<Option<usize>>)
    requires
        live_count(s) > 0,
    ensures
        exists|n: int| 0 <= n < s.len() && s[n] is Some,
    decreases s.len(),
{
    if s.last() is Some {
        assert(s[s.len() - 1] is Some);
    } else {
        lemma_live_count_pos(s.drop_last());
        let n = choose|n: int| 0 <= n < s.drop_last().len() && s.drop_last()[n] is Some;
        assert(s[n] is Some);
    }
}

/// Some pair in `s` joins `a` and `b`, in either order.
pub open spec fn seq_has_edge(s: Seq<(usize, usize)>, a: int, b: int) -> bool {
    exists|k: int|
        0 <= k < s.len() && (((#[trigger] s[k]).0 == a && s[k].1 == b) || (s[k].0 == b && s[k].1
            == a))
}

/// An undirected graph over room indices. Nodes live in an arena-style slot
/// table so that removing one node never renumbers the survivors; each slot
/// carries the index of a room candidate as its weight. Edges are unordered
/// pairs of live slots, each stored once with the smaller slot first.
pub struct RoomGraph {
    pub nodes: Vec<Option<usize>>,
    pub edges: Vec<(usize, usize)>,
    pub live: usize,
}

impl RoomGraph {
    /// Slot `i` holds a node.
    pub open spec fn is_node(self, i: int) -> bool {
        0 <= i < self.nodes@.len() && self.nodes@[i] is Some
    }

    pub open spec fn spec_weight(self, i: int) -> int {
        self.nodes@[i]->Some_0 as int
    }

    pub open spec fn spec_node_count(self) -> nat {
        live_count(self.nodes@)
    }

    /// There is an edge between slots `a` and `b` (in either order).
    pub open spec fn has_edge(self, a: int, b: int) -> bool {
        seq_has_edge(self.edges@, a, b)
    }

    /// Same node slots, and the surviving weights agree.
    pub open spec fn same_nodes(self, other: RoomGraph) -> bool {
        self.nodes@ == other.nodes@
    }

    /// Every node of `self` is a node of `other`, with the same weight.
    pub open spec fn nodes_subset_of(self, other: RoomGraph) -> bool {
        forall|i: int|
            self.is_node(i) ==> #[trigger] other.is_node(i) && other.spec_weight(i)
                == self.spec_weight(i)
    }

    /// Every edge of `self` joins nodes of `other` that `other` also joins.
    pub open spec fn edges_subset_of(self, other: RoomGraph) -> bool {
        forall|a: int, b: int| #[trigger] self.has_edge(a, b) ==> other.has_edge(a, b)
    }

    pub open spec fn wf(self) -> bool {
        &&& forall|k: int|
            0 <= k < self.edges@.len() ==> (#[trigger] self.edges@[k]).0 < self.edges@[k].1
        &&& forall|k: int|
            0 <= k < self.edges@.len() ==> self.is_node((#[trigger] self.edges@[k]).0 as int)
                && self.is_node(self.edges@[k].1 as int)
        &&& forall|k1: int, k2: int|
            0 <= k1 < self.edges@.len() && 0 <= k2 < self.edges@.len() && k1 != k2 ==> (
            #[trigger] self.edges@[k1]) != (#[trigger] self.edges@[k2])
        &&& self.live as nat == live_count(self.nodes@)
    }

    pub fn new() -> (r: RoomGraph)
        ensures
            r.wf(),
            r.nodes@.len() == 0,
            r.edges@.len() == 0,
            r.spec_node_count() == 0,
    {
        RoomGraph { nodes: Vec::new(), edges: Vec::new(), live: 0 }
    }

    pub fn slot_count(&self) -> (r: usize)
        ensures
            r == self.nodes@.len(),
    {
        self.nodes.len()
    }

    pub fn node_count(&self) -> (r: usize)
        requires
            self.wf(),
        ensures
            r == self.spec_node_count(),
    {
        self.live
    }

    pub fn contains_node(&self, n: usize) -> (r: bool)
        ensures
            r == self.is_node(n as int),
    {
        n < self.nodes.len() && self.nodes[n].is_some()
    }

    pub fn node_weight(&self, n: usize) -> (r: usize)
        requires
            self.is_node(n as int),
        ensures
            r == self.spec_weight(n as int),
    {
        match self.nodes[n] {
            Some(w) => w,
            None => unreached(),
        }
    }

    /// Add a fresh node carrying `weight`; returns its slot.
    pub fn add_node(&mut self, weight: usize) -> (idx: usize)
        requires
            old(self).wf(),
        ensures
            final (self).wf(),
            idx == old(self).nodes@.len(),
            final (self).nodes@ == old(self).nodes@.push(Some(weight)),
            final (self).edges@ == old(self).edges@,
            final (self).spec_node_count() == old(self).spec_node_count() + 1,
    {
        let idx = self.nodes.len();
        proof {
            assert(self.nodes@.push(Some(weight)).drop_last() =~= self.nodes@);
        }
        self.nodes.push(Some(weight));
        let grown = self.nodes.len();
        proof {
            assert(grown == self.nodes@.len());
            lemma_live_count_le_len(self.nodes@);
        }
        self.live = self.live + 1;
        proof {
            assert forall|k: int| 0 <= k < self.edges@.len() implies self.is_node(
                (#[trigger] self.edges@[k]).0 as int,
            ) && self.is_node(self.edges@[k].1 as int) by {
                assert(old(self).is_node(self.edges@[k].0 as int));
                assert(old(self).is_node(self.edges@[k].1 as int));
            }
        }
        idx
    }

    /// Put a node back into the empty slot `n` with weight `weight`.
    pub fn restore_node(&mut self, n: usize, weight: usize)
        requires
            old(self).wf(),
            n < old(self).nodes@.len(),
            !old(self).is_node(n as int),
        ensures
            final (self).wf(),
            final (self).nodes@ == old(self).nodes@.update(n as int, Some(weight)),
            final (self).edges@ == old(self).edges@,
            final (self).spec_node_count() == old(self).spec_node_count() + 1,
    {
        let slots = self.nodes.len();
        proof {
            assert(slots == self.nodes@.len());
            lemma_live_count_update(self.nodes@, n as int, Some(weight));
            lemma_live_count_le_len(self.nodes@.update(n as int, Some(weight)));
        }
        self.nodes.set(n, Some(weight));
        self.live = self.live + 1;
        proof {
            assert forall|k: int| 0 <= k < self.edges@.len() implies self.is_node(
                (#[trigger] self.edges@[k]).0 as int,
            ) && self.is_node(self.edges@[k].1 as int) by {
                assert(old(self).is_node(self.edges@[k].0 as int));
                assert(old(self).is_node(self.edges@[k].1 as int));
            }
        }
    }

    pub fn has_edge_exec(&self, a: usize, b: usize) -> (r: bool)
        ensures
            r == self.has_edge(a as int, b as int),
    {
        let mut k: usize = 0;
        while k < self.edges.len()
            invariant
                k <= self.edges@.len(),
                forall|m: int|
                    0 <= m < k ==> !(((#[trigger] self.edges@[m]).0 == a && self.edges@[m].1 == b)
                        || (self.edges@[m].0 == b && self.edges@[m].1 == a)),
            decreases self.edges@.len() - k,
        {
            let e = self.edges[k];
            if (e.0 == a && e.1 == b) || (e.0 == b && e.1 == a) {
                return true;
            }
            k = k + 1;
        }
        false
    }

    /// Join nodes `a` and `b` by an undirected edge.
    pub fn add_edge(&mut self, a: usize, b: usize)
        requires
            old(self).wf(),
            old(self).is_node(a as int),
            old(self).is_node(b as int),
            a != b,
            !old(self).has_edge(a as int, b as int),
        ensures
            final (self).wf(),
            final (self).nodes@ == old(self).nodes@,
            forall|x: int, y: int|
                final (self).has_edge(x, y) <==> (old(self).has_edge(x, y) || (x == a && y == b) || (
                x == b && y == a)),
            final (self).edges@.len() == old(self).edges@.len() + 1,
    {
        let e = if a < b {
            (a, b)
        } else {
            (b, a)
        };
        proof {
            assert forall|k: int|
                0 <= k < self.edges@.len() implies (#[trigger] self.edges@[k]) != e by {
                if self.edges@[k] == e {
                    assert(self.has_edge(a as int, b as int));
                }
            }
        }
        self.edges.push(e);
        proof {
            let new_edges = self.edges@;
            let old_edges = old(self).edges@;
            assert forall|x: int, y: int| #[trigger]
                final (self).has_edge(x, y) <==> (old(self).has_edge(x, y) || (x == a && y == b) || (
            x == b && y == a)) by {
                if old(self).has_edge(x, y) {
                    let k = choose|k: int|
                        0 <= k < old_edges.len() && (((#[trigger] old_edges[k]).0 == x
                            && old_edges[k].1 == y) || (old_edges[k].0 == y && old_edges[k].1 == x));
                    assert(new_edges[k] == old_edges[k]);
                }
                if (x == a && y == b) || (x == b && y == a) {
                    assert(new_edges[new_edges.len() - 1] == e);
                }
                if final (self).has_edge(x, y) {
                    let k = choose|k: int|
                        0 <= k < new_edges.len() && (((#[trigger] new_edges[k]).0 == x
                            && new_edges[k].1 == y) || (new_edges[k].0 == y && new_edges[k].1 == x));
                    if k < old_edges.len() {
                        assert(old_edges[k] == new_edges[k]);
                    }
                }
            }
        }
    }

    /// The slots of all current nodes, in increasing order.
    pub fn live_nodes(&self) -> (r: Vec<usize>)
        ensures
            r@ == live_slots_of(self.nodes@),
            forall|k: int| 0 <= k < r@.len() ==> self.is_node((#[trigger] r@[k]) as int),
            forall|n: int|
                self.is_node(n) ==> exists|k: int| 0 <= k < r@.len() && (#[trigger] r@[k]) as int
                    == n,
            forall|k1: int, k2: int| 0 <= k1 < k2 < r@.len() ==> r@[k1] < r@[k2],
            self.spec_node_count() > 0 ==> r@.len() > 0,
    {
        let mut r: Vec<usize> = Vec::new();
        let mut i: usize = 0;
        while i < self.nodes.len()
            invariant
                i <= self.nodes@.len(),
                r@ == live_slots_of(self.nodes@.take(i as int)),
            decreases self.nodes@.len() - i,
        {
            proof {
                assert(self.nodes@.take(i + 1).drop_last() =~= self.nodes@.take(i as int));
                assert(self.nodes@.take(i + 1).last() == self.nodes@[i as int]);
            }
            if self.nodes[i].is_some() {
                r.push(i);
            }
            i = i + 1;
        }
        proof {
            assert(self.nodes@.take(self.nodes@.len() as int) =~= self.nodes@);
            lemma_live_slots_of(self.nodes@);
            if self.spec_node_count() > 0 {
                lemma_live_count_pos(self.nodes@);
                let n = choose|n: int| 0 <= n < self.nodes@.len() && self.nodes@[n] is Some;
                assert(self.is_node(n));
            }
        }
        r
    }

    /// The other endpoints of all edges at node `n`.
    pub fn neighbors(&self, n: usize) -> (r: Vec<usize>)
        requires
            self.wf(),
        ensures
            forall|k: int|
                0 <= k < r@.len() ==> self.has_edge(n as int, (#[trigger] r@[k]) as int)
                    && self.is_node(r@[k] as int),
            forall|m: usize| self.has_edge(n as int, m as int) ==> r@.contains(m),
    {
        let mut r: Vec<usize> = Vec::new();
        let mut k: usize = 0;
        while k < self.edges.len()
            invariant
                k <= self.edges@.len(),
                r@ == neighbor_slots_of(self.edges@.take(k as int), n as int),
            decreases self.edges@.len() - k,
        {
            proof {
                assert(self.edges@.take(k + 1).drop_last() =~= self.edges@.take(k as int));
                assert(self.edges@.take(k + 1).last() == self.edges@[k as int]);
            }
            let e = self.edges[k];
            if e.0 == n {
                r.push(e.1);
            } else if e.1 == n {
                r.push(e.0);
            }
            k = k + 1;
        }
        proof {
            assert(self.edges@.take(self.edges@.len() as int) =~= self.edges@);
            lemma_neighbor_slots_of(self.edges@, n as int);
            assert forall|j: int|
                0 <= j < r@.len() implies self.has_edge(n as int, (#[trigger] r@[j]) as int)
                && self.is_node(r@[j] as int) by {
                assert(seq_has_edge(self.edges@, n as int, r@[j] as int));
                let i = choose|i: int|
                    0 <= i < self.edges@.len() && (((#[trigger] self.edges@[i]).0 == n as int
                        && self.edges@[i].1 == r@[j] as int) || (self.edges@[i].0 == r@[j] as int
                        && self.edges@[i].1 == n as int));
            }
            assert forall|m: usize| self.has_edge(n as int, m as int) implies r@.contains(m) by {
                let i = choose|i: int|
                    0 <= i < self.edges@.len() && (((#[trigger] self.edges@[i]).0 == n as int
                        && self.edges@[i].1 == m as int) || (self.edges@[i].0 == m as int
                        && self.edges@[i].1 == n as int));
                if self.edges@[i].0 == n {
                    assert(r@.contains(self.edges@[i].1));
                } else {
                    assert(r@.contains(self.edges@[i].0));
                }
            }
        }
        r
    }

    /// Count of edges at node `n`.
    pub fn degree(&self, n: usize) -> (r: usize)
        requires
            self.wf(),
        ensures
            r == self.neighbors_spec_count(n as int),
    {
        let mut count: usize = 0;
        let mut k: usize = 0;
        while k < self.edges.len()
            invariant
                self.wf(),
                k <= self.edges@.len(),
                count == incident_count(self.edges@.take(k as int), n as int),
                count <= k,
            decreases self.edges@.len() - k,
        {
            let e = self.edges[k];
            proof {
                assert(self.edges@.take(k + 1 as int).drop_last() =~= self.edges@.take(k as int));
                assert(self.edges@.take(k + 1 as int).last() == self.edges@[k as int]);
            }
            if e.0 == n || e.1 == n {
                count = count + 1;
            }
            k = k + 1;
        }
        proof {
            assert(self.edges@.take(self.edges@.len() as int) =~= self.edges@);
        }
        count
    }

    /// Number of edges with `n` as an endpoint.
    pub open spec fn neighbors_spec_count(self, n: int) -> nat {
        incident_count(self.edges@, n)
    }

    /// Remove node `n` and every edge at it. Returns its weight together
    /// with the removed edges, so a caller can restore the node exactly.
    pub fn remove_node(&mut self, n: usize) -> (r: (usize, Vec<(usize, usize)>))
        requires
            old(self).wf(),
            old(self).is_node(n as int),
        ensures
            final (self).wf(),
            final (self).nodes@ == old(self).nodes@.update(n as int, None),
            final (self).spec_node_count() == old(self).spec_node_count() - 1,
            r.0 == old(self).spec_weight(n as int),
            forall|x: int, y: int|
                final (self).has_edge(x, y) <==> old(self).has_edge(x, y) && x != n && y != n,
            forall|k: int|
                0 <= k < r.1@.len() ==> ((#[trigger] r.1@[k]).0 == n || r.1@[k].1 == n)
                    && r.1@[k].0 < r.1@[k].1 && old(self).has_edge(
                    r.1@[k].0 as int,
                    r.1@[k].1 as int,
                ) && old(self).is_node(r.1@[k].0 as int) && old(self).is_node(r.1@[k].1 as int),
            forall|k1: int, k2: int|
                0 <= k1 < r.1@.len() && 0 <= k2 < r.1@.len() && k1 != k2 ==> (#[trigger] r.1@[k1])
                    != (#[trigger] r.1@[k2]),
            forall|x: int, y: int|
                old(self).has_edge(x, y) && (x == n || y == n) ==> seq_has_edge(r.1@, x, y),
    {
        let weight = self.node_weight(n);
        proof {
            lemma_live_count_update(self.nodes@, n as int, None);
        }
        self.nodes.set(n, None);
        self.live = self.live - 1;
        let ghost old_edges = self.edges@;
        let mut kept: Vec<(usize, usize)> = Vec::new();
        let mut removed: Vec<(usize, usize)> = Vec::new();
        let mut k: usize = 0;
        while k < self.edges.len()
            invariant
                k <= self.edges@.len(),
                self.edges@ == old_edges,
                kept@ == absent_edges_of(old_edges.take(k as int), n as int),
                removed@ == incident_edges_of(old_edges.take(k as int), n as int),
            decreases self.edges@.len() - k,
        {
            proof {
                assert(old_edges.take(k + 1).drop_last() =~= old_edges.take(k as int));
                assert(old_edges.take(k + 1).last() == old_edges[k as int]);
            }
            let e = self.edges[k];
            if e.0 == n || e.1 == n {
                removed.push(e);
            } else {
                kept.push(e);
            }
            k = k + 1;
        }
        self.edges = kept;
        proof {
            assert(old_edges.take(old_edges.len() as int) =~= old_edges);
            lemma_split_edges_of(old_edges, n as int);
            let fin = *final (self);
            assert forall|x: int, y: int| #[trigger]
                fin.has_edge(x, y) <==> old(self).has_edge(x, y) && x != n && y != n by {
                if fin.has_edge(x, y) {
                    let j = choose|j: int|
                        0 <= j < fin.edges@.len() && (((#[trigger] fin.edges@[j]).0 == x
                            && fin.edges@[j].1 == y) || (fin.edges@[j].0 == y && fin.edges@[j].1
                            == x));
                    assert(old_edges.contains(fin.edges@[j]));
                    let i = choose|i: int|
                        0 <= i < old_edges.len() && old_edges[i] == fin.edges@[j];
                    assert(old(self).has_edge(x, y));
                }
                if old(self).has_edge(x, y) && x != n && y != n {
                    let j = choose|j: int|
                        0 <= j < old_edges.len() && (((#[trigger] old_edges[j]).0 == x
                            && old_edges[j].1 == y) || (old_edges[j].0 == y && old_edges[j].1
                            == x));
                    assert(kept@.contains(old_edges[j]));
                    let i = choose|i: int| 0 <= i < kept@.len() && kept@[i] == old_edges[j];
                    assert(fin.has_edge(x, y));
                }
            }
            assert forall|x: int, y: int|
                old(self).has_edge(x, y) && (x == n || y == n) implies seq_has_edge(
                removed@,
                x,
                y,
            ) by {
                let j = choose|j: int|
                    0 <= j < old_edges.len() && (((#[trigger] old_edges[j]).0 == x && old_edges[j].1
                        == y) || (old_edges[j].0 == y && old_edges[j].1 == x));
                assert(removed@.contains(old_edges[j]));
                let i = choose|i: int| 0 <= i < removed@.len() && removed@[i] == old_edges[j];
                assert(removed@[i].0 == x && removed@[i].1 == y || removed@[i].0 == y
                    && removed@[i].1 == x);
            }
            assert forall|k2: int| 0 <= k2 < fin.edges@.len() implies fin.is_node(
                (#[trigger] fin.edges@[k2]).0 as int,
            ) && fin.is_node(fin.edges@[k2].1 as int) && fin.edges@[k2].0 < fin.edges@[k2].1 by {
                assert(old_edges.contains(fin.edges@[k2]));
                let i = choose|i: int| 0 <= i < old_edges.len() && old_edges[i] == fin.edges@[k2];
                assert(old(self).is_node(fin.edges@[k2].0 as int));
                assert(old(self).is_node(fin.edges@[k2].1 as int));
            }
            assert forall|k2: int| 0 <= k2 < removed@.len() implies ((#[trigger] removed@[k2]).0
                == n || removed@[k2].1 == n) && removed@[k2].0 < removed@[k2].1 && old(
                self,
            ).has_edge(removed@[k2].0 as int, removed@[k2].1 as int) && old(self).is_node(
                removed@[k2].0 as int,
            ) && old(self).is_node(removed@[k2].1 as int) by {
                assert(old_edges.contains(removed@[k2]));
                let i = choose|i: int| 0 <= i < old_edges.len() && old_edges[i] == removed@[k2];
                assert(old(self).has_edge(removed@[k2].0 as int, removed@[k2].1 as int));
            }
        }
        (weight, removed)
    }
}

/// The pairs of `s` having `n` as either component, in order.
pub open spec fn incident_edges_of(s: Seq<(usize, usize)>, n: int) -> Seq<(usize, usize)>
    decreases s.len(),
{
    if s.len() == 0 {
        Seq::empty()
    } else if s.last().0 == n || s.last().1 == n {
        incident_edges_of(s.drop_last(), n).push(s.last())
    } else {
        incident_edges_of(s.drop_last(), n)
    }
}

/// The pairs of `s` avoiding `n` entirely, in order.
pub open spec fn absent_edges_of(s: Seq<(usize, usize)>, n: int) -> Seq<(usize, usize)>
    decreases s.len(),
{
    if s.len() == 0 {
        Seq::empty()
    } else if s.last().0 == n || s.last().1 == n {
        absent_edges_of(s.drop_last(), n)
    } else {
        absent_edges_of(s.drop_last(), n).push(s.last())
    }
}

/// How `incident_edges_of` and `absent_edges_of` split a distinct edge list:
/// each part draws its elements from `s` with the right incidence, stays
/// duplicate-free when `s` is, and together the parts cover `s`.
proof fn lemma_split_edges_of(s: Seq<(usize, usize)>, n: int)
    requires
        forall|k1: int, k2: int|
            0 <= k1 < s.len() && 0 <= k2 < s.len() && k1 != k2 ==> (#[trigger] s[k1]) != (
            #[trigger] s[k2]),
    ensures
        forall|k: int|
            0 <= k < incident_edges_of(s, n).len() ==> s.contains(
                #[trigger] incident_edges_of(s, n)[k],
            ) && (incident_edges_of(s, n)[k].0 == n || incident_edges_of(s, n)[k].1 == n),
        forall|k: int|
            0 <= k < absent_edges_of(s, n).len() ==> s.contains(#[trigger] absent_edges_of(s, n)[k])
                && !(absent_edges_of(s, n)[k].0 == n || absent_edges_of(s, n)[k].1 == n),
        forall|k1: int, k2: int|
            0 <= k1 < incident_edges_of(s, n).len() && 0 <= k2 < incident_edges_of(s, n).len() && k1
                != k2 ==> (#[trigger] incident_edges_of(s, n)[k1]) != (#[trigger] incident_edges_of(
                s,
                n,
            )[k2]),
        forall|k1: int, k2: int|
            0 <= k1 < absent_edges_of(s, n).len() && 0 <= k2 < absent_edges_of(s, n).len() && k1
                != k2 ==> (#[trigger] absent_edges_of(s, n)[k1]) != (#[trigger] absent_edges_of(
                s,
                n,
            )[k2]),
        forall|j: int|
            0 <= j < s.len() ==> (if (#[trigger] s[j]).0 == n || s[j].1 == n {
                incident_edges_of(s, n).contains(s[j])
            } else {
                absent_edges_of(s, n).contains(s[j])
            }),
    decreases s.len(),
{
    if s.len() > 0 {
        let t = s.drop_last();
        assert forall|k1: int, k2: int|
            0 <= k1 < t.len() && 0 <= k2 < t.len() && k1 != k2 implies (#[trigger] t[k1]) != (
        #[trigger] t[k2]) by {
            assert(s[k1] != s[k2]);
        }
        lemma_split_edges_of(t, n);
        let inc = incident_edges_of(s, n);
        let abs = absent_edges_of(s, n);
        let inct = incident_edges_of(t, n);
        let abst = absent_edges_of(t, n);
        assert(s[s.len() - 1] == s.last());
        assert forall|k: int| 0 <= k < inc.len() implies s.contains(#[trigger] inc[k]) && (inc[k].0
            == n || inc[k].1 == n) by {
            if k < inct.len() {
                assert(inc[k] == inct[k]);
                let i = choose|i: int| 0 <= i < t.len() && t[i] == inct[k];
                assert(s[i] == inct[k]);
            } else {
                assert(inc[k] == s.last());
            }
        }
        assert forall|k: int| 0 <= k < abs.len() implies s.contains(#[trigger] abs[k]) && !(abs[k].0
            == n || abs[k].1 == n) by {
            if k < abst.len() {
                assert(abs[k] == abst[k]);
                let i = choose|i: int| 0 <= i < t.len() && t[i] == abst[k];
                assert(s[i] == abst[k]);
            } else {
                assert(abs[k] == s.last());
            }
        }
        assert forall|k1: int, k2: int|
            0 <= k1 < inc.len() && 0 <= k2 < inc.len() && k1 != k2 implies (#[trigger] inc[k1]) != (
        #[trigger] inc[k2]) by {
            if s.last().0 == n || s.last().1 == n {
                if k1 < inct.len() && k2 < inct.len() {
                    assert(inct[k1] != inct[k2]);
                } else {
                    let kl: int = if k1 < inct.len() {
                        k1
                    } else {
                        k2
                    };
                    assert(inc[kl] == inct[kl]);
                    let i = choose|i: int| 0 <= i < t.len() && t[i] == inct[kl];
                    assert(s[i] != s[s.len() - 1]);
                }
            }
        }
        assert forall|k1: int, k2: int|
            0 <= k1 < abs.len() && 0 <= k2 < abs.len() && k1 != k2 implies (#[trigger] abs[k1]) != (
        #[trigger] abs[k2]) by {
            if !(s.last().0 == n || s.last().1 == n) {
                if k1 < abst.len() && k2 < abst.len() {
                    assert(abst[k1] != abst[k2]);
                } else {
                    let kl: int = if k1 < abst.len() {
                        k1
                    } else {
                        k2
                    };
                    assert(abs[kl] == abst[kl]);
                    let i = choose|i: int| 0 <= i < t.len() && t[i] == abst[kl];
                    assert(s[i] != s[s.len() - 1]);
                }
            }
        }
        assert forall|j: int|
            0 <= j < s.len() implies (if (#[trigger] s[j]).0 == n || s[j].1 == n {
            inc.contains(s[j])
        } else {
            abs.contains(s[j])
        }) by {
            if j < s.len() - 1 {
                assert(t[j] == s[j]);
                if s[j].0 == n || s[j].1 == n {
                    assert(inct.contains(t[j]));
                    let k = choose|k: int| 0 <= k < inct.len() && inct[k] == t[j];
                    assert(inc[k] == s[j]);
                } else {
                    assert(abst.contains(t[j]));
                    let k = choose|k: int| 0 <= k < abst.len() && abst[k] == t[j];
                    assert(abs[k] == s[j]);
                }
            } else {
                if s[j].0 == n || s[j].1 == n {
                    assert(inc[inc.len() - 1] == s[j]);
                } else {
                    assert(abs[abs.len() - 1] == s[j]);
                }
            }
        }
    }
}

/// The node slots occupied in `s`, in increasing order.
pub open spec fn live_slots_of(s: Seq<Option<usize>>) -> Seq<usize>
    decreases s.len(),
{
    if s.len() == 0 {
        Seq::empty()
    } else if s.last() is Some {
        live_slots_of(s.drop_last()).push((s.len() - 1) as usize)
    } else {
        live_slots_of(s.drop_last())
    }
}

/// `live_slots_of` lists exactly the occupied slots, strictly increasing.
pub proof fn lemma_live_slots_of(s: Seq<Option<usize>>)
    requires
        s.len() <= usize::MAX,
    ensures
        forall|k: int|
            0 <= k < live_slots_of(s).len() ==> (#[trigger] live_slots_of(s)[k]) < s.len() && s[
                live_slots_of(s)[k] as int
            ] is Some,
        forall|n: int| 0 <= n < s.len() && s[n] is Some ==> exists|k: int|
            0 <= k < live_slots_of(s).len() && (#[trigger] live_slots_of(s)[k]) as int == n,
        forall|k1: int, k2: int|
            0 <= k1 < k2 < live_slots_of(s).len() ==> live_slots_of(s)[k1] < live_slots_of(s)[k2],
    decreases s.len(),
{
    if s.len() > 0 {
        let t = s.drop_last();
        lemma_live_slots_of(t);
        let ls = live_slots_of(s);
        let lst = live_slots_of(t);
        assert forall|n: int| 0 <= n < s.len() && s[n] is Some implies exists|k: int|
            0 <= k < ls.len() && (#[trigger] ls[k]) as int == n by {
            if n < s.len() - 1 {
                assert(t[n] is Some);
                let k = choose|k: int| 0 <= k < lst.len() && (#[trigger] lst[k]) as int == n;
                assert(ls[k] as int == n);
            } else {
                assert(ls[ls.len() - 1] as int == n);
            }
        }
    }
}

/// The slot list is as long as the node count.
pub proof fn lemma_live_slots_len(s: Seq<Option<usize>>)
    ensures
        live_slots_of(s).len() == live_count(s),
    decreases s.len(),
{
    if s.len() > 0 {
        lemma_live_slots_len(s.drop_last());
    }
}

/// The opposite endpoints of the pairs of `s` touching `n`, in order.
pub open spec fn neighbor_slots_of(s: Seq<(usize, usize)>, n: int) -> Seq<usize>
    decreases s.len(),
{
    if s.len() == 0 {
        Seq::empty()
    } else if s.last().0 == n {
        neighbor_slots_of(s.drop_last(), n).push(s.last().1)
    } else if s.last().1 == n {
        neighbor_slots_of(s.drop_last(), n).push(s.last().0)
    } else {
        neighbor_slots_of(s.drop_last(), n)
    }
}

/// `neighbor_slots_of` lists exactly the endpoints opposite `n`.
pub proof fn lemma_neighbor_slots_of(s: Seq<(usize, usize)>, n: int)
    ensures
        forall|k: int|
            0 <= k < neighbor_slots_of(s, n).len() ==> seq_has_edge(
                s,
                n,
                (#[trigger] neighbor_slots_of(s, n)[k]) as int,
            ),
        forall|i: int|
            0 <= i < s.len() && (#[trigger] s[i]).0 == n ==> neighbor_slots_of(s, n).contains(
                s[i].1,
            ),
        forall|i: int|
            0 <= i < s.len() && (#[trigger] s[i]).1 == n ==> neighbor_slots_of(s, n).contains(
                s[i].0,
            ),
    decreases s.len(),
{
    if s.len() > 0 {
        let t = s.drop_last();
        lemma_neighbor_slots_of(t, n);
        let nb = neighbor_slots_of(s, n);
        let nbt = neighbor_slots_of(t, n);
        assert forall|k: int| 0 <= k < nb.len() implies seq_has_edge(
            s,
            n,
            (#[trigger] nb[k]) as int,
        ) by {
            if k < nbt.len() {
                assert(nbt[k] == nb[k]);
                assert(seq_has_edge(t, n, nbt[k] as int));
                let i = choose|i: int|
                    0 <= i < t.len() && (((#[trigger] t[i]).0 == n && t[i].1 == nbt[k] as int) || (
                    t[i].0 == nbt[k] as int && t[i].1 == n));
                assert(s[i] == t[i]);
                assert(seq_has_edge(s, n, nb[k] as int));
            } else {
                assert(s[s.len() - 1] == s.last());
                assert(seq_has_edge(s, n, nb[k] as int));
            }
        }
        assert forall|i: int|
            0 <= i < s.len() && (#[trigger] s[i]).0 == n implies nb.contains(s[i].1) by {
            if i < s.len() - 1 {
                assert(t[i] == s[i]);
                let k = choose|k: int| 0 <= k < nbt.len() && nbt[k] == s[i].1;
                assert(nb[k] == s[i].1);
            } else {
                assert(nb[nb.len() - 1] == s[i].1);
            }
        }
        assert forall|i: int|
            0 <= i < s.len() && (#[trigger] s[i]).1 == n implies nb.contains(s[i].0) by {
            if i < s.len() - 1 {
                assert(t[i] == s[i]);
                let k = choose|k: int| 0 <= k < nbt.len() && nbt[k] == s[i].0;
                assert(nb[k] == s[i].0);
            } else {
                assert(nb[nb.len() - 1] == s[i].0);
            }
        }
    }
}

/// Number of pairs in `s` having `n` as either component.
pub open spec fn incident_count(s: Seq<(usize, usize)>, n: int) -> nat
    decreases s.len(),
{
    if s.len() == 0 {
        0
    } else {
        incident_count(s.drop_last(), n) + if s.last().0 == n || s.last().1 == n {
            1nat
        } else {
            0nat
        }
    }
}

/// Count of `true` entries in a mask.
pub open spec fn count_true(s: Seq<bool>) -> nat
    decreases s.len(),
{
    if s.len() == 0 {
        0
    } else {
        count_true(s.drop_last()) + if s.last() {
            1nat
        } else {
            0nat
        }
    }
}

proof fn lemma_count_true_le_len(s: Seq<bool>)
    ensures
        count_true(s) <= s.len(),
    decreases s.len(),
{
    if s.len() > 0 {
        lemma_count_true_le_len(s.drop_last());
    }
}

proof fn lemma_count_true_update(s: Seq<bool>, n: int, v: bool)
    requires
        0 <= n < s.len(),
    ensures
        count_true(s.update(n, v)) == count_true(s) + (if v {
            1int
        } else {
            0int
        }) - (if s[n] {
            1int
        } else {
            0int
        }),
    decreases s.len(),
{
    let t = s.update(n, v);
    if n == s.len() - 1 {
        assert(t.drop_last() =~= s.drop_last());
    } else {
        lemma_count_true_update(s.drop_last(), n, v);
        assert(t.drop_last() =~= s.drop_last().update(n, v));
        assert(t.last() == s.last());
    }
}

pub proof fn lemma_live_count_pos_of_node(s: Seq<Option<usize>>, n: int)
    requires
        0 <= n < s.len(),
        s[n] is Some,
    ensures
        live_count(s) > 0,
    decreases s.len(),
{
    if n == s.len() - 1 {
    } else {
        lemma_live_count_pos_of_node(s.drop_last(), n);
    }
}

/// The pairs of `s` whose two slots both pass the mask, in order.
pub open spec fn masked_edges_of(s: Seq<(usize, usize)>, m: Seq<bool>) -> Seq<(usize, usize)>
    decreases s.len(),
{
    if s.len() == 0 {
        Seq::empty()
    } else if s.last().0 < m.len() && s.last().1 < m.len() && m[s.last().0 as int] && m[s.last().1
        as int] {
        masked_edges_of(s.drop_last(), m).push(s.last())
    } else {
        masked_edges_of(s.drop_last(), m)
    }
}

/// `masked_edges_of` keeps exactly the pairs passing the mask, without
/// duplicating any, when `s` itself has no duplicates.
proof fn lemma_masked_edges_of(s: Seq<(usize, usize)>, m: Seq<bool>)
    requires
        forall|k1: int, k2: int|
            0 <= k1 < s.len() && 0 <= k2 < s.len() && k1 != k2 ==> (#[trigger] s[k1]) != (
            #[trigger] s[k2]),
    ensures
        forall|k: int|
            0 <= k < masked_edges_of(s, m).len() ==> s.contains(#[trigger] masked_edges_of(s, m)[k])
                && masked_edges_of(s, m)[k].0 < m.len() && masked_edges_of(s, m)[k].1 < m.len() && m[
                masked_edges_of(s, m)[k].0 as int
            ] && m[masked_edges_of(s, m)[k].1 as int],
        forall|k1: int, k2: int|
            0 <= k1 < masked_edges_of(s, m).len() && 0 <= k2 < masked_edges_of(s, m).len() && k1
                != k2 ==> (#[trigger] masked_edges_of(s, m)[k1]) != (#[trigger] masked_edges_of(
                s,
                m,
            )[k2]),
        forall|j: int|
            0 <= j < s.len() && (#[trigger] s[j]).0 < m.len() && s[j].1 < m.len() && m[s[j].0 as int]
                && m[s[j].1 as int] ==> masked_edges_of(s, m).contains(s[j]),
    decreases s.len(),
{
    if s.len() > 0 {
        let t = s.drop_last();
        assert forall|k1: int, k2: int|
            0 <= k1 < t.len() && 0 <= k2 < t.len() && k1 != k2 implies (#[trigger] t[k1]) != (
        #[trigger] t[k2]) by {
            assert(s[k1] != s[k2]);
        }
        lemma_masked_edges_of(t, m);
        let me = masked_edges_of(s, m);
        let met = masked_edges_of(t, m);
        assert(s[s.len() - 1] == s.last());
        assert forall|k: int| 0 <= k < me.len() implies s.contains(#[trigger] me[k]) && me[k].0
            < m.len() && me[k].1 < m.len() && m[me[k].0 as int] && m[me[k].1 as int] by {
            if k < met.len() {
                assert(me[k] == met[k]);
                let i = choose|i: int| 0 <= i < t.len() && t[i] == met[k];
                assert(s[i] == met[k]);
            } else {
                assert(me[k] == s.last());
            }
        }
        assert forall|k1: int, k2: int|
            0 <= k1 < me.len() && 0 <= k2 < me.len() && k1 != k2 implies (#[trigger] me[k1]) != (
        #[trigger] me[k2]) by {
            if k1 < met.len() && k2 < met.len() {
                assert(met[k1] != met[k2]);
            } else if me.len() > met.len() {
                let kl: int = if k1 < met.len() {
                    k1
                } else {
                    k2
                };
                assert(me[kl] == met[kl]);
                let i = choose|i: int| 0 <= i < t.len() && t[i] == met[kl];
                assert(s[i] != s[s.len() - 1]);
            }
        }
        assert forall|j: int|
            0 <= j < s.len() && (#[trigger] s[j]).0 < m.len() && s[j].1 < m.len() && m[s[j].0 as int]
                && m[s[j].1 as int] implies me.contains(s[j]) by {
            if j < s.len() - 1 {
                assert(t[j] == s[j]);
                assert(met.contains(t[j]));
                let k = choose|k: int| 0 <= k < met.len() && met[k] == t[j];
                assert(me[k] == s[j]);
            } else {
                assert(me[me.len() - 1] == s[j]);
            }
        }
    }
}

/// The subgraph induced by the node slots that pass `keep`: those nodes, and
/// every edge of `graph` joining two of them. Slot numbering is unchanged.
pub fn induced_subgraph(graph: &RoomGraph, keep: &Vec<bool>) -> (r: RoomGraph)
    requires
        graph.wf(),
        keep@.len() == graph.nodes@.len(),
    ensures
        r.wf(),
        r.nodes@.len() == graph.nodes@.len(),
        forall|i: int| #[trigger] r.is_node(i) <==> graph.is_node(i) && keep@[i],
        forall|i: int| r.is_node(i) ==> #[trigger] r.spec_weight(i) == graph.spec_weight(i),
        forall|a: int, b: int| #[trigger]
            r.has_edge(a, b) <==> graph.has_edge(a, b) && 0 <= a < keep@.len() && 0 <= b
                < keep@.len() && keep@[a] && keep@[b],
        r.nodes_subset_of(*graph),
        r.edges_subset_of(*graph),
    {
    let mut nodes: Vec<Option<usize>> = Vec::new();
    let mut live: usize = 0;
    let mut i: usize = 0;
    while i < graph.nodes.len()
        invariant
            graph.wf(),
            keep@.len() == graph.nodes@.len(),
            i <= graph.nodes@.len(),
            nodes@.len() == i,
            live as nat == live_count(nodes@),
            forall|j: int|
                0 <= j < i ==> nodes@[j] == (if keep@[j] {
                    graph.nodes@[j]
                } else {
                    None
                }),
        decreases graph.nodes@.len() - i,
    {
        let v = if keep[i] {
            graph.nodes[i]
        } else {
            None
        };
        proof {
            assert(nodes@.push(v).drop_last() =~= nodes@);
            lemma_live_count_le_len(nodes@);
        }
        nodes.push(v);
        if v.is_some() {
            live = live + 1;
        }
        i = i + 1;
    }
    let mut edges: Vec<(usize, usize)> = Vec::new();
    let mut k: usize = 0;
    while k < graph.edges.len()
        invariant
            graph.wf(),
            keep@.len() == graph.nodes@.len(),
            k <= graph.edges@.len(),
            edges@ == masked_edges_of(graph.edges@.take(k as int), keep@),
        decreases graph.edges@.len() - k,
    {
        proof {
            assert(graph.edges@.take(k + 1).drop_last() =~= graph.edges@.take(k as int));
            assert(graph.edges@.take(k + 1).last() == graph.edges@[k as int]);
        }
        let e = graph.edges[k];
        proof {
            assert(graph.is_node(e.0 as int) && graph.is_node(e.1 as int));
        }
        if keep[e.0] && keep[e.1] {
            edges.push(e);
        }
        k = k + 1;
    }
    let r = RoomGraph { nodes, edges, live };
    proof {
        assert(graph.edges@.take(graph.edges@.len() as int) =~= graph.edges@);
        lemma_masked_edges_of(graph.edges@, keep@);
        assert forall|k2: int| 0 <= k2 < r.edges@.len() implies (#[trigger] r.edges@[k2]).0
            < r.edges@[k2].1 && r.is_node(r.edges@[k2].0 as int) && r.is_node(
            r.edges@[k2].1 as int,
        ) by {
            assert(graph.edges@.contains(r.edges@[k2]));
            let i2 = choose|i2: int|
                0 <= i2 < graph.edges@.len() && graph.edges@[i2] == r.edges@[k2];
            assert(graph.is_node(r.edges@[k2].0 as int));
            assert(graph.is_node(r.edges@[k2].1 as int));
        }
        assert forall|a: int, b: int| #[trigger]
            r.has_edge(a, b) <==> graph.has_edge(a, b) && 0 <= a < keep@.len() && 0 <= b
                < keep@.len() && keep@[a] && keep@[b] by {
            if r.has_edge(a, b) {
                let k2 = choose|k2: int|
                    0 <= k2 < r.edges@.len() && (((#[trigger] r.edges@[k2]).0 == a && r.edges@[k2].1
                        == b) || (r.edges@[k2].0 == b && r.edges@[k2].1 == a));
                assert(graph.edges@.contains(r.edges@[k2]));
                let i2 = choose|i2: int|
                    0 <= i2 < graph.edges@.len() && graph.edges@[i2] == r.edges@[k2];
                assert(graph.has_edge(a, b));
            }
            if graph.has_edge(a, b) && 0 <= a < keep@.len() && 0 <= b < keep@.len() && keep@[a]
                && keep@[b] {
                let i2 = choose|i2: int|
                    0 <= i2 < graph.edges@.len() && (((#[trigger] graph.edges@[i2]).0 == a
                        && graph.edges@[i2].1 == b) || (graph.edges@[i2].0 == b
                        && graph.edges@[i2].1 == a));
                assert(r.edges@.contains(graph.edges@[i2]));
                let k2 = choose|k2: int|
                    0 <= k2 < r.edges@.len() && r.edges@[k2] == graph.edges@[i2];
                assert(r.has_edge(a, b));
            }
        }
    }
    r
}

/// Nodes `v` and `root` are joined by a simple path in `g`.
pub open spec fn linked(g: RoomGraph, v: usize, root: usize) -> bool {
    exists|p: Seq<usize>|
        #[trigger] is_simple_path(g, p) && p.len() >= 1 && p[0] == v && p[p.len() - 1] == root
}

/// Nodes `v` and `root` are joined by a simple path staying inside the mask.
pub open spec fn mask_linked(g: RoomGraph, v: usize, root: usize, m: Seq<bool>) -> bool {
    exists|p: Seq<usize>|
        #[trigger] is_simple_path(g, p) && p.len() >= 1 && p[0] == v && p[p.len() - 1] == root && (
        forall|i: int| 0 <= i < p.len() ==> m[(#[trigger] p[i]) as int])
}

/// Nodes `v` and `root` are joined by a simple path whose nodes all lie in
/// the freshly marked region: inside `m`, outside `m0`.
pub open spec fn region_linked(g: RoomGraph, v: int, root: usize, m: Seq<bool>, m0: Seq<bool>) -> bool {
    exists|p: Seq<usize>|
        #[trigger] is_simple_path(g, p) && p.len() >= 1 && p[0] as int == v && p[p.len() - 1]
            == root && (forall|i: int|
            0 <= i < p.len() ==> m[(#[trigger] p[i]) as int] && !m0[p[i] as int])
}

/// Every node of the freshly marked region (inside `m`, outside `m0`) is
/// joined to `root` by a simple path inside that region.
pub open spec fn component_linked(g: RoomGraph, root: usize, m0: Seq<bool>, m: Seq<bool>) -> bool {
    forall|v: int|
        0 <= v < m.len() && m[v] && !m0[v] ==> #[trigger] region_linked(g, v, root, m, m0)
}

/// Every node of `g` is joined to the hub node `h` by a simple path in `g`.
pub open spec fn hub_linked(g: RoomGraph, h: usize) -> bool {
    g.is_node(h as int) && forall|v: usize| g.is_node(v as int) ==> #[trigger] linked(g, v, h)
}

/// No edge of `g` leaves the mask, and the mask holds only nodes.
pub open spec fn closed_mask(g: RoomGraph, m: Seq<bool>) -> bool {
    &&& m.len() == g.nodes@.len()
    &&& forall|j: int| 0 <= j < m.len() && #[trigger] m[j] ==> g.is_node(j)
    &&& forall|a: int, b: int|
        #[trigger] g.has_edge(a, b) && 0 <= a < m.len() && m[a] && 0 <= b < m.len() ==> m[b]
}

/// Some hub inside the mask reaches every masked node along a path that
/// stays inside the mask.
pub open spec fn connected_mask(g: RoomGraph, m: Seq<bool>) -> bool {
    exists|h: usize|
        (h as int) < m.len() && m[h as int] && (forall|v: int|
            0 <= v < m.len() && #[trigger] m[v] ==> mask_linked(g, v as usize, h, m))
}

/// A simple path cannot escape a closed mask holding its last node.
proof fn lemma_closed_path(g: RoomGraph, m: Seq<bool>, p: Seq<usize>, k: int)
    requires
        g.wf(),
        m.len() == g.nodes@.len(),
        forall|a: int, b: int|
            #[trigger] g.has_edge(a, b) && 0 <= a < m.len() && m[a] && 0 <= b < m.len() ==> m[b],
        is_simple_path(g, p),
        p.len() >= 1,
        m[p[p.len() - 1] as int],
        0 <= k < p.len(),
    ensures
        m[p[k] as int],
    decreases p.len() - k,
{
    if k < p.len() - 1 {
        lemma_closed_path(g, m, p, k + 1);
        assert(g.has_edge(p[k] as int, p[k + 1] as int));
        assert(g.has_edge(p[k + 1] as int, p[k] as int));
        assert(g.is_node(p[k] as int) && g.is_node(p[k + 1] as int));
    }
}

/// A pointwise-smaller mask marks no more entries.
proof fn lemma_count_true_pointwise_mono(a: Seq<bool>, b: Seq<bool>)
    requires
        a.len() == b.len(),
        forall|j: int| 0 <= j < a.len() && #[trigger] a[j] ==> b[j],
    ensures
        count_true(a) <= count_true(b),
    decreases a.len(),
{
    if a.len() > 0 {
        assert forall|j: int|
            0 <= j < a.drop_last().len() && #[trigger] a.drop_last()[j] implies b.drop_last()[j] by {
            assert(a[j]);
        }
        lemma_count_true_pointwise_mono(a.drop_last(), b.drop_last());
        assert(a[a.len() - 1] == a.last() && b[b.len() - 1] == b.last());
    }
}

/// A difference mask counts the growth between two nested masks.
proof fn lemma_count_true_diff(pre: Seq<bool>, now: Seq<bool>, diff: Seq<bool>)
    requires
        pre.len() == now.len(),
        diff.len() == now.len(),
        forall|j: int| 0 <= j < now.len() && #[trigger] pre[j] ==> now[j],
        forall|j: int| 0 <= j < now.len() ==> ((#[trigger] diff[j]) <==> (now[j] && !pre[j])),
    ensures
        count_true(diff) == count_true(now) - count_true(pre),
    decreases now.len(),
{
    if now.len() > 0 {
        assert forall|j: int|
            0 <= j < now.drop_last().len() && #[trigger] pre.drop_last()[j] implies now.drop_last()[j] by {
            assert(pre[j]);
        }
        assert forall|j: int|
            0 <= j < now.drop_last().len() implies ((#[trigger] diff.drop_last()[j]) <==> (
        now.drop_last()[j] && !pre.drop_last()[j])) by {
            assert(diff[j] <==> (now[j] && !pre[j]));
        }
        lemma_count_true_diff(pre.drop_last(), now.drop_last(), diff.drop_last());
        assert(pre[now.len() - 1] == pre.last() && now[now.len() - 1] == now.last() && diff[now.len()
            - 1] == diff.last());
    }
}

/// A mask matching the occupied slots counts exactly the nodes.
proof fn lemma_count_eq_live(m: Seq<bool>, nodes: Seq<Option<usize>>)
    requires
        m.len() == nodes.len(),
        forall|j: int| 0 <= j < m.len() ==> ((#[trigger] m[j]) <==> nodes[j] is Some),
    ensures
        count_true(m) == live_count(nodes),
    decreases m.len(),
{
    if m.len() > 0 {
        assert forall|j: int|
            0 <= j < m.drop_last().len() implies ((#[trigger] m.drop_last()[j])
            <==> nodes.drop_last()[j] is Some) by {
            assert(m[j] <==> nodes[j] is Some);
        }
        lemma_count_eq_live(m.drop_last(), nodes.drop_last());
        assert(m[m.len() - 1] == m.last() && nodes[m.len() - 1] == nodes.last());
    }
}

/// Predecessor-tree state left by marking one component: every node marked
/// beyond `m0` steps along an edge to a marked predecessor one depth level
/// down, bottoming out at `root`.
pub open spec fn bfs_cert(
    g: RoomGraph,
    root: usize,
    m0: Seq<bool>,
    m: Seq<bool>,
    pred: Seq<int>,
    depth: Seq<int>,
) -> bool {
    let n = g.nodes@.len() as int;
    &&& m0.len() == n
    &&& m.len() == n
    &&& pred.len() == n
    &&& depth.len() == n
    &&& (root as int) < n
    &&& m[root as int] && !m0[root as int]
    &&& depth[root as int] == 0
    &&& forall|v: int| 0 <= v < n && #[trigger] m[v] && !m0[v] ==> g.is_node(v) && 0 <= depth[v]
    &&& forall|v: int|
        0 <= v < n && #[trigger] m[v] && !m0[v] && v != root ==> 0 <= pred[v] < n && m[pred[v]]
            && !m0[pred[v]] && g.has_edge(v, pred[v]) && depth[v] == depth[pred[v]] + 1
}

/// The path recorded in a predecessor tree, leaf first, `root` last, with
/// depths counting down to zero.
pub open spec fn chain_path(
    g: RoomGraph,
    m0: Seq<bool>,
    m: Seq<bool>,
    depth: Seq<int>,
    p: Seq<usize>,
    v: int,
    root: usize,
) -> bool {
    &&& is_simple_path(g, p)
    &&& p.len() >= 1
    &&& p[0] as int == v
    &&& p[p.len() - 1] == root
    &&& forall|i: int|
        0 <= i < p.len() ==> m[(#[trigger] p[i]) as int] && !m0[p[i] as int] && depth[p[i] as int]
            == p.len() - 1 - i
}

/// Every node marked beyond `m0` reaches `root` along its predecessor chain.
proof fn lemma_bfs_chain(
    g: RoomGraph,
    root: usize,
    m0: Seq<bool>,
    m: Seq<bool>,
    pred: Seq<int>,
    depth: Seq<int>,
    v: int,
)
    requires
        g.wf(),
        bfs_cert(g, root, m0, m, pred, depth),
        0 <= v < m.len(),
        m[v],
        !m0[v],
    ensures
        exists|p: Seq<usize>| #[trigger] chain_path(g, m0, m, depth, p, v, root),
    decreases depth[v],
{
    if v == root as int {
        let p = seq![root];
        assert(g.is_node(root as int));
        assert(p[0] == root);
        assert(chain_path(g, m0, m, depth, p, v, root));
    } else {
        let u = pred[v];
        lemma_bfs_chain(g, root, m0, m, pred, depth, u);
        let q = choose|q: Seq<usize>| #[trigger] chain_path(g, m0, m, depth, q, u, root);
        let p = seq![v as usize] + q;
        assert forall|i: int| 0 <= i < p.len() implies m[(#[trigger] p[i]) as int] && !m0[p[i]
            as int] && depth[p[i] as int] == p.len() - 1 - i by {
            if i > 0 {
                assert(p[i] == q[i - 1]);
            }
        }
        assert forall|i: int, j: int| 0 <= i < j < p.len() implies p[i] != p[j] by {
            assert(depth[p[i] as int] != depth[p[j] as int]);
        }
        assert forall|i: int| 0 <= i < p.len() implies g.is_node((#[trigger] p[i]) as int) by {}
        assert forall|i: int|
            0 <= i < p.len() - 1 implies g.has_edge(
            (#[trigger] p[i]) as int,
            p[i + 1] as int,
        ) by {
            if i == 0 {
                assert(p[1] == q[0]);
                assert(q[0] as int == u);
                assert(g.has_edge(v, u));
            } else {
                assert(p[i] == q[i - 1] && p[i + 1] == q[i]);
                assert(g.has_edge(q[i - 1] as int, q[i] as int));
            }
        }
        assert(is_simple_path(g, p));
        assert(p[p.len() - 1] == q[q.len() - 1]);
        assert(chain_path(g, m0, m, depth, p, v, root));
    }
}

/// Mark every node reachable from `start`, starting from the mask `mask`
/// (which must already be closed off from `start`'s component). On return the
/// newly marked region is edge-closed: no edge leaves it.
fn mark_component(graph: &RoomGraph, start: usize, mask: &mut Vec<bool>, marked: &mut usize)
    requires
        graph.wf(),
        graph.is_node(start as int),
        old(mask)@.len() == graph.nodes@.len(),
        !old(mask)@[start as int],
        *old(marked) as nat == count_true(old(mask)@),
        forall|i: int| 0 <= i < old(mask)@.len() && old(mask)@[i] ==> graph.is_node(i),
        forall|a: int, b: int|
            graph.has_edge(a, b) && 0 <= a < old(mask)@.len() && old(mask)@[a] ==> old(mask)@[b],
    ensures
        final (mask)@.len() == graph.nodes@.len(),
        *final (marked) as nat == count_true(final (mask)@),
        forall|i: int| 0 <= i < final (mask)@.len() && old(mask)@[i] ==> final (mask)@[i],
        final (mask)@[start as int],
        forall|i: int| 0 <= i < final (mask)@.len() && final (mask)@[i] ==> graph.is_node(i),
        forall|a: int, b: int|
            graph.has_edge(a, b) && 0 <= a < final (mask)@.len() && final (mask)@[a] ==> final (
            mask)@[b],
        *final (marked) >= *old(marked) + 1,
        component_linked(*graph, start, old(mask)@, final (mask)@),
{
    let n = mask.len();
    proof {
        lemma_count_true_update(mask@, start as int, true);
        lemma_count_true_le_len(mask@.update(start as int, true));
    }
    mask.set(start, true);
    *marked = *marked + 1;
    let ghost mut pred: Seq<int> = Seq::new(n as nat, |v: int| 0);
    let ghost mut depth: Seq<int> = Seq::new(n as nat, |v: int| 0);
    let mut queue: Vec<usize> = Vec::new();
    queue.push(start);
    let mut head: usize = 0;
    proof {
        assert(queue@[0] == start);
        assert(bfs_cert(*graph, start, old(mask)@, mask@, pred, depth));
    }
    while head < queue.len()
        invariant
            graph.wf(),
            mask@.len() == n,
            n == graph.nodes@.len(),
            start < n,
            *marked as nat == count_true(mask@),
            *marked <= n,
            *marked >= *old(marked) + 1,
            mask@[start as int],
            head <= queue@.len(),
            forall|i: int| 0 <= i < n && old(mask)@[i] ==> mask@[i],
            forall|i: int| 0 <= i < n && mask@[i] ==> graph.is_node(i),
            forall|k: int| 0 <= k < queue@.len() ==> mask@[(#[trigger] queue@[k]) as int],
            forall|k: int| 0 <= k < queue@.len() ==> !old(mask)@[(#[trigger] queue@[k]) as int],
            forall|k: int| 0 <= k < queue@.len() ==> (#[trigger] queue@[k]) < n,
            forall|k1: int, k2: int|
                0 <= k1 < k2 < queue@.len() ==> queue@[k1] != queue@[k2],
            bfs_cert(*graph, start, old(mask)@, mask@, pred, depth),
            forall|a: int, b: int|
                graph.has_edge(a, b) && 0 <= a < n && mask@[a] && 0 <= b < n && !mask@[b]
                    ==> exists|k: int|
                    head <= k < queue@.len() && (#[trigger] queue@[k]) as int == a,
        decreases n - *marked, queue@.len() - head,
    {
        let a = queue[head];
        let nbrs = graph.neighbors(a);
        let ghost marked_at = *marked;
        let ghost q_at = queue@;
        let mut j: usize = 0;
        while j < nbrs.len()
            invariant
                graph.wf(),
                mask@.len() == n,
                n == graph.nodes@.len(),
                start < n,
                a < n,
                head < queue@.len(),
                queue@[head as int] == a,
                mask@[a as int],
                mask@[start as int],
                *marked as nat == count_true(mask@),
                *marked <= n,
                *marked >= *old(marked) + 1,
                j <= nbrs@.len(),
                marked_at <= *marked,
                *marked == marked_at ==> queue@ == q_at,
                forall|k: int|
                    0 <= k < nbrs@.len() ==> graph.has_edge(a as int, (#[trigger] nbrs@[k]) as int)
                        && graph.is_node(nbrs@[k] as int),
                forall|m: usize| graph.has_edge(a as int, m as int) ==> nbrs@.contains(m),
                forall|i: int| 0 <= i < n && old(mask)@[i] ==> mask@[i],
                forall|i: int| 0 <= i < n && mask@[i] ==> graph.is_node(i),
                forall|k: int| 0 <= k < queue@.len() ==> mask@[(#[trigger] queue@[k]) as int],
                forall|k: int|
                    0 <= k < queue@.len() ==> !old(mask)@[(#[trigger] queue@[k]) as int],
                forall|k: int| 0 <= k < queue@.len() ==> (#[trigger] queue@[k]) < n,
                forall|k1: int, k2: int|
                    0 <= k1 < k2 < queue@.len() ==> queue@[k1] != queue@[k2],
                !old(mask)@[a as int],
                bfs_cert(*graph, start, old(mask)@, mask@, pred, depth),
                forall|k: int| 0 <= k < j ==> mask@[(#[trigger] nbrs@[k]) as int],
                forall|x: int, y: int|
                    graph.has_edge(x, y) && 0 <= x < n && mask@[x] && 0 <= y < n && !mask@[y]
                        ==> exists|k: int|
                        head <= k < queue@.len() && (#[trigger] queue@[k]) as int == x,
            decreases nbrs@.len() - j,
        {
            let m = nbrs[j];
            proof {
                assert(graph.is_node(m as int));
            }
            if !mask[m] {
                let ghost mask0 = mask@;
                let ghost q0 = queue@;
                let ghost pred0 = pred;
                let ghost dep0 = depth;
                proof {
                    lemma_count_true_update(mask@, m as int, true);
                    lemma_count_true_le_len(mask@.update(m as int, true));
                    assert forall|k1: int, k2: int|
                        0 <= k1 < k2 < queue@.push(m).len() implies queue@.push(m)[k1]
                        != queue@.push(m)[k2] by {
                        if k2 == queue@.len() {
                            assert(mask@[(queue@[k1]) as int]);
                        }
                    }
                }
                mask.set(m, true);
                *marked = *marked + 1;
                proof {
                    pred = pred.update(m as int, a as int);
                    depth = depth.update(m as int, dep0[a as int] + 1);
                    assert(m as int != start as int);
                    assert forall|v: int|
                        0 <= v < n && #[trigger] mask@[v] && !old(mask)@[v] && v
                            != start implies 0 <= pred[v] < n && mask@[pred[v]] && !old(
                        mask,
                    )@[pred[v]] && graph.has_edge(v, pred[v]) && depth[v] == depth[pred[v]]
                        + 1 by {
                        if v == m as int {
                            assert(pred[v] == a as int);
                            assert(graph.has_edge(a as int, m as int));
                            assert(graph.has_edge(m as int, a as int));
                            assert(!mask0[m as int]);
                        } else {
                            assert(mask0[v]);
                            assert(pred[v] == pred0[v]);
                            assert(pred0[v] != m as int);
                            assert(depth[v] == dep0[v]);
                        }
                    }
                    assert forall|v: int|
                        0 <= v < n && #[trigger] mask@[v] && !old(mask)@[v] implies graph.is_node(
                        v,
                    ) && 0 <= depth[v] by {
                        if v == m as int {
                        } else {
                            assert(mask0[v]);
                            assert(depth[v] == dep0[v]);
                        }
                    }
                }
                queue.push(m);
                proof {
                    assert forall|x: int, y: int|
                        graph.has_edge(x, y) && 0 <= x < n && mask@[x] && 0 <= y < n
                            && !mask@[y] implies exists|k: int|
                        head <= k < queue@.len() && (#[trigger] queue@[k]) as int == x by {
                        if x == m as int {
                            assert(queue@[queue@.len() - 1] as int == x);
                        } else {
                            assert(mask0[x] && !mask0[y]);
                            let k = choose|k: int|
                                head <= k < q0.len() && (#[trigger] q0[k]) as int == x;
                            assert(queue@[k] as int == x);
                        }
                    }
                }
            }
            j = j + 1;
        }
        head = head + 1;
        proof {
            assert forall|x: int, y: int|
                graph.has_edge(x, y) && 0 <= x < n && mask@[x] && 0 <= y < n
                    && !mask@[y] implies exists|k: int|
                head <= k < queue@.len() && (#[trigger] queue@[k]) as int == x by {
                let k = choose|k: int|
                    head - 1 <= k < queue@.len() && (#[trigger] queue@[k]) as int == x;
                if k == head - 1 {
                    assert(x == a as int);
                    assert(graph.has_edge(a as int, y));
                    assert(nbrs@.contains(y as usize));
                    let j2 = choose|j2: int| 0 <= j2 < nbrs@.len() && nbrs@[j2] == y as usize;
                    assert(mask@[nbrs@[j2] as int]);
                } else {
                    assert(queue@[k] as int == x);
                }
            }
        }
    }
    proof {
        assert forall|v: int|
            0 <= v < mask@.len() && mask@[v] && !old(mask)@[v] implies #[trigger] region_linked(
            *graph,
            v,
            start,
            mask@,
            old(mask)@,
        ) by {
            lemma_bfs_chain(*graph, start, old(mask)@, mask@, pred, depth, v);
            let p = choose|p: Seq<usize>| #[trigger] chain_path(
                *graph,
                old(mask)@,
                mask@,
                depth,
                p,
                v,
                start,
            );
            assert(is_simple_path(*graph, p) && p.len() >= 1 && p[0] as int == v && p[p.len() - 1]
                == start && (forall|i: int|
                0 <= i < p.len() ==> mask@[(#[trigger] p[i]) as int] && !old(mask)@[p[i] as int]));
        }
        assert(component_linked(*graph, start, old(mask)@, mask@));
    }
}

/// If the graph splits into more than one connected component, the subgraph
/// induced by a largest component; `None` when it is already connected (or
/// empty). A returned subgraph keeps slot numbering and weights, holds at
/// least one node, and no edge of the graph leaves its node set.
pub fn largest_connected_subgraph(graph: &RoomGraph) -> (r: Option<RoomGraph>)
    requires
        graph.wf(),
    ensures
        match r {
            Some(g) => {
                &&& g.wf()
                &&& g.nodes@.len() == graph.nodes@.len()
                &&& g.nodes_subset_of(*graph)
                &&& g.edges_subset_of(*graph)
                &&& g.spec_node_count() >= 1
                &&& g.spec_node_count() < graph.spec_node_count()
                &&& forall|i: int| g.is_node(i) ==> #[trigger] graph.is_node(i)
                &&& forall|a: int, b: int|
                    #[trigger] graph.has_edge(a, b) && g.is_node(a) ==> g.is_node(b)
                &&& forall|a: int, b: int| #[trigger]
                    g.has_edge(a, b) <==> graph.has_edge(a, b) && g.is_node(a) && g.is_node(b)
                &&& exists|h: usize| #[trigger] hub_linked(g, h)
                &&& forall|s: Seq<bool>|
                    #[trigger] closed_mask(*graph, s) && connected_mask(*graph, s) ==> count_true(
                        s,
                    ) <= g.spec_node_count()
            },
            None => graph.spec_node_count() == 0 || exists|h: usize| #[trigger] hub_linked(
                *graph,
                h,
            ),
        },
{
    let n = graph.nodes.len();
    let mut visited: Vec<bool> = Vec::new();
    let mut i: usize = 0;
    while i < n
        invariant
            i <= n,
            visited@.len() == i,
            forall|j: int| 0 <= j < i ==> !(#[trigger] visited@[j]),
        decreases n - i,
    {
        visited.push(false);
        i = i + 1;
    }
    let mut visited_count: usize = 0;
    proof {
        lemma_count_true_zero(visited@);
    }
    let mut components: usize = 0;
    let mut best_mask: Vec<bool> = Vec::new();
    let mut best_count: usize = 0;
    let ghost mut best_root: usize = 0;
    let ghost mut sole_root: usize = 0;
    let ghost mut outside_node: usize = 0;
    let mut i: usize = 0;
    while i < n
        invariant
            graph.wf(),
            i <= n,
            n == graph.nodes@.len(),
            visited@.len() == n,
            visited_count as nat == count_true(visited@),
            forall|j: int| 0 <= j < n && visited@[j] ==> graph.is_node(j),
            forall|j: int| 0 <= j < i && graph.is_node(j) ==> visited@[j],
            forall|a: int, b: int|
                graph.has_edge(a, b) && 0 <= a < n && visited@[a] ==> visited@[b],
            components <= i,
            components > 0 ==> best_count > 0,
            components == 0 ==> visited_count == 0 && (forall|j: int|
                0 <= j < n ==> !(#[trigger] visited@[j])),
            components >= 1 ==> (sole_root as int) < n && graph.is_node(sole_root as int)
                && visited@[sole_root as int],
            components == 1 ==> (forall|v: int|
                0 <= v < n && #[trigger] visited@[v] ==> linked(*graph, v as usize, sole_root)),
            components >= 2 ==> (outside_node as int) < n && graph.is_node(outside_node as int)
                && !best_mask@[outside_node as int],
            best_count > 0 ==> graph.is_node(best_root as int) && best_mask@[best_root as int] && (
            forall|v: int|
                0 <= v < n && #[trigger] best_mask@[v] ==> mask_linked(
                    *graph,
                    v as usize,
                    best_root,
                    best_mask@,
                )),
            best_count > 0 ==> {
                &&& best_mask@.len() == n
                &&& best_count as nat == count_true(best_mask@)
                &&& best_count >= 1
                &&& forall|j: int| 0 <= j < n && best_mask@[j] ==> graph.is_node(j)
                &&& forall|j: int| 0 <= j < n && best_mask@[j] ==> visited@[j]
                &&& forall|a: int, b: int|
                    graph.has_edge(a, b) && 0 <= a < n && best_mask@[a] ==> best_mask@[b]
                &&& exists|j: int| 0 <= j < n && best_mask@[j]
            },
            forall|s: Seq<bool>|
                #[trigger] closed_mask(*graph, s) && connected_mask(*graph, s) && (forall|j: int|
                    0 <= j < n && s[j] ==> visited@[j]) ==> count_true(s) <= best_count,
        decreases n - i,
    {
        if graph.contains_node(i) && !visited[i] {
            let pre_vec = clone_bools(&visited);
            let ghost pre = visited@;
            let ghost old_best_count = best_count as int;
            let before_count = visited_count;
            mark_component(graph, i, &mut visited, &mut visited_count);
            components = components + 1;
            let count = visited_count - before_count;
            // The fresh component is what this marking added beyond `pre`.
            let mut comp_mask: Vec<bool> = Vec::new();
            let mut z: usize = 0;
            while z < n
                invariant
                    z <= n,
                    n == pre.len(),
                    pre_vec@ == pre,
                    n == visited@.len(),
                    comp_mask@.len() == z,
                    forall|j: int|
                        0 <= j < z ==> (#[trigger] comp_mask@[j]) == (visited@[j] && !pre[j]),
                decreases n - z,
            {
                let keep = visited[z] && !pre_vec[z];
                comp_mask.push(keep);
                z = z + 1;
            }
            proof {
                lemma_count_true_diff(pre, visited@, comp_mask@);
                assert(count as nat == count_true(comp_mask@));
                assert(comp_mask@[i as int]);
                assert(count >= 1);
                // The fresh region is edge-closed on both sides.
                assert forall|a: int, b: int|
                    graph.has_edge(a, b) && 0 <= a < n && comp_mask@[a] && 0 <= b
                        < n implies comp_mask@[b] by {
                    assert(visited@[a]);
                    assert(visited@[b]);
                    if pre[b] {
                        assert(graph.has_edge(b, a));
                        assert(pre[a]);
                        assert(false);
                    }
                }
                // Every fresh node walks to this component's root inside it.
                assert forall|v: int|
                    0 <= v < n && #[trigger] comp_mask@[v] implies mask_linked(
                    *graph,
                    v as usize,
                    i,
                    comp_mask@,
                ) by {
                    assert(region_linked(*graph, v, i, visited@, pre));
                    let p = choose|p: Seq<usize>|
                        #[trigger] is_simple_path(*graph, p) && p.len() >= 1 && p[0] as int == v
                            && p[p.len() - 1] == i && (forall|k: int|
                            0 <= k < p.len() ==> visited@[(#[trigger] p[k]) as int] && !pre[p[k]
                                as int]);
                    assert forall|k: int|
                        0 <= k < p.len() implies comp_mask@[(#[trigger] p[k]) as int] by {}
                    assert(mask_linked(*graph, v as usize, i, comp_mask@));
                }
                if components == 1 {
                    sole_root = i;
                    assert forall|v: int|
                        0 <= v < n && #[trigger] visited@[v] implies linked(
                        *graph,
                        v as usize,
                        sole_root,
                    ) by {
                        assert(!pre[v]);
                        assert(region_linked(*graph, v, i, visited@, pre));
                        let p = choose|p: Seq<usize>|
                            #[trigger] is_simple_path(*graph, p) && p.len() >= 1 && p[0] as int
                                == v && p[p.len() - 1] == i && (forall|k: int|
                                0 <= k < p.len() ==> visited@[(#[trigger] p[k]) as int] && !pre[
                                    p[k] as int
                                ]);
                        assert(linked(*graph, v as usize, sole_root));
                    }
                }
            }
            let ghost comp = comp_mask@;
            if count > best_count {
                proof {
                    if components >= 2 {
                        outside_node = sole_root;
                        assert(pre[sole_root as int]);
                        assert(!comp[sole_root as int]);
                    }
                }
                best_mask = comp_mask;
                best_count = count;
                proof {
                    best_root = i;
                }
            } else {
                proof {
                    if components >= 2 {
                        outside_node = i;
                        assert(!pre[i as int]);
                        assert(!best_mask@[i as int]);
                    }
                }
            }
            proof {
                // Any connected, edge-closed mask inside the visited region
                // lies whole in one component, so the running maximum covers
                // it.
                assert forall|s: Seq<bool>|
                    #[trigger] closed_mask(*graph, s) && connected_mask(*graph, s) && (forall|
                        j: int,
                    |
                        0 <= j < n && s[j] ==> visited@[j]) implies count_true(s)
                    <= best_count by {
                    let h = choose|h: usize|
                        (h as int) < s.len() && s[h as int] && (forall|v: int|
                            0 <= v < s.len() && #[trigger] s[v] ==> mask_linked(
                                *graph,
                                v as usize,
                                h,
                                s,
                            ));
                    if comp[h as int] {
                        assert forall|v: int| 0 <= v < n && s[v] implies comp[v] by {
                            assert(mask_linked(*graph, v as usize, h, s));
                            let p = choose|p: Seq<usize>|
                                #[trigger] is_simple_path(*graph, p) && p.len() >= 1 && p[0]
                                    == v as usize && p[p.len() - 1] == h && (forall|k: int|
                                    0 <= k < p.len() ==> s[(#[trigger] p[k]) as int]);
                            lemma_closed_path(*graph, comp, p, 0);
                        }
                        lemma_count_true_pointwise_mono(s, comp);
                    } else {
                        assert(pre[h as int]);
                        assert forall|v: int| 0 <= v < n && s[v] implies pre[v] by {
                            assert(mask_linked(*graph, v as usize, h, s));
                            let p = choose|p: Seq<usize>|
                                #[trigger] is_simple_path(*graph, p) && p.len() >= 1 && p[0]
                                    == v as usize && p[p.len() - 1] == h && (forall|k: int|
                                    0 <= k < p.len() ==> s[(#[trigger] p[k]) as int]);
                            lemma_closed_path(*graph, pre, p, 0);
                        }
                        assert(count_true(s) <= old_best_count);
                    }
                }
            }
        }
        i = i + 1;
    }
    if components > 1 {
        let g = induced_subgraph(graph, &best_mask);
        proof {
            let j = choose|j: int| 0 <= j < n && best_mask@[j];
            assert(graph.is_node(j));
            assert(g.is_node(j));
            lemma_live_count_pos_of_node(g.nodes@, j);
            // One node of another component witnesses a strictly smaller
            // subgraph.
            assert(!g.is_node(outside_node as int));
            let ghost pruned = graph.nodes@.update(outside_node as int, None);
            lemma_live_count_update(graph.nodes@, outside_node as int, None);
            assert forall|j2: int|
                0 <= j2 < g.nodes@.len() && (#[trigger] g.nodes@[j2]) is Some implies pruned[j2] is Some by {
                assert(g.is_node(j2));
                assert(graph.is_node(j2));
                assert(j2 != outside_node as int);
            }
            lemma_live_count_mono(pruned, g.nodes@);
            // The chosen component's internal paths survive induction into
            // the subgraph, so its root serves as a hub.
            assert(g.is_node(best_root as int));
            assert forall|v: usize| g.is_node(v as int) implies #[trigger] linked(
                g,
                v,
                best_root,
            ) by {
                assert(best_mask@[v as int]);
                assert(mask_linked(*graph, v, best_root, best_mask@));
                let p = choose|p: Seq<usize>|
                    #[trigger] is_simple_path(*graph, p) && p.len() >= 1 && p[0] == v && p[p.len()
                        - 1] == best_root && (forall|k: int|
                        0 <= k < p.len() ==> best_mask@[(#[trigger] p[k]) as int]);
                assert forall|k: int| 0 <= k < p.len() implies g.is_node(
                    (#[trigger] p[k]) as int,
                ) by {
                    assert(graph.is_node(p[k] as int) && best_mask@[p[k] as int]);
                }
                assert forall|k: int| 0 <= k < p.len() - 1 implies g.has_edge(
                    (#[trigger] p[k]) as int,
                    p[k + 1] as int,
                ) by {
                    assert(graph.has_edge(p[k] as int, p[k + 1] as int));
                    assert(g.is_node(p[k] as int) && g.is_node(p[k + 1] as int));
                }
                assert(is_simple_path(g, p));
            }
            assert(hub_linked(g, best_root));
            // Every connected, edge-closed mask sits inside the visited set,
            // so the kept component is as large as any of them.
            assert forall|j2: int| 0 <= j2 < n implies ((#[trigger] best_mask@[j2])
                <==> g.nodes@[j2] is Some) by {
                if best_mask@[j2] {
                    assert(g.is_node(j2));
                } else {
                    assert(!g.is_node(j2));
                }
            }
            lemma_count_eq_live(best_mask@, g.nodes@);
            assert forall|s: Seq<bool>|
                #[trigger] closed_mask(*graph, s) && connected_mask(*graph, s) implies count_true(
                s,
            ) <= g.spec_node_count() by {
                assert forall|j2: int| 0 <= j2 < n && s[j2] implies visited@[j2] by {
                    assert(graph.is_node(j2));
                }
            }
        }
        Some(g)
    } else {
        proof {
            if components == 0 {
                if graph.spec_node_count() > 0 {
                    lemma_live_count_pos(graph.nodes@);
                    let j = choose|j: int| 0 <= j < graph.nodes@.len() && graph.nodes@[j] is Some;
                    assert(graph.is_node(j));
                    assert(visited@[j]);
                    assert(false);
                }
            } else {
                assert(components == 1);
                assert forall|v: usize| graph.is_node(v as int) implies #[trigger] linked(
                    *graph,
                    v,
                    sole_root,
                ) by {
                    assert(visited@[v as int]);
                }
                assert(hub_linked(*graph, sole_root));
            }
        }
        None
    }
}

proof fn lemma_count_true_zero(s: Seq<bool>)
    requires
        forall|j: int| 0 <= j < s.len() ==> !(#[trigger] s[j]),
    ensures
        count_true(s) == 0,
    decreases s.len(),
{
    if s.len() > 0 {
        assert(!s[s.len() - 1]);
        assert forall|j: int| 0 <= j < s.drop_last().len() implies !(
        #[trigger] s.drop_last()[j]) by {
            assert(!s[j]);
        }
        lemma_count_true_zero(s.drop_last());
    }
}

/// A mask marking only occupied slots marks no more than there are nodes.
proof fn lemma_count_true_le_live(m: Seq<bool>, s: Seq<Option<usize>>)
    requires
        m.len() == s.len(),
        forall|j: int| 0 <= j < m.len() && (#[trigger] m[j]) ==> s[j] is Some,
    ensures
        count_true(m) <= live_count(s),
    decreases m.len(),
{
    if m.len() > 0 {
        assert forall|j: int|
            0 <= j < m.drop_last().len() && (#[trigger] m.drop_last()[j]) implies s.drop_last()[j] is Some by {
            assert(m[j]);
        }
        lemma_count_true_le_live(m.drop_last(), s.drop_last());
        assert(m[m.len() - 1] == m.last() && s[s.len() - 1] == s.last());
    }
}

/// A pointwise-smaller node table holds no more nodes.
proof fn lemma_live_count_mono(s: Seq<Option<usize>>, t: Seq<Option<usize>>)
    requires
        s.len() == t.len(),
        forall|j: int| 0 <= j < t.len() && (#[trigger] t[j]) is Some ==> s[j] is Some,
    ensures
        live_count(t) <= live_count(s),
    decreases s.len(),
{
    if s.len() > 0 {
        assert forall|j: int|
            0 <= j < t.drop_last().len() && (#[trigger] t.drop_last()[j]) is Some implies s.drop_last()[j] is Some by {
            assert(t[j] is Some);
        }
        lemma_live_count_mono(s.drop_last(), t.drop_last());
        assert(t[s.len() - 1] == t.last() && s[s.len() - 1] == s.last());
    }
}

/// Distinct node slots cannot outnumber the nodes.
pub proof fn lemma_distinct_live_le_count(nodes: Seq<Option<usize>>, p: Seq<usize>)
    requires
        forall|k: int|
            0 <= k < p.len() ==> ((#[trigger] p[k]) as int) < nodes.len() && nodes[p[k] as int] is Some,
        forall|k1: int, k2: int| 0 <= k1 < k2 < p.len() ==> p[k1] != p[k2],
    ensures
        p.len() <= live_count(nodes),
    decreases p.len(),
{
    if p.len() > 0 {
        let last = p.last();
        assert(p[p.len() - 1] == last);
        let nodes2 = nodes.update(last as int, None);
        lemma_live_count_update(nodes, last as int, None);
        let q = p.drop_last();
        assert forall|k: int|
            0 <= k < q.len() implies ((#[trigger] q[k]) as int) < nodes2.len() && nodes2[q[k] as int] is Some by {
            assert(p[k] == q[k]);
            assert(p[k] != last);
        }
        assert forall|k1: int, k2: int| 0 <= k1 < k2 < q.len() implies q[k1] != q[k2] by {
            assert(p[k1] != p[k2]);
        }
        lemma_distinct_live_le_count(nodes2, q);
    }
}

/// A sequence of distinct, pairwise-adjacent nodes of `g`.
pub open spec fn is_simple_path(g: RoomGraph, p: Seq<usize>) -> bool {
    &&& forall|i: int| 0 <= i < p.len() ==> g.is_node((#[trigger] p[i]) as int)
    &&& forall|i: int| 0 <= i < p.len() - 1 ==> g.has_edge((#[trigger] p[i]) as int, p[i + 1] as int)
    &&& forall|i: int, j: int| 0 <= i < j < p.len() ==> p[i] != p[j]
}

/// Predecessor-forest state left by spanning traversals: every marked node
/// either is the root of its component (depth zero) or steps along a tree
/// edge to a marked predecessor one level down in the same component.
pub open spec fn forest_cert(
    g: RoomGraph,
    te: Seq<(usize, usize)>,
    m: Seq<bool>,
    pred: Seq<int>,
    depth: Seq<int>,
    root_of: Seq<int>,
) -> bool {
    let n = g.nodes@.len() as int;
    &&& m.len() == n
    &&& pred.len() == n
    &&& depth.len() == n
    &&& root_of.len() == n
    &&& forall|v: int|
        0 <= v < n && #[trigger] m[v] ==> g.is_node(v) && 0 <= depth[v] && 0 <= root_of[v] < n
            && m[root_of[v]] && (depth[v] == 0 ==> root_of[v] == v)
    &&& forall|v: int|
        0 <= v < n && #[trigger] m[v] && depth[v] > 0 ==> 0 <= pred[v] < n && m[pred[v]]
            && seq_has_edge(te, v, pred[v]) && depth[v] == depth[pred[v]] + 1 && root_of[v]
            == root_of[pred[v]]
}

/// Every marked node reaches its component root along the recorded forest.
proof fn lemma_forest_chain(
    r: RoomGraph,
    m: Seq<bool>,
    pred: Seq<int>,
    depth: Seq<int>,
    root_of: Seq<int>,
    v: int,
)
    requires
        r.wf(),
        m.len() <= usize::MAX,
        forest_cert(r, r.edges@, m, pred, depth, root_of),
        0 <= v < m.len(),
        m[v],
    ensures
        exists|p: Seq<usize>|
            #[trigger] is_simple_path(r, p) && p.len() >= 1 && p[0] as int == v && p[p.len() - 1]
                as int == root_of[v] && (forall|i: int|
                0 <= i < p.len() ==> depth[(#[trigger] p[i]) as int] == p.len() - 1 - i),
    decreases depth[v],
{
    if depth[v] == 0 {
        let p = seq![v as usize];
        assert(r.is_node(v));
        assert(p[0] as int == v);
        assert(is_simple_path(r, p));
    } else {
        let u = pred[v];
        lemma_forest_chain(r, m, pred, depth, root_of, u);
        let q = choose|q: Seq<usize>|
            #[trigger] is_simple_path(r, q) && q.len() >= 1 && q[0] as int == u && q[q.len() - 1]
                as int == root_of[u] && (forall|i: int|
                0 <= i < q.len() ==> depth[(#[trigger] q[i]) as int] == q.len() - 1 - i);
        let p = seq![v as usize] + q;
        assert forall|i: int|
            0 <= i < p.len() implies depth[(#[trigger] p[i]) as int] == p.len() - 1 - i by {
            if i > 0 {
                assert(p[i] == q[i - 1]);
            }
        }
        assert forall|i: int, j: int| 0 <= i < j < p.len() implies p[i] != p[j] by {
            assert(depth[p[i] as int] != depth[p[j] as int]);
        }
        assert forall|i: int| 0 <= i < p.len() implies r.is_node((#[trigger] p[i]) as int) by {
            if i > 0 {
                assert(r.is_node(q[i - 1] as int));
            }
        }
        assert forall|i: int|
            0 <= i < p.len() - 1 implies r.has_edge((#[trigger] p[i]) as int, p[i + 1] as int) by {
            if i == 0 {
                assert(p[1] == q[0]);
                assert(seq_has_edge(r.edges@, v, u));
                assert(r.has_edge(v, u));
            } else {
                assert(p[i] == q[i - 1] && p[i + 1] == q[i]);
                assert(r.has_edge(q[i - 1] as int, q[i] as int));
            }
        }
        assert(is_simple_path(r, p));
        assert(p[p.len() - 1] == q[q.len() - 1]);
    }
}

/// A spanning forest of `graph`: the same nodes and weights, a subset of
/// its edges chosen by search-tree traversal of each component, strictly
/// fewer edges than nodes, and the two ends of every edge of `graph` joined
/// through a common root of the forest.
pub fn spanning_tree(graph: &RoomGraph) -> (r: RoomGraph)
    requires
        graph.wf(),
    ensures
        r.wf(),
        r.nodes@ == graph.nodes@,
        r.spec_node_count() == graph.spec_node_count(),
        r.edges_subset_of(*graph),
        r.edges@.len() == 0 || r.edges@.len() + 1 <= r.spec_node_count(),
        forall|a: usize, b: usize|
            #[trigger] graph.has_edge(a as int, b as int) && graph.is_node(a as int)
                && graph.is_node(b as int) ==> exists|h: usize|
                #[trigger] linked(r, a, h) && linked(r, b, h),
    {
    let n = graph.nodes.len();
    let mut nodes: Vec<Option<usize>> = Vec::new();
    let mut i: usize = 0;
    while i < n
        invariant
            i <= n,
            n == graph.nodes@.len(),
            nodes@.len() == i,
            forall|j: int| 0 <= j < i ==> nodes@[j] == graph.nodes@[j],
        decreases n - i,
    {
        nodes.push(graph.nodes[i]);
        i = i + 1;
    }
    proof {
        assert(nodes@ =~= graph.nodes@);
    }
    let mut mask: Vec<bool> = Vec::new();
    let mut z: usize = 0;
    while z < n
        invariant
            z <= n,
            mask@.len() == z,
            forall|j: int| 0 <= j < z ==> !(#[trigger] mask@[j]),
        decreases n - z,
    {
        mask.push(false);
        z = z + 1;
    }
    let mut marked: usize = 0;
    proof {
        lemma_count_true_zero(mask@);
    }
    let ghost mut pred: Seq<int> = Seq::new(n as nat, |v: int| 0);
    let ghost mut depth: Seq<int> = Seq::new(n as nat, |v: int| 0);
    let ghost mut root_of: Seq<int> = Seq::new(n as nat, |v: int| 0);
    let mut edges: Vec<(usize, usize)> = Vec::new();
    let mut roots: usize = 0;
    let mut root: usize = 0;
    while root < n
        invariant
            graph.wf(),
            n == graph.nodes@.len(),
            root <= n,
            mask@.len() == n,
            marked as nat == count_true(mask@),
            marked <= n,
            edges@.len() + roots == marked,
            roots == 0 ==> marked == 0,
            forall|j: int| 0 <= j < n && mask@[j] ==> graph.is_node(j),
            forall|j: int| 0 <= j < root && graph.is_node(j) ==> mask@[j],
            forall|a: int, b: int|
                graph.has_edge(a, b) && 0 <= a < n && mask@[a] ==> mask@[b],
            forall|k: int|
                0 <= k < edges@.len() ==> (#[trigger] edges@[k]).0 < edges@[k].1 && graph.is_node(
                    edges@[k].0 as int,
                ) && graph.is_node(edges@[k].1 as int) && graph.has_edge(
                    edges@[k].0 as int,
                    edges@[k].1 as int,
                ) && mask@[edges@[k].0 as int] && mask@[edges@[k].1 as int],
            forall|k1: int, k2: int|
                0 <= k1 < edges@.len() && 0 <= k2 < edges@.len() && k1 != k2 ==> (
                #[trigger] edges@[k1]) != (#[trigger] edges@[k2]),
            forest_cert(*graph, edges@, mask@, pred, depth, root_of),
            forall|a: int, b: int|
                graph.has_edge(a, b) && 0 <= a < n && mask@[a] && 0 <= b < n && mask@[b]
                    ==> root_of[a] == root_of[b],
        decreases n - root,
    {
        if graph.contains_node(root) && !mask[root] {
            let ghost comp_pre = mask@;
            proof {
                lemma_count_true_update(mask@, root as int, true);
                lemma_count_true_le_len(mask@.update(root as int, true));
            }
            mask.set(root, true);
            marked = marked + 1;
            roots = roots + 1;
            proof {
                pred = pred.update(root as int, root as int);
                depth = depth.update(root as int, 0);
                root_of = root_of.update(root as int, root as int);
                assert forall|a: int, b: int|
                    graph.has_edge(a, b) && 0 <= a < n && mask@[a] && 0 <= b < n
                        && mask@[b] implies root_of[a] == root_of[b] by {
                    if a == root as int && b != root as int {
                        assert(comp_pre[b]);
                        assert(graph.has_edge(b, a));
                        assert(comp_pre[a]);
                        assert(false);
                    }
                    if b == root as int && a != root as int {
                        assert(comp_pre[a]);
                        assert(comp_pre[b]);
                        assert(false);
                    }
                }
            }
            let mut queue: Vec<usize> = Vec::new();
            queue.push(root);
            let mut head: usize = 0;
            proof {
                assert(queue@[0] == root);
            }
            while head < queue.len()
                invariant
                    graph.wf(),
                    n == graph.nodes@.len(),
                    mask@.len() == n,
                    comp_pre.len() == n,
                    (root as int) < n,
                    mask@[root as int],
                    !comp_pre[root as int],
                    marked as nat == count_true(mask@),
                    marked <= n,
                    edges@.len() + roots == marked,
                    1 <= roots,
                    head <= queue@.len(),
                    forall|j: int| 0 <= j < n && comp_pre[j] ==> mask@[j],
                    forall|a: int, b: int|
                        graph.has_edge(a, b) && 0 <= a < n && comp_pre[a] ==> comp_pre[b],
                    forall|j: int| 0 <= j < n && mask@[j] ==> graph.is_node(j),
                    forall|k: int| 0 <= k < queue@.len() ==> mask@[(#[trigger] queue@[k]) as int],
                    forall|k: int|
                        0 <= k < queue@.len() ==> !comp_pre[(#[trigger] queue@[k]) as int],
                    forall|k: int| 0 <= k < queue@.len() ==> (#[trigger] queue@[k]) < n,
                    forall|k1: int, k2: int|
                        0 <= k1 < k2 < queue@.len() ==> queue@[k1] != queue@[k2],
                    forall|a: int, b: int|
                        graph.has_edge(a, b) && 0 <= a < n && mask@[a] && 0 <= b < n && !mask@[b]
                            ==> exists|k: int|
                            head <= k < queue@.len() && (#[trigger] queue@[k]) as int == a,
                    forall|k: int|
                        0 <= k < edges@.len() ==> (#[trigger] edges@[k]).0 < edges@[k].1
                            && graph.is_node(edges@[k].0 as int) && graph.is_node(
                            edges@[k].1 as int,
                        ) && graph.has_edge(edges@[k].0 as int, edges@[k].1 as int) && mask@[
                            edges@[k].0 as int
                        ] && mask@[edges@[k].1 as int],
                    forall|k1: int, k2: int|
                        0 <= k1 < edges@.len() && 0 <= k2 < edges@.len() && k1 != k2 ==> (
                        #[trigger] edges@[k1]) != (#[trigger] edges@[k2]),
                    forest_cert(*graph, edges@, mask@, pred, depth, root_of),
                    forall|v: int|
                        0 <= v < n && mask@[v] && !comp_pre[v] ==> root_of[v] == root as int,
                    forall|a: int, b: int|
                        graph.has_edge(a, b) && 0 <= a < n && mask@[a] && 0 <= b < n && mask@[b]
                            ==> root_of[a] == root_of[b],
                decreases n - marked, queue@.len() - head,
            {
                let a = queue[head];
                let nbrs = graph.neighbors(a);
                let ghost marked_at = marked;
                let ghost q_at = queue@;
                let mut j: usize = 0;
                while j < nbrs.len()
                    invariant
                        graph.wf(),
                        n == graph.nodes@.len(),
                        mask@.len() == n,
                        comp_pre.len() == n,
                        (root as int) < n,
                        a < n,
                        mask@[a as int],
                        !comp_pre[a as int],
                        mask@[root as int],
                        !comp_pre[root as int],
                        marked as nat == count_true(mask@),
                        marked <= n,
                        edges@.len() + roots == marked,
                        1 <= roots,
                        marked_at <= marked,
                        marked == marked_at ==> queue@ == q_at,
                        head < queue@.len(),
                        queue@[head as int] == a,
                        j <= nbrs@.len(),
                        forall|k: int|
                            0 <= k < nbrs@.len() ==> graph.has_edge(
                                a as int,
                                (#[trigger] nbrs@[k]) as int,
                            ) && graph.is_node(nbrs@[k] as int),
                        forall|j2: int| 0 <= j2 < n && comp_pre[j2] ==> mask@[j2],
                        forall|a2: int, b2: int|
                            graph.has_edge(a2, b2) && 0 <= a2 < n && comp_pre[a2] ==> comp_pre[b2],
                        forall|j2: int| 0 <= j2 < n && mask@[j2] ==> graph.is_node(j2),
                        forall|k: int|
                            0 <= k < queue@.len() ==> mask@[(#[trigger] queue@[k]) as int],
                        forall|k: int|
                            0 <= k < queue@.len() ==> !comp_pre[(#[trigger] queue@[k]) as int],
                        forall|k: int| 0 <= k < queue@.len() ==> (#[trigger] queue@[k]) < n,
                        forall|k1: int, k2: int|
                            0 <= k1 < k2 < queue@.len() ==> queue@[k1] != queue@[k2],
                        forall|k: int| 0 <= k < j ==> mask@[(#[trigger] nbrs@[k]) as int],
                        forall|x: int, y: int|
                            graph.has_edge(x, y) && 0 <= x < n && mask@[x] && 0 <= y < n
                                && !mask@[y] ==> exists|k: int|
                                head <= k < queue@.len() && (#[trigger] queue@[k]) as int == x,
                        forall|k: int|
                            0 <= k < edges@.len() ==> (#[trigger] edges@[k]).0 < edges@[k].1
                                && graph.is_node(edges@[k].0 as int) && graph.is_node(
                                edges@[k].1 as int,
                            ) && graph.has_edge(edges@[k].0 as int, edges@[k].1 as int) && mask@[
                                edges@[k].0 as int
                            ] && mask@[edges@[k].1 as int],
                        forall|k1: int, k2: int|
                            0 <= k1 < edges@.len() && 0 <= k2 < edges@.len() && k1 != k2 ==> (
                            #[trigger] edges@[k1]) != (#[trigger] edges@[k2]),
                        forest_cert(*graph, edges@, mask@, pred, depth, root_of),
                        forall|v: int|
                            0 <= v < n && mask@[v] && !comp_pre[v] ==> root_of[v] == root as int,
                        forall|a2: int, b2: int|
                            graph.has_edge(a2, b2) && 0 <= a2 < n && mask@[a2] && 0 <= b2 < n
                                && mask@[b2] ==> root_of[a2] == root_of[b2],
                    decreases nbrs@.len() - j,
                {
                    let m = nbrs[j];
                    proof {
                        assert(graph.is_node(m as int));
                    }
                    if !mask[m] {
                        let ghost mask0 = mask@;
                        let ghost q0 = queue@;
                        let ghost e0 = edges@;
                        let ghost dep0 = depth;
                        proof {
                            lemma_count_true_update(mask@, m as int, true);
                            lemma_count_true_le_len(mask@.update(m as int, true));
                            assert(m as int != a as int);
                            assert(!comp_pre[m as int]);
                            assert forall|k1: int, k2: int|
                                0 <= k1 < k2 < queue@.push(m).len() implies queue@.push(m)[k1]
                                != queue@.push(m)[k2] by {
                                if k2 == queue@.len() {
                                    assert(mask@[(queue@[k1]) as int]);
                                }
                            }
                        }
                        let e = if a < m {
                            (a, m)
                        } else {
                            (m, a)
                        };
                        proof {
                            assert forall|k: int|
                                0 <= k < edges@.len() implies (#[trigger] edges@[k]) != e by {
                                assert(mask@[edges@[k].0 as int] && mask@[edges@[k].1 as int]);
                            }
                        }
                        edges.push(e);
                        mask.set(m, true);
                        marked = marked + 1;
                        proof {
                            pred = pred.update(m as int, a as int);
                            depth = depth.update(m as int, dep0[a as int] + 1);
                            root_of = root_of.update(m as int, root as int);
                            assert(edges@[edges@.len() - 1] == e);
                            assert(seq_has_edge(edges@, m as int, a as int));
                            assert forall|v: int|
                                0 <= v < n && #[trigger] mask@[v] implies graph.is_node(v) && 0
                                <= depth[v] && 0 <= root_of[v] < n && mask@[root_of[v]] && (
                            depth[v] == 0 ==> root_of[v] == v) by {
                                if v != m as int {
                                    assert(mask0[v]);
                                    assert(depth[v] == dep0[v]);
                                }
                            }
                            assert forall|v: int|
                                0 <= v < n && #[trigger] mask@[v] && depth[v] > 0 implies 0 <= pred[
                                v
                            ] < n && mask@[pred[v]] && seq_has_edge(edges@, v, pred[v]) && depth[v]
                                == depth[pred[v]] + 1 && root_of[v] == root_of[pred[v]] by {
                                if v == m as int {
                                    assert(root_of[a as int] == root as int);
                                } else {
                                    assert(mask0[v]);
                                    assert(depth[v] == dep0[v]);
                                    assert(seq_has_edge(e0, v, pred[v]));
                                    let k = choose|k: int|
                                        0 <= k < e0.len() && (((#[trigger] e0[k]).0 == v && e0[k].1
                                            == pred[v]) || (e0[k].0 == pred[v] && e0[k].1 == v));
                                    assert(edges@[k] == e0[k]);
                                    assert(seq_has_edge(edges@, v, pred[v]));
                                    assert(pred[v] != m as int);
                                }
                            }
                            assert forall|a2: int, b2: int|
                                graph.has_edge(a2, b2) && 0 <= a2 < n && mask@[a2] && 0 <= b2 < n
                                    && mask@[b2] implies root_of[a2] == root_of[b2] by {
                                if a2 == m as int && b2 != m as int {
                                    assert(mask0[b2]);
                                    if comp_pre[b2] {
                                        assert(graph.has_edge(b2, a2));
                                        assert(comp_pre[a2]);
                                        assert(false);
                                    }
                                    assert(root_of[b2] == root as int);
                                }
                                if b2 == m as int && a2 != m as int {
                                    assert(mask0[a2]);
                                    if comp_pre[a2] {
                                        assert(comp_pre[b2]);
                                        assert(false);
                                    }
                                    assert(root_of[a2] == root as int);
                                }
                            }
                        }
                        queue.push(m);
                        proof {
                            assert forall|x: int, y: int|
                                graph.has_edge(x, y) && 0 <= x < n && mask@[x] && 0 <= y < n
                                    && !mask@[y] implies exists|k: int|
                                head <= k < queue@.len() && (#[trigger] queue@[k]) as int == x by {
                                if x == m as int {
                                    assert(queue@[queue@.len() - 1] as int == x);
                                } else {
                                    assert(mask0[x] && !mask0[y]);
                                    let k = choose|k: int|
                                        head <= k < q0.len() && (#[trigger] q0[k]) as int == x;
                                    assert(queue@[k] as int == x);
                                }
                            }
                        }
                    }
                    j = j + 1;
                }
                head = head + 1;
                proof {
                    assert forall|x: int, y: int|
                        graph.has_edge(x, y) && 0 <= x < n && mask@[x] && 0 <= y < n
                            && !mask@[y] implies exists|k: int|
                        head <= k < queue@.len() && (#[trigger] queue@[k]) as int == x by {
                        let k = choose|k: int|
                            head - 1 <= k < queue@.len() && (#[trigger] queue@[k]) as int == x;
                        if k == head - 1 {
                            assert(x == a as int);
                            assert(graph.has_edge(a as int, y));
                            assert(nbrs@.contains(y as usize));
                            let j2 = choose|j2: int|
                                0 <= j2 < nbrs@.len() && nbrs@[j2] == y as usize;
                            assert(mask@[nbrs@[j2] as int]);
                        } else {
                            assert(queue@[k] as int == x);
                        }
                    }
                }
            }
        }
        root = root + 1;
    }
    proof {
        assert forall|j: int|
            0 <= j < mask@.len() && (#[trigger] mask@[j]) implies graph.nodes@[j] is Some by {
            assert(graph.is_node(j));
        }
        lemma_count_true_le_live(mask@, graph.nodes@);
    }
    let r = RoomGraph { nodes, edges, live: graph.live };
    proof {
        assert forall|x: int, y: int| #[trigger] r.has_edge(x, y) implies graph.has_edge(x, y) by {
            let k = choose|k: int|
                0 <= k < r.edges@.len() && (((#[trigger] r.edges@[k]).0 == x && r.edges@[k].1 == y)
                    || (r.edges@[k].0 == y && r.edges@[k].1 == x));
            assert(graph.has_edge(r.edges@[k].0 as int, r.edges@[k].1 as int));
            let k2 = choose|k2: int|
                0 <= k2 < graph.edges@.len() && (((#[trigger] graph.edges@[k2]).0
                    == r.edges@[k].0 as int && graph.edges@[k2].1 == r.edges@[k].1 as int) || (
                graph.edges@[k2].0 == r.edges@[k].1 as int && graph.edges@[k2].1
                    == r.edges@[k].0 as int));
            assert(graph.has_edge(x, y));
        }
        assert forall|k: int| 0 <= k < r.edges@.len() implies r.is_node(
            (#[trigger] r.edges@[k]).0 as int,
        ) && r.is_node(r.edges@[k].1 as int) by {
            assert(graph.is_node(r.edges@[k].0 as int));
            assert(graph.is_node(r.edges@[k].1 as int));
        }
        // The certificate carries over to the finished forest, whose node
        // table matches the graph's.
        assert forall|v2: int|
            0 <= v2 < n && #[trigger] mask@[v2] implies r.is_node(v2) && 0 <= depth[v2] && 0
            <= root_of[v2] < n && mask@[root_of[v2]] && (depth[v2] == 0 ==> root_of[v2] == v2) by {
            assert(graph.is_node(v2));
        }
        assert forall|v2: int|
            0 <= v2 < n && #[trigger] mask@[v2] && depth[v2] > 0 implies 0 <= pred[v2] < n && mask@[
            pred[v2]
        ] && seq_has_edge(r.edges@, v2, pred[v2]) && depth[v2] == depth[pred[v2]] + 1 && root_of[v2]
            == root_of[pred[v2]] by {}
        assert(forest_cert(r, r.edges@, mask@, pred, depth, root_of));
        // Each graph edge joins two nodes of one component; both walk the
        // recorded forest to that component's root.
        assert forall|a: usize, b: usize|
            #[trigger] graph.has_edge(a as int, b as int) && graph.is_node(a as int)
                && graph.is_node(b as int) implies exists|h: usize|
            #[trigger] linked(r, a, h) && linked(r, b, h) by {
            assert(mask@[a as int] && mask@[b as int]);
            assert(root_of[a as int] == root_of[b as int]);
            let h = root_of[a as int] as usize;
            lemma_forest_chain(r, mask@, pred, depth, root_of, a as int);
            let pa = choose|p: Seq<usize>|
                #[trigger] is_simple_path(r, p) && p.len() >= 1 && p[0] as int == a as int && p[
                    p.len() - 1
                ] as int == root_of[a as int] && (forall|i2: int|
                    0 <= i2 < p.len() ==> depth[(#[trigger] p[i2]) as int] == p.len() - 1 - i2);
            assert(linked(r, a, h));
            lemma_forest_chain(r, mask@, pred, depth, root_of, b as int);
            let pb = choose|p: Seq<usize>|
                #[trigger] is_simple_path(r, p) && p.len() >= 1 && p[0] as int == b as int && p[
                    p.len() - 1
                ] as int == root_of[b as int] && (forall|i2: int|
                    0 <= i2 < p.len() ==> depth[(#[trigger] p[i2]) as int] == p.len() - 1 - i2);
            assert(linked(r, b, h));
        }
    }
    r
}


/// State left by a search-tree traversal rooted at `target`: every visited
/// node other than the root steps to a visited predecessor one depth level
/// down, along a real edge, and the root sits at depth zero.
pub open spec fn search_inv(
    g: RoomGraph,
    target: usize,
    visited: Seq<bool>,
    pred: Seq<usize>,
    depth: Seq<int>,
) -> bool {
    let n = g.nodes@.len() as int;
    &&& visited.len() == n
    &&& pred.len() == n
    &&& depth.len() == n
    &&& (target as int) < n
    &&& visited[target as int]
    &&& depth[target as int] == 0
    &&& g.is_node(target as int)
    &&& forall|v: int| 0 <= v < n && visited[v] ==> g.is_node(v) && 0 <= #[trigger] depth[v]
    &&& forall|v: int|
        0 <= v < n && visited[v] && v != target ==> (#[trigger] pred[v]) < n && visited[
            pred[v] as int
        ] && g.has_edge(v, pred[v] as int) && depth[v] == depth[pred[v] as int] + 1
}

/// Follow predecessors from `leaf` back to `target`, yielding the recorded
/// tree path (leaf first, `target` last).
fn trace_to_target(
    graph: &RoomGraph,
    target: usize,
    leaf: usize,
    visited: &Vec<bool>,
    pred: &Vec<usize>,
    Ghost(depth): Ghost<Seq<int>>,
) -> (r: Vec<usize>)
    requires
        graph.wf(),
        search_inv(*graph, target, visited@, pred@, depth),
        (leaf as int) < graph.nodes@.len(),
        visited@[leaf as int],
    ensures
        r@.len() >= 1,
        is_simple_path(*graph, r@),
        r@[0] == leaf,
        r@[r@.len() - 1] == target,
{
    let mut path: Vec<usize> = Vec::new();
    path.push(leaf);
    let mut cur = leaf;
    while cur != target
        invariant
            graph.wf(),
            search_inv(*graph, target, visited@, pred@, depth),
            (cur as int) < graph.nodes@.len(),
            visited@[cur as int],
            path@.len() >= 1,
            path@[0] == leaf,
            path@[path@.len() - 1] == cur,
            forall|i: int|
                0 <= i < path@.len() ==> ((#[trigger] path@[i]) as int) < graph.nodes@.len()
                    && visited@[path@[i] as int],
            forall|i: int|
                0 <= i < path@.len() ==> depth[(#[trigger] path@[i]) as int] + i == depth[leaf
                    as int],
            forall|i: int|
                0 <= i < path@.len() - 1 ==> graph.has_edge(
                    (#[trigger] path@[i]) as int,
                    path@[i + 1] as int,
                ),
        decreases depth[cur as int],
    {
        let p = pred[cur];
        path.push(p);
        cur = p;
    }
    proof {
        assert forall|i: int, j: int| 0 <= i < j < path@.len() implies path@[i] != path@[j] by {
            assert(depth[path@[i] as int] + i == depth[leaf as int]);
            assert(depth[path@[j] as int] + j == depth[leaf as int]);
        }
        assert forall|i: int| 0 <= i < path@.len() implies graph.is_node(
            (#[trigger] path@[i]) as int,
        ) by {
            assert(visited@[path@[i] as int]);
        }
    }
    path
}

/// A longest recorded search-tree path ending at `target`, found by tracing
/// every childless visited node back to the root. Assumes the graph is a
/// tree; on any graph the result is a simple path ending at `target`.
pub fn longest_path_to_point_in_tree(graph: &RoomGraph, target: usize) -> (r: Vec<usize>)
    requires
        graph.wf(),
        graph.is_node(target as int),
    ensures
        r@.len() >= 1,
        r@.len() <= graph.spec_node_count(),
        is_simple_path(*graph, r@),
        r@[r@.len() - 1] == target,
{
    let n = graph.nodes.len();
    let mut visited: Vec<bool> = Vec::new();
    let mut pred: Vec<usize> = Vec::new();
    let mut has_child: Vec<bool> = Vec::new();
    let ghost mut depth: Seq<int> = Seq::new(n as nat, |v: int| 0);
    let mut z: usize = 0;
    while z < n
        invariant
            z <= n,
            visited@.len() == z,
            pred@.len() == z,
            has_child@.len() == z,
            forall|j: int| 0 <= j < z ==> !(#[trigger] visited@[j]),
        decreases n - z,
    {
        visited.push(false);
        pred.push(0);
        has_child.push(false);
        z = z + 1;
    }
    proof {
        lemma_count_true_zero(visited@);
        lemma_count_true_update(visited@, target as int, true);
        lemma_count_true_le_len(visited@.update(target as int, true));
    }
    visited.set(target, true);
    let mut marked: usize = 1;
    let mut queue: Vec<usize> = Vec::new();
    queue.push(target);
    let mut head: usize = 0;
    while head < queue.len()
        invariant
            graph.wf(),
            n == graph.nodes@.len(),
            visited@.len() == n,
            pred@.len() == n,
            depth.len() == n,
            has_child@.len() == n,
            (target as int) < n,
            graph.is_node(target as int),
            visited@[target as int],
            depth[target as int] == 0,
            marked as nat == count_true(visited@),
            marked <= n,
            head <= queue@.len(),
            forall|v: int| 0 <= v < n && #[trigger] visited@[v] ==> graph.is_node(v),
            forall|v: int| 0 <= v < n && #[trigger] visited@[v] ==> 0 <= depth[v],
            forall|v: int|
                0 <= v < n && visited@[v] && v != target ==> (#[trigger] pred@[v]) < n && visited@[
                    pred@[v] as int
                ] && graph.has_edge(v, pred@[v] as int) && depth[v] == depth[pred@[v] as int] + 1,
            forall|k: int| 0 <= k < queue@.len() ==> visited@[(#[trigger] queue@[k]) as int],
            forall|k: int| 0 <= k < queue@.len() ==> (#[trigger] queue@[k]) < n,
        decreases n - marked, queue@.len() - head,
    {
        let a = queue[head];
        let nbrs = graph.neighbors(a);
        let ghost marked_at = marked;
        let ghost q_at = queue@;
        let mut j: usize = 0;
        while j < nbrs.len()
            invariant
                graph.wf(),
                n == graph.nodes@.len(),
                visited@.len() == n,
                pred@.len() == n,
                depth.len() == n,
                has_child@.len() == n,
                (target as int) < n,
                graph.is_node(target as int),
                a < n,
                visited@[a as int],
                visited@[target as int],
                depth[target as int] == 0,
                marked as nat == count_true(visited@),
                marked <= n,
                marked_at <= marked,
                marked == marked_at ==> queue@ == q_at,
                head < queue@.len(),
                j <= nbrs@.len(),
                forall|k: int|
                    0 <= k < nbrs@.len() ==> graph.has_edge(a as int, (#[trigger] nbrs@[k]) as int)
                        && graph.is_node(nbrs@[k] as int),
                forall|v: int| 0 <= v < n && #[trigger] visited@[v] ==> graph.is_node(v),
                forall|v: int| 0 <= v < n && #[trigger] visited@[v] ==> 0 <= depth[v],
                forall|v: int|
                    0 <= v < n && visited@[v] && v != target ==> (#[trigger] pred@[v]) < n
                        && visited@[pred@[v] as int] && graph.has_edge(v, pred@[v] as int) && depth[
                        v
                    ] == depth[pred@[v] as int] + 1,
                forall|k: int| 0 <= k < queue@.len() ==> visited@[(#[trigger] queue@[k]) as int],
                forall|k: int| 0 <= k < queue@.len() ==> (#[trigger] queue@[k]) < n,
            decreases nbrs@.len() - j,
        {
            let m = nbrs[j];
            proof {
                assert(graph.is_node(m as int));
            }
            if !visited[m] {
                let ghost vis0 = visited@;
                let ghost dep0 = depth;
                let ghost pre0 = pred@;
                proof {
                    lemma_count_true_update(visited@, m as int, true);
                    lemma_count_true_le_len(visited@.update(m as int, true));
                    assert(m != target);
                    assert(m as int != a as int);
                }
                visited.set(m, true);
                pred.set(m, a);
                proof {
                    depth = depth.update(m as int, depth[a as int] + 1);
                }
                has_child.set(a, true);
                marked = marked + 1;
                queue.push(m);
                proof {
                    assert forall|v: int|
                        0 <= v < n && visited@[v] && v != target implies (#[trigger] pred@[v]) < n
                        && visited@[pred@[v] as int] && graph.has_edge(v, pred@[v] as int) && depth[
                        v
                    ] == depth[pred@[v] as int] + 1 by {
                        if v == m as int {
                            assert(pred@[v] == a);
                            assert(graph.has_edge(a as int, m as int));
                            assert(graph.has_edge(m as int, a as int));
                        } else {
                            assert(vis0[v]);
                            assert(pred@[v] == pre0[v]);
                            assert(!vis0[m as int]);
                            assert(pre0[v] != m);
                            assert(depth[v] == dep0[v]);
                        }
                    }
                }
            }
            j = j + 1;
        }
        head = head + 1;
    }
    proof {
        assert(search_inv(*graph, target, visited@, pred@, depth));
    }
    let mut max_path: Vec<usize> = Vec::new();
    max_path.push(target);
    let lives = graph.live_nodes();
    let mut k: usize = 0;
    while k < lives.len()
        invariant
            graph.wf(),
            n == graph.nodes@.len(),
            search_inv(*graph, target, visited@, pred@, depth),
            has_child@.len() == n,
            forall|i: int| 0 <= i < lives@.len() ==> graph.is_node((#[trigger] lives@[i]) as int),
            k <= lives@.len(),
            max_path@.len() >= 1,
            is_simple_path(*graph, max_path@),
            max_path@[max_path@.len() - 1] == target,
        decreases lives@.len() - k,
    {
        let leaf = lives[k];
        if visited[leaf] && !has_child[leaf] {
            let path = trace_to_target(graph, target, leaf, &visited, &pred, Ghost(depth));
            if path.len() > max_path.len() {
                max_path = path;
            }
        }
        k = k + 1;
    }
    proof {
        assert forall|k2: int|
            0 <= k2 < max_path@.len() implies ((#[trigger] max_path@[k2]) as int)
            < graph.nodes@.len() && graph.nodes@[max_path@[k2] as int] is Some by {
            assert(graph.is_node(max_path@[k2] as int));
        }
        lemma_distinct_live_le_count(graph.nodes@, max_path@);
    }
    max_path
}

/// A longest path in the tree, found by a double sweep: search from an
/// arbitrary node, then search again from the far end of the path found.
pub fn longest_path_in_tree(graph: &RoomGraph) -> (r: Vec<usize>)
    requires
        graph.wf(),
        graph.spec_node_count() >= 1,
    ensures
        r@.len() >= 1,
        r@.len() <= graph.spec_node_count(),
        is_simple_path(*graph, r@),
{
    let lives = graph.live_nodes();
    let start = lives[0];
    let path = longest_path_to_point_in_tree(graph, start);
    let endpoint = path[0];
    proof {
        assert(graph.is_node(endpoint as int));
    }
    longest_path_to_point_in_tree(graph, endpoint)
}

/// The two values describe the same graph: same node table, same edge list.
pub open spec fn same_graph(a: RoomGraph, b: RoomGraph) -> bool {
    a.nodes@ == b.nodes@ && a.edges@ == b.edges@
}

/// `f` approved this exact graph value.
pub open spec fn accepts<F: Fn(&RoomGraph) -> bool>(f: F, g: RoomGraph) -> bool {
    call_ensures(f, (&g,), true)
}

/// Some value describing exactly this graph was approved by `f`.
pub open spec fn accepted_graph<F: Fn(&RoomGraph) -> bool>(f: F, g: RoomGraph) -> bool {
    exists|g2: RoomGraph| same_graph(g, g2) && #[trigger] accepts(f, g2)
}

/// Some graph drawn from `g` without node `n` — a removal of `n` possibly
/// reduced to a connected piece — was offered to `f` and turned down.
pub open spec fn removal_rejected<F: Fn(&RoomGraph) -> bool>(f: F, g: RoomGraph, n: int) -> bool {
    exists|g2: RoomGraph|
        (forall|i: int| #[trigger] g2.is_node(i) ==> g.is_node(i) && i != n) && #[trigger] call_ensures(
            f,
            (&g2,),
            false,
        )
}

/// A hub carries over to any value describing the same graph.
pub proof fn lemma_hub_linked_same_graph(a: RoomGraph, b: RoomGraph, h: usize)
    requires
        hub_linked(a, h),
        same_graph(a, b),
    ensures
        hub_linked(b, h),
{
    assert(b.is_node(h as int));
    assert forall|v: usize| b.is_node(v as int) implies #[trigger] linked(b, v, h) by {
        assert(a.is_node(v as int));
        assert(linked(a, v, h));
        let p = choose|p: Seq<usize>|
            #[trigger] is_simple_path(a, p) && p.len() >= 1 && p[0] == v && p[p.len() - 1] == h;
        assert forall|k: int| 0 <= k < p.len() implies b.is_node((#[trigger] p[k]) as int) by {
            assert(a.is_node(p[k] as int));
        }
        assert forall|k: int| 0 <= k < p.len() - 1 implies b.has_edge(
            (#[trigger] p[k]) as int,
            p[k + 1] as int,
        ) by {
            assert(a.has_edge(p[k] as int, p[k + 1] as int));
        }
        assert(is_simple_path(b, p));
    }
}

/// A turned-down removal carries over to any value describing the same graph.
pub proof fn lemma_removal_rejected_same_graph<F: Fn(&RoomGraph) -> bool>(
    f: F,
    a: RoomGraph,
    b: RoomGraph,
    n: int,
)
    requires
        removal_rejected(f, a, n),
        same_graph(a, b),
    ensures
        removal_rejected(f, b, n),
{
    let g2 = choose|g2: RoomGraph|
        (forall|i: int| #[trigger] g2.is_node(i) ==> a.is_node(i) && i != n) && #[trigger] call_ensures(
            f,
            (&g2,),
            false,
        );
    assert forall|i: int| #[trigger] g2.is_node(i) implies b.is_node(i) && i != n by {
        assert(a.is_node(i));
    }
}

/// An exact copy of a mask.
fn clone_bools(v: &Vec<bool>) -> (r: Vec<bool>)
    ensures
        r@ == v@,
{
    let mut r: Vec<bool> = Vec::new();
    let mut k: usize = 0;
    while k < v.len()
        invariant
            k <= v@.len(),
            r@ == v@.take(k as int),
        decreases v@.len() - k,
    {
        proof {
            assert(v@.take(k + 1).drop_last() =~= v@.take(k as int));
            assert(v@.take(k + 1).last() == v@[k as int]);
        }
        r.push(v[k]);
        k = k + 1;
    }
    proof {
        assert(v@.take(v@.len() as int) =~= v@);
    }
    r
}

/// An exact copy of an edge list.
fn clone_edges(v: &Vec<(usize, usize)>) -> (r: Vec<(usize, usize)>)
    ensures
        r@ == v@,
{
    let mut r: Vec<(usize, usize)> = Vec::new();
    let mut k: usize = 0;
    while k < v.len()
        invariant
            k <= v@.len(),
            r@ == v@.take(k as int),
        decreases v@.len() - k,
    {
        proof {
            assert(v@.take(k + 1).drop_last() =~= v@.take(k as int));
            assert(v@.take(k + 1).last() == v@[k as int]);
        }
        r.push(v[k]);
        k = k + 1;
    }
    proof {
        assert(v@.take(v@.len() as int) =~= v@);
    }
    r
}

/// Remove nodes of low degree until the graph reaches `desired_size` nodes,
/// keeping every removal that `accept_fn` approves and rolling back every one
/// it rejects. Candidates are tried at degree threshold 1 first; when a full
/// pass removes nothing the threshold rises, and the walk stops once it
/// exceeds the node table. Removing a node can split the graph, so after each
/// tentative removal the largest connected piece is offered to `accept_fn`
/// and adopted when accepted.
///
/// Any node that every accepted graph is guaranteed to contain survives: that
/// is how a caller pins a protected node set. The result is either the input
/// graph or a value the predicate approved; and an input handed back whole,
/// while still above the target size, carries a turned-down removal for every
/// node of positive degree: no single removal the walk can try was
/// acceptable. An input already at or below the target comes back untouched.
/// Adopting a reduced connected piece can land below the target, so no lower
/// bound on the final count is promised.
#[verifier::rlimit(100)]
pub fn prune_outer_nodes_to_reach_size<F: Fn(&RoomGraph) -> bool>(
    graph: &mut RoomGraph,
    accept_fn: F,
    desired_size: usize,
)
    requires
        old(graph).wf(),
        forall|g: &RoomGraph| #[trigger] call_requires(accept_fn, (g,)),
    ensures
        final (graph).wf(),
        final (graph).nodes@.len() == old(graph).nodes@.len(),
        final (graph).nodes_subset_of(*old(graph)),
        final (graph).edges_subset_of(*old(graph)),
        final (graph).spec_node_count() <= old(graph).spec_node_count(),
        forall|i: int|
            old(graph).is_node(i) && (forall|g: RoomGraph, b: bool|
                #[trigger] call_ensures(accept_fn, (&g,), b) && b ==> g.is_node(i)) ==> final (
            graph).is_node(i),
        old(graph).spec_node_count() <= desired_size ==> *final (graph) == *old(graph),
        same_graph(*final (graph), *old(graph)) || accepted_graph(accept_fn, *final (graph)),
        same_graph(*final (graph), *old(graph)) || final (graph).spec_node_count() == 0 || (
        exists|h: usize| #[trigger] hub_linked(*final (graph), h)),
        (same_graph(*final (graph), *old(graph)) && final (graph).spec_node_count()
            > desired_size) ==> forall|n2: int|
            final (graph).is_node(n2) && 1 <= #[trigger] final (graph).neighbors_spec_count(n2)
                <= old(graph).nodes@.len() ==> removal_rejected(accept_fn, *final (graph), n2),
{
    let slots = graph.slot_count();
    let mut max_edges_per_removed_node: usize = 1;
    loop
        invariant
            graph.wf(),
            graph.nodes@.len() == old(graph).nodes@.len(),
            slots == graph.nodes@.len(),
            graph.nodes_subset_of(*old(graph)),
            graph.edges_subset_of(*old(graph)),
            graph.spec_node_count() <= old(graph).spec_node_count(),
            1 <= max_edges_per_removed_node <= slots + 1,
            forall|g: &RoomGraph| #[trigger] call_requires(accept_fn, (g,)),
            forall|i: int|
                old(graph).is_node(i) && (forall|g: RoomGraph, b: bool|
                    #[trigger] call_ensures(accept_fn, (&g,), b) && b ==> g.is_node(i))
                    ==> graph.is_node(i),
            old(graph).spec_node_count() <= desired_size ==> *graph == *old(graph),
            same_graph(*graph, *old(graph)) || accepted_graph(accept_fn, *graph),
            same_graph(*graph, *old(graph)) || graph.spec_node_count() == 0 || (exists|h: usize|
                #[trigger] hub_linked(*graph, h)),
            same_graph(*graph, *old(graph)) ==> forall|n2: int|
                graph.is_node(n2) && 1 <= #[trigger] graph.neighbors_spec_count(n2)
                    < max_edges_per_removed_node ==> removal_rejected(accept_fn, *graph, n2),
        decreases graph.spec_node_count(), slots + 1 - max_edges_per_removed_node,
    {
        let ghost count_at_pass = graph.spec_node_count();
        let ghost pass_start_graph = *graph;
        let mut removed_nodes = false;
        let candidates = graph.live_nodes();
        let mut c: usize = 0;
        while c < candidates.len()
            invariant
                graph.wf(),
                graph.nodes@.len() == old(graph).nodes@.len(),
                slots == graph.nodes@.len(),
                graph.nodes_subset_of(*old(graph)),
                graph.edges_subset_of(*old(graph)),
                graph.spec_node_count() <= old(graph).spec_node_count(),
                c <= candidates@.len(),
                graph.spec_node_count() <= count_at_pass,
                removed_nodes ==> graph.spec_node_count() < count_at_pass,
                !removed_nodes ==> same_graph(*graph, pass_start_graph),
                count_at_pass == pass_start_graph.spec_node_count(),
                count_at_pass <= old(graph).spec_node_count(),
                1 <= max_edges_per_removed_node,
                forall|m: int|
                    0 <= m < candidates@.len() ==> pass_start_graph.is_node(
                        (#[trigger] candidates@[m]) as int,
                    ),
                forall|n2: int|
                    pass_start_graph.is_node(n2) ==> exists|m: int|
                        0 <= m < candidates@.len() && (#[trigger] candidates@[m]) as int == n2,
                forall|g: &RoomGraph| #[trigger] call_requires(accept_fn, (g,)),
                forall|i: int|
                    old(graph).is_node(i) && (forall|g: RoomGraph, b: bool|
                        #[trigger] call_ensures(accept_fn, (&g,), b) && b ==> g.is_node(i))
                        ==> graph.is_node(i),
                old(graph).spec_node_count() <= desired_size ==> *graph == *old(graph),
                same_graph(*graph, *old(graph)) || accepted_graph(accept_fn, *graph),
                same_graph(*graph, *old(graph)) || graph.spec_node_count() == 0 || (exists|
                    h: usize,
                |
                    #[trigger] hub_linked(*graph, h)),
                same_graph(*graph, *old(graph)) ==> forall|n2: int|
                    graph.is_node(n2) && 1 <= #[trigger] graph.neighbors_spec_count(n2)
                        < max_edges_per_removed_node ==> removal_rejected(accept_fn, *graph, n2),
                (same_graph(*graph, *old(graph)) && !removed_nodes) ==> forall|m: int|
                    0 <= m < c && graph.neighbors_spec_count((#[trigger] candidates@[m]) as int)
                        == max_edges_per_removed_node && graph.is_node(candidates@[m] as int)
                        ==> removal_rejected(accept_fn, *graph, candidates@[m] as int),
            decreases candidates@.len() - c,
        {
            if graph.node_count() <= desired_size {
                return ;
            }
            let n = candidates[c];
            if graph.contains_node(n) && graph.degree(n) == max_edges_per_removed_node {
                let ghost before = *graph;
                let saved_edges = clone_edges(&graph.edges);
                let (weight, _removed_edges) = graph.remove_node(n);
                let ghost after = *graph;
                let subgraph = largest_connected_subgraph(graph);
                let accepted = match &subgraph {
                    Some(s) => accept_fn(s),
                    None => accept_fn(graph),
                };
                if accepted {
                    removed_nodes = true;
                    match subgraph {
                        Some(s) => {
                            proof {
                                assert forall|i: int|
                                    old(graph).is_node(i) && (forall|g: RoomGraph, b: bool|
                                        #[trigger] call_ensures(accept_fn, (&g,), b) && b
                                            ==> g.is_node(i)) implies s.is_node(i) by {
                                    assert(call_ensures(accept_fn, (&s,), true));
                                }
                                assert forall|i: int| s.is_node(i) implies #[trigger] old(
                                graph).is_node(i) && old(graph).spec_weight(i) == s.spec_weight(
                                    i,
                                ) by {
                                    assert(after.is_node(i));
                                    assert(after.spec_weight(i) == s.spec_weight(i));
                                    assert(before.is_node(i));
                                    assert(i != n as int);
                                    assert(before.spec_weight(i) == after.spec_weight(i));
                                    assert(old(graph).is_node(i));
                                    assert(old(graph).spec_weight(i) == before.spec_weight(i));
                                }
                                assert forall|a2: int, b2: int| #[trigger]
                                    s.has_edge(a2, b2) implies old(graph).has_edge(a2, b2) by {
                                    assert(after.has_edge(a2, b2));
                                    assert(before.has_edge(a2, b2));
                                }
                                assert forall|j: int|
                                    0 <= j < s.nodes@.len() && (#[trigger] s.nodes@[j]) is Some implies before.nodes@[j] is Some by {
                                    assert(s.is_node(j));
                                    assert(after.is_node(j));
                                    assert(before.is_node(j));
                                }
                                lemma_live_count_mono(before.nodes@, s.nodes@);
                            }
                            *graph = s;
                            proof {
                                assert(accepts(accept_fn, *graph));
                                assert(accepted_graph(accept_fn, *graph));
                                assert(graph.spec_node_count() < count_at_pass);
                                if same_graph(*graph, *old(graph)) {
                                    assert(live_count(graph.nodes@) == live_count(
                                        old(graph).nodes@,
                                    ));
                                    assert(false);
                                }
                                assert forall|i: int| #[trigger]
                                    graph.is_node(i) implies old(graph).is_node(i) && old(
                                    graph,
                                ).spec_weight(i) == graph.spec_weight(i) by {
                                    assert(s.is_node(i));
                                    assert(after.is_node(i));
                                    assert(after.spec_weight(i) == s.spec_weight(i));
                                    assert(before.is_node(i));
                                    assert(i != n as int);
                                    assert(before.spec_weight(i) == after.spec_weight(i));
                                    assert(old(graph).is_node(i));
                                    assert(old(graph).spec_weight(i) == before.spec_weight(i));
                                }
                            }
                        },
                        None => {
                            proof {
                                assert(accepts(accept_fn, *graph));
                                assert(accepted_graph(accept_fn, *graph));
                                assert(graph.spec_node_count() < count_at_pass);
                                if same_graph(*graph, *old(graph)) {
                                    assert(live_count(graph.nodes@) == live_count(
                                        old(graph).nodes@,
                                    ));
                                    assert(false);
                                }
                                assert forall|i: int|
                                    old(graph).is_node(i) && (forall|g: RoomGraph, b: bool|
                                        #[trigger] call_ensures(accept_fn, (&g,), b) && b
                                            ==> g.is_node(i)) implies graph.is_node(i) by {
                                    assert(call_ensures(accept_fn, (&*graph,), true));
                                }
                                assert forall|i: int| #[trigger]
                                    graph.is_node(i) implies old(graph).is_node(i) && old(
                                    graph,
                                ).spec_weight(i) == graph.spec_weight(i) by {
                                    assert(before.is_node(i));
                                    assert(i != n as int);
                                    assert(before.spec_weight(i) == after.spec_weight(i));
                                    assert(old(graph).is_node(i));
                                    assert(old(graph).spec_weight(i) == before.spec_weight(i));
                                }
                                assert forall|a2: int, b2: int| #[trigger]
                                    graph.has_edge(a2, b2) implies old(graph).has_edge(a2, b2) by {
                                    assert(before.has_edge(a2, b2));
                                }
                                assert(graph.nodes_subset_of(*old(graph)));
                            }
                        },
                    }
                } else {
                    // Rejected: record the turned-down removal, then put the
                    // node and its edges back exactly as they were.
                    proof {
                        match &subgraph {
                            Some(sg) => {
                                assert(call_ensures(accept_fn, (sg, ), false));
                                assert forall|i: int|
                                    #[trigger] sg.is_node(i) implies before.is_node(i) && i
                                    != n as int by {
                                    assert(after.is_node(i));
                                }
                                assert(removal_rejected(accept_fn, before, n as int));
                            },
                            None => {
                                assert(call_ensures(accept_fn, (&*graph,), false));
                                assert forall|i: int|
                                    #[trigger] after.is_node(i) implies before.is_node(i) && i
                                    != n as int by {}
                                assert(removal_rejected(accept_fn, before, n as int));
                            },
                        }
                    }
                    graph.restore_node(n, weight);
                    graph.edges = saved_edges;
                    proof {
                        assert(graph.nodes@ =~= before.nodes@);
                        assert(graph.edges@ == before.edges@);
                        assert(same_graph(*graph, before));
                        assert forall|i: int| #[trigger]
                            graph.is_node(i) implies old(graph).is_node(i) && old(
                            graph,
                        ).spec_weight(i) == graph.spec_weight(i) by {
                            assert(before.is_node(i));
                            assert(old(graph).is_node(i));
                            assert(old(graph).spec_weight(i) == before.spec_weight(i));
                            assert(before.spec_weight(i) == graph.spec_weight(i));
                        }
                        assert forall|a2: int, b2: int| #[trigger]
                            graph.has_edge(a2, b2) implies old(graph).has_edge(a2, b2) by {
                            assert(before.has_edge(a2, b2));
                        }
                        if !same_graph(before, *old(graph)) {
                            assert(accepted_graph(accept_fn, before));
                            let gw = choose|g2: RoomGraph|
                                same_graph(before, g2) && #[trigger] accepts(accept_fn, g2);
                            assert(same_graph(*graph, gw));
                            assert(accepted_graph(accept_fn, *graph));
                            if before.spec_node_count() != 0 {
                                let h = choose|h: usize| #[trigger] hub_linked(before, h);
                                lemma_hub_linked_same_graph(before, *graph, h);
                            }
                        }
                        assert(graph.nodes_subset_of(*old(graph)));
                        if same_graph(*graph, *old(graph)) {
                            assert(same_graph(before, *old(graph)));
                            assert(removal_rejected(accept_fn, before, n as int));
                            lemma_removal_rejected_same_graph(
                                accept_fn,
                                before,
                                *graph,
                                n as int,
                            );
                            assert forall|n2: int|
                                graph.is_node(n2) && 1 <= #[trigger] graph.neighbors_spec_count(
                                    n2,
                                ) < max_edges_per_removed_node implies removal_rejected(
                                accept_fn,
                                *graph,
                                n2,
                            ) by {
                                assert(before.is_node(n2));
                                assert(before.neighbors_spec_count(n2)
                                    == graph.neighbors_spec_count(n2));
                                assert(removal_rejected(accept_fn, before, n2));
                                lemma_removal_rejected_same_graph(accept_fn, before, *graph, n2);
                            }
                            assert forall|m: int|
                                0 <= m < c + 1 && graph.neighbors_spec_count(
                                    (#[trigger] candidates@[m]) as int,
                                ) == max_edges_per_removed_node && graph.is_node(
                                    candidates@[m] as int,
                                ) && !removed_nodes implies removal_rejected(
                                accept_fn,
                                *graph,
                                candidates@[m] as int,
                            ) by {
                                if m < c {
                                    assert(removal_rejected(
                                        accept_fn,
                                        before,
                                        candidates@[m] as int,
                                    ));
                                    lemma_removal_rejected_same_graph(
                                        accept_fn,
                                        before,
                                        *graph,
                                        candidates@[m] as int,
                                    );
                                }
                            }
                        }
                    }
                }
            }
            c = c + 1;
        }
        if graph.node_count() <= desired_size {
            return ;
        }
        proof {
            if removed_nodes && same_graph(*graph, *old(graph)) {
                assert(live_count(graph.nodes@) == live_count(old(graph).nodes@));
                assert(false);
            }
            if same_graph(*graph, *old(graph)) && !removed_nodes {
                assert forall|n2: int|
                    graph.is_node(n2) && 1 <= #[trigger] graph.neighbors_spec_count(n2)
                        <= max_edges_per_removed_node implies removal_rejected(
                    accept_fn,
                    *graph,
                    n2,
                ) by {
                    if graph.neighbors_spec_count(n2) == max_edges_per_removed_node {
                        assert(pass_start_graph.is_node(n2));
                        let m = choose|m: int|
                            0 <= m < candidates@.len() && (#[trigger] candidates@[m]) as int == n2;
                        assert(removal_rejected(accept_fn, *graph, candidates@[m] as int));
                    }
                }
            }
        }
        if !removed_nodes {
            if max_edges_per_removed_node >= slots {
                // No node can have more edges than the table holds: no
                // further progress is possible at any threshold.
                return ;
            }
            max_edges_per_removed_node = max_edges_per_removed_node + 1;
        }
    }
}

} // verus!
