//! An undirected graph as a concrete space: adjacency as neighborhood,
//! breadth-first hop count as distance, and the discrete openness policy.

use vstd::prelude::*;

use crate::section::Section;
use crate::section::restricts;
use crate::topology::MetricSpace;
use crate::topology::OpenSet;
use crate::topology::TopologicalSpace;
use crate::topology::lemma_strictly_increasing_no_duplicates;
use crate::topology::lemma_strictly_increasing_unique;

verus! {

/// An edge stored with its endpoints in increasing order.
pub open spec fn norm_edge(e: (usize, usize)) -> (usize, usize) {
    if e.0 <= e.1 {
        e
    } else {
        (e.1, e.0)
    }
}

/// Lexicographic order on stored edges.
pub open spec fn edge_lt(a: (usize, usize), b: (usize, usize)) -> bool {
    a.0 < b.0 || (a.0 == b.0 && a.1 < b.1)
}

/// Canonical edge storage: strictly increasing in the lexicographic order,
/// so every undirected edge appears exactly once.
pub open spec fn strictly_increasing_edges(s: Seq<(usize, usize)>) -> bool {
    forall|i: int, j: int| 0 <= i < j < s.len() ==> edge_lt(s[i], s[j])
}

/// Whether a stored edge joins `v` and `w` (in either direction).
pub open spec fn connects(e: (usize, usize), v: usize, w: usize) -> bool {
    (e.0 == v && e.1 == w) || (e.0 == w && e.1 == v)
}

/// An undirected graph over a finite vertex set.  Edges are normalized to
/// `(min, max)` pairs and deduplicated before storage.
#[derive(Debug)]
pub struct UndirectedGraph {
    /// The vertex set.
    pub vertices: OpenSet,
    /// The normalized edges, strictly increasing in lexicographic order.
    pub edges: Vec<(usize, usize)>,
}

/// Puts one normalized edge into a canonical edge list, keeping it
/// canonical.
fn edges_insert(edges: &mut Vec<(usize, usize)>, e: (usize, usize))
    requires
        strictly_increasing_edges(old(edges)@),
    ensures
        strictly_increasing_edges(final(edges)@),
        final(edges)@.to_set() == old(edges)@.to_set().insert(e),
{
    let ghost orig = edges@;
    let mut i: usize = 0;
    while i < edges.len() && (edges[i].0 < e.0 || (edges[i].0 == e.0 && edges[i].1 < e.1))
        invariant
            0 <= i <= edges@.len(),
            edges@ == orig,
            forall|k: int| 0 <= k < i ==> edge_lt(edges@[k], e),
        decreases edges@.len() - i,
    {
        i = i + 1;
    }
    if i < edges.len() && edges[i].0 == e.0 && edges[i].1 == e.1 {
        proof {
            assert(edges@[i as int] == e);
            assert(edges@.contains(e));
            assert(edges@.to_set().insert(e) =~= edges@.to_set());
        }
        return ;
    }
    edges.insert(i, e);
    proof {
        let new_s = edges@;
        assert(new_s == orig.insert(i as int, e));
        assert forall|l: int| i <= l < orig.len() implies edge_lt(e, orig[l]) by {
            if l > i {
                assert(edge_lt(orig[i as int], orig[l]));
            }
        }
        assert forall|k: int, l: int| 0 <= k < l < new_s.len() implies edge_lt(
            new_s[k],
            new_s[l],
        ) by {
            if l < i {
                assert(new_s[k] == orig[k] && new_s[l] == orig[l]);
            } else if k > i {
                assert(new_s[k] == orig[k - 1] && new_s[l] == orig[l - 1]);
            } else if k < i && l == i {
                assert(new_s[k] == orig[k]);
            } else if k == i && l > i {
                assert(new_s[l] == orig[l - 1]);
            } else if k < i && l > i {
                assert(new_s[k] == orig[k] && new_s[l] == orig[l - 1]);
            }
        }
        assert(new_s.to_set() =~= orig.to_set().insert(e)) by {
            assert forall|x: (usize, usize)| new_s.to_set().contains(x) implies orig.to_set().insert(
                e,
            ).contains(x) by {
                let k = choose|k: int| 0 <= k < new_s.len() && new_s[k] == x;
                if k < i {
                    assert(orig[k] == x);
                } else if k > i {
                    assert(orig[k - 1] == x);
                }
            }
            assert forall|x: (usize, usize)| orig.to_set().insert(e).contains(x) implies new_s.to_set().contains(
                x,
            ) by {
                if x == e {
                    assert(new_s[i as int] == e);
                } else {
                    let k = choose|k: int| 0 <= k < orig.len() && orig[k] == x;
                    if k < i {
                        assert(new_s[k] == x);
                    } else {
                        assert(new_s[k + 1] == x);
                    }
                }
            }
        }
    }
}

impl UndirectedGraph {
    /// Well-formedness: canonical vertex storage, canonical normalized edge
    /// storage, and every edge endpoint a vertex.
    pub open spec fn wf(&self) -> bool {
        &&& self.vertices.wf()
        &&& strictly_increasing_edges(self.edges@)
        &&& forall|k: int|
            0 <= k < self.edges@.len() ==> (#[trigger] self.edges@[k]).0 <= self.edges@[k].1
                && self.vertices@.contains(self.edges@[k].0) && self.vertices@.contains(
                self.edges@[k].1,
            )
    }

    /// Whether an edge of the graph joins `v` and `w`.
    pub open spec fn adjacent(&self, v: usize, w: usize) -> bool {
        exists|k: int| 0 <= k < self.edges@.len() && connects(#[trigger] self.edges@[k], v, w)
    }

    /// Builds a graph from a vertex set and a list of edges, normalizing
    /// each edge to `(min, max)` and dropping duplicates.  Every edge
    /// endpoint must be a vertex.
    pub fn new(vertices: OpenSet, edges: Vec<(usize, usize)>) -> (r: UndirectedGraph)
        requires
            vertices.wf(),
            forall|k: int|
                0 <= k < edges@.len() ==> vertices@.contains((#[trigger] edges@[k]).0)
                    && vertices@.contains(edges@[k].1),
        ensures
            r.wf(),
            r.vertices == vertices,
            r.edges@.to_set() == edges@.map_values(|e: (usize, usize)| norm_edge(e)).to_set(),
            forall|v: usize, w: usize|
                r.adjacent(v, w) == exists|k: int|
                    0 <= k < edges@.len() && connects(#[trigger] edges@[k], v, w),
    {
        let ghost input = edges@;
        let mut stored: Vec<(usize, usize)> = Vec::new();
        let mut i: usize = 0;
        while i < edges.len()
            invariant
                0 <= i <= input.len(),
                edges@ == input,
                vertices.wf(),
                forall|k: int|
                    0 <= k < input.len() ==> vertices@.contains((#[trigger] input[k]).0)
                        && vertices@.contains(input[k].1),
                strictly_increasing_edges(stored@),
                stored@.to_set() == input.take(i as int).map_values(
                    |e: (usize, usize)| norm_edge(e),
                ).to_set(),
                forall|k: int|
                    0 <= k < stored@.len() ==> (#[trigger] stored@[k]).0 <= stored@[k].1
                        && vertices@.contains(stored@[k].0) && vertices@.contains(stored@[k].1),
            decreases input.len() - i,
        {
            let e = edges[i];
            let ne = if e.0 <= e.1 {
                e
            } else {
                (e.1, e.0)
            };
            proof {
                assert(ne == norm_edge(input[i as int]));
            }
            let ghost prev_seq = stored@;
            edges_insert(&mut stored, ne);
            proof {
                assert forall|k: int|
                    0 <= k < stored@.len() implies (#[trigger] stored@[k]).0 <= stored@[k].1
                        && vertices@.contains(stored@[k].0) && vertices@.contains(
                        stored@[k].1,
                    ) by {
                    assert(stored@.contains(stored@[k]));
                    assert(stored@.to_set().contains(stored@[k]));
                    if stored@[k] != ne {
                        assert(prev_seq.to_set().contains(stored@[k]));
                        let m = choose|m: int| 0 <= m < prev_seq.len() && prev_seq[m] == stored@[k];
                        assert(prev_seq[m].0 <= prev_seq[m].1 && vertices@.contains(prev_seq[m].0)
                            && vertices@.contains(prev_seq[m].1));
                    }
                }
                let f = |e: (usize, usize)| norm_edge(e);
                assert(input.take(i + 1).drop_last() =~= input.take(i as int));
                assert(input.take(i + 1).map_values(f).drop_last() =~= input.take(
                    i as int,
                ).map_values(f));
                let mapped = input.take(i + 1).map_values(f);
                assert(mapped.last() == ne);
                assert(mapped.to_set() =~= mapped.drop_last().to_set().insert(ne)) by {
                    assert forall|x: (usize, usize)| mapped.to_set().contains(x) implies mapped.drop_last().to_set().insert(
                        ne,
                    ).contains(x) by {
                        let k = choose|k: int| 0 <= k < mapped.len() && mapped[k] == x;
                        if k < mapped.len() - 1 {
                            assert(mapped.drop_last()[k] == x);
                        }
                    }
                    assert forall|x: (usize, usize)|
                        mapped.drop_last().to_set().insert(ne).contains(x) implies mapped.to_set().contains(
                        x,
                    ) by {
                        if x == ne {
                            assert(mapped[mapped.len() - 1] == ne);
                        } else {
                            let k = choose|k: int|
                                0 <= k < mapped.drop_last().len() && mapped.drop_last()[k] == x;
                            assert(mapped[k] == x);
                        }
                    }
                }
            }
            i = i + 1;
        }
        proof {
            assert(input.take(input.len() as int) =~= input);
        }
        let r = UndirectedGraph { vertices, edges: stored };
        proof {
            let f = |e: (usize, usize)| norm_edge(e);
            assert forall|v: usize, w: usize|
                r.adjacent(v, w) == exists|k: int|
                    0 <= k < input.len() && connects(#[trigger] input[k], v, w) by {
                if r.adjacent(v, w) {
                    let k = choose|k: int|
                        0 <= k < r.edges@.len() && connects(#[trigger] r.edges@[k], v, w);
                    assert(r.edges@.to_set().contains(r.edges@[k]));
                    assert(input.map_values(f).to_set().contains(r.edges@[k]));
                    let m = choose|m: int|
                        0 <= m < input.map_values(f).len() && input.map_values(f)[m] == r.edges@[k];
                    assert(norm_edge(input[m]) == r.edges@[k]);
                    assert(connects(input[m], v, w));
                }
                if exists|k: int| 0 <= k < input.len() && connects(#[trigger] input[k], v, w) {
                    let k = choose|k: int| 0 <= k < input.len() && connects(#[trigger] input[k], v, w);
                    assert(input.map_values(f)[k] == norm_edge(input[k]));
                    assert(input.map_values(f).to_set().contains(norm_edge(input[k])));
                    assert(r.edges@.to_set().contains(norm_edge(input[k])));
                    let m = choose|m: int|
                        0 <= m < r.edges@.len() && r.edges@[m] == norm_edge(input[k]);
                    assert(connects(r.edges@[m], v, w));
                }
            }
        }
        r
    }

    /// Both endpoints of any adjacency are vertices.
    pub proof fn lemma_adjacent_in_vertices(&self, v: usize, w: usize)
        requires
            self.wf(),
            self.adjacent(v, w),
        ensures
            self.vertices@.contains(v),
            self.vertices@.contains(w),
    {
        let k = choose|k: int| 0 <= k < self.edges@.len() && connects(#[trigger] self.edges@[k], v, w);
        assert(self.vertices@.contains(self.edges@[k].0));
    }

    /// The full point set of the graph: its vertices.
    pub fn points(&self) -> (r: OpenSet)
        ensures
            r.items@ == self.vertices.items@,
            r@ == self.space_points(),
    {
        self.vertices.clone()
    }

    /// The full point set of the graph, under the name the space contract
    /// uses for iteration.
    pub fn elements(&self) -> (r: OpenSet)
        ensures
            r.items@ == self.vertices.items@,
            r@ == self.space_points(),
    {
        self.vertices.clone()
    }

    /// All vertices joined to `v` by an edge.
    pub fn neighborhood(&self, v: usize) -> (r: OpenSet)
        requires
            self.wf(),
        ensures
            r.wf(),
            forall|w: usize| r@.contains(w) == self.adjacent(v, w),
            r@ == self.space_neighborhood(v),
    {
        let mut out = OpenSet::new();
        let mut k: usize = 0;
        while k < self.edges.len()
            invariant
                0 <= k <= self.edges@.len(),
                self.wf(),
                out.wf(),
                forall|w: usize|
                    out@.contains(w) == exists|k2: int|
                        0 <= k2 < k && connects(#[trigger] self.edges@[k2], v, w),
            decreases self.edges@.len() - k,
        {
            let e = self.edges[k];
            let ghost prev = out@;
            if e.0 == v {
                out.insert(e.1);
            } else if e.1 == v {
                out.insert(e.0);
            }
            proof {
                assert forall|w: usize|
                    out@.contains(w) == exists|k2: int|
                        0 <= k2 < k + 1 && connects(#[trigger] self.edges@[k2], v, w) by {
                    if out@.contains(w) {
                        if prev.contains(w) {
                            let k2 = choose|k2: int|
                                0 <= k2 < k && connects(#[trigger] self.edges@[k2], v, w);
                            assert(connects(self.edges@[k2], v, w));
                        } else {
                            assert(connects(self.edges@[k as int], v, w));
                        }
                    }
                    if exists|k2: int|
                        0 <= k2 < k + 1 && connects(#[trigger] self.edges@[k2], v, w) {
                        let k2 = choose|k2: int|
                            0 <= k2 < k + 1 && connects(#[trigger] self.edges@[k2], v, w);
                        if k2 < k {
                            assert(prev.contains(w));
                        } else {
                            assert(connects(e, v, w));
                            assert(out@.contains(w));
                        }
                    }
                }
            }
            k = k + 1;
        }
        proof {
            assert(out@ =~= self.space_neighborhood(v));
        }
        out
    }

    /// The discrete openness policy: every set of points is open.  The
    /// graph's structure is carried by adjacency and distance, not by a
    /// topology.
    pub fn is_open(&self, set: &OpenSet) -> (r: bool)
        ensures
            r,
            r == self.space_is_open(set@),
    {
        let _ = set;
        true
    }

    /// Whether `a` can reach `b` along edges in at most `n` hops.
    pub open spec fn connected_within(&self, a: usize, b: usize, n: nat) -> bool
        decreases n,
    {
        if a == b {
            true
        } else if n == 0 {
            false
        } else {
            exists|w: usize|
                #[trigger] self.adjacent(w, b) && self.connected_within(a, w, (n - 1) as nat)
        }
    }

    /// Reachability within a hop bound is monotone in the bound.
    pub proof fn lemma_connected_monotone(&self, a: usize, b: usize, m: nat, n: nat)
        requires
            self.connected_within(a, b, m),
            m <= n,
        ensures
            self.connected_within(a, b, n),
        decreases m,
    {
        if a == b {
        } else {
            let w = choose|w: usize|
                #[trigger] self.adjacent(w, b) && self.connected_within(a, w, (m - 1) as nat);
            self.lemma_connected_monotone(a, w, (m - 1) as nat, (n - 1) as nat);
        }
    }

    /// Growing a reachability level by all neighbors yields the next level.
    proof fn lemma_level_step(&self, a: usize, level: nat, cur: Set<usize>, next: Set<usize>)
        requires
            forall|w: usize| cur.contains(w) == self.connected_within(a, w, level),
            forall|w: usize|
                next.contains(w) == (cur.contains(w) || exists|v: usize|
                    cur.contains(v) && #[trigger] self.adjacent(v, w)),
        ensures
            forall|w: usize| next.contains(w) == self.connected_within(a, w, level + 1),
    {
        assert forall|w: usize| next.contains(w) == self.connected_within(a, w, level + 1) by {
            if next.contains(w) {
                if cur.contains(w) {
                    self.lemma_connected_monotone(a, w, level, level + 1);
                } else {
                    let v = choose|v: usize| cur.contains(v) && #[trigger] self.adjacent(v, w);
                    assert(self.connected_within(a, v, level));
                    assert(self.connected_within(a, w, level + 1));
                }
            }
            if self.connected_within(a, w, level + 1) {
                if a == w {
                    assert(self.connected_within(a, w, level));
                    assert(cur.contains(w));
                } else {
                    let u = choose|u: usize|
                        #[trigger] self.adjacent(u, w) && self.connected_within(
                            a,
                            u,
                            (level + 1 - 1) as nat,
                        );
                    assert(cur.contains(u));
                    assert(next.contains(w));
                }
            }
        }
    }

    /// Once a reachability level stops growing, it holds everything
    /// reachable in any number of hops.
    proof fn lemma_level_fixpoint(&self, a: usize, level: nat, cur: Set<usize>, b: usize, n: nat)
        requires
            forall|w: usize| cur.contains(w) == self.connected_within(a, w, level),
            forall|w: usize| self.connected_within(a, w, level + 1) ==> cur.contains(w),
        ensures
            self.connected_within(a, b, n) ==> cur.contains(b),
        decreases n,
    {
        if self.connected_within(a, b, n) {
            if a == b {
                assert(self.connected_within(a, b, level));
            } else {
                let w = choose|w: usize|
                    #[trigger] self.adjacent(w, b) && self.connected_within(a, w, (n - 1) as nat);
                self.lemma_level_fixpoint(a, level, cur, w, (n - 1) as nat);
                assert(cur.contains(w));
                assert(self.connected_within(a, w, level));
                assert(self.connected_within(a, b, level + 1));
            }
        }
    }

    /// The minimum number of edge hops from `a` to `b`, found by breadth-
    /// first expansion of the reachable set; `None` when no path exists.
    /// Zero is reserved for `a == b`.
    pub fn distance(&self, a: usize, b: usize) -> (r: Option<usize>)
        requires
            self.wf(),
        ensures
            r matches Some(d) ==> self.connected_within(a, b, d as nat) && forall|m: nat|
                m < d ==> !self.connected_within(a, b, m),
            r is None ==> forall|n: nat| !self.connected_within(a, b, n),
            self.is_distance(a, b, r),
    {
        let mut cur = OpenSet::new();
        cur.insert(a);
        let mut level: usize = 0;
        let ghost bound = self.vertices@.insert(a);
        proof {
            vstd::seq_lib::seq_to_set_is_finite::<usize>(self.vertices.items@);
            assert(bound.finite());
            assert forall|w: usize| cur@.contains(w) == self.connected_within(a, w, level as nat) by {
                assert(Set::<usize>::empty().insert(a).contains(w) == (w == a));
            }
            lemma_strictly_increasing_no_duplicates(cur.items@);
            cur.items@.unique_seq_to_set();
            vstd::set_lib::lemma_len_subset(cur@, bound);
        }
        loop
            invariant
                self.wf(),
                cur.wf(),
                bound == self.vertices@.insert(a),
                bound.finite(),
                forall|w: usize| cur@.contains(w) == self.connected_within(a, w, level as nat),
                forall|m: nat| m < level ==> !self.connected_within(a, b, m),
                cur@.subset_of(bound),
                level < cur.items@.len(),
            decreases bound.len() - cur@.len(),
        {
            proof {
                lemma_strictly_increasing_no_duplicates(cur.items@);
                cur.items@.unique_seq_to_set();
            }
            if cur.contains(b) {
                proof {
                    assert(self.connected_within(a, b, level as nat));
                }
                return Some(level);
            }
            let mut next = cur.clone();
            let mut idx: usize = 0;
            while idx < cur.items.len()
                invariant
                    self.wf(),
                    cur.wf(),
                    next.wf(),
                    0 <= idx <= cur.items@.len(),
                    cur@.subset_of(next@),
                    forall|w: usize|
                        next@.contains(w) ==> cur@.contains(w) || exists|v: usize|
                            cur@.contains(v) && #[trigger] self.adjacent(v, w),
                    forall|k: int, w: usize|
                        0 <= k < idx && self.adjacent(cur.items@[k], w) ==> next@.contains(w),
                decreases cur.items@.len() - idx,
            {
                let v = cur.point_at(idx);
                let nb = self.neighborhood(v);
                let mut m: usize = 0;
                while m < nb.items.len()
                    invariant
                        self.wf(),
                        cur.wf(),
                        next.wf(),
                        nb.wf(),
                        0 <= m <= nb.items@.len(),
                        0 <= idx < cur.items@.len(),
                        v == cur.items@[idx as int],
                        cur@.contains(v),
                        forall|w: usize| nb@.contains(w) == self.adjacent(v, w),
                        cur@.subset_of(next@),
                        forall|w: usize|
                            next@.contains(w) ==> cur@.contains(w) || exists|u: usize|
                                cur@.contains(u) && #[trigger] self.adjacent(u, w),
                        forall|k: int, w: usize|
                            0 <= k < idx && self.adjacent(cur.items@[k], w) ==> next@.contains(w),
                        forall|t: int| 0 <= t < m ==> next@.contains(#[trigger] nb.items@[t]),
                    decreases nb.items@.len() - m,
                {
                    let p = nb.point_at(m);
                    next.insert(p);
                    proof {
                        assert(nb.items@.contains(p));
                        assert(nb@.contains(p));
                        assert(self.adjacent(v, p));
                    }
                    m = m + 1;
                }
                proof {
                    assert forall|w: usize| self.adjacent(cur.items@[idx as int], w) implies next@.contains(
                        w,
                    ) by {
                        assert(nb@.contains(w));
                        let t = choose|t: int| 0 <= t < nb.items@.len() && nb.items@[t] == w;
                        assert(next@.contains(nb.items@[t]));
                    }
                }
                idx = idx + 1;
            }
            proof {
                assert forall|w: usize|
                    next@.contains(w) == (cur@.contains(w) || exists|v: usize|
                        cur@.contains(v) && #[trigger] self.adjacent(v, w)) by {
                    if !next@.contains(w) {
                    }
                    if cur@.contains(w) {
                        assert(next@.contains(w));
                    }
                    if exists|v: usize| cur@.contains(v) && #[trigger] self.adjacent(v, w) {
                        let v = choose|v: usize| cur@.contains(v) && #[trigger] self.adjacent(v, w);
                        let k = choose|k: int|
                            0 <= k < cur.items@.len() && cur.items@[k] == v;
                        assert(self.adjacent(cur.items@[k], w));
                        assert(next@.contains(w));
                    }
                }
                self.lemma_level_step(a, level as nat, cur@, next@);
                assert(next@.subset_of(bound)) by {
                    assert forall|w: usize| next@.contains(w) implies bound.contains(w) by {
                        if !cur@.contains(w) {
                            let v = choose|v: usize|
                                cur@.contains(v) && #[trigger] self.adjacent(v, w);
                            self.lemma_adjacent_in_vertices(v, w);
                        }
                    }
                }
                lemma_strictly_increasing_no_duplicates(next.items@);
                next.items@.unique_seq_to_set();
                vstd::set_lib::lemma_len_subset(next@, bound);
            }
            if next == cur {
                proof {
                    assert(next.items@ == cur.items@);
                    assert forall|n: nat| !self.connected_within(a, b, n) by {
                        assert forall|w: usize|
                            self.connected_within(a, w, level as nat + 1) implies cur@.contains(
                            w,
                        ) by {
                            assert(next@.contains(w));
                        }
                        self.lemma_level_fixpoint(a, level as nat, cur@, b, n);
                        assert(!cur@.contains(b));
                    }
                }
                return None;
            }
            proof {
                assert(next@ != cur@) by {
                    if next@ == cur@ {
                        lemma_strictly_increasing_unique(next.items@, cur.items@);
                    }
                }
                assert(exists|x: usize| next@.contains(x) && !cur@.contains(x)) by {
                    if forall|x: usize| next@.contains(x) ==> cur@.contains(x) {
                        assert(next@ =~= cur@);
                    }
                }
                let x = choose|x: usize| next@.contains(x) && !cur@.contains(x);
                vstd::set_lib::lemma_len_subset(cur@, next@);
                assert(cur@.len() < next@.len()) by {
                    assert(cur@.subset_of(next@.remove(x)));
                    vstd::set_lib::lemma_len_subset(cur@, next@.remove(x));
                    assert(next@.remove(x).len() == next@.len() - 1);
                }
                lemma_strictly_increasing_no_duplicates(cur.items@);
                cur.items@.unique_seq_to_set();
                lemma_strictly_increasing_no_duplicates(next.items@);
                next.items@.unique_seq_to_set();
            }
            cur = next;
            level = level + 1;
        }
    }

    /// The restriction a presheaf over this space applies: the section cut
    /// down to `set_to`.
    pub fn restriction(&self, set_to: &OpenSet, section: &Section) -> (r: Section)
        requires
            set_to.wf(),
            section.wf(),
        ensures
            restricts(*section, *set_to, r),
    {
        section.restrict(set_to)
    }
}

impl TopologicalSpace for UndirectedGraph {
    type Point = usize;

    open spec fn space_points(&self) -> Set<usize> {
        self.vertices@
    }

    open spec fn space_neighborhood(&self, p: usize) -> Set<usize> {
        Set::new(|w: usize| self.adjacent(p, w))
    }

    open spec fn space_is_open(&self, s: Set<usize>) -> bool {
        true
    }
}

impl MetricSpace for UndirectedGraph {
    open spec fn is_distance(&self, a: usize, b: usize, d: Option<usize>) -> bool {
        match d {
            Some(k) => self.connected_within(a, b, k as nat) && forall|m: nat|
                m < k ==> !self.connected_within(a, b, m),
            None => forall|n: nat| !self.connected_within(a, b, n),
        }
    }
}

} // verus!
