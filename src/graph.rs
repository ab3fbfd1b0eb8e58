//! Undirected simple graphs on `0..n` stored as neighbour bitsets, and the
//! clique notions the solvers are stated over.
use crate::bitset::VertexSet;
use vstd::prelude::*;
use vstd::set_lib::{lemma_int_range, lemma_len_subset, set_int_range};

verus! {

/// A simple undirected graph on the vertices `0..n`.
pub struct Graph {
    n: usize,
    adj: Vec<VertexSet>,
}

impl Graph {
    /// The number of vertices.
    pub closed spec fn n(&self) -> nat {
        self.n as nat
    }

    /// The neighbours of `u` (empty for an id out of range).
    pub closed spec fn nbrs(&self, u: int) -> Set<int> {
        if 0 <= u < self.n {
            self.adj@[u]@
        } else {
            Set::empty()
        }
    }

    pub closed spec fn rows_ok(&self) -> bool {
        &&& self.adj@.len() == self.n
        &&& forall|u: int| 0 <= u < self.n ==> {
            &&& (#[trigger] self.adj@[u]).wf()
            &&& self.adj@[u].width() == self.n
        }
    }

    pub open spec fn wf(&self) -> bool {
        &&& self.rows_ok()
        &&& forall|u: int, v: int| #[trigger] self.nbrs(u).contains(v) ==> {
            &&& 0 <= u < self.n()
            &&& 0 <= v < self.n()
            &&& u != v
            &&& self.nbrs(v).contains(u)
        }
    }

    pub open spec fn adjacent(&self, u: int, v: int) -> bool {
        self.nbrs(u).contains(v)
    }

    pub open spec fn vertices(&self) -> Set<int> {
        Set::new(|i: int| 0 <= i < self.n())
    }

    /// Every member is a vertex, and every two distinct members are adjacent.
    pub open spec fn is_clique(&self, s: Set<int>) -> bool {
        &&& s.subset_of(self.vertices())
        &&& forall|u: int, v: int| s.contains(u) && s.contains(v) && u != v ==> #[trigger] self.adjacent(u, v)
    }

    /// The vertices outside `k` that are adjacent to every member of `k`:
    /// the legal one-vertex extensions of `k`.
    pub open spec fn extensions(&self, k: Set<int>) -> Set<int> {
        Set::new(|v: int| 0 <= v < self.n() && !k.contains(v) && forall|u: int| #[trigger] k.contains(u) ==> self.adjacent(u, v))
    }

    /// A clique that no vertex extends.
    pub open spec fn is_maximal_clique(&self, s: Set<int>) -> bool {
        self.is_clique(s) && self.extensions(s) == Set::<int>::empty()
    }

    /// A clique of the largest size in the graph.
    pub open spec fn is_maximum_clique(&self, s: Set<int>) -> bool {
        &&& self.is_clique(s)
        &&& forall|c: Set<int>| #[trigger] self.is_clique(c) ==> c.len() <= s.len()
    }

    /// The sum of the degrees of the vertices below `k`.
    pub open spec fn degree_total(&self, k: int) -> int
        decreases k,
    {
        if k <= 0 {
            0
        } else {
            self.degree_total(k - 1) + self.nbrs(k - 1).len()
        }
    }

    /// The vertex count fits in a `usize`.
    pub proof fn lemma_n_fits(&self)
        ensures
            self.n() <= usize::MAX,
    {
    }

    pub proof fn lemma_vertices_finite(&self)
        ensures
            self.vertices().finite(),
            self.vertices().len() == self.n(),
    {
        lemma_int_range(0, self.n() as int);
        assert(self.vertices() =~= set_int_range(0, self.n() as int));
    }

    /// A set of vertices is finite and no larger than the graph.
    pub proof fn lemma_vertex_subset(&self, s: Set<int>)
        requires
            s.subset_of(self.vertices()),
        ensures
            s.finite(),
            s.len() <= self.n(),
    {
        self.lemma_vertices_finite();
        lemma_len_subset(s, self.vertices());
    }

    /// The graph on `n` vertices without edges.
    pub fn new(n: usize) -> (r: Graph)
        ensures
            r.wf(),
            r.n() == n,
            forall|u: int| #[trigger] r.nbrs(u) == Set::<int>::empty(),
    {
        let mut adj: Vec<VertexSet> = Vec::new();
        let mut i: usize = 0;
        while i < n
            invariant
                i <= n,
                adj@.len() == i,
                forall|u: int| 0 <= u < i ==> (#[trigger] adj@[u]).wf() && adj@[u].width() == n && adj@[u]@ == Set::<int>::empty(),
            decreases n - i,
        {
            adj.push(VertexSet::new(n));
            i = i + 1;
        }
        Graph { n, adj }
    }

    pub fn node_count(&self) -> (r: usize)
        ensures
            r == self.n(),
    {
        self.n
    }

    /// The neighbour bitset of `u`.
    pub fn neighbors(&self, u: usize) -> (r: &VertexSet)
        requires
            self.wf(),
            u < self.n(),
        ensures
            r.wf(),
            r.width() == self.n(),
            r@ == self.nbrs(u as int),
    {
        &self.adj[u]
    }

    /// Adds the undirected edge `{u, v}`; a self-loop or an edge already
    /// present leaves the graph as it was.
    pub fn add_edge(&mut self, u: usize, v: usize)
        requires
            old(self).wf(),
            u < old(self).n(),
            v < old(self).n(),
        ensures
            final(self).wf(),
            final(self).n() == old(self).n(),
            forall|a: int, b: int| #[trigger] final(self).adjacent(a, b) <==> old(self).adjacent(a, b) || (u != v && ((a == u && b == v) || (a == v && b == u))),
    {
        if u == v {
            return;
        }
        let ghost before = *self;
        let mut ru = self.adj[u].clone();
        ru.insert(v);
        self.adj.set(u, ru);
        let mut rv = self.adj[v].clone();
        rv.insert(u);
        self.adj.set(v, rv);
        assert forall|w: int| #[trigger] self.nbrs(w) == if w == u { before.nbrs(w).insert(v as int) } else if w == v { before.nbrs(w).insert(u as int) } else { before.nbrs(w) } by {}
    }

    /// The same graph with vertex `order[i]` renamed `i`; `pos` is the inverse
    /// of `order`.
    pub fn relabeled(&self, order: &Vec<usize>, pos: &Vec<usize>) -> (h: Graph)
        requires
            self.wf(),
            order@.len() == self.n(),
            pos@.len() == self.n(),
            forall|i: int| 0 <= i < self.n() ==> #[trigger] order@[i] < self.n() && pos@[order@[i] as int] == i,
            forall|v: int| 0 <= v < self.n() ==> #[trigger] pos@[v] < self.n() && order@[pos@[v] as int] == v,
        ensures
            h.wf(),
            h.n() == self.n(),
            forall|a: int, b: int| #[trigger] h.adjacent(a, b) <==> 0 <= a < self.n() && 0 <= b < self.n() && self.adjacent(order@[a] as int, order@[b] as int),
    {
        let n = self.n;
        let mut adj: Vec<VertexSet> = Vec::new();
        let mut i: usize = 0;
        while i < n
            invariant
                self.wf(),
                n == self.n(),
                order@.len() == n,
                pos@.len() == n,
                forall|i: int| 0 <= i < n ==> #[trigger] order@[i] < n && pos@[order@[i] as int] == i,
                forall|v: int| 0 <= v < n ==> #[trigger] pos@[v] < n && order@[pos@[v] as int] == v,
                i <= n,
                adj@.len() == i,
                forall|a: int| 0 <= a < i ==> (#[trigger] adj@[a]).wf() && adj@[a].width() == n && forall|b: int| adj@[a]@.contains(b) <==> 0 <= b < n && self.adjacent(order@[a] as int, order@[b] as int),
            decreases n - i,
        {
            let src = order[i];
            let ws = self.adj[src].to_vec();
            let mut row = VertexSet::new(n);
            let mut t: usize = 0;
            while t < ws.len()
                invariant
                    self.wf(),
                    n == self.n(),
                    src < n,
                    pos@.len() == n,
                    forall|v: int| 0 <= v < n ==> #[trigger] pos@[v] < n && order@[pos@[v] as int] == v,
                    forall|k: int| 0 <= k < ws@.len() ==> self.nbrs(src as int).contains(ws@[k] as int),
                    t <= ws@.len(),
                    row.wf(),
                    row.width() == n,
                    row@ == Set::new(|j: int| exists|k: int| 0 <= k < t && pos@[ws@[k] as int] == j),
                decreases ws@.len() - t,
            {
                let w = ws[t];
                proof {
                    assert(self.nbrs(src as int).contains(w as int));
                }
                row.insert(pos[w]);
                t = t + 1;
                proof {
                    assert(row@ =~= Set::new(|j: int| exists|k: int| 0 <= k < t && pos@[ws@[k] as int] == j)) by {
                        assert forall|j: int| row@.contains(j) implies exists|k: int| 0 <= k < t && pos@[ws@[k] as int] == j by {
                            if j == pos@[w as int] {
                                assert(pos@[ws@[t - 1] as int] == j);
                            }
                        }
                    }
                }
            }
            proof {
                assert forall|b: int| row@.contains(b) <==> 0 <= b < n && self.adjacent(order@[i as int] as int, order@[b] as int) by {
                    if row@.contains(b) {
                        let k = choose|k: int| 0 <= k < t && pos@[ws@[k] as int] == b;
                        assert(self.nbrs(src as int).contains(ws@[k] as int));
                    }
                    if 0 <= b < n && self.adjacent(order@[i as int] as int, order@[b] as int) {
                        let w = order@[b] as int;
                        let k = choose|k: int| 0 <= k < ws@.len() && ws@[k] == w;
                        assert(pos@[ws@[k] as int] == b);
                    }
                }
            }
            adj.push(row);
            i = i + 1;
        }
        let h = Graph { n, adj };
        proof {
            assert forall|a: int, b: int| #[trigger] h.nbrs(a).contains(b) implies 0 <= a < h.n() && 0 <= b < h.n() && a != b && h.nbrs(b).contains(a) by {
                assert(self.adjacent(order@[a] as int, order@[b] as int));
                assert(self.adjacent(order@[b] as int, order@[a] as int));
                if a == b {
                    assert(false);
                }
            }
        }
        h
    }

    /// The number of neighbours of `u`.
    pub fn degree(&self, u: usize) -> (r: usize)
        requires
            self.wf(),
            u < self.n(),
        ensures
            r == self.nbrs(u as int).len(),
    {
        self.adj[u].count()
    }
}

} // verus!
