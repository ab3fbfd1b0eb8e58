//! The evolutionary solver: clique individuals with their possible-additions
//! sets, recombination, mutation, local search and a generational loop.
use crate::bitset::VertexSet;
use crate::graph::Graph;
use crate::max_clique::{ascending, ids};
use crate::random::{coin, new_rng, random_below, sample_distinct};
use rand::rngs::ThreadRng;
use rayon::iter::{IntoParallelIterator, ParallelIterator};
use vstd::prelude::*;
use vstd::set_lib::lemma_len_subset;

verus! {

/// A clique `K` of a graph together with its possible additions `PA`, the
/// vertices that extend `K` by one.
pub struct Clique {
    clique: VertexSet,
    pa: VertexSet,
}

impl Clone for Clique {
    fn clone(&self) -> (r: Clique)
        ensures
            r.members() == self.members(),
            r.additions() == self.additions(),
            r.widths() == self.widths(),
    {
        Clique { clique: self.clique.clone(), pa: self.pa.clone() }
    }
}

impl Clique {
    /// `K`.
    pub closed spec fn members(&self) -> Set<int> {
        self.clique@
    }

    /// `PA`.
    pub closed spec fn additions(&self) -> Set<int> {
        self.pa@
    }

    /// The widths of the two bitsets.
    pub closed spec fn widths(&self) -> (nat, nat) {
        (self.clique.width(), self.pa.width())
    }

    pub closed spec fn widths_ok(&self, g: &Graph) -> bool {
        &&& self.clique.wf()
        &&& self.pa.wf()
        &&& self.clique.width() == g.n()
        &&& self.pa.width() == g.n()
    }

    /// `K` is a clique of `g` and `PA` is exactly the set of its one-vertex
    /// extensions.
    pub open spec fn wf(&self, g: &Graph) -> bool {
        &&& self.widths_ok(g)
        &&& g.is_clique(self.members())
        &&& self.additions() == g.extensions(self.members())
    }

    /// The individual seeded with the single vertex `start`.
    pub fn new(g: &Graph, start: usize) -> (r: Clique)
        requires
            g.wf(),
            start < g.n(),
        ensures
            r.wf(g),
            r.members() == set![start as int],
    {
        let n = g.node_count();
        let mut clique = VertexSet::new(n);
        clique.insert(start);
        let mut pa = g.neighbors(start).clone();
        pa.remove(start);
        let r = Clique { clique, pa };
        proof {
            assert(r.members() =~= set![start as int]);
            assert(r.additions() =~= g.extensions(r.members())) by {
                let k = r.members();
                assert forall|v: int| r.additions().contains(v) <==> #[trigger] g.extensions(k).contains(v) by {
                    if r.additions().contains(v) {
                        assert(g.nbrs(start as int).contains(v));
                        assert forall|u: int| #[trigger] k.contains(u) implies g.adjacent(u, v) by {
                            assert(u == start as int);
                        }
                    }
                    if g.extensions(k).contains(v) {
                        assert(k.contains(start as int));
                        assert(g.adjacent(start as int, v));
                    }
                }
            }
        }
        r
    }

    /// The members of `K` in ascending order.
    pub fn clique_vertices(&self, g: &Graph) -> (r: Vec<usize>)
        requires
            self.wf(g),
        ensures
            ids(r@) == self.members(),
            ascending(r@),
    {
        let r = self.clique.to_vec();
        proof {
            assert(ids(r@) =~= self.members());
        }
        r
    }

    /// The members of `PA` in ascending order.
    pub fn pa_vertices(&self, g: &Graph) -> (r: Vec<usize>)
        requires
            self.wf(g),
        ensures
            ids(r@) == self.additions(),
            ascending(r@),
    {
        let r = self.pa.to_vec();
        proof {
            assert(ids(r@) =~= self.additions());
        }
        r
    }

    /// The number of members of `K`.
    pub fn size(&self, g: &Graph) -> (r: usize)
        requires
            self.wf(g),
        ensures
            r == self.members().len(),
    {
        self.clique.count()
    }

    /// Adds `node` to `K`: it must be a possible addition, or already in `K`,
    /// where nothing changes.
    pub fn add_vertex(&mut self, g: &Graph, node: usize)
        requires
            g.wf(),
            old(self).wf(g),
            old(self).additions().contains(node as int) || old(self).members().contains(node as int),
        ensures
            final(self).wf(g),
            final(self).members() == old(self).members().insert(node as int),
    {
        if !self.clique.contains(node) {
            let ghost k0 = self.members();
            let ghost pa0 = self.additions();
            self.clique.insert(node);
            self.pa.intersect_with(g.neighbors(node));
            self.pa.remove(node);
            proof {
                let k1 = k0.insert(node as int);
                assert(g.is_clique(k1)) by {
                    assert forall|a: int, b: int| k1.contains(a) && k1.contains(b) && a != b implies #[trigger] g.adjacent(a, b) by {
                        if a == node as int {
                            assert(g.adjacent(b, a));
                        } else if b == node as int {
                        } else {
                            assert(k0.contains(a) && k0.contains(b));
                        }
                    }
                }
                assert(self.additions() =~= g.extensions(k1)) by {
                    assert forall|v: int| self.additions().contains(v) <==> #[trigger] g.extensions(k1).contains(v) by {
                        if g.extensions(k1).contains(v) {
                            assert(k1.contains(node as int));
                            assert(g.adjacent(node as int, v));
                            assert(g.nbrs(node as int).contains(v));
                            assert forall|u: int| #[trigger] k0.contains(u) implies g.adjacent(u, v) by {
                                assert(k1.contains(u));
                            }
                            assert(g.extensions(k0).contains(v));
                            assert(pa0.contains(v));
                        }
                    }
                }
            }
        } else {
            proof {
                assert(self.members() =~= self.members().insert(node as int));
            }
        }
    }

    /// Removes `node` from `K` (nothing changes where it is not there) and
    /// recomputes `PA` from the members that remain.
    pub fn remove_vertex(&mut self, g: &Graph, node: usize)
        requires
            g.wf(),
            old(self).wf(g),
        ensures
            final(self).wf(g),
            final(self).members() == old(self).members().remove(node as int),
    {
        if node >= g.node_count() || !self.clique.contains(node) {
            proof {
                assert(self.members() =~= self.members().remove(node as int));
            }
            return;
        }
        let n = g.node_count();
        let mut remaining = self.clique.clone();
        remaining.remove(node);
        let rest = remaining.to_vec();
        let mut pa = VertexSet::full(n);
        let mut i: usize = 0;
        while i < rest.len()
            invariant
                g.wf(),
                remaining.wf(),
                pa.wf(),
                pa.width() == n,
                n == g.n(),
                i <= rest@.len(),
                forall|k: int| 0 <= k < rest@.len() ==> remaining@.contains(rest@[k] as int),
                forall|j: int| remaining@.contains(j) ==> exists|k: int| 0 <= k < rest@.len() && rest@[k] == j,
                remaining@.subset_of(g.vertices()),
                pa@ == Set::new(|v: int| 0 <= v < n && forall|k: int| 0 <= k < i ==> g.adjacent(#[trigger] rest@[k] as int, v)),
            decreases rest@.len() - i,
        {
            let u = rest[i];
            pa.intersect_with(g.neighbors(u));
            i = i + 1;
            proof {
                assert(pa@ =~= Set::new(|v: int| 0 <= v < n && forall|k: int| 0 <= k < i ==> g.adjacent(#[trigger] rest@[k] as int, v))) by {
                    assert forall|v: int| pa@.contains(v) implies (0 <= v < n && forall|k: int| 0 <= k < i ==> g.adjacent(#[trigger] rest@[k] as int, v)) by {
                        assert forall|k: int| 0 <= k < i implies g.adjacent(#[trigger] rest@[k] as int, v) by {
                            if k == i - 1 {
                                assert(g.nbrs(u as int).contains(v));
                            }
                        }
                    }
                }
            }
        }
        pa.difference_with(&remaining);
        self.clique = remaining;
        self.pa = pa;
        proof {
            let k1 = self.members();
            assert(self.additions() =~= g.extensions(k1)) by {
                assert forall|v: int| self.additions().contains(v) <==> #[trigger] g.extensions(k1).contains(v) by {
                    if self.additions().contains(v) {
                        assert forall|u: int| #[trigger] k1.contains(u) implies g.adjacent(u, v) by {
                            let k = choose|k: int| 0 <= k < rest@.len() && rest@[k] == u;
                            assert(g.adjacent(rest@[k] as int, v));
                        }
                    }
                    if g.extensions(k1).contains(v) {
                        assert forall|k: int| 0 <= k < rest@.len() implies g.adjacent(#[trigger] rest@[k] as int, v) by {
                            assert(k1.contains(rest@[k] as int));
                        }
                    }
                }
            }
        }
    }
    /// The number of neighbours of `node` inside `subgraph`.
    pub fn degree_in_subgraph(&self, g: &Graph, node: usize, subgraph: &VertexSet) -> (r: usize)
        requires
            g.wf(),
            node < g.n(),
        ensures
            r == g.nbrs(node as int).intersect(subgraph@).len(),
    {
        let mut t = g.neighbors(node).clone();
        t.intersect_with(subgraph);
        t.count()
    }

    /// Adds the possible additions one by one, by decreasing degree inside the
    /// current `PA` (smaller id first on a tie), skipping those that an earlier
    /// addition ruled out. The result is a maximal clique holding the old one.
    pub fn greedy_expand_in_pa(&mut self, g: &Graph)
        requires
            g.wf(),
            old(self).wf(g),
        ensures
            final(self).wf(g),
            old(self).members().subset_of(final(self).members()),
            g.is_maximal_clique(final(self).members()),
            final(self).members() == greedy_expansion(g, old(self).members()),
    {
        let snapshot = self.pa.clone();
        let sorted = ranked_by_degree(g, &snapshot);
        let ghost k0 = self.members();
        proof {
            assert(sorted@.subrange(0, sorted@.len() as int) =~= sorted@);
        }
        let mut j: usize = 0;
        while j < sorted.len()
            invariant
                g.wf(),
                self.wf(g),
                k0.subset_of(self.members()),
                self.additions().subset_of(snapshot@),
                j <= sorted@.len(),
                forall|k: int| 0 <= k < j ==> !self.additions().contains((#[trigger] sorted@[k]).0 as int),
                greedy_expansion(g, k0) == greedy_from(g, self.members(), sorted@.subrange(j as int, sorted@.len() as int)),
            decreases sorted@.len() - j,
        {
            let node = sorted[j].0;
            proof {
                let rest = sorted@.subrange(j as int, sorted@.len() as int);
                assert(rest[0] == sorted@[j as int]);
                assert(rest.drop_first() =~= sorted@.subrange(j + 1, sorted@.len() as int));
            }
            if self.pa.contains(node) {
                let ghost k1 = self.members();
                let ghost pa1 = self.additions();
                self.add_vertex(g, node);
                proof {
                    let k2 = self.members();
                    assert forall|v: int| self.additions().contains(v) implies pa1.contains(v) by {
                        assert(g.extensions(k2).contains(v));
                        assert forall|u: int| #[trigger] k1.contains(u) implies g.adjacent(u, v) by {
                            assert(k2.contains(u));
                        }
                        assert(g.extensions(k1).contains(v));
                    }
                    assert(!self.additions().contains(node as int));
                }
            }
            j = j + 1;
        }
        proof {
            assert(sorted@.subrange(j as int, sorted@.len() as int) =~= Seq::<(usize, usize)>::empty());
            assert(self.additions() =~= Set::<int>::empty()) by {
                assert forall|v: int| !self.additions().contains(v) by {
                    if self.additions().contains(v) {
                        g.lemma_n_fits();
                        assert(g.nbrs(v).intersect(snapshot@).subset_of(g.vertices()));
                        g.lemma_vertex_subset(g.nbrs(v).intersect(snapshot@));
                        let x = (v as usize, g.nbrs(v).intersect(snapshot@).len() as usize);
                        assert(sorted@.contains(x));
                        let m = choose|m: int| 0 <= m < sorted@.len() && sorted@[m] == x;
                        assert(!self.additions().contains(sorted@[m].0 as int));
                    }
                }
            }
        }
    }

    /// Replaces `K` by the largest of `iteration` tries, each of which drops
    /// two random members and expands greedily again (no try where `|K| <= 1`).
    /// `K` changes only to a strictly larger clique.
    pub fn local_improvement(&mut self, g: &Graph, iteration: usize, rng: &mut ThreadRng)
        requires
            g.wf(),
            old(self).wf(g),
        ensures
            final(self).wf(g),
            final(self).members().len() >= old(self).members().len(),
            g.is_maximal_clique(old(self).members()) ==> g.is_maximal_clique(final(self).members()),
            iteration == 0 || old(self).members().len() <= 1 ==> final(self).members() == old(self).members(),
            final(self).members() == old(self).members() || (final(self).members().len() > old(self).members().len() && exists|a: int, b: int|
                a != b && old(self).members().contains(a) && old(self).members().contains(b) && final(self).members() == #[trigger] greedy_expansion(g, old(self).members().remove(a).remove(b))),
            iteration > 0 && old(self).members().len() >= 2 && (forall|a: int, b: int| a != b && old(self).members().contains(a) && old(self).members().contains(b) ==> #[trigger] greedy_expansion(g, old(self).members().remove(a).remove(b)).len() > old(self).members().len()) ==> final(self).members().len() > old(self).members().len(),
    {
        let ghost k0 = self.members();
        let mut best = self.clone();
        let mut best_size = best.size(g);
        let mut it: usize = 0;
        while it < iteration
            invariant
                g.wf(),
                self.wf(g),
                self.members() == k0,
                best.wf(g),
                best_size == best.members().len(),
                best_size >= k0.len(),
                g.is_maximal_clique(k0) ==> g.is_maximal_clique(best.members()),
                best.members() == k0 || (best.members().len() > k0.len() && exists|a: int, b: int|
                    a != b && k0.contains(a) && k0.contains(b) && best.members() == #[trigger] greedy_expansion(g, k0.remove(a).remove(b))),
                k0.len() <= 1 || it == 0 ==> best.members() == k0,
                it > 0 && k0.len() >= 2 && (forall|a: int, b: int| a != b && k0.contains(a) && k0.contains(b) ==> #[trigger] greedy_expansion(g, k0.remove(a).remove(b)).len() > k0.len()) ==> best_size > k0.len(),
                it <= iteration,
            decreases iteration - it,
        {
            let mut temp = self.clone();
            let nodes = temp.clique.to_vec();
            if nodes.len() > 1 {
                let (a, b) = pick_two(nodes.len(), rng);
                let x = nodes[a];
                let y = nodes[b];
                temp.remove_vertex(g, x);
                temp.remove_vertex(g, y);
                temp.greedy_expand_in_pa(g);
                proof {
                    assert(nodes@[a as int] != nodes@[b as int]) by {
                        assert(nodes@.no_duplicates());
                    }
                    assert(k0.contains(x as int) && k0.contains(y as int));
                    assert(temp.members() == greedy_expansion(g, k0.remove(x as int).remove(y as int)));
                }
            }
            let temp_size = temp.size(g);
            if temp_size > best_size {
                proof {
                    if nodes.len() <= 1 {
                        assert(temp.members() == self.members());
                    }
                }
                best = temp;
                best_size = temp_size;
            }
            it = it + 1;
        }
        *self = best;
    }
}

/// A clique that extends another has no extension the smaller one lacks.
pub proof fn lemma_extensions_shrink(g: &Graph, k1: Set<int>, k2: Set<int>)
    requires
        k1.subset_of(k2),
    ensures
        g.extensions(k2).subset_of(g.extensions(k1)),
{
    assert forall|v: int| g.extensions(k2).contains(v) implies g.extensions(k1).contains(v) by {
        assert forall|u: int| #[trigger] k1.contains(u) implies g.adjacent(u, v) by {
            assert(k2.contains(u));
        }
    }
}

/// In a graph with a vertex, a maximal clique has a member.
pub proof fn lemma_maximal_nonempty(g: &Graph, s: Set<int>)
    requires
        g.n() > 0,
        g.is_maximal_clique(s),
    ensures
        s != Set::<int>::empty(),
{
    if s == Set::<int>::empty() {
        assert(g.extensions(s).contains(0));
    }
}

/// Two indices below `len`, distinct where `len >= 2`.
pub fn pick_two(len: usize, rng: &mut ThreadRng) -> (r: (usize, usize))
    requires
        len > 0,
    ensures
        r.0 < len,
        r.1 < len,
        len >= 2 ==> r.0 != r.1,
{
    let samples = sample_distinct(rng, len, 2);
    if samples.len() == 2 {
        proof {
            assert(samples@[0] != samples@[1]) by {
                assert(samples@.no_duplicates());
            }
        }
        (samples[0], samples[1])
    } else {
        (0, 0)
    }
}

/// `a` comes before `b`: a larger degree first, a smaller id on a tie.
pub open spec fn precedes(a: (usize, usize), b: (usize, usize)) -> bool {
    a.1 > b.1 || (a.1 == b.1 && a.0 < b.0)
}

/// `q` lists exactly the pairs `(v, d)` with `v` in `s` and `d` the number
/// of neighbours of `v` inside `s`, strictly in `precedes` order.
pub open spec fn ranks(g: &Graph, s: Set<int>, q: Seq<(usize, usize)>) -> bool {
    &&& forall|x: (usize, usize)| #[trigger] q.contains(x) <==> s.contains(x.0 as int) && x.1 as nat == g.nbrs(x.0 as int).intersect(s).len()
    &&& forall|i: int, j: int| 0 <= i < j < q.len() ==> precedes(#[trigger] q[i], #[trigger] q[j])
}

/// The members of `s` with their degrees inside `s`, by decreasing degree and
/// then increasing id.
pub open spec fn degree_ranked(g: &Graph, s: Set<int>) -> Seq<(usize, usize)> {
    choose|q: Seq<(usize, usize)>| ranks(g, s, q)
}

/// Grows `k` by the vertices of `q` in turn, each one that still extends it.
pub open spec fn greedy_from(g: &Graph, k: Set<int>, q: Seq<(usize, usize)>) -> Set<int>
    decreases q.len(),
{
    if q.len() == 0 {
        k
    } else {
        let v = q[0].0 as int;
        greedy_from(g, if g.extensions(k).contains(v) { k.insert(v) } else { k }, q.drop_first())
    }
}

/// The greedy expansion of the clique `k`: its extensions, ranked by their
/// degree among themselves, added one by one while they still extend it.
pub open spec fn greedy_expansion(g: &Graph, k: Set<int>) -> Set<int> {
    greedy_from(g, k, degree_ranked(g, g.extensions(k)))
}

/// Two strictly ordered lists of the same pairs are equal.
pub proof fn lemma_ranked_unique(q1: Seq<(usize, usize)>, q2: Seq<(usize, usize)>)
    requires
        forall|x: (usize, usize)| q1.contains(x) <==> q2.contains(x),
        forall|i: int, j: int| 0 <= i < j < q1.len() ==> precedes(#[trigger] q1[i], #[trigger] q1[j]),
        forall|i: int, j: int| 0 <= i < j < q2.len() ==> precedes(#[trigger] q2[i], #[trigger] q2[j]),
    ensures
        q1 == q2,
    decreases q1.len(),
{
    if q1.len() == 0 {
        if q2.len() > 0 {
            assert(q2.contains(q2[0]));
        }
        assert(q1 =~= q2);
    } else {
        assert(q1.contains(q1[0]));
        let j = choose|j: int| 0 <= j < q2.len() && q2[j] == q1[0];
        assert(q2.contains(q2[0]));
        let i = choose|i: int| 0 <= i < q1.len() && q1[i] == q2[0];
        if j > 0 {
            assert(precedes(q2[0], q2[j]));
            if i > 0 {
                assert(precedes(q1[0], q1[i]));
            }
        }
        assert(q1[0] == q2[0]);
        let r1 = q1.drop_first();
        let r2 = q2.drop_first();
        assert forall|x: (usize, usize)| r1.contains(x) <==> r2.contains(x) by {
            if r1.contains(x) {
                let a = choose|a: int| 0 <= a < r1.len() && r1[a] == x;
                assert(precedes(q1[0], q1[a + 1]));
                assert(q2.contains(x));
                let b = choose|b: int| 0 <= b < q2.len() && q2[b] == x;
                assert(b != 0);
                assert(r2[b - 1] == x);
            }
            if r2.contains(x) {
                let a = choose|a: int| 0 <= a < r2.len() && r2[a] == x;
                assert(precedes(q2[0], q2[a + 1]));
                assert(q1.contains(x));
                let b = choose|b: int| 0 <= b < q1.len() && q1[b] == x;
                assert(b != 0);
                assert(r1[b - 1] == x);
            }
        }
        assert forall|a: int, b: int| 0 <= a < b < r1.len() implies precedes(#[trigger] r1[a], #[trigger] r1[b]) by {
            assert(precedes(q1[a + 1], q1[b + 1]));
        }
        assert forall|a: int, b: int| 0 <= a < b < r2.len() implies precedes(#[trigger] r2[a], #[trigger] r2[b]) by {
            assert(precedes(q2[a + 1], q2[b + 1]));
        }
        lemma_ranked_unique(r1, r2);
        assert(q1 =~= seq![q1[0]] + r1);
        assert(q2 =~= seq![q2[0]] + r2);
    }
}

/// The members of `s` with their degrees inside `s`, ranked by `precedes`.
pub fn ranked_by_degree(g: &Graph, s: &VertexSet) -> (r: Vec<(usize, usize)>)
    requires
        g.wf(),
        s.wf(),
        s.width() == g.n(),
    ensures
        r@ == degree_ranked(g, s@),
        ranks(g, s@, r@),
{
    let nodes = s.to_vec();
    let mut keyed: Vec<(usize, usize)> = Vec::new();
    let mut i: usize = 0;
    while i < nodes.len()
        invariant
            g.wf(),
            s.wf(),
            s.width() == g.n(),
            i <= nodes@.len(),
            keyed@.len() == i,
            forall|k: int| 0 <= k < nodes@.len() ==> s@.contains(nodes@[k] as int),
            forall|k: int| 0 <= k < i ==> (#[trigger] keyed@[k]).0 == nodes@[k] && keyed@[k].1 as nat == g.nbrs(nodes@[k] as int).intersect(s@).len(),
        decreases nodes@.len() - i,
    {
        let mut t = g.neighbors(nodes[i]).clone();
        t.intersect_with(s);
        let d = t.count();
        keyed.push((nodes[i], d));
        i = i + 1;
    }
    let sorted = sort_by_degree(&keyed);
    proof {
        assert(keyed@.no_duplicates()) by {
            assert forall|a: int, b: int| 0 <= a < keyed@.len() && 0 <= b < keyed@.len() && a != b implies keyed@[a] != keyed@[b] by {
                assert(nodes@[a] != nodes@[b]);
            }
        }
        keyed@.unique_seq_to_set();
        assert(sorted@.to_set() =~= keyed@.to_set());
        sorted@.lemma_no_dup_set_cardinality();
        assert forall|x: (usize, usize)| #[trigger] sorted@.contains(x) <==> s@.contains(x.0 as int) && x.1 as nat == g.nbrs(x.0 as int).intersect(s@).len() by {
            if sorted@.contains(x) {
                assert(keyed@.contains(x));
            }
            if s@.contains(x.0 as int) && x.1 as nat == g.nbrs(x.0 as int).intersect(s@).len() {
                let k = choose|k: int| 0 <= k < nodes@.len() && nodes@[k] == x.0;
                assert(keyed@[k] == x);
                assert(keyed@.contains(x));
            }
        }
        assert forall|a: int, b: int| 0 <= a < b < sorted@.len() implies precedes(#[trigger] sorted@[a], #[trigger] sorted@[b]) by {
            assert(sorted@.contains(sorted@[a]));
            assert(sorted@.contains(sorted@[b]));
            assert(sorted@[a] != sorted@[b]);
            assert(!precedes(sorted@[b], sorted@[a]));
        }
        assert(ranks(g, s@, sorted@));
        lemma_ranked_unique(sorted@, degree_ranked(g, s@));
    }
    sorted
}

/// The pairs `(vertex, degree)` of `v`, ordered by `precedes`.
pub fn sort_by_degree(v: &Vec<(usize, usize)>) -> (r: Vec<(usize, usize)>)
    ensures
        r@.len() == v@.len(),
        forall|x: (usize, usize)| r@.contains(x) <==> v@.contains(x),
        forall|i: int, j: int| 0 <= i < j < r@.len() ==> !precedes(r@[j], r@[i]),
{
    let mut out: Vec<(usize, usize)> = Vec::new();
    let mut i: usize = 0;
    while i < v.len()
        invariant
            i <= v@.len(),
            out@.len() == i,
            forall|x: (usize, usize)| out@.contains(x) <==> v@.subrange(0, i as int).contains(x),
            forall|a: int, b: int| 0 <= a < b < out@.len() ==> !precedes(out@[b], out@[a]),
        decreases v@.len() - i,
    {
        let x = v[i];
        let mut pos: usize = 0;
        while pos < out.len() && !(x.1 > out[pos].1 || (x.1 == out[pos].1 && x.0 < out[pos].0))
            invariant
                pos <= out@.len(),
                forall|k: int| 0 <= k < pos ==> !precedes(x, out@[k]),
            decreases out@.len() - pos,
        {
            pos = pos + 1;
        }
        let ghost before = out@;
        let ghost pre0 = v@.subrange(0, i as int);
        let ghost pre1 = v@.subrange(0, i + 1);
        out.insert(pos, x);
        i = i + 1;
        proof {
            assert(out@ == before.insert(pos as int, x));
            assert(pre1 == v@.subrange(0, i as int));
            assert forall|y: (usize, usize)| out@.contains(y) <==> pre1.contains(y) by {
                if out@.contains(y) {
                    let k = choose|k: int| 0 <= k < out@.len() && out@[k] == y;
                    if k < pos {
                        assert(before[k] == y);
                        assert(before.contains(y));
                    } else if k > pos {
                        assert(before[k - 1] == y);
                        assert(before.contains(y));
                    } else {
                        assert(pre1[i - 1] == y);
                    }
                    if y != x {
                        assert(pre0.contains(y));
                        let k2 = choose|k2: int| 0 <= k2 < pre0.len() && pre0[k2] == y;
                        assert(pre1[k2] == y);
                    }
                }
                if pre1.contains(y) {
                    let k = choose|k: int| 0 <= k < pre1.len() && pre1[k] == y;
                    if k == i - 1 {
                        assert(out@[pos as int] == y);
                    } else {
                        assert(pre0[k] == y);
                        assert(before.contains(y));
                        let k2 = choose|k2: int| 0 <= k2 < before.len() && before[k2] == y;
                        if k2 < pos {
                            assert(out@[k2] == y);
                        } else {
                            assert(out@[k2 + 1] == y);
                        }
                    }
                }
            }
            assert forall|a: int, b: int| 0 <= a < b < out@.len() implies !precedes(out@[b], out@[a]) by {
                if b < pos {
                } else if b == pos {
                } else if a < pos {
                    if pos < before.len() {
                    }
                } else if a == pos {
                    assert(precedes(x, before[pos as int]));
                    assert(out@[b] == before[b - 1]);
                    if b - 1 > pos {
                        assert(!precedes(before[b - 1], before[pos as int]));
                    }
                } else {
                    assert(out@[a] == before[a - 1]);
                    assert(out@[b] == before[b - 1]);
                }
            }
        }
    }
    proof {
        assert(v@.subrange(0, i as int) =~= v@);
    }
    out
}

/// `v` has the largest degree of `g`, and no smaller id has as large a one.
pub open spec fn is_max_degree_vertex(g: &Graph, v: int) -> bool {
    &&& 0 <= v < g.n()
    &&& forall|w: int| 0 <= w < g.n() ==> #[trigger] g.nbrs(w).len() <= g.nbrs(v).len()
    &&& forall|w: int| 0 <= w < v ==> #[trigger] g.nbrs(w).len() < g.nbrs(v).len()
}

/// The vertex of largest degree, the smallest such id on a tie.
pub open spec fn max_degree_vertex(g: &Graph) -> int {
    choose|v: int| is_max_degree_vertex(g, v)
}

/// The clique grown greedily from the vertex of largest degree.
pub open spec fn seed_clique(g: &Graph) -> Set<int> {
    greedy_expansion(g, set![max_degree_vertex(g)])
}

/// At most one vertex has the largest degree with no smaller id as large.
pub proof fn lemma_max_degree_vertex_unique(g: &Graph, v: int)
    requires
        is_max_degree_vertex(g, v),
    ensures
        max_degree_vertex(g) == v,
{
    let w = max_degree_vertex(g);
    assert(is_max_degree_vertex(g, w));
    if w < v {
        assert(g.nbrs(w).len() < g.nbrs(v).len());
    } else if v < w {
        assert(g.nbrs(v).len() < g.nbrs(w).len());
    }
}

/// Greedy growth keeps what it starts from.
pub proof fn lemma_greedy_keeps(g: &Graph, k: Set<int>, q: Seq<(usize, usize)>)
    ensures
        k.subset_of(greedy_from(g, k, q)),
    decreases q.len(),
{
    if q.len() > 0 {
        let v = q[0].0 as int;
        let k2 = if g.extensions(k).contains(v) { k.insert(v) } else { k };
        lemma_greedy_keeps(g, k2, q.drop_first());
    }
}

/// In a graph with an edge, the seed clique has at least two members.
proof fn lemma_seed_has_edge(g: &Graph, v: int, a: int, b: int)
    requires
        g.wf(),
        is_max_degree_vertex(g, v),
        g.adjacent(a, b),
        g.is_maximal_clique(seed_clique(g)),
    ensures
        seed_clique(g).len() >= 2,
{
    lemma_max_degree_vertex_unique(g, v);
    let s = seed_clique(g);
    lemma_greedy_keeps(g, set![v], degree_ranked(g, g.extensions(set![v])));
    assert(s.contains(v));
    assert(g.nbrs(a).contains(b));
    g.lemma_vertex_subset(g.nbrs(a));
    assert(g.nbrs(a).len() > 0);
    assert(g.nbrs(v).len() >= g.nbrs(a).len());
    if forall|w: int| !g.nbrs(v).contains(w) {
        assert(g.nbrs(v) =~= Set::<int>::empty());
    }
    let w = choose|w: int| g.nbrs(v).contains(w);
    if forall|z: int| s.contains(z) ==> z == v {
        assert(s =~= set![v]);
        assert(g.extensions(s).contains(w));
    }
    let z = choose|z: int| !(s.contains(z) ==> z == v);
    g.lemma_vertex_subset(s);
    lemma_len_subset(set![v, z], s);
}

/// The vertex of largest degree, the smallest such id on a tie.
pub fn max_degree_node(g: &Graph) -> (r: usize)
    requires
        g.wf(),
        g.n() > 0,
    ensures
        is_max_degree_vertex(g, r as int),
{
    let n = g.node_count();
    let mut best: usize = 0;
    let mut best_deg = g.degree(0);
    let mut i: usize = 1;
    while i < n
        invariant
            g.wf(),
            n == g.n(),
            1 <= i <= n,
            best < i,
            best_deg == g.nbrs(best as int).len(),
            forall|w: int| 0 <= w < i ==> #[trigger] g.nbrs(w).len() <= best_deg,
            forall|w: int| 0 <= w < best ==> #[trigger] g.nbrs(w).len() < best_deg,
        decreases n - i,
    {
        let d = g.degree(i);
        if d > best_deg {
            best = i;
            best_deg = d;
        }
        i = i + 1;
    }
    best
}

/// The parameters of the evolutionary solver.
pub struct GAConfig {
    /// Individuals per generation.
    pub population_size: usize,
    /// Generations run.
    pub max_generations: usize,
    /// Generations without a better clique before the population restarts.
    pub shuffle_tolerance: usize,
    /// Tries of each local improvement.
    pub local_improvement_iter: usize,
}

impl Clone for GAConfig {
    fn clone(&self) -> (r: GAConfig)
        ensures
            r == *self,
    {
        GAConfig {
            population_size: self.population_size,
            max_generations: self.max_generations,
            shuffle_tolerance: self.shuffle_tolerance,
            local_improvement_iter: self.local_improvement_iter,
        }
    }
}

impl Default for GAConfig {
    fn default() -> (r: GAConfig)
        ensures
            r.population_size == 10,
            r.max_generations == 300,
            r.shuffle_tolerance == 10,
            r.local_improvement_iter == 10,
    {
        GAConfig {
            population_size: 10,
            max_generations: 300,
            shuffle_tolerance: 10,
            local_improvement_iter: 10,
        }
    }
}

/// Relies on rayon's `into_par_iter().map_init(..).collect()`: `offspring`
/// is called once for each of the `count` slots, with a generator that
/// `rand::rng` gave the worker, and the children are collected in slot order.
#[verifier::external_body]
fn breed_in_parallel(ga: &GeneticAlgorithm, g: &Graph, count: usize) -> (r: Vec<Clique>)
    requires
        g.wf(),
        ga.wf(g),
    ensures
        r@.len() == count,
        forall|i: int| 0 <= i < count ==> (#[trigger] r@[i]).wf(g) && g.is_maximal_clique(r@[i].members()),
{
    (0..count).into_par_iter().map_init(rand::rng, |rng, _| ga.offspring(g, rng)).collect()
}

/// `pop` is a population as a search starts it with `size` individuals:
/// greedy expansions from `min(size - 1, n)` distinct vertices, then the
/// seed clique.
pub open spec fn fresh_population(g: &Graph, size: int, pop: Seq<Set<int>>) -> bool {
    &&& pop.len() == (if size - 1 < g.n() { size - 1 } else { g.n() as int }) + 1
    &&& pop.last() == seed_clique(g)
    &&& exists|starts: Seq<usize>| #[trigger] starts.len() == pop.len() - 1 && starts.no_duplicates() && forall|i: int| 0 <= i < starts.len() ==> starts[i] < g.n() && #[trigger] pop[i] == greedy_expansion(g, set![starts[i] as int])
}

/// `s` is one of the largest members of `pop`.
pub open spec fn is_largest(pop: Seq<Set<int>>, s: Set<int>) -> bool {
    &&& exists|i: int| 0 <= i < pop.len() && pop[i] == s
    &&& forall|i: int| 0 <= i < pop.len() ==> (#[trigger] pop[i]).len() <= s.len()
}

/// One generation's record: `pop` is the population it bred from, `best0`
/// and `best1` the best clique before and after, and `first` the individual
/// it kept as its elite. The best changes only to a strictly larger member of
/// `pop`, and neither it nor the elite is smaller than any member of `pop`.
pub open spec fn generation_record(pop: Seq<Set<int>>, best0: Set<int>, best1: Set<int>, first: Set<int>) -> bool {
    &&& pop.len() >= 1
    &&& forall|i: int| 0 <= i < pop.len() ==> (#[trigger] pop[i]).len() <= best1.len() && pop[i].len() <= first.len()
    &&& best1 == best0 || (best1.len() > best0.len() && exists|i: int| 0 <= i < pop.len() && pop[i] == best1)
}

/// The state of the evolutionary search on one graph.
pub struct GeneticAlgorithm {
    population: Vec<Clique>,
    config: GAConfig,
    best_clique: VertexSet,
    seed_clique: VertexSet,
    stagnation_counter: usize,
    prev_best_count: usize,
}

impl GeneticAlgorithm {
    /// The best clique found so far.
    pub closed spec fn best(&self) -> Set<int> {
        self.best_clique@
    }

    /// The bitset that holds the best clique.
    pub closed spec fn best_set(&self) -> VertexSet {
        self.best_clique
    }

    /// The clique grown greedily from the vertex of largest degree when the
    /// search began.
    pub closed spec fn seed(&self) -> Set<int> {
        self.seed_clique@
    }

    pub closed spec fn settings(&self) -> GAConfig {
        self.config
    }

    /// The individuals, in order.
    pub closed spec fn individuals(&self) -> Seq<Clique> {
        self.population@
    }

    /// Every individual keeps its invariant and holds a maximal clique.
    pub open spec fn population_ok(&self, g: &Graph) -> bool {
        &&& self.member_sets().len() == self.individuals().len()
        &&& forall|i: int| 0 <= i < self.individuals().len() ==> (#[trigger] self.individuals()[i]).wf(g) && g.is_maximal_clique(self.individuals()[i].members()) && self.member_sets()[i] == self.individuals()[i].members()
    }

    /// The cliques of the individuals, in order.
    pub closed spec fn member_sets(&self) -> Seq<Set<int>> {
        self.population@.map_values(|c: Clique| c.members())
    }

    /// Generations in a row without a better clique.
    pub closed spec fn stagnation(&self) -> nat {
        self.stagnation_counter as nat
    }

    /// The best size that the stagnation count compares with.
    pub closed spec fn prev_best(&self) -> nat {
        self.prev_best_count as nat
    }

    pub closed spec fn wf(&self, g: &Graph) -> bool {
        &&& g.n() > 0
        &&& self.config.population_size >= 1
        &&& self.population@.len() >= 1
        &&& forall|i: int| 0 <= i < self.population@.len() ==> (#[trigger] self.population@[i]).wf(g) && g.is_maximal_clique(self.population@[i].members())
        &&& self.best_clique.wf()
        &&& self.best_clique.width() == g.n()
        &&& g.is_maximal_clique(self.best())
        &&& g.is_maximal_clique(self.seed())
        &&& self.seed() == seed_clique(g)
        &&& self.best().len() >= self.seed().len()
        &&& self.stagnation_counter == 0 || self.stagnation_counter < self.config.shuffle_tolerance
    }

    /// The individual grown greedily from the vertex of largest degree.
    fn elite_seed(g: &Graph) -> (r: Clique)
        requires
            g.wf(),
            g.n() > 0,
        ensures
            r.wf(g),
            g.is_maximal_clique(r.members()),
            r.members() == seed_clique(g),
    {
        let start = max_degree_node(g);
        proof {
            lemma_max_degree_vertex_unique(g, start as int);
        }
        let mut c = Clique::new(g, start);
        c.greedy_expand_in_pa(g);
        c
    }

    /// `size - 1` individuals grown from distinct random vertices (fewer
    /// where the graph is smaller), then the elite seed.
    fn initial_population(g: &Graph, size: usize, rng: &mut ThreadRng) -> (r: Vec<Clique>)
        requires
            g.wf(),
            g.n() > 0,
            size >= 1,
        ensures
            r@.len() >= 1,
            forall|i: int| 0 <= i < r@.len() ==> (#[trigger] r@[i]).wf(g) && g.is_maximal_clique(r@[i].members()),
            r@.last().members() == seed_clique(g),
            fresh_population(g, size as int, r@.map_values(|c: Clique| c.members())),
    {
        let starts = sample_distinct(rng, g.node_count(), size - 1);
        let mut population: Vec<Clique> = Vec::new();
        let mut i: usize = 0;
        while i < starts.len()
            invariant
                g.wf(),
                i <= starts@.len(),
                population@.len() == i,
                forall|k: int| 0 <= k < starts@.len() ==> starts@[k] < g.n(),
                forall|k: int| 0 <= k < population@.len() ==> (#[trigger] population@[k]).wf(g) && g.is_maximal_clique(population@[k].members()),
                forall|k: int| 0 <= k < population@.len() ==> (#[trigger] population@[k]).members() == greedy_expansion(g, set![starts@[k] as int]),
            decreases starts@.len() - i,
        {
            let mut c = Clique::new(g, starts[i]);
            c.greedy_expand_in_pa(g);
            population.push(c);
            i = i + 1;
        }
        population.push(GeneticAlgorithm::elite_seed(g));
        proof {
            let ms = population@.map_values(|c: Clique| c.members());
            assert(ms.last() == seed_clique(g));
            assert(starts@.len() == ms.len() - 1);
            assert forall|k: int| 0 <= k < starts@.len() implies starts@[k] < g.n() && #[trigger] ms[k] == greedy_expansion(g, set![starts@[k] as int]) by {
                assert(ms[k] == population@[k].members());
            }
        }
        population
    }

    /// The initial state: a population as `initial_population` gives, with
    /// the best clique taken from it.
    pub fn new(g: &Graph, config: GAConfig) -> (r: GeneticAlgorithm)
        requires
            g.wf(),
            g.n() > 0,
            config.population_size >= 1,
        ensures
            r.wf(g),
            r.settings() == config,
            fresh_population(g, config.population_size as int, r.member_sets()),
            is_largest(r.member_sets(), r.best()),
            r.stagnation() == 0,
            r.prev_best() == 0,
            r.population_ok(g),
    {
        let mut rng = new_rng();
        let population = GeneticAlgorithm::initial_population(g, config.population_size, &mut rng);
        let seed_clique = population[population.len() - 1].clique.clone();
        let idx = elite_index(g, &population);
        let best_clique = population[idx].clique.clone();
        let r = GeneticAlgorithm {
            population,
            config,
            best_clique,
            seed_clique,
            stagnation_counter: 0,
            prev_best_count: 0,
        };
        proof {
            let ms = r.member_sets();
            assert(ms[idx as int] == r.best());
            assert forall|i: int| 0 <= i < ms.len() implies (#[trigger] ms[i]).len() <= r.best().len() by {
                assert(ms[i] == r.population@[i].members());
            }
        }
        r
    }

    /// Replaces the population by a fresh one, as at the start.
    fn generate_random_population(&mut self, g: &Graph, rng: &mut ThreadRng)
        requires
            g.wf(),
            old(self).wf(g),
        ensures
            final(self).wf(g),
            final(self).best() == old(self).best(),
            final(self).seed() == old(self).seed(),
            final(self).settings() == old(self).settings(),
            final(self).stagnation_counter == old(self).stagnation_counter,
            final(self).prev_best_count == old(self).prev_best_count,
            fresh_population(g, final(self).settings().population_size as int, final(self).member_sets()),
    {
        self.population = GeneticAlgorithm::initial_population(g, self.config.population_size, rng);
    }

    /// A child of two parents drawn from the population: crossed over,
    /// mutated where it is no larger than either parent, then improved
    /// locally.
    pub fn offspring(&self, g: &Graph, rng: &mut ThreadRng) -> (r: Clique)
        requires
            g.wf(),
            self.wf(g),
        ensures
            r.wf(g),
            g.is_maximal_clique(r.members()),
    {
        let (i1, i2) = pick_two(self.population.len(), rng);
        let p1 = &self.population[i1];
        let p2 = &self.population[i2];
        proof {
            lemma_maximal_nonempty(g, p1.members());
            if p1.members().union(p2.members()) == Set::<int>::empty() {
                assert(p1.members() =~= Set::<int>::empty());
            }
        }
        let mut child = self.crossover(g, p1, p2, rng);
        let c = child.size(g);
        if c <= p1.size(g) && c <= p2.size(g) {
            self.mutate(g, &mut child, rng);
        }
        child.local_improvement(g, self.config.local_improvement_iter, rng);
        child
    }

    /// One generation: the stagnation check and restart, the elite's record
    /// and refinement, and a population of the refined elite and its
    /// offspring.
    pub fn evolve(&mut self, g: &Graph)
        requires
            g.wf(),
            old(self).wf(g),
        ensures
            final(self).wf(g),
            final(self).best().len() >= old(self).best().len(),
            final(self).seed() == old(self).seed(),
            final(self).settings() == old(self).settings(),
            old(self).prev_best() == old(self).best().len() && old(self).stagnation() + 1 >= old(self).settings().shuffle_tolerance ==> final(self).stagnation() == 0,
            old(self).prev_best() == old(self).best().len() && old(self).stagnation() + 1 < old(self).settings().shuffle_tolerance ==> final(self).stagnation() == old(self).stagnation() + 1,
            old(self).prev_best() != old(self).best().len() ==> final(self).prev_best() == old(self).best().len() && final(self).stagnation() == 0,
            final(self).member_sets().len() == old(self).settings().population_size,
            final(self).population_ok(g),
            exists|pop: Seq<Set<int>>| {
                &&& (if old(self).prev_best() == old(self).best().len() && old(self).stagnation() + 1 >= old(self).settings().shuffle_tolerance {
                    fresh_population(g, old(self).settings().population_size as int, pop)
                } else {
                    pop == old(self).member_sets()
                })
                &&& #[trigger] generation_record(pop, old(self).best(), final(self).best(), final(self).member_sets()[0])
            },
    {
        let mut rng = new_rng();
        let count = self.best_clique.count();
        if self.prev_best_count == count {
            let stalled = self.stagnation_counter + 1;
            if stalled >= self.config.shuffle_tolerance {
                self.generate_random_population(g, &mut rng);
                self.stagnation_counter = 0;
            } else {
                self.stagnation_counter = stalled;
            }
        } else {
            self.prev_best_count = count;
            self.stagnation_counter = 0;
        }
        let ghost pop1 = self.member_sets();
        let ghost best0 = self.best();
        let idx = elite_index(g, &self.population);
        let mut local_best = self.population[idx].clone();
        proof {
            assert forall|i: int| 0 <= i < pop1.len() implies (#[trigger] pop1[i]).len() <= local_best.members().len() by {
                assert(pop1[i] == self.population@[i].members());
            }
            assert(pop1[idx as int] == local_best.members());
        }
        if local_best.size(g) > count {
            self.best_clique = local_best.clique.clone();
        }
        local_best.local_improvement(g, self.config.local_improvement_iter, &mut rng);
        let ghost before = self.population@;
        self.population.push(local_best.clone());
        proof {
            assert forall|i: int| 0 <= i < self.population@.len() implies (#[trigger] self.population@[i]).wf(g) && g.is_maximal_clique(self.population@[i].members()) by {
                if i < before.len() {
                    assert(self.population@[i] == before[i]);
                }
            }
        }
        let children = breed_in_parallel(self, g, self.config.population_size - 1);
        let ghost elite = local_best.members();
        let mut next: Vec<Clique> = Vec::new();
        next.push(local_best);
        let mut i: usize = 0;
        while i < children.len()
            invariant
                g.wf(),
                next@[0].members() == elite,
                i <= children@.len(),
                next@.len() == i + 1,
                forall|k: int| 0 <= k < children@.len() ==> (#[trigger] children@[k]).wf(g) && g.is_maximal_clique(children@[k].members()),
                forall|k: int| 0 <= k < next@.len() ==> (#[trigger] next@[k]).wf(g) && g.is_maximal_clique(next@[k].members()),
            decreases children@.len() - i,
        {
            next.push(children[i].clone());
            i = i + 1;
        }
        self.population = next;
        proof {
            assert(self.member_sets()[0] == self.population@[0].members());
            assert(generation_record(pop1, best0, self.best(), self.member_sets()[0]));
            assert(self.population_ok(g));
        }
    }

    /// A child of `p1` and `p2`. Where they share members, the child starts
    /// from a random shared member and takes the others in random order;
    /// else it takes the members of their union by decreasing degree inside
    /// the union. Either way it ends with a greedy expansion.
    pub fn crossover(&self, g: &Graph, p1: &Clique, p2: &Clique, rng: &mut ThreadRng) -> (r: Clique)
        requires
            g.wf(),
            p1.wf(g),
            p2.wf(g),
            p1.members().union(p2.members()) != Set::<int>::empty(),
        ensures
            r.wf(g),
            g.is_maximal_clique(r.members()),
            p1.members().intersect(p2.members()).subset_of(r.members()),
            p1.members().intersect(p2.members()) != Set::<int>::empty() ==> r.members() == greedy_expansion(g, p1.members().intersect(p2.members())),
            p1.members().intersect(p2.members()) == Set::<int>::empty() ==> r.members().contains(degree_ranked(g, p1.members().union(p2.members()))[0].0 as int),
    {
        let mut common = p1.clique.clone();
        common.intersect_with(&p2.clique);
        if !common.is_empty() {
            let shared = common.to_vec();
            proof {
                if forall|c: int| !common@.contains(c) {
                    assert(common@ =~= Set::<int>::empty());
                }
                let c = choose|c: int| common@.contains(c);
            }
            let start = shared[random_below(rng, shared.len())];
            let mut child = Clique::new(g, start);
            let m = shared.len();
            let order = sample_distinct(rng, m, m);
            proof {
                assert(common@.contains(start as int));
                assert(child.members() =~= set![start as int]);
            }
            let mut i: usize = 0;
            while i < order.len()
                invariant
                    g.wf(),
                    child.wf(g),
                    m == shared@.len(),
                    common@ == p1.members().intersect(p2.members()),
                    g.is_clique(p1.members()),
                    i <= order@.len(),
                    forall|k: int| 0 <= k < order@.len() ==> order@[k] < shared@.len(),
                    forall|k: int| 0 <= k < shared@.len() ==> common@.contains(#[trigger] shared@[k] as int),
                    child.members().subset_of(common@),
                    forall|k: int| 0 <= k < i ==> child.members().contains(#[trigger] shared@[order@[k] as int] as int),
                decreases order@.len() - i,
            {
                let node = shared[order[i]];
                proof {
                    assert(common@.contains(shared@[order@[i as int] as int] as int));
                }
                if child.pa.contains(node) {
                    child.add_vertex(g, node);
                } else {
                    proof {
                        if !child.members().contains(node as int) {
                            assert forall|u: int| #[trigger] child.members().contains(u) implies g.adjacent(u, node as int) by {
                                assert(p1.members().contains(u));
                                assert(p1.members().contains(node as int));
                            }
                            assert(g.extensions(child.members()).contains(node as int));
                        }
                    }
                }
                i = i + 1;
            }
            proof {
                let o = order@.map_values(|x: usize| x as int);
                assert(o.no_duplicates()) by {
                    assert forall|a: int, b: int| 0 <= a < o.len() && 0 <= b < o.len() && a != b implies o[a] != o[b] by {
                        assert(order@[a] != order@[b]);
                    }
                }
                o.unique_seq_to_set();
                vstd::set_lib::lemma_int_range(0, m as int);
                assert(o.to_set().subset_of(vstd::set_lib::set_int_range(0, m as int))) by {
                    assert forall|x: int| o.to_set().contains(x) implies vstd::set_lib::set_int_range(0, m as int).contains(x) by {
                        let k = choose|k: int| 0 <= k < o.len() && o[k] == x;
                        assert(order@[k] < m);
                    }
                }
                vstd::set_lib::lemma_subset_equality(o.to_set(), vstd::set_lib::set_int_range(0, m as int));
                assert forall|v: int| common@.contains(v) implies child.members().contains(v) by {
                    let idx = choose|idx: int| 0 <= idx < shared@.len() && shared@[idx] == v;
                    assert(vstd::set_lib::set_int_range(0, m as int).contains(idx));
                    assert(o.to_set().contains(idx));
                    let k = choose|k: int| 0 <= k < o.len() && o[k] == idx;
                    assert(order@[k] as int == idx);
                    assert(child.members().contains(shared@[order@[k] as int] as int));
                }
            }
            proof {
                assert(child.members() =~= common@);
            }
            child.greedy_expand_in_pa(g);
            return child;
        }
        proof {
            assert(p1.members().intersect(p2.members()) =~= Set::<int>::empty());
        }
        let mut union = p1.clique.clone();
        union.union_with(&p2.clique);
        let sorted = ranked_by_degree(g, &union);
        proof {
            if forall|c: int| !union@.contains(c) {
                assert(union@ =~= Set::<int>::empty());
            }
            let c = choose|c: int| union@.contains(c);
            g.lemma_n_fits();
            assert(g.nbrs(c).intersect(union@).subset_of(g.vertices()));
            g.lemma_vertex_subset(g.nbrs(c).intersect(union@));
            assert(sorted@.contains((c as usize, g.nbrs(c).intersect(union@).len() as usize)));
            assert forall|k: int| 0 <= k < sorted@.len() implies (#[trigger] sorted@[k]).0 < g.n() by {
                assert(sorted@.contains(sorted@[k]));
            }
        }
        let top = sorted[0].0;
        let mut child = Clique::new(g, top);
        proof {
            assert(set![top as int].contains(top as int));
        }
        let mut j: usize = 1;
        while j < sorted.len()
            invariant
                g.wf(),
                child.wf(g),
                child.members().contains(top as int),
                1 <= j <= sorted@.len(),
                forall|k: int| 0 <= k < sorted@.len() ==> (#[trigger] sorted@[k]).0 < g.n(),
            decreases sorted@.len() - j,
        {
            let node = sorted[j].0;
            if child.pa.contains(node) {
                child.add_vertex(g, node);
            }
            j = j + 1;
        }
        child.greedy_expand_in_pa(g);
        child
    }

    /// Drops a random member, then either expands greedily or, with even
    /// odds, adds random possible additions until none is left. An empty
    /// clique is left as it is.
    pub fn mutate(&self, g: &Graph, clique: &mut Clique, rng: &mut ThreadRng)
        requires
            g.wf(),
            old(clique).wf(g),
        ensures
            final(clique).wf(g),
            old(clique).members() == Set::<int>::empty() ==> *final(clique) == *old(clique),
            old(clique).members() != Set::<int>::empty() ==> g.is_maximal_clique(final(clique).members()),
            exists|v: int| #[trigger] old(clique).members().remove(v).subset_of(final(clique).members()),
    {
        if clique.clique.is_empty() {
            proof {
                assert(old(clique).members().remove(0).subset_of(clique.members()));
            }
            return;
        }
        let nodes = clique.clique.to_vec();
        proof {
            if forall|c: int| !clique.members().contains(c) {
                assert(clique.members() =~= Set::<int>::empty());
            }
            let c = choose|c: int| clique.members().contains(c);
        }
        let idx = random_below(rng, nodes.len());
        let dropped = nodes[idx];
        clique.remove_vertex(g, dropped);
        let ghost kept = old(clique).members().remove(dropped as int);
        if coin(rng) {
            clique.greedy_expand_in_pa(g);
            proof {
                assert(old(clique).members().remove(dropped as int).subset_of(clique.members()));
            }
            return;
        }
        while !clique.pa.is_empty()
            invariant
                g.wf(),
                clique.wf(g),
                kept.subset_of(clique.members()),
            decreases clique.additions().len(),
        {
            let choices = clique.pa.to_vec();
            proof {
                if forall|c: int| !clique.additions().contains(c) {
                    assert(clique.additions() =~= Set::<int>::empty());
                }
                let c = choose|c: int| clique.additions().contains(c);
            }
            let chosen = choices[random_below(rng, choices.len())];
            let ghost k0 = clique.members();
            let ghost pa0 = clique.additions();
            clique.add_vertex(g, chosen);
            proof {
                lemma_extensions_shrink(g, k0, clique.members());
                assert(clique.additions().subset_of(pa0.remove(chosen as int)));
                vstd::set_lib::lemma_len_subset(clique.additions(), pa0.remove(chosen as int));
            }
        }
        proof {
            assert(old(clique).members().remove(dropped as int).subset_of(clique.members()));
        }
    }

    /// The best clique found so far.
    pub fn best_clique(&self) -> (r: &VertexSet)
        ensures
            r@ == self.best(),
            *r == self.best_set(),
    {
        &self.best_clique
    }
}

/// The index of a largest individual, the first such on a tie.
fn elite_index(g: &Graph, population: &Vec<Clique>) -> (r: usize)
    requires
        g.wf(),
        population@.len() >= 1,
        forall|i: int| 0 <= i < population@.len() ==> (#[trigger] population@[i]).wf(g),
    ensures
        r < population@.len(),
        forall|i: int| 0 <= i < population@.len() ==> (#[trigger] population@[i]).members().len() <= population@[r as int].members().len(),
        forall|i: int| 0 <= i < r ==> (#[trigger] population@[i]).members().len() < population@[r as int].members().len(),
{
    let mut best: usize = 0;
    let mut best_size = population[0].size(g);
    let mut i: usize = 1;
    while i < population.len()
        invariant
            g.wf(),
            1 <= i <= population@.len(),
            best < i,
            forall|k: int| 0 <= k < population@.len() ==> (#[trigger] population@[k]).wf(g),
            best_size == population@[best as int].members().len(),
            forall|k: int| 0 <= k < i ==> (#[trigger] population@[k]).members().len() <= best_size,
            forall|k: int| 0 <= k < best ==> (#[trigger] population@[k]).members().len() < best_size,
        decreases population@.len() - i,
    {
        let s = population[i].size(g);
        if s > best_size {
            best = i;
            best_size = s;
        }
        i = i + 1;
    }
    best
}

/// The best clique of a search is never smaller than its seed, the clique
/// grown greedily from a vertex of largest degree.
pub proof fn lemma_best_covers_seed(ga: &GeneticAlgorithm, g: &Graph)
    requires
        ga.wf(g),
    ensures
        g.is_maximal_clique(ga.best()),
        ga.best_set().wf(),
        g.is_maximal_clique(ga.seed()),
        ga.seed() == seed_clique(g),
        ga.best().len() >= ga.seed().len(),
{
}

/// A clique of `g` found by the evolutionary search with the default
/// settings; its vertex ids in ascending order. It is never smaller than the
/// clique grown greedily from the vertex of largest degree.
pub fn find_max_cliques_with_ga(g: &Graph) -> (r: Vec<usize>)
    requires
        g.wf(),
    ensures
        g.is_clique(ids(r@)),
        ascending(r@),
        r@.len() == ids(r@).len(),
        g.n() == 0 ==> r@.len() == 0,
        g.n() > 0 ==> ids(r@).len() >= seed_clique(g).len(),
        g.is_maximal_clique(ids(r@)),
        g.n() > 0 ==> r@.len() >= 1,
        (exists|a: int, b: int| #[trigger] g.adjacent(a, b)) ==> r@.len() >= 2,
{
    if g.node_count() == 0 {
        let r: Vec<usize> = Vec::new();
        proof {
            assert(ids(r@) =~= Set::<int>::empty());
            assert(g.extensions(ids(r@)) =~= Set::<int>::empty());
        }
        return r;
    }
    let config = GAConfig::default();
    let generations = config.max_generations;
    let mut ga = GeneticAlgorithm::new(g, config);
    let ghost seed = ga.seed();
    let mut i: usize = 0;
    while i < generations
        invariant
            g.wf(),
            ga.wf(g),
            ga.seed() == seed,
            i <= generations,
        decreases generations - i,
    {
        ga.evolve(g);
        i = i + 1;
    }
    proof {
        lemma_best_covers_seed(&ga, g);
    }
    let best = ga.best_clique();
    proof {
        g.lemma_vertex_subset(best@);
    }
    let r = best.to_vec();
    let top = max_degree_node(g);
    proof {
        assert(ids(r@) =~= ga.best());
        assert(g.is_maximal_clique(seed));
        lemma_maximal_nonempty(g, ga.best());
        if forall|c: int| !ga.best().contains(c) {
            assert(ga.best() =~= Set::<int>::empty());
        }
        let c = choose|c: int| ga.best().contains(c);
        g.lemma_vertex_subset(ga.best());
        lemma_len_subset(set![c], ga.best());
        if exists|a: int, b: int| #[trigger] g.adjacent(a, b) {
            let (a, b) = choose|a: int, b: int| #[trigger] g.adjacent(a, b);
            lemma_seed_has_edge(g, top as int, a, b);
        }
    }
    r
}

} // verus!
