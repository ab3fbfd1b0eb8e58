//! The exact solver: Bron–Kerbosch with pivoting and size-bound pruning.
use crate::bitset::VertexSet;
use crate::ga::{degree_ranked, find_max_cliques_with_ga, lemma_ranked_unique, precedes, ranks, seed_clique, sort_by_degree};
use crate::graph::Graph;
use crate::solve::lemma_ascending_unique;
use vstd::prelude::*;
use vstd::set_lib::lemma_len_subset;

verus! {

/// The members of a sequence of vertex ids, as a set.
pub open spec fn ids(s: Seq<usize>) -> Set<int> {
    Set::new(|v: int| exists|k: int| 0 <= k < s.len() && s[k] as int == v)
}

/// The vertex of `p ∪ x` with the most neighbours in `p`, the smallest such
/// id on a tie; `None` where `p ∪ x` is empty.
fn select_pivot(g: &Graph, candidates: &VertexSet, excluded: &VertexSet) -> (r: Option<usize>)
    requires
        g.wf(),
        candidates.wf(),
        excluded.wf(),
        candidates.width() == g.n(),
        excluded.width() == g.n(),
    ensures
        r is None <==> candidates@.union(excluded@) == Set::<int>::empty(),
        r matches Some(p) ==> candidates@.contains(p as int) || excluded@.contains(p as int),
        r matches Some(p) ==> forall|w: int| #![trigger g.nbrs(w)] (candidates@.contains(w) || excluded@.contains(w)) ==> g.nbrs(w).intersect(candidates@).len() <= g.nbrs(p as int).intersect(candidates@).len(),
        r matches Some(p) ==> forall|w: int| #![trigger g.nbrs(w)] (candidates@.contains(w) || excluded@.contains(w)) && w < p ==> g.nbrs(w).intersect(candidates@).len() < g.nbrs(p as int).intersect(candidates@).len(),
{
    let mut pool = candidates.clone();
    pool.union_with(excluded);
    let order = pool.to_vec();
    if order.len() == 0 {
        proof {
            assert(pool@ =~= Set::<int>::empty()) by {
                assert forall|c: int| !pool@.contains(c) by {
                    if pool@.contains(c) {
                        let k = choose|k: int| 0 <= k < order@.len() && order@[k] == c;
                    }
                }
            }
        }
        return None;
    }
    let mut best: usize = order[0];
    let mut tmp = g.neighbors(best).clone();
    tmp.intersect_with(candidates);
    let mut best_score = tmp.count();
    let mut i: usize = 1;
    while i < order.len()
        invariant
            g.wf(),
            candidates.wf(),
            candidates.width() == g.n(),
            pool@ == candidates@.union(excluded@),
            pool.wf(),
            pool.width() == g.n(),
            1 <= i <= order@.len(),
            order@.len() == pool@.len(),
            forall|k: int| 0 <= k < order@.len() ==> pool@.contains(order@[k] as int),
            forall|j: int| pool@.contains(j) ==> exists|k: int| 0 <= k < order@.len() && order@[k] == j,
            forall|a: int, b: int| 0 <= a < b < order@.len() ==> order@[a] < order@[b],
            pool@.contains(best as int),
            best_score == g.nbrs(best as int).intersect(candidates@).len(),
            exists|k: int| 0 <= k < i && order@[k] == best,
            forall|k: int| 0 <= k < i ==> #[trigger] g.nbrs(order@[k] as int).intersect(candidates@).len() <= best_score,
            forall|k: int| 0 <= k < i && order@[k] < best ==> #[trigger] g.nbrs(order@[k] as int).intersect(candidates@).len() < best_score,
        decreases order@.len() - i,
    {
        let w = order[i];
        let mut t = g.neighbors(w).clone();
        t.intersect_with(candidates);
        let s = t.count();
        if s > best_score {
            best = w;
            best_score = s;
        }
        i = i + 1;
    }
    proof {
        assert forall|w: int| #![trigger g.nbrs(w)] (candidates@.contains(w) || excluded@.contains(w)) implies g.nbrs(w).intersect(candidates@).len() <= g.nbrs(best as int).intersect(candidates@).len() && (w < best ==> g.nbrs(w).intersect(candidates@).len() < g.nbrs(best as int).intersect(candidates@).len()) by {
            assert(pool@.contains(w));
            let k = choose|k: int| 0 <= k < order@.len() && order@[k] == w;
            assert(g.nbrs(order@[k] as int).intersect(candidates@).len() <= best_score);
        }
    }
    Some(best)
}

/// Some vertex of `x` is adjacent to every member of `c`.
pub open spec fn dominated(g: &Graph, x: Set<int>, c: Set<int>) -> bool {
    exists|v: int| x.contains(v) && forall|w: int| #[trigger] c.contains(w) ==> g.adjacent(v, w)
}

/// Every vertex of `p` outside `d` misses some member of `d`.
pub open spec fn maximal_in(g: &Graph, p: Set<int>, d: Set<int>) -> bool {
    forall|v: int| p.contains(v) && !d.contains(v) ==> exists|w: int| d.contains(w) && !#[trigger] g.adjacent(w, v)
}

/// The neighbour sets of `g`, as a function.
pub open spec fn nbr_fn(g: &Graph) -> spec_fn(int) -> Set<int> {
    |v: int| g.nbrs(v)
}

/// The smallest member of `s`.
pub open spec fn least(s: Set<int>) -> int {
    choose|m: int| s.contains(m) && forall|j: int| s.contains(j) ==> m <= j
}

/// `v` of `p ∪ x` has the most neighbours in `p`, and no smaller id as many.
pub open spec fn is_pivot(nb: spec_fn(int) -> Set<int>, p: Set<int>, x: Set<int>, v: int) -> bool {
    &&& p.contains(v) || x.contains(v)
    &&& forall|w: int| (p.contains(w) || x.contains(w)) ==> #[trigger] nb(w).intersect(p).len() <= nb(v).intersect(p).len()
    &&& forall|w: int| (p.contains(w) || x.contains(w)) && w < v ==> #[trigger] nb(w).intersect(p).len() < nb(v).intersect(p).len()
}

pub open spec fn pivot_of(nb: spec_fn(int) -> Set<int>, p: Set<int>, x: Set<int>) -> int {
    choose|v: int| is_pivot(nb, p, x, v)
}

/// The best set that the search from the frame `(r, p, x)` ends with when it
/// starts from `b`, over the neighbour sets `nb`.
pub open spec fn bk_search(nb: spec_fn(int) -> Set<int>, r: Set<int>, p: Set<int>, x: Set<int>, b: Set<int>) -> Set<int>
    decreases p.len(), 1int, 0nat,
{
    if r.len() + p.len() <= b.len() {
        b
    } else if p == Set::<int>::empty() {
        if x == Set::<int>::empty() && r.len() > b.len() {
            r
        } else {
            b
        }
    } else {
        bk_loop(nb, r, p.len(), p, x, b, p.difference(nb(pivot_of(nb, p, x))))
    }
}

/// The branching loop of a frame whose candidates numbered `top` at its
/// start: the branches on `rem`, smallest first.
pub open spec fn bk_loop(nb: spec_fn(int) -> Set<int>, r: Set<int>, top: nat, p: Set<int>, x: Set<int>, b: Set<int>, rem: Set<int>) -> Set<int>
    decreases top, 0int, rem.len(),
{
    if !rem.finite() || rem == Set::<int>::empty() {
        b
    } else {
        let u = least(rem);
        let np = p.intersect(nb(u));
        if !rem.contains(u) || np.len() >= top {
            b
        } else {
            let b2 = if r.len() + 1 + np.len() <= b.len() {
                b
            } else {
                bk_search(nb, r.insert(u), np, x.intersect(nb(u)), b)
            };
            bk_loop(nb, r, top, p.remove(u), x.insert(u), b2, rem.remove(u))
        }
    }
}

proof fn lemma_pivot_unique(nb: spec_fn(int) -> Set<int>, p: Set<int>, x: Set<int>, v: int)
    requires
        is_pivot(nb, p, x, v),
    ensures
        pivot_of(nb, p, x) == v,
{
    let w = pivot_of(nb, p, x);
    assert(is_pivot(nb, p, x, w));
    if w < v {
        assert(nb(w).intersect(p).len() < nb(v).intersect(p).len());
    } else if v < w {
        assert(nb(v).intersect(p).len() < nb(w).intersect(p).len());
    }
}

proof fn lemma_least_unique(s: Set<int>, m: int)
    requires
        s.contains(m),
        forall|j: int| s.contains(j) ==> m <= j,
    ensures
        least(s) == m,
{
    let l = least(s);
    assert(s.contains(l) && forall|j: int| s.contains(j) ==> l <= j);
}

/// The invariant of a search frame: `r` is a clique, and every candidate
/// and every excluded vertex is adjacent to all of `r`.
pub open spec fn frame(g: &Graph, r: Set<int>, p: Set<int>, x: Set<int>) -> bool {
    &&& g.is_clique(r)
    &&& p.subset_of(g.vertices())
    &&& x.subset_of(g.vertices())
    &&& forall|v: int, w: int| (p.contains(v) || x.contains(v)) && r.contains(w) ==> #[trigger] g.adjacent(w, v)
}

/// A clique inside `p` grows, inside `p`, to one that no other vertex of `p`
/// extends.
proof fn lemma_extend_within(g: &Graph, p: Set<int>, c: Set<int>) -> (d: Set<int>)
    requires
        g.wf(),
        p.subset_of(g.vertices()),
        c.subset_of(p),
        g.is_clique(c),
    ensures
        c.subset_of(d),
        d.subset_of(p),
        g.is_clique(d),
        maximal_in(g, p, d),
    decreases p.len() - c.len(),
{
    g.lemma_vertex_subset(p);
    lemma_len_subset(c, p);
    if exists|v: int| p.contains(v) && !c.contains(v) && forall|w: int| #[trigger] c.contains(w) ==> g.adjacent(w, v) {
        let v = choose|v: int| p.contains(v) && !c.contains(v) && forall|w: int| #[trigger] c.contains(w) ==> g.adjacent(w, v);
        let c2 = c.insert(v);
        assert(g.is_clique(c2)) by {
            assert forall|a: int, b: int| c2.contains(a) && c2.contains(b) && a != b implies #[trigger] g.adjacent(a, b) by {
                if a == v {
                    assert(g.adjacent(b, a));
                } else if b == v {
                } else {
                    assert(c.contains(a) && c.contains(b));
                }
            }
        }
        lemma_len_subset(c2, p);
        lemma_extend_within(g, p, c2)
    } else {
        c
    }
}

/// The search from the frame `(current, candidates, excluded)`. On return
/// `current` is as it was, and `best` either is as it was or has become a
/// strictly larger clique between `current` and `current ∪ candidates`. It
/// is no smaller than `current` plus any clique of candidates that no
/// excluded vertex extends. A frame that the size bound prunes is left as
/// it is.
fn bron_kerbosch_pivot(
    g: &Graph,
    current: &mut VertexSet,
    candidates: &mut VertexSet,
    excluded: &mut VertexSet,
    best: &mut VertexSet,
)
    requires
        g.wf(),
        old(current).wf(),
        old(candidates).wf(),
        old(excluded).wf(),
        old(best).wf(),
        old(current).width() == g.n(),
        old(candidates).width() == g.n(),
        old(excluded).width() == g.n(),
        old(best).width() == g.n(),
        frame(g, old(current)@, old(candidates)@, old(excluded)@),
    ensures
        final(current)@ == old(current)@,
        final(current).wf(),
        final(current).width() == g.n(),
        final(best).wf(),
        final(best).width() == g.n(),
        final(best)@.len() >= old(best)@.len(),
        final(best)@ == old(best)@ || ({
            &&& final(best)@.len() > old(best)@.len()
            &&& g.is_clique(final(best)@)
            &&& old(current)@.subset_of(final(best)@)
            &&& final(best)@.subset_of(old(current)@.union(old(candidates)@))
        }),
        old(current)@.len() + old(candidates)@.len() <= old(best)@.len() ==> {
            &&& final(best)@ == old(best)@
            &&& final(candidates)@ == old(candidates)@
            &&& final(excluded)@ == old(excluded)@
        },
        forall|c: Set<int>| #[trigger] g.is_clique(c) && c.subset_of(old(candidates)@) && !dominated(g, old(excluded)@, c) ==> final(best)@.len() >= old(current)@.len() + c.len(),
        final(best)@ == bk_search(nbr_fn(g), old(current)@, old(candidates)@, old(excluded)@, old(best)@),
    decreases old(candidates)@.len(),
{
    let ghost r = current@;
    let ghost cands0 = candidates@;
    let ghost x0 = excluded@;
    let ghost b0 = best@;
    proof {
        g.lemma_vertex_subset(r);
        g.lemma_vertex_subset(cands0);
        g.lemma_vertex_subset(best@);
    }
    let size_r = current.count();
    let size_b = best.count();
    if size_b >= size_r && candidates.count() <= size_b - size_r {
        proof {
            assert forall|c: Set<int>| #[trigger] g.is_clique(c) && c.subset_of(cands0) && !dominated(g, x0, c) implies b0.len() >= r.len() + c.len() by {
                lemma_len_subset(c, cands0);
            }
        }
        return;
    }
    if candidates.is_empty() {
        if excluded.is_empty() && size_r > size_b {
            *best = current.clone();
        }
        proof {
            assert forall|c: Set<int>| #[trigger] g.is_clique(c) && c.subset_of(cands0) && !dominated(g, x0, c) implies best@.len() >= r.len() + c.len() by {
                assert(c =~= Set::<int>::empty());
                if x0 != Set::<int>::empty() {
                    if forall|x: int| !x0.contains(x) {
                        assert(x0 =~= Set::<int>::empty());
                    }
                    let x = choose|x: int| x0.contains(x);
                    assert(dominated(g, x0, c));
                }
            }
            assert(r.subset_of(r.union(cands0)));
        }
        return;
    }
    let chosen = select_pivot(g, candidates, excluded);
    proof {
        if candidates@.union(excluded@) == Set::<int>::empty() {
            assert(candidates@ =~= Set::<int>::empty()) by {
                assert forall|c: int| !candidates@.contains(c) by {
                    if candidates@.contains(c) {
                        assert(candidates@.union(excluded@).contains(c));
                    }
                }
            }
        }
    }
    let pivot = chosen.unwrap();
    proof {
        assert(g.vertices().contains(pivot as int));
        let nb = nbr_fn(g);
        assert(is_pivot(nb, cands0, x0, pivot as int)) by {
            assert forall|w: int| (cands0.contains(w) || x0.contains(w)) implies #[trigger] nb(w).intersect(cands0).len() <= nb(pivot as int).intersect(cands0).len() by {
                assert(nb(w) == g.nbrs(w));
            }
            assert forall|w: int| (cands0.contains(w) || x0.contains(w)) && w < pivot as int implies #[trigger] nb(w).intersect(cands0).len() < nb(pivot as int).intersect(cands0).len() by {
                assert(nb(w) == g.nbrs(w));
            }
        }
        lemma_pivot_unique(nb, cands0, x0, pivot as int);
    }
    let mut remaining = candidates.clone();
    remaining.difference_with(g.neighbors(pivot));
    let ghost branch = remaining@;
    let ghost mut done = Set::<int>::empty();
    while !remaining.is_empty()
        invariant
            g.wf(),
            current.wf(),
            candidates.wf(),
            excluded.wf(),
            remaining.wf(),
            best.wf(),
            current.width() == g.n(),
            candidates.width() == g.n(),
            excluded.width() == g.n(),
            remaining.width() == g.n(),
            best.width() == g.n(),
            current@ == r,
            size_r == r.len(),
            r.finite(),
            cands0.finite(),
            cands0 == old(candidates)@,
            frame(g, r, cands0, x0),
            branch == cands0.difference(g.nbrs(pivot as int)),
            cands0.contains(pivot as int) || x0.contains(pivot as int),
            done.subset_of(branch),
            remaining@ == branch.difference(done),
            candidates@ == cands0.difference(done),
            excluded@ == x0.union(done),
            best@.len() >= b0.len(),
            best@ == b0 || (best@.len() > b0.len() && g.is_clique(best@) && r.subset_of(best@) && best@.subset_of(r.union(cands0))),
            bk_search(nbr_fn(g), r, cands0, x0, b0) == bk_loop(nbr_fn(g), r, cands0.len(), candidates@, excluded@, best@, remaining@),
            forall|d: Set<int>| #[trigger] g.is_clique(d) && d.subset_of(cands0) && maximal_in(g, cands0, d) && !dominated(g, x0, d) && (exists|y: int| d.contains(y) && done.contains(y)) ==> best@.len() >= r.len() + d.len(),
        decreases remaining@.len(),
    {
        let u = remaining.first().unwrap();
        let ghost b_before = best@;
        let ghost done_before = done;
        let ghost p_before = candidates@;
        let ghost x_before = excluded@;
        let ghost rem_before = remaining@;
        proof {
            lemma_least_unique(rem_before, u as int);
        }
        let mut new_cand = candidates.clone();
        new_cand.intersect_with(g.neighbors(u));
        let ghost p1 = new_cand@;
        let ghost r1 = r.insert(u as int);
        proof {
            assert(!r.contains(u as int)) by {
                if r.contains(u as int) {
                    assert(g.adjacent(u as int, u as int));
                }
            }
            assert(g.is_clique(r1)) by {
                assert forall|a: int, b: int| r1.contains(a) && r1.contains(b) && a != b implies #[trigger] g.adjacent(a, b) by {
                    if a == u as int {
                        assert(g.adjacent(b, a));
                    }
                }
            }
            g.lemma_vertex_subset(r1);
            g.lemma_vertex_subset(p1);
            assert(r1.len() == r.len() + 1);
            assert(cands0.contains(u as int));
            assert(p1.subset_of(cands0.remove(u as int)));
            lemma_len_subset(p1, cands0.remove(u as int));
            assert(p1 == p_before.intersect(nbr_fn(g)(u as int)));
        }
        let nc = new_cand.count();
        let sb = best.count();
        let pruned = sb > size_r && nc <= sb - size_r - 1;
        let ghost mut new_x = Set::<int>::empty();
        if !pruned {
            current.insert(u);
            let mut new_exc = excluded.clone();
            new_exc.intersect_with(g.neighbors(u));
            proof {
                new_x = new_exc@;
                assert(cands0.contains(u as int));
                assert(p1.subset_of(cands0.remove(u as int)));
                lemma_len_subset(p1, cands0.remove(u as int));
                assert(p1.len() < cands0.len());
                assert forall|v: int, w: int| (p1.contains(v) || new_exc@.contains(v)) && r1.contains(w) implies #[trigger] g.adjacent(w, v) by {
                    if w == u as int {
                        assert(g.adjacent(v, w));
                    }
                }
            }
            bron_kerbosch_pivot(g, current, &mut new_cand, &mut new_exc, best);
            current.remove(u);
            proof {
                assert(current@ =~= r);
            }
        }
        candidates.remove(u);
        excluded.insert(u);
        remaining.remove(u);
        proof {
            if !pruned {
                assert(new_x == x_before.intersect(nbr_fn(g)(u as int)));
            }
            assert(bk_loop(nbr_fn(g), r, cands0.len(), p_before, x_before, b_before, rem_before) == bk_loop(nbr_fn(g), r, cands0.len(), candidates@, excluded@, best@, remaining@));
            done = done.insert(u as int);
            assert(remaining@ =~= branch.difference(done));
            assert(candidates@ =~= cands0.difference(done));
            assert(excluded@ =~= x0.union(done));
            if !pruned {
                assert(r1.union(p1).subset_of(r.union(cands0)));
            }
            assert forall|d: Set<int>| #[trigger] g.is_clique(d) && d.subset_of(cands0) && maximal_in(g, cands0, d) && !dominated(g, x0, d) && (exists|y: int| d.contains(y) && done.contains(y)) implies best@.len() >= r.len() + d.len() by {
                if exists|y: int| d.contains(y) && done_before.contains(y) {
                } else {
                    assert(d.contains(u as int));
                    let c1 = d.remove(u as int);
                    g.lemma_vertex_subset(d);
                    assert(c1.len() == d.len() - 1);
                    assert(c1.subset_of(p1)) by {
                        assert forall|w: int| c1.contains(w) implies p1.contains(w) by {
                            assert(g.adjacent(u as int, w));
                            assert(g.nbrs(u as int).contains(w));
                            assert(!done_before.contains(w));
                        }
                    }
                    if pruned {
                        lemma_len_subset(c1, p1);
                    } else {
                        assert(g.is_clique(c1));
                        assert(!dominated(g, new_x, c1)) by {
                            if dominated(g, new_x, c1) {
                                let x = choose|x: int| new_x.contains(x) && forall|w: int| #[trigger] c1.contains(w) ==> g.adjacent(x, w);
                                assert(g.nbrs(u as int).contains(x));
                                assert(g.adjacent(x, u as int));
                                assert forall|w: int| #[trigger] d.contains(w) implies g.adjacent(x, w) by {
                                    if w != u as int {
                                        assert(c1.contains(w));
                                    }
                                }
                                if x0.contains(x) {
                                    assert(dominated(g, x0, d));
                                } else {
                                    assert(done_before.contains(x));
                                    assert(cands0.contains(x));
                                    if d.contains(x) {
                                        assert(g.adjacent(x, x));
                                    } else {
                                        let w = choose|w: int| d.contains(w) && !#[trigger] g.adjacent(w, x);
                                        assert(g.adjacent(x, w));
                                    }
                                }
                            }
                        }
                        assert(best@.len() >= r1.len() + c1.len());
                    }
                }
            }
        }
    }
    proof {
        assert forall|y: int| branch.contains(y) implies done.contains(y) by {
            if !done.contains(y) {
                assert(remaining@.contains(y));
            }
        }
        assert forall|c: Set<int>| #[trigger] g.is_clique(c) && c.subset_of(cands0) && !dominated(g, x0, c) implies best@.len() >= r.len() + c.len() by {
            let d = lemma_extend_within(g, cands0, c);
            assert(!dominated(g, x0, d)) by {
                if dominated(g, x0, d) {
                    let x = choose|x: int| x0.contains(x) && forall|w: int| #[trigger] d.contains(w) ==> g.adjacent(x, w);
                    assert forall|w: int| #[trigger] c.contains(w) implies g.adjacent(x, w) by {
                        assert(d.contains(w));
                    }
                    assert(dominated(g, x0, c));
                }
            }
            let pv = pivot as int;
            if forall|y: int| d.contains(y) ==> !done.contains(y) {
                assert forall|w: int| #[trigger] d.contains(w) implies g.adjacent(pv, w) by {
                    assert(!branch.contains(w));
                    assert(g.nbrs(pv).contains(w));
                }
                if x0.contains(pv) {
                    assert(dominated(g, x0, d));
                } else {
                    if d.contains(pv) {
                        assert(g.adjacent(pv, pv));
                    } else {
                        let w = choose|w: int| d.contains(w) && !#[trigger] g.adjacent(w, pv);
                        assert(g.adjacent(pv, w));
                    }
                }
            }
            g.lemma_vertex_subset(d);
            lemma_len_subset(c, d);
        }
    }
}

/// Any two maximum cliques of a graph have the same size, so every run of
/// the exact solver on one graph returns a clique of one size.
pub proof fn lemma_exact_size_determined(g: &Graph, s1: Set<int>, s2: Set<int>)
    requires
        g.wf(),
        g.is_maximum_clique(s1),
        g.is_maximum_clique(s2),
    ensures
        s1.len() == s2.len(),
{
    assert(g.is_clique(s1));
    assert(g.is_clique(s2));
}

/// The exact solver is deterministic: two results that its contract admits
/// for one graph are the same vertex list.
pub proof fn lemma_exact_deterministic(g: &Graph, r1: Seq<usize>, r2: Seq<usize>)
    requires
        ids(r1) == exact_clique(g),
        ids(r2) == exact_clique(g),
        ascending(r1),
        ascending(r2),
    ensures
        r1 == r2,
{
    lemma_ascending_unique(r1, r2);
}

/// Each entry of `s` is smaller than every later one.
pub open spec fn ascending(s: Seq<usize>) -> bool {
    forall|a: int, b: int| 0 <= a < b < s.len() ==> s[a] < s[b]
}

/// `order` lists `0..n` and `pos` is its inverse.
pub open spec fn inverse_pair(n: nat, order: Seq<usize>, pos: Seq<usize>) -> bool {
    &&& order.len() == n
    &&& pos.len() == n
    &&& forall|i: int| 0 <= i < n ==> #[trigger] order[i] < n && pos[order[i] as int] == i
    &&& forall|v: int| 0 <= v < n ==> #[trigger] pos[v] < n && order[pos[v] as int] == v
}

/// The vertices of `g` by decreasing degree, the smaller id first on a tie.
pub open spec fn rank_order(g: &Graph) -> Seq<usize> {
    degree_ranked(g, g.vertices()).map_values(|x: (usize, usize)| x.0)
}

/// The vertices by non-increasing degree, the smaller id first on a tie, and
/// the position of each vertex in that order.
pub fn degree_order(g: &Graph) -> (r: (Vec<usize>, Vec<usize>))
    requires
        g.wf(),
    ensures
        inverse_pair(g.n(), r.0@, r.1@),
        forall|a: int, b: int| 0 <= a < b < g.n() ==> #[trigger] g.nbrs(r.0@[a] as int).len() >= #[trigger] g.nbrs(r.0@[b] as int).len(),
        r.0@ == rank_order(g),
{
    let n = g.node_count();
    let mut keyed: Vec<(usize, usize)> = Vec::new();
    let mut v: usize = 0;
    while v < n
        invariant
            g.wf(),
            n == g.n(),
            v <= n,
            keyed@.len() == v,
            forall|k: int| 0 <= k < v ==> #[trigger] keyed@[k] == (k as usize, g.nbrs(k).len() as usize),
        decreases n - v,
    {
        keyed.push((v, g.degree(v)));
        v = v + 1;
    }
    let sorted = sort_by_degree(&keyed);
    let mut order: Vec<usize> = Vec::new();
    let mut k: usize = 0;
    while k < n
        invariant
            g.wf(),
            n == g.n(),
            sorted@.len() == n,
            keyed@.len() == n,
            forall|k: int| 0 <= k < n ==> #[trigger] keyed@[k] == (k as usize, g.nbrs(k).len() as usize),
            forall|x: (usize, usize)| sorted@.contains(x) <==> keyed@.contains(x),
            k <= n,
            order@.len() == k,
            forall|j: int| 0 <= j < k ==> #[trigger] order@[j] == sorted@[j].0 && order@[j] < n && sorted@[j].1 == g.nbrs(order@[j] as int).len(),
        decreases n - k,
    {
        proof {
            assert(sorted@.contains(sorted@[k as int]));
            let m = choose|m: int| 0 <= m < keyed@.len() && keyed@[m] == sorted@[k as int];
            assert(keyed@[m] == (m as usize, g.nbrs(m).len() as usize));
            g.lemma_vertex_subset(g.nbrs(m));
        }
        order.push(sorted[k].0);
        k = k + 1;
    }
    let mut pos: Vec<usize> = Vec::new();
    let mut v: usize = 0;
    while v < n
        invariant
            v <= n,
            pos@.len() == v,
            forall|j: int| 0 <= j < v ==> pos@[j] == 0,
        decreases n - v,
    {
        pos.push(0);
        v = v + 1;
    }
    let mut k: usize = 0;
    while k < n
        invariant
            n == g.n(),
            order@.len() == n,
            pos@.len() == n,
            forall|j: int| 0 <= j < n ==> #[trigger] order@[j] < n,
            forall|j: int| 0 <= j < n ==> #[trigger] pos@[j] < n,
            k <= n,
            forall|w: int| 0 <= w < n && (exists|j: int| 0 <= j < k && order@[j] == w) ==> order@[pos@[w] as int] == w,
        decreases n - k,
    {
        let w = order[k];
        pos.set(w, k);
        k = k + 1;
        proof {
            assert forall|x: int| 0 <= x < n && (exists|j: int| 0 <= j < k && order@[j] == x) implies order@[pos@[x] as int] == x by {
                if x != w as int {
                    let j = choose|j: int| 0 <= j < k && order@[j] == x;
                    assert(j != k - 1);
                }
            }
        }
    }
    proof {
        assert forall|w: int| 0 <= w < n implies #[trigger] order@[pos@[w] as int] == w by {
            assert(keyed@[w] == (w as usize, g.nbrs(w).len() as usize));
            assert(keyed@.contains(keyed@[w]));
            let j = choose|j: int| 0 <= j < sorted@.len() && sorted@[j] == keyed@[w];
            assert(order@[j] == w);
        }
    }
    proof {
        assert(keyed@.no_duplicates()) by {
            assert forall|a: int, b: int| 0 <= a < keyed@.len() && 0 <= b < keyed@.len() && a != b implies keyed@[a] != keyed@[b] by {
                assert(keyed@[a].0 == a as usize);
                assert(keyed@[b].0 == b as usize);
            }
        }
        keyed@.unique_seq_to_set();
        assert(sorted@.to_set() =~= keyed@.to_set());
        sorted@.lemma_no_dup_set_cardinality();
        assert forall|i: int| 0 <= i < n implies #[trigger] pos@[order@[i] as int] == i by {
            let w = order@[i] as int;
            let j = pos@[w] as int;
            assert(order@[j] == w);
            assert(sorted@.contains(sorted@[i]));
            assert(sorted@.contains(sorted@[j]));
            let mi = choose|m: int| 0 <= m < keyed@.len() && keyed@[m] == sorted@[i];
            let mj = choose|m: int| 0 <= m < keyed@.len() && keyed@[m] == sorted@[j];
            assert(keyed@[mi] == (mi as usize, g.nbrs(mi).len() as usize));
            assert(keyed@[mj] == (mj as usize, g.nbrs(mj).len() as usize));
            assert(sorted@[i] == sorted@[j]);
        }
    }
    proof {
        assert forall|a: int, b: int| 0 <= a < b < n implies #[trigger] g.nbrs(order@[a] as int).len() >= #[trigger] g.nbrs(order@[b] as int).len() by {
            assert(!precedes(sorted@[b], sorted@[a]));
        }
        let vs = g.vertices();
        assert forall|w: int| 0 <= w < n implies #[trigger] g.nbrs(w).intersect(vs) == g.nbrs(w) by {
            assert(g.nbrs(w).intersect(vs) =~= g.nbrs(w));
        }
        assert forall|x: (usize, usize)| #[trigger] sorted@.contains(x) <==> vs.contains(x.0 as int) && x.1 as nat == g.nbrs(x.0 as int).intersect(vs).len() by {
            if sorted@.contains(x) {
                assert(keyed@.contains(x));
                let m = choose|m: int| 0 <= m < keyed@.len() && keyed@[m] == x;
                assert(keyed@[m] == (m as usize, g.nbrs(m).len() as usize));
                g.lemma_vertex_subset(g.nbrs(m));
            }
            if vs.contains(x.0 as int) && x.1 as nat == g.nbrs(x.0 as int).intersect(vs).len() {
                let m = x.0 as int;
                assert(keyed@[m] == (m as usize, g.nbrs(m).len() as usize));
                assert(keyed@[m] == x);
                assert(keyed@.contains(x));
            }
        }
        assert forall|a: int, b: int| 0 <= a < b < sorted@.len() implies precedes(#[trigger] sorted@[a], #[trigger] sorted@[b]) by {
            assert(sorted@.contains(sorted@[a]));
            assert(sorted@.contains(sorted@[b]));
            assert(sorted@[a] != sorted@[b]);
            assert(!precedes(sorted@[b], sorted@[a]));
            let ma = choose|m: int| 0 <= m < keyed@.len() && keyed@[m] == sorted@[a];
            let mb = choose|m: int| 0 <= m < keyed@.len() && keyed@[m] == sorted@[b];
        }
        assert(ranks(g, vs, sorted@));
        lemma_ranked_unique(sorted@, degree_ranked(g, vs));
        assert(order@ =~= rank_order(g));
    }
    (order, pos)
}

/// The neighbour sets of `g` renumbered by `order`.
pub open spec fn relabel_fn(g: &Graph, order: Seq<usize>) -> spec_fn(int) -> Set<int> {
    |a: int| Set::new(|b: int| 0 <= a < order.len() && 0 <= b < order.len() && g.adjacent(order[a] as int, order[b] as int))
}

/// The clique that the exact search returns for `g`: the search on `g`
/// renumbered by `rank_order`, from the frame `(∅, V, ∅)` and an empty best,
/// mapped back to the vertex ids of `g`.
pub open spec fn exact_clique(g: &Graph) -> Set<int> {
    let order = rank_order(g);
    bk_search(relabel_fn(g, order), Set::empty(), g.vertices(), Set::empty(), Set::empty()).map(|i: int| order[i] as int)
}

/// A maximum clique of `g`, found by exact search on `g` renumbered by
/// non-increasing degree; its vertex ids in ascending order.
pub fn find_max_cliques_with_bk(g: &Graph) -> (r: Vec<usize>)
    requires
        g.wf(),
    ensures
        g.is_maximum_clique(ids(r@)),
        ascending(r@),
        r@.len() == ids(r@).len(),
        ids(r@) == exact_clique(g),
{
    let n = g.node_count();
    let (order, pos) = degree_order(g);
    let h = g.relabeled(&order, &pos);
    let mut current = VertexSet::new(n);
    let mut candidates = VertexSet::full(n);
    let mut excluded = VertexSet::new(n);
    let mut best = VertexSet::new(n);
    proof {
        assert(candidates@ =~= h.vertices());
        assert(h.is_clique(Set::<int>::empty()));
    }
    bron_kerbosch_pivot(&h, &mut current, &mut candidates, &mut excluded, &mut best);
    let found = best.to_vec();
    let mut image = VertexSet::new(n);
    let mut k: usize = 0;
    while k < found.len()
        invariant
            inverse_pair(n as nat, order@, pos@),
            n == g.n(),
            best@.subset_of(h.vertices()),
            h.n() == n,
            forall|j: int| 0 <= j < found@.len() ==> best@.contains(found@[j] as int),
            k <= found@.len(),
            image.wf(),
            image.width() == n,
            image@ == Set::new(|v: int| exists|j: int| 0 <= j < k && order@[found@[j] as int] == v),
        decreases found@.len() - k,
    {
        proof {
            assert(best@.contains(found@[k as int] as int));
        }
        image.insert(order[found[k]]);
        k = k + 1;
        proof {
            assert(image@ =~= Set::new(|v: int| exists|j: int| 0 <= j < k && order@[found@[j] as int] == v)) by {
                assert forall|v: int| image@.contains(v) implies exists|j: int| 0 <= j < k && order@[found@[j] as int] == v by {
                    if v == order@[found@[k - 1] as int] as int {
                        assert(order@[found@[k - 1] as int] == v);
                    }
                }
            }
        }
    }
    let r = image.to_vec();
    proof {
        let fwd = |i: int| order@[i] as int;
        let back = |v: int| pos@[v] as int;
        assert(image@ =~= best@.map(fwd)) by {
            assert forall|v: int| image@.contains(v) implies best@.map(fwd).contains(v) by {
                let j = choose|j: int| 0 <= j < found@.len() && order@[found@[j] as int] == v;
                assert(best@.contains(found@[j] as int));
                assert(fwd(found@[j] as int) == v);
            }
            assert forall|v: int| best@.map(fwd).contains(v) implies image@.contains(v) by {
                let i = choose|i: int| best@.contains(i) && fwd(i) == v;
                let j = choose|j: int| 0 <= j < found@.len() && found@[j] == i;
                assert(order@[found@[j] as int] == v);
            }
        }
        h.lemma_vertex_subset(best@);
        vstd::set_lib::lemma_map_size_bound(best@, best@.map(fwd), fwd);
        assert(best@ =~= image@.map(back)) by {
            assert forall|i: int| best@.contains(i) implies image@.map(back).contains(i) by {
                assert(image@.contains(fwd(i)));
                assert(back(fwd(i)) == i);
            }
            assert forall|i: int| image@.map(back).contains(i) implies best@.contains(i) by {
                let v = choose|v: int| image@.contains(v) && back(v) == i;
                let i0 = choose|i0: int| best@.contains(i0) && fwd(i0) == v;
                assert(back(fwd(i0)) == i0);
            }
        }
        vstd::set_lib::lemma_map_size_bound(image@, best@, back);
        assert(g.is_clique(image@)) by {
            assert forall|a: int, b: int| image@.contains(a) && image@.contains(b) && a != b implies #[trigger] g.adjacent(a, b) by {
                let ia = choose|i: int| best@.contains(i) && fwd(i) == a;
                let ib = choose|i: int| best@.contains(i) && fwd(i) == b;
                assert(h.adjacent(ia, ib));
            }
        }
        assert forall|c: Set<int>| #[trigger] g.is_clique(c) implies c.len() <= image@.len() by {
            let p = c.map(back);
            g.lemma_vertex_subset(c);
            vstd::set_lib::lemma_map_size_bound(c, p, back);
            assert(p.map(fwd) =~= c) by {
                assert forall|v: int| c.contains(v) implies p.map(fwd).contains(v) by {
                    assert(p.contains(back(v)));
                    assert(fwd(back(v)) == v);
                }
                assert forall|v: int| p.map(fwd).contains(v) implies c.contains(v) by {
                    let i = choose|i: int| p.contains(i) && fwd(i) == v;
                    let w = choose|w: int| c.contains(w) && back(w) == i;
                    assert(fwd(back(w)) == w);
                }
            }
            vstd::set_lib::lemma_map_size_bound(p, c, fwd);
            assert(h.is_clique(p)) by {
                assert forall|a: int, b: int| p.contains(a) && p.contains(b) && a != b implies #[trigger] h.adjacent(a, b) by {
                    let va = choose|w: int| c.contains(w) && back(w) == a;
                    let vb = choose|w: int| c.contains(w) && back(w) == b;
                    assert(g.adjacent(va, vb));
                    assert(fwd(back(va)) == va);
                    assert(fwd(back(vb)) == vb);
                }
            }
            assert(p.subset_of(h.vertices()));
            assert(!dominated(&h, Set::<int>::empty(), p));
        }
        assert(ids(r@) =~= image@);
        let ro = rank_order(g);
        assert forall|a: int| #[trigger] nbr_fn(&h)(a) =~= relabel_fn(g, ro)(a) by {
            assert forall|b: int| #[trigger] nbr_fn(&h)(a).contains(b) <==> relabel_fn(g, ro)(a).contains(b) by {
                assert(nbr_fn(&h)(a) == h.nbrs(a));
                if h.nbrs(a).contains(b) {
                    assert(h.adjacent(a, b));
                }
                if relabel_fn(g, ro)(a).contains(b) {
                    assert(h.adjacent(a, b));
                }
            }
        }
        assert(nbr_fn(&h) =~= relabel_fn(g, ro));
        assert(h.vertices() =~= g.vertices());
        let found_set = bk_search(relabel_fn(g, ro), Set::empty(), g.vertices(), Set::empty(), Set::empty());
        assert(best@ == found_set);
        assert(image@ =~= found_set.map(|i: int| ro[i] as int)) by {
            assert forall|v: int| #[trigger] image@.contains(v) <==> found_set.map(|i: int| ro[i] as int).contains(v) by {
                if image@.contains(v) {
                    assert(best@.map(fwd).contains(v));
                    let i = choose|i: int| best@.contains(i) && fwd(i) == v;
                    assert((|i: int| ro[i] as int)(i) == v);
                }
                if found_set.map(|i: int| ro[i] as int).contains(v) {
                    let i = choose|i: int| found_set.contains(i) && (|i: int| ro[i] as int)(i) == v;
                    assert(fwd(i) == v);
                    assert(best@.map(fwd).contains(v));
                }
            }
        }
    }
    r
}

/// Whether the exact search is chosen for `n` vertices and `e` edges: small
/// graphs, and sparse ones up to 500 vertices. With the density
/// `d = 2e / (n(n-1))`: `n <= 50`, or `n <= 100` and `d <= 0.9`, or
/// `n <= 200` and `d <= 0.8`, or `n <= 500` and `d <= 0.3`.
pub open spec fn prefers_exact(n: int, e: int) -> bool {
    ||| n <= 50
    ||| (n <= 100 && 20 * e <= 9 * (n * (n - 1)))
    ||| (n <= 200 && 20 * e <= 8 * (n * (n - 1)))
    ||| (n <= 500 && 20 * e <= 3 * (n * (n - 1)))
}

/// Whether `find_max_cliques` takes the exact search for `g`.
pub fn uses_exact(g: &Graph) -> (r: bool)
    requires
        g.wf(),
    ensures
        r == prefers_exact(g.n() as int, g.degree_total(g.n() as int) / 2),
{
    let n = g.node_count();
    if n <= 50 {
        return true;
    }
    if n > 500 {
        return false;
    }
    let mut total: usize = 0;
    let mut u: usize = 0;
    while u < n
        invariant
            g.wf(),
            n == g.n(),
            n <= 500,
            u <= n,
            total == g.degree_total(u as int),
            total <= u * n,
        decreases n - u,
    {
        proof {
            assert(g.nbrs(u as int).subset_of(g.vertices()));
            g.lemma_vertex_subset(g.nbrs(u as int));
            assert(total + n <= (u + 1) * n) by (nonlinear_arith)
                requires total <= u * n;
            assert((u + 1) * n <= 500 * 500) by (nonlinear_arith)
                requires u + 1 <= 500, n <= 500;
        }
        total = total + g.degree(u);
        u = u + 1;
    }
    proof {
        assert(n * (n - 1) <= 500 * 500) by (nonlinear_arith)
            requires n <= 500;
        assert(u * n <= 500 * 500) by (nonlinear_arith)
            requires u <= 500, n <= 500;
    }
    let e = total / 2;
    let pairs = n * (n - 1);
    (n <= 100 && 20 * e <= 9 * pairs) || (n <= 200 && 20 * e <= 8 * pairs) || 20 * e <= 3 * pairs
}

/// A clique of `g`, its vertex ids in ascending order: a maximum one by
/// exact search where `prefers_exact` holds, else the best that the
/// evolutionary search finds.
pub fn find_max_cliques(g: &Graph) -> (r: Vec<usize>)
    requires
        g.wf(),
    ensures
        g.is_clique(ids(r@)),
        g.is_maximal_clique(ids(r@)),
        ascending(r@),
        r@.len() == ids(r@).len(),
        prefers_exact(g.n() as int, g.degree_total(g.n() as int) / 2) ==> g.is_maximum_clique(ids(r@)),
        !prefers_exact(g.n() as int, g.degree_total(g.n() as int) / 2) && g.n() > 0 ==> ids(r@).len() >= seed_clique(g).len(),
        g.n() > 0 ==> r@.len() >= 1,
        (exists|a: int, b: int| #[trigger] g.adjacent(a, b)) ==> r@.len() >= 2,
{
    if uses_exact(g) {
        let r = find_max_cliques_with_bk(g);
        proof {
            let k = ids(r@);
            assert(g.extensions(k) =~= Set::<int>::empty()) by {
                assert forall|v: int| !g.extensions(k).contains(v) by {
                    if g.extensions(k).contains(v) {
                        let k2 = k.insert(v);
                        assert(g.is_clique(k2)) by {
                            assert forall|a: int, b: int| k2.contains(a) && k2.contains(b) && a != b implies #[trigger] g.adjacent(a, b) by {
                                if a == v {
                                    assert(g.adjacent(b, a));
                                    assert(g.adjacent(a, b));
                                } else if b == v {
                                } else {
                                    assert(k.contains(a) && k.contains(b));
                                }
                            }
                        }
                        g.lemma_vertex_subset(k);
                        assert(k2.len() == k.len() + 1);
                    }
                }
            }
            if g.n() > 0 {
                assert(g.is_clique(set![0int]));
                assert(set![0int].len() == 1);
            }
            if exists|a: int, b: int| #[trigger] g.adjacent(a, b) {
                let (a, b) = choose|a: int, b: int| #[trigger] g.adjacent(a, b);
                let e = set![a, b];
                assert(g.adjacent(b, a));
                assert(g.is_clique(e)) by {
                    assert forall|x: int, y: int| e.contains(x) && e.contains(y) && x != y implies #[trigger] g.adjacent(x, y) by {
                        if x == b {
                            assert(g.adjacent(b, a));
                        }
                    }
                }
                assert(e.len() == 2);
            }
        }
        r
    } else {
        find_max_cliques_with_ga(g)
    }
}

} // verus!
