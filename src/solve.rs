//! The entry point over external vertex ids: an edge list in, the ids of a
//! clique out.
use crate::graph::Graph;
use crate::max_clique::{ascending, find_max_cliques, ids, prefers_exact};
use vstd::prelude::*;

verus! {

/// The ids that occur in some edge.
pub open spec fn endpoints(edges: Seq<(usize, usize)>) -> Set<int> {
    Set::new(|v: int| exists|k: int| 0 <= k < edges.len() && (edges[k].0 == v || edges[k].1 == v))
}

/// Some edge joins `a` and `b`.
pub open spec fn linked(edges: Seq<(usize, usize)>, a: int, b: int) -> bool {
    exists|k: int| 0 <= k < edges.len() && ((edges[k].0 == a && edges[k].1 == b) || (edges[k].0 == b && edges[k].1 == a))
}

/// The external ids that share an edge with `x`, `x` itself left out.
pub open spec fn linked_ids(edges: Seq<(usize, usize)>, x: int) -> Set<int> {
    Set::new(|y: int| y != x && linked(edges, x, y))
}

/// The sum of `|linked_ids|` over the first `k` ids of `nodes`.
pub open spec fn linked_total(edges: Seq<(usize, usize)>, nodes: Seq<usize>, k: int) -> int
    decreases k,
{
    if k <= 0 {
        0
    } else {
        linked_total(edges, nodes, k - 1) + linked_ids(edges, nodes[k - 1] as int).len()
    }
}

/// The ids of the edges in ascending order.
pub open spec fn endpoint_list(edges: Seq<(usize, usize)>) -> Seq<usize> {
    choose|s: Seq<usize>| ascending(s) && ids(s) == endpoints(edges)
}

/// The exact search is taken for the graph of `edges`: `prefers_exact` on
/// the number of distinct ids and of distinct edges between two ids.
pub open spec fn solved_exactly(edges: Seq<(usize, usize)>) -> bool {
    let s = endpoint_list(edges);
    prefers_exact(s.len() as int, linked_total(edges, s, s.len() as int) / 2)
}

/// Two ascending lists of the same ids are equal.
pub proof fn lemma_ascending_unique(s1: Seq<usize>, s2: Seq<usize>)
    requires
        ascending(s1),
        ascending(s2),
        ids(s1) == ids(s2),
    ensures
        s1 == s2,
    decreases s1.len(),
{
    if s1.len() == 0 {
        if s2.len() > 0 {
            assert(ids(s2).contains(s2[0] as int));
        }
        assert(s1 =~= s2);
    } else {
        assert(ids(s1).contains(s1[0] as int));
        assert(ids(s2).contains(s2[0] as int));
        let j = choose|j: int| 0 <= j < s2.len() && s2[j] as int == s1[0] as int;
        let i = choose|i: int| 0 <= i < s1.len() && s1[i] as int == s2[0] as int;
        if j > 0 {
            assert(s2[0] < s2[j]);
            if i > 0 {
                assert(s1[0] < s1[i]);
            }
        }
        let r1 = s1.drop_first();
        let r2 = s2.drop_first();
        assert(ids(r1) =~= ids(r2)) by {
            assert forall|x: int| ids(r1).contains(x) implies ids(r2).contains(x) by {
                let a = choose|a: int| 0 <= a < r1.len() && r1[a] as int == x;
                assert(s1[0] < s1[a + 1]);
                assert(ids(s2).contains(x));
                let b = choose|b: int| 0 <= b < s2.len() && s2[b] as int == x;
                assert(r2[b - 1] == s2[b]);
            }
            assert forall|x: int| ids(r2).contains(x) implies ids(r1).contains(x) by {
                let a = choose|a: int| 0 <= a < r2.len() && r2[a] as int == x;
                assert(s2[0] < s2[a + 1]);
                assert(ids(s1).contains(x));
                let b = choose|b: int| 0 <= b < s1.len() && s1[b] as int == x;
                assert(r1[b - 1] == s1[b]);
            }
        }
        lemma_ascending_unique(r1, r2);
        assert(s1 =~= seq![s1[0]] + r1);
        assert(s2 =~= seq![s2[0]] + r2);
    }
}

/// The distinct ids of the edges, in ascending order: position `i` of the
/// result is the internal id of the external id at it.
pub fn sorted_endpoints(edges: &Vec<(usize, usize)>) -> (r: Vec<usize>)
    ensures
        ascending(r@),
        ids(r@) == endpoints(edges@),
{
    let mut out: Vec<usize> = Vec::new();
    let mut k: usize = 0;
    while k < edges.len()
        invariant
            k <= edges@.len(),
            ascending(out@),
            ids(out@) == endpoints(edges@.subrange(0, k as int)),
        decreases edges@.len() - k,
    {
        let ghost before = ids(out@);
        let (u, v) = edges[k];
        insert_sorted(&mut out, u);
        insert_sorted(&mut out, v);
        k = k + 1;
        proof {
            let pre0 = edges@.subrange(0, k - 1);
            let pre1 = edges@.subrange(0, k as int);
            assert(ids(out@) =~= endpoints(pre1)) by {
                assert forall|w: int| #[trigger] endpoints(pre1).contains(w) implies ids(out@).contains(w) by {
                    let j = choose|j: int| 0 <= j < pre1.len() && (pre1[j].0 == w || pre1[j].1 == w);
                    if j < k - 1 {
                        assert(pre0[j] == pre1[j]);
                        assert(endpoints(pre0).contains(w));
                    }
                }
                assert forall|w: int| ids(out@).contains(w) implies #[trigger] endpoints(pre1).contains(w) by {
                    if w != u as int && w != v as int {
                        assert(before.contains(w));
                        assert(endpoints(pre0).contains(w));
                        let j = choose|j: int| 0 <= j < pre0.len() && (pre0[j].0 == w || pre0[j].1 == w);
                        assert(pre1[j] == pre0[j]);
                    } else {
                        assert(pre1[k - 1] == (u, v));
                    }
                }
            }
        }
    }
    proof {
        assert(edges@.subrange(0, k as int) =~= edges@);
    }
    out
}

/// Puts `x` into the strictly ascending `v` unless it is there.
fn insert_sorted(v: &mut Vec<usize>, x: usize)
    requires
        ascending(old(v)@),
    ensures
        ascending(final(v)@),
        ids(final(v)@) == ids(old(v)@).insert(x as int),
{
    let mut pos: usize = 0;
    while pos < v.len() && v[pos] < x
        invariant
            pos <= v@.len(),
            ascending(v@),
            forall|j: int| 0 <= j < pos ==> v@[j] < x,
        decreases v@.len() - pos,
    {
        pos = pos + 1;
    }
    if pos < v.len() && v[pos] == x {
        proof {
            assert(ids(v@) =~= ids(v@).insert(x as int));
        }
        return;
    }
    let ghost before = v@;
    v.insert(pos, x);
    proof {
        assert forall|a: int, b: int| 0 <= a < b < v@.len() implies v@[a] < v@[b] by {
            if b < pos {
            } else if b == pos {
            } else if a < pos {
                assert(v@[b] == before[b - 1]);
            } else if a == pos {
                assert(v@[b] == before[b - 1]);
                if b - 1 > pos {
                    assert(before[pos as int] < before[b - 1]);
                }
            } else {
                assert(v@[a] == before[a - 1]);
                assert(v@[b] == before[b - 1]);
            }
        }
        assert(ids(v@) =~= ids(before).insert(x as int)) by {
            assert forall|w: int| ids(v@).contains(w) implies ids(before).insert(x as int).contains(w) by {
                let j = choose|j: int| 0 <= j < v@.len() && v@[j] as int == w;
                if j < pos {
                    assert(before[j] == v@[j]);
                } else if j > pos {
                    assert(before[j - 1] == v@[j]);
                }
            }
            assert forall|w: int| ids(before).insert(x as int).contains(w) implies ids(v@).contains(w) by {
                if w == x as int {
                    assert(v@[pos as int] == x);
                } else {
                    let j = choose|j: int| 0 <= j < before.len() && before[j] as int == w;
                    if j < pos {
                        assert(v@[j] == before[j]);
                    } else {
                        assert(v@[j + 1] == before[j]);
                    }
                }
            }
        }
    }
}

/// Renumbering through a strictly ascending list of ids is a bijection: the
/// id at position `i` occurs at no other position.
pub proof fn lemma_id_round_trip(nodes: Seq<usize>, i: int, j: int)
    requires
        ascending(nodes),
        0 <= i < nodes.len(),
        0 <= j < nodes.len(),
        nodes[i] == nodes[j],
    ensures
        i == j,
{
    if i < j {
        assert(nodes[i] < nodes[j]);
    } else if j < i {
        assert(nodes[j] < nodes[i]);
    }
}

/// The internal id of the external id `x`: its position in the strictly
/// ascending `v`, which holds it.
pub fn position_of(v: &Vec<usize>, x: usize) -> (r: usize)
    requires
        ascending(v@),
        ids(v@).contains(x as int),
    ensures
        r < v@.len(),
        v@[r as int] == x,
        forall|j: int| 0 <= j < v@.len() && v@[j] == x ==> j == r,
{
    let mut lo: usize = 0;
    let mut hi: usize = v.len();
    while lo + 1 < hi
        invariant
            lo < hi <= v@.len(),
            ascending(v@),
            ids(v@).contains(x as int),
            forall|j: int| 0 <= j < v@.len() && v@[j] == x ==> lo <= j < hi,
        decreases hi - lo,
    {
        let mid = lo + (hi - lo) / 2;
        if v[mid] <= x {
            lo = mid;
        } else {
            hi = mid;
        }
    }
    proof {
        let j = choose|j: int| 0 <= j < v@.len() && v@[j] as int == x as int;
        assert(j == lo as int);
        assert forall|j: int| 0 <= j < v@.len() && v@[j] == x implies j == lo by {
            lemma_id_round_trip(v@, j, lo as int);
        }
    }
    lo
}

/// The position of the id `y` in `nodes`.
pub open spec fn position_in(nodes: Seq<usize>, y: int) -> int {
    choose|i: int| 0 <= i < nodes.len() && nodes[i] as int == y
}

/// Where the graph's adjacency is that of `edges` through `nodes`, its
/// degrees are the external ones.
proof fn lemma_graph_matches(g: &Graph, edges: Seq<(usize, usize)>, nodes: Seq<usize>)
    requires
        g.wf(),
        g.n() == nodes.len(),
        ascending(nodes),
        ids(nodes) == endpoints(edges),
        forall|a: int, b: int| #[trigger] g.adjacent(a, b) <==> 0 <= a < nodes.len() && 0 <= b < nodes.len() && a != b && linked(edges, nodes[a] as int, nodes[b] as int),
    ensures
        forall|k: int| 0 <= k <= nodes.len() ==> #[trigger] g.degree_total(k) == linked_total(edges, nodes, k),
{
    assert forall|a: int| 0 <= a < nodes.len() implies #[trigger] g.nbrs(a).len() == linked_ids(edges, nodes[a] as int).len() by {
        let x = nodes[a] as int;
        let fwd = |i: int| nodes[i] as int;
        let back = |y: int| position_in(nodes, y);
        let na = g.nbrs(a);
        let la = linked_ids(edges, x);
        g.lemma_vertex_subset(na);
        assert(na.map(fwd) =~= la) by {
            assert forall|y: int| na.map(fwd).contains(y) implies la.contains(y) by {
                let i = choose|i: int| na.contains(i) && fwd(i) == y;
                assert(g.adjacent(a, i));
            }
            assert forall|y: int| la.contains(y) implies na.map(fwd).contains(y) by {
                let j = choose|j: int| 0 <= j < edges.len() && ((edges[j].0 == x && edges[j].1 == y) || (edges[j].0 == y && edges[j].1 == x));
                assert(endpoints(edges).contains(y));
                let i = back(y);
                assert(ids(nodes).contains(y));
                assert(0 <= i < nodes.len() && nodes[i] as int == y);
                assert(i != a);
                assert(g.adjacent(a, i));
                assert(na.contains(i));
            }
        }
        vstd::set_lib::lemma_map_size_bound(na, la, fwd);
        assert(la.map(back) =~= na) by {
            assert forall|i: int| na.contains(i) implies la.map(back).contains(i) by {
                assert(g.adjacent(a, i));
                let y = nodes[i] as int;
                assert(la.contains(y));
                let i2 = back(y);
                assert(ids(nodes).contains(y));
                assert(nodes[i2] as int == y);
                if i2 != i {
                    if i2 < i {
                        assert(nodes[i2] < nodes[i]);
                    } else {
                        assert(nodes[i] < nodes[i2]);
                    }
                }
            }
            assert forall|i: int| la.map(back).contains(i) implies na.contains(i) by {
                let y = choose|y: int| la.contains(y) && back(y) == i;
                let j = choose|j: int| 0 <= j < edges.len() && ((edges[j].0 == x && edges[j].1 == y) || (edges[j].0 == y && edges[j].1 == x));
                assert(endpoints(edges).contains(y));
                assert(ids(nodes).contains(y));
                assert(g.adjacent(a, i));
            }
        }
        vstd::set_lib::lemma_map_size_bound(la, na, back);
    }
    assert forall|k: int| 0 <= k <= nodes.len() implies #[trigger] g.degree_total(k) == linked_total(edges, nodes, k) by {
        lemma_totals(g, edges, nodes, k);
    }
}

proof fn lemma_totals(g: &Graph, edges: Seq<(usize, usize)>, nodes: Seq<usize>, k: int)
    requires
        0 <= k <= nodes.len(),
        forall|a: int| 0 <= a < nodes.len() ==> #[trigger] g.nbrs(a).len() == linked_ids(edges, nodes[a] as int).len(),
    ensures
        g.degree_total(k) == linked_total(edges, nodes, k),
    decreases k,
{
    if k > 0 {
        lemma_totals(g, edges, nodes, k - 1);
    }
}

/// A clique of the graph that `edges` give, as external ids in ascending
/// order. The ids are renumbered `0..n` by ascending value; self-loops are
/// ignored and repeated edges count once.
pub fn solve(edges: &Vec<(usize, usize)>) -> (r: Vec<usize>)
    ensures
        ascending(r@),
        ids(r@).subset_of(endpoints(edges@)),
        forall|i: int, j: int| 0 <= i < r@.len() && 0 <= j < r@.len() && i != j ==> linked(edges@, r@[i] as int, r@[j] as int),
        edges@.len() > 0 ==> r@.len() >= 1,
        (exists|k: int| 0 <= k < edges@.len() && #[trigger] edges@[k].0 != edges@[k].1) ==> r@.len() >= 2,
        solved_exactly(edges@) ==> forall|c: Set<int>| #![trigger c.subset_of(endpoints(edges@))] c.subset_of(endpoints(edges@)) && (forall|a: int, b: int| c.contains(a) && c.contains(b) && a != b ==> linked(edges@, a, b)) ==> c.len() <= r@.len(),
{
    let nodes = sorted_endpoints(edges);
    let n = nodes.len();
    let mut g = Graph::new(n);
    let mut k: usize = 0;
    while k < edges.len()
        invariant
            g.wf(),
            g.n() == n,
            n == nodes@.len(),
            ascending(nodes@),
            ids(nodes@) == endpoints(edges@),
            k <= edges@.len(),
            forall|a: int, b: int| #[trigger] g.adjacent(a, b) ==> 0 <= a < n && 0 <= b < n && linked(edges@, nodes@[a] as int, nodes@[b] as int),
            forall|j: int, a: int, b: int| #![trigger edges@[j], g.adjacent(a, b)] 0 <= j < k && 0 <= a < n && 0 <= b < n && a != b && nodes@[a] == edges@[j].0 && nodes@[b] == edges@[j].1 ==> g.adjacent(a, b),
        decreases edges@.len() - k,
    {
        let (u, v) = edges[k];
        proof {
            assert(endpoints(edges@).contains(u as int));
            assert(endpoints(edges@).contains(v as int));
        }
        let iu = position_of(&nodes, u);
        let iv = position_of(&nodes, v);
        g.add_edge(iu, iv);
        k = k + 1;
        proof {
            assert forall|j: int, a: int, b: int| #![trigger edges@[j], g.adjacent(a, b)] 0 <= j < k && 0 <= a < n && 0 <= b < n && a != b && nodes@[a] == edges@[j].0 && nodes@[b] == edges@[j].1 implies g.adjacent(a, b) by {
                if j == k - 1 {
                    assert(a == iu as int);
                    assert(b == iv as int);
                }
            }
        }
    }
    proof {
        assert forall|a: int, b: int| 0 <= a < n && 0 <= b < n && a != b && linked(edges@, nodes@[a] as int, nodes@[b] as int) implies #[trigger] g.adjacent(a, b) by {
            let j = choose|j: int| 0 <= j < edges@.len() && ((edges@[j].0 == nodes@[a] as int && edges@[j].1 == nodes@[b] as int) || (edges@[j].0 == nodes@[b] as int && edges@[j].1 == nodes@[a] as int));
            if edges@[j].0 == nodes@[a] as int && edges@[j].1 == nodes@[b] as int {
            } else {
                assert(g.adjacent(b, a));
            }
        }
        lemma_graph_matches(&g, edges@, nodes@);
    }
    let found = find_max_cliques(&g);
    let mut out: Vec<usize> = Vec::new();
    let mut i: usize = 0;
    while i < found.len()
        invariant
            g.wf(),
            g.n() == n,
            n == nodes@.len(),
            ascending(nodes@),
            ids(nodes@) == endpoints(edges@),
            g.is_clique(ids(found@)),
            ascending(found@),
            i <= found@.len(),
            out@.len() == i,
            forall|a: int, b: int| #[trigger] g.adjacent(a, b) ==> 0 <= a < n && 0 <= b < n && linked(edges@, nodes@[a] as int, nodes@[b] as int),
            forall|j: int| 0 <= j < i ==> found@[j] < n && #[trigger] out@[j] == nodes@[found@[j] as int],
        decreases found@.len() - i,
    {
        proof {
            assert(ids(found@).contains(found@[i as int] as int));
        }
        out.push(nodes[found[i]]);
        i = i + 1;
    }
    proof {
        assert forall|a: int, b: int| 0 <= a < b < out@.len() implies out@[a] < out@[b] by {
            assert(found@[a] < found@[b]);
        }
        assert forall|w: int| ids(out@).contains(w) implies endpoints(edges@).contains(w) by {
            let j = choose|j: int| 0 <= j < out@.len() && out@[j] as int == w;
            assert(ids(nodes@).contains(nodes@[found@[j] as int] as int));
        }
        assert forall|a: int, b: int| 0 <= a < out@.len() && 0 <= b < out@.len() && a != b implies linked(edges@, out@[a] as int, out@[b] as int) by {
            let fa = found@[a] as int;
            let fb = found@[b] as int;
            assert(ids(found@).contains(fa));
            assert(ids(found@).contains(fb));
            if a < b {
                assert(fa < fb);
            } else {
                assert(fb < fa);
            }
            assert(g.adjacent(fa, fb));
        }
        assert(out@.len() == found@.len());
        if edges@.len() > 0 {
            assert(endpoints(edges@).contains(edges@[0].0 as int));
            assert(ids(nodes@).contains(edges@[0].0 as int));
        }
        if exists|k: int| 0 <= k < edges@.len() && #[trigger] edges@[k].0 != edges@[k].1 {
            let k = choose|k: int| 0 <= k < edges@.len() && #[trigger] edges@[k].0 != edges@[k].1;
            assert(endpoints(edges@).contains(edges@[k].0 as int));
            assert(endpoints(edges@).contains(edges@[k].1 as int));
            let a = choose|a: int| 0 <= a < nodes@.len() && nodes@[a] as int == edges@[k].0 as int;
            let b = choose|b: int| 0 <= b < nodes@.len() && nodes@[b] as int == edges@[k].1 as int;
            assert(linked(edges@, nodes@[a] as int, nodes@[b] as int));
            assert(g.adjacent(a, b));
        }
        if solved_exactly(edges@) {
            assert(ascending(endpoint_list(edges@)) && ids(endpoint_list(edges@)) == endpoints(edges@));
            lemma_ascending_unique(nodes@, endpoint_list(edges@));
            assert(g.is_maximum_clique(ids(found@)));
            assert forall|c: Set<int>| #![trigger c.subset_of(endpoints(edges@))] c.subset_of(endpoints(edges@)) && (forall|a: int, b: int| c.contains(a) && c.contains(b) && a != b ==> linked(edges@, a, b)) implies c.len() <= out@.len() by {
                let back = |y: int| position_in(nodes@, y);
                let fwd = |i: int| nodes@[i] as int;
                let p = c.map(back);
                assert forall|y: int| c.contains(y) implies 0 <= #[trigger] back(y) < n && nodes@[back(y)] as int == y by {
                    assert(ids(nodes@).contains(y));
                }
                assert(p.subset_of(g.vertices()));
                g.lemma_vertex_subset(p);
                assert(p.map(fwd) =~= c) by {
                    assert forall|y: int| c.contains(y) implies p.map(fwd).contains(y) by {
                        assert(p.contains(back(y)));
                    }
                }
                vstd::set_lib::lemma_map_size_bound(p, c, fwd);
                assert(g.is_clique(p)) by {
                    assert forall|a: int, b: int| p.contains(a) && p.contains(b) && a != b implies #[trigger] g.adjacent(a, b) by {
                        let ya = choose|y: int| c.contains(y) && back(y) == a;
                        let yb = choose|y: int| c.contains(y) && back(y) == b;
                        assert(linked(edges@, ya, yb));
                    }
                }
            }
        }
    }
    out
}

} // verus!
