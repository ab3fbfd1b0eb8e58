use clique::ga::{find_max_cliques_with_ga, Clique};
use clique::graph::Graph;
use clique::max_clique::{find_max_cliques, find_max_cliques_with_bk};
use clique::solve::solve;

fn graph_of(n: usize, edges: &[(usize, usize)]) -> Graph {
    let mut g = Graph::new(n);
    for &(u, v) in edges {
        g.add_edge(u, v);
    }
    g
}

fn is_clique(n: usize, edges: &[(usize, usize)], k: &[usize]) -> bool {
    let adj = |a: usize, b: usize| edges.iter().any(|&(u, v)| (u == a && v == b) || (u == b && v == a));
    k.iter().all(|&a| a < n) && k.iter().all(|&a| k.iter().all(|&b| a == b || adj(a, b)))
}

fn complete(n: usize) -> Vec<(usize, usize)> {
    let mut e = Vec::new();
    for u in 0..n {
        for v in (u + 1)..n {
            e.push((u, v));
        }
    }
    e
}

fn cycle(n: usize) -> Vec<(usize, usize)> {
    (0..n).map(|i| (i, (i + 1) % n)).collect()
}

#[test]
fn empty_graph_gives_empty_clique() {
    let g = Graph::new(0);
    assert_eq!(find_max_cliques(&g).len(), 0);
    assert_eq!(find_max_cliques_with_bk(&g).len(), 0);
    assert_eq!(find_max_cliques_with_ga(&g).len(), 0);
    assert_eq!(solve(&vec![]).len(), 0);
}

#[test]
fn isolated_vertices_give_one_vertex() {
    let g = Graph::new(3);
    assert_eq!(find_max_cliques(&g).len(), 1);
    assert_eq!(find_max_cliques_with_ga(&g).len(), 1);
}

#[test]
fn triangle_gives_three() {
    let r = solve(&vec![(1, 2), (2, 3), (1, 3)]);
    assert_eq!(r, vec![1, 2, 3]);
}

#[test]
fn five_cycle_gives_two() {
    let e = cycle(5);
    let g = graph_of(5, &e);
    let r = find_max_cliques(&g);
    assert_eq!(r.len(), 2);
    assert!(is_clique(5, &e, &r));
    let h = find_max_cliques_with_ga(&g);
    assert_eq!(h.len(), 2);
    assert!(is_clique(5, &e, &h));
}

#[test]
fn complete_five_gives_five() {
    let e = complete(5);
    let g = graph_of(5, &e);
    assert_eq!(find_max_cliques(&g), vec![0, 1, 2, 3, 4]);
    assert_eq!(find_max_cliques_with_ga(&g), vec![0, 1, 2, 3, 4]);
}
