use clique::bitset::VertexSet;
use clique::graph_reader::{parse_dimacs, GraphErr};
use clique::ga::{
    find_max_cliques_with_ga, max_degree_node, pick_two, sort_by_degree, Clique, GAConfig,
    GeneticAlgorithm,
};
use clique::graph::Graph;
use clique::max_clique::{degree_order, find_max_cliques, find_max_cliques_with_bk, uses_exact};
use clique::solve::{position_of, solve, sorted_endpoints};

struct Lcg(u64);

impl Lcg {
    fn next(&mut self) -> u64 {
        self.0 = self.0.wrapping_mul(6364136223846793005).wrapping_add(1442695040888963407);
        self.0 >> 33
    }
}

fn random_edges(n: usize, percent: u64, seed: u64) -> Vec<(usize, usize)> {
    let mut rng = Lcg(seed);
    let mut e = Vec::new();
    for u in 0..n {
        for v in (u + 1)..n {
            if rng.next() % 100 < percent {
                e.push((u, v));
            }
        }
    }
    e
}

fn graph_of(n: usize, edges: &[(usize, usize)]) -> Graph {
    let mut g = Graph::new(n);
    for &(u, v) in edges {
        g.add_edge(u, v);
    }
    g
}

fn adjacent(edges: &[(usize, usize)], a: usize, b: usize) -> bool {
    edges.iter().any(|&(u, v)| (u == a && v == b) || (u == b && v == a))
}

fn is_clique(n: usize, edges: &[(usize, usize)], k: &[usize]) -> bool {
    k.iter().all(|&a| a < n) && k.iter().all(|&a| k.iter().all(|&b| a == b || adjacent(edges, a, b)))
}

fn brute_force_omega(n: usize, edges: &[(usize, usize)]) -> usize {
    let mut best = 0;
    for mask in 0u32..(1u32 << n) {
        let k: Vec<usize> = (0..n).filter(|&i| mask & (1 << i) != 0).collect();
        if k.len() > best && is_clique(n, edges, &k) {
            best = k.len();
        }
    }
    best
}

fn brute_force_pa(n: usize, edges: &[(usize, usize)], k: &[usize]) -> Vec<usize> {
    (0..n)
        .filter(|v| !k.contains(v) && k.iter().all(|&u| adjacent(edges, u, *v)))
        .collect()
}

fn check_individual(g: &Graph, n: usize, edges: &[(usize, usize)], c: &Clique) {
    let k = c.clique_vertices(g);
    assert!(is_clique(n, edges, &k));
    assert_eq!(c.pa_vertices(g), brute_force_pa(n, edges, &k));
}

#[test]
fn exact_solver_matches_brute_force() {
    for seed in 0..12u64 {
        let n = 6 + (seed as usize % 7);
        let edges = random_edges(n, 30 + seed * 5, seed);
        let g = graph_of(n, &edges);
        let r = find_max_cliques_with_bk(&g);
        assert!(is_clique(n, &edges, &r));
        assert_eq!(r.len(), brute_force_omega(n, &edges));
    }
}

#[test]
fn dispatcher_result_is_maximum_on_small_graphs() {
    let edges = random_edges(12, 50, 99);
    let g = graph_of(12, &edges);
    assert!(uses_exact(&g));
    let r = find_max_cliques(&g);
    assert!(is_clique(12, &edges, &r));
    assert_eq!(r.len(), brute_force_omega(12, &edges));
}

#[test]
fn exact_solver_is_deterministic() {
    let edges = random_edges(30, 60, 7);
    let g = graph_of(30, &edges);
    let a = find_max_cliques_with_bk(&g);
    let b = find_max_cliques_with_bk(&g);
    assert_eq!(a, b);
}

#[test]
fn heuristic_result_is_a_clique_no_smaller_than_the_seed() {
    for seed in 0..3u64 {
        let n = 25;
        let edges = random_edges(n, 55, seed + 40);
        let g = graph_of(n, &edges);
        let r = find_max_cliques_with_ga(&g);
        assert!(is_clique(n, &edges, &r));
        let mut s = Clique::new(&g, max_degree_node(&g));
        s.greedy_expand_in_pa(&g);
        assert!(r.len() >= s.size(&g));
    }
}

#[test]
fn best_clique_never_shrinks_across_generations() {
    let edges = random_edges(20, 50, 3);
    let g = graph_of(20, &edges);
    let config = GAConfig { population_size: 4, max_generations: 0, shuffle_tolerance: 2, local_improvement_iter: 2 };
    let mut ga = GeneticAlgorithm::new(&g, config);
    let mut last = ga.best_clique().count();
    for _ in 0..25 {
        ga.evolve(&g);
        let now = ga.best_clique().count();
        assert!(now >= last);
        last = now;
    }
    assert!(is_clique(20, &edges, &ga.best_clique().to_vec()));
}

#[test]
fn individual_invariant_holds_after_each_operation() {
    let n = 14;
    let edges = random_edges(n, 55, 11);
    let g = graph_of(n, &edges);
    let mut rng = rand::rng();
    let mut c = Clique::new(&g, 3);
    check_individual(&g, n, &edges, &c);
    let pa = c.pa_vertices(&g);
    if let Some(&v) = pa.first() {
        c.add_vertex(&g, v);
        check_individual(&g, n, &edges, &c);
    }
    c.greedy_expand_in_pa(&g);
    check_individual(&g, n, &edges, &c);
    assert!(c.pa_vertices(&g).is_empty());
    let k = c.clique_vertices(&g);
    c.remove_vertex(&g, k[0]);
    check_individual(&g, n, &edges, &c);
    if k.len() > 1 {
        c.remove_vertex(&g, k[1]);
        check_individual(&g, n, &edges, &c);
    }
    c.local_improvement(&g, 5, &mut rng);
    check_individual(&g, n, &edges, &c);
    let ga = GeneticAlgorithm::new(&g, GAConfig::default());
    ga.mutate(&g, &mut c, &mut rng);
    check_individual(&g, n, &edges, &c);
    let mut p1 = Clique::new(&g, 0);
    p1.greedy_expand_in_pa(&g);
    let mut p2 = Clique::new(&g, 5);
    p2.greedy_expand_in_pa(&g);
    let child = ga.crossover(&g, &p1, &p2, &mut rng);
    check_individual(&g, n, &edges, &child);
    assert!(child.pa_vertices(&g).is_empty());
    let kid = ga.offspring(&g, &mut rng);
    check_individual(&g, n, &edges, &kid);
}

#[test]
fn remove_recomputes_possible_additions() {
    // 0-1-2 triangle plus 3 joined to 0 only: after dropping 1 and 2 from
    // {0, 1, 2}, vertex 3 becomes a possible addition again.
    let edges = vec![(0, 1), (1, 2), (0, 2), (0, 3)];
    let g = graph_of(4, &edges);
    let mut c = Clique::new(&g, 0);
    c.add_vertex(&g, 1);
    c.add_vertex(&g, 2);
    assert!(c.pa_vertices(&g).is_empty());
    c.remove_vertex(&g, 1);
    assert_eq!(c.pa_vertices(&g), vec![1]);
    c.remove_vertex(&g, 2);
    assert_eq!(c.pa_vertices(&g), vec![1, 2, 3]);
    c.remove_vertex(&g, 0);
    assert_eq!(c.pa_vertices(&g), vec![0, 1, 2, 3]);
    assert!(c.clique_vertices(&g).is_empty());
}

#[test]
fn greedy_expansion_prefers_high_degree() {
    // star centre 0 with leaves 1..4, plus the triangle 0-1-2.
    let edges = vec![(0, 1), (0, 2), (0, 3), (0, 4), (1, 2)];
    let g = graph_of(5, &edges);
    let mut c = Clique::new(&g, 0);
    c.greedy_expand_in_pa(&g);
    assert_eq!(c.clique_vertices(&g), vec![0, 1, 2]);
}

#[test]
fn sort_orders_by_degree_then_id() {
    let v = vec![(3, 1), (1, 2), (0, 1), (2, 5), (4, 2)];
    assert_eq!(sort_by_degree(&v), vec![(2, 5), (1, 2), (4, 2), (0, 1), (3, 1)]);
}

#[test]
fn max_degree_prefers_smallest_id_on_tie() {
    let g = graph_of(5, &[(1, 2), (3, 4), (0, 4)]);
    assert_eq!(max_degree_node(&g), 4);
    let h = graph_of(4, &[(0, 1), (2, 3)]);
    assert_eq!(max_degree_node(&h), 0);
}

#[test]
fn pick_two_gives_distinct_indices() {
    let mut rng = rand::rng();
    for _ in 0..50 {
        let (a, b) = pick_two(5, &mut rng);
        assert!(a < 5 && b < 5 && a != b);
    }
    assert_eq!(pick_two(1, &mut rng), (0, 0));
}

#[test]
fn default_config_values() {
    let c = GAConfig::default();
    assert_eq!(c.population_size, 10);
    assert_eq!(c.max_generations, 300);
    assert_eq!(c.shuffle_tolerance, 10);
    assert_eq!(c.local_improvement_iter, 10);
}

#[test]
fn dispatcher_thresholds() {
    assert!(uses_exact(&Graph::new(50)));
    assert!(!uses_exact(&Graph::new(501)));
    assert!(uses_exact(&Graph::new(300)));
    let dense: Vec<(usize, usize)> = random_edges(101, 100, 1);
    assert!(!uses_exact(&graph_of(101, &dense)));
    // density exactly 0.9 on 100 vertices: 4455 of the 4950 pairs.
    let mut e = Vec::new();
    for u in 0..100 {
        for v in (u + 1)..100 {
            if e.len() < 4455 {
                e.push((u, v));
            }
        }
    }
    assert!(uses_exact(&graph_of(100, &e)));
    e.clear();
    for u in 0..100 {
        for v in (u + 1)..100 {
            if e.len() < 4456 {
                e.push((u, v));
            }
        }
    }
    assert!(!uses_exact(&graph_of(100, &e)));
}

#[test]
fn external_ids_are_renumbered_by_value() {
    assert_eq!(sorted_endpoints(&vec![(40, 10), (30, 10), (20, 40)]), vec![10, 20, 30, 40]);
    let r = solve(&vec![(10, 20), (20, 30), (10, 30), (30, 40), (7, 7)]);
    assert_eq!(r, vec![10, 20, 30]);
    assert_eq!(solve(&vec![(5, 5)]), vec![5]);
    assert_eq!(solve(&vec![(3, 9), (9, 3)]), vec![3, 9]);
}

#[test]
fn dimacs_reads_vertices_and_edges() {
    let text = b"c sample\np edge 4 4\ne 1 2\ne 2 3\r\ne 1 3\ne 3 4\n";
    let g = parse_dimacs(text).ok().unwrap();
    assert_eq!(g.node_count(), 4);
    assert_eq!(g.degree(0), 2);
    assert_eq!(g.degree(2), 3);
    assert_eq!(g.degree(3), 1);
    assert!(g.neighbors(0).contains(1) && g.neighbors(1).contains(0));
    assert!(!g.neighbors(0).contains(3));
    assert_eq!(find_max_cliques(&g), vec![0, 1, 2]);
}

#[test]
fn dimacs_without_trailing_newline_and_loops() {
    let g = parse_dimacs(b"p edge 3 2\ne 2 2\ne 1 3").ok().unwrap();
    assert_eq!(g.node_count(), 3);
    assert_eq!(g.degree(1), 0);
    assert_eq!(g.degree(0), 1);
}

fn is_parse_error(r: Result<Graph, GraphErr>) -> bool {
    matches!(r, Err(GraphErr::ParseError(_)))
}

#[test]
fn dimacs_errors() {
    assert!(is_parse_error(parse_dimacs(b"p edge 3 1\ne 1 2 3\n")));
    assert!(is_parse_error(parse_dimacs(b"p edge 3 1\ne 1\n")));
    assert!(is_parse_error(parse_dimacs(b"e 1 2\np edge 3 1\n")));
    assert!(is_parse_error(parse_dimacs(b"c only a comment\n")));
    assert!(is_parse_error(parse_dimacs(b"")));
    assert!(is_parse_error(parse_dimacs(b"p edge 3 1\ne 1 4\n")));
    assert!(is_parse_error(parse_dimacs(b"p edge 3 1\ne 0 1\n")));
    assert!(is_parse_error(parse_dimacs(b"p edge 3 1\ne 1 x\n")));
    assert!(is_parse_error(parse_dimacs(b"p edge 3 1\ne 1 99999999999\n")));
    assert!(is_parse_error(parse_dimacs(b"p edge\n")));
    assert!(is_parse_error(parse_dimacs(b"p edge 3 0\np edge 3 0\n")));
    assert!(parse_dimacs(b"x ignored\np edge 2 0\n").is_ok());
}

#[test]
fn graph_err_from_str() {
    match GraphErr::from("bad") {
        GraphErr::ParseError(m) => assert_eq!(m, "bad"),
        _ => panic!("expected a parse error"),
    }
}

#[test]
fn vertex_set_operations() {
    let mut a = VertexSet::new(10);
    assert!(a.is_empty());
    assert_eq!(a.first(), None);
    a.insert(7);
    a.insert(2);
    a.insert(5);
    assert!(a.contains(7) && !a.contains(3) && !a.contains(20));
    assert_eq!(a.count(), 3);
    assert_eq!(a.first(), Some(2));
    assert_eq!(a.to_vec(), vec![2, 5, 7]);
    let mut b = VertexSet::new(10);
    b.insert(5);
    b.insert(9);
    let mut i = a.clone();
    i.intersect_with(&b);
    assert_eq!(i.to_vec(), vec![5]);
    let mut d = a.clone();
    d.difference_with(&b);
    assert_eq!(d.to_vec(), vec![2, 7]);
    let mut u = a.clone();
    u.union_with(&b);
    assert_eq!(u.to_vec(), vec![2, 5, 7, 9]);
    a.remove(5);
    assert_eq!(a.to_vec(), vec![2, 7]);
    assert_eq!(VertexSet::full(4).to_vec(), vec![0, 1, 2, 3]);
    assert_eq!(a.clone().to_vec(), vec![2, 7]);
}

#[test]
fn degree_order_is_by_decreasing_degree_then_id() {
    // degrees: 0 -> 1, 1 -> 3, 2 -> 2, 3 -> 2, 4 -> 0
    let g = graph_of(5, &[(1, 0), (1, 2), (1, 3), (2, 3)]);
    let (order, pos) = degree_order(&g);
    assert_eq!(order, vec![1, 2, 3, 0, 4]);
    assert_eq!(pos, vec![3, 0, 1, 2, 4]);
}

#[test]
fn relabeled_graph_keeps_adjacency() {
    let g = graph_of(4, &[(0, 1), (1, 2), (2, 3)]);
    let order = vec![2, 0, 3, 1];
    let pos = vec![1, 3, 0, 2];
    let h = g.relabeled(&order, &pos);
    for a in 0..4 {
        for b in 0..4 {
            assert_eq!(h.neighbors(a).contains(b), g.neighbors(order[a]).contains(order[b]));
        }
    }
}

#[test]
fn crossover_keeps_shared_members() {
    // two triangles 0-1-2 and 1-2-3 sharing the edge 1-2, plus 0-4.
    let edges = vec![(0, 1), (0, 2), (1, 2), (1, 3), (2, 3), (0, 4)];
    let g = graph_of(5, &edges);
    let mut p1 = Clique::new(&g, 0);
    p1.add_vertex(&g, 1);
    p1.add_vertex(&g, 2);
    let mut p2 = Clique::new(&g, 3);
    p2.add_vertex(&g, 1);
    p2.add_vertex(&g, 2);
    let ga = GeneticAlgorithm::new(&g, GAConfig::default());
    let mut rng = rand::rng();
    for _ in 0..20 {
        let child = ga.crossover(&g, &p1, &p2, &mut rng);
        let k = child.clique_vertices(&g);
        assert!(k.contains(&1) && k.contains(&2));
        assert_eq!(k.len(), 3);
    }
    // disjoint parents: the union {0, 4} and {1, 3}; 0 has the most
    // neighbours inside it, so the child starts from 0.
    let mut q1 = Clique::new(&g, 0);
    q1.add_vertex(&g, 4);
    let mut q2 = Clique::new(&g, 1);
    q2.add_vertex(&g, 3);
    let child = ga.crossover(&g, &q1, &q2, &mut rng);
    assert_eq!(child.clique_vertices(&g), vec![0, 1, 2]);
}

#[test]
fn dimacs_tokens_split_on_any_ascii_whitespace() {
    let g = parse_dimacs(b"p\tedge  3 1\ne\t1   3  \n").ok().unwrap();
    assert_eq!(g.node_count(), 3);
    assert!(g.neighbors(0).contains(2));
}

#[test]
fn internal_ids_round_trip() {
    let nodes = sorted_endpoints(&vec![(8, 3), (5, 8), (13, 3)]);
    assert_eq!(nodes, vec![3, 5, 8, 13]);
    for (i, &x) in nodes.iter().enumerate() {
        assert_eq!(position_of(&nodes, x), i);
    }
}

#[test]
fn local_improvement_completes_a_partial_clique() {
    let e: Vec<(usize, usize)> = vec![(0, 1), (0, 2), (0, 3), (1, 2), (1, 3), (2, 3)];
    let g = graph_of(4, &e);
    let mut rng = rand::rng();
    let mut c = Clique::new(&g, 0);
    c.add_vertex(&g, 1);
    c.local_improvement(&g, 1, &mut rng);
    assert_eq!(c.clique_vertices(&g), vec![0, 1, 2, 3]);
    let mut d = Clique::new(&g, 0);
    d.add_vertex(&g, 1);
    d.local_improvement(&g, 0, &mut rng);
    assert_eq!(d.clique_vertices(&g), vec![0, 1]);
}

#[test]
fn solve_lower_bounds() {
    assert_eq!(solve(&vec![(4, 4)]).len(), 1);
    assert_eq!(solve(&vec![(4, 4), (2, 9)]).len(), 2);
}

#[test]
fn evolve_keeps_population_size() {
    let edges = random_edges(15, 50, 21);
    let g = graph_of(15, &edges);
    let config = GAConfig { population_size: 5, max_generations: 0, shuffle_tolerance: 1, local_improvement_iter: 1 };
    let mut ga = GeneticAlgorithm::new(&g, config);
    for _ in 0..5 {
        ga.evolve(&g);
    }
    assert!(is_clique(15, &edges, &ga.best_clique().to_vec()));
}
