use graph_helpers::graph::Graph;

/// Build the flat row-major 0/1 matrix for an undirected edge list.
fn bits_of(n: usize, edges: &[(usize, usize)]) -> Vec<u8> {
    let mut bits = vec![0u8; n * n];
    for &(u, v) in edges {
        bits[n * u + v] = 1;
        bits[n * v + u] = 1;
    }
    bits
}

fn four_cycle() -> Graph {
    Graph::from_bit_matrix(4, &bits_of(4, &[(0, 1), (1, 2), (2, 3), (3, 0)]))
}

#[test]
fn four_cycle_degree_stats() {
    let g = four_cycle();
    assert_eq!(g.n(), 4);
    assert_eq!(g.min_degree(), 2);
    assert_eq!(g.max_degree(), 2);
    for u in 0..4u16 {
        assert_eq!(g.degree(u), 2);
    }
}

#[test]
fn four_cycle_edges() {
    let g = four_cycle();
    let e = g.edges();
    assert_eq!(e.len(), 4);
    // Each undirected edge exactly once, in index order (u, then v > u),
    // shown with 1-based labels.
    assert_eq!(e, vec![(1, 2), (1, 4), (2, 3), (3, 4)]);
    for pair in [(1, 2), (2, 3), (3, 4), (1, 4)] {
        assert!(e.contains(&pair));
    }
}

#[test]
fn four_cycle_induce_opposite_corners() {
    let g = four_cycle();
    let sub = g.induced(&vec![0, 2]);
    assert_eq!(sub.n(), 2);
    assert_eq!(sub.edges(), Vec::<(u16, u16)>::new());
    assert_eq!(sub.min_degree(), 0);
    assert_eq!(sub.max_degree(), 0);
    assert_eq!(sub.pretty(0), 1);
    assert_eq!(sub.pretty(1), 3);
}

#[test]
fn four_cycle_induce_full_is_identity() {
    let g = four_cycle();
    let sub = g.induced(&vec![0, 1, 2, 3]);
    assert_eq!(sub.n(), g.n());
    assert_eq!(sub.edges(), g.edges());
    for u in 0..4u16 {
        assert_eq!(sub.pretty(u), g.pretty(u));
        assert_eq!(sub.adj(u), g.adj(u));
    }
}

#[test]
fn induced_graphs_stay_symmetric() {
    let g = Graph::from_bit_matrix(
        5,
        &bits_of(5, &[(0, 1), (0, 2), (0, 3), (0, 4), (1, 2), (2, 3)]),
    );
    let sub = g.induced(&vec![0, 2, 3]);
    let n = sub.n();
    for u in 0..n {
        for &v in sub.adj(u).iter() {
            assert!(sub.adj(v).contains(&u), "edge {u}-{v} has no reverse");
        }
    }
}

#[test]
fn no_self_loops_imported_and_induced() {
    let g = four_cycle();
    for u in 0..g.n() {
        assert!(!g.adj(u).contains(&u));
    }
    let sub = g.induced(&vec![0, 1, 3]);
    for u in 0..sub.n() {
        assert!(!sub.adj(u).contains(&u));
    }
}

#[test]
fn induction_composes() {
    // A 6-vertex graph; induce on a = {0, 2, 3, 5}, then on local b = {0, 1, 3},
    // versus inducing directly on c = {a[0], a[1], a[3]} = {0, 2, 5}.
    let g = Graph::from_bit_matrix(
        6,
        &bits_of(6, &[(0, 2), (0, 5), (2, 3), (2, 5), (3, 5), (1, 4)]),
    );
    let a: Vec<u16> = vec![0, 2, 3, 5];
    let r1 = g.induced(&a);
    let b: Vec<u16> = vec![0, 1, 3];
    let r2 = r1.induced(&b);
    let c: Vec<u16> = b.iter().map(|&k| a[k as usize]).collect();
    let rc = g.induced(&c);
    assert_eq!(r2.n(), rc.n());
    assert_eq!(r2.edges(), rc.edges());
    for u in 0..r2.n() {
        assert_eq!(r2.pretty(u), rc.pretty(u));
        assert_eq!(r2.adj(u), rc.adj(u));
    }
}

#[test]
fn labels_survive_chained_inductions() {
    // Labels always point back to the first graph's 1-based numbering.
    let g = Graph::from_bit_matrix(6, &bits_of(6, &[(0, 1), (1, 2), (2, 3), (3, 4), (4, 5)]));
    let r1 = g.induced(&vec![1, 2, 4, 5]);
    assert_eq!(
        (0..r1.n()).map(|u| r1.pretty(u)).collect::<Vec<_>>(),
        vec![2, 3, 5, 6]
    );
    let r2 = r1.induced(&vec![0, 3]);
    assert_eq!(
        (0..r2.n()).map(|u| r2.pretty(u)).collect::<Vec<_>>(),
        vec![2, 6]
    );
}

#[test]
fn edge_count_is_half_degree_sum() {
    let graphs = [
        four_cycle(),
        Graph::from_bit_matrix(1, &bits_of(1, &[])),
        Graph::from_bit_matrix(5, &bits_of(5, &[(0, 1), (0, 2), (0, 3), (0, 4)])),
        Graph::from_bit_matrix(3, &bits_of(3, &[(0, 1), (1, 2), (0, 2)])),
    ];
    for g in graphs {
        let deg_sum: usize = (0..g.n()).map(|u| g.degree(u)).sum();
        assert_eq!(2 * g.edges().len(), deg_sum);
    }
}

#[test]
fn min_degree_never_exceeds_max_degree() {
    let graphs = [
        four_cycle(),
        Graph::from_bit_matrix(5, &bits_of(5, &[(0, 1), (0, 2), (0, 3), (0, 4)])),
        Graph::from_bit_matrix(2, &bits_of(2, &[(0, 1)])),
    ];
    for g in graphs {
        assert!(g.min_degree() <= g.max_degree());
    }
}

#[test]
fn zero_vertex_graph_is_defined() {
    let g = Graph::from_bit_matrix(0, &Vec::new());
    assert_eq!(g.n(), 0);
    assert_eq!(g.min_degree(), 0);
    assert_eq!(g.max_degree(), 0);
    assert!(g.edges().is_empty());
    assert!(g.vertices().is_empty());
}

#[test]
fn edgeless_graph_degrees_are_zero() {
    let g = Graph::from_bit_matrix(3, &bits_of(3, &[]));
    assert_eq!(g.min_degree(), 0);
    assert_eq!(g.max_degree(), 0);
    assert!(g.edges().is_empty());
}

#[test]
fn default_graph_is_empty() {
    let g = Graph::default();
    assert_eq!(g.n(), 0);
    assert!(g.edges().is_empty());
}

#[test]
fn vertices_and_vertices_from() {
    let g = four_cycle();
    assert_eq!(g.vertices(), vec![0, 1, 2, 3]);
    assert_eq!(g.vertices_from(2), vec![2, 3]);
    assert_eq!(g.vertices_from(4), Vec::<u16>::new());
}

#[test]
fn induce_small_subset_of_high_degree_vertices() {
    // Complete graph on 8 vertices: every degree (7) exceeds the subset size,
    // so each row is built by walking the subset.
    let mut edges = Vec::new();
    for u in 0..8 {
        for v in (u + 1)..8 {
            edges.push((u, v));
        }
    }
    let g = Graph::from_bit_matrix(8, &bits_of(8, &edges));
    let sub = g.induced(&vec![1, 4, 6]);
    assert_eq!(sub.n(), 3);
    assert_eq!(sub.edges(), vec![(2, 5), (2, 7), (5, 7)]);
    assert_eq!(sub.min_degree(), 2);
    assert_eq!(sub.max_degree(), 2);
}

#[test]
fn induce_large_subset_of_low_degree_vertices() {
    // A path on 8 vertices: the subset is larger than every degree, so each
    // row is built by walking the vertex's neighbor set.
    let g = Graph::from_bit_matrix(
        8,
        &bits_of(8, &[(0, 1), (1, 2), (2, 3), (3, 4), (4, 5), (5, 6), (6, 7)]),
    );
    let sub = g.induced(&vec![0, 1, 2, 3, 4, 5, 6]);
    assert_eq!(sub.n(), 7);
    assert_eq!(
        sub.edges(),
        vec![(1, 2), (2, 3), (3, 4), (4, 5), (5, 6), (6, 7)]
    );
    assert_eq!(sub.min_degree(), 1);
    assert_eq!(sub.max_degree(), 2);
}

#[test]
fn adjacency_is_sorted_and_deduplicated() {
    let g = Graph::from_bit_matrix(
        5,
        &bits_of(5, &[(0, 4), (0, 1), (0, 3), (0, 2), (2, 4)]),
    );
    assert_eq!(g.adj(0), &vec![1, 2, 3, 4]);
    assert_eq!(g.adj(4), &vec![0, 2]);
    let sub = g.induced(&vec![0, 2, 4]);
    assert_eq!(sub.adj(0), &vec![1, 2]);
    assert_eq!(sub.adj(1), &vec![0, 2]);
    assert_eq!(sub.adj(2), &vec![0, 1]);
}
