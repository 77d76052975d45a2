use clsat::history::conflict_graph::find_all_two_vertex_bottlenecks;

/// Adjacency lists over `n` nodes, all present.
fn graph(n: usize, edges: &[(usize, usize)]) -> (Vec<Vec<usize>>, Vec<bool>) {
    let mut adj = vec![Vec::new(); n];
    for &(u, v) in edges {
        adj[u].push(v);
    }
    (adj, vec![true; n])
}

#[test]
fn simple_parallel_paths_single_tvb() {
    // s=0, a=1, b=2, t=3
    let (adj, present) = graph(4, &[(0, 1), (0, 2), (1, 3), (2, 3)]);
    let got = find_all_two_vertex_bottlenecks(&adj, &present, 3).unwrap();
    assert_eq!(got, vec![(1, 2)]);
}

#[test]
fn two_parallel_chains_all_cross_pairs_are_tvbs() {
    // s=0, a1=1, a2=2, b1=3, b2=4, t=5
    let (adj, present) = graph(6, &[(0, 1), (1, 2), (2, 5), (0, 3), (3, 4), (4, 5)]);
    let got = find_all_two_vertex_bottlenecks(&adj, &present, 5).unwrap();
    assert_eq!(got, vec![(1, 3), (1, 4), (2, 3), (2, 4)]);
}

#[test]
fn three_disjoint_paths_give_no_tvbs() {
    // s=0, a=1, b=2, c=3, t=4
    let (adj, present) = graph(5, &[(0, 1), (1, 4), (0, 2), (2, 4), (0, 3), (3, 4)]);
    let got = find_all_two_vertex_bottlenecks(&adj, &present, 4).unwrap();
    assert!(got.is_empty());
}

#[test]
fn mixed_graph_some_pairs_yes_some_no() {
    // s=0, a=1, x=2, b=3, t=4
    let (adj, present) = graph(5, &[(0, 1), (1, 2), (2, 4), (0, 3), (3, 4)]);
    let got = find_all_two_vertex_bottlenecks(&adj, &present, 4).unwrap();
    assert_eq!(got, vec![(1, 3), (2, 3)]);
}

#[test]
fn malformed_graph_multiple_sources_returns_none() {
    // s1=0, s2=1, t=2
    let (adj, present) = graph(3, &[(0, 2), (1, 2)]);
    assert!(find_all_two_vertex_bottlenecks(&adj, &present, 2).is_none());
}

#[test]
fn direct_edge_no_internal_vertices() {
    let (adj, present) = graph(2, &[(0, 1)]);
    let got = find_all_two_vertex_bottlenecks(&adj, &present, 1).unwrap();
    assert!(got.is_empty());
}

#[test]
fn absent_slots_and_dead_ends_are_ignored() {
    // 0 -> 1 -> 3 (t), 0 -> 2 -> 3, 1 -> 4 (dead end), slot 5 absent but with an edge to 1.
    let (adj, mut present) = graph(6, &[(0, 1), (1, 3), (0, 2), (2, 3), (1, 4), (5, 1)]);
    present[5] = false;
    let got = find_all_two_vertex_bottlenecks(&adj, &present, 3).unwrap();
    assert_eq!(got, vec![(1, 2)]);
}

#[test]
fn conflict_absent_has_no_source() {
    let (adj, mut present) = graph(3, &[(0, 1), (1, 2)]);
    present[2] = false;
    assert!(find_all_two_vertex_bottlenecks(&adj, &present, 2).is_none());
}
