use systile::graph::TensorGraph;

fn example_graph() -> TensorGraph {
    let mut g = TensorGraph::new(4);
    g.add_edge(0, 1, 4);
    g.add_edge(0, 2, 1);
    g.add_edge(2, 1, 2);
    g.add_edge(1, 3, 1);
    g.add_edge(2, 3, 5);
    g
}

#[test]
fn shortest_route_beats_direct_one() {
    let g = example_graph();
    assert_eq!(g.nodes(), 4);
    assert_eq!(g.edge_count(), 5);
    assert_eq!(g.distance(0, 3), Some(4));
    assert_eq!(g.distance(0, 1), Some(3));
    assert_eq!(g.distance(0, 0), Some(0));
    assert_eq!(g.distance(2, 3), Some(3));
    assert_eq!(g.distance(3, 0), None);
    assert_eq!(g.distance(1, 2), None);
}

#[test]
fn all_pairs_table() {
    let g = example_graph();
    let inf = u64::MAX;
    let d = g.shortest_paths();
    assert_eq!(
        d.to_dense(),
        vec![0, 3, 1, 4, inf, 0, inf, 1, inf, 2, 0, 3, inf, inf, inf, 0]
    );
}

#[test]
fn reachability_follows_edges() {
    let g = example_graph();
    assert!(g.reachable(0, 3));
    assert!(!g.reachable(3, 0));
    assert!(g.reachable(2, 3));
    assert!(g.reachable(1, 1));
    assert!(!g.reachable(1, 2));
    let r = g.reachability();
    assert_eq!(
        r.to_dense(),
        vec![true, true, true, true, false, true, false, true, false, true, true, true, false, false, false, true]
    );
}

#[test]
fn parallel_edges_keep_the_lightest() {
    let mut g = TensorGraph::new(2);
    g.add_edge(0, 1, 9);
    g.add_edge(0, 1, 2);
    g.add_edge(0, 1, 5);
    assert_eq!(g.distance(0, 1), Some(2));
}

#[test]
fn long_chain_needs_several_squarings() {
    let n = 9;
    let mut g = TensorGraph::new(n);
    for i in 0..n - 1 {
        g.add_edge(i, i + 1, (i + 1) as u64);
    }
    assert_eq!(g.distance(0, n - 1), Some(36));
    assert!(g.reachable(0, n - 1));
    assert!(!g.reachable(n - 1, 0));
}

#[test]
fn unweighted_edges_cost_one() {
    let mut g = TensorGraph::new(3);
    g.add_edge_unweighted(0, 1);
    g.add_edge_unweighted(1, 2);
    assert_eq!(g.distance(0, 2), Some(2));
}

#[test]
fn walk_counts_are_adjacency_powers() {
    // A directed triangle plus a chord 0 -> 2.
    let mut g = TensorGraph::new(3);
    g.add_edge_unweighted(0, 1);
    g.add_edge_unweighted(1, 2);
    g.add_edge_unweighted(2, 0);
    g.add_edge_unweighted(0, 2);
    assert_eq!(g.walk_counts(0).to_dense(), vec![1, 0, 0, 0, 1, 0, 0, 0, 1]);
    assert_eq!(g.walk_counts(1).to_dense(), vec![0, 1, 1, 0, 0, 1, 1, 0, 0]);
    // Two-step walks: 0->1->2, 0->2->0, 1->2->0, 2->0->1, 2->0->2.
    assert_eq!(g.walk_counts(2).to_dense(), vec![1, 0, 1, 1, 0, 0, 0, 1, 1]);
    // Three-step walks from 0: 0->1->2->0, 0->2->0->1, 0->2->0->2.
    let w3 = g.walk_counts(3).to_dense();
    assert_eq!(&w3[0..3], &[1, 1, 1]);
}

#[test]
fn huge_graphs_can_be_built_and_edited() {
    let n = 1usize << 40;
    let mut g = TensorGraph::new(n);
    g.add_edge(0, n - 1, 3);
    assert_eq!(g.nodes(), n);
    assert_eq!(g.edge_count(), 1);
}
