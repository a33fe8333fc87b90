use shortest_paths::facade::shortest_path;
use shortest_paths::facade::shortest_path_to;
use shortest_paths::facade::Algorithm;
use shortest_paths::graph::Graph;
use shortest_paths::graph::GraphError;

#[test]
fn negative_weight_is_refused() {
    let mut g = Graph::new(3);
    assert_eq!(g.add_edge(1, 2, -1), Err(GraphError::InvalidWeight));
}

#[test]
fn negative_weight_leaves_graph_untouched() {
    let mut g = Graph::new(3);
    g.add_edge(1, 2, 7).unwrap();
    let before = g.djikstra_classic_ss(1).unwrap();
    assert_eq!(g.add_edge(2, 3, -1), Err(GraphError::InvalidWeight));
    assert_eq!(g.max_weight(), 7);
    assert_eq!(g.djikstra_classic_ss(1).unwrap(), before);
}

#[test]
fn out_of_range_node_is_refused() {
    let mut g = Graph::new(3);
    assert_eq!(g.add_edge(0, 2, 1), Err(GraphError::InvalidNode));
    assert_eq!(g.add_edge(1, 4, 1), Err(GraphError::InvalidNode));
    assert_eq!(g.add_edge(4, 1, 1), Err(GraphError::InvalidNode));
    assert_eq!(g.max_weight(), 0);
    assert_eq!(g.neighbors(1).len(), 0);
}

#[test]
fn facade_rejects_invalid_endpoints() {
    let g = Graph::new(3);
    assert_eq!(shortest_path(&g, 0, Algorithm::Dijkstra), Err(GraphError::InvalidNode));
    assert_eq!(shortest_path(&g, 4, Algorithm::Dial), Err(GraphError::InvalidNode));
    assert_eq!(shortest_path_to(&g, 1, 0, Algorithm::Radix), Err(GraphError::InvalidNode));
    assert_eq!(shortest_path_to(&g, 9, 1, Algorithm::Dijkstra), Err(GraphError::InvalidNode));
}

#[test]
fn empty_graph_has_no_valid_source() {
    let g = Graph::default();
    assert_eq!(shortest_path(&g, 1, Algorithm::Dijkstra), Err(GraphError::InvalidNode));
    assert_eq!(shortest_path_to(&g, 1, 1, Algorithm::Radix), Err(GraphError::InvalidNode));
}

#[test]
fn oversized_distance_budget_overflows() {
    let mut g = Graph::new(3);
    g.add_edge(1, 2, isize::MAX).unwrap();
    assert_eq!(g.djikstra_classic_ss(1), Err(GraphError::ArithmeticOverflow));
    assert_eq!(g.dial_ss(1), Err(GraphError::ArithmeticOverflow));
    assert_eq!(g.radix_ss(1), Err(GraphError::ArithmeticOverflow));
    assert_eq!(g.dial_p2p(1, 2), Err(GraphError::ArithmeticOverflow));
    assert_eq!(g.radix_p2p(2, 3), Err(GraphError::ArithmeticOverflow));
    assert_eq!(g.djikstra_classic_p2p(1, 3), Err(GraphError::ArithmeticOverflow));
}

#[test]
fn oversized_budget_still_answers_trivial_boundary() {
    let mut g = Graph::new(3);
    g.add_edge(1, 2, isize::MAX).unwrap();
    assert_eq!(g.djikstra_classic_p2p(2, 2), Ok(Some(0)));
    assert_eq!(g.dial_p2p(2, 2), Ok(Some(0)));
    assert_eq!(g.radix_p2p(2, 2), Ok(Some(0)));
}
