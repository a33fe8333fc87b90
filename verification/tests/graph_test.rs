use shortest_paths::graph::Graph;

#[test]
fn graph_test() {
    let mut graph = Graph::new(6);
    graph.add_edge(1, 2, 13).unwrap();
    graph.add_edge(1, 3, 0).unwrap();
    graph.add_edge(1, 4, 15).unwrap();
    graph.add_edge(1, 5, 20).unwrap();
    graph.add_edge(2, 4, 5).unwrap();
    graph.add_edge(3, 5, 9).unwrap();
    graph.add_edge(4, 6, 2).unwrap();
    graph.add_edge(5, 6, 4).unwrap();
    println!("{:?}", graph);
    println!("{:?}", graph.djikstra_classic_ss(1));
    println!("{:?}", graph.djikstra_classic_p2p(1, 5));
    println!("{:?}", graph.dial_ss(1));
    println!("{:?}", graph.dial_p2p(1, 5));
    println!("{:?}", graph.radix_ss(1));
    println!("{:?}", graph.radix_p2p(1, 2));
}

fn six_node_graph() -> Graph {
    let mut graph = Graph::new(6);
    graph.add_edge(1, 2, 13).unwrap();
    graph.add_edge(1, 3, 0).unwrap();
    graph.add_edge(1, 4, 15).unwrap();
    graph.add_edge(1, 5, 20).unwrap();
    graph.add_edge(2, 4, 5).unwrap();
    graph.add_edge(3, 5, 9).unwrap();
    graph.add_edge(4, 6, 2).unwrap();
    graph.add_edge(5, 6, 4).unwrap();
    graph
}

#[test]
fn six_node_distances_dijkstra() {
    let g = six_node_graph();
    let t = g.djikstra_classic_ss(1).unwrap();
    assert_eq!(t, vec![Some(0), Some(13), Some(0), Some(15), Some(9), Some(13)]);
    assert_eq!(g.djikstra_classic_p2p(1, 6).unwrap(), Some(13));
}

#[test]
fn six_node_distances_dial() {
    let g = six_node_graph();
    let t = g.dial_ss(1).unwrap();
    assert_eq!(t, vec![Some(0), Some(13), Some(0), Some(15), Some(9), Some(13)]);
    assert_eq!(g.dial_p2p(1, 6).unwrap(), Some(13));
}

#[test]
fn six_node_distances_radix() {
    let g = six_node_graph();
    let t = g.radix_ss(1).unwrap();
    assert_eq!(t, vec![Some(0), Some(13), Some(0), Some(15), Some(9), Some(13)]);
    assert_eq!(g.radix_p2p(1, 6).unwrap(), Some(13));
}

#[test]
fn six_node_point_queries() {
    let g = six_node_graph();
    assert_eq!(g.djikstra_classic_p2p(1, 5).unwrap(), Some(9));
    assert_eq!(g.dial_p2p(1, 5).unwrap(), Some(9));
    assert_eq!(g.radix_p2p(1, 5).unwrap(), Some(9));
    assert_eq!(g.djikstra_classic_p2p(1, 2).unwrap(), Some(13));
    assert_eq!(g.radix_p2p(1, 2).unwrap(), Some(13));
}
