use shortest_paths::facade::shortest_path;
use shortest_paths::facade::shortest_path_to;
use shortest_paths::facade::Algorithm;
use shortest_paths::graph::Graph;

fn tangled_graph() -> Graph {
    let mut g = Graph::new(7);
    g.add_edge(1, 2, 4).unwrap();
    g.add_edge(1, 3, 1).unwrap();
    g.add_edge(3, 2, 2).unwrap();
    g.add_edge(2, 4, 5).unwrap();
    g.add_edge(3, 4, 8).unwrap();
    g.add_edge(4, 5, 0).unwrap();
    g.add_edge(5, 3, 0).unwrap();
    // a parallel edge, kept distinctly and cheaper than the first
    g.add_edge(2, 4, 3).unwrap();
    // node 6 reaches node 1; node 1 does not reach node 6
    g.add_edge(6, 1, 2).unwrap();
    // node 7 is isolated
    g
}

#[test]
fn algorithms_agree() {
    let g = tangled_graph();
    for src in 1..=7 {
        let a = g.djikstra_classic_ss(src).unwrap();
        let b = g.dial_ss(src).unwrap();
        let c = g.radix_ss(src).unwrap();
        assert_eq!(a, b);
        assert_eq!(b, c);
    }
}

#[test]
fn repeated_queries_are_identical() {
    let g = tangled_graph();
    assert_eq!(g.djikstra_classic_ss(1), g.djikstra_classic_ss(1));
    assert_eq!(g.dial_ss(2), g.dial_ss(2));
    assert_eq!(g.radix_ss(3), g.radix_ss(3));
    assert_eq!(g.radix_p2p(1, 5), g.radix_p2p(1, 5));
}

#[test]
fn parallel_edges_use_the_cheaper_one() {
    let g = tangled_graph();
    let t = g.djikstra_classic_ss(1).unwrap();
    // 1 -> 3 (1), 3 -> 2 (2), 2 -> 4 via the parallel weight-3 edge
    assert_eq!(t[3], Some(6));
    assert_eq!(t, vec![Some(0), Some(3), Some(1), Some(6), Some(6), None, None]);
}

#[test]
fn unreachable_nodes_are_none() {
    let g = tangled_graph();
    let t = g.radix_ss(1).unwrap();
    // isolated node, and a node only reachable against the arrows
    assert_eq!(t[6], None);
    assert_eq!(t[5], None);
    assert_eq!(g.dial_p2p(1, 7).unwrap(), None);
    assert_eq!(g.djikstra_classic_p2p(1, 6).unwrap(), None);
}

#[test]
fn point_queries_match_single_source() {
    let g = tangled_graph();
    for algo in [Algorithm::Dijkstra, Algorithm::Dial, Algorithm::Radix] {
        let table = shortest_path(&g, 1, algo).unwrap();
        for target in 1..=7 {
            let o = shortest_path_to(&g, 1, target, algo).unwrap();
            assert_eq!(o, table[target - 1]);
        }
    }
}

#[test]
fn source_equals_target_is_zero() {
    let g = tangled_graph();
    for v in 1..=7 {
        assert_eq!(g.djikstra_classic_p2p(v, v).unwrap(), Some(0));
        assert_eq!(g.dial_p2p(v, v).unwrap(), Some(0));
        assert_eq!(g.radix_p2p(v, v).unwrap(), Some(0));
    }
}

#[test]
fn triangle_inequality_holds() {
    let g = tangled_graph();
    let t = g.djikstra_classic_ss(1).unwrap();
    for u in 1..=7usize {
        if let Some(du) = t[u - 1] {
            for &(v0, w) in g.neighbors(u) {
                let dv = t[v0].expect("edge target of a reached node must be reached");
                assert!(dv <= du + w);
            }
        }
    }
}

#[test]
fn every_reached_node_has_a_tight_incoming_edge() {
    let g = tangled_graph();
    let t = g.dial_ss(1).unwrap();
    for v in 2..=7usize {
        if let Some(dv) = t[v - 1] {
            let mut tight = false;
            for u in 1..=7usize {
                if let Some(du) = t[u - 1] {
                    for &(v0, w) in g.neighbors(u) {
                        if v0 == v - 1 && du + w == dv {
                            tight = true;
                        }
                    }
                }
            }
            assert!(tight, "no tight incoming edge for node {v}");
        }
    }
}

#[test]
fn zero_weight_cycles_are_harmless() {
    let mut g = Graph::new(3);
    g.add_edge(1, 2, 0).unwrap();
    g.add_edge(2, 3, 0).unwrap();
    g.add_edge(3, 1, 0).unwrap();
    for algo in [Algorithm::Dijkstra, Algorithm::Dial, Algorithm::Radix] {
        assert_eq!(shortest_path(&g, 2, algo).unwrap(), vec![Some(0), Some(0), Some(0)]);
    }
}

#[test]
fn accessors_report_the_build() {
    let mut g = Graph::new(4);
    assert_eq!(g.node_count(), 4);
    assert_eq!(g.max_weight(), 0);
    g.add_edge(1, 2, 9).unwrap();
    g.add_edge(1, 3, 2).unwrap();
    assert_eq!(g.max_weight(), 9);
    assert_eq!(g.neighbors(1).as_slice(), &[(1, 9), (2, 2)]);
    assert_eq!(g.neighbors(4).len(), 0);
}

#[test]
fn default_graph_is_empty() {
    let g = Graph::default();
    assert_eq!(g.node_count(), 0);
    assert_eq!(g.max_weight(), 0);
}

#[test]
fn single_node_graph() {
    let g = Graph::new(1);
    assert_eq!(g.djikstra_classic_ss(1).unwrap(), vec![Some(0)]);
    assert_eq!(g.dial_ss(1).unwrap(), vec![Some(0)]);
    assert_eq!(g.radix_ss(1).unwrap(), vec![Some(0)]);
}

#[test]
fn long_chain_forces_radix_redistribution() {
    let mut g = Graph::new(12);
    for v in 1..12 {
        g.add_edge(v, v + 1, (v as isize) * 3 % 7 + 1).unwrap();
    }
    // a shortcut that improves a far node after it was first queued
    g.add_edge(1, 6, 1).unwrap();
    let a = g.djikstra_classic_ss(1).unwrap();
    let b = g.radix_ss(1).unwrap();
    let c = g.dial_ss(1).unwrap();
    assert_eq!(a, b);
    assert_eq!(a, c);
    assert_eq!(a[5], Some(1));
}
