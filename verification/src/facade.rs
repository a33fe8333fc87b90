//! The query facade: validates the boundary indices, dispatches a
//! request to the chosen solver and returns the normalized result.  It
//! implements no algorithm of its own.

use crate::graph::Graph;
use crate::graph::GraphError;
use crate::paths::p2p_post;
use crate::paths::ss_post;
use vstd::prelude::*;

verus! {

/// The solving strategies the engine offers.
#[derive(Clone, Copy, Debug, PartialEq, Eq, Structural)]
pub enum Algorithm {
    Dijkstra,
    Dial,
    Radix,
}

/// A 1-indexed node is valid for the graph.
pub open spec fn valid_node(g: Graph, v: int) -> bool {
    1 <= v <= g.nodes()
}

/// Single-source query: `InvalidNode` for an out-of-range source, and
/// otherwise the chosen solver's exact table.
pub fn shortest_path(g: &Graph, source: usize, algorithm: Algorithm) -> (r: Result<
    Vec<Option<usize>>,
    GraphError,
>)
    requires
        g.wf(),
    ensures
        !valid_node(*g, source as int) ==> r == Err::<Vec<Option<usize>>, GraphError>(
            GraphError::InvalidNode,
        ),
        valid_node(*g, source as int) ==> ss_post(*g, source as int - 1, r),
{
    if source < 1 || source > g.node_count() {
        return Err(GraphError::InvalidNode);
    }
    match algorithm {
        Algorithm::Dijkstra => g.djikstra_classic_ss(source),
        Algorithm::Dial => g.dial_ss(source),
        Algorithm::Radix => g.radix_ss(source),
    }
}

/// Point-to-point query: `InvalidNode` for an out-of-range endpoint, and
/// otherwise the chosen solver's exact answer, `None` meaning
/// unreachable.
pub fn shortest_path_to(g: &Graph, source: usize, target: usize, algorithm: Algorithm) -> (r:
    Result<Option<usize>, GraphError>)
    requires
        g.wf(),
    ensures
        !(valid_node(*g, source as int) && valid_node(*g, target as int)) ==> r == Err::<
            Option<usize>,
            GraphError,
        >(GraphError::InvalidNode),
        valid_node(*g, source as int) && valid_node(*g, target as int) ==> p2p_post(
            *g,
            source as int - 1,
            target as int - 1,
            r,
        ),
{
    if source < 1 || source > g.node_count() || target < 1 || target > g.node_count() {
        return Err(GraphError::InvalidNode);
    }
    match algorithm {
        Algorithm::Dijkstra => g.djikstra_classic_p2p(source, target),
        Algorithm::Dial => g.dial_p2p(source, target),
        Algorithm::Radix => g.radix_p2p(source, target),
    }
}

} // verus!
