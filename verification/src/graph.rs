//! The graph model: an immutable, read-only adjacency structure shared by
//! every query, together with the engine's error kinds and the frontier
//! entry type used by the solvers.

use crate::paths::size_ok;
use vstd::prelude::*;

verus! {

/// The error kinds of the engine.  Construction-time errors
/// (`InvalidNode`, `InvalidWeight`) prevent building an invalid graph at
/// all; query-time errors abort the query and leave the graph untouched.
#[derive(Clone, Copy, Debug, PartialEq, Eq, Structural)]
pub enum GraphError {
    /// A node index outside `[1, node_count]` at the boundary.
    InvalidNode,
    /// A negative weight supplied at construction.
    InvalidWeight,
    /// A bucket structure could not cover an observed candidate
    /// distance.  The solvers here size their buckets from the tracked
    /// `max_weight` and prove that sizing sufficient, so none of them
    /// ever reports this kind; it is declared for callers that size
    /// bucket structures from a bound of their own.
    BucketRangeExceeded,
    /// A distance computation would not fit the numeric range.
    ArithmeticOverflow,
}

/// A frontier entry: a node together with a tentative distance, the unit
/// pulled from each solver's priority structure.  Ties between entries of
/// equal distance are broken arbitrarily.
#[derive(Clone, Copy, Debug, PartialEq, Eq, Hash, Structural)]
pub struct SearchNode {
    pub id: usize,
    pub distance: usize,
}

/// A directed graph with non-negative integer edge weights.  Nodes are
/// 1-indexed at the boundary and 0-indexed internally.  Parallel edges
/// between the same ordered pair are kept distinctly.  The graph is built
/// once and never mutated by a query.
#[derive(Clone, Debug)]
pub struct Graph {
    node_quantity: usize,
    max_weight: usize,
    adj: Vec<Vec<(usize, usize)>>,
}

impl Graph {
    /// The number of nodes.
    pub closed spec fn nodes(self) -> int {
        self.node_quantity as int
    }

    /// The largest weight added so far (0 if none was added).
    pub closed spec fn max_w(self) -> int {
        self.max_weight as int
    }

    /// The adjacency lists: for each node, the ordered sequence of
    /// `(target, weight)` pairs of its outgoing edges, 0-indexed.
    pub closed spec fn adj_seq(self) -> Seq<Seq<(usize, usize)>> {
        self.adj@.map_values(|l: Vec<(usize, usize)>| l@)
    }

    /// Well-formedness: one adjacency list per node, every edge target in
    /// range, and every weight bounded by `max_w`.
    pub open spec fn wf(self) -> bool {
        &&& self.max_w() >= 0
        &&& self.adj_seq().len() == self.nodes()
        &&& forall|u: int, i: int|
            0 <= u < self.nodes() && 0 <= i < self.adj_seq()[u].len() ==> (
                ((#[trigger] self.adj_seq()[u][i]).0 as int) < self.nodes()
                && self.adj_seq()[u][i].1 as int <= self.max_w()
            )
    }

    /// Creates a graph with `node_quantity` nodes and no edges.
    pub fn new(node_quantity: usize) -> (g: Graph)
        ensures
            g.wf(),
            g.nodes() == node_quantity as int,
            g.max_w() == 0,
            forall|u: int| 0 <= u < g.nodes() ==> (#[trigger] g.adj_seq()[u]).len() == 0,
    {
        let mut adj: Vec<Vec<(usize, usize)>> = Vec::new();
        let mut i: usize = 0;
        while i < node_quantity
            invariant
                i <= node_quantity,
                adj@.len() == i as int,
                forall|u: int| 0 <= u < i as int ==> (#[trigger] adj@[u])@.len() == 0,
            decreases node_quantity - i,
        {
            adj.push(Vec::new());
            i += 1;
        }
        let g = Graph { node_quantity, max_weight: 0, adj };
        assert forall|u: int| 0 <= u < g.nodes() implies (#[trigger] g.adj_seq()[u]).len() == 0 by {
            assert(g.adj_seq()[u] == g.adj@[u]@);
        }
        g
    }

    /// Adds the directed edge `from -> to` with the given weight.  Fails
    /// with `InvalidNode` if either endpoint lies outside `[1, node_count]`
    /// and with `InvalidWeight` if the weight is negative; on failure the
    /// graph is left exactly as it was.
    pub fn add_edge(&mut self, from: usize, to: usize, weight: isize) -> (r: Result<(), GraphError>)
        requires
            old(self).wf(),
        ensures
            final(self).wf(),
            (from < 1 || from as int > old(self).nodes() || to < 1 || to as int > old(self).nodes())
                ==> r == Err::<(), GraphError>(GraphError::InvalidNode) && *final(self) == *old(self),
            (1 <= from && from as int <= old(self).nodes() && 1 <= to && to as int <= old(self).nodes()
                && weight < 0)
                ==> r == Err::<(), GraphError>(GraphError::InvalidWeight) && *final(self) == *old(self),
            (1 <= from && from as int <= old(self).nodes() && 1 <= to && to as int <= old(self).nodes()
                && weight >= 0)
                ==> {
                    &&& r == Ok::<(), GraphError>(())
                    &&& final(self).nodes() == old(self).nodes()
                    &&& final(self).max_w() == (
                        if weight as int > old(self).max_w() { weight as int } else { old(self).max_w() }
                    )
                    &&& final(self).adj_seq() == old(self).adj_seq().update(
                        from as int - 1,
                        old(self).adj_seq()[from as int - 1].push(((to - 1) as usize, weight as usize)),
                    )
                },
    {
        if from < 1 || from > self.node_quantity || to < 1 || to > self.node_quantity {
            return Err(GraphError::InvalidNode);
        }
        if weight < 0 {
            return Err(GraphError::InvalidWeight);
        }
        let w = weight as usize;
        if w > self.max_weight {
            self.max_weight = w;
        }
        let ghost before = self.adj_seq();
        let idx = from - 1;
        self.adj[idx].push((to - 1, w));
        proof {
            let ghost after = before.update(
                from as int - 1,
                before[from as int - 1].push(((to - 1) as usize, w)),
            );
            assert(self.adj_seq() =~= after);
            assert forall|u: int, i: int|
                0 <= u < self.nodes() && 0 <= i < self.adj_seq()[u].len() implies (
                    ((#[trigger] self.adj_seq()[u][i]).0 as int) < self.nodes()
                    && self.adj_seq()[u][i].1 as int <= self.max_w()
                ) by {
                if u == from as int - 1 && i == before[u].len() {
                    assert(self.adj_seq()[u][i] == (((to - 1) as usize, w)));
                } else {
                    assert(self.adj_seq()[u][i] == old(self).adj_seq()[u][i]);
                }
            }
        }
        Ok(())
    }

    /// The number of nodes, as an executable value.
    pub fn node_count(&self) -> (r: usize)
        ensures
            r as int == self.nodes(),
    {
        self.node_quantity
    }

    /// The largest weight added so far (0 if none was added), used by the
    /// bucket-sizing solvers.
    pub fn max_weight(&self) -> (r: usize)
        ensures
            r as int == self.max_w(),
    {
        self.max_weight
    }

    /// The outgoing edges of a 1-indexed node, as `(target, weight)` pairs
    /// with a 0-indexed target.  Empty for nodes with no outgoing edge.
    pub fn neighbors(&self, node: usize) -> (r: &Vec<(usize, usize)>)
        requires
            self.wf(),
            1 <= node && node as int <= self.nodes(),
        ensures
            r@ == self.adj_seq()[node as int - 1],
    {
        let r = &self.adj[node - 1];
        proof {
            assert(r@ == self.adj_seq()[node as int - 1]);
        }
        r
    }

    /// The outgoing edges of a 0-indexed node, for the solvers.
    pub(crate) fn out_edges(&self, u: usize) -> (r: &Vec<(usize, usize)>)
        requires
            self.wf(),
            (u as int) < self.nodes(),
        ensures
            r@ == self.adj_seq()[u as int],
    {
        let r = &self.adj[u];
        proof {
            assert(r@ == self.adj_seq()[u as int]);
        }
        r
    }

    /// Computes the node count and the distance budget `n * max_w`,
    /// refusing graphs whose budget does not fit the machine word.
    pub(crate) fn distance_budget(&self) -> (r: Option<(usize, usize)>)
        ensures
            match r {
                Some(pair) => pair.0 as int == self.nodes()
                    && pair.1 as int == self.nodes() * self.max_w() && pair.1 < usize::MAX
                    && size_ok(*self),
                None => !size_ok(*self),
            },
    {
        let n = self.node_count();
        let mw = self.max_weight();
        match n.checked_mul(mw) {
            Some(m) => if m < usize::MAX {
                Some((n, m))
            } else {
                None
            },
            None => None,
        }
    }

    /// Builds the fresh per-query table: `None` everywhere except the
    /// source, which starts — and stays — at distance 0.
    pub(crate) fn fresh_table(&self, s0: usize) -> (dist: Vec<Option<usize>>)
        requires
            self.wf(),
            (s0 as int) < self.nodes(),
        ensures
            dist@.len() == self.nodes(),
            dist@[s0 as int] == Some(0usize),
            forall|v: int|
                0 <= v < self.nodes() && v != s0 as int ==> (#[trigger] dist@[v]) is None,
    {
        let n = self.node_count();
        let mut dist: Vec<Option<usize>> = Vec::new();
        let mut i: usize = 0;
        while i < n
            invariant
                i <= n,
                dist@.len() == i as int,
                forall|v: int| 0 <= v < i as int ==> (#[trigger] dist@[v]) is None,
            decreases n - i,
        {
            dist.push(None);
            i += 1;
        }
        dist[s0] = Some(0);
        dist
    }
}

impl Default for Graph {
    /// An empty graph with no nodes.
    fn default() -> (g: Graph)
        ensures
            g.wf(),
            g.nodes() == 0,
            g.max_w() == 0,
    {
        Graph::new(0)
    }
}

} // verus!
