//! The comparison-based solver: classic Dijkstra with lazy deletion.
//! The frontier is a pool of `SearchNode` entries from which the one of
//! least tentative distance is extracted; an extracted entry whose stored
//! distance exceeds the table's current best for its node is stale and is
//! discarded — the table, not frontier membership, is the source of
//! truth.  Improvements push fresh entries and never decrease in place.

use crate::graph::Graph;
use crate::graph::GraphError;
use crate::graph::SearchNode;
use crate::paths::dist_at;
use crate::paths::has_edge;
use crate::paths::is_dist_entry;
use crate::paths::lemma_cut_min;
use crate::paths::lemma_final_table;
use crate::paths::lemma_min_reach_bound;
use crate::paths::lemma_reach_nonneg;
use crate::paths::lemma_reaches_self;
use crate::paths::lemma_reaches_step;
use crate::paths::lemma_settled_insert;
use crate::paths::lemma_unreached_unreachable;
use crate::paths::p2p_post;
use crate::paths::reached;
use crate::paths::reaches;
use crate::paths::settled_min_ok;
use crate::paths::settled_relaxed_ok;
use crate::paths::size_ok;
use crate::paths::ss_post;
use crate::paths::table_ok;
use vstd::prelude::*;
use vstd::set_lib::set_int_range;

verus! {

/// Every frontier entry names an in-range node whose recorded distance
/// is no larger than the entry's stored one.
pub open spec fn frontier_ok(g: Graph, dist: Seq<Option<usize>>, fr: Seq<SearchNode>) -> bool {
    forall|k: int| 0 <= k < fr.len() ==> {
        let e = #[trigger] fr[k];
        &&& (e.id as int) < g.nodes()
        &&& reached(dist, e.id as int)
        &&& dist_at(dist, e.id as int) <= e.distance as int
    }
}

/// Every unsettled reached node owns a frontier entry that stores its
/// current recorded distance.
pub open spec fn covered_ok(
    g: Graph,
    dist: Seq<Option<usize>>,
    ss: Set<int>,
    fr: Seq<SearchNode>,
) -> bool {
    forall|v: int|
        0 <= v < g.nodes() && !ss.contains(v) && #[trigger] reached(dist, v)
        ==> exists|k: int|
            0 <= k < fr.len() && (#[trigger] fr[k]).id as int == v
            && fr[k].distance as int == dist_at(dist, v)
}

/// The running state of a Dijkstra query: a sound, bounded table, an
/// exact and relaxed settled set, and a frontier that covers every
/// unsettled reached node.
pub open spec fn dij_inv(
    g: Graph,
    s0: int,
    m: int,
    dist: Seq<Option<usize>>,
    fr: Seq<SearchNode>,
    ss: Set<int>,
) -> bool {
    &&& g.wf()
    &&& 0 <= s0 < g.nodes()
    &&& m == g.nodes() * g.max_w()
    &&& m < usize::MAX as int
    &&& table_ok(g, s0, m, dist)
    &&& settled_min_ok(g, s0, dist, ss)
    &&& settled_relaxed_ok(g, dist, ss)
    &&& frontier_ok(g, dist, fr)
    &&& covered_ok(g, dist, ss, fr)
    &&& ss.finite()
    &&& ss.subset_of(set_int_range(0, g.nodes()))
    &&& ss.len() <= g.nodes()
}

impl Graph {
    /// One extraction round: removes the least-distance frontier entry;
    /// a stale entry is dropped, a fresh one has its node settled as
    /// final and its outgoing edges relaxed.  Returns the processed
    /// `(node, distance)` pair, if any, and the updated settled set.
    fn dijkstra_round(
        &self,
        dist: &mut Vec<Option<usize>>,
        frontier: &mut Vec<SearchNode>,
        s0: usize,
        m: usize,
        ss: Ghost<Set<int>>,
    ) -> (res: (Option<(usize, usize)>, Ghost<Set<int>>))
        requires
            dij_inv(*self, s0 as int, m as int, old(dist)@, old(frontier)@, ss@),
            old(frontier)@.len() > 0,
        ensures
            dij_inv(*self, s0 as int, m as int, final(dist)@, final(frontier)@, res.1@),
            match res.0 {
                Some(pd) => {
                    &&& (pd.0 as int) < self.nodes()
                    &&& res.1@ == ss@.insert(pd.0 as int)
                    &&& final(dist)@[pd.0 as int] == Some(pd.1)
                    &&& (ss@.contains(pd.0 as int)
                        ==> final(frontier)@.len() < old(frontier)@.len())
                    &&& (!ss@.contains(pd.0 as int) ==> res.1@.len() == ss@.len() + 1)
                },
                None => res.1@ == ss@ && final(frontier)@.len() < old(frontier)@.len(),
            },
    {
        let ghost mut sset = ss@;
        let mw = self.max_weight();
        proof {
            assert(m as int == self.nodes() * self.max_w());
        }
        let mut best: usize = 0;
        let mut k: usize = 1;
        while k < frontier.len()
            invariant
                frontier@.len() > 0,
                (best as int) < frontier@.len(),
                k <= frontier@.len(),
                forall|j: int|
                    0 <= j < k as int
                    ==> frontier@[best as int].distance <= (#[trigger] frontier@[j]).distance,
            decreases frontier@.len() - k,
        {
            if frontier[k].distance < frontier[best].distance {
                best = k;
            }
            k += 1;
        }
        let ghost fr_old = frontier@;
        let e = frontier.swap_remove(best);
        let node = e.id;
        let d = e.distance;
        proof {
            assert(e == fr_old[best as int]);
            assert((node as int) < self.nodes());
            assert(reached(dist@, node as int));
            assert(dist_at(dist@, node as int) <= d as int);
            assert forall|k2: int| 0 <= k2 < frontier@.len() implies
                (#[trigger] frontier@[k2]) == fr_old[k2]
                || frontier@[k2] == fr_old[fr_old.len() - 1] by {
                if k2 == best as int {
                    assert(frontier@[k2] == fr_old[fr_old.len() - 1]);
                } else {
                    assert(frontier@[k2] == fr_old[k2]);
                }
            }
        }
        let cur = dist[node].unwrap();
        if d > cur {
            // A stale entry: its node must already be settled, since an
            // unsettled node keeps an exact entry, which would have been
            // picked over this one.
            proof {
                if !sset.contains(node as int) {
                    let k0 = choose|k0: int|
                        0 <= k0 < fr_old.len() && (#[trigger] fr_old[k0]).id as int == node as int
                        && fr_old[k0].distance as int == dist_at(dist@, node as int);
                    assert(fr_old[best as int].distance <= fr_old[k0].distance);
                    assert(false);
                }
                assert forall|v: int|
                    0 <= v < self.nodes() && !sset.contains(v) && #[trigger] reached(dist@, v)
                    implies exists|k2: int|
                        0 <= k2 < frontier@.len() && (#[trigger] frontier@[k2]).id as int == v
                        && frontier@[k2].distance as int == dist_at(dist@, v) by {
                    let k0 = choose|k0: int|
                        0 <= k0 < fr_old.len() && (#[trigger] fr_old[k0]).id as int == v
                        && fr_old[k0].distance as int == dist_at(dist@, v);
                    if k0 == fr_old.len() - 1 {
                        assert((best as int) < fr_old.len() - 1);
                        assert(frontier@[best as int] == fr_old[k0]);
                    } else if k0 != best as int {
                        assert(frontier@[k0] == fr_old[k0]);
                    }
                }
            }
            (None, Ghost(sset))
        } else {
            proof {
                assert(d == cur);
                assert(dist_at(dist@, node as int) == d as int);
            }
            // The popped distance is least among every unsettled reached
            // node, so the cut argument settles it as final.
            proof {
                if !sset.contains(node as int) {
                    assert forall|u: int|
                        0 <= u < self.nodes() && !(#[trigger] sset.contains(u))
                        && reached(dist@, u)
                        implies dist_at(dist@, node as int) <= dist_at(dist@, u) by {
                        let k0 = choose|k0: int|
                            0 <= k0 < fr_old.len() && (#[trigger] fr_old[k0]).id as int == u
                            && fr_old[k0].distance as int == dist_at(dist@, u);
                        assert(fr_old[best as int].distance <= fr_old[k0].distance);
                    }
                    lemma_cut_min(*self, s0 as int, dist@, sset, node as int);
                }
                assert(forall|d2: int|
                    #[trigger] reaches(*self, s0 as int, node as int, d2) ==> d as int <= d2);
                // The settled distance is least, so it obeys the
                // walk-shortening bound and relaxations cannot overflow.
                lemma_min_reach_bound(*self, s0 as int, node as int, d as int);
                let d2 = choose|d2: int|
                    #[trigger] reaches(*self, s0 as int, node as int, d2) && d2 <= d as int
                    && 0 <= d2 <= (self.nodes() - 1) * self.max_w();
                assert(d as int <= (self.nodes() - 1) * self.max_w());
                assert((self.nodes() - 1) * self.max_w() + self.max_w()
                    == self.nodes() * self.max_w()) by (nonlinear_arith);
                assert(d as int + mw as int <= m as int);
                // Coverage for the other nodes survives the removal.
                assert forall|v: int|
                    0 <= v < self.nodes() && !sset.insert(node as int).contains(v)
                    && #[trigger] reached(dist@, v)
                    implies exists|k2: int|
                        0 <= k2 < frontier@.len() && (#[trigger] frontier@[k2]).id as int == v
                        && frontier@[k2].distance as int == dist_at(dist@, v) by {
                    let k0 = choose|k0: int|
                        0 <= k0 < fr_old.len() && (#[trigger] fr_old[k0]).id as int == v
                        && fr_old[k0].distance as int == dist_at(dist@, v);
                    if k0 == fr_old.len() - 1 {
                        if best as int == fr_old.len() - 1 {
                            assert(false);
                        } else {
                            assert(frontier@[best as int] == fr_old[k0]);
                        }
                    } else if k0 != best as int {
                        assert(frontier@[k0] == fr_old[k0]);
                    } else {
                        assert(false);
                    }
                }
            }
            let ghost ss2 = sset.insert(node as int);
            let ghost fr_start = frontier@;
            let deg = self.out_edges(node).len();
            let mut i2: usize = 0;
            while i2 < deg
                invariant
                    self.wf(),
                    (s0 as int) < self.nodes(),
                    0 <= s0 as int,
                    mw as int == self.max_w(),
                    m as int == self.nodes() * self.max_w(),
                    m < usize::MAX,
                    (node as int) < self.nodes(),
                    deg == self.adj_seq()[node as int].len(),
                    i2 <= deg,
                    d as int + mw as int <= m as int,
                    dist@[node as int] == Some(d),
                    dist_at(dist@, node as int) == d as int,
                    table_ok(*self, s0 as int, m as int, dist@),
                    settled_min_ok(*self, s0 as int, dist@, sset),
                    settled_relaxed_ok(*self, dist@, sset),
                    frontier_ok(*self, dist@, frontier@),
                    covered_ok(*self, dist@, ss2, frontier@),
                    ss2 == sset.insert(node as int),
                    sset.finite(),
                    sset.subset_of(set_int_range(0, self.nodes())),
                    sset.len() <= self.nodes(),
                    forall|d2: int|
                        #[trigger] reaches(*self, s0 as int, node as int, d2) ==> d as int <= d2,
                    forall|i3: int| 0 <= i3 < i2 as int ==> {
                        let e3 = #[trigger] self.adj_seq()[node as int][i3];
                        reached(dist@, e3.0 as int)
                            && dist_at(dist@, e3.0 as int) <= d as int + e3.1 as int
                    },
                    sset.contains(node as int) ==> frontier@ == fr_start,
                decreases deg - i2,
            {
                let edges = self.out_edges(node);
                let pr = edges[i2];
                let tgt = pr.0;
                let w = pr.1;
                proof {
                    assert(self.adj_seq()[node as int][i2 as int] == pr);
                    assert((tgt as int) < self.nodes());
                    assert(w as int <= self.max_w());
                    assert(has_edge(*self, node as int, tgt as int, w as int));
                }
                let cand = d + w;
                let improve = match dist[tgt] {
                    None => true,
                    Some(dv) => cand < dv,
                };
                if improve {
                    proof {
                        assert(reached(dist@, node as int));
                        assert(reaches(*self, s0 as int, node as int, d as int));
                        lemma_reaches_step(
                            *self,
                            s0 as int,
                            node as int,
                            d as int,
                            tgt as int,
                            w as int,
                        );
                        // A settled extracted node has every edge relaxed
                        // already, so nothing improves.
                        if sset.contains(node as int) {
                            let e4 = self.adj_seq()[node as int][i2 as int];
                            assert(reached(dist@, e4.0 as int) && dist_at(dist@, e4.0 as int)
                                <= dist_at(dist@, node as int) + e4.1 as int);
                            assert(false);
                        }
                        // A settled target would contradict its own
                        // minimality, so the update stays off the settled
                        // set.
                        if sset.contains(tgt as int) {
                            assert(dist_at(dist@, tgt as int) <= cand as int);
                            assert(false);
                        }
                        if tgt == node {
                            assert(false);
                        }
                        lemma_reach_nonneg(*self, s0 as int, tgt as int, cand as int);
                        if tgt == s0 {
                            assert(dist_at(dist@, s0 as int) == 0);
                            assert(false);
                        }
                    }
                    let ghost dist_old = dist@;
                    let ghost fr_pre = frontier@;
                    dist[tgt] = Some(cand);
                    frontier.push(SearchNode { id: tgt, distance: cand });
                    proof {
                        assert(dist@ == dist_old.update(tgt as int, Some(cand)));
                        assert forall|v: int|
                            0 <= v < self.nodes() && #[trigger] reached(dist@, v)
                            implies reaches(*self, s0 as int, v, dist_at(dist@, v))
                                && dist_at(dist@, v) <= m as int by {
                            if v != tgt as int {
                                assert(dist@[v] == dist_old[v]);
                                assert(reached(dist_old, v));
                                assert(dist_at(dist@, v) == dist_at(dist_old, v));
                            } else {
                                assert(dist_at(dist@, v) == cand as int);
                                assert(cand as int <= d as int + mw as int);
                            }
                        }
                        assert forall|u: int, i4: int|
                            sset.contains(u) && 0 <= u < self.nodes()
                            && 0 <= i4 < self.adj_seq()[u].len()
                            implies {
                                let e4 = #[trigger] self.adj_seq()[u][i4];
                                reached(dist@, e4.0 as int)
                                    && dist_at(dist@, e4.0 as int)
                                        <= dist_at(dist@, u) + e4.1 as int
                            } by {
                            let e4 = self.adj_seq()[u][i4];
                            assert(sset.contains(u) && 0 <= i4 < self.adj_seq()[u].len());
                            assert(reached(dist_old, e4.0 as int));
                            assert(dist_at(dist_old, e4.0 as int)
                                <= dist_at(dist_old, u) + e4.1 as int);
                            assert(dist@[u] == dist_old[u]);
                            if e4.0 as int == tgt as int {
                                assert(dist_at(dist@, tgt as int) == cand as int);
                            } else {
                                assert(dist@[e4.0 as int] == dist_old[e4.0 as int]);
                            }
                        }
                        assert forall|v: int|
                            0 <= v < self.nodes() && !ss2.contains(v)
                            && #[trigger] reached(dist@, v)
                            implies exists|k2: int|
                                0 <= k2 < frontier@.len()
                                && (#[trigger] frontier@[k2]).id as int == v
                                && frontier@[k2].distance as int == dist_at(dist@, v) by {
                            if v == tgt as int {
                                let kn = frontier@.len() - 1;
                                assert(frontier@[kn].id as int == v);
                                assert(frontier@[kn].distance as int == dist_at(dist@, v));
                            } else {
                                assert(reached(dist_old, v));
                                assert(dist_at(dist@, v) == dist_at(dist_old, v));
                                let k0 = choose|k0: int|
                                    0 <= k0 < fr_pre.len()
                                    && (#[trigger] fr_pre[k0]).id as int == v
                                    && fr_pre[k0].distance as int == dist_at(dist_old, v);
                                assert(frontier@[k0] == fr_pre[k0]);
                            }
                        }
                    }
                } else {
                    proof {
                        assert(reached(dist@, tgt as int));
                        assert(dist_at(dist@, tgt as int) <= d as int + w as int);
                    }
                }
                i2 += 1;
            }
            proof {
                lemma_settled_insert(self.nodes(), sset, node as int);
                let ghost ss_prev = sset;
                sset = sset.insert(node as int);
                assert(settled_min_ok(*self, s0 as int, dist@, sset)) by {
                    assert forall|u: int| #[trigger] sset.contains(u)
                        implies 0 <= u < self.nodes() && reached(dist@, u)
                            && (forall|d2: int|
                                #[trigger] reaches(*self, s0 as int, u, d2)
                                ==> dist_at(dist@, u) <= d2) by {
                        if u != node as int {
                            assert(ss_prev.contains(u));
                        }
                    }
                }
                assert(settled_relaxed_ok(*self, dist@, sset)) by {
                    assert forall|u: int, i4: int|
                        sset.contains(u) && 0 <= u < self.nodes()
                        && 0 <= i4 < self.adj_seq()[u].len()
                        implies {
                            let e4 = #[trigger] self.adj_seq()[u][i4];
                            reached(dist@, e4.0 as int)
                                && dist_at(dist@, e4.0 as int) <= dist_at(dist@, u) + e4.1 as int
                        } by {
                        if u == node as int {
                            assert(self.adj_seq()[node as int][i4]
                                == self.adj_seq()[node as int][i4]);
                        } else {
                            assert(ss_prev.contains(u));
                        }
                    }
                }
            }
            (Some((node, d)), Ghost(sset))
        }
    }

    /// Single-source Dijkstra: the exact shortest-distance table from the
    /// 1-indexed source, or `ArithmeticOverflow` exactly when the graph's
    /// distance range does not fit the machine word.
    pub fn djikstra_classic_ss(&self, src: usize) -> (r: Result<Vec<Option<usize>>, GraphError>)
        requires
            self.wf(),
            1 <= src && src as int <= self.nodes(),
        ensures
            ss_post(*self, src as int - 1, r),
    {
        let (n, m) = match self.distance_budget() {
            Some(pair) => pair,
            None => {
                return Err(GraphError::ArithmeticOverflow);
            },
        };
        let s0 = src - 1;
        let mut dist = self.fresh_table(s0);
        proof {
            lemma_reaches_self(*self, s0 as int);
        }
        let mut frontier: Vec<SearchNode> = Vec::new();
        frontier.push(SearchNode { id: s0, distance: 0 });
        let ghost mut ss: Set<int> = Set::<int>::empty();
        proof {
            assert(ss.subset_of(set_int_range(0, self.nodes())));
            assert forall|v: int|
                0 <= v < self.nodes() && !ss.contains(v) && #[trigger] reached(dist@, v)
                implies exists|k2: int|
                    0 <= k2 < frontier@.len() && (#[trigger] frontier@[k2]).id as int == v
                    && frontier@[k2].distance as int == dist_at(dist@, v) by {
                assert(v == s0 as int);
                assert((frontier@[0]).id as int == v
                    && frontier@[0].distance as int == dist_at(dist@, v));
            }
            assert(dij_inv(*self, s0 as int, m as int, dist@, frontier@, ss));
        }
        while frontier.len() > 0
            invariant
                dij_inv(*self, s0 as int, m as int, dist@, frontier@, ss),
                n as int == self.nodes(),
            decreases n as int - ss.len(), frontier@.len(),
        {
            let (_, new_ss) = self.dijkstra_round(&mut dist, &mut frontier, s0, m, Ghost(ss));
            proof {
                ss = new_ss@;
            }
        }
        proof {
            lemma_final_table(*self, s0 as int, m as int, dist@, ss);
        }
        Ok(dist)
    }

    /// Point-to-point Dijkstra: returns the moment the goal is extracted
    /// from the frontier as final, without completing the remaining
    /// frontier.  `start == goal` yields distance 0 without visiting any
    /// edge; an exhausted frontier means the goal is unreachable.
    pub fn djikstra_classic_p2p(&self, start: usize, goal: usize) -> (r: Result<
        Option<usize>,
        GraphError,
    >)
        requires
            self.wf(),
            1 <= start && start as int <= self.nodes(),
            1 <= goal && goal as int <= self.nodes(),
        ensures
            p2p_post(*self, start as int - 1, goal as int - 1, r),
    {
        if start == goal {
            return Ok(Some(0));
        }
        let (n, m) = match self.distance_budget() {
            Some(pair) => pair,
            None => {
                return Err(GraphError::ArithmeticOverflow);
            },
        };
        let s0 = start - 1;
        let g0 = goal - 1;
        let mut dist = self.fresh_table(s0);
        proof {
            lemma_reaches_self(*self, s0 as int);
        }
        let mut frontier: Vec<SearchNode> = Vec::new();
        frontier.push(SearchNode { id: s0, distance: 0 });
        let ghost mut ss: Set<int> = Set::<int>::empty();
        proof {
            assert(ss.subset_of(set_int_range(0, self.nodes())));
            assert forall|v: int|
                0 <= v < self.nodes() && !ss.contains(v) && #[trigger] reached(dist@, v)
                implies exists|k2: int|
                    0 <= k2 < frontier@.len() && (#[trigger] frontier@[k2]).id as int == v
                    && frontier@[k2].distance as int == dist_at(dist@, v) by {
                assert(v == s0 as int);
                assert((frontier@[0]).id as int == v
                    && frontier@[0].distance as int == dist_at(dist@, v));
            }
            assert(dij_inv(*self, s0 as int, m as int, dist@, frontier@, ss));
        }
        while frontier.len() > 0
            invariant
                dij_inv(*self, s0 as int, m as int, dist@, frontier@, ss),
                n as int == self.nodes(),
                (g0 as int) < self.nodes(),
                g0 as int != s0 as int,
                s0 as int == start as int - 1,
                g0 as int == goal as int - 1,
                size_ok(*self),
                !ss.contains(g0 as int),
            decreases n as int - ss.len(), frontier@.len(),
        {
            let (popped, new_ss) = self.dijkstra_round(&mut dist, &mut frontier, s0, m, Ghost(ss));
            proof {
                ss = new_ss@;
            }
            if let Some(pd) = popped {
                if pd.0 == g0 {
                    proof {
                        assert(ss.contains(g0 as int));
                        assert(dist_at(dist@, g0 as int) == pd.1 as int);
                        assert(reached(dist@, g0 as int));
                        assert(reaches(*self, s0 as int, g0 as int, pd.1 as int));
                        assert(is_dist_entry(*self, s0 as int, g0 as int, Some(pd.1)));
                        assert(size_ok(*self));
                        assert(s0 as int == start as int - 1);
                        assert(g0 as int == goal as int - 1);
                        assert(p2p_post(*self, start as int - 1, goal as int - 1,
                            Ok::<Option<usize>, GraphError>(Some(pd.1))));
                    }
                    return Ok(Some(pd.1));
                }
            }
        }
        proof {
            if reached(dist@, g0 as int) {
                assert(exists|k2: int|
                    0 <= k2 < frontier@.len() && (#[trigger] frontier@[k2]).id as int == g0 as int
                    && frontier@[k2].distance as int == dist_at(dist@, g0 as int));
                assert(false);
            }
            assert(reached(dist@, s0 as int));
            lemma_unreached_unreachable(*self, s0 as int, dist@, ss, g0 as int);
            assert(is_dist_entry(*self, s0 as int, g0 as int, None::<usize>));
        }
        Ok(None)
    }
}

} // verus!
