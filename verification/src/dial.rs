//! The bounded direct-bucket solver: Dial's algorithm.  One bucket per
//! exact distance value, `nodes * max_w + 1` of them, and a sweep pointer
//! that only ever advances.  Bucket membership is exact — on every
//! distance decrease the node is removed from its old bucket — so every
//! extraction is fresh and is settled at once.

use crate::graph::Graph;
use crate::graph::GraphError;
use crate::paths::dist_at;
use crate::paths::has_edge;
use crate::paths::is_dist_entry;
use crate::paths::lemma_cut_min;
use crate::paths::lemma_final_table;
use crate::paths::lemma_min_reach_bound;
use crate::paths::lemma_reach_nonneg;
use crate::paths::lemma_reaches_self;
use crate::paths::lemma_reaches_step;
use crate::paths::lemma_settled_insert;
use crate::paths::p2p_post;
use crate::paths::reached;
use crate::paths::reaches;
use crate::paths::settled_min_ok;
use crate::paths::settled_relaxed_ok;
use crate::paths::ss_post;
use crate::paths::table_ok;
use vstd::prelude::*;
use vstd::set_lib::set_int_range;

verus! {

/// Every bucket member is an in-range unsettled node whose recorded
/// distance equals its bucket's index.
pub open spec fn bucket_sound(
    g: Graph,
    dist: Seq<Option<usize>>,
    ss: Set<int>,
    bs: Seq<Vec<usize>>,
) -> bool {
    forall|b: int, j: int|
        0 <= b < bs.len() && 0 <= j < bs[b]@.len() ==> {
            let v = ((#[trigger] bs[b]@[j]) as int);
            &&& v < g.nodes()
            &&& !ss.contains(v)
            &&& dist[v] == Some(b as usize)
        }
}

/// Every unsettled reached node sits in the bucket of its recorded
/// distance.
pub open spec fn bucket_complete(
    g: Graph,
    dist: Seq<Option<usize>>,
    ss: Set<int>,
    bs: Seq<Vec<usize>>,
) -> bool {
    forall|v: int|
        0 <= v < g.nodes() && !ss.contains(v) && #[trigger] reached(dist, v)
        ==> 0 <= dist_at(dist, v) < bs.len() && bs[dist_at(dist, v)]@.contains(v as usize)
}

/// No bucket holds a node twice.
pub open spec fn bucket_nodup(bs: Seq<Vec<usize>>) -> bool {
    forall|b: int, j1: int, j2: int|
        #![trigger bs[b]@[j1], bs[b]@[j2]]
        0 <= b < bs.len() && 0 <= j1 < j2 < bs[b]@.len() ==> bs[b]@[j1] != bs[b]@[j2]
}

/// Removes the one occurrence of `x` from a duplicate-free bucket.
pub(crate) fn remove_node(bucket: &mut Vec<usize>, x: usize)
    requires
        old(bucket)@.contains(x),
        forall|j1: int, j2: int|
            #![trigger old(bucket)@[j1], old(bucket)@[j2]]
            0 <= j1 < j2 < old(bucket)@.len() ==> old(bucket)@[j1] != old(bucket)@[j2],
    ensures
        final(bucket)@.len() == old(bucket)@.len() - 1,
        forall|y: usize|
            #[trigger] final(bucket)@.contains(y) <==> (old(bucket)@.contains(y) && y != x),
        forall|j1: int, j2: int|
            #![trigger final(bucket)@[j1], final(bucket)@[j2]]
            0 <= j1 < j2 < final(bucket)@.len() ==> final(bucket)@[j1] != final(bucket)@[j2],
{
    let ghost b_old = bucket@;
    let mut p: usize = 0;
    while p < bucket.len() && bucket[p] != x
        invariant
            bucket@ == b_old,
            p <= bucket@.len(),
            b_old.contains(x),
            forall|j: int| 0 <= j < p as int ==> b_old[j] != x,
        decreases bucket@.len() - p,
    {
        p += 1;
    }
    proof {
        if p as int == b_old.len() {
            let j = choose|j: int| 0 <= j < b_old.len() && b_old[j] == x;
            assert(false);
        }
        assert(b_old[p as int] == x);
    }
    bucket.swap_remove(p);
    proof {
        assert(bucket@ == b_old.update(p as int, b_old.last()).drop_last());
        assert forall|j2: int| 0 <= j2 < bucket@.len() implies
            (#[trigger] bucket@[j2]) == b_old[j2] || bucket@[j2] == b_old[b_old.len() - 1] by {
            if j2 == p as int {
                assert(bucket@[j2] == b_old[b_old.len() - 1]);
            } else {
                assert(bucket@[j2] == b_old[j2]);
            }
        }
        assert forall|y: usize|
            #[trigger] bucket@.contains(y) implies (b_old.contains(y) && y != x) by {
            let j = choose|j: int| 0 <= j < bucket@.len() && bucket@[j] == y;
            if j == p as int {
                assert(b_old[b_old.len() - 1] == y);
                if y == x {
                    assert(b_old[p as int] == b_old[b_old.len() - 1]);
                    assert(p as int == b_old.len() - 1);
                    assert(false);
                }
            } else {
                assert(b_old[j] == y);
                if y == x {
                    assert(b_old[j] == b_old[p as int]);
                    assert(false);
                }
            }
        }
        assert forall|y: usize| b_old.contains(y) && y != x implies #[trigger] bucket@.contains(
            y,
        ) by {
            let j = choose|j: int| 0 <= j < b_old.len() && b_old[j] == y;
            assert(j != p as int);
            if j == b_old.len() - 1 {
                assert(bucket@[p as int] == y);
            } else {
                assert(bucket@[j] == y);
            }
        }
        assert forall|j1: int, j2: int|
            0 <= j1 < j2 < bucket@.len() implies (#[trigger] bucket@[j1]) != (
        #[trigger] bucket@[j2]) by {
            let o1: int = if j1 == p as int { b_old.len() - 1 } else { j1 };
            let o2: int = if j2 == p as int { b_old.len() - 1 } else { j2 };
            assert(bucket@[j1] == b_old[o1]);
            assert(bucket@[j2] == b_old[o2]);
            assert(o1 != o2);
        }
    }
}

impl Graph {
    /// Single-source Dial: the exact shortest-distance table from the
    /// 1-indexed source, or `ArithmeticOverflow` exactly when the bucket
    /// range `nodes * max_w + 1` does not fit the machine word.
    pub fn dial_ss(&self, src: usize) -> (r: Result<Vec<Option<usize>>, GraphError>)
        requires
            self.wf(),
            1 <= src && src as int <= self.nodes(),
        ensures
            ss_post(*self, src as int - 1, r),
    {
        let (n, m) = match self.distance_budget() {
            Some(pair) => pair,
            None => {
                return Err(GraphError::ArithmeticOverflow);
            },
        };
        let mw = self.max_weight();
        let nbuckets = m + 1;
        let s0 = src - 1;
        let mut dist = self.fresh_table(s0);
        proof {
            lemma_reaches_self(*self, s0 as int);
        }
        let mut buckets: Vec<Vec<usize>> = Vec::new();
        let mut i: usize = 0;
        while i < nbuckets
            invariant
                i <= nbuckets,
                buckets@.len() == i as int,
                forall|b: int| 0 <= b < i as int ==> (#[trigger] buckets@[b])@.len() == 0,
            decreases nbuckets - i,
        {
            buckets.push(Vec::new());
            i += 1;
        }
        buckets[0].push(s0);
        let ghost mut ss: Set<int> = Set::<int>::empty();
        let mut idx: usize = 0;
        proof {
            assert(ss.subset_of(set_int_range(0, self.nodes())));
            assert(buckets@[0]@ =~= seq![s0]);
            assert forall|v: int|
                0 <= v < self.nodes() && !ss.contains(v) && #[trigger] reached(dist@, v)
                implies 0 <= dist_at(dist@, v) < buckets@.len()
                    && buckets@[dist_at(dist@, v)]@.contains(v as usize) by {
                assert(v == s0 as int);
                assert(buckets@[0]@[0] == s0);
            }
        }
        while idx < nbuckets
            invariant
                self.wf(),
                (s0 as int) < self.nodes(),
                n as int == self.nodes(),
                mw as int == self.max_w(),
                m as int == self.nodes() * self.max_w(),
                m < usize::MAX,
                nbuckets == m + 1,
                buckets@.len() == nbuckets as int,
                idx <= nbuckets,
                table_ok(*self, s0 as int, m as int, dist@),
                settled_min_ok(*self, s0 as int, dist@, ss),
                settled_relaxed_ok(*self, dist@, ss),
                bucket_sound(*self, dist@, ss, buckets@),
                bucket_complete(*self, dist@, ss, buckets@),
                bucket_nodup(buckets@),
                forall|b: int| 0 <= b < idx as int ==> (#[trigger] buckets@[b])@.len() == 0,
                ss.finite(),
                ss.subset_of(set_int_range(0, self.nodes())),
                ss.len() <= n as int,
            decreases n as int - ss.len(), nbuckets - idx,
        {
            if buckets[idx].is_empty() {
                idx += 1;
            } else {
                let ghost bs_old = buckets@;
                let v = buckets[idx].pop().unwrap();
                let d = idx;
                proof {
                    assert(bs_old[idx as int]@.len() > 0);
                    assert(v == bs_old[idx as int]@[bs_old[idx as int]@.len() - 1]);
                    assert((v as int) < self.nodes());
                    assert(!ss.contains(v as int));
                    assert(dist@[v as int] == Some(d));
                    assert(dist_at(dist@, v as int) == d as int);
                    assert(buckets@[idx as int]@
                        == bs_old[idx as int]@.subrange(0, bs_old[idx as int]@.len() - 1));
                    // The sweep pointer is a lower bound on every
                    // unsettled tentative distance, so the popped node is
                    // minimal and the cut argument settles it.
                    assert forall|u: int|
                        0 <= u < self.nodes() && !(#[trigger] ss.contains(u))
                        && reached(dist@, u)
                        implies dist_at(dist@, v as int) <= dist_at(dist@, u) by {
                        assert(bs_old[dist_at(dist@, u)]@.contains(u as usize));
                        if dist_at(dist@, u) < idx as int {
                            assert(bs_old[dist_at(dist@, u)]@.len() == 0);
                            assert(false);
                        }
                    }
                    lemma_cut_min(*self, s0 as int, dist@, ss, v as int);
                    assert(reached(dist@, v as int));
                    assert(reaches(*self, s0 as int, v as int, d as int));
                    lemma_min_reach_bound(*self, s0 as int, v as int, d as int);
                    let d2 = choose|d2: int|
                        #[trigger] reaches(*self, s0 as int, v as int, d2) && d2 <= d as int
                        && 0 <= d2 <= (self.nodes() - 1) * self.max_w();
                    assert(d as int <= (self.nodes() - 1) * self.max_w());
                    assert((self.nodes() - 1) * self.max_w() + self.max_w()
                        == self.nodes() * self.max_w()) by (nonlinear_arith);
                    assert(d as int + mw as int <= m as int);
                    // Exact membership survives the pop: the popped node
                    // is about to be settled, everyone else stays put.
                    assert forall|b: int, j: int|
                        0 <= b < buckets@.len() && 0 <= j < buckets@[b]@.len()
                        implies {
                            let u = ((#[trigger] buckets@[b]@[j]) as int);
                            u < self.nodes() && !ss.insert(v as int).contains(u)
                                && dist@[u] == Some(b as usize)
                        } by {
                        if b == idx as int {
                            assert(buckets@[b]@[j] == bs_old[b]@[j]);
                            assert(bs_old[b]@[j] != bs_old[b]@[bs_old[b]@.len() - 1]);
                        } else {
                            assert(buckets@[b]@[j] == bs_old[b]@[j]);
                        }
                    }
                    assert forall|u: int|
                        0 <= u < self.nodes() && !ss.insert(v as int).contains(u)
                        && #[trigger] reached(dist@, u)
                        implies 0 <= dist_at(dist@, u) < buckets@.len()
                            && buckets@[dist_at(dist@, u)]@.contains(u as usize) by {
                        assert(bs_old[dist_at(dist@, u)]@.contains(u as usize));
                        let j = choose|j: int|
                            0 <= j < bs_old[dist_at(dist@, u)]@.len()
                            && bs_old[dist_at(dist@, u)]@[j] == u as usize;
                        if dist_at(dist@, u) == idx as int {
                            assert(j != bs_old[idx as int]@.len() - 1);
                            assert(buckets@[idx as int]@[j] == u as usize);
                        } else {
                            assert(buckets@[dist_at(dist@, u)]@[j] == u as usize);
                        }
                    }
                    assert forall|b: int, j1: int, j2: int|
                        0 <= b < buckets@.len() && 0 <= j1 < j2 < buckets@[b]@.len()
                        implies (#[trigger] buckets@[b]@[j1]) != (#[trigger] buckets@[b]@[j2]) by {
                        assert(buckets@[b]@[j1] == bs_old[b]@[j1]);
                        assert(buckets@[b]@[j2] == bs_old[b]@[j2]);
                    }
                }
                let ghost ss2 = ss.insert(v as int);
                let deg = self.out_edges(v).len();
                let mut i2: usize = 0;
                while i2 < deg
                    invariant
                        self.wf(),
                        (s0 as int) < self.nodes(),
                        0 <= s0 as int,
                        n as int == self.nodes(),
                        mw as int == self.max_w(),
                        m as int == self.nodes() * self.max_w(),
                        m < usize::MAX,
                        nbuckets == m + 1,
                        buckets@.len() == nbuckets as int,
                        (v as int) < self.nodes(),
                        deg == self.adj_seq()[v as int].len(),
                        i2 <= deg,
                        d == idx,
                        idx < nbuckets,
                        d as int + mw as int <= m as int,
                        dist@[v as int] == Some(d),
                        dist_at(dist@, v as int) == d as int,
                        table_ok(*self, s0 as int, m as int, dist@),
                        settled_min_ok(*self, s0 as int, dist@, ss),
                        settled_relaxed_ok(*self, dist@, ss),
                        bucket_sound(*self, dist@, ss2, buckets@),
                        bucket_complete(*self, dist@, ss2, buckets@),
                        bucket_nodup(buckets@),
                        forall|b: int| 0 <= b < idx as int ==> (#[trigger] buckets@[b])@.len() == 0,
                        ss2 == ss.insert(v as int),
                        ss.finite(),
                        ss.subset_of(set_int_range(0, self.nodes())),
                        ss.len() <= n as int,
                        !ss.contains(v as int),
                        forall|d2: int|
                            #[trigger] reaches(*self, s0 as int, v as int, d2) ==> d as int <= d2,
                        forall|i3: int| 0 <= i3 < i2 as int ==> {
                            let e3 = #[trigger] self.adj_seq()[v as int][i3];
                            reached(dist@, e3.0 as int)
                                && dist_at(dist@, e3.0 as int) <= d as int + e3.1 as int
                        },
                    decreases deg - i2,
                {
                    let edges = self.out_edges(v);
                    let pr = edges[i2];
                    let tgt = pr.0;
                    let w = pr.1;
                    proof {
                        assert(self.adj_seq()[v as int][i2 as int] == pr);
                        assert((tgt as int) < self.nodes());
                        assert(w as int <= self.max_w());
                        assert(has_edge(*self, v as int, tgt as int, w as int));
                    }
                    let cand = d + w;
                    let improve = match dist[tgt] {
                        None => true,
                        Some(dv) => cand < dv,
                    };
                    if improve {
                        proof {
                            assert(reached(dist@, v as int));
                            assert(reaches(*self, s0 as int, v as int, d as int));
                            lemma_reaches_step(
                                *self,
                                s0 as int,
                                v as int,
                                d as int,
                                tgt as int,
                                w as int,
                            );
                            // A settled target would contradict its own
                            // minimality.
                            if ss.contains(tgt as int) {
                                assert(dist_at(dist@, tgt as int) <= cand as int);
                                assert(false);
                            }
                            if tgt == v {
                                assert(false);
                            }
                            lemma_reach_nonneg(*self, s0 as int, tgt as int, cand as int);
                            if tgt == s0 {
                                assert(dist_at(dist@, s0 as int) == 0);
                                assert(false);
                            }
                        }
                        // Exact membership: a previously reached target
                        // leaves its old bucket before entering the new
                        // one.
                        let old_entry = dist[tgt];
                        if let Some(dv) = old_entry {
                            proof {
                                assert(reached(dist@, tgt as int));
                                assert(!ss2.contains(tgt as int));
                                assert(dist_at(dist@, tgt as int) == dv as int);
                                assert((dv as int) < buckets@.len());
                                assert(buckets@[dv as int]@.contains(tgt));
                            }
                            let ghost bs_pre = buckets@;
                            remove_node(&mut buckets[dv], tgt);
                            proof {
                                assert(buckets@
                                    == bs_pre.update(dv as int, buckets@[dv as int]));
                                assert forall|b: int, j: int|
                                    0 <= b < buckets@.len() && 0 <= j < buckets@[b]@.len()
                                    implies {
                                        let u = ((#[trigger] buckets@[b]@[j]) as int);
                                        u < self.nodes() && !ss2.contains(u)
                                            && dist@[u] == Some(b as usize)
                                    } by {
                                    if b == dv as int {
                                        assert(buckets@[b]@.contains(buckets@[b]@[j]));
                                        assert(bs_pre[b]@.contains(buckets@[b]@[j]));
                                        let j2 = choose|j2: int|
                                            0 <= j2 < bs_pre[b]@.len()
                                            && bs_pre[b]@[j2] == buckets@[b]@[j];
                                    } else {
                                        assert(buckets@[b]@[j] == bs_pre[b]@[j]);
                                    }
                                }
                                assert forall|u: int|
                                    0 <= u < self.nodes() && !ss2.contains(u)
                                    && #[trigger] reached(dist@, u) && u != tgt as int
                                    implies 0 <= dist_at(dist@, u) < buckets@.len()
                                        && buckets@[dist_at(dist@, u)]@.contains(u as usize) by {
                                    assert(bs_pre[dist_at(dist@, u)]@.contains(u as usize));
                                    if dist_at(dist@, u) == dv as int {
                                        assert(u as usize != tgt);
                                        assert(buckets@[dv as int]@.contains(u as usize));
                                    }
                                }
                            }
                        }
                        proof {
                            // The target sits in no bucket now: exact
                            // membership ties every residence to its old
                            // recorded distance.
                            assert forall|b: int, j: int|
                                0 <= b < buckets@.len() && 0 <= j < buckets@[b]@.len()
                                implies ((#[trigger] buckets@[b]@[j]) as int) != tgt as int by {
                                if buckets@[b]@[j] == tgt {
                                    assert(dist@[tgt as int] == Some(b as usize));
                                    match old_entry {
                                        Some(dv) => {
                                            assert(b == dv as int);
                                            assert(buckets@[dv as int]@.contains(tgt));
                                        },
                                        None => {},
                                    }
                                }
                            }
                        }
                        let ghost dist_old = dist@;
                        let ghost bs_mid = buckets@;
                        dist[tgt] = Some(cand);
                        proof {
                            assert(cand < nbuckets);
                        }
                        buckets[cand].push(tgt);
                        proof {
                            assert(dist@ == dist_old.update(tgt as int, Some(cand)));
                            assert(buckets@[cand as int]@ == bs_mid[cand as int]@.push(tgt));
                            assert(forall|b: int|
                                0 <= b < buckets@.len() && b != cand as int
                                ==> (#[trigger] buckets@[b]) == bs_mid[b]);
                            assert forall|vv: int|
                                0 <= vv < self.nodes() && #[trigger] reached(dist@, vv)
                                implies reaches(*self, s0 as int, vv, dist_at(dist@, vv))
                                    && dist_at(dist@, vv) <= m as int by {
                                if vv != tgt as int {
                                    assert(dist@[vv] == dist_old[vv]);
                                    assert(reached(dist_old, vv));
                                    assert(dist_at(dist@, vv) == dist_at(dist_old, vv));
                                } else {
                                    assert(dist_at(dist@, vv) == cand as int);
                                    assert(cand as int <= d as int + mw as int);
                                }
                            }
                            assert forall|u: int, i4: int|
                                ss.contains(u) && 0 <= u < self.nodes()
                                && 0 <= i4 < self.adj_seq()[u].len()
                                implies {
                                    let e4 = #[trigger] self.adj_seq()[u][i4];
                                    reached(dist@, e4.0 as int)
                                        && dist_at(dist@, e4.0 as int)
                                            <= dist_at(dist@, u) + e4.1 as int
                                } by {
                                let e4 = self.adj_seq()[u][i4];
                                assert(ss.contains(u) && 0 <= i4 < self.adj_seq()[u].len());
                                assert(reached(dist_old, e4.0 as int));
                                assert(dist_at(dist_old, e4.0 as int)
                                    <= dist_at(dist_old, u) + e4.1 as int);
                                assert(dist@[u] == dist_old[u]);
                                if e4.0 as int == tgt as int {
                                    assert(dist_at(dist@, tgt as int) == cand as int);
                                } else {
                                    assert(dist@[e4.0 as int] == dist_old[e4.0 as int]);
                                }
                            }
                            // Exact membership holds again: the target
                            // now lives exactly in its new bucket.
                            assert forall|b: int, j: int|
                                0 <= b < buckets@.len() && 0 <= j < buckets@[b]@.len()
                                implies {
                                    let u = ((#[trigger] buckets@[b]@[j]) as int);
                                    u < self.nodes() && !ss2.contains(u)
                                        && dist@[u] == Some(b as usize)
                                } by {
                                if b == cand as int && j == buckets@[b]@.len() - 1 {
                                    assert(buckets@[b]@[j] == tgt);
                                } else {
                                    assert(buckets@[b]@[j] == bs_mid[b]@[j]);
                                    let u = (bs_mid[b]@[j]) as int;
                                    assert(u != tgt as int);
                                    assert(dist@[u] == dist_old[u]);
                                }
                            }
                            assert forall|u: int|
                                0 <= u < self.nodes() && !ss2.contains(u)
                                && #[trigger] reached(dist@, u)
                                implies 0 <= dist_at(dist@, u) < buckets@.len()
                                    && buckets@[dist_at(dist@, u)]@.contains(u as usize) by {
                                if u == tgt as int {
                                    assert(buckets@[cand as int]@[buckets@[cand as int]@.len() - 1]
                                        == tgt);
                                } else {
                                    assert(dist@[u] == dist_old[u]);
                                    assert(reached(dist_old, u));
                                    assert(dist_at(dist@, u) == dist_at(dist_old, u));
                                    assert(bs_mid[dist_at(dist_old, u)]@.contains(u as usize));
                                    let j = choose|j: int|
                                        0 <= j < bs_mid[dist_at(dist_old, u)]@.len()
                                        && bs_mid[dist_at(dist_old, u)]@[j] == u as usize;
                                    assert(buckets@[dist_at(dist@, u)]@[j] == u as usize);
                                }
                            }
                            assert forall|b: int, j1: int, j2: int|
                                0 <= b < buckets@.len() && 0 <= j1 < j2 < buckets@[b]@.len()
                                implies (#[trigger] buckets@[b]@[j1]) != (
                            #[trigger] buckets@[b]@[j2]) by {
                                if b == cand as int {
                                    if j2 == buckets@[b]@.len() - 1 {
                                        assert(buckets@[b]@[j1] == bs_mid[b]@[j1]);
                                        assert(buckets@[b]@[j2] == tgt);
                                        assert((bs_mid[b]@[j1] as int) != tgt as int);
                                    } else {
                                        assert(buckets@[b]@[j1] == bs_mid[b]@[j1]);
                                        assert(buckets@[b]@[j2] == bs_mid[b]@[j2]);
                                    }
                                } else {
                                    assert(buckets@[b]@[j1] == bs_mid[b]@[j1]);
                                    assert(buckets@[b]@[j2] == bs_mid[b]@[j2]);
                                }
                            }
                        }
                    } else {
                        proof {
                            assert(reached(dist@, tgt as int));
                            assert(dist_at(dist@, tgt as int) <= d as int + w as int);
                        }
                    }
                    i2 += 1;
                }
                proof {
                    lemma_settled_insert(n as int, ss, v as int);
                    let ghost ss_prev = ss;
                    ss = ss.insert(v as int);
                    assert(settled_min_ok(*self, s0 as int, dist@, ss)) by {
                        assert forall|u: int| #[trigger] ss.contains(u)
                            implies 0 <= u < self.nodes() && reached(dist@, u)
                                && (forall|d2: int|
                                    #[trigger] reaches(*self, s0 as int, u, d2)
                                    ==> dist_at(dist@, u) <= d2) by {
                            if u != v as int {
                                assert(ss_prev.contains(u));
                            }
                        }
                    }
                    assert(settled_relaxed_ok(*self, dist@, ss)) by {
                        assert forall|u: int, i4: int|
                            ss.contains(u) && 0 <= u < self.nodes()
                            && 0 <= i4 < self.adj_seq()[u].len()
                            implies {
                                let e4 = #[trigger] self.adj_seq()[u][i4];
                                reached(dist@, e4.0 as int)
                                    && dist_at(dist@, e4.0 as int)
                                        <= dist_at(dist@, u) + e4.1 as int
                            } by {
                            if u == v as int {
                                assert(self.adj_seq()[v as int][i4]
                                    == self.adj_seq()[v as int][i4]);
                            } else {
                                assert(ss_prev.contains(u));
                            }
                        }
                    }
                }
            }
        }
        proof {
            assert forall|u: int|
                0 <= u < self.nodes() && #[trigger] reached(dist@, u)
                implies ss.contains(u) by {
                if !ss.contains(u) {
                    assert(buckets@[dist_at(dist@, u)]@.contains(u as usize));
                    assert(buckets@[dist_at(dist@, u)]@.len() == 0);
                }
            }
            lemma_final_table(*self, s0 as int, m as int, dist@, ss);
        }
        Ok(dist)
    }

    /// Point-to-point Dial: answered from a single-source run, with
    /// `start == goal` yielding distance 0 without visiting any edge.
    pub fn dial_p2p(&self, start: usize, goal: usize) -> (r: Result<Option<usize>, GraphError>)
        requires
            self.wf(),
            1 <= start && start as int <= self.nodes(),
            1 <= goal && goal as int <= self.nodes(),
        ensures
            p2p_post(*self, start as int - 1, goal as int - 1, r),
    {
        if start == goal {
            return Ok(Some(0));
        }
        match self.dial_ss(start) {
            Ok(t) => {
                let o = t[goal - 1];
                proof {
                    assert(is_dist_entry(*self, start as int - 1, goal as int - 1, o));
                }
                Ok(o)
            },
            Err(e) => Err(e),
        }
    }
}

} // verus!
