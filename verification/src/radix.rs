//! The hierarchical range-bucket solver: a radix heap.  A short ordered
//! sequence of buckets covers all candidate distances with half-open
//! ranges that double in width, bucket 0 always a single value — the
//! watermark, a monotone lower bound on every future extraction.  An
//! extraction takes the least-distance member of the lowest nonempty
//! bucket, re-tiles the ranges of the buckets below it relative to the
//! new watermark, and redistributes the bucket's remaining members
//! downward; each node is redistributed only as often as the bucket
//! count.

use crate::dial::remove_node;
use crate::graph::Graph;
use crate::graph::GraphError;
use crate::paths::dist_at;
use crate::paths::has_edge;
use crate::paths::is_dist_entry;
use crate::paths::lemma_cut_min;
use crate::paths::lemma_final_table;
use crate::paths::lemma_min_reach_bound;
use crate::paths::lemma_reach_nonneg;
use crate::paths::lemma_reaches_self;
use crate::paths::lemma_reaches_step;
use crate::paths::lemma_settled_insert;
use crate::paths::p2p_post;
use crate::paths::reached;
use crate::paths::reaches;
use crate::paths::settled_min_ok;
use crate::paths::settled_relaxed_ok;
use crate::paths::ss_post;
use crate::paths::table_ok;
use vstd::arithmetic::power2::lemma_pow2_adds;
use vstd::arithmetic::power2::lemma_pow2_pos;
use vstd::arithmetic::power2::lemma_pow2_strictly_increases;
use vstd::arithmetic::power2::pow2;
use vstd::prelude::*;
use vstd::set_lib::set_int_range;

verus! {

/// One bucket: a member list and the closed distance range it covers.
/// A bucket whose range is empty (`range_a > range_b`) covers nothing
/// and holds nothing.
struct RadixBucket {
    v_list: Vec<usize>,
    range_a: usize,
    range_b: usize,
}

spec fn rb_proper(b: RadixBucket) -> bool {
    b.range_a <= b.range_b
}

spec fn in_range(b: RadixBucket, c: int) -> bool {
    b.range_a as int <= c <= b.range_b as int
}

/// Some proper bucket's range holds `c`.
spec fn covered(bs: Seq<RadixBucket>, c: int) -> bool {
    exists|j: int| 0 <= j < bs.len() && rb_proper(#[trigger] bs[j]) && in_range(bs[j], c)
}

/// Empty-range buckets hold no members.
spec fn sentinels_empty(bs: Seq<RadixBucket>) -> bool {
    forall|j: int| 0 <= j < bs.len() && !rb_proper(#[trigger] bs[j]) ==> bs[j].v_list@.len() == 0
}

/// Proper ranges appear in strictly increasing, disjoint order.
spec fn ranges_ordered(bs: Seq<RadixBucket>) -> bool {
    forall|j1: int, j2: int|
        #![trigger bs[j1], bs[j2]]
        0 <= j1 < j2 < bs.len() && rb_proper(bs[j1]) && rb_proper(bs[j2]) ==> (bs[j1].range_b
            as int) < bs[j2].range_a as int
}

/// Every distance from bucket 0's base to the top of the machine word
/// lies in some bucket's range: the bucket lookup is total.
spec fn all_covered(bs: Seq<RadixBucket>) -> bool {
    forall|c: int| bs[0].range_a as int <= c <= usize::MAX as int ==> #[trigger] covered(bs, c)
}

/// Within the distance budget `m`, bucket `j` spans fewer than
/// `pow2(j - 1)` values: the redistribution of bucket `j` always fits
/// into the re-tiled buckets below it.
spec fn widths_ok(bs: Seq<RadixBucket>, m: int) -> bool {
    forall|j: int|
        1 <= j < bs.len() && rb_proper(#[trigger] bs[j]) ==> (if bs[j].range_b as int <= m {
            bs[j].range_b as int
        } else {
            m
        }) < bs[j].range_a as int + pow2((j - 1) as nat) as int
}

/// Every member is an in-range unsettled node whose recorded distance
/// lies in its bucket's range.
spec fn members_ok(g: Graph, dist: Seq<Option<usize>>, ss: Set<int>, bs: Seq<RadixBucket>) -> bool {
    forall|j: int, k: int|
        #![trigger bs[j].v_list@[k]]
        0 <= j < bs.len() && 0 <= k < bs[j].v_list@.len() ==> {
            let u = bs[j].v_list@[k] as int;
            &&& u < g.nodes()
            &&& !ss.contains(u)
            &&& reached(dist, u)
            &&& in_range(bs[j], dist_at(dist, u))
        }
}

/// Every unsettled reached node sits in some bucket.
spec fn members_complete(
    g: Graph,
    dist: Seq<Option<usize>>,
    ss: Set<int>,
    bs: Seq<RadixBucket>,
) -> bool {
    forall|v: int|
        0 <= v < g.nodes() && !ss.contains(v) && #[trigger] reached(dist, v) ==> exists|j: int|
            0 <= j < bs.len() && (#[trigger] bs[j]).v_list@.contains(v as usize)
}

/// No bucket holds a node twice.
spec fn buckets_nodup(bs: Seq<RadixBucket>) -> bool {
    forall|j: int, k1: int, k2: int|
        #![trigger bs[j].v_list@[k1], bs[j].v_list@[k2]]
        0 <= j < bs.len() && 0 <= k1 < k2 < bs[j].v_list@.len() ==> bs[j].v_list@[k1]
            != bs[j].v_list@[k2]
}

/// The bucket count fits the distance budget: the topmost bucket can
/// reach past `m`, and one doubling of the largest range still fits the
/// arithmetic below.
spec fn sizing_ok(bs_len: int, m: int) -> bool {
    &&& bs_len >= 2
    &&& m < pow2((bs_len - 1) as nat) as int
    &&& pow2((bs_len - 1) as nat) as int <= 2 * (usize::MAX as int)
}

/// The whole radix-heap invariant.
spec fn radix_inv(
    g: Graph,
    dist: Seq<Option<usize>>,
    ss: Set<int>,
    bs: Seq<RadixBucket>,
    m: int,
) -> bool {
    &&& sizing_ok(bs.len() as int, m)
    &&& rb_proper(bs[0])
    &&& bs[0].range_a == bs[0].range_b
    &&& sentinels_empty(bs)
    &&& ranges_ordered(bs)
    &&& all_covered(bs)
    &&& widths_ok(bs, m)
    &&& members_ok(g, dist, ss, bs)
    &&& members_complete(g, dist, ss, bs)
    &&& buckets_nodup(bs)
}

/// A node can be a member of only one bucket: its recorded distance
/// picks the range.
proof fn lemma_member_bucket_unique(
    g: Graph,
    dist: Seq<Option<usize>>,
    ss: Set<int>,
    bs: Seq<RadixBucket>,
    j1: int,
    j2: int,
    x: usize,
)
    requires
        members_ok(g, dist, ss, bs),
        ranges_ordered(bs),
        0 <= j1 < bs.len(),
        0 <= j2 < bs.len(),
        bs[j1].v_list@.contains(x),
        bs[j2].v_list@.contains(x),
    ensures
        j1 == j2,
{
    let k1 = choose|k1: int| 0 <= k1 < bs[j1].v_list@.len() && bs[j1].v_list@[k1] == x;
    let k2 = choose|k2: int| 0 <= k2 < bs[j2].v_list@.len() && bs[j2].v_list@[k2] == x;
    assert(in_range(bs[j1], dist_at(dist, x as int)));
    assert(in_range(bs[j2], dist_at(dist, x as int)));
    assert(rb_proper(bs[j1]));
    assert(rb_proper(bs[j2]));
    if j1 < j2 {
        assert((bs[j1].range_b as int) < bs[j2].range_a as int);
        assert(false);
    }
    if j2 < j1 {
        assert((bs[j2].range_b as int) < bs[j1].range_a as int);
        assert(false);
    }
}

/// Mutating member lists leaves every range-only invariant intact.
proof fn lemma_ranges_transfer(bs_old: Seq<RadixBucket>, bs_new: Seq<RadixBucket>, m: int)
    requires
        bs_new.len() == bs_old.len(),
        bs_old.len() >= 1,
        forall|j: int|
            0 <= j < bs_old.len() ==> (#[trigger] bs_new[j]).range_a == bs_old[j].range_a
                && bs_new[j].range_b == bs_old[j].range_b,
        ranges_ordered(bs_old),
        all_covered(bs_old),
        widths_ok(bs_old, m),
    ensures
        ranges_ordered(bs_new),
        all_covered(bs_new),
        widths_ok(bs_new, m),
{
    assert forall|j1: int, j2: int|
        #![trigger bs_new[j1], bs_new[j2]]
        0 <= j1 < j2 < bs_new.len() && rb_proper(bs_new[j1]) && rb_proper(bs_new[j2]) implies (
    bs_new[j1].range_b as int) < bs_new[j2].range_a as int by {
        assert(rb_proper(bs_old[j1]) && rb_proper(bs_old[j2]));
    }
    assert forall|c: int|
        bs_new[0].range_a as int <= c <= usize::MAX as int implies #[trigger] covered(
        bs_new,
        c,
    ) by {
        assert(bs_old[0].range_a == bs_new[0].range_a);
        assert(covered(bs_old, c));
        let j = choose|j: int|
            0 <= j < bs_old.len() && rb_proper(#[trigger] bs_old[j]) && in_range(bs_old[j], c);
        assert(rb_proper(bs_new[j]) && in_range(bs_new[j], c));
    }
    assert forall|j: int|
        1 <= j < bs_new.len() && rb_proper(#[trigger] bs_new[j]) implies (if bs_new[j].range_b
        as int <= m {
        bs_new[j].range_b as int
    } else {
        m
    }) < bs_new[j].range_a as int + pow2((j - 1) as nat) as int by {
        assert(rb_proper(bs_old[j]));
    }
}

/// Finds the lowest-indexed nonempty bucket, if any.
fn first_nonempty(bs: &Vec<RadixBucket>) -> (r: Option<usize>)
    ensures
        match r {
            Some(j) => (j as int) < bs@.len() && bs@[j as int].v_list@.len() > 0 && (forall|j2: int|
                0 <= j2 < j as int ==> (#[trigger] bs@[j2]).v_list@.len() == 0),
            None => forall|j2: int| 0 <= j2 < bs@.len() ==> (#[trigger] bs@[j2]).v_list@.len() == 0,
        },
{
    let mut j: usize = 0;
    while j < bs.len()
        invariant
            j <= bs@.len(),
            forall|j2: int| 0 <= j2 < j as int ==> (#[trigger] bs@[j2]).v_list@.len() == 0,
        decreases bs@.len() - j,
    {
        if !bs[j].v_list.is_empty() {
            return Some(j);
        }
        j += 1;
    }
    None
}

/// Finds a proper bucket whose range holds `c`; total whenever the
/// structure covers `c`.
fn find_bucket(bs: &Vec<RadixBucket>, c: usize) -> (j: usize)
    requires
        covered(bs@, c as int),
    ensures
        (j as int) < bs@.len(),
        rb_proper(bs@[j as int]),
        in_range(bs@[j as int], c as int),
        forall|j2: int|
            0 <= j2 < j as int ==> !(rb_proper(#[trigger] bs@[j2]) && in_range(bs@[j2], c as int)),
{
    let mut j: usize = 0;
    while j < bs.len()
        invariant
            j <= bs@.len(),
            covered(bs@, c as int),
            forall|j2: int|
                0 <= j2 < j as int ==> !(rb_proper(#[trigger] bs@[j2]) && in_range(
                    bs@[j2],
                    c as int,
                )),
        decreases bs@.len() - j,
    {
        if bs[j].range_a <= c && c <= bs[j].range_b {
            return j;
        }
        j += 1;
    }
    proof {
        let jw = choose|jw: int|
            0 <= jw < bs@.len() && rb_proper(#[trigger] bs@[jw]) && in_range(bs@[jw], c as int);
        assert(false);
    }
    0
}

/// Finds a member of least recorded distance.
fn min_member(items: &Vec<usize>, dist: &Vec<Option<usize>>) -> (k: usize)
    requires
        items@.len() > 0,
        forall|k2: int|
            0 <= k2 < items@.len() ==> (items@[k2] as int) < dist@.len() && (#[trigger] dist@[items@[
                k2
            ] as int]) is Some,
    ensures
        (k as int) < items@.len(),
        forall|k2: int|
            0 <= k2 < items@.len() ==> dist_at(dist@, items@[k as int] as int) <= dist_at(
                dist@,
                (#[trigger] items@[k2]) as int,
            ),
{
    let mut best: usize = 0;
    let first = items[0];
    proof {
        assert((items@[0] as int) < dist@.len() && dist@[items@[0] as int] is Some);
    }
    let mut bestd: usize = dist[first].unwrap();
    let mut k: usize = 1;
    while k < items.len()
        invariant
            (best as int) < items@.len(),
            k <= items@.len(),
            forall|k2: int|
                0 <= k2 < items@.len() ==> (items@[k2] as int) < dist@.len() && (
                #[trigger] dist@[items@[k2] as int]) is Some,
            dist@[items@[best as int] as int] == Some(bestd),
            forall|k2: int|
                0 <= k2 < k as int ==> bestd as int <= dist_at(
                    dist@,
                    (#[trigger] items@[k2]) as int,
                ),
        decreases items@.len() - k,
    {
        let u = items[k];
        proof {
            assert((items@[k as int] as int) < dist@.len()
                && dist@[items@[k as int] as int] is Some);
        }
        let du = dist[u].unwrap();
        if du < bestd {
            best = k;
            bestd = du;
        }
        k += 1;
    }
    best
}

/// Some proper bucket below index `jmax` holds `c` in its range.
spec fn covered_below(bs: Seq<RadixBucket>, jmax: int, c: int) -> bool {
    exists|j: int| 0 <= j < jmax && rb_proper(#[trigger] bs[j]) && in_range(bs[j], c)
}

/// The total width of the re-tiled buckets below `i`: one value for
/// bucket 0, then doubling.
spec fn presum(i: int) -> int {
    if i <= 0 {
        0
    } else {
        pow2((i - 1) as nat) as int
    }
}

/// The width of re-tiled bucket `i`.
spec fn wexp(i: int) -> nat {
    if i <= 1 {
        0
    } else {
        (i - 1) as nat
    }
}

/// Removing one node from one bucket's list keeps every membership
/// invariant, and keeps every other unsettled reached node housed.
proof fn lemma_members_after_remove(
    g: Graph,
    dist: Seq<Option<usize>>,
    ss: Set<int>,
    bs_old: Seq<RadixBucket>,
    bs_new: Seq<RadixBucket>,
    jx: int,
    x: usize,
)
    requires
        0 <= jx < bs_old.len(),
        bs_new.len() == bs_old.len(),
        forall|j: int| 0 <= j < bs_old.len() && j != jx ==> #[trigger] bs_new[j] == bs_old[j],
        bs_new[jx].range_a == bs_old[jx].range_a,
        bs_new[jx].range_b == bs_old[jx].range_b,
        forall|y: usize|
            #[trigger] bs_new[jx].v_list@.contains(y) <==> (bs_old[jx].v_list@.contains(y) && y
                != x),
        forall|k1: int, k2: int|
            #![trigger bs_new[jx].v_list@[k1], bs_new[jx].v_list@[k2]]
            0 <= k1 < k2 < bs_new[jx].v_list@.len() ==> bs_new[jx].v_list@[k1]
                != bs_new[jx].v_list@[k2],
        members_ok(g, dist, ss, bs_old),
        members_complete(g, dist, ss, bs_old),
        buckets_nodup(bs_old),
        g.nodes() <= usize::MAX as int,
    ensures
        members_ok(g, dist, ss, bs_new),
        buckets_nodup(bs_new),
        forall|v: int|
            0 <= v < g.nodes() && !ss.contains(v) && #[trigger] reached(dist, v) && v != x as int
                ==> exists|j: int|
                0 <= j < bs_new.len() && (#[trigger] bs_new[j]).v_list@.contains(v as usize),
{
    assert forall|j: int, k: int|
        0 <= j < bs_new.len() && 0 <= k < bs_new[j].v_list@.len() implies {
        let u = (#[trigger] bs_new[j].v_list@[k]) as int;
        &&& u < g.nodes()
        &&& !ss.contains(u)
        &&& reached(dist, u)
        &&& in_range(bs_new[j], dist_at(dist, u))
    } by {
        if j == jx {
            let y = bs_new[jx].v_list@[k];
            assert(bs_new[jx].v_list@.contains(y));
            assert(bs_old[jx].v_list@.contains(y));
            let k2 = choose|k2: int|
                0 <= k2 < bs_old[jx].v_list@.len() && bs_old[jx].v_list@[k2] == y;
            assert(bs_old[jx].v_list@[k2] == y);
        } else {
            assert(bs_new[j].v_list@[k] == bs_old[j].v_list@[k]);
        }
    }
    assert forall|j: int, k1: int, k2: int|
        0 <= j < bs_new.len() && 0 <= k1 < k2 < bs_new[j].v_list@.len() implies (
    #[trigger] bs_new[j].v_list@[k1]) != (#[trigger] bs_new[j].v_list@[k2]) by {
        if j != jx {
            assert(bs_new[j].v_list@[k1] == bs_old[j].v_list@[k1]);
            assert(bs_new[j].v_list@[k2] == bs_old[j].v_list@[k2]);
        }
    }
    assert forall|v: int|
        0 <= v < g.nodes() && !ss.contains(v) && #[trigger] reached(dist, v) && v != x as int
        implies exists|j: int|
            0 <= j < bs_new.len() && (#[trigger] bs_new[j]).v_list@.contains(v as usize) by {
        let j = choose|j: int|
            0 <= j < bs_old.len() && (#[trigger] bs_old[j]).v_list@.contains(v as usize);
        if j == jx {
            assert(bs_new[jx].v_list@.contains(v as usize));
        } else {
            assert(bs_new[j].v_list@.contains(v as usize));
        }
    }
}

/// Appending a homeless node to a bucket whose range holds its distance
/// keeps every membership invariant and houses the node.
proof fn lemma_members_after_push(
    g: Graph,
    dist: Seq<Option<usize>>,
    ss: Set<int>,
    bs_old: Seq<RadixBucket>,
    bs_new: Seq<RadixBucket>,
    jx: int,
    x: usize,
)
    requires
        0 <= jx < bs_old.len(),
        bs_new.len() == bs_old.len(),
        forall|j: int| 0 <= j < bs_old.len() && j != jx ==> #[trigger] bs_new[j] == bs_old[j],
        bs_new[jx].range_a == bs_old[jx].range_a,
        bs_new[jx].range_b == bs_old[jx].range_b,
        bs_new[jx].v_list@ == bs_old[jx].v_list@.push(x),
        forall|j: int| 0 <= j < bs_old.len() ==> !(#[trigger] bs_old[j]).v_list@.contains(x),
        (x as int) < g.nodes(),
        !ss.contains(x as int),
        reached(dist, x as int),
        in_range(bs_old[jx], dist_at(dist, x as int)),
        members_ok(g, dist, ss, bs_old),
        buckets_nodup(bs_old),
    ensures
        members_ok(g, dist, ss, bs_new),
        buckets_nodup(bs_new),
        bs_new[jx].v_list@.contains(x),
        forall|v: usize, j: int|
            0 <= j < bs_old.len() && #[trigger] bs_old[j].v_list@.contains(v)
                ==> bs_new[j].v_list@.contains(v),
{
    assert(bs_new[jx].v_list@[bs_new[jx].v_list@.len() - 1] == x);
    assert forall|j: int, k: int|
        0 <= j < bs_new.len() && 0 <= k < bs_new[j].v_list@.len() implies {
        let u = (#[trigger] bs_new[j].v_list@[k]) as int;
        &&& u < g.nodes()
        &&& !ss.contains(u)
        &&& reached(dist, u)
        &&& in_range(bs_new[j], dist_at(dist, u))
    } by {
        if j == jx {
            if k < bs_old[jx].v_list@.len() {
                assert(bs_new[jx].v_list@[k] == bs_old[jx].v_list@[k]);
            } else {
                assert(bs_new[jx].v_list@[k] == x);
            }
        } else {
            assert(bs_new[j].v_list@[k] == bs_old[j].v_list@[k]);
        }
    }
    assert forall|j: int, k1: int, k2: int|
        0 <= j < bs_new.len() && 0 <= k1 < k2 < bs_new[j].v_list@.len() implies (
    #[trigger] bs_new[j].v_list@[k1]) != (#[trigger] bs_new[j].v_list@[k2]) by {
        if j == jx {
            if k2 < bs_old[jx].v_list@.len() {
                assert(bs_new[jx].v_list@[k1] == bs_old[jx].v_list@[k1]);
                assert(bs_new[jx].v_list@[k2] == bs_old[jx].v_list@[k2]);
            } else {
                assert(bs_new[jx].v_list@[k2] == x);
                assert(bs_new[jx].v_list@[k1] == bs_old[jx].v_list@[k1]);
                assert(bs_old[jx].v_list@.contains(bs_old[jx].v_list@[k1]));
            }
        } else {
            assert(bs_new[j].v_list@[k1] == bs_old[j].v_list@[k1]);
            assert(bs_new[j].v_list@[k2] == bs_old[j].v_list@[k2]);
        }
    }
    assert forall|v: usize, j: int|
        0 <= j < bs_old.len() && #[trigger] bs_old[j].v_list@.contains(v)
        implies bs_new[j].v_list@.contains(v) by {
        let k = choose|k: int| 0 <= k < bs_old[j].v_list@.len() && bs_old[j].v_list@[k] == v;
        assert(bs_new[j].v_list@[k] == v);
    }
}

impl Graph {
    /// The number of buckets: the smallest count whose top range, a
    /// doubling past its base, reaches beyond the distance budget `m`;
    /// never fewer than two.
    fn bucket_count(&self, m: usize) -> (kk: usize)
        requires
            m < usize::MAX,
        ensures
            sizing_ok(kk as int, m as int),
    {
        let mut kk: usize = 1;
        let mut p: usize = 1;
        let ghost mut pexp: nat = 0;
        proof {
            vstd::arithmetic::power2::lemma2_to64();
        }
        while p <= m && p <= usize::MAX / 2
            invariant
                kk >= 1,
                p >= 1,
                p >= kk,
                pexp == (kk - 1) as nat,
                p as int == pow2(pexp) as int,
            decreases (if p <= m { m as int + 1 - p as int } else { 0int }),
        {
            proof {
                lemma_pow2_adds(pexp, 1);
                vstd::arithmetic::power2::lemma2_to64();
                pexp = pexp + 1;
            }
            p = p * 2;
            kk = kk + 1;
        }
        if p <= m {
            // Doubling once more overflows the word, so it certainly
            // exceeds the budget.
            proof {
                lemma_pow2_adds(pexp, 1);
                vstd::arithmetic::power2::lemma2_to64();
                pexp = pexp + 1;
                assert(2 * (usize::MAX as int / 2) + 2 > usize::MAX as int);
            }
            kk = kk + 1;
            proof {
                assert(pow2(pexp) as int == 2 * p as int);
                assert(pow2(pexp) as int > m as int);
            }
        }
        if kk < 2 {
            kk = 2;
            proof {
                vstd::arithmetic::power2::lemma2_to64();
            }
        }
        kk
    }

    /// The extraction-time surgery: re-tiles the ranges of the buckets
    /// below `j0` relative to the new watermark `dstar`, redistributes
    /// the members remaining in bucket `j0` into those tiles, and leaves
    /// bucket `j0` with whatever tail of its old range the tiles did not
    /// absorb.
    #[verifier::rlimit(100)]
    fn radix_surgery(
        &self,
        buckets: &mut Vec<RadixBucket>,
        dist: &Vec<Option<usize>>,
        j0: usize,
        dstar: usize,
        ss2: Ghost<Set<int>>,
        m: Ghost<int>,
    )
        requires
            self.wf(),
            self.nodes() <= usize::MAX as int,
            dist@.len() == self.nodes(),
            m@ >= 0,
            forall|v: int|
                0 <= v < self.nodes() && #[trigger] reached(dist@, v) ==> dist_at(dist@, v) <= m@,
            radix_inv(*self, dist@, ss2@, old(buckets)@, m@),
            1 <= j0,
            (j0 as int) < old(buckets)@.len(),
            forall|j: int|
                0 <= j < j0 as int ==> (#[trigger] old(buckets)@[j]).v_list@.len() == 0,
            forall|k: int|
                0 <= k < old(buckets)@[j0 as int].v_list@.len() ==> dstar as int <= dist_at(
                    dist@,
                    (#[trigger] old(buckets)@[j0 as int].v_list@[k]) as int,
                ),
            in_range(old(buckets)@[j0 as int], dstar as int),
        ensures
            final(buckets)@.len() == old(buckets)@.len(),
            radix_inv(*self, dist@, ss2@, final(buckets)@, m@),
            final(buckets)@[0].range_a == dstar,
            final(buckets)@[0].range_b == dstar,
    {
        let ghost bse = buckets@;
        let ghost kkl = buckets@.len() as int;
        let xhi = buckets[j0].range_b;
        proof {
            assert(rb_proper(bse[j0 as int]));
            vstd::arithmetic::power2::lemma2_to64();
            // The fit bound: everything in bucket `j0` that matters lies
            // below `dstar + pow2(j0 - 1)`.
            assert((if xhi as int <= m@ { xhi as int } else { m@ }) < bse[j0 as int].range_a as int
                + pow2((j0 - 1) as nat) as int);
            assert((if xhi as int <= m@ { xhi as int } else { m@ }) < dstar as int + pow2(
                (j0 - 1) as nat,
            ) as int);
        }
        let mut cursor: usize = dstar;
        let mut width: usize = 1;
        let mut done: bool = false;
        let mut i: usize = 0;
        while i < j0
            invariant
                self.wf(),
                self.nodes() <= usize::MAX as int,
                dist@.len() == self.nodes(),
                m@ >= 0,
                sizing_ok(kkl, m@),
                buckets@.len() == kkl,
                1 <= j0,
                (j0 as int) < kkl,
                i <= j0,
                dstar <= xhi,
                xhi == bse[j0 as int].range_b,
                forall|j: int| i as int <= j < kkl ==> #[trigger] buckets@[j] == bse[j],
                forall|j: int| 0 <= j < i as int ==> (#[trigger] buckets@[j]).v_list@.len() == 0,
                forall|j: int|
                    0 <= j < i as int && rb_proper(#[trigger] buckets@[j]) ==> dstar as int
                        <= buckets@[j].range_a as int && buckets@[j].range_b as int <= xhi as int,
                i >= 1 ==> buckets@[0].range_a == dstar && buckets@[0].range_b == dstar,
                forall|j1: int, j2: int|
                    #![trigger buckets@[j1], buckets@[j2]]
                    0 <= j1 < j2 < i as int && rb_proper(buckets@[j1]) && rb_proper(buckets@[j2])
                        ==> (buckets@[j1].range_b as int) < buckets@[j2].range_a as int,
                forall|j: int|
                    1 <= j < i as int && rb_proper(#[trigger] buckets@[j]) ==> buckets@[j].range_b
                        as int <= buckets@[j].range_a as int + pow2((j - 1) as nat) - 1,
                forall|c: int|
                    dstar as int <= c <= (if done {
                        xhi as int
                    } else {
                        cursor as int - 1
                    }) ==> #[trigger] covered_below(buckets@, i as int, c),
                !done ==> cursor as int == dstar as int + presum(i as int) && cursor <= xhi,
                !done ==> (forall|j: int|
                    0 <= j < i as int && rb_proper(#[trigger] buckets@[j]) ==> (buckets@[j].range_b
                        as int) < cursor as int),
                width as int == pow2(wexp(i as int)) as int,
                done ==> i >= 1,
            decreases j0 - i,
        {
            let ghost bs_pre = buckets@;
            proof {
                lemma_pow2_pos(wexp(i as int));
                vstd::arithmetic::power2::lemma2_to64();
            }
            if done {
                buckets[i] = RadixBucket { v_list: Vec::new(), range_a: 1, range_b: 0 };
            } else {
                let lo2 = cursor;
                let room = xhi - cursor;
                let hi2 = if room < width - 1 {
                    xhi
                } else {
                    cursor + (width - 1)
                };
                buckets[i] = RadixBucket { v_list: Vec::new(), range_a: lo2, range_b: hi2 };
                if hi2 == xhi {
                    done = true;
                } else {
                    cursor = hi2 + 1;
                    proof {
                        // The tile consumed exactly its doubling width.
                        assert(hi2 as int == lo2 as int + width as int - 1);
                        if i as int == 0 {
                            assert(presum(1) == 1);
                        } else {
                            lemma_pow2_adds((i - 1) as nat, 1);
                            assert(presum(i as int + 1) == presum(i as int) + pow2(
                                wexp(i as int),
                            ));
                        }
                    }
                }
            }
            proof {
                assert forall|c: int|
                    dstar as int <= c <= (if done {
                        xhi as int
                    } else {
                        cursor as int - 1
                    }) implies #[trigger] covered_below(buckets@, i as int + 1, c) by {
                    if rb_proper(buckets@[i as int]) && in_range(buckets@[i as int], c) {
                        assert(covered_below(buckets@, i as int + 1, c));
                    } else {
                        assert(covered_below(bs_pre, i as int, c));
                        let j = choose|j: int|
                            0 <= j < i as int && rb_proper(#[trigger] bs_pre[j]) && in_range(
                                bs_pre[j],
                                c,
                            );
                        assert(buckets@[j] == bs_pre[j]);
                    }
                }
            }
            if i >= 1 {
                proof {
                    vstd::arithmetic::power2::lemma2_to64();
                    assert(width as int == pow2((i - 1) as nat) as int);
                    lemma_pow2_adds((i - 1) as nat, 1);
                    if (i as int) < kkl - 2 {
                        lemma_pow2_strictly_increases(i as nat, (kkl - 2) as nat);
                    }
                    lemma_pow2_adds((kkl - 2) as nat, 1);
                    assert(pow2((kkl - 1) as nat) == 2 * pow2((kkl - 2) as nat));
                }
                width = width * 2;
            }
            i += 1;
        }
        // Drain the extracted bucket into the fresh tiles below it.
        let ghost bsa = buckets@;
        proof {
            assert forall|j: int, k: int|
                0 <= j < buckets@.len() && 0 <= k < buckets@[j].v_list@.len() implies {
                let u = (#[trigger] buckets@[j].v_list@[k]) as int;
                &&& u < self.nodes()
                &&& !ss2@.contains(u)
                &&& reached(dist@, u)
                &&& in_range(buckets@[j], dist_at(dist@, u))
            } by {
                assert(j >= j0 as int);
                assert(buckets@[j] == bse[j]);
                assert(bse[j].v_list@[k] == buckets@[j].v_list@[k]);
            }
            assert forall|v: int|
                0 <= v < self.nodes() && !ss2@.contains(v) && #[trigger] reached(dist@, v)
                implies exists|j: int|
                    0 <= j < buckets@.len() && (#[trigger] buckets@[j]).v_list@.contains(v as usize)
                by {
                let j = choose|j: int|
                    0 <= j < bse.len() && (#[trigger] bse[j]).v_list@.contains(v as usize);
                assert(j >= j0 as int) by {
                    if j < j0 as int {
                        assert(bse[j].v_list@.len() == 0);
                    }
                }
                assert(buckets@[j] == bse[j]);
                assert(buckets@[j].v_list@.contains(v as usize));
            }
            assert forall|j: int, k1: int, k2: int|
                0 <= j < buckets@.len() && 0 <= k1 < k2 < buckets@[j].v_list@.len() implies (
            #[trigger] buckets@[j].v_list@[k1]) != (#[trigger] buckets@[j].v_list@[k2]) by {
                assert(j >= j0 as int);
                assert(buckets@[j] == bse[j]);
                assert(bse[j].v_list@[k1] == buckets@[j].v_list@[k1]);
                assert(bse[j].v_list@[k2] == buckets@[j].v_list@[k2]);
            }
            assert forall|j: int|
                0 <= j < buckets@.len() && !rb_proper(#[trigger] buckets@[j])
                implies buckets@[j].v_list@.len() == 0 by {
                if j >= j0 as int {
                    assert(buckets@[j] == bse[j]);
                    assert(!rb_proper(bse[j]));
                }
            }
            assert forall|k: int, j: int|
                #![trigger buckets@[j].v_list@.contains(buckets@[j0 as int].v_list@[k])]
                0 <= k < buckets@[j0 as int].v_list@.len() && 0 <= j < buckets@.len() && j != j0
                    as int implies !buckets@[j].v_list@.contains(buckets@[j0 as int].v_list@[k])
                by {
                let w2 = buckets@[j0 as int].v_list@[k];
                if buckets@[j].v_list@.contains(w2) {
                    if j < j0 as int {
                        let k3 = choose|k3: int|
                            0 <= k3 < buckets@[j].v_list@.len() && buckets@[j].v_list@[k3] == w2;
                        assert(false);
                    } else {
                        assert(buckets@[j] == bse[j]);
                        assert(buckets@[j0 as int] == bse[j0 as int]);
                        assert(bse[j0 as int].v_list@[k] == w2);
                        assert(bse[j0 as int].v_list@.contains(w2));
                        lemma_member_bucket_unique(
                            *self,
                            dist@,
                            ss2@,
                            bse,
                            j,
                            j0 as int,
                            w2,
                        );
                    }
                }
            }
        }
        while buckets[j0].v_list.len() > 0
            invariant
                self.wf(),
                self.nodes() <= usize::MAX as int,
                dist@.len() == self.nodes(),
                m@ >= 0,
                sizing_ok(kkl, m@),
                buckets@.len() == kkl,
                1 <= j0,
                (j0 as int) < kkl,
                dstar <= xhi,
                forall|v: int|
                    0 <= v < self.nodes() && #[trigger] reached(dist@, v) ==> dist_at(dist@, v)
                        <= m@,
                !done ==> cursor as int == dstar as int + presum(j0 as int),
                (if xhi as int <= m@ {
                    xhi as int
                } else {
                    m@
                }) < dstar as int + pow2((j0 - 1) as nat) as int,
                forall|c: int|
                    dstar as int <= c <= (if done {
                        xhi as int
                    } else {
                        cursor as int - 1
                    }) ==> #[trigger] covered_below(bsa, j0 as int, c),
                forall|j: int|
                    0 <= j < kkl ==> (#[trigger] buckets@[j]).range_a == bsa[j].range_a
                        && buckets@[j].range_b == bsa[j].range_b,
                forall|j: int| (j0 as int) < j < kkl ==> #[trigger] buckets@[j] == bsa[j],
                buckets@[j0 as int].range_b == xhi,
                members_ok(*self, dist@, ss2@, buckets@),
                members_complete(*self, dist@, ss2@, buckets@),
                buckets_nodup(buckets@),
                sentinels_empty(buckets@),
                forall|k: int|
                    0 <= k < buckets@[j0 as int].v_list@.len() ==> dstar as int <= dist_at(
                        dist@,
                        (#[trigger] buckets@[j0 as int].v_list@[k]) as int,
                    ),
                forall|k: int, j: int|
                    #![trigger buckets@[j].v_list@.contains(buckets@[j0 as int].v_list@[k])]
                    0 <= k < buckets@[j0 as int].v_list@.len() && 0 <= j < kkl && j != j0 as int
                        ==> !buckets@[j].v_list@.contains(buckets@[j0 as int].v_list@[k]),
            decreases buckets@[j0 as int].v_list@.len(),
        {
            let lastk = buckets[j0].v_list.len() - 1;
            let u = buckets[j0].v_list[lastk];
            let ghost bs_b0 = buckets@;
            proof {
                assert(bs_b0[j0 as int].v_list@[lastk as int] == u);
                assert((u as int) < self.nodes());
                assert(reached(dist@, u as int));
            }
            let du = dist[u].unwrap();
            proof {
                assert(dist_at(dist@, u as int) == du as int);
                assert(dstar as int <= du as int);
                assert(du as int <= xhi as int);
                assert(du as int <= m@);
                // A pending member always lands in a tile: the tiles
                // cover everything up to the fit bound.
                assert(du as int <= (if done {
                    xhi as int
                } else {
                    cursor as int - 1
                })) by {
                    if !done {
                        assert(cursor as int == dstar as int + presum(j0 as int));
                        assert((if xhi as int <= m@ { xhi as int } else { m@ }) < dstar as int
                            + pow2((j0 - 1) as nat) as int);
                    }
                }
                assert(covered_below(bsa, j0 as int, du as int));
                let jw = choose|jw: int|
                    0 <= jw < j0 as int && rb_proper(#[trigger] bsa[jw]) && in_range(
                        bsa[jw],
                        du as int,
                    );
                assert(rb_proper(buckets@[jw]) && in_range(buckets@[jw], du as int));
                assert(covered(buckets@, du as int));
                assert(bs_b0[j0 as int].v_list@.contains(u));
                assert forall|k1: int, k2: int|
                    0 <= k1 < k2 < bs_b0[j0 as int].v_list@.len() implies bs_b0[j0
                    as int].v_list@[k1] != bs_b0[j0 as int].v_list@[k2] by {
                    assert(bs_b0[j0 as int].v_list@[k1] == bs_b0[j0 as int].v_list@[k1]);
                    assert(bs_b0[j0 as int].v_list@[k2] == bs_b0[j0 as int].v_list@[k2]);
                }
            }
            remove_node(&mut buckets[j0].v_list, u);
            proof {
                lemma_members_after_remove(
                    *self,
                    dist@,
                    ss2@,
                    bs_b0,
                    buckets@,
                    j0 as int,
                    u,
                );
            }
            let bj = find_bucket(&buckets, du);
            let ghost bs_b1 = buckets@;
            proof {
                // The found bucket sits below `j0`: an earlier tile holds
                // the distance, and the scan stops at the first match.
                assert((bj as int) < j0 as int) by {
                    let jw = choose|jw: int|
                        0 <= jw < j0 as int && rb_proper(#[trigger] bsa[jw]) && in_range(
                            bsa[jw],
                            du as int,
                        );
                    assert(rb_proper(bs_b1[jw]) && in_range(bs_b1[jw], du as int));
                    if bj as int > jw {
                        assert(!(rb_proper(bs_b1[jw]) && in_range(bs_b1[jw], du as int)));
                    }
                }
                // The drained member is housed nowhere, so the push is
                // duplicate-free.
                assert forall|j: int|
                    0 <= j < kkl implies !(#[trigger] buckets@[j]).v_list@.contains(u) by {
                    if j == j0 as int {
                        assert(!buckets@[j0 as int].v_list@.contains(u));
                    } else {
                        if buckets@[j].v_list@.contains(u) {
                            assert(bs_b0[j].v_list@.contains(u));
                            assert(bs_b0[j0 as int].v_list@[lastk as int] == u);
                        }
                    }
                }
                assert(in_range(buckets@[bj as int], dist_at(dist@, u as int)));
                assert(!ss2@.contains(u as int));
            }
            buckets[bj].v_list.push(u);
            proof {
                assert(buckets@[bj as int].v_list@ == bs_b1[bj as int].v_list@.push(u));
                lemma_members_after_push(
                    *self,
                    dist@,
                    ss2@,
                    bs_b1,
                    buckets@,
                    bj as int,
                    u,
                );
                assert forall|v: int|
                    0 <= v < self.nodes() && !ss2@.contains(v) && #[trigger] reached(dist@, v)
                    implies exists|j: int|
                        0 <= j < buckets@.len() && (#[trigger] buckets@[j]).v_list@.contains(
                        v as usize) by {
                    if v == u as int {
                        assert(buckets@[bj as int].v_list@.contains(u));
                    } else {
                        let j = choose|j: int|
                            0 <= j < bs_b1.len() && (#[trigger] bs_b1[j]).v_list@.contains(
                            v as usize);
                        assert(buckets@[j].v_list@.contains(v as usize));
                    }
                }
                assert(sentinels_empty(buckets@)) by {
                    assert forall|j: int|
                        0 <= j < buckets@.len() && !rb_proper(#[trigger] buckets@[j])
                        implies buckets@[j].v_list@.len() == 0 by {
                        if j == bj as int {
                            assert(rb_proper(buckets@[bj as int]));
                        } else if j != j0 as int {
                            assert(buckets@[j].v_list@ == bs_b0[j].v_list@);
                        }
                    }
                }
                // The remaining pending members are still housed nowhere
                // else: the push added a node that left the pending list.
                assert forall|k: int, j: int|
                    #![trigger buckets@[j].v_list@.contains(buckets@[j0 as int].v_list@[k])]
                    0 <= k < buckets@[j0 as int].v_list@.len() && 0 <= j < kkl && j != j0 as int
                    implies !buckets@[j].v_list@.contains(buckets@[j0 as int].v_list@[k]) by {
                    let w2 = buckets@[j0 as int].v_list@[k];
                    assert(buckets@[j0 as int].v_list@.contains(w2));
                    assert(bs_b0[j0 as int].v_list@.contains(w2) && w2 != u);
                    let k2 = choose|k2: int|
                        0 <= k2 < bs_b0[j0 as int].v_list@.len() && bs_b0[j0 as int].v_list@[k2]
                        == w2;
                    if j == bj as int {
                        if buckets@[j].v_list@.contains(w2) {
                            let k3 = choose|k3: int|
                                0 <= k3 < buckets@[j].v_list@.len() && buckets@[j].v_list@[k3]
                                == w2;
                            if k3 < bs_b1[j].v_list@.len() {
                                assert(bs_b1[j].v_list@[k3] == w2);
                                assert(bs_b0[j].v_list@.contains(w2));
                            } else {
                                assert(buckets@[j].v_list@[k3] == u);
                            }
                        }
                    } else {
                        if buckets@[j].v_list@.contains(w2) {
                            assert(bs_b0[j].v_list@.contains(w2));
                        }
                    }
                }
            }
        }
        // The tiles absorbed everything at or below the fit bound; the
        // extracted bucket keeps the tail of its old range, or nothing.
        let ghost bsb = buckets@;
        if done {
            buckets[j0] = RadixBucket { v_list: Vec::new(), range_a: 1, range_b: 0 };
        } else {
            buckets[j0] = RadixBucket { v_list: Vec::new(), range_a: cursor, range_b: xhi };
        }
        proof {
            let bs = buckets@;
            assert(bs[0].range_a == dstar && bs[0].range_b == dstar);
            assert(rb_proper(bs[0]));
            // Order: tiles in order, then the tail, then the untouched
            // buckets above.
            assert forall|j1: int, j2: int|
                #![trigger bs[j1], bs[j2]]
                0 <= j1 < j2 < bs.len() && rb_proper(bs[j1]) && rb_proper(bs[j2]) implies (
            bs[j1].range_b as int) < bs[j2].range_a as int by {
                if j1 < j0 as int && j2 < j0 as int {
                    assert(rb_proper(bsa[j1]) && rb_proper(bsa[j2]));
                } else if j1 < j0 as int && j2 == j0 as int {
                    assert(!done);
                    assert((bsa[j1].range_b as int) < cursor as int);
                } else if j1 < j0 as int && j2 > j0 as int {
                    assert(bs[j2] == bse[j2]);
                    assert(rb_proper(bse[j0 as int]));
                    assert((bse[j0 as int].range_b as int) < bse[j2].range_a as int);
                    assert(bs[j1].range_b as int <= xhi as int);
                } else if j1 == j0 as int {
                    assert(j2 > j0 as int);
                    assert(bs[j2] == bse[j2]);
                    assert(rb_proper(bse[j0 as int]));
                    assert((bse[j0 as int].range_b as int) < bse[j2].range_a as int);
                } else {
                    assert(bs[j1] == bse[j1]);
                    assert(bs[j2] == bse[j2]);
                }
            }
            // Coverage: tiles, then the tail, then the old high buckets.
            assert forall|c: int|
                bs[0].range_a as int <= c <= usize::MAX as int implies #[trigger] covered(
                bs,
                c,
            ) by {
                if c <= (if done {
                    xhi as int
                } else {
                    cursor as int - 1
                }) {
                    assert(covered_below(bsa, j0 as int, c));
                    let j = choose|j: int|
                        0 <= j < j0 as int && rb_proper(#[trigger] bsa[j]) && in_range(bsa[j], c);
                    assert(rb_proper(bs[j]) && in_range(bs[j], c));
                } else if c <= xhi as int {
                    assert(!done);
                    assert(rb_proper(bs[j0 as int]) && in_range(bs[j0 as int], c));
                } else {
                    assert(rb_proper(bse[0]));
                    assert(rb_proper(bse[j0 as int]));
                    assert((bse[0].range_b as int) < bse[j0 as int].range_a as int);
                    assert(bse[0].range_a as int <= c <= usize::MAX as int);
                    assert(covered(bse, c));
                    let j = choose|j: int|
                        0 <= j < bse.len() && rb_proper(#[trigger] bse[j]) && in_range(bse[j], c);
                    assert(j > j0 as int) by {
                        if j < j0 as int {
                            assert((bse[j].range_b as int) < bse[j0 as int].range_a as int);
                        }
                    }
                    assert(bs[j] == bse[j]);
                    assert(rb_proper(bs[j]) && in_range(bs[j], c));
                }
            }
            // Widths: fresh tiles by construction, the tail past the fit
            // bound, the high buckets untouched.
            assert forall|j: int|
                1 <= j < bs.len() && rb_proper(#[trigger] bs[j]) implies (if bs[j].range_b as int
                <= m@ {
                bs[j].range_b as int
            } else {
                m@
            }) < bs[j].range_a as int + pow2((j - 1) as nat) as int by {
                lemma_pow2_pos((j - 1) as nat);
                if j < j0 as int {
                    assert(rb_proper(bsa[j]));
                    assert(bsa[j].range_b as int <= bsa[j].range_a as int + pow2((j - 1) as nat)
                        - 1);
                } else if j == j0 as int {
                    assert(!done);
                    assert(cursor as int == dstar as int + presum(j0 as int));
                    assert((if xhi as int <= m@ { xhi as int } else { m@ }) < cursor as int);
                } else {
                    assert(bs[j] == bse[j]);
                }
            }
            assert(members_ok(*self, dist@, ss2@, bs)) by {
                assert forall|j: int, k: int|
                    0 <= j < bs.len() && 0 <= k < bs[j].v_list@.len() implies {
                    let u = (#[trigger] bs[j].v_list@[k]) as int;
                    &&& u < self.nodes()
                    &&& !ss2@.contains(u)
                    &&& reached(dist@, u)
                    &&& in_range(bs[j], dist_at(dist@, u))
                } by {
                    if j != j0 as int {
                        assert(bs[j] == bsb[j]);
                        assert(bsb[j].v_list@[k] == bs[j].v_list@[k]);
                    }
                }
            }
            assert(members_complete(*self, dist@, ss2@, bs)) by {
                assert forall|v: int|
                    0 <= v < self.nodes() && !ss2@.contains(v) && #[trigger] reached(dist@, v)
                    implies exists|j: int|
                        0 <= j < bs.len() && (#[trigger] bs[j]).v_list@.contains(v as usize) by {
                    let j = choose|j: int|
                        0 <= j < bsb.len() && (#[trigger] bsb[j]).v_list@.contains(v as usize);
                    assert(j != j0 as int) by {
                        if j == j0 as int {
                            assert(bsb[j0 as int].v_list@.len() == 0);
                        }
                    }
                    assert(bs[j] == bsb[j]);
                    assert(bs[j].v_list@.contains(v as usize));
                }
            }
            assert(buckets_nodup(bs)) by {
                assert forall|j: int, k1: int, k2: int|
                    0 <= j < bs.len() && 0 <= k1 < k2 < bs[j].v_list@.len() implies (
                #[trigger] bs[j].v_list@[k1]) != (#[trigger] bs[j].v_list@[k2]) by {
                    if j != j0 as int {
                        assert(bs[j] == bsb[j]);
                        assert(bsb[j].v_list@[k1] == bs[j].v_list@[k1]);
                        assert(bsb[j].v_list@[k2] == bs[j].v_list@[k2]);
                    }
                }
            }
            assert(sentinels_empty(bs)) by {
                assert forall|j: int|
                    0 <= j < bs.len() && !rb_proper(#[trigger] bs[j])
                    implies bs[j].v_list@.len() == 0 by {
                    if j != j0 as int {
                        assert(bs[j] == bsb[j]);
                    }
                }
            }
        }
    }

    /// Single-source radix heap: the exact shortest-distance table from
    /// the 1-indexed source, or `ArithmeticOverflow` exactly when the
    /// distance budget `nodes * max_w` does not fit the machine word.
    #[verifier::rlimit(100)]
    pub fn radix_ss(&self, src: usize) -> (r: Result<Vec<Option<usize>>, GraphError>)
        requires
            self.wf(),
            1 <= src && src as int <= self.nodes(),
        ensures
            ss_post(*self, src as int - 1, r),
    {
        let (n, m) = match self.distance_budget() {
            Some(pair) => pair,
            None => {
                return Err(GraphError::ArithmeticOverflow);
            },
        };
        let mw = self.max_weight();
        let s0 = src - 1;
        let mut dist = self.fresh_table(s0);
        proof {
            lemma_reaches_self(*self, s0 as int);
        }
        let kk = self.bucket_count(m);
        let mut buckets: Vec<RadixBucket> = Vec::new();
        buckets.push(RadixBucket { v_list: Vec::new(), range_a: 0, range_b: 0 });
        let mut lo: usize = 1;
        let mut bi: usize = 1;
        let ghost mut lexp: nat = 0;
        proof {
            vstd::arithmetic::power2::lemma2_to64();
            assert forall|c: int| 0 <= c < lo as int implies #[trigger] covered_below(
                buckets@,
                bi as int,
                c,
            ) by {
                assert(rb_proper(buckets@[0]) && in_range(buckets@[0], c));
            }
        }
        while bi < kk
            invariant
                sizing_ok(kk as int, m as int),
                1 <= bi <= kk,
                buckets@.len() == bi as int,
                bi < kk ==> lexp == (bi - 1) as nat && lo as int == pow2(lexp) as int,
                forall|j: int| 0 <= j < bi as int ==> (#[trigger] buckets@[j]).v_list@.len() == 0,
                buckets@[0].range_a == 0 && buckets@[0].range_b == 0,
                forall|j: int| 0 <= j < bi as int ==> rb_proper(#[trigger] buckets@[j]),
                forall|j: int|
                    0 <= j < bi as int && j < kk as int - 1 ==> ((#[trigger] buckets@[j]).range_b
                        as int) < lo as int,
                forall|j1: int, j2: int|
                    #![trigger buckets@[j1], buckets@[j2]]
                    0 <= j1 < j2 < bi as int ==> (buckets@[j1].range_b as int)
                        < buckets@[j2].range_a as int,
                forall|c: int| 0 <= c < lo as int ==> #[trigger] covered_below(buckets@, bi as int, c),
                forall|j: int|
                    1 <= j < bi as int && j < kk as int - 1 ==> ((#[trigger] buckets@[j]).range_b
                        as int) <= buckets@[j].range_a as int + pow2((j - 1) as nat) - 1,
                bi as int == kk as int ==> buckets@[kk - 1].range_b == usize::MAX
                    && buckets@[kk - 1].range_a as int == pow2((kk - 2) as nat) as int
                    && lo as int == pow2((kk - 2) as nat) as int,
            decreases kk - bi,
        {
            let ghost bs_pre = buckets@;
            if bi == kk - 1 {
                buckets.push(RadixBucket { v_list: Vec::new(), range_a: lo, range_b: usize::MAX });
                proof {
                    assert forall|c: int| 0 <= c < lo as int implies #[trigger] covered_below(
                        buckets@,
                        bi as int + 1,
                        c,
                    ) by {
                        assert(covered_below(bs_pre, bi as int, c));
                        let j = choose|j: int|
                            0 <= j < bi as int && rb_proper(#[trigger] bs_pre[j]) && in_range(
                                bs_pre[j],
                                c,
                            );
                        assert(buckets@[j] == bs_pre[j]);
                    }
                }
            } else {
                proof {
                    vstd::arithmetic::power2::lemma2_to64();
                    lemma_pow2_adds(lexp, 1);
                    if (bi as int) < kk as int - 2 {
                        lemma_pow2_strictly_increases(bi as nat, (kk - 2) as nat);
                    }
                    lemma_pow2_adds((kk - 2) as nat, 1);
                    assert(pow2((kk - 1) as nat) == 2 * pow2((kk - 2) as nat));
                    assert(2 * lo as int <= pow2((kk - 2) as nat));
                    assert(pow2((kk - 2) as nat) as int <= usize::MAX as int);
                }
                let hi2 = lo + (lo - 1);
                buckets.push(RadixBucket { v_list: Vec::new(), range_a: lo, range_b: hi2 });
                proof {
                    assert forall|c: int| 0 <= c < hi2 as int + 1 implies #[trigger] covered_below(
                        buckets@,
                        bi as int + 1,
                        c,
                    ) by {
                        if c < lo as int {
                            assert(covered_below(bs_pre, bi as int, c));
                            let j = choose|j: int|
                                0 <= j < bi as int && rb_proper(#[trigger] bs_pre[j]) && in_range(
                                    bs_pre[j],
                                    c,
                                );
                            assert(buckets@[j] == bs_pre[j]);
                        } else {
                            assert(rb_proper(buckets@[bi as int]) && in_range(
                                buckets@[bi as int],
                                c,
                            ));
                        }
                    }
                    lexp = lexp + 1;
                }
                lo = hi2 + 1;
            }
            bi += 1;
        }
        let ghost bs_cons = buckets@;
        proof {
            assert forall|c: int|
                bs_cons[0].range_a as int <= c <= usize::MAX as int implies #[trigger] covered(
                bs_cons,
                c,
            ) by {
                if c < lo as int {
                    assert(covered_below(bs_cons, kk as int, c));
                    let j = choose|j: int|
                        0 <= j < kk as int && rb_proper(#[trigger] bs_cons[j]) && in_range(
                            bs_cons[j],
                            c,
                        );
                } else {
                    assert(rb_proper(bs_cons[kk - 1]) && in_range(bs_cons[kk - 1], c));
                }
            }
            assert(widths_ok(bs_cons, m as int)) by {
                assert forall|j: int|
                    1 <= j < bs_cons.len() && rb_proper(#[trigger] bs_cons[j]) implies (if bs_cons[
                    j].range_b as int <= m as int {
                    bs_cons[j].range_b as int
                } else {
                    m as int
                }) < bs_cons[j].range_a as int + pow2((j - 1) as nat) as int by {
                    vstd::arithmetic::power2::lemma2_to64();
                    if j == kk as int - 1 {
                        lemma_pow2_adds((kk - 2) as nat, 1);
                        assert((m as int) < pow2((kk - 1) as nat) as int);
                    } else {
                        lemma_pow2_pos((j - 1) as nat);
                    }
                }
            }
            assert(ranges_ordered(bs_cons));
        }
        buckets[0].v_list.push(s0);
        let ghost mut ss: Set<int> = Set::<int>::empty();
        proof {
            assert(ss.subset_of(set_int_range(0, self.nodes())));
            assert forall|j: int|
                0 <= j < buckets@.len() implies (#[trigger] buckets@[j]).range_a == bs_cons[
            j].range_a && buckets@[j].range_b == bs_cons[j].range_b by {
                if j != 0 {
                    assert(buckets@[j] == bs_cons[j]);
                }
            }
            lemma_ranges_transfer(bs_cons, buckets@, m as int);
            assert(buckets@[0].v_list@ =~= seq![s0]);
            assert(dist_at(dist@, s0 as int) == 0);
            assert forall|v: int|
                0 <= v < self.nodes() && !ss.contains(v) && #[trigger] reached(dist@, v)
                implies exists|j: int|
                    0 <= j < buckets@.len() && (#[trigger] buckets@[j]).v_list@.contains(v as usize)
                by {
                assert(v == s0 as int);
                assert(buckets@[0].v_list@[0] == s0);
                assert(buckets@[0].v_list@.contains(s0));
            }
            assert forall|j: int, k: int|
                0 <= j < buckets@.len() && 0 <= k < buckets@[j].v_list@.len() implies {
                let u = (#[trigger] buckets@[j].v_list@[k]) as int;
                &&& u < self.nodes()
                &&& !ss.contains(u)
                &&& reached(dist@, u)
                &&& in_range(buckets@[j], dist_at(dist@, u))
            } by {
                if j != 0 {
                    assert(buckets@[j] == bs_cons[j]);
                    assert(bs_cons[j].v_list@.len() == 0);
                } else {
                    assert(buckets@[0].v_list@[k] == s0);
                }
            }
            assert forall|j: int|
                0 <= j < buckets@.len() && !rb_proper(#[trigger] buckets@[j])
                implies buckets@[j].v_list@.len() == 0 by {
                assert(rb_proper(bs_cons[j]));
            }
            assert(radix_inv(*self, dist@, ss, buckets@, m as int));
        }
        let mut pending = first_nonempty(&buckets);
        while pending.is_some()
            invariant
                self.wf(),
                (s0 as int) < self.nodes(),
                n as int == self.nodes(),
                mw as int == self.max_w(),
                m as int == self.nodes() * self.max_w(),
                m < usize::MAX,
                table_ok(*self, s0 as int, m as int, dist@),
                settled_min_ok(*self, s0 as int, dist@, ss),
                settled_relaxed_ok(*self, dist@, ss),
                radix_inv(*self, dist@, ss, buckets@, m as int),
                ss.finite(),
                ss.subset_of(set_int_range(0, self.nodes())),
                ss.len() <= n as int,
                match pending {
                    Some(j0) => (j0 as int) < buckets@.len() && buckets@[j0 as int].v_list@.len()
                        > 0 && (forall|j2: int|
                        0 <= j2 < j0 as int ==> (#[trigger] buckets@[j2]).v_list@.len() == 0),
                    None => forall|j2: int|
                        0 <= j2 < buckets@.len() ==> (#[trigger] buckets@[j2]).v_list@.len() == 0,
                },
            decreases n as int - ss.len(),
        {
            let j0 = pending.unwrap();
            let ghost bs0 = buckets@;
            proof {
                assert forall|k2: int|
                    0 <= k2 < buckets@[j0 as int].v_list@.len() implies (buckets@[j0 as int].v_list@[
                    k2] as int) < dist@.len() && (#[trigger] dist@[buckets@[j0 as int].v_list@[k2]
                    as int]) is Some by {
                    assert(buckets@[j0 as int].v_list@[k2] == buckets@[j0 as int].v_list@[k2]);
                }
            }
            let kmin = min_member(&buckets[j0].v_list, &dist);
            let vstar = buckets[j0].v_list[kmin];
            let dstar = dist[vstar].unwrap();
            proof {
                assert((vstar as int) < self.nodes());
                assert(!ss.contains(vstar as int));
                assert(dist_at(dist@, vstar as int) == dstar as int);
                assert(in_range(bs0[j0 as int], dstar as int));
                assert(rb_proper(bs0[j0 as int]));
                // The extracted node is of least tentative distance among
                // every unsettled reached node: lower buckets are empty
                // and higher buckets cover strictly larger ranges.
                assert forall|u: int|
                    0 <= u < self.nodes() && !(#[trigger] ss.contains(u)) && reached(dist@, u)
                    implies dstar as int <= dist_at(dist@, u) by {
                    let jb = choose|jb: int|
                        0 <= jb < bs0.len() && (#[trigger] bs0[jb]).v_list@.contains(u as usize);
                    let kb = choose|kb: int|
                        0 <= kb < bs0[jb].v_list@.len() && bs0[jb].v_list@[kb] == u as usize;
                    assert(bs0[jb].v_list@[kb] == u as usize);
                    if jb < j0 as int {
                        assert(bs0[jb].v_list@.len() == 0);
                        assert(false);
                    } else if jb == j0 as int {
                        assert(dist_at(dist@, bs0[j0 as int].v_list@[kmin as int] as int)
                            <= dist_at(dist@, (bs0[j0 as int].v_list@[kb]) as int));
                    } else {
                        assert(rb_proper(bs0[jb]));
                        assert((bs0[j0 as int].range_b as int) < bs0[jb].range_a as int);
                        assert(in_range(bs0[jb], dist_at(dist@, u)));
                    }
                }
                lemma_cut_min(*self, s0 as int, dist@, ss, vstar as int);
                assert(reached(dist@, vstar as int));
                assert(reaches(*self, s0 as int, vstar as int, dstar as int));
                lemma_min_reach_bound(*self, s0 as int, vstar as int, dstar as int);
                let d2w = choose|d2: int|
                    #[trigger] reaches(*self, s0 as int, vstar as int, d2) && d2 <= dstar as int
                    && 0 <= d2 <= (self.nodes() - 1) * self.max_w();
                assert(dstar as int <= (self.nodes() - 1) * self.max_w());
                assert((self.nodes() - 1) * self.max_w() + self.max_w() == self.nodes()
                    * self.max_w()) by (nonlinear_arith);
                assert(dstar as int + mw as int <= m as int);
                // The watermark never falls: the extracted distance sits
                // in bucket 0's range or above it.
                assert(buckets@[0].range_a as int <= dstar as int) by {
                    if j0 as int > 0 {
                        assert(rb_proper(buckets@[0]));
                        assert((buckets@[0].range_b as int) < buckets@[j0 as int].range_a as int);
                    }
                }
                // within-bucket distinctness, for the removal
                assert forall|k1: int, k2: int|
                    0 <= k1 < k2 < bs0[j0 as int].v_list@.len() implies bs0[j0 as int].v_list@[k1]
                    != bs0[j0 as int].v_list@[k2] by {
                    assert(bs0[j0 as int].v_list@[k1] == bs0[j0 as int].v_list@[k1]);
                    assert(bs0[j0 as int].v_list@[k2] == bs0[j0 as int].v_list@[k2]);
                }
                assert(bs0[j0 as int].v_list@.contains(vstar));
            }
            let ghost ss2 = ss.insert(vstar as int);
            remove_node(&mut buckets[j0].v_list, vstar);
            proof {
                // The extracted node leaves the structure entirely: it
                // lived only in its own bucket.
                assert forall|j: int|
                    0 <= j < buckets@.len() implies !(#[trigger] buckets@[j]).v_list@.contains(
                    vstar,
                ) by {
                    if j != j0 as int {
                        assert(buckets@[j] == bs0[j]);
                        if bs0[j].v_list@.contains(vstar) {
                            lemma_member_bucket_unique(
                                *self,
                                dist@,
                                ss,
                                bs0,
                                j,
                                j0 as int,
                                vstar,
                            );
                        }
                    }
                }
                assert forall|j: int, k: int|
                    0 <= j < buckets@.len() && 0 <= k < buckets@[j].v_list@.len() implies {
                    let u = (#[trigger] buckets@[j].v_list@[k]) as int;
                    &&& u < self.nodes()
                    &&& !ss2.contains(u)
                    &&& reached(dist@, u)
                    &&& in_range(buckets@[j], dist_at(dist@, u))
                } by {
                    let y = buckets@[j].v_list@[k];
                    if j == j0 as int {
                        assert(buckets@[j].v_list@.contains(y));
                        assert(bs0[j].v_list@.contains(y) && y != vstar);
                        let k2 = choose|k2: int|
                            0 <= k2 < bs0[j].v_list@.len() && bs0[j].v_list@[k2] == y;
                        assert(bs0[j].v_list@[k2] == y);
                    } else {
                        assert(buckets@[j] == bs0[j]);
                        assert(bs0[j].v_list@[k] == y);
                        assert(y != vstar);
                    }
                }
                assert forall|v: int|
                    0 <= v < self.nodes() && !ss2.contains(v) && #[trigger] reached(dist@, v)
                    implies exists|j: int|
                        0 <= j < buckets@.len() && (#[trigger] buckets@[j]).v_list@.contains(
                        v as usize) by {
                    let j = choose|j: int|
                        0 <= j < bs0.len() && (#[trigger] bs0[j]).v_list@.contains(v as usize);
                    if j == j0 as int {
                        assert(buckets@[j].v_list@.contains(v as usize));
                    } else {
                        assert(buckets@[j] == bs0[j]);
                        assert(buckets@[j].v_list@.contains(v as usize));
                    }
                }
                assert forall|j: int, k1: int, k2: int|
                    0 <= j < buckets@.len() && 0 <= k1 < k2 < buckets@[j].v_list@.len() implies (
                #[trigger] buckets@[j].v_list@[k1]) != (#[trigger] buckets@[j].v_list@[k2]) by {
                    if j != j0 as int {
                        assert(buckets@[j] == bs0[j]);
                        assert(bs0[j].v_list@[k1] == buckets@[j].v_list@[k1]);
                        assert(bs0[j].v_list@[k2] == buckets@[j].v_list@[k2]);
                    }
                }
            }
            proof {
                // The removal touched one member list and no range, so
                // the structural parts of the invariant carry over.
                assert forall|j: int|
                    0 <= j < buckets@.len() implies (#[trigger] buckets@[j]).range_a == bs0[
                j].range_a && buckets@[j].range_b == bs0[j].range_b by {
                    if j != j0 as int {
                        assert(buckets@[j] == bs0[j]);
                    }
                }
                assert(ranges_ordered(buckets@)) by {
                    assert forall|j1: int, j2: int|
                        #![trigger buckets@[j1], buckets@[j2]]
                        0 <= j1 < j2 < buckets@.len() && rb_proper(buckets@[j1]) && rb_proper(
                            buckets@[j2],
                        ) implies (buckets@[j1].range_b as int) < buckets@[j2].range_a as int by {
                        assert(rb_proper(bs0[j1]) && rb_proper(bs0[j2]));
                    }
                }
                assert(all_covered(buckets@)) by {
                    assert forall|c: int|
                        buckets@[0].range_a as int <= c <= usize::MAX as int
                        implies #[trigger] covered(buckets@, c) by {
                        assert(covered(bs0, c));
                        let j = choose|j: int|
                            0 <= j < bs0.len() && rb_proper(#[trigger] bs0[j]) && in_range(
                                bs0[j],
                                c,
                            );
                        assert(rb_proper(buckets@[j]) && in_range(buckets@[j], c));
                    }
                }
                assert(widths_ok(buckets@, m as int)) by {
                    assert forall|j: int|
                        1 <= j < buckets@.len() && rb_proper(#[trigger] buckets@[j]) implies (
                        if buckets@[j].range_b as int <= m as int {
                            buckets@[j].range_b as int
                        } else {
                            m as int
                        }) < buckets@[j].range_a as int + pow2((j - 1) as nat) as int by {
                        assert(rb_proper(bs0[j]));
                    }
                }
                assert(sentinels_empty(buckets@)) by {
                    assert forall|j: int|
                        0 <= j < buckets@.len() && !rb_proper(#[trigger] buckets@[j])
                        implies buckets@[j].v_list@.len() == 0 by {
                        if j != j0 as int {
                            assert(buckets@[j] == bs0[j]);
                        } else {
                            assert(rb_proper(bs0[j0 as int]));
                        }
                    }
                }
                assert(radix_inv(*self, dist@, ss2, buckets@, m as int));
                assert forall|v: int|
                    0 <= v < self.nodes() && #[trigger] reached(dist@, v) implies dist_at(dist@, v)
                    <= m as int by {}
            }
            if j0 > 0 {
                proof {
                    assert forall|j: int|
                        0 <= j < j0 as int implies (#[trigger] buckets@[j]).v_list@.len() == 0 by {
                        assert(buckets@[j] == bs0[j]);
                    }
                    assert forall|k: int|
                        0 <= k < buckets@[j0 as int].v_list@.len() implies dstar as int <= dist_at(
                        dist@,
                        (#[trigger] buckets@[j0 as int].v_list@[k]) as int,
                    ) by {
                        let y = buckets@[j0 as int].v_list@[k];
                        assert(buckets@[j0 as int].v_list@.contains(y));
                        assert(bs0[j0 as int].v_list@.contains(y));
                        let k2 = choose|k2: int|
                            0 <= k2 < bs0[j0 as int].v_list@.len() && bs0[j0 as int].v_list@[k2]
                            == y;
                        assert(dist_at(dist@, (bs0[j0 as int].v_list@[kmin as int]) as int)
                            <= dist_at(dist@, (bs0[j0 as int].v_list@[k2]) as int));
                    }
                    assert(in_range(buckets@[j0 as int], dstar as int));
                }
                self.radix_surgery(&mut buckets, &dist, j0, dstar, Ghost(ss2), Ghost(m as int));
            }
            proof {
                assert(buckets@[0].range_a == dstar && buckets@[0].range_b == dstar) by {
                    if j0 == 0 {
                        assert(in_range(buckets@[0], dstar as int));
                    }
                }
            }
            // Relaxation: improve each neighbor, moving it from its old
            // bucket to the bucket of its new distance.
            let deg = self.out_edges(vstar).len();
            let mut i2: usize = 0;
            while i2 < deg
                invariant
                    self.wf(),
                    (s0 as int) < self.nodes(),
                    0 <= s0 as int,
                    n as int == self.nodes(),
                    mw as int == self.max_w(),
                    m as int == self.nodes() * self.max_w(),
                    m < usize::MAX,
                    (vstar as int) < self.nodes(),
                    deg == self.adj_seq()[vstar as int].len(),
                    i2 <= deg,
                    dstar as int + mw as int <= m as int,
                    dist@[vstar as int] == Some(dstar),
                    dist_at(dist@, vstar as int) == dstar as int,
                    table_ok(*self, s0 as int, m as int, dist@),
                    settled_min_ok(*self, s0 as int, dist@, ss),
                    settled_relaxed_ok(*self, dist@, ss),
                    radix_inv(*self, dist@, ss2, buckets@, m as int),
                    buckets@[0].range_a == dstar,
                    buckets@[0].range_b == dstar,
                    ss2 == ss.insert(vstar as int),
                    ss.finite(),
                    ss.subset_of(set_int_range(0, self.nodes())),
                    ss.len() <= n as int,
                    !ss.contains(vstar as int),
                    forall|d2: int|
                        #[trigger] reaches(*self, s0 as int, vstar as int, d2) ==> dstar as int
                            <= d2,
                    forall|i3: int|
                        0 <= i3 < i2 as int ==> {
                            let e3 = #[trigger] self.adj_seq()[vstar as int][i3];
                            reached(dist@, e3.0 as int) && dist_at(dist@, e3.0 as int) <= dstar
                                as int + e3.1 as int
                        },
                decreases deg - i2,
            {
                let edges = self.out_edges(vstar);
                let pr = edges[i2];
                let tgt = pr.0;
                let w = pr.1;
                proof {
                    assert(self.adj_seq()[vstar as int][i2 as int] == pr);
                    assert((tgt as int) < self.nodes());
                    assert(w as int <= self.max_w());
                    assert(has_edge(*self, vstar as int, tgt as int, w as int));
                }
                let cand = dstar + w;
                let old_entry = dist[tgt];
                let improve = match old_entry {
                    None => true,
                    Some(dv) => cand < dv,
                };
                if improve {
                    proof {
                        assert(reached(dist@, vstar as int));
                        assert(reaches(*self, s0 as int, vstar as int, dstar as int));
                        lemma_reaches_step(
                            *self,
                            s0 as int,
                            vstar as int,
                            dstar as int,
                            tgt as int,
                            w as int,
                        );
                        if ss.contains(tgt as int) {
                            assert(dist_at(dist@, tgt as int) <= cand as int);
                            assert(false);
                        }
                        if tgt == vstar {
                            assert(false);
                        }
                        lemma_reach_nonneg(*self, s0 as int, tgt as int, cand as int);
                        if tgt == s0 {
                            assert(dist_at(dist@, s0 as int) == 0);
                            assert(false);
                        }
                    }
                    // Exact membership: a previously reached target leaves
                    // its old bucket before its distance changes.
                    let ghost bs_r0 = buckets@;
                    if let Some(dv) = old_entry {
                        proof {
                            assert(reached(dist@, tgt as int));
                            assert(!ss2.contains(tgt as int));
                            assert(dist_at(dist@, tgt as int) == dv as int);
                            let jt = choose|jt: int|
                                0 <= jt < buckets@.len()
                                && (#[trigger] buckets@[jt]).v_list@.contains(tgt);
                            let kt = choose|kt: int|
                                0 <= kt < buckets@[jt].v_list@.len() && buckets@[jt].v_list@[kt]
                                == tgt;
                            assert(buckets@[jt].v_list@[kt] == tgt);
                            assert(in_range(buckets@[jt], dv as int));
                            assert(rb_proper(buckets@[jt]));
                            assert(covered(buckets@, dv as int));
                        }
                        let bold = find_bucket(&buckets, dv);
                        proof {
                            let jt = choose|jt: int|
                                0 <= jt < bs_r0.len()
                                && (#[trigger] bs_r0[jt]).v_list@.contains(tgt);
                            if jt != bold as int {
                                let kt = choose|kt: int|
                                    0 <= kt < bs_r0[jt].v_list@.len() && bs_r0[jt].v_list@[kt]
                                    == tgt;
                                assert(bs_r0[jt].v_list@[kt] == tgt);
                                assert(in_range(bs_r0[jt], dv as int));
                                assert(rb_proper(bs_r0[jt]));
                                if jt < bold as int {
                                    assert((bs_r0[jt].range_b as int) < bs_r0[bold as int].range_a
                                        as int);
                                } else {
                                    assert((bs_r0[bold as int].range_b as int) < bs_r0[jt].range_a
                                        as int);
                                }
                                assert(false);
                            }
                            assert(buckets@[bold as int].v_list@.contains(tgt));
                            assert forall|k1: int, k2: int|
                                0 <= k1 < k2 < buckets@[bold as int].v_list@.len() implies buckets@[
                            bold as int].v_list@[k1] != buckets@[bold as int].v_list@[k2] by {
                                assert(buckets@[bold as int].v_list@[k1] == buckets@[bold
                                    as int].v_list@[k1]);
                                assert(buckets@[bold as int].v_list@[k2] == buckets@[bold
                                    as int].v_list@[k2]);
                            }
                        }
                        remove_node(&mut buckets[bold].v_list, tgt);
                        proof {
                            lemma_members_after_remove(
                                *self,
                                dist@,
                                ss2,
                                bs_r0,
                                buckets@,
                                bold as int,
                                tgt,
                            );
                            assert forall|j: int|
                                0 <= j < buckets@.len() implies (#[trigger] buckets@[j]).range_a
                                == bs_r0[j].range_a && buckets@[j].range_b == bs_r0[j].range_b by {
                                if j != bold as int {
                                    assert(buckets@[j] == bs_r0[j]);
                                }
                            }
                            lemma_ranges_transfer(bs_r0, buckets@, m as int);
                            assert(sentinels_empty(buckets@)) by {
                                assert forall|j: int|
                                    0 <= j < buckets@.len() && !rb_proper(#[trigger] buckets@[j])
                                    implies buckets@[j].v_list@.len() == 0 by {
                                    if j == bold as int {
                                        assert(rb_proper(bs_r0[bold as int]));
                                        assert(rb_proper(buckets@[bold as int]));
                                    } else {
                                        assert(buckets@[j] == bs_r0[j]);
                                        assert(!rb_proper(bs_r0[j]));
                                    }
                                }
                            }
                        }
                    }
                    proof {
                        // The target now sits in no bucket at all: an
                        // unreached node is never a member, and a reached
                        // one lived only in the bucket it just left.
                        assert forall|j: int|
                            0 <= j < buckets@.len() implies !(#[trigger] buckets@[j]).v_list@.contains(
                            tgt,
                        ) by {
                            if buckets@[j].v_list@.contains(tgt) {
                                let kt = choose|kt: int|
                                    0 <= kt < buckets@[j].v_list@.len() && buckets@[j].v_list@[kt]
                                    == tgt;
                                assert(buckets@[j].v_list@[kt] == tgt);
                                assert(reached(dist@, tgt as int));
                                match old_entry {
                                    Some(dv) => {
                                        assert(in_range(buckets@[j], dv as int));
                                        assert(rb_proper(buckets@[j]));
                                    },
                                    None => {},
                                }
                            }
                        }
                    }
                    let ghost dist_old = dist@;
                    let ghost bs_mid = buckets@;
                    dist[tgt] = Some(cand);
                    proof {
                        assert(dist@ == dist_old.update(tgt as int, Some(cand)));
                        assert forall|vv: int|
                            0 <= vv < self.nodes() && #[trigger] reached(dist@, vv)
                            implies reaches(*self, s0 as int, vv, dist_at(dist@, vv)) && dist_at(
                            dist@,
                            vv,
                        ) <= m as int by {
                            if vv != tgt as int {
                                assert(dist@[vv] == dist_old[vv]);
                                assert(reached(dist_old, vv));
                                assert(dist_at(dist@, vv) == dist_at(dist_old, vv));
                            } else {
                                assert(dist_at(dist@, vv) == cand as int);
                                assert(cand as int <= dstar as int + mw as int);
                            }
                        }
                        assert forall|u: int, i4: int|
                            ss.contains(u) && 0 <= u < self.nodes() && 0 <= i4
                                < self.adj_seq()[u].len() implies {
                            let e4 = #[trigger] self.adj_seq()[u][i4];
                            reached(dist@, e4.0 as int) && dist_at(dist@, e4.0 as int) <= dist_at(
                                dist@,
                                u,
                            ) + e4.1 as int
                        } by {
                            let e4 = self.adj_seq()[u][i4];
                            assert(ss.contains(u) && 0 <= i4 < self.adj_seq()[u].len());
                            assert(reached(dist_old, e4.0 as int));
                            assert(dist_at(dist_old, e4.0 as int) <= dist_at(dist_old, u) + e4.1
                                as int);
                            assert(dist@[u] == dist_old[u]);
                            if e4.0 as int == tgt as int {
                                assert(dist_at(dist@, tgt as int) == cand as int);
                            } else {
                                assert(dist@[e4.0 as int] == dist_old[e4.0 as int]);
                            }
                        }
                        // Membership facts survive the table update: no
                        // member is the target.
                        assert forall|j: int, k: int|
                            0 <= j < buckets@.len() && 0 <= k < buckets@[j].v_list@.len() implies {
                            let u = (#[trigger] buckets@[j].v_list@[k]) as int;
                            &&& u < self.nodes()
                            &&& !ss2.contains(u)
                            &&& reached(dist@, u)
                            &&& in_range(buckets@[j], dist_at(dist@, u))
                        } by {
                            let y = buckets@[j].v_list@[k];
                            assert(buckets@[j].v_list@.contains(y));
                            assert(y != tgt);
                            assert(dist@[y as int] == dist_old[y as int]);
                        }
                        assert forall|v: int|
                            0 <= v < self.nodes() && !ss2.contains(v) && #[trigger] reached(
                            dist@,
                            v,
                        ) && v != tgt as int implies exists|j: int|
                            0 <= j < buckets@.len() && (#[trigger] buckets@[j]).v_list@.contains(
                            v as usize) by {
                            assert(dist@[v] == dist_old[v]);
                            assert(reached(dist_old, v));
                        }
                    }
                    proof {
                        assert(buckets@[0].range_a == dstar);
                        assert(covered(buckets@, cand as int)) by {
                            assert(buckets@[0].range_a as int <= cand as int <= usize::MAX as int);
                        }
                    }
                    let bnew = find_bucket(&buckets, cand);
                    let ghost bs_pre_push = buckets@;
                    buckets[bnew].v_list.push(tgt);
                    proof {
                        assert(buckets@[bnew as int].v_list@ == bs_pre_push[bnew
                            as int].v_list@.push(tgt));
                        lemma_members_after_push(
                            *self,
                            dist@,
                            ss2,
                            bs_pre_push,
                            buckets@,
                            bnew as int,
                            tgt,
                        );
                        assert forall|v: int|
                            0 <= v < self.nodes() && !ss2.contains(v) && #[trigger] reached(
                            dist@,
                            v,
                        ) implies exists|j: int|
                            0 <= j < buckets@.len() && (#[trigger] buckets@[j]).v_list@.contains(
                            v as usize) by {
                            if v == tgt as int {
                                assert(buckets@[bnew as int].v_list@.contains(tgt));
                            } else {
                                let j = choose|j: int|
                                    0 <= j < bs_pre_push.len()
                                    && (#[trigger] bs_pre_push[j]).v_list@.contains(v as usize);
                                assert(buckets@[j].v_list@.contains(v as usize));
                            }
                        }
                        assert forall|j: int|
                            0 <= j < buckets@.len() implies (#[trigger] buckets@[j]).range_a
                            == bs_pre_push[j].range_a && buckets@[j].range_b == bs_pre_push[
                        j].range_b by {
                            if j != bnew as int {
                                assert(buckets@[j] == bs_pre_push[j]);
                            }
                        }
                        lemma_ranges_transfer(bs_pre_push, buckets@, m as int);
                        assert(sentinels_empty(buckets@)) by {
                            assert forall|j: int|
                                0 <= j < buckets@.len() && !rb_proper(#[trigger] buckets@[j])
                                implies buckets@[j].v_list@.len() == 0 by {
                                if j == bnew as int {
                                    assert(rb_proper(bs_pre_push[bnew as int]));
                                    assert(rb_proper(buckets@[bnew as int]));
                                } else {
                                    assert(buckets@[j] == bs_pre_push[j]);
                                    assert(!rb_proper(bs_pre_push[j]));
                                }
                            }
                        }
                        assert(radix_inv(*self, dist@, ss2, buckets@, m as int));
                    }
                } else {
                    proof {
                        assert(reached(dist@, tgt as int));
                        assert(dist_at(dist@, tgt as int) <= dstar as int + w as int);
                    }
                }
                i2 += 1;
            }
            proof {
                lemma_settled_insert(n as int, ss, vstar as int);
                let ghost ss_prev = ss;
                ss = ss.insert(vstar as int);
                assert(settled_min_ok(*self, s0 as int, dist@, ss)) by {
                    assert forall|u: int| #[trigger] ss.contains(u) implies 0 <= u < self.nodes()
                        && reached(dist@, u) && (forall|d2: int|
                        #[trigger] reaches(*self, s0 as int, u, d2) ==> dist_at(dist@, u)
                            <= d2) by {
                        if u != vstar as int {
                            assert(ss_prev.contains(u));
                        }
                    }
                }
                assert(settled_relaxed_ok(*self, dist@, ss)) by {
                    assert forall|u: int, i4: int|
                        ss.contains(u) && 0 <= u < self.nodes() && 0 <= i4
                            < self.adj_seq()[u].len() implies {
                        let e4 = #[trigger] self.adj_seq()[u][i4];
                        reached(dist@, e4.0 as int) && dist_at(dist@, e4.0 as int) <= dist_at(
                            dist@,
                            u,
                        ) + e4.1 as int
                    } by {
                        if u == vstar as int {
                            assert(self.adj_seq()[vstar as int][i4]
                                == self.adj_seq()[vstar as int][i4]);
                        } else {
                            assert(ss_prev.contains(u));
                        }
                    }
                }
            }
            pending = first_nonempty(&buckets);
        }
        proof {
            assert forall|u: int|
                0 <= u < self.nodes() && #[trigger] reached(dist@, u) implies ss.contains(u) by {
                if !ss.contains(u) {
                    let j = choose|j: int|
                        0 <= j < buckets@.len() && (#[trigger] buckets@[j]).v_list@.contains(
                        u as usize);
                    assert(buckets@[j].v_list@.len() == 0);
                }
            }
            lemma_final_table(*self, s0 as int, m as int, dist@, ss);
        }
        Ok(dist)
    }

    /// Point-to-point radix heap: answered from a single-source run, with
    /// `start == goal` yielding distance 0 without visiting any edge.
    pub fn radix_p2p(&self, start: usize, goal: usize) -> (r: Result<Option<usize>, GraphError>)
        requires
            self.wf(),
            1 <= start && start as int <= self.nodes(),
            1 <= goal && goal as int <= self.nodes(),
        ensures
            p2p_post(*self, start as int - 1, goal as int - 1, r),
    {
        if start == goal {
            return Ok(Some(0));
        }
        match self.radix_ss(start) {
            Ok(t) => {
                let o = t[goal - 1];
                proof {
                    assert(is_dist_entry(*self, start as int - 1, goal as int - 1, o));
                }
                Ok(o)
            },
            Err(e) => Err(e),
        }
    }
}

} // verus!
