//! The mathematical specification of the engine: walks, their weights,
//! reachability at a given distance, and what it means for a table of
//! optional distances to be the single-source shortest-distance table.
//! The laws shared by every solver are proved here, together with the
//! proof machinery (the cut argument and the walk-shortening bound) that
//! the solver loops rely on.

use crate::graph::Graph;
use crate::graph::GraphError;
use vstd::arithmetic::mul::lemma_mul_inequality;
use vstd::prelude::*;
use vstd::set_lib::lemma_int_range;
use vstd::set_lib::lemma_len_subset;

verus! {

/// The graph has a `from -> to` edge of the given weight, 0-indexed.
pub open spec fn has_edge(g: Graph, u: int, v: int, w: int) -> bool {
    &&& 0 <= u < g.nodes()
    &&& exists|i: int|
        0 <= i < g.adj_seq()[u].len()
        && ((#[trigger] g.adj_seq()[u][i]).0 as int) == v
        && (g.adj_seq()[u][i].1 as int) == w
}

/// A walk through the graph: a nonempty sequence of steps, each a pair of
/// a node and the weight of the edge that enters it.  The first step
/// carries weight 0; every later step must follow an edge from the node
/// of the step before it.
pub open spec fn is_walk(g: Graph, q: Seq<(int, int)>) -> bool {
    &&& q.len() >= 1
    &&& q[0].1 == 0
    &&& 0 <= q[0].0 < g.nodes()
    &&& forall|j: int| 1 <= j < q.len() ==> has_edge(g, q[j - 1].0, (#[trigger] q[j]).0, q[j].1)
}

/// The sum of the step weights of a sequence of steps.
pub open spec fn wsum(q: Seq<(int, int)>) -> int
    decreases q.len(),
{
    if q.len() == 0 {
        0
    } else {
        wsum(q.drop_last()) + q.last().1
    }
}

/// A walk that starts at `s` and ends at `v`.
pub open spec fn walk_from_to(g: Graph, q: Seq<(int, int)>, s: int, v: int) -> bool {
    is_walk(g, q) && q.first().0 == s && q.last().0 == v
}

/// `v` can be reached from `s` along some walk of total weight `d`.
pub open spec fn reaches(g: Graph, s: int, v: int, d: int) -> bool {
    exists|q: Seq<(int, int)>| #[trigger] walk_from_to(g, q, s, v) && wsum(q) == d
}

/// The table records a distance for `v`.
pub open spec fn reached(t: Seq<Option<usize>>, v: int) -> bool {
    t[v] is Some
}

/// The distance the table records for `v` (meaningful only when reached).
pub open spec fn dist_at(t: Seq<Option<usize>>, v: int) -> int {
    match t[v] {
        Some(d) => d as int,
        None => -1,
    }
}

/// `e` is the correct shortest-distance entry for node `v`: the weight of
/// a walk from `s` to `v` no other walk undercuts, or `None` when no walk
/// from `s` ends at `v`.
pub open spec fn is_dist_entry(g: Graph, s: int, v: int, e: Option<usize>) -> bool {
    match e {
        Some(d) => reaches(g, s, v, d as int)
            && (forall|d2: int| #[trigger] reaches(g, s, v, d2) ==> d as int <= d2),
        None => forall|d2: int| !(#[trigger] reaches(g, s, v, d2)),
    }
}

/// `t` is the single-source shortest-distance table for source `s`.
pub open spec fn is_dist_table(g: Graph, s: int, t: Seq<Option<usize>>) -> bool {
    &&& t.len() == g.nodes()
    &&& forall|v: int| 0 <= v < g.nodes() ==> is_dist_entry(g, s, v, #[trigger] t[v])
}

/// Every candidate distance of the graph fits the machine word: candidate
/// distances are bounded by `nodes * max_w`, so the solvers demand that
/// this product stays below `usize::MAX` and fail loudly otherwise.
pub open spec fn size_ok(g: Graph) -> bool {
    g.nodes() * g.max_w() < usize::MAX as int
}

/// The contract shared by the single-source solvers: the exact table on
/// success, and `ArithmeticOverflow` exactly when the graph's distance
/// range does not fit the machine word.
pub open spec fn ss_post(g: Graph, s: int, r: Result<Vec<Option<usize>>, GraphError>) -> bool {
    match r {
        Ok(t) => size_ok(g) && is_dist_table(g, s, t@),
        Err(e) => e == GraphError::ArithmeticOverflow && !size_ok(g),
    }
}

/// The contract shared by the point-to-point solvers.  `s == t` yields
/// distance 0 at once, without visiting any edge.
pub open spec fn p2p_post(g: Graph, s: int, t: int, r: Result<Option<usize>, GraphError>) -> bool {
    match r {
        Ok(o) => if s == t {
            o == Some(0usize)
        } else {
            size_ok(g) && is_dist_entry(g, s, t, o)
        },
        Err(e) => e == GraphError::ArithmeticOverflow && !size_ok(g) && s != t,
    }
}

/// The running table invariant shared by the solver loops: the right
/// length, the source pinned at distance 0, and every recorded distance
/// the weight of a genuine walk, bounded by `m`.
pub open spec fn table_ok(g: Graph, s: int, m: int, dist: Seq<Option<usize>>) -> bool {
    &&& dist.len() == g.nodes()
    &&& dist[s] == Some(0usize)
    &&& forall|v: int|
        0 <= v < g.nodes() && #[trigger] reached(dist, v)
        ==> reaches(g, s, v, dist_at(dist, v)) && dist_at(dist, v) <= m
}

/// Every settled node is in range, has a recorded distance, and no walk
/// from the source undercuts that distance.
pub open spec fn settled_min_ok(g: Graph, s: int, dist: Seq<Option<usize>>, ss: Set<int>) -> bool {
    forall|u: int| #[trigger] ss.contains(u) ==> 0 <= u < g.nodes() && reached(dist, u)
        && (forall|d2: int| #[trigger] reaches(g, s, u, d2) ==> dist_at(dist, u) <= d2)
}

/// Every edge out of a settled node has been relaxed against the table.
pub open spec fn settled_relaxed_ok(g: Graph, dist: Seq<Option<usize>>, ss: Set<int>) -> bool {
    forall|u: int, i: int|
        #![trigger ss.contains(u), g.adj_seq()[u][i]]
        ss.contains(u) && 0 <= u < g.nodes() && 0 <= i < g.adj_seq()[u].len() ==> {
            let e = g.adj_seq()[u][i];
            reached(dist, e.0 as int) && dist_at(dist, e.0 as int) <= dist_at(dist, u) + e.1 as int
        }
}

/// Introduces `reaches` from a concrete walk.
pub proof fn lemma_reaches_intro(g: Graph, q: Seq<(int, int)>, s: int, v: int)
    requires
        walk_from_to(g, q, s, v),
    ensures
        reaches(g, s, v, wsum(q)),
{
}

/// The one-step walk that stays at `s` shows `reaches(g, s, s, 0)`.
pub proof fn lemma_reaches_self(g: Graph, s: int)
    requires
        0 <= s < g.nodes(),
    ensures
        reaches(g, s, s, 0),
{
    let q: Seq<(int, int)> = seq![(s, 0)];
    assert(q.last() == (s, 0int));
    assert(wsum(q) == wsum(q.drop_last()) + q.last().1);
    assert(wsum(q.drop_last()) == 0) by {
        assert(q.drop_last() =~= Seq::<(int, int)>::empty());
        assert(wsum(Seq::<(int, int)>::empty()) == 0);
    }
    assert(walk_from_to(g, q, s, s));
}

/// Extends a walk by one edge.
pub proof fn lemma_reaches_step(g: Graph, s: int, u: int, du: int, v: int, w: int)
    requires
        reaches(g, s, u, du),
        has_edge(g, u, v, w),
    ensures
        reaches(g, s, v, du + w),
{
    let q = choose|q: Seq<(int, int)>| #[trigger] walk_from_to(g, q, s, u) && wsum(q) == du;
    let q2 = q.push((v, w));
    assert(q2.drop_last() =~= q);
    assert forall|j: int| 1 <= j < q2.len() implies has_edge(
        g,
        q2[j - 1].0,
        (#[trigger] q2[j]).0,
        q2[j].1,
    ) by {
        if j < q.len() {
            assert(q2[j] == q[j]);
            assert(q2[j - 1] == q[j - 1]);
        } else {
            assert(q2[j] == (v, w));
            assert(q2[j - 1] == q.last());
        }
    }
    assert(q2[0] == q[0]);
    assert(walk_from_to(g, q2, s, v));
    assert(wsum(q2) == du + w);
}

/// A sequence of non-negative step weights has a non-negative sum.
proof fn lemma_wsum_nonneg(q: Seq<(int, int)>)
    requires
        forall|j: int| 0 <= j < q.len() ==> (#[trigger] q[j]).1 >= 0,
    ensures
        wsum(q) >= 0,
    decreases q.len(),
{
    if q.len() > 0 {
        lemma_wsum_nonneg(q.drop_last());
    }
}

/// Step-weight sums split over concatenation.
proof fn lemma_wsum_concat(a: Seq<(int, int)>, b: Seq<(int, int)>)
    ensures
        wsum(a + b) == wsum(a) + wsum(b),
    decreases b.len(),
{
    if b.len() == 0 {
        assert(a + b =~= a);
    } else {
        assert((a + b).drop_last() =~= a + b.drop_last());
        assert((a + b).last() == b.last());
        lemma_wsum_concat(a, b.drop_last());
    }
}

/// Every step weight of a walk is non-negative.
proof fn lemma_walk_steps_nonneg(g: Graph, q: Seq<(int, int)>)
    requires
        is_walk(g, q),
    ensures
        forall|j: int| 0 <= j < q.len() ==> (#[trigger] q[j]).1 >= 0,
{
    assert forall|j: int| 0 <= j < q.len() implies (#[trigger] q[j]).1 >= 0 by {
        if j >= 1 {
            assert(has_edge(g, q[j - 1].0, q[j].0, q[j].1));
        }
    }
}

/// Every node of a walk lies in range.
proof fn lemma_walk_nodes_in_range(g: Graph, q: Seq<(int, int)>)
    requires
        g.wf(),
        is_walk(g, q),
    ensures
        forall|j: int| 0 <= j < q.len() ==> 0 <= (#[trigger] q[j]).0 < g.nodes(),
{
    assert forall|j: int| 0 <= j < q.len() implies 0 <= (#[trigger] q[j]).0 < g.nodes() by {
        if j >= 1 {
            assert(has_edge(g, q[j - 1].0, q[j].0, q[j].1));
            let i = choose|i: int|
                0 <= i < g.adj_seq()[q[j - 1].0].len()
                && ((#[trigger] g.adj_seq()[q[j - 1].0][i]).0 as int) == q[j].0
                && (g.adj_seq()[q[j - 1].0][i].1 as int) == q[j].1;
            assert(((g.adj_seq()[q[j - 1].0][i]).0 as int) < g.nodes());
        }
    }
}

/// A walk's weight is bounded by its edge count times the largest weight.
proof fn lemma_walk_weight_bound(g: Graph, q: Seq<(int, int)>)
    requires
        g.wf(),
        is_walk(g, q),
    ensures
        0 <= wsum(q) <= (q.len() - 1) * g.max_w(),
    decreases q.len(),
{
    if q.len() == 1 {
        assert(wsum(q) == wsum(q.drop_last()) + q.last().1);
        assert(wsum(q.drop_last()) == 0) by {
            assert(q.drop_last() =~= Seq::<(int, int)>::empty());
            assert(wsum(Seq::<(int, int)>::empty()) == 0);
        }
        assert(q.last() == q[0]);
    } else {
        let q2 = q.drop_last();
        assert(is_walk(g, q2)) by {
            assert(q2[0] == q[0]);
            assert forall|j: int| 1 <= j < q2.len() implies has_edge(
                g,
                q2[j - 1].0,
                (#[trigger] q2[j]).0,
                q2[j].1,
            ) by {
                assert(q2[j] == q[j]);
                assert(q2[j - 1] == q[j - 1]);
            }
        }
        lemma_walk_weight_bound(g, q2);
        let jl: int = q.len() - 1;
        assert(has_edge(g, q[jl - 1].0, q[jl].0, q[jl].1));
        let u: int = q[jl - 1].0;
        let i = choose|i: int|
            0 <= i < g.adj_seq()[u].len()
            && ((#[trigger] g.adj_seq()[u][i]).0 as int) == q[jl].0
            && (g.adj_seq()[u][i].1 as int) == q[jl].1;
        assert(0 <= q[jl].1 <= g.max_w());
        assert((q.len() - 2) * g.max_w() + g.max_w() == (q.len() - 1) * g.max_w())
            by (nonlinear_arith);
    }
}

/// A walk whose node sequence has no repeats visits at most `nodes`
/// steps.
proof fn lemma_walk_no_dup_len(g: Graph, q: Seq<(int, int)>)
    requires
        g.wf(),
        is_walk(g, q),
        Seq::new(q.len(), |j: int| q[j].0).no_duplicates(),
    ensures
        q.len() <= g.nodes(),
{
    let nodes_of = Seq::new(q.len(), |j: int| q[j].0);
    lemma_walk_nodes_in_range(g, q);
    nodes_of.unique_seq_to_set();
    let rng = vstd::set_lib::set_int_range(0, g.nodes());
    assert(nodes_of.to_set().subset_of(rng)) by {
        assert forall|x: int| nodes_of.to_set().contains(x) implies rng.contains(x) by {
            let j = choose|j: int| 0 <= j < nodes_of.len() && nodes_of[j] == x;
            assert(0 <= q[j].0 < g.nodes());
        }
    }
    lemma_int_range(0, g.nodes());
    lemma_len_subset(nodes_of.to_set(), rng);
}

/// Splicing out the span between two visits of the same node leaves a
/// strictly shorter walk with the same endpoints and no more weight.
proof fn lemma_walk_splice(g: Graph, q: Seq<(int, int)>, i: int, j: int)
    requires
        g.wf(),
        is_walk(g, q),
        0 <= i < j < q.len(),
        q[i].0 == q[j].0,
    ensures
        ({
            let q2 = q.subrange(0, i + 1) + q.subrange(j + 1, q.len() as int);
            is_walk(g, q2) && q2.first().0 == q.first().0 && q2.last().0 == q.last().0
                && wsum(q2) <= wsum(q) && q2.len() < q.len()
        }),
{
    let front = q.subrange(0, i + 1);
    let middle = q.subrange(i + 1, j + 1);
    let back = q.subrange(j + 1, q.len() as int);
    let q2 = front + back;
    assert(q =~= (front + middle) + back);
    lemma_wsum_concat(front + middle, back);
    lemma_wsum_concat(front, middle);
    lemma_wsum_concat(front, back);
    lemma_walk_steps_nonneg(g, q);
    assert(forall|k: int| 0 <= k < middle.len() ==> (#[trigger] middle[k]).1 >= 0);
    lemma_wsum_nonneg(middle);
    assert(wsum(q2) <= wsum(q));
    assert(is_walk(g, q2)) by {
        assert(q2[0] == q[0]);
        assert forall|k: int| 1 <= k < q2.len() implies has_edge(
            g,
            q2[k - 1].0,
            (#[trigger] q2[k]).0,
            q2[k].1,
        ) by {
            if k <= i {
                assert(q2[k] == q[k]);
                assert(q2[k - 1] == q[k - 1]);
            } else if k == i + 1 {
                assert(q2[k] == q[j + 1 + (k - (i + 1))]);
                assert(q2[k - 1] == q[i]);
                assert(has_edge(g, q[j].0, q[j + 1].0, q[j + 1].1));
            } else {
                assert(q2[k] == q[j + k - i]);
                assert(q2[k - 1] == q[j + k - i - 1]);
            }
        }
    }
    assert(q2.last().0 == q.last().0) by {
        if back.len() > 0 {
            assert(q2.last() == q.last());
        } else {
            assert(q2.last() == q[i]);
            assert(j == q.len() - 1);
        }
    }
}

/// Any walk can be shortened, without raising its weight, to a walk over
/// at most `nodes` steps with the same endpoints: repeated nodes are
/// spliced out, and the spliced-out step weights are non-negative.
proof fn lemma_walk_shorten(g: Graph, q: Seq<(int, int)>)
    requires
        g.wf(),
        is_walk(g, q),
    ensures
        exists|q2: Seq<(int, int)>|
            #[trigger] is_walk(g, q2)
            && q2.first().0 == q.first().0
            && q2.last().0 == q.last().0
            && wsum(q2) <= wsum(q)
            && q2.len() <= g.nodes(),
    decreases q.len(),
{
    let nodes_of = Seq::new(q.len(), |j: int| q[j].0);
    if nodes_of.no_duplicates() {
        lemma_walk_no_dup_len(g, q);
        assert(is_walk(g, q) && q.first().0 == q.first().0 && q.last().0 == q.last().0
            && wsum(q) <= wsum(q) && q.len() <= g.nodes());
    } else {
        let (i0, j0): (int, int) = choose|i0: int, j0: int|
            0 <= i0 < nodes_of.len() && 0 <= j0 < nodes_of.len() && i0 != j0
            && nodes_of[i0] == nodes_of[j0];
        let i: int = if i0 < j0 { i0 } else { j0 };
        let j: int = if i0 < j0 { j0 } else { i0 };
        assert(q[i].0 == q[j].0);
        lemma_walk_splice(g, q, i, j);
        let q2 = q.subrange(0, i + 1) + q.subrange(j + 1, q.len() as int);
        lemma_walk_shorten(g, q2);
        let q3 = choose|q3: Seq<(int, int)>|
            #[trigger] is_walk(g, q3)
            && q3.first().0 == q2.first().0
            && q3.last().0 == q2.last().0
            && wsum(q3) <= wsum(q2)
            && q3.len() <= g.nodes();
        assert(is_walk(g, q3) && q3.first().0 == q.first().0 && q3.last().0 == q.last().0
            && wsum(q3) <= wsum(q) && q3.len() <= g.nodes());
    }
}

/// Every reachable node is reachable within weight `(nodes - 1) * max_w`:
/// the shortest distance of the graph never exceeds that bound.
pub proof fn lemma_min_reach_bound(g: Graph, s: int, v: int, d: int)
    requires
        g.wf(),
        reaches(g, s, v, d),
    ensures
        exists|d2: int|
            #[trigger] reaches(g, s, v, d2) && d2 <= d && 0 <= d2 <= (g.nodes() - 1) * g.max_w(),
{
    let q = choose|q: Seq<(int, int)>| #[trigger] walk_from_to(g, q, s, v) && wsum(q) == d;
    lemma_walk_shorten(g, q);
    let q2 = choose|q2: Seq<(int, int)>|
        #[trigger] is_walk(g, q2)
        && q2.first().0 == q.first().0
        && q2.last().0 == q.last().0
        && wsum(q2) <= wsum(q)
        && q2.len() <= g.nodes();
    lemma_walk_weight_bound(g, q2);
    lemma_mul_inequality(q2.len() - 1, g.nodes() - 1, g.max_w());
    assert(walk_from_to(g, q2, s, v));
    assert(reaches(g, s, v, wsum(q2)));
}

/// Every reach distance is non-negative.
pub proof fn lemma_reach_nonneg(g: Graph, s: int, v: int, d: int)
    requires
        reaches(g, s, v, d),
    ensures
        d >= 0,
{
    let q = choose|q: Seq<(int, int)>| #[trigger] walk_from_to(g, q, s, v) && wsum(q) == d;
    lemma_walk_steps_nonneg(g, q);
    lemma_wsum_nonneg(q);
}

/// The shortest-distance entry of a node is unique.
pub proof fn lemma_dist_entry_unique(g: Graph, s: int, v: int, e1: Option<usize>, e2: Option<usize>)
    requires
        is_dist_entry(g, s, v, e1),
        is_dist_entry(g, s, v, e2),
    ensures
        e1 == e2,
{
    match (e1, e2) {
        (Some(d1), Some(d2)) => {
            assert(reaches(g, s, v, d1 as int));
            assert(reaches(g, s, v, d2 as int));
        },
        (Some(d1), None) => {
            assert(reaches(g, s, v, d1 as int));
        },
        (None, Some(d2)) => {
            assert(reaches(g, s, v, d2 as int));
        },
        (None, None) => {},
    }
}

/// Two correct shortest-distance tables for the same source are
/// identical: any two solvers that meet the table specification, and any
/// two runs of the same solver, agree on every entry.
pub proof fn lemma_dist_table_unique(g: Graph, s: int, t1: Seq<Option<usize>>, t2: Seq<Option<usize>>)
    requires
        is_dist_table(g, s, t1),
        is_dist_table(g, s, t2),
    ensures
        t1 == t2,
{
    assert forall|v: int| 0 <= v < t1.len() implies t1[v] == t2[v] by {
        lemma_dist_entry_unique(g, s, v, t1[v], t2[v]);
    }
    assert(t1 =~= t2);
}

/// A point-to-point answer that meets the entry specification equals the
/// target's entry of any correct single-source table.
pub proof fn lemma_point_to_point_consistent(
    g: Graph,
    s: int,
    v: int,
    o: Option<usize>,
    t: Seq<Option<usize>>,
)
    requires
        0 <= v < g.nodes(),
        is_dist_entry(g, s, v, o),
        is_dist_table(g, s, t),
    ensures
        o == t[v],
{
    lemma_dist_entry_unique(g, s, v, o, t[v]);
}

/// Cross-algorithm agreement, and idempotence: any two results that meet
/// the single-source contract for the same graph and source are
/// identical — across the three solvers, and across repeated runs of any
/// one of them against an unmodified graph.
pub proof fn lemma_single_source_agree(
    g: Graph,
    s: int,
    r1: Result<Vec<Option<usize>>, GraphError>,
    r2: Result<Vec<Option<usize>>, GraphError>,
)
    requires
        ss_post(g, s, r1),
        ss_post(g, s, r2),
    ensures
        match (r1, r2) {
            (Ok(t1), Ok(t2)) => t1@ == t2@,
            (Err(e1), Err(e2)) => e1 == e2,
            _ => false,
        },
{
    match (r1, r2) {
        (Ok(t1), Ok(t2)) => {
            lemma_dist_table_unique(g, s, t1@, t2@);
        },
        (Err(e1), Err(e2)) => {},
        (Ok(t1), Err(e2)) => {},
        (Err(e1), Ok(t2)) => {},
    }
}

/// Point-to-point/single-source consistency: a point-to-point answer
/// equals the target's entry of the single-source table; with the one
/// boundary exception that `source == target` is answered at once even
/// where a full run would refuse an oversized graph.
pub proof fn lemma_p2p_ss_consistent(
    g: Graph,
    s: int,
    t: int,
    rp: Result<Option<usize>, GraphError>,
    rs: Result<Vec<Option<usize>>, GraphError>,
)
    requires
        g.wf(),
        0 <= s < g.nodes(),
        0 <= t < g.nodes(),
        p2p_post(g, s, t, rp),
        ss_post(g, s, rs),
    ensures
        match (rp, rs) {
            (Ok(o), Ok(tbl)) => o == tbl@[t],
            (Err(e1), Err(e2)) => e1 == e2,
            (Ok(o), Err(e)) => s == t && o == Some(0usize),
            (Err(e), Ok(tbl)) => false,
        },
{
    match (rp, rs) {
        (Ok(o), Ok(tbl)) => {
            if s == t {
                lemma_source_distance_zero(g, s);
                lemma_dist_entry_unique(g, s, t, Some(0usize), tbl@[t]);
            } else {
                lemma_dist_entry_unique(g, s, t, o, tbl@[t]);
            }
        },
        _ => {},
    }
}

/// The source's own entry is distance 0.
pub proof fn lemma_source_distance_zero(g: Graph, s: int)
    requires
        g.wf(),
        0 <= s < g.nodes(),
    ensures
        is_dist_entry(g, s, s, Some(0usize)),
{
    lemma_reaches_self(g, s);
    assert forall|d2: int| #[trigger] reaches(g, s, s, d2) implies 0 <= d2 by {
        lemma_reach_nonneg(g, s, s, d2);
    }
}

/// The triangle inequality: after a correct single-source run, for every
/// edge `(u, v, w)` with `u` reached, `v` is reached and
/// `distance[v] <= distance[u] + w`.
pub proof fn lemma_triangle_inequality(
    g: Graph,
    s: int,
    t: Seq<Option<usize>>,
    u: int,
    v: int,
    w: int,
)
    requires
        g.wf(),
        is_dist_table(g, s, t),
        has_edge(g, u, v, w),
        reached(t, u),
    ensures
        0 <= v < g.nodes(),
        reached(t, v),
        dist_at(t, v) <= dist_at(t, u) + w,
{
    let i = choose|i: int|
        0 <= i < g.adj_seq()[u].len()
        && ((#[trigger] g.adj_seq()[u][i]).0 as int) == v
        && (g.adj_seq()[u][i].1 as int) == w;
    assert(0 <= v < g.nodes());
    assert(is_dist_entry(g, s, u, t[u]));
    let du: int = dist_at(t, u);
    assert(reaches(g, s, u, du));
    lemma_reaches_step(g, s, u, du, v, w);
    assert(is_dist_entry(g, s, v, t[v]));
    match t[v] {
        Some(_) => {},
        None => {
            assert(!reaches(g, s, v, du + w));
        },
    }
}

/// Every reached node other than the source has an incoming edge on which
/// the triangle inequality is tight: a shortest walk enters it somewhere.
pub proof fn lemma_tight_incoming_edge(g: Graph, s: int, t: Seq<Option<usize>>, v: int)
    requires
        g.wf(),
        is_dist_table(g, s, t),
        0 <= v < g.nodes(),
        v != s,
        reached(t, v),
    ensures
        exists|u: int, w: int|
            #[trigger] has_edge(g, u, v, w) && reached(t, u)
            && dist_at(t, u) + w == dist_at(t, v),
{
    assert(is_dist_entry(g, s, v, t[v]));
    let dv: int = dist_at(t, v);
    assert(reaches(g, s, v, dv));
    let q = choose|q: Seq<(int, int)>| #[trigger] walk_from_to(g, q, s, v) && wsum(q) == dv;
    assert(q.len() >= 2) by {
        if q.len() == 1 {
            assert(q.last() == q.first());
        }
    }
    let q2 = q.drop_last();
    assert(is_walk(g, q2)) by {
        assert(q2[0] == q[0]);
        assert forall|j: int| 1 <= j < q2.len() implies has_edge(
            g,
            q2[j - 1].0,
            (#[trigger] q2[j]).0,
            q2[j].1,
        ) by {
            assert(q2[j] == q[j]);
            assert(q2[j - 1] == q[j - 1]);
        }
    }
    let jl: int = q.len() - 1;
    let u: int = q[jl - 1].0;
    let w: int = q[jl].1;
    assert(has_edge(g, u, v, w));
    assert(q2.last().0 == u);
    assert(walk_from_to(g, q2, s, u));
    lemma_reaches_intro(g, q2, s, u);
    assert(reaches(g, s, u, dv - w));
    lemma_walk_nodes_in_range(g, q);
    assert(0 <= u < g.nodes());
    assert(is_dist_entry(g, s, u, t[u]));
    match t[u] {
        Some(_) => {},
        None => {
            assert(!reaches(g, s, u, dv - w));
        },
    }
    assert(reached(t, u));
    assert(dist_at(t, u) <= dv - w);
    lemma_triangle_inequality(g, s, t, u, v, w);
    assert(dist_at(t, u) + w == dv);
}

/// The cut argument: while the settled set is exact and relaxed, any walk
/// from the source to an unsettled node weighs at least the smallest
/// tentative distance of the unsettled nodes.
pub proof fn lemma_cut(
    g: Graph,
    s: int,
    dist: Seq<Option<usize>>,
    ss: Set<int>,
    dmin: int,
    q: Seq<(int, int)>,
)
    requires
        g.wf(),
        0 <= s < g.nodes(),
        dist.len() == g.nodes(),
        dist[s] == Some(0usize),
        settled_min_ok(g, s, dist, ss),
        settled_relaxed_ok(g, dist, ss),
        forall|u: int|
            0 <= u < g.nodes() && !(#[trigger] ss.contains(u)) && reached(dist, u)
            ==> dmin <= dist_at(dist, u),
        is_walk(g, q),
        q.first().0 == s,
        !ss.contains(q.last().0),
    ensures
        dmin <= wsum(q),
    decreases q.len(),
{
    lemma_walk_nodes_in_range(g, q);
    if q.len() == 1 {
        assert(q.last() == q.first());
        assert(wsum(q) == wsum(q.drop_last()) + q.last().1);
        assert(wsum(q.drop_last()) == 0) by {
            assert(q.drop_last() =~= Seq::<(int, int)>::empty());
            assert(wsum(Seq::<(int, int)>::empty()) == 0);
        }
        assert(reached(dist, s));
        assert(dist_at(dist, s) == 0);
    } else {
        let q2 = q.drop_last();
        assert(is_walk(g, q2)) by {
            assert(q2[0] == q[0]);
            assert forall|j: int| 1 <= j < q2.len() implies has_edge(
                g,
                q2[j - 1].0,
                (#[trigger] q2[j]).0,
                q2[j].1,
            ) by {
                assert(q2[j] == q[j]);
                assert(q2[j - 1] == q[j - 1]);
            }
        }
        let jl: int = q.len() - 1;
        let u: int = q[jl - 1].0;
        let v: int = q[jl].0;
        let w: int = q[jl].1;
        assert(has_edge(g, u, v, w));
        assert(q2.last().0 == u);
        assert(wsum(q) == wsum(q2) + w);
        if ss.contains(u) {
            assert(walk_from_to(g, q2, s, u));
            lemma_reaches_intro(g, q2, s, u);
            assert(dist_at(dist, u) <= wsum(q2));
            let i = choose|i: int|
                0 <= i < g.adj_seq()[u].len()
                && ((#[trigger] g.adj_seq()[u][i]).0 as int) == v
                && (g.adj_seq()[u][i].1 as int) == w;
            let e = g.adj_seq()[u][i];
            assert(reached(dist, e.0 as int)
                && dist_at(dist, e.0 as int) <= dist_at(dist, u) + e.1 as int);
            assert(dmin <= dist_at(dist, v));
        } else {
            lemma_cut(g, s, dist, ss, dmin, q2);
        }
    }
}

/// The cut argument, stated for one unsettled node of least tentative
/// distance: its tentative distance undercuts every walk to it, and is
/// therefore final.
pub proof fn lemma_cut_min(g: Graph, s: int, dist: Seq<Option<usize>>, ss: Set<int>, v: int)
    requires
        g.wf(),
        0 <= s < g.nodes(),
        dist.len() == g.nodes(),
        dist[s] == Some(0usize),
        settled_min_ok(g, s, dist, ss),
        settled_relaxed_ok(g, dist, ss),
        0 <= v < g.nodes(),
        !ss.contains(v),
        reached(dist, v),
        forall|u: int|
            0 <= u < g.nodes() && !(#[trigger] ss.contains(u)) && reached(dist, u)
            ==> dist_at(dist, v) <= dist_at(dist, u),
    ensures
        forall|d2: int| #[trigger] reaches(g, s, v, d2) ==> dist_at(dist, v) <= d2,
{
    assert forall|d2: int| #[trigger] reaches(g, s, v, d2) implies dist_at(dist, v) <= d2 by {
        let q = choose|q: Seq<(int, int)>| #[trigger] walk_from_to(g, q, s, v) && wsum(q) == d2;
        lemma_cut(g, s, dist, ss, dist_at(dist, v), q);
    }
}

/// When every reached node is settled and every settled node is relaxed,
/// a walk that starts at a reached node ends at a reached node: nothing
/// reachable escapes the table.
pub proof fn lemma_settled_walk(g: Graph, dist: Seq<Option<usize>>, ss: Set<int>, q: Seq<(int, int)>)
    requires
        g.wf(),
        dist.len() == g.nodes(),
        settled_relaxed_ok(g, dist, ss),
        forall|v: int| 0 <= v < g.nodes() && #[trigger] reached(dist, v) ==> ss.contains(v),
        is_walk(g, q),
        reached(dist, q.first().0),
    ensures
        reached(dist, q.last().0),
    decreases q.len(),
{
    lemma_walk_nodes_in_range(g, q);
    if q.len() > 1 {
        let q2 = q.drop_last();
        assert(is_walk(g, q2)) by {
            assert(q2[0] == q[0]);
            assert forall|j: int| 1 <= j < q2.len() implies has_edge(
                g,
                q2[j - 1].0,
                (#[trigger] q2[j]).0,
                q2[j].1,
            ) by {
                assert(q2[j] == q[j]);
                assert(q2[j - 1] == q[j - 1]);
            }
        }
        assert(q2.first() == q.first());
        lemma_settled_walk(g, dist, ss, q2);
        let jl: int = q.len() - 1;
        let u: int = q[jl - 1].0;
        assert(q2.last().0 == u);
        assert(ss.contains(u));
        let i = choose|i: int|
            0 <= i < g.adj_seq()[u].len()
            && ((#[trigger] g.adj_seq()[u][i]).0 as int) == q[jl].0
            && (g.adj_seq()[u][i].1 as int) == q[jl].1;
        let e = g.adj_seq()[u][i];
        assert(reached(dist, e.0 as int));
    }
}

/// Inserting an in-range node keeps the settled set a finite subset of
/// the node range, so its size stays bounded by `n`.
pub proof fn lemma_settled_insert(n: int, ss: Set<int>, v: int)
    requires
        ss.finite(),
        ss.subset_of(vstd::set_lib::set_int_range(0, n)),
        0 <= v < n,
    ensures
        ss.insert(v).finite(),
        ss.insert(v).subset_of(vstd::set_lib::set_int_range(0, n)),
        ss.insert(v).len() <= n,
        !ss.contains(v) ==> ss.insert(v).len() == ss.len() + 1,
        ss.contains(v) ==> ss.insert(v) == ss,
{
    lemma_int_range(0, n);
    lemma_len_subset(ss.insert(v), vstd::set_lib::set_int_range(0, n));
    if ss.contains(v) {
        assert(ss.insert(v) =~= ss);
    }
}

/// When a solver loop ends with every reached node settled, its table is
/// the shortest-distance table.
pub proof fn lemma_final_table(g: Graph, s: int, m: int, dist: Seq<Option<usize>>, ss: Set<int>)
    requires
        g.wf(),
        0 <= s < g.nodes(),
        table_ok(g, s, m, dist),
        settled_min_ok(g, s, dist, ss),
        settled_relaxed_ok(g, dist, ss),
        forall|v: int| 0 <= v < g.nodes() && #[trigger] reached(dist, v) ==> ss.contains(v),
    ensures
        is_dist_table(g, s, dist),
{
    assert forall|v: int| 0 <= v < g.nodes() implies is_dist_entry(g, s, v, #[trigger] dist[v]) by {
        if reached(dist, v) {
            assert(ss.contains(v));
            match dist[v] {
                Some(d) => {
                    assert(dist_at(dist, v) == d as int);
                    assert(reaches(g, s, v, d as int));
                },
                None => {},
            }
        } else {
            assert(reached(dist, s));
            lemma_unreached_unreachable(g, s, dist, ss, v);
        }
    }
}

/// At a solver's end, an unreached node is unreachable.
pub proof fn lemma_unreached_unreachable(
    g: Graph,
    s: int,
    dist: Seq<Option<usize>>,
    ss: Set<int>,
    v: int,
)
    requires
        g.wf(),
        0 <= s < g.nodes(),
        dist.len() == g.nodes(),
        reached(dist, s),
        settled_relaxed_ok(g, dist, ss),
        forall|u: int| 0 <= u < g.nodes() && #[trigger] reached(dist, u) ==> ss.contains(u),
        0 <= v < g.nodes(),
        !reached(dist, v),
    ensures
        forall|d2: int| !(#[trigger] reaches(g, s, v, d2)),
{
    assert forall|d2: int| !(#[trigger] reaches(g, s, v, d2)) by {
        if reaches(g, s, v, d2) {
            let q = choose|q: Seq<(int, int)>| #[trigger] walk_from_to(g, q, s, v) && wsum(q) == d2;
            lemma_settled_walk(g, dist, ss, q);
        }
    }
}

} // verus!
