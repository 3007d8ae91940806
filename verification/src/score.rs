//! The mathematical score model: the cost of an edge, the cost of a tour,
//! occurrence counts, and the well-formedness of a visiting order.  The
//! lemmas here say how the cost of a tour changes under the splices the
//! neighborhood moves perform: inserting, removing or replacing one entry,
//! and reversing a segment.

use vstd::prelude::*;
use crate::geometry::{Point, in_map, sq_dist, lemma_sq_dist_bounds};

verus! {

/// Cost multiplier of an edge endpoint that is a mandatory waypoint.
pub const MULTIPLIER: i64 = 5;

/// Cap on the length of any visiting order the engine builds.  It keeps
/// every tour cost below `MAX_TOUR_LEN * MAX_EDGE_COST`, far inside `i64`.
pub const MAX_TOUR_LEN: usize = 0x4000_0000;

/// Largest cost a single edge can have on the map.
pub const MAX_EDGE_COST: i64 = 50_000_000;

/// Everything the score of an order depends on besides the order itself:
/// the count of mandatory waypoints, the precomputed mandatory-to-mandatory
/// distance oracle, and the live waypoint coordinates.
pub ghost struct Metric {
    /// Count of mandatory waypoints; indices `0..n` are mandatory.
    pub n: int,
    /// The `n x n` oracle of discounted squared distances.
    pub dmat: Seq<Seq<i64>>,
    /// Coordinates of all waypoints, mandatory first, then stations.
    pub pts: Seq<Point>,
}

/// Discount multiplier of waypoint `v`: mandatory waypoints pay
/// `MULTIPLIER`, stations pay 1.
pub open spec fn spec_mul(v: int, n: int) -> int {
    if v < n {
        MULTIPLIER as int
    } else {
        1
    }
}

/// The oracle is a square symmetric matrix of non-negative entries, each
/// no larger than the direct fully-discounted edge.
pub open spec fn oracle_ok(n: int, dmat: Seq<Seq<i64>>, pts: Seq<Point>) -> bool {
    &&& dmat.len() == n
    &&& forall|i: int| 0 <= i < n ==> (#[trigger] dmat[i]).len() == n
    &&& forall|i: int, j: int|
        0 <= i < n && 0 <= j < n ==> 0 <= #[trigger] dmat[i][j] <= 25 * sq_dist(pts[i], pts[j])
    &&& forall|i: int, j: int| 0 <= i < n && 0 <= j < n ==> #[trigger] dmat[i][j] == dmat[j][i]
}

/// The oracle satisfies the triangle inequality.
pub open spec fn oracle_triangle(n: int, dmat: Seq<Seq<i64>>) -> bool {
    forall|i: int, j: int, k: int|
        0 <= i < n && 0 <= j < n && 0 <= k < n ==> #[trigger] dmat[i][j] <= #[trigger] dmat[i][k]
            + dmat[k][j]
}

/// A usable metric: at least the depot among the waypoints, every
/// coordinate on the map, and a well-formed oracle.
pub open spec fn metric_ok(m: Metric) -> bool {
    &&& 1 <= m.n <= m.pts.len()
    &&& forall|i: int| 0 <= i < m.pts.len() ==> in_map(#[trigger] m.pts[i])
    &&& oracle_ok(m.n, m.dmat, m.pts)
}

/// Cost of travelling the edge `a -> b`: the oracle entry when both ends
/// are mandatory, else the discounted squared distance.
pub open spec fn edge_cost(m: Metric, a: int, b: int) -> int {
    if a < m.n && b < m.n {
        m.dmat[a][b] as int
    } else {
        spec_mul(a, m.n) * spec_mul(b, m.n) * sq_dist(m.pts[a], m.pts[b])
    }
}

/// Total cost of a visiting order: the sum of the costs of its
/// consecutive edges.
pub open spec fn tour_cost(m: Metric, o: Seq<usize>) -> int
    decreases o.len(),
{
    if o.len() < 2 {
        0
    } else {
        edge_cost(m, o[0] as int, o[1] as int) + tour_cost(m, o.drop_first())
    }
}

/// Number of occurrences of `v` in `o`.
pub open spec fn count_occ(o: Seq<usize>, v: usize) -> int
    decreases o.len(),
{
    if o.len() == 0 {
        0
    } else {
        count_occ(o.drop_first(), v) + if o[0] == v {
            1int
        } else {
            0int
        }
    }
}

/// All entries of the order are waypoint indices below `total`.
pub open spec fn entries_below(o: Seq<usize>, total: int) -> bool {
    forall|k: int| 0 <= k < o.len() ==> (#[trigger] o[k]) < total
}

/// No two adjacent entries of the order are equal.
pub open spec fn no_adjacent_repeat(o: Seq<usize>) -> bool {
    forall|k: int| 0 <= k < o.len() - 1 ==> #[trigger] o[k] != o[k + 1]
}

/// A well-formed visiting order over `n` mandatory waypoints and
/// `total - n` stations: it begins and ends at the depot, every
/// mandatory waypoint is visited exactly once (the depot exactly twice,
/// its two framing visits), and no two adjacent entries are equal — but
/// for the depot-only round trip, whose two entries are both the depot.
pub open spec fn order_ok(n: int, total: int, o: Seq<usize>) -> bool {
    &&& 2 <= o.len() <= MAX_TOUR_LEN
    &&& o[0] == 0usize
    &&& o[o.len() - 1] == 0usize
    &&& entries_below(o, total)
    &&& count_occ(o, 0usize) == 2
    &&& (forall|v: usize| 0 < v < n ==> #[trigger] count_occ(o, v) == 1)
    &&& (o.len() == 2 || no_adjacent_repeat(o))
}

/// `a` is a subsequence of `b`: `a`'s entries occur in `b` in order.
pub open spec fn subseq_of(a: Seq<usize>, b: Seq<usize>) -> bool
    decreases b.len(), a.len(),
{
    if a.len() == 0 {
        true
    } else if b.len() == 0 {
        false
    } else if a[0] == b[0] {
        subseq_of(a.drop_first(), b.drop_first())
    } else {
        subseq_of(a, b.drop_first())
    }
}

/// A subsequence survives extending the carrier on the right.
pub proof fn lemma_subseq_extend(a: Seq<usize>, b: Seq<usize>, c: Seq<usize>)
    requires
        subseq_of(a, b),
    ensures
        subseq_of(a, b + c),
    decreases b.len(),
{
    if a.len() == 0 {
        assert(subseq_of(a, b + c));
    } else {
        assert(b.len() > 0);
        assert((b + c).drop_first() =~= b.drop_first() + c);
        if a[0] == b[0] {
            lemma_subseq_extend(a.drop_first(), b.drop_first(), c);
        } else {
            lemma_subseq_extend(a, b.drop_first(), c);
        }
        assert((b + c)[0] == b[0]);
    }
}

/// A single entry is a subsequence of anything that ends with it.
pub proof fn lemma_subseq_singleton(x: usize, d: Seq<usize>)
    ensures
        subseq_of(seq![x], d.push(x)),
    decreases d.len(),
{
    let g = d.push(x);
    if d.len() == 0 {
        assert(g[0] == x);
        assert(seq![x].drop_first() =~= Seq::<usize>::empty());
        assert(g.drop_first() =~= Seq::<usize>::empty());
        assert(subseq_of(Seq::<usize>::empty(), Seq::<usize>::empty()));
    } else {
        lemma_subseq_singleton(x, d.drop_first());
        assert(g.drop_first() =~= d.drop_first().push(x));
        assert(g[0] == d[0]);
        if x == d[0] {
            assert(seq![x].drop_first() =~= Seq::<usize>::empty());
            assert(subseq_of(Seq::<usize>::empty(), g.drop_first()));
        }
    }
}

/// Appending the same entry to a subsequence and its carrier keeps the
/// subsequence.
pub proof fn lemma_subseq_push(a: Seq<usize>, b: Seq<usize>, x: usize)
    requires
        subseq_of(a, b),
    ensures
        subseq_of(a.push(x), b.push(x)),
    decreases b.len(),
{
    if a.len() == 0 {
        lemma_subseq_singleton(x, b);
        assert(a.push(x) =~= seq![x]);
    } else {
        assert(b.len() > 0);
        assert((a.push(x)).drop_first() =~= a.drop_first().push(x));
        assert((b.push(x)).drop_first() =~= b.drop_first().push(x));
        assert((a.push(x))[0] == a[0] && (b.push(x))[0] == b[0]);
        if a[0] == b[0] {
            lemma_subseq_push(a.drop_first(), b.drop_first(), x);
        } else {
            lemma_subseq_push(a, b.drop_first(), x);
        }
    }
}

/// The metric whose oracle holds exactly the direct fully-discounted
/// distances: under it a tour is priced edge by edge, with no shortcut
/// entries.  It is the weight model of the explicit waypoint graph.
pub open spec fn true_metric(pts: Seq<Point>, n: int) -> Metric {
    Metric {
        n,
        dmat: Seq::new(n as nat, |i: int| Seq::new(n as nat, |j: int| (25 * sq_dist(pts[i], pts[j])) as i64)),
        pts,
    }
}

/// Cost of a walk through the explicit waypoint graph.
pub open spec fn walk_cost(pts: Seq<Point>, n: int, wk: Seq<usize>) -> int {
    tour_cost(true_metric(pts, n), wk)
}

/// The true metric over on-map points is well formed.
pub proof fn lemma_true_metric_ok(pts: Seq<Point>, n: int)
    requires
        1 <= n <= pts.len(),
        forall|i: int| 0 <= i < pts.len() ==> in_map(#[trigger] pts[i]),
    ensures
        metric_ok(true_metric(pts, n)),
{
    let m = true_metric(pts, n);
    assert forall|i: int, j: int| 0 <= i < n && 0 <= j < n implies 0 <= #[trigger] m.dmat[i][j]
        <= 25 * sq_dist(pts[i], pts[j]) && m.dmat[i][j] == m.dmat[j][i] by {
        lemma_sq_dist_bounds(pts[i], pts[j]);
        assert(m.dmat[i][j] == (25 * sq_dist(pts[i], pts[j])) as i64);
        assert(m.dmat[j][i] == (25 * sq_dist(pts[j], pts[i])) as i64);
    }
}

/// Under the true metric an edge between two mandatory waypoints costs
/// exactly the direct fully-discounted distance, so every edge of a
/// well-formed metric costs at most its true-metric counterpart.
pub proof fn lemma_edge_cost_undercut(m: Metric, a: int, b: int)
    requires
        metric_ok(m),
        0 <= a < m.pts.len(),
        0 <= b < m.pts.len(),
    ensures
        edge_cost(m, a, b) <= edge_cost(true_metric(m.pts, m.n), a, b),
        !(a < m.n && b < m.n) ==> edge_cost(m, a, b) == edge_cost(true_metric(m.pts, m.n), a, b),
{
    let t = true_metric(m.pts, m.n);
    if a < m.n && b < m.n {
        lemma_sq_dist_bounds(m.pts[a], m.pts[b]);
        assert(t.dmat[a][b] == (25 * sq_dist(m.pts[a], m.pts[b])) as i64);
    }
}

/// A whole tour under a well-formed metric costs at most the same walk
/// through the explicit graph.
pub proof fn lemma_tour_cost_undercut(m: Metric, o: Seq<usize>)
    requires
        metric_ok(m),
        entries_below(o, m.pts.len() as int),
    ensures
        tour_cost(m, o) <= walk_cost(m.pts, m.n, o),
    decreases o.len(),
{
    if o.len() >= 2 {
        let d = o.drop_first();
        assert(entries_below(d, m.pts.len() as int));
        lemma_tour_cost_undercut(m, d);
        lemma_edge_cost_undercut(m, o[0] as int, o[1] as int);
    }
}

/// A walk through waypoints below `n` costs the same under any two
/// coordinate tables that agree below `n`.
pub proof fn lemma_walk_cost_prefix_agree(pts1: Seq<Point>, pts2: Seq<Point>, n: int, wk: Seq<usize>)
    requires
        forall|i: int| 0 <= i < n ==> #[trigger] pts1[i] == pts2[i],
        forall|k: int| 0 <= k < wk.len() ==> (#[trigger] wk[k] as int) < n,
    ensures
        walk_cost(pts1, n, wk) == walk_cost(pts2, n, wk),
    decreases wk.len(),
{
    let t1 = true_metric(pts1, n);
    let t2 = true_metric(pts2, n);
    if wk.len() >= 2 {
        lemma_walk_cost_prefix_agree(pts1, pts2, n, wk.drop_first());
        let a = wk[0] as int;
        let b = wk[1] as int;
        assert(t1.dmat[a][b] == (25 * sq_dist(pts1[a], pts1[b])) as i64);
        assert(t2.dmat[a][b] == (25 * sq_dist(pts2[a], pts2[b])) as i64);
        assert(pts1[a] == pts2[a] && pts1[b] == pts2[b]);
    }
}

/// Joining two walks at a shared waypoint adds their costs.
pub proof fn lemma_walk_join(pts: Seq<Point>, n: int, c1: Seq<usize>, c2: Seq<usize>)
    requires
        c1.len() >= 1,
        c2.len() >= 1,
        c1.last() == c2[0],
    ensures
        walk_cost(pts, n, c1 + c2.drop_first()) == walk_cost(pts, n, c1) + walk_cost(pts, n, c2),
{
    let t = true_metric(pts, n);
    if c2.len() == 1 {
        assert(c1 + c2.drop_first() =~= c1);
    } else {
        lemma_tour_cost_concat(t, c1, c2.drop_first());
        assert(c2.drop_first()[0] == c2[1]);
        assert(tour_cost(t, c2) == edge_cost(t, c2[0] as int, c2[1] as int) + tour_cost(
            t,
            c2.drop_first(),
        ));
    }
}

/// A chain from `a` to `b` whose waypoints all lie below `n`.
pub open spec fn chain_ok(c: Seq<usize>, a: int, b: int, n: int) -> bool {
    &&& c.len() >= 1
    &&& (c[0] as int) == a
    &&& (c.last() as int) == b
    &&& (forall|k: int| 0 <= k < c.len() ==> (#[trigger] c[k] as int) < n)
}

/// Some relay chain below `n` leads from `a` to `b` at exactly the
/// given cost.
pub open spec fn chain_to(pts: Seq<Point>, n: int, cost: int, a: int, b: int) -> bool {
    exists|c: Seq<usize>| chain_ok(c, a, b, n) && #[trigger] walk_cost(pts, n, c) == cost
}

/// Every oracle entry is the cost of some actual relay chain through
/// the mandatory waypoints.
pub open spec fn oracle_reachable(n: int, dmat: Seq<Seq<i64>>, pts: Seq<Point>) -> bool {
    forall|i: int, j: int|
        0 <= i < n && 0 <= j < n ==> #[trigger] chain_to(pts, n, dmat[i][j] as int, i, j)
}

/// An edge's cost is non-negative, bounded by `MAX_EDGE_COST`, and
/// independent of direction.
pub proof fn lemma_edge_cost_bounds(m: Metric, a: int, b: int)
    requires
        metric_ok(m),
        0 <= a < m.pts.len(),
        0 <= b < m.pts.len(),
    ensures
        0 <= edge_cost(m, a, b) <= MAX_EDGE_COST,
        edge_cost(m, a, b) == edge_cost(m, b, a),
{
    lemma_sq_dist_bounds(m.pts[a], m.pts[b]);
    lemma_sq_dist_bounds(m.pts[b], m.pts[a]);
    if a < m.n && b < m.n {
    } else {
        let s = sq_dist(m.pts[a], m.pts[b]);
        assert(spec_mul(a, m.n) * spec_mul(b, m.n) * s == spec_mul(b, m.n) * spec_mul(a, m.n) * s)
            by (nonlinear_arith);
        assert(0 <= spec_mul(a, m.n) * spec_mul(b, m.n) * s <= 25 * s) by (nonlinear_arith)
            requires
                s >= 0,
                spec_mul(a, m.n) == 1 || spec_mul(a, m.n) == 5,
                spec_mul(b, m.n) == 1 || spec_mul(b, m.n) == 5,
        ;
    }
}

/// Splitting a tour at a junction splits its cost at the junction edge.
pub proof fn lemma_tour_cost_concat(m: Metric, a: Seq<usize>, b: Seq<usize>)
    requires
        a.len() >= 1,
        b.len() >= 1,
    ensures
        tour_cost(m, a + b) == tour_cost(m, a) + edge_cost(
            m,
            a.last() as int,
            b[0] as int,
        ) + tour_cost(m, b),
    decreases a.len(),
{
    if a.len() == 1 {
        assert((a + b).drop_first() =~= b);
        assert((a + b)[0] == a[0]);
    } else {
        assert((a + b).drop_first() =~= a.drop_first() + b);
        lemma_tour_cost_concat(m, a.drop_first(), b);
        assert((a + b)[0] == a[0] && (a + b)[1] == a[1]);
        assert(a.drop_first().last() == a.last());
    }
}

/// Appending one entry adds one closing edge.
pub proof fn lemma_tour_cost_push(m: Metric, o: Seq<usize>, v: usize)
    requires
        o.len() >= 1,
    ensures
        tour_cost(m, o.push(v)) == tour_cost(m, o) + edge_cost(m, o.last() as int, v as int),
{
    assert(o.push(v) =~= o + seq![v]);
    lemma_tour_cost_concat(m, o, seq![v]);
}

/// Inserting an entry between two neighbors replaces their edge by the
/// two edges through the newcomer.
pub proof fn lemma_tour_cost_insert(m: Metric, o: Seq<usize>, j: int, v: usize)
    requires
        1 <= j <= o.len() - 1,
    ensures
        tour_cost(m, o.insert(j, v)) == tour_cost(m, o) + edge_cost(m, o[j - 1] as int, v as int)
            + edge_cost(m, v as int, o[j] as int) - edge_cost(m, o[j - 1] as int, o[j] as int),
{
    let pre = o.subrange(0, j);
    let suf = o.subrange(j, o.len() as int);
    assert(o =~= pre + suf);
    assert(o.insert(j, v) =~= pre.push(v) + suf);
    lemma_tour_cost_concat(m, pre, suf);
    lemma_tour_cost_concat(m, pre.push(v), suf);
    lemma_tour_cost_push(m, pre, v);
    assert(pre.last() == o[j - 1]);
    assert(suf[0] == o[j]);
}

/// Removing an entry bridges its two neighbors directly.
pub proof fn lemma_tour_cost_remove(m: Metric, o: Seq<usize>, j: int)
    requires
        1 <= j <= o.len() - 2,
    ensures
        tour_cost(m, o.remove(j)) == tour_cost(m, o) - edge_cost(m, o[j - 1] as int, o[j] as int)
            - edge_cost(m, o[j] as int, o[j + 1] as int) + edge_cost(
            m,
            o[j - 1] as int,
            o[j + 1] as int,
        ),
{
    let pre = o.subrange(0, j);
    let suf = o.subrange(j + 1, o.len() as int);
    assert(o =~= pre.push(o[j]) + suf);
    assert(o.remove(j) =~= pre + suf);
    lemma_tour_cost_concat(m, pre.push(o[j]), suf);
    lemma_tour_cost_concat(m, pre, suf);
    lemma_tour_cost_push(m, pre, o[j]);
    assert(pre.last() == o[j - 1]);
    assert(suf[0] == o[j + 1]);
}

/// Replacing an entry swaps its two incident edges.
pub proof fn lemma_tour_cost_update(m: Metric, o: Seq<usize>, j: int, v: usize)
    requires
        1 <= j <= o.len() - 2,
    ensures
        tour_cost(m, o.update(j, v)) == tour_cost(m, o) - edge_cost(m, o[j - 1] as int, o[j] as int)
            - edge_cost(m, o[j] as int, o[j + 1] as int) + edge_cost(m, o[j - 1] as int, v as int)
            + edge_cost(m, v as int, o[j + 1] as int),
{
    let pre = o.subrange(0, j);
    let suf = o.subrange(j + 1, o.len() as int);
    assert(o =~= pre.push(o[j]) + suf);
    assert(o.update(j, v) =~= pre.push(v) + suf);
    lemma_tour_cost_concat(m, pre.push(o[j]), suf);
    lemma_tour_cost_concat(m, pre.push(v), suf);
    lemma_tour_cost_push(m, pre, o[j]);
    lemma_tour_cost_push(m, pre, v);
    assert(pre.last() == o[j - 1]);
    assert(suf[0] == o[j + 1]);
}

/// A tour read backwards costs the same, edges being directionless.
pub proof fn lemma_tour_cost_reverse(m: Metric, o: Seq<usize>)
    requires
        metric_ok(m),
        entries_below(o, m.pts.len() as int),
    ensures
        tour_cost(m, o.reverse()) == tour_cost(m, o),
    decreases o.len(),
{
    if o.len() < 2 {
        assert(o.reverse().len() == o.len());
    } else {
        let d = o.drop_first();
        assert(entries_below(d, m.pts.len() as int));
        lemma_tour_cost_reverse(m, d);
        assert(o.reverse() =~= d.reverse().push(o[0]));
        lemma_tour_cost_push(m, d.reverse(), o[0]);
        assert(d.reverse().last() == d[0] && d[0] == o[1]);
        lemma_edge_cost_bounds(m, o[0] as int, o[1] as int);
    }
}

/// Reversing an inner segment changes the cost by exactly the swap of
/// the two boundary edges.
pub proof fn lemma_tour_cost_two_opt(m: Metric, o: Seq<usize>, from: int, to: int)
    requires
        metric_ok(m),
        entries_below(o, m.pts.len() as int),
        1 <= from < to <= o.len() - 1,
    ensures
        tour_cost(
            m,
            o.subrange(0, from) + o.subrange(from, to).reverse() + o.subrange(to, o.len() as int),
        ) == tour_cost(m, o) + edge_cost(m, o[from - 1] as int, o[to - 1] as int) + edge_cost(
            m,
            o[from] as int,
            o[to] as int,
        ) - edge_cost(m, o[from - 1] as int, o[from] as int) - edge_cost(
            m,
            o[to - 1] as int,
            o[to] as int,
        ),
{
    let pre = o.subrange(0, from);
    let mid = o.subrange(from, to);
    let suf = o.subrange(to, o.len() as int);
    assert(o =~= pre + (mid + suf));
    lemma_tour_cost_concat(m, mid, suf);
    lemma_tour_cost_concat(m, pre, mid + suf);
    assert((mid + suf)[0] == mid[0]);
    assert(entries_below(mid, m.pts.len() as int));
    lemma_tour_cost_reverse(m, mid);
    let rev = mid.reverse();
    assert(rev[0] == mid.last() && rev.last() == mid[0]);
    lemma_tour_cost_concat(m, rev, suf);
    lemma_tour_cost_concat(m, pre, rev + suf);
    assert((rev + suf)[0] == rev[0]);
    assert(pre + rev + suf =~= pre + (rev + suf));
    assert(pre.last() == o[from - 1] && mid[0] == o[from]);
    assert(mid.last() == o[to - 1] && suf[0] == o[to]);
}

/// A tour over valid waypoints has a non-negative cost, at most
/// `MAX_EDGE_COST` per edge.
pub proof fn lemma_tour_cost_bounds(m: Metric, o: Seq<usize>)
    requires
        metric_ok(m),
        entries_below(o, m.pts.len() as int),
    ensures
        o.len() < 2 ==> tour_cost(m, o) == 0,
        o.len() >= 2 ==> 0 <= tour_cost(m, o) <= (o.len() - 1) * MAX_EDGE_COST,
    decreases o.len(),
{
    if o.len() >= 2 {
        let d = o.drop_first();
        assert(entries_below(d, m.pts.len() as int));
        lemma_tour_cost_bounds(m, d);
        lemma_edge_cost_bounds(m, o[0] as int, o[1] as int);
        assert((d.len() - 1) * MAX_EDGE_COST + MAX_EDGE_COST == (o.len() - 1) * MAX_EDGE_COST)
            by (nonlinear_arith)
            requires
                d.len() + 1 == o.len(),
                o.len() >= 2,
        ;
    }
}

/// Occurrences in a concatenation add up.
pub proof fn lemma_count_concat(a: Seq<usize>, b: Seq<usize>, v: usize)
    ensures
        count_occ(a + b, v) == count_occ(a, v) + count_occ(b, v),
    decreases a.len(),
{
    if a.len() == 0 {
        assert(a + b =~= b);
    } else {
        assert((a + b).drop_first() =~= a.drop_first() + b);
        lemma_count_concat(a.drop_first(), b, v);
        assert((a + b)[0] == a[0]);
    }
}

/// Occurrence counts are non-negative, and zero on an empty order.
pub proof fn lemma_count_nonneg(o: Seq<usize>, v: usize)
    ensures
        count_occ(o, v) >= 0,
        o.len() == 0 ==> count_occ(o, v) == 0,
    decreases o.len(),
{
    if o.len() > 0 {
        lemma_count_nonneg(o.drop_first(), v);
    }
}

/// Reversal keeps every occurrence count.
pub proof fn lemma_count_reverse(o: Seq<usize>, v: usize)
    ensures
        count_occ(o.reverse(), v) == count_occ(o, v),
    decreases o.len(),
{
    if o.len() == 0 {
        assert(o.reverse() =~= o);
    } else {
        let d = o.drop_first();
        lemma_count_reverse(d, v);
        assert(o.reverse() =~= d.reverse() + seq![o[0]]);
        lemma_count_concat(d.reverse(), seq![o[0]], v);
        lemma_count_singleton(o[0], v);
    }
}

/// The count of `v` in a singleton.
pub proof fn lemma_count_singleton(x: usize, v: usize)
    ensures
        count_occ(seq![x], v) == if x == v {
            1int
        } else {
            0int
        },
{
    let s = seq![x];
    assert(s.drop_first() =~= Seq::<usize>::empty());
    assert(count_occ(Seq::<usize>::empty(), v) == 0);
    assert(count_occ(s, v) == count_occ(s.drop_first(), v) + if s[0] == v {
        1int
    } else {
        0int
    });
}

/// No value occurs more often than the order is long.
pub proof fn lemma_count_le_len(o: Seq<usize>, v: usize)
    ensures
        count_occ(o, v) <= o.len(),
    decreases o.len(),
{
    if o.len() > 0 {
        lemma_count_le_len(o.drop_first(), v);
    }
}

/// Two distinct positions holding the same value make its count at
/// least two.
pub proof fn lemma_count_two_indices(o: Seq<usize>, v: usize, i: int, j: int)
    requires
        0 <= i < j < o.len(),
        o[i] == v,
        o[j] == v,
    ensures
        count_occ(o, v) >= 2,
{
    let pre = o.subrange(0, j);
    let suf = o.subrange(j, o.len() as int);
    assert(o =~= pre + suf);
    lemma_count_concat(pre, suf, v);
    assert(pre[i] == v);
    lemma_count_contains(pre, v);
    assert(pre.contains(v));
    assert(suf[0] == v);
    lemma_count_contains(suf, v);
    assert(suf.contains(v));
}

/// A positive count means the value occurs, and conversely.
pub proof fn lemma_count_contains(o: Seq<usize>, v: usize)
    ensures
        count_occ(o, v) >= 1 <==> o.contains(v),
    decreases o.len(),
{
    lemma_count_nonneg(o, v);
    if o.len() > 0 {
        lemma_count_contains(o.drop_first(), v);
        lemma_count_nonneg(o.drop_first(), v);
        if o.contains(v) {
            let k = choose|k: int| 0 <= k < o.len() && o[k] == v;
            if k > 0 {
                assert(o.drop_first()[k - 1] == v);
            }
        }
        if o.drop_first().contains(v) {
            let k = choose|k: int| 0 <= k < o.drop_first().len() && o.drop_first()[k] == v;
            assert(o[k + 1] == v);
        }
    }
}

} // verus!
