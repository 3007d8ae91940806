//! Path restoration: expands the best abstract order into an explicit
//! walk by splicing, between every consecutive pair, a true
//! shortest path through the live waypoints.  The search is proved
//! optimal — the spliced segment costs no more than any walk between its
//! endpoints — and the expanded order is proved to never cost more than
//! the abstract order it replaces.

use vstd::prelude::*;
use crate::geometry::{Point, in_map, sq_dist, lemma_sq_dist_bounds};
use crate::oracle::mat_view;
use crate::score::{
    true_metric, walk_cost, tour_cost, edge_cost, entries_below, count_occ, chain_ok,
    chain_to, spec_mul, order_ok, no_adjacent_repeat, subseq_of, lemma_subseq_extend,
    lemma_subseq_push, lemma_walk_join, lemma_true_metric_ok, lemma_edge_cost_bounds,
    lemma_tour_cost_bounds,
    lemma_tour_cost_push, lemma_tour_cost_concat, lemma_tour_cost_undercut,
    lemma_edge_cost_undercut, lemma_walk_cost_prefix_agree, lemma_count_concat,
    lemma_count_singleton, lemma_count_nonneg, lemma_count_contains, MAX_EDGE_COST,
};
use crate::state::{
    Input, State, input_ok, points_ok, state_metric, state_cost, get_score_mul,
    lemma_state_metric_ok,
};

verus! {

/// The true weight of the edge `a -> b` in the explicit waypoint graph.
pub open spec fn wedge(pts: Seq<Point>, n: int, a: int, b: int) -> int {
    edge_cost(true_metric(pts, n), a, b)
}

/// A walk from `s` to `t` through waypoints below `nv`.
pub open spec fn walk_ok(wk: Seq<usize>, s: int, t: int, nv: int) -> bool {
    &&& wk.len() >= 1
    &&& (wk[0] as int) == s
    &&& (wk.last() as int) == t
    &&& entries_below(wk, nv)
}

/// Every consecutive pair of the order is joined by an edge that no
/// walk between its endpoints can beat.
pub open spec fn edges_minimal(pts: Seq<Point>, n: int, nv: int, o: Seq<usize>) -> bool {
    forall|t: int, q: Seq<usize>|
        #![trigger o[t], walk_cost(pts, n, q)]
        0 <= t < o.len() - 1 && walk_ok(q, o[t] as int, o[t + 1] as int, nv) ==> walk_cost(
            pts,
            n,
            q,
        ) >= wedge(pts, n, o[t] as int, o[t + 1] as int)
}

/// Everything the restoration pass relies on about a spliced path
/// `path` from `prev` to `next`: prefixing `prev` gives a walk ending
/// at `next` through valid waypoints, never revisiting `prev`, never
/// repeating an adjacent entry; that walk undercuts every walk between
/// the two, each of its edges is minimal, and when the direct hop is
/// already minimal the path is exactly that hop.
pub open spec fn splice_facts(
    pts: Seq<Point>,
    n: int,
    nv: int,
    prev: usize,
    next: usize,
    path: Seq<usize>,
) -> bool {
    let full = seq![prev] + path;
    &&& full.last() == next
    &&& entries_below(full, nv)
    &&& (path.len() == 0 ==> prev == next)
    &&& (forall|t: int| 0 <= t < path.len() ==> #[trigger] path[t] != prev)
    &&& no_adjacent_repeat(full)
    &&& (forall|wk: Seq<usize>|
        walk_ok(wk, prev as int, next as int, nv) ==> walk_cost(pts, n, full)
            <= #[trigger] walk_cost(pts, n, wk))
    &&& edges_minimal(pts, n, nv, full)
    &&& (prev != next && (forall|q: Seq<usize>|
        walk_ok(q, prev as int, next as int, nv) ==> #[trigger] walk_cost(pts, n, q) >= wedge(
            pts,
            n,
            prev as int,
            next as int,
        )) ==> path == seq![next])
}

/// Some walk from `s` to `t` costs exactly `cost`.
pub open spec fn walk_to(pts: Seq<Point>, n: int, nv: int, cost: int, s: int, t: int) -> bool {
    exists|wk: Seq<usize>| walk_ok(wk, s, t, nv) && #[trigger] walk_cost(pts, n, wk) == cost
}

/// Every edge out of a settled waypoint other than `except` has been
/// relaxed.
pub open spec fn relaxed_most(
    pts: Seq<Point>,
    n: int,
    nv: int,
    dist: Seq<i64>,
    visited: Seq<bool>,
    except: int,
) -> bool {
    forall|a: int, b: int|
        #![trigger visited[a], dist[b]]
        0 <= a < nv && 0 <= b < nv && visited[a] && a != except ==> dist[b] as int <= dist[a]
            + wedge(pts, n, a, b)
}

/// The tentative distance of every settled waypoint undercuts every
/// walk to it.
pub open spec fn settled_lb(
    pts: Seq<Point>,
    n: int,
    nv: int,
    s: int,
    dist: Seq<i64>,
    visited: Seq<bool>,
) -> bool {
    forall|a: int, wk: Seq<usize>|
        #![trigger visited[a], walk_cost(pts, n, wk)]
        0 <= a < nv && visited[a] && walk_ok(wk, s, a, nv) ==> walk_cost(pts, n, wk) >= dist[a]
}

/// Every tentative distance is realized by some walk.
pub open spec fn dist_reached(pts: Seq<Point>, n: int, nv: int, s: int, dist: Seq<i64>) -> bool {
    forall|v: int| 0 <= v < nv ==> #[trigger] walk_to(pts, n, nv, dist[v] as int, s, v)
}

/// Every waypoint but the source carries a settled predecessor whose
/// distance plus the connecting edge gives its own.
pub open spec fn preds_ok(
    pts: Seq<Point>,
    n: int,
    nv: int,
    s: int,
    dist: Seq<i64>,
    from: Seq<usize>,
    visited: Seq<bool>,
) -> bool {
    forall|v: int|
        #![trigger from[v]]
        0 <= v < nv && v != s ==> {
            &&& (from[v] as int) < nv
            &&& (from[v] as int) != v
            &&& visited[from[v] as int]
            &&& dist[v] as int == dist[from[v] as int] + wedge(pts, n, from[v] as int, v)
        }
}

/// `v` appears in the settle order before position `below`.
pub open spec fn has_rank(settled: Seq<usize>, v: int, below: int) -> bool {
    exists|r: int| 0 <= r < below && (#[trigger] settled[r] as int) == v
}

/// The settle order covers the visited set, and every settled waypoint
/// but the source has its predecessor settled strictly earlier.
pub open spec fn settle_order_ok(
    settled: Seq<usize>,
    visited: Seq<bool>,
    from: Seq<usize>,
    s: int,
    nv: int,
) -> bool {
    &&& forall|r: int| 0 <= r < settled.len() ==> (#[trigger] settled[r] as int) < nv
    &&& forall|r: int| 0 <= r < settled.len() ==> visited[#[trigger] settled[r] as int]
    &&& forall|v: int|
        0 <= v < nv && visited[v] ==> #[trigger] has_rank(settled, v, settled.len() as int)
    &&& forall|r: int|
        0 <= r < settled.len() && (settled[r] as int) != s ==> #[trigger] has_rank(
            settled,
            from[settled[r] as int] as int,
            r,
        )
}

/// Count of set flags.
pub open spec fn count_true(s: Seq<bool>) -> int
    decreases s.len(),
{
    if s.len() == 0 {
        0
    } else {
        count_true(s.drop_first()) + if s[0] {
            1int
        } else {
            0int
        }
    }
}

proof fn lemma_count_true_concat(a: Seq<bool>, b: Seq<bool>)
    ensures
        count_true(a + b) == count_true(a) + count_true(b),
    decreases a.len(),
{
    if a.len() == 0 {
        assert(a + b =~= b);
    } else {
        assert((a + b).drop_first() =~= a.drop_first() + b);
        lemma_count_true_concat(a.drop_first(), b);
        assert((a + b)[0] == a[0]);
    }
}

proof fn lemma_count_true_singleton(x: bool)
    ensures
        count_true(seq![x]) == if x {
            1int
        } else {
            0int
        },
{
    assert(seq![x].drop_first() =~= Seq::<bool>::empty());
    assert(count_true(Seq::<bool>::empty()) == 0);
    assert(count_true(seq![x]) == count_true(seq![x].drop_first()) + if seq![x][0] {
        1int
    } else {
        0int
    });
}

proof fn lemma_count_true_bounds(s: Seq<bool>)
    ensures
        0 <= count_true(s) <= s.len(),
    decreases s.len(),
{
    if s.len() > 0 {
        lemma_count_true_bounds(s.drop_first());
    }
}

proof fn lemma_count_all_false(q: Seq<bool>)
    requires
        forall|t: int| 0 <= t < q.len() ==> !(#[trigger] q[t]),
    ensures
        count_true(q) == 0,
    decreases q.len(),
{
    if q.len() > 0 {
        lemma_count_all_false(q.drop_first());
    }
}

proof fn lemma_count_true_update(s: Seq<bool>, i: int)
    requires
        0 <= i < s.len(),
        !s[i],
    ensures
        count_true(s.update(i, true)) == count_true(s) + 1,
{
    let pre = s.subrange(0, i);
    let suf = s.subrange(i + 1, s.len() as int);
    assert(s =~= pre + (seq![s[i]] + suf));
    assert(s.update(i, true) =~= pre + (seq![true] + suf));
    lemma_count_true_concat(pre, seq![s[i]] + suf);
    lemma_count_true_concat(seq![s[i]], suf);
    lemma_count_true_concat(pre, seq![true] + suf);
    lemma_count_true_concat(seq![true], suf);
    lemma_count_true_singleton(s[i]);
    lemma_count_true_singleton(true);
}

/// An edge weight is non-negative and bounded, and a self-loop is free.
proof fn lemma_wedge_bounds(pts: Seq<Point>, n: int, a: int, b: int)
    requires
        1 <= n <= pts.len(),
        forall|i: int| 0 <= i < pts.len() ==> in_map(#[trigger] pts[i]),
        0 <= a < pts.len(),
        0 <= b < pts.len(),
    ensures
        0 <= wedge(pts, n, a, b) <= MAX_EDGE_COST,
        a == b ==> wedge(pts, n, a, b) == 0,
{
    lemma_true_metric_ok(pts, n);
    lemma_edge_cost_bounds(true_metric(pts, n), a, b);
    if a == b {
        lemma_sq_dist_bounds(pts[a], pts[b]);
        if a < n {
            assert(true_metric(pts, n).dmat[a][b] == (25 * sq_dist(pts[a], pts[b])) as i64);
        } else {
            assert(wedge(pts, n, a, b) == spec_mul(a, n) * spec_mul(b, n) * sq_dist(
                pts[a],
                pts[b],
            ));
            assert(spec_mul(a, n) * spec_mul(b, n) * 0 == 0) by (nonlinear_arith);
        }
    }
}

/// The cut argument: while `u` is the closest unsettled waypoint, any
/// walk from the source is at least as long as the smaller of its own
/// target's tentative distance and `u`'s.
proof fn lemma_walk_lb(
    pts: Seq<Point>,
    n: int,
    nv: int,
    dist: Seq<i64>,
    visited: Seq<bool>,
    s: int,
    u: int,
    wk: Seq<usize>,
)
    requires
        1 <= n <= pts.len(),
        nv == pts.len(),
        forall|i: int| 0 <= i < pts.len() ==> in_map(#[trigger] pts[i]),
        dist.len() == nv,
        visited.len() == nv,
        0 <= s < nv,
        dist[s] == 0,
        visited[s],
        0 <= u < nv,
        !visited[u],
        forall|b: int| 0 <= b < nv && !visited[b] ==> dist[u] <= #[trigger] dist[b],
        forall|a: int, b: int|
            #![trigger visited[a], dist[b]]
            0 <= a < nv && 0 <= b < nv && visited[a] ==> dist[b] as int <= dist[a] + wedge(
                pts,
                n,
                a,
                b,
            ),
        forall|v: int| 0 <= v < nv ==> #[trigger] dist[v] >= 0,
        wk.len() >= 1,
        (wk[0] as int) == s,
        entries_below(wk, nv),
    ensures
        walk_cost(pts, n, wk) >= dist[wk.last() as int] || walk_cost(pts, n, wk) >= dist[u],
    decreases wk.len(),
{
    lemma_true_metric_ok(pts, n);
    let tm = true_metric(pts, n);
    if wk.len() == 1 {
        assert(walk_cost(pts, n, wk) == 0);
        assert(wk.last() == wk[0]);
    } else {
        let p = wk.drop_last();
        let sp = p.last() as int;
        let t = wk.last() as int;
        assert(entries_below(p, nv));
        assert(p[0] == wk[0]);
        lemma_walk_lb(pts, n, nv, dist, visited, s, u, p);
        assert(wk =~= p.push(wk.last()));
        lemma_tour_cost_push(tm, p, wk.last());
        lemma_wedge_bounds(pts, n, sp, t);
        if walk_cost(pts, n, p) >= dist[u] {
        } else {
            assert(walk_cost(pts, n, p) >= dist[sp]);
            if visited[sp] {
                assert(dist[t] as int <= dist[sp] + wedge(pts, n, sp, t));
            } else {
                assert(dist[u] <= dist[sp]);
            }
        }
    }
}

/// Every single edge of a cost-minimal walk is itself a minimal route
/// between its two endpoints: a cheaper detour could be spliced in for
/// a cheaper whole walk.
proof fn lemma_edge_of_optimal_walk(
    pts: Seq<Point>,
    n: int,
    nv: int,
    full: Seq<usize>,
    t: int,
    q: Seq<usize>,
)
    requires
        1 <= n <= pts.len(),
        nv == pts.len(),
        forall|i: int| 0 <= i < pts.len() ==> in_map(#[trigger] pts[i]),
        full.len() >= 2,
        entries_below(full, nv),
        0 <= t < full.len() - 1,
        full[t] != full[t + 1],
        walk_ok(q, full[t] as int, full[t + 1] as int, nv),
        forall|wk: Seq<usize>|
            walk_ok(wk, full[0] as int, full.last() as int, nv) ==> walk_cost(pts, n, full)
                <= #[trigger] walk_cost(pts, n, wk),
    ensures
        walk_cost(pts, n, q) >= wedge(pts, n, full[t] as int, full[t + 1] as int),
{
    let tm = true_metric(pts, n);
    lemma_true_metric_ok(pts, n);
    let a = full.subrange(0, t + 1);
    let c = full.subrange(t + 1, full.len() as int);
    assert(full =~= a + c);
    lemma_tour_cost_concat(tm, a, c);
    assert(a.last() == full[t] && c[0] == full[t + 1]);
    assert(q.len() >= 2) by {
        if q.len() == 1 {
            assert(q[0] == q.last());
        }
    }
    let ab = a + q.drop_first();
    lemma_walk_join(pts, n, a, q);
    assert(q.drop_first().len() >= 1);
    assert(ab.last() == q.drop_first().last());
    assert(q.drop_first().last() == q.last());
    let fullp = ab + c.drop_first();
    lemma_walk_join(pts, n, ab, c);
    assert(walk_ok(fullp, full[0] as int, full.last() as int, nv)) by {
        assert(fullp.len() >= 1);
        assert(fullp[0] == a[0]);
        if c.len() >= 2 {
            assert(c.drop_first().len() >= 1);
            assert(fullp.last() == c.drop_first().last());
            assert(c.drop_first().last() == c.last());
            assert(c.last() == full.last());
        } else {
            assert(c.drop_first().len() == 0);
            assert(fullp =~= ab);
            assert((q.last() as int) == full[t + 1]);
            assert(full[t + 1] == full.last());
        }
        assert forall|k: int| 0 <= k < fullp.len() implies (#[trigger] fullp[k] as int) < nv by {
            if k < a.len() {
                assert(fullp[k] == a[k]);
            } else if k < ab.len() {
                assert(fullp[k] == q.drop_first()[k - a.len()]);
                assert(q.drop_first()[k - a.len()] == q[k - a.len() + 1]);
            } else {
                assert(fullp[k] == c.drop_first()[k - ab.len()]);
                assert(c.drop_first()[k - ab.len()] == c[k - ab.len() + 1]);
            }
        }
    }
    assert(walk_cost(pts, n, full) <= walk_cost(pts, n, fullp));
}

/// True weight of the edge `a -> b` under the live coordinates.
fn true_edge(input: &Input, solution: &State, a: usize, b: usize) -> (r: i64)
    requires
        input_ok(*input),
        points_ok(*input, *solution),
        a < input.n + input.m,
        b < input.n + input.m,
    ensures
        r == wedge(solution.points@, input.n as int, a as int, b as int),
        0 <= r <= MAX_EDGE_COST,
{
    let mul0 = get_score_mul(a, input.n);
    let mul1 = get_score_mul(b, input.n);
    let d = solution.points[a].dist_sq(&solution.points[b]);
    proof {
        let pts = solution.points@;
        let n = input.n as int;
        let tm = true_metric(pts, n);
        lemma_sq_dist_bounds(pts[a as int], pts[b as int]);
        assert(0 <= d * mul0 <= 10_000_000 && 0 <= d * mul0 * mul1 <= MAX_EDGE_COST && d * mul0
            * mul1 == spec_mul(a as int, n) * spec_mul(b as int, n) * d) by (nonlinear_arith)
            requires
                0 <= d <= 2_000_000,
                mul0 == spec_mul(a as int, n),
                mul1 == spec_mul(b as int, n),
                mul0 == 1 || mul0 == 5,
                mul1 == 1 || mul1 == 5,
        ;
        if a < input.n && b < input.n {
            assert(tm.dmat[a as int][b as int] == (25 * sq_dist(
                pts[a as int],
                pts[b as int],
            )) as i64);
            assert(spec_mul(a as int, n) * spec_mul(b as int, n) * d == 25 * d) by (nonlinear_arith)
                requires
                    spec_mul(a as int, n) == 5,
                    spec_mul(b as int, n) == 5,
            ;
        }
    }
    d * mul0 * mul1
}

/// Single-source shortest path from `start`, stopped as soon as `goal`
/// settles.  Returns the explicit path after `start`: following `start`
/// by the returned waypoints reaches `goal`, and no walk from `start`
/// to `goal` through the live waypoints is cheaper.
#[verifier::rlimit(100)]
pub fn dijkstra(input: &Input, solution: &State, start: usize, goal: usize) -> (path: Vec<usize>)
    requires
        input_ok(*input),
        points_ok(*input, *solution),
        start < input.n + input.m,
        goal < input.n + input.m,
    ensures
        splice_facts(
            solution.points@,
            input.n as int,
            (input.n + input.m) as int,
            start,
            goal,
            path@,
        ),
{
    let nv = input.n + input.m;
    let ghost n = input.n as int;
    let ghost spts = solution.points@;
    let ghost tm = true_metric(spts, n);
    proof {
        lemma_true_metric_ok(spts, n);
    }

    if start == goal {
        let path: Vec<usize> = Vec::new();
        proof {
            let full = seq![start] + path@;
            assert(full =~= seq![start]);
            assert(walk_cost(spts, n, full) == 0);
            assert forall|wk: Seq<usize>|
                walk_ok(wk, start as int, goal as int, nv as int) implies walk_cost(spts, n, full)
                <= #[trigger] walk_cost(spts, n, wk) by {
                lemma_tour_cost_bounds(tm, wk);
            }
            assert(splice_facts(spts, n, nv as int, start, goal, path@));
        }
        return path;
    }

    // every waypoint starts one relaxed edge away from the source
    let mut dist: Vec<i64> = Vec::new();
    let mut from: Vec<usize> = Vec::new();
    let mut visited: Vec<bool> = Vec::new();
    let mut v0: usize = 0;
    while v0 < nv
        invariant
            input_ok(*input),
            points_ok(*input, *solution),
            nv == input.n + input.m,
            n == input.n as int,
            spts == solution.points@,
            start < nv,
            v0 <= nv,
            dist@.len() == v0,
            from@.len() == v0,
            visited@.len() == v0,
            forall|t: int|
                0 <= t < v0 ==> #[trigger] dist@[t] as int == wedge(spts, n, start as int, t),
            forall|t: int| 0 <= t < v0 ==> #[trigger] from@[t] == start,
            forall|t: int| 0 <= t < v0 ==> (#[trigger] visited@[t] <==> t == start as int),
        decreases nv - v0,
    {
        dist.push(true_edge(input, solution, start, v0));
        from.push(start);
        visited.push(v0 == start);
        v0 += 1;
    }
    let ghost mut settled: Seq<usize> = seq![start];

    proof {
        lemma_wedge_bounds(spts, n, start as int, start as int);
        assert(dist@[start as int] == 0);
        assert forall|t: int| 0 <= t < nv implies 0 <= #[trigger] dist@[t] <= MAX_EDGE_COST by {
            lemma_wedge_bounds(spts, n, start as int, t);
        }
        assert forall|v: int| 0 <= v < nv implies #[trigger] dist@[v] as int <= wedge(
            spts,
            n,
            start as int,
            v,
        ) by {}
        assert(count_true(visited@) == 1) by {
            let pre = visited@.subrange(0, start as int);
            let suf = visited@.subrange(start as int + 1, nv as int);
            assert(visited@ =~= pre + (seq![true] + suf));
            lemma_count_true_concat(pre, seq![true] + suf);
            lemma_count_true_concat(seq![true], suf);
            lemma_count_true_singleton(true);
            lemma_count_all_false(pre);
            lemma_count_all_false(suf);
        }
        assert forall|t: int| 0 <= t < nv implies #[trigger] walk_to(
            spts,
            n,
            nv as int,
            dist@[t] as int,
            start as int,
            t,
        ) by {
            let wk = seq![start, t as usize];
            assert(wk.drop_first() =~= seq![t as usize]);
            assert(tour_cost(tm, seq![t as usize]) == 0);
            assert(walk_cost(spts, n, wk) == wedge(spts, n, start as int, t));
            assert(walk_ok(wk, start as int, t, nv as int));
        }
        assert forall|a: int, wk: Seq<usize>|
            #![trigger visited@[a], walk_cost(spts, n, wk)]
            0 <= a < nv && visited@[a] && walk_ok(wk, start as int, a, nv as int) implies walk_cost(
            spts,
            n,
            wk,
        ) >= dist@[a] by {
            lemma_tour_cost_bounds(tm, wk);
        }
        assert forall|v: int| 0 <= v < nv && visited@[v] implies #[trigger] has_rank(
            settled,
            v,
            settled.len() as int,
        ) by {
            assert((settled[0] as int) == v);
        }
    }

    while !(visited[goal])
        invariant
            input_ok(*input),
            points_ok(*input, *solution),
            nv == input.n + input.m,
            1 <= nv,
            n == input.n as int,
            spts == solution.points@,
            tm == true_metric(spts, n),
            start < nv,
            goal < nv,
            dist@.len() == nv,
            from@.len() == nv,
            visited@.len() == nv,
            visited@[start as int],
            dist@[start as int] == 0,
            forall|t: int| 0 <= t < nv ==> 0 <= #[trigger] dist@[t] <= 5_000_000_000_000,
            count_true(visited@) == settled.len(),
            1 <= settled.len() <= nv,
            // tentative distances never exceed the direct hop from the
            // source, and only a strict improvement changes a predecessor
            forall|v: int|
                0 <= v < nv ==> #[trigger] dist@[v] as int <= wedge(spts, n, start as int, v),
            forall|v: int|
                #![trigger from@[v]]
                0 <= v < nv && v != start as int && (from@[v] as int) != start as int
                    ==> (dist@[v] as int) < wedge(spts, n, start as int, v),
            relaxed_most(spts, n, nv as int, dist@, visited@, goal as int),
            settled_lb(spts, n, nv as int, start as int, dist@, visited@),
            dist_reached(spts, n, nv as int, start as int, dist@),
            preds_ok(spts, n, nv as int, start as int, dist@, from@, visited@),
            settle_order_ok(settled, visited@, from@, start as int, nv as int),
            // settled waypoints are never farther than unsettled ones
            forall|a: int, b: int|
                #![trigger visited@[a], visited@[b]]
                0 <= a < nv && 0 <= b < nv && visited@[a] && !visited@[b] ==> dist@[a] <= dist@[b],
        decreases nv - count_true(visited@),
    {
        // pick the closest unsettled waypoint
        let mut best: usize = goal;
        let mut v: usize = 0;
        while v < nv
            invariant
                nv == visited@.len(),
                nv == dist@.len(),
                goal < nv,
                !visited@[goal as int],
                v <= nv,
                best < nv,
                !visited@[best as int],
                forall|t: int|
                    0 <= t < v && !(#[trigger] visited@[t]) ==> dist@[best as int] <= dist@[t],
            decreases nv - v,
        {
            if !visited[v] {
                if dist[v] < dist[best] {
                    best = v;
                }
            }
            v += 1;
        }
        let u = best;

        proof {
            // with the goal still unsettled, every settled waypoint is
            // fully relaxed
            assert(u != start);
            assert forall|a: int, b: int|
                #![trigger visited@[a], dist@[b]]
                0 <= a < nv && 0 <= b < nv && visited@[a] implies dist@[b] as int <= dist@[a]
                + wedge(spts, n, a, b) by {
                assert(a != goal as int);
            }
            // settling the minimum is sound: the cut argument bounds
            // every walk to it from below by its tentative distance
            assert forall|a: int, wk: Seq<usize>|
                #![trigger visited@.update(u as int, true)[a], walk_cost(spts, n, wk)]
                0 <= a < nv && visited@.update(u as int, true)[a] && walk_ok(
                    wk,
                    start as int,
                    a,
                    nv as int,
                ) implies walk_cost(spts, n, wk) >= dist@[a] by {
                if a == u as int {
                    lemma_walk_lb(spts, n, nv as int, dist@, visited@, start as int, u as int, wk);
                } else {
                    assert(visited@[a]);
                    assert(walk_cost(spts, n, wk) >= dist@[a]);
                }
            }
            lemma_count_true_update(visited@, u as int);
            lemma_count_true_bounds(visited@.update(u as int, true));
        }
        let ghost visited_pre = visited@;
        let ghost settled_pre = settled;
        visited[u] = true;
        proof {
            settled = settled.push(u);
            assert(settled.len() == settled_pre.len() + 1);
            assert forall|w2: int| 0 <= w2 < nv && visited@[w2] implies #[trigger] has_rank(
                settled,
                w2,
                settled.len() as int,
            ) by {
                if w2 == u as int {
                    assert((settled[settled.len() - 1] as int) == w2);
                } else {
                    assert(visited_pre[w2]);
                    assert(has_rank(settled_pre, w2, settled_pre.len() as int));
                    let r = choose|r: int|
                        0 <= r < settled_pre.len() && (#[trigger] settled_pre[r] as int) == w2;
                    assert((settled[r] as int) == w2);
                }
            }
            assert forall|r: int|
                0 <= r < settled.len() && (settled[r] as int) != start as int implies #[trigger] has_rank(
                settled,
                from@[settled[r] as int] as int,
                r,
            ) by {
                if r < settled_pre.len() {
                    assert(settled[r] == settled_pre[r]);
                    assert(has_rank(settled_pre, from@[settled_pre[r] as int] as int, r));
                    let r2 = choose|r2: int|
                        0 <= r2 < r && (#[trigger] settled_pre[r2] as int)
                            == from@[settled_pre[r] as int] as int;
                    assert((settled[r2] as int) == from@[settled[r] as int] as int);
                } else {
                    assert(settled[r] == u);
                    assert(visited_pre[from@[u as int] as int]);
                    assert(has_rank(settled_pre, from@[u as int] as int, settled_pre.len() as int));
                    let r2 = choose|r2: int|
                        0 <= r2 < settled_pre.len() && (#[trigger] settled_pre[r2] as int)
                            == from@[u as int] as int;
                    assert((settled[r2] as int) == from@[u as int] as int);
                }
            }
        }

        if u != goal {
            // relax every edge out of the newly settled waypoint
            let du = dist[u];
            proof {
                assert(walk_to(spts, n, nv as int, dist@[u as int] as int, start as int, u as int));
            }
            let ghost wku = choose|wk: Seq<usize>|
                walk_ok(wk, start as int, u as int, nv as int) && #[trigger] walk_cost(spts, n, wk)
                    == dist@[u as int] as int;
            let mut v2: usize = 0;
            while v2 < nv
                invariant
                    input_ok(*input),
                    points_ok(*input, *solution),
                    nv == input.n + input.m,
                    n == input.n as int,
                    spts == solution.points@,
                    tm == true_metric(spts, n),
                    start < nv,
                    goal < nv,
                    u < nv,
                    u != goal,
                    u != start,
                    v2 <= nv,
                    dist@.len() == nv,
                    from@.len() == nv,
                    visited@.len() == nv,
                    visited@[start as int],
                    visited@[u as int],
                    !visited@[goal as int],
                    dist@[start as int] == 0,
                    du == dist@[u as int],
                    walk_ok(wku, start as int, u as int, nv as int),
                    walk_cost(spts, n, wku) == du as int,
                    forall|t: int| 0 <= t < nv ==> 0 <= #[trigger] dist@[t] <= 5_000_000_000_000,
                    forall|v: int|
                        0 <= v < nv ==> #[trigger] dist@[v] as int <= wedge(
                            spts,
                            n,
                            start as int,
                            v,
                        ),
                    forall|v: int|
                        #![trigger from@[v]]
                        0 <= v < nv && v != start as int && (from@[v] as int) != start as int
                            ==> (dist@[v] as int) < wedge(spts, n, start as int, v),
                    // edges scanned so far are relaxed from `u`
                    forall|t: int|
                        0 <= t < v2 ==> #[trigger] dist@[t] as int <= du + wedge(
                            spts,
                            n,
                            u as int,
                            t,
                        ),
                    // settled values never rise above the new pivot
                    forall|t: int| 0 <= t < nv && visited@[t] ==> #[trigger] dist@[t] <= du,
                    relaxed_most(spts, n, nv as int, dist@, visited@, u as int),
                    settled_lb(spts, n, nv as int, start as int, dist@, visited@),
                    dist_reached(spts, n, nv as int, start as int, dist@),
                    preds_ok(spts, n, nv as int, start as int, dist@, from@, visited@),
                    settle_order_ok(settled, visited@, from@, start as int, nv as int),
                    count_true(visited@) == settled.len(),
                    1 <= settled.len() <= nv,
                    forall|a: int, b: int|
                        #![trigger visited@[a], visited@[b]]
                        0 <= a < nv && 0 <= b < nv && visited@[a] && !visited@[b] ==> dist@[a]
                            <= dist@[b],
                decreases nv - v2,
            {
                let w = true_edge(input, solution, u, v2);
                let nd = du + w;
                proof {
                    lemma_wedge_bounds(spts, n, u as int, v2 as int);
                }
                if nd < dist[v2] {
                    proof {
                        // a settled waypoint is never relaxed again
                        assert(!visited@[v2 as int]);
                        assert(v2 != start);
                        assert(v2 != u);
                    }
                    let ghost dist_pre = dist@;
                    dist[v2] = nd;
                    from[v2] = u;
                    proof {
                        assert forall|t: int|
                            0 <= t < nv && t != v2 as int implies #[trigger] dist@[t]
                            == dist_pre[t] by {}
                        assert forall|t: int| 0 <= t < nv implies #[trigger] walk_to(
                            spts,
                            n,
                            nv as int,
                            dist@[t] as int,
                            start as int,
                            t,
                        ) by {
                            if t == v2 as int {
                                let wk2 = wku.push(v2);
                                lemma_tour_cost_push(tm, wku, v2);
                                assert(walk_cost(spts, n, wk2) == nd as int);
                                assert(walk_ok(wk2, start as int, t, nv as int)) by {
                                    assert(wk2[0] == wku[0]);
                                    assert forall|k2: int|
                                        0 <= k2 < wk2.len() implies (#[trigger] wk2[k2] as int)
                                        < nv by {
                                        if k2 < wku.len() {
                                            assert(wk2[k2] == wku[k2]);
                                        }
                                    }
                                }
                            } else {
                                assert(walk_to(
                                    spts,
                                    n,
                                    nv as int,
                                    dist_pre[t] as int,
                                    start as int,
                                    t,
                                ));
                            }
                        }
                    }
                }
                v2 += 1;
            }
            proof {
                // the pivot's own row is now fully relaxed
                assert forall|a: int, b: int|
                    #![trigger visited@[a], dist@[b]]
                    0 <= a < nv && 0 <= b < nv && visited@[a] && a != goal as int implies dist@[b] as int
                    <= dist@[a] + wedge(spts, n, a, b) by {
                    if a == u as int {
                    } else {
                        assert(dist@[b] as int <= dist@[a] + wedge(spts, n, a, b));
                    }
                }
            }
        }
    }

    // walk the predecessor chain back from the goal
    let mut current: usize = goal;
    let mut back: Vec<usize> = Vec::new();
    proof {
        assert(has_rank(settled, goal as int, settled.len() as int));
    }
    let ghost mut rank: int = choose|r: int|
        0 <= r < settled.len() && (#[trigger] settled[r] as int) == goal as int;
    while current != start
        invariant
            input_ok(*input),
            nv == input.n + input.m,
            n == input.n as int,
            spts == solution.points@,
            tm == true_metric(spts, n),
            start < nv,
            goal < nv,
            current < nv,
            dist@.len() == nv,
            from@.len() == nv,
            visited@.len() == nv,
            dist@[start as int] == 0,
            preds_ok(spts, n, nv as int, start as int, dist@, from@, visited@),
            settle_order_ok(settled, visited@, from@, start as int, nv as int),
            0 <= rank < settled.len(),
            (settled[rank] as int) == current as int,
            entries_below(back@, nv as int),
            back@.len() >= 1 ==> back@[0] == goal,
            current == goal || back@.len() >= 1,
            forall|t: int| 0 <= t < back@.len() ==> #[trigger] back@[t] != start,
            forall|t: int| 0 <= t < back@.len() - 1 ==> #[trigger] back@[t] != back@[t + 1],
            back@.len() >= 1 ==> current != back@.last(),
            back@.len() >= 1 ==> (current as int) == (from@[back@.last() as int] as int),
            forall|t: int|
                0 <= t < back@.len() - 1 ==> (#[trigger] back@[t + 1] as int) == (
                from@[back@[t] as int] as int),
            ({
                let part = seq![current] + back@.reverse();
                &&& (part.last() as int) == goal
                &&& walk_cost(spts, n, part) == dist@[goal as int] - dist@[current as int]
            }),
        decreases rank,
    {
        let ghost back_pre = back@;
        let ghost part_pre = seq![current] + back_pre.reverse();
        back.push(current);
        proof {
            assert forall|t: int| 0 <= t < back@.len() - 1 implies #[trigger] back@[t] != back@[t
                + 1] by {
                if t < back_pre.len() - 1 {
                    assert(back@[t] == back_pre[t] && back@[t + 1] == back_pre[t + 1]);
                } else {
                    assert(back@[t] == back_pre.last() && back@[t + 1] == current);
                }
            }
            assert forall|t: int| 0 <= t < back@.len() - 1 implies (#[trigger] back@[t
                + 1] as int) == (from@[back@[t] as int] as int) by {
                if t < back_pre.len() - 1 {
                    assert(back@[t] == back_pre[t] && back@[t + 1] == back_pre[t + 1]);
                } else {
                    assert(back@[t] == back_pre.last() && back@[t + 1] == current);
                }
            }
            assert((from@[current as int] as int) != current as int);
            assert(has_rank(settled, from@[current as int] as int, rank));
            let r2 = choose|r2: int|
                0 <= r2 < rank && (#[trigger] settled[r2] as int) == from@[current as int] as int;
            let prev = from@[current as int];
            assert(back@.reverse() =~= seq![current] + back_pre.reverse());
            let new_part = seq![prev] + back@.reverse();
            assert(new_part =~= seq![prev] + part_pre);
            lemma_tour_cost_concat(tm, seq![prev], part_pre);
            assert(tour_cost(tm, seq![prev]) == 0);
            assert(seq![prev].last() == prev);
            assert(part_pre[0] == current);
            assert(walk_cost(spts, n, new_part) == wedge(spts, n, prev as int, current as int)
                + walk_cost(spts, n, part_pre));
            assert(dist@[current as int] as int == dist@[prev as int] + wedge(
                spts,
                n,
                prev as int,
                current as int,
            ));
            assert(new_part.last() == part_pre.last());
            rank = r2;
        }
        current = from[current];
    }

    // emit the path in forward order
    let mut path: Vec<usize> = Vec::new();
    let mut q: usize = back.len();
    while q > 0
        invariant
            q <= back@.len(),
            path@.len() == back@.len() - q,
            forall|t: int|
                0 <= t < path@.len() ==> #[trigger] path@[t] == back@[back@.len() - 1 - t],
        decreases q,
    {
        q -= 1;
        path.push(back[q]);
    }

    proof {
        assert(path@ =~= back@.reverse());
        let full = seq![start] + path@;
        assert((full.last() as int) == goal);
        assert(walk_cost(spts, n, full) == dist@[goal as int]);
        assert forall|t: int| 0 <= t < path@.len() implies #[trigger] path@[t] != start by {
            assert(path@[t] == back@[back@.len() - 1 - t]);
        }
        assert forall|t: int| 0 <= t < full.len() - 1 implies #[trigger] full[t] != full[t
            + 1] by {
            if t == 0 {
                assert(full[0] == start && full[1] == path@[0]);
                assert(path@[0] == back@[back@.len() - 1]);
            } else {
                assert(full[t] == path@[t - 1] && full[t + 1] == path@[t]);
                assert(path@[t - 1] == back@[back@.len() - t]);
                assert(path@[t] == back@[back@.len() - 1 - t]);
            }
        }
        assert(entries_below(full, nv as int)) by {
            assert(full[0] == start);
            assert forall|k2: int| 0 <= k2 < full.len() implies (#[trigger] full[k2] as int)
                < nv by {
                if k2 >= 1 {
                    assert(full[k2] == path@[k2 - 1]);
                }
            }
        }
        assert(path@.len() >= 1);
        assert forall|wk: Seq<usize>|
            walk_ok(wk, start as int, goal as int, nv as int) implies walk_cost(spts, n, full)
            <= #[trigger] walk_cost(spts, n, wk) by {
            assert(visited@[goal as int]);
            assert(walk_cost(spts, n, wk) >= dist@[goal as int]);
        }
        assert forall|t: int, q: Seq<usize>|
            #![trigger full[t], walk_cost(spts, n, q)]
            0 <= t < full.len() - 1 && walk_ok(q, full[t] as int, full[t + 1] as int, nv as int)
            implies walk_cost(spts, n, q) >= wedge(spts, n, full[t] as int, full[t + 1] as int) by {
            assert(full[t] != full[t + 1]);
            lemma_edge_of_optimal_walk(spts, n, nv as int, full, t, q);
        }
        if forall|q: Seq<usize>|
            walk_ok(q, start as int, goal as int, nv as int) ==> #[trigger] walk_cost(spts, n, q)
                >= wedge(spts, n, start as int, goal as int) {
            // the direct hop was already minimal: no relaxation ever
            // strictly improved on it, so the predecessor chain is the
            // single edge
            assert(walk_to(spts, n, nv as int, dist@[goal as int] as int, start as int, goal as int));
            let q0 = choose|wk: Seq<usize>|
                walk_ok(wk, start as int, goal as int, nv as int) && #[trigger] walk_cost(
                    spts,
                    n,
                    wk,
                ) == dist@[goal as int] as int;
            assert(walk_cost(spts, n, q0) >= wedge(spts, n, start as int, goal as int));
            assert(dist@[goal as int] as int == wedge(spts, n, start as int, goal as int));
            assert((from@[goal as int] as int) == start as int);
            assert(back@.len() >= 1);
            if back@.len() >= 2 {
                assert((back@[1] as int) == (from@[back@[0] as int] as int));
                assert(back@[0] == goal);
                assert(back@[1] != start);
                assert(false);
            }
            assert(back@ =~= seq![goal]);
            assert(path@ =~= seq![goal]);
        }
        assert(splice_facts(spts, n, nv as int, start, goal, path@));
    }
    path
}

/// Appending a spliced path to the order built so far keeps the pair
/// facts: entries in range, no adjacent repeat, every edge minimal.
proof fn lemma_append_pairs(
    pts: Seq<Point>,
    n: int,
    nv: int,
    acc: Seq<usize>,
    path: Seq<usize>,
)
    requires
        acc.len() >= 1,
        path.len() >= 1,
        entries_below(acc, nv),
        no_adjacent_repeat(acc),
        edges_minimal(pts, n, nv, acc),
        entries_below(seq![acc.last()] + path, nv),
        no_adjacent_repeat(seq![acc.last()] + path),
        edges_minimal(pts, n, nv, seq![acc.last()] + path),
    ensures
        entries_below(acc + path, nv),
        no_adjacent_repeat(acc + path),
        edges_minimal(pts, n, nv, acc + path),
{
    let full = seq![acc.last()] + path;
    let o2 = acc + path;
    assert forall|k: int| 0 <= k < o2.len() implies (#[trigger] o2[k] as int) < nv by {
        if k >= acc.len() {
            assert(o2[k] == path[k - acc.len()]);
            assert(full[k - acc.len() + 1] == path[k - acc.len()]);
        }
    }
    assert forall|k: int|
        #![trigger o2[k]]
        0 <= k < o2.len() - 1 implies o2[k] != o2[k + 1] by {
        if k < acc.len() - 1 {
            assert(o2[k] == acc[k] && o2[k + 1] == acc[k + 1]);
        } else if k == acc.len() - 1 {
            assert(o2[k] == acc.last() && o2[k + 1] == path[0]);
            assert(full[0] != full[1]);
        } else {
            assert(o2[k] == path[k - acc.len()] && o2[k + 1] == path[k - acc.len() + 1]);
            assert(full[k - acc.len() + 1] != full[k - acc.len() + 2]);
        }
    }
    assert forall|t: int, q: Seq<usize>|
        #![trigger o2[t], walk_cost(pts, n, q)]
        0 <= t < o2.len() - 1 && walk_ok(q, o2[t] as int, o2[t + 1] as int, nv) implies walk_cost(
        pts,
        n,
        q,
    ) >= wedge(pts, n, o2[t] as int, o2[t + 1] as int) by {
        if t < acc.len() - 1 {
            assert(o2[t] == acc[t] && o2[t + 1] == acc[t + 1]);
        } else if t == acc.len() - 1 {
            assert(o2[t] == acc.last() && o2[t + 1] == path[0]);
            assert(o2[t] == full[0] && o2[t + 1] == full[1]);
        } else {
            assert(o2[t] == path[t - acc.len()] && o2[t + 1] == path[t - acc.len() + 1]);
            assert(o2[t] == full[t - acc.len() + 1] && o2[t + 1] == full[t - acc.len() + 2]);
        }
    }
}

/// An explicit expanded order: closed at the depot, within the waypoint
/// range, visiting every mandatory waypoint at least once.
pub open spec fn expanded_ok(n: int, total: int, o: Seq<usize>) -> bool {
    &&& o.len() >= 1
    &&& o[0] == 0usize
    &&& o[o.len() - 1] == 0usize
    &&& entries_below(o, total)
    &&& count_occ(o, 0usize) >= 1
    &&& (forall|v: usize| 0 < v < n ==> #[trigger] count_occ(o, v) >= 1)
    &&& (o.len() == 2 || no_adjacent_repeat(o))
}

/// A well-formed abstract visiting order is in particular an expanded
/// order: restoration accepts its own output as well as the engine's.
pub proof fn lemma_order_ok_expanded(n: int, total: int, o: Seq<usize>)
    requires
        order_ok(n, total, o),
    ensures
        expanded_ok(n, total, o),
{
}

/// The cost half of one restoration window: the appended splice
/// keeps the accumulated true cost under the abstract prefix's oracle
/// cost, and the expansion still ends at the window's target.
#[verifier::rlimit(100)]
proof fn lemma_restore_window_cost(inp: Input, sol: State, w: int, acc0: Seq<usize>, path: Seq<usize>)
    requires
        input_ok(inp),
        points_ok(inp, sol),
        expanded_ok(inp.n as int, (inp.n + inp.m) as int, sol.orders@),
        0 <= w < sol.orders@.len() - 1,
        acc0.len() >= 1,
        acc0[0] == 0usize,
        acc0.last() == sol.orders@[w],
        walk_cost(sol.points@, inp.n as int, acc0) <= tour_cost(
            state_metric(inp, sol),
            sol.orders@.subrange(0, w + 1),
        ),
        splice_facts(
            sol.points@,
            inp.n as int,
            (inp.n + inp.m) as int,
            sol.orders@[w],
            sol.orders@[w + 1],
            path,
        ),
    ensures
        ({
            let newo = acc0 + path;
            let abst = sol.orders@;
            let spts = sol.points@;
            let met = state_metric(inp, sol);
            &&& newo.len() >= 1
            &&& newo[0] == 0usize
            &&& newo.last() == abst[w + 1]
            &&& walk_cost(spts, inp.n as int, newo) <= tour_cost(met, abst.subrange(0, w + 2))
        }),
{
    let abst = sol.orders@;
    let nv = (inp.n + inp.m) as int;
    let n = inp.n as int;
    let spts = sol.points@;
    let met = state_metric(inp, sol);
    let tm = true_metric(spts, n);
    let prev = abst[w];
    let next = abst[w + 1];
    let full = seq![prev] + path;
    let newo = acc0 + path;
    lemma_state_metric_ok(inp, sol);
    lemma_true_metric_ok(spts, n);

    // the spliced segment undercuts the abstract edge: it beats the
    // direct hop, and for a mandatory pair it also beats the oracle's
    // relay chain
    assert(walk_cost(spts, n, full) <= edge_cost(met, prev as int, next as int)) by {
        if (prev as int) < inp.n && (next as int) < inp.n {
            assert(chain_to(
                inp.points@,
                n,
                mat_view(inp.distances)[prev as int][next as int] as int,
                prev as int,
                next as int,
            ));
            let c = choose|c: Seq<usize>|
                chain_ok(c, prev as int, next as int, n) && #[trigger] walk_cost(
                    inp.points@,
                    n,
                    c,
                ) == mat_view(inp.distances)[prev as int][next as int] as int;
            lemma_walk_cost_prefix_agree(inp.points@, spts, n, c);
            assert(walk_ok(c, prev as int, next as int, nv)) by {
                assert forall|k2: int| 0 <= k2 < c.len() implies (#[trigger] c[k2] as int)
                    < nv by {
                    assert((c[k2] as int) < n);
                }
            }
            assert(walk_cost(spts, n, full) <= walk_cost(spts, n, c));
            assert(edge_cost(met, prev as int, next as int) == mat_view(
                inp.distances,
            )[prev as int][next as int] as int);
        } else {
            let direct = seq![prev, next];
            assert(direct.drop_first() =~= seq![next]);
            assert(tour_cost(tm, seq![next]) == 0);
            assert(walk_cost(spts, n, direct) == wedge(spts, n, prev as int, next as int));
            assert(walk_ok(direct, prev as int, next as int, nv));
            assert(walk_cost(spts, n, full) <= walk_cost(spts, n, direct));
            lemma_edge_cost_undercut(met, prev as int, next as int);
        }
    }

    // splice accounting: the accumulated true cost still undercuts the
    // abstract prefix's oracle cost
    assert(abst.subrange(0, w + 2) =~= abst.subrange(0, w + 1).push(next));
    lemma_tour_cost_push(met, abst.subrange(0, w + 1), next);
    assert(abst.subrange(0, w + 1).last() == prev);
    lemma_edge_cost_bounds(met, prev as int, next as int);
    if path.len() == 0 {
        assert(newo =~= acc0);
        assert(walk_cost(spts, n, full) == 0);
    } else {
        lemma_tour_cost_concat(tm, acc0, path);
        lemma_tour_cost_concat(tm, seq![prev], path);
        assert(full =~= seq![prev] + path);
        assert(tour_cost(tm, seq![prev]) == 0);
        assert(seq![prev].last() == prev);
        assert(acc0.last() == prev);
        assert(walk_cost(spts, n, newo) == walk_cost(spts, n, acc0) + walk_cost(spts, n, full));
        assert(newo.last() == path.last());
        assert(path.last() == full.last());
    }

    if path.len() == 0 {
        assert(newo =~= acc0);
        assert(newo.last() == next);
    }
}

/// The shape half of one restoration window: pair facts, coverage,
/// the subsequence, and the identity case all carry over the appended
/// splice.
#[verifier::rlimit(100)]
proof fn lemma_restore_window_shape(inp: Input, sol: State, w: int, acc0: Seq<usize>, path: Seq<usize>)
    requires
        0 <= w < sol.orders@.len() - 1,
        acc0.len() >= 1,
        acc0.last() == sol.orders@[w],
        entries_below(acc0, (inp.n + inp.m) as int),
        no_adjacent_repeat(acc0),
        edges_minimal(sol.points@, inp.n as int, (inp.n + inp.m) as int, acc0),
        forall|t: int| 0 <= t <= w ==> #[trigger] count_occ(acc0, sol.orders@[t]) >= 1,
        no_adjacent_repeat(sol.orders@) ==> subseq_of(sol.orders@.subrange(0, w + 1), acc0),
        no_adjacent_repeat(sol.orders@) && edges_minimal(
            sol.points@,
            inp.n as int,
            (inp.n + inp.m) as int,
            sol.orders@,
        ) ==> acc0 == sol.orders@.subrange(0, w + 1),
        splice_facts(
            sol.points@,
            inp.n as int,
            (inp.n + inp.m) as int,
            sol.orders@[w],
            sol.orders@[w + 1],
            path,
        ),
    ensures
        ({
            let newo = acc0 + path;
            let abst = sol.orders@;
            let nv = (inp.n + inp.m) as int;
            let n = inp.n as int;
            let spts = sol.points@;
            &&& entries_below(newo, nv)
            &&& no_adjacent_repeat(newo)
            &&& edges_minimal(spts, n, nv, newo)
            &&& (forall|t: int| 0 <= t <= w + 1 ==> #[trigger] count_occ(newo, abst[t]) >= 1)
            &&& (no_adjacent_repeat(abst) ==> subseq_of(abst.subrange(0, w + 2), newo))
            &&& (no_adjacent_repeat(abst) && edges_minimal(spts, n, nv, abst) ==> newo
                == abst.subrange(0, w + 2))
        }),
{
    let abst = sol.orders@;
    let nv = (inp.n + inp.m) as int;
    let n = inp.n as int;
    let spts = sol.points@;
    let prev = abst[w];
    let next = abst[w + 1];
    let full = seq![prev] + path;
    let newo = acc0 + path;

    assert(abst.subrange(0, w + 2) =~= abst.subrange(0, w + 1).push(next));

    // entries, adjacency and edge minimality carry over the appended
    // splice
    if path.len() >= 1 {
        assert(full =~= seq![acc0.last()] + path);
        lemma_append_pairs(spts, n, nv, acc0, path);
    } else {
        assert(newo =~= acc0);
    }

    // the abstract prefix stays a subsequence of the expansion
    if no_adjacent_repeat(abst) {
        assert(prev != next);
        assert(path.len() >= 1);
        lemma_subseq_extend(abst.subrange(0, w + 1), acc0, path.drop_last());
        lemma_subseq_push(abst.subrange(0, w + 1), acc0 + path.drop_last(), next);
        assert(path.last() == next);
        assert(newo =~= (acc0 + path.drop_last()).push(next));
    }

    // when the abstract order is already an explicit minimal walk,
    // every splice is the direct hop and the expansion reproduces it
    if no_adjacent_repeat(abst) && edges_minimal(spts, n, nv, abst) {
        assert(prev != next);
        assert forall|q: Seq<usize>|
            walk_ok(q, prev as int, next as int, nv) implies #[trigger] walk_cost(spts, n, q)
            >= wedge(spts, n, prev as int, next as int) by {
            assert(abst[w] == prev && abst[w + 1] == next);
        }
        assert(path == seq![next]);
        assert(newo =~= abst.subrange(0, w + 2)) by {
            assert(acc0 == abst.subrange(0, w + 1));
        }
    }

    // every abstract waypoint reached so far still occurs
    assert forall|t: int| 0 <= t <= w + 1 implies #[trigger] count_occ(newo, abst[t]) >= 1 by {
        lemma_count_concat(acc0, path, abst[t]);
        lemma_count_nonneg(path, abst[t]);
        lemma_count_nonneg(acc0, abst[t]);
        if t <= w {
        } else {
            if path.len() == 0 {
                assert(prev == next);
                assert(count_occ(acc0, abst[w]) >= 1);
            } else {
                assert(path[path.len() - 1] == next);
                assert(path.contains(next));
                lemma_count_contains(path, next);
            }
        }
    }
}

/// One restoration window: appending the spliced shortest path for the
/// pair at `w` keeps every fact the expansion carries.
proof fn lemma_restore_window(inp: Input, sol: State, w: int, acc0: Seq<usize>, path: Seq<usize>)
    requires
        input_ok(inp),
        points_ok(inp, sol),
        expanded_ok(inp.n as int, (inp.n + inp.m) as int, sol.orders@),
        0 <= w < sol.orders@.len() - 1,
        acc0.len() >= 1,
        acc0[0] == 0usize,
        acc0.last() == sol.orders@[w],
        entries_below(acc0, (inp.n + inp.m) as int),
        no_adjacent_repeat(acc0),
        edges_minimal(sol.points@, inp.n as int, (inp.n + inp.m) as int, acc0),
        forall|t: int| 0 <= t <= w ==> #[trigger] count_occ(acc0, sol.orders@[t]) >= 1,
        no_adjacent_repeat(sol.orders@) ==> subseq_of(sol.orders@.subrange(0, w + 1), acc0),
        no_adjacent_repeat(sol.orders@) && edges_minimal(
            sol.points@,
            inp.n as int,
            (inp.n + inp.m) as int,
            sol.orders@,
        ) ==> acc0 == sol.orders@.subrange(0, w + 1),
        walk_cost(sol.points@, inp.n as int, acc0) <= tour_cost(
            state_metric(inp, sol),
            sol.orders@.subrange(0, w + 1),
        ),
        splice_facts(
            sol.points@,
            inp.n as int,
            (inp.n + inp.m) as int,
            sol.orders@[w],
            sol.orders@[w + 1],
            path,
        ),
    ensures
        ({
            let newo = acc0 + path;
            let abst = sol.orders@;
            let nv = (inp.n + inp.m) as int;
            let n = inp.n as int;
            let spts = sol.points@;
            let met = state_metric(inp, sol);
            &&& newo.len() >= 1
            &&& newo[0] == 0usize
            &&& newo.last() == abst[w + 1]
            &&& entries_below(newo, nv)
            &&& no_adjacent_repeat(newo)
            &&& edges_minimal(spts, n, nv, newo)
            &&& (forall|t: int| 0 <= t <= w + 1 ==> #[trigger] count_occ(newo, abst[t]) >= 1)
            &&& (no_adjacent_repeat(abst) ==> subseq_of(abst.subrange(0, w + 2), newo))
            &&& (no_adjacent_repeat(abst) && edges_minimal(spts, n, nv, abst) ==> newo
                == abst.subrange(0, w + 2))
            &&& walk_cost(spts, n, newo) <= tour_cost(met, abst.subrange(0, w + 2))
        }),
{
    lemma_restore_window_cost(inp, sol, w, acc0, path);
    lemma_restore_window_shape(inp, sol, w, acc0, path);
}

/// Expands an abstract order into an explicit walk: between every
/// consecutive pair the true shortest path is spliced in.  The result
/// still starts and ends at the depot, still visits every mandatory
/// waypoint, and never costs more than the abstract order under the
/// same metric.
#[verifier::rlimit(100)]
pub fn restore_solution(input: &Input, solution: &State) -> (r: State)
    requires
        input_ok(*input),
        points_ok(*input, *solution),
        expanded_ok(input.n as int, (input.n + input.m) as int, solution.orders@),
    ensures
        r.points@ == solution.points@,
        expanded_ok(input.n as int, (input.n + input.m) as int, r.orders@),
        no_adjacent_repeat(r.orders@),
        no_adjacent_repeat(solution.orders@) ==> subseq_of(solution.orders@, r.orders@),
        edges_minimal(
            solution.points@,
            input.n as int,
            (input.n + input.m) as int,
            r.orders@,
        ),
        no_adjacent_repeat(solution.orders@) && edges_minimal(
            solution.points@,
            input.n as int,
            (input.n + input.m) as int,
            solution.orders@,
        ) ==> r.orders@ == solution.orders@,
        tour_cost(true_metric(solution.points@, input.n as int), r.orders@) <= state_cost(
            *input,
            *solution,
        ),
        state_cost(*input, r) <= state_cost(*input, *solution),
{
    let ghost n = input.n as int;
    let ghost nv = (input.n + input.m) as int;
    let ghost spts = solution.points@;
    let ghost met = state_metric(*input, *solution);
    let ghost tm = true_metric(spts, n);
    let ghost abst = solution.orders@;
    proof {
        lemma_state_metric_ok(*input, *solution);
        lemma_true_metric_ok(spts, n);
    }

    let mut new_orders: Vec<usize> = Vec::new();
    new_orders.push(0);
    proof {
        assert(new_orders@ =~= seq![0usize]);
        assert(abst.subrange(0, 1) =~= seq![abst[0]]);
        assert(walk_cost(spts, n, new_orders@) == 0);
        assert(tour_cost(met, abst.subrange(0, 1)) == 0);
        lemma_count_singleton(0usize, 0usize);
        assert(subseq_of(abst.subrange(0, 1), new_orders@)) by {
            assert(abst.subrange(0, 1)[0] == new_orders@[0]);
            assert(abst.subrange(0, 1).drop_first() =~= Seq::<usize>::empty());
            assert(new_orders@.drop_first() =~= Seq::<usize>::empty());
            assert(subseq_of(Seq::<usize>::empty(), Seq::<usize>::empty()));
        }
        assert(new_orders@ =~= abst.subrange(0, 1));
    }

    let len = solution.orders.len();
    let mut w: usize = 0;
    while w < len - 1
        invariant
            input_ok(*input),
            points_ok(*input, *solution),
            expanded_ok(n, nv, solution.orders@),
            n == input.n as int,
            nv == (input.n + input.m) as int,
            spts == solution.points@,
            met == state_metric(*input, *solution),
            tm == true_metric(spts, n),
            abst == solution.orders@,
            len == abst.len(),
            1 <= len,
            w <= len - 1,
            new_orders@.len() >= 1,
            new_orders@[0] == 0usize,
            new_orders@.last() == abst[w as int],
            entries_below(new_orders@, nv),
            no_adjacent_repeat(new_orders@),
            edges_minimal(spts, n, nv, new_orders@),
            forall|t: int| 0 <= t <= w ==> #[trigger] count_occ(new_orders@, abst[t]) >= 1,
            no_adjacent_repeat(abst) ==> subseq_of(abst.subrange(0, w as int + 1), new_orders@),
            no_adjacent_repeat(abst) && edges_minimal(spts, n, nv, abst) ==> new_orders@
                == abst.subrange(0, w as int + 1),
            walk_cost(spts, n, new_orders@) <= tour_cost(met, abst.subrange(0, w as int + 1)),
        decreases len - w,
    {
        let prev = solution.orders[w];
        let next = solution.orders[w + 1];
        let path = dijkstra(input, solution, prev, next);
        let ghost acc0 = new_orders@;
        let ghost full = seq![prev] + path@;

        let mut q: usize = 0;
        while q < path.len()
            invariant
                q <= path@.len(),
                new_orders@ == acc0 + path@.subrange(0, q as int),
            decreases path@.len() - q,
        {
            proof {
                assert(acc0 + path@.subrange(0, q as int + 1) =~= (acc0 + path@.subrange(
                    0,
                    q as int,
                )).push(path@[q as int]));
            }
            new_orders.push(path[q]);
            q += 1;
        }

        proof {
            assert(path@.subrange(0, path@.len() as int) =~= path@);
            assert(new_orders@ == acc0 + path@);
            assert(full =~= seq![prev] + path@);
            lemma_restore_window(*input, *solution, w as int, acc0, path@);
        }
        w += 1;
    }

    proof {
        assert(abst.subrange(0, len as int) =~= abst);
        assert(new_orders@.last() == abst[len - 1]);
        assert(abst[len - 1] == 0usize);
        assert(new_orders@.contains(0usize));
        lemma_count_contains(new_orders@, 0usize);
        assert forall|v: usize| 0 < v < n implies #[trigger] count_occ(new_orders@, v) >= 1 by {
            assert(count_occ(abst, v) >= 1);
            lemma_count_contains(abst, v);
            let t = choose|t: int| 0 <= t < abst.len() && abst[t] == v;
            assert(count_occ(new_orders@, abst[t]) >= 1);
        }
        lemma_tour_cost_undercut(met, new_orders@);
    }

    let dup = solution.duplicate();
    let r = State::new(dup.points, new_orders);
    proof {
        assert(state_metric(*input, r) == met);
    }
    r
}

} // verus!
