//! The distance oracle: an all-pairs matrix of discounted squared
//! distances over the mandatory waypoints, closed under relaying through
//! any third waypoint.  The relaxation is proved to leave a symmetric,
//! non-negative matrix with zero diagonal that satisfies the triangle
//! inequality and never exceeds the direct fully-discounted edge.

use vstd::prelude::*;
use crate::geometry::{Point, in_map, sq_dist, lemma_sq_dist_bounds};
use crate::score::{
    oracle_ok, oracle_triangle, oracle_reachable, chain_ok, chain_to, walk_cost, true_metric,
    tour_cost, edge_cost, lemma_walk_join, MULTIPLIER,
};

verus! {

/// The matrix a vector of rows stands for.
pub open spec fn mat_view(d: Vec<Vec<i64>>) -> Seq<Seq<i64>> {
    Seq::new(d@.len(), |i: int| d@[i]@)
}

/// The smaller of two integers.
pub open spec fn min2(a: int, b: int) -> int {
    if a <= b {
        a
    } else {
        b
    }
}

/// Entry `(a, b)` of a vector of rows.
pub open spec fn ent(d: Seq<Vec<i64>>, a: int, b: int) -> i64 {
    d[a]@[b]
}

/// The entry the relaxation pass with relay `k` leaves at `(a, b)`.
pub open spec fn relaxed_entry(d0: Seq<Vec<i64>>, k: int, a: int, b: int) -> int {
    min2(ent(d0, a, b) as int, ent(d0, a, k) + ent(d0, k, b))
}

/// Every entry is the cost of some actual relay chain below `n`.
pub open spec fn reach_v(d: Seq<Vec<i64>>, pts: Seq<Point>, n: int) -> bool {
    forall|a: int, b: int|
        0 <= a < n && 0 <= b < n ==> #[trigger] chain_to(pts, n, ent(d, a, b) as int, a, b)
}

/// The rows form a square matrix of side `n`.
pub open spec fn square_v(d: Seq<Vec<i64>>, n: int) -> bool {
    d.len() == n && forall|a: int| 0 <= a < n ==> (#[trigger] d[a]@).len() == n
}

/// Every entry is non-negative and at most the direct fully-discounted
/// edge between its endpoints.
pub open spec fn bounds_v(d: Seq<Vec<i64>>, pts: Seq<Point>, n: int) -> bool {
    forall|a: int, b: int|
        0 <= a < n && 0 <= b < n ==> 0 <= #[trigger] ent(d, a, b) <= 25 * sq_dist(pts[a], pts[b])
}

/// The matrix is symmetric.
pub open spec fn sym_v(d: Seq<Vec<i64>>, n: int) -> bool {
    forall|a: int, b: int| 0 <= a < n && 0 <= b < n ==> #[trigger] ent(d, a, b) == ent(d, b, a)
}

/// Every diagonal entry is zero.
pub open spec fn diag_v(d: Seq<Vec<i64>>, n: int) -> bool {
    forall|a: int| 0 <= a < n ==> #[trigger] ent(d, a, a) == 0
}

/// The triangle inequality holds for every relay below `k`.
pub open spec fn relaxed_upto_v(d: Seq<Vec<i64>>, n: int, k: int) -> bool {
    forall|c: int, a: int, b: int|
        #![trigger ent(d, a, c), ent(d, c, b)]
        0 <= c < k && 0 <= a < n && 0 <= b < n ==> ent(d, a, b) <= ent(d, a, c) + ent(d, c, b)
}

/// One whole relaxation pass with relay `k` keeps the matrix symmetric,
/// bounded and zero-diagonal, keeps every triangle fact already
/// established, and establishes the one for its own relay.
proof fn lemma_pass_preserves(d0: Seq<Vec<i64>>, d: Seq<Vec<i64>>, pts: Seq<Point>, n: int, k: int)
    requires
        0 <= k < n,
        n <= pts.len(),
        square_v(d0, n),
        square_v(d, n),
        bounds_v(d0, pts, n),
        sym_v(d0, n),
        diag_v(d0, n),
        relaxed_upto_v(d0, n, k),
        forall|a: int, b: int|
            0 <= a < n && 0 <= b < n ==> #[trigger] ent(d, a, b) == relaxed_entry(d0, k, a, b),
    ensures
        bounds_v(d, pts, n),
        sym_v(d, n),
        diag_v(d, n),
        relaxed_upto_v(d, n, k + 1),
{
    assert forall|a: int, b: int| 0 <= a < n && 0 <= b < n implies 0 <= #[trigger] ent(d, a, b)
        <= 25 * sq_dist(pts[a], pts[b]) && ent(d, a, b) == ent(d, b, a) by {
        assert(ent(d0, b, a) == ent(d0, a, b));
        assert(ent(d0, b, k) == ent(d0, k, b));
        assert(ent(d0, k, a) == ent(d0, a, k));
        assert(ent(d0, a, k) >= 0 && ent(d0, k, b) >= 0);
    }
    assert forall|a: int| 0 <= a < n implies #[trigger] ent(d, a, a) == 0 by {
        assert(ent(d0, a, k) >= 0 && ent(d0, k, a) >= 0);
        assert(ent(d0, a, a) == 0);
    }
    assert forall|c: int, a: int, b: int|
        #![trigger ent(d, a, c), ent(d, c, b)]
        0 <= c < k + 1 && 0 <= a < n && 0 <= b < n implies ent(d, a, b) <= ent(d, a, c) + ent(
        d,
        c,
        b,
    ) by {
        assert(ent(d, a, b) == relaxed_entry(d0, k, a, b));
        assert(ent(d, a, c) == relaxed_entry(d0, k, a, c));
        assert(ent(d, c, b) == relaxed_entry(d0, k, c, b));
        if c == k {
            assert(ent(d0, k, k) == 0);
        } else {
            // the sum `d[a][c] + d[c][b]` takes one of four shapes; each
            // is at least one of the two values the pass took a minimum of
            assert(ent(d0, a, b) <= ent(d0, a, c) + ent(d0, c, b));
            assert(ent(d0, k, b) <= ent(d0, k, c) + ent(d0, c, b));
            assert(ent(d0, a, k) <= ent(d0, a, c) + ent(d0, c, k));
            assert(ent(d0, c, k) == ent(d0, k, c));
            assert(ent(d0, c, k) >= 0 && ent(d0, k, c) >= 0);
        }
    }
}

/// Builds the all-pairs oracle over the given waypoints: start from the
/// direct fully-discounted squared distances, then relax every pair
/// through every relay.
pub fn warshall_floyd(points: &Vec<Point>) -> (d: Vec<Vec<i64>>)
    requires
        forall|i: int| 0 <= i < points@.len() ==> in_map(#[trigger] points@[i]),
    ensures
        oracle_ok(points@.len() as int, mat_view(d), points@),
        oracle_triangle(points@.len() as int, mat_view(d)),
        oracle_reachable(points@.len() as int, mat_view(d), points@),
        forall|i: int| 0 <= i < points@.len() ==> #[trigger] mat_view(d)[i][i] == 0,
        d@.len() == points@.len(),
{
    let nv = points.len();
    let ghost pts = points@;
    let ghost n = nv as int;

    let mut distances: Vec<Vec<i64>> = Vec::new();
    let mut i: usize = 0;
    while i < nv
        invariant
            i <= nv,
            nv == pts.len(),
            forall|a: int| 0 <= a < pts.len() ==> in_map(#[trigger] pts[a]),
            pts == points@,
            distances@.len() == i,
            forall|a: int| 0 <= a < i ==> (#[trigger] distances@[a]@).len() == nv,
            forall|a: int, b: int|
                0 <= a < i && 0 <= b < nv ==> #[trigger] ent(distances@, a, b) == 25 * sq_dist(
                    pts[a],
                    pts[b],
                ),
        decreases nv - i,
    {
        let mut row: Vec<i64> = Vec::new();
        let mut j: usize = 0;
        while j < nv
            invariant
                i < nv,
                j <= nv,
                nv == pts.len(),
                forall|a: int| 0 <= a < pts.len() ==> in_map(#[trigger] pts[a]),
                pts == points@,
                row@.len() == j,
                forall|b: int|
                    0 <= b < j ==> #[trigger] row@[b] == 25 * sq_dist(pts[i as int], pts[b]),
            decreases nv - j,
        {
            let dd = points[i].dist_sq(&points[j]);
            row.push(dd * MULTIPLIER * MULTIPLIER);
            j += 1;
        }
        let ghost before = distances@;
        distances.push(row);
        proof {
            assert forall|a: int, b: int| 0 <= a < i && 0 <= b < nv implies #[trigger] ent(
                distances@,
                a,
                b,
            ) == ent(before, a, b) by {
                assert(distances@[a] == before[a]);
            }
            assert forall|b: int| 0 <= b < nv implies #[trigger] ent(distances@, i as int, b)
                == row@[b] by {
                assert(distances@[i as int] == row);
            }
        }
        i += 1;
    }

    proof {
        assert forall|a: int, b: int| 0 <= a < n && 0 <= b < n implies 0 <= #[trigger] ent(
            distances@,
            a,
            b,
        ) <= 25 * sq_dist(pts[a], pts[b]) && ent(distances@, a, b) == ent(distances@, b, a) && (a
            == b ==> ent(distances@, a, b) == 0) by {
            lemma_sq_dist_bounds(pts[a], pts[b]);
            assert(ent(distances@, a, b) == 25 * sq_dist(pts[a], pts[b]));
            assert(ent(distances@, b, a) == 25 * sq_dist(pts[b], pts[a]));
        }
        assert forall|a: int, b: int| 0 <= a < n && 0 <= b < n implies #[trigger] chain_to(
            pts,
            n,
            ent(distances@, a, b) as int,
            a,
            b,
        ) by {
            lemma_sq_dist_bounds(pts[a], pts[b]);
            let c = seq![a as usize, b as usize];
            let tm = true_metric(pts, n);
            assert(c.drop_first() =~= seq![b as usize]);
            assert(tour_cost(tm, seq![b as usize]) == 0);
            assert(walk_cost(pts, n, c) == edge_cost(tm, a, b) + tour_cost(tm, c.drop_first()));
            assert(tm.dmat[a][b] == (25 * sq_dist(pts[a], pts[b])) as i64);
            assert(chain_ok(c, a, b, n));
            assert(walk_cost(pts, n, c) == ent(distances@, a, b) as int);
        }
    }

    let mut k: usize = 0;
    while k < nv
        invariant
            k <= nv,
            nv == pts.len(),
            n == nv as int,
            forall|a: int| 0 <= a < pts.len() ==> in_map(#[trigger] pts[a]),
            pts == points@,
            square_v(distances@, n),
            bounds_v(distances@, pts, n),
            sym_v(distances@, n),
            diag_v(distances@, n),
            relaxed_upto_v(distances@, n, k as int),
            reach_v(distances@, pts, n),
        decreases nv - k,
    {
        let ghost d0 = distances@;
        let mut i2: usize = 0;
        while i2 < nv
            invariant
                k < nv,
                i2 <= nv,
                nv == pts.len(),
                n == nv as int,
                forall|a: int| 0 <= a < pts.len() ==> in_map(#[trigger] pts[a]),
                square_v(distances@, n),
                square_v(d0, n),
                bounds_v(d0, pts, n),
                sym_v(d0, n),
                diag_v(d0, n),
                relaxed_upto_v(d0, n, k as int),
                reach_v(distances@, pts, n),
                reach_v(d0, pts, n),
                forall|a: int, b: int|
                    0 <= a < i2 && 0 <= b < n ==> #[trigger] ent(distances@, a, b)
                        == relaxed_entry(d0, k as int, a, b),
                forall|a: int, b: int|
                    i2 <= a < n && 0 <= b < n ==> #[trigger] ent(distances@, a, b) == ent(
                        d0,
                        a,
                        b,
                    ),
            decreases nv - i2,
        {
            let mut j2: usize = 0;
            while j2 < nv
                invariant
                    k < nv,
                    i2 < nv,
                    j2 <= nv,
                    nv == pts.len(),
                    n == nv as int,
                    forall|a: int| 0 <= a < pts.len() ==> in_map(#[trigger] pts[a]),
                    square_v(distances@, n),
                    square_v(d0, n),
                    bounds_v(d0, pts, n),
                    sym_v(d0, n),
                    diag_v(d0, n),
                    relaxed_upto_v(d0, n, k as int),
                    reach_v(distances@, pts, n),
                    reach_v(d0, pts, n),
                    forall|a: int, b: int|
                        0 <= a < i2 && 0 <= b < n ==> #[trigger] ent(distances@, a, b)
                            == relaxed_entry(d0, k as int, a, b),
                    forall|a: int, b: int|
                        i2 < a < n && 0 <= b < n ==> #[trigger] ent(distances@, a, b) == ent(
                            d0,
                            a,
                            b,
                        ),
                    forall|b: int|
                        0 <= b < j2 ==> #[trigger] ent(distances@, i2 as int, b) == relaxed_entry(
                            d0,
                            k as int,
                            i2 as int,
                            b,
                        ),
                    forall|b: int|
                        j2 <= b < n ==> #[trigger] ent(distances@, i2 as int, b) == ent(
                            d0,
                            i2 as int,
                            b,
                        ),
                decreases nv - j2,
            {
                proof {
                    let ki = k as int;
                    let ii = i2 as int;
                    let ji = j2 as int;
                    // the two entries read below still hold their
                    // start-of-pass values: relaying through `k` cannot
                    // shrink row or column `k`, the diagonal being zero
                    assert(ent(d0, ki, ki) == 0);
                    if ki < ji {
                        assert(ent(distances@, ii, ki) == relaxed_entry(d0, ki, ii, ki));
                    }
                    assert(ent(distances@, ii, ki) == ent(d0, ii, ki));
                    if ki < ii {
                        assert(ent(distances@, ki, ji) == relaxed_entry(d0, ki, ki, ji));
                    }
                    assert(ent(distances@, ki, ji) == ent(d0, ki, ji));
                    lemma_sq_dist_bounds(pts[ii], pts[ki]);
                    lemma_sq_dist_bounds(pts[ki], pts[ji]);
                    lemma_sq_dist_bounds(pts[ii], pts[ji]);
                }
                let ghost before = distances@;
                let via = distances[i2][k] + distances[k][j2];
                if via < distances[i2][j2] {
                    distances[i2][j2] = via;
                }
                proof {
                    let ki = k as int;
                    let ii = i2 as int;
                    let ji = j2 as int;
                    assert forall|a: int, b: int|
                        0 <= a < n && 0 <= b < n && a != ii implies #[trigger] ent(distances@, a, b)
                        == ent(before, a, b) by {
                        assert(distances@[a] == before[a]);
                    }
                    assert forall|b: int| 0 <= b < n && b != ji implies #[trigger] ent(
                        distances@,
                        ii,
                        b,
                    ) == ent(before, ii, b) by {
                        assert(distances@[ii]@ == before[ii]@ || distances@[ii]@ == before[ii]@.update(
                            ji,
                            via,
                        ));
                    }
                    assert forall|a: int| 0 <= a < n implies (#[trigger] distances@[a]@).len()
                        == n by {
                        assert(distances@[a]@ == before[a]@ || distances@[a]@ == before[a]@.update(
                            ji,
                            via,
                        ));
                    }
                    assert(via == ent(d0, ii, ki) + ent(d0, ki, ji));
                    assert(ent(before, ii, ji) == ent(d0, ii, ji));
                    if (via as int) < ent(before, ii, ji) as int {
                        assert(distances@[ii]@ == before[ii]@.update(ji, via));
                        assert(ent(distances@, ii, ji) == via);
                    } else {
                        assert(ent(distances@, ii, ji) == ent(before, ii, ji));
                    }
                    assert(ent(distances@, ii, ji) == relaxed_entry(d0, ki, ii, ji));
                    assert forall|a: int, b: int| 0 <= a < n && 0 <= b < n implies #[trigger] chain_to(
                        pts,
                        n,
                        ent(distances@, a, b) as int,
                        a,
                        b,
                    ) by {
                        if a == ii && b == ji && ent(distances@, ii, ji) != ent(before, ii, ji) {
                            // the entry was lowered to a relay through `k`:
                            // join a chain to `k` with a chain from `k`
                            assert(ent(distances@, ii, ji) as int == ent(d0, ii, ki) + ent(
                                d0,
                                ki,
                                ji,
                            ));
                            assert(chain_to(pts, n, ent(d0, ii, ki) as int, ii, ki));
                            let c1 = choose|c: Seq<usize>|
                                chain_ok(c, ii, ki, n) && #[trigger] walk_cost(pts, n, c) == ent(
                                    d0,
                                    ii,
                                    ki,
                                ) as int;
                            assert(chain_to(pts, n, ent(d0, ki, ji) as int, ki, ji));
                            let c2 = choose|c: Seq<usize>|
                                chain_ok(c, ki, ji, n) && #[trigger] walk_cost(pts, n, c) == ent(
                                    d0,
                                    ki,
                                    ji,
                                ) as int;
                            lemma_walk_join(pts, n, c1, c2);
                            let cj = c1 + c2.drop_first();
                            assert(chain_ok(cj, ii, ji, n)) by {
                                assert(cj[0] == c1[0]);
                                if c2.len() >= 2 {
                                    assert(cj.last() == c2.last());
                                } else {
                                    assert(cj =~= c1);
                                }
                                assert forall|k2: int| 0 <= k2 < cj.len() implies (
                                #[trigger] cj[k2] as int) < n by {
                                    if k2 < c1.len() {
                                        assert(cj[k2] == c1[k2]);
                                    } else {
                                        assert(cj[k2] == c2.drop_first()[k2 - c1.len()]);
                                        assert(c2.drop_first()[k2 - c1.len()] == c2[k2 - c1.len()
                                            + 1]);
                                    }
                                }
                            }
                            assert(walk_cost(pts, n, cj) == ent(distances@, a, b) as int);
                        } else {
                            assert(ent(distances@, a, b) == ent(before, a, b));
                            assert(chain_to(pts, n, ent(before, a, b) as int, a, b));
                        }
                    }
                }
                j2 += 1;
            }
            i2 += 1;
        }
        proof {
            lemma_pass_preserves(d0, distances@, pts, n, k as int);
        }
        k += 1;
    }

    proof {
        assert forall|a: int, b: int| 0 <= a < n && 0 <= b < n implies #[trigger] mat_view(
            distances,
        )[a][b] == ent(distances@, a, b) by {
            assert(mat_view(distances)[a] == distances@[a]@);
        }
        assert forall|a: int| 0 <= a < n implies (#[trigger] mat_view(distances)[a]).len()
            == n by {
            assert(mat_view(distances)[a] == distances@[a]@);
        }
        assert(oracle_ok(n, mat_view(distances), pts));
        assert(oracle_triangle(n, mat_view(distances)));
        assert forall|i: int, j: int| 0 <= i < n && 0 <= j < n implies #[trigger] chain_to(
            pts,
            n,
            mat_view(distances)[i][j] as int,
            i,
            j,
        ) by {
            assert(chain_to(pts, n, ent(distances@, i, j) as int, i, j));
            assert(mat_view(distances)[i][j] == ent(distances@, i, j));
        }
        assert(oracle_reachable(n, mat_view(distances), pts));
    }
    distances
}

} // verus!
