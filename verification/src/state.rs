//! The problem instance and the mutable tour state: waypoint coordinates
//! (mandatory ones fixed, stations movable) and the current visiting
//! order, with the executable score functions proved against the score
//! model.

use vstd::prelude::*;
use crate::geometry::{Point, in_map, sq_dist, lemma_sq_dist_bounds};
use crate::oracle::{mat_view, warshall_floyd};
use crate::score::{
    Metric, metric_ok, oracle_ok, oracle_triangle, oracle_reachable, edge_cost, tour_cost,
    order_ok, entries_below, count_occ, spec_mul, lemma_tour_cost_push, lemma_count_concat,
    lemma_count_singleton, MULTIPLIER, MAX_EDGE_COST, MAX_TOUR_LEN,
};

verus! {

/// Cap on the total count of waypoints an instance may hold.
pub const MAX_WAYPOINTS: usize = 100_000;

/// A problem instance: `n` mandatory waypoints with fixed coordinates,
/// `m` relocatable stations, and the precomputed distance oracle over
/// the mandatory waypoints.
pub struct Input {
    pub n: usize,
    pub m: usize,
    pub points: Vec<Point>,
    pub distances: Vec<Vec<i64>>,
}

/// A well-formed instance: at least the depot, all coordinates on the
/// map, and a well-formed triangle-closed oracle.
pub open spec fn input_ok(inp: Input) -> bool {
    &&& 1 <= inp.n
    &&& inp.n + inp.m <= MAX_WAYPOINTS
    &&& inp.points@.len() == inp.n
    &&& (forall|i: int| 0 <= i < inp.n ==> in_map(#[trigger] inp.points@[i]))
    &&& oracle_ok(inp.n as int, mat_view(inp.distances), inp.points@)
    &&& oracle_triangle(inp.n as int, mat_view(inp.distances))
    &&& oracle_reachable(inp.n as int, mat_view(inp.distances), inp.points@)
    &&& inp.distances@.len() == inp.n
}

/// The mutable tour state: the live coordinate table (mandatory first,
/// then stations) and the visiting order.
pub struct State {
    pub points: Vec<Point>,
    pub orders: Vec<usize>,
}

/// The coordinate table agrees with the instance: right length, the
/// mandatory prefix untouched, everything on the map.
pub open spec fn points_ok(inp: Input, st: State) -> bool {
    &&& st.points@.len() == inp.n + inp.m
    &&& (forall|i: int| 0 <= i < inp.n ==> #[trigger] st.points@[i] == inp.points@[i])
    &&& (forall|i: int| 0 <= i < st.points@.len() ==> in_map(#[trigger] st.points@[i]))
}

/// A fully well-formed state: valid coordinates and a valid visiting
/// order.
pub open spec fn state_ok(inp: Input, st: State) -> bool {
    &&& points_ok(inp, st)
    &&& order_ok(inp.n as int, (inp.n + inp.m) as int, st.orders@)
}

/// The metric a state is scored under: the instance's count and oracle,
/// the state's live coordinates.
pub open spec fn state_metric(inp: Input, st: State) -> Metric {
    Metric { n: inp.n as int, dmat: mat_view(inp.distances), pts: st.points@ }
}

/// The exact score of a state.
pub open spec fn state_cost(inp: Input, st: State) -> int {
    tour_cost(state_metric(inp, st), st.orders@)
}

/// A well-formed state is scored under a well-formed metric.
pub proof fn lemma_state_metric_ok(inp: Input, st: State)
    requires
        input_ok(inp),
        points_ok(inp, st),
    ensures
        metric_ok(state_metric(inp, st)),
{
    let m = state_metric(inp, st);
    assert forall|i: int, j: int| 0 <= i < m.n && 0 <= j < m.n implies 0 <= #[trigger] m.dmat[i][j]
        <= 25 * sq_dist(m.pts[i], m.pts[j]) by {
        assert(m.pts[i] == inp.points@[i] && m.pts[j] == inp.points@[j]);
    }
}

/// Discount multiplier of waypoint `v` among `threshold` mandatory
/// waypoints.
pub fn get_score_mul(v: usize, threshold: usize) -> (r: i64)
    ensures
        r == spec_mul(v as int, threshold as int),
        r == 1 || r == MULTIPLIER,
{
    if v < threshold {
        MULTIPLIER
    } else {
        1
    }
}

/// `count_occ` of a sequence whose entry at each position is the
/// position itself.
proof fn lemma_count_ramp(s: Seq<usize>, v: usize)
    requires
        forall|t: int| 0 <= t < s.len() ==> #[trigger] s[t] == t,
    ensures
        count_occ(s, v) == if (v as int) < s.len() {
            1int
        } else {
            0int
        },
    decreases s.len(),
{
    if s.len() > 0 {
        let d = s.drop_last();
        assert(forall|t: int| 0 <= t < d.len() ==> #[trigger] d[t] == t);
        lemma_count_ramp(d, v);
        assert(s =~= d + seq![s.last()]);
        lemma_count_concat(d, seq![s.last()], v);
        lemma_count_singleton(s.last(), v);
    }
}

impl State {
    pub fn new(points: Vec<Point>, orders: Vec<usize>) -> (st: Self)
        ensures
            st.points == points,
            st.orders == orders,
    {
        Self { points, orders }
    }

    /// The deterministic starting state: stations placed on the depot,
    /// and the identity order `0, 1, ..., n-1, 0`.
    pub fn init(input: &Input) -> (st: Self)
        requires
            input_ok(*input),
        ensures
            state_ok(*input, st),
            st.orders@.len() == input.n + 1,
            forall|i: int| 0 <= i < input.n ==> #[trigger] st.orders@[i] == i,
            st.orders@[input.n as int] == 0usize,
            forall|i: int|
                input.n <= i < input.n + input.m ==> #[trigger] st.points@[i] == input.points@[0],
    {
        let n = input.n;
        let m = input.m;
        let mut points: Vec<Point> = Vec::new();
        let mut i: usize = 0;
        while i < n
            invariant
                i <= n,
                input.points@.len() == n,
                points@.len() == i,
                forall|t: int| 0 <= t < i ==> #[trigger] points@[t] == input.points@[t],
            decreases n - i,
        {
            points.push(input.points[i]);
            i += 1;
        }
        let depot = points[0];
        let mut j: usize = 0;
        while j < m
            invariant
                j <= m,
                n + m <= MAX_WAYPOINTS,
                points@.len() == n + j,
                depot == input.points@[0],
                forall|t: int| 0 <= t < n ==> #[trigger] points@[t] == input.points@[t],
                forall|t: int| n <= t < n + j ==> #[trigger] points@[t] == depot,
            decreases m - j,
        {
            points.push(depot);
            j += 1;
        }

        let mut orders: Vec<usize> = Vec::new();
        let mut k: usize = 0;
        while k < n
            invariant
                k <= n,
                orders@.len() == k,
                forall|t: int| 0 <= t < k ==> #[trigger] orders@[t] == t,
            decreases n - k,
        {
            orders.push(k);
            k += 1;
        }
        let ghost ramp = orders@;
        orders.push(0);

        proof {
            assert(orders@ =~= ramp + seq![0usize]);
            assert forall|v: usize| true implies #[trigger] count_occ(orders@, v) == (if v == 0 {
                2int
            } else if (v as int) < n {
                1int
            } else {
                0int
            }) by {
                lemma_count_ramp(ramp, v);
                lemma_count_concat(ramp, seq![0usize], v);
                lemma_count_singleton(0usize, v);
            }
        }

        Self::new(points, orders)
    }

    /// A full deep copy of the state.
    pub fn duplicate(&self) -> (st: Self)
        ensures
            st.points@ == self.points@,
            st.orders@ == self.orders@,
    {
        let mut points: Vec<Point> = Vec::new();
        let mut i: usize = 0;
        while i < self.points.len()
            invariant
                i <= self.points@.len(),
                points@.len() == i,
                forall|t: int| 0 <= t < i ==> #[trigger] points@[t] == self.points@[t],
            decreases self.points@.len() - i,
        {
            points.push(self.points[i]);
            i += 1;
        }
        let mut orders: Vec<usize> = Vec::new();
        let mut j: usize = 0;
        while j < self.orders.len()
            invariant
                j <= self.orders@.len(),
                orders@.len() == j,
                forall|t: int| 0 <= t < j ==> #[trigger] orders@[t] == self.orders@[t],
            decreases self.orders@.len() - j,
        {
            orders.push(self.orders[j]);
            j += 1;
        }
        proof {
            assert(points@ =~= self.points@);
            assert(orders@ =~= self.orders@);
        }
        Self { points, orders }
    }

    /// Cost of the single edge `prev -> next` under the live
    /// coordinates: the oracle entry for a mandatory pair, the
    /// discounted squared distance otherwise.
    pub fn calc_score(&self, input: &Input, prev: usize, next: usize) -> (r: i64)
        requires
            input_ok(*input),
            points_ok(*input, *self),
            prev < input.n + input.m,
            next < input.n + input.m,
        ensures
            r == edge_cost(state_metric(*input, *self), prev as int, next as int),
            0 <= r <= MAX_EDGE_COST,
    {
        proof {
            lemma_sq_dist_bounds(self.points@[prev as int], self.points@[next as int]);
        }
        if prev < input.n && next < input.n {
            proof {
                assert(mat_view(input.distances)[prev as int] == input.distances@[prev as int]@);
                assert((mat_view(input.distances)[prev as int]).len() == input.n);
            }
            let r = input.distances[prev][next];
            proof {
                assert(mat_view(input.distances)[prev as int] == input.distances@[prev as int]@);
                assert(self.points@[prev as int] == input.points@[prev as int]);
                assert(self.points@[next as int] == input.points@[next as int]);
            }
            r
        } else {
            let mul0 = get_score_mul(prev, input.n);
            let mul1 = get_score_mul(next, input.n);
            let d = self.points[prev].dist_sq(&self.points[next]);
            proof {
                assert(0 <= d * mul0 <= 10_000_000 && 0 <= d * mul0 * mul1 <= MAX_EDGE_COST && d
                    * mul0 * mul1 == spec_mul(prev as int, input.n as int) * spec_mul(
                    next as int,
                    input.n as int,
                ) * d) by (nonlinear_arith)
                    requires
                        0 <= d <= 2_000_000,
                        mul0 == spec_mul(prev as int, input.n as int),
                        mul1 == spec_mul(next as int, input.n as int),
                        mul0 == 1 || mul0 == 5,
                        mul1 == 1 || mul1 == 5,
                ;
            }
            d * mul0 * mul1
        }
    }

    /// The total score: the sum of the edge costs along the order.
    pub fn calc_score_all(&self, input: &Input) -> (r: i64)
        requires
            input_ok(*input),
            points_ok(*input, *self),
            entries_below(self.orders@, (input.n + input.m) as int),
            self.orders@.len() <= MAX_TOUR_LEN,
        ensures
            r == state_cost(*input, *self),
            0 <= r,
    {
        let ghost met = state_metric(*input, *self);
        if self.orders.len() < 2 {
            return 0;
        }
        let mut score: i64 = 0;
        let mut i: usize = 1;
        proof {
            assert(self.orders@.subrange(0, 1) =~= seq![self.orders@[0]]);
        }
        while i < self.orders.len()
            invariant
                input_ok(*input),
                points_ok(*input, *self),
                entries_below(self.orders@, (input.n + input.m) as int),
                2 <= self.orders@.len() <= MAX_TOUR_LEN,
                1 <= i <= self.orders@.len(),
                met == state_metric(*input, *self),
                score == tour_cost(met, self.orders@.subrange(0, i as int)),
                0 <= score <= (i - 1) * MAX_EDGE_COST,
            decreases self.orders@.len() - i,
        {
            let prev = self.orders[i - 1];
            let next = self.orders[i];
            let e = self.calc_score(input, prev, next);
            proof {
                let pre = self.orders@.subrange(0, i as int);
                assert(self.orders@.subrange(0, i as int + 1) =~= pre.push(next));
                assert(pre.last() == prev);
                lemma_tour_cost_push(met, pre, next);
                assert((i - 1) * MAX_EDGE_COST + MAX_EDGE_COST == i * MAX_EDGE_COST)
                    by (nonlinear_arith);
            }
            score = score + e;
            i += 1;
        }
        proof {
            assert(self.orders@.subrange(0, self.orders@.len() as int) =~= self.orders@);
        }
        score
    }
}

impl Input {
    /// Builds an instance: keeps the counts and coordinates and
    /// precomputes the distance oracle over the mandatory waypoints.
    pub fn new(n: usize, m: usize, points: Vec<Point>) -> (inp: Input)
        requires
            1 <= n,
            n + m <= MAX_WAYPOINTS,
            points@.len() == n,
            forall|i: int| 0 <= i < n ==> in_map(#[trigger] points@[i]),
        ensures
            input_ok(inp),
            inp.n == n,
            inp.m == m,
            inp.points == points,
    {
        let distances = warshall_floyd(&points);
        Input { n, m, points, distances }
    }
}

/// The output tag of a waypoint: mandatory waypoints are category 1,
/// stations category 2, each numbered from 1 within its own category.
pub fn tag_waypoint(v: usize, n: usize) -> (t: (usize, usize))
    requires
        v < MAX_WAYPOINTS,
    ensures
        v < n ==> t == (1usize, (v + 1) as usize),
        v >= n ==> t == (2usize, (v + 1 - n) as usize),
{
    if v < n {
        (1, v + 1)
    } else {
        (2, v + 1 - n)
    }
}

} // verus!
