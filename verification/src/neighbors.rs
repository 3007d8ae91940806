//! The four neighborhood operators.  Each draws from the engine's
//! pseudo-random generator, proposes one candidate `Move`, and returns
//! the exact incremental score delta, proved against the score model:
//! the cost of the moved state equals the current cost plus the delta.

use vstd::prelude::*;
use crate::geometry::{Point, in_map, sq_dist, lemma_sq_dist_bounds, MAP_SIZE};
use crate::oracle::mat_view;
use crate::rng::{Xoshiro256, next_state, next_value};
use crate::score::{
    Metric, metric_ok, edge_cost, tour_cost, order_ok, entries_below, count_occ,
    no_adjacent_repeat, spec_mul, lemma_tour_cost_insert, lemma_tour_cost_update,
    lemma_tour_cost_remove, lemma_tour_cost_two_opt, lemma_tour_cost_push, lemma_tour_cost_bounds,
    lemma_count_concat, lemma_count_singleton, lemma_count_le_len, lemma_count_contains,
    lemma_count_two_indices, MAX_EDGE_COST, MAX_TOUR_LEN,
};
use crate::state::{
    Input, State, input_ok, state_ok, points_ok, state_metric, state_cost, get_score_mul,
    lemma_state_metric_ok,
};
use crate::ops::{Move, moved_orders, moved_metric, moved_cost, move_struct_ok};

verus! {

/// The proposal is sound: the move fits the state, and applying it
/// changes the exact cost by the reported delta.
pub open spec fn proposal_ok(inp: Input, st: State, mv: Move, delta: int) -> bool {
    &&& move_struct_ok(inp, st, mv)
    &&& moved_cost(inp, st, mv) == state_cost(inp, st) + delta
}

/// Cost of the edge between waypoint `a` and the station `sid` placed
/// at `p`, in either direction.
fn station_edge(input: &Input, sol: &State, a: usize, sid: usize, p: Point) -> (r: i64)
    requires
        input_ok(*input),
        points_ok(*input, *sol),
        a < input.n + input.m,
        input.n <= sid < input.n + input.m,
        a != sid,
        in_map(p),
    ensures
        ({
            let met = Metric {
                n: input.n as int,
                dmat: mat_view(input.distances),
                pts: sol.points@.update(sid as int, p),
            };
            r == edge_cost(met, a as int, sid as int) && r == edge_cost(met, sid as int, a as int)
                && 0 <= r <= MAX_EDGE_COST
        }),
{
    let mul0 = get_score_mul(a, input.n);
    let d = sol.points[a].dist_sq(&p);
    proof {
        let met = Metric {
            n: input.n as int,
            dmat: mat_view(input.distances),
            pts: sol.points@.update(sid as int, p),
        };
        lemma_sq_dist_bounds(sol.points@[a as int], p);
        lemma_sq_dist_bounds(p, sol.points@[a as int]);
        assert(met.pts[a as int] == sol.points@[a as int]);
        assert(met.pts[sid as int] == p);
        assert(spec_mul(sid as int, input.n as int) == 1);
        assert(0 <= d * mul0 <= MAX_EDGE_COST && d * mul0 == spec_mul(a as int, input.n as int)
            * spec_mul(sid as int, input.n as int) * d && d * mul0 == spec_mul(
            sid as int,
            input.n as int,
        ) * spec_mul(a as int, input.n as int) * d) by (nonlinear_arith)
            requires
                0 <= d <= 2_000_000,
                mul0 == spec_mul(a as int, input.n as int),
                spec_mul(sid as int, input.n as int) == 1,
                mul0 == 1 || mul0 == 5,
        ;
    }
    d * mul0
}

/// What insert-station proposes from generator state `rng`: the drawn
/// move with its exact delta, or nothing when the drawn junction
/// already touches the drawn station.
pub open spec fn insert_proposal(inp: Input, sol: State, rng: Xoshiro256) -> Option<(Move, int)> {
    let o = sol.orders@;
    let station = inp.n + next_value(rng) % (inp.m as u64);
    let index = 1 + next_value(next_state(rng)) % ((o.len() - 1) as u64);
    if station == o[index - 1] || station == o[index] {
        None
    } else {
        let mv = Move::Insert { index: index as usize, station: station as usize };
        Some((mv, moved_cost(inp, sol, mv) - state_cost(inp, sol)))
    }
}

/// Insert-station: a random station at a random junction of the order.
/// The delta trades the bridged edge for the two edges through the
/// station.  A draw that would visit the station right next to one of
/// its own visits is a no-op and is rejected.
pub fn propose_insert(input: &Input, sol: &State, rng: &mut Xoshiro256) -> (r: Option<(Move, i64)>)
    requires
        input_ok(*input),
        state_ok(*input, *sol),
        input.m >= 1,
        sol.orders@.len() + 1 <= MAX_TOUR_LEN,
    ensures
        *final(rng) == next_state(next_state(*old(rng))),
        ({
            let pr = insert_proposal(*input, *sol, *old(rng));
            &&& (r is Some <==> pr is Some)
            &&& (r matches Some(p) ==> pr == Some((p.0, p.1 as int)) && proposal_ok(
                *input,
                *sol,
                p.0,
                p.1 as int,
            ))
        }),
{
    let station_id = input.n + rng.gen_usize(0, input.m);
    let index = rng.gen_usize(1, sol.orders.len());
    let prev = sol.orders[index - 1];
    let next = sol.orders[index];

    if station_id == prev || station_id == next {
        return None;
    }
    let old_score = sol.calc_score(input, prev, next);
    let new_score = sol.calc_score(input, prev, station_id) + sol.calc_score(
        input,
        station_id,
        next,
    );
    let score_diff = new_score - old_score;
    let mv = Move::Insert { index, station: station_id };
    proof {
        let met = state_metric(*input, *sol);
        lemma_tour_cost_insert(met, sol.orders@, index as int, station_id);
        assert(moved_metric(*input, *sol, mv) == met);
    }
    Some((mv, score_diff))
}

/// The bounded retry for a station visit: the position where the first
/// station was found (or wherever the tenth draw landed), with the
/// generator state after the draws taken.
pub open spec fn retry_station(
    o: Seq<usize>,
    n: int,
    rng: Xoshiro256,
    index: int,
    trial: int,
) -> (int, Xoshiro256)
    decreases 10 - trial,
{
    if trial < 0 || trial >= 10 || !(0 <= index < o.len()) || (o[index] as int) >= n {
        (index, rng)
    } else {
        retry_station(
            o,
            n,
            next_state(rng),
            (next_value(rng) % (o.len() as u64)) as int,
            trial + 1,
        )
    }
}

/// The scan over replacement candidates from `cand` up: keeps the
/// strictly cheapest two-edge bridge found so far, never the station
/// being replaced nor one already adjacent to the junction.
pub open spec fn best_swap(
    met: Metric,
    n: int,
    total: int,
    prev: int,
    next: int,
    sid: int,
    cand: int,
    best: Option<usize>,
    score: int,
) -> (Option<usize>, int)
    decreases total - cand,
{
    if cand < n || cand >= total {
        (best, score)
    } else {
        let d2 = edge_cost(met, prev, cand) + edge_cost(met, cand, next);
        if cand != sid && cand != prev && cand != next && d2 < score {
            best_swap(met, n, total, prev, next, sid, cand + 1, Some(cand as usize), d2)
        } else {
            best_swap(met, n, total, prev, next, sid, cand + 1, best, score)
        }
    }
}

/// What remove-or-swap proposes from generator state `rng`, with the
/// generator state its retry leaves behind.
pub open spec fn swap_proposal(inp: Input, sol: State, rng: Xoshiro256) -> (
    Option<(Move, int)>,
    Xoshiro256,
) {
    let o = sol.orders@;
    let found = retry_station(o, inp.n as int, rng, 0, 0);
    let idx = found.0;
    if (o[idx] as int) < inp.n {
        (Option::<(Move, int)>::None, found.1)
    } else {
        let met = state_metric(inp, sol);
        let sid = o[idx] as int;
        let prev = o[idx - 1] as int;
        let next = o[idx + 1] as int;
        let old_cost = edge_cost(met, prev, sid) + edge_cost(met, sid, next);
        let direct = edge_cost(met, prev, next);
        let scan = best_swap(
            met,
            inp.n as int,
            (inp.n + inp.m) as int,
            prev,
            next,
            sid,
            inp.n as int,
            Option::<usize>::None,
            direct,
        );
        match scan.0 {
            Some(st) => (
                Some((Move::Replace { index: idx as usize, station: st }, scan.1 - old_cost)),
                found.1,
            ),
            None => if prev == next && o.len() != 3 {
                (Option::<(Move, int)>::None, found.1)
            } else {
                (Some((Move::Remove { index: idx as usize }, direct - old_cost)), found.1)
            },
        }
    }
}

/// Remove-or-swap-station: find a station visit by bounded random
/// retry; compare dropping it against replacing it by each other
/// station (never one already adjacent to the junction), and propose
/// the cheapest.  `None` when no station visit was found within the
/// retry budget, or when the only option would leave an adjacent
/// duplicate behind.
pub fn propose_remove_or_swap(input: &Input, sol: &State, rng: &mut Xoshiro256) -> (r: Option<
    (Move, i64),
>)
    requires
        input_ok(*input),
        state_ok(*input, *sol),
    ensures
        ({
            let sp = swap_proposal(*input, *sol, *old(rng));
            &&& *final(rng) == sp.1
            &&& (r is Some <==> sp.0 is Some)
            &&& (r matches Some(p) ==> sp.0 == Some((p.0, p.1 as int)) && proposal_ok(
                *input,
                *sol,
                p.0,
                p.1 as int,
            ))
        }),
{
    let ghost met = state_metric(*input, *sol);
    let ghost rng0 = *old(rng);
    let mut index: usize = 0;
    let mut trial: usize = 0;
    while sol.orders[index] < input.n && trial < 10
        invariant
            state_ok(*input, *sol),
            index < sol.orders@.len(),
            trial <= 10,
            retry_station(sol.orders@, input.n as int, rng0, 0, 0) == retry_station(
                sol.orders@,
                input.n as int,
                *rng,
                index as int,
                trial as int,
            ),
        decreases 10 - trial,
    {
        index = rng.gen_usize(0, sol.orders.len());
        trial += 1;
    }
    proof {
        assert(retry_station(sol.orders@, input.n as int, *rng, index as int, trial as int) == (
        index as int,
        *rng,
        ));
    }

    if sol.orders[index] < input.n {
        return None;
    }
    let station_id = sol.orders[index];
    proof {
        assert(sol.orders@[0] == 0usize);
        assert(sol.orders@[sol.orders@.len() - 1] == 0usize);
        assert(index != 0 && index as int != sol.orders@.len() - 1);
    }
    let prev = sol.orders[index - 1];
    let next = sol.orders[index + 1];

    let old_score = sol.calc_score(input, prev, station_id) + sol.calc_score(
        input,
        station_id,
        next,
    );
    let direct = sol.calc_score(input, prev, next);
    let mut new_score = direct;
    let mut best_station: Option<usize> = None;

    let mut cand: usize = input.n;
    while cand < input.n + input.m
        invariant
            input_ok(*input),
            state_ok(*input, *sol),
            met == state_metric(*input, *sol),
            best_swap(
                met,
                input.n as int,
                (input.n + input.m) as int,
                prev as int,
                next as int,
                station_id as int,
                input.n as int,
                Option::<usize>::None,
                edge_cost(met, prev as int, next as int),
            ) == best_swap(
                met,
                input.n as int,
                (input.n + input.m) as int,
                prev as int,
                next as int,
                station_id as int,
                cand as int,
                best_station,
                new_score as int,
            ),
            input.n <= cand <= input.n + input.m,
            prev < input.n + input.m,
            next < input.n + input.m,
            input.n <= station_id < input.n + input.m,
            direct == edge_cost(met, prev as int, next as int),
            match best_station {
                None => new_score == direct,
                Some(s) => {
                    &&& input.n <= s < input.n + input.m
                    &&& s != station_id
                    &&& s != prev
                    &&& s != next
                    &&& new_score == edge_cost(met, prev as int, s as int) + edge_cost(
                        met,
                        s as int,
                        next as int,
                    )
                },
            },
            -200_000_000 <= new_score <= 200_000_000,
        decreases input.n + input.m - cand,
    {
        if cand != station_id && cand != prev && cand != next {
            let d2 = sol.calc_score(input, prev, cand) + sol.calc_score(input, cand, next);
            if d2 < new_score {
                new_score = d2;
                best_station = Some(cand);
            }
        }
        cand += 1;
    }

    proof {
        assert(best_swap(
            met,
            input.n as int,
            (input.n + input.m) as int,
            prev as int,
            next as int,
            station_id as int,
            cand as int,
            best_station,
            new_score as int,
        ) == (best_station, new_score as int));
    }
    let score_diff = new_score - old_score;
    match best_station {
        Some(s) => {
            let mv = Move::Replace { index, station: s };
            proof {
                lemma_tour_cost_update(met, sol.orders@, index as int, s);
                assert(moved_metric(*input, *sol, mv) == met);
            }
            Some((mv, score_diff))
        },
        None => {
            // dropping the visit must not leave its two neighbors as an
            // adjacent duplicate, unless only the bare round trip remains
            if prev == next && sol.orders.len() != 3 {
                return None;
            }
            let mv = Move::Remove { index };
            proof {
                lemma_tour_cost_remove(met, sol.orders@, index as int);
                assert(moved_metric(*input, *sol, mv) == met);
            }
            Some((mv, score_diff))
        },
    }
}

/// What 2-opt proposes from generator state `rng`: the drawn segment
/// reversal with its exact delta, or nothing when the drawn boundary
/// values coincide.
pub open spec fn two_opt_proposal(inp: Input, sol: State, rng: Xoshiro256) -> Option<(Move, int)> {
    let o = sol.orders@;
    let from = 1 + next_value(rng) % ((o.len() - 2) as u64);
    let to = from + 1 + next_value(next_state(rng)) % ((o.len() - from - 1) as u64);
    if o[from - 1] == o[to - 1] || o[from] == o[to] {
        None
    } else {
        let mv = Move::TwoOpt { from: from as usize, to: to as usize };
        Some((mv, moved_cost(inp, sol, mv) - state_cost(inp, sol)))
    }
}

/// 2-opt: reverse a random inner segment.  Only the two boundary edges
/// change.  A draw whose boundary values coincide would duplicate an
/// adjacent entry and is rejected.
pub fn propose_two_opt(input: &Input, sol: &State, rng: &mut Xoshiro256) -> (r: Option<(Move, i64)>)
    requires
        input_ok(*input),
        state_ok(*input, *sol),
        sol.orders@.len() >= 3,
    ensures
        *final(rng) == next_state(next_state(*old(rng))),
        ({
            let pr = two_opt_proposal(*input, *sol, *old(rng));
            &&& (r is Some <==> pr is Some)
            &&& (r matches Some(p) ==> pr == Some((p.0, p.1 as int)) && proposal_ok(
                *input,
                *sol,
                p.0,
                p.1 as int,
            ))
        }),
{
    let from = rng.gen_usize(1, sol.orders.len() - 1);
    let to = rng.gen_usize(from + 1, sol.orders.len());

    let i0 = sol.orders[from - 1];
    let i1 = sol.orders[from];
    let i2 = sol.orders[to - 1];
    let i3 = sol.orders[to];

    if i0 == i2 || i1 == i3 {
        return None;
    }
    let d01 = sol.calc_score(input, i0, i1);
    let d23 = sol.calc_score(input, i2, i3);
    let d02 = sol.calc_score(input, i0, i2);
    let d13 = sol.calc_score(input, i1, i3);

    let score_diff = d02 + d13 - d01 - d23;
    let mv = Move::TwoOpt { from, to };
    proof {
        let met = state_metric(*input, *sol);
        lemma_state_metric_ok(*input, *sol);
        lemma_tour_cost_two_opt(met, sol.orders@, from as int, to as int);
        assert(moved_metric(*input, *sol, mv) == met);
    }
    Some((mv, score_diff))
}

/// Relocate-station: take one station out of the order, displace its
/// coordinate by at most `spread` in each direction (clamped to the
/// map), then re-decide greedily, junction by junction, where visiting
/// the station is profitable.  Where taking the station out left two
/// equal entries side by side, the second is folded away, so the
/// re-threaded order never repeats an adjacent entry.  The delta
/// compares the re-threaded order against the current score.
#[verifier::rlimit(100)]
pub fn propose_relocate(
    input: &Input,
    sol: &State,
    current_score: i64,
    rng: &mut Xoshiro256,
    spread: i32,
) -> (r: (Move, i64))
    requires
        input_ok(*input),
        state_ok(*input, *sol),
        input.m >= 1,
        2 * sol.orders@.len() <= MAX_TOUR_LEN,
        current_score == state_cost(*input, *sol),
        0 <= spread <= 1000,
    ensures
        proposal_ok(*input, *sol, r.0, r.1 as int),
        r.0 is Relocate,
        ({
            let s0 = *old(rng);
            let s1 = next_state(s0);
            let s2 = next_state(s1);
            let drawn = input.n + next_value(s0) % (input.m as u64);
            let home = sol.points@[drawn as int];
            let lo_x = if home.x - spread > 0 {
                home.x - spread
            } else {
                0
            };
            let hi_x = (if home.x + spread < MAP_SIZE {
                home.x + spread
            } else {
                MAP_SIZE as int
            }) + 1;
            let lo_y = if home.y - spread > 0 {
                home.y - spread
            } else {
                0
            };
            let hi_y = (if home.y + spread < MAP_SIZE {
                home.y + spread
            } else {
                MAP_SIZE as int
            }) + 1;
            &&& *final(rng) == next_state(s2)
            &&& (r.0 matches Move::Relocate { station, point, orders } ==> ({
                &&& station == drawn
                &&& point.x == lo_x + next_value(s1) % ((hi_x - lo_x) as u64)
                &&& point.y == lo_y + next_value(s2) % ((hi_y - lo_y) as u64)
            }))
        }),
{
    let n = input.n;
    let total = input.n + input.m;
    let station_id = n + rng.gen_usize(0, input.m);
    let len = sol.orders.len();

    // take every visit of the chosen station out of the order
    let mut temp: Vec<usize> = Vec::new();
    let mut i: usize = 0;
    while i < len
        invariant
            input_ok(*input),
            state_ok(*input, *sol),
            n == input.n,
            total == input.n + input.m,
            len == sol.orders@.len(),
            n <= station_id < total,
            i <= len,
            temp@.len() <= i,
            forall|t: int| 0 <= t < temp@.len() ==> (#[trigger] temp@[t]) < total,
            forall|t: int| 0 <= t < temp@.len() ==> (#[trigger] temp@[t]) != station_id,
            forall|v: usize|
                v != station_id ==> #[trigger] count_occ(temp@, v) == count_occ(
                    sol.orders@.subrange(0, i as int),
                    v,
                ),
            i > 0 ==> temp@.len() > 0 && temp@[0] == sol.orders@[0],
            i > 0 && sol.orders@[i - 1] != station_id ==> temp@.len() > 0 && temp@.last()
                == sol.orders@[i - 1],
        decreases len - i,
    {
        let v = sol.orders[i];
        let ghost temp0 = temp@;
        if v != station_id {
            temp.push(v);
        }
        proof {
            assert(sol.orders@.subrange(0, i as int + 1) =~= sol.orders@.subrange(
                0,
                i as int,
            ).push(v));
            assert forall|w: usize| w != station_id implies #[trigger] count_occ(temp@, w)
                == count_occ(sol.orders@.subrange(0, i as int + 1), w) by {
                lemma_count_concat(sol.orders@.subrange(0, i as int), seq![v], w);
                lemma_count_singleton(v, w);
                assert(sol.orders@.subrange(0, i as int + 1) =~= sol.orders@.subrange(0, i as int)
                    + seq![v]);
                if v != station_id {
                    assert(temp@ =~= temp0 + seq![v]);
                    lemma_count_concat(temp0, seq![v], w);
                } else {
                    assert(temp@ == temp0);
                }
            }
        }
        i += 1;
    }
    proof {
        assert(sol.orders@.subrange(0, len as int) =~= sol.orders@);
        assert(count_occ(temp@, 0usize) == 2) by {
            assert(0usize != station_id);
        }
        lemma_count_le_len(temp@, 0usize);
        assert(temp@.len() >= 2);
        assert(temp@.last() == 0usize) by {
            assert(sol.orders@[len - 1] == 0usize);
        }
        assert(temp@[0] == 0usize);
        // the depot appears only at the two ends of the stripped order
        assert forall|t: int| 1 <= t < temp@.len() - 1 implies temp@[t] != 0usize by {
            let mid = temp@.subrange(1, temp@.len() - 1);
            assert(temp@ =~= seq![0usize] + (mid + seq![0usize]));
            lemma_count_concat(seq![0usize], mid + seq![0usize], 0usize);
            lemma_count_concat(mid, seq![0usize], 0usize);
            lemma_count_singleton(0usize, 0usize);
            lemma_count_contains(mid, 0usize);
            assert(mid[t - 1] == temp@[t]);
        }
    }

    // displace the station, shrinking the jitter with the given spread
    let old_p = sol.points[station_id];
    let lx = if old_p.x - spread > 0 {
        old_p.x - spread
    } else {
        0
    };
    let ux = (if old_p.x + spread < MAP_SIZE {
        old_p.x + spread
    } else {
        MAP_SIZE
    }) + 1;
    let px = rng.gen_i32(lx, ux);
    let ly = if old_p.y - spread > 0 {
        old_p.y - spread
    } else {
        0
    };
    let uy = (if old_p.y + spread < MAP_SIZE {
        old_p.y + spread
    } else {
        MAP_SIZE
    }) + 1;
    let py = rng.gen_i32(ly, uy);
    let new_point = Point::new(px, py);

    let ghost met = state_metric(*input, *sol);
    let ghost met2 = Metric {
        n: input.n as int,
        dmat: mat_view(input.distances),
        pts: sol.points@.update(station_id as int, new_point),
    };
    proof {
        assert(in_map(new_point));
        assert(metric_ok(met2)) by {
            lemma_state_metric_ok(*input, *sol);
            assert forall|t: int| 0 <= t < met2.pts.len() implies in_map(#[trigger] met2.pts[t]) by {
                if t != station_id as int {
                    assert(met2.pts[t] == sol.points@[t]);
                }
            }
            assert forall|a: int, b: int| 0 <= a < met2.n && 0 <= b < met2.n implies 0
                <= #[trigger] met2.dmat[a][b] <= 25 * sq_dist(met2.pts[a], met2.pts[b]) by {
                assert(met2.pts[a] == sol.points@[a] && met2.pts[b] == sol.points@[b]);
                assert(sol.points@[a] == input.points@[a] && sol.points@[b] == input.points@[b]);
            }
        }
    }

    // re-thread: between every remaining junction, visit the station
    // exactly where it is locally profitable
    let mut new_orders: Vec<usize> = Vec::new();
    let mut new_score: i64 = 0;
    let mut w: usize = 0;
    let tlen = temp.len();
    while w < tlen - 1
        invariant
            input_ok(*input),
            state_ok(*input, *sol),
            n == input.n,
            total == input.n + input.m,
            n <= station_id < total,
            in_map(new_point),
            metric_ok(met2),
            met == state_metric(*input, *sol),
            met2 == (Metric {
                n: input.n as int,
                dmat: mat_view(input.distances),
                pts: sol.points@.update(station_id as int, new_point),
            }),
            tlen == temp@.len(),
            2 <= tlen,
            2 * sol.orders@.len() <= MAX_TOUR_LEN,
            temp@.len() <= sol.orders@.len(),
            forall|t: int| 0 <= t < temp@.len() ==> (#[trigger] temp@[t]) < total,
            forall|t: int| 0 <= t < temp@.len() ==> (#[trigger] temp@[t]) != station_id,
            forall|v: usize|
                v != station_id ==> #[trigger] count_occ(temp@, v) == count_occ(sol.orders@, v),
            temp@[0] == 0usize,
            temp@.last() == 0usize,
            forall|t: int| 1 <= t < temp@.len() - 1 ==> #[trigger] temp@[t] != 0usize,
            w <= tlen - 1,
            new_orders@.len() <= 2 * w,
            forall|t: int| 0 <= t < new_orders@.len() ==> (#[trigger] new_orders@[t]) < total,
            w > 0 ==> new_orders@.len() > 0 && new_orders@[0] == 0usize,
            w > 0 ==> (new_orders@.last() == temp@[w - 1] || new_orders@.last() == station_id),
            w >= 2 ==> new_orders@.last() != 0usize,
            no_adjacent_repeat(new_orders@),
            forall|v: usize|
                (v as int) < n ==> #[trigger] count_occ(new_orders@, v) == count_occ(
                    temp@.subrange(0, w as int),
                    v,
                ),
            new_score == tour_cost(met2, new_orders@.push(temp@[w as int])),
            0 <= new_score,
        decreases tlen - w,
    {
        let prev = temp[w];
        let next = temp[w + 1];
        let ghost no0 = new_orders@;
        let push_prev = if new_orders.len() == 0 {
            true
        } else {
            new_orders[new_orders.len() - 1] != prev
        };
        if push_prev {
            new_orders.push(prev);
        }
        let ghost no1 = new_orders@;
        proof {
            if push_prev {
                assert(no1 == no0.push(prev));
                assert forall|k: int|
                    #![trigger no1[k]]
                    0 <= k < no1.len() - 1 implies no1[k] != no1[k + 1] by {
                    if k < no0.len() - 1 {
                        assert(no1[k] == no0[k] && no1[k + 1] == no0[k + 1]);
                    } else {
                        assert(no1[k] == no0.last() && no1[k + 1] == prev);
                    }
                }
                assert forall|v: usize| (v as int) < n implies #[trigger] count_occ(no1, v)
                    == count_occ(temp@.subrange(0, w as int + 1), v) by {
                    lemma_count_concat(no0, seq![prev], v);
                    lemma_count_singleton(prev, v);
                    assert(no1 =~= no0 + seq![prev]);
                    lemma_count_concat(temp@.subrange(0, w as int), seq![temp@[w as int]], v);
                    lemma_count_singleton(temp@[w as int], v);
                    assert(temp@.subrange(0, w as int + 1) =~= temp@.subrange(0, w as int)
                        + seq![temp@[w as int]]);
                }
            } else {
                assert(no1 == no0);
                assert(no0.len() >= 1 && no0.last() == prev);
                assert(w >= 1);
                // the folded value is a station: the depot never stands
                // in the middle, and a mandatory waypoint is visited
                // once, so it cannot stand on both sides of a removal
                assert(prev == temp@[w - 1]);
                assert(prev != 0usize);
                if (prev as int) < n {
                    lemma_count_two_indices(temp@, prev, w as int - 1, w as int);
                    assert(count_occ(temp@, prev) == count_occ(sol.orders@, prev));
                    assert(false);
                }
                lemma_tour_cost_push(met2, no0, prev);
                lemma_sq_dist_bounds(met2.pts[prev as int], met2.pts[prev as int]);
                assert(edge_cost(met2, prev as int, prev as int) == spec_mul(prev as int, met2.n)
                    * spec_mul(prev as int, met2.n) * sq_dist(
                    met2.pts[prev as int],
                    met2.pts[prev as int],
                ));
                assert(spec_mul(prev as int, met2.n) * spec_mul(prev as int, met2.n) * 0 == 0)
                    by (nonlinear_arith);
                assert(new_score == tour_cost(met2, no1));
                assert forall|v: usize| (v as int) < n implies #[trigger] count_occ(no1, v)
                    == count_occ(temp@.subrange(0, w as int + 1), v) by {
                    lemma_count_concat(temp@.subrange(0, w as int), seq![temp@[w as int]], v);
                    lemma_count_singleton(temp@[w as int], v);
                    assert(temp@.subrange(0, w as int + 1) =~= temp@.subrange(0, w as int)
                        + seq![temp@[w as int]]);
                }
            }
            assert(no1.last() == prev);
            assert(new_score == tour_cost(met2, no1));
            lemma_tour_cost_bounds(met2, no1);
            assert(entries_below(no1, met2.pts.len() as int));
        }

        let old_direct = sol.calc_score(input, prev, next);
        proof {
            // the direct edge does not touch the relocated station, so
            // its cost is the same under the displaced coordinates
            assert(prev != station_id && next != station_id);
            assert(met2.pts[prev as int] == sol.points@[prev as int]);
            assert(met2.pts[next as int] == sol.points@[next as int]);
            assert(met.pts == sol.points@ && met.n == met2.n && met.dmat == met2.dmat);
            assert(edge_cost(met2, prev as int, next as int) == edge_cost(
                met,
                prev as int,
                next as int,
            ));
        }
        let e_prev = station_edge(input, sol, prev, station_id, new_point);
        let e_next = station_edge(input, sol, next, station_id, new_point);
        proof {
            lemma_tour_cost_push(met2, no1, station_id);
            lemma_tour_cost_push(met2, no1.push(station_id), next);
            assert(no1.push(station_id).last() == station_id);
            lemma_tour_cost_push(met2, no1, next);
            assert(entries_below(no1.push(station_id).push(next), met2.pts.len() as int));
            assert(entries_below(no1.push(next), met2.pts.len() as int));
            assert(no1.push(station_id).push(next).len() <= 2 * tlen);
            lemma_tour_cost_bounds(met2, no1.push(station_id).push(next));
            lemma_tour_cost_bounds(met2, no1.push(next));
        }
        let new_dist = e_prev + e_next;

        if new_dist < old_direct {
            new_orders.push(station_id);
            proof {
                assert(new_orders@ == no1.push(station_id));
                assert forall|k: int|
                    #![trigger new_orders@[k]]
                    0 <= k < new_orders@.len() - 1 implies new_orders@[k] != new_orders@[k
                    + 1] by {
                    if k < no1.len() - 1 {
                        assert(new_orders@[k] == no1[k] && new_orders@[k + 1] == no1[k + 1]);
                    } else {
                        assert(new_orders@[k] == prev && new_orders@[k + 1] == station_id);
                    }
                }
                assert forall|v: usize| (v as int) < n implies #[trigger] count_occ(
                    new_orders@,
                    v,
                ) == count_occ(temp@.subrange(0, w as int + 1), v) by {
                    lemma_count_concat(no1, seq![station_id], v);
                    lemma_count_singleton(station_id, v);
                    assert(new_orders@ =~= no1 + seq![station_id]);
                }
            }
            new_score = new_score + new_dist;
        } else {
            new_score = new_score + old_direct;
        }
        proof {
            assert(w + 1 >= 2 ==> new_orders@.last() != 0usize) by {
                if w >= 1 {
                    assert(temp@[w as int] != 0usize);
                }
                assert(station_id != 0usize);
            }
        }
        w += 1;
    }

    let ghost no_final = new_orders@;
    new_orders.push(0);
    proof {
        lemma_state_metric_ok(*input, *sol);
        lemma_tour_cost_bounds(met, sol.orders@);
        assert(new_orders@ == no_final.push(0usize));
        assert(new_score == tour_cost(met2, new_orders@)) by {
            assert(temp@[tlen - 1] == temp@.last());
        }
        assert(entries_below(new_orders@, met2.pts.len() as int));
        lemma_tour_cost_bounds(met2, new_orders@);
    }
    let score_diff = new_score - current_score;
    let mv = Move::Relocate { station: station_id, point: new_point, orders: new_orders };
    proof {
        assert(new_orders@ == no_final.push(0usize));
        assert(temp@[tlen - 1] == 0usize);
        assert(new_score == tour_cost(met2, new_orders@));
        // the re-threaded order is well formed
        assert forall|v: usize| (v as int) < n implies #[trigger] count_occ(new_orders@, v)
            == count_occ(temp@, v) by {
            lemma_count_concat(no_final, seq![0usize], v);
            lemma_count_singleton(0usize, v);
            assert(new_orders@ =~= no_final + seq![0usize]);
            lemma_count_concat(temp@.subrange(0, tlen - 1), seq![temp@[tlen - 1]], v);
            lemma_count_singleton(temp@[tlen - 1], v);
            assert(temp@ =~= temp@.subrange(0, tlen - 1) + seq![temp@[tlen - 1]]);
        }
        assert(count_occ(new_orders@, 0usize) == 2);
        // no adjacent repeat, or the bare depot round trip
        assert(no_final.last() != 0usize || new_orders@.len() == 2) by {
            if tlen >= 3 {
            } else {
                if no_final.last() == 0usize && no_final.len() >= 2 {
                    assert(no_final[0] == 0usize);
                    assert(no_final.len() <= 2);
                    assert(no_final[no_final.len() - 2] != no_final[no_final.len() - 1]);
                    assert(false);
                }
            }
        }
        assert(new_orders@.len() == 2 || no_adjacent_repeat(new_orders@)) by {
            if new_orders@.len() > 2 {
                assert forall|k: int|
                    #![trigger new_orders@[k]]
                    0 <= k < new_orders@.len() - 1 implies new_orders@[k] != new_orders@[k
                    + 1] by {
                    if k < no_final.len() - 1 {
                        assert(new_orders@[k] == no_final[k] && new_orders@[k + 1] == no_final[k
                            + 1]);
                    } else {
                        assert(new_orders@[k] == no_final.last() && new_orders@[k + 1] == 0usize);
                    }
                }
            }
        }
        assert(order_ok(input.n as int, total as int, new_orders@)) by {
            assert(new_orders@[0] == 0usize);
            assert(new_orders@[new_orders@.len() - 1] == 0usize);
            assert(new_orders@.len() <= 2 * (tlen - 1) + 1);
        }
        assert(moved_metric(*input, *sol, mv) == met2);
        assert(moved_orders(sol.orders@, mv) == new_orders@);
        assert(moved_cost(*input, *sol, mv) == new_score);
    }
    (mv, score_diff)
}

} // verus!
