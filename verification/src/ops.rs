//! The neighborhood moves: each is a value describing one candidate
//! splice of the tour, applied only on acceptance.  `moved_orders` and
//! `moved_points` say exactly what a move does; `apply_move` performs it
//! and is proved to keep the state well formed.

use vstd::prelude::*;
use crate::geometry::{Point, in_map};
use crate::score::{
    Metric, tour_cost, order_ok, entries_below, count_occ, no_adjacent_repeat,
    lemma_count_concat, lemma_count_singleton, lemma_count_reverse, MAX_TOUR_LEN,
};
use crate::state::{Input, State, input_ok, state_ok};

verus! {

/// One candidate mutation of the tour.
pub enum Move {
    /// Visit `station` between positions `index - 1` and `index`.
    Insert { index: usize, station: usize },
    /// Replace the station visit at `index` by another station.
    Replace { index: usize, station: usize },
    /// Drop the station visit at `index`, bridging its neighbors.
    Remove { index: usize },
    /// Move `station` to `point` and re-thread the whole order.
    Relocate { station: usize, point: Point, orders: Vec<usize> },
    /// Reverse the segment `[from, to)` of the order.
    TwoOpt { from: usize, to: usize },
}

/// The visiting order a move leaves behind.
pub open spec fn moved_orders(o: Seq<usize>, mv: Move) -> Seq<usize> {
    match mv {
        Move::Insert { index, station } => o.insert(index as int, station),
        Move::Replace { index, station } => o.update(index as int, station),
        Move::Remove { index } => o.remove(index as int),
        Move::Relocate { orders, .. } => orders@,
        Move::TwoOpt { from, to } => o.subrange(0, from as int) + o.subrange(
            from as int,
            to as int,
        ).reverse() + o.subrange(to as int, o.len() as int),
    }
}

/// The coordinate table a move leaves behind.
pub open spec fn moved_points(p: Seq<Point>, mv: Move) -> Seq<Point> {
    match mv {
        Move::Relocate { station, point, .. } => p.update(station as int, point),
        _ => p,
    }
}

/// The move fits the state it is applied to.
pub open spec fn move_struct_ok(inp: Input, st: State, mv: Move) -> bool {
    let o = st.orders@;
    let n = inp.n as int;
    let total = (inp.n + inp.m) as int;
    match mv {
        Move::Insert { index, station } => {
            &&& 1 <= index < o.len()
            &&& n <= station < total
            &&& o.len() + 1 <= MAX_TOUR_LEN
            &&& station != o[index - 1]
            &&& station != o[index as int]
        },
        Move::Replace { index, station } => {
            &&& 1 <= index <= o.len() - 2
            &&& n <= o[index as int]
            &&& n <= station < total
            &&& station != o[index - 1]
            &&& station != o[index + 1]
        },
        Move::Remove { index } => {
            &&& 1 <= index <= o.len() - 2
            &&& n <= o[index as int]
            &&& (o[index - 1] != o[index + 1] || o.len() == 3)
        },
        Move::Relocate { station, point, orders } => {
            &&& n <= station < total
            &&& in_map(point)
            &&& order_ok(n, total, orders@)
        },
        Move::TwoOpt { from, to } => {
            &&& 1 <= from < to <= o.len() - 1
            &&& o[from - 1] != o[to - 1]
            &&& o[from as int] != o[to as int]
        },
    }
}

/// The metric a move leaves behind: only `Relocate` touches it.
pub open spec fn moved_metric(inp: Input, st: State, mv: Move) -> Metric {
    Metric {
        n: inp.n as int,
        dmat: crate::oracle::mat_view(inp.distances),
        pts: moved_points(st.points@, mv),
    }
}

/// The exact cost of the state a move leaves behind.
pub open spec fn moved_cost(inp: Input, st: State, mv: Move) -> int {
    tour_cost(moved_metric(inp, st, mv), moved_orders(st.orders@, mv))
}

/// Inserting a station that differs from both neighbors keeps the
/// order well formed.
proof fn lemma_order_insert(n: int, total: int, o: Seq<usize>, j: int, s: usize)
    requires
        order_ok(n, total, o),
        1 <= n,
        1 <= j < o.len(),
        n <= s < total,
        o.len() + 1 <= MAX_TOUR_LEN,
        s != o[j - 1],
        s != o[j],
    ensures
        order_ok(n, total, o.insert(j, s)),
{
    let pre = o.subrange(0, j);
    let suf = o.subrange(j, o.len() as int);
    let o2 = o.insert(j, s);
    assert(o =~= pre + suf);
    assert(o2 =~= pre + (seq![s] + suf));
    assert(o2[0] == pre[0]);
    assert(o2[o2.len() - 1] == suf[suf.len() - 1]);
    assert forall|v: usize| true implies #[trigger] count_occ(o2, v) == count_occ(o, v) + (if s
        == v {
        1int
    } else {
        0int
    }) by {
        lemma_count_concat(pre, suf, v);
        lemma_count_concat(pre, seq![s] + suf, v);
        lemma_count_concat(seq![s], suf, v);
        lemma_count_singleton(s, v);
    }
    assert forall|k: int|
        #![trigger o2[k]]
        0 <= k < o2.len() - 1 implies o2[k] != o2[k + 1] by {
        if k < j - 1 {
            assert(o2[k] == o[k] && o2[k + 1] == o[k + 1]);
        } else if k == j - 1 {
            assert(o2[k] == o[k] && o2[k + 1] == s);
        } else if k == j {
            assert(o2[k] == s && o2[k + 1] == o[k]);
        } else {
            assert(o2[k] == o[k - 1] && o2[k + 1] == o[k]);
        }
    }
}

/// Replacing a station visit by a station that differs from both
/// neighbors keeps the order well formed.
proof fn lemma_order_replace(n: int, total: int, o: Seq<usize>, j: int, s: usize)
    requires
        order_ok(n, total, o),
        1 <= n,
        1 <= j <= o.len() - 2,
        n <= o[j],
        n <= s < total,
        s != o[j - 1],
        s != o[j + 1],
    ensures
        order_ok(n, total, o.update(j, s)),
{
    let pre = o.subrange(0, j);
    let suf = o.subrange(j + 1, o.len() as int);
    let o2 = o.update(j, s);
    assert(o =~= pre + (seq![o[j]] + suf));
    assert(o2 =~= pre + (seq![s] + suf));
    assert(o2[0] == pre[0]);
    assert(o2[o2.len() - 1] == suf[suf.len() - 1]);
    assert forall|v: usize| true implies #[trigger] count_occ(o2, v) == count_occ(o, v) + (if s
        == v {
        1int
    } else {
        0int
    }) - (if o[j] == v {
        1int
    } else {
        0int
    }) by {
        lemma_count_concat(pre, seq![o[j]] + suf, v);
        lemma_count_concat(seq![o[j]], suf, v);
        lemma_count_singleton(o[j], v);
        lemma_count_concat(pre, seq![s] + suf, v);
        lemma_count_concat(seq![s], suf, v);
        lemma_count_singleton(s, v);
    }
    assert forall|k: int|
        #![trigger o2[k]]
        0 <= k < o2.len() - 1 implies o2[k] != o2[k + 1] by {
        if k == j - 1 {
            assert(o2[k] == o[k] && o2[k + 1] == s);
        } else if k == j {
            assert(o2[k] == s && o2[k + 1] == o[k + 1]);
        } else {
            assert(o2[k] == o[k] && o2[k + 1] == o[k + 1]);
        }
    }
}

/// Dropping a station visit whose neighbors differ (or whose removal
/// leaves the bare depot round trip) keeps the order well formed.
proof fn lemma_order_remove(n: int, total: int, o: Seq<usize>, j: int)
    requires
        order_ok(n, total, o),
        1 <= n,
        1 <= j <= o.len() - 2,
        n <= o[j],
        o[j - 1] != o[j + 1] || o.len() == 3,
    ensures
        order_ok(n, total, o.remove(j)),
{
    let pre = o.subrange(0, j);
    let suf = o.subrange(j + 1, o.len() as int);
    let o2 = o.remove(j);
    assert(o =~= pre + (seq![o[j]] + suf));
    assert(o2 =~= pre + suf);
    assert(o2[0] == pre[0]);
    assert(o2[o2.len() - 1] == suf[suf.len() - 1]);
    assert forall|v: usize| true implies #[trigger] count_occ(o2, v) == count_occ(o, v) - (if o[j]
        == v {
        1int
    } else {
        0int
    }) by {
        lemma_count_concat(pre, seq![o[j]] + suf, v);
        lemma_count_concat(seq![o[j]], suf, v);
        lemma_count_singleton(o[j], v);
        lemma_count_concat(pre, suf, v);
    }
    if o.len() > 3 {
        assert forall|k: int|
            #![trigger o2[k]]
            0 <= k < o2.len() - 1 implies o2[k] != o2[k + 1] by {
            if k < j - 1 {
                assert(o2[k] == o[k] && o2[k + 1] == o[k + 1]);
            } else if k == j - 1 {
                assert(o2[k] == o[j - 1] && o2[k + 1] == o[j + 1]);
            } else {
                assert(o2[k] == o[k + 1] && o2[k + 1] == o[k + 2]);
            }
        }
    }
}

/// Reversing an inner segment whose boundary values differ keeps the
/// order well formed.
proof fn lemma_order_two_opt(n: int, total: int, o: Seq<usize>, f: int, t: int)
    requires
        order_ok(n, total, o),
        1 <= f < t <= o.len() - 1,
        o[f - 1] != o[t - 1],
        o[f] != o[t],
    ensures
        order_ok(
            n,
            total,
            o.subrange(0, f) + o.subrange(f, t).reverse() + o.subrange(t, o.len() as int),
        ),
{
    let pre = o.subrange(0, f);
    let mid = o.subrange(f, t);
    let suf = o.subrange(t, o.len() as int);
    let o2 = pre + mid.reverse() + suf;
    assert(o =~= pre + (mid + suf));
    assert(o2 =~= pre + (mid.reverse() + suf));
    assert(o2[0] == pre[0]);
    assert(o2[o2.len() - 1] == suf[suf.len() - 1]);
    assert forall|v: usize| true implies #[trigger] count_occ(o2, v) == count_occ(o, v) by {
        lemma_count_concat(pre, mid + suf, v);
        lemma_count_concat(mid, suf, v);
        lemma_count_concat(pre, mid.reverse() + suf, v);
        lemma_count_concat(mid.reverse(), suf, v);
        lemma_count_reverse(mid, v);
    }
    assert forall|k2: int|
        #![trigger o2[k2]]
        0 <= k2 < o2.len() implies o2[k2] == (if k2 < f {
        o[k2]
    } else if k2 < t {
        o[f + t - 1 - k2]
    } else {
        o[k2]
    }) by {
        if f <= k2 < t {
            assert(o2[k2] == mid.reverse()[k2 - f]);
            assert(mid.reverse()[k2 - f] == mid[t - f - 1 - (k2 - f)]);
            assert(mid[t - f - 1 - (k2 - f)] == o[t - 1 - (k2 - f)]);
        } else if k2 < f {
            assert(o2[k2] == pre[k2]);
        } else {
            assert(o2[k2] == suf[k2 - t]);
        }
    }
    assert(entries_below(o2, total));
    assert(no_adjacent_repeat(o2)) by {
        assert forall|k2: int|
            #![trigger o2[k2]]
            0 <= k2 < o2.len() - 1 implies o2[k2] != o2[k2 + 1] by {
            if k2 == f - 1 {
                assert(o2[k2] == o[f - 1] && o2[k2 + 1] == o[t - 1]);
            } else if f <= k2 < t - 1 {
                assert(o2[k2] == o[f + t - 1 - k2] && o2[k2 + 1] == o[f + t - 2 - k2]);
            } else if k2 == t - 1 {
                assert(o2[k2] == o[f] && o2[k2 + 1] == o[t]);
            }
        }
    }
}

/// A fitting move keeps the visiting order and the coordinate table well
/// formed.
pub proof fn lemma_move_keeps_state(inp: Input, st: State, mv: Move)
    requires
        input_ok(inp),
        state_ok(inp, st),
        move_struct_ok(inp, st, mv),
    ensures
        order_ok(inp.n as int, (inp.n + inp.m) as int, moved_orders(st.orders@, mv)),
        moved_points(st.points@, mv).len() == inp.n + inp.m,
        forall|i: int|
            0 <= i < inp.n ==> #[trigger] moved_points(st.points@, mv)[i] == inp.points@[i],
        forall|i: int|
            0 <= i < st.points@.len() ==> in_map(#[trigger] moved_points(st.points@, mv)[i]),
{
    let o = st.orders@;
    let n = inp.n as int;
    let total = (inp.n + inp.m) as int;
    match mv {
        Move::Insert { index, station } => {
            lemma_order_insert(n, total, o, index as int, station);
        },
        Move::Replace { index, station } => {
            lemma_order_replace(n, total, o, index as int, station);
        },
        Move::Remove { index } => {
            lemma_order_remove(n, total, o, index as int);
        },
        Move::Relocate { station, point, orders } => {
            assert forall|i: int| 0 <= i < st.points@.len() implies in_map(
                #[trigger] moved_points(st.points@, mv)[i],
            ) by {
                if i != station as int {
                    assert(moved_points(st.points@, mv)[i] == st.points@[i]);
                }
            }
        },
        Move::TwoOpt { from, to } => {
            lemma_order_two_opt(n, total, o, from as int, to as int);
        },
    }
}

/// Applies a fitting move to the state.
#[verifier::rlimit(100)]
pub fn apply_move(st: &mut State, input: &Input, mv: Move)
    requires
        input_ok(*input),
        state_ok(*input, *old(st)),
        move_struct_ok(*input, *old(st), mv),
    ensures
        final(st).orders@ == moved_orders(old(st).orders@, mv),
        final(st).points@ == moved_points(old(st).points@, mv),
        state_ok(*input, *final(st)),
{
    proof {
        lemma_move_keeps_state(*input, *old(st), mv);
    }
    let ghost o0 = st.orders@;
    let ghost p0 = st.points@;
    let ghost mv0 = mv;
    match mv {
        Move::Insert { index, station } => {
            st.orders.insert(index, station);
            proof {
                assert(st.points@ =~= moved_points(p0, mv0));
            }
        },
        Move::Replace { index, station } => {
            st.orders[index] = station;
            proof {
                assert(st.points@ =~= moved_points(p0, mv0));
            }
        },
        Move::Remove { index } => {
            st.orders.remove(index);
            proof {
                assert(st.points@ =~= moved_points(p0, mv0));
            }
        },
        Move::Relocate { station, point, orders } => {
            st.points[station] = point;
            st.orders = orders;
            proof {
                assert(st.points@ =~= moved_points(p0, mv0));
            }
        },
        Move::TwoOpt { from, to } => {
            reverse_segment(&mut st.orders, from, to);
            proof {
                assert(st.points@ =~= moved_points(p0, mv0));
                assert(st.orders@ == moved_orders(o0, mv0));
            }
        },
    }
}

/// Reverses the segment `[from, to)` of the order in place.
fn reverse_segment(orders: &mut Vec<usize>, from: usize, to: usize)
    requires
        1 <= from < to <= old(orders)@.len() - 1,
    ensures
        final(orders)@ == old(orders)@.subrange(0, from as int) + old(orders)@.subrange(
            from as int,
            to as int,
        ).reverse() + old(orders)@.subrange(to as int, old(orders)@.len() as int),
{
    let ghost o0 = orders@;
    let mut a = from;
    let mut b = to - 1;
    while a < b
        invariant
            1 <= from,
            from <= a,
            b < to,
            to <= o0.len() - 1,
            a + b == from + to - 1,
            a <= b + 1,
            orders@.len() == o0.len(),
            forall|t: int| 0 <= t < from ==> #[trigger] orders@[t] == o0[t],
            forall|t: int| to <= t < o0.len() ==> #[trigger] orders@[t] == o0[t],
            forall|t: int| from <= t < a ==> #[trigger] orders@[t] == o0[from + to - 1 - t],
            forall|t: int| b < t < to ==> #[trigger] orders@[t] == o0[from + to - 1 - t],
            forall|t: int| a <= t <= b ==> #[trigger] orders@[t] == o0[t],
        decreases b,
    {
        let va = orders[a];
        let vb = orders[b];
        orders[a] = vb;
        orders[b] = va;
        a += 1;
        b -= 1;
    }
    proof {
        let f = from as int;
        let t = to as int;
        let o2 = o0.subrange(0, f) + o0.subrange(f, t).reverse() + o0.subrange(
            t,
            o0.len() as int,
        );
        let mid = o0.subrange(f, t);
        assert forall|k2: int| 0 <= k2 < o0.len() implies orders@[k2] == #[trigger] o2[k2] by {
            if f <= k2 < t {
                assert(o2[k2] == mid.reverse()[k2 - f]);
                assert(mid.reverse()[k2 - f] == mid[t - f - 1 - (k2 - f)]);
                assert(mid[t - f - 1 - (k2 - f)] == o0[t - 1 - (k2 - f)]);
                assert(orders@[k2] == o0[f + t - 1 - k2]);
            } else if k2 < f {
                assert(o2[k2] == o0.subrange(0, f)[k2]);
            } else {
                assert(o2[k2] == o0.subrange(t, o0.len() as int)[k2 - t]);
            }
        }
        assert(orders@ =~= o2);
    }
}

} // verus!
