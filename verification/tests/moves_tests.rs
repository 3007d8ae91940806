use station_tour::geometry::Point;
use station_tour::ops::{apply_move, Move};
use station_tour::state::{Input, State};

fn triangle_input() -> Input {
    // depot, one mandatory waypoint to the east, one to the north
    Input::new(3, 1, vec![Point::new(0, 0), Point::new(100, 0), Point::new(0, 100)])
}

#[test]
fn insert_station_delta_beneficial_when_shorter() {
    // the station sits on the eastern waypoint: hopping through it
    // between the northern waypoint and the depot is cheaper than the
    // direct oracle edge, and the reported delta is negative
    let input = triangle_input();
    let mut st = State::init(&input);
    st.points[3] = Point::new(100, 0);

    let through = st.calc_score(&input, 2, 3) + st.calc_score(&input, 3, 0);
    let direct = st.calc_score(&input, 2, 0);
    assert_eq!(through, 5 * 20_000 + 5 * 10_000);
    assert_eq!(direct, 25 * 10_000);
    let delta = through - direct;
    assert!(delta <= 0);
    assert!((delta <= 0) == (through <= direct));

    let before = st.calc_score_all(&input);
    apply_move(&mut st, &input, Move::Insert { index: 3, station: 3 });
    assert_eq!(st.orders, vec![0, 1, 2, 3, 0]);
    assert_eq!(st.calc_score_all(&input), before + delta);
}

#[test]
fn insert_station_delta_positive_when_longer() {
    // the station in the far corner: hopping through it only adds cost
    let input = triangle_input();
    let mut st = State::init(&input);
    st.points[3] = Point::new(1000, 1000);

    let through = st.calc_score(&input, 2, 3) + st.calc_score(&input, 3, 0);
    let direct = st.calc_score(&input, 2, 0);
    let delta = through - direct;
    assert!(delta > 0);
    assert!((delta <= 0) == (through <= direct));

    let before = st.calc_score_all(&input);
    apply_move(&mut st, &input, Move::Insert { index: 3, station: 3 });
    assert_eq!(st.calc_score_all(&input), before + delta);
}

#[test]
fn remove_station_bridges_neighbors() {
    let input = triangle_input();
    let mut st = State::init(&input);
    st.points[3] = Point::new(100, 0);
    apply_move(&mut st, &input, Move::Insert { index: 3, station: 3 });
    assert_eq!(st.orders, vec![0, 1, 2, 3, 0]);

    let before = st.calc_score_all(&input);
    let delta = st.calc_score(&input, 2, 0)
        - st.calc_score(&input, 2, 3)
        - st.calc_score(&input, 3, 0);
    apply_move(&mut st, &input, Move::Remove { index: 3 });
    assert_eq!(st.orders, vec![0, 1, 2, 0]);
    assert_eq!(st.calc_score_all(&input), before + delta);
}

#[test]
fn replace_station_swaps_edges() {
    let input = Input::new(
        3,
        2,
        vec![Point::new(0, 0), Point::new(100, 0), Point::new(0, 100)],
    );
    let mut st = State::init(&input);
    st.points[3] = Point::new(100, 0);
    st.points[4] = Point::new(50, 50);
    apply_move(&mut st, &input, Move::Insert { index: 3, station: 3 });
    assert_eq!(st.orders, vec![0, 1, 2, 3, 0]);

    let before = st.calc_score_all(&input);
    let delta = st.calc_score(&input, 2, 4) + st.calc_score(&input, 4, 0)
        - st.calc_score(&input, 2, 3)
        - st.calc_score(&input, 3, 0);
    apply_move(&mut st, &input, Move::Replace { index: 3, station: 4 });
    assert_eq!(st.orders, vec![0, 1, 2, 4, 0]);
    assert_eq!(st.calc_score_all(&input), before + delta);
}

#[test]
fn relocate_rethreads_whole_order() {
    let input = triangle_input();
    let mut st = State::init(&input);
    let before = st.calc_score_all(&input);
    // move the station onto the eastern waypoint and visit it twice
    let orders = vec![0, 3, 1, 2, 3, 0];
    let p = Point::new(100, 0);
    let mut probe = State::new(st.points.clone(), orders.clone());
    probe.points[3] = p;
    let target = probe.calc_score_all(&input);
    let delta = target - before;
    apply_move(
        &mut st,
        &input,
        Move::Relocate { station: 3, point: p, orders },
    );
    assert_eq!(st.points[3], p);
    assert_eq!(st.orders, vec![0, 3, 1, 2, 3, 0]);
    assert_eq!(st.calc_score_all(&input), before + delta);
}

#[test]
fn two_opt_delta_matches_full_recomputation() {
    // an order of six entries, one station visit included: for every
    // admissible segment the boundary-edge delta equals the difference
    // of full recomputations
    let input = Input::new(
        4,
        1,
        vec![
            Point::new(0, 0),
            Point::new(300, 10),
            Point::new(700, 500),
            Point::new(100, 900),
        ],
    );
    let mut base = State::init(&input);
    base.points[4] = Point::new(400, 400);
    let orders = vec![0, 2, 4, 1, 3, 0];
    let base = State::new(base.points, orders);
    let whole = base.calc_score_all(&input);
    let len = base.orders.len();

    for from in 1..len - 1 {
        for to in from + 1..len {
            let i0 = base.orders[from - 1];
            let i1 = base.orders[from];
            let i2 = base.orders[to - 1];
            let i3 = base.orders[to];
            let delta = base.calc_score(&input, i0, i2) + base.calc_score(&input, i1, i3)
                - base.calc_score(&input, i0, i1)
                - base.calc_score(&input, i2, i3);
            let mut st = base.duplicate();
            apply_move(&mut st, &input, Move::TwoOpt { from, to });
            let mut expected = base.orders.clone();
            expected[from..to].reverse();
            assert_eq!(st.orders, expected);
            assert_eq!(st.calc_score_all(&input), whole + delta);
        }
    }
}
