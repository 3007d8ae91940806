use station_tour::engine::{Annealer, StepOutcome};
use station_tour::geometry::Point;
use station_tour::restore::{dijkstra, restore_solution};
use station_tour::state::{Input, State};

#[test]
fn dijkstra_prefers_relay_over_direct() {
    // three collinear mandatory waypoints: the far pair is cheaper
    // through the middle because distances are squared
    let input = Input::new(3, 0, vec![Point::new(0, 0), Point::new(500, 0), Point::new(1000, 0)]);
    let st = State::init(&input);
    let path = dijkstra(&input, &st, 2, 0);
    assert_eq!(path, vec![1, 0]);
}

#[test]
fn dijkstra_direct_when_shortest() {
    let input = Input::new(3, 0, vec![Point::new(0, 0), Point::new(500, 0), Point::new(1000, 0)]);
    let st = State::init(&input);
    assert_eq!(dijkstra(&input, &st, 0, 1), vec![1]);
    assert_eq!(dijkstra(&input, &st, 0, 0), Vec::<usize>::new());
}

#[test]
fn restoration_expands_oracle_shortcut() {
    let input = Input::new(3, 0, vec![Point::new(0, 0), Point::new(500, 0), Point::new(1000, 0)]);
    let st = State::init(&input);
    let abstract_score = st.calc_score_all(&input);
    assert_eq!(abstract_score, 25_000_000);
    let restored = restore_solution(&input, &st);
    assert_eq!(restored.orders, vec![0, 1, 2, 1, 0]);
    let restored_score = restored.calc_score_all(&input);
    assert!(restored_score <= abstract_score);
    assert_eq!(restored_score, 25_000_000);
    // the true per-edge score also undercuts the abstract oracle score
    let mut true_score: i64 = 0;
    for w in restored.orders.windows(2) {
        let mul = |v: usize| if v < 3 { 5i64 } else { 1i64 };
        let d = restored.points[w[0]].dist_sq(&restored.points[w[1]]);
        true_score += d * mul(w[0]) * mul(w[1]);
    }
    assert_eq!(true_score, 25_000_000);
    assert!(true_score <= abstract_score);
}

#[test]
fn restoration_keeps_abstract_order_as_subsequence() {
    let input = Input::new(3, 0, vec![Point::new(0, 0), Point::new(500, 0), Point::new(1000, 0)]);
    let st = State::init(&input);
    let restored = restore_solution(&input, &st);
    // the abstract entries occur in order within the expansion
    let mut pos = 0usize;
    for &v in st.orders.iter() {
        while pos < restored.orders.len() && restored.orders[pos] != v {
            pos += 1;
        }
        assert!(pos < restored.orders.len());
        pos += 1;
    }
    // and no two adjacent entries of the expansion are equal
    for w in restored.orders.windows(2) {
        assert_ne!(w[0], w[1]);
    }
}

#[test]
fn restoration_twice_is_stable() {
    // an already explicit walk restores to itself
    let input = Input::new(3, 0, vec![Point::new(0, 0), Point::new(500, 0), Point::new(1000, 0)]);
    let st = State::init(&input);
    let once = restore_solution(&input, &st);
    let twice = restore_solution(&input, &once);
    assert_eq!(twice.orders, once.orders);
    assert_eq!(twice.calc_score_all(&input), once.calc_score_all(&input));
}

#[test]
fn restoration_threads_station() {
    // a station parked halfway makes the long mandatory edge cheaper
    // when threaded explicitly
    let input = Input::new(2, 1, vec![Point::new(0, 0), Point::new(1000, 0)]);
    let mut st = State::init(&input);
    st.points[2] = Point::new(500, 0);
    let abstract_score = st.calc_score_all(&input);
    // both abstract edges pay the full oracle weight of the direct hop
    assert_eq!(abstract_score, 2 * 25 * 1_000_000);
    let restored = restore_solution(&input, &st);
    // each direction now hops through the station at single discount
    assert_eq!(restored.orders, vec![0, 2, 1, 2, 0]);
    let restored_score = restored.calc_score_all(&input);
    assert!(restored_score <= abstract_score);
    assert_eq!(restored_score, 4 * 5 * 250_000);
}

#[test]
fn restoration_never_worsens_after_search() {
    let input = Input::new(
        5,
        2,
        vec![
            Point::new(0, 0),
            Point::new(800, 100),
            Point::new(300, 900),
            Point::new(600, 500),
            Point::new(100, 400),
        ],
    );
    let solution = State::init(&input);
    let mut ann = Annealer::new(&input, solution, 42);
    for it in 0..4000usize {
        let t = it as f64 / 4000.0;
        let temp = 1e5f64.powf(1.0 - t) * 3e2f64.powf(t);
        let inv_temp = 1.0 / temp;
        let spread = (400.0 * (1.0 - t) + 10.0 * t) as i32;
        match ann.step(&input, spread) {
            StepOutcome::Settled => {}
            StepOutcome::NeedDecision { mv, delta, bits } => {
                let u = (bits as f64) / 4503599627370496.0;
                let accept = u < (-(delta as f64) * inv_temp).exp();
                ann.resolve(&input, mv, delta, accept);
            }
        }
    }
    let best_score = ann.best_score;
    let restored = restore_solution(&input, &ann.best_solution);
    assert!(restored.calc_score_all(&input) <= best_score);
    // the expansion still visits everything and closes at the depot
    assert_eq!(restored.orders[0], 0);
    assert_eq!(*restored.orders.last().unwrap(), 0);
    for v in 1..5 {
        assert!(restored.orders.iter().any(|&x| x == v));
    }
}
