use station_tour::engine::{Annealer, StepOutcome};
use station_tour::geometry::Point;
use station_tour::state::{Input, State};

/// Drives the engine for a fixed iteration count with the usual
/// geometric temperature schedule, recording the best score after every
/// iteration.
fn run_fixed(input: &Input, iters: usize, seed: u64) -> (State, i64, Vec<i64>) {
    let solution = State::init(input);
    let mut ann = Annealer::new(input, solution, seed);
    let mut history = Vec::with_capacity(iters);
    let temp0: f64 = 1e5;
    let temp1: f64 = 3e2;
    for it in 0..iters {
        let t = it as f64 / iters as f64;
        let temp = temp0.powf(1.0 - t) * temp1.powf(t);
        let inv_temp = 1.0 / temp;
        let spread = (400.0 * (1.0 - t) + 10.0 * t) as i32;
        match ann.step(input, spread) {
            StepOutcome::Settled => {}
            StepOutcome::NeedDecision { mv, delta, bits } => {
                let u = (bits as f64) / 4503599627370496.0;
                let accept = u < (-(delta as f64) * inv_temp).exp();
                ann.resolve(input, mv, delta, accept);
            }
        }
        history.push(ann.best_score);
    }
    (ann.best_solution, ann.best_score, history)
}

fn occurrences(orders: &[usize], v: usize) -> usize {
    orders.iter().filter(|&&x| x == v).count()
}

#[test]
fn round_trip_two_waypoints() {
    // two mandatory waypoints, no station: the only tour is
    // there-and-back, fully discounted
    let input = Input::new(2, 0, vec![Point::new(0, 0), Point::new(10, 0)]);
    let (best, score, _) = run_fixed(&input, 500, 42);
    assert_eq!(best.orders, vec![0, 1, 0]);
    assert_eq!(score, 25 * 100 * 2);
}

#[test]
fn best_score_is_monotone() {
    let input = Input::new(
        5,
        2,
        vec![
            Point::new(0, 0),
            Point::new(900, 50),
            Point::new(500, 800),
            Point::new(100, 600),
            Point::new(700, 300),
        ],
    );
    let (_, final_score, history) = run_fixed(&input, 3000, 42);
    for w in history.windows(2) {
        assert!(w[1] <= w[0]);
    }
    assert_eq!(*history.last().unwrap(), final_score);
}

#[test]
fn same_seed_same_run() {
    let input = Input::new(
        5,
        2,
        vec![
            Point::new(0, 0),
            Point::new(900, 50),
            Point::new(500, 800),
            Point::new(100, 600),
            Point::new(700, 300),
        ],
    );
    let (best_a, score_a, hist_a) = run_fixed(&input, 2000, 7);
    let (best_b, score_b, hist_b) = run_fixed(&input, 2000, 7);
    assert_eq!(best_a.orders, best_b.orders);
    assert_eq!(best_a.points, best_b.points);
    assert_eq!(score_a, score_b);
    assert_eq!(hist_a, hist_b);
}

#[test]
fn engine_keeps_order_well_formed() {
    // after thousands of iterations the best order still begins and
    // ends at the depot and visits every mandatory waypoint exactly
    // once, and the kept score is the true score of the kept state
    let input = Input::new(
        6,
        2,
        vec![
            Point::new(0, 0),
            Point::new(1000, 0),
            Point::new(1000, 1000),
            Point::new(0, 1000),
            Point::new(500, 500),
            Point::new(250, 750),
        ],
    );
    let (best, score, _) = run_fixed(&input, 5000, 13);
    let orders = &best.orders;
    assert!(orders.len() >= 2);
    assert_eq!(orders[0], 0);
    assert_eq!(*orders.last().unwrap(), 0);
    assert_eq!(occurrences(orders, 0), 2);
    for v in 1..6 {
        assert_eq!(occurrences(orders, v), 1);
    }
    for &v in orders.iter() {
        assert!(v < 8);
    }
    // no two adjacent entries are ever equal
    for w in orders.windows(2) {
        assert_ne!(w[0], w[1]);
    }
    assert_eq!(best.calc_score_all(&input), score);
    // mandatory coordinates never move
    for i in 0..6 {
        assert_eq!(best.points[i], input.points[i]);
    }
    for i in 6..8 {
        let p = best.points[i];
        assert!((0..=1000).contains(&p.x) && (0..=1000).contains(&p.y));
    }
}

#[test]
fn annealing_improves_on_initial_score() {
    // a spread-out instance with stations: the search must find
    // something strictly better than the identity tour
    let input = Input::new(
        6,
        2,
        vec![
            Point::new(0, 0),
            Point::new(1000, 0),
            Point::new(0, 1000),
            Point::new(1000, 1000),
            Point::new(10, 990),
            Point::new(990, 10),
        ],
    );
    let initial = State::init(&input).calc_score_all(&input);
    let (_, score, _) = run_fixed(&input, 20000, 42);
    assert!(score < initial);
}
