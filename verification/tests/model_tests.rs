use station_tour::geometry::Point;
use station_tour::oracle::warshall_floyd;
use station_tour::state::{get_score_mul, tag_waypoint, Input, State};

fn sample_points() -> Vec<Point> {
    vec![
        Point::new(0, 0),
        Point::new(500, 0),
        Point::new(1000, 0),
        Point::new(0, 800),
        Point::new(300, 400),
    ]
}

#[test]
fn dist_sq_exact() {
    let a = Point::new(3, 4);
    let b = Point::new(0, 0);
    assert_eq!(a.dist_sq(&b), 25);
    assert_eq!(b.dist_sq(&a), 25);
    assert_eq!(a.dist_sq(&a), 0);
}

#[test]
fn score_mul_values() {
    assert_eq!(get_score_mul(0, 3), 5);
    assert_eq!(get_score_mul(2, 3), 5);
    assert_eq!(get_score_mul(3, 3), 1);
    assert_eq!(get_score_mul(10, 3), 1);
}

#[test]
fn tag_waypoint_categories() {
    assert_eq!(tag_waypoint(0, 3), (1, 1));
    assert_eq!(tag_waypoint(2, 3), (1, 3));
    assert_eq!(tag_waypoint(3, 3), (2, 1));
    assert_eq!(tag_waypoint(7, 3), (2, 5));
}

#[test]
fn oracle_triangle_symmetric_diagonal() {
    // triangle inequality, symmetry, zero diagonal, and the direct-edge
    // bound over every pair of a five-point instance
    let pts = sample_points();
    let d = warshall_floyd(&pts);
    let n = pts.len();
    for i in 0..n {
        assert_eq!(d[i][i], 0);
        for j in 0..n {
            assert!(d[i][j] >= 0);
            assert_eq!(d[i][j], d[j][i]);
            assert!(d[i][j] <= 25 * pts[i].dist_sq(&pts[j]));
            for k in 0..n {
                assert!(d[i][j] <= d[i][k] + d[k][j]);
            }
        }
    }
}

#[test]
fn oracle_uses_relay_shortcut() {
    // three collinear points: the far pair is cheaper through the middle
    let pts = vec![Point::new(0, 0), Point::new(500, 0), Point::new(1000, 0)];
    let d = warshall_floyd(&pts);
    assert_eq!(d[0][1], 25 * 250_000);
    assert_eq!(d[1][2], 25 * 250_000);
    assert_eq!(d[0][2], 2 * 25 * 250_000);
    assert!(d[0][2] < 25 * 1_000_000);
}

#[test]
fn initial_state_shape() {
    let input = Input::new(3, 2, vec![Point::new(1, 2), Point::new(3, 4), Point::new(5, 6)]);
    let st = State::init(&input);
    assert_eq!(st.orders, vec![0, 1, 2, 0]);
    assert_eq!(st.points.len(), 5);
    assert_eq!(st.points[3], Point::new(1, 2));
    assert_eq!(st.points[4], Point::new(1, 2));
}

#[test]
fn calc_score_oracle_and_live_branches() {
    let input = Input::new(3, 1, vec![Point::new(0, 0), Point::new(500, 0), Point::new(1000, 0)]);
    let mut st = State::init(&input);
    // mandatory pair: the oracle entry, shortcut included
    assert_eq!(st.calc_score(&input, 0, 2), 2 * 25 * 250_000);
    // station edge: live coordinates with single discount
    st.points[3] = Point::new(0, 100);
    assert_eq!(st.calc_score(&input, 0, 3), 5 * 10_000);
    assert_eq!(st.calc_score(&input, 3, 0), 5 * 10_000);
    assert_eq!(st.calc_score(&input, 3, 3), 0);
}

#[test]
fn calc_score_all_sums_windows() {
    let input = Input::new(2, 0, vec![Point::new(0, 0), Point::new(10, 0)]);
    let st = State::init(&input);
    // there and back under the full discount
    assert_eq!(st.calc_score_all(&input), 2 * 25 * 100);
}

#[test]
fn duplicate_is_deep_equal() {
    let input = Input::new(2, 1, vec![Point::new(0, 0), Point::new(10, 0)]);
    let st = State::init(&input);
    let d = st.duplicate();
    assert_eq!(d.points, st.points);
    assert_eq!(d.orders, st.orders);
}
