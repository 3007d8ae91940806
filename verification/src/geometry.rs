//! Immutable 2D integer points on the bounded map, with the squared
//! Euclidean distance that all segment costs are built from.

use vstd::prelude::*;

verus! {

/// Side length of the map: every waypoint coordinate lies in `[0, MAP_SIZE]`.
pub const MAP_SIZE: i32 = 1000;

#[derive(Clone, Copy, PartialEq, Eq, Structural, Debug)]
pub struct Point {
    pub x: i32,
    pub y: i32,
}

/// The point lies on the map.
pub open spec fn in_map(p: Point) -> bool {
    0 <= p.x <= MAP_SIZE && 0 <= p.y <= MAP_SIZE
}

/// Squared Euclidean distance between two points.
pub open spec fn sq_dist(a: Point, b: Point) -> int {
    (a.x - b.x) * (a.x - b.x) + (a.y - b.y) * (a.y - b.y)
}

/// Squared distances on the map are symmetric, non-negative, zero exactly
/// on coincident points, and bounded by twice the squared side length.
pub proof fn lemma_sq_dist_bounds(a: Point, b: Point)
    requires
        in_map(a),
        in_map(b),
    ensures
        0 <= sq_dist(a, b) <= 2_000_000,
        sq_dist(a, b) == sq_dist(b, a),
        sq_dist(a, b) == 0 <==> a == b,
{
    let dx = a.x - b.x;
    let dy = a.y - b.y;
    assert(-1000 <= dx <= 1000 && -1000 <= dy <= 1000);
    assert(0 <= dx * dx <= 1_000_000 && 0 <= dy * dy <= 1_000_000) by (nonlinear_arith)
        requires
            -1000 <= dx <= 1000,
            -1000 <= dy <= 1000,
    ;
    assert((a.x - b.x) * (a.x - b.x) == (b.x - a.x) * (b.x - a.x)) by (nonlinear_arith);
    assert((a.y - b.y) * (a.y - b.y) == (b.y - a.y) * (b.y - a.y)) by (nonlinear_arith);
    assert(dx * dx + dy * dy == 0 <==> dx == 0 && dy == 0) by (nonlinear_arith);
}

impl Point {
    pub fn new(x: i32, y: i32) -> (p: Self)
        ensures
            p == (Point { x, y }),
    {
        Self { x, y }
    }

    /// Squared Euclidean distance to `other`.
    pub fn dist_sq(&self, other: &Self) -> (d: i64)
        requires
            in_map(*self),
            in_map(*other),
        ensures
            d == sq_dist(*self, *other),
            0 <= d <= 2_000_000,
    {
        proof {
            lemma_sq_dist_bounds(*self, *other);
        }
        let dx = self.x - other.x;
        let dy = self.y - other.y;
        assert(0 <= dx * dx <= 1_000_000) by (nonlinear_arith)
            requires
                -1000 <= dx <= 1000,
        ;
        assert(0 <= dy * dy <= 1_000_000) by (nonlinear_arith)
            requires
                -1000 <= dy <= 1000,
        ;
        (dx * dx + dy * dy) as i64
    }
}

} // verus!
