//! Pure numeric helpers for the board geometry: squared distance, doubled
//! triangle area, point-in-triangle and point-in-rectangle tests, and the
//! "shares a row or column with two chosen points" test.
//!
//! Coordinates are integers on the pixel lattice, so every comparison that a
//! floating-point version would make within a small epsilon is made exactly.

use vstd::prelude::*;

verus! {

/// Bound on every coordinate the geometry accepts; it keeps all the products
/// these functions form comfortably inside `i64`.
pub const COORD_LIMIT: i64 = 100_000_000;

/// `v` is a coordinate the geometry accepts.
pub open spec fn coord_ok(v: int) -> bool {
    -(COORD_LIMIT as int) <= v <= COORD_LIMIT as int
}

pub open spec fn int_abs(a: int) -> int {
    if a < 0 {
        -a
    } else {
        a
    }
}

/// Squared Euclidean distance between `(x, y)` and `(x1, y1)`.
pub open spec fn sq_dist(x: int, y: int, x1: int, y1: int) -> int {
    (x - x1) * (x - x1) + (y - y1) * (y - y1)
}

/// Twice the area of the triangle with the given vertices (shoelace formula,
/// taken as an unsigned quantity). Zero exactly when the vertices are
/// collinear.
pub open spec fn area2(x1: int, y1: int, x2: int, y2: int, x3: int, y3: int) -> int {
    int_abs(x1 * (y2 - y3) + x2 * (y3 - y1) + x3 * (y1 - y2))
}

/// `(x, y)` lies in the closed triangle `p1 p2 p3`: the triangle is not
/// degenerate, and the three sub-triangles formed with the query point cover
/// its area exactly. A degenerate (collinear) triangle contains nothing:
/// the query fails closed.
pub open spec fn in_triangle(
    x1: int,
    y1: int,
    x2: int,
    y2: int,
    x3: int,
    y3: int,
    x: int,
    y: int,
) -> bool {
    &&& area2(x1, y1, x2, y2, x3, y3) != 0
    &&& area2(x1, y1, x2, y2, x3, y3) == area2(x, y, x2, y2, x3, y3) + area2(
        x1,
        y1,
        x,
        y,
        x3,
        y3,
    ) + area2(x1, y1, x2, y2, x, y)
}

/// `(x, y)` lies in the closed axis-aligned rectangle with origin
/// `(rx, ry)`, width `w` and height `h` (inclusive on all sides).
pub open spec fn in_rect(x: int, y: int, rx: int, ry: int, w: int, h: int) -> bool {
    rx <= x <= rx + w && ry <= y <= ry + h
}

/// How many points of `points` have x-coordinate exactly `x`.
pub open spec fn count_with_x(points: Seq<(i64, i64)>, x: int) -> int
    decreases points.len(),
{
    if points.len() == 0 {
        0
    } else {
        count_with_x(points.drop_last(), x) + if points.last().0 == x {
            1int
        } else {
            0int
        }
    }
}

/// How many points of `points` have y-coordinate exactly `y`.
pub open spec fn count_with_y(points: Seq<(i64, i64)>, y: int) -> int
    decreases points.len(),
{
    if points.len() == 0 {
        0
    } else {
        count_with_y(points.drop_last(), y) + if points.last().1 == y {
            1int
        } else {
            0int
        }
    }
}

/// At least two points of `points` share the column of `(x, y)`, or at least
/// two share its row.
pub open spec fn shares_axis(points: Seq<(i64, i64)>, x: int, y: int) -> bool {
    count_with_x(points, x) >= 2 || count_with_y(points, y) >= 2
}

/// A product of two bounded factors is bounded by the product of the bounds.
pub proof fn lemma_mul_bound(a: int, b: int, ma: int, mb: int)
    requires
        -ma <= a <= ma,
        -mb <= b <= mb,
    ensures
        -(ma * mb) <= a * b <= ma * mb,
{
    assert(-(ma * mb) <= a * b <= ma * mb) by (nonlinear_arith)
        requires
            -ma <= a <= ma,
            -mb <= b <= mb,
    ;
}

/// Stateless holder of the numeric helpers.
pub struct MathOperations {}

impl MathOperations {
    /// Squared Euclidean distance. The squared form preserves every
    /// comparison the game makes between distances and stays in integers.
    pub fn distance_sq(x: i64, y: i64, x1: i64, y1: i64) -> (r: i64)
        requires
            coord_ok(x as int),
            coord_ok(y as int),
            coord_ok(x1 as int),
            coord_ok(y1 as int),
        ensures
            r == sq_dist(x as int, y as int, x1 as int, y1 as int),
            0 <= r <= 80_000_000_000_000_000,
    {
        let dx: i64 = x - x1;
        let dy: i64 = y - y1;
        proof {
            lemma_mul_bound(dx as int, dx as int, 200_000_000, 200_000_000);
            lemma_mul_bound(dy as int, dy as int, 200_000_000, 200_000_000);
            assert(0 <= dx * dx) by (nonlinear_arith);
            assert(0 <= dy * dy) by (nonlinear_arith);
        }
        dx * dx + dy * dy
    }

    /// Twice the unsigned triangle area by the shoelace formula. Doubling
    /// keeps the value an integer for every lattice triangle.
    pub fn area_doubled(x1: i64, y1: i64, x2: i64, y2: i64, x3: i64, y3: i64) -> (r: i64)
        requires
            coord_ok(x1 as int),
            coord_ok(y1 as int),
            coord_ok(x2 as int),
            coord_ok(y2 as int),
            coord_ok(x3 as int),
            coord_ok(y3 as int),
        ensures
            r == area2(x1 as int, y1 as int, x2 as int, y2 as int, x3 as int, y3 as int),
            0 <= r <= 60_000_000_000_000_000,
    {
        proof {
            lemma_mul_bound(x1 as int, y2 - y3, 100_000_000, 200_000_000);
            lemma_mul_bound(x2 as int, y3 - y1, 100_000_000, 200_000_000);
            lemma_mul_bound(x3 as int, y1 - y2, 100_000_000, 200_000_000);
        }
        let det: i64 = x1 * (y2 - y3) + x2 * (y3 - y1) + x3 * (y1 - y2);
        if det < 0 {
            -det
        } else {
            det
        }
    }

    /// Point-in-triangle test: a degenerate (collinear) triangle — one whose
    /// doubled area is zero, which is exactly when no side is shorter than
    /// the other two together — contains nothing; otherwise the point is
    /// inside iff the three sub-triangle areas sum to the whole area.
    pub fn is_inside_triangle(
        x1: i64,
        y1: i64,
        x2: i64,
        y2: i64,
        x3: i64,
        y3: i64,
        x: i64,
        y: i64,
    ) -> (r: bool)
        requires
            coord_ok(x1 as int),
            coord_ok(y1 as int),
            coord_ok(x2 as int),
            coord_ok(y2 as int),
            coord_ok(x3 as int),
            coord_ok(y3 as int),
            coord_ok(x as int),
            coord_ok(y as int),
        ensures
            r == in_triangle(
                x1 as int,
                y1 as int,
                x2 as int,
                y2 as int,
                x3 as int,
                y3 as int,
                x as int,
                y as int,
            ),
    {
        let a: i64 = Self::area_doubled(x1, y1, x2, y2, x3, y3);
        if a == 0 {
            return false;
        }
        let a1: i64 = Self::area_doubled(x, y, x2, y2, x3, y3);
        let a2: i64 = Self::area_doubled(x1, y1, x, y, x3, y3);
        let a3: i64 = Self::area_doubled(x1, y1, x2, y2, x, y);
        a == a1 + a2 + a3
    }

    /// Closed axis-aligned bounds test.
    pub fn is_inside_rectangle(
        x: i64,
        y: i64,
        x_rectangle: i64,
        y_rectangle: i64,
        width: i64,
        height: i64,
    ) -> (r: bool)
        requires
            coord_ok(x_rectangle as int),
            coord_ok(y_rectangle as int),
            coord_ok(width as int),
            coord_ok(height as int),
        ensures
            r == in_rect(
                x as int,
                y as int,
                x_rectangle as int,
                y_rectangle as int,
                width as int,
                height as int,
            ),
    {
        x_rectangle <= x && x_rectangle + width >= x && y_rectangle <= y && y_rectangle + height
            >= y
    }

    /// True iff at least two points of `points` share the column of
    /// `(x, y)` or at least two share its row.
    pub fn are_on_same_line(x: i64, y: i64, points: &Vec<(i64, i64)>) -> (r: bool)
        ensures
            r == shares_axis(points@, x as int, y as int),
    {
        let mut on_x: usize = 0;
        let mut on_y: usize = 0;
        let n = points.len();
        for i in 0..n
            invariant
                n == points@.len(),
                on_x == count_with_x(points@.take(i as int), x as int),
                on_y == count_with_y(points@.take(i as int), y as int),
                on_x <= i,
                on_y <= i,
        {
            proof {
                assert(points@.take(i + 1).drop_last() =~= points@.take(i as int));
                assert(points@.take(i + 1).last() == points@[i as int]);
            }
            if points[i].0 == x {
                on_x = on_x + 1;
            }
            if points[i].1 == y {
                on_y = on_y + 1;
            }
        }
        proof {
            assert(points@.take(n as int) =~= points@);
        }
        on_x >= 2 || on_y >= 2
    }
}

} // verus!
