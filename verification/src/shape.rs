//! Shapes that a quadtree can be queried with.

use vstd::prelude::*;

verus! {

/// A shape on the grid, given by the positions it holds.
///
/// A query keeps the identifiers stored at positions for which
/// `intersects_point` answers true. `intersects_rectangle` only prunes: it
/// must answer true for every rectangle that has a position of the shape in
/// it, and may answer true for others.
pub trait Queryable {
    /// Whether the shape holds the grid position `(x, y)`.
    spec fn covers(&self, x: int, y: int) -> bool;

    /// Tests whether the shape may reach into the rectangle of all `(px, py)`
    /// with `x <= px <= x + width` and `y <= py <= y + height`.
    fn intersects_rectangle(&self, x: i32, y: i32, width: u32, height: u32) -> (hit: bool)
        ensures
            forall|px: int, py: int|
                x <= px <= x + width && y <= py <= y + height && #[trigger] self.covers(px, py)
                    ==> hit,
    ;

    /// Tests whether the shape holds the position `(x, y)`.
    fn intersects_point(&self, x: i32, y: i32) -> (hit: bool)
        ensures
            hit == self.covers(x as int, y as int),
    ;
}

/// The squared Euclidean distance between two grid positions.
pub open spec fn distance_squared(ax: int, ay: int, bx: int, by: int) -> int {
    (ax - bx) * (ax - bx) + (ay - by) * (ay - by)
}

/// `v` moved into the interval from `low` to `high`.
pub open spec fn clamp(v: int, low: int, high: int) -> int {
    if v < low {
        low
    } else if v > high {
        high
    } else {
        v
    }
}

/// The positions within a radius of a centre, the rim included.
#[derive(Clone, Copy, Debug, PartialEq, Eq, Structural)]
pub struct Circle {
    /// The centre's `x`.
    pub x: i32,
    /// The centre's `y`.
    pub y: i32,
    /// The radius.
    pub r: u32,
}

impl Circle {
    /// The squared distance from the centre to the nearest position of the
    /// rectangle with origin `(x, y)` and the given size: the centre with
    /// each coordinate clamped to the rectangle's bounds.
    pub open spec fn nearest_distance_squared(&self, x: int, y: int, width: int, height: int) -> int {
        distance_squared(
            self.x as int,
            self.y as int,
            clamp(self.x as int, x, x + width),
            clamp(self.y as int, y, y + height),
        )
    }

    /// Whether the circle reaches the rectangle: its nearest position is no
    /// farther from the centre than the radius.
    pub open spec fn reaches(&self, x: int, y: int, width: int, height: int) -> bool {
        self.nearest_distance_squared(x, y, width, height) <= self.r * self.r
    }

    /// The circle about `(x, y)` with radius `r`.
    pub fn new(x: i32, y: i32, r: u32) -> (c: Circle)
        ensures
            c == (Circle { x, y, r }),
    {
        Circle { x, y, r }
    }

    /// No position of the rectangle is nearer to the centre than the clamped
    /// centre is.
    pub proof fn lemma_clamped_is_nearest(
        &self,
        x: int,
        y: int,
        width: int,
        height: int,
        px: int,
        py: int,
    )
        requires
            x <= px <= x + width,
            y <= py <= y + height,
        ensures
            self.nearest_distance_squared(x, y, width, height) <= distance_squared(
                self.x as int,
                self.y as int,
                px,
                py,
            ),
    {
        let cx = self.x as int;
        let cy = self.y as int;
        let nx = clamp(cx, x, x + width);
        let ny = clamp(cy, y, y + height);
        lemma_square_monotone(cx - nx, cx - px);
        lemma_square_monotone(cy - ny, cy - py);
    }

    /// The rectangle test is exact: the circle reaches a rectangle if and
    /// only if it holds one of the rectangle's positions.
    pub proof fn lemma_reaches_iff_shared_position(&self, x: int, y: int, width: int, height: int)
        requires
            0 <= width,
            0 <= height,
        ensures
            self.reaches(x, y, width, height) <==> exists|px: int, py: int|
                x <= px <= x + width && y <= py <= y + height && #[trigger] self.covers(px, py),
    {
        let nx = clamp(self.x as int, x, x + width);
        let ny = clamp(self.y as int, y, y + height);
        if self.reaches(x, y, width, height) {
            assert(x <= nx <= x + width && y <= ny <= y + height && self.covers(nx, ny));
        }
        assert forall|px: int, py: int|
            x <= px <= x + width && y <= py <= y + height && #[trigger] self.covers(
                px,
                py,
            ) implies self.reaches(x, y, width, height) by {
            self.lemma_clamped_is_nearest(x, y, width, height, px, py);
        }
    }

    /// A circle whose centre lies in a rectangle reaches it, whatever its
    /// radius.
    pub proof fn lemma_center_inside_reaches(&self, x: int, y: int, width: int, height: int)
        requires
            x <= self.x <= x + width,
            y <= self.y <= y + height,
        ensures
            self.nearest_distance_squared(x, y, width, height) == 0,
            self.reaches(x, y, width, height),
    {
        let dx = self.x - clamp(self.x as int, x, x + width);
        let dy = self.y - clamp(self.y as int, y, y + height);
        assert(dx * dx + dy * dy == 0) by (nonlinear_arith)
            requires
                dx == 0,
                dy == 0,
        ;
        assert(0 <= self.r * self.r) by (nonlinear_arith);
    }

    /// The rim belongs to the circle: a rectangle whose nearest position is
    /// exactly one radius away is reached, and one whose nearest position is
    /// farther away is not.
    pub proof fn lemma_rim_is_inclusive(&self, x: int, y: int, width: int, height: int)
        ensures
            self.nearest_distance_squared(x, y, width, height) == self.r * self.r
                ==> self.reaches(x, y, width, height),
            self.nearest_distance_squared(x, y, width, height) > self.r * self.r
                ==> !self.reaches(x, y, width, height),
    {
    }
}

/// Of two numbers the one nearer to zero has the smaller square.
pub proof fn lemma_square_monotone(a: int, b: int)
    requires
        (0 <= a <= b) || (b <= a <= 0),
    ensures
        a * a <= b * b,
{
    assert(a * a <= b * b) by (nonlinear_arith)
        requires
            (0 <= a <= b) || (b <= a <= 0),
    ;
}

/// A difference of two coordinates, squared, fits in 64 bits.
proof fn lemma_square_bound(d: int)
    requires
        -0x1_0000_0000 < d < 0x1_0000_0000,
    ensures
        0 <= d * d <= 0xffff_ffff * 0xffff_ffff,
{
    assert(0 <= d * d <= 0xffff_ffff * 0xffff_ffff) by (nonlinear_arith)
        requires
            -0x1_0000_0000 < d < 0x1_0000_0000,
    ;
}

impl Queryable for Circle {
    /// The positions whose squared distance from the centre is at most the
    /// squared radius.
    open spec fn covers(&self, x: int, y: int) -> bool {
        distance_squared(self.x as int, self.y as int, x, y) <= self.r * self.r
    }

    fn intersects_rectangle(&self, x: i32, y: i32, width: u32, height: u32) -> (hit: bool)
        ensures
            hit == self.reaches(x as int, y as int, width as int, height as int),
    {
        let cx = self.x as i64;
        let cy = self.y as i64;
        let right = x as i64 + width as i64;
        let bottom = y as i64 + height as i64;
        let nx = if cx < x as i64 {
            x as i64
        } else if cx > right {
            right
        } else {
            cx
        };
        let ny = if cy < y as i64 {
            y as i64
        } else if cy > bottom {
            bottom
        } else {
            cy
        };
        let dx = (cx - nx) as i128;
        let dy = (cy - ny) as i128;
        let r = self.r as i128;
        proof {
            lemma_square_bound(dx as int);
            lemma_square_bound(dy as int);
            lemma_square_bound(r as int);
            self.lemma_reaches_iff_shared_position(
                x as int,
                y as int,
                width as int,
                height as int,
            );
        }
        dy * dy + dx * dx <= r * r
    }

    fn intersects_point(&self, x: i32, y: i32) -> (hit: bool) {
        let dx = (self.x as i64 - x as i64) as i128;
        let dy = (self.y as i64 - y as i64) as i128;
        let r = self.r as i128;
        proof {
            lemma_square_bound(dx as int);
            lemma_square_bound(dy as int);
            lemma_square_bound(r as int);
        }
        dy * dy + dx * dx <= r * r
    }
}

} // verus!
