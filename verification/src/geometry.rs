//! Grid points and the axis-aligned regions that quadtree nodes own.

use vstd::prelude::*;

verus! {

/// A position on the integer grid.
#[derive(Clone, Copy, Debug, PartialEq, Eq, Structural)]
pub struct Point {
    pub x: i32,
    pub y: i32,
}

impl Point {
    /// The point with the given coordinates.
    pub fn new(x: i32, y: i32) -> (p: Point)
        ensures
            p.x == x,
            p.y == y,
    {
        Point { x, y }
    }
}

/// One of the four quarters of a region. North is the side of the smaller
/// `y`, west the side of the smaller `x`.
#[derive(Clone, Copy, Debug, PartialEq, Eq, Structural)]
pub enum Quadrant {
    NorthEast,
    NorthWest,
    SouthEast,
    SouthWest,
}

/// An axis-aligned rectangle of grid points: every `(px, py)` with
/// `x <= px <= x + width` and `y <= py <= y + height`. All four edges belong
/// to the region.
#[derive(Clone, Copy, Debug, PartialEq, Eq, Structural)]
pub struct Region {
    pub x: i32,
    pub y: i32,
    pub width: u32,
    pub height: u32,
}

impl Region {
    /// The largest `x` that lies in the region.
    pub open spec fn right(self) -> int {
        self.x + self.width
    }

    /// The largest `y` that lies in the region.
    pub open spec fn bottom(self) -> int {
        self.y + self.height
    }

    /// Whether the far edges are themselves coordinates of grid points.
    pub open spec fn in_range(self) -> bool {
        self.right() <= i32::MAX && self.bottom() <= i32::MAX
    }

    /// Whether the grid position `(px, py)` lies in the region.
    pub open spec fn covers_xy(self, px: int, py: int) -> bool {
        self.x <= px <= self.right() && self.y <= py <= self.bottom()
    }

    /// Whether `p` lies in the region.
    pub open spec fn covers(self, p: Point) -> bool {
        self.covers_xy(p.x as int, p.y as int)
    }

    /// Width plus height: the measure that every subdivision lowers.
    pub open spec fn extent(self) -> nat {
        (self.width + self.height) as nat
    }

    /// Whether the region is one grid point, which no subdivision can split.
    pub open spec fn is_single_point(self) -> bool {
        self.width == 0 && self.height == 0
    }

    /// The quarter `q` of the region. Every quarter is `width / 2` wide and
    /// `height / 2` high; the western and northern quarters start at the
    /// region's origin, the eastern and southern ones end at its far edges.
    pub open spec fn quadrant(self, q: Quadrant) -> Region {
        let w = self.width / 2;
        let h = self.height / 2;
        let east = (self.x + (self.width - w)) as i32;
        let south = (self.y + (self.height - h)) as i32;
        match q {
            Quadrant::NorthEast => Region { x: east, y: self.y, width: w, height: h },
            Quadrant::NorthWest => Region { x: self.x, y: self.y, width: w, height: h },
            Quadrant::SouthEast => Region { x: east, y: south, width: w, height: h },
            Quadrant::SouthWest => Region { x: self.x, y: south, width: w, height: h },
        }
    }

    /// The quarter that receives `p` when the quarters are tried in the order
    /// north-east, north-west, south-east, south-west.
    pub open spec fn first_quadrant_covering(self, p: Point) -> Quadrant {
        if self.quadrant(Quadrant::NorthEast).covers(p) {
            Quadrant::NorthEast
        } else if self.quadrant(Quadrant::NorthWest).covers(p) {
            Quadrant::NorthWest
        } else if self.quadrant(Quadrant::SouthEast).covers(p) {
            Quadrant::SouthEast
        } else {
            Quadrant::SouthWest
        }
    }

    /// The region with origin `(x, y)` and the given size.
    pub fn new(x: i32, y: i32, width: u32, height: u32) -> (r: Region)
        ensures
            r == (Region { x, y, width, height }),
    {
        Region { x, y, width, height }
    }

    /// Tests whether `p` lies in the region, edges included.
    pub fn contains(&self, p: Point) -> (inside: bool)
        ensures
            inside == self.covers(p),
    {
        let px = p.x as i64;
        let py = p.y as i64;
        let x = self.x as i64;
        let y = self.y as i64;
        px >= x && px <= x + self.width as i64 && py >= y && py <= y + self.height as i64
    }

    /// Tests whether both far edges are coordinates of grid points.
    pub fn fits(&self) -> (ok: bool)
        ensures
            ok == self.in_range(),
    {
        self.x as i64 + self.width as i64 <= i32::MAX as i64 && self.y as i64 + self.height as i64
            <= i32::MAX as i64
    }

    /// Computes the quarter `q` of a region whose far edges are in range.
    pub fn quarter(&self, q: Quadrant) -> (r: Region)
        requires
            self.in_range(),
        ensures
            r == self.quadrant(q),
            r.in_range(),
    {
        let w = self.width / 2;
        let h = self.height / 2;
        let east = (self.x as i64 + (self.width - w) as i64) as i32;
        let south = (self.y as i64 + (self.height - h) as i64) as i32;
        match q {
            Quadrant::NorthEast => Region { x: east, y: self.y, width: w, height: h },
            Quadrant::NorthWest => Region { x: self.x, y: self.y, width: w, height: h },
            Quadrant::SouthEast => Region { x: east, y: south, width: w, height: h },
            Quadrant::SouthWest => Region { x: self.x, y: south, width: w, height: h },
        }
    }

    /// The four quarters tile the region: they leave no grid point of it out
    /// and reach nowhere beyond it.
    pub proof fn lemma_quadrants_tile(self, p: Point)
        requires
            self.in_range(),
        ensures
            self.covers(p) <==> (self.quadrant(Quadrant::NorthEast).covers(p) || self.quadrant(
                Quadrant::NorthWest,
            ).covers(p) || self.quadrant(Quadrant::SouthEast).covers(p) || self.quadrant(
                Quadrant::SouthWest,
            ).covers(p)),
            self.covers(p) ==> self.quadrant(self.first_quadrant_covering(p)).covers(p),
    {
    }

    /// A quarter of a region in range is in range, and smaller than a region
    /// of more than one point.
    pub proof fn lemma_quadrant_shrinks(self, q: Quadrant)
        requires
            self.in_range(),
        ensures
            self.quadrant(q).in_range(),
            self.quadrant(q).width == self.width / 2,
            self.quadrant(q).height == self.height / 2,
            !self.is_single_point() ==> self.quadrant(q).extent() < self.extent(),
    {
    }
}

} // verus!
