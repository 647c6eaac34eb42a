//! Fixed-point positions and axis-aligned rectangles. A position is held in
//! thousandths of a tile, so feature placement needs no floating point.
use vstd::prelude::*;

verus! {

/// Thousandths of a tile per tile.
pub const POINT_SCALE: i64 = 1000;

/// A position in the world, in thousandths of a tile.
#[derive(Copy, Clone, Debug, PartialEq, Eq, Structural)]
pub struct Point {
    pub x: i64,
    pub y: i64,
}

/// Builds the point `(x, y)`.
pub fn point(x: i64, y: i64) -> (r: Point)
    ensures
        r.x == x,
        r.y == y,
{
    Point { x, y }
}

/// Taxicab distance between two points.
pub open spec fn taxicab(a: Point, b: Point) -> int {
    (crate::coord::abs(a.x - b.x) + crate::coord::abs(a.y - b.y)) as int
}

/// Squared Euclidean distance between two points.
pub open spec fn distance_squared(a: Point, b: Point) -> int {
    (a.x - b.x) * (a.x - b.x) + (a.y - b.y) * (a.y - b.y)
}

/// Whether a point lies inside a rectangle: lower edges included, upper
/// edges excluded.
pub open spec fn rect_contains(r: Rect, p: Point) -> bool {
    r.position.x <= p.x < r.position.x + r.size.x && r.position.y <= p.y < r.position.y
        + r.size.y
}

/// Taxicab distance between two points whose coordinates lie within `2^44`.
pub fn taxicab_distance(a: Point, b: Point) -> (r: i64)
    requires
        -0x1000_0000_0000 <= a.x <= 0x1000_0000_0000,
        -0x1000_0000_0000 <= a.y <= 0x1000_0000_0000,
        -0x1000_0000_0000 <= b.x <= 0x1000_0000_0000,
        -0x1000_0000_0000 <= b.y <= 0x1000_0000_0000,
    ensures
        r == taxicab(a, b),
{
    let dx = if a.x >= b.x { a.x - b.x } else { b.x - a.x };
    let dy = if a.y >= b.y { a.y - b.y } else { b.y - a.y };
    dx + dy
}

/// Squared Euclidean distance between two points whose coordinates lie
/// within `2^44`.
pub fn squared_distance(a: Point, b: Point) -> (r: i128)
    requires
        -0x1000_0000_0000 <= a.x <= 0x1000_0000_0000,
        -0x1000_0000_0000 <= a.y <= 0x1000_0000_0000,
        -0x1000_0000_0000 <= b.x <= 0x1000_0000_0000,
        -0x1000_0000_0000 <= b.y <= 0x1000_0000_0000,
    ensures
        r == distance_squared(a, b),
{
    let dx = (a.x - b.x) as i128;
    let dy = (a.y - b.y) as i128;
    proof {
        assert(dx * dx <= 0x400_0000_0000_0000_0000_0000_0000) by (nonlinear_arith)
            requires
                -0x2000_0000_0000 <= dx <= 0x2000_0000_0000,
        ;
        assert(dy * dy <= 0x400_0000_0000_0000_0000_0000_0000) by (nonlinear_arith)
            requires
                -0x2000_0000_0000 <= dy <= 0x2000_0000_0000,
        ;
        assert(dx * dx >= 0 && dy * dy >= 0) by (nonlinear_arith);
    }
    dx * dx + dy * dy
}

/// An axis-aligned rectangle given by its lower corner and its size.
#[derive(Copy, Clone, Debug, PartialEq, Eq, Structural)]
pub struct Rect {
    pub position: Point,
    pub size: Point,
}

/// Builds the rectangle with lower corner `position` and extent `size`.
pub fn rect(position: Point, size: Point) -> (r: Rect)
    ensures
        r.position == position,
        r.size == size,
{
    Rect { position, size }
}

impl Rect {
    /// The lower corner.
    pub fn min(&self) -> (r: Point)
        ensures
            r == self.position,
    {
        self.position
    }

    /// The upper corner.
    pub fn max(&self) -> (r: Point)
        requires
            i64::MIN <= self.position.x + self.size.x <= i64::MAX,
            i64::MIN <= self.position.y + self.size.y <= i64::MAX,
        ensures
            r.x == self.position.x + self.size.x,
            r.y == self.position.y + self.size.y,
    {
        point(self.position.x + self.size.x, self.position.y + self.size.y)
    }

    /// Whether `position` lies inside, lower edges included and upper edges
    /// excluded.
    pub fn contains(&self, position: Point) -> (r: bool)
        ensures
            r == rect_contains(*self, position),
    {
        let px = position.x as i128;
        let py = position.y as i128;
        px >= self.position.x as i128 && px < self.position.x as i128 + self.size.x as i128
            && py >= self.position.y as i128 && py < self.position.y as i128
            + self.size.y as i128
    }
}

} // verus!
