use vstd::prelude::*;

verus! {

/// A position on the grid, or an offset between two positions.
#[derive(Clone, Copy, Debug, PartialEq, Eq, Structural)]
pub struct Point {
    pub x: i32,
    pub y: i32,
}

impl Point {
    pub fn new(x: i32, y: i32) -> (r: Point)
        ensures
            r.x == x,
            r.y == y,
    {
        Point { x, y }
    }

    pub fn zero() -> (r: Point)
        ensures
            r.x == 0,
            r.y == 0,
    {
        Point { x: 0, y: 0 }
    }
}

/// `q` is one orthogonal step from `p`.
pub open spec fn one_step(p: Point, q: Point) -> bool {
    (q.y == p.y && (q.x == p.x - 1 || q.x == p.x + 1)) || (q.x == p.x && (q.y == p.y - 1 || q.y
        == p.y + 1))
}

/// Square of the straight-line distance between two points.
pub open spec fn dist_sq(a: Point, b: Point) -> int {
    (a.x - b.x) * (a.x - b.x) + (a.y - b.y) * (a.y - b.y)
}

/// Exact squared Euclidean distance, for coordinates that fit on the grid.
pub fn distance_sq(a: Point, b: Point) -> (r: i64)
    requires
        -10000 <= a.x <= 10000,
        -10000 <= a.y <= 10000,
        -10000 <= b.x <= 10000,
        -10000 <= b.y <= 10000,
    ensures
        r == dist_sq(a, b),
{
    let dx: i64 = a.x as i64 - b.x as i64;
    let dy: i64 = a.y as i64 - b.y as i64;
    assert(dx * dx <= 400000000) by (nonlinear_arith)
        requires -20000 <= dx <= 20000;
    assert(dy * dy <= 400000000) by (nonlinear_arith)
        requires -20000 <= dy <= 20000;
    assert(dx * dx >= 0) by (nonlinear_arith);
    assert(dy * dy >= 0) by (nonlinear_arith);
    dx * dx + dy * dy
}

/// An axis-aligned rectangle from `(x1, y1)` up to, not including, `(x2, y2)`.
#[derive(Clone, Copy, Debug, PartialEq, Eq, Structural)]
pub struct Rect {
    pub x1: i32,
    pub x2: i32,
    pub y1: i32,
    pub y2: i32,
}

/// The closed extents of `a` and `b` meet on both axes.
pub open spec fn overlaps(a: Rect, b: Rect) -> bool {
    a.x1 <= b.x2 && a.x2 >= b.x1 && a.y1 <= b.y2 && a.y2 >= b.y1
}

/// Half of `s`, rounded toward zero.
pub open spec fn half(s: int) -> int {
    if s >= 0 {
        s / 2
    } else {
        -((-s) / 2)
    }
}

pub open spec fn center_of(r: Rect) -> Point {
    Point { x: half(r.x1 + r.x2) as i32, y: half(r.y1 + r.y2) as i32 }
}

/// `p` lies within the rectangle's tiles.
pub open spec fn covers(r: Rect, p: Point) -> bool {
    r.x1 <= p.x < r.x2 && r.y1 <= p.y < r.y2
}

impl Rect {
    pub fn with_size(x: i32, y: i32, w: i32, h: i32) -> (r: Rect)
        requires
            x + w <= i32::MAX,
            y + h <= i32::MAX,
            x + w >= i32::MIN,
            y + h >= i32::MIN,
        ensures
            r.x1 == x && r.y1 == y && r.x2 == x + w && r.y2 == y + h,
    {
        Rect { x1: x, y1: y, x2: x + w, y2: y + h }
    }

    /// Whether the two rectangles overlap, borders included.
    pub fn intersect(&self, other: &Rect) -> (r: bool)
        ensures
            r == overlaps(*self, *other),
    {
        self.x1 <= other.x2 && self.x2 >= other.x1 && self.y1 <= other.y2 && self.y2 >= other.y1
    }

    /// The midpoint, rounded toward zero on each axis.
    pub fn center(&self) -> (r: Point)
        ensures
            r == center_of(*self),
    {
        let cx = ((self.x1 as i64 + self.x2 as i64) / 2) as i32;
        let cy = ((self.y1 as i64 + self.y2 as i64) / 2) as i32;
        Point::new(cx, cy)
    }
}

} // verus!
