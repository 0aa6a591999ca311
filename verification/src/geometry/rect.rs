//! An axis-aligned integer rectangle.

use vstd::prelude::*;

use crate::geometry::point::Point;
use crate::geometry::point_set::PointSet;

verus! {

/// Truncating division by two (rounds toward zero, like `i32` division).
pub open spec fn half_toward_zero(s: int) -> int {
    if s >= 0 {
        s / 2
    } else {
        -((-s) / 2)
    }
}

/// An axis-aligned rectangle over integer cells. The convention `x2 >= x1`,
/// `y2 >= y1` is a caller responsibility and is not enforced; membership and
/// iteration treat both bounds as inclusive.
#[derive(Clone, Copy, Debug, PartialEq, Eq, Structural, Hash)]
pub struct Rect {
    /// Left edge.
    pub x1: i32,
    /// Right edge.
    pub x2: i32,
    /// Top edge.
    pub y1: i32,
    /// Bottom edge.
    pub y2: i32,
}

impl Rect {
    /// Whether the rectangle contains the cell `(x, y)`, at the spec level.
    pub open spec fn spec_contains(self, x: int, y: int) -> bool {
        self.x1 <= x <= self.x2 && self.y1 <= y <= self.y2
    }

    /// Creates a new rectangle from a position and a width/height.
    pub fn new(x: i32, y: i32, w: i32, h: i32) -> (r: Rect)
        requires
            i32::MIN <= x + w <= i32::MAX,
            i32::MIN <= y + h <= i32::MAX,
        ensures
            r == (Rect { x1: x, y1: y, x2: (x + w) as i32, y2: (y + h) as i32 }),
    {
        Rect { x1: x, y1: y, x2: x + w, y2: y + h }
    }

    /// Creates a new rectangle from exact corner coordinates.
    pub fn new_exact(x1: i32, y1: i32, x2: i32, y2: i32) -> (r: Rect)
        ensures
            r == (Rect { x1, y1, x2, y2 }),
    {
        Rect { x1, y1, x2, y2 }
    }

    /// Creates the zero rectangle.
    pub fn zero() -> (r: Rect)
        ensures
            r == (Rect { x1: 0, y1: 0, x2: 0, y2: 0 }),
    {
        Rect { x1: 0, y1: 0, x2: 0, y2: 0 }
    }

    /// Whether this rectangle overlaps `other` (inclusive edges).
    pub fn intersect(&self, other: &Rect) -> (r: bool)
        ensures
            r == (self.x1 <= other.x2 && self.x2 >= other.x1 && self.y1 <= other.y2
                && self.y2 >= other.y1),
    {
        self.x1 <= other.x2 && self.x2 >= other.x1 && self.y1 <= other.y2 && self.y2 >= other.y1
    }

    /// The center of the rectangle, with coordinates rounded toward zero.
    pub fn center(&self) -> (p: Point)
        ensures
            p.x == half_toward_zero(self.x1 + self.x2),
            p.y == half_toward_zero(self.y1 + self.y2),
    {
        Point { x: half_i64(self.x1 as i64 + self.x2 as i64), y: half_i64(
            self.y1 as i64 + self.y2 as i64,
        ) }
    }

    /// Whether `point` lies inside the rectangle (inclusive edges).
    pub fn point_in_rect(&self, point: Point) -> (r: bool)
        ensures
            r == self.spec_contains(point.x as int, point.y as int),
    {
        point.x >= self.x1 && point.x <= self.x2 && point.y >= self.y1 && point.y <= self.y2
    }

    /// Calls `f` once for each cell of the rectangle, in row-major order.
    pub fn for_each<F: Fn(Point)>(&self, f: F)
        requires
            forall|p: Point| self.spec_contains(p.x as int, p.y as int) ==> f.requires((p,)),
    {
        let mut y: i64 = self.y1 as i64;
        while y <= self.y2 as i64
            invariant
                self.y1 <= y,
                y <= self.y2 as int + 1 || y == self.y1 as int,
                forall|p: Point| self.spec_contains(p.x as int, p.y as int) ==> f.requires((p,)),
            decreases self.y2 - y + 1,
        {
            let mut x: i64 = self.x1 as i64;
            while x <= self.x2 as i64
                invariant
                    self.y1 <= y <= self.y2,
                    self.x1 <= x,
                    x <= self.x2 as int + 1 || x == self.x1 as int,
                    forall|p: Point|
                        self.spec_contains(p.x as int, p.y as int) ==> f.requires((p,)),
                decreases self.x2 - x + 1,
            {
                let p = Point { x: x as i32, y: y as i32 };
                proof {
                    assert(self.spec_contains(p.x as int, p.y as int));
                }
                f(p);
                x += 1;
            }
            y += 1;
        }
    }

    /// The set of all cells in the rectangle.
    pub fn point_set(&self) -> (s: PointSet)
        ensures
            s.wf(),
            forall|p: Point| s@.contains(p) <==> self.spec_contains(p.x as int, p.y as int),
    {
        let mut result = PointSet::new();
        let ghost r = *self;
        let mut y: i64 = self.y1 as i64;
        while y <= self.y2 as i64
            invariant
                r == *self,
                self.y1 <= y,
                y <= self.y2 as int + 1 || y == self.y1 as int,
                result.wf(),
                forall|p: Point|
                    result@.contains(p) <==> (r.spec_contains(p.x as int, p.y as int) && p.y
                        < y),
            decreases self.y2 - y + 1,
        {
            let mut x: i64 = self.x1 as i64;
            while x <= self.x2 as i64
                invariant
                    r == *self,
                    self.y1 <= y <= self.y2,
                    self.x1 <= x,
                    x <= self.x2 as int + 1 || x == self.x1 as int,
                    result.wf(),
                    forall|p: Point|
                        result@.contains(p) <==> (r.spec_contains(p.x as int, p.y as int) && (p.y
                            < y || (p.y == y && p.x < x))),
                decreases self.x2 - x + 1,
            {
                result.insert(Point { x: x as i32, y: y as i32 });
                x += 1;
            }
            y += 1;
        }
        result
    }

    /// The rectangle's width (absolute horizontal extent).
    pub fn width(&self) -> (w: i32)
        requires
            abs_spec(self.x2 - self.x1) <= i32::MAX,
        ensures
            w == abs_spec(self.x2 - self.x1),
    {
        abs_i64(self.x2 as i64 - self.x1 as i64) as i32
    }

    /// The rectangle's height (absolute vertical extent).
    pub fn height(&self) -> (h: i32)
        requires
            abs_spec(self.y2 - self.y1) <= i32::MAX,
        ensures
            h == abs_spec(self.y2 - self.y1),
    {
        abs_i64(self.y2 as i64 - self.y1 as i64) as i32
    }

    /// Translates this rectangle by the position of `rhs`, preserving this
    /// rectangle's width and height.
    pub fn add(self, rhs: Rect) -> (r: Rect)
        requires
            abs_spec(self.x2 - self.x1) <= i32::MAX,
            abs_spec(self.y2 - self.y1) <= i32::MAX,
            i32::MIN <= self.x1 + rhs.x1 <= i32::MAX,
            i32::MIN <= self.y1 + rhs.y1 <= i32::MAX,
            i32::MIN <= self.x1 + rhs.x1 + abs_spec(self.x2 - self.x1) <= i32::MAX,
            i32::MIN <= self.y1 + rhs.y1 + abs_spec(self.y2 - self.y1) <= i32::MAX,
        ensures
            r.x1 == self.x1 + rhs.x1,
            r.y1 == self.y1 + rhs.y1,
            r.x2 == r.x1 + abs_spec(self.x2 - self.x1),
            r.y2 == r.y1 + abs_spec(self.y2 - self.y1),
    {
        let w = self.width();
        let h = self.height();
        let x1 = self.x1 + rhs.x1;
        let y1 = self.y1 + rhs.y1;
        Rect { x1, y1, x2: x1 + w, y2: y1 + h }
    }
}

impl Default for Rect {
    /// The default rectangle is the zero rectangle.
    fn default() -> (r: Rect)
        ensures
            r == (Rect { x1: 0, y1: 0, x2: 0, y2: 0 }),
    {
        Rect::zero()
    }
}

/// Absolute value, at the spec level.
pub open spec fn abs_spec(s: int) -> int {
    if s >= 0 {
        s
    } else {
        -s
    }
}

/// Absolute value of an `i64` whose magnitude fits.
fn abs_i64(s: i64) -> (r: i64)
    requires
        s != i64::MIN,
    ensures
        r == abs_spec(s as int),
{
    if s >= 0 {
        s
    } else {
        -s
    }
}

/// Truncating halving of an `i64`, used for rectangle centers.
fn half_i64(s: i64) -> (r: i32)
    requires
        i32::MIN * 2 <= s <= i32::MAX * 2,
    ensures
        r == half_toward_zero(s as int),
{
    if s >= 0 {
        ((s as u64) / 2) as i32
    } else {
        let q = (((-s) as u64) / 2) as i64;
        (-q) as i32
    }
}

} // verus!
