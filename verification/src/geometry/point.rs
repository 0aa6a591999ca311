//! A 2D point on the integer lattice.

use vstd::prelude::*;

verus! {

/// Truncating integer division (rounds toward zero, as `i32` division does).
pub open spec fn div_toward_zero(a: int, b: int) -> int {
    let m = if a >= 0 {
        a
    } else {
        -a
    };
    let d = if b >= 0 {
        b
    } else {
        -b
    };
    if (a >= 0) == (b >= 0) {
        m / d
    } else {
        -(m / d)
    }
}

/// A 2D point in discrete space. Carries no bounds of its own: boundedness
/// is a property of the map a point is used with, not of the point.
#[derive(Clone, Copy, Debug, PartialEq, Eq, Structural, Hash)]
pub struct Point {
    /// X coordinate.
    pub x: i32,
    /// Y coordinate.
    pub y: i32,
}

impl Point {
    /// Creates a new point from an x/y coordinate pair.
    pub fn new(x: i32, y: i32) -> (p: Point)
        ensures
            p == (Point { x, y }),
    {
        Point { x, y }
    }

    /// Creates the zero point (the origin).
    pub fn zero() -> (p: Point)
        ensures
            p == (Point { x: 0, y: 0 }),
    {
        Point { x: 0, y: 0 }
    }

    /// Creates a point from a tuple of two `i32`s.
    pub fn from_tuple(t: (i32, i32)) -> (p: Point)
        ensures
            p == (Point { x: t.0, y: t.1 }),
    {
        Point { x: t.0, y: t.1 }
    }

    /// Componentwise sum of two points.
    pub fn add(self, rhs: Point) -> (p: Point)
        requires
            i32::MIN <= self.x + rhs.x <= i32::MAX,
            i32::MIN <= self.y + rhs.y <= i32::MAX,
        ensures
            p.x == self.x + rhs.x,
            p.y == self.y + rhs.y,
    {
        Point { x: self.x + rhs.x, y: self.y + rhs.y }
    }

    /// Componentwise difference of two points.
    pub fn sub(self, rhs: Point) -> (p: Point)
        requires
            i32::MIN <= self.x - rhs.x <= i32::MAX,
            i32::MIN <= self.y - rhs.y <= i32::MAX,
        ensures
            p.x == self.x - rhs.x,
            p.y == self.y - rhs.y,
    {
        Point { x: self.x - rhs.x, y: self.y - rhs.y }
    }

    /// Componentwise product of two points.
    pub fn mul(self, rhs: Point) -> (p: Point)
        requires
            i32::MIN <= self.x * rhs.x <= i32::MAX,
            i32::MIN <= self.y * rhs.y <= i32::MAX,
        ensures
            p.x == self.x * rhs.x,
            p.y == self.y * rhs.y,
    {
        Point { x: self.x * rhs.x, y: self.y * rhs.y }
    }

    /// Adds a scalar to both coordinates.
    pub fn add_scalar(self, rhs: i32) -> (p: Point)
        requires
            i32::MIN <= self.x + rhs <= i32::MAX,
            i32::MIN <= self.y + rhs <= i32::MAX,
        ensures
            p.x == self.x + rhs,
            p.y == self.y + rhs,
    {
        Point { x: self.x + rhs, y: self.y + rhs }
    }

    /// Subtracts a scalar from both coordinates.
    pub fn sub_scalar(self, rhs: i32) -> (p: Point)
        requires
            i32::MIN <= self.x - rhs <= i32::MAX,
            i32::MIN <= self.y - rhs <= i32::MAX,
        ensures
            p.x == self.x - rhs,
            p.y == self.y - rhs,
    {
        Point { x: self.x - rhs, y: self.y - rhs }
    }

    /// Multiplies both coordinates by a scalar.
    pub fn mul_scalar(self, rhs: i32) -> (p: Point)
        requires
            i32::MIN <= self.x * rhs <= i32::MAX,
            i32::MIN <= self.y * rhs <= i32::MAX,
        ensures
            p.x == self.x * rhs,
            p.y == self.y * rhs,
    {
        Point { x: self.x * rhs, y: self.y * rhs }
    }

    /// Divides both coordinates by a scalar, rounding toward zero.
    pub fn div_scalar(self, rhs: i32) -> (p: Point)
        requires
            rhs != 0,
            !(self.x == i32::MIN && rhs == -1),
            !(self.y == i32::MIN && rhs == -1),
        ensures
            p.x == div_toward_zero(self.x as int, rhs as int),
            p.y == div_toward_zero(self.y as int, rhs as int),
    {
        Point { x: div_i32(self.x, rhs), y: div_i32(self.y, rhs) }
    }

    /// Componentwise quotient of two points, rounded toward zero.
    pub fn div(self, rhs: Point) -> (p: Point)
        requires
            rhs.x != 0,
            rhs.y != 0,
            !(self.x == i32::MIN && rhs.x == -1),
            !(self.y == i32::MIN && rhs.y == -1),
        ensures
            p.x == div_toward_zero(self.x as int, rhs.x as int),
            p.y == div_toward_zero(self.y as int, rhs.y as int),
    {
        Point { x: div_i32(self.x, rhs.x), y: div_i32(self.y, rhs.y) }
    }
}

/// Truncating division of two `i32`s through unsigned arithmetic.
fn div_i32(a: i32, b: i32) -> (r: i32)
    requires
        b != 0,
        !(a == i32::MIN && b == -1),
    ensures
        r == div_toward_zero(a as int, b as int),
{
    let m: u32 = if a >= 0 {
        a as u32
    } else {
        ((-(a as i64)) as u32)
    };
    let d: u32 = if b >= 0 {
        b as u32
    } else {
        ((-(b as i64)) as u32)
    };
    let q = m / d;
    proof {
        vstd::arithmetic::div_mod::lemma_fundamental_div_mod(m as int, d as int);
        vstd::arithmetic::div_mod::lemma_mod_bound(m as int, d as int);
        assert((d as int) * (q as int) <= m as int);
        if (a >= 0) == (b >= 0) {
            assert(m as int == 0x8000_0000 ==> d as int >= 2);
            assert(q <= 0x7fff_ffff) by (nonlinear_arith)
                requires
                    (d as int) * (q as int) <= m as int,
                    m as int <= 0x8000_0000,
                    d >= 1,
                    (m as int == 0x8000_0000 ==> d as int >= 2),
            ;
        } else {
            assert(q as int <= 0x8000_0000) by (nonlinear_arith)
                requires
                    (d as int) * (q as int) <= m as int,
                    m as int <= 0x8000_0000,
                    d >= 1,
            ;
        }
    }
    if (a >= 0) == (b >= 0) {
        q as i32
    } else {
        (-(q as i64)) as i32
    }
}

} // verus!
