//! Geometric primitives and rasterizers: points, rectangles, distance
//! metrics, and the line and circle generators used by field of view.

use vstd::prelude::*;

pub mod circle_bresenham;
pub mod line_bresenham;
pub mod line_vector;
pub mod lines;
pub mod point;
pub mod point3;
pub mod point_set;
pub mod rect;

pub use circle_bresenham::BresenhamCircle;
pub use line_bresenham::Bresenham;
pub use line_vector::VectorLine;
pub use lines::line2d;
pub use lines::line2d_bresenham;
pub use lines::line2d_vector;
pub use point::Point;
pub use point3::Point3;
pub use point_set::PointSet;
pub use rect::Rect;

verus! {

/// Enumeration of the available distance metrics.
///
/// Every metric here is integer-valued: `Pythagoras` is the floor of the
/// Euclidean distance, `PythagorasSquared` skips the square root entirely
/// (useful when only relative ordering matters), and `Manhattan` and
/// `Chebyshev` are exact.
pub enum DistanceAlg {
    Pythagoras,
    PythagorasSquared,
    Manhattan,
    Chebyshev,
}

/// Enumeration of the available line rasterization algorithms.
pub enum LineAlg {
    Bresenham,
    Vector,
}

/// Absolute difference of two coordinates, as a spec-level natural number.
pub open spec fn abs_diff_spec(a: int, b: int) -> nat {
    if a >= b {
        (a - b) as nat
    } else {
        (b - a) as nat
    }
}

/// Chebyshev (king-move) distance between two points, at the spec level.
pub open spec fn chebyshev_spec(a: (int, int), b: (int, int)) -> nat {
    let dx = abs_diff_spec(a.0, b.0);
    let dy = abs_diff_spec(a.1, b.1);
    if dx >= dy {
        dx
    } else {
        dy
    }
}

/// Chebyshev distance between two 3D points, at the spec level.
pub open spec fn chebyshev3_spec(a: (int, int, int), b: (int, int, int)) -> nat {
    let dxy = chebyshev_spec((a.0, a.1), (b.0, b.1));
    let dz = abs_diff_spec(a.2, b.2);
    if dxy >= dz {
        dxy
    } else {
        dz
    }
}

/// Absolute difference of two `i32` coordinates.
pub(crate) fn abs_diff_i32(a: i32, b: i32) -> (r: u32)
    ensures
        r == abs_diff_spec(a as int, b as int),
{
    if a >= b {
        (a as i64 - b as i64) as u32
    } else {
        (b as i64 - a as i64) as u32
    }
}

/// Squared Euclidean distance between two points, at the spec level.
pub open spec fn dist2_squared_spec(a: Point, b: Point) -> int {
    let dx = abs_diff_spec(a.x as int, b.x as int) as int;
    let dy = abs_diff_spec(a.y as int, b.y as int) as int;
    dx * dx + dy * dy
}

/// Squared Euclidean distance between two 3D points, at the spec level.
pub open spec fn dist3_squared_spec(a: Point3, b: Point3) -> int {
    let dx = abs_diff_spec(a.x as int, b.x as int) as int;
    let dy = abs_diff_spec(a.y as int, b.y as int) as int;
    let dz = abs_diff_spec(a.z as int, b.z as int) as int;
    dx * dx + dy * dy + dz * dz
}

/// Whether `r` is the floor of the square root of `n`.
pub open spec fn is_floor_sqrt(n: int, r: int) -> bool {
    r * r <= n < (r + 1) * (r + 1)
}

impl DistanceAlg {
    /// Provides a 2D distance between points, using the chosen metric.
    ///
    /// `Pythagoras` returns the floor of the Euclidean distance;
    /// `PythagorasSquared` the exact squared distance; `Manhattan` and
    /// `Chebyshev` their exact metrics.
    pub fn distance2d(self, start: Point, end: Point) -> (r: u64)
        requires
            (self matches DistanceAlg::PythagorasSquared) ==> dist2_squared_spec(start, end)
                <= u64::MAX,
        ensures
            match self {
                DistanceAlg::Pythagoras => is_floor_sqrt(dist2_squared_spec(start, end), r as int),
                DistanceAlg::PythagorasSquared => dist2_squared_spec(start, end) <= u64::MAX ==> r
                    == dist2_squared_spec(start, end),
                DistanceAlg::Manhattan => r == abs_diff_spec(start.x as int, end.x as int)
                    + abs_diff_spec(start.y as int, end.y as int),
                DistanceAlg::Chebyshev => r == chebyshev_spec(
                    (start.x as int, start.y as int),
                    (end.x as int, end.y as int),
                ),
            },
    {
        let dx = abs_diff_i32(start.x, end.x) as u64;
        let dy = abs_diff_i32(start.y, end.y) as u64;
        match self {
            DistanceAlg::Pythagoras => {
                let dsq = square_sum2(dx, dy);
                isqrt_u128(dsq)
            },
            DistanceAlg::PythagorasSquared => {
                let dsq = square_sum2(dx, dy);
                dsq as u64
            },
            DistanceAlg::Manhattan => dx + dy,
            DistanceAlg::Chebyshev => if dx >= dy {
                dx
            } else {
                dy
            },
        }
    }

    /// Provides a 3D distance between points, using the chosen metric.
    ///
    /// As in the 2D case, every metric is integer-valued and usable in 3D;
    /// `Chebyshev` is the largest of the three axis distances.
    pub fn distance3d(self, start: Point3, end: Point3) -> (r: u64)
        requires
            (self matches DistanceAlg::PythagorasSquared) ==> dist3_squared_spec(start, end)
                <= u64::MAX,
        ensures
            match self {
                DistanceAlg::Pythagoras => is_floor_sqrt(dist3_squared_spec(start, end), r as int),
                DistanceAlg::PythagorasSquared => dist3_squared_spec(start, end) <= u64::MAX ==> r
                    == dist3_squared_spec(start, end),
                DistanceAlg::Manhattan => r == abs_diff_spec(start.x as int, end.x as int)
                    + abs_diff_spec(start.y as int, end.y as int) + abs_diff_spec(
                    start.z as int,
                    end.z as int,
                ),
                DistanceAlg::Chebyshev => r == chebyshev3_spec(
                    (start.x as int, start.y as int, start.z as int),
                    (end.x as int, end.y as int, end.z as int),
                ),
            },
    {
        let dx = abs_diff_i32(start.x, end.x) as u64;
        let dy = abs_diff_i32(start.y, end.y) as u64;
        let dz = abs_diff_i32(start.z, end.z) as u64;
        match self {
            DistanceAlg::Pythagoras => isqrt_u128(square_sum3(dx, dy, dz)),
            DistanceAlg::PythagorasSquared => {
                let dsq = square_sum3(dx, dy, dz);
                dsq as u64
            },
            DistanceAlg::Manhattan => dx + dy + dz,
            DistanceAlg::Chebyshev => {
                let dxy = if dx >= dy {
                    dx
                } else {
                    dy
                };
                if dxy >= dz {
                    dxy
                } else {
                    dz
                }
            },
        }
    }
}

/// Sum of the squares of two coordinate differences, exactly.
fn square_sum2(dx: u64, dy: u64) -> (r: u128)
    requires
        dx < 0x1_0000_0000,
        dy < 0x1_0000_0000,
    ensures
        r == dx * dx + dy * dy,
        r < 0x4_0000_0000_0000_0000,
{
    proof {
        assert((dx as u128) * (dx as u128) + (dy as u128) * (dy as u128)
            < 0x4_0000_0000_0000_0000) by (nonlinear_arith)
            requires
                0 <= (dx as u128) < 0x1_0000_0000,
                0 <= (dy as u128) < 0x1_0000_0000,
        ;
    }
    (dx as u128) * (dx as u128) + (dy as u128) * (dy as u128)
}

/// Sum of the squares of three coordinate differences, exactly.
fn square_sum3(dx: u64, dy: u64, dz: u64) -> (r: u128)
    requires
        dx < 0x1_0000_0000,
        dy < 0x1_0000_0000,
        dz < 0x1_0000_0000,
    ensures
        r == dx * dx + dy * dy + dz * dz,
        r < 0x4_0000_0000_0000_0000,
{
    proof {
        assert((dx as u128) * (dx as u128) + (dy as u128) * (dy as u128) + (dz as u128) * (dz
            as u128) < 0x4_0000_0000_0000_0000) by (nonlinear_arith)
            requires
                0 <= (dx as u128) < 0x1_0000_0000,
                0 <= (dy as u128) < 0x1_0000_0000,
                0 <= (dz as u128) < 0x1_0000_0000,
        ;
    }
    (dx as u128) * (dx as u128) + (dy as u128) * (dy as u128) + (dz as u128) * (dz as u128)
}

/// Floor of the square root of `n`, by bisection.
fn isqrt_u128(n: u128) -> (r: u64)
    requires
        n < 0x4_0000_0000_0000_0000,
    ensures
        is_floor_sqrt(n as int, r as int),
{
    let mut lo: u64 = 0;
    let mut hi: u64 = 0x2_0000_0000;
    proof {
        assert((hi as int) * (hi as int) == 0x4_0000_0000_0000_0000) by (nonlinear_arith)
            requires
                hi == 0x2_0000_0000,
        ;
    }
    while lo + 1 < hi
        invariant
            lo < hi <= 0x2_0000_0000,
            (lo as int) * (lo as int) <= n as int,
            (n as int) < (hi as int) * (hi as int),
        decreases hi - lo,
    {
        let mid = lo + (hi - lo) / 2;
        proof {
            assert((mid as u128) * (mid as u128) < 0x1_0000_0000_0000_0000_0000)
                by (nonlinear_arith)
                requires
                    0 <= (mid as u128) <= 0x2_0000_0000,
            ;
        }
        if (mid as u128) * (mid as u128) <= n {
            lo = mid;
        } else {
            hi = mid;
        }
    }
    proof {
        assert(((lo + 1) as int) * ((lo + 1) as int) >= (hi as int) * (hi as int))
            by (nonlinear_arith)
            requires
                lo + 1 >= hi,
                hi >= 1,
        ;
    }
    lo
}

} // verus!
