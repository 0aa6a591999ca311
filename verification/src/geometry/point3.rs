//! A 3D point on the integer lattice.

use vstd::prelude::*;

verus! {

/// A 3D point in discrete space, for maps with a third axis.
#[derive(Clone, Copy, Debug, PartialEq, Eq, Structural, Hash)]
pub struct Point3 {
    /// X coordinate.
    pub x: i32,
    /// Y coordinate.
    pub y: i32,
    /// Z coordinate.
    pub z: i32,
}

impl Point3 {
    /// Creates a new point from x/y/z coordinates.
    pub fn new(x: i32, y: i32, z: i32) -> (p: Point3)
        ensures
            p == (Point3 { x, y, z }),
    {
        Point3 { x, y, z }
    }
}

} // verus!
