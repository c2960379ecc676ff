//! Positions on the grid, in the plane and in space.

use vstd::prelude::*;
use crate::units::{floor_sqrt, is_floor_sqrt};

verus! {

/// A position in a cutting plane, in grid units.
#[derive(Clone, Copy, Debug, PartialEq, Eq, Structural)]
pub struct Point2 {
    pub x: i32,
    pub y: i32,
}

/// A position in space, in grid units.
#[derive(Clone, Copy, Debug, PartialEq, Eq, Structural)]
pub struct Point3 {
    pub x: i32,
    pub y: i32,
    pub z: i32,
}

/// A displacement in space, in grid units. Wide enough to hold the
/// difference of any two positions.
#[derive(Clone, Copy, Debug, PartialEq, Eq, Structural)]
pub struct Vector3 {
    pub x: i64,
    pub y: i64,
    pub z: i64,
}

/// The bound `2^64` on the square of any coordinate difference.
pub proof fn lemma_square_of_difference_bounded(a: i32, b: i32)
    ensures
        0 <= (a - b) * (a - b) <= 0xffff_ffff * 0xffff_ffff,
{
    let d = a - b;
    assert(0 <= d * d <= 0xffff_ffff * 0xffff_ffff) by (nonlinear_arith)
        requires
            -0xffff_ffff <= d <= 0xffff_ffff,
    ;
}

impl Point2 {
    pub fn new(x: i32, y: i32) -> (p: Point2)
        ensures
            p == (Point2 { x, y }),
    {
        Point2 { x, y }
    }

    /// The point all coordinates are measured from.
    pub fn origin() -> (p: Point2)
        ensures
            p == (Point2 { x: 0, y: 0 }),
    {
        Point2 { x: 0, y: 0 }
    }

    /// The square of the straight-line distance between two points.
    pub open spec fn distance_squared(self, other: Point2) -> int {
        (self.x - other.x) * (self.x - other.x) + (self.y - other.y) * (self.y - other.y)
    }

    /// The two points are less than `tolerance` apart. No point is closer
    /// than zero to anything, itself included.
    pub open spec fn closer_than(self, other: Point2, tolerance: int) -> bool {
        tolerance > 0 && self.distance_squared(other) < tolerance * tolerance
    }

    /// The two points differ by less than `tolerance` along each axis.
    pub open spec fn near_on_axes(self, other: Point2, tolerance: int) -> bool {
        -tolerance < self.x - other.x < tolerance && -tolerance < self.y - other.y < tolerance
    }

    /// The exact square of the distance to `other`.
    pub fn squared_distance_to(&self, other: &Point2) -> (d: i128)
        ensures
            d == self.distance_squared(*other),
            0 <= d <= 2 * (0xffff_ffff * 0xffff_ffff),
    {
        proof {
            lemma_square_of_difference_bounded(self.x, other.x);
            lemma_square_of_difference_bounded(self.y, other.y);
        }
        let dx: i128 = self.x as i128 - other.x as i128;
        let dy: i128 = self.y as i128 - other.y as i128;
        dx * dx + dy * dy
    }

    /// The distance to `other`, rounded down to whole grid units.
    pub fn distance_to(&self, other: &Point2) -> (d: i64)
        ensures
            is_floor_sqrt(d as int, self.distance_squared(*other)),
    {
        let squared: i128 = self.squared_distance_to(other);
        let root: u64 = floor_sqrt(squared as u128);
        assert(root < 0x2_0000_0000) by (nonlinear_arith)
            requires
                root * root <= squared,
                squared <= 2 * (0xffff_ffff * 0xffff_ffff),
        ;
        root as i64
    }

    /// Whether the two points are less than `tolerance` apart.
    pub fn is_closer_than(&self, other: &Point2, tolerance: i64) -> (b: bool)
        ensures
            b == self.closer_than(*other, tolerance as int),
    {
        if tolerance <= 0 {
            return false;
        }
        let squared: i128 = self.squared_distance_to(other);
        assert(0 < tolerance * tolerance <= 0x7fff_ffff_ffff_ffff * 0x7fff_ffff_ffff_ffff)
            by (nonlinear_arith)
            requires
                0 < tolerance <= 0x7fff_ffff_ffff_ffff,
        ;
        let limit: i128 = (tolerance as i128) * (tolerance as i128);
        squared < limit
    }

    /// Whether the two points differ by less than `tolerance` along each
    /// axis.
    pub fn is_near_on_axes(&self, other: &Point2, tolerance: i64) -> (b: bool)
        ensures
            b == self.near_on_axes(*other, tolerance as int),
    {
        let dx: i128 = self.x as i128 - other.x as i128;
        let dy: i128 = self.y as i128 - other.y as i128;
        let t: i128 = tolerance as i128;
        -t < dx && dx < t && -t < dy && dy < t
    }
}

impl Point3 {
    pub fn new(x: i32, y: i32, z: i32) -> (p: Point3)
        ensures
            p == (Point3 { x, y, z }),
    {
        Point3 { x, y, z }
    }

    /// The point all coordinates are measured from.
    pub fn origin() -> (p: Point3)
        ensures
            p == (Point3 { x: 0, y: 0, z: 0 }),
    {
        Point3 { x: 0, y: 0, z: 0 }
    }

    /// The point seen from above: its height forgotten.
    pub open spec fn footprint(self) -> Point2 {
        Point2 { x: self.x, y: self.y }
    }

    /// The point seen from above.
    pub fn xy(&self) -> (p: Point2)
        ensures
            p == self.footprint(),
    {
        Point2 { x: self.x, y: self.y }
    }
}

impl Vector3 {
    pub fn new(x: i64, y: i64, z: i64) -> (v: Vector3)
        ensures
            v == (Vector3 { x, y, z }),
    {
        Vector3 { x, y, z }
    }
}

} // verus!
