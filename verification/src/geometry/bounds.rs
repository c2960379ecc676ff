//! Axis-aligned boxes around sets of points.

use vstd::prelude::*;
use crate::geometry::point::{Point3, Vector3};
use crate::units::floor_div;

verus! {

/// An axis-aligned box, given by its lowest and its highest corner.
#[derive(Clone, Copy, Debug, PartialEq, Eq, Structural)]
pub struct BoundingBox {
    pub min: Point3,
    pub max: Point3,
}

impl BoundingBox {
    /// Every point of `vertices` lies inside the box.
    pub open spec fn encloses(self, vertices: Seq<Point3>) -> bool {
        forall|i: int|
            0 <= i < vertices.len() ==> {
                &&& self.min.x <= (#[trigger] vertices[i]).x <= self.max.x
                &&& self.min.y <= vertices[i].y <= self.max.y
                &&& self.min.z <= vertices[i].z <= self.max.z
            }
    }

    /// Each face of the box touches a point of `vertices`.
    pub open spec fn touches(self, vertices: Seq<Point3>) -> bool {
        &&& exists|i: int| 0 <= i < vertices.len() && (#[trigger] vertices[i]).x == self.min.x
        &&& exists|i: int| 0 <= i < vertices.len() && (#[trigger] vertices[i]).y == self.min.y
        &&& exists|i: int| 0 <= i < vertices.len() && (#[trigger] vertices[i]).z == self.min.z
        &&& exists|i: int| 0 <= i < vertices.len() && (#[trigger] vertices[i]).x == self.max.x
        &&& exists|i: int| 0 <= i < vertices.len() && (#[trigger] vertices[i]).y == self.max.y
        &&& exists|i: int| 0 <= i < vertices.len() && (#[trigger] vertices[i]).z == self.max.z
    }

    /// The box is the smallest one around `vertices`: along each axis its
    /// corners are the least and the greatest coordinate that occurs.
    /// Around no points at all it is the box that holds the origin alone.
    pub open spec fn is_bounds_of(self, vertices: Seq<Point3>) -> bool {
        if vertices.len() == 0 {
            self.min == (Point3 { x: 0, y: 0, z: 0 }) && self.max == (Point3 { x: 0, y: 0, z: 0 })
        } else {
            self.encloses(vertices) && self.touches(vertices)
        }
    }

    /// The extent of the box along each axis.
    pub open spec fn extent(self) -> Vector3 {
        Vector3 {
            x: (self.max.x - self.min.x) as i64,
            y: (self.max.y - self.min.y) as i64,
            z: (self.max.z - self.min.z) as i64,
        }
    }

    /// The midpoint of the box, each coordinate rounded down.
    pub open spec fn midpoint(self) -> Point3 {
        Point3 {
            x: floor_div(self.min.x + self.max.x, 2) as i32,
            y: floor_div(self.min.y + self.max.y, 2) as i32,
            z: floor_div(self.min.z + self.max.z, 2) as i32,
        }
    }

    /// A set of points has only one smallest box.
    pub proof fn lemma_bounds_unique(a: BoundingBox, b: BoundingBox, vertices: Seq<Point3>)
        requires
            a.is_bounds_of(vertices),
            b.is_bounds_of(vertices),
        ensures
            a == b,
    {
    }

    /// The smallest box around `vertices`.
    pub fn from_vertices(vertices: &[Point3]) -> (b: BoundingBox)
        ensures
            b.is_bounds_of(vertices@),
    {
        if vertices.len() == 0 {
            return BoundingBox { min: Point3::origin(), max: Point3::origin() };
        }
        let mut min: Point3 = vertices[0];
        let mut max: Point3 = vertices[0];
        let mut i: usize = 1;
        assert(vertices@.take(1)[0] == vertices@[0]);
        while i < vertices.len()
            invariant
                1 <= i <= vertices.len(),
                (BoundingBox { min, max }).encloses(vertices@.take(i as int)),
                (BoundingBox { min, max }).touches(vertices@.take(i as int)),
            decreases vertices.len() - i,
        {
            let v: Point3 = vertices[i];
            let ghost before = BoundingBox { min, max };
            let ghost seen = vertices@.take(i as int);
            let ghost next = vertices@.take(i as int + 1);
            if v.x < min.x {
                min.x = v.x;
            }
            if v.y < min.y {
                min.y = v.y;
            }
            if v.z < min.z {
                min.z = v.z;
            }
            if v.x > max.x {
                max.x = v.x;
            }
            if v.y > max.y {
                max.y = v.y;
            }
            if v.z > max.z {
                max.z = v.z;
            }
            proof {
                let after = BoundingBox { min, max };
                assert(next[i as int] == v);
                assert forall|j: int| 0 <= j < i implies next[j] == seen[j] by {}
                assert(after.encloses(next)) by {
                    assert forall|j: int| 0 <= j < next.len() implies {
                        &&& after.min.x <= (#[trigger] next[j]).x <= after.max.x
                        &&& after.min.y <= next[j].y <= after.max.y
                        &&& after.min.z <= next[j].z <= after.max.z
                    } by {
                        if j < i {
                            assert(next[j] == seen[j]);
                        }
                    }
                }
                let wx0 = choose|j: int| 0 <= j < seen.len() && (#[trigger] seen[j]).x == before.min.x;
                let wy0 = choose|j: int| 0 <= j < seen.len() && (#[trigger] seen[j]).y == before.min.y;
                let wz0 = choose|j: int| 0 <= j < seen.len() && (#[trigger] seen[j]).z == before.min.z;
                let wx1 = choose|j: int| 0 <= j < seen.len() && (#[trigger] seen[j]).x == before.max.x;
                let wy1 = choose|j: int| 0 <= j < seen.len() && (#[trigger] seen[j]).y == before.max.y;
                let wz1 = choose|j: int| 0 <= j < seen.len() && (#[trigger] seen[j]).z == before.max.z;
                let kx0 = if v.x < before.min.x { i as int } else { wx0 };
                let ky0 = if v.y < before.min.y { i as int } else { wy0 };
                let kz0 = if v.z < before.min.z { i as int } else { wz0 };
                let kx1 = if v.x > before.max.x { i as int } else { wx1 };
                let ky1 = if v.y > before.max.y { i as int } else { wy1 };
                let kz1 = if v.z > before.max.z { i as int } else { wz1 };
                assert(next[kx0].x == after.min.x);
                assert(next[ky0].y == after.min.y);
                assert(next[kz0].z == after.min.z);
                assert(next[kx1].x == after.max.x);
                assert(next[ky1].y == after.max.y);
                assert(next[kz1].z == after.max.z);
            }
            i = i + 1;
        }
        assert(vertices@.take(i as int) =~= vertices@);
        BoundingBox { min, max }
    }

    /// The width, depth and height of the box.
    pub fn dimensions(&self) -> (d: Vector3)
        ensures
            d == self.extent(),
    {
        Vector3 {
            x: self.max.x as i64 - self.min.x as i64,
            y: self.max.y as i64 - self.min.y as i64,
            z: self.max.z as i64 - self.min.z as i64,
        }
    }

    /// The point in the middle of the box.
    pub fn center(&self) -> (c: Point3)
        ensures
            c == self.midpoint(),
    {
        Point3 {
            x: halfway(self.min.x, self.max.x),
            y: halfway(self.min.y, self.max.y),
            z: halfway(self.min.z, self.max.z),
        }
    }
}

/// The mean of two coordinates, rounded down.
pub fn halfway(a: i32, b: i32) -> (m: i32)
    ensures
        m == floor_div(a + b, 2),
{
    let sum: i64 = a as i64 + b as i64;
    if sum >= 0 {
        (sum / 2) as i32
    } else {
        let up: i64 = (1 - sum) / 2;
        (-up) as i32
    }
}

} // verus!
