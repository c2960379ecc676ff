//! Triangle meshes and their cuts by horizontal planes.

use vstd::prelude::*;
use crate::error::SlicerError;
use crate::geometry::bounds::BoundingBox;
use crate::geometry::plane::{clear_of_plane, cut_triangle, triangle_section};
use crate::geometry::point::{Point3, Vector3};
use crate::geometry::segment::LineSegment2D;

verus! {

/// A triangle of a mesh: the places of its three corners in the mesh's
/// vertex list, and its outward normal. The corners are listed
/// counter-clockwise as seen from outside the solid; it is their order
/// that tells the cuts which way to run.
#[derive(Clone, Copy, Debug)]
pub struct Triangle {
    pub vertices: [usize; 3],
    pub normal: Vector3,
}

/// What a mesh holds, as plain mathematics.
pub struct MeshView {
    pub vertices: Seq<Point3>,
    pub triangles: Seq<Triangle>,
    pub bounds: BoundingBox,
}

/// A surface made of triangles over a shared list of vertices, with the
/// smallest box around its vertices. Once built it never changes.
#[derive(Debug)]
pub struct Mesh {
    vertices: Vec<Point3>,
    triangles: Vec<Triangle>,
    bounds: BoundingBox,
}

/// All three corners of `triangle` are places in `vertices`.
pub open spec fn indexes(triangle: Triangle, vertices: Seq<Point3>) -> bool {
    &&& triangle.vertices[0] < vertices.len()
    &&& triangle.vertices[1] < vertices.len()
    &&& triangle.vertices[2] < vertices.len()
}

/// Every triangle of `triangles` has its corners in `vertices`.
pub open spec fn all_indexed(triangles: Seq<Triangle>, vertices: Seq<Point3>) -> bool {
    forall|i: int| 0 <= i < triangles.len() ==> indexes(#[trigger] triangles[i], vertices)
}

/// Corner `k` of `triangle`, looked up in `vertices`.
pub open spec fn corner(vertices: Seq<Point3>, triangle: Triangle, k: int) -> Point3 {
    vertices[triangle.vertices[k] as int]
}

/// Two corners of `triangle` are the same position.
pub open spec fn is_degenerate(vertices: Seq<Point3>, triangle: Triangle) -> bool {
    ||| corner(vertices, triangle, 0) == corner(vertices, triangle, 1)
    ||| corner(vertices, triangle, 1) == corner(vertices, triangle, 2)
    ||| corner(vertices, triangle, 2) == corner(vertices, triangle, 0)
}

/// The segment that `triangle` leaves in the plane at height `z`.
pub open spec fn section_of(vertices: Seq<Point3>, triangle: Triangle, z: int) -> Option<
    LineSegment2D,
> {
    triangle_section(
        corner(vertices, triangle, 0),
        corner(vertices, triangle, 1),
        corner(vertices, triangle, 2),
        z,
    )
}

/// The segments that `triangles` leave in the plane at height `z`, in the
/// order of the triangles; a triangle that leaves none is passed over.
pub open spec fn sections(vertices: Seq<Point3>, triangles: Seq<Triangle>, z: int) -> Seq<
    LineSegment2D,
>
    decreases triangles.len(),
{
    if triangles.len() == 0 {
        Seq::empty()
    } else {
        let before = sections(vertices, triangles.drop_last(), z);
        match section_of(vertices, triangles.last(), z) {
            Some(segment) => before.push(segment),
            None => before,
        }
    }
}

impl MeshView {
    /// Every triangle refers to vertices that exist, and the box is the
    /// smallest one around the vertices.
    pub open spec fn wf(self) -> bool {
        all_indexed(self.triangles, self.vertices) && self.bounds.is_bounds_of(self.vertices)
    }

    /// Everything the mesh leaves in the plane at height `z`.
    pub open spec fn cut(self, z: int) -> Seq<LineSegment2D> {
        sections(self.vertices, self.triangles, z)
    }

    /// The mesh has a triangle, and none of its triangles is degenerate.
    pub open spec fn printable(self) -> bool {
        &&& self.triangles.len() > 0
        &&& forall|i: int|
            0 <= i < self.triangles.len() ==> !is_degenerate(
                self.vertices,
                #[trigger] self.triangles[i],
            )
    }
}

/// Triangles that are all clear of a plane leave nothing in it.
pub proof fn lemma_clear_triangles_leave_nothing(
    vertices: Seq<Point3>,
    triangles: Seq<Triangle>,
    z: int,
)
    requires
        forall|i: int|
            0 <= i < triangles.len() ==> clear_of_plane(
                corner(vertices, #[trigger] triangles[i], 0),
                corner(vertices, triangles[i], 1),
                corner(vertices, triangles[i], 2),
                z,
            ),
    ensures
        sections(vertices, triangles, z).len() == 0,
    decreases triangles.len(),
{
    if triangles.len() > 0 {
        let front = triangles.drop_last();
        assert forall|i: int| 0 <= i < front.len() implies clear_of_plane(
            corner(vertices, #[trigger] front[i], 0),
            corner(vertices, front[i], 1),
            corner(vertices, front[i], 2),
            z,
        ) by {
            assert(front[i] == triangles[i]);
        }
        lemma_clear_triangles_leave_nothing(vertices, front, z);
        assert(triangles.last() == triangles[triangles.len() - 1]);
    }
}

/// A plane holds at most one segment for each triangle.
pub proof fn lemma_sections_at_most_one_each(
    vertices: Seq<Point3>,
    triangles: Seq<Triangle>,
    z: int,
)
    ensures
        sections(vertices, triangles, z).len() <= triangles.len(),
    decreases triangles.len(),
{
    if triangles.len() > 0 {
        lemma_sections_at_most_one_each(vertices, triangles.drop_last(), z);
    }
}

impl View for Mesh {
    type V = MeshView;

    closed spec fn view(&self) -> MeshView {
        MeshView { vertices: self.vertices@, triangles: self.triangles@, bounds: self.bounds }
    }
}

impl Mesh {
    #[verifier::type_invariant]
    spec fn well_formed(&self) -> bool {
        self@.wf()
    }

    /// Builds a mesh and the box around it. Fails where a triangle refers
    /// to a vertex that is not there.
    pub fn new(vertices: Vec<Point3>, triangles: Vec<Triangle>) -> (r: Result<Mesh, SlicerError>)
        ensures
            r is Ok <==> all_indexed(triangles@, vertices@),
            r matches Ok(mesh) ==> {
                &&& mesh@.vertices == vertices@
                &&& mesh@.triangles == triangles@
                &&& mesh@.wf()
            },
            r matches Err(e) ==> e is InvalidGeometry && e.message()
                == "Triangle refers to a vertex that does not exist"@,
    {
        let n: usize = vertices.len();
        let mut i: usize = 0;
        while i < triangles.len()
            invariant
                n == vertices.len(),
                0 <= i <= triangles.len(),
                all_indexed(triangles@.take(i as int), vertices@),
            decreases triangles.len() - i,
        {
            let t: &Triangle = &triangles[i];
            if t.vertices[0] >= n || t.vertices[1] >= n || t.vertices[2] >= n {
                return Err(
                    SlicerError::InvalidGeometry(
                        "Triangle refers to a vertex that does not exist".to_string(),
                    ),
                );
            }
            proof {
                let seen = triangles@.take(i as int);
                let next = triangles@.take(i as int + 1);
                assert forall|j: int| 0 <= j < next.len() implies indexes(
                    #[trigger] next[j],
                    vertices@,
                ) by {
                    if j < i {
                        assert(next[j] == seen[j]);
                    }
                }
            }
            i = i + 1;
        }
        assert(triangles@.take(i as int) =~= triangles@);
        let bounds: BoundingBox = BoundingBox::from_vertices(vertices.as_slice());
        Ok(Mesh { vertices, triangles, bounds })
    }

    /// The vertices of the mesh.
    pub fn vertices(&self) -> (v: &Vec<Point3>)
        ensures
            v@ == self@.vertices,
            self@.wf(),
    {
        proof {
            use_type_invariant(self);
        }
        &self.vertices
    }

    /// The triangles of the mesh.
    pub fn triangles(&self) -> (t: &Vec<Triangle>)
        ensures
            t@ == self@.triangles,
            self@.wf(),
    {
        proof {
            use_type_invariant(self);
        }
        &self.triangles
    }

    /// The smallest box around the vertices of the mesh.
    pub fn bounds(&self) -> (b: BoundingBox)
        ensures
            b == self@.bounds,
            self@.wf(),
    {
        proof {
            use_type_invariant(self);
        }
        self.bounds
    }

    /// The positions of the three corners of `triangle`.
    pub fn get_triangle_vertices(&self, triangle: &Triangle) -> (c: [Point3; 3])
        requires
            indexes(*triangle, self@.vertices),
        ensures
            c[0] == corner(self@.vertices, *triangle, 0),
            c[1] == corner(self@.vertices, *triangle, 1),
            c[2] == corner(self@.vertices, *triangle, 2),
    {
        [
            self.vertices[triangle.vertices[0]],
            self.vertices[triangle.vertices[1]],
            self.vertices[triangle.vertices[2]],
        ]
    }

    /// Cuts `triangle` with the horizontal plane at height `z`.
    pub fn intersect_triangle_with_plane(&self, triangle: &Triangle, z: i64) -> (s: Option<
        LineSegment2D,
    >)
        requires
            indexes(*triangle, self@.vertices),
        ensures
            s == section_of(self@.vertices, *triangle, z as int),
    {
        let c: [Point3; 3] = self.get_triangle_vertices(triangle);
        cut_triangle(&c[0], &c[1], &c[2], z)
    }

    /// Cuts the whole mesh with the horizontal plane at height `z`.
    pub fn intersect(&self, z: i64) -> (segments: Vec<LineSegment2D>)
        ensures
            segments@ == self@.cut(z as int),
    {
        proof {
            use_type_invariant(self);
        }
        let mut segments: Vec<LineSegment2D> = Vec::new();
        let mut i: usize = 0;
        while i < self.triangles.len()
            invariant
                0 <= i <= self.triangles.len(),
                self@.wf(),
                segments@ == sections(self@.vertices, self@.triangles.take(i as int), z as int),
            decreases self.triangles.len() - i,
        {
            let t: &Triangle = &self.triangles[i];
            assert(self@.triangles.take(i as int + 1).drop_last() =~= self@.triangles.take(
                i as int,
            ));
            assert(self@.triangles.take(i as int + 1).last() == *t);
            match self.intersect_triangle_with_plane(t, z) {
                Some(segment) => {
                    segments.push(segment);
                },
                None => {},
            }
            i = i + 1;
        }
        assert(self@.triangles.take(i as int) =~= self@.triangles);
        segments
    }

    /// How many triangles the mesh has.
    pub fn triangle_count(&self) -> (n: usize)
        ensures
            n == self@.triangles.len(),
    {
        self.triangles.len()
    }

    /// How many vertices the mesh has.
    pub fn vertex_count(&self) -> (n: usize)
        ensures
            n == self@.vertices.len(),
    {
        self.vertices.len()
    }

    /// Checks that the mesh can be printed: that it has a triangle, and
    /// that no triangle has two corners in one place.
    pub fn validate(&self) -> (r: Result<(), SlicerError>)
        ensures
            r is Ok <==> self@.printable(),
            r matches Err(e) ==> e is InvalidGeometry && e.message() == (if self@.triangles.len()
                == 0 {
                "Mesh has no triangles"@
            } else {
                "Mesh has a degenerate triangle"@
            }),
    {
        proof {
            use_type_invariant(self);
        }
        if self.triangles.len() == 0 {
            return Err(SlicerError::InvalidGeometry("Mesh has no triangles".to_string()));
        }
        let mut i: usize = 0;
        while i < self.triangles.len()
            invariant
                0 <= i <= self.triangles.len(),
                self@.wf(),
                forall|j: int|
                    0 <= j < i ==> !is_degenerate(self@.vertices, #[trigger] self@.triangles[j]),
            decreases self.triangles.len() - i,
        {
            let t: &Triangle = &self.triangles[i];
            let c: [Point3; 3] = self.get_triangle_vertices(t);
            if c[0] == c[1] || c[1] == c[2] || c[2] == c[0] {
                return Err(
                    SlicerError::InvalidGeometry("Mesh has a degenerate triangle".to_string()),
                );
            }
            i = i + 1;
        }
        Ok(())
    }
}

impl Clone for Mesh {
    fn clone(&self) -> (m: Mesh)
        ensures
            m@ == self@,
    {
        proof {
            use_type_invariant(self);
        }
        Mesh {
            vertices: self.vertices.clone(),
            triangles: self.triangles.clone(),
            bounds: self.bounds,
        }
    }
}

} // verus!
