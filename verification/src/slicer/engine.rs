//! The slicer itself: a mesh, two thicknesses, and the layers they give.

use vstd::prelude::*;
use crate::units::floor_div;
use crate::config::PrintProfile;
use crate::error::SlicerError;
use crate::geometry::bounds::BoundingBox;
use crate::geometry::mesh::{Mesh, MeshView};
use crate::geometry::point::Point2;
use crate::geometry::polygon::Polygon;
use crate::geometry::segment::LineSegment2D;
use crate::slicer::contour::{assemble, build_contours};
use crate::slicer::contour_proofs::{all_apart, edges_of, lemma_edges_chain_back};
use crate::slicer::island::{classify, classify_loops, Island, IslandView};
use crate::slicer::island_proofs::lemma_single_loop_is_one_island;
use crate::slicer::layer::{layers_of, Layer, LayerView};
use crate::slicer::schedule::{
    count_layers, layer_middle, layer_top, layer_total, lemma_layer_middle_increases,
    lemma_layer_top_increases,
    lemma_layers_cover_extent, lemma_middle_within_layer, middle_of_layer, top_of_layer,
};

verus! {

/// What a slicer holds, as plain mathematics.
pub struct SlicerView {
    pub mesh: MeshView,
    pub layer_height: int,
    pub first_layer_height: int,
}

/// A mesh together with the thickness of its first layer and of every
/// other layer, both in grid units and both positive.
#[derive(Debug)]
pub struct Slicer {
    mesh: Mesh,
    layer_height: i32,
    first_layer_height: i32,
}

impl SlicerView {
    /// The mesh is well formed and both thicknesses are positive.
    pub open spec fn wf(self) -> bool {
        self.mesh.wf() && self.layer_height > 0 && self.first_layer_height > 0
    }

    /// The height of the mesh.
    pub open spec fn extent(self) -> int {
        self.mesh.bounds.max.z - self.mesh.bounds.min.z
    }

    /// How many layers the mesh is cut into.
    pub open spec fn layer_total(self) -> int {
        layer_total(self.extent(), self.layer_height, self.first_layer_height)
    }

    /// The height of the top of layer `k`: where the layer ends and the
    /// next begins. No layer carries it; it is for whoever has to know
    /// how thick the material lies.
    pub open spec fn layer_z(self, k: int) -> int {
        self.mesh.bounds.min.z + layer_top(self.layer_height, self.first_layer_height, k)
    }

    /// The height of the plane that cuts layer `k`.
    pub open spec fn sample_z(self, k: int) -> int {
        self.mesh.bounds.min.z + layer_middle(self.layer_height, self.first_layer_height, k)
    }

    /// Layer `k`: the height at which it is cut, and the mesh cut at
    /// that height, the cuts chained into loops, and the loops sorted
    /// into islands.
    pub open spec fn layer(self, k: int) -> LayerView {
        LayerView {
            z_height: self.sample_z(k),
            layer_index: k as nat,
            islands: classify_loops(assemble(self.mesh.cut(self.sample_z(k)))),
        }
    }

    /// All layers, from the bottom up.
    pub open spec fn layers(self) -> Seq<LayerView> {
        Seq::new(self.layer_total() as nat, |k: int| self.layer(k))
    }
}

impl View for Slicer {
    type V = SlicerView;

    closed spec fn view(&self) -> SlicerView {
        SlicerView {
            mesh: self.mesh@,
            layer_height: self.layer_height as int,
            first_layer_height: self.first_layer_height as int,
        }
    }
}

impl Slicer {
    #[verifier::type_invariant]
    spec fn well_formed(&self) -> bool {
        self.layer_height > 0 && self.first_layer_height > 0
    }

    /// Takes a mesh and the two thicknesses. Fails where a thickness is
    /// not positive, before anything is cut.
    pub fn new(mesh: Mesh, layer_height: i32, first_layer_height: i32) -> (r: Result<
        Slicer,
        SlicerError,
    >)
        ensures
            r is Ok <==> layer_height > 0 && first_layer_height > 0,
            r matches Ok(slicer) ==> slicer@ == (SlicerView {
                mesh: mesh@,
                layer_height: layer_height as int,
                first_layer_height: first_layer_height as int,
            }) && slicer@.wf(),
            r matches Err(e) ==> e is InvalidParameter && e.message() == (if layer_height <= 0 {
                "Layer height must be positive"@
            } else {
                "First layer height must be positive"@
            }),
    {
        if layer_height <= 0 {
            return Err(SlicerError::InvalidParameter("Layer height must be positive".to_string()));
        }
        if first_layer_height <= 0 {
            return Err(
                SlicerError::InvalidParameter("First layer height must be positive".to_string()),
            );
        }
        // Asking a mesh for its box also says that the mesh is well formed.
        let _: BoundingBox = mesh.bounds();
        Ok(Slicer { mesh, layer_height, first_layer_height })
    }

    /// Takes a mesh and reads the two thicknesses from a print profile.
    pub fn from_profile(mesh: Mesh, profile: &PrintProfile) -> (r: Result<Slicer, SlicerError>)
        ensures
            r is Ok <==> profile.layer_height() > 0 && profile.first_layer_height() > 0,
            r matches Ok(slicer) ==> slicer@ == (SlicerView {
                mesh: mesh@,
                layer_height: profile.layer_height(),
                first_layer_height: profile.first_layer_height(),
            }) && slicer@.wf(),
            r matches Err(e) ==> e is InvalidParameter && e.message() == (
            if profile.layer_height() <= 0 {
                "Layer height must be positive"@
            } else {
                "First layer height must be positive"@
            }),
    {
        Slicer::new(mesh, profile.get_layer_height(), profile.get_first_layer_height())
    }

    /// The mesh that is cut.
    pub fn mesh(&self) -> (m: &Mesh)
        ensures
            m@ == self@.mesh,
            self@.wf(),
    {
        proof {
            use_type_invariant(self);
        }
        let _: BoundingBox = self.mesh.bounds();
        &self.mesh
    }

    /// The thickness of every layer but the first.
    pub fn layer_height(&self) -> (h: i32)
        ensures
            h == self@.layer_height,
            h > 0,
    {
        proof {
            use_type_invariant(self);
        }
        self.layer_height
    }

    /// The thickness of the first layer.
    pub fn first_layer_height(&self) -> (h: i32)
        ensures
            h == self@.first_layer_height,
            h > 0,
    {
        proof {
            use_type_invariant(self);
        }
        self.first_layer_height
    }

    /// How many layers the mesh is cut into.
    pub fn layer_count(&self) -> (n: usize)
        ensures
            n == self@.layer_total(),
            n <= 0xffff_ffff,
            n > 0 <==> self@.extent() > 0,
    {
        proof {
            use_type_invariant(self);
        }
        let bounds = self.mesh.bounds();
        let extent: i64 = bounds.max.z as i64 - bounds.min.z as i64;
        let n: usize = count_layers(extent, self.layer_height, self.first_layer_height);
        proof {
            lemma_layer_total_bounded(self@);
        }
        n
    }

    /// The height of the top of layer `index`, where there is such a
    /// layer.
    pub fn layer_z(&self, index: usize) -> (z: Option<i64>)
        ensures
            z == if index < self@.layer_total() {
                Some(self@.layer_z(index as int) as i64)
            } else {
                None
            },
            index < self@.layer_total() ==> i64::MIN <= self@.layer_z(index as int) <= i64::MAX,
    {
        proof {
            use_type_invariant(self);
        }
        if index >= self.layer_count() {
            return None;
        }
        let bounds = self.mesh.bounds();
        let top: i64 = top_of_layer(self.layer_height, self.first_layer_height, index);
        proof {
            lemma_heights_bounded(self@, index as int);
        }
        Some(bounds.min.z as i64 + top)
    }

    /// The height of the plane that cuts layer `index`, where there is
    /// such a layer.
    pub fn sample_z(&self, index: usize) -> (z: Option<i64>)
        ensures
            z == if index < self@.layer_total() {
                Some(self@.sample_z(index as int) as i64)
            } else {
                None
            },
            index < self@.layer_total() ==> i64::MIN <= self@.sample_z(index as int) <= i64::MAX,
    {
        proof {
            use_type_invariant(self);
        }
        if index >= self.layer_count() {
            return None;
        }
        let bounds = self.mesh.bounds();
        let middle: i64 = middle_of_layer(self.layer_height, self.first_layer_height, index);
        proof {
            lemma_heights_bounded(self@, index as int);
        }
        Some(bounds.min.z as i64 + middle)
    }

    /// Cuts layer `index`.
    fn cut_layer(&self, index: usize) -> (layer: Layer)
        requires
            index < self@.layer_total(),
        ensures
            layer@ == self@.layer(index as int),
    {
        proof {
            use_type_invariant(self);
            lemma_layer_total_bounded(self@);
            lemma_heights_bounded(self@, index as int);
        }
        let bounds = self.mesh.bounds();
        let middle: i64 = bounds.min.z as i64 + middle_of_layer(
            self.layer_height,
            self.first_layer_height,
            index,
        );
        let segments: Vec<LineSegment2D> = self.mesh.intersect(middle);
        let polygons: Vec<Polygon> = build_contours(&segments);
        let islands: Vec<Island> = classify(&polygons);
        Layer { z_height: middle, layer_index: index, islands }
    }

    /// Cuts layer `index`, where there is such a layer. The layers do
    /// not depend on one another: they may be cut in any order, or at
    /// the same time.
    pub fn slice_layer(&self, index: usize) -> (r: Option<Layer>)
        ensures
            r is Some <==> index < self@.layer_total(),
            r matches Some(layer) ==> layer@ == self@.layer(index as int),
    {
        if index < self.layer_count() {
            Some(self.cut_layer(index))
        } else {
            None
        }
    }

    /// Cuts the mesh into its layers, from the bottom up. Fails where
    /// the mesh has no height.
    pub fn slice(&self) -> (r: Result<Vec<Layer>, SlicerError>)
        ensures
            r is Ok <==> self@.extent() > 0,
            r matches Ok(layers) ==> {
                &&& layers_of(layers@) == self@.layers()
                &&& layers@.len() == self@.layer_total()
                &&& layers@.len() >= 1
                &&& forall|k: int|
                    0 <= k < layers@.len() ==> (#[trigger] layers@[k])@ == self@.layer(k)
            },
            r matches Err(e) ==> e is SlicingError && e.message() == "Model has no height"@,
    {
        let n: usize = self.layer_count();
        if n == 0 {
            return Err(SlicerError::SlicingError("Model has no height".to_string()));
        }
        let mut layers: Vec<Layer> = Vec::new();
        let mut k: usize = 0;
        while k < n
            invariant
                n == self@.layer_total(),
                0 <= k <= n,
                layers@.len() == k,
                forall|i: int| 0 <= i < k ==> (#[trigger] layers@[i])@ == self@.layer(i),
            decreases n - k,
        {
            let layer: Layer = self.cut_layer(k);
            layers.push(layer);
            k = k + 1;
        }
        assert(layers_of(layers@) =~= self@.layers());
        Ok(layers)
    }
}

/// Cuts `mesh` into layers of the given thicknesses, from the bottom up.
/// A thickness that is not positive is refused before anything else is
/// looked at; a mesh without height is refused next.
pub fn slice_mesh(mesh: Mesh, layer_height: i32, first_layer_height: i32) -> (r: Result<
    Vec<Layer>,
    SlicerError,
>)
    ensures
        r is Ok <==> layer_height > 0 && first_layer_height > 0 && mesh@.bounds.max.z
            > mesh@.bounds.min.z,
        r matches Ok(layers) ==> layers_of(layers@) == (SlicerView {
            mesh: mesh@,
            layer_height: layer_height as int,
            first_layer_height: first_layer_height as int,
        }).layers(),
        r matches Err(e) ==> if layer_height <= 0 || first_layer_height <= 0 {
            e is InvalidParameter
        } else {
            e is SlicingError
        },
{
    match Slicer::new(mesh, layer_height, first_layer_height) {
        Ok(slicer) => slicer.slice(),
        Err(e) => Err(e),
    }
}

/// No mesh on the grid is cut into more layers than fit in 32 bits.
pub proof fn lemma_layer_total_bounded(s: SlicerView)
    requires
        s.layer_height > 0,
        s.first_layer_height > 0,
    ensures
        0 <= s.layer_total() <= 0xffff_ffff,
        s.layer_total() > 0 <==> s.extent() > 0,
{
    let extent = s.extent();
    if extent > 0 {
        lemma_layers_cover_extent(extent, s.layer_height, s.first_layer_height);
        let n = s.layer_total();
        if n >= 2 {
            assert((n - 2) * s.layer_height >= n - 2) by (nonlinear_arith)
                requires
                    n - 2 >= 0,
                    s.layer_height >= 1,
            ;
        }
    }
}

/// The top and the middle of every layer lie within one layer thickness
/// of the mesh.
pub proof fn lemma_heights_bounded(s: SlicerView, k: int)
    requires
        s.layer_height > 0,
        s.first_layer_height > 0,
        0 <= k < s.layer_total(),
    ensures
        s.mesh.bounds.min.z <= s.sample_z(k) < s.layer_z(k),
        s.layer_z(k) < s.mesh.bounds.max.z + s.layer_height + s.first_layer_height,
{
    let extent = s.extent();
    let n = s.layer_total();
    lemma_layers_cover_extent(extent, s.layer_height, s.first_layer_height);
    lemma_middle_within_layer(s.layer_height, s.first_layer_height, k);
    if k >= 1 {
        lemma_middle_within_layer(s.layer_height, s.first_layer_height, k - 1);
        if k <= n - 2 {
            if k < n - 2 {
                lemma_layer_top_increases(s.layer_height, s.first_layer_height, k, n - 2);
            }
        }
        assert(k * s.layer_height == (k - 1) * s.layer_height + s.layer_height)
            by (nonlinear_arith);
        if k - 1 < n - 2 {
            lemma_layer_top_increases(s.layer_height, s.first_layer_height, k - 1, n - 2);
        }
    } else {
        assert(0 * s.layer_height == 0) by (nonlinear_arith);
    }
}

/// The layers are numbered from zero without gaps, and each is cut
/// higher than the one before.
pub proof fn lemma_layers_are_ordered(s: SlicerView, i: int, j: int)
    requires
        s.wf(),
        0 <= i < j < s.layer_total(),
    ensures
        s.layers().len() == s.layer_total(),
        s.layers()[i].layer_index == i,
        s.layers()[j].layer_index == j,
        s.layers()[i].z_height < s.layers()[j].z_height,
{
    lemma_layer_middle_increases(s.layer_height, s.first_layer_height, i, j);
}

/// Every layer carries the height at which it was cut: half the first
/// thickness over the bottom of the mesh for the first layer, and for
/// every other the first thickness and `k - 1/2` further ones.
pub proof fn lemma_layers_carry_their_cutting_height(s: SlicerView, k: int)
    requires
        s.wf(),
        0 <= k < s.layer_total(),
    ensures
        s.layers()[k].z_height == s.sample_z(k),
        k == 0 ==> s.layers()[k].z_height == s.mesh.bounds.min.z + floor_div(
            s.first_layer_height,
            2,
        ),
        k >= 1 ==> s.layers()[k].z_height == s.mesh.bounds.min.z + s.first_layer_height
            + floor_div((2 * k - 1) * s.layer_height, 2),
        s.layers()[k].islands == classify_loops(
            assemble(s.mesh.cut(s.layers()[k].z_height)),
        ),
{
}

/// Every layer is cut by a plane between its bottom and its top, and
/// the first layer rests on the bottom of the mesh.
pub proof fn lemma_layers_are_cut_inside(s: SlicerView, k: int)
    requires
        s.wf(),
        0 <= k < s.layer_total(),
    ensures
        s.sample_z(k) < s.layer_z(k),
        k == 0 ==> s.mesh.bounds.min.z <= s.sample_z(k),
        k >= 1 ==> s.layer_z(k - 1) <= s.sample_z(k),
{
    lemma_middle_within_layer(s.layer_height, s.first_layer_height, k);
}

/// The top of the last layer is at or above the top of the mesh, and the
/// top of the layer before it is below.
pub proof fn lemma_layers_reach_the_top(s: SlicerView)
    requires
        s.wf(),
        s.extent() > 0,
    ensures
        s.layer_total() >= 1,
        s.layer_z(s.layer_total() - 1) >= s.mesh.bounds.max.z,
        s.layer_total() >= 2 ==> s.layer_z(s.layer_total() - 2) < s.mesh.bounds.max.z,
{
    lemma_layers_cover_extent(s.extent(), s.layer_height, s.first_layer_height);
}

/// A mesh without triangles is still cut into its full number of
/// layers, and every one of them is empty.
pub proof fn lemma_no_triangles_no_islands(s: SlicerView)
    requires
        s.wf(),
        s.mesh.triangles.len() == 0,
    ensures
        s.layers().len() == s.layer_total(),
        s.extent() > 0 ==> s.layer_total() >= 1,
        forall|k: int| 0 <= k < s.layer_total() ==> (#[trigger] s.layers()[k]).islands.len() == 0,
{
    lemma_layer_total_bounded(s);
    assert forall|k: int| 0 <= k < s.layer_total() implies (#[trigger] s.layers()[k]).islands.len()
        == 0 by {
        assert(s.mesh.cut(s.sample_z(k)).len() == 0);
        assert(assemble(s.mesh.cut(s.sample_z(k))).len() == 0);
    }
}

/// Where the cuts of a layer are the edges of one loop, in order, and
/// the corners of the loop are all apart, the layer holds one island:
/// that loop, without holes.
pub proof fn lemma_one_loop_one_island(s: SlicerView, k: int, points: Seq<Point2>)
    requires
        points.len() >= 3,
        all_apart(points),
        s.mesh.cut(s.sample_z(k)) == edges_of(points),
    ensures
        s.layer(k).islands == seq![IslandView { outline: points, holes: Seq::empty() }],
{
    lemma_edges_chain_back(points);
    lemma_single_loop_is_one_island(points);
}

/// The same vertices, triangles and thicknesses always give the same
/// layers: nothing else enters into slicing.
pub proof fn lemma_same_input_same_layers(a: SlicerView, b: SlicerView)
    requires
        a.wf(),
        b.wf(),
        a.mesh.vertices == b.mesh.vertices,
        a.mesh.triangles == b.mesh.triangles,
        a.layer_height == b.layer_height,
        a.first_layer_height == b.first_layer_height,
    ensures
        a.layers() == b.layers(),
{
    BoundingBox::lemma_bounds_unique(a.mesh.bounds, b.mesh.bounds, a.mesh.vertices);
    assert(a == b);
}

} // verus!
