//! Whole solids cut whole: what slicing gives for a cube.
//!
//! Everything else in the library is stated of any mesh. Here one
//! simple solid is followed all the way through, from its triangles to
//! its island, at every height at which a plane can meet it.

use vstd::prelude::*;
use crate::geometry::mesh::{all_indexed, corner, section_of, sections, MeshView, Triangle};
use crate::geometry::bounds::BoundingBox;
use crate::geometry::plane::{
    clear_of_plane, cut_coordinate, cut_point, edge_point, flat_in_plane, lemma_edge_point_symmetric,
    lemma_section_ignores_first_corner, lemma_section_is, side, triangle_section,
};
use crate::geometry::point::{Point2, Point3, Vector3};
use crate::geometry::polygon::{
    crossings, edge_cross, enclosed_area, next_corner, ray_crosses, shoelace_sum,
    signed_area_doubled, surrounds, winds_clockwise, winds_counter_clockwise,
};
use crate::geometry::segment::LineSegment2D;
use crate::slicer::contour::assemble;
use crate::slicer::engine::SlicerView;
use crate::slicer::contour_proofs::{
    all_apart, edges_of, lemma_edges_chain_back, lemma_two_loops_chain_back,
};
use crate::slicer::island::{can_hold, classify_loops, within_extent, IslandView};
use crate::slicer::order_proofs::{are_edges_of, lemma_edges_chain_back_in_any_order};
use crate::slicer::island_proofs::{lemma_ring_is_one_island, lemma_single_loop_is_one_island};
use crate::units::{floor_div, lemma_floor_div_unique, EPSILON};

verus! {

/// An edge that stands upright is cut where it stands.
pub proof fn lemma_upright_edge(va: Point3, vb: Point3, z: int)
    requires
        va.footprint() == vb.footprint(),
        va.z != vb.z,
    ensures
        edge_point(va, vb, z) == va.footprint(),
{
    let (da, db) = (va.z - z, vb.z - z);
    assert(da * (vb.x - va.x) == 0) by (nonlinear_arith)
        requires
            vb.x == va.x,
    ;
    assert(da * (vb.y - va.y) == 0) by (nonlinear_arith)
        requires
            vb.y == va.y,
    ;
    if da - db > 0 {
        lemma_floor_div_unique(0, da - db, 0);
    } else {
        lemma_floor_div_unique(0, db - da, 0);
    }
}

/// A coordinate that runs `k` times as far as the height climbs has
/// run `k` times `step` when the height has climbed `step`.
pub proof fn lemma_cut_on_the_diagonal(a: int, k: int, rise: int, step: int)
    requires
        rise > 0,
    ensures
        cut_coordinate(a, a + k * rise, -step, rise - step) == a + k * step,
{
    let n = (-step) * (a + k * rise - a);
    assert(-n == (k * step) * rise) by (nonlinear_arith)
        requires
            n == (-step) * (a + k * rise - a),
    ;
    assert((k * step + 1) * rise == (k * step) * rise + rise) by (nonlinear_arith);
    lemma_floor_div_unique((k * step) * rise, rise, k * step);
}

/// The two triangles of an upright wall from `a0` to `b0` at the foot
/// and `a1` to `b1` at the top, the first listed foot, far top, near
/// top, the second foot, far foot, far top.
///
/// A plane through the wall cuts it from its near side to its far side:
/// in one piece along its foot or its top where it lies in the plane,
/// and else in two pieces that meet on the diagonal.
pub proof fn lemma_wall_is_cut_through(a0: Point3, b0: Point3, b1: Point3, a1: Point3, z: int)
    requires
        a0.footprint() == a1.footprint(),
        b0.footprint() == b1.footprint(),
        a0.z == b0.z,
        a1.z == b1.z,
        a0.z < z < a1.z,
        a1.z - a0.z > 2 * EPSILON,
        !b0.footprint().near_on_axes(a0.footprint(), EPSILON as int),
    ensures
        ({
            let a = a0.footprint();
            let b = b0.footprint();
            let m = edge_point(a0, b1, z);
            let first = triangle_section(a0, b1, a1, z);
            let second = triangle_section(a0, b0, b1, z);
            if side(a0.z - z) == 0 {
                first is None && second == Some(LineSegment2D { start: a, end: b })
            } else if side(a1.z - z) == 0 {
                first == Some(LineSegment2D { start: a, end: b }) && second is None
            } else {
                &&& first == if m.near_on_axes(a, EPSILON as int) {
                    None
                } else {
                    Some(LineSegment2D { start: a, end: m })
                }
                &&& second == if b.near_on_axes(m, EPSILON as int) {
                    None
                } else {
                    Some(LineSegment2D { start: m, end: b })
                }
            }
        }),
{
    lemma_section_is(a0, b1, a1, z);
    lemma_section_is(a0, b0, b1, z);
    lemma_upright_edge(a1, a0, z);
    lemma_upright_edge(a0, a1, z);
    lemma_upright_edge(b0, b1, z);
    lemma_upright_edge(b1, b0, z);
    if side(a0.z - z) != side(b1.z - z) {
        lemma_edge_point_symmetric(a0, b1, z);
    }
    let a = a0.footprint();
    assert(a.near_on_axes(a, EPSILON as int));
}

/// A triangle with the given corners, its normal left open.
pub open spec fn facet(a: usize, b: usize, c: usize) -> Triangle {
    Triangle { vertices: [a, b, c], normal: Vector3 { x: 0, y: 0, z: 0 } }
}

/// The point `dx`, `dy`, `dz` away from `o`.
pub open spec fn offset(o: Point3, dx: int, dy: int, dz: int) -> Point3 {
    Point3 { x: (o.x + dx) as i32, y: (o.y + dy) as i32, z: (o.z + dz) as i32 }
}

/// The point `dx`, `dy` away from the footprint of `o`.
pub open spec fn beside(o: Point3, dx: int, dy: int) -> Point2 {
    Point2 { x: (o.x + dx) as i32, y: (o.y + dy) as i32 }
}

/// A cube with its lowest corner at `o` fits on the grid, and is tall
/// enough for a plane to pass between its faces.
pub open spec fn is_cube(o: Point3, width: int) -> bool {
    &&& width > 2 * EPSILON
    &&& o.x + width <= i32::MAX
    &&& o.y + width <= i32::MAX
    &&& o.z + width <= i32::MAX
}

/// The corners of the cube: the foot counter-clockwise seen from above,
/// then the top likewise.
pub open spec fn cube_vertices(o: Point3, width: int) -> Seq<Point3> {
    seq![
        offset(o, 0, 0, 0),
        offset(o, width, 0, 0),
        offset(o, width, width, 0),
        offset(o, 0, width, 0),
        offset(o, 0, 0, width),
        offset(o, width, 0, width),
        offset(o, width, width, width),
        offset(o, 0, width, width),
    ]
}

/// The twelve triangles of the cube, two to a face, each listed
/// counter-clockwise seen from outside: foot, top, and the four walls
/// in turn.
pub open spec fn cube_triangles() -> Seq<Triangle> {
    seq![
        facet(0, 2, 1),
        facet(0, 3, 2),
        facet(4, 5, 6),
        facet(4, 6, 7),
        facet(0, 5, 4),
        facet(0, 1, 5),
        facet(1, 6, 5),
        facet(1, 2, 6),
        facet(2, 7, 6),
        facet(2, 3, 7),
        facet(3, 4, 7),
        facet(3, 0, 4),
    ]
}

/// The closed cube of the given side with its lowest corner at `o`.
pub open spec fn cube(o: Point3, width: int) -> MeshView {
    MeshView {
        vertices: cube_vertices(o, width),
        triangles: cube_triangles(),
        bounds: BoundingBox { min: o, max: offset(o, width, width, width) },
    }
}

/// The square in which the plane at height `z` meets the cube, walked
/// counter-clockwise from the corner over `o`. Where the plane passes
/// clear of foot and top, each wall adds the point where its diagonal
/// is pierced.
pub open spec fn cube_loop(o: Point3, width: int, z: int) -> Seq<Point2> {
    let h = z - o.z;
    if side(o.z - z) == 0 || side(o.z + width - z) == 0 {
        seq![beside(o, 0, 0), beside(o, width, 0), beside(o, width, width), beside(o, 0, width)]
    } else {
        seq![
            beside(o, 0, 0),
            beside(o, h, 0),
            beside(o, width, 0),
            beside(o, width, h),
            beside(o, width, width),
            beside(o, width - h, width),
            beside(o, 0, width),
            beside(o, 0, width - h),
        ]
    }
}

/// Adding a triangle adds its cut, if it has one.
proof fn lemma_sections_push(vs: Seq<Point3>, ts: Seq<Triangle>, t: Triangle, z: int)
    ensures
        sections(vs, ts.push(t), z) == match section_of(vs, t, z) {
            Some(s) => sections(vs, ts, z).push(s),
            None => sections(vs, ts, z),
        },
{
    assert(ts.push(t).drop_last() =~= ts);
}

/// The cube is a well-formed mesh.
pub proof fn lemma_cube_is_a_mesh(o: Point3, width: int)
    requires
        is_cube(o, width),
    ensures
        cube(o, width).wf(),
{
    let m = cube(o, width);
    let vs = m.vertices;
    assert(vs[0] == o);
    assert(vs[6] == m.bounds.max);
    assert(m.bounds.encloses(vs));
    assert(m.bounds.touches(vs));
    assert(all_indexed(m.triangles, vs));
}

/// What the plane at height `z` leaves of the cube: the edges of the
/// square in which it meets the cube, in order.
pub proof fn lemma_cube_cut(o: Point3, width: int, z: int)
    requires
        is_cube(o, width),
        o.z < z < o.z + width,
    ensures
        cube(o, width).cut(z) == edges_of(cube_loop(o, width, z)),
{
    let vs = cube_vertices(o, width);
    let ts = cube_triangles();
    let h = z - o.z;
    let e = Seq::<Triangle>::empty();
    let t1 = e.push(ts[0]);
    let t2 = t1.push(ts[1]);
    let t3 = t2.push(ts[2]);
    let t4 = t3.push(ts[3]);
    let t5 = t4.push(ts[4]);
    let t6 = t5.push(ts[5]);
    let t7 = t6.push(ts[6]);
    let t8 = t7.push(ts[7]);
    let t9 = t8.push(ts[8]);
    let t10 = t9.push(ts[9]);
    let t11 = t10.push(ts[10]);
    let t12 = t11.push(ts[11]);
    assert(t12 =~= ts);
    // Foot and top are level: clear of the plane, or flat in it.
    assert(section_of(vs, ts[0], z) is None);
    assert(section_of(vs, ts[1], z) is None);
    assert(section_of(vs, ts[2], z) is None);
    assert(section_of(vs, ts[3], z) is None);
    lemma_sections_push(vs, e, ts[0], z);
    lemma_sections_push(vs, t1, ts[1], z);
    lemma_sections_push(vs, t2, ts[2], z);
    lemma_sections_push(vs, t3, ts[3], z);
    assert(sections(vs, t4, z) =~= Seq::<LineSegment2D>::empty());
    // The four walls.
    lemma_wall_is_cut_through(vs[0], vs[1], vs[5], vs[4], z);
    lemma_wall_is_cut_through(vs[1], vs[2], vs[6], vs[5], z);
    lemma_wall_is_cut_through(vs[2], vs[3], vs[7], vs[6], z);
    lemma_wall_is_cut_through(vs[3], vs[0], vs[4], vs[7], z);
    lemma_cut_on_the_diagonal(o.x as int, 1, width, h);
    lemma_cut_on_the_diagonal(o.y as int, 0, width, h);
    lemma_cut_on_the_diagonal(o.x + width, 0, width, h);
    lemma_cut_on_the_diagonal(o.y as int, 1, width, h);
    lemma_cut_on_the_diagonal(o.x + width, -1, width, h);
    lemma_cut_on_the_diagonal(o.y + width, 0, width, h);
    lemma_cut_on_the_diagonal(o.x as int, 0, width, h);
    lemma_cut_on_the_diagonal(o.y + width, -1, width, h);
    lemma_sections_push(vs, t4, ts[4], z);
    lemma_sections_push(vs, t5, ts[5], z);
    lemma_sections_push(vs, t6, ts[6], z);
    lemma_sections_push(vs, t7, ts[7], z);
    lemma_sections_push(vs, t8, ts[8], z);
    lemma_sections_push(vs, t9, ts[9], z);
    lemma_sections_push(vs, t10, ts[10], z);
    lemma_sections_push(vs, t11, ts[11], z);
    let found = sections(vs, t12, z);
    let around = cube_loop(o, width, z);
    if side(o.z - z) == 0 || side(o.z + width - z) == 0 {
        assert(found.len() == 4);
        assert(found =~= edges_of(around));
    } else {
        assert(edge_point(vs[0], vs[5], z) == beside(o, h, 0));
        assert(edge_point(vs[1], vs[6], z) == beside(o, width, h));
        assert(edge_point(vs[2], vs[7], z) == beside(o, width - h, width));
        assert(edge_point(vs[3], vs[4], z) == beside(o, 0, width - h));
        assert(found.len() == 8);
        assert(found =~= edges_of(around));
    }
}

/// Points two units or more apart along an axis are apart.
proof fn lemma_apart_along_an_axis(p: Point2, q: Point2)
    requires
        p.x - q.x >= EPSILON || q.x - p.x >= EPSILON || p.y - q.y >= EPSILON || q.y - p.y
            >= EPSILON,
    ensures
        !p.closer_than(q, EPSILON as int),
{
    let (dx, dy) = (p.x - q.x, p.y - q.y);
    assert(dx * dx + dy * dy >= 4) by (nonlinear_arith)
        requires
            dx >= 2 || dx <= -2 || dy >= 2 || dy <= -2,
    ;
}

/// The corners of the square are all apart.
proof fn lemma_cube_loop_is_spread(o: Point3, width: int, z: int)
    requires
        is_cube(o, width),
        o.z < z < o.z + width,
    ensures
        all_apart(cube_loop(o, width, z)),
        cube_loop(o, width, z).len() >= 4,
{
    let around = cube_loop(o, width, z);
    assert forall|i: int, j: int|
        0 <= i < around.len() && 0 <= j < around.len() && i != j implies !(#[trigger] around[i])
        .closer_than(#[trigger] around[j], EPSILON as int) by {
        lemma_apart_along_an_axis(around[i], around[j]);
    }
}

/// The square has the area of a face of the cube, and runs
/// counter-clockwise.
proof fn lemma_cube_loop_area(o: Point3, width: int, z: int)
    requires
        is_cube(o, width),
        o.z < z < o.z + width,
    ensures
        signed_area_doubled(cube_loop(o, width, z)) == 2 * (width * width),
        enclosed_area(cube_loop(o, width, z)) == width * width,
{
    let around = cube_loop(o, width, z);
    let (x, y, w, h) = (o.x as int, o.y as int, width, z - o.z);
    reveal_with_fuel(shoelace_sum, 9);
    if around.len() == 4 {
        let e0 = x * y - (x + w) * y;
        let e1 = (x + w) * (y + w) - (x + w) * y;
        let e2 = (x + w) * (y + w) - x * (y + w);
        let e3 = x * y - x * (y + w);
        assert(edge_cross(around, 0) == e0);
        assert(edge_cross(around, 1) == e1);
        assert(edge_cross(around, 2) == e2);
        assert(edge_cross(around, 3) == e3);
        assert(e0 + e1 + e2 + e3 == 2 * (w * w)) by (nonlinear_arith)
            requires
                e0 == x * y - (x + w) * y,
                e1 == (x + w) * (y + w) - (x + w) * y,
                e2 == (x + w) * (y + w) - x * (y + w),
                e3 == x * y - x * (y + w),
        ;
    } else {
        let e0 = x * y - (x + h) * y;
        let e1 = (x + h) * y - (x + w) * y;
        let e2 = (x + w) * (y + h) - (x + w) * y;
        let e3 = (x + w) * (y + w) - (x + w) * (y + h);
        let e4 = (x + w) * (y + w) - (x + w - h) * (y + w);
        let e5 = (x + w - h) * (y + w) - x * (y + w);
        let e6 = x * (y + w - h) - x * (y + w);
        let e7 = x * y - x * (y + w - h);
        assert(edge_cross(around, 0) == e0);
        assert(edge_cross(around, 1) == e1);
        assert(edge_cross(around, 2) == e2);
        assert(edge_cross(around, 3) == e3);
        assert(edge_cross(around, 4) == e4);
        assert(edge_cross(around, 5) == e5);
        assert(edge_cross(around, 6) == e6);
        assert(edge_cross(around, 7) == e7);
        assert(e0 + e1 + e2 + e3 + e4 + e5 + e6 + e7 == 2 * (w * w)) by (nonlinear_arith)
            requires
                e0 == x * y - (x + h) * y,
                e1 == (x + h) * y - (x + w) * y,
                e2 == (x + w) * (y + h) - (x + w) * y,
                e3 == (x + w) * (y + w) - (x + w) * (y + h),
                e4 == (x + w) * (y + w) - (x + w - h) * (y + w),
                e5 == (x + w - h) * (y + w) - x * (y + w),
                e6 == x * (y + w - h) - x * (y + w),
                e7 == x * y - x * (y + w - h),
        ;
    }
    assert(w * w >= 0) by (nonlinear_arith);
}

/// A closed cube, cut by any plane that passes strictly between its
/// foot and its top, leaves one loop: the square in which the plane
/// meets it. The loop has the area of a face of the cube, and it is
/// sorted into one island without holes.
pub proof fn lemma_cube_is_cut_into_one_square(o: Point3, width: int, z: int)
    requires
        is_cube(o, width),
        o.z < z < o.z + width,
    ensures
        cube(o, width).wf(),
        assemble(cube(o, width).cut(z)) == seq![cube_loop(o, width, z)],
        enclosed_area(cube_loop(o, width, z)) == width * width,
        classify_loops(assemble(cube(o, width).cut(z))) == seq![
            IslandView { outline: cube_loop(o, width, z), holes: Seq::empty() },
        ],
{
    lemma_cube_is_a_mesh(o, width);
    lemma_cube_cut(o, width, z);
    lemma_cube_loop_is_spread(o, width, z);
    lemma_edges_chain_back(cube_loop(o, width, z));
    lemma_cube_loop_area(o, width, z);
    lemma_single_loop_is_one_island(cube_loop(o, width, z));
}

/// A ring with its lowest corner at `o` fits on the grid, and is tall
/// enough for a plane to pass between its faces.
pub open spec fn is_ring(o: Point3, t: int) -> bool {
    &&& t > 2 * EPSILON
    &&& o.x + 3 * t <= i32::MAX
    &&& o.y + 3 * t <= i32::MAX
    &&& o.z + t <= i32::MAX
}

/// The corners of a square ring `t` high and `3 t` wide, with a square
/// hole `t` wide through its middle: the outer foot counter-clockwise
/// seen from above, the outer top, the foot of the hole, the top of the
/// hole.
pub open spec fn ring_vertices(o: Point3, t: int) -> Seq<Point3> {
    seq![
        offset(o, 0, 0, 0),
        offset(o, 3 * t, 0, 0),
        offset(o, 3 * t, 3 * t, 0),
        offset(o, 0, 3 * t, 0),
        offset(o, 0, 0, t),
        offset(o, 3 * t, 0, t),
        offset(o, 3 * t, 3 * t, t),
        offset(o, 0, 3 * t, t),
        offset(o, t, t, 0),
        offset(o, 2 * t, t, 0),
        offset(o, 2 * t, 2 * t, 0),
        offset(o, t, 2 * t, 0),
        offset(o, t, t, t),
        offset(o, 2 * t, t, t),
        offset(o, 2 * t, 2 * t, t),
        offset(o, t, 2 * t, t),
    ]
}

/// The triangles of the ring, each listed counter-clockwise seen from
/// outside the solid: the four outer walls in turn, the four walls of
/// the hole in turn, then foot and top.
pub open spec fn ring_triangles() -> Seq<Triangle> {
    seq![
        facet(0, 5, 4),
        facet(0, 1, 5),
        facet(1, 6, 5),
        facet(1, 2, 6),
        facet(2, 7, 6),
        facet(2, 3, 7),
        facet(3, 4, 7),
        facet(3, 0, 4),
        facet(9, 12, 13),
        facet(9, 8, 12),
        facet(8, 15, 12),
        facet(8, 11, 15),
        facet(11, 14, 15),
        facet(11, 10, 14),
        facet(10, 13, 14),
        facet(10, 9, 13),
        facet(0, 8, 1),
        facet(1, 8, 9),
        facet(4, 5, 12),
        facet(5, 13, 12),
        facet(1, 9, 2),
        facet(2, 9, 10),
        facet(5, 6, 13),
        facet(6, 14, 13),
        facet(2, 10, 3),
        facet(3, 10, 11),
        facet(6, 7, 14),
        facet(7, 15, 14),
        facet(3, 11, 0),
        facet(0, 11, 8),
        facet(7, 4, 15),
        facet(4, 12, 15),
    ]
}

/// The closed ring with its lowest corner at `o`.
pub open spec fn ring(o: Point3, t: int) -> MeshView {
    MeshView {
        vertices: ring_vertices(o, t),
        triangles: ring_triangles(),
        bounds: BoundingBox { min: o, max: offset(o, 3 * t, 3 * t, t) },
    }
}

/// The plane at height `z` passes clear of the foot and the top of a
/// solid that stands from `low` to `high`.
pub open spec fn passes_clear(low: int, high: int, z: int) -> bool {
    side(low - z) != 0 && side(high - z) != 0
}

/// The outer square in which the plane at height `z` meets the ring,
/// walked counter-clockwise.
pub open spec fn ring_outline(o: Point3, t: int, z: int) -> Seq<Point2> {
    let h = z - o.z;
    if passes_clear(o.z as int, o.z + t, z) {
        seq![
            beside(o, 0, 0),
            beside(o, 3 * h, 0),
            beside(o, 3 * t, 0),
            beside(o, 3 * t, 3 * h),
            beside(o, 3 * t, 3 * t),
            beside(o, 3 * t - 3 * h, 3 * t),
            beside(o, 0, 3 * t),
            beside(o, 0, 3 * t - 3 * h),
        ]
    } else {
        seq![beside(o, 0, 0), beside(o, 3 * t, 0), beside(o, 3 * t, 3 * t), beside(o, 0, 3 * t)]
    }
}

/// The square in which the plane at height `z` meets the hole of the
/// ring, walked clockwise.
pub open spec fn ring_hole(o: Point3, t: int, z: int) -> Seq<Point2> {
    let h = z - o.z;
    if passes_clear(o.z as int, o.z + t, z) {
        seq![
            beside(o, 2 * t, t),
            beside(o, 2 * t - h, t),
            beside(o, t, t),
            beside(o, t, t + h),
            beside(o, t, 2 * t),
            beside(o, t + h, 2 * t),
            beside(o, 2 * t, 2 * t),
            beside(o, 2 * t, 2 * t - h),
        ]
    } else {
        seq![beside(o, 2 * t, t), beside(o, t, t), beside(o, t, 2 * t), beside(o, 2 * t, 2 * t)]
    }
}

/// The ring is a well-formed mesh.
pub proof fn lemma_ring_is_a_mesh(o: Point3, t: int)
    requires
        is_ring(o, t),
    ensures
        ring(o, t).wf(),
{
    let m = ring(o, t);
    let vs = m.vertices;
    assert(vs[0] == o);
    assert(vs[6] == m.bounds.max);
    assert(m.bounds.encloses(vs));
    assert(m.bounds.touches(vs));
    assert(all_indexed(m.triangles, vs));
}

/// What a wall leaves in the plane: its near side joined to its far side,
/// by way of the point on its diagonal where the plane passes clear of
/// foot and top.
pub open spec fn wall_pieces(a: Point2, m: Point2, b: Point2, clear: bool) -> Seq<LineSegment2D> {
    if clear {
        seq![LineSegment2D { start: a, end: m }, LineSegment2D { start: m, end: b }]
    } else {
        seq![LineSegment2D { start: a, end: b }]
    }
}

/// Looking at one triangle more adds its cut, if it has one.
proof fn lemma_sections_next(vs: Seq<Point3>, ts: Seq<Triangle>, k: int, z: int)
    requires
        0 <= k < ts.len(),
    ensures
        sections(vs, ts.take(k + 1), z) == match section_of(vs, ts[k], z) {
            Some(s) => sections(vs, ts.take(k), z).push(s),
            None => sections(vs, ts.take(k), z),
        },
{
    assert(ts.take(k + 1).drop_last() =~= ts.take(k));
    assert(ts.take(k + 1).last() == ts[k]);
}

/// A triangle whose corners are all as high as each other adds nothing
/// to what a plane holds.
proof fn lemma_level_facet_in_mesh(vs: Seq<Point3>, ts: Seq<Triangle>, k: int, z: int)
    requires
        0 <= k < ts.len(),
        corner(vs, ts[k], 0).z == corner(vs, ts[k], 1).z,
        corner(vs, ts[k], 1).z == corner(vs, ts[k], 2).z,
    ensures
        sections(vs, ts.take(k + 1), z) == sections(vs, ts.take(k), z),
{
    lemma_sections_next(vs, ts, k, z);
}

/// A whole multiple of a part lies between nothing and the same
/// multiple of the whole, and no nearer to either than the part is.
proof fn lemma_multiple_between(k: int, h: int, rise: int)
    requires
        0 < h < rise,
    ensures
        k == 0 ==> k * h == 0 && k * rise == 0,
        k > 0 ==> h <= k * h && k * h + (rise - h) <= k * rise,
        k < 0 ==> k * h <= -h && k * rise + (rise - h) <= k * h,
{
    assert(k * rise == k * h + k * (rise - h)) by (nonlinear_arith);
    if k > 0 {
        assert(k * h >= h && k * (rise - h) >= rise - h) by (nonlinear_arith)
            requires
                k >= 1,
                0 < h < rise,
        ;
    } else if k < 0 {
        assert(k * h <= -h && k * (rise - h) <= -(rise - h)) by (nonlinear_arith)
            requires
                k <= -1,
                0 < h < rise,
        ;
    } else {
        assert(k * h == 0 && k * rise == 0) by (nonlinear_arith)
            requires
                k == 0,
        ;
    }
}

/// A wall whose far side lies `kx` and `ky` times its height from its
/// near side, standing as triangles `k` and `k + 1` of a mesh, adds its
/// pieces to what the plane holds.
proof fn lemma_wall_in_mesh(
    vs: Seq<Point3>,
    ts: Seq<Triangle>,
    k: int,
    ia0: usize,
    ib0: usize,
    ib1: usize,
    ia1: usize,
    z: int,
    kx: int,
    ky: int,
)
    requires
        0 <= k,
        k + 2 <= ts.len(),
        ts[k] == facet(ia0, ib1, ia1),
        ts[k + 1] == facet(ia0, ib0, ib1),
        ia0 < vs.len() && ib0 < vs.len() && ib1 < vs.len() && ia1 < vs.len(),
        vs[ia0 as int].footprint() == vs[ia1 as int].footprint(),
        vs[ib0 as int].footprint() == vs[ib1 as int].footprint(),
        vs[ia0 as int].z == vs[ib0 as int].z,
        vs[ia1 as int].z == vs[ib1 as int].z,
        vs[ia0 as int].z < z < vs[ia1 as int].z,
        vs[ia1 as int].z - vs[ia0 as int].z > 2 * EPSILON,
        (kx == 0) != (ky == 0),
        vs[ib0 as int].x == vs[ia0 as int].x + kx * (vs[ia1 as int].z - vs[ia0 as int].z),
        vs[ib0 as int].y == vs[ia0 as int].y + ky * (vs[ia1 as int].z - vs[ia0 as int].z),
    ensures
        sections(vs, ts.take(k + 2), z) == sections(vs, ts.take(k), z) + wall_pieces(
            vs[ia0 as int].footprint(),
            Point2 {
                x: (vs[ia0 as int].x + kx * (z - vs[ia0 as int].z)) as i32,
                y: (vs[ia0 as int].y + ky * (z - vs[ia0 as int].z)) as i32,
            },
            vs[ib0 as int].footprint(),
            passes_clear(vs[ia0 as int].z as int, vs[ia1 as int].z as int, z),
        ),
{
    let (a0, b0, b1, a1) = (vs[ia0 as int], vs[ib0 as int], vs[ib1 as int], vs[ia1 as int]);
    let rise = a1.z - a0.z;
    let h = z - a0.z;
    lemma_multiple_between(kx, h, rise);
    lemma_multiple_between(ky, h, rise);
    lemma_wall_is_cut_through(a0, b0, b1, a1, z);
    lemma_cut_on_the_diagonal(a0.x as int, kx, rise, h);
    lemma_cut_on_the_diagonal(a0.y as int, ky, rise, h);
    lemma_sections_next(vs, ts, k, z);
    lemma_sections_next(vs, ts, k + 1, z);
    assert(section_of(vs, ts[k], z) == triangle_section(a0, b1, a1, z));
    assert(section_of(vs, ts[k + 1], z) == triangle_section(a0, b0, b1, z));
    let before = sections(vs, ts.take(k), z);
    let a = a0.footprint();
    let b = b0.footprint();
    if passes_clear(a0.z as int, a1.z as int, z) {
        let m = edge_point(a0, b1, z);
        assert(m == cut_point(a0, b1, z));
        assert(b1.x == a0.x + kx * rise && b1.y == a0.y + ky * rise);
        assert(a0.z - z == -h && b1.z - z == rise - h);
        let (mx, my) = (a0.x + kx * h, a0.y + ky * h);
        assert(cut_coordinate(a0.x as int, b1.x as int, a0.z - z, b1.z - z) == mx);
        assert(cut_coordinate(a0.y as int, b1.y as int, a0.z - z, b1.z - z) == my);
        assert(a0.x <= mx <= b1.x || b1.x <= mx <= a0.x);
        assert(a0.y <= my <= b1.y || b1.y <= my <= a0.y);
        assert(m.x == mx);
        assert(m.y == my);
        assert(before.push(LineSegment2D { start: a, end: m }).push(
            LineSegment2D { start: m, end: b },
        ) =~= before + wall_pieces(a, m, b, true));
    } else {
        let m = Point2 { x: (a0.x + kx * h) as i32, y: (a0.y + ky * h) as i32 };
        assert(before.push(LineSegment2D { start: a, end: b }) =~= before + wall_pieces(
            a,
            m,
            b,
            false,
        ));
    }
}

/// What the plane at height `z` leaves of the outer walls of the ring:
/// the edges of the outer square, in order.
proof fn lemma_ring_outer_cut(o: Point3, t: int, z: int)
    requires
        is_ring(o, t),
        o.z < z < o.z + t,
    ensures
        sections(ring_vertices(o, t), ring_triangles().take(8), z) == edges_of(
            ring_outline(o, t, z),
        ),
{
    let vs = ring_vertices(o, t);
    let ts = ring_triangles();
    assert(sections(vs, ts.take(0), z) =~= Seq::<LineSegment2D>::empty());
    lemma_wall_in_mesh(vs, ts, 0, 0, 1, 5, 4, z, 3, 0);
    lemma_wall_in_mesh(vs, ts, 2, 1, 2, 6, 5, z, 0, 3);
    lemma_wall_in_mesh(vs, ts, 4, 2, 3, 7, 6, z, -3, 0);
    lemma_wall_in_mesh(vs, ts, 6, 3, 0, 4, 7, z, 0, -3);
    assert(sections(vs, ts.take(8), z) =~= edges_of(ring_outline(o, t, z)));
}

/// What the plane at height `z` leaves of the walls of the hole: the
/// edges of the square round the hole, in order.
proof fn lemma_ring_inner_cut(o: Point3, t: int, z: int)
    requires
        is_ring(o, t),
        o.z < z < o.z + t,
    ensures
        sections(ring_vertices(o, t), ring_triangles().take(16), z) == sections(
            ring_vertices(o, t),
            ring_triangles().take(8),
            z,
        ) + edges_of(ring_hole(o, t, z)),
{
    let vs = ring_vertices(o, t);
    let ts = ring_triangles();
    let outer = sections(vs, ts.take(8), z);
    lemma_wall_in_mesh(vs, ts, 8, 9, 8, 12, 13, z, -1, 0);
    lemma_wall_in_mesh(vs, ts, 10, 8, 11, 15, 12, z, 0, 1);
    lemma_wall_in_mesh(vs, ts, 12, 11, 10, 14, 15, z, 1, 0);
    lemma_wall_in_mesh(vs, ts, 14, 10, 9, 13, 14, z, 0, -1);
    assert(sections(vs, ts.take(16), z) =~= outer + edges_of(ring_hole(o, t, z)));
}

/// What the plane at height `z` leaves of the ring: the edges of the
/// outer square in order, then those of the hole in order.
pub proof fn lemma_ring_cut(o: Point3, t: int, z: int)
    requires
        is_ring(o, t),
        o.z < z < o.z + t,
    ensures
        ring(o, t).cut(z) == edges_of(ring_outline(o, t, z)) + edges_of(ring_hole(o, t, z)),
{
    let vs = ring_vertices(o, t);
    let ts = ring_triangles();
    lemma_ring_outer_cut(o, t, z);
    lemma_ring_inner_cut(o, t, z);
    // Foot and top are level.
    lemma_level_facet_in_mesh(vs, ts, 16, z);
    lemma_level_facet_in_mesh(vs, ts, 17, z);
    lemma_level_facet_in_mesh(vs, ts, 18, z);
    lemma_level_facet_in_mesh(vs, ts, 19, z);
    lemma_level_facet_in_mesh(vs, ts, 20, z);
    lemma_level_facet_in_mesh(vs, ts, 21, z);
    lemma_level_facet_in_mesh(vs, ts, 22, z);
    lemma_level_facet_in_mesh(vs, ts, 23, z);
    lemma_level_facet_in_mesh(vs, ts, 24, z);
    lemma_level_facet_in_mesh(vs, ts, 25, z);
    lemma_level_facet_in_mesh(vs, ts, 26, z);
    lemma_level_facet_in_mesh(vs, ts, 27, z);
    lemma_level_facet_in_mesh(vs, ts, 28, z);
    lemma_level_facet_in_mesh(vs, ts, 29, z);
    lemma_level_facet_in_mesh(vs, ts, 30, z);
    lemma_level_facet_in_mesh(vs, ts, 31, z);
    assert(ts.take(32) =~= ts);
}

/// The corners of each square of the ring are all apart.
proof fn lemma_ring_loops_are_spread(o: Point3, t: int, z: int)
    requires
        is_ring(o, t),
        o.z < z < o.z + t,
    ensures
        all_apart(ring_outline(o, t, z)),
        all_apart(ring_hole(o, t, z)),
        ring_outline(o, t, z).len() >= 4,
        ring_hole(o, t, z).len() >= 4,
{
    let outline = ring_outline(o, t, z);
    let hole = ring_hole(o, t, z);
    assert forall|i: int, j: int|
        0 <= i < outline.len() && 0 <= j < outline.len() && i != j implies !(#[trigger] outline[i])
        .closer_than(#[trigger] outline[j], EPSILON as int) by {
        lemma_apart_along_an_axis(outline[i], outline[j]);
    }
    assert forall|i: int, j: int|
        0 <= i < hole.len() && 0 <= j < hole.len() && i != j implies !(#[trigger] hole[i])
        .closer_than(#[trigger] hole[j], EPSILON as int) by {
        lemma_apart_along_an_axis(hole[i], hole[j]);
    }
}

/// Twice the signed area of a loop of four upright and level edges.
proof fn lemma_four_corner_area(around: Seq<Point2>, x: int, y: int, u: int, v: int)
    requires
        around.len() == 4,
        around[0].x == x && around[0].y == y,
        around[1].x == u && around[1].y == y,
        around[2].x == u && around[2].y == v,
        around[3].x == x && around[3].y == v,
    ensures
        signed_area_doubled(around) == 2 * ((u - x) * (v - y)),
{
    reveal_with_fuel(shoelace_sum, 5);
    let e0 = x * y - u * y;
    let e1 = u * v - u * y;
    let e2 = u * v - x * v;
    let e3 = x * y - x * v;
    assert(edge_cross(around, 0) == e0);
    assert(edge_cross(around, 1) == e1);
    assert(edge_cross(around, 2) == e2);
    assert(edge_cross(around, 3) == e3);
    assert(e0 + e1 + e2 + e3 == 2 * ((u - x) * (v - y))) by (nonlinear_arith)
        requires
            e0 == x * y - u * y,
            e1 == u * v - u * y,
            e2 == u * v - x * v,
            e3 == x * y - x * v,
    ;
}

/// Twice the signed area of a loop of eight upright and level edges:
/// the four corners of a rectangle, with a point on each side between.
proof fn lemma_eight_corner_area(
    around: Seq<Point2>,
    x: int,
    y: int,
    u: int,
    v: int,
    p: int,
    q: int,
    r: int,
    s: int,
)
    requires
        around.len() == 8,
        around[0].x == x && around[0].y == y,
        around[1].x == p && around[1].y == y,
        around[2].x == u && around[2].y == y,
        around[3].x == u && around[3].y == q,
        around[4].x == u && around[4].y == v,
        around[5].x == r && around[5].y == v,
        around[6].x == x && around[6].y == v,
        around[7].x == x && around[7].y == s,
    ensures
        signed_area_doubled(around) == 2 * ((u - x) * (v - y)),
{
    reveal_with_fuel(shoelace_sum, 9);
    let e0 = x * y - p * y;
    let e1 = p * y - u * y;
    let e2 = u * q - u * y;
    let e3 = u * v - u * q;
    let e4 = u * v - r * v;
    let e5 = r * v - x * v;
    let e6 = x * s - x * v;
    let e7 = x * y - x * s;
    assert(edge_cross(around, 0) == e0);
    assert(edge_cross(around, 1) == e1);
    assert(edge_cross(around, 2) == e2);
    assert(edge_cross(around, 3) == e3);
    assert(edge_cross(around, 4) == e4);
    assert(edge_cross(around, 5) == e5);
    assert(edge_cross(around, 6) == e6);
    assert(edge_cross(around, 7) == e7);
    assert(e0 + e1 + e2 + e3 + e4 + e5 + e6 + e7 == 2 * ((u - x) * (v - y))) by (nonlinear_arith)
        requires
            e0 == x * y - p * y,
            e1 == p * y - u * y,
            e2 == u * q - u * y,
            e3 == u * v - u * q,
            e4 == u * v - r * v,
            e5 == r * v - x * v,
            e6 == x * s - x * v,
            e7 == x * y - x * s,
    ;
}

/// The outer square of the ring runs counter-clockwise round nine
/// times the area that the hole, which runs clockwise, takes out of it.
proof fn lemma_ring_areas(o: Point3, t: int, z: int)
    requires
        is_ring(o, t),
        o.z < z < o.z + t,
    ensures
        signed_area_doubled(ring_outline(o, t, z)) == 18 * (t * t),
        signed_area_doubled(ring_hole(o, t, z)) == -2 * (t * t),
        enclosed_area(ring_outline(o, t, z)) == 9 * (t * t),
        enclosed_area(ring_hole(o, t, z)) == t * t,
        winds_clockwise(ring_hole(o, t, z)),
        winds_counter_clockwise(ring_outline(o, t, z)),
{
    let outline = ring_outline(o, t, z);
    let hole = ring_hole(o, t, z);
    let h = z - o.z;
    let (x, y) = (o.x as int, o.y as int);
    if outline.len() == 4 {
        lemma_four_corner_area(outline, x, y, x + 3 * t, y + 3 * t);
        lemma_four_corner_area(hole, x + 2 * t, y + t, x + t, y + 2 * t);
    } else {
        lemma_eight_corner_area(
            outline,
            x,
            y,
            x + 3 * t,
            y + 3 * t,
            x + 3 * h,
            y + 3 * h,
            x + 3 * t - 3 * h,
            y + 3 * t - 3 * h,
        );
        lemma_eight_corner_area(
            hole,
            x + 2 * t,
            y + t,
            x + t,
            y + 2 * t,
            x + 2 * t - h,
            y + t + h,
            x + t + h,
            y + 2 * t - h,
        );
    }
    assert((3 * t) * (3 * t) == 9 * (t * t)) by (nonlinear_arith);
    assert((-t) * t == -(t * t)) by (nonlinear_arith);
    assert(t * t > 0) by (nonlinear_arith)
        requires
            t > 0,
    ;
}

/// A level edge is never crossed by a level ray.
proof fn lemma_level_edge_is_not_crossed(a: Point2, b: Point2, q: Point2)
    requires
        a.y == b.y,
    ensures
        !ray_crosses(a, b, q),
{
}

/// An upright edge is crossed by the ray from `q` where it stands to
/// the right of `q` and reaches from not above `q` to above it.
proof fn lemma_upright_edge_is_crossed(a: Point2, b: Point2, q: Point2)
    requires
        a.x == b.x,
        a.y != b.y,
    ensures
        ray_crosses(a, b, q) == ((a.y > q.y) != (b.y > q.y) && q.x < a.x),
{
    let (qx, qy, ey) = (q.x - a.x, q.y - a.y, b.y - a.y);
    assert(qy * (b.x - a.x) == 0) by (nonlinear_arith)
        requires
            b.x - a.x == 0,
    ;
    if ey > 0 {
        assert((qx * ey < 0) == (qx < 0)) by (nonlinear_arith)
            requires
                ey > 0,
        ;
    } else {
        assert((qx * ey > 0) == (qx < 0)) by (nonlinear_arith)
            requires
                ey < 0,
        ;
    }
}

/// The first corner of the hole lies inside the outer square.
proof fn lemma_ring_outline_holds_hole(o: Point3, t: int, z: int)
    requires
        is_ring(o, t),
        o.z < z < o.z + t,
    ensures
        can_hold(ring_outline(o, t, z), ring_hole(o, t, z)),
{
    let outline = ring_outline(o, t, z);
    let hole = ring_hole(o, t, z);
    let q = hole[0];
    let n = outline.len() as int;
    lemma_ring_areas(o, t, z);
    assert(q == beside(o, 2 * t, t));
    assert(outline[0].x <= q.x && outline[0].y <= q.y);
    assert(outline[n / 2].x >= q.x && outline[n / 2].y >= q.y);
    assert(within_extent(outline, q));
    reveal_with_fuel(crossings, 9);
    assert forall|i: int| 0 <= i < n implies ray_crosses(
        #[trigger] outline[i],
        outline[next_corner(outline, i)],
        q,
    ) == (if n == 4 {
        i == 1
    } else {
        (i == 2 && outline[3].y > q.y) || (i == 3 && outline[3].y <= q.y)
    }) by {
        let (a, b) = (outline[i], outline[next_corner(outline, i)]);
        if a.y == b.y {
            lemma_level_edge_is_not_crossed(a, b, q);
        } else {
            lemma_upright_edge_is_crossed(a, b, q);
        }
    }
    if n == 4 {
        assert(crossings(outline, q, 4) == 1);
    } else {
        assert(crossings(outline, q, 8) == 1);
    }
    assert(surrounds(outline, q));
}

/// A closed ring, cut by any plane that passes strictly between its
/// foot and its top, leaves two loops: the outer square and the square
/// round the hole. They are sorted into one island: the outer square,
/// which is the larger, is its outline, and the square round the hole
/// is its only hole.
pub proof fn lemma_ring_is_cut_into_one_island(o: Point3, t: int, z: int)
    requires
        is_ring(o, t),
        o.z < z < o.z + t,
    ensures
        ring(o, t).wf(),
        assemble(ring(o, t).cut(z)) == seq![ring_outline(o, t, z), ring_hole(o, t, z)],
        classify_loops(assemble(ring(o, t).cut(z))) == seq![
            IslandView { outline: ring_outline(o, t, z), holes: seq![ring_hole(o, t, z)] },
        ],
        enclosed_area(ring_outline(o, t, z)) == 9 * (t * t),
        enclosed_area(ring_hole(o, t, z)) == t * t,
        enclosed_area(ring_hole(o, t, z)) < enclosed_area(ring_outline(o, t, z)),
{
    let outline = ring_outline(o, t, z);
    let hole = ring_hole(o, t, z);
    lemma_ring_is_a_mesh(o, t);
    lemma_ring_cut(o, t, z);
    lemma_ring_loops_are_spread(o, t, z);
    lemma_two_loops_chain_back(outline, hole);
    lemma_ring_areas(o, t, z);
    lemma_ring_outline_holds_hole(o, t, z);
    lemma_ring_is_one_island(outline, hole);
    assert(t * t > 0) by (nonlinear_arith)
        requires
            t > 0,
    ;
}

/// What a plane strictly between the foot and the top of a cube leaves
/// of the cube, given in any order and each piece in either direction,
/// is chained into exactly one loop, of the area of a face of the cube,
/// and sorted into one island without holes.
pub proof fn lemma_cube_cuts_in_any_order(
    o: Point3,
    width: int,
    z: int,
    segments: Seq<LineSegment2D>,
    edge: Seq<int>,
    place: Seq<int>,
)
    requires
        is_cube(o, width),
        o.z < z < o.z + width,
        are_edges_of(segments, cube_loop(o, width, z), edge, place),
    ensures
        assemble(segments).len() == 1,
        assemble(segments)[0].len() == cube_loop(o, width, z).len(),
        enclosed_area(assemble(segments)[0]) == width * width,
        classify_loops(assemble(segments)) == seq![
            IslandView { outline: assemble(segments)[0], holes: Seq::empty() },
        ],
{
    lemma_cube_loop_is_spread(o, width, z);
    lemma_cube_loop_area(o, width, z);
    lemma_edges_chain_back_in_any_order(segments, cube_loop(o, width, z), edge, place);
}

/// Every layer of a cube that is cut strictly between the foot and the
/// top of the cube holds one island without holes: the square in which
/// its plane meets the cube, of the area of a face.
pub proof fn lemma_cube_layer_is_one_square(s: SlicerView, o: Point3, width: int, k: int)
    requires
        is_cube(o, width),
        s.mesh == cube(o, width),
        o.z < s.sample_z(k) < o.z + width,
    ensures
        s.layer(k).z_height == s.sample_z(k),
        s.layer(k).islands == seq![
            IslandView { outline: cube_loop(o, width, s.sample_z(k)), holes: Seq::empty() },
        ],
        enclosed_area(s.layer(k).islands[0].outline) == width * width,
{
    lemma_cube_is_cut_into_one_square(o, width, s.sample_z(k));
}

/// Every layer of a ring that is cut strictly between the foot and the
/// top of the ring holds one island with one hole: the outer square,
/// the larger of the two loops, is its outline, and the square round
/// the hole is its hole.
pub proof fn lemma_ring_layer_is_one_island(s: SlicerView, o: Point3, t: int, k: int)
    requires
        is_ring(o, t),
        s.mesh == ring(o, t),
        o.z < s.sample_z(k) < o.z + t,
    ensures
        s.layer(k).islands.len() == 1,
        s.layer(k).islands[0].outline == ring_outline(o, t, s.sample_z(k)),
        s.layer(k).islands[0].holes == seq![ring_hole(o, t, s.sample_z(k))],
        enclosed_area(s.layer(k).islands[0].holes[0]) < enclosed_area(
            s.layer(k).islands[0].outline,
        ),
        can_hold(s.layer(k).islands[0].outline, s.layer(k).islands[0].holes[0]),
{
    lemma_ring_is_cut_into_one_island(o, t, s.sample_z(k));
    lemma_ring_outline_holds_hole(o, t, s.sample_z(k));
}

/// A triangle listed from another of its corners is the same triangle
/// to every plane: the cuts of a mesh do not depend on the corner from
/// which any of its triangles is listed.
pub proof fn lemma_facet_may_be_listed_from_any_corner(
    vs: Seq<Point3>,
    a: usize,
    b: usize,
    c: usize,
    z: int,
)
    ensures
        section_of(vs, facet(b, c, a), z) == section_of(vs, facet(a, b, c), z),
        section_of(vs, facet(c, a, b), z) == section_of(vs, facet(a, b, c), z),
{
    let (p, q, r) = (vs[a as int], vs[b as int], vs[c as int]);
    lemma_section_ignores_first_corner(p, q, r, z);
    lemma_section_ignores_first_corner(q, r, p, z);
}

} // verus!

