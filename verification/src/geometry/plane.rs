//! Cutting one triangle with one horizontal plane.
//!
//! A vertex is above the plane, below it, or in it; a vertex within
//! `EPSILON` of the plane counts as in it. Where an edge runs from one
//! side to the other, the point at which it pierces the plane is found by
//! linear interpolation and rounded down to the grid. The rounding does
//! not depend on the direction in which the edge is walked, so two
//! triangles that share an edge agree on its cut to the last unit.
//!
//! A corner in the plane is one place however many edges meet in it: the
//! points that the edges leave are counted once each, whichever corner
//! the triangle is listed from.
//!
//! The corners of a triangle are taken to be listed counter-clockwise as
//! seen from outside the solid. Walking round the triangle in that
//! order, the cut runs from where the walk goes down through the plane
//! to where it comes up again. Seen from above, the solid then lies to
//! the left of every cut: the cuts of an outer wall run
//! counter-clockwise round the solid, those of the wall of a hole
//! clockwise round the hole.

use vstd::prelude::*;
use crate::geometry::point::{Point2, Point3};
use crate::geometry::segment::LineSegment2D;
use crate::units::{
    floor_div, floor_quotient, lemma_floor_div_bounds, lemma_floor_div_shift, EPSILON,
};

verus! {

/// A signed distance `d` from the plane that counts as above it.
pub open spec fn is_above(d: int) -> bool {
    d > EPSILON
}

/// A signed distance `d` from the plane that counts as below it.
pub open spec fn is_below(d: int) -> bool {
    d < -EPSILON
}

/// A signed distance `d` from the plane that counts as in it.
pub open spec fn is_on_plane(d: int) -> bool {
    -EPSILON <= d <= EPSILON
}

/// The side of the plane a signed distance `d` lies on: 1 above, -1
/// below, 0 in the plane.
pub open spec fn side(d: int) -> int {
    if is_above(d) {
        1
    } else if is_below(d) {
        -1
    } else {
        0
    }
}

/// The edge from `va` to `vb` comes up: it ends on a higher side of the
/// plane than it begins.
pub open spec fn ascends(va: Point3, vb: Point3, z: int) -> bool {
    side(va.z - z) < side(vb.z - z)
}

/// The edge from `va` to `vb` goes down: it ends on a lower side of the
/// plane than it begins.
pub open spec fn descends(va: Point3, vb: Point3, z: int) -> bool {
    side(va.z - z) > side(vb.z - z)
}

/// Two signed distances on opposite sides of the plane, neither in it.
pub open spec fn straddle(da: int, db: int) -> bool {
    (is_above(da) && is_below(db)) || (is_below(da) && is_above(db))
}

/// One coordinate of the point at which an edge pierces the plane: the
/// edge runs from coordinate `a` at signed distance `da` to coordinate
/// `b` at signed distance `db`, and is cut at the fraction
/// `da / (da - db)` of its way, rounded down.
pub open spec fn cut_coordinate(a: int, b: int, da: int, db: int) -> int {
    a + floor_div(da * (b - a), da - db)
}

/// The point at which the edge from `va` to `vb` pierces the plane at
/// height `z`.
pub open spec fn cut_point(va: Point3, vb: Point3, z: int) -> Point2 {
    Point2 {
        x: cut_coordinate(va.x as int, vb.x as int, va.z - z, vb.z - z) as i32,
        y: cut_coordinate(va.y as int, vb.y as int, va.z - z, vb.z - z) as i32,
    }
}

/// Whether the edge from `va` to `vb` leaves a point in the plane at
/// height `z`: it does unless both its ends are strictly on one side.
pub open spec fn touches_plane(va: Point3, vb: Point3, z: int) -> bool {
    let da = va.z - z;
    let db = vb.z - z;
    !((is_above(da) && is_above(db)) || (is_below(da) && is_below(db)))
}

/// The point that the edge from `va` to `vb` leaves in the plane at
/// height `z`: an end that lies in the plane (the first end before the
/// second), or else the point where the edge pierces the plane.
pub open spec fn edge_point(va: Point3, vb: Point3, z: int) -> Point2 {
    if is_on_plane(va.z - z) {
        va.footprint()
    } else if is_on_plane(vb.z - z) {
        vb.footprint()
    } else {
        cut_point(va, vb, z)
    }
}

/// What the edge from `va` to `vb` leaves in the plane at height `z`:
/// its point, or nothing.
pub open spec fn edge_trace(va: Point3, vb: Point3, z: int) -> Seq<Point2> {
    if touches_plane(va, vb, z) {
        seq![edge_point(va, vb, z)]
    } else {
        Seq::empty()
    }
}

/// `p` differs from some point of `kept` by less than `EPSILON` along
/// each axis.
pub open spec fn near_any(kept: Seq<Point2>, p: Point2) -> bool {
    exists|i: int| 0 <= i < kept.len() && p.near_on_axes(#[trigger] kept[i], EPSILON as int)
}

/// The distinct points of `points`, each in the place where it first
/// occurs: a point is dropped where it is near any point already kept.
pub open spec fn merge_near(points: Seq<Point2>) -> Seq<Point2>
    decreases points.len(),
{
    if points.len() == 0 {
        points
    } else {
        let kept = merge_near(points.drop_last());
        if near_any(kept, points.last()) {
            kept
        } else {
            kept.push(points.last())
        }
    }
}

/// What the three edges of a triangle leave in the plane, taken in the
/// order first to second, second to third, third to first corner.
pub open spec fn triangle_trace(v0: Point3, v1: Point3, v2: Point3, z: int) -> Seq<Point2> {
    edge_trace(v0, v1, z) + edge_trace(v1, v2, z) + edge_trace(v2, v0, z)
}

/// The triangle has all its corners strictly on one side of the plane.
pub open spec fn clear_of_plane(v0: Point3, v1: Point3, v2: Point3, z: int) -> bool {
    ||| is_above(v0.z - z) && is_above(v1.z - z) && is_above(v2.z - z)
    ||| is_below(v0.z - z) && is_below(v1.z - z) && is_below(v2.z - z)
}

/// The triangle has all its corners in the plane.
pub open spec fn flat_in_plane(v0: Point3, v1: Point3, v2: Point3, z: int) -> bool {
    is_on_plane(v0.z - z) && is_on_plane(v1.z - z) && is_on_plane(v2.z - z)
}

/// Where the walk round the triangle goes down: the point left by the
/// first edge that ends on a lower side of the plane than it begins.
pub open spec fn descent_point(v0: Point3, v1: Point3, v2: Point3, z: int) -> Point2 {
    if descends(v0, v1, z) {
        edge_point(v0, v1, z)
    } else if descends(v1, v2, z) {
        edge_point(v1, v2, z)
    } else {
        edge_point(v2, v0, z)
    }
}

/// Where the walk round the triangle comes up: the point left by the
/// first edge that ends on a higher side of the plane than it begins.
pub open spec fn ascent_point(v0: Point3, v1: Point3, v2: Point3, z: int) -> Point2 {
    if ascends(v0, v1, z) {
        edge_point(v0, v1, z)
    } else if ascends(v1, v2, z) {
        edge_point(v1, v2, z)
    } else {
        edge_point(v2, v0, z)
    }
}

/// The segment along which the triangle is cut by the plane at height
/// `z`. A triangle clear of the plane or flat in it leaves none; any
/// other leaves one exactly where its edges leave two distinct points.
/// These two are then the point where the walk round the triangle goes
/// down and the point where it comes up, and the segment runs from the
/// first to the second.
pub open spec fn triangle_section(v0: Point3, v1: Point3, v2: Point3, z: int) -> Option<
    LineSegment2D,
> {
    if clear_of_plane(v0, v1, v2, z) || flat_in_plane(v0, v1, v2, z) {
        None
    } else if merge_near(triangle_trace(v0, v1, v2, z)).len() == 2 {
        Some(
            LineSegment2D {
                start: descent_point(v0, v1, v2, z),
                end: ascent_point(v0, v1, v2, z),
            },
        )
    } else {
        None
    }
}

/// The same pair of points, whichever of them is named first.
pub open spec fn same_pair(points: Seq<Point2>, a: Point2, b: Point2) -> bool {
    points =~= seq![a, b] || points =~= seq![b, a]
}

/// An edge that runs from one side of the plane to the other is cut
/// between its ends.
pub proof fn lemma_cut_between_ends(a: int, b: int, da: int, db: int)
    requires
        (da > 0 && db < 0) || (da < 0 && db > 0),
    ensures
        a <= b ==> a <= cut_coordinate(a, b, da, db) <= b,
        b <= a ==> b <= cut_coordinate(a, b, da, db) <= a,
{
    let w = b - a;
    let p = if da > 0 { da } else { -da };
    let d = if da > 0 { da - db } else { db - da };
    assert(0 < p < d);
    assert(floor_div(da * w, da - db) == floor_div(p * w, d)) by {
        if da < 0 {
            assert(-(da * w) == p * w) by (nonlinear_arith)
                requires
                    p == -da,
            ;
        }
    }
    let q = floor_div(p * w, d);
    lemma_floor_div_bounds(p * w, d);
    if w >= 0 {
        assert(0 <= p * w <= d * w) by (nonlinear_arith)
            requires
                0 < p < d,
                w >= 0,
        ;
        if q < 0 {
            assert((q + 1) * d <= 0) by (nonlinear_arith)
                requires
                    q + 1 <= 0,
                    d > 0,
            ;
        }
        if q > w {
            assert(q * d >= (w + 1) * d) by (nonlinear_arith)
                requires
                    q >= w + 1,
                    d > 0,
            ;
            assert((w + 1) * d == d * w + d) by (nonlinear_arith);
        }
    } else {
        assert(d * w <= p * w < 0) by (nonlinear_arith)
            requires
                0 < p < d,
                w < 0,
        ;
        if q < w {
            assert((q + 1) * d <= w * d) by (nonlinear_arith)
                requires
                    q + 1 <= w,
                    d > 0,
            ;
            assert(w * d == d * w) by (nonlinear_arith);
        }
        if q >= 0 {
            assert(q * d >= 0) by (nonlinear_arith)
                requires
                    q >= 0,
                    d > 0,
            ;
        }
    }
}

/// The cut of an edge is the same whichever end the edge is walked from.
pub proof fn lemma_cut_coordinate_symmetric(a: int, b: int, da: int, db: int)
    requires
        da != db,
    ensures
        cut_coordinate(a, b, da, db) == cut_coordinate(b, a, db, da),
{
    let w = b - a;
    let d = da - db;
    assert(db * (a - b) == -(db * w)) by (nonlinear_arith)
        requires
            w == b - a,
    ;
    assert(floor_div(db * (a - b), db - da) == floor_div(db * w, d));
    assert(db * w == da * w + (-w) * d) by (nonlinear_arith)
        requires
            d == da - db,
    ;
    lemma_floor_div_shift(da * w, d, -w);
}

/// Two triangles that share an edge find the same point on it, whichever
/// way round each of them walks it.
pub proof fn lemma_cut_point_symmetric(va: Point3, vb: Point3, z: int)
    requires
        va.z != vb.z,
    ensures
        cut_point(va, vb, z) == cut_point(vb, va, z),
{
    lemma_cut_coordinate_symmetric(va.x as int, vb.x as int, va.z - z, vb.z - z);
    lemma_cut_coordinate_symmetric(va.y as int, vb.y as int, va.z - z, vb.z - z);
}

/// One point stays one point.
proof fn lemma_merge_one(a: Point2)
    ensures
        merge_near(seq![a]) == seq![a],
{
    let one = seq![a];
    assert(one.drop_last() =~= Seq::<Point2>::empty());
    assert(merge_near(Seq::<Point2>::empty()) =~= Seq::<Point2>::empty());
    assert(!near_any(Seq::<Point2>::empty(), a));
    assert(Seq::<Point2>::empty().push(a) =~= one);
}

/// Two points merge to one where they are near, and stay two where they
/// are not.
proof fn lemma_merge_pair(a: Point2, b: Point2)
    ensures
        merge_near(seq![a, b]) == if b.near_on_axes(a, EPSILON as int) {
            seq![a]
        } else {
            seq![a, b]
        },
{
    let pair = seq![a, b];
    let one = seq![a];
    lemma_merge_one(a);
    assert(pair.drop_last() =~= one);
    assert(one[0] == a);
    assert(near_any(one, b) == b.near_on_axes(a, EPSILON as int));
    assert(one.push(b) =~= pair);
}

/// A third point that is one of the first two again adds nothing.
proof fn lemma_merge_with_repeat(a: Point2, b: Point2, c: Point2)
    requires
        c == a || c == b,
    ensures
        merge_near(seq![a, b, c]) == merge_near(seq![a, b]),
{
    let all = seq![a, b, c];
    let pair = seq![a, b];
    lemma_merge_pair(a, b);
    assert(all.drop_last() =~= pair);
    let kept = merge_near(pair);
    assert(c.near_on_axes(c, EPSILON as int));
    if c == a {
        assert(kept[0] == a);
    } else if b.near_on_axes(a, EPSILON as int) {
        assert(kept[0] == a);
        assert(c.near_on_axes(a, EPSILON as int));
    } else {
        assert(kept[1] == b);
    }
    assert(near_any(kept, c));
}

/// A triangle neither clear of the plane nor flat in it is cut from
/// where the walk round it goes down to where the walk comes up, unless
/// the two places are too near each other to be told apart; and where
/// it is cut, these two places are the distinct points its edges leave.
pub proof fn lemma_section_is(v0: Point3, v1: Point3, v2: Point3, z: int)
    requires
        !clear_of_plane(v0, v1, v2, z),
        !flat_in_plane(v0, v1, v2, z),
    ensures
        triangle_section(v0, v1, v2, z) == if ascent_point(v0, v1, v2, z).near_on_axes(
            descent_point(v0, v1, v2, z),
            EPSILON as int,
        ) {
            None
        } else {
            Some(
                LineSegment2D {
                    start: descent_point(v0, v1, v2, z),
                    end: ascent_point(v0, v1, v2, z),
                },
            )
        },
        triangle_section(v0, v1, v2, z) is Some ==> same_pair(
            merge_near(triangle_trace(v0, v1, v2, z)),
            descent_point(v0, v1, v2, z),
            ascent_point(v0, v1, v2, z),
        ),
{
    let down = descent_point(v0, v1, v2, z);
    let up = ascent_point(v0, v1, v2, z);
    let (p, q, r) = (edge_point(v0, v1, z), edge_point(v1, v2, z), edge_point(v2, v0, z));
    let (a, b, c) = (touches_plane(v0, v1, z), touches_plane(v1, v2, z), touches_plane(v2, v0, z));
    let trace = triangle_trace(v0, v1, v2, z);
    assert(down.near_on_axes(down, EPSILON as int));
    if a && b && c {
        // All three edges leave a point: a corner lies in the plane, and
        // the two edges that meet in it leave the same point.
        assert(trace =~= seq![p, q, r]);
        if r == p || r == q {
            lemma_merge_with_repeat(p, q, r);
            lemma_merge_pair(p, q);
        } else {
            // Then the first two edges meet in a corner in the plane.
            assert(p == q);
            lemma_merge_pair(p, q);
            assert(seq![p, q, r].drop_last() =~= seq![p, q]);
            let kept = merge_near(seq![p, q]);
            assert(kept =~= seq![p]);
            assert(kept[0] == p);
            assert(near_any(kept, r) == r.near_on_axes(p, EPSILON as int));
            assert(kept.push(r) =~= seq![p, r]);
        }
    } else if a && b {
        assert(trace =~= seq![p, q]);
        lemma_merge_pair(p, q);
    } else if b && c {
        assert(trace =~= seq![q, r]);
        lemma_merge_pair(q, r);
    } else if a && c {
        assert(trace =~= seq![p, r]);
        lemma_merge_pair(p, r);
    }
}

/// The cut of a triangle does not depend on which corner the triangle
/// is listed from.
pub proof fn lemma_section_ignores_first_corner(v0: Point3, v1: Point3, v2: Point3, z: int)
    ensures
        triangle_section(v1, v2, v0, z) == triangle_section(v0, v1, v2, z),
{
    if !clear_of_plane(v0, v1, v2, z) && !flat_in_plane(v0, v1, v2, z) {
        lemma_section_is(v0, v1, v2, z);
        lemma_section_is(v1, v2, v0, z);
    }
}

/// The point an edge leaves in the plane is the same whichever end the
/// edge is walked from, unless both its ends lie in the plane.
pub proof fn lemma_edge_point_symmetric(va: Point3, vb: Point3, z: int)
    requires
        side(va.z - z) != side(vb.z - z),
    ensures
        edge_point(va, vb, z) == edge_point(vb, va, z),
{
    if !is_on_plane(va.z - z) && !is_on_plane(vb.z - z) {
        lemma_cut_point_symmetric(va, vb, z);
    }
}

/// A triangle listed the other way round is seen from the other side,
/// and its cut runs the other way.
pub proof fn lemma_section_reverses_with_winding(v0: Point3, v1: Point3, v2: Point3, z: int)
    ensures
        triangle_section(v0, v2, v1, z) == match triangle_section(v0, v1, v2, z) {
            Some(s) => Some(s.reversed()),
            None => None,
        },
{
    if !clear_of_plane(v0, v1, v2, z) && !flat_in_plane(v0, v1, v2, z) {
        lemma_section_is(v0, v1, v2, z);
        lemma_section_is(v0, v2, v1, z);
        if side(v0.z - z) != side(v1.z - z) {
            lemma_edge_point_symmetric(v0, v1, z);
        }
        if side(v1.z - z) != side(v2.z - z) {
            lemma_edge_point_symmetric(v1, v2, z);
        }
        if side(v2.z - z) != side(v0.z - z) {
            lemma_edge_point_symmetric(v2, v0, z);
        }
    }
}

/// A triangle entirely above the plane, or entirely below it, leaves
/// nothing in it.
pub proof fn lemma_clear_triangle_has_no_section(v0: Point3, v1: Point3, v2: Point3, z: int)
    requires
        clear_of_plane(v0, v1, v2, z),
    ensures
        triangle_section(v0, v1, v2, z) is None,
        triangle_trace(v0, v1, v2, z).len() == 0,
{
}

/// `p` lies in the upright rectangle around the three corners, seen
/// from above.
pub open spec fn in_footprint(v0: Point3, v1: Point3, v2: Point3, p: Point2) -> bool {
    &&& (v0.x <= p.x || v1.x <= p.x || v2.x <= p.x)
    &&& (v0.x >= p.x || v1.x >= p.x || v2.x >= p.x)
    &&& (v0.y <= p.y || v1.y <= p.y || v2.y <= p.y)
    &&& (v0.y >= p.y || v1.y >= p.y || v2.y >= p.y)
}

/// The point an edge leaves in the plane lies between the ends of the
/// edge, seen from above.
pub proof fn lemma_edge_point_between_ends(va: Point3, vb: Point3, z: int)
    requires
        touches_plane(va, vb, z),
    ensures
        ({
            let p = edge_point(va, vb, z);
            &&& (va.x <= p.x <= vb.x || vb.x <= p.x <= va.x)
            &&& (va.y <= p.y <= vb.y || vb.y <= p.y <= va.y)
        }),
{
    let da = va.z - z;
    let db = vb.z - z;
    if straddle(da, db) {
        lemma_cut_between_ends(va.x as int, vb.x as int, da, db);
        lemma_cut_between_ends(va.y as int, vb.y as int, da, db);
    }
}

/// Merging drops points and makes none: every point kept was given.
pub proof fn lemma_merged_points_are_given(points: Seq<Point2>)
    ensures
        forall|i: int|
            0 <= i < merge_near(points).len() ==> exists|j: int|
                0 <= j < points.len() && points[j] == #[trigger] merge_near(points)[i],
    decreases points.len(),
{
    if points.len() > 0 {
        let front = points.drop_last();
        lemma_merged_points_are_given(front);
        let kept = merge_near(front);
        let now = merge_near(points);
        assert forall|i: int| 0 <= i < now.len() implies exists|j: int|
            0 <= j < points.len() && points[j] == #[trigger] now[i] by {
            if i < kept.len() {
                assert(now[i] == kept[i]);
                let j = choose|j: int| 0 <= j < front.len() && front[j] == kept[i];
                assert(points[j] == now[i]);
            } else {
                assert(points[points.len() - 1] == now[i]);
            }
        }
    }
}

/// After merging, no two points are near each other, and the first
/// point given is the first point kept.
pub proof fn lemma_merged_points_are_apart(points: Seq<Point2>)
    ensures
        merge_near(points).len() <= points.len(),
        points.len() > 0 ==> merge_near(points).len() > 0 && merge_near(points)[0] == points[0],
        forall|i: int, j: int|
            0 <= i < j < merge_near(points).len() ==> !(#[trigger] merge_near(points)[j])
                .near_on_axes(#[trigger] merge_near(points)[i], EPSILON as int),
    decreases points.len(),
{
    if points.len() > 0 {
        let front = points.drop_last();
        lemma_merged_points_are_apart(front);
        let kept = merge_near(front);
        let now = merge_near(points);
        if front.len() == 0 {
            assert(!near_any(kept, points.last()));
        }
        assert forall|i: int, j: int| 0 <= i < j < now.len() implies !(#[trigger] now[j])
            .near_on_axes(#[trigger] now[i], EPSILON as int) by {
            if j < kept.len() {
                assert(now[i] == kept[i] && now[j] == kept[j]);
            } else {
                assert(!near_any(kept, points.last()));
                assert(now[i] == kept[i]);
            }
        }
    }
}

/// A cut never leaves the footprint of its triangle, and its two ends
/// are never one place: they differ by at least `EPSILON` along some
/// axis.
pub proof fn lemma_section_within_footprint(v0: Point3, v1: Point3, v2: Point3, z: int)
    ensures
        triangle_section(v0, v1, v2, z) matches Some(s) ==> {
            &&& in_footprint(v0, v1, v2, s.start)
            &&& in_footprint(v0, v1, v2, s.end)
            &&& !s.end.near_on_axes(s.start, EPSILON as int)
        },
{
    if !clear_of_plane(v0, v1, v2, z) && !flat_in_plane(v0, v1, v2, z) {
        lemma_section_is(v0, v1, v2, z);
        if touches_plane(v0, v1, z) {
            lemma_edge_point_between_ends(v0, v1, z);
        }
        if touches_plane(v1, v2, z) {
            lemma_edge_point_between_ends(v1, v2, z);
        }
        if touches_plane(v2, v0, z) {
            lemma_edge_point_between_ends(v2, v0, z);
        }
    }
}

/// One coordinate of the cut of an edge whose ends are on opposite sides
/// of the plane.
fn cut_edge_coordinate(a: i32, b: i32, da: i128, db: i128) -> (c: i32)
    requires
        (da > 0 && db < 0) || (da < 0 && db > 0),
        -0xffff_ffff <= da - db <= 0xffff_ffff,
    ensures
        c == cut_coordinate(a as int, b as int, da as int, db as int),
{
    let w: i128 = b as i128 - a as i128;
    let p: i128 = if da > 0 {
        da
    } else {
        -da
    };
    let d: i128 = if da > 0 {
        da - db
    } else {
        db - da
    };
    proof {
        lemma_cut_between_ends(a as int, b as int, da as int, db as int);
        assert(-0xffff_ffff * 0xffff_ffff <= p * w <= 0xffff_ffff * 0xffff_ffff)
            by (nonlinear_arith)
            requires
                0 < p <= 0xffff_ffff,
                -0xffff_ffff <= w <= 0xffff_ffff,
        ;
        if da < 0 {
            assert(-(da * w) == p * w) by (nonlinear_arith)
                requires
                    p == -da,
            ;
        }
        assert(floor_div(da * w, da - db) == floor_div(p * w, d as int));
    }
    let q: i128 = floor_quotient(p * w, d);
    (a as i128 + q) as i32
}

/// The point at which the edge from `va` to `vb` pierces the plane.
fn cut_edge(va: &Point3, vb: &Point3, z: i64) -> (p: Point2)
    requires
        straddle(va.z - z, vb.z - z),
    ensures
        p == cut_point(*va, *vb, z as int),
{
    let da: i128 = va.z as i128 - z as i128;
    let db: i128 = vb.z as i128 - z as i128;
    Point2 { x: cut_edge_coordinate(va.x, vb.x, da, db), y: cut_edge_coordinate(va.y, vb.y, da, db) }
}

/// The side of the plane a signed distance lies on.
fn side_of(d: i128) -> (s: i8)
    ensures
        s == side(d as int),
{
    let eps: i128 = EPSILON as i128;
    if d > eps {
        1
    } else if d < -eps {
        -1
    } else {
        0
    }
}

/// The point that the edge from `va` to `vb` leaves in the plane.
fn point_of_edge(va: &Point3, vb: &Point3, z: i64) -> (p: Point2)
    requires
        touches_plane(*va, *vb, z as int),
    ensures
        p == edge_point(*va, *vb, z as int),
{
    let sa: i8 = side_of(va.z as i128 - z as i128);
    let sb: i8 = side_of(vb.z as i128 - z as i128);
    if sa == 0 {
        va.xy()
    } else if sb == 0 {
        vb.xy()
    } else {
        cut_edge(va, vb, z)
    }
}

/// Whether the edge goes down, and whether it comes up.
fn edge_course(va: &Point3, vb: &Point3, z: i64) -> (r: (bool, bool))
    ensures
        r.0 == descends(*va, *vb, z as int),
        r.1 == ascends(*va, *vb, z as int),
        r.0 || r.1 ==> touches_plane(*va, *vb, z as int),
{
    let sa: i8 = side_of(va.z as i128 - z as i128);
    let sb: i8 = side_of(vb.z as i128 - z as i128);
    (sa > sb, sa < sb)
}

/// Adds to `found` what the edge from `va` to `vb` leaves in the plane.
fn trace_edge(va: &Point3, vb: &Point3, z: i64, found: &mut Vec<Point2>)
    ensures
        final(found)@ == old(found)@ + edge_trace(*va, *vb, z as int),
{
    let sa: i8 = side_of(va.z as i128 - z as i128);
    let sb: i8 = side_of(vb.z as i128 - z as i128);
    if sa == sb && sa != 0 {
        assert(found@ + Seq::<Point2>::empty() =~= found@);
    } else {
        let p: Point2 = point_of_edge(va, vb, z);
        found.push(p);
        assert(old(found)@.push(p) =~= old(found)@ + seq![p]);
    }
}

/// Whether `p` is near any point of `kept`.
fn is_near_any(kept: &Vec<Point2>, p: &Point2) -> (b: bool)
    ensures
        b == near_any(kept@, *p),
{
    let mut i: usize = 0;
    while i < kept.len()
        invariant
            0 <= i <= kept@.len(),
            forall|j: int| 0 <= j < i ==> !p.near_on_axes(#[trigger] kept@[j], EPSILON as int),
        decreases kept@.len() - i,
    {
        if p.is_near_on_axes(&kept[i], EPSILON) {
            return true;
        }
        i = i + 1;
    }
    false
}

/// The distinct points of `points`, each in the place where it first
/// occurs.
fn merge_near_points(points: &Vec<Point2>) -> (kept: Vec<Point2>)
    ensures
        kept@ == merge_near(points@),
{
    let mut kept: Vec<Point2> = Vec::new();
    let mut i: usize = 0;
    while i < points.len()
        invariant
            0 <= i <= points.len(),
            kept@ == merge_near(points@.take(i as int)),
        decreases points.len() - i,
    {
        let p: Point2 = points[i];
        assert(points@.take(i as int + 1).drop_last() =~= points@.take(i as int));
        assert(points@.take(i as int + 1).last() == p);
        if !is_near_any(&kept, &p) {
            kept.push(p);
        }
        i = i + 1;
    }
    assert(points@.take(i as int) =~= points@);
    kept
}

/// Where the walk round the triangle goes down and where it comes up.
fn turning_points(v0: &Point3, v1: &Point3, v2: &Point3, z: i64) -> (r: (Point2, Point2))
    requires
        !clear_of_plane(*v0, *v1, *v2, z as int),
        !flat_in_plane(*v0, *v1, *v2, z as int),
    ensures
        r.0 == descent_point(*v0, *v1, *v2, z as int),
        r.1 == ascent_point(*v0, *v1, *v2, z as int),
{
    let first: (bool, bool) = edge_course(v0, v1, z);
    let second: (bool, bool) = edge_course(v1, v2, z);
    let third: (bool, bool) = edge_course(v2, v0, z);
    let down: Point2 = if first.0 {
        point_of_edge(v0, v1, z)
    } else if second.0 {
        point_of_edge(v1, v2, z)
    } else {
        point_of_edge(v2, v0, z)
    };
    let up: Point2 = if first.1 {
        point_of_edge(v0, v1, z)
    } else if second.1 {
        point_of_edge(v1, v2, z)
    } else {
        point_of_edge(v2, v0, z)
    };
    (down, up)
}

/// Cuts the triangle with corners `v0`, `v1`, `v2` by the plane at height
/// `z`.
pub fn cut_triangle(v0: &Point3, v1: &Point3, v2: &Point3, z: i64) -> (s: Option<LineSegment2D>)
    ensures
        s == triangle_section(*v0, *v1, *v2, z as int),
{
    let s0: i8 = side_of(v0.z as i128 - z as i128);
    let s1: i8 = side_of(v1.z as i128 - z as i128);
    let s2: i8 = side_of(v2.z as i128 - z as i128);
    if s0 == s1 && s1 == s2 {
        // Clear of the plane, or flat in it.
        return None;
    }
    let mut found: Vec<Point2> = Vec::new();
    trace_edge(v0, v1, z, &mut found);
    trace_edge(v1, v2, z, &mut found);
    trace_edge(v2, v0, z, &mut found);
    assert(found@ =~= triangle_trace(*v0, *v1, *v2, z as int));
    let kept: Vec<Point2> = merge_near_points(&found);
    if kept.len() != 2 {
        return None;
    }
    let (down, up): (Point2, Point2) = turning_points(v0, v1, v2, z);
    Some(LineSegment2D { start: down, end: up })
}

} // verus!
