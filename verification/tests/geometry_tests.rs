//! Cutting single triangles.

use rustslicer::geometry::plane::cut_triangle;
use rustslicer::geometry::{LineSegment2D, Mesh, Point2, Point3, Triangle, Vector3};
use rustslicer::units::{EPSILON, UNITS_PER_MM};

fn mm(x: f64) -> i32 {
    (x * UNITS_PER_MM as f64).round() as i32
}

fn height(z: f64) -> i64 {
    (z * UNITS_PER_MM as f64).round() as i64
}

fn at3(x: f64, y: f64, z: f64) -> Point3 {
    Point3::new(mm(x), mm(y), mm(z))
}

#[test]
fn geometry_tests_test_triangle_plane_intersection() {
    let v0 = at3(0.0, 0.0, 0.0);
    let v1 = at3(10.0, 0.0, 0.0);
    let v2 = at3(5.0, 10.0, 10.0);

    let result = cut_triangle(&v0, &v1, &v2, height(5.0));
    assert!(result.is_some());

    let result = cut_triangle(&v0, &v1, &v2, height(20.0));
    assert!(result.is_none());
}

#[test]
fn test_triangle_vertices() {
    let mesh = Mesh::new(
        vec![at3(0.0, 0.0, 0.0), at3(1.0, 0.0, 0.0), at3(0.0, 1.0, 0.0)],
        vec![Triangle { vertices: [0, 1, 2], normal: Vector3::new(0, 0, 1_000_000) }],
    )
    .unwrap();
    let triangle = mesh.triangles()[0];
    let corners = mesh.get_triangle_vertices(&triangle);

    assert_eq!(corners.len(), 3);
    assert_eq!(corners[0], at3(0.0, 0.0, 0.0));
    assert_eq!(corners[1], at3(1.0, 0.0, 0.0));
    assert_eq!(corners[2], at3(0.0, 1.0, 0.0));
}

#[test]
fn cut_runs_from_the_edge_that_goes_down_to_the_edge_that_comes_up() {
    let v0 = at3(0.0, 0.0, 0.0);
    let v1 = at3(10.0, 0.0, 0.0);
    let v2 = at3(5.0, 10.0, 10.0);
    // The edge v0-v1 lies below the plane; v1-v2 comes up, v2-v0 goes down.
    let cut = cut_triangle(&v0, &v1, &v2, height(5.0)).unwrap();
    assert_eq!(
        cut,
        LineSegment2D { start: Point2::new(mm(2.5), mm(5.0)), end: Point2::new(mm(7.5), mm(5.0)) }
    );
}

#[test]
fn cut_does_not_depend_on_the_corner_listed_first() {
    let a = Point3::new(17, -23, -1_000);
    let b = Point3::new(-101, 57, 2_001);
    let c = Point3::new(-500, 900, 5_000);
    for z in [-900i64, -1, 0, 500, 1_990, 2_500, 4_000] {
        let cut = cut_triangle(&a, &b, &c, z);
        assert!(cut.is_some(), "at height {}", z);
        assert_eq!(cut_triangle(&b, &c, &a, z), cut, "at height {}", z);
        assert_eq!(cut_triangle(&c, &a, &b, z), cut, "at height {}", z);
    }
    // Nor where corners lie in the plane, or the plane only just touches.
    for z in -1_010i64..5_010 {
        let cut = cut_triangle(&a, &b, &c, z);
        assert_eq!(cut_triangle(&b, &c, &a, z), cut, "at height {}", z);
        assert_eq!(cut_triangle(&c, &a, &b, z), cut, "at height {}", z);
        let mirrored = cut.map(|s| s.reverse());
        assert_eq!(cut_triangle(&a, &c, &b, z), mirrored, "at height {}", z);
    }
}

#[test]
fn triangle_seen_from_the_other_side_is_cut_the_other_way() {
    let a = Point3::new(17, -23, -1_000);
    let b = Point3::new(-101, 57, 2_001);
    let c = Point3::new(-500, 900, 5_000);
    for z in [-900i64, -1, 0, 500, 1_990, 2_500, 4_000] {
        let cut = cut_triangle(&a, &b, &c, z).unwrap();
        assert_eq!(cut_triangle(&a, &c, &b, z), Some(cut.reverse()), "at height {}", z);
        assert_eq!(cut.reverse().reverse(), cut);
    }
}

#[test]
fn solid_lies_to_the_left_of_the_cut() {
    // A wall along the x-axis, seen from the side of negative y: the solid is behind it.
    let low_left = Point3::new(0, 0, 0);
    let low_right = Point3::new(1_000, 0, 0);
    let high_right = Point3::new(1_000, 0, 1_000);
    let high_left = Point3::new(0, 0, 1_000);
    for (a, b, c) in [(low_left, low_right, high_right), (low_left, high_right, high_left)] {
        let cut = cut_triangle(&a, &b, &c, 500).unwrap();
        assert!(cut.start.x < cut.end.x);
        assert_eq!((cut.start.y, cut.end.y), (0, 0));
    }
}

#[test]
fn cut_point_is_rounded_down_on_both_axes() {
    // From (0, 0, 0) to (10, -10, 3), cut at height 1: a third of the way.
    let v0 = Point3::new(0, 0, 0);
    let v1 = Point3::new(10, -10, 3 * 100);
    let v2 = Point3::new(0, 0, 3 * 100);
    let cut = cut_triangle(&v0, &v1, &v2, 100).unwrap();
    assert_eq!(cut.start, Point2::new(0, 0));
    assert_eq!(cut.end, Point2::new(3, -4));
}

#[test]
fn shared_edge_is_cut_alike_from_both_sides() {
    let a = Point3::new(17, -23, -1_000);
    let b = Point3::new(-101, 57, 2_001);
    let left = Point3::new(-500, 0, 5_000);
    let right = Point3::new(500, 0, 5_000);
    for z in [-900i64, -333, -1, 0, 7, 500, 1_234, 1_990] {
        // One triangle walks the edge from a to b, its neighbour from b to a:
        // where the cut of the one ends, that of the other begins.
        let one = cut_triangle(&a, &b, &left, z).unwrap();
        let other = cut_triangle(&b, &a, &right, z).unwrap();
        assert_eq!(one.end, other.start, "at height {}", z);
    }
}

#[test]
fn triangle_clear_of_the_plane_leaves_nothing() {
    let v0 = Point3::new(0, 0, 10);
    let v1 = Point3::new(50, 0, 20);
    let v2 = Point3::new(0, 50, 30);
    // The lowest corner is more than EPSILON above, the highest more than EPSILON below.
    assert!(cut_triangle(&v0, &v1, &v2, 10 - EPSILON - 1).is_none());
    assert!(cut_triangle(&v0, &v1, &v2, 30 + EPSILON + 1).is_none());
    assert!(cut_triangle(&v0, &v1, &v2, i64::MIN).is_none());
    assert!(cut_triangle(&v0, &v1, &v2, i64::MAX).is_none());
}

#[test]
fn triangle_flat_in_the_plane_leaves_nothing() {
    let v0 = Point3::new(0, 0, 100);
    let v1 = Point3::new(50, 0, 101);
    let v2 = Point3::new(0, 50, 99);
    assert!(cut_triangle(&v0, &v1, &v2, 100).is_none());
    assert!(cut_triangle(&v0, &v1, &v2, 100 + EPSILON - 1).is_none());
}

#[test]
fn corner_within_epsilon_counts_as_in_the_plane() {
    let v0 = Point3::new(0, 0, 0);
    let v1 = Point3::new(100_000, 0, 1_000);
    let v2 = Point3::new(0, 100_000, 1_000);
    // v0 alone in the plane: its two edges both leave v0 itself, one point in all.
    assert!(cut_triangle(&v0, &v1, &v2, 0).is_none());
    assert!(cut_triangle(&v0, &v1, &v2, EPSILON).is_none());
    assert!(cut_triangle(&v0, &v1, &v2, -EPSILON).is_none());
    assert!(cut_triangle(&v0, &v1, &v2, -EPSILON - 1).is_none());
    // One unit further up v0 is below, and the triangle is cut.
    assert_eq!(
        cut_triangle(&v0, &v1, &v2, EPSILON + 1),
        Some(LineSegment2D { start: Point2::new(0, 300), end: Point2::new(300, 0) })
    );
}

#[test]
fn edge_in_the_plane_is_the_cut_whichever_corner_comes_first() {
    let low = Point3::new(0, 0, 0);
    let a = Point3::new(100, 0, 1_000);
    let b = Point3::new(0, 100, 1_000);
    // The edges leave a, a and b in some order: a is counted once, a and b remain.
    let cut = Some(LineSegment2D { start: Point2::new(0, 100), end: Point2::new(100, 0) });
    assert_eq!(cut_triangle(&low, &a, &b, 1_000), cut);
    assert_eq!(cut_triangle(&b, &low, &a, 1_000), cut);
    assert_eq!(cut_triangle(&a, &b, &low, 1_000), cut);
    // With the third corner above, the solid lies on the other side of the edge.
    let high = Point3::new(0, 0, 2_000);
    let back = Some(LineSegment2D { start: Point2::new(100, 0), end: Point2::new(0, 100) });
    assert_eq!(cut_triangle(&high, &a, &b, 1_000), back);
    assert_eq!(cut_triangle(&b, &high, &a, 1_000), back);
    assert_eq!(cut_triangle(&a, &b, &high, 1_000), back);
}

#[test]
fn corner_in_the_plane_between_two_sides_is_one_end_of_the_cut() {
    let on = Point3::new(0, 0, 500);
    let above = Point3::new(100, 0, 1_000);
    let below = Point3::new(0, 100, 0);
    // The corner is left by two edges and counted once: the cut runs from the
    // pierced edge, which goes down, to the corner.
    let cut = Some(LineSegment2D { start: Point2::new(50, 50), end: Point2::new(0, 0) });
    assert_eq!(cut_triangle(&on, &above, &below, 500), cut);
    assert_eq!(cut_triangle(&above, &below, &on, 500), cut);
    assert_eq!(cut_triangle(&below, &on, &above, 500), cut);

    // In millimetres: a corner at the origin, one 2 mm up, one 2 mm down.
    let origin = at3(0.0, 0.0, 0.0);
    let up = at3(4.0, 0.0, 2.0);
    let down = at3(0.0, 4.0, -2.0);
    let cut = Some(LineSegment2D {
        start: Point2::new(mm(2.0), mm(2.0)),
        end: Point2::new(0, 0),
    });
    assert_eq!(cut_triangle(&origin, &up, &down, 0), cut);
    assert_eq!(cut_triangle(&up, &down, &origin, 0), cut);
    assert_eq!(cut_triangle(&down, &origin, &up, 0), cut);
}

#[test]
fn wall_standing_on_the_plane_leaves_its_foot() {
    let left = at3(0.0, 0.0, 0.0);
    let right = at3(10.0, 0.0, 0.0);
    let top = at3(10.0, 0.0, 10.0);
    let foot = Some(LineSegment2D { start: Point2::new(0, 0), end: Point2::new(mm(10.0), 0) });
    for z in [-EPSILON, 0, EPSILON] {
        assert_eq!(cut_triangle(&left, &right, &top, z), foot, "at height {}", z);
        assert_eq!(cut_triangle(&right, &top, &left, z), foot, "at height {}", z);
        assert_eq!(cut_triangle(&top, &left, &right, z), foot, "at height {}", z);
    }
    // The other half of the wall touches the plane in one corner only.
    let top_left = at3(0.0, 0.0, 10.0);
    assert_eq!(cut_triangle(&left, &top, &top_left, 0), None);
    assert_eq!(cut_triangle(&top, &top_left, &left, 0), None);
}

#[test]
fn near_points_are_one_point() {
    // Two pierced points less than EPSILON apart on both axes: one point, no segment.
    let v0 = Point3::new(0, 0, 0);
    let v1 = Point3::new(1, 0, 1_000);
    let v2 = Point3::new(0, 1, 1_000);
    assert_eq!(cut_triangle(&v0, &v1, &v2, 500), None);
}

#[test]
fn mesh_cut_keeps_the_order_of_the_triangles() {
    let mesh = Mesh::new(
        vec![
            Point3::new(0, 0, 0),
            Point3::new(100, 0, 0),
            Point3::new(100, 0, 100),
            Point3::new(0, 0, 100),
            Point3::new(0, 50, 200),
        ],
        vec![
            Triangle { vertices: [0, 1, 2], normal: Vector3::new(0, -1, 0) },
            Triangle { vertices: [2, 3, 4], normal: Vector3::new(0, -1, 0) },
            Triangle { vertices: [0, 2, 3], normal: Vector3::new(0, -1, 0) },
        ],
    )
    .unwrap();
    let cut = mesh.intersect(50);
    assert_eq!(
        cut,
        vec![
            LineSegment2D { start: Point2::new(50, 0), end: Point2::new(100, 0) },
            LineSegment2D { start: Point2::new(0, 0), end: Point2::new(50, 0) },
        ]
    );
    assert_eq!(
        mesh.intersect(150),
        vec![LineSegment2D { start: Point2::new(50, 25), end: Point2::new(0, 25) }]
    );
    assert!(mesh.intersect(1_000).is_empty());
    // In the plane of the shared top edge, each of the two lower triangles leaves it.
    assert_eq!(
        mesh.intersect(100),
        vec![
            LineSegment2D { start: Point2::new(100, 0), end: Point2::new(0, 0) },
            LineSegment2D { start: Point2::new(0, 0), end: Point2::new(100, 0) },
        ]
    );
    assert_eq!(mesh.triangle_count(), 3);
    assert_eq!(mesh.vertex_count(), 5);
}

#[test]
fn cut_stays_in_the_footprint_of_its_triangle_and_has_length() {
    let a = Point3::new(17, -23, -1_000);
    let b = Point3::new(-101, 57, 2_001);
    let c = Point3::new(-500, 900, 5_000);
    for z in (-1_010i64..5_010).step_by(7) {
        if let Some(cut) = cut_triangle(&a, &b, &c, z) {
            for p in [cut.start, cut.end] {
                assert!(-500 <= p.x && p.x <= 17, "at height {}", z);
                assert!(-23 <= p.y && p.y <= 900, "at height {}", z);
            }
            assert!(!cut.start.is_near_on_axes(&cut.end, EPSILON), "at height {}", z);
        }
    }
}
