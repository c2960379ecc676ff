//! The basic shapes: boxes, cuts of single triangles, areas, touching ends.

use rustslicer::geometry::{
    BoundingBox, ConnectionType, LineSegment2D, Mesh, Point2, Point3, Polygon, Triangle, Vector3,
};
use rustslicer::units::UNITS_PER_MM;

/// Millimetres to grid units.
fn mm(x: f64) -> i32 {
    (x * UNITS_PER_MM as f64).round() as i32
}

/// Millimetres to a height on the grid.
fn height(z: f64) -> i64 {
    (z * UNITS_PER_MM as f64).round() as i64
}

/// Square grid units to square millimetres.
fn mm2(area: i128) -> f64 {
    area as f64 / (UNITS_PER_MM as f64 * UNITS_PER_MM as f64)
}

fn at2(x: f64, y: f64) -> Point2 {
    Point2::new(mm(x), mm(y))
}

fn at3(x: f64, y: f64, z: f64) -> Point3 {
    Point3::new(mm(x), mm(y), mm(z))
}

#[test]
fn test_library_loads() {
    assert!(true);
}

#[test]
fn test_bounding_box() {
    let vertices = vec![at3(0.0, 0.0, 0.0), at3(1.0, 1.0, 1.0), at3(2.0, 2.0, 2.0)];

    let bbox = BoundingBox::from_vertices(&vertices);
    assert_eq!(bbox.min, at3(0.0, 0.0, 0.0));
    assert_eq!(bbox.max, at3(2.0, 2.0, 2.0));
}

#[test]
fn mod_test_triangle_plane_intersection() {
    let vertices = vec![at3(0.0, 0.0, 0.0), at3(10.0, 0.0, 5.0), at3(0.0, 10.0, 5.0)];

    let mesh = Mesh::new(
        vertices.clone(),
        vec![Triangle { vertices: [0, 1, 2], normal: Vector3::new(0, 0, 1_000_000) }],
    )
    .unwrap();

    let triangle = &mesh.triangles()[0];

    let segment = mesh.intersect_triangle_with_plane(triangle, height(2.5));
    assert!(segment.is_some());

    let no_intersection = mesh.intersect_triangle_with_plane(triangle, height(10.0));
    assert!(no_intersection.is_none());

    let no_intersection = mesh.intersect_triangle_with_plane(triangle, height(-1.0));
    assert!(no_intersection.is_none());
}

#[test]
fn test_polygon_area() {
    let square = Polygon::new(vec![at2(0.0, 0.0), at2(2.0, 0.0), at2(2.0, 2.0), at2(0.0, 2.0)]);

    assert!((mm2(square.area()) - 4.0).abs() < 0.001);
}

#[test]
fn test_line_segment_connection() {
    let seg1 = LineSegment2D { start: at2(0.0, 0.0), end: at2(1.0, 0.0) };
    let seg2 = LineSegment2D { start: at2(1.0, 0.0), end: at2(1.0, 1.0) };

    let connection = seg1.connects_to(&seg2, height(0.001));
    assert_eq!(connection, Some(ConnectionType::EndToStart));
}

#[test]
fn connection_prefers_own_end_and_other_start() {
    let tolerance = height(0.001);
    let a = LineSegment2D { start: at2(0.0, 0.0), end: at2(1.0, 0.0) };
    let end_to_end = LineSegment2D { start: at2(5.0, 5.0), end: at2(1.0, 0.0) };
    let start_to_start = LineSegment2D { start: at2(0.0, 0.0), end: at2(7.0, 7.0) };
    let start_to_end = LineSegment2D { start: at2(7.0, 7.0), end: at2(0.0, 0.0) };
    let apart = LineSegment2D { start: at2(7.0, 7.0), end: at2(8.0, 8.0) };
    let both = LineSegment2D { start: at2(1.0, 0.0), end: at2(0.0, 0.0) };

    assert_eq!(a.connects_to(&end_to_end, tolerance), Some(ConnectionType::EndToEnd));
    assert_eq!(a.connects_to(&start_to_start, tolerance), Some(ConnectionType::StartToStart));
    assert_eq!(a.connects_to(&start_to_end, tolerance), Some(ConnectionType::StartToEnd));
    assert_eq!(a.connects_to(&apart, tolerance), None);
    assert_eq!(a.connects_to(&both, tolerance), Some(ConnectionType::EndToStart));
}

#[test]
fn nothing_is_closer_than_zero() {
    let a = Point2::new(3, 4);
    assert!(!a.is_closer_than(&a, 0));
    assert!(!a.is_closer_than(&a, -5));
    assert!(a.is_closer_than(&a, 1));
}

#[test]
fn closeness_is_measured_along_the_straight_line() {
    let a = Point2::new(0, 0);
    let b = Point2::new(3, 4);
    assert!(!a.is_closer_than(&b, 5));
    assert!(a.is_closer_than(&b, 6));
    assert!(b.is_near_on_axes(&a, 5));
    assert!(!b.is_near_on_axes(&a, 4));
    assert_eq!(a.squared_distance_to(&b), 25);
}

#[test]
fn distance_is_rounded_down() {
    let a = Point2::new(0, 0);
    assert_eq!(a.distance_to(&Point2::new(3, 4)), 5);
    assert_eq!(a.distance_to(&Point2::new(1, 1)), 1);
    assert_eq!(a.distance_to(&Point2::new(2, 2)), 2);
    assert_eq!(a.distance_to(&Point2::new(0, 0)), 0);
    let far = Point2::new(i32::MIN, i32::MIN).distance_to(&Point2::new(i32::MAX, i32::MAX));
    assert_eq!(far, 6_074_000_998);
}

#[test]
fn box_around_nothing_is_the_origin() {
    let bbox = BoundingBox::from_vertices(&[]);
    assert_eq!(bbox.min, Point3::origin());
    assert_eq!(bbox.max, Point3::origin());
}

#[test]
fn box_takes_each_axis_by_itself() {
    let vertices = vec![Point3::new(5, -2, 9), Point3::new(-7, 4, 1), Point3::new(0, 0, 30)];
    let bbox = BoundingBox::from_vertices(&vertices);
    assert_eq!(bbox.min, Point3::new(-7, -2, 1));
    assert_eq!(bbox.max, Point3::new(5, 4, 30));
    assert_eq!(bbox.dimensions(), Vector3::new(12, 6, 29));
    assert_eq!(bbox.center(), Point3::new(-1, 1, 15));
}

#[test]
fn box_center_rounds_down_below_zero_too() {
    let bbox = BoundingBox { min: Point3::new(-4, -3, i32::MIN), max: Point3::new(-1, 0, i32::MIN) };
    assert_eq!(bbox.center(), Point3::new(-3, -2, i32::MIN));
    let wide = BoundingBox { min: Point3::new(i32::MIN, 0, 0), max: Point3::new(i32::MAX, 1, 0) };
    assert_eq!(wide.center(), Point3::new(-1, 0, 0));
    assert_eq!(wide.dimensions(), Vector3::new(4_294_967_295, 1, 0));
}

#[test]
fn polygon_of_two_points_has_no_area_and_no_winding() {
    let sliver = Polygon::new(vec![Point2::new(0, 0), Point2::new(10, 10)]);
    assert_eq!(sliver.area(), 0);
    assert_eq!(sliver.signed_area_doubled(), 0);
    assert!(!sliver.is_clockwise());
    assert!(!sliver.is_closed(1_000));
    assert!(!sliver.contains_point(&Point2::new(5, 5)));
}

#[test]
fn signed_area_tells_the_winding() {
    let ccw = Polygon::new(vec![Point2::new(0, 0), Point2::new(3, 0), Point2::new(0, 3)]);
    let cw = Polygon::new(vec![Point2::new(0, 0), Point2::new(0, 3), Point2::new(3, 0)]);
    assert_eq!(ccw.signed_area_doubled(), 9);
    assert_eq!(cw.signed_area_doubled(), -9);
    assert_eq!(ccw.area(), 4);
    assert_eq!(cw.area(), 4);
    assert!(!ccw.is_clockwise());
    assert!(cw.is_clockwise());
    assert!(ccw.is_counter_clockwise());
    assert!(!cw.is_counter_clockwise());
    let line = Polygon::new(vec![Point2::new(0, 0), Point2::new(5, 5), Point2::new(10, 10)]);
    assert!(!line.is_clockwise() && !line.is_counter_clockwise());
}

#[test]
fn area_stays_exact_at_the_edge_of_the_grid() {
    let all = Polygon::new(vec![
        Point2::new(i32::MIN, i32::MIN),
        Point2::new(i32::MAX, i32::MIN),
        Point2::new(i32::MAX, i32::MAX),
        Point2::new(i32::MIN, i32::MAX),
    ]);
    let side: i128 = 4_294_967_295;
    assert_eq!(all.area(), side * side);
    assert_eq!(all.signed_area_doubled(), 2 * side * side);
}

#[test]
fn is_closed_asks_for_three_points_and_a_return() {
    let open = Polygon::new(vec![Point2::new(0, 0), Point2::new(10, 0), Point2::new(10, 10)]);
    let shut = Polygon::new(vec![
        Point2::new(0, 0),
        Point2::new(10, 0),
        Point2::new(10, 10),
        Point2::new(0, 1),
    ]);
    assert!(!open.is_closed(2));
    assert!(shut.is_closed(2));
    assert!(!shut.is_closed(1));
}

#[test]
fn inside_and_outside_of_a_square() {
    let square = Polygon::new(vec![
        Point2::new(0, 0),
        Point2::new(10, 0),
        Point2::new(10, 10),
        Point2::new(0, 10),
    ]);
    assert!(square.contains_point(&Point2::new(5, 5)));
    assert!(square.contains_point(&Point2::new(1, 9)));
    assert!(!square.contains_point(&Point2::new(11, 5)));
    assert!(!square.contains_point(&Point2::new(-1, 5)));
    assert!(!square.contains_point(&Point2::new(5, 11)));
    assert!(!square.contains_point(&Point2::new(5, -1)));
    // The lower and left borders belong to the square, the upper and right do not.
    assert!(square.contains_point(&Point2::new(0, 5)));
    assert!(square.contains_point(&Point2::new(5, 0)));
    assert!(!square.contains_point(&Point2::new(10, 5)));
    assert!(!square.contains_point(&Point2::new(5, 10)));
}

#[test]
fn inside_of_a_notched_shape() {
    // A "U": the notch between the two arms is outside.
    let u = Polygon::new(vec![
        Point2::new(0, 0),
        Point2::new(30, 0),
        Point2::new(30, 30),
        Point2::new(20, 30),
        Point2::new(20, 10),
        Point2::new(10, 10),
        Point2::new(10, 30),
        Point2::new(0, 30),
    ]);
    assert!(u.contains_point(&Point2::new(5, 20)));
    assert!(u.contains_point(&Point2::new(25, 20)));
    assert!(!u.contains_point(&Point2::new(15, 20)));
    assert!(u.contains_point(&Point2::new(15, 5)));
    assert_eq!(u.area(), 700);
}

#[test]
fn rectangle_around_a_polygon() {
    let empty = Polygon::new(vec![]);
    assert_eq!(empty.bounding_box(), (Point2::origin(), Point2::origin()));
    let one = Polygon::new(vec![Point2::new(-3, 8)]);
    assert_eq!(one.bounding_box(), (Point2::new(-3, 8), Point2::new(-3, 8)));
    let more = Polygon::new(vec![Point2::new(4, -1), Point2::new(-2, 6), Point2::new(0, 0)]);
    assert_eq!(more.bounding_box(), (Point2::new(-2, -1), Point2::new(4, 6)));
}

#[test]
fn polygon_clone_keeps_the_points() {
    let square = Polygon::new(vec![at2(0.0, 0.0), at2(2.0, 0.0), at2(2.0, 2.0), at2(0.0, 2.0)]);
    let copy = square.clone();
    assert_eq!(copy.points, square.points);
}

#[test]
fn loop_walked_backwards_has_the_same_area_with_the_other_sign() {
    let points = vec![
        Point2::new(0, 0),
        Point2::new(30, 0),
        Point2::new(30, 30),
        Point2::new(20, 30),
        Point2::new(20, 10),
        Point2::new(10, 10),
        Point2::new(10, 30),
        Point2::new(0, 30),
    ];
    let mut back = points.clone();
    back.reverse();
    let forwards = Polygon::new(points);
    let backwards = Polygon::new(back);
    assert_eq!(forwards.signed_area_doubled(), 1_400);
    assert_eq!(backwards.signed_area_doubled(), -1_400);
    assert_eq!(forwards.area(), backwards.area());
    assert!(!forwards.is_clockwise());
    assert!(backwards.is_clockwise());
}

#[test]
fn winding_agrees_with_the_sum_of_trapezoids() {
    let loops = [
        vec![Point2::new(0, 0), Point2::new(10, 0), Point2::new(10, 10), Point2::new(0, 10)],
        vec![Point2::new(0, 0), Point2::new(0, 10), Point2::new(10, 10), Point2::new(10, 0)],
        vec![Point2::new(-5, 7), Point2::new(3, -9), Point2::new(11, 4)],
        vec![Point2::new(11, 4), Point2::new(3, -9), Point2::new(-5, 7)],
    ];
    for points in loops {
        let n = points.len();
        let trapezoids: i64 = (0..n)
            .map(|i| {
                let (a, b) = (points[i], points[(i + 1) % n]);
                (b.x as i64 - a.x as i64) * (b.y as i64 + a.y as i64)
            })
            .sum();
        let polygon = Polygon::new(points);
        assert_eq!(polygon.signed_area_doubled(), -(trapezoids as i128));
        assert_eq!(polygon.is_clockwise(), trapezoids > 0);
    }
}
