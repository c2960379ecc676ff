//! Errors and exact arithmetic.

use rustslicer::error::SlicerError;
use rustslicer::geometry::bounds::halfway;
use rustslicer::geometry::{Mesh, Point3, Triangle, Vector3};
use rustslicer::slicer::summary::add_capped;
use rustslicer::units::{floor_quotient, floor_sqrt, EPSILON, UNITS_PER_MM};

fn triangle(a: usize, b: usize, c: usize) -> Triangle {
    Triangle { vertices: [a, b, c], normal: Vector3::new(0, 0, 1) }
}

#[test]
fn errors_are_made_with_their_messages() {
    assert!(matches!(SlicerError::stl_read("a".to_string()), SlicerError::StlReadError(m) if m == "a"));
    assert!(matches!(SlicerError::invalid_mesh("b".to_string()), SlicerError::InvalidGeometry(m) if m == "b"));
    assert!(matches!(SlicerError::config("c".to_string()), SlicerError::ConfigError(m) if m == "c"));
    assert!(matches!(SlicerError::slicing("d".to_string()), SlicerError::SlicingError(m) if m == "d"));
    assert!(matches!(SlicerError::gcode("e".to_string()), SlicerError::GCodeError(m) if m == "e"));
    assert_eq!(SlicerError::gcode("e".to_string()).text(), "e");
    assert_eq!(SlicerError::IoError("disk".to_string()).text(), "disk");
    assert_eq!(SlicerError::InvalidParameter("p".to_string()).text(), "p");
}

#[test]
fn triangle_must_point_at_vertices_that_exist() {
    let vertices = vec![Point3::new(0, 0, 0), Point3::new(1, 0, 0), Point3::new(0, 1, 0)];
    assert!(Mesh::new(vertices.clone(), vec![triangle(0, 1, 2)]).is_ok());
    for bad in [triangle(3, 1, 2), triangle(0, 3, 2), triangle(0, 1, 3), triangle(0, 1, usize::MAX)] {
        match Mesh::new(vertices.clone(), vec![triangle(0, 1, 2), bad]) {
            Err(SlicerError::InvalidGeometry(message)) => {
                assert_eq!(message, "Triangle refers to a vertex that does not exist")
            },
            other => panic!("expected invalid geometry, got {:?}", other),
        }
    }
    assert!(Mesh::new(vec![], vec![triangle(0, 0, 0)]).is_err());
    assert!(Mesh::new(vec![], vec![]).is_ok());
}

#[test]
fn mesh_keeps_what_it_was_given() {
    let vertices = vec![Point3::new(5, 0, -3), Point3::new(1, 9, 0), Point3::new(0, 1, 7)];
    let mesh = Mesh::new(vertices.clone(), vec![triangle(2, 1, 0)]).unwrap();
    assert_eq!(mesh.vertices(), &vertices);
    assert_eq!(mesh.triangles().len(), 1);
    assert_eq!(mesh.triangles()[0].vertices, [2, 1, 0]);
    assert_eq!(mesh.bounds().min, Point3::new(0, 0, -3));
    assert_eq!(mesh.bounds().max, Point3::new(5, 9, 7));
    let copy = mesh.clone();
    assert_eq!(copy.vertices(), mesh.vertices());
    assert_eq!(copy.bounds(), mesh.bounds());
    assert_eq!(copy.triangle_count(), 1);
}

#[test]
fn printable_mesh_has_triangles_and_none_of_them_degenerate() {
    let vertices = vec![
        Point3::new(0, 0, 0),
        Point3::new(1, 0, 0),
        Point3::new(0, 1, 0),
        Point3::new(1, 0, 0),
    ];
    let good = Mesh::new(vertices.clone(), vec![triangle(0, 1, 2)]).unwrap();
    assert!(good.validate().is_ok());

    let empty = Mesh::new(vertices.clone(), vec![]).unwrap();
    match empty.validate() {
        Err(SlicerError::InvalidGeometry(message)) => assert_eq!(message, "Mesh has no triangles"),
        other => panic!("expected invalid geometry, got {:?}", other),
    }

    // The same corner twice, and two corners at one position.
    for bad in [triangle(0, 0, 2), triangle(0, 1, 1), triangle(2, 1, 2), triangle(1, 3, 2)] {
        let mesh = Mesh::new(vertices.clone(), vec![triangle(0, 1, 2), bad]).unwrap();
        match mesh.validate() {
            Err(SlicerError::InvalidGeometry(message)) => {
                assert_eq!(message, "Mesh has a degenerate triangle")
            },
            other => panic!("expected invalid geometry, got {:?}", other),
        }
    }
}

#[test]
fn grid_is_a_nanometre_wide() {
    assert_eq!(UNITS_PER_MM, 1_000_000);
    assert_eq!(EPSILON, 2);
}

#[test]
fn quotients_are_rounded_down() {
    assert_eq!(floor_quotient(7, 2), 3);
    assert_eq!(floor_quotient(-7, 2), -4);
    assert_eq!(floor_quotient(7, -2), -4);
    assert_eq!(floor_quotient(-7, -2), 3);
    assert_eq!(floor_quotient(6, 3), 2);
    assert_eq!(floor_quotient(-6, 3), -2);
    assert_eq!(floor_quotient(6, -3), -2);
    assert_eq!(floor_quotient(0, 5), 0);
    assert_eq!(floor_quotient(0, -5), 0);
    assert_eq!(floor_quotient(-1, 1_000), -1);
    assert_eq!(floor_quotient(i128::MAX, 1), i128::MAX);
    assert_eq!(floor_quotient(-i128::MAX, i128::MAX), -1);
    assert_eq!(floor_quotient(-i128::MAX, -1), i128::MAX);
}

#[test]
fn square_roots_are_rounded_down() {
    assert_eq!(floor_sqrt(0), 0);
    assert_eq!(floor_sqrt(1), 1);
    assert_eq!(floor_sqrt(3), 1);
    assert_eq!(floor_sqrt(4), 2);
    assert_eq!(floor_sqrt(24), 4);
    assert_eq!(floor_sqrt(25), 5);
    assert_eq!(floor_sqrt(1_000_000_000_000), 1_000_000);
    assert_eq!(floor_sqrt(999_999_999_999), 999_999);
    assert_eq!(floor_sqrt((1u128 << 66) - 1), (1u64 << 33) - 1);
}

#[test]
fn means_are_rounded_down() {
    assert_eq!(halfway(3, 4), 3);
    assert_eq!(halfway(-3, -4), -4);
    assert_eq!(halfway(-1, 0), -1);
    assert_eq!(halfway(-1, 1), 0);
    assert_eq!(halfway(i32::MAX, i32::MAX), i32::MAX);
    assert_eq!(halfway(i32::MIN, i32::MIN), i32::MIN);
}

#[test]
fn counts_stop_at_the_greatest_number() {
    assert_eq!(add_capped(2, 3), 5);
    assert_eq!(add_capped(usize::MAX, 0), usize::MAX);
    assert_eq!(add_capped(usize::MAX - 1, 1), usize::MAX);
    assert_eq!(add_capped(usize::MAX, 1), usize::MAX);
    assert_eq!(add_capped(usize::MAX, usize::MAX), usize::MAX);
}
