//! The parts working together: profile, mesh, slicer, layers.

use rustslicer::config::PrintProfile;
use rustslicer::geometry::{Mesh, Point2, Point3, Polygon, Triangle, Vector3};
use rustslicer::prelude;
use rustslicer::slicer::{Island, Layer, Slicer};
use rustslicer::units::UNITS_PER_MM;

fn mm(x: f64) -> i32 {
    (x * UNITS_PER_MM as f64).round() as i32
}

fn to_mm(units: i64) -> f64 {
    units as f64 / UNITS_PER_MM as f64
}

fn at2(x: f64, y: f64) -> Point2 {
    Point2::new(mm(x), mm(y))
}

fn at3(x: f64, y: f64, z: f64) -> Point3 {
    Point3::new(mm(x), mm(y), mm(z))
}

#[test]
fn test_config_load_and_validate() {
    let config = PrintProfile::default_pla();
    assert!(config.validate().is_ok());
    assert_eq!(config.get_layer_height(), mm(0.2));
    assert_eq!(config.filament.unwrap().filament_type, "PLA");
}

#[test]
fn test_slicer_with_synthetic_mesh() {
    // Create a simple pyramid mesh
    let vertices =
        vec![at3(0.0, 0.0, 0.0), at3(10.0, 0.0, 0.0), at3(5.0, 10.0, 0.0), at3(5.0, 5.0, 10.0)];

    let mesh = Mesh::new(
        vertices,
        vec![
            Triangle { vertices: [0, 1, 2], normal: Vector3::new(0, 0, -1_000_000) },
            Triangle { vertices: [0, 1, 3], normal: Vector3::new(0, -1_000_000, 0) },
            Triangle { vertices: [1, 2, 3], normal: Vector3::new(1_000_000, 0, 0) },
            Triangle { vertices: [2, 0, 3], normal: Vector3::new(-1_000_000, 0, 0) },
        ],
    )
    .unwrap();

    let config = PrintProfile::default_pla();
    let slicer = Slicer::from_profile(mesh, &config).unwrap();
    let layers = slicer.slice().unwrap();

    // Should generate multiple layers
    assert!(!layers.is_empty());

    // Check that layer indices are sequential
    for (i, layer) in layers.iter().enumerate() {
        assert_eq!(layer.layer_index, i);
    }

    // The first layer is cut half way up its thickness
    assert!((to_mm(layers[0].z_height) - 0.15).abs() < 0.001);

    // The first layer is cut at 0.15 mm: a triangle a little smaller than the base.
    assert_eq!(layers[0].islands.len(), 1);
    assert_eq!(
        layers[0].islands[0].outline.points,
        vec![at2(0.075, 0.075), at2(9.925, 0.075), at2(5.0, 9.925)]
    );
}

#[test]
fn test_full_pipeline_empty_mesh() {
    // A mesh with no triangles; its two vertices span the box from the
    // origin to (10, 10, 10).
    let mesh = Mesh::new(vec![Point3::origin(), at3(10.0, 10.0, 10.0)], vec![]).unwrap();

    let config = PrintProfile::default_pla();

    // Slicing should succeed but produce empty layers
    let slicer = Slicer::from_profile(mesh, &config).unwrap();
    let layers = slicer.slice().unwrap();

    assert!(!layers.is_empty());
    assert!(layers.iter().all(|l| l.is_empty()));
}

#[test]
fn test_layer_properties() {
    // Create a layer with multiple islands
    let island1 = Island {
        outline: Polygon::new(vec![at2(0.0, 0.0), at2(5.0, 0.0), at2(5.0, 5.0), at2(0.0, 5.0)]),
        holes: vec![],
    };

    let island2 = Island {
        outline: Polygon::new(vec![at2(10.0, 10.0), at2(15.0, 10.0), at2(15.0, 15.0), at2(10.0, 15.0)]),
        holes: vec![Polygon::new(vec![
            at2(11.0, 11.0),
            at2(14.0, 11.0),
            at2(14.0, 14.0),
            at2(11.0, 14.0),
        ])],
    };

    let layer = Layer { z_height: 1_000_000, layer_index: 5, islands: vec![island1, island2] };

    // What the layer says of itself
    assert_eq!(layer.islands.len(), 2);
    assert!(!layer.is_empty());
    assert_eq!(layer.contour_count(), 3); // 2 outlines + 1 hole
}

#[test]
fn contours_of_a_layer_come_outline_first() {
    let outline_a = vec![at2(0.0, 0.0), at2(5.0, 0.0), at2(5.0, 5.0), at2(0.0, 5.0)];
    let outline_b = vec![at2(10.0, 10.0), at2(15.0, 10.0), at2(15.0, 15.0), at2(10.0, 15.0)];
    let hole_1 = vec![at2(11.0, 11.0), at2(11.0, 12.0), at2(12.0, 12.0), at2(12.0, 11.0)];
    let hole_2 = vec![at2(13.0, 13.0), at2(13.0, 14.0), at2(14.0, 14.0), at2(14.0, 13.0)];
    let layer = Layer {
        z_height: 1_000_000,
        layer_index: 5,
        islands: vec![
            Island { outline: Polygon::new(outline_a.clone()), holes: vec![] },
            Island {
                outline: Polygon::new(outline_b.clone()),
                holes: vec![Polygon::new(hole_1.clone()), Polygon::new(hole_2.clone())],
            },
        ],
    };

    let contours = layer.contours();
    let flat: Vec<(Vec<Point2>, bool)> =
        contours.iter().map(|c| (c.points.clone(), c.is_outer)).collect();
    assert_eq!(
        flat,
        vec![(outline_a, true), (outline_b, true), (hole_1, false), (hole_2, false)]
    );
    assert_eq!(contours.len(), layer.contour_count());
    assert_eq!(contours[2].clone().points, contours[2].points);

    let empty = Layer { z_height: 0, layer_index: 0, islands: vec![] };
    assert!(empty.contours().is_empty());
    assert!(empty.is_empty());
    assert_eq!(empty.contour_count(), 0);
}

#[test]
fn copies_of_layers_hold_the_same() {
    let layer = Layer {
        z_height: 1_234,
        layer_index: 7,
        islands: vec![Island {
            outline: Polygon::new(vec![at2(0.0, 0.0), at2(5.0, 0.0), at2(5.0, 5.0)]),
            holes: vec![Polygon::new(vec![at2(1.0, 1.0), at2(1.0, 2.0), at2(2.0, 1.0)])],
        }],
    };
    let copy = layer.clone();
    assert_eq!(copy.z_height, 1_234);
    assert_eq!(copy.layer_index, 7);
    assert_eq!(copy.islands.len(), 1);
    assert_eq!(copy.islands[0].outline.points, layer.islands[0].outline.points);
    assert_eq!(copy.islands[0].holes[0].points, layer.islands[0].holes[0].points);
    let island = layer.islands[0].clone();
    assert_eq!(island.holes.len(), 1);
}

#[test]
fn common_types_come_from_one_place() {
    let mesh = prelude::Mesh::new(vec![Point3::origin(), at3(1.0, 1.0, 1.0)], vec![]).unwrap();
    let slicer =
        prelude::Slicer::from_profile(mesh, &prelude::PrintProfile::default_pla()).unwrap();
    assert_eq!(slicer.layer_count(), 1 + 4);
}
