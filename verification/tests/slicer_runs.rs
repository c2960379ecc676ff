//! What must hold of every slicing run, tried on small solids.

use rustslicer::config::PrintProfile;
use rustslicer::error::SlicerError;
use rustslicer::geometry::{Mesh, Point2, Point3, Triangle, Vector3};
use rustslicer::slicer::schedule::{count_layers, middle_of_layer, top_of_layer};
use rustslicer::slicer::{
    build_contours, classify, slice_mesh, summarize, Layer, SliceSummary, Slicer,
};
use rustslicer::units::UNITS_PER_MM;

fn mm(x: f64) -> i32 {
    (x * UNITS_PER_MM as f64).round() as i32
}

fn height(z: f64) -> i64 {
    (z * UNITS_PER_MM as f64).round() as i64
}

fn mm2(area: i128) -> f64 {
    area as f64 / (UNITS_PER_MM as f64 * UNITS_PER_MM as f64)
}

fn at2(x: f64, y: f64) -> Point2 {
    Point2::new(mm(x), mm(y))
}

fn at3(x: f64, y: f64, z: f64) -> Point3 {
    Point3::new(mm(x), mm(y), mm(z))
}

fn triangles(corners: &[[usize; 3]]) -> Vec<Triangle> {
    corners.iter().map(|c| Triangle { vertices: *c, normal: Vector3::new(0, 0, 0) }).collect()
}

/// A closed cube of the given side, standing on the origin.
fn cube(side: f64) -> Mesh {
    let s = side;
    let vertices = vec![
        at3(0.0, 0.0, 0.0),
        at3(s, 0.0, 0.0),
        at3(s, s, 0.0),
        at3(0.0, s, 0.0),
        at3(0.0, 0.0, s),
        at3(s, 0.0, s),
        at3(s, s, s),
        at3(0.0, s, s),
    ];
    let faces = triangles(&[
        [0, 2, 1],
        [0, 3, 2],
        [4, 5, 6],
        [4, 6, 7],
        [0, 1, 5],
        [0, 5, 4],
        [1, 2, 6],
        [1, 6, 5],
        [2, 3, 7],
        [2, 7, 6],
        [3, 0, 4],
        [3, 4, 7],
    ]);
    Mesh::new(vertices, faces).unwrap()
}

/// A square ring: 30 mm outside, a 10 mm hole in the middle, 10 mm high.
fn ring() -> Mesh {
    ring_listed_from(&[2; 32])
}

/// The same ring, with triangle `t` listed from its corner `first[t]`.
fn ring_listed_from(first: &[usize; 32]) -> Mesh {
    let vertices = vec![
        at3(0.0, 0.0, 0.0),
        at3(30.0, 0.0, 0.0),
        at3(30.0, 30.0, 0.0),
        at3(0.0, 30.0, 0.0),
        at3(0.0, 0.0, 10.0),
        at3(30.0, 0.0, 10.0),
        at3(30.0, 30.0, 10.0),
        at3(0.0, 30.0, 10.0),
        at3(10.0, 10.0, 0.0),
        at3(20.0, 10.0, 0.0),
        at3(20.0, 20.0, 0.0),
        at3(10.0, 20.0, 0.0),
        at3(10.0, 10.0, 10.0),
        at3(20.0, 10.0, 10.0),
        at3(20.0, 20.0, 10.0),
        at3(10.0, 20.0, 10.0),
    ];
    let corners: [[usize; 3]; 32] = [
        // Outer walls
        [0, 1, 5],
        [0, 5, 4],
        [1, 2, 6],
        [1, 6, 5],
        [2, 3, 7],
        [2, 7, 6],
        [3, 0, 4],
        [3, 4, 7],
        // Inner walls
        [8, 13, 9],
        [8, 12, 13],
        [9, 14, 10],
        [9, 13, 14],
        [10, 15, 11],
        [10, 14, 15],
        [11, 12, 8],
        [11, 15, 12],
        // Bottom and top
        [0, 8, 1],
        [1, 8, 9],
        [4, 5, 12],
        [5, 13, 12],
        [1, 9, 2],
        [2, 9, 10],
        [5, 6, 13],
        [6, 14, 13],
        [2, 10, 3],
        [3, 10, 11],
        [6, 7, 14],
        [7, 15, 14],
        [3, 11, 0],
        [0, 11, 8],
        [7, 4, 15],
        [4, 12, 15],
    ];
    let faces: Vec<[usize; 3]> = corners
        .iter()
        .zip(first.iter())
        .map(|(c, f)| [c[f % 3], c[(f + 1) % 3], c[(f + 2) % 3]])
        .collect();
    Mesh::new(vertices, triangles(&faces)).unwrap()
}

/// Everything that tells two layer stacks apart.
fn shape(layers: &[Layer]) -> Vec<(i64, usize, Vec<(Vec<Point2>, Vec<Vec<Point2>>)>)> {
    layers
        .iter()
        .map(|l| {
            let islands = l
                .islands
                .iter()
                .map(|i| {
                    (i.outline.points.clone(), i.holes.iter().map(|h| h.points.clone()).collect())
                })
                .collect();
            (l.z_height, l.layer_index, islands)
        })
        .collect()
}

#[test]
fn cube_is_cut_into_one_square_at_every_height() {
    let mesh = cube(10.0);
    for z in [0.000003, 0.15, 0.4, 2.5, 5.0, 7.77, 9.9, 9.999997] {
        // Further than EPSILON from both faces, every wall triangle is pierced.
        let segments = mesh.intersect(height(z));
        assert_eq!(segments.len(), 8, "at {} mm", z);
        let loops = build_contours(&segments);
        assert_eq!(loops.len(), 1, "at {} mm", z);
        assert!((mm2(loops[0].area()) - 100.0).abs() < 1e-9, "at {} mm", z);
        assert!(!loops[0].is_clockwise(), "at {} mm", z);
        let islands = classify(&loops);
        assert_eq!(islands.len(), 1, "at {} mm", z);
        assert!(islands[0].holes.is_empty(), "at {} mm", z);
        assert_eq!(islands[0].outline.points, loops[0].points);
    }
}

#[test]
fn cube_cut_half_way_up() {
    let mesh = cube(10.0);
    let loops = build_contours(&mesh.intersect(height(5.0)));
    assert_eq!(
        loops[0].points,
        vec![
            at2(5.0, 0.0),
            at2(10.0, 0.0),
            at2(10.0, 5.0),
            at2(10.0, 10.0),
            at2(5.0, 10.0),
            at2(0.0, 10.0),
            at2(0.0, 5.0),
            at2(0.0, 0.0),
        ]
    );
    assert_eq!(loops[0].area(), 100_000_000_000_000);
}

#[test]
fn plane_within_epsilon_of_a_face_cuts_the_walls_at_that_face() {
    let mesh = cube(10.0);
    let square = vec![at2(0.0, 0.0), at2(10.0, 0.0), at2(10.0, 10.0), at2(0.0, 10.0)];
    let top = height(10.0);
    for z in [-2, 0, 1, 2, top - 2, top - 1, top, top + 2] {
        let segments = mesh.intersect(z);
        assert_eq!(segments.len(), 4, "at height {}", z);
        let loops = build_contours(&segments);
        assert_eq!(loops.len(), 1, "at height {}", z);
        assert_eq!(loops[0].points, square, "at height {}", z);
        assert_eq!(loops[0].signed_area_doubled(), 200_000_000_000_000);
    }
    assert!(mesh.intersect(-3).is_empty());
    assert!(mesh.intersect(top + 3).is_empty());
}

#[test]
fn cube_under_a_very_thin_first_layer() {
    // The first layer is 4 units thick: it is cut 2 units above the foot of the cube.
    let slicer = Slicer::new(cube(10.0), mm(0.2), 4).unwrap();
    let layers = slicer.slice().unwrap();
    assert_eq!(layers.len(), 51);
    assert_eq!(layers[0].z_height, 2);
    assert_eq!(layers[0].islands.len(), 1);
    assert!(layers[0].islands[0].holes.is_empty());
    assert_eq!(
        layers[0].islands[0].outline.points,
        vec![at2(0.0, 0.0), at2(10.0, 0.0), at2(10.0, 10.0), at2(0.0, 10.0)]
    );
    for layer in &layers {
        assert_eq!(layer.islands.len(), 1, "layer {}", layer.layer_index);
        assert_eq!(layer.islands[0].outline.area(), 100_000_000_000_000);
    }
}

#[test]
fn ring_is_one_island_with_one_hole() {
    let slicer = Slicer::new(ring(), mm(0.2), mm(0.3)).unwrap();
    let layers = slicer.slice().unwrap();
    assert_eq!(layers.len(), 50);
    for layer in &layers {
        assert_eq!(layer.islands.len(), 1, "layer {}", layer.layer_index);
        let island = &layer.islands[0];
        assert_eq!(island.holes.len(), 1, "layer {}", layer.layer_index);
        assert_eq!(island.outline.area(), 900_000_000_000_000);
        assert_eq!(island.holes[0].area(), 100_000_000_000_000);
        assert!(!island.outline.is_clockwise());
        assert!(island.holes[0].is_clockwise());
        assert_eq!(layer.contour_count(), 2);
    }
    let layer = &layers[10];
    assert_eq!(layer.z_height, height(2.2));
    assert_eq!(
        layer.islands[0].outline.points,
        vec![
            at2(6.6, 0.0),
            at2(30.0, 0.0),
            at2(30.0, 6.6),
            at2(30.0, 30.0),
            at2(23.4, 30.0),
            at2(0.0, 30.0),
            at2(0.0, 23.4),
            at2(0.0, 0.0),
        ]
    );
    assert_eq!(
        layer.islands[0].holes[0].points,
        vec![
            at2(20.0, 10.0),
            at2(12.2, 10.0),
            at2(10.0, 10.0),
            at2(10.0, 17.8),
            at2(10.0, 20.0),
            at2(17.8, 20.0),
            at2(20.0, 20.0),
            at2(20.0, 12.2),
        ]
    );
}

#[test]
fn ring_is_one_island_with_one_hole_whatever_corner_its_triangles_are_listed_from() {
    let mut first = [0usize; 32];
    for round in 0..27 {
        // Every combination of first corners for three of the walls, the rest following along.
        for (t, f) in first.iter_mut().enumerate() {
            *f = (round / [1, 3, 9][t % 3] + t / 3) % 3;
        }
        let slicer = Slicer::new(ring_listed_from(&first), mm(0.5), mm(0.5)).unwrap();
        let layers = slicer.slice().unwrap();
        assert_eq!(layers.len(), 20);
        for layer in &layers {
            assert_eq!(layer.islands.len(), 1, "round {}, layer {}", round, layer.layer_index);
            let island = &layer.islands[0];
            assert_eq!(island.holes.len(), 1, "round {}, layer {}", round, layer.layer_index);
            assert_eq!(island.outline.signed_area_doubled(), 1_800_000_000_000_000);
            assert_eq!(island.holes[0].signed_area_doubled(), -200_000_000_000_000);
        }
    }
}

#[test]
fn layer_count_follows_the_formula() {
    // 10 mm high, first layer 0.3 mm, further layers 0.2 mm: 1 + ceil(9.7 / 0.2) = 50.
    assert_eq!(count_layers(height(10.0), mm(0.2), mm(0.3)), 50);
    assert_eq!(middle_of_layer(mm(0.2), mm(0.3), 0), height(0.15));
    assert_eq!(middle_of_layer(mm(0.2), mm(0.3), 1), height(0.4));
    assert_eq!(top_of_layer(mm(0.2), mm(0.3), 0), height(0.3));
    assert_eq!(top_of_layer(mm(0.2), mm(0.3), 1), height(0.5));
    assert_eq!(top_of_layer(mm(0.2), mm(0.3), 49), height(10.1));

    let mesh = Mesh::new(vec![Point3::origin(), at3(1.0, 1.0, 10.0)], vec![]).unwrap();
    let slicer = Slicer::new(mesh, mm(0.2), mm(0.3)).unwrap();
    assert_eq!(slicer.layer_count(), 50);
    assert_eq!(slicer.sample_z(0), Some(height(0.15)));
    assert_eq!(slicer.sample_z(1), Some(height(0.4)));
    assert_eq!(slicer.layer_z(0), Some(height(0.3)));
    assert_eq!(slicer.layer_z(49), Some(height(10.1)));
    assert_eq!(slicer.layer_z(50), None);
    assert_eq!(slicer.sample_z(50), None);
    assert!(slicer.slice_layer(50).is_none());
    assert_eq!(slicer.slice_layer(49).unwrap().layer_index, 49);
    // A layer carries the height at which it is cut.
    let layers = slicer.slice().unwrap();
    assert_eq!(layers[0].z_height, height(0.15));
    assert_eq!(layers[1].z_height, height(0.4));
    assert_eq!(layers[2].z_height, height(0.6));
    assert_eq!(layers[49].z_height, height(10.0));
    for (k, layer) in layers.iter().enumerate() {
        assert_eq!(Some(layer.z_height), slicer.sample_z(k));
    }
    assert_eq!(slicer.layer_height(), mm(0.2));
    assert_eq!(slicer.first_layer_height(), mm(0.3));
    assert_eq!(slicer.mesh().vertex_count(), 2);
}

#[test]
fn layer_count_at_the_edges() {
    // The first layer alone covers the mesh.
    assert_eq!(count_layers(300_000, 200_000, 300_000), 1);
    assert_eq!(count_layers(1, 200_000, 300_000), 1);
    // One unit more asks for a second layer.
    assert_eq!(count_layers(300_001, 200_000, 300_000), 2);
    assert_eq!(count_layers(500_000, 200_000, 300_000), 2);
    assert_eq!(count_layers(500_001, 200_000, 300_000), 3);
    // No height, no layers.
    assert_eq!(count_layers(0, 200_000, 300_000), 0);
    assert_eq!(count_layers(-5, 200_000, 300_000), 0);
    // The tallest mesh in the thinnest layers.
    assert_eq!(count_layers(4_294_967_295, 1, 1), 4_294_967_295);
    assert_eq!(count_layers(4_294_967_295, i32::MAX, i32::MAX), 3);
}

#[test]
fn odd_thicknesses_are_halved_downwards() {
    assert_eq!(middle_of_layer(5, 7, 0), 3);
    assert_eq!(middle_of_layer(5, 7, 1), 9);
    assert_eq!(middle_of_layer(5, 7, 2), 14);
    assert_eq!(top_of_layer(5, 7, 2), 17);
}

#[test]
fn mesh_below_zero_is_measured_from_its_own_bottom() {
    let mesh = Mesh::new(vec![at3(0.0, 0.0, -4.0), at3(1.0, 1.0, -3.0)], vec![]).unwrap();
    let slicer = Slicer::new(mesh, mm(0.2), mm(0.3)).unwrap();
    assert_eq!(slicer.layer_count(), 5);
    assert_eq!(slicer.layer_z(0), Some(height(-3.7)));
    assert_eq!(slicer.sample_z(0), Some(height(-3.85)));
    assert_eq!(slicer.layer_z(4), Some(height(-2.9)));
    assert_eq!(slicer.sample_z(4), Some(height(-3.0)));
}

#[test]
fn mesh_without_triangles_gives_all_its_layers_empty() {
    let mesh = Mesh::new(vec![Point3::origin(), at3(10.0, 10.0, 10.0)], vec![]).unwrap();
    let slicer = Slicer::new(mesh, mm(0.2), mm(0.3)).unwrap();
    let layers = slicer.slice().unwrap();
    assert_eq!(layers.len(), 50);
    for (k, layer) in layers.iter().enumerate() {
        assert_eq!(layer.layer_index, k);
        assert!(layer.islands.is_empty());
        assert_eq!(layer.contour_count(), 0);
    }
    assert_eq!(
        summarize(&layers),
        SliceSummary { layers: 50, non_empty_layers: 0, islands: 0, contours: 0 }
    );
}

#[test]
fn slicing_twice_gives_the_same_layers() {
    let slicer = Slicer::new(ring(), mm(0.2), mm(0.3)).unwrap();
    let first = slicer.slice().unwrap();
    let second = slicer.slice().unwrap();
    assert_eq!(shape(&first), shape(&second));

    let again = Slicer::new(ring(), mm(0.2), mm(0.3)).unwrap();
    assert_eq!(shape(&first), shape(&again.slice().unwrap()));

    // One layer cut by itself is the layer of the whole run.
    let alone = slicer.slice_layer(17).unwrap();
    assert_eq!(shape(&[alone]), shape(&first[17..18]));
}

#[test]
fn layers_are_numbered_and_rise() {
    let slicer = Slicer::new(cube(10.0), mm(0.25), mm(0.35)).unwrap();
    let layers = slicer.slice().unwrap();
    assert_eq!(layers.len(), 1 + 39);
    for (k, layer) in layers.iter().enumerate() {
        assert_eq!(layer.layer_index, k);
        if k == 0 {
            assert_eq!(layer.z_height, height(0.175));
        } else {
            assert_eq!(layer.z_height, height(0.35) + (2 * k as i64 - 1) * height(0.125));
            assert!(layers[k - 1].z_height < layer.z_height);
        }
    }
    // The top of the last layer reaches the top of the cube, that of the one before does not.
    assert!(slicer.layer_z(layers.len() - 1).unwrap() >= height(10.0));
    assert!(slicer.layer_z(layers.len() - 2).unwrap() < height(10.0));
}

#[test]
fn layer_height_of_zero_is_refused() {
    let result = Slicer::new(cube(10.0), 0, mm(0.3));
    match result {
        Err(SlicerError::InvalidParameter(message)) => {
            assert_eq!(message, "Layer height must be positive")
        },
        other => panic!("expected an invalid parameter, got {:?}", other.map(|_| ())),
    }
}

#[test]
fn thicknesses_must_be_positive() {
    assert!(matches!(
        Slicer::new(cube(10.0), -1, mm(0.3)),
        Err(SlicerError::InvalidParameter(_))
    ));
    match Slicer::new(cube(10.0), mm(0.2), 0) {
        Err(SlicerError::InvalidParameter(message)) => {
            assert_eq!(message, "First layer height must be positive")
        },
        other => panic!("expected an invalid parameter, got {:?}", other.map(|_| ())),
    }
    assert!(matches!(
        Slicer::new(cube(10.0), mm(0.2), i32::MIN),
        Err(SlicerError::InvalidParameter(_))
    ));
    assert!(Slicer::new(cube(10.0), 1, 1).is_ok());
    assert!(Slicer::new(cube(10.0), i32::MAX, i32::MAX).is_ok());
}

#[test]
fn profile_with_a_bad_layer_height_gives_no_slicer() {
    let mut profile = PrintProfile::default_pla();
    profile.set_layer_height(0);
    assert!(matches!(
        Slicer::from_profile(cube(10.0), &profile),
        Err(SlicerError::InvalidParameter(_))
    ));
}

#[test]
fn mesh_without_height_cannot_be_sliced() {
    let flat = Mesh::new(
        vec![at3(0.0, 0.0, 1.0), at3(10.0, 0.0, 1.0), at3(0.0, 10.0, 1.0)],
        triangles(&[[0, 1, 2]]),
    )
    .unwrap();
    let slicer = Slicer::new(flat, mm(0.2), mm(0.3)).unwrap();
    assert_eq!(slicer.layer_count(), 0);
    match slicer.slice() {
        Err(SlicerError::SlicingError(message)) => assert_eq!(message, "Model has no height"),
        other => panic!("expected a slicing error, got {:?}", other.map(|l| l.len())),
    }
    let nothing = Slicer::new(Mesh::new(vec![], vec![]).unwrap(), mm(0.2), mm(0.3)).unwrap();
    assert!(matches!(nothing.slice(), Err(SlicerError::SlicingError(_))));
}

#[test]
fn tallest_mesh_in_thick_layers() {
    let mesh = Mesh::new(
        vec![Point3::new(0, 0, i32::MIN), Point3::new(0, 0, i32::MAX)],
        vec![],
    )
    .unwrap();
    let slicer = Slicer::new(mesh, i32::MAX, i32::MAX).unwrap();
    let layers = slicer.slice().unwrap();
    assert_eq!(layers.len(), 3);
    assert_eq!(layers[0].z_height, i32::MIN as i64 + 1_073_741_823);
    assert_eq!(layers[1].z_height, -1 + 1_073_741_823);
    assert_eq!(layers[2].z_height, 3_221_225_469);
    assert_eq!(slicer.layer_z(0), Some(-1));
    assert_eq!(slicer.layer_z(1), Some(i32::MAX as i64 - 1));
    assert_eq!(slicer.layer_z(2), Some(4_294_967_293));
    assert_eq!(slicer.sample_z(0), Some(i32::MIN as i64 + 1_073_741_823));
    assert_eq!(slicer.sample_z(1), Some(-1 + 1_073_741_823));
}

#[test]
fn summary_counts_layers_islands_and_loops() {
    let slicer = Slicer::new(ring(), mm(0.2), mm(0.3)).unwrap();
    let layers = slicer.slice().unwrap();
    // 49 layers through the ring, and one in the plane of its top face, where the
    // walls leave their upper edges.
    assert_eq!(
        summarize(&layers),
        SliceSummary { layers: 50, non_empty_layers: 50, islands: 50, contours: 100 }
    );
    assert_eq!(
        summarize(&vec![]),
        SliceSummary { layers: 0, non_empty_layers: 0, islands: 0, contours: 0 }
    );
}

#[test]
fn every_layer_is_cut_between_its_bottom_and_its_top() {
    let slicer = Slicer::new(cube(10.0), 333_333, 123_457).unwrap();
    let count = slicer.layer_count();
    assert_eq!(count, 1 + 30);
    assert_eq!(slicer.sample_z(0), Some(61_728));
    for k in 0..count {
        let top = slicer.layer_z(k).unwrap();
        let cut = slicer.sample_z(k).unwrap();
        assert!(cut < top);
        if k > 0 {
            assert!(slicer.layer_z(k - 1).unwrap() <= cut);
            assert_eq!(cut, slicer.layer_z(k - 1).unwrap() + 166_666);
        }
    }
}

#[test]
fn mesh_and_thicknesses_in_one_call() {
    let layers = slice_mesh(cube(10.0), mm(0.2), mm(0.3)).unwrap();
    let slicer = Slicer::new(cube(10.0), mm(0.2), mm(0.3)).unwrap();
    assert_eq!(shape(&layers), shape(&slicer.slice().unwrap()));
    assert_eq!(layers.len(), 50);

    assert!(matches!(slice_mesh(cube(10.0), 0, mm(0.3)), Err(SlicerError::InvalidParameter(_))));
    assert!(matches!(slice_mesh(cube(10.0), mm(0.2), -7), Err(SlicerError::InvalidParameter(_))));
    let flat = Mesh::new(vec![at3(0.0, 0.0, 1.0), at3(5.0, 5.0, 1.0)], vec![]).unwrap();
    assert!(matches!(slice_mesh(flat.clone(), mm(0.2), mm(0.3)), Err(SlicerError::SlicingError(_))));
    // A bad thickness is found before a flat mesh.
    assert!(matches!(slice_mesh(flat, 0, 0), Err(SlicerError::InvalidParameter(_))));
}

/// A cube with its lowest corner at `o`, its walls listed in turn, each near side first.
fn cube_at(o: (i32, i32, i32), side: i32) -> Mesh {
    let at = |dx: i32, dy: i32, dz: i32| Point3::new(o.0 + dx, o.1 + dy, o.2 + dz);
    let s = side;
    let vertices = vec![
        at(0, 0, 0),
        at(s, 0, 0),
        at(s, s, 0),
        at(0, s, 0),
        at(0, 0, s),
        at(s, 0, s),
        at(s, s, s),
        at(0, s, s),
    ];
    let faces = triangles(&[
        [0, 2, 1],
        [0, 3, 2],
        [4, 5, 6],
        [4, 6, 7],
        [0, 5, 4],
        [0, 1, 5],
        [1, 6, 5],
        [1, 2, 6],
        [2, 7, 6],
        [2, 3, 7],
        [3, 4, 7],
        [3, 0, 4],
    ]);
    Mesh::new(vertices, faces).unwrap()
}

/// A ring `t` high and `3 t` wide with a hole `t` wide, its lowest corner at `o`.
fn ring_at(o: (i32, i32, i32), t: i32) -> Mesh {
    let at = |dx: i32, dy: i32, dz: i32| Point3::new(o.0 + dx, o.1 + dy, o.2 + dz);
    let vertices = vec![
        at(0, 0, 0),
        at(3 * t, 0, 0),
        at(3 * t, 3 * t, 0),
        at(0, 3 * t, 0),
        at(0, 0, t),
        at(3 * t, 0, t),
        at(3 * t, 3 * t, t),
        at(0, 3 * t, t),
        at(t, t, 0),
        at(2 * t, t, 0),
        at(2 * t, 2 * t, 0),
        at(t, 2 * t, 0),
        at(t, t, t),
        at(2 * t, t, t),
        at(2 * t, 2 * t, t),
        at(t, 2 * t, t),
    ];
    let faces = triangles(&[
        [0, 5, 4],
        [0, 1, 5],
        [1, 6, 5],
        [1, 2, 6],
        [2, 7, 6],
        [2, 3, 7],
        [3, 4, 7],
        [3, 0, 4],
        [9, 12, 13],
        [9, 8, 12],
        [8, 15, 12],
        [8, 11, 15],
        [11, 14, 15],
        [11, 10, 14],
        [10, 13, 14],
        [10, 9, 13],
        [0, 8, 1],
        [1, 8, 9],
        [4, 5, 12],
        [5, 13, 12],
        [1, 9, 2],
        [2, 9, 10],
        [5, 6, 13],
        [6, 14, 13],
        [2, 10, 3],
        [3, 10, 11],
        [6, 7, 14],
        [7, 15, 14],
        [3, 11, 0],
        [0, 11, 8],
        [7, 4, 15],
        [4, 12, 15],
    ]);
    Mesh::new(vertices, faces).unwrap()
}

#[test]
fn cube_is_one_square_at_every_height_between_foot_and_top() {
    let o = (7, -3, 11);
    let side = 200;
    let mesh = cube_at(o, side);
    let p = |dx: i32, dy: i32| Point2::new(o.0 + dx, o.1 + dy);
    for h in 1..side {
        let z = (o.2 + h) as i64;
        let loops = build_contours(&mesh.intersect(z));
        let expected = if h <= 2 || side - h <= 2 {
            vec![p(0, 0), p(side, 0), p(side, side), p(0, side)]
        } else {
            vec![
                p(0, 0),
                p(h, 0),
                p(side, 0),
                p(side, h),
                p(side, side),
                p(side - h, side),
                p(0, side),
                p(0, side - h),
            ]
        };
        assert_eq!(loops.len(), 1, "{} up", h);
        assert_eq!(loops[0].points, expected, "{} up", h);
        assert_eq!(loops[0].area(), (side as i128) * (side as i128), "{} up", h);
        let islands = classify(&loops);
        assert_eq!(islands.len(), 1, "{} up", h);
        assert!(islands[0].holes.is_empty(), "{} up", h);
        assert_eq!(islands[0].outline.points, expected, "{} up", h);
    }
}

#[test]
fn ring_is_one_island_at_every_height_between_foot_and_top() {
    let o = (-40, 9, -5);
    let t = 100;
    let mesh = ring_at(o, t);
    let p = |dx: i32, dy: i32| Point2::new(o.0 + dx, o.1 + dy);
    for h in 1..t {
        let z = (o.2 + h) as i64;
        let (outline, hole) = if h <= 2 || t - h <= 2 {
            (
                vec![p(0, 0), p(3 * t, 0), p(3 * t, 3 * t), p(0, 3 * t)],
                vec![p(2 * t, t), p(t, t), p(t, 2 * t), p(2 * t, 2 * t)],
            )
        } else {
            (
                vec![
                    p(0, 0),
                    p(3 * h, 0),
                    p(3 * t, 0),
                    p(3 * t, 3 * h),
                    p(3 * t, 3 * t),
                    p(3 * t - 3 * h, 3 * t),
                    p(0, 3 * t),
                    p(0, 3 * t - 3 * h),
                ],
                vec![
                    p(2 * t, t),
                    p(2 * t - h, t),
                    p(t, t),
                    p(t, t + h),
                    p(t, 2 * t),
                    p(t + h, 2 * t),
                    p(2 * t, 2 * t),
                    p(2 * t, 2 * t - h),
                ],
            )
        };
        let loops = build_contours(&mesh.intersect(z));
        assert_eq!(loops.len(), 2, "{} up", h);
        let islands = classify(&loops);
        assert_eq!(islands.len(), 1, "{} up", h);
        assert_eq!(islands[0].outline.points, outline, "{} up", h);
        assert_eq!(islands[0].holes.len(), 1, "{} up", h);
        assert_eq!(islands[0].holes[0].points, hole, "{} up", h);
        assert_eq!(islands[0].outline.area(), 9 * (t as i128) * (t as i128));
        assert_eq!(islands[0].holes[0].area(), (t as i128) * (t as i128));
        assert!(islands[0].outline.contains_point(&hole[0]));
    }
}
