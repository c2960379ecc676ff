//! A slicing engine for additive manufacturing on an integer grid.
//!
//! A triangle mesh is cut by horizontal planes; the cuts of one plane are
//! chained into closed contours, and the contours are sorted into solid
//! islands and the holes inside them. All positions are whole numbers of
//! grid units, so every comparison and every area is exact.
//!
//! The pipeline, leaf first:
//!
//! 1. [`geometry::Mesh::intersect`] cuts every triangle with one plane.
//! 2. [`slicer::build_contours`] chains the cuts into closed loops.
//! 3. [`slicer::classify`] sorts the loops into islands and holes.
//! 4. [`slicer::Slicer::slice`] does this for every layer of a mesh.

pub mod config;
pub mod error;
pub mod geometry;
pub mod prelude;
pub mod slicer;
pub mod units;
