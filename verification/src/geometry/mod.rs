//! Points, segments, polygons and meshes on the integer grid.

pub mod bounds;
pub mod mesh;
pub mod plane;
pub mod point;
pub mod polygon;
pub mod segment;

pub use bounds::BoundingBox;
pub use mesh::{Mesh, MeshView, Triangle};
pub use point::{Point2, Point3, Vector3};
pub use polygon::Polygon;
pub use segment::{ConnectionType, LineSegment2D};
