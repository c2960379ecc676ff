//! The types most programs need, in one place.

pub use crate::config::PrintProfile;
pub use crate::error::SlicerError;
pub use crate::geometry::{BoundingBox, LineSegment2D, Mesh, Point2, Point3, Polygon, Triangle};
pub use crate::slicer::{Contour, Island, Layer, Slicer};
