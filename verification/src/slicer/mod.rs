//! From a mesh to its stack of layers.

pub mod contour;
pub mod contour_proofs;
pub mod engine;
pub mod family_proofs;
pub mod island;
pub mod island_proofs;
pub mod layer;
pub mod order_proofs;
pub mod schedule;
pub mod solid_proofs;
pub mod summary;

pub use contour::build_contours;
pub use engine::{slice_mesh, Slicer, SlicerView};
pub use island::{classify, Island, IslandView};
pub use layer::{Contour, ContourView, Layer, LayerView};
pub use summary::{summarize, SliceSummary};
