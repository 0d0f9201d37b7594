//! Plaque3MF: deterministic conversion of single-page artwork into exact,
//! watertight 3MF plaque models, with every stage stated in fixed-point
//! integer micrometres.

pub mod document;
pub mod engine;
pub mod export;
pub mod job;

pub use document::{
    BinaryMask, CanonicalArtwork, Dimension, DocumentError, ForegroundSelection, GrayscaleRaster,
    PhysicalSizeMicrometers, PixelDimensions, MAX_RASTER_PIXELS,
};
pub mod rgba;
pub mod sizing;

pub use rgba::rgba_over_white_to_grayscale;
pub use sizing::{OutputSizeConstraintsMicrometers, RasterizationPlan, SamplingPitchMicrometers};
pub mod mesh;
pub mod message;
pub mod order;
pub mod pdfium;
pub mod planar;
