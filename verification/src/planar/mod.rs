//! Deterministic fixed-point contours and complementary planar partitioning.

pub mod assembly;
pub mod cleanup;
pub mod partition;
pub mod predicates;
pub mod reduction;
pub mod simplify;
pub mod topology;
pub mod tracing;
pub mod types;

pub use types::{
    MAX_ARTWORK_EXTENT_MICROMETERS, MAX_AXIS_INTERVALS, MAX_BOUNDARY_EDGES, MAX_HOLE_CONTAINMENT_WORK,
    MAX_MORPHOLOGY_WORK, MAX_PLANAR_CELLS, MAX_SIMPLIFICATION_VALIDATION_VERTICES,
    PlanarError, PlanarOptions, PlanarPartition, PointMicrometers, Polygon, RectMicrometers,
    RegionSet, Ring,
};
pub use partition::partition_artwork;
