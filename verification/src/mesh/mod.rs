//! Deterministic watertight 2.5D construction from planar partitions.
//!
//! Planar caps are triangulated once with exact integer predicates and
//! reused across contacting parts. The substrate is emitted as one boundary
//! shell: footprint bottom, lower outside walls, fill shelves, raised
//! substrate caps and raised walls.

pub mod construct;
pub mod exact;
pub mod triangulate;
pub mod types;

pub use types::{MeshError, MeshOptions, MeshPart, PartModel, Triangle, TriangleMesh, VertexMicrometers};

use vstd::prelude::*;

verus! {

/// Largest accepted vertical coordinate in integer micrometres.
pub const MAX_MESH_HEIGHT_MICROMETERS: i64 = 1_000_000_000;

/// Maximum bridged contour size accepted before triangulation.
pub const MAX_INPUT_CONTOUR_VERTICES: usize = 1_000_000;

/// Maximum total vertex estimate accepted for one part model.
pub const MAX_MESH_VERTICES: usize = 4_194_304;

/// Maximum total triangle estimate accepted for one part model.
pub const MAX_MESH_TRIANGLES: usize = 8_388_608;

/// Maximum deterministic predicate work across all cap triangulations.
pub const MAX_TRIANGULATION_WORK: u128 = 100_000_000;

} // verus!

pub use construct::build_part_model;
