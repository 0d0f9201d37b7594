use plaque3mf::mesh::construct::{preflight_mesh, DisjointSets, ModelStats};
use plaque3mf::mesh::MeshError;
use plaque3mf::planar::partition::source_intervals;
use plaque3mf::planar::PlanarError;

fn stats(substrate_vertices: usize, fill_vertices: usize, fill_cap_triangles: usize) -> ModelStats {
    ModelStats {
        substrate_vertices,
        fill_vertices,
        substrate_cap_triangles: 0,
        fill_cap_triangles,
        hole_count: 0,
    }
}

#[test]
fn preflight_accepts_a_small_model() {
    assert!(preflight_mesh(&stats(4, 4, 2), 4).is_ok());
}

#[test]
fn preflight_reports_the_estimated_vertex_count() {
    let result = preflight_mesh(&stats(0, 2_000_000, 0), 4);
    assert!(matches!(
        result,
        Err(MeshError::TooManyMeshVertices { required: 6_000_008, max: 4_194_304 })
    ));
}

#[test]
fn preflight_reports_the_estimated_triangle_count() {
    let result = preflight_mesh(&stats(0, 0, 3_000_000), 4);
    assert!(matches!(
        result,
        Err(MeshError::TooManyMeshTriangles { required: 9_000_010, max: 8_388_608 })
    ));
}

#[test]
fn preflight_refuses_a_footprint_without_a_cap() {
    assert!(matches!(preflight_mesh(&stats(0, 0, 0), 1), Err(MeshError::ArithmeticOverflow)));
}

#[test]
fn union_links_the_larger_representative_under_the_smaller() {
    let mut sets = DisjointSets::new(5);
    sets.union(3, 4);
    assert_eq!(sets.find(4), 3);
    sets.union(1, 3);
    assert_eq!(sets.find(4), 1);
    assert_eq!(sets.find(2), 2);
    sets.union(2, 0);
    assert_eq!(sets.find(2), 0);
    assert_eq!(sets.find(1), 1);
}

#[test]
fn source_intervals_walk_both_axes_together() {
    let sources = source_intervals(&[0, 10, 20], &[0, 5, 10, 20]).expect("cells nest");
    assert_eq!(sources, vec![0, 0, 1]);
}

#[test]
fn source_intervals_refuse_a_cell_across_a_raster_edge() {
    assert!(matches!(
        source_intervals(&[0, 10, 20], &[0, 15, 20]),
        Err(PlanarError::InvalidTopology(_))
    ));
}
