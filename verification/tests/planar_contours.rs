use plaque3mf::planar::assembly::ensure_hole_containment_work;
use plaque3mf::planar::simplify::simplify_shared_rings;
use plaque3mf::planar::topology::DirectedEdge;
use plaque3mf::planar::tracing::{canonical_undirected, canonicalize_oriented, trace_rings};
use plaque3mf::planar::types::signed_double_area;
use plaque3mf::planar::{PlanarError, PointMicrometers, RectMicrometers};

fn point(x: i64, y: i64) -> PointMicrometers {
    PointMicrometers::new(x, y)
}

#[test]
fn left_turn_rule_separates_diagonal_cells() {
    let rings = trace_rings(vec![
        DirectedEdge::new(point(0, 0), point(1, 0)),
        DirectedEdge::new(point(1, 0), point(1, 1)),
        DirectedEdge::new(point(1, 1), point(0, 1)),
        DirectedEdge::new(point(0, 1), point(0, 0)),
        DirectedEdge::new(point(1, 1), point(2, 1)),
        DirectedEdge::new(point(2, 1), point(2, 2)),
        DirectedEdge::new(point(2, 2), point(1, 2)),
        DirectedEdge::new(point(1, 2), point(1, 1)),
    ])
    .expect("diagonal contours trace");

    assert_eq!(rings.len(), 2);
    assert!(rings.iter().all(|ring| signed_double_area(ring) == 2));
}

#[test]
fn hole_containment_work_is_bounded_before_assignment() {
    assert_eq!(ensure_hole_containment_work(3, 5, 15), Ok(()));
    assert_eq!(
        ensure_hole_containment_work(3, 5, 14),
        Err(PlanarError::HoleContainmentWorkLimitExceeded {
            required: 15,
            max: 14,
        })
    );
}

#[test]
fn guarded_rdp_reuses_one_internal_boundary() {
    let ccw = vec![
        point(2, 2),
        point(4, 2),
        point(4, 3),
        point(5, 3),
        point(5, 5),
        point(2, 5),
    ];
    let clockwise = ccw.iter().rev().copied().collect::<Vec<_>>();
    let (substrate, fill) = simplify_shared_rings(
        vec![ccw],
        vec![clockwise],
        RectMicrometers::from_positive_size(10, 10),
        1,
    );

    assert_eq!(
        canonical_undirected(&substrate[0]),
        canonical_undirected(&fill[0])
    );
    assert!(substrate[0].len() <= 6);
}

#[test]
fn tracing_drops_collinear_vertices_and_starts_at_the_smallest_corner() {
    let rings = trace_rings(vec![
        DirectedEdge::new(point(2, 0), point(2, 1)),
        DirectedEdge::new(point(0, 0), point(1, 0)),
        DirectedEdge::new(point(1, 0), point(2, 0)),
        DirectedEdge::new(point(2, 1), point(0, 1)),
        DirectedEdge::new(point(0, 1), point(0, 0)),
    ])
    .expect("rectangle traces");
    assert_eq!(rings, vec![vec![point(0, 0), point(2, 0), point(2, 1), point(0, 1)]]);
}

#[test]
fn open_walks_are_rejected() {
    assert!(matches!(
        trace_rings(vec![
            DirectedEdge::new(point(0, 0), point(1, 0)),
            DirectedEdge::new(point(1, 0), point(1, 1)),
        ]),
        Err(PlanarError::InvalidTopology(_))
    ));
}

#[test]
fn canonical_rotation_starts_at_the_first_minimum() {
    assert_eq!(
        canonicalize_oriented(vec![point(3, 3), point(1, 0), point(4, 0), point(0, 2)]),
        vec![point(0, 2), point(3, 3), point(1, 0), point(4, 0)]
    );
}
