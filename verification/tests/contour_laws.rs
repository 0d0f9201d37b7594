use plaque3mf::mesh::exact::WorkBudget;
use plaque3mf::mesh::triangulate::{bridge_is_visible, ear_clip, find_bridge, validate_triangulation};
use plaque3mf::mesh::MeshError;
use plaque3mf::planar::assembly::assemble_region;
use plaque3mf::planar::topology::DirectedEdge;
use plaque3mf::planar::tracing::{remove_collinear_vertices, trace_rings};
use plaque3mf::planar::types::signed_double_area;
use plaque3mf::planar::PointMicrometers;

fn point(x: i64, y: i64) -> PointMicrometers {
    PointMicrometers::new(x, y)
}

fn cross(a: PointMicrometers, b: PointMicrometers) -> i128 {
    i128::from(a.x()) * i128::from(b.y()) - i128::from(a.y()) * i128::from(b.x())
}

fn square(x: i64, y: i64, side: i64) -> Vec<PointMicrometers> {
    vec![point(x, y), point(x + side, y), point(x + side, y + side), point(x, y + side)]
}

fn ring_edges(ring: &[PointMicrometers]) -> Vec<DirectedEdge> {
    (0..ring.len())
        .map(|i| DirectedEdge::new(ring[i], ring[(i + 1) % ring.len()]))
        .collect()
}

#[test]
fn collinear_reduction_keeps_the_signed_area() {
    let walk = vec![
        point(0, 0),
        point(1, 0),
        point(1, 0),
        point(3, 0),
        point(3, 2),
        point(3, 3),
        point(0, 3),
        point(0, 1),
        point(0, 0),
    ];
    let ring = remove_collinear_vertices(walk.clone()).expect("walk reduces to a ring");
    assert_eq!(ring, vec![point(0, 0), point(3, 0), point(3, 3), point(0, 3)]);
    assert_eq!(signed_double_area(&ring), signed_double_area(&walk));
    assert_eq!(signed_double_area(&ring), 18);
}

#[test]
fn collinear_reduction_rejects_a_walk_without_area() {
    let walk = vec![point(0, 0), point(2, 0), point(4, 0), point(2, 0)];
    assert!(remove_collinear_vertices(walk).is_err());
}

#[test]
fn traced_rings_enclose_the_area_their_edges_sweep() {
    let mut edges = ring_edges(&[
        point(0, 0),
        point(2, 0),
        point(4, 0),
        point(4, 2),
        point(2, 2),
        point(2, 4),
        point(0, 4),
        point(0, 2),
    ]);
    let hole = vec![point(1, 1), point(1, 2), point(2, 1)];
    edges.extend(ring_edges(&hole));
    let swept: i128 = edges.iter().map(|edge| cross(edge.start, edge.end)).sum();
    let rings = trace_rings(edges).expect("edges trace");
    let enclosed: i128 = rings.iter().map(|ring| signed_double_area(ring)).sum();
    assert_eq!(rings.len(), 2);
    assert_eq!(enclosed, swept);
    assert_eq!(enclosed, 24 - 1);
}

#[test]
fn holes_go_to_the_smallest_containing_exterior() {
    let outer = square(0, 0, 10);
    let inner = square(2, 2, 6);
    let mut hole = square(4, 4, 2);
    hole.reverse();
    let region = assemble_region(vec![outer.clone(), inner.clone(), hole]).expect("rings assemble");
    let polygons = region.polygons();
    assert_eq!(polygons.len(), 2);
    let outer_polygon = polygons
        .iter()
        .find(|polygon| polygon.exterior().vertices() == outer.as_slice())
        .expect("outer polygon present");
    let inner_polygon = polygons
        .iter()
        .find(|polygon| polygon.exterior().vertices() == inner.as_slice())
        .expect("inner polygon present");
    assert!(outer_polygon.holes().is_empty());
    assert_eq!(inner_polygon.holes().len(), 1);
    assert_eq!(
        inner_polygon.holes()[0].vertices(),
        &[point(4, 4), point(4, 6), point(6, 6), point(6, 4)][..]
    );
    assert_eq!(region.double_area(), 200 + 72 - 8);
}

#[test]
fn a_hole_outside_every_exterior_is_rejected() {
    let mut hole = square(20, 20, 2);
    hole.reverse();
    assert!(assemble_region(vec![square(0, 0, 10), hole]).is_err());
}

#[test]
fn ear_clipping_takes_the_first_ear_each_time() {
    let mut budget = WorkBudget::new();
    let triangles = ear_clip(&square(0, 0, 2), &mut budget).expect("square clips");
    assert_eq!(
        triangles,
        vec![
            [point(0, 2), point(0, 0), point(2, 0)],
            [point(2, 0), point(2, 2), point(0, 2)],
        ]
    );
}

#[test]
fn the_chosen_bridge_is_the_shortest_visible_one() {
    let exterior = square(0, 0, 10);
    let hole = vec![point(6, 4), point(4, 4), point(4, 6), point(6, 6)];
    let holes: Vec<&[PointMicrometers]> = vec![hole.as_slice()];
    let mut budget = WorkBudget::new();
    let (outer, inner) =
        find_bridge(&exterior, &hole, &exterior, &holes, &[], &mut budget).expect("a bridge exists");
    let length = |a: PointMicrometers, b: PointMicrometers| {
        let dx = i128::from(a.x() - b.x());
        let dy = i128::from(a.y() - b.y());
        dx * dx + dy * dy
    };
    let chosen = length(exterior[outer], hole[inner]);
    let mut check = WorkBudget::new();
    for o in 0..exterior.len() {
        for h in 0..hole.len() {
            if bridge_is_visible(hole[h], exterior[o], &exterior, &holes, &[], &mut check)
                .expect("within budget")
            {
                assert!(chosen <= length(exterior[o], hole[h]));
            }
        }
    }
    assert_eq!(chosen, 32);
}

#[test]
fn a_triangulation_must_keep_the_boundary_segmentation() {
    let exterior = vec![point(0, 0), point(1, 0), point(2, 0), point(2, 2), point(0, 2)];
    let merged_bottom = [[point(0, 0), point(2, 0), point(2, 2)], [point(0, 0), point(2, 2), point(0, 2)]];
    assert!(matches!(
        validate_triangulation(&exterior, &[], &merged_bottom, 8),
        Err(MeshError::TriangulationFailed(_))
    ));
    let kept_bottom = [
        [point(0, 0), point(1, 0), point(0, 2)],
        [point(1, 0), point(2, 0), point(2, 2)],
        [point(1, 0), point(2, 2), point(0, 2)],
    ];
    assert_eq!(validate_triangulation(&exterior, &[], &kept_bottom, 8), Ok(()));
}
