use plaque3mf::planar::topology::{complementary_boundary_edges, substrate_boundary_edges};
use plaque3mf::planar::{PlanarError, PlanarOptions, PointMicrometers, Polygon, RectMicrometers, RegionSet, Ring};

fn ring(vertices: &[(i64, i64)]) -> Ring {
    Ring::from_oriented_vertices(
        vertices
            .iter()
            .map(|&(x, y)| PointMicrometers::new(x, y))
            .collect(),
    )
}

#[test]
fn points_order_lexicographically() {
    let mut points = [
        PointMicrometers::new(1, 0),
        PointMicrometers::new(0, 2),
        PointMicrometers::new(0, 1),
    ];
    points.sort();

    assert_eq!(
        points,
        [
            PointMicrometers::new(0, 1),
            PointMicrometers::new(0, 2),
            PointMicrometers::new(1, 0),
        ]
    );
}

#[test]
fn rectangle_corners_and_area_are_exact() {
    let rectangle = RectMicrometers::from_positive_size(10, 20);

    assert_eq!(rectangle.width(), 10);
    assert_eq!(rectangle.height(), 20);
    assert_eq!(
        rectangle.corners(),
        [
            PointMicrometers::new(0, 0),
            PointMicrometers::new(10, 0),
            PointMicrometers::new(10, 20),
            PointMicrometers::new(0, 20),
        ]
    );
    assert_eq!(rectangle.double_area(), 400);
}

#[test]
fn ring_area_reports_orientation() {
    let counter_clockwise = ring(&[(0, 0), (10, 0), (10, 10), (0, 10)]);
    let clockwise = ring(&[(0, 0), (0, 10), (10, 10), (10, 0)]);

    assert_eq!(counter_clockwise.signed_double_area(), 200);
    assert!(counter_clockwise.is_ccw());
    assert_eq!(clockwise.signed_double_area(), -200);
    assert!(!clockwise.is_ccw());
}

#[test]
fn polygon_and_region_area_subtract_holes() {
    let exterior = ring(&[(0, 0), (10, 0), (10, 10), (0, 10)]);
    let hole = ring(&[(2, 2), (2, 4), (4, 4), (4, 2)]);
    let polygon = Polygon::from_oriented_rings(exterior, vec![hole]);
    let regions = RegionSet::from_polygons(vec![polygon.clone()]);

    assert_eq!(polygon.double_area(), 192);
    assert_eq!(regions.double_area(), 192);
    assert!(!regions.is_empty());
}

#[test]
fn complement_cancels_footprint_edges() {
    let footprint = RectMicrometers::from_positive_size(10, 10);
    let substrate =
        substrate_boundary_edges(&[0, 10], &[0, 10], &[1], 1, 1).expect("boundary builds");
    let fill = complementary_boundary_edges(footprint, &[0, 10], &[0, 10], &substrate)
        .expect("complement builds");

    assert!(fill.is_empty());
}

#[test]
fn empty_cell_leaves_the_whole_footprint_to_the_complement() {
    let footprint = RectMicrometers::from_positive_size(10, 10);
    let substrate =
        substrate_boundary_edges(&[0, 10], &[0, 10], &[0], 1, 1).expect("boundary builds");
    assert!(substrate.is_empty());
    let fill = complementary_boundary_edges(footprint, &[0, 10], &[0, 10], &substrate)
        .expect("complement builds");
    assert_eq!(fill.len(), 4);
}

#[test]
fn planar_options_validate_scalar_domains() {
    assert!(matches!(PlanarOptions::new(-1, 1, 0), Err(PlanarError::NegativeBorderWidth)));
    assert!(matches!(PlanarOptions::new(0, 0, 0), Err(PlanarError::NonPositiveMinimumFeatureWidth)));
    assert!(matches!(PlanarOptions::new(0, 1, -1), Err(PlanarError::NegativeContourTolerance)));
    assert!(matches!(
        PlanarOptions::new(0, 1, i64::MAX),
        Err(PlanarError::ContourToleranceTooLarge { .. })
    ));

    let options = PlanarOptions::new(2_000, 400, 0).expect("settings are valid");
    assert_eq!(options.border_width_micrometers(), 2_000);
    assert_eq!(options.minimum_feature_width_micrometers(), 400);
    assert_eq!(options.contour_tolerance_micrometers(), 0);
}
