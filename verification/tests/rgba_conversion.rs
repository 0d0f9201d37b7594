use plaque3mf::rgba::composite_over_white;
use plaque3mf::{rgba_over_white_to_grayscale, DocumentError};

#[test]
fn fully_transparent_pixels_are_white_regardless_of_hidden_color() {
    let raster = rgba_over_white_to_grayscale(
        4,
        1,
        &[0, 0, 0, 0, 255, 0, 0, 0, 0, 255, 0, 0, 17, 83, 201, 0],
    )
    .expect("valid RGBA raster");

    assert_eq!(raster.pixels(), &[255, 255, 255, 255]);
}

#[test]
fn fully_opaque_primary_and_extreme_colors_use_fixed_weights() {
    let raster = rgba_over_white_to_grayscale(
        5,
        1,
        &[
            255, 0, 0, 255, // red
            0, 255, 0, 255, // green
            0, 0, 255, 255, // blue
            0, 0, 0, 255, // black
            255, 255, 255, 255, // white
        ],
    )
    .expect("valid RGBA raster");

    assert_eq!(raster.pixels(), &[77, 149, 29, 0, 255]);
}

#[test]
fn half_alpha_rounding_boundary_is_stable() {
    let raster = rgba_over_white_to_grayscale(
        4,
        1,
        &[
            0, 0, 0, 127, // just below half opacity
            0, 0, 0, 128, // exactly the upper integer half
            255, 255, 255, 127, 255, 255, 255, 128,
        ],
    )
    .expect("valid RGBA raster");

    assert_eq!(raster.pixels(), &[128, 127, 255, 255]);
}

#[test]
fn conversion_preserves_top_left_row_major_order() {
    let raster = rgba_over_white_to_grayscale(
        2,
        2,
        &[
            0, 0, 0, 255, // (0, 0)
            255, 255, 255, 255, // (1, 0)
            255, 0, 0, 255, // (0, 1)
            0, 255, 0, 255, // (1, 1)
        ],
    )
    .expect("valid RGBA raster");

    assert_eq!(raster.pixels(), &[0, 255, 77, 149]);
    assert_eq!(raster.pixel(0, 0), Some(0));
    assert_eq!(raster.pixel(1, 0), Some(255));
    assert_eq!(raster.pixel(0, 1), Some(77));
    assert_eq!(raster.pixel(1, 1), Some(149));
}

#[test]
fn invalid_rgba_length_reports_expected_and_actual_byte_counts() {
    assert_eq!(
        rgba_over_white_to_grayscale(2, 1, &[0; 7]),
        Err(DocumentError::RgbaDataLengthMismatch {
            expected: 8,
            actual: 7,
        })
    );
    assert_eq!(
        rgba_over_white_to_grayscale(1, 1, &[0; 5]),
        Err(DocumentError::RgbaDataLengthMismatch {
            expected: 4,
            actual: 5,
        })
    );
}

#[test]
fn compositing_rounds_to_nearest_over_white() {
    assert_eq!(composite_over_white(0, 255), 0);
    assert_eq!(composite_over_white(0, 0), 255);
    assert_eq!(composite_over_white(100, 128), 177);
}
