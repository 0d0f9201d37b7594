use plaque3mf::pdfium::{
    canonical_artwork_from_rgba, check_page_count, pixel_dimension_for_pdfium, render_dimensions,
    validate_rendered_dimensions, PdfRenderError, PdfRenderOptions,
};
use plaque3mf::{
    Dimension, DocumentError, ForegroundSelection, OutputSizeConstraintsMicrometers,
    PhysicalSizeMicrometers, RasterizationPlan, SamplingPitchMicrometers,
};

fn sample_plan() -> RasterizationPlan {
    RasterizationPlan::fit(
        PhysicalSizeMicrometers::new(200, 100).expect("valid source size"),
        OutputSizeConstraintsMicrometers::new(Some(200), Some(100)).expect("valid constraints"),
        SamplingPitchMicrometers::new(100).expect("valid sampling pitch"),
    )
    .expect("valid rasterization plan")
}

#[test]
fn options_preserve_all_explicit_policy() {
    let constraints = OutputSizeConstraintsMicrometers::new(Some(100_000), Some(50_000))
        .expect("valid constraints");
    let pitch = SamplingPitchMicrometers::new(200).expect("valid pitch");
    let foreground = ForegroundSelection::new(200, true);
    let options = PdfRenderOptions::new(constraints, pitch, foreground);

    assert_eq!(options.output_size_constraints(), constraints);
    assert_eq!(options.sampling_pitch(), pitch);
    assert_eq!(options.foreground_selection(), foreground);
}

#[test]
fn pdfium_pixel_conversion_checks_signed_range() {
    assert_eq!(
        pixel_dimension_for_pdfium(2_147_483_647, Dimension::Width).expect("i32::MAX is valid"),
        i32::MAX
    );
    assert!(matches!(
        pixel_dimension_for_pdfium(2_147_483_648, Dimension::Height),
        Err(PdfRenderError::PixelDimensionOutOfRange {
            dimension: Dimension::Height,
            pixels: 2_147_483_648
        })
    ));
}

#[test]
fn rendered_dimensions_must_equal_the_fixed_plan() {
    let plan = sample_plan();

    validate_rendered_dimensions(&plan, 2, 1).expect("planned dimensions match");
    assert!(matches!(
        validate_rendered_dimensions(&plan, 1, 2),
        Err(PdfRenderError::RenderedDimensionsMismatch {
            expected_width: 2,
            expected_height: 1,
            actual_width: 1,
            actual_height: 2
        })
    ));
}

#[test]
fn normalized_rgba_is_composited_and_thresholded_without_pdfium() {
    let plan = sample_plan();
    let artwork = canonical_artwork_from_rgba(
        &plan,
        ForegroundSelection::new(255, false),
        &[
            0, 0, 0, 255, // opaque black
            0, 0, 0, 0, // transparent hidden black becomes white
        ],
    )
    .expect("valid normalized RGBA");

    assert_eq!(artwork.physical_size(), plan.physical_size());
    assert_eq!(artwork.foreground().as_bytes(), &[1, 0]);
}

#[test]
fn normalized_rgba_length_errors_remain_typed_document_errors() {
    let error = canonical_artwork_from_rgba(
        &sample_plan(),
        ForegroundSelection::new(255, false),
        &[0; 7],
    )
    .expect_err("seven bytes cannot describe two RGBA pixels");

    assert!(matches!(
        error,
        PdfRenderError::Document(DocumentError::RgbaDataLengthMismatch {
            expected: 8,
            actual: 7
        })
    ));
}

#[test]
fn only_single_page_documents_are_accepted() {
    assert_eq!(check_page_count(1), Ok(()));
    assert_eq!(
        check_page_count(2),
        Err(PdfRenderError::UnexpectedPageCount {
            expected: 1,
            actual: 2
        })
    );
    assert_eq!(
        check_page_count(0),
        Err(PdfRenderError::UnexpectedPageCount {
            expected: 1,
            actual: 0
        })
    );
}

#[test]
fn planned_grid_is_requested_from_the_renderer() {
    assert_eq!(render_dimensions(&sample_plan()), Ok((2, 1)));
}
