use plaque3mf::engine::{DocumentRenderRequest, EngineError};
use plaque3mf::job::{normalize_fields, MicrometerFields, ValidationIssue, JOB_SPEC_VERSION};
use plaque3mf::pdfium::PdfRenderOptions;
use plaque3mf::DocumentError;

fn default_fields() -> MicrometerFields {
    MicrometerFields {
        schema_version: JOB_SPEC_VERSION,
        max_width: Some(Ok(100_000)),
        max_height: None,
        backing_thickness: Ok(1_200),
        total_thickness: Ok(2_000),
        border_width: Ok(2_000),
        minimum_feature_width: Ok(400),
        contour_tolerance: Ok(50),
        sampling_pitch: Ok(40),
        threshold: 255,
        invert_foreground: false,
    }
}

#[test]
fn default_job_maps_to_document_request() {
    let normalized = normalize_fields(&default_fields()).expect("default job is valid");
    let request = DocumentRenderRequest::try_from_normalized(&normalized).expect("default job is valid");

    assert_eq!(request.output_size_constraints().max_width(), Some(100_000));
    assert_eq!(request.output_size_constraints().max_height(), None);
    assert_eq!(request.sampling_pitch().micrometers(), 40);
    assert_eq!(request.foreground_selection().threshold(), 255);
    assert!(!request.foreground_selection().invert());
}

#[test]
fn all_document_settings_map_exactly() {
    let fields = MicrometerFields {
        max_width: Some(Ok(80_000)),
        max_height: Some(Ok(60_000)),
        sampling_pitch: Ok(25),
        threshold: 127,
        invert_foreground: true,
        ..default_fields()
    };
    let normalized = normalize_fields(&fields).expect("custom job is valid");
    let request = DocumentRenderRequest::try_from_normalized(&normalized).expect("custom job is valid");

    assert_eq!(request.output_size_constraints().max_width(), Some(80_000));
    assert_eq!(request.output_size_constraints().max_height(), Some(60_000));
    assert_eq!(request.sampling_pitch().micrometers(), 25);
    assert_eq!(request.foreground_selection().threshold(), 127);
    assert!(request.foreground_selection().invert());
}

#[test]
fn post_normalization_invalid_job_is_rejected() {
    let fields = MicrometerFields {
        minimum_feature_width: Ok(1_001),
        sampling_pitch: Ok(501),
        ..default_fields()
    };
    let errors = normalize_fields(&fields).expect_err("fixed-point resolution constraint must be enforced");
    let error = EngineError::from(errors);
    assert!(matches!(
        error,
        EngineError::InvalidJobSpec(ref errors)
            if errors.issues() == [ValidationIssue::RasterResolutionTooCoarse]
    ));
}

#[test]
fn typed_constructor_errors_map_to_engine_errors() {
    let source = DocumentError::MissingOutputSizeConstraint;

    assert_eq!(
        EngineError::from(source.clone()),
        EngineError::InvalidDocumentOptions(source)
    );
}

#[test]
fn document_request_converts_to_pdf_render_options() {
    let normalized = normalize_fields(&default_fields()).expect("default job is valid");
    let request = DocumentRenderRequest::try_from_normalized(&normalized).expect("default job is valid");
    let options = PdfRenderOptions::new(
        request.output_size_constraints(),
        request.sampling_pitch(),
        request.foreground_selection(),
    );

    assert_eq!(options.output_size_constraints(), request.output_size_constraints());
    assert_eq!(options.sampling_pitch(), request.sampling_pitch());
    assert_eq!(options.foreground_selection(), request.foreground_selection());
}
