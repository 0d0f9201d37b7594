use plaque3mf::engine::EngineError;
use plaque3mf::export::ExportError;
use plaque3mf::job::{normalize_fields, MicrometerFields, ValidationIssue, JOB_SPEC_VERSION};
use plaque3mf::mesh::{MeshError, MeshPart};
use plaque3mf::pdfium::PdfRenderError;
use plaque3mf::planar::PlanarError;
use plaque3mf::{Dimension, DocumentError};

#[test]
fn document_errors_name_their_dimension_and_values() {
    assert_eq!(
        DocumentError::ZeroPixelDimension {
            dimension: Dimension::Width
        }
        .message(),
        "pixel width must be greater than zero"
    );
    assert_eq!(
        DocumentError::NonPositivePhysicalDimension {
            dimension: Dimension::Height,
            micrometers: -25
        }
        .message(),
        "physical height must be positive; got -25 micrometres"
    );
    assert_eq!(
        DocumentError::RasterTooLarge {
            width: 20_000,
            height: 20_000,
            max_pixels: 268_435_456
        }
        .message(),
        "raster 20000x20000 exceeds the limit of 268435456 pixels"
    );
    assert_eq!(Dimension::Height.message(), "height");
}

#[test]
fn planar_errors_describe_the_failure() {
    assert_eq!(
        PlanarError::DiagonalContactTooFine { x: 0, y: -7 }.message(),
        "diagonal contact at (0, -7) cannot be separated on the integer-micrometre grid"
    );
    assert_eq!(
        PlanarError::InvalidTopology("open ring").message(),
        "invalid planar topology: open ring"
    );
    assert_eq!(
        PlanarError::ResolutionTooFine {
            dimension: Dimension::Width,
            pixels: 3,
            extent: 2
        }
        .message(),
        "3 width pixels cannot be represented across 2 integer micrometres"
    );
}

#[test]
fn mesh_errors_name_the_part() {
    assert_eq!(MeshPart::Fill(2).message(), "fill component 2");
    assert_eq!(
        MeshError::NonManifoldEdge {
            part: MeshPart::Substrate,
            first: 1,
            second: 4,
            uses: 3,
            balance: -1
        }
        .message(),
        "substrate edge 1-4 has 3 incidences and direction balance -1"
    );
    assert_eq!(
        MeshError::VolumeMismatch {
            part: MeshPart::Fill(0),
            expected: i128::MIN,
            actual: i128::MAX
        }
        .message(),
        format!(
            "fill component 0 signed six-volume is {}, expected {}",
            i128::MAX,
            i128::MIN
        )
    );
}

#[test]
fn validation_errors_list_every_issue() {
    let fields = MicrometerFields {
        schema_version: JOB_SPEC_VERSION,
        max_width: None,
        max_height: None,
        backing_thickness: Ok(1_200),
        total_thickness: Ok(2_000),
        border_width: Ok(0),
        minimum_feature_width: Ok(400),
        contour_tolerance: Ok(50),
        sampling_pitch: Err(ValidationIssue::MustBePositive {
            field: "raster.mm_per_pixel",
        }),
        threshold: 255,
        invert_foreground: false,
    };
    let errors = normalize_fields(&fields).expect_err("invalid job must be rejected");
    assert_eq!(
        errors.message(),
        "job specification has 2 validation error(s); at least one of size.max_width_mm or size.max_height_mm is required; raster.mm_per_pixel must be greater than zero"
    );
    assert_eq!(
        EngineError::InvalidJobSpec(errors).message(),
        "invalid job specification: job specification has 2 validation error(s); at least one of size.max_width_mm or size.max_height_mm is required; raster.mm_per_pixel must be greater than zero"
    );
}

#[test]
fn export_and_render_errors_describe_the_limit() {
    assert_eq!(
        ExportError::PackageTooLarge {
            required: 4_294_967_296,
            max: 4_294_967_295
        }
        .message(),
        "3MF package requires 4294967296 bytes; the ZIP32 limit is 4294967295"
    );
    assert_eq!(
        PdfRenderError::PixelDimensionOutOfRange {
            dimension: Dimension::Height,
            pixels: 2_147_483_648
        }
        .message(),
        "planned pixel height 2147483648 exceeds Pdfium's signed pixel range"
    );
    assert_eq!(
        PdfRenderError::Document(DocumentError::MissingOutputSizeConstraint).message(),
        "invalid canonical document: at least one maximum output dimension is required"
    );
}
