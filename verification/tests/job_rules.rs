use plaque3mf::job::{
    normalize_fields, MicrometerFields, NormalizedJobSpec, ValidationErrors, ValidationIssue,
    JOB_SPEC_VERSION,
};

/// The version 1 defaults, already in micrometres.
fn default_fields() -> MicrometerFields {
    MicrometerFields {
        schema_version: JOB_SPEC_VERSION,
        max_width: Some(Ok(100_000)),
        max_height: None,
        backing_thickness: Ok(1_200),
        total_thickness: Ok(2_000),
        border_width: Ok(2_000),
        minimum_feature_width: Ok(400),
        contour_tolerance: Ok(50),
        sampling_pitch: Ok(40),
        threshold: 255,
        invert_foreground: false,
    }
}

fn issues(fields: &MicrometerFields) -> Vec<ValidationIssue> {
    normalize_fields(fields)
        .expect_err("fields must be rejected")
        .into_issues()
}

fn normalized(fields: &MicrometerFields) -> NormalizedJobSpec {
    normalize_fields(fields).expect("fields are valid")
}

#[test]
fn default_fields_normalize_to_the_default_snapshot() {
    let spec = normalized(&default_fields());
    assert_eq!(spec.schema_version(), JOB_SPEC_VERSION);
    assert_eq!(spec.size().max_width_micrometers(), Some(100_000));
    assert_eq!(spec.size().max_height_micrometers(), None);
    assert_eq!(spec.geometry().backing_thickness_micrometers(), 1_200);
    assert_eq!(spec.geometry().total_thickness_micrometers(), 2_000);
    assert_eq!(spec.geometry().border_width_micrometers(), 2_000);
    assert_eq!(spec.geometry().minimum_feature_width_micrometers(), 400);
    assert_eq!(spec.geometry().contour_tolerance_micrometers(), 50);
    assert_eq!(spec.raster().sampling_pitch_micrometers(), 40);
    assert_eq!(spec.raster().threshold(), 255);
    assert!(!spec.raster().invert_foreground());
}

#[test]
fn unsupported_versions_are_reported() {
    let fields = MicrometerFields {
        schema_version: JOB_SPEC_VERSION + 1,
        ..default_fields()
    };
    assert_eq!(
        issues(&fields),
        [ValidationIssue::UnsupportedSchemaVersion {
            found: 2,
            supported: 1
        }]
    );
}

#[test]
fn validation_collects_independent_numeric_errors() {
    let fields = MicrometerFields {
        max_width: None,
        max_height: None,
        backing_thickness: Err(ValidationIssue::NotFinite {
            field: "geometry.backing_thickness_mm",
        }),
        total_thickness: Err(ValidationIssue::MustBePositive {
            field: "geometry.total_thickness_mm",
        }),
        border_width: Err(ValidationIssue::MustBeNonnegative {
            field: "geometry.border_width_mm",
        }),
        minimum_feature_width: Err(ValidationIssue::MustBePositive {
            field: "geometry.minimum_feature_width_mm",
        }),
        contour_tolerance: Err(ValidationIssue::NotFinite {
            field: "geometry.contour_tolerance_mm",
        }),
        sampling_pitch: Err(ValidationIssue::MustBePositive {
            field: "raster.mm_per_pixel",
        }),
        ..default_fields()
    };
    assert_eq!(
        issues(&fields),
        [
            ValidationIssue::MissingSizeConstraint,
            ValidationIssue::NotFinite {
                field: "geometry.backing_thickness_mm"
            },
            ValidationIssue::MustBePositive {
                field: "geometry.total_thickness_mm"
            },
            ValidationIssue::MustBeNonnegative {
                field: "geometry.border_width_mm"
            },
            ValidationIssue::MustBePositive {
                field: "geometry.minimum_feature_width_mm"
            },
            ValidationIssue::NotFinite {
                field: "geometry.contour_tolerance_mm"
            },
            ValidationIssue::MustBePositive {
                field: "raster.mm_per_pixel"
            }
        ]
    );
}

#[test]
fn validation_enforces_cross_field_printability_constraints() {
    let fields = MicrometerFields {
        total_thickness: Ok(1_200),
        border_width: Ok(200),
        contour_tolerance: Ok(210),
        sampling_pitch: Ok(210),
        ..default_fields()
    };
    assert_eq!(
        issues(&fields),
        [
            ValidationIssue::TotalThicknessNotGreaterThanBacking,
            ValidationIssue::BorderBelowMinimumFeatureWidth,
            ValidationIssue::ContourToleranceTooLarge,
            ValidationIssue::RasterResolutionTooCoarse
        ]
    );
}

#[test]
fn disabled_border_and_exact_sampling_boundaries_are_valid() {
    let fields = MicrometerFields {
        border_width: Ok(0),
        contour_tolerance: Ok(200),
        sampling_pitch: Ok(200),
        ..default_fields()
    };
    let spec = normalized(&fields);
    assert_eq!(spec.geometry().border_width_micrometers(), 0);
}

#[test]
fn border_must_fit_every_supplied_dimension() {
    let fields = MicrometerFields {
        max_width: Some(Ok(4_000)),
        max_height: Some(Ok(3_000)),
        ..default_fields()
    };
    assert_eq!(
        issues(&fields),
        [
            ValidationIssue::BorderDoesNotFit {
                dimension: "size.max_width_mm"
            },
            ValidationIssue::BorderDoesNotFit {
                dimension: "size.max_height_mm"
            }
        ]
    );
}

#[test]
fn positive_lengths_must_survive_micrometer_conversion() {
    let fields = MicrometerFields {
        max_width: Some(Err(ValidationIssue::RoundsToZeroMicrometers {
            field: "size.max_width_mm",
        })),
        max_height: Some(Err(ValidationIssue::TooLargeForMicrometers {
            field: "size.max_height_mm",
        })),
        ..default_fields()
    };
    assert_eq!(
        issues(&fields),
        [
            ValidationIssue::RoundsToZeroMicrometers {
                field: "size.max_width_mm"
            },
            ValidationIssue::TooLargeForMicrometers {
                field: "size.max_height_mm"
            }
        ]
    );
}

#[test]
fn normalization_exposes_an_owned_integer_snapshot() {
    let mut fields = MicrometerFields {
        max_height: Some(Ok(80_001)),
        threshold: 123,
        invert_foreground: true,
        ..default_fields()
    };
    let spec = normalized(&fields);
    assert_eq!(spec.schema_version(), JOB_SPEC_VERSION);
    assert_eq!(spec.size().max_width_micrometers(), Some(100_000));
    assert_eq!(spec.size().max_height_micrometers(), Some(80_001));
    assert_eq!(spec.geometry().backing_thickness_micrometers(), 1_200);
    assert_eq!(spec.geometry().total_thickness_micrometers(), 2_000);
    assert_eq!(spec.geometry().border_width_micrometers(), 2_000);
    assert_eq!(spec.geometry().minimum_feature_width_micrometers(), 400);
    assert_eq!(spec.geometry().contour_tolerance_micrometers(), 50);
    assert_eq!(spec.raster().sampling_pitch_micrometers(), 40);
    assert_eq!(spec.raster().threshold(), 123);
    assert!(spec.raster().invert_foreground());

    fields.max_width = Some(Ok(1_000));
    fields.backing_thickness = Ok(1_500);
    fields.threshold = 0;
    assert_eq!(fields.max_width, Some(Ok(1_000)));
    assert_eq!(fields.backing_thickness, Ok(1_500));
    assert_eq!(fields.threshold, 0);
    assert_eq!(spec.size().max_width_micrometers(), Some(100_000));
    assert_eq!(spec.geometry().backing_thickness_micrometers(), 1_200);
    assert_eq!(spec.raster().threshold(), 123);
}

#[test]
fn thickness_order_is_checked_after_normalization() {
    let fields = MicrometerFields {
        backing_thickness: Ok(1_000),
        total_thickness: Ok(1_000),
        ..default_fields()
    };
    assert_eq!(
        issues(&fields),
        [ValidationIssue::TotalThicknessNotGreaterThanBacking]
    );
}

#[test]
fn half_feature_limits_are_checked_after_normalization() {
    let fields = MicrometerFields {
        minimum_feature_width: Ok(1_001),
        contour_tolerance: Ok(501),
        sampling_pitch: Ok(501),
        ..default_fields()
    };
    assert_eq!(
        issues(&fields),
        [
            ValidationIssue::ContourToleranceTooLarge,
            ValidationIssue::RasterResolutionTooCoarse
        ]
    );
}

#[test]
fn equivalent_normalized_feature_widths_are_valid() {
    let fields = MicrometerFields {
        border_width: Ok(1_000),
        minimum_feature_width: Ok(1_000),
        ..default_fields()
    };
    let spec = normalized(&fields);
    assert_eq!(spec.geometry().border_width_micrometers(), 1_000);
    assert_eq!(spec.geometry().minimum_feature_width_micrometers(), 1_000);
}

#[test]
fn border_fit_is_checked_after_normalization() {
    let failure = MicrometerFields {
        border_width: Ok(2_001),
        max_width: Some(Ok(4_001)),
        ..default_fields()
    };
    assert_eq!(
        issues(&failure),
        [ValidationIssue::BorderDoesNotFit {
            dimension: "size.max_width_mm"
        }]
    );

    let success = MicrometerFields {
        border_width: Ok(2_000),
        max_width: Some(Ok(4_001)),
        ..default_fields()
    };
    assert!(normalize_fields(&success).is_ok());
}

#[test]
fn invalid_scalars_suppress_dependent_relationship_errors() {
    let fields = MicrometerFields {
        minimum_feature_width: Err(ValidationIssue::RoundsToZeroMicrometers {
            field: "geometry.minimum_feature_width_mm",
        }),
        contour_tolerance: Ok(100_000),
        sampling_pitch: Ok(100_000),
        ..default_fields()
    };
    assert_eq!(
        issues(&fields),
        [ValidationIssue::RoundsToZeroMicrometers {
            field: "geometry.minimum_feature_width_mm"
        }]
    );
}

#[test]
fn validation_errors_report_their_issues() {
    let fields = MicrometerFields {
        max_width: None,
        ..default_fields()
    };
    let errors: ValidationErrors = normalize_fields(&fields).expect_err("a size bound is required");
    assert_eq!(errors.len(), 1);
    assert!(!errors.is_empty());
    assert_eq!(errors.issues(), [ValidationIssue::MissingSizeConstraint]);
}

#[test]
fn a_border_exactly_half_a_dimension_does_not_fit() {
    let fields = MicrometerFields {
        max_height: Some(Ok(4_000)),
        max_width: Some(Ok(10_000)),
        ..default_fields()
    };
    assert_eq!(
        issues(&fields),
        [ValidationIssue::BorderDoesNotFit {
            dimension: "size.max_height_mm"
        }]
    );
}
