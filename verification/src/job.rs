//! Versioned job settings in integer micrometres: field-addressed validation
//! issues, the cross-field printability rules, and the normalized snapshot
//! that downstream geometry reads.
//!
//! Each millimetre field is first converted on its own (rounded to the
//! nearest micrometre, half ties up) into either a micrometre value or the
//! issue that rejected it. The rules here combine those per-field outcomes;
//! cross-field constraints are evaluated on the normalized integers, so
//! downstream geometry observes exactly the values that were validated.

use vstd::prelude::*;

verus! {

/// The schema version implemented by this library.
pub const JOB_SPEC_VERSION: u32 = 1;

/// Default grayscale threshold for version 1.
pub const DEFAULT_RASTER_THRESHOLD: u8 = 255;

/// JSON-style path of the maximum width.
pub const MAX_WIDTH_FIELD: &'static str = "size.max_width_mm";

/// JSON-style path of the maximum height.
pub const MAX_HEIGHT_FIELD: &'static str = "size.max_height_mm";

/// JSON-style path of the backing thickness.
pub const BACKING_THICKNESS_FIELD: &'static str = "geometry.backing_thickness_mm";

/// JSON-style path of the total thickness.
pub const TOTAL_THICKNESS_FIELD: &'static str = "geometry.total_thickness_mm";

/// JSON-style path of the border width.
pub const BORDER_WIDTH_FIELD: &'static str = "geometry.border_width_mm";

/// JSON-style path of the minimum feature width.
pub const MINIMUM_FEATURE_WIDTH_FIELD: &'static str = "geometry.minimum_feature_width_mm";

/// JSON-style path of the contour tolerance.
pub const CONTOUR_TOLERANCE_FIELD: &'static str = "geometry.contour_tolerance_mm";

/// JSON-style path of the sampling pitch.
pub const MM_PER_PIXEL_FIELD: &'static str = "raster.mm_per_pixel";

/// One deterministic, field-addressed validation problem.
#[derive(Debug, Clone, Copy, PartialEq, Eq)]
pub enum ValidationIssue {
    /// The document uses a schema version this library does not implement.
    UnsupportedSchemaVersion { found: u32, supported: u32 },
    /// Neither maximum width nor maximum height was supplied.
    MissingSizeConstraint,
    /// A numeric field is NaN or infinite.
    NotFinite { field: &'static str },
    /// A numeric field must be greater than zero.
    MustBePositive { field: &'static str },
    /// A numeric field must be zero or greater.
    MustBeNonnegative { field: &'static str },
    /// A millimetre value cannot be represented as an `i64` micrometre value.
    TooLargeForMicrometers { field: &'static str },
    /// A positive millimetre value rounds to zero micrometres.
    RoundsToZeroMicrometers { field: &'static str },
    /// Total thickness must be greater than backing thickness.
    TotalThicknessNotGreaterThanBacking,
    /// A nonzero border is smaller than the printable feature width.
    BorderBelowMinimumFeatureWidth,
    /// Contour tolerance exceeds half the minimum printable feature width.
    ContourToleranceTooLarge,
    /// The configured sampling pitch cannot resolve the minimum feature width.
    RasterResolutionTooCoarse,
    /// Twice the border width is not smaller than a target dimension.
    BorderDoesNotFit { dimension: &'static str },
}

/// The complete set of problems found while validating a job specification.
#[derive(Debug, Clone, PartialEq, Eq)]
pub struct ValidationErrors {
    issues: Vec<ValidationIssue>,
}

impl ValidationErrors {
    /// The problems in validation order.
    pub closed spec fn spec_issues(&self) -> Seq<ValidationIssue> {
        self.issues@
    }

    /// Returns the number of validation problems.
    pub fn len(&self) -> (count: usize)
        ensures
            count == self.spec_issues().len(),
    {
        self.issues.len()
    }

    /// Returns whether no validation problems are present.
    pub fn is_empty(&self) -> (empty: bool)
        ensures
            empty == (self.spec_issues().len() == 0),
    {
        self.issues.len() == 0
    }

    /// Returns all validation problems in deterministic validation order.
    pub fn issues(&self) -> (issues: &[ValidationIssue])
        ensures
            issues@ == self.spec_issues(),
    {
        self.issues.as_slice()
    }

    /// Consumes the collection and returns its validation problems.
    pub fn into_issues(self) -> (issues: Vec<ValidationIssue>)
        ensures
            issues@ == self.spec_issues(),
    {
        self.issues
    }
}

/// Validated maximum output dimensions in integer micrometres.
#[derive(Debug, Clone, Copy, PartialEq, Eq, Structural)]
pub struct NormalizedSizeConstraints {
    max_width_micrometers: Option<i64>,
    max_height_micrometers: Option<i64>,
}

impl NormalizedSizeConstraints {
    /// The maximum output width, if supplied.
    pub closed spec fn spec_max_width(self) -> Option<i64> {
        self.max_width_micrometers
    }

    /// The maximum output height, if supplied.
    pub closed spec fn spec_max_height(self) -> Option<i64> {
        self.max_height_micrometers
    }

    /// Returns the maximum output width in micrometres, if supplied.
    pub fn max_width_micrometers(&self) -> (width: Option<i64>)
        ensures
            width == self.spec_max_width(),
    {
        self.max_width_micrometers
    }

    /// Returns the maximum output height in micrometres, if supplied.
    pub fn max_height_micrometers(&self) -> (height: Option<i64>)
        ensures
            height == self.spec_max_height(),
    {
        self.max_height_micrometers
    }
}

/// Validated printable-geometry settings in integer micrometres.
#[derive(Debug, Clone, Copy, PartialEq, Eq, Structural)]
pub struct NormalizedGeometryOptions {
    backing_thickness_micrometers: i64,
    total_thickness_micrometers: i64,
    border_width_micrometers: i64,
    minimum_feature_width_micrometers: i64,
    contour_tolerance_micrometers: i64,
}

impl NormalizedGeometryOptions {
    /// The backing thickness.
    pub closed spec fn spec_backing(self) -> i64 {
        self.backing_thickness_micrometers
    }

    /// The total finished thickness.
    pub closed spec fn spec_total(self) -> i64 {
        self.total_thickness_micrometers
    }

    /// The border width.
    pub closed spec fn spec_border(self) -> i64 {
        self.border_width_micrometers
    }

    /// The minimum printable feature width.
    pub closed spec fn spec_minimum_feature(self) -> i64 {
        self.minimum_feature_width_micrometers
    }

    /// The contour simplification tolerance.
    pub closed spec fn spec_tolerance(self) -> i64 {
        self.contour_tolerance_micrometers
    }

    /// Returns the backing thickness in micrometres.
    pub fn backing_thickness_micrometers(&self) -> (backing: i64)
        ensures
            backing == self.spec_backing(),
    {
        self.backing_thickness_micrometers
    }

    /// Returns the total finished thickness in micrometres.
    pub fn total_thickness_micrometers(&self) -> (total: i64)
        ensures
            total == self.spec_total(),
    {
        self.total_thickness_micrometers
    }

    /// Returns the generated border width in micrometres.
    pub fn border_width_micrometers(&self) -> (border: i64)
        ensures
            border == self.spec_border(),
    {
        self.border_width_micrometers
    }

    /// Returns the minimum printable feature width in micrometres.
    pub fn minimum_feature_width_micrometers(&self) -> (minimum: i64)
        ensures
            minimum == self.spec_minimum_feature(),
    {
        self.minimum_feature_width_micrometers
    }

    /// Returns the contour simplification tolerance in micrometres.
    pub fn contour_tolerance_micrometers(&self) -> (tolerance: i64)
        ensures
            tolerance == self.spec_tolerance(),
    {
        self.contour_tolerance_micrometers
    }
}

/// Validated rasterization and foreground settings.
#[derive(Debug, Clone, Copy, PartialEq, Eq, Structural)]
pub struct NormalizedRasterOptions {
    sampling_pitch_micrometers: i64,
    threshold: u8,
    invert_foreground: bool,
}

impl NormalizedRasterOptions {
    /// The physical sampling pitch.
    pub closed spec fn spec_pitch(self) -> i64 {
        self.sampling_pitch_micrometers
    }

    /// The exclusive grayscale foreground threshold.
    pub closed spec fn spec_threshold(self) -> u8 {
        self.threshold
    }

    /// Whether foreground selection is inverted.
    pub closed spec fn spec_invert(self) -> bool {
        self.invert_foreground
    }

    /// Returns the physical sampling pitch in micrometres per pixel.
    pub fn sampling_pitch_micrometers(&self) -> (pitch: i64)
        ensures
            pitch == self.spec_pitch(),
    {
        self.sampling_pitch_micrometers
    }

    /// Returns the exclusive grayscale foreground threshold.
    pub fn threshold(&self) -> (threshold: u8)
        ensures
            threshold == self.spec_threshold(),
    {
        self.threshold
    }

    /// Returns whether foreground selection is inverted.
    pub fn invert_foreground(&self) -> (invert: bool)
        ensures
            invert == self.spec_invert(),
    {
        self.invert_foreground
    }
}

/// A validated, deterministic snapshot of one job specification.
#[derive(Debug, Clone, Copy, PartialEq, Eq, Structural)]
pub struct NormalizedJobSpec {
    schema_version: u32,
    size: NormalizedSizeConstraints,
    geometry: NormalizedGeometryOptions,
    raster: NormalizedRasterOptions,
}

impl NormalizedJobSpec {
    /// Every printability rule holds of the normalized values: at least one
    /// positive size bound, positive thicknesses with the total above the
    /// backing, a border that is zero or at least the minimum feature and
    /// whose double is below every size bound, and a tolerance and pitch of at
    /// most half the minimum feature.
    #[verifier::type_invariant]
    pub open spec fn wf(self) -> bool {
        let size = self.spec_size();
        let geometry = self.spec_geometry();
        let raster = self.spec_raster();
        &&& (size.spec_max_width() is Some || size.spec_max_height() is Some)
        &&& (size.spec_max_width() matches Some(width) ==> width >= 1 && 2 * geometry.spec_border()
            < width)
        &&& (size.spec_max_height() matches Some(height) ==> height >= 1 && 2
            * geometry.spec_border() < height)
        &&& geometry.spec_backing() >= 1
        &&& geometry.spec_total() > geometry.spec_backing()
        &&& geometry.spec_border() >= 0
        &&& (geometry.spec_border() == 0 || geometry.spec_border() >= geometry.spec_minimum_feature())
        &&& geometry.spec_minimum_feature() >= 1
        &&& geometry.spec_tolerance() >= 1
        &&& 2 * geometry.spec_tolerance() <= geometry.spec_minimum_feature()
        &&& raster.spec_pitch() >= 1
        &&& 2 * raster.spec_pitch() <= geometry.spec_minimum_feature()
    }

    /// The validated schema version.
    pub closed spec fn spec_schema_version(self) -> u32 {
        self.schema_version
    }

    /// The normalized output-size constraints.
    pub closed spec fn spec_size(self) -> NormalizedSizeConstraints {
        self.size
    }

    /// The normalized printable-geometry settings.
    pub closed spec fn spec_geometry(self) -> NormalizedGeometryOptions {
        self.geometry
    }

    /// The normalized rasterization settings.
    pub closed spec fn spec_raster(self) -> NormalizedRasterOptions {
        self.raster
    }

    /// Returns the validated schema version.
    pub fn schema_version(&self) -> (version: u32)
        ensures
            version == self.spec_schema_version(),
    {
        self.schema_version
    }

    /// Returns normalized output-size constraints.
    pub fn size(&self) -> (size: &NormalizedSizeConstraints)
        ensures
            *size == self.spec_size(),
            self.wf(),
    {
        proof {
            use_type_invariant(self);
        }
        &self.size
    }

    /// Returns normalized printable-geometry settings.
    pub fn geometry(&self) -> (geometry: &NormalizedGeometryOptions)
        ensures
            *geometry == self.spec_geometry(),
            self.wf(),
    {
        proof {
            use_type_invariant(self);
        }
        &self.geometry
    }

    /// Returns normalized rasterization settings.
    pub fn raster(&self) -> (raster: &NormalizedRasterOptions)
        ensures
            *raster == self.spec_raster(),
            self.wf(),
    {
        proof {
            use_type_invariant(self);
        }
        &self.raster
    }
}

/// Every setting of one job, with each millimetre field already converted on
/// its own into integer micrometres or into the issue that rejected it.
#[derive(Debug, PartialEq, Eq)]
pub struct MicrometerFields {
    /// The declared schema version.
    pub schema_version: u32,
    /// The maximum width, if supplied.
    pub max_width: Option<Result<i64, ValidationIssue>>,
    /// The maximum height, if supplied.
    pub max_height: Option<Result<i64, ValidationIssue>>,
    /// The backing thickness.
    pub backing_thickness: Result<i64, ValidationIssue>,
    /// The total finished thickness.
    pub total_thickness: Result<i64, ValidationIssue>,
    /// The border width; zero disables the border.
    pub border_width: Result<i64, ValidationIssue>,
    /// The minimum printable feature width.
    pub minimum_feature_width: Result<i64, ValidationIssue>,
    /// The contour simplification tolerance.
    pub contour_tolerance: Result<i64, ValidationIssue>,
    /// The sampling pitch.
    pub sampling_pitch: Result<i64, ValidationIssue>,
    /// Grayscale values strictly below this value are foreground.
    pub threshold: u8,
    /// Whether to invert the binary foreground mask after thresholding.
    pub invert_foreground: bool,
}

/// A converted positive field holds at least one micrometre.
pub open spec fn positive_field(field: Result<i64, ValidationIssue>) -> bool {
    field matches Ok(value) ==> value >= 1
}

/// A converted optional positive field holds at least one micrometre.
pub open spec fn optional_positive_field(field: Option<Result<i64, ValidationIssue>>) -> bool {
    field matches Some(inner) ==> positive_field(inner)
}

/// What a per-field conversion can yield: positive lengths of at least one
/// micrometre and a border of zero or more.
pub open spec fn fields_converted(fields: MicrometerFields) -> bool {
    &&& optional_positive_field(fields.max_width)
    &&& optional_positive_field(fields.max_height)
    &&& positive_field(fields.backing_thickness)
    &&& positive_field(fields.total_thickness)
    &&& (fields.border_width matches Ok(value) ==> value >= 0)
    &&& positive_field(fields.minimum_feature_width)
    &&& positive_field(fields.contour_tolerance)
    &&& positive_field(fields.sampling_pitch)
}

/// The issue of a rejected field, if it was rejected.
pub open spec fn field_issue(field: Result<i64, ValidationIssue>) -> Seq<ValidationIssue> {
    match field {
        Ok(_) => Seq::empty(),
        Err(issue) => seq![issue],
    }
}

/// The issue of a supplied but rejected optional field.
pub open spec fn optional_field_issue(field: Option<Result<i64, ValidationIssue>>) -> Seq<
    ValidationIssue,
> {
    match field {
        Some(inner) => field_issue(inner),
        None => Seq::empty(),
    }
}

/// `issue` when `condition` holds, else nothing.
pub open spec fn issue_if(condition: bool, issue: ValidationIssue) -> Seq<ValidationIssue> {
    if condition {
        seq![issue]
    } else {
        Seq::empty()
    }
}

/// Whether twice the border reaches a supplied, accepted dimension.
pub open spec fn spec_border_does_not_fit(border: i64, dimension: Option<Result<i64, ValidationIssue>>) -> bool {
    dimension matches Some(Ok(value)) && 2 * border >= value
}

/// The problems of the individual fields, in field order.
pub open spec fn scalar_issues(fields: MicrometerFields) -> Seq<ValidationIssue> {
    issue_if(
        fields.schema_version != JOB_SPEC_VERSION,
        ValidationIssue::UnsupportedSchemaVersion {
            found: fields.schema_version,
            supported: JOB_SPEC_VERSION,
        },
    ) + issue_if(
        fields.max_width is None && fields.max_height is None,
        ValidationIssue::MissingSizeConstraint,
    ) + optional_field_issue(fields.max_width) + optional_field_issue(fields.max_height)
        + field_issue(fields.backing_thickness) + field_issue(fields.total_thickness) + field_issue(
        fields.border_width,
    ) + field_issue(fields.minimum_feature_width) + field_issue(fields.contour_tolerance)
        + field_issue(fields.sampling_pitch)
}

/// The cross-field problems, each checked only where every field it relates
/// was accepted.
pub open spec fn relation_issues(fields: MicrometerFields) -> Seq<ValidationIssue> {
    feature_issues(fields) + border_fit_issues(fields)
}

/// The thickness-order and feature-width problems.
pub open spec fn feature_issues(fields: MicrometerFields) -> Seq<ValidationIssue> {
    issue_if(thickness_misordered(fields), ValidationIssue::TotalThicknessNotGreaterThanBacking)
        + issue_if(border_too_thin(fields), ValidationIssue::BorderBelowMinimumFeatureWidth)
        + issue_if(
        exceeds_half_feature(fields.contour_tolerance, fields.minimum_feature_width),
        ValidationIssue::ContourToleranceTooLarge,
    ) + issue_if(
        exceeds_half_feature(fields.sampling_pitch, fields.minimum_feature_width),
        ValidationIssue::RasterResolutionTooCoarse,
    )
}

/// The border-fit problems, width first.
pub open spec fn border_fit_issues(fields: MicrometerFields) -> Seq<ValidationIssue> {
    issue_if(
        border_misfit(fields, fields.max_width),
        ValidationIssue::BorderDoesNotFit { dimension: MAX_WIDTH_FIELD },
    ) + issue_if(
        border_misfit(fields, fields.max_height),
        ValidationIssue::BorderDoesNotFit { dimension: MAX_HEIGHT_FIELD },
    )
}

/// Every problem of a job, in deterministic validation order.
pub open spec fn job_issues(fields: MicrometerFields) -> Seq<ValidationIssue> {
    scalar_issues(fields) + relation_issues(fields)
}

/// The accepted value of an optional field.
pub open spec fn accepted(field: Option<Result<i64, ValidationIssue>>) -> Option<i64> {
    match field {
        Some(Ok(value)) => Some(value),
        _ => None,
    }
}

/// The snapshot of a job without problems.
pub open spec fn snapshot_matches(fields: MicrometerFields, spec: NormalizedJobSpec) -> bool {
    &&& spec.spec_schema_version() == fields.schema_version
    &&& spec.spec_size().spec_max_width() == accepted(fields.max_width)
    &&& spec.spec_size().spec_max_height() == accepted(fields.max_height)
    &&& fields.backing_thickness == Ok::<i64, ValidationIssue>(spec.spec_geometry().spec_backing())
    &&& fields.total_thickness == Ok::<i64, ValidationIssue>(spec.spec_geometry().spec_total())
    &&& fields.border_width == Ok::<i64, ValidationIssue>(spec.spec_geometry().spec_border())
    &&& fields.minimum_feature_width == Ok::<i64, ValidationIssue>(
        spec.spec_geometry().spec_minimum_feature(),
    )
    &&& fields.contour_tolerance == Ok::<i64, ValidationIssue>(spec.spec_geometry().spec_tolerance())
    &&& fields.sampling_pitch == Ok::<i64, ValidationIssue>(spec.spec_raster().spec_pitch())
    &&& spec.spec_raster().spec_threshold() == fields.threshold
    &&& spec.spec_raster().spec_invert() == fields.invert_foreground
}

/// A job without problems has every field accepted.
proof fn lemma_clean_fields(fields: MicrometerFields)
    requires
        job_issues(fields).len() == 0,
    ensures
        fields.backing_thickness is Ok,
        fields.total_thickness is Ok,
        fields.border_width is Ok,
        fields.minimum_feature_width is Ok,
        fields.contour_tolerance is Ok,
        fields.sampling_pitch is Ok,
        fields.max_width is Some || fields.max_height is Some,
        fields.max_width is Some ==> fields.max_width->0 is Ok,
        fields.max_height is Some ==> fields.max_height->0 is Ok,
        !thickness_misordered(fields),
        !border_too_thin(fields),
        !exceeds_half_feature(fields.contour_tolerance, fields.minimum_feature_width),
        !exceeds_half_feature(fields.sampling_pitch, fields.minimum_feature_width),
        !border_misfit(fields, fields.max_width),
        !border_misfit(fields, fields.max_height),
{
    lemma_clean_scalars(fields);
    lemma_clean_relations(fields);
}

/// No scalar problem means every field was accepted and a size bound supplied.
proof fn lemma_clean_scalars(fields: MicrometerFields)
    requires
        scalar_issues(fields).len() == 0,
    ensures
        fields.backing_thickness is Ok,
        fields.total_thickness is Ok,
        fields.border_width is Ok,
        fields.minimum_feature_width is Ok,
        fields.contour_tolerance is Ok,
        fields.sampling_pitch is Ok,
        fields.max_width is Some || fields.max_height is Some,
        fields.max_width is Some ==> fields.max_width->0 is Ok,
        fields.max_height is Some ==> fields.max_height->0 is Ok,
{
    assert(field_issue(fields.backing_thickness).len() == 0);
    assert(field_issue(fields.total_thickness).len() == 0);
    assert(field_issue(fields.border_width).len() == 0);
    assert(field_issue(fields.minimum_feature_width).len() == 0);
    assert(field_issue(fields.contour_tolerance).len() == 0);
    assert(field_issue(fields.sampling_pitch).len() == 0);
    assert(optional_field_issue(fields.max_width).len() == 0);
    assert(optional_field_issue(fields.max_height).len() == 0);
}

/// No cross-field problem means every relation holds.
proof fn lemma_clean_relations(fields: MicrometerFields)
    requires
        relation_issues(fields).len() == 0,
    ensures
        !thickness_misordered(fields),
        !border_too_thin(fields),
        !exceeds_half_feature(fields.contour_tolerance, fields.minimum_feature_width),
        !exceeds_half_feature(fields.sampling_pitch, fields.minimum_feature_width),
        !border_misfit(fields, fields.max_width),
        !border_misfit(fields, fields.max_height),
{
    assert(feature_issues(fields).len() == 0);
    assert(border_fit_issues(fields).len() == 0);
}

/// Twice a micrometre value, without overflow.
pub fn twice(value: i64) -> (doubled: i128)
    ensures
        doubled == 2 * value,
{
    value as i128 * 2
}

/// Whether twice the border reaches a supplied, accepted dimension.
pub fn border_does_not_fit(border_width_micrometers: i64, dimension: &Option<Result<i64, ValidationIssue>>) -> (misfit: bool)
    ensures
        misfit == spec_border_does_not_fit(border_width_micrometers, *dimension),
{
    match dimension {
        Some(Ok(value)) => twice(border_width_micrometers) >= *value as i128,
        _ => false,
    }
}

/// Appends the issue of a rejected field.
fn push_field_issue(issues: &mut Vec<ValidationIssue>, field: &Result<i64, ValidationIssue>)
    ensures
        final(issues)@ == old(issues)@ + field_issue(*field),
{
    match field {
        Ok(_) => {},
        Err(issue) => {
            issues.push(*issue);
        },
    }
    proof {
        assert(issues@ =~= old(issues)@ + field_issue(*field));
    }
}

/// Appends the issue of a supplied but rejected optional field.
fn push_optional_field_issue(issues: &mut Vec<ValidationIssue>, field: &Option<Result<i64, ValidationIssue>>)
    ensures
        final(issues)@ == old(issues)@ + optional_field_issue(*field),
{
    match field {
        Some(inner) => push_field_issue(issues, inner),
        None => {
            assert(issues@ =~= old(issues)@ + optional_field_issue(*field));
        },
    }
}

/// Appends `issue` when `condition` holds.
fn push_issue_if(issues: &mut Vec<ValidationIssue>, condition: bool, issue: ValidationIssue)
    ensures
        final(issues)@ == old(issues)@ + issue_if(condition, issue),
{
    if condition {
        issues.push(issue);
    }
    proof {
        assert(issues@ =~= old(issues)@ + issue_if(condition, issue));
    }
}

/// Collects the problems of the individual fields.
fn collect_scalar_issues(fields: &MicrometerFields) -> (issues: Vec<ValidationIssue>)
    ensures
        issues@ == scalar_issues(*fields),
{
    let mut issues: Vec<ValidationIssue> = Vec::new();
    push_issue_if(
        &mut issues,
        fields.schema_version != JOB_SPEC_VERSION,
        ValidationIssue::UnsupportedSchemaVersion {
            found: fields.schema_version,
            supported: JOB_SPEC_VERSION,
        },
    );
    push_issue_if(
        &mut issues,
        fields.max_width.is_none() && fields.max_height.is_none(),
        ValidationIssue::MissingSizeConstraint,
    );
    push_optional_field_issue(&mut issues, &fields.max_width);
    push_optional_field_issue(&mut issues, &fields.max_height);
    push_field_issue(&mut issues, &fields.backing_thickness);
    push_field_issue(&mut issues, &fields.total_thickness);
    push_field_issue(&mut issues, &fields.border_width);
    push_field_issue(&mut issues, &fields.minimum_feature_width);
    push_field_issue(&mut issues, &fields.contour_tolerance);
    push_field_issue(&mut issues, &fields.sampling_pitch);
    proof {
        assert(issues@ =~= scalar_issues(*fields));
    }
    issues
}

/// Whether both thicknesses were accepted and the total does not exceed the backing.
pub open spec fn thickness_misordered(fields: MicrometerFields) -> bool {
    fields.backing_thickness matches Ok(backing) && fields.total_thickness matches Ok(total)
        && total <= backing
}

/// Whether a nonzero accepted border is narrower than the accepted minimum feature.
pub open spec fn border_too_thin(fields: MicrometerFields) -> bool {
    fields.border_width matches Ok(border) && fields.minimum_feature_width matches Ok(minimum)
        && border > 0 && border < minimum
}

/// Whether `value` was accepted and twice it exceeds the accepted minimum feature.
pub open spec fn exceeds_half_feature(value: Result<i64, ValidationIssue>, minimum: Result<i64, ValidationIssue>) -> bool {
    value matches Ok(value) && minimum matches Ok(minimum) && 2 * value > minimum
}

/// Whether the accepted border does not fit an accepted dimension.
pub open spec fn border_misfit(fields: MicrometerFields, dimension: Option<Result<i64, ValidationIssue>>) -> bool {
    fields.border_width matches Ok(border) && spec_border_does_not_fit(border, dimension)
}

/// Appends the thickness and feature-width problems.
fn push_feature_issues(issues: &mut Vec<ValidationIssue>, fields: &MicrometerFields)
    ensures
        final(issues)@ == old(issues)@ + feature_issues(*fields),
{
    let ghost start = issues@;
    let thickness_order = match (&fields.backing_thickness, &fields.total_thickness) {
        (Ok(backing), Ok(total)) => *total <= *backing,
        _ => false,
    };
    assert(thickness_order == thickness_misordered(*fields));
    push_issue_if(issues, thickness_order, ValidationIssue::TotalThicknessNotGreaterThanBacking);
    let thin_border = match (&fields.border_width, &fields.minimum_feature_width) {
        (Ok(border), Ok(minimum)) => *border > 0 && *border < *minimum,
        _ => false,
    };
    assert(thin_border == border_too_thin(*fields));
    push_issue_if(issues, thin_border, ValidationIssue::BorderBelowMinimumFeatureWidth);
    let loose_tolerance = match (&fields.contour_tolerance, &fields.minimum_feature_width) {
        (Ok(tolerance), Ok(minimum)) => twice(*tolerance) > *minimum as i128,
        _ => false,
    };
    assert(loose_tolerance == exceeds_half_feature(fields.contour_tolerance, fields.minimum_feature_width));
    push_issue_if(issues, loose_tolerance, ValidationIssue::ContourToleranceTooLarge);
    let coarse_pitch = match (&fields.sampling_pitch, &fields.minimum_feature_width) {
        (Ok(pitch), Ok(minimum)) => twice(*pitch) > *minimum as i128,
        _ => false,
    };
    assert(coarse_pitch == exceeds_half_feature(fields.sampling_pitch, fields.minimum_feature_width));
    push_issue_if(issues, coarse_pitch, ValidationIssue::RasterResolutionTooCoarse);
    proof {
        assert(issues@ =~= start + feature_issues(*fields));
    }
}

/// Appends the border-fit problems, width first.
fn push_border_fit_issues(issues: &mut Vec<ValidationIssue>, fields: &MicrometerFields)
    ensures
        final(issues)@ == old(issues)@ + border_fit_issues(*fields),
{
    let ghost start = issues@;
    let (wide_border, tall_border) = match &fields.border_width {
        Ok(border) => (
            border_does_not_fit(*border, &fields.max_width),
            border_does_not_fit(*border, &fields.max_height),
        ),
        Err(_) => (false, false),
    };
    push_issue_if(issues, wide_border, ValidationIssue::BorderDoesNotFit { dimension: MAX_WIDTH_FIELD });
    push_issue_if(issues, tall_border, ValidationIssue::BorderDoesNotFit { dimension: MAX_HEIGHT_FIELD });
    proof {
        assert(issues@ =~= start + border_fit_issues(*fields));
    }
}

/// Appends the cross-field problems.
fn push_relation_issues(issues: &mut Vec<ValidationIssue>, fields: &MicrometerFields)
    ensures
        final(issues)@ == old(issues)@ + relation_issues(*fields),
{
    let ghost start = issues@;
    push_feature_issues(issues, fields);
    push_border_fit_issues(issues, fields);
    proof {
        vstd::seq_lib::lemma_concat_associative(start, feature_issues(*fields), border_fit_issues(*fields));
    }
}

/// The accepted value of a field.
fn accepted_value(field: &Result<i64, ValidationIssue>) -> (value: i64)
    requires
        field is Ok,
    ensures
        *field == Ok::<i64, ValidationIssue>(value),
{
    match field {
        Ok(value) => *value,
        Err(_) => 0,
    }
}

/// The accepted value of an optional field, if supplied and accepted.
fn accepted_optional(field: &Option<Result<i64, ValidationIssue>>) -> (value: Option<i64>)
    ensures
        value == accepted(*field),
{
    match field {
        Some(Ok(value)) => Some(*value),
        _ => None,
    }
}

/// The snapshot of fields that were all accepted.
fn snapshot(fields: &MicrometerFields) -> (spec: NormalizedJobSpec)
    requires
        fields_converted(*fields),
        job_issues(*fields).len() == 0,
    ensures
        snapshot_matches(*fields, spec),
{
    proof {
        lemma_clean_fields(*fields);
    }
    NormalizedJobSpec {
        schema_version: fields.schema_version,
        size: NormalizedSizeConstraints {
            max_width_micrometers: accepted_optional(&fields.max_width),
            max_height_micrometers: accepted_optional(&fields.max_height),
        },
        geometry: NormalizedGeometryOptions {
            backing_thickness_micrometers: accepted_value(&fields.backing_thickness),
            total_thickness_micrometers: accepted_value(&fields.total_thickness),
            border_width_micrometers: accepted_value(&fields.border_width),
            minimum_feature_width_micrometers: accepted_value(&fields.minimum_feature_width),
            contour_tolerance_micrometers: accepted_value(&fields.contour_tolerance),
        },
        raster: NormalizedRasterOptions {
            sampling_pitch_micrometers: accepted_value(&fields.sampling_pitch),
            threshold: fields.threshold,
            invert_foreground: fields.invert_foreground,
        },
    }
}

/// Validates converted fields and builds the normalized snapshot.
///
/// The job is rejected with every problem, in validation order, exactly when
/// there is at least one; otherwise the snapshot holds the accepted values.
pub fn normalize_fields(fields: &MicrometerFields) -> (result: Result<NormalizedJobSpec, ValidationErrors>)
    requires
        fields_converted(*fields),
    ensures
        job_issues(*fields).len() == 0 <==> result is Ok,
        match result {
            Ok(spec) => snapshot_matches(*fields, spec),
            Err(errors) => errors.spec_issues() == job_issues(*fields),
        },
{
    let mut issues = collect_scalar_issues(fields);
    push_relation_issues(&mut issues, fields);
    if issues.len() > 0 {
        return Err(ValidationErrors { issues });
    }
    Ok(snapshot(fields))
}

} // verus!
