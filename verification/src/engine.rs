//! End-to-end pipeline policy: the document-rendering request derived from a
//! normalized job specification, and the pipeline's error type.

use vstd::prelude::*;

use crate::document::{DocumentError, ForegroundSelection};
use crate::job::{NormalizedJobSpec, ValidationErrors};
use crate::sizing::{OutputSizeConstraintsMicrometers, SamplingPitchMicrometers};

verus! {

/// Validated document-rendering policy derived from a job specification.
#[derive(Debug, Clone, Copy, PartialEq, Eq, Structural)]
pub struct DocumentRenderRequest {
    output_size_constraints: OutputSizeConstraintsMicrometers,
    sampling_pitch: SamplingPitchMicrometers,
    foreground_selection: ForegroundSelection,
}

impl DocumentRenderRequest {
    /// The maximum output extents.
    pub closed spec fn spec_output_size_constraints(self) -> OutputSizeConstraintsMicrometers {
        self.output_size_constraints
    }

    /// The physical sampling pitch.
    pub closed spec fn spec_sampling_pitch(self) -> SamplingPitchMicrometers {
        self.sampling_pitch
    }

    /// The grayscale-to-foreground rule.
    pub closed spec fn spec_foreground_selection(self) -> ForegroundSelection {
        self.foreground_selection
    }

    /// The request carries exactly the normalized size bounds, pitch, threshold
    /// and inversion of `spec`.
    pub open spec fn carries(self, spec: NormalizedJobSpec) -> bool {
        &&& self.spec_output_size_constraints().spec_max_width()
            == spec.spec_size().spec_max_width()
        &&& self.spec_output_size_constraints().spec_max_height()
            == spec.spec_size().spec_max_height()
        &&& self.spec_sampling_pitch().spec_micrometers() == spec.spec_raster().spec_pitch()
        &&& self.spec_foreground_selection().spec_threshold() == spec.spec_raster().spec_threshold()
        &&& self.spec_foreground_selection().spec_invert() == spec.spec_raster().spec_invert()
    }

    /// Returns the maximum output extents applied while preserving aspect ratio.
    pub fn output_size_constraints(self) -> (constraints: OutputSizeConstraintsMicrometers)
        ensures
            constraints == self.spec_output_size_constraints(),
    {
        self.output_size_constraints
    }

    /// Returns the requested physical sampling pitch.
    pub fn sampling_pitch(self) -> (pitch: SamplingPitchMicrometers)
        ensures
            pitch == self.spec_sampling_pitch(),
    {
        self.sampling_pitch
    }

    /// Returns the grayscale-to-foreground classification rule.
    pub fn foreground_selection(self) -> (selection: ForegroundSelection)
        ensures
            selection == self.spec_foreground_selection(),
    {
        self.foreground_selection
    }

    /// Derives the request from a normalized job.
    ///
    /// A normalized job always holds a supplied positive size bound and a
    /// positive pitch, so the document layer accepts it.
    pub fn from_normalized(spec: &NormalizedJobSpec) -> (result: Result<Self, DocumentError>)
        ensures
            result matches Ok(request) && request.carries(*spec),
    {
        let size = spec.size();
        let raster = spec.raster();
        let output_size_constraints = match OutputSizeConstraintsMicrometers::new(
            size.max_width_micrometers(),
            size.max_height_micrometers(),
        ) {
            Ok(constraints) => constraints,
            Err(error) => return Err(error),
        };
        let sampling_pitch = match SamplingPitchMicrometers::new(raster.sampling_pitch_micrometers()) {
            Ok(pitch) => pitch,
            Err(error) => return Err(error),
        };
        let foreground_selection = ForegroundSelection::new(raster.threshold(), raster.invert_foreground());
        Ok(Self { output_size_constraints, sampling_pitch, foreground_selection })
    }

    /// Derives the request from a normalized job, reporting a document-layer
    /// refusal as an engine error.
    pub fn try_from_normalized(spec: &NormalizedJobSpec) -> (result: Result<Self, EngineError>)
        ensures
            result matches Ok(request) && request.carries(*spec),
    {
        match Self::from_normalized(spec) {
            Ok(request) => Ok(request),
            Err(error) => Err(EngineError::InvalidDocumentOptions(error)),
        }
    }
}

/// A failure while validating or preparing an end-to-end conversion.
#[derive(Debug, Clone, PartialEq, Eq)]
pub enum EngineError {
    /// The supplied job specification failed validation.
    InvalidJobSpec(ValidationErrors),
    /// Validated settings could not be represented by the document layer.
    InvalidDocumentOptions(DocumentError),
}

impl From<ValidationErrors> for EngineError {
    fn from(error: ValidationErrors) -> (converted: Self) {
        EngineError::InvalidJobSpec(error)
    }
}

impl vstd::std_specs::convert::FromSpecImpl<ValidationErrors> for EngineError {
    open spec fn obeys_from_spec() -> bool {
        true
    }

    open spec fn from_spec(error: ValidationErrors) -> Self {
        EngineError::InvalidJobSpec(error)
    }
}

impl From<DocumentError> for EngineError {
    fn from(error: DocumentError) -> (converted: Self) {
        EngineError::InvalidDocumentOptions(error)
    }
}

impl vstd::std_specs::convert::FromSpecImpl<DocumentError> for EngineError {
    open spec fn obeys_from_spec() -> bool {
        true
    }

    open spec fn from_spec(error: DocumentError) -> Self {
        EngineError::InvalidDocumentOptions(error)
    }
}

} // verus!
