//! The renderer-independent decisions of the Pdfium adapter: the render
//! options, the page-count and pixel-range checks, the check that a bitmap
//! matches its fixed plan, and the conversion of normalized straight-alpha
//! RGBA into canonical artwork.
//!
//! Loading a PDF, reading page extents and rendering bitmaps happen in the
//! application around these functions.

use vstd::prelude::*;

use crate::document::{CanonicalArtwork, Dimension, DocumentError, ForegroundSelection, MAX_RASTER_PIXELS};
use crate::rgba::{rgba_over_white_to_grayscale, spec_gray_at};
use crate::sizing::{OutputSizeConstraintsMicrometers, RasterizationPlan, SamplingPitchMicrometers};

verus! {

/// The one page count accepted for a source PDF.
pub const REQUIRED_PAGE_COUNT: i32 = 1;

/// Renderer settings that are independent of a particular Pdfium library.
#[derive(Debug, Clone, Copy, PartialEq, Eq, Structural)]
pub struct PdfRenderOptions {
    output_size_constraints: OutputSizeConstraintsMicrometers,
    sampling_pitch: SamplingPitchMicrometers,
    foreground_selection: ForegroundSelection,
}

impl PdfRenderOptions {
    /// The maximum output extents.
    pub closed spec fn spec_output_size_constraints(self) -> OutputSizeConstraintsMicrometers {
        self.output_size_constraints
    }

    /// The physical sampling pitch.
    pub closed spec fn spec_sampling_pitch(self) -> SamplingPitchMicrometers {
        self.sampling_pitch
    }

    /// The grayscale-to-foreground rule.
    pub closed spec fn spec_foreground_selection(self) -> ForegroundSelection {
        self.foreground_selection
    }

    /// Creates explicit PDF sizing, sampling, and foreground settings.
    pub fn new(
        output_size_constraints: OutputSizeConstraintsMicrometers,
        sampling_pitch: SamplingPitchMicrometers,
        foreground_selection: ForegroundSelection,
    ) -> (options: Self)
        ensures
            options.spec_output_size_constraints() == output_size_constraints,
            options.spec_sampling_pitch() == sampling_pitch,
            options.spec_foreground_selection() == foreground_selection,
    {
        Self { output_size_constraints, sampling_pitch, foreground_selection }
    }

    /// Returns the maximum output extents applied while preserving aspect ratio.
    pub fn output_size_constraints(self) -> (constraints: OutputSizeConstraintsMicrometers)
        ensures
            constraints == self.spec_output_size_constraints(),
    {
        self.output_size_constraints
    }

    /// Returns the requested physical sampling pitch.
    pub fn sampling_pitch(self) -> (pitch: SamplingPitchMicrometers)
        ensures
            pitch == self.spec_sampling_pitch(),
    {
        self.sampling_pitch
    }

    /// Returns the grayscale-to-foreground classification rule.
    pub fn foreground_selection(self) -> (selection: ForegroundSelection)
        ensures
            selection == self.spec_foreground_selection(),
    {
        self.foreground_selection
    }
}

/// A renderer-independent refusal while turning a PDF page into artwork.
#[derive(Debug, Clone, PartialEq, Eq)]
pub enum PdfRenderError {
    /// The PDF must contain exactly one page.
    UnexpectedPageCount { expected: i32, actual: i32 },
    /// A planned pixel extent cannot be passed to Pdfium's signed pixel API.
    PixelDimensionOutOfRange { dimension: Dimension, pixels: u32 },
    /// The rendered bitmap's extents differ from the fixed render plan.
    RenderedDimensionsMismatch {
        expected_width: u32,
        expected_height: u32,
        actual_width: i32,
        actual_height: i32,
    },
    /// Renderer-independent document validation failed.
    Document(DocumentError),
}

/// Accepts a document with exactly one page.
pub fn check_page_count(actual: i32) -> (result: Result<(), PdfRenderError>)
    ensures
        actual == REQUIRED_PAGE_COUNT <==> result is Ok,
        actual != REQUIRED_PAGE_COUNT ==> result == Err::<(), PdfRenderError>(
            PdfRenderError::UnexpectedPageCount { expected: REQUIRED_PAGE_COUNT, actual },
        ),
{
    if actual != REQUIRED_PAGE_COUNT {
        return Err(PdfRenderError::UnexpectedPageCount { expected: REQUIRED_PAGE_COUNT, actual });
    }
    Ok(())
}

/// Converts a planned pixel extent to Pdfium's signed pixel count.
pub fn pixel_dimension_for_pdfium(pixels: u32, dimension: Dimension) -> (result: Result<i32, PdfRenderError>)
    ensures
        pixels <= i32::MAX ==> result == Ok::<i32, PdfRenderError>(pixels as i32),
        pixels > i32::MAX ==> result == Err::<i32, PdfRenderError>(
            PdfRenderError::PixelDimensionOutOfRange { dimension, pixels },
        ),
{
    if pixels > 2_147_483_647 {
        return Err(PdfRenderError::PixelDimensionOutOfRange { dimension, pixels });
    }
    Ok(pixels as i32)
}

/// The fixed bitmap extents that Pdfium is asked to render for `plan`.
///
/// Planned grids stay within the raster limit, so both extents fit.
pub fn render_dimensions(plan: &RasterizationPlan) -> (result: Result<(i32, i32), PdfRenderError>)
    ensures
        result matches Ok((width, height)) && width == plan.spec_pixel_dimensions().spec_width()
            && height == plan.spec_pixel_dimensions().spec_height(),
{
    let planned = plan.pixel_dimensions();
    proof {
        use_type_invariant(planned);
        lemma_planned_extent_fits(planned.spec_width() as int, planned.spec_height() as int);
    }
    let width = match pixel_dimension_for_pdfium(planned.width(), Dimension::Width) {
        Ok(width) => width,
        Err(error) => return Err(error),
    };
    let height = match pixel_dimension_for_pdfium(planned.height(), Dimension::Height) {
        Ok(height) => height,
        Err(error) => return Err(error),
    };
    Ok((width, height))
}

/// Each extent of a grid within the raster limit fits a signed pixel count.
proof fn lemma_planned_extent_fits(width: int, height: int)
    requires
        width > 0,
        height > 0,
        width * height <= MAX_RASTER_PIXELS,
    ensures
        width <= i32::MAX,
        height <= i32::MAX,
{
    assert(width <= width * height) by (nonlinear_arith)
        requires
            height > 0,
            width > 0,
    ;
    assert(height <= width * height) by (nonlinear_arith)
        requires
            height > 0,
            width > 0,
    ;
}

/// Accepts a rendered bitmap only when its extents equal the plan's.
pub fn validate_rendered_dimensions(plan: &RasterizationPlan, actual_width: i32, actual_height: i32) -> (result: Result<
    (),
    PdfRenderError,
>)
    ensures
        actual_width == plan.spec_pixel_dimensions().spec_width() && actual_height
            == plan.spec_pixel_dimensions().spec_height() <==> result is Ok,
        !(actual_width == plan.spec_pixel_dimensions().spec_width() && actual_height
            == plan.spec_pixel_dimensions().spec_height()) ==> result == Err::<(), PdfRenderError>(
            PdfRenderError::RenderedDimensionsMismatch {
                expected_width: plan.spec_pixel_dimensions().spec_width(),
                expected_height: plan.spec_pixel_dimensions().spec_height(),
                actual_width,
                actual_height,
            },
        ),
{
    let expected = plan.pixel_dimensions();
    let (expected_width, expected_height) = match render_dimensions(plan) {
        Ok(extents) => extents,
        Err(error) => return Err(error),
    };
    if actual_width != expected_width || actual_height != expected_height {
        return Err(
            PdfRenderError::RenderedDimensionsMismatch {
                expected_width: expected.width(),
                expected_height: expected.height(),
                actual_width,
                actual_height,
            },
        );
    }
    Ok(())
}

/// Composites normalized straight-alpha RGBA over white, thresholds it, and
/// attaches the plan's physical size.
pub fn canonical_artwork_from_rgba(
    plan: &RasterizationPlan,
    selection: ForegroundSelection,
    rgba: &[u8],
) -> (result: Result<CanonicalArtwork, PdfRenderError>)
    ensures
        ({
            let width = plan.spec_pixel_dimensions().spec_width() as int;
            let height = plan.spec_pixel_dimensions().spec_height() as int;
            &&& rgba@.len() != 4 * width * height ==> result == Err::<
                CanonicalArtwork,
                PdfRenderError,
            >(
                PdfRenderError::Document(
                    DocumentError::RgbaDataLengthMismatch {
                        expected: (4 * width * height) as usize,
                        actual: rgba@.len() as usize,
                    },
                ),
            )
            &&& rgba@.len() == 4 * width * height ==> (result matches Ok(artwork)
                && artwork.spec_physical_size() == plan.spec_physical_size()
                && artwork.spec_foreground().spec_dimensions() == plan.spec_pixel_dimensions()
                && artwork.spec_foreground().spec_bytes().len() == width * height && forall|i: int|
                0 <= i < width * height ==> #[trigger] artwork.spec_foreground().spec_bytes()[i]
                    == if selection.spec_is_foreground(spec_gray_at(rgba@, i) as u8) {
                    1u8
                } else {
                    0u8
                })
        }),
{
    let dimensions = plan.pixel_dimensions();
    let width = dimensions.width();
    let height = dimensions.height();
    proof {
        use_type_invariant(dimensions);
    }
    let grayscale = match rgba_over_white_to_grayscale(width, height, rgba) {
        Ok(raster) => raster,
        Err(error) => return Err(PdfRenderError::Document(error)),
    };
    let artwork = CanonicalArtwork::from_grayscale(plan.physical_size(), &grayscale, selection);
    let produced = grayscale.dimensions();
    proof {
        use_type_invariant(produced);
        crate::document::PixelDimensions::lemma_extents_determine(produced, dimensions);
    }
    Ok(artwork)
}

} // verus!
