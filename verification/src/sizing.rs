//! Aspect-preserving physical fitting and pixel-grid planning.

use vstd::prelude::*;

use crate::document::{
    Dimension, DocumentError, PhysicalSizeMicrometers, PixelDimensions, MAX_RASTER_PIXELS,
};

verus! {

/// Optional maximum output dimensions expressed in integer micrometres.
#[derive(Debug, Clone, Copy, PartialEq, Eq, Structural)]
pub struct OutputSizeConstraintsMicrometers {
    max_width: Option<i64>,
    max_height: Option<i64>,
}

impl OutputSizeConstraintsMicrometers {
    /// The maximum width, if any.
    pub closed spec fn spec_max_width(self) -> Option<i64> {
        self.max_width
    }

    /// The maximum height, if any.
    pub closed spec fn spec_max_height(self) -> Option<i64> {
        self.max_height
    }

    /// At least one maximum is present and every present maximum is positive.
    #[verifier::type_invariant]
    pub open spec fn wf(self) -> bool {
        &&& (self.spec_max_width() is Some || self.spec_max_height() is Some)
        &&& (self.spec_max_width() matches Some(w) ==> w > 0)
        &&& (self.spec_max_height() matches Some(h) ==> h > 0)
    }

    /// Creates validated output-size constraints.
    pub fn new(max_width: Option<i64>, max_height: Option<i64>) -> (result: Result<
        Self,
        DocumentError,
    >)
        ensures
            max_width is None && max_height is None ==> result == Err::<Self, DocumentError>(
                DocumentError::MissingOutputSizeConstraint,
            ),
            !(max_width is None && max_height is None) && (max_width matches Some(w) && w <= 0)
                ==> result == Err::<Self, DocumentError>(
                DocumentError::NonPositivePhysicalDimension {
                    dimension: Dimension::Width,
                    micrometers: max_width->0,
                },
            ),
            !(max_width is None && max_height is None) && !(max_width matches Some(w) && w <= 0)
                && (max_height matches Some(h) && h <= 0) ==> result == Err::<Self, DocumentError>(
                DocumentError::NonPositivePhysicalDimension {
                    dimension: Dimension::Height,
                    micrometers: max_height->0,
                },
            ),
            !(max_width is None && max_height is None) && !(max_width matches Some(w) && w <= 0)
                && !(max_height matches Some(h) && h <= 0) ==> (result matches Ok(constraints)
                && constraints.spec_max_width() == max_width && constraints.spec_max_height()
                == max_height),
    {
        if max_width.is_none() && max_height.is_none() {
            return Err(DocumentError::MissingOutputSizeConstraint);
        }
        if let Some(micrometers) = max_width {
            if micrometers <= 0 {
                return Err(
                    DocumentError::NonPositivePhysicalDimension {
                        dimension: Dimension::Width,
                        micrometers,
                    },
                );
            }
        }
        if let Some(micrometers) = max_height {
            if micrometers <= 0 {
                return Err(
                    DocumentError::NonPositivePhysicalDimension {
                        dimension: Dimension::Height,
                        micrometers,
                    },
                );
            }
        }
        Ok(Self { max_width, max_height })
    }

    /// Returns the maximum width, if one was supplied.
    pub fn max_width(self) -> (max_width: Option<i64>)
        ensures
            max_width == self.spec_max_width(),
            max_width matches Some(w) ==> w > 0,
    {
        proof {
            use_type_invariant(&self);
        }
        self.max_width
    }

    /// Returns the maximum height, if one was supplied.
    pub fn max_height(self) -> (max_height: Option<i64>)
        ensures
            max_height == self.spec_max_height(),
            max_height matches Some(h) ==> h > 0,
    {
        proof {
            use_type_invariant(&self);
        }
        self.max_height
    }
}

/// A positive maximum physical sampling pitch in integer micrometres per pixel.
#[derive(Debug, Clone, Copy, PartialEq, Eq, Structural)]
pub struct SamplingPitchMicrometers(i64);

impl SamplingPitchMicrometers {
    /// Micrometres represented by one pixel.
    pub closed spec fn spec_micrometers(self) -> i64 {
        self.0
    }

    /// The pitch is positive.
    #[verifier::type_invariant]
    pub open spec fn wf(self) -> bool {
        self.spec_micrometers() > 0
    }

    /// Creates a positive sampling pitch.
    pub fn new(micrometers: i64) -> (result: Result<Self, DocumentError>)
        ensures
            micrometers <= 0 ==> result == Err::<Self, DocumentError>(
                DocumentError::NonPositiveSamplingPitch { micrometers },
            ),
            micrometers > 0 ==> (result matches Ok(pitch) && pitch.spec_micrometers()
                == micrometers),
    {
        if micrometers <= 0 {
            return Err(DocumentError::NonPositiveSamplingPitch { micrometers });
        }
        Ok(Self(micrometers))
    }

    /// Returns the maximum number of micrometres represented by one pixel.
    pub fn micrometers(self) -> (micrometers: i64)
        ensures
            micrometers == self.spec_micrometers(),
            micrometers > 0,
    {
        proof {
            use_type_invariant(&self);
        }
        self.0
    }
}

/// `numerator / denominator` rounded to the nearest integer, halves upward.
pub open spec fn spec_round_half_up(numerator: int, denominator: int) -> int {
    (2 * numerator + denominator) / (2 * denominator)
}

/// `numerator / denominator` rounded upward.
pub open spec fn spec_ceil_div(numerator: int, denominator: int) -> int {
    (numerator + denominator - 1) / denominator
}

/// The output extents obtained by scaling a source page to the largest size
/// that fits the present maxima: the limiting dimension is used exactly and
/// the other is rounded to the nearest micrometre, halves upward.
pub open spec fn spec_fitted_extents(
    source_width: int,
    source_height: int,
    max_width: Option<i64>,
    max_height: Option<i64>,
) -> (int, int) {
    match (max_width, max_height) {
        (Some(w), None) => (w as int, spec_round_half_up(source_height * w, source_width)),
        (None, Some(h)) => (spec_round_half_up(source_width * h, source_height), h as int),
        (Some(w), Some(h)) => if w * source_height <= h * source_width {
            (w as int, spec_round_half_up(source_height * w, source_width))
        } else {
            (spec_round_half_up(source_width * h, source_height), h as int)
        },
        (None, None) => (0, 0),
    }
}

/// The fitted extents of `source_size` under `constraints`.
pub open spec fn spec_fit(
    source_size: PhysicalSizeMicrometers,
    constraints: OutputSizeConstraintsMicrometers,
) -> (int, int) {
    spec_fitted_extents(
        source_size.spec_width() as int,
        source_size.spec_height() as int,
        constraints.spec_max_width(),
        constraints.spec_max_height(),
    )
}

/// Deterministic physical and pixel dimensions for one rasterization.
#[derive(Debug, Clone, Copy, PartialEq, Eq, Structural)]
pub struct RasterizationPlan {
    physical_size: PhysicalSizeMicrometers,
    pixel_dimensions: PixelDimensions,
}

/// What fitting `source_size` into `constraints` at `pitch` yields: the error
/// that the first failing check reports, or the fitted physical extents and
/// the pixel counts that ceiling division by the pitch gives.
pub open spec fn spec_plan_outcome(
    source_size: PhysicalSizeMicrometers,
    constraints: OutputSizeConstraintsMicrometers,
    pitch: SamplingPitchMicrometers,
) -> Result<(int, int, int, int), DocumentError> {
    let (w, h) = spec_fit(source_size, constraints);
    let p = pitch.spec_micrometers() as int;
    let pw = spec_ceil_div(w, p);
    let ph = spec_ceil_div(h, p);
    if w == 0 {
        Err(DocumentError::OutputDimensionRoundsToZero { dimension: Dimension::Width })
    } else if w > i64::MAX {
        Err(DocumentError::OutputDimensionTooLarge { dimension: Dimension::Width })
    } else if h == 0 {
        Err(DocumentError::OutputDimensionRoundsToZero { dimension: Dimension::Height })
    } else if h > i64::MAX {
        Err(DocumentError::OutputDimensionTooLarge { dimension: Dimension::Height })
    } else if pw > u32::MAX {
        Err(DocumentError::PixelDimensionTooLarge { dimension: Dimension::Width, pixels: pw as u128 })
    } else if ph > u32::MAX {
        Err(
            DocumentError::PixelDimensionTooLarge { dimension: Dimension::Height, pixels: ph as u128 },
        )
    } else if pw * ph > MAX_RASTER_PIXELS {
        Err(
            DocumentError::RasterTooLarge {
                width: pw as u32,
                height: ph as u32,
                max_pixels: MAX_RASTER_PIXELS,
            },
        )
    } else {
        Ok((w, h, pw, ph))
    }
}

impl RasterizationPlan {
    /// The fitted physical output size.
    pub closed spec fn spec_physical_size(self) -> PhysicalSizeMicrometers {
        self.physical_size
    }

    /// The planned pixel grid.
    pub closed spec fn spec_pixel_dimensions(self) -> PixelDimensions {
        self.pixel_dimensions
    }

    /// Fits a source page into the output constraints and selects a pixel grid.
    ///
    /// The limiting physical dimension is used exactly. The other dimension is
    /// rounded to the nearest micrometre, with positive half ties rounded up.
    /// Each pixel dimension is then rounded up independently so its effective
    /// sampling pitch is never coarser than `sampling_pitch`.
    pub fn fit(
        source_size: PhysicalSizeMicrometers,
        constraints: OutputSizeConstraintsMicrometers,
        sampling_pitch: SamplingPitchMicrometers,
    ) -> (result: Result<Self, DocumentError>)
        ensures
            match spec_plan_outcome(source_size, constraints, sampling_pitch) {
                Err(error) => result == Err::<Self, DocumentError>(error),
                Ok((w, h, pw, ph)) => result matches Ok(plan) && plan.spec_physical_size().spec_width()
                    == w && plan.spec_physical_size().spec_height() == h
                    && plan.spec_pixel_dimensions().spec_width() == pw
                    && plan.spec_pixel_dimensions().spec_height() == ph,
            },
    {
        let physical_size = fit_physical_size(source_size, constraints)?;
        let pitch = positive_i64_as_u128(sampling_pitch.micrometers());
        let width_pixels = divide_ceil(positive_i64_as_u128(physical_size.width()), pitch);
        let height_pixels = divide_ceil(positive_i64_as_u128(physical_size.height()), pitch);
        proof {
            lemma_ceil_div_characterized(
                physical_size.spec_width() as int,
                pitch as int,
                width_pixels as int,
            );
            lemma_ceil_div_characterized(
                physical_size.spec_height() as int,
                pitch as int,
                height_pixels as int,
            );
        }
        if width_pixels > u32::MAX as u128 {
            return Err(
                DocumentError::PixelDimensionTooLarge {
                    dimension: Dimension::Width,
                    pixels: width_pixels,
                },
            );
        }
        if height_pixels > u32::MAX as u128 {
            return Err(
                DocumentError::PixelDimensionTooLarge {
                    dimension: Dimension::Height,
                    pixels: height_pixels,
                },
            );
        }
        let ghost (w, h) = spec_fit(source_size, constraints);
        assert(w == physical_size.spec_width() && h == physical_size.spec_height());
        assert(width_pixels == spec_ceil_div(w, sampling_pitch.spec_micrometers() as int));
        assert(height_pixels == spec_ceil_div(h, sampling_pitch.spec_micrometers() as int));
        let pixel_width = width_pixels as u32;
        let pixel_height = height_pixels as u32;
        assert(pixel_width == width_pixels && pixel_height == height_pixels);
        let ghost p = sampling_pitch.spec_micrometers() as int;
        assert(w != 0 && w <= i64::MAX && h != 0 && h <= i64::MAX);
        assert(spec_ceil_div(w, p) <= u32::MAX);
        assert(width_pixels > 0 && height_pixels > 0) by (nonlinear_arith)
            requires
                physical_size.spec_width() <= width_pixels * pitch,
                physical_size.spec_height() <= height_pixels * pitch,
                physical_size.spec_width() > 0,
                physical_size.spec_height() > 0,
                pitch > 0,
        ;
        assert(spec_ceil_div(h, p) <= u32::MAX);
        match PixelDimensions::new(pixel_width, pixel_height) {
            Ok(pixel_dimensions) => {
                assert(spec_plan_outcome(source_size, constraints, sampling_pitch) == Ok::<
                    (int, int, int, int),
                    DocumentError,
                >((w, h, pixel_width as int, pixel_height as int)));
                Ok(Self { physical_size, pixel_dimensions })
            },
            Err(error) => Err(error),
        }
    }

    /// Returns the fitted physical output dimensions.
    pub fn physical_size(self) -> (size: PhysicalSizeMicrometers)
        ensures
            size == self.spec_physical_size(),
    {
        self.physical_size
    }

    /// Returns the raster dimensions required for the configured sampling pitch.
    pub fn pixel_dimensions(self) -> (dimensions: PixelDimensions)
        ensures
            dimensions == self.spec_pixel_dimensions(),
    {
        self.pixel_dimensions
    }
}

/// `(numerator + denominator - 1) / denominator` is the smallest count of
/// `denominator`-wide cells that covers `numerator`.
proof fn lemma_ceil_div_characterized(numerator: int, denominator: int, result: int)
    requires
        numerator >= 0,
        denominator > 0,
        numerator <= result * denominator < numerator + denominator,
    ensures
        result == spec_ceil_div(numerator, denominator),
{
    let q = spec_ceil_div(numerator, denominator);
    vstd::arithmetic::div_mod::lemma_fundamental_div_mod(numerator + denominator - 1, denominator);
    let r = (numerator + denominator - 1) % denominator;
    assert(0 <= r < denominator) by {
        vstd::arithmetic::div_mod::lemma_mod_bound(numerator + denominator - 1, denominator);
    }
    assert(numerator + denominator - 1 == denominator * q + r);
    assert(result == q) by (nonlinear_arith)
        requires
            numerator <= result * denominator < numerator + denominator,
            numerator + denominator - 1 == denominator * q + r,
            0 <= r < denominator,
            denominator > 0,
    ;
}

/// Fits the source page into the constraints.
pub fn fit_physical_size(
    source_size: PhysicalSizeMicrometers,
    constraints: OutputSizeConstraintsMicrometers,
) -> (result: Result<PhysicalSizeMicrometers, DocumentError>)
    ensures
        ({
            let (w, h) = spec_fit(source_size, constraints);
            if w == 0 {
                result == Err::<PhysicalSizeMicrometers, DocumentError>(
                    DocumentError::OutputDimensionRoundsToZero { dimension: Dimension::Width },
                )
            } else if w > i64::MAX {
                result == Err::<PhysicalSizeMicrometers, DocumentError>(
                    DocumentError::OutputDimensionTooLarge { dimension: Dimension::Width },
                )
            } else if h == 0 {
                result == Err::<PhysicalSizeMicrometers, DocumentError>(
                    DocumentError::OutputDimensionRoundsToZero { dimension: Dimension::Height },
                )
            } else if h > i64::MAX {
                result == Err::<PhysicalSizeMicrometers, DocumentError>(
                    DocumentError::OutputDimensionTooLarge { dimension: Dimension::Height },
                )
            } else {
                result matches Ok(size) && size.spec_width() == w && size.spec_height() == h
            }
        }),
{
    proof {
        use_type_invariant(&constraints);
    }
    let source_width = positive_i64_as_u128(source_size.width());
    let source_height = positive_i64_as_u128(source_size.height());
    let max_width = constraints.max_width();
    let max_height = constraints.max_height();
    proof {
        lemma_i64_product_fits(source_width as int, source_height as int);
        if let Some(w) = max_width {
            lemma_i64_product_fits(source_height as int, w as int);
        }
        if let Some(h) = max_height {
            lemma_i64_product_fits(source_width as int, h as int);
        }
        if let (Some(w), Some(h)) = (max_width, max_height) {
            lemma_i64_product_fits(w as int, source_height as int);
            lemma_i64_product_fits(h as int, source_width as int);
        }
    }
    let (width, height): (u128, u128) = match (max_width, max_height) {
        (Some(width), None) => {
            let width = positive_i64_as_u128(width);
            (width, divide_round_half_up(source_height * width, source_width))
        },
        (None, Some(height)) => {
            let height = positive_i64_as_u128(height);
            (divide_round_half_up(source_width * height, source_height), height)
        },
        (Some(width), Some(height)) => {
            let width = positive_i64_as_u128(width);
            let height = positive_i64_as_u128(height);
            if width * source_height <= height * source_width {
                (width, divide_round_half_up(source_height * width, source_width))
            } else {
                (divide_round_half_up(source_width * height, source_height), height)
            }
        },
        (None, None) => {
            return Err(DocumentError::MissingOutputSizeConstraint);
        },
    };
    let width = output_dimension(width, Dimension::Width)?;
    let height = output_dimension(height, Dimension::Height)?;
    PhysicalSizeMicrometers::new(width, height)
}

/// A product of two `i64` magnitudes fits into `u128`.
proof fn lemma_i64_product_fits(a: int, b: int)
    requires
        0 <= a <= i64::MAX,
        0 <= b <= i64::MAX,
    ensures
        0 <= a * b <= u128::MAX,
{
    assert(a * b <= i64::MAX as int * i64::MAX as int) by (nonlinear_arith)
        requires
            0 <= a <= i64::MAX,
            0 <= b <= i64::MAX,
    ;
    assert(0 <= a * b) by (nonlinear_arith)
        requires
            0 <= a,
            0 <= b,
    ;
}

/// Converts a fitted extent into a positive `i64`.
pub fn output_dimension(value: u128, dimension: Dimension) -> (result: Result<i64, DocumentError>)
    ensures
        value == 0 ==> result == Err::<i64, DocumentError>(
            DocumentError::OutputDimensionRoundsToZero { dimension },
        ),
        value > i64::MAX ==> result == Err::<i64, DocumentError>(
            DocumentError::OutputDimensionTooLarge { dimension },
        ),
        0 < value <= i64::MAX ==> result == Ok::<i64, DocumentError>(value as i64),
{
    if value == 0 {
        return Err(DocumentError::OutputDimensionRoundsToZero { dimension });
    }
    if value > i64::MAX as u128 {
        return Err(DocumentError::OutputDimensionTooLarge { dimension });
    }
    Ok(value as i64)
}

/// Widens a positive `i64`.
pub fn positive_i64_as_u128(value: i64) -> (widened: u128)
    requires
        value > 0,
    ensures
        widened == value,
{
    value as u128
}

/// Divides, rounding to the nearest integer with halves rounded up.
pub fn divide_round_half_up(numerator: u128, denominator: u128) -> (quotient: u128)
    requires
        denominator > 0,
    ensures
        quotient == spec_round_half_up(numerator as int, denominator as int),
        2 * numerator < (2 * quotient + 1) * denominator,
        (2 * quotient - 1) * denominator <= 2 * numerator,
{
    let quotient = numerator / denominator;
    let remainder = numerator % denominator;
    let half_rounded_up = denominator / 2 + denominator % 2;
    proof {
        vstd::arithmetic::div_mod::lemma_fundamental_div_mod(numerator as int, denominator as int);
        vstd::arithmetic::div_mod::lemma_mod_bound(numerator as int, denominator as int);
        if denominator >= 2 {
            assert(quotient <= numerator / 2) by (nonlinear_arith)
                requires
                    numerator == denominator * quotient + remainder,
                    0 <= remainder,
                    denominator >= 2,
            ;
        }
    }
    let result = quotient + if remainder >= half_rounded_up {
        1u128
    } else {
        0u128
    };
    proof {
        let n = numerator as int;
        let d = denominator as int;
        let q = quotient as int;
        let r = remainder as int;
        vstd::arithmetic::div_mod::lemma_fundamental_div_mod(n, d);
        vstd::arithmetic::div_mod::lemma_mod_bound(n, d);
        assert(n == d * q + r);
        let res = result as int;
        assert(2 * n < (2 * res + 1) * d && (2 * res - 1) * d <= 2 * n) by (nonlinear_arith)
            requires
                n == d * q + r,
                0 <= r < d,
                res == q + if r >= d / 2 + d % 2 {
                    1int
                } else {
                    0int
                },
                d > 0,
        ;
        let s = spec_round_half_up(n, d);
        vstd::arithmetic::div_mod::lemma_fundamental_div_mod(2 * n + d, 2 * d);
        vstd::arithmetic::div_mod::lemma_mod_bound(2 * n + d, 2 * d);
        let t = (2 * n + d) % (2 * d);
        assert(res == s) by (nonlinear_arith)
            requires
                2 * n < (2 * res + 1) * d,
                (2 * res - 1) * d <= 2 * n,
                2 * n + d == 2 * d * s + t,
                0 <= t < 2 * d,
                d > 0,
        ;
    }
    result
}

/// Divides, rounding upward.
pub fn divide_ceil(numerator: u128, denominator: u128) -> (quotient: u128)
    requires
        denominator > 0,
    ensures
        numerator <= quotient * denominator < numerator + denominator,
        quotient == spec_ceil_div(numerator as int, denominator as int),
{
    let quotient = numerator / denominator;
    proof {
        vstd::arithmetic::div_mod::lemma_fundamental_div_mod(numerator as int, denominator as int);
        vstd::arithmetic::div_mod::lemma_mod_bound(numerator as int, denominator as int);
        if denominator >= 2 {
            assert(quotient <= numerator / 2) by (nonlinear_arith)
                requires
                    numerator == denominator * quotient + numerator % denominator,
                    0 <= numerator % denominator,
                    denominator >= 2,
            ;
        }
    }
    let result = quotient + if numerator % denominator != 0 {
        1u128
    } else {
        0u128
    };
    proof {
        let n = numerator as int;
        let d = denominator as int;
        let q = quotient as int;
        let r = n % d;
        vstd::arithmetic::div_mod::lemma_fundamental_div_mod(n, d);
        vstd::arithmetic::div_mod::lemma_mod_bound(n, d);
        let res = result as int;
        assert(n <= res * d < n + d) by (nonlinear_arith)
            requires
                n == d * q + r,
                0 <= r < d,
                res == q + if r != 0 {
                    1int
                } else {
                    0int
                },
                d > 0,
        ;
        lemma_ceil_div_characterized(n, d, res);
    }
    result
}

} // verus!
