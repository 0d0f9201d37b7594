//! Canonical two-dimensional artwork: pixel grids, grayscale rasters and
//! binary foreground masks with a top-left, row-major layout.

use vstd::prelude::*;

verus! {

/// Maximum number of pixels accepted by one canonical raster.
pub const MAX_RASTER_PIXELS: u64 = 268_435_456;

/// Width or height.
#[derive(Debug, Clone, Copy, PartialEq, Eq, Structural)]
pub enum Dimension {
    /// Horizontal extent.
    Width,
    /// Vertical extent.
    Height,
}

/// An invalid document-layer value.
#[derive(Debug, Clone, PartialEq, Eq, Structural)]
#[non_exhaustive]
pub enum DocumentError {
    /// A pixel-grid dimension is zero.
    ZeroPixelDimension { dimension: Dimension },
    /// The grid exceeds the deterministic resource limit.
    RasterTooLarge { width: u32, height: u32, max_pixels: u64 },
    /// Data length does not equal width times height.
    DataLengthMismatch { expected: usize, actual: usize },
    /// A physical dimension is zero or negative.
    NonPositivePhysicalDimension { dimension: Dimension, micrometers: i64 },
    /// Neither a maximum output width nor height was supplied.
    MissingOutputSizeConstraint,
    /// A sampling pitch is zero or negative.
    NonPositiveSamplingPitch { micrometers: i64 },
    /// Aspect-ratio fitting rounded an output dimension to zero micrometres.
    OutputDimensionRoundsToZero { dimension: Dimension },
    /// An output dimension cannot be represented in integer micrometres.
    OutputDimensionTooLarge { dimension: Dimension },
    /// A pixel dimension cannot be represented as a 32-bit unsigned integer.
    PixelDimensionTooLarge { dimension: Dimension, pixels: u128 },
    /// RGBA byte length does not equal four times width times height.
    RgbaDataLengthMismatch { expected: usize, actual: usize },
    /// A binary mask contains a byte other than zero or one.
    InvalidBinaryValue { index: usize, value: u8 },
}

/// Validated dimensions for a non-empty pixel grid.
#[derive(Debug, Clone, Copy, PartialEq, Eq, Structural)]
pub struct PixelDimensions {
    width: u32,
    height: u32,
    pixel_count: usize,
}

impl PixelDimensions {
    /// Number of columns.
    pub closed spec fn spec_width(self) -> u32 {
        self.width
    }

    /// Number of rows.
    pub closed spec fn spec_height(self) -> u32 {
        self.height
    }

    /// Number of pixels.
    pub closed spec fn spec_pixel_count(self) -> usize {
        self.pixel_count
    }

    /// Every value is a non-empty grid within the raster limit whose pixel
    /// count is its width times its height.
    #[verifier::type_invariant]
    pub open spec fn wf(self) -> bool {
        &&& self.spec_width() > 0
        &&& self.spec_height() > 0
        &&& self.spec_pixel_count() == self.spec_width() as int * self.spec_height() as int
        &&& self.spec_pixel_count() <= MAX_RASTER_PIXELS
    }

    /// Valid dimensions are determined by their width and height.
    pub proof fn lemma_extents_determine(a: Self, b: Self)
        requires
            a.wf(),
            b.wf(),
            a.spec_width() == b.spec_width(),
            a.spec_height() == b.spec_height(),
        ensures
            a == b,
    {
    }

    /// Creates pixel dimensions within [`MAX_RASTER_PIXELS`].
    pub fn new(width: u32, height: u32) -> (result: Result<Self, DocumentError>)
        ensures
            width == 0 ==> result == Err::<Self, DocumentError>(
                DocumentError::ZeroPixelDimension { dimension: Dimension::Width },
            ),
            width != 0 && height == 0 ==> result == Err::<Self, DocumentError>(
                DocumentError::ZeroPixelDimension { dimension: Dimension::Height },
            ),
            width != 0 && height != 0 && width * height > MAX_RASTER_PIXELS ==> result == Err::<
                Self,
                DocumentError,
            >(
                DocumentError::RasterTooLarge { width, height, max_pixels: MAX_RASTER_PIXELS },
            ),
            width != 0 && height != 0 && width * height <= MAX_RASTER_PIXELS ==> (result matches Ok(
                dimensions,
            ) && dimensions.spec_width() == width && dimensions.spec_height() == height),
    {
        if width == 0 {
            return Err(DocumentError::ZeroPixelDimension { dimension: Dimension::Width });
        }
        if height == 0 {
            return Err(DocumentError::ZeroPixelDimension { dimension: Dimension::Height });
        }
        assert(width as u64 * height as u64 <= u32::MAX as u64 * u32::MAX as u64) by (nonlinear_arith);
        let pixel_count = width as u64 * height as u64;
        if pixel_count > MAX_RASTER_PIXELS {
            return Err(
                DocumentError::RasterTooLarge { width, height, max_pixels: MAX_RASTER_PIXELS },
            );
        }
        Ok(Self { width, height, pixel_count: pixel_count as usize })
    }

    /// Returns the number of columns.
    pub fn width(self) -> (width: u32)
        ensures
            width == self.spec_width(),
            width > 0,
    {
        proof {
            use_type_invariant(&self);
        }
        self.width
    }

    /// Returns the number of rows.
    pub fn height(self) -> (height: u32)
        ensures
            height == self.spec_height(),
            height > 0,
    {
        proof {
            use_type_invariant(&self);
        }
        self.height
    }

    /// Returns `width * height`.
    pub fn pixel_count(self) -> (count: usize)
        ensures
            count == self.spec_pixel_count(),
            count == self.spec_width() as int * self.spec_height() as int,
            count <= MAX_RASTER_PIXELS,
    {
        proof {
            use_type_invariant(&self);
        }
        self.pixel_count
    }

    /// Row-major position of a pixel.
    pub open spec fn spec_index(self, x: int, y: int) -> int {
        y * self.spec_width() + x
    }

    /// Returns the row-major position of `(x, y)`, or `None` outside the grid.
    pub fn index(self, x: u32, y: u32) -> (index: Option<usize>)
        ensures
            (x < self.spec_width() && y < self.spec_height()) ==> index == Some(
                self.spec_index(x as int, y as int) as usize,
            ),
            !(x < self.spec_width() && y < self.spec_height()) ==> index is None,
            index matches Some(i) ==> i < self.spec_pixel_count() && i == self.spec_index(
                x as int,
                y as int,
            ),
    {
        proof {
            use_type_invariant(&self);
        }
        if x >= self.width || y >= self.height {
            return None;
        }
        proof {
            lemma_row_major_index_bound(x as int, y as int, self.width as int, self.height as int);
        }
        Some(y as usize * self.width as usize + x as usize)
    }
}

/// A row-major position inside a `width` by `height` grid lies before its end.
pub proof fn lemma_row_major_index_bound(x: int, y: int, width: int, height: int)
    requires
        0 <= x < width,
        0 <= y < height,
    ensures
        0 <= y * width + x < width * height,
        y * width + x + 1 <= width * height,
{
    assert(y * width + x < width * height) by (nonlinear_arith)
        requires
            0 <= x < width,
            0 <= y < height,
    ;
    assert(0 <= y * width) by (nonlinear_arith)
        requires
            0 <= y,
            0 < width,
    ;
}

/// Positive physical extents in integer micrometres.
#[derive(Debug, Clone, Copy, PartialEq, Eq, Structural)]
pub struct PhysicalSizeMicrometers {
    width: i64,
    height: i64,
}

impl PhysicalSizeMicrometers {
    /// Width in micrometres.
    pub closed spec fn spec_width(self) -> i64 {
        self.width
    }

    /// Height in micrometres.
    pub closed spec fn spec_height(self) -> i64 {
        self.height
    }

    /// Both extents are positive.
    #[verifier::type_invariant]
    pub open spec fn wf(self) -> bool {
        self.spec_width() > 0 && self.spec_height() > 0
    }

    /// Creates positive physical extents.
    pub fn new(width: i64, height: i64) -> (result: Result<Self, DocumentError>)
        ensures
            width <= 0 ==> result == Err::<Self, DocumentError>(
                DocumentError::NonPositivePhysicalDimension {
                    dimension: Dimension::Width,
                    micrometers: width,
                },
            ),
            width > 0 && height <= 0 ==> result == Err::<Self, DocumentError>(
                DocumentError::NonPositivePhysicalDimension {
                    dimension: Dimension::Height,
                    micrometers: height,
                },
            ),
            width > 0 && height > 0 ==> (result matches Ok(size) && size.spec_width() == width
                && size.spec_height() == height),
    {
        if width <= 0 {
            return Err(
                DocumentError::NonPositivePhysicalDimension {
                    dimension: Dimension::Width,
                    micrometers: width,
                },
            );
        }
        if height <= 0 {
            return Err(
                DocumentError::NonPositivePhysicalDimension {
                    dimension: Dimension::Height,
                    micrometers: height,
                },
            );
        }
        Ok(Self { width, height })
    }

    /// Returns the width in micrometres.
    pub fn width(self) -> (width: i64)
        ensures
            width == self.spec_width(),
            width > 0,
    {
        proof {
            use_type_invariant(&self);
        }
        self.width
    }

    /// Returns the height in micrometres.
    pub fn height(self) -> (height: i64)
        ensures
            height == self.spec_height(),
            height > 0,
    {
        proof {
            use_type_invariant(&self);
        }
        self.height
    }
}

/// A row-major grayscale raster with a top-left origin.
#[derive(Debug, PartialEq, Eq)]
pub struct GrayscaleRaster {
    dimensions: PixelDimensions,
    pixels: Vec<u8>,
}

impl GrayscaleRaster {
    /// The raster's grid.
    pub closed spec fn spec_dimensions(&self) -> PixelDimensions {
        self.dimensions
    }

    /// The raster's row-major samples.
    pub closed spec fn spec_pixels(&self) -> Seq<u8> {
        self.pixels@
    }

    /// The sample sequence has exactly one entry per grid pixel.
    #[verifier::type_invariant]
    pub open spec fn wf(&self) -> bool {
        self.spec_pixels().len() == self.spec_dimensions().spec_pixel_count()
    }

    /// Creates a raster and validates its shape and data length.
    pub fn new(width: u32, height: u32, pixels: Vec<u8>) -> (result: Result<Self, DocumentError>)
        ensures
            width == 0 ==> result == Err::<Self, DocumentError>(
                DocumentError::ZeroPixelDimension { dimension: Dimension::Width },
            ),
            width != 0 && height == 0 ==> result == Err::<Self, DocumentError>(
                DocumentError::ZeroPixelDimension { dimension: Dimension::Height },
            ),
            width != 0 && height != 0 && width * height > MAX_RASTER_PIXELS ==> result == Err::<
                Self,
                DocumentError,
            >(
                DocumentError::RasterTooLarge { width, height, max_pixels: MAX_RASTER_PIXELS },
            ),
            width != 0 && height != 0 && width * height <= MAX_RASTER_PIXELS && pixels.len()
                != width * height ==> result == Err::<Self, DocumentError>(
                DocumentError::DataLengthMismatch {
                    expected: (width * height) as usize,
                    actual: pixels.len(),
                },
            ),
            width != 0 && height != 0 && width * height <= MAX_RASTER_PIXELS && pixels.len()
                == width * height ==> (result matches Ok(raster)
                && raster.spec_dimensions().spec_width() == width
                && raster.spec_dimensions().spec_height() == height && raster.spec_pixels()
                == pixels@),
    {
        let dimensions = PixelDimensions::new(width, height)?;
        let expected = dimensions.pixel_count();
        if pixels.len() != expected {
            return Err(DocumentError::DataLengthMismatch { expected, actual: pixels.len() });
        }
        Ok(Self { dimensions, pixels })
    }

    /// Returns the raster dimensions.
    pub fn dimensions(&self) -> (dimensions: PixelDimensions)
        ensures
            dimensions == self.spec_dimensions(),
    {
        self.dimensions
    }

    /// Returns all row-major grayscale samples.
    pub fn pixels(&self) -> (pixels: &[u8])
        ensures
            pixels@ == self.spec_pixels(),
            pixels@.len() == self.spec_dimensions().spec_pixel_count(),
    {
        proof {
            use_type_invariant(self);
        }
        self.pixels.as_slice()
    }

    /// Returns one sample, or `None` for an out-of-bounds coordinate.
    pub fn pixel(&self, x: u32, y: u32) -> (sample: Option<u8>)
        ensures
            (x < self.spec_dimensions().spec_width() && y < self.spec_dimensions().spec_height())
                ==> sample == Some(
                self.spec_pixels()[self.spec_dimensions().spec_index(x as int, y as int)],
            ),
            !(x < self.spec_dimensions().spec_width() && y < self.spec_dimensions().spec_height())
                ==> sample is None,
    {
        proof {
            use_type_invariant(self);
        }
        match self.dimensions.index(x, y) {
            Some(index) => Some(self.pixels[index]),
            None => None,
        }
    }
}

impl Clone for GrayscaleRaster {
    fn clone(&self) -> (copy: Self)
        ensures
            copy.spec_dimensions() == self.spec_dimensions(),
            copy.spec_pixels() == self.spec_pixels(),
    {
        proof {
            use_type_invariant(self);
        }
        Self { dimensions: self.dimensions, pixels: self.pixels.clone() }
    }
}

/// Rules for classifying grayscale samples as foreground.
#[derive(Debug, Clone, Copy, PartialEq, Eq, Structural)]
pub struct ForegroundSelection {
    threshold: u8,
    invert: bool,
}

impl ForegroundSelection {
    /// The exclusive threshold.
    pub closed spec fn spec_threshold(self) -> u8 {
        self.threshold
    }

    /// Whether classification is inverted.
    pub closed spec fn spec_invert(self) -> bool {
        self.invert
    }

    /// A sample is foreground exactly when it is below the threshold, negated
    /// when the selection is inverted.
    pub open spec fn spec_is_foreground(self, grayscale: u8) -> bool {
        (grayscale < self.spec_threshold()) != self.spec_invert()
    }

    /// Creates classification rules.
    pub fn new(threshold: u8, invert: bool) -> (selection: Self)
        ensures
            selection.spec_threshold() == threshold,
            selection.spec_invert() == invert,
    {
        Self { threshold, invert }
    }

    /// Returns the exclusive threshold.
    pub fn threshold(self) -> (threshold: u8)
        ensures
            threshold == self.spec_threshold(),
    {
        self.threshold
    }

    /// Returns whether classification is inverted.
    pub fn invert(self) -> (invert: bool)
        ensures
            invert == self.spec_invert(),
    {
        self.invert
    }

    /// Classifies one sample.
    pub fn is_foreground(self, grayscale: u8) -> (foreground: bool)
        ensures
            foreground == self.spec_is_foreground(grayscale),
    {
        (grayscale < self.threshold) != self.invert
    }
}

/// Number of entries equal to one.
pub open spec fn count_ones(bytes: Seq<u8>) -> nat
    decreases bytes.len(),
{
    if bytes.len() == 0 {
        0
    } else {
        count_ones(bytes.drop_last()) + if bytes.last() == 1 {
            1nat
        } else {
            0nat
        }
    }
}

/// Every byte is zero or one.
pub open spec fn is_canonical_mask(bytes: Seq<u8>) -> bool {
    forall|i: int| 0 <= i < bytes.len() ==> #[trigger] bytes[i] <= 1
}

/// A row-major binary mask with a top-left origin.
#[derive(Debug, PartialEq, Eq)]
pub struct BinaryMask {
    dimensions: PixelDimensions,
    pixels: Vec<u8>,
}

impl BinaryMask {
    /// The mask's grid.
    pub closed spec fn spec_dimensions(&self) -> PixelDimensions {
        self.dimensions
    }

    /// The mask's canonical bytes.
    pub closed spec fn spec_bytes(&self) -> Seq<u8> {
        self.pixels@
    }

    /// One canonical byte per grid pixel.
    #[verifier::type_invariant]
    pub open spec fn wf(&self) -> bool {
        &&& self.spec_bytes().len() == self.spec_dimensions().spec_pixel_count()
        &&& is_canonical_mask(self.spec_bytes())
    }

    /// Creates a mask from canonical zero/one bytes.
    pub fn new(width: u32, height: u32, pixels: Vec<u8>) -> (result: Result<Self, DocumentError>)
        ensures
            width == 0 ==> result == Err::<Self, DocumentError>(
                DocumentError::ZeroPixelDimension { dimension: Dimension::Width },
            ),
            width != 0 && height == 0 ==> result == Err::<Self, DocumentError>(
                DocumentError::ZeroPixelDimension { dimension: Dimension::Height },
            ),
            width != 0 && height != 0 && width * height > MAX_RASTER_PIXELS ==> result == Err::<
                Self,
                DocumentError,
            >(
                DocumentError::RasterTooLarge { width, height, max_pixels: MAX_RASTER_PIXELS },
            ),
            width != 0 && height != 0 && width * height <= MAX_RASTER_PIXELS && pixels.len()
                != width * height ==> result == Err::<Self, DocumentError>(
                DocumentError::DataLengthMismatch {
                    expected: (width * height) as usize,
                    actual: pixels.len(),
                },
            ),
            width != 0 && height != 0 && width * height <= MAX_RASTER_PIXELS && pixels.len()
                == width * height && !is_canonical_mask(pixels@) ==> (exists|index: int|
                0 <= index < pixels.len() && pixels@[index] > 1 && (forall|j: int|
                    0 <= j < index ==> #[trigger] pixels@[j] <= 1) && result == Err::<
                    Self,
                    DocumentError,
                >(DocumentError::InvalidBinaryValue { index: index as usize, value: pixels@[index] })),
            width != 0 && height != 0 && width * height <= MAX_RASTER_PIXELS && pixels.len()
                == width * height && is_canonical_mask(pixels@) ==> (result matches Ok(mask)
                && mask.spec_dimensions().spec_width() == width
                && mask.spec_dimensions().spec_height() == height && mask.spec_bytes()
                == pixels@),
    {
        let dimensions = PixelDimensions::new(width, height)?;
        let expected = dimensions.pixel_count();
        if pixels.len() != expected {
            return Err(DocumentError::DataLengthMismatch { expected, actual: pixels.len() });
        }
        let mut index: usize = 0;
        while index < pixels.len()
            invariant
                0 <= index <= pixels.len(),
                width != 0 && height != 0 && width * height <= MAX_RASTER_PIXELS,
                pixels.len() == width * height,
                forall|j: int| 0 <= j < index ==> #[trigger] pixels@[j] <= 1,
            decreases pixels.len() - index,
        {
            if pixels[index] > 1 {
                return Err(DocumentError::InvalidBinaryValue { index, value: pixels[index] });
            }
            index += 1;
        }
        Ok(Self { dimensions, pixels })
    }

    /// Thresholds an already-composited grayscale raster.
    pub fn from_grayscale(raster: &GrayscaleRaster, selection: ForegroundSelection) -> (mask: Self)
        ensures
            mask.spec_dimensions() == raster.spec_dimensions(),
            mask.spec_bytes().len() == raster.spec_pixels().len(),
            forall|i: int|
                0 <= i < mask.spec_bytes().len() ==> #[trigger] mask.spec_bytes()[i] == if selection.spec_is_foreground(
                    raster.spec_pixels()[i],
                ) {
                    1u8
                } else {
                    0u8
                },
    {
        let samples = raster.pixels();
        let mut pixels: Vec<u8> = Vec::with_capacity(samples.len());
        let mut index: usize = 0;
        while index < samples.len()
            invariant
                0 <= index <= samples.len(),
                pixels.len() == index,
                forall|i: int|
                    0 <= i < index ==> #[trigger] pixels@[i] == if selection.spec_is_foreground(
                        samples@[i],
                    ) {
                        1u8
                    } else {
                        0u8
                    },
            decreases samples.len() - index,
        {
            let value: u8 = if selection.is_foreground(samples[index]) {
                1
            } else {
                0
            };
            pixels.push(value);
            index += 1;
        }
        Self { dimensions: raster.dimensions(), pixels }
    }

    /// Returns the mask dimensions.
    pub fn dimensions(&self) -> (dimensions: PixelDimensions)
        ensures
            dimensions == self.spec_dimensions(),
    {
        self.dimensions
    }

    /// Returns the canonical zero/one bytes.
    pub fn as_bytes(&self) -> (bytes: &[u8])
        ensures
            bytes@ == self.spec_bytes(),
            bytes@.len() == self.spec_dimensions().spec_pixel_count(),
            is_canonical_mask(bytes@),
    {
        proof {
            use_type_invariant(self);
        }
        self.pixels.as_slice()
    }

    /// Returns one classification, or `None` if the coordinate is out of bounds.
    pub fn is_foreground(&self, x: u32, y: u32) -> (foreground: Option<bool>)
        ensures
            (x < self.spec_dimensions().spec_width() && y < self.spec_dimensions().spec_height())
                ==> foreground == Some(
                self.spec_bytes()[self.spec_dimensions().spec_index(x as int, y as int)] == 1,
            ),
            !(x < self.spec_dimensions().spec_width() && y < self.spec_dimensions().spec_height())
                ==> foreground is None,
    {
        proof {
            use_type_invariant(self);
        }
        match self.dimensions.index(x, y) {
            Some(index) => Some(self.pixels[index] == 1),
            None => None,
        }
    }

    /// Counts foreground pixels.
    pub fn foreground_pixel_count(&self) -> (count: usize)
        ensures
            count == count_ones(self.spec_bytes()),
    {
        proof {
            use_type_invariant(self);
        }
        let mut count: usize = 0;
        let mut index: usize = 0;
        while index < self.pixels.len()
            invariant
                0 <= index <= self.pixels.len(),
                is_canonical_mask(self.pixels@),
                count == count_ones(self.pixels@.take(index as int)),
                count <= index,
            decreases self.pixels.len() - index,
        {
            proof {
                assert(self.pixels@.take(index as int + 1).drop_last() == self.pixels@.take(
                    index as int,
                ));
            }
            if self.pixels[index] == 1 {
                count += 1;
            }
            index += 1;
        }
        proof {
            assert(self.pixels@.take(index as int) == self.pixels@);
        }
        count
    }
}

impl Clone for BinaryMask {
    fn clone(&self) -> (copy: Self)
        ensures
            copy.spec_dimensions() == self.spec_dimensions(),
            copy.spec_bytes() == self.spec_bytes(),
    {
        proof {
            use_type_invariant(self);
        }
        Self { dimensions: self.dimensions, pixels: self.pixels.clone() }
    }
}

/// Renderer-independent artwork consumed by planar geometry.
#[derive(Debug, PartialEq, Eq)]
pub struct CanonicalArtwork {
    physical_size: PhysicalSizeMicrometers,
    foreground: BinaryMask,
}

impl CanonicalArtwork {
    /// The artwork's physical extents.
    pub closed spec fn spec_physical_size(&self) -> PhysicalSizeMicrometers {
        self.physical_size
    }

    /// The artwork's foreground mask.
    pub closed spec fn spec_foreground(&self) -> BinaryMask {
        self.foreground
    }

    /// Combines physical extents with a binary foreground mask.
    pub fn new(physical_size: PhysicalSizeMicrometers, foreground: BinaryMask) -> (artwork: Self)
        ensures
            artwork.spec_physical_size() == physical_size,
            artwork.spec_foreground() == foreground,
    {
        Self { physical_size, foreground }
    }

    /// Thresholds a grayscale raster into canonical artwork.
    pub fn from_grayscale(
        physical_size: PhysicalSizeMicrometers,
        raster: &GrayscaleRaster,
        selection: ForegroundSelection,
    ) -> (artwork: Self)
        ensures
            artwork.spec_physical_size() == physical_size,
            artwork.spec_foreground().spec_dimensions() == raster.spec_dimensions(),
            artwork.spec_foreground().spec_bytes().len() == raster.spec_pixels().len(),
            forall|i: int|
                0 <= i < raster.spec_pixels().len()
                    ==> #[trigger] artwork.spec_foreground().spec_bytes()[i] == if selection.spec_is_foreground(
                    raster.spec_pixels()[i],
                ) {
                    1u8
                } else {
                    0u8
                },
    {
        Self::new(physical_size, BinaryMask::from_grayscale(raster, selection))
    }

    /// Returns the physical extents.
    pub fn physical_size(&self) -> (size: PhysicalSizeMicrometers)
        ensures
            size == self.spec_physical_size(),
    {
        self.physical_size
    }

    /// Returns the binary foreground mask.
    pub fn foreground(&self) -> (mask: &BinaryMask)
        ensures
            *mask == self.spec_foreground(),
    {
        &self.foreground
    }
}

impl Clone for CanonicalArtwork {
    fn clone(&self) -> (copy: Self)
        ensures
            copy.spec_physical_size() == self.spec_physical_size(),
            copy.spec_foreground().spec_dimensions() == self.spec_foreground().spec_dimensions(),
            copy.spec_foreground().spec_bytes() == self.spec_foreground().spec_bytes(),
    {
        Self { physical_size: self.physical_size, foreground: self.foreground.clone() }
    }
}

} // verus!
