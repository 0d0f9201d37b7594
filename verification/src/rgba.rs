//! Deterministic conversion of straight-alpha RGBA pixels into grayscale.

use vstd::prelude::*;

use crate::document::{Dimension, DocumentError, GrayscaleRaster, PixelDimensions, MAX_RASTER_PIXELS};

verus! {

/// Bytes per RGBA pixel.
pub const RGBA_CHANNEL_COUNT: usize = 4;

/// One channel composited over white, rounded to the nearest byte value.
pub open spec fn spec_composite_over_white(channel: u8, alpha: u8) -> int {
    (channel * alpha + 255 * (255 - alpha) + 127) / 255
}

/// The grayscale value of one straight-alpha pixel composited over white,
/// with fixed luma weights 77, 150 and 29 out of 256, rounded to nearest.
pub open spec fn spec_rgba_to_gray(red: u8, green: u8, blue: u8, alpha: u8) -> int {
    (77 * spec_composite_over_white(red, alpha) + 150 * spec_composite_over_white(green, alpha)
        + 29 * spec_composite_over_white(blue, alpha) + 128) / 256
}

/// The grayscale value of the pixel whose channels start at `4 * index`.
pub open spec fn spec_gray_at(rgba: Seq<u8>, index: int) -> int {
    spec_rgba_to_gray(rgba[4 * index], rgba[4 * index + 1], rgba[4 * index + 2], rgba[4 * index + 3])
}

/// Composites one channel over white in byte space.
pub fn composite_over_white(channel: u8, alpha: u32) -> (value: u32)
    requires
        alpha <= 255,
    ensures
        value == spec_composite_over_white(channel, alpha as u8),
        value <= 255,
{
    assert(channel as u32 * alpha <= 255 * 255) by (nonlinear_arith)
        requires
            channel <= 255,
            alpha <= 255,
    ;
    assert(channel as u32 * alpha + 255 * (255 - alpha) <= 255 * 255) by (nonlinear_arith)
        requires
            channel <= 255,
            alpha <= 255,
    ;
    (channel as u32 * alpha + 255 * (255 - alpha) + 127) / 255
}

/// Composites row-major straight-alpha RGBA pixels over white and converts
/// them to grayscale.
pub fn rgba_over_white_to_grayscale(width: u32, height: u32, rgba: &[u8]) -> (result: Result<
    GrayscaleRaster,
    DocumentError,
>)
    ensures
        width == 0 ==> result == Err::<GrayscaleRaster, DocumentError>(
            DocumentError::ZeroPixelDimension { dimension: Dimension::Width },
        ),
        width != 0 && height == 0 ==> result == Err::<GrayscaleRaster, DocumentError>(
            DocumentError::ZeroPixelDimension { dimension: Dimension::Height },
        ),
        width != 0 && height != 0 && width * height > MAX_RASTER_PIXELS ==> result == Err::<
            GrayscaleRaster,
            DocumentError,
        >(DocumentError::RasterTooLarge { width, height, max_pixels: MAX_RASTER_PIXELS }),
        width != 0 && height != 0 && width * height <= MAX_RASTER_PIXELS && rgba@.len() != 4
            * width * height ==> result == Err::<GrayscaleRaster, DocumentError>(
            DocumentError::RgbaDataLengthMismatch {
                expected: (4 * width * height) as usize,
                actual: rgba@.len() as usize,
            },
        ),
        width != 0 && height != 0 && width * height <= MAX_RASTER_PIXELS && rgba@.len() == 4
            * width * height ==> (result matches Ok(raster) && raster.spec_dimensions().spec_width()
            == width && raster.spec_dimensions().spec_height() == height
            && raster.spec_pixels().len() == width * height && forall|i: int|
            0 <= i < width * height ==> #[trigger] raster.spec_pixels()[i] == spec_gray_at(
                rgba@,
                i,
            )),
{
    let dimensions = PixelDimensions::new(width, height)?;
    let pixel_count = dimensions.pixel_count();
    assert(pixel_count * 4 == 4 * width * height) by (nonlinear_arith)
        requires
            pixel_count == width * height,
    ;
    let expected = pixel_count * RGBA_CHANNEL_COUNT;
    if rgba.len() != expected {
        return Err(DocumentError::RgbaDataLengthMismatch { expected, actual: rgba.len() });
    }
    let mut grayscale: Vec<u8> = Vec::with_capacity(pixel_count);
    let mut index: usize = 0;
    while index < pixel_count
        invariant
            0 <= index <= pixel_count,
            pixel_count == width * height,
            pixel_count <= MAX_RASTER_PIXELS,
            rgba@.len() == 4 * pixel_count,
            grayscale.len() == index,
            forall|i: int| 0 <= i < index ==> #[trigger] grayscale@[i] == spec_gray_at(rgba@, i),
        decreases pixel_count - index,
    {
        let base = index * RGBA_CHANNEL_COUNT;
        let alpha = rgba[base + 3] as u32;
        let red = composite_over_white(rgba[base], alpha);
        let green = composite_over_white(rgba[base + 1], alpha);
        let blue = composite_over_white(rgba[base + 2], alpha);
        let gray = (77 * red + 150 * green + 29 * blue + 128) / 256;
        assert(gray <= 255);
        grayscale.push(gray as u8);
        index += 1;
    }
    GrayscaleRaster::new(width, height, grayscale)
}

} // verus!
