use plaque3mf::{
    BinaryMask, CanonicalArtwork, Dimension, DocumentError, ForegroundSelection, GrayscaleRaster,
    PhysicalSizeMicrometers, PixelDimensions, MAX_RASTER_PIXELS,
};

#[test]
fn pixel_dimensions_reject_empty_and_excessive_rasters() {
    assert_eq!(
        PixelDimensions::new(0, 1),
        Err(DocumentError::ZeroPixelDimension {
            dimension: Dimension::Width
        })
    );
    assert_eq!(
        PixelDimensions::new(1, 0),
        Err(DocumentError::ZeroPixelDimension {
            dimension: Dimension::Height
        })
    );
    assert_eq!(
        PixelDimensions::new(16_385, 16_384),
        Err(DocumentError::RasterTooLarge {
            width: 16_385,
            height: 16_384,
            max_pixels: MAX_RASTER_PIXELS
        })
    );
    assert_eq!(
        PixelDimensions::new(16_384, 16_384)
            .expect("dimensions at the limit are valid")
            .pixel_count(),
        MAX_RASTER_PIXELS as usize
    );
}

#[test]
fn physical_size_requires_positive_micrometers() {
    assert_eq!(
        PhysicalSizeMicrometers::new(0, 1),
        Err(DocumentError::NonPositivePhysicalDimension {
            dimension: Dimension::Width,
            micrometers: 0
        })
    );
    assert_eq!(
        PhysicalSizeMicrometers::new(1, -1),
        Err(DocumentError::NonPositivePhysicalDimension {
            dimension: Dimension::Height,
            micrometers: -1
        })
    );
}

#[test]
fn grayscale_raster_validates_length_and_is_row_major() {
    assert_eq!(
        GrayscaleRaster::new(2, 2, vec![0, 1, 2]),
        Err(DocumentError::DataLengthMismatch {
            expected: 4,
            actual: 3
        })
    );
    let raster = GrayscaleRaster::new(2, 2, vec![10, 20, 30, 40]).expect("valid raster");
    assert_eq!(raster.pixel(0, 0), Some(10));
    assert_eq!(raster.pixel(1, 0), Some(20));
    assert_eq!(raster.pixel(0, 1), Some(30));
    assert_eq!(raster.pixel(1, 1), Some(40));
    assert_eq!(raster.pixel(2, 0), None);
}

#[test]
fn binary_mask_rejects_noncanonical_bytes() {
    assert_eq!(
        BinaryMask::new(2, 2, vec![0, 1, 2, 0]),
        Err(DocumentError::InvalidBinaryValue { index: 2, value: 2 })
    );
}

#[test]
fn threshold_is_strict_and_inversion_negates_it() {
    let raster = GrayscaleRaster::new(4, 1, vec![0, 127, 128, 255]).expect("valid raster");
    let normal = BinaryMask::from_grayscale(&raster, ForegroundSelection::new(128, false));
    let inverted = BinaryMask::from_grayscale(&raster, ForegroundSelection::new(128, true));
    assert_eq!(normal.as_bytes(), &[1, 1, 0, 0]);
    assert_eq!(inverted.as_bytes(), &[0, 0, 1, 1]);
}

#[test]
fn threshold_extremes_keep_nonwhite_default_semantics() {
    let all_values = GrayscaleRaster::new(256, 1, (u8::MIN..=u8::MAX).collect())
        .expect("all samples form a raster");
    let zero = BinaryMask::from_grayscale(&all_values, ForegroundSelection::new(0, false));
    let inverted_zero = BinaryMask::from_grayscale(&all_values, ForegroundSelection::new(0, true));
    let default = BinaryMask::from_grayscale(&all_values, ForegroundSelection::new(255, false));
    assert_eq!(zero.foreground_pixel_count(), 0);
    assert_eq!(inverted_zero.foreground_pixel_count(), 256);
    assert_eq!(default.foreground_pixel_count(), 255);
    assert_eq!(default.is_foreground(254, 0), Some(true));
    assert_eq!(default.is_foreground(255, 0), Some(false));
}

#[test]
fn every_threshold_and_sample_obeys_the_contract() {
    for threshold in u8::MIN..=u8::MAX {
        for sample in u8::MIN..=u8::MAX {
            assert_eq!(
                ForegroundSelection::new(threshold, false).is_foreground(sample),
                sample < threshold
            );
            assert_eq!(
                ForegroundSelection::new(threshold, true).is_foreground(sample),
                sample >= threshold
            );
        }
    }
}

#[test]
fn canonical_artwork_retains_physical_and_pixel_extents() {
    let physical = PhysicalSizeMicrometers::new(100_000, 50_000).expect("positive extents");
    let raster = GrayscaleRaster::new(2, 1, vec![0, 255]).expect("valid raster");
    let artwork =
        CanonicalArtwork::from_grayscale(physical, &raster, ForegroundSelection::new(255, false));
    assert_eq!(artwork.physical_size(), physical);
    assert_eq!(artwork.foreground().dimensions(), raster.dimensions());
    assert_eq!(artwork.foreground().as_bytes(), &[1, 0]);
    assert_eq!(artwork.foreground().is_foreground(0, 0), Some(true));
    assert_eq!(artwork.foreground().is_foreground(2, 0), None);
}

#[test]
fn pixel_index_is_row_major_and_bounded() {
    let dimensions = PixelDimensions::new(3, 2).expect("valid dimensions");
    assert_eq!(dimensions.index(0, 0), Some(0));
    assert_eq!(dimensions.index(2, 0), Some(2));
    assert_eq!(dimensions.index(1, 1), Some(4));
    assert_eq!(dimensions.index(3, 0), None);
    assert_eq!(dimensions.index(0, 2), None);
}

#[test]
fn binary_mask_accepts_canonical_bytes_and_counts_them() {
    let mask = BinaryMask::new(3, 1, vec![1, 0, 1]).expect("canonical mask");
    assert_eq!(mask.foreground_pixel_count(), 2);
    assert_eq!(mask.is_foreground(1, 0), Some(false));
    assert_eq!(
        BinaryMask::new(2, 1, vec![1]),
        Err(DocumentError::DataLengthMismatch {
            expected: 2,
            actual: 1
        })
    );
}
