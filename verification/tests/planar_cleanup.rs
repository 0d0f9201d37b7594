use plaque3mf::planar::cleanup::{
    disk_rows, ensure_work_within_limit, open_foreground_on_grid, DiskRow,
};
use plaque3mf::planar::partition::axis_edges;
use plaque3mf::planar::PlanarError;
use plaque3mf::{BinaryMask, Dimension, PhysicalSizeMicrometers};

fn mask(width: u32, height: u32, pixels: &[u8]) -> BinaryMask {
    BinaryMask::new(width, height, pixels.to_vec()).expect("test mask is valid")
}

fn physical(width: i64, height: i64) -> PhysicalSizeMicrometers {
    PhysicalSizeMicrometers::new(width, height).expect("test dimensions are positive")
}

fn open_foreground(
    mask: &BinaryMask,
    physical_size: PhysicalSizeMicrometers,
    minimum_width_micrometers: i64,
) -> Result<Vec<u8>, PlanarError> {
    let dimensions = mask.dimensions();
    let x_edges = axis_edges(physical_size.width(), dimensions.width(), Dimension::Width)?;
    let y_edges = axis_edges(physical_size.height(), dimensions.height(), Dimension::Height)?;
    open_foreground_on_grid(mask, &x_edges, &y_edges, minimum_width_micrometers)
}

#[test]
fn one_cell_minimum_is_the_identity() {
    let input = mask(3, 2, &[1, 0, 1, 0, 1, 0]);
    let opened = open_foreground(&input, physical(300, 200), 100).expect("identity opening succeeds");

    assert_eq!(opened, input.as_bytes());
}

#[test]
fn opening_rejects_a_nonpositive_width() {
    let input = mask(1, 1, &[1]);
    assert_eq!(
        open_foreground(&input, physical(100, 100), 0),
        Err(PlanarError::NonPositiveMinimumFeatureWidth)
    );
}

#[test]
fn digital_disk_removes_below_minimum_and_retains_exact_width() {
    let narrow = mask(
        4,
        4,
        &[
            0, 1, 0, 0, //
            0, 1, 0, 0, //
            0, 1, 0, 0, //
            0, 1, 0, 0,
        ],
    );
    let exact = mask(
        4,
        4,
        &[
            0, 1, 1, 0, //
            0, 1, 1, 0, //
            0, 1, 1, 0, //
            0, 1, 1, 0,
        ],
    );

    assert_eq!(
        open_foreground(&narrow, physical(400, 400), 200).expect("opening succeeds"),
        vec![0; 16]
    );
    assert_eq!(
        open_foreground(&exact, physical(400, 400), 200).expect("opening succeeds"),
        exact.as_bytes()
    );
}

#[test]
fn nondivisible_anisotropic_axes_use_actual_breakpoint_spans() {
    let narrow = mask(2, 1, &[0, 1]);
    let full = mask(2, 1, &[1, 1]);

    assert_eq!(
        open_foreground(&narrow, physical(5, 4), 3).expect("conservative opening succeeds"),
        [0, 0]
    );
    assert_eq!(
        open_foreground(&full, physical(5, 4), 3).expect("full-width opening succeeds"),
        full.as_bytes()
    );
}

#[test]
fn nondivisible_grid_preserves_a_physically_wide_full_page() {
    let pixels = vec![1; 100];
    let input = mask(100, 1, &pixels);

    assert_eq!(
        open_foreground(&input, physical(199, 200), 150)
            .expect("physical breakpoint opening succeeds"),
        input.as_bytes()
    );
}

#[test]
fn extreme_anisotropic_disk_has_defined_tips() {
    let rows = disk_rows(2, 100).expect("narrow digital ellipse is representable");
    assert_eq!(rows.len(), 100);
    assert_eq!(
        rows.first(),
        Some(&DiskRow {
            dy: -49,
            left: 0,
            right: 1,
        })
    );
    assert_eq!(
        rows.last(),
        Some(&DiskRow {
            dy: 50,
            left: 0,
            right: 1,
        })
    );

    let pixels = vec![1; 200];
    let input = mask(2, 100, &pixels);
    assert_eq!(
        open_foreground(&input, physical(100, 100), 100).expect("anisotropic opening succeeds"),
        input.as_bytes()
    );
}

#[test]
fn reflected_even_kernel_does_not_translate_a_full_page() {
    let input = mask(3, 3, &[1; 9]);
    let opened = open_foreground(&input, physical(300, 300), 200).expect("opening succeeds");

    assert_eq!(opened, input.as_bytes());
}

#[test]
fn digital_ellipse_rows_are_deterministic_for_even_axes() {
    assert_eq!(
        disk_rows(4, 2).expect("disk is representable"),
        [
            DiskRow {
                dy: 0,
                left: -1,
                right: 2,
            },
            DiskRow {
                dy: 1,
                left: -1,
                right: 2,
            },
        ]
    );
}

#[test]
fn opening_is_idempotent_and_anti_extensive_for_every_three_by_three_mask() {
    for bits in 0_u16..512 {
        let pixels = (0..9)
            .map(|index| u8::from(bits & (1 << index) != 0))
            .collect::<Vec<_>>();
        let input = mask(3, 3, &pixels);
        let opened = open_foreground(&input, physical(300, 300), 200).expect("first opening succeeds");
        let opened_mask = mask(3, 3, &opened);
        let repeated = open_foreground(&opened_mask, physical(300, 300), 200)
            .expect("second opening succeeds");

        assert_eq!(opened, repeated, "opening is not idempotent for {bits:#05x}");
        assert!(
            opened
                .iter()
                .zip(&pixels)
                .all(|(result, source)| result <= source),
            "opening added foreground for {bits:#05x}"
        );
    }
}

#[test]
fn opening_work_is_bounded_before_processing() {
    assert!(matches!(
        ensure_work_within_limit(10, 3, 59),
        Err(PlanarError::MorphologyWorkLimitExceeded {
            required: 60,
            max: 59,
        })
    ));
}

#[test]
fn opening_work_overflow_is_reported() {
    assert_eq!(
        ensure_work_within_limit(u128::MAX, 2, u128::MAX),
        Err(PlanarError::ArithmeticOverflow)
    );
}

#[test]
fn reflected_rows_mirror_both_offsets() {
    let row = DiskRow {
        dy: -2,
        left: -1,
        right: 3,
    };
    assert_eq!(
        row.reflected(),
        DiskRow {
            dy: 2,
            left: -3,
            right: 1,
        }
    );
}
