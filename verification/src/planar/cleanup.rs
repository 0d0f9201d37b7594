//! Deterministic cleanup of the canonical foreground mask: a morphological
//! opening with a digital ellipse whose physical diameter is the minimum
//! printable feature width.

use vstd::prelude::*;

use crate::document::{is_canonical_mask, BinaryMask, MAX_RASTER_PIXELS};
use crate::planar::types::{PlanarError, MAX_MORPHOLOGY_WORK};

verus! {

/// One row of a digital disk: the cells `left..=right` (relative to the
/// anchor column) at vertical offset `dy` from the anchor row.
#[derive(Clone, Copy, Debug, PartialEq, Eq, Structural)]
pub struct DiskRow {
    pub dy: i64,
    pub left: i64,
    pub right: i64,
}

/// Offsets small enough to negate and to add to a grid index.
pub open spec fn small_offset(value: int) -> bool {
    -(MAX_RASTER_PIXELS as int) <= value <= MAX_RASTER_PIXELS as int
}

/// A disk row spans its anchor column and has small offsets.
pub open spec fn row_valid(row: DiskRow) -> bool {
    &&& row.left <= 0 <= row.right
    &&& small_offset(row.dy as int)
    &&& small_offset(row.left as int)
    &&& small_offset(row.right as int)
}

impl DiskRow {
    /// Returns the row of the point-reflected disk.
    pub fn reflected(self) -> (row: Self)
        requires
            row_valid(self),
        ensures
            row.dy == -self.dy,
            row.left == -self.right,
            row.right == -self.left,
            row_valid(row),
    {
        Self { dy: -self.dy, left: -self.right, right: -self.left }
    }
}

/// Row `y` of a row-major grid of the given width.
pub open spec fn grid_row(cells: Seq<u8>, width: int, y: int) -> Seq<u8> {
    cells.subrange(y * width, y * width + width)
}

/// The number of ones in `cells[from..to]`.
pub open spec fn ones(cells: Seq<u8>, from: int, to: int) -> int
    decreases to - from,
{
    if to <= from {
        0
    } else {
        ones(cells, from, to - 1) + if cells[to - 1] == 1 {
            1int
        } else {
            0int
        }
    }
}

proof fn lemma_ones_first(cells: Seq<u8>, from: int, to: int)
    requires
        from < to,
    ensures
        ones(cells, from, to) == (if cells[from] == 1 {
            1int
        } else {
            0int
        }) + ones(cells, from + 1, to),
    decreases to - from,
{
    if to - 1 > from {
        lemma_ones_first(cells, from, to - 1);
        assert(ones(cells, from + 1, to) == ones(cells, from + 1, to - 1) + if cells[to - 1] == 1 {
            1int
        } else {
            0int
        });
    } else {
        assert(ones(cells, from, from) == 0);
        assert(ones(cells, from + 1, to) == 0);
    }
}

proof fn lemma_ones_range(cells: Seq<u8>, from: int, to: int)
    requires
        from <= to,
    ensures
        0 <= ones(cells, from, to) <= to - from,
        ones(cells, from, to) == to - from <==> forall|i: int| from <= i < to ==> #[trigger] cells[i] == 1,
        ones(cells, from, to) == 0 <==> forall|i: int| from <= i < to ==> #[trigger] cells[i] != 1,
    decreases to - from,
{
    if to > from {
        lemma_ones_range(cells, from, to - 1);
        if ones(cells, from, to) == to - from {
            assert forall|i: int| from <= i < to implies #[trigger] cells[i] == 1 by {
                if i < to - 1 {
                    assert(ones(cells, from, to - 1) == to - 1 - from);
                }
            }
        }
        if ones(cells, from, to) == 0 {
            assert forall|i: int| from <= i < to implies #[trigger] cells[i] != 1 by {
                if i < to - 1 {
                    assert(ones(cells, from, to - 1) == 0);
                }
            }
        }
    }
}

/// Grid positions are in bounds.
proof fn lemma_grid_index(width: int, height: int, x: int, y: int)
    requires
        0 <= x < width,
        0 <= y < height,
    ensures
        0 <= y * width,
        y * width + x < width * height,
        y * width + width <= width * height,
{
    assert(0 <= y * width && y * width + width <= width * height) by (nonlinear_arith)
        requires
            0 <= y < height,
            0 < width,
    ;
}

/// Copies `cells[start..start + count]`.
fn copy_cells(cells: &[u8], start: usize, count: usize) -> (copy: Vec<u8>)
    requires
        start + count <= cells@.len(),
    ensures
        copy@ == cells@.subrange(start as int, start + count),
{
    let mut copy: Vec<u8> = Vec::new();
    let mut index: usize = 0;
    let total = cells.len();
    while index < count
        invariant
            total == cells@.len(),
            start + count <= cells@.len(),
            0 <= index <= count,
            copy@ == cells@.subrange(start as int, start + index),
        decreases count - index,
    {
        copy.push(cells[start + index]);
        proof {
            assert(cells@.subrange(start as int, start + index + 1) == cells@.subrange(
                start as int,
                start + index,
            ).push(cells@[start + index]));
        }
        index += 1;
    }
    copy
}

/// Shifts an index by an offset, keeping it only when it stays below `limit`.
pub fn offset_index(index: usize, offset: i64, limit: usize) -> (shifted: Option<usize>)
    ensures
        0 <= index + offset < limit ==> shifted == Some((index + offset) as usize),
        !(0 <= index + offset < limit) ==> shifted is None,
{
    let wide = index as i128 + offset as i128;
    if wide < 0 || wide >= limit as i128 {
        None
    } else {
        Some(wide as usize)
    }
}

/// Disk row `row`, placed at column `x` of output row `y`, lies inside the
/// grid and covers only foreground.
pub open spec fn row_covers(cells: Seq<u8>, width: int, height: int, row: DiskRow, x: int, y: int) -> bool {
    let sy = y + row.dy;
    &&& 0 <= sy < height
    &&& 0 <= x + row.left
    &&& x + row.right < width
    &&& forall|i: int| x + row.left <= i <= x + row.right ==> #[trigger] grid_row(cells, width, sy)[i] == 1
}

/// Disk row `row`, placed at column `x` of output row `y`, meets foreground.
pub open spec fn row_reaches(cells: Seq<u8>, width: int, height: int, row: DiskRow, x: int, y: int) -> bool {
    let sy = y + row.dy;
    &&& 0 <= sy < height
    &&& exists|i: int|
        0 <= i < width && x + row.left <= i <= x + row.right && #[trigger] grid_row(cells, width, sy)[i] == 1
}

/// A row-major grid of the given shape.
pub open spec fn grid_shaped(cells: Seq<u8>, width: int, height: int) -> bool {
    &&& width > 0
    &&& height > 0
    &&& cells.len() == width * height
    &&& width * height <= MAX_RASTER_PIXELS
}

/// Clears every cell of `destination` not covered by the disk row on `source`.
pub fn erode_with_row(source: &[u8], destination: &mut Vec<u8>, width: usize, height: usize, disk_row: DiskRow)
    requires
        grid_shaped(source@, width as int, height as int),
        is_canonical_mask(source@),
        old(destination)@.len() == source@.len(),
        row_valid(disk_row),
        disk_row.right - disk_row.left < width,
    ensures
        final(destination)@.len() == old(destination)@.len(),
        forall|x: int, y: int|
            0 <= x < width && 0 <= y < height ==> #[trigger] grid_row(final(destination)@, width as int, y)[x]
                == if row_covers(source@, width as int, height as int, disk_row, x, y) {
                grid_row(old(destination)@, width as int, y)[x]
            } else {
                0u8
            },
{
    let ghost initial = destination@;
    let mut output_y: usize = 0;
    while output_y < height
        invariant
            grid_shaped(source@, width as int, height as int),
            is_canonical_mask(source@),
            destination@.len() == source@.len(),
            initial.len() == source@.len(),
            row_valid(disk_row),
            disk_row.right - disk_row.left < width,
            0 <= output_y <= height,
            forall|x: int, y: int|
                0 <= x < width && 0 <= y < height ==> #[trigger] grid_row(destination@, width as int, y)[x]
                    == if y < output_y {
                    if row_covers(source@, width as int, height as int, disk_row, x, y) {
                        grid_row(initial, width as int, y)[x]
                    } else {
                        0u8
                    }
                } else {
                    grid_row(initial, width as int, y)[x]
                },
        decreases height - output_y,
    {
        proof {
            lemma_grid_index(width as int, height as int, 0, output_y as int);
        }
        let base = output_y * width;
        let ghost before = destination@;
        match offset_index(output_y, disk_row.dy, height) {
            None => {
                let mut x: usize = 0;
                while x < width
                    invariant
                        grid_shaped(source@, width as int, height as int),
                        destination@.len() == source@.len(),
                        before.len() == source@.len(),
                        0 <= output_y < height,
                        base == output_y * width,
                        base + width <= width * height,
                        0 <= x <= width,
                        forall|i: int|
                            0 <= i < destination@.len() ==> #[trigger] destination@[i] == if base <= i < base + x {
                                0u8
                            } else {
                                before[i]
                            },
                    decreases width - x,
                {
                    destination.set(base + x, 0);
                    x += 1;
                }
            },
            Some(source_y) => {
                proof {
                    lemma_grid_index(width as int, height as int, 0, source_y as int);
                }
                let source_row = copy_cells(source, source_y * width, width);
                let left_margin: usize = (-disk_row.left) as usize;
                let right_margin: usize = disk_row.right as usize;
                let first_center = left_margin;
                let past_last_center = width - right_margin;
                let window_width = (disk_row.right - disk_row.left + 1) as usize;
                proof {
                    assert forall|i: int| 0 <= i < source_row@.len() implies #[trigger] source_row@[i] <= 1 by {
                        assert(source_row@[i] == source@[source_y * width + i]);
                    }
                    lemma_ones_range(source_row@, 0, window_width as int);
                }
                let mut foreground: usize = 0;
                let mut k: usize = 0;
                while k < window_width
                    invariant
                        source_row@.len() == width,
                        window_width <= width,
                        0 <= k <= window_width,
                        forall|i: int| 0 <= i < source_row@.len() ==> #[trigger] source_row@[i] <= 1,
                        foreground == ones(source_row@, 0, k as int),
                        foreground <= k,
                    decreases window_width - k,
                {
                    foreground = foreground + source_row[k] as usize;
                    k += 1;
                }
                let mut x: usize = 0;
                while x < width
                    invariant
                        grid_shaped(source@, width as int, height as int),
                        destination@.len() == source@.len(),
                        before.len() == source@.len(),
                        0 <= output_y < height,
                        base == output_y * width,
                        base + width <= width * height,
                        source_row@.len() == width,
                        first_center <= past_last_center <= width,
                        first_center == -disk_row.left,
                        past_last_center == width - disk_row.right,
                        window_width == disk_row.right - disk_row.left + 1,
                        forall|i: int| 0 <= i < source_row@.len() ==> #[trigger] source_row@[i] <= 1,
                        0 <= x <= width,
                        x <= first_center ==> foreground == ones(source_row@, 0, window_width as int),
                        first_center <= x < past_last_center ==> foreground == ones(
                            source_row@,
                            x + disk_row.left,
                            x + disk_row.right + 1,
                        ),
                        forall|i: int|
                            0 <= i < destination@.len() ==> #[trigger] destination@[i] == if base <= i < base
                                + x {
                                let c = i - base;
                                if first_center <= c < past_last_center && ones(
                                    source_row@,
                                    c + disk_row.left,
                                    c + disk_row.right + 1,
                                ) == window_width {
                                    before[i]
                                } else {
                                    0u8
                                }
                            } else {
                                before[i]
                            },
                    decreases width - x,
                {
                    if x < first_center || x >= past_last_center {
                        destination.set(base + x, 0);
                    } else {
                        if foreground != window_width {
                            destination.set(base + x, 0);
                        }
                        if x + 1 < past_last_center {
                            let leaving = (x as i64 + disk_row.left) as usize;
                            let entering = (x as i64 + 1 + disk_row.right) as usize;
                            proof {
                                lemma_ones_first(source_row@, leaving as int, entering as int + 1);
                                lemma_ones_range(source_row@, leaving as int, entering as int);
                            }
                            foreground = foreground - source_row[leaving] as usize;
                            foreground = foreground + source_row[entering] as usize;
                        }
                    }
                    x += 1;
                }
                proof {
                    assert forall|c: int| 0 <= c < width implies (first_center <= c < past_last_center && ones(
                        source_row@,
                        c + disk_row.left,
                        c + disk_row.right + 1,
                    ) == window_width) == row_covers(source@, width as int, height as int, disk_row, c, output_y as int) by {
                        assert(source_row@ == grid_row(source@, width as int, source_y as int));
                        if first_center <= c < past_last_center {
                            lemma_ones_range(source_row@, c + disk_row.left, c + disk_row.right + 1);
                        }
                    }
                }
            },
        }
        proof {
            assert forall|x: int, y: int|
                0 <= x < width && 0 <= y < height implies #[trigger] grid_row(destination@, width as int, y)[x]
                == if y < output_y + 1 {
                if row_covers(source@, width as int, height as int, disk_row, x, y) {
                    grid_row(initial, width as int, y)[x]
                } else {
                    0u8
                }
            } else {
                grid_row(initial, width as int, y)[x]
            } by {
                lemma_grid_index(width as int, height as int, x, y);
                assert(grid_row(destination@, width as int, y)[x] == destination@[y * width + x]);
                assert(grid_row(before, width as int, y)[x] == before[y * width + x]);
                if y != output_y {
                    assert((y * width + x < base) || (y * width + x >= base + width)) by (nonlinear_arith)
                        requires
                            y != output_y,
                            0 <= x < width,
                            base == output_y * width,
                    ;
                }
            }
        }
        output_y += 1;
    }
}

/// Sets every cell of `destination` that the disk row, placed there, finds
/// foreground under in `source`.
pub fn dilate_with_row(source: &[u8], destination: &mut Vec<u8>, width: usize, height: usize, disk_row: DiskRow)
    requires
        grid_shaped(source@, width as int, height as int),
        is_canonical_mask(source@),
        old(destination)@.len() == source@.len(),
        row_valid(disk_row),
    ensures
        final(destination)@.len() == old(destination)@.len(),
        forall|x: int, y: int|
            0 <= x < width && 0 <= y < height ==> #[trigger] grid_row(final(destination)@, width as int, y)[x]
                == if row_reaches(source@, width as int, height as int, disk_row, x, y) {
                1u8
            } else {
                grid_row(old(destination)@, width as int, y)[x]
            },
{
    let ghost initial = destination@;
    let mut output_y: usize = 0;
    while output_y < height
        invariant
            grid_shaped(source@, width as int, height as int),
            is_canonical_mask(source@),
            destination@.len() == source@.len(),
            initial.len() == source@.len(),
            row_valid(disk_row),
            0 <= output_y <= height,
            forall|x: int, y: int|
                0 <= x < width && 0 <= y < height ==> #[trigger] grid_row(destination@, width as int, y)[x]
                    == if y < output_y && row_reaches(source@, width as int, height as int, disk_row, x, y) {
                    1u8
                } else {
                    grid_row(initial, width as int, y)[x]
                },
        decreases height - output_y,
    {
        proof {
            lemma_grid_index(width as int, height as int, 0, output_y as int);
        }
        let base = output_y * width;
        let ghost before = destination@;
        match offset_index(output_y, disk_row.dy, height) {
            None => {},
            Some(source_y) => {
                proof {
                    lemma_grid_index(width as int, height as int, 0, source_y as int);
                }
                let source_row = copy_cells(source, source_y * width, width);
                proof {
                    assert forall|i: int| 0 <= i < source_row@.len() implies #[trigger] source_row@[i] <= 1 by {
                        assert(source_row@[i] == source@[source_y * width + i]);
                    }
                }
                let initial_end: usize = if (disk_row.right as i128) + 1 < width as i128 {
                    (disk_row.right + 1) as usize
                } else {
                    width
                };
                let mut foreground: usize = 0;
                let mut k: usize = 0;
                while k < initial_end
                    invariant
                        source_row@.len() == width,
                        initial_end <= width,
                        0 <= k <= initial_end,
                        forall|i: int| 0 <= i < source_row@.len() ==> #[trigger] source_row@[i] <= 1,
                        foreground == ones(source_row@, 0, k as int),
                        foreground <= k,
                    decreases initial_end - k,
                {
                    foreground = foreground + source_row[k] as usize;
                    k += 1;
                }
                let mut x: usize = 0;
                while x < width
                    invariant
                        grid_shaped(source@, width as int, height as int),
                        destination@.len() == source@.len(),
                        before.len() == source@.len(),
                        0 <= output_y < height,
                        base == output_y * width,
                        base + width <= width * height,
                        source_row@.len() == width,
                        row_valid(disk_row),
                        forall|i: int| 0 <= i < source_row@.len() ==> #[trigger] source_row@[i] <= 1,
                        0 <= x <= width,
                        foreground == ones(
                            source_row@,
                            if x + disk_row.left >= 0 {
                                x + disk_row.left
                            } else {
                                0
                            },
                            if x + disk_row.right + 1 < width {
                                x + disk_row.right + 1
                            } else {
                                width as int
                            },
                        ),
                        forall|i: int|
                            0 <= i < destination@.len() ==> #[trigger] destination@[i] == if base <= i < base
                                + x && ones(
                                source_row@,
                                if (i - base) + disk_row.left >= 0 {
                                    (i - base) + disk_row.left
                                } else {
                                    0
                                },
                                if (i - base) + disk_row.right + 1 < width {
                                    (i - base) + disk_row.right + 1
                                } else {
                                    width as int
                                },
                            ) != 0 {
                                1u8
                            } else {
                                before[i]
                            },
                    decreases width - x,
                {
                    let ghost low = if x + disk_row.left >= 0 {
                        x + disk_row.left
                    } else {
                        0
                    };
                    let ghost high = if x + disk_row.right + 1 < width {
                        x + disk_row.right + 1
                    } else {
                        width as int
                    };
                    proof {
                        lemma_ones_range(source_row@, low, high);
                    }
                    if foreground != 0 {
                        destination.set(base + x, 1);
                    }
                    let leaving = x as i64 + disk_row.left;
                    if leaving >= 0 && (leaving as usize) < width {
                        proof {
                            lemma_ones_first(source_row@, low, high);
                        }
                        foreground = foreground - source_row[leaving as usize] as usize;
                    }
                    let entering = x as i64 + 1 + disk_row.right;
                    if entering >= 0 && (entering as usize) < width {
                        let ghost mid_low = if x + 1 + disk_row.left >= 0 {
                            x + 1 + disk_row.left
                        } else {
                            0
                        };
                        proof {
                            lemma_ones_range(source_row@, mid_low, high);
                            assert(ones(source_row@, mid_low, high + 1) == ones(source_row@, mid_low, high)
                                + if source_row@[high] == 1 {
                                1int
                            } else {
                                0int
                            });
                        }
                        foreground = foreground + source_row[entering as usize] as usize;
                    }
                    x += 1;
                }
                proof {
                    assert forall|c: int| 0 <= c < width implies (ones(
                        source_row@,
                        if c + disk_row.left >= 0 {
                            c + disk_row.left
                        } else {
                            0
                        },
                        if c + disk_row.right + 1 < width {
                            c + disk_row.right + 1
                        } else {
                            width as int
                        },
                    ) != 0) == row_reaches(source@, width as int, height as int, disk_row, c, output_y as int) by {
                        assert(source_row@ == grid_row(source@, width as int, source_y as int));
                        let low = if c + disk_row.left >= 0 {
                            c + disk_row.left
                        } else {
                            0
                        };
                        let high = if c + disk_row.right + 1 < width {
                            c + disk_row.right + 1
                        } else {
                            width as int
                        };
                        lemma_ones_range(source_row@, low, high);
                        if ones(source_row@, low, high) != 0 {
                            let i = choose|i: int| low <= i < high && !(source_row@[i] != 1);
                            assert(grid_row(source@, width as int, source_y as int)[i] == 1);
                        }
                    }
                }
            },
        }
        proof {
            assert forall|x: int, y: int|
                0 <= x < width && 0 <= y < height implies #[trigger] grid_row(destination@, width as int, y)[x]
                == if y < output_y + 1 && row_reaches(source@, width as int, height as int, disk_row, x, y) {
                1u8
            } else {
                grid_row(initial, width as int, y)[x]
            } by {
                lemma_grid_index(width as int, height as int, x, y);
                assert(grid_row(destination@, width as int, y)[x] == destination@[y * width + x]);
                assert(grid_row(before, width as int, y)[x] == before[y * width + x]);
                if y != output_y {
                    assert((y * width + x < base) || (y * width + x >= base + width)) by (nonlinear_arith)
                        requires
                            y != output_y,
                            0 <= x < width,
                            base == output_y * width,
                    ;
                }
            }
        }
        output_y += 1;
    }
}

/// The signed distance of an index from an anchor.
pub fn offset_from_anchor(index: usize, anchor: usize) -> (result: Result<i64, PlanarError>)
    ensures
        index <= i64::MAX && anchor <= i64::MAX ==> result == Ok::<i64, PlanarError>(
            (index - anchor) as i64,
        ),
        !(index <= i64::MAX && anchor <= i64::MAX) ==> result == Err::<i64, PlanarError>(
            PlanarError::ArithmeticOverflow,
        ),
{
    if index as u128 > i64::MAX as u128 || anchor as u128 > i64::MAX as u128 {
        return Err(PlanarError::ArithmeticOverflow);
    }
    Ok(index as i64 - anchor as i64)
}

/// Checks that an opening over `pixel_count` cells with a kernel of
/// `kernel_rows` rows (one erosion and one dilation pass per row) stays
/// within `max` work units.
pub fn ensure_work_within_limit(pixel_count: u128, kernel_rows: u128, max: u128) -> (result: Result<
    (),
    PlanarError,
>)
    ensures
        pixel_count * kernel_rows * 2 > u128::MAX ==> result == Err::<(), PlanarError>(
            PlanarError::ArithmeticOverflow,
        ),
        pixel_count * kernel_rows * 2 <= u128::MAX && pixel_count * kernel_rows * 2 > max ==> result
            == Err::<(), PlanarError>(
            PlanarError::MorphologyWorkLimitExceeded {
                required: (pixel_count * kernel_rows * 2) as u128,
                max,
            },
        ),
        pixel_count * kernel_rows * 2 <= max ==> result is Ok,
{
    let required = match pixel_count.checked_mul(kernel_rows) {
        Some(work) => match work.checked_mul(2) {
            Some(doubled) => doubled,
            None => {
                return Err(PlanarError::ArithmeticOverflow);
            },
        },
        None => {
            proof {
                assert(pixel_count * kernel_rows * 2 > u128::MAX) by (nonlinear_arith)
                    requires
                        pixel_count * kernel_rows > u128::MAX,
                ;
            }
            return Err(PlanarError::ArithmeticOverflow);
        },
    };
    if required > max {
        return Err(PlanarError::MorphologyWorkLimitExceeded { required, max });
    }
    Ok(())
}

/// The `cells` intervals starting at breakpoint `start` span at least `diameter`.
pub open spec fn spans_from(edges: Seq<i64>, start: int, cells: int, diameter: int) -> bool {
    edges[start + cells] - edges[start] >= diameter
}

/// Every placement of `cells` consecutive intervals spans at least `diameter`.
pub open spec fn spans_diameter(edges: Seq<i64>, cells: int, diameter: int) -> bool {
    forall|start: int|
        0 <= start <= edges.len() - 1 - cells ==> #[trigger] spans_from(edges, start, cells, diameter)
}

/// Breakpoint `i` is below breakpoint `i + 1`.
pub open spec fn rises_at(edges: Seq<i64>, i: int) -> bool {
    edges[i] < edges[i + 1]
}

/// Consecutive breakpoints strictly increase.
pub open spec fn increasing(edges: Seq<i64>) -> bool {
    forall|i: int| 0 <= i < edges.len() - 1 ==> #[trigger] rises_at(edges, i)
}

proof fn lemma_spans_monotone(edges: Seq<i64>, cells: int, more: int, diameter: int)
    requires
        increasing(edges),
        1 <= cells <= more,
        spans_diameter(edges, cells, diameter),
    ensures
        spans_diameter(edges, more, diameter),
    decreases more - cells,
{
    if more > cells {
        lemma_spans_monotone(edges, cells, more - 1, diameter);
        assert forall|start: int| 0 <= start <= edges.len() - 1 - more implies #[trigger] spans_from(
            edges,
            start,
            more,
            diameter,
        ) by {
            assert(spans_from(edges, start, more - 1, diameter));
            assert(rises_at(edges, start + more - 1));
        }
    }
}

fn spans(edges: &[i64], cells: usize, diameter: i64) -> (result: bool)
    requires
        1 <= cells <= edges@.len() - 1,
    ensures
        result == spans_diameter(edges@, cells as int, diameter as int),
{
    let intervals = edges.len() - 1;
    let mut start: usize = 0;
    while start <= intervals - cells
        invariant
            intervals == edges@.len() - 1,
            1 <= cells <= intervals,
            0 <= start <= intervals - cells + 1,
            forall|s: int| 0 <= s < start ==> #[trigger] spans_from(edges@, s, cells as int, diameter as int),
        decreases intervals - cells + 1 - start,
    {
        if (edges[start + cells] as i128) - (edges[start] as i128) < diameter as i128 {
            proof {
                assert(!spans_from(edges@, start as int, cells as int, diameter as int));
            }
            return false;
        }
        start += 1;
    }
    true
}

/// Finds the number of cells a kernel axis needs so that every placement
/// spans at least the physical diameter: the smallest such count, or one more
/// than the axis has when even the whole axis is too short.
pub fn kernel_axis_length(edges: &[i64], diameter: i64) -> (result: Result<usize, PlanarError>)
    ensures
        edges@.len() <= 1 || !increasing(edges@) ==> result matches Err(PlanarError::InvalidTopology(_)),
        edges@.len() >= 2 && increasing(edges@) && !spans_diameter(edges@, edges@.len() - 1, diameter as int)
            ==> result == Ok::<usize, PlanarError>(edges@.len() as usize),
        edges@.len() >= 2 && increasing(edges@) && spans_diameter(edges@, edges@.len() - 1, diameter as int)
            ==> (result matches Ok(cells) && 1 <= cells <= edges@.len() - 1 && spans_diameter(
            edges@,
            cells as int,
            diameter as int,
        ) && forall|fewer: int| 1 <= fewer < cells ==> !spans_diameter(edges@, fewer, diameter as int)),
{
    let count = edges.len();
    if count == 0 {
        return Err(PlanarError::InvalidTopology("a cleanup axis has no breakpoints"));
    }
    let intervals = count - 1;
    if intervals == 0 {
        return Err(PlanarError::InvalidTopology("cleanup breakpoints are not strictly increasing"));
    }
    let mut index: usize = 0;
    while index < intervals
        invariant
            intervals == edges@.len() - 1,
            0 <= index <= intervals,
            forall|i: int| 0 <= i < index ==> #[trigger] rises_at(edges@, i),
        decreases intervals - index,
    {
        if edges[index] >= edges[index + 1] {
            proof {
                assert(!rises_at(edges@, index as int));
            }
            return Err(PlanarError::InvalidTopology("cleanup breakpoints are not strictly increasing"));
        }
        index += 1;
    }
    if !spans(edges, intervals, diameter) {
        return Ok(count);
    }
    let mut lower: usize = 1;
    let mut upper: usize = intervals;
    while lower < upper
        invariant
            intervals == edges@.len() - 1,
            increasing(edges@),
            1 <= lower <= upper <= intervals,
            spans_diameter(edges@, upper as int, diameter as int),
            forall|fewer: int| 1 <= fewer < lower ==> !spans_diameter(edges@, fewer, diameter as int),
        decreases upper - lower,
    {
        let middle = lower + (upper - lower) / 2;
        if spans(edges, middle, diameter) {
            upper = middle;
        } else {
            proof {
                assert forall|fewer: int| 1 <= fewer < middle + 1 implies !spans_diameter(
                    edges@,
                    fewer,
                    diameter as int,
                ) by {
                    if fewer >= lower && spans_diameter(edges@, fewer, diameter as int) {
                        lemma_spans_monotone(edges@, fewer, middle as int, diameter as int);
                    }
                }
            }
            lower = middle + 1;
        }
    }
    Ok(lower)
}

/// The cell `(x, y)` of a `width` by `height` box lies in the inscribed digital ellipse.
pub open spec fn ellipse_inside(width: int, height: int, x: int, y: int) -> bool {
    let nx = 2 * x + 1 - width;
    let ny = 2 * y + 1 - height;
    nx * nx * (height * height) + ny * ny * (width * width) <= width * width * (height * height)
}

/// The ellipse is symmetric about the vertical centre line.
proof fn lemma_ellipse_symmetric(width: int, height: int, x: int, y: int)
    ensures
        ellipse_inside(width, height, x, y) == ellipse_inside(width, height, width - 1 - x, y),
{
    let nx = 2 * x + 1 - width;
    let mx = 2 * (width - 1 - x) + 1 - width;
    assert(mx == -nx);
    assert(mx * mx == nx * nx) by (nonlinear_arith)
        requires
            mx == -nx,
    ;
}

/// Row `y` of the digital ellipse in a `width` by `height` box, anchored at
/// the lower-left of its centre.
pub open spec fn disk_row_matches(width: int, height: int, y: int, row: DiskRow) -> bool {
    let first = row.left + (width - 1) / 2;
    let last = row.right + (width - 1) / 2;
    &&& row.dy == y - (height - 1) / 2
    &&& (exists|x: int| 0 <= x < width && #[trigger] ellipse_inside(width, height, x, y)) ==> {
        &&& 0 <= first <= last < width
        &&& ellipse_inside(width, height, first, y)
        &&& ellipse_inside(width, height, last, y)
        &&& forall|x: int|
            0 <= x < width && #[trigger] ellipse_inside(width, height, x, y) ==> first <= x <= last
    }
    &&& !(exists|x: int| 0 <= x < width && #[trigger] ellipse_inside(width, height, x, y)) ==> {
        &&& first == (width - 1) / 2
        &&& last == width / 2
    }
}

/// Samples a digital ellipse inscribed in a `width` by `height` cell box,
/// one row per kernel line; a line the ellipse misses keeps its centre cells.
pub fn disk_rows(width: usize, height: usize) -> (result: Result<Vec<DiskRow>, PlanarError>)
    requires
        1 <= width <= MAX_RASTER_PIXELS,
        1 <= height <= MAX_RASTER_PIXELS,
    ensures
        result matches Ok(rows) && rows@.len() == height && forall|y: int|
            0 <= y < height ==> disk_row_matches(width as int, height as int, y, #[trigger] rows@[y])
                && row_valid(rows@[y]) && rows@[y].right - rows@[y].left < width,
{
    let w = width as i128;
    let h = height as i128;
    proof {
        assert(w * w <= 72_057_594_037_927_936 && h * h <= 72_057_594_037_927_936) by (nonlinear_arith)
            requires
                1 <= w <= 268_435_456,
                1 <= h <= 268_435_456,
        ;
    }
    let width_squared = w * w;
    let height_squared = h * h;
    proof {
        assert(width_squared * height_squared <= 5_192_296_858_534_827_628_530_496_329_220_096) by (nonlinear_arith)
            requires
                0 <= width_squared <= 72_057_594_037_927_936,
                0 <= height_squared <= 72_057_594_037_927_936,
        ;
    }
    let limit = width_squared * height_squared;
    let anchor_x = (width - 1) / 2;
    let anchor_y = (height - 1) / 2;
    let mut rows: Vec<DiskRow> = Vec::new();
    let mut y: usize = 0;
    while y < height
        invariant
            1 <= width <= MAX_RASTER_PIXELS,
            1 <= height <= MAX_RASTER_PIXELS,
            w == width,
            h == height,
            width_squared == w * w,
            height_squared == h * h,
            width_squared <= 72_057_594_037_927_936,
            height_squared <= 72_057_594_037_927_936,
            limit == width_squared * height_squared,
            limit <= 5_192_296_858_534_827_628_530_496_329_220_096,
            anchor_x == (width - 1) / 2,
            anchor_y == (height - 1) / 2,
            0 <= y <= height,
            rows@.len() == y,
            forall|r: int|
                0 <= r < y ==> disk_row_matches(width as int, height as int, r, #[trigger] rows@[r])
                    && row_valid(rows@[r]) && rows@[r].right - rows@[r].left < width,
        decreases height - y,
    {
        let normalized_y = 2 * (y as i128) + 1 - h;
        proof {
            assert(0 <= normalized_y * normalized_y <= h * h) by (nonlinear_arith)
                requires
                    normalized_y == 2 * y + 1 - h,
                    0 <= y < h,
            ;
            assert(0 <= normalized_y * normalized_y * width_squared <= height_squared * width_squared) by (nonlinear_arith)
                requires
                    0 <= normalized_y * normalized_y <= height_squared,
                    0 <= width_squared,
            ;
            assert(height_squared * width_squared == width_squared * height_squared) by (nonlinear_arith);
        }
        let vertical = normalized_y * normalized_y * width_squared;
        let mut first: Option<usize> = None;
        let mut last: usize = 0;
        let mut x: usize = 0;
        while x < width
            invariant
                1 <= width <= MAX_RASTER_PIXELS,
                w == width,
                h == height,
                width_squared == w * w,
                height_squared == h * h,
                width_squared <= 72_057_594_037_927_936,
                height_squared <= 72_057_594_037_927_936,
                limit == width_squared * height_squared,
                limit <= 5_192_296_858_534_827_628_530_496_329_220_096,
            limit <= 5_192_296_858_534_827_628_530_496_329_220_096,
                0 <= y < height,
                normalized_y == 2 * y + 1 - h,
                vertical == normalized_y * normalized_y * width_squared,
                0 <= vertical <= limit,
                0 <= x <= width,
                first is None ==> forall|k: int| 0 <= k < x ==> !#[trigger] ellipse_inside(width as int, height as int, k, y as int),
                first matches Some(f) ==> {
                    &&& 0 <= f <= last < x
                    &&& ellipse_inside(width as int, height as int, f as int, y as int)
                    &&& ellipse_inside(width as int, height as int, last as int, y as int)
                    &&& forall|k: int|
                        0 <= k < x && #[trigger] ellipse_inside(width as int, height as int, k, y as int)
                            ==> f <= k <= last
                },
            decreases width - x,
        {
            let normalized_x = 2 * (x as i128) + 1 - w;
            proof {
                assert(0 <= normalized_x * normalized_x <= w * w) by (nonlinear_arith)
                    requires
                        normalized_x == 2 * x + 1 - w,
                        0 <= x < w,
                ;
                assert(0 <= normalized_x * normalized_x * height_squared <= width_squared * height_squared) by (nonlinear_arith)
                    requires
                        0 <= normalized_x * normalized_x <= width_squared,
                        0 <= height_squared,
                ;
            }
            let horizontal = normalized_x * normalized_x * height_squared;
            if horizontal + vertical <= limit {
                if first.is_none() {
                    first = Some(x);
                }
                last = x;
            }
            x += 1;
        }
        let (row_first, row_last) = match first {
            Some(f) => (f, last),
            None => ((width - 1) / 2, width / 2),
        };
        proof {
            if first is Some {
                let f = first->0;
                lemma_ellipse_symmetric(width as int, height as int, f as int, y as int);
                lemma_ellipse_symmetric(width as int, height as int, last as int, y as int);
                assert(ellipse_inside(width as int, height as int, width - 1 - f, y as int));
                assert(f <= width - 1 - f);
                assert(last >= width - 1 - f);
            }
        }
        let row = DiskRow {
            dy: y as i64 - anchor_y as i64,
            left: row_first as i64 - anchor_x as i64,
            right: row_last as i64 - anchor_x as i64,
        };
        rows.push(row);
        proof {
            assert forall|r: int| 0 <= r < rows@.len() implies disk_row_matches(
                width as int,
                height as int,
                r,
                #[trigger] rows@[r],
            ) && row_valid(rows@[r]) && rows@[r].right - rows@[r].left < width by {
                if r < rows@.len() - 1 {
                    assert(rows@[r] == rows@.drop_last()[r]);
                } else {
                    if first is None {
                        assert(!(exists|k: int|
                            0 <= k < width && #[trigger] ellipse_inside(width as int, height as int, k, y as int)));
                    }
                }
            }
        }
        y += 1;
    }
    Ok(rows)
}

/// The point reflection of a disk row.
pub open spec fn reflect(row: DiskRow) -> DiskRow {
    DiskRow { dy: (-row.dy) as i64, left: (-row.right) as i64, right: (-row.left) as i64 }
}

/// The cell survives erosion by every kernel row.
pub open spec fn eroded_at(cells: Seq<u8>, width: int, height: int, rows: Seq<DiskRow>, x: int, y: int) -> bool {
    forall|r: int| 0 <= r < rows.len() ==> row_covers(cells, width, height, #[trigger] rows[r], x, y)
}

/// The cell is reached by some reflected kernel row from an eroded cell.
pub open spec fn dilated_at(cells: Seq<u8>, width: int, height: int, rows: Seq<DiskRow>, x: int, y: int) -> bool {
    exists|r: int| 0 <= r < rows.len() && row_reaches(cells, width, height, reflect(#[trigger] rows[r]), x, y)
}

/// `cells` is the kernel length along an axis with the given breakpoints:
/// the fewest cells whose every window spans the diameter, or one more than
/// the axis has cells when no window of the whole axis does.
pub open spec fn kernel_length_is(edges: Seq<i64>, diameter: int, cells: int) -> bool {
    &&& edges.len() >= 2
    &&& increasing(edges)
    &&& !spans_diameter(edges, edges.len() - 1, diameter) ==> cells == edges.len()
    &&& spans_diameter(edges, edges.len() - 1, diameter) ==> {
        &&& 1 <= cells <= edges.len() - 1
        &&& spans_diameter(edges, cells, diameter)
        &&& forall|fewer: int| 1 <= fewer < cells ==> !spans_diameter(edges, fewer, diameter)
    }
}

/// The opening can be carried out: the minimum width is positive, each axis
/// has one strictly increasing breakpoint per cell edge, and unless the
/// kernel is a single cell or larger than the grid, its work (two passes per
/// kernel row over every cell) stays within [`MAX_MORPHOLOGY_WORK`].
pub open spec fn opening_admitted(width: int, height: int, x_edges: Seq<i64>, y_edges: Seq<i64>, minimum: int) -> bool {
    &&& minimum > 0
    &&& x_edges.len() == width + 1
    &&& y_edges.len() == height + 1
    &&& increasing(x_edges)
    &&& increasing(y_edges)
    &&& forall|kernel_width: int, kernel_height: int|
        #![trigger kernel_length_is(x_edges, minimum, kernel_width), kernel_length_is(y_edges, minimum, kernel_height)]
        kernel_length_is(x_edges, minimum, kernel_width) && kernel_length_is(y_edges, minimum, kernel_height) ==> (
        kernel_width == 1 && kernel_height == 1) || kernel_width > width || kernel_height > height || width * height
            * kernel_height * 2 <= MAX_MORPHOLOGY_WORK
}

/// An axis has one kernel length.
proof fn lemma_kernel_length_unique(edges: Seq<i64>, diameter: int, first: int, second: int)
    requires
        kernel_length_is(edges, diameter, first),
        kernel_length_is(edges, diameter, second),
    ensures
        first == second,
{
}

/// The rows of the digital ellipse inscribed in a `width` by `height` box.
pub open spec fn disk_kernel(width: int, height: int, rows: Seq<DiskRow>) -> bool {
    &&& rows.len() == height
    &&& forall|y: int| 0 <= y < height ==> disk_row_matches(width, height, y, #[trigger] rows[y])
}

/// Kernel row `row`, reflected and placed at column `x` of row `y`, meets a
/// cell that survives erosion by all kernel rows.
pub open spec fn reaches_eroded(
    cells: Seq<u8>,
    width: int,
    height: int,
    rows: Seq<DiskRow>,
    row: DiskRow,
    x: int,
    y: int,
) -> bool {
    let sy = y + row.dy;
    &&& 0 <= sy < height
    &&& exists|i: int| 0 <= i < width && x + row.left <= i <= x + row.right && #[trigger] eroded_at(cells, width, height, rows, i, sy)
}

/// The cell lies in the morphological opening of the mask by the kernel:
/// some reflected kernel row placed at it meets a cell that survives erosion.
pub open spec fn opened_at(cells: Seq<u8>, width: int, height: int, rows: Seq<DiskRow>, x: int, y: int) -> bool {
    exists|r: int| 0 <= r < rows.len() && reaches_eroded(cells, width, height, rows, reflect(#[trigger] rows[r]), x, y)
}

/// `opened` is the opening of the `width` by `height` mask by the digital
/// ellipse of `kernel_width` by `kernel_height` cells with rows `rows`: the
/// mask itself for a single-cell kernel, nothing for a kernel larger than
/// the raster, and otherwise the cells of the opening.
pub open spec fn opening_of(
    opened: Seq<u8>,
    mask: Seq<u8>,
    width: int,
    height: int,
    kernel_width: int,
    kernel_height: int,
    rows: Seq<DiskRow>,
) -> bool {
    &&& opened.len() == mask.len()
    &&& kernel_width == 1 && kernel_height == 1 ==> opened == mask
    &&& !(kernel_width == 1 && kernel_height == 1) && (kernel_width > width || kernel_height > height) ==> forall|i: int|
        0 <= i < opened.len() ==> #[trigger] opened[i] == 0
    &&& !(kernel_width == 1 && kernel_height == 1) && kernel_width <= width && kernel_height <= height ==> {
        &&& disk_kernel(kernel_width, kernel_height, rows)
        &&& forall|x: int, y: int|
            0 <= x < width && 0 <= y < height ==> #[trigger] grid_row(opened, width, y)[x] == if opened_at(
                mask,
                width,
                height,
                rows,
                x,
                y,
            ) {
                1u8
            } else {
                0u8
            }
    }
}

/// `opened` is the opening of the mask by the digital ellipse whose axis
/// lengths are the kernel lengths for the minimum feature width.
pub open spec fn opened_by_kernel(
    opened: Seq<u8>,
    mask: Seq<u8>,
    width: int,
    height: int,
    x_edges: Seq<i64>,
    y_edges: Seq<i64>,
    minimum_width: int,
) -> bool {
    exists|kernel_width: int, kernel_height: int, rows: Seq<DiskRow>|
        kernel_length_is(x_edges, minimum_width, kernel_width) && kernel_length_is(
            y_edges,
            minimum_width,
            kernel_height,
        ) && #[trigger] opening_of(opened, mask, width, height, kernel_width, kernel_height, rows)
}

/// A kernel that meets the kernel lengths and opens the mask to `opened`
/// shows that `opened` is the opening.
proof fn lemma_opened_by_kernel(
    opened: Seq<u8>,
    mask: Seq<u8>,
    width: int,
    height: int,
    x_edges: Seq<i64>,
    y_edges: Seq<i64>,
    minimum_width: int,
    kernel_width: int,
    kernel_height: int,
    rows: Seq<DiskRow>,
)
    requires
        kernel_length_is(x_edges, minimum_width, kernel_width),
        kernel_length_is(y_edges, minimum_width, kernel_height),
        opening_of(opened, mask, width, height, kernel_width, kernel_height, rows),
    ensures
        opened_by_kernel(opened, mask, width, height, x_edges, y_edges, minimum_width),
{
}

/// Every cell of the opened grid was foreground before the opening.
pub open spec fn anti_extensive(opened: Seq<u8>, mask: Seq<u8>, width: int, height: int) -> bool {
    forall|x: int, y: int|
        0 <= x < width && 0 <= y < height && #[trigger] grid_row(opened, width, y)[x] == 1 ==> grid_row(
            mask,
            width,
            y,
        )[x] == 1
}

/// A grid of `count` copies of `value`.
fn filled(count: usize, value: u8) -> (cells: Vec<u8>)
    ensures
        cells@.len() == count,
        forall|i: int| 0 <= i < count ==> #[trigger] cells@[i] == value,
{
    let mut cells: Vec<u8> = Vec::new();
    while cells.len() < count
        invariant
            cells@.len() <= count,
            forall|i: int| 0 <= i < cells@.len() ==> #[trigger] cells@[i] == value,
        decreases count - cells@.len(),
    {
        cells.push(value);
    }
    cells
}

/// Opening can only remove foreground: a cell it keeps is covered, through
/// the kernel row that reached it, by the foreground that the erosion saw.
proof fn lemma_opening_anti_extensive(
    mask: Seq<u8>,
    eroded: Seq<u8>,
    width: int,
    height: int,
    rows: Seq<DiskRow>,
    x: int,
    y: int,
)
    requires
        grid_shaped(mask, width, height),
        eroded.len() == mask.len(),
        0 <= x < width,
        0 <= y < height,
        forall|r: int| 0 <= r < rows.len() ==> row_valid(#[trigger] rows[r]),
        forall|ex: int, ey: int|
            0 <= ex < width && 0 <= ey < height ==> #[trigger] grid_row(eroded, width, ey)[ex] == if eroded_at(
                mask,
                width,
                height,
                rows,
                ex,
                ey,
            ) {
                1u8
            } else {
                0u8
            },
        dilated_at(eroded, width, height, rows, x, y),
    ensures
        grid_row(mask, width, y)[x] == 1,
{
    let r = choose|r: int| 0 <= r < rows.len() && row_reaches(eroded, width, height, reflect(#[trigger] rows[r]), x, y);
    let row = rows[r];
    assert(row_valid(row));
    let reflected = reflect(row);
    let sy = y + reflected.dy;
    let i = choose|i: int|
        0 <= i < width && x + reflected.left <= i <= x + reflected.right && #[trigger] grid_row(eroded, width, sy)[i] == 1;
    assert(eroded_at(mask, width, height, rows, i, sy));
    assert(row_covers(mask, width, height, rows[r], i, sy));
    assert(grid_row(mask, width, sy + row.dy)[x] == 1);
}

/// Opens the foreground with a digital ellipse whose physical diameter is the
/// minimum feature width. Each kernel axis is the smallest cell count for
/// which every placement on the (possibly non-uniform) breakpoint grid spans
/// the diameter. Even-sized kernels use a lower/left anchor and the dilation
/// reflects it, so the opening does not translate the artwork. Cells outside
/// the page are background. The opening never adds foreground.
#[verifier::rlimit(60)]
pub fn open_foreground_on_grid(
    mask: &BinaryMask,
    x_edges: &[i64],
    y_edges: &[i64],
    minimum_width_micrometers: i64,
) -> (result: Result<Vec<u8>, PlanarError>)
    ensures
        minimum_width_micrometers <= 0 ==> result == Err::<Vec<u8>, PlanarError>(
            PlanarError::NonPositiveMinimumFeatureWidth,
        ),
        minimum_width_micrometers > 0 && (x_edges@.len() != mask.spec_dimensions().spec_width() + 1
            || y_edges@.len() != mask.spec_dimensions().spec_height() + 1) ==> result matches Err(
            PlanarError::InvalidTopology(_),
        ),
        result is Ok <==> opening_admitted(
            mask.spec_dimensions().spec_width() as int,
            mask.spec_dimensions().spec_height() as int,
            x_edges@,
            y_edges@,
            minimum_width_micrometers as int,
        ),
        result matches Ok(opened) ==> {
            &&& opened@.len() == mask.spec_bytes().len()
            &&& is_canonical_mask(opened@)
            &&& anti_extensive(
                opened@,
                mask.spec_bytes(),
                mask.spec_dimensions().spec_width() as int,
                mask.spec_dimensions().spec_height() as int,
            )
            &&& opened_by_kernel(
                opened@,
                mask.spec_bytes(),
                mask.spec_dimensions().spec_width() as int,
                mask.spec_dimensions().spec_height() as int,
                x_edges@,
                y_edges@,
                minimum_width_micrometers as int,
            )
        },
{
    if minimum_width_micrometers <= 0 {
        return Err(PlanarError::NonPositiveMinimumFeatureWidth);
    }
    let dimensions = mask.dimensions();
    proof {
        use_type_invariant(&dimensions);
    }
    let width = dimensions.width() as usize;
    let height = dimensions.height() as usize;
    let pixel_count = dimensions.pixel_count();
    let bytes = mask.as_bytes();
    proof {
        use_type_invariant(mask);
        let wi = width as int;
        let hi = height as int;
        assert(wi <= MAX_RASTER_PIXELS && hi <= MAX_RASTER_PIXELS) by (nonlinear_arith)
            requires
                wi >= 1,
                hi >= 1,
                wi * hi <= MAX_RASTER_PIXELS,
        ;
    }
    if x_edges.len() != width + 1 || y_edges.len() != height + 1 {
        return Err(
            PlanarError::InvalidTopology("cleanup breakpoints do not match the raster dimensions"),
        );
    }
    let kernel_width = kernel_axis_length(x_edges, minimum_width_micrometers)?;
    let kernel_height = kernel_axis_length(y_edges, minimum_width_micrometers)?;
    proof {
        assert(kernel_length_is(x_edges@, minimum_width_micrometers as int, kernel_width as int));
        assert(kernel_length_is(y_edges@, minimum_width_micrometers as int, kernel_height as int));
        assert forall|kw: int, kh: int|
            kernel_length_is(x_edges@, minimum_width_micrometers as int, kw) && kernel_length_is(
                y_edges@,
                minimum_width_micrometers as int,
                kh,
            ) implies kw == kernel_width && kh == kernel_height by {
            lemma_kernel_length_unique(x_edges@, minimum_width_micrometers as int, kw, kernel_width as int);
            lemma_kernel_length_unique(y_edges@, minimum_width_micrometers as int, kh, kernel_height as int);
        }
    }
    if kernel_width == 1 && kernel_height == 1 {
        let mut copy: Vec<u8> = Vec::new();
        let mut index: usize = 0;
        while index < bytes.len()
            invariant
                0 <= index <= bytes@.len(),
                copy@ == bytes@.subrange(0, index as int),
            decreases bytes@.len() - index,
        {
            copy.push(bytes[index]);
            proof {
                assert(bytes@.subrange(0, index + 1) == bytes@.subrange(0, index as int).push(bytes@[index as int]));
            }
            index += 1;
        }
        proof {
            assert(bytes@.subrange(0, index as int) == bytes@);
            assert(kernel_length_is(x_edges@, minimum_width_micrometers as int, kernel_width as int));
            assert(kernel_length_is(y_edges@, minimum_width_micrometers as int, kernel_height as int));
            assert(width as int == mask.spec_dimensions().spec_width() as int);
            assert(height as int == mask.spec_dimensions().spec_height() as int);
            lemma_opened_by_kernel(
                copy@,
                mask.spec_bytes(),
                mask.spec_dimensions().spec_width() as int,
                mask.spec_dimensions().spec_height() as int,
                x_edges@,
                y_edges@,
                minimum_width_micrometers as int,
                kernel_width as int,
                kernel_height as int,
                Seq::empty(),
            );
        }
        return Ok(copy);
    }
    if kernel_width > width || kernel_height > height {
        let zeros = filled(pixel_count, 0);
        proof {
            assert forall|x: int, y: int|
                0 <= x < width && 0 <= y < height && #[trigger] grid_row(zeros@, width as int, y)[x] == 1 implies grid_row(
                bytes@,
                width as int,
                y,
            )[x] == 1 by {
                lemma_grid_index(width as int, height as int, x, y);
                assert(zeros@[y * width + x] == 0);
            }
            assert(kernel_length_is(x_edges@, minimum_width_micrometers as int, kernel_width as int));
            assert(kernel_length_is(y_edges@, minimum_width_micrometers as int, kernel_height as int));
            assert(width as int == mask.spec_dimensions().spec_width() as int);
            assert(height as int == mask.spec_dimensions().spec_height() as int);
            lemma_opened_by_kernel(
                zeros@,
                mask.spec_bytes(),
                mask.spec_dimensions().spec_width() as int,
                mask.spec_dimensions().spec_height() as int,
                x_edges@,
                y_edges@,
                minimum_width_micrometers as int,
                kernel_width as int,
                kernel_height as int,
                Seq::empty(),
            );
            assert(is_canonical_mask(zeros@));
            assert(anti_extensive(
                zeros@,
                mask.spec_bytes(),
                mask.spec_dimensions().spec_width() as int,
                mask.spec_dimensions().spec_height() as int,
            ));
        }
        return Ok(zeros);
    }
    ensure_work_within_limit(pixel_count as u128, kernel_height as u128, MAX_MORPHOLOGY_WORK)?;
    let rows = disk_rows(kernel_width, kernel_height)?;
    let ghost w = width as int;
    let ghost h = height as int;
    let mut eroded = filled(pixel_count, 1);
    proof {
        assert forall|x: int, y: int|
            0 <= x < w && 0 <= y < h implies #[trigger] grid_row(eroded@, w, y)[x] == if eroded_at(
            bytes@,
            w,
            h,
            rows@.subrange(0, 0),
            x,
            y,
        ) {
            1u8
        } else {
            0u8
        } by {
            lemma_grid_index(w, h, x, y);
        }
    }
    let mut k: usize = 0;
    while k < rows.len()
        invariant
            grid_shaped(bytes@, w, h),
            is_canonical_mask(bytes@),
            w == width,
            h == height,
            eroded@.len() == bytes@.len(),
            kernel_width <= width,
            0 <= k <= rows@.len(),
            forall|r: int|
                0 <= r < rows@.len() ==> row_valid(#[trigger] rows@[r]) && rows@[r].right - rows@[r].left
                    < kernel_width,
            forall|x: int, y: int|
                0 <= x < w && 0 <= y < h ==> #[trigger] grid_row(eroded@, w, y)[x] == if eroded_at(
                    bytes@,
                    w,
                    h,
                    rows@.subrange(0, k as int),
                    x,
                    y,
                ) {
                    1u8
                } else {
                    0u8
                },
        decreases rows@.len() - k,
    {
        proof {
            assert(row_valid(rows@[k as int]));
        }
        erode_with_row(bytes, &mut eroded, width, height, rows[k]);
        proof {
            assert forall|x: int, y: int|
                0 <= x < w && 0 <= y < h implies #[trigger] grid_row(eroded@, w, y)[x] == if eroded_at(
                bytes@,
                w,
                h,
                rows@.subrange(0, k + 1),
                x,
                y,
            ) {
                1u8
            } else {
                0u8
            } by {
                let before = rows@.subrange(0, k as int);
                let after = rows@.subrange(0, k + 1);
                if eroded_at(bytes@, w, h, after, x, y) {
                    assert forall|r: int| 0 <= r < before.len() implies row_covers(bytes@, w, h, #[trigger] before[r], x, y) by {
                        assert(before[r] == after[r]);
                    }
                    assert(row_covers(bytes@, w, h, after[k as int], x, y));
                } else {
                    let r = choose|r: int| 0 <= r < after.len() && !row_covers(bytes@, w, h, #[trigger] after[r], x, y);
                    if r < k {
                        assert(before[r] == after[r]);
                    }
                }
            }
        }
        k += 1;
    }
    proof {
        assert(rows@.subrange(0, rows@.len() as int) == rows@);
        assert forall|i: int| 0 <= i < eroded@.len() implies #[trigger] eroded@[i] <= 1 by {
            let y = i / w;
            let x = i % w;
            vstd::arithmetic::div_mod::lemma_fundamental_div_mod(i, w);
            vstd::arithmetic::div_mod::lemma_mod_bound(i, w);
            assert(0 <= y < h) by (nonlinear_arith)
                requires
                    i == w * y + x,
                    0 <= x < w,
                    0 <= i < w * h,
                    w > 0,
            ;
            lemma_grid_index(w, h, x, y);
            assert(grid_row(eroded@, w, y)[x] == eroded@[y * w + x]);
            assert(y * w + x == i) by (nonlinear_arith)
                requires
                    i == w * y + x,
            ;
        }
    }
    let mut any = false;
    let mut index: usize = 0;
    while index < eroded.len()
        invariant
            0 <= index <= eroded@.len(),
            any == exists|i: int| 0 <= i < index && #[trigger] eroded@[i] == 1,
        decreases eroded@.len() - index,
    {
        if eroded[index] == 1 {
            any = true;
        }
        index += 1;
    }
    if !any {
        proof {
            assert forall|x: int, y: int|
                0 <= x < w && 0 <= y < h && #[trigger] grid_row(eroded@, w, y)[x] == 1 implies grid_row(
                bytes@,
                w,
                y,
            )[x] == 1 by {
                lemma_grid_index(w, h, x, y);
                assert(eroded@[y * w + x] == 1);
            }
            assert forall|x: int, y: int| 0 <= x < w && 0 <= y < h implies #[trigger] grid_row(eroded@, w, y)[x] == if opened_at(
                bytes@,
                w,
                h,
                rows@,
                x,
                y,
            ) {
                1u8
            } else {
                0u8
            } by {
                lemma_grid_index(w, h, x, y);
                assert(eroded@[y * w + x] <= 1);
                assert(eroded@[y * w + x] != 1);
                if opened_at(bytes@, w, h, rows@, x, y) {
                    let r = choose|r: int| 0 <= r < rows@.len() && reaches_eroded(bytes@, w, h, rows@, reflect(#[trigger] rows@[r]), x, y);
                    let sy = y + reflect(rows@[r]).dy;
                    let i = choose|i: int| 0 <= i < w && x + reflect(rows@[r]).left <= i <= x + reflect(rows@[r]).right && #[trigger] eroded_at(bytes@, w, h, rows@, i, sy);
                    lemma_grid_index(w, h, i, sy);
                    assert(grid_row(eroded@, w, sy)[i] == 1);
                    assert(eroded@[sy * w + i] == 1);
                }
            }
            assert(kernel_length_is(x_edges@, minimum_width_micrometers as int, kernel_width as int));
            assert(kernel_length_is(y_edges@, minimum_width_micrometers as int, kernel_height as int));
            lemma_opened_by_kernel(
                eroded@,
                mask.spec_bytes(),
                mask.spec_dimensions().spec_width() as int,
                mask.spec_dimensions().spec_height() as int,
                x_edges@,
                y_edges@,
                minimum_width_micrometers as int,
                kernel_width as int,
                kernel_height as int,
                rows@,
            );
            assert(anti_extensive(
                eroded@,
                mask.spec_bytes(),
                mask.spec_dimensions().spec_width() as int,
                mask.spec_dimensions().spec_height() as int,
            ));
        }
        return Ok(eroded);
    }
    let mut opened = filled(pixel_count, 0);
    proof {
        assert forall|x: int, y: int|
            0 <= x < w && 0 <= y < h implies #[trigger] grid_row(opened@, w, y)[x] == if dilated_at(
            eroded@,
            w,
            h,
            rows@.subrange(0, 0),
            x,
            y,
        ) {
            1u8
        } else {
            0u8
        } by {
            lemma_grid_index(w, h, x, y);
        }
    }
    let mut k: usize = 0;
    while k < rows.len()
        invariant
            grid_shaped(bytes@, w, h),
            is_canonical_mask(eroded@),
            w == width,
            h == height,
            eroded@.len() == bytes@.len(),
            opened@.len() == bytes@.len(),
            0 <= k <= rows@.len(),
            forall|r: int| 0 <= r < rows@.len() ==> row_valid(#[trigger] rows@[r]),
            forall|x: int, y: int|
                0 <= x < w && 0 <= y < h ==> #[trigger] grid_row(opened@, w, y)[x] == if dilated_at(
                    eroded@,
                    w,
                    h,
                    rows@.subrange(0, k as int),
                    x,
                    y,
                ) {
                    1u8
                } else {
                    0u8
                },
        decreases rows@.len() - k,
    {
        proof {
            assert(row_valid(rows@[k as int]));
        }
        let reflected = rows[k].reflected();
        proof {
            assert(reflected == reflect(rows@[k as int]));
        }
        dilate_with_row(eroded.as_slice(), &mut opened, width, height, reflected);
        proof {
            assert forall|x: int, y: int|
                0 <= x < w && 0 <= y < h implies #[trigger] grid_row(opened@, w, y)[x] == if dilated_at(
                eroded@,
                w,
                h,
                rows@.subrange(0, k + 1),
                x,
                y,
            ) {
                1u8
            } else {
                0u8
            } by {
                let before = rows@.subrange(0, k as int);
                let after = rows@.subrange(0, k + 1);
                if dilated_at(eroded@, w, h, after, x, y) {
                    let r = choose|r: int| 0 <= r < after.len() && row_reaches(eroded@, w, h, reflect(#[trigger] after[r]), x, y);
                    if r < k {
                        assert(before[r] == after[r]);
                    }
                } else {
                    assert(!row_reaches(eroded@, w, h, reflect(after[k as int]), x, y));
                    if dilated_at(eroded@, w, h, before, x, y) {
                        let r = choose|r: int| 0 <= r < before.len() && row_reaches(eroded@, w, h, reflect(#[trigger] before[r]), x, y);
                        assert(before[r] == after[r]);
                    }
                }
            }
        }
        k += 1;
    }
    proof {
        assert(rows@.subrange(0, rows@.len() as int) == rows@);
        assert forall|x: int, y: int|
            0 <= x < w && 0 <= y < h && #[trigger] grid_row(opened@, w, y)[x] == 1 implies grid_row(
            bytes@,
            w,
            y,
        )[x] == 1 by {
            lemma_opening_anti_extensive(bytes@, eroded@, w, h, rows@, x, y);
        }
        assert forall|x: int, y: int| 0 <= x < w && 0 <= y < h implies #[trigger] grid_row(opened@, w, y)[x] == if opened_at(
            bytes@,
            w,
            h,
            rows@,
            x,
            y,
        ) {
            1u8
        } else {
            0u8
        } by {
            if dilated_at(eroded@, w, h, rows@, x, y) {
                let r = choose|r: int| 0 <= r < rows@.len() && row_reaches(eroded@, w, h, reflect(#[trigger] rows@[r]), x, y);
                let sy = y + reflect(rows@[r]).dy;
                let i = choose|i: int| 0 <= i < w && x + reflect(rows@[r]).left <= i <= x + reflect(rows@[r]).right && #[trigger] grid_row(eroded@, w, sy)[i] == 1;
                assert(eroded_at(bytes@, w, h, rows@, i, sy));
                assert(reaches_eroded(bytes@, w, h, rows@, reflect(rows@[r]), x, y));
            }
            if opened_at(bytes@, w, h, rows@, x, y) {
                let r = choose|r: int| 0 <= r < rows@.len() && reaches_eroded(bytes@, w, h, rows@, reflect(#[trigger] rows@[r]), x, y);
                let sy = y + reflect(rows@[r]).dy;
                let i = choose|i: int| 0 <= i < w && x + reflect(rows@[r]).left <= i <= x + reflect(rows@[r]).right && #[trigger] eroded_at(bytes@, w, h, rows@, i, sy);
                assert(grid_row(eroded@, w, sy)[i] == 1);
                assert(row_reaches(eroded@, w, h, reflect(rows@[r]), x, y));
            }
        }
        assert(kernel_length_is(x_edges@, minimum_width_micrometers as int, kernel_width as int));
        assert(kernel_length_is(y_edges@, minimum_width_micrometers as int, kernel_height as int));
        lemma_opened_by_kernel(
            opened@,
            mask.spec_bytes(),
            mask.spec_dimensions().spec_width() as int,
            mask.spec_dimensions().spec_height() as int,
            x_edges@,
            y_edges@,
            minimum_width_micrometers as int,
            kernel_width as int,
            kernel_height as int,
            rows@,
        );
        assert forall|i: int| 0 <= i < opened@.len() implies #[trigger] opened@[i] <= 1 by {
            let y = i / w;
            let x = i % w;
            vstd::arithmetic::div_mod::lemma_fundamental_div_mod(i, w);
            vstd::arithmetic::div_mod::lemma_mod_bound(i, w);
            assert(0 <= y < h) by (nonlinear_arith)
                requires
                    i == w * y + x,
                    0 <= x < w,
                    0 <= i < w * h,
                    w > 0,
            ;
            lemma_grid_index(w, h, x, y);
            assert(grid_row(opened@, w, y)[x] == opened@[y * w + x]);
            assert(y * w + x == i) by (nonlinear_arith)
                requires
                    i == w * y + x,
            ;
        }
    }
    Ok(opened)
}

/// Copies a breakpoint axis.
pub fn copy_breakpoints(edges: &[i64]) -> (copy: Vec<i64>)
    ensures
        copy@ == edges@,
{
    let mut copy: Vec<i64> = Vec::new();
    let mut index: usize = 0;
    while index < edges.len()
        invariant
            0 <= index <= edges@.len(),
            copy@ == edges@.subrange(0, index as int),
        decreases edges@.len() - index,
    {
        copy.push(edges[index]);
        proof {
            assert(edges@.subrange(0, index + 1) == edges@.subrange(0, index as int).push(edges@[index as int]));
        }
        index += 1;
    }
    proof {
        assert(edges@.subrange(0, index as int) == edges@);
    }
    copy
}

} // verus!
