//! Partitioning canonical artwork into complementary upper regions: the
//! raster is mapped onto integer-micrometre cells, foreground is cleaned,
//! an exact border frame is added, and substrate and fill boundaries are
//! derived from one directed edge arrangement so that their shared
//! coordinates cannot drift apart.

use vstd::prelude::*;

use crate::document::{is_canonical_mask, CanonicalArtwork, Dimension};
use crate::order::{lemma_same_members, sort_vec, sorted, LexOrder};
use crate::planar::assembly::{assemble_region, polygon_canonical};
use crate::planar::cleanup::{grid_row, open_foreground_on_grid, rises_at};
use crate::planar::simplify::{simplify_shared_rings, valid_rings};
use crate::order::seq_sum;
use crate::planar::cleanup::opened_by_kernel;
use crate::planar::topology::{
    boundary_keys, breakpoints_valid, complementary_boundary_edges, edge_keys, fill_inputs, lemma_breakpoints_count,
    substrate_boundary_edges, winding_boundary, DirectedEdge,
};
use crate::planar::tracing::{edge_term, trace_rings};
use crate::planar::types::{
    coordinate_in_range, polygons_area, PlanarError, PlanarOptions, PlanarPartition, Polygon,
    RectMicrometers, MAX_ARTWORK_EXTENT_MICROMETERS, MAX_AXIS_INTERVALS, MAX_BOUNDARY_EDGES,
    MAX_PLANAR_CELLS,
};

verus! {

broadcast use vstd::seq_lib::group_to_multiset_ensures;

/// Rejects artwork larger than the deterministic geometry range.
pub fn validate_extent(width: i64, height: i64) -> (result: Result<(), PlanarError>)
    ensures
        width > MAX_ARTWORK_EXTENT_MICROMETERS || height > MAX_ARTWORK_EXTENT_MICROMETERS ==> result
            == Err::<(), PlanarError>(
            PlanarError::ArtworkExtentTooLarge { width, height, max: MAX_ARTWORK_EXTENT_MICROMETERS },
        ),
        width <= MAX_ARTWORK_EXTENT_MICROMETERS && height <= MAX_ARTWORK_EXTENT_MICROMETERS ==> result
            is Ok,
{
    if width > MAX_ARTWORK_EXTENT_MICROMETERS || height > MAX_ARTWORK_EXTENT_MICROMETERS {
        return Err(
            PlanarError::ArtworkExtentTooLarge { width, height, max: MAX_ARTWORK_EXTENT_MICROMETERS },
        );
    }
    Ok(())
}

/// A positive border must leave an interior in both dimensions.
pub open spec fn border_fits(width: int, height: int, border: int) -> bool {
    border <= 0 || (border * 2 < width && border * 2 < height)
}

/// Rejects a border that consumes the whole artwork in either dimension.
pub fn validate_border(width: i64, height: i64, border: i64) -> (result: Result<(), PlanarError>)
    ensures
        border_fits(width as int, height as int, border as int) ==> result is Ok,
        !border_fits(width as int, height as int, border as int) ==> result == Err::<(), PlanarError>(
            PlanarError::BorderDoesNotFitArtwork { width, height, border },
        ),
{
    if border > 0 && ((border as i128) * 2 >= width as i128 || (border as i128) * 2 >= height as i128) {
        return Err(PlanarError::BorderDoesNotFitArtwork { width, height, border });
    }
    Ok(())
}

/// Breakpoint `index` of an axis of `extent` micrometres split into `pixels`
/// cells: `index * extent / pixels`, rounded half up.
pub open spec fn breakpoint(index: int, extent: int, pixels: int) -> int {
    let numerator = index * extent;
    numerator / pixels + if (numerator % pixels) * 2 >= pixels {
        1int
    } else {
        0int
    }
}

/// Breakpoints strictly increase.
pub open spec fn strictly_increasing(edges: Seq<i64>) -> bool {
    forall|i: int| 0 <= i < edges.len() - 1 ==> #[trigger] rises_at(edges, i)
}

proof fn lemma_breakpoint_bounds(index: int, extent: int, pixels: int)
    requires
        0 <= index <= pixels,
        0 < pixels <= extent,
        extent <= i64::MAX,
        pixels <= u32::MAX,
    ensures
        0 <= breakpoint(index, extent, pixels) <= extent,
        0 <= index * extent <= u32::MAX as int * i64::MAX as int,
{
    let numerator = index * extent;
    assert(0 <= numerator <= pixels * extent) by (nonlinear_arith)
        requires
            0 <= index <= pixels,
            0 < extent,
            numerator == index * extent,
    ;
    assert(numerator <= u32::MAX as int * i64::MAX as int) by (nonlinear_arith)
        requires
            0 <= index <= pixels,
            pixels <= u32::MAX,
            0 < extent <= i64::MAX,
            numerator == index * extent,
    ;
    vstd::arithmetic::div_mod::lemma_fundamental_div_mod(numerator, pixels);
    vstd::arithmetic::div_mod::lemma_mod_bound(numerator, pixels);
    let q = numerator / pixels;
    let r = numerator % pixels;
    assert(0 <= q <= extent) by (nonlinear_arith)
        requires
            numerator == pixels * q + r,
            0 <= r < pixels,
            0 <= numerator <= pixels * extent,
    ;
    if q == extent {
        assert(r == 0) by (nonlinear_arith)
            requires
                numerator == pixels * q + r,
                0 <= r < pixels,
                numerator <= pixels * extent,
                q == extent,
        ;
    }
}

/// Maps raster cell boundaries onto integer micrometres, rounding half up.
/// Fails when cells would collapse: more pixels than micrometres, or any two
/// neighbouring breakpoints rounding to the same value.
pub fn axis_edges(extent: i64, pixels: u32, dimension: Dimension) -> (result: Result<Vec<i64>, PlanarError>)
    requires
        pixels > 0,
    ensures
        pixels > extent ==> result == Err::<Vec<i64>, PlanarError>(
            PlanarError::ResolutionTooFine { dimension, pixels, extent },
        ),
        result matches Ok(edges) ==> {
            &&& edges@.len() == pixels + 1
            &&& strictly_increasing(edges@)
            &&& forall|i: int|
                0 <= i <= pixels ==> #[trigger] edges@[i] == breakpoint(i, extent as int, pixels as int)
        },
        pixels <= extent && result is Err ==> result == Err::<Vec<i64>, PlanarError>(
            PlanarError::ResolutionTooFine { dimension, pixels, extent },
        ),
        pixels <= extent && result is Err ==> exists|i: int|
            0 <= i < pixels && #[trigger] breakpoint(i, extent as int, pixels as int) >= breakpoint(
                i + 1,
                extent as int,
                pixels as int,
            ),
{
    if pixels as i64 > extent {
        return Err(PlanarError::ResolutionTooFine { dimension, pixels, extent });
    }
    let divisor = pixels as i128;
    let mut edges: Vec<i64> = Vec::new();
    let mut index: u32 = 0;
    loop
        invariant_except_break
            edges@.len() == index,
            forall|i: int| 0 <= i < index ==> #[trigger] edges@[i] == breakpoint(i, extent as int, pixels as int),
        invariant
            0 < pixels <= extent,
            divisor == pixels,
            0 <= index <= pixels,
        ensures
            edges@.len() == pixels + 1,
            forall|i: int| 0 <= i <= pixels ==> #[trigger] edges@[i] == breakpoint(i, extent as int, pixels as int),
        decreases pixels - index,
    {
        proof {
            lemma_breakpoint_bounds(index as int, extent as int, pixels as int);
        }
        let numerator = index as i128 * extent as i128;
        let quotient = numerator / divisor;
        let remainder = numerator % divisor;
        let rounded = quotient + if remainder * 2 >= divisor {
            1i128
        } else {
            0i128
        };
        proof {
            assert(rounded == breakpoint(index as int, extent as int, pixels as int));
        }
        edges.push(rounded as i64);
        proof {
            assert forall|i: int| 0 <= i < index + 1 implies #[trigger] edges@[i] == breakpoint(i, extent as int, pixels as int) by {
                if i < index {
                    assert(edges@[i] == edges@.drop_last()[i]);
                }
            }
        }
        if index == pixels {
            break;
        }
        index += 1;
    }
    let mut k: usize = 0;
    let count = edges.len();
    while k < count - 1
        invariant
            count == edges@.len(),
            count == pixels + 1,
            0 <= k <= count - 1,
            forall|i: int| 0 <= i <= pixels ==> #[trigger] edges@[i] == breakpoint(i, extent as int, pixels as int),
            forall|i: int| 0 <= i < k ==> #[trigger] rises_at(edges@, i),
        decreases count - k,
    {
        if edges[k] >= edges[k + 1] {
            proof {
                assert(!rises_at(edges@, k as int));
                assert(edges@[k as int] == breakpoint(k as int, extent as int, pixels as int));
                assert(edges@[k + 1] == breakpoint(k + 1, extent as int, pixels as int));
            }
            return Err(PlanarError::ResolutionTooFine { dimension, pixels, extent });
        }
        k += 1;
    }
    Ok(edges)
}

/// Adds the inner border outline to a breakpoint axis: with a positive
/// border, `border` and `extent - border` are inserted and the axis is sorted
/// and deduplicated.
pub fn with_border_edges(edges: Vec<i64>, extent: i64, border: i64) -> (result: Vec<i64>)
    requires
        breakpoints_valid(edges@),
        border > 0 ==> coordinate_in_range(border as int) && coordinate_in_range(extent - border),
    ensures
        border <= 0 ==> result@ == edges@,
        breakpoints_valid(result@),
        forall|i: int| 0 <= i < edges@.len() ==> result@.contains(#[trigger] edges@[i]),
        border > 0 ==> result@.contains(border) && result@.contains((extent - border) as i64),
        forall|i: int|
            0 <= i < result@.len() ==> edges@.contains(#[trigger] result@[i]) || (border > 0 && (
            result@[i] == border || result@[i] == extent - border)),
{
    if border <= 0 {
        return edges;
    }
    let ghost initial = edges@;
    let mut edges = edges;
    edges.push(border);
    edges.push(extent - border);
    let ghost extended = edges@;
    proof {
        assert(extended[extended.len() - 2] == border);
        assert(extended[extended.len() - 1] == extent - border);
    }
    let sorted_edges = sort_vec(edges);
    proof {
        lemma_same_members(extended, sorted_edges@);
        lemma_same_members(sorted_edges@, extended);
    }
    let mut result: Vec<i64> = Vec::new();
    let mut k: usize = 0;
    while k < sorted_edges.len()
        invariant
            0 <= k <= sorted_edges@.len(),
            sorted(sorted_edges@),
            forall|i: int| 0 <= i < result@.len() ==> sorted_edges@.contains(#[trigger] result@[i]),
            forall|i: int, j: int| 0 <= i < j < result@.len() ==> #[trigger] result@[i] < #[trigger] result@[j],
            forall|i: int| 0 <= i < k ==> result@.contains(#[trigger] sorted_edges@[i]),
            k > 0 ==> result@.len() > 0 && result@.last() == sorted_edges@[k - 1],
            k == 0 ==> result@.len() == 0,
        decreases sorted_edges@.len() - k,
    {
        let value = sorted_edges[k];
        if result.len() == 0 || result[result.len() - 1] != value {
            proof {
                assert(sorted_edges@.contains(value));
                if k > 0 {
                    assert(sorted_edges@[k - 1] <= value);
                }
            }
            let ghost before = result@;
            result.push(value);
            proof {
                assert forall|i: int| 0 <= i < result@.len() implies sorted_edges@.contains(#[trigger] result@[i]) by {
                    if i < before.len() {
                        assert(result@[i] == before[i]);
                    }
                }
                assert forall|i: int| 0 <= i < k + 1 implies result@.contains(#[trigger] sorted_edges@[i]) by {
                    if i < k {
                        assert(before.contains(sorted_edges@[i]));
                        let j = choose|j: int| 0 <= j < before.len() && before[j] == sorted_edges@[i];
                        assert(result@[j] == before[j]);
                    } else {
                        assert(result@[result@.len() - 1] == value);
                    }
                }
                assert forall|i: int, j: int| 0 <= i < j < result@.len() implies #[trigger] result@[i] < #[trigger] result@[j] by {
                    assert(result@[i] == before[i]);
                    if j < before.len() {
                        assert(result@[j] == before[j]);
                    } else {
                        assert(result@[j] == value);
                        assert(k > 0);
                        assert(before.last() == sorted_edges@[k - 1]);
                        assert(sorted_edges@[k - 1].ordered_le(sorted_edges@[k as int]));
                        assert(before[before.len() - 1] != value);
                        if i < before.len() - 1 {
                            assert(before[i] < before[before.len() - 1]);
                        }
                    }
                }
            }
        } else {
            proof {
                assert(result@[result@.len() - 1] == sorted_edges@[k as int]);
            }
        }
        k += 1;
    }
    proof {
        assert forall|i: int| 0 <= i < initial.len() implies result@.contains(#[trigger] initial[i]) by {
            assert(extended[i] == initial[i]);
            assert(extended.contains(initial[i]));
            let j = choose|j: int| 0 <= j < sorted_edges@.len() && sorted_edges@[j] == initial[i];
            assert(result@.contains(sorted_edges@[j]));
        }
        assert(extended.contains(border));
        assert(extended.contains((extent - border) as i64));
        let jb = choose|j: int| 0 <= j < sorted_edges@.len() && sorted_edges@[j] == border;
        assert(result@.contains(sorted_edges@[jb]));
        let je = choose|j: int| 0 <= j < sorted_edges@.len() && sorted_edges@[j] == (extent - border) as i64;
        assert(result@.contains(sorted_edges@[je]));
        assert forall|i: int| 0 <= i < result@.len() implies initial.contains(#[trigger] result@[i]) || (
        result@[i] == border || result@[i] == extent - border) by {
            assert(sorted_edges@.contains(result@[i]));
            let j = choose|j: int| 0 <= j < sorted_edges@.len() && sorted_edges@[j] == result@[i];
            assert(extended.contains(sorted_edges@[j]));
            let m = choose|m: int| 0 <= m < extended.len() && extended[m] == sorted_edges@[j];
            if m < initial.len() {
                assert(extended[m] == initial[m]);
            }
        }
        assert forall|i: int| 0 <= i < result@.len() implies coordinate_in_range(#[trigger] result@[i] as int) by {
            if initial.contains(result@[i]) {
                let m = choose|m: int| 0 <= m < initial.len() && initial[m] == result@[i];
            }
        }
    }
    result
}

/// Each augmented cell lies inside the raster cell it was cut from.
pub open spec fn intervals_match(initial: Seq<i64>, augmented: Seq<i64>, sources: Seq<usize>) -> bool {
    &&& sources.len() == augmented.len() - 1
    &&& forall|k: int|
        0 <= k < sources.len() ==> #[trigger] sources[k] + 1 < initial.len() && initial[sources[k] as int]
            <= augmented[k] && augmented[k + 1] <= initial[sources[k] + 1]
}

/// The raster cell reached from cell `source` by moving right while the next
/// raster edge is at or below `low` and a cell remains beyond it.
pub open spec fn advance_source(initial: Seq<i64>, source: int, low: int) -> int
    decreases initial.len() - source,
{
    if 0 <= source && source + 2 < initial.len() && low >= initial[source + 1] {
        advance_source(initial, source + 1, low)
    } else {
        source
    }
}

/// The raster cell taken for augmented cell `k`: the walk goes on from the
/// cell taken for the cell before it, starting at the first.
pub open spec fn cell_source(initial: Seq<i64>, augmented: Seq<i64>, k: int) -> int
    decreases k,
{
    let previous = if k <= 0 {
        0
    } else {
        cell_source(initial, augmented, k - 1)
    };
    advance_source(initial, previous, augmented[k] as int)
}

/// Augmented cell `k` lies inside the raster cell taken for it.
pub open spec fn cell_fits(initial: Seq<i64>, augmented: Seq<i64>, k: int) -> bool {
    let source = cell_source(initial, augmented, k);
    initial[source] <= augmented[k] && augmented[k + 1] <= initial[source + 1]
}

/// Finds, for every cell of the augmented axis, the raster cell containing
/// it, walking both axes from the left together.
pub fn source_intervals(initial: &[i64], augmented: &[i64]) -> (result: Result<Vec<usize>, PlanarError>)
    requires
        initial@.len() >= 2,
        augmented@.len() >= 1,
    ensures
        result matches Ok(sources) ==> intervals_match(initial@, augmented@, sources@),
        result matches Ok(sources) ==> forall|k: int|
            0 <= k < sources@.len() ==> #[trigger] sources@[k] == cell_source(initial@, augmented@, k),
        result is Ok <==> forall|k: int| 0 <= k < augmented@.len() - 1 ==> #[trigger] cell_fits(initial@, augmented@, k),
        result is Err ==> result == Err::<Vec<usize>, PlanarError>(
            PlanarError::InvalidTopology("an augmented cell crosses a raster-cell boundary"),
        ),
{
    let mut result: Vec<usize> = Vec::new();
    let mut source: usize = 0;
    let last = initial.len() - 1;
    let mut k: usize = 0;
    while k < augmented.len() - 1
        invariant
            last == initial@.len() - 1,
            last >= 1,
            0 <= source < last,
            0 <= k < augmented@.len(),
            result@.len() == k,
            k > 0 ==> source == cell_source(initial@, augmented@, k - 1),
            k == 0 ==> source == 0,
            forall|j: int| 0 <= j < k ==> #[trigger] result@[j] == cell_source(initial@, augmented@, j),
            forall|j: int| 0 <= j < k ==> #[trigger] cell_fits(initial@, augmented@, j),
            forall|j: int|
                0 <= j < k ==> #[trigger] result@[j] + 1 < initial@.len() && initial@[result@[j] as int]
                    <= augmented@[j] && augmented@[j + 1] <= initial@[result@[j] + 1],
        decreases augmented@.len() - k,
    {
        let low = augmented[k];
        let high = augmented[k + 1];
        let ghost target = cell_source(initial@, augmented@, k as int);
        proof {
            assert(target == advance_source(initial@, source as int, low as int));
        }
        while source + 1 < last && low >= initial[source + 1]
            invariant
                last == initial@.len() - 1,
                0 <= source < last,
                advance_source(initial@, source as int, low as int) == target,
            decreases last - source,
        {
            source += 1;
        }
        proof {
            assert(advance_source(initial@, source as int, low as int) == source);
        }
        if low < initial[source] || high > initial[source + 1] {
            proof {
                assert(!cell_fits(initial@, augmented@, k as int));
            }
            return Err(
                PlanarError::InvalidTopology("an augmented cell crosses a raster-cell boundary"),
            );
        }
        result.push(source);
        proof {
            assert(cell_fits(initial@, augmented@, k as int));
            assert forall|j: int|
                0 <= j < k + 1 implies #[trigger] result@[j] + 1 < initial@.len() && initial@[result@[j] as int]
                <= augmented@[j] && augmented@[j + 1] <= initial@[result@[j] + 1] by {
                if j < k {
                    assert(result@[j] == result@.drop_last()[j]);
                }
            }
            assert forall|j: int| 0 <= j < k + 1 implies #[trigger] result@[j] == cell_source(initial@, augmented@, j) by {
                if j < k {
                    assert(result@[j] == result@.drop_last()[j]);
                }
            }
        }
        k += 1;
    }
    Ok(result)
}

/// The cell lies in the border frame.
pub open spec fn in_border(x0: int, x1: int, y0: int, y1: int, width: int, height: int, border: int) -> bool {
    border > 0 && (x0 < border || x1 > width - border || y0 < border || y1 > height - border)
}

/// Whether the augmented cell `(x, y)` is solid: in the border frame, or cut
/// from a cleaned foreground pixel. Cell rows count upward from the bottom,
/// raster rows downward from the top.
pub open spec fn cell_solid(
    x_edges: Seq<i64>,
    y_edges: Seq<i64>,
    x_sources: Seq<usize>,
    y_sources: Seq<usize>,
    source_width: int,
    source_height: int,
    cleaned: Seq<u8>,
    width: int,
    height: int,
    border: int,
    x: int,
    y: int,
) -> bool {
    in_border(x_edges[x] as int, x_edges[x + 1] as int, y_edges[y] as int, y_edges[y + 1] as int, width, height, border)
        || grid_row(cleaned, source_width, source_height - 1 - y_sources[y])[x_sources[x] as int] == 1
}

/// Marks every augmented cell solid when it lies in the border frame or
/// comes from a cleaned foreground pixel.
pub fn classify_cells(
    x_edges: &[i64],
    y_edges: &[i64],
    x_sources: &[usize],
    y_sources: &[usize],
    source_width: usize,
    source_height: usize,
    cleaned: &[u8],
    physical_width: i64,
    physical_height: i64,
    border: i64,
) -> (solid: Vec<u8>)
    requires
        x_edges@.len() == x_sources@.len() + 1,
        y_edges@.len() == y_sources@.len() + 1,
        forall|k: int| 0 <= k < x_sources@.len() ==> #[trigger] x_sources@[k] < source_width,
        forall|k: int| 0 <= k < y_sources@.len() ==> #[trigger] y_sources@[k] < source_height,
        cleaned@.len() == source_width * source_height,
        x_sources@.len() * y_sources@.len() <= MAX_PLANAR_CELLS,
        coordinate_in_range(physical_width as int),
        coordinate_in_range(physical_height as int),
        coordinate_in_range(border as int),
    ensures
        solid@.len() == x_sources@.len() * y_sources@.len(),
        is_canonical_mask(solid@),
        forall|x: int, y: int|
            0 <= x < x_sources@.len() && 0 <= y < y_sources@.len() ==> #[trigger] grid_row(
                solid@,
                x_sources@.len() as int,
                y,
            )[x] == if cell_solid(
                x_edges@,
                y_edges@,
                x_sources@,
                y_sources@,
                source_width as int,
                source_height as int,
                cleaned@,
                physical_width as int,
                physical_height as int,
                border as int,
                x,
                y,
            ) {
                1u8
            } else {
                0u8
            },
{
    let grid_width = x_sources.len();
    let grid_height = y_sources.len();
    let cleaned_len = cleaned.len();
    let mut solid: Vec<u8> = Vec::new();
    let mut y: usize = 0;
    while y < grid_height
        invariant
            x_edges@.len() == x_sources@.len() + 1,
            y_edges@.len() == y_sources@.len() + 1,
            grid_width == x_sources@.len(),
            grid_height == y_sources@.len(),
            forall|k: int| 0 <= k < x_sources@.len() ==> #[trigger] x_sources@[k] < source_width,
            forall|k: int| 0 <= k < y_sources@.len() ==> #[trigger] y_sources@[k] < source_height,
            cleaned@.len() == source_width * source_height,
            grid_width * grid_height <= MAX_PLANAR_CELLS,
            cleaned_len == cleaned@.len(),
            coordinate_in_range(physical_width as int),
            coordinate_in_range(physical_height as int),
            coordinate_in_range(border as int),
            0 <= y <= grid_height,
            solid@.len() == y * grid_width,
            is_canonical_mask(solid@),
            forall|cx: int, cy: int|
                0 <= cx < grid_width && 0 <= cy < y ==> #[trigger] solid@[cy * grid_width + cx] == if cell_solid(
                    x_edges@,
                    y_edges@,
                    x_sources@,
                    y_sources@,
                    source_width as int,
                    source_height as int,
                    cleaned@,
                    physical_width as int,
                    physical_height as int,
                    border as int,
                    cx,
                    cy,
                ) {
                    1u8
                } else {
                    0u8
                },
        decreases grid_height - y,
    {
        proof {
            assert(y_sources@[y as int] < source_height);
        }
        let source_y = source_height - 1 - y_sources[y];
        let y0 = y_edges[y];
        let y1 = y_edges[y + 1];
        proof {
            assert(y_sources@[y as int] < source_height);
            assert((y + 1) * grid_width <= grid_width * grid_height) by (nonlinear_arith)
                requires
                    y < grid_height,
                    0 <= grid_width,
            ;
            assert(source_y * source_width + source_width <= source_width * source_height) by (nonlinear_arith)
                requires
                    source_y < source_height,
                    0 <= source_width,
            ;
        }
        let mut x: usize = 0;
        while x < grid_width
            invariant
                x_edges@.len() == x_sources@.len() + 1,
                grid_width == x_sources@.len(),
                y < grid_height,
                forall|k: int| 0 <= k < x_sources@.len() ==> #[trigger] x_sources@[k] < source_width,
                cleaned@.len() == source_width * source_height,
                cleaned_len == cleaned@.len(),
                y_edges@.len() == y_sources@.len() + 1,
                grid_height == y_sources@.len(),
                source_y == source_height - 1 - y_sources@[y as int],
                y0 == y_edges@[y as int],
                y1 == y_edges@[y + 1],
                source_y < source_height,
                source_y * source_width + source_width <= source_width * source_height,
                (y + 1) * grid_width <= MAX_PLANAR_CELLS,
                coordinate_in_range(physical_width as int),
                coordinate_in_range(physical_height as int),
                coordinate_in_range(border as int),
                0 <= x <= grid_width,
                solid@.len() == y * grid_width + x,
                is_canonical_mask(solid@),
                forall|cx: int, cy: int|
                    0 <= cx < grid_width && 0 <= cy < y ==> #[trigger] solid@[cy * grid_width + cx] == if cell_solid(
                        x_edges@,
                        y_edges@,
                        x_sources@,
                        y_sources@,
                        source_width as int,
                        source_height as int,
                        cleaned@,
                        physical_width as int,
                        physical_height as int,
                        border as int,
                        cx,
                        cy,
                    ) {
                        1u8
                    } else {
                        0u8
                    },
                forall|cx: int|
                    0 <= cx < x ==> #[trigger] solid@[y * grid_width + cx] == if cell_solid(
                        x_edges@,
                        y_edges@,
                        x_sources@,
                        y_sources@,
                        source_width as int,
                        source_height as int,
                        cleaned@,
                        physical_width as int,
                        physical_height as int,
                        border as int,
                        cx,
                        y as int,
                    ) {
                        1u8
                    } else {
                        0u8
                    },
            decreases grid_width - x,
        {
            let x0 = x_edges[x];
            let x1 = x_edges[x + 1];
            let in_frame = border > 0 && (x0 < border || x1 > physical_width - border || y0 < border
                || y1 > physical_height - border);
            proof {
                assert(x_sources@[x as int] < source_width);
            }
            let source_index = source_y * source_width + x_sources[x];
            let value: u8 = if in_frame || cleaned[source_index] == 1 {
                1
            } else {
                0
            };
            proof {
                assert(grid_row(cleaned@, source_width as int, source_y as int)[x_sources@[x as int] as int]
                    == cleaned@[source_index as int]);
            }
            let ghost before = solid@;
            solid.push(value);
            proof {
                assert(solid@[y * grid_width + x] == value);
                assert forall|cx: int, cy: int|
                    0 <= cx < grid_width && 0 <= cy < y implies #[trigger] solid@[cy * grid_width + cx] == before[cy
                    * grid_width + cx] by {
                    assert(cy * grid_width + cx < y * grid_width) by (nonlinear_arith)
                        requires
                            0 <= cx < grid_width,
                            0 <= cy < y,
                    ;
                }
                assert forall|cx: int| 0 <= cx < x implies #[trigger] solid@[y * grid_width + cx] == before[y
                    * grid_width + cx] by {}
            }
            x += 1;
        }
        proof {
            assert((y + 1) * grid_width == y * grid_width + grid_width) by (nonlinear_arith);
        }
        y += 1;
    }
    proof {
        assert forall|x: int, y: int|
            0 <= x < grid_width && 0 <= y < grid_height implies #[trigger] grid_row(solid@, grid_width as int, y)[x]
            == solid@[y * grid_width + x] by {
            assert(y * grid_width + grid_width <= grid_width * grid_height) by (nonlinear_arith)
                requires
                    0 <= y < grid_height,
                    0 <= grid_width,
            ;
        }
        assert(grid_height * grid_width == grid_width * grid_height) by (nonlinear_arith);
    }
    solid
}

proof fn lemma_increasing_chain(edges: Seq<i64>, i: int, j: int)
    requires
        strictly_increasing(edges),
        0 <= i < j < edges.len(),
    ensures
        edges[i] < edges[j],
    decreases j - i,
{
    if j > i + 1 {
        lemma_increasing_chain(edges, i, j - 1);
    }
    assert(rises_at(edges, j - 1));
}

/// Breakpoints of an in-range axis are valid arrangement breakpoints.
proof fn lemma_axis_breakpoints_valid(edges: Seq<i64>, extent: int, pixels: int)
    requires
        edges.len() == pixels + 1,
        strictly_increasing(edges),
        forall|i: int| 0 <= i <= pixels ==> #[trigger] edges[i] == breakpoint(i, extent, pixels),
        0 < pixels <= extent,
        coordinate_in_range(extent),
    ensures
        breakpoints_valid(edges),
{
    assert forall|i: int, j: int| 0 <= i < j < edges.len() implies #[trigger] edges[i] < #[trigger] edges[j] by {
        lemma_increasing_chain(edges, i, j);
    }
    assert forall|i: int| 0 <= i < edges.len() implies coordinate_in_range(#[trigger] edges[i] as int) by {
        lemma_breakpoint_bounds(i, extent, pixels);
    }
}

/// The augmented grid of a partition: the pixel breakpoints of each axis,
/// the opened foreground over them, the breakpoints with the border lines
/// added, each augmented cell's source pixel, and the cells marked solid
/// where they lie in the border frame or come from an opened foreground pixel.
pub open spec fn solid_grid(
    artwork: CanonicalArtwork,
    options: PlanarOptions,
    source_x: Seq<i64>,
    source_y: Seq<i64>,
    cleaned: Seq<u8>,
    x_edges: Seq<i64>,
    y_edges: Seq<i64>,
    x_sources: Seq<usize>,
    y_sources: Seq<usize>,
    cells: Seq<u8>,
) -> bool {
    let width = artwork.spec_physical_size().spec_width() as int;
    let height = artwork.spec_physical_size().spec_height() as int;
    let mask = artwork.spec_foreground();
    let pixels_wide = mask.spec_dimensions().spec_width() as int;
    let pixels_high = mask.spec_dimensions().spec_height() as int;
    let border = options.spec_border_width() as int;
    let grid_width = x_edges.len() - 1;
    let grid_height = y_edges.len() - 1;
    &&& source_x.len() == pixels_wide + 1
    &&& forall|i: int| 0 <= i < source_x.len() ==> #[trigger] source_x[i] == breakpoint(i, width, pixels_wide)
    &&& source_y.len() == pixels_high + 1
    &&& forall|i: int| 0 <= i < source_y.len() ==> #[trigger] source_y[i] == breakpoint(i, height, pixels_high)
    &&& opened_by_kernel(
        cleaned,
        mask.spec_bytes(),
        pixels_wide,
        pixels_high,
        source_x,
        source_y,
        options.spec_minimum_feature_width() as int,
    )
    &&& breakpoints_valid(x_edges)
    &&& breakpoints_valid(y_edges)
    &&& forall|i: int| 0 <= i < source_x.len() ==> x_edges.contains(#[trigger] source_x[i])
    &&& forall|i: int| 0 <= i < source_y.len() ==> y_edges.contains(#[trigger] source_y[i])
    &&& forall|i: int|
        0 <= i < x_edges.len() ==> source_x.contains(#[trigger] x_edges[i]) || (border > 0 && (x_edges[i] == border
            || x_edges[i] == width - border))
    &&& forall|i: int|
        0 <= i < y_edges.len() ==> source_y.contains(#[trigger] y_edges[i]) || (border > 0 && (y_edges[i] == border
            || y_edges[i] == height - border))
    &&& x_sources.len() == grid_width
    &&& forall|k: int| 0 <= k < grid_width ==> #[trigger] x_sources[k] == cell_source(source_x, x_edges, k)
    &&& y_sources.len() == grid_height
    &&& forall|k: int| 0 <= k < grid_height ==> #[trigger] y_sources[k] == cell_source(source_y, y_edges, k)
    &&& cells.len() == grid_width * grid_height
    &&& forall|x: int, y: int|
        0 <= x < grid_width && 0 <= y < grid_height ==> #[trigger] grid_row(cells, grid_width, y)[x] == if cell_solid(
            x_edges,
            y_edges,
            x_sources,
            y_sources,
            pixels_wide,
            pixels_high,
            cleaned,
            width,
            height,
            border,
            x,
            y,
        ) {
            1u8
        } else {
            0u8
        }
}

/// The partition is traced from its augmented grid: the substrate's area is
/// that enclosed by the boundary of the solid cells, and the fill's is that
/// enclosed by the footprint perimeter with that boundary taken away.
pub open spec fn traced_from(
    artwork: CanonicalArtwork,
    options: PlanarOptions,
    partition: PlanarPartition,
    source_x: Seq<i64>,
    source_y: Seq<i64>,
    cleaned: Seq<u8>,
    x_edges: Seq<i64>,
    y_edges: Seq<i64>,
    x_sources: Seq<usize>,
    y_sources: Seq<usize>,
    cells: Seq<u8>,
    substrate_edges: Seq<DirectedEdge>,
    fill_edges: Seq<DirectedEdge>,
) -> bool {
    let grid_width = x_edges.len() - 1;
    let grid_height = y_edges.len() - 1;
    &&& solid_grid(artwork, options, source_x, source_y, cleaned, x_edges, y_edges, x_sources, y_sources, cells)
    &&& edge_keys(substrate_edges) == boundary_keys(
        x_edges,
        y_edges,
        cells,
        grid_width,
        grid_height,
        grid_width * grid_height,
    )
    &&& winding_boundary(
        fill_edges,
        fill_inputs(
            x_edges,
            y_edges,
            artwork.spec_physical_size().spec_width() as int,
            artwork.spec_physical_size().spec_height() as int,
            substrate_edges,
        ),
    )
    &&& partition.spec_substrate_upper().spec_area() == seq_sum(substrate_edges, edge_term())
    &&& polygons_area(partition.spec_fill_parts()) == seq_sum(fill_edges, edge_term())
}

/// Some augmented grid traces the partition.
pub open spec fn partition_traced(artwork: CanonicalArtwork, options: PlanarOptions, partition: PlanarPartition) -> bool {
    exists|
        source_x: Seq<i64>,
        source_y: Seq<i64>,
        cleaned: Seq<u8>,
        x_edges: Seq<i64>,
        y_edges: Seq<i64>,
        x_sources: Seq<usize>,
        y_sources: Seq<usize>,
        cells: Seq<u8>,
        substrate_edges: Seq<DirectedEdge>,
        fill_edges: Seq<DirectedEdge>,
    |
        #![trigger traced_from(
            artwork,
            options,
            partition,
            source_x,
            source_y,
            cleaned,
            x_edges,
            y_edges,
            x_sources,
            y_sources,
            cells,
            substrate_edges,
            fill_edges,
        )]
        traced_from(
            artwork,
            options,
            partition,
            source_x,
            source_y,
            cleaned,
            x_edges,
            y_edges,
            x_sources,
            y_sources,
            cells,
            substrate_edges,
            fill_edges,
        )
}

/// Cleans and partitions canonical artwork into complementary upper regions.
///
/// Coordinates use a bottom-left origin and integer micrometres; raster row
/// zero maps to the top of the footprint. Foreground is opened without
/// closing complementary gaps, an exact border frame is added, and diagonal
/// foreground contacts are separated with chamfers, giving the substrate
/// four-connectivity and the fill eight-connectivity without point-touching
/// polygons. The substrate and the fill exactly cover the footprint.
pub fn partition_artwork(artwork: &CanonicalArtwork, options: PlanarOptions) -> (result: Result<
    PlanarPartition,
    PlanarError,
>)
    ensures
        ({
            let width = artwork.spec_physical_size().spec_width();
            let height = artwork.spec_physical_size().spec_height();
            &&& width > MAX_ARTWORK_EXTENT_MICROMETERS || height > MAX_ARTWORK_EXTENT_MICROMETERS
                ==> result == Err::<PlanarPartition, PlanarError>(
                PlanarError::ArtworkExtentTooLarge { width, height, max: MAX_ARTWORK_EXTENT_MICROMETERS },
            )
            &&& width <= MAX_ARTWORK_EXTENT_MICROMETERS && height <= MAX_ARTWORK_EXTENT_MICROMETERS
                && !border_fits(width as int, height as int, options.spec_border_width() as int) ==> result
                == Err::<PlanarPartition, PlanarError>(
                PlanarError::BorderDoesNotFitArtwork {
                    width,
                    height,
                    border: options.spec_border_width(),
                },
            )
            &&& {
                let dimensions = artwork.spec_foreground().spec_dimensions();
                let pixels_wide = dimensions.spec_width();
                let pixels_high = dimensions.spec_height();
                let admitted = width <= MAX_ARTWORK_EXTENT_MICROMETERS && height <= MAX_ARTWORK_EXTENT_MICROMETERS
                    && border_fits(width as int, height as int, options.spec_border_width() as int);
                &&& admitted && dimensions.spec_pixel_count() > MAX_PLANAR_CELLS ==> result
                    == Err::<PlanarPartition, PlanarError>(
                    PlanarError::TooManyCells { required: dimensions.spec_pixel_count(), max: MAX_PLANAR_CELLS },
                )
                &&& admitted && dimensions.spec_pixel_count() <= MAX_PLANAR_CELLS && pixels_wide > MAX_AXIS_INTERVALS
                    ==> result == Err::<PlanarPartition, PlanarError>(
                    PlanarError::TooManyAxisIntervals {
                        dimension: Dimension::Width,
                        required: pixels_wide as usize,
                        max: MAX_AXIS_INTERVALS,
                    },
                )
                &&& admitted && dimensions.spec_pixel_count() <= MAX_PLANAR_CELLS && pixels_wide <= MAX_AXIS_INTERVALS
                    && pixels_high > MAX_AXIS_INTERVALS ==> result == Err::<PlanarPartition, PlanarError>(
                    PlanarError::TooManyAxisIntervals {
                        dimension: Dimension::Height,
                        required: pixels_high as usize,
                        max: MAX_AXIS_INTERVALS,
                    },
                )
                &&& admitted && dimensions.spec_pixel_count() <= MAX_PLANAR_CELLS && pixels_wide <= MAX_AXIS_INTERVALS
                    && pixels_high <= MAX_AXIS_INTERVALS && pixels_wide > width ==> result == Err::<
                    PlanarPartition,
                    PlanarError,
                >(PlanarError::ResolutionTooFine { dimension: Dimension::Width, pixels: pixels_wide, extent: width })
            }
            &&& result matches Ok(partition) ==> {
                &&& partition.spec_footprint().spec_width() == width
                &&& partition.spec_footprint().spec_height() == height
                &&& partition.spec_substrate_upper().spec_area() + polygons_area(
                    partition.spec_fill_parts(),
                ) == partition.spec_footprint().spec_double_area()
                &&& forall|i: int|
                    0 <= i < partition.spec_substrate_upper().spec_polygons().len() ==> polygon_canonical(
                        #[trigger] partition.spec_substrate_upper().spec_polygons()[i],
                    )
                &&& forall|i: int|
                    0 <= i < partition.spec_fill_parts().len() ==> polygon_canonical(
                        #[trigger] partition.spec_fill_parts()[i],
                    )
                &&& options.spec_contour_tolerance() == 0 ==> partition_traced(*artwork, options, partition)
            }
        }),
{
    let physical = artwork.physical_size();
    let width = physical.width();
    let height = physical.height();
    validate_extent(width, height)?;
    let border = options.border_width_micrometers();
    validate_border(width, height, border)?;
    let mask = artwork.foreground();
    let dimensions = mask.dimensions();
    let pixel_count = dimensions.pixel_count();
    if pixel_count > MAX_PLANAR_CELLS {
        return Err(PlanarError::TooManyCells { required: pixel_count, max: MAX_PLANAR_CELLS });
    }
    let pixels_wide = dimensions.width();
    let pixels_high = dimensions.height();
    if pixels_wide as usize > MAX_AXIS_INTERVALS {
        return Err(
            PlanarError::TooManyAxisIntervals {
                dimension: Dimension::Width,
                required: pixels_wide as usize,
                max: MAX_AXIS_INTERVALS,
            },
        );
    }
    if pixels_high as usize > MAX_AXIS_INTERVALS {
        return Err(
            PlanarError::TooManyAxisIntervals {
                dimension: Dimension::Height,
                required: pixels_high as usize,
                max: MAX_AXIS_INTERVALS,
            },
        );
    }
    let source_x_edges = axis_edges(width, pixels_wide, Dimension::Width)?;
    let source_y_edges = axis_edges(height, pixels_high, Dimension::Height)?;
    proof {
        lemma_axis_breakpoints_valid(source_x_edges@, width as int, pixels_wide as int);
        lemma_axis_breakpoints_valid(source_y_edges@, height as int, pixels_high as int);
    }
    let x_edges = with_border_edges(crate::planar::cleanup::copy_breakpoints(source_x_edges.as_slice()), width, border);
    let y_edges = with_border_edges(crate::planar::cleanup::copy_breakpoints(source_y_edges.as_slice()), height, border);
    proof {
        lemma_breakpoints_count(x_edges@);
        lemma_breakpoints_count(y_edges@);
        assert(x_edges@.contains(source_x_edges@[0]));
        assert(x_edges@.contains(source_x_edges@[1]));
        assert(y_edges@.contains(source_y_edges@[0]));
        assert(y_edges@.contains(source_y_edges@[1]));
        assert(source_x_edges@[0] < source_x_edges@[1]);
        assert(source_y_edges@[0] < source_y_edges@[1]);
    }
    let grid_width = x_edges.len() - 1;
    let grid_height = y_edges.len() - 1;
    let cell_count = match grid_width.checked_mul(grid_height) {
        Some(count) => count,
        None => {
            return Err(PlanarError::ArithmeticOverflow);
        },
    };
    if cell_count > MAX_PLANAR_CELLS {
        return Err(PlanarError::TooManyCells { required: cell_count, max: MAX_PLANAR_CELLS });
    }
    let cleaned = open_foreground_on_grid(
        mask,
        source_x_edges.as_slice(),
        source_y_edges.as_slice(),
        options.minimum_feature_width_micrometers(),
    )?;
    proof {
        use_type_invariant(mask);
    }
    let x_sources = source_intervals(source_x_edges.as_slice(), x_edges.as_slice())?;
    let y_sources = source_intervals(source_y_edges.as_slice(), y_edges.as_slice())?;
    let solid = classify_cells(
        x_edges.as_slice(),
        y_edges.as_slice(),
        x_sources.as_slice(),
        y_sources.as_slice(),
        pixels_wide as usize,
        pixels_high as usize,
        cleaned.as_slice(),
        width,
        height,
        border,
    );
    let footprint = RectMicrometers::from_positive_size(width, height);
    let substrate_edges = substrate_boundary_edges(
        x_edges.as_slice(),
        y_edges.as_slice(),
        solid.as_slice(),
        grid_width,
        grid_height,
    )?;
    let fill_edges = complementary_boundary_edges(
        footprint,
        x_edges.as_slice(),
        y_edges.as_slice(),
        substrate_edges.as_slice(),
    )?;
    let ghost traced_substrate = substrate_edges@;
    let ghost traced_fill = fill_edges@;
    let substrate_rings = trace_rings(substrate_edges)?;
    let fill_rings = trace_rings(fill_edges)?;
    let ghost substrate_traced_rings = substrate_rings@;
    let ghost fill_traced_rings = fill_rings@;
    let (substrate_rings, fill_rings) = simplify_shared_rings(
        substrate_rings,
        fill_rings,
        footprint,
        options.contour_tolerance_micrometers(),
    );
    let substrate_upper = assemble_region(substrate_rings)?;
    let fill = assemble_region(fill_rings)?;
    let combined_area = match substrate_upper.double_area().checked_add(fill.double_area()) {
        Some(area) => area,
        None => {
            return Err(PlanarError::ArithmeticOverflow);
        },
    };
    if combined_area != footprint.double_area() {
        return Err(
            PlanarError::InvalidTopology("substrate and fill do not exactly cover the footprint"),
        );
    }
    let polygons = fill.polygons();
    let mut fill_parts: Vec<Polygon> = Vec::new();
    let mut k: usize = 0;
    while k < polygons.len()
        invariant
            polygons@.len() <= MAX_BOUNDARY_EDGES,
            forall|i: int| 0 <= i < polygons@.len() ==> (#[trigger] polygons@[i]).wf(),
            0 <= k <= polygons@.len(),
            fill_parts@.len() == k,
            forall|i: int| 0 <= i < fill_parts@.len() ==> (#[trigger] fill_parts@[i]).wf(),
            polygons_area(fill_parts@) == polygons_area(polygons@.subrange(0, k as int)),
            forall|i: int| 0 <= i < polygons@.len() ==> polygon_canonical(#[trigger] polygons@[i]),
            forall|i: int| 0 <= i < fill_parts@.len() ==> polygon_canonical(#[trigger] fill_parts@[i]),
        decreases polygons@.len() - k,
    {
        let copy = polygons[k].clone();
        let ghost before = fill_parts@;
        fill_parts.push(copy);
        proof {
            assert(fill_parts@.drop_last() == before);
            assert(polygons@.subrange(0, k + 1).drop_last() == polygons@.subrange(0, k as int));
            assert forall|i: int| 0 <= i < fill_parts@.len() implies (#[trigger] fill_parts@[i]).wf() by {
                if i < before.len() {
                    assert(fill_parts@[i] == before[i]);
                }
            }
            assert(crate::mesh::triangulate::ring_views(copy.spec_holes()) =~= crate::mesh::triangulate::ring_views(
                polygons@[k as int].spec_holes(),
            ));
            assert(polygon_canonical(polygons@[k as int]));
            assert forall|i: int| 0 <= i < fill_parts@.len() implies polygon_canonical(#[trigger] fill_parts@[i]) by {
                if i < before.len() {
                    assert(fill_parts@[i] == before[i]);
                }
            }
        }
        k += 1;
    }
    proof {
        assert(polygons@.subrange(0, polygons@.len() as int) == polygons@);
    }
    let partition = PlanarPartition::from_validated_parts(footprint, substrate_upper, fill_parts);
    proof {
        if options.spec_contour_tolerance() == 0 {
            assert(solid_grid(
                *artwork,
                options,
                source_x_edges@,
                source_y_edges@,
                cleaned@,
                x_edges@,
                y_edges@,
                x_sources@,
                y_sources@,
                solid@,
            ));
            assert(traced_from(
                *artwork,
                options,
                partition,
                source_x_edges@,
                source_y_edges@,
                cleaned@,
                x_edges@,
                y_edges@,
                x_sources@,
                y_sources@,
                solid@,
                traced_substrate,
                traced_fill,
            ));
        }
    }
    Ok(partition)
}

} // verus!
