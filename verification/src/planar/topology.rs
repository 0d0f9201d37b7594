//! Boundary extraction, contour tracing, guarded simplification and region
//! assembly on the fixed-point cell arrangement.

use vstd::prelude::*;

use crate::document::is_canonical_mask;
use crate::order::{quad_le, sorted, LexOrder};
use crate::planar::types::{
    coordinate_in_range, point_in_range, point_key, point_less, point_lt, points_in_range, PlanarError,
    PointMicrometers, RectMicrometers, MAX_BOUNDARY_EDGES,
};

verus! {

broadcast use vstd::seq_lib::group_to_multiset_ensures;

/// A directed boundary segment between two points.
#[derive(Debug, Clone, Copy, PartialEq, Eq, Structural)]
pub struct DirectedEdge {
    pub start: PointMicrometers,
    pub end: PointMicrometers,
}

impl DirectedEdge {
    /// Creates a directed edge.
    pub fn new(start: PointMicrometers, end: PointMicrometers) -> (edge: Self)
        ensures
            edge.start == start,
            edge.end == end,
    {
        Self { start, end }
    }

    /// Returns the same segment traversed in the opposite direction.
    pub fn reversed(self) -> (edge: Self)
        ensures
            edge.start == self.end,
            edge.end == self.start,
    {
        Self::new(self.end, self.start)
    }
}

/// The edge as an integer quadruple, ordered lexicographically.
pub open spec fn edge_key(edge: DirectedEdge) -> (int, int, int, int) {
    (
        edge.start.spec_x() as int,
        edge.start.spec_y() as int,
        edge.end.spec_x() as int,
        edge.end.spec_y() as int,
    )
}

impl LexOrder for DirectedEdge {
    open spec fn ordered_le(self, other: Self) -> bool {
        quad_le(edge_key(self), edge_key(other))
    }

    proof fn lemma_le_total(a: Self, b: Self) {
    }

    proof fn lemma_le_transitive(a: Self, b: Self, c: Self) {
    }

    fn le(&self, other: &Self) -> (result: bool) {
        let a = (self.start.x(), self.start.y(), self.end.x(), self.end.y());
        let b = (other.start.x(), other.start.y(), other.end.x(), other.end.y());
        a.0 < b.0 || (a.0 == b.0 && (a.1 < b.1 || (a.1 == b.1 && (a.2 < b.2 || (a.2 == b.2
            && a.3 <= b.3)))))
    }
}

/// A non-degenerate segment with both endpoints in the artwork range.
pub open spec fn edge_valid(edge: DirectedEdge) -> bool {
    &&& edge.start != edge.end
    &&& point_in_range(edge.start)
    &&& point_in_range(edge.end)
}

/// Every segment is non-degenerate and in range.
pub open spec fn edges_valid(edges: Seq<DirectedEdge>) -> bool {
    forall|i: int| 0 <= i < edges.len() ==> edge_valid(#[trigger] edges[i])
}

/// Breakpoints strictly increase and lie in the artwork range.
pub open spec fn breakpoints_valid(edges: Seq<i64>) -> bool {
    &&& forall|i: int, j: int| 0 <= i < j < edges.len() ==> #[trigger] edges[i] < #[trigger] edges[j]
    &&& forall|i: int| 0 <= i < edges.len() ==> coordinate_in_range(#[trigger] edges[i] as int)
}

/// Strictly increasing in-range breakpoints are at least one micrometre
/// apart, so there are at most one more of them than the artwork range.
pub proof fn lemma_breakpoints_count(edges: Seq<i64>)
    requires
        breakpoints_valid(edges),
    ensures
        edges.len() <= crate::planar::types::MAX_ARTWORK_EXTENT_MICROMETERS + 1,
        forall|k: int| 0 <= k < edges.len() ==> edges[0] + k <= #[trigger] edges[k],
{
    assert forall|k: int| 0 <= k < edges.len() implies edges[0] + k <= #[trigger] edges[k] by {
        lemma_breakpoints_spread(edges, k);
    }
    if edges.len() > 0 {
        let last = edges.len() - 1;
        assert(edges[0] + last <= edges[last]);
        assert(coordinate_in_range(edges[0] as int));
        assert(coordinate_in_range(edges[last] as int));
    }
}

proof fn lemma_breakpoints_spread(edges: Seq<i64>, k: int)
    requires
        breakpoints_valid(edges),
        0 <= k < edges.len(),
    ensures
        edges[0] + k <= edges[k],
    decreases k,
{
    if k > 0 {
        lemma_breakpoints_spread(edges, k - 1);
        assert(edges[k - 1] < edges[k]);
    }
}

/// The corners of one cell, in counter-clockwise order.
#[derive(Debug, Clone, Copy)]
pub enum CellCorner {
    BottomLeft,
    BottomRight,
    TopRight,
    TopLeft,
}

/// One axis-aligned cell of the arrangement.
#[derive(Debug, Clone, Copy)]
pub struct CellRectangle {
    pub x0: i64,
    pub x1: i64,
    pub y0: i64,
    pub y1: i64,
}

/// A valid cell lies in range with positive extents.
pub open spec fn cell_valid(cell: CellRectangle) -> bool {
    &&& coordinate_in_range(cell.x0 as int)
    &&& coordinate_in_range(cell.x1 as int)
    &&& coordinate_in_range(cell.y0 as int)
    &&& coordinate_in_range(cell.y1 as int)
    &&& cell.x0 < cell.x1
    &&& cell.y0 < cell.y1
}

/// The boundary walk enters a corner at `incoming` and leaves it at
/// `outgoing`; the two differ only where the corner is chamfered.
#[derive(Debug, Clone, Copy)]
pub struct CornerPoints {
    pub incoming: PointMicrometers,
    pub outgoing: PointMicrometers,
    pub clipped: bool,
}

/// The vertex of a cell at one of its corners.
pub open spec fn corner_vertex(cell: CellRectangle, corner: CellCorner) -> (int, int) {
    match corner {
        CellCorner::BottomLeft => (cell.x0 as int, cell.y0 as int),
        CellCorner::BottomRight => (cell.x1 as int, cell.y0 as int),
        CellCorner::TopRight => (cell.x1 as int, cell.y1 as int),
        CellCorner::TopLeft => (cell.x0 as int, cell.y1 as int),
    }
}

/// A point lies inside (or on the boundary of) a cell.
pub open spec fn point_in_cell(p: PointMicrometers, cell: CellRectangle) -> bool {
    cell.x0 <= p.spec_x() <= cell.x1 && cell.y0 <= p.spec_y() <= cell.y1
}

/// The chamfer insets of a cell: half its extent along each axis, rounded down.
pub open spec fn insets(cell: CellRectangle) -> (int, int) {
    ((cell.x1 - cell.x0) / 2, (cell.y1 - cell.y0) / 2)
}

/// A chamfer would collapse: half the cell is below one micrometre on an axis.
pub open spec fn chamfer_too_fine(cell: CellRectangle) -> bool {
    insets(cell).0 == 0 || insets(cell).1 == 0
}

/// Where the boundary enters and leaves a corner, as integer pairs: the corner
/// itself, or the two chamfer points half a cell along the adjacent sides.
pub open spec fn corner_pair(cell: CellRectangle, corner: CellCorner, clipped: bool) -> ((int, int), (int, int)) {
    let (ix, iy) = insets(cell);
    let (x0, x1, y0, y1) = (cell.x0 as int, cell.x1 as int, cell.y0 as int, cell.y1 as int);
    if !clipped {
        (corner_vertex(cell, corner), corner_vertex(cell, corner))
    } else {
        match corner {
            CellCorner::BottomLeft => ((x0, y0 + iy), (x0 + ix, y0)),
            CellCorner::BottomRight => ((x1 - ix, y0), (x1, y0 + iy)),
            CellCorner::TopRight => ((x1, y1 - iy), (x1 - ix, y1)),
            CellCorner::TopLeft => ((x0 + ix, y1), (x0, y1 - iy)),
        }
    }
}

/// Computes where the boundary enters and leaves a cell corner. A clipped
/// corner is chamfered by half the cell extent along each side.
pub fn corner_points(rectangle: CellRectangle, corner: CellCorner, clipped: bool) -> (result: Result<
    CornerPoints,
    PlanarError,
>)
    requires
        cell_valid(rectangle),
    ensures
        clipped && chamfer_too_fine(rectangle) ==> result == Err::<CornerPoints, PlanarError>(
            PlanarError::DiagonalContactTooFine {
                x: corner_vertex(rectangle, corner).0 as i64,
                y: corner_vertex(rectangle, corner).1 as i64,
            },
        ),
        !(clipped && chamfer_too_fine(rectangle)) ==> (result matches Ok(points) && points.clipped
            == clipped && point_key(points.incoming) == corner_pair(rectangle, corner, clipped).0
            && point_key(points.outgoing) == corner_pair(rectangle, corner, clipped).1),
        clipped && !chamfer_too_fine(rectangle) ==> (result matches Ok(points) && points.incoming
            != points.outgoing),
        result matches Ok(points) ==> point_in_cell(points.incoming, rectangle) && point_in_cell(
            points.outgoing,
            rectangle,
        ),
{
    let corner_point = match corner {
        CellCorner::BottomLeft => PointMicrometers::new(rectangle.x0, rectangle.y0),
        CellCorner::BottomRight => PointMicrometers::new(rectangle.x1, rectangle.y0),
        CellCorner::TopRight => PointMicrometers::new(rectangle.x1, rectangle.y1),
        CellCorner::TopLeft => PointMicrometers::new(rectangle.x0, rectangle.y1),
    };
    if !clipped {
        return Ok(CornerPoints { incoming: corner_point, outgoing: corner_point, clipped: false });
    }
    let inset_x = (rectangle.x1 - rectangle.x0) / 2;
    let inset_y = (rectangle.y1 - rectangle.y0) / 2;
    if inset_x == 0 || inset_y == 0 {
        return Err(PlanarError::DiagonalContactTooFine { x: corner_point.x(), y: corner_point.y() });
    }
    let (incoming, outgoing) = match corner {
        CellCorner::BottomLeft => (
            PointMicrometers::new(rectangle.x0, rectangle.y0 + inset_y),
            PointMicrometers::new(rectangle.x0 + inset_x, rectangle.y0),
        ),
        CellCorner::BottomRight => (
            PointMicrometers::new(rectangle.x1 - inset_x, rectangle.y0),
            PointMicrometers::new(rectangle.x1, rectangle.y0 + inset_y),
        ),
        CellCorner::TopRight => (
            PointMicrometers::new(rectangle.x1, rectangle.y1 - inset_y),
            PointMicrometers::new(rectangle.x1 - inset_x, rectangle.y1),
        ),
        CellCorner::TopLeft => (
            PointMicrometers::new(rectangle.x0 + inset_x, rectangle.y1),
            PointMicrometers::new(rectangle.x0, rectangle.y1 - inset_y),
        ),
    };
    Ok(CornerPoints { incoming, outgoing, clipped: true })
}

/// The cell at `(x, y)` exists and is solid.
pub open spec fn spec_solid_at(solid: Seq<u8>, width: int, height: int, x: int, y: int) -> bool {
    0 <= x < width && 0 <= y < height && solid[y * width + x] == 1
}

/// Returns whether the cell at signed coordinates `(x, y)` exists and is solid.
pub fn solid_at(solid: &[u8], width: usize, height: usize, x: i64, y: i64) -> (result: bool)
    requires
        solid@.len() == width * height,
    ensures
        result == spec_solid_at(solid@, width as int, height as int, x as int, y as int),
{
    if x < 0 || y < 0 {
        return false;
    }
    if x as i128 >= width as i128 || y as i128 >= height as i128 {
        return false;
    }
    let x = x as usize;
    let y = y as usize;
    let length = solid.len();
    proof {
        crate::document::lemma_row_major_index_bound(x as int, y as int, width as int, height as int);
    }
    solid[y * width + x] == 1
}

/// Appends a non-degenerate edge, enforcing the boundary-edge limit;
/// degenerate edges are skipped.
pub fn push_edge(edges: &mut Vec<DirectedEdge>, edge: DirectedEdge) -> (result: Result<
    (),
    PlanarError,
>)
    requires
        point_in_range(edge.start),
        point_in_range(edge.end),
        old(edges)@.len() <= MAX_BOUNDARY_EDGES,
    ensures
        edge.start == edge.end ==> result is Ok && final(edges)@ == old(edges)@,
        edge.start != edge.end && old(edges)@.len() + 1 > MAX_BOUNDARY_EDGES ==> result == Err::<
            (),
            PlanarError,
        >(
            PlanarError::TooManyBoundaryEdges {
                required: (old(edges)@.len() + 1) as usize,
                max: MAX_BOUNDARY_EDGES,
            },
        ),
        edge.start != edge.end && old(edges)@.len() + 1 <= MAX_BOUNDARY_EDGES ==> result is Ok
            && final(edges)@ == old(edges)@.push(edge),
        result is Err ==> final(edges)@ == old(edges)@,
{
    if edge.start.same(edge.end) {
        return Ok(());
    }
    if edges.len() >= MAX_BOUNDARY_EDGES {
        return Err(
            PlanarError::TooManyBoundaryEdges { required: edges.len() + 1, max: MAX_BOUNDARY_EDGES },
        );
    }
    edges.push(edge);
    Ok(())
}

/// The edges as integer quadruples.
pub open spec fn edge_keys(edges: Seq<DirectedEdge>) -> Seq<(int, int, int, int)> {
    edges.map_values(|edge: DirectedEdge| edge_key(edge))
}

/// The cell between breakpoints `x`, `x + 1` and `y`, `y + 1`.
pub open spec fn grid_cell(x_edges: Seq<i64>, y_edges: Seq<i64>, x: int, y: int) -> CellRectangle {
    CellRectangle { x0: x_edges[x], x1: x_edges[x + 1], y0: y_edges[y], y1: y_edges[y + 1] }
}

/// Whether side `side` (bottom, right, top, left) of cell `(x, y)` faces a
/// cell that is not solid.
pub open spec fn side_open(solid: Seq<u8>, width: int, height: int, x: int, y: int, side: int) -> bool {
    if side == 0 {
        !spec_solid_at(solid, width, height, x, y - 1)
    } else if side == 1 {
        !spec_solid_at(solid, width, height, x + 1, y)
    } else if side == 2 {
        !spec_solid_at(solid, width, height, x, y + 1)
    } else {
        !spec_solid_at(solid, width, height, x - 1, y)
    }
}

/// The corner at counter-clockwise position `k`, starting at the bottom left.
pub open spec fn corner_at(k: int) -> CellCorner {
    if k == 0 {
        CellCorner::BottomLeft
    } else if k == 1 {
        CellCorner::BottomRight
    } else if k == 2 {
        CellCorner::TopRight
    } else {
        CellCorner::TopLeft
    }
}

/// Corner `k` of cell `(x, y)` is chamfered: both adjacent sides are open and
/// the diagonal neighbour is solid.
pub open spec fn corner_clipped(solid: Seq<u8>, width: int, height: int, x: int, y: int, k: int) -> bool {
    let open = |side: int| side_open(solid, width, height, x, y, side);
    if k == 0 {
        open(0) && open(3) && spec_solid_at(solid, width, height, x - 1, y - 1)
    } else if k == 1 {
        open(0) && open(1) && spec_solid_at(solid, width, height, x + 1, y - 1)
    } else if k == 2 {
        open(2) && open(1) && spec_solid_at(solid, width, height, x + 1, y + 1)
    } else {
        open(2) && open(3) && spec_solid_at(solid, width, height, x - 1, y + 1)
    }
}

/// The entry and exit points of corner `k` of cell `(x, y)`.
pub open spec fn cell_corner(
    x_edges: Seq<i64>,
    y_edges: Seq<i64>,
    solid: Seq<u8>,
    width: int,
    height: int,
    x: int,
    y: int,
    k: int,
) -> ((int, int), (int, int)) {
    corner_pair(
        grid_cell(x_edges, y_edges, x, y),
        corner_at(k),
        corner_clipped(solid, width, height, x, y, k),
    )
}

/// The key of the segment from `a` to `b`, unless it is degenerate.
pub open spec fn segment_keys(a: (int, int), b: (int, int)) -> Seq<(int, int, int, int)> {
    if a != b {
        seq![(a.0, a.1, b.0, b.1)]
    } else {
        Seq::empty()
    }
}

/// Part `j` of a solid cell's boundary: for even `j`, side `j / 2` from the
/// exit of its first corner to the entry of the next, when the side is open;
/// for odd `j`, the chamfer of the corner after side `j / 2`, when clipped.
pub open spec fn cell_part(
    x_edges: Seq<i64>,
    y_edges: Seq<i64>,
    solid: Seq<u8>,
    width: int,
    height: int,
    x: int,
    y: int,
    j: int,
) -> Seq<(int, int, int, int)> {
    let k = j / 2;
    let next = if k == 3 {
        0
    } else {
        k + 1
    };
    let corner = |c: int| cell_corner(x_edges, y_edges, solid, width, height, x, y, c);
    if j % 2 == 0 {
        if side_open(solid, width, height, x, y, k) {
            segment_keys(corner(k).1, corner(next).0)
        } else {
            Seq::empty()
        }
    } else {
        if corner_clipped(solid, width, height, x, y, next) {
            segment_keys(corner(next).0, corner(next).1)
        } else {
            Seq::empty()
        }
    }
}

/// The first `count` parts of a solid cell's boundary.
pub open spec fn cell_parts(
    x_edges: Seq<i64>,
    y_edges: Seq<i64>,
    solid: Seq<u8>,
    width: int,
    height: int,
    x: int,
    y: int,
    count: int,
) -> Seq<(int, int, int, int)>
    decreases count,
{
    if count <= 0 {
        Seq::empty()
    } else {
        cell_parts(x_edges, y_edges, solid, width, height, x, y, count - 1) + cell_part(
            x_edges,
            y_edges,
            solid,
            width,
            height,
            x,
            y,
            count - 1,
        )
    }
}

/// The boundary a cell contributes: nothing unless it is solid.
pub open spec fn cell_keys(
    x_edges: Seq<i64>,
    y_edges: Seq<i64>,
    solid: Seq<u8>,
    width: int,
    height: int,
    x: int,
    y: int,
) -> Seq<(int, int, int, int)> {
    if spec_solid_at(solid, width, height, x, y) {
        cell_parts(x_edges, y_edges, solid, width, height, x, y, 8)
    } else {
        Seq::empty()
    }
}

/// The boundary contributed by the first `count` cells in row-major order.
pub open spec fn boundary_keys(
    x_edges: Seq<i64>,
    y_edges: Seq<i64>,
    solid: Seq<u8>,
    width: int,
    height: int,
    count: int,
) -> Seq<(int, int, int, int)>
    decreases count,
{
    if count <= 0 || width <= 0 {
        Seq::empty()
    } else {
        boundary_keys(x_edges, y_edges, solid, width, height, count - 1) + cell_keys(
            x_edges,
            y_edges,
            solid,
            width,
            height,
            (count - 1) % width,
            (count - 1) / width,
        )
    }
}

/// A solid cell with a chamfered corner too small to cut.
pub open spec fn cell_too_fine(
    x_edges: Seq<i64>,
    y_edges: Seq<i64>,
    solid: Seq<u8>,
    width: int,
    height: int,
    x: int,
    y: int,
) -> bool {
    &&& spec_solid_at(solid, width, height, x, y)
    &&& chamfer_too_fine(grid_cell(x_edges, y_edges, x, y))
    &&& exists|k: int| 0 <= k < 4 && #[trigger] corner_clipped(solid, width, height, x, y, k)
}

/// No cell among the first `count` in row-major order is too fine.
pub open spec fn cells_fine(
    x_edges: Seq<i64>,
    y_edges: Seq<i64>,
    solid: Seq<u8>,
    width: int,
    height: int,
    count: int,
) -> bool {
    forall|c: int|
        0 <= c < count ==> !#[trigger] cell_too_fine(
            x_edges,
            y_edges,
            solid,
            width,
            height,
            c % width,
            c / width,
        )
}

/// The boundary of the first `count` cells, all fine, already exceeds the edge limit.
pub open spec fn overflows_at(
    x_edges: Seq<i64>,
    y_edges: Seq<i64>,
    solid: Seq<u8>,
    width: int,
    height: int,
    count: int,
) -> bool {
    &&& 0 <= count <= width * height
    &&& cells_fine(x_edges, y_edges, solid, width, height, count)
    &&& boundary_keys(x_edges, y_edges, solid, width, height, count).len() > MAX_BOUNDARY_EDGES
}

/// Cell `c` is the first too-fine cell, reached within the edge limit.
pub open spec fn stops_at(
    x_edges: Seq<i64>,
    y_edges: Seq<i64>,
    solid: Seq<u8>,
    width: int,
    height: int,
    c: int,
) -> bool {
    &&& 0 <= c < width * height
    &&& cells_fine(x_edges, y_edges, solid, width, height, c)
    &&& cell_too_fine(x_edges, y_edges, solid, width, height, c % width, c / width)
    &&& boundary_keys(x_edges, y_edges, solid, width, height, c).len() <= MAX_BOUNDARY_EDGES
}

/// The corner reported for a too-fine cell: its first chamfered corner.
pub open spec fn reported_corner(
    x_edges: Seq<i64>,
    y_edges: Seq<i64>,
    solid: Seq<u8>,
    width: int,
    height: int,
    c: int,
) -> (int, int) {
    let (x, y) = (c % width, c / width);
    corner_vertex(grid_cell(x_edges, y_edges, x, y), corner_at(first_clipped(solid, width, height, x, y)))
}

/// Why boundary extraction stops: the boundary of fine cells outgrew the edge
/// limit, or the first too-fine cell was reached within it and its first
/// chamfered corner is reported.
pub open spec fn boundary_refusal(
    x_edges: Seq<i64>,
    y_edges: Seq<i64>,
    solid: Seq<u8>,
    width: int,
    height: int,
    error: PlanarError,
) -> bool {
    match error {
        PlanarError::TooManyBoundaryEdges { required, max } => {
            &&& required == MAX_BOUNDARY_EDGES + 1
            &&& max == MAX_BOUNDARY_EDGES
            &&& exists|count: int| #[trigger] overflows_at(x_edges, y_edges, solid, width, height, count)
        },
        PlanarError::DiagonalContactTooFine { x, y } => exists|c: int|
            #[trigger] stops_at(x_edges, y_edges, solid, width, height, c) && (x as int, y as int)
                == reported_corner(x_edges, y_edges, solid, width, height, c),
        _ => false,
    }
}

/// Reaching a too-fine cell explains the refusal and rules out success.
proof fn lemma_stop_refusal(
    x_edges: Seq<i64>,
    y_edges: Seq<i64>,
    solid: Seq<u8>,
    width: int,
    height: int,
    c: int,
    error: PlanarError,
)
    requires
        stops_at(x_edges, y_edges, solid, width, height, c),
        coordinate_in_range(reported_corner(x_edges, y_edges, solid, width, height, c).0),
        coordinate_in_range(reported_corner(x_edges, y_edges, solid, width, height, c).1),
        error == (PlanarError::DiagonalContactTooFine {
            x: reported_corner(x_edges, y_edges, solid, width, height, c).0 as i64,
            y: reported_corner(x_edges, y_edges, solid, width, height, c).1 as i64,
        }),
    ensures
        boundary_refusal(x_edges, y_edges, solid, width, height, error),
        !cells_fine(x_edges, y_edges, solid, width, height, width * height),
{
    assert(cell_too_fine(x_edges, y_edges, solid, width, height, c % width, c / width));
}

/// Outgrowing the edge limit explains the refusal and rules out success.
proof fn lemma_overflow_refusal(
    x_edges: Seq<i64>,
    y_edges: Seq<i64>,
    solid: Seq<u8>,
    width: int,
    height: int,
    count: int,
    error: PlanarError,
)
    requires
        overflows_at(x_edges, y_edges, solid, width, height, count),
        error == (PlanarError::TooManyBoundaryEdges {
            required: (MAX_BOUNDARY_EDGES + 1) as usize,
            max: MAX_BOUNDARY_EDGES,
        }),
    ensures
        boundary_refusal(x_edges, y_edges, solid, width, height, error),
        boundary_keys(x_edges, y_edges, solid, width, height, width * height).len() > MAX_BOUNDARY_EDGES,
{
    lemma_boundary_grows(x_edges, y_edges, solid, width, height, count, width * height);
}

/// The first chamfered corner of cell `(x, y)`, in counter-clockwise order.
pub open spec fn first_clipped(solid: Seq<u8>, width: int, height: int, x: int, y: int) -> int {
    if corner_clipped(solid, width, height, x, y, 0) {
        0
    } else if corner_clipped(solid, width, height, x, y, 1) {
        1
    } else if corner_clipped(solid, width, height, x, y, 2) {
        2
    } else {
        3
    }
}

/// Appending an edge appends its key.
proof fn lemma_edge_keys_push(edges: Seq<DirectedEdge>, edge: DirectedEdge)
    ensures
        edge_keys(edges.push(edge)) == edge_keys(edges).push(edge_key(edge)),
{
    assert(edge_keys(edges.push(edge)) =~= edge_keys(edges).push(edge_key(edge)));
}

/// Emits the chamfered boundary of one solid cell, whose corners are given.
fn push_cell_edges(
    edges: &mut Vec<DirectedEdge>,
    corners: [CornerPoints; 4],
    open_sides: [bool; 4],
    Ghost(x_edges): Ghost<Seq<i64>>,
    Ghost(y_edges): Ghost<Seq<i64>>,
    Ghost(solid): Ghost<Seq<u8>>,
    Ghost(width): Ghost<int>,
    Ghost(height): Ghost<int>,
    Ghost(x): Ghost<int>,
    Ghost(y): Ghost<int>,
) -> (result: Result<(), PlanarError>)
    requires
        old(edges)@.len() <= MAX_BOUNDARY_EDGES,
        edges_valid(old(edges)@),
        cell_valid(grid_cell(x_edges, y_edges, x, y)),
        forall|k: int|
            #![trigger corners[k]]
            #![trigger open_sides[k]]
            0 <= k < 4 ==> open_sides[k] == side_open(solid, width, height, x, y, k)
                && corners[k].clipped == corner_clipped(solid, width, height, x, y, k)
                && point_key(corners[k].incoming) == cell_corner(
                x_edges,
                y_edges,
                solid,
                width,
                height,
                x,
                y,
                k,
            ).0 && point_key(corners[k].outgoing) == cell_corner(
                x_edges,
                y_edges,
                solid,
                width,
                height,
                x,
                y,
                k,
            ).1 && point_in_cell(corners[k].incoming, grid_cell(x_edges, y_edges, x, y))
                && point_in_cell(corners[k].outgoing, grid_cell(x_edges, y_edges, x, y)),
    ensures
        edges_valid(final(edges)@),
        final(edges)@.len() <= MAX_BOUNDARY_EDGES,
        result is Ok ==> edge_keys(final(edges)@) == edge_keys(old(edges)@) + cell_parts(
            x_edges,
            y_edges,
            solid,
            width,
            height,
            x,
            y,
            8,
        ),
        result is Err ==> result == Err::<(), PlanarError>(
            PlanarError::TooManyBoundaryEdges {
                required: (MAX_BOUNDARY_EDGES + 1) as usize,
                max: MAX_BOUNDARY_EDGES,
            },
        ) && edge_keys(old(edges)@).len() + cell_parts(x_edges, y_edges, solid, width, height, x, y, 8).len()
            > MAX_BOUNDARY_EDGES,
{
    let ghost base = edge_keys(edges@);
    let ghost rect = grid_cell(x_edges, y_edges, x, y);
    let mut side: usize = 0;
    while side < 4
        invariant
            0 <= side <= 4,
            cell_valid(rect),
            rect == grid_cell(x_edges, y_edges, x, y),
            forall|k: int|
            #![trigger corners[k]]
            #![trigger open_sides[k]]
                0 <= k < 4 ==> open_sides[k] == side_open(solid, width, height, x, y, k)
                    && corners[k].clipped == corner_clipped(solid, width, height, x, y, k)
                    && point_key(corners[k].incoming) == cell_corner(
                    x_edges,
                    y_edges,
                    solid,
                    width,
                    height,
                    x,
                    y,
                    k,
                ).0 && point_key(corners[k].outgoing) == cell_corner(
                    x_edges,
                    y_edges,
                    solid,
                    width,
                    height,
                    x,
                    y,
                    k,
                ).1 && point_in_cell(corners[k].incoming, grid_cell(x_edges, y_edges, x, y))
                    && point_in_cell(corners[k].outgoing, grid_cell(x_edges, y_edges, x, y)),
            edges@.len() <= MAX_BOUNDARY_EDGES,
            edges_valid(edges@),
            edge_keys(edges@) == base + cell_parts(x_edges, y_edges, solid, width, height, x, y, 2 * side),
            base == edge_keys(old(edges)@),
        decreases 4 - side,
    {
        let next = if side == 3 {
            0
        } else {
            side + 1
        };
        let ghost before = edges@;
        assert(point_key(corners[side as int].incoming) == cell_corner(x_edges, y_edges, solid, width, height, x, y, side as int).0);
        assert(point_key(corners[next as int].incoming) == cell_corner(x_edges, y_edges, solid, width, height, x, y, next as int).0);
        assert(point_in_cell(corners[side as int].incoming, rect));
        assert(point_in_cell(corners[next as int].incoming, rect));
        if open_sides[side] {
            let edge = DirectedEdge::new(corners[side].outgoing, corners[next].incoming);
            match push_edge(edges, edge) {
                Ok(()) => {},
                Err(error) => {
                    proof {
                        lemma_point_pairs(edge.start, edge.end);
                        assert(edges@.len() == MAX_BOUNDARY_EDGES);
                        assert(edge_keys(edges@).len() == edges@.len());
                        assert(cell_part(x_edges, y_edges, solid, width, height, x, y, 2 * side as int).len() == 1);
                        assert(cell_parts(x_edges, y_edges, solid, width, height, x, y, 2 * side as int + 1).len()
                            == cell_parts(x_edges, y_edges, solid, width, height, x, y, 2 * side as int).len() + 1);
                        lemma_parts_grow(x_edges, y_edges, solid, width, height, x, y, 2 * side as int + 1, 8);
                        assert(base == edge_keys(old(edges)@));
                        assert(edge_keys(edges@) == base + cell_parts(x_edges, y_edges, solid, width, height, x, y, 2 * side as int));
                        assert(base.len() + cell_parts(x_edges, y_edges, solid, width, height, x, y, 2 * side as int).len() == MAX_BOUNDARY_EDGES);
                    }
                    return Err(error);
                },
            }
            proof {
                lemma_point_pairs(edge.start, edge.end);
                if edge.start != edge.end {
                    lemma_edge_keys_push(before, edge);
                }
            }
        }
        proof {
            assert(edge_keys(edges@) =~= base + cell_parts(x_edges, y_edges, solid, width, height, x, y, 2 * side + 1));
        }
        let ghost middle = edges@;
        if corners[next].clipped {
            let edge = DirectedEdge::new(corners[next].incoming, corners[next].outgoing);
            match push_edge(edges, edge) {
                Ok(()) => {},
                Err(error) => {
                    proof {
                        lemma_point_pairs(edge.start, edge.end);
                        assert(edges@.len() == MAX_BOUNDARY_EDGES);
                        assert(edge_keys(edges@).len() == edges@.len());
                        assert(cell_part(x_edges, y_edges, solid, width, height, x, y, 2 * side as int + 1).len() == 1);
                        assert(cell_parts(x_edges, y_edges, solid, width, height, x, y, 2 * side as int + 2).len()
                            == cell_parts(x_edges, y_edges, solid, width, height, x, y, 2 * side as int + 1).len() + 1);
                        lemma_parts_grow(x_edges, y_edges, solid, width, height, x, y, 2 * side as int + 2, 8);
                        assert(base == edge_keys(old(edges)@));
                        assert(edge_keys(edges@) == base + cell_parts(x_edges, y_edges, solid, width, height, x, y, 2 * side as int + 1));
                        assert(base.len() + cell_parts(x_edges, y_edges, solid, width, height, x, y, 2 * side as int + 1).len() == MAX_BOUNDARY_EDGES);
                    }
                    return Err(error);
                },
            }
            proof {
                lemma_point_pairs(edge.start, edge.end);
                if edge.start != edge.end {
                    lemma_edge_keys_push(middle, edge);
                }
            }
        }
        proof {
            assert(edge_keys(edges@) =~= base + cell_parts(x_edges, y_edges, solid, width, height, x, y, 2 * side + 2));
        }
        side += 1;
    }
    Ok(())
}

/// Distinct points have distinct keys.
proof fn lemma_point_pairs(a: PointMicrometers, b: PointMicrometers)
    ensures
        (a == b) <==> (point_key(a) == point_key(b)),
{
    if point_key(a) == point_key(b) {
        PointMicrometers::lemma_coordinates_determine(a, b);
    }
}

/// Later parts only add to the boundary of a cell.
proof fn lemma_parts_grow(
    x_edges: Seq<i64>,
    y_edges: Seq<i64>,
    solid: Seq<u8>,
    width: int,
    height: int,
    x: int,
    y: int,
    from: int,
    to: int,
)
    requires
        0 <= from <= to,
    ensures
        cell_parts(x_edges, y_edges, solid, width, height, x, y, from).len() <= cell_parts(
            x_edges,
            y_edges,
            solid,
            width,
            height,
            x,
            y,
            to,
        ).len(),
    decreases to - from,
{
    if from < to {
        lemma_parts_grow(x_edges, y_edges, solid, width, height, x, y, from, to - 1);
    }
}

/// Later cells only add to the boundary.
proof fn lemma_boundary_grows(
    x_edges: Seq<i64>,
    y_edges: Seq<i64>,
    solid: Seq<u8>,
    width: int,
    height: int,
    from: int,
    to: int,
)
    requires
        0 <= from <= to,
    ensures
        boundary_keys(x_edges, y_edges, solid, width, height, from).len() <= boundary_keys(
            x_edges,
            y_edges,
            solid,
            width,
            height,
            to,
        ).len(),
    decreases to - from,
{
    if from < to {
        lemma_boundary_grows(x_edges, y_edges, solid, width, height, from, to - 1);
    }
}

/// Emits the directed boundary of the union of solid cells, counter-clockwise
/// around solid area. Where two solid cells meet only at a corner, both are
/// chamfered there so that the traced contours do not touch.
///
/// Cells are visited in row-major order; each solid cell emits its open sides
/// and chamfers counter-clockwise from its bottom side. The walk stops at the
/// first solid cell with a chamfer too small to cut, or when the boundary
/// exceeds [`MAX_BOUNDARY_EDGES`].
pub fn substrate_boundary_edges(
    x_edges: &[i64],
    y_edges: &[i64],
    solid: &[u8],
    width: usize,
    height: usize,
) -> (result: Result<Vec<DirectedEdge>, PlanarError>)
    requires
        solid@.len() == width * height,
        is_canonical_mask(solid@),
        x_edges@.len() == width + 1,
        y_edges@.len() == height + 1,
        breakpoints_valid(x_edges@),
        breakpoints_valid(y_edges@),
    ensures
        ({
            let (xs, ys, cells, w, h) = (x_edges@, y_edges@, solid@, width as int, height as int);
            let total = w * h;
            &&& result matches Ok(edges) ==> {
                &&& edges@.len() <= MAX_BOUNDARY_EDGES
                &&& edges_valid(edges@)
                &&& cells_fine(xs, ys, cells, w, h, total)
                &&& edge_keys(edges@) == boundary_keys(xs, ys, cells, w, h, total)
            }
            &&& cells_fine(xs, ys, cells, w, h, total) && boundary_keys(xs, ys, cells, w, h, total).len()
                <= MAX_BOUNDARY_EDGES ==> result is Ok
            &&& result matches Err(error) ==> boundary_refusal(xs, ys, cells, w, h, error)
        }),
{
    proof {
        lemma_breakpoints_count(x_edges@);
        lemma_breakpoints_count(y_edges@);
    }
    let ghost xs = x_edges@;
    let ghost ys = y_edges@;
    let ghost cells = solid@;
    let ghost w = width as int;
    let ghost h = height as int;
    let mut edges: Vec<DirectedEdge> = Vec::new();
    let mut y: usize = 0;
    while y < height
        invariant
            solid@.len() == width * height,
            is_canonical_mask(solid@),
            x_edges@.len() == width + 1,
            y_edges@.len() == height + 1,
            breakpoints_valid(x_edges@),
            breakpoints_valid(y_edges@),
            xs == x_edges@,
            ys == y_edges@,
            cells == solid@,
            w == width,
            h == height,
            0 <= y <= height,
            width <= 1_000_000_000,
            height <= 1_000_000_000,
            edges@.len() <= MAX_BOUNDARY_EDGES,
            edges_valid(edges@),
            cells_fine(xs, ys, cells, w, h, y * w),
            edge_keys(edges@) == boundary_keys(xs, ys, cells, w, h, y * w),
        decreases height - y,
    {
        let mut x: usize = 0;
        while x < width
            invariant
                solid@.len() == width * height,
                is_canonical_mask(solid@),
                x_edges@.len() == width + 1,
                y_edges@.len() == height + 1,
                breakpoints_valid(x_edges@),
                breakpoints_valid(y_edges@),
                xs == x_edges@,
                ys == y_edges@,
                cells == solid@,
                w == width,
                h == height,
                0 <= y < height,
                0 <= x <= width,
                width <= 1_000_000_000,
                height <= 1_000_000_000,
                edges@.len() <= MAX_BOUNDARY_EDGES,
                edges_valid(edges@),
                cells_fine(xs, ys, cells, w, h, y * w + x),
                edge_keys(edges@) == boundary_keys(xs, ys, cells, w, h, y * w + x),
            decreases width - x,
        {
            let ghost c = y * w + x;
            proof {
                crate::document::lemma_row_major_index_bound(
                    x as int,
                    y as int,
                    width as int,
                    height as int,
                );
                lemma_row_major_position(c, x as int, y as int, w);
            }
            let length = solid.len();
            if solid[y * width + x] != 0 {
                let rectangle = CellRectangle {
                    x0: x_edges[x],
                    x1: x_edges[x + 1],
                    y0: y_edges[y],
                    y1: y_edges[y + 1],
                };
                assert(x_edges@[x as int] < x_edges@[x + 1]);
                assert(y_edges@[y as int] < y_edges@[y + 1]);
                assert(coordinate_in_range(x_edges@[x as int] as int));
                assert(coordinate_in_range(x_edges@[x + 1] as int));
                assert(coordinate_in_range(y_edges@[y as int] as int));
                assert(coordinate_in_range(y_edges@[y + 1] as int));
                assert(rectangle == grid_cell(xs, ys, x as int, y as int));
                let cx = x as i64;
                let cy = y as i64;
                let bottom_open = !solid_at(solid, width, height, cx, cy - 1);
                let right_open = !solid_at(solid, width, height, cx + 1, cy);
                let top_open = !solid_at(solid, width, height, cx, cy + 1);
                let left_open = !solid_at(solid, width, height, cx - 1, cy);
                let clip_bottom_left = bottom_open && left_open && solid_at(solid, width, height, cx - 1, cy - 1);
                let clip_bottom_right = bottom_open && right_open && solid_at(solid, width, height, cx + 1, cy - 1);
                let clip_top_right = top_open && right_open && solid_at(solid, width, height, cx + 1, cy + 1);
                let clip_top_left = top_open && left_open && solid_at(solid, width, height, cx - 1, cy + 1);
                proof {
                    assert(spec_solid_at(cells, w, h, x as int, y as int));
                    assert(clip_bottom_left == corner_clipped(cells, w, h, x as int, y as int, 0));
                    assert(clip_bottom_right == corner_clipped(cells, w, h, x as int, y as int, 1));
                    assert(clip_top_right == corner_clipped(cells, w, h, x as int, y as int, 2));
                    assert(clip_top_left == corner_clipped(cells, w, h, x as int, y as int, 3));
                }
                let ghost rect = grid_cell(xs, ys, x as int, y as int);
                let corners = match cell_corners(
                    rectangle,
                    clip_bottom_left,
                    clip_bottom_right,
                    clip_top_right,
                    clip_top_left,
                ) {
                    Ok(corners) => corners,
                    Err(error) => {
                        proof {
                            lemma_too_fine_cell(xs, ys, cells, w, h, x as int, y as int);
                            assert(cell_too_fine(xs, ys, cells, w, h, c % w, c / w));
                            assert(c < w * h);
                            assert(edge_keys(edges@).len() == edges@.len());
                            assert(stops_at(xs, ys, cells, w, h, c));
                            assert(first_set(clip_bottom_left, clip_bottom_right, clip_top_right, clip_top_left)
                                == first_clipped(cells, w, h, x as int, y as int));
                            assert(reported_corner(xs, ys, cells, w, h, c) == corner_vertex(
                                rectangle,
                                corner_at(first_set(clip_bottom_left, clip_bottom_right, clip_top_right, clip_top_left)),
                            ));
                            lemma_stop_refusal(xs, ys, cells, w, h, c, error);
                        }
                        return Err(error);
                    },
                };
                let open_sides = [bottom_open, right_open, top_open, left_open];
                proof {
                    lemma_clean_cell(xs, ys, cells, w, h, x as int, y as int);
                    assert(!cell_too_fine(xs, ys, cells, w, h, c % w, c / w));
                    assert forall|k: int|
                        #![trigger corners[k]]
                        #![trigger open_sides[k]]
                        0 <= k < 4 implies open_sides[k] == side_open(cells, w, h, x as int, y as int, k)
                            && corners[k].clipped == corner_clipped(cells, w, h, x as int, y as int, k)
                            && point_key(corners[k].incoming) == cell_corner(xs, ys, cells, w, h, x as int, y as int, k).0
                            && point_key(corners[k].outgoing) == cell_corner(xs, ys, cells, w, h, x as int, y as int, k).1
                            && point_in_cell(corners[k].incoming, grid_cell(xs, ys, x as int, y as int))
                            && point_in_cell(corners[k].outgoing, grid_cell(xs, ys, x as int, y as int)) by {
                        if k == 0 {
                        } else if k == 1 {
                        } else if k == 2 {
                        } else {
                        }
                    }
                }
                let pushed = push_cell_edges(
                    &mut edges,
                    corners,
                    open_sides,
                    Ghost(xs),
                    Ghost(ys),
                    Ghost(cells),
                    Ghost(w),
                    Ghost(h),
                    Ghost(x as int),
                    Ghost(y as int),
                );
                if let Err(error) = pushed {
                    proof {
                        assert(c < w * h);
                        assert(cells_fine(xs, ys, cells, w, h, c + 1));
                        assert(boundary_keys(xs, ys, cells, w, h, c + 1).len() > MAX_BOUNDARY_EDGES);
                        assert(overflows_at(xs, ys, cells, w, h, c + 1));
                        lemma_overflow_refusal(xs, ys, cells, w, h, c + 1, error);
                    }
                    return Err(error);
                }
            } else {
                proof {
                    assert(!spec_solid_at(cells, w, h, x as int, y as int));
                }
            }
            proof {
                assert(cells_fine(xs, ys, cells, w, h, c + 1));
                assert(edge_keys(edges@) =~= boundary_keys(xs, ys, cells, w, h, c + 1));
            }
            x += 1;
        }
        proof {
            assert(y * w + width == (y + 1) * w) by (nonlinear_arith)
                requires
                    w == width,
            ;
        }
        y += 1;
    }
    proof {
        assert(height * w == w * h) by (nonlinear_arith)
            requires
                h == height,
        ;
    }
    Ok(edges)
}

/// The first set flag among four, in order.
pub open spec fn first_set(c0: bool, c1: bool, c2: bool, c3: bool) -> int {
    if c0 {
        0
    } else if c1 {
        1
    } else if c2 {
        2
    } else {
        3
    }
}

/// The four corners of a cell, counter-clockwise from the bottom left, each
/// chamfered when its flag is set.
fn cell_corners(rectangle: CellRectangle, c0: bool, c1: bool, c2: bool, c3: bool) -> (result: Result<
    [CornerPoints; 4],
    PlanarError,
>)
    requires
        cell_valid(rectangle),
    ensures
        result matches Ok(corners) ==> {
            &&& !(chamfer_too_fine(rectangle) && (c0 || c1 || c2 || c3))
            &&& forall|k: int|
                #![trigger corners[k]]
                0 <= k < 4 ==> {
                    let clipped = if k == 0 {
                        c0
                    } else if k == 1 {
                        c1
                    } else if k == 2 {
                        c2
                    } else {
                        c3
                    };
                    &&& corners[k].clipped == clipped
                    &&& point_key(corners[k].incoming) == corner_pair(rectangle, corner_at(k), clipped).0
                    &&& point_key(corners[k].outgoing) == corner_pair(rectangle, corner_at(k), clipped).1
                    &&& point_in_cell(corners[k].incoming, rectangle)
                    &&& point_in_cell(corners[k].outgoing, rectangle)
                }
        },
        result matches Err(error) ==> {
            &&& chamfer_too_fine(rectangle)
            &&& (c0 || c1 || c2 || c3)
            &&& error == PlanarError::DiagonalContactTooFine {
                x: corner_vertex(rectangle, corner_at(first_set(c0, c1, c2, c3))).0 as i64,
                y: corner_vertex(rectangle, corner_at(first_set(c0, c1, c2, c3))).1 as i64,
            }
        },
{
    let bottom_left = corner_points(rectangle, CellCorner::BottomLeft, c0)?;
    let bottom_right = corner_points(rectangle, CellCorner::BottomRight, c1)?;
    let top_right = corner_points(rectangle, CellCorner::TopRight, c2)?;
    let top_left = corner_points(rectangle, CellCorner::TopLeft, c3)?;
    let corners = [bottom_left, bottom_right, top_right, top_left];
    assert forall|k: int| #![trigger corners[k]] 0 <= k < 4 implies ({
        let clipped = if k == 0 {
            c0
        } else if k == 1 {
            c1
        } else if k == 2 {
            c2
        } else {
            c3
        };
        &&& corners[k].clipped == clipped
        &&& point_key(corners[k].incoming) == corner_pair(rectangle, corner_at(k), clipped).0
        &&& point_key(corners[k].outgoing) == corner_pair(rectangle, corner_at(k), clipped).1
        &&& point_in_cell(corners[k].incoming, rectangle)
        &&& point_in_cell(corners[k].outgoing, rectangle)
    }) by {
        if k == 0 {
        } else if k == 1 {
        } else if k == 2 {
        } else {
        }
    }
    Ok(corners)
}

/// A solid cell with a clipped corner and a collapsing chamfer is too fine.
proof fn lemma_too_fine_cell(
    x_edges: Seq<i64>,
    y_edges: Seq<i64>,
    solid: Seq<u8>,
    width: int,
    height: int,
    x: int,
    y: int,
)
    requires
        spec_solid_at(solid, width, height, x, y),
        chamfer_too_fine(grid_cell(x_edges, y_edges, x, y)),
        corner_clipped(solid, width, height, x, y, 0) || corner_clipped(solid, width, height, x, y, 1)
            || corner_clipped(solid, width, height, x, y, 2) || corner_clipped(
            solid,
            width,
            height,
            x,
            y,
            3,
        ),
    ensures
        cell_too_fine(x_edges, y_edges, solid, width, height, x, y),
{
    let k = first_clipped(solid, width, height, x, y);
    assert(corner_clipped(solid, width, height, x, y, k));
}

/// A cell none of whose clipped corners collapses is not too fine.
proof fn lemma_clean_cell(
    x_edges: Seq<i64>,
    y_edges: Seq<i64>,
    solid: Seq<u8>,
    width: int,
    height: int,
    x: int,
    y: int,
)
    requires
        forall|k: int|
            0 <= k < 4 ==> !(#[trigger] corner_clipped(solid, width, height, x, y, k) && chamfer_too_fine(
                grid_cell(x_edges, y_edges, x, y),
            )),
    ensures
        !cell_too_fine(x_edges, y_edges, solid, width, height, x, y),
{
}

/// The row-major index `c` of `(x, y)` recovers its column and row.
proof fn lemma_row_major_position(c: int, x: int, y: int, width: int)
    requires
        0 <= x < width,
        0 <= y,
        c == y * width + x,
    ensures
        c % width == x,
        c / width == y,
{
    vstd::arithmetic::div_mod::lemma_fundamental_div_mod_converse(c, width, y, x);
}

/// An undirected segment key: its lexicographically smaller endpoint first.
pub type SegmentKey = ((i64, i64), (i64, i64));

/// A key names a non-degenerate in-range segment in normalized order.
pub open spec fn segment_key_valid(key: SegmentKey) -> bool {
    &&& (key.0.0 < key.1.0 || (key.0.0 == key.1.0 && key.0.1 < key.1.1))
    &&& coordinate_in_range(key.0.0 as int)
    &&& coordinate_in_range(key.0.1 as int)
    &&& coordinate_in_range(key.1.0 as int)
    &&& coordinate_in_range(key.1.1 as int)
}

/// Every key in the winding map is valid and its winding is nonzero.
pub open spec fn segments_valid(segments: Map<SegmentKey, i8>) -> bool {
    forall|key: SegmentKey| #[trigger] segments.contains_key(key) ==> segment_key_valid(key)
        && segments[key] != 0
}

/// Every recorded key is valid.
pub open spec fn keys_valid(keys: Seq<DirectedEdge>) -> bool {
    forall|i: int|
        0 <= i < keys.len() ==> segment_key_valid(
            (
                ((#[trigger] keys[i]).start.spec_x(), keys[i].start.spec_y()),
                (keys[i].end.spec_x(), keys[i].end.spec_y()),
            ),
        )
}

/// An edge given by its endpoint coordinates `(x0, y0, x1, y1)`.
pub type EdgeQuad = (int, int, int, int);

/// Lexicographic order on integer points.
pub open spec fn pair_lt(a: (int, int), b: (int, int)) -> bool {
    a.0 < b.0 || (a.0 == b.0 && a.1 < b.1)
}

/// The endpoints of an edge in lexicographic order.
pub open spec fn quad_segment(edge: EdgeQuad) -> ((int, int), (int, int)) {
    if pair_lt((edge.0, edge.1), (edge.2, edge.3)) {
        ((edge.0, edge.1), (edge.2, edge.3))
    } else {
        ((edge.2, edge.3), (edge.0, edge.1))
    }
}

/// `+1` for an edge running from its smaller endpoint to its larger one, else `-1`.
pub open spec fn quad_direction(edge: EdgeQuad) -> int {
    if pair_lt((edge.0, edge.1), (edge.2, edge.3)) {
        1
    } else {
        -1
    }
}

/// The endpoints a segment key names.
pub open spec fn key_segment(key: SegmentKey) -> ((int, int), (int, int)) {
    ((key.0.0 as int, key.0.1 as int), (key.1.0 as int, key.1.1 as int))
}

/// The winding one edge adds to a segment: its direction along the segment,
/// or nothing for another segment.
pub open spec fn winding_step(edge: EdgeQuad, key: SegmentKey) -> int {
    if quad_segment(edge) == key_segment(key) {
        quad_direction(edge)
    } else {
        0
    }
}

/// The net winding of a sequence of edges along a segment.
pub open spec fn winding(edges: Seq<EdgeQuad>, key: SegmentKey) -> int
    decreases edges.len(),
{
    if edges.len() == 0 {
        0
    } else {
        winding(edges.drop_last(), key) + winding_step(edges.last(), key)
    }
}

/// The footprint perimeter counter-clockwise, cut at every breakpoint: bottom
/// left to right, right side upward, top right to left, left side downward.
pub open spec fn perimeter_quads(x_edges: Seq<i64>, y_edges: Seq<i64>, width: int, height: int) -> Seq<EdgeQuad> {
    let nx = x_edges.len() as int;
    let ny = y_edges.len() as int;
    Seq::new((nx - 1) as nat, |i: int| (x_edges[i] as int, 0, x_edges[i + 1] as int, 0)) + Seq::new(
        (ny - 1) as nat,
        |j: int| (width, y_edges[j] as int, width, y_edges[j + 1] as int),
    ) + Seq::new(
        (nx - 1) as nat,
        |i: int| (x_edges[nx - 1 - i] as int, height, x_edges[nx - 2 - i] as int, height),
    ) + Seq::new((ny - 1) as nat, |j: int| (0, y_edges[ny - 1 - j] as int, 0, y_edges[ny - 2 - j] as int))
}

/// The edges reversed, as quadruples.
pub open spec fn reversed_quads(edges: Seq<DirectedEdge>) -> Seq<EdgeQuad> {
    edges.map_values(
        |edge: DirectedEdge|
            (
                edge.end.spec_x() as int,
                edge.end.spec_y() as int,
                edge.start.spec_x() as int,
                edge.start.spec_y() as int,
            ),
    )
}

/// What the fill boundary is built from: the footprint perimeter and the
/// reversed substrate boundary.
pub open spec fn fill_inputs(
    x_edges: Seq<i64>,
    y_edges: Seq<i64>,
    width: int,
    height: int,
    substrate_edges: Seq<DirectedEdge>,
) -> Seq<EdgeQuad> {
    perimeter_quads(x_edges, y_edges, width, height) + reversed_quads(substrate_edges)
}

/// The map holds exactly the valid segments with nonzero winding in `processed`,
/// each with that winding.
pub open spec fn tracks(segments: Map<SegmentKey, i8>, processed: Seq<EdgeQuad>) -> bool {
    &&& segments_valid(segments)
    &&& forall|key: SegmentKey|
        #![trigger segments.contains_key(key)]
        #![trigger winding(processed, key)]
        segment_key_valid(key) ==> (segments.contains_key(key) <==> winding(processed, key) != 0) && (
        segments.contains_key(key) ==> segments[key] as int == winding(processed, key))
}

/// The segment key a recorded edge names.
pub open spec fn recorded_key(edge: DirectedEdge) -> SegmentKey {
    ((edge.start.spec_x(), edge.start.spec_y()), (edge.end.spec_x(), edge.end.spec_y()))
}

/// Every segment in the map was recorded.
pub open spec fn covers(segments: Map<SegmentKey, i8>, inserted: Seq<DirectedEdge>) -> bool {
    forall|key: SegmentKey|
        #[trigger] segments.contains_key(key) ==> exists|i: int|
            0 <= i < inserted.len() && recorded_key(#[trigger] inserted[i]) == key
}

/// An edge's winding reaches only its own segment.
proof fn lemma_winding_push(edges: Seq<EdgeQuad>, edge: EdgeQuad, key: SegmentKey)
    ensures
        winding(edges.push(edge), key) == winding(edges, key) + winding_step(edge, key),
{
    assert(edges.push(edge).drop_last() =~= edges);
}

/// The segment key of an edge quadruple, endpoints in lexicographic order.
pub open spec fn quad_key(quad: EdgeQuad) -> SegmentKey {
    let segment = quad_segment(quad);
    ((segment.0.0 as i64, segment.0.1 as i64), (segment.1.0 as i64, segment.1.1 as i64))
}

/// The valid segments with nonzero winding in `processed`.
pub open spec fn wound_segments(processed: Seq<EdgeQuad>) -> Set<SegmentKey> {
    Set::new(|key: SegmentKey| segment_key_valid(key) && winding(processed, key) != 0)
}

/// Adding `quad` after `processed` succeeds: the edge has length, its segment
/// is already wound or there is room for one more, and the new winding fits
/// in an `i8`.
pub open spec fn step_admitted(processed: Seq<EdgeQuad>, quad: EdgeQuad) -> bool {
    &&& (quad.0, quad.1) != (quad.2, quad.3)
    &&& winding(processed, quad_key(quad)) != 0 || wound_segments(processed).len() < MAX_BOUNDARY_EDGES
    &&& -128 <= winding(processed, quad_key(quad)) + quad_direction(quad) <= 127
}

/// Every edge of `quads` can be added after those before it.
pub open spec fn steps_admitted(quads: Seq<EdgeQuad>) -> bool {
    forall|k: int| 0 <= k < quads.len() ==> #[trigger] step_admitted(quads.take(k), quads[k])
}

/// While the map tracks `processed`, its keys are the wound segments.
proof fn lemma_tracked_keys(segments: Map<SegmentKey, i8>, processed: Seq<EdgeQuad>)
    requires
        tracks(segments, processed),
    ensures
        segments.dom() == wound_segments(processed),
{
    assert forall|key: SegmentKey| segments.dom().contains(key) <==> wound_segments(processed).contains(key) by {
        if segments.contains_key(key) {
            assert(segment_key_valid(key));
        }
    }
    assert(segments.dom() =~= wound_segments(processed));
}

/// Adds a directed edge's winding to its undirected segment; opposite
/// windings cancel and a segment whose winding returns to zero is removed.
pub fn add_or_cancel(
    segments: &mut std::collections::BTreeMap<SegmentKey, i8>,
    inserted: &mut Vec<DirectedEdge>,
    edge: DirectedEdge,
    Ghost(processed): Ghost<Seq<EdgeQuad>>,
) -> (result: Result<(), PlanarError>)
    requires
        point_in_range(edge.start),
        point_in_range(edge.end),
        tracks(old(segments)@, processed),
        covers(old(segments)@, old(inserted)@),
        keys_valid(old(inserted)@),
    ensures
        segments_valid(final(segments)@),
        keys_valid(final(inserted)@),
        covers(final(segments)@, final(inserted)@),
        result is Ok ==> tracks(final(segments)@, processed.push(edge_key(edge))),
        edge.start == edge.end ==> result == Err::<(), PlanarError>(
            PlanarError::InvalidTopology("a boundary edge has zero length"),
        ),
        edge.start != edge.end && result is Err ==> result matches Err(PlanarError::TooManyBoundaryEdges { .. })
            || result == Err::<(), PlanarError>(PlanarError::ArithmeticOverflow),
        result is Ok <==> step_admitted(processed, edge_key(edge)),
{
    proof {
        lemma_tracked_keys(old(segments)@, processed);
        if edge.start.spec_x() == edge.end.spec_x() && edge.start.spec_y() == edge.end.spec_y() {
            PointMicrometers::lemma_coordinates_determine(edge.start, edge.end);
        }
    }
    if edge.start.same(edge.end) {
        return Err(PlanarError::InvalidTopology("a boundary edge has zero length"));
    }
    let forward = point_less(edge.start, edge.end);
    let (low, high, delta): (PointMicrometers, PointMicrometers, i8) = if forward {
        (edge.start, edge.end, 1)
    } else {
        (edge.end, edge.start, -1)
    };
    proof {
        if !forward {
            PointMicrometers::lemma_le_total(edge.start, edge.end);
        }
    }
    let key: SegmentKey = ((low.x(), low.y()), (high.x(), high.y()));
    assert(segment_key_valid(key)) by {
        if key.0.0 == key.1.0 && key.0.1 == key.1.1 {
            PointMicrometers::lemma_coordinates_determine(low, high);
        }
    }
    let ghost quad = edge_key(edge);
    proof {
        if key_segment(key) == ((quad.0, quad.1), (quad.0, quad.1)) {
            PointMicrometers::lemma_coordinates_determine(edge.start, edge.end);
        }
        assert(quad_segment(quad) == key_segment(key));
        assert(quad_key(quad) == key);
        assert(quad_direction(quad) == delta as int);
        assert forall|other: SegmentKey| segment_key_valid(other) && other != key implies #[trigger] winding_step(
            quad,
            other,
        ) == 0 by {
            if quad_segment(quad) == key_segment(other) {
                assert(key_segment(other) == key_segment(key));
            }
        }
    }
    let at_capacity = segments.len() >= MAX_BOUNDARY_EDGES;
    let current = match segments.get(&key) {
        Some(winding) => Some(*winding),
        None => None,
    };
    let ghost before = segments@;
    match current {
        None => {
            if at_capacity {
                return Err(
                    PlanarError::TooManyBoundaryEdges {
                        required: MAX_BOUNDARY_EDGES + 1,
                        max: MAX_BOUNDARY_EDGES,
                    },
                );
            }
            segments.insert(key, delta);
            let ghost previous = inserted@;
            inserted.push(DirectedEdge::new(low, high));
            proof {
                let last = inserted@.len() - 1;
                assert(recorded_key(inserted@[last]) == key);
                assert forall|k: SegmentKey| #[trigger] segments@.contains_key(k) implies exists|i: int|
                    0 <= i < inserted@.len() && recorded_key(#[trigger] inserted@[i]) == k by {
                    if k == key {
                        assert(recorded_key(inserted@[last]) == k);
                    } else {
                        assert(before.contains_key(k));
                        let i = choose|i: int| 0 <= i < previous.len() && recorded_key(#[trigger] previous[i]) == k;
                        assert(inserted@[i] == previous[i]);
                    }
                }
            }
        },
        Some(winding) => {
            let sum = winding as i16 + delta as i16;
            if sum < -128 || sum > 127 {
                return Err(PlanarError::ArithmeticOverflow);
            }
            if sum == 0 {
                segments.remove(&key);
            } else {
                segments.insert(key, sum as i8);
            }
            proof {
                assert forall|k: SegmentKey| #[trigger] segments@.contains_key(k) implies exists|i: int|
                    0 <= i < inserted@.len() && recorded_key(#[trigger] inserted@[i]) == k by {
                    assert(before.contains_key(k));
                }
            }
        },
    }
    proof {
        let next = processed.push(quad);
        assert forall|k: SegmentKey|
            #![trigger segments@.contains_key(k)]
            #![trigger winding(next, k)]
            segment_key_valid(k) implies (segments@.contains_key(k) <==> winding(next, k) != 0) && (
            segments@.contains_key(k) ==> segments@[k] as int == winding(next, k)) by {
            lemma_winding_push(processed, quad, k);
            if k != key {
                assert(winding_step(quad, k) == 0);
            }
        }
    }
    Ok(())
}

/// The segment an output edge covers, endpoints in lexicographic order.
pub open spec fn output_key(edge: DirectedEdge) -> SegmentKey {
    if pair_lt(point_key(edge.start), point_key(edge.end)) {
        ((edge.start.spec_x(), edge.start.spec_y()), (edge.end.spec_x(), edge.end.spec_y()))
    } else {
        ((edge.end.spec_x(), edge.end.spec_y()), (edge.start.spec_x(), edge.start.spec_y()))
    }
}

/// A segment key as an integer quadruple.
pub open spec fn key_quad(key: SegmentKey) -> (int, int, int, int) {
    (key.0.0 as int, key.0.1 as int, key.1.0 as int, key.1.1 as int)
}

/// Strict lexicographic order on segment keys.
pub open spec fn key_lt(a: SegmentKey, b: SegmentKey) -> bool {
    quad_le(key_quad(a), key_quad(b)) && key_quad(a) != key_quad(b)
}

/// A key no later than `a` is no later than any key `c` after `a`.
proof fn lemma_key_chain(a: SegmentKey, b: SegmentKey, c: SegmentKey)
    requires
        !key_lt(a, b),
        quad_le(key_quad(a), key_quad(c)),
    ensures
        !key_lt(c, b),
{
}

/// The boundary is exactly the segments of nonzero winding in `inputs`, each
/// once, in increasing segment order, each running in the direction of its
/// winding, which is one step either way.
pub open spec fn winding_boundary(edges: Seq<DirectedEdge>, inputs: Seq<EdgeQuad>) -> bool {
    &&& forall|i: int|
        0 <= i < edges.len() ==> segment_key_valid(output_key(#[trigger] edges[i])) && winding(
            inputs,
            output_key(edges[i]),
        ) == quad_direction(edge_key(edges[i]))
    &&& forall|i: int, j: int|
        0 <= i < j < edges.len() ==> key_lt(output_key(#[trigger] edges[i]), output_key(#[trigger] edges[j]))
    &&& forall|key: SegmentKey|
        segment_key_valid(key) && #[trigger] winding(inputs, key) != 0 ==> exists|i: int|
            0 <= i < edges.len() && output_key(#[trigger] edges[i]) == key
}

/// The fill boundary can be built: both axes have breakpoints, the cut
/// perimeter fits, every input edge can be added in turn, the wound
/// segments fit, and no segment is wound more than once either way.
pub open spec fn fill_admitted(
    x_edges: Seq<i64>,
    y_edges: Seq<i64>,
    width: int,
    height: int,
    substrate_edges: Seq<DirectedEdge>,
) -> bool {
    let inputs = fill_inputs(x_edges, y_edges, width, height, substrate_edges);
    &&& x_edges.len() >= 1
    &&& y_edges.len() >= 1
    &&& (x_edges.len() - 1 + y_edges.len() - 1) * 2 <= MAX_BOUNDARY_EDGES
    &&& steps_admitted(inputs)
    &&& wound_segments(inputs).len() <= MAX_BOUNDARY_EDGES
    &&& forall|key: SegmentKey| segment_key_valid(key) ==> -1 <= #[trigger] winding(inputs, key) <= 1
}

/// A refused step at a prefix of `all` refuses `all`.
proof fn lemma_step_refused(all: Seq<EdgeQuad>, done: Seq<EdgeQuad>, quad: EdgeQuad)
    requires
        done.len() < all.len(),
        done == all.take(done.len() as int),
        all[done.len() as int] == quad,
        !step_admitted(done, quad),
    ensures
        !steps_admitted(all),
{
    assert(!step_admitted(all.take(done.len() as int), all[done.len() as int]));
}

/// A taken step extends the admitted prefix.
proof fn lemma_step_taken(all: Seq<EdgeQuad>, done: Seq<EdgeQuad>, quad: EdgeQuad)
    requires
        done.len() < all.len(),
        done == all.take(done.len() as int),
        all[done.len() as int] == quad,
        steps_admitted(done),
        step_admitted(done, quad),
    ensures
        done.push(quad) == all.take(done.len() as int + 1),
        steps_admitted(done.push(quad)),
{
    assert(done.push(quad) =~= all.take(done.len() as int + 1));
    assert forall|k: int| 0 <= k < done.push(quad).len() implies #[trigger] step_admitted(
        done.push(quad).take(k),
        done.push(quad)[k],
    ) by {
        if k < done.len() {
            assert(done.push(quad).take(k) =~= done.take(k));
            assert(step_admitted(done.take(k), done[k]));
        } else {
            assert(done.push(quad).take(k) =~= done);
        }
    }
}

/// Builds the directed boundary of the fill region: the counter-clockwise
/// footprint perimeter, cut at every breakpoint, with the reversed
/// substrate boundary added so that shared segments cancel.
///
/// On success the boundary is exactly the segments whose net winding is
/// nonzero, in segment order, each running in the direction of its winding.
/// A segment wound more than once either way is refused as invalid topology.
pub fn complementary_boundary_edges(
    footprint: RectMicrometers,
    x_edges: &[i64],
    y_edges: &[i64],
    substrate_edges: &[DirectedEdge],
) -> (result: Result<Vec<DirectedEdge>, PlanarError>)
    requires
        coordinate_in_range(footprint.spec_width() as int),
        coordinate_in_range(footprint.spec_height() as int),
        breakpoints_valid(x_edges@),
        breakpoints_valid(y_edges@),
        edges_valid(substrate_edges@),
    ensures
        result matches Ok(edges) ==> {
            &&& edges@.len() <= MAX_BOUNDARY_EDGES
            &&& edges_valid(edges@)
            &&& winding_boundary(
                edges@,
                fill_inputs(
                    x_edges@,
                    y_edges@,
                    footprint.spec_width() as int,
                    footprint.spec_height() as int,
                    substrate_edges@,
                ),
            )
        },
        ({
            let perimeter = (x_edges@.len() - 1 + y_edges@.len() - 1) * 2;
            x_edges@.len() >= 1 && y_edges@.len() >= 1 && perimeter > MAX_BOUNDARY_EDGES ==> result == Err::<
                Vec<DirectedEdge>,
                PlanarError,
            >(
                PlanarError::TooManyBoundaryEdges { required: perimeter as usize, max: MAX_BOUNDARY_EDGES },
            )
        }),
        result is Err ==> result matches Err(PlanarError::TooManyBoundaryEdges { .. }) || result
            == Err::<Vec<DirectedEdge>, PlanarError>(PlanarError::ArithmeticOverflow) || (result
            == Err::<Vec<DirectedEdge>, PlanarError>(
            PlanarError::InvalidTopology("a partition edge has inconsistent multiplicity"),
        ) && exists|key: SegmentKey|
            segment_key_valid(key) && #[trigger] winding(
                fill_inputs(
                    x_edges@,
                    y_edges@,
                    footprint.spec_width() as int,
                    footprint.spec_height() as int,
                    substrate_edges@,
                ),
                key,
            ) != 0 && winding(
                fill_inputs(
                    x_edges@,
                    y_edges@,
                    footprint.spec_width() as int,
                    footprint.spec_height() as int,
                    substrate_edges@,
                ),
                key,
            ) != 1 && winding(
                fill_inputs(
                    x_edges@,
                    y_edges@,
                    footprint.spec_width() as int,
                    footprint.spec_height() as int,
                    substrate_edges@,
                ),
                key,
            ) != -1),
        result is Ok <==> fill_admitted(
            x_edges@,
            y_edges@,
            footprint.spec_width() as int,
            footprint.spec_height() as int,
            substrate_edges@,
        ),
{
    let width = footprint.width();
    let height = footprint.height();
    let ghost xs = x_edges@;
    let ghost ys = y_edges@;
    let ghost w = width as int;
    let ghost h = height as int;
    proof {
        lemma_breakpoints_count(x_edges@);
        lemma_breakpoints_count(y_edges@);
    }
    if x_edges.len() == 0 || y_edges.len() == 0 {
        return Err(PlanarError::ArithmeticOverflow);
    }
    let perimeter_edges = ((x_edges.len() - 1) + (y_edges.len() - 1)) * 2;
    if perimeter_edges > MAX_BOUNDARY_EDGES {
        return Err(
            PlanarError::TooManyBoundaryEdges {
                required: perimeter_edges,
                max: MAX_BOUNDARY_EDGES,
            },
        );
    }
    let ghost nx = xs.len() as int;
    let ghost ny = ys.len() as int;
    let ghost bottom = Seq::new((nx - 1) as nat, |i: int| (xs[i] as int, 0int, xs[i + 1] as int, 0int));
    let ghost right = Seq::new((ny - 1) as nat, |j: int| (w, ys[j] as int, w, ys[j + 1] as int));
    let ghost top = Seq::new((nx - 1) as nat, |i: int| (xs[nx - 1 - i] as int, h, xs[nx - 2 - i] as int, h));
    let ghost left = Seq::new((ny - 1) as nat, |j: int| (0int, ys[ny - 1 - j] as int, 0int, ys[ny - 2 - j] as int));
    let ghost all = fill_inputs(xs, ys, w, h, substrate_edges@);
    proof {
        assert(all =~= bottom + right + top + left + reversed_quads(substrate_edges@));
    }
    let mut segments: std::collections::BTreeMap<SegmentKey, i8> =
        std::collections::BTreeMap::new();
    let mut inserted: Vec<DirectedEdge> = Vec::new();
    let ghost mut done: Seq<EdgeQuad> = Seq::empty();
    let mut index: usize = 0;
    while index + 1 < x_edges.len()
        invariant
            (x_edges@.len() - 1 + y_edges@.len() - 1) * 2 <= MAX_BOUNDARY_EDGES,
            breakpoints_valid(x_edges@),
            xs == x_edges@,
            nx == xs.len(),
            index < x_edges@.len() <= 1_000_000_001,
            coordinate_in_range(width as int),
            coordinate_in_range(height as int),
            bottom == Seq::new((nx - 1) as nat, |i: int| (xs[i] as int, 0int, xs[i + 1] as int, 0int)),
            done == bottom.take(index as int),
            tracks(segments@, done),
            all == bottom + right + top + left + reversed_quads(substrate_edges@),
            all == fill_inputs(
                x_edges@,
                y_edges@,
                footprint.spec_width() as int,
                footprint.spec_height() as int,
                substrate_edges@,
            ),
            all == perimeter_quads(xs, ys, w, h) + reversed_quads(substrate_edges@),
            done.len() <= all.len(),
            done == all.take(done.len() as int),
            steps_admitted(done),
            covers(segments@, inserted@),
            keys_valid(inserted@),
        decreases x_edges@.len() - index,
    {
        assert(coordinate_in_range(x_edges@[index as int] as int));
        assert(coordinate_in_range(x_edges@[index + 1] as int));
        let edge = DirectedEdge::new(
            PointMicrometers::new(x_edges[index], 0),
            PointMicrometers::new(x_edges[index + 1], 0),
        );
        match add_or_cancel(&mut segments, &mut inserted, edge, Ghost(done)) {
            Ok(()) => {},
            Err(error) => {
                proof {
                    lemma_step_refused(all, done, edge_key(edge));
                }
                return Err(error);
            },
        }
        proof {
            lemma_step_taken(all, done, edge_key(edge));
        }
        proof {
            done = done.push(edge_key(edge));
            assert(done =~= bottom.take(index + 1));
        }
        index += 1;
    }
    proof {
        assert(done =~= bottom);
    }
    let mut index: usize = 0;
    while index + 1 < y_edges.len()
        invariant
            (x_edges@.len() - 1 + y_edges@.len() - 1) * 2 <= MAX_BOUNDARY_EDGES,
            breakpoints_valid(y_edges@),
            ys == y_edges@,
            ny == ys.len(),
            w == width,
            index < y_edges@.len() <= 1_000_000_001,
            coordinate_in_range(width as int),
            coordinate_in_range(height as int),
            right == Seq::new((ny - 1) as nat, |j: int| (w, ys[j] as int, w, ys[j + 1] as int)),
            done == bottom + right.take(index as int),
            tracks(segments@, done),
            all == bottom + right + top + left + reversed_quads(substrate_edges@),
            all == fill_inputs(
                x_edges@,
                y_edges@,
                footprint.spec_width() as int,
                footprint.spec_height() as int,
                substrate_edges@,
            ),
            all == perimeter_quads(xs, ys, w, h) + reversed_quads(substrate_edges@),
            done.len() <= all.len(),
            done == all.take(done.len() as int),
            steps_admitted(done),
            covers(segments@, inserted@),
            keys_valid(inserted@),
        decreases y_edges@.len() - index,
    {
        assert(coordinate_in_range(y_edges@[index as int] as int));
        assert(coordinate_in_range(y_edges@[index + 1] as int));
        let edge = DirectedEdge::new(
            PointMicrometers::new(width, y_edges[index]),
            PointMicrometers::new(width, y_edges[index + 1]),
        );
        match add_or_cancel(&mut segments, &mut inserted, edge, Ghost(done)) {
            Ok(()) => {},
            Err(error) => {
                proof {
                    lemma_step_refused(all, done, edge_key(edge));
                }
                return Err(error);
            },
        }
        proof {
            lemma_step_taken(all, done, edge_key(edge));
        }
        proof {
            done = done.push(edge_key(edge));
            assert(done =~= bottom + right.take(index + 1));
        }
        index += 1;
    }
    proof {
        assert(done =~= bottom + right);
    }
    let mut index: usize = x_edges.len() - 1;
    while index > 0
        invariant
            (x_edges@.len() - 1 + y_edges@.len() - 1) * 2 <= MAX_BOUNDARY_EDGES,
            breakpoints_valid(x_edges@),
            xs == x_edges@,
            nx == xs.len(),
            h == height,
            index < x_edges@.len(),
            coordinate_in_range(width as int),
            coordinate_in_range(height as int),
            top == Seq::new((nx - 1) as nat, |i: int| (xs[nx - 1 - i] as int, h, xs[nx - 2 - i] as int, h)),
            done == bottom + right + top.take(nx - 1 - index),
            tracks(segments@, done),
            all == bottom + right + top + left + reversed_quads(substrate_edges@),
            all == fill_inputs(
                x_edges@,
                y_edges@,
                footprint.spec_width() as int,
                footprint.spec_height() as int,
                substrate_edges@,
            ),
            all == perimeter_quads(xs, ys, w, h) + reversed_quads(substrate_edges@),
            done.len() <= all.len(),
            done == all.take(done.len() as int),
            steps_admitted(done),
            covers(segments@, inserted@),
            keys_valid(inserted@),
        decreases index,
    {
        assert(coordinate_in_range(x_edges@[index as int] as int));
        assert(coordinate_in_range(x_edges@[index - 1] as int));
        let edge = DirectedEdge::new(
            PointMicrometers::new(x_edges[index], height),
            PointMicrometers::new(x_edges[index - 1], height),
        );
        match add_or_cancel(&mut segments, &mut inserted, edge, Ghost(done)) {
            Ok(()) => {},
            Err(error) => {
                proof {
                    lemma_step_refused(all, done, edge_key(edge));
                }
                return Err(error);
            },
        }
        proof {
            lemma_step_taken(all, done, edge_key(edge));
        }
        proof {
            done = done.push(edge_key(edge));
            assert(done =~= bottom + right + top.take(nx - 1 - (index - 1)));
        }
        index -= 1;
    }
    proof {
        assert(done =~= bottom + right + top);
    }
    let mut index: usize = y_edges.len() - 1;
    while index > 0
        invariant
            (x_edges@.len() - 1 + y_edges@.len() - 1) * 2 <= MAX_BOUNDARY_EDGES,
            breakpoints_valid(y_edges@),
            ys == y_edges@,
            ny == ys.len(),
            index < y_edges@.len(),
            coordinate_in_range(width as int),
            coordinate_in_range(height as int),
            left == Seq::new((ny - 1) as nat, |j: int| (0int, ys[ny - 1 - j] as int, 0int, ys[ny - 2 - j] as int)),
            done == bottom + right + top + left.take(ny - 1 - index),
            tracks(segments@, done),
            all == bottom + right + top + left + reversed_quads(substrate_edges@),
            all == fill_inputs(
                x_edges@,
                y_edges@,
                footprint.spec_width() as int,
                footprint.spec_height() as int,
                substrate_edges@,
            ),
            all == perimeter_quads(xs, ys, w, h) + reversed_quads(substrate_edges@),
            done.len() <= all.len(),
            done == all.take(done.len() as int),
            steps_admitted(done),
            covers(segments@, inserted@),
            keys_valid(inserted@),
        decreases index,
    {
        assert(coordinate_in_range(y_edges@[index as int] as int));
        assert(coordinate_in_range(y_edges@[index - 1] as int));
        let edge = DirectedEdge::new(
            PointMicrometers::new(0, y_edges[index]),
            PointMicrometers::new(0, y_edges[index - 1]),
        );
        match add_or_cancel(&mut segments, &mut inserted, edge, Ghost(done)) {
            Ok(()) => {},
            Err(error) => {
                proof {
                    lemma_step_refused(all, done, edge_key(edge));
                }
                return Err(error);
            },
        }
        proof {
            lemma_step_taken(all, done, edge_key(edge));
        }
        proof {
            done = done.push(edge_key(edge));
            assert(done =~= bottom + right + top + left.take(ny - 1 - (index - 1)));
        }
        index -= 1;
    }
    let ghost perimeter = perimeter_quads(xs, ys, w, h);
    proof {
        assert(done =~= perimeter);
    }
    let mut index: usize = 0;
    while index < substrate_edges.len()
        invariant
            (x_edges@.len() - 1 + y_edges@.len() - 1) * 2 <= MAX_BOUNDARY_EDGES,
            edges_valid(substrate_edges@),
            index <= substrate_edges@.len(),
            done == perimeter + reversed_quads(substrate_edges@).take(index as int),
            perimeter == perimeter_quads(xs, ys, w, h),
            tracks(segments@, done),
            all == bottom + right + top + left + reversed_quads(substrate_edges@),
            all == fill_inputs(
                x_edges@,
                y_edges@,
                footprint.spec_width() as int,
                footprint.spec_height() as int,
                substrate_edges@,
            ),
            all == perimeter_quads(xs, ys, w, h) + reversed_quads(substrate_edges@),
            done.len() <= all.len(),
            done == all.take(done.len() as int),
            steps_admitted(done),
            covers(segments@, inserted@),
            keys_valid(inserted@),
        decreases substrate_edges@.len() - index,
    {
        let edge = substrate_edges[index];
        assert(edge_valid(substrate_edges@[index as int]));
        let reversed = edge.reversed();
        proof {
            assert(all[done.len() as int] == reversed_quads(substrate_edges@)[index as int]);
        }
        match add_or_cancel(&mut segments, &mut inserted, reversed, Ghost(done)) {
            Ok(()) => {},
            Err(error) => {
                proof {
                    lemma_step_refused(all, done, edge_key(reversed));
                }
                return Err(error);
            },
        }
        proof {
            lemma_step_taken(all, done, edge_key(reversed));
        }
        proof {
            done = done.push(edge_key(reversed));
            assert(done =~= perimeter + reversed_quads(substrate_edges@).take(index + 1));
        }
        index += 1;
    }
    let ghost inputs = fill_inputs(xs, ys, w, h, substrate_edges@);
    proof {
        assert(reversed_quads(substrate_edges@).take(index as int) =~= reversed_quads(substrate_edges@));
        assert(done =~= inputs);
    }
    proof {
        lemma_tracked_keys(segments@, inputs);
        assert(done == all);
    }
    if segments.len() > MAX_BOUNDARY_EDGES {
        return Err(
            PlanarError::TooManyBoundaryEdges { required: segments.len(), max: MAX_BOUNDARY_EDGES },
        );
    }
    let ghost recorded = inserted@;
    let keys = crate::order::sort_vec(inserted);
    proof {
        assert forall|i: int| 0 <= i < keys@.len() implies segment_key_valid(
            (
                ((#[trigger] keys@[i]).start.spec_x(), keys@[i].start.spec_y()),
                (keys@[i].end.spec_x(), keys@[i].end.spec_y()),
            ),
        ) by {
            assert(keys@.to_multiset().count(keys@[i]) > 0);
            assert(recorded.contains(keys@[i]));
        }
        assert forall|k: SegmentKey| #[trigger] segments@.contains_key(k) implies exists|j: int|
            0 <= j < keys@.len() && recorded_key(#[trigger] keys@[j]) == k by {
            let i = choose|i: int| 0 <= i < recorded.len() && recorded_key(#[trigger] recorded[i]) == k;
            assert(recorded.to_multiset().count(recorded[i]) > 0);
            assert(keys@.contains(recorded[i]));
        }
    }
    let result = emit_winding_boundary(keys, segments, Ghost(inputs));
    proof {
        if result is Ok {
            let edges = result.unwrap();
            assert forall|key: SegmentKey| segment_key_valid(key) implies -1 <= #[trigger] winding(inputs, key) <= 1 by {
                if winding(inputs, key) != 0 {
                    let i = choose|i: int| 0 <= i < edges@.len() && output_key(#[trigger] edges@[i]) == key;
                    assert(winding(inputs, output_key(edges@[i])) == quad_direction(edge_key(edges@[i])));
                }
            }
        }
    }
    result
}

/// Emits, in key order, each recorded segment still in the map, in the
/// direction of its winding; a winding beyond one step is refused.
fn emit_winding_boundary(
    keys: Vec<DirectedEdge>,
    segments: std::collections::BTreeMap<SegmentKey, i8>,
    Ghost(inputs): Ghost<Seq<EdgeQuad>>,
) -> (result: Result<Vec<DirectedEdge>, PlanarError>)
    requires
        keys_valid(keys@),
        sorted(keys@),
        tracks(segments@, inputs),
        segments@.dom().len() <= MAX_BOUNDARY_EDGES,
        forall|k: SegmentKey|
            #[trigger] segments@.contains_key(k) ==> exists|j: int|
                0 <= j < keys@.len() && recorded_key(#[trigger] keys@[j]) == k,
    ensures
        result matches Ok(edges) ==> {
            &&& edges@.len() <= MAX_BOUNDARY_EDGES
            &&& edges_valid(edges@)
            &&& winding_boundary(edges@, inputs)
        },
        result is Err ==> result == Err::<Vec<DirectedEdge>, PlanarError>(
            PlanarError::InvalidTopology("a partition edge has inconsistent multiplicity"),
        ) && exists|key: SegmentKey|
            segment_key_valid(key) && #[trigger] winding(inputs, key) != 0 && winding(inputs, key) != 1 && winding(
                inputs,
                key,
            ) != -1,
{
    let mut segments = segments;
    let ghost initial = segments@;
    let mut edges: Vec<DirectedEdge> = Vec::new();
    let mut index: usize = 0;
    while index < keys.len()
        invariant
            keys_valid(keys@),
            sorted(keys@),
            tracks(initial, inputs),
            initial.dom().len() <= MAX_BOUNDARY_EDGES,
            index <= keys@.len(),
            segments_valid(segments@),
            segments@.dom().finite(),
            segments@.dom().len() + edges@.len() == initial.dom().len(),
            edges_valid(edges@),
            forall|k: SegmentKey|
                #![trigger segments@.contains_key(k)]
                #![trigger initial.contains_key(k)]
                segments@.contains_key(k) <==> (initial.contains_key(k) && forall|i: int|
                    0 <= i < edges@.len() ==> output_key(#[trigger] edges@[i]) != k),
            forall|k: SegmentKey| #[trigger] segments@.contains_key(k) ==> segments@[k] == initial[k],
            forall|i: int|
                0 <= i < edges@.len() ==> initial.contains_key(output_key(#[trigger] edges@[i]))
                    && initial[output_key(edges@[i])] as int == quad_direction(edge_key(edges@[i])),
            forall|i: int, j: int|
                0 <= i < j < edges@.len() ==> key_lt(output_key(#[trigger] edges@[i]), output_key(#[trigger] edges@[j])),
            index > 0 ==> forall|i: int|
                0 <= i < edges@.len() ==> !key_lt(recorded_key(keys@[index - 1]), output_key(#[trigger] edges@[i])),
            index == 0 ==> edges@.len() == 0,
            forall|k: SegmentKey|
                #[trigger] segments@.contains_key(k) ==> exists|j: int|
                    index <= j < keys@.len() && recorded_key(#[trigger] keys@[j]) == k,
        decreases keys@.len() - index,
    {
        let key_edge = keys[index];
        let key: SegmentKey = (
            (key_edge.start.x(), key_edge.start.y()),
            (key_edge.end.x(), key_edge.end.y()),
        );
        assert(segment_key_valid(key));
        let winding = match segments.get(&key) {
            Some(winding) => Some(*winding),
            None => None,
        };
        let ghost before = segments@;
        let ghost emitted = edges@;
        let ghost found = winding is Some;
        if let Some(winding) = winding {
            let low = PointMicrometers::new(key.0.0, key.0.1);
            let high = PointMicrometers::new(key.1.0, key.1.1);
            assert(low != high) by {
                if low == high {
                    assert(low.spec_x() == high.spec_x() && low.spec_y() == high.spec_y());
                }
            }
            let edge = if winding == 1 {
                DirectedEdge::new(low, high)
            } else if winding == -1 {
                DirectedEdge::new(high, low)
            } else {
                proof {
                    assert(segments@.contains_key(key));
                    assert(initial.contains_key(key));
                    assert(initial[key] as int == self::winding(inputs, key));
                }
                return Err(
                    PlanarError::InvalidTopology("a partition edge has inconsistent multiplicity"),
                );
            };
            edges.push(edge);
            segments.remove(&key);
            proof {
                assert(output_key(edge) == key);
                assert(quad_direction(edge_key(edge)) == winding as int);
                assert(edges@.len() <= MAX_BOUNDARY_EDGES);
            }
        }
        proof {
            assert(key_quad(recorded_key(key_edge)) == edge_key(key_edge));
            if found {
                assert(edges@ == emitted.push(edges@.last()));
                assert(output_key(edges@.last()) == key);
                assert(segments@ == before.remove(key));
            } else {
                assert(edges@ == emitted);
                assert(!before.contains_key(key));
            }
            assert forall|k: SegmentKey|
                #![trigger segments@.contains_key(k)]
                #![trigger initial.contains_key(k)]
                segments@.contains_key(k) <==> (initial.contains_key(k) && forall|i: int|
                    0 <= i < edges@.len() ==> output_key(#[trigger] edges@[i]) != k) by {
                assert(before.contains_key(k) <==> (initial.contains_key(k) && forall|i: int|
                    0 <= i < emitted.len() ==> output_key(#[trigger] emitted[i]) != k));
                if found {
                    if k == key {
                        assert(output_key(edges@[emitted.len() as int]) == k);
                    } else {
                        assert(segments@.contains_key(k) == before.contains_key(k));
                        if initial.contains_key(k) && (forall|i: int|
                            0 <= i < edges@.len() ==> output_key(#[trigger] edges@[i]) != k) {
                            assert forall|i: int| 0 <= i < emitted.len() implies output_key(#[trigger] emitted[i]) != k by {
                                assert(edges@[i] == emitted[i]);
                            }
                        }
                        if before.contains_key(k) {
                            assert forall|i: int| 0 <= i < edges@.len() implies output_key(#[trigger] edges@[i]) != k by {
                                if i < emitted.len() {
                                    assert(edges@[i] == emitted[i]);
                                }
                            }
                        }
                    }
                }
            }
            assert forall|i: int| 0 <= i < edges@.len() implies !key_lt(
                recorded_key(keys@[index as int]),
                output_key(#[trigger] edges@[i]),
            ) by {
                if i < emitted.len() {
                    if index > 0 {
                        assert(keys@[index - 1].ordered_le(keys@[index as int]));
                        assert(key_quad(recorded_key(keys@[index - 1])) == edge_key(keys@[index - 1]));
                        assert(key_quad(recorded_key(keys@[index as int])) == edge_key(keys@[index as int]));
                        lemma_key_chain(
                            recorded_key(keys@[index - 1]),
                            output_key(edges@[i]),
                            recorded_key(keys@[index as int]),
                        );
                    }
                } else {
                    assert(output_key(edges@[i]) == key);
                }
            }
            assert forall|k: SegmentKey| #[trigger] segments@.contains_key(k) implies exists|j: int|
                index + 1 <= j < keys@.len() && recorded_key(#[trigger] keys@[j]) == k by {
                assert(before.contains_key(k));
                let j = choose|j: int| index <= j < keys@.len() && recorded_key(#[trigger] keys@[j]) == k;
                if j == index {
                    assert(k == key);
                }
            }
        }
        index += 1;
    }
    proof {
        assert forall|k: SegmentKey|
            segment_key_valid(k) && #[trigger] winding(inputs, k) != 0 implies exists|i: int|
                0 <= i < edges@.len() && output_key(#[trigger] edges@[i]) == k by {
            assert(initial.contains_key(k));
            if !segments@.contains_key(k) {
            } else {
                let j = choose|j: int| index <= j < keys@.len() && recorded_key(#[trigger] keys@[j]) == k;
                assert(false);
            }
        }
    }
    Ok(edges)
}

} // verus!
