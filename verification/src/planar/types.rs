//! Fixed-point planar geometry types.

use vstd::prelude::*;

use crate::document::Dimension;
use crate::order::{pair_le, LexOrder};

verus! {

/// Largest physical extent accepted by deterministic planar arithmetic.
pub const MAX_ARTWORK_EXTENT_MICROMETERS: i64 = 1_000_000_000;

/// Maximum number of elementary rectangles in one planar arrangement.
pub const MAX_PLANAR_CELLS: usize = 67_108_864;

/// Maximum number of raster intervals retained on either coordinate axis.
pub const MAX_AXIS_INTERVALS: usize = 1_000_000;

/// Maximum number of directed edges accepted by contour tracing.
pub const MAX_BOUNDARY_EDGES: usize = 4_194_304;

/// Maximum deterministic work units used by foreground morphology.
pub const MAX_MORPHOLOGY_WORK: u128 = 1_000_000_000;

/// Largest unique contour set on which quadratic topology checks are run.
pub const MAX_SIMPLIFICATION_VALIDATION_VERTICES: usize = 4_096;

/// Maximum point-in-polygon work used to assign holes to exterior rings.
pub const MAX_HOLE_CONTAINMENT_WORK: u128 = 16_777_216;

/// A two-dimensional point in integer micrometres.
///
/// The origin is at the bottom-left of the artwork, positive X points right,
/// and positive Y points up.
#[derive(Debug, Clone, Copy, PartialEq, Eq, Structural, PartialOrd, Ord, Hash)]
pub struct PointMicrometers {
    x: i64,
    y: i64,
}

impl PointMicrometers {
    /// The X coordinate.
    pub closed spec fn spec_x(self) -> i64 {
        self.x
    }

    /// The Y coordinate.
    pub closed spec fn spec_y(self) -> i64 {
        self.y
    }

    /// Equal coordinates make equal points.
    pub proof fn lemma_coordinates_determine(a: Self, b: Self)
        requires
            a.spec_x() == b.spec_x(),
            a.spec_y() == b.spec_y(),
        ensures
            a == b,
    {
    }

    /// Creates a point from its X and Y coordinates in micrometres.
    pub fn new(x: i64, y: i64) -> (point: Self)
        ensures
            point.spec_x() == x,
            point.spec_y() == y,
    {
        Self { x, y }
    }

    /// Returns the X coordinate in micrometres.
    pub fn x(self) -> (x: i64)
        ensures
            x == self.spec_x(),
    {
        self.x
    }

    /// Returns the Y coordinate in micrometres.
    pub fn y(self) -> (y: i64)
        ensures
            y == self.spec_y(),
    {
        self.y
    }

    /// Compares by coordinates, returning whether the two points are equal.
    pub fn same(self, other: Self) -> (equal: bool)
        ensures
            equal == (self == other),
    {
        self.x == other.x && self.y == other.y
    }
}

/// The point as an integer pair, ordered lexicographically.
pub open spec fn point_key(p: PointMicrometers) -> (int, int) {
    (p.spec_x() as int, p.spec_y() as int)
}

impl LexOrder for PointMicrometers {
    open spec fn ordered_le(self, other: Self) -> bool {
        pair_le(point_key(self), point_key(other))
    }

    proof fn lemma_le_total(a: Self, b: Self) {
    }

    proof fn lemma_le_transitive(a: Self, b: Self, c: Self) {
    }

    fn le(&self, other: &Self) -> (result: bool) {
        self.x() < other.x() || (self.x() == other.x() && self.y() <= other.y())
    }
}

/// Strict lexicographic order on points.
pub open spec fn point_lt(a: PointMicrometers, b: PointMicrometers) -> bool {
    a.ordered_le(b) && a != b
}

/// Returns whether `a` precedes `b` lexicographically.
pub fn point_less(a: PointMicrometers, b: PointMicrometers) -> (less: bool)
    ensures
        less == point_lt(a, b),
{
    let less = a.x() < b.x() || (a.x() == b.x() && a.y() < b.y());
    proof {
        if a == b {
        } else if !less {
            if a.spec_x() == b.spec_x() && a.spec_y() == b.spec_y() {
                PointMicrometers::lemma_coordinates_determine(a, b);
            }
        }
    }
    less
}

/// A coordinate lies inside the supported artwork range.
pub open spec fn coordinate_in_range(value: int) -> bool {
    0 <= value <= MAX_ARTWORK_EXTENT_MICROMETERS
}

/// A point lies inside the supported artwork range.
pub open spec fn point_in_range(p: PointMicrometers) -> bool {
    coordinate_in_range(p.spec_x() as int) && coordinate_in_range(p.spec_y() as int)
}

/// Every point lies inside the supported artwork range.
pub open spec fn points_in_range(points: Seq<PointMicrometers>) -> bool {
    forall|i: int| 0 <= i < points.len() ==> point_in_range(#[trigger] points[i])
}

/// The cross product of two position vectors.
pub open spec fn spec_cross(a: PointMicrometers, b: PointMicrometers) -> int {
    a.spec_x() * b.spec_y() - a.spec_y() * b.spec_x()
}

/// The sum of the first `count` edge cross products of a closed ring.
pub open spec fn spec_edge_cross_sum(vertices: Seq<PointMicrometers>, count: int) -> int
    decreases count,
{
    if count <= 0 || vertices.len() == 0 {
        0
    } else {
        spec_edge_cross_sum(vertices, count - 1) + spec_cross(
            vertices[count - 1],
            vertices[count % vertices.len() as int],
        )
    }
}

/// Twice the signed area enclosed by a closed ring (shoelace formula):
/// positive for counter-clockwise rings, negative for clockwise rings.
pub open spec fn spec_signed_double_area(vertices: Seq<PointMicrometers>) -> int {
    spec_edge_cross_sum(vertices, vertices.len() as int)
}

/// Largest cross product of two in-range points.
pub open spec fn cross_bound() -> int {
    1_000_000_000_000_000_000
}

/// Largest absolute double area of an in-range ring with at most
/// [`MAX_BOUNDARY_EDGES`] vertices.
pub open spec fn ring_area_bound() -> int {
    4_194_304_000_000_000_000_000_000
}

/// Largest absolute double area of a polygon whose ring count is bounded.
pub open spec fn polygon_area_bound() -> int {
    17_592_190_238_720_000_000_000_000_000_000
}

/// Largest absolute double area of a bounded polygon collection.
pub open spec fn region_area_bound() -> int {
    73_786_993_887_024_250_880_000_000_000_000_000_000
}

/// The cross product of two in-range points is bounded.
pub proof fn lemma_cross_bounded(a: PointMicrometers, b: PointMicrometers)
    requires
        point_in_range(a),
        point_in_range(b),
    ensures
        -cross_bound() <= spec_cross(a, b) <= cross_bound(),
{
    let m = MAX_ARTWORK_EXTENT_MICROMETERS as int;
    let ax = a.spec_x() as int;
    let ay = a.spec_y() as int;
    let bx = b.spec_x() as int;
    let by = b.spec_y() as int;
    assert(0 <= ax * by <= cross_bound()) by (nonlinear_arith)
        requires
            0 <= ax <= m,
            0 <= by <= m,
            m == 1_000_000_000,
    ;
    assert(0 <= ay * bx <= cross_bound()) by (nonlinear_arith)
        requires
            0 <= ay <= m,
            0 <= bx <= m,
            m == 1_000_000_000,
    ;
}

/// Partial shoelace sums of in-range rings grow by at most one bounded cross
/// product per edge.
pub proof fn lemma_edge_cross_sum_bounded(vertices: Seq<PointMicrometers>, count: int)
    requires
        points_in_range(vertices),
        0 <= count <= vertices.len(),
    ensures
        -count * cross_bound() <= spec_edge_cross_sum(vertices, count) <= count * cross_bound(),
    decreases count,
{
    if count > 0 {
        lemma_edge_cross_sum_bounded(vertices, count - 1);
        let n = vertices.len() as int;
        assert(0 <= count % n < n) by {
            vstd::arithmetic::div_mod::lemma_mod_bound(count, n);
        }
        lemma_cross_bounded(vertices[count - 1], vertices[count % n]);
    }
}

/// Computes the shoelace sum of a closed ring of in-range points.
pub fn signed_double_area(vertices: &[PointMicrometers]) -> (area: i128)
    requires
        points_in_range(vertices@),
        vertices@.len() <= MAX_BOUNDARY_EDGES,
    ensures
        area == spec_signed_double_area(vertices@),
        -ring_area_bound() <= area <= ring_area_bound(),
{
    let count = vertices.len();
    let mut area: i128 = 0;
    let mut index: usize = 0;
    while index < count
        invariant
            count == vertices@.len(),
            count <= MAX_BOUNDARY_EDGES,
            points_in_range(vertices@),
            0 <= index <= count,
            area == spec_edge_cross_sum(vertices@, index as int),
        decreases count - index,
    {
        let start = vertices[index];
        let next_index = if index + 1 == count {
            0
        } else {
            index + 1
        };
        let end = vertices[next_index];
        proof {
            assert((index + 1) as int % count as int == next_index as int) by {
                if index + 1 == count {
                    vstd::arithmetic::div_mod::lemma_mod_self_0(count as int);
                } else {
                    vstd::arithmetic::div_mod::lemma_small_mod((index + 1) as nat, count as nat);
                }
            }
            lemma_edge_cross_sum_bounded(vertices@, index as int);
            assert(point_in_range(vertices@[index as int]));
            assert(point_in_range(vertices@[next_index as int]));
            lemma_cross_bounded(start, end);
            let sx = start.spec_x() as int;
            let sy = start.spec_y() as int;
            let ex = end.spec_x() as int;
            let ey = end.spec_y() as int;
            assert(0 <= sx * ey <= cross_bound() && 0 <= sy * ex <= cross_bound()) by (nonlinear_arith)
                requires
                    0 <= sx <= 1_000_000_000,
                    0 <= sy <= 1_000_000_000,
                    0 <= ex <= 1_000_000_000,
                    0 <= ey <= 1_000_000_000,
            ;
            assert(index * cross_bound() <= MAX_BOUNDARY_EDGES as int * cross_bound()) by (nonlinear_arith)
                requires
                    index <= MAX_BOUNDARY_EDGES,
                    cross_bound() > 0,
            ;
        }
        let cross = start.x() as i128 * end.y() as i128 - start.y() as i128 * end.x() as i128;
        area = area + cross;
        index += 1;
    }
    proof {
        lemma_edge_cross_sum_bounded(vertices@, count as int);
        assert(count * cross_bound() <= MAX_BOUNDARY_EDGES as int * cross_bound()) by (nonlinear_arith)
            requires
                count <= MAX_BOUNDARY_EDGES,
                cross_bound() > 0,
        ;
    }
    area
}

/// An axis-aligned rectangular footprint with its lower-left corner at zero.
#[derive(Debug, Clone, Copy, PartialEq, Eq, Structural)]
pub struct RectMicrometers {
    width: i64,
    height: i64,
}

impl RectMicrometers {
    /// Width in micrometres.
    pub closed spec fn spec_width(self) -> i64 {
        self.width
    }

    /// Height in micrometres.
    pub closed spec fn spec_height(self) -> i64 {
        self.height
    }

    /// Both extents are positive.
    #[verifier::type_invariant]
    pub open spec fn wf(self) -> bool {
        self.spec_width() > 0 && self.spec_height() > 0
    }

    /// Creates a rectangle from positive physical extents in micrometres.
    pub fn from_positive_size(width: i64, height: i64) -> (rectangle: Self)
        requires
            width > 0,
            height > 0,
        ensures
            rectangle.spec_width() == width,
            rectangle.spec_height() == height,
    {
        Self { width, height }
    }

    /// Returns the rectangle width in micrometres.
    pub fn width(self) -> (width: i64)
        ensures
            width == self.spec_width(),
            width > 0,
    {
        proof {
            use_type_invariant(&self);
        }
        self.width
    }

    /// Returns the rectangle height in micrometres.
    pub fn height(self) -> (height: i64)
        ensures
            height == self.spec_height(),
            height > 0,
    {
        proof {
            use_type_invariant(&self);
        }
        self.height
    }

    /// Returns the lower-left corner.
    pub fn bottom_left(self) -> (corner: PointMicrometers)
        ensures
            corner.spec_x() == 0 && corner.spec_y() == 0,
    {
        PointMicrometers::new(0, 0)
    }

    /// Returns the lower-right corner.
    pub fn bottom_right(self) -> (corner: PointMicrometers)
        ensures
            corner.spec_x() == self.spec_width() && corner.spec_y() == 0,
    {
        PointMicrometers::new(self.width, 0)
    }

    /// Returns the upper-right corner.
    pub fn top_right(self) -> (corner: PointMicrometers)
        ensures
            corner.spec_x() == self.spec_width() && corner.spec_y() == self.spec_height(),
    {
        PointMicrometers::new(self.width, self.height)
    }

    /// Returns the upper-left corner.
    pub fn top_left(self) -> (corner: PointMicrometers)
        ensures
            corner.spec_x() == 0 && corner.spec_y() == self.spec_height(),
    {
        PointMicrometers::new(0, self.height)
    }

    /// Returns the corners in counter-clockwise order, starting at the origin.
    pub fn corners(self) -> (corners: [PointMicrometers; 4])
        ensures
            corners[0].spec_x() == 0 && corners[0].spec_y() == 0,
            corners[1].spec_x() == self.spec_width() && corners[1].spec_y() == 0,
            corners[2].spec_x() == self.spec_width() && corners[2].spec_y() == self.spec_height(),
            corners[3].spec_x() == 0 && corners[3].spec_y() == self.spec_height(),
    {
        [self.bottom_left(), self.bottom_right(), self.top_right(), self.top_left()]
    }

    /// Twice the rectangle area.
    pub open spec fn spec_double_area(self) -> int {
        self.spec_width() * self.spec_height() * 2
    }

    /// Returns twice the rectangle area in square micrometres.
    pub fn double_area(self) -> (area: i128)
        ensures
            area == self.spec_double_area(),
            area > 0,
    {
        proof {
            use_type_invariant(&self);
            let w = self.width as int;
            let h = self.height as int;
            assert(0 < w * h <= i64::MAX as int * i64::MAX as int) by (nonlinear_arith)
                requires
                    0 < w <= i64::MAX,
                    0 < h <= i64::MAX,
            ;
        }
        self.width as i128 * self.height as i128 * 2
    }
}

/// A valid ring: at least three in-range vertices, at most
/// [`MAX_BOUNDARY_EDGES`] of them, enclosing a nonzero signed area.
pub open spec fn valid_ring_vertices(vertices: Seq<PointMicrometers>) -> bool {
    &&& 3 <= vertices.len() <= MAX_BOUNDARY_EDGES
    &&& points_in_range(vertices)
    &&& spec_signed_double_area(vertices) != 0
}

/// A closed polygon ring without a repeated closing vertex: at least three
/// in-range vertices enclosing a nonzero signed area. Simplicity is not part
/// of the type; the functions that build rings check what they promise.
#[derive(Debug, PartialEq, Eq)]
pub struct Ring {
    vertices: Vec<PointMicrometers>,
}

impl Ring {
    /// The ring's vertices.
    pub closed spec fn spec_vertices(&self) -> Seq<PointMicrometers> {
        self.vertices@
    }

    /// Twice the signed enclosed area.
    pub open spec fn spec_area(&self) -> int {
        spec_signed_double_area(self.spec_vertices())
    }

    /// Every ring is valid.
    #[verifier::type_invariant]
    pub open spec fn wf(&self) -> bool {
        valid_ring_vertices(self.spec_vertices())
    }

    /// Records a ring whose orientation and topology have already been checked.
    pub fn from_oriented_vertices(vertices: Vec<PointMicrometers>) -> (ring: Self)
        requires
            valid_ring_vertices(vertices@),
        ensures
            ring.spec_vertices() == vertices@,
    {
        Self { vertices }
    }

    /// Returns the ring vertices without a repeated closing vertex.
    pub fn vertices(&self) -> (vertices: &[PointMicrometers])
        ensures
            vertices@ == self.spec_vertices(),
            valid_ring_vertices(vertices@),
    {
        proof {
            use_type_invariant(self);
        }
        self.vertices.as_slice()
    }

    /// Returns the signed double area in square micrometres.
    pub fn signed_double_area(&self) -> (area: i128)
        ensures
            area == self.spec_area(),
            area != 0,
            -ring_area_bound() <= area <= ring_area_bound(),
    {
        proof {
            use_type_invariant(self);
        }
        signed_double_area(self.vertices.as_slice())
    }

    /// Returns whether this ring is counter-clockwise.
    pub fn is_ccw(&self) -> (ccw: bool)
        ensures
            ccw == (self.spec_area() > 0),
    {
        self.signed_double_area() > 0
    }
}

impl Clone for Ring {
    fn clone(&self) -> (copy: Self)
        ensures
            copy.spec_vertices() == self.spec_vertices(),
    {
        proof {
            use_type_invariant(self);
        }
        Self { vertices: self.vertices.clone() }
    }
}

/// Sum of the areas of a sequence of rings.
pub open spec fn rings_area(rings: Seq<Ring>) -> int
    decreases rings.len(),
{
    if rings.len() == 0 {
        0
    } else {
        rings_area(rings.drop_last()) + rings.last().spec_area()
    }
}

/// Ring areas are bounded, so sums of boundedly many of them are too.
pub proof fn lemma_rings_area_bounded(rings: Seq<Ring>)
    requires
        forall|i: int| 0 <= i < rings.len() ==> valid_ring_vertices(#[trigger] rings[i].spec_vertices()),
    ensures
        -rings.len() * ring_area_bound() <= rings_area(rings) <= rings.len() * ring_area_bound(),
    decreases rings.len(),
{
    if rings.len() > 0 {
        let prefix = rings.drop_last();
        assert forall|i: int| 0 <= i < prefix.len() implies valid_ring_vertices(
            #[trigger] prefix[i].spec_vertices(),
        ) by {
            assert(prefix[i] == rings[i]);
        }
        lemma_rings_area_bounded(prefix);
        let last = rings.last();
        assert(valid_ring_vertices(rings[rings.len() - 1].spec_vertices()));
        lemma_edge_cross_sum_bounded(last.spec_vertices(), last.spec_vertices().len() as int);
        assert(last.spec_vertices().len() * cross_bound() <= ring_area_bound()) by (nonlinear_arith)
            requires
                last.spec_vertices().len() <= MAX_BOUNDARY_EDGES,
                cross_bound() > 0,
        ;
    }
}

/// Ring sequences with equal vertex sequences have equal total area.
pub proof fn lemma_rings_area_congruent(a: Seq<Ring>, b: Seq<Ring>)
    requires
        a.len() == b.len(),
        forall|i: int| 0 <= i < a.len() ==> (#[trigger] a[i]).spec_vertices() == b[i].spec_vertices(),
    ensures
        rings_area(a) == rings_area(b),
    decreases a.len(),
{
    if a.len() > 0 {
        let pa = a.drop_last();
        let pb = b.drop_last();
        assert forall|i: int| 0 <= i < pa.len() implies (#[trigger] pa[i]).spec_vertices()
            == pb[i].spec_vertices() by {
            assert(pa[i] == a[i] && pb[i] == b[i]);
        }
        lemma_rings_area_congruent(pa, pb);
        assert(a[a.len() - 1].spec_vertices() == b[b.len() - 1].spec_vertices());
    }
}

/// One connected filled polygon with zero or more holes.
#[derive(Debug, PartialEq, Eq)]
pub struct Polygon {
    exterior: Ring,
    holes: Vec<Ring>,
}

impl Polygon {
    /// The counter-clockwise exterior ring.
    pub closed spec fn spec_exterior(&self) -> Ring {
        self.exterior
    }

    /// The clockwise hole rings.
    pub closed spec fn spec_holes(&self) -> Seq<Ring> {
        self.holes@
    }

    /// Twice the filled area: the exterior area plus the (negative) hole areas.
    pub open spec fn spec_area(&self) -> int {
        self.spec_exterior().spec_area() + rings_area(self.spec_holes())
    }

    /// The exterior is counter-clockwise, every hole is a valid clockwise
    /// ring, and the number of holes is bounded.
    #[verifier::type_invariant]
    pub open spec fn wf(&self) -> bool {
        &&& valid_ring_vertices(self.spec_exterior().spec_vertices())
        &&& self.spec_exterior().spec_area() > 0
        &&& self.spec_holes().len() <= MAX_BOUNDARY_EDGES
        &&& forall|i: int|
            0 <= i < self.spec_holes().len() ==> valid_ring_vertices(
                #[trigger] self.spec_holes()[i].spec_vertices(),
            ) && self.spec_holes()[i].spec_area() < 0
    }

    /// Records an already-validated exterior ring and its holes.
    pub fn from_oriented_rings(exterior: Ring, holes: Vec<Ring>) -> (polygon: Self)
        requires
            exterior.spec_area() > 0,
            holes@.len() <= MAX_BOUNDARY_EDGES,
            forall|i: int|
                0 <= i < holes@.len() ==> valid_ring_vertices(#[trigger] holes@[i].spec_vertices())
                    && holes@[i].spec_area() < 0,
        ensures
            polygon.spec_exterior() == exterior,
            polygon.spec_holes() == holes@,
            polygon.wf(),
    {
        proof {
            use_type_invariant(&exterior);
        }
        Self { exterior, holes }
    }

    /// Returns the counter-clockwise exterior ring.
    pub fn exterior(&self) -> (exterior: &Ring)
        ensures
            *exterior == self.spec_exterior(),
            exterior.spec_area() > 0,
    {
        proof {
            use_type_invariant(self);
        }
        &self.exterior
    }

    /// Returns the clockwise hole rings.
    pub fn holes(&self) -> (holes: &[Ring])
        ensures
            holes@ == self.spec_holes(),
            holes@.len() <= MAX_BOUNDARY_EDGES,
            forall|i: int|
                0 <= i < holes@.len() ==> valid_ring_vertices(#[trigger] holes@[i].spec_vertices())
                    && holes@[i].spec_area() < 0,
    {
        proof {
            use_type_invariant(self);
        }
        self.holes.as_slice()
    }

    /// The filled area of a valid polygon is bounded.
    pub proof fn lemma_area_bounded(&self)
        requires
            self.wf(),
        ensures
            -polygon_area_bound() <= self.spec_area() <= polygon_area_bound(),
    {
        lemma_rings_area_bounded(self.spec_holes());
        let exterior = self.spec_exterior();
        lemma_edge_cross_sum_bounded(exterior.spec_vertices(), exterior.spec_vertices().len() as int);
        assert(exterior.spec_vertices().len() * cross_bound() <= ring_area_bound()) by (nonlinear_arith)
            requires
                exterior.spec_vertices().len() <= MAX_BOUNDARY_EDGES,
                cross_bound() > 0,
        ;
        let h = self.spec_holes().len() as int;
        assert(h * ring_area_bound() <= MAX_BOUNDARY_EDGES as int * ring_area_bound()) by (nonlinear_arith)
            requires
                h <= MAX_BOUNDARY_EDGES,
                ring_area_bound() > 0,
        ;
    }

    /// Returns twice the filled polygon area in square micrometres.
    pub fn double_area(&self) -> (area: i128)
        ensures
            area == self.spec_area(),
            -polygon_area_bound() <= area <= polygon_area_bound(),
    {
        proof {
            use_type_invariant(self);
            self.lemma_area_bounded();
        }
        let mut area = self.exterior.signed_double_area();
        let mut index: usize = 0;
        while index < self.holes.len()
            invariant
                self.wf(),
                0 <= index <= self.holes@.len(),
                area == self.spec_exterior().spec_area() + rings_area(
                    self.holes@.subrange(0, index as int),
                ),
            decreases self.holes@.len() - index,
        {
            let ghost prefix = self.holes@.subrange(0, index as int);
            let ghost next = self.holes@.subrange(0, index as int + 1);
            proof {
                assert(next.drop_last() == prefix);
                assert forall|i: int| 0 <= i < next.len() implies valid_ring_vertices(
                    #[trigger] next[i].spec_vertices(),
                ) by {
                    assert(next[i] == self.holes@[i]);
                }
                assert forall|i: int| 0 <= i < prefix.len() implies valid_ring_vertices(
                    #[trigger] prefix[i].spec_vertices(),
                ) by {
                    assert(prefix[i] == self.holes@[i]);
                }
                lemma_rings_area_bounded(next);
                lemma_rings_area_bounded(prefix);
                let exterior = self.spec_exterior();
                lemma_edge_cross_sum_bounded(exterior.spec_vertices(), exterior.spec_vertices().len() as int);
                assert(exterior.spec_vertices().len() * cross_bound() <= ring_area_bound()) by (nonlinear_arith)
                    requires
                        exterior.spec_vertices().len() <= MAX_BOUNDARY_EDGES,
                        cross_bound() > 0,
                ;
                assert(next.len() * ring_area_bound() <= MAX_BOUNDARY_EDGES as int * ring_area_bound()) by (nonlinear_arith)
                    requires
                        next.len() <= MAX_BOUNDARY_EDGES,
                        ring_area_bound() > 0,
                ;
            }
            area = area + self.holes[index].signed_double_area();
            index += 1;
        }
        proof {
            assert(self.holes@.subrange(0, index as int) == self.holes@);
        }
        area
    }
}

impl Clone for Polygon {
    fn clone(&self) -> (copy: Self)
        ensures
            copy.spec_exterior().spec_vertices() == self.spec_exterior().spec_vertices(),
            copy.spec_holes().len() == self.spec_holes().len(),
            forall|i: int|
                0 <= i < self.spec_holes().len() ==> (#[trigger] copy.spec_holes()[i]).spec_vertices()
                    == self.spec_holes()[i].spec_vertices(),
            copy.spec_area() == self.spec_area(),
            copy.wf(),
    {
        proof {
            use_type_invariant(self);
        }
        let exterior = self.exterior.clone();
        let mut holes: Vec<Ring> = Vec::with_capacity(self.holes.len());
        let mut index: usize = 0;
        while index < self.holes.len()
            invariant
                self.wf(),
                0 <= index <= self.holes@.len(),
                holes@.len() == index,
                forall|i: int|
                    0 <= i < index ==> (#[trigger] holes@[i]).spec_vertices()
                        == self.holes@[i].spec_vertices(),
            decreases self.holes@.len() - index,
        {
            holes.push(self.holes[index].clone());
            index += 1;
        }
        proof {
            lemma_rings_area_congruent(holes@, self.holes@);
        }
        Self::from_oriented_rings(exterior, holes)
    }
}

/// Sum of the areas of a sequence of polygons.
pub open spec fn polygons_area(polygons: Seq<Polygon>) -> int
    decreases polygons.len(),
{
    if polygons.len() == 0 {
        0
    } else {
        polygons_area(polygons.drop_last()) + polygons.last().spec_area()
    }
}

/// Polygon areas are bounded, so sums of boundedly many of them are too.
pub proof fn lemma_polygons_area_bounded(polygons: Seq<Polygon>)
    requires
        forall|i: int| 0 <= i < polygons.len() ==> (#[trigger] polygons[i]).wf(),
    ensures
        -polygons.len() * polygon_area_bound() <= polygons_area(polygons) <= polygons.len()
            * polygon_area_bound(),
    decreases polygons.len(),
{
    if polygons.len() > 0 {
        let prefix = polygons.drop_last();
        assert forall|i: int| 0 <= i < prefix.len() implies (#[trigger] prefix[i]).wf() by {
            assert(prefix[i] == polygons[i]);
        }
        lemma_polygons_area_bounded(prefix);
        polygons.last().lemma_area_bounded();
    }
}

/// Sums the areas of a bounded polygon sequence.
pub fn polygons_double_area(polygons: &[Polygon]) -> (area: i128)
    requires
        polygons@.len() <= MAX_BOUNDARY_EDGES,
        forall|i: int| 0 <= i < polygons@.len() ==> (#[trigger] polygons@[i]).wf(),
    ensures
        area == polygons_area(polygons@),
        -region_area_bound() <= area <= region_area_bound(),
{
    let mut area: i128 = 0;
    let mut index: usize = 0;
    let ghost all = polygons@;
    while index < polygons.len()
        invariant
            all == polygons@,
            all.len() <= MAX_BOUNDARY_EDGES,
            forall|i: int| 0 <= i < all.len() ==> (#[trigger] all[i]).wf(),
            0 <= index <= all.len(),
            area == polygons_area(all.subrange(0, index as int)),
        decreases all.len() - index,
    {
        let ghost prefix = all.subrange(0, index as int);
        let ghost next = all.subrange(0, index as int + 1);
        proof {
            assert(next.drop_last() == prefix);
            assert forall|i: int| 0 <= i < next.len() implies (#[trigger] next[i]).wf() by {
                assert(next[i] == all[i]);
            }
            lemma_polygons_area_bounded(next);
            assert(next.len() * polygon_area_bound() <= region_area_bound()) by (nonlinear_arith)
                requires
                    next.len() <= MAX_BOUNDARY_EDGES,
                    polygon_area_bound() > 0,
            ;
        }
        area = area + polygons[index].double_area();
        index += 1;
    }
    proof {
        assert(all.subrange(0, index as int) == all);
        lemma_polygons_area_bounded(all);
        assert(all.len() * polygon_area_bound() <= region_area_bound()) by (nonlinear_arith)
            requires
                all.len() <= MAX_BOUNDARY_EDGES,
                polygon_area_bound() > 0,
        ;
    }
    area
}

/// A deterministic collection of interior-disjoint polygons.
#[derive(Debug, PartialEq, Eq)]
pub struct RegionSet {
    polygons: Vec<Polygon>,
}

impl RegionSet {
    /// The polygons in canonical order.
    pub closed spec fn spec_polygons(&self) -> Seq<Polygon> {
        self.polygons@
    }

    /// Twice the total filled area.
    pub open spec fn spec_area(&self) -> int {
        polygons_area(self.spec_polygons())
    }

    /// The number of polygons is bounded and each polygon is valid.
    #[verifier::type_invariant]
    pub open spec fn wf(&self) -> bool {
        &&& self.spec_polygons().len() <= MAX_BOUNDARY_EDGES
        &&& forall|i: int|
            0 <= i < self.spec_polygons().len() ==> (#[trigger] self.spec_polygons()[i]).wf()
    }

    /// Records an already-validated, canonically ordered polygon collection.
    pub fn from_polygons(polygons: Vec<Polygon>) -> (region: Self)
        requires
            polygons@.len() <= MAX_BOUNDARY_EDGES,
            forall|i: int| 0 <= i < polygons@.len() ==> (#[trigger] polygons@[i]).wf(),
        ensures
            region.spec_polygons() == polygons@,
    {
        Self { polygons }
    }

    /// Returns all polygons in canonical order.
    pub fn polygons(&self) -> (polygons: &[Polygon])
        ensures
            polygons@ == self.spec_polygons(),
            polygons@.len() <= MAX_BOUNDARY_EDGES,
            forall|i: int| 0 <= i < polygons@.len() ==> (#[trigger] polygons@[i]).wf(),
    {
        proof {
            use_type_invariant(self);
        }
        self.polygons.as_slice()
    }

    /// Returns whether this set has no filled area.
    pub fn is_empty(&self) -> (empty: bool)
        ensures
            empty == (self.spec_polygons().len() == 0),
    {
        self.polygons.len() == 0
    }

    /// Returns twice the total filled area in square micrometres.
    pub fn double_area(&self) -> (area: i128)
        ensures
            area == self.spec_area(),
            -region_area_bound() <= area <= region_area_bound(),
    {
        proof {
            use_type_invariant(self);
        }
        polygons_double_area(self.polygons.as_slice())
    }
}

/// Validated settings used to clean and partition canonical artwork.
#[derive(Debug, Clone, Copy, PartialEq, Eq, Structural)]
pub struct PlanarOptions {
    border_width_micrometers: i64,
    minimum_feature_width_micrometers: i64,
    contour_tolerance_micrometers: i64,
}

impl PlanarOptions {
    /// Border width in micrometres; zero disables the border.
    pub closed spec fn spec_border_width(self) -> i64 {
        self.border_width_micrometers
    }

    /// Minimum retained foreground-feature width in micrometres.
    pub closed spec fn spec_minimum_feature_width(self) -> i64 {
        self.minimum_feature_width_micrometers
    }

    /// Contour simplification tolerance in micrometres; zero disables it.
    pub closed spec fn spec_contour_tolerance(self) -> i64 {
        self.contour_tolerance_micrometers
    }

    /// Every setting lies in its scalar domain.
    #[verifier::type_invariant]
    pub open spec fn wf(self) -> bool {
        &&& self.spec_border_width() >= 0
        &&& self.spec_minimum_feature_width() > 0
        &&& 0 <= self.spec_contour_tolerance() <= MAX_ARTWORK_EXTENT_MICROMETERS
    }

    /// Creates planar settings expressed in integer micrometres.
    pub fn new(
        border_width_micrometers: i64,
        minimum_feature_width_micrometers: i64,
        contour_tolerance_micrometers: i64,
    ) -> (result: Result<Self, PlanarError>)
        ensures
            border_width_micrometers < 0 ==> result == Err::<Self, PlanarError>(
                PlanarError::NegativeBorderWidth,
            ),
            border_width_micrometers >= 0 && minimum_feature_width_micrometers <= 0 ==> result
                == Err::<Self, PlanarError>(PlanarError::NonPositiveMinimumFeatureWidth),
            border_width_micrometers >= 0 && minimum_feature_width_micrometers > 0
                && contour_tolerance_micrometers < 0 ==> result == Err::<Self, PlanarError>(
                PlanarError::NegativeContourTolerance,
            ),
            border_width_micrometers >= 0 && minimum_feature_width_micrometers > 0
                && contour_tolerance_micrometers > MAX_ARTWORK_EXTENT_MICROMETERS ==> result
                == Err::<Self, PlanarError>(
                PlanarError::ContourToleranceTooLarge {
                    tolerance: contour_tolerance_micrometers,
                    max: MAX_ARTWORK_EXTENT_MICROMETERS,
                },
            ),
            border_width_micrometers >= 0 && minimum_feature_width_micrometers > 0 && 0
                <= contour_tolerance_micrometers <= MAX_ARTWORK_EXTENT_MICROMETERS ==> (result matches Ok(
                options,
            ) && options.spec_border_width() == border_width_micrometers
                && options.spec_minimum_feature_width() == minimum_feature_width_micrometers
                && options.spec_contour_tolerance() == contour_tolerance_micrometers),
    {
        if border_width_micrometers < 0 {
            return Err(PlanarError::NegativeBorderWidth);
        }
        if minimum_feature_width_micrometers <= 0 {
            return Err(PlanarError::NonPositiveMinimumFeatureWidth);
        }
        if contour_tolerance_micrometers < 0 {
            return Err(PlanarError::NegativeContourTolerance);
        }
        if contour_tolerance_micrometers > MAX_ARTWORK_EXTENT_MICROMETERS {
            return Err(
                PlanarError::ContourToleranceTooLarge {
                    tolerance: contour_tolerance_micrometers,
                    max: MAX_ARTWORK_EXTENT_MICROMETERS,
                },
            );
        }
        Ok(
            Self {
                border_width_micrometers,
                minimum_feature_width_micrometers,
                contour_tolerance_micrometers,
            },
        )
    }

    /// Returns the generated border width in micrometres.
    pub fn border_width_micrometers(self) -> (border: i64)
        ensures
            border == self.spec_border_width(),
            border >= 0,
    {
        proof {
            use_type_invariant(&self);
        }
        self.border_width_micrometers
    }

    /// Returns the minimum retained foreground-feature width in micrometres.
    pub fn minimum_feature_width_micrometers(self) -> (width: i64)
        ensures
            width == self.spec_minimum_feature_width(),
            width > 0,
    {
        proof {
            use_type_invariant(&self);
        }
        self.minimum_feature_width_micrometers
    }

    /// Returns the maximum contour simplification error in micrometres.
    pub fn contour_tolerance_micrometers(self) -> (tolerance: i64)
        ensures
            tolerance == self.spec_contour_tolerance(),
            0 <= tolerance <= MAX_ARTWORK_EXTENT_MICROMETERS,
    {
        proof {
            use_type_invariant(&self);
        }
        self.contour_tolerance_micrometers
    }
}

/// A complete, exact partition of one artwork footprint.
#[derive(Debug, PartialEq, Eq)]
pub struct PlanarPartition {
    footprint: RectMicrometers,
    substrate_upper: RegionSet,
    fill_parts: Vec<Polygon>,
}

impl PlanarPartition {
    /// The rectangular footprint.
    pub closed spec fn spec_footprint(&self) -> RectMicrometers {
        self.footprint
    }

    /// The upper substrate region.
    pub closed spec fn spec_substrate_upper(&self) -> RegionSet {
        self.substrate_upper
    }

    /// The fill components.
    pub closed spec fn spec_fill_parts(&self) -> Seq<Polygon> {
        self.fill_parts@
    }

    /// The footprint is within the artwork range, the number of fill
    /// components is bounded and each is valid, and the raised substrate and
    /// the fill together cover exactly the footprint's area.
    #[verifier::type_invariant]
    pub open spec fn wf(&self) -> bool {
        &&& coordinate_in_range(self.spec_footprint().spec_width() as int)
        &&& coordinate_in_range(self.spec_footprint().spec_height() as int)
        &&& self.spec_fill_parts().len() <= MAX_BOUNDARY_EDGES
        &&& forall|i: int|
            0 <= i < self.spec_fill_parts().len() ==> (#[trigger] self.spec_fill_parts()[i]).wf()
        &&& self.spec_substrate_upper().spec_area() + polygons_area(self.spec_fill_parts())
            == self.spec_footprint().spec_double_area()
    }

    /// Records a partition after its coverage and topology have been checked.
    pub fn from_validated_parts(
        footprint: RectMicrometers,
        substrate_upper: RegionSet,
        fill_parts: Vec<Polygon>,
    ) -> (partition: Self)
        requires
            coordinate_in_range(footprint.spec_width() as int),
            coordinate_in_range(footprint.spec_height() as int),
            fill_parts@.len() <= MAX_BOUNDARY_EDGES,
            forall|i: int| 0 <= i < fill_parts@.len() ==> (#[trigger] fill_parts@[i]).wf(),
            substrate_upper.spec_area() + polygons_area(fill_parts@) == footprint.spec_double_area(),
        ensures
            partition.spec_footprint() == footprint,
            partition.spec_substrate_upper() == substrate_upper,
            partition.spec_fill_parts() == fill_parts@,
    {
        Self { footprint, substrate_upper, fill_parts }
    }

    /// Returns the full rectangular footprint.
    pub fn footprint(&self) -> (footprint: RectMicrometers)
        ensures
            footprint == self.spec_footprint(),
            coordinate_in_range(footprint.spec_width() as int),
            coordinate_in_range(footprint.spec_height() as int),
    {
        proof {
            use_type_invariant(self);
        }
        self.footprint
    }

    /// Returns the upper substrate region: cleaned foreground union border.
    pub fn substrate_upper(&self) -> (region: &RegionSet)
        ensures
            *region == self.spec_substrate_upper(),
    {
        &self.substrate_upper
    }

    /// Returns the connected fill components in canonical order.
    pub fn fill_parts(&self) -> (parts: &[Polygon])
        ensures
            parts@ == self.spec_fill_parts(),
            parts@.len() <= MAX_BOUNDARY_EDGES,
            forall|i: int| 0 <= i < parts@.len() ==> (#[trigger] parts@[i]).wf(),
    {
        proof {
            use_type_invariant(self);
        }
        self.fill_parts.as_slice()
    }
}

/// A failure while converting canonical artwork into a planar partition.
#[derive(Debug, Clone, PartialEq, Eq)]
#[non_exhaustive]
pub enum PlanarError {
    /// Border width must be zero or positive.
    NegativeBorderWidth,
    /// Minimum printable feature width must be positive.
    NonPositiveMinimumFeatureWidth,
    /// Contour tolerance must be zero or positive.
    NegativeContourTolerance,
    /// Contour tolerance exceeds the supported deterministic geometry range.
    ContourToleranceTooLarge { tolerance: i64, max: i64 },
    /// Artwork extents exceed the supported deterministic geometry range.
    ArtworkExtentTooLarge { width: i64, height: i64, max: i64 },
    /// The inset border leaves no interior in at least one dimension.
    BorderDoesNotFitArtwork { width: i64, height: i64, border: i64 },
    /// More pixel boundaries exist than integer micrometres can represent.
    ResolutionTooFine { dimension: Dimension, pixels: u32, extent: i64 },
    /// One raster axis exceeds its deterministic breakpoint limit.
    TooManyAxisIntervals { dimension: Dimension, required: usize, max: usize },
    /// A diagonal contact cannot be separated on the integer-micrometre grid.
    DiagonalContactTooFine { x: i64, y: i64 },
    /// The planar cell grid exceeds its deterministic resource limit.
    TooManyCells { required: usize, max: usize },
    /// Contour tracing would exceed its deterministic edge limit.
    TooManyBoundaryEdges { required: usize, max: usize },
    /// Feature cleanup would exceed its deterministic work limit.
    MorphologyWorkLimitExceeded { required: u128, max: u128 },
    /// Hole-to-exterior assignment would exceed its deterministic work limit.
    HoleContainmentWorkLimitExceeded { required: u128, max: u128 },
    /// Checked fixed-point arithmetic overflowed.
    ArithmeticOverflow,
    /// An intermediate or final polygon arrangement was invalid.
    InvalidTopology(&'static str),
}

/// Lexicographic order on point sequences.
pub open spec fn points_seq_le(a: Seq<PointMicrometers>, b: Seq<PointMicrometers>) -> bool
    decreases a.len(),
{
    if a.len() == 0 {
        true
    } else if b.len() == 0 {
        false
    } else if point_lt(a[0], b[0]) {
        true
    } else if a[0] == b[0] {
        points_seq_le(a.drop_first(), b.drop_first())
    } else {
        false
    }
}

/// Any two point sequences are comparable.
pub proof fn lemma_points_seq_le_total(a: Seq<PointMicrometers>, b: Seq<PointMicrometers>)
    ensures
        points_seq_le(a, b) || points_seq_le(b, a),
    decreases a.len(),
{
    if a.len() > 0 && b.len() > 0 {
        PointMicrometers::lemma_le_total(a[0], b[0]);
        if a[0] == b[0] {
            lemma_points_seq_le_total(a.drop_first(), b.drop_first());
        }
    }
}

/// The sequence order is transitive.
pub proof fn lemma_points_seq_le_transitive(
    a: Seq<PointMicrometers>,
    b: Seq<PointMicrometers>,
    c: Seq<PointMicrometers>,
)
    requires
        points_seq_le(a, b),
        points_seq_le(b, c),
    ensures
        points_seq_le(a, c),
    decreases a.len(),
{
    if a.len() > 0 && b.len() > 0 && c.len() > 0 {
        if a[0] == b[0] && b[0] == c[0] {
            lemma_points_seq_le_transitive(a.drop_first(), b.drop_first(), c.drop_first());
        } else if point_lt(a[0], b[0]) && point_lt(b[0], c[0]) {
            PointMicrometers::lemma_le_transitive(a[0], b[0], c[0]);
            if a[0] == c[0] {
                PointMicrometers::lemma_coordinates_determine(a[0], b[0]);
            }
        }
    }
}

/// Compares two point sequences lexicographically.
pub fn points_seq_less_or_equal(a: &[PointMicrometers], b: &[PointMicrometers]) -> (result: bool)
    ensures
        result == points_seq_le(a@, b@),
{
    let mut index: usize = 0;
    assert(a@.skip(0) == a@ && b@.skip(0) == b@);
    while index < a.len() && index < b.len()
        invariant
            0 <= index <= a@.len(),
            index <= b@.len(),
            a@.subrange(0, index as int) == b@.subrange(0, index as int),
            points_seq_le(a@, b@) == points_seq_le(a@.skip(index as int), b@.skip(index as int)),
        decreases a@.len() - index,
    {
        let ghost sa = a@.skip(index as int);
        let ghost sb = b@.skip(index as int);
        assert(sa[0] == a@[index as int] && sb[0] == b@[index as int]);
        if point_less(a[index], b[index]) {
            return true;
        }
        if !a[index].same(b[index]) {
            return false;
        }
        proof {
            assert(sa.drop_first() == a@.skip(index as int + 1));
            assert(sb.drop_first() == b@.skip(index as int + 1));
            assert(a@.subrange(0, index as int + 1) =~= b@.subrange(0, index as int + 1)) by {
                assert forall|k: int| 0 <= k < index + 1 implies a@[k] == b@[k] by {
                    if k < index {
                        assert(a@.subrange(0, index as int)[k] == b@.subrange(0, index as int)[k]);
                    }
                }
            }
        }
        index += 1;
    }
    index == a.len()
}

impl LexOrder for Vec<PointMicrometers> {
    open spec fn ordered_le(self, other: Self) -> bool {
        points_seq_le(self@, other@)
    }

    proof fn lemma_le_total(a: Self, b: Self) {
        lemma_points_seq_le_total(a@, b@);
    }

    proof fn lemma_le_transitive(a: Self, b: Self, c: Self) {
        lemma_points_seq_le_transitive(a@, b@, c@);
    }

    fn le(&self, other: &Self) -> (result: bool) {
        points_seq_less_or_equal(self.as_slice(), other.as_slice())
    }
}

/// The sequence rotated left by `shift` positions.
pub open spec fn rotate_left(vertices: Seq<PointMicrometers>, shift: int) -> Seq<PointMicrometers> {
    vertices.subrange(shift, vertices.len() as int) + vertices.subrange(0, shift)
}

/// One edge cross product of a closed ring.
pub open spec fn spec_edge_cross(vertices: Seq<PointMicrometers>, i: int) -> int {
    spec_cross(vertices[i], vertices[(i + 1) % vertices.len() as int])
}

proof fn lemma_edge_cross_sum_step(vertices: Seq<PointMicrometers>, k: int)
    requires
        0 <= k,
        vertices.len() > 0,
    ensures
        spec_edge_cross_sum(vertices, k + 1) == spec_edge_cross_sum(vertices, k) + spec_edge_cross(
            vertices,
            k,
        ),
{
}

proof fn lemma_rotate_one_partial(vertices: Seq<PointMicrometers>, k: int)
    requires
        vertices.len() > 0,
        0 <= k <= vertices.len() - 1,
    ensures
        spec_edge_cross_sum(rotate_left(vertices, 1), k) == spec_edge_cross_sum(vertices, k + 1)
            - spec_edge_cross(vertices, 0),
    decreases k,
{
    let n = vertices.len() as int;
    let w = rotate_left(vertices, 1);
    assert(w.len() == n);
    if k == 0 {
        lemma_edge_cross_sum_step(vertices, 0);
    } else {
        lemma_rotate_one_partial(vertices, k - 1);
        lemma_edge_cross_sum_step(w, k - 1);
        lemma_edge_cross_sum_step(vertices, k);
        assert(w[k - 1] == vertices[k]);
        if k + 1 < n {
            vstd::arithmetic::div_mod::lemma_small_mod(k as nat, n as nat);
            vstd::arithmetic::div_mod::lemma_small_mod((k + 1) as nat, n as nat);
            assert(w[k] == vertices[k + 1]);
        } else {
            vstd::arithmetic::div_mod::lemma_mod_self_0(n);
            vstd::arithmetic::div_mod::lemma_small_mod(k as nat, n as nat);
            assert(w[k] == vertices[0]);
        }
    }
}

/// Rotating a ring by one position keeps its signed area.
pub proof fn lemma_rotate_one_area(vertices: Seq<PointMicrometers>)
    requires
        vertices.len() > 0,
    ensures
        spec_signed_double_area(rotate_left(vertices, 1)) == spec_signed_double_area(vertices),
{
    let n = vertices.len() as int;
    let w = rotate_left(vertices, 1);
    lemma_rotate_one_partial(vertices, n - 1);
    lemma_edge_cross_sum_step(w, n - 1);
    vstd::arithmetic::div_mod::lemma_mod_self_0(n);
    assert(w[n - 1] == vertices[0]);
    if n >= 2 {
        vstd::arithmetic::div_mod::lemma_small_mod(1, n as nat);
        assert(w[0] == vertices[1]);
    } else {
        assert(w[0] == vertices[0]);
        vstd::arithmetic::div_mod::lemma_mod_self_0(1);
    }
}

/// Rotating a ring keeps its signed area.
pub proof fn lemma_rotate_area(vertices: Seq<PointMicrometers>, shift: int)
    requires
        0 <= shift <= vertices.len(),
    ensures
        spec_signed_double_area(rotate_left(vertices, shift)) == spec_signed_double_area(vertices),
    decreases shift,
{
    if shift > 0 {
        lemma_rotate_area(vertices, shift - 1);
        let previous = rotate_left(vertices, shift - 1);
        assert(rotate_left(vertices, shift) =~= rotate_left(previous, 1));
        lemma_rotate_one_area(previous);
    } else {
        assert(rotate_left(vertices, 0) =~= vertices);
    }
}

/// The cross product is antisymmetric.
pub proof fn lemma_cross_antisymmetric(a: PointMicrometers, b: PointMicrometers)
    ensures
        spec_cross(a, b) == -spec_cross(b, a),
{
    let ax = a.spec_x() as int;
    let ay = a.spec_y() as int;
    let bx = b.spec_x() as int;
    let by = b.spec_y() as int;
    assert(ax * by - ay * bx == -(bx * ay - by * ax)) by (nonlinear_arith);
}

proof fn lemma_reverse_partial(vertices: Seq<PointMicrometers>, k: int)
    requires
        vertices.len() >= 1,
        0 <= k <= vertices.len() - 1,
    ensures
        spec_edge_cross_sum(vertices.reverse(), k) == spec_edge_cross_sum(
            vertices,
            vertices.len() - 1 - k,
        ) - spec_edge_cross_sum(vertices, vertices.len() - 1),
    decreases k,
{
    let n = vertices.len() as int;
    let w = vertices.reverse();
    if k > 0 {
        lemma_reverse_partial(vertices, k - 1);
        let i = k - 1;
        vstd::arithmetic::div_mod::lemma_small_mod((i + 1) as nat, n as nat);
        vstd::arithmetic::div_mod::lemma_small_mod((n - 1 - i) as nat, n as nat);
        assert(w[i] == vertices[n - 1 - i]);
        assert(w[i + 1] == vertices[n - 2 - i]);
        lemma_cross_antisymmetric(vertices[n - 1 - i], vertices[n - 2 - i]);
        assert(spec_edge_cross_sum(vertices, n - 1 - i) == spec_edge_cross_sum(vertices, n - 2 - i)
            + spec_cross(vertices[n - 2 - i], vertices[n - 1 - i]));
    }
}

/// Reversing a ring negates its signed area.
pub proof fn lemma_reverse_area(vertices: Seq<PointMicrometers>)
    ensures
        spec_signed_double_area(vertices.reverse()) == -spec_signed_double_area(vertices),
{
    let n = vertices.len() as int;
    if n >= 1 {
        let w = vertices.reverse();
        lemma_reverse_partial(vertices, n - 1);
        vstd::arithmetic::div_mod::lemma_mod_self_0(n);
        if n >= 2 {
            vstd::arithmetic::div_mod::lemma_small_mod((n - 1) as nat, n as nat);
        }
        assert(w[n - 1] == vertices[0]);
        assert(w[0] == vertices[n - 1]);
        lemma_cross_antisymmetric(vertices[0], vertices[n - 1]);
        assert(spec_edge_cross_sum(w, n) == spec_edge_cross_sum(w, n - 1) + spec_cross(w[n - 1], w[n % n]));
        assert(spec_edge_cross_sum(vertices, n) == spec_edge_cross_sum(vertices, n - 1) + spec_cross(
            vertices[n - 1],
            vertices[n % n],
        ));
    }
}

} // verus!
