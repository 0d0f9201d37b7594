//! Exact integer predicates used by cap triangulation, each charged to a
//! shared deterministic work budget.

use vstd::prelude::*;

use crate::mesh::types::MeshError;
use crate::mesh::MAX_TRIANGULATION_WORK;
use crate::planar::predicates::{orientation, spec_orientation};
use crate::planar::types::{point_in_range, points_in_range, spec_signed_double_area, spec_edge_cross_sum, PointMicrometers};

verus! {

/// Shared deterministic work meter for all cap triangulations in one model.
#[derive(Debug)]
pub struct WorkBudget {
    used: u128,
}

impl WorkBudget {
    /// Work units used so far.
    pub closed spec fn spec_used(&self) -> u128 {
        self.used
    }

    /// The budget never exceeds its limit.
    #[verifier::type_invariant]
    pub open spec fn wf(&self) -> bool {
        self.spec_used() <= MAX_TRIANGULATION_WORK
    }

    /// Starts an unused triangulation work budget.
    pub fn new() -> (budget: Self)
        ensures
            budget.spec_used() == 0,
    {
        Self { used: 0 }
    }

    /// Charges `amount` work units, failing when the limit would be passed.
    pub fn charge(&mut self, amount: u128) -> (result: Result<(), MeshError>)
        ensures
            old(self).spec_used() + amount <= MAX_TRIANGULATION_WORK ==> result is Ok && final(self).spec_used() == old(self).spec_used() + amount,
            old(self).spec_used() + amount > MAX_TRIANGULATION_WORK ==> final(self).spec_used() == old(self).spec_used() && result == Err::<(), MeshError>(
                MeshError::TriangulationWorkLimitExceeded {
                    required: if old(self).spec_used() + amount > u128::MAX {
                        u128::MAX
                    } else {
                        (old(self).spec_used() + amount) as u128
                    },
                    max: MAX_TRIANGULATION_WORK,
                },
            ),
    {
        proof {
            use_type_invariant(&*self);
        }
        let required = if amount > u128::MAX - self.used {
            u128::MAX
        } else {
            self.used + amount
        };
        if required > MAX_TRIANGULATION_WORK {
            return Err(
                MeshError::TriangulationWorkLimitExceeded { required, max: MAX_TRIANGULATION_WORK },
            );
        }
        self.used = required;
        Ok(())
    }
}

/// From `before` to `after` the budget grew by at most `most` units.
pub open spec fn budget_spent(before: int, after: int, most: int) -> bool {
    before <= after <= before + most
}

/// Fewer than four work units are left: the largest single charge no
/// longer fits.
pub open spec fn budget_exhausted(used: int) -> bool {
    used + 4 > MAX_TRIANGULATION_WORK
}

/// Twice the signed area of a triangle.
pub open spec fn triangle_area(triangle: [PointMicrometers; 3]) -> int {
    spec_orientation(triangle[0], triangle[1], triangle[2])
}

/// All three corners are in range.
pub open spec fn triangle_in_range(triangle: [PointMicrometers; 3]) -> bool {
    point_in_range(triangle[0]) && point_in_range(triangle[1]) && point_in_range(triangle[2])
}

/// Returns twice the signed area of a triangle.
pub fn triangle_cross(triangle: [PointMicrometers; 3]) -> (area: i128)
    requires
        triangle_in_range(triangle),
    ensures
        area == triangle_area(triangle),
        -2_000_000_000_000_000_000 <= area <= 2_000_000_000_000_000_000,
{
    orientation(triangle[0], triangle[1], triangle[2])
}

/// The two values have strictly opposite signs.
pub open spec fn spec_opposite_signs(first: int, second: int) -> bool {
    (first < 0 && second > 0) || (first > 0 && second < 0)
}

/// Returns whether two values have strictly opposite signs.
pub fn opposite_signs(first: i128, second: i128) -> (opposite: bool)
    ensures
        opposite == spec_opposite_signs(first as int, second as int),
{
    (first < 0 && second > 0) || (first > 0 && second < 0)
}

/// `point` lies in the bounding box of the segment.
pub open spec fn spec_in_segment_box(point: PointMicrometers, start: PointMicrometers, end: PointMicrometers) -> bool {
    let (lx, hx) = if start.spec_x() <= end.spec_x() {
        (start.spec_x(), end.spec_x())
    } else {
        (end.spec_x(), start.spec_x())
    };
    let (ly, hy) = if start.spec_y() <= end.spec_y() {
        (start.spec_y(), end.spec_y())
    } else {
        (end.spec_y(), start.spec_y())
    };
    lx <= point.spec_x() <= hx && ly <= point.spec_y() <= hy
}

/// Returns whether `point` lies in the bounding box of a segment; with a zero
/// orientation this places a collinear point on the segment.
pub fn point_in_segment_box(point: PointMicrometers, start: PointMicrometers, end: PointMicrometers) -> (inside: bool)
    ensures
        inside == spec_in_segment_box(point, start, end),
{
    let (lx, hx) = if start.x() <= end.x() {
        (start.x(), end.x())
    } else {
        (end.x(), start.x())
    };
    let (ly, hy) = if start.y() <= end.y() {
        (start.y(), end.y())
    } else {
        (end.y(), start.y())
    };
    lx <= point.x() && point.x() <= hx && ly <= point.y() && point.y() <= hy
}

/// Two collinear segments share a stretch of positive length.
pub open spec fn spec_collinear_overlap(
    first_start: PointMicrometers,
    first_end: PointMicrometers,
    second_start: PointMicrometers,
    second_end: PointMicrometers,
) -> bool {
    if first_start.spec_x() != first_end.spec_x() {
        let a_lo = if first_start.spec_x() <= first_end.spec_x() { first_start.spec_x() } else { first_end.spec_x() };
        let a_hi = if first_start.spec_x() <= first_end.spec_x() { first_end.spec_x() } else { first_start.spec_x() };
        let b_lo = if second_start.spec_x() <= second_end.spec_x() { second_start.spec_x() } else { second_end.spec_x() };
        let b_hi = if second_start.spec_x() <= second_end.spec_x() { second_end.spec_x() } else { second_start.spec_x() };
        (if a_lo >= b_lo { a_lo } else { b_lo }) < (if a_hi <= b_hi { a_hi } else { b_hi })
    } else {
        let a_lo = if first_start.spec_y() <= first_end.spec_y() { first_start.spec_y() } else { first_end.spec_y() };
        let a_hi = if first_start.spec_y() <= first_end.spec_y() { first_end.spec_y() } else { first_start.spec_y() };
        let b_lo = if second_start.spec_y() <= second_end.spec_y() { second_start.spec_y() } else { second_end.spec_y() };
        let b_hi = if second_start.spec_y() <= second_end.spec_y() { second_end.spec_y() } else { second_start.spec_y() };
        (if a_lo >= b_lo { a_lo } else { b_lo }) < (if a_hi <= b_hi { a_hi } else { b_hi })
    }
}

fn low(a: i64, b: i64) -> (m: i64)
    ensures
        m == if a <= b { a } else { b },
{
    if a <= b { a } else { b }
}

fn high(a: i64, b: i64) -> (m: i64)
    ensures
        m == if a <= b { b } else { a },
{
    if a <= b { b } else { a }
}

/// Returns whether two collinear segments overlap along a positive length,
/// measured on the X axis unless the first segment is vertical.
pub fn collinear_overlap_has_positive_length(
    first_start: PointMicrometers,
    first_end: PointMicrometers,
    second_start: PointMicrometers,
    second_end: PointMicrometers,
) -> (overlaps: bool)
    ensures
        overlaps == spec_collinear_overlap(first_start, first_end, second_start, second_end),
{
    if first_start.x() != first_end.x() {
        let a_lo = low(first_start.x(), first_end.x());
        let a_hi = high(first_start.x(), first_end.x());
        let b_lo = low(second_start.x(), second_end.x());
        let b_hi = high(second_start.x(), second_end.x());
        (if a_lo >= b_lo { a_lo } else { b_lo }) < (if a_hi <= b_hi { a_hi } else { b_hi })
    } else {
        let a_lo = low(first_start.y(), first_end.y());
        let a_hi = high(first_start.y(), first_end.y());
        let b_lo = low(second_start.y(), second_end.y());
        let b_hi = high(second_start.y(), second_end.y());
        (if a_lo >= b_lo { a_lo } else { b_lo }) < (if a_hi <= b_hi { a_hi } else { b_hi })
    }
}

/// Two segments meet somewhere other than at a shared endpoint: they cross,
/// touch in an interior point, or overlap collinearly along a positive length.
pub open spec fn spec_disallowed_intersection(
    first_start: PointMicrometers,
    first_end: PointMicrometers,
    second_start: PointMicrometers,
    second_end: PointMicrometers,
) -> bool {
    let a = spec_orientation(first_start, first_end, second_start);
    let b = spec_orientation(first_start, first_end, second_end);
    let c = spec_orientation(second_start, second_end, first_start);
    let d = spec_orientation(second_start, second_end, first_end);
    let intersects = (spec_opposite_signs(a, b) && spec_opposite_signs(c, d))
        || (a == 0 && spec_in_segment_box(second_start, first_start, first_end))
        || (b == 0 && spec_in_segment_box(second_end, first_start, first_end))
        || (c == 0 && spec_in_segment_box(first_start, second_start, second_end))
        || (d == 0 && spec_in_segment_box(first_end, second_start, second_end));
    let shared_endpoint = first_start == second_start || first_start == second_end || first_end
        == second_start || first_end == second_end;
    let collinear = a == 0 && b == 0 && c == 0 && d == 0;
    intersects && if collinear {
        spec_collinear_overlap(first_start, first_end, second_start, second_end)
    } else {
        !shared_endpoint
    }
}

/// Checks, at a cost of four work units, whether two segments meet anywhere
/// but at a shared endpoint.
pub fn segments_have_disallowed_intersection(
    first_start: PointMicrometers,
    first_end: PointMicrometers,
    second_start: PointMicrometers,
    second_end: PointMicrometers,
    budget: &mut WorkBudget,
) -> (result: Result<bool, MeshError>)
    requires
        point_in_range(first_start),
        point_in_range(first_end),
        point_in_range(second_start),
        point_in_range(second_end),
    ensures
        old(budget).spec_used() + 4 <= MAX_TRIANGULATION_WORK ==> final(budget).spec_used() == old(budget).spec_used() + 4 && result == Ok::<bool, MeshError>(
            spec_disallowed_intersection(first_start, first_end, second_start, second_end),
        ),
        old(budget).spec_used() + 4 > MAX_TRIANGULATION_WORK ==> result matches Err(
            MeshError::TriangulationWorkLimitExceeded { .. },
        ),
        budget_spent(old(budget).spec_used() as int, final(budget).spec_used() as int, 4),
        result is Err ==> budget_exhausted(final(budget).spec_used() as int),
{
    budget.charge(4)?;
    let a = orientation(first_start, first_end, second_start);
    let b = orientation(first_start, first_end, second_end);
    let c = orientation(second_start, second_end, first_start);
    let d = orientation(second_start, second_end, first_end);
    let intersects = (opposite_signs(a, b) && opposite_signs(c, d)) || (a == 0
        && point_in_segment_box(second_start, first_start, first_end)) || (b == 0
        && point_in_segment_box(second_end, first_start, first_end)) || (c == 0
        && point_in_segment_box(first_start, second_start, second_end)) || (d == 0
        && point_in_segment_box(first_end, second_start, second_end));
    if !intersects {
        return Ok(false);
    }
    let shared_endpoint = first_start.same(second_start) || first_start.same(second_end)
        || first_end.same(second_start) || first_end.same(second_end);
    let collinear = a == 0 && b == 0 && c == 0 && d == 0;
    if collinear {
        return Ok(
            collinear_overlap_has_positive_length(first_start, first_end, second_start, second_end),
        );
    }
    Ok(!shared_endpoint)
}

/// `point` lies inside or on a counter-clockwise triangle.
pub open spec fn spec_in_or_on_triangle(point: PointMicrometers, triangle: [PointMicrometers; 3]) -> bool {
    spec_orientation(triangle[0], triangle[1], point) >= 0 && spec_orientation(
        triangle[1],
        triangle[2],
        point,
    ) >= 0 && spec_orientation(triangle[2], triangle[0], point) >= 0
}

/// Checks, at a cost of three work units, whether a point lies inside or on
/// a counter-clockwise triangle.
pub fn point_in_or_on_triangle(
    point: PointMicrometers,
    triangle: [PointMicrometers; 3],
    budget: &mut WorkBudget,
) -> (result: Result<bool, MeshError>)
    requires
        point_in_range(point),
        triangle_in_range(triangle),
    ensures
        old(budget).spec_used() + 3 <= MAX_TRIANGULATION_WORK ==> final(budget).spec_used() == old(budget).spec_used() + 3 && result == Ok::<bool, MeshError>(spec_in_or_on_triangle(point, triangle)),
        old(budget).spec_used() + 3 > MAX_TRIANGULATION_WORK ==> result matches Err(
            MeshError::TriangulationWorkLimitExceeded { .. },
        ),
        budget_spent(old(budget).spec_used() as int, final(budget).spec_used() as int, 3),
        result is Err ==> budget_exhausted(final(budget).spec_used() as int),
{
    budget.charge(3)?;
    Ok(orientation(triangle[0], triangle[1], point) >= 0 && orientation(triangle[1], triangle[2], point)
        >= 0 && orientation(triangle[2], triangle[0], point) >= 0)
}

/// Where a doubled-coordinate point lies relative to a closed ring.
#[derive(Debug, Clone, Copy, PartialEq, Eq, Structural)]
pub enum PointLocation {
    /// Outside (winding number zero).
    Outside,
    /// Inside (nonzero winding number).
    Inside,
    /// On one of the ring's edges.
    Boundary,
}

/// The cross product locating the doubled point against edge `i`.
pub open spec fn scaled_side(ring: Seq<PointMicrometers>, i: int, px2: int, py2: int) -> int {
    let start = ring[i];
    let end = ring[if i + 1 == ring.len() { 0 } else { i + 1 }];
    (end.spec_x() - start.spec_x()) * (py2 - 2 * start.spec_y()) - (end.spec_y() - start.spec_y()) * (px2
        - 2 * start.spec_x())
}

/// The doubled point lies on edge `i` of the ring.
pub open spec fn scaled_on_edge(ring: Seq<PointMicrometers>, i: int, px2: int, py2: int) -> bool {
    let start = ring[i];
    let end = ring[if i + 1 == ring.len() { 0 } else { i + 1 }];
    let sx = 2 * start.spec_x();
    let sy = 2 * start.spec_y();
    let ex = 2 * end.spec_x();
    let ey = 2 * end.spec_y();
    &&& scaled_side(ring, i, px2, py2) == 0
    &&& (if sx <= ex { sx } else { ex }) <= px2 <= (if sx <= ex { ex } else { sx })
    &&& (if sy <= ey { sy } else { ey }) <= py2 <= (if sy <= ey { ey } else { sy })
}

/// The winding contribution of edge `i` about the doubled point.
pub open spec fn winding_step(ring: Seq<PointMicrometers>, i: int, px2: int, py2: int) -> int {
    let start = ring[i];
    let end = ring[if i + 1 == ring.len() { 0 } else { i + 1 }];
    let side = scaled_side(ring, i, px2, py2);
    if 2 * start.spec_y() <= py2 {
        if 2 * end.spec_y() > py2 && side > 0 { 1 } else { 0 }
    } else if 2 * end.spec_y() <= py2 && side < 0 {
        -1
    } else {
        0
    }
}

/// The winding number of the first `count` edges about the doubled point.
pub open spec fn winding(ring: Seq<PointMicrometers>, count: int, px2: int, py2: int) -> int
    decreases count,
{
    if count <= 0 {
        0
    } else {
        winding(ring, count - 1, px2, py2) + winding_step(ring, count - 1, px2, py2)
    }
}

/// The location of a doubled-coordinate point by the nonzero winding rule.
pub open spec fn spec_scaled_location(ring: Seq<PointMicrometers>, px2: int, py2: int) -> PointLocation {
    if exists|i: int| 0 <= i < ring.len() && #[trigger] scaled_on_edge(ring, i, px2, py2) {
        PointLocation::Boundary
    } else if winding(ring, ring.len() as int, px2, py2) != 0 {
        PointLocation::Inside
    } else {
        PointLocation::Outside
    }
}

proof fn lemma_winding_bounded(ring: Seq<PointMicrometers>, count: int, px2: int, py2: int)
    requires
        0 <= count,
    ensures
        -count <= winding(ring, count, px2, py2) <= count,
    decreases count,
{
    if count > 0 {
        lemma_winding_bounded(ring, count - 1, px2, py2);
    }
}

/// Locates a point given by doubled coordinates (so that segment midpoints
/// are exact) relative to a ring, charging one work unit per edge.
pub fn point_in_ring_scaled(
    ring: &[PointMicrometers],
    point_x2: i128,
    point_y2: i128,
    budget: &mut WorkBudget,
) -> (result: Result<PointLocation, MeshError>)
    requires
        points_in_range(ring@),
        0 <= point_x2 <= 2_000_000_000,
        0 <= point_y2 <= 2_000_000_000,
    ensures
        result matches Ok(location) ==> location == spec_scaled_location(
            ring@,
            point_x2 as int,
            point_y2 as int,
        ),
        result is Err ==> result matches Err(MeshError::TriangulationWorkLimitExceeded { .. }),
{
    let n = ring.len();
    let mut total: i128 = 0;
    let mut i: usize = 0;
    while i < n
        invariant
            n == ring@.len(),
            points_in_range(ring@),
            0 <= point_x2 <= 2_000_000_000,
            0 <= point_y2 <= 2_000_000_000,
            0 <= i <= n,
            total == winding(ring@, i as int, point_x2 as int, point_y2 as int),
            forall|k: int| 0 <= k < i ==> !#[trigger] scaled_on_edge(ring@, k, point_x2 as int, point_y2 as int),
        decreases n - i,
    {
        budget.charge(1)?;
        let start = ring[i];
        let end = ring[if i + 1 == n { 0 } else { i + 1 }];
        proof {
            assert(point_in_range(start));
            assert(point_in_range(ring@[if i + 1 == n { 0 } else { i + 1 }]));
        }
        let start_x2 = start.x() as i128 * 2;
        let start_y2 = start.y() as i128 * 2;
        let end_x2 = end.x() as i128 * 2;
        let end_y2 = end.y() as i128 * 2;
        let dx = end.x() as i128 - start.x() as i128;
        let dy = end.y() as i128 - start.y() as i128;
        let qy = point_y2 - start_y2;
        let qx = point_x2 - start_x2;
        proof {
            assert(-4_000_000_000_000_000_000 <= dx * qy <= 4_000_000_000_000_000_000) by (nonlinear_arith)
                requires
                    -1_000_000_000 <= dx <= 1_000_000_000,
                    -4_000_000_000 <= qy <= 4_000_000_000,
            ;
            assert(-4_000_000_000_000_000_000 <= dy * qx <= 4_000_000_000_000_000_000) by (nonlinear_arith)
                requires
                    -1_000_000_000 <= dy <= 1_000_000_000,
                    -4_000_000_000 <= qx <= 4_000_000_000,
            ;
        }
        let side = dx * qy - dy * qx;
        proof {
            assert(side == scaled_side(ring@, i as int, point_x2 as int, point_y2 as int));
        }
        let lx = if start_x2 <= end_x2 { start_x2 } else { end_x2 };
        let hx = if start_x2 <= end_x2 { end_x2 } else { start_x2 };
        let ly = if start_y2 <= end_y2 { start_y2 } else { end_y2 };
        let hy = if start_y2 <= end_y2 { end_y2 } else { start_y2 };
        if side == 0 && point_x2 >= lx && point_x2 <= hx && point_y2 >= ly && point_y2 <= hy {
            proof {
                assert(scaled_on_edge(ring@, i as int, point_x2 as int, point_y2 as int));
            }
            return Ok(PointLocation::Boundary);
        }
        proof {
            lemma_winding_bounded(ring@, i as int, point_x2 as int, point_y2 as int);
        }
        if start_y2 <= point_y2 {
            if end_y2 > point_y2 && side > 0 {
                total = total + 1;
            }
        } else if end_y2 <= point_y2 && side < 0 {
            total = total - 1;
        }
        i += 1;
    }
    proof {
        assert(!exists|k: int| 0 <= k < ring@.len() && #[trigger] scaled_on_edge(ring@, k, point_x2 as int, point_y2 as int));
    }
    Ok(if total == 0 { PointLocation::Outside } else { PointLocation::Inside })
}

/// Computes twice the signed area of a closed ring with checked sums.
pub fn ring_double_area(vertices: &[PointMicrometers]) -> (result: Result<i128, MeshError>)
    requires
        points_in_range(vertices@),
    ensures
        result matches Ok(area) ==> area == spec_signed_double_area(vertices@),
        result is Err ==> result == Err::<i128, MeshError>(
            MeshError::TriangulationFailed("polygon area arithmetic overflowed"),
        ),
{
    let n = vertices.len();
    let mut area: i128 = 0;
    let mut i: usize = 0;
    while i < n
        invariant
            n == vertices@.len(),
            points_in_range(vertices@),
            0 <= i <= n,
            area == spec_edge_cross_sum(vertices@, i as int),
        decreases n - i,
    {
        let start = vertices[i];
        let next_index = if i + 1 == n { 0 } else { i + 1 };
        let end = vertices[next_index];
        proof {
            assert(point_in_range(vertices@[next_index as int]));
            assert((i + 1) as int % n as int == next_index as int) by {
                if i + 1 == n {
                    vstd::arithmetic::div_mod::lemma_mod_self_0(n as int);
                } else {
                    vstd::arithmetic::div_mod::lemma_small_mod((i + 1) as nat, n as nat);
                }
            }
            crate::planar::types::lemma_cross_bounded(start, end);
            let sx = start.spec_x() as int;
            let sy = start.spec_y() as int;
            let ex = end.spec_x() as int;
            let ey = end.spec_y() as int;
            assert(0 <= sx * ey <= 1_000_000_000_000_000_000 && 0 <= sy * ex <= 1_000_000_000_000_000_000) by (nonlinear_arith)
                requires
                    0 <= sx <= 1_000_000_000,
                    0 <= sy <= 1_000_000_000,
                    0 <= ex <= 1_000_000_000,
                    0 <= ey <= 1_000_000_000,
            ;
        }
        let cross = start.x() as i128 * end.y() as i128 - start.y() as i128 * end.x() as i128;
        area = match area.checked_add(cross) {
            Some(sum) => sum,
            None => {
                return Err(MeshError::TriangulationFailed("polygon area arithmetic overflowed"));
            },
        };
        i += 1;
    }
    Ok(area)
}

} // verus!
