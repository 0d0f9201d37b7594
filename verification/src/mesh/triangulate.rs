//! Exact, deterministic polygon triangulation. Holes are connected to the
//! exterior with visibility-tested bridges; the resulting weakly simple ring
//! is ear clipped without discarding any input boundary vertex, so caps
//! and extrusion walls share exactly the same boundary segmentation.

use std::collections::BTreeMap;

use vstd::prelude::*;

use crate::mesh::exact::{
    budget_exhausted, budget_spent, point_in_or_on_triangle, point_in_ring_scaled, ring_double_area,
    segments_have_disallowed_intersection, spec_disallowed_intersection, triangle_area, triangle_cross,
    triangle_in_range,
    PointLocation, WorkBudget,
};
use crate::mesh::types::MeshError;
use crate::order::{lemma_same_members, sort_vec, sorted, LexOrder};
use crate::planar::predicates::squared_distance;
use crate::planar::tracing::{copy_vertices, members_of};
use crate::planar::types::{
    point_in_range, point_less, point_lt, points_in_range, points_seq_le, points_seq_less_or_equal,
    spec_signed_double_area, PointMicrometers, Ring,
};

verus! {

broadcast use vstd::seq_lib::group_to_multiset_ensures;

/// Twice the total area of a triangle list.
pub open spec fn triangles_area(triangles: Seq<[PointMicrometers; 3]>) -> int
    decreases triangles.len(),
{
    if triangles.len() == 0 {
        0
    } else {
        triangles_area(triangles.drop_last()) + triangle_area(triangles.last())
    }
}

/// Every triangle is counter-clockwise with positive area.
pub open spec fn positively_oriented(triangles: Seq<[PointMicrometers; 3]>) -> bool {
    forall|i: int| 0 <= i < triangles.len() ==> triangle_area(#[trigger] triangles[i]) > 0
}

/// Every triangle corner is one of the given points.
pub open spec fn corners_from(triangles: Seq<[PointMicrometers; 3]>, points: Seq<PointMicrometers>) -> bool {
    forall|i: int|
        0 <= i < triangles.len() ==> points.contains((#[trigger] triangles[i])[0]) && points.contains(
            triangles[i][1],
        ) && points.contains(triangles[i][2])
}

/// All rings are in range.
pub open spec fn rings_in_range(rings: Seq<&[PointMicrometers]>) -> bool {
    forall|i: int| 0 <= i < rings.len() ==> points_in_range((#[trigger] rings[i])@)
}

/// The twice-area sum of an exterior and its holes.
pub open spec fn rings_total_area(exterior: Seq<PointMicrometers>, holes: Seq<&[PointMicrometers]>, count: int) -> int
    decreases count,
{
    if count <= 0 {
        spec_signed_double_area(exterior)
    } else {
        rings_total_area(exterior, holes, count - 1) + spec_signed_double_area(holes[count - 1]@)
    }
}

/// Checks that the exterior is counter-clockwise, every hole is clockwise,
/// and the rings enclose exactly the expected area.
pub fn validate_input(
    exterior: &[PointMicrometers],
    holes: &[&[PointMicrometers]],
    expected_double_area: i128,
) -> (result: Result<(), MeshError>)
    requires
        points_in_range(exterior@),
        rings_in_range(holes@),
    ensures
        result is Ok ==> {
            &&& exterior@.len() >= 3
            &&& expected_double_area > 0
            &&& spec_signed_double_area(exterior@) > 0
            &&& forall|h: int|
                0 <= h < holes@.len() ==> (#[trigger] holes@[h])@.len() >= 3 && spec_signed_double_area(
                    holes@[h]@,
                ) < 0
            &&& rings_total_area(exterior@, holes@, holes@.len() as int) == expected_double_area
        },
        result is Err ==> result matches Err(MeshError::TriangulationFailed(_)),
{
    if exterior.len() < 3 || expected_double_area <= 0 {
        return Err(MeshError::TriangulationFailed("a polygon exterior must have positive area"));
    }
    if ring_double_area(exterior)? <= 0 {
        return Err(MeshError::TriangulationFailed("the polygon exterior is not counter-clockwise"));
    }
    let mut actual_area = ring_double_area(exterior)?;
    let mut h: usize = 0;
    while h < holes.len()
        invariant
            rings_in_range(holes@),
            0 <= h <= holes@.len(),
            actual_area == rings_total_area(exterior@, holes@, h as int),
            forall|k: int|
                0 <= k < h ==> (#[trigger] holes@[k])@.len() >= 3 && spec_signed_double_area(holes@[k]@) < 0,
        decreases holes@.len() - h,
    {
        let hole = holes[h];
        proof {
            assert(points_in_range(holes@[h as int]@));
        }
        if hole.len() < 3 || ring_double_area(hole)? >= 0 {
            return Err(MeshError::TriangulationFailed("a polygon hole is not clockwise"));
        }
        let hole_area = ring_double_area(hole)?;
        actual_area = match actual_area.checked_add(hole_area) {
            Some(sum) => sum,
            None => {
                return Err(MeshError::TriangulationFailed("polygon area arithmetic overflowed"));
            },
        };
        h += 1;
    }
    if actual_area != expected_double_area {
        return Err(
            MeshError::TriangulationFailed("the supplied polygon area does not match its rings"),
        );
    }
    Ok(())
}

/// The vertex with the largest `(x, y)`.
pub fn rightmost(vertices: &[PointMicrometers]) -> (point: PointMicrometers)
    requires
        vertices@.len() > 0,
    ensures
        vertices@.contains(point),
        forall|i: int| 0 <= i < vertices@.len() ==> (#[trigger] vertices@[i]).ordered_le(point),
{
    let mut best = vertices[0];
    let mut i: usize = 1;
    while i < vertices.len()
        invariant
            1 <= i <= vertices@.len(),
            vertices@.contains(best),
            forall|k: int| 0 <= k < i ==> (#[trigger] vertices@[k]).ordered_le(best),
        decreases vertices@.len() - i,
    {
        if LexOrder::le(&best, &vertices[i]) {
            let ghost previous = best;
            best = vertices[i];
            proof {
                assert(vertices@.contains(vertices@[i as int]));
                assert forall|k: int| 0 <= k < i + 1 implies (#[trigger] vertices@[k]).ordered_le(best) by {
                    if k < i {
                        PointMicrometers::lemma_le_transitive(vertices@[k], previous, best);
                    } else {
                        PointMicrometers::lemma_le_total(best, best);
                    }
                }
            }
        } else {
            proof {
                PointMicrometers::lemma_le_total(best, vertices@[i as int]);
            }
        }
        i += 1;
    }
    best
}

/// The ring read from position `start` around to just before it.
pub open spec fn rotated_from(ring: Seq<PointMicrometers>, start: int) -> Seq<PointMicrometers> {
    ring.subrange(start, ring.len() as int) + ring.subrange(0, start)
}

/// The ring obtained by walking from `merged[outer]` across a bridge to
/// `hole[inner]`, around the hole, and back.
pub open spec fn spliced(
    merged: Seq<PointMicrometers>,
    outer: int,
    hole: Seq<PointMicrometers>,
    inner: int,
) -> Seq<PointMicrometers> {
    merged.subrange(0, outer + 1) + rotated_from(hole, inner) + seq![hole[inner], merged[outer]]
        + merged.subrange(outer + 1, merged.len() as int)
}

fn push_range(target: &mut Vec<PointMicrometers>, source: &[PointMicrometers], from: usize, to: usize)
    requires
        from <= to <= source@.len(),
    ensures
        final(target)@ == old(target)@ + source@.subrange(from as int, to as int),
{
    let ghost start = target@;
    let mut k = from;
    while k < to
        invariant
            from <= k <= to <= source@.len(),
            target@ == start + source@.subrange(from as int, k as int),
        decreases to - k,
    {
        target.push(source[k]);
        proof {
            assert(source@.subrange(from as int, k + 1) == source@.subrange(from as int, k as int).push(
                source@[k as int],
            ));
        }
        k += 1;
    }
}

/// Splices a hole into the bridged ring at `merged[outer_index]`, entering
/// the hole at `hole[hole_index]`.
pub fn splice_hole(
    merged: &[PointMicrometers],
    outer_index: usize,
    hole: &[PointMicrometers],
    hole_index: usize,
) -> (result: Result<Vec<PointMicrometers>, MeshError>)
    requires
        outer_index < merged@.len(),
        hole_index < hole@.len(),
    ensures
        result matches Ok(ring) ==> ring@ == spliced(merged@, outer_index as int, hole@, hole_index as int),
        result is Err ==> result == Err::<Vec<PointMicrometers>, MeshError>(
            MeshError::TriangulationFailed("bridged polygon vertex count overflowed"),
        ),
{
    let capacity = match merged.len().checked_add(hole.len()) {
        Some(length) => length.checked_add(2),
        None => None,
    };
    if capacity.is_none() {
        return Err(MeshError::TriangulationFailed("bridged polygon vertex count overflowed"));
    }
    let mut result: Vec<PointMicrometers> = Vec::new();
    push_range(&mut result, merged, 0, outer_index + 1);
    push_range(&mut result, hole, hole_index, hole.len());
    push_range(&mut result, hole, 0, hole_index);
    result.push(hole[hole_index]);
    result.push(merged[outer_index]);
    push_range(&mut result, merged, outer_index + 1, merged.len());
    proof {
        assert(result@ =~= spliced(merged@, outer_index as int, hole@, hole_index as int));
    }
    Ok(result)
}

/// Indices into the vertex list that are still part of the polygon being clipped.
pub open spec fn active_valid(active: Seq<usize>, count: int) -> bool {
    forall|i: int| 0 <= i < active.len() ==> #[trigger] active[i] < count
}

/// The candidate ear at `position` of the active polygon.
pub open spec fn ear_triangle(
    vertices: Seq<PointMicrometers>,
    active: Seq<usize>,
    position: int,
) -> [PointMicrometers; 3] {
    let n = active.len() as int;
    [
        vertices[active[if position == 0 { n - 1 } else { position - 1 }] as int],
        vertices[active[position] as int],
        vertices[active[if position + 1 == n { 0 } else { position + 1 }] as int],
    ]
}

/// The active position after `position`, wrapping around.
pub open spec fn following(n: int, position: int) -> int {
    if position + 1 == n {
        0
    } else {
        position + 1
    }
}

/// The active position before `position`, wrapping around.
pub open spec fn preceding(n: int, position: int) -> int {
    if position == 0 {
        n - 1
    } else {
        position - 1
    }
}

/// The active edge starting at position `k` meets the candidate diagonal of
/// the ear at `position` other than at a shared endpoint, and is not that
/// diagonal itself.
pub open spec fn edge_blocks_diagonal(vertices: Seq<PointMicrometers>, active: Seq<usize>, position: int, k: int) -> bool {
    let n = active.len() as int;
    let previous = active[preceding(n, position)];
    let next = active[following(n, position)];
    let start = active[k];
    let end = active[following(n, k)];
    &&& !((start == previous && end == next) || (start == next && end == previous))
    &&& spec_disallowed_intersection(vertices[previous as int], vertices[next as int], vertices[start as int], vertices[end as int])
}

/// The active vertex at position `k` is not a corner of the ear at
/// `position`, by index or by coordinates, and lies inside or on it.
pub open spec fn vertex_in_ear(vertices: Seq<PointMicrometers>, active: Seq<usize>, position: int, k: int) -> bool {
    let n = active.len() as int;
    let triangle = ear_triangle(vertices, active, position);
    let candidate = active[k];
    &&& candidate != active[preceding(n, position)]
    &&& candidate != active[position]
    &&& candidate != active[following(n, position)]
    &&& vertices[candidate as int] != triangle[0]
    &&& vertices[candidate as int] != triangle[1]
    &&& vertices[candidate as int] != triangle[2]
    &&& crate::mesh::exact::spec_in_or_on_triangle(vertices[candidate as int], triangle)
}

/// The active vertex at `position` is a clippable ear: a counter-clockwise
/// corner whose diagonal meets no other active edge except at shared
/// endpoints, and whose triangle contains no other active vertex.
pub open spec fn spec_is_ear(vertices: Seq<PointMicrometers>, active: Seq<usize>, position: int) -> bool {
    &&& triangle_area(ear_triangle(vertices, active, position)) > 0
    &&& forall|k: int| 0 <= k < active.len() ==> !#[trigger] edge_blocks_diagonal(vertices, active, position, k)
    &&& forall|k: int| 0 <= k < active.len() ==> !#[trigger] vertex_in_ear(vertices, active, position, k)
}

/// Decides whether the active vertex at `position` is a clippable ear:
/// a counter-clockwise corner whose diagonal meets no other active edge
/// except at shared endpoints, and whose triangle contains no other active
/// vertex.
pub fn is_ear(
    vertices: &[PointMicrometers],
    active: &Vec<usize>,
    position: usize,
    budget: &mut WorkBudget,
) -> (result: Result<bool, MeshError>)
    requires
        points_in_range(vertices@),
        active_valid(active@, vertices@.len() as int),
        3 <= active@.len(),
        position < active@.len(),
    ensures
        result matches Ok(ear) ==> ear == spec_is_ear(vertices@, active@, position as int),
        result is Err ==> result matches Err(MeshError::TriangulationWorkLimitExceeded { .. }),
        budget_spent(old(budget).spec_used() as int, final(budget).spec_used() as int, 1 + 7 * active@.len() as int),
        result is Err ==> budget_exhausted(final(budget).spec_used() as int),
{
    let ghost start = budget.spec_used() as int;
    let n = active.len();
    let previous = active[if position == 0 { n - 1 } else { position - 1 }];
    let current = active[position];
    let next = active[if position + 1 == n { 0 } else { position + 1 }];
    let triangle = [vertices[previous], vertices[current], vertices[next]];
    proof {
        assert(triangle =~= ear_triangle(vertices@, active@, position as int));
        assert(point_in_range(vertices@[previous as int]));
        assert(point_in_range(vertices@[current as int]));
        assert(point_in_range(vertices@[next as int]));
    }
    budget.charge(1)?;
    if triangle_cross(triangle) <= 0 {
        return Ok(false);
    }
    let mut edge_position: usize = 0;
    while edge_position < n
        invariant
            n == active@.len(),
            points_in_range(vertices@),
            active_valid(active@, vertices@.len() as int),
            position < n,
            previous == active@[preceding(n as int, position as int)],
            next == active@[following(n as int, position as int)],
            previous < vertices@.len(),
            next < vertices@.len(),
            0 <= edge_position <= n,
            forall|k: int| 0 <= k < edge_position ==> !#[trigger] edge_blocks_diagonal(vertices@, active@, position as int, k),
            budget_spent(start, budget.spec_used() as int, 1 + 4 * edge_position),
            start == old(budget).spec_used(),
        decreases n - edge_position,
    {
        let edge_start = active[edge_position];
        let edge_end = active[if edge_position + 1 == n { 0 } else { edge_position + 1 }];
        proof {
            assert(edge_start < vertices@.len());
            assert(active@[if edge_position + 1 == n { 0 } else { edge_position + 1 } as int] < vertices@.len());
        }
        if !((edge_start == previous && edge_end == next) || (edge_start == next && edge_end == previous)) {
            proof {
                assert(point_in_range(vertices@[edge_start as int]));
                assert(point_in_range(vertices@[edge_end as int]));
            }
            if segments_have_disallowed_intersection(
                vertices[previous],
                vertices[next],
                vertices[edge_start],
                vertices[edge_end],
                budget,
            )? {
                proof {
                    assert(edge_blocks_diagonal(vertices@, active@, position as int, edge_position as int));
                }
                return Ok(false);
            }
        }
        edge_position += 1;
    }
    let mut k: usize = 0;
    while k < n
        invariant
            n == active@.len(),
            points_in_range(vertices@),
            active_valid(active@, vertices@.len() as int),
            position < n,
            previous == active@[preceding(n as int, position as int)],
            current == active@[position as int],
            next == active@[following(n as int, position as int)],
            triangle_in_range(triangle),
            triangle_area(triangle) > 0,
            triangle =~= ear_triangle(vertices@, active@, position as int),
            0 <= k <= n,
            forall|j: int| 0 <= j < k ==> !#[trigger] vertex_in_ear(vertices@, active@, position as int, j),
            budget_spent(start, budget.spec_used() as int, 1 + 4 * n + 3 * k),
            start == old(budget).spec_used(),
        decreases n - k,
    {
        let candidate_index = active[k];
        if candidate_index != previous && candidate_index != current && candidate_index != next {
            let candidate = vertices[candidate_index];
            let on_corner = candidate.same(triangle[0]) || candidate.same(triangle[1]) || candidate.same(triangle[2]);
            if !on_corner {
                proof {
                    assert(point_in_range(vertices@[candidate_index as int]));
                }
                if point_in_or_on_triangle(candidate, triangle, budget)? {
                    proof {
                        assert(vertex_in_ear(vertices@, active@, position as int, k as int));
                    }
                    return Ok(false);
                }
            }
        }
        k += 1;
    }
    Ok(true)
}

/// The first ear among the first `limit` active positions.
pub open spec fn first_ear(vertices: Seq<PointMicrometers>, active: Seq<usize>, limit: int) -> Option<int>
    decreases limit,
{
    if limit <= 0 {
        None
    } else {
        match first_ear(vertices, active, limit - 1) {
            Some(p) => Some(p),
            None => if spec_is_ear(vertices, active, limit - 1) {
                Some(limit - 1)
            } else {
                None
            },
        }
    }
}

/// The triangle left when three active vertices remain.
pub open spec fn last_triangle(vertices: Seq<PointMicrometers>, active: Seq<usize>) -> [PointMicrometers; 3] {
    [vertices[active[0] as int], vertices[active[1] as int], vertices[active[2] as int]]
}

/// The triangles produced by repeatedly clipping the first ear of the active
/// polygon and then keeping the last triangle; nothing when clipping stalls
/// or the last triangle is degenerate or reversed.
pub open spec fn clip_from(vertices: Seq<PointMicrometers>, active: Seq<usize>) -> Option<Seq<[PointMicrometers; 3]>>
    decreases active.len(),
{
    if active.len() < 3 {
        None
    } else if active.len() == 3 {
        if triangle_area(last_triangle(vertices, active)) > 0 {
            Some(seq![last_triangle(vertices, active)])
        } else {
            None
        }
    } else {
        match first_ear(vertices, active, active.len() as int) {
            Some(p) => if 0 <= p < active.len() {
                match clip_from(vertices, active.remove(p)) {
                    Some(rest) => Some(seq![ear_triangle(vertices, active, p)] + rest),
                    None => None,
                }
            } else {
                None
            },
            None => None,
        }
    }
}

/// The triangles that first-ear clipping produces from a whole ring.
pub open spec fn ear_clipping(vertices: Seq<PointMicrometers>) -> Option<Seq<[PointMicrometers; 3]>> {
    clip_from(vertices, Seq::new(vertices.len(), |i: int| i as usize))
}

/// `done` followed by what `rest` produces, if it produces anything.
pub open spec fn after(done: Seq<[PointMicrometers; 3]>, rest: Option<Seq<[PointMicrometers; 3]>>) -> Option<
    Seq<[PointMicrometers; 3]>,
> {
    match rest {
        Some(more) => Some(done + more),
        None => None,
    }
}

/// Once an ear is found, searching further finds the same ear.
proof fn lemma_first_ear_stable(vertices: Seq<PointMicrometers>, active: Seq<usize>, limit: int, more: int)
    requires
        limit <= more,
        first_ear(vertices, active, limit) is Some,
    ensures
        first_ear(vertices, active, more) == first_ear(vertices, active, limit),
    decreases more - limit,
{
    if limit < more {
        lemma_first_ear_stable(vertices, active, limit, more - 1);
    }
}

/// An upper bound on the work units that first-ear clipping of a ring of
/// `count` vertices charges: at most `count` rounds, each testing at most
/// `count` positions, each test costing at most one unit plus four per ring
/// side and three per vertex, and one unit for the last triangle.
pub open spec fn ear_clip_work_bound(count: int) -> int {
    count * count * (1 + 7 * count) + 1
}

/// First-ear clipping of a ring of up to two hundred vertices never needs
/// more work than a fresh budget allows, so from an unused budget it is
/// never refused for work.
pub proof fn lemma_ear_clip_work_fits(count: int)
    requires
        0 <= count <= 200,
    ensures
        ear_clip_work_bound(count) + 4 <= crate::mesh::MAX_TRIANGULATION_WORK,
{
    assert(count * count * (1 + 7 * count) <= 56_040_000) by (nonlinear_arith)
        requires
            0 <= count <= 200,
    ;
    assert(ear_clip_work_bound(count) == count * count * (1 + 7 * count) + 1);
    assert(crate::mesh::MAX_TRIANGULATION_WORK == 100_000_000);
}

/// A round's work, added to the rounds before it, stays within the bound
/// for one more round.
proof fn lemma_round_fits(count: int, len: int, tests: int, test_cost: int, round_cost: int)
    requires
        0 <= tests <= len <= count,
        1 <= len,
        test_cost >= 0,
        round_cost == count * test_cost,
    ensures
        (count - len) * round_cost + tests * test_cost <= (count - len + 1) * round_cost,
        (count - len + 1) * round_cost <= count * round_cost,
{
    assert(tests * test_cost <= count * test_cost) by (nonlinear_arith)
        requires
            tests <= count,
            test_cost >= 0,
    ;
    assert((count - len) * round_cost + round_cost == (count - len + 1) * round_cost) by (nonlinear_arith);
    assert((count - len + 1) * round_cost <= count * round_cost) by (nonlinear_arith)
        requires
            count - len + 1 <= count,
            round_cost >= 0,
            round_cost == count * test_cost,
            test_cost >= 0,
            count >= 0,
    ;
}

/// Ear clips a weakly simple counter-clockwise ring into `n - 2`
/// counter-clockwise triangles built from its vertices, always clipping the
/// first ear found.
pub fn ear_clip(vertices: &[PointMicrometers], budget: &mut WorkBudget) -> (result: Result<
    Vec<[PointMicrometers; 3]>,
    MeshError,
>)
    requires
        points_in_range(vertices@),
    ensures
        result matches Ok(triangles) ==> {
            &&& Some(triangles@) == ear_clipping(vertices@)
            &&& triangles@.len() == vertices@.len() - 2
            &&& positively_oriented(triangles@)
            &&& corners_from(triangles@, vertices@)
        },
        result is Err ==> result matches Err(MeshError::TriangulationWorkLimitExceeded { .. }) || (result matches Err(
            MeshError::TriangulationFailed(_),
        ) && ear_clipping(vertices@) is None),
        budget_spent(
            old(budget).spec_used() as int,
            final(budget).spec_used() as int,
            ear_clip_work_bound(vertices@.len() as int),
        ),
        result matches Err(MeshError::TriangulationWorkLimitExceeded { .. }) ==> budget_exhausted(
            final(budget).spec_used() as int,
        ),
        ear_clipping(vertices@) is Some && old(budget).spec_used() + ear_clip_work_bound(vertices@.len() as int) + 4
            <= crate::mesh::MAX_TRIANGULATION_WORK ==> result is Ok,
{
    let ghost start = budget.spec_used() as int;
    let count = vertices.len();
    let ghost test_cost = 1 + 7 * count as int;
    let ghost round_cost = count as int * test_cost;
    proof {
        assert(ear_clip_work_bound(count as int) == count as int * round_cost + 1) by (nonlinear_arith)
            requires
                round_cost == count as int * test_cost,
                test_cost == 1 + 7 * count as int,
        ;
        assert(round_cost >= 0) by (nonlinear_arith)
            requires
                round_cost == count as int * test_cost,
                test_cost == 1 + 7 * count as int,
                count >= 0,
        ;
    }
    if count < 3 {
        return Err(MeshError::TriangulationFailed("a bridged polygon has fewer than three vertices"));
    }
    let mut triangles: Vec<[PointMicrometers; 3]> = Vec::new();
    let mut active: Vec<usize> = Vec::new();
    while active.len() < count
        invariant
            active@.len() <= count,
            count == vertices@.len(),
            forall|i: int| 0 <= i < active@.len() ==> #[trigger] active@[i] == i,
        decreases count - active@.len(),
    {
        let next = active.len();
        active.push(next);
    }
    proof {
        assert(active@ =~= Seq::new(vertices@.len(), |i: int| i as usize));
        assert(triangles@ + clip_from(vertices@, active@).unwrap() =~= clip_from(vertices@, active@).unwrap());
    }
    while active.len() > 3
        invariant
            count == vertices@.len(),
            points_in_range(vertices@),
            3 <= active@.len(),
            active_valid(active@, count as int),
            triangles@.len() + active@.len() == count,
            positively_oriented(triangles@),
            corners_from(triangles@, vertices@),
            ear_clipping(vertices@) == after(triangles@, clip_from(vertices@, active@)),
            start == old(budget).spec_used(),
            test_cost == 1 + 7 * count as int,
            round_cost == count as int * test_cost,
            round_cost >= 0,
            budget_spent(start, budget.spec_used() as int, (count - active@.len()) * round_cost),
            ear_clip_work_bound(count as int) == count as int * round_cost + 1,
        decreases active@.len(),
    {
        let mut ear: Option<usize> = None;
        let mut position: usize = 0;
        let ghost round_start = budget.spec_used() as int;
        while position < active.len()
            invariant_except_break
                budget_spent(round_start, budget.spec_used() as int, position * test_cost),
                ear is None,
                first_ear(vertices@, active@, position as int) is None,
            invariant
                count == vertices@.len(),
                points_in_range(vertices@),
                3 <= active@.len(),
                active_valid(active@, count as int),
                0 <= position <= active@.len(),
                active@.len() <= count,
                test_cost == 1 + 7 * count as int,
                round_cost == count as int * test_cost,
                start == old(budget).spec_used(),
                budget_spent(start, round_start, (count - active@.len()) * round_cost),
                ear_clip_work_bound(count as int) == count as int * round_cost + 1,
            ensures
                budget_spent(round_start, budget.spec_used() as int, active@.len() * test_cost),
                ear matches Some(p) ==> p < active@.len() && triangle_area(ear_triangle(vertices@, active@, p as int)) > 0
                    && first_ear(vertices@, active@, active@.len() as int) == Some(p as int),
                ear is None ==> first_ear(vertices@, active@, active@.len() as int) is None,
            decreases active@.len() - position,
        {
            let ghost before_test = budget.spec_used() as int;
            let tested = is_ear(vertices, &active, position, budget);
            proof {
                lemma_round_fits(count as int, active@.len() as int, position + 1, test_cost, round_cost);
                assert(position * test_cost + test_cost == (position + 1) * test_cost) by (nonlinear_arith);
                assert((position + 1) * test_cost <= active@.len() * test_cost) by (nonlinear_arith)
                    requires
                        position + 1 <= active@.len(),
                        test_cost >= 0,
                ;
            }
            if tested? {
                ear = Some(position);
                proof {
                    assert(first_ear(vertices@, active@, position + 1) == Some(position as int));
                    lemma_first_ear_stable(vertices@, active@, position + 1, active@.len() as int);
                }
                break;
            }
            position += 1;
        }
        let position = match ear {
            Some(p) => p,
            None => {
                proof {
                    assert(clip_from(vertices@, active@) is None);
                    lemma_round_fits(count as int, active@.len() as int, active@.len() as int, test_cost, round_cost);
                }
                return Err(MeshError::TriangulationFailed("ear clipping stalled on a weakly-simple polygon"));
            },
        };
        proof {
            lemma_round_fits(count as int, active@.len() as int, active@.len() as int, test_cost, round_cost);
        }
        let ghost clipped = clip_from(vertices@, active@.remove(position as int));
        let ghost done = triangles@;
        let n = active.len();
        let previous = active[if position == 0 { n - 1 } else { position - 1 }];
        let current = active[position];
        let next = active[if position + 1 == n { 0 } else { position + 1 }];
        let triangle = [vertices[previous], vertices[current], vertices[next]];
        proof {
            assert(triangle =~= ear_triangle(vertices@, active@, position as int));
            assert(vertices@.contains(vertices@[previous as int]));
            assert(vertices@.contains(vertices@[current as int]));
            assert(vertices@.contains(vertices@[next as int]));
        }
        triangles.push(triangle);
        let ghost before = active@;
        active.remove(position);
        proof {
            assert forall|i: int| 0 <= i < triangles@.len() implies triangle_area(#[trigger] triangles@[i]) > 0 by {
                if i < triangles@.len() - 1 {
                    assert(triangles@[i] == triangles@.drop_last()[i]);
                }
            }
            assert forall|i: int| 0 <= i < triangles@.len() implies vertices@.contains((#[trigger] triangles@[i])[0])
                && vertices@.contains(triangles@[i][1]) && vertices@.contains(triangles@[i][2]) by {
                if i < triangles@.len() - 1 {
                    assert(triangles@[i] == triangles@.drop_last()[i]);
                }
            }
            assert forall|i: int| 0 <= i < active@.len() implies #[trigger] active@[i] < count by {
                if i < position {
                    assert(active@[i] == before[i]);
                } else {
                    assert(active@[i] == before[i + 1]);
                }
            }
            assert(active@ == before.remove(position as int));
            assert(clip_from(vertices@, before) == after(seq![triangle], clipped));
            if clipped is Some {
                assert(done.push(triangle) + clipped.unwrap() =~= done + (seq![triangle] + clipped.unwrap()));
            }
        }
    }
    proof {
        assert(active@[0] < count && active@[1] < count && active@[2] < count);
    }
    let final_triangle = [vertices[active[0]], vertices[active[1]], vertices[active[2]]];
    proof {
        assert(point_in_range(vertices@[active@[0] as int]));
        assert(point_in_range(vertices@[active@[1] as int]));
        assert(point_in_range(vertices@[active@[2] as int]));
        assert(vertices@.contains(vertices@[active@[0] as int]));
        assert(vertices@.contains(vertices@[active@[1] as int]));
        assert(vertices@.contains(vertices@[active@[2] as int]));
    }
    proof {
        assert(final_triangle =~= last_triangle(vertices@, active@));
    }
    proof {
        assert((count - 3) * round_cost <= count * round_cost) by (nonlinear_arith)
            requires
                round_cost >= 0,
        ;
    }
    budget.charge(1)?;
    if triangle_cross(final_triangle) <= 0 {
        return Err(MeshError::TriangulationFailed("the final ear is degenerate or reversed"));
    }
    let ghost done = triangles@;
    triangles.push(final_triangle);
    proof {
        assert(done + seq![final_triangle] =~= triangles@);
        assert forall|i: int| 0 <= i < triangles@.len() implies triangle_area(#[trigger] triangles@[i]) > 0 by {
            if i < triangles@.len() - 1 {
                assert(triangles@[i] == triangles@.drop_last()[i]);
            }
        }
        assert forall|i: int| 0 <= i < triangles@.len() implies vertices@.contains((#[trigger] triangles@[i])[0])
            && vertices@.contains(triangles@[i][1]) && vertices@.contains(triangles@[i][2]) by {
            if i < triangles@.len() - 1 {
                assert(triangles@[i] == triangles@.drop_last()[i]);
            }
        }
    }
    Ok(triangles)
}

/// One use of an undirected edge: its endpoints in lexicographic order and
/// whether it was traversed in that order.
/// Uses of one undirected segment in each direction: forward runs from the
/// segment's lexicographically lower endpoint to its higher one.
#[derive(Debug, Clone, Copy)]
pub struct EdgeUse {
    pub forward: usize,
    pub reverse: usize,
}

/// A segment's endpoint coordinates, its lower endpoint first.
pub open spec fn segment_key(start: PointMicrometers, end: PointMicrometers) -> (i64, i64, i64, i64) {
    if point_lt(start, end) {
        (start.spec_x(), start.spec_y(), end.spec_x(), end.spec_y())
    } else {
        (end.spec_x(), end.spec_y(), start.spec_x(), start.spec_y())
    }
}

/// One when the segment from `start` to `end` lies on `key` and runs in the
/// given direction, else zero.
pub open spec fn side_count(start: PointMicrometers, end: PointMicrometers, key: (i64, i64, i64, i64), forward: bool) -> int {
    if segment_key(start, end) == key && point_lt(start, end) == forward {
        1
    } else {
        0
    }
}

/// The key of a triangle's side from corner `e` to the next corner.
pub open spec fn triangle_side_key(triangle: [PointMicrometers; 3], e: int) -> (i64, i64, i64, i64) {
    segment_key(triangle[e], triangle[(e + 1) % 3])
}

/// Uses of `key` in one direction by a triangle's first `sides` sides.
pub open spec fn triangle_uses(
    triangle: [PointMicrometers; 3],
    sides: int,
    key: (i64, i64, i64, i64),
    forward: bool,
) -> int
    decreases sides,
{
    if sides <= 0 {
        0
    } else {
        triangle_uses(triangle, sides - 1, key, forward) + side_count(
            triangle[sides - 1],
            triangle[sides % 3],
            key,
            forward,
        )
    }
}

/// Uses of `key` in one direction by the sides of the first `count` triangles.
pub open spec fn triangles_uses(
    triangles: Seq<[PointMicrometers; 3]>,
    count: int,
    key: (i64, i64, i64, i64),
    forward: bool,
) -> int
    decreases count,
{
    if count <= 0 {
        0
    } else {
        triangles_uses(triangles, count - 1, key, forward) + triangle_uses(triangles[count - 1], 3, key, forward)
    }
}

/// Uses of `key` in one direction by the first `count` sides of a closed ring.
pub open spec fn ring_uses(ring: Seq<PointMicrometers>, count: int, key: (i64, i64, i64, i64), forward: bool) -> int
    decreases count,
{
    if count <= 0 {
        0
    } else {
        ring_uses(ring, count - 1, key, forward) + side_count(ring[count - 1], ring[count % (ring.len() as int)], key, forward)
    }
}

/// Uses of `key` in one direction by the sides of the first `count` holes.
pub open spec fn holes_uses(
    holes: Seq<Seq<PointMicrometers>>,
    count: int,
    key: (i64, i64, i64, i64),
    forward: bool,
) -> int
    decreases count,
{
    if count <= 0 {
        0
    } else {
        holes_uses(holes, count - 1, key, forward) + ring_uses(
            holes[count - 1],
            holes[count - 1].len() as int,
            key,
            forward,
        )
    }
}

/// The vertex sequences of rings.
pub open spec fn ring_views(rings: Seq<Ring>) -> Seq<Seq<PointMicrometers>> {
    rings.map_values(|ring: Ring| ring.spec_vertices())
}

/// The vertex sequences of hole rings given as slices.
pub open spec fn hole_views(holes: Seq<&[PointMicrometers]>) -> Seq<Seq<PointMicrometers>> {
    holes.map_values(|hole: &[PointMicrometers]| hole@)
}

/// Uses of `key` in one direction by the sides of all polygon rings.
pub open spec fn boundary_uses(
    exterior: Seq<PointMicrometers>,
    holes: Seq<Seq<PointMicrometers>>,
    key: (i64, i64, i64, i64),
    forward: bool,
) -> int {
    ring_uses(exterior, exterior.len() as int, key, forward) + holes_uses(holes, holes.len() as int, key, forward)
}

/// Uses of `key` in either direction by the sides of all polygon rings.
pub open spec fn boundary_total(
    exterior: Seq<PointMicrometers>,
    holes: Seq<Seq<PointMicrometers>>,
    key: (i64, i64, i64, i64),
) -> int {
    boundary_uses(exterior, holes, key, true) + boundary_uses(exterior, holes, key, false)
}

/// The rings use the segment `key` once, and the triangles use it exactly
/// as the rings do.
pub open spec fn segment_retained(
    exterior: Seq<PointMicrometers>,
    holes: Seq<Seq<PointMicrometers>>,
    triangles: Seq<[PointMicrometers; 3]>,
    key: (i64, i64, i64, i64),
) -> bool {
    &&& boundary_total(exterior, holes, key) == 1
    &&& triangles_uses(triangles, triangles.len() as int, key, true) == boundary_uses(exterior, holes, key, true)
    &&& triangles_uses(triangles, triangles.len() as int, key, false) == boundary_uses(exterior, holes, key, false)
}

/// The triangles use the segment `key` exactly twice, once in each direction.
pub open spec fn internal_paired(triangles: Seq<[PointMicrometers; 3]>, key: (i64, i64, i64, i64)) -> bool {
    &&& triangles_uses(triangles, triangles.len() as int, key, true) == 1
    &&& triangles_uses(triangles, triangles.len() as int, key, false) == 1
}

/// A triangle side lies either on the polygon boundary, which it then
/// retains exactly, or on an internal segment paired in reverse.
pub open spec fn side_accounted(
    exterior: Seq<PointMicrometers>,
    holes: Seq<Seq<PointMicrometers>>,
    triangles: Seq<[PointMicrometers; 3]>,
    key: (i64, i64, i64, i64),
) -> bool {
    if boundary_total(exterior, holes, key) == 0 {
        internal_paired(triangles, key)
    } else {
        segment_retained(exterior, holes, triangles, key)
    }
}

/// Every triangle side is accounted for by the polygon rings, and every
/// boundary segment of the rings is retained exactly by the triangles.
pub open spec fn triangulation_fits(
    exterior: Seq<PointMicrometers>,
    holes: Seq<Seq<PointMicrometers>>,
    triangles: Seq<[PointMicrometers; 3]>,
) -> bool {
    &&& forall|t: int, e: int|
        0 <= t < triangles.len() && 0 <= e < 3 ==> side_accounted(
            exterior,
            holes,
            triangles,
            #[trigger] triangle_side_key(triangles[t], e),
        )
    &&& forall|key: (i64, i64, i64, i64)|
        #[trigger] boundary_total(exterior, holes, key) > 0 ==> segment_retained(exterior, holes, triangles, key)
}

/// The recorded count of `key` in one direction; zero when it is not recorded.
pub open spec fn tally(edges: Map<(i64, i64, i64, i64), EdgeUse>, key: (i64, i64, i64, i64), forward: bool) -> int {
    if edges.contains_key(key) {
        if forward {
            edges[key].forward as int
        } else {
            edges[key].reverse as int
        }
    } else {
        0
    }
}

/// Every listed segment is recorded.
pub open spec fn keys_recorded(edges: Map<(i64, i64, i64, i64), EdgeUse>, keys: Seq<(i64, i64, i64, i64)>) -> bool {
    forall|i: int| 0 <= i < keys.len() ==> edges.contains_key(#[trigger] keys[i])
}

/// Every recorded segment has been used and is listed.
pub open spec fn tallies_listed(edges: Map<(i64, i64, i64, i64), EdgeUse>, keys: Seq<(i64, i64, i64, i64)>) -> bool {
    forall|key: (i64, i64, i64, i64)|
        #[trigger] edges.contains_key(key) ==> edges[key].forward + edges[key].reverse >= 1 && keys.contains(key)
}

impl LexOrder for (i64, i64, i64, i64) {
    open spec fn ordered_le(self, other: Self) -> bool {
        crate::order::quad_le(
            (self.0 as int, self.1 as int, self.2 as int, self.3 as int),
            (other.0 as int, other.1 as int, other.2 as int, other.3 as int),
        )
    }

    proof fn lemma_le_total(a: Self, b: Self) {
    }

    proof fn lemma_le_transitive(a: Self, b: Self, c: Self) {
    }

    fn le(&self, other: &Self) -> (result: bool) {
        self.0 < other.0 || (self.0 == other.0 && (self.1 < other.1 || (self.1 == other.1 && (self.2 < other.2
            || (self.2 == other.2 && self.3 <= other.3)))))
    }
}

/// Records one directed use of the segment from `start` to `end`, rejecting
/// zero-length segments.
pub fn add_edge(
    edges: &mut BTreeMap<(i64, i64, i64, i64), EdgeUse>,
    keys: &mut Vec<(i64, i64, i64, i64)>,
    start: PointMicrometers,
    end: PointMicrometers,
) -> (result: Result<(), MeshError>)
    requires
        tallies_listed(old(edges)@, old(keys)@),
    ensures
        tallies_listed(final(edges)@, final(keys)@),
        start == end ==> result == Err::<(), MeshError>(
            MeshError::TriangulationFailed("triangulation contains a zero-length edge"),
        ),
        start != end && result is Ok ==> forall|key: (i64, i64, i64, i64), forward: bool|
            #[trigger] tally(final(edges)@, key, forward) == tally(old(edges)@, key, forward) + side_count(
                start,
                end,
                key,
                forward,
            ),
        start != end && result is Err ==> result == Err::<(), MeshError>(
            MeshError::TriangulationFailed("triangulation edge use count overflowed"),
        ),
        start != end && tally(old(edges)@, segment_key(start, end), point_lt(start, end)) < usize::MAX ==> result is Ok,
        keys_recorded(old(edges)@, old(keys)@) ==> keys_recorded(final(edges)@, final(keys)@),
{
    if start.same(end) {
        return Err(MeshError::TriangulationFailed("triangulation contains a zero-length edge"));
    }
    let forward = point_less(start, end);
    let key = if forward {
        (start.x(), start.y(), end.x(), end.y())
    } else {
        (end.x(), end.y(), start.x(), start.y())
    };
    proof {
        assert(key == segment_key(start, end));
    }
    let existing = match edges.get(&key) {
        Some(usage) => Some(*usage),
        None => None,
    };
    let ghost keys_before = keys@;
    let usage = match existing {
        Some(usage) => {
            if forward {
                match usage.forward.checked_add(1) {
                    Some(count) => EdgeUse { forward: count, reverse: usage.reverse },
                    None => {
                        return Err(MeshError::TriangulationFailed("triangulation edge use count overflowed"));
                    },
                }
            } else {
                match usage.reverse.checked_add(1) {
                    Some(count) => EdgeUse { forward: usage.forward, reverse: count },
                    None => {
                        return Err(MeshError::TriangulationFailed("triangulation edge use count overflowed"));
                    },
                }
            }
        },
        None => {
            keys.push(key);
            proof {
                assert(keys@[keys@.len() - 1] == key);
                assert forall|other: (i64, i64, i64, i64)| keys_before.contains(other) implies keys@.contains(other) by {
                    let m = choose|m: int| 0 <= m < keys_before.len() && keys_before[m] == other;
                    assert(keys@[m] == other);
                }
            }
            if forward {
                EdgeUse { forward: 1, reverse: 0 }
            } else {
                EdgeUse { forward: 0, reverse: 1 }
            }
        },
    };
    let ghost edges_before = edges@;
    edges.insert(key, usage);
    proof {
        if keys_recorded(old(edges)@, old(keys)@) {
            assert forall|i: int| 0 <= i < keys@.len() implies edges@.contains_key(#[trigger] keys@[i]) by {
                if i < keys_before.len() {
                    assert(keys@[i] == keys_before[i]);
                }
            }
        }
        assert forall|other: (i64, i64, i64, i64), direction: bool| #[trigger] tally(edges@, other, direction) == tally(
            edges_before,
            other,
            direction,
        ) + side_count(start, end, other, direction) by {
            if other != key {
                assert(side_count(start, end, other, direction) == 0);
            }
        }
    }
    Ok(())
}

/// Records every side of a closed ring.
fn add_ring_edges(
    edges: &mut BTreeMap<(i64, i64, i64, i64), EdgeUse>,
    keys: &mut Vec<(i64, i64, i64, i64)>,
    ring: &[PointMicrometers],
) -> (result: Result<(), MeshError>)
    requires
        tallies_listed(old(edges)@, old(keys)@),
    ensures
        tallies_listed(final(edges)@, final(keys)@),
        result is Ok ==> forall|key: (i64, i64, i64, i64), forward: bool|
            #[trigger] tally(final(edges)@, key, forward) == tally(old(edges)@, key, forward) + ring_uses(
                ring@,
                ring@.len() as int,
                key,
                forward,
            ),
        result is Err ==> result matches Err(MeshError::TriangulationFailed(_)),
        (forall|k: int| 0 <= k < ring@.len() ==> #[trigger] ring@[k] != ring@[(k + 1) % (ring@.len() as int)]) && (
        forall|key: (i64, i64, i64, i64), forward: bool|
            #[trigger] tally(old(edges)@, key, forward) + ring_uses(ring@, ring@.len() as int, key, forward)
                < usize::MAX) ==> result is Ok,
        keys_recorded(old(edges)@, old(keys)@) ==> keys_recorded(final(edges)@, final(keys)@),
{
    let ghost initial = edges@;
    let n = ring.len();
    let mut i: usize = 0;
    while i < n
        invariant
            n == ring@.len(),
            0 <= i <= n,
            tallies_listed(edges@, keys@),
            forall|key: (i64, i64, i64, i64), forward: bool|
                #[trigger] tally(edges@, key, forward) == tally(initial, key, forward) + ring_uses(
                    ring@,
                    i as int,
                    key,
                    forward,
                ),
            initial == old(edges)@,
            keys_recorded(old(edges)@, old(keys)@) ==> keys_recorded(edges@, keys@),
        decreases n - i,
    {
        let next = if i + 1 == n {
            0
        } else {
            i + 1
        };
        let ghost before = edges@;
        proof {
            if i + 1 == n {
                vstd::arithmetic::div_mod::lemma_mod_self_0(n as int);
            } else {
                vstd::arithmetic::div_mod::lemma_small_mod((i + 1) as nat, n as nat);
            }
            let key = segment_key(ring@[i as int], ring@[next as int]);
            let forward = point_lt(ring@[i as int], ring@[next as int]);
            lemma_ring_uses_grow(ring@, i as int, n as int, key, forward);
        }
        add_edge(edges, keys, ring[i], ring[next])?;
        proof {
            if i + 1 == n {
                vstd::arithmetic::div_mod::lemma_mod_self_0(n as int);
            } else {
                vstd::arithmetic::div_mod::lemma_small_mod((i + 1) as nat, n as nat);
            }
            assert(next == (i + 1) % (n as int));
            assert forall|key: (i64, i64, i64, i64), forward: bool| #[trigger] tally(edges@, key, forward) == tally(
                initial,
                key,
                forward,
            ) + ring_uses(ring@, i + 1, key, forward) by {
                assert(tally(before, key, forward) == tally(initial, key, forward) + ring_uses(ring@, i as int, key, forward));
            }
        }
        i += 1;
    }
    Ok(())
}

/// Ring side counts only grow with more sides.
proof fn lemma_ring_uses_grow(ring: Seq<PointMicrometers>, short: int, long: int, key: (i64, i64, i64, i64), forward: bool)
    requires
        0 <= short <= long,
    ensures
        0 <= ring_uses(ring, short, key, forward) <= ring_uses(ring, long, key, forward),
    decreases long,
{
    if long > 0 {
        if short < long {
            lemma_ring_uses_grow(ring, short, long - 1, key, forward);
        } else {
            lemma_ring_uses_grow(ring, short - 1, long - 1, key, forward);
        }
    }
}

/// A recorded output segment matches its boundary counterpart, or, off the
/// boundary, is used once in each direction.
pub open spec fn output_settled(
    output: Map<(i64, i64, i64, i64), EdgeUse>,
    boundary: Map<(i64, i64, i64, i64), EdgeUse>,
    key: (i64, i64, i64, i64),
) -> bool {
    &&& output.contains_key(key)
    &&& boundary.contains_key(key) ==> tally(output, key, true) == tally(boundary, key, true) && tally(
        output,
        key,
        false,
    ) == tally(boundary, key, false)
    &&& !boundary.contains_key(key) ==> tally(output, key, true) == 1 && tally(output, key, false) == 1
}

/// A triangle's side counts are never negative, and each of its own sides
/// is counted in one direction.
proof fn lemma_triangle_counts(triangle: [PointMicrometers; 3], key: (i64, i64, i64, i64))
    ensures
        triangle_uses(triangle, 3, key, true) >= 0,
        triangle_uses(triangle, 3, key, false) >= 0,
        (key == triangle_side_key(triangle, 0) || key == triangle_side_key(triangle, 1) || key
            == triangle_side_key(triangle, 2)) ==> triangle_uses(triangle, 3, key, true) + triangle_uses(
            triangle,
            3,
            key,
            false,
        ) >= 1,
{
    assert(triangle_uses(triangle, 0, key, true) == 0);
    assert(triangle_uses(triangle, 0, key, false) == 0);
    assert(triangle_uses(triangle, 1, key, true) == side_count(triangle[0], triangle[1], key, true));
    assert(triangle_uses(triangle, 1, key, false) == side_count(triangle[0], triangle[1], key, false));
    assert(triangle_uses(triangle, 2, key, true) == triangle_uses(triangle, 1, key, true) + side_count(
        triangle[1],
        triangle[2],
        key,
        true,
    ));
    assert(triangle_uses(triangle, 2, key, false) == triangle_uses(triangle, 1, key, false) + side_count(
        triangle[1],
        triangle[2],
        key,
        false,
    ));
    assert(triangle_uses(triangle, 3, key, true) == triangle_uses(triangle, 2, key, true) + side_count(
        triangle[2],
        triangle[0],
        key,
        true,
    ));
    assert(triangle_uses(triangle, 3, key, false) == triangle_uses(triangle, 2, key, false) + side_count(
        triangle[2],
        triangle[0],
        key,
        false,
    ));
    assert(triangle_side_key(triangle, 0) == segment_key(triangle[0], triangle[1]));
    assert(triangle_side_key(triangle, 1) == segment_key(triangle[1], triangle[2]));
    assert(triangle_side_key(triangle, 2) == segment_key(triangle[2], triangle[0]));
}

/// Counts never go below zero.
proof fn lemma_uses_nonnegative(
    triangles: Seq<[PointMicrometers; 3]>,
    count: int,
    key: (i64, i64, i64, i64),
    forward: bool,
)
    ensures
        triangles_uses(triangles, count, key, forward) >= 0,
    decreases count,
{
    if count > 0 {
        lemma_uses_nonnegative(triangles, count - 1, key, forward);
        lemma_triangle_counts(triangles[count - 1], key);
    }
}

/// Every side of every counted triangle is counted in one direction.
proof fn lemma_side_counted(triangles: Seq<[PointMicrometers; 3]>, count: int, t: int, e: int)
    requires
        0 <= t < count,
        0 <= e < 3,
    ensures
        triangles_uses(triangles, count, triangle_side_key(triangles[t], e), true) + triangles_uses(
            triangles,
            count,
            triangle_side_key(triangles[t], e),
            false,
        ) >= 1,
    decreases count,
{
    let key = triangle_side_key(triangles[t], e);
    lemma_uses_nonnegative(triangles, count - 1, key, true);
    lemma_uses_nonnegative(triangles, count - 1, key, false);
    lemma_triangle_counts(triangles[count - 1], key);
    if t < count - 1 {
        lemma_side_counted(triangles, count - 1, t, e);
    }
}

/// The triangles are counter-clockwise, cover exactly the expected area and
/// fit the polygon rings.
pub open spec fn triangulation_valid(
    exterior: Seq<PointMicrometers>,
    holes: Seq<Seq<PointMicrometers>>,
    triangles: Seq<[PointMicrometers; 3]>,
    expected_double_area: int,
) -> bool {
    &&& positively_oriented(triangles)
    &&& triangles_area(triangles) == expected_double_area
    &&& triangulation_fits(exterior, holes, triangles)
}

/// A triangle of positive area has three distinct corners.
proof fn lemma_positive_distinct(triangle: [PointMicrometers; 3])
    requires
        triangle_area(triangle) > 0,
    ensures
        triangle[0] != triangle[1],
        triangle[1] != triangle[2],
        triangle[2] != triangle[0],
{
    let (a, b, c) = (triangle[0], triangle[1], triangle[2]);
    let (bx, by) = (b.spec_x() - a.spec_x(), b.spec_y() - a.spec_y());
    let (cx, cy) = (c.spec_x() - a.spec_x(), c.spec_y() - a.spec_y());
    assert(triangle_area(triangle) == bx * cy - by * cx);
    if a == b {
        assert(bx * cy - by * cx == 0) by (nonlinear_arith)
            requires
                bx == 0,
                by == 0,
        ;
    }
    if b == c {
        assert(bx * cy - by * cx == 0) by (nonlinear_arith)
            requires
                bx == cx,
                by == cy,
        ;
    }
    if c == a {
        assert(bx * cy - by * cx == 0) by (nonlinear_arith)
            requires
                cx == 0,
                cy == 0,
        ;
    }
}

/// With positive triangles, a prefix covers no more area than all of them.
proof fn lemma_area_prefix(triangles: Seq<[PointMicrometers; 3]>, k: int)
    requires
        positively_oriented(triangles),
        0 <= k <= triangles.len(),
    ensures
        0 <= triangles_area(triangles.subrange(0, k)) <= triangles_area(triangles),
    decreases triangles.len(),
{
    if k == triangles.len() {
        assert(triangles.subrange(0, k) =~= triangles);
        if triangles.len() > 0 {
            lemma_area_prefix(triangles.drop_last(), k - 1);
            assert(triangles.drop_last().subrange(0, k - 1) =~= triangles.drop_last());
            assert(triangle_area(triangles[triangles.len() - 1]) > 0);
        }
    } else {
        lemma_area_prefix(triangles.drop_last(), k);
        assert(triangles.drop_last().subrange(0, k) =~= triangles.subrange(0, k));
        assert(triangle_area(triangles[triangles.len() - 1]) > 0);
    }
}

/// A triangle's side counts only grow with more sides.
proof fn lemma_triangle_uses_grow(triangle: [PointMicrometers; 3], sides: int, key: (i64, i64, i64, i64), forward: bool)
    requires
        0 <= sides <= 3,
    ensures
        0 <= triangle_uses(triangle, sides, key, forward) <= triangle_uses(triangle, 3, key, forward),
{
    assert(triangle_uses(triangle, 0, key, forward) == 0);
    assert(triangle_uses(triangle, 1, key, forward) >= triangle_uses(triangle, 0, key, forward));
    assert(triangle_uses(triangle, 2, key, forward) >= triangle_uses(triangle, 1, key, forward));
    assert(triangle_uses(triangle, 3, key, forward) >= triangle_uses(triangle, 2, key, forward));
}

/// Counts over triangles only grow with more triangles.
proof fn lemma_triangles_uses_grow(
    triangles: Seq<[PointMicrometers; 3]>,
    short: int,
    long: int,
    key: (i64, i64, i64, i64),
    forward: bool,
)
    requires
        0 <= short <= long,
    ensures
        0 <= triangles_uses(triangles, short, key, forward) <= triangles_uses(triangles, long, key, forward),
    decreases long,
{
    if long > 0 {
        lemma_triangle_uses_grow(triangles[long - 1], 0, key, forward);
        if short < long {
            lemma_triangles_uses_grow(triangles, short, long - 1, key, forward);
        } else {
            lemma_triangles_uses_grow(triangles, short - 1, long - 1, key, forward);
        }
    }
}

/// Counts over hole rings only grow with more holes.
proof fn lemma_holes_uses_mono(
    holes: Seq<Seq<PointMicrometers>>,
    short: int,
    long: int,
    key: (i64, i64, i64, i64),
    forward: bool,
)
    requires
        0 <= short <= long,
    ensures
        0 <= holes_uses(holes, short, key, forward) <= holes_uses(holes, long, key, forward),
    decreases long,
{
    if long > 0 {
        lemma_ring_uses_grow(holes[long - 1], 0, holes[long - 1].len() as int, key, forward);
        if short < long {
            lemma_holes_uses_mono(holes, short, long - 1, key, forward);
        } else {
            lemma_holes_uses_mono(holes, short - 1, long - 1, key, forward);
        }
    }
}

/// Each hole's own count is part of the count over the holes.
proof fn lemma_holes_uses_grow(
    holes: Seq<Seq<PointMicrometers>>,
    short: int,
    long: int,
    key: (i64, i64, i64, i64),
    forward: bool,
)
    requires
        0 <= short < long,
    ensures
        0 <= holes_uses(holes, short, key, forward),
        holes_uses(holes, short, key, forward) + ring_uses(holes[short], holes[short].len() as int, key, forward)
            <= holes_uses(holes, long, key, forward),
{
    lemma_holes_uses_mono(holes, short + 1, long, key, forward);
    lemma_holes_uses_mono(holes, 0, short, key, forward);
    assert(holes_uses(holes, short + 1, key, forward) == holes_uses(holes, short, key, forward) + ring_uses(
        holes[short],
        holes[short].len() as int,
        key,
        forward,
    ));
}

/// Counts over all hole rings are never negative.
proof fn lemma_holes_uses_nonnegative(holes: Seq<Seq<PointMicrometers>>, key: (i64, i64, i64, i64), forward: bool)
    ensures
        0 <= holes_uses(holes, holes.len() as int, key, forward),
{
    lemma_holes_uses_mono(holes, 0, holes.len() as int, key, forward);
}

/// A side of a ring is counted among the ring's sides.
proof fn lemma_ring_side_counted(ring: Seq<PointMicrometers>, i: int, count: int)
    requires
        0 <= i < count <= ring.len(),
    ensures
        ring_uses(
            ring,
            count,
            segment_key(ring[i], ring[(i + 1) % (ring.len() as int)]),
            point_lt(ring[i], ring[(i + 1) % (ring.len() as int)]),
        ) >= 1,
    decreases count,
{
    let key = segment_key(ring[i], ring[(i + 1) % (ring.len() as int)]);
    let forward = point_lt(ring[i], ring[(i + 1) % (ring.len() as int)]);
    lemma_ring_uses_grow(ring, 0, count - 1, key, forward);
    if i < count - 1 {
        lemma_ring_side_counted(ring, i, count - 1);
    }
}

/// Positive triangles never use the key of a zero-length segment.
proof fn lemma_degenerate_unused(
    triangles: Seq<[PointMicrometers; 3]>,
    count: int,
    point: PointMicrometers,
    forward: bool,
)
    requires
        positively_oriented(triangles),
        0 <= count <= triangles.len(),
    ensures
        triangles_uses(triangles, count, segment_key(point, point), forward) == 0,
    decreases count,
{
    if count > 0 {
        lemma_degenerate_unused(triangles, count - 1, point, forward);
        let triangle = triangles[count - 1];
        let key = segment_key(point, point);
        assert(triangle_area(triangle) > 0);
        lemma_positive_distinct(triangle);
        assert forall|a: PointMicrometers, b: PointMicrometers| a != b implies #[trigger] side_count(a, b, key, forward)
            == 0 by {
            if segment_key(a, b) == key {
                PointMicrometers::lemma_coordinates_determine(a, b);
            }
        }
        assert(side_count(triangle[0], triangle[1], key, forward) == 0);
        assert(side_count(triangle[1], triangle[2], key, forward) == 0);
        assert(side_count(triangle[2], triangle[0], key, forward) == 0);
        assert(triangle_uses(triangle, 3, key, forward) == 0) by {
            assert(1int % 3 == 1 && 2int % 3 == 2 && 3int % 3 == 0);
            assert(triangle_uses(triangle, 0, key, forward) == 0);
            assert(triangle_uses(triangle, 1, key, forward) == 0);
            assert(triangle_uses(triangle, 2, key, forward) == 0);
        }
    }
}

/// A segment used by the triangles is one of their sides.
proof fn lemma_used_key_is_side(
    triangles: Seq<[PointMicrometers; 3]>,
    count: int,
    key: (i64, i64, i64, i64),
    forward: bool,
)
    requires
        0 <= count <= triangles.len(),
        triangles_uses(triangles, count, key, forward) >= 1,
    ensures
        exists|t: int, e: int| 0 <= t < count && 0 <= e < 3 && #[trigger] triangle_side_key(triangles[t], e) == key,
    decreases count,
{
    if count > 0 {
        let triangle = triangles[count - 1];
        if triangle_uses(triangle, 3, key, forward) >= 1 {
            assert(1int % 3 == 1 && 2int % 3 == 2 && 3int % 3 == 0);
            assert(triangle_uses(triangle, 0, key, forward) == 0);
            assert(triangle_uses(triangle, 1, key, forward) == side_count(triangle[0], triangle[1], key, forward));
            assert(triangle_uses(triangle, 2, key, forward) == triangle_uses(triangle, 1, key, forward) + side_count(
                triangle[1],
                triangle[2],
                key,
                forward,
            ));
            if side_count(triangle[0], triangle[1], key, forward) == 1 {
                assert(triangle_side_key(triangles[count - 1], 0) == key);
            } else if side_count(triangle[1], triangle[2], key, forward) == 1 {
                assert(triangle_side_key(triangles[count - 1], 1) == key);
            } else {
                assert(triangle_side_key(triangles[count - 1], 2) == key);
            }
        } else {
            lemma_used_key_is_side(triangles, count - 1, key, forward);
            let (t, e) = choose|t: int, e: int|
                0 <= t < count - 1 && 0 <= e < 3 && #[trigger] triangle_side_key(triangles[t], e) == key;
            assert(triangle_side_key(triangles[t], e) == key);
        }
    }
}

/// On a fitting triangulation the rings use every segment at most once in
/// each direction, and so do the triangles for each of their sides.
proof fn lemma_fit_counts(
    exterior: Seq<PointMicrometers>,
    holes: Seq<Seq<PointMicrometers>>,
    triangles: Seq<[PointMicrometers; 3]>,
    key: (i64, i64, i64, i64),
)
    requires
        triangulation_fits(exterior, holes, triangles),
    ensures
        0 <= boundary_uses(exterior, holes, key, true) <= 1,
        0 <= boundary_uses(exterior, holes, key, false) <= 1,
        boundary_total(exterior, holes, key) > 0 ==> segment_retained(exterior, holes, triangles, key),
        (exists|t: int, e: int| 0 <= t < triangles.len() && 0 <= e < 3 && #[trigger] triangle_side_key(triangles[t], e) == key)
            ==> triangles_uses(triangles, triangles.len() as int, key, true) <= 1 && triangles_uses(
            triangles,
            triangles.len() as int,
            key,
            false,
        ) <= 1,
{
    lemma_ring_uses_grow(exterior, 0, exterior.len() as int, key, true);
    lemma_ring_uses_grow(exterior, 0, exterior.len() as int, key, false);
    lemma_holes_uses_nonnegative(holes, key, true);
    lemma_holes_uses_nonnegative(holes, key, false);
    if exists|t: int, e: int| 0 <= t < triangles.len() && 0 <= e < 3 && #[trigger] triangle_side_key(triangles[t], e) == key {
        let (t, e) = choose|t: int, e: int|
            0 <= t < triangles.len() && 0 <= e < 3 && #[trigger] triangle_side_key(triangles[t], e) == key;
        assert(side_accounted(exterior, holes, triangles, triangle_side_key(triangles[t], e)));
    }
}

/// On a valid triangulation, a triangle side's tally before that side is
/// recorded is zero: no earlier side used it in that direction.
proof fn lemma_side_tally_free(
    exterior: Seq<PointMicrometers>,
    holes: Seq<Seq<PointMicrometers>>,
    triangles: Seq<[PointMicrometers; 3]>,
    t: int,
    e: int,
)
    requires
        triangulation_fits(exterior, holes, triangles),
        positively_oriented(triangles),
        0 <= t < triangles.len(),
        0 <= e < 3,
    ensures
        ({
            let triangle = triangles[t];
            let key = triangle_side_key(triangle, e);
            let forward = point_lt(triangle[e], triangle[(e + 1) % 3]);
            &&& triangle[e] != triangle[(e + 1) % 3]
            &&& triangles_uses(triangles, t, key, forward) + triangle_uses(triangle, e, key, forward) == 0
        }),
{
    let triangle = triangles[t];
    let key = triangle_side_key(triangle, e);
    let forward = point_lt(triangle[e], triangle[(e + 1) % 3]);
    assert(triangle_area(triangles[t]) > 0);
    lemma_positive_distinct(triangle);
    lemma_fit_counts(exterior, holes, triangles, key);
    lemma_triangles_uses_grow(triangles, t + 1, triangles.len() as int, key, forward);
    lemma_triangles_uses_grow(triangles, 0, t, key, forward);
    lemma_triangle_uses_grow(triangle, e + 1, key, forward);
    lemma_triangle_uses_grow(triangle, e, key, forward);
    assert(triangle_uses(triangle, e + 1, key, forward) == triangle_uses(triangle, e, key, forward) + side_count(
        triangle[e],
        triangle[(e + 1) % 3],
        key,
        forward,
    ));
    assert(triangles_uses(triangles, t + 1, key, forward) == triangles_uses(triangles, t, key, forward) + triangle_uses(
        triangle,
        3,
        key,
        forward,
    ));
}

/// On a valid triangulation, a ring whose side counts are part of the
/// boundary counts has no zero-length side.
proof fn lemma_ring_sides_nonzero(
    exterior: Seq<PointMicrometers>,
    holes: Seq<Seq<PointMicrometers>>,
    triangles: Seq<[PointMicrometers; 3]>,
    ring: Seq<PointMicrometers>,
)
    requires
        triangulation_fits(exterior, holes, triangles),
        positively_oriented(triangles),
        forall|key: (i64, i64, i64, i64), forward: bool|
            #[trigger] ring_uses(ring, ring.len() as int, key, forward) <= boundary_uses(exterior, holes, key, forward),
    ensures
        forall|k: int| 0 <= k < ring.len() ==> #[trigger] ring[k] != ring[(k + 1) % (ring.len() as int)],
{
    assert forall|k: int| 0 <= k < ring.len() implies #[trigger] ring[k] != ring[(k + 1) % (ring.len() as int)] by {
        let p = ring[k];
        if p == ring[(k + 1) % (ring.len() as int)] {
            let key = segment_key(p, p);
            lemma_ring_side_counted(ring, k, ring.len() as int);
            assert(ring_uses(ring, ring.len() as int, key, false) >= 1);
            lemma_fit_counts(exterior, holes, triangles, key);
            lemma_degenerate_unused(triangles, triangles.len() as int, p, false);
        }
    }
}

/// Checks a cap triangulation: every triangle is counter-clockwise, the
/// triangles cover exactly the expected area, every boundary segment of the
/// polygon appears exactly as in the rings, and every internal edge is used
/// once in each direction.
pub fn validate_triangulation(
    exterior: &[PointMicrometers],
    holes: &[&[PointMicrometers]],
    triangles: &[[PointMicrometers; 3]],
    expected_double_area: i128,
) -> (result: Result<(), MeshError>)
    requires
        forall|i: int| 0 <= i < triangles@.len() ==> triangle_in_range(#[trigger] triangles@[i]),
    ensures
        result is Ok ==> {
            &&& positively_oriented(triangles@)
            &&& triangles_area(triangles@) == expected_double_area
            &&& triangulation_fits(exterior@, hole_views(holes@), triangles@)
        },
        triangulation_valid(exterior@, hole_views(holes@), triangles@, expected_double_area as int) ==> result is Ok,
        result is Err ==> result matches Err(MeshError::TriangulationFailed(_)),
{
    let ghost views = hole_views(holes@);
    let ghost valid = triangulation_valid(exterior@, views, triangles@, expected_double_area as int);
    let mut area: i128 = 0;
    let mut output: BTreeMap<(i64, i64, i64, i64), EdgeUse> = BTreeMap::new();
    let mut output_keys: Vec<(i64, i64, i64, i64)> = Vec::new();
    let mut t: usize = 0;
    while t < triangles.len()
        invariant
            forall|i: int| 0 <= i < triangles@.len() ==> triangle_in_range(#[trigger] triangles@[i]),
            views == hole_views(holes@),
            valid == triangulation_valid(exterior@, views, triangles@, expected_double_area as int),
            0 <= t <= triangles@.len(),
            area == triangles_area(triangles@.subrange(0, t as int)),
            forall|i: int| 0 <= i < t ==> triangle_area(#[trigger] triangles@[i]) > 0,
            tallies_listed(output@, output_keys@),
            keys_recorded(output@, output_keys@),
            forall|key: (i64, i64, i64, i64), forward: bool|
                #[trigger] tally(output@, key, forward) == triangles_uses(triangles@, t as int, key, forward),
        decreases triangles@.len() - t,
    {
        let triangle = triangles[t];
        let triangle_area_value = triangle_cross(triangle);
        proof {
            if valid {
                assert(triangle_area(triangles@[t as int]) > 0);
            }
        }
        if triangle_area_value <= 0 {
            return Err(MeshError::TriangulationFailed("triangulation contains a degenerate or reversed triangle"));
        }
        proof {
            assert(triangles@.subrange(0, t + 1).drop_last() == triangles@.subrange(0, t as int));
            if valid {
                lemma_area_prefix(triangles@, t + 1);
            }
        }
        area = match area.checked_add(triangle_area_value) {
            Some(sum) => sum,
            None => {
                return Err(MeshError::TriangulationFailed("triangle area arithmetic overflowed"));
            },
        };
        let mut e: usize = 0;
        while e < 3
            invariant
                0 <= e <= 3,
                t < triangles@.len(),
                triangle == triangles@[t as int],
                views == hole_views(holes@),
                valid == triangulation_valid(exterior@, views, triangles@, expected_double_area as int),
                tallies_listed(output@, output_keys@),
                keys_recorded(output@, output_keys@),
                forall|key: (i64, i64, i64, i64), forward: bool|
                    #[trigger] tally(output@, key, forward) == triangles_uses(triangles@, t as int, key, forward)
                        + triangle_uses(triangle, e as int, key, forward),
            decreases 3 - e,
        {
            let next = if e == 2 {
                0
            } else {
                e + 1
            };
            let ghost before = output@;
            proof {
                assert(next == (e + 1) % 3);
                if valid {
                    lemma_side_tally_free(exterior@, views, triangles@, t as int, e as int);
                }
            }
            add_edge(&mut output, &mut output_keys, triangle[e], triangle[next])?;
            proof {
                assert forall|key: (i64, i64, i64, i64), forward: bool| #[trigger] tally(output@, key, forward)
                    == triangles_uses(triangles@, t as int, key, forward) + triangle_uses(
                    triangle,
                    e + 1,
                    key,
                    forward,
                ) by {
                    assert(tally(before, key, forward) == triangles_uses(triangles@, t as int, key, forward)
                        + triangle_uses(triangle, e as int, key, forward));
                }
            }
            e += 1;
        }
        t += 1;
    }
    proof {
        assert(triangles@.subrange(0, t as int) == triangles@);
    }
    if area != expected_double_area {
        return Err(MeshError::TriangulationFailed("triangles do not exactly cover the polygon area"));
    }
    let mut boundary: BTreeMap<(i64, i64, i64, i64), EdgeUse> = BTreeMap::new();
    let mut boundary_keys: Vec<(i64, i64, i64, i64)> = Vec::new();
    proof {
        if valid {
            assert forall|key: (i64, i64, i64, i64), forward: bool|
                #[trigger] ring_uses(exterior@, exterior@.len() as int, key, forward) <= boundary_uses(
                    exterior@,
                    views,
                    key,
                    forward,
                ) by {
                lemma_holes_uses_nonnegative(views, key, forward);
            }
            lemma_ring_sides_nonzero(exterior@, views, triangles@, exterior@);
            assert forall|key: (i64, i64, i64, i64), forward: bool|
                #[trigger] tally(boundary@, key, forward) + ring_uses(exterior@, exterior@.len() as int, key, forward)
                    < usize::MAX by {
                lemma_holes_uses_nonnegative(views, key, forward);
                lemma_fit_counts(exterior@, views, triangles@, key);
            }
        }
    }
    add_ring_edges(&mut boundary, &mut boundary_keys, exterior)?;
    let mut r: usize = 0;
    while r < holes.len()
        invariant
            0 <= r <= holes@.len(),
            views == hole_views(holes@),
            valid == triangulation_valid(exterior@, views, triangles@, expected_double_area as int),
            tallies_listed(boundary@, boundary_keys@),
            keys_recorded(boundary@, boundary_keys@),
            forall|key: (i64, i64, i64, i64), forward: bool|
                #[trigger] tally(boundary@, key, forward) == ring_uses(
                    exterior@,
                    exterior@.len() as int,
                    key,
                    forward,
                ) + holes_uses(hole_views(holes@), r as int, key, forward),
        decreases holes@.len() - r,
    {
        let ghost before = boundary@;
        proof {
            assert(views[r as int] == holes@[r as int]@);
            if valid {
                assert forall|key: (i64, i64, i64, i64), forward: bool|
                    #[trigger] ring_uses(holes@[r as int]@, holes@[r as int]@.len() as int, key, forward)
                        <= boundary_uses(exterior@, views, key, forward) by {
                    lemma_holes_uses_grow(views, r as int, views.len() as int, key, forward);
                    lemma_ring_uses_grow(exterior@, 0, exterior@.len() as int, key, forward);
                }
                lemma_ring_sides_nonzero(exterior@, views, triangles@, holes@[r as int]@);
                assert forall|key: (i64, i64, i64, i64), forward: bool|
                    #[trigger] tally(boundary@, key, forward) + ring_uses(
                        holes@[r as int]@,
                        holes@[r as int]@.len() as int,
                        key,
                        forward,
                    ) < usize::MAX by {
                    lemma_holes_uses_grow(views, r as int, views.len() as int, key, forward);
                    lemma_fit_counts(exterior@, views, triangles@, key);
                }
            }
        }
        add_ring_edges(&mut boundary, &mut boundary_keys, holes[r])?;
        proof {
            assert forall|key: (i64, i64, i64, i64), forward: bool| #[trigger] tally(boundary@, key, forward)
                == ring_uses(exterior@, exterior@.len() as int, key, forward) + holes_uses(
                hole_views(holes@),
                r + 1,
                key,
                forward,
            ) by {
                assert(tally(before, key, forward) == ring_uses(exterior@, exterior@.len() as int, key, forward)
                    + holes_uses(hole_views(holes@), r as int, key, forward));
            }
        }
        r += 1;
    }
    let mut b: usize = 0;
    while b < boundary_keys.len()
        invariant
            0 <= b <= boundary_keys@.len(),
            views == hole_views(holes@),
            valid == triangulation_valid(exterior@, views, triangles@, expected_double_area as int),
            forall|key: (i64, i64, i64, i64), forward: bool|
                #[trigger] tally(boundary@, key, forward) == boundary_uses(exterior@, views, key, forward),
            tallies_listed(boundary@, boundary_keys@),
            forall|i: int|
                0 <= i < b ==> boundary@.contains_key(#[trigger] boundary_keys@[i]) ==> tally(
                    boundary@,
                    boundary_keys@[i],
                    true,
                ) + tally(boundary@, boundary_keys@[i], false) == 1,
        decreases boundary_keys@.len() - b,
    {
        match boundary.get(&boundary_keys[b]) {
            Some(usage) => {
                proof {
                    if valid {
                        let key = boundary_keys@[b as int];
                        lemma_fit_counts(exterior@, views, triangles@, key);
                        assert(tally(boundary@, key, true) + tally(boundary@, key, false) >= 1);
                    }
                }
                if usage.forward as u128 + usage.reverse as u128 != 1 {
                    return Err(MeshError::TriangulationFailed("polygon boundary contains a repeated edge"));
                }
            },
            None => {},
        }
        b += 1;
    }
    let ghost unsorted = output_keys@;
    let output_keys = sort_vec(output_keys);
    proof {
        lemma_same_members(output_keys@, unsorted);
        lemma_same_members(unsorted, output_keys@);
    }
    let mut o: usize = 0;
    while o < output_keys.len()
        invariant
            0 <= o <= output_keys@.len(),
            tallies_listed(output@, unsorted),
            keys_recorded(output@, unsorted),
            forall|i: int| 0 <= i < unsorted.len() ==> output_keys@.contains(#[trigger] unsorted[i]),
            forall|i: int| 0 <= i < output_keys@.len() ==> unsorted.contains(#[trigger] output_keys@[i]),
            forall|i: int| 0 <= i < o ==> #[trigger] output_settled(output@, boundary@, output_keys@[i]),
            tallies_listed(boundary@, boundary_keys@),
            keys_recorded(boundary@, boundary_keys@),
            views == hole_views(holes@),
            valid == triangulation_valid(exterior@, views, triangles@, expected_double_area as int),
            forall|key: (i64, i64, i64, i64), forward: bool|
                #[trigger] tally(boundary@, key, forward) == boundary_uses(exterior@, views, key, forward),
            forall|key: (i64, i64, i64, i64), forward: bool|
                #[trigger] tally(output@, key, forward) == triangles_uses(
                    triangles@,
                    triangles@.len() as int,
                    key,
                    forward,
                ),
        decreases output_keys@.len() - o,
    {
        let key = output_keys[o];
        proof {
            assert(unsorted.contains(output_keys@[o as int]));
            let m = choose|m: int| 0 <= m < unsorted.len() && unsorted[m] == key;
            assert(output@.contains_key(unsorted[m]));
            if valid {
                lemma_fit_counts(exterior@, views, triangles@, key);
                lemma_triangles_uses_grow(triangles@, 0, triangles@.len() as int, key, true);
                lemma_triangles_uses_grow(triangles@, 0, triangles@.len() as int, key, false);
                assert(tally(output@, key, true) + tally(output@, key, false) >= 1);
                let forward = tally(output@, key, true) >= 1;
                lemma_used_key_is_side(triangles@, triangles@.len() as int, key, forward);
                let (tt, ee) = choose|tt: int, ee: int|
                    0 <= tt < triangles@.len() && 0 <= ee < 3 && #[trigger] triangle_side_key(triangles@[tt], ee) == key;
                assert(side_accounted(exterior@, views, triangles@, triangle_side_key(triangles@[tt], ee)));
                if !boundary@.contains_key(key) {
                    assert(tally(boundary@, key, true) == 0 && tally(boundary@, key, false) == 0);
                } else {
                    assert(tally(boundary@, key, true) + tally(boundary@, key, false) >= 1);
                    assert(boundary_total(exterior@, views, key) > 0);
                }
            }
        }
        let usage = match output.get(&key) {
            Some(usage) => *usage,
            None => EdgeUse { forward: 0, reverse: 0 },
        };
        match boundary.get(&key) {
            Some(expected) => {
                if usage.forward != expected.forward || usage.reverse != expected.reverse {
                    return Err(
                        MeshError::TriangulationFailed("a cap does not retain its exact boundary segmentation"),
                    );
                }
            },
            None => {
                if usage.forward != 1 || usage.reverse != 1 {
                    return Err(
                        MeshError::TriangulationFailed("an internal triangulation edge is not paired in reverse"),
                    );
                }
            },
        }
        if !output.contains_key(&key) {
            return Err(MeshError::TriangulationFailed("an internal triangulation edge is not paired in reverse"));
        }
        o += 1;
    }
    let mut b: usize = 0;
    while b < boundary_keys.len()
        invariant
            0 <= b <= boundary_keys@.len(),
            forall|i: int| 0 <= i < b ==> output@.contains_key(#[trigger] boundary_keys@[i]),
            keys_recorded(boundary@, boundary_keys@),
            tallies_listed(boundary@, boundary_keys@),
            views == hole_views(holes@),
            valid == triangulation_valid(exterior@, views, triangles@, expected_double_area as int),
            forall|key: (i64, i64, i64, i64), forward: bool|
                #[trigger] tally(boundary@, key, forward) == boundary_uses(exterior@, views, key, forward),
            forall|key: (i64, i64, i64, i64), forward: bool|
                #[trigger] tally(output@, key, forward) == triangles_uses(
                    triangles@,
                    triangles@.len() as int,
                    key,
                    forward,
                ),
        decreases boundary_keys@.len() - b,
    {
        proof {
            if valid {
                let key = boundary_keys@[b as int];
                assert(boundary@.contains_key(key));
                assert(tally(boundary@, key, true) + tally(boundary@, key, false) >= 1);
                lemma_fit_counts(exterior@, views, triangles@, key);
                assert(boundary_total(exterior@, views, key) > 0);
                assert(tally(output@, key, true) + tally(output@, key, false) >= 1);
            }
        }
        if !output.contains_key(&boundary_keys[b]) {
            return Err(MeshError::TriangulationFailed("triangulation omitted a polygon boundary edge"));
        }
        b += 1;
    }
    proof {
        assert forall|t: int, e: int| 0 <= t < triangles@.len() && 0 <= e < 3 implies side_accounted(
            exterior@,
            hole_views(holes@),
            triangles@,
            #[trigger] triangle_side_key(triangles@[t], e),
        ) by {
            let key = triangle_side_key(triangles@[t], e);
            lemma_side_counted(triangles@, triangles@.len() as int, t, e);
            assert(tally(boundary@, key, true) == boundary_uses(exterior@, hole_views(holes@), key, true));
            assert(tally(boundary@, key, false) == boundary_uses(exterior@, hole_views(holes@), key, false));
            assert(tally(output@, key, true) == triangles_uses(triangles@, triangles@.len() as int, key, true));
            assert(tally(output@, key, false) == triangles_uses(triangles@, triangles@.len() as int, key, false));
            assert(tally(output@, key, true) + tally(output@, key, false) >= 1);
            assert(output@.contains_key(key));
            assert(unsorted.contains(key));
            let m = choose|m: int| 0 <= m < unsorted.len() && unsorted[m] == key;
            assert(output_keys@.contains(unsorted[m]));
            let k = choose|k: int| 0 <= k < output_keys@.len() && output_keys@[k] == key;
            assert(output_settled(output@, boundary@, output_keys@[k]));
            if boundary@.contains_key(key) {
                assert(boundary_keys@.contains(key));
                let j = choose|j: int| 0 <= j < boundary_keys@.len() && boundary_keys@[j] == key;
                assert(boundary@.contains_key(boundary_keys@[j]));
                assert(tally(boundary@, key, true) + tally(boundary@, key, false) == 1);
            }
        }
        assert forall|key: (i64, i64, i64, i64)| #[trigger] boundary_total(exterior@, hole_views(holes@), key) > 0 implies segment_retained(
            exterior@,
            hole_views(holes@),
            triangles@,
            key,
        ) by {
            assert(tally(boundary@, key, true) == boundary_uses(exterior@, hole_views(holes@), key, true));
            assert(tally(boundary@, key, false) == boundary_uses(exterior@, hole_views(holes@), key, false));
            assert(tally(output@, key, true) == triangles_uses(triangles@, triangles@.len() as int, key, true));
            assert(tally(output@, key, false) == triangles_uses(triangles@, triangles@.len() as int, key, false));
            assert(tally(boundary@, key, true) + tally(boundary@, key, false) > 0);
            assert(boundary@.contains_key(key));
            assert(boundary_keys@.contains(key));
            let j = choose|j: int| 0 <= j < boundary_keys@.len() && boundary_keys@[j] == key;
            assert(boundary@.contains_key(boundary_keys@[j]));
            assert(output@.contains_key(boundary_keys@[j]));
            assert(unsorted.contains(key));
            let m = choose|m: int| 0 <= m < unsorted.len() && unsorted[m] == key;
            assert(output_keys@.contains(unsorted[m]));
            let k = choose|k: int| 0 <= k < output_keys@.len() && output_keys@[k] == key;
            assert(output_settled(output@, boundary@, output_keys@[k]));
        }
    }
    Ok(())
}

/// Segments that a bridge must not cross.
pub open spec fn bridges_in_range(bridges: Seq<(PointMicrometers, PointMicrometers)>) -> bool {
    forall|i: int| 0 <= i < bridges.len() ==> point_in_range((#[trigger] bridges[i]).0) && point_in_range(bridges[i].1)
}

/// Rings whose points are in range.
pub open spec fn rings_bounded(rings: Seq<&[PointMicrometers]>) -> bool {
    forall|i: int| 0 <= i < rings.len() ==> points_in_range((#[trigger] rings[i])@)
}

/// The segment from `inner` to `outer` meets side `i` of a closed ring
/// other than at a shared endpoint.
pub open spec fn side_blocks(inner: PointMicrometers, outer: PointMicrometers, ring: Seq<PointMicrometers>, i: int) -> bool {
    spec_disallowed_intersection(inner, outer, ring[i], ring[(i + 1) % (ring.len() as int)])
}

/// The segment from `inner` to `outer` meets some side of a closed ring
/// other than at a shared endpoint.
pub open spec fn spec_ring_blocks(inner: PointMicrometers, outer: PointMicrometers, ring: Seq<PointMicrometers>) -> bool {
    exists|i: int| 0 <= i < ring.len() && #[trigger] side_blocks(inner, outer, ring, i)
}

/// The segment from `inner` to `outer` can serve as a bridge: it meets no
/// ring side and no earlier bridge other than at shared endpoints, and its
/// midpoint lies strictly inside the exterior and outside every hole.
pub open spec fn spec_bridge_visible(
    inner: PointMicrometers,
    outer: PointMicrometers,
    exterior: Seq<PointMicrometers>,
    holes: Seq<Seq<PointMicrometers>>,
    bridges: Seq<(PointMicrometers, PointMicrometers)>,
) -> bool {
    let x2 = inner.spec_x() + outer.spec_x();
    let y2 = inner.spec_y() + outer.spec_y();
    &&& !spec_ring_blocks(inner, outer, exterior)
    &&& forall|h: int| 0 <= h < holes.len() ==> !spec_ring_blocks(inner, outer, #[trigger] holes[h])
    &&& forall|b: int|
        0 <= b < bridges.len() ==> !spec_disallowed_intersection(inner, outer, (#[trigger] bridges[b]).0, bridges[b].1)
    &&& crate::mesh::exact::spec_scaled_location(exterior, x2, y2) == PointLocation::Inside
    &&& forall|h: int|
        0 <= h < holes.len() ==> crate::mesh::exact::spec_scaled_location(#[trigger] holes[h], x2, y2)
            == PointLocation::Outside
}

/// Decides whether the segment from `inner` to `outer` meets a side of the
/// ring other than at a shared endpoint.
fn ring_blocks(
    inner: PointMicrometers,
    outer: PointMicrometers,
    ring: &[PointMicrometers],
    budget: &mut WorkBudget,
) -> (result: Result<bool, MeshError>)
    requires
        point_in_range(inner),
        point_in_range(outer),
        points_in_range(ring@),
    ensures
        result matches Ok(blocked) ==> blocked == spec_ring_blocks(inner, outer, ring@),
        result is Err ==> result matches Err(MeshError::TriangulationWorkLimitExceeded { .. }),
{
    let n = ring.len();
    let mut i: usize = 0;
    while i < n
        invariant
            n == ring@.len(),
            points_in_range(ring@),
            point_in_range(inner),
            point_in_range(outer),
            0 <= i <= n,
            forall|k: int| 0 <= k < i ==> !#[trigger] side_blocks(inner, outer, ring@, k),
        decreases n - i,
    {
        let start = ring[i];
        let end = ring[if i + 1 == n { 0 } else { i + 1 }];
        proof {
            assert(point_in_range(ring@[i as int]));
            assert(point_in_range(ring@[if i + 1 == n { 0 } else { i + 1 } as int]));
            if i + 1 == n {
                vstd::arithmetic::div_mod::lemma_mod_self_0(n as int);
            } else {
                vstd::arithmetic::div_mod::lemma_small_mod((i + 1) as nat, n as nat);
            }
            assert(end == ring@[(i + 1) % (n as int)]);
        }
        if segments_have_disallowed_intersection(inner, outer, start, end, budget)? {
            proof {
                assert(side_blocks(inner, outer, ring@, i as int));
            }
            return Ok(true);
        }
        i += 1;
    }
    Ok(false)
}

/// Decides whether the segment from a hole vertex to a vertex of the bridged
/// ring can serve as a bridge: it meets no ring edge and no earlier bridge
/// except at shared endpoints, and its midpoint lies strictly inside the
/// exterior and outside every hole.
pub fn bridge_is_visible(
    inner: PointMicrometers,
    outer: PointMicrometers,
    exterior: &[PointMicrometers],
    holes: &[&[PointMicrometers]],
    bridges: &[(PointMicrometers, PointMicrometers)],
    budget: &mut WorkBudget,
) -> (result: Result<bool, MeshError>)
    requires
        point_in_range(inner),
        point_in_range(outer),
        points_in_range(exterior@),
        rings_bounded(holes@),
        bridges_in_range(bridges@),
    ensures
        result matches Ok(visible) ==> visible == spec_bridge_visible(
            inner,
            outer,
            exterior@,
            hole_views(holes@),
            bridges@,
        ),
        result is Err ==> result matches Err(MeshError::TriangulationWorkLimitExceeded { .. }),
{
    if ring_blocks(inner, outer, exterior, budget)? {
        return Ok(false);
    }
    let mut h: usize = 0;
    while h < holes.len()
        invariant
            rings_bounded(holes@),
            point_in_range(inner),
            point_in_range(outer),
            0 <= h <= holes@.len(),
            forall|k: int| 0 <= k < h ==> !spec_ring_blocks(inner, outer, #[trigger] hole_views(holes@)[k]),
        decreases holes@.len() - h,
    {
        proof {
            assert(points_in_range(holes@[h as int]@));
        }
        if ring_blocks(inner, outer, holes[h], budget)? {
            proof {
                assert(spec_ring_blocks(inner, outer, hole_views(holes@)[h as int]));
            }
            return Ok(false);
        }
        h += 1;
    }
    let mut b: usize = 0;
    while b < bridges.len()
        invariant
            bridges_in_range(bridges@),
            point_in_range(inner),
            point_in_range(outer),
            0 <= b <= bridges@.len(),
            forall|k: int|
                0 <= k < b ==> !spec_disallowed_intersection(inner, outer, (#[trigger] bridges@[k]).0, bridges@[k].1),
        decreases bridges@.len() - b,
    {
        let (start, end) = bridges[b];
        proof {
            assert(point_in_range(bridges@[b as int].0) && point_in_range(bridges@[b as int].1));
        }
        if segments_have_disallowed_intersection(inner, outer, start, end, budget)? {
            proof {
                assert(spec_disallowed_intersection(inner, outer, bridges@[b as int].0, bridges@[b as int].1));
            }
            return Ok(false);
        }
        b += 1;
    }
    let midpoint_x2 = inner.x() as i128 + outer.x() as i128;
    let midpoint_y2 = inner.y() as i128 + outer.y() as i128;
    if point_in_ring_scaled(exterior, midpoint_x2, midpoint_y2, budget)? != PointLocation::Inside {
        return Ok(false);
    }
    let mut h: usize = 0;
    while h < holes.len()
        invariant
            rings_bounded(holes@),
            0 <= midpoint_x2 <= 2_000_000_000,
            0 <= midpoint_y2 <= 2_000_000_000,
            midpoint_x2 == inner.spec_x() + outer.spec_x(),
            midpoint_y2 == inner.spec_y() + outer.spec_y(),
            0 <= h <= holes@.len(),
            forall|k: int|
                0 <= k < h ==> crate::mesh::exact::spec_scaled_location(
                    #[trigger] hole_views(holes@)[k],
                    midpoint_x2 as int,
                    midpoint_y2 as int,
                ) == PointLocation::Outside,
        decreases holes@.len() - h,
    {
        proof {
            assert(points_in_range(holes@[h as int]@));
        }
        if point_in_ring_scaled(holes[h], midpoint_x2, midpoint_y2, budget)? != PointLocation::Outside {
            proof {
                assert(crate::mesh::exact::spec_scaled_location(
                    hole_views(holes@)[h as int],
                    midpoint_x2 as int,
                    midpoint_y2 as int,
                ) != PointLocation::Outside);
            }
            return Ok(false);
        }
        h += 1;
    }
    Ok(true)
}

/// A bridge from hole vertex `h` to bridged-ring vertex `o`, as the integer
/// key it is ranked by: squared length, inner point, outer point, outer
/// index, hole index.
pub open spec fn bridge_rank(
    merged: Seq<PointMicrometers>,
    hole: Seq<PointMicrometers>,
    o: int,
    h: int,
) -> (int, int, int, int, int, int, int) {
    (
        crate::planar::predicates::spec_squared_distance(hole[h], merged[o]),
        hole[h].spec_x() as int,
        hole[h].spec_y() as int,
        merged[o].spec_x() as int,
        merged[o].spec_y() as int,
        o,
        h,
    )
}

/// Strict lexicographic order on bridge ranks.
pub open spec fn rank_lt(a: (int, int, int, int, int, int, int), b: (int, int, int, int, int, int, int)) -> bool {
    a.0 < b.0 || (a.0 == b.0 && (a.1 < b.1 || (a.1 == b.1 && (a.2 < b.2 || (a.2 == b.2 && (a.3 < b.3 || (a.3
        == b.3 && (a.4 < b.4 || (a.4 == b.4 && (a.5 < b.5 || (a.5 == b.5 && a.6 < b.6)))))))))))
}

/// The bridge from hole vertex `h` to bridged-ring vertex `o` joins two
/// distinct points and is visible.
pub open spec fn bridge_usable(
    merged: Seq<PointMicrometers>,
    hole: Seq<PointMicrometers>,
    exterior: Seq<PointMicrometers>,
    holes: Seq<Seq<PointMicrometers>>,
    bridges: Seq<(PointMicrometers, PointMicrometers)>,
    o: int,
    h: int,
) -> bool {
    &&& 0 <= o < merged.len()
    &&& 0 <= h < hole.len()
    &&& hole[h] != merged[o]
    &&& spec_bridge_visible(hole[h], merged[o], exterior, holes, bridges)
}

/// Compares two bridge candidates by squared length, then inner point,
/// outer point, outer index and hole index.
fn candidate_less(
    a: (i128, PointMicrometers, PointMicrometers, usize, usize),
    b: (i128, PointMicrometers, PointMicrometers, usize, usize),
) -> (less: bool)
    ensures
        less == rank_lt(
            (a.0 as int, a.1.spec_x() as int, a.1.spec_y() as int, a.2.spec_x() as int, a.2.spec_y() as int, a.3 as int, a.4 as int),
            (b.0 as int, b.1.spec_x() as int, b.1.spec_y() as int, b.2.spec_x() as int, b.2.spec_y() as int, b.3 as int, b.4 as int),
        ),
{
    proof {
        if a.1.spec_x() == b.1.spec_x() && a.1.spec_y() == b.1.spec_y() {
            PointMicrometers::lemma_coordinates_determine(a.1, b.1);
        }
        if a.2.spec_x() == b.2.spec_x() && a.2.spec_y() == b.2.spec_y() {
            PointMicrometers::lemma_coordinates_determine(a.2, b.2);
        }
    }
    if a.0 != b.0 {
        return a.0 < b.0;
    }
    if !a.1.same(b.1) {
        return point_less(a.1, b.1);
    }
    if !a.2.same(b.2) {
        return point_less(a.2, b.2);
    }
    if a.3 != b.3 {
        return a.3 < b.3;
    }
    a.4 < b.4
}

/// Finds the shortest visible bridge from a hole to the bridged ring, ties
/// broken by the smaller inner point, outer point, and indices.
pub fn find_bridge(
    merged: &[PointMicrometers],
    hole: &[PointMicrometers],
    exterior: &[PointMicrometers],
    holes: &[&[PointMicrometers]],
    bridges: &[(PointMicrometers, PointMicrometers)],
    budget: &mut WorkBudget,
) -> (result: Result<(usize, usize), MeshError>)
    requires
        points_in_range(merged@),
        points_in_range(hole@),
        points_in_range(exterior@),
        rings_bounded(holes@),
        bridges_in_range(bridges@),
    ensures
        result matches Ok(found) ==> {
            &&& bridge_usable(merged@, hole@, exterior@, hole_views(holes@), bridges@, found.0 as int, found.1 as int)
            &&& forall|o: int, h: int|
                #[trigger] bridge_usable(merged@, hole@, exterior@, hole_views(holes@), bridges@, o, h) ==> !rank_lt(
                    bridge_rank(merged@, hole@, o, h),
                    bridge_rank(merged@, hole@, found.0 as int, found.1 as int),
                )
        },
        result is Err ==> result matches Err(MeshError::TriangulationWorkLimitExceeded { .. }) || (result
            == Err::<(usize, usize), MeshError>(
            MeshError::TriangulationFailed("no non-intersecting hole bridge exists"),
        ) && forall|o: int, h: int|
            !#[trigger] bridge_usable(merged@, hole@, exterior@, hole_views(holes@), bridges@, o, h)),
{
    let mut best: Option<(i128, PointMicrometers, PointMicrometers, usize, usize)> = None;
    let mut hole_index: usize = 0;
    while hole_index < hole.len()
        invariant
            points_in_range(merged@),
            points_in_range(hole@),
            points_in_range(exterior@),
            rings_bounded(holes@),
            bridges_in_range(bridges@),
            0 <= hole_index <= hole@.len(),
            best matches Some(c) ==> {
                &&& bridge_usable(merged@, hole@, exterior@, hole_views(holes@), bridges@, c.3 as int, c.4 as int)
                &&& (c.0 as int, c.1.spec_x() as int, c.1.spec_y() as int, c.2.spec_x() as int, c.2.spec_y() as int, c.3 as int, c.4 as int)
                    == bridge_rank(merged@, hole@, c.3 as int, c.4 as int)
                &&& forall|o: int, h: int|
                    0 <= h < hole_index && #[trigger] bridge_usable(merged@, hole@, exterior@, hole_views(holes@), bridges@, o, h)
                        ==> !rank_lt(bridge_rank(merged@, hole@, o, h), bridge_rank(merged@, hole@, c.3 as int, c.4 as int))
            },
            best is None ==> forall|o: int, h: int|
                0 <= h < hole_index ==> !#[trigger] bridge_usable(merged@, hole@, exterior@, hole_views(holes@), bridges@, o, h),
        decreases hole@.len() - hole_index,
    {
        let inner = hole[hole_index];
        let mut outer_index: usize = 0;
        while outer_index < merged.len()
            invariant
                points_in_range(merged@),
                points_in_range(hole@),
                points_in_range(exterior@),
                rings_bounded(holes@),
                bridges_in_range(bridges@),
                0 <= hole_index < hole@.len(),
                inner == hole@[hole_index as int],
                0 <= outer_index <= merged@.len(),
                best matches Some(c) ==> {
                    &&& bridge_usable(merged@, hole@, exterior@, hole_views(holes@), bridges@, c.3 as int, c.4 as int)
                    &&& (c.0 as int, c.1.spec_x() as int, c.1.spec_y() as int, c.2.spec_x() as int, c.2.spec_y() as int, c.3 as int, c.4 as int)
                        == bridge_rank(merged@, hole@, c.3 as int, c.4 as int)
                    &&& forall|o: int, h: int|
                        (0 <= h < hole_index || (h == hole_index && o < outer_index)) && #[trigger] bridge_usable(
                            merged@,
                            hole@,
                            exterior@,
                            hole_views(holes@),
                            bridges@,
                            o,
                            h,
                        ) ==> !rank_lt(bridge_rank(merged@, hole@, o, h), bridge_rank(merged@, hole@, c.3 as int, c.4 as int))
                },
                best is None ==> forall|o: int, h: int|
                    (0 <= h < hole_index || (h == hole_index && o < outer_index)) ==> !#[trigger] bridge_usable(
                        merged@,
                        hole@,
                        exterior@,
                        hole_views(holes@),
                        bridges@,
                        o,
                        h,
                    ),
            decreases merged@.len() - outer_index,
        {
            let outer = merged[outer_index];
            proof {
                assert(point_in_range(inner));
                assert(point_in_range(merged@[outer_index as int]));
            }
            if !inner.same(outer) && bridge_is_visible(inner, outer, exterior, holes, bridges, budget)? {
                let candidate = (squared_distance(inner, outer), inner, outer, outer_index, hole_index);
                let better = match best {
                    None => true,
                    Some(current) => candidate_less(candidate, current),
                };
                if better {
                    best = Some(candidate);
                }
            }
            outer_index += 1;
        }
        hole_index += 1;
    }
    match best {
        Some(c) => Ok((c.3, c.4)),
        None => Err(MeshError::TriangulationFailed("no non-intersecting hole bridge exists")),
    }
}

/// A hole with its rightmost vertex, for ordering holes before bridging.
pub struct HoleKey {
    pub anchor: PointMicrometers,
    pub vertices: Vec<PointMicrometers>,
    pub index: usize,
}

/// Two points ordered both ways are equal.
pub proof fn lemma_point_order_antisymmetric(a: PointMicrometers, b: PointMicrometers)
    requires
        a.ordered_le(b),
        b.ordered_le(a),
    ensures
        a == b,
{
    PointMicrometers::lemma_coordinates_determine(a, b);
}

impl LexOrder for HoleKey {
    open spec fn ordered_le(self, other: Self) -> bool {
        point_lt(other.anchor, self.anchor) || (self.anchor == other.anchor && points_seq_le(
            self.vertices@,
            other.vertices@,
        ))
    }

    proof fn lemma_le_total(a: Self, b: Self) {
        PointMicrometers::lemma_le_total(a.anchor, b.anchor);
        crate::planar::types::lemma_points_seq_le_total(a.vertices@, b.vertices@);
    }

    proof fn lemma_le_transitive(a: Self, b: Self, c: Self) {
        if point_lt(b.anchor, a.anchor) && point_lt(c.anchor, b.anchor) {
            PointMicrometers::lemma_le_transitive(c.anchor, b.anchor, a.anchor);
            if c.anchor == a.anchor {
                lemma_point_order_antisymmetric(a.anchor, b.anchor);
            }
        }
        if a.anchor == b.anchor && b.anchor == c.anchor {
            crate::planar::types::lemma_points_seq_le_transitive(a.vertices@, b.vertices@, c.vertices@);
        }
    }

    fn le(&self, other: &Self) -> (result: bool) {
        point_less(other.anchor, self.anchor) || (self.anchor.same(other.anchor)
            && points_seq_less_or_equal(self.vertices.as_slice(), other.vertices.as_slice()))
    }
}

proof fn lemma_spliced_in_range(merged: Seq<PointMicrometers>, outer: int, hole: Seq<PointMicrometers>, inner: int)
    requires
        points_in_range(merged),
        points_in_range(hole),
        0 <= outer < merged.len(),
        0 <= inner < hole.len(),
    ensures
        points_in_range(spliced(merged, outer, hole, inner)),
{
    let s = spliced(merged, outer, hole, inner);
    assert forall|i: int| 0 <= i < s.len() implies point_in_range(#[trigger] s[i]) by {
        let a = outer + 1;
        let b = a + hole.len();
        if i < a {
            assert(s[i] == merged[i]);
        } else if i < a + (hole.len() - inner) {
            assert(s[i] == hole[inner + (i - a)]);
        } else if i < b {
            assert(s[i] == hole[i - a - (hole.len() - inner)]);
        } else if i == b {
            assert(s[i] == hole[inner]);
        } else if i == b + 1 {
            assert(s[i] == merged[outer]);
        } else {
            assert(s[i] == merged[outer + 1 + (i - b - 2)]);
        }
    }
}

/// Triangulates a counter-clockwise exterior with clockwise holes into
/// counter-clockwise triangles that cover exactly the expected area. Holes
/// are bridged in order of their rightmost vertex (rightmost first), each by
/// its shortest visible bridge; the bridged ring is then ear clipped and the
/// result checked against the input rings.
pub fn triangulate_slices(
    exterior: &[PointMicrometers],
    holes: &[&[PointMicrometers]],
    expected_double_area: i128,
    budget: &mut WorkBudget,
) -> (result: Result<Vec<[PointMicrometers; 3]>, MeshError>)
    requires
        points_in_range(exterior@),
        rings_bounded(holes@),
    ensures
        result matches Ok(triangles) ==> positively_oriented(triangles@) && triangles_area(triangles@)
            == expected_double_area,
        result matches Ok(triangles) ==> forall|i: int|
            0 <= i < triangles@.len() ==> triangle_in_range(#[trigger] triangles@[i]),
        result matches Ok(triangles) ==> triangulation_fits(exterior@, hole_views(holes@), triangles@),
{
    proof {
        assert forall|i: int| 0 <= i < holes@.len() implies points_in_range((#[trigger] holes@[i])@) by {
            assert(points_in_range(holes@[i]@));
        }
    }
    validate_input(exterior, holes, expected_double_area)?;
    let mut merged = copy_vertices(exterior);
    let mut bridges: Vec<(PointMicrometers, PointMicrometers)> = Vec::new();
    let mut keys: Vec<HoleKey> = Vec::new();
    let mut h: usize = 0;
    while h < holes.len()
        invariant
            rings_bounded(holes@),
            forall|k: int| 0 <= k < holes@.len() ==> (#[trigger] holes@[k])@.len() >= 3,
            0 <= h <= holes@.len(),
            keys@.len() == h,
            forall|k: int| 0 <= k < keys@.len() ==> (#[trigger] keys@[k]).index < holes@.len(),
        decreases holes@.len() - h,
    {
        proof {
            assert(holes@[h as int]@.len() >= 3);
        }
        let key = HoleKey { anchor: rightmost(holes[h]), vertices: copy_vertices(holes[h]), index: h };
        keys.push(key);
        proof {
            assert forall|k: int| 0 <= k < keys@.len() implies (#[trigger] keys@[k]).index < holes@.len() by {
                if k < keys@.len() - 1 {
                    assert(keys@[k] == keys@.drop_last()[k]);
                }
            }
        }
        h += 1;
    }
    let ghost unsorted = keys@;
    let keys = sort_vec(keys);
    proof {
        lemma_same_members(unsorted, keys@);
        assert forall|k: int| 0 <= k < keys@.len() implies (#[trigger] keys@[k]).index < holes@.len() by {
            assert(unsorted.contains(keys@[k]));
        }
    }
    let mut k: usize = 0;
    while k < keys.len()
        invariant
            points_in_range(exterior@),
                rings_bounded(holes@),
            forall|j: int| 0 <= j < holes@.len() ==> (#[trigger] holes@[j])@.len() >= 3,
            forall|j: int| 0 <= j < keys@.len() ==> (#[trigger] keys@[j]).index < holes@.len(),
            0 <= k <= keys@.len(),
            points_in_range(merged@),
            bridges_in_range(bridges@),
        decreases keys@.len() - k,
    {
        let hole = holes[keys[k].index];
        proof {
            assert(keys@[k as int].index < holes@.len());
            assert(points_in_range(hole@));
        }
        let (outer_index, hole_vertex_index) = find_bridge(merged.as_slice(), hole, exterior, holes, bridges.as_slice(), budget)?;
        let outer = merged[outer_index];
        let inner = hole[hole_vertex_index];
        let next = splice_hole(merged.as_slice(), outer_index, hole, hole_vertex_index)?;
        proof {
            lemma_spliced_in_range(merged@, outer_index as int, hole@, hole_vertex_index as int);
            assert(point_in_range(merged@[outer_index as int]));
            assert(point_in_range(hole@[hole_vertex_index as int]));
        }
        merged = next;
        bridges.push((outer, inner));
        proof {
            assert forall|i: int| 0 <= i < bridges@.len() implies point_in_range((#[trigger] bridges@[i]).0) && point_in_range(bridges@[i].1) by {
                if i < bridges@.len() - 1 {
                    assert(bridges@[i] == bridges@.drop_last()[i]);
                }
            }
        }
        k += 1;
    }
    if ring_double_area(merged.as_slice())? != expected_double_area {
        return Err(MeshError::TriangulationFailed("hole bridges changed the polygon area"));
    }
    let triangles = ear_clip(merged.as_slice(), budget)?;
    proof {
        assert forall|i: int| 0 <= i < triangles@.len() implies triangle_in_range(#[trigger] triangles@[i]) by {
            assert(merged@.contains(triangles@[i][0]));
            assert(merged@.contains(triangles@[i][1]));
            assert(merged@.contains(triangles@[i][2]));
        }
    }
    validate_triangulation(exterior, holes, triangles.as_slice(), expected_double_area)?;
    Ok(triangles)
}

/// Triangulates one polygon given as an exterior ring and its hole rings.
pub fn triangulate_rings(
    exterior: &[PointMicrometers],
    holes: &[Ring],
    expected_double_area: i128,
    budget: &mut WorkBudget,
) -> (result: Result<Vec<[PointMicrometers; 3]>, MeshError>)
    requires
        points_in_range(exterior@),
    ensures
        result matches Ok(triangles) ==> positively_oriented(triangles@) && triangles_area(triangles@)
            == expected_double_area,
        result matches Ok(triangles) ==> forall|i: int|
            0 <= i < triangles@.len() ==> triangle_in_range(#[trigger] triangles@[i]),
        result matches Ok(triangles) ==> triangulation_fits(exterior@, ring_views(holes@), triangles@),
{
    let mut hole_vertices: Vec<&[PointMicrometers]> = Vec::new();
    let mut h: usize = 0;
    while h < holes.len()
        invariant
            0 <= h <= holes@.len(),
            hole_vertices@.len() == h,
            rings_bounded(hole_vertices@),
            forall|i: int| 0 <= i < h ==> (#[trigger] hole_vertices@[i])@ == holes@[i].spec_vertices(),
        decreases holes@.len() - h,
    {
        let vertices = holes[h].vertices();
        hole_vertices.push(vertices);
        proof {
            assert forall|i: int| 0 <= i < hole_vertices@.len() implies points_in_range((#[trigger] hole_vertices@[i])@)
                && hole_vertices@[i]@ == holes@[i].spec_vertices() by {
                if i < hole_vertices@.len() - 1 {
                    assert(hole_vertices@[i] == hole_vertices@.drop_last()[i]);
                }
            }
        }
        h += 1;
    }
    proof {
        assert(hole_views(hole_vertices@) =~= ring_views(holes@));
    }
    triangulate_slices(exterior, hole_vertices.as_slice(), expected_double_area, budget)
}

} // verus!
