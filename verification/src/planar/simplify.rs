//! Guarded Douglas-Peucker simplification of shared contours: every
//! boundary between substrate and fill is simplified once, and the result is
//! only used when it keeps every ring simple, disjoint and nested as before.

use vstd::prelude::*;

use crate::order::{lemma_same_members, sort_vec, sorted, LexOrder};
use crate::planar::predicates::{
    perpendicular_distance_key, point_location, ring_self_intersects, rings_intersect,
    spec_perpendicular_distance_key, spec_point_location, spec_ring_self_intersects,
    spec_rings_intersect, spec_squared_distance, squared_distance,
};
use crate::planar::tracing::{
    canonical_cycle, canonical_rotation, canonical_undirected, canonicalize_oriented, copy_vertices,
    lemma_canonical_rotation, members_of, starts_at_minimum,
};
use crate::planar::types::{
    lemma_reverse_area, point_in_range, points_in_range, points_seq_less_or_equal,
    signed_double_area, spec_signed_double_area, valid_ring_vertices, PointMicrometers,
    RectMicrometers, MAX_ARTWORK_EXTENT_MICROMETERS, MAX_BOUNDARY_EDGES,
    MAX_SIMPLIFICATION_VALIDATION_VERTICES,
};

verus! {

broadcast use vstd::seq_lib::group_to_multiset_ensures;

/// Some vertex lies on the footprint's outline.
pub open spec fn spec_touches_footprint(vertices: Seq<PointMicrometers>, footprint: RectMicrometers) -> bool {
    exists|i: int|
        0 <= i < vertices.len() && {
            let p = #[trigger] vertices[i];
            p.spec_x() == 0 || p.spec_y() == 0 || p.spec_x() == footprint.spec_width()
                || p.spec_y() == footprint.spec_height()
        }
}

/// Returns whether a ring touches the footprint outline, which must stay fixed.
pub fn touches_footprint(vertices: &[PointMicrometers], footprint: RectMicrometers) -> (touches: bool)
    ensures
        touches == spec_touches_footprint(vertices@, footprint),
{
    let width = footprint.width();
    let height = footprint.height();
    let mut index: usize = 0;
    while index < vertices.len()
        invariant
            0 <= index <= vertices@.len(),
            width == footprint.spec_width(),
            height == footprint.spec_height(),
            forall|i: int|
                0 <= i < index ==> {
                    let p = #[trigger] vertices@[i];
                    !(p.spec_x() == 0 || p.spec_y() == 0 || p.spec_x() == width || p.spec_y()
                        == height)
                },
        decreases vertices@.len() - index,
    {
        let p = vertices[index];
        if p.x() == 0 || p.y() == 0 || p.x() == width || p.y() == height {
            return true;
        }
        index += 1;
    }
    false
}

/// The distance key of point `k` from the chord from `start` to `end`.
pub open spec fn chord_key(points: Seq<PointMicrometers>, start: int, end: int, k: int) -> int {
    spec_perpendicular_distance_key(points[k], points[start], points[end]) as int
}

/// Among the interior points `start + 1 .. upto`, the first one farthest from
/// the chord from `start` to `end`.
pub open spec fn farthest_upto(points: Seq<PointMicrometers>, start: int, end: int, upto: int) -> int
    decreases upto - start,
{
    if upto <= start + 2 {
        start + 1
    } else {
        let best = farthest_upto(points, start, end, upto - 1);
        if chord_key(points, start, end, upto - 1) > chord_key(points, start, end, best) {
            upto - 1
        } else {
            best
        }
    }
}

/// The first interior point farther from the chord than the tolerance
/// allows is split at; none when every interior point is close enough.
pub open spec fn split_point(points: Seq<PointMicrometers>, start: int, end: int, tolerance: int) -> Option<int> {
    let index = farthest_upto(points, start, end, end);
    if end > start + 1 && chord_key(points, start, end, index) > tolerance * tolerance * spec_squared_distance(
        points[start],
        points[end],
    ) {
        Some(index)
    } else {
        None
    }
}

/// The vertices strictly inside `start..end` that Douglas-Peucker keeps.
pub open spec fn marked_vertices(points: Seq<PointMicrometers>, start: int, end: int, tolerance: int) -> Set<int>
    decreases end - start,
{
    match split_point(points, start, end, tolerance) {
        Some(index) => if start < index < end {
            set![index] + marked_vertices(points, index, end, tolerance) + marked_vertices(
                points,
                start,
                index,
                tolerance,
            )
        } else {
            Set::empty()
        },
        None => Set::empty(),
    }
}

/// The farthest point lies strictly inside the chord's range.
proof fn lemma_farthest_inside(points: Seq<PointMicrometers>, start: int, end: int, upto: int)
    requires
        start + 2 <= upto,
    ensures
        start < farthest_upto(points, start, end, upto) < upto,
    decreases upto - start,
{
    if upto > start + 2 {
        lemma_farthest_inside(points, start, end, upto - 1);
    }
}

/// The vertices kept inside `start..end` lie strictly inside it.
proof fn lemma_marked_inside(points: Seq<PointMicrometers>, start: int, end: int, tolerance: int)
    ensures
        forall|k: int| #[trigger] marked_vertices(points, start, end, tolerance).contains(k) ==> start < k < end,
    decreases end - start,
{
    match split_point(points, start, end, tolerance) {
        Some(index) => if start < index < end {
            lemma_marked_inside(points, index, end, tolerance);
            lemma_marked_inside(points, start, index, tolerance);
            let upper = marked_vertices(points, index, end, tolerance);
            let lower = marked_vertices(points, start, index, tolerance);
            assert(marked_vertices(points, start, end, tolerance) == set![index] + upper + lower);
            assert forall|k: int| #[trigger] marked_vertices(points, start, end, tolerance).contains(k) implies start < k
                < end by {
                if upper.contains(k) {
                } else if lower.contains(k) {
                }
            }
        },
        None => {},
    }
}

/// The interior point of `start..end` farthest from the chord, the first
/// one on ties, with its distance key.
fn farthest_from_chord(points: &[PointMicrometers], start: usize, end: usize) -> (found: (usize, i128))
    requires
        start + 1 < end < points@.len(),
        points_in_range(points@),
    ensures
        start < found.0 < end,
        found.0 == farthest_upto(points@, start as int, end as int, end as int),
        found.1 == spec_perpendicular_distance_key(points@[found.0 as int], points@[start as int], points@[end as int]),
        forall|k: int| start < k < end ==> spec_perpendicular_distance_key(#[trigger] points@[k], points@[start as int], points@[end as int]) <= found.1,
{
    let mut best = start + 1;
    let mut best_distance = perpendicular_distance_key(points[best], points[start], points[end]);
    let mut index = start + 2;
    while index < end
        invariant
            start + 1 < end < points@.len(),
            points_in_range(points@),
            start < best < index <= end,
            best == farthest_upto(points@, start as int, end as int, index as int),
            best_distance == spec_perpendicular_distance_key(points@[best as int], points@[start as int], points@[end as int]),
            forall|k: int| start < k < index ==> spec_perpendicular_distance_key(#[trigger] points@[k], points@[start as int], points@[end as int]) <= best_distance,
        decreases end - index,
    {
        let distance = perpendicular_distance_key(points[index], points[start], points[end]);
        if distance > best_distance {
            best = index;
            best_distance = distance;
        }
        index += 1;
    }
    (best, best_distance)
}

/// Marks the vertices of `start..end` that Douglas-Peucker keeps: the farthest
/// interior vertex when its distance from the chord exceeds the tolerance,
/// then recursively both halves.
fn mark_chain(
    points: &[PointMicrometers],
    start: usize,
    end: usize,
    tolerance: i64,
    keep: &mut Vec<bool>,
)
    requires
        start < end < points@.len(),
        old(keep)@.len() == points@.len(),
        points_in_range(points@),
        0 <= tolerance <= MAX_ARTWORK_EXTENT_MICROMETERS,
    ensures
        final(keep)@.len() == points@.len(),
        forall|k: int|
            0 <= k < points@.len() ==> #[trigger] final(keep)@[k] == (old(keep)@[k] || marked_vertices(
                points@,
                start as int,
                end as int,
                tolerance as int,
            ).contains(k)),
        forall|k: int| 0 <= k < points@.len() && old(keep)@[k] ==> #[trigger] final(keep)@[k],
        forall|k: int| 0 <= k < points@.len() && !(start < k < end) ==> #[trigger] final(keep)@[k] == old(keep)@[k],
    decreases end - start,
{
    proof {
        lemma_marked_inside(points@, start as int, end as int, tolerance as int);
    }
    if end <= start + 1 {
        return;
    }
    let (index, distance) = farthest_from_chord(points, start, end);
    let segment_length = squared_distance(points[start], points[end]);
    proof {
        assert(0 <= tolerance * tolerance <= 1_000_000_000_000_000_000) by (nonlinear_arith)
            requires
                0 <= tolerance <= 1_000_000_000,
        ;
    }
    let tolerance_squared = tolerance as i128 * tolerance as i128;
    proof {
        assert(0 <= tolerance_squared * segment_length <= 1_000_000_000_000_000_000 * 2_000_000_000_000_000_000) by (nonlinear_arith)
            requires
                0 <= tolerance_squared <= 1_000_000_000_000_000_000,
                0 <= segment_length <= 2_000_000_000_000_000_000,
        ;
    }
    let ghost marked = marked_vertices(points@, start as int, end as int, tolerance as int);
    if distance > tolerance_squared * segment_length {
        let ghost before = keep@;
        proof {
            assert(split_point(points@, start as int, end as int, tolerance as int) == Some(index as int));
            assert(marked == set![index as int] + marked_vertices(points@, index as int, end as int, tolerance as int)
                + marked_vertices(points@, start as int, index as int, tolerance as int));
        }
        keep.set(index, true);
        let ghost middle_before = keep@;
        mark_chain(points, index, end, tolerance, keep);
        let ghost middle = keep@;
        mark_chain(points, start, index, tolerance, keep);
        proof {
            lemma_marked_inside(points@, index as int, end as int, tolerance as int);
            lemma_marked_inside(points@, start as int, index as int, tolerance as int);
            assert forall|k: int| 0 <= k < points@.len() implies #[trigger] keep@[k] == (before[k] || marked.contains(k)) by {
                assert(middle_before[k] == (before[k] || k == index));
            }
        }
    } else {
        proof {
            assert(split_point(points@, start as int, end as int, tolerance as int) is None);
        }
    }
}

/// An open chain reduced by Douglas-Peucker keeps its end points and only
/// vertices of the chain.
pub open spec fn chain_reduction(initial: Seq<PointMicrometers>, reduced: Seq<PointMicrometers>) -> bool {
    &&& reduced.len() <= initial.len()
    &&& members_of(reduced, initial)
    &&& initial.len() <= 2 ==> reduced == initial
    &&& initial.len() >= 2 ==> reduced.len() >= 2 && reduced[0] == initial[0] && reduced.last()
        == initial.last()
}

/// Simplifies an open chain with the Douglas-Peucker rule at the given
/// tolerance; the end points are always kept.
pub fn simplify_open_chain(points: &[PointMicrometers], tolerance: i64) -> (reduced: Vec<PointMicrometers>)
    requires
        points_in_range(points@),
        0 <= tolerance <= MAX_ARTWORK_EXTENT_MICROMETERS,
    ensures
        chain_reduction(points@, reduced@),
{
    let n = points.len();
    if n <= 2 {
        return copy_vertices(points);
    }
    let mut keep: Vec<bool> = Vec::new();
    while keep.len() < n
        invariant
            keep@.len() <= n,
            forall|k: int| 0 <= k < keep@.len() ==> #[trigger] keep@[k] == (k == 0 || k == n - 1),
        decreases n - keep@.len(),
    {
        let value = keep.len() == 0 || keep.len() == n - 1;
        keep.push(value);
    }
    mark_chain(points, 0, n - 1, tolerance, &mut keep);
    let mut reduced: Vec<PointMicrometers> = Vec::new();
    let mut index: usize = 0;
    while index < n
        invariant
            n == points@.len(),
            n >= 3,
            keep@.len() == n,
            keep@[0],
            keep@[n - 1],
            0 <= index <= n,
            reduced@.len() <= index,
            members_of(reduced@, points@),
            index > 0 ==> reduced@.len() >= 1 && reduced@[0] == points@[0],
            index > 0 ==> reduced@.last() == points@[index - 1] || !keep@[index - 1],
            index > 0 && keep@[index - 1] ==> reduced@.last() == points@[index - 1],
            index == n ==> reduced@.len() >= 2,
        decreases n - index,
    {
        if keep[index] {
            proof {
                assert(points@.contains(points@[index as int]));
            }
            reduced.push(points[index]);
            proof {
                assert forall|i: int| 0 <= i < reduced@.len() implies points@.contains(#[trigger] reduced@[i]) by {
                    if i < reduced@.len() - 1 {
                        assert(reduced@[i] == reduced@.drop_last()[i]);
                    }
                }
                if index + 1 == n {
                    assert(reduced@.len() >= 2);
                }
            }
        }
        index += 1;
    }
    reduced
}

/// Simplifies a closed ring: it is split at its first vertex and the vertex
/// farthest from it (the last such on ties), both chains are simplified, and
/// the rejoined ring is returned in orientation-independent canonical form.
pub fn simplify_closed_ring(vertices: &[PointMicrometers], tolerance: i64) -> (simplified: Vec<PointMicrometers>)
    requires
        points_in_range(vertices@),
        vertices@.len() <= MAX_BOUNDARY_EDGES,
        0 <= tolerance <= MAX_ARTWORK_EXTENT_MICROMETERS,
    ensures
        simplified@.len() <= vertices@.len(),
        members_of(simplified@, vertices@),
        vertices@.len() <= 3 ==> simplified@ == vertices@,
{
    let n = vertices.len();
    if n <= 3 {
        return copy_vertices(vertices);
    }
    let anchor = vertices[0];
    let mut opposite: usize = 1;
    let mut farthest = squared_distance(anchor, vertices[1]);
    let mut index: usize = 2;
    while index < n
        invariant
            n == vertices@.len(),
            anchor == vertices@[0],
            points_in_range(vertices@),
            1 <= opposite < index <= n,
        decreases n - index,
    {
        let distance = squared_distance(anchor, vertices[index]);
        if distance >= farthest {
            opposite = index;
            farthest = distance;
        }
        index += 1;
    }
    let first_chain = copy_vertices(&vertices[0..opposite + 1]);
    proof {
        assert(first_chain@ == vertices@.subrange(0, opposite + 1));
        assert forall|i: int| 0 <= i < first_chain@.len() implies point_in_range(#[trigger] first_chain@[i]) by {
            assert(first_chain@[i] == vertices@[i]);
        }
    }
    let mut second_chain = copy_vertices(&vertices[opposite..n]);
    second_chain.push(anchor);
    proof {
        assert(second_chain@ == vertices@.subrange(opposite as int, n as int).push(anchor));
        assert forall|i: int| 0 <= i < second_chain@.len() implies point_in_range(#[trigger] second_chain@[i]) && vertices@.contains(second_chain@[i]) by {
            if i < n - opposite {
                assert(second_chain@[i] == vertices@[opposite + i]);
            } else {
                assert(second_chain@[i] == vertices@[0]);
            }
        }
    }
    let first = simplify_open_chain(first_chain.as_slice(), tolerance);
    let second = simplify_open_chain(second_chain.as_slice(), tolerance);
    let mut joined = first;
    joined.pop();
    let mut k: usize = 0;
    let ghost head = joined@;
    while k < second.len()
        invariant
            0 <= k <= second@.len(),
            joined@ == head + second@.subrange(0, k as int),
        decreases second@.len() - k,
    {
        joined.push(second[k]);
        proof {
            assert(second@.subrange(0, k + 1) == second@.subrange(0, k as int).push(second@[k as int]));
        }
        k += 1;
    }
    joined.pop();
    proof {
        assert forall|i: int| 0 <= i < joined@.len() implies vertices@.contains(#[trigger] joined@[i]) by {
            if i < head.len() {
                assert(joined@[i] == head[i]);
                assert(first_chain@.contains(head[i]));
                let j = choose|j: int| 0 <= j < first_chain@.len() && first_chain@[j] == head[i];
                assert(first_chain@[j] == vertices@[j]);
            } else {
                assert(joined@[i] == second@[i - head.len()]);
                assert(second_chain@.contains(second@[i - head.len()]));
            }
        }
        assert forall|i: int| 0 <= i < joined@.len() implies point_in_range(#[trigger] joined@[i]) by {
            assert(vertices@.contains(joined@[i]));
        }
    }
    let simplified = canonical_undirected(joined.as_slice());
    proof {
        lemma_canonical_cycle_members(joined@);
    }
    simplified
}

/// The canonical form of a cycle is built from its vertices.
pub proof fn lemma_canonical_cycle_members(vertices: Seq<PointMicrometers>)
    ensures
        canonical_cycle(vertices).len() == vertices.len(),
        members_of(canonical_cycle(vertices), vertices),
        spec_signed_double_area(canonical_cycle(vertices)) == spec_signed_double_area(vertices)
            || spec_signed_double_area(canonical_cycle(vertices)) == -spec_signed_double_area(vertices),
{
    if vertices.len() > 0 {
        lemma_canonical_rotation(vertices);
        lemma_canonical_rotation(vertices.reverse());
        lemma_reverse_area(vertices);
        let backward = canonical_rotation(vertices.reverse());
        assert forall|i: int| 0 <= i < backward.len() implies vertices.contains(#[trigger] backward[i]) by {
            assert(vertices.reverse().contains(backward[i]));
            let j = choose|j: int| 0 <= j < vertices.len() && vertices.reverse()[j] == backward[i];
            assert(vertices[vertices.len() - 1 - j] == backward[i]);
        }
    }
}

/// A simplified candidate is a simple ring enclosing nonzero area.
pub open spec fn candidate_ok(candidate: Seq<PointMicrometers>) -> bool {
    &&& candidate.len() >= 3
    &&& spec_signed_double_area(candidate) != 0
    &&& !spec_ring_self_intersects(candidate)
}

/// Two simplified candidates stay apart and keep the nesting of their originals.
pub open spec fn pair_ok(
    originals: Seq<Vec<PointMicrometers>>,
    candidates: Seq<Vec<PointMicrometers>>,
    first: int,
    second: int,
) -> bool {
    &&& !spec_rings_intersect(candidates[first]@, candidates[second]@)
    &&& spec_point_location(originals[first]@[0], originals[second]@) == spec_point_location(
        candidates[first]@[0],
        candidates[second]@,
    )
    &&& spec_point_location(originals[second]@[0], originals[first]@) == spec_point_location(
        candidates[second]@[0],
        candidates[first]@,
    )
}

/// Every candidate is a simple ring, no two touch, and every pairwise
/// containment relation of the originals is kept.
pub open spec fn simplification_valid(
    originals: Seq<Vec<PointMicrometers>>,
    candidates: Seq<Vec<PointMicrometers>>,
) -> bool {
    &&& forall|i: int| 0 <= i < candidates.len() ==> candidate_ok(#[trigger] candidates[i]@)
    &&& forall|i: int, j: int|
        0 <= i < j < candidates.len() ==> #[trigger] pair_ok(originals, candidates, i, j)
}

/// Rings that can take part in simplification checks.
pub open spec fn checkable_rings(rings: Seq<Vec<PointMicrometers>>) -> bool {
    forall|i: int|
        0 <= i < rings.len() ==> points_in_range(#[trigger] rings[i]@) && rings[i]@.len()
            <= MAX_BOUNDARY_EDGES
}

/// Checks that simplified candidates are simple, mutually disjoint, and keep
/// the containment relations of the initial rings.
pub fn validate_simplification(
    originals: &[Vec<PointMicrometers>],
    candidates: &[Vec<PointMicrometers>],
) -> (valid: bool)
    requires
        originals@.len() == candidates@.len(),
        checkable_rings(originals@),
        checkable_rings(candidates@),
        forall|i: int| 0 <= i < originals@.len() ==> (#[trigger] originals@[i])@.len() >= 1,
    ensures
        valid == simplification_valid(originals@, candidates@),
{
    let n = candidates.len();
    let mut index: usize = 0;
    while index < n
        invariant
            n == candidates@.len(),
            checkable_rings(candidates@),
            0 <= index <= n,
            forall|i: int| 0 <= i < index ==> candidate_ok(#[trigger] candidates@[i]@),
        decreases n - index,
    {
        proof {
            assert(points_in_range(candidates@[index as int]@));
        }
        let ring = candidates[index].as_slice();
        if ring.len() < 3 || signed_double_area(ring) == 0 || ring_self_intersects(ring) {
            proof {
                assert(!candidate_ok(candidates@[index as int]@));
            }
            return false;
        }
        index += 1;
    }
    let mut first: usize = 0;
    while first < n
        invariant
            n == candidates@.len(),
            n == originals@.len(),
            checkable_rings(candidates@),
            checkable_rings(originals@),
            forall|i: int| 0 <= i < originals@.len() ==> (#[trigger] originals@[i])@.len() >= 1,
            forall|i: int| 0 <= i < n ==> candidate_ok(#[trigger] candidates@[i]@),
            0 <= first <= n,
            forall|i: int, j: int|
                0 <= i < first && i < j < n ==> #[trigger] pair_ok(originals@, candidates@, i, j),
        decreases n - first,
    {
        let mut second: usize = first + 1;
        while second < n
            invariant
                n == candidates@.len(),
                n == originals@.len(),
                checkable_rings(candidates@),
                checkable_rings(originals@),
                forall|i: int| 0 <= i < originals@.len() ==> (#[trigger] originals@[i])@.len() >= 1,
                forall|i: int| 0 <= i < n ==> candidate_ok(#[trigger] candidates@[i]@),
                0 <= first < n,
                first + 1 <= second <= n,
                forall|j: int|
                    first < j < second ==> #[trigger] pair_ok(originals@, candidates@, first as int, j),
            decreases n - second,
        {
            proof {
                assert(points_in_range(candidates@[first as int]@));
                assert(points_in_range(candidates@[second as int]@));
                assert(points_in_range(originals@[first as int]@));
                assert(points_in_range(originals@[second as int]@));
                assert(candidate_ok(candidates@[first as int]@));
                assert(candidate_ok(candidates@[second as int]@));
                assert(originals@[first as int]@.len() >= 1);
                assert(originals@[second as int]@.len() >= 1);
            }
            let a = candidates[first].as_slice();
            let b = candidates[second].as_slice();
            let oa = originals[first].as_slice();
            let ob = originals[second].as_slice();
            if rings_intersect(a, b) {
                proof {
                    assert(!pair_ok(originals@, candidates@, first as int, second as int));
                }
                return false;
            }
            if point_location(oa[0], ob) != point_location(a[0], b) {
                proof {
                    assert(!pair_ok(originals@, candidates@, first as int, second as int));
                }
                return false;
            }
            if point_location(ob[0], oa) != point_location(b[0], a) {
                proof {
                    assert(!pair_ok(originals@, candidates@, first as int, second as int));
                }
                return false;
            }
            proof {
                assert(pair_ok(originals@, candidates@, first as int, second as int));
            }
            second += 1;
        }
        first += 1;
    }
    true
}

/// Returns whether two vertex sequences are identical.
pub fn same_vertices(a: &[PointMicrometers], b: &[PointMicrometers]) -> (same: bool)
    ensures
        same == (a@ == b@),
{
    if a.len() != b.len() {
        return false;
    }
    let mut index: usize = 0;
    while index < a.len()
        invariant
            a@.len() == b@.len(),
            0 <= index <= a@.len(),
            forall|i: int| 0 <= i < index ==> a@[i] == b@[i],
        decreases a@.len() - index,
    {
        if !a[index].same(b[index]) {
            return false;
        }
        index += 1;
    }
    proof {
        assert(a@ =~= b@);
    }
    true
}

/// Returns the vertices in reverse order.
pub fn reversed_vertices(vertices: &[PointMicrometers]) -> (reversed: Vec<PointMicrometers>)
    ensures
        reversed@ == vertices@.reverse(),
{
    let n = vertices.len();
    let mut reversed: Vec<PointMicrometers> = Vec::new();
    let mut index: usize = 0;
    while index < n
        invariant
            n == vertices@.len(),
            0 <= index <= n,
            reversed@ == vertices@.reverse().subrange(0, index as int),
        decreases n - index,
    {
        reversed.push(vertices[n - 1 - index]);
        proof {
            assert(vertices@.reverse().subrange(0, index + 1) =~= vertices@.reverse().subrange(0, index as int).push(vertices@[n - 1 - index]));
        }
        index += 1;
    }
    proof {
        assert(vertices@.reverse().subrange(0, n as int) == vertices@.reverse());
    }
    reversed
}

/// Every ring is valid.
pub open spec fn valid_rings(rings: Seq<Vec<PointMicrometers>>) -> bool {
    forall|i: int| 0 <= i < rings.len() ==> valid_ring_vertices(#[trigger] rings[i]@)
}

/// Each output ring is valid and has the orientation of the input ring at the
/// same position.
pub open spec fn orientation_kept(input: Seq<Vec<PointMicrometers>>, output: Seq<Vec<PointMicrometers>>) -> bool {
    &&& output.len() == input.len()
    &&& valid_rings(output)
    &&& forall|i: int|
        0 <= i < input.len() ==> (spec_signed_double_area(#[trigger] output[i]@) > 0)
            == (spec_signed_double_area(input[i]@) > 0)
}

/// The replacement for the cycle `key`: the candidate of the first original
/// from position `k` on that equals it, or the cycle itself when none does.
pub open spec fn replacement_from(
    originals: Seq<Vec<PointMicrometers>>,
    candidates: Seq<Vec<PointMicrometers>>,
    key: Seq<PointMicrometers>,
    k: int,
) -> Seq<PointMicrometers>
    decreases originals.len() - k,
{
    if k < 0 || k >= originals.len() {
        key
    } else if originals[k]@ == key {
        candidates[k]@
    } else {
        replacement_from(originals, candidates, key, k + 1)
    }
}

/// The ring is `source` or its reversal, rotated to start at its first
/// smallest vertex.
pub open spec fn rebuilt_from(ring: Seq<PointMicrometers>, source: Seq<PointMicrometers>) -> bool {
    ring == canonical_rotation(source) || ring == canonical_rotation(source.reverse())
}

/// Two output rings are their inputs unchanged, or are both rebuilt from one
/// common ring.
pub open spec fn rebuilt_alike(
    first: Seq<PointMicrometers>,
    second: Seq<PointMicrometers>,
    first_input: Seq<PointMicrometers>,
    second_input: Seq<PointMicrometers>,
) -> bool {
    (first == first_input && second == second_input) || exists|source: Seq<PointMicrometers>|
        #[trigger] rebuilt_from(first, source) && rebuilt_from(second, source)
}

/// Replaces every ring by its simplified form (or by its own canonical
/// cycle), oriented like the ring it replaces and rotated to start at its
/// smallest vertex.
fn apply_replacements(
    rings: Vec<Vec<PointMicrometers>>,
    originals: &Vec<Vec<PointMicrometers>>,
    candidates: &Vec<Vec<PointMicrometers>>,
    use_candidates: bool,
) -> (applied: Vec<Vec<PointMicrometers>>)
    requires
        valid_rings(rings@),
        originals@.len() == candidates@.len(),
        use_candidates ==> valid_rings(candidates@),
    ensures
        orientation_kept(rings@, applied@),
        forall|i: int|
            0 <= i < rings@.len() ==> rebuilt_from(
                #[trigger] applied@[i]@,
                if use_candidates {
                    replacement_from(originals@, candidates@, canonical_cycle(rings@[i]@), 0)
                } else {
                    canonical_cycle(rings@[i]@)
                },
            ),
{
    let mut applied: Vec<Vec<PointMicrometers>> = Vec::new();
    let mut index: usize = 0;
    while index < rings.len()
        invariant
            valid_rings(rings@),
            originals@.len() == candidates@.len(),
            use_candidates ==> valid_rings(candidates@),
            0 <= index <= rings@.len(),
            applied@.len() == index,
            valid_rings(applied@),
            forall|i: int|
                0 <= i < index ==> (spec_signed_double_area(#[trigger] applied@[i]@) > 0) == (
                spec_signed_double_area(rings@[i]@) > 0),
            forall|i: int|
                0 <= i < index ==> rebuilt_from(
                    #[trigger] applied@[i]@,
                    if use_candidates {
                        replacement_from(originals@, candidates@, canonical_cycle(rings@[i]@), 0)
                    } else {
                        canonical_cycle(rings@[i]@)
                    },
                ),
        decreases rings@.len() - index,
    {
        let ring = rings[index].as_slice();
        proof {
            assert(valid_ring_vertices(ring@));
        }
        let desired = signed_double_area(ring);
        let key = canonical_undirected(ring);
        proof {
            lemma_canonical_cycle_members(ring@);
            assert forall|i: int| 0 <= i < key@.len() implies point_in_range(#[trigger] key@[i]) by {
                assert(ring@.contains(key@[i]));
            }
        }
        let ghost cycle = key@;
        let mut replacement = key;
        if use_candidates {
            let mut k: usize = 0;
            while k < originals.len()
                invariant_except_break
                    replacement@ == cycle,
                    replacement_from(originals@, candidates@, cycle, 0) == replacement_from(
                        originals@,
                        candidates@,
                        cycle,
                        k as int,
                    ),
                invariant
                    originals@.len() == candidates@.len(),
                    valid_rings(candidates@),
                    0 <= k <= originals@.len(),
                    valid_ring_vertices(replacement@),
                ensures
                    replacement@ == replacement_from(originals@, candidates@, cycle, 0),
                decreases originals@.len() - k,
            {
                if same_vertices(originals[k].as_slice(), replacement.as_slice()) {
                    proof {
                        assert(valid_ring_vertices(candidates@[k as int]@));
                    }
                    replacement = copy_vertices(candidates[k].as_slice());
                    break;
                }
                k += 1;
            }
        }
        let ghost source = replacement@;
        let area = signed_double_area(replacement.as_slice());
        if (area > 0) != (desired > 0) {
            let flipped = reversed_vertices(replacement.as_slice());
            proof {
                lemma_reverse_area(replacement@);
                assert forall|i: int| 0 <= i < flipped@.len() implies point_in_range(#[trigger] flipped@[i]) by {
                    assert(flipped@[i] == replacement@[replacement@.len() - 1 - i]);
                }
            }
            replacement = flipped;
        }
        let ghost before = replacement@;
        let oriented = canonicalize_oriented(replacement);
        proof {
            lemma_canonical_rotation(before);
            assert forall|i: int| 0 <= i < oriented@.len() implies point_in_range(#[trigger] oriented@[i]) by {
                assert(before.contains(oriented@[i]));
            }
        }
        let ghost applied_before = applied@;
        applied.push(oriented);
        proof {
            assert(rebuilt_from(oriented@, source));
            assert forall|i: int| 0 <= i < applied@.len() implies valid_ring_vertices(#[trigger] applied@[i]@) by {
                if i < applied@.len() - 1 {
                    assert(applied@[i] == applied@.drop_last()[i]);
                }
            }
            assert forall|i: int| 0 <= i < index + 1 implies rebuilt_from(
                #[trigger] applied@[i]@,
                if use_candidates {
                    replacement_from(originals@, candidates@, canonical_cycle(rings@[i]@), 0)
                } else {
                    canonical_cycle(rings@[i]@)
                },
            ) by {
                if i < index {
                    assert(applied@[i] == applied_before[i]);
                }
            }
            assert forall|i: int| 0 <= i < index + 1 implies (spec_signed_double_area(#[trigger] applied@[i]@) > 0) == (
            spec_signed_double_area(rings@[i]@) > 0) by {
                if i < index {
                    assert(applied@[i] == applied@.drop_last()[i]);
                }
            }
        }
        index += 1;
    }
    applied
}

/// Simplifies the shared boundaries of the substrate and fill rings with the
/// given tolerance. Each distinct cycle is simplified once, so a boundary
/// shared by both regions stays identical in both; cycles touching the
/// footprint outline keep their vertices. The simplification is dropped as a
/// whole when it would make any ring self-intersecting, make two rings touch,
/// or change how rings nest, and it is skipped when the rings have more
/// vertices than the check can afford. Every output ring keeps the
/// orientation of the ring it replaces.
pub fn simplify_shared_rings(
    substrate: Vec<Vec<PointMicrometers>>,
    fill: Vec<Vec<PointMicrometers>>,
    footprint: RectMicrometers,
    tolerance: i64,
) -> (simplified: (Vec<Vec<PointMicrometers>>, Vec<Vec<PointMicrometers>>))
    requires
        valid_rings(substrate@),
        valid_rings(fill@),
        substrate@.len() <= MAX_BOUNDARY_EDGES,
        fill@.len() <= MAX_BOUNDARY_EDGES,
        0 <= tolerance <= MAX_ARTWORK_EXTENT_MICROMETERS,
    ensures
        tolerance == 0 ==> simplified.0@ == substrate@ && simplified.1@ == fill@,
        orientation_kept(substrate@, simplified.0@),
        orientation_kept(fill@, simplified.1@),
        forall|i: int, j: int|
            #![trigger canonical_cycle(substrate@[i]@), canonical_cycle(fill@[j]@)]
            0 <= i < substrate@.len() && 0 <= j < fill@.len() && canonical_cycle(substrate@[i]@) == canonical_cycle(
                fill@[j]@,
            ) ==> rebuilt_alike(simplified.0@[i]@, simplified.1@[j]@, substrate@[i]@, fill@[j]@),
{
    if tolerance == 0 {
        return (substrate, fill);
    }
    let mut keys: Vec<Vec<PointMicrometers>> = Vec::new();
    let mut examined: usize = 0;
    let mut index: usize = 0;
    let total = substrate.len() + fill.len();
    while index < total
        invariant
            total == substrate@.len() + fill@.len(),
            valid_rings(substrate@),
            valid_rings(fill@),
            0 <= index <= total,
            examined <= MAX_SIMPLIFICATION_VALIDATION_VERTICES,
            valid_rings(keys@),
        decreases total - index,
    {
        let ring = if index < substrate.len() {
            substrate[index].as_slice()
        } else {
            fill[index - substrate.len()].as_slice()
        };
        proof {
            if index < substrate@.len() {
                assert(valid_ring_vertices(substrate@[index as int]@));
            } else {
                assert(valid_ring_vertices(fill@[index - substrate@.len()]@));
            }
        }
        if ring.len() > MAX_SIMPLIFICATION_VALIDATION_VERTICES - examined {
            return (substrate, fill);
        }
        examined = examined + ring.len();
        let key = canonical_undirected(ring);
        proof {
            lemma_canonical_cycle_members(ring@);
            assert forall|i: int| 0 <= i < key@.len() implies point_in_range(#[trigger] key@[i]) by {
                assert(ring@.contains(key@[i]));
            }
        }
        keys.push(key);
        proof {
            assert forall|i: int| 0 <= i < keys@.len() implies valid_ring_vertices(#[trigger] keys@[i]@) by {
                if i < keys@.len() - 1 {
                    assert(keys@[i] == keys@.drop_last()[i]);
                }
            }
        }
        index += 1;
    }
    let ghost unsorted = keys@;
    let keys = sort_vec(keys);
    proof {
        lemma_same_members(unsorted, keys@);
        assert forall|i: int| 0 <= i < keys@.len() implies valid_ring_vertices(#[trigger] keys@[i]@) by {
            assert(unsorted.contains(keys@[i]));
        }
    }
    let mut originals: Vec<Vec<PointMicrometers>> = Vec::new();
    let mut k: usize = 0;
    while k < keys.len()
        invariant
            0 <= k <= keys@.len(),
            valid_rings(keys@),
            valid_rings(originals@),
        decreases keys@.len() - k,
    {
        let fresh = originals.len() == 0 || !same_vertices(
            originals[originals.len() - 1].as_slice(),
            keys[k].as_slice(),
        );
        if fresh {
            proof {
                assert(valid_ring_vertices(keys@[k as int]@));
            }
            originals.push(copy_vertices(keys[k].as_slice()));
            proof {
                assert forall|i: int| 0 <= i < originals@.len() implies valid_ring_vertices(#[trigger] originals@[i]@) by {
                    if i < originals@.len() - 1 {
                        assert(originals@[i] == originals@.drop_last()[i]);
                    }
                }
            }
        }
        k += 1;
    }
    let mut candidates: Vec<Vec<PointMicrometers>> = Vec::new();
    let mut k: usize = 0;
    while k < originals.len()
        invariant
            0 <= k <= originals@.len(),
            valid_rings(originals@),
            candidates@.len() == k,
            0 < tolerance <= MAX_ARTWORK_EXTENT_MICROMETERS,
            checkable_rings(candidates@),
        decreases originals@.len() - k,
    {
        let initial = originals[k].as_slice();
        proof {
            assert(valid_ring_vertices(initial@));
        }
        let candidate = if touches_footprint(initial, footprint) {
            copy_vertices(initial)
        } else {
            simplify_closed_ring(initial, tolerance)
        };
        proof {
            assert forall|i: int| 0 <= i < candidate@.len() implies point_in_range(#[trigger] candidate@[i]) by {
                assert(initial@.contains(candidate@[i]));
            }
        }
        candidates.push(candidate);
        proof {
            assert forall|i: int| 0 <= i < candidates@.len() implies points_in_range(#[trigger] candidates@[i]@) && candidates@[i]@.len() <= MAX_BOUNDARY_EDGES by {
                if i < candidates@.len() - 1 {
                    assert(candidates@[i] == candidates@.drop_last()[i]);
                }
            }
        }
        k += 1;
    }
    proof {
        assert forall|i: int| 0 <= i < originals@.len() implies points_in_range(#[trigger] originals@[i]@) && originals@[i]@.len() <= MAX_BOUNDARY_EDGES && originals@[i]@.len() >= 1 by {
            assert(valid_ring_vertices(originals@[i]@));
        }
    }
    let use_candidates = validate_simplification(originals.as_slice(), candidates.as_slice());
    proof {
        if use_candidates {
            assert forall|i: int| 0 <= i < candidates@.len() implies valid_ring_vertices(#[trigger] candidates@[i]@) by {
                assert(candidate_ok(candidates@[i]@));
                assert(points_in_range(candidates@[i]@));
            }
        }
    }
    let ghost substrate_input = substrate@;
    let ghost fill_input = fill@;
    let substrate = apply_replacements(substrate, &originals, &candidates, use_candidates);
    let fill = apply_replacements(fill, &originals, &candidates, use_candidates);
    proof {
        assert forall|i: int, j: int|
            #![trigger canonical_cycle(substrate_input[i]@), canonical_cycle(fill_input[j]@)]
            0 <= i < substrate_input.len() && 0 <= j < fill_input.len() && canonical_cycle(substrate_input[i]@)
                == canonical_cycle(fill_input[j]@) implies rebuilt_alike(
            substrate@[i]@,
            fill@[j]@,
            substrate_input[i]@,
            fill_input[j]@,
        ) by {
            let key = canonical_cycle(substrate_input[i]@);
            let source = if use_candidates {
                replacement_from(originals@, candidates@, key, 0)
            } else {
                key
            };
            assert(rebuilt_from(substrate@[i]@, source));
            assert(rebuilt_from(fill@[j]@, source));
        }
    }
    (substrate, fill)
}

} // verus!
