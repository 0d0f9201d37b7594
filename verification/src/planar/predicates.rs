//! Exact integer geometric predicates on in-range points: orientation,
//! segment contact, ring intersection and point location.

use vstd::prelude::*;

use crate::planar::types::{point_in_range, points_in_range, PointMicrometers};

verus! {

/// Twice the signed area of the triangle `a`, `b`, `c`: positive for a
/// counter-clockwise turn, zero when the points are collinear.
pub open spec fn spec_orientation(a: PointMicrometers, b: PointMicrometers, c: PointMicrometers) -> int {
    (b.spec_x() - a.spec_x()) * (c.spec_y() - a.spec_y()) - (b.spec_y() - a.spec_y()) * (c.spec_x()
        - a.spec_x())
}

/// Bounds a product of two in-range coordinate differences.
pub proof fn lemma_difference_product(p: int, q: int)
    requires
        -1_000_000_000 <= p <= 1_000_000_000,
        -1_000_000_000 <= q <= 1_000_000_000,
    ensures
        -1_000_000_000_000_000_000 <= p * q <= 1_000_000_000_000_000_000,
{
    assert(-1_000_000_000_000_000_000 <= p * q <= 1_000_000_000_000_000_000) by (nonlinear_arith)
        requires
            -1_000_000_000 <= p <= 1_000_000_000,
            -1_000_000_000 <= q <= 1_000_000_000,
    ;
}

/// Computes the orientation of three in-range points.
pub fn orientation(a: PointMicrometers, b: PointMicrometers, c: PointMicrometers) -> (turn: i128)
    requires
        point_in_range(a),
        point_in_range(b),
        point_in_range(c),
    ensures
        turn == spec_orientation(a, b, c),
        -2_000_000_000_000_000_000 <= turn <= 2_000_000_000_000_000_000,
{
    let bx = b.x() as i128 - a.x() as i128;
    let by = b.y() as i128 - a.y() as i128;
    let cx = c.x() as i128 - a.x() as i128;
    let cy = c.y() as i128 - a.y() as i128;
    proof {
        lemma_difference_product(bx as int, cy as int);
        lemma_difference_product(by as int, cx as int);
    }
    bx * cy - by * cx
}

/// The sign of an integer.
pub open spec fn sign(value: int) -> int {
    if value > 0 {
        1
    } else if value < 0 {
        -1
    } else {
        0
    }
}

/// `point` is collinear with the segment and inside its bounding box.
pub open spec fn spec_point_on_segment(
    point: PointMicrometers,
    start: PointMicrometers,
    end: PointMicrometers,
) -> bool {
    &&& spec_orientation(start, end, point) == 0
    &&& (if start.spec_x() <= end.spec_x() {
        start.spec_x()
    } else {
        end.spec_x()
    }) <= point.spec_x() <= (if start.spec_x() <= end.spec_x() {
        end.spec_x()
    } else {
        start.spec_x()
    })
    &&& (if start.spec_y() <= end.spec_y() {
        start.spec_y()
    } else {
        end.spec_y()
    }) <= point.spec_y() <= (if start.spec_y() <= end.spec_y() {
        end.spec_y()
    } else {
        start.spec_y()
    })
}

/// Returns whether `point` lies on the closed segment from `start` to `end`.
pub fn point_on_segment(point: PointMicrometers, start: PointMicrometers, end: PointMicrometers) -> (on: bool)
    requires
        point_in_range(point),
        point_in_range(start),
        point_in_range(end),
    ensures
        on == spec_point_on_segment(point, start, end),
{
    let low_x = if start.x() <= end.x() {
        start.x()
    } else {
        end.x()
    };
    let high_x = if start.x() <= end.x() {
        end.x()
    } else {
        start.x()
    };
    let low_y = if start.y() <= end.y() {
        start.y()
    } else {
        end.y()
    };
    let high_y = if start.y() <= end.y() {
        end.y()
    } else {
        start.y()
    };
    orientation(start, end, point) == 0 && point.x() >= low_x && point.x() <= high_x && point.y()
        >= low_y && point.y() <= high_y
}

/// The closed segments `a`–`b` and `c`–`d` share at least one point.
pub open spec fn spec_segments_intersect(
    a: PointMicrometers,
    b: PointMicrometers,
    c: PointMicrometers,
    d: PointMicrometers,
) -> bool {
    let ab_c = spec_orientation(a, b, c);
    let ab_d = spec_orientation(a, b, d);
    let cd_a = spec_orientation(c, d, a);
    let cd_b = spec_orientation(c, d, b);
    ||| (ab_c == 0 && spec_point_on_segment(c, a, b))
    ||| (ab_d == 0 && spec_point_on_segment(d, a, b))
    ||| (cd_a == 0 && spec_point_on_segment(a, c, d))
    ||| (cd_b == 0 && spec_point_on_segment(b, c, d))
    ||| (sign(ab_c) != sign(ab_d) && sign(cd_a) != sign(cd_b))
}

fn signum(value: i128) -> (s: i8)
    ensures
        s == sign(value as int),
{
    if value > 0 {
        1
    } else if value < 0 {
        -1
    } else {
        0
    }
}

/// Returns whether two closed segments touch or cross.
pub fn segments_intersect(
    a: PointMicrometers,
    b: PointMicrometers,
    c: PointMicrometers,
    d: PointMicrometers,
) -> (touch: bool)
    requires
        point_in_range(a),
        point_in_range(b),
        point_in_range(c),
        point_in_range(d),
    ensures
        touch == spec_segments_intersect(a, b, c, d),
{
    let ab_c = orientation(a, b, c);
    let ab_d = orientation(a, b, d);
    let cd_a = orientation(c, d, a);
    let cd_b = orientation(c, d, b);
    (ab_c == 0 && point_on_segment(c, a, b)) || (ab_d == 0 && point_on_segment(d, a, b)) || (cd_a
        == 0 && point_on_segment(a, c, d)) || (cd_b == 0 && point_on_segment(b, c, d)) || (signum(
        ab_c,
    ) != signum(ab_d) && signum(cd_a) != signum(cd_b))
}

/// The index of the vertex after `i` on a closed ring of `n` vertices.
pub open spec fn next_index(i: int, n: int) -> int {
    if i + 1 == n {
        0
    } else {
        i + 1
    }
}

/// Edge `i` of a closed ring touches edge `j` of another.
pub open spec fn ring_edges_touch(first: Seq<PointMicrometers>, i: int, second: Seq<PointMicrometers>, j: int) -> bool {
    spec_segments_intersect(
        first[i],
        first[next_index(i, first.len() as int)],
        second[j],
        second[next_index(j, second.len() as int)],
    )
}

/// Some edge of one ring touches some edge of the other.
pub open spec fn spec_rings_intersect(first: Seq<PointMicrometers>, second: Seq<PointMicrometers>) -> bool {
    exists|i: int, j: int|
        0 <= i < first.len() && 0 <= j < second.len() && #[trigger] ring_edges_touch(first, i, second, j)
}

/// Returns whether any edge of one closed ring touches any edge of another.
pub fn rings_intersect(first: &[PointMicrometers], second: &[PointMicrometers]) -> (touch: bool)
    requires
        points_in_range(first@),
        points_in_range(second@),
    ensures
        touch == spec_rings_intersect(first@, second@),
{
    let n = first.len();
    let m = second.len();
    let mut i: usize = 0;
    while i < n
        invariant
            n == first@.len(),
            m == second@.len(),
            points_in_range(first@),
            points_in_range(second@),
            0 <= i <= n,
            forall|a: int, b: int|
                0 <= a < i && 0 <= b < m ==> !#[trigger] ring_edges_touch(first@, a, second@, b),
        decreases n - i,
    {
        let a = first[i];
        let b = first[if i + 1 == n {
            0
        } else {
            i + 1
        }];
        let mut j: usize = 0;
        while j < m
            invariant
                n == first@.len(),
                m == second@.len(),
                points_in_range(first@),
                points_in_range(second@),
                0 <= i < n,
                0 <= j <= m,
                a == first@[i as int],
                b == first@[next_index(i as int, n as int)],
                forall|bb: int| 0 <= bb < j ==> !#[trigger] ring_edges_touch(first@, i as int, second@, bb),
            decreases m - j,
        {
            let c = second[j];
            let d = second[if j + 1 == m {
                0
            } else {
                j + 1
            }];
            if segments_intersect(a, b, c, d) {
                proof {
                    assert(ring_edges_touch(first@, i as int, second@, j as int));
                }
                return true;
            }
            j += 1;
        }
        i += 1;
    }
    false
}

/// Two distinct, non-adjacent edges of a closed ring touch.
pub open spec fn self_touch_at(ring: Seq<PointMicrometers>, first: int, second: int) -> bool {
    let n = ring.len() as int;
    let first_next = next_index(first, n);
    let second_next = next_index(second, n);
    &&& first != second
    &&& first != second_next
    &&& first_next != second
    &&& first_next != second_next
    &&& spec_segments_intersect(ring[first], ring[first_next], ring[second], ring[second_next])
}

/// Some two non-adjacent edges of the ring touch.
pub open spec fn spec_ring_self_intersects(ring: Seq<PointMicrometers>) -> bool {
    exists|first: int, second: int|
        0 <= first < second < ring.len() && #[trigger] self_touch_at(ring, first, second)
}

/// Returns whether two non-adjacent edges of a closed ring touch.
pub fn ring_self_intersects(ring: &[PointMicrometers]) -> (touch: bool)
    requires
        points_in_range(ring@),
    ensures
        touch == spec_ring_self_intersects(ring@),
{
    let n = ring.len();
    let mut first: usize = 0;
    while first < n
        invariant
            n == ring@.len(),
            points_in_range(ring@),
            0 <= first <= n,
            forall|a: int, b: int| 0 <= a < first && a < b < n ==> !#[trigger] self_touch_at(ring@, a, b),
        decreases n - first,
    {
        let first_next = if first + 1 == n {
            0
        } else {
            first + 1
        };
        let mut second: usize = first + 1;
        while second < n
            invariant
                n == ring@.len(),
                points_in_range(ring@),
                0 <= first < n,
                first + 1 <= second <= n,
                first_next == next_index(first as int, n as int),
                forall|b: int| first < b < second ==> !#[trigger] self_touch_at(ring@, first as int, b),
            decreases n - second,
        {
            let second_next = if second + 1 == n {
                0
            } else {
                second + 1
            };
            if first != second && first != second_next && first_next != second && first_next
                != second_next {
                if segments_intersect(ring[first], ring[first_next], ring[second], ring[second_next]) {
                    proof {
                        assert(self_touch_at(ring@, first as int, second as int));
                    }
                    return true;
                }
            }
            second += 1;
        }
        first += 1;
    }
    false
}

/// Where a point lies relative to a closed ring.
#[derive(Debug, Clone, Copy, PartialEq, Eq, Structural)]
pub enum PointLocation {
    /// Strictly outside.
    Outside,
    /// Strictly inside.
    Inside,
    /// On one of the ring's edges.
    Boundary,
}

/// Edge `i` of the ring crosses the horizontal ray from `point` to the right.
pub open spec fn ray_crosses(point: PointMicrometers, ring: Seq<PointMicrometers>, i: int) -> bool {
    let start = ring[i];
    let end = ring[next_index(i, ring.len() as int)];
    let cross = spec_orientation(start, end, point);
    &&& (start.spec_y() > point.spec_y()) != (end.spec_y() > point.spec_y())
    &&& ((end.spec_y() > start.spec_y() && cross > 0) || (end.spec_y() < start.spec_y() && cross < 0))
}

/// Whether an odd number of the first `count` edges cross the ray.
pub open spec fn crossing_parity(point: PointMicrometers, ring: Seq<PointMicrometers>, count: int) -> bool
    decreases count,
{
    if count <= 0 {
        false
    } else {
        crossing_parity(point, ring, count - 1) != ray_crosses(point, ring, count - 1)
    }
}

/// The location of a point relative to a ring, by the even-odd rule, with
/// every edge point counted as boundary.
pub open spec fn spec_point_location(point: PointMicrometers, ring: Seq<PointMicrometers>) -> PointLocation {
    if exists|i: int|
        0 <= i < ring.len() && #[trigger] spec_point_on_segment(
            point,
            ring[i],
            ring[next_index(i, ring.len() as int)],
        ) {
        PointLocation::Boundary
    } else if crossing_parity(point, ring, ring.len() as int) {
        PointLocation::Inside
    } else {
        PointLocation::Outside
    }
}

/// Locates a point relative to a closed ring.
pub fn point_location(point: PointMicrometers, ring: &[PointMicrometers]) -> (location: PointLocation)
    requires
        point_in_range(point),
        points_in_range(ring@),
    ensures
        location == spec_point_location(point, ring@),
{
    let n = ring.len();
    let mut inside = false;
    let mut i: usize = 0;
    while i < n
        invariant
            n == ring@.len(),
            point_in_range(point),
            points_in_range(ring@),
            0 <= i <= n,
            inside == crossing_parity(point, ring@, i as int),
            forall|k: int|
                0 <= k < i ==> !#[trigger] spec_point_on_segment(point, ring@[k], ring@[next_index(k, n as int)]),
        decreases n - i,
    {
        let start = ring[i];
        let end = ring[if i + 1 == n {
            0
        } else {
            i + 1
        }];
        proof {
            assert(end == ring@[next_index(i as int, n as int)]);
        }
        if point_on_segment(point, start, end) {
            proof {
                assert(spec_point_on_segment(point, ring@[i as int], ring@[next_index(i as int, n as int)]));
            }
            return PointLocation::Boundary;
        }
        if (start.y() > point.y()) != (end.y() > point.y()) {
            let cross = orientation(start, end, point);
            if (end.y() > start.y() && cross > 0) || (end.y() < start.y() && cross < 0) {
                inside = !inside;
            }
        }
        i += 1;
    }
    proof {
        assert(!exists|k: int|
            0 <= k < ring@.len() && #[trigger] spec_point_on_segment(
                point,
                ring@[k],
                ring@[next_index(k, ring@.len() as int)],
            ));
    }
    if inside {
        PointLocation::Inside
    } else {
        PointLocation::Outside
    }
}

/// The squared Euclidean distance between two points.
pub open spec fn spec_squared_distance(first: PointMicrometers, second: PointMicrometers) -> int {
    let dx = second.spec_x() - first.spec_x();
    let dy = second.spec_y() - first.spec_y();
    dx * dx + dy * dy
}

/// Computes the squared distance between two in-range points.
pub fn squared_distance(first: PointMicrometers, second: PointMicrometers) -> (distance: i128)
    requires
        point_in_range(first),
        point_in_range(second),
    ensures
        distance == spec_squared_distance(first, second),
        0 <= distance <= 2_000_000_000_000_000_000,
{
    let dx = second.x() as i128 - first.x() as i128;
    let dy = second.y() as i128 - first.y() as i128;
    proof {
        assert(0 <= dx * dx <= 1_000_000_000_000_000_000) by (nonlinear_arith)
            requires
                -1_000_000_000 <= dx <= 1_000_000_000,
        ;
        assert(0 <= dy * dy <= 1_000_000_000_000_000_000) by (nonlinear_arith)
            requires
                -1_000_000_000 <= dy <= 1_000_000_000,
        ;
    }
    dx * dx + dy * dy
}

/// The squared cross product of the segment direction and the offset of
/// `point` from its start: the squared distance from the line through the
/// segment, scaled by the squared segment length.
pub open spec fn spec_perpendicular_distance_key(
    point: PointMicrometers,
    start: PointMicrometers,
    end: PointMicrometers,
) -> int {
    spec_orientation(start, end, point) * spec_orientation(start, end, point)
}

/// Computes the scaled squared distance from `point` to the line through a segment.
pub fn perpendicular_distance_key(
    point: PointMicrometers,
    start: PointMicrometers,
    end: PointMicrometers,
) -> (key: i128)
    requires
        point_in_range(point),
        point_in_range(start),
        point_in_range(end),
    ensures
        key == spec_perpendicular_distance_key(point, start, end),
        0 <= key <= 4_000_000_000_000_000_000_000_000_000_000_000_000,
{
    let cross = orientation(start, end, point);
    proof {
        assert(0 <= cross * cross <= 4_000_000_000_000_000_000_000_000_000_000_000_000) by (nonlinear_arith)
            requires
                -2_000_000_000_000_000_000 <= cross <= 2_000_000_000_000_000_000,
        ;
    }
    cross * cross
}

} // verus!
