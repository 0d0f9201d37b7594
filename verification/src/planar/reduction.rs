//! Why reducing a closed contour to its corner vertices keeps its signed
//! area: dropping a repeated vertex adds nothing, and a run of
//! forward-collinear vertices lies on one line, so the run can be replaced by
//! a single segment.

use vstd::prelude::*;

use crate::planar::tracing::{collinear_at, spec_forward_collinear};
use crate::planar::types::{rotate_left, spec_cross, spec_edge_cross_sum, spec_signed_double_area, PointMicrometers};

verus! {

/// Twice the signed area swept by the open path through a sequence of points.
pub open spec fn path_cross_sum(points: Seq<PointMicrometers>) -> int
    decreases points.len(),
{
    if points.len() <= 1 {
        0
    } else {
        path_cross_sum(points.drop_last()) + spec_cross(points[points.len() - 2], points[points.len() - 1])
    }
}

/// Neighbouring vertices of a closed ring differ, the last from the first too.
pub open spec fn cyclic_distinct(ring: Seq<PointMicrometers>) -> bool {
    forall|i: int| 0 <= i < ring.len() ==> #[trigger] ring[i] != ring[(i + 1) % (ring.len() as int)]
}

/// The vertices at positions `lo..hi` of a ring that are not forward-collinear
/// with their neighbours, in order.
pub open spec fn kept_range(ring: Seq<PointMicrometers>, lo: int, hi: int) -> Seq<PointMicrometers>
    decreases hi - lo,
{
    if hi <= lo {
        Seq::empty()
    } else if collinear_at(ring, hi - 1) {
        kept_range(ring, lo, hi - 1)
    } else {
        kept_range(ring, lo, hi - 1).push(ring[hi - 1])
    }
}

/// The vertices among the first `count` of a ring that are not
/// forward-collinear with their neighbours, in order.
pub open spec fn kept_prefix(ring: Seq<PointMicrometers>, count: int) -> Seq<PointMicrometers> {
    kept_range(ring, 0, count)
}

/// A point's cross product with itself vanishes.
pub proof fn lemma_cross_self(p: PointMicrometers)
    ensures
        spec_cross(p, p) == 0,
{
    let x = p.spec_x() as int;
    let y = p.spec_y() as int;
    assert(x * y - y * x == 0) by (nonlinear_arith);
}

/// Replacing the two segments through `b` by one segment changes the swept
/// area by the cross product of the two segment vectors.
pub proof fn lemma_cross_chain(a: PointMicrometers, b: PointMicrometers, c: PointMicrometers)
    ensures
        spec_cross(a, b) + spec_cross(b, c) - spec_cross(a, c) == (b.spec_x() - a.spec_x()) * (c.spec_y()
            - b.spec_y()) - (b.spec_y() - a.spec_y()) * (c.spec_x() - b.spec_x()),
{
    let ax = a.spec_x() as int;
    let ay = a.spec_y() as int;
    let bx = b.spec_x() as int;
    let by = b.spec_y() as int;
    let cx = c.spec_x() as int;
    let cy = c.spec_y() as int;
    assert((bx - ax) * (cy - by) == bx * cy - bx * by - ax * cy + ax * by) by (nonlinear_arith);
    assert((by - ay) * (cx - bx) == by * cx - by * bx - ay * cx + ay * bx) by (nonlinear_arith);
    assert(bx * by == by * bx) by (nonlinear_arith);
}

/// Two vectors parallel to the same nonzero vector are parallel.
pub proof fn lemma_parallel_pair(dx: int, dy: int, ax: int, ay: int, bx: int, by: int)
    requires
        dx != 0 || dy != 0,
        dx * ay - dy * ax == 0,
        dx * by - dy * bx == 0,
    ensures
        ax * by - ay * bx == 0,
{
    assert(dx * (ax * by - ay * bx) == ax * (dx * by - dy * bx) - bx * (dx * ay - dy * ax)) by (nonlinear_arith);
    assert(dy * (ax * by - ay * bx) == ay * (dx * by - dy * bx) - by * (dx * ay - dy * ax)) by (nonlinear_arith);
    if dx != 0 {
        assert(ax * by - ay * bx == 0) by (nonlinear_arith)
            requires
                dx != 0,
                dx * (ax * by - ay * bx) == 0,
        ;
    } else {
        assert(ax * by - ay * bx == 0) by (nonlinear_arith)
            requires
                dy != 0,
                dy * (ax * by - ay * bx) == 0,
        ;
    }
}

/// A nonzero vector that continues a vector pointing along `d`, without
/// turning or reversing, also points along `d`.
pub proof fn lemma_same_direction(dx: int, dy: int, ux: int, uy: int, wx: int, wy: int)
    requires
        dx * uy - dy * ux == 0,
        dx * ux + dy * uy > 0,
        ux * wy - uy * wx == 0,
        ux * wx + uy * wy >= 0,
        wx != 0 || wy != 0,
    ensures
        dx * wy - dy * wx == 0,
        dx * wx + dy * wy > 0,
{
    let along = dx * ux + dy * uy;
    let ahead = dx * wx + dy * wy;
    let turn = ux * wx + uy * wy;
    assert(ux != 0 || uy != 0) by {
        if ux == 0 && uy == 0 {
            assert(dx * ux + dy * uy == 0) by (nonlinear_arith)
                requires
                    ux == 0,
                    uy == 0,
            ;
        }
    }
    assert(ux * ahead == wx * along) by (nonlinear_arith)
        requires
            dx * uy == dy * ux,
            ux * wy == uy * wx,
            along == dx * ux + dy * uy,
            ahead == dx * wx + dy * wy,
    {
        assert(dy * (ux * wy) == dy * (uy * wx));
    }
    assert(uy * ahead == wy * along) by (nonlinear_arith)
        requires
            dx * uy == dy * ux,
            ux * wy == uy * wx,
            along == dx * ux + dy * uy,
            ahead == dx * wx + dy * wy,
    {
        assert(dx * (ux * wy) == dx * (uy * wx));
    }
    assert(turn * ahead == (wx * wx + wy * wy) * along) by (nonlinear_arith)
        requires
            ux * ahead == wx * along,
            uy * ahead == wy * along,
            turn == ux * wx + uy * wy,
    {
        assert(turn * ahead == wx * (ux * ahead) + wy * (uy * ahead));
    }
    assert(wx * wx + wy * wy > 0) by (nonlinear_arith)
        requires
            wx != 0 || wy != 0,
    ;
    assert((wx * wx + wy * wy) * along > 0) by (nonlinear_arith)
        requires
            wx * wx + wy * wy > 0,
            along > 0,
    ;
    assert(ahead > 0) by (nonlinear_arith)
        requires
            turn >= 0,
            turn * ahead > 0,
    ;
    lemma_parallel_pair(ux, uy, dx, dy, wx, wy);
}

/// The closed-ring sum of the first `k - 1` sides is the open path sum of
/// the first `k` vertices.
proof fn lemma_edge_sum_prefix(points: Seq<PointMicrometers>, k: int)
    requires
        1 <= k <= points.len(),
    ensures
        spec_edge_cross_sum(points, k - 1) == path_cross_sum(points.take(k)),
    decreases k,
{
    if k > 1 {
        lemma_edge_sum_prefix(points, k - 1);
        vstd::arithmetic::div_mod::lemma_small_mod((k - 1) as nat, points.len() as nat);
        assert(points.take(k).drop_last() =~= points.take(k - 1));
    } else {
        assert(points.take(1).len() == 1);
    }
}

/// The signed area of a ring is its open path sum closed by the last side.
pub proof fn lemma_area_from_path(points: Seq<PointMicrometers>)
    requires
        points.len() >= 1,
    ensures
        spec_signed_double_area(points) == path_cross_sum(points) + spec_cross(
            points[points.len() - 1],
            points[0],
        ),
{
    let n = points.len() as int;
    lemma_edge_sum_prefix(points, n);
    assert(points.take(n) =~= points);
    vstd::arithmetic::div_mod::lemma_mod_self_0(n);
}

/// The step from one vertex of a ring to the next, as a vector.
pub open spec fn step_x(ring: Seq<PointMicrometers>, from: int, to: int) -> int {
    ring[to].spec_x() - ring[from].spec_x()
}

/// The step from one vertex of a ring to the next, as a vector.
pub open spec fn step_y(ring: Seq<PointMicrometers>, from: int, to: int) -> int {
    ring[to].spec_y() - ring[from].spec_y()
}

/// The position of the last kept vertex among the first `count`, assuming the
/// first vertex is kept.
pub open spec fn last_kept(ring: Seq<PointMicrometers>, count: int) -> int
    decreases count,
{
    if count <= 1 {
        0
    } else if !collinear_at(ring, count - 1) {
        count - 1
    } else {
        last_kept(ring, count - 1)
    }
}

/// What holds after scanning the first `p` vertices of a ring whose first
/// vertex is kept: the kept vertices so far start with the first vertex, end
/// at the last kept one, and differ from their successors; the vertices
/// from the last kept one to vertex `p` lie on one ray, each step pointing
/// the same way; and the path through the kept vertices followed by the
/// segment to vertex `p` sweeps the same area as the ring's first `p` sides.
pub open spec fn scan_state(ring: Seq<PointMicrometers>, p: int) -> bool {
    let n = ring.len() as int;
    let kept = kept_prefix(ring, p);
    let last = last_kept(ring, p);
    let dx = step_x(ring, last, (last + 1) % n);
    let dy = step_y(ring, last, (last + 1) % n);
    let here = p % n;
    &&& kept.len() >= 1
    &&& kept[0] == ring[0]
    &&& 0 <= last < p
    &&& kept[kept.len() - 1] == ring[last]
    &&& forall|j: int| 0 <= j < kept.len() - 1 ==> #[trigger] kept[j] != kept[j + 1]
    &&& dx * step_y(ring, last, here) - dy * step_x(ring, last, here) == 0
    &&& dx * step_x(ring, last, here) + dy * step_y(ring, last, here) > 0
    &&& dx * step_y(ring, p - 1, here) - dy * step_x(ring, p - 1, here) == 0
    &&& dx * step_x(ring, p - 1, here) + dy * step_y(ring, p - 1, here) > 0
    &&& path_cross_sum(kept) + spec_cross(ring[last], ring[here]) == spec_edge_cross_sum(ring, p)
}

/// Scanning a ring whose first vertex is kept maintains [`scan_state`].
proof fn lemma_scan(ring: Seq<PointMicrometers>, p: int)
    requires
        ring.len() >= 3,
        cyclic_distinct(ring),
        !collinear_at(ring, 0),
        1 <= p <= ring.len(),
    ensures
        scan_state(ring, p),
    decreases p,
{
    let n = ring.len() as int;
    vstd::arithmetic::div_mod::lemma_small_mod(1, n as nat);
    if p == 1 {
        assert(kept_range(ring, 0, 0) =~= Seq::<PointMicrometers>::empty());
        assert(kept_prefix(ring, 1) =~= seq![ring[0]]);
        assert(ring[0] != ring[(1int) % n]);
        let dx = step_x(ring, 0, 1);
        let dy = step_y(ring, 0, 1);
        assert(dx != 0 || dy != 0) by {
            if dx == 0 && dy == 0 {
                PointMicrometers::lemma_coordinates_determine(ring[0], ring[1]);
            }
        }
        assert(dx * dy - dy * dx == 0) by (nonlinear_arith);
        assert(dx * dx + dy * dy > 0) by (nonlinear_arith)
            requires
                dx != 0 || dy != 0,
        ;
        assert(spec_edge_cross_sum(ring, 1) == spec_edge_cross_sum(ring, 0) + spec_cross(ring[0], ring[(1int) % n]));
    } else {
        lemma_scan(ring, p - 1);
        let q = p - 1;
        let previous_kept = kept_prefix(ring, q);
        let last = last_kept(ring, q);
        let dx = step_x(ring, last, (last + 1) % n);
        let dy = step_y(ring, last, (last + 1) % n);
        let here = p % n;
        vstd::arithmetic::div_mod::lemma_small_mod(q as nat, n as nat);
        assert(q % n == q);
        assert((q + n - 1) % n == q - 1) by {
            vstd::arithmetic::div_mod::lemma_mod_sub_multiples_vanish(q + n - 1, n);
            vstd::arithmetic::div_mod::lemma_small_mod((q - 1) as nat, n as nat);
        }
        assert((q + 1) % n == here);
        assert(0 <= here < n) by {
            vstd::arithmetic::div_mod::lemma_mod_bound(p, n);
        }
        assert(ring[q] != ring[here]);
        let wx = step_x(ring, q, here);
        let wy = step_y(ring, q, here);
        assert(wx != 0 || wy != 0) by {
            if wx == 0 && wy == 0 {
                PointMicrometers::lemma_coordinates_determine(ring[q], ring[here]);
            }
        }
        assert(spec_edge_cross_sum(ring, p) == spec_edge_cross_sum(ring, q) + spec_cross(ring[q], ring[here]));
        if collinear_at(ring, q) {
            assert(kept_prefix(ring, p) == previous_kept);
            assert(last_kept(ring, p) == last);
            let ux = step_x(ring, q - 1, q);
            let uy = step_y(ring, q - 1, q);
            assert(spec_forward_collinear(ring[q - 1], ring[q], ring[here]));
            lemma_same_direction(dx, dy, ux, uy, wx, wy);
            let ax = step_x(ring, last, q);
            let ay = step_y(ring, last, q);
            lemma_parallel_pair(dx, dy, ax, ay, wx, wy);
            lemma_cross_chain(ring[last], ring[q], ring[here]);
            let bx = step_x(ring, last, here);
            let by = step_y(ring, last, here);
            assert(dx * by - dy * bx == (dx * ay - dy * ax) + (dx * wy - dy * wx)) by (nonlinear_arith)
                requires
                    bx == ax + wx,
                    by == ay + wy,
            ;
            assert(dx * bx + dy * by == (dx * ax + dy * ay) + (dx * wx + dy * wy)) by (nonlinear_arith)
                requires
                    bx == ax + wx,
                    by == ay + wy,
            ;
        } else {
            assert(kept_prefix(ring, p) == previous_kept.push(ring[q]));
            assert(last_kept(ring, p) == q);
            let kept = kept_prefix(ring, p);
            assert(kept.drop_last() =~= previous_kept);
            assert(path_cross_sum(kept) == path_cross_sum(previous_kept) + spec_cross(ring[last], ring[q]));
            assert(ring[last] != ring[q]) by {
                let ax = step_x(ring, last, q);
                let ay = step_y(ring, last, q);
                assert(dx * ax + dy * ay > 0);
                if ring[last] == ring[q] {
                    assert(dx * ax + dy * ay == 0) by (nonlinear_arith)
                        requires
                            ax == 0,
                            ay == 0,
                    ;
                }
            }
            assert forall|j: int| 0 <= j < kept.len() - 1 implies #[trigger] kept[j] != kept[j + 1] by {
                if j < kept.len() - 2 {
                    assert(kept[j] == previous_kept[j]);
                    assert(kept[j + 1] == previous_kept[j + 1]);
                }
            }
            assert(wx * wy - wy * wx == 0) by (nonlinear_arith);
            assert(wx * wx + wy * wy > 0) by (nonlinear_arith)
                requires
                    wx != 0 || wy != 0,
            ;
        }
    }
}

/// Dropping the forward-collinear vertices of a ring whose first vertex is
/// kept keeps its signed area, and neighbouring kept vertices differ.
proof fn lemma_kept_area_from_start(ring: Seq<PointMicrometers>)
    requires
        ring.len() >= 3,
        cyclic_distinct(ring),
        !collinear_at(ring, 0),
    ensures
        kept_prefix(ring, ring.len() as int).len() >= 2,
        spec_signed_double_area(kept_prefix(ring, ring.len() as int)) == spec_signed_double_area(ring),
        cyclic_distinct(kept_prefix(ring, ring.len() as int)),
{
    let n = ring.len() as int;
    lemma_scan(ring, n);
    let kept = kept_prefix(ring, n);
    let last = last_kept(ring, n);
    vstd::arithmetic::div_mod::lemma_mod_self_0(n);
    assert(ring[n % n] == ring[0]);
    let dx = step_x(ring, last, (last + 1) % n);
    let dy = step_y(ring, last, (last + 1) % n);
    assert(ring[last] != ring[0]) by {
        let ax = step_x(ring, last, 0);
        let ay = step_y(ring, last, 0);
        assert(dx * ax + dy * ay > 0);
        if ring[last] == ring[0] {
            assert(dx * ax + dy * ay == 0) by (nonlinear_arith)
                requires
                    ax == 0,
                    ay == 0,
            ;
        }
    }
    assert(kept.len() >= 2);
    lemma_area_from_path(kept);
    lemma_area_from_path(ring);
    assert(spec_edge_cross_sum(ring, n) == spec_signed_double_area(ring));
    let m = kept.len() as int;
    assert forall|i: int| 0 <= i < m implies #[trigger] kept[i] != kept[(i + 1) % m] by {
        if i < m - 1 {
            vstd::arithmetic::div_mod::lemma_small_mod((i + 1) as nat, m as nat);
        } else {
            vstd::arithmetic::div_mod::lemma_mod_self_0(m);
        }
    }
}

/// Positions before `lo` that are all forward-collinear add nothing.
proof fn lemma_kept_skip(ring: Seq<PointMicrometers>, lo: int, hi: int)
    requires
        0 <= lo <= hi,
        forall|i: int| 0 <= i < lo ==> #[trigger] collinear_at(ring, i),
    ensures
        kept_range(ring, 0, hi) == kept_range(ring, lo, hi),
    decreases hi,
{
    if hi > lo {
        lemma_kept_skip(ring, lo, hi - 1);
    } else {
        lemma_kept_none(ring, hi);
    }
}

/// Positions that are all forward-collinear keep nothing.
proof fn lemma_kept_none(ring: Seq<PointMicrometers>, hi: int)
    requires
        forall|i: int| 0 <= i < hi ==> #[trigger] collinear_at(ring, i),
    ensures
        kept_range(ring, 0, hi) == Seq::<PointMicrometers>::empty(),
    decreases hi,
{
    if hi > 0 {
        lemma_kept_none(ring, hi - 1);
    }
}

/// A rotated ring has the same vertex neighbourhoods.
proof fn lemma_rotation_neighbours(ring: Seq<PointMicrometers>, shift: int, j: int)
    requires
        0 <= shift < ring.len(),
        0 <= j < ring.len(),
    ensures
        rotate_left(ring, shift)[j] == ring[(j + shift) % (ring.len() as int)],
        collinear_at(rotate_left(ring, shift), j) == collinear_at(ring, (j + shift) % (ring.len() as int)),
        rotate_left(ring, shift)[(j + 1) % (ring.len() as int)] == ring[((j + shift) % (ring.len() as int) + 1)
            % (ring.len() as int)],
{
    let n = ring.len() as int;
    let r = rotate_left(ring, shift);
    crate::planar::tracing::lemma_rotation_index(n, shift, j);
    assert(0 <= (j + n - 1) % n < n && 0 <= (j + 1) % n < n) by {
        vstd::arithmetic::div_mod::lemma_mod_bound(j + n - 1, n);
        vstd::arithmetic::div_mod::lemma_mod_bound(j + 1, n);
    }
    crate::planar::tracing::lemma_rotation_index(n, shift, (j + n - 1) % n);
    crate::planar::tracing::lemma_rotation_index(n, shift, (j + 1) % n);
    assert(r[j] == ring[(j + shift) % n]);
    assert(r[(j + n - 1) % n] == ring[((j + n - 1) % n + shift) % n]);
    assert(r[(j + 1) % n] == ring[((j + 1) % n + shift) % n]);
}

/// The kept vertices of a ring rotated to start at its first kept vertex
/// are the kept vertices of the ring.
proof fn lemma_rotated_kept(ring: Seq<PointMicrometers>, first: int, p: int)
    requires
        0 <= first < ring.len(),
        forall|i: int| 0 <= i < first ==> #[trigger] collinear_at(ring, i),
        0 <= p <= ring.len(),
    ensures
        p <= ring.len() - first ==> kept_prefix(rotate_left(ring, first), p) == kept_range(ring, first, first + p),
        p > ring.len() - first ==> kept_prefix(rotate_left(ring, first), p) == kept_range(
            ring,
            first,
            ring.len() as int,
        ),
    decreases p,
{
    let n = ring.len() as int;
    if p > 0 {
        lemma_rotated_kept(ring, first, p - 1);
        lemma_rotation_neighbours(ring, first, p - 1);
        if p <= n - first {
            vstd::arithmetic::div_mod::lemma_small_mod((p - 1 + first) as nat, n as nat);
        } else {
            vstd::arithmetic::div_mod::lemma_mod_sub_multiples_vanish(p - 1 + first, n);
            vstd::arithmetic::div_mod::lemma_small_mod((p - 1 + first - n) as nat, n as nat);
            assert(collinear_at(ring, p - 1 + first - n));
        }
    }
}

/// Dropping the forward-collinear vertices of a ring whose neighbouring
/// vertices differ keeps its signed area, and neighbouring kept vertices
/// differ, as long as some vertex is kept.
pub proof fn lemma_kept_area(ring: Seq<PointMicrometers>)
    requires
        ring.len() >= 3,
        cyclic_distinct(ring),
        kept_prefix(ring, ring.len() as int).len() >= 1,
    ensures
        spec_signed_double_area(kept_prefix(ring, ring.len() as int)) == spec_signed_double_area(ring),
        cyclic_distinct(kept_prefix(ring, ring.len() as int)),
{
    let n = ring.len() as int;
    let first = choose|f: int| 0 <= f < n && !collinear_at(ring, f) && forall|i: int| 0 <= i < f ==> #[trigger] collinear_at(ring, i);
    assert(exists|f: int| 0 <= f < n && !collinear_at(ring, f) && forall|i: int| 0 <= i < f ==> #[trigger] collinear_at(ring, i)) by {
        lemma_first_kept_exists(ring, n);
    }
    let rotated = rotate_left(ring, first);
    crate::planar::types::lemma_rotate_area(ring, first);
    lemma_rotation_neighbours(ring, first, 0);
    vstd::arithmetic::div_mod::lemma_small_mod(first as nat, n as nat);
    assert forall|j: int| 0 <= j < n implies #[trigger] rotated[j] != rotated[(j + 1) % n] by {
        lemma_rotation_neighbours(ring, first, j);
        let k = (j + first) % n;
        assert(0 <= k < n) by {
            vstd::arithmetic::div_mod::lemma_mod_bound(j + first, n);
        }
        assert(ring[k] != ring[(k + 1) % n]);
    }
    lemma_kept_area_from_start(rotated);
    lemma_rotated_kept(ring, first, n);
    if first == 0 {
        assert(kept_prefix(rotated, n) == kept_range(ring, 0, n));
    } else {
        assert(kept_prefix(rotated, n) == kept_range(ring, first, n));
    }
    lemma_kept_skip(ring, first, n);
}

/// If some vertex among the first `count` is kept, a first kept vertex exists.
proof fn lemma_first_kept_exists(ring: Seq<PointMicrometers>, count: int)
    requires
        0 <= count <= ring.len(),
        kept_range(ring, 0, count).len() >= 1,
    ensures
        exists|f: int| 0 <= f < count && !collinear_at(ring, f) && forall|i: int| 0 <= i < f ==> #[trigger] collinear_at(ring, i),
    decreases count,
{
    if count > 0 {
        if kept_range(ring, 0, count - 1).len() >= 1 {
            lemma_first_kept_exists(ring, count - 1);
        } else {
            assert(!collinear_at(ring, count - 1));
            assert forall|i: int| 0 <= i < count - 1 implies #[trigger] collinear_at(ring, i) by {
                lemma_none_kept(ring, count - 1, i);
            }
        }
    }
}

/// When no vertex among the first `count` is kept, each is collinear.
proof fn lemma_none_kept(ring: Seq<PointMicrometers>, count: int, i: int)
    requires
        0 <= i < count,
        kept_range(ring, 0, count).len() == 0,
    ensures
        collinear_at(ring, i),
    decreases count,
{
    if !collinear_at(ring, count - 1) {
        assert(kept_range(ring, 0, count).len() >= 1);
    } else if i < count - 1 {
        lemma_none_kept(ring, count - 1, i);
    }
}


/// `(a . c) |b|^2 = (a . b)(b . c) - (a x b)(b x c)` in the plane.
proof fn lemma_dot_identity(a0: int, a1: int, b0: int, b1: int, c0: int, c1: int)
    ensures
        (a0 * c0 + a1 * c1) * (b0 * b0 + b1 * b1) == (a0 * b0 + a1 * b1) * (b0 * c0 + b1 * c1) - (a0 * b1 - a1 * b0) * (
        b0 * c1 - b1 * c0),
{
    assert((a0 * c0 + a1 * c1) * (b0 * b0 + b1 * b1) == a0 * c0 * (b0 * b0) + a0 * c0 * (b1 * b1) + a1 * c1 * (b0 * b0)
        + a1 * c1 * (b1 * b1)) by (nonlinear_arith);
    assert((a0 * b0 + a1 * b1) * (b0 * c0 + b1 * c1) == a0 * b0 * (b0 * c0) + a0 * b0 * (b1 * c1) + a1 * b1 * (b0 * c0)
        + a1 * b1 * (b1 * c1)) by (nonlinear_arith);
    assert((a0 * b1 - a1 * b0) * (b0 * c1 - b1 * c0) == a0 * b1 * (b0 * c1) - a0 * b1 * (b1 * c0) - a1 * b0 * (b0 * c1)
        + a1 * b0 * (b1 * c0)) by (nonlinear_arith);
    assert(a0 * c0 * (b0 * b0) == a0 * b0 * (b0 * c0)) by (nonlinear_arith);
    assert(a1 * c1 * (b1 * b1) == a1 * b1 * (b1 * c1)) by (nonlinear_arith);
    assert(a0 * c0 * (b1 * b1) == a0 * b1 * (b1 * c0)) by (nonlinear_arith);
    assert(a1 * c1 * (b0 * b0) == a1 * b0 * (b0 * c1)) by (nonlinear_arith);
    assert(a0 * b0 * (b1 * c1) == a0 * b1 * (b0 * c1)) by (nonlinear_arith);
    assert(a1 * b1 * (b0 * c0) == a1 * b0 * (b1 * c0)) by (nonlinear_arith);
}


/// `(a x c) |b|^2 = (a x b)(b . c) + (a . b)(b x c)` in the plane.
proof fn lemma_cross_identity(a0: int, a1: int, b0: int, b1: int, c0: int, c1: int)
    ensures
        (a0 * c1 - a1 * c0) * (b0 * b0 + b1 * b1) == (a0 * b1 - a1 * b0) * (b0 * c0 + b1 * c1) + (a0 * b0 + a1 * b1) * (
        b0 * c1 - b1 * c0),
{
    assert((a0 * c1 - a1 * c0) * (b0 * b0 + b1 * b1) == a0 * c1 * (b0 * b0) + a0 * c1 * (b1 * b1) - a1 * c0 * (b0 * b0)
        - a1 * c0 * (b1 * b1)) by (nonlinear_arith);
    assert((a0 * b1 - a1 * b0) * (b0 * c0 + b1 * c1) == a0 * b1 * (b0 * c0) + a0 * b1 * (b1 * c1) - a1 * b0 * (b0 * c0)
        - a1 * b0 * (b1 * c1)) by (nonlinear_arith);
    assert((a0 * b0 + a1 * b1) * (b0 * c1 - b1 * c0) == a0 * b0 * (b0 * c1) - a0 * b0 * (b1 * c0) + a1 * b1 * (b0 * c1)
        - a1 * b1 * (b1 * c0)) by (nonlinear_arith);
    assert(a0 * b1 * (b0 * c0) == a0 * b0 * (b1 * c0)) by (nonlinear_arith);
    assert(a0 * b1 * (b1 * c1) == a0 * c1 * (b1 * b1)) by (nonlinear_arith);
    assert(a1 * b0 * (b0 * c0) == a1 * c0 * (b0 * b0)) by (nonlinear_arith);
    assert(a1 * b0 * (b1 * c1) == a1 * b1 * (b0 * c1)) by (nonlinear_arith);
    assert(a0 * b0 * (b0 * c1) == a0 * c1 * (b0 * b0)) by (nonlinear_arith);
    assert(a1 * b1 * (b1 * c0) == a1 * c0 * (b1 * b1)) by (nonlinear_arith);
}

/// `(b . c)^2 + (b x c)^2 = |b|^2 |c|^2` in the plane.
proof fn lemma_lagrange_identity(b0: int, b1: int, c0: int, c1: int)
    ensures
        (b0 * c0 + b1 * c1) * (b0 * c0 + b1 * c1) + (b0 * c1 - b1 * c0) * (b0 * c1 - b1 * c0) == (b0 * b0 + b1 * b1) * (c0
            * c0 + c1 * c1),
{
    assert((b0 * c0 + b1 * c1) * (b0 * c0 + b1 * c1) == b0 * c0 * (b0 * c0) + 2 * (b0 * c0 * (b1 * c1)) + b1 * c1 * (b1
        * c1)) by (nonlinear_arith);
    assert((b0 * c1 - b1 * c0) * (b0 * c1 - b1 * c0) == b0 * c1 * (b0 * c1) - 2 * (b0 * c1 * (b1 * c0)) + b1 * c0 * (b1
        * c0)) by (nonlinear_arith);
    assert((b0 * b0 + b1 * b1) * (c0 * c0 + c1 * c1) == b0 * b0 * (c0 * c0) + b0 * b0 * (c1 * c1) + b1 * b1 * (c0 * c0)
        + b1 * b1 * (c1 * c1)) by (nonlinear_arith);
    assert(b0 * c0 * (b1 * c1) == b0 * c1 * (b1 * c0)) by (nonlinear_arith);
    assert(b0 * c0 * (b0 * c0) == b0 * b0 * (c0 * c0)) by (nonlinear_arith);
    assert(b1 * c1 * (b1 * c1) == b1 * b1 * (c1 * c1)) by (nonlinear_arith);
    assert(b0 * c1 * (b0 * c1) == b0 * b0 * (c1 * c1)) by (nonlinear_arith);
    assert(b1 * c0 * (b1 * c0) == b1 * b1 * (c0 * c0)) by (nonlinear_arith);
}


/// The step of a closed ring from vertex `i` to the next.
pub open spec fn ring_step(ring: Seq<PointMicrometers>, i: int) -> (int, int) {
    let next = ring[(i + 1) % (ring.len() as int)];
    (next.spec_x() - ring[i].spec_x(), next.spec_y() - ring[i].spec_y())
}

/// Two steps point the same way along one line.
pub open spec fn same_heading(a: (int, int), b: (int, int)) -> bool {
    a.0 * b.1 - a.1 * b.0 == 0 && a.0 * b.0 + a.1 * b.1 > 0
}

/// Heading the same way carries over a forward-collinear step.
proof fn lemma_heading_chain(a: (int, int), b: (int, int), c: (int, int))
    requires
        same_heading(a, b),
        b.0 * c.1 - b.1 * c.0 == 0,
        b.0 * c.0 + b.1 * c.1 >= 0,
        c.0 != 0 || c.1 != 0,
    ensures
        same_heading(a, c),
{
    lemma_dot_identity(a.0, a.1, b.0, b.1, c.0, c.1);
    lemma_cross_identity(a.0, a.1, b.0, b.1, c.0, c.1);
    lemma_lagrange_identity(b.0, b.1, c.0, c.1);
    let bb = b.0 * b.0 + b.1 * b.1;
    let cc = c.0 * c.0 + c.1 * c.1;
    let ab = a.0 * b.0 + a.1 * b.1;
    let bc = b.0 * c.0 + b.1 * c.1;
    let ac = a.0 * c.0 + a.1 * c.1;
    let xac = a.0 * c.1 - a.1 * c.0;
    assert(bb > 0) by (nonlinear_arith)
        requires
            ab > 0,
            ab == a.0 * b.0 + a.1 * b.1,
            bb == b.0 * b.0 + b.1 * b.1,
    ;
    assert(cc > 0) by (nonlinear_arith)
        requires
            c.0 != 0 || c.1 != 0,
            cc == c.0 * c.0 + c.1 * c.1,
    ;
    assert(bb * cc > 0) by (nonlinear_arith)
        requires
            bb > 0,
            cc > 0,
    ;
    assert(bc * bc == bb * cc);
    assert(bc != 0) by (nonlinear_arith)
        requires
            bc * bc == bb * cc,
            bb * cc > 0,
    ;
    assert(ab * bc > 0) by (nonlinear_arith)
        requires
            ab > 0,
            bc > 0,
    ;
    assert(ac * bb == ab * bc);
    assert(ac > 0) by (nonlinear_arith)
        requires
            ac * bb == ab * bc,
            ab * bc > 0,
            bb > 0,
    ;
    assert(xac * bb == 0);
    assert(xac == 0) by (nonlinear_arith)
        requires
            xac * bb == 0,
            bb > 0,
    ;
}

/// The sum of the first `k` steps projected onto `d`.
pub open spec fn projected_sum(ring: Seq<PointMicrometers>, d: (int, int), k: int) -> int
    decreases k,
{
    if k <= 0 {
        0
    } else {
        projected_sum(ring, d, k - 1) + (d.0 * ring_step(ring, k - 1).0 + d.1 * ring_step(ring, k - 1).1)
    }
}

/// Projected onto a fixed heading, the first `k` steps add up to how far the
/// ring moved.
proof fn lemma_projected_steps(ring: Seq<PointMicrometers>, d: (int, int), k: int)
    requires
        1 <= k < ring.len(),
    ensures
        projected_sum(ring, d, k) == d.0 * (ring[k].spec_x() - ring[0].spec_x()) + d.1 * (ring[k].spec_y()
            - ring[0].spec_y()),
    decreases k,
{
    vstd::arithmetic::div_mod::lemma_small_mod(k as nat, ring.len() as nat);
    assert(projected_sum(ring, d, 0) == 0);
    if k > 1 {
        lemma_projected_steps(ring, d, k - 1);
    }
    let step = ring_step(ring, k - 1);
    assert(step.0 == ring[k].spec_x() - ring[k - 1].spec_x());
    assert(step.1 == ring[k].spec_y() - ring[k - 1].spec_y());
    let x0 = ring[0].spec_x() as int;
    let y0 = ring[0].spec_y() as int;
    let xp = ring[k - 1].spec_x() as int;
    let yp = ring[k - 1].spec_y() as int;
    let xk = ring[k].spec_x() as int;
    let yk = ring[k].spec_y() as int;
    assert(d.0 * (xp - x0) + d.1 * (yp - y0) + (d.0 * (xk - xp) + d.1 * (yk - yp)) == d.0 * (xk - x0) + d.1 * (yk
        - y0)) by (nonlinear_arith);
}

/// Projected steps that all head the way of `d` add up to something positive.
proof fn lemma_projected_positive(ring: Seq<PointMicrometers>, d: (int, int), k: int)
    requires
        1 <= k <= ring.len(),
        forall|i: int| 0 <= i < ring.len() ==> #[trigger] same_heading(d, ring_step(ring, i)),
    ensures
        projected_sum(ring, d, k) > 0,
    decreases k,
{
    assert(same_heading(d, ring_step(ring, k - 1)));
    assert(projected_sum(ring, d, 0) == 0);
    if k > 1 {
        lemma_projected_positive(ring, d, k - 1);
    }
}

/// Every step heads the way of the first.
proof fn lemma_heading_upto(ring: Seq<PointMicrometers>, k: int)
    requires
        ring.len() >= 3,
        0 <= k < ring.len(),
        same_heading(ring_step(ring, 0), ring_step(ring, 0)),
        forall|i: int| 0 <= i < ring.len() ==> #[trigger] collinear_at(ring, i),
        forall|i: int| 0 <= i < ring.len() ==> #[trigger] ring_step(ring, i) != (0int, 0int),
    ensures
        same_heading(ring_step(ring, 0), ring_step(ring, k)),
    decreases k,
{
    let n = ring.len() as int;
    if k > 0 {
        lemma_heading_upto(ring, k - 1);
        assert(collinear_at(ring, k));
        assert((k + n - 1) % n == k - 1) by {
            vstd::arithmetic::div_mod::lemma_mod_add_multiples_vanish(k - 1, n);
            vstd::arithmetic::div_mod::lemma_small_mod((k - 1) as nat, n as nat);
        }
        vstd::arithmetic::div_mod::lemma_small_mod(k as nat, n as nat);
        let b = ring_step(ring, k - 1);
        let c = ring_step(ring, k);
        assert(b.0 == ring[k].spec_x() - ring[k - 1].spec_x());
        assert(b.1 == ring[k].spec_y() - ring[k - 1].spec_y());
        assert(c != (0int, 0int));
        lemma_heading_chain(ring_step(ring, 0), b, c);
    }
}

/// A closed ring whose neighbouring vertices differ turns somewhere: not
/// every vertex is forward-collinear with its neighbours.
pub proof fn lemma_some_vertex_turns(ring: Seq<PointMicrometers>)
    requires
        ring.len() >= 3,
        cyclic_distinct(ring),
    ensures
        exists|i: int| 0 <= i < ring.len() && !#[trigger] collinear_at(ring, i),
{
    let n = ring.len() as int;
    if forall|i: int| 0 <= i < n ==> #[trigger] collinear_at(ring, i) {
        let d = ring_step(ring, 0);
        assert forall|k: int| 0 <= k < n implies #[trigger] ring_step(ring, k) != (0int, 0int) by {
            assert(ring[k] != ring[(k + 1) % n]);
            if ring_step(ring, k) == (0int, 0int) {
                PointMicrometers::lemma_coordinates_determine(ring[k], ring[(k + 1) % n]);
            }
        }
        assert(d != (0int, 0int));
        assert(same_heading(d, d)) by (nonlinear_arith)
            requires
                d.0 != 0 || d.1 != 0,
        ;
        assert forall|k: int| 0 <= k < n implies #[trigger] same_heading(d, ring_step(ring, k)) by {
            lemma_heading_upto(ring, k);
        }
        lemma_projected_positive(ring, d, n);
        vstd::arithmetic::div_mod::lemma_mod_self_0(n);
        lemma_projected_steps(ring, d, n - 1);
        let last = ring_step(ring, n - 1);
        assert(last.0 == ring[0].spec_x() - ring[n - 1].spec_x());
        assert(last.1 == ring[0].spec_y() - ring[n - 1].spec_y());
        assert(projected_sum(ring, d, n) == projected_sum(ring, d, n - 1) + (d.0 * last.0 + d.1 * last.1));
        let x0 = ring[0].spec_x() as int;
        let y0 = ring[0].spec_y() as int;
        let xl = ring[n - 1].spec_x() as int;
        let yl = ring[n - 1].spec_y() as int;
        assert(d.0 * (xl - x0) + d.1 * (yl - y0) + (d.0 * (x0 - xl) + d.1 * (y0 - yl)) == 0) by (nonlinear_arith);
    }
}


/// A closed ring of at least three vertices whose neighbours differ keeps
/// some vertex when its forward-collinear vertices are dropped.
pub proof fn lemma_kept_nonempty(ring: Seq<PointMicrometers>)
    requires
        ring.len() >= 3,
        cyclic_distinct(ring),
    ensures
        kept_prefix(ring, ring.len() as int).len() >= 1,
{
    lemma_some_vertex_turns(ring);
    let i = choose|i: int| 0 <= i < ring.len() && !#[trigger] collinear_at(ring, i);
    if kept_prefix(ring, ring.len() as int).len() == 0 {
        lemma_none_kept(ring, ring.len() as int, i);
    }
}

} // verus!
