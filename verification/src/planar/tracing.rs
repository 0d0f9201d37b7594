//! Stitching directed cell edges into closed contours with a deterministic
//! left-turn rule, and the canonical forms those contours are kept in.

use vstd::prelude::*;

use crate::order::{
    lemma_same_members, lemma_seq_sum_permutation, lemma_seq_sum_push, pair_le, seq_sum, sort_vec, sorted, LexOrder,
};
use crate::planar::assembly::{area_term, lists_area};
use crate::planar::reduction::{
    cyclic_distinct, kept_prefix, lemma_area_from_path, lemma_cross_self, lemma_kept_area, path_cross_sum,
};
use crate::planar::topology::{edge_key, edge_valid, edges_valid, DirectedEdge};
use crate::planar::types::{
    lemma_rotate_area, point_in_range, point_key, point_less, point_lt, points_in_range,
    rotate_left, signed_double_area, spec_cross, spec_signed_double_area, valid_ring_vertices, PlanarError,
    PointMicrometers, MAX_BOUNDARY_EDGES,
};

verus! {

broadcast use vstd::seq_lib::group_to_multiset_ensures;

/// The axis direction of an edge: 0 east, 1 north, 2 west, 3 south, or none
/// for a segment that is not axis-aligned.
pub open spec fn spec_direction(edge: DirectedEdge) -> Option<u8> {
    let dx = edge.end.spec_x() - edge.start.spec_x();
    let dy = edge.end.spec_y() - edge.start.spec_y();
    if dx > 0 && dy == 0 {
        Some(0u8)
    } else if dx == 0 && dy > 0 {
        Some(1u8)
    } else if dx < 0 && dy == 0 {
        Some(2u8)
    } else if dx == 0 && dy < 0 {
        Some(3u8)
    } else {
        None
    }
}

/// Returns the axis direction of a traced cell edge.
pub fn direction(edge: DirectedEdge) -> (result: Result<u8, PlanarError>)
    ensures
        match spec_direction(edge) {
            Some(d) => result == Ok::<u8, PlanarError>(d),
            None => result == Err::<u8, PlanarError>(
                PlanarError::InvalidTopology("a traced cell edge is not axis-aligned"),
            ),
        },
{
    let sx = edge.start.x();
    let sy = edge.start.y();
    let ex = edge.end.x();
    let ey = edge.end.y();
    if ex > sx && ey == sy {
        Ok(0)
    } else if ex == sx && ey > sy {
        Ok(1)
    } else if ex < sx && ey == sy {
        Ok(2)
    } else if ex == sx && ey < sy {
        Ok(3)
    } else {
        Err(PlanarError::InvalidTopology("a traced cell edge is not axis-aligned"))
    }
}

/// Preference of an outgoing direction after an incoming one: left turns
/// first, then straight on, then right turns, then reversal.
pub open spec fn spec_turn_rank(incoming: u8, outgoing: u8) -> u8 {
    let turn = (outgoing + 4 - incoming) % 4;
    if turn == 1 {
        0
    } else if turn == 0 {
        1
    } else if turn == 3 {
        2
    } else {
        3
    }
}

/// Ranks a turn for the left-turn rule.
pub fn turn_rank(incoming: u8, outgoing: u8) -> (rank: u8)
    requires
        incoming < 4,
        outgoing < 4,
    ensures
        rank == spec_turn_rank(incoming, outgoing),
        rank < 4,
{
    let turn = (outgoing + 4 - incoming) % 4;
    if turn == 1 {
        0
    } else if turn == 0 {
        1
    } else if turn == 3 {
        2
    } else {
        3
    }
}

/// `current` lies on the segment from `previous` to `next`, continuing in the
/// same direction (or the three points coincide in some pair).
pub open spec fn spec_forward_collinear(
    previous: PointMicrometers,
    current: PointMicrometers,
    next: PointMicrometers,
) -> bool {
    let fx = current.spec_x() - previous.spec_x();
    let fy = current.spec_y() - previous.spec_y();
    let sx = next.spec_x() - current.spec_x();
    let sy = next.spec_y() - current.spec_y();
    fx * sy - fy * sx == 0 && fx * sx + fy * sy >= 0
}

/// Returns whether `current` is a forward-collinear vertex between its
/// neighbours.
pub fn is_forward_collinear(
    previous: PointMicrometers,
    current: PointMicrometers,
    next: PointMicrometers,
) -> (collinear: bool)
    requires
        point_in_range(previous),
        point_in_range(current),
        point_in_range(next),
    ensures
        collinear == spec_forward_collinear(previous, current, next),
{
    let fx = current.x() as i128 - previous.x() as i128;
    let fy = current.y() as i128 - previous.y() as i128;
    let sx = next.x() as i128 - current.x() as i128;
    let sy = next.y() as i128 - current.y() as i128;
    proof {
        assert(-1_000_000_000_000_000_000 <= fx * sy <= 1_000_000_000_000_000_000) by (nonlinear_arith)
            requires
                -1_000_000_000 <= fx <= 1_000_000_000,
                -1_000_000_000 <= sy <= 1_000_000_000,
        ;
        assert(-1_000_000_000_000_000_000 <= fy * sx <= 1_000_000_000_000_000_000) by (nonlinear_arith)
            requires
                -1_000_000_000 <= fy <= 1_000_000_000,
                -1_000_000_000 <= sx <= 1_000_000_000,
        ;
        assert(-1_000_000_000_000_000_000 <= fx * sx <= 1_000_000_000_000_000_000) by (nonlinear_arith)
            requires
                -1_000_000_000 <= fx <= 1_000_000_000,
                -1_000_000_000 <= sx <= 1_000_000_000,
        ;
        assert(-1_000_000_000_000_000_000 <= fy * sy <= 1_000_000_000_000_000_000) by (nonlinear_arith)
            requires
                -1_000_000_000 <= fy <= 1_000_000_000,
                -1_000_000_000 <= sy <= 1_000_000_000,
        ;
    }
    fx * sy - fy * sx == 0 && fx * sx + fy * sy >= 0
}

/// Vertex `i` of a closed ring is forward-collinear with its neighbours.
pub open spec fn collinear_at(ring: Seq<PointMicrometers>, i: int) -> bool {
    let n = ring.len() as int;
    spec_forward_collinear(ring[(i + n - 1) % n], ring[i], ring[(i + 1) % n])
}

/// No vertex of a closed ring is forward-collinear with its neighbours.
pub open spec fn no_collinear_vertex(ring: Seq<PointMicrometers>) -> bool {
    forall|i: int| 0 <= i < ring.len() ==> !#[trigger] collinear_at(ring, i)
}

/// Every member of `part` occurs in `whole`.
pub open spec fn members_of(part: Seq<PointMicrometers>, whole: Seq<PointMicrometers>) -> bool {
    forall|i: int| 0 <= i < part.len() ==> whole.contains(#[trigger] part[i])
}

proof fn lemma_neighbour_indices(n: int, i: int)
    requires
        0 <= i < n,
    ensures
        0 <= (i + n - 1) % n < n,
        0 <= (i + 1) % n < n,
{
    vstd::arithmetic::div_mod::lemma_mod_bound(i + n - 1, n);
    vstd::arithmetic::div_mod::lemma_mod_bound(i + 1, n);
}

/// Appending a point to a path adds the cross term of its last step.
proof fn lemma_path_cross_push(path: Seq<PointMicrometers>, point: PointMicrometers)
    ensures
        path.len() == 0 ==> path_cross_sum(path.push(point)) == 0,
        path.len() > 0 ==> path_cross_sum(path.push(point)) == path_cross_sum(path) + spec_cross(
            path[path.len() - 1],
            point,
        ),
{
    assert(path.push(point).drop_last() =~= path);
}

/// The walk with each run of equal consecutive vertices kept once.
fn drop_repeated_neighbours(vertices: &Vec<PointMicrometers>) -> (deduped: Vec<PointMicrometers>)
    ensures
        deduped@.len() <= vertices@.len(),
        members_of(deduped@, vertices@),
        vertices@.len() == 0 ==> deduped@.len() == 0,
        vertices@.len() > 0 ==> deduped@.len() >= 1 && deduped@[0] == vertices@[0] && deduped@[deduped@.len() - 1]
            == vertices@[vertices@.len() - 1],
        path_cross_sum(deduped@) == path_cross_sum(vertices@),
        forall|j: int| 0 <= j < deduped@.len() - 1 ==> #[trigger] deduped@[j] != deduped@[j + 1],
{
    let mut deduped: Vec<PointMicrometers> = Vec::new();
    let mut index: usize = 0;
    while index < vertices.len()
        invariant
            0 <= index <= vertices@.len(),
            deduped@.len() <= index,
            members_of(deduped@, vertices@),
            index == 0 ==> deduped@.len() == 0,
            index > 0 ==> deduped@.len() >= 1 && deduped@[0] == vertices@[0] && deduped@[deduped@.len() - 1]
                == vertices@[index - 1],
            path_cross_sum(deduped@) == path_cross_sum(vertices@.take(index as int)),
            forall|j: int| 0 <= j < deduped@.len() - 1 ==> #[trigger] deduped@[j] != deduped@[j + 1],
        decreases vertices@.len() - index,
    {
        let point = vertices[index];
        let repeated = deduped.len() > 0 && deduped[deduped.len() - 1].same(point);
        let ghost before = deduped@;
        proof {
            assert(vertices@.take(index + 1) =~= vertices@.take(index as int).push(point));
            lemma_path_cross_push(vertices@.take(index as int), point);
            lemma_path_cross_push(before, point);
        }
        if !repeated {
            proof {
                assert(vertices@.contains(vertices@[index as int]));
            }
            deduped.push(point);
            proof {
                assert forall|i: int| 0 <= i < deduped@.len() implies vertices@.contains(
                    #[trigger] deduped@[i],
                ) by {
                    if i < deduped@.len() - 1 {
                        assert(deduped@[i] == deduped@.drop_last()[i]);
                    }
                }
                assert(deduped@.drop_last() =~= before);
                assert forall|j: int| 0 <= j < deduped@.len() - 1 implies #[trigger] deduped@[j] != deduped@[j + 1] by {
                    if j < deduped@.len() - 2 {
                        assert(deduped@[j] == before[j] && deduped@[j + 1] == before[j + 1]);
                    }
                }
            }
        } else {
            proof {
                lemma_cross_self(point);
            }
        }
        index += 1;
    }
    proof {
        assert(vertices@.take(index as int) =~= vertices@);
    }
    deduped
}

/// Reduces a closed walk to a ring: repeated consecutive vertices and a
/// repeated closing vertex are dropped, then forward-collinear vertices are
/// removed until none remains. The result must enclose a nonzero area.
#[verifier::spinoff_prover]
pub fn remove_collinear_vertices(vertices: Vec<PointMicrometers>) -> (result: Result<
    Vec<PointMicrometers>,
    PlanarError,
>)
    requires
        points_in_range(vertices@),
        vertices@.len() <= MAX_BOUNDARY_EDGES,
    ensures
        result matches Ok(ring) ==> {
            &&& valid_ring_vertices(ring@)
            &&& no_collinear_vertex(ring@)
            &&& ring@.len() <= vertices@.len()
            &&& members_of(ring@, vertices@)
            &&& spec_signed_double_area(ring@) == spec_signed_double_area(vertices@)
        },
        result is Err ==> result == Err::<Vec<PointMicrometers>, PlanarError>(
            PlanarError::InvalidTopology("a contour has fewer than three vertices"),
        ) || result == Err::<Vec<PointMicrometers>, PlanarError>(
            PlanarError::InvalidTopology("a contour has zero signed area"),
        ),
        result is Err ==> spec_signed_double_area(vertices@) == 0,
{
    let mut deduped = drop_repeated_neighbours(&vertices);
    proof {
        if vertices@.len() > 0 {
            lemma_area_from_path(vertices@);
            lemma_area_from_path(deduped@);
        }
    }
    if deduped.len() > 0 && deduped[0].same(deduped[deduped.len() - 1]) {
        let ghost before = deduped@;
        deduped.pop();
        proof {
            assert forall|i: int| 0 <= i < deduped@.len() implies vertices@.contains(
                #[trigger] deduped@[i],
            ) by {
                assert(deduped@[i] == before[i]);
            }
            lemma_cross_self(before[0]);
            if deduped@.len() > 0 {
                assert(before.drop_last() =~= deduped@);
                lemma_area_from_path(deduped@);
                assert(deduped@[deduped@.len() - 1] != before[0]) by {
                    assert(before[before.len() - 2] != before[before.len() - 1]);
                }
            } else {
                assert(spec_signed_double_area(deduped@) == 0);
            }
        }
    }
    proof {
        if deduped@.len() >= 2 {
            let m = deduped@.len() as int;
            assert forall|i: int| 0 <= i < m implies #[trigger] deduped@[i] != deduped@[(i + 1) % m] by {
                if i < m - 1 {
                    vstd::arithmetic::div_mod::lemma_small_mod((i + 1) as nat, m as nat);
                } else {
                    vstd::arithmetic::div_mod::lemma_mod_self_0(m);
                }
            }
        }
    }
    proof {
        assert forall|i: int| 0 <= i < deduped@.len() implies point_in_range(
            #[trigger] deduped@[i],
        ) by {
            assert(vertices@.contains(deduped@[i]));
        }
    }
    let mut current = deduped;
    let mut stable = false;
    while !stable
        invariant
            points_in_range(current@),
            current@.len() <= vertices@.len(),
            vertices@.len() <= MAX_BOUNDARY_EDGES,
            members_of(current@, vertices@),
            stable ==> current@.len() >= 3 && no_collinear_vertex(current@),
            spec_signed_double_area(current@) == spec_signed_double_area(vertices@),
            current@.len() >= 3 ==> cyclic_distinct(current@),
        decreases current@.len() + if stable {
            0int
        } else {
            1int
        },
    {
        if current.len() < 3 {
            proof {
                crate::planar::assembly::lemma_short_ring_has_no_area(current@);
            }
            return Err(PlanarError::InvalidTopology("a contour has fewer than three vertices"));
        }
        let n = current.len();
        let mut kept: Vec<PointMicrometers> = Vec::new();
        let mut removed = false;
        let mut position: usize = 0;
        while position < n
            invariant
                n == current@.len(),
                n >= 3,
                n <= MAX_BOUNDARY_EDGES,
                points_in_range(current@),
                0 <= position <= n,
                removed == exists|k: int| 0 <= k < position && #[trigger] collinear_at(current@, k),
                kept@ == kept_prefix(current@, position as int),
                kept@.len() + if removed {
                    1int
                } else {
                    0int
                } <= position,
                members_of(kept@, current@),
            decreases n - position,
        {
            proof {
                lemma_neighbour_indices(n as int, position as int);
            }
            let previous = current[(position + n - 1) % n];
            let here = current[position];
            let next = current[(position + 1) % n];
            if is_forward_collinear(previous, here, next) {
                proof {
                    assert(collinear_at(current@, position as int));
                }
                removed = true;
            } else {
                proof {
                    assert(!collinear_at(current@, position as int));
                    assert(current@.contains(current@[position as int]));
                }
                kept.push(here);
                proof {
                    assert forall|i: int| 0 <= i < kept@.len() implies current@.contains(
                        #[trigger] kept@[i],
                    ) by {
                        if i < kept@.len() - 1 {
                            assert(kept@[i] == kept@.drop_last()[i]);
                        }
                    }
                }
            }
            position += 1;
        }
        if removed {
            proof {
                crate::planar::reduction::lemma_kept_nonempty(current@);
                lemma_kept_area(current@);
                assert forall|i: int| 0 <= i < kept@.len() implies point_in_range(
                    #[trigger] kept@[i],
                ) && vertices@.contains(kept@[i]) by {
                    assert(current@.contains(kept@[i]));
                    let j = choose|j: int| 0 <= j < current@.len() && current@[j] == kept@[i];
                    assert(vertices@.contains(current@[j]));
                }
            }
            current = kept;
        } else {
            stable = true;
        }
    }
    let area = signed_double_area(current.as_slice());
    if area == 0 {
        return Err(PlanarError::InvalidTopology("a contour has zero signed area"));
    }
    Ok(current)
}

/// Index of the first minimum among the first `n` points.
pub open spec fn min_index(vertices: Seq<PointMicrometers>, n: int) -> int
    decreases n,
{
    if n <= 1 {
        0
    } else {
        let m = min_index(vertices, n - 1);
        if point_lt(vertices[n - 1], vertices[m]) {
            n - 1
        } else {
            m
        }
    }
}

/// The first minimum is a minimum, and strictly below every earlier point.
pub proof fn lemma_min_index(vertices: Seq<PointMicrometers>, n: int)
    requires
        1 <= n <= vertices.len(),
    ensures
        0 <= min_index(vertices, n) < n,
        forall|j: int| 0 <= j < n ==> vertices[min_index(vertices, n)].ordered_le(#[trigger] vertices[j]),
        forall|j: int| 0 <= j < min_index(vertices, n) ==> point_lt(vertices[min_index(vertices, n)], #[trigger] vertices[j]),
    decreases n,
{
    if n > 1 {
        lemma_min_index(vertices, n - 1);
        let m = min_index(vertices, n - 1);
        PointMicrometers::lemma_le_total(vertices[n - 1], vertices[m]);
        if point_lt(vertices[n - 1], vertices[m]) {
            assert forall|j: int| 0 <= j < n implies vertices[n - 1].ordered_le(#[trigger] vertices[j]) by {
                if j < n - 1 {
                    PointMicrometers::lemma_le_transitive(vertices[n - 1], vertices[m], vertices[j]);
                }
            }
            assert forall|j: int| 0 <= j < n - 1 implies point_lt(vertices[n - 1], #[trigger] vertices[j]) by {
                PointMicrometers::lemma_le_transitive(vertices[n - 1], vertices[m], vertices[j]);
                if vertices[n - 1] == vertices[j] {
                    assert(vertices[m].ordered_le(vertices[j]));
                    PointMicrometers::lemma_coordinates_determine(vertices[m], vertices[n - 1]);
                }
            }
        }
    }
}

/// The ring rotated so that it starts at its first lexicographically smallest vertex.
pub open spec fn canonical_rotation(vertices: Seq<PointMicrometers>) -> Seq<PointMicrometers> {
    if vertices.len() == 0 {
        vertices
    } else {
        rotate_left(vertices, min_index(vertices, vertices.len() as int))
    }
}

/// The ring starts at a vertex no greater than any other.
pub open spec fn starts_at_minimum(vertices: Seq<PointMicrometers>) -> bool {
    forall|j: int| 0 <= j < vertices.len() ==> vertices[0].ordered_le(#[trigger] vertices[j])
}

/// The canonical rotation is a valid ring starting at its minimum, built from
/// the same vertices.
pub proof fn lemma_canonical_rotation(vertices: Seq<PointMicrometers>)
    requires
        vertices.len() > 0,
    ensures
        canonical_rotation(vertices).len() == vertices.len(),
        starts_at_minimum(canonical_rotation(vertices)),
        members_of(canonical_rotation(vertices), vertices),
        spec_signed_double_area(canonical_rotation(vertices)) == spec_signed_double_area(vertices),
{
    let n = vertices.len() as int;
    lemma_min_index(vertices, n);
    let m = min_index(vertices, n);
    let r = canonical_rotation(vertices);
    lemma_rotate_area(vertices, m);
    assert(r[0] == vertices[m]);
    assert forall|j: int| 0 <= j < r.len() implies r[j] == vertices[if j < n - m {
        j + m
    } else {
        j - (n - m)
    }] by {}
    assert forall|j: int| 0 <= j < r.len() implies r[0].ordered_le(#[trigger] r[j]) by {
        let k = if j < n - m {
            j + m
        } else {
            j - (n - m)
        };
        assert(r[j] == vertices[k]);
    }
    assert forall|j: int| 0 <= j < r.len() implies vertices.contains(#[trigger] r[j]) by {
        let k = if j < n - m {
            j + m
        } else {
            j - (n - m)
        };
        assert(r[j] == vertices[k]);
    }
}

pub proof fn lemma_rotation_index(n: int, m: int, j: int)
    requires
        0 <= m < n,
        0 <= j < n,
    ensures
        ((j + n - 1) % n + m) % n == ((j + m) % n + n - 1) % n,
        ((j + 1) % n + m) % n == ((j + m) % n + 1) % n,
        (if j < n - m {
            j + m
        } else {
            j - (n - m)
        }) == (j + m) % n,
{
    vstd::arithmetic::div_mod::lemma_add_mod_noop(j + n - 1, m, n);
    vstd::arithmetic::div_mod::lemma_add_mod_noop(j + m, n - 1, n);
    vstd::arithmetic::div_mod::lemma_add_mod_noop(j + 1, m, n);
    vstd::arithmetic::div_mod::lemma_add_mod_noop(j + m, 1, n);
    vstd::arithmetic::div_mod::lemma_small_mod(m as nat, n as nat);
    vstd::arithmetic::div_mod::lemma_small_mod((n - 1) as nat, n as nat);
    if n > 1 {
        vstd::arithmetic::div_mod::lemma_small_mod(1, n as nat);
    } else {
        vstd::arithmetic::div_mod::lemma_mod_self_0(1);
        assert(j + m == 0);
    }
    if j < n - m {
        vstd::arithmetic::div_mod::lemma_small_mod((j + m) as nat, n as nat);
    } else {
        vstd::arithmetic::div_mod::lemma_mod_sub_multiples_vanish(j + m, n);
        vstd::arithmetic::div_mod::lemma_small_mod((j + m - n) as nat, n as nat);
    }
}

/// Rotating a ring keeps every vertex's neighbours, so no collinear vertex appears.
pub proof fn lemma_canonical_keeps_collinearity(vertices: Seq<PointMicrometers>)
    requires
        vertices.len() > 0,
        no_collinear_vertex(vertices),
    ensures
        no_collinear_vertex(canonical_rotation(vertices)),
{
    let n = vertices.len() as int;
    lemma_min_index(vertices, n);
    let m = min_index(vertices, n);
    let r = canonical_rotation(vertices);
    assert forall|j: int| 0 <= j < n implies #[trigger] r[j] == vertices[(j + m) % n] by {
        lemma_rotation_index(n, m, j);
    }
    assert forall|j: int| 0 <= j < r.len() implies !#[trigger] collinear_at(r, j) by {
        let k = (j + m) % n;
        lemma_rotation_index(n, m, j);
        lemma_neighbour_indices(n, j);
        assert(0 <= k < n) by {
            vstd::arithmetic::div_mod::lemma_mod_bound(j + m, n);
        }
        assert(!collinear_at(vertices, k));
        assert(r[(j + n - 1) % n] == vertices[((j + n - 1) % n + m) % n]);
        assert(r[(j + 1) % n] == vertices[((j + 1) % n + m) % n]);
    }
}

/// Rotates a ring to start at its first lexicographically smallest vertex.
pub fn canonicalize_oriented(vertices: Vec<PointMicrometers>) -> (rotated: Vec<PointMicrometers>)
    ensures
        rotated@ == canonical_rotation(vertices@),
{
    let n = vertices.len();
    if n == 0 {
        return vertices;
    }
    let mut best: usize = 0;
    let mut index: usize = 1;
    while index < n
        invariant
            n == vertices@.len(),
            1 <= index <= n,
            best == min_index(vertices@, index as int),
            0 <= best < index,
        decreases n - index,
    {
        if point_less(vertices[index], vertices[best]) {
            best = index;
        }
        index += 1;
    }
    let mut rotated: Vec<PointMicrometers> = Vec::new();
    let mut k: usize = best;
    while k < n
        invariant
            n == vertices@.len(),
            best <= k <= n,
            rotated@ == vertices@.subrange(best as int, k as int),
        decreases n - k,
    {
        rotated.push(vertices[k]);
        k += 1;
    }
    let mut k: usize = 0;
    while k < best
        invariant
            n == vertices@.len(),
            best < n,
            0 <= k <= best,
            rotated@ == vertices@.subrange(best as int, n as int) + vertices@.subrange(0, k as int),
        decreases best - k,
    {
        rotated.push(vertices[k]);
        proof {
            assert(vertices@.subrange(0, k + 1) == vertices@.subrange(0, k as int).push(vertices@[k as int]));
        }
        k += 1;
    }
    rotated
}

/// The smaller of the two canonical rotations of a ring and of its reversal:
/// one representative per undirected cycle.
pub open spec fn canonical_cycle(vertices: Seq<PointMicrometers>) -> Seq<PointMicrometers> {
    let forward = canonical_rotation(vertices);
    let backward = canonical_rotation(vertices.reverse());
    if crate::planar::types::points_seq_le(forward, backward) {
        forward
    } else {
        backward
    }
}

/// Returns the orientation-independent canonical form of a ring.
pub fn canonical_undirected(vertices: &[PointMicrometers]) -> (canonical: Vec<PointMicrometers>)
    ensures
        canonical@ == canonical_cycle(vertices@),
{
    let mut forward_source: Vec<PointMicrometers> = Vec::new();
    let mut backward_source: Vec<PointMicrometers> = Vec::new();
    let n = vertices.len();
    let mut index: usize = 0;
    while index < n
        invariant
            n == vertices@.len(),
            0 <= index <= n,
            forward_source@ == vertices@.subrange(0, index as int),
            backward_source@ == vertices@.reverse().subrange(0, index as int),
        decreases n - index,
    {
        forward_source.push(vertices[index]);
        backward_source.push(vertices[n - 1 - index]);
        proof {
            assert(vertices@.subrange(0, index + 1) == vertices@.subrange(0, index as int).push(vertices@[index as int]));
            assert(vertices@.reverse().subrange(0, index + 1) =~= vertices@.reverse().subrange(0, index as int).push(vertices@[n - 1 - index]));
        }
        index += 1;
    }
    proof {
        assert(forward_source@ =~= vertices@);
        assert(backward_source@ =~= vertices@.reverse());
    }
    let forward = canonicalize_oriented(forward_source);
    let backward = canonicalize_oriented(backward_source);
    if crate::planar::types::points_seq_less_or_equal(forward.as_slice(), backward.as_slice()) {
        forward
    } else {
        backward
    }
}

/// Copies a vertex sequence into a new vector.
pub fn copy_vertices(vertices: &[PointMicrometers]) -> (copy: Vec<PointMicrometers>)
    ensures
        copy@ == vertices@,
{
    let mut copy: Vec<PointMicrometers> = Vec::new();
    let mut index: usize = 0;
    while index < vertices.len()
        invariant
            0 <= index <= vertices@.len(),
            copy@ == vertices@.subrange(0, index as int),
        decreases vertices@.len() - index,
    {
        copy.push(vertices[index]);
        proof {
            assert(vertices@.subrange(0, index + 1) == vertices@.subrange(0, index as int).push(vertices@[index as int]));
        }
        index += 1;
    }
    proof {
        assert(vertices@.subrange(0, index as int) == vertices@);
    }
    copy
}

/// The start of `edge` precedes `point` (or, when inclusive, does not follow it).
pub open spec fn start_precedes(edge: DirectedEdge, point: PointMicrometers, inclusive: bool) -> bool {
    let s = point_key(edge.start);
    let p = point_key(point);
    if inclusive {
        pair_le(s, p)
    } else {
        s.0 < p.0 || (s.0 == p.0 && s.1 < p.1)
    }
}

/// Finds the boundary between sorted edges whose start precedes `point` and the rest.
pub fn start_partition_point(edges: &[DirectedEdge], point: PointMicrometers, inclusive: bool) -> (bound: usize)
    requires
        sorted(edges@),
    ensures
        bound <= edges@.len(),
        forall|i: int| 0 <= i < bound ==> start_precedes(#[trigger] edges@[i], point, inclusive),
        forall|i: int| bound <= i < edges@.len() ==> !start_precedes(#[trigger] edges@[i], point, inclusive),
{
    let mut low: usize = 0;
    let mut high: usize = edges.len();
    while low < high
        invariant
            0 <= low <= high <= edges@.len(),
            sorted(edges@),
            forall|i: int| 0 <= i < low ==> start_precedes(#[trigger] edges@[i], point, inclusive),
            forall|i: int| high <= i < edges@.len() ==> !start_precedes(#[trigger] edges@[i], point, inclusive),
        decreases high - low,
    {
        let middle = low + (high - low) / 2;
        let start = edges[middle].start;
        let precedes = if inclusive {
            start.x() < point.x() || (start.x() == point.x() && start.y() <= point.y())
        } else {
            start.x() < point.x() || (start.x() == point.x() && start.y() < point.y())
        };
        if precedes {
            proof {
                assert forall|i: int| 0 <= i <= middle implies start_precedes(#[trigger] edges@[i], point, inclusive) by {
                    if i < middle {
                        assert(edges@[i].ordered_le(edges@[middle as int]));
                    }
                }
            }
            low = middle + 1;
        } else {
            proof {
                assert forall|i: int| middle <= i < edges@.len() implies !start_precedes(#[trigger] edges@[i], point, inclusive) by {
                    if i > middle {
                        assert(edges@[middle as int].ordered_le(edges@[i]));
                    }
                }
            }
            high = middle;
        }
    }
    low
}

/// Edge `i` is an unused edge among `lower..upper`.
pub open spec fn open_candidate(used: Seq<bool>, lower: int, upper: int, i: int) -> bool {
    lower <= i < upper && !used[i]
}

/// The turn rank of an axis-aligned edge after arriving in direction `incoming`.
pub open spec fn edge_rank(incoming: u8, edge: DirectedEdge) -> u8 {
    spec_turn_rank(incoming, spec_direction(edge).unwrap())
}

/// `a` is preferred to `b` after arriving in direction `incoming`: a better
/// turn rank, or the same rank and a smaller end point.
pub open spec fn turn_preferred(incoming: u8, a: DirectedEdge, b: DirectedEdge) -> bool {
    edge_rank(incoming, a) < edge_rank(incoming, b) || (edge_rank(incoming, a) == edge_rank(incoming, b) && point_lt(
        a.end,
        b.end,
    ))
}

/// Preference is a strict order: what beats the chosen edge, which nothing
/// beat, beats everything that did not beat the chosen edge.
proof fn lemma_preferred_chain(incoming: u8, better: DirectedEdge, chosen: DirectedEdge, other: DirectedEdge)
    requires
        turn_preferred(incoming, better, chosen),
        !turn_preferred(incoming, other, chosen),
    ensures
        turn_preferred(incoming, better, other),
        !turn_preferred(incoming, other, better),
{
    if edge_rank(incoming, better) == edge_rank(incoming, chosen) && edge_rank(incoming, other) == edge_rank(
        incoming,
        chosen,
    ) {
        if other.end != chosen.end {
            assert(!other.end.ordered_le(chosen.end));
        }
        if other.end == better.end {
            assert(false);
        }
        if better.end.spec_x() == other.end.spec_x() && better.end.spec_y() == other.end.spec_y() {
            PointMicrometers::lemma_coordinates_determine(better.end, other.end);
        }
    }
}

/// Picks the next edge of a walk arriving along `current`: among the unused
/// edges in `lower..upper` (those leaving the arrival point), the first one
/// when it is alone, otherwise the one with the best left-turn rank, ties
/// broken by the smaller end point and then by the earlier position.
fn next_edge(
    edges: &Vec<DirectedEdge>,
    used: &Vec<bool>,
    current: DirectedEdge,
    lower: usize,
    upper: usize,
) -> (result: Result<usize, PlanarError>)
    requires
        lower <= upper <= edges@.len(),
        used@.len() == edges@.len(),
    ensures
        result matches Ok(next) ==> lower <= next < upper && !used@[next as int],
        result is Err ==> result == Err::<usize, PlanarError>(
            PlanarError::InvalidTopology("a boundary vertex has no unused outgoing edge"),
        ) || result == Err::<usize, PlanarError>(
            PlanarError::InvalidTopology("a traced cell edge is not axis-aligned"),
        ),
        (forall|i: int| !open_candidate(used@, lower as int, upper as int, i)) ==> result == Err::<usize, PlanarError>(
            PlanarError::InvalidTopology("a boundary vertex has no unused outgoing edge"),
        ),
        (forall|i: int, j: int|
            open_candidate(used@, lower as int, upper as int, i) && open_candidate(used@, lower as int, upper as int, j)
                ==> i == j) ==> (result is Ok <==> exists|i: int| open_candidate(used@, lower as int, upper as int, i)),
        (exists|i: int, j: int|
            open_candidate(used@, lower as int, upper as int, i) && open_candidate(used@, lower as int, upper as int, j)
                && i != j) ==> {
            &&& result is Ok <==> spec_direction(current) is Some && forall|i: int|
                open_candidate(used@, lower as int, upper as int, i) ==> spec_direction(#[trigger] edges@[i]) is Some
            &&& (result is Err ==> result matches Err(PlanarError::InvalidTopology(_)))
            &&& (result matches Ok(next) ==> forall|j: int|
                open_candidate(used@, lower as int, upper as int, j) ==> !turn_preferred(
                    spec_direction(current).unwrap(),
                    #[trigger] edges@[j],
                    edges@[next as int],
                ) && (j < next ==> turn_preferred(spec_direction(current).unwrap(), edges@[next as int], edges@[j])))
        },
{
    let ghost lo = lower as int;
    let ghost hi = upper as int;
    let mut first: Option<usize> = None;
    let mut chosen: usize = 0;
    let mut compared = false;
    let mut incoming: u8 = 0;
    let mut best_rank: u8 = 0;
    let mut best_end = current.end;
    let mut candidate = lower;
    while candidate < upper
        invariant
            lower <= candidate <= upper <= edges@.len(),
            lo == lower && hi == upper,
            used@.len() == edges@.len(),
            incoming < 4,
            first matches Some(f) ==> lower <= f < candidate && lower <= chosen < candidate
                && !used@[chosen as int] && !used@[f as int],
            first is None ==> !compared,
            first is None ==> forall|i: int| lo <= i < candidate ==> !open_candidate(used@, lo, hi, i),
            first is Some && !compared ==> chosen == first.unwrap() && forall|i: int|
                lo <= i < candidate && open_candidate(used@, lo, hi, i) ==> i == chosen,
            compared ==> {
                &&& spec_direction(current) == Some(incoming)
                &&& exists|i: int, j: int|
                    lo <= i < candidate && lo <= j < candidate && open_candidate(used@, lo, hi, i) && open_candidate(
                        used@,
                        lo,
                        hi,
                        j,
                    ) && i != j
                &&& forall|i: int|
                    lo <= i < candidate && open_candidate(used@, lo, hi, i) ==> spec_direction(#[trigger] edges@[i]) is Some
                &&& best_rank == edge_rank(incoming, edges@[chosen as int])
                &&& best_end == edges@[chosen as int].end
                &&& forall|j: int|
                    lo <= j < candidate && open_candidate(used@, lo, hi, j) ==> !turn_preferred(
                        incoming,
                        #[trigger] edges@[j],
                        edges@[chosen as int],
                    ) && (j < chosen ==> turn_preferred(incoming, edges@[chosen as int], edges@[j]))
            },
        decreases upper - candidate,
    {
        if !used[candidate] {
            match first {
                None => {
                    first = Some(candidate);
                    chosen = candidate;
                },
                Some(f) => {
                    proof {
                        assert(open_candidate(used@, lo, hi, f as int));
                        assert(open_candidate(used@, lo, hi, candidate as int));
                    }
                    if !compared {
                        incoming = direction(current)?;
                        best_rank = turn_rank(incoming, direction(edges[f])?);
                        best_end = edges[f].end;
                        compared = true;
                        proof {
                            assert(open_candidate(used@, lo, hi, f as int));
                            assert(open_candidate(used@, lo, hi, candidate as int));
                            assert forall|j: int|
                                lo <= j < candidate && open_candidate(used@, lo, hi, j) implies !turn_preferred(
                                incoming,
                                #[trigger] edges@[j],
                                edges@[chosen as int],
                            ) && (j < chosen ==> turn_preferred(incoming, edges@[chosen as int], edges@[j])) by {
                                assert(j == f);
                            }
                        }
                    }
                    let rank = turn_rank(incoming, direction(edges[candidate])?);
                    let end = edges[candidate].end;
                    let ghost previous = chosen;
                    if rank < best_rank || (rank == best_rank && point_less(end, best_end)) {
                        chosen = candidate;
                        best_rank = rank;
                        best_end = end;
                        proof {
                            assert forall|j: int|
                                lo <= j < candidate + 1 && open_candidate(used@, lo, hi, j) implies !turn_preferred(
                                incoming,
                                #[trigger] edges@[j],
                                edges@[chosen as int],
                            ) && (j < chosen ==> turn_preferred(incoming, edges@[chosen as int], edges@[j])) by {
                                if j < candidate {
                                    lemma_preferred_chain(
                                        incoming,
                                        edges@[candidate as int],
                                        edges@[previous as int],
                                        edges@[j],
                                    );
                                } else {
                                    assert(!point_lt(end, end));
                                }
                            }
                        }
                    }
                },
            }
        }
        candidate += 1;
    }
    match first {
        None => Err(
            PlanarError::InvalidTopology("a boundary vertex has no unused outgoing edge"),
        ),
        Some(f) => {
            proof {
                assert(open_candidate(used@, lo, hi, f as int));
            }
            Ok(chosen)
        },
    }
}

/// Twice the signed area a directed edge sweeps about the origin.
pub open spec fn edge_term() -> spec_fn(DirectedEdge) -> int {
    |edge: DirectedEdge| spec_cross(edge.start, edge.end)
}

/// Twice the signed area swept by the edges marked used among the first `count`.
pub open spec fn used_area(edges: Seq<DirectedEdge>, used: Seq<bool>, count: int) -> int
    decreases count,
{
    if count <= 0 {
        0
    } else {
        used_area(edges, used, count - 1) + if used[count - 1] {
            spec_cross(edges[count - 1].start, edges[count - 1].end)
        } else {
            0
        }
    }
}

/// Marking one more edge used adds its swept area.
proof fn lemma_used_area_mark(edges: Seq<DirectedEdge>, used: Seq<bool>, index: int, count: int)
    requires
        0 <= index < used.len(),
        count <= used.len(),
        !used[index],
    ensures
        used_area(edges, used.update(index, true), count) == used_area(edges, used, count) + if index < count {
            spec_cross(edges[index].start, edges[index].end)
        } else {
            0
        },
    decreases count,
{
    if count > 0 {
        lemma_used_area_mark(edges, used, index, count - 1);
    }
}

/// Before any edge is used, the used area is zero.
proof fn lemma_used_area_none(edges: Seq<DirectedEdge>, used: Seq<bool>, count: int)
    requires
        count <= used.len(),
        forall|i: int| 0 <= i < count ==> !#[trigger] used[i],
    ensures
        used_area(edges, used, count) == 0,
    decreases count,
{
    if count > 0 {
        lemma_used_area_none(edges, used, count - 1);
    }
}

/// Once every edge is used, the used area is the area all edges sweep.
proof fn lemma_used_area_all(edges: Seq<DirectedEdge>, used: Seq<bool>, count: int)
    requires
        0 <= count <= edges.len(),
        count <= used.len(),
        forall|i: int| 0 <= i < count ==> #[trigger] used[i],
    ensures
        used_area(edges, used, count) == seq_sum(edges.take(count), edge_term()),
    decreases count,
{
    if count > 0 {
        lemma_used_area_all(edges, used, count - 1);
        assert(edges.take(count).drop_last() =~= edges.take(count - 1));
    }
}

/// One for an edge that starts at `point`.
pub open spec fn starts_at(point: PointMicrometers) -> spec_fn(DirectedEdge) -> int {
    |edge: DirectedEdge| if edge.start == point {
        1int
    } else {
        0int
    }
}

/// One for an edge that ends at `point`.
pub open spec fn ends_at(point: PointMicrometers) -> spec_fn(DirectedEdge) -> int {
    |edge: DirectedEdge| if edge.end == point {
        1int
    } else {
        0int
    }
}

/// Every point has as many edges leaving it as entering it.
pub open spec fn edges_balanced(edges: Seq<DirectedEdge>) -> bool {
    forall|point: PointMicrometers| #[trigger] seq_sum(edges, starts_at(point)) == seq_sum(edges, ends_at(point))
}

/// Every edge runs along an axis.
pub open spec fn edges_axis_aligned(edges: Seq<DirectedEdge>) -> bool {
    forall|i: int| 0 <= i < edges.len() ==> (#[trigger] spec_direction(edges[i])) is Some
}

/// The unused edges among the first `count` that leave `point` (for
/// `leaving`) or enter it.
pub open spec fn unused_at(edges: Seq<DirectedEdge>, used: Seq<bool>, point: PointMicrometers, count: int, leaving: bool) -> int
    decreases count,
{
    if count <= 0 {
        0
    } else {
        let edge = edges[count - 1];
        let touches = if leaving {
            edge.start == point
        } else {
            edge.end == point
        };
        unused_at(edges, used, point, count - 1, leaving) + if !used[count - 1] && touches {
            1int
        } else {
            0int
        }
    }
}

/// The number of used edges among the first `count`.
pub open spec fn used_count(used: Seq<bool>, count: int) -> int
    decreases count,
{
    if count <= 0 {
        0
    } else {
        used_count(used, count - 1) + if used[count - 1] {
            1int
        } else {
            0int
        }
    }
}

/// With nothing used, the unused edges at a point are all its edges.
proof fn lemma_unused_all(edges: Seq<DirectedEdge>, used: Seq<bool>, point: PointMicrometers, count: int)
    requires
        0 <= count <= edges.len(),
        count <= used.len(),
        forall|i: int| 0 <= i < count ==> !#[trigger] used[i],
    ensures
        unused_at(edges, used, point, count, true) == seq_sum(edges.take(count), starts_at(point)),
        unused_at(edges, used, point, count, false) == seq_sum(edges.take(count), ends_at(point)),
    decreases count,
{
    if count > 0 {
        lemma_unused_all(edges, used, point, count - 1);
        assert(edges.take(count).drop_last() =~= edges.take(count - 1));
    }
}

/// Marking an unused edge used removes it from the counts at its ends, and
/// adds one used edge.
proof fn lemma_mark_counts(edges: Seq<DirectedEdge>, used: Seq<bool>, j: int, point: PointMicrometers, count: int)
    requires
        0 <= j < used.len(),
        !used[j],
        0 <= count <= used.len(),
        count <= edges.len(),
    ensures
        unused_at(edges, used.update(j, true), point, count, true) == unused_at(edges, used, point, count, true) - if j
            < count && edges[j].start == point {
            1int
        } else {
            0int
        },
        unused_at(edges, used.update(j, true), point, count, false) == unused_at(edges, used, point, count, false) - if j
            < count && edges[j].end == point {
            1int
        } else {
            0int
        },
        used_count(used.update(j, true), count) == used_count(used, count) + if j < count {
            1int
        } else {
            0int
        },
    decreases count,
{
    if count > 0 {
        lemma_mark_counts(edges, used, j, point, count - 1);
    }
}

/// There are never more used edges than edges.
proof fn lemma_used_count_bound(used: Seq<bool>, count: int)
    requires
        0 <= count,
    ensures
        0 <= used_count(used, count) <= count,
    decreases count,
{
    if count > 0 {
        lemma_used_count_bound(used, count - 1);
    }
}

/// An unused edge is counted where it leaves.
proof fn lemma_unused_leaving(edges: Seq<DirectedEdge>, used: Seq<bool>, point: PointMicrometers, count: int)
    requires
        unused_at(edges, used, point, count, true) >= 1,
    ensures
        exists|i: int| 0 <= i < count && !used[i] && #[trigger] edges[i].start == point,
    decreases count,
{
    if count > 0 {
        if !used[count - 1] && edges[count - 1].start == point {
        } else {
            lemma_unused_leaving(edges, used, point, count - 1);
        }
    }
}

/// Counts of unused edges are never negative.
proof fn lemma_unused_nonnegative(edges: Seq<DirectedEdge>, used: Seq<bool>, point: PointMicrometers, count: int)
    ensures
        unused_at(edges, used, point, count, true) >= 0,
        unused_at(edges, used, point, count, false) >= 0,
    decreases count,
{
    if count > 0 {
        lemma_unused_nonnegative(edges, used, point, count - 1);
    }
}

/// A point's count of leaving minus entering unused edges, against a walk
/// that has left `start` and stands at `here`.
pub open spec fn walk_balance(
    edges: Seq<DirectedEdge>,
    used: Seq<bool>,
    count: int,
    start: PointMicrometers,
    here: PointMicrometers,
) -> bool {
    forall|point: PointMicrometers|
        #[trigger] unused_at(edges, used, point, count, true) - unused_at(edges, used, point, count, false) == (if point
            == here {
            1int
        } else {
            0int
        }) - (if point == start {
            1int
        } else {
            0int
        })
}

/// `trail` lists distinct edges of `edges`, each starting where the one
/// before it ends.
pub open spec fn open_trail(edges: Seq<DirectedEdge>, trail: Seq<int>) -> bool {
    &&& trail.len() >= 1
    &&& forall|j: int| 0 <= j < trail.len() ==> 0 <= #[trigger] trail[j] < edges.len()
    &&& forall|j: int, k: int| 0 <= j < k < trail.len() ==> #[trigger] trail[j] != #[trigger] trail[k]
    &&& forall|j: int| 0 <= j < trail.len() - 1 ==> edges[#[trigger] trail[j]].end == edges[trail[j + 1]].start
}

/// An open trail whose last edge ends where its first starts.
pub open spec fn closed_trail(edges: Seq<DirectedEdge>, trail: Seq<int>) -> bool {
    &&& open_trail(edges, trail)
    &&& edges[trail.last()].end == edges[trail[0]].start
}

/// The starting points of a trail's edges.
pub open spec fn trail_points(edges: Seq<DirectedEdge>, trail: Seq<int>) -> Seq<PointMicrometers> {
    Seq::new(trail.len(), |j: int| edges[trail[j]].start)
}

/// Some closed trail of the edges, each used at most once, encloses no
/// area.
pub open spec fn zero_area_trail(edges: Seq<DirectedEdge>) -> bool {
    exists|order: Seq<DirectedEdge>, trail: Seq<int>|
        #![trigger closed_trail(order, trail), order.to_multiset()]
        order.to_multiset() == edges.to_multiset() && closed_trail(order, trail) && spec_signed_double_area(
            trail_points(order, trail),
        ) == 0
}

/// Stitches directed cell edges into closed rings with a deterministic
/// left-turn preference: at a checkerboard saddle this keeps four-connected
/// cells in separate rings, whatever order the edges came in. Each ring is
/// reduced to its corner vertices, rotated to start at its smallest vertex,
/// and the rings are returned in lexicographic order.
pub fn trace_rings(input: Vec<DirectedEdge>) -> (result: Result<
    Vec<Vec<PointMicrometers>>,
    PlanarError,
>)
    requires
        edges_valid(input@),
        input@.len() <= MAX_BOUNDARY_EDGES,
    ensures
        result matches Ok(rings) ==> {
            &&& rings@.len() <= input@.len()
            &&& sorted(rings@)
            &&& lists_area(rings@) == seq_sum(input@, edge_term())
            &&& forall|r: int|
                0 <= r < rings@.len() ==> valid_ring_vertices(#[trigger] rings@[r]@)
                    && starts_at_minimum(rings@[r]@)
                    && no_collinear_vertex(rings@[r]@)
        },
        result != Err::<Vec<Vec<PointMicrometers>>, PlanarError>(
            PlanarError::InvalidTopology("a boundary walk did not close"),
        ),
        result != Err::<Vec<Vec<PointMicrometers>>, PlanarError>(
            PlanarError::InvalidTopology("a boundary edge was reached more than once"),
        ),
        edges_balanced(input@) && edges_axis_aligned(input@) ==> result is Ok || result == Err::<
            Vec<Vec<PointMicrometers>>,
            PlanarError,
        >(PlanarError::InvalidTopology("a contour has fewer than three vertices")) || result == Err::<
            Vec<Vec<PointMicrometers>>,
            PlanarError,
        >(PlanarError::InvalidTopology("a contour has zero signed area")),
        result is Err && result != Err::<Vec<Vec<PointMicrometers>>, PlanarError>(
            PlanarError::InvalidTopology("a boundary vertex has no unused outgoing edge"),
        ) && result != Err::<Vec<Vec<PointMicrometers>>, PlanarError>(
            PlanarError::InvalidTopology("a traced cell edge is not axis-aligned"),
        ) ==> zero_area_trail(input@),
        edges_balanced(input@) && edges_axis_aligned(input@) && !zero_area_trail(input@) ==> result is Ok,
{
    let ghost initial = input@;
    let ghost closes = edges_balanced(initial) && edges_axis_aligned(initial);
    let edges = sort_vec(input);
    proof {
        lemma_seq_sum_permutation(initial, edges@, edge_term());
        lemma_same_members(initial, edges@);
        assert forall|i: int| 0 <= i < edges@.len() implies edge_valid(#[trigger] edges@[i]) by {
            assert(initial.contains(edges@[i]));
        }
        if closes {
            assert forall|point: PointMicrometers| #[trigger] seq_sum(edges@, starts_at(point)) == seq_sum(
                edges@,
                ends_at(point),
            ) by {
                lemma_seq_sum_permutation(initial, edges@, starts_at(point));
                lemma_seq_sum_permutation(initial, edges@, ends_at(point));
                assert(seq_sum(initial, starts_at(point)) == seq_sum(initial, ends_at(point)));
            }
            assert forall|i: int| 0 <= i < edges@.len() implies (#[trigger] spec_direction(edges@[i])) is Some by {
                assert(initial.contains(edges@[i]));
                let j = choose|j: int| 0 <= j < initial.len() && initial[j] == edges@[i];
                assert(spec_direction(initial[j]) is Some);
            }
        }
    }
    let count = edges.len();
    let mut used: Vec<bool> = Vec::new();
    while used.len() < count
        invariant
            used@.len() <= count,
            forall|i: int| 0 <= i < used@.len() ==> !#[trigger] used@[i],
        decreases count - used@.len(),
    {
        used.push(false);
    }
    let mut rings: Vec<Vec<PointMicrometers>> = Vec::new();
    let mut first_index: usize = 0;
    proof {
        lemma_used_area_none(edges@, used@, count as int);
        if closes {
            assert forall|point: PointMicrometers| #[trigger] unused_at(edges@, used@, point, count as int, true)
                == unused_at(edges@, used@, point, count as int, false) by {
                lemma_unused_all(edges@, used@, point, count as int);
                assert(edges@.take(count as int) =~= edges@);
                assert(seq_sum(edges@, starts_at(point)) == seq_sum(edges@, ends_at(point)));
            }
        }
    }
    while first_index < count
        invariant
            count == edges@.len(),
            count <= MAX_BOUNDARY_EDGES,
            used@.len() == count,
            sorted(edges@),
            edges_valid(edges@),
            0 <= first_index <= count,
            rings@.len() <= first_index,
            forall|r: int|
                0 <= r < rings@.len() ==> valid_ring_vertices(#[trigger] rings@[r]@)
                    && starts_at_minimum(rings@[r]@)
                    && no_collinear_vertex(rings@[r]@),
            lists_area(rings@) == used_area(edges@, used@, count as int),
            forall|i: int| 0 <= i < first_index ==> #[trigger] used@[i],
            closes ==> forall|i: int| 0 <= i < edges@.len() ==> (#[trigger] spec_direction(edges@[i])) is Some,
            closes == (edges_balanced(initial) && edges_axis_aligned(initial)),
            initial == input@,
            edges@.to_multiset() == initial.to_multiset(),
            closes ==> forall|point: PointMicrometers| #[trigger] unused_at(edges@, used@, point, count as int, true)
                == unused_at(edges@, used@, point, count as int, false),
        decreases count - first_index,
    {
        if !used[first_index] {
            let start = edges[first_index].start;
            let mut vertices: Vec<PointMicrometers> = Vec::new();
            vertices.push(start);
            let mut current_index = first_index;
            let mut steps: usize = 0;
            let ghost base = lists_area(rings@);
            let ghost walk_base = used_count(used@, count as int);
            let ghost mut trail: Seq<int> = seq![first_index as int];
            proof {
                assert(vertices@ =~= trail_points(edges@, trail));
            }
            proof {
                lemma_used_count_bound(used@, count as int);
                if closes {
                    assert forall|point: PointMicrometers| #[trigger] unused_at(edges@, used@, point, count as int, true)
                        - unused_at(edges@, used@, point, count as int, false) == (if point == start {
                        1int
                    } else {
                        0int
                    }) - (if point == start {
                        1int
                    } else {
                        0int
                    }) by {}
                }
            }
            loop
                invariant_except_break
                    trail.len() == steps + 1,
                    trail.last() == current_index,
                    open_trail(edges@, trail),
                    forall|j: int| 0 <= j < trail.len() - 1 ==> used@[#[trigger] trail[j]],
                    vertices@ == trail_points(edges@, trail),
                    !used@[current_index as int],
                    used_count(used@, count as int) == walk_base + steps,
                    closes ==> walk_balance(edges@, used@, count as int, start, edges@[current_index as int].start),
                    vertices@.len() == steps + 1,
                    edges@[current_index as int].start == vertices@[vertices@.len() - 1],
                    used_area(edges@, used@, count as int) == base + path_cross_sum(vertices@),
                    steps > 0 ==> used@[first_index as int],
                    steps == 0 ==> current_index == first_index,
                invariant
                    count == edges@.len(),
                    count <= MAX_BOUNDARY_EDGES,
                    used@.len() == count,
                    sorted(edges@),
                    edges_valid(edges@),
                    0 <= current_index < count,
                    first_index < count,
                    steps <= count,
                    points_in_range(vertices@),
                    vertices@[0] == start,
                    forall|i: int| 0 <= i < first_index ==> #[trigger] used@[i],
                    walk_base >= 0,
                    closes == (edges_balanced(initial) && edges_axis_aligned(initial)),
                    initial == input@,
                    closes ==> forall|i: int| 0 <= i < edges@.len() ==> (#[trigger] spec_direction(edges@[i])) is Some,
                ensures
                    closed_trail(edges@, trail),
                    vertices@ == trail_points(edges@, trail),
                    closes ==> forall|point: PointMicrometers| #[trigger] unused_at(
                        edges@,
                        used@,
                        point,
                        count as int,
                        true,
                    ) == unused_at(edges@, used@, point, count as int, false),
                    1 <= vertices@.len() <= count,
                    points_in_range(vertices@),
                    used_area(edges@, used@, count as int) == base + spec_signed_double_area(vertices@),
                    used@[first_index as int],
                decreases count - steps,
            {
                if used[current_index] {
                    return Err(
                        PlanarError::InvalidTopology("a boundary edge was reached more than once"),
                    );
                }
                proof {
                    lemma_used_area_mark(edges@, used@, current_index as int, count as int);
                }
                let ghost unmarked = used@;
                let ghost here = edges@[current_index as int].start;
                used.set(current_index, true);
                proof {
                    assert forall|point: PointMicrometers| #[trigger] unused_at(edges@, used@, point, count as int, true)
                        == unused_at(edges@, unmarked, point, count as int, true) - (if edges@[current_index as int].start
                        == point {
                        1int
                    } else {
                        0int
                    }) && unused_at(edges@, used@, point, count as int, false) == unused_at(
                        edges@,
                        unmarked,
                        point,
                        count as int,
                        false,
                    ) - (if edges@[current_index as int].end == point {
                        1int
                    } else {
                        0int
                    }) by {
                        lemma_mark_counts(edges@, unmarked, current_index as int, point, count as int);
                    }
                    lemma_mark_counts(edges@, unmarked, current_index as int, start, count as int);
                    lemma_used_count_bound(used@, count as int);
                }
                steps = steps + 1;
                if steps > count {
                    return Err(PlanarError::InvalidTopology("a boundary walk did not close"));
                }
                let current = edges[current_index];
                proof {
                    if closes {
                        assert forall|point: PointMicrometers| #[trigger] unused_at(
                            edges@,
                            used@,
                            point,
                            count as int,
                            true,
                        ) - unused_at(edges@, used@, point, count as int, false) == (if point == current.end {
                            1int
                        } else {
                            0int
                        }) - (if point == start {
                            1int
                        } else {
                            0int
                        }) by {
                            assert(unused_at(edges@, unmarked, point, count as int, true) - unused_at(
                                edges@,
                                unmarked,
                                point,
                                count as int,
                                false,
                            ) == (if point == here {
                                1int
                            } else {
                                0int
                            }) - (if point == start {
                                1int
                            } else {
                                0int
                            }));
                        }
                    }
                }
                if current.end.same(start) {
                    proof {
                        lemma_area_from_path(vertices@);
                        assert(edges@[trail[0]].start == start);
                    }
                    break;
                }
                proof {
                    assert(edge_valid(edges@[current_index as int]));
                }
                let ghost before = vertices@;
                vertices.push(current.end);
                proof {
                    assert(vertices@.drop_last() =~= before);
                }
                let lower = start_partition_point(edges.as_slice(), current.end, false);
                let upper = start_partition_point(edges.as_slice(), current.end, true);
                proof {
                    if upper < lower {
                        assert(start_precedes(edges@[upper as int], current.end, true));
                    }
                }
                proof {
                    if closes {
                        let w = current.end;
                        lemma_unused_nonnegative(edges@, used@, w, count as int);
                        assert(unused_at(edges@, used@, w, count as int, true) - unused_at(
                            edges@,
                            used@,
                            w,
                            count as int,
                            false,
                        ) == 1);
                        lemma_unused_leaving(edges@, used@, w, count as int);
                        let i = choose|i: int| 0 <= i < count && !used@[i] && #[trigger] edges@[i].start == w;
                        assert(start_precedes(edges@[i], w, true));
                        assert(!start_precedes(edges@[i], w, false));
                        assert(open_candidate(used@, lower as int, upper as int, i));
                        assert(spec_direction(current) is Some) by {
                            assert(spec_direction(edges@[current_index as int]) is Some);
                        }
                    }
                }
                let chosen = next_edge(&edges, &used, current, lower, upper);
                proof {
                    if closes {
                        assert(exists|i: int| open_candidate(used@, lower as int, upper as int, i));
                        assert(spec_direction(current) is Some);
                        assert(forall|i: int|
                            open_candidate(used@, lower as int, upper as int, i) ==> spec_direction(
                                #[trigger] edges@[i],
                            ) is Some);
                        assert(chosen is Ok);
                    }
                }
                current_index = chosen?;
                proof {
                    let next = edges@[current_index as int];
                    assert(start_precedes(next, current.end, true));
                    assert(!start_precedes(next, current.end, false));
                    PointMicrometers::lemma_coordinates_determine(next.start, current.end);
                }
                proof {
                    let previous = trail;
                    trail = trail.push(current_index as int);
                    assert forall|j: int| 0 <= j < trail.len() - 1 implies used@[#[trigger] trail[j]] by {
                        if j < previous.len() - 1 {
                            assert(trail[j] == previous[j]);
                        }
                    }
                    assert forall|j: int, k: int| 0 <= j < k < trail.len() implies #[trigger] trail[j] != #[trigger] trail[k] by {
                        if k < previous.len() {
                            assert(trail[j] == previous[j] && trail[k] == previous[k]);
                        } else {
                            assert(used@[trail[j]]);
                        }
                    }
                    assert(vertices@ =~= trail_points(edges@, trail));
                }
            }
            let reduced_ring = remove_collinear_vertices(vertices);
            proof {
                if reduced_ring is Err {
                    assert(zero_area_trail(initial)) by {
                        assert(closed_trail(edges@, trail));
                        assert(edges@.to_multiset() == initial.to_multiset());
                    }
                }
            }
            let ring = reduced_ring?;
            let ghost reduced = ring@;
            let ring = canonicalize_oriented(ring);
            proof {
                lemma_canonical_rotation(reduced);
                lemma_seq_sum_push(rings@, ring, area_term());
                assert forall|j: int| 0 <= j < ring@.len() implies crate::planar::types::point_in_range(
                    #[trigger] ring@[j],
                ) by {
                    assert(reduced.contains(ring@[j]));
                }
                lemma_canonical_keeps_collinearity(reduced);
            }
            rings.push(ring);
            proof {
                assert forall|r: int| 0 <= r < rings@.len() implies valid_ring_vertices(
                    #[trigger] rings@[r]@,
                ) && starts_at_minimum(rings@[r]@) && no_collinear_vertex(rings@[r]@) by {
                    if r < rings@.len() - 1 {
                        assert(rings@[r] == rings@.drop_last()[r]);
                    }
                }
            }
        }
        first_index += 1;
    }
    let ghost unsorted = rings@;
    let rings = sort_vec(rings);
    proof {
        lemma_used_area_all(edges@, used@, count as int);
        assert(edges@.take(count as int) =~= edges@);
        lemma_seq_sum_permutation(unsorted, rings@, area_term());
        lemma_same_members(unsorted, rings@);
        assert forall|r: int| 0 <= r < rings@.len() implies valid_ring_vertices(
            #[trigger] rings@[r]@,
        ) && starts_at_minimum(rings@[r]@) && no_collinear_vertex(rings@[r]@) by {
            assert(unsorted.contains(rings@[r]));
        }
    }
    Ok(rings)
}

} // verus!
