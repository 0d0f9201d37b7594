//! Grouping traced rings into polygons: counter-clockwise rings become
//! exteriors, clockwise rings become holes of the smallest exterior that
//! contains them.

use vstd::prelude::*;

use crate::order::{
    lemma_map_permutation, lemma_same_members, lemma_seq_sum_permutation, lemma_seq_sum_push, seq_sum, sort_vec,
    sorted, LexOrder,
};
use crate::planar::predicates::{point_location, spec_point_location, PointLocation};
use crate::planar::tracing::{canonicalize_oriented, copy_vertices, lemma_canonical_rotation, starts_at_minimum};
use crate::planar::types::{
    points_in_range, points_seq_le, points_seq_less_or_equal, signed_double_area,
    spec_edge_cross_sum, spec_signed_double_area, valid_ring_vertices, PlanarError, PointMicrometers,
    polygons_area, rings_area, Polygon, RegionSet, Ring, MAX_BOUNDARY_EDGES, MAX_HOLE_CONTAINMENT_WORK,
};

verus! {

broadcast use vstd::seq_lib::group_to_multiset_ensures;

/// Checks that assigning `hole_count` holes against exteriors with
/// `exterior_vertex_count` vertices in total stays within `max` work units.
pub fn ensure_hole_containment_work(hole_count: usize, exterior_vertex_count: usize, max: u128) -> (result: Result<
    (),
    PlanarError,
>)
    ensures
        hole_count * exterior_vertex_count <= max ==> result is Ok,
        hole_count * exterior_vertex_count > max ==> result == Err::<(), PlanarError>(
            PlanarError::HoleContainmentWorkLimitExceeded {
                required: (hole_count * exterior_vertex_count) as u128,
                max,
            },
        ),
{
    let h = hole_count as u128;
    let e = exterior_vertex_count as u128;
    proof {
        assert(h * e <= u64::MAX as int * u64::MAX as int) by (nonlinear_arith)
            requires
                0 <= h <= u64::MAX,
                0 <= e <= u64::MAX,
        ;
    }
    let required = h * e;
    if required > max {
        return Err(PlanarError::HoleContainmentWorkLimitExceeded { required, max });
    }
    Ok(())
}

/// A ring with fewer than three vertices encloses no area.
pub proof fn lemma_short_ring_has_no_area(vertices: Seq<PointMicrometers>)
    requires
        vertices.len() < 3,
    ensures
        spec_signed_double_area(vertices) == 0,
{
    if vertices.len() == 1 {
        let x = vertices[0].spec_x() as int;
        let y = vertices[0].spec_y() as int;
        assert(x * y - y * x == 0) by (nonlinear_arith);
        assert(spec_edge_cross_sum(vertices, 0) == 0);
    } else if vertices.len() == 2 {
        let ax = vertices[0].spec_x() as int;
        let ay = vertices[0].spec_y() as int;
        let bx = vertices[1].spec_x() as int;
        let by = vertices[1].spec_y() as int;
        assert((ax * by - ay * bx) + (bx * ay - by * ax) == 0) by (nonlinear_arith);
        assert(spec_edge_cross_sum(vertices, 0) == 0);
        assert(spec_edge_cross_sum(vertices, 1) == ax * by - ay * bx);
    }
}

impl LexOrder for Polygon {
    open spec fn ordered_le(self, other: Self) -> bool {
        let a = self.spec_exterior().spec_vertices();
        let b = other.spec_exterior().spec_vertices();
        points_seq_le(a, b) && (points_seq_le(b, a) ==> self.spec_holes().len()
            <= other.spec_holes().len())
    }

    proof fn lemma_le_total(a: Self, b: Self) {
        crate::planar::types::lemma_points_seq_le_total(
            a.spec_exterior().spec_vertices(),
            b.spec_exterior().spec_vertices(),
        );
    }

    proof fn lemma_le_transitive(a: Self, b: Self, c: Self) {
        let va = a.spec_exterior().spec_vertices();
        let vb = b.spec_exterior().spec_vertices();
        let vc = c.spec_exterior().spec_vertices();
        crate::planar::types::lemma_points_seq_le_transitive(va, vb, vc);
        if points_seq_le(vc, va) {
            crate::planar::types::lemma_points_seq_le_transitive(vc, va, vb);
            crate::planar::types::lemma_points_seq_le_transitive(vb, vc, va);
        }
    }

    fn le(&self, other: &Self) -> (result: bool) {
        let a = self.exterior().vertices();
        let b = other.exterior().vertices();
        points_seq_less_or_equal(a, b) && (!points_seq_less_or_equal(b, a) || self.holes().len()
            <= other.holes().len())
    }
}

/// A ring that [`assemble_region`] can classify: in range and bounded.
pub open spec fn assemblable(ring: Seq<PointMicrometers>) -> bool {
    points_in_range(ring) && ring.len() <= MAX_BOUNDARY_EDGES
}

/// The signed double area of a ring given as a vertex list.
pub open spec fn area_term() -> spec_fn(Vec<PointMicrometers>) -> int {
    |ring: Vec<PointMicrometers>| spec_signed_double_area(ring@)
}

/// One for a ring of positive area, else zero.
pub open spec fn exterior_term() -> spec_fn(Vec<PointMicrometers>) -> int {
    |ring: Vec<PointMicrometers>| if spec_signed_double_area(ring@) > 0 {
        1int
    } else {
        0int
    }
}

/// The area of a polygon.
pub open spec fn polygon_term() -> spec_fn(Polygon) -> int {
    |polygon: Polygon| polygon.spec_area()
}

/// The total signed double area of rings given as vertex lists.
pub open spec fn lists_area(rings: Seq<Vec<PointMicrometers>>) -> int {
    seq_sum(rings, area_term())
}

/// The number of rings of positive area.
pub open spec fn exterior_count(rings: Seq<Vec<PointMicrometers>>) -> int {
    seq_sum(rings, exterior_term())
}

/// The area of the first `count` holes whose owner lies in `lo..hi`.
pub open spec fn owned_area(
    holes: Seq<Vec<PointMicrometers>>,
    owners: Seq<usize>,
    lo: int,
    hi: int,
    count: int,
) -> int
    decreases count,
{
    if count <= 0 {
        0
    } else {
        owned_area(holes, owners, lo, hi, count - 1) + if lo <= owners[count - 1] < hi {
            spec_signed_double_area(holes[count - 1]@)
        } else {
            0
        }
    }
}

/// Adjacent owner ranges add up.
proof fn lemma_owned_split(
    holes: Seq<Vec<PointMicrometers>>,
    owners: Seq<usize>,
    lo: int,
    mid: int,
    hi: int,
    count: int,
)
    requires
        lo <= mid <= hi,
    ensures
        owned_area(holes, owners, lo, mid, count) + owned_area(holes, owners, mid, hi, count)
            == owned_area(holes, owners, lo, hi, count),
    decreases count,
{
    if count > 0 {
        lemma_owned_split(holes, owners, lo, mid, hi, count - 1);
    }
}

/// An empty owner range owns nothing.
proof fn lemma_owned_empty(holes: Seq<Vec<PointMicrometers>>, owners: Seq<usize>, lo: int, count: int)
    ensures
        owned_area(holes, owners, lo, lo, count) == 0,
    decreases count,
{
    if count > 0 {
        lemma_owned_empty(holes, owners, lo, count - 1);
    }
}

/// When every owner lies below `hi`, the owned area is the area of all holes.
proof fn lemma_owned_all(holes: Seq<Vec<PointMicrometers>>, owners: Seq<usize>, hi: int, count: int)
    requires
        0 <= count <= holes.len(),
        count <= owners.len(),
        forall|h: int| 0 <= h < count ==> #[trigger] owners[h] < hi,
    ensures
        owned_area(holes, owners, 0, hi, count) == lists_area(holes.take(count)),
    decreases count,
{
    if count > 0 {
        lemma_owned_all(holes, owners, hi, count - 1);
        assert(holes.take(count).drop_last() =~= holes.take(count - 1));
    }
}

/// Polygon areas sum like any other terms.
proof fn lemma_polygons_area_sum(polygons: Seq<Polygon>)
    ensures
        polygons_area(polygons) == seq_sum(polygons, polygon_term()),
    decreases polygons.len(),
{
    if polygons.len() > 0 {
        lemma_polygons_area_sum(polygons.drop_last());
    }
}

/// Hole ring areas sum like the vertex lists they were built from.
proof fn lemma_rings_area_lists(rings: Seq<Ring>, lists: Seq<Vec<PointMicrometers>>)
    requires
        rings.len() == lists.len(),
        forall|i: int| 0 <= i < rings.len() ==> (#[trigger] rings[i]).spec_vertices() == lists[i]@,
    ensures
        rings_area(rings) == lists_area(lists),
    decreases rings.len(),
{
    if rings.len() > 0 {
        lemma_rings_area_lists(rings.drop_last(), lists.drop_last());
    }
}

/// The vertex sequences of rings given as vertex lists.
pub open spec fn vertex_lists(rings: Seq<Vec<PointMicrometers>>) -> Seq<Seq<PointMicrometers>> {
    rings.map_values(|ring: Vec<PointMicrometers>| ring@)
}

/// The canonical rotations of the rings among the first `count` whose signed
/// area is positive (or, for `positive` false, negative), in input order.
pub open spec fn oriented_rings(rings: Seq<Vec<PointMicrometers>>, count: int, positive: bool) -> Seq<
    Seq<PointMicrometers>,
>
    decreases count,
{
    if count <= 0 {
        Seq::empty()
    } else {
        let earlier = oriented_rings(rings, count - 1, positive);
        let area = spec_signed_double_area(rings[count - 1]@);
        if (positive && area > 0) || (!positive && area < 0) {
            earlier.push(crate::planar::tracing::canonical_rotation(rings[count - 1]@))
        } else {
            earlier
        }
    }
}

/// The exterior rings that [`assemble_region`] forms polygons around.
pub open spec fn region_exteriors(rings: Seq<Vec<PointMicrometers>>) -> Seq<Seq<PointMicrometers>> {
    oriented_rings(rings, rings.len() as int, true)
}

/// The hole rings that [`assemble_region`] assigns to exteriors.
pub open spec fn region_holes(rings: Seq<Vec<PointMicrometers>>) -> Seq<Seq<PointMicrometers>> {
    oriented_rings(rings, rings.len() as int, false)
}

/// Among the first `count` exteriors, the one of least area that contains
/// `sample` inside or on its boundary; the earliest among equals.
pub open spec fn smallest_container(
    exteriors: Seq<Seq<PointMicrometers>>,
    sample: PointMicrometers,
    count: int,
) -> Option<int>
    decreases count,
{
    if count <= 0 {
        None
    } else {
        let earlier = smallest_container(exteriors, sample, count - 1);
        if spec_point_location(sample, exteriors[count - 1]) != PointLocation::Outside {
            match earlier {
                None => Some(count - 1),
                Some(o) => if spec_signed_double_area(exteriors[count - 1]) < spec_signed_double_area(exteriors[o]) {
                    Some(count - 1)
                } else {
                    Some(o)
                },
            }
        } else {
            earlier
        }
    }
}

/// The first `count` holes whose first vertex has exterior `e` as its
/// smallest container, in order.
pub open spec fn owned_holes(
    exteriors: Seq<Seq<PointMicrometers>>,
    holes: Seq<Seq<PointMicrometers>>,
    e: int,
    count: int,
) -> Seq<Seq<PointMicrometers>>
    decreases count,
{
    if count <= 0 {
        Seq::empty()
    } else {
        let earlier = owned_holes(exteriors, holes, e, count - 1);
        if smallest_container(exteriors, holes[count - 1][0], exteriors.len() as int) == Some(e) {
            earlier.push(holes[count - 1])
        } else {
            earlier
        }
    }
}

/// The vertex sequences are in lexicographic order.
pub open spec fn lists_sorted(lists: Seq<Seq<PointMicrometers>>) -> bool {
    forall|i: int, j: int| 0 <= i < j < lists.len() ==> points_seq_le(#[trigger] lists[i], #[trigger] lists[j])
}

/// The polygon is exterior `e` of the region's rings with, in lexicographic
/// order, exactly the holes that have `e` as their smallest container.
pub open spec fn polygon_of(rings: Seq<Vec<PointMicrometers>>, polygon: Polygon, e: int) -> bool {
    let exteriors = region_exteriors(rings);
    let holes = region_holes(rings);
    let hole_vertices = crate::mesh::triangulate::ring_views(polygon.spec_holes());
    &&& 0 <= e < exteriors.len()
    &&& polygon.spec_exterior().spec_vertices() == exteriors[e]
    &&& lists_sorted(hole_vertices)
    &&& hole_vertices.to_multiset() == owned_holes(exteriors, holes, e, holes.len() as int).to_multiset()
}

/// The polygon is formed around one of the region's exteriors.
pub open spec fn assembled_polygon(rings: Seq<Vec<PointMicrometers>>, polygon: Polygon) -> bool {
    exists|e: int| #[trigger] polygon_of(rings, polygon, e)
}

/// The polygon's exterior and holes each start at their smallest vertex, and
/// the holes are in lexicographic order.
pub open spec fn polygon_canonical(polygon: Polygon) -> bool {
    let holes = crate::mesh::triangulate::ring_views(polygon.spec_holes());
    &&& starts_at_minimum(polygon.spec_exterior().spec_vertices())
    &&& forall|h: int| 0 <= h < holes.len() ==> starts_at_minimum(#[trigger] holes[h])
    &&& lists_sorted(holes)
}

/// Every oriented ring is a canonical rotation, starting at its minimum.
proof fn lemma_oriented_canonical(rings: Seq<Vec<PointMicrometers>>, count: int, positive: bool)
    ensures
        forall|i: int|
            0 <= i < oriented_rings(rings, count, positive).len() ==> starts_at_minimum(
                #[trigger] oriented_rings(rings, count, positive)[i],
            ),
    decreases count,
{
    if count > 0 {
        lemma_oriented_canonical(rings, count - 1, positive);
        let ring = rings[count - 1]@;
        let area = spec_signed_double_area(ring);
        if (positive && area > 0) || (!positive && area < 0) {
            if ring.len() == 0 {
                assert(spec_signed_double_area(ring) == 0);
            }
            lemma_canonical_rotation(ring);
            let earlier = oriented_rings(rings, count - 1, positive);
            assert forall|i: int| 0 <= i < oriented_rings(rings, count, positive).len() implies starts_at_minimum(
                #[trigger] oriented_rings(rings, count, positive)[i],
            ) by {
                if i < earlier.len() {
                    assert(oriented_rings(rings, count, positive)[i] == earlier[i]);
                }
            }
        } else {
            assert(oriented_rings(rings, count, positive) == oriented_rings(rings, count - 1, positive));
        }
    }
}

/// The holes an exterior owns are among the holes.
proof fn lemma_owned_among(
    exteriors: Seq<Seq<PointMicrometers>>,
    holes: Seq<Seq<PointMicrometers>>,
    e: int,
    count: int,
)
    requires
        count <= holes.len(),
    ensures
        forall|i: int|
            0 <= i < owned_holes(exteriors, holes, e, count).len() ==> holes.contains(
                #[trigger] owned_holes(exteriors, holes, e, count)[i],
            ),
    decreases count,
{
    if count > 0 {
        lemma_owned_among(exteriors, holes, e, count - 1);
        let earlier = owned_holes(exteriors, holes, e, count - 1);
        assert forall|i: int| 0 <= i < owned_holes(exteriors, holes, e, count).len() implies holes.contains(
            #[trigger] owned_holes(exteriors, holes, e, count)[i],
        ) by {
            if i < earlier.len() {
                assert(owned_holes(exteriors, holes, e, count)[i] == earlier[i]);
            } else {
                assert(holes[count - 1] == owned_holes(exteriors, holes, e, count)[i]);
            }
        }
    }
}

/// A polygon formed around an exterior of the region is canonical.
proof fn lemma_assembled_canonical(rings: Seq<Vec<PointMicrometers>>, polygon: Polygon, e: int)
    requires
        polygon_of(rings, polygon, e),
    ensures
        polygon_canonical(polygon),
{
    let exteriors = region_exteriors(rings);
    let holes = region_holes(rings);
    let hole_vertices = crate::mesh::triangulate::ring_views(polygon.spec_holes());
    let owned = owned_holes(exteriors, holes, e, holes.len() as int);
    lemma_oriented_canonical(rings, rings.len() as int, true);
    lemma_oriented_canonical(rings, rings.len() as int, false);
    lemma_owned_among(exteriors, holes, e, holes.len() as int);
    assert(starts_at_minimum(exteriors[e]));
    assert forall|h: int| 0 <= h < hole_vertices.len() implies starts_at_minimum(#[trigger] hole_vertices[h]) by {
        assert(hole_vertices.to_multiset().count(hole_vertices[h]) > 0);
        assert(owned.to_multiset().count(hole_vertices[h]) > 0);
        assert(owned.contains(hole_vertices[h]));
        let k = choose|k: int| 0 <= k < owned.len() && owned[k] == hole_vertices[h];
        assert(holes.contains(owned[k]));
        let m = choose|m: int| 0 <= m < holes.len() && holes[m] == owned[k];
        assert(starts_at_minimum(holes[m]));
    }
}

/// The total vertex count of the first `count` rings.
pub open spec fn lists_vertex_total(lists: Seq<Seq<PointMicrometers>>, count: int) -> int
    decreases count,
{
    if count <= 0 {
        0
    } else {
        lists_vertex_total(lists, count - 1) + lists[count - 1].len()
    }
}

/// Vertex totals only grow with more rings.
proof fn lemma_vertex_total_grows(lists: Seq<Seq<PointMicrometers>>, short: int, long: int)
    requires
        0 <= short <= long,
    ensures
        lists_vertex_total(lists, short) <= lists_vertex_total(lists, long),
    decreases long - short,
{
    if short < long {
        lemma_vertex_total_grows(lists, short, long - 1);
    }
}

/// The rings can be grouped: none has zero area, the exteriors' vertex total
/// fits in `usize`, the hole containment work stays within its limit, and
/// every hole's first vertex lies in some exterior.
pub open spec fn region_assemblable(rings: Seq<Vec<PointMicrometers>>) -> bool {
    let exteriors = region_exteriors(rings);
    let holes = region_holes(rings);
    let total = lists_vertex_total(exteriors, exteriors.len() as int);
    &&& forall|r: int| 0 <= r < rings.len() ==> spec_signed_double_area(#[trigger] rings[r]@) != 0
    &&& total <= usize::MAX
    &&& holes.len() * total <= MAX_HOLE_CONTAINMENT_WORK
    &&& forall|h: int|
        0 <= h < holes.len() ==> (#[trigger] smallest_container(exteriors, holes[h][0], exteriors.len() as int)) is Some
}

/// Groups rings into polygons. Counter-clockwise rings become exteriors;
/// each clockwise ring becomes a hole of the smallest exterior containing its
/// first vertex. Holes are ordered lexicographically within a polygon, and
/// polygons by exterior, then by hole count.
pub fn assemble_region(rings: Vec<Vec<PointMicrometers>>) -> (result: Result<RegionSet, PlanarError>)
    requires
        rings@.len() <= MAX_BOUNDARY_EDGES,
        forall|r: int| 0 <= r < rings@.len() ==> assemblable(#[trigger] rings@[r]@),
    ensures
        result matches Ok(region) ==> {
            &&& region.spec_polygons().len() == exterior_count(rings@)
            &&& sorted(region.spec_polygons())
            &&& polygons_area(region.spec_polygons()) == lists_area(rings@)
            &&& forall|i: int|
                0 <= i < region.spec_polygons().len() ==> assembled_polygon(
                    rings@,
                    #[trigger] region.spec_polygons()[i],
                )
            &&& forall|i: int| 0 <= i < region.spec_polygons().len() ==> polygon_canonical(#[trigger] region.spec_polygons()[i])
        },
        (exists|r: int| 0 <= r < rings@.len() && spec_signed_double_area(#[trigger] rings@[r]@) == 0)
            ==> result is Err,
        result is Ok <==> region_assemblable(rings@),
{
    let mut exteriors: Vec<Vec<PointMicrometers>> = Vec::new();
    let mut holes: Vec<Vec<PointMicrometers>> = Vec::new();
    let mut index: usize = 0;
    while index < rings.len()
        invariant
            0 <= index <= rings@.len(),
            rings@.len() <= MAX_BOUNDARY_EDGES,
            forall|r: int| 0 <= r < rings@.len() ==> assemblable(#[trigger] rings@[r]@),
            forall|r: int| 0 <= r < index ==> spec_signed_double_area(#[trigger] rings@[r]@) != 0,
            exteriors@.len() + holes@.len() == index,
            lists_area(exteriors@) + lists_area(holes@) == lists_area(rings@.take(index as int)),
            exteriors@.len() == exterior_count(rings@.take(index as int)),
            vertex_lists(exteriors@) == oriented_rings(rings@, index as int, true),
            vertex_lists(holes@) == oriented_rings(rings@, index as int, false),
            forall|e: int|
                0 <= e < exteriors@.len() ==> valid_ring_vertices(#[trigger] exteriors@[e]@)
                    && spec_signed_double_area(exteriors@[e]@) > 0,
            forall|h: int|
                0 <= h < holes@.len() ==> valid_ring_vertices(#[trigger] holes@[h]@)
                    && spec_signed_double_area(holes@[h]@) < 0,
        decreases rings@.len() - index,
    {
        proof {
            assert(assemblable(rings@[index as int]@));
        }
        let area = signed_double_area(rings[index].as_slice());
        if area == 0 {
            return Err(PlanarError::InvalidTopology("a traced ring has zero signed area"));
        }
        let ghost source = rings@[index as int]@;
        proof {
            if source.len() < 3 {
                lemma_short_ring_has_no_area(source);
            }
            lemma_canonical_rotation(source);
        }
        let ring = canonicalize_oriented(copy_vertices(rings[index].as_slice()));
        let ghost taken = rings@.take(index as int);
        let ghost exteriors_before = exteriors@;
        let ghost holes_before = holes@;
        proof {
            assert(rings@.take(index + 1) =~= taken.push(rings@[index as int]));
            lemma_seq_sum_push(taken, rings@[index as int], area_term());
            lemma_seq_sum_push(taken, rings@[index as int], exterior_term());
            assert(spec_signed_double_area(ring@) == spec_signed_double_area(source));
            assert forall|j: int| 0 <= j < ring@.len() implies crate::planar::types::point_in_range(
                #[trigger] ring@[j],
            ) by {
                assert(source.contains(ring@[j]));
            }
        }
        if area > 0 {
            exteriors.push(ring);
            proof {
                assert(vertex_lists(exteriors@) =~= vertex_lists(exteriors_before).push(ring@));
                assert(vertex_lists(holes@) == oriented_rings(rings@, index + 1, false));
                lemma_seq_sum_push(exteriors_before, ring, area_term());
                assert forall|e: int| 0 <= e < exteriors@.len() implies valid_ring_vertices(
                    #[trigger] exteriors@[e]@,
                ) && spec_signed_double_area(exteriors@[e]@) > 0 by {
                    if e < exteriors@.len() - 1 {
                        assert(exteriors@[e] == exteriors@.drop_last()[e]);
                    }
                }
            }
        } else {
            holes.push(ring);
            proof {
                assert(vertex_lists(holes@) =~= vertex_lists(holes_before).push(ring@));
                assert(vertex_lists(exteriors@) == oriented_rings(rings@, index + 1, true));
                lemma_seq_sum_push(holes_before, ring, area_term());
                assert forall|h: int| 0 <= h < holes@.len() implies valid_ring_vertices(
                    #[trigger] holes@[h]@,
                ) && spec_signed_double_area(holes@[h]@) < 0 by {
                    if h < holes@.len() - 1 {
                        assert(holes@[h] == holes@.drop_last()[h]);
                    }
                }
            }
        }
        index += 1;
    }
    proof {
        assert(rings@.take(index as int) =~= rings@);
    }
    let ghost exterior_lists = vertex_lists(exteriors@);
    proof {
        assert(exterior_lists == region_exteriors(rings@));
        assert(vertex_lists(holes@) == region_holes(rings@));
    }
    let mut exterior_vertex_count: usize = 0;
    let mut e: usize = 0;
    while e < exteriors.len()
        invariant
            0 <= e <= exteriors@.len(),
            exterior_lists == vertex_lists(exteriors@),
            exterior_lists == region_exteriors(rings@),
            exterior_vertex_count == lists_vertex_total(exterior_lists, e as int),
        decreases exteriors@.len() - e,
    {
        proof {
            assert(exterior_lists[e as int] == exteriors@[e as int]@);
        }
        exterior_vertex_count = match exterior_vertex_count.checked_add(exteriors[e].len()) {
            Some(total) => total,
            None => {
                proof {
                    lemma_vertex_total_grows(exterior_lists, e + 1, exterior_lists.len() as int);
                }
                return Err(PlanarError::ArithmeticOverflow);
            },
        };
        e += 1;
    }
    match ensure_hole_containment_work(holes.len(), exterior_vertex_count, MAX_HOLE_CONTAINMENT_WORK) {
        Ok(()) => {},
        Err(error) => {
            return Err(error);
        },
    }
    let mut magnitudes: Vec<i128> = Vec::new();
    let mut e: usize = 0;
    while e < exteriors.len()
        invariant
            0 <= e <= exteriors@.len(),
            vertex_lists(exteriors@) == region_exteriors(rings@),
            vertex_lists(holes@) == region_holes(rings@),
            magnitudes@.len() == e,
            forall|k: int|
                0 <= k < exteriors@.len() ==> valid_ring_vertices(#[trigger] exteriors@[k]@)
                    && spec_signed_double_area(exteriors@[k]@) > 0,
            forall|k: int| 0 <= k < e ==> #[trigger] magnitudes@[k] == spec_signed_double_area(exteriors@[k]@),
        decreases exteriors@.len() - e,
    {
        proof {
            assert(valid_ring_vertices(exteriors@[e as int]@));
        }
        magnitudes.push(signed_double_area(exteriors[e].as_slice()));
        e += 1;
    }
    let mut owners: Vec<usize> = Vec::new();
    let mut h: usize = 0;
    while h < holes.len()
        invariant
            0 <= h <= holes@.len(),
            vertex_lists(exteriors@) == region_exteriors(rings@),
            vertex_lists(holes@) == region_holes(rings@),
            owners@.len() == h,
            magnitudes@.len() == exteriors@.len(),
            forall|k: int| 0 <= k < h ==> #[trigger] owners@[k] < exteriors@.len(),
            forall|k: int|
                0 <= k < exteriors@.len() ==> #[trigger] magnitudes@[k] == spec_signed_double_area(exteriors@[k]@),
            forall|k: int|
                0 <= k < h ==> smallest_container(
                    vertex_lists(exteriors@),
                    #[trigger] holes@[k]@[0],
                    exteriors@.len() as int,
                ) == Some(owners@[k] as int),
            forall|k: int|
                0 <= k < exteriors@.len() ==> valid_ring_vertices(#[trigger] exteriors@[k]@),
            forall|k: int| 0 <= k < holes@.len() ==> valid_ring_vertices(#[trigger] holes@[k]@),
        decreases holes@.len() - h,
    {
        proof {
            assert(valid_ring_vertices(holes@[h as int]@));
        }
        let sample = holes[h][0];
        let mut owner: Option<usize> = None;
        let mut best: i128 = 0;
        let mut e: usize = 0;
        while e < exteriors.len()
            invariant
                0 <= e <= exteriors@.len(),
                magnitudes@.len() == exteriors@.len(),
                crate::planar::types::point_in_range(sample),
                forall|k: int|
                    0 <= k < exteriors@.len() ==> valid_ring_vertices(#[trigger] exteriors@[k]@),
                owner matches Some(o) ==> o < exteriors@.len() && best == spec_signed_double_area(exteriors@[o as int]@),
                forall|k: int|
                    0 <= k < exteriors@.len() ==> #[trigger] magnitudes@[k] == spec_signed_double_area(
                        exteriors@[k]@,
                    ),
                smallest_container(vertex_lists(exteriors@), sample, e as int) == match owner {
                    Some(o) => Some(o as int),
                    None => None::<int>,
                },
            decreases exteriors@.len() - e,
        {
            proof {
                assert(valid_ring_vertices(exteriors@[e as int]@));
            }
            let location = point_location(sample, exteriors[e].as_slice());
            if location == PointLocation::Inside || location == PointLocation::Boundary {
                let magnitude = magnitudes[e];
                match owner {
                    None => {
                        owner = Some(e);
                        best = magnitude;
                    },
                    Some(_) => {
                        if magnitude < best {
                            owner = Some(e);
                            best = magnitude;
                        }
                    },
                }
            }
            e += 1;
        }
        match owner {
            None => {
                proof {
                    assert(vertex_lists(holes@)[h as int] == holes@[h as int]@);
                }
                return Err(
                    PlanarError::InvalidTopology("a hole is not contained by an exterior ring"),
                );
            },
            Some(o) => {
                let ghost owners_before = owners@;
                owners.push(o);
                proof {
                    assert forall|k: int| 0 <= k < h + 1 implies smallest_container(
                        vertex_lists(exteriors@),
                        #[trigger] holes@[k]@[0],
                        exteriors@.len() as int,
                    ) == Some(owners@[k] as int) by {
                        if k < h {
                            assert(owners@[k] == owners_before[k]);
                        }
                    }
                }
            },
        }
        h += 1;
    }
    let mut polygons: Vec<Polygon> = Vec::new();
    let mut e: usize = 0;
    proof {
        lemma_owned_empty(holes@, owners@, 0, holes@.len() as int);
        assert(exteriors@.take(0) =~= Seq::<Vec<PointMicrometers>>::empty());
    }
    while e < exteriors.len()
        invariant
            0 <= e <= exteriors@.len(),
            polygons@.len() == e,
            exteriors@.len() + holes@.len() <= MAX_BOUNDARY_EDGES,
            owners@.len() == holes@.len(),
            forall|k: int|
                0 <= k < exteriors@.len() ==> valid_ring_vertices(#[trigger] exteriors@[k]@)
                    && spec_signed_double_area(exteriors@[k]@) > 0,
            forall|k: int|
                0 <= k < holes@.len() ==> valid_ring_vertices(#[trigger] holes@[k]@)
                    && spec_signed_double_area(holes@[k]@) < 0,
            forall|k: int| 0 <= k < polygons@.len() ==> (#[trigger] polygons@[k]).wf(),
            forall|k: int| 0 <= k < owners@.len() ==> #[trigger] owners@[k] < exteriors@.len(),
            vertex_lists(exteriors@) == region_exteriors(rings@),
            vertex_lists(holes@) == region_holes(rings@),
            forall|k: int|
                0 <= k < holes@.len() ==> smallest_container(
                    vertex_lists(exteriors@),
                    #[trigger] holes@[k]@[0],
                    exteriors@.len() as int,
                ) == Some(owners@[k] as int),
            forall|k: int| 0 <= k < e ==> #[trigger] polygon_of(rings@, polygons@[k], k),
            polygons_area(polygons@) == lists_area(exteriors@.take(e as int)) + owned_area(
                holes@,
                owners@,
                0,
                e as int,
                holes@.len() as int,
            ),
        decreases exteriors@.len() - e,
    {
        let mut own: Vec<Vec<PointMicrometers>> = Vec::new();
        let mut k: usize = 0;
        while k < holes.len()
            invariant
                0 <= k <= holes@.len(),
                owners@.len() == holes@.len(),
                own@.len() <= k,
                forall|j: int|
                    0 <= j < holes@.len() ==> valid_ring_vertices(#[trigger] holes@[j]@)
                        && spec_signed_double_area(holes@[j]@) < 0,
                forall|j: int|
                    0 <= j < own@.len() ==> valid_ring_vertices(#[trigger] own@[j]@)
                        && spec_signed_double_area(own@[j]@) < 0,
                lists_area(own@) == owned_area(holes@, owners@, e as int, e + 1, k as int),
                e < exteriors@.len(),
                forall|j: int|
                    0 <= j < holes@.len() ==> smallest_container(
                        vertex_lists(exteriors@),
                        #[trigger] holes@[j]@[0],
                        exteriors@.len() as int,
                    ) == Some(owners@[j] as int),
                vertex_lists(own@) == owned_holes(vertex_lists(exteriors@), vertex_lists(holes@), e as int, k as int),
            decreases holes@.len() - k,
        {
            let ghost own_before = own@;
            proof {
                assert(vertex_lists(holes@)[k as int] == holes@[k as int]@);
            }
            if owners[k] == e {
                let copy = copy_vertices(holes[k].as_slice());
                own.push(copy);
                proof {
                    assert(vertex_lists(own@) =~= vertex_lists(own_before).push(copy@));
                    lemma_seq_sum_push(own_before, copy, area_term());
                    assert forall|j: int| 0 <= j < own@.len() implies valid_ring_vertices(
                        #[trigger] own@[j]@,
                    ) && spec_signed_double_area(own@[j]@) < 0 by {
                        if j < own@.len() - 1 {
                            assert(own@[j] == own@.drop_last()[j]);
                        } else {
                            assert(valid_ring_vertices(holes@[k as int]@));
                        }
                    }
                }
            }
            k += 1;
        }
        let ghost unsorted = own@;
        let own = sort_vec(own);
        proof {
            lemma_same_members(unsorted, own@);
            lemma_seq_sum_permutation(unsorted, own@, area_term());
            lemma_map_permutation(own@, unsorted, |ring: Vec<PointMicrometers>| ring@);
        }
        let mut hole_rings: Vec<Ring> = Vec::new();
        let mut j: usize = 0;
        while j < own.len()
            invariant
                0 <= j <= own@.len(),
                hole_rings@.len() == j,
                forall|i: int| 0 <= i < own@.len() ==> unsorted.contains(#[trigger] own@[i]),
                forall|i: int|
                    0 <= i < unsorted.len() ==> valid_ring_vertices(#[trigger] unsorted[i]@)
                        && spec_signed_double_area(unsorted[i]@) < 0,
                forall|i: int|
                    0 <= i < hole_rings@.len() ==> valid_ring_vertices(
                        #[trigger] hole_rings@[i].spec_vertices(),
                    ) && hole_rings@[i].spec_area() < 0,
                forall|i: int| 0 <= i < hole_rings@.len() ==> (#[trigger] hole_rings@[i]).spec_vertices() == own@[i]@,
            decreases own@.len() - j,
        {
            proof {
                assert(unsorted.contains(own@[j as int]));
            }
            hole_rings.push(Ring::from_oriented_vertices(copy_vertices(own[j].as_slice())));
            proof {
                assert forall|i: int| 0 <= i < hole_rings@.len() implies valid_ring_vertices(
                    #[trigger] hole_rings@[i].spec_vertices(),
                ) && hole_rings@[i].spec_area() < 0 by {
                    if i < hole_rings@.len() - 1 {
                        assert(hole_rings@[i] == hole_rings@.drop_last()[i]);
                    }
                }
            }
            j += 1;
        }
        proof {
            assert(valid_ring_vertices(exteriors@[e as int]@));
        }
        let exterior = Ring::from_oriented_vertices(copy_vertices(exteriors[e].as_slice()));
        proof {
            lemma_rings_area_lists(hole_rings@, own@);
        }
        let ghost polygons_before = polygons@;
        proof {
            let views = crate::mesh::triangulate::ring_views(hole_rings@);
            assert(views =~= vertex_lists(own@));
            assert forall|a: int, b: int| 0 <= a < b < views.len() implies points_seq_le(
                #[trigger] views[a],
                #[trigger] views[b],
            ) by {
                assert(own@[a].ordered_le(own@[b]));
            }
        }
        let polygon = Polygon::from_oriented_rings(exterior, hole_rings);
        polygons.push(polygon);
        proof {
            assert(polygon_of(rings@, polygon, e as int));
            assert forall|k: int| 0 <= k < e + 1 implies #[trigger] polygon_of(rings@, polygons@[k], k) by {
                if k < e {
                    assert(polygons@[k] == polygons_before[k]);
                }
            }
            assert(polygons@.drop_last() =~= polygons_before);
            assert(exteriors@.take(e + 1) =~= exteriors@.take(e as int).push(exteriors@[e as int]));
            lemma_seq_sum_push(exteriors@.take(e as int), exteriors@[e as int], area_term());
            lemma_owned_split(holes@, owners@, 0, e as int, e + 1, holes@.len() as int);
            assert forall|k: int| 0 <= k < polygons@.len() implies (#[trigger] polygons@[k]).wf() by {
                if k < polygons@.len() - 1 {
                    assert(polygons@[k] == polygons@.drop_last()[k]);
                }
            }
        }
        e += 1;
    }
    proof {
        assert(exteriors@.take(e as int) =~= exteriors@);
        lemma_owned_all(holes@, owners@, exteriors@.len() as int, holes@.len() as int);
        assert(holes@.take(holes@.len() as int) =~= holes@);
    }
    let ghost unsorted = polygons@;
    let polygons = sort_vec(polygons);
    proof {
        lemma_same_members(unsorted, polygons@);
        assert forall|i: int| 0 <= i < polygons@.len() implies assembled_polygon(
            rings@,
            #[trigger] polygons@[i],
        ) by {
            assert(unsorted.contains(polygons@[i]));
            let k = choose|k: int| 0 <= k < unsorted.len() && unsorted[k] == polygons@[i];
            assert(polygon_of(rings@, unsorted[k], k));
        }
        assert forall|i: int| 0 <= i < polygons@.len() implies polygon_canonical(#[trigger] polygons@[i]) by {
            assert(unsorted.contains(polygons@[i]));
            let k = choose|k: int| 0 <= k < unsorted.len() && unsorted[k] == polygons@[i];
            assert(polygon_of(rings@, unsorted[k], k));
            lemma_assembled_canonical(rings@, polygons@[i], k);
        }
        lemma_polygons_area_sum(unsorted);
        lemma_polygons_area_sum(polygons@);
        lemma_seq_sum_permutation(unsorted, polygons@, polygon_term());
        assert forall|k: int| 0 <= k < polygons@.len() implies (#[trigger] polygons@[k]).wf() by {
            assert(unsorted.contains(polygons@[k]));
        }
    }
    Ok(RegionSet::from_polygons(polygons))
}

} // verus!
