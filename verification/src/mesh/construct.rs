//! Direct boundary construction of the part meshes, with resource preflight,
//! canonicalization and invariant validation.

use vstd::prelude::*;

use crate::mesh::types::{MeshError, MeshOptions, MeshPart, PartModel, Triangle, TriangleMesh, VertexMicrometers};
use crate::mesh::{MAX_INPUT_CONTOUR_VERTICES, MAX_MESH_TRIANGLES, MAX_MESH_VERTICES};
use crate::order::{sort_vec, lemma_same_members, LexOrder};
use crate::mesh::exact::WorkBudget;
use crate::mesh::triangulate::{positively_oriented, ring_views, triangles_area, triangulate_rings, triangulation_fits};
use crate::planar::types::{
    coordinate_in_range, point_in_range, point_less, points_in_range, PlanarPartition, PointMicrometers, Polygon,
    RectMicrometers, Ring, valid_ring_vertices,
};

verus! {

broadcast use vstd::seq_lib::group_to_multiset_ensures;

/// Vertex, hole and cap-triangle counts of one polygon.
#[derive(Debug, Clone, Copy)]
pub struct PolygonStats {
    pub vertices: usize,
    pub holes: usize,
    pub cap_triangles: usize,
}

/// Vertex counts of the rings of a polygon's first `count` holes.
pub open spec fn holes_vertex_count(holes: Seq<Ring>, count: int) -> int
    decreases count,
{
    if count <= 0 {
        0
    } else {
        holes_vertex_count(holes, count - 1) + holes[count - 1].spec_vertices().len()
    }
}

/// The ring vertices of a polygon: its exterior's and all its holes'.
pub open spec fn polygon_vertex_count(polygon: Polygon) -> int {
    polygon.spec_exterior().spec_vertices().len() + holes_vertex_count(
        polygon.spec_holes(),
        polygon.spec_holes().len() as int,
    )
}

/// The ring vertices of the first `count` polygons.
pub open spec fn polygons_vertex_count(polygons: Seq<Polygon>, count: int) -> int
    decreases count,
{
    if count <= 0 {
        0
    } else {
        polygons_vertex_count(polygons, count - 1) + polygon_vertex_count(polygons[count - 1])
    }
}

/// The holes of the first `count` polygons.
pub open spec fn polygons_hole_count(polygons: Seq<Polygon>, count: int) -> int
    decreases count,
{
    if count <= 0 {
        0
    } else {
        polygons_hole_count(polygons, count - 1) + polygons[count - 1].spec_holes().len()
    }
}

/// The cap triangles of the first `count` polygons.
pub open spec fn polygons_cap_count(polygons: Seq<Polygon>, count: int) -> int
    decreases count,
{
    if count <= 0 {
        0
    } else {
        polygons_cap_count(polygons, count - 1) + polygon_vertex_count(polygons[count - 1]) + 2
            * polygons[count - 1].spec_holes().len() - 2
    }
}

/// The contour vertices that bridging all of a partition's rings produces,
/// with the four footprint corners.
pub open spec fn contour_vertex_demand(partition: PlanarPartition) -> int {
    let substrate = partition.spec_substrate_upper().spec_polygons();
    let fill = partition.spec_fill_parts();
    polygons_vertex_count(substrate, substrate.len() as int) + polygons_vertex_count(fill, fill.len() as int) + 2 * (
    polygons_hole_count(substrate, substrate.len() as int) + polygons_hole_count(fill, fill.len() as int)) + 4
}

/// Hole vertex counts never shrink as holes are added.
proof fn lemma_holes_vertex_count_grows(holes: Seq<Ring>, count: int, more: int)
    requires
        0 <= count <= more,
    ensures
        0 <= holes_vertex_count(holes, count) <= holes_vertex_count(holes, more),
    decreases more,
{
    if more > count {
        lemma_holes_vertex_count_grows(holes, count, more - 1);
    } else if count > 0 {
        lemma_holes_vertex_count_grows(holes, count - 1, count - 1);
    }
}

/// Partial polygon totals never exceed the full totals, and caps stay within
/// the vertex and hole totals.
proof fn lemma_polygon_totals_grow(polygons: Seq<Polygon>, count: int, more: int)
    requires
        0 <= count <= more <= polygons.len(),
        forall|i: int| 0 <= i < polygons.len() ==> (#[trigger] polygons[i]).wf(),
    ensures
        0 <= polygons_vertex_count(polygons, count) <= polygons_vertex_count(polygons, more),
        0 <= polygons_hole_count(polygons, count) <= polygons_hole_count(polygons, more),
        0 <= polygons_cap_count(polygons, count) <= polygons_cap_count(polygons, more),
        polygons_cap_count(polygons, more) <= polygons_vertex_count(polygons, more) + 2 * polygons_hole_count(
            polygons,
            more,
        ),
    decreases more,
{
    if more > 0 {
        let last = polygons[more - 1];
        assert(last.wf());
        lemma_holes_vertex_count_grows(last.spec_holes(), 0, last.spec_holes().len() as int);
        assert(last.spec_exterior().spec_vertices().len() >= 3);
        if more > count {
            lemma_polygon_totals_grow(polygons, count, more - 1);
        } else {
            lemma_polygon_totals_grow(polygons, more - 1, more - 1);
        }
    }
}

/// Counts a polygon's ring vertices, holes and cap triangles (one per
/// vertex, plus two per bridged hole, less two).
pub fn polygon_stats(polygon: &Polygon) -> (result: Result<PolygonStats, MeshError>)
    ensures
        result matches Ok(stats) ==> {
            &&& stats.vertices == polygon.spec_exterior().spec_vertices().len() + holes_vertex_count(
                polygon.spec_holes(),
                polygon.spec_holes().len() as int,
            )
            &&& stats.holes == polygon.spec_holes().len()
            &&& stats.cap_triangles == stats.vertices + 2 * stats.holes - 2
        },
        result is Err ==> result == Err::<PolygonStats, MeshError>(MeshError::ArithmeticOverflow),
        polygon.wf() && polygon_vertex_count(*polygon) + 2 * polygon.spec_holes().len() <= usize::MAX ==> result is Ok,
{
    proof {
        lemma_holes_vertex_count_grows(polygon.spec_holes(), 0, polygon.spec_holes().len() as int);
    }
    let exterior = polygon.exterior();
    let holes = polygon.holes();
    let mut vertices = exterior.vertices().len();
    let mut h: usize = 0;
    while h < holes.len()
        invariant
            0 <= h <= holes@.len(),
            holes@ == polygon.spec_holes(),
            *exterior == polygon.spec_exterior(),
            vertices == polygon.spec_exterior().spec_vertices().len() + holes_vertex_count(holes@, h as int),
            polygon.wf() && polygon_vertex_count(*polygon) + 2 * polygon.spec_holes().len() <= usize::MAX ==> vertices
                <= polygon_vertex_count(*polygon),
        decreases holes@.len() - h,
    {
        proof {
            lemma_holes_vertex_count_grows(holes@, h + 1, holes@.len() as int);
        }
        vertices = match vertices.checked_add(holes[h].vertices().len()) {
            Some(total) => total,
            None => {
                return Err(MeshError::ArithmeticOverflow);
            },
        };
        h += 1;
    }
    let hole_count = holes.len();
    let doubled = match hole_count.checked_mul(2) {
        Some(value) => value,
        None => {
            return Err(MeshError::ArithmeticOverflow);
        },
    };
    let cap_triangles = match vertices.checked_add(doubled) {
        Some(value) => match value.checked_sub(2) {
            Some(count) => count,
            None => {
                return Err(MeshError::ArithmeticOverflow);
            },
        },
        None => {
            return Err(MeshError::ArithmeticOverflow);
        },
    };
    Ok(PolygonStats { vertices, holes: hole_count, cap_triangles })
}

/// Totals over all polygons of a partition.
#[derive(Debug, Clone, Copy)]
pub struct ModelStats {
    pub substrate_vertices: usize,
    pub fill_vertices: usize,
    pub substrate_cap_triangles: usize,
    pub fill_cap_triangles: usize,
    pub hole_count: usize,
}

impl ModelStats {
    /// Ring vertices after bridging: every vertex, plus the two bridge
    /// endpoints repeated for every hole.
    pub fn bridged_input_vertices(self) -> (result: Result<usize, MeshError>)
        ensures
            self.substrate_vertices + self.fill_vertices + 2 * self.hole_count <= usize::MAX ==> result
                == Ok::<usize, MeshError>(
                (self.substrate_vertices + self.fill_vertices + 2 * self.hole_count) as usize,
            ),
            self.substrate_vertices + self.fill_vertices + 2 * self.hole_count > usize::MAX ==> result
                == Err::<usize, MeshError>(MeshError::ArithmeticOverflow),
    {
        let doubled = match self.hole_count.checked_mul(2) {
            Some(value) => value,
            None => {
                return Err(MeshError::ArithmeticOverflow);
            },
        };
        match self.substrate_vertices.checked_add(self.fill_vertices) {
            Some(count) => match count.checked_add(doubled) {
                Some(total) => Ok(total),
                None => Err(MeshError::ArithmeticOverflow),
            },
            None => Err(MeshError::ArithmeticOverflow),
        }
    }
}

/// Adds `amount` to a running count.
pub fn add_count(total: &mut usize, amount: usize) -> (result: Result<(), MeshError>)
    ensures
        old(total) + amount <= usize::MAX ==> result is Ok && *final(total) == old(total) + amount,
        old(total) + amount > usize::MAX ==> result == Err::<(), MeshError>(MeshError::ArithmeticOverflow),
{
    *total = match total.checked_add(amount) {
        Some(sum) => sum,
        None => {
            return Err(MeshError::ArithmeticOverflow);
        },
    };
    Ok(())
}

fn add_polygon_stats(
    stats: &mut ModelStats,
    polygon: &Polygon,
    substrate: bool,
) -> (result: Result<(), MeshError>)
    ensures
        result is Err ==> result == Err::<(), MeshError>(MeshError::ArithmeticOverflow),
        result is Ok ==> {
            let vertices = polygon_vertex_count(*polygon);
            let holes = polygon.spec_holes().len() as int;
            &&& final(stats).hole_count == old(stats).hole_count + holes
            &&& substrate ==> {
                &&& final(stats).substrate_vertices == old(stats).substrate_vertices + vertices
                &&& final(stats).substrate_cap_triangles == old(stats).substrate_cap_triangles + vertices + 2 * holes - 2
                &&& final(stats).fill_vertices == old(stats).fill_vertices
                &&& final(stats).fill_cap_triangles == old(stats).fill_cap_triangles
            }
            &&& !substrate ==> {
                &&& final(stats).fill_vertices == old(stats).fill_vertices + vertices
                &&& final(stats).fill_cap_triangles == old(stats).fill_cap_triangles + vertices + 2 * holes - 2
                &&& final(stats).substrate_vertices == old(stats).substrate_vertices
                &&& final(stats).substrate_cap_triangles == old(stats).substrate_cap_triangles
            }
        },
        ({
            let vertices = polygon_vertex_count(*polygon);
            let holes = polygon.spec_holes().len() as int;
            &&& polygon.wf()
            &&& vertices + 2 * holes <= usize::MAX
            &&& old(stats).hole_count + holes <= usize::MAX
            &&& substrate ==> old(stats).substrate_vertices + vertices <= usize::MAX
                && old(stats).substrate_cap_triangles + vertices + 2 * holes - 2 <= usize::MAX
            &&& !substrate ==> old(stats).fill_vertices + vertices <= usize::MAX && old(stats).fill_cap_triangles
                + vertices + 2 * holes - 2 <= usize::MAX
        }) ==> result is Ok,
{
    let polygon_counts = polygon_stats(polygon)?;
    if substrate {
        add_count(&mut stats.substrate_vertices, polygon_counts.vertices)?;
        add_count(&mut stats.substrate_cap_triangles, polygon_counts.cap_triangles)?;
    } else {
        add_count(&mut stats.fill_vertices, polygon_counts.vertices)?;
        add_count(&mut stats.fill_cap_triangles, polygon_counts.cap_triangles)?;
    }
    add_count(&mut stats.hole_count, polygon_counts.holes)?;
    Ok(())
}

/// The counts gathered over the first `count` polygons of each region, the
/// substrate's before the fill's.
pub open spec fn stats_cover(stats: ModelStats, substrate: Seq<Polygon>, fill: Seq<Polygon>, fill_count: int) -> bool {
    &&& stats.substrate_vertices == polygons_vertex_count(substrate, substrate.len() as int)
    &&& stats.substrate_cap_triangles == polygons_cap_count(substrate, substrate.len() as int)
    &&& stats.fill_vertices == polygons_vertex_count(fill, fill_count)
    &&& stats.fill_cap_triangles == polygons_cap_count(fill, fill_count)
    &&& stats.hole_count == polygons_hole_count(substrate, substrate.len() as int) + polygons_hole_count(fill, fill_count)
}

/// Totals the partition's polygons and rejects bridged contours (plus the
/// four footprint corners) above [`MAX_INPUT_CONTOUR_VERTICES`].
pub fn collect_model_stats(partition: &PlanarPartition) -> (result: Result<ModelStats, MeshError>)
    ensures
        result matches Ok(stats) ==> {
            &&& stats.substrate_vertices + stats.fill_vertices + 2 * stats.hole_count + 4 <= MAX_INPUT_CONTOUR_VERTICES
            &&& stats_cover(
                stats,
                partition.spec_substrate_upper().spec_polygons(),
                partition.spec_fill_parts(),
                partition.spec_fill_parts().len() as int,
            )
        },
        contour_vertex_demand(*partition) <= MAX_INPUT_CONTOUR_VERTICES ==> result is Ok,
        MAX_INPUT_CONTOUR_VERTICES < contour_vertex_demand(*partition) <= usize::MAX ==> result == Err::<
            ModelStats,
            MeshError,
        >(
            MeshError::TooManyInputContourVertices {
                required: contour_vertex_demand(*partition) as usize,
                max: MAX_INPUT_CONTOUR_VERTICES,
            },
        ),
        contour_vertex_demand(*partition) > usize::MAX ==> result == Err::<ModelStats, MeshError>(
            MeshError::ArithmeticOverflow,
        ),
{
    let mut stats = ModelStats {
        substrate_vertices: 0,
        fill_vertices: 0,
        substrate_cap_triangles: 0,
        fill_cap_triangles: 0,
        hole_count: 0,
    };
    let substrate = partition.substrate_upper().polygons();
    let fill = partition.fill_parts();
    let ghost demand = contour_vertex_demand(*partition);
    proof {
        lemma_polygon_totals_grow(substrate@, substrate@.len() as int, substrate@.len() as int);
        lemma_polygon_totals_grow(fill@, fill@.len() as int, fill@.len() as int);
    }
    let mut p: usize = 0;
    while p < substrate.len()
        invariant
            0 <= p <= substrate@.len(),
            forall|i: int| 0 <= i < substrate@.len() ==> (#[trigger] substrate@[i]).wf(),
            substrate@ == partition.spec_substrate_upper().spec_polygons(),
            fill@ == partition.spec_fill_parts(),
            forall|i: int| 0 <= i < fill@.len() ==> (#[trigger] fill@[i]).wf(),
            demand == contour_vertex_demand(*partition),
            stats.substrate_vertices == polygons_vertex_count(substrate@, p as int),
            stats.substrate_cap_triangles == polygons_cap_count(substrate@, p as int),
            stats.hole_count == polygons_hole_count(substrate@, p as int),
            stats.fill_vertices == 0,
            stats.fill_cap_triangles == 0,
        decreases substrate@.len() - p,
    {
        proof {
            lemma_polygon_totals_grow(substrate@, p + 1, substrate@.len() as int);
            lemma_polygon_totals_grow(fill@, 0, fill@.len() as int);
            assert(substrate@[p as int].wf());
        }
        add_polygon_stats(&mut stats, &substrate[p], true)?;
        p += 1;
    }
    let mut p: usize = 0;
    while p < fill.len()
        invariant
            0 <= p <= fill@.len(),
            forall|i: int| 0 <= i < substrate@.len() ==> (#[trigger] substrate@[i]).wf(),
            forall|i: int| 0 <= i < fill@.len() ==> (#[trigger] fill@[i]).wf(),
            substrate@ == partition.spec_substrate_upper().spec_polygons(),
            fill@ == partition.spec_fill_parts(),
            demand == contour_vertex_demand(*partition),
            stats_cover(stats, substrate@, fill@, p as int),
        decreases fill@.len() - p,
    {
        proof {
            lemma_polygon_totals_grow(substrate@, substrate@.len() as int, substrate@.len() as int);
            lemma_polygon_totals_grow(fill@, p + 1, fill@.len() as int);
            assert(fill@[p as int].wf());
        }
        add_polygon_stats(&mut stats, &fill[p], false)?;
        p += 1;
    }
    let bridged = stats.bridged_input_vertices()?;
    let required = match bridged.checked_add(4) {
        Some(value) => value,
        None => {
            return Err(MeshError::ArithmeticOverflow);
        },
    };
    if required > MAX_INPUT_CONTOUR_VERTICES {
        return Err(MeshError::TooManyInputContourVertices { required, max: MAX_INPUT_CONTOUR_VERTICES });
    }
    Ok(stats)
}

/// The estimated vertex count of all meshes.
pub open spec fn estimated_vertices(stats: ModelStats, footprint_vertices: int) -> int {
    footprint_vertices * 2 + stats.substrate_vertices * 2 + stats.fill_vertices * 3
}

/// The estimated triangle count of all meshes.
pub open spec fn estimated_triangles(stats: ModelStats, footprint_vertices: int) -> int {
    (footprint_vertices - 2) + footprint_vertices * 2 + stats.fill_cap_triangles
        + stats.substrate_cap_triangles + stats.substrate_vertices * 2 + stats.fill_cap_triangles * 2
        + stats.fill_vertices * 2
}

/// Rejects models whose estimated vertex or triangle counts exceed the mesh limits.
pub fn preflight_mesh(stats: &ModelStats, footprint_vertices: usize) -> (result: Result<(), MeshError>)
    ensures
        ({
            let vertices = estimated_vertices(*stats, footprint_vertices as int);
            let triangles = estimated_triangles(*stats, footprint_vertices as int);
            &&& vertices > usize::MAX ==> result == Err::<(), MeshError>(MeshError::ArithmeticOverflow)
            &&& MAX_MESH_VERTICES < vertices <= usize::MAX ==> result == Err::<(), MeshError>(
                MeshError::TooManyMeshVertices { required: vertices as usize, max: MAX_MESH_VERTICES },
            )
            &&& vertices <= MAX_MESH_VERTICES && footprint_vertices < 2 ==> result == Err::<(), MeshError>(
                MeshError::ArithmeticOverflow,
            )
            &&& vertices <= MAX_MESH_VERTICES && footprint_vertices >= 2 && triangles > usize::MAX ==> result
                == Err::<(), MeshError>(MeshError::ArithmeticOverflow)
            &&& vertices <= MAX_MESH_VERTICES && footprint_vertices >= 2 && MAX_MESH_TRIANGLES < triangles
                <= usize::MAX ==> result == Err::<(), MeshError>(
                MeshError::TooManyMeshTriangles { required: triangles as usize, max: MAX_MESH_TRIANGLES },
            )
            &&& result is Ok <==> (vertices <= MAX_MESH_VERTICES && footprint_vertices >= 2 && triangles
                <= MAX_MESH_TRIANGLES)
        }),
{
    let overflow = Err(MeshError::ArithmeticOverflow);
    let a = match footprint_vertices.checked_mul(2) { Some(v) => v, None => { return overflow; } };
    let b = match stats.substrate_vertices.checked_mul(2) { Some(v) => v, None => { return overflow; } };
    let c = match stats.fill_vertices.checked_mul(3) { Some(v) => v, None => { return overflow; } };
    let ab = match a.checked_add(b) { Some(v) => v, None => { return overflow; } };
    let estimated = match ab.checked_add(c) { Some(v) => v, None => { return overflow; } };
    if estimated > MAX_MESH_VERTICES {
        return Err(MeshError::TooManyMeshVertices { required: estimated, max: MAX_MESH_VERTICES });
    }
    let footprint_cap = match footprint_vertices.checked_sub(2) { Some(v) => v, None => { return overflow; } };
    let s1 = match footprint_cap.checked_add(a) { Some(v) => v, None => { return overflow; } };
    let s2 = match s1.checked_add(stats.fill_cap_triangles) { Some(v) => v, None => { return overflow; } };
    let s3 = match s2.checked_add(stats.substrate_cap_triangles) { Some(v) => v, None => { return overflow; } };
    let substrate_triangles = match s3.checked_add(b) { Some(v) => v, None => { return overflow; } };
    let f1 = match stats.fill_cap_triangles.checked_mul(2) { Some(v) => v, None => { return overflow; } };
    let f2 = match stats.fill_vertices.checked_mul(2) { Some(v) => v, None => { return overflow; } };
    let fill_triangles = match f1.checked_add(f2) { Some(v) => v, None => { return overflow; } };
    let triangles = match substrate_triangles.checked_add(fill_triangles) { Some(v) => v, None => { return overflow; } };
    if triangles > MAX_MESH_TRIANGLES {
        return Err(MeshError::TooManyMeshTriangles { required: triangles, max: MAX_MESH_TRIANGLES });
    }
    Ok(())
}

/// `(2A) * height * 3`: six times the volume of a prism over an area `A`.
pub open spec fn spec_scaled_volume(double_area: int, height: int) -> int {
    double_area * height * 3
}

/// Six times the volume of a prism over a polygon of the given double area.
pub fn scaled_volume(double_area: i128, height: i64) -> (result: Result<i128, MeshError>)
    ensures
        result matches Ok(volume) ==> volume == spec_scaled_volume(double_area as int, height as int),
        result is Err ==> result == Err::<i128, MeshError>(MeshError::ArithmeticOverflow),
{
    match double_area.checked_mul(height as i128) {
        Some(volume) => match volume.checked_mul(3) {
            Some(scaled) => Ok(scaled),
            None => Err(MeshError::ArithmeticOverflow),
        },
        None => Err(MeshError::ArithmeticOverflow),
    }
}

/// Six times the substrate volume: the backing slab over the footprint plus
/// the raised regions.
pub open spec fn spec_substrate_volume(footprint_double_area: int, backing: int, substrate_double_area: int, upper: int) -> int {
    (footprint_double_area * backing + substrate_double_area * upper) * 3
}

/// The value is representable as an `i128`.
pub open spec fn fits_i128(value: int) -> bool {
    i128::MIN <= value <= i128::MAX
}

/// Computes six times the expected substrate volume.
pub fn substrate_expected_volume(partition: &PlanarPartition, backing: i64, upper_height: i64) -> (result: Result<
    i128,
    MeshError,
>)
    ensures
        result matches Ok(volume) ==> volume == spec_substrate_volume(
            partition.spec_footprint().spec_double_area(),
            backing as int,
            partition.spec_substrate_upper().spec_area(),
            upper_height as int,
        ),
        ({
            let base = partition.spec_footprint().spec_double_area() * backing;
            let upper = partition.spec_substrate_upper().spec_area() * upper_height;
            result is Ok <==> (fits_i128(base) && fits_i128(upper) && fits_i128(base + upper) && fits_i128(
                (base + upper) * 3,
            ))
        }),
        result is Err ==> result == Err::<i128, MeshError>(MeshError::ArithmeticOverflow),
{
    let base = match partition.footprint().double_area().checked_mul(backing as i128) {
        Some(value) => value,
        None => {
            return Err(MeshError::ArithmeticOverflow);
        },
    };
    let upper = match partition.substrate_upper().double_area().checked_mul(upper_height as i128) {
        Some(value) => value,
        None => {
            return Err(MeshError::ArithmeticOverflow);
        },
    };
    match base.checked_add(upper) {
        Some(volume) => match volume.checked_mul(3) {
            Some(scaled) => Ok(scaled),
            None => Err(MeshError::ArithmeticOverflow),
        },
        None => Err(MeshError::ArithmeticOverflow),
    }
}

/// The distinct breakpoints recorded along one side of the footprint.
pub struct SideBreakpoints {
    seen: std::collections::BTreeSet<i64>,
    values: Vec<i64>,
}

impl SideBreakpoints {
    /// The recorded breakpoints, in insertion order.
    pub closed spec fn spec_values(&self) -> Seq<i64> {
        self.values@
    }

    /// The set of recorded breakpoints.
    pub open spec fn spec_members(&self) -> Set<i64> {
        self.spec_values().to_set()
    }

    /// Each breakpoint is listed once, and the lookup set holds exactly the
    /// listed ones.
    pub closed spec fn wf(&self) -> bool {
        &&& self.seen@ == self.values@.to_set()
        &&& self.values@.no_duplicates()
    }

    /// Starts a side with its two corner coordinates.
    fn with_corners(first: i64, second: i64) -> (side: Self)
        ensures
            side.wf(),
            side.spec_values() == (if first == second {
                seq![first]
            } else {
                seq![first, second]
            }),
    {
        let mut side = Self { seen: std::collections::BTreeSet::new(), values: Vec::new() };
        proof {
            assert(side.values@.to_set() =~= Set::<i64>::empty());
        }
        side.record(first);
        side.record(second);
        proof {
            if first == second {
                assert(side.values@ =~= seq![first]);
            } else {
                assert(side.values@ =~= seq![first, second]);
            }
        }
        side
    }

    /// Records a breakpoint unless it is already present.
    fn record(&mut self, value: i64)
        requires
            old(self).wf(),
        ensures
            final(self).wf(),
            final(self).spec_values() == (if old(self).spec_members().contains(value) {
                old(self).spec_values()
            } else {
                old(self).spec_values().push(value)
            }),
            final(self).spec_members() == old(self).spec_members().insert(value),
            side_in_range(*old(self)) && coordinate_in_range(value as int) ==> side_in_range(*final(self)),
    {
        let fresh = self.seen.insert(value);
        if fresh {
            self.values.push(value);
        }
        proof {
            if fresh {
                assert(!old(self).values@.contains(value));
                assert(self.values@.to_set() =~= old(self).values@.to_set().insert(value)) by {
                    assert forall|x: i64| self.values@.contains(x) <==> old(self).values@.contains(x) || x == value by {
                        if old(self).values@.contains(x) {
                            let j = choose|j: int| 0 <= j < old(self).values@.len() && old(self).values@[j] == x;
                            assert(self.values@[j] == x);
                        }
                        if self.values@.contains(x) && x != value {
                            let j = choose|j: int| 0 <= j < self.values@.len() && self.values@[j] == x;
                            assert(j < old(self).values@.len());
                            assert(old(self).values@[j] == x);
                        }
                        if x == value {
                            assert(self.values@[old(self).values@.len() as int] == x);
                        }
                    }
                }
            } else {
                assert(old(self).values@.to_set().contains(value));
                assert(self.values@.to_set() =~= old(self).values@.to_set().insert(value));
            }
            if side_in_range(*old(self)) && coordinate_in_range(value as int) {
                assert forall|i: int| 0 <= i < self.values@.len() implies coordinate_in_range(
                    #[trigger] self.values@[i] as int,
                ) by {
                    if i < old(self).values@.len() {
                        assert(self.values@[i] == old(self).spec_values()[i]);
                    }
                }
            }
        }
    }

    /// Without duplicates, the number of listed breakpoints is the size of
    /// their set.
    proof fn lemma_count_is_size(&self)
        requires
            self.wf(),
        ensures
            self.spec_values().len() == self.spec_members().len(),
    {
        self.values@.unique_seq_to_set();
    }

    /// The number of distinct breakpoints.
    fn len(&self) -> (count: usize)
        ensures
            count == self.spec_values().len(),
    {
        self.values.len()
    }

    /// The breakpoints in increasing order.
    fn sorted_values(&self) -> (sorted: Vec<i64>)
        ensures
            crate::order::sorted(sorted@),
            sorted@.to_multiset() == self.spec_values().to_multiset(),
    {
        let copy = crate::planar::cleanup::copy_breakpoints(self.values.as_slice());
        sort_vec(copy)
    }
}

/// The four sides of the footprint outline.
pub struct FootprintSides {
    pub bottom: SideBreakpoints,
    pub right: SideBreakpoints,
    pub top: SideBreakpoints,
    pub left: SideBreakpoints,
}

/// All recorded breakpoints are in range.
pub open spec fn side_in_range(side: SideBreakpoints) -> bool {
    side.wf() && forall|i: int| 0 <= i < side.spec_values().len() ==> coordinate_in_range(#[trigger] side.spec_values()[i] as int)
}

/// Every side's breakpoints are in range.
pub open spec fn sides_in_range(sides: FootprintSides) -> bool {
    side_in_range(sides.bottom) && side_in_range(sides.right) && side_in_range(sides.top) && side_in_range(sides.left)
}

/// The number of outline vertices of the footprint: each side's breakpoints,
/// with the four shared corners counted once.
pub open spec fn footprint_vertex_count(sides: FootprintSides) -> int {
    sides.bottom.spec_values().len() + sides.right.spec_values().len() + sides.top.spec_values().len()
        + sides.left.spec_values().len() - 4
}

/// Rejects a footprint outline that, with the bridged rings, exceeds the
/// contour vertex limit.
fn check_footprint_limit(sides: &FootprintSides, bridged_input_vertices: usize) -> (result: Result<(), MeshError>)
    ensures
        ({
            let outline = footprint_vertex_count(*sides);
            let required = bridged_input_vertices + outline;
            &&& (outline + 4 > usize::MAX || outline < 0 || required > usize::MAX) ==> result
                == Err::<(), MeshError>(MeshError::ArithmeticOverflow)
            &&& (0 <= outline && outline + 4 <= usize::MAX && MAX_INPUT_CONTOUR_VERTICES < required
                <= usize::MAX) ==> result == Err::<(), MeshError>(
                MeshError::TooManyInputContourVertices {
                    required: required as usize,
                    max: MAX_INPUT_CONTOUR_VERTICES,
                },
            )
            &&& (0 <= outline && required <= MAX_INPUT_CONTOUR_VERTICES) ==> result is Ok
        }),
        result is Ok <==> outline_within_limit(*sides, bridged_input_vertices as int),
        result is Err ==> result == Err::<(), MeshError>(MeshError::ArithmeticOverflow) || result matches Err(
            MeshError::TooManyInputContourVertices { .. },
        ),
{
    let bottom_right = match sides.bottom.len().checked_add(sides.right.len()) {
        Some(value) => value,
        None => {
            return Err(MeshError::ArithmeticOverflow);
        },
    };
    let with_top = match bottom_right.checked_add(sides.top.len()) {
        Some(value) => value,
        None => {
            return Err(MeshError::ArithmeticOverflow);
        },
    };
    let all_sides = match with_top.checked_add(sides.left.len()) {
        Some(value) => value,
        None => {
            return Err(MeshError::ArithmeticOverflow);
        },
    };
    let footprint_vertices = match all_sides.checked_sub(4) {
        Some(value) => value,
        None => {
            return Err(MeshError::ArithmeticOverflow);
        },
    };
    let required = match bridged_input_vertices.checked_add(footprint_vertices) {
        Some(value) => value,
        None => {
            return Err(MeshError::ArithmeticOverflow);
        },
    };
    if required > MAX_INPUT_CONTOUR_VERTICES {
        return Err(MeshError::TooManyInputContourVertices { required, max: MAX_INPUT_CONTOUR_VERTICES });
    }
    Ok(())
}

/// The contour vertex limit holds for the footprint outline together with
/// the bridged rings.
pub open spec fn outline_within_limit(sides: FootprintSides, bridged_input_vertices: int) -> bool {
    let outline = footprint_vertex_count(sides);
    0 <= outline && bridged_input_vertices + outline <= MAX_INPUT_CONTOUR_VERTICES
}

/// The recorded breakpoints of side `side`: bottom, right, top, left for
/// `0`, `1`, `2`, `3`.
pub open spec fn side_members(sides: FootprintSides, side: int) -> Set<i64> {
    if side == 0 {
        sides.bottom.spec_members()
    } else if side == 1 {
        sides.right.spec_members()
    } else if side == 2 {
        sides.top.spec_members()
    } else {
        sides.left.spec_members()
    }
}

/// The breakpoint that a point puts on side `side` of the footprint: its
/// `x` on the bottom (`y == 0`) and top (`y == height`), its `y` on the right
/// (`x == width`) and left (`x == 0`); nothing where it is not on that side.
pub open spec fn side_hit(point: PointMicrometers, footprint: RectMicrometers, side: int) -> Set<i64> {
    if side == 0 && point.spec_y() == 0 {
        set![point.spec_x()]
    } else if side == 1 && point.spec_x() == footprint.spec_width() {
        set![point.spec_y()]
    } else if side == 2 && point.spec_y() == footprint.spec_height() {
        set![point.spec_x()]
    } else if side == 3 && point.spec_x() == 0 {
        set![point.spec_y()]
    } else {
        Set::empty()
    }
}

/// The breakpoints that the first `count` points put on side `side`.
pub open spec fn ring_side_hits(points: Seq<PointMicrometers>, count: int, footprint: RectMicrometers, side: int) -> Set<
    i64,
>
    decreases count,
{
    if count <= 0 {
        Set::empty()
    } else {
        ring_side_hits(points, count - 1, footprint, side) + side_hit(points[count - 1], footprint, side)
    }
}

/// The breakpoints that the first `count` holes put on side `side`.
pub open spec fn holes_side_hits(holes: Seq<Ring>, count: int, footprint: RectMicrometers, side: int) -> Set<i64>
    decreases count,
{
    if count <= 0 {
        Set::empty()
    } else {
        holes_side_hits(holes, count - 1, footprint, side) + ring_side_hits(
            holes[count - 1].spec_vertices(),
            holes[count - 1].spec_vertices().len() as int,
            footprint,
            side,
        )
    }
}

/// The breakpoints that a polygon's rings put on side `side`.
pub open spec fn polygon_side_hits(polygon: Polygon, footprint: RectMicrometers, side: int) -> Set<i64> {
    ring_side_hits(
        polygon.spec_exterior().spec_vertices(),
        polygon.spec_exterior().spec_vertices().len() as int,
        footprint,
        side,
    ) + holes_side_hits(polygon.spec_holes(), polygon.spec_holes().len() as int, footprint, side)
}

/// The breakpoints that the first `count` polygons put on side `side`.
pub open spec fn polygons_side_hits(polygons: Seq<Polygon>, count: int, footprint: RectMicrometers, side: int) -> Set<
    i64,
>
    decreases count,
{
    if count <= 0 {
        Set::empty()
    } else {
        polygons_side_hits(polygons, count - 1, footprint, side) + polygon_side_hits(polygons[count - 1], footprint, side)
    }
}

/// Records where a ring's vertices touch each side of the footprint, and
/// rejects the outline as soon as it exceeds the contour vertex limit.
fn record_ring_breakpoints(
    ring: &Ring,
    footprint: RectMicrometers,
    sides: &mut FootprintSides,
    bridged_input_vertices: usize,
) -> (result: Result<(), MeshError>)
    requires
        sides_in_range(*old(sides)),
        coordinate_in_range(footprint.spec_width() as int),
        coordinate_in_range(footprint.spec_height() as int),
    ensures
        sides_in_range(*final(sides)),
        result is Ok ==> outline_within_limit(*final(sides), bridged_input_vertices as int),
        result is Ok ==> forall|side: int|
            0 <= side < 4 ==> #[trigger] side_members(*final(sides), side) == side_members(*old(sides), side)
                + ring_side_hits(ring.spec_vertices(), ring.spec_vertices().len() as int, footprint, side),
        result is Err ==> !outline_within_limit(*final(sides), bridged_input_vertices as int),
        forall|side: int|
            0 <= side < 4 ==> side_members(*old(sides), side).subset_of(#[trigger] side_members(*final(sides), side)),
        result is Err ==> forall|side: int|
            0 <= side < 4 ==> (#[trigger] side_members(*final(sides), side)).subset_of(
                side_members(*old(sides), side) + ring_side_hits(
                    ring.spec_vertices(),
                    ring.spec_vertices().len() as int,
                    footprint,
                    side,
                ),
            ),
        result is Err ==> result == Err::<(), MeshError>(MeshError::ArithmeticOverflow) || result matches Err(
            MeshError::TooManyInputContourVertices { .. },
        ),
{
    let vertices = ring.vertices();
    let width = footprint.width();
    let height = footprint.height();
    let ghost before = *sides;
    let mut i: usize = 0;
    while i < vertices.len()
        invariant
            0 <= i <= vertices@.len(),
            before == *old(sides),
            vertices@ == ring.spec_vertices(),
            valid_ring_vertices(vertices@),
            width == footprint.spec_width(),
            height == footprint.spec_height(),
            sides_in_range(*sides),
            forall|side: int|
                0 <= side < 4 ==> #[trigger] side_members(*sides, side) == side_members(before, side) + ring_side_hits(
                    vertices@,
                    i as int,
                    footprint,
                    side,
                ),
            i > 0 ==> outline_within_limit(*sides, bridged_input_vertices as int),
        decreases vertices@.len() - i,
    {
        let point = vertices[i];
        let ghost start = *sides;
        proof {
            assert(point_in_range(vertices@[i as int]));
        }
        if point.y() == 0 {
            sides.bottom.record(point.x());
        }
        if point.x() == width {
            sides.right.record(point.y());
        }
        if point.y() == height {
            sides.top.record(point.x());
        }
        if point.x() == 0 {
            sides.left.record(point.y());
        }
        proof {
            assert forall|side: int| 0 <= side < 4 implies #[trigger] side_members(*sides, side) == side_members(
                before,
                side,
            ) + ring_side_hits(vertices@, i + 1, footprint, side) by {
                assert(ring_side_hits(vertices@, i + 1, footprint, side) == ring_side_hits(vertices@, i as int, footprint, side)
                    + side_hit(point, footprint, side));
                assert(side_members(*sides, side) =~= side_members(start, side) + side_hit(point, footprint, side));
                assert(side_members(*sides, side) =~= side_members(before, side) + ring_side_hits(
                    vertices@,
                    i + 1,
                    footprint,
                    side,
                ));
            }
        }
        match check_footprint_limit(sides, bridged_input_vertices) {
            Ok(()) => {},
            Err(error) => {
                proof {
                    lemma_ring_hits_grow(vertices@, i + 1, vertices@.len() as int, footprint);
                    assert forall|side: int| 0 <= side < 4 implies (#[trigger] side_members(*sides, side)).subset_of(
                        side_members(before, side) + ring_side_hits(vertices@, vertices@.len() as int, footprint, side),
                    ) by {
                        lemma_union_grows(
                            side_members(before, side),
                            ring_side_hits(vertices@, i + 1, footprint, side),
                            ring_side_hits(vertices@, vertices@.len() as int, footprint, side),
                        );
                        assert(side_members(*sides, side) == side_members(before, side) + ring_side_hits(
                            vertices@,
                            i + 1,
                            footprint,
                            side,
                        ));
                    }
                }
                return Err(error);
            },
        }
        i += 1;
    }
    Ok(())
}

/// Adding a larger set to a set gives a larger union.
proof fn lemma_union_grows(base: Set<i64>, small: Set<i64>, large: Set<i64>)
    requires
        small.subset_of(large),
    ensures
        (base + small).subset_of(base + large),
{
}

/// The hits of a prefix are among those of a longer prefix.
proof fn lemma_ring_hits_grow(points: Seq<PointMicrometers>, short: int, long: int, footprint: RectMicrometers)
    requires
        0 <= short <= long,
    ensures
        forall|side: int| #[trigger] ring_side_hits(points, short, footprint, side).subset_of(
            ring_side_hits(points, long, footprint, side),
        ),
    decreases long - short,
{
    if short < long {
        lemma_ring_hits_grow(points, short, long - 1, footprint);
        assert forall|side: int| #[trigger] ring_side_hits(points, short, footprint, side).subset_of(
            ring_side_hits(points, long, footprint, side),
        ) by {
            assert(ring_side_hits(points, short, footprint, side).subset_of(ring_side_hits(points, long - 1, footprint, side)));
        }
    }
}

/// The hits of the first `short` holes are among those of the first `long`.
proof fn lemma_holes_hits_grow(holes: Seq<Ring>, short: int, long: int, footprint: RectMicrometers)
    requires
        0 <= short <= long,
    ensures
        forall|side: int| #[trigger] holes_side_hits(holes, short, footprint, side).subset_of(
            holes_side_hits(holes, long, footprint, side),
        ),
    decreases long - short,
{
    if short < long {
        lemma_holes_hits_grow(holes, short, long - 1, footprint);
        assert forall|side: int| #[trigger] holes_side_hits(holes, short, footprint, side).subset_of(
            holes_side_hits(holes, long, footprint, side),
        ) by {
            assert(holes_side_hits(holes, short, footprint, side).subset_of(holes_side_hits(holes, long - 1, footprint, side)));
        }
    }
}

/// The hits of the first `short` polygons are among those of the first `long`.
proof fn lemma_polygons_hits_grow(polygons: Seq<Polygon>, short: int, long: int, footprint: RectMicrometers)
    requires
        0 <= short <= long,
    ensures
        forall|side: int| #[trigger] polygons_side_hits(polygons, short, footprint, side).subset_of(
            polygons_side_hits(polygons, long, footprint, side),
        ),
    decreases long - short,
{
    if short < long {
        lemma_polygons_hits_grow(polygons, short, long - 1, footprint);
        assert forall|side: int| #[trigger] polygons_side_hits(polygons, short, footprint, side).subset_of(
            polygons_side_hits(polygons, long, footprint, side),
        ) by {
            assert(polygons_side_hits(polygons, short, footprint, side).subset_of(
                polygons_side_hits(polygons, long - 1, footprint, side),
            ));
        }
    }
}

/// Records where a polygon's exterior and holes touch each side of the
/// footprint, rejecting the outline as soon as it exceeds the contour vertex
/// limit.
fn record_polygon_breakpoints(
    polygon: &Polygon,
    footprint: RectMicrometers,
    sides: &mut FootprintSides,
    bridged_input_vertices: usize,
) -> (result: Result<(), MeshError>)
    requires
        sides_in_range(*old(sides)),
        coordinate_in_range(footprint.spec_width() as int),
        coordinate_in_range(footprint.spec_height() as int),
    ensures
        sides_in_range(*final(sides)),
        result is Ok ==> outline_within_limit(*final(sides), bridged_input_vertices as int),
        result is Ok ==> forall|side: int|
            0 <= side < 4 ==> #[trigger] side_members(*final(sides), side) == side_members(*old(sides), side)
                + polygon_side_hits(*polygon, footprint, side),
        result is Err ==> !outline_within_limit(*final(sides), bridged_input_vertices as int),
        forall|side: int|
            0 <= side < 4 ==> side_members(*old(sides), side).subset_of(#[trigger] side_members(*final(sides), side)),
        result is Err ==> forall|side: int|
            0 <= side < 4 ==> (#[trigger] side_members(*final(sides), side)).subset_of(
                side_members(*old(sides), side) + polygon_side_hits(*polygon, footprint, side),
            ),
        result is Err ==> result == Err::<(), MeshError>(MeshError::ArithmeticOverflow) || result matches Err(
            MeshError::TooManyInputContourVertices { .. },
        ),
{
    let ghost before = *sides;
    let exterior = polygon.exterior();
    let ghost outer = exterior.spec_vertices();
    match record_ring_breakpoints(exterior, footprint, sides, bridged_input_vertices) {
        Ok(()) => {},
        Err(error) => {
            return Err(error);
        },
    }
    let holes = polygon.holes();
    let ghost count = holes@.len() as int;
    let mut h: usize = 0;
    while h < holes.len()
        invariant
            0 <= h <= holes@.len(),
            count == holes@.len(),
            before == *old(sides),
            holes@ == polygon.spec_holes(),
            outer == polygon.spec_exterior().spec_vertices(),
            sides_in_range(*sides),
            coordinate_in_range(footprint.spec_width() as int),
            coordinate_in_range(footprint.spec_height() as int),
            outline_within_limit(*sides, bridged_input_vertices as int),
            forall|side: int|
                0 <= side < 4 ==> #[trigger] side_members(*sides, side) == side_members(before, side) + ring_side_hits(
                    outer,
                    outer.len() as int,
                    footprint,
                    side,
                ) + holes_side_hits(holes@, h as int, footprint, side),
        decreases holes@.len() - h,
    {
        let ghost start = *sides;
        match record_ring_breakpoints(&holes[h], footprint, sides, bridged_input_vertices) {
            Ok(()) => {},
            Err(error) => {
                proof {
                    lemma_holes_hits_grow(holes@, h + 1, count, footprint);
                    assert forall|side: int| 0 <= side < 4 implies (#[trigger] side_members(*sides, side)).subset_of(
                        side_members(before, side) + polygon_side_hits(*polygon, footprint, side),
                    ) by {
                        assert(side_members(*sides, side).subset_of(
                            side_members(start, side) + ring_side_hits(
                                holes@[h as int].spec_vertices(),
                                holes@[h as int].spec_vertices().len() as int,
                                footprint,
                                side,
                            ),
                        ));
                        assert(holes_side_hits(holes@, h + 1, footprint, side) == holes_side_hits(holes@, h as int, footprint, side)
                            + ring_side_hits(
                            holes@[h as int].spec_vertices(),
                            holes@[h as int].spec_vertices().len() as int,
                            footprint,
                            side,
                        ));
                        assert(holes_side_hits(holes@, h + 1, footprint, side).subset_of(
                            holes_side_hits(holes@, count, footprint, side),
                        ));
                        assert forall|x: i64| #[trigger] side_members(*sides, side).contains(x) implies (side_members(
                            before,
                            side,
                        ) + polygon_side_hits(*polygon, footprint, side)).contains(x) by {
                            assert(holes_side_hits(holes@, h + 1, footprint, side).contains(x) ==> holes_side_hits(
                                holes@,
                                count,
                                footprint,
                                side,
                            ).contains(x));
                        }
                    }
                }
                return Err(error);
            },
        }
        proof {
            assert forall|side: int| 0 <= side < 4 implies #[trigger] side_members(*sides, side) == side_members(
                before,
                side,
            ) + ring_side_hits(outer, outer.len() as int, footprint, side) + holes_side_hits(
                holes@,
                h + 1,
                footprint,
                side,
            ) by {
                assert(side_members(*sides, side) == side_members(start, side) + ring_side_hits(
                    holes@[h as int].spec_vertices(),
                    holes@[h as int].spec_vertices().len() as int,
                    footprint,
                    side,
                ));
                assert(side_members(*sides, side) =~= side_members(before, side) + ring_side_hits(
                    outer,
                    outer.len() as int,
                    footprint,
                    side,
                ) + holes_side_hits(holes@, h + 1, footprint, side));
            }
        }
        h += 1;
    }
    proof {
        assert forall|side: int| 0 <= side < 4 implies #[trigger] side_members(*sides, side) == side_members(before, side)
            + polygon_side_hits(*polygon, footprint, side) by {
            assert(side_members(*sides, side) =~= side_members(before, side) + polygon_side_hits(*polygon, footprint, side));
        }
    }
    Ok(())
}

/// The two corner coordinates of side `side`.
pub open spec fn corner_members(footprint: RectMicrometers, side: int) -> Set<i64> {
    if side == 0 || side == 2 {
        set![0, footprint.spec_width()]
    } else {
        set![0, footprint.spec_height()]
    }
}

/// The breakpoints on side `side` of the footprint outline: its corners and
/// every point where a substrate or fill ring touches it.
pub open spec fn outline_members(partition: PlanarPartition, side: int) -> Set<i64> {
    let footprint = partition.spec_footprint();
    let substrate = partition.spec_substrate_upper().spec_polygons();
    let fill = partition.spec_fill_parts();
    corner_members(footprint, side) + polygons_side_hits(substrate, substrate.len() as int, footprint, side)
        + polygons_side_hits(fill, fill.len() as int, footprint, side)
}

/// The number of vertices of the segmented footprint outline: the
/// breakpoints of the four sides, with the four shared corners counted once.
pub open spec fn outline_vertex_count(partition: PlanarPartition) -> int {
    outline_members(partition, 0).len() + outline_members(partition, 1).len() + outline_members(partition, 2).len()
        + outline_members(partition, 3).len() - 4
}

/// The breakpoints that a ring puts on a side are finitely many.
proof fn lemma_ring_hits_finite(points: Seq<PointMicrometers>, count: int, footprint: RectMicrometers)
    ensures
        forall|side: int| #[trigger] ring_side_hits(points, count, footprint, side).finite(),
    decreases count,
{
    if count > 0 {
        lemma_ring_hits_finite(points, count - 1, footprint);
        assert forall|side: int| #[trigger] ring_side_hits(points, count, footprint, side).finite() by {
            let point = points[count - 1];
            assert(Set::<i64>::empty().insert(point.spec_x()).finite());
            assert(Set::<i64>::empty().insert(point.spec_y()).finite());
            assert(side_hit(point, footprint, side).finite());
            assert(ring_side_hits(points, count - 1, footprint, side).finite());
            assert(ring_side_hits(points, count, footprint, side) == ring_side_hits(points, count - 1, footprint, side).union(
                side_hit(point, footprint, side),
            ));
        }
    }
}

/// The breakpoints that holes put on a side are finitely many.
proof fn lemma_holes_hits_finite(holes: Seq<Ring>, count: int, footprint: RectMicrometers)
    ensures
        forall|side: int| #[trigger] holes_side_hits(holes, count, footprint, side).finite(),
    decreases count,
{
    if count > 0 {
        lemma_holes_hits_finite(holes, count - 1, footprint);
        let points = holes[count - 1].spec_vertices();
        lemma_ring_hits_finite(points, points.len() as int, footprint);
        assert forall|side: int| #[trigger] holes_side_hits(holes, count, footprint, side).finite() by {
            assert(holes_side_hits(holes, count - 1, footprint, side).finite());
            assert(ring_side_hits(points, points.len() as int, footprint, side).finite());
            assert(holes_side_hits(holes, count, footprint, side) == holes_side_hits(holes, count - 1, footprint, side).union(
                ring_side_hits(points, points.len() as int, footprint, side),
            ));
        }
    }
}

/// The breakpoints that polygons put on a side are finitely many.
proof fn lemma_polygons_hits_finite(polygons: Seq<Polygon>, count: int, footprint: RectMicrometers)
    ensures
        forall|side: int| #[trigger] polygons_side_hits(polygons, count, footprint, side).finite(),
    decreases count,
{
    if count > 0 {
        lemma_polygons_hits_finite(polygons, count - 1, footprint);
        let polygon = polygons[count - 1];
        let points = polygon.spec_exterior().spec_vertices();
        lemma_ring_hits_finite(points, points.len() as int, footprint);
        lemma_holes_hits_finite(polygon.spec_holes(), polygon.spec_holes().len() as int, footprint);
        assert forall|side: int| #[trigger] polygons_side_hits(polygons, count, footprint, side).finite() by {
            assert(ring_side_hits(points, points.len() as int, footprint, side).finite());
            assert(holes_side_hits(polygon.spec_holes(), polygon.spec_holes().len() as int, footprint, side).finite());
            assert(polygon_side_hits(polygon, footprint, side) == ring_side_hits(
                points,
                points.len() as int,
                footprint,
                side,
            ).union(holes_side_hits(polygon.spec_holes(), polygon.spec_holes().len() as int, footprint, side)));
            assert(polygon_side_hits(polygon, footprint, side).finite());
            assert(polygons_side_hits(polygons, count - 1, footprint, side).finite());
            assert(polygons_side_hits(polygons, count, footprint, side) == polygons_side_hits(
                polygons,
                count - 1,
                footprint,
                side,
            ).union(polygon_side_hits(polygon, footprint, side)));
        }
    }
}

/// What a side holds after a failed recording of polygon `p` lies within its
/// corners, the earlier hits and the hits of all the polygons.
proof fn lemma_side_within(
    members: Set<i64>,
    start: Set<i64>,
    corners: Set<i64>,
    prior: Set<i64>,
    polygons: Seq<Polygon>,
    p: int,
    footprint: RectMicrometers,
    side: int,
)
    requires
        0 <= p < polygons.len(),
        start == corners + prior + polygons_side_hits(polygons, p, footprint, side),
        members.subset_of(start + polygon_side_hits(polygons[p], footprint, side)),
    ensures
        members.subset_of(corners + prior + polygons_side_hits(polygons, polygons.len() as int, footprint, side)),
{
    lemma_polygons_hits_grow(polygons, p + 1, polygons.len() as int, footprint);
    let whole = polygons_side_hits(polygons, polygons.len() as int, footprint, side);
    assert(polygons_side_hits(polygons, p + 1, footprint, side) == polygons_side_hits(polygons, p, footprint, side)
        + polygon_side_hits(polygons[p], footprint, side));
    assert(polygons_side_hits(polygons, p + 1, footprint, side).subset_of(whole));
    assert forall|x: i64| members.contains(x) implies (corners + prior + whole).contains(x) by {
        if polygons_side_hits(polygons, p + 1, footprint, side).contains(x) {
            assert(whole.contains(x));
        }
    }
}

/// A reordering of a side's breakpoints keeps them in range.
proof fn lemma_sorted_in_range(side: SideBreakpoints, sorted: Seq<i64>)
    requires
        side_in_range(side),
        sorted.to_multiset() == side.spec_values().to_multiset(),
    ensures
        forall|i: int| 0 <= i < sorted.len() ==> coordinate_in_range(#[trigger] sorted[i] as int),
{
    lemma_same_members(side.spec_values(), sorted);
    assert forall|i: int| 0 <= i < sorted.len() implies coordinate_in_range(#[trigger] sorted[i] as int) by {
        assert(side.spec_values().contains(sorted[i]));
        let j = choose|j: int| 0 <= j < side.spec_values().len() && side.spec_values()[j] == sorted[i];
        assert(coordinate_in_range(side.spec_values()[j] as int));
    }
}

/// Each side's breakpoint count is the size of its set of breakpoints.
proof fn lemma_side_counts(sides: FootprintSides)
    requires
        sides_in_range(sides),
    ensures
        footprint_vertex_count(sides) == side_members(sides, 0).len() + side_members(sides, 1).len() + side_members(
            sides,
            2,
        ).len() + side_members(sides, 3).len() - 4,
{
    sides.bottom.lemma_count_is_size();
    sides.right.lemma_count_is_size();
    sides.top.lemma_count_is_size();
    sides.left.lemma_count_is_size();
}

/// Once a side holds its two distinct corners and lies within the full set of
/// the outline's breakpoints, the outline count bounds the recorded one.
proof fn lemma_partial_count(sides: FootprintSides, partition: PlanarPartition)
    requires
        sides_in_range(sides),
        partition.spec_footprint().spec_width() > 0,
        partition.spec_footprint().spec_height() > 0,
        forall|side: int|
            0 <= side < 4 ==> corner_members(partition.spec_footprint(), side).subset_of(
                #[trigger] side_members(sides, side),
            ),
        forall|side: int|
            0 <= side < 4 ==> (#[trigger] side_members(sides, side)).subset_of(outline_members(partition, side)),
    ensures
        0 <= footprint_vertex_count(sides) <= outline_vertex_count(partition),
{
    let footprint = partition.spec_footprint();
    let substrate = partition.spec_substrate_upper().spec_polygons();
    let fill = partition.spec_fill_parts();
    lemma_side_counts(sides);
    lemma_polygons_hits_finite(substrate, substrate.len() as int, footprint);
    lemma_polygons_hits_finite(fill, fill.len() as int, footprint);
    assert forall|side: int| 0 <= side < 4 implies 2 <= #[trigger] side_members(sides, side).len() <= outline_members(
        partition,
        side,
    ).len() by {
        assert(corner_members(footprint, side).finite());
        assert(outline_members(partition, side).finite());
        vstd::set_lib::lemma_len_subset(side_members(sides, side), outline_members(partition, side));
        vstd::set_lib::lemma_len_subset(corner_members(footprint, side), side_members(sides, side));
        assert(corner_members(footprint, side).len() == 2) by {
            let extent = if side == 0 || side == 2 {
                footprint.spec_width()
            } else {
                footprint.spec_height()
            };
            assert(extent > 0);
            assert(Set::<i64>::empty().insert(0).len() == 1);
            assert(!Set::<i64>::empty().insert(0).contains(extent));
            assert(corner_members(footprint, side) == Set::<i64>::empty().insert(0).insert(extent));
        }
    }
    assert(2 <= side_members(sides, 0).len() <= outline_members(partition, 0).len());
    assert(2 <= side_members(sides, 1).len() <= outline_members(partition, 1).len());
    assert(2 <= side_members(sides, 2).len() <= outline_members(partition, 2).len());
    assert(2 <= side_members(sides, 3).len() <= outline_members(partition, 3).len());
}

/// The footprint outline, counter-clockwise from the origin, cut at every
/// point where a substrate or fill ring touches it, so that the lower walls
/// share their vertical edges with the raised parts.
pub fn segmented_footprint(partition: &PlanarPartition, bridged_input_vertices: usize) -> (result: Result<
    Vec<PointMicrometers>,
    MeshError,
>)
    ensures
        result matches Ok(ring) ==> points_in_range(ring@),
        result matches Ok(ring) ==> forall|i: int| 0 <= i < ring@.len() ==> outline_breakpoint(*partition, #[trigger] ring@[i]),
        result is Ok <==> (partition.spec_substrate_upper().spec_polygons().len() == 0 && partition.spec_fill_parts().len()
            == 0) || bridged_input_vertices + outline_vertex_count(*partition) <= MAX_INPUT_CONTOUR_VERTICES,
        result is Err ==> result == Err::<Vec<PointMicrometers>, MeshError>(MeshError::ArithmeticOverflow)
            || result matches Err(MeshError::TooManyInputContourVertices { .. }),
{
    let footprint = partition.footprint();
    let width = footprint.width();
    let height = footprint.height();
    let mut sides = FootprintSides {
        bottom: SideBreakpoints::with_corners(0, width),
        right: SideBreakpoints::with_corners(0, height),
        top: SideBreakpoints::with_corners(0, width),
        left: SideBreakpoints::with_corners(0, height),
    };
    let ghost corners = sides;
    let ghost substrate_all = partition.spec_substrate_upper().spec_polygons();
    let ghost fill_all = partition.spec_fill_parts();
    proof {
        assert forall|side: int| 0 <= side < 4 implies #[trigger] side_members(sides, side) == corner_members(
            footprint,
            side,
        ) + polygons_side_hits(substrate_all, 0, footprint, side) by {
            assert(side_members(sides, side) =~= corner_members(footprint, side) + polygons_side_hits(
                substrate_all,
                0,
                footprint,
                side,
            ));
        }
    }
    let substrate = partition.substrate_upper().polygons();
    let mut p: usize = 0;
    while p < substrate.len()
        invariant
            0 <= p <= substrate@.len(),
            substrate@ == substrate_all,
            substrate_all == partition.spec_substrate_upper().spec_polygons(),
            fill_all == partition.spec_fill_parts(),
            footprint == partition.spec_footprint(),
            footprint.spec_width() > 0 && footprint.spec_height() > 0,
            sides_in_range(sides),
            coordinate_in_range(footprint.spec_width() as int),
            coordinate_in_range(footprint.spec_height() as int),
            forall|side: int|
                0 <= side < 4 ==> #[trigger] side_members(sides, side) == corner_members(footprint, side)
                    + polygons_side_hits(substrate_all, p as int, footprint, side),
            p > 0 ==> outline_within_limit(sides, bridged_input_vertices as int),
        decreases substrate@.len() - p,
    {
        let ghost start = sides;
        proof {
            assert forall|side: int| 0 <= side < 4 implies #[trigger] side_members(start, side) == corner_members(
                footprint,
                side,
            ) + polygons_side_hits(substrate_all, p as int, footprint, side) by {
                assert(side_members(sides, side) == side_members(start, side));
            }
        }
        match record_polygon_breakpoints(&substrate[p], footprint, &mut sides, bridged_input_vertices) {
            Ok(()) => {},
            Err(error) => {
                proof {
                    assert forall|side: int| 0 <= side < 4 implies (#[trigger] side_members(sides, side)).subset_of(
                        outline_members(*partition, side),
                    ) by {
                        assert(side_members(start, side) =~= corner_members(footprint, side) + Set::empty()
                            + polygons_side_hits(substrate_all, p as int, footprint, side));
                        lemma_side_within(
                            side_members(sides, side),
                            side_members(start, side),
                            corner_members(footprint, side),
                            Set::empty(),
                            substrate_all,
                            p as int,
                            footprint,
                            side,
                        );
                        assert(outline_members(*partition, side) == corner_members(footprint, side)
                            + polygons_side_hits(substrate_all, substrate_all.len() as int, footprint, side)
                            + polygons_side_hits(fill_all, fill_all.len() as int, footprint, side));
                        assert(corner_members(footprint, side) + Set::empty() + polygons_side_hits(
                            substrate_all,
                            substrate_all.len() as int,
                            footprint,
                            side,
                        ) <= outline_members(*partition, side));
                    }
                    assert forall|side: int| 0 <= side < 4 implies corner_members(footprint, side).subset_of(
                        #[trigger] side_members(sides, side),
                    ) by {
                        assert(side_members(start, side).subset_of(side_members(sides, side)));
                        assert(corner_members(footprint, side).subset_of(side_members(start, side)));
                    }
                    lemma_partial_count(sides, *partition);
                }
                return Err(error);
            },
        }
        proof {
            assert forall|side: int| 0 <= side < 4 implies #[trigger] side_members(sides, side) == corner_members(
                footprint,
                side,
            ) + polygons_side_hits(substrate_all, p + 1, footprint, side) by {
                assert(side_members(sides, side) =~= corner_members(footprint, side) + polygons_side_hits(
                    substrate_all,
                    p + 1,
                    footprint,
                    side,
                ));
            }
        }
        p += 1;
    }
    proof {
        assert forall|side: int| 0 <= side < 4 implies #[trigger] side_members(sides, side) == corner_members(
            footprint,
            side,
        ) + polygons_side_hits(substrate_all, substrate_all.len() as int, footprint, side) + polygons_side_hits(
            fill_all,
            0,
            footprint,
            side,
        ) by {
            assert(side_members(sides, side) =~= corner_members(footprint, side) + polygons_side_hits(
                substrate_all,
                substrate_all.len() as int,
                footprint,
                side,
            ) + polygons_side_hits(fill_all, 0, footprint, side));
        }
    }
    let fill = partition.fill_parts();
    let mut p: usize = 0;
    while p < fill.len()
        invariant
            0 <= p <= fill@.len(),
            fill@ == fill_all,
            fill_all == partition.spec_fill_parts(),
            footprint == partition.spec_footprint(),
            footprint.spec_width() > 0 && footprint.spec_height() > 0,
            substrate_all == partition.spec_substrate_upper().spec_polygons(),
            sides_in_range(sides),
            coordinate_in_range(footprint.spec_width() as int),
            coordinate_in_range(footprint.spec_height() as int),
            forall|side: int|
                0 <= side < 4 ==> #[trigger] side_members(sides, side) == corner_members(footprint, side)
                    + polygons_side_hits(substrate_all, substrate_all.len() as int, footprint, side)
                    + polygons_side_hits(fill_all, p as int, footprint, side),
            p > 0 || substrate_all.len() > 0 ==> outline_within_limit(sides, bridged_input_vertices as int),
        decreases fill@.len() - p,
    {
        let ghost start = sides;
        proof {
            assert forall|side: int| 0 <= side < 4 implies #[trigger] side_members(start, side) == corner_members(
                footprint,
                side,
            ) + polygons_side_hits(substrate_all, substrate_all.len() as int, footprint, side) + polygons_side_hits(
                fill_all,
                p as int,
                footprint,
                side,
            ) by {
                assert(side_members(sides, side) == side_members(start, side));
            }
        }
        match record_polygon_breakpoints(&fill[p], footprint, &mut sides, bridged_input_vertices) {
            Ok(()) => {},
            Err(error) => {
                proof {
                    assert forall|side: int| 0 <= side < 4 implies (#[trigger] side_members(sides, side)).subset_of(
                        outline_members(*partition, side),
                    ) by {
                        lemma_side_within(
                            side_members(sides, side),
                            side_members(start, side),
                            corner_members(footprint, side),
                            polygons_side_hits(substrate_all, substrate_all.len() as int, footprint, side),
                            fill_all,
                            p as int,
                            footprint,
                            side,
                        );
                        assert(outline_members(*partition, side) == corner_members(footprint, side)
                            + polygons_side_hits(substrate_all, substrate_all.len() as int, footprint, side)
                            + polygons_side_hits(fill_all, fill_all.len() as int, footprint, side));
                    }
                    assert forall|side: int| 0 <= side < 4 implies corner_members(footprint, side).subset_of(
                        #[trigger] side_members(sides, side),
                    ) by {
                        assert(side_members(start, side).subset_of(side_members(sides, side)));
                        assert(corner_members(footprint, side).subset_of(side_members(start, side)));
                    }
                    lemma_partial_count(sides, *partition);
                }
                return Err(error);
            },
        }
        proof {
            assert forall|side: int| 0 <= side < 4 implies #[trigger] side_members(sides, side) == corner_members(
                footprint,
                side,
            ) + polygons_side_hits(substrate_all, substrate_all.len() as int, footprint, side) + polygons_side_hits(
                fill_all,
                p + 1,
                footprint,
                side,
            ) by {
                assert(side_members(sides, side) =~= corner_members(footprint, side) + polygons_side_hits(
                    substrate_all,
                    substrate_all.len() as int,
                    footprint,
                    side,
                ) + polygons_side_hits(fill_all, p + 1, footprint, side));
            }
        }
        p += 1;
    }
    proof {
        assert forall|side: int| 0 <= side < 4 implies #[trigger] side_members(sides, side) == outline_members(
            *partition,
            side,
        ) by {}
        lemma_side_counts(sides);
        assert(footprint_vertex_count(sides) == outline_vertex_count(*partition)) by {
            assert(side_members(sides, 0) == outline_members(*partition, 0));
            assert(side_members(sides, 1) == outline_members(*partition, 1));
            assert(side_members(sides, 2) == outline_members(*partition, 2));
            assert(side_members(sides, 3) == outline_members(*partition, 3));
        }
    }
    let bottom = sides.bottom.sorted_values();
    let right = sides.right.sorted_values();
    let top = sides.top.sorted_values();
    let left = sides.left.sorted_values();
    proof {
        lemma_sorted_in_range(sides.bottom, bottom@);
        lemma_sorted_in_range(sides.right, right@);
        lemma_sorted_in_range(sides.top, top@);
        lemma_sorted_in_range(sides.left, left@);
        lemma_sorted_members(sides.bottom, bottom@);
        lemma_sorted_members(sides.right, right@);
        lemma_sorted_members(sides.top, top@);
        lemma_sorted_members(sides.left, left@);
        assert(side_members(sides, 0) == outline_members(*partition, 0));
        assert(side_members(sides, 1) == outline_members(*partition, 1));
        assert(side_members(sides, 2) == outline_members(*partition, 2));
        assert(side_members(sides, 3) == outline_members(*partition, 3));
    }
    let mut ring: Vec<PointMicrometers> = Vec::new();
    let mut k: usize = 0;
    while k < bottom.len()
        invariant
            0 <= k <= bottom@.len(),
            forall|i: int| 0 <= i < bottom@.len() ==> coordinate_in_range(#[trigger] bottom@[i] as int),
            forall|i: int| 0 <= i < bottom@.len() ==> outline_members(*partition, 0).contains(#[trigger] bottom@[i]),
            points_in_range(ring@),
            forall|i: int| 0 <= i < ring@.len() ==> outline_breakpoint(*partition, #[trigger] ring@[i]),
        decreases bottom@.len() - k,
    {
        proof {
            assert(coordinate_in_range(bottom@[k as int] as int));
            assert(outline_members(*partition, 0).contains(bottom@[k as int]));
        }
        ring.push(PointMicrometers::new(bottom[k], 0));
        proof {
            lemma_pushed_breakpoint(*partition, ring@);
        }
        k += 1;
    }
    let mut k: usize = 0;
    while k < right.len()
        invariant
            0 <= k <= right@.len(),
            forall|i: int| 0 <= i < right@.len() ==> coordinate_in_range(#[trigger] right@[i] as int),
            forall|i: int| 0 <= i < right@.len() ==> outline_members(*partition, 1).contains(#[trigger] right@[i]),
            coordinate_in_range(width as int),
            width == partition.spec_footprint().spec_width(),
            points_in_range(ring@),
            forall|i: int| 0 <= i < ring@.len() ==> outline_breakpoint(*partition, #[trigger] ring@[i]),
        decreases right@.len() - k,
    {
        proof {
            assert(coordinate_in_range(right@[k as int] as int));
            assert(outline_members(*partition, 1).contains(right@[k as int]));
        }
        if right[k] > 0 {
            ring.push(PointMicrometers::new(width, right[k]));
            proof {
                lemma_pushed_breakpoint(*partition, ring@);
            }
        }
        k += 1;
    }
    let mut k: usize = top.len();
    while k > 0
        invariant
            0 <= k <= top@.len(),
            forall|i: int| 0 <= i < top@.len() ==> coordinate_in_range(#[trigger] top@[i] as int),
            forall|i: int| 0 <= i < top@.len() ==> outline_members(*partition, 2).contains(#[trigger] top@[i]),
            coordinate_in_range(height as int),
            height == partition.spec_footprint().spec_height(),
            points_in_range(ring@),
            forall|i: int| 0 <= i < ring@.len() ==> outline_breakpoint(*partition, #[trigger] ring@[i]),
        decreases k,
    {
        k -= 1;
        proof {
            assert(coordinate_in_range(top@[k as int] as int));
            assert(outline_members(*partition, 2).contains(top@[k as int]));
        }
        if top[k] < width {
            ring.push(PointMicrometers::new(top[k], height));
            proof {
                lemma_pushed_breakpoint(*partition, ring@);
            }
        }
    }
    let mut k: usize = left.len();
    while k > 0
        invariant
            0 <= k <= left@.len(),
            forall|i: int| 0 <= i < left@.len() ==> coordinate_in_range(#[trigger] left@[i] as int),
            forall|i: int| 0 <= i < left@.len() ==> outline_members(*partition, 3).contains(#[trigger] left@[i]),
            points_in_range(ring@),
            forall|i: int| 0 <= i < ring@.len() ==> outline_breakpoint(*partition, #[trigger] ring@[i]),
        decreases k,
    {
        k -= 1;
        proof {
            assert(coordinate_in_range(left@[k as int] as int));
            assert(outline_members(*partition, 3).contains(left@[k as int]));
        }
        if left[k] > 0 && left[k] < height {
            ring.push(PointMicrometers::new(0, left[k]));
            proof {
                lemma_pushed_breakpoint(*partition, ring@);
            }
        }
    }
    Ok(ring)
}

/// A point on the footprint's outline at one of its breakpoints.
pub open spec fn outline_breakpoint(partition: PlanarPartition, point: PointMicrometers) -> bool {
    let footprint = partition.spec_footprint();
    ||| point.spec_y() == 0 && outline_members(partition, 0).contains(point.spec_x())
    ||| point.spec_x() == footprint.spec_width() && outline_members(partition, 1).contains(point.spec_y())
    ||| point.spec_y() == footprint.spec_height() && outline_members(partition, 2).contains(point.spec_x())
    ||| point.spec_x() == 0 && outline_members(partition, 3).contains(point.spec_y())
}

/// Pushing a breakpoint onto a list of breakpoints keeps every entry one.
proof fn lemma_pushed_breakpoint(partition: PlanarPartition, ring: Seq<PointMicrometers>)
    requires
        ring.len() >= 1,
        forall|i: int| 0 <= i < ring.len() - 1 ==> outline_breakpoint(partition, #[trigger] ring.drop_last()[i]),
        outline_breakpoint(partition, ring.last()),
    ensures
        forall|i: int| 0 <= i < ring.len() ==> outline_breakpoint(partition, #[trigger] ring[i]),
{
    assert forall|i: int| 0 <= i < ring.len() implies outline_breakpoint(partition, #[trigger] ring[i]) by {
        if i < ring.len() - 1 {
            assert(ring[i] == ring.drop_last()[i]);
        }
    }
}

/// A reordering of a side's breakpoints lists only recorded breakpoints.
proof fn lemma_sorted_members(side: SideBreakpoints, sorted: Seq<i64>)
    requires
        sorted.to_multiset() == side.spec_values().to_multiset(),
    ensures
        forall|i: int| 0 <= i < sorted.len() ==> side.spec_members().contains(#[trigger] sorted[i]),
{
    lemma_same_members(side.spec_values(), sorted);
}

/// A vertex inside the supported construction range.
pub open spec fn vertex_in_range(vertex: VertexMicrometers) -> bool {
    &&& coordinate_in_range(vertex.spec_x() as int)
    &&& coordinate_in_range(vertex.spec_y() as int)
    &&& 0 <= vertex.spec_z() <= crate::mesh::MAX_MESH_HEIGHT_MICROMETERS
}

/// Every vertex is in range.
pub open spec fn vertices_in_range(vertices: Seq<VertexMicrometers>) -> bool {
    forall|i: int| 0 <= i < vertices.len() ==> vertex_in_range(#[trigger] vertices[i])
}

/// Six times the signed volume of the tetrahedron spanned by the origin and a triangle.
pub open spec fn spec_tetrahedron(a: VertexMicrometers, b: VertexMicrometers, c: VertexMicrometers) -> int {
    let (ax, ay, az) = (a.spec_x() as int, a.spec_y() as int, a.spec_z() as int);
    let (bx, by, bz) = (b.spec_x() as int, b.spec_y() as int, b.spec_z() as int);
    let (cx, cy, cz) = (c.spec_x() as int, c.spec_y() as int, c.spec_z() as int);
    ax * (by * cz - bz * cy) - ay * (bx * cz - bz * cx) + az * (bx * cy - by * cx)
}

/// Six times the signed volume enclosed by the first `count` triangles.
pub open spec fn mesh_volume(vertices: Seq<VertexMicrometers>, triangles: Seq<Triangle>, count: int) -> int
    decreases count,
{
    if count <= 0 {
        0
    } else {
        let t = triangles[count - 1].spec_indices();
        mesh_volume(vertices, triangles, count - 1) + spec_tetrahedron(
            vertices[t[0] as int],
            vertices[t[1] as int],
            vertices[t[2] as int],
        )
    }
}

proof fn lemma_products_bounded(p: int, q: int, r: int, s: int)
    requires
        -1_000_000_000 <= p <= 1_000_000_000,
        -1_000_000_000 <= q <= 1_000_000_000,
        -1_000_000_000 <= r <= 1_000_000_000,
        -1_000_000_000 <= s <= 1_000_000_000,
    ensures
        -1_000_000_000_000_000_000 <= p * q <= 1_000_000_000_000_000_000,
        -1_000_000_000_000_000_000 <= r * s <= 1_000_000_000_000_000_000,
        -2_000_000_000_000_000_000 <= p * q - r * s <= 2_000_000_000_000_000_000,
{
    assert(-1_000_000_000_000_000_000 <= p * q <= 1_000_000_000_000_000_000) by (nonlinear_arith)
        requires
            -1_000_000_000 <= p <= 1_000_000_000,
            -1_000_000_000 <= q <= 1_000_000_000,
    ;
    assert(-1_000_000_000_000_000_000 <= r * s <= 1_000_000_000_000_000_000) by (nonlinear_arith)
        requires
            -1_000_000_000 <= r <= 1_000_000_000,
            -1_000_000_000 <= s <= 1_000_000_000,
    ;
}

proof fn lemma_scaled_bounded(a: int, m: int)
    requires
        0 <= a <= 1_000_000_000,
        -2_000_000_000_000_000_000 <= m <= 2_000_000_000_000_000_000,
    ensures
        -2_000_000_000_000_000_000_000_000_000 <= a * m <= 2_000_000_000_000_000_000_000_000_000,
{
    assert(-2_000_000_000_000_000_000_000_000_000 <= a * m <= 2_000_000_000_000_000_000_000_000_000) by (nonlinear_arith)
        requires
            0 <= a <= 1_000_000_000,
            -2_000_000_000_000_000_000 <= m <= 2_000_000_000_000_000_000,
    ;
}

/// Computes six times the signed volume of the tetrahedron spanned by the
/// origin and a triangle.
pub fn signed_six_tetrahedron(a: VertexMicrometers, b: VertexMicrometers, c: VertexMicrometers) -> (volume: i128)
    requires
        vertex_in_range(a),
        vertex_in_range(b),
        vertex_in_range(c),
    ensures
        volume == spec_tetrahedron(a, b, c),
{
    let ax = a.x() as i128;
    let ay = a.y() as i128;
    let az = a.z() as i128;
    let bx = b.x() as i128;
    let by = b.y() as i128;
    let bz = b.z() as i128;
    let cx = c.x() as i128;
    let cy = c.y() as i128;
    let cz = c.z() as i128;
    proof {
        lemma_products_bounded(by as int, cz as int, bz as int, cy as int);
        lemma_products_bounded(bx as int, cz as int, bz as int, cx as int);
        lemma_products_bounded(bx as int, cy as int, by as int, cx as int);
        lemma_scaled_bounded(ax as int, by * cz - bz * cy);
        lemma_scaled_bounded(ay as int, bx * cz - bz * cx);
        lemma_scaled_bounded(az as int, bx * cy - by * cx);
    }
    ax * (by * cz - bz * cy) - ay * (bx * cz - bz * cx) + az * (bx * cy - by * cx)
}

/// The three corners are collinear (or coincide).
pub open spec fn spec_cross_is_zero(a: VertexMicrometers, b: VertexMicrometers, c: VertexMicrometers) -> bool {
    let ab = (b.spec_x() - a.spec_x(), b.spec_y() - a.spec_y(), b.spec_z() - a.spec_z());
    let ac = (c.spec_x() - a.spec_x(), c.spec_y() - a.spec_y(), c.spec_z() - a.spec_z());
    &&& ab.1 * ac.2 - ab.2 * ac.1 == 0
    &&& ab.2 * ac.0 - ab.0 * ac.2 == 0
    &&& ab.0 * ac.1 - ab.1 * ac.0 == 0
}

/// Returns whether three vertices are collinear.
pub fn cross_is_zero(a: VertexMicrometers, b: VertexMicrometers, c: VertexMicrometers) -> (zero: bool)
    requires
        vertex_in_range(a),
        vertex_in_range(b),
        vertex_in_range(c),
    ensures
        zero == spec_cross_is_zero(a, b, c),
{
    let ab0 = b.x() as i128 - a.x() as i128;
    let ab1 = b.y() as i128 - a.y() as i128;
    let ab2 = b.z() as i128 - a.z() as i128;
    let ac0 = c.x() as i128 - a.x() as i128;
    let ac1 = c.y() as i128 - a.y() as i128;
    let ac2 = c.z() as i128 - a.z() as i128;
    proof {
        lemma_products_bounded(ab1 as int, ac2 as int, ab2 as int, ac1 as int);
        lemma_products_bounded(ab2 as int, ac0 as int, ab0 as int, ac2 as int);
        lemma_products_bounded(ab0 as int, ac1 as int, ab1 as int, ac0 as int);
    }
    ab1 * ac2 - ab2 * ac1 == 0 && ab2 * ac0 - ab0 * ac2 == 0 && ab0 * ac1 - ab1 * ac0 == 0
}

/// Union-find over triangle indices, always linking the larger root under
/// the smaller one so that every parent precedes its child.
pub struct DisjointSets {
    parents: Vec<usize>,
}

impl DisjointSets {
    /// The parent of every element.
    pub closed spec fn spec_parents(&self) -> Seq<usize> {
        self.parents@
    }

    /// Every parent is at most its child.
    pub open spec fn wf(&self) -> bool {
        forall|i: int| 0 <= i < self.spec_parents().len() ==> #[trigger] self.spec_parents()[i] <= i
    }

    /// Creates `count` singleton sets.
    pub fn new(count: usize) -> (sets: Self)
        ensures
            sets.spec_parents().len() == count,
            sets.wf(),
            forall|i: int| 0 <= i < count ==> #[trigger] root_of(sets.spec_parents(), i) == i,
    {
        let mut parents: Vec<usize> = Vec::new();
        while parents.len() < count
            invariant
                parents@.len() <= count,
                forall|i: int| 0 <= i < parents@.len() ==> #[trigger] parents@[i] == i,
            decreases count - parents@.len(),
        {
            let next = parents.len();
            parents.push(next);
        }
        proof {
            assert forall|i: int| 0 <= i < count implies #[trigger] root_of(parents@, i) == i by {
                assert(parents@[i] == i);
            }
        }
        Self { parents }
    }

    /// Returns the representative of an element's set, compressing the path to it.
    pub fn find(&mut self, value: usize) -> (root: usize)
        requires
            value < old(self).spec_parents().len(),
            old(self).wf(),
        ensures
            final(self).spec_parents().len() == old(self).spec_parents().len(),
            final(self).wf(),
            root == root_of(old(self).spec_parents(), value as int),
            forall|i: int| #[trigger] root_of(final(self).spec_parents(), i) == root_of(old(self).spec_parents(), i),
    {
        proof {
            lemma_root_is_root(self.parents@, value as int);
        }
        let mut root = value;
        while self.parents[root] != root
            invariant
                root <= value < self.parents@.len(),
                forall|i: int| 0 <= i < self.parents@.len() ==> #[trigger] self.parents@[i] <= i,
                root_of(self.parents@, root as int) == root_of(self.parents@, value as int),
            decreases root,
        {
            root = self.parents[root];
        }
        let ghost original = self.parents@;
        let mut current = value;
        while current != root
            invariant
                root <= current <= value < self.parents@.len(),
                self.parents@.len() == old(self).spec_parents().len(),
                original == old(self).spec_parents(),
                forall|i: int| 0 <= i < self.parents@.len() ==> #[trigger] self.parents@[i] <= i,
                self.parents@[root as int] == root,
                root == root_of(original, value as int),
                root_of(self.parents@, current as int) == root,
                forall|i: int| #[trigger] root_of(self.parents@, i) == root_of(original, i),
            decreases current,
        {
            let next = self.parents[current];
            if next < root || next == current {
                break;
            }
            let ghost before = self.parents@;
            self.parents.set(current, root);
            proof {
                assert forall|i: int| 0 <= i < self.parents@.len() implies #[trigger] self.parents@[i] <= i by {
                    if i != current {
                        assert(self.parents@[i] == before[i]);
                    }
                }
                lemma_compress_keeps_roots(before, current as int, root);
                assert(self.parents@ == before.update(current as int, root));
                assert(root_of(before, next as int) == root);
            }
            current = next;
        }
        root
    }

    /// Merges the sets of two elements, linking the larger representative
    /// under the smaller one.
    pub fn union(&mut self, first: usize, second: usize)
        requires
            first < old(self).spec_parents().len(),
            second < old(self).spec_parents().len(),
            old(self).wf(),
        ensures
            final(self).spec_parents().len() == old(self).spec_parents().len(),
            final(self).wf(),
            ({
                let first_root = root_of(old(self).spec_parents(), first as int);
                let second_root = root_of(old(self).spec_parents(), second as int);
                let lower = if first_root < second_root {
                    first_root
                } else {
                    second_root
                };
                let upper = if first_root < second_root {
                    second_root
                } else {
                    first_root
                };
                forall|i: int| #[trigger]
                    root_of(final(self).spec_parents(), i) == if root_of(old(self).spec_parents(), i) == upper {
                        lower
                    } else {
                        root_of(old(self).spec_parents(), i)
                    }
            }),
    {
        let first_root = self.find(first);
        let second_root = self.find(second);
        proof {
            lemma_root_is_root(self.parents@, first as int);
            lemma_root_is_root(self.parents@, second as int);
        }
        if first_root == second_root {
            return;
        }
        let ghost before = self.parents@;
        if first_root < second_root {
            self.parents.set(second_root, first_root);
            proof {
                lemma_link_roots(before, first_root, second_root);
                assert(self.parents@ == before.update(second_root as int, first_root));
            }
        } else {
            self.parents.set(first_root, second_root);
            proof {
                lemma_link_roots(before, second_root, first_root);
                assert(self.parents@ == before.update(first_root as int, second_root));
            }
        }
        proof {
            assert forall|i: int| 0 <= i < self.parents@.len() implies #[trigger] self.parents@[i] <= i by {
                if i != first_root && i != second_root {
                    assert(self.parents@[i] == before[i]);
                }
            }
        }
    }
}

/// The representative of element `i`: the root reached by following parents.
pub open spec fn root_of(parents: Seq<usize>, i: int) -> int
    decreases i,
{
    if 0 <= i < parents.len() && parents[i] < i {
        root_of(parents, parents[i] as int)
    } else {
        i
    }
}

/// Parents never exceed their children.
pub open spec fn parents_descend(parents: Seq<usize>) -> bool {
    forall|i: int| 0 <= i < parents.len() ==> #[trigger] parents[i] <= i
}

/// The representative of an element is an element whose parent is itself,
/// and no greater than the element.
pub proof fn lemma_root_is_root(parents: Seq<usize>, i: int)
    requires
        parents_descend(parents),
        0 <= i < parents.len(),
    ensures
        0 <= root_of(parents, i) <= i,
        parents[root_of(parents, i)] == root_of(parents, i),
    decreases i,
{
    if parents[i] < i {
        lemma_root_is_root(parents, parents[i] as int);
    }
}

/// Pointing an element straight at its representative keeps every
/// representative.
pub proof fn lemma_compress_keeps_roots(parents: Seq<usize>, c: int, r: usize)
    requires
        parents_descend(parents),
        0 <= c < parents.len(),
        r == root_of(parents, c),
    ensures
        forall|i: int| #[trigger] root_of(parents.update(c, r), i) == root_of(parents, i),
{
    lemma_root_is_root(parents, c);
    assert forall|i: int| #[trigger] root_of(parents.update(c, r), i) == root_of(parents, i) by {
        lemma_compress_keeps_root(parents, c, r, i);
    }
}

/// One element's representative after pointing `c` at its representative.
proof fn lemma_compress_keeps_root(parents: Seq<usize>, c: int, r: usize, i: int)
    requires
        parents_descend(parents),
        0 <= c < parents.len(),
        r == root_of(parents, c),
        r <= c,
        parents[r as int] == r,
    ensures
        root_of(parents.update(c, r), i) == root_of(parents, i),
    decreases i,
{
    let updated = parents.update(c, r);
    if 0 <= i < parents.len() {
        if i == c {
            if r < c {
                assert(updated[r as int] == r);
                assert(root_of(updated, r as int) == r);
            }
        } else if parents[i] < i {
            lemma_compress_keeps_root(parents, c, r, parents[i] as int);
        }
    }
}

/// Linking the representative `upper` under the smaller representative
/// `lower` moves exactly the elements of `upper`'s set to `lower`.
pub proof fn lemma_link_roots(parents: Seq<usize>, lower: usize, upper: usize)
    requires
        parents_descend(parents),
        lower < upper < parents.len(),
        parents[lower as int] == lower,
        parents[upper as int] == upper,
    ensures
        forall|i: int| #[trigger] root_of(parents.update(upper as int, lower), i) == if root_of(parents, i) == upper {
            lower as int
        } else {
            root_of(parents, i)
        },
{
    assert forall|i: int| #[trigger] root_of(parents.update(upper as int, lower), i) == if root_of(parents, i)
        == upper {
        lower as int
    } else {
        root_of(parents, i)
    } by {
        lemma_link_root(parents, lower, upper, i);
    }
}

/// One element's representative after linking `upper` under `lower`.
proof fn lemma_link_root(parents: Seq<usize>, lower: usize, upper: usize, i: int)
    requires
        parents_descend(parents),
        lower < upper < parents.len(),
        parents[lower as int] == lower,
        parents[upper as int] == upper,
    ensures
        root_of(parents.update(upper as int, lower), i) == if root_of(parents, i) == upper {
            lower as int
        } else {
            root_of(parents, i)
        },
    decreases i,
{
    let updated = parents.update(upper as int, lower);
    if 0 <= i < parents.len() {
        if i == upper as int {
            assert(updated[lower as int] == lower);
            assert(root_of(updated, lower as int) == lower);
        } else if parents[i] < i {
            lemma_link_root(parents, lower, upper, parents[i] as int);
        }
    }
}

/// A vertex paired with its insertion index, ordered by the vertex.
#[derive(Debug, Clone, Copy)]
pub struct IndexedVertex {
    pub vertex: VertexMicrometers,
    pub index: usize,
}

impl LexOrder for IndexedVertex {
    open spec fn ordered_le(self, other: Self) -> bool {
        crate::order::triple_le(crate::mesh::types::vertex_key(self.vertex), crate::mesh::types::vertex_key(other.vertex))
    }

    proof fn lemma_le_total(a: Self, b: Self) {
    }

    proof fn lemma_le_transitive(a: Self, b: Self, c: Self) {
    }

    fn le(&self, other: &Self) -> (result: bool) {
        let a = self.vertex;
        let b = other.vertex;
        a.x() < b.x() || (a.x() == b.x() && (a.y() < b.y() || (a.y() == b.y() && a.z() <= b.z())))
    }
}

/// A vertex's coordinates, the key under which it is interned.
pub open spec fn vertex_tuple(vertex: VertexMicrometers) -> (i64, i64, i64) {
    (vertex.spec_x(), vertex.spec_y(), vertex.spec_z())
}

/// The three corners that a triangle's indices name.
pub open spec fn face_of(vertices: Seq<VertexMicrometers>, indices: [u32; 3]) -> (
    VertexMicrometers,
    VertexMicrometers,
    VertexMicrometers,
) {
    (vertices[indices[0] as int], vertices[indices[1] as int], vertices[indices[2] as int])
}

/// The vertex list after interning one vertex: unchanged when the vertex is
/// already listed, else with the vertex appended.
pub open spec fn interned(vertices: Seq<VertexMicrometers>, vertex: VertexMicrometers) -> Seq<VertexMicrometers> {
    if vertices.contains(vertex) {
        vertices
    } else {
        vertices.push(vertex)
    }
}

/// The vertex list after interning each of `added` in turn.
pub open spec fn interned_all(vertices: Seq<VertexMicrometers>, added: Seq<VertexMicrometers>) -> Seq<
    VertexMicrometers,
>
    decreases added.len(),
{
    if added.len() == 0 {
        vertices
    } else {
        interned(interned_all(vertices, added.drop_last()), added.last())
    }
}

/// The corners of the faces, three by three.
pub open spec fn face_vertices(faces: Seq<(VertexMicrometers, VertexMicrometers, VertexMicrometers)>) -> Seq<
    VertexMicrometers,
>
    decreases faces.len(),
{
    if faces.len() == 0 {
        Seq::empty()
    } else {
        let face = faces.last();
        face_vertices(faces.drop_last()) + seq![face.0, face.1, face.2]
    }
}

/// `longer` starts with `shorter`.
pub open spec fn extends<T>(shorter: Seq<T>, longer: Seq<T>) -> bool {
    shorter.len() <= longer.len() && longer.subrange(0, shorter.len() as int) == shorter
}

/// A point of the plane raised to height `z`.
pub open spec fn lift(point: PointMicrometers, z: i64) -> VertexMicrometers {
    VertexMicrometers::spec_new(point.spec_x(), point.spec_y(), z)
}

/// The face of a cap triangle at height `z`: in the triangle's order when
/// facing up, with its last two corners swapped when facing down.
pub open spec fn cap_face(triangle: [PointMicrometers; 3], z: i64, upward: bool) -> (
    VertexMicrometers,
    VertexMicrometers,
    VertexMicrometers,
) {
    if upward {
        (lift(triangle[0], z), lift(triangle[1], z), lift(triangle[2], z))
    } else {
        (lift(triangle[0], z), lift(triangle[2], z), lift(triangle[1], z))
    }
}

/// The faces of a cap, one per triangle.
pub open spec fn cap_faces(triangles: Seq<[PointMicrometers; 3]>, z: i64, upward: bool) -> Seq<
    (VertexMicrometers, VertexMicrometers, VertexMicrometers),
> {
    triangles.map_values(|triangle: [PointMicrometers; 3]| cap_face(triangle, z, upward))
}

/// `extends` is transitive.
proof fn lemma_extends_transitive<T>(a: Seq<T>, b: Seq<T>, c: Seq<T>)
    requires
        extends(a, b),
        extends(b, c),
    ensures
        extends(a, c),
{
    assert(c.subrange(0, a.len() as int) =~= c.subrange(0, b.len() as int).subrange(0, a.len() as int));
}

/// Interning keeps what was listed and lists the vertex.
proof fn lemma_interned_all_extends(vertices: Seq<VertexMicrometers>, added: Seq<VertexMicrometers>)
    ensures
        extends(vertices, interned_all(vertices, added)),
        interned_all(vertices, added).len() <= vertices.len() + added.len(),
        forall|i: int| 0 <= i < added.len() ==> interned_all(vertices, added).contains(#[trigger] added[i]),
    decreases added.len(),
{
    if added.len() == 0 {
        assert(vertices.subrange(0, vertices.len() as int) =~= vertices);
    } else {
        let before = interned_all(vertices, added.drop_last());
        lemma_interned_all_extends(vertices, added.drop_last());
        let after = interned_all(vertices, added);
        assert(after.subrange(0, before.len() as int) == before);
        assert(after.subrange(0, vertices.len() as int) =~= before.subrange(0, vertices.len() as int));
        assert forall|i: int| 0 <= i < added.len() implies after.contains(#[trigger] added[i]) by {
            if i < added.len() - 1 {
                assert(before.contains(added.drop_last()[i]));
                let j = choose|j: int| 0 <= j < before.len() && before[j] == added.drop_last()[i];
                assert(after[j] == before[j]);
            } else if !before.contains(added.last()) {
                assert(after[before.len() as int] == added.last());
            }
        }
    }
}

/// Interning `first` then `second` is interning them together.
proof fn lemma_interned_all_append(
    vertices: Seq<VertexMicrometers>,
    first: Seq<VertexMicrometers>,
    second: Seq<VertexMicrometers>,
)
    ensures
        interned_all(vertices, first + second) == interned_all(interned_all(vertices, first), second),
    decreases second.len(),
{
    if second.len() == 0 {
        assert(first + second =~= first);
    } else {
        lemma_interned_all_append(vertices, first, second.drop_last());
        assert((first + second).drop_last() =~= first + second.drop_last());
        assert((first + second).last() == second.last());
    }
}

/// The corners of concatenated faces are concatenated.
proof fn lemma_face_vertices_append(
    first: Seq<(VertexMicrometers, VertexMicrometers, VertexMicrometers)>,
    second: Seq<(VertexMicrometers, VertexMicrometers, VertexMicrometers)>,
)
    ensures
        face_vertices(first + second) == face_vertices(first) + face_vertices(second),
    decreases second.len(),
{
    if second.len() == 0 {
        assert(first + second =~= first);
        assert(face_vertices(first) + face_vertices(second) =~= face_vertices(first));
    } else {
        lemma_face_vertices_append(first, second.drop_last());
        assert((first + second).drop_last() =~= first + second.drop_last());
        let face = second.last();
        assert(face_vertices(first + second) =~= face_vertices(first) + face_vertices(second.drop_last()) + seq![
            face.0,
            face.1,
            face.2,
        ]);
    }
}

/// Interning the corners of more faces lists at least as many vertices.
proof fn lemma_interned_faces_grow(
    vertices: Seq<VertexMicrometers>,
    first: Seq<(VertexMicrometers, VertexMicrometers, VertexMicrometers)>,
    second: Seq<(VertexMicrometers, VertexMicrometers, VertexMicrometers)>,
)
    ensures
        interned_all(vertices, face_vertices(first)).len() <= interned_all(vertices, face_vertices(first + second)).len(),
{
    lemma_face_vertices_append(first, second);
    lemma_interned_all_append(vertices, face_vertices(first), face_vertices(second));
    lemma_interned_all_extends(interned_all(vertices, face_vertices(first)), face_vertices(second));
}

/// Every vertex lies at a height from `floor` to `ceiling`.
pub open spec fn heights_within(vertices: Seq<VertexMicrometers>, floor: int, ceiling: int) -> bool {
    forall|i: int| 0 <= i < vertices.len() ==> floor <= #[trigger] vertices[i].spec_z() <= ceiling
}

/// Two steps that each keep heights within a band keep them within it.
proof fn lemma_heights_step(
    start: Seq<VertexMicrometers>,
    before: Seq<VertexMicrometers>,
    after: Seq<VertexMicrometers>,
    low: int,
    high: int,
)
    requires
        forall|floor: int, ceiling: int|
            #![trigger heights_within(before, floor, ceiling)]
            heights_within(start, floor, ceiling) && floor <= low && high <= ceiling ==> heights_within(
                before,
                floor,
                ceiling,
            ),
        forall|floor: int, ceiling: int|
            #![trigger heights_within(after, floor, ceiling)]
            heights_within(before, floor, ceiling) && floor <= low && high <= ceiling ==> heights_within(
                after,
                floor,
                ceiling,
            ),
    ensures
        forall|floor: int, ceiling: int|
            #![trigger heights_within(after, floor, ceiling)]
            heights_within(start, floor, ceiling) && floor <= low && high <= ceiling ==> heights_within(
                after,
                floor,
                ceiling,
            ),
{
    assert forall|floor: int, ceiling: int|
        heights_within(start, floor, ceiling) && floor <= low && high <= ceiling implies #[trigger] heights_within(
        after,
        floor,
        ceiling,
    ) by {
        assert(heights_within(before, floor, ceiling));
    }
}

/// `face` runs through the same corners as `original`, starting at one of them.
pub open spec fn face_rotation(
    face: (VertexMicrometers, VertexMicrometers, VertexMicrometers),
    original: (VertexMicrometers, VertexMicrometers, VertexMicrometers),
) -> bool {
    face == original || face == (original.1, original.2, original.0) || face == (original.2, original.0, original.1)
}

/// The mesh's triangles are, in some order and each rotated, exactly the
/// given faces.
pub open spec fn arrangement_of(
    vertices: Seq<VertexMicrometers>,
    triangles: Seq<Triangle>,
    faces: Seq<(VertexMicrometers, VertexMicrometers, VertexMicrometers)>,
) -> bool {
    exists|arranged: Seq<Triangle>|
        #![trigger arranged.to_multiset()]
        arranged.len() == faces.len() && triangles.to_multiset() == arranged.to_multiset() && forall|k: int|
            0 <= k < faces.len() ==> face_rotation(face_of(vertices, (#[trigger] arranged[k]).spec_indices()), faces[k])
}

/// Some indexed mesh over the vertices and triangles arranges the faces and
/// breaks `broken`.
pub open spec fn arranged_and(
    faces: Seq<(VertexMicrometers, VertexMicrometers, VertexMicrometers)>,
    broken: spec_fn(Seq<VertexMicrometers>, Seq<Triangle>) -> bool,
) -> bool {
    exists|vertices: Seq<VertexMicrometers>, triangles: Seq<Triangle>|
        #![trigger arrangement_of(vertices, triangles, faces)]
        arrangement_of(vertices, triangles, faces) && broken(vertices, triangles)
}

/// The mesh's triangles are, in some order and each rotated, exactly the
/// given faces.
pub open spec fn mesh_arranges(
    mesh: TriangleMesh,
    faces: Seq<(VertexMicrometers, VertexMicrometers, VertexMicrometers)>,
) -> bool {
    exists|arranged: Seq<Triangle>|
        #![trigger arranged.to_multiset()]
        arranged.len() == faces.len() && mesh.spec_triangles().to_multiset() == arranged.to_multiset() && forall|k: int|
            0 <= k < faces.len() ==> face_rotation(
                face_of(mesh.spec_vertices(), (#[trigger] arranged[k]).spec_indices()),
                faces[k],
            )
}

/// The faces of a prism over a polygon: its cap triangles facing down at
/// `floor` and up at `top`, and the walls of its rings between them.
pub open spec fn prism_faces(caps: Seq<[PointMicrometers; 3]>, polygon: Polygon, floor: i64, top: i64) -> Seq<
    (VertexMicrometers, VertexMicrometers, VertexMicrometers),
> {
    cap_faces(caps, floor, false) + cap_faces(caps, top, true) + polygon_wall_faces(polygon, floor, top)
}

/// The mesh is the prism over the polygon from `floor` to `top`, capped by a
/// counter-clockwise triangulation that fits the polygon's rings.
pub open spec fn prism_mesh_of(mesh: TriangleMesh, polygon: Polygon, floor: i64, top: i64) -> bool {
    exists|caps: Seq<[PointMicrometers; 3]>|
        #![trigger prism_faces(caps, polygon, floor, top)]
        positively_oriented(caps) && triangulation_fits(
            polygon.spec_exterior().spec_vertices(),
            ring_views(polygon.spec_holes()),
            caps,
        ) && mesh_arranges(mesh, prism_faces(caps, polygon, floor, top))
}

/// The triangle lists of a sequence of caps.
pub open spec fn caps_views(caps: Seq<Vec<[PointMicrometers; 3]>>) -> Seq<Seq<[PointMicrometers; 3]>> {
    caps.map_values(|cap: Vec<[PointMicrometers; 3]>| cap@)
}

/// Each cap is a counter-clockwise triangulation that fits its polygon.
pub open spec fn caps_fit(caps: Seq<Seq<[PointMicrometers; 3]>>, polygons: Seq<Polygon>) -> bool {
    &&& caps.len() == polygons.len()
    &&& forall|i: int|
        0 <= i < caps.len() ==> positively_oriented(#[trigger] caps[i]) && triangulation_fits(
            polygons[i].spec_exterior().spec_vertices(),
            ring_views(polygons[i].spec_holes()),
            caps[i],
        )
}

/// The first `count` caps facing up at `height`.
pub open spec fn shelf_faces(caps: Seq<Seq<[PointMicrometers; 3]>>, count: int, height: i64) -> Seq<
    (VertexMicrometers, VertexMicrometers, VertexMicrometers),
>
    decreases count,
{
    if count <= 0 {
        Seq::empty()
    } else {
        shelf_faces(caps, count - 1, height) + cap_faces(caps[count - 1], height, true)
    }
}

/// For the first `count` polygons, the cap facing up at `top` and the walls
/// from `floor` to `top`.
pub open spec fn raised_faces(
    caps: Seq<Seq<[PointMicrometers; 3]>>,
    polygons: Seq<Polygon>,
    count: int,
    floor: i64,
    top: i64,
) -> Seq<(VertexMicrometers, VertexMicrometers, VertexMicrometers)>
    decreases count,
{
    if count <= 0 {
        Seq::empty()
    } else {
        raised_faces(caps, polygons, count - 1, floor, top) + cap_faces(caps[count - 1], top, true)
            + polygon_wall_faces(polygons[count - 1], floor, top)
    }
}

/// The substrate's faces: the footprint bottom facing down at zero, the
/// outline walls up to the backing, a shelf at the backing under every fill
/// part, and every raised substrate polygon's top cap and walls.
pub open spec fn substrate_faces(
    footprint_caps: Seq<[PointMicrometers; 3]>,
    outline: Seq<PointMicrometers>,
    fill_caps: Seq<Seq<[PointMicrometers; 3]>>,
    substrate_caps: Seq<Seq<[PointMicrometers; 3]>>,
    substrate_polygons: Seq<Polygon>,
    backing: i64,
    total: i64,
) -> Seq<(VertexMicrometers, VertexMicrometers, VertexMicrometers)> {
    cap_faces(footprint_caps, 0, false) + ring_wall_faces(outline, outline.len() as int, 0, backing) + shelf_faces(
        fill_caps,
        fill_caps.len() as int,
        backing,
    ) + raised_faces(substrate_caps, substrate_polygons, substrate_caps.len() as int, backing, total)
}

/// The mesh is the substrate of the partition: built from the cut footprint
/// outline and from counter-clockwise triangulations fitting the footprint,
/// every fill part and every raised substrate polygon.
pub open spec fn substrate_mesh_of(mesh: TriangleMesh, partition: PlanarPartition, backing: i64, total: i64) -> bool {
    exists|
        footprint_caps: Seq<[PointMicrometers; 3]>,
        outline: Seq<PointMicrometers>,
        fill_caps: Seq<Seq<[PointMicrometers; 3]>>,
        substrate_caps: Seq<Seq<[PointMicrometers; 3]>>,
    |
        #![trigger substrate_faces(
            footprint_caps,
            outline,
            fill_caps,
            substrate_caps,
            partition.spec_substrate_upper().spec_polygons(),
            backing,
            total,
        )]
        {
            &&& forall|i: int| 0 <= i < outline.len() ==> outline_breakpoint(partition, #[trigger] outline[i])
            &&& positively_oriented(footprint_caps)
            &&& triangulation_fits(outline, Seq::empty(), footprint_caps)
            &&& caps_fit(fill_caps, partition.spec_fill_parts())
            &&& caps_fit(substrate_caps, partition.spec_substrate_upper().spec_polygons())
            &&& mesh_arranges(
                mesh,
                substrate_faces(
                    footprint_caps,
                    outline,
                    fill_caps,
                    substrate_caps,
                    partition.spec_substrate_upper().spec_polygons(),
                    backing,
                    total,
                ),
            )
        }
}

/// Collects triangles over interned vertices.
pub struct MeshBuilder {
    vertices: Vec<VertexMicrometers>,
    vertex_indices: std::collections::BTreeMap<(i64, i64, i64), u32>,
    triangles: Vec<[u32; 3]>,
}

impl MeshBuilder {
    /// The distinct vertices, in the order they were first added.
    pub closed spec fn spec_vertices(&self) -> Seq<VertexMicrometers> {
        self.vertices@
    }

    /// The triangles, as indices into [`Self::spec_vertices`].
    pub closed spec fn spec_triangles(&self) -> Seq<[u32; 3]> {
        self.triangles@
    }

    /// The triangles, by their corners.
    pub open spec fn spec_faces(&self) -> Seq<(VertexMicrometers, VertexMicrometers, VertexMicrometers)> {
        Seq::new(self.spec_triangles().len(), |t: int| face_of(self.spec_vertices(), self.spec_triangles()[t]))
    }

    /// Vertices are in range, distinct and within the vertex limit; every
    /// triangle index names a vertex; and the interning table maps each
    /// vertex's coordinates to its index and nothing else.
    pub closed spec fn wf(&self) -> bool {
        &&& vertices_in_range(self.vertices@)
        &&& self.vertices@.len() <= MAX_MESH_VERTICES
        &&& self.triangles@.len() <= MAX_MESH_TRIANGLES
        &&& forall|t: int|
            0 <= t < self.triangles@.len() ==> (#[trigger] self.triangles@[t])[0] < self.vertices@.len()
                && self.triangles@[t][1] < self.vertices@.len() && self.triangles@[t][2]
                < self.vertices@.len()
        &&& forall|key: (i64, i64, i64)|
            #[trigger] self.vertex_indices@.contains_key(key) ==> self.vertex_indices@[key]
                < self.vertices@.len() && vertex_tuple(self.vertices@[self.vertex_indices@[key] as int]) == key
        &&& forall|i: int|
            0 <= i < self.vertices@.len() ==> self.vertex_indices@.contains_key(vertex_tuple(#[trigger] self.vertices@[i]))
                && self.vertex_indices@[vertex_tuple(self.vertices@[i])] == i
    }

    /// The vertices are distinct.
    proof fn lemma_vertices_distinct(&self)
        requires
            self.wf(),
        ensures
            forall|a: int, b: int|
                0 <= a < self.spec_vertices().len() && 0 <= b < self.spec_vertices().len() && #[trigger] self.spec_vertices()[a]
                    == #[trigger] self.spec_vertices()[b] ==> a == b,
    {
        assert forall|a: int, b: int|
            0 <= a < self.spec_vertices().len() && 0 <= b < self.spec_vertices().len() && #[trigger] self.spec_vertices()[a]
                == #[trigger] self.spec_vertices()[b] implies a == b by {
            assert(self.vertex_indices@[vertex_tuple(self.vertices@[a])] == a);
            assert(self.vertex_indices@[vertex_tuple(self.vertices@[b])] == b);
        }
    }

    /// Starts an empty mesh.
    pub fn new() -> (builder: Self)
        ensures
            builder.wf(),
            builder.spec_vertices() == Seq::<VertexMicrometers>::empty(),
            builder.spec_triangles() == Seq::<[u32; 3]>::empty(),
    {
        Self { vertices: Vec::new(), vertex_indices: std::collections::BTreeMap::new(), triangles: Vec::new() }
    }

    /// Returns the index of a vertex, adding it when it is new; refuses a new
    /// vertex once the vertex limit is reached.
    fn intern_vertex(&mut self, vertex: VertexMicrometers) -> (result: Result<u32, MeshError>)
        requires
            old(self).wf(),
            vertex_in_range(vertex),
        ensures
            final(self).wf(),
            final(self).spec_triangles() == old(self).spec_triangles(),
            result matches Ok(index) ==> final(self).spec_vertices() == interned(old(self).spec_vertices(), vertex)
                && index < final(self).spec_vertices().len() && final(self).spec_vertices()[index as int] == vertex,
            result is Ok <==> interned(old(self).spec_vertices(), vertex).len() <= MAX_MESH_VERTICES,
            result is Err ==> final(self).spec_vertices() == old(self).spec_vertices() && result == Err::<u32, MeshError>(
                MeshError::TooManyMeshVertices { required: (MAX_MESH_VERTICES + 1) as usize, max: MAX_MESH_VERTICES },
            ),
            forall|floor: int, ceiling: int|
                #![trigger heights_within(final(self).spec_vertices(), floor, ceiling)]
                heights_within(old(self).spec_vertices(), floor, ceiling) && floor <= vertex.spec_z() <= ceiling ==> heights_within(
                    final(self).spec_vertices(),
                    floor,
                    ceiling,
                ),
    {
        let key = (vertex.x(), vertex.y(), vertex.z());
        proof {
            assert(key == vertex_tuple(vertex));
        }
        match self.vertex_indices.get(&key) {
            Some(index) => {
                proof {
                    let found = self.vertices@[*index as int];
                    VertexMicrometers::lemma_coordinates_determine(found, vertex);
                    assert(self.vertices@.contains(vertex));
                }
                return Ok(*index);
            },
            None => {},
        }
        proof {
            if self.vertices@.contains(vertex) {
                let i = choose|i: int| 0 <= i < self.vertices@.len() && self.vertices@[i] == vertex;
                assert(self.vertex_indices@.contains_key(vertex_tuple(self.vertices@[i])));
            }
        }
        let count = self.vertices.len();
        if count >= MAX_MESH_VERTICES {
            return Err(MeshError::TooManyMeshVertices { required: count + 1, max: MAX_MESH_VERTICES });
        }
        if count > u32::MAX as usize {
            return Err(MeshError::TriangleIndexOverflow);
        }
        let index = count as u32;
        let ghost before = self.vertices@;
        let ghost table = self.vertex_indices@;
        self.vertices.push(vertex);
        self.vertex_indices.insert(key, index);
        proof {
            assert forall|t: int|
                0 <= t < self.triangles@.len() implies (#[trigger] self.triangles@[t])[0] < self.vertices@.len()
                && self.triangles@[t][1] < self.vertices@.len() && self.triangles@[t][2]
                < self.vertices@.len() by {}
            assert forall|i: int| 0 <= i < self.vertices@.len() implies vertex_in_range(#[trigger] self.vertices@[i]) by {
                if i < count {
                    assert(self.vertices@[i] == before[i]);
                }
            }
            assert forall|k: (i64, i64, i64)| #[trigger] self.vertex_indices@.contains_key(k) implies self.vertex_indices@[k]
                < self.vertices@.len() && vertex_tuple(self.vertices@[self.vertex_indices@[k] as int]) == k by {
                if k != key {
                    assert(table.contains_key(k));
                    assert(self.vertices@[table[k] as int] == before[table[k] as int]);
                }
            }
            assert forall|i: int| 0 <= i < self.vertices@.len() implies self.vertex_indices@.contains_key(
                vertex_tuple(#[trigger] self.vertices@[i]),
            ) && self.vertex_indices@[vertex_tuple(self.vertices@[i])] == i by {
                if i < count {
                    assert(self.vertices@[i] == before[i]);
                    assert(table.contains_key(vertex_tuple(before[i])));
                    assert(vertex_tuple(before[i]) != key);
                }
            }
        }
        Ok(index)
    }

    /// Adds one triangle, interning its corners in order; refuses it once the
    /// triangle limit is reached or when a new corner would exceed the vertex
    /// limit.
    fn add_triangle(&mut self, corners: [VertexMicrometers; 3]) -> (result: Result<(), MeshError>)
        requires
            old(self).wf(),
            vertex_in_range(corners[0]),
            vertex_in_range(corners[1]),
            vertex_in_range(corners[2]),
        ensures
            final(self).wf(),
            extends(old(self).spec_vertices(), final(self).spec_vertices()),
            ({
                let added = seq![corners[0], corners[1], corners[2]];
                &&& result is Ok ==> final(self).spec_faces() == old(self).spec_faces().push(
                    (corners[0], corners[1], corners[2]),
                ) && final(self).spec_vertices() == interned_all(old(self).spec_vertices(), added)
                &&& result is Ok <==> old(self).spec_triangles().len() < MAX_MESH_TRIANGLES && interned_all(
                    old(self).spec_vertices(),
                    added,
                ).len() <= MAX_MESH_VERTICES
            }),
            result is Err ==> final(self).spec_triangles() == old(self).spec_triangles(),
            result is Err ==> result == Err::<(), MeshError>(
                MeshError::TooManyMeshTriangles { required: (MAX_MESH_TRIANGLES + 1) as usize, max: MAX_MESH_TRIANGLES },
            ) || result == Err::<(), MeshError>(
                MeshError::TooManyMeshVertices { required: (MAX_MESH_VERTICES + 1) as usize, max: MAX_MESH_VERTICES },
            ),
            forall|floor: int, ceiling: int|
                #![trigger heights_within(final(self).spec_vertices(), floor, ceiling)]
                heights_within(old(self).spec_vertices(), floor, ceiling) && floor <= corners[0].spec_z() <= ceiling
                    && floor <= corners[1].spec_z() <= ceiling && floor <= corners[2].spec_z() <= ceiling ==> heights_within(
                    final(self).spec_vertices(),
                    floor,
                    ceiling,
                ),
    {
        let ghost start = self.vertices@;
        let ghost added = seq![corners[0], corners[1], corners[2]];
        proof {
            assert(added.drop_last() =~= seq![corners[0], corners[1]]);
            assert(seq![corners[0], corners[1]].drop_last() =~= seq![corners[0]]);
            assert(start.subrange(0, start.len() as int) =~= start);
            assert(seq![corners[0]].drop_last() =~= Seq::<VertexMicrometers>::empty());
            assert(interned_all(start, Seq::<VertexMicrometers>::empty()) == start);
            assert(seq![corners[0]].last() == corners[0]);
            assert(interned_all(start, seq![corners[0]]) == interned(start, corners[0]));
            assert(seq![corners[0], corners[1]].last() == corners[1]);
            assert(added.last() == corners[2]);
            assert(interned_all(start, seq![corners[0], corners[1]]) == interned(interned(start, corners[0]), corners[1]));
            assert(interned_all(start, added) == interned(
                interned(interned(start, corners[0]), corners[1]),
                corners[2],
            ));
            lemma_interned_all_extends(start, added);
            lemma_interned_all_extends(start, added.drop_last());
            lemma_interned_all_extends(start, added.drop_last().drop_last());
            lemma_interned_all_extends(interned(start, corners[0]), seq![corners[1], corners[2]]);
            lemma_interned_all_extends(interned(interned(start, corners[0]), corners[1]), seq![corners[2]]);
            assert(seq![corners[2]].drop_last() =~= Seq::<VertexMicrometers>::empty());
            assert(seq![corners[1], corners[2]].drop_last() =~= seq![corners[1]]);
            assert(seq![corners[1]].drop_last() =~= Seq::<VertexMicrometers>::empty());
        }
        let count = self.triangles.len();
        if count >= MAX_MESH_TRIANGLES {
            return Err(MeshError::TooManyMeshTriangles { required: count + 1, max: MAX_MESH_TRIANGLES });
        }
        let a = self.intern_vertex(corners[0])?;
        let ghost first = self.vertices@;
        let b = self.intern_vertex(corners[1])?;
        let ghost second = self.vertices@;
        let c = self.intern_vertex(corners[2])?;
        let ghost before = self.triangles@;
        let ghost faces_before = self.spec_faces();
        self.triangles.push([a, b, c]);
        proof {
            assert forall|t: int|
                0 <= t < self.triangles@.len() implies (#[trigger] self.triangles@[t])[0] < self.vertices@.len()
                && self.triangles@[t][1] < self.vertices@.len() && self.triangles@[t][2]
                < self.vertices@.len() by {
                if t < before.len() {
                    assert(self.triangles@[t] == before[t]);
                }
            }
            assert(self.vertices@[a as int] == first[a as int]);
            assert(self.vertices@[a as int] == second[a as int]);
            assert(self.vertices@[b as int] == second[b as int]);
            assert(self.spec_faces() =~= old(self).spec_faces().push((corners[0], corners[1], corners[2]))) by {
                assert forall|t: int| 0 <= t < before.len() implies #[trigger] face_of(self.vertices@, self.triangles@[t])
                    == face_of(start, before[t]) by {
                    assert(self.triangles@[t] == before[t]);
                    assert(self.vertices@[before[t][0] as int] == start[before[t][0] as int]);
                    assert(self.vertices@[before[t][1] as int] == start[before[t][1] as int]);
                    assert(self.vertices@[before[t][2] as int] == start[before[t][2] as int]);
                }
            }
        }
        Ok(())
    }

    /// Adds a cap of planar triangles at height `z`, facing up or down.
    fn add_cap(&mut self, triangles: &[[PointMicrometers; 3]], z: i64, upward: bool) -> (result: Result<(), MeshError>)
        requires
            old(self).wf(),
            0 <= z <= crate::mesh::MAX_MESH_HEIGHT_MICROMETERS,
            forall|i: int| 0 <= i < triangles@.len() ==> crate::mesh::exact::triangle_in_range(#[trigger] triangles@[i]),
        ensures
            final(self).wf(),
            extends(old(self).spec_vertices(), final(self).spec_vertices()),
            ({
                let faces = cap_faces(triangles@, z, upward);
                &&& result is Ok ==> final(self).spec_faces() == old(self).spec_faces() + faces
                    && final(self).spec_vertices() == interned_all(old(self).spec_vertices(), face_vertices(faces))
                &&& result is Ok <==> old(self).spec_triangles().len() + triangles@.len() <= MAX_MESH_TRIANGLES
                    && interned_all(old(self).spec_vertices(), face_vertices(faces)).len() <= MAX_MESH_VERTICES
            }),
            result is Err ==> result == Err::<(), MeshError>(
                MeshError::TooManyMeshTriangles { required: (MAX_MESH_TRIANGLES + 1) as usize, max: MAX_MESH_TRIANGLES },
            ) || result == Err::<(), MeshError>(
                MeshError::TooManyMeshVertices { required: (MAX_MESH_VERTICES + 1) as usize, max: MAX_MESH_VERTICES },
            ),
            forall|floor: int, ceiling: int|
                #![trigger heights_within(final(self).spec_vertices(), floor, ceiling)]
                heights_within(old(self).spec_vertices(), floor, ceiling) && floor <= z <= ceiling ==> heights_within(
                    final(self).spec_vertices(),
                    floor,
                    ceiling,
                ),
    {
        let ghost start_vertices = self.spec_vertices();
        let ghost start_faces = self.spec_faces();
        let ghost all = cap_faces(triangles@, z, upward);
        proof {
            assert(start_vertices.subrange(0, start_vertices.len() as int) =~= start_vertices);
            assert(cap_faces(triangles@.subrange(0, 0), z, upward) =~= Seq::empty());
            assert(start_faces + Seq::empty() =~= start_faces);
        }
        let mut i: usize = 0;
        while i < triangles.len()
            invariant
                self.wf(),
                0 <= z <= crate::mesh::MAX_MESH_HEIGHT_MICROMETERS,
                forall|j: int| 0 <= j < triangles@.len() ==> crate::mesh::exact::triangle_in_range(#[trigger] triangles@[j]),
                0 <= i <= triangles@.len(),
                start_vertices == old(self).spec_vertices(),
                start_faces == old(self).spec_faces(),
                all == cap_faces(triangles@, z, upward),
                extends(start_vertices, self.spec_vertices()),
                forall|floor: int, ceiling: int|
                    #![trigger heights_within(self.spec_vertices(), floor, ceiling)]
                    heights_within(start_vertices, floor, ceiling) && floor <= z && z <= ceiling ==> heights_within(
                        self.spec_vertices(),
                        floor,
                        ceiling,
                    ),
                self.spec_faces() == start_faces + cap_faces(triangles@.subrange(0, i as int), z, upward),
                self.spec_vertices() == interned_all(
                    start_vertices,
                    face_vertices(cap_faces(triangles@.subrange(0, i as int), z, upward)),
                ),
            decreases triangles@.len() - i,
        {
            let triangle = triangles[i];
            proof {
                assert(crate::mesh::exact::triangle_in_range(triangles@[i as int]));
            }
            let points = if upward {
                [triangle[0], triangle[1], triangle[2]]
            } else {
                [triangle[0], triangle[2], triangle[1]]
            };
            let corners = [
                VertexMicrometers::new(points[0].x(), points[0].y(), z),
                VertexMicrometers::new(points[1].x(), points[1].y(), z),
                VertexMicrometers::new(points[2].x(), points[2].y(), z),
            ];
            let ghost done = cap_faces(triangles@.subrange(0, i as int), z, upward);
            let ghost face = cap_face(triangle, z, upward);
            let ghost vertices_before = self.spec_vertices();
            let ghost count_before = self.spec_triangles().len();
            proof {
                assert(count_before == self.spec_faces().len());
                assert(count_before == old(self).spec_triangles().len() + i) by {
                    assert(start_faces.len() == old(self).spec_triangles().len());
                }
                assert((corners[0], corners[1], corners[2]) == face);
                assert(cap_faces(triangles@.subrange(0, i + 1), z, upward) =~= done.push(face));
                assert(done.push(face).drop_last() =~= done);
                assert(face_vertices(done.push(face)) == face_vertices(done) + seq![corners[0], corners[1], corners[2]]);
                lemma_interned_all_append(start_vertices, face_vertices(done), seq![corners[0], corners[1], corners[2]]);
                assert(done.push(face) + cap_faces(triangles@.subrange(i + 1, triangles@.len() as int), z, upward)
                    =~= all);
                lemma_interned_faces_grow(
                    start_vertices,
                    done.push(face),
                    cap_faces(triangles@.subrange(i + 1, triangles@.len() as int), z, upward),
                );
            }
            match self.add_triangle(corners) {
                Ok(()) => {},
                Err(error) => {
                    proof {
                        lemma_heights_step(start_vertices, vertices_before, self.spec_vertices(), z as int, z as int);
                        lemma_extends_transitive(start_vertices, vertices_before, self.spec_vertices());
                        assert(interned_all(vertices_before, seq![corners[0], corners[1], corners[2]]) == interned_all(
                            start_vertices,
                            face_vertices(done.push(face)),
                        ));
                        assert(face_vertices(all) == face_vertices(
                            done.push(face) + cap_faces(triangles@.subrange(i + 1, triangles@.len() as int), z, upward),
                        ));
                    }
                    return Err(error);
                },
            }
            proof {
                lemma_heights_step(start_vertices, vertices_before, self.spec_vertices(), z as int, z as int);
                lemma_extends_transitive(start_vertices, vertices_before, self.spec_vertices());
                assert(start_faces + done.push(face) =~= (start_faces + done).push(face));
            }
            i += 1;
        }
        proof {
            assert(triangles@.subrange(0, triangles@.len() as int) =~= triangles@);
        }
        Ok(())
    }

    /// Adds vertical walls between `low` and `high` along a closed ring: two
    /// triangles per edge, split along the diagonal fixed by the edge's
    /// direction.
    fn add_ring_walls(&mut self, ring: &[PointMicrometers], low: i64, high: i64) -> (result: Result<(), MeshError>)
        requires
            old(self).wf(),
            points_in_range(ring@),
            0 <= low <= high <= crate::mesh::MAX_MESH_HEIGHT_MICROMETERS,
        ensures
            final(self).wf(),
            extends(old(self).spec_vertices(), final(self).spec_vertices()),
            ({
                let faces = ring_wall_faces(ring@, ring@.len() as int, low, high);
                &&& result is Ok ==> final(self).spec_faces() == old(self).spec_faces() + faces
                    && final(self).spec_vertices() == interned_all(old(self).spec_vertices(), face_vertices(faces))
                &&& result is Ok <==> old(self).spec_triangles().len() + faces.len() <= MAX_MESH_TRIANGLES
                    && interned_all(old(self).spec_vertices(), face_vertices(faces)).len() <= MAX_MESH_VERTICES
            }),
            result is Err ==> result == Err::<(), MeshError>(
                MeshError::TooManyMeshTriangles { required: (MAX_MESH_TRIANGLES + 1) as usize, max: MAX_MESH_TRIANGLES },
            ) || result == Err::<(), MeshError>(
                MeshError::TooManyMeshVertices { required: (MAX_MESH_VERTICES + 1) as usize, max: MAX_MESH_VERTICES },
            ),
            forall|floor: int, ceiling: int|
                #![trigger heights_within(final(self).spec_vertices(), floor, ceiling)]
                heights_within(old(self).spec_vertices(), floor, ceiling) && floor <= low && high <= ceiling ==> heights_within(
                    final(self).spec_vertices(),
                    floor,
                    ceiling,
                ),
    {
        let n = ring.len();
        let ghost start_vertices = self.spec_vertices();
        let ghost start_faces = self.spec_faces();
        let ghost all = ring_wall_faces(ring@, n as int, low, high);
        proof {
            assert(start_vertices.subrange(0, start_vertices.len() as int) =~= start_vertices);
            lemma_ring_wall_faces_len(ring@, n as int, low, high);
            assert(all.subrange(0, 0) =~= Seq::empty());
            assert(start_faces + Seq::empty() =~= start_faces);
        }
        let mut i: usize = 0;
        while i < n
            invariant
                self.wf(),
                n == ring@.len(),
                points_in_range(ring@),
                0 <= low <= high <= crate::mesh::MAX_MESH_HEIGHT_MICROMETERS,
                0 <= i <= n,
                start_vertices == old(self).spec_vertices(),
                start_faces == old(self).spec_faces(),
                all == ring_wall_faces(ring@, n as int, low, high),
                all.len() == 2 * n,
                extends(start_vertices, self.spec_vertices()),
                forall|floor: int, ceiling: int|
                    #![trigger heights_within(self.spec_vertices(), floor, ceiling)]
                    heights_within(start_vertices, floor, ceiling) && floor <= low && high <= ceiling ==> heights_within(
                        self.spec_vertices(),
                        floor,
                        ceiling,
                    ),
                self.spec_faces() == start_faces + all.subrange(0, 2 * i),
                self.spec_vertices() == interned_all(start_vertices, face_vertices(all.subrange(0, 2 * i))),
            decreases n - i,
        {
            let start = ring[i];
            let end = ring[if i + 1 == n { 0 } else { i + 1 }];
            proof {
                assert(point_in_range(ring@[i as int]));
                assert(point_in_range(ring@[if i + 1 == n { 0 } else { i + 1 } as int]));
                lemma_ring_wall_faces_prefix(ring@, i + 1, n as int, low, high);
                lemma_ring_wall_faces_len(ring@, i as int, low, high);
                assert(all.subrange(0, 2 * i + 2) == ring_wall_faces(ring@, i as int, low, high) + wall_faces(
                    start,
                    end,
                    low,
                    high,
                ));
                lemma_ring_wall_faces_prefix(ring@, i as int, n as int, low, high);
                let upto = all.subrange(0, 2 * i + 2);
                assert(upto[2 * i] == all[2 * i]);
                assert(upto[2 * i + 1] == all[2 * i + 1]);
                assert(all[2 * i] == wall_faces(start, end, low, high)[0]);
                assert(all[2 * i + 1] == wall_faces(start, end, low, high)[1]);
            }
            let start_low = VertexMicrometers::new(start.x(), start.y(), low);
            let end_low = VertexMicrometers::new(end.x(), end.y(), low);
            let start_high = VertexMicrometers::new(start.x(), start.y(), high);
            let end_high = VertexMicrometers::new(end.x(), end.y(), high);
            let forward = point_less(start, end);
            let first = if forward {
                [start_low, end_low, end_high]
            } else {
                [start_low, end_low, start_high]
            };
            let second = if forward {
                [start_low, end_high, start_high]
            } else {
                [end_low, end_high, start_high]
            };
            proof {
                assert((first[0], first[1], first[2]) == all[2 * i]);
                assert((second[0], second[1], second[2]) == all[2 * i + 1]);
            }
            let ghost vertices_before = self.spec_vertices();
            proof {
                lemma_wall_step(start_vertices, all, 2 * i, vertices_before);
                assert(self.spec_triangles().len() == self.spec_faces().len());
                assert(start_faces.len() == old(self).spec_triangles().len());
                assert(seq![first[0], first[1], first[2]] == seq![all[2 * i].0, all[2 * i].1, all[2 * i].2]);
            }
            match self.add_triangle(first) {
                Ok(()) => {},
                Err(error) => {
                    proof {
                        lemma_heights_step(start_vertices, vertices_before, self.spec_vertices(), low as int, high as int);
                        lemma_extends_transitive(start_vertices, vertices_before, self.spec_vertices());
                    }
                    return Err(error);
                },
            }
            let ghost vertices_middle = self.spec_vertices();
            proof {
                lemma_heights_step(start_vertices, vertices_before, vertices_middle, low as int, high as int);
                lemma_extends_transitive(start_vertices, vertices_before, vertices_middle);
                assert(start_faces + all.subrange(0, 2 * i + 1) =~= (start_faces + all.subrange(0, 2 * i)).push(
                    all[2 * i],
                ));
                lemma_wall_step(start_vertices, all, 2 * i + 1, vertices_middle);
                assert(self.spec_triangles().len() == self.spec_faces().len());
                assert(seq![second[0], second[1], second[2]] == seq![all[2 * i + 1].0, all[2 * i + 1].1, all[2 * i + 1].2]);
            }
            match self.add_triangle(second) {
                Ok(()) => {},
                Err(error) => {
                    proof {
                        lemma_heights_step(start_vertices, vertices_middle, self.spec_vertices(), low as int, high as int);
                        lemma_extends_transitive(start_vertices, vertices_middle, self.spec_vertices());
                    }
                    return Err(error);
                },
            }
            proof {
                lemma_heights_step(start_vertices, vertices_middle, self.spec_vertices(), low as int, high as int);
                lemma_extends_transitive(start_vertices, vertices_middle, self.spec_vertices());
                assert(start_faces + all.subrange(0, 2 * i + 2) =~= (start_faces + all.subrange(0, 2 * i + 1)).push(
                    all[2 * i + 1],
                ));
            }
            i += 1;
        }
        proof {
            assert(all.subrange(0, 2 * n as int) =~= all);
        }
        Ok(())
    }

    /// Adds the walls of a polygon's exterior and then of each hole.
    fn add_polygon_walls(&mut self, polygon: &Polygon, low: i64, high: i64) -> (result: Result<(), MeshError>)
        requires
            old(self).wf(),
            polygon.wf(),
            0 <= low <= high <= crate::mesh::MAX_MESH_HEIGHT_MICROMETERS,
        ensures
            final(self).wf(),
            extends(old(self).spec_vertices(), final(self).spec_vertices()),
            ({
                let faces = polygon_wall_faces(*polygon, low, high);
                &&& result is Ok ==> final(self).spec_faces() == old(self).spec_faces() + faces
                    && final(self).spec_vertices() == interned_all(old(self).spec_vertices(), face_vertices(faces))
                &&& result is Ok <==> old(self).spec_triangles().len() + faces.len() <= MAX_MESH_TRIANGLES
                    && interned_all(old(self).spec_vertices(), face_vertices(faces)).len() <= MAX_MESH_VERTICES
            }),
            result is Err ==> result == Err::<(), MeshError>(
                MeshError::TooManyMeshTriangles { required: (MAX_MESH_TRIANGLES + 1) as usize, max: MAX_MESH_TRIANGLES },
            ) || result == Err::<(), MeshError>(
                MeshError::TooManyMeshVertices { required: (MAX_MESH_VERTICES + 1) as usize, max: MAX_MESH_VERTICES },
            ),
            forall|floor: int, ceiling: int|
                #![trigger heights_within(final(self).spec_vertices(), floor, ceiling)]
                heights_within(old(self).spec_vertices(), floor, ceiling) && floor <= low && high <= ceiling ==> heights_within(
                    final(self).spec_vertices(),
                    floor,
                    ceiling,
                ),
    {
        let ghost start_vertices = self.spec_vertices();
        let ghost start_faces = self.spec_faces();
        let ghost all = polygon_wall_faces(*polygon, low, high);
        let exterior = polygon.exterior().vertices();
        let ghost outer = ring_wall_faces(exterior@, exterior@.len() as int, low, high);
        proof {
            assert(start_vertices.subrange(0, start_vertices.len() as int) =~= start_vertices);
            lemma_holes_wall_faces_prefix(polygon.spec_holes(), 0, polygon.spec_holes().len() as int, low, high);
        }
        match self.add_ring_walls(exterior, low, high) {
            Ok(()) => {},
            Err(error) => {
                proof {
                    lemma_interned_faces_grow(
                        start_vertices,
                        outer,
                        holes_wall_faces(polygon.spec_holes(), polygon.spec_holes().len() as int, low, high),
                    );
                }
                return Err(error);
            },
        }
        let holes = polygon.holes();
        let mut h: usize = 0;
        proof {
            assert(outer + holes_wall_faces(holes@, 0, low, high) =~= outer);
        }
        while h < holes.len()
            invariant
                self.wf(),
                0 <= low <= high <= crate::mesh::MAX_MESH_HEIGHT_MICROMETERS,
                0 <= h <= holes@.len(),
                holes@ == polygon.spec_holes(),
                start_vertices == old(self).spec_vertices(),
                start_faces == old(self).spec_faces(),
                all == outer + holes_wall_faces(holes@, holes@.len() as int, low, high),
                all == polygon_wall_faces(*polygon, low, high),
                extends(start_vertices, self.spec_vertices()),
                forall|floor: int, ceiling: int|
                    #![trigger heights_within(self.spec_vertices(), floor, ceiling)]
                    heights_within(start_vertices, floor, ceiling) && floor <= low && high <= ceiling ==> heights_within(
                        self.spec_vertices(),
                        floor,
                        ceiling,
                    ),
                self.spec_faces() == start_faces + (outer + holes_wall_faces(holes@, h as int, low, high)),
                self.spec_vertices() == interned_all(
                    start_vertices,
                    face_vertices(outer + holes_wall_faces(holes@, h as int, low, high)),
                ),
            decreases holes@.len() - h,
        {
            let ghost vertices_before = self.spec_vertices();
            let ghost done = outer + holes_wall_faces(holes@, h as int, low, high);
            let ring = holes[h].vertices();
            let ghost walls = ring_wall_faces(ring@, ring@.len() as int, low, high);
            proof {
                assert(holes_wall_faces(holes@, h + 1, low, high) == holes_wall_faces(holes@, h as int, low, high) + walls);
                assert(done + walls =~= outer + holes_wall_faces(holes@, h + 1, low, high));
                lemma_face_vertices_append(done, walls);
                lemma_interned_all_append(start_vertices, face_vertices(done), face_vertices(walls));
                lemma_holes_wall_faces_prefix(holes@, h + 1, holes@.len() as int, low, high);
                let whole = holes_wall_faces(holes@, holes@.len() as int, low, high);
                let upto = holes_wall_faces(holes@, h + 1, low, high);
                assert(upto + whole.subrange(upto.len() as int, whole.len() as int) =~= whole);
                assert(done + walls + whole.subrange(upto.len() as int, whole.len() as int) =~= all);
                lemma_interned_faces_grow(
                    start_vertices,
                    done + walls,
                    whole.subrange(upto.len() as int, whole.len() as int),
                );
                assert(self.spec_triangles().len() == self.spec_faces().len());
                assert(start_faces.len() == old(self).spec_triangles().len());
                assert(all.len() >= done.len() + walls.len());
            }
            match self.add_ring_walls(ring, low, high) {
                Ok(()) => {},
                Err(error) => {
                    proof {
                        lemma_heights_step(start_vertices, vertices_before, self.spec_vertices(), low as int, high as int);
                        lemma_extends_transitive(start_vertices, vertices_before, self.spec_vertices());
                        assert(interned_all(vertices_before, face_vertices(walls)) == interned_all(
                            start_vertices,
                            face_vertices(done + walls),
                        ));
                        assert(interned_all(start_vertices, face_vertices(done + walls)).len() <= interned_all(
                            start_vertices,
                            face_vertices(all),
                        ).len());
                    }
                    return Err(error);
                },
            }
            proof {
                lemma_heights_step(start_vertices, vertices_before, self.spec_vertices(), low as int, high as int);
                lemma_extends_transitive(start_vertices, vertices_before, self.spec_vertices());
                assert(start_faces + done + walls =~= start_faces + (outer + holes_wall_faces(holes@, h + 1, low, high)));
            }
            h += 1;
        }
        Ok(())
    }
}

/// The two wall faces along the edge from `start` to `end` between heights
/// `low` and `high`, split along the diagonal fixed by the edge's direction.
pub open spec fn wall_faces(start: PointMicrometers, end: PointMicrometers, low: i64, high: i64) -> Seq<
    (VertexMicrometers, VertexMicrometers, VertexMicrometers),
> {
    let start_low = lift(start, low);
    let end_low = lift(end, low);
    let start_high = lift(start, high);
    let end_high = lift(end, high);
    if crate::planar::types::point_lt(start, end) {
        seq![(start_low, end_low, end_high), (start_low, end_high, start_high)]
    } else {
        seq![(start_low, end_low, start_high), (end_low, end_high, start_high)]
    }
}

/// The wall faces along the first `count` edges of a closed ring.
pub open spec fn ring_wall_faces(ring: Seq<PointMicrometers>, count: int, low: i64, high: i64) -> Seq<
    (VertexMicrometers, VertexMicrometers, VertexMicrometers),
>
    decreases count,
{
    if count <= 0 {
        Seq::empty()
    } else {
        let end = if count == ring.len() {
            0
        } else {
            count
        };
        ring_wall_faces(ring, count - 1, low, high) + wall_faces(ring[count - 1], ring[end], low, high)
    }
}

/// The wall faces of the first `count` holes.
pub open spec fn holes_wall_faces(holes: Seq<Ring>, count: int, low: i64, high: i64) -> Seq<
    (VertexMicrometers, VertexMicrometers, VertexMicrometers),
>
    decreases count,
{
    if count <= 0 {
        Seq::empty()
    } else {
        let ring = holes[count - 1].spec_vertices();
        holes_wall_faces(holes, count - 1, low, high) + ring_wall_faces(ring, ring.len() as int, low, high)
    }
}

/// The wall faces of a polygon: its exterior's, then its holes'.
pub open spec fn polygon_wall_faces(polygon: Polygon, low: i64, high: i64) -> Seq<
    (VertexMicrometers, VertexMicrometers, VertexMicrometers),
> {
    let exterior = polygon.spec_exterior().spec_vertices();
    ring_wall_faces(exterior, exterior.len() as int, low, high) + holes_wall_faces(
        polygon.spec_holes(),
        polygon.spec_holes().len() as int,
        low,
        high,
    )
}

/// Each edge gives two wall faces.
proof fn lemma_ring_wall_faces_len(ring: Seq<PointMicrometers>, count: int, low: i64, high: i64)
    requires
        count >= 0,
    ensures
        ring_wall_faces(ring, count, low, high).len() == 2 * count,
    decreases count,
{
    if count > 0 {
        lemma_ring_wall_faces_len(ring, count - 1, low, high);
    }
}

/// The walls of fewer edges are a prefix of those of more.
proof fn lemma_ring_wall_faces_prefix(ring: Seq<PointMicrometers>, short: int, long: int, low: i64, high: i64)
    requires
        0 <= short <= long,
    ensures
        ring_wall_faces(ring, long, low, high).subrange(0, 2 * short) == ring_wall_faces(ring, short, low, high),
    decreases long - short,
{
    lemma_ring_wall_faces_len(ring, short, low, high);
    lemma_ring_wall_faces_len(ring, long, low, high);
    if short == long {
        assert(ring_wall_faces(ring, long, low, high).subrange(0, 2 * short) =~= ring_wall_faces(ring, short, low, high));
    } else {
        lemma_ring_wall_faces_prefix(ring, short, long - 1, low, high);
        lemma_ring_wall_faces_len(ring, long - 1, low, high);
        assert(ring_wall_faces(ring, long, low, high).subrange(0, 2 * short) =~= ring_wall_faces(
            ring,
            long - 1,
            low,
            high,
        ).subrange(0, 2 * short));
    }
}

/// The walls of fewer holes are a prefix of those of more.
proof fn lemma_holes_wall_faces_prefix(holes: Seq<Ring>, short: int, long: int, low: i64, high: i64)
    requires
        0 <= short <= long,
    ensures
        holes_wall_faces(holes, short, low, high).len() <= holes_wall_faces(holes, long, low, high).len(),
        holes_wall_faces(holes, long, low, high).subrange(0, holes_wall_faces(holes, short, low, high).len() as int)
            == holes_wall_faces(holes, short, low, high),
    decreases long - short,
{
    let shorter = holes_wall_faces(holes, short, low, high);
    if short == long {
        assert(shorter.subrange(0, shorter.len() as int) =~= shorter);
    } else {
        lemma_holes_wall_faces_prefix(holes, short, long - 1, low, high);
        let middle = holes_wall_faces(holes, long - 1, low, high);
        assert(holes_wall_faces(holes, long, low, high).subrange(0, shorter.len() as int) =~= middle.subrange(
            0,
            shorter.len() as int,
        ));
    }
}

/// One step of adding faces in order: interning the next face's corners
/// after those of the faces before it is interning those of the longer
/// prefix, which lists no more vertices than interning all of them.
proof fn lemma_wall_step(
    start: Seq<VertexMicrometers>,
    all: Seq<(VertexMicrometers, VertexMicrometers, VertexMicrometers)>,
    k: int,
    vertices_before: Seq<VertexMicrometers>,
)
    requires
        0 <= k < all.len(),
        vertices_before == interned_all(start, face_vertices(all.subrange(0, k))),
    ensures
        interned_all(vertices_before, seq![all[k].0, all[k].1, all[k].2]) == interned_all(
            start,
            face_vertices(all.subrange(0, k + 1)),
        ),
        interned_all(start, face_vertices(all.subrange(0, k + 1))).len() <= interned_all(start, face_vertices(all)).len(),
{
    let face = all[k];
    assert(all.subrange(0, k + 1) =~= all.subrange(0, k).push(face));
    assert(all.subrange(0, k).push(face).drop_last() =~= all.subrange(0, k));
    assert(face_vertices(all.subrange(0, k + 1)) == face_vertices(all.subrange(0, k)) + seq![face.0, face.1, face.2]);
    lemma_interned_all_append(start, face_vertices(all.subrange(0, k)), seq![face.0, face.1, face.2]);
    assert(all.subrange(0, k + 1) + all.subrange(k + 1, all.len() as int) =~= all);
    lemma_interned_faces_grow(start, all.subrange(0, k + 1), all.subrange(k + 1, all.len() as int));
}

/// How an undirected mesh edge is used: how many triangles use it, the
/// difference between its two traversal directions, and its first two triangles.
#[derive(Debug, Clone, Copy)]
pub struct EdgeRecord {
    pub uses: u32,
    pub balance: i32,
    pub first_triangle: usize,
    pub second_triangle: Option<usize>,
}

/// Every recorded edge names triangles below `count`.
pub open spec fn edge_records_valid(edges: Map<(u32, u32), EdgeRecord>, count: int) -> bool {
    forall|key: (u32, u32)|
        #[trigger] edges.contains_key(key) ==> edges[key].first_triangle < count && (
        edges[key].second_triangle matches Some(s) ==> s < count)
}

/// An edge key, ordered lexicographically.
#[derive(Debug, Clone, Copy)]
pub struct EdgeKey {
    pub first: u32,
    pub second: u32,
}

impl LexOrder for EdgeKey {
    open spec fn ordered_le(self, other: Self) -> bool {
        crate::order::pair_le((self.first as int, self.second as int), (other.first as int, other.second as int))
    }

    proof fn lemma_le_total(a: Self, b: Self) {
    }

    proof fn lemma_le_transitive(a: Self, b: Self, c: Self) {
    }

    fn le(&self, other: &Self) -> (result: bool) {
        self.first < other.first || (self.first == other.first && self.second <= other.second)
    }
}

/// The other triangle recorded on the edge between `vertex` and `other`,
/// when `current` is one of its two triangles.
pub open spec fn spec_adjacent(vertex: u32, other: u32, current: usize, edges: Map<(u32, u32), EdgeRecord>) -> Option<
    usize,
> {
    let key = if vertex < other {
        (vertex, other)
    } else {
        (other, vertex)
    };
    if !edges.contains_key(key) {
        None
    } else if edges[key].first_triangle == current {
        edges[key].second_triangle
    } else if edges[key].second_triangle == Some(current) {
        Some(edges[key].first_triangle)
    } else {
        None
    }
}

/// The triangle after `current` in the walk around `vertex`, having come
/// from `previous`: of the two neighbours across the sides at `vertex`, which
/// must exist and differ, the first when the walk starts, else the one it
/// did not come from. None when the fan breaks there.
pub open spec fn fan_next(
    vertex: u32,
    triangles: Seq<Triangle>,
    edges: Map<(u32, u32), EdgeRecord>,
    previous: Option<usize>,
    current: usize,
) -> Option<usize> {
    let indices = triangles[current as int].spec_indices();
    let position: int = if indices[0] == vertex {
        0
    } else if indices[1] == vertex {
        1
    } else {
        2
    };
    let first = spec_adjacent(vertex, indices[(position + 1) % 3], current, edges);
    let second = spec_adjacent(vertex, indices[(position + 2) % 3], current, edges);
    if indices[position] != vertex || first is None || second is None || first == second {
        None
    } else {
        match previous {
            None => first,
            Some(before) => if first == Some(before) {
                second
            } else if second == Some(before) {
                first
            } else {
                None
            },
        }
    }
}

/// Where the walk around `vertex` from `first_triangle` stands after `steps`
/// steps: the triangle it came from and the one it is at, or None once the
/// fan broke.
pub open spec fn fan_state(
    vertex: u32,
    triangles: Seq<Triangle>,
    edges: Map<(u32, u32), EdgeRecord>,
    first_triangle: usize,
    steps: nat,
) -> Option<(Option<usize>, usize)>
    decreases steps,
{
    if steps == 0 {
        Some((None, first_triangle))
    } else {
        match fan_state(vertex, triangles, edges, first_triangle, (steps - 1) as nat) {
            None => None,
            Some(state) => match fan_next(vertex, triangles, edges, state.0, state.1) {
                None => None,
                Some(next) => Some((Some(state.1), next)),
            },
        }
    }
}

/// The walk around `vertex` closes one fan of `count` triangles: it returns
/// to the first triangle after exactly `count` steps and not before.
pub open spec fn fan_closes(
    vertex: u32,
    triangles: Seq<Triangle>,
    edges: Map<(u32, u32), EdgeRecord>,
    first_triangle: usize,
    count: nat,
) -> bool {
    &&& count >= 1
    &&& fan_state(vertex, triangles, edges, first_triangle, count) is Some
    &&& fan_state(vertex, triangles, edges, first_triangle, count).unwrap().1 == first_triangle
    &&& forall|steps: nat|
        1 <= steps < count ==> (#[trigger] fan_state(vertex, triangles, edges, first_triangle, steps)) is Some
            && fan_state(vertex, triangles, edges, first_triangle, steps).unwrap().1 != first_triangle
}

/// A broken walk stays broken.
proof fn lemma_fan_stays_broken(
    vertex: u32,
    triangles: Seq<Triangle>,
    edges: Map<(u32, u32), EdgeRecord>,
    first_triangle: usize,
    broken: nat,
    later: nat,
)
    requires
        broken <= later,
        fan_state(vertex, triangles, edges, first_triangle, broken) is None,
    ensures
        fan_state(vertex, triangles, edges, first_triangle, later) is None,
    decreases later - broken,
{
    if broken < later {
        lemma_fan_stays_broken(vertex, triangles, edges, first_triangle, broken, (later - 1) as nat);
    }
}

/// Finds the other triangle across the edge from `vertex` to `other`.
pub fn adjacent_triangle(
    part: MeshPart,
    vertex: u32,
    other: u32,
    current: usize,
    edges: &std::collections::BTreeMap<(u32, u32), EdgeRecord>,
    count: usize,
) -> (result: Result<usize, MeshError>)
    requires
        edge_records_valid(edges@, count as int),
    ensures
        result matches Ok(next) ==> next < count,
        result is Err ==> result == Err::<usize, MeshError>(MeshError::NonManifoldVertex { part, vertex }),
        match spec_adjacent(vertex, other, current, edges@) {
            Some(next) => result == Ok::<usize, MeshError>(next),
            None => result is Err,
        },
{
    let key = if vertex < other { (vertex, other) } else { (other, vertex) };
    let edge = match edges.get(&key) {
        Some(edge) => *edge,
        None => {
            return Err(MeshError::NonManifoldVertex { part, vertex });
        },
    };
    proof {
        assert(edges@.contains_key(key));
    }
    if edge.first_triangle == current {
        return match edge.second_triangle {
            Some(second) => Ok(second),
            None => Err(MeshError::NonManifoldVertex { part, vertex }),
        };
    }
    match edge.second_triangle {
        Some(second) => {
            if second == current {
                return Ok(edge.first_triangle);
            }
        },
        None => {},
    }
    Err(MeshError::NonManifoldVertex { part, vertex })
}

/// Checks that the triangles around a vertex form one closed fan: walking
/// from triangle to neighbouring triangle around the vertex returns to the
/// first triangle after visiting every incident triangle exactly once.
pub fn validate_vertex_link(
    part: MeshPart,
    vertex: u32,
    first_triangle: usize,
    incident_count: usize,
    triangles: &[Triangle],
    edges: &std::collections::BTreeMap<(u32, u32), EdgeRecord>,
) -> (result: Result<(), MeshError>)
    requires
        first_triangle < triangles@.len(),
        edge_records_valid(edges@, triangles@.len() as int),
    ensures
        result is Err ==> result == Err::<(), MeshError>(MeshError::NonManifoldVertex { part, vertex }),
        result is Ok <==> fan_closes(vertex, triangles@, edges@, first_triangle, incident_count as nat),
{
    let count = triangles.len();
    let mut previous: Option<usize> = None;
    let mut current = first_triangle;
    let mut traversed: usize = 0;
    loop
        invariant_except_break
            traversed >= 1 ==> current != first_triangle,
        invariant
            count == triangles@.len(),
            current < count,
            first_triangle < count,
            traversed <= incident_count,
            edge_records_valid(edges@, count as int),
            fan_state(vertex, triangles@, edges@, first_triangle, traversed as nat) == Some((previous, current)),
            forall|steps: nat|
                1 <= steps < traversed ==> (#[trigger] fan_state(vertex, triangles@, edges@, first_triangle, steps))
                    is Some && fan_state(vertex, triangles@, edges@, first_triangle, steps).unwrap().1 != first_triangle,
        ensures
            traversed >= 1,
            current == first_triangle,
        decreases incident_count - traversed,
    {
        let ghost step = (traversed + 1) as nat;
        if traversed >= incident_count {
            return Err(MeshError::NonManifoldVertex { part, vertex });
        }
        proof {
            assert(fan_state(vertex, triangles@, edges@, first_triangle, step) == match fan_next(
                vertex,
                triangles@,
                edges@,
                previous,
                current,
            ) {
                None => None,
                Some(next) => Some((Some(current), next)),
            });
        }
        traversed += 1;
        let indices = triangles[current].indices();
        let position: usize = if indices[0] == vertex {
            0
        } else if indices[1] == vertex {
            1
        } else if indices[2] == vertex {
            2
        } else {
            proof {
                lemma_fan_stays_broken(vertex, triangles@, edges@, first_triangle, step, incident_count as nat);
            }
            return Err(MeshError::NonManifoldVertex { part, vertex });
        };
        let first_neighbor = match adjacent_triangle(part, vertex, indices[(position + 1) % 3], current, edges, count) {
            Ok(neighbor) => neighbor,
            Err(error) => {
                proof {
                    lemma_fan_stays_broken(vertex, triangles@, edges@, first_triangle, step, incident_count as nat);
                }
                return Err(error);
            },
        };
        let second_neighbor = match adjacent_triangle(part, vertex, indices[(position + 2) % 3], current, edges, count) {
            Ok(neighbor) => neighbor,
            Err(error) => {
                proof {
                    lemma_fan_stays_broken(vertex, triangles@, edges@, first_triangle, step, incident_count as nat);
                }
                return Err(error);
            },
        };
        if first_neighbor == second_neighbor {
            proof {
                lemma_fan_stays_broken(vertex, triangles@, edges@, first_triangle, step, incident_count as nat);
            }
            return Err(MeshError::NonManifoldVertex { part, vertex });
        }
        let next = match previous {
            None => first_neighbor,
            Some(before) => {
                if first_neighbor == before {
                    second_neighbor
                } else if second_neighbor == before {
                    first_neighbor
                } else {
                    proof {
                        lemma_fan_stays_broken(vertex, triangles@, edges@, first_triangle, step, incident_count as nat);
                    }
                    return Err(MeshError::NonManifoldVertex { part, vertex });
                }
            },
        };
        proof {
            assert(fan_next(vertex, triangles@, edges@, previous, current) == Some(next));
        }
        previous = Some(current);
        current = next;
        if current == first_triangle {
            break;
        }
    }
    if traversed != incident_count {
        return Err(MeshError::NonManifoldVertex { part, vertex });
    }
    Ok(())
}

/// The least of three indices.
pub open spec fn least_of_three(a: u32, b: u32, c: u32) -> u32 {
    if a <= b && a <= c {
        a
    } else if b <= c {
        b
    } else {
        c
    }
}

/// The greatest of three indices.
pub open spec fn greatest_of_three(a: u32, b: u32, c: u32) -> u32 {
    if a >= b && a >= c {
        a
    } else if b >= c {
        b
    } else {
        c
    }
}

/// The face's three indices in increasing order: the least, the middle one
/// and the greatest.
fn sorted_face(indices: [u32; 3]) -> (sorted: (u32, u32, u32))
    ensures
        sorted.0 == least_of_three(indices@[0], indices@[1], indices@[2]),
        sorted.2 == greatest_of_three(indices@[0], indices@[1], indices@[2]),
        sorted.0 + sorted.1 + sorted.2 == indices@[0] + indices@[1] + indices@[2],
        sorted.0 <= sorted.1 <= sorted.2,
{
    let (mut a, mut b, mut c) = (indices[0], indices[1], indices[2]);
    if a > b {
        let t = a;
        a = b;
        b = t;
    }
    if b > c {
        let t = b;
        b = c;
        c = t;
    }
    if a > b {
        let t = a;
        a = b;
        b = t;
    }
    (a, b, c)
}

/// Every triangle index names a vertex.
pub open spec fn indices_valid(triangles: Seq<Triangle>, count: int) -> bool {
    forall|t: int|
        0 <= t < triangles.len() ==> (#[trigger] triangles[t]).spec_indices()[0] < count
            && triangles[t].spec_indices()[1] < count && triangles[t].spec_indices()[2] < count
}

/// The undirected key of a triangle's side from corner `e` to the next corner.
pub open spec fn side_key(triangle: Triangle, e: int) -> (u32, u32) {
    let start = triangle.spec_indices()[e];
    let end = triangle.spec_indices()[(e + 1) % 3];
    if start < end {
        (start, end)
    } else {
        (end, start)
    }
}

/// One where a triangle's side runs from its lower index to its higher one,
/// minus one where it runs the other way.
pub open spec fn side_direction(triangle: Triangle, e: int) -> int {
    if triangle.spec_indices()[e] < triangle.spec_indices()[(e + 1) % 3] {
        1
    } else {
        -1
    }
}

/// How many of a triangle's first `sides` sides lie on the undirected edge `key`.
pub open spec fn sides_uses(triangle: Triangle, sides: int, key: (u32, u32)) -> int
    decreases sides,
{
    if sides <= 0 {
        0
    } else {
        sides_uses(triangle, sides - 1, key) + if side_key(triangle, sides - 1) == key {
            1int
        } else {
            0int
        }
    }
}

/// The net direction of a triangle's first `sides` sides on the undirected edge `key`.
pub open spec fn sides_balance(triangle: Triangle, sides: int, key: (u32, u32)) -> int
    decreases sides,
{
    if sides <= 0 {
        0
    } else {
        sides_balance(triangle, sides - 1, key) + if side_key(triangle, sides - 1) == key {
            side_direction(triangle, sides - 1)
        } else {
            0int
        }
    }
}

/// How many sides of the first `count` triangles lie on the undirected edge `key`.
pub open spec fn edge_uses(triangles: Seq<Triangle>, count: int, key: (u32, u32)) -> int
    decreases count,
{
    if count <= 0 {
        0
    } else {
        edge_uses(triangles, count - 1, key) + sides_uses(triangles[count - 1], 3, key)
    }
}

/// The net direction of the sides of the first `count` triangles on the undirected edge `key`.
pub open spec fn edge_balance(triangles: Seq<Triangle>, count: int, key: (u32, u32)) -> int
    decreases count,
{
    if count <= 0 {
        0
    } else {
        edge_balance(triangles, count - 1, key) + sides_balance(triangles[count - 1], 3, key)
    }
}

/// A triangle's first `sides` sides use an edge at most once each.
proof fn lemma_sides_bounded(triangle: Triangle, sides: int, key: (u32, u32))
    requires
        0 <= sides <= 3,
    ensures
        0 <= sides_uses(triangle, sides, key) <= sides,
        -sides <= sides_balance(triangle, sides, key) <= sides,
    decreases sides,
{
    if sides > 0 {
        lemma_sides_bounded(triangle, sides - 1, key);
    }
}

/// The first `count` triangles use an edge at most three times each.
proof fn lemma_edge_counts_bounded(triangles: Seq<Triangle>, count: int, key: (u32, u32))
    requires
        0 <= count <= triangles.len(),
    ensures
        0 <= edge_uses(triangles, count, key) <= 3 * count,
        -3 * count <= edge_balance(triangles, count, key) <= 3 * count,
    decreases count,
{
    if count > 0 {
        lemma_edge_counts_bounded(triangles, count - 1, key);
        lemma_sides_bounded(triangles[count - 1], 3, key);
    }
}

/// Six times a tetrahedron's volume over in-range vertices is bounded.
proof fn lemma_tetrahedron_bounded(a: VertexMicrometers, b: VertexMicrometers, c: VertexMicrometers)
    requires
        vertex_in_range(a),
        vertex_in_range(b),
        vertex_in_range(c),
    ensures
        -6_000_000_000_000_000_000_000_000_000 <= spec_tetrahedron(a, b, c) <= 6_000_000_000_000_000_000_000_000_000,
{
    let (ax, ay, az) = (a.spec_x() as int, a.spec_y() as int, a.spec_z() as int);
    let (bx, by, bz) = (b.spec_x() as int, b.spec_y() as int, b.spec_z() as int);
    let (cx, cy, cz) = (c.spec_x() as int, c.spec_y() as int, c.spec_z() as int);
    lemma_products_bounded(by, cz, bz, cy);
    lemma_products_bounded(bx, cz, bz, cx);
    lemma_products_bounded(bx, cy, by, cx);
    lemma_scaled_bounded(ax, by * cz - bz * cy);
    lemma_scaled_bounded(ay, bx * cz - bz * cx);
    lemma_scaled_bounded(az, bx * cy - by * cx);
}

/// The signed volume of the first `count` triangles grows by a bounded
/// amount per triangle.
proof fn lemma_mesh_volume_bounded(vertices: Seq<VertexMicrometers>, triangles: Seq<Triangle>, count: int)
    requires
        0 <= count <= triangles.len(),
        vertices_in_range(vertices),
        indices_valid(triangles.subrange(0, count), vertices.len() as int),
    ensures
        -6_000_000_000_000_000_000_000_000_000 * count <= mesh_volume(vertices, triangles, count)
            <= 6_000_000_000_000_000_000_000_000_000 * count,
    decreases count,
{
    if count > 0 {
        let done = triangles.subrange(0, count);
        assert forall|i: int| 0 <= i < count - 1 implies (#[trigger] triangles.subrange(0, count - 1)[i]).spec_indices()[0]
            < vertices.len() && triangles.subrange(0, count - 1)[i].spec_indices()[1] < vertices.len()
            && triangles.subrange(0, count - 1)[i].spec_indices()[2] < vertices.len() by {
            assert(triangles.subrange(0, count - 1)[i] == done[i]);
        }
        lemma_mesh_volume_bounded(vertices, triangles, count - 1);
        let t = triangles[count - 1].spec_indices();
        assert(done[count - 1] == triangles[count - 1]);
        lemma_tetrahedron_bounded(vertices[t[0] as int], vertices[t[1] as int], vertices[t[2] as int]);
    }
}

/// Every side of every triangle lies on an edge that exactly two triangle
/// sides use, once in each direction: the surface is closed and consistently
/// oriented.
pub open spec fn closed_surface(triangles: Seq<Triangle>) -> bool {
    forall|t: int, e: int|
        0 <= t < triangles.len() && 0 <= e < 3 ==> {
            &&& edge_uses(triangles, triangles.len() as int, #[trigger] side_key(triangles[t], e)) == 2
            &&& edge_balance(triangles, triangles.len() as int, side_key(triangles[t], e)) == 0
        }
}

/// The recorded edge under `key` is used exactly twice, once in each direction.
pub open spec fn edge_settled(edges: Map<(u32, u32), EdgeRecord>, key: EdgeKey) -> bool {
    &&& edges.contains_key((key.first, key.second))
    &&& edges[(key.first, key.second)].uses == 2
    &&& edges[(key.first, key.second)].balance == 0
}

/// The keys of a list of edge keys as pairs.
pub open spec fn key_pairs(keys: Seq<EdgeKey>) -> Seq<(u32, u32)> {
    keys.map_values(|key: EdgeKey| (key.first, key.second))
}

/// The triangle names vertex `v` at one of its corners.
pub open spec fn uses_vertex(triangle: Triangle, v: int) -> bool {
    triangle.spec_indices()[0] == v || triangle.spec_indices()[1] == v || triangle.spec_indices()[2] == v
}

/// Every vertex below `count` is a corner of some triangle.
pub open spec fn vertices_referenced(triangles: Seq<Triangle>, count: int) -> bool {
    forall|v: int| 0 <= v < count ==> #[trigger] vertex_used(triangles, v)
}

/// Some triangle names vertex `v`.
pub open spec fn vertex_used(triangles: Seq<Triangle>, v: int) -> bool {
    exists|t: int| 0 <= t < triangles.len() && #[trigger] uses_vertex(triangles[t], v)
}

/// The triangle's corners are distinct vertices that are not collinear.
pub open spec fn nondegenerate_face(vertices: Seq<VertexMicrometers>, triangle: Triangle) -> bool {
    let indices = triangle.spec_indices();
    &&& indices[0] != indices[1] && indices[1] != indices[2] && indices[2] != indices[0]
    &&& !spec_cross_is_zero(vertices[indices[0] as int], vertices[indices[1] as int], vertices[indices[2] as int])
}

/// Every triangle is nondegenerate.
pub open spec fn faces_nondegenerate(vertices: Seq<VertexMicrometers>, triangles: Seq<Triangle>) -> bool {
    forall|t: int| 0 <= t < triangles.len() ==> nondegenerate_face(vertices, #[trigger] triangles[t])
}

/// Two triangles have a side on the same undirected edge.
pub open spec fn share_edge(a: Triangle, b: Triangle) -> bool {
    exists|e: int, f: int| 0 <= e < 3 && 0 <= f < 3 && #[trigger] side_key(a, e) == #[trigger] side_key(b, f)
}

/// `path` walks from triangle to triangle across shared edges.
pub open spec fn edge_path(triangles: Seq<Triangle>, path: Seq<int>) -> bool {
    &&& path.len() >= 1
    &&& forall|k: int| 0 <= k < path.len() ==> 0 <= #[trigger] path[k] < triangles.len()
    &&& forall|k: int|
        0 <= k < path.len() - 1 ==> share_edge(triangles[#[trigger] path[k]], triangles[path[k + 1]])
}

/// Triangles `i` and `j` are joined by a walk across shared edges.
pub open spec fn triangles_joined(triangles: Seq<Triangle>, i: int, j: int) -> bool {
    exists|path: Seq<int>| #[trigger] edge_path(triangles, path) && path[0] == i && path.last() == j
}

/// All triangles form one shell: each is joined to the first.
pub open spec fn one_shell(triangles: Seq<Triangle>) -> bool {
    forall|j: int| 0 <= j < triangles.len() ==> #[trigger] triangles_joined(triangles, 0, j)
}

/// A triangle is joined to itself.
proof fn lemma_joined_self(triangles: Seq<Triangle>, i: int)
    requires
        0 <= i < triangles.len(),
    ensures
        triangles_joined(triangles, i, i),
{
    let path = seq![i];
    assert(edge_path(triangles, path));
}

/// Walks can be reversed.
proof fn lemma_joined_symmetric(triangles: Seq<Triangle>, i: int, j: int)
    requires
        triangles_joined(triangles, i, j),
    ensures
        triangles_joined(triangles, j, i),
{
    let path = choose|path: Seq<int>| #[trigger] edge_path(triangles, path) && path[0] == i && path.last() == j;
    let back = Seq::new(path.len(), |k: int| path[path.len() - 1 - k]);
    assert forall|k: int| 0 <= k < back.len() - 1 implies share_edge(triangles[#[trigger] back[k]], triangles[back[k + 1]]) by {
        let m = path.len() - 2 - k;
        assert(share_edge(triangles[path[m]], triangles[path[m + 1]]));
        let (e, f) = choose|e: int, f: int|
            0 <= e < 3 && 0 <= f < 3 && #[trigger] side_key(triangles[path[m]], e) == #[trigger] side_key(
                triangles[path[m + 1]],
                f,
            );
        assert(side_key(triangles[back[k]], f) == side_key(triangles[back[k + 1]], e));
    }
    assert(edge_path(triangles, back));
}

/// Walks can be joined end to end.
proof fn lemma_joined_transitive(triangles: Seq<Triangle>, i: int, j: int, k: int)
    requires
        triangles_joined(triangles, i, j),
        triangles_joined(triangles, j, k),
    ensures
        triangles_joined(triangles, i, k),
{
    let first = choose|path: Seq<int>| #[trigger] edge_path(triangles, path) && path[0] == i && path.last() == j;
    let second = choose|path: Seq<int>| #[trigger] edge_path(triangles, path) && path[0] == j && path.last() == k;
    let joined = first + second.drop_first();
    assert forall|m: int| 0 <= m < joined.len() - 1 implies share_edge(triangles[#[trigger] joined[m]], triangles[joined[m + 1]]) by {
        if m < first.len() - 1 {
            assert(joined[m] == first[m] && joined[m + 1] == first[m + 1]);
        } else if m == first.len() - 1 {
            assert(joined[m] == second[0]);
            assert(joined[m + 1] == second[1]);
        } else {
            let q = m - first.len() + 1;
            assert(joined[m] == second[q] && joined[m + 1] == second[q + 1]);
        }
    }
    assert forall|m: int| 0 <= m < joined.len() implies 0 <= #[trigger] joined[m] < triangles.len() by {
        if m < first.len() {
            assert(joined[m] == first[m]);
        } else {
            assert(joined[m] == second[m - first.len() + 1]);
        }
    }
    if second.len() == 1 {
        assert(joined =~= first);
    } else {
        assert(joined.last() == second.last());
    }
    assert(edge_path(triangles, joined));
}

/// Triangles sharing an edge are joined.
proof fn lemma_joined_step(triangles: Seq<Triangle>, i: int, j: int)
    requires
        0 <= i < triangles.len(),
        0 <= j < triangles.len(),
        share_edge(triangles[i], triangles[j]),
    ensures
        triangles_joined(triangles, i, j),
{
    let path = seq![i, j];
    assert(path[0] == i && path[1] == j);
    assert(edge_path(triangles, path));
}

/// Every side of the first `count` triangles has the representative of the
/// first triangle recorded on its edge.
pub open spec fn roots_follow_edges(
    triangles: Seq<Triangle>,
    parents: Seq<usize>,
    edges: Map<(u32, u32), EdgeRecord>,
    count: int,
    sides: int,
) -> bool {
    forall|i: int, side: int|
        0 <= i < triangles.len() && 0 <= side < 3 && (i < count || (i == count && side < sides)) ==> root_of(
            parents,
            i,
        ) == root_of(parents, edges[#[trigger] side_key(triangles[i], side)].first_triangle as int)
}

/// Linking two sets keeps every recorded representative relation and puts
/// the two linked triangles under one representative.
proof fn lemma_union_keeps_follow(
    triangles: Seq<Triangle>,
    before: Seq<usize>,
    after: Seq<usize>,
    edges: Map<(u32, u32), EdgeRecord>,
    count: int,
    sides: int,
    first: int,
    second: int,
)
    requires
        roots_follow_edges(triangles, before, edges, count, sides),
        ({
            let a = root_of(before, first);
            let b = root_of(before, second);
            let lower = if a < b {
                a
            } else {
                b
            };
            let upper = if a < b {
                b
            } else {
                a
            };
            forall|i: int| #[trigger]
                root_of(after, i) == if root_of(before, i) == upper {
                    lower
                } else {
                    root_of(before, i)
                }
        }),
    ensures
        roots_follow_edges(triangles, after, edges, count, sides),
        root_of(after, first) == root_of(after, second),
{
    assert forall|i: int, side: int|
        0 <= i < triangles.len() && 0 <= side < 3 && (i < count || (i == count && side < sides)) implies root_of(
        after,
        i,
    ) == root_of(after, edges[#[trigger] side_key(triangles[i], side)].first_triangle as int) by {
        let other = edges[side_key(triangles[i], side)].first_triangle as int;
        assert(root_of(before, i) == root_of(before, other));
        assert(root_of(after, i) == if root_of(before, i) == (if root_of(before, first) < root_of(before, second) {
            root_of(before, second)
        } else {
            root_of(before, first)
        }) {
            if root_of(before, first) < root_of(before, second) {
                root_of(before, first)
            } else {
                root_of(before, second)
            }
        } else {
            root_of(before, i)
        });
        assert(root_of(after, other) == if root_of(before, other) == (if root_of(before, first) < root_of(
            before,
            second,
        ) {
            root_of(before, second)
        } else {
            root_of(before, first)
        }) {
            if root_of(before, first) < root_of(before, second) {
                root_of(before, first)
            } else {
                root_of(before, second)
            }
        } else {
            root_of(before, other)
        });
    }
    assert(root_of(after, first) == root_of(after, first));
    assert(root_of(after, second) == root_of(after, second));
}

/// Recording a new edge with side `e` of triangle `t` as its first triangle
/// extends the representative relation to that side.
proof fn lemma_follow_new_edge(
    triangles: Seq<Triangle>,
    parents: Seq<usize>,
    before: Map<(u32, u32), EdgeRecord>,
    after: Map<(u32, u32), EdgeRecord>,
    t: int,
    e: int,
)
    requires
        0 <= t < triangles.len(),
        0 <= e < 3,
        roots_follow_edges(triangles, parents, before, t, e),
        !before.contains_key(side_key(triangles[t], e)),
        after.contains_key(side_key(triangles[t], e)),
        after[side_key(triangles[t], e)].first_triangle == t,
        forall|key: (u32, u32)| key != side_key(triangles[t], e) ==> #[trigger] after.contains_key(key) == before.contains_key(key)
            && (before.contains_key(key) ==> after[key] == before[key]),
        forall|i: int, side: int|
            0 <= i < t && 0 <= side < 3 ==> before.contains_key(#[trigger] side_key(triangles[i], side)),
        forall|side: int| 0 <= side < e ==> before.contains_key(#[trigger] side_key(triangles[t], side)),
    ensures
        roots_follow_edges(triangles, parents, after, t, e + 1),
{
    assert forall|i: int, side: int|
        0 <= i < triangles.len() && 0 <= side < 3 && (i < t || (i == t && side < e + 1)) implies root_of(
        parents,
        i,
    ) == root_of(parents, after[#[trigger] side_key(triangles[i], side)].first_triangle as int) by {
        if i < t || side < e {
            let k = side_key(triangles[i], side);
            assert(before.contains_key(k));
            assert(k != side_key(triangles[t], e));
            assert(after.contains_key(k) == before.contains_key(k));
            assert(after[k] == before[k]);
        }
    }
}

/// Updating an edge's record without changing its first triangle keeps the
/// representative relation.
proof fn lemma_follow_same_first(
    triangles: Seq<Triangle>,
    parents: Seq<usize>,
    before: Map<(u32, u32), EdgeRecord>,
    after: Map<(u32, u32), EdgeRecord>,
    t: int,
    e: int,
    key: (u32, u32),
)
    requires
        roots_follow_edges(triangles, parents, before, t, e),
        before.contains_key(key),
        after == before.insert(key, after[key]),
        after[key].first_triangle == before[key].first_triangle,
    ensures
        roots_follow_edges(triangles, parents, after, t, e),
{
    assert forall|i: int, side: int|
        0 <= i < triangles.len() && 0 <= side < 3 && (i < t || (i == t && side < e)) implies root_of(
        parents,
        i,
    ) == root_of(parents, after[#[trigger] side_key(triangles[i], side)].first_triangle as int) by {
        assert(root_of(parents, i) == root_of(parents, before[side_key(triangles[i], side)].first_triangle as int));
    }
}

/// Once side `e` of triangle `t` shares its edge's first triangle's
/// representative, the relation covers that side.
proof fn lemma_follow_extend(
    triangles: Seq<Triangle>,
    parents: Seq<usize>,
    edges: Map<(u32, u32), EdgeRecord>,
    t: int,
    e: int,
)
    requires
        0 <= t < triangles.len(),
        0 <= e < 3,
        roots_follow_edges(triangles, parents, edges, t, e),
        root_of(parents, t) == root_of(parents, edges[side_key(triangles[t], e)].first_triangle as int),
    ensures
        roots_follow_edges(triangles, parents, edges, t, e + 1),
{
}

/// When every side follows its edge's first triangle, triangles joined by a
/// walk share their representative.
proof fn lemma_walk_roots(
    triangles: Seq<Triangle>,
    parents: Seq<usize>,
    edges: Map<(u32, u32), EdgeRecord>,
    path: Seq<int>,
    k: int,
)
    requires
        roots_follow_edges(triangles, parents, edges, triangles.len() as int, 0),
        edge_path(triangles, path),
        0 <= k < path.len(),
    ensures
        root_of(parents, path[k]) == root_of(parents, path[0]),
    decreases k,
{
    if k > 0 {
        lemma_walk_roots(triangles, parents, edges, path, k - 1);
        assert(0 <= path[k - 1] < triangles.len());
        assert(0 <= path[k] < triangles.len());
        assert(share_edge(triangles[path[k - 1]], triangles[path[k]]));
        let (e, f) = choose|e: int, f: int|
            0 <= e < 3 && 0 <= f < 3 && #[trigger] side_key(triangles[path[k - 1]], e) == #[trigger] side_key(
                triangles[path[k]],
                f,
            );
        assert(root_of(parents, path[k - 1]) == root_of(
            parents,
            edges[side_key(triangles[path[k - 1]], e)].first_triangle as int,
        ));
        assert(root_of(parents, path[k]) == root_of(parents, edges[side_key(triangles[path[k]], f)].first_triangle as int));
    }
}

/// One shell means one representative.
proof fn lemma_shell_one_root(triangles: Seq<Triangle>, parents: Seq<usize>, edges: Map<(u32, u32), EdgeRecord>)
    requires
        roots_follow_edges(triangles, parents, edges, triangles.len() as int, 0),
        one_shell(triangles),
    ensures
        forall|j: int| 0 <= j < triangles.len() ==> #[trigger] root_of(parents, j) == root_of(parents, 0),
{
    assert forall|j: int| 0 <= j < triangles.len() implies #[trigger] root_of(parents, j) == root_of(parents, 0) by {
        assert(triangles_joined(triangles, 0, j));
        let path = choose|path: Seq<int>| #[trigger] edge_path(triangles, path) && path[0] == 0 && path.last() == j;
        lemma_walk_roots(triangles, parents, edges, path, path.len() - 1);
    }
}

/// Triangles with the same representative are joined.
pub open spec fn roots_joined(triangles: Seq<Triangle>, parents: Seq<usize>, count: int) -> bool {
    forall|i: int, j: int|
        0 <= i < count && 0 <= j < count && #[trigger] root_of(parents, i) == #[trigger] root_of(parents, j)
            ==> triangles_joined(triangles, i, j)
}

/// Triangle `f` has a side on edge `key`.
pub open spec fn has_side(triangles: Seq<Triangle>, f: int, key: (u32, u32)) -> bool {
    exists|e: int| 0 <= e < 3 && #[trigger] side_key(triangles[f], e) == key
}

/// Linking the sets of two joined triangles keeps every pair with one
/// representative joined.
proof fn lemma_union_keeps_joined(
    triangles: Seq<Triangle>,
    before: Seq<usize>,
    after: Seq<usize>,
    count: int,
    first: int,
    second: int,
)
    requires
        count == triangles.len(),
        0 <= first < count,
        0 <= second < count,
        roots_joined(triangles, before, count),
        triangles_joined(triangles, first, second),
        ({
            let a = root_of(before, first);
            let b = root_of(before, second);
            let lower = if a < b {
                a
            } else {
                b
            };
            let upper = if a < b {
                b
            } else {
                a
            };
            forall|i: int| #[trigger]
                root_of(after, i) == if root_of(before, i) == upper {
                    lower
                } else {
                    root_of(before, i)
                }
        }),
    ensures
        roots_joined(triangles, after, count),
{
    let a = root_of(before, first);
    let b = root_of(before, second);
    lemma_joined_symmetric(triangles, first, second);
    assert forall|i: int, j: int|
        0 <= i < count && 0 <= j < count && #[trigger] root_of(after, i) == #[trigger] root_of(after, j) implies triangles_joined(
        triangles,
        i,
        j,
    ) by {
        let ri = root_of(before, i);
        let rj = root_of(before, j);
        if ri == rj {
        } else {
            assert((ri == a && rj == b) || (ri == b && rj == a));
            if ri == a {
                assert(triangles_joined(triangles, i, first));
                assert(triangles_joined(triangles, second, j));
                lemma_joined_transitive(triangles, i, first, second);
                lemma_joined_transitive(triangles, i, second, j);
            } else {
                assert(triangles_joined(triangles, i, second));
                assert(triangles_joined(triangles, first, j));
                lemma_joined_transitive(triangles, i, second, first);
                lemma_joined_transitive(triangles, i, first, j);
            }
        }
    }
}

/// A triangle's indices in increasing order: the key of its vertex set.
pub open spec fn face_set_key(triangle: Triangle) -> (u32, u32, u32) {
    let indices = triangle.spec_indices();
    let least = least_of_three(indices[0], indices[1], indices[2]);
    let greatest = greatest_of_three(indices[0], indices[1], indices[2]);
    (least, (indices[0] + indices[1] + indices[2] - least - greatest) as u32, greatest)
}

/// No two triangles have the same vertex set.
pub open spec fn faces_distinct(triangles: Seq<Triangle>) -> bool {
    forall|i: int, j: int|
        0 <= i < j < triangles.len() ==> face_set_key(#[trigger] triangles[i]) != face_set_key(#[trigger] triangles[j])
}

/// The triangle's first index is its smallest.
pub open spec fn starts_at_least(triangle: Triangle) -> bool {
    triangle.spec_indices()[0] <= triangle.spec_indices()[1] && triangle.spec_indices()[0] <= triangle.spec_indices()[2]
}

/// Every triangle starts at its smallest index.
pub open spec fn faces_start_at_least(triangles: Seq<Triangle>) -> bool {
    forall|t: int| 0 <= t < triangles.len() ==> #[trigger] starts_at_least(triangles[t])
}

/// The vertices are in strictly increasing lexicographic `(x, y, z)` order,
/// so none repeats.
pub open spec fn vertices_increasing(vertices: Seq<VertexMicrometers>) -> bool {
    forall|i: int, j: int|
        0 <= i < j < vertices.len() ==> crate::order::triple_le(
            crate::mesh::types::vertex_key(#[trigger] vertices[i]),
            crate::mesh::types::vertex_key(#[trigger] vertices[j]),
        ) && crate::mesh::types::vertex_key(vertices[i]) != crate::mesh::types::vertex_key(vertices[j])
}

/// Checks that every recorded edge is used exactly twice, once in each
/// direction.
fn check_edges_settled(
    part: MeshPart,
    triangles: &[Triangle],
    edges: &std::collections::BTreeMap<(u32, u32), EdgeRecord>,
    edge_keys: Vec<EdgeKey>,
) -> (result: Result<(), MeshError>)
    requires
        forall|i: int| 0 <= i < edge_keys@.len() ==> #[trigger] edges@.contains_key((edge_keys@[i].first, edge_keys@[i].second)),
        forall|key: (u32, u32)|
            #[trigger] edges@.contains_key(key) ==> has_side(triangles@, edges@[key].first_triangle as int, key)
                && edges@[key].first_triangle < triangles@.len(),
        forall|key: (u32, u32)|
            #[trigger] edges@.contains_key(key) ==> edges@[key].uses == edge_uses(triangles@, triangles@.len() as int, key)
                && edges@[key].balance == edge_balance(triangles@, triangles@.len() as int, key),
        forall|i: int, side: int|
            0 <= i < triangles@.len() && 0 <= side < 3 ==> edges@.contains_key(#[trigger] side_key(triangles@[i], side)),
        forall|key: (u32, u32)| #[trigger] edges@.contains_key(key) ==> key_pairs(edge_keys@).contains(key),
    ensures
        result is Ok ==> closed_surface(triangles@),
        result is Err ==> !closed_surface(triangles@) && result matches Err(MeshError::NonManifoldEdge { .. }),
{
    let count = triangles.len();
    let ghost unsorted = edge_keys@;
    let edge_keys = sort_vec(edge_keys);
    proof {
        lemma_same_members(unsorted, edge_keys@);
        lemma_same_members(edge_keys@, unsorted);
    }
    let mut j: usize = 0;
    while j < edge_keys.len()
        invariant
            0 <= j <= edge_keys@.len(),
            forall|i: int| 0 <= i < edge_keys@.len() ==> unsorted.contains(#[trigger] edge_keys@[i]),
            forall|i: int| 0 <= i < unsorted.len() ==> #[trigger] edges@.contains_key((unsorted[i].first, unsorted[i].second)),
            forall|i: int| 0 <= i < j ==> #[trigger] edge_settled(edges@, edge_keys@[i]),
            count == triangles@.len(),
            forall|key: (u32, u32)|
                #[trigger] edges@.contains_key(key) ==> has_side(triangles@, edges@[key].first_triangle as int, key)
                    && edges@[key].first_triangle < count,
            forall|key: (u32, u32)|
                #[trigger] edges@.contains_key(key) ==> edges@[key].uses == edge_uses(triangles@, count as int, key)
                    && edges@[key].balance == edge_balance(triangles@, count as int, key),
        decreases edge_keys@.len() - j,
    {
        let key = edge_keys[j];
        proof {
            assert(unsorted.contains(edge_keys@[j as int]));
            let m = choose|m: int| 0 <= m < unsorted.len() && unsorted[m] == edge_keys@[j as int];
            assert(edges@.contains_key((unsorted[m].first, unsorted[m].second)));
        }
        match edges.get(&(key.first, key.second)) {
            Some(edge) => {
                if edge.uses != 2 || edge.balance != 0 {
                    proof {
                        let k2 = (key.first, key.second);
                        assert(has_side(triangles@, edges@[k2].first_triangle as int, k2));
                        let g = choose|g: int| 0 <= g < 3 && #[trigger] side_key(
                            triangles@[edges@[k2].first_triangle as int],
                            g,
                        ) == k2;
                        assert(!(edge_uses(triangles@, count as int, side_key(triangles@[edges@[k2].first_triangle as int], g))
                            == 2 && edge_balance(
                            triangles@,
                            count as int,
                            side_key(triangles@[edges@[k2].first_triangle as int], g),
                        ) == 0));
                    }
                    return Err(MeshError::NonManifoldEdge {
                        part,
                        first: key.first,
                        second: key.second,
                        uses: edge.uses,
                        balance: edge.balance,
                    });
                }
            },
            None => {},
        }
        j += 1;
    }
    proof {
        assert forall|i: int, side: int| 0 <= i < count && 0 <= side < 3 implies {
            &&& edge_uses(triangles@, count as int, #[trigger] side_key(triangles@[i], side)) == 2
            &&& edge_balance(triangles@, count as int, side_key(triangles@[i], side)) == 0
        } by {
            let key = side_key(triangles@[i], side);
            assert(edges@.contains_key(key));
            assert(key_pairs(unsorted).contains(key));
            let m = choose|m: int| 0 <= m < key_pairs(unsorted).len() && key_pairs(unsorted)[m] == key;
            assert(unsorted[m].first == key.0 && unsorted[m].second == key.1);
            assert(edge_keys@.contains(unsorted[m]));
            let k = choose|k: int| 0 <= k < edge_keys@.len() && edge_keys@[k] == unsorted[m];
            assert(edge_settled(edges@, edge_keys@[k]));
        }
    }
    Ok(())
}

/// Checks that every vertex is used and that the triangles around each one
/// form one closed fan.
fn check_vertex_links(
    part: MeshPart,
    triangles: &[Triangle],
    edges: &std::collections::BTreeMap<(u32, u32), EdgeRecord>,
    first_incident: &Vec<Option<usize>>,
    incident_counts: &Vec<usize>,
    n: usize,
) -> (result: Result<(), MeshError>)
    requires
        first_incident@.len() == n,
        incident_counts@.len() == n,
        edge_records_valid(edges@, triangles@.len() as int),
        forall|i: int|
            0 <= i < n && #[trigger] first_incident@[i] is Some ==> first_incident@[i].unwrap() < triangles@.len()
                && uses_vertex(triangles@[first_incident@[i].unwrap() as int], i),
        forall|w: int|
            0 <= w < n && #[trigger] first_incident@[w] is None ==> forall|i: int|
                0 <= i < triangles@.len() ==> !uses_vertex(triangles@[i], w),
    ensures
        result is Ok ==> vertices_referenced(triangles@, n as int),
        result matches Err(MeshError::UnreferencedVertex { .. }) ==> !vertices_referenced(triangles@, n as int),
        result matches Err(MeshError::TriangleIndexOverflow) ==> n > u32::MAX + 1,
        result is Err ==> result matches Err(MeshError::UnreferencedVertex { .. }) || result == Err::<(), MeshError>(
            MeshError::TriangleIndexOverflow,
        ) || result matches Err(MeshError::NonManifoldVertex { .. }),
{
    let count = triangles.len();
    let mut v: usize = 0;
    while v < n
        invariant
            count == triangles@.len(),
            first_incident@.len() == n,
            incident_counts@.len() == n,
            forall|i: int| 0 <= i < n ==> (#[trigger] first_incident@[i] matches Some(f) ==> f < count),
            edge_records_valid(edges@, count as int),
            0 <= v <= n,
            forall|i: int|
                0 <= i < n && #[trigger] first_incident@[i] is Some ==> first_incident@[i].unwrap() < count
                    && uses_vertex(triangles@[first_incident@[i].unwrap() as int], i),
            forall|u: int| 0 <= u < v ==> #[trigger] first_incident@[u] is Some,
            forall|w: int|
                0 <= w < n && #[trigger] first_incident@[w] is None ==> forall|i: int|
                    0 <= i < count ==> !uses_vertex(triangles@[i], w),
        decreases n - v,
    {
        if v > u32::MAX as usize {
            return Err(MeshError::TriangleIndexOverflow);
        }
        let vertex = v as u32;
        let first = match first_incident[v] {
            Some(first) => first,
            None => {
                proof {
                    assert(!vertex_used(triangles@, v as int));
                }
                return Err(MeshError::UnreferencedVertex { part, vertex });
            },
        };
        validate_vertex_link(part, vertex, first, incident_counts[v], triangles, edges)?;
        v += 1;
    }
    proof {
        assert forall|u: int| 0 <= u < n implies #[trigger] vertex_used(triangles@, u) by {
            assert(first_incident@[u] is Some);
            let f = first_incident@[u].unwrap() as int;
            assert(uses_vertex(triangles@[f], u));
        }
    }
    Ok(())
}

/// Checks that all `count` elements share one representative.
fn check_one_root(part: MeshPart, sets: &mut DisjointSets, count: usize) -> (result: Result<(), MeshError>)
    requires
        old(sets).wf(),
        old(sets).spec_parents().len() == count,
        count >= 1,
    ensures
        result is Ok <==> forall|i: int| 0 <= i < count ==> #[trigger] root_of(old(sets).spec_parents(), i) == root_of(
            old(sets).spec_parents(),
            0,
        ),
        result is Err ==> result == Err::<(), MeshError>(MeshError::DisconnectedMesh { part }),
{
    let ghost settled = sets.spec_parents();
    let root = sets.find(0);
    let mut t: usize = 1;
    while t < count
        invariant
            sets.spec_parents().len() == count,
            sets.wf(),
            1 <= t <= count,
            settled == old(sets).spec_parents(),
            root == root_of(settled, 0),
            forall|i: int| #[trigger] root_of(sets.spec_parents(), i) == root_of(settled, i),
            forall|u: int| 0 <= u < t ==> #[trigger] root_of(settled, u) == root_of(settled, 0),
        decreases count - t,
    {
        let found = sets.find(t);
        if found != root {
            return Err(MeshError::DisconnectedMesh { part });
        }
        t += 1;
    }
    Ok(())
}

/// Validates a closed, consistently oriented, connected 2-manifold and
/// returns six times its signed volume: every index names a vertex, no
/// triangle is degenerate or repeated, every edge is used by exactly two
/// triangles in opposite directions, every vertex is used and has one
/// closed fan of triangles, and all triangles form one shell.
#[verifier::spinoff_prover]
#[verifier::rlimit(100)]
pub fn validate_mesh(part: MeshPart, vertices: &[VertexMicrometers], triangles: &[Triangle]) -> (result: Result<
    i128,
    MeshError,
>)
    requires
        vertices_in_range(vertices@),
    ensures
        result matches Ok(volume) ==> {
            &&& triangles@.len() > 0
            &&& indices_valid(triangles@, vertices@.len() as int)
            &&& closed_surface(triangles@)
            &&& volume == mesh_volume(vertices@, triangles@, triangles@.len() as int)
            &&& vertices_referenced(triangles@, vertices@.len() as int)
            &&& faces_nondegenerate(vertices@, triangles@)
            &&& faces_distinct(triangles@)
            &&& one_shell(triangles@)
        },
        result matches Err(MeshError::InvalidTriangleIndex { .. }) ==> !indices_valid(triangles@, vertices@.len() as int),
        result matches Err(MeshError::DegenerateTriangle { .. }) ==> !faces_nondegenerate(vertices@, triangles@),
        result matches Err(MeshError::DuplicateTriangle { .. }) ==> !faces_distinct(triangles@),
        result matches Err(MeshError::NonManifoldEdge { .. }) ==> !closed_surface(triangles@),
        result matches Err(MeshError::UnreferencedVertex { .. }) ==> !vertices_referenced(
            triangles@,
            vertices@.len() as int,
        ),
        result matches Err(MeshError::TriangleIndexOverflow) ==> vertices@.len() > u32::MAX + 1,
        result matches Err(MeshError::DisconnectedMesh { .. }) ==> triangles@.len() == 0 || !one_shell(triangles@),
        result == Err::<i128, MeshError>(MeshError::ArithmeticOverflow) ==> triangles@.len() > 500_000_000,
        result is Err ==> result matches Err(MeshError::DisconnectedMesh { .. }) || result matches Err(
            MeshError::InvalidTriangleIndex { .. },
        ) || result == Err::<i128, MeshError>(MeshError::ArithmeticOverflow) || result matches Err(
            MeshError::DegenerateTriangle { .. },
        ) || result matches Err(MeshError::DuplicateTriangle { .. }) || result matches Err(
            MeshError::NonManifoldEdge { .. },
        ) || result == Err::<i128, MeshError>(MeshError::TriangleIndexOverflow) || result matches Err(
            MeshError::UnreferencedVertex { .. },
        ) || result matches Err(MeshError::NonManifoldVertex { .. }),
{
    let count = triangles.len();
    if count == 0 {
        return Err(MeshError::DisconnectedMesh { part });
    }
    let n = vertices.len();
    let mut first_incident: Vec<Option<usize>> = Vec::new();
    let mut incident_counts: Vec<usize> = Vec::new();
    while first_incident.len() < n
        invariant
            first_incident@.len() == incident_counts@.len(),
            first_incident@.len() <= n,
            forall|i: int| 0 <= i < first_incident@.len() ==> (#[trigger] first_incident@[i] matches Some(t) ==> t < count),
            forall|i: int| 0 <= i < first_incident@.len() ==> #[trigger] first_incident@[i] is None,
            forall|i: int| 0 <= i < incident_counts@.len() ==> #[trigger] incident_counts@[i] == 0,
        decreases n - first_incident@.len(),
    {
        first_incident.push(None);
        incident_counts.push(0);
    }
    let mut faces: std::collections::BTreeSet<(u32, u32, u32)> = std::collections::BTreeSet::new();
    let mut edges: std::collections::BTreeMap<(u32, u32), EdgeRecord> = std::collections::BTreeMap::new();
    let mut edge_keys: Vec<EdgeKey> = Vec::new();
    let mut sets = DisjointSets::new(count);
    proof {
        assert forall|i: int, j: int|
            0 <= i < count && 0 <= j < count && #[trigger] root_of(sets.spec_parents(), i) == #[trigger] root_of(
                sets.spec_parents(),
                j,
            ) implies triangles_joined(triangles@, i, j) by {
            lemma_joined_self(triangles@, i);
        }
    }
    let mut volume: i128 = 0;
    let mut t: usize = 0;
    while t < count
        invariant
            count == triangles@.len(),
            n == vertices@.len(),
            vertices_in_range(vertices@),
            first_incident@.len() == n,
            incident_counts@.len() == n,
            forall|i: int| 0 <= i < n ==> (#[trigger] first_incident@[i] matches Some(f) ==> f < count),
            forall|i: int|
                0 <= i < n && #[trigger] first_incident@[i] is Some ==> first_incident@[i].unwrap() < t
                    && uses_vertex(triangles@[first_incident@[i].unwrap() as int], i),
            forall|i: int| 0 <= i < t ==> nondegenerate_face(vertices@, #[trigger] triangles@[i]),
            forall|i: int| 0 <= i < t ==> faces@.contains(face_set_key(#[trigger] triangles@[i])),
            forall|key: (u32, u32, u32)|
                #[trigger] faces@.contains(key) ==> exists|i: int| 0 <= i < t && face_set_key(triangles@[i]) == key,
            forall|v: int|
                0 <= v < n && #[trigger] first_incident@[v] is None ==> forall|i: int|
                    0 <= i < t ==> !uses_vertex(triangles@[i], v),
            faces_distinct(triangles@.subrange(0, t as int)),
            forall|v: int| 0 <= v < n ==> #[trigger] incident_counts@[v] <= 3 * t,
            sets.spec_parents().len() == count,
            sets.wf(),
            roots_joined(triangles@, sets.spec_parents(), count as int),
            roots_follow_edges(triangles@, sets.spec_parents(), edges@, t as int, 0),
            forall|key: (u32, u32)|
                #[trigger] edges@.contains_key(key) ==> has_side(triangles@, edges@[key].first_triangle as int, key),
            edge_records_valid(edges@, count as int),
            forall|j: int| 0 <= j < edge_keys@.len() ==> #[trigger] edges@.contains_key((edge_keys@[j].first, edge_keys@[j].second)),
            0 <= t <= count,
            indices_valid(triangles@.subrange(0, t as int), n as int),
            volume == mesh_volume(vertices@, triangles@, t as int),
            forall|key: (u32, u32)|
                #[trigger] edges@.contains_key(key) ==> edges@[key].uses == edge_uses(triangles@, t as int, key)
                    && edges@[key].balance == edge_balance(triangles@, t as int, key),
            forall|key: (u32, u32)|
                !#[trigger] edges@.contains_key(key) ==> edge_uses(triangles@, t as int, key) == 0
                    && edge_balance(triangles@, t as int, key) == 0,
            forall|i: int, side: int|
                0 <= i < t && 0 <= side < 3 ==> edges@.contains_key(#[trigger] side_key(triangles@[i], side)),
            forall|key: (u32, u32)| #[trigger] edges@.contains_key(key) ==> key_pairs(edge_keys@).contains(key),
        decreases count - t,
    {
        let indices = triangles[t].indices();
        let mut k: usize = 0;
        while k < 3
            invariant
                n == vertices@.len(),
                first_incident@.len() == n,
                incident_counts@.len() == n,
                forall|i: int| 0 <= i < n ==> (#[trigger] first_incident@[i] matches Some(f) ==> f < count),
                forall|i: int|
                    0 <= i < n && #[trigger] first_incident@[i] is Some ==> first_incident@[i].unwrap() <= t
                        && uses_vertex(triangles@[first_incident@[i].unwrap() as int], i),
                indices == triangles@[t as int].spec_indices(),
                count == triangles@.len(),
                t < count,
                0 <= k <= 3,
                forall|j: int| 0 <= j < k ==> indices[j] < n,
                forall|j: int| 0 <= j < k ==> first_incident@[indices[j] as int] is Some,
                forall|v: int| 0 <= v < n ==> #[trigger] incident_counts@[v] <= 3 * t + k,
                forall|v: int|
                    0 <= v < n && #[trigger] first_incident@[v] is None ==> forall|i: int|
                        0 <= i < t ==> !uses_vertex(triangles@[i], v),
            decreases 3 - k,
        {
            let index = indices[k];
            if index as usize >= n {
                proof {
                    assert(!(triangles@[t as int].spec_indices()[k as int] < n));
                }
                return Err(MeshError::InvalidTriangleIndex { part, triangle: t, index, vertex_count: n });
            }
            let ghost incident_before = first_incident@;
            if first_incident[index as usize].is_none() {
                first_incident.set(index as usize, Some(t));
            }
            proof {
                assert forall|j: int| 0 <= j < k + 1 implies first_incident@[indices[j] as int] is Some by {
                    if j < k {
                        assert(incident_before[indices[j] as int] is Some);
                    }
                }
            }
            let incremented = match incident_counts[index as usize].checked_add(1) {
                Some(value) => value,
                None => {
                    return Err(MeshError::ArithmeticOverflow);
                },
            };
            let ghost counts_before = incident_counts@;
            incident_counts.set(index as usize, incremented);
            proof {
                assert forall|v: int| 0 <= v < n implies #[trigger] incident_counts@[v] <= 3 * t + k + 1 by {
                    if v != index {
                        assert(incident_counts@[v] == counts_before[v]);
                    }
                }
            }
            k += 1;
        }
        proof {
            assert forall|v: int|
                0 <= v < n && #[trigger] first_incident@[v] is None implies forall|i: int|
                    0 <= i < t + 1 ==> !uses_vertex(triangles@[i], v) by {
                assert(indices[0] != v && indices[1] != v && indices[2] != v);
            }
        }
        if indices[0] == indices[1] || indices[1] == indices[2] || indices[2] == indices[0] {
            proof {
                assert(!nondegenerate_face(vertices@, triangles@[t as int]));
            }
            return Err(MeshError::DegenerateTriangle { part, triangle: t });
        }
        proof {
            assert(vertex_in_range(vertices@[indices[0] as int]));
            assert(vertex_in_range(vertices@[indices[1] as int]));
            assert(vertex_in_range(vertices@[indices[2] as int]));
        }
        let a = vertices[indices[0] as usize];
        let b = vertices[indices[1] as usize];
        let c = vertices[indices[2] as usize];
        if cross_is_zero(a, b, c) {
            proof {
                assert(!nondegenerate_face(vertices@, triangles@[t as int]));
            }
            return Err(MeshError::DegenerateTriangle { part, triangle: t });
        }
        proof {
            assert(nondegenerate_face(vertices@, triangles@[t as int]));
        }
        let face = sorted_face(indices);
        let ghost faces_before = faces@;
        proof {
            assert(face == face_set_key(triangles@[t as int]));
        }
        if !faces.insert(face) {
            proof {
                let i = choose|i: int| 0 <= i < t && face_set_key(triangles@[i]) == face;
                assert(face_set_key(triangles@[i]) == face_set_key(triangles@[t as int]));
            }
            return Err(MeshError::DuplicateTriangle { part, triangle: t });
        }
        proof {
            assert forall|key: (u32, u32, u32)| #[trigger] faces@.contains(key) implies exists|i: int|
                0 <= i < t + 1 && face_set_key(triangles@[i]) == key by {
                if key != face {
                    assert(faces_before.contains(key));
                    let i = choose|i: int| 0 <= i < t && face_set_key(triangles@[i]) == key;
                    assert(0 <= i < t + 1 && face_set_key(triangles@[i]) == key);
                } else {
                    assert(face_set_key(triangles@[t as int]) == key);
                }
            }
        }
        proof {
            let done = triangles@.subrange(0, t + 1);
            assert forall|i: int, j: int| 0 <= i < j < done.len() implies face_set_key(#[trigger] done[i])
                != face_set_key(#[trigger] done[j]) by {
                assert(done[i] == triangles@[i]);
                assert(done[j] == triangles@[j]);
                if j < t {
                    assert(triangles@.subrange(0, t as int)[i] == triangles@[i]);
                    assert(triangles@.subrange(0, t as int)[j] == triangles@[j]);
                } else {
                    assert(faces_before.contains(face_set_key(triangles@[i])));
                }
            }
        }
        let mut e: usize = 0;
        while e < 3
            invariant
                count == triangles@.len(),
                t < count,
                sets.spec_parents().len() == count,
                sets.wf(),
                roots_joined(triangles@, sets.spec_parents(), count as int),
                roots_follow_edges(triangles@, sets.spec_parents(), edges@, t as int, e as int),
                nondegenerate_face(vertices@, triangles@[t as int]),
                forall|key: (u32, u32)|
                    #[trigger] edges@.contains_key(key) ==> has_side(triangles@, edges@[key].first_triangle as int, key),
                edge_records_valid(edges@, count as int),
                forall|j: int| 0 <= j < edge_keys@.len() ==> #[trigger] edges@.contains_key((edge_keys@[j].first, edge_keys@[j].second)),
                0 <= e <= 3,
                indices == triangles@[t as int].spec_indices(),
                forall|key: (u32, u32)|
                    #[trigger] edges@.contains_key(key) ==> edges@[key].uses == edge_uses(triangles@, t as int, key)
                        + sides_uses(triangles@[t as int], e as int, key) && edges@[key].balance == edge_balance(
                        triangles@,
                        t as int,
                        key,
                    ) + sides_balance(triangles@[t as int], e as int, key),
                forall|key: (u32, u32)|
                    !#[trigger] edges@.contains_key(key) ==> edge_uses(triangles@, t as int, key) + sides_uses(
                        triangles@[t as int],
                        e as int,
                        key,
                    ) == 0 && edge_balance(triangles@, t as int, key) + sides_balance(triangles@[t as int], e as int, key)
                        == 0,
                forall|i: int, side: int|
                    0 <= i < t && 0 <= side < 3 ==> edges@.contains_key(#[trigger] side_key(triangles@[i], side)),
                forall|side: int| 0 <= side < e ==> edges@.contains_key(#[trigger] side_key(triangles@[t as int], side)),
                forall|key: (u32, u32)| #[trigger] edges@.contains_key(key) ==> key_pairs(edge_keys@).contains(key),
            decreases 3 - e,
        {
            let start = indices[e];
            let end = indices[(e + 1) % 3];
            let (key, delta): ((u32, u32), i32) = if start < end {
                ((start, end), 1)
            } else {
                ((end, start), -1)
            };
            let ghost keys_before = edge_keys@;
            let ghost edges_before = edges@;
            proof {
                assert(key == side_key(triangles@[t as int], e as int));
                assert(delta == side_direction(triangles@[t as int], e as int));
            }
            let existing = match edges.get(&key) {
                Some(edge) => Some(*edge),
                None => None,
            };
            match existing {
                None => {
                    edges.insert(key, EdgeRecord { uses: 1, balance: delta, first_triangle: t, second_triangle: None });
                    proof {
                        assert(side_key(triangles@[t as int], e as int) == key);
                        assert(!edges_before.contains_key(key));
                        lemma_follow_new_edge(triangles@, sets.spec_parents(), edges_before, edges@, t as int, e as int);
                        assert forall|other: (u32, u32)| #[trigger] edges@.contains_key(other) implies has_side(
                            triangles@,
                            edges@[other].first_triangle as int,
                            other,
                        ) by {
                            if other != key {
                                assert(edges_before.contains_key(other));
                            }
                        }
                    }
                    edge_keys.push(EdgeKey { first: key.0, second: key.1 });
                    proof {
                        assert forall|j: int| 0 <= j < edge_keys@.len() implies #[trigger] edges@.contains_key((edge_keys@[j].first, edge_keys@[j].second)) by {
                            if j < edge_keys@.len() - 1 {
                                assert(edge_keys@[j] == edge_keys@.drop_last()[j]);
                            }
                        }
                        assert(key_pairs(edge_keys@) =~= key_pairs(keys_before).push(key));
                        assert(key_pairs(edge_keys@)[keys_before.len() as int] == key);
                        assert forall|other: (u32, u32)| #[trigger] edges@.contains_key(other) implies key_pairs(
                            edge_keys@,
                        ).contains(other) by {
                            if other != key {
                                assert(edges_before.contains_key(other));
                                let m = choose|m: int| 0 <= m < key_pairs(keys_before).len() && key_pairs(keys_before)[m] == other;
                                assert(key_pairs(edge_keys@)[m] == other);
                            }
                        }
                    }
                },
                Some(edge) => {
                    proof {
                        assert(edges@.contains_key(key));
                    }
                    proof {
                        lemma_edge_counts_bounded(triangles@, t as int, key);
                        lemma_sides_bounded(triangles@[t as int], e as int, key);
                        assert(edges@.contains_key(key));
                    }
                    let uses = match edge.uses.checked_add(1) {
                        Some(value) => value,
                        None => {
                            return Err(MeshError::ArithmeticOverflow);
                        },
                    };
                    let balance = match edge.balance.checked_add(delta) {
                        Some(value) => value,
                        None => {
                            return Err(MeshError::ArithmeticOverflow);
                        },
                    };
                    let second = match edge.second_triangle {
                        None => Some(t),
                        Some(existing_second) => Some(existing_second),
                    };
                    edges.insert(key, EdgeRecord { uses, balance, first_triangle: edge.first_triangle, second_triangle: second });
                    let ghost parents_before = sets.spec_parents();
                    proof {
                        assert(edges_before.contains_key(key));
                        assert(has_side(triangles@, edge.first_triangle as int, key));
                        let g = choose|g: int| 0 <= g < 3 && #[trigger] side_key(triangles@[edge.first_triangle as int], g) == key;
                        assert(side_key(triangles@[t as int], e as int) == key);
                        assert(share_edge(triangles@[edge.first_triangle as int], triangles@[t as int]));
                        lemma_joined_step(triangles@, edge.first_triangle as int, t as int);
                        assert forall|other: (u32, u32)| #[trigger] edges@.contains_key(other) implies has_side(
                            triangles@,
                            edges@[other].first_triangle as int,
                            other,
                        ) by {
                            if other != key {
                                assert(edges_before.contains_key(other));
                            }
                        }
                    }
                    proof {
                        lemma_follow_same_first(triangles@, sets.spec_parents(), edges_before, edges@, t as int, e as int, key);
                    }
                    let ghost edges_now = edges@;
                    sets.union(edge.first_triangle, t);
                    proof {
                        lemma_union_keeps_follow(
                            triangles@,
                            parents_before,
                            sets.spec_parents(),
                            edges_now,
                            t as int,
                            e as int,
                            edge.first_triangle as int,
                            t as int,
                        );
                        assert(edges_now[key].first_triangle == edge.first_triangle);
                        lemma_follow_extend(triangles@, sets.spec_parents(), edges@, t as int, e as int);
                    }
                    proof {
                        lemma_union_keeps_joined(
                            triangles@,
                            parents_before,
                            sets.spec_parents(),
                            count as int,
                            edge.first_triangle as int,
                            t as int,
                        );
                    }
                },
            }
            e += 1;
        }
        let contribution = signed_six_tetrahedron(a, b, c);
        proof {
            assert forall|i: int| 0 <= i < t + 1 implies (#[trigger] triangles@.subrange(0, t + 1)[i]).spec_indices()[0] < n
                && triangles@.subrange(0, t + 1)[i].spec_indices()[1] < n && triangles@.subrange(0, t + 1)[i].spec_indices()[2]
                < n by {
                if i < t {
                    assert(triangles@.subrange(0, t + 1)[i] == triangles@.subrange(0, t as int)[i]);
                }
            }
            lemma_mesh_volume_bounded(vertices@, triangles@, t + 1);
        }
        volume = match volume.checked_add(contribution) {
            Some(value) => value,
            None => {
                return Err(MeshError::ArithmeticOverflow);
            },
        };
        proof {
            assert(triangles@.subrange(0, t + 1).drop_last() == triangles@.subrange(0, t as int));
            assert forall|i: int| 0 <= i < t + 1 implies (#[trigger] triangles@.subrange(0, t + 1)[i]).spec_indices()[0] < n
                && triangles@.subrange(0, t + 1)[i].spec_indices()[1] < n && triangles@.subrange(0, t + 1)[i].spec_indices()[2] < n by {
                if i < t {
                    assert(triangles@.subrange(0, t + 1)[i] == triangles@.subrange(0, t as int)[i]);
                }
            }
        }
        t += 1;
    }
    proof {
        assert(triangles@.subrange(0, count as int) == triangles@);
    }
    let ghost built = sets.spec_parents();
    proof {
        if one_shell(triangles@) {
            lemma_shell_one_root(triangles@, built, edges@);
        }
    }
    check_edges_settled(part, triangles, &edges, edge_keys)?;
    check_vertex_links(part, triangles, &edges, &first_incident, &incident_counts, n)?;
    let ghost settled = sets.spec_parents();
    check_one_root(part, &mut sets, count)?;
    proof {
        assert forall|j: int| 0 <= j < triangles@.len() implies #[trigger] triangles_joined(triangles@, 0, j) by {
            assert(root_of(settled, j) == root_of(settled, 0));
        }
    }
    Ok(volume)
}

impl MeshBuilder {
    /// Canonicalizes and validates the collected mesh: vertices are sorted
    /// lexicographically, each triangle is rotated to start at its smallest
    /// index, triangles are sorted, and the closed mesh must enclose exactly
    /// the expected volume.
    pub fn finish(self, part: MeshPart, expected_volume: i128) -> (result: Result<TriangleMesh, MeshError>)
        requires
            self.wf(),
        ensures
            result matches Ok(mesh) ==> {
                &&& mesh.spec_signed_six_volume() == expected_volume
                &&& mesh.spec_triangles().len() > 0
                &&& indices_valid(mesh.spec_triangles(), mesh.spec_vertices().len() as int)
                &&& closed_surface(mesh.spec_triangles())
                &&& vertices_referenced(mesh.spec_triangles(), mesh.spec_vertices().len() as int)
                &&& faces_nondegenerate(mesh.spec_vertices(), mesh.spec_triangles())
                &&& faces_start_at_least(mesh.spec_triangles())
                &&& vertices_increasing(mesh.spec_vertices())
                &&& faces_distinct(mesh.spec_triangles())
                &&& crate::order::sorted(mesh.spec_triangles())
                &&& one_shell(mesh.spec_triangles())
                &&& mesh_arranges(mesh, self.spec_faces())
                &&& forall|floor: int, ceiling: int|
                    #![trigger heights_within(mesh.spec_vertices(), floor, ceiling)]
                    heights_within(self.spec_vertices(), floor, ceiling) ==> heights_within(
                        mesh.spec_vertices(),
                        floor,
                        ceiling,
                    )
            },
        result is Err ==> result matches Err(MeshError::DisconnectedMesh { .. }) || result matches Err(
            MeshError::DegenerateTriangle { .. },
        ) || result matches Err(MeshError::DuplicateTriangle { .. }) || result matches Err(
            MeshError::NonManifoldEdge { .. },
        ) || result matches Err(MeshError::NonManifoldVertex { .. }) || result matches Err(
            MeshError::UnreferencedVertex { .. },
        ) || result matches Err(MeshError::VolumeMismatch { .. }),
        result matches Err(MeshError::DisconnectedMesh { .. }) ==> arranged_and(
            self.spec_faces(),
            |vertices: Seq<VertexMicrometers>, triangles: Seq<Triangle>| triangles.len() == 0 || !one_shell(triangles),
        ),
        result matches Err(MeshError::DegenerateTriangle { .. }) ==> arranged_and(
            self.spec_faces(),
            |vertices: Seq<VertexMicrometers>, triangles: Seq<Triangle>| !faces_nondegenerate(vertices, triangles),
        ),
        result matches Err(MeshError::DuplicateTriangle { .. }) ==> arranged_and(
            self.spec_faces(),
            |vertices: Seq<VertexMicrometers>, triangles: Seq<Triangle>| !faces_distinct(triangles),
        ),
        result matches Err(MeshError::NonManifoldEdge { .. }) ==> arranged_and(
            self.spec_faces(),
            |vertices: Seq<VertexMicrometers>, triangles: Seq<Triangle>| !closed_surface(triangles),
        ),
        result matches Err(MeshError::UnreferencedVertex { .. }) ==> arranged_and(
            self.spec_faces(),
            |vertices: Seq<VertexMicrometers>, triangles: Seq<Triangle>| !vertices_referenced(
                triangles,
                vertices.len() as int,
            ),
        ),
        result matches Err(MeshError::VolumeMismatch { expected, actual, .. }) ==> expected == expected_volume
            && actual != expected_volume && arranged_and(
            self.spec_faces(),
            |vertices: Seq<VertexMicrometers>, triangles: Seq<Triangle>| mesh_volume(
                vertices,
                triangles,
                triangles.len() as int,
            ) == actual,
        ),
    {
        let n = self.vertices.len();
        let mut ordered: Vec<IndexedVertex> = Vec::new();
        let mut i: usize = 0;
        while i < n
            invariant
                n == self.vertices@.len(),
                0 <= i <= n,
                ordered@.len() == i,
                forall|k: int| 0 <= k < i ==> (#[trigger] ordered@[k]).index == k && ordered@[k].vertex == self.vertices@[k],
            decreases n - i,
        {
            ordered.push(IndexedVertex { vertex: self.vertices[i], index: i });
            i += 1;
        }
        let ghost unsorted = ordered@;
        let ordered = sort_vec(ordered);
        proof {
            lemma_same_members(unsorted, ordered@);
            assert forall|k: int| 0 <= k < ordered@.len() implies (#[trigger] ordered@[k]).index < n
                && vertex_in_range(ordered@[k].vertex) by {
                assert(unsorted.contains(ordered@[k]));
                let m = choose|m: int| 0 <= m < unsorted.len() && unsorted[m] == ordered@[k];
                assert(vertex_in_range(self.vertices@[m]));
            }
            assert(unsorted.no_duplicates()) by {
                assert forall|a: int, b: int| 0 <= a < b < unsorted.len() implies unsorted[a] != unsorted[b] by {
                    assert(unsorted[a].index == a && unsorted[b].index == b);
                }
            }
            unsorted.lemma_multiset_has_no_duplicates();
            ordered@.lemma_multiset_has_no_duplicates_conv();
            assert forall|a: int, b: int|
                0 <= a < ordered@.len() && 0 <= b < ordered@.len() && (#[trigger] ordered@[a]).index == (
                #[trigger] ordered@[b]).index implies a == b by {
                assert(unsorted.contains(ordered@[a]));
                assert(unsorted.contains(ordered@[b]));
                let ma = choose|m: int| 0 <= m < unsorted.len() && unsorted[m] == ordered@[a];
                let mb = choose|m: int| 0 <= m < unsorted.len() && unsorted[m] == ordered@[b];
                assert(ordered@[a] == ordered@[b]);
            }
        }
        let mut remap: Vec<u32> = Vec::new();
        while remap.len() < n
            invariant
                remap@.len() <= n,
                forall|k: int| 0 <= k < remap@.len() ==> #[trigger] remap@[k] == 0,
            decreases n - remap@.len(),
        {
            remap.push(0);
        }
        let mut vertices: Vec<VertexMicrometers> = Vec::new();
        let mut new_index: usize = 0;
        while new_index < ordered.len()
            invariant
                n == self.vertices@.len(),
                n <= MAX_MESH_VERTICES,
                ordered@.len() == n,
                remap@.len() == n,
                0 <= new_index <= n,
                vertices@.len() == new_index,
                forall|k: int| 0 <= k < ordered@.len() ==> (#[trigger] ordered@[k]).index < n && vertex_in_range(ordered@[k].vertex),
                forall|k: int| 0 <= k < n ==> #[trigger] remap@[k] < n || remap@[k] == 0,
                vertices_in_range(vertices@),
                forall|k: int| 0 <= k < new_index ==> #[trigger] vertices@[k] == ordered@[k].vertex,
                forall|k: int| 0 <= k < new_index ==> remap@[(#[trigger] ordered@[k]).index as int] == k,
                forall|a: int, b: int|
                    0 <= a < ordered@.len() && 0 <= b < ordered@.len() && (#[trigger] ordered@[a]).index == (
                    #[trigger] ordered@[b]).index ==> a == b,
            decreases n - new_index,
        {
            if new_index > u32::MAX as usize {
                return Err(MeshError::TriangleIndexOverflow);
            }
            let entry = ordered[new_index];
            let ghost remap_before = remap@;
            remap.set(entry.index, new_index as u32);
            proof {
                assert forall|k: int| 0 <= k < new_index + 1 implies remap@[(#[trigger] ordered@[k]).index as int]
                    == k by {
                    if k < new_index {
                        assert(ordered@[k].index != entry.index);
                        assert(remap@[ordered@[k].index as int] == remap_before[ordered@[k].index as int]);
                    }
                }
            }
            let ghost vertices_before = vertices@;
            vertices.push(entry.vertex);
            proof {
                assert forall|k: int| 0 <= k < new_index + 1 implies #[trigger] vertices@[k] == ordered@[k].vertex by {
                    if k < new_index {
                        assert(vertices@[k] == vertices_before[k]);
                    }
                }
                assert forall|k: int| 0 <= k < vertices@.len() implies vertex_in_range(#[trigger] vertices@[k]) by {
                    if k < new_index {
                        assert(vertices@[k] == vertices@.drop_last()[k]);
                    }
                }
            }
            new_index += 1;
        }
        proof {
            self.lemma_vertices_distinct();
            assert forall|i: int| 0 <= i < n implies remap@[i] < n && #[trigger] vertices@[remap@[i] as int]
                == self.vertices@[i] by {
                assert(ordered@.to_multiset().count(unsorted[i]) > 0);
                assert(ordered@.contains(unsorted[i]));
                let k = choose|k: int| 0 <= k < ordered@.len() && ordered@[k] == unsorted[i];
                assert(remap@[ordered@[k].index as int] == k);
            }
            assert forall|i: int, j: int| 0 <= i < j < vertices@.len() implies crate::order::triple_le(
                crate::mesh::types::vertex_key(#[trigger] vertices@[i]),
                crate::mesh::types::vertex_key(#[trigger] vertices@[j]),
            ) && crate::mesh::types::vertex_key(vertices@[i]) != crate::mesh::types::vertex_key(vertices@[j]) by {
                assert(ordered@[i].ordered_le(ordered@[j]));
                assert(unsorted.contains(ordered@[i]));
                assert(unsorted.contains(ordered@[j]));
                let a = choose|a: int| 0 <= a < unsorted.len() && unsorted[a] == ordered@[i];
                let b = choose|b: int| 0 <= b < unsorted.len() && unsorted[b] == ordered@[j];
                if crate::mesh::types::vertex_key(vertices@[i]) == crate::mesh::types::vertex_key(vertices@[j]) {
                    VertexMicrometers::lemma_coordinates_determine(vertices@[i], vertices@[j]);
                    assert(self.vertices@[a] == self.vertices@[b]);
                    assert(a == b);
                    assert(ordered@[i] == ordered@[j]);
                }
            }
        }
        proof {
            assert forall|floor: int, ceiling: int|
                heights_within(self.spec_vertices(), floor, ceiling) implies #[trigger] heights_within(
                vertices@,
                floor,
                ceiling,
            ) by {
                assert forall|k: int| 0 <= k < vertices@.len() implies floor <= #[trigger] vertices@[k].spec_z()
                    <= ceiling by {
                    assert(unsorted.contains(ordered@[k]));
                    let m = choose|m: int| 0 <= m < unsorted.len() && unsorted[m] == ordered@[k];
                    assert(vertices@[k] == self.vertices@[m]);
                }
            }
        }
        let mut triangles: Vec<Triangle> = Vec::new();
        let mut t: usize = 0;
        while t < self.triangles.len()
            invariant
                self.wf(),
                n == self.vertices@.len(),
                remap@.len() == n,
                vertices@.len() == n,
                forall|k: int| 0 <= k < n ==> #[trigger] remap@[k] < n || remap@[k] == 0,
                0 <= t <= self.triangles@.len(),
                triangles@.len() == t,
                forall|i: int| 0 <= i < n ==> remap@[i] < n && #[trigger] vertices@[remap@[i] as int] == self.vertices@[i],
                forall|k: int|
                    0 <= k < t ==> (#[trigger] triangles@[k]).spec_indices()[0] < n && triangles@[k].spec_indices()[1] < n
                        && triangles@[k].spec_indices()[2] < n,
                forall|k: int|
                    0 <= k < t ==> face_rotation(
                        face_of(vertices@, (#[trigger] triangles@[k]).spec_indices()),
                        face_of(self.vertices@, self.triangles@[k]),
                    ),
                faces_start_at_least(triangles@),
                vertices_increasing(vertices@),
            decreases self.triangles@.len() - t,
        {
            let indices = self.triangles[t];
            proof {
                assert(indices[0] < n && indices[1] < n && indices[2] < n);
            }
            let remapped = [remap[indices[0] as usize], remap[indices[1] as usize], remap[indices[2] as usize]];
            let minimum: usize = if remapped[1] < remapped[0] && remapped[1] <= remapped[2] {
                1
            } else if remapped[2] < remapped[0] && remapped[2] < remapped[1] {
                2
            } else {
                0
            };
            let rotated = if minimum == 0 {
                remapped
            } else if minimum == 1 {
                [remapped[1], remapped[2], remapped[0]]
            } else {
                [remapped[2], remapped[0], remapped[1]]
            };
            let ghost before = triangles@;
            triangles.push(Triangle::new(rotated));
            proof {
                assert(vertices@[remapped[0] as int] == self.vertices@[indices[0] as int]);
                assert(vertices@[remapped[1] as int] == self.vertices@[indices[1] as int]);
                assert(vertices@[remapped[2] as int] == self.vertices@[indices[2] as int]);
                assert forall|k: int| 0 <= k < triangles@.len() implies (#[trigger] triangles@[k]).spec_indices()[0] < n
                    && triangles@[k].spec_indices()[1] < n && triangles@[k].spec_indices()[2] < n by {
                    if k < before.len() {
                        assert(triangles@[k] == before[k]);
                    }
                }
                assert forall|k: int| 0 <= k < triangles@.len() implies face_rotation(
                    face_of(vertices@, (#[trigger] triangles@[k]).spec_indices()),
                    face_of(self.vertices@, self.triangles@[k]),
                ) by {
                    if k < before.len() {
                        assert(triangles@[k] == before[k]);
                    }
                }
                assert forall|i: int| 0 <= i < triangles@.len() implies #[trigger] starts_at_least(triangles@[i]) by {
                    if i < before.len() {
                        assert(triangles@[i] == before[i]);
                    }
                }
            }
            t += 1;
        }
        let ghost unsorted_triangles = triangles@;
        let triangles = sort_vec(triangles);
        proof {
            lemma_same_members(unsorted_triangles, triangles@);
            assert forall|i: int| 0 <= i < triangles@.len() implies #[trigger] starts_at_least(triangles@[i]) by {
                assert(unsorted_triangles.contains(triangles@[i]));
            }
            assert forall|k: int| 0 <= k < unsorted_triangles.len() implies face_rotation(
                face_of(vertices@, (#[trigger] unsorted_triangles[k]).spec_indices()),
                self.spec_faces()[k],
            ) by {}
            assert(arrangement_of(vertices@, triangles@, self.spec_faces()));
            assert forall|i: int| 0 <= i < triangles@.len() implies (#[trigger] triangles@[i]).spec_indices()[0] < n
                && triangles@[i].spec_indices()[1] < n && triangles@[i].spec_indices()[2] < n by {
                assert(unsorted_triangles.contains(triangles@[i]));
            }
            assert(indices_valid(triangles@, vertices@.len() as int));
        }
        let checked = validate_mesh(part, vertices.as_slice(), triangles.as_slice());
        proof {
            assert(vertices@.len() <= MAX_MESH_VERTICES);
            assert(triangles@.len() <= MAX_MESH_TRIANGLES);
            let vs = vertices@;
            let ts = triangles@;
            let faces = self.spec_faces();
            if checked matches Err(MeshError::DisconnectedMesh { .. }) {
                let broken = |vertices: Seq<VertexMicrometers>, triangles: Seq<Triangle>| triangles.len() == 0 || !one_shell(
                    triangles,
                );
                assert(broken(vs, ts));
                assert(arranged_and(faces, broken));
            }
            if checked matches Err(MeshError::DegenerateTriangle { .. }) {
                let broken = |vertices: Seq<VertexMicrometers>, triangles: Seq<Triangle>| !faces_nondegenerate(
                    vertices,
                    triangles,
                );
                assert(broken(vs, ts));
                assert(arranged_and(faces, broken));
            }
            if checked matches Err(MeshError::DuplicateTriangle { .. }) {
                let broken = |vertices: Seq<VertexMicrometers>, triangles: Seq<Triangle>| !faces_distinct(triangles);
                assert(broken(vs, ts));
                assert(arranged_and(faces, broken));
            }
            if checked matches Err(MeshError::NonManifoldEdge { .. }) {
                let broken = |vertices: Seq<VertexMicrometers>, triangles: Seq<Triangle>| !closed_surface(triangles);
                assert(broken(vs, ts));
                assert(arranged_and(faces, broken));
            }
            if checked matches Err(MeshError::UnreferencedVertex { .. }) {
                let broken = |vertices: Seq<VertexMicrometers>, triangles: Seq<Triangle>| !vertices_referenced(
                    triangles,
                    vertices.len() as int,
                );
                assert(broken(vs, ts));
                assert(arranged_and(faces, broken));
            }
        }
        let signed_six_volume = checked?;
        if signed_six_volume != expected_volume {
            proof {
                let broken = |vertices: Seq<VertexMicrometers>, triangles: Seq<Triangle>| mesh_volume(
                    vertices,
                    triangles,
                    triangles.len() as int,
                ) == signed_six_volume;
                assert(broken(vertices@, triangles@));
                assert(arranged_and(self.spec_faces(), broken));
            }
            return Err(MeshError::VolumeMismatch { part, expected: expected_volume, actual: signed_six_volume });
        }
        Ok(TriangleMesh::from_validated(vertices, triangles, signed_six_volume))
    }
}

/// Triangulates one polygon's cap.
pub fn triangulate_polygon(polygon: &Polygon, work: &mut WorkBudget) -> (result: Result<
    Vec<[PointMicrometers; 3]>,
    MeshError,
>)
    requires
        polygon.wf(),
    ensures
        result matches Ok(triangles) ==> positively_oriented(triangles@) && triangles_area(triangles@)
            == polygon.spec_area(),
        result matches Ok(triangles) ==> forall|i: int| 0 <= i < triangles@.len() ==> crate::mesh::exact::triangle_in_range(#[trigger] triangles@[i]),
        result matches Ok(triangles) ==> triangulation_fits(
            polygon.spec_exterior().spec_vertices(),
            ring_views(polygon.spec_holes()),
            triangles@,
        ),
{
    let area = polygon.double_area();
    triangulate_rings(polygon.exterior().vertices(), polygon.holes(), area, work)
}

/// The total signed six-volume of the first `count` meshes.
pub open spec fn meshes_volume(meshes: Seq<TriangleMesh>, count: int) -> int
    decreases count,
{
    if count <= 0 {
        0
    } else {
        meshes_volume(meshes, count - 1) + meshes[count - 1].spec_signed_six_volume()
    }
}

/// Builds separately selectable, exact, watertight substrate and fill
/// meshes. The substrate is one shell: the footprint bottom, the lower
/// outside walls, the shelves under every fill part, the raised substrate
/// caps and the raised walls. Every fill part is a prism from the backing to
/// the full thickness. Each mesh encloses exactly its prism volume and all
/// meshes together exactly fill the footprint to the full thickness.
pub fn build_part_model(partition: &PlanarPartition, options: MeshOptions) -> (result: Result<
    PartModel,
    MeshError,
>)
    ensures
        result matches Ok(model) ==> {
            let backing = options.spec_backing() as int;
            let total = options.spec_total() as int;
            let footprint_area = partition.spec_footprint().spec_double_area();
            &&& model.spec_substrate().spec_signed_six_volume() == spec_substrate_volume(
                footprint_area,
                backing,
                partition.spec_substrate_upper().spec_area(),
                total - backing,
            )
            &&& model.spec_fill_parts().len() == partition.spec_fill_parts().len()
            &&& forall|i: int|
                0 <= i < model.spec_fill_parts().len() ==> (#[trigger] model.spec_fill_parts()[i]).spec_signed_six_volume()
                    == spec_scaled_volume(partition.spec_fill_parts()[i].spec_area(), total - backing)
            &&& model.spec_substrate().spec_signed_six_volume() + meshes_volume(
                model.spec_fill_parts(),
                model.spec_fill_parts().len() as int,
            ) == spec_scaled_volume(footprint_area, total)
            &&& closed_surface(model.spec_substrate().spec_triangles())
            &&& forall|i: int|
                0 <= i < model.spec_fill_parts().len() ==> closed_surface(
                    (#[trigger] model.spec_fill_parts()[i]).spec_triangles(),
                )
            &&& model.spec_substrate().wf()
            &&& forall|i: int| 0 <= i < model.spec_fill_parts().len() ==> (#[trigger] model.spec_fill_parts()[i]).wf()
            &&& forall|i: int|
                0 <= i < model.spec_fill_parts().len() ==> prism_mesh_of(
                    #[trigger] model.spec_fill_parts()[i],
                    partition.spec_fill_parts()[i],
                    options.spec_backing(),
                    options.spec_total(),
                )
            &&& substrate_mesh_of(*model.spec_substrate(), *partition, options.spec_backing(), options.spec_total())
            &&& heights_within(model.spec_substrate().spec_vertices(), 0, total)
            &&& forall|i: int|
                0 <= i < model.spec_fill_parts().len() ==> heights_within(
                    (#[trigger] model.spec_fill_parts()[i]).spec_vertices(),
                    backing,
                    total,
                )
        },
        MAX_INPUT_CONTOUR_VERTICES < contour_vertex_demand(*partition) <= usize::MAX ==> result == Err::<
            PartModel,
            MeshError,
        >(
            MeshError::TooManyInputContourVertices {
                required: contour_vertex_demand(*partition) as usize,
                max: MAX_INPUT_CONTOUR_VERTICES,
            },
        ),
        contour_vertex_demand(*partition) > usize::MAX ==> result == Err::<PartModel, MeshError>(
            MeshError::ArithmeticOverflow,
        ),
{
    let backing = options.backing_thickness_micrometers();
    let total = options.total_thickness_micrometers();
    let upper_height = total - backing;
    let stats = collect_model_stats(partition)?;
    proof {
        assert(contour_vertex_demand(*partition) <= MAX_INPUT_CONTOUR_VERTICES);
    }
    let bridged = stats.bridged_input_vertices()?;
    let footprint_ring = segmented_footprint(partition, bridged)?;
    preflight_mesh(&stats, footprint_ring.len())?;
    let mut work = WorkBudget::new();
    let no_holes: Vec<Ring> = Vec::new();
    let footprint = partition.footprint();
    let footprint_triangles = triangulate_rings(
        footprint_ring.as_slice(),
        no_holes.as_slice(),
        footprint.double_area(),
        &mut work,
    )?;
    proof {
        assert(ring_views(no_holes@) =~= Seq::<Seq<PointMicrometers>>::empty());
    }
    let substrate_polygons = partition.substrate_upper().polygons();
    let fill_polygons = partition.fill_parts();
    let mut substrate_caps: Vec<Vec<[PointMicrometers; 3]>> = Vec::new();
    let mut p: usize = 0;
    while p < substrate_polygons.len()
        invariant
            contour_vertex_demand(*partition) <= MAX_INPUT_CONTOUR_VERTICES,
            forall|i: int| 0 <= i < substrate_polygons@.len() ==> (#[trigger] substrate_polygons@[i]).wf(),
            0 <= p <= substrate_polygons@.len(),
            substrate_caps@.len() == p,
            forall|i: int| 0 <= i < substrate_caps@.len() ==> forall|j: int| 0 <= j < (#[trigger] substrate_caps@[i])@.len()
                ==> crate::mesh::exact::triangle_in_range(substrate_caps@[i]@[j]),
            forall|i: int|
                0 <= i < substrate_caps@.len() ==> positively_oriented((#[trigger] substrate_caps@[i])@)
                    && triangulation_fits(
                    substrate_polygons@[i].spec_exterior().spec_vertices(),
                    ring_views(substrate_polygons@[i].spec_holes()),
                    substrate_caps@[i]@,
                ),
        decreases substrate_polygons@.len() - p,
    {
        let caps = triangulate_polygon(&substrate_polygons[p], &mut work)?;
        let ghost caps_before = substrate_caps@;
        substrate_caps.push(caps);
        proof {
            assert forall|i: int| 0 <= i < substrate_caps@.len() implies positively_oriented(
                (#[trigger] substrate_caps@[i])@,
            ) && triangulation_fits(
                substrate_polygons@[i].spec_exterior().spec_vertices(),
                ring_views(substrate_polygons@[i].spec_holes()),
                substrate_caps@[i]@,
            ) by {
                if i < p {
                    assert(substrate_caps@[i] == caps_before[i]);
                }
            }
            assert forall|i: int| 0 <= i < substrate_caps@.len() implies forall|j: int| 0 <= j < (#[trigger] substrate_caps@[i])@.len()
                ==> crate::mesh::exact::triangle_in_range(substrate_caps@[i]@[j]) by {
                if i < p {
                    assert(substrate_caps@[i] == substrate_caps@.drop_last()[i]);
                }
            }
        }
        p += 1;
    }
    let mut fill_caps: Vec<Vec<[PointMicrometers; 3]>> = Vec::new();
    let mut p: usize = 0;
    while p < fill_polygons.len()
        invariant
            contour_vertex_demand(*partition) <= MAX_INPUT_CONTOUR_VERTICES,
            forall|i: int| 0 <= i < fill_polygons@.len() ==> (#[trigger] fill_polygons@[i]).wf(),
            0 <= p <= fill_polygons@.len(),
            fill_caps@.len() == p,
            forall|i: int| 0 <= i < fill_caps@.len() ==> forall|j: int| 0 <= j < (#[trigger] fill_caps@[i])@.len()
                ==> crate::mesh::exact::triangle_in_range(fill_caps@[i]@[j]),
            forall|i: int|
                0 <= i < fill_caps@.len() ==> positively_oriented((#[trigger] fill_caps@[i])@) && triangulation_fits(
                    fill_polygons@[i].spec_exterior().spec_vertices(),
                    ring_views(fill_polygons@[i].spec_holes()),
                    fill_caps@[i]@,
                ),
        decreases fill_polygons@.len() - p,
    {
        let caps = triangulate_polygon(&fill_polygons[p], &mut work)?;
        let ghost caps_before = fill_caps@;
        fill_caps.push(caps);
        proof {
            assert forall|i: int| 0 <= i < fill_caps@.len() implies positively_oriented((#[trigger] fill_caps@[i])@)
                && triangulation_fits(
                fill_polygons@[i].spec_exterior().spec_vertices(),
                ring_views(fill_polygons@[i].spec_holes()),
                fill_caps@[i]@,
            ) by {
                if i < p {
                    assert(fill_caps@[i] == caps_before[i]);
                }
            }
            assert forall|i: int| 0 <= i < fill_caps@.len() implies forall|j: int| 0 <= j < (#[trigger] fill_caps@[i])@.len()
                ==> crate::mesh::exact::triangle_in_range(fill_caps@[i]@[j]) by {
                if i < p {
                    assert(fill_caps@[i] == fill_caps@.drop_last()[i]);
                }
            }
        }
        p += 1;
    }
    let substrate_expected = substrate_expected_volume(partition, backing, upper_height)?;
    let mut substrate = MeshBuilder::new();
    proof {
        assert(substrate.spec_faces() =~= Seq::empty());
    }
    substrate.add_cap(footprint_triangles.as_slice(), 0, false)?;
    substrate.add_ring_walls(footprint_ring.as_slice(), 0, backing)?;
    let ghost base = cap_faces(footprint_triangles@, 0, false) + ring_wall_faces(
        footprint_ring@,
        footprint_ring@.len() as int,
        0,
        backing,
    );
    proof {
        assert(substrate.spec_faces() =~= base);
        assert(base + shelf_faces(caps_views(fill_caps@), 0, backing) =~= base);
    }
    let mut p: usize = 0;
    while p < fill_caps.len()
        invariant
            substrate.spec_faces() == base + shelf_faces(caps_views(fill_caps@), p as int, backing),
            contour_vertex_demand(*partition) <= MAX_INPUT_CONTOUR_VERTICES,
            substrate.wf(),
            heights_within(substrate.spec_vertices(), 0, total as int),
            0 < backing < total <= crate::mesh::MAX_MESH_HEIGHT_MICROMETERS,
            0 <= p <= fill_caps@.len(),
            forall|i: int| 0 <= i < fill_caps@.len() ==> forall|j: int| 0 <= j < (#[trigger] fill_caps@[i])@.len()
                ==> crate::mesh::exact::triangle_in_range(fill_caps@[i]@[j]),
        decreases fill_caps@.len() - p,
    {
        proof {
            assert(forall|j: int| 0 <= j < fill_caps@[p as int]@.len() ==> crate::mesh::exact::triangle_in_range(fill_caps@[p as int]@[j]));
        }
        let ghost faces_before = substrate.spec_faces();
        substrate.add_cap(fill_caps[p].as_slice(), backing, true)?;
        proof {
            assert(caps_views(fill_caps@)[p as int] == fill_caps@[p as int]@);
            assert(shelf_faces(caps_views(fill_caps@), p + 1, backing) == shelf_faces(caps_views(fill_caps@), p as int, backing)
                + cap_faces(fill_caps@[p as int]@, backing, true));
            assert(substrate.spec_faces() =~= base + shelf_faces(caps_views(fill_caps@), p + 1, backing));
        }
        p += 1;
    }
    let ghost shelved = base + shelf_faces(caps_views(fill_caps@), fill_caps@.len() as int, backing);
    proof {
        assert(shelved + raised_faces(caps_views(substrate_caps@), substrate_polygons@, 0, backing, total) =~= shelved);
    }
    let mut p: usize = 0;
    while p < substrate_polygons.len()
        invariant
            substrate.spec_faces() == shelved + raised_faces(
                caps_views(substrate_caps@),
                substrate_polygons@,
                p as int,
                backing,
                total,
            ),
            contour_vertex_demand(*partition) <= MAX_INPUT_CONTOUR_VERTICES,
            substrate.wf(),
            heights_within(substrate.spec_vertices(), 0, total as int),
            0 < backing < total <= crate::mesh::MAX_MESH_HEIGHT_MICROMETERS,
            substrate_caps@.len() == substrate_polygons@.len(),
            forall|i: int| 0 <= i < substrate_polygons@.len() ==> (#[trigger] substrate_polygons@[i]).wf(),
            0 <= p <= substrate_polygons@.len(),
            forall|i: int| 0 <= i < substrate_caps@.len() ==> forall|j: int| 0 <= j < (#[trigger] substrate_caps@[i])@.len()
                ==> crate::mesh::exact::triangle_in_range(substrate_caps@[i]@[j]),
        decreases substrate_polygons@.len() - p,
    {
        proof {
            assert(forall|j: int| 0 <= j < substrate_caps@[p as int]@.len() ==> crate::mesh::exact::triangle_in_range(substrate_caps@[p as int]@[j]));
            assert(substrate_polygons@[p as int].wf());
        }
        substrate.add_cap(substrate_caps[p].as_slice(), total, true)?;
        substrate.add_polygon_walls(&substrate_polygons[p], backing, total)?;
        proof {
            assert(caps_views(substrate_caps@)[p as int] == substrate_caps@[p as int]@);
            assert(substrate.spec_faces() =~= shelved + raised_faces(
                caps_views(substrate_caps@),
                substrate_polygons@,
                p + 1,
                backing,
                total,
            ));
        }
        p += 1;
    }
    let ghost substrate_vertices = substrate.spec_vertices();
    let ghost substrate_built = substrate.spec_faces();
    let substrate = substrate.finish(MeshPart::Substrate, substrate_expected)?;
    proof {
        let fill_views = caps_views(fill_caps@);
        let substrate_views = caps_views(substrate_caps@);
        assert(substrate_built =~= substrate_faces(
            footprint_triangles@,
            footprint_ring@,
            fill_views,
            substrate_views,
            partition.spec_substrate_upper().spec_polygons(),
            backing,
            total,
        ));
        assert(caps_fit(fill_views, partition.spec_fill_parts())) by {
            assert forall|i: int| 0 <= i < fill_views.len() implies positively_oriented(#[trigger] fill_views[i])
                && triangulation_fits(
                partition.spec_fill_parts()[i].spec_exterior().spec_vertices(),
                ring_views(partition.spec_fill_parts()[i].spec_holes()),
                fill_views[i],
            ) by {
                assert(fill_views[i] == fill_caps@[i]@);
            }
        }
        assert(caps_fit(substrate_views, partition.spec_substrate_upper().spec_polygons())) by {
            assert forall|i: int| 0 <= i < substrate_views.len() implies positively_oriented(#[trigger] substrate_views[i])
                && triangulation_fits(
                partition.spec_substrate_upper().spec_polygons()[i].spec_exterior().spec_vertices(),
                ring_views(partition.spec_substrate_upper().spec_polygons()[i].spec_holes()),
                substrate_views[i],
            ) by {
                assert(substrate_views[i] == substrate_caps@[i]@);
            }
        }
        assert(substrate_mesh_of(substrate, *partition, backing, total));
        use_type_invariant(&substrate);
        assert(heights_within(substrate_vertices, 0, total as int));
        assert(heights_within(substrate.spec_vertices(), 0, total as int));
    }
    let mut fill_parts: Vec<TriangleMesh> = Vec::new();
    let mut index: usize = 0;
    while index < fill_polygons.len()
        invariant
            contour_vertex_demand(*partition) <= MAX_INPUT_CONTOUR_VERTICES,
            0 < backing < total <= crate::mesh::MAX_MESH_HEIGHT_MICROMETERS,
            upper_height == total - backing,
            fill_caps@.len() == fill_polygons@.len(),
            forall|i: int| 0 <= i < fill_polygons@.len() ==> (#[trigger] fill_polygons@[i]).wf(),
            fill_polygons@ == partition.spec_fill_parts(),
            0 <= index <= fill_polygons@.len(),
            fill_parts@.len() == index,
            forall|i: int| 0 <= i < fill_caps@.len() ==> forall|j: int| 0 <= j < (#[trigger] fill_caps@[i])@.len()
                ==> crate::mesh::exact::triangle_in_range(fill_caps@[i]@[j]),
            forall|i: int|
                0 <= i < fill_parts@.len() ==> (#[trigger] fill_parts@[i]).spec_signed_six_volume()
                    == spec_scaled_volume(partition.spec_fill_parts()[i].spec_area(), upper_height as int),
            forall|i: int| 0 <= i < fill_parts@.len() ==> closed_surface((#[trigger] fill_parts@[i]).spec_triangles()),
            forall|i: int| 0 <= i < fill_parts@.len() ==> (#[trigger] fill_parts@[i]).wf(),
            substrate.wf(),
            heights_within(substrate.spec_vertices(), 0, total as int),
            forall|i: int|
                0 <= i < fill_parts@.len() ==> heights_within(
                    (#[trigger] fill_parts@[i]).spec_vertices(),
                    backing as int,
                    total as int,
                ),
            forall|i: int|
                0 <= i < fill_caps@.len() ==> positively_oriented((#[trigger] fill_caps@[i])@) && triangulation_fits(
                    fill_polygons@[i].spec_exterior().spec_vertices(),
                    ring_views(fill_polygons@[i].spec_holes()),
                    fill_caps@[i]@,
                ),
            backing == options.spec_backing(),
            total == options.spec_total(),
            forall|i: int|
                0 <= i < fill_parts@.len() ==> prism_mesh_of(
                    #[trigger] fill_parts@[i],
                    partition.spec_fill_parts()[i],
                    options.spec_backing(),
                    options.spec_total(),
                ),
        decreases fill_polygons@.len() - index,
    {
        let polygon = &fill_polygons[index];
        proof {
            assert(polygon.wf());
            assert(forall|j: int| 0 <= j < fill_caps@[index as int]@.len() ==> crate::mesh::exact::triangle_in_range(fill_caps@[index as int]@[j]));
        }
        let expected = scaled_volume(polygon.double_area(), upper_height)?;
        let mut builder = MeshBuilder::new();
        proof {
            assert(builder.spec_faces() =~= Seq::empty());
        }
        builder.add_cap(fill_caps[index].as_slice(), backing, false)?;
        builder.add_cap(fill_caps[index].as_slice(), total, true)?;
        builder.add_polygon_walls(polygon, backing, total)?;
        let ghost builder_vertices = builder.spec_vertices();
        let ghost builder_faces = builder.spec_faces();
        let ghost caps = fill_caps@[index as int]@;
        proof {
            assert(builder_faces =~= prism_faces(caps, *polygon, backing, total));
        }
        let mesh = builder.finish(MeshPart::Fill(index), expected)?;
        proof {
            assert(prism_mesh_of(mesh, partition.spec_fill_parts()[index as int], backing, total)) by {
                assert(mesh_arranges(mesh, prism_faces(caps, *polygon, backing, total)));
            }
            use_type_invariant(&mesh);
            assert(heights_within(builder_vertices, backing as int, total as int));
            assert(heights_within(mesh.spec_vertices(), backing as int, total as int));
        }
        fill_parts.push(mesh);
        proof {
            assert forall|i: int|
                0 <= i < fill_parts@.len() implies (#[trigger] fill_parts@[i]).spec_signed_six_volume()
                    == spec_scaled_volume(partition.spec_fill_parts()[i].spec_area(), upper_height as int)
                    && closed_surface(fill_parts@[i].spec_triangles()) && fill_parts@[i].wf() && heights_within(
                    fill_parts@[i].spec_vertices(),
                    backing as int,
                    total as int,
                ) && prism_mesh_of(fill_parts@[i], partition.spec_fill_parts()[i], backing, total) by {
                if i < index {
                    assert(fill_parts@[i] == fill_parts@.drop_last()[i]);
                }
            }
        }
        index += 1;
    }
    let mut actual_combined = substrate.signed_six_volume();
    let mut k: usize = 0;
    while k < fill_parts.len()
        invariant
            contour_vertex_demand(*partition) <= MAX_INPUT_CONTOUR_VERTICES,
            0 <= k <= fill_parts@.len(),
            actual_combined == substrate.spec_signed_six_volume() + meshes_volume(fill_parts@, k as int),
            forall|i: int| 0 <= i < fill_parts@.len() ==> (#[trigger] fill_parts@[i]).wf(),
            substrate.wf(),
            heights_within(substrate.spec_vertices(), 0, total as int),
            forall|i: int|
                0 <= i < fill_parts@.len() ==> heights_within(
                    (#[trigger] fill_parts@[i]).spec_vertices(),
                    backing as int,
                    total as int,
                ),
        decreases fill_parts@.len() - k,
    {
        actual_combined = match actual_combined.checked_add(fill_parts[k].signed_six_volume()) {
            Some(sum) => sum,
            None => {
                return Err(MeshError::ArithmeticOverflow);
            },
        };
        k += 1;
    }
    let expected_combined = scaled_volume(footprint.double_area(), total)?;
    if actual_combined != expected_combined {
        return Err(MeshError::CombinedVolumeMismatch { expected: expected_combined, actual: actual_combined });
    }
    Ok(PartModel::from_validated(substrate, fill_parts))
}

} // verus!
