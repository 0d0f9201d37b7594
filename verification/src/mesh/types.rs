//! Fixed-point mesh and part-model types.

use vstd::prelude::*;

use crate::mesh::MAX_MESH_HEIGHT_MICROMETERS;
use crate::order::{triple_le, LexOrder};

verus! {

/// Validated vertical dimensions for 2.5D construction.
#[derive(Debug, Clone, Copy, PartialEq, Eq, Structural)]
pub struct MeshOptions {
    backing_thickness_micrometers: i64,
    total_thickness_micrometers: i64,
}

impl MeshOptions {
    /// The continuous backing thickness.
    pub closed spec fn spec_backing(self) -> i64 {
        self.backing_thickness_micrometers
    }

    /// The finished part thickness.
    pub closed spec fn spec_total(self) -> i64 {
        self.total_thickness_micrometers
    }

    /// The backing is positive, thinner than the part, and the part is within range.
    #[verifier::type_invariant]
    pub open spec fn wf(self) -> bool {
        &&& 0 < self.spec_backing()
        &&& self.spec_backing() < self.spec_total()
        &&& self.spec_total() <= MAX_MESH_HEIGHT_MICROMETERS
    }

    /// Creates mesh settings expressed in integer micrometres.
    pub fn new(backing_thickness_micrometers: i64, total_thickness_micrometers: i64) -> (result:
        Result<Self, MeshError>)
        ensures
            backing_thickness_micrometers <= 0 ==> result == Err::<Self, MeshError>(
                MeshError::NonPositiveBackingThickness,
            ),
            backing_thickness_micrometers > 0 && total_thickness_micrometers <= 0 ==> result == Err::<
                Self,
                MeshError,
            >(MeshError::NonPositiveTotalThickness),
            backing_thickness_micrometers > 0 && total_thickness_micrometers > 0
                && total_thickness_micrometers <= backing_thickness_micrometers ==> result == Err::<
                Self,
                MeshError,
            >(MeshError::TotalThicknessNotGreaterThanBacking),
            0 < backing_thickness_micrometers < total_thickness_micrometers
                && total_thickness_micrometers > MAX_MESH_HEIGHT_MICROMETERS ==> result == Err::<
                Self,
                MeshError,
            >(
                MeshError::ThicknessTooLarge {
                    total: total_thickness_micrometers,
                    max: MAX_MESH_HEIGHT_MICROMETERS,
                },
            ),
            0 < backing_thickness_micrometers < total_thickness_micrometers
                <= MAX_MESH_HEIGHT_MICROMETERS ==> (result matches Ok(options)
                && options.spec_backing() == backing_thickness_micrometers && options.spec_total()
                == total_thickness_micrometers),
    {
        if backing_thickness_micrometers <= 0 {
            return Err(MeshError::NonPositiveBackingThickness);
        }
        if total_thickness_micrometers <= 0 {
            return Err(MeshError::NonPositiveTotalThickness);
        }
        if total_thickness_micrometers <= backing_thickness_micrometers {
            return Err(MeshError::TotalThicknessNotGreaterThanBacking);
        }
        if total_thickness_micrometers > MAX_MESH_HEIGHT_MICROMETERS {
            return Err(
                MeshError::ThicknessTooLarge {
                    total: total_thickness_micrometers,
                    max: MAX_MESH_HEIGHT_MICROMETERS,
                },
            );
        }
        Ok(Self { backing_thickness_micrometers, total_thickness_micrometers })
    }

    /// Returns the continuous backing thickness.
    pub fn backing_thickness_micrometers(self) -> (backing: i64)
        ensures
            backing == self.spec_backing(),
            0 < backing < self.spec_total() <= MAX_MESH_HEIGHT_MICROMETERS,
    {
        proof {
            use_type_invariant(&self);
        }
        self.backing_thickness_micrometers
    }

    /// Returns the finished part thickness.
    pub fn total_thickness_micrometers(self) -> (total: i64)
        ensures
            total == self.spec_total(),
            0 < self.spec_backing() < total <= MAX_MESH_HEIGHT_MICROMETERS,
    {
        proof {
            use_type_invariant(&self);
        }
        self.total_thickness_micrometers
    }
}

/// One exact 3D vertex in integer micrometres.
#[derive(Debug, Clone, Copy, PartialEq, Eq, Structural, PartialOrd, Ord, Hash)]
pub struct VertexMicrometers {
    x: i64,
    y: i64,
    z: i64,
}

impl VertexMicrometers {
    /// The X coordinate.
    pub closed spec fn spec_x(self) -> i64 {
        self.x
    }

    /// The Y coordinate.
    pub closed spec fn spec_y(self) -> i64 {
        self.y
    }

    /// The Z coordinate.
    pub closed spec fn spec_z(self) -> i64 {
        self.z
    }

    /// Equal coordinates make equal vertices.
    pub proof fn lemma_coordinates_determine(a: Self, b: Self)
        requires
            a.spec_x() == b.spec_x(),
            a.spec_y() == b.spec_y(),
            a.spec_z() == b.spec_z(),
        ensures
            a == b,
    {
    }

    /// The vertex with the given coordinates.
    pub closed spec fn spec_new(x: i64, y: i64, z: i64) -> Self {
        Self { x, y, z }
    }

    /// Creates a vertex.
    pub fn new(x: i64, y: i64, z: i64) -> (vertex: Self)
        ensures
            vertex.spec_x() == x,
            vertex.spec_y() == y,
            vertex.spec_z() == z,
            vertex == Self::spec_new(x, y, z),
    {
        Self { x, y, z }
    }

    /// Returns the X coordinate.
    pub fn x(self) -> (x: i64)
        ensures
            x == self.spec_x(),
    {
        self.x
    }

    /// Returns the Y coordinate.
    pub fn y(self) -> (y: i64)
        ensures
            y == self.spec_y(),
    {
        self.y
    }

    /// Returns the Z coordinate.
    pub fn z(self) -> (z: i64)
        ensures
            z == self.spec_z(),
    {
        self.z
    }
}

/// One consistently oriented indexed triangle.
#[derive(Debug, Clone, Copy, PartialEq, Eq, PartialOrd, Ord)]
pub struct Triangle {
    indices: [u32; 3],
}

impl Triangle {
    /// The three vertex indices in winding order.
    pub closed spec fn spec_indices(self) -> [u32; 3] {
        self.indices
    }

    /// Creates a triangle from vertex indices in winding order.
    pub fn new(indices: [u32; 3]) -> (triangle: Self)
        ensures
            triangle.spec_indices() == indices,
    {
        Self { indices }
    }

    /// Returns the three vertex indices in winding order.
    pub fn indices(self) -> (indices: [u32; 3])
        ensures
            indices == self.spec_indices(),
    {
        self.indices
    }
}

/// The triangle's indices as an integer triple, ordered lexicographically.
pub open spec fn triangle_key(triangle: Triangle) -> (int, int, int) {
    (
        triangle.spec_indices()[0] as int,
        triangle.spec_indices()[1] as int,
        triangle.spec_indices()[2] as int,
    )
}

impl LexOrder for Triangle {
    open spec fn ordered_le(self, other: Self) -> bool {
        triple_le(triangle_key(self), triangle_key(other))
    }

    proof fn lemma_le_total(a: Self, b: Self) {
    }

    proof fn lemma_le_transitive(a: Self, b: Self, c: Self) {
    }

    fn le(&self, other: &Self) -> (result: bool) {
        let a = self.indices();
        let b = other.indices();
        a[0] < b[0] || (a[0] == b[0] && (a[1] < b[1] || (a[1] == b[1] && a[2] <= b[2])))
    }
}

/// The vertex as an integer triple, ordered lexicographically.
pub open spec fn vertex_key(vertex: VertexMicrometers) -> (int, int, int) {
    (vertex.spec_x() as int, vertex.spec_y() as int, vertex.spec_z() as int)
}

/// One validated, closed, consistently oriented triangle mesh.
#[derive(Debug, PartialEq, Eq)]
pub struct TriangleMesh {
    vertices: Vec<VertexMicrometers>,
    triangles: Vec<Triangle>,
    signed_six_volume: i128,
}

impl TriangleMesh {
    /// The canonical vertices.
    pub closed spec fn spec_vertices(&self) -> Seq<VertexMicrometers> {
        self.vertices@
    }

    /// The canonical triangles.
    pub closed spec fn spec_triangles(&self) -> Seq<Triangle> {
        self.triangles@
    }

    /// Six times the signed enclosed volume.
    pub closed spec fn spec_signed_six_volume(&self) -> i128 {
        self.signed_six_volume
    }

    /// At least one triangle, every index names a vertex, every edge is used
    /// once in each direction, the recorded volume is the one the triangles
    /// enclose, the vertices are strictly increasing and each is used, and
    /// the triangles are sorted, have distinct vertex sets, form one shell
    /// joined across shared edges, and are each nondegenerate and start at
    /// their smallest index.
    #[verifier::type_invariant]
    pub open spec fn wf(&self) -> bool {
        &&& self.spec_triangles().len() > 0
        &&& crate::mesh::construct::vertices_increasing(self.spec_vertices())
        &&& crate::mesh::construct::vertices_referenced(self.spec_triangles(), self.spec_vertices().len() as int)
        &&& crate::mesh::construct::faces_nondegenerate(self.spec_vertices(), self.spec_triangles())
        &&& crate::mesh::construct::faces_start_at_least(self.spec_triangles())
        &&& crate::mesh::construct::faces_distinct(self.spec_triangles())
        &&& crate::order::sorted(self.spec_triangles())
        &&& crate::mesh::construct::one_shell(self.spec_triangles())
        &&& crate::mesh::construct::indices_valid(self.spec_triangles(), self.spec_vertices().len() as int)
        &&& crate::mesh::construct::closed_surface(self.spec_triangles())
        &&& self.spec_signed_six_volume() == crate::mesh::construct::mesh_volume(
            self.spec_vertices(),
            self.spec_triangles(),
            self.spec_triangles().len() as int,
        )
    }

    /// Records a mesh whose closure, orientation and volume have been checked.
    pub fn from_validated(
        vertices: Vec<VertexMicrometers>,
        triangles: Vec<Triangle>,
        signed_six_volume: i128,
    ) -> (mesh: Self)
        requires
            triangles@.len() > 0,
            crate::mesh::construct::vertices_increasing(vertices@),
            crate::mesh::construct::vertices_referenced(triangles@, vertices@.len() as int),
            crate::mesh::construct::faces_nondegenerate(vertices@, triangles@),
            crate::mesh::construct::faces_start_at_least(triangles@),
            crate::mesh::construct::faces_distinct(triangles@),
            crate::order::sorted(triangles@),
            crate::mesh::construct::one_shell(triangles@),
            crate::mesh::construct::indices_valid(triangles@, vertices@.len() as int),
            crate::mesh::construct::closed_surface(triangles@),
            signed_six_volume == crate::mesh::construct::mesh_volume(vertices@, triangles@, triangles@.len() as int),
        ensures
            mesh.spec_vertices() == vertices@,
            mesh.spec_triangles() == triangles@,
            mesh.spec_signed_six_volume() == signed_six_volume,
    {
        Self { vertices, triangles, signed_six_volume }
    }

    /// Returns canonical lexicographically ordered vertices.
    pub fn vertices(&self) -> (vertices: &[VertexMicrometers])
        ensures
            vertices@ == self.spec_vertices(),
    {
        self.vertices.as_slice()
    }

    /// Returns canonical oriented triangles.
    pub fn triangles(&self) -> (triangles: &[Triangle])
        ensures
            triangles@ == self.spec_triangles(),
    {
        self.triangles.as_slice()
    }

    /// Returns six times the exact signed volume in cubic micrometres.
    pub fn signed_six_volume(&self) -> (volume: i128)
        ensures
            volume == self.spec_signed_six_volume(),
    {
        self.signed_six_volume
    }
}

/// Separately selectable substrate and fill meshes.
#[derive(Debug, PartialEq, Eq)]
pub struct PartModel {
    substrate: TriangleMesh,
    fill_parts: Vec<TriangleMesh>,
}

impl PartModel {
    /// The substrate mesh.
    pub closed spec fn spec_substrate(&self) -> &TriangleMesh {
        &self.substrate
    }

    /// The fill meshes.
    pub closed spec fn spec_fill_parts(&self) -> Seq<TriangleMesh> {
        self.fill_parts@
    }

    /// Records separately validated substrate and fill meshes.
    pub fn from_validated(substrate: TriangleMesh, fill_parts: Vec<TriangleMesh>) -> (model: Self)
        ensures
            *model.spec_substrate() == substrate,
            model.spec_fill_parts() == fill_parts@,
    {
        Self { substrate, fill_parts }
    }

    /// Returns the single backing, border, and foreground mesh.
    pub fn substrate(&self) -> (substrate: &TriangleMesh)
        ensures
            *substrate == *self.spec_substrate(),
    {
        &self.substrate
    }

    /// Returns fill meshes in the planar partition's canonical component order.
    pub fn fill_parts(&self) -> (fill_parts: &[TriangleMesh])
        ensures
            fill_parts@ == self.spec_fill_parts(),
    {
        self.fill_parts.as_slice()
    }
}

/// Identifies a leaf mesh when reporting an invariant failure.
#[derive(Debug, Clone, Copy, PartialEq, Eq, Structural)]
pub enum MeshPart {
    /// The continuous backing and raised substrate.
    Substrate,
    /// A zero-based fill component.
    Fill(usize),
}

/// A failure while converting a planar partition into exact triangle meshes.
#[derive(Debug, Clone, PartialEq, Eq)]
#[non_exhaustive]
pub enum MeshError {
    /// Backing thickness must be positive.
    NonPositiveBackingThickness,
    /// Total thickness must be positive.
    NonPositiveTotalThickness,
    /// Total thickness must exceed the backing thickness.
    TotalThicknessNotGreaterThanBacking,
    /// Total thickness exceeds the supported range.
    ThicknessTooLarge { total: i64, max: i64 },
    /// The bridged contours exceed the input limit.
    TooManyInputContourVertices { required: usize, max: usize },
    /// The mesh would exceed its vertex limit.
    TooManyMeshVertices { required: usize, max: usize },
    /// The mesh would exceed its triangle limit.
    TooManyMeshTriangles { required: usize, max: usize },
    /// Cap triangulation would exceed its deterministic work limit.
    TriangulationWorkLimitExceeded { required: u128, max: u128 },
    /// A cap could not be triangulated exactly.
    TriangulationFailed(&'static str),
    /// A vertex index does not fit in `u32`.
    TriangleIndexOverflow,
    /// A triangle references a missing vertex.
    InvalidTriangleIndex { part: MeshPart, triangle: usize, index: u32, vertex_count: usize },
    /// A triangle has repeated or collinear corners.
    DegenerateTriangle { part: MeshPart, triangle: usize },
    /// Two triangles have the same corners.
    DuplicateTriangle { part: MeshPart, triangle: usize },
    /// A vertex belongs to no triangle.
    UnreferencedVertex { part: MeshPart, vertex: u32 },
    /// An edge is not shared by exactly two oppositely oriented triangles.
    NonManifoldEdge { part: MeshPart, first: u32, second: u32, uses: u32, balance: i32 },
    /// A vertex's triangles do not form one fan.
    NonManifoldVertex { part: MeshPart, vertex: u32 },
    /// The triangles form more than one shell.
    DisconnectedMesh { part: MeshPart },
    /// A mesh encloses a volume other than the expected one.
    VolumeMismatch { part: MeshPart, expected: i128, actual: i128 },
    /// All meshes together enclose a volume other than the expected one.
    CombinedVolumeMismatch { expected: i128, actual: i128 },
    /// Checked fixed-point arithmetic overflowed.
    ArithmeticOverflow,
}

} // verus!
