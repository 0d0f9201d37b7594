//! The Core 3MF model part: named substrate and fill meshes, one assembly that
//! references them all, and one build item.

use vstd::prelude::*;
use vstd::string::StringSliceAdditionalSpecFns;

use crate::export::text::{
    decimal_text, millimeter_text, padded_decimal_text, push_decimal,
    push_padded4, push_str, write_millimeters,
};
use crate::mesh::{PartModel, Triangle, TriangleMesh, VertexMicrometers};

verus! {

/// The UTF-8 bytes of a text fragment.
pub open spec fn bytes_of(text: &str) -> Seq<u8> {
    text.spec_bytes()
}

/// One `<vertex>` element with exact millimetre coordinates.
pub open spec fn vertex_xml(vertex: VertexMicrometers) -> Seq<u8> {
    bytes_of("          <vertex x=\"") + millimeter_text(vertex.spec_x() as int) + bytes_of(
        "\" y=\"",
    ) + millimeter_text(vertex.spec_y() as int) + bytes_of("\" z=\"") + millimeter_text(
        vertex.spec_z() as int,
    ) + bytes_of("\" />\n")
}

/// The `<vertex>` elements of `vertices`, in order.
pub open spec fn vertices_xml(vertices: Seq<VertexMicrometers>) -> Seq<u8>
    decreases vertices.len(),
{
    if vertices.len() == 0 {
        Seq::empty()
    } else {
        vertices_xml(vertices.drop_last()) + vertex_xml(vertices.last())
    }
}

/// One `<triangle>` element with its three vertex indices.
pub open spec fn triangle_xml(triangle: Triangle) -> Seq<u8> {
    bytes_of("          <triangle v1=\"") + decimal_text(triangle.spec_indices()[0] as nat)
        + bytes_of("\" v2=\"") + decimal_text(triangle.spec_indices()[1] as nat) + bytes_of(
        "\" v3=\"",
    ) + decimal_text(triangle.spec_indices()[2] as nat) + bytes_of("\" />\n")
}

/// The `<triangle>` elements of `triangles`, in order.
pub open spec fn triangles_xml(triangles: Seq<Triangle>) -> Seq<u8>
    decreases triangles.len(),
{
    if triangles.len() == 0 {
        Seq::empty()
    } else {
        triangles_xml(triangles.drop_last()) + triangle_xml(triangles.last())
    }
}

/// One `<mesh>` element: every vertex, then every triangle.
pub open spec fn mesh_xml(mesh: TriangleMesh) -> Seq<u8> {
    bytes_of("      <mesh>\n") + bytes_of("        <vertices>\n") + vertices_xml(mesh.spec_vertices())
        + bytes_of("        </vertices>\n") + bytes_of("        <triangles>\n") + triangles_xml(
        mesh.spec_triangles(),
    ) + bytes_of("        </triangles>\n") + bytes_of("      </mesh>\n")
}

/// The object for the fill at `index`: resource ID `index + 2`, named
/// `fill-` and its one-based number padded to four digits.
pub open spec fn fill_object_xml(index: nat, mesh: TriangleMesh) -> Seq<u8> {
    bytes_of("    <object id=\"") + decimal_text(index + 2) + bytes_of(
        "\" type=\"model\" name=\"fill-",
    ) + padded_decimal_text(index + 1, 4) + bytes_of("\">\n") + mesh_xml(mesh) + bytes_of(
        "    </object>\n",
    )
}

/// The objects of all fills, in order.
pub open spec fn fills_xml(fills: Seq<TriangleMesh>) -> Seq<u8>
    decreases fills.len(),
{
    if fills.len() == 0 {
        Seq::empty()
    } else {
        fills_xml(fills.drop_last()) + fill_object_xml((fills.len() - 1) as nat, fills.last())
    }
}

/// The assembly's references to the first `count` fill objects.
pub open spec fn fill_components_xml(count: nat) -> Seq<u8>
    decreases count,
{
    if count == 0 {
        Seq::empty()
    } else {
        fill_components_xml((count - 1) as nat) + bytes_of("        <component objectid=\"")
            + decimal_text((count - 1 + 2) as nat) + bytes_of("\" />\n")
    }
}

/// The declaration, the model root, and the substrate object (resource ID 1).
pub open spec fn model_head_xml(substrate: TriangleMesh) -> Seq<u8> {
    bytes_of("<?xml version=\"1.0\" encoding=\"UTF-8\"?>\n") + bytes_of(
        "<model unit=\"millimeter\" xml:lang=\"en-US\" xmlns=\"http://schemas.microsoft.com/3dmanufacturing/core/2015/02\">\n  <resources>\n",
    ) + bytes_of("    <object id=\"1\" type=\"model\" name=\"substrate\">\n") + mesh_xml(substrate)
        + bytes_of("    </object>\n")
}

/// The assembly object referencing the substrate and `fill_count` fills.
pub open spec fn assembly_xml(assembly_id: nat, fill_count: nat) -> Seq<u8> {
    bytes_of("    <object id=\"") + decimal_text(assembly_id) + bytes_of(
        "\" type=\"model\" name=\"plaque3mf-assembly\">\n",
    ) + bytes_of("      <components>\n") + bytes_of("        <component objectid=\"1\" />\n")
        + fill_components_xml(fill_count) + bytes_of("      </components>\n") + bytes_of(
        "    </object>\n",
    )
}

/// The end of the resources and the build item that places the assembly.
pub open spec fn build_xml(assembly_id: nat) -> Seq<u8> {
    bytes_of("  </resources>\n") + bytes_of("  <build>\n") + bytes_of("    <item objectid=\"")
        + decimal_text(assembly_id) + bytes_of("\" />\n") + bytes_of("  </build>\n") + bytes_of(
        "</model>\n",
    )
}

/// The assembly object and the build item.
pub open spec fn model_tail_xml(assembly_id: nat, fill_count: nat) -> Seq<u8> {
    assembly_xml(assembly_id, fill_count) + build_xml(assembly_id)
}

/// The complete model part.
pub open spec fn model_xml(model: PartModel, assembly_id: nat) -> Seq<u8> {
    model_head_xml(*model.spec_substrate()) + fills_xml(model.spec_fill_parts()) + model_tail_xml(
        assembly_id,
        model.spec_fill_parts().len(),
    )
}

/// Appends one `<vertex>` element.
fn write_vertex_xml(out: &mut Vec<u8>, vertex: VertexMicrometers)
    ensures
        final(out)@ == old(out)@ + vertex_xml(vertex),
{
    let ghost start = out@;
    push_str(out, "          <vertex x=\"");
    write_millimeters(out, vertex.x());
    push_str(out, "\" y=\"");
    write_millimeters(out, vertex.y());
    push_str(out, "\" z=\"");
    write_millimeters(out, vertex.z());
    push_str(out, "\" />\n");
    proof {
        assert(out@ =~= start + vertex_xml(vertex));
    }
}

/// Appends one `<triangle>` element.
fn write_triangle_xml(out: &mut Vec<u8>, triangle: Triangle)
    ensures
        final(out)@ == old(out)@ + triangle_xml(triangle),
{
    let ghost start = out@;
    let indices = triangle.indices();
    push_str(out, "          <triangle v1=\"");
    push_decimal(out, indices[0] as u64);
    push_str(out, "\" v2=\"");
    push_decimal(out, indices[1] as u64);
    push_str(out, "\" v3=\"");
    push_decimal(out, indices[2] as u64);
    push_str(out, "\" />\n");
    proof {
        assert(out@ =~= start + triangle_xml(triangle));
    }
}

/// Appends one `<mesh>` element.
pub fn write_mesh_xml(out: &mut Vec<u8>, mesh: &TriangleMesh)
    ensures
        final(out)@ == old(out)@ + mesh_xml(*mesh),
{
    let ghost start = out@;
    push_str(out, "      <mesh>\n");
    push_str(out, "        <vertices>\n");
    let ghost before_vertices = out@;
    let vertices = mesh.vertices();
    let mut index: usize = 0;
    while index < vertices.len()
        invariant
            index <= vertices@.len(),
            vertices@ == mesh.spec_vertices(),
            out@ == before_vertices + vertices_xml(vertices@.take(index as int)),
        decreases vertices@.len() - index,
    {
        write_vertex_xml(out, vertices[index]);
        proof {
            assert(vertices@.take(index as int + 1).drop_last() =~= vertices@.take(index as int));
        }
        index = index + 1;
        proof {
            assert(out@ =~= before_vertices + vertices_xml(vertices@.take(index as int)));
        }
    }
    proof {
        assert(vertices@.take(index as int) =~= vertices@);
    }
    push_str(out, "        </vertices>\n");
    push_str(out, "        <triangles>\n");
    let ghost before_triangles = out@;
    let triangles = mesh.triangles();
    let mut index: usize = 0;
    while index < triangles.len()
        invariant
            index <= triangles@.len(),
            triangles@ == mesh.spec_triangles(),
            out@ == before_triangles + triangles_xml(triangles@.take(index as int)),
        decreases triangles@.len() - index,
    {
        write_triangle_xml(out, triangles[index]);
        proof {
            assert(triangles@.take(index as int + 1).drop_last() =~= triangles@.take(index as int));
        }
        index = index + 1;
        proof {
            assert(out@ =~= before_triangles + triangles_xml(triangles@.take(index as int)));
        }
    }
    proof {
        assert(triangles@.take(index as int) =~= triangles@);
    }
    push_str(out, "        </triangles>\n");
    push_str(out, "      </mesh>\n");
    proof {
        assert(out@ =~= start + mesh_xml(*mesh));
    }
}

/// Appends the object for the fill at `index`.
fn write_fill_object_xml(out: &mut Vec<u8>, index: usize, mesh: &TriangleMesh)
    requires
        index + 2 <= u32::MAX,
    ensures
        final(out)@ == old(out)@ + fill_object_xml(index as nat, *mesh),
{
    let ghost start = out@;
    push_str(out, "    <object id=\"");
    push_decimal(out, index as u64 + 2);
    push_str(out, "\" type=\"model\" name=\"fill-");
    push_padded4(out, index as u64 + 1);
    push_str(out, "\">\n");
    write_mesh_xml(out, mesh);
    push_str(out, "    </object>\n");
    proof {
        assert(out@ =~= start + fill_object_xml(index as nat, *mesh));
    }
}

/// Appends the declaration, the model root and the substrate object.
fn write_model_head_xml(out: &mut Vec<u8>, substrate: &TriangleMesh)
    ensures
        final(out)@ == old(out)@ + model_head_xml(*substrate),
{
    let ghost start = out@;
    push_str(out, "<?xml version=\"1.0\" encoding=\"UTF-8\"?>\n");
    push_str(
        out,
        "<model unit=\"millimeter\" xml:lang=\"en-US\" xmlns=\"http://schemas.microsoft.com/3dmanufacturing/core/2015/02\">\n  <resources>\n",
    );
    push_str(out, "    <object id=\"1\" type=\"model\" name=\"substrate\">\n");
    write_mesh_xml(out, substrate);
    push_str(out, "    </object>\n");
    proof {
        assert(out@ =~= start + model_head_xml(*substrate));
    }
}

/// Appends the objects of all fills.
fn write_fills_xml(out: &mut Vec<u8>, fills: &[TriangleMesh])
    requires
        fills@.len() + 2 <= u32::MAX,
    ensures
        final(out)@ == old(out)@ + fills_xml(fills@),
{
    let ghost start = out@;
    let mut index: usize = 0;
    while index < fills.len()
        invariant
            index <= fills@.len(),
            fills@.len() + 2 <= u32::MAX,
            out@ == start + fills_xml(fills@.take(index as int)),
        decreases fills@.len() - index,
    {
        write_fill_object_xml(out, index, &fills[index]);
        proof {
            assert(fills@.take(index as int + 1).drop_last() =~= fills@.take(index as int));
        }
        index = index + 1;
        proof {
            assert(out@ =~= start + fills_xml(fills@.take(index as int)));
        }
    }
    proof {
        assert(fills@.take(index as int) =~= fills@);
    }
}

/// Appends the assembly's references to the first `count` fill objects.
fn write_fill_components_xml(out: &mut Vec<u8>, count: usize)
    requires
        count + 2 <= u32::MAX,
    ensures
        final(out)@ == old(out)@ + fill_components_xml(count as nat),
{
    let ghost start = out@;
    let mut index: usize = 0;
    while index < count
        invariant
            index <= count,
            count + 2 <= u32::MAX,
            out@ == start + fill_components_xml(index as nat),
        decreases count - index,
    {
        push_str(out, "        <component objectid=\"");
        push_decimal(out, index as u64 + 2);
        push_str(out, "\" />\n");
        index = index + 1;
        proof {
            assert(out@ =~= start + fill_components_xml(index as nat));
        }
    }
}

/// Appends the assembly object.
fn write_assembly_xml(out: &mut Vec<u8>, assembly_id: u32, fill_count: usize)
    requires
        fill_count + 2 <= u32::MAX,
    ensures
        final(out)@ == old(out)@ + assembly_xml(assembly_id as nat, fill_count as nat),
{
    let ghost start = out@;
    push_str(out, "    <object id=\"");
    push_decimal(out, assembly_id as u64);
    push_str(out, "\" type=\"model\" name=\"plaque3mf-assembly\">\n");
    push_str(out, "      <components>\n");
    push_str(out, "        <component objectid=\"1\" />\n");
    write_fill_components_xml(out, fill_count);
    push_str(out, "      </components>\n");
    push_str(out, "    </object>\n");
    proof {
        assert(out@ =~= start + assembly_xml(assembly_id as nat, fill_count as nat));
    }
}

/// Appends the end of the resources and the build item.
fn write_build_xml(out: &mut Vec<u8>, assembly_id: u32)
    ensures
        final(out)@ == old(out)@ + build_xml(assembly_id as nat),
{
    let ghost start = out@;
    push_str(out, "  </resources>\n");
    push_str(out, "  <build>\n");
    push_str(out, "    <item objectid=\"");
    push_decimal(out, assembly_id as u64);
    push_str(out, "\" />\n");
    push_str(out, "  </build>\n");
    push_str(out, "</model>\n");
    proof {
        assert(out@ =~= start + build_xml(assembly_id as nat));
    }
}

/// Appends the complete model part for `model`, whose assembly has resource
/// ID `assembly_id`.
pub fn write_model_xml(model: &PartModel, assembly_id: u32, out: &mut Vec<u8>)
    requires
        model.spec_fill_parts().len() + 2 <= u32::MAX,
    ensures
        final(out)@ == old(out)@ + model_xml(*model, assembly_id as nat),
{
    let ghost start = out@;
    write_model_head_xml(out, model.substrate());
    let fills = model.fill_parts();
    write_fills_xml(out, fills);
    write_assembly_xml(out, assembly_id, fills.len());
    write_build_xml(out, assembly_id);
    proof {
        assert(out@ =~= start + model_xml(*model, assembly_id as nat));
    }
}

} // verus!
