//! The data of the deferred renderer's geometry pass: all meshes in one vertex
//! buffer and one index buffer, where each mesh stands in them, and the draws.
use vstd::prelude::*;

use crate::mesh::{Mesh, Point2, Point3};

verus! {

/// A vertex as the geometry pass reads it.
#[derive(Clone, Copy, Debug, PartialEq, Eq, Structural)]
pub struct Vertex {
    pub position: Point3,
    pub normal: Point3,
    pub texcoord: Point2,
}

/// The vertices of a mesh: its attributes taken together position by position, as
/// far as all three lists reach.
pub open spec fn mesh_vertices(m: Mesh) -> Seq<Vertex> {
    let n = if m.positions@.len() <= m.normals@.len() && m.positions@.len() <= m.texcoords@.len() {
        m.positions@.len()
    } else if m.normals@.len() <= m.texcoords@.len() {
        m.normals@.len()
    } else {
        m.texcoords@.len()
    };
    Seq::new(n, |i: int| Vertex { position: m.positions@[i], normal: m.normals@[i], texcoord: m.texcoords@[i] })
}

/// The vertices of all meshes, mesh after mesh.
pub open spec fn all_mesh_vertices(meshes: Seq<Mesh>) -> Seq<Vertex>
    decreases meshes.len(),
{
    if meshes.len() == 0 {
        Seq::empty()
    } else {
        all_mesh_vertices(meshes.drop_last()) + mesh_vertices(meshes.last())
    }
}

/// The indices of all meshes, mesh after mesh.
pub open spec fn all_mesh_indices(meshes: Seq<Mesh>) -> Seq<u32>
    decreases meshes.len(),
{
    if meshes.len() == 0 {
        Seq::empty()
    } else {
        all_mesh_indices(meshes.drop_last()) + meshes.last().indices@
    }
}

/// How many positions the meshes have together.
pub open spec fn total_positions(meshes: Seq<Mesh>) -> nat
    decreases meshes.len(),
{
    if meshes.len() == 0 {
        0
    } else {
        total_positions(meshes.drop_last()) + meshes.last().positions@.len()
    }
}

/// How many indices the meshes have together.
pub open spec fn total_indices(meshes: Seq<Mesh>) -> nat
    decreases meshes.len(),
{
    if meshes.len() == 0 {
        0
    } else {
        total_indices(meshes.drop_last()) + meshes.last().indices@.len()
    }
}

/// Where a mesh stands in the shared buffers, its transform (the bit patterns of
/// its matrix, column by column) and its material.
#[derive(Clone, Copy, Debug, PartialEq, Eq)]
pub struct MeshDraw {
    pub vertex_offset: i32,
    pub first_index: u32,
    pub index_count: u32,
    pub transform: [u32; 16],
    pub material_index: u32,
}

/// Mesh `k` starts after the positions and the indices of the meshes before it.
pub open spec fn mesh_draw_of(meshes: Seq<Mesh>, k: int) -> MeshDraw {
    MeshDraw {
        vertex_offset: total_positions(meshes.subrange(0, k)) as i32,
        first_index: total_indices(meshes.subrange(0, k)) as u32,
        index_count: meshes[k].indices@.len() as u32,
        transform: meshes[k].transform,
        material_index: meshes[k].material_index,
    }
}

/// The vertices of all meshes in one list.
pub fn vertex_data(meshes: &Vec<Mesh>) -> (vertices: Vec<Vertex>)
    requires
        all_mesh_vertices(meshes@).len() <= usize::MAX,
    ensures
        vertices@ == all_mesh_vertices(meshes@),
{
    let mut vertices: Vec<Vertex> = Vec::new();
    let mut k: usize = 0;
    while k < meshes.len()
        invariant
            k <= meshes.len(),
            vertices@ == all_mesh_vertices(meshes@.subrange(0, k as int)),
        decreases meshes.len() - k,
    {
        let m = &meshes[k];
        let mut n = m.positions.len();
        if m.normals.len() < n {
            n = m.normals.len();
        }
        if m.texcoords.len() < n {
            n = m.texcoords.len();
        }
        proof {
            assert(meshes@.subrange(0, k as int + 1).drop_last() =~= meshes@.subrange(0, k as int));
            assert(mesh_vertices(*m).len() == n);
        }
        let ghost start = vertices@;
        let mut i: usize = 0;
        while i < n
            invariant
                i <= n,
                n == mesh_vertices(*m).len(),
                n <= m.positions@.len(),
                n <= m.normals@.len(),
                n <= m.texcoords@.len(),
                vertices@ == start + mesh_vertices(*m).subrange(0, i as int),
            decreases n - i,
        {
            vertices.push(Vertex { position: m.positions[i], normal: m.normals[i], texcoord: m.texcoords[i] });
            i = i + 1;
            proof {
                assert(vertices@ =~= start + mesh_vertices(*m).subrange(0, i as int));
            }
        }
        proof {
            assert(mesh_vertices(*m).subrange(0, n as int) =~= mesh_vertices(*m));
        }
        k = k + 1;
    }
    proof {
        assert(meshes@.subrange(0, meshes.len() as int) =~= meshes@);
    }
    vertices
}

/// The indices of all meshes in one list.
pub fn index_data(meshes: &Vec<Mesh>) -> (indices: Vec<u32>)
    requires
        all_mesh_indices(meshes@).len() <= usize::MAX,
    ensures
        indices@ == all_mesh_indices(meshes@),
{
    let mut indices: Vec<u32> = Vec::new();
    let mut k: usize = 0;
    while k < meshes.len()
        invariant
            k <= meshes.len(),
            indices@ == all_mesh_indices(meshes@.subrange(0, k as int)),
        decreases meshes.len() - k,
    {
        proof {
            assert(meshes@.subrange(0, k as int + 1).drop_last() =~= meshes@.subrange(0, k as int));
        }
        let m = &meshes[k];
        let ghost start = indices@;
        let mut i: usize = 0;
        while i < m.indices.len()
            invariant
                i <= m.indices.len(),
                indices@ == start + m.indices@.subrange(0, i as int),
            decreases m.indices.len() - i,
        {
            indices.push(m.indices[i]);
            i = i + 1;
            proof {
                assert(indices@ =~= start + m.indices@.subrange(0, i as int));
            }
        }
        proof {
            assert(m.indices@.subrange(0, i as int) =~= m.indices@);
        }
        k = k + 1;
    }
    proof {
        assert(meshes@.subrange(0, meshes.len() as int) =~= meshes@);
    }
    indices
}

/// The totals of the first `k` meshes are no more than those of all.
proof fn lemma_totals_prefix(meshes: Seq<Mesh>, k: int)
    requires
        0 <= k <= meshes.len(),
    ensures
        total_positions(meshes.subrange(0, k)) <= total_positions(meshes),
        total_indices(meshes.subrange(0, k)) <= total_indices(meshes),
    decreases meshes.len(),
{
    if k < meshes.len() {
        assert(meshes.drop_last().subrange(0, k) =~= meshes.subrange(0, k));
        lemma_totals_prefix(meshes.drop_last(), k);
    } else {
        assert(meshes.subrange(0, k) =~= meshes);
    }
}

/// Every mesh has as many normals and texture coordinates as positions.
pub open spec fn attributes_aligned(meshes: Seq<Mesh>) -> bool {
    forall|k: int|
        0 <= k < meshes.len() ==> (#[trigger] meshes[k]).normals@.len() == meshes[k].positions@.len()
            && meshes[k].texcoords@.len() == meshes[k].positions@.len()
}

proof fn lemma_vertices_count(meshes: Seq<Mesh>)
    requires
        attributes_aligned(meshes),
    ensures
        all_mesh_vertices(meshes).len() == total_positions(meshes),
        all_mesh_indices(meshes).len() == total_indices(meshes),
    decreases meshes.len(),
{
    if meshes.len() > 0 {
        let p = meshes.drop_last();
        assert forall|k: int| 0 <= k < p.len() implies (#[trigger] p[k]).normals@.len() == p[k].positions@.len()
            && p[k].texcoords@.len() == p[k].positions@.len() by {
            assert(p[k] == meshes[k]);
        }
        lemma_vertices_count(p);
        assert(meshes[meshes.len() - 1] == meshes.last());
    }
}

proof fn lemma_prefix_of_all(meshes: Seq<Mesh>, m: int)
    requires
        0 <= m <= meshes.len(),
    ensures
        all_mesh_vertices(meshes.subrange(0, m)).len() <= all_mesh_vertices(meshes).len(),
        all_mesh_indices(meshes.subrange(0, m)).len() <= all_mesh_indices(meshes).len(),
        forall|i: int|
            0 <= i < all_mesh_vertices(meshes.subrange(0, m)).len() ==> #[trigger] all_mesh_vertices(meshes)[i]
                == all_mesh_vertices(meshes.subrange(0, m))[i],
        forall|i: int|
            0 <= i < all_mesh_indices(meshes.subrange(0, m)).len() ==> #[trigger] all_mesh_indices(meshes)[i]
                == all_mesh_indices(meshes.subrange(0, m))[i],
    decreases meshes.len(),
{
    if m < meshes.len() {
        let p = meshes.drop_last();
        assert(p.subrange(0, m) =~= meshes.subrange(0, m));
        lemma_prefix_of_all(p, m);
        assert(all_mesh_vertices(meshes) == all_mesh_vertices(p) + mesh_vertices(meshes.last()));
        assert(all_mesh_indices(meshes) == all_mesh_indices(p) + meshes.last().indices@);
        assert forall|i: int| 0 <= i < all_mesh_vertices(meshes.subrange(0, m)).len() implies #[trigger] all_mesh_vertices(
            meshes,
        )[i] == all_mesh_vertices(meshes.subrange(0, m))[i] by {
            assert(all_mesh_vertices(p)[i] == all_mesh_vertices(meshes.subrange(0, m))[i]);
        }
        assert forall|i: int| 0 <= i < all_mesh_indices(meshes.subrange(0, m)).len() implies #[trigger] all_mesh_indices(
            meshes,
        )[i] == all_mesh_indices(meshes.subrange(0, m))[i] by {
            assert(all_mesh_indices(p)[i] == all_mesh_indices(meshes.subrange(0, m))[i]);
        }
    } else {
        assert(meshes.subrange(0, m) =~= meshes);
        assert(all_mesh_vertices(meshes.subrange(0, m)) == all_mesh_vertices(meshes));
        assert(all_mesh_indices(meshes.subrange(0, m)) == all_mesh_indices(meshes));
    }
}

/// The draw of mesh `k` reads exactly that mesh: the `v`-th vertex from its vertex
/// offset on in the shared vertex list is the mesh's `v`-th vertex, and the `j`-th
/// index from its first index on in the shared index list is the mesh's `j`-th
/// index, for as many indices as it draws; and it carries the mesh's transform and
/// material. (Vertices line up with positions where each mesh has as many normals
/// and texture coordinates as positions.)
pub proof fn lemma_draw_reads_its_mesh(meshes: Seq<Mesh>, k: int)
    requires
        0 <= k < meshes.len(),
        attributes_aligned(meshes),
        total_positions(meshes) <= i32::MAX,
        total_indices(meshes) <= u32::MAX,
    ensures
        ({
            let d = mesh_draw_of(meshes, k);
            &&& forall|v: int|
                0 <= v < meshes[k].positions@.len() ==> #[trigger] all_mesh_vertices(meshes)[d.vertex_offset + v]
                    == mesh_vertices(meshes[k])[v]
            &&& d.index_count == meshes[k].indices@.len()
            &&& forall|j: int|
                0 <= j < meshes[k].indices@.len() ==> #[trigger] all_mesh_indices(meshes)[d.first_index + j]
                    == meshes[k].indices@[j]
            &&& d.transform == meshes[k].transform
            &&& d.material_index == meshes[k].material_index
        }),
{
    let pre = meshes.subrange(0, k);
    let upto = meshes.subrange(0, k + 1);
    assert(upto.drop_last() =~= pre);
    assert(upto.last() == meshes[k]);
    assert forall|j: int| 0 <= j < upto.len() implies (#[trigger] upto[j]).normals@.len() == upto[j].positions@.len()
        && upto[j].texcoords@.len() == upto[j].positions@.len() by {
        assert(upto[j] == meshes[j]);
    }
    assert forall|j: int| 0 <= j < pre.len() implies (#[trigger] pre[j]).normals@.len() == pre[j].positions@.len()
        && pre[j].texcoords@.len() == pre[j].positions@.len() by {
        assert(pre[j] == meshes[j]);
    }
    lemma_vertices_count(pre);
    lemma_totals_prefix(meshes, k);
    lemma_totals_prefix(meshes, k + 1);
    lemma_prefix_of_all(meshes, k + 1);
    let d = mesh_draw_of(meshes, k);
    assert(d.vertex_offset == total_positions(pre));
    assert(d.first_index == total_indices(pre));
    assert(mesh_vertices(meshes[k]).len() == meshes[k].positions@.len());
    assert forall|v: int| 0 <= v < meshes[k].positions@.len() implies #[trigger] all_mesh_vertices(meshes)[d.vertex_offset
        + v] == mesh_vertices(meshes[k])[v] by {
        assert(all_mesh_vertices(upto) == all_mesh_vertices(pre) + mesh_vertices(meshes[k]));
        assert(all_mesh_vertices(upto)[d.vertex_offset + v] == mesh_vertices(meshes[k])[v]);
    }
    assert forall|j: int| 0 <= j < meshes[k].indices@.len() implies #[trigger] all_mesh_indices(meshes)[d.first_index
        + j] == meshes[k].indices@[j] by {
        assert(all_mesh_indices(upto) == all_mesh_indices(pre) + meshes[k].indices@);
        assert(all_mesh_indices(upto)[d.first_index + j] == meshes[k].indices@[j]);
    }
}

/// The first mesh is drawn from the start of the shared lists, and each mesh's
/// vertices start where the previous mesh's positions end and its indices where the
/// previous mesh's indices end.
pub proof fn lemma_draws_follow_one_another(meshes: Seq<Mesh>, k: int)
    requires
        0 <= k < meshes.len(),
        total_positions(meshes) <= i32::MAX,
        total_indices(meshes) <= u32::MAX,
    ensures
        mesh_draw_of(meshes, 0).vertex_offset == 0,
        mesh_draw_of(meshes, 0).first_index == 0,
        k + 1 < meshes.len() ==> mesh_draw_of(meshes, k + 1).vertex_offset == mesh_draw_of(meshes, k).vertex_offset
            + meshes[k].positions@.len(),
        k + 1 < meshes.len() ==> mesh_draw_of(meshes, k + 1).first_index == mesh_draw_of(meshes, k).first_index
            + meshes[k].indices@.len(),
{
    assert(meshes.subrange(0, 0) =~= Seq::<Mesh>::empty());
    lemma_totals_prefix(meshes, k);
    if k + 1 < meshes.len() {
        lemma_totals_prefix(meshes, k + 1);
        assert(meshes.subrange(0, k + 1).drop_last() =~= meshes.subrange(0, k));
        assert(meshes.subrange(0, k + 1).last() == meshes[k]);
    }
}

/// Where each mesh stands in the shared buffers: the running counts of positions
/// and of indices before it, its index count, its transform and its material.
pub fn mesh_draws(meshes: &Vec<Mesh>) -> (draws: Vec<MeshDraw>)
    requires
        total_positions(meshes@) <= i32::MAX,
        total_indices(meshes@) <= u32::MAX,
    ensures
        draws.len() == meshes.len(),
        forall|k: int| 0 <= k < draws.len() ==> draws@[k] == #[trigger] mesh_draw_of(meshes@, k),
{
    let mut vertices_offset: i32 = 0;
    let mut indices_offset: u32 = 0;
    let mut draws: Vec<MeshDraw> = Vec::new();
    let mut k: usize = 0;
    while k < meshes.len()
        invariant
            k <= meshes.len(),
            total_positions(meshes@) <= i32::MAX,
            total_indices(meshes@) <= u32::MAX,
            vertices_offset == total_positions(meshes@.subrange(0, k as int)),
            indices_offset == total_indices(meshes@.subrange(0, k as int)),
            draws.len() == k,
            forall|j: int| 0 <= j < k ==> draws@[j] == #[trigger] mesh_draw_of(meshes@, j),
        decreases meshes.len() - k,
    {
        let m = &meshes[k];
        proof {
            assert(meshes@.subrange(0, k as int + 1).drop_last() =~= meshes@.subrange(0, k as int));
            lemma_totals_prefix(meshes@, k as int + 1);
        }
        draws.push(
            MeshDraw {
                vertex_offset: vertices_offset,
                first_index: indices_offset,
                index_count: m.indices.len() as u32,
                transform: m.transform,
                material_index: m.material_index,
            },
        );
        vertices_offset = vertices_offset + m.positions.len() as i32;
        indices_offset = indices_offset + m.indices.len() as u32;
        k = k + 1;
    }
    draws
}

/// What the geometry pass reads of a mesh while it draws it: its model transform
/// (the bit patterns of its matrix, column by column) and its material.
#[derive(Clone, Copy, Debug, PartialEq, Eq)]
pub struct MeshMeta {
    pub model_transform: [u32; 16],
    pub material_index: u32,
}

/// The transform and material of each mesh to draw, in order, as the geometry pass
/// reads them from one buffer.
pub fn mesh_metas(draws: &Vec<MeshDraw>) -> (metas: Vec<MeshMeta>)
    ensures
        metas.len() == draws.len(),
        forall|k: int|
            0 <= k < metas.len() ==> (#[trigger] metas@[k]).model_transform == draws@[k].transform
                && metas@[k].material_index == draws@[k].material_index,
{
    let mut metas: Vec<MeshMeta> = Vec::new();
    let mut k: usize = 0;
    while k < draws.len()
        invariant
            k <= draws.len(),
            metas.len() == k,
            forall|j: int|
                0 <= j < k ==> (#[trigger] metas@[j]).model_transform == draws@[j].transform
                    && metas@[j].material_index == draws@[j].material_index,
        decreases draws.len() - k,
    {
        metas.push(MeshMeta { model_transform: draws[k].transform, material_index: draws[k].material_index });
        k = k + 1;
    }
    metas
}

/// What the geometry pass gets with each draw: which mesh's data to read.
#[derive(Clone, Copy, Debug, PartialEq, Eq, Structural)]
pub struct PushConstants {
    pub mesh_meta_index: u32,
}

/// One indexed draw of the geometry pass.
#[derive(Clone, Copy, Debug, PartialEq, Eq, Structural)]
pub struct DrawCommand {
    pub push_constants: PushConstants,
    pub index_count: u32,
    pub first_index: u32,
    pub vertex_offset: i32,
}

/// The draws of the geometry pass: one per mesh, in order, each told its mesh's
/// position (cut down to 32 bits) and drawing that mesh's range of the buffers.
pub fn draw_commands(draws: &Vec<MeshDraw>) -> (commands: Vec<DrawCommand>)
    ensures
        commands.len() == draws.len(),
        forall|k: int|
            0 <= k < commands.len() ==> #[trigger] commands@[k] == (DrawCommand {
                push_constants: PushConstants { mesh_meta_index: k as u32 },
                index_count: draws@[k].index_count,
                first_index: draws@[k].first_index,
                vertex_offset: draws@[k].vertex_offset,
            }),
{
    let mut commands: Vec<DrawCommand> = Vec::new();
    let mut k: usize = 0;
    while k < draws.len()
        invariant
            k <= draws.len(),
            commands.len() == k,
            forall|j: int|
                0 <= j < k ==> #[trigger] commands@[j] == (DrawCommand {
                    push_constants: PushConstants { mesh_meta_index: j as u32 },
                    index_count: draws@[j].index_count,
                    first_index: draws@[j].first_index,
                    vertex_offset: draws@[j].vertex_offset,
                }),
        decreases draws.len() - k,
    {
        let d = draws[k];
        commands.push(
            DrawCommand {
                push_constants: PushConstants { mesh_meta_index: k as u32 },
                index_count: d.index_count,
                first_index: d.first_index,
                vertex_offset: d.vertex_offset,
            },
        );
        k = k + 1;
    }
    commands
}

} // verus!
