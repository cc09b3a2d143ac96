//! Triangle meshes and the triangles that they are made of.
//!
//! Scene coordinates are fixed-point integers: every coordinate of the
//! scene description is carried as an `i32` (a multiple of a fixed unit), so
//! that every comparison and sum made on them is exact.
use vstd::prelude::*;

use crate::bih::BoundingBox;

verus! {

/// A point (or direction) in scene space, in fixed-point coordinates.
#[derive(Clone, Copy, Debug, PartialEq, Eq, Structural)]
pub struct Point3 {
    pub x: i32,
    pub y: i32,
    pub z: i32,
}

/// A texture coordinate, in fixed-point coordinates.
#[derive(Clone, Copy, Debug, PartialEq, Eq, Structural)]
pub struct Point2 {
    pub x: i32,
    pub y: i32,
}

impl Point3 {
    /// The coordinate on axis `axis` (0 = x, 1 = y, anything else = z).
    pub open spec fn coord(self, axis: int) -> i32 {
        if axis == 0 {
            self.x
        } else if axis == 1 {
            self.y
        } else {
            self.z
        }
    }

    /// The point with its coordinate on axis `axis` replaced by `value`.
    pub open spec fn with_coord(self, axis: int, value: i32) -> Point3 {
        if axis == 0 {
            Point3 { x: value, ..self }
        } else if axis == 1 {
            Point3 { y: value, ..self }
        } else {
            Point3 { z: value, ..self }
        }
    }

    /// The coordinate on axis `axis`.
    pub fn at(&self, axis: usize) -> (r: i32)
        requires
            axis < 3,
        ensures
            r == self.coord(axis as int),
    {
        if axis == 0 {
            self.x
        } else if axis == 1 {
            self.y
        } else {
            self.z
        }
    }

    /// Sets the coordinate on axis `axis` to `value`.
    pub fn set_at(&mut self, axis: usize, value: i32)
        requires
            axis < 3,
        ensures
            *final(self) == old(self).with_coord(axis as int, value),
    {
        if axis == 0 {
            self.x = value;
        } else if axis == 1 {
            self.y = value;
        } else {
            self.z = value;
        }
    }
}

pub open spec fn min_i32(a: i32, b: i32) -> i32 {
    if a <= b {
        a
    } else {
        b
    }
}

pub open spec fn max_i32(a: i32, b: i32) -> i32 {
    if a >= b {
        a
    } else {
        b
    }
}

pub(crate) fn min_of(a: i32, b: i32) -> (r: i32)
    ensures
        r == min_i32(a, b),
{
    if a <= b {
        a
    } else {
        b
    }
}

pub(crate) fn max_of(a: i32, b: i32) -> (r: i32)
    ensures
        r == max_i32(a, b),
{
    if a >= b {
        a
    } else {
        b
    }
}

/// One triangle of a mesh, with the attributes of its three corners.
#[derive(Clone, Copy, Debug, PartialEq, Eq)]
pub struct Triangle {
    pub positions: [Point3; 3],
    pub normals: [Point3; 3],
    pub texcoords: [Point2; 3],
    pub material_index: u32,
}

/// The smallest axis-aligned box around the three corners of `t`.
pub open spec fn tri_bounds(t: Triangle) -> BoundingBox {
    let a = t.positions[0];
    let b = t.positions[1];
    let c = t.positions[2];
    BoundingBox {
        min: Point3 {
            x: min_i32(min_i32(a.x, b.x), c.x),
            y: min_i32(min_i32(a.y, b.y), c.y),
            z: min_i32(min_i32(a.z, b.z), c.z),
        },
        max: Point3 {
            x: max_i32(max_i32(a.x, b.x), c.x),
            y: max_i32(max_i32(a.y, b.y), c.y),
            z: max_i32(max_i32(a.z, b.z), c.z),
        },
    }
}

/// The box of a triangle holds its three corners, and on each axis its lower and
/// its upper bound are each the coordinate of one of the corners: it is the
/// smallest box around them.
pub proof fn lemma_bounds_hold_corners(t: Triangle)
    ensures
        forall|i: int, a: int|
            0 <= i < 3 && 0 <= a < 3 ==> tri_bounds(t).min.coord(a) <= #[trigger] t.positions[i].coord(a)
                <= tri_bounds(t).max.coord(a),
        forall|a: int|
            0 <= a < 3 ==> (#[trigger] tri_bounds(t).min.coord(a) == t.positions[0].coord(a) || tri_bounds(t).min.coord(a)
                == t.positions[1].coord(a) || tri_bounds(t).min.coord(a) == t.positions[2].coord(a)),
        forall|a: int|
            0 <= a < 3 ==> (#[trigger] tri_bounds(t).max.coord(a) == t.positions[0].coord(a) || tri_bounds(t).max.coord(a)
                == t.positions[1].coord(a) || tri_bounds(t).max.coord(a) == t.positions[2].coord(a)),
{
}

impl Triangle {
    /// The smallest axis-aligned box that holds the triangle.
    pub fn bounds(&self) -> (b: BoundingBox)
        ensures
            b == tri_bounds(*self),
            forall|i: int, a: int|
                0 <= i < 3 && 0 <= a < 3 ==> b.min.coord(a) <= #[trigger] self.positions[i].coord(a) <= b.max.coord(a),
    {
        proof {
            lemma_bounds_hold_corners(*self);
        }
        let a = self.positions[0];
        let b = self.positions[1];
        let c = self.positions[2];
        BoundingBox {
            min: Point3 {
                x: min_of(min_of(a.x, b.x), c.x),
                y: min_of(min_of(a.y, b.y), c.y),
                z: min_of(min_of(a.z, b.z), c.z),
            },
            max: Point3 {
                x: max_of(max_of(a.x, b.x), c.x),
                y: max_of(max_of(a.y, b.y), c.y),
                z: max_of(max_of(a.z, b.z), c.z),
            },
        }
    }
}

/// A triangle in the layout that the GPU reads: the same corners and material.
#[derive(Clone, Copy, Debug, PartialEq, Eq)]
pub struct TriangleUniform {
    pub positions: [Point3; 3],
    pub normals: [Point3; 3],
    pub texcoords: [Point2; 3],
    pub material_index: u32,
}

/// The triangle layout, under the name that the scene buffers use for it.
pub type TriangleStd140 = TriangleUniform;

impl Triangle {
    /// The triangle in the layout that the GPU reads.
    pub fn into_uniform(self) -> (u: TriangleUniform)
        ensures
            u.positions == self.positions,
            u.normals == self.normals,
            u.texcoords == self.texcoords,
            u.material_index == self.material_index,
    {
        TriangleUniform {
            positions: [self.positions[0], self.positions[1], self.positions[2]],
            normals: [self.normals[0], self.normals[1], self.normals[2]],
            texcoords: [self.texcoords[0], self.texcoords[1], self.texcoords[2]],
            material_index: self.material_index,
        }
    }
}

/// The triangles, in order, in the layout that the GPU reads.
pub fn get_triangle_data(triangles: Vec<Triangle>) -> (data: Vec<TriangleStd140>)
    ensures
        data.len() == triangles.len(),
        forall|i: int|
            0 <= i < data.len() ==> {
                &&& (#[trigger] data[i]).positions == triangles[i].positions
                &&& data[i].normals == triangles[i].normals
                &&& data[i].texcoords == triangles[i].texcoords
                &&& data[i].material_index == triangles[i].material_index
            },
{
    let mut data: Vec<TriangleStd140> = Vec::new();
    let mut i: usize = 0;
    while i < triangles.len()
        invariant
            i <= triangles.len(),
            data.len() == i,
            forall|j: int|
                0 <= j < i ==> {
                    &&& (#[trigger] data[j]).positions == triangles[j].positions
                    &&& data[j].normals == triangles[j].normals
                    &&& data[j].texcoords == triangles[j].texcoords
                    &&& data[j].material_index == triangles[j].material_index
                },
        decreases triangles.len() - i,
    {
        data.push(triangles[i].into_uniform());
        i = i + 1;
    }
    data
}

/// An indexed triangle mesh in its own coordinates: vertex attributes, three
/// indices per triangle, its material, and the transform that places it in the
/// scene, as the bit patterns of the sixteen single-precision entries of a 4x4
/// matrix, column by column.
#[derive(Clone, Debug)]
pub struct Mesh {
    pub positions: Vec<Point3>,
    pub normals: Vec<Point3>,
    pub texcoords: Vec<Point2>,
    pub indices: Vec<u32>,
    pub transform: [u32; 16],
    pub material_index: u32,
}

/// What the scene description gives of a mesh: its vertex attributes (already
/// read as points), the values of its index list as unsigned integers where
/// they are such (`None` for any other value), its transform (the bit patterns of
/// the entries of the matrix that its `transform` entry makes, column by column),
/// and the name of its material.
#[derive(Clone, Debug)]
pub struct MeshDesc {
    pub positions: Vec<Point3>,
    pub normals: Vec<Point3>,
    pub texcoords: Vec<Point2>,
    pub indices: Vec<Option<u64>>,
    pub transform: [u32; 16],
    pub material: Option<String>,
}

/// The indices of a mesh from the values of its index list: those that are
/// unsigned integers, in order, cut down to 32 bits.
pub open spec fn json_indices(values: Seq<Option<u64>>) -> Seq<u32>
    decreases values.len(),
{
    if values.len() == 0 {
        Seq::empty()
    } else {
        let rest = json_indices(values.drop_last());
        match values.last() {
            Some(v) => rest.push(v as u32),
            None => rest,
        }
    }
}

/// The index values of the description that are unsigned integers, in order, cut
/// down to 32 bits.
pub fn indices_from_json(values: &Vec<Option<u64>>) -> (indices: Vec<u32>)
    ensures
        indices@ == json_indices(values@),
{
    let mut indices: Vec<u32> = Vec::new();
    let mut i: usize = 0;
    while i < values.len()
        invariant
            i <= values.len(),
            indices@ == json_indices(values@.subrange(0, i as int)),
        decreases values.len() - i,
    {
        proof {
            assert(values@.subrange(0, i as int + 1).drop_last() =~= values@.subrange(0, i as int));
        }
        match values[i] {
            Some(v) => indices.push(v as u32),
            None => {},
        }
        i = i + 1;
    }
    proof {
        assert(values@.subrange(0, values.len() as int) =~= values@);
    }
    indices
}

impl Mesh {
    /// The mesh that the description gives: its attributes, its unsigned index
    /// values cut to 32 bits, its transform, and the position of its material among
    /// `material_names` (0 when it is not there).
    pub fn from_json(desc: MeshDesc, material_names: &Vec<String>) -> (mesh: Mesh)
        ensures
            mesh.positions@ == desc.positions@,
            mesh.normals@ == desc.normals@,
            mesh.texcoords@ == desc.texcoords@,
            mesh.indices@ == json_indices(desc.indices@),
            mesh.transform == desc.transform,
            mesh.material_index == crate::materials::name_index_of(
                material_names@,
                match desc.material {
                    Some(m) => Some(m@),
                    None => None,
                },
            ),
    {
        let indices = indices_from_json(&desc.indices);
        let material_index = match &desc.material {
            Some(m) => crate::materials::name_index(material_names, Some(m.as_str())),
            None => crate::materials::name_index(material_names, None),
        };
        Mesh {
            positions: desc.positions,
            normals: desc.normals,
            texcoords: desc.texcoords,
            indices,
            transform: desc.transform,
            material_index,
        }
    }

    /// How many complete triangles the index list describes (a trailing one or two
    /// indices are left out).
    pub open spec fn triangle_count(&self) -> nat {
        self.indices@.len() / 3
    }

    /// Every index of a complete triangle points at a vertex with all three
    /// attributes.
    pub open spec fn indices_in_range(&self) -> bool {
        forall|k: int|
            0 <= k < 3 * self.triangle_count() ==> {
                &&& (#[trigger] self.indices@[k]) < self.positions@.len()
                &&& self.indices@[k] < self.normals@.len()
                &&& self.indices@[k] < self.texcoords@.len()
            }
    }

    /// The `t`-th triangle of the mesh: the vertices of indices `3t`, `3t + 1`
    /// and `3t + 2`.
    pub open spec fn triangle_at(&self, t: int) -> Triangle {
        let a = self.indices@[3 * t] as int;
        let b = self.indices@[3 * t + 1] as int;
        let c = self.indices@[3 * t + 2] as int;
        Triangle {
            positions: [self.positions@[a], self.positions@[b], self.positions@[c]],
            normals: [self.normals@[a], self.normals@[b], self.normals@[c]],
            texcoords: [self.texcoords@[a], self.texcoords@[b], self.texcoords@[c]],
            material_index: self.material_index,
        }
    }

    /// Whether every index of a complete triangle points at a vertex.
    pub fn check_indices(&self) -> (ok: bool)
        ensures
            ok == self.indices_in_range(),
    {
        let n = self.indices.len() / 3 * 3;
        proof {
            let len = self.indices.len();
            assert(len / 3 * 3 <= len) by (nonlinear_arith);
        }
        let mut k: usize = 0;
        while k < n
            invariant
                k <= n,
                n <= self.indices.len(),
                n == 3 * self.triangle_count(),
                forall|j: int|
                    0 <= j < k ==> {
                        &&& (#[trigger] self.indices@[j]) < self.positions@.len()
                        &&& self.indices@[j] < self.normals@.len()
                        &&& self.indices@[j] < self.texcoords@.len()
                    },
            decreases n - k,
        {
            let i = self.indices[k] as usize;
            if i >= self.positions.len() || i >= self.normals.len() || i >= self.texcoords.len() {
                return false;
            }
            k = k + 1;
        }
        true
    }

    /// The triangles of the mesh, in the order of the index list: one for each
    /// complete group of three indices.
    pub fn triangles(&self) -> (tris: Vec<Triangle>)
        requires
            self.indices_in_range(),
        ensures
            tris.len() == self.triangle_count(),
            forall|t: int| 0 <= t < tris.len() ==> tris@[t] == #[trigger] self.triangle_at(t),
    {
        let n = self.indices.len() / 3;
        proof {
            let len = self.indices.len();
            assert(3 * (len / 3) <= len) by (nonlinear_arith);
        }
        let mut tris: Vec<Triangle> = Vec::new();
        let mut t: usize = 0;
        while t < n
            invariant
                t <= n,
                3 * n <= self.indices.len(),
                n == self.triangle_count(),
                self.indices_in_range(),
                tris.len() == t,
                forall|j: int| 0 <= j < t ==> tris@[j] == #[trigger] self.triangle_at(j),
            decreases n - t,
        {
            let a = self.indices[3 * t] as usize;
            let b = self.indices[3 * t + 1] as usize;
            let c = self.indices[3 * t + 2] as usize;
            tris.push(
                Triangle {
                    positions: [self.positions[a], self.positions[b], self.positions[c]],
                    normals: [self.normals[a], self.normals[b], self.normals[c]],
                    texcoords: [self.texcoords[a], self.texcoords[b], self.texcoords[c]],
                    material_index: self.material_index,
                },
            );
            t = t + 1;
        }
        tris
    }

    /// How many numbers the mesh takes when written out flat: three per position and
    /// per normal, two per texture coordinate, one per index, and one more.
    pub open spec fn flat_size(&self) -> nat {
        self.positions@.len() * 3 + self.normals@.len() * 3 + self.texcoords@.len() * 2
            + self.indices@.len() + 1
    }

    /// How many numbers the mesh takes when written out flat.
    pub fn size_in_f32s(&self) -> (n: usize)
        requires
            self.flat_size() <= usize::MAX,
        ensures
            n == self.flat_size(),
    {
        self.positions.len() * 3 + self.normals.len() * 3 + self.texcoords.len() * 2
            + self.indices.len() + 1
    }
}

} // verus!
