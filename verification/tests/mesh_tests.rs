use eruptrace::mesh::{get_triangle_data, indices_from_json, Mesh, MeshDesc, Point2, Point3, Triangle};

const IDENTITY: [u32; 16] = [
    0x3f80_0000, 0, 0, 0, 0, 0x3f80_0000, 0, 0, 0, 0, 0x3f80_0000, 0, 0, 0, 0, 0x3f80_0000,
];

fn p(x: i32, y: i32, z: i32) -> Point3 {
    Point3 { x, y, z }
}

fn t(x: i32, y: i32) -> Point2 {
    Point2 { x, y }
}

fn square() -> Mesh {
    Mesh {
        positions: vec![p(0, 0, 0), p(1, 0, 0), p(1, 1, 0), p(0, 1, 0)],
        normals: vec![p(0, 0, 1), p(0, 0, 2), p(0, 0, 3), p(0, 0, 4)],
        texcoords: vec![t(0, 0), t(1, 0), t(1, 1), t(0, 1)],
        indices: vec![0, 1, 2, 2, 3, 0, 1],
        transform: IDENTITY,
        material_index: 5,
    }
}

#[test]
fn triangles_follow_the_index_list() {
    let m = square();
    assert!(m.check_indices());
    let tris = m.triangles();
    // The trailing single index makes no triangle.
    assert_eq!(tris.len(), 2);
    assert_eq!(tris[0].positions, [p(0, 0, 0), p(1, 0, 0), p(1, 1, 0)]);
    assert_eq!(tris[1].positions, [p(1, 1, 0), p(0, 1, 0), p(0, 0, 0)]);
    assert_eq!(tris[1].normals, [p(0, 0, 3), p(0, 0, 4), p(0, 0, 1)]);
    assert_eq!(tris[1].texcoords, [t(1, 1), t(0, 1), t(0, 0)]);
    assert_eq!(tris[0].material_index, 5);
}

#[test]
fn out_of_range_index_is_found() {
    let mut m = square();
    m.indices = vec![0, 1, 9];
    assert!(!m.check_indices());
    // An out-of-range index in an incomplete triangle does not count.
    m.indices = vec![0, 1, 2, 9];
    assert!(m.check_indices());
    // A short attribute list counts too.
    let mut m = square();
    m.texcoords.truncate(2);
    assert!(!m.check_indices());
}

#[test]
fn triangle_bounds() {
    let tri = Triangle {
        positions: [p(3, -1, 2), p(-4, 5, 2), p(0, 0, 7)],
        normals: [p(0, 0, 0); 3],
        texcoords: [t(0, 0); 3],
        material_index: 0,
    };
    let b = tri.bounds();
    assert_eq!(b.min, p(-4, -1, 2));
    assert_eq!(b.max, p(3, 5, 7));
}

#[test]
fn flat_size_counts_every_number() {
    let m = square();
    // 4 * 3 + 4 * 3 + 4 * 2 + 7 + 1
    assert_eq!(m.size_in_f32s(), 40);
}

#[test]
fn index_values_keep_unsigned_integers_cut_to_32_bits() {
    let values = vec![Some(1), None, Some(2), Some((1u64 << 32) + 3), None];
    assert_eq!(indices_from_json(&values), vec![1, 2, 3]);
}

#[test]
fn mesh_from_description() {
    let names = vec!["glass".to_string(), "metal".to_string(), "metal".to_string()];
    let desc = MeshDesc {
        positions: vec![p(0, 0, 0)],
        normals: vec![p(0, 1, 0)],
        texcoords: vec![t(0, 0)],
        indices: vec![Some(0), None, Some(0), Some(0)],
        transform: IDENTITY,
        material: Some("metal".to_string()),
    };
    let mut moved = desc.clone();
    moved.transform[13] = 2.5f32.to_bits();
    assert_eq!(Mesh::from_json(moved.clone(), &names).transform, moved.transform);
    let m = Mesh::from_json(desc.clone(), &names);
    assert_eq!(m.material_index, 1);
    assert_eq!(m.transform, IDENTITY);
    assert_eq!(m.indices, vec![0, 0, 0]);
    let unknown = MeshDesc { material: Some("wood".to_string()), ..desc.clone() };
    assert_eq!(Mesh::from_json(unknown, &names).material_index, 0);
    let none = MeshDesc { material: None, ..desc };
    assert_eq!(Mesh::from_json(none, &names).material_index, 0);
}

#[test]
fn triangles_in_gpu_layout() {
    let tris = square().triangles();
    let data = get_triangle_data(tris.clone());
    assert_eq!(data.len(), 2);
    assert_eq!(data[1].positions, tris[1].positions);
    assert_eq!(data[1].material_index, 5);
}
