use eruptrace::args::EruptraceArgs;
use eruptrace::geometry::{
    draw_commands, index_data, mesh_draws, mesh_metas, vertex_data, MeshDraw, MeshMeta, PushConstants, Vertex,
};
use eruptrace::gui::{batch_meshes, grown_buffer_size, DeferredQueue, DrawRange};
use eruptrace::mesh::{Mesh, Point2, Point3};
use eruptrace::push_constants::{RtFlags, RtPushConstants};

const IDENTITY: [u32; 16] = [
    0x3f80_0000, 0, 0, 0, 0, 0x3f80_0000, 0, 0, 0, 0, 0x3f80_0000, 0, 0, 0, 0, 0x3f80_0000,
];

#[test]
fn flags_switch_on_and_off_independently() {
    let mut flags = RtFlags::empty();
    assert_eq!(flags.bits(), 0);
    flags.set(RtFlags::use_bih(), true);
    assert!(flags.contains(RtFlags::use_bih()));
    assert!(!flags.contains(RtFlags::render_normals()));
    flags.set(RtFlags::render_normals(), true);
    assert_eq!(flags.bits(), 3);
    flags.set(RtFlags::use_bih(), false);
    assert!(!flags.contains(RtFlags::use_bih()));
    assert!(flags.contains(RtFlags::render_normals()));
    flags.remove(RtFlags::render_normals());
    flags.insert(RtFlags::use_bih());
    assert_eq!(flags.bits(), 1);
    let pc = RtPushConstants { n_triangles: 12, flags };
    assert_eq!(pc.flags.bits(), 1);
}

#[test]
fn deferred_queue_counts_down_frames() {
    let mut q = DeferredQueue::new();
    q.push(0, "a");
    q.push(2, "b");
    q.push(1, "c");
    assert_eq!(q.len(), 3);
    assert_eq!(q.spin(), vec!["a"]);
    assert_eq!(q.len(), 2);
    assert_eq!(q.spin(), vec!["c"]);
    assert_eq!(q.spin(), vec!["b"]);
    assert_eq!(q.len(), 0);
    assert_eq!(q.spin(), Vec::<&str>::new());
}

#[test]
fn deferred_resource_is_released_once_after_its_frames() {
    let frames = 3;
    let mut q = DeferredQueue::new();
    q.push(frames, "old buffer");
    for _ in 0..frames {
        assert_eq!(q.spin(), Vec::<&str>::new());
        assert_eq!(q.len(), 1);
    }
    assert_eq!(q.spin(), vec!["old buffer"]);
    for _ in 0..5 {
        assert_eq!(q.spin(), Vec::<&str>::new());
    }
    assert_eq!(q.len(), 0);
}

#[test]
fn deferred_queue_keeps_order_among_equals() {
    let mut q = DeferredQueue::new();
    q.push(1, 10);
    q.push(0, 20);
    q.push(1, 30);
    q.push(0, 40);
    assert_eq!(q.spin(), vec![20, 40]);
    assert_eq!(q.spin(), vec![10, 30]);
}

#[test]
fn gui_meshes_share_one_vertex_and_one_index_list() {
    let meshes = vec![
        (vec!['a', 'b', 'c'], vec![0, 1, 2]),
        (vec!['d', 'e'], vec![1, 0, 1, 1]),
        (vec![], vec![]),
        (vec!['f'], vec![0]),
    ];
    let (vertices, indices, ranges) = batch_meshes(meshes);
    assert_eq!(vertices, vec!['a', 'b', 'c', 'd', 'e', 'f']);
    assert_eq!(indices, vec![0, 1, 2, 1, 0, 1, 1, 0]);
    assert_eq!(ranges, vec![
        DrawRange { vertex_offset: 0, first_index: 0, index_count: 3 },
        DrawRange { vertex_offset: 3, first_index: 3, index_count: 4 },
        DrawRange { vertex_offset: 5, first_index: 7, index_count: 0 },
        DrawRange { vertex_offset: 5, first_index: 7, index_count: 1 },
    ]);
    // Each range picks out its mesh.
    let r = ranges[1];
    let picked: Vec<char> = indices[r.first_index as usize..(r.first_index + r.index_count) as usize]
        .iter()
        .map(|&i| vertices[r.vertex_offset as usize + i as usize])
        .collect();
    assert_eq!(picked, vec!['e', 'd', 'e', 'e']);
}

fn p(x: i32) -> Point3 {
    Point3 { x, y: 0, z: 0 }
}

fn mesh(n_positions: usize, n_normals: usize, n_texcoords: usize, indices: Vec<u32>, material_index: u32) -> Mesh {
    Mesh {
        positions: (0..n_positions as i32).map(p).collect(),
        normals: (0..n_normals as i32).map(|i| p(100 + i)).collect(),
        texcoords: (0..n_texcoords as i32).map(|i| Point2 { x: i, y: -i }).collect(),
        indices,
        transform: IDENTITY,
        material_index,
    }
}

#[test]
fn geometry_pass_buffers_and_draws() {
    let meshes = vec![mesh(3, 3, 3, vec![0, 1, 2], 4), mesh(4, 2, 3, vec![0, 1, 1, 0, 1, 1], 9)];
    let vertices = vertex_data(&meshes);
    // The second mesh gives as many vertices as its shortest attribute list.
    assert_eq!(vertices.len(), 5);
    assert_eq!(vertices[4], Vertex { position: p(1), normal: p(101), texcoord: Point2 { x: 1, y: -1 } });
    assert_eq!(index_data(&meshes), vec![0, 1, 2, 0, 1, 1, 0, 1, 1]);
    let draws = mesh_draws(&meshes);
    assert_eq!(draws, vec![
        MeshDraw { vertex_offset: 0, first_index: 0, index_count: 3, transform: IDENTITY, material_index: 4 },
        MeshDraw { vertex_offset: 3, first_index: 3, index_count: 6, transform: IDENTITY, material_index: 9 },
    ]);
    let commands = draw_commands(&draws);
    assert_eq!(commands.len(), 2);
    assert_eq!(commands[1].push_constants, PushConstants { mesh_meta_index: 1 });
    assert_eq!((commands[1].index_count, commands[1].first_index, commands[1].vertex_offset), (6, 3, 3));
}

#[test]
fn arguments_hold_the_scene_path() {
    let args = EruptraceArgs::new("scenes/cornell".to_string());
    assert_eq!(args.scene_path(), "scenes/cornell");
}

#[test]
fn old_meshes_are_retired_in_order() {
    let mut q = DeferredQueue::new();
    q.push(0, "texture");
    let mut meshes = vec!["m1", "m2", "m3"];
    q.retire_all(2, &mut meshes);
    assert!(meshes.is_empty());
    assert_eq!(q.len(), 4);
    assert_eq!(q.spin(), vec!["texture"]);
    assert_eq!(q.spin(), Vec::<&str>::new());
    assert_eq!(q.spin(), vec!["m1", "m2", "m3"]);
}

#[test]
fn buffers_grow_only_when_too_small() {
    assert_eq!(grown_buffer_size(10, 20, 100), Some(200));
    assert_eq!(grown_buffer_size(10, 20, 200), None);
    assert_eq!(grown_buffer_size(10, 20, 500), None);
    assert_eq!(grown_buffer_size(0, 20, 0), None);
}

#[test]
fn mesh_metas_carry_transform_and_material() {
    let mut moved = mesh(3, 3, 3, vec![0, 1, 2], 7);
    moved.transform[12] = 3.0f32.to_bits();
    let meshes = vec![mesh(3, 3, 3, vec![0, 1, 2], 4), moved.clone()];
    let metas = mesh_metas(&mesh_draws(&meshes));
    assert_eq!(metas, vec![
        MeshMeta { model_transform: IDENTITY, material_index: 4 },
        MeshMeta { model_transform: moved.transform, material_index: 7 },
    ]);
}
