use eruptrace::bih::BihNodeData;
use eruptrace::materials::{Material, MaterialType};
use eruptrace::mesh::{Mesh, Point2, Point3, Triangle};
use eruptrace::scene::{concat_images, get_image_data, get_image_data_checked, move_to_front, EncodedImage, Scene};

const IDENTITY: [u32; 16] = [
    0x3f80_0000, 0, 0, 0, 0, 0x3f80_0000, 0, 0, 0, 0, 0x3f80_0000, 0, 0, 0, 0, 0x3f80_0000,
];

fn encode(width: u32, height: u32, pixels: Vec<u8>, format: image::ImageFormat) -> Vec<u8> {
    let img = image::RgbaImage::from_raw(width, height, pixels).unwrap();
    let mut out = std::io::Cursor::new(Vec::new());
    img.write_to(&mut out, format).unwrap();
    out.into_inner()
}

fn png(width: u32, height: u32, pixels: Vec<u8>) -> Vec<u8> {
    encode(width, height, pixels, image::ImageFormat::Png)
}

fn file(extension: Option<&str>, bytes: Vec<u8>) -> EncodedImage {
    EncodedImage { extension: extension.map(|e| e.to_string()), bytes }
}

#[test]
fn images_are_decoded_and_put_one_after_the_other() {
    let a = vec![1, 2, 3, 255, 4, 5, 6, 255];
    let b = vec![9, 8, 7, 6];
    let images = vec![file(Some("png"), png(2, 1, a.clone())), file(Some("PNG"), png(1, 1, b.clone()))];
    let data = get_image_data(&images);
    assert_eq!(get_image_data_checked(&images), Some(data.clone()));
    let mut expected = a.clone();
    expected.extend(b);
    assert_eq!(data, expected);
    // The encoded bytes are not handed back as they are.
    assert_ne!(data, [images[0].bytes.clone(), images[1].bytes.clone()].concat());
}

#[test]
fn undecodable_image_gives_none() {
    let images = vec![file(Some("png"), png(1, 1, vec![0, 0, 0, 0])), file(Some("png"), vec![1, 2, 3, 4, 5])];
    assert_eq!(get_image_data_checked(&images), None);
    assert_eq!(get_image_data_checked(&vec![]), Some(vec![]));
    assert_eq!(get_image_data(&vec![]), Vec::<u8>::new());
}

#[test]
fn images_go_by_their_extension() {
    let bytes = png(1, 1, vec![1, 2, 3, 4]);
    assert_eq!(get_image_data_checked(&vec![file(Some("aPnG"), bytes.clone())]), Some(vec![1, 2, 3, 4]));
    assert_eq!(get_image_data_checked(&vec![file(Some("jpg"), bytes.clone())]), None);
    assert_eq!(get_image_data_checked(&vec![file(Some("pngx"), bytes.clone())]), None);
    assert_eq!(get_image_data_checked(&vec![file(Some("p\u{e9}g"), bytes.clone())]), None);
    assert_eq!(get_image_data_checked(&vec![file(None, bytes)]), None);
    // Other formats that the image crate reads are read too, by their extension.
    let bmp = encode(1, 1, vec![5, 6, 7, 255], image::ImageFormat::Bmp);
    assert_eq!(get_image_data_checked(&vec![file(Some("bmp"), bmp.clone())]), Some(vec![5, 6, 7, 255]));
    assert_eq!(get_image_data_checked(&vec![file(Some("png"), bmp)]), None);
}

#[test]
fn images_concatenate_in_order() {
    assert_eq!(concat_images(vec![vec![1, 2], vec![], vec![3]]), vec![1, 2, 3]);
}

fn strings(v: &[&str]) -> Vec<String> {
    v.iter().map(|s| s.to_string()).collect()
}

#[test]
fn first_texture_moves_to_the_front() {
    let mut names = strings(&["earth", "sky", "moon"]);
    let mut paths = strings(&["t/earth.png", "t/sky.png", "t/moon.png"]);
    assert!(move_to_front(&mut names, &mut paths, "sky"));
    assert_eq!(names, strings(&["sky", "earth", "moon"]));
    assert_eq!(paths, strings(&["t/sky.png", "t/earth.png", "t/moon.png"]));
    assert!(!move_to_front(&mut names, &mut paths, "sun"));
    assert_eq!(names, strings(&["sky", "earth", "moon"]));
    assert!(move_to_front(&mut names, &mut paths, "sky"));
    assert_eq!(names, strings(&["sky", "earth", "moon"]));
}

fn p(x: i32, y: i32, z: i32) -> Point3 {
    Point3 { x, y, z }
}

fn quad(offset: i32, material_index: u32) -> Mesh {
    Mesh {
        positions: vec![p(offset, 0, 0), p(offset + 1, 0, 0), p(offset + 1, 1, 0), p(offset, 1, 0)],
        normals: vec![p(0, 0, 1); 4],
        texcoords: vec![Point2 { x: 0, y: 0 }; 4],
        indices: vec![0, 1, 2, 2, 3, 0],
        transform: IDENTITY,
        material_index,
    }
}

#[test]
fn scene_collects_triangles_and_builds_the_hierarchy() {
    let material = Material {
        material_type: MaterialType::Diffusive,
        texture_index: 0,
        normal_map_index: 0,
        parameter_bits: 1.0f32.to_bits(),
    };
    // The third mesh is placed 100 units up its x axis by its transform; its
    // triangles are handed over where the transform puts them.
    let mut shifted = quad(20, 2);
    shifted.transform[12] = 100.0f32.to_bits();
    let meshes = vec![quad(0, 0), quad(10, 1), shifted.clone()];
    let world: Vec<Vec<Triangle>> = meshes
        .iter()
        .map(|m| {
            let dx = if m.transform == IDENTITY { 0 } else { 100 };
            m.triangles()
                .into_iter()
                .map(|t| Triangle { positions: t.positions.map(|q| p(q.x + dx, q.y, q.z)), ..t })
                .collect()
        })
        .collect();
    let scene = Scene::assemble(
        meshes,
        world,
        vec![material],
        strings(&["sky.png"]),
        strings(&["default.png", "bumpy.png"]),
    );
    assert_eq!(scene.meshes.len(), 3);
    // The meshes keep their own coordinates and their transforms.
    assert_eq!(scene.meshes[2].positions, shifted.positions);
    assert_eq!(scene.meshes[2].transform, shifted.transform);
    assert_eq!(scene.triangles.len(), 6);
    // The triangles are the moved ones.
    for t in scene.triangles.iter().filter(|t| t.material_index == 2) {
        assert!(t.positions.iter().all(|q| q.x >= 120));
    }
    let held: usize = scene
        .bih
        .0
        .iter()
        .map(|n| match n.data {
            BihNodeData::Leaf { count, .. } => count,
            _ => 0,
        })
        .sum();
    assert_eq!(held, 6);
    for m in 0..3u32 {
        assert_eq!(scene.triangles.iter().filter(|t| t.material_index == m).count(), 2);
    }
    let nodes = scene.bih.0.len();
    let buffers = scene.create_buffers();
    assert_eq!(buffers.n_textures, 1);
    assert_eq!(buffers.n_normal_maps, 2);
    // The count handed to the ray tracer is the number of meshes.
    assert_eq!(buffers.n_triangles, 3);
    assert_eq!(buffers.triangles.len(), 6);
    assert_eq!(buffers.materials.len(), 1);
    assert_eq!(buffers.bih.len(), nodes);
}
