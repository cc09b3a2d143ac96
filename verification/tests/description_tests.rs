use eruptrace::description::{
    image_table, image_table_fits, material_table, scene_description, scene_meshes, ImageEntry, MaterialEntry,
};
use eruptrace::json::{member, parse_document, JsonValue};
use eruptrace::materials::{MaterialDesc, MaterialType};
use eruptrace::mesh::{MeshDesc, Point2, Point3};

const IDENTITY: [u32; 16] = [
    0x3f80_0000, 0, 0, 0, 0, 0x3f80_0000, 0, 0, 0, 0, 0x3f80_0000, 0, 0, 0, 0, 0x3f80_0000,
];

fn image(name: &str, file: Option<&str>) -> ImageEntry {
    ImageEntry { name: name.to_string(), file: file.map(|f| f.to_string()) }
}

fn strings(v: &[&str]) -> Vec<String> {
    v.iter().map(|s| s.to_string()).collect()
}

#[test]
fn image_table_keeps_string_values_and_puts_the_first_name_first() {
    let entries = vec![image("earth", Some("e.png")), image("sky", Some("s.png")), image("moon", None)];
    assert!(image_table_fits(&entries, "sky"));
    let t = image_table(&entries, "sky");
    assert!(t.has_first);
    assert_eq!(t.names, strings(&["sky", "earth", "moon"]));
    assert_eq!(t.files, strings(&["s.png", "e.png"]));
}

#[test]
fn image_table_exchanges_names_and_files_at_the_same_position() {
    let entries = vec![image("earth", Some("e.png")), image("sky", Some("s.png")), image("moon", Some("m.png"))];
    let t = image_table(&entries, "sky");
    assert!(t.has_first);
    assert_eq!(t.names, strings(&["sky", "earth", "moon"]));
    assert_eq!(t.files, strings(&["s.png", "e.png", "m.png"]));
}

#[test]
fn image_table_without_the_first_name_keeps_the_order() {
    let entries = vec![image("b", Some("b.png")), image("c", None), image("a", Some("a.png"))];
    let t = image_table(&entries, "default");
    assert!(!t.has_first);
    assert_eq!(t.names, strings(&["b", "c", "a"]));
    assert_eq!(t.files, strings(&["b.png", "a.png"]));
}

#[test]
fn image_table_fits_only_when_the_first_name_has_a_file_position() {
    let entries = vec![image("a", None), image("b", None), image("sky", Some("s.png"))];
    assert!(!image_table_fits(&entries, "sky"));
    assert!(image_table_fits(&entries, "a"));
    assert!(image_table_fits(&entries, "missing"));
    assert!(image_table_fits(&vec![], "sky"));
}

fn material(kind: &str, texture: &str) -> MaterialDesc {
    MaterialDesc {
        kind_name: Some(kind.to_string()),
        texture: Some(texture.to_string()),
        normal_map: None,
        fuzz_bits: None,
        index_bits: None,
        intensity_bits: None,
    }
}

#[test]
fn material_table_names_every_entry_and_builds_the_objects() {
    let textures = strings(&["sky", "earth"]);
    let normal_maps = strings(&["default"]);
    let entries = vec![
        MaterialEntry { name: "ground".to_string(), desc: Some(material("diffusive", "earth")) },
        MaterialEntry { name: "comment".to_string(), desc: None },
        MaterialEntry { name: "lamp".to_string(), desc: Some(material("emitting", "sky")) },
    ];
    let (names, materials) = material_table(&entries, &textures, &normal_maps);
    assert_eq!(names, strings(&["ground", "comment", "lamp"]));
    assert_eq!(materials.len(), 2);
    assert_eq!(materials[0].material_type, MaterialType::Diffusive);
    assert_eq!(materials[0].texture_index, 1);
    assert_eq!(materials[1].material_type, MaterialType::Emitting);
    assert_eq!(materials[1].texture_index, 0);
}

fn mesh(material: &str) -> MeshDesc {
    MeshDesc {
        positions: vec![Point3 { x: 0, y: 0, z: 0 }],
        normals: vec![Point3 { x: 0, y: 0, z: 1 }],
        texcoords: vec![Point2 { x: 0, y: 0 }],
        indices: vec![Some(0), Some(0), Some(0)],
        transform: IDENTITY,
        material: Some(material.to_string()),
    }
}

#[test]
fn meshes_are_the_object_entries_in_order() {
    let names = strings(&["ground", "comment", "lamp"]);
    let meshes = scene_meshes(Some(vec![Some(mesh("lamp")), None, Some(mesh("ground"))]), &names);
    assert_eq!(meshes.len(), 2);
    assert_eq!(meshes[0].material_index, 2);
    assert_eq!(meshes[1].material_index, 0);
    assert_eq!(meshes[0].indices, vec![0, 0, 0]);
    assert!(scene_meshes(None, &names).is_empty());
    assert!(scene_meshes(Some(vec![None]), &names).is_empty());
}

#[test]
fn scene_description_reads_the_entries_of_the_text() {
    let text = r#"{
        "textures": { "sky": "sky.png", "earth": "earth.png", "note": 3 },
        "normal_maps": { "default": "flat.png" },
        "materials": {
            "ground": { "type": "Diffusive", "texture": "earth", "fuzz": 0.25 },
            "comment": "not a material"
        },
        "meshes": [
            { "positions": [[0, 0, 0], [1.5, 0, 0], "skip"], "normals": [], "texcoords": [[0, 1]],
              "indices": [0, 1, -1, 2.5], "material": "ground",
              "transform": { "position": [1, 2, 3], "scale": "none" } },
            "not a mesh"
        ]
    }"#;
    let e = scene_description(text).unwrap();
    // Members come in the order in which serde_json lists them: by name.
    let names: Vec<&str> = e.textures.iter().map(|t| t.name.as_str()).collect();
    assert_eq!(names, vec!["earth", "note", "sky"]);
    assert_eq!(e.textures[0].file, Some("earth.png".to_string()));
    assert_eq!(e.textures[1].file, None);
    assert_eq!(e.normal_maps.len(), 1);
    assert_eq!(e.materials.len(), 2);
    assert_eq!(e.materials[0].name, "comment");
    assert!(e.materials[0].desc.is_none());
    let ground = e.materials[1].desc.clone().unwrap();
    assert_eq!(ground.kind_name, Some("Diffusive".to_string()));
    assert_eq!(ground.texture, Some("earth".to_string()));
    assert_eq!(ground.fuzz, Some("0.25".to_string()));
    assert_eq!(ground.index, None);
    let meshes = e.meshes.unwrap();
    assert_eq!(meshes.len(), 2);
    assert!(meshes[1].is_none());
    let m = meshes[0].clone().unwrap();
    assert_eq!(m.positions, vec![vec!["0".to_string(), "0".to_string(), "0".to_string()], vec![
        "1.5".to_string(),
        "0".to_string(),
        "0".to_string(),
    ]]);
    assert!(m.normals.is_empty());
    assert_eq!(m.indices, vec![Some(0), Some(1), None, None]);
    assert_eq!(m.material, Some("ground".to_string()));
    let t = m.transform.unwrap();
    assert_eq!(t.position, Some(vec!["1".to_string(), "2".to_string(), "3".to_string()]));
    assert_eq!(t.rotation, None);
    assert_eq!(t.scale, None);
}

#[test]
fn scene_description_refuses_badly_written_scenes() {
    // Not JSON.
    assert!(scene_description("{ textures: }").is_none());
    // A table that is not an object.
    assert!(scene_description(r#"{ "textures": [], "normal_maps": {}, "materials": {} }"#).is_none());
    // A position list that holds a string.
    assert!(scene_description(
        r#"{ "textures": {}, "normal_maps": {}, "materials": {},
             "meshes": [ { "positions": [[0, "x", 0]], "normals": [], "texcoords": [], "indices": [] } ] }"#
    )
    .is_none());
    // A mesh without an index list.
    assert!(scene_description(
        r#"{ "textures": {}, "normal_maps": {}, "materials": {},
             "meshes": [ { "positions": [], "normals": [], "texcoords": [] } ] }"#
    )
    .is_none());
    // No list of meshes is no meshes.
    let e = scene_description(r#"{ "textures": {}, "normal_maps": {}, "materials": {}, "meshes": 5 }"#).unwrap();
    assert!(e.meshes.is_none());
}

#[test]
fn json_documents_and_members() {
    let v = parse_document(r#"{ "b": 1, "a": [true, null, "s", 18446744073709551615] }"#).unwrap();
    let members = match &v {
        JsonValue::Object(m) => m,
        _ => panic!("an object"),
    };
    assert_eq!(members[0].0, "a");
    match member(members, "a") {
        Some(JsonValue::Array(items)) => {
            assert!(matches!(items[0], JsonValue::Bool(true)));
            assert!(matches!(items[1], JsonValue::Null));
            assert!(matches!(&items[3], JsonValue::Number { as_u64: Some(u64::MAX), .. }));
        }
        _ => panic!("a list"),
    }
    assert!(member(members, "c").is_none());
    assert!(parse_document("[1, 2").is_none());
}
