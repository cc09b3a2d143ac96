use eruptrace::materials::{
    get_material_data, name_index, position_of, Material, MaterialDesc, MaterialType, ONE_BITS, ZERO_BITS,
};

fn names(v: &[&str]) -> Vec<String> {
    v.iter().map(|s| s.to_string()).collect()
}

#[test]
fn material_types_by_name_in_any_case() {
    assert_eq!(MaterialType::parse("diffusive"), Some(MaterialType::Diffusive));
    assert_eq!(MaterialType::parse("Reflective"), Some(MaterialType::Reflective));
    assert_eq!(MaterialType::parse("REFRACTIVE"), Some(MaterialType::Refractive));
    assert_eq!(MaterialType::parse("eMiTtInG"), Some(MaterialType::Emitting));
    assert_eq!(MaterialType::parse("emit"), None);
    assert_eq!(MaterialType::parse(""), None);
    assert_eq!(MaterialType::parse("diffusiv\u{e9}"), None);
    assert_eq!(MaterialType::parse("diffusive "), None);
    assert_eq!(MaterialType::from("Emitting"), MaterialType::Emitting);
    assert_eq!(MaterialType::Refractive.to_u32(), 2);
}

#[test]
fn names_are_found_at_their_first_position() {
    let list = names(&["sky", "earth", "sky"]);
    assert_eq!(position_of(&list, "sky"), Some(0));
    assert_eq!(position_of(&list, "earth"), Some(1));
    assert_eq!(position_of(&list, "moon"), None);
    assert_eq!(name_index(&list, Some("earth")), 1);
    assert_eq!(name_index(&list, Some("moon")), 0);
    assert_eq!(name_index(&list, None), 0);
}

fn desc(kind: &str) -> MaterialDesc {
    MaterialDesc {
        kind_name: Some(kind.to_string()),
        texture: Some("earth".to_string()),
        normal_map: Some("bumpy".to_string()),
        fuzz_bits: None,
        index_bits: None,
        intensity_bits: None,
    }
}

#[test]
fn material_from_description() {
    let textures = names(&["sky", "earth"]);
    let normal_maps = names(&["default", "bumpy"]);
    let m = Material::from_json(&desc("diffusive"), &textures, &normal_maps);
    assert_eq!(m.material_type, MaterialType::Diffusive);
    assert_eq!(m.texture_index, 1);
    assert_eq!(m.normal_map_index, 1);
    assert_eq!(f32::from_bits(m.parameter_bits), 1.0);
    let with_fuzz = MaterialDesc { fuzz_bits: Some(0.25f32.to_bits()), ..desc("reflective") };
    assert_eq!(f32::from_bits(Material::from_json(&with_fuzz, &textures, &normal_maps).parameter_bits), 0.25);
    assert_eq!(Material::from_json(&desc("reflective"), &textures, &normal_maps).parameter_bits, ZERO_BITS);
    assert_eq!(Material::from_json(&desc("refractive"), &textures, &normal_maps).parameter_bits, ONE_BITS);
    let bright = MaterialDesc { intensity_bits: Some(5.0f32.to_bits()), ..desc("Emitting") };
    let m = Material::from_json(&bright, &textures, &normal_maps);
    assert_eq!(m.material_type, MaterialType::Emitting);
    assert_eq!(f32::from_bits(m.parameter_bits), 5.0);
    let plain = MaterialDesc { texture: None, normal_map: Some("none".to_string()), ..desc("diffusive") };
    let m = Material::from_json(&plain, &textures, &normal_maps);
    assert_eq!((m.texture_index, m.normal_map_index), (0, 0));
}

#[test]
fn constants_are_the_bits_of_one_and_zero() {
    assert_eq!(ONE_BITS, 1.0f32.to_bits());
    assert_eq!(ZERO_BITS, 0.0f32.to_bits());
}

#[test]
fn materials_in_gpu_layout() {
    let textures = names(&["sky"]);
    let m = Material::from_json(&desc("refractive"), &textures, &textures);
    let data = get_material_data(vec![m, m]);
    assert_eq!(data.len(), 2);
    assert_eq!(data[0].material_type, 2);
    assert_eq!(data[0].parameter_bits, ONE_BITS);
}
