//! Materials, and how the scene description names them.
use vstd::prelude::*;

verus! {

/// `i` is the first position in `names` of a name equal to `name`.
pub open spec fn is_first_position(names: Seq<String>, name: Seq<char>, i: int) -> bool {
    &&& 0 <= i < names.len()
    &&& names[i]@ == name
    &&& forall|j: int| 0 <= j < i ==> names[j]@ != name
}

/// Where the scene description's reference `name` points among `names`: the first
/// position of an equal name, cut down to 32 bits, and 0 when there is no
/// reference or no such name.
pub open spec fn name_index_of(names: Seq<String>, name: Option<Seq<char>>) -> u32 {
    match name {
        Some(n) => {
            let i = choose|i: int| is_first_position(names, n, i);
            if is_first_position(names, n, i) {
                i as u32
            } else {
                0
            }
        },
        None => 0,
    }
}

/// A name has at most one first position in a list.
pub proof fn lemma_first_position_unique(names: Seq<String>, name: Seq<char>, i: int, j: int)
    requires
        is_first_position(names, name, i),
        is_first_position(names, name, j),
    ensures
        i == j,
{
}

/// The first position in `names` of a name equal to `name`, if there is one.
pub fn position_of(names: &Vec<String>, name: &str) -> (r: Option<usize>)
    ensures
        r matches Some(i) ==> is_first_position(names@, name@, i as int),
        r is None ==> forall|j: int| 0 <= j < names.len() ==> names@[j]@ != name@,
{
    let target = name.to_owned();
    let mut i: usize = 0;
    while i < names.len()
        invariant
            i <= names.len(),
            target@ == name@,
            forall|j: int| 0 <= j < i ==> names@[j]@ != name@,
        decreases names.len() - i,
    {
        if names[i] == target {
            return Some(i);
        }
        i = i + 1;
    }
    None
}

/// Where the reference `name` points among `names`: the first position of an equal
/// name, cut down to 32 bits, and 0 when there is no reference or no such name.
pub fn name_index(names: &Vec<String>, name: Option<&str>) -> (r: u32)
    ensures
        r == name_index_of(
            names@,
            match name {
                Some(n) => Some(n@),
                None => None,
            },
        ),
{
    match name {
        Some(n) => match position_of(names, n) {
            Some(i) => {
                proof {
                    let c = choose|k: int| is_first_position(names@, n@, k);
                    lemma_first_position_unique(names@, n@, i as int, c);
                    assert(is_first_position(names@, n@, c));
                }
                i as u32
            },
            None => 0,
        },
        None => 0,
    }
}

/// How light interacts with a material.
#[derive(Clone, Copy, Debug, PartialEq, Eq, Structural)]
pub enum MaterialType {
    Diffusive,
    Reflective,
    Refractive,
    Emitting,
}

/// The code of `c` with an upper-case ASCII letter turned into lower case.
pub open spec fn lower_code(c: int) -> int {
    if 65 <= c <= 90 {
        c + 32
    } else {
        c
    }
}

/// `s` reads as the lower-case word `w` once its upper-case ASCII letters are
/// turned into lower case. For the words of material types (lower-case ASCII
/// letters, none of them `k`) this is the same as `s.to_lowercase() == w`: no other
/// character lowers to such a letter.
pub open spec fn lowers_to(s: Seq<char>, w: Seq<u8>) -> bool {
    &&& s.len() == w.len()
    &&& forall|i: int| 0 <= i < s.len() ==> lower_code(s[i] as int) == w[i] as int
}

pub open spec fn diffusive_word() -> Seq<u8> {
    seq!['d' as u8, 'i' as u8, 'f' as u8, 'f' as u8, 'u' as u8, 's' as u8, 'i' as u8, 'v' as u8, 'e' as u8]
}

pub open spec fn reflective_word() -> Seq<u8> {
    seq!['r' as u8, 'e' as u8, 'f' as u8, 'l' as u8, 'e' as u8, 'c' as u8, 't' as u8, 'i' as u8, 'v' as u8, 'e' as u8]
}

pub open spec fn refractive_word() -> Seq<u8> {
    seq!['r' as u8, 'e' as u8, 'f' as u8, 'r' as u8, 'a' as u8, 'c' as u8, 't' as u8, 'i' as u8, 'v' as u8, 'e' as u8]
}

pub open spec fn emitting_word() -> Seq<u8> {
    seq!['e' as u8, 'm' as u8, 'i' as u8, 't' as u8, 't' as u8, 'i' as u8, 'n' as u8, 'g' as u8]
}

impl MaterialType {
    /// The number of the type in the GPU layout.
    pub open spec fn code(self) -> int {
        match self {
            MaterialType::Diffusive => 0,
            MaterialType::Reflective => 1,
            MaterialType::Refractive => 2,
            MaterialType::Emitting => 3,
        }
    }

    /// The type that `name` names, in any mix of upper and lower case.
    pub open spec fn from_name(name: Seq<char>) -> Option<MaterialType> {
        if lowers_to(name, diffusive_word()) {
            Some(MaterialType::Diffusive)
        } else if lowers_to(name, reflective_word()) {
            Some(MaterialType::Reflective)
        } else if lowers_to(name, refractive_word()) {
            Some(MaterialType::Refractive)
        } else if lowers_to(name, emitting_word()) {
            Some(MaterialType::Emitting)
        } else {
            None
        }
    }

    /// The number of the type in the GPU layout.
    pub fn to_u32(self) -> (r: u32)
        ensures
            r == self.code(),
    {
        match self {
            MaterialType::Diffusive => 0,
            MaterialType::Reflective => 1,
            MaterialType::Refractive => 2,
            MaterialType::Emitting => 3,
        }
    }

    /// The type that `name` names, in any mix of upper and lower case, or `None`
    /// when it names none.
    pub fn parse(name: &str) -> (r: Option<MaterialType>)
        ensures
            r == MaterialType::from_name(name@),
    {
        if !name.is_ascii() {
            proof {
                let i = choose|i: int| 0 <= i < name@.len() && !('\0' <= #[trigger] name@[i] <= '\u{7f}');
                assert(lower_code(name@[i] as int) == name@[i] as int);
                assert(!lowers_to(name@, diffusive_word())) by {
                    if name@.len() == diffusive_word().len() {
                        assert(diffusive_word()[i] as int <= 127);
                    }
                }
                assert(!lowers_to(name@, reflective_word())) by {
                    if name@.len() == reflective_word().len() {
                        assert(reflective_word()[i] as int <= 127);
                    }
                }
                assert(!lowers_to(name@, refractive_word())) by {
                    if name@.len() == refractive_word().len() {
                        assert(refractive_word()[i] as int <= 127);
                    }
                }
                assert(!lowers_to(name@, emitting_word())) by {
                    if name@.len() == emitting_word().len() {
                        assert(emitting_word()[i] as int <= 127);
                    }
                }
            }
            return None;
        }
        let bytes = name.as_bytes();
        proof {
            vstd::string::is_ascii_spec_bytes(name);
            assert forall|i: int| 0 <= i < bytes@.len() implies bytes@[i] as int == #[trigger] name@[i] as int by {
                assert('\0' <= name@[i] <= '\u{7f}');
            }
        }
        if lowers_to_word(bytes, &['d' as u8, 'i' as u8, 'f' as u8, 'f' as u8, 'u' as u8, 's' as u8, 'i' as u8, 'v' as u8, 'e' as u8]) {
            assert(lowers_to(name@, diffusive_word()));
            Some(MaterialType::Diffusive)
        } else if lowers_to_word(bytes, &['r' as u8, 'e' as u8, 'f' as u8, 'l' as u8, 'e' as u8, 'c' as u8, 't' as u8, 'i' as u8, 'v' as u8, 'e' as u8]) {
            Some(MaterialType::Reflective)
        } else if lowers_to_word(bytes, &['r' as u8, 'e' as u8, 'f' as u8, 'r' as u8, 'a' as u8, 'c' as u8, 't' as u8, 'i' as u8, 'v' as u8, 'e' as u8]) {
            Some(MaterialType::Refractive)
        } else if lowers_to_word(bytes, &['e' as u8, 'm' as u8, 'i' as u8, 't' as u8, 't' as u8, 'i' as u8, 'n' as u8, 'g' as u8]) {
            Some(MaterialType::Emitting)
        } else {
            None
        }
    }

    /// The type that `name` names, which must name one.
    pub fn from(name: &str) -> (r: MaterialType)
        requires
            MaterialType::from_name(name@) is Some,
        ensures
            Some(r) == MaterialType::from_name(name@),
    {
        // `name` names a type, so `parse` finds it.
        match MaterialType::parse(name) {
            Some(t) => t,
            None => MaterialType::Diffusive,
        }
    }
}

/// The bit pattern of the single-precision number 1.0.
pub const ONE_BITS: u32 = 0x3f80_0000u32;

/// The bit pattern of the single-precision number 0.0.
pub const ZERO_BITS: u32 = 0u32;

/// A material of the scene. `parameter_bits` holds the bit pattern of a
/// single-precision number whose role depends on the type:
/// - Diffusive: no function
/// - Reflective: fuzz
/// - Refractive: refractive index
/// - Emitting: intensity
#[derive(Clone, Copy, Debug, PartialEq, Eq, Structural)]
pub struct Material {
    pub material_type: MaterialType,
    pub texture_index: u32,
    pub normal_map_index: u32,
    pub parameter_bits: u32,
}

/// What the scene description gives of a material: the name of its type, the
/// names of its texture and normal map, and the bit patterns (as single-precision
/// numbers) of its `fuzz`, `index` and `intensity` entries where they are numbers.
#[derive(Clone, Debug)]
pub struct MaterialDesc {
    pub kind_name: Option<String>,
    pub texture: Option<String>,
    pub normal_map: Option<String>,
    pub fuzz_bits: Option<u32>,
    pub index_bits: Option<u32>,
    pub intensity_bits: Option<u32>,
}

/// An optional name seen as an optional sequence of characters.
pub open spec fn name_view(name: Option<String>) -> Option<Seq<char>> {
    match name {
        Some(n) => Some(n@),
        None => None,
    }
}

/// The type name of a description, the empty name when it has none.
pub open spec fn kind_name_of(desc: MaterialDesc) -> Seq<char> {
    match desc.kind_name {
        Some(n) => n@,
        None => Seq::empty(),
    }
}

/// The parameter of a material of type `t` described by `desc`: 1.0 for a diffusive
/// one, else its fuzz, index or intensity, with 0.0, 1.0 and 1.0 in their absence.
pub open spec fn parameter_of(t: MaterialType, desc: MaterialDesc) -> u32 {
    match t {
        MaterialType::Diffusive => ONE_BITS,
        MaterialType::Reflective => match desc.fuzz_bits {
            Some(v) => v,
            None => ZERO_BITS,
        },
        MaterialType::Refractive => match desc.index_bits {
            Some(v) => v,
            None => ONE_BITS,
        },
        MaterialType::Emitting => match desc.intensity_bits {
            Some(v) => v,
            None => ONE_BITS,
        },
    }
}

/// A reference points at the first name equal to it: where `name` first occurs at
/// position `i` of `names` (and `i` fits in 32 bits), it points at `i`; where it does
/// not occur, or there is no reference, at 0.
pub proof fn lemma_reference_points_at_first_name(names: Seq<String>, name: Seq<char>, i: int)
    ensures
        is_first_position(names, name, i) && i <= u32::MAX ==> name_index_of(names, Some(name)) == i,
        (forall|j: int| 0 <= j < names.len() ==> names[j]@ != name) ==> name_index_of(names, Some(name)) == 0,
        name_index_of(names, None) == 0,
{
    if is_first_position(names, name, i) {
        let c = choose|k: int| is_first_position(names, name, k);
        lemma_first_position_unique(names, name, i, c);
    }
}

/// A material's parameter is the number that its type names, where the description
/// gives it: the fuzz of a reflective material, the index of a refractive one, the
/// intensity of an emitting one, with 0.0, 1.0 and 1.0 where it does not; a
/// diffusive material's is 1.0. It reads no other member: two descriptions that
/// agree on the member that the type names give the same parameter.
pub proof fn lemma_parameter_reads_its_member(desc: MaterialDesc, other: MaterialDesc)
    ensures
        desc.fuzz_bits matches Some(v) ==> parameter_of(MaterialType::Reflective, desc) == v,
        desc.index_bits matches Some(v) ==> parameter_of(MaterialType::Refractive, desc) == v,
        desc.intensity_bits matches Some(v) ==> parameter_of(MaterialType::Emitting, desc) == v,
        desc.fuzz_bits is None ==> parameter_of(MaterialType::Reflective, desc) == ZERO_BITS,
        desc.index_bits is None ==> parameter_of(MaterialType::Refractive, desc) == ONE_BITS,
        desc.intensity_bits is None ==> parameter_of(MaterialType::Emitting, desc) == ONE_BITS,
        parameter_of(MaterialType::Diffusive, desc) == ONE_BITS,
        desc.fuzz_bits == other.fuzz_bits ==> parameter_of(MaterialType::Reflective, desc) == parameter_of(
            MaterialType::Reflective,
            other,
        ),
        desc.index_bits == other.index_bits ==> parameter_of(MaterialType::Refractive, desc) == parameter_of(
            MaterialType::Refractive,
            other,
        ),
        desc.intensity_bits == other.intensity_bits ==> parameter_of(MaterialType::Emitting, desc) == parameter_of(
            MaterialType::Emitting,
            other,
        ),
{
}

impl Material {
    /// The material that `desc` describes: its type by name, its texture and
    /// normal map by their positions among `texture_names` and
    /// `normal_map_names` (0 when absent), and its parameter as `parameter_of`
    /// says. The type name must name a type.
    pub fn from_json(desc: &MaterialDesc, texture_names: &Vec<String>, normal_map_names: &Vec<String>) -> (m:
        Material)
        requires
            MaterialType::from_name(kind_name_of(*desc)) is Some,
        ensures
            Some(m.material_type) == MaterialType::from_name(kind_name_of(*desc)),
            m.texture_index == name_index_of(texture_names@, name_view(desc.texture)),
            m.normal_map_index == name_index_of(normal_map_names@, name_view(desc.normal_map)),
            m.parameter_bits == parameter_of(m.material_type, *desc),
            m.material_type == MaterialType::Reflective ==> m.parameter_bits == match desc.fuzz_bits {
                Some(v) => v,
                None => ZERO_BITS,
            },
            m.material_type == MaterialType::Refractive ==> m.parameter_bits == match desc.index_bits {
                Some(v) => v,
                None => ONE_BITS,
            },
            m.material_type == MaterialType::Emitting ==> m.parameter_bits == match desc.intensity_bits {
                Some(v) => v,
                None => ONE_BITS,
            },
            m.material_type == MaterialType::Diffusive ==> m.parameter_bits == ONE_BITS,
    {
        let material_type = match &desc.kind_name {
            Some(n) => MaterialType::from(n.as_str()),
            None => MaterialType::from(""),
        };
        let texture_index = match &desc.texture {
            Some(n) => name_index(texture_names, Some(n.as_str())),
            None => name_index(texture_names, None),
        };
        let normal_map_index = match &desc.normal_map {
            Some(n) => name_index(normal_map_names, Some(n.as_str())),
            None => name_index(normal_map_names, None),
        };
        let parameter_bits = match material_type {
            MaterialType::Diffusive => ONE_BITS,
            MaterialType::Reflective => match desc.fuzz_bits {
                Some(v) => v,
                None => ZERO_BITS,
            },
            MaterialType::Refractive => match desc.index_bits {
                Some(v) => v,
                None => ONE_BITS,
            },
            MaterialType::Emitting => match desc.intensity_bits {
                Some(v) => v,
                None => ONE_BITS,
            },
        };
        Material { material_type, texture_index, normal_map_index, parameter_bits }
    }

    /// The material in the layout that the GPU reads.
    pub fn into_uniform(self) -> (u: MaterialStd140)
        ensures
            u.material_type == self.material_type.code(),
            u.texture_index == self.texture_index,
            u.normal_map_index == self.normal_map_index,
            u.parameter_bits == self.parameter_bits,
    {
        MaterialStd140 {
            material_type: self.material_type.to_u32(),
            texture_index: self.texture_index,
            normal_map_index: self.normal_map_index,
            parameter_bits: self.parameter_bits,
        }
    }
}

/// A material as the GPU reads it.
#[derive(Clone, Copy, Debug, PartialEq, Eq, Structural)]
pub struct MaterialStd140 {
    pub material_type: u32,
    pub texture_index: u32,
    pub normal_map_index: u32,
    pub parameter_bits: u32,
}

/// The materials, in order, in the layout that the GPU reads.
pub fn get_material_data(materials: Vec<Material>) -> (data: Vec<MaterialStd140>)
    ensures
        data.len() == materials.len(),
        forall|i: int|
            0 <= i < data.len() ==> {
                &&& (#[trigger] data[i]).material_type == materials[i].material_type.code()
                &&& data[i].texture_index == materials[i].texture_index
                &&& data[i].normal_map_index == materials[i].normal_map_index
                &&& data[i].parameter_bits == materials[i].parameter_bits
            },
{
    let mut data: Vec<MaterialStd140> = Vec::new();
    let mut i: usize = 0;
    while i < materials.len()
        invariant
            i <= materials.len(),
            data.len() == i,
            forall|j: int|
                0 <= j < i ==> {
                    &&& (#[trigger] data[j]).material_type == materials[j].material_type.code()
                    &&& data[j].texture_index == materials[j].texture_index
                    &&& data[j].normal_map_index == materials[j].normal_map_index
                    &&& data[j].parameter_bits == materials[j].parameter_bits
                },
        decreases materials.len() - i,
    {
        data.push(materials[i].into_uniform());
        i = i + 1;
    }
    data
}

/// Whether the ASCII bytes `bytes` read as the lower-case word `word` once their
/// upper-case letters are turned into lower case.
fn lowers_to_word(bytes: &[u8], word: &[u8]) -> (r: bool)
    ensures
        r == (bytes@.len() == word@.len() && forall|i: int|
            0 <= i < bytes@.len() ==> lower_code(#[trigger] bytes@[i] as int) == word@[i] as int),
{
    if bytes.len() != word.len() {
        return false;
    }
    let mut i: usize = 0;
    while i < bytes.len()
        invariant
            i <= bytes@.len(),
            bytes@.len() == word@.len(),
            forall|j: int| 0 <= j < i ==> lower_code(#[trigger] bytes@[j] as int) == word@[j] as int,
        decreases bytes.len() - i,
    {
        let b = bytes[i];
        let lowered: u32 = if 65 <= b && b <= 90 {
            b as u32 + 32
        } else {
            b as u32
        };
        if lowered != word[i] as u32 {
            return false;
        }
        i = i + 1;
    }
    true
}

} // verus!
