//! What the scene description holds, as far as the scene is built from it: its
//! image tables, its table of materials and its list of meshes, each entry as its
//! JSON value gives it, and the choices that building the scene makes of them.
use vstd::prelude::*;

use crate::materials::{
    is_first_position, kind_name_of, name_index_of, name_view, parameter_of, Material, MaterialDesc, MaterialType,
};
use crate::mesh::{json_indices, Mesh, MeshDesc};
use crate::scene::{can_move_to_front, move_to_front, string_views};
use crate::seqs::swapped;
use crate::json::{
    array_of, lists_view, member, member_of, number_lists, number_lists_of, number_member, number_text_of, numbers,
    numbers_of, object_of, parsed_json, string_member, string_of, u64_of, JsonValue,
};

verus! {

/// An entry of an image table: its name, and the file that it names when its value
/// is a string.
#[derive(Clone, Debug)]
pub struct ImageEntry {
    pub name: String,
    pub file: Option<String>,
}

/// The names of all the entries of an image table, in order.
pub open spec fn entry_names(entries: Seq<ImageEntry>) -> Seq<String> {
    entries.map_values(|e: ImageEntry| e.name)
}

/// The files of the entries whose value is a string, in order.
pub open spec fn entry_files(entries: Seq<ImageEntry>) -> Seq<String>
    decreases entries.len(),
{
    if entries.len() == 0 {
        Seq::empty()
    } else {
        let rest = entry_files(entries.drop_last());
        match entries.last().file {
            Some(f) => rest.push(f),
            None => rest,
        }
    }
}

/// The images of one kind: the names of all the entries, the files of those whose
/// value is a string, and whether the entry that goes first was there.
pub struct ImageTable {
    pub names: Vec<String>,
    pub files: Vec<String>,
    pub has_first: bool,
}

/// The image table of the description: the names of all its entries and the files
/// of those whose value is a string, each in order; then, if an entry is called
/// `first_name`, the first such name and the file at its position are exchanged with
/// the first name and the first file.
pub fn image_table(entries: &Vec<ImageEntry>, first_name: &str) -> (t: ImageTable)
    requires
        can_move_to_front(entry_names(entries@), entry_files(entries@), first_name@),
    ensures
        t.has_first == exists|i: int| 0 <= i < entries.len() && #[trigger] entries@[i].name@ == first_name@,
        t.has_first ==> exists|i: int|
            #[trigger] is_first_position(entry_names(entries@), first_name@, i) && string_views(t.names@)
                == swapped(string_views(entry_names(entries@)), 0, i) && string_views(t.files@) == swapped(
                string_views(entry_files(entries@)),
                0,
                i,
            ),
        t.has_first ==> t.names@[0]@ == first_name@,
        !t.has_first ==> t.names@ == entry_names(entries@) && t.files@ == entry_files(entries@),
{
    let mut names: Vec<String> = Vec::new();
    let mut files: Vec<String> = Vec::new();
    let mut i: usize = 0;
    while i < entries.len()
        invariant
            i <= entries.len(),
            names@ == entry_names(entries@.subrange(0, i as int)),
            files@ == entry_files(entries@.subrange(0, i as int)),
        decreases entries.len() - i,
    {
        let entry = &entries[i];
        names.push(entry.name.clone());
        match &entry.file {
            Some(f) => files.push(f.clone()),
            None => {},
        }
        proof {
            let p = entries@.subrange(0, i as int + 1);
            assert(p.drop_last() =~= entries@.subrange(0, i as int));
            assert(names@ =~= entry_names(p));
        }
        i = i + 1;
    }
    proof {
        assert(entries@.subrange(0, entries.len() as int) =~= entries@);
    }
    let ghost listed = names@;
    let has_first = move_to_front(&mut names, &mut files, first_name);
    proof {
        if has_first {
            let i = choose|i: int| 0 <= i < listed.len() && #[trigger] listed[i]@ == first_name@;
            assert(listed[i] == entries@[i].name);
        } else {
            assert forall|i: int| 0 <= i < entries.len() implies #[trigger] entries@[i].name@ != first_name@ by {
                assert(listed[i] == entries@[i].name);
            }
        }
    }
    ImageTable { names, files, has_first }
}

/// Whether `image_table` can take these entries: if an entry is called
/// `first_name`, the position of the first such entry is also a position among the
/// files.
pub fn image_table_fits(entries: &Vec<ImageEntry>, first_name: &str) -> (ok: bool)
    ensures
        ok == can_move_to_front(entry_names(entries@), entry_files(entries@), first_name@),
{
    let target = first_name.to_owned();
    let mut first: Option<usize> = None;
    let mut n_files: usize = 0;
    let mut i: usize = 0;
    while i < entries.len()
        invariant
            i <= entries.len(),
            target@ == first_name@,
            n_files == entry_files(entries@.subrange(0, i as int)).len(),
            n_files <= i,
            first matches Some(k) ==> is_first_position(entry_names(entries@), first_name@, k as int),
            first is None ==> forall|j: int| 0 <= j < i ==> (#[trigger] entries@[j]).name@ != first_name@,
        decreases entries.len() - i,
    {
        let entry = &entries[i];
        if first.is_none() && entry.name == target {
            proof {
                assert(entry_names(entries@)[i as int] == entries@[i as int].name);
                assert forall|j: int| 0 <= j < i implies (#[trigger] entry_names(entries@)[j])@ != first_name@ by {
                    assert(entry_names(entries@)[j] == entries@[j].name);
                }
            }
            first = Some(i);
        }
        if entry.file.is_some() {
            n_files = n_files + 1;
        }
        proof {
            assert(entries@.subrange(0, i as int + 1).drop_last() =~= entries@.subrange(0, i as int));
        }
        i = i + 1;
    }
    proof {
        assert(entries@.subrange(0, entries.len() as int) =~= entries@);
    }
    match first {
        Some(k) => {
            proof {
                assert forall|j: int| #[trigger] is_first_position(entry_names(entries@), first_name@, j) implies j
                    < entry_files(entries@).len() || k >= n_files by {
                    crate::materials::lemma_first_position_unique(entry_names(entries@), first_name@, j, k as int);
                }
            }
            k < n_files
        },
        None => {
            proof {
                assert forall|j: int| !#[trigger] is_first_position(entry_names(entries@), first_name@, j) by {
                    if 0 <= j < entries.len() {
                        assert(entry_names(entries@)[j] == entries@[j].name);
                    }
                }
            }
            true
        },
    }
}

/// An entry of the table of materials: its name, and what it describes when its
/// value is an object.
#[derive(Clone, Debug)]
pub struct MaterialEntry {
    pub name: String,
    pub desc: Option<MaterialDesc>,
}

/// The names of all the entries of the table of materials, in order.
pub open spec fn material_entry_names(entries: Seq<MaterialEntry>) -> Seq<String> {
    entries.map_values(|e: MaterialEntry| e.name)
}

/// The descriptions of the entries whose value is an object, in order.
pub open spec fn material_descs(entries: Seq<MaterialEntry>) -> Seq<MaterialDesc>
    decreases entries.len(),
{
    if entries.len() == 0 {
        Seq::empty()
    } else {
        let rest = material_descs(entries.drop_last());
        match entries.last().desc {
            Some(d) => rest.push(d),
            None => rest,
        }
    }
}

/// The entry is not an object, or it names a type of material.
pub open spec fn names_a_type(entry: MaterialEntry) -> bool {
    entry.desc matches Some(d) ==> MaterialType::from_name(kind_name_of(d)) is Some
}

/// `m` is the material that `desc` describes, with its images found among
/// `texture_names` and `normal_map_names`.
pub open spec fn describes(m: Material, desc: MaterialDesc, texture_names: Seq<String>, normal_map_names: Seq<String>) -> bool {
    &&& Some(m.material_type) == MaterialType::from_name(kind_name_of(desc))
    &&& m.texture_index == name_index_of(texture_names, name_view(desc.texture))
    &&& m.normal_map_index == name_index_of(normal_map_names, name_view(desc.normal_map))
    &&& m.parameter_bits == parameter_of(m.material_type, desc)
}

/// The materials of the description: the names of all the entries, in order, and
/// the material of each entry whose value is an object, in order. Every such entry
/// must name a type of material.
pub fn material_table(
    entries: &Vec<MaterialEntry>,
    texture_names: &Vec<String>,
    normal_map_names: &Vec<String>,
) -> (r: (Vec<String>, Vec<Material>))
    requires
        forall|i: int| 0 <= i < entries.len() ==> names_a_type(#[trigger] entries@[i]),
    ensures
        r.0@ == material_entry_names(entries@),
        r.1.len() == material_descs(entries@).len(),
        forall|j: int|
            0 <= j < r.1.len() ==> describes(
                #[trigger] r.1@[j],
                material_descs(entries@)[j],
                texture_names@,
                normal_map_names@,
            ),
{
    let mut names: Vec<String> = Vec::new();
    let mut materials: Vec<Material> = Vec::new();
    let mut i: usize = 0;
    while i < entries.len()
        invariant
            i <= entries.len(),
            forall|k: int| 0 <= k < entries.len() ==> names_a_type(#[trigger] entries@[k]),
            names@ == material_entry_names(entries@.subrange(0, i as int)),
            materials.len() == material_descs(entries@.subrange(0, i as int)).len(),
            forall|j: int|
                0 <= j < materials.len() ==> describes(
                    #[trigger] materials@[j],
                    material_descs(entries@.subrange(0, i as int))[j],
                    texture_names@,
                    normal_map_names@,
                ),
        decreases entries.len() - i,
    {
        let entry = &entries[i];
        let ghost before = materials@;
        names.push(entry.name.clone());
        proof {
            assert(names_a_type(entries@[i as int]));
        }
        match &entry.desc {
            Some(d) => {
                let m = Material::from_json(d, texture_names, normal_map_names);
                materials.push(m);
            },
            None => {},
        }
        proof {
            let p = entries@.subrange(0, i as int + 1);
            let q = entries@.subrange(0, i as int);
            assert(p.drop_last() =~= q);
            assert(names@ =~= material_entry_names(p));
            assert forall|j: int| 0 <= j < materials.len() implies describes(
                #[trigger] materials@[j],
                material_descs(p)[j],
                texture_names@,
                normal_map_names@,
            ) by {
                if j < before.len() {
                    assert(materials@[j] == before[j]);
                    assert(material_descs(p)[j] == material_descs(q)[j]);
                }
            }
        }
        i = i + 1;
    }
    proof {
        assert(entries@.subrange(0, entries.len() as int) =~= entries@);
    }
    (names, materials)
}

/// The descriptions of the entries of the list of meshes that are objects, in order.
pub open spec fn mesh_descs(entries: Seq<Option<MeshDesc>>) -> Seq<MeshDesc>
    decreases entries.len(),
{
    if entries.len() == 0 {
        Seq::empty()
    } else {
        let rest = mesh_descs(entries.drop_last());
        match entries.last() {
            Some(d) => rest.push(d),
            None => rest,
        }
    }
}

/// `m` is the mesh that `desc` describes, with its material found among
/// `material_names`.
pub open spec fn mesh_describes(m: Mesh, desc: MeshDesc, material_names: Seq<String>) -> bool {
    &&& m.positions@ == desc.positions@
    &&& m.normals@ == desc.normals@
    &&& m.texcoords@ == desc.texcoords@
    &&& m.indices@ == json_indices(desc.indices@)
    &&& m.transform == desc.transform
    &&& m.material_index == name_index_of(material_names, name_view(desc.material))
}

/// The meshes of the description: none when its list of meshes is missing or is not
/// a list, else the mesh of each entry that is an object, in order.
pub fn scene_meshes(entries: Option<Vec<Option<MeshDesc>>>, material_names: &Vec<String>) -> (meshes: Vec<Mesh>)
    ensures
        entries is None ==> meshes.len() == 0,
        entries matches Some(v) ==> meshes.len() == mesh_descs(v@).len() && forall|j: int|
            0 <= j < meshes.len() ==> mesh_describes(#[trigger] meshes@[j], mesh_descs(v@)[j], material_names@),
{
    let mut meshes: Vec<Mesh> = Vec::new();
    match entries {
        None => meshes,
        Some(v) => {
            let ghost q = v@;
            let mut waiting = v;
            let mut rest: Vec<Option<MeshDesc>> = Vec::new();
            // Take the entries off the back, so that taking them off `rest` in turn
            // visits them from the first on.
            while waiting.len() > 0
                invariant
                    q == waiting@ + rest@.reverse(),
                decreases waiting.len(),
            {
                match waiting.pop() {
                    Some(e) => {
                        rest.push(e);
                        proof {
                            assert(q =~= waiting@ + rest@.reverse());
                        }
                    },
                    None => {},
                }
            }
            proof {
                assert(q =~= rest@.reverse());
            }
            let ghost n = q.len();
            while rest.len() > 0
                invariant
                    n == q.len(),
                    rest@.len() <= n,
                    forall|j: int| 0 <= j < rest@.len() ==> #[trigger] rest@[j] == q[n - 1 - j],
                    meshes.len() == mesh_descs(q.subrange(0, n - rest@.len())).len(),
                    forall|j: int|
                        0 <= j < meshes.len() ==> mesh_describes(
                            #[trigger] meshes@[j],
                            mesh_descs(q.subrange(0, n - rest@.len()))[j],
                            material_names@,
                        ),
                decreases rest.len(),
            {
                let ghost done = n - rest@.len();
                let ghost before = meshes@;
                match rest.pop() {
                    Some(e) => {
                        proof {
                            assert(e == q[done]);
                            assert(q.subrange(0, done + 1).drop_last() =~= q.subrange(0, done));
                        }
                        match e {
                            Some(desc) => {
                                let m = Mesh::from_json(desc, material_names);
                                meshes.push(m);
                            },
                            None => {},
                        }
                        proof {
                            let p = q.subrange(0, done + 1);
                            let pq = q.subrange(0, done);
                            assert forall|j: int| 0 <= j < meshes.len() implies mesh_describes(
                                #[trigger] meshes@[j],
                                mesh_descs(p)[j],
                                material_names@,
                            ) by {
                                if j < before.len() {
                                    assert(meshes@[j] == before[j]);
                                    assert(mesh_descs(p)[j] == mesh_descs(pq)[j]);
                                }
                            }
                        }
                    },
                    None => {},
                }
            }
            proof {
                assert(q.subrange(0, n as int) =~= q);
            }
            meshes
        },
    }
}



/// What the description gives of a material, as it is written: the strings of its
/// `type`, `texture` and `normal_map` members, and the texts of its `fuzz`, `index`
/// and `intensity` members, each where the member is a string or a number.
#[derive(Clone, Debug)]
pub struct MaterialText {
    pub kind_name: Option<String>,
    pub texture: Option<String>,
    pub normal_map: Option<String>,
    pub fuzz: Option<String>,
    pub index: Option<String>,
    pub intensity: Option<String>,
}

/// An entry of the table of materials as it is written: its name, and what it
/// describes when its value is an object.
#[derive(Clone, Debug)]
pub struct MaterialTextEntry {
    pub name: String,
    pub desc: Option<MaterialText>,
}

/// The members of a mesh's `transform` object as they are written: the texts of
/// the numbers of its `position`, `rotation` and `scale` members, each where it is
/// a list.
#[derive(Clone, Debug)]
pub struct TransformText {
    pub position: Option<Vec<String>>,
    pub rotation: Option<Vec<String>>,
    pub scale: Option<Vec<String>>,
}

/// What the description gives of a mesh, as it is written: for each entry of its
/// `positions`, `normals` and `texcoords` lists that is a list, the texts of its
/// numbers; each value of its `indices` list as an unsigned integer where it is
/// one; its `transform` where that is an object; and the string of its `material`.
#[derive(Clone, Debug)]
pub struct MeshText {
    pub positions: Vec<Vec<String>>,
    pub normals: Vec<Vec<String>>,
    pub texcoords: Vec<Vec<String>>,
    pub indices: Vec<Option<u64>>,
    pub transform: Option<TransformText>,
    pub material: Option<String>,
}

/// The entries of a scene description: its two image tables, its table of
/// materials, and its list of meshes where it has one (`None` for an entry that is
/// not an object).
pub struct SceneEntries {
    pub textures: Vec<ImageEntry>,
    pub normal_maps: Vec<ImageEntry>,
    pub materials: Vec<MaterialTextEntry>,
    pub meshes: Option<Vec<Option<MeshText>>>,
}

/// A `TransformText` seen through sequences.
pub struct TransformView {
    pub position: Option<Seq<String>>,
    pub rotation: Option<Seq<String>>,
    pub scale: Option<Seq<String>>,
}

/// A `MeshText` seen through sequences.
pub struct MeshTextView {
    pub positions: Seq<Seq<String>>,
    pub normals: Seq<Seq<String>>,
    pub texcoords: Seq<Seq<String>>,
    pub indices: Seq<Option<u64>>,
    pub transform: Option<TransformView>,
    pub material: Option<String>,
}

/// `SceneEntries` seen through sequences.
pub struct SceneEntriesView {
    pub textures: Seq<ImageEntry>,
    pub normal_maps: Seq<ImageEntry>,
    pub materials: Seq<MaterialTextEntry>,
    pub meshes: Option<Seq<Option<MeshTextView>>>,
}

pub open spec fn opt_list_view(v: Option<Vec<String>>) -> Option<Seq<String>> {
    match v {
        Some(l) => Some(l@),
        None => None,
    }
}

pub open spec fn transform_view(t: TransformText) -> TransformView {
    TransformView {
        position: opt_list_view(t.position),
        rotation: opt_list_view(t.rotation),
        scale: opt_list_view(t.scale),
    }
}

pub open spec fn mesh_text_view(m: MeshText) -> MeshTextView {
    MeshTextView {
        positions: lists_view(m.positions@),
        normals: lists_view(m.normals@),
        texcoords: lists_view(m.texcoords@),
        indices: m.indices@,
        transform: match m.transform {
            Some(t) => Some(transform_view(t)),
            None => None,
        },
        material: m.material,
    }
}

pub open spec fn opt_mesh_view(m: Option<MeshText>) -> Option<MeshTextView> {
    match m {
        Some(x) => Some(mesh_text_view(x)),
        None => None,
    }
}

pub open spec fn scene_entries_view(e: SceneEntries) -> SceneEntriesView {
    SceneEntriesView {
        textures: e.textures@,
        normal_maps: e.normal_maps@,
        materials: e.materials@,
        meshes: match e.meshes {
            Some(v) => Some(v@.map_values(|m: Option<MeshText>| opt_mesh_view(m))),
            None => None,
        },
    }
}

/// The image entries of the members of an image table: each member's name, and its
/// value where that is a string.
pub open spec fn image_entries_of(members: Seq<(String, JsonValue)>) -> Seq<ImageEntry> {
    members.map_values(|m: (String, JsonValue)| ImageEntry { name: m.0, file: string_of(Some(m.1)) })
}

/// The material that the members of a material object write.
pub open spec fn material_text_of(members: Seq<(String, JsonValue)>) -> MaterialText {
    MaterialText {
        kind_name: string_of(member_of(members, "type"@)),
        texture: string_of(member_of(members, "texture"@)),
        normal_map: string_of(member_of(members, "normal_map"@)),
        fuzz: number_text_of(member_of(members, "fuzz"@)),
        index: number_text_of(member_of(members, "index"@)),
        intensity: number_text_of(member_of(members, "intensity"@)),
    }
}

/// The material entries of the members of the table of materials: each member's
/// name, and the material that its value writes where that is an object.
pub open spec fn material_entries_of(members: Seq<(String, JsonValue)>) -> Seq<MaterialTextEntry> {
    members.map_values(
        |m: (String, JsonValue)|
            MaterialTextEntry {
                name: m.0,
                desc: match object_of(Some(m.1)) {
                    Some(o) => Some(material_text_of(o)),
                    None => None,
                },
            },
    )
}

/// The numbers of the member called `key` where it is a list: `Some(None)` where
/// it is not a list, `None` where it is a list that holds something other than a
/// number.
pub open spec fn vector_member_of(members: Seq<(String, JsonValue)>, key: Seq<char>) -> Option<Option<Seq<String>>> {
    match array_of(member_of(members, key)) {
        Some(items) => match numbers_of(items) {
            Some(n) => Some(Some(n)),
            None => None,
        },
        None => Some(None),
    }
}

/// The transform that a mesh's `transform` member writes: `Some(None)` where it is
/// not an object, `None` where one of its vectors holds something other than a
/// number.
pub open spec fn transform_of(v: Option<JsonValue>) -> Option<Option<TransformView>> {
    match object_of(v) {
        Some(t) => match (
            vector_member_of(t, "position"@),
            vector_member_of(t, "rotation"@),
            vector_member_of(t, "scale"@),
        ) {
            (Some(p), Some(r), Some(s)) => Some(Some(TransformView { position: p, rotation: r, scale: s })),
            _ => None,
        },
        None => Some(None),
    }
}

/// A mesh's transform is read member by member: its position, rotation and scale
/// are the texts of the numbers of the transform object's members called
/// `position`, `rotation` and `scale`, each where that member is a list, and absent
/// where it is not.
pub proof fn lemma_transform_reads_its_members(v: Option<JsonValue>)
    requires
        object_of(v) is Some,
        transform_of(v) matches Some(Some(_)),
    ensures
        ({
            let o = object_of(v)->0;
            let t = transform_of(v)->0->0;
            &&& array_of(member_of(o, "position"@)) matches Some(items) ==> t.position == numbers_of(items)
            &&& array_of(member_of(o, "rotation"@)) matches Some(items) ==> t.rotation == numbers_of(items)
            &&& array_of(member_of(o, "scale"@)) matches Some(items) ==> t.scale == numbers_of(items)
            &&& array_of(member_of(o, "position"@)) is None ==> t.position is None
            &&& array_of(member_of(o, "rotation"@)) is None ==> t.rotation is None
            &&& array_of(member_of(o, "scale"@)) is None ==> t.scale is None
        }),
{
}

/// The lists of numbers of the member called `key`, which must be a list.
pub open spec fn lists_member_of(members: Seq<(String, JsonValue)>, key: Seq<char>) -> Option<Seq<Seq<String>>> {
    match array_of(member_of(members, key)) {
        Some(items) => number_lists_of(items),
        None => None,
    }
}

/// The mesh that the members of a mesh object write; `None` where its `positions`,
/// `normals`, `texcoords` or `indices` member is not a list, or where a list that
/// should hold numbers holds something else.
pub open spec fn mesh_text_of(members: Seq<(String, JsonValue)>) -> Option<MeshTextView> {
    match (
        lists_member_of(members, "positions"@),
        lists_member_of(members, "normals"@),
        lists_member_of(members, "texcoords"@),
        array_of(member_of(members, "indices"@)),
        transform_of(member_of(members, "transform"@)),
    ) {
        (Some(p), Some(n), Some(t), Some(i), Some(tr)) => Some(
            MeshTextView {
                positions: p,
                normals: n,
                texcoords: t,
                indices: i.map_values(|x: JsonValue| u64_of(x)),
                transform: tr,
                material: string_of(member_of(members, "material"@)),
            },
        ),
        _ => None,
    }
}

/// A mesh is read member by member: its positions, normals and texture coordinates
/// are the number lists of the mesh object's members of those names, its indices
/// the values of its `indices` member as unsigned integers, its transform the one
/// that its `transform` member writes, and its material the string of its
/// `material` member.
pub proof fn lemma_mesh_reads_its_members(o: Seq<(String, JsonValue)>)
    requires
        mesh_text_of(o) is Some,
    ensures
        ({
            let m = mesh_text_of(o)->0;
            &&& array_of(member_of(o, "positions"@)) matches Some(items) && number_lists_of(items) == Some(m.positions)
            &&& array_of(member_of(o, "normals"@)) matches Some(items) && number_lists_of(items) == Some(m.normals)
            &&& array_of(member_of(o, "texcoords"@)) matches Some(items) && number_lists_of(items) == Some(m.texcoords)
            &&& array_of(member_of(o, "indices"@)) matches Some(items) && m.indices.len() == items.len() && forall|i: int|
                0 <= i < items.len() ==> #[trigger] m.indices[i] == u64_of(items[i])
            &&& Some(m.transform) == transform_of(member_of(o, "transform"@))
            &&& m.material == string_of(member_of(o, "material"@))
        }),
{
}

/// The meshes of the entries of the list of meshes: the mesh of each entry that is
/// an object, `None` for each other entry; `None` in all where the mesh of an
/// object entry is not well written.
pub open spec fn mesh_texts_of(items: Seq<JsonValue>) -> Option<Seq<Option<MeshTextView>>>
    decreases items.len(),
{
    if items.len() == 0 {
        Some(Seq::empty())
    } else {
        match (mesh_texts_of(items.drop_last()), items.last()) {
            (Some(r), JsonValue::Object(o)) => match mesh_text_of(o@) {
                Some(m) => Some(r.push(Some(m))),
                None => None,
            },
            (Some(r), _) => Some(r.push(None)),
            _ => None,
        }
    }
}

/// The entries of the scene description `v`: the members of its `textures`,
/// `normal_maps` and `materials` objects, and the entries of its `meshes` list where
/// it has one. `None` where one of the three is not an object, or a mesh is not well
/// written.
pub open spec fn scene_entries_of(v: JsonValue) -> Option<SceneEntriesView> {
    match v {
        JsonValue::Object(top) => match (
            object_of(member_of(top@, "textures"@)),
            object_of(member_of(top@, "normal_maps"@)),
            object_of(member_of(top@, "materials"@)),
        ) {
            (Some(t), Some(n), Some(m)) => {
                let meshes = match array_of(member_of(top@, "meshes"@)) {
                    Some(items) => match mesh_texts_of(items) {
                        Some(ms) => Some(Some(ms)),
                        None => None,
                    },
                    None => Some(None),
                };
                match meshes {
                    Some(ms) => Some(
                        SceneEntriesView {
                            textures: image_entries_of(t),
                            normal_maps: image_entries_of(n),
                            materials: material_entries_of(m),
                            meshes: ms,
                        },
                    ),
                    None => None,
                }
            },
            _ => None,
        },
        _ => None,
    }
}

/// The image entries of the members of an image table.
fn image_entries(members: &Vec<(String, JsonValue)>) -> (r: Vec<ImageEntry>)
    ensures
        r@ == image_entries_of(members@),
{
    let mut out: Vec<ImageEntry> = Vec::new();
    let mut i: usize = 0;
    while i < members.len()
        invariant
            i <= members.len(),
            out@ == image_entries_of(members@.subrange(0, i as int)),
        decreases members.len() - i,
    {
        let (name, value) = &members[i];
        let file = match value {
            JsonValue::String(f) => Some(f.clone()),
            _ => None,
        };
        out.push(ImageEntry { name: name.clone(), file });
        proof {
            assert(out@ =~= image_entries_of(members@.subrange(0, i as int + 1)));
        }
        i = i + 1;
    }
    proof {
        assert(members@.subrange(0, members.len() as int) =~= members@);
    }
    out
}

/// The material that the members of a material object write.
fn material_text(members: &Vec<(String, JsonValue)>) -> (r: MaterialText)
    ensures
        r == material_text_of(members@),
{
    MaterialText {
        kind_name: string_member(members, "type"),
        texture: string_member(members, "texture"),
        normal_map: string_member(members, "normal_map"),
        fuzz: number_member(members, "fuzz"),
        index: number_member(members, "index"),
        intensity: number_member(members, "intensity"),
    }
}

/// The material entries of the members of the table of materials.
fn material_entries(members: &Vec<(String, JsonValue)>) -> (r: Vec<MaterialTextEntry>)
    ensures
        r@ == material_entries_of(members@),
{
    let mut out: Vec<MaterialTextEntry> = Vec::new();
    let mut i: usize = 0;
    while i < members.len()
        invariant
            i <= members.len(),
            out@ == material_entries_of(members@.subrange(0, i as int)),
        decreases members.len() - i,
    {
        let (name, value) = &members[i];
        let desc = match value {
            JsonValue::Object(o) => Some(material_text(o)),
            _ => None,
        };
        out.push(MaterialTextEntry { name: name.clone(), desc });
        proof {
            assert(out@ =~= material_entries_of(members@.subrange(0, i as int + 1)));
        }
        i = i + 1;
    }
    proof {
        assert(members@.subrange(0, members.len() as int) =~= members@);
    }
    out
}

/// The numbers of the member called `key` where it is a list.
fn vector_member(members: &Vec<(String, JsonValue)>, key: &str) -> (r: Option<Option<Vec<String>>>)
    ensures
        match r {
            Some(v) => vector_member_of(members@, key@) == Some(opt_list_view(v)),
            None => vector_member_of(members@, key@) is None,
        },
{
    match member(members, key) {
        Some(JsonValue::Array(items)) => match numbers(items) {
            Some(n) => Some(Some(n)),
            None => None,
        },
        _ => Some(None),
    }
}

/// The transform that a mesh's `transform` member writes.
fn transform_text(v: Option<&JsonValue>) -> (r: Option<Option<TransformText>>)
    ensures
        match r {
            Some(Some(t)) => transform_of(
                match v {
                    Some(x) => Some(*x),
                    None => None,
                },
            ) == Some(Some(transform_view(t))),
            Some(None) => transform_of(
                match v {
                    Some(x) => Some(*x),
                    None => None,
                },
            ) == Some(None::<TransformView>),
            None => transform_of(
                match v {
                    Some(x) => Some(*x),
                    None => None,
                },
            ) is None,
        },
{
    match v {
        Some(JsonValue::Object(t)) => {
            let position = vector_member(t, "position");
            let rotation = vector_member(t, "rotation");
            let scale = vector_member(t, "scale");
            match (position, rotation, scale) {
                (Some(p), Some(r), Some(s)) => Some(Some(TransformText { position: p, rotation: r, scale: s })),
                _ => None,
            }
        },
        _ => Some(None),
    }
}

/// The lists of numbers of the member called `key`, which must be a list.
fn lists_member(members: &Vec<(String, JsonValue)>, key: &str) -> (r: Option<Vec<Vec<String>>>)
    ensures
        match r {
            Some(v) => lists_member_of(members@, key@) == Some(lists_view(v@)),
            None => lists_member_of(members@, key@) is None,
        },
{
    match member(members, key) {
        Some(JsonValue::Array(items)) => number_lists(items),
        _ => None,
    }
}

/// The unsigned integers of a list of values, where they are such.
fn indices_of(items: &Vec<JsonValue>) -> (r: Vec<Option<u64>>)
    ensures
        r@ == items@.map_values(|x: JsonValue| u64_of(x)),
{
    let mut out: Vec<Option<u64>> = Vec::new();
    let mut i: usize = 0;
    while i < items.len()
        invariant
            i <= items.len(),
            out@ == items@.subrange(0, i as int).map_values(|x: JsonValue| u64_of(x)),
        decreases items.len() - i,
    {
        let value = match &items[i] {
            JsonValue::Number { as_u64, .. } => *as_u64,
            _ => None,
        };
        out.push(value);
        proof {
            assert(out@ =~= items@.subrange(0, i as int + 1).map_values(|x: JsonValue| u64_of(x)));
        }
        i = i + 1;
    }
    proof {
        assert(items@.subrange(0, items.len() as int) =~= items@);
    }
    out
}

/// The mesh that the members of a mesh object write.
fn mesh_text(members: &Vec<(String, JsonValue)>) -> (r: Option<MeshText>)
    ensures
        match r {
            Some(m) => mesh_text_of(members@) == Some(mesh_text_view(m)),
            None => mesh_text_of(members@) is None,
        },
{
    let positions = lists_member(members, "positions");
    let normals = lists_member(members, "normals");
    let texcoords = lists_member(members, "texcoords");
    let indices = match member(members, "indices") {
        Some(JsonValue::Array(items)) => Some(indices_of(items)),
        _ => None,
    };
    let transform = transform_text(member(members, "transform"));
    let material = string_member(members, "material");
    match (positions, normals, texcoords, indices, transform) {
        (Some(p), Some(n), Some(t), Some(i), Some(tr)) => Some(
            MeshText { positions: p, normals: n, texcoords: t, indices: i, transform: tr, material },
        ),
        _ => None,
    }
}

proof fn lemma_mesh_texts_fail_extends(items: Seq<JsonValue>, k: int)
    requires
        0 <= k <= items.len(),
        mesh_texts_of(items.subrange(0, k)) is None,
    ensures
        mesh_texts_of(items) is None,
    decreases items.len() - k,
{
    if k < items.len() {
        assert(items.subrange(0, k + 1).drop_last() =~= items.subrange(0, k));
        lemma_mesh_texts_fail_extends(items, k + 1);
    } else {
        assert(items.subrange(0, k) =~= items);
    }
}

/// The meshes of the entries of the list of meshes.
fn mesh_texts(items: &Vec<JsonValue>) -> (r: Option<Vec<Option<MeshText>>>)
    ensures
        match r {
            Some(v) => mesh_texts_of(items@) == Some(v@.map_values(|m: Option<MeshText>| opt_mesh_view(m))),
            None => mesh_texts_of(items@) is None,
        },
{
    let mut out: Vec<Option<MeshText>> = Vec::new();
    let mut i: usize = 0;
    while i < items.len()
        invariant
            i <= items.len(),
            mesh_texts_of(items@.subrange(0, i as int)) == Some(
                out@.map_values(|m: Option<MeshText>| opt_mesh_view(m)),
            ),
        decreases items.len() - i,
    {
        proof {
            assert(items@.subrange(0, i as int + 1).drop_last() =~= items@.subrange(0, i as int));
        }
        let ghost before = out@;
        match &items[i] {
            JsonValue::Object(o) => match mesh_text(o) {
                Some(m) => out.push(Some(m)),
                None => {
                    proof {
                        lemma_mesh_texts_fail_extends(items@, i as int + 1);
                    }
                    return None;
                },
            },
            _ => out.push(None),
        }
        proof {
            assert(out@.map_values(|m: Option<MeshText>| opt_mesh_view(m)) =~= before.map_values(
                |m: Option<MeshText>| opt_mesh_view(m),
            ).push(opt_mesh_view(out@.last())));
        }
        i = i + 1;
    }
    proof {
        assert(items@.subrange(0, items.len() as int) =~= items@);
    }
    Some(out)
}

/// The entries of the scene description `v`: the members of its `textures`,
/// `normal_maps` and `materials` objects and the entries of its `meshes` list, in
/// order; `None` where the description is not well written.
pub fn scene_entries(v: &JsonValue) -> (r: Option<SceneEntries>)
    ensures
        match r {
            Some(e) => scene_entries_of(*v) == Some(scene_entries_view(e)),
            None => scene_entries_of(*v) is None,
        },
{
    let top = match v {
        JsonValue::Object(top) => top,
        _ => return None,
    };
    let textures = match member(top, "textures") {
        Some(JsonValue::Object(t)) => image_entries(t),
        _ => return None,
    };
    let normal_maps = match member(top, "normal_maps") {
        Some(JsonValue::Object(n)) => image_entries(n),
        _ => return None,
    };
    let materials = match member(top, "materials") {
        Some(JsonValue::Object(m)) => material_entries(m),
        _ => return None,
    };
    let meshes = match member(top, "meshes") {
        Some(JsonValue::Array(items)) => match mesh_texts(items) {
            Some(ms) => Some(ms),
            None => return None,
        },
        _ => None,
    };
    Some(SceneEntries { textures, normal_maps, materials, meshes })
}

/// The entries of the scene description that `text` holds: `None` where the text
/// is not JSON or the description is not well written.
pub fn scene_description(text: &str) -> (r: Option<SceneEntries>)
    ensures
        match r {
            Some(e) => parsed_json(text@) matches Some(v) && scene_entries_of(v) == Some(scene_entries_view(e)),
            None => match parsed_json(text@) {
                Some(v) => scene_entries_of(v) is None,
                None => true,
            },
        },
{
    match crate::json::parse_document(text) {
        Some(v) => scene_entries(&v),
        None => None,
    }
}

} // verus!
