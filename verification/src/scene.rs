//! A scene: meshes, their triangles with the hierarchy built over them, materials,
//! and the images that the materials refer to.
use vstd::prelude::*;

use crate::bih::{bih_build, get_bih_data, is_bih_of, leaf_total, Bih, BihNodeUniform};
use crate::materials::{get_material_data, is_first_position, position_of, Material, MaterialStd140};
use crate::mesh::{get_triangle_data, Mesh, Triangle, TriangleUniform};
use crate::seqs::rearranged;

verus! {

/// What the image crate makes of the bytes of a file whose path has the extension
/// `extension`: the pixels of the image as 8-bit RGBA, row by row, when the
/// extension names a format that the crate reads and the bytes hold an image in
/// that format. It names the result of these calls in turn:
/// `ImageFormat::from_extension` on the extension, `image::load_from_memory_with_format`
/// with the format found, `DynamicImage::into_rgba8` on the image, and
/// `ImageBuffer::into_raw` on the RGBA buffer; `None` where there is no extension,
/// the extension names no format, or the crate reports an error. The format is
/// given, so the crate's format-detection and decoding hooks take no part, and the
/// result depends on the extension and the bytes alone.
pub uninterp spec fn decoded_rgba8(extension: Option<Seq<char>>, bytes: Seq<u8>) -> Option<Seq<u8>>;

/// An optional string seen as an optional sequence of characters.
pub open spec fn opt_view(s: Option<String>) -> Option<Seq<char>> {
    match s {
        Some(t) => Some(t@),
        None => None,
    }
}

/// Decodes an image file with `ImageFormat::from_extension` and
/// `image::load_from_memory_with_format`, and converts it with
/// `DynamicImage::into_rgba8` and `ImageBuffer::into_raw`. Trusted: the result is
/// the one that `decoded_rgba8` names for this extension and these bytes.
#[verifier::external_body]
fn decode_rgba8(extension: &Option<String>, bytes: &[u8]) -> (r: Option<Vec<u8>>)
    ensures
        match r {
            Some(v) => decoded_rgba8(opt_view(*extension), bytes@) == Some(v@),
            None => decoded_rgba8(opt_view(*extension), bytes@) is None,
        },
{
    let format = match extension {
        Some(e) => image::ImageFormat::from_extension(e.as_str()),
        None => None,
    };
    match format {
        Some(f) => match image::load_from_memory_with_format(bytes, f) {
            Ok(img) => Some(img.into_rgba8().into_raw()),
            Err(_) => None,
        },
        None => None,
    }
}

/// An image file of the scene: the extension of its path, where it has a non-empty
/// one in UTF-8, and the bytes that the file holds.
#[derive(Clone, Debug)]
pub struct EncodedImage {
    pub extension: Option<String>,
    pub bytes: Vec<u8>,
}

/// The byte sequences of `s`, one after the other.
pub open spec fn concat_all(s: Seq<Seq<u8>>) -> Seq<u8>
    decreases s.len(),
{
    if s.len() == 0 {
        Seq::empty()
    } else {
        concat_all(s.drop_last()) + s.last()
    }
}

/// The views of a list of byte vectors.
pub open spec fn byte_views(v: Seq<Vec<u8>>) -> Seq<Seq<u8>> {
    v.map_values(|b: Vec<u8>| b@)
}

/// The pixels of several images, one after the other, as one array texture takes
/// them.
pub fn concat_images(images: Vec<Vec<u8>>) -> (data: Vec<u8>)
    ensures
        data@ == concat_all(byte_views(images@)),
{
    let mut data: Vec<u8> = Vec::new();
    let mut i: usize = 0;
    while i < images.len()
        invariant
            i <= images.len(),
            data@ == concat_all(byte_views(images@.subrange(0, i as int))),
        decreases images.len() - i,
    {
        let image = &images[i];
        let mut k: usize = 0;
        let ghost start = data@;
        while k < image.len()
            invariant
                k <= image.len(),
                data@ == start + image@.subrange(0, k as int),
            decreases image.len() - k,
        {
            data.push(image[k]);
            k = k + 1;
            proof {
                assert(data@ =~= start + image@.subrange(0, k as int));
            }
        }
        proof {
            assert(image@.subrange(0, k as int) =~= image@);
            let prefix = images@.subrange(0, i as int + 1);
            assert(byte_views(prefix).drop_last() =~= byte_views(images@.subrange(0, i as int)));
            assert(byte_views(prefix).last() == image@);
        }
        i = i + 1;
    }
    proof {
        assert(images@.subrange(0, images.len() as int) =~= images@);
    }
    data
}

/// The image can be used: the image crate reads it, going by its extension.
pub open spec fn image_ok(image: EncodedImage) -> bool {
    decoded_rgba8(opt_view(image.extension), image.bytes@) is Some
}

/// The decoded pixels of every image, in order.
pub open spec fn decoded_images(images: Seq<EncodedImage>) -> Seq<Seq<u8>> {
    images.map_values(|e: EncodedImage| decoded_rgba8(opt_view(e.extension), e.bytes@)->0)
}

/// Decodes each of the images and puts their RGBA pixels one after the other, as
/// one array texture takes them. Every image must be one that the image crate
/// reads: a file that it cannot read is a fault of the scene.
pub fn get_image_data(images: &Vec<EncodedImage>) -> (data: Vec<u8>)
    requires
        forall|i: int| 0 <= i < images.len() ==> image_ok(#[trigger] images@[i]),
    ensures
        data@ == concat_all(decoded_images(images@)),
{
    let mut decoded: Vec<Vec<u8>> = Vec::new();
    let mut i: usize = 0;
    while i < images.len()
        invariant
            i <= images.len(),
            decoded.len() == i,
            forall|k: int| 0 <= k < images.len() ==> image_ok(#[trigger] images@[k]),
            forall|j: int|
                0 <= j < i ==> decoded_rgba8(opt_view(images@[j].extension), #[trigger] images@[j].bytes@) == Some(
                    decoded@[j]@,
                ),
        decreases images.len() - i,
    {
        proof {
            assert(image_ok(images@[i as int]));
        }
        match decode_rgba8(&images[i].extension, images[i].bytes.as_slice()) {
            Some(pixels) => decoded.push(pixels),
            None => {
                // Every image decodes, so the crate reports no error here.
                proof {
                    assert(false);
                }
            },
        }
        i = i + 1;
    }
    proof {
        assert forall|j: int| 0 <= j < decoded.len() implies #[trigger] byte_views(decoded@)[j] == decoded_images(images@)[j] by {
            assert(decoded_rgba8(opt_view(images@[j].extension), images@[j].bytes@) == Some(decoded@[j]@));
        }
        assert(byte_views(decoded@) =~= decoded_images(images@));
    }
    concat_images(decoded)
}

/// Like `get_image_data`, but first checks each image and returns `None`, with
/// nothing decoded into the result, when one of them cannot be used.
pub fn get_image_data_checked(images: &Vec<EncodedImage>) -> (data: Option<Vec<u8>>)
    ensures
        data is Some <==> forall|i: int| 0 <= i < images.len() ==> image_ok(#[trigger] images@[i]),
        data matches Some(d) ==> d@ == concat_all(decoded_images(images@)),
{
    let mut i: usize = 0;
    while i < images.len()
        invariant
            i <= images.len(),
            forall|j: int| 0 <= j < i ==> image_ok(#[trigger] images@[j]),
        decreases images.len() - i,
    {
        if decode_rgba8(&images[i].extension, images[i].bytes.as_slice()).is_none() {
            proof {
                assert(!image_ok(images@[i as int]));
            }
            return None;
        }
        i = i + 1;
    }
    Some(get_image_data(images))
}

/// The views of a list of strings.
pub open spec fn string_views(v: Seq<String>) -> Seq<Seq<char>> {
    v.map_values(|s: String| s@)
}

/// `move_to_front` can run: if `first_name` is among `names`, the position of its
/// first occurrence is also a position of `paths`.
pub open spec fn can_move_to_front(names: Seq<String>, paths: Seq<String>, first_name: Seq<char>) -> bool {
    forall|i: int| #[trigger] is_first_position(names, first_name, i) ==> i < paths.len()
}

/// Exchanges the elements at `i` and `j` of a vector of strings.
fn swap_strings(v: &mut Vec<String>, i: usize, j: usize)
    requires
        i < old(v).len(),
        j < old(v).len(),
    ensures
        string_views(final(v)@) == crate::seqs::swapped(string_views(old(v)@), i as int, j as int),
{
    let a = v[i].clone();
    let b = v[j].clone();
    v.set(i, b);
    v.set(j, a);
    proof {
        assert(string_views(v@) =~= crate::seqs::swapped(string_views(old(v)@), i as int, j as int));
    }
}

/// Moves the entry called `first_name` to the front: if `first_name` occurs in
/// `names`, its first occurrence and the path at the same position are exchanged
/// with the first name and the first path. Returns whether it occurs.
pub fn move_to_front(names: &mut Vec<String>, paths: &mut Vec<String>, first_name: &str) -> (found: bool)
    requires
        can_move_to_front(old(names)@, old(paths)@, first_name@),
    ensures
        found == exists|i: int| 0 <= i < old(names).len() && #[trigger] old(names)@[i]@ == first_name@,
        found ==> exists|i: int|
            #[trigger] is_first_position(old(names)@, first_name@, i) && string_views(final(names)@)
                == crate::seqs::swapped(string_views(old(names)@), 0, i) && string_views(final(paths)@)
                == crate::seqs::swapped(string_views(old(paths)@), 0, i),
        found ==> final(names)@[0]@ == first_name@,
        !found ==> final(names)@ == old(names)@ && final(paths)@ == old(paths)@,
{
    match position_of(names, first_name) {
        Some(i) => {
            proof {
                assert(old(names)@[i as int]@ == first_name@);
            }
            swap_strings(paths, 0, i);
            swap_strings(names, 0, i);
            proof {
                assert(string_views(names@).len() == old(names)@.len());
                assert(string_views(names@)[0] == string_views(old(names)@)[i as int]);
                assert(names@[0]@ == string_views(names@)[0]);
                assert(names@[0]@ == first_name@);
            }
            true
        },
        None => false,
    }
}

/// The triangles of the lists, one list after the other.
pub open spec fn concat_triangles(lists: Seq<Vec<Triangle>>) -> Seq<Triangle>
    decreases lists.len(),
{
    if lists.len() == 0 {
        Seq::empty()
    } else {
        concat_triangles(lists.drop_last()) + lists.last()@
    }
}

/// A scene that is ready to be traced.
#[derive(Clone, Debug)]
pub struct Scene {
    pub meshes: Vec<Mesh>,
    pub triangles: Vec<Triangle>,
    pub materials: Vec<Material>,
    pub texture_paths: Vec<String>,
    pub normal_map_paths: Vec<String>,
    pub bih: Bih,
}

/// What the buffers of a scene hold, in the layouts that the GPU reads.
#[derive(Clone, Debug)]
pub struct SceneBuffers {
    pub materials: Vec<MaterialStd140>,
    pub triangles: Vec<TriangleUniform>,
    pub bih: Vec<BihNodeUniform>,
    pub n_textures: u32,
    pub n_normal_maps: u32,
    pub n_triangles: u32,
}

impl Scene {
    /// Puts a scene together from its meshes, kept in their own coordinates with
    /// their transforms, and the triangles of each mesh as its transform places them
    /// in the scene (`world_triangles`, one list per mesh): collects those triangles,
    /// list after list, and builds the hierarchy over them (which reorders them).
    pub fn assemble(
        meshes: Vec<Mesh>,
        world_triangles: Vec<Vec<Triangle>>,
        materials: Vec<Material>,
        texture_paths: Vec<String>,
        normal_map_paths: Vec<String>,
    ) -> (scene: Scene)
        requires
            concat_triangles(world_triangles@).len() <= usize::MAX,
        ensures
            scene.meshes@ == meshes@,
            scene.materials@ == materials@,
            scene.texture_paths@ == texture_paths@,
            scene.normal_map_paths@ == normal_map_paths@,
            (scene.triangles@, scene.bih.0@) == bih_build(concat_triangles(world_triangles@)),
            rearranged(
                scene.triangles@,
                concat_triangles(world_triangles@),
                0,
                concat_triangles(world_triangles@).len() as int,
            ),
            leaf_total(scene.bih.0@) == scene.triangles.len(),
            is_bih_of(scene.bih.0@, scene.triangles@),
    {
        let mut triangles: Vec<Triangle> = Vec::new();
        let mut i: usize = 0;
        while i < world_triangles.len()
            invariant
                i <= world_triangles.len(),
                concat_triangles(world_triangles@).len() <= usize::MAX,
                triangles@ == concat_triangles(world_triangles@.subrange(0, i as int)),
            decreases world_triangles.len() - i,
        {
            proof {
                lemma_concat_prefix(world_triangles@, i as int + 1);
                assert(world_triangles@.subrange(0, i as int + 1).drop_last() =~= world_triangles@.subrange(
                    0,
                    i as int,
                ));
            }
            let list = &world_triangles[i];
            let ghost start = triangles@;
            let mut t: usize = 0;
            while t < list.len()
                invariant
                    t <= list.len(),
                    *list == world_triangles@[i as int],
                    start.len() + list.len() <= usize::MAX,
                    triangles@ == start + list@.subrange(0, t as int),
                decreases list.len() - t,
            {
                triangles.push(list[t]);
                t = t + 1;
                proof {
                    assert(triangles@ =~= start + list@.subrange(0, t as int));
                }
            }
            proof {
                assert(list@.subrange(0, t as int) =~= list@);
            }
            i = i + 1;
        }
        proof {
            assert(world_triangles@.subrange(0, world_triangles.len() as int) =~= world_triangles@);
        }
        let bih = Bih::new(&mut triangles);
        Scene { meshes, triangles, materials, texture_paths, normal_map_paths, bih }
    }

    /// What the scene's buffers hold: its materials, triangles and nodes in the
    /// layouts that the GPU reads, how many textures and normal maps its image
    /// arrays hold, and, as the count of triangles that the ray tracer is told,
    /// the number of meshes.
    pub fn create_buffers(self) -> (buffers: SceneBuffers)
        ensures
            buffers.n_textures == self.texture_paths.len() as u32,
            buffers.n_normal_maps == self.normal_map_paths.len() as u32,
            buffers.n_triangles == self.meshes.len() as u32,
            buffers.materials.len() == self.materials.len(),
            forall|i: int|
                0 <= i < buffers.materials.len() ==> {
                    &&& (#[trigger] buffers.materials[i]).material_type
                        == self.materials[i].material_type.code()
                    &&& buffers.materials[i].texture_index == self.materials[i].texture_index
                    &&& buffers.materials[i].normal_map_index == self.materials[i].normal_map_index
                    &&& buffers.materials[i].parameter_bits == self.materials[i].parameter_bits
                },
            buffers.triangles.len() == self.triangles.len(),
            forall|i: int|
                0 <= i < buffers.triangles.len() ==> {
                    &&& (#[trigger] buffers.triangles[i]).positions == self.triangles[i].positions
                    &&& buffers.triangles[i].normals == self.triangles[i].normals
                    &&& buffers.triangles[i].texcoords == self.triangles[i].texcoords
                    &&& buffers.triangles[i].material_index == self.triangles[i].material_index
                },
            buffers.bih.len() == self.bih.0.len(),
            forall|i: int|
                0 <= i < buffers.bih.len() ==> buffers.bih[i] == (#[trigger] self.bih.0@[i]).uniform(),
    {
        let n_textures = self.texture_paths.len() as u32;
        let n_normal_maps = self.normal_map_paths.len() as u32;
        let n_triangles = self.meshes.len() as u32;
        SceneBuffers {
            materials: get_material_data(self.materials),
            triangles: get_triangle_data(self.triangles),
            bih: get_bih_data(self.bih),
            n_textures,
            n_normal_maps,
            n_triangles,
        }
    }
}

/// The triangles of the first `k` lists are a prefix of those of all of them.
proof fn lemma_concat_prefix(lists: Seq<Vec<Triangle>>, k: int)
    requires
        0 <= k <= lists.len(),
    ensures
        concat_triangles(lists.subrange(0, k)).len() <= concat_triangles(lists).len(),
    decreases lists.len(),
{
    if k < lists.len() {
        assert(lists.drop_last().subrange(0, k) =~= lists.subrange(0, k));
        lemma_concat_prefix(lists.drop_last(), k);
    } else {
        assert(lists.subrange(0, k) =~= lists);
    }
}

} // verus!
