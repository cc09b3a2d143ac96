//! The choice of the format of the window surface that the renderer draws to.
use vstd::prelude::*;

verus! {

/// The Vulkan number of `VK_FORMAT_UNDEFINED`.
pub const FORMAT_UNDEFINED: i32 = 0;

/// The Vulkan number of `VK_FORMAT_R8G8B8A8_UNORM`.
pub const FORMAT_R8G8B8A8_UNORM: i32 = 37;

/// The Vulkan number of `VK_FORMAT_B8G8R8A8_UNORM`.
pub const FORMAT_B8G8R8A8_UNORM: i32 = 44;

/// The Vulkan number of `VK_FORMAT_A8B8G8R8_UNORM_PACK32`.
pub const FORMAT_A8B8G8R8_UNORM_PACK32: i32 = 51;

/// A format that a surface offers: the Vulkan numbers of its pixel format and of
/// its colour space.
#[derive(Clone, Copy, Debug, PartialEq, Eq, Structural)]
pub struct SurfaceFormat {
    pub format: i32,
    pub color_space: i32,
}

/// A pixel format that the renderer prefers: 8-bit unsigned normalised RGBA in one
/// of its three usual orders.
pub open spec fn desirable(format: i32) -> bool {
    format == FORMAT_R8G8B8A8_UNORM || format == FORMAT_B8G8R8A8_UNORM || format == FORMAT_A8B8G8R8_UNORM_PACK32
}

/// The surface leaves the format open: it offers one format, undefined.
pub open spec fn format_left_open(offered: Seq<SurfaceFormat>) -> bool {
    offered.len() == 1 && offered[0].format == FORMAT_UNDEFINED
}

/// Position `i` holds the first offered format that the renderer prefers.
pub open spec fn first_desirable_at(offered: Seq<SurfaceFormat>, i: int) -> bool {
    &&& 0 <= i < offered.len()
    &&& desirable(offered[i].format)
    &&& forall|j: int| 0 <= j < i ==> !desirable(#[trigger] offered[j].format)
}

/// Picks the surface format: where the surface leaves the format open, BGRA in the
/// colour space that it offers; else the first offered format that the renderer
/// prefers; else the first one offered.
pub fn choose_surface_format(offered: &Vec<SurfaceFormat>) -> (chosen: SurfaceFormat)
    requires
        offered.len() >= 1,
    ensures
        format_left_open(offered@) ==> chosen == (SurfaceFormat {
            format: FORMAT_B8G8R8A8_UNORM,
            color_space: offered@[0].color_space,
        }),
        !format_left_open(offered@) && (exists|i: int| 0 <= i < offered.len() && desirable(#[trigger] offered@[i].format))
            ==> exists|i: int| #[trigger] first_desirable_at(offered@, i) && chosen == offered@[i],
        !format_left_open(offered@) && (forall|i: int| 0 <= i < offered.len() ==> !desirable(#[trigger] offered@[i].format))
            ==> chosen == offered@[0],
{
    if offered.len() == 1 && offered[0].format == FORMAT_UNDEFINED {
        return SurfaceFormat { format: FORMAT_B8G8R8A8_UNORM, color_space: offered[0].color_space };
    }
    let mut i: usize = 0;
    while i < offered.len()
        invariant
            i <= offered.len(),
            forall|j: int| 0 <= j < i ==> !desirable(#[trigger] offered@[j].format),
        decreases offered.len() - i,
    {
        let f = offered[i].format;
        if f == FORMAT_R8G8B8A8_UNORM || f == FORMAT_B8G8R8A8_UNORM || f == FORMAT_A8B8G8R8_UNORM_PACK32 {
            proof {
                assert(first_desirable_at(offered@, i as int));
            }
            return offered[i];
        }
        i = i + 1;
    }
    offered[0]
}

} // verus!
