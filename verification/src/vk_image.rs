//! What the Vulkan backend settles about an image before it asks the driver
//! for one, and the layout barriers around the passes that render to it.
//! Flag values are those of the Vulkan specification; the driver calls
//! themselves stay with the backend.

use vstd::prelude::*;

use crate::null_gpu::{is_message, RhiError};
use crate::resources::{
    bytes_per_pixel, mip_extent, pitch_fits, row_pitch_bytes, spec_bytes_per_pixel, spec_mip_extent, spec_row_pitch,
};
use crate::rhi::{Extent2D, Format, TextureDesc, TextureDim};
use crate::surface::{spec_vk_format, vk_format};

verus! {

pub const USAGE_TRANSFER_SRC: u32 = 0x1;
pub const USAGE_TRANSFER_DST: u32 = 0x2;
pub const USAGE_SAMPLED: u32 = 0x4;
pub const USAGE_STORAGE: u32 = 0x8;
pub const USAGE_COLOR_ATTACHMENT: u32 = 0x10;
pub const USAGE_DEPTH_STENCIL_ATTACHMENT: u32 = 0x20;

pub const ACCESS_SHADER_READ: u32 = 0x20;
pub const ACCESS_SHADER_WRITE: u32 = 0x40;
pub const ACCESS_COLOR_ATTACHMENT_WRITE: u32 = 0x100;
pub const ACCESS_DEPTH_STENCIL_ATTACHMENT_READ: u32 = 0x200;
pub const ACCESS_DEPTH_STENCIL_ATTACHMENT_WRITE: u32 = 0x400;
pub const ACCESS_TRANSFER_READ: u32 = 0x800;
pub const ACCESS_TRANSFER_WRITE: u32 = 0x1000;

pub const STAGE_TOP_OF_PIPE: u32 = 0x1;
pub const STAGE_VERTEX_SHADER: u32 = 0x8;
pub const STAGE_FRAGMENT_SHADER: u32 = 0x80;
pub const STAGE_EARLY_FRAGMENT_TESTS: u32 = 0x100;
pub const STAGE_LATE_FRAGMENT_TESTS: u32 = 0x200;
pub const STAGE_COLOR_ATTACHMENT_OUTPUT: u32 = 0x400;
pub const STAGE_COMPUTE_SHADER: u32 = 0x800;
pub const STAGE_TRANSFER: u32 = 0x1000;
pub const STAGE_ALL_COMMANDS: u32 = 0x10000;

/// Which planes of an image a view or barrier covers.
#[derive(Clone, Copy, Debug, PartialEq, Eq, Structural)]
pub enum Aspect {
    Color,
    Depth,
}

/// Depth formats are addressed through their depth plane, all others
/// through their colour plane.
pub open spec fn spec_aspect_for(format: Format) -> Aspect {
    if format is D32Float {
        Aspect::Depth
    } else {
        Aspect::Color
    }
}

pub fn aspect_for(format: Format) -> (a: Aspect)
    ensures
        a == spec_aspect_for(format),
{
    match format {
        Format::D32Float => Aspect::Depth,
        _ => Aspect::Color,
    }
}

/// The stages where shaders read: vertex, fragment and compute.
pub open spec fn spec_shader_read_stages() -> u32 {
    STAGE_VERTEX_SHADER | STAGE_FRAGMENT_SHADER | STAGE_COMPUTE_SHADER
}

pub fn shader_read_stages() -> (s: u32)
    ensures
        s == spec_shader_read_stages(),
{
    STAGE_VERTEX_SHADER | STAGE_FRAGMENT_SHADER | STAGE_COMPUTE_SHADER
}

/// The usage an image is created with. Every image can be copied from, so
/// that any target can be read back; every image but a depth target can be
/// copied to.
pub open spec fn spec_image_usage(d: TextureDesc) -> u32 {
    USAGE_TRANSFER_SRC | (if d.depth {
        0u32
    } else {
        USAGE_TRANSFER_DST
    }) | (if d.sampled {
        USAGE_SAMPLED
    } else {
        0u32
    }) | (if d.storage {
        USAGE_STORAGE
    } else {
        0u32
    }) | (if d.color_attachment {
        USAGE_COLOR_ATTACHMENT
    } else {
        0u32
    }) | (if d.depth {
        USAGE_DEPTH_STENCIL_ATTACHMENT
    } else {
        0u32
    })
}

pub fn image_usage(d: &TextureDesc) -> (u: u32)
    ensures
        u == spec_image_usage(*d),
{
    USAGE_TRANSFER_SRC | (if d.depth {
        0u32
    } else {
        USAGE_TRANSFER_DST
    }) | (if d.sampled {
        USAGE_SAMPLED
    } else {
        0u32
    }) | (if d.storage {
        USAGE_STORAGE
    } else {
        0u32
    }) | (if d.color_attachment {
        USAGE_COLOR_ATTACHMENT
    } else {
        0u32
    }) | (if d.depth {
        USAGE_DEPTH_STENCIL_ATTACHMENT
    } else {
        0u32
    })
}

/// Everything the driver is asked for when an image is made: its kind (which
/// is also the kind of its views), format code, extent, levels, usage, the
/// aspect of its sampled view, and whether it gets a storage view too.
#[derive(Clone, Copy, Debug)]
pub struct ImagePlan {
    pub dim: TextureDim,
    pub format: i32,
    pub width: u32,
    pub height: u32,
    pub depth_slices: u32,
    pub mip_levels: u32,
    pub usage: u32,
    pub aspect: Aspect,
    pub storage_view: bool,
}

/// A volume used as a render target, colour or depth.
pub open spec fn attachment_volume(d: TextureDesc) -> bool {
    d.dim == TextureDim::D3 && (d.color_attachment || d.depth)
}

/// The plan of an image the driver can make from `d`.
pub open spec fn spec_image_plan(d: TextureDesc, format: i32) -> ImagePlan {
    ImagePlan {
        dim: d.dim,
        format,
        width: d.width,
        height: d.height,
        depth_slices: if d.dim == TextureDim::D3 {
            if d.depth_slices >= 1 {
                d.depth_slices
            } else {
                1
            }
        } else {
            1
        },
        mip_levels: if d.mip_levels >= 1 {
            d.mip_levels
        } else {
            1
        },
        usage: spec_image_usage(d),
        aspect: spec_aspect_for(d.format),
        storage_view: d.storage,
    }
}

/// Settles an image, or says why it cannot be made: an empty extent, a
/// volume as a render target, a format with no Vulkan code. The checks come
/// in that order.
pub fn plan_image(d: &TextureDesc) -> (r: Result<ImagePlan, RhiError>)
    ensures
        match r {
            Ok(p) => {
                &&& d.width != 0 && d.height != 0
                &&& !attachment_volume(*d)
                &&& spec_vk_format(d.format) == Some(p.format)
                &&& p == spec_image_plan(*d, p.format)
            },
            Err(e) => if d.width == 0 || d.height == 0 {
                is_message(e, "texture extent is 0"@)
            } else if attachment_volume(*d) {
                is_message(e, "a 3D texture cannot be an attachment"@)
            } else {
                spec_vk_format(d.format) is None && is_message(e, "unknown texture format"@)
            },
        },
{
    if d.width == 0 || d.height == 0 {
        return Err(RhiError::msg("texture extent is 0"));
    }
    let mip_levels = if d.mip_levels >= 1 {
        d.mip_levels
    } else {
        1
    };
    let volume = match d.dim {
        TextureDim::D3 => true,
        TextureDim::D2 => false,
    };
    let depth_slices = if volume {
        if d.depth_slices >= 1 {
            d.depth_slices
        } else {
            1
        }
    } else {
        1
    };
    if volume && (d.color_attachment || d.depth) {
        return Err(RhiError::msg("a 3D texture cannot be an attachment"));
    }
    let format = vk_format(d.format)?;
    Ok(
        ImagePlan {
            dim: d.dim,
            format,
            width: d.width,
            height: d.height,
            depth_slices,
            mip_levels,
            usage: image_usage(d),
            aspect: aspect_for(d.format),
            storage_view: d.storage,
        },
    )
}

/// Any image can be copied from: read-back works on every target.
pub proof fn every_image_can_be_read_back(d: TextureDesc)
    ensures
        spec_image_usage(d) & USAGE_TRANSFER_SRC == USAGE_TRANSFER_SRC,
        spec_image_usage(d) != 0,
{
    let a: u32 = if d.depth {
        0u32
    } else {
        USAGE_TRANSFER_DST
    };
    let b: u32 = if d.sampled {
        USAGE_SAMPLED
    } else {
        0u32
    };
    let c: u32 = if d.storage {
        USAGE_STORAGE
    } else {
        0u32
    };
    let e: u32 = if d.color_attachment {
        USAGE_COLOR_ATTACHMENT
    } else {
        0u32
    };
    let f: u32 = if d.depth {
        USAGE_DEPTH_STENCIL_ATTACHMENT
    } else {
        0u32
    };
    assert(spec_image_usage(d) == 1u32 | a | b | c | e | f);
    assert((1u32 | a | b | c | e | f) & 1u32 == 1u32) by (bit_vector);
    assert((1u32 | a | b | c | e | f) != 0u32) by (bit_vector);
}

/// A depth target is never a copy destination; it takes only the
/// depth-attachment usage besides what its description asks for.
pub proof fn depth_targets_are_not_upload_destinations(d: TextureDesc)
    requires
        d.depth,
    ensures
        spec_image_usage(d) & USAGE_TRANSFER_DST == 0,
        spec_image_usage(d) & USAGE_DEPTH_STENCIL_ATTACHMENT == USAGE_DEPTH_STENCIL_ATTACHMENT,
{
    let b: u32 = if d.sampled {
        USAGE_SAMPLED
    } else {
        0u32
    };
    let c: u32 = if d.storage {
        USAGE_STORAGE
    } else {
        0u32
    };
    let e: u32 = if d.color_attachment {
        USAGE_COLOR_ATTACHMENT
    } else {
        0u32
    };
    assert(spec_image_usage(d) == 1u32 | 0u32 | b | c | e | 0x20u32);
    assert((b == 0u32 || b == 4u32) && (c == 0u32 || c == 8u32) && (e == 0u32 || e == 0x10u32));
    assert((1u32 | 0u32 | b | c | e | 0x20u32) & 2u32 == 0u32 && (1u32 | 0u32 | b | c | e | 0x20u32) & 0x20u32
        == 0x20u32) by (bit_vector)
        requires
            (b == 0u32 || b == 4u32) && (c == 0u32 || c == 8u32) && (e == 0u32 || e == 0x10u32),
    ;
}

// ---------------------------------------------------------------------------
// Attachment layouts.
// ---------------------------------------------------------------------------

/// The layouts an image moves through as a render target.
#[derive(Clone, Copy, Debug, PartialEq, Eq, Structural)]
pub enum Layout {
    Undefined,
    General,
    ColorAttachment,
    DepthAttachment,
    DepthReadOnly,
    ShaderReadOnly,
    TransferSrc,
    TransferDst,
}

/// One image barrier: the layout change, and the accesses and stages on
/// each side of it.
#[derive(Clone, Copy, Debug, PartialEq, Eq, Structural)]
pub struct LayoutBarrier {
    pub old: Layout,
    pub new: Layout,
    pub src_access: u32,
    pub dst_access: u32,
    pub src_stage: u32,
    pub dst_stage: u32,
    pub aspect: Aspect,
}

/// Taking a colour target for drawing. A target that shaders were reading
/// waits for those reads; anything else waits for nothing.
pub open spec fn spec_color_target_barrier(old: Layout) -> LayoutBarrier {
    LayoutBarrier {
        old,
        new: Layout::ColorAttachment,
        src_access: if old == Layout::ShaderReadOnly {
            ACCESS_SHADER_READ
        } else {
            0
        },
        dst_access: ACCESS_COLOR_ATTACHMENT_WRITE,
        src_stage: if old == Layout::ShaderReadOnly {
            spec_shader_read_stages()
        } else {
            STAGE_TOP_OF_PIPE
        },
        dst_stage: STAGE_COLOR_ATTACHMENT_OUTPUT,
        aspect: Aspect::Color,
    }
}

pub fn color_target_barrier(old: Layout) -> (b: LayoutBarrier)
    ensures
        b == spec_color_target_barrier(old),
{
    let read_before = old == Layout::ShaderReadOnly;
    LayoutBarrier {
        old,
        new: Layout::ColorAttachment,
        src_access: if read_before {
            ACCESS_SHADER_READ
        } else {
            0
        },
        dst_access: ACCESS_COLOR_ATTACHMENT_WRITE,
        src_stage: if read_before {
            shader_read_stages()
        } else {
            STAGE_TOP_OF_PIPE
        },
        dst_stage: STAGE_COLOR_ATTACHMENT_OUTPUT,
        aspect: Aspect::Color,
    }
}

/// Taking a depth target for a pass. A target shaders were reading, in
/// either read layout, waits for those reads; one that held nothing waits
/// for nothing; any other waits on the shader stages.
pub open spec fn spec_depth_target_barrier(old: Layout, aspect: Aspect) -> LayoutBarrier {
    LayoutBarrier {
        old,
        new: Layout::DepthAttachment,
        src_access: if old == Layout::ShaderReadOnly || old == Layout::DepthReadOnly {
            ACCESS_SHADER_READ
        } else {
            0
        },
        dst_access: ACCESS_DEPTH_STENCIL_ATTACHMENT_WRITE | ACCESS_DEPTH_STENCIL_ATTACHMENT_READ,
        src_stage: if old == Layout::Undefined {
            STAGE_TOP_OF_PIPE
        } else {
            spec_shader_read_stages()
        },
        dst_stage: STAGE_EARLY_FRAGMENT_TESTS | STAGE_LATE_FRAGMENT_TESTS,
        aspect,
    }
}

pub fn depth_target_barrier(old: Layout, aspect: Aspect) -> (b: LayoutBarrier)
    ensures
        b == spec_depth_target_barrier(old, aspect),
{
    LayoutBarrier {
        old,
        new: Layout::DepthAttachment,
        src_access: if old == Layout::ShaderReadOnly || old == Layout::DepthReadOnly {
            ACCESS_SHADER_READ
        } else {
            0
        },
        dst_access: ACCESS_DEPTH_STENCIL_ATTACHMENT_WRITE | ACCESS_DEPTH_STENCIL_ATTACHMENT_READ,
        src_stage: if old == Layout::Undefined {
            STAGE_TOP_OF_PIPE
        } else {
            shader_read_stages()
        },
        dst_stage: STAGE_EARLY_FRAGMENT_TESTS | STAGE_LATE_FRAGMENT_TESTS,
        aspect,
    }
}

/// Handing a colour target to the shaders once its pass is over.
pub open spec fn spec_color_target_release() -> LayoutBarrier {
    LayoutBarrier {
        old: Layout::ColorAttachment,
        new: Layout::ShaderReadOnly,
        src_access: ACCESS_COLOR_ATTACHMENT_WRITE,
        dst_access: ACCESS_SHADER_READ,
        src_stage: STAGE_COLOR_ATTACHMENT_OUTPUT,
        dst_stage: spec_shader_read_stages(),
        aspect: Aspect::Color,
    }
}

pub fn color_target_release() -> (b: LayoutBarrier)
    ensures
        b == spec_color_target_release(),
{
    LayoutBarrier {
        old: Layout::ColorAttachment,
        new: Layout::ShaderReadOnly,
        src_access: ACCESS_COLOR_ATTACHMENT_WRITE,
        dst_access: ACCESS_SHADER_READ,
        src_stage: STAGE_COLOR_ATTACHMENT_OUTPUT,
        dst_stage: shader_read_stages(),
        aspect: Aspect::Color,
    }
}

/// The layout a depth target is left in once its pass is over, and the
/// barrier that puts it there: a sampled one goes to the shaders, another
/// stays where it is.
pub open spec fn spec_depth_target_release(sampled: bool, aspect: Aspect) -> (Layout, Option<LayoutBarrier>) {
    if sampled {
        (
            Layout::ShaderReadOnly,
            Some(
                LayoutBarrier {
                    old: Layout::DepthAttachment,
                    new: Layout::ShaderReadOnly,
                    src_access: ACCESS_DEPTH_STENCIL_ATTACHMENT_WRITE,
                    dst_access: ACCESS_SHADER_READ,
                    src_stage: STAGE_EARLY_FRAGMENT_TESTS | STAGE_LATE_FRAGMENT_TESTS,
                    dst_stage: spec_shader_read_stages(),
                    aspect,
                },
            ),
        )
    } else {
        (Layout::DepthAttachment, None)
    }
}

pub fn depth_target_release(sampled: bool, aspect: Aspect) -> (r: (Layout, Option<LayoutBarrier>))
    ensures
        r == spec_depth_target_release(sampled, aspect),
{
    if sampled {
        (
            Layout::ShaderReadOnly,
            Some(
                LayoutBarrier {
                    old: Layout::DepthAttachment,
                    new: Layout::ShaderReadOnly,
                    src_access: ACCESS_DEPTH_STENCIL_ATTACHMENT_WRITE,
                    dst_access: ACCESS_SHADER_READ,
                    src_stage: STAGE_EARLY_FRAGMENT_TESTS | STAGE_LATE_FRAGMENT_TESTS,
                    dst_stage: shader_read_stages(),
                    aspect,
                },
            ),
        )
    } else {
        (Layout::DepthAttachment, None)
    }
}

/// The area a pass renders: the first colour target's extent, else the
/// depth target's, else one pixel.
pub open spec fn spec_pass_extent(first_color: Option<Extent2D>, depth: Option<Extent2D>) -> Extent2D {
    match first_color {
        Some(c) => c,
        None => match depth {
            Some(d) => d,
            None => Extent2D { width: 1, height: 1 },
        },
    }
}

pub fn pass_extent(first_color: Option<Extent2D>, depth: Option<Extent2D>) -> (e: Extent2D)
    ensures
        e == spec_pass_extent(first_color, depth),
{
    match first_color {
        Some(c) => c,
        None => match depth {
            Some(d) => d,
            None => Extent2D { width: 1, height: 1 },
        },
    }
}

/// A target released after one pass and taken again for the next waits for
/// exactly what the release handed over: the shader reads, in the shader
/// stages. This holds for colour targets and for sampled depth targets.
pub proof fn a_released_target_is_taken_back_after_the_reads(aspect: Aspect)
    ensures
        spec_color_target_release().new == Layout::ShaderReadOnly,
        spec_color_target_barrier(spec_color_target_release().new).src_access
            == spec_color_target_release().dst_access,
        spec_color_target_barrier(spec_color_target_release().new).src_stage
            == spec_color_target_release().dst_stage,
        spec_depth_target_release(true, aspect).0 == Layout::ShaderReadOnly,
        spec_depth_target_barrier(spec_depth_target_release(true, aspect).0, aspect).src_access
            == spec_depth_target_release(true, aspect).1.unwrap().dst_access,
        spec_depth_target_barrier(spec_depth_target_release(true, aspect).0, aspect).src_stage
            == spec_depth_target_release(true, aspect).1.unwrap().dst_stage,
{
}

// ---------------------------------------------------------------------------
// The life of an image: uploads, hand-over to the shaders, read-back.
// ---------------------------------------------------------------------------

/// What the backend keeps of one of its images between calls.
#[derive(Clone, Copy, Debug)]
pub struct ImageState {
    pub dim: TextureDim,
    pub format: Format,
    pub width: u32,
    pub height: u32,
    pub depth_slices: u32,
    pub mip_levels: u32,
    pub sampled: bool,
    pub storage: bool,
    pub layout: Layout,
    /// Uploads so far (a level uploaded twice counts twice).
    pub mips_uploaded: u32,
    /// The image was moved to the copy-destination layout once.
    pub transfer_prepared: bool,
    /// Shaders may sample it.
    pub ready: bool,
}

/// Storage images and volumes are written by shaders, so they start in the
/// general layout and ready; other images start with nothing in them.
pub open spec fn starts_general(d: TextureDesc) -> bool {
    d.storage || d.dim == TextureDim::D3
}

pub open spec fn spec_new_image_state(d: TextureDesc, p: ImagePlan) -> ImageState {
    ImageState {
        dim: d.dim,
        format: d.format,
        width: d.width,
        height: d.height,
        depth_slices: p.depth_slices,
        mip_levels: p.mip_levels,
        sampled: d.sampled,
        storage: d.storage,
        layout: if starts_general(d) {
            Layout::General
        } else {
            Layout::Undefined
        },
        mips_uploaded: 0,
        transfer_prepared: false,
        ready: starts_general(d),
    }
}

/// The state of an image just made from `d` by plan `p`.
pub fn new_image_state(d: &TextureDesc, p: &ImagePlan) -> (s: ImageState)
    ensures
        s == spec_new_image_state(*d, *p),
{
    let general = d.storage || match d.dim {
        TextureDim::D3 => true,
        TextureDim::D2 => false,
    };
    ImageState {
        dim: d.dim,
        format: d.format,
        width: d.width,
        height: d.height,
        depth_slices: p.depth_slices,
        mip_levels: p.mip_levels,
        sampled: d.sampled,
        storage: d.storage,
        layout: if general {
            Layout::General
        } else {
            Layout::Undefined
        },
        mips_uploaded: 0,
        transfer_prepared: false,
        ready: general,
    }
}

/// The barrier that opens a storage image or a volume to the shaders.
pub open spec fn spec_general_barrier() -> LayoutBarrier {
    LayoutBarrier {
        old: Layout::Undefined,
        new: Layout::General,
        src_access: 0,
        dst_access: ACCESS_SHADER_WRITE | ACCESS_SHADER_READ,
        src_stage: STAGE_TOP_OF_PIPE,
        dst_stage: spec_shader_read_stages() | STAGE_COMPUTE_SHADER,
        aspect: Aspect::Color,
    }
}

pub fn general_barrier() -> (b: LayoutBarrier)
    ensures
        b == spec_general_barrier(),
{
    LayoutBarrier {
        old: Layout::Undefined,
        new: Layout::General,
        src_access: 0,
        dst_access: ACCESS_SHADER_WRITE | ACCESS_SHADER_READ,
        src_stage: STAGE_TOP_OF_PIPE,
        dst_stage: shader_read_stages() | STAGE_COMPUTE_SHADER,
        aspect: Aspect::Color,
    }
}

/// The first upload moves the image to the copy destination.
pub open spec fn spec_prepare_barrier() -> LayoutBarrier {
    LayoutBarrier {
        old: Layout::Undefined,
        new: Layout::TransferDst,
        src_access: 0,
        dst_access: ACCESS_TRANSFER_WRITE,
        src_stage: STAGE_TOP_OF_PIPE,
        dst_stage: STAGE_TRANSFER,
        aspect: Aspect::Color,
    }
}

/// Once every level is in, the image is handed to the shaders.
pub open spec fn spec_finalize_barrier() -> LayoutBarrier {
    LayoutBarrier {
        old: Layout::TransferDst,
        new: Layout::ShaderReadOnly,
        src_access: ACCESS_TRANSFER_WRITE,
        dst_access: ACCESS_SHADER_READ,
        src_stage: STAGE_TRANSFER,
        dst_stage: spec_shader_read_stages(),
        aspect: Aspect::Color,
    }
}

/// One level's copy: its extent, its slices (a volume uploads all of them at
/// once), its texel size, and the barrier to record first, if any.
#[derive(Clone, Copy, Debug, PartialEq, Eq, Structural)]
pub struct UploadPlan {
    pub width: u32,
    pub height: u32,
    pub slices: u32,
    pub bpp: u32,
    pub prepare: Option<LayoutBarrier>,
}

pub open spec fn spec_upload_slices(s: ImageState, mip: u32) -> u32 {
    if s.dim == TextureDim::D3 {
        if s.depth_slices >> mip >= 1 {
            s.depth_slices >> mip
        } else {
            1
        }
    } else {
        1
    }
}

/// How level `mip` of an image is copied in, or why it cannot be: a level
/// the image does not have, then a format without a texel size.
pub fn upload_plan(s: &ImageState, mip: u32) -> (r: Result<UploadPlan, RhiError>)
    requires
        mip < s.mip_levels ==> mip < 32,
    ensures
        match r {
            Ok(p) => {
                &&& mip < s.mip_levels
                &&& spec_bytes_per_pixel(s.format) == Some(p.bpp)
                &&& (p.width, p.height) == spec_mip_extent(s.width, s.height, mip)
                &&& p.slices == spec_upload_slices(*s, mip)
                &&& p.prepare == if s.transfer_prepared {
                    None
                } else {
                    Some(spec_prepare_barrier())
                }
            },
            Err(e) => if mip >= s.mip_levels {
                is_message(e, "mip out of range"@)
            } else {
                spec_bytes_per_pixel(s.format) is None && is_message(e, "unknown texture format"@)
            },
        },
{
    if mip >= s.mip_levels {
        return Err(RhiError::msg("mip out of range"));
    }
    let (w, h) = mip_extent(s.width, s.height, mip);
    let slices = match s.dim {
        TextureDim::D3 => {
            let d = s.depth_slices >> mip;
            if d >= 1 {
                d
            } else {
                1
            }
        },
        TextureDim::D2 => 1,
    };
    let bpp = match bytes_per_pixel(s.format) {
        Ok(b) => b,
        Err(e) => return Err(e),
    };
    let prepare = if s.transfer_prepared {
        None
    } else {
        Some(
            LayoutBarrier {
                old: Layout::Undefined,
                new: Layout::TransferDst,
                src_access: 0,
                dst_access: ACCESS_TRANSFER_WRITE,
                src_stage: STAGE_TOP_OF_PIPE,
                dst_stage: STAGE_TRANSFER,
                aspect: Aspect::Color,
            },
        )
    };
    Ok(UploadPlan { width: w, height: h, slices, bpp, prepare })
}

/// The image once a level is copied in: one more upload, prepared for
/// transfer; a sampled, non-storage image whose uploads reach its level
/// count goes to the shaders and is ready.
pub open spec fn spec_after_upload(s: ImageState) -> ImageState {
    let t = ImageState { mips_uploaded: (s.mips_uploaded + 1) as u32, transfer_prepared: true, ..s };
    if t.mips_uploaded >= t.mip_levels && t.sampled && !t.storage {
        ImageState { layout: Layout::ShaderReadOnly, ready: true, ..t }
    } else {
        t
    }
}

/// Records a finished upload; gives the barrier that hands the image to the
/// shaders when that is due.
pub fn mip_uploaded(s: &mut ImageState) -> (b: Option<LayoutBarrier>)
    requires
        old(s).mips_uploaded < u32::MAX,
    ensures
        *final(s) == spec_after_upload(*old(s)),
        b == if final(s).layout == Layout::ShaderReadOnly && final(s).ready && final(s).mips_uploaded
            >= final(s).mip_levels && old(s).sampled && !old(s).storage {
            Some(spec_finalize_barrier())
        } else {
            None
        },
{
    s.mips_uploaded = s.mips_uploaded + 1;
    s.transfer_prepared = true;
    if s.mips_uploaded >= s.mip_levels && s.sampled && !s.storage {
        s.layout = Layout::ShaderReadOnly;
        s.ready = true;
        Some(
            LayoutBarrier {
                old: Layout::TransferDst,
                new: Layout::ShaderReadOnly,
                src_access: ACCESS_TRANSFER_WRITE,
                dst_access: ACCESS_SHADER_READ,
                src_stage: STAGE_TRANSFER,
                dst_stage: shader_read_stages(),
                aspect: Aspect::Color,
            },
        )
    } else {
        None
    }
}

/// The image after `k` uploads.
pub open spec fn after_uploads(s: ImageState, k: nat) -> ImageState
    decreases k,
{
    if k == 0 {
        s
    } else {
        spec_after_upload(after_uploads(s, (k - 1) as nat))
    }
}

/// A sampled image that shaders do not write becomes ready exactly when as
/// many levels were uploaded as it has, and only the first upload moves it
/// to the copy destination.
pub proof fn a_sampled_image_is_ready_once_every_level_is_in(d: TextureDesc, p: ImagePlan, k: nat)
    requires
        d.sampled,
        !starts_general(d),
        p.mip_levels >= 1,
        k < u32::MAX,
    ensures
        after_uploads(spec_new_image_state(d, p), k).ready <==> k >= p.mip_levels,
        after_uploads(spec_new_image_state(d, p), k).layout == if k >= p.mip_levels {
            Layout::ShaderReadOnly
        } else {
            Layout::Undefined
        },
        after_uploads(spec_new_image_state(d, p), k).mips_uploaded == k,
        after_uploads(spec_new_image_state(d, p), k).transfer_prepared <==> k >= 1,
    decreases k,
{
    let s0 = spec_new_image_state(d, p);
    assert(!s0.storage && s0.sampled && s0.mip_levels == p.mip_levels);
    if k > 0 {
        a_sampled_image_is_ready_once_every_level_is_in(d, p, (k - 1) as nat);
        let prev = after_uploads(s0, (k - 1) as nat);
        assert(after_uploads(s0, k) == spec_after_upload(prev));
        assert(prev.mip_levels == p.mip_levels && prev.sampled && !prev.storage) by {
            lemma_uploads_keep_the_image(s0, (k - 1) as nat);
        }
    }
}

proof fn lemma_uploads_keep_the_image(s: ImageState, k: nat)
    ensures
        after_uploads(s, k).mip_levels == s.mip_levels,
        after_uploads(s, k).sampled == s.sampled,
        after_uploads(s, k).storage == s.storage,
    decreases k,
{
    if k > 0 {
        lemma_uploads_keep_the_image(s, (k - 1) as nat);
    }
}

/// How an image is copied back: the size of the padded copy, the aspect,
/// and the barriers before and after the copy.
#[derive(Clone, Copy, Debug, PartialEq, Eq, Structural)]
pub struct ReadbackPlan {
    pub bpp: u32,
    pub buffer_size: u64,
    pub aspect: Aspect,
    pub to_copy: LayoutBarrier,
    pub back: LayoutBarrier,
}

pub open spec fn spec_readback_barriers(layout: Layout, aspect: Aspect) -> (LayoutBarrier, LayoutBarrier) {
    (
        LayoutBarrier {
            old: layout,
            new: Layout::TransferSrc,
            src_access: 0,
            dst_access: ACCESS_TRANSFER_READ,
            src_stage: STAGE_ALL_COMMANDS,
            dst_stage: STAGE_TRANSFER,
            aspect,
        },
        LayoutBarrier {
            old: Layout::TransferSrc,
            new: layout,
            src_access: ACCESS_TRANSFER_READ,
            dst_access: 0,
            src_stage: STAGE_TRANSFER,
            dst_stage: STAGE_ALL_COMMANDS,
            aspect,
        },
    )
}

/// How level 0 of an image is read back, or why it cannot be: not during a
/// frame; not in a format without a texel size; not an image nothing was
/// ever written to, which would read as black.
pub fn readback_plan(s: &ImageState, in_frame: bool) -> (r: Result<ReadbackPlan, RhiError>)
    requires
        spec_bytes_per_pixel(s.format) matches Some(b) ==> pitch_fits(s.width, b) && spec_row_pitch(s.width, b)
            * s.height * s.depth_slices <= u64::MAX,
    ensures
        match r {
            Ok(p) => {
                &&& !in_frame
                &&& s.layout != Layout::Undefined
                &&& spec_bytes_per_pixel(s.format) == Some(p.bpp)
                &&& p.buffer_size == spec_row_pitch(s.width, p.bpp) * s.height * s.depth_slices
                &&& p.aspect == spec_aspect_for(s.format)
                &&& (p.to_copy, p.back) == spec_readback_barriers(s.layout, p.aspect)
            },
            Err(e) => if in_frame {
                is_message(e, "read_texture during a frame"@)
            } else if spec_bytes_per_pixel(s.format) is None {
                is_message(e, "unknown texture format"@)
            } else {
                s.layout == Layout::Undefined && is_message(e, "texture has never been written"@)
            },
        },
{
    if in_frame {
        return Err(RhiError::msg("read_texture during a frame"));
    }
    let bpp = match bytes_per_pixel(s.format) {
        Ok(b) => b,
        Err(e) => return Err(e),
    };
    if s.layout == Layout::Undefined {
        return Err(RhiError::msg("texture has never been written"));
    }
    let aspect = aspect_for(s.format);
    let pitch = row_pitch_bytes(s.width, bpp);
    proof {
        assert(pitch * s.height <= u32::MAX as int * u32::MAX as int) by (nonlinear_arith)
            requires
                pitch <= u32::MAX,
                s.height <= u32::MAX,
        ;
    }
    let size = pitch as u64 * s.height as u64 * s.depth_slices as u64;
    Ok(
        ReadbackPlan {
            bpp,
            buffer_size: size,
            aspect,
            to_copy: LayoutBarrier {
                old: s.layout,
                new: Layout::TransferSrc,
                src_access: 0,
                dst_access: ACCESS_TRANSFER_READ,
                src_stage: STAGE_ALL_COMMANDS,
                dst_stage: STAGE_TRANSFER,
                aspect,
            },
            back: LayoutBarrier {
                old: Layout::TransferSrc,
                new: s.layout,
                src_access: ACCESS_TRANSFER_READ,
                dst_access: 0,
                src_stage: STAGE_TRANSFER,
                dst_stage: STAGE_ALL_COMMANDS,
                aspect,
            },
        },
    )
}

/// A read-back leaves the image in the layout it found it in.
pub proof fn a_readback_puts_the_image_back(layout: Layout, aspect: Aspect)
    ensures
        spec_readback_barriers(layout, aspect).0.old == layout,
        spec_readback_barriers(layout, aspect).1.new == layout,
        spec_readback_barriers(layout, aspect).0.new == spec_readback_barriers(layout, aspect).1.old,
{
}

} // verus!
