//! Render hardware interface: the handles, descriptors and limits that the
//! rest of the engine names. No GPU here; a backend turns these into work.

use vstd::prelude::*;

verus! {

/// GPU backend. Null is CPU-only (tests, no window system).
#[derive(Clone, Copy, Debug, PartialEq, Eq)]
pub enum Backend {
    Null,
    Vulkan,
}

#[derive(Clone, Copy, Debug, Default, PartialEq, Eq)]
pub struct Extent2D {
    pub width: u32,
    pub height: u32,
}

impl Extent2D {
    /// A window of no area: nothing can be presented.
    pub fn is_zero(self) -> (z: bool)
        ensures
            z == (self.width == 0 || self.height == 0),
    {
        self.width == 0 || self.height == 0
    }
}

/// Swapchain and render-target formats the rest of the engine may name.
#[derive(Clone, Copy, Debug, PartialEq, Eq)]
pub enum Format {
    Bgra8Unorm,
    Bgra8Srgb,
    Rgba8Unorm,
    Rgba8Srgb,
    Rgba16Float,
    R32Float,
    Rg16Float,
    D32Float,
    Unknown(u32),
}

#[derive(Clone, Copy, Debug, PartialEq, Eq)]
pub enum PrimitiveTopology {
    TriangleList,
}

#[derive(Clone, Copy, Debug)]
pub struct FrameInfo {
    pub extent: Extent2D,
    pub format: Format,
    pub frame_index: u64,
    /// True when the window is 0x0 or the swapchain cannot be acquired.
    pub skipped: bool,
}

/// Opaque pipeline handle. Valid only on the device that created it.
#[derive(Clone, Copy, Debug, PartialEq, Eq, Hash)]
pub struct GraphicsPipeline {
    pub(crate) id: u32,
}

#[derive(Clone, Copy, Debug, PartialEq, Eq, Hash)]
pub struct ComputePipeline {
    pub(crate) id: u32,
}

impl View for GraphicsPipeline {
    type V = u32;

    closed spec fn view(&self) -> u32 {
        self.id
    }
}

impl View for ComputePipeline {
    type V = u32;

    closed spec fn view(&self) -> u32 {
        self.id
    }
}

impl GraphicsPipeline {
    /// The handle a device hands out for its `id`-th pipeline.
    pub(crate) fn with_id(id: u32) -> (p: Self)
        ensures
            p@ == id,
    {
        GraphicsPipeline { id }
    }
}

impl ComputePipeline {
    pub(crate) fn with_id(id: u32) -> (p: Self)
        ensures
            p@ == id,
    {
        ComputePipeline { id }
    }
}

/// Texture handle. [`Texture::null`] is bindless slot 0 (a 1x1 dummy).
#[derive(Clone, Copy, Debug, PartialEq, Eq, Hash)]
pub struct Texture {
    pub(crate) id: u32,
}

impl View for Texture {
    type V = u32;

    closed spec fn view(&self) -> u32 {
        self.id
    }
}

impl Texture {
    /// The null texture: bindless slot 0.
    pub fn null() -> (t: Self)
        ensures
            t@ == 0,
    {
        Texture { id: 0 }
    }

    /// The raw index: identity without touching the resource.
    pub fn raw(self) -> (r: u32)
        ensures
            r == self@,
    {
        self.id
    }

    /// A handle made by hand, for code that only compares handles.
    pub fn from_raw(id: u32) -> (t: Self)
        ensures
            t@ == id,
    {
        Texture { id }
    }
}

#[derive(Clone, Copy, Debug, PartialEq, Eq, Hash)]
pub struct Buffer {
    pub(crate) id: u32,
}

impl View for Buffer {
    type V = u32;

    closed spec fn view(&self) -> u32 {
        self.id
    }
}

impl Buffer {
    pub fn raw(self) -> (r: u32)
        ensures
            r == self@,
    {
        self.id
    }

    /// A handle made by hand, for code that only compares handles.
    pub fn from_raw(id: u32) -> (b: Self)
        ensures
            b@ == id,
    {
        Buffer { id }
    }
}

/// A texture handle is its id: two handles are the same handle exactly when
/// their ids are equal, so handles made from one id are one handle.
pub proof fn a_texture_is_its_id(a: Texture, b: Texture)
    ensures
        a == b <==> a@ == b@,
{
}

/// A buffer handle is its id: two handles are the same handle exactly when
/// their ids are equal.
pub proof fn a_buffer_is_its_id(a: Buffer, b: Buffer)
    ensures
        a == b <==> a@ == b@,
{
}

/// A resource a barrier applies to.
#[derive(Clone, Copy, Debug, PartialEq, Eq)]
pub enum Barrier {
    Texture(Texture),
    Buffer(Buffer),
}

/// A derived barrier: from which access to which access, as codes the
/// backend translates.
#[derive(Clone, Copy, Debug, PartialEq, Eq)]
pub struct BarrierDesc {
    pub resource: Barrier,
    pub src: u32,
    pub dst: u32,
}

/// A 2D image, or a volume.
#[derive(Clone, Copy, Debug, PartialEq, Eq)]
pub enum TextureDim {
    D2,
    D3,
}

impl Default for TextureDim {
    fn default() -> (d: Self)
        ensures
            d == TextureDim::D2,
    {
        TextureDim::D2
    }
}

#[derive(Clone, Copy, Debug)]
pub struct TextureDesc {
    pub width: u32,
    pub height: u32,
    /// Slices when `dim` is a volume. Ignored for 2D.
    pub depth_slices: u32,
    pub dim: TextureDim,
    pub mip_levels: u32,
    pub format: Format,
    pub sampled: bool,
    pub storage: bool,
    pub color_attachment: bool,
    /// Depth-stencil attachment (not the volume extent).
    pub depth: bool,
}

/// A sampled 1x1 RGBA8 texture with one level.
pub open spec fn default_texture_desc() -> TextureDesc {
    TextureDesc {
        width: 1,
        height: 1,
        depth_slices: 1,
        dim: TextureDim::D2,
        mip_levels: 1,
        format: Format::Rgba8Unorm,
        sampled: true,
        storage: false,
        color_attachment: false,
        depth: false,
    }
}

impl Default for TextureDesc {
    fn default() -> (d: Self)
        ensures
            d == default_texture_desc(),
    {
        TextureDesc {
            width: 1,
            height: 1,
            depth_slices: 1,
            dim: TextureDim::D2,
            mip_levels: 1,
            format: Format::Rgba8Unorm,
            sampled: true,
            storage: false,
            color_attachment: false,
            depth: false,
        }
    }
}

/// Vertex and instance layout, and the attachments a pipeline renders to.
/// Empty `color_formats` means the swapchain format, unless `depth_only`.
#[derive(Clone, Copy, Debug)]
pub struct PipelineTargets<'a> {
    pub color_formats: &'a [Format],
    pub depth_format: Option<Format>,
    pub vertex_stride: u32,
    pub instance_stride: u32,
    pub depth_test: bool,
    pub cull_back: bool,
    /// No color attachments (shadow atlas).
    pub depth_only: bool,
    pub depth_bias: bool,
}

impl Default for PipelineTargets<'static> {
    fn default() -> (t: Self)
        ensures
            t.color_formats@.len() == 0,
            t.depth_format.is_none(),
            t.vertex_stride == 0,
            t.instance_stride == 0,
            !t.depth_test,
            !t.cull_back,
            !t.depth_only,
            !t.depth_bias,
    {
        PipelineTargets {
            color_formats: &[],
            depth_format: None,
            vertex_stride: 0,
            instance_stride: 0,
            depth_test: false,
            cull_back: false,
            depth_only: false,
            depth_bias: false,
        }
    }
}

/// Per-frame constants (set 0 binding 0), written after `begin_frame`.
#[derive(Clone, Copy, Debug, Default)]
pub struct FrameConstants {
    pub tex_a: u32,
    pub tex_b: u32,
    pub _pad: [u32; 2],
}

/// CPU copy of a texture (mip 0), tightly packed: no row padding.
#[derive(Clone, Debug)]
pub struct TextureData {
    pub width: u32,
    pub height: u32,
    /// 1 for a 2D texture; slices, in order, for a volume.
    pub depth_slices: u32,
    pub format: Format,
    pub bytes: Vec<u8>,
}

/// Storage image slots (set 4, binding 0): one per level of a 16-level pyramid.
pub const STORAGE_IMAGE_SLOTS: u32 = 16;
/// Volume UAV slots (set 4, binding 1).
pub const VOLUME_UAV_SLOTS: u32 = 4;
/// Volume SRV slots (set 5, binding 0).
pub const VOLUME_SRV_SLOTS: u32 = 8;
pub const PUSH_CONSTANTS_SIZE: u32 = 128;
/// One constant-buffer chunk: the range of set 0 binding 0, and the stride of
/// the frame ring.
pub const FRAME_UBO_SIZE: u64 = 1024;
/// Chunks per frame slot: the per-frame budget of distinct constant sets.
pub const FRAME_CBV_CHUNKS: u32 = 512;
/// Ring bytes per frame slot.
pub const FRAME_CBV_RING_SIZE: u64 = 524288;
/// Timestamps a frame can hold.
pub const MAX_TIMESTAMPS: u32 = 32;
/// Storage buffer slots in set 3.
pub const STORAGE_BUFFER_SLOTS: u32 = 16;
/// Frames in flight.
pub const FRAMES_IN_FLIGHT: u32 = 2;

/// The ring per frame slot is one chunk per constant set.
pub proof fn frame_ring_is_chunks_times_chunk_size()
    ensures
        FRAME_CBV_RING_SIZE == FRAME_UBO_SIZE * FRAME_CBV_CHUNKS as u64,
{
}

} // verus!
