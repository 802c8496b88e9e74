//! The CPU-only backend: no GPU, no window. It keeps the frame and pass
//! protocol, the bindless slots and the per-frame constant budget of the real
//! device, so a sample that breaks one of them fails on CPU too.

use vstd::prelude::*;

use crate::rhi::{
    Backend, Buffer, ComputePipeline, Extent2D, Format, FrameConstants, FrameInfo,
    GraphicsPipeline, PipelineTargets, Texture, TextureData, TextureDesc, FRAME_CBV_CHUNKS,
    VOLUME_SRV_SLOTS, VOLUME_UAV_SLOTS,
};

verus! {

/// Why a device call was refused.
#[derive(Debug)]
pub enum RhiError {
    NoDevice,
    ValidationLayerMissing,
    WindowRequired,
    DeviceLost,
    FrameTimeout,
    /// A command recorded outside `begin_frame` / `end_frame`.
    NotInFrame,
    /// A pass begun twice, ended without being begun, or a command in the
    /// wrong kind of scope.
    PassMismatch,
    BadCString,
    /// A driver call failed with this Vulkan result code.
    Vulkan(i32),
    Message(String),
}

/// `e` is a plain message with text `text`.
pub open spec fn is_message(e: RhiError, text: Seq<char>) -> bool {
    e matches RhiError::Message(m) && m@ == text
}

impl RhiError {
    pub fn msg(text: &str) -> (e: RhiError)
        ensures
            is_message(e, text@),
    {
        RhiError::Message(text.to_owned())
    }

    /// The error of a failed driver call: a lost device has its own.
    pub fn from_vk(code: i32) -> (e: RhiError)
        ensures
            e == crate::vk_frames::spec_from_vk(code),
    {
        if code == crate::vk_frames::VK_ERROR_DEVICE_LOST {
            RhiError::DeviceLost
        } else {
            RhiError::Vulkan(code)
        }
    }
}

/// What the device is asked to be: backend, size, presentation.
/// (The window handles of the real backend travel beside it.)
#[derive(Clone, Copy, Debug)]
pub struct DeviceDesc {
    pub backend: Backend,
    pub validation: bool,
    pub app_name: &'static str,
    pub width: u32,
    pub height: u32,
    /// `false` picks the fastest present mode instead of FIFO.
    pub vsync: bool,
}

impl Default for DeviceDesc {
    fn default() -> (d: Self)
        ensures
            d.backend == Backend::Vulkan,
            d.validation,
            d.app_name@ == "harpia"@,
            d.width == 1280,
            d.height == 720,
            d.vsync,
    {
        DeviceDesc {
            backend: Backend::Vulkan,
            validation: true,
            app_name: "harpia",
            width: 1280,
            height: 720,
            vsync: true,
        }
    }
}

pub struct GraphicsPipelineDesc<'a> {
    pub vs_spirv: &'a [u8],
    pub fs_spirv: &'a [u8],
    pub vs_entry: &'a str,
    pub fs_entry: &'a str,
    /// An empty layout (the first triangle) or the bindless sets.
    pub bindless: bool,
    pub targets: PipelineTargets<'a>,
}

pub struct ComputePipelineDesc<'a> {
    pub cs_spirv: &'a [u8],
    pub cs_entry: &'a str,
}

/// One texture known to the Null device.
#[derive(Clone, Copy, Debug, PartialEq, Eq)]
pub struct TexState {
    pub bindless_slot: u32,
    pub mip_levels: u32,
    /// Levels uploaded so far, never more than `mip_levels`.
    pub uploaded: u32,
}

/// The state of a Null device.
pub struct NullModel {
    pub extent: Extent2D,
    pub in_frame: bool,
    pub in_pass: bool,
    pub frame_index: u64,
    pub next_pipeline: u32,
    pub next_compute: u32,
    pub next_slot: u32,
    pub next_buffer: u32,
    /// Constant chunks taken in the open frame.
    pub cbv_next: u32,
    pub textures: Seq<TexState>,
}

/// The slot 0 texture that exists from the start: one level, uploaded.
pub open spec fn null_texture() -> TexState {
    TexState { bindless_slot: 0, mip_levels: 1, uploaded: 1 }
}

/// What every Null device keeps true: texture `i` owns bindless slot `i`,
/// slot 0 is the null texture, the next slot is the next texture, a pass
/// only inside a frame, and the constant ring never past its budget.
pub open spec fn null_wf(m: NullModel) -> bool {
    &&& m.textures.len() >= 1
    &&& m.textures.len() == m.next_slot
    &&& m.textures[0] == null_texture()
    &&& forall|i: int| 0 <= i < m.textures.len() ==> (#[trigger] m.textures[i]).bindless_slot == i
    &&& forall|i: int|
        0 <= i < m.textures.len() ==> 1 <= (#[trigger] m.textures[i]).mip_levels && m.textures[i].uploaded
            <= m.textures[i].mip_levels
    &&& m.in_pass ==> m.in_frame
    &&& m.cbv_next <= FRAME_CBV_CHUNKS
}

/// A device made for a `width` x `height` target (each at least 1).
pub open spec fn null_initial(width: u32, height: u32) -> NullModel {
    NullModel {
        extent: Extent2D {
            width: if width >= 1 { width } else { 1 },
            height: if height >= 1 { height } else { 1 },
        },
        in_frame: false,
        in_pass: false,
        frame_index: 0,
        next_pipeline: 1,
        next_compute: 1,
        next_slot: 1,
        next_buffer: 1,
        cbv_next: 0,
        textures: seq![null_texture()],
    }
}

/// After `begin_frame`: a frame open, its constant budget whole.
pub open spec fn frame_begun(m: NullModel) -> NullModel {
    NullModel { in_frame: true, cbv_next: 0, ..m }
}

/// After `end_frame`: no frame open, the frame counter one further.
pub open spec fn frame_ended(m: NullModel) -> NullModel {
    NullModel { in_frame: false, frame_index: (m.frame_index + 1) as u64, ..m }
}

pub open spec fn pass_begun(m: NullModel) -> NullModel {
    NullModel { in_pass: true, ..m }
}

pub open spec fn pass_ended(m: NullModel) -> NullModel {
    NullModel { in_pass: false, ..m }
}

/// A pass may begin: a frame is open and no pass is.
pub open spec fn can_begin_pass(m: NullModel) -> bool {
    m.in_frame && !m.in_pass
}

/// Compute work may be recorded: inside a frame, outside any pass.
pub open spec fn compute_scope(m: NullModel) -> bool {
    m.in_frame && !m.in_pass
}

/// One constant chunk of the frame ring is left.
pub open spec fn cbv_available(m: NullModel) -> bool {
    m.cbv_next < FRAME_CBV_CHUNKS
}

pub open spec fn cbv_taken(m: NullModel) -> NullModel {
    NullModel { cbv_next: (m.cbv_next + 1) as u32, ..m }
}

/// After `create_texture` with `mip_levels` levels asked for.
pub open spec fn texture_created(m: NullModel, mip_levels: u32) -> NullModel {
    NullModel {
        next_slot: (m.next_slot + 1) as u32,
        textures: m.textures.push(
            TexState {
                bindless_slot: m.next_slot,
                mip_levels: if mip_levels >= 1 { mip_levels } else { 1 },
                uploaded: 0,
            },
        ),
        ..m
    }
}

/// The bindless slot of the texture with handle `id`, if there is one.
pub open spec fn bindless_slot_of(m: NullModel, id: u32) -> Option<u32> {
    if id < m.textures.len() {
        Some(m.textures[id as int].bindless_slot)
    } else {
        None
    }
}

/// After uploading one more level of texture `id`.
pub open spec fn mip_uploaded(m: NullModel, id: u32) -> NullModel {
    let t = m.textures[id as int];
    NullModel {
        textures: m.textures.update(
            id as int,
            TexState {
                uploaded: if t.uploaded + 1 <= t.mip_levels { (t.uploaded + 1) as u32 } else { t.mip_levels },
                ..t
            },
        ),
        ..m
    }
}

/// `n` frame-constant writes in a row all find a chunk, starting from `m`.
pub open spec fn writes_fit(m: NullModel, n: nat) -> bool
    decreases n,
{
    if n == 0 {
        true
    } else {
        cbv_available(m) && writes_fit(cbv_taken(m), (n - 1) as nat)
    }
}

/// The null texture is bindless slot 0 on every device.
pub proof fn null_texture_is_slot_zero(m: NullModel)
    requires
        null_wf(m),
    ensures
        bindless_slot_of(m, 0) == Some(0u32),
{
}

/// A new texture gets a slot that is not 0 and that no texture before it
/// holds; the textures before it keep theirs.
pub proof fn new_textures_get_fresh_slots(m: NullModel, mip_levels: u32)
    requires
        null_wf(m),
        m.next_slot < u32::MAX,
    ensures
        null_wf(texture_created(m, mip_levels)),
        bindless_slot_of(texture_created(m, mip_levels), m.textures.len() as u32) == Some(m.next_slot),
        m.next_slot != 0,
        forall|id: u32|
            id < m.textures.len() ==> bindless_slot_of(texture_created(m, mip_levels), id) == bindless_slot_of(
                m,
                id,
            ) && bindless_slot_of(m, id) != Some(m.next_slot),
{
    let n = texture_created(m, mip_levels);
    assert(n.textures[m.textures.len() as int].bindless_slot == m.next_slot);
}

/// A frame begun and ended moves the frame counter by exactly one, leaves no
/// frame open and gives the constant budget back; nothing else changes.
pub proof fn a_frame_moves_the_counter_by_one(m: NullModel)
    requires
        null_wf(m),
        !m.in_frame,
        m.frame_index < u64::MAX,
    ensures
        can_begin_pass(frame_begun(m)),
        frame_ended(frame_begun(m)) == (NullModel {
            frame_index: (m.frame_index + 1) as u64,
            cbv_next: 0,
            ..m
        }),
{
}

/// Ending a pass right after beginning it gives back the state before.
pub proof fn a_pass_closes_where_it_opened(m: NullModel)
    requires
        null_wf(m),
        can_begin_pass(m),
    ensures
        pass_ended(pass_begun(m)) == m,
{
}

/// Constant writes succeed until the ring of the frame is used up: from
/// `m`, `n` writes in a row fit exactly when `cbv_next + n` is within
/// `FRAME_CBV_CHUNKS`. Right after `begin_frame` that is `n <= 512`.
pub proof fn the_constant_ring_holds_its_budget(m: NullModel, n: nat)
    requires
        null_wf(m),
    ensures
        writes_fit(m, n) <==> m.cbv_next + n <= FRAME_CBV_CHUNKS,
        writes_fit(frame_begun(m), n) <==> n <= FRAME_CBV_CHUNKS,
{
    lemma_writes_fit(m, n);
    lemma_writes_fit(frame_begun(m), n);
}

proof fn lemma_writes_fit(m: NullModel, n: nat)
    requires
        m.cbv_next <= FRAME_CBV_CHUNKS,
    ensures
        writes_fit(m, n) <==> m.cbv_next + n <= FRAME_CBV_CHUNKS,
    decreases n,
{
    if n > 0 && cbv_available(m) {
        lemma_writes_fit(cbv_taken(m), (n - 1) as nat);
    }
}

struct NullState {
    extent: Extent2D,
    in_frame: bool,
    in_pass: bool,
    frame_index: u64,
    next_pipeline: u32,
    next_compute: u32,
    next_slot: u32,
    next_buffer: u32,
    cbv_next: u32,
    textures: Vec<TexState>,
}

/// The Null device.
pub struct NullGpu {
    s: NullState,
}

impl View for NullGpu {
    type V = NullModel;

    closed spec fn view(&self) -> NullModel {
        NullModel {
            extent: self.s.extent,
            in_frame: self.s.in_frame,
            in_pass: self.s.in_pass,
            frame_index: self.s.frame_index,
            next_pipeline: self.s.next_pipeline,
            next_compute: self.s.next_compute,
            next_slot: self.s.next_slot,
            next_buffer: self.s.next_buffer,
            cbv_next: self.s.cbv_next,
            textures: self.s.textures@,
        }
    }
}

impl NullGpu {
    pub fn new(desc: &DeviceDesc) -> (g: Self)
        ensures
            g@ == null_initial(desc.width, desc.height),
            null_wf(g@),
    {
        let width = if desc.width >= 1 { desc.width } else { 1 };
        let height = if desc.height >= 1 { desc.height } else { 1 };
        let g = NullGpu {
            s: NullState {
                extent: Extent2D { width, height },
                in_frame: false,
                in_pass: false,
                frame_index: 0,
                next_pipeline: 1,
                next_compute: 1,
                next_slot: 1,
                next_buffer: 1,
                cbv_next: 0,
                textures: vec![TexState { bindless_slot: 0, mip_levels: 1, uploaded: 1 }],
            },
        };
        assert(g@.textures =~= seq![null_texture()]);
        g
    }

    /// Opens a frame and gives its constant budget back.
    pub fn begin_frame(&mut self) -> (r: Result<FrameInfo, RhiError>)
        requires
            null_wf(old(self)@),
        ensures
            null_wf(final(self)@),
            match r {
                Ok(info) => {
                    &&& !old(self)@.in_frame
                    &&& final(self)@ == frame_begun(old(self)@)
                    &&& info.extent == old(self)@.extent
                    &&& info.format == Format::Bgra8Unorm
                    &&& info.frame_index == old(self)@.frame_index
                    &&& info.skipped == (old(self)@.extent.width == 0 || old(self)@.extent.height == 0)
                },
                Err(e) => old(self)@.in_frame && final(self)@ == old(self)@ && is_message(
                    e,
                    "begin_frame while a frame is open"@,
                ),
            },
    {
        if self.s.in_frame {
            return Err(RhiError::msg("begin_frame while a frame is open"));
        }
        self.s.in_frame = true;
        self.s.cbv_next = 0;
        let skipped = self.s.extent.is_zero();
        Ok(FrameInfo { extent: self.s.extent, format: Format::Bgra8Unorm, frame_index: self.s.frame_index, skipped })
    }

    /// Opens the pass that draws to the swapchain. (The clear colour is for a
    /// real target; the Null device has none.)
    pub fn begin_swapchain_pass(&mut self) -> (r: Result<(), RhiError>)
        requires
            null_wf(old(self)@),
        ensures
            null_wf(final(self)@),
            match r {
                Ok(_) => can_begin_pass(old(self)@) && final(self)@ == pass_begun(old(self)@),
                Err(e) => final(self)@ == old(self)@ && if !old(self)@.in_frame {
                    e is NotInFrame
                } else {
                    old(self)@.in_pass && e is PassMismatch
                },
            },
    {
        if !self.s.in_frame {
            return Err(RhiError::NotInFrame);
        }
        if self.s.in_pass {
            return Err(RhiError::PassMismatch);
        }
        self.s.in_pass = true;
        Ok(())
    }

    /// Refuses with `PassMismatch` outside a pass; changes nothing.
    fn in_pass_only(&self) -> (r: Result<(), RhiError>)
        ensures
            match r {
                Ok(_) => self@.in_pass,
                Err(e) => !self@.in_pass && e is PassMismatch,
            },
    {
        if !self.s.in_pass {
            return Err(RhiError::PassMismatch);
        }
        Ok(())
    }

    pub fn set_pipeline(&mut self, pipeline: &GraphicsPipeline) -> (r: Result<(), RhiError>)
        ensures
            final(self)@ == old(self)@,
            r is Ok <==> old(self)@.in_pass,
            r matches Err(e) ==> e is PassMismatch,
    {
        self.in_pass_only()
    }

    pub fn draw(&mut self, vertex_count: u32, instance_count: u32, first_vertex: u32, first_instance: u32) -> (r:
        Result<(), RhiError>)
        ensures
            final(self)@ == old(self)@,
            r is Ok <==> old(self)@.in_pass,
            r matches Err(e) ==> e is PassMismatch,
    {
        self.in_pass_only()
    }

    pub fn end_swapchain_pass(&mut self) -> (r: Result<(), RhiError>)
        requires
            null_wf(old(self)@),
        ensures
            null_wf(final(self)@),
            match r {
                Ok(_) => old(self)@.in_pass && final(self)@ == pass_ended(old(self)@),
                Err(e) => !old(self)@.in_pass && final(self)@ == old(self)@ && e is PassMismatch,
            },
    {
        self.in_pass_only()?;
        self.s.in_pass = false;
        Ok(())
    }

    /// Closes the frame; the frame counter moves on by one.
    pub fn end_frame(&mut self) -> (r: Result<(), RhiError>)
        requires
            null_wf(old(self)@),
            old(self)@.frame_index < u64::MAX,
        ensures
            null_wf(final(self)@),
            match r {
                Ok(_) => can_begin_pass(old(self)@) && final(self)@ == frame_ended(old(self)@),
                Err(e) => final(self)@ == old(self)@ && if !old(self)@.in_frame {
                    e is NotInFrame
                } else {
                    old(self)@.in_pass && e is PassMismatch
                },
            },
    {
        if !self.s.in_frame {
            return Err(RhiError::NotInFrame);
        }
        if self.s.in_pass {
            return Err(RhiError::PassMismatch);
        }
        self.s.in_frame = false;
        self.s.frame_index = self.s.frame_index + 1;
        Ok(())
    }

    pub fn resize(&mut self, width: u32, height: u32) -> (r: Result<(), RhiError>)
        requires
            null_wf(old(self)@),
        ensures
            null_wf(final(self)@),
            r is Ok,
            final(self)@ == (NullModel { extent: Extent2D { width, height }, ..old(self)@ }),
    {
        self.s.extent = Extent2D { width, height };
        Ok(())
    }

    pub fn present_format(&self) -> (f: Format)
        ensures
            f == Format::Bgra8Unorm,
    {
        Format::Bgra8Unorm
    }

    pub fn extent(&self) -> (e: Extent2D)
        ensures
            e == self@.extent,
    {
        self.s.extent
    }

    /// Hands out the next pipeline id.
    pub fn create_graphics_pipeline(&mut self, desc: &GraphicsPipelineDesc<'_>) -> (r: Result<
        GraphicsPipeline,
        RhiError,
    >)
        requires
            null_wf(old(self)@),
            old(self)@.next_pipeline < u32::MAX,
        ensures
            null_wf(final(self)@),
            r matches Ok(p) && p@ == old(self)@.next_pipeline,
            final(self)@ == (NullModel { next_pipeline: (old(self)@.next_pipeline + 1) as u32, ..old(self)@ }),
    {
        let id = self.s.next_pipeline;
        self.s.next_pipeline = self.s.next_pipeline + 1;
        Ok(GraphicsPipeline::with_id(id))
    }

    pub fn wait_idle(&self) -> (r: Result<(), RhiError>)
        ensures
            r is Ok,
    {
        Ok(())
    }

    /// Without a GPU a storage buffer is a handle and nothing more: the same
    /// numbering as vertex buffers.
    pub fn create_storage_buffer(&mut self, slot: u32, bytes: &[u8]) -> (r: Result<Buffer, RhiError>)
        requires
            null_wf(old(self)@),
            old(self)@.next_buffer < u32::MAX,
        ensures
            null_wf(final(self)@),
            r matches Ok(b) && b@ == old(self)@.next_buffer,
            final(self)@ == (NullModel { next_buffer: (old(self)@.next_buffer + 1) as u32, ..old(self)@ }),
    {
        self.create_vertex_buffer(bytes)
    }

    pub fn write_storage_buffer(&mut self, buffer: Buffer, bytes: &[u8]) -> (r: Result<(), RhiError>)
        ensures
            r is Ok,
            final(self)@ == old(self)@,
    {
        Ok(())
    }

    /// Nothing to time without a GPU.
    pub fn mark(&mut self, label: &'static str)
        ensures
            final(self)@ == old(self)@,
    {
    }

    pub fn validation_error_count(&self) -> (n: u32)
        ensures
            n == 0,
    {
        0
    }

    /// A new texture takes the next bindless slot; its handle is its index.
    pub fn create_texture(&mut self, desc: &TextureDesc) -> (r: Result<Texture, RhiError>)
        requires
            null_wf(old(self)@),
            old(self)@.next_slot < u32::MAX,
        ensures
            null_wf(final(self)@),
            r matches Ok(t) && t@ == old(self)@.textures.len(),
            final(self)@ == texture_created(old(self)@, desc.mip_levels),
    {
        let slot = self.s.next_slot;
        self.s.next_slot = self.s.next_slot + 1;
        let id = self.s.textures.len() as u32;
        let mip_levels = if desc.mip_levels >= 1 { desc.mip_levels } else { 1 };
        self.s.textures.push(TexState { bindless_slot: slot, mip_levels, uploaded: 0 });
        let t = Texture::from_raw(id);
        assert(final(self)@.textures =~= texture_created(old(self)@, desc.mip_levels).textures);
        Ok(t)
    }

    /// Counts one more uploaded level of `tex`, up to its level count.
    pub fn upload_texture_mip(&mut self, tex: Texture, mip: u32, rgba: &[u8]) -> (r: Result<(), RhiError>)
        requires
            null_wf(old(self)@),
        ensures
            null_wf(final(self)@),
            match r {
                Ok(_) => {
                    &&& tex@ < old(self)@.textures.len()
                    &&& mip < old(self)@.textures[tex@ as int].mip_levels
                    &&& final(self)@ == mip_uploaded(old(self)@, tex@)
                },
                Err(e) => final(self)@ == old(self)@ && if tex@ >= old(self)@.textures.len() {
                    is_message(e, "invalid texture"@)
                } else {
                    mip >= old(self)@.textures[tex@ as int].mip_levels && is_message(e, "mip out of range"@)
                },
            },
    {
        let i = tex.raw() as usize;
        if i >= self.s.textures.len() {
            return Err(RhiError::msg("invalid texture"));
        }
        let t = self.s.textures[i];
        if mip >= t.mip_levels {
            return Err(RhiError::msg("mip out of range"));
        }
        let more = t.uploaded.saturating_add(1);
        let uploaded = if more <= t.mip_levels { more } else { t.mip_levels };
        self.s.textures.set(i, TexState { uploaded, ..t });
        assert(final(self)@.textures =~= mip_uploaded(old(self)@, tex@).textures);
        Ok(())
    }

    pub fn bind_volume_uav(&mut self, slot: u32, tex: Texture) -> (r: Result<(), RhiError>)
        ensures
            final(self)@ == old(self)@,
            match r {
                Ok(_) => slot < VOLUME_UAV_SLOTS,
                Err(e) => slot >= VOLUME_UAV_SLOTS && is_message(e, "volume UAV slot out of range"@),
            },
    {
        if slot >= VOLUME_UAV_SLOTS {
            return Err(RhiError::msg("volume UAV slot out of range"));
        }
        Ok(())
    }

    pub fn bind_volume_srv(&mut self, slot: u32, tex: Texture) -> (r: Result<(), RhiError>)
        ensures
            final(self)@ == old(self)@,
            match r {
                Ok(_) => slot < VOLUME_SRV_SLOTS,
                Err(e) => slot >= VOLUME_SRV_SLOTS && is_message(e, "volume SRV slot out of range"@),
            },
    {
        if slot >= VOLUME_SRV_SLOTS {
            return Err(RhiError::msg("volume SRV slot out of range"));
        }
        Ok(())
    }

    /// No pixels without a GPU: reading back is for the real backend.
    pub fn read_texture(&mut self, tex: Texture) -> (r: Result<TextureData, RhiError>)
        ensures
            final(self)@ == old(self)@,
            r matches Err(e) && is_message(e, "read_texture needs the Vulkan backend"@),
    {
        Err(RhiError::msg("read_texture needs the Vulkan backend"))
    }

    pub fn bindless_index(&self, tex: Texture) -> (r: Result<u32, RhiError>)
        ensures
            match r {
                Ok(slot) => bindless_slot_of(self@, tex@) == Some(slot),
                Err(e) => bindless_slot_of(self@, tex@) is None && is_message(e, "invalid texture"@),
            },
    {
        let i = tex.raw() as usize;
        if i >= self.s.textures.len() {
            return Err(RhiError::msg("invalid texture"));
        }
        Ok(self.s.textures[i].bindless_slot)
    }

    /// Takes one chunk of the frame's constant ring.
    fn take_cbv_chunk(&mut self) -> (r: Result<(), RhiError>)
        requires
            null_wf(old(self)@),
        ensures
            null_wf(final(self)@),
            match r {
                Ok(_) => cbv_available(old(self)@) && final(self)@ == cbv_taken(old(self)@),
                Err(e) => !cbv_available(old(self)@) && final(self)@ == old(self)@ && is_message(
                    e,
                    "frame CBV ring exhausted: more write_frame_bytes than FRAME_CBV_CHUNKS"@,
                ),
            },
    {
        if self.s.cbv_next >= FRAME_CBV_CHUNKS {
            return Err(
                RhiError::msg("frame CBV ring exhausted: more write_frame_bytes than FRAME_CBV_CHUNKS"),
            );
        }
        self.s.cbv_next = self.s.cbv_next + 1;
        Ok(())
    }

    pub fn write_frame_constants(&mut self, c: FrameConstants) -> (r: Result<(), RhiError>)
        requires
            null_wf(old(self)@),
        ensures
            null_wf(final(self)@),
            match r {
                Ok(_) => old(self)@.in_frame && cbv_available(old(self)@) && final(self)@ == cbv_taken(
                    old(self)@,
                ),
                Err(e) => final(self)@ == old(self)@ && if !old(self)@.in_frame {
                    e is NotInFrame
                } else {
                    !cbv_available(old(self)@) && is_message(
                        e,
                        "frame CBV ring exhausted: more write_frame_bytes than FRAME_CBV_CHUNKS"@,
                    )
                },
            },
    {
        if !self.s.in_frame {
            return Err(RhiError::NotInFrame);
        }
        self.take_cbv_chunk()
    }

    pub fn bind_graphics_bindless(&mut self) -> (r: Result<(), RhiError>)
        ensures
            final(self)@ == old(self)@,
            r is Ok <==> old(self)@.in_pass,
            r matches Err(e) ==> e is PassMismatch,
    {
        self.in_pass_only()
    }

    pub fn create_compute_pipeline(&mut self, desc: &ComputePipelineDesc<'_>) -> (r: Result<
        ComputePipeline,
        RhiError,
    >)
        requires
            null_wf(old(self)@),
            old(self)@.next_compute < u32::MAX,
        ensures
            null_wf(final(self)@),
            r matches Ok(p) && p@ == old(self)@.next_compute,
            final(self)@ == (NullModel { next_compute: (old(self)@.next_compute + 1) as u32, ..old(self)@ }),
    {
        let id = self.s.next_compute;
        self.s.next_compute = self.s.next_compute + 1;
        Ok(ComputePipeline::with_id(id))
    }

    /// Refuses with `PassMismatch` outside a frame or inside a pass.
    fn compute_only(&self) -> (r: Result<(), RhiError>)
        ensures
            match r {
                Ok(_) => compute_scope(self@),
                Err(e) => !compute_scope(self@) && e is PassMismatch,
            },
    {
        if !self.s.in_frame || self.s.in_pass {
            return Err(RhiError::PassMismatch);
        }
        Ok(())
    }

    pub fn set_compute_pipeline(&mut self, pipeline: &ComputePipeline) -> (r: Result<(), RhiError>)
        ensures
            final(self)@ == old(self)@,
            r is Ok <==> compute_scope(old(self)@),
            r matches Err(e) ==> e is PassMismatch,
    {
        self.compute_only()
    }

    pub fn bind_compute_bindless(&mut self) -> (r: Result<(), RhiError>)
        ensures
            final(self)@ == old(self)@,
            r is Ok <==> compute_scope(old(self)@),
            r matches Err(e) ==> e is PassMismatch,
    {
        self.compute_only()
    }

    pub fn dispatch(&mut self, x: u32, y: u32, z: u32) -> (r: Result<(), RhiError>)
        ensures
            final(self)@ == old(self)@,
            r is Ok <==> compute_scope(old(self)@),
            r matches Err(e) ==> e is PassMismatch,
    {
        self.compute_only()
    }

    pub fn storage_barrier(&mut self, tex: Texture) -> (r: Result<(), RhiError>)
        ensures
            final(self)@ == old(self)@,
            r is Ok <==> old(self)@.in_frame,
            r matches Err(e) ==> e is NotInFrame,
    {
        if !self.s.in_frame {
            return Err(RhiError::NotInFrame);
        }
        Ok(())
    }

    /// Writes one set of frame constants: one chunk of the ring.
    pub fn write_frame_bytes(&mut self, data: &[u8]) -> (r: Result<(), RhiError>)
        requires
            null_wf(old(self)@),
        ensures
            null_wf(final(self)@),
            match r {
                Ok(_) => old(self)@.in_frame && cbv_available(old(self)@) && final(self)@ == cbv_taken(
                    old(self)@,
                ),
                Err(e) => final(self)@ == old(self)@ && if !old(self)@.in_frame {
                    e is NotInFrame
                } else {
                    !cbv_available(old(self)@) && is_message(
                        e,
                        "frame CBV ring exhausted: more write_frame_bytes than FRAME_CBV_CHUNKS"@,
                    )
                },
            },
    {
        if !self.s.in_frame {
            return Err(RhiError::NotInFrame);
        }
        self.take_cbv_chunk()
    }

    pub fn set_push_constants(&mut self, data: &[u8]) -> (r: Result<(), RhiError>)
        ensures
            final(self)@ == old(self)@,
            r is Ok <==> old(self)@.in_pass,
            r matches Err(e) ==> e is PassMismatch,
    {
        self.in_pass_only()
    }

    /// (The rectangle itself is for a real rasteriser.)
    pub fn set_viewport(&mut self) -> (r: Result<(), RhiError>)
        ensures
            final(self)@ == old(self)@,
            r is Ok <==> old(self)@.in_pass,
            r matches Err(e) ==> e is PassMismatch,
    {
        self.in_pass_only()
    }

    /// Opens a pass into `colors` and `depth`; at least one target is needed.
    /// (Clear values are for a real target.)
    pub fn begin_color_pass(&mut self, colors: &[Texture], depth: Option<Texture>) -> (r: Result<(), RhiError>)
        requires
            null_wf(old(self)@),
        ensures
            null_wf(final(self)@),
            match r {
                Ok(_) => {
                    &&& can_begin_pass(old(self)@)
                    &&& (colors@.len() > 0 || depth is Some)
                    &&& final(self)@ == pass_begun(old(self)@)
                },
                Err(e) => final(self)@ == old(self)@ && if !old(self)@.in_frame {
                    e is NotInFrame
                } else if old(self)@.in_pass {
                    e is PassMismatch
                } else {
                    colors@.len() == 0 && depth is None && is_message(
                        e,
                        "begin_color_pass needs a color RT or a depth target"@,
                    )
                },
            },
    {
        if !self.s.in_frame {
            return Err(RhiError::NotInFrame);
        }
        if self.s.in_pass {
            return Err(RhiError::PassMismatch);
        }
        if colors.len() == 0 && depth.is_none() {
            return Err(RhiError::msg("begin_color_pass needs a color RT or a depth target"));
        }
        self.s.in_pass = true;
        Ok(())
    }

    pub fn end_color_pass(&mut self) -> (r: Result<(), RhiError>)
        requires
            null_wf(old(self)@),
        ensures
            null_wf(final(self)@),
            match r {
                Ok(_) => old(self)@.in_pass && final(self)@ == pass_ended(old(self)@),
                Err(e) => !old(self)@.in_pass && final(self)@ == old(self)@ && e is PassMismatch,
            },
    {
        self.in_pass_only()?;
        self.s.in_pass = false;
        Ok(())
    }

    pub fn create_vertex_buffer(&mut self, bytes: &[u8]) -> (r: Result<Buffer, RhiError>)
        requires
            null_wf(old(self)@),
            old(self)@.next_buffer < u32::MAX,
        ensures
            null_wf(final(self)@),
            r matches Ok(b) && b@ == old(self)@.next_buffer,
            final(self)@ == (NullModel { next_buffer: (old(self)@.next_buffer + 1) as u32, ..old(self)@ }),
    {
        let id = self.s.next_buffer;
        self.s.next_buffer = self.s.next_buffer + 1;
        Ok(Buffer::from_raw(id))
    }

    pub fn create_index_buffer(&mut self, bytes: &[u8]) -> (r: Result<Buffer, RhiError>)
        requires
            null_wf(old(self)@),
            old(self)@.next_buffer < u32::MAX,
        ensures
            null_wf(final(self)@),
            r matches Ok(b) && b@ == old(self)@.next_buffer,
            final(self)@ == (NullModel { next_buffer: (old(self)@.next_buffer + 1) as u32, ..old(self)@ }),
    {
        let id = self.s.next_buffer;
        self.s.next_buffer = self.s.next_buffer + 1;
        Ok(Buffer::from_raw(id))
    }

    pub fn bind_vertex_buffer(&mut self, buf: Buffer, binding: u32) -> (r: Result<(), RhiError>)
        ensures
            final(self)@ == old(self)@,
            r is Ok <==> old(self)@.in_pass,
            r matches Err(e) ==> e is PassMismatch,
    {
        self.in_pass_only()
    }

    pub fn bind_index_buffer(&mut self, buf: Buffer) -> (r: Result<(), RhiError>)
        ensures
            final(self)@ == old(self)@,
            r is Ok <==> old(self)@.in_pass,
            r matches Err(e) ==> e is PassMismatch,
    {
        self.in_pass_only()
    }

    pub fn draw_indexed(
        &mut self,
        index_count: u32,
        instance_count: u32,
        first_index: u32,
        vertex_offset: i32,
        first_instance: u32,
    ) -> (r: Result<(), RhiError>)
        ensures
            final(self)@ == old(self)@,
            r is Ok <==> old(self)@.in_pass,
            r matches Err(e) ==> e is PassMismatch,
    {
        self.in_pass_only()
    }
}

} // verus!
