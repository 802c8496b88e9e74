//! The bindless heap: 8192 sampled-texture slots, slot 0 the null texture
//! for ever, and the per-frame ring of constant chunks.

use vstd::prelude::*;

use crate::engine::{BINDLESS_HEAP_SIZE, BINDLESS_NULL_SLOT};
use crate::null_gpu::{is_message, RhiError};
use crate::text::{decimal, new_text, push_decimal, push_text};
use crate::rhi::{
    default_texture_desc, Format, TextureDesc, TextureDim, FRAMES_IN_FLIGHT, FRAME_CBV_CHUNKS, FRAME_CBV_RING_SIZE,
    FRAME_UBO_SIZE, STORAGE_BUFFER_SLOTS, VOLUME_SRV_SLOTS, VOLUME_UAV_SLOTS,
};

verus! {

/// The null texture: a sampled 1x1 RGBA8 image.
pub fn dummy_desc() -> (d: TextureDesc)
    ensures
        d == default_texture_desc(),
{
    TextureDesc {
        width: 1,
        height: 1,
        depth_slices: 1,
        dim: TextureDim::D2,
        mip_levels: 1,
        format: Format::Rgba8Unorm,
        sampled: true,
        storage: false,
        color_attachment: false,
        depth: false,
    }
}

/// Magenta: a sampler that lands on the null texture is seen at once.
pub fn dummy_pixel() -> (p: [u8; 4])
    ensures
        p@ == seq![255u8, 0u8, 255u8, 255u8],
{
    let p = [255u8, 0u8, 255u8, 255u8];
    assert(p@ =~= seq![255u8, 0u8, 255u8, 255u8]);
    p
}

/// The 1x1x1 volume every volume slot points at until a real one claims it.
pub fn volume_dummy_desc() -> (d: TextureDesc)
    ensures
        d == (TextureDesc {
            width: 1,
            height: 1,
            depth_slices: 1,
            dim: TextureDim::D3,
            mip_levels: 1,
            format: Format::Rgba16Float,
            sampled: true,
            storage: true,
            color_attachment: false,
            depth: false,
        }),
{
    TextureDesc {
        width: 1,
        height: 1,
        depth_slices: 1,
        dim: TextureDim::D3,
        mip_levels: 1,
        format: Format::Rgba16Float,
        sampled: true,
        storage: true,
        color_attachment: false,
        depth: false,
    }
}

/// The slots of the heap handed out so far: `1 .. next_slot`.
pub struct Bindless {
    next_slot: u32,
}

impl View for Bindless {
    type V = u32;

    /// The next slot to hand out.
    closed spec fn view(&self) -> u32 {
        self.next_slot
    }
}

/// A heap never hands out slot 0 nor runs past its size.
pub open spec fn heap_wf(next_slot: u32) -> bool {
    BINDLESS_NULL_SLOT < next_slot <= BINDLESS_HEAP_SIZE
}

/// `n` slot allocations in a row succeed, from a heap whose next slot is
/// `next_slot`.
pub open spec fn allocations_fit(next_slot: u32, n: nat) -> bool
    decreases n,
{
    if n == 0 {
        true
    } else {
        next_slot < BINDLESS_HEAP_SIZE && allocations_fit((next_slot + 1) as u32, (n - 1) as nat)
    }
}

pub open spec fn cbv_ring_message() -> Seq<char> {
    "frame CBV ring exhausted: more write_frame_bytes than FRAME_CBV_CHUNKS"@
}

impl Bindless {
    /// A heap with only the null slot taken.
    pub fn new() -> (b: Self)
        ensures
            b@ == BINDLESS_NULL_SLOT + 1,
            heap_wf(b@),
    {
        Bindless { next_slot: BINDLESS_NULL_SLOT + 1 }
    }

    /// Hands out the next free slot.
    pub fn alloc_slot(&mut self) -> (r: Result<u32, RhiError>)
        requires
            heap_wf(old(self)@),
        ensures
            heap_wf(final(self)@),
            match r {
                Ok(slot) => slot == old(self)@ && slot < BINDLESS_HEAP_SIZE && final(self)@ == slot + 1,
                Err(e) => old(self)@ == BINDLESS_HEAP_SIZE && final(self)@ == old(self)@ && is_message(
                    e,
                    "bindless heap exhausted"@,
                ),
            },
    {
        if self.next_slot >= BINDLESS_HEAP_SIZE {
            return Err(RhiError::msg("bindless heap exhausted"));
        }
        let slot = self.next_slot;
        self.next_slot = self.next_slot + 1;
        Ok(slot)
    }

    /// Byte offset of chunk `n` in the frame ring.
    pub fn chunk_offset(n: u32) -> (r: Result<u32, RhiError>)
        ensures
            match r {
                Ok(off) => n < FRAME_CBV_CHUNKS && off == n * FRAME_UBO_SIZE && off + FRAME_UBO_SIZE
                    <= FRAME_CBV_RING_SIZE,
                Err(e) => n >= FRAME_CBV_CHUNKS && is_message(e, cbv_ring_message()),
            },
    {
        if n >= FRAME_CBV_CHUNKS {
            return Err(
                RhiError::msg("frame CBV ring exhausted: more write_frame_bytes than FRAME_CBV_CHUNKS"),
            );
        }
        Ok(n * FRAME_UBO_SIZE as u32)
    }
}

/// A fresh heap hands out exactly `BINDLESS_HEAP_SIZE - 1` slots: `n`
/// allocations in a row succeed when `n` is at most that, and the slots are
/// `1, 2, ..`: never 0, never one twice.
pub proof fn the_heap_holds_all_but_the_null_slot(next_slot: u32, n: nat)
    requires
        heap_wf(next_slot),
    ensures
        allocations_fit(next_slot, n) <==> next_slot + n <= BINDLESS_HEAP_SIZE,
        allocations_fit((BINDLESS_NULL_SLOT + 1) as u32, n) <==> n <= BINDLESS_HEAP_SIZE - 1,
{
    lemma_allocations_fit(next_slot, n);
    lemma_allocations_fit((BINDLESS_NULL_SLOT + 1) as u32, n);
}

proof fn lemma_allocations_fit(next_slot: u32, n: nat)
    requires
        next_slot <= BINDLESS_HEAP_SIZE,
    ensures
        allocations_fit(next_slot, n) <==> next_slot + n <= BINDLESS_HEAP_SIZE,
    decreases n,
{
    if n > 0 && next_slot < BINDLESS_HEAP_SIZE {
        lemma_allocations_fit((next_slot + 1) as u32, (n - 1) as nat);
    }
}

/// The frame ring can be bound chunk by chunk only when each chunk starts on
/// the device's uniform-buffer offset alignment, that is when the chunk size
/// is a multiple of it.
pub open spec fn ubo_alignment_ok(align: u64) -> bool {
    align != 0 && FRAME_UBO_SIZE % align == 0
}

pub open spec fn alignment_message(align: u64) -> Seq<char> {
    "FRAME_UBO_SIZE "@ + decimal(FRAME_UBO_SIZE as nat) + " is not a multiple of minUniformBufferOffsetAlignment "@
        + decimal(align as nat)
}

/// Refuses a device whose uniform-buffer offset alignment does not divide
/// the chunk size.
pub fn check_ubo_alignment(min_ubo_align: u64) -> (r: Result<(), RhiError>)
    ensures
        match r {
            Ok(_) => ubo_alignment_ok(min_ubo_align),
            Err(e) => !ubo_alignment_ok(min_ubo_align) && is_message(e, alignment_message(min_ubo_align)),
        },
{
    if min_ubo_align == 0 || FRAME_UBO_SIZE % min_ubo_align != 0 {
        let mut m = new_text("FRAME_UBO_SIZE ");
        push_decimal(&mut m, FRAME_UBO_SIZE);
        push_text(&mut m, " is not a multiple of minUniformBufferOffsetAlignment ");
        push_decimal(&mut m, min_ubo_align);
        return Err(RhiError::Message(m));
    }
    Ok(())
}

/// Where a write of `len` bytes to chunk `offset` of frame slot `slot` is
/// refused: a slot past the `frames` in flight, more than one chunk of
/// data, or a chunk that runs past the end of a ring of `ring_size` bytes.
pub fn check_chunk_write(slot: usize, frames: usize, offset: u32, len: usize, ring_size: u64) -> (r: Result<
    (),
    RhiError,
>)
    ensures
        match r {
            Ok(_) => slot < frames && len <= FRAME_UBO_SIZE && offset + FRAME_UBO_SIZE <= ring_size,
            Err(e) => if slot >= frames {
                is_message(e, "bad frame slot"@)
            } else if len > FRAME_UBO_SIZE {
                is_message(e, "frame CBV write larger than one chunk"@)
            } else {
                offset + FRAME_UBO_SIZE > ring_size && is_message(e, "frame CBV chunk out of the ring"@)
            },
        },
{
    if slot >= frames {
        return Err(RhiError::msg("bad frame slot"));
    }
    if len as u64 > FRAME_UBO_SIZE {
        return Err(RhiError::msg("frame CBV write larger than one chunk"));
    }
    if offset as u64 + FRAME_UBO_SIZE > ring_size {
        return Err(RhiError::msg("frame CBV chunk out of the ring"));
    }
    Ok(())
}

/// On a device whose alignment was accepted, every chunk of the frame ring
/// starts on an aligned offset.
pub proof fn accepted_alignment_aligns_every_chunk(align: u64, n: u32)
    requires
        ubo_alignment_ok(align),
        n < FRAME_CBV_CHUNKS,
    ensures
        (n * FRAME_UBO_SIZE) % (align as int) == 0,
{
    let a = align as int;
    vstd::arithmetic::div_mod::lemma_fundamental_div_mod(FRAME_UBO_SIZE as int, a);
    let q = (FRAME_UBO_SIZE as int) / a;
    assert(FRAME_UBO_SIZE as int == a * q);
    assert(n * FRAME_UBO_SIZE == (n * q) * a) by (nonlinear_arith)
        requires
            FRAME_UBO_SIZE as int == a * q,
    ;
    vstd::arithmetic::div_mod::lemma_mod_multiples_basic(n * q, a);
}

/// Two different chunks of the frame ring never overlap.
pub proof fn chunks_do_not_overlap(a: u32, b: u32)
    requires
        a < b < FRAME_CBV_CHUNKS,
    ensures
        a * FRAME_UBO_SIZE + FRAME_UBO_SIZE <= b * FRAME_UBO_SIZE,
{
}

// ---------------------------------------------------------------------------
// The descriptor sets of the heap, and the pool they come from.
// ---------------------------------------------------------------------------

/// Shader stages, as the Vulkan specification numbers them.
pub const STAGE_VERTEX: u32 = 0x1;
pub const STAGE_FRAGMENT: u32 = 0x10;
pub const STAGE_COMPUTE: u32 = 0x20;
pub const STAGE_ALL: u32 = 0x7FFF_FFFF;

/// Sets the pool can hand out.
pub const POOL_MAX_SETS: u32 = 10;

#[derive(Clone, Copy, Debug, PartialEq, Eq, Structural)]
pub enum DescriptorKind {
    UniformBufferDynamic,
    SampledImage,
    Sampler,
    StorageImage,
    StorageBuffer,
}

/// One binding of a set layout.
#[derive(Clone, Copy, Debug, PartialEq, Eq, Structural)]
pub struct DescriptorBinding {
    pub binding: u32,
    pub kind: DescriptorKind,
    pub count: u32,
    pub stages: u32,
    /// Written while bound, partly bound, of variable count: the texture heap.
    pub bindless: bool,
}

pub open spec fn spec_binding(binding: u32, kind: DescriptorKind, count: u32, stages: u32) -> DescriptorBinding {
    DescriptorBinding { binding, kind, count, stages, bindless: false }
}

/// The six set layouts: 0 the frame's constant chunk, 1 the texture heap,
/// 2 the three samplers, 3 the storage buffers, 4 the storage images (one 2D,
/// then the volume slots), 5 the sampled volumes.
pub open spec fn spec_set_layouts() -> Seq<Seq<DescriptorBinding>> {
    let vfc = STAGE_VERTEX | STAGE_FRAGMENT | STAGE_COMPUTE;
    seq![
        seq![spec_binding(0, DescriptorKind::UniformBufferDynamic, 1, STAGE_ALL)],
        seq![
            DescriptorBinding {
                binding: 0,
                kind: DescriptorKind::SampledImage,
                count: BINDLESS_HEAP_SIZE,
                stages: vfc,
                bindless: true,
            },
        ],
        seq![
            spec_binding(0, DescriptorKind::Sampler, 1, vfc),
            spec_binding(1, DescriptorKind::Sampler, 1, vfc),
            spec_binding(2, DescriptorKind::Sampler, 1, vfc),
        ],
        seq![spec_binding(0, DescriptorKind::StorageBuffer, STORAGE_BUFFER_SLOTS, vfc)],
        seq![
            spec_binding(0, DescriptorKind::StorageImage, 1, STAGE_COMPUTE),
            spec_binding(1, DescriptorKind::StorageImage, VOLUME_UAV_SLOTS, STAGE_COMPUTE),
        ],
        seq![spec_binding(0, DescriptorKind::SampledImage, VOLUME_SRV_SLOTS, vfc)],
    ]
}

fn plain_binding(binding: u32, kind: DescriptorKind, count: u32, stages: u32) -> (b: DescriptorBinding)
    ensures
        b == spec_binding(binding, kind, count, stages),
{
    DescriptorBinding { binding, kind, count, stages, bindless: false }
}

/// The set layouts of the heap, set by set.
pub fn set_layouts() -> (sets: Vec<Vec<DescriptorBinding>>)
    ensures
        sets@.len() == 6,
        forall|i: int| 0 <= i < 6 ==> (#[trigger] sets@[i])@ == spec_set_layouts()[i],
{
    let vfc = STAGE_VERTEX | STAGE_FRAGMENT | STAGE_COMPUTE;
    let set0 = vec![plain_binding(0, DescriptorKind::UniformBufferDynamic, 1, STAGE_ALL)];
    let set1 = vec![
        DescriptorBinding {
            binding: 0,
            kind: DescriptorKind::SampledImage,
            count: BINDLESS_HEAP_SIZE,
            stages: vfc,
            bindless: true,
        },
    ];
    let set2 = vec![
        plain_binding(0, DescriptorKind::Sampler, 1, vfc),
        plain_binding(1, DescriptorKind::Sampler, 1, vfc),
        plain_binding(2, DescriptorKind::Sampler, 1, vfc),
    ];
    let set3 = vec![plain_binding(0, DescriptorKind::StorageBuffer, STORAGE_BUFFER_SLOTS, vfc)];
    let set4 = vec![
        plain_binding(0, DescriptorKind::StorageImage, 1, STAGE_COMPUTE),
        plain_binding(1, DescriptorKind::StorageImage, VOLUME_UAV_SLOTS, STAGE_COMPUTE),
    ];
    let set5 = vec![plain_binding(0, DescriptorKind::SampledImage, VOLUME_SRV_SLOTS, vfc)];
    let sets = vec![set0, set1, set2, set3, set4, set5];
    proof {
        assert(sets@[0]@ =~= spec_set_layouts()[0]);
        assert(sets@[1]@ =~= spec_set_layouts()[1]);
        assert(sets@[2]@ =~= spec_set_layouts()[2]);
        assert(sets@[3]@ =~= spec_set_layouts()[3]);
        assert(sets@[4]@ =~= spec_set_layouts()[4]);
        assert(sets@[5]@ =~= spec_set_layouts()[5]);
    }
    sets
}

/// What the pool holds of each kind of descriptor.
pub open spec fn spec_pool_sizes() -> Seq<(DescriptorKind, u32)> {
    seq![
        (DescriptorKind::UniformBufferDynamic, FRAMES_IN_FLIGHT),
        (DescriptorKind::SampledImage, (BINDLESS_HEAP_SIZE + VOLUME_SRV_SLOTS) as u32),
        (DescriptorKind::Sampler, 6u32),
        (DescriptorKind::StorageImage, (8 + VOLUME_UAV_SLOTS) as u32),
        (DescriptorKind::StorageBuffer, STORAGE_BUFFER_SLOTS),
    ]
}

/// The pool's sizes, kind by kind.
pub fn pool_sizes() -> (p: Vec<(DescriptorKind, u32)>)
    ensures
        p@ == spec_pool_sizes(),
{
    let p = vec![
        (DescriptorKind::UniformBufferDynamic, FRAMES_IN_FLIGHT),
        (DescriptorKind::SampledImage, BINDLESS_HEAP_SIZE + VOLUME_SRV_SLOTS),
        (DescriptorKind::Sampler, 6u32),
        (DescriptorKind::StorageImage, 8 + VOLUME_UAV_SLOTS),
        (DescriptorKind::StorageBuffer, STORAGE_BUFFER_SLOTS),
    ];
    proof {
        assert(p@ =~= spec_pool_sizes());
    }
    p
}

/// How many of set `s` are taken from the pool: the constant chunk once per
/// frame in flight, every other set once.
pub open spec fn sets_taken(s: int) -> nat {
    if s == 0 {
        FRAMES_IN_FLIGHT as nat
    } else {
        1
    }
}

/// Descriptors of `kind` in the first `n` bindings of a layout.
pub open spec fn kind_in_set(set: Seq<DescriptorBinding>, kind: DescriptorKind, n: int) -> nat
    decreases n,
{
    if n <= 0 {
        0
    } else {
        kind_in_set(set, kind, n - 1) + if set[n - 1].kind == kind {
            set[n - 1].count as nat
        } else {
            0
        }
    }
}

/// Descriptors of `kind` taken by the first `n` sets.
pub open spec fn kind_demand(kind: DescriptorKind, n: int) -> nat
    decreases n,
{
    if n <= 0 {
        0
    } else {
        kind_demand(kind, n - 1) + sets_taken(n - 1) * kind_in_set(
            spec_set_layouts()[n - 1],
            kind,
            spec_set_layouts()[n - 1].len() as int,
        )
    }
}

/// The pool's size for `kind`.
pub open spec fn pool_size_of(kind: DescriptorKind) -> nat {
    match kind {
        DescriptorKind::UniformBufferDynamic => spec_pool_sizes()[0].1 as nat,
        DescriptorKind::SampledImage => spec_pool_sizes()[1].1 as nat,
        DescriptorKind::Sampler => spec_pool_sizes()[2].1 as nat,
        DescriptorKind::StorageImage => spec_pool_sizes()[3].1 as nat,
        DescriptorKind::StorageBuffer => spec_pool_sizes()[4].1 as nat,
    }
}

/// One more set adds what it takes of `kind`.
proof fn lemma_demand_step(kind: DescriptorKind, n: int, per_set: nat)
    requires
        1 <= n <= 6,
        per_set == kind_in_set(spec_set_layouts()[n - 1], kind, spec_set_layouts()[n - 1].len() as int),
    ensures
        kind_demand(kind, n) == kind_demand(kind, n - 1) + sets_taken(n - 1) * per_set,
{
}

/// The pool never runs dry when the heap takes its sets: of every kind it
/// holds at least what the sets need, and it has room for all of them.
pub proof fn the_pool_holds_every_set(kind: DescriptorKind)
    ensures
        kind_demand(kind, 6) <= pool_size_of(kind),
        sets_taken(0) + 5 <= POOL_MAX_SETS,
{
    let l = spec_set_layouts();
    assert(STAGE_VERTEX | STAGE_FRAGMENT | STAGE_COMPUTE == 0x31u32) by (bit_vector);
    reveal_with_fuel(kind_in_set, 4);
    let k0 = kind_in_set(l[0], kind, 1);
    let k1 = kind_in_set(l[1], kind, 1);
    let k2 = kind_in_set(l[2], kind, 3);
    let k3 = kind_in_set(l[3], kind, 1);
    let k4 = kind_in_set(l[4], kind, 2);
    let k5 = kind_in_set(l[5], kind, 1);
    assert(k0 == if kind == DescriptorKind::UniformBufferDynamic { 1nat } else { 0 });
    assert(k1 == if kind == DescriptorKind::SampledImage { 8192nat } else { 0 });
    assert(k2 == if kind == DescriptorKind::Sampler { 3nat } else { 0 });
    assert(k3 == if kind == DescriptorKind::StorageBuffer { 16nat } else { 0 });
    assert(k4 == if kind == DescriptorKind::StorageImage { 5nat } else { 0 });
    assert(k5 == if kind == DescriptorKind::SampledImage { 8nat } else { 0 });
    assert(l[0].len() == 1 && l[1].len() == 1 && l[2].len() == 3 && l[3].len() == 1 && l[4].len() == 2
        && l[5].len() == 1);
    lemma_demand_step(kind, 1, k0);
    lemma_demand_step(kind, 2, k1);
    lemma_demand_step(kind, 3, k2);
    lemma_demand_step(kind, 4, k3);
    lemma_demand_step(kind, 5, k4);
    lemma_demand_step(kind, 6, k5);
    assert(kind_demand(kind, 0) == 0);
    assert(kind_demand(kind, 6) == 2 * k0 + k1 + k2 + k3 + k4 + k5);
}

} // verus!
