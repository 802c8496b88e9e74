//! The occupancy volume the lighting cone-traces: 32³ RGBA8 voxels, `R`
//! (and `A`) set to 255 where geometry is. The world-to-voxel mapping is
//! floating point; which voxels a box covers, and what the volume holds, is
//! here.

use vstd::prelude::*;

use crate::rhi::{Format, TextureDesc, TextureDim};

verus! {

pub const OCCUPANCY_SIZE: u32 = 32;
/// Volume SRV slot (set 5): 0 is the fog, 1 often the noise.
pub const OCCUPANCY_SLOT: u32 = 2;
/// Voxels in the volume.
pub const OCCUPANCY_VOXELS: usize = 32768;
/// Bytes of the volume.
pub const OCCUPANCY_BYTES: usize = 131072;

/// The volume on the GPU: 3D, RGBA8, sampled.
pub fn occupancy_desc() -> (d: TextureDesc)
    ensures
        d == (TextureDesc {
            width: OCCUPANCY_SIZE,
            height: OCCUPANCY_SIZE,
            depth_slices: OCCUPANCY_SIZE,
            dim: TextureDim::D3,
            mip_levels: 1,
            format: Format::Rgba8Unorm,
            sampled: true,
            storage: false,
            color_attachment: false,
            depth: false,
        }),
{
    TextureDesc {
        width: OCCUPANCY_SIZE,
        height: OCCUPANCY_SIZE,
        depth_slices: OCCUPANCY_SIZE,
        dim: TextureDim::D3,
        mip_levels: 1,
        format: Format::Rgba8Unorm,
        sampled: true,
        storage: false,
        color_attachment: false,
        depth: false,
    }
}

/// Voxel number of `(x, y, z)`: x fastest, then y, then z.
pub open spec fn voxel_number(x: int, y: int, z: int) -> int {
    (z * 32 + y) * 32 + x
}

/// Byte of channel `c` of voxel `v`.
pub open spec fn voxel_byte(v: int, c: int) -> int {
    v * 4 + c
}

/// Voxel `v` lies in the box `lo ..< hi` (per axis).
pub open spec fn in_cells(v: int, lo: [u32; 3], hi: [u32; 3]) -> bool {
    let x = v % 32;
    let y = v / 32 % 32;
    let z = v / 1024;
    &&& lo[0] <= x < hi[0]
    &&& lo[1] <= y < hi[1]
    &&& lo[2] <= z < hi[2]
}

/// An empty volume.
pub fn empty_voxels() -> (v: Vec<u8>)
    ensures
        v.len() == OCCUPANCY_BYTES,
        forall|i: int| 0 <= i < v.len() ==> v@[i] == 0,
{
    let mut v: Vec<u8> = Vec::new();
    while v.len() < OCCUPANCY_BYTES
        invariant
            v.len() <= OCCUPANCY_BYTES,
            forall|i: int| 0 <= i < v.len() ==> v@[i] == 0,
        decreases OCCUPANCY_BYTES - v.len(),
    {
        v.push(0);
    }
    v
}

/// Byte of the red channel of the voxel at `(x, y, z)`.
pub fn voxel_index(x: u32, y: u32, z: u32) -> (i: usize)
    requires
        x < OCCUPANCY_SIZE,
        y < OCCUPANCY_SIZE,
        z < OCCUPANCY_SIZE,
    ensures
        i == voxel_byte(voxel_number(x as int, y as int, z as int), 0),
        i + 3 < OCCUPANCY_BYTES,
{
    (((z as usize * 32 + y as usize) * 32 + x as usize) * 4)
}

/// The volume with every voxel of the box `lo ..< hi` marked: red and alpha
/// 255, everything else as it was.
pub open spec fn stamped(voxels: Seq<u8>, lo: [u32; 3], hi: [u32; 3]) -> Seq<u8> {
    Seq::new(
        voxels.len(),
        |i: int|
            if in_cells(i / 4, lo, hi) && (i % 4 == 0 || i % 4 == 3) {
                255u8
            } else {
                voxels[i]
            },
    )
}

/// Marks every voxel of the box `lo ..< hi`.
pub fn stamp_cells(voxels: &mut Vec<u8>, lo: [u32; 3], hi: [u32; 3])
    requires
        old(voxels).len() == OCCUPANCY_BYTES,
    ensures
        final(voxels)@ == stamped(old(voxels)@, lo, hi),
{
    let mut v: usize = 0;
    while v < OCCUPANCY_VOXELS
        invariant
            v <= OCCUPANCY_VOXELS,
            voxels.len() == OCCUPANCY_BYTES,
            forall|i: int|
                0 <= i < OCCUPANCY_BYTES ==> #[trigger] voxels@[i] == if i / 4 < v && in_cells(i / 4, lo, hi) && (i
                    % 4 == 0 || i % 4 == 3) {
                    255u8
                } else {
                    old(voxels)@[i]
                },
        decreases OCCUPANCY_VOXELS - v,
    {
        let x = (v % 32) as u32;
        let y = (v / 32 % 32) as u32;
        let z = (v / 1024) as u32;
        if lo[0] <= x && x < hi[0] && lo[1] <= y && y < hi[1] && lo[2] <= z && z < hi[2] {
            voxels.set(v * 4, 255);
            voxels.set(v * 4 + 3, 255);
        }
        v = v + 1;
    }
    proof {
        assert(voxels@ =~= stamped(old(voxels)@, lo, hi));
    }
}

/// Voxels among the first `n` whose red channel is set.
pub open spec fn occupied_in(voxels: Seq<u8>, n: int) -> nat
    decreases n,
{
    if n <= 0 {
        0
    } else {
        occupied_in(voxels, n - 1) + if voxels[voxel_byte(n - 1, 0)] > 0 {
            1nat
        } else {
            0
        }
    }
}

/// How many voxels are occupied.
pub fn occupied_count(voxels: &Vec<u8>) -> (n: u32)
    requires
        voxels.len() == OCCUPANCY_BYTES,
    ensures
        n == occupied_in(voxels@, OCCUPANCY_VOXELS as int),
{
    let mut n: u32 = 0;
    let mut v: usize = 0;
    while v < OCCUPANCY_VOXELS
        invariant
            v <= OCCUPANCY_VOXELS,
            voxels.len() == OCCUPANCY_BYTES,
            n == occupied_in(voxels@, v as int),
            n <= v,
        decreases OCCUPANCY_VOXELS - v,
    {
        if voxels[v * 4] > 0 {
            n = n + 1;
        }
        v = v + 1;
    }
    n
}

proof fn lemma_occupied_grows(a: Seq<u8>, b: Seq<u8>, n: int)
    requires
        0 <= n <= OCCUPANCY_VOXELS,
        a.len() == OCCUPANCY_BYTES,
        b.len() == OCCUPANCY_BYTES,
        forall|v: int| 0 <= v < n && a[voxel_byte(v, 0)] > 0 ==> #[trigger] b[voxel_byte(v, 0)] > 0,
    ensures
        occupied_in(a, n) <= occupied_in(b, n),
    decreases n,
{
    if n > 0 {
        lemma_occupied_grows(a, b, n - 1);
    }
}

/// Stamping never frees a voxel: the occupied count can only grow, and every
/// voxel of the box is occupied afterwards.
pub proof fn stamping_only_adds(voxels: Seq<u8>, lo: [u32; 3], hi: [u32; 3], v: int)
    requires
        voxels.len() == OCCUPANCY_BYTES,
    ensures
        occupied_in(voxels, OCCUPANCY_VOXELS as int) <= occupied_in(stamped(voxels, lo, hi), OCCUPANCY_VOXELS as int),
        0 <= v < OCCUPANCY_VOXELS && in_cells(v, lo, hi) ==> stamped(voxels, lo, hi)[voxel_byte(v, 0)] == 255,
{
    let after = stamped(voxels, lo, hi);
    assert forall|w: int| 0 <= w < OCCUPANCY_VOXELS && voxels[voxel_byte(w, 0)] > 0 implies #[trigger] after[voxel_byte(
        w,
        0,
    )] > 0 by {
        assert(voxel_byte(w, 0) / 4 == w);
    }
    if 0 <= v < OCCUPANCY_VOXELS {
        assert(voxel_byte(v, 0) / 4 == v && voxel_byte(v, 0) % 4 == 0);
    }
    lemma_occupied_grows(voxels, after, OCCUPANCY_VOXELS as int);
}

} // verus!
