//! Single-pass downsampler: the CPU side of the dispatch, the numbers the
//! shader reads, and the counters it needs zeroed.

use vstd::prelude::*;

use crate::gltf_scene::{floor_log2, spec_floor_log2};
use crate::plugin::Plugin;

verus! {

pub const NAME: &'static str = "ffx-spd";
/// Six counters, one per slice.
pub const ATOMIC_BYTES: usize = 24;
/// The level the shader reads between work groups.
pub const COHERENT_MIP: u32 = 6;
pub const MAX_MIPS: u32 = 12;
/// Texels per side a work group covers.
pub const SPD_TILE: u32 = 64;

/// The groups to dispatch, and the constants the shader reads: `mips`,
/// `numWorkGroups`, and the work-group offset.
#[derive(Clone, Copy, Debug, PartialEq, Eq)]
pub struct Dispatch {
    pub groups_x: u32,
    pub groups_y: u32,
    pub mips: u32,
    pub num_work_groups: u32,
    pub work_group_offset_x: i32,
    pub work_group_offset_y: i32,
}

/// The four bytes of `v`, least significant first.
pub open spec fn le_bytes(v: u32) -> Seq<u8> {
    seq![(v % 256) as u8, ((v / 256) % 256) as u8, ((v / 65536) % 256) as u8, (v / 16777216) as u8]
}

/// `(a, b)` rounded up to the groups that cover them: one more than the
/// last texel's tile.
pub open spec fn groups_for(side: u32) -> int {
    let s = if side >= 1 { side as int } else { 1 };
    (s - 1) / SPD_TILE as int + 1
}

/// Levels generated when none are asked for: `floor(log2)` of the longer side,
/// at most `MAX_MIPS`.
pub open spec fn auto_mips(width: u32, height: u32) -> nat {
    let w = if width >= 1 { width } else { 1 };
    let h = if height >= 1 { height } else { 1 };
    let l = spec_floor_log2((if w >= h { w } else { h }) as nat);
    if l <= MAX_MIPS { l } else { MAX_MIPS as nat }
}

/// A dispatch whose group grid counts its groups in a `u32`.
pub open spec fn groups_fit(width: u32, height: u32) -> bool {
    groups_for(width) * groups_for(height) <= u32::MAX
}

fn byte_of(v: u32, shift: u32) -> (b: u8)
    requires
        shift < 4,
    ensures
        b == le_bytes(v)[shift as int],
{
    if shift == 0 {
        (v % 256) as u8
    } else if shift == 1 {
        ((v / 256) % 256) as u8
    } else if shift == 2 {
        ((v / 65536) % 256) as u8
    } else {
        (v / 16777216) as u8
    }
}

impl Dispatch {
    /// The 16-byte constant block: two uints and an ivec2, little-endian.
    pub fn constants_bytes(&self) -> (out: [u8; 16])
        ensures
            out@ == le_bytes(self.mips) + le_bytes(self.num_work_groups) + le_bytes(
                self.work_group_offset_x as u32,
            ) + le_bytes(self.work_group_offset_y as u32),
    {
        let a = self.mips;
        let b = self.num_work_groups;
        let c = self.work_group_offset_x as u32;
        let d = self.work_group_offset_y as u32;
        let out = [
            byte_of(a, 0),
            byte_of(a, 1),
            byte_of(a, 2),
            byte_of(a, 3),
            byte_of(b, 0),
            byte_of(b, 1),
            byte_of(b, 2),
            byte_of(b, 3),
            byte_of(c, 0),
            byte_of(c, 1),
            byte_of(c, 2),
            byte_of(c, 3),
            byte_of(d, 0),
            byte_of(d, 1),
            byte_of(d, 2),
            byte_of(d, 3),
        ];
        assert(out@ =~= le_bytes(a) + le_bytes(b) + le_bytes(c) + le_bytes(d));
        out
    }

    /// Levels the destination must have: the source level plus the generated
    /// ones, and at least through the level the shader reads back.
    pub fn texture_mips(&self) -> (n: u32)
        requires
            self.mips < u32::MAX,
        ensures
            n == if self.mips + 1 >= COHERENT_MIP + 1 { self.mips + 1 } else { COHERENT_MIP + 1 },
    {
        let m = self.mips + 1;
        if m >= COHERENT_MIP + 1 {
            m
        } else {
            COHERENT_MIP + 1
        }
    }
}

/// The dispatch for a `width` x `height` source. `mips` levels are generated
/// (at most `MAX_MIPS`), or, with none asked for, as many as halve the
/// longer side down to one texel.
pub fn setup(width: u32, height: u32, mips: Option<u32>) -> (d: Dispatch)
    requires
        groups_fit(width, height),
    ensures
        d.groups_x == groups_for(width),
        d.groups_y == groups_for(height),
        d.num_work_groups == groups_for(width) * groups_for(height),
        d.work_group_offset_x == 0,
        d.work_group_offset_y == 0,
        d.mips == match mips {
            Some(m) => if m <= MAX_MIPS { m as nat } else { MAX_MIPS as nat },
            None => auto_mips(width, height),
        },
{
    let width = if width >= 1 { width } else { 1 };
    let height = if height >= 1 { height } else { 1 };
    let end_x = (width - 1) / SPD_TILE;
    let end_y = (height - 1) / SPD_TILE;
    let groups_x = end_x + 1;
    let groups_y = end_y + 1;
    let num_work_groups = groups_x * groups_y;
    let mips = match mips {
        Some(m) => if m <= MAX_MIPS { m } else { MAX_MIPS },
        None => {
            let res = if width >= height { width } else { height };
            let l = floor_log2(res);
            if l <= MAX_MIPS { l } else { MAX_MIPS }
        },
    };
    Dispatch {
        groups_x,
        groups_y,
        mips,
        num_work_groups,
        work_group_offset_x: 0,
        work_group_offset_y: 0,
    }
}

pub fn atomic_zeros() -> (z: [u8; ATOMIC_BYTES])
    ensures
        forall|i: int| 0 <= i < ATOMIC_BYTES ==> z@[i] == 0,
{
    [0u8; ATOMIC_BYTES]
}

pub struct SpdPlugin;

impl Plugin for SpdPlugin {
    fn name(&self) -> (n: &'static str)
        ensures
            n@ == NAME@,
    {
        NAME
    }
}

} // verus!
