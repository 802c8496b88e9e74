//! Volumetric fog froxels: the grid, its volumes, and the compute dispatches
//! that cover it.

use vstd::prelude::*;

use crate::rhi::{Format, TextureDesc, TextureDim};

verus! {

pub const FROXEL_W: u32 = 160;
pub const FROXEL_H: u32 = 90;
pub const FROXEL_D: u32 = 64;
pub const FROXEL_FORMAT: Format = Format::Rgba16Float;

/// Work-group size of the inject pass, per axis.
pub const INJECT_GROUP_X: u32 = 8;
pub const INJECT_GROUP_Y: u32 = 8;
pub const INJECT_GROUP_Z: u32 = 4;
/// Work-group size of the integrate pass (it marches Z itself).
pub const INTEGRATE_GROUP_X: u32 = 8;
pub const INTEGRATE_GROUP_Y: u32 = 8;

/// `a / b` rounded up.
pub open spec fn spec_div_ceil(a: int, b: int) -> int {
    (a + b - 1) / b
}

pub fn div_ceil(a: u32, b: u32) -> (q: u32)
    requires
        b > 0,
    ensures
        q == spec_div_ceil(a as int, b as int),
        q * b >= a,
        a + b > q * b,
{
    proof {
        vstd::arithmetic::div_mod::lemma_fundamental_div_mod(a as int, b as int);
        assert(a % b != 0 ==> a / b < u32::MAX) by (nonlinear_arith)
            requires
                b > 0,
                a == b * (a / b) + a % b,
                0 <= a % b < b,
                a <= u32::MAX,
        ;
    }
    let q = a / b + if a % b != 0 { 1 } else { 0 };
    assert(q == spec_div_ceil(a as int, b as int) && q * b >= a && a + b > q * b) by (nonlinear_arith)
        requires
            b > 0,
            q == a / b + if a % b != 0 { 1int } else { 0int },
            a == b * (a / b) + a % b,
            0 <= a % b < b,
    ;
    q
}

/// Groups of the inject pass: enough to cover every froxel.
pub fn inject_dispatch() -> (g: (u32, u32, u32))
    ensures
        g == (20u32, 12u32, 16u32),
        g.0 == spec_div_ceil(FROXEL_W as int, INJECT_GROUP_X as int),
        g.1 == spec_div_ceil(FROXEL_H as int, INJECT_GROUP_Y as int),
        g.2 == spec_div_ceil(FROXEL_D as int, INJECT_GROUP_Z as int),
{
    (
        div_ceil(FROXEL_W, INJECT_GROUP_X),
        div_ceil(FROXEL_H, INJECT_GROUP_Y),
        div_ceil(FROXEL_D, INJECT_GROUP_Z),
    )
}

/// Groups of the integrate pass: one per column of froxels.
pub fn integrate_dispatch() -> (g: (u32, u32, u32))
    ensures
        g == (20u32, 12u32, 1u32),
        g.0 == spec_div_ceil(FROXEL_W as int, INTEGRATE_GROUP_X as int),
        g.1 == spec_div_ceil(FROXEL_H as int, INTEGRATE_GROUP_Y as int),
{
    (div_ceil(FROXEL_W, INTEGRATE_GROUP_X), div_ceil(FROXEL_H, INTEGRATE_GROUP_Y), 1)
}

/// One froxel volume: sampled, and written by compute.
pub fn froxel_desc() -> (d: TextureDesc)
    ensures
        d == (TextureDesc {
            width: FROXEL_W,
            height: FROXEL_H,
            depth_slices: FROXEL_D,
            dim: TextureDim::D3,
            mip_levels: 1,
            format: FROXEL_FORMAT,
            sampled: true,
            storage: true,
            color_attachment: false,
            depth: false,
        }),
{
    TextureDesc {
        width: FROXEL_W,
        height: FROXEL_H,
        depth_slices: FROXEL_D,
        dim: TextureDim::D3,
        mip_levels: 1,
        format: FROXEL_FORMAT,
        sampled: true,
        storage: true,
        color_attachment: false,
        depth: false,
    }
}

/// The inject dispatch covers every froxel; along Z exactly.
pub proof fn dispatch_covers_every_froxel()
    ensures
        spec_div_ceil(FROXEL_W as int, INJECT_GROUP_X as int) * INJECT_GROUP_X >= FROXEL_W,
        spec_div_ceil(FROXEL_H as int, INJECT_GROUP_Y as int) * INJECT_GROUP_Y >= FROXEL_H,
        spec_div_ceil(FROXEL_D as int, INJECT_GROUP_Z as int) * INJECT_GROUP_Z == FROXEL_D,
{
}

} // verus!
