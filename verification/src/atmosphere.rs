//! The sky's look-up tables: their sizes and formats.

use vstd::prelude::*;

use crate::packing::target_2d;
use crate::rhi::{Format, TextureDesc, TextureDim};

verus! {

pub const LUT_FORMAT: Format = Format::Rgba16Float;
pub const TRANSMITTANCE_W: u32 = 256;
pub const TRANSMITTANCE_H: u32 = 64;
pub const MULTISCATTER_SIZE: u32 = 32;
pub const SKYVIEW_W: u32 = 192;
pub const SKYVIEW_H: u32 = 108;
/// Aerial perspective froxels per side.
pub const AERIAL_SIZE: u32 = 32;

/// A 2D look-up table: rendered into, then sampled.
pub fn lut_desc(width: u32, height: u32) -> (d: TextureDesc)
    ensures
        d == target_2d(width, height, 1, LUT_FORMAT, true, true, false),
{
    TextureDesc {
        width,
        height,
        depth_slices: 1,
        dim: TextureDim::D2,
        mip_levels: 1,
        format: LUT_FORMAT,
        sampled: true,
        storage: false,
        color_attachment: true,
        depth: false,
    }
}

pub fn transmittance_desc() -> (d: TextureDesc)
    ensures
        d == target_2d(TRANSMITTANCE_W, TRANSMITTANCE_H, 1, LUT_FORMAT, true, true, false),
{
    lut_desc(TRANSMITTANCE_W, TRANSMITTANCE_H)
}

pub fn multiscatter_desc() -> (d: TextureDesc)
    ensures
        d == target_2d(MULTISCATTER_SIZE, MULTISCATTER_SIZE, 1, LUT_FORMAT, true, true, false),
{
    lut_desc(MULTISCATTER_SIZE, MULTISCATTER_SIZE)
}

pub fn skyview_desc() -> (d: TextureDesc)
    ensures
        d == target_2d(SKYVIEW_W, SKYVIEW_H, 1, LUT_FORMAT, true, true, false),
{
    lut_desc(SKYVIEW_W, SKYVIEW_H)
}

/// The aerial perspective volume, written by compute and sampled.
pub fn aerial_desc() -> (d: TextureDesc)
    ensures
        d == (TextureDesc {
            width: AERIAL_SIZE,
            height: AERIAL_SIZE,
            depth_slices: AERIAL_SIZE,
            dim: TextureDim::D3,
            mip_levels: 1,
            format: LUT_FORMAT,
            sampled: true,
            storage: true,
            color_attachment: false,
            depth: false,
        }),
{
    TextureDesc {
        width: AERIAL_SIZE,
        height: AERIAL_SIZE,
        depth_slices: AERIAL_SIZE,
        dim: TextureDim::D3,
        mip_levels: 1,
        format: LUT_FORMAT,
        sampled: true,
        storage: true,
        color_attachment: false,
        depth: false,
    }
}

} // verus!
