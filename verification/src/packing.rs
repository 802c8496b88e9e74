//! The G-buffer layout and the descriptors of the render targets built on it.

use vstd::prelude::*;

use crate::rhi::{Format, TextureDesc, TextureDim};

verus! {

/// RT0 albedo (sRGB), RT1 normal, RT2 occlusion-roughness-metal, RT3
/// emissive or fuzz colour, RT4 depth as colour.
pub const GBUFFER_COLOR_FORMATS: [Format; 5] = [
    Format::Rgba8Srgb,
    Format::Rgba8Unorm,
    Format::Rgba8Unorm,
    Format::Rgba8Unorm,
    Format::R32Float,
];

pub const GBUFFER_DEPTH_FORMAT: Format = Format::D32Float;
pub const VERTEX_STRIDE: u32 = 24;
pub const VERTEX_STRIDE_UV: u32 = 32;
pub const INSTANCE_STRIDE: u32 = 80;

/// A one-level 2D target of `format`, with the given uses.
pub open spec fn target_2d(
    width: u32,
    height: u32,
    mip_levels: u32,
    format: Format,
    sampled: bool,
    color_attachment: bool,
    depth: bool,
) -> TextureDesc {
    TextureDesc {
        width,
        height,
        depth_slices: 1,
        dim: TextureDim::D2,
        mip_levels,
        format,
        sampled,
        storage: false,
        color_attachment,
        depth,
    }
}

/// A colour render target that is also sampled.
pub fn color_desc(width: u32, height: u32, format: Format) -> (d: TextureDesc)
    ensures
        d == target_2d(width, height, 1, format, true, true, false),
{
    TextureDesc {
        width,
        height,
        depth_slices: 1,
        dim: TextureDim::D2,
        mip_levels: 1,
        format,
        sampled: true,
        storage: false,
        color_attachment: true,
        depth: false,
    }
}

/// A plain sampled texture with a full chain (at least one level); not a
/// render target.
pub fn sampled_desc(width: u32, height: u32, mip_levels: u32, format: Format) -> (d: TextureDesc)
    ensures
        d == target_2d(width, height, if mip_levels >= 1 { mip_levels } else { 1 }, format, true, false, false),
{
    TextureDesc {
        width,
        height,
        depth_slices: 1,
        dim: TextureDim::D2,
        mip_levels: if mip_levels >= 1 { mip_levels } else { 1 },
        format,
        sampled: true,
        storage: false,
        color_attachment: false,
        depth: false,
    }
}

/// The G-buffer depth: a depth attachment, not sampled.
pub fn depth_desc(width: u32, height: u32) -> (d: TextureDesc)
    ensures
        d == target_2d(width, height, 1, GBUFFER_DEPTH_FORMAT, false, false, true),
{
    TextureDesc {
        width,
        height,
        depth_slices: 1,
        dim: TextureDim::D2,
        mip_levels: 1,
        format: GBUFFER_DEPTH_FORMAT,
        sampled: false,
        storage: false,
        color_attachment: false,
        depth: true,
    }
}

/// The shadow atlas: a sampled depth target, at least one texel a side.
pub fn shadow_atlas_desc(size: u32) -> (d: TextureDesc)
    ensures
        d == ({
            let s = if size >= 1 { size } else { 1 };
            target_2d(s, s, 1, GBUFFER_DEPTH_FORMAT, true, false, true)
        }),
{
    let s = if size >= 1 { size } else { 1 };
    TextureDesc {
        width: s,
        height: s,
        depth_slices: 1,
        dim: TextureDim::D2,
        mip_levels: 1,
        format: GBUFFER_DEPTH_FORMAT,
        sampled: true,
        storage: false,
        color_attachment: false,
        depth: true,
    }
}

} // verus!
