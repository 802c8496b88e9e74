//! The image-based-lighting images as the CPU bakes them: RGBA8, every level
//! packed tightly one after another.

use vstd::prelude::*;

use crate::rhi::{Format, TextureDesc, TextureDim};

verus! {

#[derive(Clone, Debug)]
pub struct RgbaImage {
    pub width: u32,
    pub height: u32,
    pub mip_levels: u32,
    /// Level 0, level 1, .. each packed tightly (no row pitch).
    pub mips: Vec<Vec<u8>>,
}

impl RgbaImage {
    /// The texture that holds the image: 2D, sampled, RGBA8, all its levels.
    pub fn desc(&self) -> (d: TextureDesc)
        ensures
            d == (TextureDesc {
                width: self.width,
                height: self.height,
                depth_slices: 1,
                dim: TextureDim::D2,
                mip_levels: self.mip_levels,
                format: Format::Rgba8Unorm,
                sampled: true,
                storage: false,
                color_attachment: false,
                depth: false,
            }),
    {
        TextureDesc {
            width: self.width,
            height: self.height,
            depth_slices: 1,
            dim: TextureDim::D2,
            mip_levels: self.mip_levels,
            format: Format::Rgba8Unorm,
            sampled: true,
            storage: false,
            color_attachment: false,
            depth: false,
        }
    }
}

} // verus!
