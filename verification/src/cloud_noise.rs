//! Cloud noise volumes: their sizes, their on-disk cache, and the integer hash
//! the tileable noise is built on.
//!
//! The bake itself is floating point; what decides which file holds which
//! volume, and when a cached file can be trusted, is here.

use vstd::prelude::*;

use crate::rhi::{Format, TextureDesc, TextureDim};
use crate::text::{decimal, new_text, push_decimal, push_text};

verus! {

pub const BASE_SIZE: u32 = 128;
pub const DETAIL_SIZE: u32 = 32;
/// Bumped when the generator changes, or a stale cache is trusted for ever.
pub const CACHE_VERSION: &'static str = "v1";

#[derive(Debug)]
pub struct NoiseError(pub String);

/// One baked volume, RGBA8, `size` texels a side.
pub struct NoiseVolume {
    pub size: u32,
    pub rgba: Vec<u8>,
}

/// A baked volume on the GPU: 3D, RGBA8, sampled.
pub fn volume_desc(size: u32) -> (d: TextureDesc)
    ensures
        d == (TextureDesc {
            width: size,
            height: size,
            depth_slices: size,
            dim: TextureDim::D3,
            mip_levels: 1,
            format: Format::Rgba8Unorm,
            sampled: true,
            storage: false,
            color_attachment: false,
            depth: false,
        }),
{
    TextureDesc {
        width: size,
        height: size,
        depth_slices: size,
        dim: TextureDim::D3,
        mip_levels: 1,
        format: Format::Rgba8Unorm,
        sampled: true,
        storage: false,
        color_attachment: false,
        depth: false,
    }
}

/// Bytes of a volume `size` texels a side.
pub open spec fn spec_volume_bytes(size: u32) -> int {
    size as int * size as int * size as int * 4
}

pub fn volume_bytes(size: u32) -> (n: usize)
    requires
        spec_volume_bytes(size) <= usize::MAX,
    ensures
        n == spec_volume_bytes(size),
{
    let s = size as usize;
    assert(s * s <= s * s * s || s == 0) by (nonlinear_arith);
    assert(s * s * s <= s * s * s * 4) by (nonlinear_arith);
    s * s * s * 4
}

/// The name of the cache file of a volume.
pub open spec fn spec_cache_file_name(name: Seq<char>, size: u32) -> Seq<char> {
    "cloud_noise_"@ + name + "_"@ + decimal(size as nat) + "_"@ + CACHE_VERSION@ + ".raw"@
}

pub fn cache_file_name(name: &str, size: u32) -> (f: String)
    ensures
        f@ == spec_cache_file_name(name@, size),
{
    let mut f = new_text("cloud_noise_");
    push_text(&mut f, name);
    push_text(&mut f, "_");
    push_decimal(&mut f, size as u64);
    push_text(&mut f, "_");
    push_text(&mut f, CACHE_VERSION);
    push_text(&mut f, ".raw");
    f
}

/// A cached file is trusted only when it holds exactly one volume of the
/// size asked for; anything else is baked again.
pub fn from_cache(size: u32, bytes: Vec<u8>) -> (v: Option<NoiseVolume>)
    requires
        spec_volume_bytes(size) <= usize::MAX,
    ensures
        match v {
            Some(vol) => bytes@.len() == spec_volume_bytes(size) && vol.size == size && vol.rgba@ == bytes@,
            None => bytes@.len() != spec_volume_bytes(size),
        },
{
    if bytes.len() == volume_bytes(size) {
        Some(NoiseVolume { size, rgba: bytes })
    } else {
        None
    }
}

/// The integer hash of a lattice cell and a seed.
pub open spec fn spec_hash3(x: i32, y: i32, z: i32, seed: u32) -> u32 {
    let h = seed.wrapping_add((x as u32).wrapping_mul(0x8DA6_B343)).wrapping_add(
        (y as u32).wrapping_mul(0xD8A6_3C79),
    ).wrapping_add((z as u32).wrapping_mul(0xCB1A_B31F));
    let h = h ^ (h >> 15u32);
    let h = h.wrapping_mul(0x2C1B_3C6D);
    let h = h ^ (h >> 12u32);
    let h = h.wrapping_mul(0x2975_95AD);
    h ^ (h >> 15u32)
}

pub fn hash3(x: i32, y: i32, z: i32, seed: u32) -> (h: u32)
    ensures
        h == spec_hash3(x, y, z, seed),
{
    let mut h = seed.wrapping_add((x as u32).wrapping_mul(0x8DA6_B343)).wrapping_add(
        (y as u32).wrapping_mul(0xD8A6_3C79),
    ).wrapping_add((z as u32).wrapping_mul(0xCB1A_B31F));
    h = h ^ (h >> 15);
    h = h.wrapping_mul(0x2C1B_3C6D);
    h = h ^ (h >> 12);
    h = h.wrapping_mul(0x2975_95AD);
    h = h ^ (h >> 15);
    h
}

/// A lattice index wrapped into `0 .. cells`, so the volume tiles.
pub open spec fn spec_wrap(c: i32, cells: i32) -> int {
    let m = c as int % cells as int;
    m
}

pub fn wrap(c: i32, cells: i32) -> (w: i32)
    requires
        cells > 0,
    ensures
        w == spec_wrap(c, cells),
        0 <= w < cells,
{
    let n = cells as u64;
    if c >= 0 {
        let w = ((c as u64) % n) as i32;
        w
    } else {
        let a = ((0 - (c as i64)) as u64) % n;
        let w = if a == 0 { 0i32 } else { (n - a) as i32 };
        proof {
            let neg = 0 - (c as int);
            vstd::arithmetic::div_mod::lemma_fundamental_div_mod(neg, cells as int);
            let q = neg / (cells as int);
            if a == 0 {
                assert(c as int == (-q) * (cells as int) + 0) by (nonlinear_arith)
                    requires
                        neg == cells * q + a,
                        a == 0,
                        c as int == 0 - neg,
                ;
                vstd::arithmetic::div_mod::lemma_fundamental_div_mod_converse(c as int, cells as int, -q, 0);
            } else {
                assert(c as int == (-q - 1) * (cells as int) + (cells - a)) by (nonlinear_arith)
                    requires
                        neg == cells * q + a,
                        c as int == 0 - neg,
                ;
                vstd::arithmetic::div_mod::lemma_fundamental_div_mod_converse(
                    c as int,
                    cells as int,
                    -q - 1,
                    cells - a,
                );
            }
        }
        w
    }
}

/// Byte of channel `c` of the texel at lattice point `(x, y, z)` of an RGBA8
/// volume that repeats every `size` texels along each axis.
pub open spec fn spec_volume_texel(size: u32, x: i32, y: i32, z: i32, c: u32) -> int {
    let n = size as int;
    ((spec_wrap(z, size as i32) * n + spec_wrap(y, size as i32)) * n + spec_wrap(x, size as i32)) * 4 + c
}

pub fn volume_texel(size: u32, x: i32, y: i32, z: i32, c: u32) -> (i: usize)
    requires
        0 < size <= i32::MAX,
        c < 4,
        spec_volume_bytes(size) <= usize::MAX,
    ensures
        i == spec_volume_texel(size, x, y, z, c),
        i < spec_volume_bytes(size),
{
    let cells = size as i32;
    let wx = wrap(x, cells) as usize;
    let wy = wrap(y, cells) as usize;
    let wz = wrap(z, cells) as usize;
    let n = size as usize;
    assert(wz * n + wy < n * n) by (nonlinear_arith)
        requires
            wz < n,
            wy < n,
    ;
    assert((wz * n + wy) * n + wx < n * n * n) by (nonlinear_arith)
        requires
            wz * n + wy < n * n,
            wx < n,
    ;
    assert(n * n * n * 4 == spec_volume_bytes(size));
    assert(n * n <= n * n * n * 4) by (nonlinear_arith)
        requires
            n >= 1,
    ;
    assert(wz * n <= wz * n + wy);
    ((wz * n + wy) * n + wx) * 4 + c as usize
}

/// Wrapping is what makes the noise tile: a cell and the cell a whole
/// period away hash alike.
pub proof fn noise_tiles(c: i32, cells: i32, k: int)
    requires
        cells > 0,
        i32::MIN <= c as int + k * cells as int <= i32::MAX,
    ensures
        spec_wrap((c as int + k * cells as int) as i32, cells) == spec_wrap(c, cells),
{
    vstd::arithmetic::div_mod::lemma_mod_multiples_vanish(k, c as int, cells as int);
    assert((k * cells as int + c as int) % (cells as int) == (c as int) % (cells as int));
    assert(c as int + k * cells as int == k * cells as int + c as int);
}

} // verus!
