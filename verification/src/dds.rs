//! DX10 DDS, level 0, to RGBA8.
//!
//! Uploads are uncompressed, so block-compressed maps are decoded once at
//! load: BC1 (colour, one bit of alpha), BC4 (one channel, as grey), BC5 (two
//! channels of a normal map; blue is rebuilt from them), and plain RGBA or
//! BGRA. The blue of a BC5 normal comes from a table indexed by the two
//! channels, made by whoever holds the floating-point rule for it.

use vstd::prelude::*;

use crate::text::{decimal, new_text, push_decimal, push_text};

verus! {

#[derive(Clone, Debug)]
pub struct DdsImage {
    pub width: u32,
    pub height: u32,
    pub rgba: Vec<u8>,
}

#[derive(Clone, Debug)]
pub struct DdsError(pub String);

pub const DXGI_BC1_UNORM: u32 = 71;
pub const DXGI_BC1_UNORM_SRGB: u32 = 72;
pub const DXGI_BC4_UNORM: u32 = 80;
pub const DXGI_BC5_UNORM: u32 = 83;
pub const DXGI_BC5_SNORM: u32 = 84;
pub const DXGI_R8G8B8A8_UNORM: u32 = 28;
pub const DXGI_B8G8R8A8_UNORM: u32 = 87;
/// 'DX10' as a little-endian four-character code.
pub const FOURCC_DX10: u32 = 0x3031_5844;
/// Header bytes before the texels: magic, header, DX10 extension.
pub const DDS_HEADER_LEN: usize = 148;
/// Largest side accepted.
pub const DDS_MAX_SIDE: u32 = 8192;
/// Entries of the BC5 blue table: one per pair of red and green.
pub const NORMAL_Z_LEN: usize = 65536;

/// How the texels after the header are laid out.
#[derive(Clone, Copy, Debug, PartialEq, Eq)]
pub enum TexelLayout {
    Bc1,
    Bc4,
    Bc5,
    Rgba,
    Bgra,
}

pub open spec fn le16(b: Seq<u8>, off: int) -> u16 {
    (b[off] as int + 256 * b[off + 1] as int) as u16
}

pub open spec fn le32(b: Seq<u8>, off: int) -> u32 {
    (b[off] as int + 256 * b[off + 1] as int + 65536 * b[off + 2] as int + 16777216 * b[off + 3] as int) as u32
}

/// Six bytes, little-endian: the 48 index bits of a BC4 block.
pub open spec fn le48(b: Seq<u8>, off: int) -> u64 {
    (b[off] as int + 0x100 * b[off + 1] as int + 0x1_0000 * b[off + 2] as int + 0x100_0000 * b[off + 3] as int
        + 0x1_0000_0000 * b[off + 4] as int + 0x100_0000_0000 * b[off + 5] as int) as u64
}

/// A 5:6:5 colour widened to 8 bits per channel, rounding to nearest.
pub open spec fn spec_rgb565(c: u16) -> (u8, u8, u8) {
    (
        (((((c >> 11u16) & 31u16) as u32) * 255 + 15) / 31) as u8,
        (((((c >> 5u16) & 63u16) as u32) * 255 + 31) / 63) as u8,
        ((((c & 31u16) as u32) * 255 + 15) / 31) as u8,
    )
}

/// `num/den` of the way from `a` to `b`, rounded down.
pub open spec fn spec_lerp(a: u8, b: u8, num: u32, den: u32) -> u8 {
    ((a as int * (den - num) + b as int * num) / den as int) as u8
}

/// Entry `idx` of a BC1 palette made from endpoints `c0` and `c1`: four
/// opaque colours when `c0 > c1`, else three and transparent black.
pub open spec fn bc1_entry(c0: u16, c1: u16, idx: u32) -> (u8, u8, u8, u8) {
    let a = spec_rgb565(c0);
    let b = spec_rgb565(c1);
    if idx == 0 {
        (a.0, a.1, a.2, 255u8)
    } else if idx == 1 {
        (b.0, b.1, b.2, 255u8)
    } else if c0 > c1 {
        let n: u32 = if idx == 2 { 1 } else { 2 };
        (spec_lerp(a.0, b.0, n, 3), spec_lerp(a.1, b.1, n, 3), spec_lerp(a.2, b.2, n, 3), 255u8)
    } else if idx == 2 {
        (spec_lerp(a.0, b.0, 1, 2), spec_lerp(a.1, b.1, 1, 2), spec_lerp(a.2, b.2, 1, 2), 255u8)
    } else {
        (0u8, 0u8, 0u8, 0u8)
    }
}

/// Entry `idx` of a BC4 palette made from endpoints `r0` and `r1`: eight
/// steps when `r0 > r1`, else six and the two extremes.
pub open spec fn bc4_entry(r0: u8, r1: u8, idx: u64) -> u8 {
    if idx == 0 {
        r0
    } else if idx == 1 {
        r1
    } else if r0 > r1 {
        (((8 - idx) as u32 * r0 as u32 + (idx - 1) as u32 * r1 as u32) / 7) as u8
    } else if idx < 6 {
        (((6 - idx) as u32 * r0 as u32 + (idx - 1) as u32 * r1 as u32) / 5) as u8
    } else if idx == 6 {
        0u8
    } else {
        255u8
    }
}

/// Blocks across a row of `w` texels.
pub open spec fn blocks_across(w: u32) -> int {
    (w as int + 3) / 4
}

/// The block that holds texel `(x, y)`, and the place of the texel in it.
pub open spec fn block_of(w: u32, x: int, y: int) -> int {
    (y / 4) * blocks_across(w) + x / 4
}

pub open spec fn texel_in_block(x: int, y: int) -> int {
    (y % 4) * 4 + x % 4
}

/// The channel of a BC4 block at `off` for texel number `t` of the block.
pub open spec fn bc4_value(data: Seq<u8>, off: int, t: int) -> u8 {
    bc4_entry(data[off], data[off + 1], (le48(data, off + 2) >> (3 * t) as u64) & 7u64)
}

/// Texel `(x, y)` of an image of width `w` laid out as `layout`.
pub open spec fn texel(layout: TexelLayout, w: u32, data: Seq<u8>, normal_z: Seq<u8>, x: int, y: int) -> (
    u8,
    u8,
    u8,
    u8,
) {
    let t = texel_in_block(x, y);
    match layout {
        TexelLayout::Bc1 => {
            let off = block_of(w, x, y) * 8;
            bc1_entry(le16(data, off), le16(data, off + 2), (le32(data, off + 4) >> (2 * t) as u32) & 3u32)
        },
        TexelLayout::Bc4 => {
            let v = bc4_value(data, block_of(w, x, y) * 8, t);
            (v, v, v, 255u8)
        },
        TexelLayout::Bc5 => {
            let off = block_of(w, x, y) * 16;
            let r = bc4_value(data, off, t);
            let g = bc4_value(data, off + 8, t);
            (r, g, normal_z[r as int * 256 + g as int], 255u8)
        },
        TexelLayout::Rgba => {
            let o = (y * w + x) * 4;
            (data[o], data[o + 1], data[o + 2], data[o + 3])
        },
        TexelLayout::Bgra => {
            let o = (y * w + x) * 4;
            (data[o + 2], data[o + 1], data[o], data[o + 3])
        },
    }
}

pub open spec fn channel(p: (u8, u8, u8, u8), c: int) -> u8 {
    if c == 0 {
        p.0
    } else if c == 1 {
        p.1
    } else if c == 2 {
        p.2
    } else {
        p.3
    }
}

/// The decoded image: RGBA8, rows top to bottom.
pub open spec fn decoded(layout: TexelLayout, w: u32, h: u32, data: Seq<u8>, normal_z: Seq<u8>) -> Seq<u8> {
    Seq::new(
        (w * h * 4) as nat,
        |i: int| channel(texel(layout, w, data, normal_z, (i / 4) % (w as int), (i / 4) / (w as int)), i % 4),
    )
}

/// Bytes the texels of a `w` x `h` image take in `layout`.
pub open spec fn texel_bytes(layout: TexelLayout, w: u32, h: u32) -> int {
    let blocks = blocks_across(w) * blocks_across(h);
    match layout {
        TexelLayout::Bc1 | TexelLayout::Bc4 => blocks * 8,
        TexelLayout::Bc5 => blocks * 16,
        TexelLayout::Rgba | TexelLayout::Bgra => w * h * 4,
    }
}

pub open spec fn truncated_message(layout: TexelLayout) -> Seq<char> {
    match layout {
        TexelLayout::Bc1 => "BC1 DDS truncated"@,
        TexelLayout::Bc4 => "BC4 DDS truncated"@,
        TexelLayout::Bc5 => "BC5 DDS truncated"@,
        TexelLayout::Rgba | TexelLayout::Bgra => "RGBA DDS truncated"@,
    }
}

/// The layout of a DXGI format, for the formats that are decoded.
pub open spec fn layout_of(dxgi: u32) -> Option<TexelLayout> {
    if dxgi == DXGI_BC1_UNORM || dxgi == DXGI_BC1_UNORM_SRGB {
        Some(TexelLayout::Bc1)
    } else if dxgi == DXGI_BC4_UNORM {
        Some(TexelLayout::Bc4)
    } else if dxgi == DXGI_BC5_UNORM || dxgi == DXGI_BC5_SNORM {
        Some(TexelLayout::Bc5)
    } else if dxgi == DXGI_R8G8B8A8_UNORM {
        Some(TexelLayout::Rgba)
    } else if dxgi == DXGI_B8G8R8A8_UNORM {
        Some(TexelLayout::Bgra)
    } else {
        None
    }
}

/// The first four bytes of a DDS file: "DDS ".
pub open spec fn dds_magic() -> Seq<u8> {
    seq![68u8, 68u8, 83u8, 32u8]
}

/// What a file decodes to: width, height and texels, or the message of what
/// is wrong with it.
pub open spec fn dds_decoded(bytes: Seq<u8>, normal_z: Seq<u8>) -> Result<(u32, u32, Seq<u8>), Seq<char>> {
    if bytes.len() < DDS_HEADER_LEN || bytes.take(4) != dds_magic() {
        Err("not a DDS"@)
    } else {
        let h = le32(bytes, 12);
        let w = le32(bytes, 16);
        if w == 0 || h == 0 || w > DDS_MAX_SIDE || h > DDS_MAX_SIDE {
            Err("bad DDS size "@ + decimal(w as nat) + "x"@ + decimal(h as nat))
        } else if le32(bytes, 80) & 4u32 == 0 || le32(bytes, 84) != FOURCC_DX10 {
            Err("need DX10 DDS"@)
        } else {
            let dxgi = le32(bytes, 128);
            let data = bytes.skip(DDS_HEADER_LEN as int);
            match layout_of(dxgi) {
                None => Err("unsupported DXGI format "@ + decimal(dxgi as nat)),
                Some(layout) => if data.len() < texel_bytes(layout, w, h) {
                    Err(truncated_message(layout))
                } else {
                    Ok((w, h, decoded(layout, w, h, data, normal_z)))
                },
            }
        }
    }
}

fn u32_at(bytes: &[u8], off: usize) -> (v: u32)
    requires
        off + 4 <= bytes@.len(),
    ensures
        v == le32(bytes@, off as int),
{
    bytes[off] as u32 + (bytes[off + 1] as u32) * 256 + (bytes[off + 2] as u32) * 65536 + (bytes[off + 3] as u32)
        * 16777216
}

fn u16_at(bytes: &[u8], off: usize) -> (v: u16)
    requires
        off + 2 <= bytes@.len(),
    ensures
        v == le16(bytes@, off as int),
{
    bytes[off] as u16 + (bytes[off + 1] as u16) * 256
}

fn rgb565(c: u16) -> (rgb: (u8, u8, u8))
    ensures
        rgb == spec_rgb565(c),
{
    (
        ((((c >> 11u16) & 31u16) as u32 * 255 + 15) / 31) as u8,
        ((((c >> 5u16) & 63u16) as u32 * 255 + 31) / 63) as u8,
        (((c & 31u16) as u32 * 255 + 15) / 31) as u8,
    )
}

fn lerp_u8(a: u8, b: u8, num: u32, den: u32) -> (v: u8)
    requires
        0 < den <= 3,
        num <= den,
    ensures
        v == spec_lerp(a, b, num, den),
{
    assert(a as u32 * (den - num) <= 765 && b as u32 * num <= 765) by (nonlinear_arith)
        requires
            num <= den <= 3,
            a <= 255,
            b <= 255,
    ;
    ((a as u32 * (den - num) + b as u32 * num) / den) as u8
}

fn bc1_texel(c0: u16, c1: u16, idx: u32) -> (p: (u8, u8, u8, u8))
    ensures
        p == bc1_entry(c0, c1, idx),
{
    let a = rgb565(c0);
    let b = rgb565(c1);
    if idx == 0 {
        (a.0, a.1, a.2, 255u8)
    } else if idx == 1 {
        (b.0, b.1, b.2, 255u8)
    } else if c0 > c1 {
        let n: u32 = if idx == 2 { 1 } else { 2 };
        (lerp_u8(a.0, b.0, n, 3), lerp_u8(a.1, b.1, n, 3), lerp_u8(a.2, b.2, n, 3), 255u8)
    } else if idx == 2 {
        (lerp_u8(a.0, b.0, 1, 2), lerp_u8(a.1, b.1, 1, 2), lerp_u8(a.2, b.2, 1, 2), 255u8)
    } else {
        (0u8, 0u8, 0u8, 0u8)
    }
}

fn bc4_palette_entry(r0: u8, r1: u8, idx: u64) -> (v: u8)
    requires
        idx < 8,
    ensures
        v == bc4_entry(r0, r1, idx),
{
    if idx == 0 {
        r0
    } else if idx == 1 {
        r1
    } else {
        let i = idx as u32;
        assert((8 - i) * r0 as u32 <= 2040 && (i - 1) * r1 as u32 <= 2040) by (nonlinear_arith)
            requires
                2 <= i < 8,
                r0 <= 255,
                r1 <= 255,
        ;
        if r0 > r1 {
            (((8 - idx) as u32 * r0 as u32 + (idx - 1) as u32 * r1 as u32) / 7) as u8
        } else if idx < 6 {
            assert((6 - i) * r0 as u32 <= 1020) by (nonlinear_arith)
                requires
                    2 <= i < 6,
                    r0 <= 255,
            ;
            (((6 - idx) as u32 * r0 as u32 + (idx - 1) as u32 * r1 as u32) / 5) as u8
        } else if idx == 6 {
            0u8
        } else {
            255u8
        }
    }
}

/// Texel number `t` of the BC4 block at `off`.
fn bc4_texel(data: &[u8], off: usize, t: u32) -> (v: u8)
    requires
        off + 8 <= data.len(),
        t < 16,
    ensures
        v == bc4_value(data@, off as int, t as int),
{
    let bits: u64 = data[off + 2] as u64 + (data[off + 3] as u64) * 0x100 + (data[off + 4] as u64) * 0x1_0000
        + (data[off + 5] as u64) * 0x100_0000 + (data[off + 6] as u64) * 0x1_0000_0000 + (data[off + 7] as u64)
        * 0x100_0000_0000;
    let idx = (bits >> (3 * t) as u64) & 7u64;
    assert(((bits >> (3 * t) as u64) & 7u64) < 8) by (bit_vector);
    bc4_palette_entry(data[off], data[off + 1], idx)
}

proof fn lemma_block_inside(w: u32, h: u32, x: int, y: int)
    requires
        0 <= x < w,
        0 <= y < h,
    ensures
        0 <= block_of(w, x, y) < blocks_across(w) * blocks_across(h),
        0 <= texel_in_block(x, y) < 16,
{
    let bw = blocks_across(w);
    let bh = blocks_across(h);
    assert(x / 4 < bw && y / 4 < bh);
    assert(0 <= (y / 4) * bw + x / 4 < bh * bw) by (nonlinear_arith)
        requires
            0 <= x / 4 < bw,
            0 <= y / 4 < bh,
    ;
    assert(bh * bw == bw * bh) by (nonlinear_arith);
}

/// Texel `(x, y)`, read from `data`.
fn texel_at(layout: TexelLayout, w: u32, h: u32, data: &[u8], normal_z: &[u8], x: u32, y: u32) -> (p: (
    u8,
    u8,
    u8,
    u8,
))
    requires
        x < w <= DDS_MAX_SIDE,
        y < h <= DDS_MAX_SIDE,
        data@.len() >= texel_bytes(layout, w, h),
        normal_z@.len() == NORMAL_Z_LEN,
    ensures
        p == texel(layout, w, data@, normal_z@, x as int, y as int),
{
    proof {
        lemma_block_inside(w, h, x as int, y as int);
    }
    let bw = (w + 3) / 4;
    assert((y / 4) * bw <= 2048 * 2048) by (nonlinear_arith)
        requires
            y / 4 <= 2048,
            bw <= 2048,
    ;
    let blk = ((y / 4) * bw + x / 4) as usize;
    let t = (y % 4) * 4 + x % 4;
    match layout {
        TexelLayout::Bc1 => {
            let off = blk * 8;
            let c0 = u16_at(data, off);
            let c1 = u16_at(data, off + 2);
            let bits = u32_at(data, off + 4);
            let idx = (bits >> (2 * t)) & 3u32;
            bc1_texel(c0, c1, idx)
        },
        TexelLayout::Bc4 => {
            let v = bc4_texel(data, blk * 8, t);
            (v, v, v, 255u8)
        },
        TexelLayout::Bc5 => {
            let off = blk * 16;
            let r = bc4_texel(data, off, t);
            let g = bc4_texel(data, off + 8, t);
            (r, g, normal_z[r as usize * 256 + g as usize], 255u8)
        },
        TexelLayout::Rgba => {
            assert((y * w + x) * 4 + 4 <= w * h * 4 && w * h <= 8192 * 8192) by (nonlinear_arith)
                requires
                    x < w <= 8192,
                    y < h <= 8192,
            ;
            let o = ((y * w + x) * 4) as usize;
            (data[o], data[o + 1], data[o + 2], data[o + 3])
        },
        TexelLayout::Bgra => {
            assert((y * w + x) * 4 + 4 <= w * h * 4 && w * h <= 8192 * 8192) by (nonlinear_arith)
                requires
                    x < w <= 8192,
                    y < h <= 8192,
            ;
            let o = ((y * w + x) * 4) as usize;
            (data[o + 2], data[o + 1], data[o], data[o + 3])
        },
    }
}

proof fn lemma_split(q: int, d: int, r: int)
    requires
        0 <= r < d,
    ensures
        (q * d + r) / d == q,
        (q * d + r) % d == r,
{
    vstd::arithmetic::div_mod::lemma_fundamental_div_mod_converse(q * d + r, d, q, r);
}

/// Every texel in raster order.
fn decode_texels(layout: TexelLayout, w: u32, h: u32, data: &[u8], normal_z: &[u8]) -> (rgba: Vec<u8>)
    requires
        0 < w <= DDS_MAX_SIDE,
        0 < h <= DDS_MAX_SIDE,
        data@.len() >= texel_bytes(layout, w, h),
        normal_z@.len() == NORMAL_Z_LEN,
    ensures
        rgba@ == decoded(layout, w, h, data@, normal_z@),
{
    let ghost img = decoded(layout, w, h, data@, normal_z@);
    let mut out: Vec<u8> = Vec::new();
    let mut y: u32 = 0;
    while y < h
        invariant
            y <= h,
            0 < w <= DDS_MAX_SIDE,
            h <= DDS_MAX_SIDE,
            data@.len() >= texel_bytes(layout, w, h),
            normal_z@.len() == NORMAL_Z_LEN,
            img == decoded(layout, w, h, data@, normal_z@),
            out@ == img.take((y * w * 4) as int),
        decreases h - y,
    {
        let mut x: u32 = 0;
        while x < w
            invariant
                y < h,
                x <= w,
                0 < w <= DDS_MAX_SIDE,
                h <= DDS_MAX_SIDE,
                data@.len() >= texel_bytes(layout, w, h),
                normal_z@.len() == NORMAL_Z_LEN,
                img == decoded(layout, w, h, data@, normal_z@),
                out@ == img.take(((y * w + x) * 4) as int),
            decreases w - x,
        {
            let p = texel_at(layout, w, h, data, normal_z, x, y);
            let ghost k = y * w + x;
            proof {
                assert(k < w * h) by (nonlinear_arith)
                    requires
                        k == y * w + x,
                        x < w,
                        y < h,
                ;
                assert(k * 4 + 4 <= w * h * 4) by (nonlinear_arith)
                    requires
                        k < w * h,
                ;
                lemma_split(y as int, w as int, x as int);
                assert forall|c: int| 0 <= c < 4 implies #[trigger] img[k * 4 + c] == channel(p, c) by {
                    lemma_split(k, 4, c);
                }
            }
            out.push(p.0);
            out.push(p.1);
            out.push(p.2);
            out.push(p.3);
            assert(out@ =~= img.take(((y * w + x) * 4 + 4) as int));
            x = x + 1;
        }
        assert((y * w + w) * 4 == (y + 1) * w * 4) by (nonlinear_arith);
        y = y + 1;
    }
    assert(h * w * 4 == w * h * 4) by (nonlinear_arith);
    assert(out@ =~= img);
    out
}

/// Decodes level 0 of a DX10 DDS file to RGBA8. `normal_z` is the blue of a
/// BC5 normal for each red and green, at `red * 256 + green`.
pub fn decode(bytes: &[u8], normal_z: &[u8]) -> (r: Result<DdsImage, DdsError>)
    requires
        normal_z@.len() == NORMAL_Z_LEN,
    ensures
        match r {
            Ok(img) => dds_decoded(bytes@, normal_z@) == Ok::<(u32, u32, Seq<u8>), Seq<char>>(
                (img.width, img.height, img.rgba@),
            ),
            Err(e) => dds_decoded(bytes@, normal_z@) == Err::<(u32, u32, Seq<u8>), Seq<char>>(e.0@),
        },
{
    if bytes.len() < DDS_HEADER_LEN || !(bytes[0] == 68u8 && bytes[1] == 68u8 && bytes[2] == 83u8 && bytes[3]
        == 32u8) {
        proof {
            if bytes@.len() >= DDS_HEADER_LEN {
                let t = bytes@.take(4);
                assert(t[0] != 68u8 || t[1] != 68u8 || t[2] != 83u8 || t[3] != 32u8);
                assert(t != dds_magic());
            }
        }
        return Err(DdsError(new_text("not a DDS")));
    }
    assert(bytes@.take(4) =~= dds_magic());
    let height = u32_at(bytes, 12);
    let width = u32_at(bytes, 16);
    if width == 0 || height == 0 || width > DDS_MAX_SIDE || height > DDS_MAX_SIDE {
        let mut m = new_text("bad DDS size ");
        push_decimal(&mut m, width as u64);
        push_text(&mut m, "x");
        push_decimal(&mut m, height as u64);
        return Err(DdsError(m));
    }
    let pf_flags = u32_at(bytes, 80);
    let fourcc = u32_at(bytes, 84);
    if pf_flags & 4u32 == 0 || fourcc != FOURCC_DX10 {
        return Err(DdsError(new_text("need DX10 DDS")));
    }
    let dxgi = u32_at(bytes, 128);
    let data = slice_from(bytes, DDS_HEADER_LEN);
    let layout = if dxgi == DXGI_BC1_UNORM || dxgi == DXGI_BC1_UNORM_SRGB {
        TexelLayout::Bc1
    } else if dxgi == DXGI_BC4_UNORM {
        TexelLayout::Bc4
    } else if dxgi == DXGI_BC5_UNORM || dxgi == DXGI_BC5_SNORM {
        TexelLayout::Bc5
    } else if dxgi == DXGI_R8G8B8A8_UNORM {
        TexelLayout::Rgba
    } else if dxgi == DXGI_B8G8R8A8_UNORM {
        TexelLayout::Bgra
    } else {
        let mut m = new_text("unsupported DXGI format ");
        push_decimal(&mut m, dxgi as u64);
        return Err(DdsError(m));
    };
    let bw = ((width + 3) / 4) as usize;
    let bh = ((height + 3) / 4) as usize;
    assert(bw * bh * 16 <= 2048 * 2048 * 16 && width * height * 4 <= 8192 * 8192 * 4) by (nonlinear_arith)
        requires
            bw <= 2048,
            bh <= 2048,
            width <= 8192,
            height <= 8192,
    ;
    let (need, message) = match layout {
        TexelLayout::Bc1 => (bw * bh * 8, "BC1 DDS truncated"),
        TexelLayout::Bc4 => (bw * bh * 8, "BC4 DDS truncated"),
        TexelLayout::Bc5 => (bw * bh * 16, "BC5 DDS truncated"),
        _ => (width as usize * height as usize * 4, "RGBA DDS truncated"),
    };
    if data.len() < need {
        return Err(DdsError(new_text(message)));
    }
    let rgba = decode_texels(layout, width, height, data, normal_z);
    Ok(DdsImage { width, height, rgba })
}

/// The bytes of `s` from `start` on.
fn slice_from(s: &[u8], start: usize) -> (t: &[u8])
    requires
        start <= s@.len(),
    ensures
        t@ == s@.skip(start as int),
{
    vstd::slice::slice_subrange(s, start, s.len())
}

/// A BC4 palette starts at its two endpoints; with `r0 > r1` its other six
/// entries lie between them, and with `r0 <= r1` four entries lie between
/// them and the last two are black (6) and white (7).
pub proof fn a_bc4_palette_spans_its_endpoints(r0: u8, r1: u8)
    ensures
        bc4_entry(r0, r1, 0) == r0,
        bc4_entry(r0, r1, 1) == r1,
        r0 > r1 ==> forall|idx: u64| 2 <= idx < 8 ==> r1 <= #[trigger] bc4_entry(r0, r1, idx) <= r0,
        r0 <= r1 ==> forall|idx: u64| 2 <= idx < 6 ==> r0 <= #[trigger] bc4_entry(r0, r1, idx) <= r1,
        r0 <= r1 ==> bc4_entry(r0, r1, 6) == 0,
        r0 <= r1 ==> bc4_entry(r0, r1, 7) == 255,
{
    assert forall|idx: u64| 2 <= idx < 8 && r0 > r1 implies r1 <= #[trigger] bc4_entry(r0, r1, idx) <= r0 by {
        let a = r0 as int;
        let b = r1 as int;
        let p = (8 - idx) as u32 as int;
        let q = (idx - 1) as u32 as int;
        assert(p == 8 - idx && q == idx - 1);
        let v = (p * a + q * b) / 7;
        assert(b <= v <= a) by (nonlinear_arith)
            requires v == (p * a + q * b) / 7, p + q == 7, p >= 0, q >= 0, 0 <= b <= a;
        assert(bc4_entry(r0, r1, idx) as int == v);
    }
    assert forall|idx: u64| 2 <= idx < 6 && r0 <= r1 implies r0 <= #[trigger] bc4_entry(r0, r1, idx) <= r1 by {
        let a = r0 as int;
        let b = r1 as int;
        let p = (6 - idx) as u32 as int;
        let q = (idx - 1) as u32 as int;
        assert(p == 6 - idx && q == idx - 1);
        let v = (p * a + q * b) / 5;
        assert(a <= v <= b) by (nonlinear_arith)
            requires v == (p * a + q * b) / 5, p + q == 5, p >= 0, q >= 0, 0 <= a <= b;
        assert(bc4_entry(r0, r1, idx) as int == v);
    }
}

/// `v` lies between `x` and `y`, whichever is larger.
pub open spec fn between(v: u8, x: u8, y: u8) -> bool {
    (x <= v <= y) || (y <= v <= x)
}

proof fn lemma_lerp_between(x: u8, y: u8, num: u32, den: u32)
    requires
        0 < den,
        num <= den,
    ensures
        between(spec_lerp(x, y, num, den), x, y),
{
    let a = x as int;
    let b = y as int;
    let n = num as int;
    let d = den as int;
    let v = (a * (d - n) + b * n) / d;
    assert((a <= b ==> a <= v <= b) && (b <= a ==> b <= v <= a)) by (nonlinear_arith)
        requires v == (a * (d - n) + b * n) / d, 0 < d, 0 <= n <= d, 0 <= a, 0 <= b;
    assert(0 <= v <= 255);
    assert(spec_lerp(x, y, num, den) as int == v);
}

/// A BC1 palette starts at its two endpoint colours, both opaque; with
/// `c0 > c1` its two other entries are opaque colours between them, channel
/// by channel; with `c0 <= c1` entry 2 is such a colour and entry 3 is
/// transparent black.
pub proof fn a_bc1_palette_spans_its_endpoints(c0: u16, c1: u16)
    ensures
        ({
            let a = spec_rgb565(c0);
            let b = spec_rgb565(c1);
            &&& bc1_entry(c0, c1, 0) == (a.0, a.1, a.2, 255u8)
            &&& bc1_entry(c0, c1, 1) == (b.0, b.1, b.2, 255u8)
            &&& forall|idx: u32|
                (idx == 2 || (idx == 3 && c0 > c1)) ==> {
                    let e = #[trigger] bc1_entry(c0, c1, idx);
                    &&& between(e.0, a.0, b.0)
                    &&& between(e.1, a.1, b.1)
                    &&& between(e.2, a.2, b.2)
                    &&& e.3 == 255
                }
            &&& c0 <= c1 ==> bc1_entry(c0, c1, 3) == (0u8, 0u8, 0u8, 0u8)
        }),
{
    let a = spec_rgb565(c0);
    let b = spec_rgb565(c1);
    lemma_lerp_between(a.0, b.0, 1, 3);
    lemma_lerp_between(a.1, b.1, 1, 3);
    lemma_lerp_between(a.2, b.2, 1, 3);
    lemma_lerp_between(a.0, b.0, 2, 3);
    lemma_lerp_between(a.1, b.1, 2, 3);
    lemma_lerp_between(a.2, b.2, 2, 3);
    lemma_lerp_between(a.0, b.0, 1, 2);
    lemma_lerp_between(a.1, b.1, 1, 2);
    lemma_lerp_between(a.2, b.2, 1, 2);
}

/// Which byte of the RGBA texel data holds byte `j` of the same texel in
/// BGRA order: red and blue change places, green and alpha stay.
pub open spec fn red_blue_swapped(j: int) -> int {
    if j % 4 == 0 {
        j + 2
    } else if j % 4 == 2 {
        j - 2
    } else {
        j
    }
}

proof fn lemma_texel_of_index(w: u32, i: int)
    requires
        w > 0,
        i >= 0,
    ensures
        ((i / 4) / (w as int)) * (w as int) + (i / 4) % (w as int) == i / 4,
        4 * (i / 4) + i % 4 == i,
        0 <= (i / 4) % (w as int) < w,
        (i / 4) / (w as int) >= 0,
{
    vstd::arithmetic::div_mod::lemma_fundamental_div_mod(i / 4, w as int);
    vstd::arithmetic::div_mod::lemma_fundamental_div_mod(i, 4);
    assert(((i / 4) / (w as int)) * (w as int) == (w as int) * ((i / 4) / (w as int))) by (nonlinear_arith);
    assert((i / 4) / (w as int) >= 0) by (nonlinear_arith)
        requires i >= 0, w > 0;
}

/// An RGBA image decodes to its own bytes: decoding copies the texels.
pub proof fn rgba_decodes_to_its_own_bytes(w: u32, h: u32, data: Seq<u8>, normal_z: Seq<u8>)
    requires
        w > 0,
        data.len() >= w * h * 4,
    ensures
        decoded(TexelLayout::Rgba, w, h, data, normal_z) == data.take(w * h * 4),
{
    let n = w * h * 4;
    let out = decoded(TexelLayout::Rgba, w, h, data, normal_z);
    assert forall|i: int| 0 <= i < n implies #[trigger] out[i] == data.take(n)[i] by {
        lemma_texel_of_index(w, i);
        let x = (i / 4) % (w as int);
        let y = (i / 4) / (w as int);
        assert((y * w + x) * 4 == 4 * (i / 4)) by (nonlinear_arith)
            requires y * (w as int) + x == i / 4;
    }
    assert(out =~= data.take(n));
}

/// A BGRA image decodes as the RGBA image whose texels have red and blue
/// in each other's place.
pub proof fn bgra_decodes_as_rgba_with_red_and_blue_swapped(
    w: u32,
    h: u32,
    data: Seq<u8>,
    rgba: Seq<u8>,
    normal_z: Seq<u8>,
)
    requires
        w > 0,
        data.len() >= w * h * 4,
        rgba.len() == data.len(),
        forall|j: int| 0 <= j < w * h * 4 ==> #[trigger] rgba[j] == data[red_blue_swapped(j)],
    ensures
        decoded(TexelLayout::Bgra, w, h, data, normal_z) == decoded(TexelLayout::Rgba, w, h, rgba, normal_z),
{
    let n = w * h * 4;
    let a = decoded(TexelLayout::Bgra, w, h, data, normal_z);
    let b = decoded(TexelLayout::Rgba, w, h, rgba, normal_z);
    assert forall|i: int| 0 <= i < n implies #[trigger] a[i] == b[i] by {
        lemma_texel_of_index(w, i);
        let x = (i / 4) % (w as int);
        let y = (i / 4) / (w as int);
        let o = (y * w + x) * 4;
        assert(o == 4 * (i / 4)) by (nonlinear_arith)
            requires y * (w as int) + x == i / 4, o == (y * w + x) * 4;
        assert(o % 4 == 0 && (o + 1) % 4 == 1 && (o + 2) % 4 == 2 && (o + 3) % 4 == 3);
        assert(o + 3 < n);
        assert(rgba[o] == data[o + 2]);
        assert(rgba[o + 1] == data[o + 1]);
        assert(rgba[o + 2] == data[o]);
        assert(rgba[o + 3] == data[o + 3]);
    }
    assert(a =~= b);
}

} // verus!
