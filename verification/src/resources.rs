//! Texel sizes, row pitches and the copies between tight and padded rows.
//!
//! Buffer-to-image copies want each row to start on a 256-byte boundary; a
//! mip is packed into such rows before upload, and a read-back is unpacked
//! from them.

use vstd::prelude::*;

use crate::null_gpu::{is_message, RhiError};
use crate::rhi::Format;
use crate::text::{decimal, new_text, push_decimal, push_text};

verus! {

/// Row pitch alignment of buffer-to-image copies.
pub const ROW_PITCH_ALIGN: u32 = 256;

/// Bytes per texel of each format; unknown formats have none.
pub open spec fn spec_bytes_per_pixel(format: Format) -> Option<u32> {
    match format {
        Format::Rgba8Unorm | Format::Rgba8Srgb | Format::Bgra8Unorm | Format::Bgra8Srgb => Some(4),
        Format::R32Float | Format::D32Float | Format::Rg16Float => Some(4),
        Format::Rgba16Float => Some(8),
        Format::Unknown(_) => None,
    }
}

pub fn bytes_per_pixel(format: Format) -> (r: Result<u32, RhiError>)
    ensures
        match r {
            Ok(n) => spec_bytes_per_pixel(format) == Some(n),
            Err(e) => spec_bytes_per_pixel(format) is None && is_message(e, "unknown texture format"@),
        },
{
    match format {
        Format::Rgba8Unorm | Format::Rgba8Srgb | Format::Bgra8Unorm | Format::Bgra8Srgb => Ok(4),
        Format::R32Float | Format::D32Float | Format::Rg16Float => Ok(4),
        Format::Rgba16Float => Ok(8),
        Format::Unknown(_) => Err(RhiError::msg("unknown texture format")),
    }
}

/// `n` rounded up to a multiple of 256.
pub open spec fn align_up(n: int) -> int {
    ((n + 255) / 256) * 256
}

/// The bytes of a row of `width` texels of `bpp` bytes, padded to the pitch.
pub open spec fn spec_row_pitch(width: u32, bpp: u32) -> int {
    align_up(width * bpp)
}

/// The row can be padded without leaving `u32`: its length plus the
/// alignment fits.
pub open spec fn pitch_fits(width: u32, bpp: u32) -> bool {
    width * bpp + ROW_PITCH_ALIGN - 1 <= u32::MAX
}

pub fn row_pitch_bytes(width: u32, bpp: u32) -> (p: u32)
    requires
        pitch_fits(width, bpp),
    ensures
        p == spec_row_pitch(width, bpp),
        width * bpp <= p < width * bpp + 256,
        p % 256 == 0,
{
    let row = match width.checked_mul(bpp) {
        Some(v) => v,
        None => u32::MAX,
    };
    assert(row == width * bpp);
    let p = (row + (ROW_PITCH_ALIGN - 1)) & !(ROW_PITCH_ALIGN - 1);
    let t = row + (ROW_PITCH_ALIGN - 1);
    assert(t & !255u32 == (t / 256u32) * 256u32) by (bit_vector);
    p
}

proof fn lemma_split(q: int, d: int, r: int)
    requires
        0 <= r < d,
    ensures
        (q * d + r) / d == q,
        (q * d + r) % d == r,
{
    vstd::arithmetic::div_mod::lemma_fundamental_div_mod_converse(q * d + r, d, q, r);
}

proof fn lemma_row_inside(y: int, row: int, x: int, h: int)
    requires
        0 <= y < h,
        0 <= x < row,
    ensures
        0 <= y * row + x < h * row,
        y * row + row <= h * row,
        h * row == row * h,
{
    assert(0 <= y * row + x < h * row && y * row + row <= h * row && h * row == row * h) by (nonlinear_arith)
        requires
            0 <= y < h,
            0 <= x < row,
    ;
}

/// Tight rows of `row` bytes laid out at a pitch of `pitch`; the padding is 0.
pub open spec fn packed(rgba: Seq<u8>, row: int, pitch: int, height: int) -> Seq<u8> {
    Seq::new(
        (pitch * height) as nat,
        |i: int|
            if i % pitch < row {
                rgba[(i / pitch) * row + i % pitch]
            } else {
                0u8
            },
    )
}

/// The message of a mip whose size does not match its extent.
pub open spec fn mip_size_message(len: nat, width: u32, height: u32, bpp: u32) -> Seq<char> {
    "mip size "@ + decimal(len) + " != "@ + decimal(width as nat) + "x"@ + decimal(height as nat) + "x"@
        + decimal(bpp as nat)
}

/// Copies a tight mip into rows of the copy pitch. The mip must hold
/// `width * height * bpp` bytes.
pub fn pack_mip(width: u32, height: u32, bpp: u32, rgba: &[u8]) -> (r: Result<Vec<u8>, RhiError>)
    requires
        width * height <= usize::MAX,
        width * height * bpp <= usize::MAX,
        rgba@.len() == width * height * bpp ==> pitch_fits(width, bpp) && spec_row_pitch(width, bpp)
            * height <= usize::MAX,
    ensures
        match r {
            Ok(out) => rgba@.len() == width * height * bpp && out@ == packed(
                rgba@,
                width * bpp,
                spec_row_pitch(width, bpp),
                height as int,
            ),
            Err(e) => rgba@.len() != width * height * bpp && is_message(
                e,
                mip_size_message(rgba@.len(), width, height, bpp),
            ),
        },
{
    assert(width as int * height as int <= width * height * bpp || bpp == 0) by (nonlinear_arith);
    let expected = (width as usize) * (height as usize) * (bpp as usize);
    if rgba.len() != expected {
        let mut m = new_text("mip size ");
        push_decimal(&mut m, rgba.len() as u64);
        push_text(&mut m, " != ");
        push_decimal(&mut m, width as u64);
        push_text(&mut m, "x");
        push_decimal(&mut m, height as u64);
        push_text(&mut m, "x");
        push_decimal(&mut m, bpp as u64);
        assert(m@ =~= mip_size_message(rgba@.len(), width, height, bpp));
        return Err(RhiError::Message(m));
    }
    let pitch = row_pitch_bytes(width, bpp) as usize;
    let row = width as usize * bpp as usize;
    assert(width * height * bpp == (width * bpp) * height) by (nonlinear_arith);
    let ghost spec_out = packed(rgba@, row as int, pitch as int, height as int);
    let mut out: Vec<u8> = Vec::new();
    let mut y: usize = 0;
    while y < height as usize
        invariant
            y <= height,
            row == width * bpp,
            pitch == spec_row_pitch(width, bpp),
            row <= pitch,
            pitch * height <= usize::MAX,
            rgba.len() == row * height,
            spec_out == packed(rgba@, row as int, pitch as int, height as int),
            out@ == spec_out.take(y * pitch),
        decreases height - y,
    {
        assert(y * pitch + pitch <= pitch * height) by (nonlinear_arith)
            requires
                y < height,
        ;
        let mut x: usize = 0;
        while x < pitch
            invariant
                y < height,
                x <= pitch,
                row <= pitch,
                y * pitch + pitch <= pitch * height,
                pitch * height <= usize::MAX,
                rgba.len() == row * height,
                spec_out == packed(rgba@, row as int, pitch as int, height as int),
                out@ == spec_out.take(y * pitch + x),
            decreases pitch - x,
        {
            proof {
                lemma_split(y as int, pitch as int, x as int);
            }
            let b = if x < row {
                proof {
                    lemma_row_inside(y as int, row as int, x as int, height as int);
                }
                rgba[y * row + x]
            } else {
                0u8
            };
            out.push(b);
            assert(out@ =~= spec_out.take(y * pitch + x + 1));
            x = x + 1;
        }
        y = y + 1;
        assert(y * pitch == (y - 1) * pitch + pitch) by (nonlinear_arith);
    }
    assert(height * pitch == pitch * height) by (nonlinear_arith);
    assert(out@ =~= spec_out);
    Ok(out)
}

/// The size of level `mip` of a `base_w` x `base_h` image: halved per level,
/// never below one texel.
pub open spec fn spec_mip_extent(base_w: u32, base_h: u32, mip: u32) -> (u32, u32) {
    (
        if base_w >> mip >= 1 { base_w >> mip } else { 1 },
        if base_h >> mip >= 1 { base_h >> mip } else { 1 },
    )
}

pub fn mip_extent(base_w: u32, base_h: u32, mip: u32) -> (e: (u32, u32))
    requires
        mip < 32,
    ensures
        e == spec_mip_extent(base_w, base_h, mip),
{
    let w = base_w >> mip;
    let h = base_h >> mip;
    (if w >= 1 { w } else { 1 }, if h >= 1 { h } else { 1 })
}

/// Padded rows read back, `depth` slices of `height` rows each, with the
/// padding dropped.
pub open spec fn unpacked(padded: Seq<u8>, row: int, pitch: int, height: int, depth: int) -> Seq<u8> {
    Seq::new(
        (depth * height * row) as nat,
        |i: int|
            padded[(i / (height * row)) * (pitch * height) + ((i % (height * row)) / row) * pitch + (i % (height
                * row)) % row],
    )
}

/// Every row of every slice lies inside the padded bytes.
pub open spec fn rows_inside(len: int, row: int, pitch: int, height: int, depth: int) -> bool {
    forall|z: int, y: int|
        0 <= z < depth && 0 <= y < height ==> #[trigger] (z * (pitch * height) + y * pitch) + row <= len
}

/// Drops the row padding of a read-back: slices one after another, each
/// `pitch * height` bytes.
pub fn unpack_rows(padded: &[u8], width: u32, height: u32, depth: u32, bpp: u32) -> (out: Vec<u8>)
    requires
        pitch_fits(width, bpp),
        spec_row_pitch(width, bpp) * height <= usize::MAX,
        rows_inside(padded@.len() as int, width * bpp, spec_row_pitch(width, bpp), height as int, depth as int),
    ensures
        out@ == unpacked(padded@, width * bpp, spec_row_pitch(width, bpp), height as int, depth as int),
{
    let pitch = row_pitch_bytes(width, bpp) as usize;
    let row = width as usize * bpp as usize;
    let slice = pitch * height as usize;
    let ghost len = padded@.len() as int;
    let ghost spec_out = unpacked(padded@, row as int, pitch as int, height as int, depth as int);
    let ghost hr = height * row;
    let mut out: Vec<u8> = Vec::new();
    let mut z: usize = 0;
    while z < depth as usize
        invariant
            z <= depth,
            row == width * bpp,
            pitch == spec_row_pitch(width, bpp),
            slice == pitch * height,
            hr == height * row,
            rows_inside(len, row as int, pitch as int, height as int, depth as int),
            len == padded@.len(),
            spec_out == unpacked(padded@, row as int, pitch as int, height as int, depth as int),
            out@ == spec_out.take(z * hr),
        decreases depth - z,
    {
        let mut y: usize = 0;
        while y < height as usize
            invariant
                z < depth,
                y <= height,
                row == width * bpp,
                slice == pitch * height,
                hr == height * row,
                rows_inside(len, row as int, pitch as int, height as int, depth as int),
                len == padded@.len(),
                spec_out == unpacked(padded@, row as int, pitch as int, height as int, depth as int),
                out@ == spec_out.take(z * hr + y * row),
            decreases height - y,
        {
            assert((z * (pitch * height) + y * pitch) + row <= padded.len());
            assert(0 <= z * (pitch * height) && 0 <= y * pitch) by (nonlinear_arith);
            let s = z * slice + y * pitch;
            let mut x: usize = 0;
            while x < row
                invariant
                    z < depth,
                    y < height,
                    x <= row,
                    s == z * (pitch * height) + y * pitch,
                    s + row <= padded.len(),
                    hr == height * row,
                    len == padded@.len(),
                    spec_out == unpacked(padded@, row as int, pitch as int, height as int, depth as int),
                    out@ == spec_out.take(z * hr + y * row + x),
                decreases row - x,
            {
                proof {
                    let i = z * hr + y * row + x;
                    lemma_split(y as int, row as int, x as int);
                    lemma_row_inside(y as int, row as int, x as int, height as int);
                    lemma_split(z as int, hr, y * row + x);
                    assert(i == z * hr + (y * row + x));
                    assert(i / hr == z);
                    assert(i % hr == y * row + x);
                    assert(z * hr + y * row + x < depth * hr) by (nonlinear_arith)
                        requires
                            z < depth,
                            y * row + x < hr,
                    ;
                    assert(depth * hr == depth * height * row) by (nonlinear_arith)
                        requires
                            hr == height * row,
                    ;
                }
                out.push(padded[s + x]);
                assert(out@ =~= spec_out.take(z * hr + y * row + x + 1));
                x = x + 1;
            }
            y = y + 1;
            assert(z * hr + y * row == z * hr + (y - 1) * row + row) by (nonlinear_arith);
        }
        z = z + 1;
        assert(z * hr == (z - 1) * hr + height * row) by (nonlinear_arith)
            requires
                hr == height * row,
        ;
    }
    proof {
        assert(depth * hr == depth * height * row) by (nonlinear_arith)
            requires
                hr == height * row,
        ;
    }
    assert(out@ =~= spec_out);
    out
}

/// Unpacking what `pack_mip` packed gives the mip back: the padding holds
/// nothing of it, and every row lands where it was.
pub proof fn unpacking_a_packed_mip_gives_it_back(rgba: Seq<u8>, width: u32, height: u32, bpp: u32)
    requires
        rgba.len() == width * height * bpp,
        pitch_fits(width, bpp),
    ensures
        ({
            let row = width * bpp;
            let pitch = spec_row_pitch(width, bpp);
            let p = packed(rgba, row, pitch, height as int);
            &&& rows_inside(p.len() as int, row, pitch, height as int, 1)
            &&& unpacked(p, row, pitch, height as int, 1) == rgba
        }),
{
    let row = width * bpp;
    let pitch = spec_row_pitch(width, bpp);
    let h = height as int;
    let p = packed(rgba, row, pitch, h);
    assert(row <= pitch && 0 <= row);
    assert(rgba.len() == row * h) by (nonlinear_arith)
        requires
            rgba.len() == width * height * bpp,
            row == width * bpp,
            h == height,
    ;
    assert(p.len() == pitch * h) by (nonlinear_arith)
        requires
            p.len() == (pitch * h) as nat,
            0 <= pitch,
            0 <= h,
    ;
    assert forall|z: int, y: int| 0 <= z < 1 && 0 <= y < h implies #[trigger] (z * (pitch * h) + y * pitch) + row
        <= p.len() by {
        assert(z == 0);
        assert(y * pitch + row <= pitch * h) by (nonlinear_arith)
            requires
                0 <= y < h,
                0 <= row <= pitch,
        ;
    }
    let u = unpacked(p, row, pitch, h, 1);
    assert(u.len() == rgba.len()) by (nonlinear_arith)
        requires
            u.len() == (1 * h * row) as nat,
            rgba.len() == row * h,
            0 <= h,
            0 <= row,
    ;
    assert forall|i: int| 0 <= i < rgba.len() implies u[i] == rgba[i] by {
        let y = i / row;
        let x = i % row;
        assert(row > 0);
        assert(1 * h * row == h * row);
        lemma_split(0, h * row, i);
        assert(i / (h * row) == 0 && i % (h * row) == i);
        vstd::arithmetic::div_mod::lemma_fundamental_div_mod(i, row);
        assert(0 <= x < row);
        assert(0 <= y < h) by (nonlinear_arith)
            requires
                i == row * y + x,
                0 <= i < row * h,
                0 <= x < row,
                row > 0,
        ;
        lemma_split(y, pitch, x);
        assert(0 * (pitch * h) == 0);
        assert(y * row + x == i) by (nonlinear_arith)
            requires
                i == row * y + x,
        ;
        assert(y * pitch + x < p.len()) by (nonlinear_arith)
            requires
                0 <= y < h,
                0 <= x < row,
                row <= pitch,
                p.len() == pitch * h,
        ;
    }
    assert(u =~= rgba);
}

} // verus!
