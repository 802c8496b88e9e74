//! Read-back pixels made ready for an image file: BGRA turned into RGBA, and
//! the slices of a volume laid out side by side in a grid, so one picture
//! shows the whole volume.

use vstd::prelude::*;

use crate::rhi::TextureData;

verus! {

/// `b` with the first and third byte of every whole four-byte texel
/// swapped; bytes past the last whole texel stay.
pub open spec fn swapped_bgra(b: Seq<u8>) -> Seq<u8> {
    Seq::new(
        b.len(),
        |i: int|
            if i < 4 * (b.len() / 4) {
                if i % 4 == 0 {
                    b[i + 2]
                } else if i % 4 == 2 {
                    b[i - 2]
                } else {
                    b[i]
                }
            } else {
                b[i]
            },
    )
}

/// BGRA texels as RGBA.
pub fn bgra_to_rgba(bytes: &[u8]) -> (out: Vec<u8>)
    ensures
        out@ == swapped_bgra(bytes@),
{
    let n = bytes.len();
    let whole = n / 4 * 4;
    let mut out: Vec<u8> = Vec::new();
    let mut i: usize = 0;
    while i < n
        invariant
            i <= n,
            n == bytes@.len(),
            whole == 4 * (n / 4),
            out@ == swapped_bgra(bytes@).take(i as int),
        decreases n - i,
    {
        let v = if i < whole {
            if i % 4 == 0 {
                bytes[i + 2]
            } else if i % 4 == 2 {
                bytes[i - 2]
            } else {
                bytes[i]
            }
        } else {
            bytes[i]
        };
        out.push(v);
        proof {
            assert(out@ =~= swapped_bgra(bytes@).take(i + 1));
        }
        i = i + 1;
    }
    proof {
        assert(swapped_bgra(bytes@).take(n as int) =~= swapped_bgra(bytes@));
    }
    out
}

/// Swapping twice gives the bytes back.
pub proof fn swapping_twice_is_nothing(b: Seq<u8>)
    ensures
        swapped_bgra(swapped_bgra(b)) == b,
{
    let s = swapped_bgra(b);
    assert forall|i: int| 0 <= i < b.len() implies swapped_bgra(s)[i] == b[i] by {
        if i < 4 * (b.len() / 4) {
            if i % 4 == 0 {
                assert((i + 2) % 4 == 2 && i + 2 < 4 * (b.len() / 4));
            } else if i % 4 == 2 {
                assert((i - 2) % 4 == 0 && i - 2 >= 0);
            }
        }
    }
    assert(swapped_bgra(s) =~= b);
}

/// Rows of the grid of `slices` slices laid `cols` to a row.
pub open spec fn grid_rows(slices: u32, cols: u32) -> int {
    (slices + cols - 1) / cols as int
}

/// Byte `i` of the grid picture: `row` bytes a slice row, `h` rows a
/// slice, `cols` slices across; cells past the last slice are zero.
pub open spec fn grid_byte(bytes: Seq<u8>, row: int, h: int, slices: int, cols: int, i: int) -> u8 {
    let out_row = i / (cols * row);
    let within = i % (cols * row);
    let cy = out_row / h;
    let y = out_row % h;
    let cx = within / row;
    let b = within % row;
    let z = cy * cols + cx;
    if z < slices {
        bytes[(z * h + y) * row + b]
    } else {
        0
    }
}

pub open spec fn tiled(bytes: Seq<u8>, row: int, h: int, slices: int, cols: int) -> Seq<u8> {
    Seq::new(
        (cols * row * (h * grid_rows(slices as u32, cols as u32))) as nat,
        |i: int| grid_byte(bytes, row, h, slices, cols, i),
    )
}

/// The texel size of a read-back: its bytes over its texels.
pub open spec fn texel_bytes(d: TextureData) -> int {
    d.bytes@.len() as int / (d.width * d.height * d.depth_slices)
}

/// What `tile_slices` needs to lay a volume out: a column or more, a
/// volume with texels, and a picture whose sizes fit.
pub open spec fn tileable(d: TextureData, cols: u32) -> bool {
    d.depth_slices > 1 ==> {
        let bpp = texel_bytes(d);
        &&& cols >= 1
        &&& d.width * d.height >= 1
        &&& d.width * d.height * d.depth_slices <= usize::MAX
        &&& d.width * cols <= u32::MAX
        &&& d.height * grid_rows(d.depth_slices, cols) <= u32::MAX
        &&& d.width * cols * bpp * (d.height * grid_rows(d.depth_slices, cols)) <= usize::MAX
    }
}

proof fn lemma_decode(out_row: int, cx: int, b: int, row: int, cols: int)
    requires
        0 <= out_row,
        0 <= cx < cols,
        0 <= b < row,
    ensures
        (out_row * (cols * row) + cx * row + b) / (cols * row) == out_row,
        (out_row * (cols * row) + cx * row + b) % (cols * row) == cx * row + b,
        (cx * row + b) / row == cx,
        (cx * row + b) % row == b,
{
    assert(0 <= cx * row + b < cols * row) by (nonlinear_arith)
        requires
            0 <= cx < cols,
            0 <= b < row,
    ;
    assert(out_row * (cols * row) + cx * row + b == (cols * row) * out_row + (cx * row + b)) by (nonlinear_arith);
    vstd::arithmetic::div_mod::lemma_fundamental_div_mod_converse(
        out_row * (cols * row) + cx * row + b,
        cols * row,
        out_row,
        cx * row + b,
    );
    assert(cx * row + b == row * cx + b) by (nonlinear_arith);
    vstd::arithmetic::div_mod::lemma_fundamental_div_mod_converse(cx * row + b, row, cx, b);
}

/// The slices of a volume side by side, `cols` to a row, as one 2D picture;
/// a 2D read-back is left as it is.
pub fn tile_slices(data: &TextureData, cols: u32) -> (out: TextureData)
    requires
        tileable(*data, cols),
    ensures
        data.depth_slices <= 1 ==> out.width == data.width && out.height == data.height && out.depth_slices
            == data.depth_slices && out.format == data.format && out.bytes@ == data.bytes@,
        data.depth_slices > 1 ==> {
            let bpp = texel_bytes(*data);
            &&& out.width == data.width * cols
            &&& out.height == data.height * grid_rows(data.depth_slices, cols)
            &&& out.depth_slices == 1
            &&& out.format == data.format
            &&& out.bytes@ == tiled(
                data.bytes@,
                data.width * bpp,
                data.height as int,
                data.depth_slices as int,
                cols as int,
            )
        },
{
    if data.depth_slices <= 1 {
        return TextureData {
            width: data.width,
            height: data.height,
            depth_slices: data.depth_slices,
            format: data.format,
            bytes: copy_bytes(&data.bytes),
        };
    }
    let w = data.width as usize;
    let h = data.height as usize;
    let s = data.depth_slices as usize;
    proof {
        assert(w * h <= w * h * s) by (nonlinear_arith)
            requires
                s >= 1,
        ;
    }
    let texels = w * h * s;
    let bpp = data.bytes.len() / texels;
    proof {
        if data.depth_slices % cols != 0 {
            assert(cols >= 2);
            vstd::arithmetic::div_mod::lemma_fundamental_div_mod(data.depth_slices as int, cols as int);
            assert(data.depth_slices / cols < u32::MAX) by (nonlinear_arith)
                requires
                    data.depth_slices == cols * (data.depth_slices / cols) + data.depth_slices % cols,
                    cols >= 2,
                    data.depth_slices <= u32::MAX,
                    data.depth_slices % cols >= 0,
            ;
        }
    }
    let rows = data.depth_slices / cols + if data.depth_slices % cols == 0 {
        0
    } else {
        1
    };
    proof {
        lemma_grid_rows(data.depth_slices as int, cols as int);
        assert(w * bpp <= w * cols * bpp) by (nonlinear_arith)
            requires
                cols >= 1,
        ;
        assert(h * (rows as int) >= 1 ==> w * cols * bpp <= w * cols * bpp * (h * rows)) by (nonlinear_arith);
        vstd::arithmetic::div_mod::lemma_fundamental_div_mod(data.bytes@.len() as int, texels as int);
        assert(texels * bpp <= data.bytes@.len());
    }
    let n_bytes = data.bytes.len();
    proof {
        assert(w >= 1 && h >= 1) by (nonlinear_arith)
            requires
                w * h >= 1,
        ;
        assert(w * bpp <= texels * bpp) by (nonlinear_arith)
            requires
                texels == w * h * s,
                h >= 1,
                s >= 1,
        ;
        assert(rows >= 1) by {
            vstd::arithmetic::div_mod::lemma_div_is_ordered(cols as int, s + cols - 1, cols as int);
            vstd::arithmetic::div_mod::lemma_div_by_self(cols as int);
        }
        assert(cols * (w * bpp) <= (cols * (w * bpp)) * (h * rows)) by (nonlinear_arith)
            requires
                h >= 1,
                rows >= 1,
        ;
        assert(cols * (w * bpp) == w * cols * bpp) by (nonlinear_arith);
    }
    let tw = data.width * cols;
    let th = data.height * rows;
    let row = w * bpp;
    let out_row_bytes = (cols as usize) * row;
    let ghost expect = tiled(data.bytes@, row as int, h as int, s as int, cols as int);
    let mut out: Vec<u8> = Vec::new();
    let mut r: usize = 0;
    while r < th as usize
        invariant
            r <= th,
            th == h * rows,
            rows == grid_rows(data.depth_slices, cols),
            cols >= 1,
            h >= 1,
            w >= 1,
            s >= 2,
            row == w * bpp,
            out_row_bytes == cols * row,
            (cols * row) * (h * rows) <= usize::MAX,
            texels == w * h * s,
            texels * bpp <= data.bytes@.len(),
            data.bytes@.len() == n_bytes,
            s == data.depth_slices,
            expect == tiled(data.bytes@, row as int, h as int, s as int, cols as int),
            expect.len() == (cols * row) * (h * rows),
            out@ == expect.take(r * out_row_bytes),
        decreases th - r,
    {
        let cy = r / h;
        let y = r % h;
        let mut cx: usize = 0;
        while cx < cols as usize
            invariant
                r < th,
                cx <= cols,
                th == h * rows,
                rows == grid_rows(data.depth_slices, cols),
                cols >= 1,
                h >= 1,
                w >= 1,
                row == w * bpp,
                out_row_bytes == cols * row,
                (cols * row) * (h * rows) <= usize::MAX,
                texels == w * h * s,
                texels * bpp <= data.bytes@.len(),
                data.bytes@.len() == n_bytes,
                s == data.depth_slices,
                cy == r / h,
                y == r % h,
                expect == tiled(data.bytes@, row as int, h as int, s as int, cols as int),
                expect.len() == (cols * row) * (h * rows),
                out@ == expect.take(r * out_row_bytes + cx * row),
            decreases cols - cx,
        {
            proof {
                vstd::arithmetic::div_mod::lemma_div_is_ordered(r as int, (th - 1) as int, h as int);
                assert(cy <= u32::MAX);
                assert(cy * cols + cx <= u32::MAX * u32::MAX + u32::MAX) by (nonlinear_arith)
                    requires
                        cy <= u32::MAX,
                        cols <= u32::MAX,
                        cx < cols,
                ;
            }
            let z64 = (cy as u64) * (cols as u64) + (cx as u64);
            let mut b: usize = 0;
            proof {
                assert(r * out_row_bytes + cx * row + row <= (cols * row) * (h * rows)) by (nonlinear_arith)
                    requires
                        r < h * rows,
                        cx < cols,
                        out_row_bytes == cols * row,
                ;
            }
            while b < row
                invariant
                    r < th,
                    cx < cols,
                    b <= row,
                    th == h * rows,
                    cols >= 1,
                    h >= 1,
                    row == w * bpp,
                    out_row_bytes == cols * row,
                    r * out_row_bytes + cx * row + row <= (cols * row) * (h * rows),
                    (cols * row) * (h * rows) <= usize::MAX,
                    texels == w * h * s,
                    texels * bpp <= data.bytes@.len(),
                    data.bytes@.len() == n_bytes,
                    cy == r / h,
                    y == r % h,
                    z64 == cy * cols + cx,
                    expect == tiled(data.bytes@, row as int, h as int, s as int, cols as int),
                    expect.len() == (cols * row) * (h * rows),
                    out@ == expect.take(r * out_row_bytes + cx * row + b),
                decreases row - b,
            {
                let i = r * out_row_bytes + cx * row + b;
                proof {
                    lemma_decode(r as int, cx as int, b as int, row as int, cols as int);
                    vstd::arithmetic::div_mod::lemma_fundamental_div_mod(r as int, h as int);
                }
                let v = if z64 < s as u64 {
                    let z = z64 as usize;
                    proof {
                        assert((z * h + y) * row + b < texels * bpp) by (nonlinear_arith)
                            requires
                                z < s,
                                y < h,
                                b < row,
                                row == w * bpp,
                                texels == w * h * s,
                        ;
                        assert(z * h + y < texels) by (nonlinear_arith)
                            requires
                                z < s,
                                y < h,
                                w >= 1,
                                texels == w * h * s,
                        ;
                        assert(z * h <= z * h + y);
                        assert((z * h + y) * row <= (z * h + y) * row + b);
                    }
                    data.bytes[(z * h + y) * row + b]
                } else {
                    0u8
                };
                proof {
                    assert(expect[i as int] == v);
                }
                out.push(v);
                proof {
                    assert(out@ =~= expect.take(i + 1));
                }
                b = b + 1;
            }
            proof {
                assert(r * out_row_bytes + cx * row + row == r * out_row_bytes + (cx + 1) * row) by (nonlinear_arith);
            }
            cx = cx + 1;
        }
        proof {
            assert(r * out_row_bytes + cols * row == (r + 1) * out_row_bytes) by (nonlinear_arith)
                requires
                    out_row_bytes == cols * row,
            ;
        }
        r = r + 1;
    }
    proof {
        assert(r * out_row_bytes == (cols * row) * (h * rows)) by (nonlinear_arith)
            requires
                r == h * rows,
                out_row_bytes == cols * row,
        ;
        assert(out@ =~= expect);
    }
    TextureData { width: tw, height: th, depth_slices: 1, format: data.format, bytes: out }
}

fn copy_bytes(bytes: &Vec<u8>) -> (out: Vec<u8>)
    ensures
        out@ == bytes@,
{
    let mut out: Vec<u8> = Vec::new();
    let mut i: usize = 0;
    while i < bytes.len()
        invariant
            i <= bytes@.len(),
            out@ == bytes@.take(i as int),
        decreases bytes.len() - i,
    {
        out.push(bytes[i]);
        proof {
            assert(out@ =~= bytes@.take(i + 1));
        }
        i = i + 1;
    }
    proof {
        assert(bytes@.take(bytes@.len() as int) =~= bytes@);
    }
    out
}

proof fn lemma_grid_rows(slices: int, cols: int)
    requires
        slices >= 0,
        cols >= 1,
    ensures
        slices / cols + (if slices % cols == 0 {
            0int
        } else {
            1int
        }) == (slices + cols - 1) / cols,
{
    vstd::arithmetic::div_mod::lemma_fundamental_div_mod(slices, cols);
    let q = slices / cols;
    let r = slices % cols;
    if r == 0 {
        assert(slices + cols - 1 == q * cols + (cols - 1)) by (nonlinear_arith)
            requires
                slices == cols * q + r,
                r == 0,
        ;
        vstd::arithmetic::div_mod::lemma_fundamental_div_mod_converse(slices + cols - 1, cols, q, cols - 1);
    } else {
        assert(slices + cols - 1 == (q + 1) * cols + (r - 1)) by (nonlinear_arith)
            requires
                slices == cols * q + r,
        ;
        vstd::arithmetic::div_mod::lemma_fundamental_div_mod_converse(slices + cols - 1, cols, q + 1, r - 1);
    }
}

/// Every byte of every slice shows in the grid: slice `z` sits in column
/// `z % cols` and row `z / cols`, its rows one under the other.
pub proof fn every_slice_shows_in_the_grid(
    bytes: Seq<u8>,
    row: int,
    h: int,
    slices: int,
    cols: int,
    z: int,
    y: int,
    b: int,
)
    requires
        row >= 1,
        h >= 1,
        cols >= 1,
        0 <= z < slices,
        0 <= y < h,
        0 <= b < row,
    ensures
        grid_byte(bytes, row, h, slices, cols, ((z / cols) * h + y) * (cols * row) + (z % cols) * row + b)
            == bytes[(z * h + y) * row + b],
{
    vstd::arithmetic::div_mod::lemma_fundamental_div_mod(z, cols);
    let cy = z / cols;
    let cx = z % cols;
    assert(cy >= 0) by {
        vstd::arithmetic::div_mod::lemma_div_pos_is_pos(z, cols);
    }
    assert(cy * h + y >= 0) by (nonlinear_arith)
        requires
            cy >= 0,
            h >= 1,
            y >= 0,
    ;
    lemma_decode(cy * h + y, cx, b, row, cols);
    assert(cy * h + y == h * cy + y) by (nonlinear_arith);
    vstd::arithmetic::div_mod::lemma_fundamental_div_mod_converse(cy * h + y, h, cy, y);
    assert(cy * cols + cx == z) by (nonlinear_arith)
        requires
            z == cols * cy + cx,
    ;
}

} // verus!
