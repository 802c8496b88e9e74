//! The clipmap terrain grid: levels, patches, vertex counts, and the integer
//! hash its height noise is built on.
//!
//! Each level is an N x N grid of cells; level 0 is full, the outer levels are
//! rings whose centre is covered by the level inside. Levels are cut into
//! patches for culling.

use vstd::prelude::*;

verus! {

/// Cells per side, per level.
pub const CLIPMAP_N: u32 = 64;
/// Levels of detail; each doubles the cell.
pub const CLIPMAP_LEVELS: u32 = 7;
/// Octaves of the height noise.
pub const TERRAIN_OCTAVES: u32 = 5;
/// Cells per side of a patch, the unit of culling.
pub const CLIPMAP_PATCH: u32 = 8;

/// Vertices per level: six per cell of an N x N grid.
pub fn clipmap_vertex_count() -> (n: u32)
    ensures
        n == CLIPMAP_N * CLIPMAP_N * 6,
{
    CLIPMAP_N * CLIPMAP_N * 6
}

/// Patches per side of a level.
pub fn clipmap_patch_grid() -> (n: u32)
    ensures
        n == CLIPMAP_N / CLIPMAP_PATCH,
        n * CLIPMAP_PATCH == CLIPMAP_N,
{
    CLIPMAP_N / CLIPMAP_PATCH
}

/// Patches in a level.
pub fn clipmap_patches_per_level() -> (n: u32)
    ensures
        n == (CLIPMAP_N / CLIPMAP_PATCH) * (CLIPMAP_N / CLIPMAP_PATCH),
{
    let g = clipmap_patch_grid();
    g * g
}

/// Patches of the whole clipmap: what the culling pass walks.
pub fn clipmap_patch_count() -> (n: u32)
    ensures
        n == (CLIPMAP_N / CLIPMAP_PATCH) * (CLIPMAP_N / CLIPMAP_PATCH) * CLIPMAP_LEVELS,
{
    clipmap_patches_per_level() * CLIPMAP_LEVELS
}

/// Vertices of a patch: six per cell.
pub fn clipmap_patch_vertex_count() -> (n: u32)
    ensures
        n == CLIPMAP_PATCH * CLIPMAP_PATCH * 6,
{
    CLIPMAP_PATCH * CLIPMAP_PATCH * 6
}

/// The patches of a level give the vertices of the level, and the patches of
/// all levels are the levels' patches.
pub proof fn patches_tile_their_level()
    ensures
        (CLIPMAP_N / CLIPMAP_PATCH) * CLIPMAP_PATCH == CLIPMAP_N,
        (CLIPMAP_PATCH * CLIPMAP_PATCH * 6) * ((CLIPMAP_N / CLIPMAP_PATCH) * (CLIPMAP_N / CLIPMAP_PATCH))
            == CLIPMAP_N * CLIPMAP_N * 6,
{
    assert(CLIPMAP_N / CLIPMAP_PATCH == 8);
}

/// Cell `(cx, cy)` of a level lies in the ring's hole: closer to the centre
/// than a quarter of the grid on both axes.
pub open spec fn cell_in_hole(cx: int, cy: int) -> bool {
    let h = CLIPMAP_N / 2;
    let q = CLIPMAP_N / 4;
    -q < cx - h < q && -q < cy - h < q
}

/// Cell `(i, j)` of the patch whose first cell is `(c0x, c0y)` lies in the hole.
pub open spec fn patch_cell_in_hole(c0x: int, c0y: int, i: int, j: int) -> bool {
    cell_in_hole(c0x + i, c0y + j)
}

/// Patch number `patch` of the clipmap falls wholly inside the hole of its
/// ring, so nothing of it is drawn. Level 0 has no hole.
pub open spec fn spec_patch_in_hole(patch: u32) -> bool {
    let per_level = (CLIPMAP_N / CLIPMAP_PATCH) * (CLIPMAP_N / CLIPMAP_PATCH);
    let grid = (CLIPMAP_N / CLIPMAP_PATCH) as int;
    let level = patch as int / per_level;
    let p = patch as int % per_level;
    let c0x = (p % grid) * CLIPMAP_PATCH;
    let c0y = (p / grid) * CLIPMAP_PATCH;
    level > 0 && forall|i: int, j: int|
        0 <= i < CLIPMAP_PATCH && 0 <= j < CLIPMAP_PATCH ==> #[trigger] patch_cell_in_hole(c0x, c0y, i, j)
}

fn abs_diff(a: u32, b: u32) -> (d: u32)
    ensures
        d == if a >= b { a - b } else { b - a },
{
    if a >= b {
        a - b
    } else {
        b - a
    }
}

/// Whether a patch lies wholly in the hole of its ring. Exactly the three by
/// three central patches of each level but the first are.
pub fn patch_in_hole(patch: u32) -> (r: bool)
    ensures
        r == spec_patch_in_hole(patch),
{
    let per_level = clipmap_patches_per_level();
    let grid = clipmap_patch_grid();
    let level = patch / per_level;
    let p = patch % per_level;
    let c0x = (p % grid) * CLIPMAP_PATCH;
    let c0y = (p / grid) * CLIPMAP_PATCH;
    if level == 0 {
        return false;
    }
    let half = CLIPMAP_N / 2;
    let quarter = CLIPMAP_N / 4;
    let mut all_in = true;
    let mut j: u32 = 0;
    while j < CLIPMAP_PATCH
        invariant
            j <= CLIPMAP_PATCH,
            c0x <= 56,
            c0y <= 56,
            half == 32,
            quarter == 16,
            all_in == forall|i: int, jj: int|
                0 <= jj < j && 0 <= i < CLIPMAP_PATCH ==> #[trigger] patch_cell_in_hole(c0x as int, c0y as int, i, jj),
        decreases CLIPMAP_PATCH - j,
    {
        let mut i: u32 = 0;
        let ghost before = all_in;
        while i < CLIPMAP_PATCH
            invariant
                j < CLIPMAP_PATCH,
                i <= CLIPMAP_PATCH,
                c0x <= 56,
                c0y <= 56,
                half == 32,
                quarter == 16,
                before == forall|ii: int, jj: int|
                    0 <= jj < j && 0 <= ii < CLIPMAP_PATCH ==> #[trigger] patch_cell_in_hole(c0x as int, c0y as int, ii, jj),
                all_in == (before && forall|ii: int| 0 <= ii < i ==> #[trigger] patch_cell_in_hole(c0x as int, c0y as int, ii, j as int)),
            decreases CLIPMAP_PATCH - i,
        {
            let dx = abs_diff(c0x + i, half);
            let dy = abs_diff(c0y + j, half);
            let inside = dx < quarter && dy < quarter;
            assert(inside == patch_cell_in_hole(c0x as int, c0y as int, i as int, j as int));
            all_in = all_in && inside;
            i = i + 1;
        }
        j = j + 1;
    }
    proof {
        only_the_central_patches_are_dropped(patch);
    }
    all_in
}

/// Level 0 has no hole; every other level drops exactly its three by three
/// central patches, and keeps every patch that has a cell outside the hole.
pub proof fn only_the_central_patches_are_dropped(patch: u32)
    ensures
        spec_patch_in_hole(patch) == (patch / 64 > 0 && 3 <= (patch % 64) % 8 <= 5 && 3 <= (patch % 64) / 8
            <= 5),
{
    let p = (patch as int) % 64;
    let c0x = (p % 8) * 8;
    let c0y = (p / 8) * 8;
    let px = (patch % 64) % 8;
    let py = (patch % 64) / 8;
    if spec_patch_in_hole(patch) {
        assert(patch_cell_in_hole(c0x, c0y, 0, 0));
        assert(patch_cell_in_hole(c0x, c0y, 7, 7));
    } else if patch / 64 > 0 && 3 <= px <= 5 && 3 <= py <= 5 {
        assert forall|i: int, j: int|
            0 <= i < CLIPMAP_PATCH && 0 <= j < CLIPMAP_PATCH implies #[trigger] patch_cell_in_hole(
            c0x,
            c0y,
            i,
            j,
        ) by {}
    }
}

/// The integer core of the terrain noise hash, from the two cell indices
/// reinterpreted as unsigned. Integer arithmetic is exact on CPU and GPU
/// alike, so both sides draw the same ground.
pub open spec fn spec_hash2_bits(ix: u32, iy: u32) -> u32 {
    let h0 = ix.wrapping_mul(374_761_393).wrapping_add(iy.wrapping_mul(668_265_263));
    let h1 = (h0 ^ (h0 >> 13u32)).wrapping_mul(1_274_126_177);
    h1 ^ (h1 >> 16u32)
}

pub fn hash2_bits(ix: u32, iy: u32) -> (h: u32)
    ensures
        h == spec_hash2_bits(ix, iy),
{
    let mut h = ix.wrapping_mul(374_761_393).wrapping_add(iy.wrapping_mul(668_265_263));
    h = (h ^ (h >> 13)).wrapping_mul(1_274_126_177);
    h = h ^ (h >> 16);
    h
}

} // verus!
