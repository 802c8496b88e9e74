//! The integer side of the baked height field: where a global sample lives
//! (which tile, which index in it), and which blocks of a tile's min/max
//! pyramid answer a rectangle of samples. The heights themselves are floating
//! point and stay with the caller.

use vstd::prelude::*;

use crate::gltf_scene::{floor_log2, spec_floor_log2};
use vstd::arithmetic::power2::pow2;

verus! {

/// Samples along a side of a tile.
pub const TILE_N: u32 = 256;
/// Levels of the pyramid, the samples counted as level 0: the last level is
/// one (min, max) pair for the whole tile.
pub const TILE_MIPS: u32 = 9;

/// A tile index and the sample inside it, for one axis: the tile is the
/// floor of `g / TILE_N`, the index what is left.
pub open spec fn spec_tile_of(g: i64) -> int {
    g as int / TILE_N as int
}

pub open spec fn spec_index_in_tile(g: i64) -> int {
    g as int % TILE_N as int
}

/// Where the global sample `(gx, gz)` lives: its tile, and its index in
/// that tile. Tiles are numbered as `i32`, as they are stored.
pub fn split_global(gx: i64, gz: i64) -> (r: (i32, i32, u32, u32))
    requires
        i32::MIN <= spec_tile_of(gx) <= i32::MAX,
        i32::MIN <= spec_tile_of(gz) <= i32::MAX,
    ensures
        r.0 == spec_tile_of(gx),
        r.1 == spec_tile_of(gz),
        r.2 == spec_index_in_tile(gx),
        r.3 == spec_index_in_tile(gz),
{
    let (tx, ix) = split_axis(gx);
    let (tz, iz) = split_axis(gz);
    (tx, tz, ix, iz)
}

fn split_axis(g: i64) -> (r: (i32, u32))
    requires
        i32::MIN <= spec_tile_of(g) <= i32::MAX,
    ensures
        r.0 == spec_tile_of(g),
        r.1 == spec_index_in_tile(g),
{
    if g >= 0 {
        let u = g as u64;
        let q = u / 256;
        let m = u % 256;
        proof {
            vstd::arithmetic::div_mod::lemma_fundamental_div_mod(g as int, 256);
            assert(g as int == 256 * (q as int) + (m as int));
            vstd::arithmetic::div_mod::lemma_fundamental_div_mod_converse(g as int, 256, q as int, m as int);
        }
        (q as i32, m as u32)
    } else {
        let u = (0i128 - (g as i128)) as u128;
        let q = u / 256;
        let m = u % 256;
        proof {
            vstd::arithmetic::div_mod::lemma_fundamental_div_mod(u as int, 256);
        }
        if m == 0 {
            proof {
                assert(g as int == 256 * (0 - q as int) + 0);
                vstd::arithmetic::div_mod::lemma_fundamental_div_mod_converse(g as int, 256, 0 - q as int, 0);
            }
            let t = 0i128 - (q as i128);
            (t as i32, 0u32)
        } else {
            proof {
                assert(g as int == 256 * (0 - q as int - 1) + (256 - m as int));
                vstd::arithmetic::div_mod::lemma_fundamental_div_mod_converse(
                    g as int,
                    256,
                    0 - q as int - 1,
                    256 - m as int,
                );
            }
            let t = 0i128 - (q as i128) - 1;
            (t as i32, (256 - m) as u32)
        }
    }
}

/// A global sample is its tile's first sample plus its index.
pub proof fn a_sample_is_its_tile_plus_its_index(g: i64)
    ensures
        spec_tile_of(g) * TILE_N as int + spec_index_in_tile(g) == g as int,
        0 <= spec_index_in_tile(g) < TILE_N,
{
    vstd::arithmetic::div_mod::lemma_fundamental_div_mod(g as int, TILE_N as int);
}

/// Where global sample `g` falls relative to tile `t`, clamped to the tile's
/// samples `0 ..= TILE_N - 1`.
pub open spec fn spec_clip_to_tile(g: i64, t: i64) -> int {
    let d = g as int - t as int * TILE_N as int;
    if d < 0 {
        0
    } else if d > TILE_N - 1 {
        TILE_N - 1
    } else {
        d
    }
}

pub fn clip_to_tile(g: i64, t: i64) -> (i: u32)
    requires
        i64::MIN <= t as int * TILE_N as int <= i64::MAX,
        i64::MIN <= g as int - t as int * TILE_N as int <= i64::MAX,
    ensures
        i == spec_clip_to_tile(g, t),
{
    let d = g - t * 256;
    if d < 0 {
        0
    } else if d > 255 {
        255
    } else {
        d as u32
    }
}

/// A rectangle of global samples `g0 ..= g1`, clipped to a tile it meets,
/// holds exactly that tile's samples that lie in the rectangle.
pub proof fn clipping_keeps_exactly_the_tiles_part(g0: i64, g1: i64, t: i64, i: int)
    requires
        g0 <= g1,
        spec_tile_of(g0) <= t <= spec_tile_of(g1),
        0 <= i < TILE_N,
    ensures
        (spec_clip_to_tile(g0, t) <= i <= spec_clip_to_tile(g1, t)) <==> (g0 <= t * TILE_N as int + i <= g1),
{
    a_sample_is_its_tile_plus_its_index(g0);
    a_sample_is_its_tile_plus_its_index(g1);
    assert(spec_tile_of(g0) * 256 <= t * 256) by (nonlinear_arith)
        requires
            spec_tile_of(g0) <= t,
    ;
    assert(t * 256 <= spec_tile_of(g1) * 256) by (nonlinear_arith)
        requires
            t <= spec_tile_of(g1),
    ;
}

/// The blocks of one pyramid level that answer a rectangle of samples:
/// columns `x0 ..= x1`, rows `z0 ..= z1`, at `level` (level 0 being the
/// samples themselves, level `k` blocks of `2^k` samples a side).
#[derive(Clone, Copy, Debug, PartialEq, Eq, Structural)]
pub struct CellCover {
    pub level: u32,
    pub x0: u32,
    pub x1: u32,
    pub z0: u32,
    pub z1: u32,
}

pub open spec fn clamp_to_tile(v: u32) -> u32 {
    if v <= TILE_N - 1 {
        v
    } else {
        (TILE_N - 1) as u32
    }
}

/// The level a rectangle is answered at: the largest whose blocks fit in
/// its longer side.
pub open spec fn cover_level(x0: u32, z0: u32, x1: u32, z1: u32) -> nat {
    let dx = clamp_to_tile(x1) - clamp_to_tile(x0) + 1;
    let dz = clamp_to_tile(z1) - clamp_to_tile(z0) + 1;
    let span = if dx >= dz {
        dx
    } else {
        dz
    };
    let k = spec_floor_log2(span as nat);
    if k <= TILE_MIPS - 1 {
        k
    } else {
        (TILE_MIPS - 1) as nat
    }
}

pub open spec fn spec_cell_cover(x0: u32, z0: u32, x1: u32, z1: u32) -> CellCover {
    let k = cover_level(x0, z0, x1, z1);
    let p = pow2(k);
    CellCover {
        level: k as u32,
        x0: (clamp_to_tile(x0) as nat / p) as u32,
        x1: (clamp_to_tile(x1) as nat / p) as u32,
        z0: (clamp_to_tile(z0) as nat / p) as u32,
        z1: (clamp_to_tile(z1) as nat / p) as u32,
    }
}

/// The rectangle is clamped to the tile; it must not be inside out once
/// clamped.
pub open spec fn rect_ok(x0: u32, z0: u32, x1: u32, z1: u32) -> bool {
    clamp_to_tile(x0) <= clamp_to_tile(x1) && clamp_to_tile(z0) <= clamp_to_tile(z1)
}

proof fn lemma_floor_log2_bounds(n: nat)
    requires
        n >= 1,
    ensures
        pow2(spec_floor_log2(n)) <= n < pow2(spec_floor_log2(n) + 1),
    decreases n,
{
    vstd::arithmetic::power2::lemma2_to64();
    if n >= 2 {
        lemma_floor_log2_bounds(n / 2);
        let k = spec_floor_log2(n / 2);
        vstd::arithmetic::power2::lemma_pow2_unfold(k + 1);
        vstd::arithmetic::power2::lemma_pow2_unfold(k + 2);
    }
}

proof fn lemma_floor_log2_at_most_8(n: nat)
    requires
        1 <= n <= 256,
    ensures
        spec_floor_log2(n) <= 8,
{
    lemma_floor_log2_bounds(n);
    let k = spec_floor_log2(n);
    if k > 8 {
        vstd::arithmetic::power2::lemma_pow2_strictly_increases(8, k);
        vstd::arithmetic::power2::lemma2_to64();
    }
}

/// The pyramid blocks that answer the rectangle `(x0, z0) ..= (x1, z1)`,
/// clamped to the tile.
pub fn cell_cover(x0: u32, z0: u32, x1: u32, z1: u32) -> (c: CellCover)
    requires
        rect_ok(x0, z0, x1, z1),
    ensures
        c == spec_cell_cover(x0, z0, x1, z1),
        c.level < TILE_MIPS,
{
    let cx0 = if x0 <= TILE_N - 1 {
        x0
    } else {
        TILE_N - 1
    };
    let cx1 = if x1 <= TILE_N - 1 {
        x1
    } else {
        TILE_N - 1
    };
    let cz0 = if z0 <= TILE_N - 1 {
        z0
    } else {
        TILE_N - 1
    };
    let cz1 = if z1 <= TILE_N - 1 {
        z1
    } else {
        TILE_N - 1
    };
    let dx = cx1 - cx0 + 1;
    let dz = cz1 - cz0 + 1;
    let span = if dx >= dz {
        dx
    } else {
        dz
    };
    let l = floor_log2(span);
    let k = if l <= TILE_MIPS - 1 {
        l
    } else {
        TILE_MIPS - 1
    };
    proof {
        vstd::bits::lemma_u32_shr_is_div(cx0, k);
        vstd::bits::lemma_u32_shr_is_div(cx1, k);
        vstd::bits::lemma_u32_shr_is_div(cz0, k);
        vstd::bits::lemma_u32_shr_is_div(cz1, k);
    }
    CellCover { level: k, x0: cx0 >> k, x1: cx1 >> k, z0: cz0 >> k, z1: cz1 >> k }
}

proof fn lemma_blocks_between(a: int, b: int, p: int)
    requires
        0 <= a <= b,
        p > 0,
        b - a <= 2 * p - 2,
    ensures
        a / p <= b / p <= a / p + 2,
{
    vstd::arithmetic::div_mod::lemma_div_is_ordered(a, b, p);
    vstd::arithmetic::div_mod::lemma_fundamental_div_mod(a, p);
    vstd::arithmetic::div_mod::lemma_fundamental_div_mod(b, p);
    let qa = a / p;
    let qb = b / p;
    let ra = a % p;
    let rb = b % p;
    assert(qb <= qa + 2) by (nonlinear_arith)
        requires
            a == p * qa + ra,
            b == p * qb + rb,
            0 <= ra < p,
            0 <= rb < p,
            b - a <= 2 * p - 2,
            p > 0,
    ;
}

/// The blocks found for a rectangle hold every sample of it (clamped to the
/// tile), lie inside the tile, and are at most three along each side.
pub proof fn the_cover_holds_every_sample(x0: u32, z0: u32, x1: u32, z1: u32, x: u32, z: u32)
    requires
        rect_ok(x0, z0, x1, z1),
        clamp_to_tile(x0) <= x <= clamp_to_tile(x1),
        clamp_to_tile(z0) <= z <= clamp_to_tile(z1),
    ensures
        ({
            let c = spec_cell_cover(x0, z0, x1, z1);
            let p = pow2(c.level as nat);
            &&& c.level < TILE_MIPS
            &&& c.x0 <= x as nat / p <= c.x1
            &&& c.z0 <= z as nat / p <= c.z1
            &&& c.x1 * p < TILE_N && c.z1 * p < TILE_N
            &&& c.x1 <= c.x0 + 2 && c.z1 <= c.z0 + 2
        }),
{
    let cx0 = clamp_to_tile(x0) as int;
    let cx1 = clamp_to_tile(x1) as int;
    let cz0 = clamp_to_tile(z0) as int;
    let cz1 = clamp_to_tile(z1) as int;
    let dx = cx1 - cx0 + 1;
    let dz = cz1 - cz0 + 1;
    let span: int = if dx >= dz {
        dx
    } else {
        dz
    };
    let k = spec_floor_log2(span as nat);
    lemma_floor_log2_at_most_8(span as nat);
    lemma_floor_log2_bounds(span as nat);
    assert(cover_level(x0, z0, x1, z1) == k);
    let p = pow2(k) as int;
    vstd::arithmetic::power2::lemma_pow2_unfold(k + 1);
    vstd::arithmetic::power2::lemma_pow2_pos(k);
    assert(pow2(k + 1) == 2 * pow2(k));
    assert(dx <= 2 * p - 1 && dz <= 2 * p - 1);
    lemma_blocks_between(cx0, cx1, p);
    lemma_blocks_between(cz0, cz1, p);
    vstd::arithmetic::div_mod::lemma_div_is_ordered(cx0, x as int, p);
    vstd::arithmetic::div_mod::lemma_div_is_ordered(x as int, cx1, p);
    vstd::arithmetic::div_mod::lemma_div_is_ordered(cz0, z as int, p);
    vstd::arithmetic::div_mod::lemma_div_is_ordered(z as int, cz1, p);
    vstd::arithmetic::div_mod::lemma_fundamental_div_mod(cx1, p);
    vstd::arithmetic::div_mod::lemma_fundamental_div_mod(cz1, p);
    assert((cx1 / p) * p <= cx1) by (nonlinear_arith)
        requires
            cx1 == p * (cx1 / p) + cx1 % p,
            0 <= cx1 % p,
    ;
    assert((cz1 / p) * p <= cz1) by (nonlinear_arith)
        requires
            cz1 == p * (cz1 / p) + cz1 % p,
            0 <= cz1 % p,
    ;
}

} // verus!
