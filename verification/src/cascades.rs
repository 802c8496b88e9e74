//! Where the cascades of the sun's shadow map live in their atlas: four
//! quarter tiles, two by two.

use vstd::prelude::*;

verus! {

pub const CASCADE_COUNT: usize = 4;
pub const DEFAULT_ATLAS_SIZE: u32 = 2048;

/// Side of a cascade tile: half the atlas, and at least one texel.
pub open spec fn tile_side(atlas_size: u32) -> u32 {
    if atlas_size / 2 >= 1 {
        atlas_size / 2
    } else {
        1
    }
}

/// The tile of a cascade, `x, y, side` in atlas texels. Cascades past the
/// last use the last tile.
pub open spec fn spec_cascade_tile(atlas_size: u32, cascade: usize) -> (u32, u32, u32) {
    let side = tile_side(atlas_size);
    let i = if cascade < CASCADE_COUNT {
        cascade as int
    } else {
        CASCADE_COUNT - 1
    };
    (if i % 2 == 1 { side } else { 0 }, if i >= 2 { side } else { 0 }, side)
}

pub fn cascade_tile(atlas_size: u32, cascade: usize) -> (t: (u32, u32, u32))
    ensures
        t == spec_cascade_tile(atlas_size, cascade),
{
    let half = atlas_size / 2;
    let side = if half >= 1 {
        half
    } else {
        1
    };
    let i = if cascade < CASCADE_COUNT {
        cascade
    } else {
        CASCADE_COUNT - 1
    };
    let x = if i % 2 == 1 {
        side
    } else {
        0
    };
    let y = if i >= 2 {
        side
    } else {
        0
    };
    (x, y, side)
}

/// With an atlas of at least two texels, every cascade's tile lies inside the
/// atlas, and two cascades never share a texel.
pub proof fn cascade_tiles_fit_and_do_not_overlap(atlas_size: u32, a: usize, b: usize)
    requires
        atlas_size >= 2,
        a < CASCADE_COUNT,
        b < CASCADE_COUNT,
        a != b,
    ensures
        ({
            let ta = spec_cascade_tile(atlas_size, a);
            let tb = spec_cascade_tile(atlas_size, b);
            &&& ta.0 + ta.2 <= atlas_size && ta.1 + ta.2 <= atlas_size
            &&& ta.0 + ta.2 <= tb.0 || tb.0 + tb.2 <= ta.0 || ta.1 + ta.2 <= tb.1 || tb.1 + tb.2 <= ta.1
        }),
{
    let side = tile_side(atlas_size);
    assert(2 * side <= atlas_size);
}

} // verus!
