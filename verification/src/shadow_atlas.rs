//! Dynamic shadows under a per-frame budget: one atlas, one queue, one cache.
//!
//! The atlas is carved once into square tiles of the classes in [`TILE_SIZES`].
//! Each frame [`ShadowAtlas::plan`] decides which lights hold a tile and which
//! tiles are redrawn, spending at most the budget (counted in texels). A tile
//! remembers the version it holds, so a still scene converges to no work.
//!
//! Priorities are carried as order keys: an `i32` whose order is the order of
//! the priority it stands for (see [`NEG_INFINITY_KEY`]).

use vstd::multiset::Multiset;
use vstd::prelude::*;

use crate::rank::{ranked, sort_ranked, RankKey};

verus! {

/// Resolution classes, in decreasing order.
pub const TILE_SIZES: [u32; 4] = [512, 256, 128, 64];

/// Order key of a priority of minus infinity: the priority of a resident light
/// that no longer asks for a shadow.
pub const NEG_INFINITY_KEY: i32 = -2139095041;

/// Order key of a priority of zero.
pub const ZERO_KEY: i32 = 0;

/// Order keys of the thresholds of [`wanted_size`]: 0.35, 0.12 and 0.04.
pub const WANTED_KEY_0: i32 = 1051931443;
pub const WANTED_KEY_1: i32 = 1039516303;
pub const WANTED_KEY_2: i32 = 1025758986;

/// Marks a slot whose light was evicted during a plan.
pub const NO_LIGHT: u32 = 0xffff_ffff;

pub open spec fn tile_of(class: int) -> u32 {
    if class == 0 {
        512
    } else if class == 1 {
        256
    } else if class == 2 {
        128
    } else {
        64
    }
}

/// A light that wants a shadow, with what is needed to rank it.
#[derive(Clone, Copy, Debug)]
pub struct ShadowRequest {
    /// Index in the light list.
    pub light: u32,
    /// Order key of the priority: larger means more important.
    pub priority: i32,
    /// Wanted resolution, rounded down to a class of [`TILE_SIZES`].
    pub wanted: u32,
    /// Changes when the light or something it shadows moves.
    pub version: u64,
}

/// A piece of the atlas given to a light.
#[derive(Clone, Copy, Debug, PartialEq)]
pub struct ShadowSlot {
    pub light: u32,
    /// `x, y, side` in atlas texels.
    pub rect: [u32; 3],
    /// The version that is drawn in the tile; `None` when nothing is.
    pub drawn: Option<u64>,
}

/// What to do this frame.
#[derive(Clone, Debug)]
pub struct AtlasPlan {
    /// Indices into [`ShadowAtlas::slots`] to redraw, by priority.
    pub render: Vec<usize>,
    /// Texels that work costs.
    pub texels: u64,
    /// Requests that got no slot.
    pub unplaced: u32,
    /// Dirty slots that did not fit in this frame's budget.
    pub deferred: u32,
    /// Slots taken from a light and given to a more important one.
    pub evicted: u32,
}

/// The tile side of each size class, as the table holds it.
pub proof fn lemma_tile_sizes()
    ensures
        forall|c: int| 0 <= c < 4 ==> #[trigger] TILE_SIZES[c] == tile_of(c),
{
    assert(TILE_SIZES[0] == 512);
    assert(TILE_SIZES[1] == 256);
    assert(TILE_SIZES[2] == 128);
    assert(TILE_SIZES[3] == 64);
}

/// The size class that `size_class` picks for a wanted resolution.
pub open spec fn spec_size_class(wanted: u32) -> int {
    if wanted >= 512 {
        0
    } else if wanted >= 256 {
        1
    } else if wanted >= 128 {
        2
    } else {
        3
    }
}

/// The class whose tile is the largest that does not exceed `wanted`; the
/// smallest class below that.
pub fn size_class(wanted: u32) -> (c: usize)
    ensures
        c == spec_size_class(wanted),
        c < 4,
{
    proof { lemma_tile_sizes(); }
    let mut i: usize = 0;
    while i < 4
        invariant
            i <= 4,
            forall|j: int| 0 <= j < i ==> tile_of(j) > wanted,
        decreases 4 - i,
    {
        proof { lemma_tile_sizes(); }
        if TILE_SIZES[i] <= wanted {
            return i;
        }
        i = i + 1;
    }
    3
}

/// Resolution a light deserves, from the order key of its priority.
pub fn wanted_size(priority: i32) -> (s: u32)
    ensures
        s == (if priority >= WANTED_KEY_0 {
            512u32
        } else if priority >= WANTED_KEY_1 {
            256u32
        } else if priority >= WANTED_KEY_2 {
            128u32
        } else {
            64u32
        }),
{
    if priority >= WANTED_KEY_0 {
        TILE_SIZES[0]
    } else if priority >= WANTED_KEY_1 {
        TILE_SIZES[1]
    } else if priority >= WANTED_KEY_2 {
        TILE_SIZES[2]
    } else {
        TILE_SIZES[3]
    }
}

/// Rows of tiles the band of `class` holds when it starts at height `y`.
///
/// The first class takes half of the height, the next half of what is left,
/// and so on; the last class takes the rest.
pub open spec fn band_rows(size: u32, y: int, class: int) -> int {
    let rem = size - y;
    let tile = tile_of(class) as int;
    let band = if class == 3 {
        rem
    } else if rem / 2 >= (if tile <= rem { tile } else { rem }) {
        rem / 2
    } else if tile <= rem {
        tile
    } else {
        rem
    };
    band / tile
}

/// Height at which the band of `class` starts.
pub open spec fn band_y(size: u32, class: nat) -> int
    decreases class,
{
    if class == 0 {
        0
    } else {
        let y = band_y(size, (class - 1) as nat);
        y + band_rows(size, y, class - 1) * tile_of(class - 1) as int
    }
}

/// Tiles per row in the band of `class`.
pub open spec fn band_cols(size: u32, class: int) -> int {
    size as int / tile_of(class) as int
}

/// The tiles `new` carves for one class, row after row.
pub open spec fn carved(size: u32, class: int) -> Seq<[u32; 3]> {
    let y = band_y(size, class as nat);
    let rows = band_rows(size, y, class);
    let cols = band_cols(size, class);
    let tile = tile_of(class) as int;
    Seq::new(
        (rows * cols) as nat,
        |k: int| [((k % cols) * tile) as u32, (y + (k / cols) * tile) as u32, tile as u32],
    )
}

/// The model of an atlas.
pub struct AtlasModel {
    pub size: u32,
    pub budget: u64,
    pub slots: Seq<ShadowSlot>,
    pub free: Seq<Seq<[u32; 3]>>,
    pub stale: Seq<u32>,
    pub worst_stale: u32,
}

/// Free tiles per class, and what is allocated.
#[derive(Clone, Debug)]
pub struct ShadowAtlas {
    size: u32,
    /// Per-frame budget, in texels.
    budget: u64,
    slots: Vec<ShadowSlot>,
    /// Free rectangles, per class.
    free: Vec<Vec<[u32; 3]>>,
    /// For how many frames each slot has been dirty.
    stale: Vec<u32>,
    /// Worst wait observed, in frames.
    worst_stale: u32,
}

impl View for ShadowAtlas {
    type V = AtlasModel;

    closed spec fn view(&self) -> AtlasModel {
        AtlasModel {
            size: self.size,
            budget: self.budget,
            slots: self.slots@,
            free: self.free@.map_values(|f: Vec<[u32; 3]>| f@),
            stale: self.stale@,
            worst_stale: self.worst_stale,
        }
    }
}

impl AtlasModel {
    /// What every atlas keeps: four free lists, one stale counter per slot.
    pub open spec fn wf(&self) -> bool {
        &&& self.free.len() == 4
        &&& self.stale.len() == self.slots.len()
    }
}

proof fn lemma_band_step(size: u32, y: int, class: int)
    requires
        0 <= y <= size,
        0 <= class < 4,
    ensures
        0 <= band_rows(size, y, class),
        y + band_rows(size, y, class) * tile_of(class) as int <= size,
        y == size ==> band_rows(size, y, class) == 0,
{
    let rem = size - y;
    let tile = tile_of(class) as int;
    let rows = band_rows(size, y, class);
    let band = rows * tile + (if class == 3 {
        rem
    } else if rem / 2 >= (if tile <= rem { tile } else { rem }) {
        rem / 2
    } else if tile <= rem {
        tile
    } else {
        rem
    }) % tile;
    assert(rows * tile <= band) by (nonlinear_arith)
        requires
            band == rows * tile + band - rows * tile,
            band - rows * tile >= 0,
    {
    }
    assert(0 <= rows * tile <= rem) by (nonlinear_arith)
        requires
            rows == (if class == 3 {
                rem
            } else if rem / 2 >= (if tile <= rem { tile } else { rem }) {
                rem / 2
            } else if tile <= rem {
                tile
            } else {
                rem
            }) / tile,
            tile > 0,
            rem >= 0,
    {
    }
}

proof fn lemma_band_y_bounded(size: u32, class: nat)
    requires
        class <= 4,
    ensures
        0 <= band_y(size, class) <= size,
    decreases class,
{
    if class > 0 {
        lemma_band_y_bounded(size, (class - 1) as nat);
        lemma_band_step(size, band_y(size, (class - 1) as nat), class - 1);
    }
}

proof fn lemma_band_y_monotone(size: u32, c1: nat, c2: nat)
    requires
        c1 <= c2 <= 4,
    ensures
        band_y(size, c1) <= band_y(size, c2),
    decreases c2 - c1,
{
    if c1 < c2 {
        lemma_band_y_monotone(size, c1, (c2 - 1) as nat);
        lemma_band_y_bounded(size, (c2 - 1) as nat);
        lemma_band_step(size, band_y(size, (c2 - 1) as nat), c2 - 1);
    }
}

/// A square `x, y, side` lies inside an atlas of side `size`.
pub open spec fn rect_inside(r: [u32; 3], size: u32) -> bool {
    r[0] + r[2] <= size && r[1] + r[2] <= size
}

/// Two squares `x, y, side` share no texel.
pub open spec fn rects_disjoint(a: [u32; 3], b: [u32; 3]) -> bool {
    ||| a[0] + a[2] <= b[0]
    ||| b[0] + b[2] <= a[0]
    ||| a[1] + a[2] <= b[1]
    ||| b[1] + b[2] <= a[1]
}

proof fn lemma_carved_tile(size: u32, c: int, k: int)
    requires
        0 <= c < 4,
        0 <= k < carved(size, c).len(),
    ensures
        ({
            let y = band_y(size, c as nat);
            let cols = band_cols(size, c);
            let rows = band_rows(size, y, c);
            let tile = tile_of(c) as int;
            let t = carved(size, c)[k];
            &&& cols > 0
            &&& 0 <= k / cols < rows
            &&& 0 <= k % cols < cols
            &&& t[0] == (k % cols) * tile
            &&& t[1] == y + (k / cols) * tile
            &&& t[2] == tile
            &&& t[0] + t[2] <= size
            &&& t[1] + t[2] <= band_y(size, (c + 1) as nat)
            &&& y <= t[1]
        }),
{
    let y = band_y(size, c as nat);
    let cols = band_cols(size, c);
    let rows = band_rows(size, y, c);
    let tile = tile_of(c) as int;
    lemma_band_y_bounded(size, c as nat);
    lemma_band_step(size, y, c);
    assert(rows * cols > 0);
    assert(cols > 0 && rows > 0) by (nonlinear_arith)
        requires rows * cols > 0, rows >= 0, cols >= 0;
    let r = k / cols;
    let q = k % cols;
    assert(0 <= r < rows && 0 <= q < cols) by (nonlinear_arith)
        requires 0 <= k < rows * cols, cols > 0, r == k / cols, q == k % cols;
    assert(cols * tile <= size) by (nonlinear_arith)
        requires cols == size as int / tile, tile > 0;
    assert(q * tile + tile <= cols * tile) by (nonlinear_arith)
        requires q < cols, tile >= 0;
    assert(r * tile + tile <= rows * tile) by (nonlinear_arith)
        requires r < rows, tile >= 0;
    assert(q * tile >= 0 && r * tile >= 0) by (nonlinear_arith)
        requires q >= 0, r >= 0, tile >= 0;
}

/// The tiles that [`ShadowAtlas::new`] carves lie inside the atlas, and no two
/// of them share a texel.
pub proof fn carved_tiles_fit_and_do_not_overlap(size: u32, c1: int, k1: int, c2: int, k2: int)
    requires
        0 <= c1 < 4,
        0 <= c2 < 4,
        0 <= k1 < carved(size, c1).len(),
        0 <= k2 < carved(size, c2).len(),
    ensures
        rect_inside(carved(size, c1)[k1], size),
        c1 != c2 || k1 != k2 ==> rects_disjoint(carved(size, c1)[k1], carved(size, c2)[k2]),
{
    lemma_carved_tile(size, c1, k1);
    lemma_carved_tile(size, c2, k2);
    lemma_band_y_bounded(size, (c1 + 1) as nat);
    let a = carved(size, c1)[k1];
    let b = carved(size, c2)[k2];
    if c1 < c2 {
        lemma_band_y_monotone(size, (c1 + 1) as nat, c2 as nat);
    } else if c2 < c1 {
        lemma_band_y_monotone(size, (c2 + 1) as nat, c1 as nat);
    } else if k1 != k2 {
        let cols = band_cols(size, c1);
        let tile = tile_of(c1) as int;
        let (r1, q1, r2, q2) = (k1 / cols, k1 % cols, k2 / cols, k2 % cols);
        assert(k1 == r1 * cols + q1 && k2 == r2 * cols + q2) by (nonlinear_arith)
            requires cols > 0, r1 == k1 / cols, q1 == k1 % cols, r2 == k2 / cols, q2 == k2 % cols;
        if r1 < r2 {
            assert(r1 * tile + tile <= r2 * tile) by (nonlinear_arith)
                requires r1 < r2, tile >= 0;
        } else if r2 < r1 {
            assert(r2 * tile + tile <= r1 * tile) by (nonlinear_arith)
                requires r2 < r1, tile >= 0;
        } else if q1 < q2 {
            assert(q1 * tile + tile <= q2 * tile) by (nonlinear_arith)
                requires q1 < q2, tile >= 0;
        } else {
            assert(q2 * tile + tile <= q1 * tile) by (nonlinear_arith)
                requires q2 < q1, tile >= 0;
        }
    }
}

impl ShadowAtlas {
    /// Carves the atlas into squares of the classes of [`TILE_SIZES`], in
    /// horizontal bands: half the height for the largest class, half of what
    /// is left for the next, and the rest for the smallest.
    pub fn new(size: u32, budget_texels: u64) -> (a: Self)
        ensures
            a@.wf(),
            a@.size == size,
            a@.budget == budget_texels,
            a@.slots.len() == 0,
            a@.worst_stale == 0,
            forall|c: int| 0 <= c < 4 ==> #[trigger] a@.free[c] == carved(size, c),
            tiles_ok(a@),
            held_rects(a@) == carved_bag(size),
    {
        let mut free: Vec<Vec<[u32; 3]>> = Vec::new();
        let mut y: u32 = 0;
        let mut class: usize = 0;
        proof { lemma_tile_sizes(); }
        while class < 4
            invariant
                class <= 4,
                free.len() == class,
                y == band_y(size, class as nat),
                y <= size,
                forall|c: int| 0 <= c < class ==> #[trigger] free@[c]@ == carved(size, c),
            decreases 4 - class,
        {
            proof {
                lemma_tile_sizes();
                lemma_band_step(size, y as int, class as int);
            }
            let tile = TILE_SIZES[class];
            let remaining = size - y;
            let band = if class == 3 {
                remaining
            } else {
                let half = remaining / 2;
                let least = if tile <= remaining { tile } else { remaining };
                if half >= least { half } else { least }
            };
            let rows = band / tile;
            let cols = size / tile;
            assert(rows == band_rows(size, y as int, class as int));
            assert(cols * tile <= size) by (nonlinear_arith)
                requires cols == size / tile, tile > 0;
            let mut band_tiles: Vec<[u32; 3]> = Vec::new();
            let ghost want = carved(size, class as int);
            let mut r: u32 = 0;
            while r < rows
                invariant
                    r <= rows,
                    rows == band_rows(size, y as int, class as int),
                    cols == band_cols(size, class as int),
                    tile == tile_of(class as int),
                    y == band_y(size, class as nat),
                    y + rows * tile <= size,
                    cols * tile <= size,
                    class < 4,
                    want == carved(size, class as int),
                    band_tiles.len() == r * cols,
                    forall|k: int| 0 <= k < r * cols ==> #[trigger] band_tiles@[k] == want[k],
                decreases rows - r,
            {
                let mut q: u32 = 0;
                while q < cols
                    invariant
                        r < rows,
                        q <= cols,
                        rows == band_rows(size, y as int, class as int),
                        cols == band_cols(size, class as int),
                        tile == tile_of(class as int),
                        y == band_y(size, class as nat),
                        y + rows * tile <= size,
                        cols * tile <= size,
                        class < 4,
                        want == carved(size, class as int),
                        band_tiles.len() == r * cols + q,
                        forall|k: int| 0 <= k < r * cols + q ==> #[trigger] band_tiles@[k] == want[k],
                    decreases cols - q,
                {
                    proof {
                        assert(q * tile <= cols * tile) by (nonlinear_arith)
                            requires q <= cols, tile >= 0;
                        assert(r * tile + tile <= rows * tile) by (nonlinear_arith)
                            requires r < rows, tile >= 0;
                        assert((r * cols + q) / (cols as int) == r && (r * cols + q) % (cols as int) == q)
                            by (nonlinear_arith)
                            requires q < cols, r >= 0;
                        assert(r * cols + q < rows * cols) by (nonlinear_arith)
                            requires q < cols, r < rows;
                    }
                    band_tiles.push([q * tile, y + r * tile, tile]);
                    proof {
                        assert((r * cols + q + 1) == r * cols + (q + 1));
                    }
                    q = q + 1;
                }
                proof {
                    assert(r * cols + cols == (r + 1) * cols) by (nonlinear_arith);
                }
                r = r + 1;
            }
            proof {
                assert(band_tiles@ =~= want);
            }
            free.push(band_tiles);
            y = y + rows * tile;
            class = class + 1;
        }
        let a = ShadowAtlas {
            size,
            budget: budget_texels,
            slots: Vec::new(),
            free,
            stale: Vec::new(),
            worst_stale: 0,
        };
        proof {
            assert forall|c: int| 0 <= c < 4 implies #[trigger] a@.free[c] == carved(size, c) by {
                assert(a@.free[c] == free@[c]@);
            }
            assert forall|c: int, j: int| 0 <= c < 4 && 0 <= j < a@.free[c].len() implies (
            #[trigger] a@.free[c][j])[2] == tile_of(c) by {
                assert(a@.free[c] == carved(size, c));
            }
            let lists = Seq::new(4, |c: int| carved(size, c));
            assert(a@.free[0] == lists[0] && a@.free[1] == lists[1] && a@.free[2] == lists[2] && a@.free[3] == lists[3]);
            assert(held_rects(a@) =~= carved_bag(size));
        }
        a
    }
}

// ---------------------------------------------------------------------------
// The model of one plan, phase by phase.
// ---------------------------------------------------------------------------

/// Order key of the priority of the first request at or after `i` that is for
/// `light`, or `default` when there is none.
pub open spec fn request_prio_from(reqs: Seq<ShadowRequest>, light: u32, default: i32, i: int) -> i32
    decreases reqs.len() - i,
{
    if i < 0 || i >= reqs.len() {
        default
    } else if reqs[i].light == light {
        reqs[i].priority
    } else {
        request_prio_from(reqs, light, default, i + 1)
    }
}

/// Order key of the priority of the first request for `light`, or `default`.
pub open spec fn request_prio(reqs: Seq<ShadowRequest>, light: u32, default: i32) -> i32 {
    request_prio_from(reqs, light, default, 0)
}

/// The first slot at or after `i` held by `light` with a tile of side `side`.
pub open spec fn first_slot_from(slots: Seq<ShadowSlot>, light: u32, side: u32, i: int) -> Option<usize>
    decreases slots.len() - i,
{
    if i < 0 || i >= slots.len() {
        None
    } else if slots[i].light == light && slots[i].rect[2] == side {
        Some(i as usize)
    } else {
        first_slot_from(slots, light, side, i + 1)
    }
}

/// A resident slot that a request of priority `taker` may take: same class,
/// not already confirmed this frame by a light at least as important, and
/// held by a light less important than the taker.
pub open spec fn victim_eligible(
    slots: Seq<ShadowSlot>,
    keep: Seq<Option<(usize, u64)>>,
    reqs: Seq<ShadowRequest>,
    side: u32,
    taker: i32,
    s: int,
) -> bool {
    let slot = slots[s];
    &&& slot.rect[2] == side
    &&& slot.light != NO_LIGHT
    &&& !(keep[s] matches Some(k) && reqs[k.0 as int].priority >= taker)
    &&& request_prio(reqs, slot.light, NEG_INFINITY_KEY) < taker
}

/// The eligible slot of least priority among the first `n` slots (the first
/// such slot on ties), with that priority.
pub open spec fn victim_scan(
    slots: Seq<ShadowSlot>,
    keep: Seq<Option<(usize, u64)>>,
    reqs: Seq<ShadowRequest>,
    side: u32,
    taker: i32,
    n: nat,
) -> Option<(usize, i32)>
    decreases n,
{
    if n == 0 {
        None
    } else {
        let best = victim_scan(slots, keep, reqs, side, taker, (n - 1) as nat);
        let s = n - 1;
        if victim_eligible(slots, keep, reqs, side, taker, s) {
            let prio = request_prio(reqs, slots[s].light, NEG_INFINITY_KEY);
            if best matches Some(b) && b.1 <= prio {
                best
            } else {
                Some((s as usize, prio))
            }
        } else {
            best
        }
    }
}

/// State of the claim phase: who keeps a slot, who needs a new one.
pub struct ClaimModel {
    pub slots: Seq<ShadowSlot>,
    pub free: Seq<Seq<[u32; 3]>>,
    pub keep: Seq<Option<(usize, u64)>>,
    pub new_slots: Seq<(u32, usize, u64)>,
    pub evicted: nat,
    pub unplaced: nat,
}

/// One request, in rank order, claims a slot: the one its light already
/// holds in its class, or a free one, or one taken from a less important
/// light; else it stays unplaced.
pub open spec fn claim_step(st: ClaimModel, reqs: Seq<ShadowRequest>, i: int) -> ClaimModel {
    let req = reqs[i];
    let class = spec_size_class(req.wanted);
    let side = tile_of(class);
    match first_slot_from(st.slots, req.light, side, 0) {
        Some(e) => ClaimModel { keep: st.keep.update(e as int, Some((i as usize, req.version))), ..st },
        None => {
            if st.free[class].len() == 0 {
                match victim_scan(st.slots, st.keep, reqs, side, req.priority, st.slots.len()) {
                    Some(v) => {
                        let vs = v.0 as int;
                        ClaimModel {
                            slots: st.slots.update(
                                vs,
                                ShadowSlot { light: NO_LIGHT, rect: st.slots[vs].rect, drawn: None },
                            ),
                            free: st.free.update(class, st.free[class].push(st.slots[vs].rect)),
                            keep: st.keep.update(vs, None),
                            new_slots: st.new_slots.push((req.light, class as usize, req.version)),
                            evicted: st.evicted + 1,
                            unplaced: st.unplaced,
                        }
                    },
                    None => ClaimModel { unplaced: st.unplaced + 1, ..st },
                }
            } else {
                ClaimModel { new_slots: st.new_slots.push((req.light, class as usize, req.version)), ..st }
            }
        },
    }
}

/// The requests, as rank keys in arrival order.
pub open spec fn request_keys(reqs: Seq<ShadowRequest>) -> Seq<RankKey> {
    Seq::new(
        reqs.len(),
        |i: int| RankKey { prio: reqs[i].priority, light: reqs[i].light, index: i as usize, version: 0 },
    )
}

/// The requests in the order they are served: priority, then light index.
pub open spec fn request_order(reqs: Seq<ShadowRequest>) -> Seq<RankKey> {
    ranked(request_keys(reqs))
}

pub open spec fn claim_start(m: AtlasModel) -> ClaimModel {
    ClaimModel {
        slots: m.slots,
        free: m.free,
        keep: Seq::new(m.slots.len(), |s: int| None),
        new_slots: Seq::empty(),
        evicted: 0,
        unplaced: 0,
    }
}

/// The claim phase after the first `n` requests in rank order.
pub open spec fn claim_all(m: AtlasModel, reqs: Seq<ShadowRequest>, n: nat) -> ClaimModel
    decreases n,
{
    if n == 0 {
        claim_start(m)
    } else {
        claim_step(
            claim_all(m, reqs, (n - 1) as nat),
            reqs,
            request_order(reqs)[n - 1].index as int,
        )
    }
}

/// State of the table rebuild: the slots that stay, their wait, the dirty
/// ones, and the free lists.
pub struct RebuildModel {
    pub next: Seq<ShadowSlot>,
    pub stale: Seq<u32>,
    pub wanted: Seq<RankKey>,
    pub free: Seq<Seq<[u32; 3]>>,
    pub unplaced: nat,
}

/// Slot `s` keeps its rect and content if a request claimed it; otherwise,
/// unless it was evicted, its rect goes back to the free list.
pub open spec fn rebuild_step(
    rb: RebuildModel,
    cs: ClaimModel,
    old_stale: Seq<u32>,
    reqs: Seq<ShadowRequest>,
    s: int,
) -> RebuildModel {
    let slot = cs.slots[s];
    match cs.keep[s] {
        Some(k) => {
            let idx = rb.next.len();
            RebuildModel {
                next: rb.next.push(slot),
                stale: rb.stale.push(old_stale[s]),
                wanted: if slot.drawn != Some(k.1) {
                    rb.wanted.push(
                        RankKey { prio: reqs[k.0 as int].priority, light: 0, index: idx as usize, version: k.1 },
                    )
                } else {
                    rb.wanted
                },
                ..rb
            }
        },
        None => {
            if slot.light != NO_LIGHT {
                let c = spec_size_class(slot.rect[2]);
                RebuildModel { free: rb.free.update(c, rb.free[c].push(slot.rect)), ..rb }
            } else {
                rb
            }
        },
    }
}

pub open spec fn rebuild_all(
    cs: ClaimModel,
    old_stale: Seq<u32>,
    reqs: Seq<ShadowRequest>,
    n: nat,
) -> RebuildModel
    decreases n,
{
    if n == 0 {
        RebuildModel { next: Seq::empty(), stale: Seq::empty(), wanted: Seq::empty(), free: cs.free, unplaced: 0 }
    } else {
        rebuild_step(rebuild_all(cs, old_stale, reqs, (n - 1) as nat), cs, old_stale, reqs, n - 1)
    }
}

/// A light that needs a new slot takes the last free rect of its class, or
/// stays unplaced.
pub open spec fn place_step(rb: RebuildModel, reqs: Seq<ShadowRequest>, ns: (u32, usize, u64)) -> RebuildModel {
    let class = ns.1 as int;
    if rb.free[class].len() == 0 {
        RebuildModel { unplaced: rb.unplaced + 1, ..rb }
    } else {
        let rect = rb.free[class].last();
        let idx = rb.next.len();
        RebuildModel {
            next: rb.next.push(ShadowSlot { light: ns.0, rect, drawn: None }),
            stale: rb.stale.push(0),
            wanted: rb.wanted.push(
                RankKey { prio: request_prio(reqs, ns.0, ZERO_KEY), light: 0, index: idx as usize, version: ns.2 },
            ),
            free: rb.free.update(class, rb.free[class].drop_last()),
            unplaced: rb.unplaced,
        }
    }
}

pub open spec fn place_all(rb: RebuildModel, reqs: Seq<ShadowRequest>, news: Seq<(u32, usize, u64)>, n: nat) -> RebuildModel
    decreases n,
{
    if n == 0 {
        rb
    } else {
        place_step(place_all(rb, reqs, news, (n - 1) as nat), reqs, news[n - 1])
    }
}

/// State of the spending phase.
pub struct SpendModel {
    pub slots: Seq<ShadowSlot>,
    pub stale: Seq<u32>,
    pub worst: u32,
    pub render: Seq<usize>,
    pub texels: int,
    pub deferred: nat,
}

pub open spec fn tile_cost(slot: ShadowSlot) -> int {
    slot.rect[2] as int * slot.rect[2] as int
}

pub open spec fn sat_inc(x: u32) -> u32 {
    if x == u32::MAX { x } else { (x + 1) as u32 }
}

/// A dirty slot, by priority, is redrawn if it fits in what is left of the
/// budget (the first one always does); else it waits one more frame.
pub open spec fn spend_step(sm: SpendModel, budget: u64, w: RankKey) -> SpendModel {
    let idx = w.index as int;
    let cost = tile_cost(sm.slots[idx]);
    if sm.texels + cost > budget && sm.render.len() > 0 {
        let st = sat_inc(sm.stale[idx]);
        SpendModel {
            stale: sm.stale.update(idx, st),
            worst: if sm.worst >= st { sm.worst } else { st },
            deferred: sm.deferred + 1,
            ..sm
        }
    } else {
        SpendModel {
            slots: sm.slots.update(idx, ShadowSlot { drawn: Some(w.version), ..sm.slots[idx] }),
            stale: sm.stale.update(idx, 0),
            render: sm.render.push(w.index),
            texels: sm.texels + cost,
            ..sm
        }
    }
}

pub open spec fn spend_all(sm: SpendModel, budget: u64, queue: Seq<RankKey>, n: nat) -> SpendModel
    decreases n,
{
    if n == 0 {
        sm
    } else {
        spend_step(spend_all(sm, budget, queue, (n - 1) as nat), budget, queue[n - 1])
    }
}

/// The model of a plan's result.
pub struct PlanModel {
    pub render: Seq<usize>,
    pub texels: int,
    pub unplaced: nat,
    pub deferred: nat,
    pub evicted: nat,
}

/// The claim phase over every request.
pub open spec fn plan_claim(m: AtlasModel, reqs: Seq<ShadowRequest>) -> ClaimModel {
    claim_all(m, reqs, reqs.len())
}

/// The table rebuilt and the new slots placed.
pub open spec fn plan_table(m: AtlasModel, reqs: Seq<ShadowRequest>) -> RebuildModel {
    let cs = plan_claim(m, reqs);
    place_all(rebuild_all(cs, m.stale, reqs, cs.slots.len()), reqs, cs.new_slots, cs.new_slots.len())
}

/// The budget spent over the dirty slots in priority order.
pub open spec fn plan_spend(m: AtlasModel, reqs: Seq<ShadowRequest>) -> SpendModel {
    let pl = plan_table(m, reqs);
    let queue = ranked(pl.wanted);
    spend_all(
        SpendModel { slots: pl.next, stale: pl.stale, worst: m.worst_stale, render: Seq::empty(), texels: 0, deferred: 0 },
        m.budget,
        queue,
        queue.len(),
    )
}

/// The atlas after a plan.
pub open spec fn plan_atlas(m: AtlasModel, reqs: Seq<ShadowRequest>) -> AtlasModel {
    let sp = plan_spend(m, reqs);
    AtlasModel {
        size: m.size,
        budget: m.budget,
        slots: sp.slots,
        free: plan_table(m, reqs).free,
        stale: sp.stale,
        worst_stale: sp.worst,
    }
}

/// The plan's result.
pub open spec fn plan_result(m: AtlasModel, reqs: Seq<ShadowRequest>) -> PlanModel {
    let sp = plan_spend(m, reqs);
    PlanModel {
        render: sp.render,
        texels: sp.texels,
        unplaced: plan_claim(m, reqs).unplaced + plan_table(m, reqs).unplaced,
        deferred: sp.deferred,
        evicted: plan_claim(m, reqs).evicted,
    }
}

impl View for AtlasPlan {
    type V = PlanModel;

    open spec fn view(&self) -> PlanModel {
        PlanModel {
            render: self.render@,
            texels: self.texels as int,
            unplaced: self.unplaced as nat,
            deferred: self.deferred as nat,
            evicted: self.evicted as nat,
        }
    }
}

/// Number of slots that some request confirmed.
pub open spec fn count_kept(keep: Seq<Option<(usize, u64)>>) -> nat
    decreases keep.len(),
{
    if keep.len() == 0 {
        0
    } else {
        count_kept(keep.drop_last()) + if keep.last() is Some { 1nat } else { 0nat }
    }
}

proof fn lemma_count_kept_update(keep: Seq<Option<(usize, u64)>>, e: int, v: Option<(usize, u64)>)
    requires
        0 <= e < keep.len(),
    ensures
        count_kept(keep.update(e, v)) <= count_kept(keep) + 1,
        v is None ==> count_kept(keep.update(e, v)) <= count_kept(keep),
    decreases keep.len(),
{
    let u = keep.update(e, v);
    if e == keep.len() - 1 {
        assert(u.drop_last() =~= keep.drop_last());
    } else {
        assert(u.drop_last() =~= keep.drop_last().update(e, v));
        lemma_count_kept_update(keep.drop_last(), e, v);
    }
}

proof fn lemma_count_kept_prefix(keep: Seq<Option<(usize, u64)>>, s: int)
    requires
        0 <= s < keep.len(),
    ensures
        count_kept(keep.take(s + 1)) == count_kept(keep.take(s)) + if keep[s] is Some { 1nat } else { 0nat },
{
    assert(keep.take(s + 1).drop_last() =~= keep.take(s));
}

proof fn lemma_count_kept_none(n: nat)
    ensures
        count_kept(Seq::new(n, |s: int| None::<(usize, u64)>)) == 0,
    decreases n,
{
    if n > 0 {
        assert(Seq::new(n, |s: int| None::<(usize, u64)>).drop_last() =~= Seq::new(
            (n - 1) as nat,
            |s: int| None::<(usize, u64)>,
        ));
        lemma_count_kept_none((n - 1) as nat);
    }
}

fn request_priority(requests: &[ShadowRequest], light: u32, default: i32) -> (p: i32)
    ensures
        p == request_prio(requests@, light, default),
{
    let mut i: usize = 0;
    while i < requests.len()
        invariant
            i <= requests.len(),
            request_prio_from(requests@, light, default, i as int) == request_prio(requests@, light, default),
        decreases requests.len() - i,
    {
        if requests[i].light == light {
            return requests[i].priority;
        }
        i = i + 1;
    }
    default
}

fn find_slot(slots: &Vec<ShadowSlot>, light: u32, side: u32) -> (r: Option<usize>)
    ensures
        r == first_slot_from(slots@, light, side, 0),
        r matches Some(e) ==> e < slots.len(),
{
    let mut i: usize = 0;
    while i < slots.len()
        invariant
            i <= slots.len(),
            first_slot_from(slots@, light, side, i as int) == first_slot_from(slots@, light, side, 0),
        decreases slots.len() - i,
    {
        if slots[i].light == light && slots[i].rect[2] == side {
            return Some(i);
        }
        i = i + 1;
    }
    None
}

/// Keep entries name requests that exist.
pub open spec fn keep_ok(keep: Seq<Option<(usize, u64)>>, n: int) -> bool {
    forall|s: int| 0 <= s < keep.len() ==> (#[trigger] keep[s] matches Some(k) ==> k.0 < n)
}

/// The least important slot of a class that a request of priority `taker`
/// may take from its holder.
fn pick_victim(
    slots: &Vec<ShadowSlot>,
    keep: &Vec<Option<(usize, u64)>>,
    requests: &[ShadowRequest],
    side: u32,
    taker: i32,
) -> (r: Option<usize>)
    requires
        keep.len() == slots.len(),
        keep_ok(keep@, requests.len() as int),
    ensures
        r == (match victim_scan(slots@, keep@, requests@, side, taker, slots.len() as nat) {
            Some(b) => Some(b.0),
            None => None::<usize>,
        }),
        r matches Some(v) ==> v < slots.len(),
{
    let mut best: Option<(usize, i32)> = None;
    let mut s: usize = 0;
    while s < slots.len()
        invariant
            s <= slots.len(),
            keep.len() == slots.len(),
            keep_ok(keep@, requests.len() as int),
            best == victim_scan(slots@, keep@, requests@, side, taker, s as nat),
            best matches Some(b) ==> b.0 < s,
        decreases slots.len() - s,
    {
        let slot = slots[s];
        let mut eligible = slot.rect[2] == side && slot.light != NO_LIGHT;
        if eligible {
            if let Some(k) = keep[s] {
                assert(keep@[s as int] matches Some(kk) && kk.0 < requests.len());
                if requests[k.0].priority >= taker {
                    eligible = false;
                }
            }
        }
        if eligible {
            let prio = request_priority(requests, slot.light, NEG_INFINITY_KEY);
            if prio < taker {
                let replace = match best {
                    Some(b) => prio < b.1,
                    None => true,
                };
                if replace {
                    best = Some((s, prio));
                }
            }
        }
        s = s + 1;
    }
    match best {
        Some(b) => Some(b.0),
        None => None,
    }
}

/// The exec state of the claim phase, seen as its model.
pub open spec fn claim_view(
    slots: Seq<ShadowSlot>,
    free: Seq<Vec<[u32; 3]>>,
    keep: Seq<Option<(usize, u64)>>,
    new_slots: Seq<(u32, usize, u64)>,
    evicted: u32,
    unplaced: u32,
) -> ClaimModel {
    ClaimModel {
        slots,
        free: free.map_values(|f: Vec<[u32; 3]>| f@),
        keep,
        new_slots,
        evicted: evicted as nat,
        unplaced: unplaced as nat,
    }
}

/// A rank key that names a request.
pub open spec fn order_ok(order: Seq<RankKey>, n: int) -> bool {
    forall|j: int| 0 <= j < order.len() ==> #[trigger] order[j].index < n
}

proof fn lemma_request_order(reqs: Seq<ShadowRequest>)
    ensures
        request_order(reqs).len() == reqs.len(),
        order_ok(request_order(reqs), reqs.len() as int),
{
    broadcast use vstd::seq_lib::group_to_multiset_ensures;

    crate::rank::lemma_rank_total();
    request_keys(reqs).lemma_sort_by_ensures(crate::rank::rank_order());
    let o = request_order(reqs);
    assert(o.len() == o.to_multiset().len());
    assert(request_keys(reqs).len() == request_keys(reqs).to_multiset().len());
    assert forall|j: int| 0 <= j < o.len() implies #[trigger] o[j].index < reqs.len() by {
        assert(o.to_multiset().count(o[j]) > 0);
        assert(request_keys(reqs).contains(o[j]));
    }
}

impl ShadowAtlas {
    /// The claim phase: every request, in rank order, keeps the slot its light
    /// holds in its class, or asks for a new one (taking a free rect or one
    /// of a less important light), or stays unplaced.
    fn claim(&mut self, requests: &[ShadowRequest], order: &Vec<RankKey>) -> (r: (
        Vec<Option<(usize, u64)>>,
        Vec<(u32, usize, u64)>,
        u32,
        u32,
    ))
        requires
            old(self)@.wf(),
            requests.len() <= u32::MAX,
            order@ == request_order(requests@),
        ensures
            final(self)@.wf(),
            final(self).size == old(self).size,
            final(self).budget == old(self).budget,
            final(self).stale@ == old(self).stale@,
            final(self).worst_stale == old(self).worst_stale,
            claim_view(final(self).slots@, final(self).free@, r.0@, r.1@, r.2, r.3) == plan_claim(old(self)@, requests@),
            r.0.len() == final(self).slots.len(),
            keep_ok(r.0@, requests.len() as int),
            forall|j: int| 0 <= j < r.1.len() ==> (#[trigger] r.1@[j]).1 < 4,
            count_kept(r.0@) + r.1.len() + r.3 <= requests.len(),
    {
        let ghost m0 = self@;
        let mut keep: Vec<Option<(usize, u64)>> = Vec::new();
        let mut k: usize = 0;
        while k < self.slots.len()
            invariant
                k <= self.slots.len(),
                keep@ == Seq::new(k as nat, |s: int| None::<(usize, u64)>),
            decreases self.slots.len() - k,
        {
            keep.push(None);
            proof {
                assert(keep@ =~= Seq::new((k + 1) as nat, |s: int| None::<(usize, u64)>));
            }
            k = k + 1;
        }
        let mut new_slots: Vec<(u32, usize, u64)> = Vec::new();
        let mut evicted: u32 = 0;
        let mut unplaced: u32 = 0;
        proof {
            lemma_request_order(requests@);
            lemma_count_kept_none(self.slots.len() as nat);
            assert(claim_view(self.slots@, self.free@, keep@, new_slots@, evicted, unplaced)
                =~= claim_all(m0, requests@, 0));
            assert(claim_view(self.slots@, self.free@, keep@, new_slots@, evicted, unplaced).free
                =~= claim_all(m0, requests@, 0).free);
        }
        let mut n: usize = 0;
        while n < order.len()
            invariant
                n <= order.len(),
                order@ == request_order(requests@),
                order.len() == requests.len(),
                order_ok(order@, requests.len() as int),
                requests.len() <= u32::MAX,
                self.free.len() == 4,
                self.stale.len() == m0.slots.len(),
                self.slots.len() == m0.slots.len(),
                self.size == m0.size,
                self.budget == m0.budget,
                self.stale@ == m0.stale,
                self.worst_stale == m0.worst_stale,
                keep.len() == self.slots.len(),
                keep_ok(keep@, requests.len() as int),
                forall|j: int| 0 <= j < new_slots.len() ==> (#[trigger] new_slots@[j]).1 < 4,
                evicted <= n,
                count_kept(keep@) + new_slots.len() + unplaced <= n,
                claim_view(self.slots@, self.free@, keep@, new_slots@, evicted, unplaced) == claim_all(
                    m0,
                    requests@,
                    n as nat,
                ),
            decreases order.len() - n,
        {
            let ghost before = claim_view(self.slots@, self.free@, keep@, new_slots@, evicted, unplaced);
            let i = order[n].index;
            assert(order@[n as int].index < requests.len());
            let req = requests[i];
            let class = size_class(req.wanted);
            proof { lemma_tile_sizes(); }
            let side = TILE_SIZES[class];
            match find_slot(&self.slots, req.light, side) {
                Some(e) => {
                    proof { lemma_count_kept_update(keep@, e as int, Some((i, req.version))); }
                    keep.set(e, Some((i, req.version)));
                    proof {
                        let after = claim_view(self.slots@, self.free@, keep@, new_slots@, evicted, unplaced);
                        assert(after == claim_step(before, requests@, i as int));
                    }
                },
                None => {
                    if self.free[class].len() == 0 {
                        match pick_victim(&self.slots, &keep, requests, side, req.priority) {
                            Some(v) => {
                                let rect = self.slots[v].rect;
                                let ghost free_before = self.free@;
                                self.free[class].push(rect);
                                proof { lemma_count_kept_update(keep@, v as int, None); }
                                keep.set(v, None);
                                self.slots.set(v, ShadowSlot { light: NO_LIGHT, rect, drawn: None });
                                evicted = evicted + 1;
                                new_slots.push((req.light, class, req.version));
                                proof {
                                    let after = claim_view(self.slots@, self.free@, keep@, new_slots@, evicted, unplaced);
                                    let want = claim_step(before, requests@, i as int);
                                    assert(after.free =~= want.free);
                                    assert(after.slots =~= want.slots);
                                    assert(after.keep =~= want.keep);
                                    assert(after.new_slots =~= want.new_slots);
                                    assert(after == want);
                                }
                            },
                            None => {
                                unplaced = unplaced + 1;
                                proof {
                                    let after = claim_view(self.slots@, self.free@, keep@, new_slots@, evicted, unplaced);
                                    assert(after == claim_step(before, requests@, i as int));
                                }
                            },
                        }
                    } else {
                        new_slots.push((req.light, class, req.version));
                        proof {
                            let after = claim_view(self.slots@, self.free@, keep@, new_slots@, evicted, unplaced);
                            assert(after =~= claim_step(before, requests@, i as int));
                        }
                    }
                },
            }
            n = n + 1;
        }
        (keep, new_slots, evicted, unplaced)
    }
}

pub open spec fn rebuild_view(
    next: Seq<ShadowSlot>,
    stale: Seq<u32>,
    wanted: Seq<RankKey>,
    free: Seq<Vec<[u32; 3]>>,
    unplaced: u32,
) -> RebuildModel {
    RebuildModel { next, stale, wanted, free: free.map_values(|f: Vec<[u32; 3]>| f@), unplaced: unplaced as nat }
}

impl ShadowAtlas {
    /// Rebuilds the slot table: claimed slots keep their rect and content,
    /// the rest go back to the free lists; then the lights that need a new
    /// slot take one.
    fn rebuild_and_place(
        &mut self,
        requests: &[ShadowRequest],
        keep: &Vec<Option<(usize, u64)>>,
        new_slots: &Vec<(u32, usize, u64)>,
        Ghost(cs): Ghost<ClaimModel>,
    ) -> (r: (Vec<ShadowSlot>, Vec<u32>, Vec<RankKey>, u32))
        requires
            old(self).free.len() == 4,
            old(self).stale.len() == old(self).slots.len(),
            keep.len() == old(self).slots.len(),
            keep_ok(keep@, requests.len() as int),
            forall|j: int| 0 <= j < new_slots.len() ==> (#[trigger] new_slots@[j]).1 < 4,
            count_kept(keep@) + new_slots.len() + cs.unplaced <= requests.len(),
            requests.len() <= u32::MAX,
            cs.slots == old(self).slots@,
            cs.keep == keep@,
            cs.new_slots == new_slots@,
            cs.free == old(self).free@.map_values(|f: Vec<[u32; 3]>| f@),
        ensures
            final(self).free.len() == 4,
            final(self).slots@ == old(self).slots@,
            final(self).stale@ == old(self).stale@,
            final(self).size == old(self).size,
            final(self).budget == old(self).budget,
            final(self).worst_stale == old(self).worst_stale,
            rebuild_view(r.0@, r.1@, r.2@, final(self).free@, r.3) == place_all(
                rebuild_all(cs, old(self).stale@, requests@, cs.slots.len()),
                requests@,
                cs.new_slots,
                cs.new_slots.len(),
            ),
            r.1.len() == r.0.len(),
            r.2.len() <= r.0.len(),
            r.0.len() + cs.unplaced + r.3 <= requests.len(),
            forall|j: int| 0 <= j < r.2.len() ==> (#[trigger] r.2@[j]).index < r.0.len(),
    {
        let mut next: Vec<ShadowSlot> = Vec::new();
        let mut next_stale: Vec<u32> = Vec::new();
        let mut wanted: Vec<RankKey> = Vec::new();
        let mut s: usize = 0;
        proof {
            assert(rebuild_view(next@, next_stale@, wanted@, self.free@, 0) =~= rebuild_all(cs, self.stale@, requests@, 0));
            assert(keep@.take(0) =~= Seq::<Option<(usize, u64)>>::empty());
            assert(keep@.take(keep.len() as int) =~= keep@);
        }
        while s < self.slots.len()
            invariant
                s <= self.slots.len(),
                self.free.len() == 4,
                self.stale.len() == self.slots.len(),
                keep.len() == self.slots.len(),
                keep_ok(keep@, requests.len() as int),
                cs.slots == self.slots@,
                cs.keep == keep@,
                self.slots@ == old(self).slots@,
                self.stale@ == old(self).stale@,
                self.size == old(self).size,
                self.budget == old(self).budget,
                self.worst_stale == old(self).worst_stale,
                next.len() == count_kept(keep@.take(s as int)),
                next_stale.len() == next.len(),
                wanted.len() <= next.len(),
                forall|j: int| 0 <= j < wanted.len() ==> (#[trigger] wanted@[j]).index < next.len(),
                rebuild_view(next@, next_stale@, wanted@, self.free@, 0) == rebuild_all(
                    cs,
                    old(self).stale@,
                    requests@,
                    s as nat,
                ),
            decreases self.slots.len() - s,
        {
            let ghost before = rebuild_view(next@, next_stale@, wanted@, self.free@, 0);
            proof { lemma_count_kept_prefix(keep@, s as int); }
            let slot = self.slots[s];
            match keep[s] {
                Some(k) => {
                    let idx = next.len();
                    next.push(slot);
                    next_stale.push(self.stale[s]);
                    let dirty = match slot.drawn {
                        Some(d) => d != k.1,
                        None => true,
                    };
                    if dirty {
                        assert(keep@[s as int] matches Some(kk) && kk.0 < requests.len());
                        wanted.push(RankKey { prio: requests[k.0].priority, light: 0, index: idx, version: k.1 });
                    }
                    proof {
                        let after = rebuild_view(next@, next_stale@, wanted@, self.free@, 0);
                        assert(after =~= rebuild_step(before, cs, old(self).stale@, requests@, s as int));
                    }
                },
                None => {
                    if slot.light != NO_LIGHT {
                        let c = size_class(slot.rect[2]);
                        self.free[c].push(slot.rect);
                        proof {
                            let after = rebuild_view(next@, next_stale@, wanted@, self.free@, 0);
                            assert(after.free =~= rebuild_step(before, cs, old(self).stale@, requests@, s as int).free);
                        }
                    }
                },
            }
            s = s + 1;
        }
        let ghost rb = rebuild_view(next@, next_stale@, wanted@, self.free@, 0);
        let mut unplaced: u32 = 0;
        let mut j: usize = 0;
        while j < new_slots.len()
            invariant
                j <= new_slots.len(),
                self.free.len() == 4,
                forall|jj: int| 0 <= jj < new_slots.len() ==> (#[trigger] new_slots@[jj]).1 < 4,
                cs.new_slots == new_slots@,
                self.slots@ == old(self).slots@,
                self.stale@ == old(self).stale@,
                self.size == old(self).size,
                self.budget == old(self).budget,
                self.worst_stale == old(self).worst_stale,
                count_kept(keep@) + new_slots.len() + cs.unplaced <= requests.len(),
                requests.len() <= u32::MAX,
                next.len() + unplaced <= count_kept(keep@) + j,
                next_stale.len() == next.len(),
                wanted.len() <= next.len(),
                forall|jj: int| 0 <= jj < wanted.len() ==> (#[trigger] wanted@[jj]).index < next.len(),
                rebuild_view(next@, next_stale@, wanted@, self.free@, unplaced) == place_all(
                    rb,
                    requests@,
                    new_slots@,
                    j as nat,
                ),
            decreases new_slots.len() - j,
        {
            let ghost before = rebuild_view(next@, next_stale@, wanted@, self.free@, unplaced);
            let (light, class, version) = new_slots[j];
            assert(new_slots@[j as int].1 < 4);
            match self.free[class].pop() {
                None => {
                    unplaced = unplaced + 1;
                    proof {
                        let after = rebuild_view(next@, next_stale@, wanted@, self.free@, unplaced);
                        assert(after.free =~= before.free);
                        assert(after =~= place_step(before, requests@, new_slots@[j as int]));
                    }
                },
                Some(rect) => {
                    let idx = next.len();
                    next.push(ShadowSlot { light, rect, drawn: None });
                    next_stale.push(0);
                    let prio = request_priority(requests, light, ZERO_KEY);
                    wanted.push(RankKey { prio, light: 0, index: idx, version });
                    proof {
                        let after = rebuild_view(next@, next_stale@, wanted@, self.free@, unplaced);
                        let want = place_step(before, requests@, new_slots@[j as int]);
                        assert(after.free =~= want.free);
                        assert(after =~= want);
                    }
                },
            }
            j = j + 1;
        }
        (next, next_stale, wanted, unplaced)
    }
}

pub open spec fn spend_view(
    slots: Seq<ShadowSlot>,
    stale: Seq<u32>,
    worst: u32,
    render: Seq<usize>,
    texels: u64,
    deferred: u32,
) -> SpendModel {
    SpendModel { slots, stale, worst, render, texels: texels as int, deferred: deferred as nat }
}

proof fn lemma_ranked_members(keys: Seq<RankKey>, bound: int)
    requires
        forall|j: int| 0 <= j < keys.len() ==> (#[trigger] keys[j]).index < bound,
    ensures
        ranked(keys).len() == keys.len(),
        forall|j: int| 0 <= j < ranked(keys).len() ==> (#[trigger] ranked(keys)[j]).index < bound,
{
    broadcast use vstd::seq_lib::group_to_multiset_ensures;

    crate::rank::lemma_rank_total();
    keys.lemma_sort_by_ensures(crate::rank::rank_order());
    let o = ranked(keys);
    assert(o.len() == o.to_multiset().len());
    assert(keys.len() == keys.to_multiset().len());
    assert forall|j: int| 0 <= j < o.len() implies #[trigger] o[j].index < bound by {
        assert(o.to_multiset().count(o[j]) > 0);
        assert(keys.contains(o[j]));
    }
}

impl ShadowAtlas {
    /// Decides this frame's work.
    ///
    /// Requests are served by priority (then light index), whatever order
    /// they arrive in. A request keeps the slot its light holds in its class;
    /// else it takes a free rect, or the slot of a less important light; else
    /// it stays unplaced. Claimed slots keep their rect and content, the rest
    /// go back to the free lists. Dirty slots are then redrawn by priority
    /// while the budget lasts; the first one always is.
    pub fn plan(&mut self, requests: &[ShadowRequest]) -> (p: AtlasPlan)
        requires
            old(self)@.wf(),
            requests.len() <= u32::MAX,
        ensures
            final(self)@.wf(),
            final(self)@ == plan_atlas(old(self)@, requests@),
            p@ == plan_result(old(self)@, requests@),
            tiles_ok(old(self)@) && names_lights(requests@) ==> {
                &&& tiles_ok(final(self)@)
                &&& forall|c: int|
                    0 <= c < 4 ==> #[trigger] class_capacity(final(self)@, c) == class_capacity(old(self)@, c)
                &&& held_rects(final(self)@) == held_rects(old(self)@)
            },
            one_request_per_light(requests@) ==> {
                &&& forall|s: int|
                    0 <= s < final(self)@.slots.len() ==> is_requested(requests@, (#[trigger] final(self)@.slots[s]).light)
                &&& forall|s: int, t: int|
                    0 <= s < final(self)@.slots.len() && 0 <= t < final(self)@.slots.len() && s != t
                        ==> (#[trigger] final(self)@.slots[s]).light != (#[trigger] final(self)@.slots[t]).light
            },
    {
        let ghost m0 = self@;
        let mut keys: Vec<RankKey> = Vec::new();
        let mut i: usize = 0;
        while i < requests.len()
            invariant
                i <= requests.len(),
                keys@ =~= request_keys(requests@).take(i as int),
            decreases requests.len() - i,
        {
            keys.push(RankKey { prio: requests[i].priority, light: requests[i].light, index: i, version: 0 });
            i = i + 1;
        }
        proof {
            assert(keys@ =~= request_keys(requests@));
        }
        let order = sort_ranked(keys);
        let (keep, new_slots, evicted, unplaced) = self.claim(requests, &order);
        let ghost cs = claim_view(self.slots@, self.free@, keep@, new_slots@, evicted, unplaced);
        let (next, next_stale, wanted, unplaced_new) = self.rebuild_and_place(
            requests,
            &keep,
            &new_slots,
            Ghost(cs),
        );
        let ghost table = rebuild_view(next@, next_stale@, wanted@, self.free@, unplaced_new);
        let ghost free_after = self.free@;
        assert(table == plan_table(m0, requests@));
        self.slots = next;
        self.stale = next_stale;
        let queue = sort_ranked(wanted);
        proof {
            lemma_ranked_members(table.wanted, self.slots.len() as int);
        }
        let mut render: Vec<usize> = Vec::new();
        let mut texels: u64 = 0;
        let mut deferred: u32 = 0;
        let mut n: usize = 0;
        let ghost start = spend_view(self.slots@, self.stale@, self.worst_stale, render@, texels, deferred);
        while n < queue.len()
            invariant
                n <= queue.len(),
                queue@ == ranked(table.wanted),
                forall|j: int| 0 <= j < queue.len() ==> (#[trigger] queue@[j]).index < self.slots.len(),
                self.stale.len() == self.slots.len(),
                queue.len() <= self.slots.len(),
                self.slots.len() <= requests.len(),
                requests.len() <= u32::MAX,
                deferred <= n,
                render.len() == 0 ==> texels == 0,
                self.free.len() == 4,
                self.free@ == free_after,
                self.size == m0.size,
                self.budget == m0.budget,
                spend_view(self.slots@, self.stale@, self.worst_stale, render@, texels, deferred) == spend_all(
                    start,
                    m0.budget,
                    queue@,
                    n as nat,
                ),
            decreases queue.len() - n,
        {
            let ghost before = spend_view(self.slots@, self.stale@, self.worst_stale, render@, texels, deferred);
            let w = queue[n];
            let idx = w.index;
            let side = self.slots[idx].rect[2] as u64;
            assert(side * side <= u64::MAX) by (nonlinear_arith)
                requires side <= u32::MAX;
            let cost = side * side;
            if (texels as u128) + (cost as u128) > (self.budget as u128) && render.len() > 0 {
                deferred = deferred + 1;
                let st = self.stale[idx].saturating_add(1);
                self.stale.set(idx, st);
                if self.worst_stale < st {
                    self.worst_stale = st;
                }
                proof {
                    let after = spend_view(self.slots@, self.stale@, self.worst_stale, render@, texels, deferred);
                    assert(after =~= spend_step(before, m0.budget, w));
                }
            } else {
                texels = texels + cost;
                render.push(idx);
                self.stale.set(idx, 0);
                let old_slot = self.slots[idx];
                self.slots.set(idx, ShadowSlot { drawn: Some(w.version), ..old_slot });
                proof {
                    let after = spend_view(self.slots@, self.stale@, self.worst_stale, render@, texels, deferred);
                    assert(after =~= spend_step(before, m0.budget, w));
                }
            }
            n = n + 1;
        }
        proof {
            assert(self@.free =~= plan_table(m0, requests@).free);
            assert(self@.slots == plan_spend(m0, requests@).slots);
            assert(self@ =~= plan_atlas(m0, requests@));
            if tiles_ok(m0) && names_lights(requests@) {
                a_plan_keeps_the_tiles(m0, requests@);
                a_plan_keeps_every_tile(m0, requests@);
            }
            if one_request_per_light(requests@) {
                each_light_holds_one_tile_at_most(m0, requests@);
            }
        }
        AtlasPlan { render, texels, unplaced: unplaced + unplaced_new, deferred, evicted }
    }
}

proof fn lemma_spend_budget(sm: SpendModel, budget: u64, queue: Seq<RankKey>, n: nat)
    requires
        n <= queue.len(),
        sm.render.len() == 0,
        sm.texels == 0,
    ensures
        spend_all(sm, budget, queue, n).texels >= 0,
        spend_all(sm, budget, queue, n).render.len() == 0 ==> spend_all(sm, budget, queue, n).texels == 0,
        spend_all(sm, budget, queue, n).texels <= budget || spend_all(sm, budget, queue, n).render.len() == 1,
    decreases n,
{
    if n > 0 {
        lemma_spend_budget(sm, budget, queue, (n - 1) as nat);
        let prev = spend_all(sm, budget, queue, (n - 1) as nat);
        let idx = queue[n - 1].index as int;
        let cost = tile_cost(prev.slots[idx]);
        assert(cost >= 0) by (nonlinear_arith)
            requires cost == prev.slots[idx].rect[2] as int * prev.slots[idx].rect[2] as int;
    }
}

/// The budget is never exceeded: what a plan renders costs at most the
/// atlas's budget, unless it is a single tile (the first dirty slot is always
/// redrawn, so one oversized tile cannot starve the queue).
pub proof fn plan_never_exceeds_the_budget(m: AtlasModel, reqs: Seq<ShadowRequest>)
    ensures
        plan_result(m, reqs).texels <= m.budget || plan_result(m, reqs).render.len() == 1,
{
    let pl = plan_table(m, reqs);
    let queue = ranked(pl.wanted);
    lemma_spend_budget(
        SpendModel { slots: pl.next, stale: pl.stale, worst: m.worst_stale, render: Seq::empty(), texels: 0, deferred: 0 },
        m.budget,
        queue,
        queue.len(),
    );
}

proof fn lemma_spend_first(sm: SpendModel, budget: u64, queue: Seq<RankKey>, n: nat)
    requires
        n <= queue.len(),
        sm.render.len() == 0,
    ensures
        n > 0 ==> spend_all(sm, budget, queue, n).render.len() > 0 && spend_all(sm, budget, queue, n).render[0]
            == queue[0].index,
        n == 0 ==> spend_all(sm, budget, queue, n).render.len() == 0,
    decreases n,
{
    assert(spend_all(sm, budget, queue, 0) == sm);
    if n > 1 {
        lemma_spend_first(sm, budget, queue, (n - 1) as nat);
        let prev = spend_all(sm, budget, queue, (n - 1) as nat);
        assert(prev.render.len() > 0 && prev.render[0] == queue[0].index);
        let next = spend_step(prev, budget, queue[n - 1]);
        assert(next.render.len() > 0 && next.render[0] == queue[0].index);
    }
}

/// Every frame with a dirty slot draws something, and the first slot it
/// draws is the most important dirty one: with budget for one, it is the
/// most important that is served.
pub proof fn the_most_important_dirty_slot_wins_the_budget(m: AtlasModel, reqs: Seq<ShadowRequest>)
    ensures
        ({
            let pl = plan_table(m, reqs);
            let queue = ranked(pl.wanted);
            let sp = plan_spend(m, reqs);
            &&& queue.len() == pl.wanted.len()
            &&& (sp.render.len() > 0 <==> pl.wanted.len() > 0)
            &&& pl.wanted.len() > 0 ==> sp.render[0] == queue[0].index && forall|k: int|
                0 <= k < pl.wanted.len() ==> (#[trigger] pl.wanted[k]).prio <= queue[0].prio
        }),
{
    broadcast use vstd::seq_lib::group_to_multiset_ensures;

    let pl = plan_table(m, reqs);
    let queue = ranked(pl.wanted);
    crate::rank::lemma_rank_total();
    pl.wanted.lemma_sort_by_ensures(crate::rank::rank_order());
    assert(queue.len() == queue.to_multiset().len());
    assert(pl.wanted.len() == pl.wanted.to_multiset().len());
    lemma_spend_first(
        SpendModel { slots: pl.next, stale: pl.stale, worst: m.worst_stale, render: Seq::empty(), texels: 0, deferred: 0 },
        m.budget,
        queue,
        queue.len(),
    );
    if pl.wanted.len() > 0 {
        assert forall|k: int| 0 <= k < pl.wanted.len() implies (#[trigger] pl.wanted[k]).prio <= queue[0].prio by {
            assert(pl.wanted.to_multiset().count(pl.wanted[k]) > 0);
            assert(queue.contains(pl.wanted[k]));
            let j = choose|j: int| 0 <= j < queue.len() && queue[j] == pl.wanted[k];
            if j > 0 {
                assert(crate::rank::rank_order()(queue[0], queue[j]));
            }
        }
    }
}

/// `slot` holds no content, or holds exactly what one of `old` held.
pub open spec fn content_from(slot: ShadowSlot, old: Seq<ShadowSlot>) -> bool {
    slot.drawn is None || old.contains(slot)
}

proof fn lemma_claim_content(m: AtlasModel, reqs: Seq<ShadowRequest>, n: nat)
    requires
        n <= reqs.len(),
        m.slots.len() <= usize::MAX,
    ensures
        claim_all(m, reqs, n).slots.len() == m.slots.len(),
        forall|s: int|
            0 <= s < m.slots.len() ==> content_from(#[trigger] claim_all(m, reqs, n).slots[s], m.slots),
    decreases n,
{
    if n == 0 {
        assert forall|s: int| 0 <= s < m.slots.len() implies content_from(
            #[trigger] claim_all(m, reqs, n).slots[s],
            m.slots,
        ) by {
            assert(m.slots.contains(m.slots[s]));
        }
    } else {
        lemma_claim_content(m, reqs, (n - 1) as nat);
        let prev = claim_all(m, reqs, (n - 1) as nat);
        let cur = claim_all(m, reqs, n);
        let i = request_order(reqs)[n - 1].index as int;
        let req = reqs[i];
        let class = spec_size_class(req.wanted);
        let side = tile_of(class);
        lemma_victim_scan(prev.slots, prev.keep, reqs, side, req.priority, prev.slots.len());
        assert(cur == claim_step(prev, reqs, i));
        assert(cur.slots.len() == m.slots.len());
        assert forall|s: int| 0 <= s < m.slots.len() implies content_from(#[trigger] cur.slots[s], m.slots) by {
            assert(content_from(prev.slots[s], m.slots));
        }
    }
}

proof fn lemma_rebuild_content(cs: ClaimModel, old_stale: Seq<u32>, reqs: Seq<ShadowRequest>, old: Seq<ShadowSlot>, n: nat)
    requires
        n <= cs.slots.len(),
        forall|s: int| 0 <= s < cs.slots.len() ==> content_from(#[trigger] cs.slots[s], old),
    ensures
        forall|i: int|
            0 <= i < rebuild_all(cs, old_stale, reqs, n).next.len() ==> content_from(
                #[trigger] rebuild_all(cs, old_stale, reqs, n).next[i],
                old,
            ),
    decreases n,
{
    if n > 0 {
        lemma_rebuild_content(cs, old_stale, reqs, old, (n - 1) as nat);
        let prev = rebuild_all(cs, old_stale, reqs, (n - 1) as nat);
        let cur = rebuild_all(cs, old_stale, reqs, n);
        assert forall|i: int| 0 <= i < cur.next.len() implies content_from(#[trigger] cur.next[i], old) by {
            if i < prev.next.len() {
                assert(cur.next[i] == prev.next[i]);
            } else {
                assert(content_from(cs.slots[n - 1], old));
            }
        }
    }
}

proof fn lemma_place_content(
    rb: RebuildModel,
    reqs: Seq<ShadowRequest>,
    news: Seq<(u32, usize, u64)>,
    old: Seq<ShadowSlot>,
    n: nat,
)
    requires
        n <= news.len(),
        forall|i: int| 0 <= i < rb.next.len() ==> content_from(#[trigger] rb.next[i], old),
    ensures
        forall|i: int|
            0 <= i < place_all(rb, reqs, news, n).next.len() ==> content_from(
                #[trigger] place_all(rb, reqs, news, n).next[i],
                old,
            ),
    decreases n,
{
    if n > 0 {
        lemma_place_content(rb, reqs, news, old, (n - 1) as nat);
        let prev = place_all(rb, reqs, news, (n - 1) as nat);
        let cur = place_all(rb, reqs, news, n);
        assert forall|i: int| 0 <= i < cur.next.len() implies content_from(#[trigger] cur.next[i], old) by {
            if i < prev.next.len() {
                assert(cur.next[i] == prev.next[i]);
            }
        }
    }
}

proof fn lemma_rebuild_indices(cs: ClaimModel, old_stale: Seq<u32>, reqs: Seq<ShadowRequest>, n: nat)
    requires
        n <= cs.slots.len(),
    ensures
        forall|k: int|
            0 <= k < rebuild_all(cs, old_stale, reqs, n).wanted.len() ==> (#[trigger] rebuild_all(
                cs,
                old_stale,
                reqs,
                n,
            ).wanted[k]).index < rebuild_all(cs, old_stale, reqs, n).next.len(),
        rebuild_all(cs, old_stale, reqs, n).next.len() <= n,
    decreases n,
{
    if n > 0 {
        lemma_rebuild_indices(cs, old_stale, reqs, (n - 1) as nat);
        let prev = rebuild_all(cs, old_stale, reqs, (n - 1) as nat);
        let cur = rebuild_all(cs, old_stale, reqs, n);
        assert forall|k: int| 0 <= k < cur.wanted.len() implies (#[trigger] cur.wanted[k]).index < cur.next.len() by {
            if k < prev.wanted.len() {
                assert(cur.wanted[k] == prev.wanted[k]);
            }
        }
    }
}

proof fn lemma_place_indices(rb: RebuildModel, reqs: Seq<ShadowRequest>, news: Seq<(u32, usize, u64)>, n: nat)
    requires
        n <= news.len(),
        forall|k: int| 0 <= k < rb.wanted.len() ==> (#[trigger] rb.wanted[k]).index < rb.next.len(),
    ensures
        forall|k: int|
            0 <= k < place_all(rb, reqs, news, n).wanted.len() ==> (#[trigger] place_all(rb, reqs, news, n).wanted[k]).index
                < place_all(rb, reqs, news, n).next.len(),
        place_all(rb, reqs, news, n).next.len() <= rb.next.len() + n,
    decreases n,
{
    if n > 0 {
        lemma_place_indices(rb, reqs, news, (n - 1) as nat);
        let prev = place_all(rb, reqs, news, (n - 1) as nat);
        let cur = place_all(rb, reqs, news, n);
        assert forall|k: int| 0 <= k < cur.wanted.len() implies (#[trigger] cur.wanted[k]).index < cur.next.len() by {
            if k < prev.wanted.len() {
                assert(cur.wanted[k] == prev.wanted[k]);
            }
        }
    }
}

proof fn lemma_spend_content(sm: SpendModel, budget: u64, queue: Seq<RankKey>, n: nat)
    requires
        n <= queue.len(),
        forall|k: int| 0 <= k < queue.len() ==> (#[trigger] queue[k]).index < sm.slots.len(),
    ensures
        spend_all(sm, budget, queue, n).slots.len() == sm.slots.len(),
        forall|i: int|
            0 <= i < sm.slots.len() ==> #[trigger] spend_all(sm, budget, queue, n).slots[i] == sm.slots[i]
                || spend_all(sm, budget, queue, n).render.contains(i as usize),
        forall|i: int|
            0 <= i < sm.render.len() ==> spend_all(sm, budget, queue, n).render[i] == #[trigger] sm.render[i],
        sm.render.len() <= spend_all(sm, budget, queue, n).render.len(),
    decreases n,
{
    if n > 0 {
        lemma_spend_content(sm, budget, queue, (n - 1) as nat);
        let prev = spend_all(sm, budget, queue, (n - 1) as nat);
        let cur = spend_all(sm, budget, queue, n);
        assert forall|i: int| 0 <= i < sm.slots.len() implies #[trigger] cur.slots[i] == sm.slots[i]
            || cur.render.contains(i as usize) by {
            if prev.render.contains(i as usize) {
                let j = choose|j: int| 0 <= j < prev.render.len() && prev.render[j] == i as usize;
                assert(cur.render[j] == prev.render[j]);
            } else if cur.slots[i] != sm.slots[i] {
                assert(queue[n - 1].index < sm.slots.len());
                assert(cur.render[cur.render.len() - 1] == i as usize);
            }
        }
    }
}

proof fn lemma_claim_new_slots(m: AtlasModel, reqs: Seq<ShadowRequest>, n: nat)
    ensures
        claim_all(m, reqs, n).new_slots.len() <= n,
    decreases n,
{
    if n > 0 {
        lemma_claim_new_slots(m, reqs, (n - 1) as nat);
    }
}

/// A slot never claims content it was not given: after a plan, a slot that
/// says it holds a version is either redrawn by this plan, or is exactly a
/// slot of the atlas before it (same light, tile and version).
pub proof fn a_slot_never_claims_content_it_was_not_given(m: AtlasModel, reqs: Seq<ShadowRequest>)
    requires
        m.slots.len() + reqs.len() <= usize::MAX,
    ensures
        forall|i: int|
            0 <= i < plan_atlas(m, reqs).slots.len() && (#[trigger] plan_atlas(m, reqs).slots[i]).drawn is Some
                ==> plan_result(m, reqs).render.contains(i as usize) || m.slots.contains(
                plan_atlas(m, reqs).slots[i],
            ),
{
    let cs = plan_claim(m, reqs);
    lemma_claim_content(m, reqs, reqs.len());
    let rb = rebuild_all(cs, m.stale, reqs, cs.slots.len());
    lemma_rebuild_content(cs, m.stale, reqs, m.slots, cs.slots.len());
    let pl = plan_table(m, reqs);
    lemma_place_content(rb, reqs, cs.new_slots, m.slots, cs.new_slots.len());
    lemma_rebuild_indices(cs, m.stale, reqs, cs.slots.len());
    lemma_claim_new_slots(m, reqs, reqs.len());
    lemma_place_indices(rb, reqs, cs.new_slots, cs.new_slots.len());
    let queue = ranked(pl.wanted);
    crate::rank::lemma_ranked_indices(pl.wanted, pl.next.len() as int);
    let sm = SpendModel {
        slots: pl.next,
        stale: pl.stale,
        worst: m.worst_stale,
        render: Seq::empty(),
        texels: 0,
        deferred: 0,
    };
    lemma_spend_content(sm, m.budget, queue, queue.len());
    let sp = plan_spend(m, reqs);
    assert forall|i: int|
        0 <= i < plan_atlas(m, reqs).slots.len() && (#[trigger] plan_atlas(m, reqs).slots[i]).drawn is Some
            implies plan_result(m, reqs).render.contains(i as usize) || m.slots.contains(
            plan_atlas(m, reqs).slots[i],
        ) by {
        if !sp.render.contains(i as usize) {
            assert(sp.slots[i] == pl.next[i]);
            assert(content_from(pl.next[i], m.slots));
        }
    }
}

proof fn lemma_victim_scan(
    slots: Seq<ShadowSlot>,
    keep: Seq<Option<(usize, u64)>>,
    reqs: Seq<ShadowRequest>,
    side: u32,
    taker: i32,
    n: nat,
)
    requires
        n <= usize::MAX,
    ensures
        victim_scan(slots, keep, reqs, side, taker, n) matches Some(b) ==> {
            &&& b.0 < n
            &&& victim_eligible(slots, keep, reqs, side, taker, b.0 as int)
            &&& b.1 == request_prio(reqs, slots[b.0 as int].light, NEG_INFINITY_KEY)
        },
    decreases n,
{
    if n > 0 {
        lemma_victim_scan(slots, keep, reqs, side, taker, (n - 1) as nat);
    }
}

/// Eviction only goes downhill: when a request takes a slot from another
/// light, that light was resident in the same class and less important than
/// the request (a light that no longer asks for a shadow counts as least
/// important of all).
pub proof fn eviction_only_goes_downhill(st: ClaimModel, reqs: Seq<ShadowRequest>, i: int)
    requires
        0 <= i < reqs.len(),
        st.free.len() == 4,
        st.slots.len() <= usize::MAX,
    ensures
        claim_step(st, reqs, i).evicted == st.evicted + 1 ==> exists|v: int|
            0 <= v < st.slots.len()
            && st.slots[v].light != NO_LIGHT
            && st.slots[v].rect[2] == tile_of(spec_size_class(reqs[i].wanted))
            && #[trigger] request_prio(reqs, st.slots[v].light, NEG_INFINITY_KEY) < reqs[i].priority
            && claim_step(st, reqs, i).slots[v].light == NO_LIGHT,
{
    let req = reqs[i];
    let side = tile_of(spec_size_class(req.wanted));
    lemma_victim_scan(st.slots, st.keep, reqs, side, req.priority, st.slots.len());
    if claim_step(st, reqs, i).evicted == st.evicted + 1 {
        let b = victim_scan(st.slots, st.keep, reqs, side, req.priority, st.slots.len()).unwrap();
        let v = b.0 as int;
        assert(request_prio(reqs, st.slots[v].light, NEG_INFINITY_KEY) < reqs[i].priority);
    }
}

/// The victim is the least important eligible slot: the scan finds a slot
/// exactly when one is eligible, and then one that is eligible, with the
/// priority of its light, no more important than any other eligible slot,
/// and strictly less important than every eligible slot before it.
pub proof fn the_victim_is_the_least_important_eligible(
    slots: Seq<ShadowSlot>,
    keep: Seq<Option<(usize, u64)>>,
    reqs: Seq<ShadowRequest>,
    side: u32,
    taker: i32,
    n: nat,
)
    requires
        n <= usize::MAX,
    ensures
        victim_scan(slots, keep, reqs, side, taker, n) is None <==> forall|s: int|
            0 <= s < n ==> !#[trigger] victim_eligible(slots, keep, reqs, side, taker, s),
        victim_scan(slots, keep, reqs, side, taker, n) matches Some(b) ==> {
            &&& b.0 < n
            &&& victim_eligible(slots, keep, reqs, side, taker, b.0 as int)
            &&& b.1 == request_prio(reqs, slots[b.0 as int].light, NEG_INFINITY_KEY)
            &&& forall|s: int|
                0 <= s < n && #[trigger] victim_eligible(slots, keep, reqs, side, taker, s) ==> b.1 <= request_prio(
                    reqs,
                    slots[s].light,
                    NEG_INFINITY_KEY,
                )
            &&& forall|s: int|
                0 <= s < b.0 && #[trigger] victim_eligible(slots, keep, reqs, side, taker, s) ==> b.1 < request_prio(
                    reqs,
                    slots[s].light,
                    NEG_INFINITY_KEY,
                )
        },
    decreases n,
{
    if n > 0 {
        the_victim_is_the_least_important_eligible(slots, keep, reqs, side, taker, (n - 1) as nat);
    }
}

/// When a request evicts, it evicts the least important light it may take:
/// the evicted slot's light is no more important than that of any other
/// slot of the class the request was allowed to take.
pub proof fn eviction_takes_the_least_important(st: ClaimModel, reqs: Seq<ShadowRequest>, i: int)
    requires
        0 <= i < reqs.len(),
        st.free.len() == 4,
        st.slots.len() <= usize::MAX,
    ensures
        claim_step(st, reqs, i).evicted == st.evicted + 1 ==> exists|v: int|
            0 <= v < st.slots.len() && victim_eligible(
                st.slots,
                st.keep,
                reqs,
                tile_of(spec_size_class(reqs[i].wanted)),
                reqs[i].priority,
                v,
            ) && st.slots[v].light != NO_LIGHT && st.slots[v].rect[2] == tile_of(spec_size_class(reqs[i].wanted))
                && !(st.keep[v] matches Some(k) && reqs[k.0 as int].priority >= reqs[i].priority)
                && request_prio(reqs, st.slots[v].light, NEG_INFINITY_KEY) < reqs[i].priority
                && claim_step(st, reqs, i).slots[v].light == NO_LIGHT && forall|s: int|
                0 <= s < st.slots.len() && #[trigger] victim_eligible(
                    st.slots,
                    st.keep,
                    reqs,
                    tile_of(spec_size_class(reqs[i].wanted)),
                    reqs[i].priority,
                    s,
                ) ==> request_prio(reqs, st.slots[v].light, NEG_INFINITY_KEY) <= request_prio(
                    reqs,
                    st.slots[s].light,
                    NEG_INFINITY_KEY,
                ),
{
    let req = reqs[i];
    let side = tile_of(spec_size_class(req.wanted));
    the_victim_is_the_least_important_eligible(st.slots, st.keep, reqs, side, req.priority, st.slots.len());
    if claim_step(st, reqs, i).evicted == st.evicted + 1 {
        let b = victim_scan(st.slots, st.keep, reqs, side, req.priority, st.slots.len()).unwrap();
        let v = b.0 as int;
        assert(claim_step(st, reqs, i).slots[v].light == NO_LIGHT);
    }
}

/// Slots among the first `n` whose tile has side `side`.
pub open spec fn count_side(slots: Seq<ShadowSlot>, side: u32, n: nat) -> nat
    decreases n,
{
    if n == 0 {
        0
    } else {
        count_side(slots, side, (n - 1) as nat) + if slots[n - 1].rect[2] == side { 1nat } else { 0nat }
    }
}

impl ShadowAtlas {
    pub fn size(&self) -> (s: u32)
        ensures
            s == self@.size,
    {
        self.size
    }

    pub fn budget(&self) -> (b: u64)
        ensures
            b == self@.budget,
    {
        self.budget
    }

    pub fn slots(&self) -> (s: &[ShadowSlot])
        ensures
            s@ == self@.slots,
    {
        self.slots.as_slice()
    }

    /// The free rects, per class.
    pub fn free(&self) -> (f: &[Vec<[u32; 3]>])
        ensures
            f@.len() == self@.free.len(),
            forall|c: int| 0 <= c < f@.len() ==> #[trigger] f@[c]@ == self@.free[c],
    {
        self.free.as_slice()
    }

    /// How many frames the most delayed slot ever waited.
    pub fn worst_stale(&self) -> (w: u32)
        ensures
            w == self@.worst_stale,
    {
        self.worst_stale
    }

    /// How many tiles fit, per class: the free ones and the allocated ones.
    pub fn capacity(&self) -> (cap: Vec<usize>)
        requires
            self@.wf(),
            forall|c: int| 0 <= c < 4 ==> #[trigger] self@.free[c].len() + self@.slots.len() <= usize::MAX,
        ensures
            cap.len() == 4,
            forall|c: int| 0 <= c < 4 ==> #[trigger] cap@[c] == self@.free[c].len() + count_side(
                self@.slots,
                tile_of(c),
                self@.slots.len(),
            ),
    {
        let mut cap: Vec<usize> = Vec::new();
        let mut c: usize = 0;
        proof { lemma_tile_sizes(); }
        while c < 4
            invariant
                c <= 4,
                self@.wf(),
                forall|c: int| 0 <= c < 4 ==> #[trigger] self@.free[c].len() + self@.slots.len() <= usize::MAX,
                cap.len() == c,
                forall|k: int| 0 <= k < c ==> #[trigger] cap@[k] == self@.free[k].len() + count_side(
                    self@.slots,
                    tile_of(k),
                    self@.slots.len(),
                ),
            decreases 4 - c,
        {
            proof { lemma_tile_sizes(); }
            let side = TILE_SIZES[c];
            let mut n: usize = 0;
            let mut i: usize = 0;
            while i < self.slots.len()
                invariant
                    i <= self.slots.len(),
                    n == count_side(self@.slots, side, i as nat),
                    n <= i,
                decreases self.slots.len() - i,
            {
                if self.slots[i].rect[2] == side {
                    n = n + 1;
                }
                i = i + 1;
            }
            assert(self.free@[c as int]@ == self@.free[c as int]);
            let f = self.free[c].len();
            cap.push(f + n);
            c = c + 1;
        }
        cap
    }
}

// ---------------------------------------------------------------------------
// A still scene.
// ---------------------------------------------------------------------------

/// The side of the tile a request asks for.
pub open spec fn side_of(req: ShadowRequest) -> u32 {
    tile_of(spec_size_class(req.wanted))
}

/// The version the first request for `light` at or after `i` asks for.
pub open spec fn request_version_from(reqs: Seq<ShadowRequest>, light: u32, i: int) -> Option<u64>
    decreases reqs.len() - i,
{
    if i < 0 || i >= reqs.len() {
        None
    } else if reqs[i].light == light {
        Some(reqs[i].version)
    } else {
        request_version_from(reqs, light, i + 1)
    }
}

/// A slot holds the version its light asks for.
pub open spec fn up_to_date(slot: ShadowSlot, reqs: Seq<ShadowRequest>) -> bool {
    slot.drawn == request_version_from(reqs, slot.light, 0)
}

/// Some tile of `slots` is held by the light of `req`, in the class it asks
/// for.
pub open spec fn has_tile(slots: Seq<ShadowSlot>, req: ShadowRequest) -> bool {
    exists|s: int| 0 <= s < slots.len() && (#[trigger] slots[s]).light == req.light && slots[s].rect[2] == side_of(req)
}

/// Some request is for `light`.
pub open spec fn is_requested(reqs: Seq<ShadowRequest>, light: u32) -> bool {
    exists|i: int| 0 <= i < reqs.len() && (#[trigger] reqs[i]).light == light
}

/// Every requested light holds exactly one tile, of the class it asks for,
/// and every tile is held by a requested light.
pub open spec fn settled(m: AtlasModel, reqs: Seq<ShadowRequest>) -> bool {
    &&& m.wf()
    &&& m.slots.len() <= usize::MAX
    &&& forall|i: int, j: int|
        0 <= i < j < reqs.len() ==> (#[trigger] reqs[i]).light != (#[trigger] reqs[j]).light
    &&& forall|s: int, t: int|
        0 <= s < t < m.slots.len() ==> (#[trigger] m.slots[s]).light != (#[trigger] m.slots[t]).light
    &&& forall|i: int| 0 <= i < reqs.len() ==> has_tile(m.slots, #[trigger] reqs[i])
    &&& forall|s: int| 0 <= s < m.slots.len() ==> is_requested(reqs, (#[trigger] m.slots[s]).light)
}

/// Slot `s` is the only slot of its light, and of the side asked for: the
/// request finds it.
proof fn lemma_first_slot(slots: Seq<ShadowSlot>, light: u32, side: u32, s: int, i: int)
    requires
        0 <= i <= s < slots.len(),
        slots[s].light == light,
        slots[s].rect[2] == side,
        forall|t: int| 0 <= t < slots.len() && t != s ==> (#[trigger] slots[t]).light != light,
    ensures
        first_slot_from(slots, light, side, i) == Some(s as usize),
    decreases s - i,
{
    if i < s {
        assert(slots[i].light != light);
        lemma_first_slot(slots, light, side, s, i + 1);
    }
}

/// The version asked for a light is the one of its request.
proof fn lemma_request_version(reqs: Seq<ShadowRequest>, i: int, k: int)
    requires
        0 <= k <= i < reqs.len(),
        forall|a: int, b: int| 0 <= a < b < reqs.len() ==> (#[trigger] reqs[a]).light != (#[trigger] reqs[b]).light,
    ensures
        request_version_from(reqs, reqs[i].light, k) == Some(reqs[i].version),
    decreases i - k,
{
    if k < i {
        assert(reqs[k].light != reqs[i].light);
        lemma_request_version(reqs, i, k + 1);
    }
}

/// Every request is served once in the rank order.
proof fn lemma_order_covers(reqs: Seq<ShadowRequest>, i: int)
    requires
        0 <= i < reqs.len(),
        reqs.len() <= usize::MAX,
    ensures
        exists|k: int| 0 <= k < reqs.len() && (#[trigger] request_order(reqs)[k]).index == i,
        request_order(reqs).len() == reqs.len(),
{
    broadcast use vstd::seq_lib::group_to_multiset_ensures;

    let keys = request_keys(reqs);
    crate::rank::lemma_rank_total();
    keys.lemma_sort_by_ensures(crate::rank::rank_order());
    let o = request_order(reqs);
    assert(o.len() == o.to_multiset().len());
    assert(keys.len() == keys.to_multiset().len());
    assert(keys.contains(keys[i]));
    assert(o.to_multiset().count(keys[i]) > 0);
    assert(o.contains(keys[i]));
    let k = choose|k: int| 0 <= k < o.len() && o[k] == keys[i];
    assert(o[k].index == i);
}

/// A kept slot is kept for the request of its own light, at that request's
/// version.
pub open spec fn keep_matches(keep: Seq<Option<(usize, u64)>>, slots: Seq<ShadowSlot>, reqs: Seq<ShadowRequest>) -> bool {
    forall|s: int|
        0 <= s < keep.len() ==> (#[trigger] keep[s] matches Some(k) ==> k.0 < reqs.len() && reqs[k.0 as int].light
            == slots[s].light && k.1 == reqs[k.0 as int].version)
}

/// Slot `s` of `slots` is held by `light`.
pub open spec fn holds_light(slots: Seq<ShadowSlot>, light: u32, s: int) -> bool {
    0 <= s < slots.len() && slots[s].light == light
}

/// The light of the `k`-th request served.
pub open spec fn served_light(reqs: Seq<ShadowRequest>, k: int) -> u32 {
    reqs[request_order(reqs)[k].index as int].light
}

/// What the claim phase has done after `n` requests of a settled atlas.
pub open spec fn claim_settled(m: AtlasModel, reqs: Seq<ShadowRequest>, st: ClaimModel, n: int) -> bool {
    &&& st.slots == m.slots
    &&& st.free == m.free
    &&& st.new_slots.len() == 0
    &&& st.evicted == 0
    &&& st.unplaced == 0
    &&& st.keep.len() == m.slots.len()
    &&& keep_matches(st.keep, m.slots, reqs)
    &&& forall|k: int, t: int|
        0 <= k < n && #[trigger] holds_light(m.slots, served_light(reqs, k), t) ==> st.keep[t] is Some
}

/// One request of a settled atlas keeps the tile of its light.
proof fn lemma_settled_claim_step(m: AtlasModel, reqs: Seq<ShadowRequest>, prev: ClaimModel, n: int)
    requires
        settled(m, reqs),
        0 < n <= reqs.len(),
        reqs.len() <= usize::MAX,
        claim_settled(m, reqs, prev, n - 1),
        forall|j: int| 0 <= j < request_order(reqs).len() ==> (#[trigger] request_order(reqs)[j]).index < reqs.len(),
        request_order(reqs).len() == reqs.len(),
    ensures
        claim_settled(m, reqs, claim_step(prev, reqs, request_order(reqs)[n - 1].index as int), n),
{
    let i = request_order(reqs)[n - 1].index as int;
    let req = reqs[i];
    let side = side_of(req);
    assert(has_tile(m.slots, reqs[i]));
    let s = choose|s: int| 0 <= s < m.slots.len() && (#[trigger] m.slots[s]).light == reqs[i].light
        && m.slots[s].rect[2] == side_of(reqs[i]);
    assert forall|t: int| 0 <= t < m.slots.len() && t != s implies (#[trigger] m.slots[t]).light != req.light by {
        if t < s {
            assert(m.slots[t].light != m.slots[s].light);
        } else {
            assert(m.slots[s].light != m.slots[t].light);
        }
    }
    lemma_first_slot(m.slots, req.light, side, s, 0);
    let st = claim_step(prev, reqs, i);
    assert(st.keep == prev.keep.update(s, Some((i as usize, req.version))));
    assert(keep_matches(st.keep, m.slots, reqs));
    assert forall|k: int, t: int|
        0 <= k < n && #[trigger] holds_light(m.slots, served_light(reqs, k), t) implies st.keep[t] is Some by {
        if k < n - 1 {
            assert(prev.keep[t] is Some);
        } else if t != s {
            assert(m.slots[t].light != req.light);
        }
    }
}

/// In a settled atlas, the claim phase changes no slot: each request keeps
/// the tile of its light, nothing is evicted, nothing is new.
proof fn lemma_settled_claim(m: AtlasModel, reqs: Seq<ShadowRequest>, n: nat)
    requires
        settled(m, reqs),
        n <= reqs.len(),
        reqs.len() <= usize::MAX,
    ensures
        claim_settled(m, reqs, claim_all(m, reqs, n), n as int),
    decreases n,
{
    let keys = request_keys(reqs);
    lemma_ranked_members(keys, reqs.len() as int);
    if n == 0 {
        let st = claim_start(m);
        assert(keep_matches(st.keep, m.slots, reqs));
    } else {
        lemma_settled_claim(m, reqs, (n - 1) as nat);
        lemma_settled_claim_step(m, reqs, claim_all(m, reqs, (n - 1) as nat), n as int);
    }
}

/// A queue entry of a settled table: a slot within the first `n`, out of
/// date, to be drawn at the version its light asks for.
pub open spec fn wanted_ok(w: RankKey, slots: Seq<ShadowSlot>, reqs: Seq<ShadowRequest>, n: int) -> bool {
    &&& w.index < n
    &&& request_version_from(reqs, slots[w.index as int].light, 0) == Some(w.version)
    &&& !up_to_date(slots[w.index as int], reqs)
}

/// What the rebuild has done after `n` slots of a settled claim.
pub open spec fn rebuild_settled(
    cs: ClaimModel,
    old_stale: Seq<u32>,
    reqs: Seq<ShadowRequest>,
    rb: RebuildModel,
    n: int,
) -> bool {
    &&& rb.next == cs.slots.take(n)
    &&& rb.stale == old_stale.take(n)
    &&& rb.free == cs.free
    &&& rb.unplaced == 0
    &&& forall|j: int| 0 <= j < rb.wanted.len() ==> #[trigger] wanted_ok(rb.wanted[j], cs.slots, reqs, n)
    &&& forall|a: int, b: int|
        0 <= a < b < rb.wanted.len() ==> (#[trigger] rb.wanted[a]).index < (#[trigger] rb.wanted[b]).index
    &&& (exists|s: int| 0 <= s < n && !up_to_date(#[trigger] cs.slots[s], reqs)) ==> rb.wanted.len() > 0
}

/// When every slot is kept, the rebuild keeps the table as it is and queues
/// exactly the slots that are out of date.
proof fn lemma_settled_rebuild(cs: ClaimModel, old_stale: Seq<u32>, reqs: Seq<ShadowRequest>, n: nat)
    requires
        n <= cs.slots.len(),
        cs.keep.len() == cs.slots.len(),
        old_stale.len() == cs.slots.len(),
        cs.slots.len() <= usize::MAX,
        forall|s: int| 0 <= s < cs.slots.len() ==> (#[trigger] cs.keep[s]) is Some,
        keep_matches(cs.keep, cs.slots, reqs),
        forall|a: int, b: int| 0 <= a < b < reqs.len() ==> (#[trigger] reqs[a]).light != (#[trigger] reqs[b]).light,
    ensures
        rebuild_settled(cs, old_stale, reqs, rebuild_all(cs, old_stale, reqs, n), n as int),
    decreases n,
{
    if n == 0 {
        let rb = rebuild_all(cs, old_stale, reqs, 0);
        assert(rb.next =~= cs.slots.take(0));
        assert(rb.stale =~= old_stale.take(0));
    } else {
        lemma_settled_rebuild(cs, old_stale, reqs, (n - 1) as nat);
        let prev = rebuild_all(cs, old_stale, reqs, (n - 1) as nat);
        let s = n - 1;
        let slot = cs.slots[s];
        let k = cs.keep[s]->0;
        assert(cs.keep[s] matches Some(kk) && kk == k);
        lemma_request_version(reqs, k.0 as int, 0);
        assert(request_version_from(reqs, slot.light, 0) == Some(k.1));
        let rb = rebuild_all(cs, old_stale, reqs, n);
        assert(rb.next =~= cs.slots.take(n as int));
        assert(rb.stale =~= old_stale.take(n as int));
        assert(prev.next.len() == s);
        assert forall|j: int| 0 <= j < rb.wanted.len() implies #[trigger] wanted_ok(rb.wanted[j], cs.slots, reqs, n as int) by {
            if j < prev.wanted.len() {
                assert(rb.wanted[j] == prev.wanted[j]);
                assert(wanted_ok(prev.wanted[j], cs.slots, reqs, (n - 1) as int));
            }
        }
        assert forall|a: int, b: int| 0 <= a < b < rb.wanted.len() implies (#[trigger] rb.wanted[a]).index < (
        #[trigger] rb.wanted[b]).index by {
            assert(rb.wanted[a] == prev.wanted[a]);
            assert(wanted_ok(prev.wanted[a], cs.slots, reqs, (n - 1) as int));
            if b < prev.wanted.len() {
                assert(rb.wanted[b] == prev.wanted[b]);
            }
        }
        if exists|t: int| 0 <= t < n && !up_to_date(#[trigger] cs.slots[t], reqs) {
            let t = choose|t: int| 0 <= t < n && !up_to_date(#[trigger] cs.slots[t], reqs);
            if t < n - 1 {
                assert(prev.wanted.len() > 0);
            }
        }
    }
}

/// What spending has done to a settled table: the same tiles, no tile back
/// out of date, every drawn tile up to date.
pub open spec fn spend_settled(base: Seq<ShadowSlot>, reqs: Seq<ShadowRequest>, sm: SpendModel) -> bool {
    &&& sm.slots.len() == base.len()
    &&& sm.stale.len() == base.len()
    &&& forall|s: int|
        0 <= s < base.len() ==> (#[trigger] sm.slots[s]).light == base[s].light && sm.slots[s].rect == base[s].rect
    &&& forall|s: int| 0 <= s < base.len() && up_to_date(base[s], reqs) ==> up_to_date(#[trigger] sm.slots[s], reqs)
    &&& forall|j: int|
        0 <= j < sm.render.len() ==> #[trigger] sm.render[j] < base.len() && up_to_date(sm.slots[sm.render[j] as int], reqs)
}

proof fn lemma_settled_spend(
    base: Seq<ShadowSlot>,
    stale: Seq<u32>,
    worst: u32,
    reqs: Seq<ShadowRequest>,
    budget: u64,
    queue: Seq<RankKey>,
    n: nat,
)
    requires
        n <= queue.len(),
        stale.len() == base.len(),
        forall|j: int| 0 <= j < queue.len() ==> #[trigger] wanted_ok(queue[j], base, reqs, base.len() as int),
    ensures
        spend_settled(
            base,
            reqs,
            spend_all(
                SpendModel { slots: base, stale, worst, render: Seq::empty(), texels: 0, deferred: 0 },
                budget,
                queue,
                n,
            ),
        ),
    decreases n,
{
    let sm0 = SpendModel { slots: base, stale, worst, render: Seq::empty(), texels: 0, deferred: 0 };
    if n > 0 {
        lemma_settled_spend(base, stale, worst, reqs, budget, queue, (n - 1) as nat);
        let prev = spend_all(sm0, budget, queue, (n - 1) as nat);
        assert(spend_settled(base, reqs, prev));
        let w = queue[n - 1];
        assert(wanted_ok(w, base, reqs, base.len() as int));
        let idx = w.index as int;
        let sp = spend_all(sm0, budget, queue, n);
        assert(sp == spend_step(prev, budget, w));
        assert(prev.slots[idx].light == base[idx].light);
        assert forall|j: int| 0 <= j < sp.render.len() implies #[trigger] sp.render[j] < base.len() && up_to_date(
            sp.slots[sp.render[j] as int],
            reqs,
        ) by {
            if j < prev.render.len() {
                assert(sp.render[j] == prev.render[j]);
                assert(prev.render[j] < base.len());
                assert(up_to_date(prev.slots[prev.render[j] as int], reqs));
            } else {
                assert(sp.render == prev.render.push(w.index));
                assert(sp.render[j] == w.index);
                assert(w.index < base.len());
            }
        }
        assert forall|t: int| 0 <= t < base.len() && up_to_date(base[t], reqs) implies up_to_date(
            #[trigger] sp.slots[t],
            reqs,
        ) by {
            assert(up_to_date(prev.slots[t], reqs));
        }
        assert(spend_settled(base, reqs, sp));
    } else {
        assert(spend_all(sm0, budget, queue, 0) == sm0);
        assert(spend_settled(base, reqs, sm0));
    }
}

/// The entries of the queue are entries of the wanted list.
proof fn lemma_queue_from_wanted(wanted: Seq<RankKey>, slots: Seq<ShadowSlot>, reqs: Seq<ShadowRequest>, n: int)
    requires
        forall|j: int| 0 <= j < wanted.len() ==> #[trigger] wanted_ok(wanted[j], slots, reqs, n),
    ensures
        ranked(wanted).len() == wanted.len(),
        forall|j: int| 0 <= j < ranked(wanted).len() ==> #[trigger] wanted_ok(ranked(wanted)[j], slots, reqs, n),
{
    broadcast use vstd::seq_lib::group_to_multiset_ensures;

    crate::rank::lemma_rank_total();
    wanted.lemma_sort_by_ensures(crate::rank::rank_order());
    let o = ranked(wanted);
    assert(o.len() == o.to_multiset().len());
    assert(wanted.len() == wanted.to_multiset().len());
    assert forall|j: int| 0 <= j < o.len() implies #[trigger] wanted_ok(o[j], slots, reqs, n) by {
        assert(o.to_multiset().count(o[j]) > 0);
        assert(wanted.contains(o[j]));
        let t = choose|t: int| 0 <= t < wanted.len() && wanted[t] == o[j];
        assert(wanted_ok(wanted[t], slots, reqs, n));
    }
}

/// Some slot of the first `n` is out of date.
pub open spec fn some_out_of_date(slots: Seq<ShadowSlot>, reqs: Seq<ShadowRequest>, n: int) -> bool {
    exists|s: int| 0 <= s < n && !up_to_date(#[trigger] slots[s], reqs)
}

/// The table of a settled atlas after the claim and the rebuild: the same
/// slots, free lists and waits, and a queue of exactly the out-of-date slots.
proof fn lemma_settled_table(m: AtlasModel, reqs: Seq<ShadowRequest>)
    requires
        settled(m, reqs),
        reqs.len() <= usize::MAX,
    ensures
        ({
            let pl = plan_table(m, reqs);
            let len = m.slots.len() as int;
            &&& pl.next == m.slots
            &&& pl.stale == m.stale
            &&& pl.free == m.free
            &&& pl.unplaced == 0
            &&& plan_claim(m, reqs).unplaced == 0
            &&& plan_claim(m, reqs).evicted == 0
            &&& forall|j: int| 0 <= j < pl.wanted.len() ==> #[trigger] wanted_ok(pl.wanted[j], m.slots, reqs, len)
            &&& forall|a: int, b: int|
                0 <= a < b < pl.wanted.len() ==> (#[trigger] pl.wanted[a]).index < (#[trigger] pl.wanted[b]).index
            &&& (pl.wanted.len() > 0 <==> some_out_of_date(m.slots, reqs, len))
        }),
{
    let n = reqs.len();
    lemma_settled_claim(m, reqs, n);
    let cs = plan_claim(m, reqs);
    assert forall|t: int| 0 <= t < cs.slots.len() implies (#[trigger] cs.keep[t]) is Some by {
        assert(is_requested(reqs, m.slots[t].light));
        let i = choose|i: int| 0 <= i < reqs.len() && (#[trigger] reqs[i]).light == m.slots[t].light;
        lemma_order_covers(reqs, i);
        let k = choose|k: int| 0 <= k < reqs.len() && (#[trigger] request_order(reqs)[k]).index == i;
        assert(holds_light(m.slots, served_light(reqs, k), t));
    }
    lemma_settled_rebuild(cs, m.stale, reqs, cs.slots.len());
    let rb = rebuild_all(cs, m.stale, reqs, cs.slots.len());
    let pl = plan_table(m, reqs);
    assert(pl == rb);
    assert(pl.next =~= m.slots);
    assert(pl.stale =~= m.stale);
    let len = m.slots.len() as int;
    if pl.wanted.len() > 0 {
        assert(wanted_ok(pl.wanted[0], m.slots, reqs, len));
        assert(!up_to_date(m.slots[pl.wanted[0].index as int], reqs));
    }
}

/// An atlas with the tiles of a settled one, whatever they hold, is settled.
proof fn lemma_same_tiles_settled(m: AtlasModel, m2: AtlasModel, reqs: Seq<ShadowRequest>)
    requires
        settled(m, reqs),
        m2.wf(),
        m2.slots.len() == m.slots.len(),
        forall|s: int|
            0 <= s < m.slots.len() ==> (#[trigger] m2.slots[s]).light == m.slots[s].light && m2.slots[s].rect
                == m.slots[s].rect,
    ensures
        settled(m2, reqs),
{
    assert forall|s: int, t: int| 0 <= s < t < m2.slots.len() implies (#[trigger] m2.slots[s]).light != (
    #[trigger] m2.slots[t]).light by {
        assert(m.slots[s].light != m.slots[t].light);
    }
    assert forall|i: int| 0 <= i < reqs.len() implies has_tile(m2.slots, #[trigger] reqs[i]) by {
        assert(has_tile(m.slots, reqs[i]));
        let s = choose|s: int| 0 <= s < m.slots.len() && (#[trigger] m.slots[s]).light == reqs[i].light
            && m.slots[s].rect[2] == side_of(reqs[i]);
        assert(m2.slots[s].light == m.slots[s].light && m2.slots[s].rect == m.slots[s].rect);
    }
    assert forall|s: int| 0 <= s < m2.slots.len() implies is_requested(reqs, (#[trigger] m2.slots[s]).light) by {
        assert(is_requested(reqs, m.slots[s].light));
        assert(m2.slots[s].light == m.slots[s].light);
    }
}

/// One plan of a settled atlas, when the requests stay the same: the same
/// tiles, none falls out of date, and if any is out of date the first one
/// drawn was.
#[verifier::rlimit(40)]
proof fn lemma_settled_plan(m: AtlasModel, reqs: Seq<ShadowRequest>)
    requires
        settled(m, reqs),
        reqs.len() <= usize::MAX,
    ensures
        ({
            let m2 = plan_atlas(m, reqs);
            let r = plan_result(m, reqs);
            &&& settled(m2, reqs)
            &&& m2.slots.len() == m.slots.len()
            &&& forall|s: int|
                0 <= s < m.slots.len() ==> (#[trigger] m2.slots[s]).light == m.slots[s].light && m2.slots[s].rect
                    == m.slots[s].rect
            &&& forall|s: int| 0 <= s < m.slots.len() && up_to_date(m.slots[s], reqs) ==> up_to_date(#[trigger] m2.slots[s], reqs)
            &&& r.unplaced == 0 && r.evicted == 0
            &&& (r.render.len() > 0 <==> some_out_of_date(m.slots, reqs, m.slots.len() as int))
            &&& r.render.len() > 0 ==> r.render[0] < m.slots.len() && !up_to_date(m.slots[r.render[0] as int], reqs)
                && up_to_date(m2.slots[r.render[0] as int], reqs)
            &&& !some_out_of_date(m.slots, reqs, m.slots.len() as int) ==> m2 == m
        }),
{
    lemma_settled_table(m, reqs);
    let pl = plan_table(m, reqs);
    let len = m.slots.len() as int;
    lemma_queue_from_wanted(pl.wanted, m.slots, reqs, len);
    let queue = ranked(pl.wanted);
    lemma_settled_spend(m.slots, m.stale, m.worst_stale, reqs, m.budget, queue, queue.len());
    the_most_important_dirty_slot_wins_the_budget(m, reqs);
    let sp = plan_spend(m, reqs);
    let m2 = plan_atlas(m, reqs);
    assert(spend_settled(m.slots, reqs, sp));
    if pl.wanted.len() > 0 {
        assert(wanted_ok(queue[0], m.slots, reqs, len));
        assert(sp.render[0] == queue[0].index);
        assert(sp.render[0] < len && up_to_date(sp.slots[sp.render[0] as int], reqs));
    }
    lemma_same_tiles_settled(m, m2, reqs);
    if !some_out_of_date(m.slots, reqs, len) {
        assert(queue.len() == 0);
        assert(m2.slots == m.slots);
        assert(m2.stale == m.stale);
        assert(m2 == m);
    }
}

/// Out-of-date slots among the first `n`.
pub open spec fn out_of_date_count(slots: Seq<ShadowSlot>, reqs: Seq<ShadowRequest>, n: int) -> nat
    decreases n,
{
    if n <= 0 {
        0
    } else {
        out_of_date_count(slots, reqs, n - 1) + if up_to_date(slots[n - 1], reqs) {
            0nat
        } else {
            1nat
        }
    }
}

/// The atlas after `k` frames of the same requests.
pub open spec fn after_frames(m: AtlasModel, reqs: Seq<ShadowRequest>, k: nat) -> AtlasModel
    decreases k,
{
    if k == 0 {
        m
    } else {
        plan_atlas(after_frames(m, reqs, (k - 1) as nat), reqs)
    }
}

proof fn lemma_count_zero(slots: Seq<ShadowSlot>, reqs: Seq<ShadowRequest>, n: int)
    requires
        0 <= n <= slots.len(),
    ensures
        out_of_date_count(slots, reqs, n) == 0 <==> !some_out_of_date(slots, reqs, n),
    decreases n,
{
    if n > 0 {
        lemma_count_zero(slots, reqs, n - 1);
        if !up_to_date(slots[n - 1], reqs) {
            assert(some_out_of_date(slots, reqs, n));
        }
        if some_out_of_date(slots, reqs, n) {
            let s = choose|s: int| 0 <= s < n && !up_to_date(#[trigger] slots[s], reqs);
            if s < n - 1 {
                assert(some_out_of_date(slots, reqs, n - 1));
            }
        }
    }
}

/// Slots that only come up to date count no more, and one that does counts
/// one less.
proof fn lemma_count_drops(a: Seq<ShadowSlot>, b: Seq<ShadowSlot>, reqs: Seq<ShadowRequest>, n: int, s0: int)
    requires
        0 <= n <= a.len(),
        a.len() == b.len(),
        forall|s: int| 0 <= s < a.len() && up_to_date(a[s], reqs) ==> up_to_date(#[trigger] b[s], reqs),
    ensures
        out_of_date_count(b, reqs, n) <= out_of_date_count(a, reqs, n),
        0 <= s0 < n && !up_to_date(a[s0], reqs) && up_to_date(b[s0], reqs) ==> out_of_date_count(b, reqs, n)
            < out_of_date_count(a, reqs, n),
    decreases n,
{
    if n > 0 {
        lemma_count_drops(a, b, reqs, n - 1, s0);
        assert(up_to_date(a[n - 1], reqs) ==> up_to_date(b[n - 1], reqs));
    }
}

/// A still scene settles: once every requested light holds its tile, the
/// same requests frame after frame leave every tile holding the version its
/// light asks for (what a plan with no budget would draw at once) within as
/// many frames as tiles were out of date. From then on a plan draws nothing
/// and changes nothing. Every frame until then draws at least one tile, and
/// no tile is ever evicted or left out.
pub proof fn a_still_scene_converges_to_no_work(m: AtlasModel, reqs: Seq<ShadowRequest>, k: nat)
    requires
        settled(m, reqs),
        reqs.len() <= usize::MAX,
        k >= out_of_date_count(m.slots, reqs, m.slots.len() as int),
    ensures
        ({
            let mk = after_frames(m, reqs, k);
            &&& settled(mk, reqs)
            &&& forall|s: int| 0 <= s < mk.slots.len() ==> up_to_date(#[trigger] mk.slots[s], reqs)
            &&& plan_result(mk, reqs).render.len() == 0
            &&& plan_atlas(mk, reqs) == mk
        }),
    decreases k,
{
    let d = out_of_date_count(m.slots, reqs, m.slots.len() as int);
    lemma_count_zero(m.slots, reqs, m.slots.len() as int);
    lemma_settled_plan(m, reqs);
    let m1 = plan_atlas(m, reqs);
    if k == 0 {
        assert(d == 0);
        assert forall|s: int| 0 <= s < m.slots.len() implies up_to_date(#[trigger] m.slots[s], reqs) by {
            if !up_to_date(m.slots[s], reqs) {
                assert(some_out_of_date(m.slots, reqs, m.slots.len() as int));
            }
        }
    } else {
        let r = plan_result(m, reqs);
        if d > 0 {
            assert(r.render.len() > 0);
            lemma_count_drops(m.slots, m1.slots, reqs, m.slots.len() as int, r.render[0] as int);
        } else {
            assert(m1 == m);
        }
        assert(out_of_date_count(m1.slots, reqs, m1.slots.len() as int) <= k - 1);
        a_still_scene_converges_to_no_work(m1, reqs, (k - 1) as nat);
        lemma_after_frames_shift(m, reqs, k);
    }
}

/// Nothing waits forever: in a still scene, a tile that is out of date is
/// drawn within as many frames as tiles were out of date, however small the
/// budget.
pub proof fn a_dirty_tile_is_drawn_within_the_queue(m: AtlasModel, reqs: Seq<ShadowRequest>, s: int)
    requires
        settled(m, reqs),
        reqs.len() <= usize::MAX,
        0 <= s < m.slots.len(),
        !up_to_date(m.slots[s], reqs),
    ensures
        exists|t: nat|
            t < out_of_date_count(m.slots, reqs, m.slots.len() as int) && #[trigger] plan_result(
                after_frames(m, reqs, t),
                reqs,
            ).render.contains(s as usize),
    decreases out_of_date_count(m.slots, reqs, m.slots.len() as int),
{
    let len = m.slots.len() as int;
    let d = out_of_date_count(m.slots, reqs, len);
    lemma_settled_plan(m, reqs);
    lemma_count_zero(m.slots, reqs, len);
    assert(some_out_of_date(m.slots, reqs, len));
    let r = plan_result(m, reqs);
    if r.render.contains(s as usize) {
        assert(after_frames(m, reqs, 0) == m);
        assert(plan_result(after_frames(m, reqs, 0), reqs).render.contains(s as usize));
    } else {
        lemma_settled_table(m, reqs);
        let pl = plan_table(m, reqs);
        lemma_queue_from_wanted(pl.wanted, m.slots, reqs, len);
        let queue = ranked(pl.wanted);
        let sm = SpendModel {
            slots: pl.next,
            stale: pl.stale,
            worst: m.worst_stale,
            render: Seq::empty(),
            texels: 0,
            deferred: 0,
        };
        assert forall|k: int| 0 <= k < queue.len() implies (#[trigger] queue[k]).index < sm.slots.len() by {
            assert(wanted_ok(queue[k], m.slots, reqs, len));
        }
        lemma_spend_content(sm, m.budget, queue, queue.len());
        let m1 = plan_atlas(m, reqs);
        assert(m1.slots[s] == m.slots[s]);
        lemma_count_drops(m.slots, m1.slots, reqs, len, r.render[0] as int);
        a_dirty_tile_is_drawn_within_the_queue(m1, reqs, s);
        let d1 = out_of_date_count(m1.slots, reqs, len);
        let t1 = choose|t1: nat|
            t1 < d1 && #[trigger] plan_result(after_frames(m1, reqs, t1), reqs).render.contains(s as usize);
        lemma_after_frames_shift(m, reqs, t1 + 1);
        assert(after_frames(m, reqs, (t1 + 1) as nat) == after_frames(m1, reqs, t1));
        assert(plan_result(after_frames(m, reqs, (t1 + 1) as nat), reqs).render.contains(s as usize));
    }
}

/// The longest wait under way among `stale`, in frames.
pub open spec fn longest_wait(stale: Seq<u32>) -> int
    decreases stale.len(),
{
    if stale.len() == 0 {
        0
    } else {
        let r = longest_wait(stale.drop_last());
        if stale.last() as int > r {
            stale.last() as int
        } else {
            r
        }
    }
}

proof fn lemma_longest_wait(stale: Seq<u32>)
    ensures
        longest_wait(stale) >= 0,
        forall|s: int| 0 <= s < stale.len() ==> #[trigger] stale[s] <= longest_wait(stale),
    decreases stale.len(),
{
    if stale.len() > 0 {
        let d = stale.drop_last();
        lemma_longest_wait(d);
        assert forall|s: int| 0 <= s < stale.len() implies #[trigger] stale[s] <= longest_wait(stale) by {
            if s < stale.len() - 1 {
                assert(stale[s] == d[s]);
            }
        }
    }
}

/// A queue of slots listed once each, in rank order, lists each slot once.
proof fn lemma_queue_distinct(wanted: Seq<RankKey>)
    requires
        forall|a: int, b: int| 0 <= a < b < wanted.len() ==> (#[trigger] wanted[a]).index < (#[trigger] wanted[b]).index,
    ensures
        ranked(wanted).len() == wanted.len(),
        forall|a: int, b: int|
            0 <= a < wanted.len() && 0 <= b < wanted.len() && a != b ==> (#[trigger] ranked(wanted)[a]).index != (
            #[trigger] ranked(wanted)[b]).index,
{
    broadcast use vstd::seq_lib::group_to_multiset_ensures;

    crate::rank::lemma_rank_total();
    wanted.lemma_sort_by_ensures(crate::rank::rank_order());
    let o = ranked(wanted);
    assert(o.len() == o.to_multiset().len());
    assert(wanted.len() == wanted.to_multiset().len());
    assert forall|i: int, j: int| 0 <= i < wanted.len() && 0 <= j < wanted.len() && i != j implies wanted[i]
        != wanted[j] by {
        if i < j {
            assert(wanted[i].index < wanted[j].index);
        } else {
            assert(wanted[j].index < wanted[i].index);
        }
    }
    assert(wanted.no_duplicates());
    wanted.lemma_multiset_has_no_duplicates();
    assert forall|x: RankKey| o.to_multiset().contains(x) implies o.to_multiset().count(x) == 1 by {
        assert(wanted.to_multiset().contains(x));
    }
    o.lemma_multiset_has_no_duplicates_conv();
    assert forall|a: int, b: int| 0 <= a < wanted.len() && 0 <= b < wanted.len() && a != b implies (
    #[trigger] o[a]).index != (#[trigger] o[b]).index by {
        assert(o[a] != o[b]);
        assert(o.to_multiset().count(o[a]) > 0);
        assert(o.to_multiset().count(o[b]) > 0);
        assert(wanted.contains(o[a]));
        assert(wanted.contains(o[b]));
        let p = choose|p: int| 0 <= p < wanted.len() && wanted[p] == o[a];
        let q = choose|q: int| 0 <= q < wanted.len() && wanted[q] == o[b];
        if p < q {
            assert(wanted[p].index < wanted[q].index);
        } else if q < p {
            assert(wanted[q].index < wanted[p].index);
        }
    }
}

/// Spending over slots each queued once: a wait grows by a frame at most,
/// only for a queued slot, and the longest wait recorded stays under any
/// bound that holds one more frame of every out-of-date slot's wait.
proof fn lemma_spend_wait(
    base: Seq<ShadowSlot>,
    stale: Seq<u32>,
    worst: u32,
    reqs: Seq<ShadowRequest>,
    budget: u64,
    queue: Seq<RankKey>,
    n: nat,
    b: int,
)
    requires
        n <= queue.len(),
        stale.len() == base.len(),
        forall|j: int|
            0 <= j < queue.len() ==> (#[trigger] queue[j]).index < base.len() && !up_to_date(
                base[queue[j].index as int],
                reqs,
            ),
        forall|x: int, y: int|
            0 <= x < queue.len() && 0 <= y < queue.len() && x != y ==> (#[trigger] queue[x]).index != (
            #[trigger] queue[y]).index,
        worst <= b,
        forall|s: int| 0 <= s < base.len() && !up_to_date(base[s], reqs) ==> #[trigger] stale[s] + 1 <= b,
    ensures
        ({
            let sp = spend_all(
                SpendModel { slots: base, stale, worst, render: Seq::empty(), texels: 0, deferred: 0 },
                budget,
                queue,
                n,
            );
            &&& sp.stale.len() == base.len()
            &&& forall|s: int| 0 <= s < base.len() ==> #[trigger] sp.stale[s] <= stale[s] + 1
            &&& forall|s: int|
                0 <= s < base.len() && (forall|j: int| 0 <= j < n ==> (#[trigger] queue[j]).index != s) ==> #[trigger] sp.stale[s]
                    == stale[s]
            &&& sp.worst <= b
        }),
    decreases n,
{
    let sm0 = SpendModel { slots: base, stale, worst, render: Seq::empty(), texels: 0, deferred: 0 };
    if n > 0 {
        lemma_spend_wait(base, stale, worst, reqs, budget, queue, (n - 1) as nat, b);
        let prev = spend_all(sm0, budget, queue, (n - 1) as nat);
        let w = queue[n - 1];
        let idx = w.index as int;
        let sp = spend_all(sm0, budget, queue, n);
        assert(sp == spend_step(prev, budget, w));
        assert forall|j: int| 0 <= j < n - 1 implies (#[trigger] queue[j]).index != idx by {
            assert(queue[j].index != queue[n - 1].index);
        }
        assert(prev.stale[idx] == stale[idx]);
        assert(!up_to_date(base[idx], reqs));
        assert(stale[idx] + 1 <= b);
        assert forall|s: int|
            0 <= s < base.len() && (forall|j: int| 0 <= j < n ==> (#[trigger] queue[j]).index != s) implies #[trigger] sp.stale[s]
            == stale[s] by {
            assert(queue[n - 1].index != s);
            assert forall|j: int| 0 <= j < n - 1 implies (#[trigger] queue[j]).index != s by {
                assert(queue[j].index != s);
            }
        }
    } else {
        assert(spend_all(sm0, budget, queue, 0) == sm0);
    }
}

/// One frame of a still scene: a wait grows by a frame at most, and the
/// longest wait recorded stays under any bound that holds one more frame of
/// every out-of-date tile's wait.
proof fn lemma_settled_wait(m: AtlasModel, reqs: Seq<ShadowRequest>, b: int)
    requires
        settled(m, reqs),
        reqs.len() <= usize::MAX,
        m.worst_stale <= b,
        forall|s: int| 0 <= s < m.slots.len() && !up_to_date(m.slots[s], reqs) ==> #[trigger] m.stale[s] + 1 <= b,
    ensures
        plan_atlas(m, reqs).stale.len() == m.stale.len(),
        forall|s: int| 0 <= s < m.stale.len() ==> #[trigger] plan_atlas(m, reqs).stale[s] <= m.stale[s] + 1,
        plan_atlas(m, reqs).worst_stale <= b,
{
    let len = m.slots.len() as int;
    lemma_settled_table(m, reqs);
    let pl = plan_table(m, reqs);
    lemma_queue_from_wanted(pl.wanted, m.slots, reqs, len);
    lemma_queue_distinct(pl.wanted);
    let queue = ranked(pl.wanted);
    assert forall|j: int| 0 <= j < queue.len() implies (#[trigger] queue[j]).index < m.slots.len() && !up_to_date(
        m.slots[queue[j].index as int],
        reqs,
    ) by {
        assert(wanted_ok(queue[j], m.slots, reqs, len));
    }
    lemma_spend_wait(m.slots, m.stale, m.worst_stale, reqs, m.budget, queue, queue.len(), b);
}

/// The wait the atlas can record in a still scene: the longest it had
/// recorded, or the longest under way plus the tiles out of date.
pub open spec fn wait_bound(m: AtlasModel, reqs: Seq<ShadowRequest>) -> int {
    let d = out_of_date_count(m.slots, reqs, m.slots.len() as int);
    let w = longest_wait(m.stale) + d;
    if m.worst_stale as int >= w {
        m.worst_stale as int
    } else {
        w
    }
}

proof fn lemma_frames_wait(m: AtlasModel, reqs: Seq<ShadowRequest>, k: nat)
    requires
        settled(m, reqs),
        reqs.len() <= usize::MAX,
    ensures
        ({
            let mk = after_frames(m, reqs, k);
            let d0 = out_of_date_count(m.slots, reqs, m.slots.len() as int);
            let dk = out_of_date_count(mk.slots, reqs, mk.slots.len() as int);
            &&& settled(mk, reqs)
            &&& mk.slots.len() == m.slots.len()
            &&& forall|s: int| 0 <= s < m.slots.len() ==> #[trigger] mk.stale[s] <= m.stale[s] + k
            &&& dk == 0 || dk + k <= d0
            &&& mk.worst_stale <= wait_bound(m, reqs)
        }),
    decreases k,
{
    let len = m.slots.len() as int;
    let d0 = out_of_date_count(m.slots, reqs, len);
    let bound = wait_bound(m, reqs);
    lemma_longest_wait(m.stale);
    if k == 0 {
        assert(after_frames(m, reqs, 0) == m);
    } else {
        lemma_frames_wait(m, reqs, (k - 1) as nat);
        let prev = after_frames(m, reqs, (k - 1) as nat);
        let mk = after_frames(m, reqs, k);
        assert(mk == plan_atlas(prev, reqs));
        let dp = out_of_date_count(prev.slots, reqs, len);
        lemma_settled_plan(prev, reqs);
        lemma_count_zero(prev.slots, reqs, len);
        if dp == 0 {
            assert(mk == prev);
        } else {
            assert(k <= d0);
            assert forall|s: int| 0 <= s < prev.slots.len() && !up_to_date(prev.slots[s], reqs) implies #[trigger] prev.stale[s]
                + 1 <= bound by {
                assert(prev.stale[s] <= m.stale[s] + (k - 1));
                assert(m.stale[s] <= longest_wait(m.stale));
            }
            lemma_settled_wait(prev, reqs, bound);
            assert forall|s: int| 0 <= s < m.slots.len() implies #[trigger] mk.stale[s] <= m.stale[s] + k by {
                assert(mk.stale[s] <= prev.stale[s] + 1);
                assert(prev.stale[s] <= m.stale[s] + (k - 1));
            }
            let r = plan_result(prev, reqs);
            lemma_count_drops(prev.slots, mk.slots, reqs, len, r.render[0] as int);
        }
    }
}

/// Nothing waits forever, as the atlas counts it: in a still scene, however
/// small the budget, the longest wait it ever records is the longest it had
/// recorded, or at most the longest wait under way plus the number of tiles
/// out of date.
pub proof fn the_longest_wait_is_bounded_by_the_queue(m: AtlasModel, reqs: Seq<ShadowRequest>, k: nat)
    requires
        settled(m, reqs),
        reqs.len() <= usize::MAX,
    ensures
        after_frames(m, reqs, k).worst_stale <= wait_bound(m, reqs),
{
    lemma_frames_wait(m, reqs, k);
}

/// `k` frames are one frame and then `k - 1`.
proof fn lemma_after_frames_shift(m: AtlasModel, reqs: Seq<ShadowRequest>, k: nat)
    requires
        k > 0,
    ensures
        after_frames(m, reqs, k) == after_frames(plan_atlas(m, reqs), reqs, (k - 1) as nat),
    decreases k,
{
    let m1 = plan_atlas(m, reqs);
    if k > 1 {
        lemma_after_frames_shift(m, reqs, (k - 1) as nat);
        assert(after_frames(m, reqs, k) == plan_atlas(after_frames(m, reqs, (k - 1) as nat), reqs));
        assert(after_frames(m1, reqs, (k - 1) as nat) == plan_atlas(after_frames(m1, reqs, (k - 2) as nat), reqs));
    } else {
        assert(after_frames(m, reqs, 1) == plan_atlas(after_frames(m, reqs, 0), reqs));
        assert(after_frames(m1, reqs, 0) == m1);
    }
}

proof fn lemma_spend_count(sm: SpendModel, budget: u64, queue: Seq<RankKey>, n: nat)
    requires
        n <= queue.len(),
    ensures
        spend_all(sm, budget, queue, n).render.len() <= sm.render.len() + n,
    decreases n,
{
    if n > 0 {
        lemma_spend_count(sm, budget, queue, (n - 1) as nat);
    }
}

/// The requests with the version of request `i` changed to `v`.
pub open spec fn moved(reqs: Seq<ShadowRequest>, i: int, v: u64) -> Seq<ShadowRequest> {
    reqs.update(i, ShadowRequest { version: v, ..reqs[i] })
}

/// Moving one light of a settled, up-to-date atlas redraws that light's
/// tile and nothing else.
pub proof fn only_the_light_that_moved_is_redrawn(m: AtlasModel, reqs: Seq<ShadowRequest>, i: int, v: u64)
    requires
        settled(m, reqs),
        reqs.len() <= usize::MAX,
        forall|s: int| 0 <= s < m.slots.len() ==> up_to_date(#[trigger] m.slots[s], reqs),
        0 <= i < reqs.len(),
        v != reqs[i].version,
    ensures
        ({
            let r = plan_result(m, moved(reqs, i, v));
            &&& r.render.len() == 1
            &&& m.slots[r.render[0] as int].light == reqs[i].light
        }),
{
    let reqs2 = moved(reqs, i, v);
    assert forall|a: int| 0 <= a < reqs.len() implies (#[trigger] reqs2[a]).light == reqs[a].light && (a != i
        ==> reqs2[a] == reqs[a]) by {
    }
    assert(settled(m, reqs2)) by {
        assert forall|a: int, b: int| 0 <= a < b < reqs2.len() implies (#[trigger] reqs2[a]).light != (
        #[trigger] reqs2[b]).light by {
            assert(reqs[a].light != reqs[b].light);
        }
        assert forall|a: int| 0 <= a < reqs2.len() implies has_tile(m.slots, #[trigger] reqs2[a]) by {
            assert(has_tile(m.slots, reqs[a]));
            assert(side_of(reqs2[a]) == side_of(reqs[a]));
            let s = choose|s: int| 0 <= s < m.slots.len() && (#[trigger] m.slots[s]).light == reqs[a].light
                && m.slots[s].rect[2] == side_of(reqs[a]);
            assert(m.slots[s].light == reqs2[a].light);
        }
        assert forall|s: int| 0 <= s < m.slots.len() implies is_requested(reqs2, (#[trigger] m.slots[s]).light) by {
            assert(is_requested(reqs, m.slots[s].light));
            let a = choose|a: int| 0 <= a < reqs.len() && (#[trigger] reqs[a]).light == m.slots[s].light;
            assert(reqs2[a].light == m.slots[s].light);
        }
    }
    // The tile of light `i`, and the only one out of date.
    assert(has_tile(m.slots, reqs[i]));
    let si = choose|s: int| 0 <= s < m.slots.len() && (#[trigger] m.slots[s]).light == reqs[i].light
        && m.slots[s].rect[2] == side_of(reqs[i]);
    lemma_request_version(reqs, i, 0);
    assert forall|a: int, b: int| 0 <= a < b < reqs2.len() implies (#[trigger] reqs2[a]).light != (
    #[trigger] reqs2[b]).light by {
        assert(reqs[a].light != reqs[b].light);
    }
    lemma_request_version(reqs2, i, 0);
    assert(up_to_date(m.slots[si], reqs));
    assert(!up_to_date(m.slots[si], reqs2));
    assert forall|s: int| 0 <= s < m.slots.len() && s != si implies up_to_date(#[trigger] m.slots[s], reqs2) by {
        assert(is_requested(reqs, m.slots[s].light));
        let a = choose|a: int| 0 <= a < reqs.len() && (#[trigger] reqs[a]).light == m.slots[s].light;
        if a == i {
            if s < si {
                assert(m.slots[s].light != m.slots[si].light);
            } else {
                assert(m.slots[si].light != m.slots[s].light);
            }
        }
        lemma_request_version(reqs, a, 0);
        lemma_request_version(reqs2, a, 0);
        assert(up_to_date(m.slots[s], reqs));
    }
    let len = m.slots.len() as int;
    assert(some_out_of_date(m.slots, reqs2, len));
    lemma_settled_table(m, reqs2);
    let pl = plan_table(m, reqs2);
    assert(pl.wanted.len() > 0);
    assert forall|j: int| 0 <= j < pl.wanted.len() implies (#[trigger] pl.wanted[j]).index == si by {
        assert(wanted_ok(pl.wanted[j], m.slots, reqs2, len));
    }
    if pl.wanted.len() > 1 {
        assert(pl.wanted[0].index < pl.wanted[1].index);
    }
    assert(pl.wanted.len() == 1);
    lemma_queue_from_wanted(pl.wanted, m.slots, reqs2, len);
    let queue = ranked(pl.wanted);
    the_most_important_dirty_slot_wins_the_budget(m, reqs2);
    let sm0 = SpendModel { slots: pl.next, stale: pl.stale, worst: m.worst_stale, render: Seq::empty(), texels: 0, deferred: 0 };
    lemma_spend_count(sm0, m.budget, queue, queue.len());
    let r = plan_result(m, reqs2);
    assert(r.render[0] == queue[0].index);
    assert(wanted_ok(queue[0], m.slots, reqs2, len));
    assert(!up_to_date(m.slots[queue[0].index as int], reqs2));
    assert(queue[0].index == si);
}

/// An atlas that has handed out no tile yet, whose free tiles have the side
/// of their class.
pub open spec fn fresh(m: AtlasModel) -> bool {
    &&& m.wf()
    &&& m.slots.len() == 0
    &&& forall|c: int, k: int| 0 <= c < 4 && 0 <= k < m.free[c].len() ==> (#[trigger] m.free[c][k])[2] == tile_of(c)
}

/// Every class that is asked for has a free tile for every request.
pub open spec fn room_for_all(m: AtlasModel, reqs: Seq<ShadowRequest>) -> bool {
    forall|i: int| 0 <= i < reqs.len() ==> m.free[spec_size_class((#[trigger] reqs[i]).wanted)].len() >= reqs.len()
}

/// The `k`-th request in rank order, as the claim phase queues it.
pub open spec fn queued(reqs: Seq<ShadowRequest>, k: int) -> (u32, usize, u64) {
    let r = reqs[request_order(reqs)[k].index as int];
    (r.light, spec_size_class(r.wanted) as usize, r.version)
}

/// The requests are served in an order that names each once.
proof fn lemma_order_distinct(reqs: Seq<ShadowRequest>)
    requires
        reqs.len() <= usize::MAX,
    ensures
        request_order(reqs).len() == reqs.len(),
        forall|a: int, b: int|
            0 <= a < b < reqs.len() ==> (#[trigger] request_order(reqs)[a]).index != (#[trigger] request_order(
                reqs,
            )[b]).index,
        forall|a: int| 0 <= a < reqs.len() ==> (#[trigger] request_order(reqs)[a]).index < reqs.len(),
{
    broadcast use vstd::seq_lib::group_to_multiset_ensures;

    let keys = request_keys(reqs);
    lemma_ranked_members(keys, reqs.len() as int);
    crate::rank::lemma_rank_total();
    keys.lemma_sort_by_ensures(crate::rank::rank_order());
    let o = request_order(reqs);
    assert(o.len() == o.to_multiset().len());
    assert(keys.len() == keys.to_multiset().len());
    assert forall|a: int, b: int| 0 <= a < keys.len() && 0 <= b < keys.len() && a != b implies keys[a] != keys[b] by {
        assert(keys[a].index == a as usize && keys[b].index == b as usize);
    }
    assert(keys.no_duplicates());
    keys.lemma_multiset_has_no_duplicates();
    assert forall|x: RankKey| o.to_multiset().contains(x) implies o.to_multiset().count(x) == 1 by {
        assert(keys.to_multiset().contains(x));
    }
    o.lemma_multiset_has_no_duplicates_conv();
    assert forall|a: int, b: int| 0 <= a < b < reqs.len() implies (#[trigger] o[a]).index != (#[trigger] o[b]).index by {
        assert(o.to_multiset().count(o[a]) > 0 && o.to_multiset().count(o[b]) > 0);
        assert(keys.contains(o[a]) && keys.contains(o[b]));
        let ta = choose|t: int| 0 <= t < keys.len() && keys[t] == o[a];
        let tb = choose|t: int| 0 <= t < keys.len() && keys[t] == o[b];
        assert(keys[ta].index == ta as usize && keys[tb].index == tb as usize);
        assert(o[a] != o[b]);
    }
}

/// From a fresh atlas, the claim phase queues every request, in rank order.
proof fn lemma_fresh_claim(m: AtlasModel, reqs: Seq<ShadowRequest>, n: nat)
    requires
        fresh(m),
        room_for_all(m, reqs),
        n <= reqs.len(),
        reqs.len() <= usize::MAX,
    ensures
        ({
            let st = claim_all(m, reqs, n);
            &&& st.slots == m.slots
            &&& st.free == m.free
            &&& st.keep.len() == 0
            &&& st.evicted == 0
            &&& st.unplaced == 0
            &&& st.new_slots.len() == n
            &&& forall|k: int| 0 <= k < n ==> #[trigger] st.new_slots[k] == queued(reqs, k)
        }),
    decreases n,
{
    lemma_order_distinct(reqs);
    if n > 0 {
        lemma_fresh_claim(m, reqs, (n - 1) as nat);
        let prev = claim_all(m, reqs, (n - 1) as nat);
        let i = request_order(reqs)[n - 1].index as int;
        let req = reqs[i];
        let class = spec_size_class(req.wanted);
        assert(first_slot_from(prev.slots, req.light, tile_of(class), 0) is None);
        assert(m.free[class].len() >= reqs.len());
        let st = claim_all(m, reqs, n);
        assert(st.new_slots == prev.new_slots.push((req.light, class as usize, req.version)));
        assert forall|k: int| 0 <= k < n implies #[trigger] st.new_slots[k] == queued(reqs, k) by {
            if k < n - 1 {
                assert(st.new_slots[k] == prev.new_slots[k]);
            }
        }
    } else {
        assert(claim_start(m).keep.len() == 0);
    }
}

/// What placing the first `n` queued requests did to a fresh atlas's table.
pub open spec fn placed_fresh(m: AtlasModel, reqs: Seq<ShadowRequest>, rb: RebuildModel, n: int) -> bool {
    &&& rb.next.len() == n
    &&& rb.stale.len() == n
    &&& rb.unplaced == 0
    &&& rb.free.len() == 4
    &&& forall|c: int| 0 <= c < 4 ==> (#[trigger] rb.free[c]).len() + n >= m.free[c].len()
    &&& forall|c: int, k: int| 0 <= c < 4 && 0 <= k < rb.free[c].len() ==> (#[trigger] rb.free[c][k])[2] == tile_of(c)
    &&& forall|j: int|
        0 <= j < n ==> (#[trigger] rb.next[j]).light == queued(reqs, j).0 && rb.next[j].rect[2] == tile_of(
            queued(reqs, j).1 as int,
        )
}

/// From a fresh atlas with room for all, every queued request is placed.
proof fn lemma_fresh_place(m: AtlasModel, reqs: Seq<ShadowRequest>, rb0: RebuildModel, n: nat)
    requires
        fresh(m),
        room_for_all(m, reqs),
        n <= reqs.len(),
        reqs.len() <= usize::MAX,
        placed_fresh(m, reqs, rb0, 0),
    ensures
        placed_fresh(
            m,
            reqs,
            place_all(rb0, reqs, Seq::new(reqs.len(), |k: int| queued(reqs, k)), n),
            n as int,
        ),
    decreases n,
{
    let news = Seq::new(reqs.len(), |k: int| queued(reqs, k));
    if n > 0 {
        lemma_fresh_place(m, reqs, rb0, (n - 1) as nat);
        lemma_order_distinct(reqs);
        let prev = place_all(rb0, reqs, news, (n - 1) as nat);
        let ns = news[n - 1];
        let i = request_order(reqs)[n - 1].index as int;
        let class = ns.1 as int;
        assert(class == spec_size_class(reqs[i].wanted));
        assert(m.free[class].len() >= reqs.len());
        assert(prev.free[class].len() + (n - 1) >= m.free[class].len());
        assert(prev.free[class].len() > 0);
        let rb = place_all(rb0, reqs, news, n);
        assert(rb == place_step(prev, reqs, ns));
        assert forall|c: int| 0 <= c < 4 implies (#[trigger] rb.free[c]).len() + n >= m.free[c].len() by {
            assert(prev.free[c].len() + (n - 1) >= m.free[c].len());
        }
        assert forall|c: int, k: int| 0 <= c < 4 && 0 <= k < rb.free[c].len() implies (#[trigger] rb.free[c][k])[2]
            == tile_of(c) by {
            if c == class {
                assert(rb.free[c][k] == prev.free[c][k]);
            } else {
                assert(rb.free[c] == prev.free[c]);
            }
        }
        let rect = prev.free[class].last();
        assert(rect == prev.free[class][prev.free[class].len() - 1]);
        assert(rect[2] == tile_of(class));
        assert forall|j: int| 0 <= j < n implies (#[trigger] rb.next[j]).light == queued(reqs, j).0
            && rb.next[j].rect[2] == tile_of(queued(reqs, j).1 as int) by {
            if j < n - 1 {
                assert(rb.next[j] == prev.next[j]);
            }
        }
    }
}

/// Spending changes what tiles hold, never which light holds which tile.
proof fn lemma_spend_keeps_tiles(sm: SpendModel, budget: u64, queue: Seq<RankKey>, n: nat)
    requires
        n <= queue.len(),
        sm.stale.len() == sm.slots.len(),
        forall|j: int| 0 <= j < queue.len() ==> (#[trigger] queue[j]).index < sm.slots.len(),
    ensures
        ({
            let sp = spend_all(sm, budget, queue, n);
            &&& sp.slots.len() == sm.slots.len()
            &&& sp.stale.len() == sm.slots.len()
            &&& forall|s: int|
                0 <= s < sm.slots.len() ==> (#[trigger] sp.slots[s]).light == sm.slots[s].light && sp.slots[s].rect
                    == sm.slots[s].rect
        }),
    decreases n,
{
    if n > 0 {
        lemma_spend_keeps_tiles(sm, budget, queue, (n - 1) as nat);
    }
}

/// A fresh atlas with a free tile for every request in every class asked
/// for is settled by its first plan: every light gets a tile of its class,
/// none is left out or evicted.
pub proof fn a_fresh_atlas_settles_in_one_frame(m: AtlasModel, reqs: Seq<ShadowRequest>)
    requires
        fresh(m),
        room_for_all(m, reqs),
        reqs.len() <= usize::MAX,
        forall|i: int, j: int| 0 <= i < j < reqs.len() ==> (#[trigger] reqs[i]).light != (#[trigger] reqs[j]).light,
    ensures
        settled(plan_atlas(m, reqs), reqs),
        plan_result(m, reqs).unplaced == 0,
        plan_result(m, reqs).evicted == 0,
{
    let n = reqs.len();
    lemma_order_distinct(reqs);
    lemma_fresh_claim(m, reqs, n);
    let cs = plan_claim(m, reqs);
    let news = Seq::new(n, |k: int| queued(reqs, k));
    assert(cs.new_slots =~= news);
    let rb0 = rebuild_all(cs, m.stale, reqs, 0);
    assert(rb0.next.len() == 0 && rb0.stale.len() == 0 && rb0.free == m.free);
    assert(placed_fresh(m, reqs, rb0, 0));
    lemma_fresh_place(m, reqs, rb0, n);
    let pl = plan_table(m, reqs);
    assert(pl == place_all(rb0, reqs, news, n));
    assert(placed_fresh(m, reqs, pl, n as int));
    // Spending keeps the tiles.
    let queue = ranked(pl.wanted);
    lemma_wanted_len(rb0, reqs, news, n);
    lemma_ranked_members(pl.wanted, pl.next.len() as int);
    let sm0 = SpendModel { slots: pl.next, stale: pl.stale, worst: m.worst_stale, render: Seq::empty(), texels: 0, deferred: 0 };
    lemma_spend_keeps_tiles(sm0, m.budget, queue, queue.len());
    let m2 = plan_atlas(m, reqs);
    assert forall|s: int, t: int| 0 <= s < t < m2.slots.len() implies (#[trigger] m2.slots[s]).light != (
    #[trigger] m2.slots[t]).light by {
        let a = request_order(reqs)[s].index as int;
        let b = request_order(reqs)[t].index as int;
        assert(a != b);
        if a < b {
            assert(reqs[a].light != reqs[b].light);
        } else {
            assert(reqs[b].light != reqs[a].light);
        }
    }
    assert forall|i: int| 0 <= i < reqs.len() implies has_tile(m2.slots, #[trigger] reqs[i]) by {
        lemma_order_covers(reqs, i);
        let k = choose|k: int| 0 <= k < reqs.len() && (#[trigger] request_order(reqs)[k]).index == i;
        assert(m2.slots[k].light == pl.next[k].light && m2.slots[k].rect == pl.next[k].rect);
    }
    assert forall|s: int| 0 <= s < m2.slots.len() implies is_requested(reqs, (#[trigger] m2.slots[s]).light) by {
        let a = request_order(reqs)[s].index as int;
        assert(m2.slots[s].light == pl.next[s].light);
        assert(reqs[a].light == m2.slots[s].light);
    }
}

/// The slots the placement queues are among the slots it placed.
proof fn lemma_wanted_len(rb0: RebuildModel, reqs: Seq<ShadowRequest>, news: Seq<(u32, usize, u64)>, n: nat)
    requires
        rb0.wanted.len() == 0,
        rb0.next.len() == 0,
        n <= news.len(),
    ensures
        place_all(rb0, reqs, news, n).wanted.len() <= place_all(rb0, reqs, news, n).next.len(),
        forall|j: int|
            0 <= j < place_all(rb0, reqs, news, n).wanted.len() ==> (#[trigger] place_all(rb0, reqs, news, n).wanted[j]).index
                < place_all(rb0, reqs, news, n).next.len(),
    decreases n,
{
    if n > 0 {
        lemma_wanted_len(rb0, reqs, news, (n - 1) as nat);
    }
}

proof fn lemma_count_at_most(slots: Seq<ShadowSlot>, reqs: Seq<ShadowRequest>, n: int)
    requires
        0 <= n,
    ensures
        out_of_date_count(slots, reqs, n) <= n,
    decreases n,
{
    if n > 0 {
        lemma_count_at_most(slots, reqs, n - 1);
    }
}

/// From a fresh atlas with room for every request, a still scene needs no
/// more than one frame more than it has lights to draw every shadow at the
/// version asked for; after that, no work.
pub proof fn a_still_scene_from_a_fresh_atlas_converges(m: AtlasModel, reqs: Seq<ShadowRequest>, k: nat)
    requires
        fresh(m),
        room_for_all(m, reqs),
        reqs.len() <= usize::MAX,
        forall|i: int, j: int| 0 <= i < j < reqs.len() ==> (#[trigger] reqs[i]).light != (#[trigger] reqs[j]).light,
        k > reqs.len(),
    ensures
        ({
            let mk = after_frames(m, reqs, k);
            &&& forall|s: int| 0 <= s < mk.slots.len() ==> up_to_date(#[trigger] mk.slots[s], reqs)
            &&& forall|i: int| 0 <= i < reqs.len() ==> has_tile(mk.slots, #[trigger] reqs[i])
            &&& plan_result(mk, reqs).render.len() == 0
            &&& plan_atlas(mk, reqs) == mk
        }),
{
    a_fresh_atlas_settles_in_one_frame(m, reqs);
    let m1 = plan_atlas(m, reqs);
    lemma_count_at_most(m1.slots, reqs, m1.slots.len() as int);
    assert(m1.slots.len() == reqs.len()) by {
        lemma_fresh_slot_count(m, reqs);
    }
    a_still_scene_converges_to_no_work(m1, reqs, (k - 1) as nat);
    lemma_after_frames_shift(m, reqs, k);
}

/// A fresh atlas with room for all holds one tile per request after its
/// first plan.
proof fn lemma_fresh_slot_count(m: AtlasModel, reqs: Seq<ShadowRequest>)
    requires
        fresh(m),
        room_for_all(m, reqs),
        reqs.len() <= usize::MAX,
    ensures
        plan_atlas(m, reqs).slots.len() == reqs.len(),
{
    let n = reqs.len();
    lemma_fresh_claim(m, reqs, n);
    let cs = plan_claim(m, reqs);
    let news = Seq::new(n, |k: int| queued(reqs, k));
    assert(cs.new_slots =~= news);
    let rb0 = rebuild_all(cs, m.stale, reqs, 0);
    assert(placed_fresh(m, reqs, rb0, 0));
    lemma_fresh_place(m, reqs, rb0, n);
    let pl = plan_table(m, reqs);
    assert(pl == place_all(rb0, reqs, news, n));
    lemma_wanted_len(rb0, reqs, news, n);
    lemma_ranked_members(pl.wanted, pl.next.len() as int);
    let queue = ranked(pl.wanted);
    let sm0 = SpendModel { slots: pl.next, stale: pl.stale, worst: m.worst_stale, render: Seq::empty(), texels: 0, deferred: 0 };
    lemma_spend_keeps_tiles(sm0, m.budget, queue, queue.len());
}

/// Frames of a still scene keep a settled atlas settled, every light on the
/// tile it held.
proof fn lemma_frames_keep_tiles(m: AtlasModel, reqs: Seq<ShadowRequest>, k: nat)
    requires
        settled(m, reqs),
        reqs.len() <= usize::MAX,
    ensures
        ({
            let mk = after_frames(m, reqs, k);
            &&& settled(mk, reqs)
            &&& mk.slots.len() == m.slots.len()
            &&& forall|s: int|
                0 <= s < m.slots.len() ==> (#[trigger] mk.slots[s]).light == m.slots[s].light && mk.slots[s].rect
                    == m.slots[s].rect
        }),
    decreases k,
{
    if k > 0 {
        lemma_frames_keep_tiles(m, reqs, (k - 1) as nat);
        lemma_settled_plan(after_frames(m, reqs, (k - 1) as nat), reqs);
    }
}

/// In a still scene the budget is an optimisation, not a change of answer:
/// from a settled atlas, the same requests run on any budget, a limitless
/// one included, end within as many frames as tiles were out of date in the
/// very same tiles: each light on the rect it held, drawn at the version it
/// asks for.
pub proof fn the_budget_does_not_change_the_answer(m: AtlasModel, reqs: Seq<ShadowRequest>, budget: u64, k: nat)
    requires
        settled(m, reqs),
        reqs.len() <= usize::MAX,
        k >= out_of_date_count(m.slots, reqs, m.slots.len() as int),
    ensures
        after_frames(AtlasModel { budget, ..m }, reqs, k).slots == after_frames(m, reqs, k).slots,
        after_frames(m, reqs, k).slots.len() == m.slots.len(),
        forall|s: int|
            0 <= s < m.slots.len() ==> #[trigger] after_frames(m, reqs, k).slots[s] == (ShadowSlot {
                light: m.slots[s].light,
                rect: m.slots[s].rect,
                drawn: request_version_from(reqs, m.slots[s].light, 0),
            }),
{
    let m2 = AtlasModel { budget, ..m };
    assert(settled(m2, reqs));
    a_still_scene_converges_to_no_work(m, reqs, k);
    a_still_scene_converges_to_no_work(m2, reqs, k);
    lemma_frames_keep_tiles(m, reqs, k);
    lemma_frames_keep_tiles(m2, reqs, k);
    let a = after_frames(m, reqs, k);
    let b = after_frames(m2, reqs, k);
    assert forall|s: int| 0 <= s < m.slots.len() implies #[trigger] a.slots[s] == (ShadowSlot {
        light: m.slots[s].light,
        rect: m.slots[s].rect,
        drawn: request_version_from(reqs, m.slots[s].light, 0),
    }) && b.slots[s] == a.slots[s] by {
        assert(up_to_date(a.slots[s], reqs));
        assert(up_to_date(b.slots[s], reqs));
    }
    assert(b.slots =~= a.slots);
}

// ---------------------------------------------------------------------------
// What a plan draws.
// ---------------------------------------------------------------------------

/// Some request for `light` asks for version `v`.
pub open spec fn asked(reqs: Seq<ShadowRequest>, light: u32, v: u64) -> bool {
    exists|i: int| 0 <= i < reqs.len() && (#[trigger] reqs[i]).light == light && reqs[i].version == v
}

/// What drawing the tiles `render` of `slots` costs, in texels.
pub open spec fn render_cost(slots: Seq<ShadowSlot>, render: Seq<usize>) -> int
    decreases render.len(),
{
    if render.len() == 0 {
        0
    } else {
        render_cost(slots, render.drop_last()) + tile_cost(slots[render.last() as int])
    }
}

proof fn lemma_first_slot_found(slots: Seq<ShadowSlot>, light: u32, side: u32, i: int)
    requires
        slots.len() <= usize::MAX,
    ensures
        first_slot_from(slots, light, side, i) matches Some(e) ==> e < slots.len() && slots[e as int].light == light,
    decreases slots.len() - i,
{
    if 0 <= i < slots.len() && !(slots[i].light == light && slots[i].rect[2] == side) {
        lemma_first_slot_found(slots, light, side, i + 1);
    }
}

/// Every claim names the request it comes from.
pub open spec fn claim_asked(st: ClaimModel, reqs: Seq<ShadowRequest>, len: int) -> bool {
    &&& st.slots.len() == len
    &&& st.keep.len() == len
    &&& forall|s: int|
        0 <= s < len && (#[trigger] st.keep[s]) is Some ==> {
            let k = st.keep[s]->0;
            &&& k.0 < reqs.len()
            &&& reqs[k.0 as int].light == st.slots[s].light
            &&& reqs[k.0 as int].version == k.1
        }
    &&& forall|j: int| 0 <= j < st.new_slots.len() ==> asked(reqs, (#[trigger] st.new_slots[j]).0, st.new_slots[j].2)
}

proof fn lemma_claim_asked(m: AtlasModel, reqs: Seq<ShadowRequest>, n: nat)
    requires
        n <= reqs.len(),
        m.slots.len() <= usize::MAX,
    ensures
        claim_asked(claim_all(m, reqs, n), reqs, m.slots.len() as int),
    decreases n,
{
    if n > 0 {
        lemma_claim_asked(m, reqs, (n - 1) as nat);
        let prev = claim_all(m, reqs, (n - 1) as nat);
        crate::rank::lemma_ranked_indices(request_keys(reqs), reqs.len() as int);
        let i = request_order(reqs)[n - 1].index as int;
        assert(0 <= i < reqs.len());
        let req = reqs[i];
        let side = tile_of(spec_size_class(req.wanted));
        lemma_first_slot_found(prev.slots, req.light, side, 0);
        lemma_victim_scan(prev.slots, prev.keep, reqs, side, req.priority, prev.slots.len());
        let cur = claim_all(m, reqs, n);
        assert(cur == claim_step(prev, reqs, i));
        assert forall|j: int| 0 <= j < cur.new_slots.len() implies asked(
            reqs,
            (#[trigger] cur.new_slots[j]).0,
            cur.new_slots[j].2,
        ) by {
            if j < prev.new_slots.len() {
                assert(cur.new_slots[j] == prev.new_slots[j]);
            } else {
                assert(cur.new_slots[j] == (req.light, spec_size_class(req.wanted) as usize, req.version));
                assert(reqs[i].light == req.light);
            }
        }
    } else {
        let st = claim_all(m, reqs, 0);
        assert(st == claim_start(m));
    }
}

/// Every dirty tile of a table is queued at a version asked for its light.
pub open spec fn table_asked(rb: RebuildModel, reqs: Seq<ShadowRequest>) -> bool {
    forall|k: int|
        0 <= k < rb.wanted.len() ==> (#[trigger] rb.wanted[k]).index < rb.next.len() && asked(
            reqs,
            rb.next[rb.wanted[k].index as int].light,
            rb.wanted[k].version,
        )
}

proof fn lemma_rebuild_asked(cs: ClaimModel, old_stale: Seq<u32>, reqs: Seq<ShadowRequest>, n: nat)
    requires
        n <= cs.slots.len(),
        cs.slots.len() <= usize::MAX,
        claim_asked(cs, reqs, cs.slots.len() as int),
    ensures
        table_asked(rebuild_all(cs, old_stale, reqs, n), reqs),
        rebuild_all(cs, old_stale, reqs, n).next.len() <= n,
    decreases n,
{
    if n > 0 {
        lemma_rebuild_asked(cs, old_stale, reqs, (n - 1) as nat);
        let prev = rebuild_all(cs, old_stale, reqs, (n - 1) as nat);
        let cur = rebuild_all(cs, old_stale, reqs, n);
        let s = n - 1;
        assert forall|k: int| 0 <= k < cur.wanted.len() implies (#[trigger] cur.wanted[k]).index < cur.next.len()
            && asked(reqs, cur.next[cur.wanted[k].index as int].light, cur.wanted[k].version) by {
            if k < prev.wanted.len() {
                assert(cur.wanted[k] == prev.wanted[k]);
                assert(cur.next[prev.wanted[k].index as int] == prev.next[prev.wanted[k].index as int]);
            } else {
                let kk = cs.keep[s]->0;
                assert(cs.keep[s] is Some);
                assert(cur.next[prev.next.len() as int] == cs.slots[s]);
                assert(reqs[kk.0 as int].light == cs.slots[s].light);
            }
        }
    }
}

proof fn lemma_place_asked(rb: RebuildModel, reqs: Seq<ShadowRequest>, news: Seq<(u32, usize, u64)>, n: nat)
    requires
        n <= news.len(),
        rb.next.len() + news.len() <= usize::MAX,
        table_asked(rb, reqs),
        forall|j: int| 0 <= j < news.len() ==> asked(reqs, (#[trigger] news[j]).0, news[j].2),
    ensures
        table_asked(place_all(rb, reqs, news, n), reqs),
        place_all(rb, reqs, news, n).next.len() <= rb.next.len() + n,
    decreases n,
{
    if n > 0 {
        lemma_place_asked(rb, reqs, news, (n - 1) as nat);
        let prev = place_all(rb, reqs, news, (n - 1) as nat);
        let cur = place_all(rb, reqs, news, n);
        let ns = news[n - 1];
        assert(asked(reqs, ns.0, ns.2));
        assert forall|k: int| 0 <= k < cur.wanted.len() implies (#[trigger] cur.wanted[k]).index < cur.next.len()
            && asked(reqs, cur.next[cur.wanted[k].index as int].light, cur.wanted[k].version) by {
            if k < prev.wanted.len() {
                assert(cur.wanted[k] == prev.wanted[k]);
                assert(cur.next[prev.wanted[k].index as int] == prev.next[prev.wanted[k].index as int]);
            }
        }
    }
}

/// The queue holds the entries of the wanted list.
proof fn lemma_queue_asked(pl: RebuildModel, reqs: Seq<ShadowRequest>)
    requires
        table_asked(pl, reqs),
    ensures
        ranked(pl.wanted).len() == pl.wanted.len(),
        forall|j: int|
            0 <= j < ranked(pl.wanted).len() ==> (#[trigger] ranked(pl.wanted)[j]).index < pl.next.len() && asked(
                reqs,
                pl.next[ranked(pl.wanted)[j].index as int].light,
                ranked(pl.wanted)[j].version,
            ),
{
    broadcast use vstd::seq_lib::group_to_multiset_ensures;

    crate::rank::lemma_rank_total();
    pl.wanted.lemma_sort_by_ensures(crate::rank::rank_order());
    let o = ranked(pl.wanted);
    assert(o.len() == o.to_multiset().len());
    assert(pl.wanted.len() == pl.wanted.to_multiset().len());
    assert forall|j: int| 0 <= j < o.len() implies (#[trigger] o[j]).index < pl.next.len() && asked(
        reqs,
        pl.next[o[j].index as int].light,
        o[j].version,
    ) by {
        assert(o.to_multiset().count(o[j]) > 0);
        assert(pl.wanted.contains(o[j]));
        let t = choose|t: int| 0 <= t < pl.wanted.len() && pl.wanted[t] == o[j];
        assert(pl.wanted[t].index < pl.next.len());
    }
}

proof fn lemma_render_cost_rects(a: Seq<ShadowSlot>, b: Seq<ShadowSlot>, r: Seq<usize>)
    requires
        a.len() == b.len(),
        forall|i: int| 0 <= i < a.len() ==> (#[trigger] a[i]).rect == b[i].rect,
        forall|k: int| 0 <= k < r.len() ==> (#[trigger] r[k]) < a.len(),
    ensures
        render_cost(a, r) == render_cost(b, r),
    decreases r.len(),
{
    if r.len() > 0 {
        let d = r.drop_last();
        assert forall|k: int| 0 <= k < d.len() implies (#[trigger] d[k]) < a.len() by {
            assert(d[k] == r[k]);
        }
        lemma_render_cost_rects(a, b, d);
        assert(r.last() == r[r.len() - 1]);
        assert(a[r.last() as int].rect == b[r.last() as int].rect);
    }
}

/// What spending keeps: the tiles, a drawn version asked for each drawn
/// tile, and the texels of what was drawn.
pub open spec fn spend_asked(base: Seq<ShadowSlot>, reqs: Seq<ShadowRequest>, sm: SpendModel) -> bool {
    &&& sm.slots.len() == base.len()
    &&& forall|i: int|
        0 <= i < base.len() ==> (#[trigger] sm.slots[i]).light == base[i].light && sm.slots[i].rect == base[i].rect
    &&& forall|k: int|
        0 <= k < sm.render.len() ==> (#[trigger] sm.render[k]) < base.len() && (sm.slots[sm.render[k] as int].drawn matches Some(
            v,
        ) && asked(reqs, base[sm.render[k] as int].light, v))
    &&& sm.texels == render_cost(sm.slots, sm.render)
}

proof fn lemma_spend_asked(
    base: Seq<ShadowSlot>,
    stale: Seq<u32>,
    worst: u32,
    reqs: Seq<ShadowRequest>,
    budget: u64,
    queue: Seq<RankKey>,
    n: nat,
)
    requires
        n <= queue.len(),
        forall|j: int|
            0 <= j < queue.len() ==> (#[trigger] queue[j]).index < base.len() && asked(
                reqs,
                base[queue[j].index as int].light,
                queue[j].version,
            ),
    ensures
        spend_asked(
            base,
            reqs,
            spend_all(
                SpendModel { slots: base, stale, worst, render: Seq::empty(), texels: 0, deferred: 0 },
                budget,
                queue,
                n,
            ),
        ),
    decreases n,
{
    let sm0 = SpendModel { slots: base, stale, worst, render: Seq::empty(), texels: 0, deferred: 0 };
    if n > 0 {
        lemma_spend_asked(base, stale, worst, reqs, budget, queue, (n - 1) as nat);
        let prev = spend_all(sm0, budget, queue, (n - 1) as nat);
        let w = queue[n - 1];
        assert(w.index < base.len());
        let idx = w.index as int;
        let sp = spend_all(sm0, budget, queue, n);
        assert(sp == spend_step(prev, budget, w));
        if !(prev.texels + tile_cost(prev.slots[idx]) > budget && prev.render.len() > 0) {
            assert(sp.render.drop_last() =~= prev.render);
            assert(sp.render.last() == w.index);
            assert forall|i: int| 0 <= i < base.len() implies (#[trigger] sp.slots[i]).light == base[i].light
                && sp.slots[i].rect == base[i].rect by {
                assert(prev.slots[i].light == base[i].light);
            }
            assert forall|k: int| 0 <= k < prev.render.len() implies (#[trigger] prev.render[k]) < prev.slots.len() by {
            }
            lemma_render_cost_rects(sp.slots, prev.slots, prev.render);
            assert(render_cost(sp.slots, sp.render) == render_cost(sp.slots, prev.render) + tile_cost(sp.slots[idx]));
            assert forall|k: int| 0 <= k < sp.render.len() implies (#[trigger] sp.render[k]) < base.len() && (
            sp.slots[sp.render[k] as int].drawn matches Some(v) && asked(reqs, base[sp.render[k] as int].light, v)) by {
                if k < prev.render.len() {
                    assert(sp.render[k] == prev.render[k]);
                } else {
                    assert(sp.render[k] == w.index);
                }
            }
        }
    } else {
        assert(spend_all(sm0, budget, queue, 0) == sm0);
        assert(render_cost(base, Seq::<usize>::empty()) == 0);
    }
}

/// A plan spends what it draws: the texels it reports are what drawing its
/// tiles costs, each tile it draws holds, after it, a version that a request
/// for the tile's light asks for, and where no light is asked for twice that
/// is the version of the light's request.
pub proof fn a_plan_spends_what_it_draws(m: AtlasModel, reqs: Seq<ShadowRequest>)
    requires
        m.slots.len() + reqs.len() <= usize::MAX,
    ensures
        ({
            let a = plan_atlas(m, reqs);
            let p = plan_result(m, reqs);
            &&& p.texels == render_cost(a.slots, p.render)
            &&& forall|k: int|
                0 <= k < p.render.len() ==> (#[trigger] p.render[k]) < a.slots.len() && (a.slots[p.render[k] as int].drawn matches Some(
                    v,
                ) && asked(reqs, a.slots[p.render[k] as int].light, v))
            &&& (forall|i: int, j: int| 0 <= i < j < reqs.len() ==> (#[trigger] reqs[i]).light != (#[trigger] reqs[j]).light)
                ==> forall|k: int| 0 <= k < p.render.len() ==> up_to_date(#[trigger] a.slots[p.render[k] as int], reqs)
        }),
{
    let cs = plan_claim(m, reqs);
    lemma_claim_asked(m, reqs, reqs.len());
    lemma_claim_new_slots(m, reqs, reqs.len());
    lemma_rebuild_asked(cs, m.stale, reqs, cs.slots.len());
    let rb = rebuild_all(cs, m.stale, reqs, cs.slots.len());
    lemma_place_asked(rb, reqs, cs.new_slots, cs.new_slots.len());
    let pl = plan_table(m, reqs);
    lemma_queue_asked(pl, reqs);
    let queue = ranked(pl.wanted);
    lemma_spend_asked(pl.next, pl.stale, m.worst_stale, reqs, m.budget, queue, queue.len());
    let a = plan_atlas(m, reqs);
    let p = plan_result(m, reqs);
    if forall|i: int, j: int| 0 <= i < j < reqs.len() ==> (#[trigger] reqs[i]).light != (#[trigger] reqs[j]).light {
        assert forall|k: int| 0 <= k < p.render.len() implies up_to_date(#[trigger] a.slots[p.render[k] as int], reqs) by {
            let s = p.render[k] as int;
            let v = a.slots[s].drawn->0;
            assert(asked(reqs, a.slots[s].light, v));
            let i = choose|i: int| 0 <= i < reqs.len() && (#[trigger] reqs[i]).light == a.slots[s].light && reqs[i].version == v;
            lemma_request_version(reqs, i, 0);
        }
    }
}

// ---------------------------------------------------------------------------
// The tiles of the atlas.
// ---------------------------------------------------------------------------

/// `side` is the side of the tiles of some class.
pub open spec fn is_tile_side(side: u32) -> bool {
    tile_of(spec_size_class(side)) == side
}

/// The tiles of class `c` an atlas holds, free or under a slot.
pub open spec fn class_capacity(m: AtlasModel, c: int) -> nat {
    m.free[c].len() + count_side(m.slots, tile_of(c), m.slots.len())
}

/// What every atlas keeps between plans: each free tile filed under its
/// class, and each slot on a tile of some class, held by a light.
pub open spec fn tiles_ok(m: AtlasModel) -> bool {
    &&& m.wf()
    &&& forall|c: int, j: int|
        0 <= c < 4 && 0 <= j < m.free[c].len() ==> (#[trigger] m.free[c][j])[2] == tile_of(c)
    &&& forall|s: int|
        0 <= s < m.slots.len() ==> is_tile_side((#[trigger] m.slots[s]).rect[2]) && m.slots[s].light != NO_LIGHT
}

/// What becomes of a slot in the claim: kept (0), evicted (1) or let go (2).
pub open spec fn slot_kind(slot: ShadowSlot, k: Option<(usize, u64)>) -> int {
    if k is Some {
        0
    } else if slot.light == NO_LIGHT {
        1
    } else {
        2
    }
}

pub open spec fn in_kind(
    slots: Seq<ShadowSlot>,
    keep: Seq<Option<(usize, u64)>>,
    side: u32,
    kind: int,
    s: int,
) -> bool {
    slots[s].rect[2] == side && slot_kind(slots[s], keep[s]) == kind
}

/// Slots among the first `n` on tiles of side `side` of the given kind.
pub open spec fn count_kind(
    slots: Seq<ShadowSlot>,
    keep: Seq<Option<(usize, u64)>>,
    side: u32,
    kind: int,
    n: nat,
) -> nat
    decreases n,
{
    if n == 0 {
        0
    } else {
        count_kind(slots, keep, side, kind, (n - 1) as nat) + if in_kind(slots, keep, side, kind, n - 1) {
            1nat
        } else {
            0nat
        }
    }
}

proof fn lemma_tile_of_injective(a: int, b: int)
    requires
        0 <= a < 4,
        0 <= b < 4,
    ensures
        tile_of(a) == tile_of(b) <==> a == b,
        is_tile_side(tile_of(a)),
        spec_size_class(tile_of(a)) == a,
{
}

proof fn lemma_count_side_same(a: Seq<ShadowSlot>, b: Seq<ShadowSlot>, side: u32, n: nat)
    requires
        n <= a.len(),
        n <= b.len(),
        forall|i: int| 0 <= i < n ==> (#[trigger] a[i]).rect[2] == b[i].rect[2],
    ensures
        count_side(a, side, n) == count_side(b, side, n),
    decreases n,
{
    if n > 0 {
        lemma_count_side_same(a, b, side, (n - 1) as nat);
    }
}

proof fn lemma_count_side_push(a: Seq<ShadowSlot>, x: ShadowSlot, side: u32)
    ensures
        count_side(a.push(x), side, a.len() + 1) == count_side(a, side, a.len()) + if x.rect[2] == side {
            1nat
        } else {
            0nat
        },
{
    assert forall|i: int| 0 <= i < a.len() implies (#[trigger] a.push(x)[i]).rect[2] == a[i].rect[2] by {}
    lemma_count_side_same(a.push(x), a, side, a.len());
}

proof fn lemma_count_kind_diff(
    a: Seq<ShadowSlot>,
    ak: Seq<Option<(usize, u64)>>,
    b: Seq<ShadowSlot>,
    bk: Seq<Option<(usize, u64)>>,
    side: u32,
    kind: int,
    n: nat,
    v: int,
)
    requires
        forall|s: int| 0 <= s < n && s != v ==> in_kind(a, ak, side, kind, s) == in_kind(b, bk, side, kind, s),
    ensures
        count_kind(b, bk, side, kind, n) as int == count_kind(a, ak, side, kind, n) + (if 0 <= v < n && in_kind(
            b,
            bk,
            side,
            kind,
            v,
        ) {
            1int
        } else {
            0int
        }) - (if 0 <= v < n && in_kind(a, ak, side, kind, v) {
            1int
        } else {
            0int
        }),
    decreases n,
{
    if n > 0 {
        lemma_count_kind_diff(a, ak, b, bk, side, kind, (n - 1) as nat, v);
    }
}

proof fn lemma_count_kind_none(slots: Seq<ShadowSlot>, keep: Seq<Option<(usize, u64)>>, side: u32, n: nat)
    requires
        n <= slots.len(),
        forall|s: int| 0 <= s < n ==> (#[trigger] slots[s]).light != NO_LIGHT,
    ensures
        count_kind(slots, keep, side, 1, n) == 0,
    decreases n,
{
    if n > 0 {
        lemma_count_kind_none(slots, keep, side, (n - 1) as nat);
        assert(slots[n - 1].light != NO_LIGHT);
    }
}

/// Every slot is kept, evicted or let go.
proof fn lemma_count_kind_partition(slots: Seq<ShadowSlot>, keep: Seq<Option<(usize, u64)>>, side: u32, n: nat)
    ensures
        count_side(slots, side, n) == count_kind(slots, keep, side, 0, n) + count_kind(slots, keep, side, 1, n)
            + count_kind(slots, keep, side, 2, n),
    decreases n,
{
    if n > 0 {
        lemma_count_kind_partition(slots, keep, side, (n - 1) as nat);
    }
}

/// The claim so far moves no tile: the slots keep their tiles, the evicted
/// ones are never kept, and each class's free list grows by its evictions.
pub open spec fn claim_tiles(st: ClaimModel, m: AtlasModel) -> bool {
    let len = m.slots.len();
    &&& st.slots.len() == len
    &&& st.keep.len() == len
    &&& st.free.len() == 4
    &&& forall|s: int| 0 <= s < len ==> (#[trigger] st.slots[s]).rect == m.slots[s].rect
    &&& forall|s: int| 0 <= s < len && (#[trigger] st.slots[s]).light == NO_LIGHT ==> st.keep[s] is None
    &&& forall|c: int, j: int|
        0 <= c < 4 && 0 <= j < st.free[c].len() ==> (#[trigger] st.free[c][j])[2] == tile_of(c)
    &&& forall|c: int|
        0 <= c < 4 ==> (#[trigger] st.free[c]).len() == m.free[c].len() + count_kind(
            st.slots,
            st.keep,
            tile_of(c),
            1,
            len,
        )
    &&& forall|j: int|
        0 <= j < st.new_slots.len() ==> (#[trigger] st.new_slots[j]).1 < 4 && st.new_slots[j].0 != NO_LIGHT
}

proof fn lemma_claim_tiles(m: AtlasModel, reqs: Seq<ShadowRequest>, n: nat)
    requires
        tiles_ok(m),
        n <= reqs.len(),
        m.slots.len() <= usize::MAX,
        forall|i: int| 0 <= i < reqs.len() ==> (#[trigger] reqs[i]).light != NO_LIGHT,
    ensures
        claim_tiles(claim_all(m, reqs, n), m),
    decreases n,
{
    let len = m.slots.len();
    if n == 0 {
        let st = claim_all(m, reqs, 0);
        assert(st == claim_start(m));
        assert forall|c: int| 0 <= c < 4 implies (#[trigger] st.free[c]).len() == m.free[c].len() + count_kind(
            st.slots,
            st.keep,
            tile_of(c),
            1,
            len,
        ) by {
            lemma_count_kind_none(st.slots, st.keep, tile_of(c), len);
        }
    } else {
        lemma_claim_tiles(m, reqs, (n - 1) as nat);
        let prev = claim_all(m, reqs, (n - 1) as nat);
        crate::rank::lemma_ranked_indices(request_keys(reqs), reqs.len() as int);
        let i = request_order(reqs)[n - 1].index as int;
        assert(0 <= i < reqs.len());
        let req = reqs[i];
        let class = spec_size_class(req.wanted);
        let side = tile_of(class);
        lemma_first_slot_found(prev.slots, req.light, side, 0);
        lemma_victim_scan(prev.slots, prev.keep, reqs, side, req.priority, prev.slots.len());
        let cur = claim_all(m, reqs, n);
        assert(cur == claim_step(prev, reqs, i));
        assert(req.light != NO_LIGHT);
        match first_slot_from(prev.slots, req.light, side, 0) {
            Some(e) => {
                let e = e as int;
                assert forall|c: int| 0 <= c < 4 implies (#[trigger] cur.free[c]).len() == m.free[c].len()
                    + count_kind(cur.slots, cur.keep, tile_of(c), 1, len) by {
                    lemma_count_kind_diff(prev.slots, prev.keep, cur.slots, cur.keep, tile_of(c), 1, len, e);
                }
            },
            None => {
                if prev.free[class].len() == 0 {
                    match victim_scan(prev.slots, prev.keep, reqs, side, req.priority, prev.slots.len()) {
                        Some(vb) => {
                            let v = vb.0 as int;
                            assert(victim_eligible(prev.slots, prev.keep, reqs, side, req.priority, v));
                            assert forall|c: int| 0 <= c < 4 implies (#[trigger] cur.free[c]).len() == m.free[c].len()
                                + count_kind(cur.slots, cur.keep, tile_of(c), 1, len) by {
                                lemma_tile_of_injective(c, class);
                                lemma_count_kind_diff(prev.slots, prev.keep, cur.slots, cur.keep, tile_of(c), 1, len, v);
                            }
                            assert forall|c: int, j: int|
                                0 <= c < 4 && 0 <= j < cur.free[c].len() implies (#[trigger] cur.free[c][j])[2] == tile_of(
                                c,
                            ) by {
                                if c == class && j == prev.free[c].len() {
                                    assert(cur.free[c][j] == prev.slots[v].rect);
                                } else {
                                    assert(cur.free[c][j] == prev.free[c][j]);
                                }
                            }
                        },
                        None => {},
                    }
                } else {
                    assert(class < 4);
                }
            },
        }
    }
}

/// The rebuild so far: each class's free list has grown by the tiles let
/// go, the new table holds the kept tiles, each held by a light.
pub open spec fn rebuild_tiles(rb: RebuildModel, cs: ClaimModel, n: nat) -> bool {
    &&& rb.free.len() == 4
    &&& rb.stale.len() == rb.next.len()
    &&& forall|c: int, j: int|
        0 <= c < 4 && 0 <= j < rb.free[c].len() ==> (#[trigger] rb.free[c][j])[2] == tile_of(c)
    &&& forall|c: int|
        0 <= c < 4 ==> (#[trigger] rb.free[c]).len() == cs.free[c].len() + count_kind(
            cs.slots,
            cs.keep,
            tile_of(c),
            2,
            n,
        )
    &&& forall|c: int|
        0 <= c < 4 ==> #[trigger] count_side(rb.next, tile_of(c), rb.next.len()) == count_kind(
            cs.slots,
            cs.keep,
            tile_of(c),
            0,
            n,
        )
    &&& forall|s: int|
        0 <= s < rb.next.len() ==> is_tile_side((#[trigger] rb.next[s]).rect[2]) && rb.next[s].light != NO_LIGHT
}

proof fn lemma_rebuild_tiles(cs: ClaimModel, m: AtlasModel, old_stale: Seq<u32>, reqs: Seq<ShadowRequest>, n: nat)
    requires
        tiles_ok(m),
        claim_tiles(cs, m),
        n <= cs.slots.len(),
    ensures
        rebuild_tiles(rebuild_all(cs, old_stale, reqs, n), cs, n),
    decreases n,
{
    if n == 0 {
        let rb = rebuild_all(cs, old_stale, reqs, 0);
        assert forall|c: int| 0 <= c < 4 implies #[trigger] count_side(rb.next, tile_of(c), rb.next.len())
            == count_kind(cs.slots, cs.keep, tile_of(c), 0, n) by {}
    } else {
        lemma_rebuild_tiles(cs, m, old_stale, reqs, (n - 1) as nat);
        let prev = rebuild_all(cs, old_stale, reqs, (n - 1) as nat);
        let cur = rebuild_all(cs, old_stale, reqs, n);
        let s = n - 1;
        let slot = cs.slots[s];
        assert(slot.rect == m.slots[s].rect);
        assert(is_tile_side(m.slots[s].rect[2]));
        assert(cur == rebuild_step(prev, cs, old_stale, reqs, s));
        match cs.keep[s] {
            Some(k) => {
                assert(slot.light != NO_LIGHT);
                assert forall|c: int| 0 <= c < 4 implies #[trigger] count_side(cur.next, tile_of(c), cur.next.len())
                    == count_kind(cs.slots, cs.keep, tile_of(c), 0, n) by {
                    lemma_count_side_push(prev.next, slot, tile_of(c));
                }
                assert forall|s2: int| 0 <= s2 < cur.next.len() implies is_tile_side((#[trigger] cur.next[s2]).rect[2])
                    && cur.next[s2].light != NO_LIGHT by {
                    if s2 < prev.next.len() {
                        assert(cur.next[s2] == prev.next[s2]);
                    }
                }
            },
            None => {
                if slot.light != NO_LIGHT {
                    let c0 = spec_size_class(slot.rect[2]);
                    assert forall|c: int| 0 <= c < 4 implies (#[trigger] cur.free[c]).len() == cs.free[c].len()
                        + count_kind(cs.slots, cs.keep, tile_of(c), 2, n) by {
                        lemma_tile_of_injective(c, c0);
                    }
                    assert forall|c: int, j: int|
                        0 <= c < 4 && 0 <= j < cur.free[c].len() implies (#[trigger] cur.free[c][j])[2] == tile_of(c) by {
                        if c == c0 && j == prev.free[c].len() {
                            assert(cur.free[c][j] == slot.rect);
                        } else {
                            assert(cur.free[c][j] == prev.free[c][j]);
                        }
                    }
                }
            },
        }
    }
}

/// Placing new slots moves tiles from the free lists to the table: each
/// class keeps its count of tiles.
pub open spec fn place_tiles(rb: RebuildModel, start: RebuildModel) -> bool {
    &&& rb.free.len() == 4
    &&& rb.stale.len() == rb.next.len()
    &&& forall|c: int, j: int|
        0 <= c < 4 && 0 <= j < rb.free[c].len() ==> (#[trigger] rb.free[c][j])[2] == tile_of(c)
    &&& forall|c: int|
        0 <= c < 4 ==> (#[trigger] rb.free[c]).len() + count_side(rb.next, tile_of(c), rb.next.len())
            == start.free[c].len() + count_side(start.next, tile_of(c), start.next.len())
    &&& forall|s: int|
        0 <= s < rb.next.len() ==> is_tile_side((#[trigger] rb.next[s]).rect[2]) && rb.next[s].light != NO_LIGHT
}

proof fn lemma_place_tiles(rb: RebuildModel, reqs: Seq<ShadowRequest>, news: Seq<(u32, usize, u64)>, n: nat)
    requires
        n <= news.len(),
        rb.free.len() == 4,
        rb.stale.len() == rb.next.len(),
        forall|c: int, j: int|
            0 <= c < 4 && 0 <= j < rb.free[c].len() ==> (#[trigger] rb.free[c][j])[2] == tile_of(c),
        forall|s: int|
            0 <= s < rb.next.len() ==> is_tile_side((#[trigger] rb.next[s]).rect[2]) && rb.next[s].light != NO_LIGHT,
        forall|j: int| 0 <= j < news.len() ==> (#[trigger] news[j]).1 < 4 && news[j].0 != NO_LIGHT,
    ensures
        place_tiles(place_all(rb, reqs, news, n), rb),
    decreases n,
{
    if n > 0 {
        lemma_place_tiles(rb, reqs, news, (n - 1) as nat);
        let prev = place_all(rb, reqs, news, (n - 1) as nat);
        let cur = place_all(rb, reqs, news, n);
        let ns = news[n - 1];
        let class = ns.1 as int;
        assert(class < 4 && ns.0 != NO_LIGHT);
        if prev.free[class].len() > 0 {
            let rect = prev.free[class].last();
            assert(rect == prev.free[class][prev.free[class].len() - 1]);
            assert(rect[2] == tile_of(class));
            let slot = ShadowSlot { light: ns.0, rect, drawn: None };
            assert(cur.next == prev.next.push(slot));
            lemma_tile_of_injective(class, class);
            assert forall|c: int| 0 <= c < 4 implies (#[trigger] cur.free[c]).len() + count_side(
                cur.next,
                tile_of(c),
                cur.next.len(),
            ) == rb.free[c].len() + count_side(rb.next, tile_of(c), rb.next.len()) by {
                lemma_tile_of_injective(c, class);
                lemma_count_side_push(prev.next, slot, tile_of(c));
            }
            assert forall|c: int, j: int|
                0 <= c < 4 && 0 <= j < cur.free[c].len() implies (#[trigger] cur.free[c][j])[2] == tile_of(c) by {
                assert(cur.free[c][j] == prev.free[c][j]);
            }
            assert forall|s: int| 0 <= s < cur.next.len() implies is_tile_side((#[trigger] cur.next[s]).rect[2])
                && cur.next[s].light != NO_LIGHT by {
                if s < prev.next.len() {
                    assert(cur.next[s] == prev.next[s]);
                }
            }
        }
    }
}

proof fn lemma_spend_tiles(sm: SpendModel, budget: u64, queue: Seq<RankKey>, n: nat)
    requires
        n <= queue.len(),
        sm.stale.len() == sm.slots.len(),
        forall|k: int| 0 <= k < queue.len() ==> (#[trigger] queue[k]).index < sm.slots.len(),
    ensures
        spend_all(sm, budget, queue, n).slots.len() == sm.slots.len(),
        spend_all(sm, budget, queue, n).stale.len() == sm.slots.len(),
        forall|i: int|
            0 <= i < sm.slots.len() ==> (#[trigger] spend_all(sm, budget, queue, n).slots[i]).rect == sm.slots[i].rect
                && spend_all(sm, budget, queue, n).slots[i].light == sm.slots[i].light,
    decreases n,
{
    if n > 0 {
        lemma_spend_tiles(sm, budget, queue, (n - 1) as nat);
        let prev = spend_all(sm, budget, queue, (n - 1) as nat);
        let cur = spend_all(sm, budget, queue, n);
        assert forall|i: int| 0 <= i < sm.slots.len() implies (#[trigger] cur.slots[i]).rect == sm.slots[i].rect
            && cur.slots[i].light == sm.slots[i].light by {
            assert(prev.slots[i].rect == sm.slots[i].rect);
        }
    }
}

/// A plan never creates, loses or re-carves a tile: it only moves tiles
/// between the free lists and the slots, so each class holds as many tiles
/// after it as before (the atlas never compacts), and what every atlas keeps
/// between plans still holds.
pub proof fn a_plan_keeps_the_tiles(m: AtlasModel, reqs: Seq<ShadowRequest>)
    requires
        tiles_ok(m),
        m.slots.len() <= usize::MAX,
        names_lights(reqs),
    ensures
        tiles_ok(plan_atlas(m, reqs)),
        forall|c: int| 0 <= c < 4 ==> #[trigger] class_capacity(plan_atlas(m, reqs), c) == class_capacity(m, c),
{
    let len = m.slots.len();
    lemma_claim_tiles(m, reqs, reqs.len());
    let cs = plan_claim(m, reqs);
    lemma_rebuild_tiles(cs, m, m.stale, reqs, cs.slots.len());
    let rb = rebuild_all(cs, m.stale, reqs, cs.slots.len());
    lemma_place_tiles(rb, reqs, cs.new_slots, cs.new_slots.len());
    let pl = plan_table(m, reqs);
    lemma_rebuild_indices(cs, m.stale, reqs, cs.slots.len());
    lemma_place_indices(rb, reqs, cs.new_slots, cs.new_slots.len());
    crate::rank::lemma_ranked_indices(pl.wanted, pl.next.len() as int);
    let queue = ranked(pl.wanted);
    let sm = SpendModel {
        slots: pl.next,
        stale: pl.stale,
        worst: m.worst_stale,
        render: Seq::empty(),
        texels: 0,
        deferred: 0,
    };
    lemma_spend_tiles(sm, m.budget, queue, queue.len());
    let a = plan_atlas(m, reqs);
    assert forall|c: int| 0 <= c < 4 implies #[trigger] class_capacity(a, c) == class_capacity(m, c) by {
        lemma_count_side_same(a.slots, pl.next, tile_of(c), pl.next.len());
        lemma_count_kind_partition(cs.slots, cs.keep, tile_of(c), len);
        lemma_count_side_same(cs.slots, m.slots, tile_of(c), len);
    }
    assert forall|s: int| 0 <= s < a.slots.len() implies is_tile_side((#[trigger] a.slots[s]).rect[2])
        && a.slots[s].light != NO_LIGHT by {
        assert(a.slots[s].rect == pl.next[s].rect);
    }
}

/// No request names the marker of an evicted slot as its light.
pub open spec fn names_lights(reqs: Seq<ShadowRequest>) -> bool {
    forall|i: int| 0 <= i < reqs.len() ==> (#[trigger] reqs[i]).light != NO_LIGHT
}

/// The tiles of four free lists, as a bag.
pub open spec fn rect_bag(lists: Seq<Seq<[u32; 3]>>) -> Multiset<[u32; 3]> {
    lists[0].to_multiset().add(lists[1].to_multiset()).add(lists[2].to_multiset()).add(lists[3].to_multiset())
}

/// The tiles under the first `n` slots held by a light.
pub open spec fn live_rects(slots: Seq<ShadowSlot>, n: nat) -> Multiset<[u32; 3]>
    decreases n,
{
    if n == 0 {
        Multiset::empty()
    } else {
        live_rects(slots, (n - 1) as nat).add(
            if slots[n - 1].light != NO_LIGHT {
                Multiset::singleton(slots[n - 1].rect)
            } else {
                Multiset::empty()
            },
        )
    }
}

/// Every tile an atlas holds, free or under a slot.
pub open spec fn held_rects(m: AtlasModel) -> Multiset<[u32; 3]> {
    rect_bag(m.free).add(live_rects(m.slots, m.slots.len()))
}

/// The tiles a new atlas of side `size` is carved into.
pub open spec fn carved_bag(size: u32) -> Multiset<[u32; 3]> {
    rect_bag(Seq::new(4, |c: int| carved(size, c)))
}

proof fn lemma_rect_bag_push(lists: Seq<Seq<[u32; 3]>>, c: int, r: [u32; 3])
    requires
        lists.len() == 4,
        0 <= c < 4,
    ensures
        rect_bag(lists.update(c, lists[c].push(r))) == rect_bag(lists).insert(r),
{
    broadcast use vstd::seq_lib::group_to_multiset_ensures;
    broadcast use vstd::multiset::group_multiset_axioms;

    let l2 = lists.update(c, lists[c].push(r));
    assert(l2[c].to_multiset() == lists[c].to_multiset().insert(r));
    assert(rect_bag(l2) =~= rect_bag(lists).insert(r));
}

proof fn lemma_rect_bag_pop(lists: Seq<Seq<[u32; 3]>>, c: int)
    requires
        lists.len() == 4,
        0 <= c < 4,
        lists[c].len() > 0,
    ensures
        rect_bag(lists.update(c, lists[c].drop_last())).insert(lists[c].last()) == rect_bag(lists),
{
    broadcast use vstd::seq_lib::group_to_multiset_ensures;
    broadcast use vstd::multiset::group_multiset_axioms;

    let l2 = lists.update(c, lists[c].drop_last());
    assert(lists[c] =~= lists[c].drop_last().push(lists[c].last()));
    assert(lists[c].to_multiset() == l2[c].to_multiset().insert(lists[c].last()));
    assert(rect_bag(l2).insert(lists[c].last()) =~= rect_bag(lists));
}

proof fn lemma_live_same(a: Seq<ShadowSlot>, b: Seq<ShadowSlot>, n: nat)
    requires
        n <= a.len(),
        n <= b.len(),
        forall|i: int|
            0 <= i < n ==> (#[trigger] a[i]).rect == b[i].rect && (a[i].light == NO_LIGHT) == (b[i].light == NO_LIGHT),
    ensures
        live_rects(a, n) == live_rects(b, n),
    decreases n,
{
    if n > 0 {
        lemma_live_same(a, b, (n - 1) as nat);
        assert(a[n - 1].rect == b[n - 1].rect);
    }
}

proof fn lemma_live_push(a: Seq<ShadowSlot>, x: ShadowSlot)
    ensures
        live_rects(a.push(x), a.len() + 1) == live_rects(a, a.len()).add(
            if x.light != NO_LIGHT {
                Multiset::singleton(x.rect)
            } else {
                Multiset::empty()
            },
        ),
{
    assert forall|i: int| 0 <= i < a.len() implies (#[trigger] a.push(x)[i]).rect == a[i].rect && (a.push(x)[i].light
        == NO_LIGHT) == (a[i].light == NO_LIGHT) by {}
    lemma_live_same(a.push(x), a, a.len());
}

/// Letting go of the light of slot `v` takes its tile out of the live ones.
proof fn lemma_live_flip(a: Seq<ShadowSlot>, b: Seq<ShadowSlot>, n: nat, v: int)
    requires
        n <= a.len(),
        n <= b.len(),
        0 <= v < n,
        a[v].light != NO_LIGHT,
        b[v].light == NO_LIGHT,
        forall|i: int|
            0 <= i < n && i != v ==> (#[trigger] a[i]).rect == b[i].rect && (a[i].light == NO_LIGHT) == (b[i].light
                == NO_LIGHT),
    ensures
        live_rects(a, n) == live_rects(b, n).insert(a[v].rect),
    decreases n,
{
    broadcast use vstd::multiset::group_multiset_axioms;

    if n - 1 == v {
        assert forall|i: int| 0 <= i < n - 1 implies (#[trigger] a[i]).rect == b[i].rect && (a[i].light == NO_LIGHT)
            == (b[i].light == NO_LIGHT) by {}
        lemma_live_same(a, b, (n - 1) as nat);
        assert(live_rects(a, n) =~= live_rects(b, n).insert(a[v].rect));
    } else {
        lemma_live_flip(a, b, (n - 1) as nat, v);
        assert(a[n - 1].rect == b[n - 1].rect);
        assert(live_rects(a, n) =~= live_rects(b, n).insert(a[v].rect));
    }
}

proof fn lemma_bag_shift(
    a: Multiset<[u32; 3]>,
    b: Multiset<[u32; 3]>,
    c: Multiset<[u32; 3]>,
    d: Multiset<[u32; 3]>,
    x: Multiset<[u32; 3]>,
)
    requires
        a.add(b) == c.add(d),
    ensures
        a.add(b.add(x)) == c.add(d.add(x)),
        a.add(x).add(b) == c.add(d.add(x)),
{
    broadcast use vstd::multiset::group_multiset_axioms;

    assert forall|v: [u32; 3]| #[trigger] a.add(b.add(x)).count(v) == c.add(d.add(x)).count(v) by {
        assert(a.add(b).count(v) == c.add(d).count(v));
        assert(b.add(x).count(v) == b.count(v) + x.count(v));
        assert(d.add(x).count(v) == d.count(v) + x.count(v));
        assert(a.add(b).count(v) == a.count(v) + b.count(v));
        assert(c.add(d).count(v) == c.count(v) + d.count(v));
        assert(a.add(b.add(x)).count(v) == a.count(v) + b.add(x).count(v));
        assert(c.add(d.add(x)).count(v) == c.count(v) + d.add(x).count(v));
    }
    assert(a.add(b.add(x)) =~= c.add(d.add(x)));
    assert forall|v: [u32; 3]| #[trigger] a.add(x).add(b).count(v) == c.add(d.add(x)).count(v) by {
        assert(a.add(b).count(v) == c.add(d).count(v));
    }
    assert(a.add(x).add(b) =~= c.add(d.add(x)));
}

/// The claim moves tiles between the live slots and the free lists only.
proof fn lemma_claim_held(m: AtlasModel, reqs: Seq<ShadowRequest>, n: nat)
    requires
        tiles_ok(m),
        n <= reqs.len(),
        m.slots.len() <= usize::MAX,
        names_lights(reqs),
    ensures
        rect_bag(claim_all(m, reqs, n).free).add(live_rects(claim_all(m, reqs, n).slots, m.slots.len())) == held_rects(m),
    decreases n,
{
    broadcast use vstd::multiset::group_multiset_axioms;

    let len = m.slots.len();
    if n == 0 {
        assert(claim_all(m, reqs, 0) == claim_start(m));
    } else {
        lemma_claim_held(m, reqs, (n - 1) as nat);
        lemma_claim_tiles(m, reqs, (n - 1) as nat);
        let prev = claim_all(m, reqs, (n - 1) as nat);
        crate::rank::lemma_ranked_indices(request_keys(reqs), reqs.len() as int);
        let i = request_order(reqs)[n - 1].index as int;
        assert(0 <= i < reqs.len());
        let req = reqs[i];
        let class = spec_size_class(req.wanted);
        let side = tile_of(class);
        lemma_victim_scan(prev.slots, prev.keep, reqs, side, req.priority, prev.slots.len());
        let cur = claim_all(m, reqs, n);
        assert(cur == claim_step(prev, reqs, i));
        if first_slot_from(prev.slots, req.light, side, 0) is None && prev.free[class].len() == 0 {
            match victim_scan(prev.slots, prev.keep, reqs, side, req.priority, prev.slots.len()) {
                Some(vb) => {
                    let v = vb.0 as int;
                    assert(victim_eligible(prev.slots, prev.keep, reqs, side, req.priority, v));
                    let r = prev.slots[v].rect;
                    lemma_rect_bag_push(prev.free, class, r);
                    lemma_live_flip(prev.slots, cur.slots, len, v);
                    assert(rect_bag(cur.free).add(live_rects(cur.slots, len)) =~= rect_bag(prev.free).add(
                        live_rects(prev.slots, len),
                    ));
                },
                None => {},
            }
        }
    }
}

/// What the rebuild keeps of the tiles: the live slots of the claim become
/// the new table or go back to the free lists.
proof fn lemma_rebuild_held(cs: ClaimModel, m: AtlasModel, old_stale: Seq<u32>, reqs: Seq<ShadowRequest>, n: nat)
    requires
        tiles_ok(m),
        claim_tiles(cs, m),
        n <= cs.slots.len(),
    ensures
        rect_bag(rebuild_all(cs, old_stale, reqs, n).free).add(
            live_rects(rebuild_all(cs, old_stale, reqs, n).next, rebuild_all(cs, old_stale, reqs, n).next.len()),
        ) == rect_bag(cs.free).add(live_rects(cs.slots, n)),
    decreases n,
{
    broadcast use vstd::multiset::group_multiset_axioms;

    if n == 0 {
        let rb = rebuild_all(cs, old_stale, reqs, 0);
        assert(rect_bag(rb.free).add(live_rects(rb.next, rb.next.len())) =~= rect_bag(cs.free).add(
            live_rects(cs.slots, 0),
        ));
    } else {
        lemma_rebuild_held(cs, m, old_stale, reqs, (n - 1) as nat);
        lemma_rebuild_tiles(cs, m, old_stale, reqs, (n - 1) as nat);
        let prev = rebuild_all(cs, old_stale, reqs, (n - 1) as nat);
        let cur = rebuild_all(cs, old_stale, reqs, n);
        let s = n - 1;
        let slot = cs.slots[s];
        assert(slot.rect == m.slots[s].rect);
        assert(is_tile_side(m.slots[s].rect[2]));
        assert(cur == rebuild_step(prev, cs, old_stale, reqs, s));
        match cs.keep[s] {
            Some(k) => {
                assert(slot.light != NO_LIGHT);
                lemma_live_push(prev.next, slot);
                assert(cur.next == prev.next.push(slot));
                assert(cur.free == prev.free);
                assert(live_rects(cs.slots, n) == live_rects(cs.slots, (n - 1) as nat).add(
                    Multiset::singleton(slot.rect),
                ));
                lemma_bag_shift(
                    rect_bag(prev.free),
                    live_rects(prev.next, prev.next.len()),
                    rect_bag(cs.free),
                    live_rects(cs.slots, (n - 1) as nat),
                    Multiset::singleton(slot.rect),
                );
                assert(rect_bag(cur.free).add(live_rects(cur.next, cur.next.len())) =~= rect_bag(cs.free).add(
                    live_rects(cs.slots, n),
                ));
            },
            None => {
                if slot.light != NO_LIGHT {
                    let c0 = spec_size_class(slot.rect[2]);
                    lemma_rect_bag_push(prev.free, c0, slot.rect);
                    assert(cur.free == prev.free.update(c0, prev.free[c0].push(slot.rect)));
                    assert(cur.next == prev.next);
                    assert(live_rects(cs.slots, n) == live_rects(cs.slots, (n - 1) as nat).add(
                        Multiset::singleton(slot.rect),
                    ));
                    lemma_bag_shift(
                        rect_bag(prev.free),
                        live_rects(prev.next, prev.next.len()),
                        rect_bag(cs.free),
                        live_rects(cs.slots, (n - 1) as nat),
                        Multiset::singleton(slot.rect),
                    );
                    assert(rect_bag(cur.free).add(live_rects(cur.next, cur.next.len())) =~= rect_bag(cs.free).add(
                        live_rects(cs.slots, n),
                    ));
                } else {
                    assert(rect_bag(cur.free).add(live_rects(cur.next, cur.next.len())) =~= rect_bag(cs.free).add(
                        live_rects(cs.slots, n),
                    ));
                }
            },
        }
    }
}

/// Placing a new slot moves a tile from its free list to the table.
proof fn lemma_place_held(rb: RebuildModel, reqs: Seq<ShadowRequest>, news: Seq<(u32, usize, u64)>, n: nat)
    requires
        n <= news.len(),
        rb.free.len() == 4,
        rb.stale.len() == rb.next.len(),
        forall|c: int, j: int|
            0 <= c < 4 && 0 <= j < rb.free[c].len() ==> (#[trigger] rb.free[c][j])[2] == tile_of(c),
        forall|s: int|
            0 <= s < rb.next.len() ==> is_tile_side((#[trigger] rb.next[s]).rect[2]) && rb.next[s].light != NO_LIGHT,
        forall|j: int| 0 <= j < news.len() ==> (#[trigger] news[j]).1 < 4 && news[j].0 != NO_LIGHT,
    ensures
        rect_bag(place_all(rb, reqs, news, n).free).add(
            live_rects(place_all(rb, reqs, news, n).next, place_all(rb, reqs, news, n).next.len()),
        ) == rect_bag(rb.free).add(live_rects(rb.next, rb.next.len())),
    decreases n,
{
    broadcast use vstd::multiset::group_multiset_axioms;

    if n > 0 {
        lemma_place_held(rb, reqs, news, (n - 1) as nat);
        lemma_place_tiles(rb, reqs, news, (n - 1) as nat);
        let prev = place_all(rb, reqs, news, (n - 1) as nat);
        let cur = place_all(rb, reqs, news, n);
        let ns = news[n - 1];
        let class = ns.1 as int;
        assert(class < 4 && ns.0 != NO_LIGHT);
        if prev.free[class].len() > 0 {
            let rect = prev.free[class].last();
            let slot = ShadowSlot { light: ns.0, rect, drawn: None };
            assert(cur.next == prev.next.push(slot));
            lemma_live_push(prev.next, slot);
            lemma_rect_bag_pop(prev.free, class);
            assert(rect_bag(cur.free).add(live_rects(cur.next, cur.next.len())) =~= rect_bag(prev.free).add(
                live_rects(prev.next, prev.next.len()),
            ));
        }
    }
}

/// A plan keeps every tile of the atlas: the bag of tiles, free or under a
/// slot held by a light, is the same after it as before.
pub proof fn a_plan_keeps_every_tile(m: AtlasModel, reqs: Seq<ShadowRequest>)
    requires
        tiles_ok(m),
        m.slots.len() <= usize::MAX,
        names_lights(reqs),
    ensures
        held_rects(plan_atlas(m, reqs)) == held_rects(m),
        plan_atlas(m, reqs).size == m.size,
{
    let len = m.slots.len();
    lemma_claim_tiles(m, reqs, reqs.len());
    lemma_claim_held(m, reqs, reqs.len());
    let cs = plan_claim(m, reqs);
    lemma_rebuild_tiles(cs, m, m.stale, reqs, cs.slots.len());
    lemma_rebuild_held(cs, m, m.stale, reqs, cs.slots.len());
    let rb = rebuild_all(cs, m.stale, reqs, cs.slots.len());
    lemma_place_held(rb, reqs, cs.new_slots, cs.new_slots.len());
    lemma_place_tiles(rb, reqs, cs.new_slots, cs.new_slots.len());
    let pl = plan_table(m, reqs);
    lemma_rebuild_indices(cs, m.stale, reqs, cs.slots.len());
    lemma_place_indices(rb, reqs, cs.new_slots, cs.new_slots.len());
    crate::rank::lemma_ranked_indices(pl.wanted, pl.next.len() as int);
    let queue = ranked(pl.wanted);
    let sm = SpendModel {
        slots: pl.next,
        stale: pl.stale,
        worst: m.worst_stale,
        render: Seq::empty(),
        texels: 0,
        deferred: 0,
    };
    lemma_spend_tiles(sm, m.budget, queue, queue.len());
    let a = plan_atlas(m, reqs);
    lemma_live_same(a.slots, pl.next, pl.next.len());
}

proof fn lemma_live_mono(slots: Seq<ShadowSlot>, a: nat, b: nat, r: [u32; 3])
    requires
        a <= b,
    ensures
        live_rects(slots, a).count(r) <= live_rects(slots, b).count(r),
    decreases b - a,
{
    broadcast use vstd::multiset::group_multiset_axioms;

    if a < b {
        lemma_live_mono(slots, a, (b - 1) as nat, r);
    }
}

proof fn lemma_live_at(slots: Seq<ShadowSlot>, s: int)
    requires
        0 <= s < slots.len(),
        slots[s].light != NO_LIGHT,
    ensures
        live_rects(slots, (s + 1) as nat).count(slots[s].rect) == live_rects(slots, s as nat).count(slots[s].rect) + 1,
{
    broadcast use vstd::multiset::group_multiset_axioms;

}

/// Each carved tile is carved once, and is one of the carved tiles.
proof fn lemma_carved_once(size: u32, r: [u32; 3])
    ensures
        carved_bag(size).count(r) <= 1,
        carved_bag(size).count(r) > 0 ==> exists|c: int, k: int|
            0 <= c < 4 && 0 <= k < carved(size, c).len() && #[trigger] carved(size, c)[k] == r,
{
    broadcast use vstd::multiset::group_multiset_axioms;
    broadcast use vstd::seq_lib::group_to_multiset_ensures;

    let lists = Seq::new(4, |c: int| carved(size, c));
    assert forall|c: int| 0 <= c < 4 implies (#[trigger] lists[c]).to_multiset().count(r) <= 1 && (
    lists[c].to_multiset().count(r) > 0 ==> r[2] == tile_of(c) && exists|k: int|
        0 <= k < carved(size, c).len() && #[trigger] carved(size, c)[k] == r) by {
        let s = carved(size, c);
        assert(lists[c] == s);
        assert forall|i: int, j: int| 0 <= i < s.len() && 0 <= j < s.len() && i != j implies s[i] != s[j] by {
            carved_tiles_fit_and_do_not_overlap(size, c, i, c, j);
            lemma_carved_tile(size, c, i);
        }
        assert(s.no_duplicates());
        s.lemma_multiset_has_no_duplicates();
        if s.to_multiset().count(r) > 0 {
            assert(s.contains(r));
            let k = choose|k: int| 0 <= k < s.len() && s[k] == r;
            lemma_carved_tile(size, c, k);
        }
    }
    let n0 = lists[0].to_multiset().count(r);
    let n1 = lists[1].to_multiset().count(r);
    let n2 = lists[2].to_multiset().count(r);
    let n3 = lists[3].to_multiset().count(r);
    assert(carved_bag(size).count(r) == n0 + n1 + n2 + n3);
    assert(n0 > 0 && n1 > 0 ==> false) by { lemma_tile_of_injective(0, 1); }
    assert(n0 > 0 && n2 > 0 ==> false) by { lemma_tile_of_injective(0, 2); }
    assert(n0 > 0 && n3 > 0 ==> false) by { lemma_tile_of_injective(0, 3); }
    assert(n1 > 0 && n2 > 0 ==> false) by { lemma_tile_of_injective(1, 2); }
    assert(n1 > 0 && n3 > 0 ==> false) by { lemma_tile_of_injective(1, 3); }
    assert(n2 > 0 && n3 > 0 ==> false) by { lemma_tile_of_injective(2, 3); }
    if carved_bag(size).count(r) > 0 {
        if n0 > 0 {
            assert(lists[0].to_multiset().count(r) > 0);
        } else if n1 > 0 {
            assert(lists[1].to_multiset().count(r) > 0);
        } else if n2 > 0 {
            assert(lists[2].to_multiset().count(r) > 0);
        } else {
            assert(lists[3].to_multiset().count(r) > 0);
        }
    }
}

/// An atlas that holds exactly the tiles it was carved into gives each
/// light its own tile: every slot's square lies inside the atlas, and no two
/// slots share a texel.
pub proof fn slots_hold_disjoint_tiles_inside_the_atlas(m: AtlasModel)
    requires
        tiles_ok(m),
        held_rects(m) == carved_bag(m.size),
    ensures
        forall|s: int| 0 <= s < m.slots.len() ==> rect_inside(#[trigger] m.slots[s].rect, m.size),
        forall|s: int, t: int|
            0 <= s < m.slots.len() && 0 <= t < m.slots.len() && s != t ==> rects_disjoint(
                #[trigger] m.slots[s].rect,
                #[trigger] m.slots[t].rect,
            ),
{
    broadcast use vstd::multiset::group_multiset_axioms;

    let len = m.slots.len();
    assert forall|s: int| 0 <= s < len implies rect_inside(#[trigger] m.slots[s].rect, m.size) by {
        let r = m.slots[s].rect;
        lemma_live_at(m.slots, s);
        lemma_live_mono(m.slots, (s + 1) as nat, len, r);
        assert(held_rects(m).count(r) > 0);
        lemma_carved_once(m.size, r);
        let (c, k) = choose|c: int, k: int| 0 <= c < 4 && 0 <= k < carved(m.size, c).len() && #[trigger] carved(m.size, c)[k] == r;
        carved_tiles_fit_and_do_not_overlap(m.size, c, k, c, k);
    }
    assert forall|s: int, t: int| 0 <= s < len && 0 <= t < len && s != t implies rects_disjoint(
        #[trigger] m.slots[s].rect,
        #[trigger] m.slots[t].rect,
    ) by {
        let r1 = m.slots[s].rect;
        let r2 = m.slots[t].rect;
        lemma_carved_once(m.size, r1);
        lemma_carved_once(m.size, r2);
        let (lo, hi) = if s < t { (s, t) } else { (t, s) };
        lemma_live_at(m.slots, lo);
        lemma_live_mono(m.slots, (lo + 1) as nat, hi as nat, m.slots[lo].rect);
        lemma_live_at(m.slots, hi);
        lemma_live_mono(m.slots, (hi + 1) as nat, len, m.slots[hi].rect);
        lemma_live_mono(m.slots, (lo + 1) as nat, len, m.slots[lo].rect);
        if r1 == r2 {
            assert(live_rects(m.slots, len).count(r1) >= 2);
            assert(held_rects(m).count(r1) >= 2);
        }
        assert(held_rects(m).count(r1) > 0);
        assert(held_rects(m).count(r2) > 0);
        let (c1, k1) = choose|c: int, k: int| 0 <= c < 4 && 0 <= k < carved(m.size, c).len() && #[trigger] carved(m.size, c)[k] == r1;
        let (c2, k2) = choose|c: int, k: int| 0 <= c < 4 && 0 <= k < carved(m.size, c).len() && #[trigger] carved(m.size, c)[k] == r2;
        carved_tiles_fit_and_do_not_overlap(m.size, c1, k1, c2, k2);
    }
}

// ---------------------------------------------------------------------------
// One tile per light.
// ---------------------------------------------------------------------------

/// No two requests are for the same light.
pub open spec fn one_request_per_light(reqs: Seq<ShadowRequest>) -> bool {
    forall|i: int, j: int| 0 <= i < j < reqs.len() ==> (#[trigger] reqs[i]).light != (#[trigger] reqs[j]).light
}

/// The request served `j`-th.
pub open spec fn served_index(reqs: Seq<ShadowRequest>, j: int) -> int {
    request_order(reqs)[j].index as int
}

proof fn lemma_served_distinct(reqs: Seq<ShadowRequest>)
    requires
        reqs.len() <= usize::MAX,
    ensures
        forall|j: int| 0 <= j < reqs.len() ==> 0 <= #[trigger] served_index(reqs, j) < reqs.len(),
        forall|a: int, b: int|
            0 <= a < reqs.len() && 0 <= b < reqs.len() && a != b ==> #[trigger] served_index(reqs, a)
                != #[trigger] served_index(reqs, b),
{
    let keys = request_keys(reqs);
    crate::rank::lemma_ranked_indices(keys, reqs.len() as int);
    lemma_queue_distinct(keys);
}

/// The lights the claim has handed out so far: each kept slot and each new
/// slot comes from its own request, served among the first `n`.
pub open spec fn claim_lights(st: ClaimModel, reqs: Seq<ShadowRequest>, n: int) -> bool {
    &&& forall|s: int|
        0 <= s < st.keep.len() && (#[trigger] st.keep[s]) is Some ==> exists|j: int|
            0 <= j < n && #[trigger] served_index(reqs, j) == (st.keep[s]->0).0 as int
    &&& forall|s: int, t: int|
        0 <= s < st.keep.len() && 0 <= t < st.keep.len() && s != t && (#[trigger] st.keep[s]) is Some
            && (#[trigger] st.keep[t]) is Some ==> (st.keep[s]->0).0 != (st.keep[t]->0).0
    &&& forall|a: int|
        0 <= a < st.new_slots.len() ==> exists|j: int|
            0 <= j < n && (#[trigger] st.new_slots[a]).0 == reqs[#[trigger] served_index(reqs, j)].light
    &&& forall|a: int, s: int|
        0 <= a < st.new_slots.len() && 0 <= s < st.keep.len() && (#[trigger] st.keep[s]) is Some
            ==> (#[trigger] st.new_slots[a]).0 != reqs[(st.keep[s]->0).0 as int].light
    &&& forall|a: int, b: int|
        0 <= a < st.new_slots.len() && 0 <= b < st.new_slots.len() && a != b ==> (#[trigger] st.new_slots[a]).0
            != (#[trigger] st.new_slots[b]).0
}

proof fn lemma_claim_lights(m: AtlasModel, reqs: Seq<ShadowRequest>, n: nat)
    requires
        n <= reqs.len(),
        reqs.len() <= usize::MAX,
        m.slots.len() <= usize::MAX,
        one_request_per_light(reqs),
    ensures
        claim_lights(claim_all(m, reqs, n), reqs, n as int),
        claim_asked(claim_all(m, reqs, n), reqs, m.slots.len() as int),
    decreases n,
{
    lemma_claim_asked(m, reqs, n);
    if n == 0 {
        assert(claim_all(m, reqs, 0) == claim_start(m));
    } else {
        lemma_claim_lights(m, reqs, (n - 1) as nat);
        lemma_claim_asked(m, reqs, (n - 1) as nat);
        lemma_served_distinct(reqs);
        let prev = claim_all(m, reqs, (n - 1) as nat);
        let i = served_index(reqs, n - 1);
        assert(0 <= i < reqs.len());
        let req = reqs[i];
        let class = spec_size_class(req.wanted);
        let side = tile_of(class);
        lemma_first_slot_found(prev.slots, req.light, side, 0);
        lemma_victim_scan(prev.slots, prev.keep, reqs, side, req.priority, prev.slots.len());
        let cur = claim_all(m, reqs, n);
        assert(cur == claim_step(prev, reqs, i));
        // Requests served before this one are other requests, for other lights.
        assert forall|j: int| 0 <= j < n - 1 implies #[trigger] served_index(reqs, j) != i && reqs[served_index(
            reqs,
            j,
        )].light != req.light by {
            let a = served_index(reqs, j);
            if a < i {
                assert(reqs[a].light != reqs[i].light);
            } else if i < a {
                assert(reqs[i].light != reqs[a].light);
            }
        }
        assert forall|s: int| 0 <= s < cur.keep.len() && (#[trigger] cur.keep[s]) is Some implies exists|j: int|
            0 <= j < n && #[trigger] served_index(reqs, j) == (cur.keep[s]->0).0 as int by {
            if prev.keep.len() == cur.keep.len() && cur.keep[s] == prev.keep[s] {
                let j = choose|j: int| 0 <= j < n - 1 && #[trigger] served_index(reqs, j) == (prev.keep[s]->0).0 as int;
                assert(served_index(reqs, j) == (cur.keep[s]->0).0 as int);
            } else {
                assert(served_index(reqs, n - 1) == (cur.keep[s]->0).0 as int);
            }
        }
        assert forall|a: int| 0 <= a < cur.new_slots.len() implies exists|j: int|
            0 <= j < n && (#[trigger] cur.new_slots[a]).0 == reqs[#[trigger] served_index(reqs, j)].light by {
            if a < prev.new_slots.len() {
                assert(cur.new_slots[a] == prev.new_slots[a]);
                let j = choose|j: int| 0 <= j < n - 1 && (#[trigger] prev.new_slots[a]).0 == reqs[#[trigger] served_index(reqs, j)].light;
                assert(cur.new_slots[a].0 == reqs[served_index(reqs, j)].light);
            } else {
                assert(cur.new_slots[a].0 == reqs[served_index(reqs, n - 1)].light);
            }
        }
        // Kept slots of earlier requests carry lights other than this one's.
        assert forall|s: int| 0 <= s < prev.keep.len() && (#[trigger] prev.keep[s]) is Some implies (prev.keep[s]->0).0
            != i && reqs[(prev.keep[s]->0).0 as int].light != req.light by {
            let j = choose|j: int| 0 <= j < n - 1 && #[trigger] served_index(reqs, j) == (prev.keep[s]->0).0 as int;
            assert(served_index(reqs, j) != i);
        }
        assert forall|a: int| 0 <= a < prev.new_slots.len() implies (#[trigger] prev.new_slots[a]).0 != req.light by {
            let j = choose|j: int| 0 <= j < n - 1 && (#[trigger] prev.new_slots[a]).0 == reqs[#[trigger] served_index(reqs, j)].light;
            assert(reqs[served_index(reqs, j)].light != req.light);
        }
        assert(claim_lights(cur, reqs, n as int));
    }
}

/// The table rebuilt so far holds kept slots only, lights all different.
pub open spec fn rebuild_lights(rb: RebuildModel, cs: ClaimModel, n: int) -> bool {
    &&& forall|a: int|
        0 <= a < rb.next.len() ==> exists|s: int|
            0 <= s < n && (#[trigger] cs.keep[s]) is Some && #[trigger] rb.next[a] == cs.slots[s]
    &&& forall|a: int, b: int|
        0 <= a < rb.next.len() && 0 <= b < rb.next.len() && a != b ==> (#[trigger] rb.next[a]).light
            != (#[trigger] rb.next[b]).light
}

proof fn lemma_rebuild_lights(cs: ClaimModel, old_stale: Seq<u32>, reqs: Seq<ShadowRequest>, n: nat)
    requires
        n <= cs.slots.len(),
        one_request_per_light(reqs),
        claim_lights(cs, reqs, reqs.len() as int),
        claim_asked(cs, reqs, cs.slots.len() as int),
    ensures
        rebuild_lights(rebuild_all(cs, old_stale, reqs, n), cs, n as int),
    decreases n,
{
    if n > 0 {
        lemma_rebuild_lights(cs, old_stale, reqs, (n - 1) as nat);
        let prev = rebuild_all(cs, old_stale, reqs, (n - 1) as nat);
        let cur = rebuild_all(cs, old_stale, reqs, n);
        let s = n - 1;
        let slot = cs.slots[s];
        assert(cur == rebuild_step(prev, cs, old_stale, reqs, s));
        if cs.keep[s] is Some {
            let k = cs.keep[s]->0;
            assert(cur.next == prev.next.push(slot));
            assert forall|a: int| 0 <= a < cur.next.len() implies exists|s2: int|
                0 <= s2 < n && (#[trigger] cs.keep[s2]) is Some && #[trigger] cur.next[a] == cs.slots[s2] by {
                if a < prev.next.len() {
                    let s2 = choose|s2: int| 0 <= s2 < n - 1 && (#[trigger] cs.keep[s2]) is Some && #[trigger] prev.next[a] == cs.slots[s2];
                    assert(cur.next[a] == cs.slots[s2]);
                } else {
                    assert(cur.next[a] == cs.slots[s]);
                }
            }
            assert forall|a: int| 0 <= a < prev.next.len() implies (#[trigger] prev.next[a]).light != slot.light by {
                let s2 = choose|s2: int| 0 <= s2 < n - 1 && (#[trigger] cs.keep[s2]) is Some && #[trigger] prev.next[a] == cs.slots[s2];
                let k2 = cs.keep[s2]->0;
                assert(k2.0 != k.0);
                assert(reqs[k2.0 as int].light == cs.slots[s2].light);
                assert(reqs[k.0 as int].light == slot.light);
                if k2.0 < k.0 {
                    assert(reqs[k2.0 as int].light != reqs[k.0 as int].light);
                } else {
                    assert(reqs[k.0 as int].light != reqs[k2.0 as int].light);
                }
            }
            assert forall|a: int, b: int| 0 <= a < cur.next.len() && 0 <= b < cur.next.len() && a != b implies (
            #[trigger] cur.next[a]).light != (#[trigger] cur.next[b]).light by {
                if a < prev.next.len() && b < prev.next.len() {
                    assert(cur.next[a] == prev.next[a] && cur.next[b] == prev.next[b]);
                } else if a < prev.next.len() {
                    assert(cur.next[a] == prev.next[a]);
                } else {
                    assert(cur.next[b] == prev.next[b]);
                }
            }
        }
    }
}

/// The table after placing: kept slots and placed new ones, lights all
/// different.
pub open spec fn place_lights(rb: RebuildModel, cs: ClaimModel, news: Seq<(u32, usize, u64)>, n: int) -> bool {
    &&& forall|a: int|
        0 <= a < rb.next.len() ==> (exists|s: int|
            0 <= s < cs.keep.len() && (#[trigger] cs.keep[s]) is Some && #[trigger] rb.next[a] == cs.slots[s]) || (
        exists|j: int| 0 <= j < n && #[trigger] news[j].0 == (#[trigger] rb.next[a]).light)
    &&& forall|a: int, b: int|
        0 <= a < rb.next.len() && 0 <= b < rb.next.len() && a != b ==> (#[trigger] rb.next[a]).light
            != (#[trigger] rb.next[b]).light
}

proof fn lemma_place_lights(rb: RebuildModel, cs: ClaimModel, reqs: Seq<ShadowRequest>, n: nat)
    requires
        n <= cs.new_slots.len(),
        one_request_per_light(reqs),
        claim_lights(cs, reqs, reqs.len() as int),
        claim_asked(cs, reqs, cs.slots.len() as int),
        rebuild_lights(rb, cs, cs.slots.len() as int),
    ensures
        place_lights(place_all(rb, reqs, cs.new_slots, n), cs, cs.new_slots, n as int),
    decreases n,
{
    let news = cs.new_slots;
    if n == 0 {
        let p = place_all(rb, reqs, news, 0);
        assert forall|a: int| 0 <= a < p.next.len() implies (exists|s: int|
            0 <= s < cs.keep.len() && (#[trigger] cs.keep[s]) is Some && #[trigger] p.next[a] == cs.slots[s]) || (
        exists|j: int| 0 <= j < 0 && #[trigger] news[j].0 == (#[trigger] p.next[a]).light) by {
            let s2 = choose|s2: int| 0 <= s2 < cs.slots.len() && (#[trigger] cs.keep[s2]) is Some && #[trigger] rb.next[a] == cs.slots[s2];
        }
    } else {
        lemma_place_lights(rb, cs, reqs, (n - 1) as nat);
        let prev = place_all(rb, reqs, news, (n - 1) as nat);
        let cur = place_all(rb, reqs, news, n);
        let ns = news[n - 1];
        let class = ns.1 as int;
        if prev.free[class].len() > 0 {
            let slot = ShadowSlot { light: ns.0, rect: prev.free[class].last(), drawn: None };
            assert(cur.next == prev.next.push(slot));
            assert forall|a: int| 0 <= a < prev.next.len() implies (#[trigger] prev.next[a]).light != ns.0 by {
                if exists|s: int|
                    0 <= s < cs.keep.len() && (#[trigger] cs.keep[s]) is Some && #[trigger] prev.next[a] == cs.slots[s] {
                    let s = choose|s: int|
                        0 <= s < cs.keep.len() && (#[trigger] cs.keep[s]) is Some && #[trigger] prev.next[a] == cs.slots[s];
                    let k = cs.keep[s]->0;
                    assert(reqs[k.0 as int].light == cs.slots[s].light);
                    assert(news[n - 1].0 != reqs[(cs.keep[s]->0).0 as int].light);
                } else {
                    let j = choose|j: int| 0 <= j < n - 1 && #[trigger] news[j].0 == (#[trigger] prev.next[a]).light;
                    assert(news[j].0 != news[n - 1].0);
                }
            }
            assert forall|a: int| 0 <= a < cur.next.len() implies (exists|s: int|
                0 <= s < cs.keep.len() && (#[trigger] cs.keep[s]) is Some && #[trigger] cur.next[a] == cs.slots[s]) || (
            exists|j: int| 0 <= j < n && #[trigger] news[j].0 == (#[trigger] cur.next[a]).light) by {
                if a < prev.next.len() {
                    assert(cur.next[a] == prev.next[a]);
                    if exists|s: int|
                        0 <= s < cs.keep.len() && (#[trigger] cs.keep[s]) is Some && #[trigger] prev.next[a] == cs.slots[s] {
                        let s = choose|s: int|
                            0 <= s < cs.keep.len() && (#[trigger] cs.keep[s]) is Some && #[trigger] prev.next[a] == cs.slots[s];
                        assert(cur.next[a] == cs.slots[s]);
                    } else {
                        let j = choose|j: int| 0 <= j < n - 1 && #[trigger] news[j].0 == (#[trigger] prev.next[a]).light;
                        assert(news[j].0 == cur.next[a].light);
                    }
                } else {
                    assert(news[n - 1].0 == cur.next[a].light);
                }
            }
            assert forall|a: int, b: int| 0 <= a < cur.next.len() && 0 <= b < cur.next.len() && a != b implies (
            #[trigger] cur.next[a]).light != (#[trigger] cur.next[b]).light by {
                if a < prev.next.len() && b < prev.next.len() {
                    assert(cur.next[a] == prev.next[a] && cur.next[b] == prev.next[b]);
                } else if a < prev.next.len() {
                    assert(cur.next[a] == prev.next[a]);
                } else {
                    assert(cur.next[b] == prev.next[b]);
                }
            }
        } else {
            assert forall|a: int| 0 <= a < cur.next.len() implies (exists|s: int|
                0 <= s < cs.keep.len() && (#[trigger] cs.keep[s]) is Some && #[trigger] cur.next[a] == cs.slots[s]) || (
            exists|j: int| 0 <= j < n && #[trigger] news[j].0 == (#[trigger] cur.next[a]).light) by {
                if exists|s: int|
                    0 <= s < cs.keep.len() && (#[trigger] cs.keep[s]) is Some && #[trigger] prev.next[a] == cs.slots[s] {
                } else {
                    let j = choose|j: int| 0 <= j < n - 1 && #[trigger] news[j].0 == (#[trigger] prev.next[a]).light;
                }
            }
        }
    }
}

proof fn lemma_spend_lights(sm: SpendModel, budget: u64, queue: Seq<RankKey>, n: nat)
    requires
        n <= queue.len(),
        forall|k: int| 0 <= k < queue.len() ==> (#[trigger] queue[k]).index < sm.slots.len(),
    ensures
        spend_all(sm, budget, queue, n).slots.len() == sm.slots.len(),
        forall|i: int|
            0 <= i < sm.slots.len() ==> (#[trigger] spend_all(sm, budget, queue, n).slots[i]).light == sm.slots[i].light,
    decreases n,
{
    if n > 0 {
        lemma_spend_lights(sm, budget, queue, (n - 1) as nat);
        let prev = spend_all(sm, budget, queue, (n - 1) as nat);
        let cur = spend_all(sm, budget, queue, n);
        assert forall|i: int| 0 <= i < sm.slots.len() implies (#[trigger] cur.slots[i]).light == sm.slots[i].light by {
            assert(prev.slots[i].light == sm.slots[i].light);
        }
    }
}

/// With one request per light, a plan leaves every light with one tile at
/// most, and every tile with a light that asked for one.
pub proof fn each_light_holds_one_tile_at_most(m: AtlasModel, reqs: Seq<ShadowRequest>)
    requires
        m.slots.len() <= usize::MAX,
        reqs.len() <= usize::MAX,
        one_request_per_light(reqs),
    ensures
        forall|s: int|
            0 <= s < plan_atlas(m, reqs).slots.len() ==> is_requested(reqs, (#[trigger] plan_atlas(m, reqs).slots[s]).light),
        forall|s: int, t: int|
            0 <= s < plan_atlas(m, reqs).slots.len() && 0 <= t < plan_atlas(m, reqs).slots.len() && s != t
                ==> (#[trigger] plan_atlas(m, reqs).slots[s]).light != (#[trigger] plan_atlas(m, reqs).slots[t]).light,
{
    lemma_claim_lights(m, reqs, reqs.len());
    let cs = plan_claim(m, reqs);
    lemma_rebuild_lights(cs, m.stale, reqs, cs.slots.len());
    let rb = rebuild_all(cs, m.stale, reqs, cs.slots.len());
    lemma_place_lights(rb, cs, reqs, cs.new_slots.len());
    let pl = plan_table(m, reqs);
    lemma_rebuild_indices(cs, m.stale, reqs, cs.slots.len());
    lemma_place_indices(rb, reqs, cs.new_slots, cs.new_slots.len());
    crate::rank::lemma_ranked_indices(pl.wanted, pl.next.len() as int);
    let queue = ranked(pl.wanted);
    let sm = SpendModel {
        slots: pl.next,
        stale: pl.stale,
        worst: m.worst_stale,
        render: Seq::empty(),
        texels: 0,
        deferred: 0,
    };
    lemma_spend_lights(sm, m.budget, queue, queue.len());
    let a = plan_atlas(m, reqs);
    lemma_served_distinct(reqs);
    assert forall|s: int| 0 <= s < a.slots.len() implies is_requested(reqs, (#[trigger] a.slots[s]).light) by {
        assert(a.slots[s].light == pl.next[s].light);
        if exists|s2: int|
            0 <= s2 < cs.keep.len() && (#[trigger] cs.keep[s2]) is Some && #[trigger] pl.next[s] == cs.slots[s2] {
            let s2 = choose|s2: int|
                0 <= s2 < cs.keep.len() && (#[trigger] cs.keep[s2]) is Some && #[trigger] pl.next[s] == cs.slots[s2];
            let k = cs.keep[s2]->0;
            assert(reqs[k.0 as int].light == a.slots[s].light);
        } else {
            let j = choose|j: int| 0 <= j < cs.new_slots.len() && #[trigger] cs.new_slots[j].0 == (#[trigger] pl.next[s]).light;
            let jj = choose|jj: int|
                0 <= jj < reqs.len() && (#[trigger] cs.new_slots[j]).0 == reqs[#[trigger] served_index(reqs, jj)].light;
            assert(reqs[served_index(reqs, jj)].light == a.slots[s].light);
        }
    }
    assert forall|s: int, t: int| 0 <= s < a.slots.len() && 0 <= t < a.slots.len() && s != t implies (
    #[trigger] a.slots[s]).light != (#[trigger] a.slots[t]).light by {
        assert(a.slots[s].light == pl.next[s].light);
        assert(a.slots[t].light == pl.next[t].light);
    }
}

} // verus!
