//! The index list of a UV sphere: a grid of `slices + 1` vertices per stack
//! row, two triangles per quad, wound counter-clockwise seen from outside.

use vstd::prelude::*;

verus! {

/// Slices of a sphere, at least three.
pub open spec fn grid_slices(slices: u32) -> int {
    if slices >= 3 {
        slices as int
    } else {
        3
    }
}

/// Stacks of a sphere, at least two.
pub open spec fn grid_stacks(stacks: u32) -> int {
    if stacks >= 2 {
        stacks as int
    } else {
        2
    }
}

/// Vertices of the grid: `slices + 1` per row, `stacks + 1` rows.
pub open spec fn sphere_vertex_count(slices: u32, stacks: u32) -> int {
    (grid_slices(slices) + 1) * (grid_stacks(stacks) + 1)
}

/// Corner `k` of the two triangles of quad `(st, sl)` in a grid of `s`
/// slices: `i0, i1, i2` then `i1, i3, i2`, where `i1` is right of `i0` and
/// `i2` is below it.
pub open spec fn quad_corner(s: int, st: int, sl: int, k: int) -> int {
    let i0 = st * (s + 1) + sl;
    let i1 = i0 + 1;
    let i2 = i0 + s + 1;
    let i3 = i2 + 1;
    if k == 0 {
        i0
    } else if k == 1 {
        i1
    } else if k == 2 {
        i2
    } else if k == 3 {
        i1
    } else if k == 4 {
        i3
    } else {
        i2
    }
}

/// Where corner `k` of quad `(st, sl)` sits in the index list.
pub open spec fn quad_slot(s: int, st: int, sl: int, k: int) -> int {
    (st * s + sl) * 6 + k
}

proof fn lemma_slot_before(s: int, st1: int, sl1: int, st2: int, sl2: int, k: int)
    requires
        0 <= sl1 < s,
        0 <= sl2 < s,
        0 <= st1,
        0 <= st2,
        st1 < st2 || (st1 == st2 && sl1 < sl2),
        0 <= k < 6,
    ensures
        quad_slot(s, st1, sl1, k) < (st2 * s + sl2) * 6,
{
    assert(st1 * s + sl1 < st2 * s + sl2) by (nonlinear_arith)
        requires
            0 <= sl1 < s,
            0 <= sl2 < s,
            0 <= st1,
            st1 < st2 || (st1 == st2 && sl1 < sl2),
    ;
}

proof fn lemma_corner_bound(s: int, t: int, st: int, sl: int, k: int)
    requires
        0 <= st < t,
        0 <= sl < s,
        0 <= k < 6,
    ensures
        0 <= quad_corner(s, st, sl, k) <= st * (s + 1) + sl + s + 2,
        st * (s + 1) + sl + s + 2 < (s + 1) * (t + 1),
{
    assert(0 <= st * (s + 1)) by (nonlinear_arith)
        requires
            0 <= st,
            0 <= s,
    ;
    assert(st * (s + 1) + sl + s + 2 < (s + 1) * (t + 1)) by (nonlinear_arith)
        requires
            0 <= st < t,
            0 <= sl < s,
    ;
}

/// The index list of a UV sphere of `slices × stacks` quads (at least 3 × 2).
pub fn sphere_indices(slices: u32, stacks: u32) -> (out: Vec<u32>)
    requires
        sphere_vertex_count(slices, stacks) <= u32::MAX,
    ensures
        out.len() == grid_slices(slices) * grid_stacks(stacks) * 6,
        forall|st: int, sl: int, k: int|
            0 <= st < grid_stacks(stacks) && 0 <= sl < grid_slices(slices) && 0 <= k < 6 ==> out@[#[trigger] quad_slot(
                grid_slices(slices),
                st,
                sl,
                k,
            )] == quad_corner(grid_slices(slices), st, sl, k),
{
    let s: u32 = if slices >= 3 {
        slices
    } else {
        3
    };
    let t: u32 = if stacks >= 2 {
        stacks
    } else {
        2
    };
    let ghost gs = s as int;
    let ghost gt = t as int;
    assert(s + 1 <= (s + 1) * (t + 1)) by (nonlinear_arith)
        requires
            t >= 2,
    ;
    let stride = s + 1;
    let mut out: Vec<u32> = Vec::new();
    let mut st: u32 = 0;
    while st < t
        invariant
            gs == s,
            gt == t,
            s >= 3,
            stride == s + 1,
            st <= t,
            (s + 1) * (t + 1) <= u32::MAX,
            out.len() == (st * gs) * 6,
            forall|a: int, b: int, k: int|
                0 <= a < st && 0 <= b < gs && 0 <= k < 6 ==> out@[#[trigger] quad_slot(gs, a, b, k)]
                    == quad_corner(gs, a, b, k),
        decreases t - st,
    {
        let mut sl: u32 = 0;
        while sl < s
            invariant
                gs == s,
                gt == t,
                s >= 3,
                stride == s + 1,
                st < t,
                sl <= s,
                (s + 1) * (t + 1) <= u32::MAX,
                out.len() == (st * gs + sl) * 6,
                forall|a: int, b: int, k: int|
                    0 <= k < 6 && 0 <= b < gs && (0 <= a < st || (a == st && 0 <= b < sl)) ==> out@[#[trigger] quad_slot(gs, a, b, k)]
                        == quad_corner(gs, a, b, k),
            decreases s - sl,
        {
            proof {
                lemma_corner_bound(gs, gt, st as int, sl as int, 4);
                assert(st * (s + 1) <= st * (s + 1) + sl);
            }
            let i0 = st * stride + sl;
            let i1 = i0 + 1;
            let i2 = i0 + stride;
            let i3 = i2 + 1;
            let ghost before = out@;
            out.push(i0);
            out.push(i1);
            out.push(i2);
            out.push(i1);
            out.push(i3);
            out.push(i2);
            proof {
                let base = (st * gs + sl) * 6;
                assert(out@ =~= before + seq![i0, i1, i2, i1, i3, i2]);
                assert forall|a: int, b: int, k: int|
                    0 <= k < 6 && 0 <= b < gs && (0 <= a < st || (a == st && 0 <= b < sl + 1)) implies out@[#[trigger] quad_slot(gs, a, b, k)]
                        == quad_corner(gs, a, b, k) by {
                    if a == st && b == sl {
                        assert(quad_slot(gs, a, b, k) == base + k);
                    } else {
                        lemma_slot_before(gs, a, b, st as int, sl as int, k);
                    }
                }
                assert((st * gs + sl + 1) * 6 == base + 6);
            }
            sl = sl + 1;
        }
        proof {
            assert(st * gs + gs == (st + 1) * gs) by (nonlinear_arith);
            assert forall|a: int, b: int, k: int|
                0 <= a < st + 1 && 0 <= b < gs && 0 <= k < 6 implies out@[#[trigger] quad_slot(gs, a, b, k)]
                    == quad_corner(gs, a, b, k) by {
                if a == st {
                    assert(b < sl);
                }
            }
        }
        st = st + 1;
    }
    proof {
        assert(gt * gs * 6 == gs * gt * 6) by (nonlinear_arith);
    }
    out
}

/// Every index of a sphere names a vertex of its grid, and every triangle
/// has three different corners.
pub proof fn sphere_indices_name_grid_vertices(slices: u32, stacks: u32, st: int, sl: int, k: int)
    requires
        0 <= st < grid_stacks(stacks),
        0 <= sl < grid_slices(slices),
        0 <= k < 6,
    ensures
        0 <= quad_corner(grid_slices(slices), st, sl, k) < sphere_vertex_count(slices, stacks),
        ({
            let s = grid_slices(slices);
            &&& quad_corner(s, st, sl, 0) != quad_corner(s, st, sl, 1)
            &&& quad_corner(s, st, sl, 0) != quad_corner(s, st, sl, 2)
            &&& quad_corner(s, st, sl, 1) != quad_corner(s, st, sl, 2)
            &&& quad_corner(s, st, sl, 3) != quad_corner(s, st, sl, 4)
            &&& quad_corner(s, st, sl, 3) != quad_corner(s, st, sl, 5)
            &&& quad_corner(s, st, sl, 4) != quad_corner(s, st, sl, 5)
        }),
{
    lemma_corner_bound(grid_slices(slices), grid_stacks(stacks), st, sl, k);
}

} // verus!
