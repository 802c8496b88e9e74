//! Cutting a primitive into meshlets: its triangles are put in Morton order of
//! their centroids, then cut into groups of a fixed size. Cutting them in file
//! order would group triangles from far apart on the mesh, whose box covers
//! half the primitive, which is what culling does not want.
//!
//! The centroids and boxes are floating point and stay with the caller; it
//! hands in each triangle's quantised cell, and gets back the order, the
//! groups and the reordered indices.

use vstd::prelude::*;
use vstd::relations::{sorted_by, total_ordering};
use vstd::seq_lib::{lemma_multiset_commutative, lemma_sorted_unique};

verus! {

/// Triangles per meshlet, when meshlets are used.
pub const MESHLET_TRIS: usize = 128;

/// The ten low bits of `v`, spread three apart: bit `i` goes to bit `3 i`.
pub open spec fn spread10(v: u32) -> u32 {
    (v & 1) | (((v >> 1u32) & 1) << 3u32) | (((v >> 2u32) & 1) << 6u32) | (((v >> 3u32) & 1) << 9u32) | (((v
        >> 4u32) & 1) << 12u32) | (((v >> 5u32) & 1) << 15u32) | (((v >> 6u32) & 1) << 18u32) | (((v >> 7u32)
        & 1) << 21u32) | (((v >> 8u32) & 1) << 24u32) | (((v >> 9u32) & 1) << 27u32)
}

/// The Morton code of a cell: the bits of `x`, `y` and `z` (ten each)
/// interleaved, `x` lowest.
pub open spec fn spec_morton3(x: u32, y: u32, z: u32) -> u32 {
    spread10(x) | (spread10(y) << 1u32) | (spread10(z) << 2u32)
}

fn part(v: u32) -> (r: u32)
    ensures
        r == spread10(v),
{
    let v1 = v & 0x3ff;
    let v2 = (v1 | (v1 << 16u32)) & 0x030000ff;
    let v3 = (v2 | (v2 << 8u32)) & 0x0300f00f;
    let v4 = (v3 | (v3 << 4u32)) & 0x030c30c3;
    let v5 = (v4 | (v4 << 2u32)) & 0x09249249;
    assert(v5 == spread10(v)) by (bit_vector)
        requires
            v1 == v & 0x3ff,
            v2 == (v1 | (v1 << 16u32)) & 0x030000ff,
            v3 == (v2 | (v2 << 8u32)) & 0x0300f00f,
            v4 == (v3 | (v3 << 4u32)) & 0x030c30c3,
            v5 == (v4 | (v4 << 2u32)) & 0x09249249,
    ;
    v5
}

/// Interleaves the bits of three 10-bit values.
pub fn morton3(x: u32, y: u32, z: u32) -> (m: u32)
    ensures
        m == spec_morton3(x, y, z),
{
    part(x) | (part(y) << 1u32) | (part(z) << 2u32)
}

/// Two cells of the 1024-wide grid never share a code.
pub proof fn distinct_cells_have_distinct_codes(x: u32, y: u32, z: u32, a: u32, b: u32, c: u32)
    requires
        x < 1024 && y < 1024 && z < 1024,
        a < 1024 && b < 1024 && c < 1024,
        spec_morton3(x, y, z) == spec_morton3(a, b, c),
    ensures
        x == a && y == b && z == c,
{
    assert(x == a && y == b && z == c) by (bit_vector)
        requires
            x < 1024 && y < 1024 && z < 1024,
            a < 1024 && b < 1024 && c < 1024,
            spread10(x) | (spread10(y) << 1u32) | (spread10(z) << 2u32) == spread10(a) | (spread10(b) << 1u32) | (
            spread10(c) << 2u32),
    ;
}

/// One meshlet: its primitive, and the span of the primitive's reordered
/// index buffer it draws.
#[derive(Clone, Copy, Debug, PartialEq, Eq, Structural)]
pub struct MeshletRange {
    pub prim: u32,
    pub first_index: u32,
    pub index_count: u32,
}

/// A triangle's code, then its position: `a` sorts no later than `b`.
pub open spec fn code_leq(a: (u32, u32), b: (u32, u32)) -> bool {
    a.0 < b.0 || (a.0 == b.0 && a.1 <= b.1)
}

pub open spec fn code_order() -> spec_fn((u32, u32), (u32, u32)) -> bool {
    |a: (u32, u32), b: (u32, u32)| code_leq(a, b)
}

/// Each triangle with its code.
pub open spec fn keyed(codes: Seq<u32>) -> Seq<(u32, u32)> {
    Seq::new(codes.len(), |t: int| (codes[t], t as u32))
}

/// At least one triangle per meshlet.
pub open spec fn per_meshlet(tris: usize) -> nat {
    if tris >= 1 {
        tris as nat
    } else {
        1
    }
}

/// The order the triangles are grouped in: by code, ties by position;
/// when one meshlet takes them all, the order of the file is kept, as
/// sorting would only spoil the locality it has.
pub open spec fn triangle_order(codes: Seq<u32>, per: nat) -> Seq<u32> {
    if per < codes.len() {
        keyed(codes).sort_by(code_order()).map_values(|k: (u32, u32)| k.1)
    } else {
        Seq::new(codes.len(), |t: int| t as u32)
    }
}

/// The `m`-th meshlet of `n` triangles cut `per` at a time.
pub open spec fn spec_meshlet(prim: u32, n: nat, per: nat, m: int) -> MeshletRange {
    MeshletRange {
        prim,
        first_index: (3 * per * m) as u32,
        index_count: (3 * (if per <= n - per * m {
            per as int
        } else {
            n - per * m
        })) as u32,
    }
}

proof fn lemma_code_total()
    ensures
        total_ordering(code_order()),
{
}

fn code_lt(a: (u32, u32), b: (u32, u32)) -> (r: bool)
    ensures
        r == !code_leq(b, a),
{
    a.0 < b.0 || (a.0 == b.0 && a.1 < b.1)
}

/// Sorts `keys` by code, ties by position.
pub fn sort_by_code(keys: Vec<(u32, u32)>) -> (out: Vec<(u32, u32)>)
    ensures
        out@ == keys@.sort_by(code_order()),
{
    let mut out: Vec<(u32, u32)> = Vec::new();
    let mut i: usize = 0;
    proof {
        lemma_code_total();
        assert(keys@.take(0) =~= Seq::<(u32, u32)>::empty());
        broadcast use vstd::seq_lib::group_to_multiset_ensures;
        assert(out@ =~= Seq::<(u32, u32)>::empty());
    }
    while i < keys.len()
        invariant
            i <= keys.len(),
            total_ordering(code_order()),
            sorted_by(out@, code_order()),
            out@.to_multiset() == keys@.take(i as int).to_multiset(),
        decreases keys.len() - i,
    {
        let x = keys[i];
        let mut p: usize = 0;
        while p < out.len()
            invariant
                p <= out.len(),
                total_ordering(code_order()),
                forall|j: int| 0 <= j < p ==> code_leq(#[trigger] out@[j], x),
            ensures
                p <= out.len(),
                forall|j: int| 0 <= j < p ==> code_leq(#[trigger] out@[j], x),
                p < out.len() ==> !code_leq(out@[p as int], x),
            decreases out.len() - p,
        {
            if code_lt(x, out[p]) {
                break;
            }
            p = p + 1;
        }
        let ghost before = out@;
        out.insert(p, x);
        proof {
            assert(out@ =~= before.subrange(0, p as int).push(x) + before.subrange(
                p as int,
                before.len() as int,
            ));
            assert(sorted_by(out@, code_order())) by {
                assert forall|a: int, b: int| 0 <= a < b < out@.len() implies #[trigger] code_order()(
                    out@[a],
                    out@[b],
                ) by {
                    if b < p {
                    } else if a < p && b == p {
                    } else if a < p {
                        assert(code_leq(before[a], x));
                        assert(code_order()(before[a], before[b - 1]));
                    } else if a == p {
                        assert(!code_leq(before[p as int], x));
                        assert(code_order()(before[p as int], before[b - 1]) || b - 1 == p);
                    } else {
                        assert(code_order()(before[a - 1], before[b - 1]));
                    }
                }
            }
            lemma_multiset_commutative(
                before.subrange(0, p as int).push(x),
                before.subrange(p as int, before.len() as int),
            );
            lemma_multiset_commutative(before.subrange(0, p as int), before.subrange(p as int, before.len() as int));
            assert(before =~= before.subrange(0, p as int) + before.subrange(p as int, before.len() as int));
            assert(keys@.take(i + 1) =~= keys@.take(i as int).push(x));
            broadcast use vstd::seq_lib::group_to_multiset_ensures;
        }
        i = i + 1;
    }
    proof {
        assert(keys@.take(keys.len() as int) =~= keys@);
        keys@.lemma_sort_by_ensures(code_order());
        lemma_sorted_unique(out@, keys@.sort_by(code_order()), code_order());
    }
    out
}

/// Corner `k` of triangle `t` of an index list.
pub open spec fn corner(indices: Seq<u32>, t: int, k: int) -> u32 {
    indices[3 * t + k]
}

/// Where group `i` starts when items are cut `per` at a time.
pub open spec fn group_start(per: int, i: int) -> int {
    per * i
}

/// Cutting `n` items `per` at a time makes `ceil(n / per)` groups, and each
/// group starts before the end.
proof fn lemma_meshlet_count(n: int, per: int)
    requires
        n >= 0,
        per >= 1,
    ensures
        n / per + (if n % per == 0 {
            0int
        } else {
            1int
        }) == (n + per - 1) / per,
        forall|i: int|
            0 <= i < n / per + (if n % per == 0 {
                0int
            } else {
                1int
            }) ==> #[trigger] group_start(per, i) < n,
{
    vstd::arithmetic::div_mod::lemma_fundamental_div_mod(n, per);
    let q = n / per;
    let r = n % per;
    if r == 0 {
        assert(n + per - 1 == per * q + (per - 1));
        vstd::arithmetic::div_mod::lemma_fundamental_div_mod_converse(n + per - 1, per, q, per - 1);
    } else {
        assert(n + per - 1 == per * (q + 1) + (r - 1)) by (nonlinear_arith)
            requires
                n == per * q + r,
        ;
        vstd::arithmetic::div_mod::lemma_fundamental_div_mod_converse(n + per - 1, per, q + 1, r - 1);
    }
    assert forall|i: int|
        0 <= i < q + (if r == 0 {
            0int
        } else {
            1int
        }) implies #[trigger] group_start(per, i) < n by {
        if i < q {
            assert(per * i <= per * (q - 1)) by (nonlinear_arith)
                requires
                    i <= q - 1,
                    per >= 1,
            ;
            assert(per * (q - 1) + per == per * q) by (nonlinear_arith);
        } else {
            assert(i == q);
        }
    }
}

/// The order of the triangles has one entry per triangle, each naming a
/// triangle; the sorted order lists them by code.
proof fn lemma_order_in_range(codes: Seq<u32>, per: nat)
    requires
        codes.len() <= u32::MAX,
    ensures
        triangle_order(codes, per).len() == codes.len(),
        forall|j: int| 0 <= j < codes.len() ==> (#[trigger] triangle_order(codes, per)[j]) < codes.len(),
        per < codes.len() ==> forall|j: int|
            0 <= j < codes.len() ==> #[trigger] triangle_order(codes, per)[j] == keyed(codes).sort_by(
                code_order(),
            )[j].1,
        per < codes.len() ==> keyed(codes).sort_by(code_order()).len() == codes.len(),
{
    broadcast use vstd::seq_lib::group_to_multiset_ensures;

    let k = keyed(codes);
    lemma_code_total();
    k.lemma_sort_by_ensures(code_order());
    let o = k.sort_by(code_order());
    assert(o.len() == o.to_multiset().len());
    assert(k.len() == k.to_multiset().len());
    if per < codes.len() {
        assert forall|j: int| 0 <= j < codes.len() implies (#[trigger] triangle_order(codes, per)[j]) < codes.len() by {
            assert(o.to_multiset().count(o[j]) > 0);
            assert(k.contains(o[j]));
        }
    }
}

/// Cuts a primitive into meshlets of `tris_per_meshlet` triangles (at least
/// one), the triangles in the order of their codes (`codes[t]` for triangle
/// `t`, which is `indices[3 t .. 3 t + 3]`). Returns the meshlets and the
/// indices in the new order, still relative to the primitive.
pub fn meshlet_layout(codes: &[u32], indices: &[u32], tris_per_meshlet: usize, prim: u32) -> (r: (
    Vec<MeshletRange>,
    Vec<u32>,
))
    requires
        codes@.len() == indices@.len() / 3,
        indices@.len() <= u32::MAX,
    ensures
        ({
            let n = codes@.len();
            let per = per_meshlet(tris_per_meshlet);
            let order = triangle_order(codes@, per);
            &&& r.1@.len() == 3 * n
            &&& forall|j: int, k: int|
                0 <= j < n && 0 <= k < 3 ==> #[trigger] corner(r.1@, j, k) == corner(indices@, order[j] as int, k)
            &&& r.0@.len() == (n + per - 1) / per as int
            &&& forall|m: int| 0 <= m < r.0@.len() ==> #[trigger] r.0@[m] == spec_meshlet(prim, n, per, m)
        }),
{
    let per: usize = if tris_per_meshlet >= 1 {
        tris_per_meshlet
    } else {
        1
    };
    let n = codes.len();
    let mut keys: Vec<(u32, u32)> = Vec::new();
    let mut t: usize = 0;
    while t < n
        invariant
            t <= n,
            n == codes@.len(),
            n <= u32::MAX,
            keys@ == keyed(codes@).take(t as int),
        decreases n - t,
    {
        keys.push((codes[t], t as u32));
        proof {
            assert(keys@ =~= keyed(codes@).take(t + 1));
        }
        t = t + 1;
    }
    proof {
        assert(keys@ =~= keyed(codes@));
    }
    let order: Vec<(u32, u32)> = if per < n {
        sort_by_code(keys)
    } else {
        keys
    };
    let ghost tri_order = triangle_order(codes@, per as nat);
    proof {
        lemma_order_in_range(codes@, per as nat);
        if per < n {
            assert(forall|j: int| 0 <= j < n ==> #[trigger] tri_order[j] == order@[j].1);
        } else {
            assert(forall|j: int| 0 <= j < n ==> #[trigger] tri_order[j] == order@[j].1);
        }
    }
    let mut out_idx: Vec<u32> = Vec::new();
    let mut j: usize = 0;
    while j < n
        invariant
            j <= n,
            n == codes@.len(),
            n == indices@.len() / 3,
            indices@.len() <= u32::MAX,
            order@.len() == n,
            tri_order.len() == n,
            forall|i: int| 0 <= i < n ==> #[trigger] tri_order[i] == order@[i].1,
            forall|i: int| 0 <= i < n ==> (#[trigger] tri_order[i]) < n,
            out_idx@.len() == 3 * j,
            forall|i: int, k: int|
                0 <= i < j && 0 <= k < 3 ==> #[trigger] corner(out_idx@, i, k) == corner(indices@, tri_order[i] as int, k),
        decreases n - j,
    {
        let tri = order[j].1 as usize;
        assert(tri_order[j as int] == tri);
        let ghost before = out_idx@;
        out_idx.push(indices[3 * tri]);
        out_idx.push(indices[3 * tri + 1]);
        out_idx.push(indices[3 * tri + 2]);
        proof {
            assert(out_idx@ =~= before + seq![indices@[3 * tri], indices@[3 * tri + 1], indices@[3 * tri + 2]]);
            assert forall|i: int, k: int| 0 <= i < j + 1 && 0 <= k < 3 implies #[trigger] corner(out_idx@, i, k)
                == corner(indices@, tri_order[i] as int, k) by {
                if i < j {
                    assert(3 * i + k < 3 * j);
                    assert(corner(before, i, k) == corner(indices@, tri_order[i] as int, k));
                    assert(out_idx@[3 * i + k] == before[3 * i + k]);
                } else {
                    assert(i == j);
                    assert(out_idx@[3 * i + k] == indices@[3 * tri + k]);
                }
            }
        }
        j = j + 1;
    }
    let total = n / per + if n % per == 0 {
        0
    } else {
        1
    };
    proof {
        lemma_meshlet_count(n as int, per as int);
    }
    let mut meshlets: Vec<MeshletRange> = Vec::new();
    let mut m: usize = 0;
    while m < total
        invariant
            m <= total,
            total == (n + per - 1) / per as int,
            per >= 1,
            n <= u32::MAX / 3,
            forall|i: int| 0 <= i < total ==> #[trigger] group_start(per as int, i) < n,
            meshlets@.len() == m,
            forall|i: int| 0 <= i < m ==> #[trigger] meshlets@[i] == spec_meshlet(prim, n as nat, per as nat, i),
        decreases total - m,
    {
        assert(group_start(per as int, m as int) < n);
        let start = per * m;
        let left = n - start;
        let count = if per <= left {
            per
        } else {
            left
        };
        meshlets.push(MeshletRange { prim, first_index: (3 * start) as u32, index_count: (3 * count) as u32 });
        proof {
            assert(3 * per * m == 3 * start) by (nonlinear_arith)
                requires
                    start == per * m,
            ;
        }
        m = m + 1;
    }
    (meshlets, out_idx)
}

/// Each entry of the sorted keys is some triangle's own key.
proof fn lemma_sorted_keys_are_keys(codes: Seq<u32>)
    requires
        codes.len() <= u32::MAX,
    ensures
        keyed(codes).sort_by(code_order()).len() == codes.len(),
        sorted_by(keyed(codes).sort_by(code_order()), code_order()),
        keyed(codes).sort_by(code_order()).no_duplicates(),
        forall|j: int|
            0 <= j < codes.len() ==> {
                let e = #[trigger] keyed(codes).sort_by(code_order())[j];
                &&& e.1 < codes.len()
                &&& e.0 == codes[e.1 as int]
            },
{
    broadcast use vstd::seq_lib::group_to_multiset_ensures;

    let k = keyed(codes);
    lemma_code_total();
    k.lemma_sort_by_ensures(code_order());
    let o = k.sort_by(code_order());
    assert(o.len() == o.to_multiset().len());
    assert(k.len() == k.to_multiset().len());
    assert forall|i: int, j: int| 0 <= i < k.len() && 0 <= j < k.len() && i != j implies k[i] != k[j] by {
        assert(k[i].1 == i as u32 && k[j].1 == j as u32);
    }
    assert(k.no_duplicates());
    k.lemma_multiset_has_no_duplicates();
    assert forall|x: (u32, u32)| o.to_multiset().contains(x) implies o.to_multiset().count(x) == 1 by {
        assert(k.to_multiset().contains(x));
    }
    o.lemma_multiset_has_no_duplicates_conv();
    assert forall|j: int| 0 <= j < codes.len() implies {
        let e = #[trigger] o[j];
        &&& e.1 < codes.len()
        &&& e.0 == codes[e.1 as int]
    } by {
        assert(o.to_multiset().count(o[j]) > 0);
        assert(k.contains(o[j]));
        let t = choose|t: int| 0 <= t < k.len() && k[t] == o[j];
        assert(k[t].1 == t as u32);
    }
}

/// Every triangle of the primitive lands in exactly one place of the new
/// order, and the meshlets follow one another through the reordered index
/// buffer from its start to its end, with nothing between them.
pub proof fn every_triangle_lands_in_one_meshlet(codes: Seq<u32>, per: nat, prim: u32)
    requires
        3 * codes.len() <= u32::MAX,
        per >= 1,
    ensures
        triangle_order(codes, per).len() == codes.len(),
        triangle_order(codes, per).no_duplicates(),
        forall|j: int| 0 <= j < codes.len() ==> (#[trigger] triangle_order(codes, per)[j]) < codes.len(),
        spec_meshlet(prim, codes.len(), per, 0).first_index == 0,
        forall|m: int|
            0 <= m && m + 1 < (codes.len() + per - 1) / per as int ==> #[trigger] spec_meshlet(
                prim,
                codes.len(),
                per,
                m,
            ).first_index + spec_meshlet(prim, codes.len(), per, m).index_count == spec_meshlet(
                prim,
                codes.len(),
                per,
                m + 1,
            ).first_index,
        codes.len() > 0 ==> ({
            let last = (codes.len() + per - 1) / per as int - 1;
            spec_meshlet(prim, codes.len(), per, last).first_index + spec_meshlet(
                prim,
                codes.len(),
                per,
                last,
            ).index_count == 3 * codes.len()
        }),
{
    let n = codes.len() as int;
    let p = per as int;
    lemma_order_in_range(codes, per);
    let order = triangle_order(codes, per);
    if per < codes.len() {
        lemma_sorted_keys_are_keys(codes);
        let o = keyed(codes).sort_by(code_order());
        assert forall|a: int, b: int| 0 <= a < order.len() && 0 <= b < order.len() && a != b implies order[a]
            != order[b] by {
            if order[a] == order[b] {
                assert(o[a].1 == o[b].1);
                assert(o[a] == o[b]);
            }
        }
    } else {
        assert forall|a: int, b: int| 0 <= a < order.len() && 0 <= b < order.len() && a != b implies order[a]
            != order[b] by {
        }
    }
    lemma_meshlet_count(n, p);
    let total = (n + p - 1) / p;
    assert(spec_meshlet(prim, codes.len(), per, 0).first_index == 0) by {
        assert(3 * p * 0 == 0) by (nonlinear_arith);
    }
    assert forall|m: int|
        0 <= m && m + 1 < total implies #[trigger] spec_meshlet(prim, codes.len(), per, m).first_index
        + spec_meshlet(prim, codes.len(), per, m).index_count == spec_meshlet(
        prim,
        codes.len(),
        per,
        m + 1,
    ).first_index by {
        assert(group_start(p, m + 1) < n);
        assert(p * (m + 1) == p * m + p) by (nonlinear_arith);
        assert(3 * p * m == 3 * (p * m)) by (nonlinear_arith);
        assert(3 * p * (m + 1) == 3 * (p * (m + 1))) by (nonlinear_arith);
        assert(0 <= p * m) by (nonlinear_arith)
            requires
                p >= 1,
                m >= 0,
        ;
        assert(n - p * m > p);
        assert(spec_meshlet(prim, codes.len(), per, m).index_count == 3 * p);
        assert(spec_meshlet(prim, codes.len(), per, m).first_index == 3 * (p * m));
        assert(spec_meshlet(prim, codes.len(), per, m + 1).first_index == 3 * (p * (m + 1)));
    }
    if n > 0 {
        let last = total - 1;
        assert(total >= 1) by {
            vstd::arithmetic::div_mod::lemma_div_is_ordered(p, n + p - 1, p);
            vstd::arithmetic::div_mod::lemma_div_by_self(p);
        }
        assert(group_start(p, last) < n);
        assert(p * last >= n - p) by {
            vstd::arithmetic::div_mod::lemma_fundamental_div_mod(n + p - 1, p);
            assert(n + p - 1 == p * total + (n + p - 1) % p);
            assert(p * last == p * total - p) by (nonlinear_arith)
                requires
                    last == total - 1,
            ;
        }
        assert(3 * p * last == 3 * (p * last)) by (nonlinear_arith);
        assert(0 <= p * last) by (nonlinear_arith)
            requires
                p >= 1,
                last >= 0,
        ;
        assert(n - p * last <= p);
        assert(spec_meshlet(prim, codes.len(), per, last).first_index == 3 * (p * last));
        assert(spec_meshlet(prim, codes.len(), per, last).index_count == 3 * (n - p * last));
    }
}

/// The new order lists the triangles by code: a triangle never comes after
/// one of a larger code.
pub proof fn triangles_come_in_code_order(codes: Seq<u32>, per: nat, a: int, b: int)
    requires
        codes.len() <= u32::MAX,
        per < codes.len(),
        0 <= a < b < codes.len(),
    ensures
        codes[triangle_order(codes, per)[a] as int] <= codes[triangle_order(codes, per)[b] as int],
{
    lemma_order_in_range(codes, per);
    lemma_sorted_keys_are_keys(codes);
    let o = keyed(codes).sort_by(code_order());
    assert(code_order()(o[a], o[b]));
    assert(o[a].0 == codes[o[a].1 as int]);
    assert(o[b].0 == codes[o[b].1 as int]);
}

} // verus!
