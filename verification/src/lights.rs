//! Clustered lights: the cluster grid, and the flat index list the shader
//! walks, one range per cluster.
//!
//! Which clusters a light touches is decided from its sphere and cone in view
//! space; here the lists those decisions give are packed for upload, under a
//! cap on the index list that is counted, not silent.

use vstd::prelude::*;

verus! {

pub const CLUSTER_X: u32 = 16;
pub const CLUSTER_Y: u32 = 9;
pub const CLUSTER_Z: u32 = 24;
pub const CLUSTER_COUNT: u32 = 3456;
/// Cap on the flat index list. Going past it drops lights, which shows, so it
/// is counted.
pub const MAX_LIGHT_INDICES: usize = 262144;

/// `(offset, count)` in the flat index list, per cluster.
#[derive(Clone, Copy, Debug, Default)]
pub struct ClusterRange {
    pub offset: u32,
    pub count: u32,
}

/// Lights assigned to clusters, ready for upload.
#[derive(Clone, Debug, Default)]
pub struct ClusterAssignment {
    pub ranges: Vec<ClusterRange>,
    pub indices: Vec<u32>,
    /// Light slots that did not fit under [`MAX_LIGHT_INDICES`]. Should be 0.
    pub dropped: u32,
}

/// How many cluster slots the bounding spheres asked for, and how many were
/// left after the cone test.
#[derive(Clone, Copy, Debug, Default)]
pub struct ConeStats {
    pub sphere_slots: u64,
    pub cone_slots: u64,
}

/// The cluster at column `x`, row `y` (top down) and slice `z`.
pub open spec fn spec_cluster_index(x: int, y: int, z: int) -> int {
    (z * CLUSTER_Y + y) * CLUSTER_X + x
}

pub fn cluster_index(x: u32, y: u32, z: u32) -> (c: u32)
    requires
        x < CLUSTER_X,
        y < CLUSTER_Y,
        z < CLUSTER_Z,
    ensures
        c == spec_cluster_index(x as int, y as int, z as int),
        c < CLUSTER_COUNT,
{
    assert((z * CLUSTER_Y + y) * CLUSTER_X + x < CLUSTER_COUNT) by (nonlinear_arith)
        requires
            x < CLUSTER_X,
            y < CLUSTER_Y,
            z < CLUSTER_Z,
    ;
    (z * CLUSTER_Y + y) * CLUSTER_X + x
}

/// The packing of the first `n` clusters' light lists: their ranges, the
/// flat list, and how many light slots did not fit. Each cluster keeps as
/// many of its lights, in order, as there is room for.
pub open spec fn packed_upto(buckets: Seq<Seq<u32>>, n: int) -> (Seq<ClusterRange>, Seq<u32>, int)
    decreases n,
{
    if n <= 0 {
        (Seq::empty(), Seq::empty(), 0)
    } else {
        let prev = packed_upto(buckets, n - 1);
        let b = buckets[n - 1];
        let room = MAX_LIGHT_INDICES - prev.1.len();
        let take = if b.len() <= room { b.len() as int } else { room };
        (
            prev.0.push(ClusterRange { offset: prev.1.len() as u32, count: take as u32 }),
            prev.1 + b.take(take),
            prev.2 + (b.len() - take),
        )
    }
}

/// The upload: every cluster's range, and an index list that is never empty
/// (an empty buffer cannot be bound; a cluster with no lights reads none).
pub open spec fn spec_packed(buckets: Seq<Seq<u32>>) -> (Seq<ClusterRange>, Seq<u32>, int) {
    let p = packed_upto(buckets, buckets.len() as int);
    (p.0, if p.1.len() == 0 { seq![0u32] } else { p.1 }, p.2)
}

proof fn lemma_packed_bounds(buckets: Seq<Seq<u32>>, n: int)
    requires
        0 <= n <= buckets.len(),
    ensures
        packed_upto(buckets, n).0.len() == n,
        packed_upto(buckets, n).1.len() <= MAX_LIGHT_INDICES,
        packed_upto(buckets, n).2 >= 0,
        forall|c: int|
            0 <= c < n ==> {
                let r = #[trigger] packed_upto(buckets, n).0[c];
                &&& r.offset + r.count <= packed_upto(buckets, n).1.len()
                &&& packed_upto(buckets, n).1.subrange(r.offset as int, r.offset + r.count) == buckets[c].take(
                    r.count as int,
                )
            },
    decreases n,
{
    if n > 0 {
        lemma_packed_bounds(buckets, n - 1);
        let prev = packed_upto(buckets, n - 1);
        let cur = packed_upto(buckets, n);
        assert forall|c: int| 0 <= c < n implies {
            let r = #[trigger] cur.0[c];
            &&& r.offset + r.count <= cur.1.len()
            &&& cur.1.subrange(r.offset as int, r.offset + r.count) == buckets[c].take(r.count as int)
        } by {
            let r = cur.0[c];
            if c < n - 1 {
                assert(r == prev.0[c]);
                assert(cur.1.subrange(r.offset as int, r.offset + r.count) =~= prev.1.subrange(
                    r.offset as int,
                    r.offset + r.count,
                ));
            } else {
                assert(cur.1.subrange(r.offset as int, r.offset + r.count) =~= buckets[c].take(r.count as int));
            }
        }
    }
}

/// Packs the light list of each cluster into one flat index list, in cluster
/// order, under the cap; what does not fit is counted in `dropped`.
pub fn pack_buckets(buckets: &Vec<Vec<u32>>) -> (a: ClusterAssignment)
    requires
        packed_upto(buckets@.map_values(|b: Vec<u32>| b@), buckets@.len() as int).2 <= u32::MAX,
    ensures
        (a.ranges@, a.indices@, a.dropped as int) == spec_packed(buckets@.map_values(|b: Vec<u32>| b@)),
{
    let ghost bs = buckets@.map_values(|b: Vec<u32>| b@);
    let mut ranges: Vec<ClusterRange> = Vec::new();
    let mut indices: Vec<u32> = Vec::new();
    let mut dropped: u32 = 0;
    let mut c: usize = 0;
    while c < buckets.len()
        invariant
            c <= buckets.len(),
            bs == buckets@.map_values(|b: Vec<u32>| b@),
            packed_upto(bs, bs.len() as int).2 <= u32::MAX,
            (ranges@, indices@, dropped as int) == packed_upto(bs, c as int),
        decreases buckets.len() - c,
    {
        proof {
            lemma_packed_bounds(bs, c as int);
            lemma_dropped_grows(bs, c + 1, bs.len() as int);
        }
        let bucket = &buckets[c];
        assert(bucket@ == bs[c as int]);
        let offset = indices.len() as u32;
        let room = MAX_LIGHT_INDICES - indices.len();
        let take = if bucket.len() <= room { bucket.len() } else { room };
        dropped = dropped + (bucket.len() - take) as u32;
        let ghost before = indices@;
        let mut i: usize = 0;
        while i < take
            invariant
                i <= take,
                take <= bucket.len(),
                indices@ == before + bucket@.take(i as int),
            decreases take - i,
        {
            indices.push(bucket[i]);
            assert(indices@ =~= before + bucket@.take(i + 1));
            i = i + 1;
        }
        ranges.push(ClusterRange { offset, count: take as u32 });
        c = c + 1;
    }
    if indices.len() == 0 {
        indices.push(0);
        assert(indices@ =~= seq![0u32]);
    }
    ClusterAssignment { ranges, indices, dropped }
}

proof fn lemma_dropped_grows(buckets: Seq<Seq<u32>>, m: int, n: int)
    requires
        0 <= m <= n <= buckets.len(),
    ensures
        packed_upto(buckets, m).2 <= packed_upto(buckets, n).2,
    decreases n,
{
    if m < n {
        lemma_dropped_grows(buckets, m, n - 1);
        lemma_packed_bounds(buckets, n - 1);
    }
}

/// Every range points inside the index list, and holds the first lights of
/// its cluster, in order; the list stays under its cap (or is the one
/// placeholder index); what was kept and what was dropped add up to what was
/// asked for.
pub proof fn ranges_point_inside_the_index_list(buckets: Seq<Seq<u32>>)
    ensures
        spec_packed(buckets).0.len() == buckets.len(),
        spec_packed(buckets).1.len() <= MAX_LIGHT_INDICES,
        forall|c: int|
            0 <= c < buckets.len() ==> {
                let r = #[trigger] spec_packed(buckets).0[c];
                &&& r.offset + r.count <= spec_packed(buckets).1.len()
                &&& spec_packed(buckets).1.subrange(r.offset as int, r.offset + r.count) == buckets[c].take(
                    r.count as int,
                )
            },
        kept_and_dropped(buckets, buckets.len() as int),
{
    lemma_packed_bounds(buckets, buckets.len() as int);
    lemma_kept_and_dropped(buckets, buckets.len() as int);
    let p = packed_upto(buckets, buckets.len() as int);
    if p.1.len() == 0 {
        assert forall|c: int| 0 <= c < buckets.len() implies {
            let r = #[trigger] spec_packed(buckets).0[c];
            &&& r.offset + r.count <= spec_packed(buckets).1.len()
            &&& spec_packed(buckets).1.subrange(r.offset as int, r.offset + r.count) == buckets[c].take(
                r.count as int,
            )
        } by {
            let r = p.0[c];
            assert(r.offset + r.count <= 0);
            assert(spec_packed(buckets).1.subrange(r.offset as int, r.offset + r.count) =~= p.1.subrange(
                r.offset as int,
                r.offset + r.count,
            ));
        }
    }
}

/// The lights asked for by the first `n` clusters.
pub open spec fn asked_upto(buckets: Seq<Seq<u32>>, n: int) -> int
    decreases n,
{
    if n <= 0 {
        0
    } else {
        asked_upto(buckets, n - 1) + buckets[n - 1].len()
    }
}

/// Kept plus dropped is what the first `n` clusters asked for.
pub open spec fn kept_and_dropped(buckets: Seq<Seq<u32>>, n: int) -> bool {
    packed_upto(buckets, n).1.len() + packed_upto(buckets, n).2 == asked_upto(buckets, n)
}

proof fn lemma_kept_and_dropped(buckets: Seq<Seq<u32>>, n: int)
    requires
        0 <= n <= buckets.len(),
    ensures
        kept_and_dropped(buckets, n),
    decreases n,
{
    if n > 0 {
        lemma_kept_and_dropped(buckets, n - 1);
        lemma_packed_bounds(buckets, n - 1);
    }
}

} // verus!
