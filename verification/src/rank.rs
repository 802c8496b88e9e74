//! Ranking of queue entries: by priority, highest first, then by light, then
//! by position. The order is total, so the sorted sequence is unique.

use vstd::prelude::*;
use vstd::relations::{sorted_by, total_ordering};
use vstd::seq_lib::{lemma_multiset_commutative, lemma_sorted_unique};

verus! {

/// One entry of a queue, with everything it is ranked by.
#[derive(Clone, Copy, Debug)]
pub struct RankKey {
    /// Order key of the priority: larger comes first.
    pub prio: i32,
    /// Smaller light first among equal priorities.
    pub light: u32,
    /// Smaller position first among equal priorities and lights.
    pub index: usize,
    /// Carried along; ranks last.
    pub version: u64,
}

/// `a` comes no later than `b`.
pub open spec fn rank_leq(a: RankKey, b: RankKey) -> bool {
    ||| a.prio > b.prio
    ||| a.prio == b.prio && a.light < b.light
    ||| a.prio == b.prio && a.light == b.light && a.index < b.index
    ||| a.prio == b.prio && a.light == b.light && a.index == b.index && a.version <= b.version
}

pub open spec fn rank_order() -> spec_fn(RankKey, RankKey) -> bool {
    |a: RankKey, b: RankKey| rank_leq(a, b)
}

/// The entries of `keys` in rank order.
pub open spec fn ranked(keys: Seq<RankKey>) -> Seq<RankKey> {
    keys.sort_by(rank_order())
}

pub proof fn lemma_rank_total()
    ensures
        total_ordering(rank_order()),
{
    assert forall|a: RankKey, b: RankKey|
        #[trigger] rank_order()(a, b) && #[trigger] rank_order()(b, a) implies a == b by {
    }
}

fn rank_lt_exec(a: &RankKey, b: &RankKey) -> (r: bool)
    ensures
        r == !rank_leq(*b, *a),
{
    if a.prio != b.prio {
        a.prio > b.prio
    } else if a.light != b.light {
        a.light < b.light
    } else if a.index != b.index {
        a.index < b.index
    } else {
        a.version < b.version
    }
}

/// Sorts `keys` into rank order.
pub fn sort_ranked(keys: Vec<RankKey>) -> (out: Vec<RankKey>)
    ensures
        out@ == ranked(keys@),
{
    let mut out: Vec<RankKey> = Vec::new();
    let mut i: usize = 0;
    proof {
        lemma_rank_total();
        assert(keys@.take(0) =~= Seq::<RankKey>::empty());
        broadcast use vstd::seq_lib::group_to_multiset_ensures;
        assert(out@ =~= Seq::<RankKey>::empty());
        assert(out@.to_multiset().len() == 0);
        assert(keys@.take(0).to_multiset().len() == 0);
    }
    while i < keys.len()
        invariant
            i <= keys.len(),
            total_ordering(rank_order()),
            sorted_by(out@, rank_order()),
            out@.to_multiset() == keys@.take(i as int).to_multiset(),
        decreases keys.len() - i,
    {
        let x = keys[i];
        let mut p: usize = 0;
        while p < out.len()
            invariant
                p <= out.len(),
                total_ordering(rank_order()),
                forall|j: int| 0 <= j < p ==> rank_leq(#[trigger] out@[j], x),
            ensures
                p <= out.len(),
                forall|j: int| 0 <= j < p ==> rank_leq(#[trigger] out@[j], x),
                p < out.len() ==> !rank_leq(out@[p as int], x),
            decreases out.len() - p,
        {
            if rank_lt_exec(&x, &out[p]) {
                break;
            }
            p = p + 1;
        }
        let ghost before = out@;
        out.insert(p, x);
        proof {
            assert(out@ =~= before.subrange(0, p as int).push(x) + before.subrange(
                p as int,
                before.len() as int,
            ));
            assert(sorted_by(out@, rank_order())) by {
                assert forall|a: int, b: int| 0 <= a < b < out@.len() implies #[trigger] rank_order()(
                    out@[a],
                    out@[b],
                ) by {
                    if b < p {
                    } else if a < p && b == p {
                    } else if a < p {
                        assert(rank_leq(before[a], x));
                        assert(rank_order()(before[a], before[b - 1]));
                    } else if a == p {
                        assert(!rank_leq(before[p as int], x));
                        assert(rank_order()(before[p as int], before[b - 1]) || b - 1 == p);
                    } else {
                        assert(rank_order()(before[a - 1], before[b - 1]));
                    }
                }
            }
            lemma_multiset_commutative(before.subrange(0, p as int).push(x), before.subrange(p as int, before.len() as int));
            lemma_multiset_commutative(before.subrange(0, p as int), before.subrange(p as int, before.len() as int));
            assert(before =~= before.subrange(0, p as int) + before.subrange(p as int, before.len() as int));
            assert(keys@.take(i + 1) =~= keys@.take(i as int).push(x));
            broadcast use vstd::seq_lib::group_to_multiset_ensures;
        }
        i = i + 1;
    }
    proof {
        assert(keys@.take(keys.len() as int) =~= keys@);
        keys@.lemma_sort_by_ensures(rank_order());
        lemma_sorted_unique(out@, ranked(keys@), rank_order());
    }
    out
}

/// Ranking keeps the entries: a bound on every position before ranking
/// bounds every position after.
pub proof fn lemma_ranked_indices(keys: Seq<RankKey>, bound: int)
    requires
        forall|j: int| 0 <= j < keys.len() ==> (#[trigger] keys[j]).index < bound,
    ensures
        ranked(keys).len() == keys.len(),
        forall|j: int| 0 <= j < ranked(keys).len() ==> (#[trigger] ranked(keys)[j]).index < bound,
{
    broadcast use vstd::seq_lib::group_to_multiset_ensures;

    lemma_rank_total();
    keys.lemma_sort_by_ensures(rank_order());
    let o = ranked(keys);
    assert(o.len() == o.to_multiset().len());
    assert(keys.len() == keys.to_multiset().len());
    assert forall|j: int| 0 <= j < o.len() implies #[trigger] o[j].index < bound by {
        assert(o.to_multiset().count(o[j]) > 0);
        assert(keys.contains(o[j]));
    }
}

/// Mapping two sequences with the same elements gives two sequences with the
/// same elements.
pub(crate) proof fn lemma_map_multiset<A, B>(a: Seq<A>, b: Seq<A>, f: spec_fn(A) -> B)
    requires
        a.to_multiset() == b.to_multiset(),
    ensures
        a.map_values(f).to_multiset() == b.map_values(f).to_multiset(),
    decreases a.len(),
{
    broadcast use vstd::seq_lib::group_to_multiset_ensures;
    broadcast use vstd::multiset::group_multiset_axioms;

    assert(b.len() == b.to_multiset().len());
    assert(a.len() == a.to_multiset().len());
    if a.len() == 0 {
        assert(a.map_values(f) =~= b.map_values(f));
    } else {
        let x = a.last();
        let a1 = a.drop_last();
        assert(a =~= a1.push(x));
        assert(a.contains(x)) by {
            assert(a[a.len() - 1] == x);
        }
        assert(a.to_multiset().count(x) > 0);
        assert(b.to_multiset().count(x) > 0);
        assert(b.contains(x));
        let j = choose|j: int| 0 <= j < b.len() && b[j] == x;
        let b1 = b.remove(j);
        assert(a1.to_multiset() =~= b1.to_multiset());
        lemma_map_multiset(a1, b1, f);
        let fa = a.map_values(f);
        let fb = b.map_values(f);
        assert(fa =~= a1.map_values(f).push(f(x)));
        assert(fb.remove(j) =~= b1.map_values(f));
        assert(fb[j] == f(x));
        assert(fb.to_multiset() =~= fb.remove(j).to_multiset().insert(f(x)));
    }
}

} // verus!
