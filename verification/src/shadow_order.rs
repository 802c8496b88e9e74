//! The plan of the shadow atlas does not depend on the order in which its
//! requests arrive: requests are served by priority, then by light, and with
//! one request per light that order is total.

use vstd::prelude::*;
use vstd::relations::{sorted_by, total_ordering};
use vstd::seq_lib::lemma_sorted_unique;

use crate::rank::{lemma_map_multiset, lemma_ranked_indices, lemma_rank_total, rank_order, RankKey};
use crate::shadow_atlas::{
    claim_all, claim_step, first_slot_from, place_all, place_step, plan_atlas, plan_claim,
    plan_result, plan_table, rebuild_all, rebuild_step, request_keys, request_order, request_prio,
    request_prio_from, victim_eligible, victim_scan, AtlasModel, ClaimModel, RebuildModel,
    ShadowRequest,
};

verus! {

/// No two requests are for the same light.
pub open spec fn distinct_lights(reqs: Seq<ShadowRequest>) -> bool {
    forall|i: int, j: int|
        0 <= i < reqs.len() && 0 <= j < reqs.len() && i != j ==> (#[trigger] reqs[i]).light
            != (#[trigger] reqs[j]).light
}

/// Serving order of requests: priority, highest first, then light, then the
/// remaining fields.
pub open spec fn request_leq(a: ShadowRequest, b: ShadowRequest) -> bool {
    ||| a.priority > b.priority
    ||| a.priority == b.priority && a.light < b.light
    ||| a.priority == b.priority && a.light == b.light && a.wanted < b.wanted
    ||| a.priority == b.priority && a.light == b.light && a.wanted == b.wanted && a.version <= b.version
}

pub open spec fn serving_order() -> spec_fn(ShadowRequest, ShadowRequest) -> bool {
    |a: ShadowRequest, b: ShadowRequest| request_leq(a, b)
}

proof fn lemma_serving_order_total()
    ensures
        total_ordering(serving_order()),
{
    assert forall|a: ShadowRequest, b: ShadowRequest|
        #[trigger] serving_order()(a, b) && #[trigger] serving_order()(b, a) implies a == b by {}
}

/// The requests in the order a plan serves them.
pub open spec fn served(reqs: Seq<ShadowRequest>) -> Seq<ShadowRequest> {
    request_order(reqs).map_values(|k: RankKey| reqs[k.index as int])
}

/// With one request per light, the served order is the requests sorted by
/// the serving order.
proof fn lemma_served(reqs: Seq<ShadowRequest>)
    requires
        distinct_lights(reqs),
        reqs.len() <= usize::MAX,
    ensures
        served(reqs).len() == reqs.len(),
        served(reqs).to_multiset() == reqs.to_multiset(),
        sorted_by(served(reqs), serving_order()),
        forall|k: int|
            0 <= k < reqs.len() ==> #[trigger] request_order(reqs)[k].index < reqs.len()
                && served(reqs)[k] == reqs[request_order(reqs)[k].index as int],
{
    broadcast use vstd::seq_lib::group_to_multiset_ensures;

    lemma_rank_total();
    let keys = request_keys(reqs);
    keys.lemma_sort_by_ensures(rank_order());
    let o = request_order(reqs);
    lemma_ranked_indices(keys, reqs.len() as int);
    let f = |k: RankKey| reqs[k.index as int];
    lemma_map_multiset(o, keys, f);
    assert(keys.map_values(f) =~= reqs);
    let sv = served(reqs);
    assert forall|a: int, b: int| 0 <= a < b < sv.len() implies #[trigger] serving_order()(
        sv[a],
        sv[b],
    ) by {
        assert(rank_order()(o[a], o[b]));
        assert(o.to_multiset().count(o[a]) > 0);
        assert(o.to_multiset().count(o[b]) > 0);
        assert(keys.contains(o[a]));
        assert(keys.contains(o[b]));
        let ia = choose|i: int| 0 <= i < keys.len() && keys[i] == o[a];
        let ib = choose|i: int| 0 <= i < keys.len() && keys[i] == o[b];
        assert(o[a].index as int == ia);
        assert(o[b].index as int == ib);
        if ia != ib {
            assert(reqs[ia].light != reqs[ib].light);
        }
    }
}

/// Two arrivals of the same requests, one light each, are served in the same
/// order.
proof fn lemma_served_same(reqs: Seq<ShadowRequest>, shuffled: Seq<ShadowRequest>)
    requires
        distinct_lights(reqs),
        distinct_lights(shuffled),
        shuffled.to_multiset() == reqs.to_multiset(),
        reqs.len() <= usize::MAX,
    ensures
        shuffled.len() == reqs.len(),
        served(shuffled) == served(reqs),
{
    broadcast use vstd::seq_lib::group_to_multiset_ensures;

    assert(shuffled.len() == shuffled.to_multiset().len());
    assert(reqs.len() == reqs.to_multiset().len());
    lemma_served(reqs);
    lemma_served(shuffled);
    lemma_serving_order_total();
    lemma_sorted_unique(served(shuffled), served(reqs), serving_order());
}

/// The priority looked up for a light is that of its request, or the
/// default when it has none.
proof fn lemma_request_prio_from(reqs: Seq<ShadowRequest>, light: u32, default: i32, i: int)
    requires
        distinct_lights(reqs),
        0 <= i,
    ensures
        (forall|j: int| i <= j < reqs.len() ==> (#[trigger] reqs[j]).light != light) ==> request_prio_from(
            reqs,
            light,
            default,
            i,
        ) == default,
        forall|j: int|
            i <= j < reqs.len() && (#[trigger] reqs[j]).light == light ==> request_prio_from(
                reqs,
                light,
                default,
                i,
            ) == reqs[j].priority,
    decreases reqs.len() - i,
{
    if i < reqs.len() {
        lemma_request_prio_from(reqs, light, default, i + 1);
    }
}

/// Two arrivals of the same requests look up the same priority for a light.
proof fn lemma_request_prio_same(
    reqs: Seq<ShadowRequest>,
    shuffled: Seq<ShadowRequest>,
    light: u32,
    default: i32,
)
    requires
        distinct_lights(reqs),
        distinct_lights(shuffled),
        shuffled.to_multiset() == reqs.to_multiset(),
    ensures
        request_prio(shuffled, light, default) == request_prio(reqs, light, default),
{
    broadcast use vstd::seq_lib::group_to_multiset_ensures;

    lemma_request_prio_from(reqs, light, default, 0);
    lemma_request_prio_from(shuffled, light, default, 0);
    if exists|j: int| 0 <= j < reqs.len() && (#[trigger] reqs[j]).light == light {
        let j = choose|j: int| 0 <= j < reqs.len() && (#[trigger] reqs[j]).light == light;
        assert(reqs.contains(reqs[j]));
        assert(reqs.to_multiset().count(reqs[j]) > 0);
        assert(shuffled.to_multiset().count(reqs[j]) > 0);
        assert(shuffled.contains(reqs[j]));
    } else if exists|j: int| 0 <= j < shuffled.len() && (#[trigger] shuffled[j]).light == light {
        let j = choose|j: int| 0 <= j < shuffled.len() && (#[trigger] shuffled[j]).light == light;
        assert(shuffled.contains(shuffled[j]));
        assert(shuffled.to_multiset().count(shuffled[j]) > 0);
        assert(reqs.to_multiset().count(shuffled[j]) > 0);
        assert(reqs.contains(shuffled[j]));
    }
}

/// What a claimed slot carries, with the request named by its priority
/// rather than by its position.
pub open spec fn kept_as(keep: Seq<Option<(usize, u64)>>, reqs: Seq<ShadowRequest>) -> Seq<Option<(i32, u64)>> {
    keep.map_values(
        |o: Option<(usize, u64)>|
            match o {
                Some(k) => Some((reqs[k.0 as int].priority, k.1)),
                None => None,
            },
    )
}

/// Two claim states that differ only in how they name requests.
pub open spec fn claims_agree(a: ClaimModel, ra: Seq<ShadowRequest>, b: ClaimModel, rb: Seq<ShadowRequest>) -> bool {
    &&& a.slots == b.slots
    &&& a.slots.len() <= usize::MAX
    &&& a.free == b.free
    &&& a.keep.len() == a.slots.len()
    &&& b.keep.len() == b.slots.len()
    &&& kept_as(a.keep, ra) == kept_as(b.keep, rb)
    &&& a.new_slots == b.new_slots
    &&& a.evicted == b.evicted
    &&& a.unplaced == b.unplaced
}

/// Two request lists that look up the same priority for every light.
pub open spec fn same_lookup(ra: Seq<ShadowRequest>, rb: Seq<ShadowRequest>) -> bool {
    forall|light: u32, default: i32| #[trigger] request_prio(ra, light, default) == request_prio(rb, light, default)
}

proof fn lemma_first_slot_in_range(slots: Seq<crate::shadow_atlas::ShadowSlot>, light: u32, side: u32, i: int)
    requires
        0 <= i,
        slots.len() <= usize::MAX,
    ensures
        first_slot_from(slots, light, side, i) matches Some(e) ==> i <= e < slots.len(),
    decreases slots.len() - i,
{
    if i < slots.len() {
        lemma_first_slot_in_range(slots, light, side, i + 1);
    }
}

proof fn lemma_victim_scan_agrees(
    a: ClaimModel,
    ra: Seq<ShadowRequest>,
    b: ClaimModel,
    rb: Seq<ShadowRequest>,
    side: u32,
    taker: i32,
    n: nat,
)
    requires
        claims_agree(a, ra, b, rb),
        same_lookup(ra, rb),
        n <= a.slots.len(),
    ensures
        victim_scan(a.slots, a.keep, ra, side, taker, n) == victim_scan(b.slots, b.keep, rb, side, taker, n),
        victim_scan(a.slots, a.keep, ra, side, taker, n) matches Some(v) ==> v.0 < n,
    decreases n,
{
    if n > 0 {
        lemma_victim_scan_agrees(a, ra, b, rb, side, taker, (n - 1) as nat);
        let s = n - 1;
        assert(kept_as(a.keep, ra)[s] == kept_as(b.keep, rb)[s]);
        assert(request_prio(ra, a.slots[s].light, crate::shadow_atlas::NEG_INFINITY_KEY) == request_prio(
            rb,
            a.slots[s].light,
            crate::shadow_atlas::NEG_INFINITY_KEY,
        ));
        assert(victim_eligible(a.slots, a.keep, ra, side, taker, s) == victim_eligible(
            b.slots,
            b.keep,
            rb,
            side,
            taker,
            s,
        ));
    }
}

/// One claim step on the same request keeps two agreeing states agreeing.
proof fn lemma_claim_step_agrees(
    a: ClaimModel,
    ra: Seq<ShadowRequest>,
    ia: int,
    b: ClaimModel,
    rb: Seq<ShadowRequest>,
    ib: int,
)
    requires
        claims_agree(a, ra, b, rb),
        same_lookup(ra, rb),
        0 <= ia < ra.len(),
        0 <= ib < rb.len(),
        ra.len() <= usize::MAX,
        rb.len() <= usize::MAX,
        ra[ia] == rb[ib],
    ensures
        claims_agree(claim_step(a, ra, ia), ra, claim_step(b, rb, ib), rb),
{
    let req = ra[ia];
    let class = crate::shadow_atlas::spec_size_class(req.wanted);
    let side = crate::shadow_atlas::tile_of(class);
    lemma_first_slot_in_range(a.slots, req.light, side, 0);
    let na = claim_step(a, ra, ia);
    let nb = claim_step(b, rb, ib);
    match first_slot_from(a.slots, req.light, side, 0) {
        Some(e) => {
            assert(kept_as(na.keep, ra) =~= kept_as(a.keep, ra).update(e as int, Some((req.priority, req.version))));
            assert(kept_as(nb.keep, rb) =~= kept_as(b.keep, rb).update(e as int, Some((req.priority, req.version))));
        },
        None => {
            if a.free[class].len() == 0 {
                lemma_victim_scan_agrees(a, ra, b, rb, side, req.priority, a.slots.len());
                match victim_scan(a.slots, a.keep, ra, side, req.priority, a.slots.len()) {
                    Some(v) => {
                        assert(kept_as(na.keep, ra) =~= kept_as(a.keep, ra).update(v.0 as int, None));
                        assert(kept_as(nb.keep, rb) =~= kept_as(b.keep, rb).update(v.0 as int, None));
                    },
                    None => {},
                }
            }
        },
    }
}

/// The claim phase over the first `n` served requests agrees on two arrivals
/// that are served in the same order.
proof fn lemma_claim_all_agrees(m: AtlasModel, ra: Seq<ShadowRequest>, rb: Seq<ShadowRequest>, n: nat)
    requires
        distinct_lights(ra),
        distinct_lights(rb),
        ra.len() <= usize::MAX,
        rb.len() == ra.len(),
        served(ra) == served(rb),
        same_lookup(ra, rb),
        n <= ra.len(),
        m.slots.len() <= usize::MAX,
    ensures
        claims_agree(claim_all(m, ra, n), ra, claim_all(m, rb, n), rb),
    decreases n,
{
    if n == 0 {
        assert(kept_as(claim_all(m, ra, 0).keep, ra) =~= kept_as(claim_all(m, rb, 0).keep, rb));
    } else {
        lemma_claim_all_agrees(m, ra, rb, (n - 1) as nat);
        lemma_served(ra);
        lemma_served(rb);
        let k = n - 1;
        assert(request_order(ra)[k].index < ra.len());
        assert(request_order(rb)[k].index < rb.len());
        assert(served(ra)[k] == served(rb)[k]);
        lemma_claim_step_agrees(
            claim_all(m, ra, (n - 1) as nat),
            ra,
            request_order(ra)[k].index as int,
            claim_all(m, rb, (n - 1) as nat),
            rb,
            request_order(rb)[k].index as int,
        );
    }
}

/// Rebuilding the table from two agreeing claim states gives the same table.
proof fn lemma_rebuild_all_agrees(
    a: ClaimModel,
    ra: Seq<ShadowRequest>,
    b: ClaimModel,
    rb: Seq<ShadowRequest>,
    stale: Seq<u32>,
    n: nat,
)
    requires
        claims_agree(a, ra, b, rb),
        n <= a.slots.len(),
    ensures
        rebuild_all(a, stale, ra, n) == rebuild_all(b, stale, rb, n),
    decreases n,
{
    if n > 0 {
        lemma_rebuild_all_agrees(a, ra, b, rb, stale, (n - 1) as nat);
        let s = n - 1;
        assert(kept_as(a.keep, ra)[s] == kept_as(b.keep, rb)[s]);
        let prev: RebuildModel = rebuild_all(a, stale, ra, (n - 1) as nat);
        assert(rebuild_step(prev, a, stale, ra, s) == rebuild_step(prev, b, stale, rb, s));
    }
}

/// Placing the same new slots with two request lists that look up the same
/// priorities gives the same table.
proof fn lemma_place_all_agrees(
    rbm: RebuildModel,
    ra: Seq<ShadowRequest>,
    rb: Seq<ShadowRequest>,
    news: Seq<(u32, usize, u64)>,
    n: nat,
)
    requires
        same_lookup(ra, rb),
    ensures
        place_all(rbm, ra, news, n) == place_all(rbm, rb, news, n),
    decreases n,
{
    if n > 0 {
        lemma_place_all_agrees(rbm, ra, rb, news, (n - 1) as nat);
        let prev = place_all(rbm, ra, news, (n - 1) as nat);
        assert(request_prio(ra, news[n - 1].0, crate::shadow_atlas::ZERO_KEY) == request_prio(
            rb,
            news[n - 1].0,
            crate::shadow_atlas::ZERO_KEY,
        ));
        assert(place_step(prev, ra, news[n - 1]) == place_step(prev, rb, news[n - 1]));
    }
}

/// The order in which requests arrive changes nothing: two arrivals of the
/// same requests, one per light, give the same plan and leave the atlas in
/// the same state.
pub proof fn the_plan_does_not_depend_on_the_order_requests_arrive_in(
    m: AtlasModel,
    reqs: Seq<ShadowRequest>,
    shuffled: Seq<ShadowRequest>,
)
    requires
        distinct_lights(reqs),
        distinct_lights(shuffled),
        shuffled.to_multiset() == reqs.to_multiset(),
        reqs.len() <= usize::MAX,
        m.slots.len() <= usize::MAX,
    ensures
        plan_atlas(m, shuffled) == plan_atlas(m, reqs),
        plan_result(m, shuffled) == plan_result(m, reqs),
{
    lemma_served_same(reqs, shuffled);
    assert forall|light: u32, default: i32| #[trigger] request_prio(reqs, light, default) == request_prio(
        shuffled,
        light,
        default,
    ) by {
        lemma_request_prio_same(reqs, shuffled, light, default);
    }
    let n = reqs.len();
    lemma_claim_all_agrees(m, reqs, shuffled, n);
    let ca = plan_claim(m, reqs);
    let cb = plan_claim(m, shuffled);
    lemma_rebuild_all_agrees(ca, reqs, cb, shuffled, m.stale, ca.slots.len());
    let r0 = rebuild_all(ca, m.stale, reqs, ca.slots.len());
    lemma_place_all_agrees(r0, reqs, shuffled, ca.new_slots, ca.new_slots.len());
    assert(plan_table(m, shuffled) == plan_table(m, reqs));
}

} // verus!
