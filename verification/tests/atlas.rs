use harpia::shadow_atlas::{size_class, wanted_size, ShadowAtlas, ShadowRequest, TILE_SIZES};

/// The order key of a priority: larger key, larger priority.
fn key(p: f32) -> i32 {
    let p = if p == 0.0 { 0.0 } else { p };
    let b = p.to_bits() as i32;
    if b < 0 { b ^ 0x7fff_ffff } else { b }
}

fn fill_cache(atlas: &mut ShadowAtlas, reqs: &[ShadowRequest]) -> u32 {
    for frame in 0..200 {
        if atlas.plan(reqs).render.is_empty() {
            return frame;
        }
    }
    panic!("the cache did not settle in 200 frames");
}

fn req(light: u32, priority: f32, wanted: u32, version: u64) -> ShadowRequest {
    ShadowRequest { light, priority: key(priority), wanted, version }
}

#[test]
fn the_atlas_carves_tiles_that_fit_inside_it() {
    let atlas = ShadowAtlas::new(2048, u64::MAX);
    let cap = atlas.capacity();
    assert!(cap.iter().all(|&c| c > 0), "empty class: {cap:?}");
    let mut area = 0u64;
    for (class, &n) in cap.iter().enumerate() {
        area += n as u64 * (TILE_SIZES[class] as u64).pow(2);
    }
    assert!(area <= 2048u64 * 2048, "tiles add up to {area} texels");
    let mut rects: Vec<[u32; 3]> = Vec::new();
    for f in atlas.free() {
        rects.extend_from_slice(f);
    }
    for (i, a) in rects.iter().enumerate() {
        for b in &rects[i + 1..] {
            let disjoint =
                a[0] + a[2] <= b[0] || b[0] + b[2] <= a[0] || a[1] + a[2] <= b[1] || b[1] + b[2] <= a[1];
            assert!(disjoint, "overlapping tiles: {a:?} and {b:?}");
        }
    }
}

#[test]
fn the_budget_is_never_exceeded() {
    let budget = 2 * 512u64 * 512;
    let mut atlas = ShadowAtlas::new(2048, budget);
    let reqs: Vec<_> = (0..40).map(|i| req(i, 1.0 - i as f32 * 0.01, 512, 1)).collect();
    for frame in 0..20 {
        let plan = atlas.plan(&reqs);
        assert!(plan.texels <= budget, "frame {frame}: {} texels", plan.texels);
    }
}

#[test]
fn a_still_scene_converges_to_no_work() {
    let mut atlas = ShadowAtlas::new(2048, 512 * 512);
    let reqs: Vec<_> = (0..8).map(|i| req(i, 1.0 - i as f32 * 0.05, 256, 7)).collect();
    let frames = fill_cache(&mut atlas, &reqs);
    assert!(frames > 0, "drew nothing");
    assert!(frames < 50, "settled after {frames} frames");
    for slot in atlas.slots() {
        assert_eq!(slot.drawn, Some(7), "slot {slot:?} without the drawn version");
    }
}

#[test]
fn only_the_light_that_moved_is_redrawn() {
    let mut atlas = ShadowAtlas::new(2048, u64::MAX);
    let mut reqs: Vec<_> = (0..6).map(|i| req(i, 1.0 - i as f32 * 0.1, 256, 1)).collect();
    fill_cache(&mut atlas, &reqs);
    reqs[3].version = 2;
    let plan = atlas.plan(&reqs);
    assert_eq!(plan.render.len(), 1, "redrew {} slots", plan.render.len());
    assert_eq!(atlas.slots()[plan.render[0]].light, 3);
}

#[test]
fn the_highest_priority_dirty_slot_wins_the_budget() {
    let mut atlas = ShadowAtlas::new(2048, 256 * 256);
    let mut reqs = vec![req(0, 0.1, 256, 1), req(1, 0.9, 256, 1), req(2, 0.5, 256, 1)];
    fill_cache(&mut atlas, &reqs);
    for r in &mut reqs {
        r.version = 2;
    }
    let plan = atlas.plan(&reqs);
    assert_eq!(plan.render.len(), 1);
    assert_eq!(atlas.slots()[plan.render[0]].light, 1, "not the most important");
    assert_eq!(plan.deferred, 2);
    let plan = atlas.plan(&reqs);
    assert_eq!(atlas.slots()[plan.render[0]].light, 2);
}

#[test]
fn nothing_waits_forever() {
    let mut atlas = ShadowAtlas::new(2048, 256 * 256);
    let reqs: Vec<_> = (0..5).map(|i| req(i, 1.0 - i as f32 * 0.1, 256, 1)).collect();
    let mut seen = [false; 5];
    for _ in 0..20 {
        for &idx in &atlas.plan(&reqs).render {
            seen[atlas.slots()[idx].light as usize] = true;
        }
    }
    assert!(seen.iter().all(|&s| s), "never drawn: {seen:?}");
    assert!(atlas.worst_stale() <= 5, "someone waited {} frames", atlas.worst_stale());
}

#[test]
fn eviction_only_goes_downhill() {
    let mut atlas = ShadowAtlas::new(2048, u64::MAX);
    let small = atlas.capacity()[0];
    let filler: Vec<_> = (0..small as u32).map(|i| req(i, 0.1, 512, 1)).collect();
    atlas.plan(&filler);
    assert_eq!(atlas.slots().len(), small);

    let mut reqs = filler.clone();
    reqs.push(req(999, 5.0, 512, 1));
    let plan = atlas.plan(&reqs);
    assert_eq!(plan.evicted, 1, "evicted nobody");
    assert!(atlas.slots().iter().any(|s| s.light == 999), "the important light did not get in");

    let before: Vec<u32> = atlas.slots().iter().map(|s| s.light).collect();
    let mut reqs2 = reqs.clone();
    reqs2.push(req(1000, 0.0001, 512, 1));
    let plan2 = atlas.plan(&reqs2);
    assert_eq!(plan2.evicted, 0, "an unimportant light evicted someone");
    assert_eq!(plan2.unplaced, 2);
    let after: Vec<u32> = atlas.slots().iter().map(|s| s.light).collect();
    assert_eq!(before, after, "the slot table moved for no reason");
}

#[test]
fn a_slot_never_claims_content_it_was_not_given() {
    let mut atlas = ShadowAtlas::new(1024, 128 * 128);
    let reqs: Vec<_> = (0..10).map(|i| req(i, 1.0 - i as f32 * 0.05, 128, 3)).collect();
    for _ in 0..4 {
        let plan = atlas.plan(&reqs);
        let drawn: Vec<usize> = plan.render.clone();
        for (i, slot) in atlas.slots().iter().enumerate() {
            if slot.drawn.is_some() {
                assert!(drawn.contains(&i) || slot.drawn == Some(3), "slot {i} claims {:?}", slot.drawn);
            }
        }
    }
}

#[test]
fn the_plan_does_not_depend_on_the_order_requests_arrive_in() {
    let make = |lights: &[u32]| -> Vec<ShadowRequest> { lights.iter().map(|&l| req(l, 0.5, 256, 1)).collect() };
    let forward = make(&[0, 1, 2, 3, 4, 5, 6, 7]);
    let shuffled = make(&[5, 2, 7, 0, 3, 6, 1, 4]);

    let mut a = ShadowAtlas::new(1024, u64::MAX);
    a.plan(&forward);
    let mut b = ShadowAtlas::new(1024, u64::MAX);
    b.plan(&shuffled);

    let key = |at: &ShadowAtlas| {
        let mut v: Vec<(u32, [u32; 3])> = at.slots().iter().map(|s| (s.light, s.rect)).collect();
        v.sort();
        v
    };
    assert_eq!(key(&a), key(&b), "the order of the requests changed the assignment");
}

#[test]
fn wanted_size_is_monotonic() {
    let mut last = 0;
    for i in 0..100 {
        let p = i as f32 * 0.01;
        let s = wanted_size(key(p));
        assert!(s >= last, "resolution went down as priority went up");
        last = s;
    }
    assert_eq!(wanted_size(key(1.0)), TILE_SIZES[0]);
    assert_eq!(wanted_size(key(0.0)), TILE_SIZES[3]);
}

#[test]
fn size_class_rounds_down() {
    assert_eq!(size_class(512), 0);
    assert_eq!(size_class(511), 1);
    assert_eq!(size_class(64), 3);
    assert_eq!(size_class(1), 3, "below the smallest class stays in the smallest");
    assert_eq!(size_class(4096), 0, "above the largest stays in the largest");
}

#[test]
fn the_keys_order_like_the_priorities() {
    assert_eq!(key(f32::NEG_INFINITY), harpia::shadow_atlas::NEG_INFINITY_KEY);
    assert_eq!(key(0.35), harpia::shadow_atlas::WANTED_KEY_0);
    assert_eq!(key(0.12), harpia::shadow_atlas::WANTED_KEY_1);
    assert_eq!(key(0.04), harpia::shadow_atlas::WANTED_KEY_2);
    assert!(key(-1.0) < key(-0.5) && key(-0.5) < key(0.0) && key(0.0) < key(0.25) && key(0.25) < key(2.0));
    let atlas = ShadowAtlas::new(256, 9);
    assert_eq!((atlas.size(), atlas.budget()), (256, 9));
}

#[test]
fn the_budget_does_not_change_the_answer() {
    let reqs: Vec<_> = (0..8).map(|i| req(i, 1.0 - i as f32 * 0.05, 256, 7)).collect();
    let mut tight = ShadowAtlas::new(2048, 256 * 256);
    let mut free = ShadowAtlas::new(2048, u64::MAX);
    let slow = fill_cache(&mut tight, &reqs);
    let fast = fill_cache(&mut free, &reqs);
    assert!(slow > fast, "a budget of one tile a frame took {slow} frames, no budget {fast}");
    assert_eq!(tight.slots(), free.slots());
    assert!(tight.slots().iter().all(|s| s.drawn == Some(7)));
}

#[test]
fn a_plan_spends_what_it_draws() {
    let mut atlas = ShadowAtlas::new(2048, 3 * 256 * 256);
    let reqs: Vec<_> = (0..5).map(|i| req(i, 1.0 - i as f32 * 0.1, 256, 4)).collect();
    for _ in 0..3 {
        let plan = atlas.plan(&reqs);
        let cost: u64 = plan
            .render
            .iter()
            .map(|&i| {
                let side = atlas.slots()[i].rect[2] as u64;
                side * side
            })
            .sum();
        assert_eq!(plan.texels, cost);
        for &i in &plan.render {
            assert_eq!(atlas.slots()[i].drawn, Some(4));
        }
    }
}

#[test]
fn the_longest_wait_is_the_queue_behind_the_first_tile() {
    // One tile of budget and five dirty lights: the last one waits four
    // frames, and the wait never grows once every light is drawn.
    let mut atlas = ShadowAtlas::new(2048, 256 * 256);
    let reqs: Vec<_> = (0..5).map(|i| req(i, 1.0 - i as f32 * 0.1, 256, 1)).collect();
    let mut drawn_at = [None; 5];
    for frame in 0..20 {
        for &idx in &atlas.plan(&reqs).render {
            let light = atlas.slots()[idx].light as usize;
            drawn_at[light].get_or_insert(frame);
        }
    }
    assert_eq!(drawn_at, [Some(0), Some(1), Some(2), Some(3), Some(4)]);
    assert_eq!(atlas.worst_stale(), 4);
}

#[test]
fn capacity_stays_with_the_atlas_across_plans() {
    let mut atlas = ShadowAtlas::new(2048, 256 * 256);
    let before = atlas.capacity();
    let reqs: Vec<_> = (0..12).map(|i| req(i, 1.0 - i as f32 * 0.05, 512, 1)).collect();
    for _ in 0..6 {
        atlas.plan(&reqs);
        assert_eq!(atlas.capacity(), before);
    }
    let fewer: Vec<_> = (0..3).map(|i| req(i + 40, 0.9, 128, 2)).collect();
    atlas.plan(&fewer);
    assert_eq!(atlas.capacity(), before);
}

#[test]
fn tiles_in_use_never_overlap_and_each_light_holds_one() {
    let mut atlas = ShadowAtlas::new(1024, 512 * 512);
    let frames: Vec<Vec<ShadowRequest>> = vec![
        (0..20).map(|i| req(i, 0.9 - i as f32 * 0.04, 256, 1)).collect(),
        (10..40).map(|i| req(i, 0.5 + (i % 7) as f32 * 0.05, 512, 2)).collect(),
        (0..60).map(|i| req(i, 0.2 + (i % 5) as f32 * 0.1, 64 << (i % 4), 3)).collect(),
    ];
    for reqs in &frames {
        atlas.plan(reqs);
        let slots = atlas.slots();
        for (s, a) in slots.iter().enumerate() {
            assert!(a.rect[0] + a.rect[2] <= 1024 && a.rect[1] + a.rect[2] <= 1024);
            assert!(reqs.iter().any(|r| r.light == a.light));
            for b in &slots[s + 1..] {
                assert_ne!(a.light, b.light);
                let apart = a.rect[0] + a.rect[2] <= b.rect[0]
                    || b.rect[0] + b.rect[2] <= a.rect[0]
                    || a.rect[1] + a.rect[2] <= b.rect[1]
                    || b.rect[1] + b.rect[2] <= a.rect[1];
                assert!(apart, "{:?} and {:?} overlap", a.rect, b.rect);
            }
        }
    }
}
