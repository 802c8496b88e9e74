use harpia::graph::{Access, GraphError, Handle, Load, Pass, PassPlan, RenderGraph};
use harpia::rhi::{Barrier, Buffer, Texture};

fn tex(id: u32) -> Texture {
    Texture::from_raw(id)
}

fn buf(id: u32) -> Buffer {
    Buffer::from_raw(id)
}

fn barrier_key(b: &Barrier) -> (u8, u32) {
    match b {
        Barrier::Texture(t) => (0, t.raw()),
        Barrier::Buffer(x) => (1, x.raw()),
    }
}

#[test]
fn compute_to_compute_to_indirect_gets_both_barriers() {
    let mut g = RenderGraph::new();
    let bounds = g.buffer("bounds", buf(1));
    let args = g.buffer("args", buf(2));
    g.pass(Pass::new("bounds").uses(bounds, Access::StorageWrite));
    g.pass(Pass::new("cull").uses(bounds, Access::StorageRead).uses(args, Access::StorageWrite));
    g.pass(Pass::new("draw").uses(args, Access::Indirect));

    g.validate().expect("valid graph");
    let plans = g.compile();
    assert!(plans[0].barriers.is_empty(), "the first pass waits for nothing");
    assert_eq!(plans[1].barriers.len(), 1, "missing bounds -> cull");
    assert_eq!(plans[2].barriers.len(), 1, "missing cull -> draw");
}

#[test]
fn writing_depth_then_sampling_it_gets_a_barrier() {
    let mut g = RenderGraph::new();
    let atlas = g.persistent_texture("atlas", tex(1));
    let out = g.texture("out", tex(2));
    g.pass(Pass::new("shadows").uses(atlas, Access::DepthWrite));
    g.pass(Pass::new("lighting").uses(atlas, Access::Sampled).uses(out, Access::ColorWrite));
    g.validate().expect("valid");
    let plans = g.compile();
    assert_eq!(plans[1].barriers.len(), 2, "atlas (layout) and out (first touch)");
}

#[test]
fn two_reads_with_different_layouts_still_need_a_barrier() {
    let mut g = RenderGraph::new();
    let depth = g.persistent_texture("depth", tex(1));
    let a = g.texture("a", tex(2));
    let b = g.texture("b", tex(3));
    g.pass(Pass::new("forward").uses(depth, Access::DepthRead).uses(a, Access::ColorWrite));
    g.pass(Pass::new("fog").uses(depth, Access::Sampled).uses(b, Access::ColorWrite));
    g.validate().expect("valid");
    let plans = g.compile();
    let on_depth = plans[1]
        .barriers
        .iter()
        .filter(|b| matches!(b.resource, Barrier::Texture(x) if x.raw() == 1))
        .count();
    assert_eq!(on_depth, 1, "depth read-only to shader read is a layout change");
}

#[test]
fn two_reads_in_the_same_layout_need_nothing() {
    let mut g = RenderGraph::new();
    let t = g.persistent_texture("t", tex(1));
    let a = g.texture("a", tex(2));
    let b = g.texture("b", tex(3));
    g.pass(Pass::new("um").uses(t, Access::Sampled).uses(a, Access::ColorWrite));
    g.pass(Pass::new("dois").uses(t, Access::Sampled).uses(b, Access::ColorWrite));
    g.validate().expect("valid");
    let plans = g.compile();
    let on_t = plans[1]
        .barriers
        .iter()
        .filter(|b| matches!(b.resource, Barrier::Texture(x) if x.raw() == 1))
        .count();
    assert_eq!(on_t, 0, "two samplings in a row need no barrier");
}

#[test]
fn reading_a_transient_nobody_wrote_is_an_error() {
    let mut g = RenderGraph::new();
    let t = g.texture("gbuffer", tex(1));
    let out = g.texture("out", tex(2));
    g.pass(Pass::new("lighting").uses(t, Access::Sampled).uses(out, Access::ColorWrite));
    let errors = g.validate().expect_err("must fail");
    assert_eq!(errors, vec![GraphError::ReadBeforeWrite { resource: "gbuffer", pass: "lighting" }]);
}

#[test]
fn a_persistent_resource_may_be_read_first() {
    let mut g = RenderGraph::new();
    let t = g.persistent_texture("history", tex(1));
    let out = g.texture("out", tex(2));
    g.pass(Pass::new("taa").uses(t, Access::Sampled).uses(out, Access::ColorWrite));
    g.validate().expect("a persistent resource may be read first");
}

#[test]
fn keeping_content_that_does_not_exist_is_an_error() {
    let mut g = RenderGraph::new();
    let d = g.texture("depth", tex(1));
    g.pass(Pass::new("sombras").uses(d, Access::DepthWrite).load(d, Load::Keep));
    let errors = g.validate().expect_err("must fail");
    assert_eq!(errors, vec![GraphError::KeepWithoutContent { resource: "depth", pass: "sombras" }]);
}

#[test]
fn a_persistent_atlas_may_keep_its_content() {
    let mut g = RenderGraph::new();
    let d = g.persistent_texture("atlas", tex(1));
    g.pass(Pass::new("sombras").uses(d, Access::DepthWrite).load(d, Load::Keep));
    g.validate().expect("the cache may keep what it has");
}

#[test]
fn a_load_for_a_resource_the_pass_does_not_write_is_an_error() {
    let mut g = RenderGraph::new();
    let t = g.persistent_texture("t", tex(1));
    let out = g.texture("out", tex(2));
    g.pass(
        Pass::new("p").uses(t, Access::Sampled).uses(out, Access::ColorWrite).load(t, Load::Keep),
    );
    let errors = g.validate().expect_err("must fail");
    assert_eq!(errors, vec![GraphError::LoadWithoutWrite { resource: "t", pass: "p" }]);
}

#[test]
fn conflicting_access_in_one_pass_is_an_error() {
    let mut g = RenderGraph::new();
    let t = g.persistent_texture("t", tex(1));
    g.pass(Pass::new("p").uses(t, Access::ColorWrite).uses(t, Access::Sampled));
    let errors = g.validate().expect_err("must fail");
    assert!(matches!(errors[0], GraphError::ConflictingAccess { .. }));
}

#[test]
fn validation_reports_every_error_at_once() {
    let mut g = RenderGraph::new();
    let a = g.texture("a", tex(1));
    let b = g.texture("b", tex(2));
    let out = g.texture("out", tex(3));
    g.pass(
        Pass::new("p").uses(a, Access::Sampled).uses(b, Access::Sampled).uses(out, Access::ColorWrite),
    );
    let errors = g.validate().expect_err("must fail");
    assert_eq!(errors.len(), 2, "reported {} of 2", errors.len());
}

#[test]
fn every_write_then_read_has_a_barrier_between_them() {
    let mut g = RenderGraph::new();
    let depth = g.texture("depth", tex(1));
    let gbuf = g.texture("gbuf", tex(2));
    let lit = g.texture("lit", tex(3));
    let hist = g.persistent_texture("hist", tex(4));
    let lights = g.buffer("lights", buf(1));
    let args = g.buffer("args", buf(2));

    g.pass(Pass::new("upload").uses(lights, Access::HostWrite));
    g.pass(Pass::new("cull").uses(lights, Access::StorageRead).uses(args, Access::StorageWrite));
    g.pass(
        Pass::new("gbuffer")
            .uses(gbuf, Access::ColorWrite)
            .uses(depth, Access::DepthWrite)
            .uses(args, Access::Indirect),
    );
    g.pass(
        Pass::new("lighting")
            .uses(gbuf, Access::Sampled)
            .uses(depth, Access::DepthRead)
            .uses(lights, Access::StorageRead)
            .uses(lit, Access::ColorWrite),
    );
    g.pass(Pass::new("taa").uses(lit, Access::Sampled).uses(hist, Access::ColorWrite));
    g.validate().expect("valid");

    let plans = g.compile();
    let mut last: Vec<Option<(usize, Access)>> = vec![None; g.resources().len()];
    for (p, pass) in g.passes().iter().enumerate() {
        for &(res, access) in pass.accesses() {
            if let Some((prev_pass, prev)) = last[res.0 as usize] {
                let needs = prev.writes()
                    || access.writes()
                    || (g.resources()[res.0 as usize].handle.is_texture() && prev.layout() != access.layout());
                if needs {
                    let found = plans[p].barriers.iter().any(|b| match b.resource {
                        Barrier::Texture(t) => {
                            matches!(g.resources()[res.0 as usize].handle, Handle::Texture(x) if x.raw() == t.raw())
                        }
                        Barrier::Buffer(x) => {
                            matches!(g.resources()[res.0 as usize].handle, Handle::Buffer(y) if y.raw() == x.raw())
                        }
                    });
                    assert!(
                        found,
                        "no barrier for `{}` between pass {prev_pass} and {p}",
                        g.resources()[res.0 as usize].name
                    );
                }
            }
            last[res.0 as usize] = Some((p, access));
        }
    }
}

#[test]
fn the_plan_does_not_depend_on_declaration_order() {
    let build = |swap: bool| {
        let mut g = RenderGraph::new();
        let a = g.persistent_texture("a", tex(1));
        let b = g.persistent_texture("b", tex(2));
        let out = g.texture("out", tex(3));
        let p = if swap {
            Pass::new("p").uses(b, Access::Sampled).uses(a, Access::Sampled).uses(out, Access::ColorWrite)
        } else {
            Pass::new("p").uses(a, Access::Sampled).uses(b, Access::Sampled).uses(out, Access::ColorWrite)
        };
        g.pass(p);
        g.compile()
    };
    let x = build(false);
    let y = build(true);
    let key = |plans: &[PassPlan]| {
        plans
            .iter()
            .map(|p| p.barriers.iter().map(|b| (barrier_key(&b.resource), b.src, b.dst)).collect::<Vec<_>>())
            .collect::<Vec<_>>()
    };
    assert_eq!(key(&x), key(&y));
}

#[test]
fn first_touch_of_a_buffer_needs_no_barrier_but_a_texture_does() {
    let mut g = RenderGraph::new();
    let t = g.texture("t", tex(7));
    let b = g.buffer("b", buf(9));
    g.pass(Pass::new("p").uses(t, Access::ColorWrite).uses(b, Access::StorageWrite));
    let plans = g.compile();
    assert_eq!(plans.len(), 1);
    assert_eq!(plans[0].barriers.len(), 1);
    assert_eq!(barrier_key(&plans[0].barriers[0].resource), (0, 7));
    // From the host (code 8) to a colour write (code 0).
    assert_eq!((plans[0].barriers[0].src, plans[0].barriers[0].dst), (8, 0));
}

#[test]
fn loads_come_sorted_by_resource_and_repeats_are_dropped() {
    let mut g = RenderGraph::new();
    let a = g.texture("a", tex(1));
    let b = g.texture("b", tex(2));
    g.pass(
        Pass::new("p")
            .uses(b, Access::ColorWrite)
            .uses(a, Access::ColorWrite)
            .uses(b, Access::ColorWrite)
            .load(b, Load::Discard)
            .load(a, Load::Clear([0, 0, 0, 0x3f80_0000])),
    );
    let plans = g.compile();
    assert_eq!(plans[0].loads, vec![(a, Load::Clear([0, 0, 0, 0x3f80_0000])), (b, Load::Discard)]);
    // One first-touch barrier per texture, not one per declaration.
    assert_eq!(plans[0].barriers.len(), 2);
    assert_eq!(plans[0].pass.0, 0);
}

#[test]
fn a_use_declared_twice_plans_as_once() {
    let build = |twice: bool| {
        let mut g = RenderGraph::new();
        let a = g.persistent_texture("a", tex(1));
        let out = g.texture("out", tex(3));
        let p = if twice {
            Pass::new("p")
                .uses(out, Access::ColorWrite)
                .uses(a, Access::Sampled)
                .uses(out, Access::ColorWrite)
                .load(out, Load::Discard)
                .load(out, Load::Discard)
        } else {
            Pass::new("p").uses(a, Access::Sampled).uses(out, Access::ColorWrite).load(out, Load::Discard).load(out, Load::Discard)
        };
        g.pass(p);
        g.compile()
    };
    let x = build(false);
    let y = build(true);
    let key = |plans: &[PassPlan]| {
        plans
            .iter()
            .map(|p| {
                (
                    p.barriers.iter().map(|b| (barrier_key(&b.resource), b.src, b.dst)).collect::<Vec<_>>(),
                    p.loads.iter().map(|l| (l.0 .0, format!("{:?}", l.1))).collect::<Vec<_>>(),
                )
            })
            .collect::<Vec<_>>()
    };
    assert_eq!(key(&x), key(&y));
    assert_eq!(x[0].barriers.len(), 2);
}
