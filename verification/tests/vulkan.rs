use harpia::bindless::{
    check_chunk_write, check_ubo_alignment, pool_sizes, set_layouts, Bindless, DescriptorKind, POOL_MAX_SETS,
};
use harpia::null_gpu::{GraphicsPipelineDesc, RhiError};
use harpia::rhi::PipelineTargets;
use harpia::vk_pipeline::{
    attachment_formats, check_entry_points, check_pipeline_desc, vertex_layout, VertexAttribute, VertexBinding,
    VK_FORMAT_R32G32B32A32_SFLOAT, VK_FORMAT_R32G32B32_SFLOAT, VK_FORMAT_R32G32_SFLOAT, VK_FORMAT_UNDEFINED,
};
use harpia::rhi::{Extent2D, Format, TextureDesc, TextureDim, FRAME_CBV_RING_SIZE, FRAME_UBO_SIZE};
use harpia::surface::{check_device_features, require_true, DeviceFeatures, VK_FORMAT_D32_SFLOAT, VK_FORMAT_R8G8B8A8_UNORM};
use harpia::vk_frames::{
    acquire_step, fence_waited, next_acquire_try, AcquireOutcome, AcquireStep, FrameStart, ResizeStep,
    SwapchainFrames, VK_ERROR_DEVICE_LOST, VK_ERROR_OUT_OF_DATE_KHR, VK_SUBOPTIMAL_KHR, VK_SUCCESS, VK_TIMEOUT,
};
use harpia::vk_image::{
    general_barrier, mip_uploaded, new_image_state, readback_plan, upload_plan, ACCESS_TRANSFER_READ,
    STAGE_ALL_COMMANDS, STAGE_TRANSFER,
};
use harpia::vk_image::{
    aspect_for, color_target_barrier, color_target_release, depth_target_barrier, depth_target_release,
    image_usage, pass_extent, plan_image, shader_read_stages, Aspect, Layout, ACCESS_COLOR_ATTACHMENT_WRITE,
    ACCESS_DEPTH_STENCIL_ATTACHMENT_READ, ACCESS_DEPTH_STENCIL_ATTACHMENT_WRITE, ACCESS_SHADER_READ,
    STAGE_COLOR_ATTACHMENT_OUTPUT, STAGE_TOP_OF_PIPE, USAGE_COLOR_ATTACHMENT, USAGE_DEPTH_STENCIL_ATTACHMENT,
    USAGE_SAMPLED, USAGE_STORAGE, USAGE_TRANSFER_DST, USAGE_TRANSFER_SRC,
};

fn message(e: RhiError) -> String {
    match e {
        RhiError::Message(m) => m,
        other => panic!("not a message: {other:?}"),
    }
}

fn desc() -> TextureDesc {
    TextureDesc::default()
}

#[test]
fn a_sampled_texture_is_planned_as_the_driver_needs_it() {
    let d = TextureDesc { width: 64, height: 32, mip_levels: 0, ..desc() };
    let p = plan_image(&d).expect("planned");
    assert_eq!(p.format, VK_FORMAT_R8G8B8A8_UNORM);
    assert_eq!((p.width, p.height, p.depth_slices), (64, 32, 1));
    assert_eq!(p.mip_levels, 1, "no levels means one");
    assert_eq!(p.usage, USAGE_TRANSFER_SRC | USAGE_TRANSFER_DST | USAGE_SAMPLED);
    assert_eq!(p.aspect, Aspect::Color);
    assert!(!p.storage_view);
}

#[test]
fn a_depth_target_is_no_copy_destination() {
    let d = TextureDesc { format: Format::D32Float, depth: true, sampled: true, ..desc() };
    let p = plan_image(&d).expect("planned");
    assert_eq!(p.format, VK_FORMAT_D32_SFLOAT);
    assert_eq!(p.usage, USAGE_TRANSFER_SRC | USAGE_SAMPLED | USAGE_DEPTH_STENCIL_ATTACHMENT);
    assert_eq!(p.aspect, Aspect::Depth);
    assert_eq!(aspect_for(Format::Rgba16Float), Aspect::Color);
}

#[test]
fn every_usage_keeps_the_copy_source() {
    for bits in 0u32..16 {
        let d = TextureDesc {
            sampled: bits & 1 != 0,
            storage: bits & 2 != 0,
            color_attachment: bits & 4 != 0,
            depth: bits & 8 != 0,
            ..desc()
        };
        let u = image_usage(&d);
        assert_eq!(u & USAGE_TRANSFER_SRC, USAGE_TRANSFER_SRC, "{bits}");
        assert_eq!(u & USAGE_TRANSFER_DST != 0, !d.depth, "{bits}");
        assert_eq!(u & USAGE_STORAGE != 0, d.storage, "{bits}");
        assert_eq!(u & USAGE_COLOR_ATTACHMENT != 0, d.color_attachment, "{bits}");
    }
}

#[test]
fn a_volume_keeps_its_slices_and_its_storage_view() {
    let d = TextureDesc { width: 160, height: 90, depth_slices: 64, dim: TextureDim::D3, storage: true, ..desc() };
    let p = plan_image(&d).expect("planned");
    assert_eq!(p.dim, TextureDim::D3);
    assert_eq!(p.depth_slices, 64);
    assert!(p.storage_view);
    let flat = TextureDesc { depth_slices: 64, ..desc() };
    assert_eq!(plan_image(&flat).expect("planned").depth_slices, 1, "a 2D image has one slice");
}

#[test]
fn images_that_cannot_be_made_are_refused_in_order() {
    let empty = TextureDesc { width: 0, format: Format::Unknown(7), ..desc() };
    assert_eq!(message(plan_image(&empty).unwrap_err()), "texture extent is 0");
    let volume_target = TextureDesc { dim: TextureDim::D3, color_attachment: true, format: Format::Unknown(7), ..desc() };
    assert_eq!(message(plan_image(&volume_target).unwrap_err()), "a 3D texture cannot be an attachment");
    let unknown = TextureDesc { format: Format::Unknown(7), ..desc() };
    assert_eq!(message(plan_image(&unknown).unwrap_err()), "unknown texture format");
}

#[test]
fn a_target_read_by_shaders_waits_for_the_reads() {
    let b = color_target_barrier(Layout::ShaderReadOnly);
    assert_eq!(b.new, Layout::ColorAttachment);
    assert_eq!(b.src_access, ACCESS_SHADER_READ);
    assert_eq!(b.src_stage, shader_read_stages());
    assert_eq!(b.dst_access, ACCESS_COLOR_ATTACHMENT_WRITE);
    assert_eq!(b.dst_stage, STAGE_COLOR_ATTACHMENT_OUTPUT);
    let fresh = color_target_barrier(Layout::Undefined);
    assert_eq!((fresh.src_access, fresh.src_stage), (0, STAGE_TOP_OF_PIPE));
    assert_eq!(shader_read_stages(), 0x8 | 0x80 | 0x800);
}

#[test]
fn depth_targets_move_between_the_pass_and_the_shaders() {
    let take = depth_target_barrier(Layout::DepthReadOnly, Aspect::Depth);
    assert_eq!(take.new, Layout::DepthAttachment);
    assert_eq!(take.src_access, ACCESS_SHADER_READ);
    assert_eq!(take.dst_access, ACCESS_DEPTH_STENCIL_ATTACHMENT_WRITE | ACCESS_DEPTH_STENCIL_ATTACHMENT_READ);
    let first = depth_target_barrier(Layout::Undefined, Aspect::Depth);
    assert_eq!((first.src_access, first.src_stage), (0, STAGE_TOP_OF_PIPE));
    let again = depth_target_barrier(Layout::DepthAttachment, Aspect::Depth);
    assert_eq!((again.src_access, again.src_stage), (0, shader_read_stages()));

    let (layout, barrier) = depth_target_release(true, Aspect::Depth);
    assert_eq!(layout, Layout::ShaderReadOnly);
    let barrier = barrier.expect("a sampled depth target is handed over");
    assert_eq!((barrier.src_access, barrier.dst_access), (ACCESS_DEPTH_STENCIL_ATTACHMENT_WRITE, ACCESS_SHADER_READ));
    assert_eq!(depth_target_release(false, Aspect::Depth), (Layout::DepthAttachment, None));

    let release = color_target_release();
    assert_eq!((release.old, release.new), (Layout::ColorAttachment, Layout::ShaderReadOnly));
    let next = color_target_barrier(release.new);
    assert_eq!((next.src_access, next.src_stage), (release.dst_access, release.dst_stage));
}

#[test]
fn a_pass_renders_the_first_colour_target_else_the_depth_target() {
    let c = Extent2D { width: 640, height: 360 };
    let d = Extent2D { width: 2048, height: 2048 };
    assert_eq!(pass_extent(Some(c), Some(d)), c);
    assert_eq!(pass_extent(None, Some(d)), d);
    assert_eq!(pass_extent(None, None), Extent2D { width: 1, height: 1 });
}

fn frames() -> SwapchainFrames {
    SwapchainFrames::new(1280, 720, Extent2D { width: 1280, height: 720 })
}

#[test]
fn frames_open_on_the_slots_in_turn() {
    let mut s = frames();
    for i in 0..5u64 {
        assert_eq!(s.begin_frame().expect("opens"), FrameStart::Open { recreate_first: false, slot: (i % 2) as u32 });
        s.frame_opened(false);
        assert!(s.begin_frame().is_err(), "a frame is opened once");
        s.end_frame_check().expect("no pass open");
        s.presented(VK_SUCCESS).expect("presented");
        assert_eq!(s.frame_index, i + 1);
    }
}

#[test]
fn a_new_device_never_has_a_window_without_area() {
    let s = SwapchainFrames::new(0, 0, Extent2D { width: 1, height: 1 });
    assert_eq!(s.window_extent, Extent2D { width: 1, height: 1 });
    assert!(!s.zero_extent);
}

#[test]
fn a_minimised_window_skips_frames_until_it_is_restored() {
    let mut s = frames();
    assert_eq!(s.resize(0, 720), ResizeStep::Nothing);
    assert_eq!(s.begin_frame().expect("no error"), FrameStart::Skip);
    let info = s.skipped_info(Format::Bgra8Unorm);
    assert!(info.skipped);
    assert_eq!(info.extent, Extent2D { width: 0, height: 720 });
    assert!(!s.prepare_recreate(), "no swapchain for a window without area");
    assert_eq!(s.resize(1280, 720), ResizeStep::Recreate, "restoring rebuilds even at the old size");
    assert!(s.prepare_recreate());
    s.recreated(Extent2D { width: 1280, height: 720 }, true);
    assert!(matches!(s.begin_frame(), Ok(FrameStart::Open { recreate_first: false, .. })));
    assert_eq!(s.resize(1280, 720), ResizeStep::Nothing, "the same size changes nothing");
    assert_eq!(s.resize(800, 600), ResizeStep::Recreate);
}

#[test]
fn a_stale_swapchain_is_rebuilt_before_the_next_frame() {
    let mut s = frames();
    s.frame_opened(false);
    s.presented(VK_ERROR_OUT_OF_DATE_KHR).expect("a stale swapchain is no error");
    assert!(matches!(s.begin_frame(), Ok(FrameStart::Open { recreate_first: true, .. })));
    s.recreated(Extent2D { width: 1280, height: 720 }, true);
    s.frame_opened(true);
    assert!(s.pending_recreate, "a suboptimal image asks for a rebuild later");
    s.presented(VK_SUBOPTIMAL_KHR).expect("suboptimal is no error");
    assert_eq!(s.frame_index, 2);
    let mut t = frames();
    t.frame_opened(false);
    assert!(matches!(t.presented(VK_ERROR_DEVICE_LOST), Err(RhiError::DeviceLost)));
    assert!(t.in_frame, "a failed present leaves the frame open");
}

#[test]
fn closing_a_frame_needs_it_open_and_its_passes_closed() {
    let s = frames();
    assert!(matches!(s.end_frame_check(), Err(RhiError::NotInFrame)));
    let mut t = frames();
    t.frame_opened(false);
    t.in_pass = true;
    assert!(matches!(t.end_frame_check(), Err(RhiError::PassMismatch)));
}

#[test]
fn acquiring_gives_up_after_three_tries() {
    let mut tries = 0;
    let mut rebuilt = 0;
    loop {
        match next_acquire_try(tries) {
            Ok(n) => tries = n,
            Err(e) => {
                assert_eq!(message(e), "swapchain acquire failed after recreate");
                break;
            }
        }
        match acquire_step(AcquireOutcome::Failed(VK_ERROR_OUT_OF_DATE_KHR)) {
            AcquireStep::RecreateAndRetry => rebuilt += 1,
            _ => panic!("an out-of-date swapchain is rebuilt"),
        }
    }
    assert_eq!((tries, rebuilt), (3, 3));
    assert!(matches!(
        acquire_step(AcquireOutcome::Acquired { index: 2, suboptimal: true }),
        AcquireStep::Use { index: 2, recreate_later: true }
    ));
    assert!(matches!(acquire_step(AcquireOutcome::Failed(VK_TIMEOUT)), AcquireStep::Fail(RhiError::FrameTimeout)));
    assert!(matches!(acquire_step(AcquireOutcome::Failed(-3)), AcquireStep::Fail(RhiError::Vulkan(-3))));
}

#[test]
fn a_fence_that_times_out_is_a_hung_gpu() {
    assert!(fence_waited(VK_SUCCESS).is_ok());
    assert!(matches!(fence_waited(VK_TIMEOUT), Err(RhiError::FrameTimeout)));
    assert!(matches!(fence_waited(VK_ERROR_DEVICE_LOST), Err(RhiError::DeviceLost)));
    assert!(matches!(RhiError::from_vk(-2), RhiError::Vulkan(-2)));
}

fn capable() -> DeviceFeatures {
    DeviceFeatures {
        dynamic_rendering: true,
        descriptor_indexing: true,
        descriptor_binding_partially_bound: true,
        descriptor_binding_sampled_image_update_after_bind: true,
        descriptor_binding_variable_descriptor_count: true,
        runtime_descriptor_array: true,
        shader_sampled_image_array_non_uniform_indexing: true,
        max_update_after_bind_sampled_images: 500_000,
    }
}

#[test]
fn a_gpu_is_refused_for_the_first_thing_it_lacks() {
    assert!(check_device_features(&capable()).is_ok());
    let old = DeviceFeatures { dynamic_rendering: false, descriptor_indexing: false, ..capable() };
    assert_eq!(message(check_device_features(&old).unwrap_err()), "GPU lacks dynamic rendering (Vulkan 1.3)");
    let partial = DeviceFeatures { runtime_descriptor_array: false, descriptor_binding_partially_bound: false, ..capable() };
    assert_eq!(message(check_device_features(&partial).unwrap_err()), "GPU lacks descriptorBindingPartiallyBound");
    let small = DeviceFeatures { max_update_after_bind_sampled_images: 4096, ..capable() };
    assert_eq!(
        message(check_device_features(&small).unwrap_err()),
        "GPU maxDescriptorSetUpdateAfterBindSampledImages is 4096 (need 8192)"
    );
    assert_eq!(message(require_true(false, "runtimeDescriptorArray").unwrap_err()), "GPU lacks runtimeDescriptorArray");
}

#[test]
fn the_frame_ring_needs_an_alignment_that_divides_a_chunk() {
    assert!(check_ubo_alignment(256).is_ok());
    assert!(check_ubo_alignment(1024).is_ok());
    assert_eq!(
        message(check_ubo_alignment(768).unwrap_err()),
        "FRAME_UBO_SIZE 1024 is not a multiple of minUniformBufferOffsetAlignment 768"
    );
    assert!(check_ubo_alignment(0).is_err());
    for n in [0u32, 1, 511] {
        let off = Bindless::chunk_offset(n).expect("in the ring");
        assert_eq!(off % 256, 0);
    }
}

#[test]
fn a_chunk_write_stays_inside_its_chunk_and_its_ring() {
    let last = Bindless::chunk_offset(511).expect("in the ring");
    assert!(check_chunk_write(1, 2, last, FRAME_UBO_SIZE as usize, FRAME_CBV_RING_SIZE).is_ok());
    assert_eq!(message(check_chunk_write(2, 2, 0, 16, FRAME_CBV_RING_SIZE).unwrap_err()), "bad frame slot");
    assert_eq!(
        message(check_chunk_write(0, 2, 0, FRAME_UBO_SIZE as usize + 1, FRAME_CBV_RING_SIZE).unwrap_err()),
        "frame CBV write larger than one chunk"
    );
    assert_eq!(
        message(check_chunk_write(0, 2, last + 1, 16, FRAME_CBV_RING_SIZE).unwrap_err()),
        "frame CBV chunk out of the ring"
    );
}

fn pipeline<'a>(vs: &'a [u8], fs: &'a [u8], targets: PipelineTargets<'a>) -> GraphicsPipelineDesc<'a> {
    GraphicsPipelineDesc { vs_spirv: vs, fs_spirv: fs, vs_entry: "main", fs_entry: "main", bindless: true, targets }
}

#[test]
fn pipelines_without_their_shaders_are_refused() {
    let code = [3u8, 2, 35, 7];
    assert!(check_pipeline_desc(&pipeline(&code, &code, PipelineTargets::default())).is_ok());
    assert_eq!(
        message(check_pipeline_desc(&pipeline(&[], &[], PipelineTargets::default())).unwrap_err()),
        "vertex SPIR-V is empty"
    );
    let shadow = PipelineTargets { depth_only: true, depth_format: Some(Format::D32Float), ..PipelineTargets::default() };
    assert!(check_pipeline_desc(&pipeline(&code, &[], shadow)).is_ok(), "a depth-only pipeline needs no fragment shader");
    let colours = [Format::Rgba8Unorm];
    let wrong = PipelineTargets { depth_only: true, color_formats: &colours, ..PipelineTargets::default() };
    assert_eq!(
        message(check_pipeline_desc(&pipeline(&code, &[], wrong)).unwrap_err()),
        "depth_only PSO must have empty color_formats"
    );
    assert_eq!(
        message(check_pipeline_desc(&pipeline(&code, &[], PipelineTargets::default())).unwrap_err()),
        "fragment SPIR-V is empty"
    );
    assert!(check_entry_points("vs_main", "fs_main").is_ok());
    assert!(matches!(check_entry_points("main", "fs_main\u{0}"), Err(RhiError::BadCString)));
    assert!(matches!(check_entry_points("ma\0in", "main"), Err(RhiError::BadCString)));
}

#[test]
fn vertices_and_instances_get_their_bindings_and_rows() {
    let (b, a) = vertex_layout(32, 0);
    assert_eq!(b, vec![VertexBinding { binding: 0, stride: 32, per_instance: false }]);
    assert_eq!(
        a,
        vec![
            VertexAttribute { location: 0, binding: 0, format: VK_FORMAT_R32G32B32_SFLOAT, offset: 0 },
            VertexAttribute { location: 1, binding: 0, format: VK_FORMAT_R32G32B32_SFLOAT, offset: 12 },
            VertexAttribute { location: 2, binding: 0, format: VK_FORMAT_R32G32_SFLOAT, offset: 24 },
        ]
    );
    let (b, a) = vertex_layout(24, 80);
    assert_eq!(b.len(), 2);
    assert_eq!(b[1], VertexBinding { binding: 1, stride: 80, per_instance: true });
    assert_eq!(a.len(), 2 + 5, "80 bytes of instance data are five rows");
    for (i, row) in a[2..].iter().enumerate() {
        let i = i as u32;
        assert_eq!(*row, VertexAttribute { location: 2 + i, binding: 1, format: VK_FORMAT_R32G32B32A32_SFLOAT, offset: 16 * i });
    }
    let (b, a) = vertex_layout(0, 0);
    assert!(b.is_empty() && a.is_empty(), "a full-screen pass reads no vertices");
}

#[test]
fn attachments_default_to_the_swapchain_and_refuse_unknown_formats() {
    let swap = 44;
    let (c, d) = attachment_formats(&PipelineTargets::default(), swap).expect("formats");
    assert_eq!((c, d), (vec![swap], VK_FORMAT_UNDEFINED));
    let gbuffer = [Format::Rgba8Srgb, Format::Rgba16Float];
    let t = PipelineTargets { color_formats: &gbuffer, depth_format: Some(Format::D32Float), ..PipelineTargets::default() };
    let (c, d) = attachment_formats(&t, swap).expect("formats");
    assert_eq!((c, d), (vec![43, 97], VK_FORMAT_D32_SFLOAT));
    let shadow = PipelineTargets { depth_only: true, depth_format: Some(Format::D32Float), ..PipelineTargets::default() };
    assert_eq!(attachment_formats(&shadow, swap).expect("formats").0, Vec::<i32>::new());
    let odd = [Format::Rgba8Unorm, Format::Unknown(5)];
    let t = PipelineTargets { color_formats: &odd, ..PipelineTargets::default() };
    assert_eq!(message(attachment_formats(&t, swap).unwrap_err()), "unknown texture format");
    let t = PipelineTargets { depth_format: Some(Format::Unknown(5)), ..PipelineTargets::default() };
    assert_eq!(message(attachment_formats(&t, swap).unwrap_err()), "unknown texture format");
}

#[test]
fn a_texture_is_sampled_once_every_level_is_uploaded() {
    let d = TextureDesc { width: 8, height: 4, mip_levels: 3, ..desc() };
    let p = plan_image(&d).expect("planned");
    let mut s = new_image_state(&d, &p);
    assert_eq!(s.layout, Layout::Undefined);
    assert!(!s.ready);
    let u = upload_plan(&s, 0).expect("level 0");
    assert_eq!((u.width, u.height, u.slices, u.bpp), (8, 4, 1, 4));
    let prepare = u.prepare.expect("the first upload prepares the image");
    assert_eq!((prepare.old, prepare.new), (Layout::Undefined, Layout::TransferDst));
    assert_eq!(mip_uploaded(&mut s), None);
    let u = upload_plan(&s, 2).expect("level 2");
    assert_eq!((u.width, u.height), (2, 1));
    assert!(u.prepare.is_none(), "only the first upload prepares");
    assert_eq!(mip_uploaded(&mut s), None);
    assert!(!s.ready);
    let b = mip_uploaded(&mut s).expect("handed to the shaders");
    assert_eq!((b.old, b.new), (Layout::TransferDst, Layout::ShaderReadOnly));
    assert!(s.ready);
    assert_eq!(s.layout, Layout::ShaderReadOnly);
    assert_eq!(message(upload_plan(&s, 3).unwrap_err()), "mip out of range");
}

#[test]
fn storage_images_and_volumes_start_general() {
    let d = TextureDesc {
        width: 4,
        height: 4,
        depth_slices: 8,
        dim: TextureDim::D3,
        format: Format::Rgba16Float,
        storage: true,
        ..desc()
    };
    let p = plan_image(&d).expect("planned");
    let s = new_image_state(&d, &p);
    assert_eq!(s.layout, Layout::General);
    assert!(s.ready);
    let u = upload_plan(&s, 0).expect("level 0");
    assert_eq!((u.slices, u.bpp), (8, 8), "a volume uploads all its slices at once");
    let g = general_barrier();
    assert_eq!((g.old, g.new), (Layout::Undefined, Layout::General));
    let odd = TextureDesc { format: Format::Unknown(3), ..desc() };
    let odd_state = harpia::vk_image::ImageState { format: odd.format, ..new_image_state(&desc(), &plan_image(&desc()).expect("planned")) };
    assert_eq!(message(upload_plan(&odd_state, 0).unwrap_err()), "unknown texture format");
}

#[test]
fn a_read_back_needs_written_pixels_and_restores_the_layout() {
    let d = TextureDesc { width: 8, height: 4, ..desc() };
    let p = plan_image(&d).expect("planned");
    let mut s = new_image_state(&d, &p);
    assert_eq!(message(readback_plan(&s, false).unwrap_err()), "texture has never been written");
    mip_uploaded(&mut s);
    assert_eq!(message(readback_plan(&s, true).unwrap_err()), "read_texture during a frame");
    let r = readback_plan(&s, false).expect("read back");
    assert_eq!((r.bpp, r.buffer_size), (4, 256 * 4));
    assert_eq!((r.to_copy.old, r.to_copy.new), (Layout::ShaderReadOnly, Layout::TransferSrc));
    assert_eq!((r.to_copy.dst_access, r.to_copy.src_stage, r.to_copy.dst_stage), (ACCESS_TRANSFER_READ, STAGE_ALL_COMMANDS, STAGE_TRANSFER));
    assert_eq!((r.back.old, r.back.new), (Layout::TransferSrc, Layout::ShaderReadOnly));
    let unknown = harpia::vk_image::ImageState { format: Format::Unknown(9), ..s };
    assert_eq!(message(readback_plan(&unknown, false).unwrap_err()), "unknown texture format");
}

#[test]
fn the_descriptor_pool_holds_every_set_of_the_heap() {
    let sets = set_layouts();
    assert_eq!(sets.len(), 6);
    assert_eq!(sets[1][0].count, 8192, "set 1 is the texture heap");
    assert!(sets[1][0].bindless && sets.iter().enumerate().all(|(i, s)| i == 1 || s.iter().all(|b| !b.bindless)));
    assert_eq!(sets[2].len(), 3, "three samplers");
    assert_eq!(sets[4][1].count, 4, "the volume UAV slots");
    let pool = pool_sizes();
    let taken = |s: usize| if s == 0 { 2u32 } else { 1 };
    for (kind, size) in &pool {
        let need: u32 = sets
            .iter()
            .enumerate()
            .map(|(s, set)| set.iter().filter(|b| b.kind == *kind).map(|b| b.count * taken(s)).sum::<u32>())
            .sum();
        assert!(need <= *size, "{kind:?}: {need} > {size}");
    }
    assert!(pool.iter().any(|(k, n)| *k == DescriptorKind::SampledImage && *n == 8200));
    assert!(2 + 5 <= POOL_MAX_SETS);
}

use harpia::overlay::{ui_step, PendingFree, UiStep};
use harpia::surface::window_extent;

#[test]
fn the_device_needs_a_window_and_a_texel_a_side() {
    assert!(matches!(window_extent(false, 1280, 720), Err(RhiError::WindowRequired)));
    let e = window_extent(true, 0, 720).unwrap();
    assert_eq!((e.width, e.height), (1, 720));
    let e = window_extent(true, 1280, 720).unwrap();
    assert_eq!((e.width, e.height), (1280, 720));
}

#[test]
fn the_overlay_draws_inside_a_frame_outside_any_pass() {
    assert!(matches!(ui_step(false, false, 3, 0, 0), Err(RhiError::NotInFrame)));
    assert!(matches!(ui_step(true, true, 3, 0, 0), Err(RhiError::PassMismatch)));
    assert!(matches!(ui_step(true, false, 0, 0, 0), Ok(UiStep::Skip)));
    assert!(matches!(ui_step(true, false, 3, 0, 0), Ok(UiStep::Draw { wait_other_frames: false })));
    assert!(matches!(ui_step(true, false, 0, 1, 0), Ok(UiStep::Draw { wait_other_frames: true })));
    assert!(matches!(ui_step(true, false, 0, 0, 2), Ok(UiStep::Draw { wait_other_frames: false })));
}

#[test]
fn a_dropped_texture_is_freed_once_its_frames_are_past() {
    let mut pending: PendingFree<u64> = PendingFree::new();
    pending.defer(10, vec![7, 8]);
    pending.defer(11, Vec::new());
    pending.defer(11, vec![9]);
    assert_eq!(pending.len(), 2);
    assert!(pending.release_due(11).is_empty());
    assert_eq!(pending.release_due(12), vec![vec![7, 8]]);
    assert_eq!(pending.len(), 1);
    assert_eq!(pending.release_due(100), vec![vec![9]]);
    assert_eq!(pending.len(), 0);
}
