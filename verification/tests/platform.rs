use harpia::app_config::{parse_u32, same_text, AppConfig, Parsed};
use harpia::atmosphere::{aerial_desc, lut_desc, multiscatter_desc, skyview_desc, transmittance_desc};
use harpia::cloud_noise::{cache_file_name, from_cache, hash3, volume_bytes, volume_desc, wrap, BASE_SIZE};
use harpia::memory::Stats;
use harpia::packing::{color_desc, depth_desc, sampled_desc, shadow_atlas_desc, GBUFFER_COLOR_FORMATS};
use harpia::rhi::{Backend, Extent2D, Format, TextureDim};
use harpia::text::prepend_search_path;
use harpia::surface::{
    clamp_extent, find_graphics_present, format_from_vk, image_count, pick_device, select_present_mode,
    select_surface_format, vk_format, DeviceCandidate, SurfaceCaps, SurfaceFormat, VK_FORMAT_B8G8R8A8_SRGB,
    VK_FORMAT_B8G8R8A8_UNORM, VK_FORMAT_R8G8B8A8_UNORM, VK_PRESENT_MODE_FIFO,
};

fn args(list: &[&str]) -> Vec<String> {
    std::iter::once("sample").chain(list.iter().copied()).map(String::from).collect()
}

fn run(list: &[&str]) -> AppConfig {
    match AppConfig::parse(&args(list)) {
        Ok(Parsed::Run(c)) => c,
        Ok(Parsed::Help) => panic!("asked for help"),
        Err(e) => panic!("refused: {}", e.message),
    }
}

fn refused(list: &[&str]) -> (String, Option<String>) {
    match AppConfig::parse(&args(list)) {
        Err(e) => (e.message, e.cause),
        Ok(_) => panic!("accepted {list:?}"),
    }
}

#[test]
fn defaults_are_a_bounded_gate() {
    let c = run(&[]);
    assert_eq!(c.title, "harpia");
    assert_eq!((c.width, c.height, c.backend), (1280, 720, Backend::Vulkan));
    assert_eq!(c.max_frames, Some(90));
    assert_eq!(c.resize_at, vec![(30, 800, 600), (60, 1280, 720)]);
    assert!(c.validation && c.vsync && !c.stats && c.capture.is_none() && c.extra.is_empty());
}

#[test]
fn switches_are_read_in_order() {
    let c = run(&[
        "--frames", "+12", "--backend", "null", "--validation", "off", "--width", "640", "--height", "480",
        "--title", "t", "--capture", "out/x", "--vsync", "0", "--stats", "--", "--mine", "1",
    ]);
    assert_eq!(c.max_frames, Some(12));
    assert_eq!(c.backend, Backend::Null);
    assert!(!c.validation && !c.vsync && c.stats);
    assert_eq!((c.width, c.height), (640, 480));
    assert_eq!(c.title, "t");
    assert_eq!(c.capture.as_deref(), Some("out/x"));
    assert_eq!(c.extra, vec!["--mine".to_string(), "1".to_string()]);
    let i = run(&["-i", "--backend", "vk"]);
    assert_eq!(i.max_frames, None);
    assert!(i.resize_at.is_empty());
    assert_eq!(run(&["--frames", "0"]).max_frames, Some(90), "zero frames is refused for the default");
    assert!(matches!(AppConfig::parse(&args(&["--help"])), Ok(Parsed::Help)));
    assert!(matches!(AppConfig::parse(&args(&["-h", "--nonsense"])), Ok(Parsed::Help)));
}

#[test]
fn bad_switches_say_what_is_wrong() {
    assert_eq!(refused(&["--frames"]), ("`--frames` needs a value".into(), None));
    assert_eq!(
        refused(&["--frames", "x"]),
        ("`--frames` must be a number".into(), Some("invalid digit found in string".into()))
    );
    assert_eq!(refused(&["--backend", "metal"]), ("unknown backend `metal`".into(), None));
    assert_eq!(refused(&["--width", ""]), ("cannot parse integer from empty string".into(), None));
    assert_eq!(refused(&["--height", "99999999999"]), ("number too large to fit in target type".into(), None));
    assert_eq!(refused(&["--height"]), ("`--height`".into(), None));
    assert_eq!(refused(&["--vsync"]), ("`--vsync` needs 0|1".into(), None));
    assert_eq!(refused(&["--bogus"]), ("unknown argument `--bogus`".into(), None));
}

#[test]
fn numbers_parse_as_std_does() {
    for s in ["0", "7", "+7", "4294967295", "-1", "+", "-", "", "4294967296", "12a", "１"] {
        let ours = parse_u32(s);
        let std = s.parse::<u32>().map_err(|e| e.to_string());
        assert_eq!(ours, std, "{s:?}");
    }
    assert!(same_text("abc", "abc") && !same_text("abc", "abd") && !same_text("ab", "abc"));
}

#[test]
fn the_run_loop_resizes_and_stops_on_schedule() {
    let c = run(&[]);
    assert_eq!(c.resize_for(30), Some((800, 600)));
    assert_eq!(c.resize_for(31), None);
    assert!(!c.run_is_done(89) && c.run_is_done(90));
    assert!(!run(&["-i"]).run_is_done(u32::MAX));
}

fn caps(min: u32, max: u32, current: u32) -> SurfaceCaps {
    SurfaceCaps {
        min_image_count: min,
        max_image_count: max,
        current_extent: Extent2D { width: current, height: current },
        min_image_extent: Extent2D { width: 1, height: 1 },
        max_image_extent: Extent2D { width: 4096, height: 2048 },
    }
}

#[test]
fn the_swapchain_prefers_bgra_unorm_and_fifo() {
    let f = |format| SurfaceFormat { format, color_space: 0 };
    let offered = [f(VK_FORMAT_R8G8B8A8_UNORM), f(VK_FORMAT_B8G8R8A8_SRGB), f(VK_FORMAT_B8G8R8A8_UNORM)];
    assert_eq!(select_surface_format(&offered).unwrap(), f(VK_FORMAT_B8G8R8A8_UNORM));
    assert_eq!(select_surface_format(&offered[..2]).unwrap(), f(VK_FORMAT_B8G8R8A8_SRGB));
    let odd = [SurfaceFormat { format: 64, color_space: 7 }];
    assert_eq!(select_surface_format(&odd).unwrap(), odd[0]);
    assert!(select_surface_format(&[]).is_err());
    assert_eq!(select_present_mode(&[0, 1, VK_PRESENT_MODE_FIFO]), VK_PRESENT_MODE_FIFO);
    assert_eq!(select_present_mode(&[1, 0]), 1);
    assert_eq!(select_present_mode(&[]), VK_PRESENT_MODE_FIFO);
    assert_eq!(format_from_vk(VK_FORMAT_B8G8R8A8_UNORM), Format::Bgra8Unorm);
    assert_eq!(format_from_vk(64), Format::Unknown(64));
    assert_eq!(vk_format(Format::D32Float).unwrap(), 126);
    assert!(vk_format(Format::Unknown(1)).is_err());
}

#[test]
fn extents_and_image_counts_follow_the_surface() {
    assert_eq!(clamp_extent(&caps(2, 3, 800), Extent2D { width: 1, height: 1 }), Extent2D { width: 800, height: 800 });
    assert_eq!(
        clamp_extent(&caps(2, 3, u32::MAX), Extent2D { width: 9000, height: 0 }),
        Extent2D { width: 4096, height: 1 }
    );
    assert_eq!(image_count(&caps(2, 0, 1)), 3);
    assert_eq!(image_count(&caps(2, 2, 1)), 2);
    assert_eq!(image_count(&caps(0, 0, 1)), 2);
    assert_eq!(image_count(&caps(u32::MAX, 0, 1)), u32::MAX);
}

#[test]
fn the_discrete_gpu_wins_and_old_ones_are_skipped() {
    let v13 = (1 << 22) | (3 << 12);
    let v12 = (1 << 22) | (2 << 12);
    let gpu = |api_version, device_type, family| DeviceCandidate {
        api_version,
        has_swapchain: true,
        graphics_present_family: family,
        device_type,
    };
    let list = [gpu(v13, 1, Some(0)), gpu(v12, 2, Some(0)), gpu(v13, 2, Some(3)), gpu(v13, 2, Some(5))];
    assert_eq!(pick_device(&list).unwrap(), (2, 3));
    assert!(pick_device(&[gpu(v12, 2, Some(0)), gpu(v13, 2, None)]).is_err());
    assert_eq!(find_graphics_present(&[false, true, true], &[true, false, true]), Some(2));
    assert_eq!(find_graphics_present(&[true], &[false]), None);
}

#[test]
fn target_descriptors() {
    let c = color_desc(8, 4, Format::Rgba16Float);
    assert!(c.color_attachment && c.sampled && !c.depth && c.mip_levels == 1);
    assert_eq!(sampled_desc(8, 8, 0, Format::Rgba8Srgb).mip_levels, 1);
    let d = depth_desc(8, 8);
    assert!(d.depth && !d.sampled && d.format == Format::D32Float);
    let s = shadow_atlas_desc(0);
    assert!(s.depth && s.sampled && s.width == 1);
    assert_eq!(GBUFFER_COLOR_FORMATS.len(), 5);
    assert_eq!((transmittance_desc().width, transmittance_desc().height), (256, 64));
    assert_eq!(multiscatter_desc().width, 32);
    assert_eq!(skyview_desc().height, 108);
    assert_eq!(lut_desc(3, 4).format, Format::Rgba16Float);
    assert_eq!((aerial_desc().dim, aerial_desc().depth_slices), (TextureDim::D3, 32));
}

#[test]
fn cloud_cache_names_sizes_and_the_hash() {
    assert_eq!(cache_file_name("base", BASE_SIZE), "cloud_noise_base_128_v1.raw");
    assert_eq!(volume_bytes(8), 8 * 8 * 8 * 4);
    assert!(from_cache(2, vec![0u8; 31]).is_none());
    let v = from_cache(2, vec![9u8; 32]).unwrap();
    assert_eq!((v.size, v.rgba.len()), (2, 32));
    let desc = volume_desc(32);
    assert_eq!((desc.dim, desc.depth_slices, desc.storage), (TextureDim::D3, 32, false));
    assert_eq!(wrap(-1, 8), 7);
    assert_eq!(wrap(-8, 8), 0);
    assert_eq!(wrap(17, 8), 1);
    assert_eq!(wrap(i32::MIN, 3), (i32::MIN as i64).rem_euclid(3) as i32);
    assert_eq!(hash3(1, 2, 3, 4), hash3(1 + 0, 2, 3, 4));
    assert_ne!(hash3(1, 2, 3, 4), hash3(1, 2, 3, 5));
}

#[test]
fn allocation_counters() {
    let mut s = Stats::new();
    s.on_alloc(100);
    s.on_alloc(28);
    s.on_dealloc(100);
    assert_eq!((s.alloc_count, s.dealloc_count, s.bytes_live, s.bytes_allocated_total), (2, 1, 28, 128));
    s.on_dealloc(1000);
    assert_eq!(s.bytes_live, 0, "live bytes never go below zero");
}

#[test]
fn search_paths_are_prepended() {
    assert_eq!(prepend_search_path("/a", None), "/a");
    assert_eq!(prepend_search_path("/a", Some("")), "/a");
    assert_eq!(prepend_search_path("/a", Some("/b:/c")), "/a:/b:/c");
}

use harpia::surface::{select_present_mode_for, VK_PRESENT_MODE_IMMEDIATE, VK_PRESENT_MODE_MAILBOX};

#[test]
fn without_vsync_the_fastest_mode_offered_wins() {
    let all = [VK_PRESENT_MODE_FIFO, VK_PRESENT_MODE_MAILBOX, VK_PRESENT_MODE_IMMEDIATE];
    assert_eq!(select_present_mode_for(&all, true), VK_PRESENT_MODE_FIFO);
    assert_eq!(select_present_mode_for(&all, false), VK_PRESENT_MODE_IMMEDIATE);
    assert_eq!(select_present_mode_for(&[VK_PRESENT_MODE_FIFO, VK_PRESENT_MODE_MAILBOX], false), VK_PRESENT_MODE_MAILBOX);
    assert_eq!(select_present_mode_for(&[VK_PRESENT_MODE_FIFO], false), VK_PRESENT_MODE_FIFO);
    assert_eq!(select_present_mode_for(&[], false), VK_PRESENT_MODE_FIFO);
    assert_eq!(select_present_mode_for(&[3, 1], true), 3);
}
