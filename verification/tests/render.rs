use harpia::meshlets::{meshlet_layout, morton3, MeshletRange, MESHLET_TRIS};
use harpia::dds::{decode, DdsError, NORMAL_Z_LEN};
use harpia::fog::{
    froxel_desc, inject_dispatch, integrate_dispatch, FROXEL_D, FROXEL_H, FROXEL_W, INJECT_GROUP_X, INJECT_GROUP_Y,
    INJECT_GROUP_Z,
};
use harpia::gltf_scene::CpuImage;
use harpia::lights::{cluster_index, pack_buckets, CLUSTER_COUNT, MAX_LIGHT_INDICES};
use harpia::spd::{atomic_zeros, setup, SpdPlugin, ATOMIC_BYTES};
use harpia::sssr::SssrPlugin;
use harpia::plugin::{Plugin, PluginLoader, PLUGIN_ABI_VERSION};
use harpia::terrain::{
    clipmap_patch_count, clipmap_patch_grid, clipmap_patch_vertex_count, clipmap_patches_per_level,
    clipmap_vertex_count, hash2_bits, patch_in_hole, CLIPMAP_LEVELS, CLIPMAP_N, CLIPMAP_PATCH,
};

// ---- fog ----

#[test]
fn dispatch_covers_every_froxel() {
    let (x, y, z) = inject_dispatch();
    assert_eq!((x, y, z), (20, 12, 16));
    assert!(x * INJECT_GROUP_X >= FROXEL_W);
    assert!(y * INJECT_GROUP_Y >= FROXEL_H);
    assert_eq!(z * INJECT_GROUP_Z, FROXEL_D);
    assert_eq!(integrate_dispatch(), (20, 12, 1));
}

#[test]
fn froxel_volumes_are_sampled_storage_volumes() {
    let d = froxel_desc();
    assert_eq!((d.width, d.height, d.depth_slices, d.mip_levels), (160, 90, 64, 1));
    assert!(d.sampled && d.storage && !d.color_attachment && !d.depth);
}

// ---- terrain ----

#[test]
fn patches_tile_their_level() {
    assert_eq!(clipmap_patch_grid() * CLIPMAP_PATCH, CLIPMAP_N);
    assert_eq!(
        clipmap_patch_vertex_count() * clipmap_patches_per_level(),
        clipmap_vertex_count(),
        "the patches of a level give the vertices of the level"
    );
    assert_eq!(clipmap_patch_count(), clipmap_patches_per_level() * CLIPMAP_LEVELS);
}

#[test]
fn only_fully_interior_patches_are_dropped() {
    let per_level = clipmap_patches_per_level();
    for p in 0..per_level {
        assert!(!patch_in_hole(p), "level 0 has no hole, and patch {p} fell in it");
    }
    for level in 1..CLIPMAP_LEVELS {
        let dropped = (0..per_level).filter(|&p| patch_in_hole(level * per_level + p)).count();
        assert_eq!(dropped, 9, "level {level} dropped {dropped} patches, not 9");
    }
}

/// The float wrapper divides by 2^32 after the integer core.
fn hash2(x: f32, y: f32) -> f32 {
    hash2_bits(x as i32 as u32, y as i32 as u32) as f32 * (1.0 / 4_294_967_296.0)
}

#[test]
fn hash_is_integer_and_pinned() {
    assert_eq!(hash2(0.0, 0.0), 0.0);
    for (x, y) in [(1.0, 0.0), (-3.0, 7.0), (129.0, -45.0)] {
        let h = hash2(x, y);
        assert!((0.0..1.0).contains(&h), "hash2({x}, {y}) = {h} outside [0,1)");
    }
    let a = hash2(10.0, 20.0);
    assert_ne!(a, hash2(11.0, 20.0));
    assert_ne!(a, hash2(10.0, 21.0));
    assert_ne!(a, hash2(20.0, 10.0), "symmetric in x/y would give diagonals");
}

#[test]
fn hash_bits_are_the_integer_mix() {
    // 1 * 374761393 = 0x1656_67B1; then the two xor-shift-multiply rounds.
    let mut h: u32 = 374_761_393;
    h = (h ^ (h >> 13)).wrapping_mul(1_274_126_177);
    h ^= h >> 16;
    assert_eq!(hash2_bits(1, 0), h);
    assert_eq!(hash2_bits(0, 0), 0);
}

// ---- glTF images ----

fn srgb_to_linear(c: u8) -> f32 {
    let c = c as f32 / 255.0;
    if c <= 0.04045 {
        c / 12.92
    } else {
        ((c + 0.055) / 1.055).powf(2.4)
    }
}

fn linear_to_srgb_u8(v: f32) -> u8 {
    let c = if v <= 0.003_130_8 { v * 12.92 } else { 1.055 * v.powf(1.0 / 2.4) - 0.055 };
    (c.clamp(0.0, 1.0) * 255.0 + 0.5) as u8
}

/// A 2x2 box filter, RGB averaged in linear light, alpha as-is.
fn downsample_srgb(src: &[u8], w: u32, h: u32) -> (Vec<u8>, u32, u32) {
    let dw = (w / 2).max(1);
    let dh = (h / 2).max(1);
    let mut out = vec![0u8; dw as usize * dh as usize * 4];
    for y in 0..dh {
        let y0 = (y * 2).min(h - 1) as usize;
        let y1 = (y * 2 + 1).min(h - 1) as usize;
        for x in 0..dw {
            let x0 = (x * 2).min(w - 1) as usize;
            let x1 = (x * 2 + 1).min(w - 1) as usize;
            let taps = [
                (y0 * w as usize + x0) * 4,
                (y0 * w as usize + x1) * 4,
                (y1 * w as usize + x0) * 4,
                (y1 * w as usize + x1) * 4,
            ];
            let mut rgb = [0.0f32; 3];
            let mut a = 0.0f32;
            for t in taps {
                rgb[0] += srgb_to_linear(src[t]);
                rgb[1] += srgb_to_linear(src[t + 1]);
                rgb[2] += srgb_to_linear(src[t + 2]);
                a += src[t + 3] as f32;
            }
            let d = (y as usize * dw as usize + x as usize) * 4;
            out[d] = linear_to_srgb_u8(rgb[0] * 0.25);
            out[d + 1] = linear_to_srgb_u8(rgb[1] * 0.25);
            out[d + 2] = linear_to_srgb_u8(rgb[2] * 0.25);
            out[d + 3] = (a * 0.25 + 0.5) as u8;
        }
    }
    (out, dw, dh)
}

fn img(w: u32, h: u32) -> CpuImage {
    CpuImage { rgba: vec![255u8; (w * h * 4) as usize], width: w, height: h }
}

#[test]
fn mip_chain_reaches_one_by_one() {
    let i = img(256, 64);
    assert_eq!(i.mip_levels(), 9);
    let chain = i.mip_chain(downsample_srgb);
    assert_eq!(chain.len(), 9);
    assert_eq!(chain[0].len(), 256 * 64 * 4);
    assert_eq!(chain[8].len(), 4);
    assert_eq!(chain[8], vec![255u8; 4]);
}

#[test]
fn one_by_one_has_a_single_level() {
    let i = img(1, 1);
    assert_eq!(i.mip_levels(), 1);
    assert_eq!(i.mip_chain(downsample_srgb).len(), 1);
}

#[test]
fn mip_levels_follow_the_longer_side() {
    assert_eq!(img(1, 1024).mip_levels(), 11);
    assert_eq!(img(1000, 3).mip_levels(), 10);
    assert_eq!(CpuImage { rgba: Vec::new(), width: 0, height: 0 }.mip_levels(), 1);
}

// ---- single-pass downsampler ----

#[test]
fn setup_matches_amd_rect() {
    let d = setup(1280, 720, None);
    assert_eq!(d.groups_x, 20);
    assert_eq!(d.groups_y, 12);
    assert_eq!(d.num_work_groups, 240);
    assert_eq!(d.mips, 10);
    assert_eq!(d.texture_mips(), 11);
    assert_eq!(d.constants_bytes().len(), 16);
}

#[test]
fn setup_caps_the_levels_and_packs_the_constants() {
    let d = setup(0, 0, Some(40));
    assert_eq!((d.groups_x, d.groups_y, d.num_work_groups, d.mips), (1, 1, 1, 12));
    assert_eq!(d.texture_mips(), 13);
    let small = setup(65, 64, Some(2));
    assert_eq!((small.groups_x, small.groups_y, small.mips), (2, 1, 2));
    assert_eq!(small.texture_mips(), 7);
    assert_eq!(setup(100_000, 3, None).mips, 12);
    let bytes = setup(1280, 720, None).constants_bytes();
    assert_eq!(bytes, [10, 0, 0, 0, 240, 0, 0, 0, 0, 0, 0, 0, 0, 0, 0, 0]);
    assert_eq!(atomic_zeros(), [0u8; ATOMIC_BYTES]);
}

#[test]
fn plugin_trait_is_spd() {
    assert_eq!(SpdPlugin.name(), "ffx-spd");
    assert_eq!(SpdPlugin.abi_version(), PLUGIN_ABI_VERSION);
}

#[test]
fn plugin_trait_is_sssr() {
    assert_eq!(SssrPlugin.name(), "ffx-sssr");
    assert_eq!(SssrPlugin.abi_version(), PLUGIN_ABI_VERSION);
}

// ---- lights ----

#[test]
fn ranges_point_inside_the_index_list() {
    let mut buckets: Vec<Vec<u32>> = vec![Vec::new(); CLUSTER_COUNT as usize];
    for (i, b) in buckets.iter_mut().enumerate().take(64) {
        b.push(i as u32);
        b.push(i as u32 + 1);
    }
    let a = pack_buckets(&buckets);
    assert_eq!(a.ranges.len(), CLUSTER_COUNT as usize);
    for r in &a.ranges {
        assert!((r.offset + r.count) as usize <= a.indices.len());
    }
    assert_eq!(a.dropped, 0);
    assert_eq!((a.ranges[3].offset, a.ranges[3].count), (6, 2));
    assert_eq!(&a.indices[6..8], &[3, 4]);
}

#[test]
fn an_empty_frame_still_uploads_one_index() {
    let a = pack_buckets(&vec![Vec::new(); 4]);
    assert_eq!(a.indices, vec![0]);
    assert!(a.ranges.iter().all(|r| r.count == 0 && r.offset == 0));
}

#[test]
fn lights_past_the_cap_are_counted_not_lost_silently() {
    let big: Vec<u32> = (0..MAX_LIGHT_INDICES as u32 - 1).collect();
    let a = pack_buckets(&vec![big, vec![7, 8, 9]]);
    assert_eq!(a.indices.len(), MAX_LIGHT_INDICES);
    assert_eq!((a.ranges[1].offset as usize, a.ranges[1].count), (MAX_LIGHT_INDICES - 1, 1));
    assert_eq!(a.dropped, 2);
    assert_eq!(cluster_index(15, 8, 23), CLUSTER_COUNT - 1);
    assert_eq!(cluster_index(1, 1, 1), (9 + 1) * 16 + 1);
}

// ---- DDS ----

fn normal_z() -> Vec<u8> {
    let mut t = vec![0u8; NORMAL_Z_LEN];
    for rv in 0..256usize {
        for gv in 0..256usize {
            let nx = rv as f32 / 255.0 * 2.0 - 1.0;
            let ny = gv as f32 / 255.0 * 2.0 - 1.0;
            let nz = (1.0 - nx * nx - ny * ny).max(0.0).sqrt();
            t[rv * 256 + gv] = (nz * 0.5 + 0.5).clamp(0.0, 1.0).mul_add(255.0, 0.0) as u8;
        }
    }
    t
}

fn header(width: u32, height: u32, dxgi: u32) -> Vec<u8> {
    let mut b = vec![0u8; 148];
    b[0..4].copy_from_slice(b"DDS ");
    b[12..16].copy_from_slice(&height.to_le_bytes());
    b[16..20].copy_from_slice(&width.to_le_bytes());
    b[80..84].copy_from_slice(&4u32.to_le_bytes());
    b[84..88].copy_from_slice(&0x3031_5844u32.to_le_bytes());
    b[128..132].copy_from_slice(&dxgi.to_le_bytes());
    b
}

fn err(r: Result<harpia::dds::DdsImage, DdsError>) -> String {
    r.err().expect("must fail").0
}

#[test]
fn dds_headers_are_checked_in_order() {
    let z = normal_z();
    assert_eq!(err(decode(b"DDS", &z)), "not a DDS");
    let mut bad = header(4, 4, 28);
    bad[0] = b'X';
    assert_eq!(err(decode(&bad, &z)), "not a DDS");
    assert_eq!(err(decode(&header(0, 4, 28), &z)), "bad DDS size 0x4");
    assert_eq!(err(decode(&header(9000, 4, 28), &z)), "bad DDS size 9000x4");
    let mut no_dx10 = header(4, 4, 28);
    no_dx10[80] = 0;
    assert_eq!(err(decode(&no_dx10, &z)), "need DX10 DDS");
    assert_eq!(err(decode(&header(4, 4, 99), &z)), "unsupported DXGI format 99");
    assert_eq!(err(decode(&header(4, 4, 71), &z)), "BC1 DDS truncated");
    assert_eq!(err(decode(&header(4, 4, 80), &z)), "BC4 DDS truncated");
    assert_eq!(err(decode(&header(4, 4, 84), &z)), "BC5 DDS truncated");
    assert_eq!(err(decode(&header(4, 4, 87), &z)), "RGBA DDS truncated");
}

#[test]
fn rgba_and_bgra_are_copied_and_swizzled() {
    let z = normal_z();
    let mut f = header(2, 1, 28);
    f.extend_from_slice(&[1, 2, 3, 4, 5, 6, 7, 8]);
    let img = decode(&f, &z).unwrap();
    assert_eq!((img.width, img.height), (2, 1));
    assert_eq!(img.rgba, vec![1, 2, 3, 4, 5, 6, 7, 8]);
    let mut g = header(2, 1, 87);
    g.extend_from_slice(&[1, 2, 3, 4, 5, 6, 7, 8]);
    assert_eq!(decode(&g, &z).unwrap().rgba, vec![3, 2, 1, 4, 7, 6, 5, 8]);
}

#[test]
fn a_bc1_block_decodes_its_palette() {
    let z = normal_z();
    // c0 = pure red (0xF800), c1 = pure blue (0x001F); c0 > c1: four colours.
    // Indices: texel 0 -> 0, texel 1 -> 1, texel 2 -> 2, texel 3 -> 3, rest 0.
    let mut f = header(4, 4, 71);
    f.extend_from_slice(&[0x00, 0xF8, 0x1F, 0x00, 0b1110_0100, 0, 0, 0]);
    let img = decode(&f, &z).unwrap();
    assert_eq!(img.rgba.len(), 64);
    assert_eq!(&img.rgba[0..4], &[255, 0, 0, 255]);
    assert_eq!(&img.rgba[4..8], &[0, 0, 255, 255]);
    assert_eq!(&img.rgba[8..12], &[170, 0, 85, 255]);
    assert_eq!(&img.rgba[12..16], &[85, 0, 170, 255]);
    assert_eq!(&img.rgba[16..20], &[255, 0, 0, 255]);
    // c0 <= c1: three colours and transparent black.
    let mut g = header(4, 1, 72);
    g.extend_from_slice(&[0x1F, 0x00, 0x00, 0xF8, 0b1110_0100, 0, 0, 0]);
    let img = decode(&g, &z).unwrap();
    assert_eq!(img.rgba.len(), 16);
    assert_eq!(&img.rgba[0..4], &[0, 0, 255, 255]);
    assert_eq!(&img.rgba[8..12], &[127, 0, 127, 255]);
    assert_eq!(&img.rgba[12..16], &[0, 0, 0, 0]);
}

#[test]
fn bc4_is_grey_and_bc5_rebuilds_blue() {
    let z = normal_z();
    // r0 = 255, r1 = 0: eight steps; texel 0 uses index 2 = (6*255)/7 = 218.
    let mut f = header(4, 4, 80);
    f.extend_from_slice(&[255, 0, 2, 0, 0, 0, 0, 0]);
    let img = decode(&f, &z).unwrap();
    assert_eq!(&img.rgba[0..4], &[218, 218, 218, 255]);
    assert_eq!(&img.rgba[4..8], &[255, 255, 255, 255]);
    // BC5: red and green blocks; blue from the table.
    let mut g = header(1, 1, 83);
    g.extend_from_slice(&[128, 128, 0, 0, 0, 0, 0, 0, 128, 128, 0, 0, 0, 0, 0, 0]);
    let img = decode(&g, &z).unwrap();
    assert_eq!(img.rgba, vec![128, 128, z[128 * 256 + 128], 255]);
    assert_eq!(z[128 * 256 + 128], 254);
}

#[test]
fn morton_codes_interleave_x_lowest() {
    assert_eq!(morton3(0, 0, 0), 0);
    assert_eq!(morton3(1, 0, 0), 0b001);
    assert_eq!(morton3(0, 1, 0), 0b010);
    assert_eq!(morton3(0, 0, 1), 0b100);
    assert_eq!(morton3(3, 0, 0), 0b001_001);
    assert_eq!(morton3(1023, 1023, 1023), (1u32 << 30) - 1);
    assert_eq!(morton3(1024 + 5, 0, 0), morton3(5, 0, 0), "only ten bits count");
}

#[test]
fn meshlets_cut_the_triangles_in_code_order() {
    let indices: Vec<u32> = (0..15).collect();
    let codes = [40u32, 10, 30, 10, 0];
    let (ranges, out) = meshlet_layout(&codes, &indices, 2, 7);
    assert_eq!(
        ranges,
        vec![
            MeshletRange { prim: 7, first_index: 0, index_count: 6 },
            MeshletRange { prim: 7, first_index: 6, index_count: 6 },
            MeshletRange { prim: 7, first_index: 12, index_count: 3 },
        ]
    );
    // Triangles 4, 1, 3, 2, 0: by code, ties by position.
    assert_eq!(out, vec![12, 13, 14, 3, 4, 5, 9, 10, 11, 6, 7, 8, 0, 1, 2]);
}

#[test]
fn one_meshlet_keeps_the_file_order() {
    let indices: Vec<u32> = vec![5, 6, 7, 1, 2, 3, 9, 9, 9, 4];
    let codes = [9u32, 3, 1];
    let (ranges, out) = meshlet_layout(&codes, &indices, MESHLET_TRIS, 0);
    assert_eq!(ranges, vec![MeshletRange { prim: 0, first_index: 0, index_count: 9 }]);
    assert_eq!(out, vec![5, 6, 7, 1, 2, 3, 9, 9, 9], "a stray index past the last triangle is dropped");
    let (none, empty) = meshlet_layout(&[], &[1, 2], 0, 0);
    assert!(none.is_empty() && empty.is_empty());
    let (single, _) = meshlet_layout(&[0, 0], &[0, 1, 2, 3, 4, 5], 0, 3);
    assert_eq!(single.len(), 2, "zero triangles per meshlet means one");
}

#[test]
fn hello_triangle_needs_no_plugins() {
    let loader = PluginLoader::new();
    assert!(loader.is_empty());
    let mut loader = loader;
    loader.load_dir("plugins").unwrap();
    assert!(loader.is_empty());
}
