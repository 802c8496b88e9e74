use harpia::heightmap::{clip_to_tile, cell_cover, split_global, CellCover, TILE_MIPS, TILE_N};
use harpia::ibl::RgbaImage;
use harpia::rhi::{Format, TextureDim};

#[test]
fn global_samples_split_into_tile_and_index() {
    assert_eq!(split_global(0, 0), (0, 0, 0, 0));
    assert_eq!(split_global(255, 256), (0, 1, 255, 0));
    assert_eq!(split_global(-1, -256), (-1, -1, 255, 0));
    assert_eq!(split_global(-257, 513), (-2, 2, 255, 1));
    for g in [-100_000i64, -513, -1, 0, 1, 77, 4096, 99_999] {
        let (t, _, i, _) = split_global(g, 0);
        assert_eq!(t as i64 * TILE_N as i64 + i as i64, g);
        assert!(i < TILE_N);
    }
}

/// The rectangles the pyramid is checked against, with the blocks that must
/// answer them.
#[test]
fn every_sample_of_a_rectangle_is_under_its_blocks() {
    let rects = [
        (0u32, 0u32, 7u32, 7u32),
        (13, 200, 44, 255),
        (100, 100, 131, 131),
        (0, 0, 255, 255),
        (250, 3, 255, 9),
    ];
    for &(x0, z0, x1, z1) in &rects {
        let c = cell_cover(x0, z0, x1, z1);
        assert!(c.level < TILE_MIPS);
        let block = 1u32 << c.level;
        for z in z0..=z1 {
            for x in x0..=x1 {
                assert!(c.x0 <= x / block && x / block <= c.x1, "({x},{z}) outside {c:?}");
                assert!(c.z0 <= z / block && z / block <= c.z1, "({x},{z}) outside {c:?}");
            }
        }
        assert!(c.x1 - c.x0 <= 2 && c.z1 - c.z0 <= 2, "more than three blocks a side: {c:?}");
        assert!(c.x1 * block < TILE_N && c.z1 * block < TILE_N);
    }
}

#[test]
fn the_pyramid_answers_small_rectangles_at_small_levels() {
    assert_eq!(cell_cover(0, 0, TILE_N - 1, TILE_N - 1), CellCover { level: 8, x0: 0, x1: 0, z0: 0, z1: 0 });
    assert_eq!(cell_cover(8, 8, 15, 15), CellCover { level: 3, x0: 1, x1: 1, z0: 1, z1: 1 });
    assert_eq!(cell_cover(5, 9, 5, 9), CellCover { level: 0, x0: 5, x1: 5, z0: 9, z1: 9 });
    assert_eq!(cell_cover(13, 200, 44, 255), CellCover { level: 5, x0: 0, x1: 1, z0: 6, z1: 7 });
    assert_eq!(cell_cover(300, 0, 900, 3), CellCover { level: 2, x0: 63, x1: 63, z0: 0, z1: 0 });
}

#[test]
fn an_ibl_image_is_a_sampled_rgba8_texture_with_all_its_levels() {
    let img = RgbaImage { width: 32, height: 16, mip_levels: 6, mips: vec![vec![0u8; 32 * 16 * 4]] };
    let d = img.desc();
    assert_eq!((d.width, d.height, d.depth_slices, d.mip_levels), (32, 16, 1, 6));
    assert_eq!(d.dim, TextureDim::D2);
    assert_eq!(d.format, Format::Rgba8Unorm);
    assert!(d.sampled && !d.storage && !d.color_attachment && !d.depth);
}

#[test]
fn clipping_a_rectangle_to_its_tiles() {
    // Samples -10 ..= 300 cross tiles -1, 0 and 1.
    assert_eq!((clip_to_tile(-10, -1), clip_to_tile(300, -1)), (246, 255));
    assert_eq!((clip_to_tile(-10, 0), clip_to_tile(300, 0)), (0, 255));
    assert_eq!((clip_to_tile(-10, 1), clip_to_tile(300, 1)), (0, 44));
    // A rectangle inside one tile keeps its own indices.
    assert_eq!((clip_to_tile(517, 2), clip_to_tile(600, 2)), (5, 88));
}
