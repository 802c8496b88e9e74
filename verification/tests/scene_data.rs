use harpia::authoring::{resolve_parents, MissingParent};
use harpia::capture::{bgra_to_rgba, tile_slices};
use harpia::gltf_scene::{to_rgba, ImageKey, ImageTable, PixelLayout};
use harpia::rhi::{Format, TextureData};

#[test]
fn bgra_becomes_rgba_and_back() {
    let bgra = vec![1u8, 2, 3, 4, 5, 6, 7, 8, 9];
    let rgba = bgra_to_rgba(&bgra);
    assert_eq!(rgba, vec![3, 2, 1, 4, 7, 6, 5, 8, 9], "a stray byte past the last texel stays");
    assert_eq!(bgra_to_rgba(&rgba), bgra);
}

#[test]
fn a_volume_is_laid_out_as_a_grid_of_its_slices() {
    // Three 2x1 slices of one byte per texel, two columns: a 4x2 picture
    // whose last cell is empty.
    let data = TextureData { width: 2, height: 1, depth_slices: 3, format: Format::R32Float, bytes: vec![1, 2, 3, 4, 5, 6] };
    let out = tile_slices(&data, 2);
    assert_eq!((out.width, out.height, out.depth_slices), (4, 2, 1));
    assert_eq!(out.bytes, vec![1, 2, 3, 4, 5, 6, 0, 0]);
    // Two rows per slice, two bytes per texel, one column.
    let data = TextureData {
        width: 1,
        height: 2,
        depth_slices: 2,
        format: Format::Rg16Float,
        bytes: vec![10, 11, 12, 13, 20, 21, 22, 23],
    };
    let out = tile_slices(&data, 1);
    assert_eq!((out.width, out.height), (1, 4));
    assert_eq!(out.bytes, data.bytes);
    let flat = TextureData { width: 2, height: 2, depth_slices: 1, format: Format::Rgba8Unorm, bytes: vec![7; 16] };
    let same = tile_slices(&flat, 5);
    assert_eq!((same.width, same.height, same.depth_slices, same.bytes), (2, 2, 1, vec![7; 16]));
}

#[test]
fn gltf_pixels_widen_to_rgba8() {
    assert_eq!(to_rgba(PixelLayout::Rgb8, &[1, 2, 3, 4, 5, 6], 2, 1).rgba, vec![1, 2, 3, 255, 4, 5, 6, 255]);
    assert_eq!(to_rgba(PixelLayout::R8, &[9, 7], 2, 1).rgba, vec![9, 9, 9, 255, 7, 7, 7, 255]);
    assert_eq!(to_rgba(PixelLayout::Rg8, &[9, 100], 1, 1).rgba, vec![9, 9, 9, 100]);
    assert_eq!(to_rgba(PixelLayout::Rgba8, &[1, 2, 3, 4], 1, 1).rgba, vec![1, 2, 3, 4]);
    let grey = to_rgba(PixelLayout::Other, &[0; 12], 3, 1);
    assert_eq!(grey.rgba, [200u8, 200, 200, 255].repeat(3));
    assert_eq!((grey.width, grey.height), (3, 1));
}

#[test]
fn primitives_sharing_a_texture_share_one_image() {
    let mut table = ImageTable::new();
    assert_eq!(table.index_of(ImageKey::Source(4)), (0, true));
    assert_eq!(table.index_of(ImageKey::Factor { r: 255, g: 0, b: 0, a: 255 }), (1, true));
    assert_eq!(table.index_of(ImageKey::Source(4)), (0, false));
    assert_eq!(table.index_of(ImageKey::Source(2)), (2, true));
    assert_eq!(table.index_of(ImageKey::Factor { r: 255, g: 0, b: 0, a: 255 }), (1, false));
}

// ---- authoring hierarchy ----

#[test]
fn missing_parent_is_an_error() {
    let door: u128 = 0x5eed_d00d;
    let ids = vec![door];
    let parents = vec![Some(0u128)];
    let r = resolve_parents(&ids, &parents);
    assert_eq!(r.missing, Some(MissingParent { parent: 0, node: door }));
    assert!(r.links.is_empty());
}

#[test]
fn a_door_links_to_its_house() {
    let (house, door) = (11u128, 22u128);
    let r = resolve_parents(&vec![house, door], &vec![None, Some(house)]);
    assert_eq!(r.missing, None);
    assert_eq!(r.links, vec![(1usize, 0usize)]);
}

#[test]
fn links_made_before_a_missing_parent_stay_made() {
    let ids = vec![1u128, 2, 3, 4];
    let parents = vec![None, Some(1u128), Some(9), Some(2)];
    let r = resolve_parents(&ids, &parents);
    assert_eq!(r.links, vec![(1usize, 0usize)]);
    assert_eq!(r.missing, Some(MissingParent { parent: 9, node: 3 }));
}

#[test]
fn a_repeated_id_is_found_at_its_last_node() {
    let ids = vec![7u128, 8, 7];
    let parents = vec![None, Some(7u128), Some(8)];
    let r = resolve_parents(&ids, &parents);
    assert_eq!(r.missing, None);
    assert_eq!(r.links, vec![(1usize, 2usize), (2, 1)]);
}
