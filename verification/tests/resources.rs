use harpia::bindless::{dummy_desc, dummy_pixel, volume_dummy_desc, Bindless};
use harpia::null_gpu::RhiError;
use harpia::resources::{bytes_per_pixel, mip_extent, pack_mip, row_pitch_bytes, unpack_rows};
use harpia::rhi::{Format, TextureDim};

fn message(e: RhiError) -> String {
    match e {
        RhiError::Message(m) => m,
        other => panic!("not a message: {other:?}"),
    }
}

#[test]
fn texel_sizes_and_pitches() {
    assert_eq!(bytes_per_pixel(Format::Rgba8Srgb).unwrap(), 4);
    assert_eq!(bytes_per_pixel(Format::Rgba16Float).unwrap(), 8);
    assert_eq!(bytes_per_pixel(Format::D32Float).unwrap(), 4);
    assert_eq!(message(bytes_per_pixel(Format::Unknown(7)).unwrap_err()), "unknown texture format");
    assert_eq!(row_pitch_bytes(1, 4), 256);
    assert_eq!(row_pitch_bytes(64, 4), 256);
    assert_eq!(row_pitch_bytes(65, 4), 512);
    assert_eq!(row_pitch_bytes(0, 4), 0);
}

#[test]
fn packing_pads_rows_and_unpacking_drops_the_padding() {
    let rgba: Vec<u8> = (0..2 * 3 * 4).map(|i| i as u8 + 1).collect();
    let packed = pack_mip(2, 3, 4, &rgba).unwrap();
    assert_eq!(packed.len(), 256 * 3);
    assert_eq!(&packed[0..8], &rgba[0..8]);
    assert!(packed[8..256].iter().all(|&b| b == 0));
    assert_eq!(&packed[256..264], &rgba[8..16]);
    assert_eq!(unpack_rows(&packed, 2, 3, 1, 4), rgba);
}

#[test]
fn a_mip_of_the_wrong_size_is_refused_with_its_numbers() {
    assert_eq!(message(pack_mip(4, 4, 4, &[0u8; 10]).unwrap_err()), "mip size 10 != 4x4x4");
}

#[test]
fn volumes_unpack_slice_by_slice() {
    // Two slices of one row of one texel: pitch 256, slice 256.
    let mut padded = vec![0u8; 512];
    padded[0..4].copy_from_slice(&[1, 2, 3, 4]);
    padded[256..260].copy_from_slice(&[5, 6, 7, 8]);
    assert_eq!(unpack_rows(&padded, 1, 1, 2, 4), vec![1, 2, 3, 4, 5, 6, 7, 8]);
}

#[test]
fn mips_halve_down_to_one_texel() {
    assert_eq!(mip_extent(256, 64, 0), (256, 64));
    assert_eq!(mip_extent(256, 64, 3), (32, 8));
    assert_eq!(mip_extent(256, 64, 8), (1, 1));
    assert_eq!(mip_extent(5, 3, 31), (1, 1));
}

#[test]
fn the_heap_never_hands_out_the_null_slot() {
    let mut b = Bindless::new();
    let first = b.alloc_slot().unwrap();
    let second = b.alloc_slot().unwrap();
    assert_eq!((first, second), (1, 2));
    for _ in 2..8191 {
        b.alloc_slot().unwrap();
    }
    assert_eq!(message(b.alloc_slot().unwrap_err()), "bindless heap exhausted");
    assert_eq!(Bindless::chunk_offset(3).unwrap(), 3 * 1024);
    assert_eq!(Bindless::chunk_offset(511).unwrap(), 511 * 1024);
    assert_eq!(
        message(Bindless::chunk_offset(512).unwrap_err()),
        "frame CBV ring exhausted: more write_frame_bytes than FRAME_CBV_CHUNKS"
    );
}

#[test]
fn the_dummies_are_one_texel() {
    let d = dummy_desc();
    assert_eq!((d.width, d.height, d.mip_levels, d.format), (1, 1, 1, Format::Rgba8Unorm));
    assert_eq!(dummy_pixel(), [255, 0, 255, 255]);
    let v = volume_dummy_desc();
    assert_eq!((v.dim, v.format, v.storage), (TextureDim::D3, Format::Rgba16Float, true));
}

#[test]
fn the_widest_row_that_fits_keeps_its_pitch() {
    // u32::MAX - 255 is a multiple of 256: it needs no padding.
    assert_eq!(row_pitch_bytes(u32::MAX - 255, 1), u32::MAX - 255);
    assert_eq!(row_pitch_bytes((u32::MAX - 255) / 4, 4), u32::MAX - 255);
    assert_eq!(row_pitch_bytes(u32::MAX - 511 + 1, 1), u32::MAX - 255);
}
