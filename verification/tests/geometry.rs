use harpia::cascades::{cascade_tile, CASCADE_COUNT, DEFAULT_ATLAS_SIZE};
use harpia::cloud_noise::volume_texel;
use harpia::mesh::sphere_indices;
use harpia::occupancy::{
    empty_voxels, occupancy_desc, occupied_count, stamp_cells, voxel_index, OCCUPANCY_BYTES, OCCUPANCY_SIZE,
};

// ---- cascades ----

#[test]
fn cascades_take_the_four_quarters() {
    assert_eq!(cascade_tile(DEFAULT_ATLAS_SIZE, 0), (0, 0, 1024));
    assert_eq!(cascade_tile(DEFAULT_ATLAS_SIZE, 1), (1024, 0, 1024));
    assert_eq!(cascade_tile(DEFAULT_ATLAS_SIZE, 2), (0, 1024, 1024));
    assert_eq!(cascade_tile(DEFAULT_ATLAS_SIZE, 3), (1024, 1024, 1024));
}

#[test]
fn a_cascade_past_the_last_uses_the_last_tile() {
    assert_eq!(cascade_tile(2048, CASCADE_COUNT), cascade_tile(2048, 3));
    assert_eq!(cascade_tile(2048, 99), (1024, 1024, 1024));
}

#[test]
fn a_tiny_atlas_still_has_one_texel_tiles() {
    assert_eq!(cascade_tile(1, 0), (0, 0, 1));
    assert_eq!(cascade_tile(0, 3), (1, 1, 1));
    assert_eq!(cascade_tile(3, 1), (1, 0, 1));
}

#[test]
fn cascade_tiles_are_disjoint_and_inside() {
    for size in [2u32, 5, 512, 2048] {
        for a in 0..CASCADE_COUNT {
            let (x, y, s) = cascade_tile(size, a);
            assert!(x + s <= size && y + s <= size);
            for b in 0..CASCADE_COUNT {
                if a == b {
                    continue;
                }
                let (x2, y2, s2) = cascade_tile(size, b);
                assert!(x + s <= x2 || x2 + s2 <= x || y + s <= y2 || y2 + s2 <= y);
            }
        }
    }
}

// ---- noise volume lookups ----

#[test]
fn volume_texels_wrap_around() {
    assert_eq!(volume_texel(32, 0, 0, 0, 0), 0);
    assert_eq!(volume_texel(32, 1, 0, 0, 2), 6);
    assert_eq!(volume_texel(32, 0, 1, 0, 0), 128);
    assert_eq!(volume_texel(32, 0, 0, 1, 3), 4096 + 3);
    assert_eq!(volume_texel(32, -1, 0, 0, 0), 31 * 4);
    assert_eq!(volume_texel(32, 33, -33, 64, 1), volume_texel(32, 1, 31, 0, 1));
    assert_eq!(volume_texel(4, 5, 6, 7, 0), ((3 * 4 + 2) * 4 + 1) * 4);
}

// ---- sphere mesh ----

#[test]
fn sphere_indices_are_whole_triangles_of_the_grid() {
    let idx = sphere_indices(16, 12);
    assert_eq!(idx.len(), 16 * 12 * 6);
    assert_eq!(idx.len() % 3, 0);
    let vertices = 17 * 13;
    assert!(idx.iter().all(|&i| i < vertices));
    assert_eq!(&idx[..6], &[0, 1, 17, 1, 18, 17]);
    for t in idx.chunks_exact(3) {
        assert!(t[0] != t[1] && t[1] != t[2] && t[0] != t[2]);
    }
}

#[test]
fn a_sphere_has_at_least_three_slices_and_two_stacks() {
    assert_eq!(sphere_indices(0, 0).len(), 3 * 2 * 6);
    assert_eq!(sphere_indices(1, 5).len(), 3 * 5 * 6);
    let last = sphere_indices(3, 2);
    assert_eq!(&last[last.len() - 6..], &[6, 7, 10, 7, 11, 10]);
}

// ---- occupancy ----

#[test]
fn an_empty_volume_has_nothing_occupied() {
    let v = empty_voxels();
    assert_eq!(v.len(), OCCUPANCY_BYTES);
    assert_eq!(occupied_count(&v), 0);
    let d = occupancy_desc();
    assert_eq!((d.width, d.height, d.depth_slices), (OCCUPANCY_SIZE, OCCUPANCY_SIZE, OCCUPANCY_SIZE));
}

#[test]
fn stamping_a_box_marks_exactly_its_voxels() {
    let mut v = empty_voxels();
    stamp_cells(&mut v, [2, 0, 3], [4, 3, 5]);
    assert_eq!(occupied_count(&v), 2 * 3 * 2);
    let i = voxel_index(2, 0, 3);
    assert_eq!((v[i], v[i + 1], v[i + 2], v[i + 3]), (255, 0, 0, 255));
    assert_eq!(v[voxel_index(4, 0, 3)], 0);
    assert_eq!(v[voxel_index(3, 2, 4)], 255);
    assert_eq!(v[voxel_index(3, 3, 4)], 0);
    // Stamping again, or an overlapping box, only adds.
    stamp_cells(&mut v, [2, 0, 3], [4, 3, 5]);
    assert_eq!(occupied_count(&v), 12);
    stamp_cells(&mut v, [3, 0, 3], [6, 1, 4]);
    assert_eq!(occupied_count(&v), 12 + 2);
}

#[test]
fn an_empty_box_stamps_nothing() {
    let mut v = empty_voxels();
    stamp_cells(&mut v, [5, 5, 5], [5, 9, 9]);
    assert_eq!(occupied_count(&v), 0);
    stamp_cells(&mut v, [0, 0, 0], [32, 32, 32]);
    assert_eq!(occupied_count(&v), 32 * 32 * 32);
}

#[test]
fn voxel_bytes_run_x_then_y_then_z() {
    assert_eq!(voxel_index(0, 0, 0), 0);
    assert_eq!(voxel_index(1, 0, 0), 4);
    assert_eq!(voxel_index(0, 1, 0), 128);
    assert_eq!(voxel_index(31, 31, 31), OCCUPANCY_BYTES - 4);
}
