use voxelized::chunk::{create_chunk, decode, texel_offset, THRESHOLD, VOXELS};
use voxelized::mesher::Cuboid;

fn tile_with(voxels: &[(usize, usize, usize, u8)]) -> Vec<u8> {
    let mut tile = vec![0u8; 64 * 64 * 4];
    for &(x, y, z, alpha) in voxels {
        tile[texel_offset(x, y, z) + 3] = alpha;
    }
    tile
}

#[test]
fn texels_are_packed_four_slices_to_a_row() {
    assert_eq!(texel_offset(0, 0, 0), 0);
    assert_eq!(texel_offset(1, 0, 0), 4);
    assert_eq!(texel_offset(0, 1, 0), 64 * 4);
    assert_eq!(texel_offset(0, 0, 1), 16 * 4);
    assert_eq!(texel_offset(0, 0, 3), 48 * 4);
    assert_eq!(texel_offset(0, 0, 4), 16 * 64 * 4);
    assert_eq!(texel_offset(15, 15, 15), ((48 + 15) * 64 + 48 + 15) * 4);
    assert_eq!(texel_offset(2, 3, 6), ((16 + 3) * 64 + 32 + 2) * 4);
}

#[test]
fn alpha_above_the_threshold_is_solid() {
    assert_eq!(THRESHOLD, 128);
    assert_eq!(VOXELS, 4096);
    let tile = tile_with(&[(0, 0, 0, 128), (1, 0, 0, 129), (2, 3, 6, 255), (3, 0, 0, 1)]);
    let vox = decode(&tile);
    assert_eq!(vox.len(), 4096);
    assert_eq!(vox[0], 0);
    assert_eq!(vox[1], 1);
    assert_eq!(vox[3], 0);
    assert_eq!(vox[2 + (3 + 6 * 16) * 16], 1);
    assert_eq!(vox.iter().filter(|&&v| v != 0).count(), 2);
}

#[test]
fn only_the_alpha_channel_counts() {
    let mut tile = vec![0u8; 64 * 64 * 4];
    let at = texel_offset(5, 5, 5);
    tile[at] = 255;
    tile[at + 1] = 255;
    tile[at + 2] = 255;
    assert!(decode(&tile).iter().all(|&v| v == 0));
}

#[test]
fn a_short_tile_decodes_to_empty_voxels() {
    assert!(decode(&[]).iter().all(|&v| v == 0));
    assert_eq!(decode(&[]).len(), 4096);
    let tile = vec![255u8; 64 * 4];
    let vox = decode(&tile);
    for z in 0..16 {
        for y in 0..16 {
            for x in 0..16 {
                let solid = y == 0 && z < 4;
                assert_eq!(vox[x + (y + z * 16) * 16], if solid { 1 } else { 0 });
            }
        }
    }
}

#[test]
fn decoding_is_idempotent() {
    let tile = tile_with(&[(1, 2, 3, 200), (4, 5, 6, 130)]);
    assert_eq!(decode(&tile), decode(&tile));
}

#[test]
fn chunks_exist_inside_the_region_only() {
    assert!(create_chunk(0, 0, 0).is_some());
    assert!(create_chunk(15, 15, 15).is_some());
    assert!(create_chunk(16, 0, 0).is_none());
    assert!(create_chunk(0, -1, 0).is_none());
    assert!(create_chunk(0, 0, 16).is_none());
}

#[test]
fn a_new_chunk_is_unloaded() {
    let c = create_chunk(3, 2, 1).unwrap();
    assert_eq!(c.id(), 3 + 32 + 256);
    assert_eq!((c.x(), c.y(), c.z()), (48, 32, 16));
    assert!(!c.is_meshed());
    assert_eq!(c.count(), 0);
    assert!(c.vox().is_none());
    assert!(c.boxes().is_empty());
}

#[test]
fn the_tile_of_a_chunk_lies_in_the_block_of_its_k() {
    assert_eq!(create_chunk(0, 0, 0).unwrap().tile_origin(), (0, 0));
    assert_eq!(create_chunk(1, 2, 0).unwrap().tile_origin(), (64, 128));
    assert_eq!(create_chunk(0, 0, 1).unwrap().tile_origin(), (1024, 0));
    assert_eq!(create_chunk(0, 0, 4).unwrap().tile_origin(), (0, 1024));
    assert_eq!(create_chunk(15, 15, 15).unwrap().tile_origin(), (3072 + 960, 3072 + 960));
}

#[test]
fn load_decodes_meshes_and_moves_the_boxes() {
    let mut c = create_chunk(1, 2, 3).unwrap();
    let tile = tile_with(&[(0, 0, 0, 255), (1, 0, 0, 255), (5, 6, 7, 255)]);
    c.load(&tile);
    assert!(c.is_meshed());
    assert_eq!(c.count(), 2);
    assert_eq!(c.vox().unwrap(), &decode(&tile));
    assert_eq!(
        c.boxes(),
        &vec![
            Cuboid { cx: 2 + 32, cy: 1 + 64, cz: 1 + 96, w: 2, h: 1, d: 1 },
            Cuboid { cx: 11 + 32, cy: 13 + 64, cz: 15 + 96, w: 1, h: 1, d: 1 },
        ]
    );
    assert_eq!(c.pos(), vec![34, 65, 97, 43, 77, 111]);
    assert_eq!(c.scl(), vec![2, 1, 1, 1, 1, 1]);
}

#[test]
fn a_meshed_chunk_is_not_loaded_again() {
    let mut c = create_chunk(0, 0, 0).unwrap();
    c.load(&tile_with(&[(0, 0, 0, 255)]));
    let before = c.boxes().clone();
    c.load(&tile_with(&[(9, 9, 9, 255), (3, 3, 3, 255)]));
    assert_eq!(c.boxes(), &before);
    assert_eq!(c.count(), 1);
    assert_eq!(c.vox().unwrap()[0], 1);
}

#[test]
fn a_disposed_chunk_can_be_loaded_again() {
    let mut c = create_chunk(0, 0, 0).unwrap();
    c.load(&tile_with(&[(0, 0, 0, 255)]));
    c.dispose();
    assert!(!c.is_meshed());
    assert!(c.vox().is_none());
    assert_eq!(c.count(), 0);
    assert_eq!(c.id(), 0);
    c.load(&tile_with(&[(9, 9, 9, 255), (3, 3, 3, 255)]));
    assert_eq!(c.count(), 2);
}

#[test]
fn an_empty_tile_meshes_to_nothing() {
    let mut c = create_chunk(0, 0, 0).unwrap();
    c.load(&tile_with(&[]));
    assert!(c.is_meshed());
    assert_eq!(c.count(), 0);
    assert_eq!(c.vox().unwrap().len(), 4096);
}

#[test]
fn a_solid_tile_meshes_to_one_box() {
    let mut c = create_chunk(15, 0, 0).unwrap();
    c.load(&vec![255u8; 64 * 64 * 4]);
    assert_eq!(c.boxes(), &vec![Cuboid { cx: 16 + 480, cy: 16, cz: 16, w: 16, h: 16, d: 16 }]);
}
