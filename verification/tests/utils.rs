use voxelized::utils::{
    chunk_id, off_of, pos_of, range, region_id, scoped, CACHE, CHUNK, PREFETCH, REGION, ROW,
    SCOPE_X0, SCOPE_X1, SCOPE_Y0, SCOPE_Y1, SLOT,
};

#[test]
fn constants_have_their_values() {
    assert_eq!((SCOPE_X0, SCOPE_X1, SCOPE_Y0, SCOPE_Y1), (28, 123, 75, 79));
    assert_eq!(ROW, SCOPE_X1 - SCOPE_X0 + 1);
    assert_eq!((SLOT, CHUNK, CACHE, REGION, PREFETCH), (16, 16, 32, 256, 16));
    assert_eq!(voxelized::ROW(), 96);
    assert_eq!(voxelized::REGION(), 256);
    assert_eq!(voxelized::SLOT(), 16);
    let scope = voxelized::SCOPE();
    assert_eq!((scope.x0, scope.x1, scope.y0, scope.y1), (28, 123, 75, 79));
}

#[test]
fn scope_has_its_edges() {
    assert!(scoped(28, 75));
    assert!(scoped(123, 79));
    assert!(scoped(60, 77));
    assert!(!scoped(27, 75));
    assert!(!scoped(124, 79));
    assert!(!scoped(28, 74));
    assert!(!scoped(123, 80));
}

#[test]
fn off_of_is_the_corner_of_the_footprint() {
    assert_eq!(off_of(28, 79), (0, 0, 0));
    assert_eq!(off_of(29, 79), (256, 0, 0));
    assert_eq!(off_of(28, 78), (0, 0, 256));
    assert_eq!(off_of(123, 75), (24320, 0, 1024));
    assert_eq!(off_of(27, 80), (-256, 0, -256));
}

#[test]
fn pos_of_rounds_down() {
    assert_eq!(pos_of(0, 0), (28, 79));
    assert_eq!(pos_of(255, 255), (28, 79));
    assert_eq!(pos_of(256, 0), (29, 79));
    assert_eq!(pos_of(0, 256), (28, 78));
    assert_eq!(pos_of(-1, -1), (27, 80));
    assert_eq!(pos_of(-256, -257), (27, 81));
    assert_eq!(pos_of(i32::MAX, i32::MIN), (28 + 8388607, 79 + 8388608));
}

#[test]
fn region_ids_are_distinct_in_the_scope() {
    let mut ids = Vec::new();
    for j in SCOPE_Y0..=SCOPE_Y1 {
        for i in SCOPE_X0..=SCOPE_X1 {
            ids.push(region_id(i, j));
        }
    }
    assert_eq!(region_id(28, 75), 28 + 96 * 75);
    let count = ids.len();
    ids.sort();
    ids.dedup();
    assert_eq!(ids.len(), count);
    assert_eq!(count, 96 * 5);
}

#[test]
fn off_of_and_pos_of_are_inverse() {
    for j in SCOPE_Y0..=SCOPE_Y1 {
        for i in SCOPE_X0..=SCOPE_X1 {
            let (x, _, z) = off_of(i, j);
            for (dx, dz) in [(0, 0), (1, 1), (128, 37), (255, 255), (0, 255), (255, 0)] {
                assert_eq!(pos_of(x + dx, z + dz), (i, j));
            }
            assert_ne!(pos_of(x + 256, z), (i, j));
            assert_ne!(pos_of(x, z - 1), (i, j));
        }
    }
    for (x, z) in [(5, 5), (-700, 12), (24575, 1279), (100000, -3)] {
        let (i, j) = pos_of(x, z);
        let (x0, _, z0) = off_of(i, j);
        assert!(x0 <= x && x < x0 + 256);
        assert!(z0 <= z && z < z0 + 256);
    }
}

#[test]
fn chunk_ids_count_up_with_x_fastest() {
    assert_eq!(chunk_id(0, 0, 0), 0);
    assert_eq!(chunk_id(1, 0, 0), 1);
    assert_eq!(chunk_id(0, 1, 0), 16);
    assert_eq!(chunk_id(0, 0, 1), 256);
    assert_eq!(chunk_id(15, 15, 15), 4095);
    assert_eq!(chunk_id(3, 2, 1), 3 + 32 + 256);
}

#[test]
fn range_counts_from_zero() {
    assert_eq!(range(0), Vec::<u32>::new());
    assert_eq!(range(4), vec![0, 1, 2, 3]);
    assert_eq!(voxelized::range(2), vec![0, 1]);
}
