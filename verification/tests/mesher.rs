use voxelized::mesher::{centres, extents, greedy_mesh, Cuboid};

fn index(x: usize, y: usize, z: usize, n: usize) -> usize {
    x + (y + z * n) * n
}

fn covers(b: &Cuboid, x: usize, y: usize, z: usize) -> bool {
    let (x, y, z) = (2 * x as i32, 2 * y as i32, 2 * z as i32);
    b.cx - b.w <= x
        && x < b.cx + b.w
        && b.cy - b.h <= y
        && y < b.cy + b.h
        && b.cz - b.d <= z
        && z < b.cz + b.d
}

fn noise(n: usize, seed: u32) -> Vec<u8> {
    let mut state = seed;
    let mut grid = Vec::new();
    for _ in 0..n * n * n {
        state = state.wrapping_mul(1664525).wrapping_add(1013904223);
        grid.push(if (state >> 24) % 3 == 0 { 0 } else { ((state >> 16) & 0xff) as u8 | 1 });
    }
    grid
}

#[test]
fn empty_buffer_yields_no_boxes() {
    let grid = vec![0u8; 16 * 16 * 16];
    let boxes = greedy_mesh(&grid, 16);
    assert_eq!(boxes.len(), 0);
    assert_eq!(centres(&boxes), Vec::<i32>::new());
    assert_eq!(extents(&boxes), Vec::<i32>::new());
}

#[test]
fn solid_buffer_yields_one_box() {
    let grid = vec![1u8; 16 * 16 * 16];
    let boxes = greedy_mesh(&grid, 16);
    assert_eq!(boxes, vec![Cuboid { cx: 16, cy: 16, cz: 16, w: 16, h: 16, d: 16 }]);
    assert_eq!(boxes[0].cx as f32 * 0.5, 8.0);
    assert_eq!(boxes[0].cy as f32 * 0.5, 8.0);
    assert_eq!(boxes[0].cz as f32 * 0.5, 8.0);
}

#[test]
fn side_zero_yields_no_boxes() {
    let boxes = greedy_mesh(&[], 0);
    assert_eq!(boxes.len(), 0);
    let boxes = greedy_mesh(&[9, 9, 9], 0);
    assert_eq!(boxes.len(), 0);
}

#[test]
fn single_voxel_yields_unit_box() {
    let mut grid = vec![0u8; 4 * 4 * 4];
    grid[index(1, 2, 3, 4)] = 7;
    let boxes = greedy_mesh(&grid, 4);
    assert_eq!(boxes, vec![Cuboid { cx: 3, cy: 5, cz: 7, w: 1, h: 1, d: 1 }]);
}

#[test]
fn boxes_come_in_scan_order() {
    let mut grid = vec![0u8; 2 * 2 * 2];
    grid[index(0, 1, 1, 2)] = 1;
    grid[index(1, 0, 0, 2)] = 1;
    let boxes = greedy_mesh(&grid, 2);
    assert_eq!(
        boxes,
        vec![
            Cuboid { cx: 3, cy: 1, cz: 1, w: 1, h: 1, d: 1 },
            Cuboid { cx: 1, cy: 3, cz: 3, w: 1, h: 1, d: 1 },
        ]
    );
}

#[test]
fn width_is_grown_before_height() {
    let mut grid = vec![0u8; 4 * 4 * 4];
    for x in 0..4 {
        grid[index(x, 0, 0, 4)] = 1;
    }
    for x in 0..3 {
        grid[index(x, 1, 0, 4)] = 1;
    }
    let boxes = greedy_mesh(&grid, 4);
    assert_eq!(
        boxes,
        vec![
            Cuboid { cx: 4, cy: 1, cz: 1, w: 4, h: 1, d: 1 },
            Cuboid { cx: 3, cy: 3, cz: 1, w: 3, h: 1, d: 1 },
        ]
    );
}

#[test]
fn height_needs_the_whole_row_and_depth_the_whole_plane() {
    let mut grid = vec![0u8; 4 * 4 * 4];
    for z in 0..3 {
        for y in 0..2 {
            for x in 0..2 {
                grid[index(x, y, z, 4)] = 1;
            }
        }
    }
    grid[index(1, 1, 2, 4)] = 0;
    let boxes = greedy_mesh(&grid, 4);
    assert_eq!(
        boxes,
        vec![
            Cuboid { cx: 2, cy: 2, cz: 2, w: 2, h: 2, d: 2 },
            Cuboid { cx: 2, cy: 1, cz: 5, w: 2, h: 1, d: 1 },
            Cuboid { cx: 1, cy: 3, cz: 5, w: 1, h: 1, d: 1 },
        ]
    );
}

#[test]
fn bytes_beyond_the_grid_are_ignored() {
    let mut grid = vec![0u8; 2 * 2 * 2];
    grid[0] = 1;
    grid.extend_from_slice(&[1, 1, 1, 1]);
    let boxes = greedy_mesh(&grid, 2);
    assert_eq!(boxes, vec![Cuboid { cx: 1, cy: 1, cz: 1, w: 1, h: 1, d: 1 }]);
}

#[test]
fn boxes_cover_each_solid_voxel_once() {
    for seed in 1..6u32 {
        let n = 8;
        let grid = noise(n, seed);
        let boxes = greedy_mesh(&grid, n as u32);
        for z in 0..n {
            for y in 0..n {
                for x in 0..n {
                    let hits = boxes.iter().filter(|b| covers(b, x, y, z)).count();
                    let solid = grid[index(x, y, z, n)] != 0;
                    assert_eq!(hits, if solid { 1 } else { 0 });
                }
            }
        }
        for b in &boxes {
            assert!(b.w >= 1 && b.h >= 1 && b.d >= 1);
            assert!(b.cx - b.w >= 0 && b.cx + b.w <= 2 * n as i32);
            assert!(b.cy - b.h >= 0 && b.cy + b.h <= 2 * n as i32);
            assert!(b.cz - b.d >= 0 && b.cz + b.d <= 2 * n as i32);
        }
    }
}

#[test]
fn same_buffer_gives_same_boxes() {
    let grid = noise(16, 42);
    let first = greedy_mesh(&grid, 16);
    let second = greedy_mesh(&grid.clone(), 16);
    assert!(first.len() > 1);
    assert_eq!(first, second);
}

#[test]
fn the_buffer_is_left_as_it_was() {
    let grid = noise(4, 3);
    let copy = grid.clone();
    let _ = greedy_mesh(&grid, 4);
    assert_eq!(grid, copy);
}

#[test]
fn centres_and_extents_are_flat() {
    let boxes = vec![
        Cuboid { cx: 4, cy: 1, cz: 1, w: 4, h: 1, d: 1 },
        Cuboid { cx: 3, cy: 3, cz: 5, w: 3, h: 2, d: 1 },
    ];
    assert_eq!(centres(&boxes), vec![4, 1, 1, 3, 3, 5]);
    assert_eq!(extents(&boxes), vec![4, 1, 1, 3, 2, 1]);
}

#[test]
fn move_by_moves_the_centre_by_whole_voxels() {
    let b = Cuboid { cx: 3, cy: 5, cz: 7, w: 1, h: 2, d: 3 };
    assert_eq!(b.move_by(16, 0, -2), Cuboid { cx: 35, cy: 5, cz: 3, w: 1, h: 2, d: 3 });
}
