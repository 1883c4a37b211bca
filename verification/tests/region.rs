use voxelized::chunk::texel_offset;
use voxelized::mesh::{create_mesh, Instance};
use voxelized::mesher::Cuboid;
use voxelized::region::{make_region, Decode, Prefetch};

fn tile_with(voxels: &[(usize, usize, usize)]) -> Vec<u8> {
    let mut tile = vec![0u8; 64 * 64 * 4];
    for &(x, y, z) in voxels {
        tile[texel_offset(x, y, z) + 3] = 255;
    }
    tile
}

#[test]
fn regions_exist_inside_the_scope_only() {
    assert!(make_region(28, 75).is_some());
    assert!(make_region(123, 79).is_some());
    assert!(make_region(27, 75).is_none());
    assert!(make_region(28, 80).is_none());
    assert!(make_region(0, 0).is_none());
}

#[test]
fn a_new_region_has_nothing_yet() {
    let r = make_region(30, 78).unwrap();
    assert_eq!(r.id(), 30 + 96 * 78);
    assert_eq!((r.i(), r.j()), (30, 78));
    assert_eq!((r.x(), r.y(), r.z()), (512, 0, 256));
    assert_eq!(r.slot(), -1);
    assert!(!r.peek());
    assert!(!r.fetching());
    assert!(!r.ctx());
    for c in [0usize, 1, 17, 4095] {
        let chunk = r.chunk_at(c).unwrap();
        assert_eq!(chunk.id(), c as i32);
        assert!(!chunk.is_meshed());
    }
    assert!(r.chunk_at(4096).is_none());
}

#[test]
fn get_finds_a_chunk_by_its_place() {
    let r = make_region(30, 78).unwrap();
    let c = r.get(3, 2, 1).unwrap();
    assert_eq!(c.id(), 3 + 32 + 256);
    assert_eq!((c.x(), c.y(), c.z()), (48, 32, 16));
    assert!(r.get(16, 0, 0).is_none());
    assert!(r.get(0, -1, 0).is_none());
    assert!(r.get(0, 0, 16).is_none());
}

#[test]
fn prefetch_asks_for_the_image_until_it_is_there() {
    let mut r = make_region(30, 78).unwrap();
    assert_eq!(r.prefetch(2), Prefetch::Fetch { i: 30, j: 78, priority: 2 });
    assert!(r.fetching());
    assert!(!r.peek());
    assert_eq!(r.prefetch(0), Prefetch::Fetch { i: 30, j: 78, priority: 0 });
    assert_eq!(r.image(7), Prefetch::Fetch { i: 30, j: 78, priority: 0 });
    r.receive();
    assert!(r.peek());
    assert!(!r.fetching());
    assert_eq!(r.prefetch(2), Prefetch::Ready);
    assert_eq!(r.image(1), Prefetch::Ready);
    assert!(!r.fetching());
}

#[test]
fn decoding_yields_without_the_image() {
    let mut r = make_region(30, 78).unwrap();
    assert_eq!(r.chunk(0, 100), Decode::Yield);
    assert!(r.ctx());
    assert_eq!(r.chunk(0, 100), Decode::Yield);
    r.receive();
    assert_eq!(r.chunk(0, 100), Decode::Load(0));
}

#[test]
fn decoding_yields_when_the_budget_is_used_up() {
    let mut r = make_region(30, 78).unwrap();
    r.receive();
    assert_eq!(r.chunk(0, 4), Decode::Load(0));
    assert_eq!(r.chunk(3, 4), Decode::Load(1));
    assert_eq!(r.chunk(4, 4), Decode::Yield);
    assert_eq!(r.chunk(5, 4), Decode::Yield);
    assert_eq!(r.chunk(0, 0), Decode::Yield);
    assert_eq!(r.chunk(0, -1), Decode::Yield);
    assert_eq!(r.chunk(0, 4), Decode::Load(2));
}

#[test]
fn decoding_with_a_tiny_budget_reaches_completion() {
    let mut r = make_region(30, 78).unwrap();
    r.receive();
    let mut calls = 0;
    let mut loaded = Vec::new();
    loop {
        calls += 1;
        match r.chunk(0, 1) {
            Decode::Complete => break,
            Decode::Yield => panic!("a step within the budget yields"),
            Decode::Load(c) => loaded.push(c),
        }
        assert_eq!(r.chunk(1, 1), if loaded.len() < 4096 { Decode::Yield } else { Decode::Complete });
    }
    assert_eq!(calls, 4097);
    assert_eq!(loaded, (0..4096).collect::<Vec<usize>>());
    assert_eq!(r.chunk(0, 1), Decode::Complete);
}

#[test]
fn cursor_starts_the_decoding_over() {
    let mut r = make_region(30, 78).unwrap();
    r.receive();
    assert_eq!(r.chunk(0, 9), Decode::Load(0));
    assert_eq!(r.chunk(0, 9), Decode::Load(1));
    assert_eq!(r.cursor(), 0);
    assert_eq!(r.chunk(0, 9), Decode::Load(0));
}

#[test]
fn load_meshes_one_chunk() {
    let mut r = make_region(30, 78).unwrap();
    r.load(17, &tile_with(&[(1, 0, 0)]));
    let c = r.chunk_at(17).unwrap();
    assert!(c.is_meshed());
    assert_eq!(c.boxes(), &vec![Cuboid { cx: 3 + 32, cy: 1 + 32, cz: 1, w: 1, h: 1, d: 1 }]);
    assert!(!r.chunk_at(16).unwrap().is_meshed());
    assert!(!r.chunk_at(18).unwrap().is_meshed());
    r.load(4096, &tile_with(&[(1, 0, 0)]));
    r.load(17, &tile_with(&[(5, 5, 5), (7, 7, 7)]));
    assert_eq!(r.chunk_at(17).unwrap().count(), 1);
}

#[test]
fn merge_adds_world_coordinates_and_the_slot() {
    let mut r = make_region(30, 78).unwrap();
    let mut m = create_mesh();
    r.load(17, &tile_with(&[(1, 0, 0)]));
    r.merge(&mut m, 17, 4);
    r.merge(&mut m, 18, 4);
    r.merge(&mut m, 5000, 4);
    assert_eq!(m.staged_count(), 1);
    assert!(m.commit());
    assert_eq!(
        m.instances(),
        &vec![Instance {
            cuboid: Cuboid { cx: 35 + 1024, cy: 33, cz: 1 + 512, w: 1, h: 1, d: 1 },
            aid: 4
        }]
    );
}

#[test]
fn dispose_drops_chunks_and_image() {
    let mut r = make_region(30, 78).unwrap();
    r.receive();
    r.set_slot(3);
    assert_eq!(r.chunk(0, 9), Decode::Load(0));
    r.load(0, &tile_with(&[(1, 0, 0)]));
    assert!(r.dispose());
    assert!(!r.peek());
    assert!(!r.fetching());
    assert!(!r.ctx());
    assert!(r.chunk_at(0).is_none());
    assert!(r.get(0, 0, 0).is_none());
    assert_eq!(r.slot(), 3);
    assert_eq!(r.chunk(0, 9), Decode::Complete);
    assert_eq!(r.id(), 30 + 96 * 78);
}

#[test]
fn set_slot_records_the_slot() {
    let mut r = make_region(30, 78).unwrap();
    r.set_slot(5);
    assert_eq!(r.slot(), 5);
    r.set_slot(-1);
    assert_eq!(r.slot(), -1);
}
