use voxelized::mesh::{create_mesh, Instance};
use voxelized::mesher::Cuboid;

fn unit() -> Instance {
    Instance { cuboid: Cuboid { cx: 0, cy: 0, cz: 0, w: 1, h: 1, d: 1 }, aid: 0 }
}

fn cube(cx: i32) -> Cuboid {
    Cuboid { cx, cy: 1, cz: 1, w: 1, h: 1, d: 1 }
}

#[test]
fn a_new_mesh_draws_the_unit_instance() {
    let m = create_mesh();
    assert_eq!(m.count(), 1);
    assert!(!m.isReady());
    assert_eq!(m.instances(), &vec![unit()]);
    assert_eq!(m.staged_count(), 0);
}

#[test]
fn merge_writes_to_the_staging_list_only() {
    let mut m = create_mesh();
    m.merge(&vec![cube(1), cube(3)], 0, 0, 0, 5);
    assert_eq!(m.staged_count(), 2);
    assert_eq!(m.count(), 1);
    assert_eq!(m.instances(), &vec![unit()]);
    assert!(!m.isReady());
}

#[test]
fn commit_publishes_the_staging_list() {
    let mut m = create_mesh();
    m.merge(&vec![cube(1), cube(3)], 256, 0, -2, 5);
    m.merge(&vec![cube(7)], 0, 1, 0, 6);
    assert!(m.commit());
    assert!(m.isReady());
    assert_eq!(m.count(), 3);
    assert_eq!(m.staged_count(), 0);
    assert_eq!(
        m.instances(),
        &vec![
            Instance { cuboid: Cuboid { cx: 513, cy: 1, cz: -3, w: 1, h: 1, d: 1 }, aid: 5 },
            Instance { cuboid: Cuboid { cx: 515, cy: 1, cz: -3, w: 1, h: 1, d: 1 }, aid: 5 },
            Instance { cuboid: Cuboid { cx: 7, cy: 3, cz: 1, w: 1, h: 1, d: 1 }, aid: 6 },
        ]
    );
}

#[test]
fn commit_of_an_empty_staging_list_changes_nothing() {
    let mut m = create_mesh();
    assert!(!m.commit());
    assert!(!m.isReady());
    assert_eq!(m.instances(), &vec![unit()]);
    m.merge(&vec![cube(1)], 0, 0, 0, 2);
    assert!(m.commit());
    assert!(!m.commit());
    assert!(m.isReady());
    assert_eq!(m.count(), 1);
    assert_eq!(m.instances()[0].aid, 2);
}

#[test]
fn reset_empties_the_staging_list() {
    let mut m = create_mesh();
    m.merge(&vec![cube(1)], 0, 0, 0, 2);
    m.reset();
    assert_eq!(m.staged_count(), 0);
    assert!(!m.commit());
    assert_eq!(m.instances(), &vec![unit()]);
}

#[test]
fn merging_no_boxes_adds_nothing() {
    let mut m = create_mesh();
    m.merge(&Vec::new(), 3, 3, 3, 1);
    assert_eq!(m.staged_count(), 0);
}

#[test]
fn draw_returns_the_number_of_instances() {
    let mut m = create_mesh();
    assert_eq!(m.draw(), 1);
    m.merge(&vec![cube(1), cube(3)], 0, 0, 0, 0);
    assert_eq!(m.draw(), 1);
    assert!(m.commit());
    assert_eq!(m.draw(), 2);
    assert_eq!(m.count(), 2);
}
