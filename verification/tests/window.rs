use voxelized::window::{cell, ids_of, list_candidates, select, window, Candidate, Cell, CELLS, NEAR};

fn cand(id: i32, d2: i32) -> Candidate {
    Candidate { id, i: 0, j: 0, d2, seen: true }
}

#[test]
fn cells_lie_around_the_camera() {
    assert_eq!(CELLS, 1024);
    assert_eq!(NEAR, 256);
    assert_eq!(cell(0, 0, 0), Cell { i: 12, j: 63, d2: 512, scoped: false });
    assert_eq!(cell(0, 0, 16 * 32 + 16), Cell { i: 28, j: 79, d2: -1, scoped: true });
    assert_eq!(cell(0, 0, 16 * 32 + 17), Cell { i: 28, j: 80, d2: 1, scoped: false });
    assert_eq!(cell(0, 0, 17 * 32 + 15), Cell { i: 29, j: 78, d2: 2, scoped: true });
    assert_eq!(cell(0, 0, 1023), Cell { i: 43, j: 94, d2: 450, scoped: false });
    assert_eq!(cell(300, 600, 16 * 32 + 16), Cell { i: 29, j: 77, d2: -1, scoped: true });
}

#[test]
fn the_window_has_all_cells_in_order() {
    let w = window(2565, 517);
    assert_eq!(w.len(), 1024);
    for (c, at) in w.iter().enumerate() {
        assert_eq!(*at, cell(2565, 517, c));
    }
    assert_eq!(w.iter().filter(|c| c.scoped).count(), 26 * 5);
}

#[test]
fn seen_or_near_regions_of_the_scope_are_candidates() {
    let all = list_candidates(2565, 517, &vec![true; 1024]);
    assert_eq!(all.len(), 130);
    assert!(all.iter().all(|c| c.seen));
    assert_eq!(all[0], Candidate { id: 28 + 96 * 75, i: 28, j: 75, d2: 104, seen: true });
    let none = list_candidates(2565, 517, &[]);
    assert_eq!(none.len(), 130);
    assert_eq!(none.iter().filter(|c| c.seen).count(), 1);
    assert!(none.iter().all(|c| c.seen == (c.d2 == -1)));
}

#[test]
fn far_regions_are_candidates_only_when_seen() {
    let wx = 30 * 256;
    let wz = 19 * 256;
    let none = list_candidates(wx, wz, &[]);
    assert_eq!(none.len(), 11);
    assert!(none.iter().all(|c| c.j == 75 && !c.seen && c.d2 <= 256));
    assert_eq!(none[0], Candidate { id: 53 + 96 * 75, i: 53, j: 75, d2: 250, seen: false });
    let mut visible = vec![false; 1024];
    visible[3 * 32] = true;
    visible[3 * 32 + 31] = true;
    let some = list_candidates(wx, wz, &visible);
    assert_eq!(some.len(), 12);
    assert_eq!(some[0], Candidate { id: 45 + 96 * 75, i: 45, j: 75, d2: 13 * 13 + 15 * 15, seen: true });
    assert_eq!(some[1..], none[..]);
}

#[test]
fn a_region_at_the_slot_distance_is_near() {
    let list = list_candidates(30 * 256, 2 * 256, &[]);
    assert!(list.contains(&Candidate { id: 42 + 96 * 77, i: 42, j: 77, d2: 256, seen: false }));
    assert!(list.iter().all(|c| !(c.i == 42 && c.j == 78)));
    assert!(list.iter().all(|c| c.d2 <= 256));
}

#[test]
fn the_camera_region_outside_the_scope_is_no_candidate() {
    let list = list_candidates(-300, 0, &vec![true; 1024]);
    assert!(list.iter().all(|c| c.d2 >= 0));
    assert!(list.iter().all(|c| c.i >= 28));
    assert_eq!(list.len(), 14 * 5);
}

#[test]
fn select_takes_the_nearest_in_order() {
    let list = vec![cand(1, 5), cand(2, 1), cand(3, 4), cand(4, -1), cand(5, 2)];
    assert_eq!(ids_of(&select(&list, 3)), vec![4, 2, 5]);
    assert_eq!(ids_of(&select(&list, 5)), vec![4, 2, 5, 3, 1]);
    assert_eq!(ids_of(&select(&list, 9)), vec![4, 2, 5, 3, 1]);
    assert_eq!(ids_of(&select(&list, 0)), Vec::<i32>::new());
    assert_eq!(select(&Vec::new(), 4), Vec::new());
}

#[test]
fn select_breaks_ties_by_the_order_of_the_list() {
    let list = vec![cand(1, 2), cand(2, 1), cand(3, 2), cand(4, 1), cand(5, 2), cand(6, 1)];
    assert_eq!(ids_of(&select(&list, 2)), vec![2, 4]);
    assert_eq!(ids_of(&select(&list, 4)), vec![2, 4, 6, 1]);
    assert_eq!(ids_of(&select(&list, 6)), vec![2, 4, 6, 1, 3, 5]);
}
