use voxelized::region::{Decode, Prefetch};
use voxelized::regions::{create_regions, Regions};
use voxelized::slot::{create_slots, Ready, Slots, Step};

const WX: i32 = 10 * 256 + 5;
const WZ: i32 = 2 * 256 + 5;

fn setup(size: i32) -> (Regions, Slots, Vec<i32>) {
    let mut r = create_regions();
    let mut s = create_slots(size);
    let plan = r.vis(&mut s, WX, WZ, &vec![true; 1024]);
    (r, s, plan.active)
}

fn check_exclusive(r: &Regions, s: &Slots) {
    let mut seen = Vec::new();
    for k in 0..r.size() {
        let region = r.region_at(k).unwrap();
        let slot = region.slot();
        if slot >= 0 {
            assert!(!seen.contains(&slot));
            seen.push(slot);
            assert_eq!(s.owner(slot as usize), Some(region.id()));
        } else {
            assert_eq!(slot, -1);
            assert!(!s.binds(region.id()));
        }
    }
    for index in 0..s.size() {
        if let Some(id) = s.owner(index) {
            assert_eq!(r.region(id).unwrap().slot(), index as i32);
        }
    }
}

#[test]
fn a_new_pool_is_free() {
    let s = create_slots(3);
    assert_eq!(s.size(), 3);
    for index in 0..3 {
        assert_eq!(s.owner(index), None);
        assert!(!s.is_ready(index));
    }
    assert_eq!(s.owner(3), None);
    assert!(!s.is_ready(3));
    assert_eq!(create_slots(0).size(), 0);
    assert_eq!(create_slots(-4).size(), 0);
    assert_eq!(s.step(0, 5), Step::Complete);
}

#[test]
fn assign_takes_the_first_free_slot() {
    let (mut r, mut s, active) = setup(3);
    s.begin(&mut r, &active);
    assert_eq!(s.assign(&mut r, active[0]), Some(0));
    assert_eq!(s.assign(&mut r, active[1]), Some(1));
    assert_eq!(r.region(active[0]).unwrap().slot(), 0);
    assert_eq!(r.region(active[1]).unwrap().slot(), 1);
    assert_eq!(s.owner(0), Some(active[0]));
    assert_eq!(s.owner(1), Some(active[1]));
    assert_eq!(s.owner(2), None);
    assert!(s.binds(active[0]));
    assert!(!s.binds(active[2]));
    check_exclusive(&r, &s);
}

#[test]
fn assign_keeps_the_slot_of_a_bound_region() {
    let (mut r, mut s, active) = setup(3);
    s.begin(&mut r, &active);
    assert_eq!(s.assign(&mut r, active[0]), Some(0));
    assert_eq!(s.assign(&mut r, active[1]), Some(1));
    assert_eq!(s.assign(&mut r, active[0]), Some(0));
    assert_eq!(s.assign(&mut r, active[1]), Some(1));
    assert_eq!(s.owner(2), None);
    check_exclusive(&r, &s);
}

#[test]
fn assign_fails_when_no_slot_is_free() {
    let (mut r, mut s, active) = setup(2);
    s.begin(&mut r, &active);
    assert_eq!(s.assign(&mut r, active[0]), Some(0));
    assert_eq!(s.assign(&mut r, active[1]), Some(1));
    assert_eq!(s.assign(&mut r, active[2]), None);
    assert_eq!(r.region(active[2]).unwrap().slot(), -1);
    assert_eq!(s.owner(0), Some(active[0]));
    assert_eq!(s.owner(1), Some(active[1]));
    check_exclusive(&r, &s);
}

#[test]
fn assign_fails_for_a_region_that_is_not_cached() {
    let (mut r, mut s, active) = setup(2);
    s.begin(&mut r, &active);
    assert_eq!(s.assign(&mut r, 100 + 96 * 75), None);
    assert_eq!(s.owner(0), None);
    assert_eq!(create_slots(0).assign(&mut r, active[0]), None);
}

#[test]
fn begin_frees_the_slots_of_regions_that_are_not_active() {
    let (mut r, mut s, active) = setup(4);
    s.begin(&mut r, &active);
    for a in &active[..4] {
        assert!(s.assign(&mut r, *a).is_some());
    }
    assert_eq!(s.ready(&mut r, 1), Ready::Waiting(Prefetch::Fetch {
        i: active[1] % 96,
        j: active[1] / 96,
        priority: 2
    }));
    let next = vec![active[1], active[3], active[5]];
    s.begin(&mut r, &next);
    assert_eq!(s.owner(0), None);
    assert_eq!(s.owner(1), Some(active[1]));
    assert_eq!(s.owner(2), None);
    assert_eq!(s.owner(3), Some(active[3]));
    assert_eq!(r.region(active[0]).unwrap().slot(), -1);
    assert_eq!(r.region(active[1]).unwrap().slot(), 1);
    assert_eq!(r.region(active[2]).unwrap().slot(), -1);
    assert_eq!(r.region(active[3]).unwrap().slot(), 3);
    check_exclusive(&r, &s);
    assert_eq!(s.assign(&mut r, active[5]), Some(0));
    check_exclusive(&r, &s);
}

#[test]
fn begin_rewinds_the_active_regions() {
    let (mut r, mut s, active) = setup(4);
    assert!(r.receive(active[0]));
    assert!(r.receive(active[1]));
    assert_eq!(r.chunk(active[0], 0, 5), Decode::Load(0));
    assert_eq!(r.chunk(active[0], 0, 5), Decode::Load(1));
    assert_eq!(r.chunk(active[1], 0, 5), Decode::Load(0));
    s.begin(&mut r, &vec![active[0]]);
    assert_eq!(r.chunk(active[0], 0, 5), Decode::Load(0));
    assert_eq!(r.chunk(active[1], 0, 5), Decode::Load(1));
}

#[test]
fn step_hands_out_the_pending_regions_in_order() {
    let (mut r, mut s, active) = setup(4);
    let list = vec![active[2], active[0]];
    s.begin(&mut r, &list);
    assert_eq!(s.step(0, 8), Step::Assign { region: active[2], budget: 8 });
    assert_eq!(s.step(3, 8), Step::Assign { region: active[2], budget: 5 });
    s.advance();
    assert_eq!(s.step(7, 8), Step::Assign { region: active[0], budget: 1 });
    assert_eq!(s.step(8, 8), Step::Yield);
    assert_eq!(s.step(9, 8), Step::Yield);
    assert_eq!(s.step(0, 0), Step::Yield);
    s.advance();
    assert_eq!(s.step(8, 8), Step::Complete);
    s.advance();
    assert_eq!(s.step(0, 8), Step::Complete);
    s.begin(&mut r, &list);
    assert_eq!(s.step(0, 8), Step::Assign { region: active[2], budget: 8 });
}

#[test]
fn step_keeps_the_time_that_is_left_in_range() {
    let (mut r, mut s, active) = setup(1);
    s.begin(&mut r, &active);
    assert_eq!(s.step(-5, i32::MAX), Step::Assign { region: active[0], budget: i32::MAX });
    assert_eq!(s.step(i64::MAX, i32::MAX), Step::Yield);
    assert_eq!(s.step(i64::MIN, i32::MIN), Step::Assign { region: active[0], budget: i32::MAX });
    assert_eq!(s.step(-1, 0), Step::Assign { region: active[0], budget: 1 });
}

#[test]
fn ready_waits_for_the_image() {
    let (mut r, mut s, active) = setup(2);
    s.begin(&mut r, &active);
    assert_eq!(s.ready(&mut r, 0), Ready::Idle);
    assert_eq!(s.ready(&mut r, 2), Ready::Failed);
    assert_eq!(s.ready(&mut r, -1), Ready::Failed);
    assert_eq!(s.assign(&mut r, active[0]), Some(0));
    assert!(!s.is_ready(0));
    assert_eq!(s.ready(&mut r, 0), Ready::Waiting(Prefetch::Fetch {
        i: 38,
        j: 77,
        priority: 2
    }));
    assert!(!s.is_ready(0));
    assert!(r.receive(active[0]));
    assert_eq!(s.ready(&mut r, 0), Ready::Upload { region: active[0] });
    assert!(s.is_ready(0));
    check_exclusive(&r, &s);
    s.begin(&mut r, &vec![active[1]]);
    assert!(!s.is_ready(0));
    assert_eq!(s.assign(&mut r, active[1]), Some(0));
    assert!(!s.is_ready(0));
}

#[test]
fn slots_and_regions_stay_consistent() {
    let mut r = create_regions();
    let mut s = create_slots(5);
    let mut x = 0;
    for step in 0..30 {
        let plan = r.vis(&mut s, x, WZ, &vec![step % 2 == 0; 1024]);
        check_exclusive(&r, &s);
        s.begin(&mut r, &plan.active);
        check_exclusive(&r, &s);
        for a in &plan.active {
            let got = s.assign(&mut r, *a);
            if let Some(index) = got {
                let _ = s.ready(&mut r, index as i32);
            }
            check_exclusive(&r, &s);
        }
        x += 300;
    }
}
