use voxelized::queue::create_queues;

#[test]
fn a_scheduled_task_takes_the_lane_of_its_priority() {
    let q = create_queues(4, 2);
    let high = q.schedule(2);
    assert_eq!(high.priority(), 2);
    assert!(high.is_high());
    assert!(!high.started());
    let low = q.schedule(0);
    assert_eq!(low.priority(), 0);
    assert!(!low.is_high());
    let lower = q.schedule(-3);
    assert!(!lower.is_high());
}

#[test]
fn start_marks_the_task() {
    let q = create_queues(1, 1);
    let mut t = q.schedule(1);
    t.start();
    assert!(t.started());
    assert_eq!(t.priority(), 1);
    assert!(t.is_high());
}

#[test]
fn bump_raises_a_lower_priority() {
    let q = create_queues(4, 2);
    let mut t = q.schedule(0);
    q.bump(&mut t, 2);
    assert_eq!(t.priority(), 2);
    assert!(t.is_high());
    assert!(!t.started());
}

#[test]
fn bump_never_lowers_a_priority() {
    let q = create_queues(4, 2);
    let mut t = q.schedule(2);
    let before = t;
    q.bump(&mut t, 2);
    assert_eq!(t, before);
    q.bump(&mut t, 0);
    assert_eq!(t, before);
    q.bump(&mut t, -5);
    assert_eq!(t.priority(), 2);
    assert!(t.is_high());
}

#[test]
fn bump_keeps_a_started_task_started() {
    let q = create_queues(4, 2);
    let mut t = q.schedule(-1);
    t.start();
    q.bump(&mut t, 0);
    assert_eq!(t.priority(), 0);
    assert!(!t.is_high());
    assert!(t.started());
}
