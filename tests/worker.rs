use octree_isosurface::worker::{Task, TaskAction, TaskQueue};

fn task(action: TaskAction, level: u32, x: i64, tag: u8) -> Task {
    Task { action, x, y: 0, z: 0, level, path: vec![tag] }
}

#[test]
fn deepest_request_is_served_first() {
    let mut q = TaskQueue::new();
    q.push(task(TaskAction::Generate, 1, 10, 1));
    q.push(task(TaskAction::Generate, 3, 30, 3));
    q.push(task(TaskAction::Generate, 2, 20, 2));
    let order: Vec<u32> = (0..3).map(|_| q.step().unwrap().level).collect();
    assert_eq!(order, vec![3, 2, 1]);
    assert!(q.is_empty());
}

#[test]
fn latest_of_equally_deep_requests_is_served_first() {
    let mut q = TaskQueue::new();
    q.push(task(TaskAction::Generate, 2, 10, 1));
    q.push(task(TaskAction::Generate, 2, 20, 2));
    assert_eq!(q.step().unwrap().path, vec![2]);
    assert_eq!(q.step().unwrap().path, vec![1]);
}

#[test]
fn late_deeper_arrival_overtakes_pending_work() {
    let mut q = TaskQueue::new();
    q.push(task(TaskAction::Generate, 1, 10, 1));
    q.push(task(TaskAction::Generate, 1, 11, 2));
    assert_eq!(q.step().unwrap().path, vec![2]);
    q.push(task(TaskAction::Generate, 4, 40, 4));
    assert_eq!(q.step().unwrap().level, 4);
    assert_eq!(q.step().unwrap().path, vec![1]);
}

#[test]
fn cancel_before_drain_prevents_generation() {
    let mut q = TaskQueue::new();
    q.push(task(TaskAction::Generate, 2, 5, 1));
    q.push(task(TaskAction::Generate, 1, 7, 2));
    q.push(task(TaskAction::Cancel, 2, 5, 1));
    assert_eq!(q.len(), 3);
    assert!(q.step().is_none());
    assert_eq!(q.len(), 1);
    let served = q.step().unwrap();
    assert_eq!(served.x, 7);
    assert!(q.is_empty());
}

#[test]
fn cancel_for_another_origin_keeps_generation() {
    let mut q = TaskQueue::new();
    q.push(task(TaskAction::Generate, 2, 5, 1));
    q.push(task(TaskAction::Cancel, 2, 6, 1));
    assert!(q.step().is_none());
    assert_eq!(q.step().unwrap().x, 5);
}

#[test]
fn cancel_after_service_has_no_effect() {
    let mut q = TaskQueue::new();
    q.push(task(TaskAction::Generate, 2, 5, 1));
    assert_eq!(q.step().unwrap().x, 5);
    q.push(task(TaskAction::Cancel, 2, 5, 1));
    q.push(task(TaskAction::Generate, 1, 9, 2));
    assert!(q.step().is_none());
    assert_eq!(q.step().unwrap().x, 9);
}

#[test]
fn cancel_removes_only_the_first_matching_generation() {
    let mut q = TaskQueue::new();
    q.push(task(TaskAction::Generate, 2, 5, 1));
    q.push(task(TaskAction::Generate, 2, 5, 2));
    q.push(task(TaskAction::Cancel, 2, 5, 3));
    assert!(q.step().is_none());
    assert_eq!(q.step().unwrap().path, vec![2]);
    assert!(q.is_empty());
}
