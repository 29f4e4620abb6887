use voxel_engine::physics::cloth::grid_constraints;
use voxel_engine::physics::culling::{CullCandidate, CullLimits};
use voxel_engine::physics::sleeping::SleepTracker;

fn body(id: u64, below_bounds: bool, voxel_count: u32) -> CullCandidate {
    CullCandidate { id, below_bounds, voxel_count }
}

#[test]
fn culling_removes_fallen_and_tiny_bodies() {
    let limits = CullLimits { min_voxels: 5, max_bodies: 10 };
    let bodies = [body(1, true, 100), body(2, false, 3), body(3, false, 50)];
    let culled = limits.find_bodies_to_cull(&bodies);
    let mut ids: Vec<u64> = culled.into_iter().collect();
    ids.sort();
    assert_eq!(ids, vec![1, 2]);
}

#[test]
fn culling_cap_removes_smallest_first_and_keeps_order_among_equals() {
    let limits = CullLimits { min_voxels: 0, max_bodies: 2 };
    let bodies = [body(10, false, 7), body(11, false, 3), body(12, false, 7), body(13, false, 9)];
    let culled = limits.find_bodies_to_cull(&bodies);
    let mut ids: Vec<u64> = culled.into_iter().collect();
    ids.sort();
    // two must go: the 3-voxel body and the first of the two 7-voxel bodies
    assert_eq!(ids, vec![10, 11]);
}

#[test]
fn culling_under_the_cap_removes_nothing_more() {
    let limits = CullLimits { min_voxels: 1, max_bodies: 5 };
    let bodies = [body(1, false, 2), body(2, false, 2)];
    assert!(limits.find_bodies_to_cull(&bodies).is_empty());
}

#[test]
fn body_falls_asleep_after_threshold_frames() {
    let mut s = SleepTracker::new(3);
    s.update(7, true);
    s.update(7, true);
    assert!(!s.is_sleeping(7));
    s.update(7, true);
    assert!(s.is_sleeping(7));
    assert_eq!(s.sleeping_count(), 1);
    assert_eq!(s.awake_count(), 0);
    // a sleeping body ignores energetic frames until woken
    s.update(7, false);
    assert!(s.is_sleeping(7));
    s.wake(7);
    assert!(!s.is_sleeping(7));
    assert_eq!(s.awake_count(), 1);
}

#[test]
fn energetic_frame_resets_the_count() {
    let mut s = SleepTracker::new(2);
    s.update(1, true);
    s.update(1, false);
    s.update(1, true);
    assert!(!s.is_sleeping(1));
    s.update(1, true);
    assert!(s.is_sleeping(1));
    assert!(!s.is_sleeping(99));
    assert!(!s.is_tracked(99));
    s.wake(99);
    assert!(!s.is_tracked(99));
}

#[test]
fn cloth_grid_constraint_counts_and_order() {
    let (stretch, bend) = grid_constraints(3, 2);
    assert_eq!(stretch, vec![(0, 1), (1, 2), (3, 4), (4, 5), (0, 3), (1, 4), (2, 5)]);
    assert_eq!(bend, vec![(0, 2), (3, 5)]);
    let (s1, b1) = grid_constraints(1, 1);
    assert!(s1.is_empty() && b1.is_empty());
    let (s4, b4) = grid_constraints(4, 4);
    assert_eq!(s4.len(), 2 * 4 * 3);
    assert_eq!(b4.len(), 2 * 4 * 2);
}

#[test]
fn sleeping_ids_are_listed_once() {
    let mut s = SleepTracker::new(1);
    for id in [5u64, 6, 5, 7] {
        s.update(id, id != 6);
    }
    let mut ids = s.ids();
    ids.sort();
    assert_eq!(ids, vec![5, 6, 7]);
    assert_eq!(s.sleeping_count(), 2);
    assert_eq!(s.awake_count(), 1);
}
