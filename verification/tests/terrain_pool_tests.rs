use voxel_engine::terrain_compute::{
    region_plan_header, river_headers_for_upload, rivers_need_placeholder, RegionPlanError, RiverHeaderGpu, SlotPool,
    SlotState,
};

fn submit(pool: &mut SlotPool, pos: [i32; 3], frame: u64) -> Option<u64> {
    let idx = pool.plan_submit(pos, frame)?;
    let id = pool.take_request_id();
    pool.commit_submit(idx, pos, id);
    Some(id)
}

#[test]
fn new_pool_is_all_free() {
    let pool = SlotPool::new(4);
    assert_eq!(pool.pool_stats(), (4, 0, 0));
    assert_eq!(pool.pool_generation(), 0);
    assert_eq!(pool.next_request_id(), 1);
    assert!(pool.loaded_chunks().is_empty());
    assert_eq!(pool.slot(2).state, SlotState::Free);
    assert!(pool.slot(2).first_use);
}

#[test]
fn submit_uses_first_free_slot_and_refuses_duplicates() {
    let mut pool = SlotPool::new(3);
    assert_eq!(submit(&mut pool, [1, 2, 3], 10), Some(1));
    assert_eq!(pool.slot(0).state, SlotState::InFlight(1));
    assert!(!pool.slot(0).first_use);
    assert_eq!(pool.pool_stats(), (2, 1, 0));
    assert_eq!(pool.pool_generation(), 1);
    // same chunk again: already in the pool
    assert_eq!(pool.plan_submit([1, 2, 3], 10), None);
    assert_eq!(submit(&mut pool, [4, 5, 6], 10), Some(2));
    assert_eq!(pool.slot(1).state, SlotState::InFlight(2));
}

#[test]
fn completion_loads_the_slot() {
    let mut pool = SlotPool::new(2);
    submit(&mut pool, [0, 0, 1], 5);
    assert_eq!(pool.complete_slot(1, 7), None);
    assert_eq!(pool.complete_slot(0, 7), Some((1, [0, 0, 1])));
    assert_eq!(pool.slot(0).state, SlotState::Loaded([0, 0, 1]));
    assert_eq!(pool.slot(0).last_touched_frame, 7);
    assert_eq!(pool.pool_stats(), (1, 0, 1));
    assert_eq!(pool.pool_generation(), 2);
    assert_eq!(pool.loaded_chunks(), vec![(0, [0, 0, 1])]);
    assert_eq!(pool.find_loaded([0, 0, 1]), Some(0));
    assert_eq!(pool.find_loaded([9, 9, 9]), None);
    // completing again does nothing
    assert_eq!(pool.complete_slot(0, 8), None);
}

#[test]
fn full_pool_evicts_least_recently_used() {
    let mut pool = SlotPool::new(2);
    submit(&mut pool, [0, 0, 0], 1);
    submit(&mut pool, [1, 0, 0], 1);
    pool.complete_slot(0, 1);
    pool.complete_slot(1, 1);
    pool.mark_touched([0, 0, 0], 5);
    // slot 1 was touched at frame 1, slot 0 at frame 5
    assert_eq!(pool.plan_submit([2, 0, 0], 10), Some(1));
    assert_eq!(submit(&mut pool, [2, 0, 0], 10), Some(3));
    assert_eq!(pool.slot(1).state, SlotState::InFlight(3));
    assert_eq!(pool.pool_stats(), (0, 1, 1));
}

#[test]
fn eviction_refused_for_recently_touched_slots() {
    let mut pool = SlotPool::new(1);
    submit(&mut pool, [0, 0, 0], 1);
    // nothing loaded, all in flight
    assert_eq!(pool.plan_submit([1, 0, 0], 2), None);
    pool.complete_slot(0, 9);
    assert_eq!(pool.plan_submit([1, 0, 0], 10), None);
    assert_eq!(pool.plan_submit([1, 0, 0], 9), None);
    assert_eq!(pool.plan_submit([1, 0, 0], 11), Some(0));
    // u64::MAX means no frame check
    assert_eq!(pool.plan_submit([1, 0, 0], u64::MAX), Some(0));
    // a bulk touch protects every loaded slot
    pool.bulk_touch_all_loaded(20);
    assert_eq!(pool.plan_submit([1, 0, 0], 21), None);
    assert_eq!(pool.plan_submit([1, 0, 0], 22), Some(0));
    // the bulk stamp never moves backwards
    pool.bulk_touch_all_loaded(3);
    assert_eq!(pool.plan_submit([1, 0, 0], 21), None);
}

#[test]
fn mark_touched_slot_only_touches_loaded_slots() {
    let mut pool = SlotPool::new(2);
    submit(&mut pool, [0, 0, 0], 1);
    pool.mark_touched_slot(0, 50);
    assert_eq!(pool.slot(0).last_touched_frame, 0);
    pool.complete_slot(0, 2);
    pool.mark_touched_slot(0, 50);
    assert_eq!(pool.slot(0).last_touched_frame, 50);
    pool.mark_touched_slot(7, 60);
    assert_eq!(pool.slot(0).last_touched_frame, 50);
}

#[test]
fn reset_frees_everything() {
    let mut pool = SlotPool::new(3);
    submit(&mut pool, [0, 0, 0], 1);
    submit(&mut pool, [0, 1, 0], 1);
    pool.complete_slot(0, 1);
    let gen = pool.pool_generation();
    pool.reset_all();
    assert_eq!(pool.pool_stats(), (3, 0, 0));
    assert_eq!(pool.pool_generation(), gen + 1);
    assert!(pool.loaded_chunks().is_empty());
    // a reset slot is no longer a first use
    assert!(!pool.slot(0).first_use);
    assert!(pool.slot(2).first_use);
}

#[test]
fn region_plan_must_have_cols_times_rows_cells() {
    let h = region_plan_header(6, 3, 2, 64).unwrap();
    assert_eq!((h.cols, h.rows, h.cell_size, h._pad), (3, 2, 64, 0));
    assert_eq!(
        region_plan_header(5, 3, 2, 64).unwrap_err(),
        RegionPlanError::CellCountMismatch { cells: 5, expected: 6 }
    );
}

#[test]
fn empty_rivers_are_replaced_by_one_empty_header() {
    let hdr = RiverHeaderGpu { start_idx: 2, length: 5, _pad0: 0, _pad1: 0 };
    assert!(rivers_need_placeholder(0, 3));
    assert!(rivers_need_placeholder(4, 0));
    assert!(!rivers_need_placeholder(4, 3));
    let none = river_headers_for_upload(&[], 7);
    assert_eq!(none.len(), 1);
    assert_eq!((none[0].start_idx, none[0].length), (0, 0));
    let no_points = river_headers_for_upload(&[hdr], 0);
    assert_eq!((no_points[0].start_idx, no_points[0].length), (0, 0));
    let kept = river_headers_for_upload(&[hdr, hdr], 9);
    assert_eq!(kept.len(), 2);
    assert_eq!((kept[1].start_idx, kept[1].length), (2, 5));
}
