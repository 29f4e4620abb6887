use voxel_engine::scene::entities::EntitySlots;

#[test]
fn spawned_handles_are_alive() {
    let mut e = EntitySlots::new();
    let a = e.spawn();
    let b = e.spawn();
    assert_eq!((a.slot_index(), a.generation()), (0, 0));
    assert_eq!((b.slot_index(), b.generation()), (1, 0));
    assert!(e.is_alive(a) && e.is_alive(b));
    assert_eq!(e.entity_count(), 2);
}

#[test]
fn despawned_handle_stays_dead_after_slot_reuse() {
    let mut e = EntitySlots::new();
    let a = e.spawn();
    e.despawn(a);
    assert!(!e.is_alive(a));
    assert_eq!(e.entity_count(), 0);
    let c = e.spawn();
    assert_eq!(c.slot_index(), a.slot_index());
    assert_eq!(c.generation(), 1);
    assert!(e.is_alive(c));
    assert!(!e.is_alive(a));
    assert_eq!(e.live_slot(c), Some(0));
    assert_eq!(e.live_slot(a), None);
}

#[test]
fn despawning_twice_or_with_a_stale_handle_is_ignored() {
    let mut e = EntitySlots::new();
    let a = e.spawn();
    let b = e.spawn();
    e.despawn(a);
    e.despawn(a);
    assert_eq!(e.entity_count(), 1);
    let c = e.spawn();
    e.despawn(a);
    assert!(e.is_alive(c));
    assert!(e.is_alive(b));
    // the most recently freed slot is reused first
    e.despawn(b);
    e.despawn(c);
    let d = e.spawn();
    assert_eq!(d.slot_index(), c.slot_index());
    assert_eq!(d.generation(), 2);
}

#[test]
fn freed_slot_is_handed_out_once() {
    let mut e = EntitySlots::new();
    let keep = e.spawn();
    let a = e.spawn();
    e.despawn(a);
    e.despawn(a);
    let n = e.entity_count();
    let b = e.spawn();
    let c = e.spawn();
    assert_ne!(b.slot_index(), c.slot_index());
    assert_eq!(b.slot_index(), a.slot_index());
    assert!(e.is_alive(b) && e.is_alive(c) && e.is_alive(keep));
    assert_eq!(e.entity_count(), n + 2);
}
