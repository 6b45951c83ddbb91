use citrine::class::{Entity, Position, PositionKind};
use citrine::track::TrackStorage;

#[test]
fn insert_flags_touched_and_inserted() {
    let mut s: TrackStorage<u32> = TrackStorage::new();
    let e = Entity::new(5);
    assert_eq!(s.insert(e, 10), None);
    assert!(s.was_flagged(e));
    assert!(s.was_inserted(e));
    assert!(!s.was_removed(e));
    assert_eq!(s.get(e), Some(&10));
    assert_eq!(s.insert(e, 11), Some(10));
    assert_eq!(s.get(e), Some(&11));
}

#[test]
fn remove_flags_touched_and_removed() {
    let mut s: TrackStorage<u32> = TrackStorage::new();
    let e = Entity::new(3);
    s.insert(e, 7);
    s.clear_flags();
    assert_eq!(s.remove(e), Some(7));
    assert!(s.was_flagged(e));
    assert!(s.was_removed(e));
    assert!(!s.was_inserted(e));
    assert_eq!(s.get(e), None);
    s.clear_flags();
    assert_eq!(s.remove(e), None);
    assert!(!s.was_flagged(e));
    assert!(!s.was_removed(e));
}

#[test]
fn get_mut_marks_touched() {
    let mut s: TrackStorage<Position> = TrackStorage::new();
    let e = Entity::new(2);
    s.insert(e, Position::default());
    s.clear_flags();
    assert!(!s.was_flagged(e));
    if let Some(p) = s.get_mut(e) {
        p.kind = PositionKind::Free;
    }
    assert!(s.was_flagged(e));
    assert_eq!(s.get(e).unwrap().kind, PositionKind::Free);
    assert!(s.get_mut(Entity::new(9)).is_none());
    assert!(!s.was_flagged(Entity::new(9)));
}

#[test]
fn clear_flags_empties_every_set() {
    let mut s: TrackStorage<u32> = TrackStorage::new();
    for i in 0..20u32 {
        s.insert(Entity::new(i), i);
    }
    s.remove(Entity::new(4));
    s.clear_flags();
    for i in 0..20u32 {
        let e = Entity::new(i);
        assert!(!s.was_flagged(e));
        assert!(!s.was_inserted(e));
        assert!(!s.was_removed(e));
    }
    assert_eq!(s.get(Entity::new(7)), Some(&7));
    assert_eq!(s.get(Entity::new(4)), None);
}

#[test]
fn flag_and_unflag_by_hand() {
    let mut s: TrackStorage<u32> = TrackStorage::new();
    let e = Entity::new(1);
    s.flag(e);
    s.flag_inserted(e);
    s.flag_removed(e);
    assert!(s.was_flagged(e) && s.was_inserted(e) && s.was_removed(e));
    s.unflag(e);
    assert!(!s.was_flagged(e));
    s.unflag_inserted(e);
    assert!(!s.was_inserted(e));
    s.unflag_removed(e);
    assert!(!s.was_removed(e));
}

#[test]
fn ids_lists_holders_in_order() {
    let mut s: TrackStorage<u32> = TrackStorage::new();
    s.insert(Entity::new(8), 1);
    s.insert(Entity::new(2), 1);
    s.insert(Entity::new(5), 1);
    s.remove(Entity::new(5));
    assert_eq!(s.ids(), vec![2, 8]);
    s.clean();
    assert!(s.ids().is_empty());
    assert!(!s.was_flagged(Entity::new(8)));
}
