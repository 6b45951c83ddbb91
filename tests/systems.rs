use citrine::class::{
    AbsolutePosition, Bounds, Children, Coordinate, Entity, Parent, Position, PositionKind, Positional, Viewport,
};
use citrine::constraint::Variable;
use citrine::solver::{Attr, Key, KeyId, SolverSystem};
use citrine::systems::changed::{ChangedSystem, Changes};
use citrine::systems::children::ChildrenSystem;
use citrine::systems::position::{relative_parent, PositionSystem};
use citrine::track::TrackStorage;
use hibitset::BitSet;

fn alive(ids: &[u32]) -> BitSet {
    let mut b = BitSet::new();
    for id in ids {
        b.add(*id);
    }
    b
}

fn list(children: &TrackStorage<Children>, p: u32) -> Vec<u32> {
    match children.get(Entity::new(p)) {
        Some(c) => c.entities().iter().map(|e| e.id()).collect(),
        None => Vec::new(),
    }
}

#[test]
fn children_follow_parents() {
    let mut parents: TrackStorage<Parent> = TrackStorage::new();
    let mut children: TrackStorage<Children> = TrackStorage::new();
    parents.insert(Entity::new(1), Parent { entity: Entity::new(0) });
    parents.insert(Entity::new(2), Parent { entity: Entity::new(0) });
    ChildrenSystem.run(&parents, &mut children);
    assert_eq!(list(&children, 0), vec![1, 2]);
    assert!(!children.contains(Entity::new(1)));
}

#[test]
fn reparenting_moves_child_between_lists() {
    let mut parents: TrackStorage<Parent> = TrackStorage::new();
    let mut children: TrackStorage<Children> = TrackStorage::new();
    let e = Entity::new(5);
    parents.insert(e, Parent { entity: Entity::new(1) });
    ChildrenSystem.run(&parents, &mut children);
    assert_eq!(list(&children, 1), vec![5]);
    parents.clear_flags();
    children.clear_flags();
    parents.insert(e, Parent { entity: Entity::new(2) });
    ChildrenSystem.run(&parents, &mut children);
    assert_eq!(list(&children, 1), Vec::<u32>::new());
    assert_eq!(list(&children, 2), vec![5]);
}

#[test]
fn detached_child_is_dropped() {
    let mut parents: TrackStorage<Parent> = TrackStorage::new();
    let mut children: TrackStorage<Children> = TrackStorage::new();
    parents.insert(Entity::new(3), Parent { entity: Entity::new(0) });
    parents.insert(Entity::new(4), Parent { entity: Entity::new(0) });
    ChildrenSystem.run(&parents, &mut children);
    parents.clear_flags();
    children.clear_flags();
    parents.remove(Entity::new(3));
    ChildrenSystem.run(&parents, &mut children);
    assert_eq!(list(&children, 0), vec![4]);
}

#[test]
fn touching_a_parent_twice_lists_child_once() {
    let mut parents: TrackStorage<Parent> = TrackStorage::new();
    let mut children: TrackStorage<Children> = TrackStorage::new();
    parents.insert(Entity::new(7), Parent { entity: Entity::new(0) });
    ChildrenSystem.run(&parents, &mut children);
    parents.clear_flags();
    parents.get_mut(Entity::new(7));
    ChildrenSystem.run(&parents, &mut children);
    assert_eq!(list(&children, 0), vec![7]);
}

#[test]
fn idle_children_pass_changes_nothing() {
    let mut parents: TrackStorage<Parent> = TrackStorage::new();
    let mut children: TrackStorage<Children> = TrackStorage::new();
    parents.insert(Entity::new(7), Parent { entity: Entity::new(0) });
    ChildrenSystem.run(&parents, &mut children);
    parents.clear_flags();
    children.clear_flags();
    ChildrenSystem.run(&parents, &mut children);
    assert!(!children.was_flagged(Entity::new(0)));
    assert_eq!(list(&children, 0), vec![7]);
}

#[test]
fn publish_names_values_by_key() {
    let mut sys = SolverSystem::new();
    let e = Entity::new(3);
    let left = sys.fill_variable(&Key(KeyId::Entity(e), Attr::LeftBound), None);
    let right = sys.fill_variable(&Key(KeyId::Entity(e), Attr::RightBound), None);
    let raw = vec![(right, 40), (Variable(999), 1), (left, 10)];
    let changes = sys.publish(&raw);
    assert_eq!(
        changes.changes(),
        &vec![(Key(KeyId::Entity(e), Attr::RightBound), right, 40), (Key(KeyId::Entity(e), Attr::LeftBound), left, 10)]
    );
}

#[test]
fn changed_system_writes_edges() {
    let e = Entity::new(2);
    let other = Entity::new(4);
    let mut positions: TrackStorage<Positional> = TrackStorage::new();
    positions.insert(e, Positional::default());
    positions.clear_flags();
    let mut changes = Changes::new();
    changes.set_changes(vec![
        (Key(KeyId::Entity(e), Attr::LeftBound), Variable(0), 10),
        (Key(KeyId::Entity(e), Attr::RightBound), Variable(1), 30),
        (Key(KeyId::Entity(e), Attr::UpperBound), Variable(2), 5),
        (Key(KeyId::Entity(e), Attr::LowerBound), Variable(3), 25),
        (Key(KeyId::Entity(e), Attr::Width), Variable(4), 99),
        (Key(KeyId::Entity(other), Attr::LeftBound), Variable(5), 77),
        (Key(KeyId::Context, Attr::ViewportWidth), Variable(6), 1),
        (Key(KeyId::Entity(e), Attr::LeftBound), Variable(0), 12),
    ]);
    ChangedSystem.run(&changes, &mut positions);
    assert_eq!(positions.get(e), Some(&Positional { left: 12, right: 30, top: 5, bottom: 25 }));
    assert!(positions.get(other).is_none());
    assert!(positions.was_flagged(e));
}

#[test]
fn relative_parent_values() {
    assert_eq!(relative_parent(1920, Coordinate::Percent(500_000)), 960_000);
    assert_eq!(relative_parent(1080, Coordinate::Percent(10_000)), 10_800);
    assert_eq!(relative_parent(1920, Coordinate::Percent(700_000)), 1_344_000);
    assert_eq!(relative_parent(3, Coordinate::Percent(1)), 0);
    assert_eq!(relative_parent(3, Coordinate::Percent(-1_000)), -3);
    assert_eq!(relative_parent(7, Coordinate::Percent(-1)), 0);
    assert_eq!(relative_parent(500, Coordinate::Pixel(-42)), -42);
    assert_eq!(relative_parent(u32::MAX, Coordinate::Percent(i32::MAX)), 9_223_372_030_412_324);
}

#[test]
fn position_system_resolves_touched() {
    let live = alive(&[0, 1, 2]);
    let viewport = Viewport { width: 1920, height: 1080 };
    let mut positions: TrackStorage<Position> = TrackStorage::new();
    let mut bounds: TrackStorage<Bounds> = TrackStorage::new();
    let mut absolutes: TrackStorage<AbsolutePosition> = TrackStorage::new();
    let a = Entity::new(0);
    positions.insert(a, Position {
        kind: PositionKind::Absolute,
        x: Some(Coordinate::Pixel(50_000)),
        y: Some(Coordinate::Percent(500_000)),
        z: None,
    });
    bounds.insert(a, Bounds { width: Some(Coordinate::Percent(1_000_000)), height: Some(Coordinate::Percent(10_000)) });
    absolutes.insert(a, AbsolutePosition { z: 3, ..AbsolutePosition::default() });
    let b = Entity::new(1);
    positions.insert(b, Position::default());
    absolutes.insert(b, AbsolutePosition::default());
    let c = Entity::new(2);
    bounds.insert(c, Bounds::default());
    PositionSystem.run(&live, &viewport, &mut positions, &mut bounds, &mut absolutes);
    assert_eq!(
        absolutes.get(a),
        Some(&AbsolutePosition { x: 50_000, y: 540_000, width: 1_920_000, height: 10_800, z: 3 })
    );
    assert_eq!(
        absolutes.get(b),
        Some(&AbsolutePosition { x: 0, y: 0, width: 100_000, height: 100_000, z: 0 })
    );
    assert!(absolutes.get(c).is_none());
    assert!(!positions.was_flagged(a));
    assert!(!bounds.was_flagged(a));
    assert!(absolutes.was_flagged(a));
    PositionSystem.run(&live, &viewport, &mut positions, &mut bounds, &mut absolutes);
    assert!(!absolutes.was_flagged(a));
}

#[test]
fn position_system_skips_dead_entities() {
    let live = alive(&[]);
    let viewport = Viewport { width: 100, height: 100 };
    let mut positions: TrackStorage<Position> = TrackStorage::new();
    let mut bounds: TrackStorage<Bounds> = TrackStorage::new();
    let mut absolutes: TrackStorage<AbsolutePosition> = TrackStorage::new();
    let a = Entity::new(0);
    positions.insert(a, Position::default());
    absolutes.insert(a, AbsolutePosition { x: 9, ..AbsolutePosition::default() });
    PositionSystem.run(&live, &viewport, &mut positions, &mut bounds, &mut absolutes);
    assert_eq!(absolutes.get(a).unwrap().x, 9);
}

#[test]
fn defaults() {
    assert_eq!(PositionKind::default(), PositionKind::Relative);
    let p = Position::default();
    assert_eq!(p.kind, PositionKind::Relative);
    assert!(p.x.is_none() && p.y.is_none() && p.z.is_none());
    let b = Bounds::default();
    assert!(b.width.is_none() && b.height.is_none());
    assert!(Children::default().entities().is_empty());
    assert!(PositionKind::Absolute.contained());
    assert!(PositionKind::Relative.contained());
    assert!(!PositionKind::Free.contained());
}

#[test]
fn kept_children_keep_order_and_new_ones_follow() {
    let mut parents: TrackStorage<Parent> = TrackStorage::new();
    let mut children: TrackStorage<Children> = TrackStorage::new();
    for id in [9u32, 3, 6] {
        parents.insert(Entity::new(id), Parent { entity: Entity::new(0) });
    }
    ChildrenSystem.run(&parents, &mut children);
    let first = list(&children, 0);
    assert_eq!(first.len(), 3);
    parents.clear_flags();
    children.clear_flags();
    parents.remove(Entity::new(first[1]));
    parents.insert(Entity::new(1), Parent { entity: Entity::new(0) });
    ChildrenSystem.run(&parents, &mut children);
    assert_eq!(list(&children, 0), vec![first[0], first[2], 1]);
}

#[test]
fn edges_give_absolute_box() {
    let p = Positional { left: 10, right: 40, top: 5, bottom: 25 };
    assert_eq!(p.absolute(2), Some(AbsolutePosition { x: 10, y: 5, width: 30, height: 20, z: 2 }));
    let wide = Positional { left: i64::MIN, right: i64::MAX, top: 0, bottom: 0 };
    assert_eq!(wide.absolute(0), None);
}
