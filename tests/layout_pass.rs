use std::collections::HashMap;

use cassowary::strength::{MEDIUM, REQUIRED, STRONG, WEAK};
use cassowary::{Expression, RelationalOperator, Solver};
use citrine::class::{Bounds, Coordinate, Entity, Parent, Position, PositionKind, Viewport};
use citrine::constraint::{Relation, Strength, Term, Variable};
use citrine::solver::{Attr, Command, Key, KeyId, LayoutError, SolverSystem};
use citrine::track::TrackStorage;
use hibitset::BitSet;

/// Runs the issued operations on a cassowary solver, the way a host does.
struct Host {
    solver: Solver,
    vars: HashMap<usize, cassowary::Variable>,
    back: HashMap<cassowary::Variable, usize>,
}

impl Host {
    fn new() -> Host {
        Host { solver: Solver::new(), vars: HashMap::new(), back: HashMap::new() }
    }

    fn var(&mut self, v: Variable) -> cassowary::Variable {
        if let Some(x) = self.vars.get(&v.0) {
            return *x;
        }
        let x = cassowary::Variable::new();
        self.vars.insert(v.0, x);
        self.back.insert(x, v.0);
        x
    }

    fn strength(s: Strength) -> f64 {
        match s {
            Strength::Weak => WEAK,
            Strength::Medium => MEDIUM,
            Strength::Strong => STRONG,
            Strength::NearlyRequired => REQUIRED - 1.0,
            Strength::Required => REQUIRED,
        }
    }

    fn constraint(&mut self, c: &citrine::constraint::Constraint) -> cassowary::Constraint {
        let terms = c
            .terms
            .iter()
            .map(|t: &Term| cassowary::Term { variable: self.var(t.var), coefficient: t.coeff as f64 })
            .collect();
        let op = match c.relation {
            Relation::Le => RelationalOperator::LessOrEqual,
            Relation::Eq => RelationalOperator::Equal,
            Relation::Ge => RelationalOperator::GreaterOrEqual,
        };
        cassowary::Constraint::new(Expression::new(terms, c.constant as f64), op, Host::strength(c.strength))
    }

    fn apply(&mut self, commands: Vec<Command>) {
        let mut held: Vec<(citrine::constraint::Constraint, cassowary::Constraint)> = Vec::new();
        for c in commands {
            match c {
                Command::AddEditVariable(v, s) => {
                    let x = self.var(v);
                    self.solver.add_edit_variable(x, Host::strength(s)).unwrap();
                }
                Command::SuggestValue(v, value) => {
                    let x = self.var(v);
                    self.solver.suggest_value(x, value as f64).unwrap();
                }
                Command::AddConstraint(c) => {
                    let k = self.constraint(&c);
                    self.solver.add_constraint(k.clone()).unwrap();
                    held.push((c, k));
                }
                Command::RemoveConstraint(c) => {
                    let i = held.iter().position(|(h, _)| *h == c).unwrap();
                    let (_, k) = held.remove(i);
                    self.solver.remove_constraint(&k).unwrap();
                }
            }
        }
    }

    fn value(&self, v: Variable) -> f64 {
        self.solver.get_value(self.vars[&v.0])
    }

    fn changes(&mut self) -> Vec<(Variable, i64)> {
        let back = self.back.clone();
        self.solver
            .fetch_changes()
            .iter()
            .map(|(x, value)| (Variable(back[x]), value.round() as i64))
            .collect()
    }
}

fn key(e: Entity, a: Attr) -> Key {
    Key(KeyId::Entity(e), a)
}

fn alive(ids: &[u32]) -> BitSet {
    let mut b = BitSet::new();
    for id in ids {
        b.add(*id);
    }
    b
}

fn close(a: f64, b: f64) -> bool {
    (a - b).abs() < 1e-3
}

fn width_of(sys: &mut SolverSystem, host: &Host, e: Entity) -> f64 {
    let r = sys.fill_variable(&key(e, Attr::RightBound), None);
    let l = sys.fill_variable(&key(e, Attr::LeftBound), None);
    host.value(r) - host.value(l)
}

fn height_of(sys: &mut SolverSystem, host: &Host, e: Entity) -> f64 {
    let r = sys.fill_variable(&key(e, Attr::LowerBound), None);
    let l = sys.fill_variable(&key(e, Attr::UpperBound), None);
    host.value(r) - host.value(l)
}

struct World {
    parents: TrackStorage<Parent>,
    positions: TrackStorage<Position>,
    bounds: TrackStorage<Bounds>,
}

impl World {
    fn new() -> World {
        World { parents: TrackStorage::new(), positions: TrackStorage::new(), bounds: TrackStorage::new() }
    }

    fn clear(&mut self) {
        self.parents.clear_flags();
        self.positions.clear_flags();
        self.bounds.clear_flags();
    }
}

fn scenario_world(child_kind: PositionKind) -> (World, Entity, Entity) {
    let a = Entity::new(0);
    let b = Entity::new(1);
    let mut w = World::new();
    w.positions.insert(a, Position::default());
    w.bounds.insert(a, Bounds { width: Some(Coordinate::Percent(1_000_000)), height: Some(Coordinate::Percent(10_000)) });
    w.positions.insert(b, Position { kind: child_kind, ..Position::default() });
    w.parents.insert(b, Parent { entity: a });
    w.bounds.insert(b, Bounds { width: Some(Coordinate::Percent(700_000)), height: Some(Coordinate::Pixel(100_000)) });
    (w, a, b)
}

#[test]
fn scenario_root_and_child_resolve() {
    let (w, a, b) = scenario_world(PositionKind::Free);
    let mut sys = SolverSystem::new();
    let mut host = Host::new();
    let v = Viewport { width: 1920, height: 1080 };
    assert_eq!(sys.run(&alive(&[0, 1]), Some(v), &w.parents, &w.positions, &w.bounds), Ok(()));
    host.apply(sys.take_commands());
    assert!(close(width_of(&mut sys, &host, a), 1_920_000.0));
    assert!(close(height_of(&mut sys, &host, a), 10_800.0));
    assert!(close(width_of(&mut sys, &host, b), 1_344_000.0));
    assert!(close(height_of(&mut sys, &host, b), 100_000.0));
}

#[test]
fn scenario_contained_child_is_held_to_parent_height() {
    let (w, a, b) = scenario_world(PositionKind::Relative);
    let mut sys = SolverSystem::new();
    let mut host = Host::new();
    let v = Viewport { width: 1920, height: 1080 };
    assert_eq!(sys.run(&alive(&[0, 1]), Some(v), &w.parents, &w.positions, &w.bounds), Ok(()));
    host.apply(sys.take_commands());
    assert!(close(width_of(&mut sys, &host, a), 1_920_000.0));
    assert!(close(height_of(&mut sys, &host, a), 10_800.0));
    assert!(close(width_of(&mut sys, &host, b), 1_344_000.0));
    assert!(close(height_of(&mut sys, &host, b), 10_800.0));
}

#[test]
fn percent_of_parent_width() {
    let p = Entity::new(0);
    let c = Entity::new(1);
    let mut w = World::new();
    w.positions.insert(p, Position::default());
    w.bounds.insert(p, Bounds { width: Some(Coordinate::Pixel(200_000)), height: None });
    w.positions.insert(c, Position::default());
    w.parents.insert(c, Parent { entity: p });
    w.bounds.insert(c, Bounds { width: Some(Coordinate::Percent(500_000)), height: None });
    let mut sys = SolverSystem::new();
    let mut host = Host::new();
    let v = Viewport { width: 1920, height: 1080 };
    sys.run(&alive(&[0, 1]), Some(v), &w.parents, &w.positions, &w.bounds).unwrap();
    host.apply(sys.take_commands());
    assert!(close(width_of(&mut sys, &host, p), 200_000.0));
    assert!(close(width_of(&mut sys, &host, c), 100_000.0));
}

#[test]
fn percent_of_viewport_width() {
    let e = Entity::new(3);
    let mut w = World::new();
    w.positions.insert(e, Position::default());
    w.bounds.insert(e, Bounds { width: Some(Coordinate::Percent(500_000)), height: None });
    let mut sys = SolverSystem::new();
    let mut host = Host::new();
    let v = Viewport { width: 1920, height: 1080 };
    sys.run(&alive(&[3]), Some(v), &w.parents, &w.positions, &w.bounds).unwrap();
    host.apply(sys.take_commands());
    assert!(close(width_of(&mut sys, &host, e), 960_000.0));
    assert!(close(height_of(&mut sys, &host, e), 100_000.0));
}

#[test]
fn child_stays_inside_parent() {
    let p = Entity::new(0);
    let c = Entity::new(1);
    let mut w = World::new();
    w.positions.insert(p, Position::default());
    w.bounds.insert(p, Bounds { width: Some(Coordinate::Pixel(50_000)), height: Some(Coordinate::Pixel(40_000)) });
    w.positions.insert(c, Position { kind: PositionKind::Absolute, ..Position::default() });
    w.parents.insert(c, Parent { entity: p });
    w.bounds.insert(c, Bounds { width: Some(Coordinate::Pixel(300_000)), height: Some(Coordinate::Pixel(300_000)) });
    let mut sys = SolverSystem::new();
    let mut host = Host::new();
    sys.run(&alive(&[0, 1]), Some(Viewport { width: 800, height: 600 }), &w.parents, &w.positions, &w.bounds).unwrap();
    host.apply(sys.take_commands());
    for (attr, below) in [
        (Attr::LeftBound, false),
        (Attr::RightBound, true),
        (Attr::UpperBound, false),
        (Attr::LowerBound, true),
    ] {
        let cv = sys.fill_variable(&key(c, attr), None);
        let pv = sys.fill_variable(&key(p, attr), None);
        if below {
            assert!(host.value(cv) <= host.value(pv) + 1e-6);
        } else {
            assert!(host.value(cv) >= host.value(pv) - 1e-6);
        }
    }
}

#[test]
fn root_stays_inside_viewport() {
    let e = Entity::new(4);
    let mut w = World::new();
    w.positions.insert(e, Position::default());
    w.bounds.insert(e, Bounds { width: Some(Coordinate::Pixel(5_000_000)), height: Some(Coordinate::Pixel(5_000_000)) });
    let mut sys = SolverSystem::new();
    let mut host = Host::new();
    sys.run(&alive(&[4]), Some(Viewport { width: 640, height: 480 }), &w.parents, &w.positions, &w.bounds).unwrap();
    host.apply(sys.take_commands());
    let l = sys.fill_variable(&key(e, Attr::LeftBound), None);
    let r = sys.fill_variable(&key(e, Attr::RightBound), None);
    let u = sys.fill_variable(&key(e, Attr::UpperBound), None);
    let d = sys.fill_variable(&key(e, Attr::LowerBound), None);
    assert!(host.value(l) >= -1e-6);
    assert!(host.value(r) <= 640_000.0 + 1e-6);
    assert!(host.value(u) >= -1e-6);
    assert!(host.value(d) <= 480_000.0 + 1e-6);
}

#[test]
fn second_tick_without_changes_is_empty() {
    let a = Entity::new(0);
    let mut w = World::new();
    w.positions.insert(a, Position::default());
    w.bounds.insert(a, Bounds { width: Some(Coordinate::Percent(250_000)), height: None });
    let mut sys = SolverSystem::new();
    let mut host = Host::new();
    let v = Viewport { width: 1000, height: 1000 };
    let live = alive(&[0]);
    sys.run(&live, Some(v), &w.parents, &w.positions, &w.bounds).unwrap();
    host.apply(sys.take_commands());
    let first = host.changes();
    let published = sys.publish(&first);
    assert!(!published.changes().is_empty());
    host.changes();
    w.clear();
    sys.run(&live, Some(v), &w.parents, &w.positions, &w.bounds).unwrap();
    let commands = sys.take_commands();
    assert!(commands.is_empty());
    host.apply(commands);
    let second = host.changes();
    assert!(sys.publish(&second).changes().is_empty());
}

#[test]
fn reparented_child_bounded_by_new_parent() {
    let p1 = Entity::new(0);
    let p2 = Entity::new(1);
    let c = Entity::new(2);
    let mut w = World::new();
    for e in [p1, p2, c] {
        w.positions.insert(e, Position::default());
    }
    w.parents.insert(c, Parent { entity: p1 });
    let mut sys = SolverSystem::new();
    let live = alive(&[0, 1, 2]);
    let v = Some(Viewport { width: 100, height: 100 });
    sys.run(&live, v, &w.parents, &w.positions, &w.bounds).unwrap();
    sys.take_commands();
    w.clear();
    w.parents.insert(c, Parent { entity: p2 });
    sys.run(&live, v, &w.parents, &w.positions, &w.bounds).unwrap();
    let commands = sys.take_commands();
    let cl = sys.fill_variable(&key(c, Attr::LeftBound), None);
    let p1l = sys.fill_variable(&key(p1, Attr::LeftBound), None);
    let p2l = sys.fill_variable(&key(p2, Attr::LeftBound), None);
    let removed = commands.iter().filter(|c| matches!(c, Command::RemoveConstraint(_))).count();
    assert_eq!(removed, 4);
    let added_left = commands.iter().any(|k| match k {
        Command::AddConstraint(x) => {
            x.terms == vec![Term { var: cl, coeff: 1 }, Term { var: p2l, coeff: -1 }]
                && x.relation == Relation::Ge
                && x.strength == Strength::Required
        }
        _ => false,
    });
    assert!(added_left);
    let mentions_old = commands.iter().any(|k| match k {
        Command::AddConstraint(x) => x.terms.iter().any(|t| t.var == p1l),
        _ => false,
    });
    assert!(!mentions_old);
}

#[test]
fn percent_without_parent_or_viewport_is_refused() {
    let e = Entity::new(6);
    let mut w = World::new();
    w.positions.insert(e, Position::default());
    w.bounds.insert(e, Bounds { width: None, height: Some(Coordinate::Percent(500_000)) });
    let mut sys = SolverSystem::new();
    sys.take_commands();
    let r = sys.run(&alive(&[6]), None, &w.parents, &w.positions, &w.bounds);
    assert_eq!(r, Err(LayoutError::MissingViewport(e)));
    assert!(sys.take_commands().is_empty());
}

#[test]
fn pixel_bounds_need_no_viewport() {
    let e = Entity::new(6);
    let mut w = World::new();
    w.positions.insert(e, Position::default());
    w.bounds.insert(e, Bounds { width: Some(Coordinate::Pixel(5)), height: None });
    let mut sys = SolverSystem::new();
    sys.take_commands();
    assert_eq!(sys.run(&alive(&[6]), None, &w.parents, &w.positions, &w.bounds), Ok(()));
    let commands = sys.take_commands();
    let width = sys.fill_variable(&key(e, Attr::Width), None);
    assert!(commands.contains(&Command::SuggestValue(width, 5)));
    let height = sys.fill_variable(&key(e, Attr::Height), None);
    assert!(commands.contains(&Command::SuggestValue(height, 100_000)));
}

#[test]
fn dead_parent_counts_as_none() {
    let p = Entity::new(0);
    let c = Entity::new(1);
    let mut w = World::new();
    w.positions.insert(c, Position::default());
    w.parents.insert(c, Parent { entity: p });
    let mut sys = SolverSystem::new();
    sys.run(&alive(&[1]), Some(Viewport { width: 10, height: 10 }), &w.parents, &w.positions, &w.bounds).unwrap();
    let commands = sys.take_commands();
    let cl = sys.fill_variable(&key(c, Attr::LeftBound), None);
    assert!(commands.iter().any(|k| match k {
        Command::AddConstraint(x) => x.terms == vec![Term { var: cl, coeff: 1 }] && x.relation == Relation::Ge,
        _ => false,
    }));
}

#[test]
fn free_elements_get_no_containment() {
    let e = Entity::new(2);
    let mut w = World::new();
    w.positions.insert(e, Position { kind: PositionKind::Free, ..Position::default() });
    let mut sys = SolverSystem::new();
    sys.take_commands();
    sys.run(&alive(&[2]), Some(Viewport { width: 300, height: 300 }), &w.parents, &w.positions, &w.bounds).unwrap();
    assert!(sys.take_commands().is_empty());
    assert!(!sys.has_constraint(&key(e, Attr::LeftBound)));
}

#[test]
fn viewport_change_is_suggested() {
    let mut sys = SolverSystem::new();
    sys.take_commands();
    let w = World::new();
    sys.run(&alive(&[]), Some(Viewport { width: 1920, height: 1080 }), &w.parents, &w.positions, &w.bounds).unwrap();
    let commands = sys.take_commands();
    let vw = sys.fill_variable(&Key(KeyId::Context, Attr::ViewportWidth), None);
    let vh = sys.fill_variable(&Key(KeyId::Context, Attr::ViewportHeight), None);
    assert_eq!(commands, vec![Command::SuggestValue(vw, 1_920_000), Command::SuggestValue(vh, 1_080_000)]);
    assert_eq!(sys.viewport_dimensions(), (1920, 1080));
}

#[test]
fn free_element_with_parent_gets_no_containment() {
    let p = Entity::new(0);
    let e = Entity::new(1);
    let mut w = World::new();
    w.positions.insert(p, Position::default());
    w.positions.insert(e, Position { kind: PositionKind::Free, ..Position::default() });
    w.parents.insert(e, Parent { entity: p });
    let mut sys = SolverSystem::new();
    sys.run(&alive(&[0, 1]), Some(Viewport { width: 100, height: 100 }), &w.parents, &w.positions, &w.bounds).unwrap();
    for a in [Attr::LeftBound, Attr::RightBound, Attr::UpperBound, Attr::LowerBound] {
        assert!(!sys.has_constraint(&key(e, a)));
    }
    assert!(!sys.has_constraint(&key(e, Attr::LeftAlign)));
}
