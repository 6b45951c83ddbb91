use citrine::class::Entity;
use citrine::constraint::{make_compare, make_compare_zero, Relation, Strength};
use citrine::solver::{Attr, Command, Key, KeyId, SolverSystem};

#[test]
fn new_registry_suggests_default_viewport() {
    let mut sys = SolverSystem::new();
    let commands = sys.take_commands();
    let vw = sys.fill_variable(&Key(KeyId::Context, Attr::ViewportWidth), None);
    let vh = sys.fill_variable(&Key(KeyId::Context, Attr::ViewportHeight), None);
    assert_eq!(
        commands,
        vec![
            Command::AddEditVariable(vw, Strength::NearlyRequired),
            Command::AddEditVariable(vh, Strength::NearlyRequired),
            Command::SuggestValue(vw, 300_000),
            Command::SuggestValue(vh, 300_000),
        ]
    );
}

#[test]
fn fill_variable_is_stable() {
    let mut sys = SolverSystem::new();
    sys.take_commands();
    let k = Key(KeyId::Entity(Entity::new(1)), Attr::Width);
    assert!(!sys.has_variable(&k));
    let v = sys.fill_variable(&k, Some(Strength::Medium));
    assert_eq!(sys.take_commands(), vec![Command::AddEditVariable(v, Strength::Medium)]);
    assert_eq!(sys.fill_variable(&k, Some(Strength::Strong)), v);
    assert!(sys.take_commands().is_empty());
    assert!(sys.has_variable(&k));
    assert_eq!(sys.key_of(v), Some(k));
    let other = sys.fill_variable(&Key(KeyId::Entity(Entity::new(2)), Attr::Width), None);
    assert_ne!(other, v);
    assert!(sys.take_commands().is_empty());
}

#[test]
fn replace_constraint_retracts_a_different_one() {
    let mut sys = SolverSystem::new();
    sys.take_commands();
    let k = Key(KeyId::Entity(Entity::new(1)), Attr::LeftBound);
    let a = sys.fill_variable(&k, None);
    let b = sys.fill_variable(&Key(KeyId::Entity(Entity::new(2)), Attr::LeftBound), None);
    let first = make_compare(a, Relation::Ge, b, Strength::Required);
    sys.replace_constraint(&k, first.clone());
    assert_eq!(sys.take_commands(), vec![Command::AddConstraint(first.clone())]);
    sys.replace_constraint(&k, first.clone());
    assert!(sys.take_commands().is_empty());
    let second = make_compare_zero(a, Relation::Ge, Strength::Required);
    sys.replace_constraint(&k, second.clone());
    assert_eq!(sys.take_commands(), vec![Command::RemoveConstraint(first), Command::AddConstraint(second)]);
    assert!(sys.has_constraint(&k));
}

#[test]
fn new_registry_holds_only_viewport_variables() {
    let mut sys = SolverSystem::new();
    assert!(sys.has_variable(&Key(KeyId::Context, Attr::ViewportWidth)));
    assert!(sys.has_variable(&Key(KeyId::Context, Attr::ViewportHeight)));
    assert!(!sys.has_variable(&Key(KeyId::Entity(Entity::new(0)), Attr::LeftBound)));
    assert_eq!(sys.key_of(citrine::constraint::Variable(2)), None);
    sys.take_commands();
    sys.suggest_viewport(10, 20);
    let vw = sys.fill_variable(&Key(KeyId::Context, Attr::ViewportWidth), None);
    let vh = sys.fill_variable(&Key(KeyId::Context, Attr::ViewportHeight), None);
    assert_eq!(sys.take_commands(), vec![Command::SuggestValue(vw, 10_000), Command::SuggestValue(vh, 20_000)]);
    assert_eq!(sys.key_of(citrine::constraint::Variable(2)), None);
}

#[test]
fn constraint_key_finds_holder() {
    let mut sys = SolverSystem::new();
    let k = Key(KeyId::Entity(Entity::new(4)), Attr::LeftAlign);
    let v = sys.fill_variable(&Key(KeyId::Entity(Entity::new(4)), Attr::LeftBound), None);
    let c = make_compare_zero(v, Relation::Eq, Strength::Weak);
    assert_eq!(sys.constraint_key(&c), None);
    sys.replace_constraint(&k, c.clone());
    assert_eq!(sys.constraint_key(&c), Some(k));
}
