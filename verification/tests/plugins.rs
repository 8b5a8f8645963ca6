use guinea::plugins::{Pull, Registry};
use std::any::TypeId;

struct Settings;
struct Updater;
struct Left;
struct Colliding;
struct CycleA;
struct CycleB;
struct Orphan;
struct Startup;

fn kind<T: 'static>() -> TypeId {
    TypeId::of::<T>()
}

fn builds(pull: Pull) -> bool {
    matches!(pull, Pull::Build)
}

#[test]
fn a_plugin_pulled_by_two_others_is_built_for_the_first() {
    let mut registry = Registry::new();

    // Updater pulls Settings while it builds; Left pulls it afterwards.
    assert!(builds(registry.pull("test.updater", kind::<Updater>())));
    assert!(builds(registry.pull("test.settings", kind::<Settings>())));
    registry.finish(true);
    registry.finish(true);

    assert!(builds(registry.pull("test.left", kind::<Left>())));
    assert!(matches!(registry.pull("test.settings", kind::<Settings>()), Pull::Built));
    registry.finish(true);

    assert!(matches!(registry.pull("test.updater", kind::<Updater>()), Pull::Built));
}

#[test]
fn a_dependency_cycle_is_named_by_its_path() {
    let mut registry = Registry::new();
    assert!(builds(registry.pull("test.cycle.a", kind::<CycleA>())));
    assert!(builds(registry.pull("test.cycle.b", kind::<CycleB>())));
    match registry.pull("test.cycle.a", kind::<CycleA>()) {
        Pull::Cycle(path) => assert_eq!(path, ["test.cycle.a", "test.cycle.b", "test.cycle.a"]),
        other => panic!("expected a cycle, got {other:?}"),
    }
    // Nothing changed: both are still being built.
    assert_eq!(registry.wanted_by().map(|id| id.as_str()), Some("test.cycle.b"));
}

#[test]
fn an_id_another_plugin_took_collides() {
    let mut registry = Registry::new();
    assert!(builds(registry.pull("test.settings", kind::<Settings>())));
    registry.finish(true);
    assert!(matches!(registry.pull("test.settings", kind::<Colliding>()), Pull::Collision));

    // And while the first is still being built, too.
    let mut registry = Registry::new();
    assert!(builds(registry.pull("test.settings", kind::<Settings>())));
    assert!(matches!(registry.pull("test.settings", kind::<Colliding>()), Pull::Collision));
}

#[test]
fn a_service_is_wanted_by_the_plugin_being_built() {
    let mut registry = Registry::new();
    assert_eq!(registry.wanted_by(), None);
    assert!(builds(registry.pull("test.orphan", kind::<Orphan>())));
    assert_eq!(registry.wanted_by().map(|id| id.as_str()), Some("test.orphan"));
    registry.finish(false);
    assert_eq!(registry.wanted_by(), None);
}

#[test]
fn a_plugin_that_failed_is_built_again_when_pulled_again() {
    let mut registry = Registry::new();
    assert!(builds(registry.pull("test.orphan", kind::<Orphan>())));
    registry.finish(false);
    assert!(builds(registry.pull("test.orphan", kind::<Orphan>())));
}

#[test]
fn a_feature_runs_once() {
    let mut registry = Registry::new();
    assert!(registry.feature(kind::<Startup>()));
    assert!(!registry.feature(kind::<Startup>()));
    assert!(registry.feature(kind::<Settings>()));
}
