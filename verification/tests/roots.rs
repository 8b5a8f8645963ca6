use guinea::roots::{count, is_open, label, labelled, roots, set_label, Registration, Roots};

#[test]
fn a_root_is_open_while_its_registration_lives() {
    let mut registry = Roots::new();
    let root = Registration::open(&mut registry);
    let id = root.id();

    assert!(is_open(&registry, id));
    assert!(roots(&registry).contains(&id));

    root.close(&mut registry);
    assert!(!is_open(&registry, id), "closing is handing the registration back");
}

#[test]
fn a_name_outlives_the_id_it_was_given_to() {
    let mut registry = Roots::new();
    let first = Registration::open(&mut registry);
    set_label(&mut registry, first.id(), "main");
    assert_eq!(label(&registry, first.id()).as_deref(), Some("main"));
    assert_eq!(labelled(&registry, "main"), Some(first.id()));
    first.close(&mut registry);

    assert_eq!(labelled(&registry, "main"), None, "a name is only for an open root");

    let again = Registration::open(&mut registry);
    set_label(&mut registry, again.id(), "main");
    assert_eq!(labelled(&registry, "main"), Some(again.id()));
}

#[test]
fn an_unnamed_root_has_no_name() {
    let mut registry = Roots::new();
    let root = Registration::open(&mut registry);
    assert_eq!(label(&registry, root.id()), None);
}

#[test]
fn ids_are_not_reused() {
    let mut registry = Roots::new();
    let first = Registration::open(&mut registry);
    let id = first.id();
    first.close(&mut registry);

    let second = Registration::open(&mut registry);

    assert_ne!(
        second.id(),
        id,
        "a plugin holding an id must never be handed someone else's root"
    );
}

#[test]
fn roots_are_listed_side_by_side_and_leave_one_at_a_time() {
    let mut registry = Roots::new();
    let one = Registration::open(&mut registry);
    let two = Registration::open(&mut registry);
    let (first, second) = (one.id(), two.id());

    let open = roots(&registry);
    assert!(open.contains(&first) && open.contains(&second));

    one.close(&mut registry);
    assert!(!roots(&registry).contains(&first));
    assert!(is_open(&registry, second), "closing one root leaves the other alone");
    two.close(&mut registry);
}

#[test]
fn two_roots_named_alike_answer_with_the_older() {
    let mut registry = Roots::new();
    let older = Registration::open(&mut registry);
    let newer = Registration::open(&mut registry);
    set_label(&mut registry, newer.id(), "log");
    set_label(&mut registry, older.id(), "log");
    assert_eq!(labelled(&registry, "log"), Some(older.id()));
    assert_eq!(count(&registry), 2);
}

#[test]
fn naming_a_closed_root_changes_nothing() {
    let mut registry = Roots::new();
    let root = Registration::open(&mut registry);
    let id = root.id();
    let closed = root.close(&mut registry);
    assert_eq!(closed.0, id);
    set_label(&mut registry, id, "gone");
    assert_eq!(labelled(&registry, "gone"), None);
    assert_eq!(count(&registry), 0);
    assert!(registry.can_open());
}

#[test]
fn closing_a_root_takes_out_only_its_id_and_keeps_the_order() {
    let mut registry = Roots::new();
    let a = Registration::open(&mut registry);
    let b = Registration::open(&mut registry);
    assert_eq!(count(&registry), 2);
    let c = Registration::open(&mut registry);
    assert_eq!(count(&registry), 3);
    let (first, third) = (a.id(), c.id());
    b.close(&mut registry);
    assert_eq!(roots(&registry), vec![first, third]);
    assert_eq!(count(&registry), 2);
    a.close(&mut registry);
    c.close(&mut registry);
    assert_eq!(count(&registry), 0);
}
