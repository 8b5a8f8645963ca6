use guinea::scope::{owner_of, unclaimed, Owning, Scope};
use std::any::TypeId;
use std::cell::RefCell;
use std::rc::Rc;

#[derive(Default, Clone, PartialEq, Debug)]
struct Counter {
    value: i32,
}

struct Other;
struct Feature;
struct Refresh;

type Books = Scope<Rc<RefCell<Counter>>, Rc<dyn Fn()>, Rc<dyn Fn(&i32)>, &'static str>;

fn counter() -> Rc<RefCell<Counter>> {
    Rc::new(RefCell::new(Counter::default()))
}

fn key<T: 'static>() -> TypeId {
    TypeId::of::<T>()
}

/// What a push does: the state changes now, then whoever listens is told.
fn push(books: &Books, value: i32) {
    let state = books.peek(&key::<Counter>()).expect("a cell").clone();
    state.borrow_mut().value = value;
    for listener in books.listeners_of(&key::<Counter>()) {
        listener();
    }
}

#[test]
fn scope_state_survives_unmount_remount_within_a_live_store() {
    let mut books = Books::new();

    // "mount" #1: read default, then a push arrives.
    books.ensure_cell(key::<Counter>(), counter);
    let first_read = books.peek(&key::<Counter>()).unwrap().clone();
    assert_eq!(first_read.borrow().value, 0);
    push(&books, 42);

    // "unmount": drop the only handle a view held.
    drop(first_read);

    // "remount": resolving the cell again sees the value left behind.
    books.ensure_cell(key::<Counter>(), counter);
    let second_read = books.peek(&key::<Counter>()).unwrap().clone();
    assert_eq!(second_read.borrow().value, 42);
}

#[test]
fn push_notifies_subscribers_and_unsubscribe_stops_it() {
    let mut books = Books::new();
    let seen = Rc::new(RefCell::new(Vec::new()));

    books.ensure_cell(key::<Counter>(), counter);
    let state = books.peek(&key::<Counter>()).unwrap().clone();
    let seen_for_sub = seen.clone();
    assert!(books.subscribable());
    let sub = books.subscribe(
        key::<Counter>(),
        counter,
        Rc::new(move || seen_for_sub.borrow_mut().push(state.borrow().value)),
    );

    push(&books, 1);
    push(&books, 2);
    assert_eq!(*seen.borrow(), vec![1, 2]);

    books.unsubscribe(key::<Counter>(), sub);
    push(&books, 3);
    assert_eq!(*seen.borrow(), vec![1, 2], "no further notifications after the subscription ended");
}

#[test]
fn a_subscription_ends_alone() {
    let mut books = Books::new();
    let first = books.subscribe(key::<Counter>(), counter, Rc::new(|| {}));
    let second = books.subscribe(key::<Counter>(), counter, Rc::new(|| {}));
    let watcher = books.observe(key::<Counter>(), counter, Rc::new(|_: &i32| {}));
    assert_eq!((first, second, watcher), (0, 1, 2));
    assert!(books.is_observed(&key::<Counter>()));

    books.unsubscribe(key::<Counter>(), first);
    assert_eq!(books.listeners_of(&key::<Counter>()).len(), 1);
    assert_eq!(books.observers_of(&key::<Counter>()).len(), 1);

    books.unsubscribe(key::<Counter>(), watcher);
    assert!(!books.is_observed(&key::<Counter>()));
    assert_eq!(books.listeners_of(&key::<Counter>()).len(), 1);
    assert!(books.listeners_of(&key::<Other>()).is_empty());
}

#[test]
fn seeding_starts_a_cell_over() {
    let mut books = Books::new();
    books.subscribe(key::<Counter>(), counter, Rc::new(|| {}));
    books.seed(key::<Counter>(), Rc::new(RefCell::new(Counter { value: 7 })));
    assert_eq!(books.peek(&key::<Counter>()).unwrap().borrow().value, 7);
    assert!(books.listeners_of(&key::<Counter>()).is_empty());
    assert!(books.peek(&key::<Other>()).is_none());
}

#[test]
fn a_snapshot_comes_back_when_a_page_is_mounted_again() {
    let mut books = Books::new();
    books.seed(key::<Counter>(), Rc::new(RefCell::new(Counter { value: 5 })));
    let kept: Vec<(TypeId, Rc<RefCell<Counter>>)> =
        books.snapshot_states().into_iter().map(|(k, s)| (k, s.clone())).collect();
    assert_eq!(kept.len(), 1);

    let mut again = Books::new();
    again.restore_states(kept);
    assert_eq!(again.peek(&key::<Counter>()).unwrap().borrow().value, 5);
}

#[test]
fn the_first_section_to_claim_a_reducer_owns_it() {
    let mut books = Books::new();
    assert_eq!(books.current_section(), 0);
    assert!(!books.claims(&key::<Counter>()));
    assert_eq!(books.section_of(&key::<Counter>()), 0);

    let first = books.open_section();
    assert_eq!(first, 1);
    books.note_reducer_owner(key::<Counter>());
    books.close_section();

    let second = books.open_section();
    assert_eq!(second, 2);
    books.note_reducer_owner(key::<Counter>());
    books.close_section();

    assert!(books.claims(&key::<Counter>()));
    assert_eq!(books.section_of(&key::<Counter>()), 1);
    assert!(books.has_feature(&key::<Counter>()));
}

#[test]
fn two_instances_of_one_feature_each_answer_for_themselves() {
    let mut books = Books::new();
    let recent = books.open_section();
    books.answers(key::<Refresh>(), "recent");
    books.close_section();
    let archived = books.open_section();
    books.answers(key::<Refresh>(), "archived");
    books.close_section();

    assert_eq!(books.answerer(recent, &key::<Refresh>()), Some(&"recent"));
    assert_eq!(books.answerer(archived, &key::<Refresh>()), Some(&"archived"));
    assert_eq!(books.answerer(0, &key::<Refresh>()), None);
    assert_eq!(books.answerer(9, &key::<Refresh>()), None);

    books.answers(key::<Refresh>(), "own");
    assert_eq!(books.answerer(0, &key::<Refresh>()), Some(&"own"));
}

#[test]
fn a_feature_is_marked_once_and_exports_are_listed() {
    let mut books = Books::new();
    assert!(!books.has_feature(&key::<Feature>()));
    books.mark_feature_installed(key::<Feature>());
    assert!(books.has_feature(&key::<Feature>()));

    assert!(!books.exports(&key::<Counter>()));
    books.note_export(key::<Counter>());
    assert!(books.exports(&key::<Counter>()));
    assert!(!books.exports(&key::<Other>()));
}

#[test]
fn an_observer_watches_the_scope_that_owns_the_reducer() {
    let mut root = Books::new();
    let mut layout = Books::new();
    let mut page = Books::new();
    root.note_export(key::<Counter>());
    layout.note_export(key::<Counter>());

    {
        let above = vec![&root, &layout];
        assert_eq!(owner_of(&page, &above, &key::<Counter>()), Some(Owning::Above(1)));
        assert_eq!(owner_of(&page, &above, &key::<Other>()), None);
    }

    page.note_reducer_owner(key::<Counter>());
    let above = vec![&root, &layout];
    assert_eq!(owner_of(&page, &above, &key::<Counter>()), Some(Owning::Here));

    assert_eq!(unclaimed(&page, &vec![key::<Counter>(), key::<Other>()]), Some(1));
    assert_eq!(unclaimed(&page, &vec![key::<Counter>()]), None);
    assert_eq!(unclaimed(&layout, &vec![key::<Counter>()]), Some(0));
}
