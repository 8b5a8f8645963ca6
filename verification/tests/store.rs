use guinea::store::Store;
use std::any::TypeId;
use std::cell::RefCell;
use std::rc::Rc;

struct Counter;
struct Other;

#[derive(Default, Clone, PartialEq, Debug)]
struct CounterState {
    value: i32,
}

type Cells = Store<Rc<RefCell<CounterState>>, &'static str, u32, &'static str>;

fn fresh() -> Rc<RefCell<CounterState>> {
    Rc::new(RefCell::new(CounterState::default()))
}

fn key<T: 'static>() -> TypeId {
    TypeId::of::<T>()
}

/// What `Store::state` hands a view.
fn state(store: &mut Cells) -> Rc<RefCell<CounterState>> {
    store.cell(key::<Counter>(), fresh);
    store.state(&key::<Counter>()).unwrap().clone()
}

#[test]
fn store_state_survives_unmount_remount_within_a_live_store() {
    let mut store = Cells::new();

    let first_read = state(&mut store);
    assert_eq!(first_read.borrow().value, 0);
    state(&mut store).borrow_mut().value = 42;

    drop(first_read);

    let second_read = state(&mut store);
    assert_eq!(second_read.borrow().value, 42);
}

#[test]
fn bindings_are_made_once_and_shared() {
    let mut store = Cells::new();
    assert_eq!(store.bindings(&key::<Counter>()), None);
    store.ensure_bindings(key::<Counter>(), fresh, || "first");
    store.ensure_bindings(key::<Counter>(), fresh, || "second");
    assert_eq!(store.bindings(&key::<Counter>()), Some(&"first"));
}

#[test]
fn a_cell_owns_its_tasks_and_one_actor() {
    let mut store = Cells::new();
    store.own_task(key::<Counter>(), fresh, 1);
    store.own_task(key::<Counter>(), fresh, 2);
    assert_eq!(store.own_actor(key::<Counter>(), fresh, "first"), None);
    assert_eq!(store.own_actor(key::<Counter>(), fresh, "second"), Some("first"));

    assert_eq!(store.features(), vec![key::<Counter>()]);
    let cell = store.remove(&key::<Counter>()).expect("a cell");
    assert_eq!(cell.tasks, vec![1, 2]);
    assert_eq!(cell.actor_teardown, Some("second"));
    assert!(store.remove(&key::<Other>()).is_none());
    assert!(store.state(&key::<Counter>()).is_none());
}
