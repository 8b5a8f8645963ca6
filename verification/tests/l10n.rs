use std::cell::RefCell;
use std::rc::Rc;

use guinea::l10n::L10n;

#[derive(Clone, Default, PartialEq, Debug)]
struct Strings {
    greeting: String,
}

#[test]
fn load_then_current_roundtrips() {
    let mut l10n = L10n::<Strings, fn(Strings)>::new(Strings::default());
    l10n.load(Strings {
        greeting: "hello".into(),
    });
    assert_eq!(l10n.current().greeting, "hello");
}

#[test]
fn subscribers_see_every_subsequent_load_until_dropped() {
    let seen = Rc::new(RefCell::new(Vec::new()));
    let seen_for_cb = seen.clone();
    let mut l10n = L10n::new(Strings::default());
    let sub = l10n.subscribe(move |s: Strings| seen_for_cb.borrow_mut().push(s.greeting));

    l10n.load(Strings { greeting: "a".into() });
    l10n.load(Strings { greeting: "b".into() });
    assert_eq!(*seen.borrow(), vec!["a", "b"]);

    l10n.unsubscribe(sub);
    l10n.load(Strings { greeting: "c".into() });
    assert_eq!(
        *seen.borrow(),
        vec!["a", "b"],
        "no notifications after the Subscription is handed back"
    );
}

#[test]
fn listeners_are_told_in_the_order_they_subscribed() {
    let seen = Rc::new(RefCell::new(Vec::new()));
    let mut l10n: L10n<Strings, Box<dyn Fn(Strings)>> = L10n::new(Strings::default());
    for name in ["first", "second", "third"] {
        let seen = seen.clone();
        let _ = l10n.subscribe(Box::new(move |_: Strings| seen.borrow_mut().push(name)));
    }
    l10n.load(Strings { greeting: "x".into() });
    assert_eq!(*seen.borrow(), ["first", "second", "third"]);
}

#[test]
fn loads_put_in_a_turn_are_told_once_with_the_latest_strings() {
    let seen = Rc::new(RefCell::new(Vec::new()));
    let seen_for_cb = seen.clone();
    let mut l10n = L10n::new(Strings::default());
    let _sub = l10n.subscribe(move |s: Strings| seen_for_cb.borrow_mut().push(s.greeting));
    l10n.put(Strings { greeting: "a".into() });
    l10n.put(Strings { greeting: "b".into() });
    assert!(seen.borrow().is_empty(), "a put tells no one");
    l10n.tell();
    assert_eq!(*seen.borrow(), vec!["b"]);
}
