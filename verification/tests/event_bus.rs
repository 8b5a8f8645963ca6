use std::any::TypeId;

use guinea::event_bus::{Event, EventBus};
use guinea::trace::Bus;

#[derive(Clone)]
struct Saved(u32);
impl Event for Saved {}

#[derive(Clone)]
struct Closed;
impl Event for Closed {}

#[test]
fn subscribers_are_told_in_the_order_they_subscribed() {
    let mut bus = EventBus::<&'static str>::new();
    assert_eq!(bus.kind(), Bus::Window);
    bus.subscribe::<Saved>("first");
    bus.subscribe::<Closed>("other");
    bus.subscribe::<Saved>("second");

    let (told, Saved(n)) = bus.publish(Saved(3));
    assert_eq!(told.into_iter().copied().collect::<Vec<_>>(), ["first", "second"]);
    assert_eq!(n, 3);
    assert_eq!(bus.count_subscribers::<Saved>(), 2);
    assert!(bus.has_subscribers::<Closed>());
}

#[test]
fn removal_only_touches_its_own_event() {
    let mut bus = EventBus::<&'static str>::global();
    assert_eq!(bus.kind(), Bus::Global);
    let saved = bus.subscribe::<Saved>("saved");
    bus.subscribe::<Closed>("closed");
    bus.subscribe::<Saved>("again");

    bus.remove(saved);
    assert_eq!(bus.count_subscribers::<Saved>(), 1);
    assert_eq!(bus.count_subscribers::<Closed>(), 1);
    assert_eq!(bus.telling(&TypeId::of::<Saved>()).into_iter().copied().collect::<Vec<_>>(), ["again"]);

    bus.remove(saved);
    assert_eq!(bus.count_subscribers::<Saved>(), 1, "removing twice changes nothing");
}

#[test]
fn a_bus_nobody_subscribed_to_tells_nobody() {
    let bus = EventBus::<()>::new();
    assert!(!bus.has_subscribers::<Saved>());
    assert!(bus.publish(Closed).0.is_empty());
    assert!(bus.can_subscribe());
}
