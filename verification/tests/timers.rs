use guinea::timers::{tick, tick_done, Period, Place, Tick, Timers};
use std::time::Duration;

fn here() -> Place {
    Place { file: "tests/timers.rs", line: 5, column: 5 }
}

fn started(timers: &mut Timers, period_ms: u64) -> u64 {
    assert!(timers.can_start());
    timers.start(here(), None, None, Duration::from_millis(period_ms))
}

fn always() -> Option<&'static fn() -> bool> {
    None
}

#[test]
fn a_period_is_fixed_or_asked_again() {
    let fixed: Period<fn() -> Duration> = Period::Fixed(Duration::from_millis(100));
    assert_eq!(fixed.next(), Duration::from_millis(100));
    let varying = Period::varying(|| Duration::from_secs(2));
    assert_eq!(varying.next(), Duration::from_secs(2));
}

#[test]
fn a_timer_ticks_every_period() {
    let mut timers = Timers::new();
    let id = started(&mut timers, 30);
    // Every wake-up of the chain it started on ticks, and the period it
    // waits stays the one it was given.
    for _ in 0..3 {
        assert_eq!(tick(&timers, id, 0, always()), Tick::Run);
        timers.record_period(id, Duration::from_millis(30));
        assert_eq!(timers.lookup(id).unwrap().info.period, Duration::from_millis(30));
    }
}

#[test]
fn a_timer_stops_with_what_keeps_it() {
    let mut timers = Timers::new();
    let id = started(&mut timers, 30);
    assert_eq!(tick(&timers, id, 0, always()), Tick::Run);
    timers.stop(id);
    assert_eq!(tick(&timers, id, 0, always()), Tick::Stale);
    assert!(timers.lookup(id).is_none());
}

#[test]
fn a_timer_dropped_before_its_first_tick_never_ticks() {
    let mut timers = Timers::new();
    let id = started(&mut timers, 200);
    timers.stop(id);
    assert_eq!(tick(&timers, id, 0, always()), Tick::Stale);
}

#[test]
fn changing_the_period_cuts_the_wait_short_and_ends_the_old_chain() {
    let mut timers = Timers::new();
    let id = started(&mut timers, 60_000);

    assert!(timers.rechainable(id));
    let short = timers.rechain(id, Duration::from_millis(20)).expect("running");
    assert_eq!(short, 1);
    assert_eq!(tick(&timers, id, short, always()), Tick::Run);
    assert_eq!(tick(&timers, id, 0, always()), Tick::Stale, "a minute's wait was waited out");

    let long = timers.rechain(id, Duration::from_secs(60)).expect("running");
    assert_eq!(long, 2);
    assert_eq!(
        tick(&timers, id, short, always()),
        Tick::Stale,
        "the twenty-millisecond chain kept ticking after the period changed"
    );
    assert_eq!(tick(&timers, id, long, always()), Tick::Run);
    assert_eq!(timers.lookup(id).unwrap().info.period, Duration::from_secs(60));
}

#[test]
fn a_timer_ticks_only_while_active() {
    let mut timers = Timers::new();
    let id = started(&mut timers, 30);

    let idle = || false;
    let busy = || true;
    assert_eq!(tick(&timers, id, 0, Some(&idle)), Tick::Skip);
    assert_eq!(tick(&timers, id, 0, Some(&busy)), Tick::Run);
    assert_eq!(tick(&timers, id, 0, Some(&idle)), Tick::Skip);
    assert_eq!(tick(&timers, id, 7, Some(&busy)), Tick::Stale);
}

#[test]
fn a_running_timer_says_where_it_was_set_up_and_what_it_is_called() {
    let mut timers = Timers::new();
    let id = started(&mut timers, 1_000);
    let hidden = started(&mut timers, 1_000);

    timers.set_name(id, "sweep");
    timers.untrace(hidden);

    let listed = timers.running();
    let info = listed.iter().find(|info| info.id == id).expect("listed");
    assert_eq!(info.name, Some("sweep"));
    assert!(info.place.file.ends_with("timers.rs"));
    assert_eq!(info.period, Duration::from_millis(1_000));
    assert!(listed.iter().all(|info| info.id != hidden));

    timers.stop(id);
    assert!(timers.running().iter().all(|info| info.id != id));
    assert!(timers.lookup(id).is_none());
}

#[test]
fn running_timers_are_listed_oldest_first_and_ids_are_not_reused() {
    let mut timers = Timers::new();
    let a = started(&mut timers, 10);
    let b = started(&mut timers, 10);
    let c = started(&mut timers, 10);
    assert_eq!((a, b, c), (1, 2, 3));
    timers.stop(b);
    let d = started(&mut timers, 10);
    assert_eq!(d, 4);
    let ids: Vec<u64> = timers.running().iter().map(|info| info.id).collect();
    assert_eq!(ids, vec![1, 3, 4]);
}

#[test]
fn a_timer_that_is_not_running_keeps_no_chain() {
    let mut timers = Timers::new();
    assert_eq!(timers.rechain(9, Duration::from_millis(5)), None);
    timers.set_name(9, "ghost");
    timers.untrace(9);
    assert!(timers.running().is_empty());
}

#[test]
fn after_a_tick_the_period_is_asked_once_and_one_wake_up_is_armed() {
    let mut timers = Timers::new();
    let id = started(&mut timers, 30);
    let asked = std::cell::Cell::new(0u32);
    let period = Period::varying(|| {
        asked.set(asked.get() + 1);
        Duration::from_millis(45)
    });
    let wake = tick_done(&mut timers, id, 0, &period);
    assert_eq!(asked.get(), 1);
    assert_eq!((wake.id, wake.armed, wake.after), (id, 0, Duration::from_millis(45)));
    assert_eq!(timers.lookup(id).unwrap().info.period, Duration::from_millis(45));
}
