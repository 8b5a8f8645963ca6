use std::any::TypeId;

use guinea::notify::{Batch, Change, Notifier, SETTLE_ROUNDS};

struct Count;
struct Mirror;

fn bare(scope: usize, cell: TypeId) -> Change<u32> {
    Change { scope, cell, update: None }
}

#[test]
fn a_push_outside_a_turn_notifies_at_once() {
    let mut notifier = Notifier::<u32>::new();
    assert!(notifier.mark(bare(1, TypeId::of::<Count>())), "nothing was underneath, so nothing had to wait");
}

#[test]
fn a_push_inside_a_turn_waits_for_it_to_end() {
    let mut notifier = Notifier::<u32>::new();
    notifier.enter_turn();
    assert!(!notifier.mark(bare(1, TypeId::of::<Count>())));
    assert!(notifier.pending());
    assert!(notifier.leave_turn(), "the outermost turn ended");
}

#[test]
fn a_burst_inside_one_turn_costs_one_notification() {
    let mut notifier = Notifier::<u32>::new();
    notifier.enter_turn();
    for _ in 0..5 {
        notifier.mark(bare(1, TypeId::of::<Count>()));
    }
    assert!(notifier.leave_turn());
    let mut drain = notifier.begin_drain().expect("something is marked");
    match notifier.next_batch(&mut drain) {
        Batch::Changes(batch) => assert_eq!(batch.len(), 1),
        _ => panic!("one change was marked"),
    }
    assert!(matches!(notifier.next_batch(&mut drain), Batch::Settled));
    assert_eq!(drain.rounds(), 1);
}

#[test]
fn nested_turns_notify_once_at_the_outermost_end() {
    let mut notifier = Notifier::<u32>::new();
    notifier.enter_turn();
    notifier.mark(bare(1, TypeId::of::<Count>()));
    notifier.enter_turn();
    notifier.mark(bare(1, TypeId::of::<Count>()));
    assert!(!notifier.leave_turn(), "the inner turn did not drain under the outer one");
    assert!(notifier.leave_turn());
}

#[test]
fn an_observer_is_handed_every_update_itself() {
    let mut notifier = Notifier::<u32>::new();
    notifier.enter_turn();
    notifier.mark(Change { scope: 1, cell: TypeId::of::<Count>(), update: Some(1) });
    notifier.mark(Change { scope: 1, cell: TypeId::of::<Count>(), update: Some(2) });
    notifier.leave_turn();
    let mut drain = notifier.begin_drain().expect("marked");
    match notifier.next_batch(&mut drain) {
        Batch::Changes(batch) => {
            let updates: Vec<Option<u32>> = batch.into_iter().map(|change| change.update).collect();
            assert_eq!(updates, [Some(1), Some(2)], "a rename is not a fresh list");
        }
        _ => panic!("two updates were marked"),
    }
}

#[test]
fn a_push_from_a_listener_waits_for_the_next_drain() {
    let mut notifier = Notifier::<u32>::new();
    assert!(notifier.mark(bare(1, TypeId::of::<Count>())));
    let mut drain = notifier.begin_drain().expect("marked");
    if let Batch::Changes(batch) = notifier.next_batch(&mut drain) {
        for change in batch {
            drain.touch(change.scope, change.cell);
        }
    }
    assert!(matches!(notifier.next_batch(&mut drain), Batch::Settled));
    assert_eq!(drain.touched().len(), 1);
    assert!(!notifier.mark(bare(1, TypeId::of::<Count>())), "the re-entrant push did not extend this drain");
    notifier.finish_drain();
    assert!(notifier.pending());
    assert!(notifier.begin_drain().is_some());
}

#[test]
fn a_cell_touched_twice_is_listened_to_once() {
    let mut notifier = Notifier::<u32>::new();
    notifier.mark(bare(1, TypeId::of::<Count>()));
    let mut drain = notifier.begin_drain().expect("marked");
    drain.touch(1, TypeId::of::<Count>());
    drain.touch(1, TypeId::of::<Mirror>());
    drain.touch(1, TypeId::of::<Count>());
    drain.touch(2, TypeId::of::<Count>());
    assert_eq!(
        drain.touched().clone(),
        [(1, TypeId::of::<Count>()), (1, TypeId::of::<Mirror>()), (2, TypeId::of::<Count>())]
    );
}

#[test]
fn an_observer_feeding_itself_is_stopped_after_the_last_round() {
    let mut notifier = Notifier::<u32>::new();
    notifier.mark(bare(1, TypeId::of::<Count>()));
    let mut drain = notifier.begin_drain().expect("marked");
    let mut rounds = 0;
    loop {
        match notifier.next_batch(&mut drain) {
            Batch::Changes(_) => {
                rounds += 1;
                notifier.mark(bare(1, TypeId::of::<Count>()));
            }
            Batch::Unsettled => break,
            Batch::Settled => panic!("it keeps feeding itself"),
        }
    }
    assert_eq!(rounds, SETTLE_ROUNDS);
    assert!(!notifier.pending(), "what was marked is dropped");
}

#[test]
fn nothing_marked_is_nothing_to_drain() {
    let mut notifier = Notifier::<u32>::new();
    assert!(!notifier.pending());
    assert!(notifier.begin_drain().is_none());
}
