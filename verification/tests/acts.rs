use guinea::acts::{Chain, Recorder, Shape, Step};
use guinea::trace::{Bus, Level, Point, Record, StoreOp, Trace};

fn leaf(step: Step) -> Shape {
    Shape {
        step,
        caused: Vec::new(),
    }
}

fn under(caused: Vec<Shape>) -> Shape {
    Shape {
        step: Step::Action { message: "Refresh" },
        caused,
    }
}

#[test]
fn work_that_ran_side_by_side_compares_equal_in_either_order() {
    let pushed = leaf(Step::Push { reducer: "Listing" });
    let published = leaf(Step::Publish {
        event: "Refreshed",
        bus: "global",
        subscribers: 1,
    });

    let one = under(vec![pushed.clone(), published.clone()]);
    let other = under(vec![published, pushed]);

    assert_ne!(one, other);
    assert_eq!(one.unordered(), other.unordered());
}

fn begin(id: u64, parent: Option<u64>, point: Point) -> Trace {
    Trace::Begin(Record { id, parent, point })
}

fn mark(id: u64, parent: Option<u64>, point: Point) -> Trace {
    Trace::Mark(Record { id, parent, point })
}

fn heard(traces: &[Trace]) -> Recorder {
    let mut recorder = Recorder::new();
    for trace in traces {
        recorder.hear(trace);
    }
    recorder
}

#[test]
fn an_action_is_settled_once_what_it_spawned_has_answered() {
    let mut recorder = heard(&[
        mark(1, None, Point::Action { message: "Refresh" }),
        begin(2, Some(1), Point::Handle { actor: "Poller", message: "Refresh" }),
        mark(3, Some(2), Point::Spawn { actor: "Poller", output: "Listing" }),
    ]);
    assert!(!recorder.is_settled(1), "the handler is still running");

    recorder.hear(&Trace::End { id: 2 });
    assert!(!recorder.is_settled(1), "the task has not answered");

    recorder.hear(&mark(4, Some(3), Point::Settled { actor: "Poller", output: "Listing" }));
    assert!(recorder.is_settled(1));
    assert_eq!(recorder.heard(), 4);
}

#[test]
fn a_cancelled_task_counts_as_ended() {
    let recorder = heard(&[
        mark(1, None, Point::Action { message: "Save" }),
        mark(2, Some(1), Point::Spawn { actor: "Store", output: "Saved" }),
        mark(3, Some(2), Point::Cancelled { actor: "Store", output: "Saved" }),
    ]);
    assert!(recorder.is_settled(1));
    assert!(recorder.chain(1).cancelled());
}

#[test]
fn the_first_action_since_a_point_is_found() {
    let recorder = heard(&[
        mark(1, None, Point::Action { message: "Old" }),
        mark(2, None, Point::Note("between".to_string())),
        mark(3, None, Point::Action { message: "New" }),
    ]);
    assert_eq!(recorder.action_since(0), Some(1));
    assert_eq!(recorder.action_since(1), Some(3));
    assert_eq!(recorder.action_since(3), None);
}

#[test]
fn a_chain_holds_what_its_point_caused_in_the_order_it_happened() {
    let recorder = heard(&[
        mark(1, None, Point::Action { message: "Refresh" }),
        mark(2, Some(1), Point::Send { actor: "Poller", message: "Tick" }),
        mark(3, Some(1), Point::Publish { event: "Refreshed", bus: Bus::Global, subscribers: 2 }),
        mark(4, Some(2), Point::Push { reducer: "Listing" }),
        mark(5, None, Point::Note("elsewhere".to_string())),
    ]);

    let chain = recorder.chain(1);
    assert_eq!(chain.caused.len(), 2);
    assert_eq!(chain.points().len(), 4);
    assert!(chain.published_as("Refreshed"));
    assert!(!chain.published_as("Refresh"));
    assert!(chain.pushed_as("Listing"));
    assert!(!chain.handled_as("Tick"));
    assert!(!chain.cancelled());
    assert!(chain.has(|point| matches!(point, Point::Send { .. })));
    assert!(!chain.has(|point| matches!(point, Point::Note(_))));

    let shape = chain.shape();
    assert_eq!(
        shape,
        Shape {
            step: Step::Action { message: "Refresh" },
            caused: vec![
                Shape {
                    step: Step::Send { actor: "Poller", message: "Tick" },
                    caused: vec![leaf(Step::Push { reducer: "Listing" })],
                },
                leaf(Step::Publish { event: "Refreshed", bus: "global", subscribers: 2 }),
            ],
        }
    );
}

#[test]
fn a_cause_never_heard_is_an_empty_note_over_what_it_caused() {
    let recorder = heard(&[mark(7, Some(3), Point::Tick { timer: 9 })]);
    let chain = recorder.chain(3);
    assert_eq!(chain.point, Point::Note(String::new()));
    assert_eq!(chain.caused.len(), 1);
    assert_eq!(chain.shape().caused[0].step, Step::Tick);
}

#[test]
fn a_point_becomes_the_step_a_snapshot_keeps() {
    assert_eq!(
        Step::of(&Point::Store {
            op: StoreOp::DeletePrefix,
            path: "a/b".to_string(),
            field: Some("c".to_string()),
            outside: true,
        }),
        Step::Store {
            op: "delete prefix",
            path: "a/b".to_string(),
            field: Some("c".to_string()),
            outside: true,
        }
    );
    assert_eq!(
        Step::of(&Point::Log { level: Level::Warn, target: "app", text: "late".to_string() }),
        Step::Log { level: "WARN".to_string(), target: "app", text: "late".to_string() }
    );
    assert_eq!(
        Step::of(&Point::Deliver { event: "Closed", bus: Bus::Window }),
        Step::Deliver { event: "Closed", bus: "window" }
    );
}

#[test]
fn comparing_shapes_agrees_with_their_derived_order() {
    let shapes = vec![
        leaf(Step::Tick),
        leaf(Step::Push { reducer: "B" }),
        leaf(Step::Push { reducer: "A" }),
        leaf(Step::Push { reducer: "AB" }),
        under(vec![leaf(Step::Tick)]),
        under(vec![]),
        leaf(Step::Note("é".to_string())),
        leaf(Step::Note("z".to_string())),
        leaf(Step::Publish { event: "E", bus: "global", subscribers: 10 }),
        leaf(Step::Publish { event: "E", bus: "global", subscribers: 9 }),
        leaf(Step::Store { op: "set", path: "p".to_string(), field: None, outside: true }),
        leaf(Step::Store { op: "set", path: "p".to_string(), field: Some(String::new()), outside: false }),
    ];
    for a in &shapes {
        for b in &shapes {
            let derived = match a.cmp(b) {
                std::cmp::Ordering::Less => -1,
                std::cmp::Ordering::Equal => 0,
                std::cmp::Ordering::Greater => 1,
            };
            assert_eq!(a.compare(b), derived, "{a:?} against {b:?}");
        }
    }
}

#[test]
fn unordering_sorts_at_every_depth() {
    let shape = under(vec![
        under(vec![leaf(Step::Tick), leaf(Step::Push { reducer: "A" })]),
        leaf(Step::Push { reducer: "B" }),
    ]);
    let tidy = shape.unordered();
    assert_eq!(tidy.caused[1], leaf(Step::Push { reducer: "B" }), "an action sorts before a push");
    assert_eq!(tidy.caused[0].caused[0], leaf(Step::Push { reducer: "A" }));
    assert_eq!(tidy.caused[0].caused[1], leaf(Step::Tick));
}

#[test]
fn a_chain_clones_point_for_point() {
    let chain = Chain {
        point: Point::Action { message: "Go" },
        caused: vec![Chain { point: Point::Note("n".to_string()), caused: Vec::new() }],
    };
    assert_eq!(chain.clone(), chain);
}

#[test]
fn unordering_twice_changes_nothing() {
    let shape = under(vec![
        leaf(Step::Push { reducer: "B" }),
        under(vec![leaf(Step::Tick), leaf(Step::Push { reducer: "A" })]),
    ]);
    let once = shape.unordered();
    assert_eq!(once.clone().unordered(), once);
}

#[test]
fn chains_that_differ_only_in_their_timers_have_one_shape() {
    let run = |first: u64, second: u64| Chain {
        point: Point::Tick { timer: first },
        caused: vec![
            Chain { point: Point::Push { reducer: "Clock" }, caused: Vec::new() },
            Chain { point: Point::Tick { timer: second }, caused: Vec::new() },
        ],
    };
    assert_eq!(run(1, 2).shape(), run(7, 9).shape());
    assert_eq!(run(1, 2).shape().caused.len(), 2);
}
