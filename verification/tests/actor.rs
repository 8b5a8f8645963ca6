use guinea::actor::{
    app_actors, ActionsGroup, ActorSnapshot, Channel, DebugEntry, DebugRegistry, Declared, Dispatched, Edge,
    GroupDispatch, Handles, InGroup, Mailbox, MessageEnvelope, Owner, Shape,
};

const TICK_EDGES: &[Edge] = &[
    Edge {
        channel: Channel::Bg,
        target: "shape::Tick",
        looping: true,
    },
    Edge {
        channel: Channel::Send,
        target: "shape::Report",
        looping: false,
    },
];

const START_EDGES: &[Edge] = &[Edge {
    channel: Channel::Bg,
    target: "shape::Tick",
    looping: false,
}];

const POLLER_HANDLES: &[Handles] = &[
    Handles {
        message: "shape::Start",
        edges: Some(START_EDGES),
        declared: None,
    },
    Handles {
        message: "shape::Tick",
        edges: Some(TICK_EDGES),
        declared: None,
    },
    Handles {
        message: "shape::Report",
        edges: None,
        declared: None,
    },
    Handles {
        message: "shape::Stopped",
        edges: None,
        declared: None,
    },
];

/// What `actor!` writes down for a poller that reports when it finishes.
const POLLER: Shape = Shape {
    handles: POLLER_HANDLES,
    publishes: &["shape::Finished"],
    subscribes: &[],
    declared: Some(Declared {
        file: "tests/shape.rs",
        line: 20,
        column: 5,
        crate_dir: ".",
    }),
};

#[test]
fn the_declared_edges_are_there_to_read() {
    let shape = POLLER;

    let handled: Vec<&str> = shape.handles.iter().map(|h| h.message).collect();
    assert_eq!(handled.len(), 4);
    assert!(handled[0].ends_with("Start"), "{handled:?}");

    let tick = &shape.handles[1];
    let edges = tick.edges.expect("Tick declared its edges");
    assert_eq!(edges.len(), 2);
    assert_eq!(edges[0].channel, Channel::Bg);
    assert!(edges[0].looping);
    assert!(edges[0].target.ends_with("Tick"));
    assert_eq!(edges[1].channel, Channel::Send);
    assert!(!edges[1].looping);
    assert!(edges[1].target.ends_with("Report"));

    assert!(shape.handles[2].edges.is_none(), "Report declared nothing");

    let published: Vec<&str> = shape.publishes.to_vec();
    assert_eq!(published.len(), 1);
    assert!(published[0].ends_with("Finished"));
    assert!(shape.subscribes.is_empty());
}

#[test]
fn an_unknown_shape_declares_nothing() {
    let shape = Shape::unknown();
    assert!(shape.handles.is_empty() && shape.publishes.is_empty() && shape.subscribes.is_empty());
    assert!(shape.declared.is_none());
}

struct Probe;

impl ActionsGroup for Probe {
    type Dispatch = ();
    type Members = (Ping, (Reset, ()));
}

struct Ping(u32);
struct Reset;

impl InGroup<Probe> for Ping {}
impl InGroup<Probe> for Reset {}

#[test]
fn emitting_an_unwired_member_warns_instead_of_panicking() {
    let dispatch = GroupDispatch::<Probe, Box<dyn Fn(Ping)>>::new();
    assert!(!dispatch.is_wired::<Ping>());
    match dispatch.emit(Ping(1)) {
        Dispatched::Nobody(Ping(n)) => assert_eq!(n, 1),
        Dispatched::To(..) => panic!("nothing was wired"),
    }
}

#[test]
fn wiring_a_member_routes_it_and_only_it() {
    let mut dispatch = GroupDispatch::<Probe, &'static str>::new();
    dispatch.register::<Ping>("pinger");
    assert!(dispatch.is_wired::<Ping>());
    assert!(!dispatch.is_wired::<Reset>());
    match dispatch.emit(Ping(7)) {
        Dispatched::To(sender, Ping(n)) => assert_eq!((*sender, n), ("pinger", 7)),
        Dispatched::Nobody(_) => panic!("Ping is wired"),
    }
    dispatch.register::<Ping>("again");
    match dispatch.emit(Ping(8)) {
        Dispatched::To(sender, _) => assert_eq!(*sender, "again", "wiring again replaces"),
        Dispatched::Nobody(_) => panic!("Ping is wired"),
    }
    assert!(matches!(dispatch.emit(Reset), Dispatched::Nobody(Reset)));
}

fn snapshot(id: usize, name: &'static str) -> ActorSnapshot {
    ActorSnapshot {
        id,
        kind_name: name,
        state: String::new(),
        shape: Shape::unknown(),
        owner: Owner::default(),
    }
}

#[test]
fn application_actors_are_listed_by_id() {
    let listed = app_actors(vec![snapshot(3, "c"), snapshot(1, "a"), snapshot(2, "b")]);
    let ids: Vec<usize> = listed.iter().map(|actor| actor.id).collect();
    assert_eq!(ids, [1, 2, 3]);
    assert_eq!(listed[0].kind_name, "a");
}

#[test]
fn an_envelope_is_opened_once() {
    let mut envelope = MessageEnvelope::new("hello", 9);
    assert_eq!(envelope.cause(), 9);
    assert_eq!(envelope.open(), Some("hello"));
    assert_eq!(envelope.open(), None);
}

#[test]
fn the_debug_list_reads_each_actor_now() {
    let mut registry: DebugRegistry<Box<dyn Fn() -> String>> = DebugRegistry::new();
    registry.register(7, "shape::Poller", Shape::unknown(), Box::new(|| "idle".to_string()));
    let owner = Owner { feature: Some("processes"), ..Owner::default() };
    registry.register_owned(
        3,
        DebugEntry { kind_name: "shape::Sweeper", shape: Shape::unknown(), owner, snapshot: Box::new(|| "busy".to_string()) },
    );

    let listed = registry.snapshots();
    assert_eq!(listed.len(), 2);
    assert_eq!((listed[0].id, listed[0].kind_name, listed[0].state.as_str()), (7, "shape::Poller", "idle"));
    assert_eq!(listed[1].owner.feature, Some("processes"));

    // Listing an id again replaces it; taking one off leaves the other.
    registry.register(7, "shape::Poller", Shape::unknown(), Box::new(|| "polling".to_string()));
    assert_eq!(registry.snapshots()[0].state, "polling");
    registry.unregister(7);
    let ids: Vec<usize> = app_actors(registry.snapshots()).iter().map(|actor| actor.id).collect();
    assert_eq!(ids, [3]);
    registry.clear();
    assert!(registry.snapshots().is_empty());
}

#[derive(Debug, PartialEq)]
enum Message {
    First,
    Second,
}

/// An actor that, handed `First`, sends itself `Second` from inside the
/// handler.
fn handle(mailbox: &mut Mailbox<Message>, log: &mut Vec<&'static str>, message: Message) {
    match message {
        Message::First => {
            log.push("first");
            assert!(!mailbox.post(Message::Second), "a drain is under way");
        }
        Message::Second => log.push("second"),
    }
}

fn send(mailbox: &mut Mailbox<Message>, log: &mut Vec<&'static str>, message: Message) {
    if mailbox.post(message) {
        while let Some(next) = mailbox.next() {
            handle(mailbox, log, next);
        }
    }
}

#[test]
fn send_from_a_handler_is_drained_by_the_same_queue() {
    let mut mailbox = Mailbox::new();
    let mut log = Vec::new();

    send(&mut mailbox, &mut log, Message::First);

    assert_eq!(log, ["first", "second"]);
    assert!(!mailbox.is_processing());
    assert_eq!(mailbox.len(), 0);
}
