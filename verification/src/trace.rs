//! The points a trace is made of, as an observer hears them.
//!
//! Every point has an id of its own and, unless it started something new, the
//! id of what caused it. A point that runs for a while is opened with a
//! [`Trace::Begin`] and closed with a [`Trace::End`]; one that is over as soon
//! as it happens is a [`Trace::Mark`].

use vstd::prelude::*;

verus! {

/// Names one point of a trace; what a later point gives as its parent.
pub type Cause = u64;

/// Which event bus a publication went out on.
#[derive(Clone, Copy, Debug, PartialEq, Eq, Structural)]
pub enum Bus {
    Global,
    Window,
}

/// What a store write did.
#[derive(Clone, Copy, Debug, PartialEq, Eq, Structural)]
pub enum StoreOp {
    Put,
    Delete,
    DeletePrefix,
}

/// How loud a logged line was.
#[derive(Clone, Copy, Debug, PartialEq, Eq, Structural)]
pub enum Level {
    Trace,
    Debug,
    Info,
    Warn,
    Error,
}

/// The name of a bus as a snapshot writes it.
pub open spec fn bus_name(bus: Bus) -> Seq<char> {
    match bus {
        Bus::Global => "global"@,
        Bus::Window => "window"@,
    }
}

/// The name of a store operation as a snapshot writes it.
pub open spec fn store_op_name(op: StoreOp) -> Seq<char> {
    match op {
        StoreOp::Put => "set"@,
        StoreOp::Delete => "delete"@,
        StoreOp::DeletePrefix => "delete prefix"@,
    }
}

/// A level as a log line prints it.
pub open spec fn level_name(level: Level) -> Seq<char> {
    match level {
        Level::Trace => "TRACE"@,
        Level::Debug => "DEBUG"@,
        Level::Info => "INFO"@,
        Level::Warn => "WARN"@,
        Level::Error => "ERROR"@,
    }
}

impl Bus {
    pub fn name(&self) -> (r: &'static str)
        ensures
            r@ == bus_name(*self),
    {
        match self {
            Bus::Global => "global",
            Bus::Window => "window",
        }
    }
}

impl StoreOp {
    pub fn name(&self) -> (r: &'static str)
        ensures
            r@ == store_op_name(*self),
    {
        match self {
            StoreOp::Put => "set",
            StoreOp::Delete => "delete",
            StoreOp::DeletePrefix => "delete prefix",
        }
    }
}

impl Level {
    pub fn as_str(&self) -> (r: &'static str)
        ensures
            r@ == level_name(*self),
    {
        match self {
            Level::Trace => "TRACE",
            Level::Debug => "DEBUG",
            Level::Info => "INFO",
            Level::Warn => "WARN",
            Level::Error => "ERROR",
        }
    }
}

/// One thing that happened.
#[derive(Clone, Debug, PartialEq)]
pub enum Point {
    Action { message: &'static str },
    Send { actor: &'static str, message: &'static str },
    Handle { actor: &'static str, message: &'static str },
    Spawn { actor: &'static str, output: &'static str },
    Settled { actor: &'static str, output: &'static str },
    Cancelled { actor: &'static str, output: &'static str },
    Publish { event: &'static str, bus: Bus, subscribers: usize },
    Deliver { event: &'static str, bus: Bus },
    Push { reducer: &'static str },
    Navigate { to: String },
    Tick { timer: u64 },
    Store { op: StoreOp, path: String, field: Option<String>, outside: bool },
    Render { segment: &'static str },
    Log { level: Level, target: &'static str, text: String },
    Note(String),
}

/// A point with its id and what caused it.
#[derive(Clone, Debug, PartialEq)]
pub struct Record {
    pub id: Cause,
    pub parent: Option<Cause>,
    pub point: Point,
}

/// What an observer of the trace is told.
#[derive(Clone, Debug, PartialEq)]
pub enum Trace {
    /// A point that stays open until its [`Trace::End`].
    Begin(Record),
    /// A point that is over as soon as it happens.
    Mark(Record),
    End { id: Cause },
}

fn copy_text(text: &String) -> (r: String)
    ensures
        r == *text,
{
    text.clone()
}

/// The same point, as a value of its own.
pub fn copy_point(point: &Point) -> (r: Point)
    ensures
        r == *point,
{
    match point {
        Point::Action { message } => Point::Action { message },
        Point::Send { actor, message } => Point::Send { actor, message },
        Point::Handle { actor, message } => Point::Handle { actor, message },
        Point::Spawn { actor, output } => Point::Spawn { actor, output },
        Point::Settled { actor, output } => Point::Settled { actor, output },
        Point::Cancelled { actor, output } => Point::Cancelled { actor, output },
        Point::Publish { event, bus, subscribers } => Point::Publish {
            event,
            bus: *bus,
            subscribers: *subscribers,
        },
        Point::Deliver { event, bus } => Point::Deliver { event, bus: *bus },
        Point::Push { reducer } => Point::Push { reducer },
        Point::Navigate { to } => Point::Navigate { to: copy_text(to) },
        Point::Tick { timer } => Point::Tick { timer: *timer },
        Point::Store { op, path, field, outside } => {
            let field = match field {
                Some(name) => Some(copy_text(name)),
                None => None,
            };
            Point::Store { op: *op, path: copy_text(path), field, outside: *outside }
        },
        Point::Render { segment } => Point::Render { segment },
        Point::Log { level, target, text } => Point::Log {
            level: *level,
            target,
            text: copy_text(text),
        },
        Point::Note(note) => Point::Note(copy_text(note)),
    }
}

} // verus!
