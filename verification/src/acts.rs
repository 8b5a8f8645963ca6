//! What an action set off, as the trace tells it: a [`Recorder`] listens to
//! every point and can say, for any one of them, whether everything it caused
//! has finished, and what that was.

pub mod order;

use vstd::prelude::*;

use crate::text::{compare_text, sign, text_compare, tie_break};
use crate::text::same_text;
use crate::trace::{bus_name, copy_point, level_name, store_op_name, Cause, Point, Record, StoreOp, Trace};

use self::order::{
    field_compare, field_order, flag_rank, lemma_slot, lemma_sort, lemma_sorted_unique, place,
    shape_compare, slot, sort, step_compare, Field, ShapeView, StepView,
};

verus! {

/// One point of a [`Shape`]: what happened, with what differs from one run to
/// the next left out.
#[derive(Clone, Debug, PartialEq, Eq, PartialOrd, Ord)]
pub enum Step {
    Action { message: &'static str },
    Send { actor: &'static str, message: &'static str },
    Handle { actor: &'static str, message: &'static str },
    Spawn { actor: &'static str, output: &'static str },
    Settled { actor: &'static str, output: &'static str },
    Cancelled { actor: &'static str, output: &'static str },
    Publish { event: &'static str, bus: &'static str, subscribers: usize },
    Deliver { event: &'static str, bus: &'static str },
    Push { reducer: &'static str },
    Navigate { to: String },
    Tick,
    Store { op: &'static str, path: String, field: Option<String>, outside: bool },
    Render { segment: &'static str },
    Log { level: String, target: &'static str, text: String },
    Note(String),
}

pub open spec fn text_field(s: Seq<char>) -> Field {
    Field::Text(s)
}

pub open spec fn maybe_field(field: Option<String>) -> Field {
    Field::Maybe(
        match field {
            Some(name) => Some(name@),
            None => None,
        },
    )
}

impl View for Step {
    type V = StepView;

    open spec fn view(&self) -> StepView {
        match *self {
            Step::Action { message } => StepView { kind: 0, fields: seq![text_field(message@)] },
            Step::Send { actor, message } => StepView {
                kind: 1,
                fields: seq![text_field(actor@), text_field(message@)],
            },
            Step::Handle { actor, message } => StepView {
                kind: 2,
                fields: seq![text_field(actor@), text_field(message@)],
            },
            Step::Spawn { actor, output } => StepView {
                kind: 3,
                fields: seq![text_field(actor@), text_field(output@)],
            },
            Step::Settled { actor, output } => StepView {
                kind: 4,
                fields: seq![text_field(actor@), text_field(output@)],
            },
            Step::Cancelled { actor, output } => StepView {
                kind: 5,
                fields: seq![text_field(actor@), text_field(output@)],
            },
            Step::Publish { event, bus, subscribers } => StepView {
                kind: 6,
                fields: seq![text_field(event@), text_field(bus@), Field::Count(subscribers as int)],
            },
            Step::Deliver { event, bus } => StepView {
                kind: 7,
                fields: seq![text_field(event@), text_field(bus@)],
            },
            Step::Push { reducer } => StepView { kind: 8, fields: seq![text_field(reducer@)] },
            Step::Navigate { to } => StepView { kind: 9, fields: seq![text_field(to@)] },
            Step::Tick => StepView { kind: 10, fields: seq![] },
            Step::Store { op, path, field, outside } => StepView {
                kind: 11,
                fields: seq![
                    text_field(op@),
                    text_field(path@),
                    maybe_field(field),
                    Field::Flag(outside),
                ],
            },
            Step::Render { segment } => StepView { kind: 12, fields: seq![text_field(segment@)] },
            Step::Log { level, target, text } => StepView {
                kind: 13,
                fields: seq![text_field(level@), text_field(target@), text_field(text@)],
            },
            Step::Note(note) => StepView { kind: 14, fields: seq![text_field(note@)] },
        }
    }
}

/// The step a point becomes in a snapshot.
pub open spec fn point_step(point: Point) -> StepView {
    match point {
        Point::Action { message } => StepView { kind: 0, fields: seq![text_field(message@)] },
        Point::Send { actor, message } => StepView {
            kind: 1,
            fields: seq![text_field(actor@), text_field(message@)],
        },
        Point::Handle { actor, message } => StepView {
            kind: 2,
            fields: seq![text_field(actor@), text_field(message@)],
        },
        Point::Spawn { actor, output } => StepView {
            kind: 3,
            fields: seq![text_field(actor@), text_field(output@)],
        },
        Point::Settled { actor, output } => StepView {
            kind: 4,
            fields: seq![text_field(actor@), text_field(output@)],
        },
        Point::Cancelled { actor, output } => StepView {
            kind: 5,
            fields: seq![text_field(actor@), text_field(output@)],
        },
        Point::Publish { event, bus, subscribers } => StepView {
            kind: 6,
            fields: seq![
                text_field(event@),
                text_field(bus_name(bus)),
                Field::Count(subscribers as int),
            ],
        },
        Point::Deliver { event, bus } => StepView {
            kind: 7,
            fields: seq![text_field(event@), text_field(bus_name(bus))],
        },
        Point::Push { reducer } => StepView { kind: 8, fields: seq![text_field(reducer@)] },
        Point::Navigate { to } => StepView { kind: 9, fields: seq![text_field(to@)] },
        Point::Tick { .. } => StepView { kind: 10, fields: seq![] },
        Point::Store { op, path, field, outside } => StepView {
            kind: 11,
            fields: seq![
                text_field(store_op_name(op)),
                text_field(path@),
                maybe_field(field),
                Field::Flag(outside),
            ],
        },
        Point::Render { segment } => StepView { kind: 12, fields: seq![text_field(segment@)] },
        Point::Log { level, target, text } => StepView {
            kind: 13,
            fields: seq![text_field(level_name(level)), text_field(target@), text_field(text@)],
        },
        Point::Note(note) => StepView { kind: 14, fields: seq![text_field(note@)] },
    }
}

/// A store point's step names that point's own operation - a put as
/// `set`, a delete as `delete`, a delete under a prefix as `delete prefix` -
/// so two store points with different operations never share a step.
pub proof fn law_a_store_step_names_its_operation(a: Point, b: Point)
    requires
        a is Store,
        b is Store,
    ensures
        point_step(a).kind == 11,
        point_step(a).fields.len() == 4,
        point_step(a).fields[0] == text_field(match a->op {
            StoreOp::Put => seq!['s', 'e', 't'],
            StoreOp::Delete => seq!['d', 'e', 'l', 'e', 't', 'e'],
            StoreOp::DeletePrefix => seq!['d', 'e', 'l', 'e', 't', 'e', ' ', 'p', 'r', 'e', 'f', 'i', 'x'],
        }),
        a->op != b->op ==> point_step(a) != point_step(b),
{
    reveal_strlit("set");
    reveal_strlit("delete");
    reveal_strlit("delete prefix");
    assert("set"@ =~= seq!['s', 'e', 't']);
    assert("delete"@ =~= seq!['d', 'e', 'l', 'e', 't', 'e']);
    assert("delete prefix"@ =~= seq!['d', 'e', 'l', 'e', 't', 'e', ' ', 'p', 'r', 'e', 'f', 'i', 'x']);
    if a->op != b->op {
        assert(point_step(a).fields[0] != point_step(b).fields[0]) by {
            let x = store_op_name(a->op);
            let y = store_op_name(b->op);
            if x == y {
                if x.len() == y.len() {
                    assert(x[0] == y[0] && x[1] == y[1] && x[2] == y[2]);
                }
            }
        }
    }
}

fn copy_text(text: &String) -> (r: String)
    ensures
        r@ == text@,
{
    text.clone()
}

fn copy_maybe(field: &Option<String>) -> (r: Option<String>)
    ensures
        maybe_field(r) == maybe_field(*field),
{
    match field {
        Some(name) => Some(copy_text(name)),
        None => None,
    }
}

impl Step {
    /// What a point is in a snapshot: its ids, times, which instance of an
    /// actor and which timer left out.
    pub fn of(point: &Point) -> (r: Step)
        ensures
            r@ == point_step(*point),
    {
        match point {
            Point::Action { message } => Step::Action { message },
            Point::Send { actor, message } => Step::Send { actor, message },
            Point::Handle { actor, message } => Step::Handle { actor, message },
            Point::Spawn { actor, output } => Step::Spawn { actor, output },
            Point::Settled { actor, output } => Step::Settled { actor, output },
            Point::Cancelled { actor, output } => Step::Cancelled { actor, output },
            Point::Publish { event, bus, subscribers } => Step::Publish {
                event,
                bus: bus.name(),
                subscribers: *subscribers,
            },
            Point::Deliver { event, bus } => Step::Deliver { event, bus: bus.name() },
            Point::Push { reducer } => Step::Push { reducer },
            Point::Navigate { to } => Step::Navigate { to: copy_text(to) },
            Point::Tick { .. } => Step::Tick,
            Point::Store { op, path, field, outside } => Step::Store {
                op: op.name(),
                path: copy_text(path),
                field: copy_maybe(field),
                outside: *outside,
            },
            Point::Render { segment } => Step::Render { segment },
            Point::Log { level, target, text } => Step::Log {
                level: String::from_str(level.as_str()),
                target,
                text: copy_text(text),
            },
            Point::Note(note) => Step::Note(copy_text(note)),
        }
    }

    /// Which kind of step this is, in the order the kinds are declared.
    pub fn kind(&self) -> (r: u8)
        ensures
            r == self@.kind,
    {
        match self {
            Step::Action { .. } => 0,
            Step::Send { .. } => 1,
            Step::Handle { .. } => 2,
            Step::Spawn { .. } => 3,
            Step::Settled { .. } => 4,
            Step::Cancelled { .. } => 5,
            Step::Publish { .. } => 6,
            Step::Deliver { .. } => 7,
            Step::Push { .. } => 8,
            Step::Navigate { .. } => 9,
            Step::Tick => 10,
            Step::Store { .. } => 11,
            Step::Render { .. } => 12,
            Step::Log { .. } => 13,
            Step::Note(..) => 14,
        }
    }

    /// Compares two steps as the derived `Ord` does: `-1`, `0` or `1`.
    pub fn compare(&self, other: &Step) -> (r: i8)
        ensures
            r == step_compare(self@, other@),
    {
        let (mine, theirs) = (self.kind(), other.kind());
        if mine < theirs {
            return -1;
        }
        if mine > theirs {
            return 1;
        }
        let ghost a = self@.fields;
        let ghost b = other@.fields;
        match (self, other) {
            (Step::Action { message: x }, Step::Action { message: y }) => {
                let r = compare_text(x, y);
                proof { lemma_lex1(a[0], b[0]); }
                r
            },
            (Step::Send { actor: x0, message: x1 }, Step::Send { actor: y0, message: y1 })
            | (Step::Handle { actor: x0, message: x1 }, Step::Handle { actor: y0, message: y1 })
            | (Step::Spawn { actor: x0, output: x1 }, Step::Spawn { actor: y0, output: y1 })
            | (Step::Settled { actor: x0, output: x1 }, Step::Settled { actor: y0, output: y1 })
            | (Step::Cancelled { actor: x0, output: x1 }, Step::Cancelled { actor: y0, output: y1 })
            | (Step::Deliver { event: x0, bus: x1 }, Step::Deliver { event: y0, bus: y1 }) => {
                let r = tie(compare_text(x0, y0), compare_text(x1, y1));
                proof { lemma_lex2(a[0], a[1], b[0], b[1]); }
                r
            },
            (
                Step::Publish { event: x0, bus: x1, subscribers: x2 },
                Step::Publish { event: y0, bus: y1, subscribers: y2 },
            ) => {
                let r = tie(
                    compare_text(x0, y0),
                    tie(compare_text(x1, y1), compare_count(*x2, *y2)),
                );
                proof { lemma_lex3(a[0], a[1], a[2], b[0], b[1], b[2]); }
                r
            },
            (Step::Push { reducer: x }, Step::Push { reducer: y })
            | (Step::Render { segment: x }, Step::Render { segment: y }) => {
                let r = compare_text(x, y);
                proof { lemma_lex1(a[0], b[0]); }
                r
            },
            (Step::Navigate { to: x }, Step::Navigate { to: y })
            | (Step::Note(x), Step::Note(y)) => {
                let r = compare_text(x.as_str(), y.as_str());
                proof { lemma_lex1(a[0], b[0]); }
                r
            },
            (Step::Tick, Step::Tick) => 0,
            (
                Step::Store { op: x0, path: x1, field: x2, outside: x3 },
                Step::Store { op: y0, path: y1, field: y2, outside: y3 },
            ) => {
                let r = tie(
                    compare_text(x0, y0),
                    tie(
                        compare_text(x1.as_str(), y1.as_str()),
                        tie(compare_maybe(x2, y2), compare_flag(*x3, *y3)),
                    ),
                );
                proof { lemma_lex4(a[0], a[1], a[2], a[3], b[0], b[1], b[2], b[3]); }
                r
            },
            (
                Step::Log { level: x0, target: x1, text: x2 },
                Step::Log { level: y0, target: y1, text: y2 },
            ) => {
                let r = tie(
                    compare_text(x0.as_str(), y0.as_str()),
                    tie(compare_text(x1, y1), compare_text(x2.as_str(), y2.as_str())),
                );
                proof { lemma_lex3(a[0], a[1], a[2], b[0], b[1], b[2]); }
                r
            },
            _ => 0,
        }
    }
}

fn tie(first: i8, second: i8) -> (r: i8)
    ensures
        r == tie_break(first as int, second as int),
{
    if first != 0 {
        first
    } else {
        second
    }
}

fn compare_count(x: usize, y: usize) -> (r: i8)
    ensures
        r == sign(x - y),
{
    if x < y {
        -1
    } else if x > y {
        1
    } else {
        0
    }
}

fn compare_flag(x: bool, y: bool) -> (r: i8)
    ensures
        r == sign(flag_rank(x) - flag_rank(y)),
{
    if x == y {
        0
    } else if y {
        -1
    } else {
        1
    }
}

fn compare_maybe(x: &Option<String>, y: &Option<String>) -> (r: i8)
    ensures
        r == field_compare(maybe_field(*x), maybe_field(*y)),
{
    match (x, y) {
        (None, None) => 0,
        (None, Some(_)) => -1,
        (Some(_), None) => 1,
        (Some(p), Some(q)) => compare_text(p.as_str(), q.as_str()),
    }
}

proof fn lemma_lex1(a0: Field, b0: Field)
    ensures
        crate::text::lex(seq![a0], seq![b0], field_order()) == field_compare(a0, b0),
{
    let none = Seq::<Field>::empty();
    assert(seq![a0].drop_first() =~= none);
    assert(seq![b0].drop_first() =~= none);
    assert(crate::text::lex(none, none, field_order()) == 0);
    assert(field_order()(a0, b0) == field_compare(a0, b0));
}

proof fn lemma_lex2(a0: Field, a1: Field, b0: Field, b1: Field)
    ensures
        crate::text::lex(seq![a0, a1], seq![b0, b1], field_order()) == tie_break(
            field_compare(a0, b0),
            field_compare(a1, b1),
        ),
{
    assert(seq![a0, a1].drop_first() =~= seq![a1]);
    assert(seq![b0, b1].drop_first() =~= seq![b1]);
    lemma_lex1(a1, b1);
}

proof fn lemma_lex3(a0: Field, a1: Field, a2: Field, b0: Field, b1: Field, b2: Field)
    ensures
        crate::text::lex(seq![a0, a1, a2], seq![b0, b1, b2], field_order()) == tie_break(
            field_compare(a0, b0),
            tie_break(field_compare(a1, b1), field_compare(a2, b2)),
        ),
{
    assert(seq![a0, a1, a2].drop_first() =~= seq![a1, a2]);
    assert(seq![b0, b1, b2].drop_first() =~= seq![b1, b2]);
    lemma_lex2(a1, a2, b1, b2);
}

proof fn lemma_lex4(
    a0: Field,
    a1: Field,
    a2: Field,
    a3: Field,
    b0: Field,
    b1: Field,
    b2: Field,
    b3: Field,
)
    ensures
        crate::text::lex(seq![a0, a1, a2, a3], seq![b0, b1, b2, b3], field_order()) == tie_break(
            field_compare(a0, b0),
            tie_break(field_compare(a1, b1), tie_break(field_compare(a2, b2), field_compare(a3, b3))),
        ),
{
    assert(seq![a0, a1, a2, a3].drop_first() =~= seq![a1, a2, a3]);
    assert(seq![b0, b1, b2, b3].drop_first() =~= seq![b1, b2, b3]);
    lemma_lex3(a1, a2, a3, b1, b2, b3);
}

/// A [`Chain`] as a snapshot keeps it.
#[derive(Debug, PartialEq, Eq, PartialOrd, Ord)]
pub struct Shape {
    pub step: Step,
    pub caused: Vec<Shape>,
}

pub open spec fn shape_view(shape: Shape) -> ShapeView
    decreases shape,
{
    ShapeView { step: shape.step@, caused: shape_views(shape.caused@) }
}

pub open spec fn shape_views(shapes: Seq<Shape>) -> Seq<ShapeView>
    decreases shapes,
{
    if shapes.len() == 0 {
        Seq::empty()
    } else {
        shape_views(shapes.drop_last()).push(shape_view(shapes.last()))
    }
}

impl View for Shape {
    type V = ShapeView;

    open spec fn view(&self) -> ShapeView {
        shape_view(*self)
    }
}

pub proof fn lemma_shape_views(shapes: Seq<Shape>)
    ensures
        shape_views(shapes).len() == shapes.len(),
        forall|k: int| 0 <= k < shapes.len() ==> #[trigger] shape_views(shapes)[k] == shapes[k]@,
    decreases shapes.len(),
{
    if shapes.len() > 0 {
        lemma_shape_views(shapes.drop_last());
    }
}

/// The shape with the steps under every point sorted, at every depth.
pub open spec fn unordered_view(shape: ShapeView) -> ShapeView
    decreases shape,
{
    ShapeView { step: shape.step, caused: sort(unordered_all(shape.caused)) }
}

pub open spec fn unordered_all(shapes: Seq<ShapeView>) -> Seq<ShapeView>
    decreases shapes,
{
    if shapes.len() == 0 {
        shapes
    } else {
        unordered_all(shapes.drop_last()).push(unordered_view(shapes.last()))
    }
}

fn copy_step(step: &Step) -> (r: Step)
    ensures
        r@ == step@,
{
    match step {
        Step::Action { message } => Step::Action { message },
        Step::Send { actor, message } => Step::Send { actor, message },
        Step::Handle { actor, message } => Step::Handle { actor, message },
        Step::Spawn { actor, output } => Step::Spawn { actor, output },
        Step::Settled { actor, output } => Step::Settled { actor, output },
        Step::Cancelled { actor, output } => Step::Cancelled { actor, output },
        Step::Publish { event, bus, subscribers } => Step::Publish {
            event,
            bus,
            subscribers: *subscribers,
        },
        Step::Deliver { event, bus } => Step::Deliver { event, bus },
        Step::Push { reducer } => Step::Push { reducer },
        Step::Navigate { to } => Step::Navigate { to: copy_text(to) },
        Step::Tick => Step::Tick,
        Step::Store { op, path, field, outside } => Step::Store {
            op,
            path: copy_text(path),
            field: copy_maybe(field),
            outside: *outside,
        },
        Step::Render { segment } => Step::Render { segment },
        Step::Log { level, target, text } => Step::Log {
            level: copy_text(level),
            target,
            text: copy_text(text),
        },
        Step::Note(note) => Step::Note(copy_text(note)),
    }
}

impl Clone for Shape {
    fn clone(&self) -> (r: Shape)
        ensures
            r@ == self@,
        decreases self,
    {
        let mut caused: Vec<Shape> = Vec::new();
        let mut k: usize = 0;
        proof {
            lemma_shape_views(self.caused@);
        }
        while k < self.caused.len()
            invariant
                k <= self.caused.len(),
                shape_views(self.caused@).len() == self.caused.len(),
                forall|j: int| 0 <= j < self.caused.len() ==> #[trigger] shape_views(self.caused@)[j] == self.caused@[j]@,
                shape_views(caused@) == shape_views(self.caused@).take(k as int),
            decreases self.caused.len() - k,
        {
            assert(decreases_to!(*self => self.caused@[k as int]));
            let copy = self.caused[k].clone();
            let ghost before = caused@;
            caused.push(copy);
            proof {
                assert(caused@.drop_last() =~= before);
                assert(shape_views(self.caused@).take(k + 1) =~= shape_views(self.caused@).take(k as int).push(self.caused@[k as int]@));
            }
            k = k + 1;
        }
        proof {
            assert(shape_views(self.caused@).take(k as int) =~= shape_views(self.caused@));
        }
        Shape { step: copy_step(&self.step), caused }
    }
}

impl Shape {
    /// Compares two shapes as the derived `Ord` does: `-1`, `0` or `1`.
    pub fn compare(&self, other: &Shape) -> (r: i8)
        ensures
            r == shape_compare(self@, other@),
        decreases self,
    {
        let first = self.step.compare(&other.step);
        if first != 0 {
            return first;
        }
        let ghost xs = self@.caused;
        let ghost ys = other@.caused;
        proof {
            lemma_shape_views(self.caused@);
            lemma_shape_views(other.caused@);
            assert(xs.skip(0) =~= xs);
            assert(ys.skip(0) =~= ys);
        }
        let mut k: usize = 0;
        while k < self.caused.len() && k < other.caused.len()
            invariant
                xs == shape_views(self.caused@),
                ys == shape_views(other.caused@),
                xs.len() == self.caused.len(),
                ys.len() == other.caused.len(),
                forall|j: int| 0 <= j < self.caused.len() ==> #[trigger] xs[j] == self.caused@[j]@,
                forall|j: int| 0 <= j < other.caused.len() ==> #[trigger] ys[j] == other.caused@[j]@,
                k <= self.caused.len(),
                k <= other.caused.len(),
                shape_compare(self@, other@) == order::forest_compare(xs.skip(k as int), ys.skip(k as int)),
            decreases self.caused.len() - k,
        {
            assert(decreases_to!(*self => self.caused@[k as int]));
            let c = self.caused[k].compare(&other.caused[k]);
            proof {
                assert(xs.skip(k as int)[0] == xs[k as int]);
                assert(ys.skip(k as int)[0] == ys[k as int]);
                assert(xs.skip(k as int).drop_first() =~= xs.skip(k + 1));
                assert(ys.skip(k as int).drop_first() =~= ys.skip(k + 1));
            }
            if c != 0 {
                return c;
            }
            k = k + 1;
        }
        if self.caused.len() == other.caused.len() {
            0
        } else if k == self.caused.len() {
            -1
        } else {
            1
        }
    }

    /// The same shape with the steps under every point sorted, so that work
    /// that ran side by side compares equal whichever went first.
    pub fn unordered(self) -> (r: Shape)
        ensures
            r@ == unordered_view(self@),
        decreases self@,
    {
        let ghost whole = self;
        let Shape { step, caused } = self;
        let ghost children = caused@;
        proof {
            lemma_shape_views(children);
        }
        let mut rest = caused;
        let mut sorted_so_far: Vec<Shape> = Vec::new();
        let mut k: usize = 0;
        while rest.len() > 0
            invariant
                children == whole.caused@,
                whole == self,
                whole@ == shape_view(whole),
                children.len() == whole.caused.len(),
                shape_views(children).len() == children.len(),
                forall|j: int| 0 <= j < children.len() ==> #[trigger] shape_views(children)[j] == children[j]@,
                k <= children.len(),
                rest@ == children.skip(k as int),
                shape_views(sorted_so_far@) == sort(unordered_all(shape_views(children).take(k as int))),
            decreases rest.len(),
        {
            let child = rest.remove(0);
            proof {
                assert(child == children[k as int]);
                assert(whole@.caused == shape_views(children));
                assert(whole@.caused[k as int] == child@);
                assert(decreases_to!(whole@ => whole@.caused));
                assert(decreases_to!(whole@.caused => whole@.caused[k as int]));
                assert(decreases_to!(whole@ => child@));
            }
            let tidy = child.unordered();
            let ghost before = shape_views(sorted_so_far@);
            let ghost x = tidy@;
            proof {
                lemma_shape_views(sorted_so_far@);
                assert(before.skip(0) =~= before);
            }
            let mut at: usize = 0;
            while at < sorted_so_far.len() && tidy.compare(&sorted_so_far[at]) >= 0
                invariant
                    before == shape_views(sorted_so_far@),
                    before.len() == sorted_so_far.len(),
                    forall|j: int| 0 <= j < sorted_so_far.len() ==> #[trigger] before[j] == sorted_so_far@[j]@,
                    x == tidy@,
                    at <= sorted_so_far.len(),
                    slot(x, before) == at + slot(x, before.skip(at as int)),
                decreases sorted_so_far.len() - at,
            {
                proof {
                    assert(before.skip(at as int)[0] == before[at as int]);
                    assert(before.skip(at as int).drop_first() =~= before.skip(at + 1));
                }
                at = at + 1;
            }
            proof {
                if at < sorted_so_far.len() {
                    assert(before.skip(at as int)[0] == before[at as int]);
                }
                assert(slot(x, before) == at);
            }
            sorted_so_far.insert(at, tidy);
            proof {
                lemma_shape_views(sorted_so_far@);
                assert(shape_views(sorted_so_far@) =~= place(x, before));
                let taken = shape_views(children).take(k + 1);
                assert(taken.drop_last() =~= shape_views(children).take(k as int));
                assert(taken.last() == children[k as int]@);
                assert(unordered_all(taken).drop_last() =~= unordered_all(taken.drop_last()));
                assert(rest@ =~= children.skip(k + 1));
            }
            k = k + 1;
        }
        proof {
            assert(shape_views(children).take(k as int) =~= shape_views(children));
        }
        Shape { step, caused: sorted_so_far }
    }
}

/// Work that ran side by side compares equal in either order: two shapes
/// with the same step, whose children unorder to the same shapes in whatever
/// order, unorder to one and the same shape.
pub proof fn law_unordered_forgets_order(a: ShapeView, b: ShapeView)
    requires
        a.step == b.step,
        unordered_all(a.caused).to_multiset() == unordered_all(b.caused).to_multiset(),
    ensures
        unordered_view(a) == unordered_view(b),
{
    lemma_sort(unordered_all(a.caused));
    lemma_sort(unordered_all(b.caused));
    lemma_sorted_unique(sort(unordered_all(a.caused)), sort(unordered_all(b.caused)));
}

proof fn lemma_unordered_all_map(shapes: Seq<ShapeView>)
    ensures
        unordered_all(shapes) == shapes.map_values(|s: ShapeView| unordered_view(s)),
    decreases shapes.len(),
{
    if shapes.len() > 0 {
        lemma_unordered_all_map(shapes.drop_last());
        assert(shapes.map_values(|s: ShapeView| unordered_view(s)).drop_last() =~= shapes.drop_last().map_values(|s: ShapeView| unordered_view(s)));
        assert(unordered_all(shapes) =~= shapes.map_values(|s: ShapeView| unordered_view(s)));
    }
}

proof fn lemma_map_keeps_multiset(xs: Seq<ShapeView>, ys: Seq<ShapeView>)
    requires
        xs.to_multiset() == ys.to_multiset(),
    ensures
        xs.map_values(|s: ShapeView| unordered_view(s)).to_multiset() == ys.map_values(
            |s: ShapeView| unordered_view(s),
        ).to_multiset(),
    decreases xs.len(),
{
    let f = |s: ShapeView| unordered_view(s);
    vstd::seq_lib::to_multiset_len(xs);
    vstd::seq_lib::to_multiset_len(ys);
    if xs.len() == 0 {
        assert(xs.map_values(f) =~= ys.map_values(f));
    } else {
        let x = xs.last();
        let rest = xs.drop_last();
        assert(xs =~= rest.push(x));
        vstd::seq_lib::to_multiset_build(rest, x);
        vstd::seq_lib::to_multiset_contains(ys, x);
        let j = choose|j: int| 0 <= j < ys.len() && ys[j] == x;
        let others = ys.remove(j);
        vstd::seq_lib::to_multiset_remove(ys, j);
        assert(rest.to_multiset() =~= xs.to_multiset().remove(x));
        lemma_map_keeps_multiset(rest, others);
        assert(xs.map_values(f) =~= rest.map_values(f).push(f(x)));
        vstd::seq_lib::to_multiset_build(rest.map_values(f), f(x));
        assert(ys.map_values(f) =~= others.map_values(f).insert(j, f(x)));
        vstd::seq_lib::to_multiset_insert(others.map_values(f), j, f(x));
    }
}

/// Children that are the same shapes in another order unorder to the same
/// shape.
pub proof fn law_unordered_ignores_sibling_order(a: ShapeView, b: ShapeView)
    requires
        a.step == b.step,
        a.caused.to_multiset() == b.caused.to_multiset(),
    ensures
        unordered_view(a) == unordered_view(b),
{
    lemma_unordered_all_map(a.caused);
    lemma_unordered_all_map(b.caused);
    lemma_map_keeps_multiset(a.caused, b.caused);
    law_unordered_forgets_order(a, b);
}

/// Unordering a shape that is already unordered changes nothing: the steps
/// under every point are sorted already, at every depth.
pub proof fn law_unordering_twice_changes_nothing(s: ShapeView)
    ensures
        unordered_view(unordered_view(s)) == unordered_view(s),
    decreases s,
{
    let c = unordered_all(s.caused);
    lemma_unordered_all_map(s.caused);
    assert forall|i: int| 0 <= i < c.len() implies unordered_view(#[trigger] c[i]) == c[i] by {
        assert(decreases_to!(s => s.caused));
        assert(decreases_to!(s.caused => s.caused[i]));
        law_unordering_twice_changes_nothing(s.caused[i]);
    }
    let sc = sort(c);
    lemma_sort(c);
    lemma_unordered_all_map(sc);
    assert forall|i: int| 0 <= i < sc.len() implies unordered_view(#[trigger] sc[i]) == sc[i] by {
        vstd::seq_lib::to_multiset_contains(sc, sc[i]);
        vstd::seq_lib::to_multiset_contains(c, sc[i]);
        let j = choose|j: int| 0 <= j < c.len() && c[j] == sc[i];
        assert(unordered_view(c[j]) == c[j]);
    }
    assert(unordered_all(sc) =~= sc);
    lemma_sort(sc);
    lemma_sorted_unique(sort(sc), sc);
}

/// A point and everything it caused, in the order it happened.
#[derive(Debug, PartialEq)]
pub struct Chain {
    pub point: Point,
    pub caused: Vec<Chain>,
}

/// The points of `chains`, each one first and then what it caused, depth
/// first.
pub open spec fn flat(chains: Seq<Chain>) -> Seq<Point>
    decreases chains,
{
    if chains.len() == 0 {
        Seq::empty()
    } else {
        flat(chains.drop_last()) + seq![chains.last().point] + flat(chains.last().caused@)
    }
}

/// Every point in `chain`, its own first, depth first.
pub open spec fn chain_points(chain: Chain) -> Seq<Point> {
    seq![chain.point] + flat(chain.caused@)
}

/// Whether some point of `chain` is one `said` holds of.
pub open spec fn chain_has(chain: Chain, said: spec_fn(Point) -> bool) -> bool {
    exists|i: int| 0 <= i < chain_points(chain).len() && said(#[trigger] chain_points(chain)[i])
}

pub open spec fn publishes(event: Seq<char>) -> spec_fn(Point) -> bool {
    |point: Point| point matches Point::Publish { event: said, .. } && said@ == event
}

pub open spec fn handles(message: Seq<char>) -> spec_fn(Point) -> bool {
    |point: Point| point matches Point::Handle { message: said, .. } && said@ == message
}

pub open spec fn pushes(reducer: Seq<char>) -> spec_fn(Point) -> bool {
    |point: Point| point matches Point::Push { reducer: said } && said@ == reducer
}

pub open spec fn cancels() -> spec_fn(Point) -> bool {
    |point: Point| point is Cancelled
}

/// The shape of a chain: each point's step, over the shapes of what it caused.
pub open spec fn chain_shape(chain: Chain) -> ShapeView
    decreases chain,
{
    ShapeView { step: point_step(chain.point), caused: chain_shapes(chain.caused@) }
}

pub open spec fn chain_shapes(chains: Seq<Chain>) -> Seq<ShapeView>
    decreases chains,
{
    if chains.len() == 0 {
        Seq::empty()
    } else {
        chain_shapes(chains.drop_last()).push(chain_shape(chains.last()))
    }
}

/// Whether two points are the same but for which timer ticked.
pub open spec fn alike_points(p: Point, q: Point) -> bool {
    p == q || (p is Tick && q is Tick)
}

/// Whether two chains are the same run but for which timers ticked: alike
/// points, each causing alike chains in the same order.
pub open spec fn alike_chains(a: Chain, b: Chain) -> bool
    decreases a,
{
    alike_points(a.point, b.point) && alike_lists(a.caused@, b.caused@)
}

/// Whether two lists of chains are alike, one for one.
pub open spec fn alike_lists(xs: Seq<Chain>, ys: Seq<Chain>) -> bool
    decreases xs,
{
    &&& xs.len() == ys.len()
    &&& (xs.len() == 0 || (alike_lists(xs.drop_last(), ys.drop_last()) && alike_chains(xs.last(), ys.last())))
}

/// A snapshot compares equal from run to run: two chains that differ only
/// in which timers ticked have the same shape.
pub proof fn law_shape_forgets_timers(a: Chain, b: Chain)
    requires
        alike_chains(a, b),
    ensures
        chain_shape(a) == chain_shape(b),
    decreases a,
{
    assert(decreases_to!(a => a.caused@));
    lemma_alike_shapes(a.caused@, b.caused@);
}

proof fn lemma_alike_shapes(xs: Seq<Chain>, ys: Seq<Chain>)
    requires
        alike_lists(xs, ys),
    ensures
        chain_shapes(xs) == chain_shapes(ys),
    decreases xs,
{
    if xs.len() > 0 {
        lemma_alike_shapes(xs.drop_last(), ys.drop_last());
        law_shape_forgets_timers(xs.last(), ys.last());
    }
}

/// Which kind of point, when only the kind is asked.
enum Looked {
    Publish,
    Handle,
    Push,
    Cancelled,
}

spec fn looked_for(looked: Looked, name: Seq<char>) -> spec_fn(Point) -> bool {
    match looked {
        Looked::Publish => publishes(name),
        Looked::Handle => handles(name),
        Looked::Push => pushes(name),
        Looked::Cancelled => cancels(),
    }
}

fn is_looked_for(point: &Point, looked: &Looked, name: &str) -> (r: bool)
    ensures
        r == looked_for(*looked, name@)(*point),
{
    match (looked, point) {
        (Looked::Publish, Point::Publish { event, .. }) => same_text(event, name),
        (Looked::Handle, Point::Handle { message, .. }) => same_text(message, name),
        (Looked::Push, Point::Push { reducer }) => same_text(reducer, name),
        (Looked::Cancelled, Point::Cancelled { .. }) => true,
        _ => false,
    }
}

impl Clone for Chain {
    fn clone(&self) -> (r: Chain)
        ensures
            r.point == self.point,
            chain_shape(r) == chain_shape(*self),
            chain_points(r) == chain_points(*self),
        decreases self,
    {
        let mut caused: Vec<Chain> = Vec::new();
        let mut k: usize = 0;
        while k < self.caused.len()
            invariant
                k <= self.caused.len(),
                chain_shapes(caused@) == chain_shapes(self.caused@.take(k as int)),
                flat(caused@) == flat(self.caused@.take(k as int)),
            decreases self.caused.len() - k,
        {
            assert(decreases_to!(*self => self.caused@[k as int]));
            let copy = self.caused[k].clone();
            let ghost before = caused@;
            proof {
                let child = self.caused@[k as int];
                assert(flat(copy.caused@) =~= chain_points(copy).skip(1));
                assert(flat(child.caused@) =~= chain_points(child).skip(1));
            }
            caused.push(copy);
            proof {
                assert(caused@.drop_last() =~= before);
                let taken = self.caused@.take(k + 1);
                assert(taken.drop_last() =~= self.caused@.take(k as int));
            }
            k = k + 1;
        }
        proof {
            assert(self.caused@.take(k as int) =~= self.caused@);
        }
        Chain { point: copy_point(&self.point), caused }
    }
}

impl Chain {
    /// Every point in the chain, this one first, depth first.
    pub fn points(&self) -> (r: Vec<&Point>)
        ensures
            r@.map_values(|p: &Point| *p) == chain_points(*self),
        decreases self,
    {
        let mut points: Vec<&Point> = Vec::new();
        points.push(&self.point);
        let mut k: usize = 0;
        while k < self.caused.len()
            invariant
                k <= self.caused.len(),
                points@.map_values(|p: &Point| *p) == seq![self.point] + flat(
                    self.caused@.take(k as int),
                ),
            decreases self.caused.len() - k,
        {
            let next = &self.caused[k];
            assert(decreases_to!(*self => self.caused@[k as int]));
            let mut more = next.points();
            let ghost before = points@;
            let ghost added = more@;
            points.append(&mut more);
            proof {
                let taken = self.caused@.take(k + 1);
                assert(taken.drop_last() =~= self.caused@.take(k as int));
                assert(taken.last() == *next);
                assert(points@ =~= before + added);
                assert((before + added).map_values(|p: &Point| *p) =~= before.map_values(
                    |p: &Point| *p,
                ) + added.map_values(|p: &Point| *p));
            }
            k = k + 1;
        }
        assert(self.caused@.take(k as int) =~= self.caused@);
        points
    }

    /// Whether `test` holds of some point in the chain.
    pub fn has(&self, test: impl Fn(&Point) -> bool) -> (r: bool)
        requires
            forall|p: &Point| test.requires((p,)),
        ensures
            r ==> exists|i: int|
                0 <= i < chain_points(*self).len() && test.ensures(
                    (&chain_points(*self)[i],),
                    true,
                ),
            !r ==> forall|i: int|
                0 <= i < chain_points(*self).len() ==> test.ensures(
                    (&chain_points(*self)[i],),
                    false,
                ),
    {
        let points = self.points();
        let ghost all = points@.map_values(|p: &Point| *p);
        let mut k: usize = 0;
        while k < points.len()
            invariant
                all == chain_points(*self),
                all == points@.map_values(|p: &Point| *p),
                k <= points.len(),
                forall|p: &Point| test.requires((p,)),
                forall|i: int| 0 <= i < k ==> test.ensures((&all[i],), false),
            decreases points.len() - k,
        {
            let found = test(points[k]);
            proof {
                assert(all[k as int] == *points@[k as int]);
            }
            if found {
                return true;
            }
            k = k + 1;
        }
        false
    }

    fn finds(&self, looked: &Looked, name: &str) -> (r: bool)
        ensures
            r == chain_has(*self, looked_for(*looked, name@)),
    {
        let points = self.points();
        let ghost all = points@.map_values(|p: &Point| *p);
        let mut k: usize = 0;
        while k < points.len()
            invariant
                all == chain_points(*self),
                all == points@.map_values(|p: &Point| *p),
                k <= points.len(),
                forall|i: int| 0 <= i < k ==> !looked_for(*looked, name@)(#[trigger] all[i]),
            decreases points.len() - k,
        {
            let found = is_looked_for(points[k], looked, name);
            proof {
                assert(all[k as int] == *points@[k as int]);
            }
            if found {
                return true;
            }
            k = k + 1;
        }
        false
    }

    /// Whether an event named `event` was published somewhere in it.
    pub fn published_as(&self, event: &str) -> (r: bool)
        ensures
            r == chain_has(*self, publishes(event@)),
    {
        self.finds(&Looked::Publish, event)
    }

    /// Whether some actor handled a message named `message` somewhere in it.
    pub fn handled_as(&self, message: &str) -> (r: bool)
        ensures
            r == chain_has(*self, handles(message@)),
    {
        self.finds(&Looked::Handle, message)
    }

    /// Whether the reducer named `reducer` was updated somewhere in it.
    pub fn pushed_as(&self, reducer: &str) -> (r: bool)
        ensures
            r == chain_has(*self, pushes(reducer@)),
    {
        self.finds(&Looked::Push, reducer)
    }

    /// Whether a task it spawned was cancelled rather than answering.
    pub fn cancelled(&self) -> (r: bool)
        ensures
            r == chain_has(*self, cancels()),
    {
        self.finds(&Looked::Cancelled, "")
    }

    /// What happened and in what shape, with what differs from one run to the
    /// next left out: ids, times, which instance of an actor, which timer.
    ///
    /// Steps that ran side by side stay in the order they ran;
    /// [`Shape::unordered`] takes that order out.
    pub fn shape(&self) -> (r: Shape)
        ensures
            r@ == chain_shape(*self),
        decreases self,
    {
        let mut caused: Vec<Shape> = Vec::new();
        let mut k: usize = 0;
        while k < self.caused.len()
            invariant
                k <= self.caused.len(),
                shape_views(caused@) == chain_shapes(self.caused@.take(k as int)),
            decreases self.caused.len() - k,
        {
            assert(decreases_to!(*self => self.caused@[k as int]));
            let next = self.caused[k].shape();
            let ghost before = caused@;
            caused.push(next);
            proof {
                assert(caused@.drop_last() =~= before);
                let taken = self.caused@.take(k + 1);
                assert(taken.drop_last() =~= self.caused@.take(k as int));
            }
            k = k + 1;
        }
        assert(self.caused@.take(k as int) =~= self.caused@);
        Shape { step: Step::of(&self.point), caused }
    }
}

/// What a [`Recorder`] has heard: the points in the order they came, what
/// caused each, and which are still open.
pub struct Heard {
    pub order: Seq<Cause>,
    pub parents: Seq<Option<Cause>>,
    pub points: Seq<Point>,
    pub open: Set<Cause>,
}

impl Heard {
    /// Every point was heard once, and anything recorded under a heard point
    /// came after it.
    pub open spec fn wf(self) -> bool {
        &&& self.parents.len() == self.order.len()
        &&& self.points.len() == self.order.len()
        &&& forall|i: int, j: int|
            0 <= i < j < self.order.len() ==> #[trigger] self.order[i] != #[trigger] self.order[j]
        &&& forall|i: int, j: int|
            0 <= i < self.order.len() && 0 <= j < self.order.len() && #[trigger] self.parents[i]
                == Some(#[trigger] self.order[j]) ==> j < i
    }

    /// `id` names no point heard so far, and nothing was recorded under it:
    /// what the trace promises of a point it has not told yet.
    pub open spec fn fresh(self, id: Cause) -> bool {
        &&& !self.order.contains(id)
        &&& forall|i: int| 0 <= i < self.parents.len() ==> self.parents[i] != Some(id)
    }

    /// What the trace promises of a point it tells: its id is fresh, and it
    /// is not its own cause.
    pub open spec fn accepts(self, trace: Trace) -> bool {
        match trace {
            Trace::Begin(record) => self.fresh(record.id) && record.parent != Some(record.id),
            Trace::Mark(record) => self.fresh(record.id) && record.parent != Some(record.id),
            Trace::End { .. } => true,
        }
    }

    pub open spec fn noted(self, record: Record) -> Heard {
        Heard {
            order: self.order.push(record.id),
            parents: self.parents.push(record.parent),
            points: self.points.push(record.point),
            open: self.open,
        }
    }

    /// What is heard once `trace` is.
    pub open spec fn after(self, trace: Trace) -> Heard {
        match trace {
            Trace::Begin(record) => Heard {
                open: self.open.insert(record.id),
                ..self.noted(record)
            },
            Trace::Mark(record) => self.noted(record),
            Trace::End { id } => Heard { open: self.open.remove(id), ..self },
        }
    }

    /// Some point recorded under `spawn` says the task settled or was
    /// cancelled.
    pub open spec fn ended(self, spawn: Cause) -> bool {
        exists|j: int|
            0 <= j < self.order.len() && #[trigger] self.parents[j] == Some(spawn) && (
            self.points[j] is Settled || self.points[j] is Cancelled)
    }

    /// The point heard `i`-th is closed, ended if it spawned a task, and so is
    /// everything under it.
    pub open spec fn settled_at(self, i: int) -> bool
        decreases self.order.len() - i, self.order.len() + 1 - i,
    {
        if 0 <= i < self.order.len() {
            &&& !self.open.contains(self.order[i])
            &&& (self.points[i] is Spawn ==> self.ended(self.order[i]))
            &&& self.settled_from(i, i + 1)
        } else {
            true
        }
    }

    /// Every point from the `j`-th on that was recorded under the `i`-th is
    /// settled.
    pub open spec fn settled_from(self, i: int, j: int) -> bool
        decreases self.order.len() - i, self.order.len() - j,
    {
        if 0 <= i < j < self.order.len() {
            &&& (self.parents[j] == Some(self.order[i]) ==> self.settled_at(j))
            &&& self.settled_from(i, j + 1)
        } else {
            true
        }
    }

    /// Whether everything `cause` set off has finished: no point under it is
    /// still open, and every task it spawned has settled or been cancelled.
    pub open spec fn settled(self, cause: Cause) -> bool {
        &&& !self.open.contains(cause)
        &&& forall|i: int|
            0 <= i < self.order.len() && self.order[i] == cause && self.points[i] is Spawn
                ==> self.ended(cause)
        &&& forall|j: int|
            0 <= j < self.order.len() && self.parents[j] == Some(cause)
                ==> #[trigger] self.settled_at(j)
    }

    /// The indices, below `n`, of the points recorded under `cause`.
    pub open spec fn kids(self, cause: Cause, n: int) -> Seq<int>
        decreases n,
    {
        if n <= 0 {
            Seq::empty()
        } else if self.parents[n - 1] == Some(cause) {
            self.kids(cause, n - 1).push(n - 1)
        } else {
            self.kids(cause, n - 1)
        }
    }

    /// `chain` is the point heard `i`-th, over the chains of what it caused.
    pub open spec fn grown_at(self, i: int, chain: Chain) -> bool
        decreases self.order.len() - i, self.order.len() + 1,
    {
        if 0 <= i < self.order.len() {
            let kids = self.kids(self.order[i], self.order.len() as int);
            proof {
                lemma_kids_len(self, self.order[i], self.order.len() as int);
            }
            &&& chain.point == self.points[i]
            &&& self.grown_list(i, kids, chain.caused@)
        } else {
            false
        }
    }

    /// `chains` are, one for one, the chains of the points heard at `kids`,
    /// each of them after the `i`-th.
    pub open spec fn grown_list(self, i: int, kids: Seq<int>, chains: Seq<Chain>) -> bool
        decreases self.order.len() - i, kids.len(),
    {
        if kids.len() == 0 {
            chains.len() == 0
        } else if chains.len() == kids.len() && i < kids.last() < self.order.len() {
            &&& self.grown_at(kids.last(), chains.last())
            &&& self.grown_list(i, kids.drop_last(), chains.drop_last())
        } else {
            false
        }
    }

    /// `chain` is what `cause` set off: its point - an empty note, if it was
    /// never heard - over the chains of what it caused, in the order heard.
    pub open spec fn grown(self, cause: Cause, chain: Chain) -> bool {
        &&& (if self.order.contains(cause) {
            exists|i: int| 0 <= i < self.order.len() && self.order[i] == cause && chain.point == self.points[i]
        } else {
            chain.point matches Point::Note(note) && note@.len() == 0
        })
        &&& self.grown_list(-1, self.kids(cause, self.order.len() as int), chain.caused@)
    }
}

pub proof fn lemma_kids_len(heard: Heard, cause: Cause, n: int)
    ensures
        heard.kids(cause, n).len() <= if n < 0 { 0 } else { n },
    decreases n,
{
    if n > 0 {
        lemma_kids_len(heard, cause, n - 1);
    }
}

pub proof fn lemma_kids(heard: Heard, cause: Cause, n: int)
    requires
        0 <= n <= heard.order.len(),
        heard.parents.len() == heard.order.len(),
    ensures
        forall|k: int| 0 <= k < heard.kids(cause, n).len() ==> 0 <= #[trigger] heard.kids(cause, n)[k] < n
            && heard.parents[heard.kids(cause, n)[k]] == Some(cause),
        forall|k: int, l: int| 0 <= k < l < heard.kids(cause, n).len() ==> #[trigger] heard.kids(cause, n)[k] < #[trigger] heard.kids(cause, n)[l],
    decreases n,
{
    if n > 0 {
        lemma_kids(heard, cause, n - 1);
    }
}

proof fn lemma_push_to_set(ids: Seq<Cause>, id: Cause)
    ensures
        ids.push(id).to_set() == ids.to_set().insert(id),
{
    assert forall|x: Cause| ids.push(id).contains(x) <==> (ids.contains(x) || x == id) by {
        if ids.push(id).contains(x) && x != id {
            let w = choose|w: int| 0 <= w < ids.len() + 1 && ids.push(id)[w] == x;
            assert(ids[w] == x);
        }
        if ids.contains(x) {
            let w = choose|w: int| 0 <= w < ids.len() && ids[w] == x;
            assert(ids.push(id)[w] == x);
        }
        if x == id {
            assert(ids.push(id)[ids.len() as int] == x);
        }
    }
    assert forall|x: Cause| #[trigger] ids.push(id).to_set().contains(x) == ids.to_set().insert(id).contains(x) by {
        assert(ids.push(id).contains(x) <==> (ids.contains(x) || x == id));
    }
    assert(ids.push(id).to_set() =~= ids.to_set().insert(id));
}

/// Every point heard, for as long as it is held.
pub struct Recorder {
    order: Vec<Cause>,
    parents: Vec<Option<Cause>>,
    points: Vec<Point>,
    open: Vec<Cause>,
}

impl View for Recorder {
    type V = Heard;

    open spec fn view(&self) -> Heard {
        self.heard_so_far()
    }
}

impl Recorder {
    /// What has been heard so far.
    pub closed spec fn heard_so_far(&self) -> Heard {
        Heard {
            order: self.order@,
            parents: self.parents@,
            points: self.points@,
            open: self.open@.to_set(),
        }
    }
}

fn holds(ids: &Vec<Cause>, id: Cause) -> (r: bool)
    ensures
        r == ids@.contains(id),
{
    let mut k: usize = 0;
    while k < ids.len()
        invariant
            k <= ids.len(),
            forall|i: int| 0 <= i < k ==> ids@[i] != id,
        decreases ids.len() - k,
    {
        if ids[k] == id {
            return true;
        }
        k = k + 1;
    }
    false
}

fn is_under(parent: Option<Cause>, cause: Cause) -> (r: bool)
    ensures
        r == (parent == Some(cause)),
{
    match parent {
        Some(p) => p == cause,
        None => false,
    }
}

impl Recorder {
    pub open spec fn wf(&self) -> bool {
        self@.wf()
    }

    proof fn lemma_view(&self)
        ensures
            self@.order == self.order@,
            self@.parents == self.parents@,
            self@.points == self.points@,
            self@.open == self.open@.to_set(),
            self@.order.len() == self.order.len(),
            self@.parents.len() == self.parents.len(),
            self@.points.len() == self.points.len(),
    {
    }

    pub fn new() -> (r: Recorder)
        ensures
            r.wf(),
            r@.order.len() == 0,
            r@.open.is_empty(),
    {
        let r = Recorder { order: Vec::new(), parents: Vec::new(), points: Vec::new(), open: Vec::new() };
        proof {
            assert(r@.open =~= Set::<Cause>::empty());
        }
        r
    }

    /// Takes in one thing the trace told.
    pub fn hear(&mut self, trace: &Trace)
        requires
            old(self).wf(),
            old(self)@.accepts(*trace),
        ensures
            final(self).wf(),
            final(self)@ == old(self)@.after(*trace),
    {
        match trace {
            Trace::Begin(record) => {
                let ghost before = self.open@;
                self.open.push(record.id);
                proof {
                    lemma_push_to_set(before, record.id);
                }
                self.note(record);
            },
            Trace::Mark(record) => {
                self.note(record);
            },
            Trace::End { id } => {
                let mut kept: Vec<Cause> = Vec::new();
                let mut k: usize = 0;
                while k < self.open.len()
                    invariant
                        k <= self.open.len(),
                        forall|x: Cause| #[trigger] kept@.contains(x) <==> (self.open@.take(k as int).contains(x) && x != *id),
                    decreases self.open.len() - k,
                {
                    let c = self.open[k];
                    let ghost before = kept@;
                    if c != *id {
                        kept.push(c);
                    }
                    proof {
                        let taken = self.open@.take(k + 1);
                        assert(taken =~= self.open@.take(k as int).push(c));
                        assert forall|x: Cause| #[trigger] kept@.contains(x) <==> (taken.contains(x) && x != *id) by {
                            if c != *id {
                                assert(kept@ =~= before.push(c));
                                if kept@.contains(x) && x != c {
                                    let w = choose|w: int| 0 <= w < kept@.len() && kept@[w] == x;
                                    assert(before[w] == x);
                                }
                                if before.contains(x) {
                                    let w = choose|w: int| 0 <= w < before.len() && before[w] == x;
                                    assert(kept@[w] == x);
                                }
                                if x == c {
                                    assert(kept@[kept@.len() - 1] == x);
                                }
                            }
                            if taken.contains(x) {
                                let w = choose|w: int| 0 <= w < taken.len() && taken[w] == x;
                                if w < k {
                                    assert(self.open@.take(k as int)[w] == x);
                                }
                            }
                            if self.open@.take(k as int).contains(x) {
                                let w = choose|w: int| 0 <= w < k && self.open@.take(k as int)[w] == x;
                                assert(taken[w] == x);
                            }
                            if x == c {
                                assert(taken[k as int] == x);
                            }
                        }
                    }
                    k = k + 1;
                }
                proof {
                    assert(self.open@.take(k as int) =~= self.open@);
                }
                self.open = kept;
                proof {
                    assert(self@.open =~= old(self)@.open.remove(*id));
                }
            },
        }
    }

    fn note(&mut self, record: &Record)
        requires
            old(self).wf(),
            old(self)@.fresh(record.id),
            record.parent != Some(record.id),
        ensures
            final(self).wf(),
            final(self)@ == (Heard { open: final(self)@.open, ..old(self)@.noted(*record) }),
            final(self).open@ == old(self).open@,
    {
        self.order.push(record.id);
        self.parents.push(record.parent);
        self.points.push(copy_point(&record.point));
        proof {
            let h = self@;
            let o = old(self)@;
            assert forall|i: int, j: int| 0 <= i < j < h.order.len() implies #[trigger] h.order[i] != #[trigger] h.order[j] by {
                if j == h.order.len() - 1 {
                    assert(o.order[i] == h.order[i]);
                }
            }
            assert forall|i: int, j: int| 0 <= i < h.order.len() && 0 <= j < h.order.len() && #[trigger] h.parents[i] == Some(#[trigger] h.order[j]) implies j < i by {
                if j == h.order.len() - 1 && i < j {
                    assert(o.parents[i] == h.parents[i]);
                } else if i == h.order.len() - 1 {
                } else {
                    assert(o.parents[i] == h.parents[i]);
                    assert(o.order[j] == h.order[j]);
                }
            }
        }
    }

    /// How many points have been heard.
    pub fn heard(&self) -> (r: usize)
        ensures
            r == self@.order.len(),
    {
        self.order.len()
    }

    /// The first action heard at or after the `from`-th point.
    pub fn action_since(&self, from: usize) -> (r: Option<Cause>)
        requires
            self.wf(),
            from <= self@.order.len(),
        ensures
            match r {
                Some(id) => exists|i: int|
                    from <= i < self@.order.len() && self@.order[i] == id && self@.points[i] is Action
                        && forall|j: int| from <= j < i ==> !(self@.points[j] is Action),
                None => forall|i: int| from <= i < self@.order.len() ==> !(self@.points[i] is Action),
            },
    {
        proof {
            self.lemma_view();
        }
        let mut k = from;
        while k < self.order.len()
            invariant
                self.wf(),
                self@.order == self.order@,
                self@.parents == self.parents@,
                self@.points == self.points@,
                self@.order.len() == self.order.len(),
                self@.parents.len() == self.parents.len(),
                self@.points.len() == self.points.len(),
                from <= k <= self.order.len(),
                forall|j: int| from <= j < k ==> !(self@.points[j] is Action),
            decreases self.order.len() - k,
        {
            if let Point::Action { .. } = &self.points[k] {
                return Some(self.order[k]);
            }
            k = k + 1;
        }
        None
    }

    fn position(&self, cause: Cause) -> (r: Option<usize>)
        requires
            self.wf(),
        ensures
            match r {
                Some(i) => i < self@.order.len() && self@.order[i as int] == cause,
                None => !self@.order.contains(cause),
            },
    {
        proof {
            self.lemma_view();
        }
        let mut k: usize = 0;
        while k < self.order.len()
            invariant
                self.wf(),
                self@.order == self.order@,
                self@.parents == self.parents@,
                self@.points == self.points@,
                self@.order.len() == self.order.len(),
                self@.parents.len() == self.parents.len(),
                self@.points.len() == self.points.len(),
                k <= self.order.len(),
                forall|i: int| 0 <= i < k ==> self@.order[i] != cause,
            decreases self.order.len() - k,
        {
            if self.order[k] == cause {
                return Some(k);
            }
            k = k + 1;
        }
        None
    }

    fn ended(&self, spawn: Cause) -> (r: bool)
        requires
            self.wf(),
        ensures
            r == self@.ended(spawn),
    {
        proof {
            self.lemma_view();
        }
        let mut k: usize = 0;
        while k < self.order.len()
            invariant
                self.wf(),
                self@.order == self.order@,
                self@.parents == self.parents@,
                self@.points == self.points@,
                self@.order.len() == self.order.len(),
                self@.parents.len() == self.parents.len(),
                self@.points.len() == self.points.len(),
                k <= self.order.len(),
                forall|j: int| 0 <= j < k && #[trigger] self@.parents[j] == Some(spawn) ==> !(self@.points[j] is Settled || self@.points[j] is Cancelled),
            decreases self.order.len() - k,
        {
            if is_under(self.parents[k], spawn) {
                match &self.points[k] {
                    Point::Settled { .. } | Point::Cancelled { .. } => return true,
                    _ => {},
                }
            }
            k = k + 1;
        }
        false
    }

    fn is_settled_at(&self, i: usize) -> (r: bool)
        requires
            self.wf(),
            i < self@.order.len(),
        ensures
            r == self@.settled_at(i as int),
        decreases self@.order.len() - i,
    {
        proof {
            self.lemma_view();
        }
        let cause = self.order[i];
        if holds(&self.open, cause) {
            return false;
        }
        let spawned = match &self.points[i] {
            Point::Spawn { .. } => true,
            _ => false,
        };
        if spawned && !self.ended(cause) {
            return false;
        }
        let mut j = i + 1;
        while j < self.order.len()
            invariant
                self.wf(),
                self@.order == self.order@,
                self@.parents == self.parents@,
                self@.points == self.points@,
                self@.order.len() == self.order.len(),
                self@.parents.len() == self.parents.len(),
                self@.points.len() == self.points.len(),
                i < j <= self.order.len(),
                cause == self@.order[i as int],
                self@.settled_from(i as int, i + 1) == self@.settled_from(i as int, j as int),
            decreases self.order.len() - j,
        {
            if is_under(self.parents[j], cause) && !self.is_settled_at(j) {
                return false;
            }
            j = j + 1;
        }
        true
    }

    /// Whether everything `cause` set off has finished: no point under it is
    /// still open, and every task it spawned has settled or been cancelled.
    pub fn is_settled(&self, cause: Cause) -> (r: bool)
        requires
            self.wf(),
        ensures
            r == self@.settled(cause),
    {
        proof {
            self.lemma_view();
        }
        if holds(&self.open, cause) {
            proof {
                assert(self@.open.contains(cause));
            }
            return false;
        }
        if let Some(i) = self.position(cause) {
            let spawned = match &self.points[i] {
                Point::Spawn { .. } => true,
                _ => false,
            };
            if spawned && !self.ended(cause) {
                return false;
            }
        }
        let mut j: usize = 0;
        while j < self.order.len()
            invariant
                self.wf(),
                self@.order == self.order@,
                self@.parents == self.parents@,
                self@.points == self.points@,
                self@.order.len() == self.order.len(),
                self@.parents.len() == self.parents.len(),
                self@.points.len() == self.points.len(),
                j <= self.order.len(),
                forall|k: int| 0 <= k < j && self@.parents[k] == Some(cause) ==> #[trigger] self@.settled_at(k),
            decreases self.order.len() - j,
        {
            if is_under(self.parents[j], cause) && !self.is_settled_at(j) {
                return false;
            }
            j = j + 1;
        }
        proof {
            assert(!self@.open.contains(cause));
        }
        true
    }

    fn grow_from(&self, i: usize) -> (r: Chain)
        requires
            self.wf(),
            i < self@.order.len(),
        ensures
            self@.grown_at(i as int, r),
        decreases self@.order.len() - i,
    {
        proof {
            self.lemma_view();
        }
        let cause = self.order[i];
        let point = copy_point(&self.points[i]);
        let mut caused: Vec<Chain> = Vec::new();
        let mut j: usize = 0;
        while j < self.order.len()
            invariant
                self.wf(),
                self@.order == self.order@,
                self@.parents == self.parents@,
                self@.points == self.points@,
                self@.order.len() == self.order.len(),
                self@.parents.len() == self.parents.len(),
                self@.points.len() == self.points.len(),
                j <= self.order.len(),
                i < self.order.len(),
                cause == self@.order[i as int],
                self@.grown_list(i as int, self@.kids(cause, j as int), caused@),
            decreases self.order.len() - j,
        {
            if is_under(self.parents[j], cause) {
                proof {
                    assert(self@.parents[j as int] == Some(self@.order[i as int]));
                    assert(j > i);
                }
                let next = self.grow_from(j);
                let ghost before = caused@;
                caused.push(next);
                proof {
                    let kids = self@.kids(cause, j + 1);
                    assert(kids.drop_last() =~= self@.kids(cause, j as int));
                    assert(caused@.drop_last() =~= before);
                }
            }
            j = j + 1;
        }
        Chain { point, caused }
    }

    /// What `cause` set off, point by point.
    pub fn chain(&self, cause: Cause) -> (r: Chain)
        requires
            self.wf(),
        ensures
            self@.grown(cause, r),
    {
        proof {
            self.lemma_view();
        }
        let point = match self.position(cause) {
            Some(i) => copy_point(&self.points[i]),
            None => Point::Note(String::new()),
        };
        let mut caused: Vec<Chain> = Vec::new();
        let mut j: usize = 0;
        while j < self.order.len()
            invariant
                self.wf(),
                self@.order == self.order@,
                self@.parents == self.parents@,
                self@.points == self.points@,
                self@.order.len() == self.order.len(),
                self@.parents.len() == self.parents.len(),
                self@.points.len() == self.points.len(),
                j <= self.order.len(),
                self@.grown_list(-1, self@.kids(cause, j as int), caused@),
            decreases self.order.len() - j,
        {
            if is_under(self.parents[j], cause) {
                let next = self.grow_from(j);
                let ghost before = caused@;
                caused.push(next);
                proof {
                    let kids = self@.kids(cause, j + 1);
                    assert(kids.drop_last() =~= self@.kids(cause, j as int));
                    assert(caused@.drop_last() =~= before);
                }
            }
            j = j + 1;
        }
        Chain { point, caused }
    }
}

} // verus!
