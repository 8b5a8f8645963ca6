//! The messages of a Fluent locale, and the variables each one takes, for
//! the accessors generated from them.
//!
//! The parts of a Fluent resource read here are kept as values of this
//! module: whoever parses the files hands the entries over in this shape.

use vstd::prelude::*;

use crate::text::{compare_text, text_compare};

verus! {

/// An inline expression, as far as variables go.
pub enum Inline {
    /// `$name`.
    Variable(String),
    /// A function call or a term reference with arguments: its positional
    /// arguments, then the values of its named ones.
    Call(Vec<Inline>),
    /// `{ ... }` inside a placeable.
    Nested(Box<FluentExpr>),
    /// A string or number literal, a message reference, or a term reference
    /// without arguments.
    Plain,
}

pub enum FluentExpr {
    Inline(Inline),
    /// A select expression: its selector, and the pattern of each variant.
    Select { selector: Inline, variants: Vec<Vec<Element>> },
}

/// One element of a pattern.
pub enum Element {
    Text,
    Placeable(FluentExpr),
}

/// One entry of a resource.
pub enum FluentEntry {
    /// A message: its id and its value's pattern, if it has one.
    Message { id: String, value: Option<Vec<Element>> },
    /// A term, a comment, or anything else that is not a message.
    Other,
}

/// A message and the variables it takes, each once, in the order first
/// seen.
#[derive(Debug, Clone, PartialEq)]
pub struct L10nMessage {
    pub id: String,
    pub variables: Vec<String>,
}

/// Every variable an inline expression names, in order, repeats included.
pub open spec fn inline_refs(inline: Inline) -> Seq<Seq<char>>
    decreases inline,
{
    match inline {
        Inline::Variable(name) => seq![name@],
        Inline::Call(arguments) => inlines_refs(arguments@),
        Inline::Nested(expression) => expression_refs(*expression),
        Inline::Plain => Seq::empty(),
    }
}

pub open spec fn inlines_refs(inlines: Seq<Inline>) -> Seq<Seq<char>>
    decreases inlines,
{
    if inlines.len() == 0 {
        Seq::empty()
    } else {
        inlines_refs(inlines.drop_last()) + inline_refs(inlines.last())
    }
}

pub open spec fn expression_refs(expression: FluentExpr) -> Seq<Seq<char>>
    decreases expression,
{
    match expression {
        FluentExpr::Inline(inline) => inline_refs(inline),
        FluentExpr::Select { selector, variants } => inline_refs(selector) + patterns_refs(variants@),
    }
}

pub open spec fn patterns_refs(patterns: Seq<Vec<Element>>) -> Seq<Seq<char>>
    decreases patterns,
{
    if patterns.len() == 0 {
        Seq::empty()
    } else {
        patterns_refs(patterns.drop_last()) + pattern_refs(patterns.last()@)
    }
}

pub open spec fn pattern_refs(pattern: Seq<Element>) -> Seq<Seq<char>>
    decreases pattern,
{
    if pattern.len() == 0 {
        Seq::empty()
    } else {
        pattern_refs(pattern.drop_last()) + match pattern.last() {
            Element::Text => Seq::empty(),
            Element::Placeable(expression) => expression_refs(expression),
        }
    }
}

/// `out` with each of `names` added unless it is there already.
pub open spec fn with_unique(out: Seq<Seq<char>>, names: Seq<Seq<char>>) -> Seq<Seq<char>>
    decreases names.len(),
{
    if names.len() == 0 {
        out
    } else {
        let kept = with_unique(out, names.drop_last());
        if kept.contains(names.last()) {
            kept
        } else {
            kept.push(names.last())
        }
    }
}

pub open spec fn texts(strings: Seq<String>) -> Seq<Seq<char>> {
    strings.map_values(|s: String| s@)
}

proof fn lemma_with_unique_append(out: Seq<Seq<char>>, a: Seq<Seq<char>>, b: Seq<Seq<char>>)
    ensures
        with_unique(out, a + b) == with_unique(with_unique(out, a), b),
    decreases b.len(),
{
    if b.len() == 0 {
        assert(a + b =~= a);
    } else {
        assert((a + b).drop_last() =~= a + b.drop_last());
        assert((a + b).last() == b.last());
        lemma_with_unique_append(out, a, b.drop_last());
    }
}

fn push_unique(out: &mut Vec<String>, name: &String)
    ensures
        texts(final(out)@) == with_unique(texts(old(out)@), seq![name@]),
{
    let ghost start = texts(out@);
    proof {
        assert(seq![name@].drop_last() =~= Seq::<Seq<char>>::empty());
    }
    let mut k: usize = 0;
    while k < out.len()
        invariant
            k <= out.len(),
            out@ == old(out)@,
            start == texts(out@),
            forall|i: int| 0 <= i < k ==> out@[i]@ != name@,
        decreases out.len() - k,
    {
        if crate::text::same_text(out[k].as_str(), name.as_str()) {
            proof {
                assert(start[k as int] == name@);
                assert(start.contains(name@));
                assert(seq![name@].drop_last() =~= Seq::<Seq<char>>::empty());
                assert(seq![name@].last() == name@);
                assert(with_unique(start, Seq::<Seq<char>>::empty()) == start);
            }
            return;
        }
        k = k + 1;
    }
    proof {
        assert(!start.contains(name@)) by {
            if start.contains(name@) {
                let w = choose|w: int| 0 <= w < start.len() && start[w] == name@;
                assert(out@[w]@ == name@);
            }
        }
    }
    out.push(name.clone());
    proof {
        assert(texts(out@) =~= start.push(name@));
        assert(seq![name@].drop_last() =~= Seq::<Seq<char>>::empty());
        assert(seq![name@].last() == name@);
        assert(with_unique(start, Seq::<Seq<char>>::empty()) == start);
    }
}

fn collect_from_inline(inline: &Inline, out: &mut Vec<String>)
    ensures
        texts(final(out)@) == with_unique(texts(old(out)@), inline_refs(*inline)),
    decreases inline,
{
    match inline {
        Inline::Variable(name) => push_unique(out, name),
        Inline::Call(arguments) => {
            let mut k: usize = 0;
            proof {
                assert(arguments@.take(0) =~= Seq::<Inline>::empty());
                assert(decreases_to!(*inline => *arguments));
            }
            while k < arguments.len()
                invariant
                    decreases_to!(*inline => *arguments),
                    k <= arguments.len(),
                    texts(out@) == with_unique(texts(old(out)@), inlines_refs(arguments@.take(k as int))),
                decreases arguments.len() - k,
            {
                proof {
                    assert(decreases_to!(*arguments => arguments[k as int]));
                }
                let ghost before = texts(out@);
                collect_from_inline(&arguments[k], out);
                proof {
                    let taken = arguments@.take(k + 1);
                    assert(taken.drop_last() =~= arguments@.take(k as int));
                    lemma_with_unique_append(texts(old(out)@), inlines_refs(arguments@.take(k as int)), inline_refs(arguments@[k as int]));
                }
                k = k + 1;
            }
            proof {
                assert(arguments@.take(k as int) =~= arguments@);
            }
        },
        Inline::Nested(expression) => collect_from_expression(expression, out),
        Inline::Plain => {
            proof {
                assert(texts(out@) == with_unique(texts(old(out)@), Seq::<Seq<char>>::empty()));
            }
        },
    }
}

fn collect_from_expression(expression: &FluentExpr, out: &mut Vec<String>)
    ensures
        texts(final(out)@) == with_unique(texts(old(out)@), expression_refs(*expression)),
    decreases expression,
{
    match expression {
        FluentExpr::Inline(inline) => collect_from_inline(inline, out),
        FluentExpr::Select { selector, variants } => {
            collect_from_inline(selector, out);
            let ghost after_selector = texts(out@);
            let mut k: usize = 0;
            proof {
                assert(variants@.take(0) =~= Seq::<Vec<Element>>::empty());
                assert(decreases_to!(*expression => *variants));
            }
            while k < variants.len()
                invariant
                    decreases_to!(*expression => *variants),
                    k <= variants.len(),
                    after_selector == with_unique(texts(old(out)@), inline_refs(*selector)),
                    texts(out@) == with_unique(after_selector, patterns_refs(variants@.take(k as int))),
                decreases variants.len() - k,
            {
                proof {
                    assert(decreases_to!(*variants => variants[k as int]));
                }
                collect_variables(&variants[k], out);
                proof {
                    let taken = variants@.take(k + 1);
                    assert(taken.drop_last() =~= variants@.take(k as int));
                    lemma_with_unique_append(after_selector, patterns_refs(variants@.take(k as int)), pattern_refs(variants@[k as int]@));
                }
                k = k + 1;
            }
            proof {
                assert(variants@.take(k as int) =~= variants@);
                lemma_with_unique_append(texts(old(out)@), inline_refs(*selector), patterns_refs(variants@));
            }
        },
    }
}

/// Adds to `out` every variable `pattern` names that `out` does not hold
/// yet, in the order first seen.
pub fn collect_variables(pattern: &Vec<Element>, out: &mut Vec<String>)
    ensures
        texts(final(out)@) == with_unique(texts(old(out)@), pattern_refs(pattern@)),
    decreases pattern,
{
    let mut k: usize = 0;
    proof {
        assert(pattern@.take(0) =~= Seq::<Element>::empty());
    }
    while k < pattern.len()
        invariant
            k <= pattern.len(),
            texts(out@) == with_unique(texts(old(out)@), pattern_refs(pattern@.take(k as int))),
        decreases pattern.len() - k,
    {
        let ghost before = texts(out@);
        match &pattern[k] {
            Element::Text => {},
            Element::Placeable(expression) => {
                assert(decreases_to!(*pattern => pattern@[k as int]));
                collect_from_expression(expression, out);
            },
        }
        proof {
            let taken = pattern@.take(k + 1);
            assert(taken.drop_last() =~= pattern@.take(k as int));
            let piece = match pattern@[k as int] {
                Element::Text => Seq::<Seq<char>>::empty(),
                Element::Placeable(expression) => expression_refs(expression),
            };
            lemma_with_unique_append(texts(old(out)@), pattern_refs(pattern@.take(k as int)), piece);
            if pattern@[k as int] is Text {
                assert(pattern_refs(pattern@.take(k as int)) + piece =~= pattern_refs(pattern@.take(k as int)));
            }
        }
        k = k + 1;
    }
    proof {
        assert(pattern@.take(k as int) =~= pattern@);
    }
}

/// The message an entry is, with its variables, if it is a message.
pub open spec fn message_spec(entry: FluentEntry) -> Option<(Seq<char>, Seq<Seq<char>>)> {
    match entry {
        FluentEntry::Message { id, value } => Some(
            (
                id@,
                match value {
                    Some(pattern) => with_unique(Seq::empty(), pattern_refs(pattern@)),
                    None => Seq::empty(),
                },
            ),
        ),
        FluentEntry::Other => None,
    }
}

pub open spec fn message_view(message: L10nMessage) -> (Seq<char>, Seq<Seq<char>>) {
    (message.id@, texts(message.variables@))
}

/// The message an entry is, with its variables, if it is a message.
pub fn message_of(entry: &FluentEntry) -> (r: Option<L10nMessage>)
    ensures
        match message_spec(*entry) {
            Some(view) => r matches Some(message) && message_view(message) == view,
            None => r is None,
        },
{
    match entry {
        FluentEntry::Message { id, value } => {
            let mut variables: Vec<String> = Vec::new();
            proof {
                assert(texts(variables@) =~= Seq::<Seq<char>>::empty());
            }
            match value {
                Some(pattern) => collect_variables(pattern, &mut variables),
                None => {},
            }
            Some(L10nMessage { id: id.clone(), variables })
        },
        FluentEntry::Other => None,
    }
}

/// Every id in `messages` is at or below the ones after it, in `str`'s
/// order.
pub open spec fn sorted_by_id(messages: Seq<L10nMessage>) -> bool {
    forall|i: int, j: int| 0 <= i < j < messages.len() ==> text_compare(#[trigger] messages[i].id@, #[trigger] messages[j].id@) <= 0
}

/// Whether a message's view has the id `key`.
pub open spec fn id_is(key: Seq<char>) -> spec_fn((Seq<char>, Seq<Seq<char>>)) -> bool {
    |view: (Seq<char>, Seq<Seq<char>>)| view.0 == key
}

/// The messages of `views` whose id is `key`, in the order they come.
pub open spec fn with_id(views: Seq<(Seq<char>, Seq<Seq<char>>)>, key: Seq<char>) -> Seq<(Seq<char>, Seq<Seq<char>>)> {
    views.filter(id_is(key))
}

proof fn lemma_insert_after_same_id(before: Seq<L10nMessage>, at: int, next: L10nMessage, key: Seq<char>)
    requires
        0 <= at <= before.len(),
        forall|j: int| at <= j < before.len() ==> #[trigger] before[j].id@ != next.id@,
    ensures
        with_id(message_views(before.insert(at, next)), key) == if next.id@ == key {
            with_id(message_views(before), key).push(message_view(next))
        } else {
            with_id(message_views(before), key)
        },
{
    let p = id_is(key);
    let views = message_views(before);
    let head = views.take(at);
    let tail = views.skip(at);
    let one = seq![message_view(next)];
    assert(views =~= head + tail);
    assert(message_views(before.insert(at, next)) =~= (head + one) + tail);
    Seq::filter_distributes_over_add(head, tail, p);
    Seq::filter_distributes_over_add(head + one, tail, p);
    Seq::filter_distributes_over_add(head, one, p);
    assert(one =~= Seq::<(Seq<char>, Seq<Seq<char>>)>::empty().push(message_view(next)));
    Seq::<(Seq<char>, Seq<Seq<char>>)>::empty().lemma_filter_push(message_view(next), p);
    assert(Seq::<(Seq<char>, Seq<Seq<char>>)>::empty().filter(p) =~= Seq::empty()) by {
        Seq::<(Seq<char>, Seq<Seq<char>>)>::empty().lemma_filter_len(p);
    }
    if next.id@ == key {
        assert(tail.all(|x: (Seq<char>, Seq<Seq<char>>)| !p(x))) by {
            assert forall|i: int| 0 <= i < tail.len() implies !p(#[trigger] tail[i]) by {
                assert(tail[i] == message_view(before[at + i]));
            }
        }
        tail.lemma_all_neg_filter_empty(p);
        assert(tail.filter(p) =~= Seq::empty());
        assert(head.filter(p) + one.filter(p) + tail.filter(p) =~= (head.filter(p) + tail.filter(p)).push(
            message_view(next),
        ));
    } else {
        assert(one.filter(p) =~= Seq::empty());
        assert(head.filter(p) + one.filter(p) + tail.filter(p) =~= head.filter(p) + tail.filter(p));
    }
}

/// `messages` sorted by id, the ones with equal ids in the order they came.
pub fn sort_by_id(messages: Vec<L10nMessage>) -> (r: Vec<L10nMessage>)
    ensures
        sorted_by_id(r@),
        r@.to_multiset() == messages@.to_multiset(),
        forall|key: Seq<char>| #[trigger] with_id(message_views(r@), key) == with_id(message_views(messages@), key),
{
    proof {
        crate::text::lemma_text_order();
    }
    let ghost all = messages@;
    assert(all.len() == messages.len());
    let mut rest = messages;
    let mut sorted: Vec<L10nMessage> = Vec::new();
    let mut k: usize = 0;
    proof {
        assert(sorted@ =~= all.take(0));
        assert(all.skip(0) =~= all);
    }
    while rest.len() > 0
        invariant
            k <= all.len(),
            all.len() == rest.len() + k,
            all.len() <= usize::MAX,
            rest@ == all.skip(k as int),
            sorted_by_id(sorted@),
            sorted@.to_multiset() == all.take(k as int).to_multiset(),
            forall|key: Seq<char>| #[trigger] with_id(message_views(sorted@), key) == with_id(message_views(all.take(k as int)), key),
            crate::text::is_order(|a: Seq<char>, b: Seq<char>| text_compare(a, b)),
        decreases rest.len(),
    {
        let next = rest.remove(0);
        let mut at = sorted.len();
        while at > 0 && compare_text(sorted[at - 1].id.as_str(), next.id.as_str()) > 0
            invariant
                at <= sorted.len(),
                sorted_by_id(sorted@),
                forall|j: int| at <= j < sorted.len() ==> text_compare(#[trigger] sorted@[j].id@, next.id@) > 0,
            decreases at,
        {
            at = at - 1;
        }
        let ghost before = sorted@;
        sorted.insert(at, next);
        proof {
            let order = |a: Seq<char>, b: Seq<char>| text_compare(a, b);
            assert(next == all[k as int]);
            assert(rest@ =~= all.skip(k + 1));
            assert(all.take(k + 1) =~= all.take(k as int).push(all[k as int]));
            vstd::seq_lib::to_multiset_build(all.take(k as int), next);
            vstd::seq_lib::to_multiset_insert(before, at as int, next);
            assert forall|key: Seq<char>| #[trigger] with_id(message_views(sorted@), key) == with_id(message_views(all.take(k + 1)), key) by {
                assert forall|j: int| at <= j < before.len() implies #[trigger] before[j].id@ != next.id@ by {
                    assert(order(before[j].id@, next.id@) > 0);
                }
                lemma_insert_after_same_id(before, at as int, next, key);
                assert(message_views(all.take(k + 1)) =~= message_views(all.take(k as int)).push(message_view(next)));
                message_views(all.take(k as int)).lemma_filter_push(message_view(next), id_is(key));
            }
            assert forall|i: int, j: int| 0 <= i < j < sorted.len() implies text_compare(#[trigger] sorted@[i].id@, #[trigger] sorted@[j].id@) <= 0 by {
                if i < at && j == at {
                    assert(order(before[at - 1].id@, next.id@) <= 0);
                    if i < at - 1 {
                        assert(order(before[i].id@, before[at - 1].id@) <= 0);
                    }
                } else if i == at && j > at {
                    assert(order(before[j - 1].id@, next.id@) > 0);
                    assert(order(next.id@, before[j - 1].id@) == -order(before[j - 1].id@, next.id@));
                } else if i < at && j > at {
                    assert(order(before[i].id@, before[j - 1].id@) <= 0);
                } else if j < at {
                    assert(order(before[i].id@, before[j].id@) <= 0);
                } else {
                    assert(order(before[i - 1].id@, before[j - 1].id@) <= 0);
                }
            }
        }
        k = k + 1;
    }
    proof {
        assert(all.take(k as int) =~= all);
    }
    sorted
}

/// The messages `entries` hold, in order, each as its id and variables.
pub open spec fn messages_in(entries: Seq<FluentEntry>) -> Seq<(Seq<char>, Seq<Seq<char>>)>
    decreases entries.len(),
{
    if entries.len() == 0 {
        Seq::empty()
    } else {
        messages_in(entries.drop_last()) + match message_spec(entries.last()) {
            Some(view) => seq![view],
            None => Seq::empty(),
        }
    }
}

pub open spec fn message_views(messages: Seq<L10nMessage>) -> Seq<(Seq<char>, Seq<Seq<char>>)> {
    messages.map_values(|m: L10nMessage| message_view(m))
}

proof fn lemma_map_keeps_multiset<A, B>(xs: Seq<A>, ys: Seq<A>, f: spec_fn(A) -> B)
    requires
        xs.to_multiset() == ys.to_multiset(),
    ensures
        xs.map_values(f).to_multiset() == ys.map_values(f).to_multiset(),
    decreases xs.len(),
{
    vstd::seq_lib::to_multiset_len(xs);
    vstd::seq_lib::to_multiset_len(ys);
    if xs.len() == 0 {
        assert(xs.map_values(f) =~= ys.map_values(f));
    } else {
        let x = xs.last();
        let rest = xs.drop_last();
        assert(xs =~= rest.push(x));
        vstd::seq_lib::to_multiset_build(rest, x);
        vstd::seq_lib::to_multiset_contains(ys, x);
        let j = choose|j: int| 0 <= j < ys.len() && ys[j] == x;
        let others = ys.remove(j);
        vstd::seq_lib::to_multiset_remove(ys, j);
        assert(rest.to_multiset() =~= xs.to_multiset().remove(x));
        lemma_map_keeps_multiset(rest, others, f);
        assert(xs.map_values(f) =~= rest.map_values(f).push(f(x)));
        vstd::seq_lib::to_multiset_build(rest.map_values(f), f(x));
        assert(ys.map_values(f) =~= others.map_values(f).insert(j, f(x)));
        vstd::seq_lib::to_multiset_insert(others.map_values(f), j, f(x));
    }
}

fn messages_from(entries: &Vec<FluentEntry>) -> (r: Vec<L10nMessage>)
    ensures
        message_views(r@) == messages_in(entries@),
{
    let mut found: Vec<L10nMessage> = Vec::new();
    let mut k: usize = 0;
    proof {
        assert(message_views(found@) =~= messages_in(entries@.take(0)));
    }
    while k < entries.len()
        invariant
            k <= entries.len(),
            message_views(found@) == messages_in(entries@.take(k as int)),
        decreases entries.len() - k,
    {
        let ghost before = found@;
        match message_of(&entries[k]) {
            Some(message) => {
                found.push(message);
            },
            None => {},
        }
        proof {
            let taken = entries@.take(k + 1);
            assert(taken.drop_last() =~= entries@.take(k as int));
            assert(taken.last() == entries@[k as int]);
            if found@.len() > before.len() {
                assert(found@ =~= before.push(found@.last()));
            }
            assert(message_views(found@) =~= messages_in(taken));
        }
        k = k + 1;
    }
    proof {
        assert(entries@.take(k as int) =~= entries@);
    }
    found
}

/// The messages of one resource, by id: what the accessors are generated
/// from. The sort is stable: messages with one id keep the order they had.
pub fn parse_messages(entries: &Vec<FluentEntry>) -> (r: Vec<L10nMessage>)
    ensures
        sorted_by_id(r@),
        message_views(r@).to_multiset() == messages_in(entries@).to_multiset(),
        forall|key: Seq<char>| #[trigger] with_id(message_views(r@), key) == with_id(messages_in(entries@), key),
{
    let found = messages_from(entries);
    let r = sort_by_id(found);
    proof {
        lemma_map_keeps_multiset(r@, found@, |m: L10nMessage| message_view(m));
    }
    r
}

/// The messages of a locale, from every resource it is made of, by id; the
/// sort is stable, so messages with one id keep the order of the resources.
pub fn parse_locale_messages(resources: &Vec<Vec<FluentEntry>>) -> (r: Vec<L10nMessage>)
    ensures
        sorted_by_id(r@),
        message_views(r@).to_multiset() == resources_messages(resources@).to_multiset(),
        forall|key: Seq<char>| #[trigger] with_id(message_views(r@), key) == with_id(resources_messages(resources@), key),
{
    let mut found: Vec<L10nMessage> = Vec::new();
    let mut k: usize = 0;
    proof {
        assert(message_views(found@) =~= resources_messages(resources@.take(0)));
    }
    while k < resources.len()
        invariant
            k <= resources.len(),
            message_views(found@) == resources_messages(resources@.take(k as int)),
        decreases resources.len() - k,
    {
        let mut more = messages_from(&resources[k]);
        let ghost before = found@;
        let ghost added = more@;
        found.append(&mut more);
        proof {
            let taken = resources@.take(k + 1);
            assert(taken.drop_last() =~= resources@.take(k as int));
            assert(found@ =~= before + added);
            assert(message_views(before + added) =~= message_views(before) + message_views(added));
        }
        k = k + 1;
    }
    proof {
        assert(resources@.take(k as int) =~= resources@);
    }
    let r = sort_by_id(found);
    proof {
        lemma_map_keeps_multiset(r@, found@, |m: L10nMessage| message_view(m));
    }
    r
}

/// The messages of every resource, one resource after another.
pub open spec fn resources_messages(resources: Seq<Vec<FluentEntry>>) -> Seq<(Seq<char>, Seq<Seq<char>>)>
    decreases resources.len(),
{
    if resources.len() == 0 {
        Seq::empty()
    } else {
        resources_messages(resources.drop_last()) + messages_in(resources.last()@)
    }
}

} // verus!
