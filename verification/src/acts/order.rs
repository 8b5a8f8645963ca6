//! How snapshots of behaviour are ordered, and what sorting them gives.
//!
//! A step compares by its kind first - in the order the kinds are declared -
//! and then field by field; a shape compares by its step and then by what it
//! caused, one child after another. This is the order `Ord` derives for
//! [`Step`](super::Step) and [`Shape`](super::Shape).

use vstd::prelude::*;

use crate::text::{is_order, lemma_lex_order, lemma_text_order, lex, sign, text_compare, tie_break};

verus! {

broadcast use vstd::seq_lib::group_seq_properties;

/// One field of a step, as the derived order sees it.
pub enum Field {
    Text(Seq<char>),
    Count(int),
    Flag(bool),
    Maybe(Option<Seq<char>>),
}

pub open spec fn field_tag(f: Field) -> int {
    match f {
        Field::Text(_) => 0,
        Field::Count(_) => 1,
        Field::Flag(_) => 2,
        Field::Maybe(_) => 3,
    }
}

pub open spec fn flag_rank(b: bool) -> int {
    if b {
        1
    } else {
        0
    }
}

pub open spec fn field_compare(a: Field, b: Field) -> int {
    match (a, b) {
        (Field::Text(x), Field::Text(y)) => text_compare(x, y),
        (Field::Count(x), Field::Count(y)) => sign(x - y),
        (Field::Flag(x), Field::Flag(y)) => sign(flag_rank(x) - flag_rank(y)),
        (Field::Maybe(x), Field::Maybe(y)) => match (x, y) {
            (None, None) => 0,
            (None, Some(_)) => -1,
            (Some(_), None) => 1,
            (Some(p), Some(q)) => text_compare(p, q),
        },
        _ => sign(field_tag(a) - field_tag(b)),
    }
}

pub open spec fn field_order() -> spec_fn(Field, Field) -> int {
    |a: Field, b: Field| field_compare(a, b)
}

/// A step as its order sees it: which kind it is, and its fields in order.
pub struct StepView {
    pub kind: int,
    pub fields: Seq<Field>,
}

pub open spec fn step_compare(a: StepView, b: StepView) -> int {
    tie_break(sign(a.kind - b.kind), lex(a.fields, b.fields, field_order()))
}

/// A shape as its order sees it.
pub struct ShapeView {
    pub step: StepView,
    pub caused: Seq<ShapeView>,
}

pub open spec fn shape_compare(a: ShapeView, b: ShapeView) -> int
    decreases a,
{
    tie_break(step_compare(a.step, b.step), forest_compare(a.caused, b.caused))
}

pub open spec fn forest_compare(xs: Seq<ShapeView>, ys: Seq<ShapeView>) -> int
    decreases xs,
{
    if xs.len() == 0 {
        if ys.len() == 0 {
            0
        } else {
            -1
        }
    } else if ys.len() == 0 {
        1
    } else {
        tie_break(shape_compare(xs[0], ys[0]), forest_compare(xs.drop_first(), ys.drop_first()))
    }
}

proof fn lemma_field_order()
    ensures
        is_order(field_order()),
{
    lemma_text_order();
    let text = |a: Seq<char>, b: Seq<char>| text_compare(a, b);
    let f = field_order();
    assert forall|x: Field, y: Field| #[trigger] f(x, y) == -f(y, x) by {
        match (x, y) {
            (Field::Text(p), Field::Text(q)) => assert(text(p, q) == -text(q, p)),
            (Field::Maybe(Some(p)), Field::Maybe(Some(q))) => assert(text(p, q) == -text(q, p)),
            _ => {},
        }
    }
    assert forall|x: Field, y: Field| #[trigger] f(x, y) == 0 implies x == y by {
        match (x, y) {
            (Field::Text(p), Field::Text(q)) => assert(text(p, q) == 0),
            (Field::Maybe(Some(p)), Field::Maybe(Some(q))) => assert(text(p, q) == 0),
            (Field::Flag(p), Field::Flag(q)) => {},
            _ => {},
        }
    }
    assert forall|x: Field, y: Field, z: Field|
        #[trigger] f(x, y) <= 0 && #[trigger] f(y, z) <= 0 implies f(x, z) <= 0 by {
        match (x, y, z) {
            (Field::Text(p), Field::Text(q), Field::Text(r)) => {
                assert(text(p, q) <= 0 && text(q, r) <= 0);
            },
            (Field::Maybe(Some(p)), Field::Maybe(Some(q)), Field::Maybe(Some(r))) => {
                assert(text(p, q) <= 0 && text(q, r) <= 0);
            },
            _ => {},
        }
    }
    assert forall|x: Field, y: Field| -1 <= #[trigger] f(x, y) <= 1 by {
        match (x, y) {
            (Field::Text(p), Field::Text(q)) => assert(-1 <= text(p, q) <= 1),
            (Field::Maybe(Some(p)), Field::Maybe(Some(q))) => assert(-1 <= text(p, q) <= 1),
            _ => {},
        }
    }
}

/// The order on steps is a total order.
pub proof fn lemma_step_order()
    ensures
        is_order(|a: StepView, b: StepView| step_compare(a, b)),
{
    lemma_field_order();
    lemma_lex_order(field_order());
    let fields = |xs: Seq<Field>, ys: Seq<Field>| lex(xs, ys, field_order());
    let f = |a: StepView, b: StepView| step_compare(a, b);
    assert forall|x: StepView, y: StepView| #[trigger] f(x, y) == -f(y, x) by {
        assert(fields(x.fields, y.fields) == -fields(y.fields, x.fields));
    }
    assert forall|x: StepView, y: StepView| #[trigger] f(x, y) == 0 implies x == y by {
        assert(fields(x.fields, y.fields) == 0);
    }
    assert forall|x: StepView, y: StepView, z: StepView|
        #[trigger] f(x, y) <= 0 && #[trigger] f(y, z) <= 0 implies f(x, z) <= 0 by {
        assert(-1 <= fields(x.fields, y.fields) <= 1);
        assert(-1 <= fields(y.fields, z.fields) <= 1);
        if x.kind == y.kind && y.kind == z.kind {
            assert(fields(x.fields, y.fields) <= 0 && fields(y.fields, z.fields) <= 0);
        }
    }
    assert forall|x: StepView, y: StepView| -1 <= #[trigger] f(x, y) <= 1 by {
        assert(-1 <= fields(x.fields, y.fields) <= 1);
    }
}

proof fn lemma_step_facts(a: StepView, b: StepView, c: StepView)
    ensures
        step_compare(a, b) == -step_compare(b, a),
        -1 <= step_compare(a, b) <= 1,
        step_compare(a, b) == 0 ==> a == b,
        step_compare(a, b) <= 0 && step_compare(b, c) <= 0 ==> step_compare(a, c) <= 0,
{
    lemma_step_order();
    let f = |a: StepView, b: StepView| step_compare(a, b);
    assert(f(a, b) == step_compare(a, b));
    assert(f(b, a) == step_compare(b, a));
    assert(f(b, c) == step_compare(b, c));
    assert(f(a, c) == step_compare(a, c));
}

proof fn lemma_shape_flip(a: ShapeView, b: ShapeView)
    ensures
        shape_compare(a, b) == -shape_compare(b, a),
        -1 <= shape_compare(a, b) <= 1,
    decreases a,
{
    lemma_step_facts(a.step, b.step, b.step);
    lemma_forest_flip(a.caused, b.caused);
}

proof fn lemma_forest_flip(xs: Seq<ShapeView>, ys: Seq<ShapeView>)
    ensures
        forest_compare(xs, ys) == -forest_compare(ys, xs),
        -1 <= forest_compare(xs, ys) <= 1,
    decreases xs,
{
    if xs.len() > 0 && ys.len() > 0 {
        lemma_shape_flip(xs[0], ys[0]);
        lemma_forest_flip(xs.drop_first(), ys.drop_first());
    }
}

proof fn lemma_shape_same(a: ShapeView, b: ShapeView)
    requires
        shape_compare(a, b) == 0,
    ensures
        a == b,
    decreases a,
{
    lemma_step_facts(a.step, b.step, b.step);
    lemma_forest_flip(a.caused, b.caused);
    lemma_forest_same(a.caused, b.caused);
}

proof fn lemma_forest_same(xs: Seq<ShapeView>, ys: Seq<ShapeView>)
    requires
        forest_compare(xs, ys) == 0,
    ensures
        xs == ys,
    decreases xs,
{
    if xs.len() > 0 && ys.len() > 0 {
        lemma_shape_flip(xs[0], ys[0]);
        lemma_shape_same(xs[0], ys[0]);
        lemma_forest_same(xs.drop_first(), ys.drop_first());
        assert(xs =~= seq![xs[0]] + xs.drop_first());
        assert(ys =~= seq![ys[0]] + ys.drop_first());
    }
}

proof fn lemma_shape_trans(a: ShapeView, b: ShapeView, c: ShapeView)
    requires
        shape_compare(a, b) <= 0,
        shape_compare(b, c) <= 0,
    ensures
        shape_compare(a, c) <= 0,
    decreases a,
{
    lemma_step_facts(a.step, b.step, c.step);
    lemma_step_facts(b.step, c.step, c.step);
    lemma_step_facts(a.step, c.step, c.step);
    lemma_step_facts(c.step, a.step, a.step);
    if step_compare(a.step, c.step) == 0 {
        assert(a.step == c.step);
        assert(step_compare(a.step, b.step) == 0);
        lemma_forest_trans(a.caused, b.caused, c.caused);
    }
}

proof fn lemma_forest_trans(xs: Seq<ShapeView>, ys: Seq<ShapeView>, zs: Seq<ShapeView>)
    requires
        forest_compare(xs, ys) <= 0,
        forest_compare(ys, zs) <= 0,
    ensures
        forest_compare(xs, zs) <= 0,
    decreases xs,
{
    if xs.len() > 0 && ys.len() > 0 && zs.len() > 0 {
        lemma_shape_flip(xs[0], ys[0]);
        lemma_shape_flip(ys[0], zs[0]);
        lemma_shape_flip(xs[0], zs[0]);
        lemma_shape_trans(xs[0], ys[0], zs[0]);
        if shape_compare(xs[0], zs[0]) == 0 {
            lemma_shape_same(xs[0], zs[0]);
            lemma_forest_trans(xs.drop_first(), ys.drop_first(), zs.drop_first());
        }
    }
}

/// The order on shapes is a total order.
pub proof fn lemma_shape_order()
    ensures
        is_order(|a: ShapeView, b: ShapeView| shape_compare(a, b)),
{
    let f = |a: ShapeView, b: ShapeView| shape_compare(a, b);
    assert forall|x: ShapeView, y: ShapeView| #[trigger] f(x, y) == -f(y, x) by {
        lemma_shape_flip(x, y);
    }
    assert forall|x: ShapeView, y: ShapeView| #[trigger] f(x, y) == 0 implies x == y by {
        lemma_shape_same(x, y);
    }
    assert forall|x: ShapeView, y: ShapeView, z: ShapeView|
        #[trigger] f(x, y) <= 0 && #[trigger] f(y, z) <= 0 implies f(x, z) <= 0 by {
        lemma_shape_trans(x, y, z);
    }
    assert forall|x: ShapeView, y: ShapeView| -1 <= #[trigger] f(x, y) <= 1 by {
        lemma_shape_flip(x, y);
    }
}

/// Every shape in `s` is at or below the ones after it.
pub open spec fn sorted(s: Seq<ShapeView>) -> bool {
    forall|i: int, j: int| 0 <= i < j < s.len() ==> shape_compare(#[trigger] s[i], #[trigger] s[j]) <= 0
}

/// Where `x` goes in `s`: after every shape it is not below.
pub open spec fn slot(x: ShapeView, s: Seq<ShapeView>) -> int
    decreases s.len(),
{
    if s.len() == 0 {
        0
    } else if shape_compare(x, s[0]) < 0 {
        0
    } else {
        1 + slot(x, s.drop_first())
    }
}

/// `s` with `x` put in its place.
pub open spec fn place(x: ShapeView, s: Seq<ShapeView>) -> Seq<ShapeView> {
    s.insert(slot(x, s), x)
}

/// `s` sorted by insertion, one shape after another, each after the ones it
/// is not below: the order a stable sort gives.
pub open spec fn sort(s: Seq<ShapeView>) -> Seq<ShapeView>
    decreases s.len(),
{
    if s.len() == 0 {
        s
    } else {
        place(s.last(), sort(s.drop_last()))
    }
}

pub proof fn lemma_slot(x: ShapeView, s: Seq<ShapeView>)
    ensures
        0 <= slot(x, s) <= s.len(),
        forall|k: int| 0 <= k < slot(x, s) ==> shape_compare(x, #[trigger] s[k]) >= 0,
        slot(x, s) < s.len() ==> shape_compare(x, s[slot(x, s)]) < 0,
    decreases s.len(),
{
    if s.len() > 0 && shape_compare(x, s[0]) >= 0 {
        lemma_slot(x, s.drop_first());
        assert forall|k: int| 0 <= k < slot(x, s) implies shape_compare(x, #[trigger] s[k]) >= 0 by {
            if k > 0 {
                assert(s[k] == s.drop_first()[k - 1]);
            }
        }
    }
}

proof fn lemma_place_sorted(x: ShapeView, s: Seq<ShapeView>)
    requires
        sorted(s),
    ensures
        sorted(place(x, s)),
{
    lemma_slot(x, s);
    let p = slot(x, s);
    let t = place(x, s);
    assert forall|i: int, j: int| 0 <= i < j < t.len() implies shape_compare(
        #[trigger] t[i],
        #[trigger] t[j],
    ) <= 0 by {
        if j < p {
        } else if j == p {
            lemma_shape_flip(x, s[i]);
        } else if i < p {
            assert(shape_compare(s[i], s[j - 1]) <= 0);
        } else if i == p {
            assert(shape_compare(x, s[p]) < 0);
            if j - 1 > p {
                lemma_shape_trans(x, s[p], s[j - 1]);
            }
        } else {
        }
    }
}

/// Sorting gives a sorted sequence of the same shapes.
pub proof fn lemma_sort(s: Seq<ShapeView>)
    ensures
        sorted(sort(s)),
        sort(s).to_multiset() == s.to_multiset(),
        sort(s).len() == s.len(),
    decreases s.len(),
{
    if s.len() > 0 {
        let rest = sort(s.drop_last());
        lemma_sort(s.drop_last());
        lemma_place_sorted(s.last(), rest);
        lemma_slot(s.last(), rest);
        assert(s =~= s.drop_last().push(s.last()));
        vstd::seq_lib::to_multiset_build(s.drop_last(), s.last());
        vstd::seq_lib::to_multiset_insert(rest, slot(s.last(), rest), s.last());
    }
}

/// Two sorted sequences of the same shapes are the same sequence.
pub proof fn lemma_sorted_unique(s1: Seq<ShapeView>, s2: Seq<ShapeView>)
    requires
        sorted(s1),
        sorted(s2),
        s1.to_multiset() == s2.to_multiset(),
    ensures
        s1 == s2,
    decreases s1.len(),
{
    vstd::seq_lib::to_multiset_len(s1);
    vstd::seq_lib::to_multiset_len(s2);
    if s1.len() > 0 {
        let (a, b) = (s1[0], s2[0]);
        vstd::seq_lib::to_multiset_contains(s1, a);
        vstd::seq_lib::to_multiset_contains(s2, a);
        vstd::seq_lib::to_multiset_contains(s2, b);
        vstd::seq_lib::to_multiset_contains(s1, b);
        let j1 = choose|j: int| 0 <= j < s2.len() && s2[j] == a;
        let j2 = choose|j: int| 0 <= j < s1.len() && s1[j] == b;
        assert(shape_compare(b, a) <= 0) by {
            if j1 > 0 {
                assert(shape_compare(s2[0], s2[j1]) <= 0);
            } else {
                lemma_shape_flip(b, a);
            }
        }
        assert(shape_compare(a, b) <= 0) by {
            if j2 > 0 {
                assert(shape_compare(s1[0], s1[j2]) <= 0);
            } else {
                lemma_shape_flip(a, b);
            }
        }
        lemma_shape_flip(a, b);
        lemma_shape_same(a, b);
        vstd::seq_lib::to_multiset_remove(s1, 0);
        vstd::seq_lib::to_multiset_remove(s2, 0);
        assert(s1.remove(0) =~= s1.drop_first());
        assert(s2.remove(0) =~= s2.drop_first());
        lemma_sorted_unique(s1.drop_first(), s2.drop_first());
        assert(s1 =~= seq![a] + s1.drop_first());
        assert(s2 =~= seq![b] + s2.drop_first());
    }
}

} // verus!
