//! What the generators decide from the traits an application declares: the
//! registrations a `#[port]` or `#[bindings]` trait submits, the adapter a
//! store dispatches through, and the names, fields and types of the test
//! doubles and bindings adapters. Whoever writes the code renders a plan
//! as it stands.

use vstd::prelude::*;

use crate::codegen::messages::texts;
use crate::codegen::{feature_from_trait_name, feature_of, pascal, pascal_case};
use crate::text::same_text;

verus! {

/// One typed input of a trait method: its pattern's name when the pattern
/// is a plain name, and its type's tokens.
pub struct InputDecl {
    pub name: Option<String>,
    pub ty: String,
}

/// One item inside an attribute's parentheses, in order: its key when the
/// key is a single name, whether `= ...` follows it, the string when what
/// follows is a string literal, and whether parentheses follow it.
pub struct NestedDecl {
    pub key: Option<String>,
    pub assigned: bool,
    pub text: Option<String>,
    pub listed: bool,
}

/// One attribute of a method: its name when its path is a single name, and
/// the items inside its parentheses.
pub struct AttrDecl {
    pub name: Option<String>,
    pub nested: Vec<NestedDecl>,
}

/// One bound in a `where` predicate: the last name of the trait's path, and
/// the tokens of the parenthesised inputs when the last segment has them.
pub struct BoundDecl {
    pub last: Option<String>,
    pub inputs: Option<Vec<String>>,
}

/// One predicate of a method's `where` clause: the last name of the bounded
/// type when it is a path, and its bounds.
pub struct PredicateDecl {
    pub bounded: Option<String>,
    pub bounds: Vec<BoundDecl>,
}

/// A method of a trait.
pub struct MethodDecl {
    pub name: String,
    pub inputs: Vec<InputDecl>,
    pub output: Option<String>,
    pub attrs: Vec<AttrDecl>,
    pub predicates: Vec<PredicateDecl>,
}

/// A trait as the generators read it: its name and its methods.
pub struct TraitDecl {
    pub name: String,
    pub methods: Vec<MethodDecl>,
}

/// `text` without its spaces: how a type's tokens are registered.
pub open spec fn compacted(text: Seq<char>) -> Seq<char>
    decreases text.len(),
{
    if text.len() == 0 {
        text
    } else if text.last() == ' ' {
        compacted(text.drop_last())
    } else {
        compacted(text.drop_last()).push(text.last())
    }
}

/// `text` without its spaces.
pub fn compact(text: &str) -> (r: String)
    ensures
        r@ == compacted(text@),
{
    let len = text.unicode_len();
    let mut out = String::new();
    let mut i: usize = 0;
    while i < len
        invariant
            len == text@.len(),
            i <= len,
            out@ == compacted(text@.take(i as int)),
        decreases len - i,
    {
        let c = text.get_char(i);
        let ghost before = out@;
        if c != ' ' {
            out.append(text.substring_char(i, i + 1));
            proof {
                assert(text@.subrange(i as int, i + 1) =~= seq![c]);
                assert(out@ =~= before.push(c));
            }
        }
        proof {
            let taken = text@.take(i + 1);
            assert(taken.drop_last() =~= text@.take(i as int));
        }
        i = i + 1;
    }
    proof {
        assert(text@.take(i as int) =~= text@);
    }
    out
}

/// Each of `list` without its spaces.
pub open spec fn compacted_all(list: Seq<Seq<char>>) -> Seq<Seq<char>> {
    list.map_values(|t: Seq<char>| compacted(t))
}

fn compact_all(list: &Vec<String>) -> (r: Vec<String>)
    ensures
        texts(r@) == compacted_all(texts(list@)),
{
    let mut out: Vec<String> = Vec::new();
    let mut k: usize = 0;
    while k < list.len()
        invariant
            k <= list.len(),
            texts(out@) == compacted_all(texts(list@)).take(k as int),
        decreases list.len() - k,
    {
        let ghost before = out@;
        out.push(compact(list[k].as_str()));
        proof {
            assert(out@ =~= before.push(out@.last()));
            assert(texts(out@) =~= texts(before).push(compacted(list@[k as int]@)));
            assert(texts(out@) =~= compacted_all(texts(list@)).take(k + 1));
        }
        k = k + 1;
    }
    proof {
        assert(compacted_all(texts(list@)).take(k as int) =~= compacted_all(texts(list@)));
    }
    out
}

fn joined(a: &str, b: &str) -> (r: String)
    ensures
        r@ == a@ + b@,
{
    let mut out = String::from_str(a);
    out.append(b);
    out
}

/// Whether `name` is one of the closure traits a handler is bound by.
pub open spec fn closure_trait(name: Seq<char>) -> bool {
    name == "Fn"@ || name == "FnMut"@ || name == "FnOnce"@
}

/// The parenthesised inputs of the first closure-trait bound among
/// `bounds` that has them.
pub open spec fn bound_inputs(bounds: Seq<BoundDecl>) -> Option<Seq<Seq<char>>>
    decreases bounds.len(),
{
    if bounds.len() == 0 {
        None
    } else {
        let b = bounds[0];
        if b.last matches Some(name) && closure_trait(name@) && b.inputs is Some {
            Some(texts(b.inputs->0@))
        } else {
            bound_inputs(bounds.drop_first())
        }
    }
}

/// The inputs of the handler: in the first predicate bounding `F` that has
/// a closure-trait bound with parenthesised inputs.
pub open spec fn predicate_inputs(predicates: Seq<PredicateDecl>) -> Option<Seq<Seq<char>>>
    decreases predicates.len(),
{
    if predicates.len() == 0 {
        None
    } else {
        let p = predicates[0];
        if p.bounded matches Some(name) && name@ == "F"@ && bound_inputs(p.bounds@) is Some {
            bound_inputs(p.bounds@)
        } else {
            predicate_inputs(predicates.drop_first())
        }
    }
}

/// The argument types of the handler a bindings method takes, as
/// registered: the inputs of the `Fn`, `FnMut` or `FnOnce` bound on `F`,
/// without spaces; none when there is no such bound.
pub open spec fn handler_args(method: MethodDecl) -> Seq<Seq<char>> {
    match predicate_inputs(method.predicates@) {
        Some(inputs) => compacted_all(inputs),
        None => Seq::empty(),
    }
}

/// Each of the closure traits a handler can be bound by - `Fn`, `FnMut`
/// and `FnOnce` - gives the handler's argument types: a method whose first
/// predicate bounds `F` by one of them, with parenthesised inputs, takes a
/// handler of exactly those inputs, spaces taken out.
pub proof fn law_every_closure_trait_gives_the_handler_args(method: MethodDecl, name: String, inputs: Vec<String>)
    requires
        method.predicates.len() > 0,
        method.predicates@[0].bounded matches Some(f) && f@ == seq!['F'],
        method.predicates@[0].bounds.len() > 0,
        method.predicates@[0].bounds@[0].last == Some(name),
        method.predicates@[0].bounds@[0].inputs == Some(inputs),
        name@ == seq!['F', 'n'] || name@ == seq!['F', 'n', 'M', 'u', 't'] || name@ == seq!['F', 'n', 'O', 'n', 'c', 'e'],
    ensures
        handler_args(method) == compacted_all(texts(inputs@)),
        handler_args(method).len() == inputs.len(),
{
    reveal_strlit("F");
    reveal_strlit("Fn");
    reveal_strlit("FnMut");
    reveal_strlit("FnOnce");
    let p = method.predicates@[0];
    assert(closure_trait(name@)) by {
        if name@ == seq!['F', 'n'] {
            assert(name@ =~= "Fn"@);
        } else if name@ == seq!['F', 'n', 'M', 'u', 't'] {
            assert(name@ =~= "FnMut"@);
        } else {
            assert(name@ =~= "FnOnce"@);
        }
    }
    assert(bound_inputs(p.bounds@) == Some(texts(inputs@)));
    assert(p.bounded matches Some(f) && f@ == "F"@) by {
        assert(seq!['F'] =~= "F"@);
    }
    assert(predicate_inputs(method.predicates@) == Some(texts(inputs@)));
}

fn is_closure_trait(name: &str) -> (r: bool)
    ensures
        r == closure_trait(name@),
{
    same_text(name, "Fn") || same_text(name, "FnMut") || same_text(name, "FnOnce")
}

/// The argument types of the handler a bindings method takes: see
/// [`handler_args`].
pub fn handler_arg_types(method: &MethodDecl) -> (r: Vec<String>)
    ensures
        texts(r@) == handler_args(*method),
{
    let predicates = &method.predicates;
    let mut k: usize = 0;
    proof {
        assert(predicates@.skip(0) =~= predicates@);
    }
    while k < predicates.len()
        invariant
            k <= predicates.len(),
            predicate_inputs(predicates@) == predicate_inputs(predicates@.skip(k as int)),
            predicates == method.predicates,
        decreases predicates.len() - k,
    {
        let p = &predicates[k];
        let ghost rest = predicates@.skip(k as int);
        proof {
            assert(rest[0] == *p);
            assert(rest.drop_first() =~= predicates@.skip(k + 1));
        }
        let bound_f = match &p.bounded {
            Some(name) => {
                proof {
                    reveal_strlit("F");
                }
                same_text(name.as_str(), "F")
            },
            None => false,
        };
        if bound_f {
            let bounds = &p.bounds;
            let mut j: usize = 0;
            proof {
                assert(bounds@.skip(0) =~= bounds@);
            }
            while j < bounds.len()
                invariant
                    j <= bounds.len(),
                    bounds == p.bounds,
                    predicates == method.predicates,
                    k < predicates.len(),
                    predicate_inputs(predicates@) == predicate_inputs(predicates@.skip(k as int)),
                    predicates@.skip(k as int)[0] == *p,
                    p.bounded matches Some(name) && name@ == "F"@,
                    bound_inputs(bounds@) == bound_inputs(bounds@.skip(j as int)),
                decreases bounds.len() - j,
            {
                let b = &bounds[j];
                let ghost brest = bounds@.skip(j as int);
                proof {
                    assert(brest[0] == *b);
                    assert(brest.drop_first() =~= bounds@.skip(j + 1));
                }
                let named = match &b.last {
                    Some(name) => is_closure_trait(name.as_str()),
                    None => false,
                };
                if named {
                    match &b.inputs {
                        Some(inputs) => {
                            return compact_all(inputs);
                        },
                        None => {},
                    }
                }
                j = j + 1;
            }
            proof {
                assert(bounds@.skip(j as int) =~= Seq::<BoundDecl>::empty());
            }
        }
        k = k + 1;
    }
    proof {
        assert(predicates@.skip(k as int) =~= Seq::<PredicateDecl>::empty());
    }
    let none: Vec<String> = Vec::new();
    proof {
        assert(texts(none@) =~= Seq::<Seq<char>>::empty());
    }
    none
}

/// A port method other than `send`, as registered: its name, each input's
/// name and type, and its output type, types without spaces.
pub struct ExtraMethodMeta {
    pub name: String,
    pub args: Vec<(String, String)>,
    pub output_ty: Option<String>,
}

/// A `#[port]` trait, as registered.
pub struct PortMeta {
    pub trait_name: String,
    pub msg_type_name: String,
    pub feature: String,
    pub extra_methods: Vec<ExtraMethodMeta>,
}

/// What a `#[port]` trait submits: its registration, the name of the
/// function that pins the message type, and that type's tokens, when `send`
/// takes one.
pub struct PortRegistration {
    pub meta: PortMeta,
    pub pin_fn: String,
    pub msg_type: Option<String>,
}

pub open spec fn opt_text(value: Option<String>) -> Option<Seq<char>> {
    match value {
        Some(text) => Some(text@),
        None => None,
    }
}

/// The type `send` takes: the first input of the first method named `send`
/// that has one.
pub open spec fn send_type(methods: Seq<MethodDecl>) -> Option<Seq<char>>
    decreases methods.len(),
{
    if methods.len() == 0 {
        None
    } else if methods[0].name@ == "send"@ && methods[0].inputs.len() > 0 {
        Some(methods[0].inputs@[0].ty@)
    } else {
        send_type(methods.drop_first())
    }
}

/// The methods other than `send`, in order.
pub open spec fn non_send(methods: Seq<MethodDecl>) -> Seq<MethodDecl>
    decreases methods.len(),
{
    if methods.len() == 0 {
        methods
    } else if methods.last().name@ == "send"@ {
        non_send(methods.drop_last())
    } else {
        non_send(methods.drop_last()).push(methods.last())
    }
}

/// An input's name: its pattern's when that is a plain name, else `arg`.
pub open spec fn input_name(input: InputDecl) -> Seq<char> {
    match input.name {
        Some(name) => name@,
        None => "arg"@,
    }
}

/// `meta` registers the port method `method`.
pub open spec fn extra_registered(meta: ExtraMethodMeta, method: MethodDecl) -> bool {
    &&& meta.name@ == method.name@
    &&& meta.args.len() == method.inputs.len()
    &&& forall|i: int| 0 <= i < meta.args.len() ==> #[trigger] meta.args@[i].0@ == input_name(method.inputs@[i])
        && meta.args@[i].1@ == compacted(method.inputs@[i].ty@)
    &&& opt_text(meta.output_ty) == match method.output {
        Some(out) => Some(compacted(out@)),
        None => None,
    }
}

/// `r` is what the port trait `decl` submits.
pub open spec fn port_registered(r: PortRegistration, decl: TraitDecl) -> bool {
    &&& r.meta.trait_name@ == decl.name@
    &&& r.meta.feature@ == feature_of(decl.name@)
    &&& r.meta.msg_type_name@ == match send_type(decl.methods@) {
        Some(ty) => compacted(ty),
        None => Seq::empty(),
    }
    &&& opt_text(r.msg_type) == send_type(decl.methods@)
    &&& r.pin_fn@ == "__assert_"@ + decl.name@ + "_shape"@
    &&& r.meta.extra_methods.len() == non_send(decl.methods@).len()
    &&& forall|i: int| 0 <= i < r.meta.extra_methods.len() ==> extra_registered(
        #[trigger] r.meta.extra_methods@[i],
        non_send(decl.methods@)[i],
    )
}

fn copy_opt(value: &Option<String>) -> (r: Option<String>)
    ensures
        opt_text(r) == opt_text(*value),
{
    match value {
        Some(text) => Some(text.clone()),
        None => None,
    }
}

fn extra_meta(method: &MethodDecl) -> (r: ExtraMethodMeta)
    ensures
        extra_registered(r, *method),
{
    proof {
        reveal_strlit("arg");
    }
    let mut args: Vec<(String, String)> = Vec::new();
    let mut k: usize = 0;
    while k < method.inputs.len()
        invariant
            k <= method.inputs.len(),
            args.len() == k,
            forall|i: int| 0 <= i < k ==> #[trigger] args@[i].0@ == input_name(method.inputs@[i]) && args@[i].1@
                == compacted(method.inputs@[i].ty@),
        decreases method.inputs.len() - k,
    {
        let input = &method.inputs[k];
        let name = match &input.name {
            Some(name) => name.clone(),
            None => String::from_str("arg"),
        };
        proof {
            reveal_strlit("arg");
        }
        args.push((name, compact(input.ty.as_str())));
        k = k + 1;
    }
    let output_ty = match &method.output {
        Some(out) => Some(compact(out.as_str())),
        None => None,
    };
    ExtraMethodMeta { name: method.name.clone(), args, output_ty }
}

/// What the `#[port]` trait `decl` submits: see [`port_registered`].
pub fn port_registration(decl: &TraitDecl) -> (r: PortRegistration)
    ensures
        port_registered(r, *decl),
{
    proof {
        reveal_strlit("send");
        reveal_strlit("__assert_");
        reveal_strlit("_shape");
    }
    let methods = &decl.methods;
    let mut msg_type: Option<String> = None;
    let mut extra_methods: Vec<ExtraMethodMeta> = Vec::new();
    let mut k: usize = 0;
    proof {
        assert(methods@.take(0) =~= Seq::<MethodDecl>::empty());
        assert(methods@.skip(0) =~= methods@);
    }
    while k < methods.len()
        invariant
            k <= methods.len(),
            methods == decl.methods,
            send_type(methods@) == match msg_type {
                Some(_) => opt_text(msg_type),
                None => send_type(methods@.skip(k as int)),
            },
            extra_methods.len() == non_send(methods@.take(k as int)).len(),
            forall|i: int| 0 <= i < extra_methods.len() ==> extra_registered(
                #[trigger] extra_methods@[i],
                non_send(methods@.take(k as int))[i],
            ),
        decreases methods.len() - k,
    {
        let method = &methods[k];
        let ghost rest = methods@.skip(k as int);
        let ghost before = extra_methods@;
        proof {
            reveal_strlit("send");
            assert(rest[0] == *method);
            assert(rest.drop_first() =~= methods@.skip(k + 1));
            if k == 0 {
                assert(rest =~= methods@);
            }
        }
        let is_send = same_text(method.name.as_str(), "send");
        if is_send {
            if msg_type.is_none() && method.inputs.len() > 0 {
                msg_type = Some(method.inputs[0].ty.clone());
            }
        } else {
            extra_methods.push(extra_meta(method));
        }
        proof {
            let taken = methods@.take(k + 1);
            assert(taken.drop_last() =~= methods@.take(k as int));
            assert(taken.last() == *method);
        }
        k = k + 1;
    }
    proof {
        assert(methods@.take(k as int) =~= methods@);
        assert(methods@.skip(k as int) =~= Seq::<MethodDecl>::empty());
    }
    let msg_type_name = match &msg_type {
        Some(ty) => compact(ty.as_str()),
        None => String::new(),
    };
    let name = decl.name.clone();
    let mut pin_fn = String::from_str("__assert_");
    pin_fn.append(name.as_str());
    pin_fn.append("_shape");
    let meta = PortMeta {
        trait_name: decl.name.clone(),
        msg_type_name,
        feature: feature_from_trait_name(decl.name.as_str()),
        extra_methods,
    };
    PortRegistration { meta, pin_fn, msg_type }
}

/// Whether `c` has the Unicode `White_Space` property.
pub uninterp spec fn white_space(c: char) -> bool;

/// Calls `char::is_whitespace`, which std documents as whether the
/// character has the Unicode `White_Space` property; the property itself is
/// named, not spelled out.
#[verifier::external_body]
fn is_white(c: char) -> (r: bool)
    ensures
        r == white_space(c),
{
    c.is_whitespace()
}

/// `s` without its leading white space.
pub open spec fn trim_start(s: Seq<char>) -> Seq<char>
    decreases s.len(),
{
    if s.len() > 0 && white_space(s[0]) {
        trim_start(s.drop_first())
    } else {
        s
    }
}

/// `s` without its trailing white space.
pub open spec fn trim_end(s: Seq<char>) -> Seq<char>
    decreases s.len(),
{
    if s.len() > 0 && white_space(s.last()) {
        trim_end(s.drop_last())
    } else {
        s
    }
}

/// `s` without leading and trailing white space, as `str::trim` is
/// documented to do.
pub open spec fn trimmed(s: Seq<char>) -> Seq<char> {
    trim_end(trim_start(s))
}

/// The pieces of `s` between commas, as `str::split(',')` gives them: one
/// more than there are commas.
pub open spec fn comma_pieces(s: Seq<char>) -> Seq<Seq<char>>
    decreases s.len(),
{
    if s.len() == 0 {
        seq![Seq::empty()]
    } else {
        let pieces = comma_pieces(s.drop_last());
        if s.last() == ',' {
            pieces.push(Seq::empty())
        } else {
            pieces.update(pieces.len() - 1, pieces.last().push(s.last()))
        }
    }
}

proof fn lemma_comma_pieces_len(s: Seq<char>)
    ensures
        comma_pieces(s).len() >= 1,
    decreases s.len(),
{
    if s.len() > 0 {
        lemma_comma_pieces_len(s.drop_last());
    }
}

/// `s` without leading and trailing white space.
fn trim(s: &str) -> (r: String)
    ensures
        r@ == trimmed(s@),
{
    let len = s.unicode_len();
    let mut start: usize = 0;
    proof {
        assert(s@.skip(0) =~= s@);
    }
    while start < len && is_white(s.get_char(start))
        invariant
            len == s@.len(),
            start <= len,
            trim_start(s@) == trim_start(s@.skip(start as int)),
        decreases len - start,
    {
        proof {
            assert(s@.skip(start as int).drop_first() =~= s@.skip(start + 1));
        }
        start = start + 1;
    }
    let mut end: usize = len;
    proof {
        assert(s@.skip(start as int).take(end - start) =~= s@.skip(start as int));
    }
    while end > start && is_white(s.get_char(end - 1))
        invariant
            len == s@.len(),
            start <= end <= len,
            trim_start(s@) == s@.skip(start as int),
            trimmed(s@) == trim_end(s@.subrange(start as int, end as int)),
        decreases end,
    {
        proof {
            assert(s@.subrange(start as int, end as int).drop_last() =~= s@.subrange(start as int, end - 1));
        }
        end = end - 1;
    }
    proof {
        if start < len {
            assert(s@.skip(start as int)[0] == s@[start as int]);
        }
        assert(s@.skip(start as int) =~= s@.subrange(start as int, len as int));
    }
    s.substring_char(start, end).to_string()
}

/// Each of `pieces` trimmed.
pub open spec fn trimmed_all(pieces: Seq<Seq<char>>) -> Seq<Seq<char>> {
    pieces.map_values(|p: Seq<char>| trimmed(p))
}

/// The types listed in `text`, split at commas and trimmed.
fn split_types(text: &str) -> (r: Vec<String>)
    ensures
        texts(r@) == trimmed_all(comma_pieces(text@)),
{
    let len = text.unicode_len();
    let mut pieces: Vec<String> = Vec::new();
    let mut from: usize = 0;
    let mut i: usize = 0;
    proof {
        assert(comma_pieces(text@.take(0)) =~= seq![Seq::<char>::empty()]);
        assert(texts(pieces@) =~= Seq::<Seq<char>>::empty());
        assert(text@.subrange(0, 0) =~= Seq::<char>::empty());
        assert(trimmed_all(comma_pieces(text@.take(0)).drop_last()) =~= Seq::<Seq<char>>::empty());
    }
    while i < len
        invariant
            len == text@.len(),
            from <= i <= len,
            comma_pieces(text@.take(i as int)).len() >= 1,
            comma_pieces(text@.take(i as int)).last() == text@.subrange(from as int, i as int),
            texts(pieces@) == trimmed_all(comma_pieces(text@.take(i as int)).drop_last()),
        decreases len - i,
    {
        let c = text.get_char(i);
        let ghost before = comma_pieces(text@.take(i as int));
        let ghost kept = pieces@;
        let ghost from_old = from as int;
        proof {
            let taken = text@.take(i + 1);
            assert(taken.drop_last() =~= text@.take(i as int));
            assert(taken.last() == c);
            assert(before.last() == text@.subrange(from_old, i as int));
        }
        if c == ',' {
            let piece = trim(text.substring_char(from, i));
            pieces.push(piece);
            from = i + 1;
            proof {
                let now = comma_pieces(text@.take(i + 1));
                assert(now == before.push(Seq::empty()));
                assert(texts(pieces@) =~= texts(kept).push(trimmed(text@.subrange(from_old, i as int))));
                assert(trimmed_all(before) =~= trimmed_all(before.drop_last()).push(trimmed(before.last())));
                assert(now.drop_last() =~= before);
                assert(texts(pieces@) =~= trimmed_all(now.drop_last()));
                assert(text@.subrange(from as int, i + 1) =~= Seq::<char>::empty());
            }
        } else {
            proof {
                let now = comma_pieces(text@.take(i + 1));
                assert(now == before.update(before.len() - 1, before.last().push(c)));
                assert(text@.subrange(from as int, i + 1) =~= text@.subrange(from as int, i as int).push(c));
                assert(now.drop_last() =~= before.drop_last());
            }
        }
        i = i + 1;
    }
    let ghost kept = pieces@;
    let last = trim(text.substring_char(from, len));
    pieces.push(last);
    proof {
        assert(text@.take(i as int) =~= text@);
        let all = comma_pieces(text@);
        assert(all.last() == text@.subrange(from as int, len as int));
        assert(all =~= all.drop_last().push(all.last()));
        assert(texts(pieces@) =~= texts(kept).push(trimmed(all.last())));
        assert(trimmed_all(all) =~= trimmed_all(all.drop_last()).push(trimmed(all.last())));
    }
    pieces
}

pub open spec fn key_is(item: NestedDecl, key: Seq<char>) -> bool {
    item.key matches Some(k) && k@ == key
}

/// Whether reading `nested` in order meets `flag` before it stops: the
/// reading stops after an item with `= ...` or parentheses, which a reader
/// looking for a flag leaves unread.
pub open spec fn flag_in(nested: Seq<NestedDecl>, flag: Seq<char>) -> bool
    decreases nested.len(),
{
    if nested.len() == 0 {
        false
    } else if key_is(nested[0], flag) {
        true
    } else if nested[0].assigned || nested[0].listed {
        false
    } else {
        flag_in(nested.drop_first(), flag)
    }
}

/// The string `key` is last set to while reading `nested` in order, `found`
/// before it: the reading takes the string of each `key = "..."` and stops
/// after an item whose `= ...` or parentheses it leaves unread.
pub open spec fn value_in(nested: Seq<NestedDecl>, key: Seq<char>, found: Option<Seq<char>>) -> Option<Seq<char>>
    decreases nested.len(),
{
    if nested.len() == 0 {
        found
    } else {
        let item = nested[0];
        if key_is(item, key) && item.assigned {
            match item.text {
                Some(text) => value_in(nested.drop_first(), key, Some(text@)),
                None => found,
            }
        } else if item.assigned || item.listed {
            found
        } else {
            value_in(nested.drop_first(), key, found)
        }
    }
}

pub open spec fn attr_named(attr: AttrDecl, name: Seq<char>) -> bool {
    attr.name matches Some(n) && n@ == name
}

/// Whether some attribute is named `name`.
pub open spec fn has_attr(attrs: Seq<AttrDecl>, name: Seq<char>) -> bool
    decreases attrs.len(),
{
    attrs.len() > 0 && (attr_named(attrs[0], name) || has_attr(attrs.drop_first(), name))
}

/// Whether some attribute named `name` holds the flag `flag`.
pub open spec fn has_flag(attrs: Seq<AttrDecl>, name: Seq<char>, flag: Seq<char>) -> bool
    decreases attrs.len(),
{
    attrs.len() > 0 && ((attr_named(attrs[0], name) && flag_in(attrs[0].nested@, flag)) || has_flag(
        attrs.drop_first(),
        name,
        flag,
    ))
}

/// The string `key` is set to in the first attribute named `name` that
/// sets it.
pub open spec fn attr_value(attrs: Seq<AttrDecl>, name: Seq<char>, key: Seq<char>) -> Option<Seq<char>>
    decreases attrs.len(),
{
    if attrs.len() == 0 {
        None
    } else if attr_named(attrs[0], name) && value_in(attrs[0].nested@, key, None) is Some {
        value_in(attrs[0].nested@, key, None)
    } else {
        attr_value(attrs.drop_first(), name, key)
    }
}

fn is_key(item: &NestedDecl, key: &str) -> (r: bool)
    ensures
        r == key_is(*item, key@),
{
    match &item.key {
        Some(k) => same_text(k.as_str(), key),
        None => false,
    }
}

fn nested_flag(nested: &Vec<NestedDecl>, flag: &str) -> (r: bool)
    ensures
        r == flag_in(nested@, flag@),
{
    let mut k: usize = 0;
    proof {
        assert(nested@.skip(0) =~= nested@);
    }
    while k < nested.len()
        invariant
            k <= nested.len(),
            flag_in(nested@, flag@) == flag_in(nested@.skip(k as int), flag@),
        decreases nested.len() - k,
    {
        let item = &nested[k];
        proof {
            assert(nested@.skip(k as int)[0] == *item);
            assert(nested@.skip(k as int).drop_first() =~= nested@.skip(k + 1));
        }
        if is_key(item, flag) {
            return true;
        }
        if item.assigned || item.listed {
            return false;
        }
        k = k + 1;
    }
    false
}

fn nested_value(nested: &Vec<NestedDecl>, key: &str) -> (r: Option<String>)
    ensures
        opt_text(r) == value_in(nested@, key@, None),
{
    let mut found: Option<String> = None;
    let mut k: usize = 0;
    proof {
        assert(nested@.skip(0) =~= nested@);
    }
    while k < nested.len()
        invariant
            k <= nested.len(),
            value_in(nested@, key@, None) == value_in(nested@.skip(k as int), key@, opt_text(found)),
        decreases nested.len() - k,
    {
        let item = &nested[k];
        proof {
            assert(nested@.skip(k as int)[0] == *item);
            assert(nested@.skip(k as int).drop_first() =~= nested@.skip(k + 1));
        }
        if is_key(item, key) && item.assigned {
            match &item.text {
                Some(text) => {
                    found = Some(text.clone());
                },
                None => {
                    return found;
                },
            }
        } else if item.assigned || item.listed {
            return found;
        }
        k = k + 1;
    }
    found
}

fn is_named(attr: &AttrDecl, name: &str) -> (r: bool)
    ensures
        r == attr_named(*attr, name@),
{
    match &attr.name {
        Some(n) => same_text(n.as_str(), name),
        None => false,
    }
}

fn attr_present(attrs: &Vec<AttrDecl>, name: &str) -> (r: bool)
    ensures
        r == has_attr(attrs@, name@),
{
    let mut k: usize = 0;
    proof {
        assert(attrs@.skip(0) =~= attrs@);
    }
    while k < attrs.len()
        invariant
            k <= attrs.len(),
            has_attr(attrs@, name@) == has_attr(attrs@.skip(k as int), name@),
        decreases attrs.len() - k,
    {
        proof {
            assert(attrs@.skip(k as int)[0] == attrs@[k as int]);
            assert(attrs@.skip(k as int).drop_first() =~= attrs@.skip(k + 1));
        }
        if is_named(&attrs[k], name) {
            return true;
        }
        k = k + 1;
    }
    false
}

fn attr_flag(attrs: &Vec<AttrDecl>, name: &str, flag: &str) -> (r: bool)
    ensures
        r == has_flag(attrs@, name@, flag@),
{
    let mut k: usize = 0;
    proof {
        assert(attrs@.skip(0) =~= attrs@);
    }
    while k < attrs.len()
        invariant
            k <= attrs.len(),
            has_flag(attrs@, name@, flag@) == has_flag(attrs@.skip(k as int), name@, flag@),
        decreases attrs.len() - k,
    {
        proof {
            assert(attrs@.skip(k as int)[0] == attrs@[k as int]);
            assert(attrs@.skip(k as int).drop_first() =~= attrs@.skip(k + 1));
        }
        if is_named(&attrs[k], name) && nested_flag(&attrs[k].nested, flag) {
            return true;
        }
        k = k + 1;
    }
    false
}

fn attr_arg(attrs: &Vec<AttrDecl>, name: &str, key: &str) -> (r: Option<String>)
    ensures
        opt_text(r) == attr_value(attrs@, name@, key@),
{
    let mut k: usize = 0;
    proof {
        assert(attrs@.skip(0) =~= attrs@);
    }
    while k < attrs.len()
        invariant
            k <= attrs.len(),
            attr_value(attrs@, name@, key@) == attr_value(attrs@.skip(k as int), name@, key@),
        decreases attrs.len() - k,
    {
        proof {
            assert(attrs@.skip(k as int)[0] == attrs@[k as int]);
            assert(attrs@.skip(k as int).drop_first() =~= attrs@.skip(k + 1));
        }
        if is_named(&attrs[k], name) {
            let value = nested_value(&attrs[k].nested, key);
            if value.is_some() {
                return value;
            }
        }
        k = k + 1;
    }
    None
}

/// One method of a `#[bindings]` trait, as registered.
pub struct BindingMethodMeta {
    pub name: String,
    pub arg_types: Vec<String>,
    pub is_manual: bool,
    pub tracing_skip: bool,
    pub tracing_target: Option<String>,
    pub slint_name: Option<String>,
    pub slint_arg_types: Option<Vec<String>>,
    pub slint_global_override: Option<String>,
    pub slint_skip: bool,
    pub slint_import: Option<String>,
}

/// A `#[bindings]` trait, as registered.
pub struct BindingMeta {
    pub trait_name: String,
    pub feature: String,
    pub methods: Vec<BindingMethodMeta>,
}

pub open spec fn opt_texts(value: Option<Vec<String>>) -> Option<Seq<Seq<char>>> {
    match value {
        Some(list) => Some(texts(list@)),
        None => None,
    }
}

/// `meta` registers the bindings method `method`: its handler's argument
/// types, and what its `#[manual]`, `#[tracing(..)]` and `#[slint(..)]`
/// attributes say.
pub open spec fn binding_method_registered(meta: BindingMethodMeta, method: MethodDecl) -> bool {
    let attrs = method.attrs@;
    &&& meta.name@ == method.name@
    &&& texts(meta.arg_types@) == handler_args(method)
    &&& meta.is_manual == has_attr(attrs, "manual"@)
    &&& meta.tracing_skip == (has_attr(attrs, "tracing"@) && has_flag(attrs, "tracing"@, "skip"@))
    &&& opt_text(meta.tracing_target) == attr_value(attrs, "tracing"@, "target"@)
    &&& opt_text(meta.slint_name) == attr_value(attrs, "slint"@, "name"@)
    &&& opt_texts(meta.slint_arg_types) == match attr_value(attrs, "slint"@, "arg_types"@) {
        Some(list) => Some(trimmed_all(comma_pieces(list))),
        None => None,
    }
    &&& opt_text(meta.slint_global_override) == attr_value(attrs, "slint"@, "global"@)
    &&& meta.slint_skip == has_flag(attrs, "slint"@, "skip"@)
    &&& opt_text(meta.slint_import) == attr_value(attrs, "slint"@, "import"@)
}

fn binding_method(method: &MethodDecl) -> (r: BindingMethodMeta)
    ensures
        binding_method_registered(r, *method),
{
    let attrs = &method.attrs;
    let slint_arg_types = match attr_arg(attrs, "slint", "arg_types") {
        Some(list) => Some(split_types(list.as_str())),
        None => None,
    };
    BindingMethodMeta {
        name: method.name.clone(),
        arg_types: handler_arg_types(method),
        is_manual: attr_present(attrs, "manual"),
        tracing_skip: attr_present(attrs, "tracing") && attr_flag(attrs, "tracing", "skip"),
        tracing_target: attr_arg(attrs, "tracing", "target"),
        slint_name: attr_arg(attrs, "slint", "name"),
        slint_arg_types,
        slint_global_override: attr_arg(attrs, "slint", "global"),
        slint_skip: attr_flag(attrs, "slint", "skip"),
        slint_import: attr_arg(attrs, "slint", "import"),
    }
}

/// What the `#[bindings]` trait `decl` registers: its feature, and each of
/// its methods in order.
pub fn binding_registration(decl: &TraitDecl) -> (r: BindingMeta)
    ensures
        r.trait_name@ == decl.name@,
        r.feature@ == feature_of(decl.name@),
        r.methods.len() == decl.methods.len(),
        forall|i: int| 0 <= i < r.methods.len() ==> binding_method_registered(
            #[trigger] r.methods@[i],
            decl.methods@[i],
        ),
{
    let mut methods: Vec<BindingMethodMeta> = Vec::new();
    let mut k: usize = 0;
    while k < decl.methods.len()
        invariant
            k <= decl.methods.len(),
            methods.len() == k,
            forall|i: int| 0 <= i < k ==> binding_method_registered(#[trigger] methods@[i], decl.methods@[i]),
        decreases decl.methods.len() - k,
    {
        methods.push(binding_method(&decl.methods[k]));
        k = k + 1;
    }
    BindingMeta { trait_name: decl.name.clone(), feature: feature_from_trait_name(decl.name.as_str()), methods }
}

/// The slot a bindings method fills: the method, the `emit_` method that
/// fires it, the field that keeps its handler, and the handler's argument
/// types.
pub struct HandlerSlot {
    pub name: String,
    pub emit_name: String,
    pub field: String,
    pub arg_types: Vec<String>,
}

/// The adapter a store dispatches a `#[bindings]` trait through.
pub struct DispatchPlan {
    pub trait_name: String,
    pub struct_name: String,
    pub slots: Vec<HandlerSlot>,
}

pub open spec fn slot_for(slot: HandlerSlot, method: MethodDecl) -> bool {
    &&& slot.name@ == method.name@
    &&& slot.emit_name@ == "emit_"@ + method.name@
    &&& slot.field@ == method.name@ + "_handler"@
    &&& texts(slot.arg_types@) == handler_args(method)
}

/// The adapter for the `#[bindings]` trait `decl`: a struct named after its
/// feature, with one slot per method, in order.
pub fn dispatch_plan(decl: &TraitDecl) -> (r: DispatchPlan)
    ensures
        r.trait_name@ == decl.name@,
        r.struct_name@ == pascal(feature_of(decl.name@)) + "Dispatch"@,
        r.slots.len() == decl.methods.len(),
        forall|i: int| 0 <= i < r.slots.len() ==> slot_for(#[trigger] r.slots@[i], decl.methods@[i]),
{
    let feature = feature_from_trait_name(decl.name.as_str());
    let mut struct_name = pascal_case(feature.as_str());
    struct_name.append("Dispatch");
    let mut slots: Vec<HandlerSlot> = Vec::new();
    let mut k: usize = 0;
    while k < decl.methods.len()
        invariant
            k <= decl.methods.len(),
            slots.len() == k,
            forall|i: int| 0 <= i < k ==> slot_for(#[trigger] slots@[i], decl.methods@[i]),
        decreases decl.methods.len() - k,
    {
        let method = &decl.methods[k];
        slots.push(
            HandlerSlot {
                name: method.name.clone(),
                emit_name: joined("emit_", method.name.as_str()),
                field: joined(method.name.as_str(), "_handler"),
                arg_types: handler_arg_types(method),
            },
        );
        k = k + 1;
    }
    DispatchPlan { trait_name: decl.name.clone(), struct_name, slots }
}

} // verus!
