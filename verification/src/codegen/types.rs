//! Types as the generators read and write them: a path with its generic
//! arguments, a reference, a slice, or any other type kept as its tokens;
//! and how a type named by its bare name is qualified with the path where it
//! lives.

use vstd::prelude::*;

use crate::codegen::messages::texts;
use crate::codegen::{is_std_type, std_type};
use crate::text::same_text;

verus! {

/// A type as written in a trait.
pub enum TypeTree {
    /// A path: `::` in front when `leading`, then its segments.
    Path { leading: bool, segments: Vec<Segment> },
    /// A path through a qualified self, `<T as Trait>::Name`, as its tokens
    /// read.
    QualifiedPath(String),
    /// `&`, with a lifetime and `mut` as written (`prefix`), then the type.
    Reference { prefix: String, elem: Box<TypeTree> },
    /// `[T]`.
    Slice(Box<TypeTree>),
    /// Any other type, as its tokens read.
    Other(String),
}

/// One segment of a path: a name and what follows it.
pub struct Segment {
    pub ident: String,
    pub args: SegmentArgs,
}

/// What follows a segment's name.
pub enum SegmentArgs {
    Plain,
    /// `<...>`, one argument after another.
    Angle(Vec<GenericArg>),
    /// `(...) -> ...`, as its tokens read.
    Paren(String),
}

/// One argument in angle brackets.
pub enum GenericArg {
    Type(TypeTree),
    /// A lifetime, a constant or a binding, as its tokens read.
    Other(String),
}

/// A [`TypeTree`] as its contracts speak of it.
pub enum TypeView {
    Path { leading: bool, segments: Seq<SegmentView> },
    QualifiedPath(Seq<char>),
    Reference { prefix: Seq<char>, elem: Box<TypeView> },
    Slice(Box<TypeView>),
    Other(Seq<char>),
}

pub struct SegmentView {
    pub ident: Seq<char>,
    pub args: ArgsView,
}

pub enum ArgsView {
    Plain,
    Angle(Seq<ArgView>),
    Paren(Seq<char>),
}

pub enum ArgView {
    Type(TypeView),
    Other(Seq<char>),
}

pub open spec fn type_view(t: TypeTree) -> TypeView
    decreases t,
{
    match t {
        TypeTree::Path { leading, segments } => TypeView::Path { leading, segments: segment_views(segments@) },
        TypeTree::Reference { prefix, elem } => TypeView::Reference { prefix: prefix@, elem: Box::new(type_view(*elem)) },
        TypeTree::Slice(elem) => TypeView::Slice(Box::new(type_view(*elem))),
        TypeTree::QualifiedPath(text) => TypeView::QualifiedPath(text@),
        TypeTree::Other(text) => TypeView::Other(text@),
    }
}

pub open spec fn segment_views(segments: Seq<Segment>) -> Seq<SegmentView>
    decreases segments,
{
    if segments.len() == 0 {
        Seq::empty()
    } else {
        segment_views(segments.drop_last()).push(segment_view(segments.last()))
    }
}

pub open spec fn segment_view(segment: Segment) -> SegmentView
    decreases segment,
{
    SegmentView { ident: segment.ident@, args: args_view(segment.args) }
}

pub open spec fn args_view(args: SegmentArgs) -> ArgsView
    decreases args,
{
    match args {
        SegmentArgs::Plain => ArgsView::Plain,
        SegmentArgs::Angle(list) => ArgsView::Angle(arg_views(list@)),
        SegmentArgs::Paren(text) => ArgsView::Paren(text@),
    }
}

pub open spec fn arg_views(args: Seq<GenericArg>) -> Seq<ArgView>
    decreases args,
{
    if args.len() == 0 {
        Seq::empty()
    } else {
        arg_views(args.drop_last()).push(arg_view(args.last()))
    }
}

pub open spec fn arg_view(arg: GenericArg) -> ArgView
    decreases arg,
{
    match arg {
        GenericArg::Type(t) => ArgView::Type(type_view(t)),
        GenericArg::Other(text) => ArgView::Other(text@),
    }
}

impl View for TypeTree {
    type V = TypeView;

    open spec fn view(&self) -> TypeView {
        type_view(*self)
    }
}

pub proof fn lemma_segment_views(segments: Seq<Segment>)
    ensures
        segment_views(segments).len() == segments.len(),
        forall|k: int| 0 <= k < segments.len() ==> #[trigger] segment_views(segments)[k] == segment_view(segments[k]),
    decreases segments.len(),
{
    if segments.len() > 0 {
        lemma_segment_views(segments.drop_last());
    }
}

pub proof fn lemma_arg_views(args: Seq<GenericArg>)
    ensures
        arg_views(args).len() == args.len(),
        forall|k: int| 0 <= k < args.len() ==> #[trigger] arg_views(args)[k] == arg_view(args[k]),
    decreases args.len(),
{
    if args.len() > 0 {
        lemma_arg_views(args.drop_last());
    }
}

/// The first override for `ident`: the path it names, segment by segment.
pub open spec fn first_override(overrides: Seq<(Seq<char>, Seq<Seq<char>>)>, ident: Seq<char>) -> Option<Seq<Seq<char>>>
    decreases overrides.len(),
{
    if overrides.len() == 0 {
        None
    } else if overrides[0].0 == ident {
        Some(overrides[0].1)
    } else {
        first_override(overrides.drop_first(), ident)
    }
}

pub open spec fn overrides_view(overrides: Seq<(String, Vec<String>)>) -> Seq<(Seq<char>, Seq<Seq<char>>)> {
    overrides.map_values(|entry: (String, Vec<String>)| (entry.0@, texts(entry.1@)))
}

/// Where a type named `ident` lives: `slint::SharedString` for
/// `SharedString`, else the first override for it, else the feature's module
/// of the contracts crate.
pub open spec fn resolved_path(
    feature: Seq<char>,
    ident: Seq<char>,
    contracts_crate: Seq<char>,
    overrides: Seq<(Seq<char>, Seq<Seq<char>>)>,
) -> Seq<Seq<char>> {
    if ident == seq!['S', 'h', 'a', 'r', 'e', 'd', 'S', 't', 'r', 'i', 'n', 'g'] {
        seq![seq!['s', 'l', 'i', 'n', 't'], ident]
    } else {
        match first_override(overrides, ident) {
            Some(path) => path,
            None => seq![contracts_crate, seq!['f', 'e', 'a', 't', 'u', 'r', 'e', 's'], feature, ident],
        }
    }
}

/// `path`'s names as segments, the last one followed by `args`.
pub open spec fn path_with_args(path: Seq<Seq<char>>, args: ArgsView) -> Seq<SegmentView> {
    Seq::new(
        path.len(),
        |k: int| SegmentView { ident: path[k], args: if k == path.len() - 1 { args } else { ArgsView::Plain } },
    )
}

/// `t` with every type the registry named by its bare name qualified: a
/// path whose first name is a type of std keeps its segments, with the types
/// in its first segment's angle brackets qualified; any other path becomes
/// the path where its first name lives, the last segment taking the first
/// one's arguments, qualified; a reference or a slice has its element
/// qualified; a path through a qualified self, and anything else, stays as
/// it is.
pub open spec fn rewritten(
    feature: Seq<char>,
    t: TypeView,
    contracts_crate: Seq<char>,
    overrides: Seq<(Seq<char>, Seq<Seq<char>>)>,
) -> TypeView
    decreases t,
{
    match t {
        TypeView::Path { leading, segments } => if segments.len() == 0 {
            t
        } else {
            let first = segments[0];
            let args = rewritten_args(feature, first.args, contracts_crate, overrides);
            if std_type(first.ident) {
                TypeView::Path { leading, segments: segments.update(0, SegmentView { ident: first.ident, args }) }
            } else {
                TypeView::Path {
                    leading: false,
                    segments: path_with_args(resolved_path(feature, first.ident, contracts_crate, overrides), args),
                }
            }
        },
        TypeView::Reference { prefix, elem } => TypeView::Reference {
            prefix,
            elem: Box::new(rewritten(feature, *elem, contracts_crate, overrides)),
        },
        TypeView::Slice(elem) => TypeView::Slice(Box::new(rewritten(feature, *elem, contracts_crate, overrides))),
        TypeView::QualifiedPath(_) => t,
        TypeView::Other(_) => t,
    }
}

pub open spec fn rewritten_args(
    feature: Seq<char>,
    args: ArgsView,
    contracts_crate: Seq<char>,
    overrides: Seq<(Seq<char>, Seq<Seq<char>>)>,
) -> ArgsView
    decreases args,
{
    match args {
        ArgsView::Angle(list) => ArgsView::Angle(rewritten_list(feature, list, contracts_crate, overrides)),
        _ => args,
    }
}

pub open spec fn rewritten_list(
    feature: Seq<char>,
    list: Seq<ArgView>,
    contracts_crate: Seq<char>,
    overrides: Seq<(Seq<char>, Seq<Seq<char>>)>,
) -> Seq<ArgView>
    decreases list,
{
    if list.len() == 0 {
        list
    } else {
        rewritten_list(feature, list.drop_last(), contracts_crate, overrides).push(
            match list.last() {
                ArgView::Type(t) => ArgView::Type(rewritten(feature, t, contracts_crate, overrides)),
                ArgView::Other(text) => ArgView::Other(text),
            },
        )
    }
}

fn copy_text(s: &String) -> (r: String)
    ensures
        r@ == s@,
{
    s.clone()
}

fn override_for<'a>(overrides: &'a Vec<(String, Vec<String>)>, ident: &str) -> (r: Option<&'a Vec<String>>)
    ensures
        match r {
            Some(path) => first_override(overrides_view(overrides@), ident@) == Some(texts(path@)),
            None => first_override(overrides_view(overrides@), ident@) is None,
        },
{
    let mut k: usize = 0;
    proof {
        assert(overrides_view(overrides@).skip(0) =~= overrides_view(overrides@));
    }
    while k < overrides.len()
        invariant
            k <= overrides.len(),
            overrides_view(overrides@).len() == overrides.len(),
            first_override(overrides_view(overrides@), ident@) == first_override(
                overrides_view(overrides@).skip(k as int),
                ident@,
            ),
        decreases overrides.len() - k,
    {
        let ghost rest = overrides_view(overrides@).skip(k as int);
        proof {
            assert(rest[0] == (overrides@[k as int].0@, texts(overrides@[k as int].1@)));
        }
        if same_text(overrides[k].0.as_str(), ident) {
            return Some(&overrides[k].1);
        }
        proof {
            assert(rest.drop_first() =~= overrides_view(overrides@).skip(k + 1));
        }
        k = k + 1;
    }
    None
}

fn plain_segment(ident: String) -> (r: Segment)
    ensures
        segment_view(r) == (SegmentView { ident: ident@, args: ArgsView::Plain }),
{
    Segment { ident, args: SegmentArgs::Plain }
}

/// The segments of the path where a type named `ident` lives, the last one
/// followed by `args`.
fn resolved_segments(
    feature: &str,
    ident: &String,
    contracts_crate: &str,
    overrides: &Vec<(String, Vec<String>)>,
    args: SegmentArgs,
) -> (r: Vec<Segment>)
    ensures
        segment_views(r@) == path_with_args(
            resolved_path(feature@, ident@, contracts_crate@, overrides_view(overrides@)),
            args_view(args),
        ),
{
    let ghost args_v = args_view(args);
    let mut names: Vec<String> = Vec::new();
    proof {
        reveal_strlit("SharedString");
        reveal_strlit("slint");
        reveal_strlit("features");
    }
    if same_text(ident.as_str(), "SharedString") {
        names.push(String::from_str("slint"));
        names.push(copy_text(ident));
        proof {
            assert(texts(names@)[0] == seq!['s', 'l', 'i', 'n', 't']);
            assert(ident@ == seq!['S', 'h', 'a', 'r', 'e', 'd', 'S', 't', 'r', 'i', 'n', 'g']);
            assert(resolved_path(feature@, ident@, contracts_crate@, overrides_view(overrides@)) == seq![seq!['s', 'l', 'i', 'n', 't'], ident@]);
            assert(texts(names@) =~= resolved_path(feature@, ident@, contracts_crate@, overrides_view(overrides@)));
        }
    } else {
        proof {
            reveal_strlit("SharedString");
            if ident@ == seq!['S', 'h', 'a', 'r', 'e', 'd', 'S', 't', 'r', 'i', 'n', 'g'] {
                assert(ident@ =~= "SharedString"@);
            }
        }
        match override_for(overrides, ident.as_str()) {
            Some(path) => {
                let mut k: usize = 0;
                while k < path.len()
                    invariant
                        ident@ != seq!['S', 'h', 'a', 'r', 'e', 'd', 'S', 't', 'r', 'i', 'n', 'g'],
                        k <= path.len(),
                        texts(names@) == texts(path@).take(k as int),
                    decreases path.len() - k,
                {
                    let ghost before = names@;
                    names.push(path[k].clone());
                    proof {
                        assert(names@ =~= before.push(path@[k as int]));
                        assert(texts(names@) =~= texts(before).push(path@[k as int]@));
                        assert(texts(path@).take(k + 1) =~= texts(path@).take(k as int).push(path@[k as int]@));
                    }
                    k = k + 1;
                }
                proof {
                    assert(texts(path@).take(k as int) =~= texts(path@));
                    assert(ident@ != seq!['S', 'h', 'a', 'r', 'e', 'd', 'S', 't', 'r', 'i', 'n', 'g']);
                    assert(resolved_path(feature@, ident@, contracts_crate@, overrides_view(overrides@)) == texts(path@));
                    assert(texts(names@) =~= resolved_path(feature@, ident@, contracts_crate@, overrides_view(overrides@)));
                }
            },
            None => {
                names.push(String::from_str(contracts_crate));
                names.push(String::from_str("features"));
                names.push(String::from_str(feature));
                names.push(copy_text(ident));
                proof {
                    assert(ident@ != seq!['S', 'h', 'a', 'r', 'e', 'd', 'S', 't', 'r', 'i', 'n', 'g']);
                    let features = seq!['f', 'e', 'a', 't', 'u', 'r', 'e', 's'];
                    assert(resolved_path(feature@, ident@, contracts_crate@, overrides_view(overrides@)) == seq![
                        contracts_crate@,
                        features,
                        feature@,
                        ident@,
                    ]);
                    assert(names@[1]@ == features);
                    assert(texts(names@)[0] == contracts_crate@);
                    assert(texts(names@)[1] == features);
                    assert(texts(names@)[2] == feature@);
                    assert(texts(names@)[3] == ident@);
                    assert(texts(names@) =~= resolved_path(feature@, ident@, contracts_crate@, overrides_view(overrides@)));
                }
            },
        }
    }
    let ghost path = texts(names@);
    proof {
        assert(path =~= resolved_path(feature@, ident@, contracts_crate@, overrides_view(overrides@)));
    }
    let n = names.len();
    let mut out: Vec<Segment> = Vec::new();
    let mut tail_args = Some(args);
    let mut k: usize = 0;
    while k < n
        invariant
            n == names.len(),
            path == texts(names@),
            k <= n,
            tail_args matches Some(a) ==> args_view(a) == args_v,
            k < n ==> tail_args is Some,
            segment_views(out@) == path_with_args(path, args_v).take(k as int),
        decreases n - k,
    {
        let ghost before = out@;
        let name = copy_text(&names[k]);
        if k + 1 == n {
            let last_args = match tail_args {
                Some(a) => a,
                None => SegmentArgs::Plain,
            };
            tail_args = None;
            out.push(Segment { ident: name, args: last_args });
        } else {
            out.push(plain_segment(name));
        }
        proof {
            assert(path[k as int] == names@[k as int]@);
            assert(out@.drop_last() =~= before);
            assert(segment_views(out@) == segment_views(before).push(segment_view(out@.last())));
            assert(segment_views(out@) =~= path_with_args(path, args_v).take(k + 1));
        }
        k = k + 1;
    }
    proof {
        assert(path_with_args(path, args_v).take(k as int) =~= path_with_args(path, args_v));
    }
    out
}

/// `ty` with every type named by its bare name qualified: see
/// [`rewritten`].
pub fn rewrite_type(
    feature: &str,
    ty: &TypeTree,
    contracts_crate: &str,
    overrides: &Vec<(String, Vec<String>)>,
) -> (r: TypeTree)
    ensures
        r@ == rewritten(feature@, ty@, contracts_crate@, overrides_view(overrides@)),
    decreases ty,
{
    match ty {
        TypeTree::Path { leading, segments } => {
            proof {
                lemma_segment_views(segments@);
            }
            if segments.len() == 0 {
                let none: Vec<Segment> = Vec::new();
                proof {
                    assert(segment_views(none@) =~= segment_views(segments@));
                }
                return TypeTree::Path { leading: *leading, segments: none };
            }
            let first = &segments[0];
            proof {
                assert(decreases_to!(*ty => *segments));
                assert(decreases_to!(*segments => segments[0]));
                assert(decreases_to!(segments[0] => segments[0].args));
            }
            let args = rewrite_args(feature, &first.args, contracts_crate, overrides);
            if is_std_type(first.ident.as_str()) {
                let mut out: Vec<Segment> = Vec::new();
                out.push(Segment { ident: copy_text(&first.ident), args });
                let mut k: usize = 1;
                while k < segments.len()
                    invariant
                        1 <= k <= segments.len(),
                        out.len() == k,
                        segment_view(out@[0]) == (SegmentView {
                            ident: segments@[0].ident@,
                            args: rewritten_args(feature@, args_view(segments@[0].args), contracts_crate@, overrides_view(overrides@)),
                        }),
                        forall|j: int| 1 <= j < k ==> #[trigger] segment_view(out@[j]) == segment_view(segments@[j]),
                    decreases segments.len() - k,
                {
                    out.push(copy_segment(&segments[k]));
                    k = k + 1;
                }
                proof {
                    lemma_segment_views(out@);
                    assert(segment_views(out@) =~= segment_views(segments@).update(
                        0,
                        SegmentView {
                            ident: segments@[0].ident@,
                            args: rewritten_args(feature@, args_view(segments@[0].args), contracts_crate@, overrides_view(overrides@)),
                        },
                    ));
                }
                TypeTree::Path { leading: *leading, segments: out }
            } else {
                TypeTree::Path {
                    leading: false,
                    segments: resolved_segments(feature, &first.ident, contracts_crate, overrides, args),
                }
            }
        },
        TypeTree::Reference { prefix, elem } => {
            let inner = rewrite_type(feature, elem, contracts_crate, overrides);
            TypeTree::Reference { prefix: copy_text(prefix), elem: Box::new(inner) }
        },
        TypeTree::Slice(elem) => {
            let inner = rewrite_type(feature, elem, contracts_crate, overrides);
            TypeTree::Slice(Box::new(inner))
        },
        TypeTree::QualifiedPath(text) => TypeTree::QualifiedPath(copy_text(text)),
        TypeTree::Other(text) => TypeTree::Other(copy_text(text)),
    }
}

fn rewrite_args(
    feature: &str,
    args: &SegmentArgs,
    contracts_crate: &str,
    overrides: &Vec<(String, Vec<String>)>,
) -> (r: SegmentArgs)
    ensures
        args_view(r) == rewritten_args(feature@, args_view(*args), contracts_crate@, overrides_view(overrides@)),
    decreases args,
{
    match args {
        SegmentArgs::Plain => SegmentArgs::Plain,
        SegmentArgs::Paren(text) => SegmentArgs::Paren(copy_text(text)),
        SegmentArgs::Angle(list) => {
            let ghost ov = overrides_view(overrides@);
            proof {
                lemma_arg_views(list@);
            }
            let mut out: Vec<GenericArg> = Vec::new();
            let mut k: usize = 0;
            proof {
                assert(decreases_to!(*args => *list));
            }
            while k < list.len()
                invariant
                    decreases_to!(*args => *list),
                    k <= list.len(),
                    arg_views(list@).len() == list.len(),
                    forall|j: int| 0 <= j < list.len() ==> #[trigger] arg_views(list@)[j] == arg_view(list@[j]),
                    arg_views(out@) == rewritten_list(feature@, arg_views(list@).take(k as int), contracts_crate@, ov),
                    ov == overrides_view(overrides@),
                decreases list.len() - k,
            {
                let ghost before = out@;
                let next = match &list[k] {
                    GenericArg::Type(t) => {
                        proof {
                            assert(decreases_to!(*list => list[k as int]));
                        }
                        GenericArg::Type(rewrite_type(feature, t, contracts_crate, overrides))
                    },
                    GenericArg::Other(text) => GenericArg::Other(copy_text(text)),
                };
                out.push(next);
                proof {
                    let taken = arg_views(list@).take(k + 1);
                    assert(taken.drop_last() =~= arg_views(list@).take(k as int));
                    assert(taken.last() == arg_view(list@[k as int]));
                    assert(out@.drop_last() =~= before);
                    assert(arg_views(out@) == arg_views(before).push(arg_view(out@.last())));
                }
                k = k + 1;
            }
            proof {
                assert(arg_views(list@).take(k as int) =~= arg_views(list@));
            }
            SegmentArgs::Angle(out)
        },
    }
}

fn copy_type(ty: &TypeTree) -> (r: TypeTree)
    ensures
        r@ == ty@,
    decreases ty,
{
    match ty {
        TypeTree::Path { leading, segments } => {
            let mut out: Vec<Segment> = Vec::new();
            let mut k: usize = 0;
            proof {
                assert(decreases_to!(*ty => *segments));
            }
            while k < segments.len()
                invariant
                    decreases_to!(*ty => *segments),
                    k <= segments.len(),
                    out.len() == k,
                    forall|j: int| 0 <= j < k ==> #[trigger] segment_view(out@[j]) == segment_view(segments@[j]),
                decreases segments.len() - k,
            {
                proof {
                    assert(decreases_to!(*segments => segments[k as int]));
                }
                out.push(copy_segment(&segments[k]));
                k = k + 1;
            }
            proof {
                lemma_segment_views(out@);
                lemma_segment_views(segments@);
                assert(segment_views(out@) =~= segment_views(segments@));
            }
            TypeTree::Path { leading: *leading, segments: out }
        },
        TypeTree::Reference { prefix, elem } => TypeTree::Reference {
            prefix: copy_text(prefix),
            elem: Box::new(copy_type(elem)),
        },
        TypeTree::Slice(elem) => TypeTree::Slice(Box::new(copy_type(elem))),
        TypeTree::QualifiedPath(text) => TypeTree::QualifiedPath(copy_text(text)),
        TypeTree::Other(text) => TypeTree::Other(copy_text(text)),
    }
}

fn copy_segment(segment: &Segment) -> (r: Segment)
    ensures
        segment_view(r) == segment_view(*segment),
    decreases segment,
{
    let args = match &segment.args {
        SegmentArgs::Plain => SegmentArgs::Plain,
        SegmentArgs::Paren(text) => SegmentArgs::Paren(copy_text(text)),
        SegmentArgs::Angle(list) => {
            let mut out: Vec<GenericArg> = Vec::new();
            let mut k: usize = 0;
            proof {
                assert(decreases_to!(*segment => segment.args));
                assert(decreases_to!(segment.args => *list));
            }
            while k < list.len()
                invariant
                    decreases_to!(*segment => *list),
                    k <= list.len(),
                    out.len() == k,
                    forall|j: int| 0 <= j < k ==> #[trigger] arg_view(out@[j]) == arg_view(list@[j]),
                decreases list.len() - k,
            {
                let next = match &list[k] {
                    GenericArg::Type(t) => {
                        proof {
                            assert(decreases_to!(*list => list[k as int]));
                        }
                        GenericArg::Type(copy_type(t))
                    },
                    GenericArg::Other(text) => GenericArg::Other(copy_text(text)),
                };
                out.push(next);
                k = k + 1;
            }
            proof {
                lemma_arg_views(out@);
                lemma_arg_views(list@);
                assert(arg_views(out@) =~= arg_views(list@));
            }
            SegmentArgs::Angle(out)
        },
    };
    Segment { ident: copy_text(&segment.ident), args }
}

/// `t` written out: segments joined by `::`, arguments in angle brackets
/// joined by `, `, a slice in square brackets; what was kept as tokens, as
/// it reads.
pub open spec fn type_text(t: TypeView) -> Seq<char>
    decreases t,
{
    match t {
        TypeView::Path { leading, segments } => (if leading {
            seq![':', ':']
        } else {
            Seq::empty()
        }) + path_text(segments),
        TypeView::Reference { prefix, elem } => prefix + type_text(*elem),
        TypeView::Slice(elem) => seq!['['] + type_text(*elem) + seq![']'],
        TypeView::QualifiedPath(text) => text,
        TypeView::Other(text) => text,
    }
}

pub open spec fn path_text(segments: Seq<SegmentView>) -> Seq<char>
    decreases segments,
{
    if segments.len() == 0 {
        Seq::empty()
    } else if segments.len() == 1 {
        segment_text(segments[0])
    } else {
        path_text(segments.drop_last()) + seq![':', ':'] + segment_text(segments.last())
    }
}

pub open spec fn segment_text(segment: SegmentView) -> Seq<char>
    decreases segment,
{
    segment.ident + args_text(segment.args)
}

pub open spec fn args_text(args: ArgsView) -> Seq<char>
    decreases args,
{
    match args {
        ArgsView::Plain => Seq::empty(),
        ArgsView::Angle(list) => seq!['<'] + list_text(list) + seq!['>'],
        ArgsView::Paren(text) => text,
    }
}

pub open spec fn list_text(list: Seq<ArgView>) -> Seq<char>
    decreases list,
{
    if list.len() == 0 {
        Seq::empty()
    } else if list.len() == 1 {
        arg_text(list[0])
    } else {
        list_text(list.drop_last()) + seq![',', ' '] + arg_text(list.last())
    }
}

pub open spec fn arg_text(arg: ArgView) -> Seq<char>
    decreases arg,
{
    match arg {
        ArgView::Type(t) => type_text(t),
        ArgView::Other(text) => text,
    }
}

/// `ty` written out: see [`type_text`].
pub fn render_type(ty: &TypeTree) -> (r: String)
    ensures
        r@ == type_text(ty@),
    decreases ty,
{
    proof {
        reveal_strlit("::");
        reveal_strlit("[");
        reveal_strlit("]");
    }
    match ty {
        TypeTree::Path { leading, segments } => {
            let mut out = String::new();
            if *leading {
                out.append("::");
            }
            let ghost start = out@;
            proof {
                lemma_segment_views(segments@);
                assert(decreases_to!(*ty => *segments));
                assert(segment_views(segments@).take(0) =~= Seq::<SegmentView>::empty());
                assert(start =~= start + path_text(segment_views(segments@).take(0)));
            }
            let mut k: usize = 0;
            while k < segments.len()
                invariant
                    decreases_to!(*ty => *segments),
                    k <= segments.len(),
                    segment_views(segments@).len() == segments.len(),
                    forall|j: int| 0 <= j < segments.len() ==> #[trigger] segment_views(segments@)[j] == segment_view(segments@[j]),
                    out@ == start + path_text(segment_views(segments@).take(k as int)),
                decreases segments.len() - k,
            {
                let ghost before = out@;
                if k > 0 {
                    out.append("::");
                }
                proof {
                    assert(decreases_to!(*segments => segments[k as int]));
                }
                let piece = render_segment(&segments[k]);
                out.append(piece.as_str());
                proof {
                    reveal_strlit("::");
                    let taken = segment_views(segments@).take(k + 1);
                    assert(taken.drop_last() =~= segment_views(segments@).take(k as int));
                    if k == 0 {
                        assert(out@ =~= start + path_text(taken));
                    } else {
                        assert(out@ =~= start + path_text(taken));
                    }
                }
                k = k + 1;
            }
            proof {
                assert(segment_views(segments@).take(k as int) =~= segment_views(segments@));
                if !*leading {
                    assert(start =~= Seq::<char>::empty());
                }
            }
            out
        },
        TypeTree::Reference { prefix, elem } => {
            let inner = render_type(elem);
            let mut out = prefix.clone();
            out.append(inner.as_str());
            out
        },
        TypeTree::Slice(elem) => {
            let inner = render_type(elem);
            let mut out = String::from_str("[");
            out.append(inner.as_str());
            out.append("]");
            proof {
                assert(out@ =~= seq!['['] + type_text(elem@) + seq![']']);
            }
            out
        },
        TypeTree::QualifiedPath(text) => text.clone(),
        TypeTree::Other(text) => text.clone(),
    }
}

fn render_segment(segment: &Segment) -> (r: String)
    ensures
        r@ == segment_text(segment_view(*segment)),
    decreases segment,
{
    proof {
        reveal_strlit("<");
        reveal_strlit(">");
        reveal_strlit(", ");
    }
    let mut out = segment.ident.clone();
    match &segment.args {
        SegmentArgs::Plain => {
            proof {
                assert(out@ =~= segment_text(segment_view(*segment)));
            }
        },
        SegmentArgs::Paren(text) => {
            out.append(text.as_str());
        },
        SegmentArgs::Angle(list) => {
            out.append("<");
            let ghost start = out@;
            proof {
                lemma_arg_views(list@);
                assert(decreases_to!(*segment => segment.args));
                assert(decreases_to!(segment.args => *list));
                assert(arg_views(list@).take(0) =~= Seq::<ArgView>::empty());
                assert(start =~= start + list_text(arg_views(list@).take(0)));
            }
            let mut k: usize = 0;
            while k < list.len()
                invariant
                    decreases_to!(*segment => *list),
                    k <= list.len(),
                    arg_views(list@).len() == list.len(),
                    forall|j: int| 0 <= j < list.len() ==> #[trigger] arg_views(list@)[j] == arg_view(list@[j]),
                    out@ == start + list_text(arg_views(list@).take(k as int)),
                decreases list.len() - k,
            {
                let ghost before = out@;
                if k > 0 {
                    out.append(", ");
                }
                let ghost joined = out@;
                let piece = match &list[k] {
                    GenericArg::Type(t) => {
                        proof {
                            assert(decreases_to!(*list => list[k as int]));
                        }
                        render_type(t)
                    },
                    GenericArg::Other(text) => text.clone(),
                };
                proof {
                    assert(piece@ == arg_text(arg_views(list@)[k as int]));
                }
                out.append(piece.as_str());
                proof {
                    reveal_strlit(", ");
                    if k > 0 {
                        assert(joined =~= before + seq![',', ' ']);
                    }
                    let taken = arg_views(list@).take(k + 1);
                    assert(taken.last() == arg_views(list@)[k as int]);
                    assert(taken.drop_last() =~= arg_views(list@).take(k as int));
                    assert(out@ =~= start + list_text(taken));
                }
                k = k + 1;
            }
            out.append(">");
            proof {
                reveal_strlit(">");
                assert(arg_views(list@).take(k as int) =~= arg_views(list@));
                assert(out@ =~= segment_text(segment_view(*segment)));
            }
        },
    }
    out
}

/// What `syn` parses `text` into, as a type: `None` when it is no type.
pub uninterp spec fn parsed_type(text: Seq<char>) -> Option<TypeView>;

#[verifier::external_type_specification]
#[verifier::external_body]
pub struct ExSynType(syn::Type);

#[verifier::external_type_specification]
#[verifier::external_body]
pub struct ExSynPathSegment(syn::PathSegment);

#[verifier::external_type_specification]
#[verifier::external_body]
pub struct ExSynTypeReference(syn::TypeReference);

#[verifier::external_type_specification]
#[verifier::external_body]
pub struct ExSynGenericArgument(syn::GenericArgument);

/// Part of [`parse_type`]'s conversion: a type of `syn`'s tree as this
/// library keeps it, variant for variant.
#[verifier::external_body]
fn type_tree(ty: &syn::Type) -> TypeTree {
    match ty {
        syn::Type::Path(path) => match &path.qself {
            None => TypeTree::Path {
                leading: path.path.leading_colon.is_some(),
                segments: path.path.segments.iter().map(segment_of).collect(),
            },
            Some(_) => TypeTree::QualifiedPath(quote::ToTokens::to_token_stream(path).to_string()),
        },
        syn::Type::Reference(reference) => {
            TypeTree::Reference { prefix: reference_prefix(reference), elem: Box::new(type_tree(&reference.elem)) }
        },
        syn::Type::Slice(slice) => TypeTree::Slice(Box::new(type_tree(&slice.elem))),
        other => TypeTree::Other(quote::ToTokens::to_token_stream(other).to_string()),
    }
}

/// Part of [`parse_type`]'s conversion: a reference's `&`, lifetime and
/// `mut`, as written.
#[verifier::external_body]
fn reference_prefix(reference: &syn::TypeReference) -> String {
    let lifetime = reference.lifetime.as_ref().map(|l| format!("{l} ")).unwrap_or_default();
    format!("&{}{}", lifetime, if reference.mutability.is_some() { "mut " } else { "" })
}

/// Part of [`parse_type`]'s conversion: one segment of a path.
#[verifier::external_body]
fn segment_of(segment: &syn::PathSegment) -> Segment {
    let args = match &segment.arguments {
        syn::PathArguments::None => SegmentArgs::Plain,
        syn::PathArguments::AngleBracketed(angle) => SegmentArgs::Angle(angle.args.iter().map(argument_of).collect()),
        syn::PathArguments::Parenthesized(paren) => {
            SegmentArgs::Paren(quote::ToTokens::to_token_stream(paren).to_string())
        },
    };
    Segment { ident: segment.ident.to_string(), args }
}

/// Part of [`parse_type`]'s conversion: one argument in angle brackets.
#[verifier::external_body]
fn argument_of(arg: &syn::GenericArgument) -> GenericArg {
    match arg {
        syn::GenericArgument::Type(ty) => GenericArg::Type(type_tree(ty)),
        other => GenericArg::Other(quote::ToTokens::to_token_stream(other).to_string()),
    }
}

/// Calls `syn::parse_str` for a type on `text` and hands back the type as
/// this library keeps it: what `syn` accepts as a type, and the tree it
/// reads, are named, not spelled out.
#[verifier::external_body]
pub fn parse_type(text: &str) -> (r: Option<TypeTree>)
    ensures
        match parsed_type(text@) {
            Some(view) => r matches Some(t) && t@ == view,
            None => r is None,
        },
{
    syn::parse_str::<syn::Type>(text).ok().map(|ty| type_tree(&ty))
}

/// The type written `text`, qualified: see [`rewritten`]. `None` when
/// `text` is no type.
pub fn qualify_type(
    feature: &str,
    text: &str,
    contracts_crate: &str,
    overrides: &Vec<(String, Vec<String>)>,
) -> (r: Option<TypeTree>)
    ensures
        match parsed_type(text@) {
            Some(view) => r matches Some(t) && t@ == rewritten(
                feature@,
                view,
                contracts_crate@,
                overrides_view(overrides@),
            ),
            None => r is None,
        },
{
    match parse_type(text) {
        Some(ty) => Some(rewrite_type(feature, &ty, contracts_crate, overrides)),
        None => None,
    }
}

} // verus!
