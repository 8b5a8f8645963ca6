//! Fluent text read with `fluent-syntax`, and the messages it holds.

use vstd::prelude::*;

use crate::codegen::messages::{
    message_views, messages_in, parse_messages, sorted_by_id, with_id, Element, FluentEntry, FluentExpr, Inline, L10nMessage,
};

verus! {

#[verifier::external_type_specification]
#[verifier::external_body]
#[verifier::reject_recursive_types(S)]
pub struct ExFtlEntry<S>(fluent_syntax::ast::Entry<S>);

#[verifier::external_type_specification]
#[verifier::external_body]
#[verifier::reject_recursive_types(S)]
pub struct ExFtlPattern<S>(fluent_syntax::ast::Pattern<S>);

#[verifier::external_type_specification]
#[verifier::external_body]
#[verifier::reject_recursive_types(S)]
pub struct ExFtlExpression<S>(fluent_syntax::ast::Expression<S>);

#[verifier::external_type_specification]
#[verifier::external_body]
#[verifier::reject_recursive_types(S)]
pub struct ExFtlInline<S>(fluent_syntax::ast::InlineExpression<S>);

#[verifier::external_type_specification]
#[verifier::external_body]
#[verifier::reject_recursive_types(S)]
pub struct ExFtlElement<S>(fluent_syntax::ast::PatternElement<S>);

#[verifier::external_type_specification]
#[verifier::external_body]
#[verifier::reject_recursive_types(S)]
pub struct ExFtlArguments<S>(fluent_syntax::ast::CallArguments<S>);

/// Why a Fluent text did not parse: the parser's errors, as it prints them.
#[derive(Clone, Debug)]
pub struct FtlError {
    pub detail: String,
}

/// Whether `fluent-syntax` parses `text` without an error.
pub uninterp spec fn ftl_parses(text: Seq<char>) -> bool;

/// The entries of `text` as `fluent-syntax` parses it, each as this
/// library keeps it, in order.
pub uninterp spec fn ftl_entries(text: Seq<char>) -> Seq<FluentEntry>;

/// Part of [`parse_ftl`]'s conversion: one inline expression of the parsed
/// tree as this library keeps it, variant for variant.
#[verifier::external_body]
fn ftl_inline(inline: &fluent_syntax::ast::InlineExpression<&str>) -> Inline {
    match inline {
        fluent_syntax::ast::InlineExpression::VariableReference { id } => Inline::Variable(id.name.to_string()),
        fluent_syntax::ast::InlineExpression::FunctionReference { arguments, .. } => Inline::Call(ftl_arguments(arguments)),
        fluent_syntax::ast::InlineExpression::TermReference { arguments: Some(arguments), .. } => Inline::Call(ftl_arguments(arguments)),
        fluent_syntax::ast::InlineExpression::TermReference { arguments: None, .. } => Inline::Plain,
        fluent_syntax::ast::InlineExpression::Placeable { expression } => Inline::Nested(Box::new(ftl_expression(expression))),
        fluent_syntax::ast::InlineExpression::StringLiteral { .. } => Inline::Plain,
        fluent_syntax::ast::InlineExpression::NumberLiteral { .. } => Inline::Plain,
        fluent_syntax::ast::InlineExpression::MessageReference { .. } => Inline::Plain,
    }
}

/// Part of [`parse_ftl`]'s conversion: a call's positional arguments, then
/// the values of its named ones.
#[verifier::external_body]
fn ftl_arguments(arguments: &fluent_syntax::ast::CallArguments<&str>) -> Vec<Inline> {
    arguments
        .positional
        .iter()
        .map(ftl_inline)
        .chain(arguments.named.iter().map(|named| ftl_inline(&named.value)))
        .collect()
}

/// Part of [`parse_ftl`]'s conversion: an expression, or a select with the
/// pattern of each variant.
#[verifier::external_body]
fn ftl_expression(expression: &fluent_syntax::ast::Expression<&str>) -> FluentExpr {
    match expression {
        fluent_syntax::ast::Expression::Inline(inline) => FluentExpr::Inline(ftl_inline(inline)),
        fluent_syntax::ast::Expression::Select { selector, variants } => FluentExpr::Select {
            selector: ftl_inline(selector),
            variants: variants.iter().map(|variant| ftl_pattern(&variant.value)).collect(),
        },
    }
}

/// Part of [`parse_ftl`]'s conversion: a pattern's elements, text or
/// placeable.
#[verifier::external_body]
fn ftl_pattern(pattern: &fluent_syntax::ast::Pattern<&str>) -> Vec<Element> {
    pattern.elements.iter().map(ftl_element).collect()
}

/// Part of [`parse_ftl`]'s conversion: one element of a pattern.
#[verifier::external_body]
fn ftl_element(element: &fluent_syntax::ast::PatternElement<&str>) -> Element {
    match element {
        fluent_syntax::ast::PatternElement::TextElement { .. } => Element::Text,
        fluent_syntax::ast::PatternElement::Placeable { expression } => Element::Placeable(ftl_expression(expression)),
    }
}

/// Part of [`parse_ftl`]'s conversion: a message with its id and value; a
/// term, a comment or a junk entry as another entry.
#[verifier::external_body]
fn ftl_entry(entry: &fluent_syntax::ast::Entry<&str>) -> FluentEntry {
    match entry {
        fluent_syntax::ast::Entry::Message(message) => FluentEntry::Message {
            id: message.id.name.to_string(),
            value: message.value.as_ref().map(ftl_pattern),
        },
        fluent_syntax::ast::Entry::Term(_) => FluentEntry::Other,
        fluent_syntax::ast::Entry::Comment(_) => FluentEntry::Other,
        fluent_syntax::ast::Entry::GroupComment(_) => FluentEntry::Other,
        fluent_syntax::ast::Entry::ResourceComment(_) => FluentEntry::Other,
        fluent_syntax::ast::Entry::Junk { .. } => FluentEntry::Other,
    }
}

/// Calls `fluent_syntax::parser::parse` on `text` and hands back its entries
/// as this library keeps them, or the parser's errors.
///
/// Ok exactly when the parser reports no error (named, not spelled out); the
/// entries are what the parse gives for `text`, named, since Fluent's
/// grammar takes pages to state.
#[verifier::external_body]
pub fn parse_ftl(text: &str) -> (r: Result<Vec<FluentEntry>, FtlError>)
    ensures
        r is Ok <==> ftl_parses(text@),
        r matches Ok(entries) ==> entries@ == ftl_entries(text@),
{
    match fluent_syntax::parser::parse(text) {
        Ok(resource) => Ok(resource.body.iter().map(ftl_entry).collect()),
        Err((_, errors)) => Err(FtlError { detail: format!("{errors:?}") }),
    }
}

/// The messages of a Fluent text, by id: what the accessors are generated
/// from. An error when the text does not parse.
pub fn messages_of_text(text: &str) -> (r: Result<Vec<L10nMessage>, FtlError>)
    ensures
        r is Ok <==> ftl_parses(text@),
        r matches Ok(m) ==> {
            &&& sorted_by_id(m@)
            &&& message_views(m@).to_multiset() == messages_in(ftl_entries(text@)).to_multiset()
            &&& forall|key: Seq<char>| #[trigger] with_id(message_views(m@), key) == with_id(
                messages_in(ftl_entries(text@)),
                key,
            )
        },
{
    match parse_ftl(text) {
        Ok(entries) => Ok(parse_messages(&entries)),
        Err(error) => Err(error),
    }
}

} // verus!
