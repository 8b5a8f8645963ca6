//! Types as keys: what a message, an event or a cell is filed under.

use core::any::TypeId;

use vstd::prelude::*;

verus! {

#[verifier::external_type_specification]
#[verifier::external_body]
pub struct ExTypeId(TypeId);

/// The key a type is filed under.
///
/// Calls `TypeId::of`, which std documents as a globally unique identifier
/// for the type; no property of the value is stated here.
#[verifier::external_body]
pub(crate) fn key_of<M: 'static>() -> TypeId {
    TypeId::of::<M>()
}

/// Whether two keys name the same type.
///
/// Calls `TypeId`'s `==`, which compares the identifiers themselves.
#[verifier::external_body]
pub(crate) fn same_key(a: &TypeId, b: &TypeId) -> (r: bool)
    ensures
        r == (*a == *b),
{
    a == b
}

} // verus!
