//! A value that arrives asynchronously, with "not here yet" as data.

use std::sync::Arc;

use vstd::prelude::*;

verus! {

#[verifier::external_type_specification]
#[verifier::external_body]
pub struct ExError(anyhow::Error);

/// Status of a value that arrives asynchronously (a feature's state field
/// fed by a loader or a live push), so "not here yet" is representable as
/// data instead of requiring a separate suspense mechanism at the read site.
#[derive(Clone, Debug)]
pub enum Load<T> {
    NotAsked,
    Loading,
    Ready(T),
    Failed(Arc<anyhow::Error>),
}

impl<T> Default for Load<T> {
    fn default() -> (r: Load<T>)
        ensures
            r is Loading,
    {
        Load::Loading
    }
}

impl<T> Load<T> {
    /// A load that went wrong with `err`, held as the `anyhow::Error` that
    /// `err`'s own conversion gives.
    pub fn failed<E: Into<anyhow::Error>>(err: E) -> (r: Load<T>)
        ensures
            r matches Load::Failed(held) && call_ensures(Into::<anyhow::Error>::into, (err,), *held),
    {
        Load::Failed(Arc::new(err.into()))
    }

    /// The value, once it is here.
    pub fn ready(&self) -> (r: Option<&T>)
        ensures
            match self {
                Load::Ready(value) => r == Some(value),
                _ => r is None,
            },
    {
        match self {
            Load::Ready(value) => Some(value),
            _ => None,
        }
    }

    pub fn is_loading(&self) -> (r: bool)
        ensures
            r == (self is Loading),
    {
        match self {
            Load::Loading => true,
            _ => false,
        }
    }

    /// What went wrong, if the load failed.
    pub fn error(&self) -> (r: Option<&anyhow::Error>)
        ensures
            match self {
                Load::Failed(err) => r == Some(&**err),
                _ => r is None,
            },
    {
        match self {
            Load::Failed(err) => Some(&**err),
            _ => None,
        }
    }
}

/// Where a page or tab stands.
#[derive(Clone, Copy, PartialEq, Debug, Default)]
pub enum PageStatus {
    #[default]
    Inactive,
    Loading,
    Ready,
    Error,
}

} // verus!
