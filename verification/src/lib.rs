//! The part of a guinea application that is logic rather than plumbing.

pub mod actor;
pub mod acts;
pub mod app;
pub mod codegen;
pub mod devtools;
pub mod event_bus;
pub mod executor;
pub mod guard;
mod keyed;
mod keys;
pub mod l10n;
pub mod lifecycle;
pub mod load;
pub mod names;
pub mod notify;
pub mod plugins;
pub mod roots;
pub mod rpc;
pub mod scope;
pub mod store;
pub mod test_kit;
pub mod text;
pub mod timers;
pub mod trace;
pub mod uri;
