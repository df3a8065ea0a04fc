//! A path-scoped todo record store.
//!
//! Records remember the directory they were created in.  A run loads the
//! whole collection, splits it into the subset that falls under the active
//! filter paths and the rest, applies at most one mutation to the in-scope
//! subset, then merges the two halves back together and restores the
//! canonical ascending order by creation time before the collection is
//! written out again.

pub mod cli;
pub mod codec;
pub mod mutate;
pub mod record;
pub mod scope;
pub mod store;
