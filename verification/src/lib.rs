//! Manifest-driven file synchronization core.
//!
//! The library reconciles a destination tree with a declarative manifest of
//! (source, destination) pairs: it normalizes paths, diffs sorted manifests,
//! decides which destinations to prune and which operations are outdated, and
//! sequences the whole reconciliation through a strict phase protocol.  All
//! filesystem access is performed by the embedding program, which executes the
//! commands this library emits and reports the outcomes back.

pub mod args;
pub mod copyop;
pub mod error;
pub mod iter;
pub mod manifest;
pub mod order;
pub mod path;
pub mod sync;
pub mod util;
