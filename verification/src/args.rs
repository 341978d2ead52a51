//! The configuration bundle of one invocation, as the command line produces
//! it.  Parsing the command line itself is the embedding program's job; the
//! engine only consumes these plain values.

use vstd::prelude::*;
use crate::path::MPath;

verus! {

/// Everything a reconciliation run is configured with.
#[derive(Debug)]
pub struct Args {
    /// Mutate nothing; only report what would happen.
    pub dryrun: bool,
    /// Treat every operation as outdated, skipping all stat calls.
    pub force: bool,
    /// Re-check completeness after the copy phase.
    pub verify_copy: bool,
    /// Reject source paths that escape the current directory.
    pub sandbox_src: bool,
    /// Reject destination paths that escape the current directory.
    pub sandbox_dest: bool,
    /// Worker count for the embedding program's pool.
    pub threads: usize,
    /// Retry budget per filesystem operation.
    pub retries: usize,
    /// Root under which destination paths are rebased; empty for none.
    pub dest: MPath,
    /// Where the persisted manifest lives.
    pub manifest: MPath,
    /// The generator program producing the next manifest.
    pub program: String,
    /// Its arguments.
    pub args: Vec<String>,
}

} // verus!
