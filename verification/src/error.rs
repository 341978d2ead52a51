//! The error taxonomy of a synchronization run.  Each variant carries every
//! offending item with its cause, never just the first one found.

use vstd::prelude::*;
use crate::copyop::CopyOp;
use crate::path::MPath;
use crate::util::FsError;

verus! {

/// The aggregated error of a synchronization run.
#[derive(Debug)]
pub enum Error {
    /// Paths that appear as both a source and a destination in the next
    /// manifest: concurrent copies could then race on them.
    Overlap(Vec<MPath>),
    /// Destination paths that repeat in the next manifest, with their
    /// multiplicities.
    Duplicates(Vec<(MPath, usize)>),
    /// Operations whose sources could not be inspected: those copies cannot
    /// possibly succeed.
    MissingSrcs(Vec<(CopyOp, FsError)>),
    /// Destination directories that failed to get created.
    CreateDirs(Vec<(MPath, FsError)>),
    /// Destination files that failed to get deleted.
    Delete(Vec<(MPath, FsError)>),
    /// Destination directories that failed to get deleted.
    DeleteDirs(Vec<(MPath, FsError)>),
    /// Copy operations that failed.
    Copy(Vec<(CopyOp, FsError)>),
    /// Operations still outdated right after a successful copy phase; this
    /// signals a bug or an external race, not ordinary failure.
    VerifyIncomplete(Vec<CopyOp>),
    /// Failures while re-checking outdatedness after the copy phase.
    VerifyErrors(Vec<(CopyOp, FsError)>),
}

impl Error {
    /// One-line description of the error kind.
    pub fn description(&self) -> (r: &'static str)
        ensures
            self is Overlap ==> r@ == "Overlapping sources and destinations"@,
            self is Duplicates ==> r@ == "Duplicate destinations"@,
            self is MissingSrcs ==> r@ == "Error finding out-of-date copy operations"@,
            self is CreateDirs ==> r@ == "Failed to create destination directories"@,
            self is Delete ==> r@ == "Failed to delete the following files"@,
            self is DeleteDirs ==> r@ == "Failed to delete the following directories"@,
            self is Copy ==> r@ == "Failed to copy file(s)"@,
            self is VerifyIncomplete ==> r@ == "Verification check failed"@,
            self is VerifyErrors ==> r@ == "Failed trying to perform verification check"@,
    {
        match self {
            Error::Overlap(_) => "Overlapping sources and destinations",
            Error::Duplicates(_) => "Duplicate destinations",
            Error::MissingSrcs(_) => "Error finding out-of-date copy operations",
            Error::CreateDirs(_) => "Failed to create destination directories",
            Error::Delete(_) => "Failed to delete the following files",
            Error::DeleteDirs(_) => "Failed to delete the following directories",
            Error::Copy(_) => "Failed to copy file(s)",
            Error::VerifyIncomplete(_) => "Verification check failed",
            Error::VerifyErrors(_) => "Failed trying to perform verification check",
        }
    }
}

} // verus!
