//! Copy operations: a normalized (source, destination) path pair, the
//! completeness check deciding whether a copy is still needed, and the copy
//! command handed to the embedding program.

use vstd::prelude::*;
use crate::order::Ordered;
use crate::path::MPath;
use crate::path::PartV;
use crate::path::lemma_path_connex;
use crate::path::lemma_path_irrefl;
use crate::path::lemma_path_trans;
use crate::path::path_lt;
use crate::util::FsError;
use crate::util::RetryState;

verus! {

/// What kind of filesystem object a metadata record describes.
#[derive(Clone, Copy, PartialEq, Eq, Structural, Debug)]
pub enum FileKind {
    File,
    Dir,
    Symlink,
}

/// The metadata the completeness check compares: byte length, object kind,
/// modification time and the read-only flag.  Deliberately nothing more:
/// content and other attributes are not consulted.
#[derive(Clone, Copy, PartialEq, Eq, Structural, Debug)]
pub struct FileMeta {
    pub len: u64,
    pub kind: FileKind,
    pub mtime_sec: i64,
    pub mtime_nsec: u32,
    pub readonly: bool,
}

/// The stat outcomes for one operation.  A source failure is a hard error; a
/// destination that could not be inspected counts as absent.
pub struct OpStat {
    pub src: Result<FileMeta, FsError>,
    pub dest: Option<FileMeta>,
}

/// A copy is complete — needs no work — exactly when the destination exists
/// and matches the source in length, kind, modification time and read-only
/// flag.
pub open spec fn complete_spec(src: FileMeta, dest: Option<FileMeta>) -> bool {
    match dest {
        Some(d) => d.len == src.len && d.kind == src.kind && d.mtime_sec == src.mtime_sec
            && d.mtime_nsec == src.mtime_nsec && d.readonly == src.readonly,
        None => false,
    }
}

/// A copy operation: an ordered (source, destination) pair of paths.
#[derive(Debug)]
pub struct CopyOp {
    pub src: MPath,
    pub dest: MPath,
}

impl View for CopyOp {
    type V = (Seq<PartV>, Seq<PartV>);

    open spec fn view(&self) -> (Seq<PartV>, Seq<PartV>) {
        (self.src@, self.dest@)
    }
}

/// Order on operations: by source, then by destination.
pub open spec fn op_lt(a: (Seq<PartV>, Seq<PartV>), b: (Seq<PartV>, Seq<PartV>)) -> bool {
    path_lt(a.0, b.0) || (a.0 == b.0 && path_lt(a.1, b.1))
}

impl Ordered for CopyOp {
    open spec fn lt_v(a: (Seq<PartV>, Seq<PartV>), b: (Seq<PartV>, Seq<PartV>)) -> bool {
        op_lt(a, b)
    }

    fn lt(&self, other: &Self) -> (r: bool) {
        if self.src.lt(&other.src) {
            true
        } else if other.src.lt(&self.src) {
            proof {
                lemma_path_irrefl(self.src@);
            }
            false
        } else {
            proof {
                lemma_path_connex(self.src@, other.src@);
            }
            self.dest.lt(&other.dest)
        }
    }

    fn dup(&self) -> (r: Self) {
        CopyOp { src: self.src.dup(), dest: self.dest.dup() }
    }

    proof fn lemma_connex(a: (Seq<PartV>, Seq<PartV>), b: (Seq<PartV>, Seq<PartV>)) {
        lemma_path_connex(a.0, b.0);
        lemma_path_connex(a.1, b.1);
        if !op_lt(a, b) && !op_lt(b, a) {
            assert(a.0 == b.0 && a.1 == b.1);
            assert(a == b);
        }
    }

    proof fn lemma_irrefl(a: (Seq<PartV>, Seq<PartV>)) {
        lemma_path_irrefl(a.0);
        lemma_path_irrefl(a.1);
    }

    proof fn lemma_trans(
        a: (Seq<PartV>, Seq<PartV>),
        b: (Seq<PartV>, Seq<PartV>),
        c: (Seq<PartV>, Seq<PartV>),
    ) {
        if path_lt(a.0, b.0) {
            if path_lt(b.0, c.0) {
                lemma_path_trans(a.0, b.0, c.0);
            }
        } else {
            if !path_lt(b.0, c.0) {
                lemma_path_trans(a.1, b.1, c.1);
            }
        }
    }
}

impl PartialEq for CopyOp {
    fn eq(&self, other: &Self) -> (r: bool) {
        self.src.eq(&other.src) && self.dest.eq(&other.dest)
    }
}

impl vstd::std_specs::cmp::PartialEqSpecImpl for CopyOp {
    open spec fn obeys_eq_spec() -> bool {
        true
    }

    open spec fn eq_spec(&self, other: &Self) -> bool {
        self@ == other@
    }
}

/// A fully specified copy command for the embedding program: what to copy
/// and with what retry budget.
#[derive(Debug)]
pub struct CopyCmd {
    pub src: MPath,
    pub dest: MPath,
    pub retry: RetryState,
}

impl CopyOp {
    pub fn new(from: MPath, to: MPath) -> (r: CopyOp)
        ensures
            r.src == from,
            r.dest == to,
    {
        CopyOp { src: from, dest: to }
    }

    /// The copy command for this operation: the embedding program copies the
    /// file contents, propagates timestamps, and retries per the budget.
    pub fn copy(&self, retries: usize, delay_ms: u64) -> (r: CopyCmd)
        ensures
            r.src@ == self.src@,
            r.dest@ == self.dest@,
            r.retry.retries == retries,
            r.retry.delay_ms == delay_ms,
    {
        CopyCmd { src: self.src.dup(), dest: self.dest.dup(), retry: RetryState::new(
            retries,
            delay_ms,
        ) }
    }

    /// Whether this operation is already complete, judged from the stat
    /// outcomes of its two paths.  A missing destination is never complete,
    /// whatever else holds.
    pub fn is_complete(&self, src_meta: &FileMeta, dest_meta: &Option<FileMeta>) -> (r: bool)
        ensures
            r == complete_spec(*src_meta, *dest_meta),
            dest_meta is None ==> !r,
    {
        match dest_meta {
            Some(d) => {
                d.len == src_meta.len && kind_eq(&d.kind, &src_meta.kind) && d.mtime_sec
                    == src_meta.mtime_sec && d.mtime_nsec == src_meta.mtime_nsec && d.readonly
                    == src_meta.readonly
            },
            None => false,
        }
    }
}

fn kind_eq(a: &FileKind, b: &FileKind) -> (r: bool)
    ensures
        r == (a == b),
{
    match (a, b) {
        (FileKind::File, FileKind::File) => true,
        (FileKind::Dir, FileKind::Dir) => true,
        (FileKind::Symlink, FileKind::Symlink) => true,
        _ => false,
    }
}

} // verus!
