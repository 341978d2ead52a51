//! Filesystem-facing data model and policies: failure classification, the
//! exponential-backoff retry budget, and the directory-pruning climb.
//!
//! No filesystem call happens in this crate.  The embedding program performs
//! the calls, feeds their outcomes back as the plain values defined here, and
//! follows the decisions these functions make.

use vstd::prelude::*;
use crate::order::Ordered;
use crate::order::views_of;
use crate::path::MPath;
use crate::path::PartV;
use crate::path::PathExt;

verus! {

/// Classification of a filesystem failure, as the embedding program reports
/// it.
#[derive(Clone, Copy, PartialEq, Eq, Structural, Debug)]
pub enum ErrKind {
    /// The path does not exist.
    NotFound,
    /// Access was denied.
    PermissionDenied,
    /// Any other failure.
    Other,
}

/// A filesystem failure: its classification plus the reporter's text.
#[derive(Debug)]
pub struct FsError {
    pub kind: ErrKind,
    pub message: String,
}

/// Failures other than not-found and permission-denied are worth retrying:
/// a missing or forbidden path essentially never appears on a second try.
pub open spec fn retryable_spec(k: ErrKind) -> bool {
    k is Other
}

pub fn retryable(k: &ErrKind) -> (r: bool)
    ensures
        r == retryable_spec(*k),
{
    match k {
        ErrKind::Other => true,
        _ => false,
    }
}

/// An exponential-backoff retry budget: `retries` attempts remain and the
/// next wait lasts `delay_ms` milliseconds, doubling after every retryable
/// failure.
#[derive(Clone, Copy, PartialEq, Eq, Structural, Debug)]
pub struct RetryState {
    pub retries: usize,
    pub delay_ms: u64,
}

impl RetryState {
    pub fn new(retries: usize, delay_ms: u64) -> (r: Self)
        ensures
            r.retries == retries,
            r.delay_ms == delay_ms,
    {
        RetryState { retries, delay_ms }
    }

    /// Decide what to do after a failed attempt: `Some(d)` means sleep `d`
    /// milliseconds and try again with one retry consumed and the delay
    /// doubled; `None` means give up and surface the error.  Not-found and
    /// permission-denied failures are never retried.
    pub fn on_failure(&mut self, kind: &ErrKind) -> (r: Option<u64>)
        requires
            old(self).delay_ms <= u64::MAX / 2,
        ensures
            (r is Some) == (retryable_spec(*kind) && old(self).retries > 0),
            r matches Some(d) ==> d == old(self).delay_ms && final(self).retries == old(
                self,
            ).retries - 1 && final(self).delay_ms == 2 * old(self).delay_ms,
            r is None ==> *final(self) == *old(self),
    {
        if retryable(kind) && self.retries > 0 {
            let d = self.delay_ms;
            self.retries = self.retries - 1;
            self.delay_ms = self.delay_ms * 2;
            Some(d)
        } else {
            None
        }
    }
}

/// The sleep schedule of a run whose every attempt fails retryably: one
/// sleep per budgeted retry, each twice the one before.
pub open spec fn retry_sleeps(retries: nat, delay: nat) -> Seq<nat>
    decreases retries,
{
    if retries == 0 {
        Seq::<nat>::empty()
    } else {
        seq![delay] + retry_sleeps((retries - 1) as nat, 2 * delay)
    }
}

pub open spec fn pow2(k: nat) -> nat
    decreases k,
{
    if k == 0 {
        1
    } else {
        2 * pow2((k - 1) as nat)
    }
}

proof fn lemma_retry_sleeps_len(retries: nat, delay: nat)
    ensures
        retry_sleeps(retries, delay).len() == retries,
    decreases retries,
{
    if retries > 0 {
        lemma_retry_sleeps_len((retries - 1) as nat, 2 * delay);
    }
}

/// Retry policy: an operation whose failures are all retryable is attempted
/// `retries + 1` times in total (the schedule below holds one sleep per
/// retry), and the sleep before the `k`-th retry lasts `delay · 2^k`.
pub proof fn lemma_retry_schedule(retries: nat, delay: nat, k: int)
    requires
        0 <= k < retries,
    ensures
        retry_sleeps(retries, delay).len() == retries,
        retry_sleeps(retries, delay)[k] == delay * pow2(k as nat),
    decreases retries,
{
    lemma_retry_sleeps_len(retries, delay);
    let s = retry_sleeps(retries, delay);
    let rest = retry_sleeps((retries - 1) as nat, 2 * delay);
    if k == 0 {
        assert(s == seq![delay] + rest);
        assert(s[0] == delay);
        assert(pow2(0) == 1);
        assert(delay * pow2(0) == delay) by (nonlinear_arith)
            requires
                pow2(0) == 1,
        ;
    } else {
        lemma_retry_schedule((retries - 1) as nat, 2 * delay, k - 1);
        assert(s == seq![delay] + rest);
        assert(s[k] == rest[k - 1]);
        assert(rest[k - 1] == (2 * delay) * pow2((k - 1) as nat));
        assert(pow2(k as nat) == 2 * pow2((k - 1) as nat));
        assert((2 * delay) * pow2((k - 1) as nat) == delay * pow2(k as nat)) by (nonlinear_arith)
            requires
                pow2(k as nat) == 2 * pow2((k - 1) as nat),
        ;
    }
}

/// Whether a path has a removable parent: both its last component and the
/// one before must be ordinary named components.
pub open spec fn has_removable_parent(ps: Seq<PartV>) -> bool {
    ps.len() >= 2 && ps[ps.len() - 1] is Normal && ps[ps.len() - 2] is Normal
}

/// The chain of directories that pruning may delete, starting at the path
/// itself and climbing through removable parents.  The climb never reaches a
/// root, drive or share component.
pub open spec fn climb_chain(ps: Seq<PartV>) -> Seq<Seq<PartV>>
    decreases ps.len(),
{
    if has_removable_parent(ps) {
        seq![ps] + climb_chain(ps.drop_last())
    } else {
        seq![ps]
    }
}

/// The directories to try deleting when pruning `path`, in order.  The
/// embedding program removes each in turn and stops at the first one that is
/// not empty; a missing directory is treated as removed and the climb goes
/// on.
pub fn remove_empty_dirs(path: &MPath) -> (r: Vec<MPath>)
    ensures
        views_of(r@) == climb_chain(path@),
{
    let mut out: Vec<MPath> = Vec::new();
    let mut cur = path.dup();
    proof {
        assert(views_of(out@) =~= Seq::<Seq<PartV>>::empty());
        assert(Seq::<Seq<PartV>>::empty() + climb_chain(path@) =~= climb_chain(path@));
    }
    loop
        invariant
            views_of(out@) + climb_chain(cur@) == climb_chain(path@),
        decreases cur@.len(),
    {
        let ghost cv = cur@;
        let ghost before = views_of(out@);
        let next = cur.removable_parent();
        out.push(cur);
        proof {
            assert(views_of(out@) =~= before.push(cv));
        }
        match next {
            Some(p) => {
                proof {
                    assert(has_removable_parent(cv));
                    assert(climb_chain(cv) =~= seq![cv] + climb_chain(cv.drop_last()));
                    assert(before.push(cv) + climb_chain(p@) =~= before + climb_chain(cv));
                }
                cur = p;
            },
            None => {
                proof {
                    assert(!has_removable_parent(cv));
                    assert(climb_chain(cv) =~= seq![cv]);
                    assert(views_of(out@) =~= before + climb_chain(cv));
                }
                return out;
            },
        }
    }
}

} // verus!
