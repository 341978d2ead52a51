//! The synchronization engine: race checking and the six-phase
//! reconciliation protocol.
//!
//! The engine makes every decision — what to delete, what to copy, in what
//! order the phases run, and when the run has failed — while the embedding
//! program performs the filesystem work: it fetches the command lists,
//! executes them (concurrently if it likes; the race check guarantees the
//! commands of a phase are independent), and reports the outcomes back.  A
//! phase must complete with zero failures before the next one starts.

use vstd::prelude::*;
use crate::copyop::CopyOp;
use crate::copyop::OpStat;
use crate::error::Error;
use crate::iter::Change;
use crate::iter::changes_spec;
use crate::iter::diff_items;
use crate::iter::lemma_changes_correct;
use crate::iter::lemma_count_two;
use crate::iter::lemma_runs_count;
use crate::iter::lemma_unique_members;
use crate::iter::lemma_unique_strict;
use crate::iter::pair_views;
use crate::iter::run_views;
use crate::iter::runs_items;
use crate::iter::runs_spec;
use crate::iter::unique_items;
use crate::iter::unique_spec;
use crate::manifest::Manifest;
use crate::manifest::error_list;
use crate::manifest::outdated_list;
use crate::manifest::op_err_views;
use crate::order::Ordered;
use crate::order::count_in;
use crate::order::dedup_sorted;
use crate::order::dup_items;
use crate::order::lemma_count_contains;
use crate::order::sort_items;
use crate::order::sorted_by;
use crate::order::strict_sorted_by;
use crate::order::views_of;
use crate::path::MPath;
use crate::path::PartV;
use crate::path::PathExt;
use crate::util::FsError;
use crate::util::has_removable_parent;

verus! {

/// The values classified `c` in a diff result, in order.
pub open spec fn filter_changed(s: Seq<(Seq<PartV>, Change)>, c: Change) -> Seq<Seq<PartV>>
    decreases s.len(),
{
    if s.len() == 0 {
        Seq::<Seq<PartV>>::empty()
    } else {
        let rest = filter_changed(s.skip(1), c);
        if s[0].1 == c {
            seq![s[0].0] + rest
        } else {
            rest
        }
    }
}

/// The paths that occur both as a source and as a destination: the
/// `Unchanged` entries of the diff of the two (deduplicated) sorted lists.
pub open spec fn overlap_spec(srcs: Seq<Seq<PartV>>, dests: Seq<Seq<PartV>>) -> Seq<Seq<PartV>> {
    filter_changed(
        changes_spec::<MPath>(unique_spec(srcs), unique_spec(dests)),
        Change::Unchanged,
    )
}

/// The runs of length two or more.
pub open spec fn filter_dups(s: Seq<(Seq<PartV>, int)>) -> Seq<(Seq<PartV>, int)>
    decreases s.len(),
{
    if s.len() == 0 {
        Seq::<(Seq<PartV>, int)>::empty()
    } else {
        let rest = filter_dups(s.skip(1));
        if s[0].1 > 1 {
            seq![s[0]] + rest
        } else {
            rest
        }
    }
}

/// The destinations that repeat, with their multiplicities.
pub open spec fn dup_spec(dests: Seq<Seq<PartV>>) -> Seq<(Seq<PartV>, int)> {
    filter_dups(runs_spec(dests))
}

/// The destinations to prune: classified `Removed` when the previous
/// destinations are diffed against the next ones.
pub open spec fn prune_spec(prev_dests: Seq<Seq<PartV>>, next_dests: Seq<Seq<PartV>>) -> Seq<
    Seq<PartV>,
> {
    filter_changed(
        changes_spec::<MPath>(unique_spec(prev_dests), unique_spec(next_dests)),
        Change::Removed,
    )
}

/// The removable parents of a path list, in order (duplicates kept).
pub open spec fn rp_list(s: Seq<Seq<PartV>>) -> Seq<Seq<PartV>>
    decreases s.len(),
{
    if s.len() == 0 {
        Seq::<Seq<PartV>>::empty()
    } else {
        let rest = rp_list(s.skip(1));
        if has_removable_parent(s[0]) {
            seq![s[0].drop_last()] + rest
        } else {
            rest
        }
    }
}

fn filter_changed_exec(items: &Vec<(MPath, Change)>, c: Change) -> (r: Vec<MPath>)
    ensures
        views_of(r@) == filter_changed(pair_views(items@), c),
{
    let ghost vs = pair_views(items@);
    let mut out: Vec<MPath> = Vec::new();
    let mut i: usize = 0;
    proof {
        assert(vs.skip(0) =~= vs);
        assert(views_of(out@) =~= Seq::<Seq<PartV>>::empty());
        assert(Seq::<Seq<PartV>>::empty() + filter_changed(vs, c) =~= filter_changed(vs, c));
    }
    while i < items.len()
        invariant
            0 <= i <= items@.len(),
            vs == pair_views(items@),
            vs.len() == items@.len(),
            views_of(out@) + filter_changed(vs.skip(i as int), c) == filter_changed(vs, c),
        decreases items@.len() - i,
    {
        let ghost t = vs.skip(i as int);
        let ghost before = views_of(out@);
        proof {
            assert(t[0] == vs[i as int]);
            assert(t.skip(1) =~= vs.skip(i as int + 1));
        }
        if items[i].1 == c {
            let x = items[i].0.dup();
            out.push(x);
            proof {
                assert(views_of(out@) =~= before.push(t[0].0));
                assert(filter_changed(t, c) =~= seq![t[0].0] + filter_changed(
                    vs.skip(i as int + 1),
                    c,
                ));
                assert(before.push(t[0].0) + filter_changed(vs.skip(i as int + 1), c) =~= before
                    + filter_changed(t, c));
            }
        } else {
            proof {
                assert(filter_changed(t, c) == filter_changed(vs.skip(i as int + 1), c));
            }
        }
        i += 1;
    }
    proof {
        assert(vs.skip(vs.len() as int) =~= Seq::<(Seq<PartV>, Change)>::empty());
        assert(filter_changed(vs.skip(vs.len() as int), c) =~= Seq::<Seq<PartV>>::empty());
        assert(views_of(out@) + Seq::<Seq<PartV>>::empty() =~= views_of(out@));
    }
    out
}

fn filter_dups_exec(items: &Vec<(MPath, usize)>) -> (r: Vec<(MPath, usize)>)
    ensures
        run_views(r@) == filter_dups(run_views(items@)),
{
    let ghost vs = run_views(items@);
    let mut out: Vec<(MPath, usize)> = Vec::new();
    let mut i: usize = 0;
    proof {
        assert(vs.skip(0) =~= vs);
        assert(run_views(out@) =~= Seq::<(Seq<PartV>, int)>::empty());
        assert(Seq::<(Seq<PartV>, int)>::empty() + filter_dups(vs) =~= filter_dups(vs));
    }
    while i < items.len()
        invariant
            0 <= i <= items@.len(),
            vs == run_views(items@),
            vs.len() == items@.len(),
            run_views(out@) + filter_dups(vs.skip(i as int)) == filter_dups(vs),
        decreases items@.len() - i,
    {
        let ghost t = vs.skip(i as int);
        let ghost before = run_views(out@);
        proof {
            assert(t[0] == vs[i as int]);
            assert(t.skip(1) =~= vs.skip(i as int + 1));
        }
        if items[i].1 > 1 {
            let x = (items[i].0.dup(), items[i].1);
            out.push(x);
            proof {
                assert(run_views(out@) =~= before.push(t[0]));
                assert(filter_dups(t) =~= seq![t[0]] + filter_dups(vs.skip(i as int + 1)));
                assert(before.push(t[0]) + filter_dups(vs.skip(i as int + 1)) =~= before
                    + filter_dups(t));
            }
        } else {
            proof {
                assert(filter_dups(t) == filter_dups(vs.skip(i as int + 1)));
            }
        }
        i += 1;
    }
    proof {
        assert(vs.skip(vs.len() as int) =~= Seq::<(Seq<PartV>, int)>::empty());
        assert(filter_dups(vs.skip(vs.len() as int)) =~= Seq::<(Seq<PartV>, int)>::empty());
        assert(run_views(out@) + Seq::<(Seq<PartV>, int)>::empty() =~= run_views(out@));
    }
    out
}

fn rp_list_exec(items: &Vec<MPath>) -> (r: Vec<MPath>)
    ensures
        views_of(r@) == rp_list(views_of(items@)),
{
    let ghost vs = views_of(items@);
    let mut out: Vec<MPath> = Vec::new();
    let mut i: usize = 0;
    proof {
        assert(vs.skip(0) =~= vs);
        assert(views_of(out@) =~= Seq::<Seq<PartV>>::empty());
        assert(Seq::<Seq<PartV>>::empty() + rp_list(vs) =~= rp_list(vs));
    }
    while i < items.len()
        invariant
            0 <= i <= items@.len(),
            vs == views_of(items@),
            vs.len() == items@.len(),
            views_of(out@) + rp_list(vs.skip(i as int)) == rp_list(vs),
        decreases items@.len() - i,
    {
        let ghost t = vs.skip(i as int);
        let ghost before = views_of(out@);
        proof {
            assert(t[0] == vs[i as int]);
            assert(t.skip(1) =~= vs.skip(i as int + 1));
        }
        match items[i].removable_parent() {
            Some(p) => {
                out.push(p);
                proof {
                    assert(views_of(out@) =~= before.push(t[0].drop_last()));
                    assert(rp_list(t) =~= seq![t[0].drop_last()] + rp_list(
                        vs.skip(i as int + 1),
                    ));
                    assert(before.push(t[0].drop_last()) + rp_list(vs.skip(i as int + 1))
                        =~= before + rp_list(t));
                }
            },
            None => {
                proof {
                    assert(rp_list(t) == rp_list(vs.skip(i as int + 1)));
                }
            },
        }
        i += 1;
    }
    proof {
        assert(vs.skip(vs.len() as int) =~= Seq::<Seq<PartV>>::empty());
        assert(rp_list(vs.skip(vs.len() as int)) =~= Seq::<Seq<PartV>>::empty());
        assert(views_of(out@) + Seq::<Seq<PartV>>::empty() =~= views_of(out@));
    }
    out
}

/// Pre-flight structural validation of the next manifest: no path may be
/// both a source and a destination, and no destination may repeat.  Either
/// violation aborts the run before any filesystem mutation, listing every
/// offending path.
pub fn check_races(next_srcs: &Vec<MPath>, next_dests: &Vec<MPath>) -> (r: Result<(), Error>)
    requires
        sorted_by::<MPath>(views_of(next_srcs@)),
        sorted_by::<MPath>(views_of(next_dests@)),
    ensures
        ({
            let ov = overlap_spec(views_of(next_srcs@), views_of(next_dests@));
            let dups = dup_spec(views_of(next_dests@));
            match r {
                Ok(_) => ov.len() == 0 && dups.len() == 0,
                Err(e) => match e {
                    Error::Overlap(v) => ov.len() > 0 && views_of(v@) == ov,
                    Error::Duplicates(d) => ov.len() == 0 && dups.len() > 0 && run_views(d@)
                        == dups,
                    _ => false,
                },
            }
        }),
{
    let us = unique_items(next_srcs);
    let ud = unique_items(next_dests);
    proof {
        lemma_unique_strict::<MPath>(views_of(next_srcs@));
        lemma_unique_strict::<MPath>(views_of(next_dests@));
    }
    let diff = diff_items(&us, &ud);
    let overlap = filter_changed_exec(&diff, Change::Unchanged);
    proof {
        assert(views_of(overlap@).len() == overlap@.len());
    }
    if overlap.len() > 0 {
        return Err(Error::Overlap(overlap));
    }
    let runs = runs_items(next_dests);
    let dups = filter_dups_exec(&runs);
    proof {
        assert(run_views(dups@).len() == dups@.len());
    }
    if dups.len() > 0 {
        return Err(Error::Duplicates(dups));
    }
    Ok(())
}

proof fn lemma_filter_changed_contains(s: Seq<(Seq<PartV>, Change)>, c: Change, x: Seq<PartV>)
    ensures
        s.contains((x, c)) <==> filter_changed(s, c).contains(x),
    decreases s.len(),
{
    if s.len() > 0 {
        lemma_filter_changed_contains(s.skip(1), c, x);
        let ft = filter_changed(s.skip(1), c);
        if s.contains((x, c)) {
            let i = choose|i: int| 0 <= i < s.len() && s[i] == (x, c);
            if i == 0 {
                assert(s[0].1 == c && s[0].0 == x);
                let f = filter_changed(s, c);
                assert(f == seq![s[0].0] + ft);
                assert(f[0] == x);
                assert(f.contains(x));
            } else {
                assert(s.skip(1)[i - 1] == (x, c));
                assert(s.skip(1).contains((x, c)));
                let i2 = choose|i2: int| 0 <= i2 < ft.len() && ft[i2] == x;
                if s[0].1 == c {
                    let f = filter_changed(s, c);
                    assert(f == seq![s[0].0] + ft);
                    assert(f[i2 + 1] == x);
                    assert(f.contains(x));
                }
            }
        }
        if filter_changed(s, c).contains(x) {
            let f = filter_changed(s, c);
            if s[0].1 == c {
                assert(f == seq![s[0].0] + ft);
                let i = choose|i: int| 0 <= i < f.len() && f[i] == x;
                if i == 0 {
                    assert(s[0] == (x, c));
                    assert(s.contains((x, c)));
                } else {
                    assert(ft[i - 1] == x);
                    assert(ft.contains(x));
                    let m = choose|m: int| 0 <= m < s.skip(1).len() && s.skip(1)[m] == (x, c);
                    assert(s[m + 1] == (x, c));
                    assert(s.contains((x, c)));
                }
            } else {
                assert(f == ft);
                assert(ft.contains(x));
                let m = choose|m: int| 0 <= m < s.skip(1).len() && s.skip(1)[m] == (x, c);
                assert(s[m + 1] == (x, c));
                assert(s.contains((x, c)));
            }
        }
    }
}

/// Overlap characterization: a path appears in the overlap report exactly
/// when it is both a source and a destination.
pub proof fn lemma_overlap_iff(srcs: Seq<Seq<PartV>>, dests: Seq<Seq<PartV>>, x: Seq<PartV>)
    requires
        sorted_by::<MPath>(srcs),
        sorted_by::<MPath>(dests),
    ensures
        overlap_spec(srcs, dests).contains(x) <==> (srcs.contains(x) && dests.contains(x)),
{
    lemma_unique_members::<MPath>(srcs, x);
    lemma_unique_members::<MPath>(dests, x);
    lemma_unique_strict::<MPath>(srcs);
    lemma_unique_strict::<MPath>(dests);
    lemma_changes_correct::<MPath>(unique_spec(srcs), unique_spec(dests), x);
    lemma_filter_changed_contains(
        changes_spec::<MPath>(unique_spec(srcs), unique_spec(dests)),
        Change::Unchanged,
        x,
    );
}

/// Prune characterization: a path is scheduled for deletion exactly when it
/// was a previous destination and is no longer a next destination.
pub proof fn lemma_prune_correct(
    prev_dests: Seq<Seq<PartV>>,
    next_dests: Seq<Seq<PartV>>,
    x: Seq<PartV>,
)
    requires
        sorted_by::<MPath>(prev_dests),
        sorted_by::<MPath>(next_dests),
    ensures
        prune_spec(prev_dests, next_dests).contains(x) <==> (prev_dests.contains(x)
            && !next_dests.contains(x)),
{
    lemma_unique_members::<MPath>(prev_dests, x);
    lemma_unique_members::<MPath>(next_dests, x);
    lemma_unique_strict::<MPath>(prev_dests);
    lemma_unique_strict::<MPath>(next_dests);
    lemma_changes_correct::<MPath>(unique_spec(prev_dests), unique_spec(next_dests), x);
    lemma_filter_changed_contains(
        changes_spec::<MPath>(unique_spec(prev_dests), unique_spec(next_dests)),
        Change::Removed,
        x,
    );
}

proof fn lemma_filter_dups_contains(s: Seq<(Seq<PartV>, int)>, e: (Seq<PartV>, int))
    requires
        s.contains(e),
        e.1 > 1,
    ensures
        filter_dups(s).contains(e),
    decreases s.len(),
{
    if s.len() > 0 {
        let i = choose|i: int| 0 <= i < s.len() && s[i] == e;
        if i == 0 {
            let f = filter_dups(s);
            assert(f == seq![s[0]] + filter_dups(s.skip(1)));
            assert(f[0] == e);
            assert(f.contains(e));
        } else {
            assert(s.skip(1)[i - 1] == e);
            assert(s.skip(1).contains(e));
            lemma_filter_dups_contains(s.skip(1), e);
            let ft = filter_dups(s.skip(1));
            let i2 = choose|i2: int| 0 <= i2 < ft.len() && ft[i2] == e;
            if s[0].1 > 1 {
                let f = filter_dups(s);
                assert(f == seq![s[0]] + ft);
                assert(f[i2 + 1] == e);
                assert(f.contains(e));
            }
        }
    }
}

/// Overlap detection: a path that is both a source and a destination of the
/// (sorted) next manifest always appears in the overlap report.
pub proof fn lemma_overlap_detects(srcs: Seq<Seq<PartV>>, dests: Seq<Seq<PartV>>, x: Seq<PartV>)
    requires
        sorted_by::<MPath>(srcs),
        sorted_by::<MPath>(dests),
        srcs.contains(x),
        dests.contains(x),
    ensures
        overlap_spec(srcs, dests).contains(x),
        overlap_spec(srcs, dests).len() > 0,
{
    lemma_unique_members::<MPath>(srcs, x);
    lemma_unique_members::<MPath>(dests, x);
    lemma_unique_strict::<MPath>(srcs);
    lemma_unique_strict::<MPath>(dests);
    lemma_changes_correct::<MPath>(unique_spec(srcs), unique_spec(dests), x);
    lemma_filter_changed_contains(
        changes_spec::<MPath>(unique_spec(srcs), unique_spec(dests)),
        Change::Unchanged,
        x,
    );
    let ov = overlap_spec(srcs, dests);
    let i = choose|i: int| 0 <= i < ov.len() && ov[i] == x;
    assert(ov.len() > 0);
}

/// Duplicate detection: a destination path that occurs at two different
/// positions of the (sorted) destination list always produces a duplicate
/// report entry carrying its full multiplicity.
pub proof fn lemma_duplicates_detected(dests: Seq<Seq<PartV>>, i: int, j: int)
    requires
        sorted_by::<MPath>(dests),
        0 <= i < j < dests.len(),
        dests[i] == dests[j],
    ensures
        dup_spec(dests).contains((dests[i], count_in(dests, dests[i]))),
        count_in(dests, dests[i]) >= 2,
        dup_spec(dests).len() > 0,
{
    lemma_count_two(dests, i, j);
    assert(dests.contains(dests[i]));
    lemma_runs_count::<MPath>(dests, dests[i]);
    lemma_filter_dups_contains(runs_spec(dests), (dests[i], count_in(dests, dests[i])));
    let d = dup_spec(dests);
    let m = choose|m: int| 0 <= m < d.len() && d[m] == (dests[i], count_in(dests, dests[i]));
    assert(d.len() > 0);
}

/// The phases of a reconciliation run, in protocol order.
#[derive(Clone, Copy, PartialEq, Eq, Structural, Debug)]
pub enum Phase {
    /// Nothing has run yet.
    Start,
    /// The race check passed; destinations are being pruned.
    Pruning,
    /// Deletions succeeded; emptied parent directories are being pruned.
    PruneDirs,
    /// Pruning succeeded; outdatedness is being determined.
    Stats,
    /// The outdated set is known; parent directories are being created.
    MkDirs,
    /// Directories exist; files are being copied.
    Copying,
    /// The copy phase succeeded; the result is being verified.
    Verifying,
    /// Every phase succeeded.
    Done,
    /// Some phase failed; the run is over.
    Failed,
}

/// The synchronization engine.
///
/// Construct it from the two manifests, then drive the phases in order:
/// `check`, the deletion phase, the directory prune, the stat phase,
/// directory creation, the copy phase and verification.  Each phase hands
/// out a command list; the embedding program executes the commands — in any
/// order or in parallel, the race check keeps them independent — and
/// reports the failures back, which either advances the phase or ends the
/// run with the aggregated error.
///
/// In dry-run mode every mutating command list is empty, while the
/// read-only stat requests and all structural checks behave exactly as in a
/// real run.
pub struct SyncEngine {
    phase: Phase,
    dryrun: bool,
    force: bool,
    verify_copy: bool,
    next: Manifest,
    prev_dests: Vec<MPath>,
    next_srcs: Vec<MPath>,
    next_dests: Vec<MPath>,
    to_delete: Vec<MPath>,
    outdated: Vec<CopyOp>,
    copied: usize,
}

impl SyncEngine {
    pub closed spec fn phase_s(&self) -> Phase {
        self.phase
    }

    pub closed spec fn dryrun_s(&self) -> bool {
        self.dryrun
    }

    pub closed spec fn force_s(&self) -> bool {
        self.force
    }

    pub closed spec fn verify_s(&self) -> bool {
        self.verify_copy
    }

    pub closed spec fn ops_s(&self) -> Seq<(Seq<PartV>, Seq<PartV>)> {
        self.next.ops()
    }

    pub closed spec fn prev_dests_s(&self) -> Seq<Seq<PartV>> {
        views_of(self.prev_dests@)
    }

    pub closed spec fn srcs_s(&self) -> Seq<Seq<PartV>> {
        views_of(self.next_srcs@)
    }

    pub closed spec fn dests_s(&self) -> Seq<Seq<PartV>> {
        views_of(self.next_dests@)
    }

    pub closed spec fn del_s(&self) -> Seq<Seq<PartV>> {
        views_of(self.to_delete@)
    }

    pub closed spec fn outdated_s(&self) -> Seq<(Seq<PartV>, Seq<PartV>)> {
        views_of(self.outdated@)
    }

    pub closed spec fn copied_s(&self) -> int {
        self.copied as int
    }

    /// Structural invariant: the manifest data the engine works on is
    /// sorted as the diff and grouping walks require.
    pub open spec fn inv(&self) -> bool {
        &&& strict_sorted_by::<CopyOp>(self.ops_s())
        &&& sorted_by::<MPath>(self.prev_dests_s())
        &&& sorted_by::<MPath>(self.srcs_s())
        &&& sorted_by::<MPath>(self.dests_s())
    }

    /// Build an engine for one reconciliation pass of `next` against the
    /// destination tree, with `prev` naming what the last successful pass
    /// put there.
    pub fn new(prev: &Manifest, next: Manifest, dryrun: bool, force: bool, verify_copy: bool) -> (r:
        SyncEngine)
        requires
            prev.inv(),
            next.inv(),
        ensures
            r.inv(),
            r.phase_s() is Start,
            r.dryrun_s() == dryrun,
            r.force_s() == force,
            r.verify_s() == verify_copy,
            r.ops_s() == next.ops(),
            r.srcs_s() == next.ops().map_values(|p: (Seq<PartV>, Seq<PartV>)| p.0),
            forall|x: Seq<PartV>| #[trigger] count_in(r.dests_s(), x) == count_in(
                next.ops().map_values(|p: (Seq<PartV>, Seq<PartV>)| p.1),
                x,
            ),
            forall|x: Seq<PartV>| #[trigger] count_in(r.prev_dests_s(), x) == count_in(
                prev.ops().map_values(|p: (Seq<PartV>, Seq<PartV>)| p.1),
                x,
            ),
    {
        let prev_dests = prev.dests();
        let next_srcs = next.srcs();
        let next_dests = next.dests();
        SyncEngine {
            phase: Phase::Start,
            dryrun,
            force,
            verify_copy,
            next,
            prev_dests,
            next_srcs,
            next_dests,
            to_delete: Vec::new(),
            outdated: Vec::new(),
            copied: 0,
        }
    }

    /// Phase 1: the race check, plus the pruning plan.  Succeeds exactly
    /// when no path is both a source and a destination and no destination
    /// repeats; no mutation has been requested yet when it fails.
    pub fn check(&mut self) -> (r: Result<(), Error>)
        requires
            old(self).phase_s() is Start,
            old(self).inv(),
        ensures
            final(self).inv(),
            same_setup(old(self), final(self)),
            ({
                let ov = overlap_spec(old(self).srcs_s(), old(self).dests_s());
                let dups = dup_spec(old(self).dests_s());
                match r {
                    Ok(_) => ov.len() == 0 && dups.len() == 0 && final(self).phase_s() is Pruning
                        && final(self).del_s() == prune_spec(
                        old(self).prev_dests_s(),
                        old(self).dests_s(),
                    ),
                    Err(e) => final(self).phase_s() is Failed && (match e {
                        Error::Overlap(v) => ov.len() > 0 && views_of(v@) == ov,
                        Error::Duplicates(d) => ov.len() == 0 && dups.len() > 0 && run_views(d@)
                            == dups,
                        _ => false,
                    }),
                }
            }),
    {
        match check_races(&self.next_srcs, &self.next_dests) {
            Ok(_) => {
                let up = unique_items(&self.prev_dests);
                let ud = unique_items(&self.next_dests);
                proof {
                    lemma_unique_strict::<MPath>(views_of(self.prev_dests@));
                    lemma_unique_strict::<MPath>(views_of(self.next_dests@));
                }
                let diff = diff_items(&up, &ud);
                self.to_delete = filter_changed_exec(&diff, Change::Removed);
                self.phase = Phase::Pruning;
                Ok(())
            },
            Err(e) => {
                self.phase = Phase::Failed;
                Err(e)
            },
        }
    }

    /// The destinations scheduled for deletion (for logging; the actual
    /// command list is `delete_commands`).
    pub fn files_to_delete(&self) -> (r: Vec<MPath>)
        requires
            self.phase_s() is Pruning,
        ensures
            views_of(r@) == self.del_s(),
    {
        dup_items(&self.to_delete)
    }

    /// Phase 2 commands: the files to delete now — none at all in dry-run
    /// mode.
    pub fn delete_commands(&self) -> (r: Vec<MPath>)
        requires
            self.phase_s() is Pruning,
        ensures
            self.dryrun_s() ==> r@.len() == 0,
            !self.dryrun_s() ==> views_of(r@) == self.del_s(),
    {
        if self.dryrun {
            Vec::new()
        } else {
            dup_items(&self.to_delete)
        }
    }

    /// Report the deletion failures.  Any failure ends the run with the
    /// full aggregated list.
    pub fn report_deletes(&mut self, failures: Vec<(MPath, FsError)>) -> (r: Result<(), Error>)
        requires
            old(self).phase_s() is Pruning,
            old(self).inv(),
        ensures
            final(self).inv(),
            same_setup(old(self), final(self)),
            final(self).del_s() == old(self).del_s(),
            match r {
                Ok(_) => failures@.len() == 0 && final(self).phase_s() is PruneDirs,
                Err(e) => failures@.len() > 0 && final(self).phase_s() is Failed && (match e {
                    Error::Delete(v) => v@ == failures@,
                    _ => false,
                }),
            },
    {
        if failures.len() > 0 {
            self.phase = Phase::Failed;
            Err(Error::Delete(failures))
        } else {
            self.phase = Phase::PruneDirs;
            Ok(())
        }
    }

    /// The directories whose chains may have emptied: the removable parent
    /// of each deleted file, adjacent duplicates dropped (for logging).
    pub fn dirs_to_prune(&self) -> (r: Vec<MPath>)
        requires
            self.phase_s() is PruneDirs,
        ensures
            views_of(r@) == unique_spec(rp_list(self.del_s())),
    {
        let parents = rp_list_exec(&self.to_delete);
        unique_items(&parents)
    }

    /// Phase 2 directory commands: each path starts a `remove_empty_dirs`
    /// climb — none at all in dry-run mode.
    pub fn prune_dir_commands(&self) -> (r: Vec<MPath>)
        requires
            self.phase_s() is PruneDirs,
        ensures
            self.dryrun_s() ==> r@.len() == 0,
            !self.dryrun_s() ==> views_of(r@) == unique_spec(rp_list(self.del_s())),
    {
        if self.dryrun {
            Vec::new()
        } else {
            let parents = rp_list_exec(&self.to_delete);
            unique_items(&parents)
        }
    }

    /// Report the directory-prune failures.
    pub fn report_prune_dirs(&mut self, failures: Vec<(MPath, FsError)>) -> (r: Result<(), Error>)
        requires
            old(self).phase_s() is PruneDirs,
            old(self).inv(),
        ensures
            final(self).inv(),
            same_setup(old(self), final(self)),
            match r {
                Ok(_) => failures@.len() == 0 && final(self).phase_s() is Stats,
                Err(e) => failures@.len() > 0 && final(self).phase_s() is Failed && (match e {
                    Error::DeleteDirs(v) => v@ == failures@,
                    _ => false,
                }),
            },
    {
        if failures.len() > 0 {
            self.phase = Phase::Failed;
            Err(Error::DeleteDirs(failures))
        } else {
            self.phase = Phase::Stats;
            Ok(())
        }
    }

    /// Phase 3 requests: the operations whose paths must be inspected.
    /// With `force` every operation counts as outdated and nothing is
    /// inspected.  These requests are read-only, so dry-run mode issues
    /// them too.
    pub fn stat_requests(&self) -> (r: Vec<CopyOp>)
        requires
            self.phase_s() is Stats,
        ensures
            self.force_s() ==> r@.len() == 0,
            !self.force_s() ==> views_of(r@) == self.ops_s(),
    {
        if self.force {
            Vec::new()
        } else {
            dup_items(self.next.operations())
        }
    }

    /// Report the stat outcomes (one per operation, in manifest order; none
    /// with `force`).  Decides the outdated set; any source that could not
    /// be inspected ends the run.
    pub fn report_stats(&mut self, outcomes: Vec<OpStat>) -> (r: Result<(), Error>)
        requires
            old(self).phase_s() is Stats,
            old(self).inv(),
            old(self).force_s() || outcomes@.len() == old(self).ops_s().len(),
        ensures
            final(self).inv(),
            same_setup(old(self), final(self)),
            final(self).del_s() == old(self).del_s(),
            match r {
                Ok(_) => final(self).phase_s() is MkDirs && (if old(self).force_s() {
                    final(self).outdated_s() == old(self).ops_s()
                } else {
                    error_list(old(self).ops_s(), outcomes@).len() == 0 && final(self).outdated_s() == outdated_list(old(self).ops_s(), outcomes@)
                }),
                Err(e) => final(self).phase_s() is Failed && !old(self).force_s() && (match e {
                    Error::MissingSrcs(v) => error_list(old(self).ops_s(), outcomes@).len() > 0
                        && op_err_views(v@) == error_list(old(self).ops_s(), outcomes@),
                    _ => false,
                }),
            },
    {
        let force = self.force;
        match self.next.outdated(force, outcomes) {
            Ok(v) => {
                self.outdated = v;
                self.phase = Phase::MkDirs;
                Ok(())
            },
            Err(errs) => {
                self.phase = Phase::Failed;
                Err(Error::MissingSrcs(errs))
            },
        }
    }

    /// The operations found outdated.
    pub fn outdated(&self) -> (r: &Vec<CopyOp>)
        ensures
            views_of(r@) == self.outdated_s(),
    {
        &self.outdated
    }

    /// The parent directories the outdated destinations need, sorted and
    /// deduplicated (for logging).
    pub fn dirs_to_create(&self) -> (r: Vec<MPath>)
        requires
            self.phase_s() is MkDirs,
        ensures
            strict_sorted_by::<MPath>(views_of(r@)),
            forall|x: Seq<PartV>| #[trigger] views_of(r@).contains(x) <==> rp_list(
                self.outdated_s().map_values(|p: (Seq<PartV>, Seq<PartV>)| p.1),
            ).contains(x),
    {
        let mut ds: Vec<MPath> = Vec::new();
        let mut i: usize = 0;
        while i < self.outdated.len()
            invariant
                0 <= i <= self.outdated@.len(),
                ds@.len() == i,
                views_of(ds@) =~= self.outdated_s().map_values(
                    |p: (Seq<PartV>, Seq<PartV>)| p.1,
                ).take(i as int),
            decreases self.outdated@.len() - i,
        {
            let x = self.outdated[i].dest.dup();
            let ghost prev = views_of(ds@);
            ds.push(x);
            proof {
                crate::order::lemma_views_push(ds@.drop_last(), ds@.last());
                assert(ds@.drop_last().push(ds@.last()) =~= ds@);
                assert(self.outdated_s()[i as int].1 == self.outdated@[i as int]@.1);
                assert(views_of(ds@) =~= self.outdated_s().map_values(
                    |p: (Seq<PartV>, Seq<PartV>)| p.1,
                ).take(i as int + 1));
            }
            i += 1;
        }
        proof {
            let m = self.outdated_s().map_values(|p: (Seq<PartV>, Seq<PartV>)| p.1);
            assert(m.take(m.len() as int) =~= m);
        }
        let parents = rp_list_exec(&ds);
        let ghost plist = views_of(parents@);
        let sorted = sort_items(parents);
        let out = dedup_sorted(&sorted);
        proof {
            assert forall|x: Seq<PartV>| #[trigger] views_of(out@).contains(x) <==> rp_list(
                self.outdated_s().map_values(|p: (Seq<PartV>, Seq<PartV>)| p.1),
            ).contains(x) by {
                lemma_count_contains(views_of(sorted@), x);
                lemma_count_contains(plist, x);
                assert(count_in(views_of(sorted@), x) == count_in(plist, x));
                assert(views_of(out@).contains(x) <==> views_of(sorted@).contains(x));
            }
        }
        out
    }

    /// Phase 4 commands: the directories to create recursively — none at
    /// all in dry-run mode.
    pub fn mkdir_commands(&self) -> (r: Vec<MPath>)
        requires
            self.phase_s() is MkDirs,
        ensures
            self.dryrun_s() ==> r@.len() == 0,
            !self.dryrun_s() ==> strict_sorted_by::<MPath>(views_of(r@)) && (forall|
                x: Seq<PartV>,
            |
                #[trigger] views_of(r@).contains(x) <==> rp_list(
                    self.outdated_s().map_values(|p: (Seq<PartV>, Seq<PartV>)| p.1),
                ).contains(x)),
    {
        if self.dryrun {
            Vec::new()
        } else {
            self.dirs_to_create()
        }
    }

    /// Report the directory-creation failures.
    pub fn report_mkdirs(&mut self, failures: Vec<(MPath, FsError)>) -> (r: Result<(), Error>)
        requires
            old(self).phase_s() is MkDirs,
            old(self).inv(),
        ensures
            final(self).inv(),
            same_setup(old(self), final(self)),
            final(self).outdated_s() == old(self).outdated_s(),
            match r {
                Ok(_) => failures@.len() == 0 && final(self).phase_s() is Copying,
                Err(e) => failures@.len() > 0 && final(self).phase_s() is Failed && (match e {
                    Error::CreateDirs(v) => v@ == failures@,
                    _ => false,
                }),
            },
    {
        if failures.len() > 0 {
            self.phase = Phase::Failed;
            Err(Error::CreateDirs(failures))
        } else {
            self.phase = Phase::Copying;
            Ok(())
        }
    }

    /// Phase 5 commands: the operations to copy — none at all in dry-run
    /// mode.
    pub fn copy_commands(&self) -> (r: Vec<CopyOp>)
        requires
            self.phase_s() is Copying,
        ensures
            self.dryrun_s() ==> r@.len() == 0,
            !self.dryrun_s() ==> views_of(r@) == self.outdated_s(),
    {
        if self.dryrun {
            Vec::new()
        } else {
            dup_items(&self.outdated)
        }
    }

    /// Report the copy failures.  On success the number of outdated
    /// operations becomes the run's copy count.
    pub fn report_copies(&mut self, failures: Vec<(CopyOp, FsError)>) -> (r: Result<(), Error>)
        requires
            old(self).phase_s() is Copying,
            old(self).inv(),
        ensures
            final(self).inv(),
            same_setup(old(self), final(self)),
            final(self).outdated_s() == old(self).outdated_s(),
            match r {
                Ok(_) => failures@.len() == 0 && final(self).phase_s() is Verifying && final(self).copied_s() == old(self).outdated_s().len(),
                Err(e) => failures@.len() > 0 && final(self).phase_s() is Failed && (match e {
                    Error::Copy(v) => v@ == failures@,
                    _ => false,
                }),
            },
    {
        if failures.len() > 0 {
            self.phase = Phase::Failed;
            Err(Error::Copy(failures))
        } else {
            self.copied = self.outdated.len();
            self.phase = Phase::Verifying;
            proof {
                assert(self.outdated_s().len() == self.outdated@.len());
            }
            Ok(())
        }
    }

    /// Phase 6 requests: when verification is enabled (and the run is not a
    /// dry run), every operation is re-inspected; otherwise nothing is.
    pub fn verify_requests(&self) -> (r: Vec<CopyOp>)
        requires
            self.phase_s() is Verifying,
        ensures
            (self.verify_s() && !self.dryrun_s()) ==> views_of(r@) == self.ops_s(),
            !(self.verify_s() && !self.dryrun_s()) ==> r@.len() == 0,
    {
        if self.verify_copy && !self.dryrun {
            dup_items(self.next.operations())
        } else {
            Vec::new()
        }
    }

    /// Report the verification outcomes and finish the run.  Any operation
    /// still outdated is an invariant violation (`VerifyIncomplete`); a
    /// source that could not be re-inspected is an external race
    /// (`VerifyErrors`).  On success the copy count of phase 5 is returned.
    pub fn report_verify(&mut self, outcomes: Vec<OpStat>) -> (r: Result<usize, Error>)
        requires
            old(self).phase_s() is Verifying,
            old(self).inv(),
            (old(self).verify_s() && !old(self).dryrun_s()) ==> outcomes@.len() == old(self).ops_s().len(),
        ensures
            final(self).inv(),
            same_setup(old(self), final(self)),
            ({
                let active = old(self).verify_s() && !old(self).dryrun_s();
                let ol = outdated_list(old(self).ops_s(), outcomes@);
                let el = error_list(old(self).ops_s(), outcomes@);
                match r {
                    Ok(n) => final(self).phase_s() is Done && n as int == old(self).copied_s()
                        && (active ==> el.len() == 0 && ol.len() == 0),
                    Err(e) => active && final(self).phase_s() is Failed && (match e {
                        Error::VerifyErrors(v) => el.len() > 0 && op_err_views(v@) == el,
                        Error::VerifyIncomplete(v) => el.len() == 0 && ol.len() > 0 && views_of(
                            v@,
                        ) == ol,
                        _ => false,
                    }),
                }
            }),
    {
        if self.verify_copy && !self.dryrun {
            match self.next.outdated(false, outcomes) {
                Ok(v) => {
                    if v.len() > 0 {
                        self.phase = Phase::Failed;
                        proof {
                            assert(views_of(v@).len() == v@.len());
                        }
                        Err(Error::VerifyIncomplete(v))
                    } else {
                        self.phase = Phase::Done;
                        proof {
                            assert(views_of(v@).len() == v@.len());
                        }
                        Ok(self.copied)
                    }
                },
                Err(errs) => {
                    self.phase = Phase::Failed;
                    Err(Error::VerifyErrors(errs))
                },
            }
        } else {
            self.phase = Phase::Done;
            Ok(self.copied)
        }
    }

    /// The number of operations copied in phase 5.
    pub fn copied_count(&self) -> (r: usize)
        ensures
            r as int == self.copied_s(),
    {
        self.copied
    }

    /// Whether the persisted manifest should now be replaced by the next
    /// one: only after a fully successful pass, and never in dry-run mode.
    pub fn should_commit(&self) -> (r: bool)
        ensures
            r == (self.phase_s() is Done && !self.dryrun_s()),
    {
        let done = match self.phase {
            Phase::Done => true,
            _ => false,
        };
        done && !self.dryrun
    }
}

/// The configuration and manifest data of an engine, unchanged by every
/// phase transition.
pub open spec fn same_setup(a: &SyncEngine, b: &SyncEngine) -> bool {
    &&& a.dryrun_s() == b.dryrun_s()
    &&& a.force_s() == b.force_s()
    &&& a.verify_s() == b.verify_s()
    &&& a.ops_s() == b.ops_s()
    &&& a.prev_dests_s() == b.prev_dests_s()
    &&& a.srcs_s() == b.srcs_s()
    &&& a.dests_s() == b.dests_s()
}

} // verus!
