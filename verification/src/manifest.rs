//! Manifests: parsing tab-separated (source, destination) records into a
//! sorted, duplicate-free sequence of copy operations, and deciding which
//! operations are outdated.

use vstd::prelude::*;
use crate::copyop::CopyOp;
use crate::copyop::OpStat;
use crate::copyop::complete_spec;
use crate::order::Ordered;
use crate::order::count_in;
use crate::order::dedup_sorted;
use crate::order::lemma_count_contains;
use crate::order::sort_items;
use crate::order::sorted_by;
use crate::order::strict_sorted_by;
use crate::order::views_of;
use crate::path::MPath;
use crate::path::PartV;
use crate::path::PathExt;
use crate::path::is_sandboxed_parts;
use crate::path::join_parts;
use crate::path::norm_parts;
use crate::path::parse_parts;
use crate::path::render_parts;
use crate::util::FsError;

verus! {

/// Why a manifest failed to parse.
#[derive(Debug)]
pub enum ParseError {
    /// A record line (1-based) has no tab-separated destination field.
    MissingDest { line: usize },
    /// A source path escapes the sandbox; carries the normalized path.
    SrcNotSandboxed { path: MPath },
    /// A destination path escapes the sandbox; carries the normalized path.
    DestNotSandboxed { path: MPath },
}

/// Index of the first occurrence of `c`, or the length if absent.
pub open spec fn upto(s: Seq<u8>, c: u8) -> int
    decreases s.len(),
{
    if s.len() == 0 || s[0] == c {
        0
    } else {
        1 + upto(s.skip(1), c)
    }
}

pub proof fn lemma_upto_bounds(s: Seq<u8>, c: u8)
    ensures
        0 <= upto(s, c) <= s.len(),
    decreases s.len(),
{
    if s.len() > 0 && s[0] != c {
        lemma_upto_bounds(s.skip(1), c);
    }
}

/// The lines of a byte text, split on line feeds.
pub open spec fn split_lines(s: Seq<u8>) -> Seq<Seq<u8>>
    decreases s.len(),
    via split_lines_dec
{
    if s.len() == 0 {
        Seq::<Seq<u8>>::empty()
    } else {
        let k = upto(s, 10);
        if k == s.len() {
            seq![s]
        } else {
            seq![s.take(k)] + split_lines(s.skip(k + 1))
        }
    }
}

#[via_fn]
proof fn split_lines_dec(s: Seq<u8>) {
    lemma_upto_bounds(s, 10);
}

/// ASCII whitespace, as trimming understands it.
pub open spec fn is_space(c: u8) -> bool {
    c == 32 || c == 9 || c == 10 || c == 13 || c == 12
}

pub open spec fn trim_front(s: Seq<u8>) -> Seq<u8>
    decreases s.len(),
{
    if s.len() == 0 || !is_space(s[0]) {
        s
    } else {
        trim_front(s.skip(1))
    }
}

pub open spec fn trim_back(s: Seq<u8>) -> Seq<u8>
    decreases s.len(),
{
    if s.len() == 0 || !is_space(s.last()) {
        s
    } else {
        trim_back(s.drop_last())
    }
}

/// A line with the surrounding ASCII whitespace removed.
pub open spec fn trim(s: Seq<u8>) -> Seq<u8> {
    trim_back(trim_front(s))
}

/// Blank lines and `#` comments carry no record.
pub open spec fn line_skipped(t: Seq<u8>) -> bool {
    t.len() == 0 || t[0] == 35
}

/// The outcome of parsing a line sequence: the record views in order, or the
/// first failure.
pub enum ParseOutcome {
    Ops(Seq<(Seq<PartV>, Seq<PartV>)>),
    BadLine(int),
    BadSrc(Seq<PartV>),
    BadDest(Seq<PartV>),
}

/// The normalized source path of a raw field.
pub open spec fn norm_of(b: Seq<u8>) -> Seq<PartV> {
    norm_parts(parse_parts(b), b.len() >= 260)
}

/// The destination path of a record: normalized, then rebased under
/// `dd` (when `dd_use` is set) and re-normalized.
pub open spec fn dest_of(b: Seq<u8>, dd: Seq<PartV>, dd_use: bool) -> Seq<PartV> {
    let d0 = norm_of(b);
    if dd_use {
        let j = join_parts(dd, d0);
        norm_parts(j, render_parts(j).len() >= 260)
    } else {
        d0
    }
}

/// What a single raw line contributes.
pub enum LineOutcome {
    Skip,
    Op((Seq<PartV>, Seq<PartV>)),
    BadLine,
    BadSrc(Seq<PartV>),
    BadDest(Seq<PartV>),
}

/// Parse one raw line: trim it, skip blanks and comments, split the two
/// tab-separated fields, normalize and (for the destination) rebase.
pub open spec fn line_spec(
    raw: Seq<u8>,
    dd: Seq<PartV>,
    dd_use: bool,
    sandbox_src: bool,
    sandbox_dest: bool,
) -> LineOutcome {
    let t = trim(raw);
    if line_skipped(t) {
        LineOutcome::Skip
    } else {
        let k = upto(t, 9);
        if k == t.len() {
            LineOutcome::BadLine
        } else {
            let src_b = t.take(k);
            let rest = t.skip(k + 1);
            let dest_b = rest.take(upto(rest, 9));
            let sp = norm_of(src_b);
            if sandbox_src && !is_sandboxed_parts(sp, false) {
                LineOutcome::BadSrc(sp)
            } else {
                let dp0 = norm_of(dest_b);
                if sandbox_dest && !is_sandboxed_parts(dp0, false) {
                    LineOutcome::BadDest(dp0)
                } else {
                    LineOutcome::Op((sp, dest_of(dest_b, dd, dd_use)))
                }
            }
        }
    }
}

/// Parse a sequence of lines starting at 1-based line number `lineno`,
/// stopping at the first failure.
pub open spec fn parse_lines_spec(
    lines: Seq<Seq<u8>>,
    lineno: int,
    dd: Seq<PartV>,
    dd_use: bool,
    sandbox_src: bool,
    sandbox_dest: bool,
) -> ParseOutcome
    decreases lines.len(),
{
    if lines.len() == 0 {
        ParseOutcome::Ops(Seq::<(Seq<PartV>, Seq<PartV>)>::empty())
    } else {
        let rest = parse_lines_spec(
            lines.skip(1),
            lineno + 1,
            dd,
            dd_use,
            sandbox_src,
            sandbox_dest,
        );
        match line_spec(lines[0], dd, dd_use, sandbox_src, sandbox_dest) {
            LineOutcome::Skip => rest,
            LineOutcome::BadLine => ParseOutcome::BadLine(lineno),
            LineOutcome::BadSrc(p) => ParseOutcome::BadSrc(p),
            LineOutcome::BadDest(p) => ParseOutcome::BadDest(p),
            LineOutcome::Op(e) => match rest {
                ParseOutcome::Ops(ro) => ParseOutcome::Ops(seq![e] + ro),
                x => x,
            },
        }
    }
}

/// The operation that is still outdated for each stat outcome, in manifest
/// order.
pub open spec fn outdated_list(ops: Seq<(Seq<PartV>, Seq<PartV>)>, outs: Seq<OpStat>) -> Seq<
    (Seq<PartV>, Seq<PartV>),
>
    decreases ops.len(),
{
    if ops.len() == 0 || outs.len() == 0 {
        Seq::<(Seq<PartV>, Seq<PartV>)>::empty()
    } else {
        let rest = outdated_list(ops.skip(1), outs.skip(1));
        match outs[0].src {
            Ok(m) => if !complete_spec(m, outs[0].dest) {
                seq![ops[0]] + rest
            } else {
                rest
            },
            Err(_) => rest,
        }
    }
}

/// The hard per-operation failures: operations whose source could not be
/// inspected, with their causes, in manifest order.
pub open spec fn error_list(ops: Seq<(Seq<PartV>, Seq<PartV>)>, outs: Seq<OpStat>) -> Seq<
    ((Seq<PartV>, Seq<PartV>), FsError),
>
    decreases ops.len(),
{
    if ops.len() == 0 || outs.len() == 0 {
        Seq::<((Seq<PartV>, Seq<PartV>), FsError)>::empty()
    } else {
        let rest = error_list(ops.skip(1), outs.skip(1));
        match outs[0].src {
            Ok(_) => rest,
            Err(e) => seq![(ops[0], e)] + rest,
        }
    }
}

/// View of a vector of (operation, failure) pairs.
pub open spec fn op_err_views(s: Seq<(CopyOp, FsError)>) -> Seq<
    ((Seq<PartV>, Seq<PartV>), FsError),
> {
    s.map_values(|p: (CopyOp, FsError)| (p.0@, p.1))
}

/// A manifest: a sorted, duplicate-free sequence of copy operations.
#[derive(Debug)]
pub struct Manifest {
    operations: Vec<CopyOp>,
}

impl Manifest {
    /// The operation views, in order.
    pub closed spec fn ops(&self) -> Seq<(Seq<PartV>, Seq<PartV>)> {
        views_of(self.operations@)
    }

    /// The manifest invariant: strictly sorted, hence duplicate-free.
    pub open spec fn inv(&self) -> bool {
        strict_sorted_by::<CopyOp>(self.ops())
    }

    /// The empty manifest.
    pub fn new() -> (r: Manifest)
        ensures
            r.inv(),
            r.ops() == Seq::<(Seq<PartV>, Seq<PartV>)>::empty(),
    {
        let r = Manifest { operations: Vec::new() };
        proof {
            assert(r.ops() =~= Seq::<(Seq<PartV>, Seq<PartV>)>::empty());
        }
        r
    }

    /// A copy of the manifest.
    pub fn dup(&self) -> (r: Manifest)
        ensures
            r.ops() == self.ops(),
    {
        Manifest { operations: crate::order::dup_items(&self.operations) }
    }

    /// All copy operations, in manifest order.
    pub fn operations(&self) -> (r: &Vec<CopyOp>)
        ensures
            views_of(r@) == self.ops(),
    {
        &self.operations
    }

    /// The source paths, in manifest order (already sorted by the operation
    /// order).
    pub fn srcs(&self) -> (r: Vec<MPath>)
        requires
            self.inv(),
        ensures
            views_of(r@) == self.ops().map_values(|p: (Seq<PartV>, Seq<PartV>)| p.0),
            sorted_by::<MPath>(views_of(r@)),
    {
        let mut out: Vec<MPath> = Vec::new();
        let mut i: usize = 0;
        while i < self.operations.len()
            invariant
                0 <= i <= self.operations@.len(),
                views_of(out@) =~= self.ops().map_values(|p: (Seq<PartV>, Seq<PartV>)| p.0).take(
                    i as int,
                ),
                out@.len() == i,
            decreases self.operations@.len() - i,
        {
            let x = self.operations[i].src.dup();
            let ghost prev = views_of(out@);
            out.push(x);
            proof {
                crate::order::lemma_views_push(out@.drop_last(), out@.last());
                assert(out@.drop_last().push(out@.last()) =~= out@);
                assert(self.ops()[i as int].0 == self.operations@[i as int]@.0);
                assert(views_of(out@) =~= self.ops().map_values(
                    |p: (Seq<PartV>, Seq<PartV>)| p.0,
                ).take(i as int + 1));
            }
            i += 1;
        }
        proof {
            let m = self.ops().map_values(|p: (Seq<PartV>, Seq<PartV>)| p.0);
            assert(m.take(m.len() as int) =~= m);
            assert forall|i: int, j: int| 0 <= i < j < m.len() implies crate::path::path_lt(
                #[trigger] m[i],
                #[trigger] m[j],
            ) || m[i] == m[j] by {
                assert(CopyOp::lt_v(self.ops()[i], self.ops()[j]));
            }
        }
        out
    }

    /// The destination paths, sorted ascending (duplicates kept).
    pub fn dests(&self) -> (r: Vec<MPath>)
        ensures
            sorted_by::<MPath>(views_of(r@)),
            forall|x: Seq<PartV>| #[trigger] count_in(views_of(r@), x) == count_in(
                self.ops().map_values(|p: (Seq<PartV>, Seq<PartV>)| p.1),
                x,
            ),
            r@.len() == self.ops().len(),
    {
        let mut out: Vec<MPath> = Vec::new();
        let mut i: usize = 0;
        while i < self.operations.len()
            invariant
                0 <= i <= self.operations@.len(),
                views_of(out@) =~= self.ops().map_values(|p: (Seq<PartV>, Seq<PartV>)| p.1).take(
                    i as int,
                ),
                out@.len() == i,
            decreases self.operations@.len() - i,
        {
            let x = self.operations[i].dest.dup();
            let ghost prev = views_of(out@);
            out.push(x);
            proof {
                crate::order::lemma_views_push(out@.drop_last(), out@.last());
                assert(out@.drop_last().push(out@.last()) =~= out@);
                assert(self.ops()[i as int].1 == self.operations@[i as int]@.1);
                assert(views_of(out@) =~= self.ops().map_values(
                    |p: (Seq<PartV>, Seq<PartV>)| p.1,
                ).take(i as int + 1));
            }
            i += 1;
        }
        proof {
            let m = self.ops().map_values(|p: (Seq<PartV>, Seq<PartV>)| p.1);
            assert(m.take(m.len() as int) =~= m);
        }
        sort_items(out)
    }

    /// The operations that need copying, judged from the given stat
    /// outcomes (one per operation, in manifest order), or the operations
    /// whose sources could not be inspected.  With `force`, every operation
    /// is outdated and no outcome is consulted.
    pub fn outdated(&self, force: bool, outcomes: Vec<OpStat>) -> (r: Result<
        Vec<CopyOp>,
        Vec<(CopyOp, FsError)>,
    >)
        requires
            force || outcomes@.len() == self.ops().len(),
        ensures
            force ==> (r matches Ok(v) && views_of(v@) == self.ops()),
            !force ==> ({
                let outd = outdated_list(self.ops(), outcomes@);
                let errs = error_list(self.ops(), outcomes@);
                match r {
                    Ok(v) => errs.len() == 0 && views_of(v@) == outd,
                    Err(e) => errs.len() > 0 && op_err_views(e@) == errs,
                }
            }),
    {
        if force {
            let mut out: Vec<CopyOp> = Vec::new();
            let mut i: usize = 0;
            while i < self.operations.len()
                invariant
                    0 <= i <= self.operations@.len(),
                    views_of(out@) =~= self.ops().take(i as int),
                    out@.len() == i,
                decreases self.operations@.len() - i,
            {
                let x = self.operations[i].dup();
                out.push(x);
                proof {
                    crate::order::lemma_views_push(out@.drop_last(), out@.last());
                    assert(out@.drop_last().push(out@.last()) =~= out@);
                    assert(views_of(out@) =~= self.ops().take(i as int + 1));
                }
                i += 1;
            }
            proof {
                assert(self.ops().take(self.ops().len() as int) =~= self.ops());
            }
            return Ok(out);
        }
        let ghost outs0 = outcomes@;
        let ghost allops = self.ops();
        let mut outs = outcomes;
        let mut outd: Vec<CopyOp> = Vec::new();
        let mut errs: Vec<(CopyOp, FsError)> = Vec::new();
        let mut i: usize = 0;
        proof {
            assert(allops.skip(0) =~= allops);
            assert(outs0.skip(0) =~= outs0);
            assert(views_of(outd@) =~= Seq::<(Seq<PartV>, Seq<PartV>)>::empty());
            assert(op_err_views(errs@) =~= Seq::<((Seq<PartV>, Seq<PartV>), FsError)>::empty());
            assert(Seq::<(Seq<PartV>, Seq<PartV>)>::empty() + outdated_list(allops, outs0)
                =~= outdated_list(allops, outs0));
            assert(Seq::<((Seq<PartV>, Seq<PartV>), FsError)>::empty() + error_list(
                allops,
                outs0,
            ) =~= error_list(allops, outs0));
        }
        while i < self.operations.len()
            invariant
                0 <= i <= self.operations@.len(),
                allops == self.ops(),
                allops.len() == self.operations@.len(),
                outs0.len() == allops.len(),
                outs@ =~= outs0.skip(i as int),
                views_of(outd@) + outdated_list(allops.skip(i as int), outs0.skip(i as int))
                    == outdated_list(allops, outs0),
                op_err_views(errs@) + error_list(allops.skip(i as int), outs0.skip(i as int))
                    == error_list(allops, outs0),
            decreases self.operations@.len() - i,
        {
            let ghost ta = allops.skip(i as int);
            let ghost tb = outs0.skip(i as int);
            proof {
                assert(ta[0] == allops[i as int]);
                assert(tb[0] == outs0[i as int]);
                assert(ta.skip(1) =~= allops.skip(i as int + 1));
                assert(tb.skip(1) =~= outs0.skip(i as int + 1));
            }
            let o = outs.remove(0);
            proof {
                assert(o == outs0[i as int]);
                assert(outs@ =~= outs0.skip(i as int + 1));
            }
            match o.src {
                Ok(m) => {
                    let is_done = self.operations[i].is_complete(&m, &o.dest);
                    if !is_done {
                        let ghost before = views_of(outd@);
                        let x = self.operations[i].dup();
                        outd.push(x);
                        proof {
                            crate::order::lemma_views_push(outd@.drop_last(), outd@.last());
                            assert(outd@.drop_last().push(outd@.last()) =~= outd@);
                            assert(views_of(outd@) =~= before.push(allops[i as int]));
                            assert(outdated_list(ta, tb) =~= seq![allops[i as int]]
                                + outdated_list(allops.skip(i as int + 1), outs0.skip(
                                i as int + 1,
                            )));
                            assert(before.push(allops[i as int]) + outdated_list(
                                allops.skip(i as int + 1),
                                outs0.skip(i as int + 1),
                            ) =~= before + outdated_list(ta, tb));
                        }
                    } else {
                        proof {
                            assert(outdated_list(ta, tb) == outdated_list(
                                allops.skip(i as int + 1),
                                outs0.skip(i as int + 1),
                            ));
                        }
                    }
                    proof {
                        assert(error_list(ta, tb) == error_list(
                            allops.skip(i as int + 1),
                            outs0.skip(i as int + 1),
                        ));
                    }
                },
                Err(e) => {
                    let ghost before = op_err_views(errs@);
                    let x = self.operations[i].dup();
                    let ghost ev = (allops[i as int], e);
                    errs.push((x, e));
                    proof {
                        assert(errs@.drop_last().push(errs@.last()) =~= errs@);
                        assert(op_err_views(errs@) =~= before.push(ev));
                        assert(error_list(ta, tb) =~= seq![ev] + error_list(
                            allops.skip(i as int + 1),
                            outs0.skip(i as int + 1),
                        ));
                        assert(before.push(ev) + error_list(
                            allops.skip(i as int + 1),
                            outs0.skip(i as int + 1),
                        ) =~= before + error_list(ta, tb));
                        assert(outdated_list(ta, tb) == outdated_list(
                            allops.skip(i as int + 1),
                            outs0.skip(i as int + 1),
                        ));
                    }
                },
            }
            i += 1;
        }
        proof {
            assert(allops.skip(allops.len() as int) =~= Seq::<(Seq<PartV>, Seq<PartV>)>::empty());
            assert(outs0.skip(outs0.len() as int) =~= Seq::<OpStat>::empty());
            assert(outdated_list(
                allops.skip(allops.len() as int),
                outs0.skip(outs0.len() as int),
            ) =~= Seq::<(Seq<PartV>, Seq<PartV>)>::empty());
            assert(error_list(allops.skip(allops.len() as int), outs0.skip(outs0.len() as int))
                =~= Seq::<((Seq<PartV>, Seq<PartV>), FsError)>::empty());
            assert(views_of(outd@) + Seq::<(Seq<PartV>, Seq<PartV>)>::empty() =~= views_of(
                outd@,
            ));
            assert(op_err_views(errs@) + Seq::<((Seq<PartV>, Seq<PartV>), FsError)>::empty()
                =~= op_err_views(errs@));
        }
        if errs.len() == 0 {
            proof {
                assert(error_list(allops, outs0).len() == 0);
            }
            Ok(outd)
        } else {
            proof {
                assert(error_list(allops, outs0).len() == errs@.len());
            }
            Err(errs)
        }
    }
}

proof fn lemma_upto_is(t: Seq<u8>, c: u8, m: int)
    requires
        0 <= m <= t.len(),
        forall|k: int| 0 <= k < m ==> #[trigger] t[k] != c,
        m == t.len() || t[m] == c,
    ensures
        upto(t, c) == m,
    decreases m,
{
    if m == 0 {
    } else {
        assert(t[0] != c);
        assert forall|k: int| 0 <= k < m - 1 implies #[trigger] t.skip(1)[k] != c by {
            assert(t.skip(1)[k] == t[k + 1]);
        }
        if m < t.len() {
            assert(t.skip(1)[m - 1] == t[m]);
        }
        lemma_upto_is(t.skip(1), c, m - 1);
    }
}

proof fn lemma_trim_front_is(s: Seq<u8>, m: int)
    requires
        0 <= m <= s.len(),
        forall|k: int| 0 <= k < m ==> is_space(#[trigger] s[k]),
        m == s.len() || !is_space(s[m]),
    ensures
        trim_front(s) == s.skip(m),
    decreases m,
{
    if m == 0 {
        assert(s.skip(0) =~= s);
    } else {
        assert(is_space(s[0]));
        assert forall|k: int| 0 <= k < m - 1 implies is_space(#[trigger] s.skip(1)[k]) by {
            assert(s.skip(1)[k] == s[k + 1]);
        }
        if m < s.len() {
            assert(s.skip(1)[m - 1] == s[m]);
        }
        lemma_trim_front_is(s.skip(1), m - 1);
        assert(s.skip(1).skip(m - 1) =~= s.skip(m));
    }
}

proof fn lemma_trim_back_is(s: Seq<u8>, m: int)
    requires
        0 <= m <= s.len(),
        forall|k: int| m <= k < s.len() ==> is_space(#[trigger] s[k]),
        m == 0 || !is_space(s[m - 1]),
    ensures
        trim_back(s) == s.take(m),
    decreases s.len(),
{
    if m == s.len() {
        if s.len() > 0 {
            assert(!is_space(s.last()));
        }
        assert(s.take(m) =~= s);
    } else {
        assert(is_space(s.last()));
        assert(s.drop_last() =~= s.take(s.len() - 1));
        assert forall|k: int| m <= k < s.drop_last().len() implies is_space(
            #[trigger] s.drop_last()[k],
        ) by {
            assert(s.drop_last()[k] == s[k]);
        }
        if m > 0 {
            assert(s.drop_last()[m - 1] == s[m - 1]);
        }
        lemma_trim_back_is(s.drop_last(), m);
        assert(s.drop_last().take(m) =~= s.take(m));
    }
}

fn is_space_exec(c: u8) -> (r: bool)
    ensures
        r == is_space(c),
{
    c == 32 || c == 9 || c == 10 || c == 13 || c == 12
}

/// Scan forward for byte `c` within `[from, limit)`.
fn scan_byte(s: &[u8], from: usize, limit: usize, c: u8) -> (j: usize)
    requires
        from <= limit <= s@.len(),
    ensures
        from <= j <= limit,
        forall|k: int| from <= k < j ==> #[trigger] s@[k] != c,
        j < limit ==> s@[j as int] == c,
{
    let mut j = from;
    while j < limit && s[j] != c
        invariant
            from <= j <= limit,
            limit <= s@.len(),
            forall|k: int| from <= k < j ==> #[trigger] s@[k] != c,
        decreases limit - j,
    {
        j += 1;
    }
    j
}

/// Scan past leading ASCII whitespace within `[from, limit)`.
fn skip_spaces(s: &[u8], from: usize, limit: usize) -> (j: usize)
    requires
        from <= limit <= s@.len(),
    ensures
        from <= j <= limit,
        forall|k: int| from <= k < j ==> is_space(#[trigger] s@[k]),
        j < limit ==> !is_space(s@[j as int]),
{
    let mut j = from;
    while j < limit && is_space_exec(s[j])
        invariant
            from <= j <= limit,
            limit <= s@.len(),
            forall|k: int| from <= k < j ==> is_space(#[trigger] s@[k]),
        decreases limit - j,
    {
        j += 1;
    }
    j
}

/// Scan back past trailing ASCII whitespace within `[from, limit)`.
fn rskip_spaces(s: &[u8], from: usize, limit: usize) -> (j: usize)
    requires
        from <= limit <= s@.len(),
    ensures
        from <= j <= limit,
        forall|k: int| j <= k < limit ==> is_space(#[trigger] s@[k]),
        j > from ==> !is_space(s@[j - 1]),
{
    let mut j = limit;
    while j > from && is_space_exec(s[j - 1])
        invariant
            from <= j <= limit,
            limit <= s@.len(),
            forall|k: int| j <= k < limit ==> is_space(#[trigger] s@[k]),
        decreases j,
    {
        j -= 1;
    }
    j
}

/// An accumulator of already-parsed records in front of a pending outcome.
pub open spec fn prepend_ops(acc: Seq<(Seq<PartV>, Seq<PartV>)>, out: ParseOutcome) -> ParseOutcome {
    match out {
        ParseOutcome::Ops(s) => ParseOutcome::Ops(acc + s),
        _ => out,
    }
}

impl Manifest {
    /// Parse manifest text: one `source<TAB>destination` record per line,
    /// blank lines and `#` comments ignored, both paths normalized,
    /// destinations rebased under `dest_dir` when it is non-empty, the
    /// result sorted with exact duplicates removed.  Fails on the first
    /// record without a destination field or, when the corresponding flag is
    /// set, on the first source or destination that is not sandboxed.
    /// Process the raw line `content[i..k]`: trim, classify, and build its
    /// copy operation if it carries one.
    fn parse_line(
        content: &[u8],
        i: usize,
        k: usize,
        lineno: usize,
        dest_dir: &MPath,
        dd_use: bool,
        sandbox_src: bool,
        sandbox_dest: bool,
    ) -> (r: Result<Option<CopyOp>, ParseError>)
        requires
            i <= k <= content@.len(),
            dd_use == (dest_dir@.len() > 0),
        ensures
            ({
                let lo = line_spec(
                    content@.subrange(i as int, k as int),
                    dest_dir@,
                    dd_use,
                    sandbox_src,
                    sandbox_dest,
                );
                match r {
                    Ok(op) => match op {
                        Some(o) => lo == LineOutcome::Op(o@),
                        None => lo is Skip,
                    },
                    Err(e) => match e {
                        ParseError::MissingDest { line } => lo is BadLine && line == lineno,
                        ParseError::SrcNotSandboxed { path } => lo == LineOutcome::BadSrc(path@),
                        ParseError::DestNotSandboxed { path } => lo == LineOutcome::BadDest(
                            path@,
                        ),
                    },
                }
            }),
    {
        let ghost line = content@.subrange(i as int, k as int);
        let lo = skip_spaces(content, i, k);
        let hi = rskip_spaces(content, lo, k);
        let ghost tline = trim(line);
        proof {
            assert forall|m: int| 0 <= m < lo - i implies is_space(#[trigger] line[m]) by {
                assert(line[m] == content@[i + m]);
            }
            if lo < k {
                assert(line[lo - i] == content@[lo as int]);
            }
            lemma_trim_front_is(line, lo - i);
            assert(line.skip(lo - i) =~= content@.subrange(lo as int, k as int));
            let mid = content@.subrange(lo as int, k as int);
            assert forall|m: int| hi - lo <= m < mid.len() implies is_space(#[trigger] mid[m]) by {
                assert(mid[m] == content@[lo + m]);
            }
            if hi > lo {
                assert(mid[hi - lo - 1] == content@[hi - 1]);
            }
            lemma_trim_back_is(mid, hi - lo);
            assert(mid.take(hi - lo) =~= content@.subrange(lo as int, hi as int));
            assert(tline =~= content@.subrange(lo as int, hi as int));
            assert(tline.len() == hi - lo);
        }
        if lo == hi {
            return Ok(None);
        }
        proof {
            assert(tline[0] == content@[lo as int]);
        }
        if content[lo] == 35 {
            return Ok(None);
        }
        let tab = scan_byte(content, lo, hi, 9);
        proof {
            assert forall|m: int| 0 <= m < tab - lo implies #[trigger] tline[m] != 9 by {
                assert(tline[m] == content@[lo + m]);
            }
            if tab < hi {
                assert(tline[tab - lo] == content@[tab as int]);
            }
            lemma_upto_is(tline, 9, tab - lo);
            assert(!line_skipped(tline));
        }
        if tab == hi {
            proof {
                assert(upto(tline, 9) == tline.len());
            }
            return Err(ParseError::MissingDest { line: lineno });
        }
        let src_vec = copy_range_bytes(content, lo, tab);
        let tab2 = scan_byte(content, tab + 1, hi, 9);
        let dest_vec = copy_range_bytes(content, tab + 1, tab2);
        let ghost src_b = tline.take(tab - lo);
        let ghost rest_b = tline.skip(tab - lo + 1);
        let ghost dest_b = rest_b.take(upto(rest_b, 9));
        proof {
            assert(src_b =~= content@.subrange(lo as int, tab as int));
            assert(src_vec@ == src_b);
            assert(rest_b =~= content@.subrange(tab as int + 1, hi as int));
            assert forall|m: int| 0 <= m < tab2 - (tab + 1) implies #[trigger] rest_b[m] != 9 by {
                assert(rest_b[m] == content@[tab + 1 + m]);
            }
            if tab2 < hi {
                assert(rest_b[tab2 - (tab + 1)] == content@[tab2 as int]);
            }
            lemma_upto_is(rest_b, 9, tab2 - (tab + 1));
            assert(rest_b.take(tab2 - (tab + 1)) =~= content@.subrange(
                tab as int + 1,
                tab2 as int,
            ));
            assert(dest_vec@ == dest_b);
        }
        let sp = MPath::parse(src_vec.as_slice()).norm();
        proof {
            assert(sp@ == norm_of(src_b));
        }
        if sandbox_src && !sp.is_sandboxed() {
            return Err(ParseError::SrcNotSandboxed { path: sp });
        }
        let dp0 = MPath::parse(dest_vec.as_slice()).norm();
        proof {
            assert(dp0@ == norm_of(dest_b));
        }
        if sandbox_dest && !dp0.is_sandboxed() {
            return Err(ParseError::DestNotSandboxed { path: dp0 });
        }
        let dp = if dd_use {
            let joined = dest_dir.join(&dp0);
            joined.norm()
        } else {
            dp0
        };
        proof {
            assert(dp@ == dest_of(dest_b, dest_dir@, dd_use));
        }
        let op = CopyOp::new(sp, dp);
        proof {
            assert(op@ == (norm_of(src_b), dest_of(dest_b, dest_dir@, dd_use)));
        }
        Ok(Some(op))
    }

    /// Parse manifest text: one `source<TAB>destination` record per line,
    /// blank lines and `#` comments ignored, both paths normalized,
    /// destinations rebased under `dest_dir` when it is non-empty, the
    /// result sorted with exact duplicates removed.  Fails on the first
    /// record without a destination field or, when the corresponding flag is
    /// set, on the first source or destination that is not sandboxed.
    pub fn parse_reader(
        content: &[u8],
        dest_dir: &MPath,
        sandbox_src: bool,
        sandbox_dest: bool,
    ) -> (r: Result<Manifest, ParseError>)
        requires
            content@.len() < usize::MAX,
        ensures
            ({
                let out = parse_lines_spec(
                    split_lines(content@),
                    1,
                    dest_dir@,
                    dest_dir@.len() > 0,
                    sandbox_src,
                    sandbox_dest,
                );
                match r {
                    Ok(m) => m.inv() && (out matches ParseOutcome::Ops(recs) && (forall|
                        x: (Seq<PartV>, Seq<PartV>),
                    |
                        #[trigger] m.ops().contains(x) <==> recs.contains(x))),
                    Err(e) => match e {
                        ParseError::MissingDest { line } => out == ParseOutcome::BadLine(
                            line as int,
                        ),
                        ParseError::SrcNotSandboxed { path } => out == ParseOutcome::BadSrc(
                            path@,
                        ),
                        ParseError::DestNotSandboxed { path } => out == ParseOutcome::BadDest(
                            path@,
                        ),
                    },
                }
            }),
    {
        let ghost all_lines = split_lines(content@);
        let ghost dd = dest_dir@;
        let ghost total = parse_lines_spec(
            all_lines,
            1,
            dd,
            dd.len() > 0,
            sandbox_src,
            sandbox_dest,
        );
        let dd_use = !dest_dir.is_empty();
        let mut ops: Vec<CopyOp> = Vec::new();
        let mut i: usize = 0;
        let mut lineno: usize = 1;
        proof {
            assert(content@.skip(0) =~= content@);
            assert(views_of(ops@) =~= Seq::<(Seq<PartV>, Seq<PartV>)>::empty());
            match total {
                ParseOutcome::Ops(s) => {
                    assert(Seq::<(Seq<PartV>, Seq<PartV>)>::empty() + s =~= s);
                },
                _ => {},
            }
        }
        while i < content.len()
            invariant
                0 <= i <= content@.len(),
                content@.len() < usize::MAX,
                lineno <= i + 1,
                dd == dest_dir@,
                all_lines == split_lines(content@),
                dd_use == (dd.len() > 0),
                total == parse_lines_spec(all_lines, 1, dd, dd.len() > 0, sandbox_src,
                    sandbox_dest,
                ),
                prepend_ops(
                    views_of(ops@),
                    parse_lines_spec(
                        split_lines(content@.skip(i as int)),
                        lineno as int,
                        dd,
                        dd_use,
                        sandbox_src,
                        sandbox_dest,
                    ),
                ) == total,
            decreases content@.len() - i,
        {
            let k = scan_byte(content, i, content.len(), 10);
            let ghost line = content@.subrange(i as int, k as int);
            let ghost rest_lines = if k < content@.len() {
                split_lines(content@.skip(k as int + 1))
            } else {
                Seq::<Seq<u8>>::empty()
            };
            let ghost lines_i = split_lines(content@.skip(i as int));
            proof {
                let t = content@.skip(i as int);
                assert forall|m: int| 0 <= m < k - i implies #[trigger] t[m] != 10 by {
                    assert(t[m] == content@[i + m]);
                }
                if k < content@.len() {
                    assert(t[k - i] == content@[k as int]);
                }
                lemma_upto_is(t, 10, k - i);
                assert(t.take(k - i) =~= line);
                if k < content@.len() {
                    assert(t.skip(k - i + 1) =~= content@.skip(k as int + 1));
                    assert(lines_i =~= seq![line] + rest_lines);
                } else {
                    assert(t =~= line);
                    assert(lines_i =~= seq![line] + rest_lines);
                }
                assert(lines_i[0] == line);
                assert(lines_i.skip(1) =~= rest_lines);
            }
            let ghost rec_out = parse_lines_spec(
                rest_lines,
                lineno as int + 1,
                dd,
                dd_use,
                sandbox_src,
                sandbox_dest,
            );
            let step = Self::parse_line(
                content,
                i,
                k,
                lineno,
                dest_dir,
                dd_use,
                sandbox_src,
                sandbox_dest,
            );
            match step {
                Ok(None) => {
                    proof {
                        assert(parse_lines_spec(lines_i, lineno as int, dd, dd_use, sandbox_src,
                            sandbox_dest,
                        ) == rec_out);
                    }
                },
                Ok(Some(op)) => {
                    let ghost before = views_of(ops@);
                    let ghost entry = op@;
                    ops.push(op);
                    proof {
                        assert(ops@.drop_last().push(ops@.last()) =~= ops@);
                        assert(views_of(ops@) =~= before.push(entry));
                        assert(parse_lines_spec(lines_i, lineno as int, dd, dd_use, sandbox_src,
                            sandbox_dest,
                        ) == (match rec_out {
                            ParseOutcome::Ops(ro) => ParseOutcome::Ops(seq![entry] + ro),
                            x => x,
                        }));
                        match rec_out {
                            ParseOutcome::Ops(ro) => {
                                assert(before.push(entry) + ro =~= before + (seq![entry] + ro));
                            },
                            _ => {},
                        }
                    }
                },
                Err(e) => {
                    proof {
                        match &e {
                            ParseError::MissingDest { line } => {
                                assert(parse_lines_spec(lines_i, lineno as int, dd, dd_use,
                                    sandbox_src,
                                    sandbox_dest,
                                ) == ParseOutcome::BadLine(lineno as int));
                                assert(total == ParseOutcome::BadLine(lineno as int));
                            },
                            ParseError::SrcNotSandboxed { path } => {
                                assert(parse_lines_spec(lines_i, lineno as int, dd, dd_use,
                                    sandbox_src,
                                    sandbox_dest,
                                ) == ParseOutcome::BadSrc(path@));
                                assert(total == ParseOutcome::BadSrc(path@));
                            },
                            ParseError::DestNotSandboxed { path } => {
                                assert(parse_lines_spec(lines_i, lineno as int, dd, dd_use,
                                    sandbox_src,
                                    sandbox_dest,
                                ) == ParseOutcome::BadDest(path@));
                                assert(total == ParseOutcome::BadDest(path@));
                            },
                        }
                    }
                    return Err(e);
                },
            }
            if k < content.len() {
                i = k + 1;
            } else {
                i = k;
            }
            lineno = lineno + 1;
        }
        proof {
            assert(content@.skip(content@.len() as int) =~= Seq::<u8>::empty());
            assert(split_lines(content@.skip(content@.len() as int)) =~= Seq::<Seq<u8>>::empty());
            assert(views_of(ops@) + Seq::<(Seq<PartV>, Seq<PartV>)>::empty() =~= views_of(ops@));
            assert(total == ParseOutcome::Ops(views_of(ops@)));
        }
        let ghost raw = views_of(ops@);
        let sorted = sort_items(ops);
        let out = dedup_sorted(&sorted);
        let m = Manifest { operations: out };
        proof {
            assert(m.ops() == views_of(m.operations@));
            assert forall|x: (Seq<PartV>, Seq<PartV>)| #[trigger] m.ops().contains(x)
                <==> raw.contains(x) by {
                lemma_count_contains(views_of(sorted@), x);
                lemma_count_contains(raw, x);
                assert(count_in(views_of(sorted@), x) == count_in(raw, x));
                assert(m.ops().contains(x) <==> views_of(sorted@).contains(x));
            }
        }
        Ok(m)
    }
}

/// Copy the byte range `[from, to)` out of a slice.
fn copy_range_bytes(s: &[u8], from: usize, to: usize) -> (r: Vec<u8>)
    requires
        from <= to <= s@.len(),
    ensures
        r@ == s@.subrange(from as int, to as int),
{
    let mut out: Vec<u8> = Vec::new();
    let mut i = from;
    while i < to
        invariant
            from <= i <= to,
            to <= s@.len(),
            out@ =~= s@.subrange(from as int, i as int),
        decreases to - i,
    {
        out.push(s[i]);
        proof {
            assert(out@ =~= s@.subrange(from as int, i as int + 1));
        }
        i += 1;
    }
    out
}

} // verus!
