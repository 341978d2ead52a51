//! Lexical paths: parsing into components, normalization, sandbox and
//! removability predicates, and a strict total order used for sorting and
//! diffing manifests.
//!
//! A path is a sequence of components.  The component grammar follows the
//! usual platform conventions in a single cross-platform lexical model:
//! `C:`-style drive prefixes, `\\server\share` network prefixes and the
//! `\\?\` verbatim forms are recognized on every platform, `/` and `\` both
//! separate components, and `.` / `..` are the current- and parent-directory
//! components.  No filesystem access happens here.

use vstd::prelude::*;
use crate::order::Ordered;
use crate::order::bytes_lt;
use crate::order::lemma_bytes_connex;
use crate::order::lemma_bytes_irrefl;
use crate::order::lemma_bytes_trans;
use crate::order::views_of;

verus! {

/// Abstract (view-level) path component.
#[verifier::ext_equal]
pub enum PartV {
    /// `\\?\thing`: verbatim prefix.
    Verbatim(Seq<u8>),
    /// `\\?\UNC\server\share`: verbatim network-share prefix.
    VerbatimUnc(Seq<u8>, Seq<u8>),
    /// `\\?\C:`: verbatim drive prefix.
    VerbatimDisk(u8),
    /// `\\server\share`: network-share prefix.
    Unc(Seq<u8>, Seq<u8>),
    /// `C:`: drive prefix.
    Disk(u8),
    /// The root directory separator.
    RootDir,
    /// The `.` component.
    CurDir,
    /// The `..` component.
    ParentDir,
    /// An ordinary named component.
    Normal(Seq<u8>),
}

/// Executable path component.
#[derive(Debug)]
pub enum Part {
    Verbatim(Vec<u8>),
    VerbatimUnc(Vec<u8>, Vec<u8>),
    VerbatimDisk(u8),
    Unc(Vec<u8>, Vec<u8>),
    Disk(u8),
    RootDir,
    CurDir,
    ParentDir,
    Normal(Vec<u8>),
}

impl View for Part {
    type V = PartV;

    open spec fn view(&self) -> PartV {
        match self {
            Part::Verbatim(a) => PartV::Verbatim(a@),
            Part::VerbatimUnc(a, b) => PartV::VerbatimUnc(a@, b@),
            Part::VerbatimDisk(c) => PartV::VerbatimDisk(*c),
            Part::Unc(a, b) => PartV::Unc(a@, b@),
            Part::Disk(c) => PartV::Disk(*c),
            Part::RootDir => PartV::RootDir,
            Part::CurDir => PartV::CurDir,
            Part::ParentDir => PartV::ParentDir,
            Part::Normal(a) => PartV::Normal(a@),
        }
    }
}

/// True for the drive, share and verbatim prefix components.
pub open spec fn is_prefix_part(p: PartV) -> bool {
    match p {
        PartV::Verbatim(_) => true,
        PartV::VerbatimUnc(_, _) => true,
        PartV::VerbatimDisk(_) => true,
        PartV::Unc(_, _) => true,
        PartV::Disk(_) => true,
        _ => false,
    }
}

/// Rank of a component variant in the total order.
pub open spec fn part_rank(p: PartV) -> int {
    match p {
        PartV::Verbatim(_) => 0,
        PartV::VerbatimUnc(_, _) => 1,
        PartV::VerbatimDisk(_) => 2,
        PartV::Unc(_, _) => 3,
        PartV::Disk(_) => 4,
        PartV::RootDir => 5,
        PartV::CurDir => 6,
        PartV::ParentDir => 7,
        PartV::Normal(_) => 8,
    }
}

/// Lexicographic order on pairs of byte sequences.
pub open spec fn pair_bytes_lt(a1: Seq<u8>, a2: Seq<u8>, b1: Seq<u8>, b2: Seq<u8>) -> bool {
    bytes_lt(a1, b1) || (a1 == b1 && bytes_lt(a2, b2))
}

/// Payload order between components of the same rank.
pub open spec fn part_payload_lt(p: PartV, q: PartV) -> bool {
    match (p, q) {
        (PartV::Verbatim(a), PartV::Verbatim(b)) => bytes_lt(a, b),
        (PartV::VerbatimUnc(a1, a2), PartV::VerbatimUnc(b1, b2)) => pair_bytes_lt(a1, a2, b1, b2),
        (PartV::VerbatimDisk(a), PartV::VerbatimDisk(b)) => a < b,
        (PartV::Unc(a1, a2), PartV::Unc(b1, b2)) => pair_bytes_lt(a1, a2, b1, b2),
        (PartV::Disk(a), PartV::Disk(b)) => a < b,
        (PartV::Normal(a), PartV::Normal(b)) => bytes_lt(a, b),
        _ => false,
    }
}

/// Strict total order on components: by rank, then by payload.
pub open spec fn part_lt(p: PartV, q: PartV) -> bool {
    part_rank(p) < part_rank(q) || (part_rank(p) == part_rank(q) && part_payload_lt(p, q))
}

pub proof fn lemma_part_connex(p: PartV, q: PartV)
    ensures
        part_lt(p, q) || part_lt(q, p) || p == q,
{
    if part_rank(p) == part_rank(q) {
        match (p, q) {
            (PartV::Verbatim(a), PartV::Verbatim(b)) => {
                lemma_bytes_connex(a, b);
            },
            (PartV::VerbatimUnc(a1, a2), PartV::VerbatimUnc(b1, b2)) => {
                lemma_bytes_connex(a1, b1);
                lemma_bytes_connex(a2, b2);
            },
            (PartV::Unc(a1, a2), PartV::Unc(b1, b2)) => {
                lemma_bytes_connex(a1, b1);
                lemma_bytes_connex(a2, b2);
            },
            (PartV::Normal(a), PartV::Normal(b)) => {
                lemma_bytes_connex(a, b);
            },
            _ => {},
        }
    }
}

pub proof fn lemma_part_irrefl(p: PartV)
    ensures
        !part_lt(p, p),
{
    match p {
        PartV::Verbatim(a) => lemma_bytes_irrefl(a),
        PartV::VerbatimUnc(a1, a2) => {
            lemma_bytes_irrefl(a1);
            lemma_bytes_irrefl(a2);
        },
        PartV::Unc(a1, a2) => {
            lemma_bytes_irrefl(a1);
            lemma_bytes_irrefl(a2);
        },
        PartV::Normal(a) => lemma_bytes_irrefl(a),
        _ => {},
    }
}

proof fn lemma_pair_bytes_trans(
    a1: Seq<u8>,
    a2: Seq<u8>,
    b1: Seq<u8>,
    b2: Seq<u8>,
    c1: Seq<u8>,
    c2: Seq<u8>,
)
    requires
        pair_bytes_lt(a1, a2, b1, b2),
        pair_bytes_lt(b1, b2, c1, c2),
    ensures
        pair_bytes_lt(a1, a2, c1, c2),
{
    if bytes_lt(a1, b1) {
        if bytes_lt(b1, c1) {
            lemma_bytes_trans(a1, b1, c1);
        }
    } else {
        if bytes_lt(b1, c1) {
        } else {
            lemma_bytes_trans(a2, b2, c2);
        }
    }
}

pub proof fn lemma_part_trans(p: PartV, q: PartV, r: PartV)
    requires
        part_lt(p, q),
        part_lt(q, r),
    ensures
        part_lt(p, r),
{
    if part_rank(p) == part_rank(q) && part_rank(q) == part_rank(r) {
        match (p, q, r) {
            (PartV::Verbatim(a), PartV::Verbatim(b), PartV::Verbatim(c)) => {
                lemma_bytes_trans(a, b, c);
            },
            (
                PartV::VerbatimUnc(a1, a2),
                PartV::VerbatimUnc(b1, b2),
                PartV::VerbatimUnc(c1, c2),
            ) => {
                lemma_pair_bytes_trans(a1, a2, b1, b2, c1, c2);
            },
            (PartV::Unc(a1, a2), PartV::Unc(b1, b2), PartV::Unc(c1, c2)) => {
                lemma_pair_bytes_trans(a1, a2, b1, b2, c1, c2);
            },
            (PartV::Normal(a), PartV::Normal(b), PartV::Normal(c)) => {
                lemma_bytes_trans(a, b, c);
            },
            _ => {},
        }
    }
}

/// Lexicographic strict order on component sequences.
pub open spec fn path_lt(a: Seq<PartV>, b: Seq<PartV>) -> bool
    decreases a.len() + b.len(),
{
    if b.len() == 0 {
        false
    } else if a.len() == 0 {
        true
    } else if part_lt(a[0], b[0]) {
        true
    } else if part_lt(b[0], a[0]) {
        false
    } else {
        path_lt(a.skip(1), b.skip(1))
    }
}

pub proof fn lemma_path_connex(a: Seq<PartV>, b: Seq<PartV>)
    ensures
        path_lt(a, b) || path_lt(b, a) || a == b,
    decreases a.len() + b.len(),
{
    if b.len() == 0 {
        if a.len() == 0 {
            assert(a =~= b);
        }
    } else if a.len() == 0 {
    } else if part_lt(a[0], b[0]) || part_lt(b[0], a[0]) {
    } else {
        lemma_part_connex(a[0], b[0]);
        lemma_path_connex(a.skip(1), b.skip(1));
        if a.skip(1) == b.skip(1) {
            assert(a.len() == a.skip(1).len() + 1);
            assert(b.len() == b.skip(1).len() + 1);
            assert forall|i: int| 0 <= i < a.len() implies a[i] == b[i] by {
                if i >= 1 {
                    assert(a[i] == a.skip(1)[i - 1]);
                    assert(b[i] == b.skip(1)[i - 1]);
                }
            }
            assert(a =~= b);
        }
    }
}

pub proof fn lemma_path_irrefl(a: Seq<PartV>)
    ensures
        !path_lt(a, a),
    decreases a.len(),
{
    if a.len() > 0 {
        lemma_part_irrefl(a[0]);
        lemma_path_irrefl(a.skip(1));
    }
}

pub proof fn lemma_path_trans(a: Seq<PartV>, b: Seq<PartV>, c: Seq<PartV>)
    requires
        path_lt(a, b),
        path_lt(b, c),
    ensures
        path_lt(a, c),
    decreases a.len() + b.len() + c.len(),
{
    if a.len() == 0 {
    } else if part_lt(a[0], b[0]) {
        if part_lt(b[0], c[0]) {
            lemma_part_trans(a[0], b[0], c[0]);
        } else {
            // heads of b and c are equal
            lemma_part_connex(b[0], c[0]);
        }
    } else {
        // heads of a and b are equal
        lemma_part_connex(a[0], b[0]);
        if part_lt(b[0], c[0]) {
        } else {
            lemma_part_connex(b[0], c[0]);
            lemma_path_trans(a.skip(1), b.skip(1), c.skip(1));
        }
    }
}

/// Copy a byte vector.
pub fn copy_bytes(a: &Vec<u8>) -> (r: Vec<u8>)
    ensures
        r@ == a@,
{
    let mut out: Vec<u8> = Vec::new();
    let mut i: usize = 0;
    while i < a.len()
        invariant
            0 <= i <= a.len(),
            out@ =~= a@.take(i as int),
        decreases a.len() - i,
    {
        out.push(a[i]);
        proof {
            assert(out@ =~= a@.take(i as int + 1));
        }
        i += 1;
    }
    proof {
        assert(a@.take(a@.len() as int) =~= a@);
    }
    out
}

/// Byte vector equality.
pub fn bytes_eq(a: &Vec<u8>, b: &Vec<u8>) -> (r: bool)
    ensures
        r == (a@ == b@),
{
    if a.len() != b.len() {
        return false;
    }
    let mut i: usize = 0;
    while i < a.len()
        invariant
            0 <= i <= a.len(),
            a@.len() == b@.len(),
            forall|k: int| 0 <= k < i ==> a@[k] == b@[k],
        decreases a.len() - i,
    {
        if a[i] != b[i] {
            return false;
        }
        i += 1;
    }
    proof {
        assert(a@ =~= b@);
    }
    true
}

/// Executable lexicographic comparison of byte vectors.
pub fn bytes_lt_exec(a: &Vec<u8>, b: &Vec<u8>) -> (r: bool)
    ensures
        r == bytes_lt(a@, b@),
{
    let mut i: usize = 0;
    proof {
        assert(a@.skip(0) =~= a@);
        assert(b@.skip(0) =~= b@);
    }
    loop
        invariant
            0 <= i <= a.len(),
            0 <= i <= b.len(),
            bytes_lt(a@, b@) == bytes_lt(a@.skip(i as int), b@.skip(i as int)),
        decreases a.len() - i,
    {
        if i >= b.len() {
            proof {
                assert(b@.skip(i as int) =~= Seq::<u8>::empty());
            }
            return false;
        }
        if i >= a.len() {
            proof {
                assert(a@.skip(i as int) =~= Seq::<u8>::empty());
                assert(b@.skip(i as int).len() > 0);
            }
            return true;
        }
        let x = a[i];
        let y = b[i];
        proof {
            assert(a@.skip(i as int)[0] == a@[i as int]);
            assert(b@.skip(i as int)[0] == b@[i as int]);
        }
        if x < y {
            return true;
        }
        if y < x {
            return false;
        }
        proof {
            assert(a@.skip(i as int).skip(1) =~= a@.skip(i as int + 1));
            assert(b@.skip(i as int).skip(1) =~= b@.skip(i as int + 1));
        }
        i += 1;
    }
}

impl Part {
    /// Duplicate a component, preserving its view.
    pub fn dup(&self) -> (r: Self)
        ensures
            r@ == self@,
    {
        match self {
            Part::Verbatim(a) => Part::Verbatim(copy_bytes(a)),
            Part::VerbatimUnc(a, b) => Part::VerbatimUnc(copy_bytes(a), copy_bytes(b)),
            Part::VerbatimDisk(c) => Part::VerbatimDisk(*c),
            Part::Unc(a, b) => Part::Unc(copy_bytes(a), copy_bytes(b)),
            Part::Disk(c) => Part::Disk(*c),
            Part::RootDir => Part::RootDir,
            Part::CurDir => Part::CurDir,
            Part::ParentDir => Part::ParentDir,
            Part::Normal(a) => Part::Normal(copy_bytes(a)),
        }
    }

    /// Rank of the component variant.
    pub fn rank(&self) -> (r: u8)
        ensures
            r as int == part_rank(self@),
    {
        match self {
            Part::Verbatim(_) => 0,
            Part::VerbatimUnc(_, _) => 1,
            Part::VerbatimDisk(_) => 2,
            Part::Unc(_, _) => 3,
            Part::Disk(_) => 4,
            Part::RootDir => 5,
            Part::CurDir => 6,
            Part::ParentDir => 7,
            Part::Normal(_) => 8,
        }
    }

    /// Executable component comparison.
    pub fn lt(&self, other: &Part) -> (r: bool)
        ensures
            r == part_lt(self@, other@),
    {
        match (self, other) {
            (Part::Verbatim(a), Part::Verbatim(b)) => bytes_lt_exec(a, b),
            (Part::VerbatimUnc(a1, a2), Part::VerbatimUnc(b1, b2)) => {
                if bytes_lt_exec(a1, b1) {
                    true
                } else if bytes_eq(a1, b1) {
                    bytes_lt_exec(a2, b2)
                } else {
                    false
                }
            },
            (Part::VerbatimDisk(a), Part::VerbatimDisk(b)) => *a < *b,
            (Part::Unc(a1, a2), Part::Unc(b1, b2)) => {
                if bytes_lt_exec(a1, b1) {
                    true
                } else if bytes_eq(a1, b1) {
                    bytes_lt_exec(a2, b2)
                } else {
                    false
                }
            },
            (Part::Disk(a), Part::Disk(b)) => *a < *b,
            (Part::Normal(a), Part::Normal(b)) => bytes_lt_exec(a, b),
            _ => self.rank() < other.rank(),
        }
    }

    /// Executable component equality.
    pub fn same(&self, other: &Part) -> (r: bool)
        ensures
            r == (self@ == other@),
    {
        match (self, other) {
            (Part::Verbatim(a), Part::Verbatim(b)) => bytes_eq(a, b),
            (Part::VerbatimUnc(a1, a2), Part::VerbatimUnc(b1, b2)) => {
                bytes_eq(a1, b1) && bytes_eq(a2, b2)
            },
            (Part::VerbatimDisk(a), Part::VerbatimDisk(b)) => *a == *b,
            (Part::Unc(a1, a2), Part::Unc(b1, b2)) => bytes_eq(a1, b1) && bytes_eq(a2, b2),
            (Part::Disk(a), Part::Disk(b)) => *a == *b,
            (Part::RootDir, Part::RootDir) => true,
            (Part::CurDir, Part::CurDir) => true,
            (Part::ParentDir, Part::ParentDir) => true,
            (Part::Normal(a), Part::Normal(b)) => bytes_eq(a, b),
            _ => {
                proof {
                    assert(part_rank(self@) != part_rank(other@));
                }
                false
            },
        }
    }
}

/// Copy a vector of components.
pub fn dup_parts(a: &Vec<Part>) -> (r: Vec<Part>)
    ensures
        views_of(r@) == views_of(a@),
{
    let mut out: Vec<Part> = Vec::new();
    let mut i: usize = 0;
    while i < a.len()
        invariant
            0 <= i <= a.len(),
            out@.len() == i,
            views_of(out@) =~= views_of(a@.take(i as int)),
        decreases a.len() - i,
    {
        let x = a[i].dup();
        let ghost prev = out@;
        out.push(x);
        proof {
            assert(out@ =~= prev.push(x));
            assert forall|k: int| 0 <= k < out@.len() implies views_of(out@)[k] == views_of(
                a@.take(i as int + 1),
            )[k] by {
                assert(views_of(out@)[k] == out@[k]@);
                if k < i {
                    assert(out@[k] == prev[k]);
                    assert(views_of(prev)[k] == views_of(a@.take(i as int))[k]);
                    assert(views_of(a@.take(i as int))[k] == a@.take(i as int)[k]@);
                    assert(a@.take(i as int)[k] == a@.take(i as int + 1)[k]);
                } else {
                    assert(out@[k] == x);
                    assert(a@.take(i as int + 1)[k] == a@[i as int]);
                }
            }
            assert(views_of(out@) =~= views_of(a@.take(i as int + 1)));
        }
        i += 1;
    }
    proof {
        assert(a@.take(a@.len() as int) =~= a@);
        assert(views_of(out@) =~= views_of(a@));
    }
    out
}

/// Executable path comparison on component vectors.
pub fn parts_lt_exec(a: &Vec<Part>, b: &Vec<Part>) -> (r: bool)
    ensures
        r == path_lt(views_of(a@), views_of(b@)),
{
    let ghost va = views_of(a@);
    let ghost vb = views_of(b@);
    let mut i: usize = 0;
    proof {
        assert(va.skip(0) =~= va);
        assert(vb.skip(0) =~= vb);
    }
    loop
        invariant
            0 <= i <= a.len(),
            0 <= i <= b.len(),
            va == views_of(a@),
            vb == views_of(b@),
            va.len() == a@.len(),
            vb.len() == b@.len(),
            path_lt(va, vb) == path_lt(va.skip(i as int), vb.skip(i as int)),
        decreases a.len() - i,
    {
        if i >= b.len() {
            proof {
                assert(vb.skip(i as int) =~= Seq::<PartV>::empty());
            }
            return false;
        }
        if i >= a.len() {
            proof {
                assert(va.skip(i as int) =~= Seq::<PartV>::empty());
                assert(vb.skip(i as int).len() > 0);
            }
            return true;
        }
        proof {
            assert(va.skip(i as int)[0] == va[i as int]);
            assert(vb.skip(i as int)[0] == vb[i as int]);
        }
        if a[i].lt(&b[i]) {
            return true;
        }
        if b[i].lt(&a[i]) {
            return false;
        }
        proof {
            assert(va.skip(i as int).skip(1) =~= va.skip(i as int + 1));
            assert(vb.skip(i as int).skip(1) =~= vb.skip(i as int + 1));
        }
        i += 1;
    }
}

/// Component separator: `/` or `\`.
pub open spec fn is_sep(c: u8) -> bool {
    c == 47 || c == 92
}

/// ASCII drive letter.
pub open spec fn is_drive_letter(c: u8) -> bool {
    (65 <= c && c <= 90) || (97 <= c && c <= 122)
}

/// Length of the leading run of non-separator bytes.
pub open spec fn seg_len(t: Seq<u8>) -> int
    decreases t.len(),
{
    if t.len() == 0 || is_sep(t[0]) {
        0
    } else {
        1 + seg_len(t.skip(1))
    }
}

pub proof fn lemma_seg_len_bounds(t: Seq<u8>)
    ensures
        0 <= seg_len(t) <= t.len(),
        t.len() > 0 && !is_sep(t[0]) ==> seg_len(t) >= 1,
    decreases t.len(),
{
    if t.len() > 0 && !is_sep(t[0]) {
        lemma_seg_len_bounds(t.skip(1));
    }
}

/// Components of the segment portion of a path (everything after prefix and
/// root).  `first` records whether a leading `.` component is kept.
pub open spec fn seg_parts(t: Seq<u8>, first: bool) -> Seq<PartV>
    decreases t.len(),
    via seg_parts_dec
{
    if t.len() == 0 {
        Seq::empty()
    } else if is_sep(t[0]) {
        seg_parts(t.skip(1), false)
    } else {
        let k = seg_len(t);
        let rest = seg_parts(t.skip(k), false);
        if k == 2 && t[0] == 46 && t[1] == 46 {
            seq![PartV::ParentDir] + rest
        } else if k == 1 && t[0] == 46 {
            if first {
                seq![PartV::CurDir] + rest
            } else {
                rest
            }
        } else {
            seq![PartV::Normal(t.take(k))] + rest
        }
    }
}

#[via_fn]
proof fn seg_parts_dec(t: Seq<u8>, first: bool) {
    lemma_seg_len_bounds(t);
}

/// `\\?\` introducer.
pub open spec fn has_verbatim_intro(s: Seq<u8>) -> bool {
    s.len() >= 4 && s[0] == 92 && s[1] == 92 && s[2] == 63 && s[3] == 92
}

/// `\\` network-share introducer (and not a verbatim one).
pub open spec fn has_unc_intro(s: Seq<u8>) -> bool {
    s.len() >= 2 && s[0] == 92 && s[1] == 92 && !has_verbatim_intro(s)
}

/// `C:` drive introducer.
pub open spec fn has_disk_prefix(s: Seq<u8>) -> bool {
    s.len() >= 2 && is_drive_letter(s[0]) && s[1] == 58
}

/// Server and share names of a network-share prefix, with the byte count
/// consumed from `r` (which starts right after the introducer).
pub open spec fn unc_tail(r: Seq<u8>) -> (Seq<u8>, Seq<u8>, int) {
    let k1 = seg_len(r);
    let server = r.take(k1);
    let r1 = r.skip(k1);
    if r1.len() > 0 {
        let r2 = r1.skip(1);
        let k2 = seg_len(r2);
        (server, r2.take(k2), k1 + 1 + k2)
    } else {
        (server, Seq::<u8>::empty(), k1)
    }
}

/// The leading prefix component of a byte path, if any, with the number of
/// bytes it occupies.
pub open spec fn parse_prefix(s: Seq<u8>) -> Option<(PartV, int)> {
    if has_verbatim_intro(s) {
        let r = s.skip(4);
        if r.len() >= 4 && r[0] == 85 && r[1] == 78 && r[2] == 67 && r[3] == 92 {
            let (server, share, n) = unc_tail(r.skip(4));
            Some((PartV::VerbatimUnc(server, share), 8 + n))
        } else if r.len() >= 2 && is_drive_letter(r[0]) && r[1] == 58 && (r.len() == 2 || is_sep(
            r[2],
        )) {
            Some((PartV::VerbatimDisk(r[0]), 6))
        } else {
            let k = seg_len(r);
            Some((PartV::Verbatim(r.take(k)), 4 + k))
        }
    } else if has_unc_intro(s) {
        let (server, share, n) = unc_tail(s.skip(2));
        Some((PartV::Unc(server, share), 2 + n))
    } else if has_disk_prefix(s) {
        Some((PartV::Disk(s[0]), 2))
    } else {
        None
    }
}

/// Full component sequence of a byte path.  Every prefix except a bare
/// drive (`C:`) carries an implicit root.
pub open spec fn parse_parts(s: Seq<u8>) -> Seq<PartV> {
    match parse_prefix(s) {
        Some((p, n)) => {
            let rest = s.skip(n);
            if !(p is Disk) || (rest.len() > 0 && is_sep(rest[0])) {
                seq![p, PartV::RootDir] + seg_parts(rest, false)
            } else {
                seq![p] + seg_parts(rest, false)
            }
        },
        None => {
            if s.len() > 0 && is_sep(s[0]) {
                seq![PartV::RootDir] + seg_parts(s, false)
            } else {
                seg_parts(s, true)
            }
        },
    }
}

pub fn is_sep_exec(c: u8) -> (r: bool)
    ensures
        r == is_sep(c),
{
    c == 47 || c == 92
}

fn is_drive_exec(c: u8) -> (r: bool)
    ensures
        r == is_drive_letter(c),
{
    (65 <= c && c <= 90) || (97 <= c && c <= 122)
}

proof fn lemma_seg_len_is(t: Seq<u8>, from: int, j: int)
    requires
        0 <= from <= j <= t.len(),
        forall|k: int| from <= k < j ==> !is_sep(#[trigger] t[k]),
        j == t.len() || is_sep(t[j]),
    ensures
        seg_len(t.skip(from)) == j - from,
    decreases j - from,
{
    let u = t.skip(from);
    if j == from {
        if from < t.len() {
            assert(u[0] == t[from]);
        }
    } else {
        assert(u[0] == t[from]);
        assert(!is_sep(u[0]));
        lemma_seg_len_is(t, from + 1, j);
        assert(u.skip(1) =~= t.skip(from + 1));
    }
}

/// Scan to the end of the segment starting at `from`.
fn scan_seg(s: &[u8], from: usize) -> (j: usize)
    requires
        from <= s@.len(),
    ensures
        from <= j <= s@.len(),
        j - from == seg_len(s@.skip(from as int)),
        forall|k: int| from <= k < j ==> !is_sep(#[trigger] s@[k]),
        j < s@.len() ==> is_sep(s@[j as int]),
{
    let mut j = from;
    while j < s.len() && !is_sep_exec(s[j])
        invariant
            from <= j <= s@.len(),
            forall|k: int| from <= k < j ==> !is_sep(#[trigger] s@[k]),
        decreases s@.len() - j,
    {
        j += 1;
    }
    proof {
        lemma_seg_len_is(s@, from as int, j as int);
    }
    j
}

/// Copy the byte range `[from, to)` out of a slice.
fn copy_range(s: &[u8], from: usize, to: usize) -> (r: Vec<u8>)
    requires
        from <= to <= s@.len(),
    ensures
        r@ == s@.subrange(from as int, to as int),
{
    let mut out: Vec<u8> = Vec::new();
    let mut i = from;
    while i < to
        invariant
            from <= i <= to,
            to <= s@.len(),
            out@ =~= s@.subrange(from as int, i as int),
        decreases to - i,
    {
        out.push(s[i]);
        proof {
            assert(out@ =~= s@.subrange(from as int, i as int + 1));
        }
        i += 1;
    }
    out
}

/// A lexical path: a sequence of components, plus the length class of the
/// text it was parsed from (the long-path threshold drives normalization).
#[derive(Debug)]
pub struct MPath {
    parts: Vec<Part>,
    long: bool,
}

impl View for MPath {
    type V = Seq<PartV>;

    closed spec fn view(&self) -> Seq<PartV> {
        views_of(self.parts@)
    }
}

impl MPath {
    /// Whether the path's source text was at or beyond the long-path
    /// threshold of 260 bytes.
    pub closed spec fn is_long(&self) -> bool {
        self.long
    }

    /// Scan the `server(\share)?` tail of a network-share prefix starting at
    /// `start`; returns the server name, the share name and the absolute end
    /// position.
    fn scan_unc_tail(s: &[u8], start: usize) -> (r: (Vec<u8>, Vec<u8>, usize))
        requires
            start <= s@.len(),
        ensures
            start <= r.2 <= s@.len(),
            unc_tail(s@.skip(start as int)).0 == r.0@,
            unc_tail(s@.skip(start as int)).1 == r.1@,
            unc_tail(s@.skip(start as int)).2 == r.2 - start,
    {
        let j1 = scan_seg(s, start);
        let server = copy_range(s, start, j1);
        if j1 < s.len() {
            let j2 = scan_seg(s, j1 + 1);
            let share = copy_range(s, j1 + 1, j2);
            proof {
                let u = s@.skip(start as int);
                assert(seg_len(u) == j1 - start);
                assert(server@ =~= u.take(seg_len(u)));
                let r1 = u.skip(seg_len(u));
                assert(r1 =~= s@.skip(j1 as int));
                assert(r1.len() > 0);
                let r2 = r1.skip(1);
                assert(r2 =~= s@.skip(j1 as int + 1));
                assert(seg_len(r2) == j2 - (j1 + 1));
                assert(share@ =~= r2.take(seg_len(r2)));
            }
            (server, share, j2)
        } else {
            proof {
                let u = s@.skip(start as int);
                assert(seg_len(u) == j1 - start);
                assert(server@ =~= u.take(seg_len(u)));
                let r1 = u.skip(seg_len(u));
                assert(r1 =~= s@.skip(j1 as int));
                assert(r1.len() == 0);
            }
            (server, Vec::new(), j1)
        }
    }

    /// Parse a byte string into a path.
    pub fn parse(s: &[u8]) -> (r: MPath)
        ensures
            r@ == parse_parts(s@),
            r.is_long() == (s@.len() >= 260),
    {
        let long = s.len() >= 260;
        let mut parts: Vec<Part> = Vec::new();
        let mut i: usize = 0;
        let mut first = true;
        let mut root_done = false;
        let ghost mut pre: Option<PartV> = None;

        if s.len() >= 4 && s[0] == 92 && s[1] == 92 && s[2] == 63 && s[3] == 92 {
            proof {
                assert(has_verbatim_intro(s@));
            }
            if s.len() >= 8 && s[4] == 85 && s[5] == 78 && s[6] == 67 && s[7] == 92 {
                let t = Self::scan_unc_tail(s, 8);
                let end = t.2;
                let ghost pv = PartV::VerbatimUnc(t.0@, t.1@);
                proof {
                    let r0 = s@.skip(4);
                    assert(r0.len() >= 4);
                    assert(r0[0] == s@[4] && r0[1] == s@[5] && r0[2] == s@[6] && r0[3] == s@[7]);
                    assert(r0.skip(4) =~= s@.skip(8));
                    assert(parse_prefix(s@) == Some((pv, end as int)));
                    pre = Some(pv);
                }
                parts.push(Part::VerbatimUnc(t.0, t.1));
                parts.push(Part::RootDir);
                i = end;
                first = false;
                root_done = true;
                proof {
                    assert(views_of(parts@) =~= seq![pv, PartV::RootDir]);
                }
            } else if s.len() >= 6 && is_drive_exec(s[4]) && s[5] == 58 && (s.len() == 6
                || is_sep_exec(s[6])) {
                let ghost pv = PartV::VerbatimDisk(s@[4]);
                proof {
                    let r0 = s@.skip(4);
                    assert(r0[0] == s@[4] && r0[1] == s@[5]);
                    if s@.len() > 6 {
                        assert(r0[2] == s@[6]);
                    }
                    if s@.len() >= 8 {
                        assert(r0[3] == s@[7]);
                    }
                    assert(parse_prefix(s@) == Some((pv, 6int)));
                    pre = Some(pv);
                }
                parts.push(Part::VerbatimDisk(s[4]));
                parts.push(Part::RootDir);
                i = 6;
                first = false;
                root_done = true;
                proof {
                    assert(views_of(parts@) =~= seq![pv, PartV::RootDir]);
                }
            } else {
                let j = scan_seg(s, 4);
                let name = copy_range(s, 4, j);
                let ghost pv = PartV::Verbatim(name@);
                proof {
                    let r0 = s@.skip(4);
                    if s@.len() >= 8 {
                        assert(r0[0] == s@[4] && r0[1] == s@[5]);
                        assert(r0[2] == s@[6] && r0[3] == s@[7]);
                    }
                    if s@.len() >= 6 {
                        assert(r0[0] == s@[4] && r0[1] == s@[5]);
                    }
                    if s@.len() > 6 {
                        assert(r0[2] == s@[6]);
                    }
                    assert(seg_len(r0) == j - 4);
                    assert(name@ =~= r0.take(seg_len(r0)));
                    assert(parse_prefix(s@) == Some((pv, j as int)));
                    pre = Some(pv);
                }
                parts.push(Part::Verbatim(name));
                parts.push(Part::RootDir);
                i = j;
                first = false;
                root_done = true;
                proof {
                    assert(views_of(parts@) =~= seq![pv, PartV::RootDir]);
                }
            }
        } else if s.len() >= 2 && s[0] == 92 && s[1] == 92 {
            let t = Self::scan_unc_tail(s, 2);
            let end = t.2;
            let ghost pv = PartV::Unc(t.0@, t.1@);
            proof {
                assert(has_unc_intro(s@));
                assert(parse_prefix(s@) == Some((pv, end as int)));
                pre = Some(pv);
            }
            parts.push(Part::Unc(t.0, t.1));
            parts.push(Part::RootDir);
            i = end;
            first = false;
            root_done = true;
            proof {
                assert(views_of(parts@) =~= seq![pv, PartV::RootDir]);
            }
        } else if s.len() >= 2 && is_drive_exec(s[0]) && s[1] == 58 {
            let ghost pv = PartV::Disk(s@[0]);
            proof {
                assert(parse_prefix(s@) == Some((pv, 2int)));
                pre = Some(pv);
            }
            parts.push(Part::Disk(s[0]));
            i = 2;
            first = false;
            proof {
                assert(views_of(parts@) =~= seq![pv]);
            }
        } else {
            proof {
                assert(parse_prefix(s@) is None);
            }
        }

        if !root_done && i < s.len() && is_sep_exec(s[i]) {
            proof {
                assert(s@.skip(i as int)[0] == s@[i as int]);
            }
            let ghost before_root = views_of(parts@);
            parts.push(Part::RootDir);
            first = false;
            proof {
                assert(views_of(parts@) =~= before_root.push(PartV::RootDir));
            }
        }

        proof {
            let rest = s@.skip(i as int);
            if i < s@.len() {
                assert(rest[0] == s@[i as int]);
            }
            match pre {
                Some(pv) => {
                    if !(pv is Disk) || (rest.len() > 0 && is_sep(rest[0])) {
                        assert(views_of(parts@) =~= seq![pv].push(PartV::RootDir));
                        assert(seq![pv, PartV::RootDir] =~= seq![pv].push(PartV::RootDir));
                        assert(parse_parts(s@) == seq![pv, PartV::RootDir] + seg_parts(
                            rest,
                            false,
                        ));
                    } else {
                        assert(views_of(parts@) =~= seq![pv]);
                        assert(parse_parts(s@) == seq![pv] + seg_parts(rest, false));
                    }
                },
                None => {
                    assert(i == 0);
                    assert(rest =~= s@);
                    if s@.len() > 0 && is_sep(s@[0]) {
                        assert(views_of(parts@) =~= seq![PartV::RootDir]);
                        assert(parse_parts(s@) == seq![PartV::RootDir] + seg_parts(s@, false));
                    } else {
                        assert(views_of(parts@) =~= Seq::<PartV>::empty());
                        assert(parse_parts(s@) == seg_parts(s@, true));
                        assert(Seq::<PartV>::empty() + seg_parts(s@, true) =~= seg_parts(
                            s@,
                            true,
                        ));
                    }
                },
            }
            assert(parse_parts(s@) =~= views_of(parts@) + seg_parts(s@.skip(i as int), first));
        }

        while i < s.len()
            invariant
                0 <= i <= s@.len(),
                parse_parts(s@) == views_of(parts@) + seg_parts(s@.skip(i as int), first),
            decreases s@.len() - i,
        {
            let ghost t = s@.skip(i as int);
            proof {
                assert(t[0] == s@[i as int]);
            }
            if is_sep_exec(s[i]) {
                proof {
                    assert(t.skip(1) =~= s@.skip(i as int + 1));
                    assert(seg_parts(t, first) == seg_parts(s@.skip(i as int + 1), false));
                }
                first = false;
                i += 1;
            } else {
                let j = scan_seg(s, i);
                proof {
                    assert(seg_len(t) == j - i);
                    assert(t.skip(j - i) =~= s@.skip(j as int));
                    assert(t.take(j - i) =~= s@.subrange(i as int, j as int));
                    if j - i >= 2 {
                        assert(t[1] == s@[i as int + 1]);
                    }
                }
                let ghost oldviews = views_of(parts@);
                if j - i == 2 && s[i] == 46 && s[i + 1] == 46 {
                    parts.push(Part::ParentDir);
                    proof {
                        assert(views_of(parts@) =~= oldviews.push(PartV::ParentDir));
                        assert(seg_parts(t, first) =~= seq![PartV::ParentDir] + seg_parts(
                            s@.skip(j as int),
                            false,
                        ));
                        assert(oldviews.push(PartV::ParentDir) + seg_parts(s@.skip(j as int), false)
                            =~= oldviews + seg_parts(t, first));
                    }
                } else if j - i == 1 && s[i] == 46 {
                    if first {
                        parts.push(Part::CurDir);
                        proof {
                            assert(views_of(parts@) =~= oldviews.push(PartV::CurDir));
                            assert(seg_parts(t, first) =~= seq![PartV::CurDir] + seg_parts(
                                s@.skip(j as int),
                                false,
                            ));
                            assert(oldviews.push(PartV::CurDir) + seg_parts(
                                s@.skip(j as int),
                                false,
                            ) =~= oldviews + seg_parts(t, first));
                        }
                    } else {
                        proof {
                            assert(seg_parts(t, first) == seg_parts(s@.skip(j as int), false));
                        }
                    }
                } else {
                    let name = copy_range(s, i, j);
                    proof {
                        assert(name@ == t.take(seg_len(t)));
                    }
                    parts.push(Part::Normal(name));
                    proof {
                        assert(views_of(parts@) =~= oldviews.push(PartV::Normal(t.take(seg_len(
                            t,
                        )))));
                        assert(seg_parts(t, first) =~= seq![PartV::Normal(t.take(seg_len(t)))]
                            + seg_parts(s@.skip(j as int), false));
                        assert(oldviews.push(PartV::Normal(t.take(seg_len(t)))) + seg_parts(
                            s@.skip(j as int),
                            false,
                        ) =~= oldviews + seg_parts(t, first));
                    }
                }
                first = false;
                i = j;
            }
        }
        proof {
            assert(s@.skip(s@.len() as int) =~= Seq::<u8>::empty());
            assert(parse_parts(s@) =~= views_of(parts@));
        }
        MPath { parts, long }
    }
}

/// One normalization step: fold the next component into the accumulator.
/// `.` components disappear; `..` pops a trailing named component, is dropped
/// right after a root or prefix, and is kept otherwise.
pub open spec fn collapse_step(acc: Seq<PartV>, c: PartV) -> Seq<PartV> {
    match c {
        PartV::CurDir => acc,
        PartV::ParentDir => {
            if acc.len() > 0 && (is_prefix_part(acc.last()) || acc.last() is RootDir) {
                acc
            } else if acc.len() > 0 && acc.last() is Normal {
                acc.drop_last()
            } else {
                acc.push(PartV::ParentDir)
            }
        },
        _ => acc.push(c),
    }
}

pub open spec fn collapse_acc(acc: Seq<PartV>, rest: Seq<PartV>) -> Seq<PartV>
    decreases rest.len(),
{
    if rest.len() == 0 {
        acc
    } else {
        collapse_acc(collapse_step(acc, rest[0]), rest.skip(1))
    }
}

/// Rewrite a leading drive or share prefix into its verbatim long-path form.
pub open spec fn rewrite_first(ps: Seq<PartV>) -> Seq<PartV> {
    if ps.len() > 0 {
        match ps[0] {
            PartV::Disk(l) => ps.update(0, PartV::VerbatimDisk(l)),
            PartV::Unc(a, b) => ps.update(0, PartV::VerbatimUnc(a, b)),
            _ => ps,
        }
    } else {
        ps
    }
}

/// The normalized form of a component sequence.  `long` asks for the
/// long-path prefix rewrite first; an empty result becomes `.`.
pub open spec fn norm_parts(ps: Seq<PartV>, long: bool) -> Seq<PartV> {
    let ps2 = if long {
        rewrite_first(ps)
    } else {
        ps
    };
    let c = collapse_acc(Seq::<PartV>::empty(), ps2);
    if c.len() == 0 {
        seq![PartV::CurDir]
    } else {
        c
    }
}

/// Shape of collapse output: no `.` components, and `..` components only in
/// a leading run.
pub open spec fn normal_form(s: Seq<PartV>) -> bool {
    (forall|i: int| 0 <= i < s.len() ==> !(#[trigger] s[i] is CurDir)) && (forall|i: int|
        0 <= i < s.len() && #[trigger] s[i] is ParentDir ==> i == 0 || s[i - 1] is ParentDir)
}

proof fn lemma_step_nf(acc: Seq<PartV>, c: PartV)
    requires
        normal_form(acc),
    ensures
        normal_form(collapse_step(acc, c)),
{
    let r = collapse_step(acc, c);
    match c {
        PartV::CurDir => {},
        PartV::ParentDir => {
            if acc.len() > 0 && (is_prefix_part(acc.last()) || acc.last() is RootDir) {
            } else if acc.len() > 0 && acc.last() is Normal {
                assert forall|i: int| 0 <= i < r.len() implies !(#[trigger] r[i] is CurDir) by {
                    assert(r[i] == acc[i]);
                }
                assert forall|i: int|
                    0 <= i < r.len() && #[trigger] r[i] is ParentDir implies i == 0 || r[i - 1]
                    is ParentDir by {
                    assert(r[i] == acc[i]);
                    if i > 0 {
                        assert(r[i - 1] == acc[i - 1]);
                    }
                }
            } else {
                // pushed: the previous last, if any, is a `..`
                if acc.len() > 0 {
                    assert(!(acc.last() is CurDir));
                    assert(acc.last() is ParentDir);
                }
            }
        },
        _ => {},
    }
}

proof fn lemma_collapse_nf(acc: Seq<PartV>, rest: Seq<PartV>)
    requires
        normal_form(acc),
    ensures
        normal_form(collapse_acc(acc, rest)),
    decreases rest.len(),
{
    if rest.len() > 0 {
        lemma_step_nf(acc, rest[0]);
        lemma_collapse_nf(collapse_step(acc, rest[0]), rest.skip(1));
    }
}

proof fn lemma_collapse_of_nf(s: Seq<PartV>, i: int)
    requires
        normal_form(s),
        0 <= i <= s.len(),
    ensures
        collapse_acc(s.take(i), s.skip(i)) == s,
    decreases s.len() - i,
{
    if i == s.len() {
        assert(s.skip(i).len() == 0);
        assert(s.take(i) =~= s);
    } else {
        let c = s[i];
        let acc = s.take(i);
        assert(s.skip(i)[0] == c);
        assert(!(c is CurDir));
        let acc2 = collapse_step(acc, c);
        if c is ParentDir {
            assert(i == 0 || s[i - 1] is ParentDir);
            if i == 0 {
                assert(acc.len() == 0);
                assert(acc2 =~= s.take(i + 1));
            } else {
                assert(acc.last() == s[i - 1]);
                assert(acc.last() is ParentDir);
                assert(acc2 =~= s.take(i + 1));
            }
        } else {
            assert(acc2 =~= s.take(i + 1));
        }
        lemma_collapse_of_nf(s, i + 1);
        assert(s.skip(i).skip(1) =~= s.skip(i + 1));
    }
}

/// Normalization is idempotent: normalizing a normalized path changes
/// nothing.  (A normalized path is no longer subject to the long-path
/// rewrite.)
pub proof fn lemma_norm_idempotent(ps: Seq<PartV>, long: bool)
    ensures
        norm_parts(norm_parts(ps, long), false) == norm_parts(ps, long),
{
    let ps2 = if long {
        rewrite_first(ps)
    } else {
        ps
    };
    let c = collapse_acc(Seq::<PartV>::empty(), ps2);
    lemma_collapse_nf(Seq::<PartV>::empty(), ps2);
    if c.len() == 0 {
        let n = seq![PartV::CurDir];
        assert(n[0] == PartV::CurDir);
        assert(collapse_step(Seq::<PartV>::empty(), PartV::CurDir) == Seq::<PartV>::empty());
        assert(n.skip(1) =~= Seq::<PartV>::empty());
        assert(collapse_acc(Seq::<PartV>::empty(), Seq::<PartV>::empty()) == Seq::<
            PartV,
        >::empty());
        assert(collapse_acc(Seq::<PartV>::empty(), n) == collapse_acc(
            collapse_step(Seq::<PartV>::empty(), n[0]),
            n.skip(1),
        ));
        assert(collapse_acc(Seq::<PartV>::empty(), n).len() == 0);
    } else {
        lemma_collapse_of_nf(c, 0);
        assert(c.take(0) =~= Seq::<PartV>::empty());
        assert(c.skip(0) =~= c);
    }
}

/// A path is sandboxed when its normalized form starts with the current
/// directory or an ordinary named component.
pub open spec fn is_sandboxed_parts(ps: Seq<PartV>, long: bool) -> bool {
    let n = norm_parts(ps, long);
    n.len() > 0 && (n[0] is CurDir || n[0] is Normal)
}

/// Sandboxing law: a path is sandboxed exactly when the first component of
/// its normalized form is neither a parent-directory escape nor a root,
/// drive or share prefix.
pub proof fn lemma_sandboxed_iff(ps: Seq<PartV>, long: bool)
    ensures
        is_sandboxed_parts(ps, long) <==> {
            let n = norm_parts(ps, long);
            !(n[0] is ParentDir) && !(n[0] is RootDir) && !is_prefix_part(n[0])
        },
{
    let n = norm_parts(ps, long);
    assert(n.len() > 0);
}

/// Path methods: normalization and the predicates built on it.
pub trait PathExt: View<V = Seq<PartV>> + Sized {
    /// Whether the long-path rewrite applies during normalization.
    spec fn long_flag(&self) -> bool;

    /// Normalized copy of the path.  Purely lexical.
    fn norm(&self) -> (r: MPath)
        ensures
            r@ == norm_parts(self@, self.long_flag()),
            !r.is_long(),
    ;

    /// Whether the path stays inside the current directory.
    fn is_sandboxed(&self) -> (r: bool)
        ensures
            r == is_sandboxed_parts(self@, self.long_flag()),
    ;

    /// The parent, when both the last component and the one before it are
    /// ordinary named components; `None` keeps deletion logic away from
    /// roots and prefixes.
    fn removable_parent(&self) -> (r: Option<MPath>)
        ensures
            (r is Some) == (self@.len() >= 2 && self@[self@.len() - 1] is Normal
                && self@[self@.len() - 2] is Normal),
            r matches Some(p) ==> p@ == self@.drop_last(),
    ;

    /// Whether the path has no components at all.
    fn is_empty(&self) -> (r: bool)
        ensures
            r == (self@.len() == 0),
    ;
}

impl MPath {
    /// The path without its last component; `None` for an empty path.
    pub fn parent(&self) -> (r: Option<MPath>)
        ensures
            (r is Some) == (self@.len() > 0),
            r matches Some(p) ==> p@ == self@.drop_last(),
    {
        if self.parts.len() == 0 {
            return None;
        }
        let mut ps: Vec<Part> = Vec::new();
        let n = self.parts.len() - 1;
        let mut i: usize = 0;
        while i < n
            invariant
                0 <= i <= n,
                n == self.parts@.len() - 1,
                views_of(ps@) =~= views_of(self.parts@).take(i as int),
                ps@.len() == i,
            decreases n - i,
        {
            let x = self.parts[i].dup();
            let ghost prev = views_of(ps@);
            ps.push(x);
            proof {
                crate::order::lemma_views_push(ps@.drop_last(), ps@.last());
                assert(ps@.drop_last().push(ps@.last()) =~= ps@);
                assert(views_of(ps@) =~= prev.push(x@));
                assert(views_of(ps@) =~= views_of(self.parts@).take(i as int + 1));
            }
            i += 1;
        }
        proof {
            assert(views_of(self.parts@).take(n as int) =~= self@.drop_last());
        }
        Some(MPath { parts: ps, long: false })
    }
}

impl PathExt for MPath {
    open spec fn long_flag(&self) -> bool {
        self.is_long()
    }

    fn norm(&self) -> (r: MPath) {
        let mut work = dup_parts(&self.parts);
        if self.long && work.len() > 0 {
            let replace: Option<Part> = match &work[0] {
                Part::Disk(l) => Some(Part::VerbatimDisk(*l)),
                Part::Unc(a, b) => Some(Part::VerbatimUnc(copy_bytes(a), copy_bytes(b))),
                _ => None,
            };
            let ghost oldwork = views_of(work@);
            if let Some(p) = replace {
                let ghost pv = p@;
                work.set(0, p);
                proof {
                    assert(views_of(work@) =~= oldwork.update(0, pv));
                    assert(views_of(work@) =~= rewrite_first(oldwork));
                }
            } else {
                proof {
                    assert(views_of(work@) =~= rewrite_first(oldwork));
                }
            }
        } else {
            proof {
                if self.long {
                    assert(views_of(work@) =~= rewrite_first(views_of(work@)));
                }
            }
        }
        let ghost ps2 = views_of(work@);
        proof {
            if self.long {
                assert(ps2 == rewrite_first(self@));
            } else {
                assert(ps2 == self@);
            }
        }

        let mut out: Vec<Part> = Vec::new();
        let mut i: usize = 0;
        proof {
            assert(ps2.skip(0) =~= ps2);
            assert(views_of(out@) =~= Seq::<PartV>::empty());
        }
        while i < work.len()
            invariant
                0 <= i <= work@.len(),
                ps2 == views_of(work@),
                collapse_acc(views_of(out@), ps2.skip(i as int)) == collapse_acc(
                    Seq::<PartV>::empty(),
                    ps2,
                ),
            decreases work@.len() - i,
        {
            let ghost c = ps2[i as int];
            let ghost oldacc = views_of(out@);
            proof {
                assert(ps2.skip(i as int)[0] == c);
                assert(ps2.skip(i as int).skip(1) =~= ps2.skip(i as int + 1));
            }
            let kind = work[i].rank();
            if kind == 6 {
                // `.`: dropped
                proof {
                    assert(collapse_step(oldacc, c) == oldacc);
                }
            } else if kind == 7 {
                // `..`
                let act: u8 = if out.len() == 0 {
                    2
                } else {
                    let last = out.len() - 1;
                    let r = out[last].rank();
                    if r <= 5 {
                        0
                    } else if r == 8 {
                        1
                    } else {
                        2
                    }
                };
                if act == 0 {
                    proof {
                        assert(is_prefix_part(oldacc.last()) || oldacc.last() is RootDir);
                        assert(collapse_step(oldacc, c) == oldacc);
                    }
                } else if act == 1 {
                    out.pop();
                    proof {
                        assert(oldacc.last() is Normal);
                        assert(views_of(out@) =~= oldacc.drop_last());
                        assert(collapse_step(oldacc, c) == oldacc.drop_last());
                    }
                } else {
                    out.push(Part::ParentDir);
                    proof {
                        assert(views_of(out@) =~= oldacc.push(PartV::ParentDir));
                        assert(collapse_step(oldacc, c) == oldacc.push(PartV::ParentDir));
                    }
                }
            } else {
                let x = work[i].dup();
                out.push(x);
                proof {
                    assert(views_of(out@) =~= oldacc.push(c));
                    assert(!(c is CurDir) && !(c is ParentDir));
                    assert(collapse_step(oldacc, c) == oldacc.push(c));
                }
            }
            i += 1;
        }
        proof {
            assert(ps2.skip(ps2.len() as int) =~= Seq::<PartV>::empty());
            assert(views_of(out@) == collapse_acc(Seq::<PartV>::empty(), ps2));
        }
        if out.len() == 0 {
            out.push(Part::CurDir);
            proof {
                assert(views_of(out@) =~= Seq::<PartV>::empty().push(PartV::CurDir));
                assert(views_of(out@) =~= seq![PartV::CurDir]);
            }
        }
        MPath { parts: out, long: false }
    }

    fn is_sandboxed(&self) -> (r: bool) {
        let n = self.norm();
        let first = n.parts[0].rank();
        proof {
            assert(n@.len() > 0);
            assert(n@[0] == n.parts@[0]@);
            assert(part_rank(n@[0]) == 6 <==> n@[0] is CurDir);
            assert(part_rank(n@[0]) == 8 <==> n@[0] is Normal);
        }
        first == 6 || first == 8
    }

    fn removable_parent(&self) -> (r: Option<MPath>) {
        let n = self.parts.len();
        if n < 2 {
            return None;
        }
        let last_named = match &self.parts[n - 1] {
            Part::Normal(_) => true,
            _ => false,
        };
        let prev_named = match &self.parts[n - 2] {
            Part::Normal(_) => true,
            _ => false,
        };
        proof {
            assert(self@[n - 1] == self.parts@[n - 1]@);
            assert(self@[n - 2] == self.parts@[n - 2]@);
        }
        if last_named && prev_named {
            self.parent()
        } else {
            None
        }
    }

    fn is_empty(&self) -> (r: bool) {
        self.parts.len() == 0
    }
}

impl Ordered for MPath {
    open spec fn lt_v(a: Seq<PartV>, b: Seq<PartV>) -> bool {
        path_lt(a, b)
    }

    fn lt(&self, other: &Self) -> (r: bool) {
        let r = parts_lt_exec(&self.parts, &other.parts);
        proof {
            assert(self@ == views_of(self.parts@));
            assert(other@ == views_of(other.parts@));
            assert(<MPath as Ordered>::lt_v(self@, other@) == path_lt(self@, other@));
        }
        r
    }

    fn dup(&self) -> (r: Self) {
        MPath { parts: dup_parts(&self.parts), long: self.long }
    }

    proof fn lemma_connex(a: Seq<PartV>, b: Seq<PartV>) {
        lemma_path_connex(a, b);
    }

    proof fn lemma_irrefl(a: Seq<PartV>) {
        lemma_path_irrefl(a);
    }

    proof fn lemma_trans(a: Seq<PartV>, b: Seq<PartV>, c: Seq<PartV>) {
        lemma_path_trans(a, b, c);
    }
}

impl PartialEq for MPath {
    fn eq(&self, other: &Self) -> (r: bool) {
        proof {
            assert(self@.len() == self.parts@.len());
            assert(other@.len() == other.parts@.len());
        }
        if self.parts.len() != other.parts.len() {
            return false;
        }
        let mut i: usize = 0;
        while i < self.parts.len()
            invariant
                0 <= i <= self.parts@.len(),
                self.parts@.len() == other.parts@.len(),
                forall|k: int| 0 <= k < i ==> #[trigger] self.parts@[k]@ == other.parts@[k]@,
            decreases self.parts@.len() - i,
        {
            if !self.parts[i].same(&other.parts[i]) {
                proof {
                    assert(self@[i as int] == self.parts@[i as int]@);
                    assert(other@[i as int] == other.parts@[i as int]@);
                    assert(self@[i as int] != other@[i as int]);
                }
                return false;
            }
            i += 1;
        }
        proof {
            assert(self@ =~= other@);
        }
        true
    }
}

impl vstd::std_specs::cmp::PartialEqSpecImpl for MPath {
    open spec fn obeys_eq_spec() -> bool {
        true
    }

    open spec fn eq_spec(&self, other: &Self) -> bool {
        self@ == other@
    }
}

/// Byte rendering of a single component (without separators).
pub open spec fn render_part(p: PartV) -> Seq<u8> {
    match p {
        PartV::Verbatim(x) => seq![92u8, 92u8, 63u8, 92u8] + x,
        PartV::VerbatimUnc(s, h) => seq![92u8, 92u8, 63u8, 92u8, 85u8, 78u8, 67u8, 92u8] + s
            + seq![92u8] + h,
        PartV::VerbatimDisk(l) => seq![92u8, 92u8, 63u8, 92u8, l, 58u8],
        PartV::Unc(s, h) => seq![92u8, 92u8] + s + seq![92u8] + h,
        PartV::Disk(l) => seq![l, 58u8],
        PartV::RootDir => Seq::<u8>::empty(),
        PartV::CurDir => seq![46u8],
        PartV::ParentDir => seq![46u8, 46u8],
        PartV::Normal(x) => x,
    }
}

/// Rendering of a run of ordinary components, `/`-separated.
pub open spec fn render_comps(ps: Seq<PartV>) -> Seq<u8>
    decreases ps.len(),
{
    if ps.len() == 0 {
        Seq::<u8>::empty()
    } else if ps.len() == 1 {
        render_part(ps[0])
    } else {
        render_part(ps[0]) + seq![47u8] + render_comps(ps.skip(1))
    }
}

/// Byte rendering of a whole component sequence.
pub open spec fn render_parts(ps: Seq<PartV>) -> Seq<u8> {
    if ps.len() == 0 {
        Seq::<u8>::empty()
    } else if ps[0] is RootDir {
        seq![47u8] + render_comps(ps.skip(1))
    } else if is_prefix_part(ps[0]) {
        if ps.len() >= 2 && ps[1] is RootDir {
            render_part(ps[0]) + seq![92u8] + render_comps(ps.skip(2))
        } else {
            render_part(ps[0]) + render_comps(ps.skip(1))
        }
    } else {
        render_comps(ps)
    }
}

/// Append the bytes of `b` to `dst`.
fn push_byte_vec(dst: &mut Vec<u8>, b: &Vec<u8>)
    ensures
        final(dst)@ == old(dst)@ + b@,
{
    let mut i: usize = 0;
    while i < b.len()
        invariant
            0 <= i <= b@.len(),
            dst@ =~= old(dst)@ + b@.take(i as int),
        decreases b@.len() - i,
    {
        dst.push(b[i]);
        proof {
            assert(dst@ =~= old(dst)@ + b@.take(i as int + 1));
        }
        i += 1;
    }
    proof {
        assert(b@.take(b@.len() as int) =~= b@);
        assert(dst@ =~= old(dst)@ + b@);
    }
}

/// Append the rendering of one component to `dst`.
fn push_part_bytes(dst: &mut Vec<u8>, p: &Part)
    ensures
        final(dst)@ == old(dst)@ + render_part(p@),
{
    match p {
        Part::Verbatim(x) => {
            dst.push(92);
            dst.push(92);
            dst.push(63);
            dst.push(92);
            let ghost mid = dst@;
            push_byte_vec(dst, x);
            proof {
                assert(mid =~= old(dst)@ + seq![92u8, 92u8, 63u8, 92u8]);
                assert(dst@ =~= old(dst)@ + (seq![92u8, 92u8, 63u8, 92u8] + x@));
            }
        },
        Part::VerbatimUnc(s, h) => {
            dst.push(92);
            dst.push(92);
            dst.push(63);
            dst.push(92);
            dst.push(85);
            dst.push(78);
            dst.push(67);
            dst.push(92);
            push_byte_vec(dst, s);
            dst.push(92);
            let ghost mid = dst@;
            push_byte_vec(dst, h);
            proof {
                assert(mid =~= old(dst)@ + seq![92u8, 92u8, 63u8, 92u8, 85u8, 78u8, 67u8, 92u8]
                    + s@ + seq![92u8]);
                assert(dst@ =~= old(dst)@ + (seq![92u8, 92u8, 63u8, 92u8, 85u8, 78u8, 67u8, 92u8]
                    + s@ + seq![92u8] + h@));
            }
        },
        Part::VerbatimDisk(l) => {
            dst.push(92);
            dst.push(92);
            dst.push(63);
            dst.push(92);
            dst.push(*l);
            dst.push(58);
            proof {
                assert(dst@ =~= old(dst)@ + seq![92u8, 92u8, 63u8, 92u8, *l, 58u8]);
            }
        },
        Part::Unc(s, h) => {
            dst.push(92);
            dst.push(92);
            push_byte_vec(dst, s);
            dst.push(92);
            let ghost mid = dst@;
            push_byte_vec(dst, h);
            proof {
                assert(mid =~= old(dst)@ + seq![92u8, 92u8] + s@ + seq![92u8]);
                assert(dst@ =~= old(dst)@ + (seq![92u8, 92u8] + s@ + seq![92u8] + h@));
            }
        },
        Part::Disk(l) => {
            dst.push(*l);
            dst.push(58);
            proof {
                assert(dst@ =~= old(dst)@ + seq![*l, 58u8]);
            }
        },
        Part::RootDir => {
            proof {
                assert(dst@ =~= old(dst)@ + Seq::<u8>::empty());
            }
        },
        Part::CurDir => {
            dst.push(46);
            proof {
                assert(dst@ =~= old(dst)@ + seq![46u8]);
            }
        },
        Part::ParentDir => {
            dst.push(46);
            dst.push(46);
            proof {
                assert(dst@ =~= old(dst)@ + seq![46u8, 46u8]);
            }
        },
        Part::Normal(x) => {
            push_byte_vec(dst, x);
        },
    }
}

/// Separator-joined rendering of the components of `ps` starting at `from`,
/// preceded by a separator unless `lead` is set.
spec fn comps_rest(t: Seq<PartV>, lead: bool) -> Seq<u8> {
    if t.len() == 0 {
        Seq::<u8>::empty()
    } else if lead {
        render_comps(t)
    } else {
        seq![47u8] + render_comps(t)
    }
}

impl MPath {
    /// Render the path as bytes: prefixes in their introducer syntax, other
    /// components joined with `/`.
    pub fn render(&self) -> (r: Vec<u8>)
        ensures
            r@ == render_parts(self@),
    {
        let mut out: Vec<u8> = Vec::new();
        let n = self.parts.len();
        proof {
            assert(self@.len() == self.parts@.len());
        }
        if n == 0 {
            return out;
        }
        let mut start: usize = 0;
        let head = self.parts[0].rank();
        proof {
            assert(self@[0] == self.parts@[0]@);
        }
        if head == 5 {
            // root
            out.push(47);
            start = 1;
        } else if head <= 4 {
            push_part_bytes(&mut out, &self.parts[0]);
            if n >= 2 {
                let second_root = match &self.parts[1] {
                    Part::RootDir => true,
                    _ => false,
                };
                proof {
                    assert(self@[1] == self.parts@[1]@);
                }
                if second_root {
                    out.push(92);
                    start = 2;
                } else {
                    start = 1;
                }
            } else {
                start = 1;
            }
        }
        let ghost base = out@;
        let mut j = start;
        proof {
            let t0 = self@.skip(start as int);
            assert(render_comps(Seq::<PartV>::empty()) == Seq::<u8>::empty());
            if t0.len() == 0 {
                assert(comps_rest(t0, true) == Seq::<u8>::empty());
                assert(base + comps_rest(t0, true) =~= base);
            }
            if self@[0] is RootDir {
                assert(start == 1);
                assert(base =~= seq![47u8]);
                assert(render_parts(self@) == seq![47u8] + render_comps(self@.skip(1)));
                if t0.len() > 0 {
                    assert(base + comps_rest(t0, true) =~= seq![47u8] + render_comps(t0));
                }
                assert(render_parts(self@) =~= base + comps_rest(t0, true));
            } else if is_prefix_part(self@[0]) {
                if self@.len() >= 2 && self@[1] is RootDir {
                    assert(start == 2);
                    assert(base =~= Seq::<u8>::empty() + render_part(self@[0]) + seq![92u8]);
                    assert(render_parts(self@) == render_part(self@[0]) + seq![92u8]
                        + render_comps(self@.skip(2)));
                    if t0.len() > 0 {
                        assert(base + comps_rest(t0, true) =~= render_part(self@[0]) + seq![92u8]
                            + render_comps(t0));
                    }
                    assert(render_parts(self@) =~= base + comps_rest(t0, true));
                } else {
                    assert(start == 1);
                    assert(base =~= Seq::<u8>::empty() + render_part(self@[0]));
                    assert(render_parts(self@) == render_part(self@[0]) + render_comps(
                        self@.skip(1),
                    ));
                    if t0.len() > 0 {
                        assert(base + comps_rest(t0, true) =~= render_part(self@[0])
                            + render_comps(t0));
                    }
                    assert(render_parts(self@) =~= base + comps_rest(t0, true));
                }
            } else {
                assert(start == 0);
                assert(base =~= Seq::<u8>::empty());
                assert(render_parts(self@) == render_comps(self@));
                assert(t0 =~= self@);
                if t0.len() > 0 {
                    assert(base + comps_rest(t0, true) =~= render_comps(t0));
                }
                assert(render_parts(self@) =~= base + comps_rest(t0, true));
            }
        }
        while j < n
            invariant
                start <= j <= n,
                n == self.parts@.len(),
                self@.len() == n,
                render_parts(self@) == out@ + comps_rest(self@.skip(j as int), j == start),
            decreases n - j,
        {
            let ghost t = self@.skip(j as int);
            proof {
                assert(t[0] == self@[j as int]);
                assert(t.skip(1) =~= self@.skip(j as int + 1));
            }
            let ghost before = out@;
            if j > start {
                out.push(47);
            }
            push_part_bytes(&mut out, &self.parts[j]);
            proof {
                assert(self@[j as int] == self.parts@[j as int]@);
                let lead = j == start;
                let sep: Seq<u8> = if lead {
                    Seq::<u8>::empty()
                } else {
                    seq![47u8]
                };
                assert(out@ =~= before + sep + render_part(t[0]));
                if t.len() == 1 {
                    assert(comps_rest(t, lead) =~= sep + render_part(t[0]));
                    assert(comps_rest(self@.skip(j as int + 1), false) =~= Seq::<u8>::empty());
                    assert(out@ + comps_rest(self@.skip(j as int + 1), false) =~= before
                        + comps_rest(t, lead));
                } else {
                    assert(render_comps(t) =~= render_part(t[0]) + seq![47u8] + render_comps(
                        t.skip(1),
                    ));
                    assert(comps_rest(t, lead) =~= sep + render_part(t[0]) + comps_rest(
                        t.skip(1),
                        false,
                    ));
                    assert(out@ + comps_rest(self@.skip(j as int + 1), false) =~= before
                        + comps_rest(t, lead));
                }
            }
            j += 1;
        }
        proof {
            assert(self@.skip(n as int) =~= Seq::<PartV>::empty());
            assert(render_parts(self@) =~= out@);
        }
        out
    }
}

/// The components of pushing `b` onto `a`: a path with a prefix replaces
/// everything, a rooted path keeps only `a`'s prefix, anything else is
/// appended.
pub open spec fn join_parts(a: Seq<PartV>, b: Seq<PartV>) -> Seq<PartV> {
    if b.len() > 0 && is_prefix_part(b[0]) {
        b
    } else if b.len() > 0 && b[0] is RootDir {
        if a.len() > 0 && is_prefix_part(a[0]) {
            seq![a[0]] + b
        } else {
            b
        }
    } else {
        a + b
    }
}

/// Append copies of the components of `src` to `dst`.
fn extend_parts(dst: &mut Vec<Part>, src: &Vec<Part>)
    ensures
        views_of(final(dst)@) == views_of(old(dst)@) + views_of(src@),
{
    let mut i: usize = 0;
    while i < src.len()
        invariant
            0 <= i <= src@.len(),
            views_of(dst@) =~= views_of(old(dst)@) + views_of(src@.take(i as int)),
        decreases src@.len() - i,
    {
        let x = src[i].dup();
        let ghost prev = views_of(dst@);
        dst.push(x);
        proof {
            crate::order::lemma_views_push(dst@.drop_last(), dst@.last());
            assert(dst@.drop_last().push(dst@.last()) =~= dst@);
            assert(views_of(dst@) =~= prev.push(src@[i as int]@));
            assert(views_of(src@.take(i as int + 1)) =~= views_of(src@.take(i as int)).push(
                src@[i as int]@,
            ));
            assert(views_of(dst@) =~= views_of(old(dst)@) + views_of(src@.take(i as int + 1)));
        }
        i += 1;
    }
    proof {
        assert(src@.take(src@.len() as int) =~= src@);
        assert(views_of(dst@) =~= views_of(old(dst)@) + views_of(src@));
    }
}

impl MPath {
    /// Push `other` onto `self`, as a path join.  The result's long-path
    /// flag reflects the length of the joined rendering.
    pub fn join(&self, other: &MPath) -> (r: MPath)
        ensures
            r@ == join_parts(self@, other@),
            r.is_long() == (render_parts(join_parts(self@, other@)).len() >= 260),
    {
        let mut parts: Vec<Part> = Vec::new();
        let other_head: u8 = if other.parts.len() == 0 {
            9
        } else {
            other.parts[0].rank()
        };
        proof {
            if other.parts@.len() > 0 {
                assert(other@[0] == other.parts@[0]@);
            }
            assert(views_of(parts@) =~= Seq::<PartV>::empty());
        }
        if other_head <= 4 {
            extend_parts(&mut parts, &other.parts);
            proof {
                assert(Seq::<PartV>::empty() + other@ =~= other@);
            }
        } else if other_head == 5 {
            let self_prefixed: bool = if self.parts.len() == 0 {
                false
            } else {
                self.parts[0].rank() <= 4
            };
            proof {
                if self.parts@.len() > 0 {
                    assert(self@[0] == self.parts@[0]@);
                }
            }
            if self_prefixed {
                parts.push(self.parts[0].dup());
                proof {
                    assert(views_of(parts@) =~= seq![self@[0]]);
                }
            }
            let ghost base = views_of(parts@);
            extend_parts(&mut parts, &other.parts);
            proof {
                if self_prefixed {
                    assert(base + other@ =~= seq![self@[0]] + other@);
                } else {
                    assert(base + other@ =~= other@);
                }
            }
        } else {
            extend_parts(&mut parts, &self.parts);
            let ghost base = views_of(parts@);
            proof {
                assert(base =~= self@);
            }
            extend_parts(&mut parts, &other.parts);
            proof {
                assert(views_of(parts@) =~= self@ + other@);
            }
        }
        let tmp = MPath { parts, long: false };
        proof {
            assert(tmp@ == join_parts(self@, other@));
        }
        let rendered = tmp.render();
        let lng = rendered.len() >= 260;
        MPath { parts: tmp.parts, long: lng }
    }
}

} // verus!
