//! Comparison of sorted sequences.
//!
//! `Changes` walks two sorted sequences in a single merge pass and classifies
//! every element as added, removed or unchanged.  `Adjacent` groups runs of
//! consecutive equal elements with their lengths, and `Unique` keeps one
//! representative per run.  All three compute their output eagerly and hand
//! it out one element at a time.

use vstd::prelude::*;
use crate::order::Ordered;
use crate::order::count_in;
use crate::order::lemma_contains_cons;
use crate::order::lemma_contains_head;
use crate::order::lemma_strict_lower_bound;
use crate::order::lemma_strict_tail;
use crate::order::same_view;
use crate::order::strict_sorted_by;
use crate::order::views_of;

verus! {

/// How an element differs between two sorted sequences.
#[derive(Clone, Copy, PartialEq, Eq, Structural, Debug)]
pub enum Change {
    /// Present only in the right-hand sequence.
    Added,
    /// Present only in the left-hand sequence.
    Removed,
    /// Present in both.
    Unchanged,
}

/// View of a classified item sequence.
pub open spec fn pair_views<T: View>(s: Seq<(T, Change)>) -> Seq<(T::V, Change)> {
    s.map_values(|p: (T, Change)| (p.0@, p.1))
}

/// The merge-walk classification of two sorted view sequences.
pub open spec fn changes_spec<T: Ordered>(a: Seq<T::V>, b: Seq<T::V>) -> Seq<(T::V, Change)>
    decreases a.len() + b.len(),
{
    if a.len() == 0 && b.len() == 0 {
        Seq::<(T::V, Change)>::empty()
    } else if b.len() == 0 {
        seq![(a[0], Change::Removed)] + changes_spec::<T>(a.skip(1), b)
    } else if a.len() == 0 {
        seq![(b[0], Change::Added)] + changes_spec::<T>(a, b.skip(1))
    } else if T::lt_v(a[0], b[0]) {
        seq![(a[0], Change::Removed)] + changes_spec::<T>(a.skip(1), b)
    } else if T::lt_v(b[0], a[0]) {
        seq![(b[0], Change::Added)] + changes_spec::<T>(a, b.skip(1))
    } else {
        seq![(a[0], Change::Unchanged)] + changes_spec::<T>(a.skip(1), b.skip(1))
    }
}

/// Occurrences of `x` as the value of a classified item.
pub open spec fn count_first<V>(s: Seq<(V, Change)>, x: V) -> int
    decreases s.len(),
{
    if s.len() == 0 {
        0
    } else {
        (if s[0].0 == x {
            1int
        } else {
            0int
        }) + count_first(s.skip(1), x)
    }
}

proof fn lemma_count_first_cons<V>(e: (V, Change), t: Seq<(V, Change)>, x: V)
    ensures
        count_first(seq![e] + t, x) == (if e.0 == x {
            1int
        } else {
            0int
        }) + count_first(t, x),
{
    let s = seq![e] + t;
    assert(s[0] == e);
    assert(s.skip(1) =~= t);
}

/// Diff correctness: over strictly sorted duplicate-free sequences, a value
/// is classified `Removed` exactly when it is only in the left sequence,
/// `Added` exactly when it is only in the right one, `Unchanged` exactly when
/// it is in both, and every value of either sequence appears exactly once.
pub proof fn lemma_changes_correct<T: Ordered>(a: Seq<T::V>, b: Seq<T::V>, x: T::V)
    requires
        strict_sorted_by::<T>(a),
        strict_sorted_by::<T>(b),
    ensures
        changes_spec::<T>(a, b).contains((x, Change::Removed)) <==> (a.contains(x) && !b.contains(
            x,
        )),
        changes_spec::<T>(a, b).contains((x, Change::Added)) <==> (b.contains(x) && !a.contains(
            x,
        )),
        changes_spec::<T>(a, b).contains((x, Change::Unchanged)) <==> (a.contains(x) && b.contains(
            x,
        )),
        count_first(changes_spec::<T>(a, b), x) == (if a.contains(x) || b.contains(x) {
            1int
        } else {
            0int
        }),
    decreases a.len() + b.len(),
{
    let r = changes_spec::<T>(a, b);
    if a.len() == 0 && b.len() == 0 {
    } else if b.len() == 0 {
        let e = (a[0], Change::Removed);
        let t = changes_spec::<T>(a.skip(1), b);
        lemma_strict_tail::<T>(a);
        lemma_changes_correct::<T>(a.skip(1), b, x);
        lemma_contains_cons(e, t, (x, Change::Removed));
        lemma_contains_cons(e, t, (x, Change::Added));
        lemma_contains_cons(e, t, (x, Change::Unchanged));
        lemma_count_first_cons(e, t, x);
        lemma_contains_head(a, x);
    } else if a.len() == 0 {
        let e = (b[0], Change::Added);
        let t = changes_spec::<T>(a, b.skip(1));
        lemma_strict_tail::<T>(b);
        lemma_changes_correct::<T>(a, b.skip(1), x);
        lemma_contains_cons(e, t, (x, Change::Removed));
        lemma_contains_cons(e, t, (x, Change::Added));
        lemma_contains_cons(e, t, (x, Change::Unchanged));
        lemma_count_first_cons(e, t, x);
        lemma_contains_head(b, x);
    } else if T::lt_v(a[0], b[0]) {
        let e = (a[0], Change::Removed);
        let t = changes_spec::<T>(a.skip(1), b);
        lemma_strict_tail::<T>(a);
        lemma_changes_correct::<T>(a.skip(1), b, x);
        lemma_contains_cons(e, t, (x, Change::Removed));
        lemma_contains_cons(e, t, (x, Change::Added));
        lemma_contains_cons(e, t, (x, Change::Unchanged));
        lemma_count_first_cons(e, t, x);
        lemma_contains_head(a, x);
        lemma_strict_lower_bound::<T>(b, a[0]);
    } else if T::lt_v(b[0], a[0]) {
        let e = (b[0], Change::Added);
        let t = changes_spec::<T>(a, b.skip(1));
        lemma_strict_tail::<T>(b);
        lemma_changes_correct::<T>(a, b.skip(1), x);
        lemma_contains_cons(e, t, (x, Change::Removed));
        lemma_contains_cons(e, t, (x, Change::Added));
        lemma_contains_cons(e, t, (x, Change::Unchanged));
        lemma_count_first_cons(e, t, x);
        lemma_contains_head(b, x);
        lemma_strict_lower_bound::<T>(a, b[0]);
    } else {
        T::lemma_connex(a[0], b[0]);
        assert(a[0] == b[0]);
        let e = (a[0], Change::Unchanged);
        let t = changes_spec::<T>(a.skip(1), b.skip(1));
        lemma_strict_tail::<T>(a);
        lemma_strict_tail::<T>(b);
        lemma_changes_correct::<T>(a.skip(1), b.skip(1), x);
        lemma_contains_cons(e, t, (x, Change::Removed));
        lemma_contains_cons(e, t, (x, Change::Added));
        lemma_contains_cons(e, t, (x, Change::Unchanged));
        lemma_count_first_cons(e, t, x);
        lemma_contains_head(a, x);
        lemma_contains_head(b, x);
    }
}

/// Eager merge diff of two sorted vectors.
pub fn diff_items<T: Ordered>(a: &Vec<T>, b: &Vec<T>) -> (r: Vec<(T, Change)>)
    ensures
        pair_views(r@) == changes_spec::<T>(views_of(a@), views_of(b@)),
{
    let ghost va = views_of(a@);
    let ghost vb = views_of(b@);
    let mut out: Vec<(T, Change)> = Vec::new();
    let mut i: usize = 0;
    let mut j: usize = 0;
    proof {
        assert(va.skip(0) =~= va);
        assert(vb.skip(0) =~= vb);
        assert(pair_views(out@) =~= Seq::<(T::V, Change)>::empty());
        assert(Seq::<(T::V, Change)>::empty() + changes_spec::<T>(va, vb) =~= changes_spec::<T>(
            va,
            vb,
        ));
    }
    while i < a.len() || j < b.len()
        invariant
            0 <= i <= a@.len(),
            0 <= j <= b@.len(),
            va == views_of(a@),
            vb == views_of(b@),
            va.len() == a@.len(),
            vb.len() == b@.len(),
            pair_views(out@) + changes_spec::<T>(va.skip(i as int), vb.skip(j as int))
                == changes_spec::<T>(va, vb),
        decreases a@.len() - i + b@.len() - j,
    {
        let ghost ta = va.skip(i as int);
        let ghost tb = vb.skip(j as int);
        let ghost before = pair_views(out@);
        proof {
            if i < a@.len() {
                assert(ta[0] == va[i as int]);
                assert(ta.skip(1) =~= va.skip(i as int + 1));
            }
            if j < b@.len() {
                assert(tb[0] == vb[j as int]);
                assert(tb.skip(1) =~= vb.skip(j as int + 1));
            }
        }
        let take_a: bool = if j >= b.len() {
            true
        } else if i >= a.len() {
            false
        } else if a[i].lt(&b[j]) {
            true
        } else {
            false
        };
        let both: bool = i < a.len() && j < b.len() && !take_a && !b[j].lt(&a[i]);
        if both {
            let e = (a[i].dup(), Change::Unchanged);
            let ghost ev = (va[i as int], Change::Unchanged);
            out.push(e);
            proof {
                assert(pair_views(out@) =~= before.push(ev));
                assert(changes_spec::<T>(ta, tb) =~= seq![ev] + changes_spec::<T>(
                    ta.skip(1),
                    tb.skip(1),
                ));
                assert(before.push(ev) + changes_spec::<T>(
                    va.skip(i as int + 1),
                    vb.skip(j as int + 1),
                ) =~= before + changes_spec::<T>(ta, tb));
            }
            i += 1;
            j += 1;
        } else if take_a {
            let e = (a[i].dup(), Change::Removed);
            let ghost ev = (va[i as int], Change::Removed);
            out.push(e);
            proof {
                assert(pair_views(out@) =~= before.push(ev));
                assert(changes_spec::<T>(ta, tb) =~= seq![ev] + changes_spec::<T>(ta.skip(1), tb));
                assert(before.push(ev) + changes_spec::<T>(va.skip(i as int + 1), tb) =~= before
                    + changes_spec::<T>(ta, tb));
            }
            i += 1;
        } else {
            let e = (b[j].dup(), Change::Added);
            let ghost ev = (vb[j as int], Change::Added);
            out.push(e);
            proof {
                assert(pair_views(out@) =~= before.push(ev));
                assert(changes_spec::<T>(ta, tb) =~= seq![ev] + changes_spec::<T>(ta, tb.skip(1)));
                assert(before.push(ev) + changes_spec::<T>(ta, vb.skip(j as int + 1)) =~= before
                    + changes_spec::<T>(ta, tb));
            }
            j += 1;
        }
    }
    proof {
        assert(va.skip(va.len() as int) =~= Seq::<T::V>::empty());
        assert(vb.skip(vb.len() as int) =~= Seq::<T::V>::empty());
        assert(changes_spec::<T>(va.skip(va.len() as int), vb.skip(vb.len() as int)) =~= Seq::<
            (T::V, Change),
        >::empty());
        assert(pair_views(out@) + Seq::<(T::V, Change)>::empty() =~= pair_views(out@));
    }
    out
}

/// Merge diff of two sorted sequences, consumed one classified item at a
/// time.
pub struct Changes<T> {
    items: Vec<(T, Change)>,
    pos: usize,
}

impl<T: Ordered> Changes<T> {
    pub closed spec fn wf(&self) -> bool {
        self.pos <= self.items@.len()
    }

    /// The classified items not yet handed out.
    pub closed spec fn remaining(&self) -> Seq<(T::V, Change)> {
        pair_views(self.items@.skip(self.pos as int))
    }

    /// Diff two sorted vectors.
    pub fn new(a: &Vec<T>, b: &Vec<T>) -> (r: Self)
        requires
            strict_sorted_by::<T>(views_of(a@)),
            strict_sorted_by::<T>(views_of(b@)),
        ensures
            r.wf(),
            r.remaining() == changes_spec::<T>(views_of(a@), views_of(b@)),
    {
        let items = diff_items(a, b);
        proof {
            assert(items@.skip(0) =~= items@);
        }
        Changes { items, pos: 0 }
    }

    /// The next classified item, in order.
    pub fn next(&mut self) -> (r: Option<(T, Change)>)
        requires
            old(self).wf(),
        ensures
            final(self).wf(),
            match r {
                Some(p) => old(self).remaining().len() > 0 && (p.0@, p.1) == old(
                    self,
                ).remaining()[0] && final(self).remaining() == old(self).remaining().skip(1),
                None => old(self).remaining().len() == 0 && final(self).remaining() == old(
                    self,
                ).remaining(),
            },
    {
        if self.pos < self.items.len() {
            let idx = self.pos;
            let item = (self.items[idx].0.dup(), self.items[idx].1);
            self.pos = idx + 1;
            proof {
                assert(self.items@.skip(idx as int)[0] == self.items@[idx as int]);
                assert(self.items@.skip(idx as int).skip(1) =~= self.items@.skip(idx as int + 1));
            }
            Some(item)
        } else {
            None
        }
    }
}

/// Length of the leading run of elements equal to `v`.
pub open spec fn run_from<V>(s: Seq<V>, v: V) -> int
    decreases s.len(),
{
    if s.len() == 0 || s[0] != v {
        0
    } else {
        1 + run_from(s.skip(1), v)
    }
}

pub proof fn lemma_run_from_bounds<V>(s: Seq<V>, v: V)
    ensures
        0 <= run_from(s, v) <= s.len(),
        s.len() > 0 && s[0] == v ==> run_from(s, v) >= 1,
    decreases s.len(),
{
    if s.len() > 0 && s[0] == v {
        lemma_run_from_bounds(s.skip(1), v);
    }
}

proof fn lemma_run_from_count<V>(t: Seq<V>, v: V, m: int)
    requires
        0 <= m <= t.len(),
        forall|k: int| 0 <= k < m ==> #[trigger] t[k] == v,
        m == t.len() || t[m] != v,
    ensures
        run_from(t, v) == m,
    decreases m,
{
    if m == 0 {
    } else {
        assert(t[0] == v);
        assert forall|k: int| 0 <= k < m - 1 implies #[trigger] t.skip(1)[k] == v by {
            assert(t.skip(1)[k] == t[k + 1]);
        }
        if m < t.len() {
            assert(t.skip(1)[m - 1] == t[m]);
        }
        lemma_run_from_count(t.skip(1), v, m - 1);
    }
}

/// Run-length grouping of consecutive equal elements.
pub open spec fn runs_spec<V>(s: Seq<V>) -> Seq<(V, int)>
    decreases s.len(),
    via runs_spec_dec::<V>
{
    if s.len() == 0 {
        Seq::<(V, int)>::empty()
    } else {
        let k = run_from(s, s[0]);
        seq![(s[0], k)] + runs_spec(s.skip(k))
    }
}

#[via_fn]
proof fn runs_spec_dec<V>(s: Seq<V>) {
    if s.len() > 0 {
        lemma_run_from_bounds(s, s[0]);
    }
}

/// One representative per run of consecutive equal elements.
pub open spec fn unique_spec<V>(s: Seq<V>) -> Seq<V>
    decreases s.len(),
    via unique_spec_dec::<V>
{
    if s.len() == 0 {
        Seq::<V>::empty()
    } else {
        let k = run_from(s, s[0]);
        seq![s[0]] + unique_spec(s.skip(k))
    }
}

#[via_fn]
proof fn unique_spec_dec<V>(s: Seq<V>) {
    if s.len() > 0 {
        lemma_run_from_bounds(s, s[0]);
    }
}

/// View of a run sequence.
pub open spec fn run_views<T: View>(s: Seq<(T, usize)>) -> Seq<(T::V, int)> {
    s.map_values(|p: (T, usize)| (p.0@, p.1 as int))
}

/// Eager run-length grouping of a vector.
pub fn runs_items<T: Ordered>(v: &Vec<T>) -> (r: Vec<(T, usize)>)
    ensures
        run_views(r@) == runs_spec(views_of(v@)),
{
    let ghost vs = views_of(v@);
    let mut out: Vec<(T, usize)> = Vec::new();
    let mut i: usize = 0;
    proof {
        assert(vs.skip(0) =~= vs);
        assert(run_views(out@) =~= Seq::<(T::V, int)>::empty());
        assert(Seq::<(T::V, int)>::empty() + runs_spec(vs) =~= runs_spec(vs));
    }
    while i < v.len()
        invariant
            0 <= i <= v@.len(),
            vs == views_of(v@),
            vs.len() == v@.len(),
            run_views(out@) + runs_spec(vs.skip(i as int)) == runs_spec(vs),
        decreases v@.len() - i,
    {
        let mut j = i + 1;
        while j < v.len() && same_view(&v[j], &v[i])
            invariant
                i < j <= v@.len(),
                i < v@.len(),
                vs == views_of(v@),
                vs.len() == v@.len(),
                forall|k: int| i <= k < j ==> #[trigger] vs[k] == vs[i as int],
            decreases v@.len() - j,
        {
            j += 1;
        }
        let count = j - i;
        let ghost t = vs.skip(i as int);
        let ghost before = run_views(out@);
        proof {
            assert(t[0] == vs[i as int]);
            assert forall|k: int| 0 <= k < count implies #[trigger] t[k] == vs[i as int] by {
                assert(t[k] == vs[i as int + k]);
            }
            if j < v@.len() {
                assert(t[count as int] == vs[j as int]);
            }
            lemma_run_from_count(t, vs[i as int], count as int);
            assert(t.skip(count as int) =~= vs.skip(j as int));
        }
        out.push((v[i].dup(), count));
        proof {
            let ev = (vs[i as int], count as int);
            assert(run_views(out@) =~= before.push(ev));
            assert(runs_spec(t) =~= seq![ev] + runs_spec(vs.skip(j as int)));
            assert(before.push(ev) + runs_spec(vs.skip(j as int)) =~= before + runs_spec(t));
        }
        i = j;
    }
    proof {
        assert(vs.skip(vs.len() as int) =~= Seq::<T::V>::empty());
        assert(runs_spec(vs.skip(vs.len() as int)) =~= Seq::<(T::V, int)>::empty());
        assert(run_views(out@) + Seq::<(T::V, int)>::empty() =~= run_views(out@));
    }
    out
}

/// Eager adjacent deduplication of a vector.
pub fn unique_items<T: Ordered>(v: &Vec<T>) -> (r: Vec<T>)
    ensures
        views_of(r@) == unique_spec(views_of(v@)),
{
    let ghost vs = views_of(v@);
    let mut out: Vec<T> = Vec::new();
    let mut i: usize = 0;
    proof {
        assert(vs.skip(0) =~= vs);
        assert(views_of(out@) =~= Seq::<T::V>::empty());
        assert(Seq::<T::V>::empty() + unique_spec(vs) =~= unique_spec(vs));
    }
    while i < v.len()
        invariant
            0 <= i <= v@.len(),
            vs == views_of(v@),
            vs.len() == v@.len(),
            views_of(out@) + unique_spec(vs.skip(i as int)) == unique_spec(vs),
        decreases v@.len() - i,
    {
        let mut j = i + 1;
        while j < v.len() && same_view(&v[j], &v[i])
            invariant
                i < j <= v@.len(),
                i < v@.len(),
                vs == views_of(v@),
                vs.len() == v@.len(),
                forall|k: int| i <= k < j ==> #[trigger] vs[k] == vs[i as int],
            decreases v@.len() - j,
        {
            j += 1;
        }
        let ghost count = j - i;
        let ghost t = vs.skip(i as int);
        let ghost before = views_of(out@);
        proof {
            assert(t[0] == vs[i as int]);
            assert forall|k: int| 0 <= k < count implies #[trigger] t[k] == vs[i as int] by {
                assert(t[k] == vs[i as int + k]);
            }
            if j < v@.len() {
                assert(t[count as int] == vs[j as int]);
            }
            lemma_run_from_count(t, vs[i as int], count as int);
            assert(t.skip(count as int) =~= vs.skip(j as int));
        }
        out.push(v[i].dup());
        proof {
            let ev = vs[i as int];
            assert(views_of(out@) =~= before.push(ev));
            assert(unique_spec(t) =~= seq![ev] + unique_spec(vs.skip(j as int)));
            assert(before.push(ev) + unique_spec(vs.skip(j as int)) =~= before + unique_spec(t));
        }
        i = j;
    }
    proof {
        assert(vs.skip(vs.len() as int) =~= Seq::<T::V>::empty());
        assert(unique_spec(vs.skip(vs.len() as int)) =~= Seq::<T::V>::empty());
        assert(views_of(out@) + Seq::<T::V>::empty() =~= views_of(out@));
    }
    out
}

/// Run-length grouping of a sequence, consumed one run at a time.
pub struct Adjacent<T> {
    items: Vec<(T, usize)>,
    pos: usize,
}

impl<T: Ordered> Adjacent<T> {
    pub closed spec fn wf(&self) -> bool {
        self.pos <= self.items@.len()
    }

    /// The runs not yet handed out.
    pub closed spec fn remaining(&self) -> Seq<(T::V, int)> {
        run_views(self.items@.skip(self.pos as int))
    }

    /// Group the consecutive equal elements of `v`.
    pub fn new(v: &Vec<T>) -> (r: Self)
        ensures
            r.wf(),
            r.remaining() == runs_spec(views_of(v@)),
    {
        let items = runs_items(v);
        proof {
            assert(items@.skip(0) =~= items@);
        }
        Adjacent { items, pos: 0 }
    }

    /// The next run: an element and how many times it occurs consecutively.
    pub fn next(&mut self) -> (r: Option<(T, usize)>)
        requires
            old(self).wf(),
        ensures
            final(self).wf(),
            match r {
                Some(p) => old(self).remaining().len() > 0 && (p.0@, p.1 as int) == old(
                    self,
                ).remaining()[0] && final(self).remaining() == old(self).remaining().skip(1),
                None => old(self).remaining().len() == 0 && final(self).remaining() == old(
                    self,
                ).remaining(),
            },
    {
        if self.pos < self.items.len() {
            let idx = self.pos;
            let item = (self.items[idx].0.dup(), self.items[idx].1);
            self.pos = idx + 1;
            proof {
                assert(self.items@.skip(idx as int)[0] == self.items@[idx as int]);
                assert(self.items@.skip(idx as int).skip(1) =~= self.items@.skip(idx as int + 1));
            }
            Some(item)
        } else {
            None
        }
    }
}

/// Adjacent deduplication of a sequence, consumed one element at a time.
pub struct Unique<T> {
    items: Vec<T>,
    pos: usize,
}

impl<T: Ordered> Unique<T> {
    pub closed spec fn wf(&self) -> bool {
        self.pos <= self.items@.len()
    }

    /// The representatives not yet handed out.
    pub closed spec fn remaining(&self) -> Seq<T::V> {
        views_of(self.items@.skip(self.pos as int))
    }

    /// Keep one representative of each run of consecutive equal elements.
    pub fn new(v: &Vec<T>) -> (r: Self)
        ensures
            r.wf(),
            r.remaining() == unique_spec(views_of(v@)),
    {
        let items = unique_items(v);
        proof {
            assert(items@.skip(0) =~= items@);
        }
        Unique { items, pos: 0 }
    }

    /// The next representative, in order.
    pub fn next(&mut self) -> (r: Option<T>)
        requires
            old(self).wf(),
        ensures
            final(self).wf(),
            match r {
                Some(p) => old(self).remaining().len() > 0 && p@ == old(self).remaining()[0]
                    && final(self).remaining() == old(self).remaining().skip(1),
                None => old(self).remaining().len() == 0 && final(self).remaining() == old(
                    self,
                ).remaining(),
            },
    {
        if self.pos < self.items.len() {
            let idx = self.pos;
            let item = self.items[idx].dup();
            self.pos = idx + 1;
            proof {
                assert(self.items@.skip(idx as int)[0] == self.items@[idx as int]);
                assert(self.items@.skip(idx as int).skip(1) =~= self.items@.skip(idx as int + 1));
            }
            Some(item)
        } else {
            None
        }
    }
}

/// Convenience constructors for the three sequence walks.
pub trait IterExt<T: Ordered>: View<V = Seq<T>> + Sized {
    /// Diff against another sorted sequence.
    fn changes(&self, other: &Self) -> (r: Changes<T>)
        requires
            strict_sorted_by::<T>(views_of(self@)),
            strict_sorted_by::<T>(views_of(other@)),
        ensures
            r.wf(),
            r.remaining() == changes_spec::<T>(views_of(self@), views_of(other@)),
    ;

    /// Group consecutive equal elements.
    fn adjacent(&self) -> (r: Adjacent<T>)
        ensures
            r.wf(),
            r.remaining() == runs_spec(views_of(self@)),
    ;

    /// Drop consecutive duplicates.
    fn unique(&self) -> (r: Unique<T>)
        ensures
            r.wf(),
            r.remaining() == unique_spec(views_of(self@)),
    ;
}

impl<T: Ordered> IterExt<T> for Vec<T> {
    fn changes(&self, other: &Self) -> (r: Changes<T>) {
        Changes::new(self, other)
    }

    fn adjacent(&self) -> (r: Adjacent<T>) {
        Adjacent::new(self)
    }

    fn unique(&self) -> (r: Unique<T>) {
        Unique::new(self)
    }
}

proof fn lemma_run_prefix<V>(s: Seq<V>, v: V, i: int)
    requires
        0 <= i < run_from(s, v),
    ensures
        s[i] == v,
    decreases i,
{
    lemma_run_from_bounds(s, v);
    if i == 0 {
    } else {
        lemma_run_prefix(s.skip(1), v, i - 1);
        assert(s.skip(1)[i - 1] == s[i]);
    }
}

proof fn lemma_run_end<V>(s: Seq<V>, v: V)
    requires
        run_from(s, v) < s.len(),
    ensures
        s[run_from(s, v)] != v,
    decreases s.len(),
{
    lemma_run_from_bounds(s, v);
    if s.len() > 0 && s[0] == v {
        lemma_run_end(s.skip(1), v);
        assert(s.skip(1)[run_from(s.skip(1), v)] == s[run_from(s, v)]);
    }
}

/// Adjacent deduplication keeps exactly the values of its input.
pub proof fn lemma_unique_members<T: Ordered>(s: Seq<T::V>, x: T::V)
    ensures
        unique_spec(s).contains(x) <==> s.contains(x),
    decreases s.len(),
{
    if s.len() > 0 {
        let k = run_from(s, s[0]);
        lemma_run_from_bounds(s, s[0]);
        lemma_unique_members::<T>(s.skip(k), x);
        crate::order::lemma_contains_cons(s[0], unique_spec(s.skip(k)), x);
        if s.contains(x) {
            let i = choose|i: int| 0 <= i < s.len() && s[i] == x;
            if i < k {
                lemma_run_prefix(s, s[0], i);
                assert(x == s[0]);
            } else {
                assert(s.skip(k)[i - k] == x);
                assert(s.skip(k).contains(x));
            }
        }
        if x == s[0] {
            assert(s.contains(x));
        }
        if s.skip(k).contains(x) {
            let i = choose|i: int| 0 <= i < s.skip(k).len() && s.skip(k)[i] == x;
            assert(s[k + i] == x);
            assert(s.contains(x));
        }
    }
}

/// In a sorted sequence the first element sorts strictly below everything
/// past its own run.
proof fn lemma_run_strict_below<T: Ordered>(s: Seq<T::V>, m: int)
    requires
        crate::order::sorted_by::<T>(s),
        run_from(s, s[0]) <= m < s.len(),
        s.len() > 0,
    ensures
        T::lt_v(s[0], s[m]),
{
    let k = run_from(s, s[0]);
    lemma_run_from_bounds(s, s[0]);
    lemma_run_end(s, s[0]);
    assert(s[k] != s[0]);
    assert(T::lt_v(s[0], s[k]) || s[0] == s[k]);
    assert(T::lt_v(s[0], s[k]));
    if m > k {
        assert(T::lt_v(s[k], s[m]) || s[k] == s[m]);
        if s[k] == s[m] {
        } else {
            T::lemma_trans(s[0], s[k], s[m]);
        }
    }
}

/// Adjacent deduplication of a sorted sequence is strictly sorted.
pub proof fn lemma_unique_strict<T: Ordered>(s: Seq<T::V>)
    requires
        crate::order::sorted_by::<T>(s),
    ensures
        strict_sorted_by::<T>(unique_spec(s)),
    decreases s.len(),
{
    if s.len() > 0 {
        let k = run_from(s, s[0]);
        lemma_run_from_bounds(s, s[0]);
        let t = s.skip(k);
        assert forall|p: int, q: int| 0 <= p < q < t.len() implies T::lt_v(
            #[trigger] t[p],
            #[trigger] t[q],
        ) || t[p] == t[q] by {
            assert(t[p] == s[k + p]);
            assert(t[q] == s[k + q]);
        }
        lemma_unique_strict::<T>(t);
        let u = unique_spec(s);
        let ut = unique_spec(t);
        assert(u == seq![s[0]] + ut);
        assert forall|p: int, q: int| 0 <= p < q < u.len() implies T::lt_v(
            #[trigger] u[p],
            #[trigger] u[q],
        ) by {
            if p == 0 {
                assert(u[q] == ut[q - 1]);
                lemma_unique_members::<T>(t, ut[q - 1]);
                assert(ut.contains(ut[q - 1]));
                assert(t.contains(ut[q - 1]));
                let m = choose|m: int| 0 <= m < t.len() && t[m] == ut[q - 1];
                assert(t[m] == s[k + m]);
                lemma_run_strict_below::<T>(s, k + m);
                assert(u[p] == s[0]);
            } else {
                assert(u[p] == ut[p - 1]);
                assert(u[q] == ut[q - 1]);
            }
        }
    }
}

proof fn lemma_count_all_eq<V>(s: Seq<V>, v: V)
    requires
        forall|i: int| 0 <= i < s.len() ==> #[trigger] s[i] == v,
    ensures
        count_in(s, v) == s.len(),
    decreases s.len(),
{
    if s.len() > 0 {
        assert forall|i: int| 0 <= i < s.skip(1).len() implies #[trigger] s.skip(1)[i] == v by {
            assert(s.skip(1)[i] == s[i + 1]);
        }
        lemma_count_all_eq(s.skip(1), v);
    }
}

proof fn lemma_count_none<V>(s: Seq<V>, x: V)
    requires
        !s.contains(x),
    ensures
        count_in(s, x) == 0,
    decreases s.len(),
{
    if s.len() > 0 {
        assert(s[0] != x);
        if s.skip(1).contains(x) {
            let i = choose|i: int| 0 <= i < s.skip(1).len() && s.skip(1)[i] == x;
            assert(s[i + 1] == x);
        }
        lemma_count_none(s.skip(1), x);
    }
}

/// Two equal elements at different positions mean a multiplicity of at
/// least two.
pub proof fn lemma_count_two<V>(s: Seq<V>, i: int, j: int)
    requires
        0 <= i < j < s.len(),
        s[i] == s[j],
    ensures
        count_in(s, s[i]) >= 2,
    decreases i,
{
    if i == 0 {
        assert(s.skip(1)[j - 1] == s[j]);
        assert(s.skip(1).contains(s[0]));
        crate::order::lemma_count_contains(s.skip(1), s[0]);
    } else {
        lemma_count_two(s.skip(1), i - 1, j - 1);
        assert(s.skip(1)[i - 1] == s[i]);
        crate::order::lemma_count_nonneg(s.skip(1), s[i]);
    }
}

/// In a sorted sequence, every occurring value appears in the run grouping
/// with its exact multiplicity.
pub proof fn lemma_runs_count<T: Ordered>(s: Seq<T::V>, x: T::V)
    requires
        crate::order::sorted_by::<T>(s),
        s.contains(x),
    ensures
        runs_spec(s).contains((x, count_in(s, x))),
    decreases s.len(),
{
    let k = run_from(s, s[0]);
    lemma_run_from_bounds(s, s[0]);
    let t = s.skip(k);
    assert forall|p: int, q: int| 0 <= p < q < t.len() implies T::lt_v(
        #[trigger] t[p],
        #[trigger] t[q],
    ) || t[p] == t[q] by {
        assert(t[p] == s[k + p]);
        assert(t[q] == s[k + q]);
    }
    assert(s =~= s.take(k) + t);
    crate::order::lemma_count_append(s.take(k), t, x);
    assert forall|m: int| 0 <= m < k implies #[trigger] s.take(k)[m] == s[0] by {
        lemma_run_prefix(s, s[0], m);
    }
    let runs = runs_spec(s);
    assert(runs == seq![(s[0], k)] + runs_spec(t));
    crate::order::lemma_contains_cons((s[0], k), runs_spec(t), (x, count_in(s, x)));
    if x == s[0] {
        lemma_count_all_eq(s.take(k), s[0]);
        if t.contains(s[0]) {
            let m = choose|m: int| 0 <= m < t.len() && t[m] == s[0];
            lemma_run_strict_below::<T>(s, k + m);
            assert(t[m] == s[k + m]);
            T::lemma_irrefl(s[0]);
        }
        lemma_count_none(t, s[0]);
        assert(count_in(s, x) == k);
    } else {
        assert forall|m: int| 0 <= m < s.take(k).len() implies #[trigger] s.take(k)[m] != x by {
        }
        if s.take(k).contains(x) {
            let m = choose|m: int| 0 <= m < k && s.take(k)[m] == x;
        }
        lemma_count_none(s.take(k), x);
        let i = choose|i: int| 0 <= i < s.len() && s[i] == x;
        if i < k {
            lemma_run_prefix(s, s[0], i);
        }
        assert(t[i - k] == x);
        assert(t.contains(x));
        lemma_runs_count::<T>(t, x);
        assert(count_in(s, x) == count_in(t, x));
    }
}

} // verus!
