//! Total orders over abstract views, byte-lexicographic comparison, and
//! order-based vector algorithms (sorting, deduplication).
//!
//! The manifest logic sorts and diffs sequences of paths and copy operations.
//! Everything here is phrased over the *views* of the items so that contracts
//! elsewhere can speak about mathematical sequences.

use vstd::prelude::*;

verus! {

/// The sequence of views of a sequence of items.
pub open spec fn views_of<T: View>(s: Seq<T>) -> Seq<T::V> {
    s.map_values(|t: T| t@)
}

/// A strict total order on the views of a type, together with an executable
/// comparison and a view-preserving duplication.
pub trait Ordered: View + Sized {
    /// Strict order on views: `lt_v(a, b)` means `a` sorts strictly before `b`.
    spec fn lt_v(a: Self::V, b: Self::V) -> bool;

    /// Executable comparison agreeing with `lt_v`.
    fn lt(&self, other: &Self) -> (r: bool)
        ensures
            r == Self::lt_v(self@, other@),
    ;

    /// Produce an item with the same view.
    fn dup(&self) -> (r: Self)
        ensures
            r@ == self@,
    ;

    /// Any two views are comparable or equal.
    proof fn lemma_connex(a: Self::V, b: Self::V)
        ensures
            Self::lt_v(a, b) || Self::lt_v(b, a) || a == b,
    ;

    /// No view sorts before itself.
    proof fn lemma_irrefl(a: Self::V)
        ensures
            !Self::lt_v(a, a),
    ;

    /// The order is transitive.
    proof fn lemma_trans(a: Self::V, b: Self::V, c: Self::V)
        requires
            Self::lt_v(a, b),
            Self::lt_v(b, c),
        ensures
            Self::lt_v(a, c),
    ;
}

impl Ordered for i32 {
    open spec fn lt_v(a: i32, b: i32) -> bool {
        a < b
    }

    fn lt(&self, other: &Self) -> (r: bool) {
        *self < *other
    }

    fn dup(&self) -> (r: Self) {
        *self
    }

    proof fn lemma_connex(a: i32, b: i32) {
    }

    proof fn lemma_irrefl(a: i32) {
    }

    proof fn lemma_trans(a: i32, b: i32, c: i32) {
    }
}

impl Ordered for u32 {
    open spec fn lt_v(a: u32, b: u32) -> bool {
        a < b
    }

    fn lt(&self, other: &Self) -> (r: bool) {
        *self < *other
    }

    fn dup(&self) -> (r: Self) {
        *self
    }

    proof fn lemma_connex(a: u32, b: u32) {
    }

    proof fn lemma_irrefl(a: u32) {
    }

    proof fn lemma_trans(a: u32, b: u32, c: u32) {
    }
}

impl Ordered for u64 {
    open spec fn lt_v(a: u64, b: u64) -> bool {
        a < b
    }

    fn lt(&self, other: &Self) -> (r: bool) {
        *self < *other
    }

    fn dup(&self) -> (r: Self) {
        *self
    }

    proof fn lemma_connex(a: u64, b: u64) {
    }

    proof fn lemma_irrefl(a: u64) {
    }

    proof fn lemma_trans(a: u64, b: u64, c: u64) {
    }
}

/// Lexicographic strict order on byte sequences.
pub open spec fn bytes_lt(a: Seq<u8>, b: Seq<u8>) -> bool
    decreases a.len() + b.len(),
{
    if b.len() == 0 {
        false
    } else if a.len() == 0 {
        true
    } else if a[0] < b[0] {
        true
    } else if b[0] < a[0] {
        false
    } else {
        bytes_lt(a.skip(1), b.skip(1))
    }
}

pub proof fn lemma_bytes_connex(a: Seq<u8>, b: Seq<u8>)
    ensures
        bytes_lt(a, b) || bytes_lt(b, a) || a == b,
    decreases a.len() + b.len(),
{
    if b.len() == 0 {
        if a.len() == 0 {
            assert(a =~= b);
        }
    } else if a.len() == 0 {
    } else if a[0] < b[0] || b[0] < a[0] {
    } else {
        lemma_bytes_connex(a.skip(1), b.skip(1));
        if a.skip(1) == b.skip(1) {
            assert(a.len() == a.skip(1).len() + 1);
            assert(b.len() == b.skip(1).len() + 1);
            assert forall|i: int| 0 <= i < a.len() implies a[i] == b[i] by {
                if i >= 1 {
                    assert(a[i] == a.skip(1)[i - 1]);
                    assert(b[i] == b.skip(1)[i - 1]);
                }
            }
            assert(a =~= b);
        }
    }
}

pub proof fn lemma_bytes_irrefl(a: Seq<u8>)
    ensures
        !bytes_lt(a, a),
    decreases a.len(),
{
    if a.len() > 0 {
        lemma_bytes_irrefl(a.skip(1));
    }
}

pub proof fn lemma_bytes_trans(a: Seq<u8>, b: Seq<u8>, c: Seq<u8>)
    requires
        bytes_lt(a, b),
        bytes_lt(b, c),
    ensures
        bytes_lt(a, c),
    decreases a.len() + b.len() + c.len(),
{
    if a.len() == 0 {
    } else if a[0] < b[0] {
        if b[0] <= c[0] {
        }
    } else {
        if b[0] < c[0] {
        } else {
            lemma_bytes_trans(a.skip(1), b.skip(1), c.skip(1));
        }
    }
}

/// Non-strict sortedness of a view sequence: every earlier element sorts
/// before or equals every later one.
pub open spec fn sorted_by<T: Ordered>(s: Seq<T::V>) -> bool {
    forall|i: int, j: int|
        0 <= i < j < s.len() ==> T::lt_v(#[trigger] s[i], #[trigger] s[j]) || s[i] == s[j]
}

/// Strict sortedness: no duplicates, ascending.
pub open spec fn strict_sorted_by<T: Ordered>(s: Seq<T::V>) -> bool {
    forall|i: int, j: int| 0 <= i < j < s.len() ==> T::lt_v(#[trigger] s[i], #[trigger] s[j])
}

/// Number of occurrences of `x` in `s`.
pub open spec fn count_in<V>(s: Seq<V>, x: V) -> int
    decreases s.len(),
{
    if s.len() == 0 {
        0
    } else {
        (if s[0] == x {
            1int
        } else {
            0int
        }) + count_in(s.skip(1), x)
    }
}

pub proof fn lemma_count_nonneg<V>(s: Seq<V>, x: V)
    ensures
        count_in(s, x) >= 0,
    decreases s.len(),
{
    if s.len() > 0 {
        lemma_count_nonneg(s.skip(1), x);
    }
}

pub proof fn lemma_count_append<V>(a: Seq<V>, b: Seq<V>, x: V)
    ensures
        count_in(a + b, x) == count_in(a, x) + count_in(b, x),
    decreases a.len(),
{
    if a.len() == 0 {
        assert(a + b =~= b);
    } else {
        assert((a + b).skip(1) =~= a.skip(1) + b);
        lemma_count_append(a.skip(1), b, x);
    }
}

pub proof fn lemma_count_contains<V>(s: Seq<V>, x: V)
    ensures
        count_in(s, x) > 0 <==> s.contains(x),
    decreases s.len(),
{
    lemma_count_nonneg(s, x);
    if s.len() > 0 {
        lemma_count_contains(s.skip(1), x);
        lemma_count_nonneg(s.skip(1), x);
        if s.contains(x) {
            let i = choose|i: int| 0 <= i < s.len() && s[i] == x;
            if i >= 1 {
                assert(s.skip(1)[i - 1] == x);
                assert(s.skip(1).contains(x));
            }
        }
        if s.skip(1).contains(x) {
            let i = choose|i: int| 0 <= i < s.skip(1).len() && s.skip(1)[i] == x;
            assert(s[i + 1] == x);
        }
    }
}

pub proof fn lemma_count_single<V>(v: V, x: V)
    ensures
        count_in(seq![v], x) == (if v == x {
            1int
        } else {
            0int
        }),
{
    assert(seq![v].skip(1) =~= Seq::<V>::empty());
    assert(count_in(Seq::<V>::empty(), x) == 0);
}

pub proof fn lemma_count_push<V>(s: Seq<V>, v: V, x: V)
    ensures
        count_in(s.push(v), x) == count_in(s, x) + (if v == x {
            1int
        } else {
            0int
        }),
{
    assert(s.push(v) =~= s + seq![v]);
    lemma_count_append(s, seq![v], x);
    lemma_count_single(v, x);
}

pub proof fn lemma_count_insert<V>(s: Seq<V>, j: int, v: V, x: V)
    requires
        0 <= j <= s.len(),
    ensures
        count_in(s.insert(j, v), x) == count_in(s, x) + (if v == x {
            1int
        } else {
            0int
        }),
{
    assert(s.insert(j, v) =~= s.take(j) + (seq![v] + s.skip(j)));
    assert(s =~= s.take(j) + s.skip(j));
    lemma_count_append(s.take(j), seq![v] + s.skip(j), x);
    lemma_count_append(seq![v], s.skip(j), x);
    lemma_count_append(s.take(j), s.skip(j), x);
    lemma_count_single(v, x);
}

/// Sort a vector ascending under the order of `T`, preserving element counts.
pub fn sort_items<T: Ordered>(v: Vec<T>) -> (r: Vec<T>)
    ensures
        sorted_by::<T>(views_of(r@)),
        forall|x: T::V| #[trigger] count_in(views_of(r@), x) == count_in(views_of(v@), x),
        r@.len() == v@.len(),
{
    let ghost all = views_of(v@);
    let mut out: Vec<T> = Vec::new();
    let mut i: usize = 0;
    while i < v.len()
        invariant
            0 <= i <= v.len(),
            sorted_by::<T>(views_of(out@)),
            forall|x: T::V| #[trigger] count_in(views_of(out@), x) == count_in(
                views_of(v@.take(i as int)),
                x,
            ),
            out@.len() == i,
        decreases v.len() - i,
    {
        let x = v[i].dup();
        let ghost xv = x@;
        let mut j: usize = 0;
        while j < out.len() && !x.lt(&out[j])
            invariant
                0 <= j <= out.len(),
                forall|k: int| 0 <= k < j ==> !T::lt_v(xv, #[trigger] views_of(out@)[k]),
                x@ == xv,
            decreases out.len() - j,
        {
            j += 1;
        }
        let ghost oldviews = views_of(out@);
        out.insert(j, x);
        proof {
            let newviews = views_of(out@);
            assert(newviews =~= oldviews.insert(j as int, xv));
            // sortedness of the new sequence
            assert forall|p: int, q: int| 0 <= p < q < newviews.len() implies T::lt_v(
                #[trigger] newviews[p],
                #[trigger] newviews[q],
            ) || newviews[p] == newviews[q] by {
                let jj = j as int;
                if p < jj && q < jj {
                    assert(newviews[p] == oldviews[p]);
                    assert(newviews[q] == oldviews[q]);
                } else if p < jj && q == jj {
                    assert(newviews[p] == oldviews[p]);
                    assert(newviews[q] == xv);
                    T::lemma_connex(oldviews[p], xv);
                } else if p < jj && q > jj {
                    assert(newviews[p] == oldviews[p]);
                    assert(newviews[q] == oldviews[q - 1]);
                } else if p == jj && q > jj {
                    assert(newviews[p] == xv);
                    assert(newviews[q] == oldviews[q - 1]);
                    // xv < out[j] <= out[q-1]
                    assert(T::lt_v(xv, oldviews[jj]));
                    if q - 1 > jj {
                        if oldviews[jj] == oldviews[q - 1] {
                        } else {
                            T::lemma_trans(xv, oldviews[jj], oldviews[q - 1]);
                        }
                    }
                } else if p > jj && q > jj {
                    assert(newviews[p] == oldviews[p - 1]);
                    assert(newviews[q] == oldviews[q - 1]);
                }
            }
            // counts
            assert forall|x0: T::V| #[trigger] count_in(newviews, x0) == count_in(
                views_of(v@.take(i as int + 1)),
                x0,
            ) by {
                lemma_count_insert(oldviews, j as int, xv, x0);
                let pref = views_of(v@.take(i as int));
                assert(views_of(v@.take(i as int + 1)) =~= pref.push(xv));
                lemma_count_push(pref, xv, x0);
                assert(count_in(oldviews, x0) == count_in(pref, x0));
            }
        }
        i += 1;
    }
    proof {
        assert(v@.take(v@.len() as int) =~= v@);
    }
    out
}

/// Remove duplicates from a sorted vector, keeping one representative of each
/// run of equal elements.  The result is strictly sorted and contains exactly
/// the values of the input.
pub fn dedup_sorted<T: Ordered>(v: &Vec<T>) -> (r: Vec<T>)
    requires
        sorted_by::<T>(views_of(v@)),
    ensures
        strict_sorted_by::<T>(views_of(r@)),
        forall|x: T::V| #[trigger] views_of(r@).contains(x) <==> views_of(v@).contains(x),
{
    let mut out: Vec<T> = Vec::new();
    let mut i: usize = 0;
    while i < v.len()
        invariant
            0 <= i <= v.len(),
            sorted_by::<T>(views_of(v@)),
            strict_sorted_by::<T>(views_of(out@)),
            (i == 0) == (out@.len() == 0),
            i > 0 ==> out@.len() > 0 && views_of(out@).last() == views_of(v@)[i - 1],
            forall|x: T::V| #[trigger] views_of(out@).contains(x) <==> views_of(
                v@.take(i as int),
            ).contains(x),
        decreases v.len() - i,
    {
        let ghost inviews = views_of(v@);
        let ghost oldviews = views_of(out@);
        let xv_in: Ghost<T::V> = Ghost(views_of(v@)[i as int]);
        let push_it: bool = if out.len() == 0 {
            true
        } else {
            let last_idx = out.len() - 1;
            out[last_idx].lt(&v[i])
        };
        if push_it {
            let x = v[i].dup();
            out.push(x);
            proof {
                let newviews = views_of(out@);
                assert(newviews =~= oldviews.push(inviews[i as int]));
                assert forall|p: int, q: int| 0 <= p < q < newviews.len() implies T::lt_v(
                    #[trigger] newviews[p],
                    #[trigger] newviews[q],
                ) by {
                    if q == newviews.len() - 1 && oldviews.len() > 0 {
                        if p < oldviews.len() - 1 {
                            T::lemma_trans(
                                oldviews[p],
                                oldviews[oldviews.len() - 1],
                                inviews[i as int],
                            );
                        }
                    }
                }
                assert forall|x: T::V| #[trigger] newviews.contains(x) <==> views_of(
                    v@.take(i as int + 1),
                ).contains(x) by {
                    let pref1 = views_of(v@.take(i as int + 1));
                    let pref0 = views_of(v@.take(i as int));
                    assert(pref1 =~= pref0.push(inviews[i as int]));
                    if newviews.contains(x) {
                        let k = choose|k: int| 0 <= k < newviews.len() && newviews[k] == x;
                        if k < oldviews.len() {
                            assert(oldviews[k] == x);
                            assert(oldviews.contains(x));
                            assert(pref0.contains(x));
                            let m = choose|m: int| 0 <= m < pref0.len() && pref0[m] == x;
                            assert(pref1[m] == x);
                            assert(pref1.contains(x));
                        } else {
                            assert(pref1[pref1.len() - 1] == x);
                            assert(pref1.contains(x));
                        }
                    }
                    if pref1.contains(x) {
                        let k = choose|k: int| 0 <= k < pref1.len() && pref1[k] == x;
                        if k < pref1.len() - 1 {
                            assert(pref0[k] == x);
                            assert(pref0.contains(x));
                            assert(oldviews.contains(x));
                            let m = choose|m: int| 0 <= m < oldviews.len() && oldviews[m] == x;
                            assert(newviews[m] == x);
                            assert(newviews.contains(x));
                        } else {
                            assert(newviews[newviews.len() - 1] == x);
                            assert(newviews.contains(x));
                        }
                    }
                }
            }
        } else {
            proof {
                // the current element equals the last kept one
                let last = oldviews[oldviews.len() - 1];
                assert(last == inviews[i - 1]);
                if i > 0 {
                    assert(T::lt_v(inviews[i - 1], inviews[i as int]) || inviews[i - 1]
                        == inviews[i as int]);
                }
                assert(!T::lt_v(last, inviews[i as int]));
                assert(last == inviews[i as int]);
                assert forall|x: T::V| #[trigger] views_of(out@).contains(x) <==> views_of(
                    v@.take(i as int + 1),
                ).contains(x) by {
                    let pref1 = views_of(v@.take(i as int + 1));
                    let pref0 = views_of(v@.take(i as int));
                    assert(pref1 =~= pref0.push(inviews[i as int]));
                    if pref1.contains(x) {
                        let k = choose|k: int| 0 <= k < pref1.len() && pref1[k] == x;
                        if k == pref1.len() - 1 {
                            assert(x == last);
                            assert(oldviews[oldviews.len() - 1] == x);
                            assert(oldviews.contains(x));
                        } else {
                            assert(pref0[k] == x);
                            assert(pref0.contains(x));
                            assert(oldviews.contains(x));
                        }
                    }
                    if oldviews.contains(x) {
                        assert(pref0.contains(x));
                        let k = choose|k: int| 0 <= k < pref0.len() && pref0[k] == x;
                        assert(pref1[k] == x);
                        assert(pref1.contains(x));
                    }
                }
            }
        }
        i += 1;
    }
    proof {
        assert(v@.take(v@.len() as int) =~= v@);
    }
    out
}

/// In a sorted sequence, an element strictly below the first element does not
/// occur.
pub proof fn lemma_sorted_lower_bound<T: Ordered>(s: Seq<T::V>, x: T::V)
    requires
        sorted_by::<T>(s),
        s.len() > 0,
        T::lt_v(x, s[0]),
    ensures
        !s.contains(x),
{
    if s.contains(x) {
        let i = choose|i: int| 0 <= i < s.len() && s[i] == x;
        if i == 0 {
            T::lemma_irrefl(s[0]);
        } else {
            assert(T::lt_v(s[0], s[i]) || s[0] == s[i]);
            T::lemma_trans(x, s[0], s[i]);
            T::lemma_irrefl(s[i]);
        }
    }
}

/// Membership in a non-empty sequence splits into head and tail.
pub proof fn lemma_contains_head<V>(s: Seq<V>, x: V)
    requires
        s.len() > 0,
    ensures
        s.contains(x) <==> (x == s[0] || s.skip(1).contains(x)),
{
    if s.contains(x) {
        let i = choose|i: int| 0 <= i < s.len() && s[i] == x;
        if i >= 1 {
            assert(s.skip(1)[i - 1] == x);
            assert(s.skip(1).contains(x));
        }
    }
    if s.skip(1).contains(x) {
        let i = choose|i: int| 0 <= i < s.skip(1).len() && s.skip(1)[i] == x;
        assert(s[i + 1] == x);
    }
}

/// Membership in a cons-shaped concatenation.
pub proof fn lemma_contains_cons<V>(e: V, t: Seq<V>, y: V)
    ensures
        (seq![e] + t).contains(y) <==> (y == e || t.contains(y)),
{
    let s = seq![e] + t;
    assert(s[0] == e);
    assert(s.skip(1) =~= t);
    lemma_contains_head(s, y);
}

/// In a strictly sorted sequence the head does not recur, and the tail is
/// strictly sorted.
pub proof fn lemma_strict_tail<T: Ordered>(s: Seq<T::V>)
    requires
        strict_sorted_by::<T>(s),
        s.len() > 0,
    ensures
        strict_sorted_by::<T>(s.skip(1)),
        !s.skip(1).contains(s[0]),
{
    assert forall|i: int, j: int| 0 <= i < j < s.skip(1).len() implies T::lt_v(
        #[trigger] s.skip(1)[i],
        #[trigger] s.skip(1)[j],
    ) by {
        assert(s.skip(1)[i] == s[i + 1]);
        assert(s.skip(1)[j] == s[j + 1]);
    }
    if s.skip(1).contains(s[0]) {
        let i = choose|i: int| 0 <= i < s.skip(1).len() && s.skip(1)[i] == s[0];
        assert(s.skip(1)[i] == s[i + 1]);
        assert(T::lt_v(s[0], s[i + 1]));
        T::lemma_irrefl(s[0]);
    }
}

/// In a strictly sorted sequence, a value below the head does not occur.
pub proof fn lemma_strict_lower_bound<T: Ordered>(s: Seq<T::V>, x: T::V)
    requires
        strict_sorted_by::<T>(s),
        s.len() > 0,
        T::lt_v(x, s[0]),
    ensures
        !s.contains(x),
{
    lemma_strict_is_sorted::<T>(s);
    lemma_sorted_lower_bound::<T>(s, x);
}

/// Executable view equality derived from the order.
pub fn same_view<T: Ordered>(x: &T, y: &T) -> (r: bool)
    ensures
        r == (x@ == y@),
{
    let r = !x.lt(y) && !y.lt(x);
    proof {
        T::lemma_connex(x@, y@);
        T::lemma_irrefl(x@);
    }
    r
}

/// Views distribute over `push`.
pub proof fn lemma_views_push<T: View>(s: Seq<T>, x: T)
    ensures
        views_of(s.push(x)) == views_of(s).push(x@),
{
    assert(views_of(s.push(x)) =~= views_of(s).push(x@));
}

/// Copy a vector, preserving the element views in order.
pub fn dup_items<T: Ordered>(v: &Vec<T>) -> (r: Vec<T>)
    ensures
        views_of(r@) == views_of(v@),
        r@.len() == v@.len(),
{
    let mut out: Vec<T> = Vec::new();
    let mut i: usize = 0;
    while i < v.len()
        invariant
            0 <= i <= v@.len(),
            out@.len() == i,
            views_of(out@) =~= views_of(v@.take(i as int)),
        decreases v@.len() - i,
    {
        let x = v[i].dup();
        let ghost prev = views_of(out@);
        out.push(x);
        proof {
            lemma_views_push(out@.drop_last(), out@.last());
            assert(out@.drop_last().push(out@.last()) =~= out@);
            assert(views_of(out@) =~= prev.push(v@[i as int]@));
            assert(views_of(out@) =~= views_of(v@.take(i as int + 1)));
        }
        i += 1;
    }
    proof {
        assert(v@.take(v@.len() as int) =~= v@);
        assert(views_of(out@) =~= views_of(v@));
    }
    out
}

/// A strictly sorted sequence is sorted.
pub proof fn lemma_strict_is_sorted<T: Ordered>(s: Seq<T::V>)
    requires
        strict_sorted_by::<T>(s),
    ensures
        sorted_by::<T>(s),
{
}

} // verus!
