//! Stable sorting.

use crate::text;
use vstd::prelude::*;

verus! {

/// A type whose values are ranked, through a model, by a strict weak order:
/// some pairs may be level, and being level is transitive.
pub trait Ranked: Sized {
    type M;

    spec fn model(&self) -> Self::M;

    spec fn ahead(a: Self::M, b: Self::M) -> bool;

    proof fn ahead_transitive(a: Self::M, b: Self::M, c: Self::M)
        requires
            Self::ahead(a, b),
            Self::ahead(b, c),
        ensures
            Self::ahead(a, c),
    ;

    proof fn ahead_cotransitive(a: Self::M, b: Self::M, c: Self::M)
        requires
            !Self::ahead(a, b),
            !Self::ahead(b, c),
        ensures
            !Self::ahead(a, c),
    ;

    proof fn ahead_irreflexive(a: Self::M)
        ensures
            !Self::ahead(a, a),
    ;

    fn is_ahead(&self, other: &Self) -> (b: bool)
        ensures
            b == Self::ahead(self.model(), other.model()),
    ;
}

impl Ranked for String {
    type M = Seq<char>;

    open spec fn model(&self) -> Seq<char> {
        self@
    }

    open spec fn ahead(a: Seq<char>, b: Seq<char>) -> bool {
        text::before(a, b)
    }

    proof fn ahead_transitive(a: Seq<char>, b: Seq<char>, c: Seq<char>) {
        text::lemma_before_transitive(a, b, c);
    }

    proof fn ahead_cotransitive(a: Seq<char>, b: Seq<char>, c: Seq<char>) {
        text::lemma_before_cotransitive(a, b, c);
    }

    proof fn ahead_irreflexive(a: Seq<char>) {
        text::lemma_before_irreflexive(a);
    }

    fn is_ahead(&self, other: &String) -> (b: bool) {
        text::is_before(self.as_str(), other.as_str())
    }
}

/// The models of a list of values.
pub open spec fn models<T: Ranked>(items: Seq<T>) -> Seq<T::M> {
    items.map_values(|x: T| x.model())
}

/// `x` put among items that are already in order: behind every item that it
/// is not ahead of.
pub open spec fn placed<T: Ranked>(s: Seq<T::M>, x: T::M) -> Seq<T::M>
    decreases s.len(),
{
    if s.len() == 0 || !T::ahead(x, s.last()) {
        s.push(x)
    } else {
        placed::<T>(s.drop_last(), x).push(s.last())
    }
}

/// The items in order, level ones in the order in which they came.
pub open spec fn arranged<T: Ranked>(s: Seq<T::M>) -> Seq<T::M>
    decreases s.len(),
{
    if s.len() == 0 {
        s
    } else {
        placed::<T>(arranged::<T>(s.drop_last()), s.last())
    }
}

/// No item stands behind one that it is ahead of.
pub open spec fn in_order<T: Ranked>(s: Seq<T::M>) -> bool {
    forall|i: int, j: int| 0 <= i < j < s.len() ==> !T::ahead(#[trigger] s[j], #[trigger] s[i])
}

proof fn lemma_placed_at<T: Ranked>(s: Seq<T::M>, x: T::M, at: int)
    requires
        0 <= at <= s.len(),
        forall|i: int| 0 <= i < at ==> !T::ahead(x, #[trigger] s[i]),
        forall|i: int| at <= i < s.len() ==> T::ahead(x, #[trigger] s[i]),
    ensures
        placed::<T>(s, x) == s.insert(at, x),
    decreases s.len(),
{
    if s.len() == at {
        assert(s.len() > 0 ==> !T::ahead(x, s[s.len() - 1]));
        assert(s.insert(at, x) =~= s.push(x));
    } else {
        assert(T::ahead(x, s[s.len() - 1]));
        lemma_placed_at::<T>(s.drop_last(), x, at);
        assert(s.insert(at, x) =~= s.drop_last().insert(at, x).push(s.last()));
    }
}

/// Putting one more item among ordered ones keeps them in order and adds
/// nothing else.
pub proof fn lemma_placed<T: Ranked>(s: Seq<T::M>, x: T::M)
    requires
        in_order::<T>(s),
    ensures
        in_order::<T>(placed::<T>(s, x)),
        placed::<T>(s, x).to_multiset() == s.to_multiset().insert(x),
        placed::<T>(s, x).len() == s.len() + 1,
        forall|i: int|
            0 <= i < placed::<T>(s, x).len() ==> #[trigger] placed::<T>(s, x)[i] == x || exists|j: int|
                0 <= j < s.len() && s[j] == placed::<T>(s, x)[i],
    decreases s.len(),
{
    broadcast use vstd::seq_lib::group_to_multiset_ensures;

    if s.len() == 0 || !T::ahead(x, s.last()) {
        let r = s.push(x);
        assert forall|i: int, j: int| 0 <= i < j < r.len() implies !T::ahead(
            #[trigger] r[j],
            #[trigger] r[i],
        ) by {
            if j == s.len() && i < s.len() - 1 {
                T::ahead_cotransitive(x, s.last(), s[i]);
            }
        }
    } else {
        let front = s.drop_last();
        lemma_placed::<T>(front, x);
        let p = placed::<T>(front, x);
        let r = p.push(s.last());
        assert forall|i: int, j: int| 0 <= i < j < r.len() implies !T::ahead(
            #[trigger] r[j],
            #[trigger] r[i],
        ) by {
            if j == p.len() {
                if p[i] == x {
                    if T::ahead(s.last(), x) {
                        T::ahead_transitive(x, s.last(), x);
                        T::ahead_irreflexive(x);
                    }
                } else {
                    let k = choose|k: int| 0 <= k < front.len() && front[k] == p[i];
                    assert(s[k] == r[i]);
                    assert(s[s.len() - 1] == s.last());
                }
            }
        }
        assert(s =~= front.push(s.last()));
        assert(r.to_multiset() =~= s.to_multiset().insert(x));
        assert forall|i: int| 0 <= i < r.len() implies #[trigger] r[i] == x || exists|j: int|
            0 <= j < s.len() && s[j] == r[i] by {
            if i == p.len() {
                assert(s[s.len() - 1] == r[i]);
            } else if p[i] != x {
                let k = choose|k: int| 0 <= k < front.len() && front[k] == p[i];
                assert(s[k] == r[i]);
            }
        }
    }
}

/// Sorting gives the same items, in order.
pub proof fn lemma_arranged<T: Ranked>(s: Seq<T::M>)
    ensures
        in_order::<T>(arranged::<T>(s)),
        arranged::<T>(s).to_multiset() == s.to_multiset(),
        arranged::<T>(s).len() == s.len(),
    decreases s.len(),
{
    broadcast use vstd::seq_lib::group_to_multiset_ensures;

    if s.len() > 0 {
        lemma_arranged::<T>(s.drop_last());
        lemma_placed::<T>(arranged::<T>(s.drop_last()), s.last());
        assert(s =~= s.drop_last().push(s.last()));
    }
}

/// What a sorted list holds is what the list held.
pub proof fn lemma_arranged_contains<T: Ranked>(s: Seq<T::M>, x: T::M)
    ensures
        arranged::<T>(s).contains(x) == s.contains(x),
{
    broadcast use vstd::seq_lib::group_to_multiset_ensures;

    lemma_arranged::<T>(s);
    assert(arranged::<T>(s).contains(x) <==> arranged::<T>(s).to_multiset().count(x) > 0);
    assert(s.contains(x) <==> s.to_multiset().count(x) > 0);
}

proof fn lemma_placed_filter<T: Ranked>(s: Seq<T::M>, x: T::M, keep: spec_fn(T::M) -> bool)
    requires
        in_order::<T>(s),
    ensures
        placed::<T>(s, x).filter(keep) == if keep(x) {
            placed::<T>(s.filter(keep), x)
        } else {
            s.filter(keep)
        },
    decreases s.len(),
{
    broadcast use Seq::lemma_filter_push;

    if s.len() == 0 || !T::ahead(x, s.last()) {
        let kept = s.filter(keep);
        if kept.len() > 0 {
            let y = kept.last();
            assert(kept.contains(y));
            s.lemma_filter_contains_rev(keep, y);
            let i = choose|i: int| 0 <= i < s.len() && s[i] == y;
            if i < s.len() - 1 {
                assert(!T::ahead(s[s.len() - 1], s[i]));
                T::ahead_cotransitive(x, s.last(), y);
            }
        }
    } else {
        let front = s.drop_last();
        assert(s =~= front.push(s.last()));
        lemma_placed_filter::<T>(front, x, keep);
        let kept = front.filter(keep);
        if keep(s.last()) {
            assert(kept.push(s.last()).drop_last() =~= kept);
        }
    }
}

/// Leaving items out before or after sorting comes to the same.
pub proof fn lemma_arranged_filter<T: Ranked>(s: Seq<T::M>, keep: spec_fn(T::M) -> bool)
    ensures
        arranged::<T>(s).filter(keep) == arranged::<T>(s.filter(keep)),
    decreases s.len(),
{
    broadcast use Seq::lemma_filter_push;

    if s.len() > 0 {
        let front = s.drop_last();
        assert(s =~= front.push(s.last()));
        lemma_arranged_filter::<T>(front, keep);
        lemma_arranged::<T>(front);
        lemma_placed_filter::<T>(arranged::<T>(front), s.last(), keep);
        if keep(s.last()) {
            let kept = front.filter(keep);
            assert(kept.push(s.last()).drop_last() =~= kept);
        }
    }
}

/// Where `x` goes among ordered items.
fn slot<T: Ranked>(items: &Vec<T>, x: &T) -> (at: usize)
    requires
        in_order::<T>(models(items@)),
    ensures
        at <= items@.len(),
        forall|i: int| 0 <= i < at ==> !T::ahead(x.model(), #[trigger] models(items@)[i]),
        forall|i: int| at <= i < items@.len() ==> T::ahead(x.model(), #[trigger] models(items@)[i]),
{
    let ghost ms = models(items@);
    let ghost m = x.model();
    let mut lo: usize = 0;
    let mut hi: usize = items.len();
    while lo < hi
        invariant
            lo <= hi <= items@.len(),
            ms == models(items@),
            m == x.model(),
            in_order::<T>(ms),
            forall|i: int| 0 <= i < lo ==> !T::ahead(m, #[trigger] ms[i]),
            forall|i: int| hi <= i < ms.len() ==> T::ahead(m, #[trigger] ms[i]),
        decreases hi - lo,
    {
        let mid: usize = lo + (hi - lo) / 2;
        assert(ms[mid as int] == items@[mid as int].model());
        if x.is_ahead(&items[mid]) {
            proof {
                assert forall|i: int| mid <= i < ms.len() implies T::ahead(m, #[trigger] ms[i]) by {
                    if i > mid && !T::ahead(m, ms[i]) {
                        T::ahead_cotransitive(m, ms[i], ms[mid as int]);
                    }
                }
            }
            hi = mid;
        } else {
            proof {
                assert forall|i: int| 0 <= i <= mid implies !T::ahead(m, #[trigger] ms[i]) by {
                    if i < mid {
                        T::ahead_cotransitive(m, ms[mid as int], ms[i]);
                    }
                }
            }
            lo = mid + 1;
        }
    }
    lo
}

/// Items that are in order stay as they are.
pub proof fn lemma_arranged_in_order<T: Ranked>(s: Seq<T::M>)
    requires
        in_order::<T>(s),
    ensures
        arranged::<T>(s) == s,
    decreases s.len(),
{
    if s.len() > 0 {
        let less = s.drop_last();
        assert forall|i: int, j: int| 0 <= i < j < less.len() implies !T::ahead(
            #[trigger] less[j],
            #[trigger] less[i],
        ) by {
            assert(less[i] == s[i] && less[j] == s[j]);
        }
        lemma_arranged_in_order::<T>(less);
        if less.len() > 0 {
            assert(!T::ahead(s[s.len() - 1], s[s.len() - 2]));
            assert(less.last() == s[s.len() - 2]);
        }
        assert(less.push(s.last()) =~= s);
    }
}

/// Sort, keeping level items in the order in which they came.
pub fn arrange<T: Ranked>(items: Vec<T>) -> (out: Vec<T>)
    ensures
        models(out@) == arranged::<T>(models(items@)),
{
    let mut out: Vec<T> = Vec::new();
    let ghost all = models(items@);
    assert(models(out@) =~= all.take(0));
    for x in it: items
        invariant
            it.seq() == items@,
            all == models(items@),
            models(out@) == arranged::<T>(all.take(it.index() as int)),
    {
        let ghost n = it.index() as int;
        proof {
            lemma_arranged::<T>(all.take(n));
        }
        let at: usize = slot(&out, &x);
        let ghost had = models(out@);
        let ghost m = x.model();
        out.insert(at, x);
        proof {
            lemma_placed_at::<T>(had, m, at as int);
            assert(all.take(n + 1).drop_last() =~= all.take(n));
            assert(all.take(n + 1).last() == m);
            assert(models(out@) =~= had.insert(at as int, m));
        }
    }
    proof {
        assert(all.take(all.len() as int) =~= all);
    }
    out
}

/// Putting in order keeps what is equal as it stood: items none of which goes ahead
/// of another come out in the order in which they went in. The result is in order
/// and has each item as often as it was there.
pub proof fn law_equals_stay_as_they_stood<T: Ranked>(s: Seq<T::M>, keep: spec_fn(T::M) -> bool)
    requires
        forall|a: T::M, b: T::M| keep(a) && keep(b) ==> !#[trigger] T::ahead(a, b),
    ensures
        arranged::<T>(s).filter(keep) == s.filter(keep),
        in_order::<T>(arranged::<T>(s)),
        arranged::<T>(s).to_multiset() == s.to_multiset(),
{
    broadcast use vstd::seq_lib::group_filter_ensures;

    lemma_arranged::<T>(s);
    lemma_arranged_filter::<T>(s, keep);
    let kept = s.filter(keep);
    assert forall|i: int, j: int| 0 <= i < j < kept.len() implies !T::ahead(
        #[trigger] kept[j],
        #[trigger] kept[i],
    ) by {
        assert(keep(kept[i]) && keep(kept[j]));
    }
    lemma_arranged_in_order::<T>(kept);
}

/// Texts are put in the order of a dictionary, with none left out and none added.
pub proof fn law_texts_are_put_in_order(s: Seq<Seq<char>>, i: int, j: int)
    requires
        0 <= i < j < s.len(),
    ensures
        arranged::<String>(s).len() == s.len(),
        arranged::<String>(s)[i] == arranged::<String>(s)[j] || text::before(
            arranged::<String>(s)[i],
            arranged::<String>(s)[j],
        ),
{
    lemma_arranged::<String>(s);
    let a = arranged::<String>(s)[i];
    let b = arranged::<String>(s)[j];
    text::lemma_before_total(a, b);
    assert(!String::ahead(b, a));
}

} // verus!
