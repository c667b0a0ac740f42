//! A verified insertion sort over a total preorder.

use vstd::prelude::*;
use vstd::multiset::Multiset;

use crate::text::{lex_le, lemma_lex_total, lemma_lex_trans};

verus! {

broadcast use vstd::seq_lib::group_to_multiset_ensures;

/// A total preorder on the values of a type, with an executable test.
pub trait Ranked: View + Sized {
    /// Whether `self` may come before `other`.
    spec fn rank_le(&self, other: &Self) -> bool;

    proof fn lemma_rank_total(a: &Self, b: &Self)
        ensures
            a.rank_le(b) || b.rank_le(a),
    ;

    proof fn lemma_rank_trans(a: &Self, b: &Self, c: &Self)
        requires
            a.rank_le(b),
            b.rank_le(c),
        ensures
            a.rank_le(c),
    ;

    /// Whether `self` may come before `other`.
    fn ranks_before(&self, other: &Self) -> (r: bool)
        ensures
            r == self.rank_le(other),
    ;
}

/// Every element may come before every later one.
pub open spec fn sorted_by_rank<T: Ranked>(s: Seq<T>) -> bool {
    forall|i: int, j: int| 0 <= i < j < s.len() ==> s[i].rank_le(&s[j])
}

/// The views of the elements of `s` that rank as `x` does, in order.
pub open spec fn same_rank<T: Ranked>(s: Seq<T>, x: T) -> Seq<T::V>
    decreases s.len(),
{
    if s.len() == 0 {
        Seq::empty()
    } else {
        let rest = same_rank(s.drop_first(), x);
        if s[0].rank_le(&x) && x.rank_le(&s[0]) {
            seq![s[0]@] + rest
        } else {
            rest
        }
    }
}

/// Filtering a non-empty sequence keeps its first element when it passes,
/// then filters the rest.
pub proof fn lemma_filter_front<A>(s: Seq<A>, p: spec_fn(A) -> bool)
    requires
        s.len() > 0,
    ensures
        s.filter(p) == (if p(s[0]) {
            seq![s[0]]
        } else {
            Seq::<A>::empty()
        }) + s.drop_first().filter(p),
{
    reveal(Seq::filter);
    let one = seq![s[0]];
    assert(s =~= one + s.drop_first());
    Seq::filter_distributes_over_add(one, s.drop_first(), p);
    assert(one.drop_last() =~= Seq::<A>::empty());
    assert(Seq::<A>::empty().filter(p) =~= Seq::<A>::empty());
    if p(s[0]) {
        assert(one.filter(p) =~= seq![s[0]]);
    } else {
        assert(one.filter(p) =~= Seq::<A>::empty());
    }
}

/// The elements that rank as `x` does are those of `s` that may come both
/// before and after `x`, in the order of `s`.
pub proof fn law_same_rank_is_filter<T: Ranked>(s: Seq<T>, x: T)
    ensures
        same_rank(s, x) == s.filter(|y: T| y.rank_le(&x) && x.rank_le(&y)).map_values(|y: T| y@),
    decreases s.len(),
{
    let p = |y: T| y.rank_le(&x) && x.rank_le(&y);
    if s.len() == 0 {
        reveal(Seq::filter);
        assert(s.filter(p).map_values(|y: T| y@) =~= Seq::<T::V>::empty());
    } else {
        law_same_rank_is_filter(s.drop_first(), x);
        lemma_filter_front(s, p);
        let head = if p(s[0]) {
            seq![s[0]]
        } else {
            Seq::<T>::empty()
        };
        assert((head + s.drop_first().filter(p)).map_values(|y: T| y@) =~= head.map_values(
            |y: T| y@,
        ) + s.drop_first().filter(p).map_values(|y: T| y@));
        assert(same_rank(s, x) =~= s.filter(p).map_values(|y: T| y@));
    }
}

/// Picking out the elements that rank as `x` does distributes over
/// concatenation.
pub proof fn lemma_same_rank_add<T: Ranked>(a: Seq<T>, b: Seq<T>, x: T)
    ensures
        same_rank(a + b, x) == same_rank(a, x) + same_rank(b, x),
    decreases a.len(),
{
    if a.len() == 0 {
        assert(a + b =~= b);
        assert(same_rank(a, x) + same_rank(b, x) =~= same_rank(b, x));
    } else {
        assert((a + b).drop_first() =~= a.drop_first() + b);
        assert((a + b)[0] == a[0]);
        lemma_same_rank_add(a.drop_first(), b, x);
        assert(same_rank(a, x) + same_rank(b, x) =~= same_rank(a + b, x));
    }
}

/// A sequence none of whose elements ranks as `x` does holds nothing that
/// ranks as `x`.
pub proof fn lemma_same_rank_none<T: Ranked>(b: Seq<T>, x: T)
    requires
        forall|i: int| 0 <= i < b.len() ==> !(b[i].rank_le(&x) && x.rank_le(&b[i])),
    ensures
        same_rank(b, x) == Seq::<T::V>::empty(),
    decreases b.len(),
{
    if b.len() > 0 {
        assert forall|i: int| 0 <= i < b.drop_first().len() implies !(b.drop_first()[i].rank_le(&x)
            && x.rank_le(&b.drop_first()[i])) by {
            assert(b.drop_first()[i] == b[i + 1]);
        }
        lemma_same_rank_none(b.drop_first(), x);
    }
}

/// The multiset of the views of the elements of `s`.
pub open spec fn view_bag<T: View>(s: Seq<T>) -> Multiset<T::V> {
    s.map_values(|t: T| t@).to_multiset()
}

impl Ranked for String {
    open spec fn rank_le(&self, other: &Self) -> bool {
        lex_le(self@, other@)
    }

    proof fn lemma_rank_total(a: &Self, b: &Self) {
        lemma_lex_total(a@, b@);
    }

    proof fn lemma_rank_trans(a: &Self, b: &Self, c: &Self) {
        lemma_lex_trans(a@, b@, c@);
    }

    fn ranks_before(&self, other: &Self) -> (r: bool) {
        crate::text::lex_le_exec(self.as_str(), other.as_str())
    }
}

proof fn lemma_bag_insert<T: View>(s: Seq<T>, p: int, x: T)
    requires
        0 <= p <= s.len(),
    ensures
        view_bag(s.insert(p, x)) == view_bag(s).insert(x@),
{
    assert(s.insert(p, x).map_values(|t: T| t@) =~= s.map_values(|t: T| t@).insert(p, x@));
}

proof fn lemma_bag_remove_first<T: View>(s: Seq<T>)
    requires
        s.len() > 0,
    ensures
        view_bag(s.remove(0)) == view_bag(s).remove(s[0]@),
{
    assert(s.remove(0).map_values(|t: T| t@) =~= s.map_values(|t: T| t@).remove(0));
}

/// The elements of `v`, rearranged so that each may come before the next;
/// elements that rank alike keep their order.
pub fn sort_by_rank<T: Ranked>(v: Vec<T>) -> (r: Vec<T>)
    ensures
        sorted_by_rank(r@),
        view_bag(r@) == view_bag(v@),
        r@.len() == v@.len(),
        forall|x: T| #[trigger] same_rank(r@, x) == same_rank(v@, x),
{
    broadcast use vstd::multiset::group_multiset_axioms;

    let mut rest = v;
    let mut out: Vec<T> = Vec::new();
    assert(view_bag(out@) =~= Multiset::empty());
    assert forall|y: T| #[trigger] same_rank(v@, y) == same_rank(out@, y) + same_rank(rest@, y) by {
        assert(same_rank(out@, y) + same_rank(rest@, y) =~= same_rank(rest@, y));
    }
    while rest.len() > 0
        invariant
            sorted_by_rank(out@),
            view_bag(out@).add(view_bag(rest@)) == view_bag(v@),
            out@.len() + rest@.len() == v@.len(),
            forall|y: T| #[trigger] same_rank(v@, y) == same_rank(out@, y) + same_rank(rest@, y),
        decreases rest.len(),
    {
        let ghost before = rest@;
        proof {
            lemma_bag_remove_first(rest@);
        }
        let x = rest.remove(0);
        let n = out.len();
        let mut p: usize = 0;
        while p < n && out[p].ranks_before(&x)
            invariant
                n == out@.len(),
                p <= n,
                forall|j: int| 0 <= j < p ==> out@[j].rank_le(&x),
            decreases n - p,
        {
            p = p + 1;
        }
        let ghost old_out = out@;
        proof {
            lemma_bag_insert(out@, p as int, x);
        }
        out.insert(p, x);
        proof {
            assert forall|i: int, j: int| 0 <= i < j < out@.len() implies out@[i].rank_le(&out@[j]) by {
                if p < n {
                    T::lemma_rank_total(&old_out[p as int], &x);
                }
                if j < p {
                } else if j == p {
                    assert(out@[i] == old_out[i]);
                } else if i < p {
                    assert(out@[j] == old_out[j - 1]);
                    assert(out@[i] == old_out[i]);
                    T::lemma_rank_trans(&old_out[i], &x, &old_out[p as int]);
                    if j - 1 > p {
                        T::lemma_rank_trans(&old_out[i], &old_out[p as int], &old_out[j - 1]);
                    }
                } else if i == p {
                    assert(out@[j] == old_out[j - 1]);
                    if j - 1 > p {
                        T::lemma_rank_trans(&x, &old_out[p as int], &old_out[j - 1]);
                    }
                } else {
                    assert(out@[j] == old_out[j - 1]);
                    assert(out@[i] == old_out[i - 1]);
                }
            }
            assert(rest@ =~= before.drop_first());
            assert(out@ =~= old_out.take(p as int) + seq![x] + old_out.skip(p as int));
            assert(old_out =~= old_out.take(p as int) + old_out.skip(p as int));
            assert forall|y: T| #[trigger] same_rank(v@, y) == same_rank(out@, y) + same_rank(rest@, y) by {
                let head = old_out.take(p as int);
                let tail = old_out.skip(p as int);
                lemma_same_rank_add(head + seq![x], tail, y);
                lemma_same_rank_add(head, seq![x], y);
                lemma_same_rank_add(head, tail, y);
                let one = seq![x];
                assert(one.drop_first() =~= Seq::<T>::empty());
                assert(same_rank(one.drop_first(), y) =~= Seq::<T::V>::empty());
                assert(before[0] == x);
                assert(before.drop_first() == rest@);
                let sx = same_rank(one, y);
                if x.rank_le(&y) && y.rank_le(&x) {
                    assert(sx =~= seq![x@]);
                    assert(same_rank(before, y) =~= seq![x@] + same_rank(rest@, y));
                    assert forall|i: int| 0 <= i < tail.len() implies !(tail[i].rank_le(&y)
                        && y.rank_le(&tail[i])) by {
                        assert(tail[i] == old_out[p + i]);
                        if tail[i].rank_le(&y) {
                            T::lemma_rank_trans(&tail[i], &y, &x);
                            if i > 0 {
                                T::lemma_rank_trans(&old_out[p as int], &tail[i], &x);
                            }
                        }
                    }
                    lemma_same_rank_none(tail, y);
                    assert(same_rank(out@, y) + same_rank(rest@, y) =~= same_rank(old_out, y)
                        + same_rank(before, y));
                } else {
                    assert(sx =~= Seq::<T::V>::empty());
                    assert(same_rank(before, y) == same_rank(rest@, y));
                    assert(same_rank(out@, y) =~= same_rank(old_out, y));
                }
            }
            let bm = before.map_values(|t: T| t@);
            assert(bm[0] == x@);
            assert(bm.contains(x@));
            assert(view_bag(before).count(x@) > 0);
            assert(view_bag(out@) == view_bag(old_out).insert(x@));
            assert(view_bag(rest@) == view_bag(before).remove(x@));
            assert(view_bag(out@).add(view_bag(rest@)) =~= view_bag(v@));
        }
    }
    out
}

} // verus!

verus! {

/// Each element of a rearrangement stands in the original.
pub proof fn lemma_bag_elem<T: View>(a: Seq<T>, b: Seq<T>, i: int)
    requires
        view_bag(a) == view_bag(b),
        0 <= i < b.len(),
    ensures
        exists|j: int| 0 <= j < a.len() && a[j]@ == b[i]@,
{
    let am = a.map_values(|t: T| t@);
    let bm = b.map_values(|t: T| t@);
    assert(bm[i] == b[i]@);
    assert(bm.contains(b[i]@));
    assert(bm.to_multiset().count(b[i]@) > 0);
    assert(am.to_multiset().count(b[i]@) > 0);
    assert(am.contains(b[i]@));
    let j = choose|j: int| 0 <= j < am.len() && am[j] == b[i]@;
    assert(a[j]@ == b[i]@);
}

/// A rearrangement of distinct views holds distinct views.
pub proof fn lemma_bag_distinct<T: View>(a: Seq<T>, b: Seq<T>)
    requires
        view_bag(a) == view_bag(b),
        a.map_values(|t: T| t@).no_duplicates(),
    ensures
        b.map_values(|t: T| t@).no_duplicates(),
{
    broadcast use vstd::multiset::group_multiset_axioms;

    let am = a.map_values(|t: T| t@);
    let bm = b.map_values(|t: T| t@);
    am.lemma_multiset_has_no_duplicates();
    assert forall|x: T::V| bm.to_multiset().contains(x) implies bm.to_multiset().count(x) == 1 by {
        assert(am.to_multiset().contains(x));
    }
    bm.lemma_multiset_has_no_duplicates_conv();
}

} // verus!
