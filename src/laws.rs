//! What holds of several sorts together: sorting again changes nothing,
//! sorting ascending then descending reverses, and the threshold does not
//! change the result.
use crate::bitonic::{sort_by_outcome, sort_outcome, valid_len, SortOrder};
use crate::order::{
    flip, is_total_order, le, lemma_flip_total, lemma_natural_total, lemma_total_order_facts,
    natural, orders, sorted_by,
};
use std::cmp::Ordering;
use vstd::laws_cmp::obeys_cmp;
use vstd::prelude::*;

verus! {

broadcast use vstd::seq_lib::group_to_multiset_ensures;

/// Elements of `s` that `ord` finds equal are the same value.
pub open spec fn equal_means_same<T>(ord: spec_fn(T, T) -> Ordering, s: Seq<T>) -> bool {
    forall|i: int, j: int|
        0 <= i < s.len() && 0 <= j < s.len() && ord(s[i], s[j]) == Ordering::Equal ==> s[i] == s[j]
}

/// No two places of `s` hold elements that `ord` finds equal.
pub open spec fn all_distinct<T>(ord: spec_fn(T, T) -> Ordering, s: Seq<T>) -> bool {
    forall|i: int, j: int|
        0 <= i < s.len() && 0 <= j < s.len() && i != j ==> ord(s[i], s[j]) != Ordering::Equal
}

proof fn lemma_equal_means_same_moves<T>(ord: spec_fn(T, T) -> Ordering, s: Seq<T>, t: Seq<T>)
    requires
        equal_means_same(ord, s),
        t.to_multiset() == s.to_multiset(),
    ensures
        equal_means_same(ord, t),
{
    assert forall|i: int, j: int|
        0 <= i < t.len() && 0 <= j < t.len() && ord(t[i], t[j]) == Ordering::Equal implies t[i]
        == t[j] by {
        assert(t.contains(t[i]) && t.contains(t[j]));
        assert(s.to_multiset().count(t[i]) > 0 && s.to_multiset().count(t[j]) > 0);
        assert(s.contains(t[i]) && s.contains(t[j]));
        let p = choose|p: int| 0 <= p < s.len() && s[p] == t[i];
        let q = choose|q: int| 0 <= q < s.len() && s[q] == t[j];
        assert(ord(s[p], s[q]) == Ordering::Equal);
    }
}

/// Two sequences that hold the same elements, are both sorted by a total
/// order, and find equal only same values, are the same sequence.
proof fn lemma_sorted_same<T>(ord: spec_fn(T, T) -> Ordering, x: Seq<T>, y: Seq<T>)
    requires
        is_total_order(ord),
        sorted_by(x, ord),
        sorted_by(y, ord),
        x.to_multiset() == y.to_multiset(),
        equal_means_same(ord, x),
    ensures
        x == y,
    decreases x.len(),
{
    broadcast use vstd::multiset::group_multiset_axioms;

    lemma_total_order_facts(ord);
    assert(x.len() == x.to_multiset().len() && y.len() == y.to_multiset().len());
    if x.len() == 0 || y.len() == 0 {
        assert(x.len() == y.len());
        assert(x =~= y);
    } else {
        assert(x.contains(x[0]) && y.contains(y[0]));
        assert(y.to_multiset().count(x[0]) > 0);
        assert(x.to_multiset().count(y[0]) > 0);
        assert(x.contains(y[0]) && y.contains(x[0]));
        let i = choose|i: int| 0 <= i < x.len() && x[i] == y[0];
        let j = choose|j: int| 0 <= j < y.len() && y[j] == x[0];
        if i > 0 {
            assert(le(ord, x[0], x[i]));
        }
        if j > 0 {
            assert(le(ord, y[0], y[j]));
        }
        assert(ord(x[0], x[i]) == Ordering::Equal);
        assert(x[0] == y[0]);
        assert(x.drop_first() =~= x.remove(0));
        assert(y.drop_first() =~= y.remove(0));
        assert(x.drop_first().to_multiset() =~= x.to_multiset().remove(x[0]));
        assert(y.drop_first().to_multiset() =~= y.to_multiset().remove(y[0]));
        assert forall|a: int, b: int| 0 <= a < b < x.drop_first().len() implies #[trigger] le(
            ord,
            x.drop_first()[a],
            x.drop_first()[b],
        ) by {
            assert(le(ord, x[a + 1], x[b + 1]));
        }
        assert forall|a: int, b: int| 0 <= a < b < y.drop_first().len() implies #[trigger] le(
            ord,
            y.drop_first()[a],
            y.drop_first()[b],
        ) by {
            assert(le(ord, y[a + 1], y[b + 1]));
        }
        assert forall|a: int, b: int|
            0 <= a < x.drop_first().len() && 0 <= b < x.drop_first().len() && ord(
                x.drop_first()[a],
                x.drop_first()[b],
            ) == Ordering::Equal implies x.drop_first()[a] == x.drop_first()[b] by {
            assert(ord(x[a + 1], x[b + 1]) == Ordering::Equal);
        }
        lemma_sorted_same(ord, x.drop_first(), y.drop_first());
        assert forall|a: int| 0 <= a < x.len() implies x[a] == y[a] by {
            if a > 0 {
                assert(x[a] == x.drop_first()[a - 1]);
                assert(y[a] == y.drop_first()[a - 1]);
            }
        }
        assert(x =~= y);
    }
}

/// Sorting a second time toward the same direction changes nothing, where
/// elements that compare equal are the same value.
pub proof fn lemma_sort_twice<T: Ord>(
    order: SortOrder,
    s: Seq<T>,
    once: Seq<T>,
    twice: Seq<T>,
    r1: Result<(), crate::bitonic::SortError>,
    r2: Result<(), crate::bitonic::SortError>,
)
    requires
        obeys_cmp::<T>(),
        equal_means_same(natural::<T>(), s),
        sort_outcome(order, s, once, r1),
        sort_outcome(order, once, twice, r2),
    ensures
        twice == once,
        r2 == r1,
{
    lemma_natural_total::<T>();
    lemma_flip_total(natural::<T>());
    if valid_len(s.len()) {
        let ord = crate::bitonic::ordered_by::<T>(order);
        lemma_equal_means_same_moves(natural::<T>(), s, once);
        assert(equal_means_same(ord, once));
        lemma_sorted_same(ord, once, twice);
    }
}

/// Two sorts of the same input toward the same direction give the same
/// result, whatever the thresholds of the sorters that ran them.
pub proof fn lemma_same_result_any_threshold<T: Ord>(
    order: SortOrder,
    s: Seq<T>,
    t1: Seq<T>,
    t2: Seq<T>,
    r1: Result<(), crate::bitonic::SortError>,
    r2: Result<(), crate::bitonic::SortError>,
)
    requires
        sort_outcome(order, s, t1, r1),
        sort_outcome(order, s, t2, r2),
    ensures
        t1 == t2,
        r1 == r2,
{
}

/// Two sorts of the same input by a comparator that follows a total order
/// give the same result, whatever the thresholds of the sorters that ran them.
pub proof fn lemma_same_result_any_threshold_by<T, F: Fn(&T, &T) -> Ordering>(
    comparator: &F,
    ord: spec_fn(T, T) -> Ordering,
    s: Seq<T>,
    t1: Seq<T>,
    t2: Seq<T>,
    r1: Result<(), crate::bitonic::SortError>,
    r2: Result<(), crate::bitonic::SortError>,
)
    requires
        orders(comparator, ord),
        sort_by_outcome(comparator, s, t1, r1),
        sort_by_outcome(comparator, s, t2, r2),
    ensures
        t1 == t2,
        r1 == r2,
{
}

/// Sorting ascending and then descending gives the ascending result
/// reversed, for an input of valid length with no two elements equal.
pub proof fn lemma_descending_reverses<T: Ord>(
    s: Seq<T>,
    up: Seq<T>,
    down: Seq<T>,
    r1: Result<(), crate::bitonic::SortError>,
    r2: Result<(), crate::bitonic::SortError>,
)
    requires
        obeys_cmp::<T>(),
        valid_len(s.len()),
        all_distinct(natural::<T>(), s),
        sort_outcome(SortOrder::Ascending, s, up, r1),
        sort_outcome(SortOrder::Descending, up, down, r2),
    ensures
        down == up.reverse(),
{
    let ord = natural::<T>();
    lemma_natural_total::<T>();
    lemma_flip_total(ord);
    lemma_total_order_facts(ord);
    assert(equal_means_same(ord, s));
    lemma_equal_means_same_moves(ord, s, up);
    let rev = up.reverse();
    up.lemma_reverse_to_multiset();
    assert forall|i: int, j: int| 0 <= i < j < rev.len() implies #[trigger] le(flip(ord), rev[i], rev[j]) by {
        let n = up.len() as int;
        assert(le(ord, up[n - 1 - j], up[n - 1 - i]));
    }
    assert forall|i: int, j: int|
        0 <= i < rev.len() && 0 <= j < rev.len() && flip(ord)(rev[i], rev[j]) == Ordering::Equal implies rev[i]
        == rev[j] by {
        let n = up.len() as int;
        assert(ord(up[n - 1 - j], up[n - 1 - i]) == Ordering::Equal);
    }
    lemma_sorted_same(flip(ord), rev, down);
}

} // verus!
