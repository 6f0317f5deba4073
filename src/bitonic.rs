//! The bitonic sorting network: a builder that sorts the two halves of a
//! range in opposite directions, a merge that turns the resulting bitonic
//! range into a sorted one, and a threshold that decides when the two halves
//! of a split run in parallel.
use crate::network::{
    bitonic, built, half_cleaned, lemma_half_cleaned_is_pass, lemma_halves_bitonic,
    lemma_pass_splits, lemma_sorted_halves, merged, pair_step,
};
use crate::order::{
    accepts_all, flip, is_total_order, le, lemma_flip_total, lemma_natural_total, natural, orders,
    sorted_by, toward,
};
use std::cmp::Ordering;
use vstd::laws_cmp::obeys_cmp;
use vstd::prelude::*;
use vstd::std_specs::cmp::OrdSpec;

verus! {

broadcast use vstd::seq_lib::group_to_multiset_ensures;

/// The half size from which the default sorter runs the two halves of a
/// split in parallel.
pub const PARALLEL_THRESHOLD: usize = 4096;

/// `n` is a power of two.
pub open spec fn is_pow2(n: nat) -> bool
    decreases n,
{
    if n <= 1 {
        n == 1
    } else {
        n % 2 == 0 && is_pow2(n / 2)
    }
}

/// The lengths that the network sorts: zero, or a power of two.
pub open spec fn valid_len(n: nat) -> bool {
    n == 0 || is_pow2(n)
}

/// What a pass over a range owes: for every total order that the comparator
/// follows, exactly what the network makes of the range, which holds the same
/// elements and is sorted toward `up`. A merge pass owes the order only when
/// the range it was given was bitonic.
pub open spec fn stepped<T, F: Fn(&T, &T) -> Ordering>(
    f: &F,
    s: Seq<T>,
    t: Seq<T>,
    up: bool,
    merge: bool,
) -> bool {
    &&& t.len() == s.len()
    &&& t.to_multiset() == s.to_multiset()
    &&& forall|ord: spec_fn(T, T) -> Ordering|
        #[trigger] orders(f, ord) && (merge ==> bitonic(toward(ord, up), s)) ==> sorted_by(
            t,
            toward(ord, up),
        )
    &&& forall|ord: spec_fn(T, T) -> Ordering| #[trigger]
        orders(f, ord) ==> t == (if merge {
            merged(toward(ord, up), s)
        } else {
            built(ord, s, up)
        })
}

/// The pair at `k` and `k + m` of `s` became the pair at the same places of
/// `t` as a compare-and-swap toward `up` makes it, for every total order that
/// the comparator follows.
pub open spec fn pair_done<T, F: Fn(&T, &T) -> Ordering>(
    f: &F,
    up: bool,
    s: Seq<T>,
    t: Seq<T>,
    k: int,
    m: int,
) -> bool {
    forall|ord: spec_fn(T, T) -> Ordering| #[trigger]
        orders(f, ord) ==> pair_step(toward(ord, up), s[k], s[k + m], t[k], t[k + m])
}

/// The direction in which to sort.
#[derive(Debug, Clone, Copy, PartialEq, Eq, Structural)]
pub enum SortOrder {
    Ascending,
    Descending,
}

/// The order that a sort toward `order` establishes over the natural order.
pub open spec fn ordered_by<T: Ord>(order: SortOrder) -> spec_fn(T, T) -> Ordering {
    toward(natural::<T>(), order == SortOrder::Ascending)
}

/// `t` holds the elements of `s`, sorted by every total order that the
/// comparator follows, and is exactly what the network makes of `s` under it.
pub open spec fn sorted_with<T, F: Fn(&T, &T) -> Ordering>(f: &F, s: Seq<T>, t: Seq<T>) -> bool {
    &&& t.len() == s.len()
    &&& t.to_multiset() == s.to_multiset()
    &&& forall|ord: spec_fn(T, T) -> Ordering| #[trigger]
        orders(f, ord) ==> sorted_by(t, ord) && t == built(ord, s, true)
}

/// What a sort with a comparator owes: on a valid length, success and the
/// elements sorted; on any other, the length as the error and the slice as
/// it was.
pub open spec fn sort_by_outcome<T, F: Fn(&T, &T) -> Ordering>(
    f: &F,
    s: Seq<T>,
    t: Seq<T>,
    r: Result<(), SortError>,
) -> bool {
    if valid_len(s.len()) {
        r == Ok::<(), SortError>(()) && sorted_with(f, s, t)
    } else {
        r == Err::<(), SortError>(SortError::InvalidLength(s.len() as usize)) && t == s
    }
}

/// What a sort in the natural order owes: on a valid length, success and the
/// elements sorted toward `order`, exactly as the network places them; on any
/// other, the length as the error and the slice as it was.
pub open spec fn sort_outcome<T: Ord>(
    order: SortOrder,
    s: Seq<T>,
    t: Seq<T>,
    r: Result<(), SortError>,
) -> bool {
    if valid_len(s.len()) {
        &&& r == Ok::<(), SortError>(())
        &&& t.len() == s.len()
        &&& t.to_multiset() == s.to_multiset()
        &&& sorted_by(t, ordered_by::<T>(order))
        &&& t == built(ordered_by::<T>(order), s, true)
    } else {
        r == Err::<(), SortError>(SortError::InvalidLength(s.len() as usize)) && t == s
    }
}

/// Why a sort refused its input.
#[derive(Debug, Clone, Copy, PartialEq, Eq, Structural)]
pub enum SortError {
    /// The length, neither zero nor a power of two.
    InvalidLength(usize),
}

/// Sorts with a fixed threshold: a split whose halves hold at least
/// `threshold` elements runs them in parallel.
pub struct Sorter {
    threshold: usize,
}

/// Relies on `slice::swap`: it exchanges the elements at the two places, and
/// panics only when one of them is out of bounds.
pub assume_specification<E>[ <[E]>::swap ](v: &mut [E], a: usize, b: usize)
    requires
        a < old(v)@.len(),
        b < old(v)@.len(),
    ensures
        final(v)@ == old(v)@.update(a as int, old(v)@[b as int]).update(b as int, old(v)@[a as int]),
;

proof fn lemma_swap_multiset<T>(s: Seq<T>, a: int, b: int)
    requires
        0 <= a < s.len(),
        0 <= b < s.len(),
    ensures
        s.update(a, s[b]).update(b, s[a]).to_multiset() == s.to_multiset(),
{
    let s1 = s.update(a, s[b]);
    assert(s1.to_multiset() == s.to_multiset().insert(s[b]).remove(s[a]));
    assert(s1.update(b, s[a]).to_multiset() == s1.to_multiset().insert(s[a]).remove(s1[b]));
    assert(s1[b] == s[b]);
    assert(s.update(a, s[b]).update(b, s[a]).to_multiset() =~= s.to_multiset());
}

proof fn lemma_pow2_halves(n: nat)
    requires
        is_pow2(n),
        n > 1,
    ensures
        n % 2 == 0,
        is_pow2(n / 2),
{
}

/// `n` is zero or a power of two.
pub fn valid_length(n: usize) -> (r: bool)
    ensures
        r == valid_len(n as nat),
{
    if n == 0 {
        return true;
    }
    let mut m: usize = n;
    while m > 1 && m % 2 == 0
        invariant
            m >= 1,
            is_pow2(n as nat) == is_pow2(m as nat),
        decreases m,
    {
        m = m / 2;
    }
    m == 1
}

/// Moving elements within each of two ranges keeps every element of the first
/// allowed before every element of the second.
proof fn lemma_cross_kept<T>(
    ord: spec_fn(T, T) -> Ordering,
    a: Seq<T>,
    b: Seq<T>,
    a2: Seq<T>,
    b2: Seq<T>,
)
    requires
        a2.to_multiset() == a.to_multiset(),
        b2.to_multiset() == b.to_multiset(),
        forall|i: int, j: int| 0 <= i < a.len() && 0 <= j < b.len() ==> #[trigger] le(ord, a[i], b[j]),
    ensures
        forall|i: int, j: int| 0 <= i < a2.len() && 0 <= j < b2.len() ==> #[trigger] le(ord, a2[i], b2[j]),
{
    assert forall|i: int, j: int| 0 <= i < a2.len() && 0 <= j < b2.len() implies #[trigger] le(
        ord,
        a2[i],
        b2[j],
    ) by {
        assert(a2.contains(a2[i]));
        assert(b2.contains(b2[j]));
        assert(a.to_multiset().count(a2[i]) > 0);
        assert(b.to_multiset().count(b2[j]) > 0);
        assert(a.contains(a2[i]));
        assert(b.contains(b2[j]));
        let i2 = choose|i2: int| 0 <= i2 < a.len() && a[i2] == a2[i];
        let j2 = choose|j2: int| 0 <= j2 < b.len() && b[j2] == b2[j];
        assert(le(ord, a[i2], b[j2]));
    }
}

proof fn lemma_toward_total<T>(ord: spec_fn(T, T) -> Ordering, up: bool)
    requires
        is_total_order(ord),
    ensures
        is_total_order(toward(ord, up)),
{
    lemma_flip_total(ord);
}

/// Relies on rayon::join: it runs both closures, each to completion, and
/// returns only once both have returned.
#[verifier::external_body]
fn join_steps<T: Send, F: Sync + Fn(&T, &T) -> Ordering>(
    sorter: &Sorter,
    first: &mut [T],
    second: &mut [T],
    up_first: bool,
    up_second: bool,
    merge: bool,
    comparator: &F,
)
    requires
        valid_len(old(first)@.len()),
        valid_len(old(second)@.len()),
        accepts_all(comparator),
    ensures
        stepped(comparator, old(first)@, final(first)@, up_first, merge),
        stepped(comparator, old(second)@, final(second)@, up_second, merge),
{
    rayon::join(
        || sorter.step(first, up_first, merge, comparator),
        || sorter.step(second, up_second, merge, comparator),
    );
}

impl Sorter {
    /// The half size from which the two halves of a split run in parallel.
    pub closed spec fn threshold(&self) -> usize {
        self.threshold
    }

    /// A sorter that runs the halves of a split in parallel once each holds
    /// at least `threshold` elements: 1 runs every split in parallel, and a
    /// value above the length of the input runs none.
    pub fn new(threshold: usize) -> (r: Self)
        requires
            threshold >= 1,
        ensures
            r.threshold() == threshold,
    {
        Sorter { threshold }
    }

    /// Sorts `xs` in its natural order, toward `order`.
    pub fn sort<T: Ord + Send>(&self, xs: &mut [T], order: SortOrder) -> (r: Result<(), SortError>)
        requires
            obeys_cmp::<T>(),
        ensures
            sort_outcome(order, old(xs)@, final(xs)@, r),
    {
        proof {
            lemma_natural_total::<T>();
            lemma_flip_total(natural::<T>());
            reveal(vstd::laws_cmp::obeys_cmp_ord);
        }
        match order {
            SortOrder::Ascending => {
                let ascending = |a: &T, b: &T| -> (o: Ordering)
                    requires
                        T::obeys_cmp_spec(),
                    ensures
                        o == a.cmp_spec(b),
                    { a.cmp(b) };
                assert(orders(&ascending, natural::<T>()));
                self.sort_by(xs, &ascending)
            },
            SortOrder::Descending => {
                let descending = |a: &T, b: &T| -> (o: Ordering)
                    requires
                        T::obeys_cmp_spec(),
                    ensures
                        o == b.cmp_spec(a),
                    { b.cmp(a) };
                assert(orders(&descending, flip(natural::<T>())));
                self.sort_by(xs, &descending)
            },
        }
    }

    /// Sorts `xs` by `comparator`, which must be callable on any pair.
    pub fn sort_by<T: Send, F>(&self, xs: &mut [T], comparator: &F) -> (r: Result<(), SortError>)
        where
            F: Sync + Fn(&T, &T) -> Ordering,
        requires
            accepts_all(comparator),
        ensures
            sort_by_outcome(comparator, old(xs)@, final(xs)@, r),
    {
        if valid_length(xs.len()) {
            self.do_sort(xs, true, comparator);
            Ok(())
        } else {
            Err(SortError::InvalidLength(xs.len()))
        }
    }

    /// One pass over a range: the merge when `merge` holds, else the builder.
    fn step<T: Send, F>(&self, xs: &mut [T], up: bool, merge: bool, comparator: &F)
        where
            F: Sync + Fn(&T, &T) -> Ordering,
        requires
            valid_len(old(xs)@.len()),
            accepts_all(comparator),
        ensures
            stepped(comparator, old(xs)@, final(xs)@, up, merge),
    {
        if merge {
            self.sub_sort(xs, up, comparator)
        } else {
            self.do_sort(xs, up, comparator)
        }
    }

    /// Sorts a bitonic range toward `up`.
    fn sub_sort<T: Send, F>(&self, xs: &mut [T], up: bool, comparator: &F)
        where
            F: Sync + Fn(&T, &T) -> Ordering,
        requires
            valid_len(old(xs)@.len()),
            accepts_all(comparator),
        ensures
            stepped(comparator, old(xs)@, final(xs)@, up, true),
        decreases old(xs)@.len(),
    {
        let ghost s = xs@;
        if xs.len() > 1 {
            proof {
                lemma_pow2_halves(xs@.len());
            }
            Self::compare_and_swap(xs, up, comparator);
            let ghost t = xs@;
            let mid_point = xs.len() / 2;
            let ghost u1;
            let ghost u2;
            {
                let (first, second) = xs.split_at_mut(mid_point);
                if mid_point >= self.threshold {
                    join_steps(self, first, second, up, up, true, comparator);
                } else {
                    self.sub_sort(first, up, comparator);
                    self.sub_sort(second, up, comparator);
                }
                proof {
                    u1 = first@;
                    u2 = second@;
                    assert(stepped(comparator, t.subrange(0, mid_point as int), u1, up, true));
                    assert(stepped(comparator, t.subrange(mid_point as int, t.len() as int), u2, up, true));
                }
            }
            assert(xs@ == u1 + u2);
            proof {
                let m = mid_point as int;
                let u = xs@;
                let t1 = t.subrange(0, m);
                let t2 = t.subrange(m, 2 * m);
                assert(t =~= t1 + t2);
                assert(u1 =~= u.subrange(0, m));
                assert(u2 =~= u.subrange(m, 2 * m));
                vstd::seq_lib::lemma_multiset_commutative(t1, t2);
                vstd::seq_lib::lemma_multiset_commutative(u1, u2);
                assert forall|ord: spec_fn(T, T) -> Ordering|
                    #[trigger] orders(comparator, ord) && bitonic(toward(ord, up), s) implies sorted_by(
                    u,
                    toward(ord, up),
                ) by {
                    let o = toward(ord, up);
                    lemma_toward_total(ord, up);
                    lemma_pass_splits(o, s, t, m);
                    assert forall|i: int, j: int| 0 <= i < t1.len() && 0 <= j < t2.len() implies #[trigger] le(
                        o,
                        t1[i],
                        t2[j],
                    ) by {
                        assert(le(o, t[i], t[m + j]));
                    }
                    lemma_cross_kept(o, t1, t2, u1, u2);
                    assert forall|i: int, j: int| 0 <= i < m && 0 <= j < m implies #[trigger] le(
                        o,
                        u[i],
                        u[m + j],
                    ) by {
                        assert(le(o, u1[i], u2[j]));
                    }
                    lemma_sorted_halves(o, u, m);
                }
                assert forall|ord: spec_fn(T, T) -> Ordering| #[trigger] orders(comparator, ord) implies u
                    == merged(toward(ord, up), s) by {
                    let o = toward(ord, up);
                    lemma_half_cleaned_is_pass(o, s, t, m);
                    assert(u1 == merged(o, t1));
                    assert(u2 == merged(o, t2));
                }
            }
        }
    }

    /// Sorts any range of valid length toward `up`: the first half ascending,
    /// the second descending, then a merge of the bitonic whole.
    fn do_sort<T: Send, F>(&self, xs: &mut [T], up: bool, comparator: &F)
        where
            F: Sync + Fn(&T, &T) -> Ordering,
        requires
            valid_len(old(xs)@.len()),
            accepts_all(comparator),
        ensures
            stepped(comparator, old(xs)@, final(xs)@, up, false),
        decreases old(xs)@.len(),
    {
        let ghost s = xs@;
        if xs.len() > 1 {
            proof {
                lemma_pow2_halves(xs@.len());
            }
            let mid_point = xs.len() / 2;
            let ghost t1;
            let ghost t2;
            {
                let (first, second) = xs.split_at_mut(mid_point);
                if mid_point >= self.threshold {
                    join_steps(self, first, second, true, false, false, comparator);
                } else {
                    self.do_sort(first, true, comparator);
                    self.do_sort(second, false, comparator);
                }
                proof {
                    t1 = first@;
                    t2 = second@;
                    assert(stepped(comparator, s.subrange(0, mid_point as int), t1, true, false));
                    assert(stepped(comparator, s.subrange(mid_point as int, s.len() as int), t2, false, false));
                }
            }
            assert(xs@ == t1 + t2);
            let ghost t = xs@;
            proof {
                let m = mid_point as int;
                let s1 = s.subrange(0, m);
                let s2 = s.subrange(m, 2 * m);
                assert(s =~= s1 + s2);
                assert(t1 =~= t.subrange(0, m));
                assert(t2 =~= t.subrange(m, 2 * m));
                vstd::seq_lib::lemma_multiset_commutative(s1, s2);
                vstd::seq_lib::lemma_multiset_commutative(t1, t2);
                assert forall|ord: spec_fn(T, T) -> Ordering| #[trigger] orders(comparator, ord) implies bitonic(
                    toward(ord, up),
                    t,
                ) by {
                    assert(sorted_by(t1, toward(ord, true)));
                    assert(sorted_by(t2, toward(ord, false)));
                    lemma_halves_bitonic(ord, t, m);
                }
                assert forall|ord: spec_fn(T, T) -> Ordering| #[trigger] orders(comparator, ord) implies t
                    == built(ord, s1, true) + built(ord, s2, false) by {
                    assert(t1 == built(ord, s1, true));
                    assert(t2 == built(ord, s2, false));
                }
            }
            self.sub_sort(xs, up, comparator);
        }
    }

    /// Exchanges each element of the first half of `xs` with the one half a
    /// length further on when the two stand against the direction `up`.
    fn compare_and_swap<T, F>(xs: &mut [T], up: bool, comparator: &F)
        where
            F: Fn(&T, &T) -> Ordering,
        requires
            old(xs)@.len() % 2 == 0,
            accepts_all(comparator),
        ensures
            final(xs)@.len() == old(xs)@.len(),
            final(xs)@.to_multiset() == old(xs)@.to_multiset(),
            forall|ord: spec_fn(T, T) -> Ordering| #[trigger]
                orders(comparator, ord) ==> half_cleaned(
                    toward(ord, up),
                    old(xs)@,
                    final(xs)@,
                    (old(xs)@.len() / 2) as int,
                ),
    {
        let ghost s = xs@;
        let mid_point = xs.len() / 2;
        let mut i: usize = 0;
        while i < mid_point
            invariant
                mid_point == s.len() / 2,
                s.len() == 2 * mid_point,
                i <= mid_point,
                accepts_all(comparator),
                xs@.len() == s.len(),
                xs@.to_multiset() == s.to_multiset(),
                forall|k: int| 0 <= k < i ==> #[trigger] pair_done(comparator, up, s, xs@, k, mid_point as int),
                forall|k: int|
                    #![trigger xs@[k]]
                    #![trigger xs@[k + mid_point]]
                    i <= k < mid_point ==> xs@[k] == s[k] && xs@[k + mid_point] == s[k + mid_point],
            decreases mid_point - i,
        {
            let ghost before = xs@;
            let o = comparator(&xs[i], &xs[mid_point + i]);
            let out_of_order = match o {
                Ordering::Greater => up,
                Ordering::Less => !up,
                Ordering::Equal => false,
            };
            if out_of_order {
                xs.swap(i, mid_point + i);
                proof {
                    lemma_swap_multiset(before, i as int, (mid_point + i) as int);
                }
            }
            proof {
                assert forall|ord: spec_fn(T, T) -> Ordering| #[trigger] orders(comparator, ord) implies pair_step(
                    toward(ord, up),
                    s[i as int],
                    s[i + mid_point],
                    xs@[i as int],
                    xs@[i + mid_point],
                ) by {
                    lemma_flip_total(ord);
                    assert(o == ord(s[i as int], s[i + mid_point]));
                }
                assert(pair_done(comparator, up, s, xs@, i as int, mid_point as int));
                assert forall|k: int| #![trigger xs@[k]] i < k < mid_point implies xs@[k] == s[k] && xs@[k + mid_point] == s[k + mid_point] by {
                    assert(before[k] == s[k] && before[k + mid_point] == s[k + mid_point]);
                }
                assert forall|k: int| 0 <= k < i implies #[trigger] pair_done(comparator, up, s, xs@, k, mid_point as int) by {
                    assert(pair_done(comparator, up, s, before, k, mid_point as int));
                    assert(xs@[k] == before[k] && xs@[k + mid_point] == before[k + mid_point]);
                }
            }
            i = i + 1;
        }
        proof {
            assert forall|ord: spec_fn(T, T) -> Ordering| #[trigger] orders(comparator, ord) implies half_cleaned(
                toward(ord, up),
                s,
                xs@,
                (s.len() / 2) as int,
            ) by {
                assert forall|k: int| 0 <= k < mid_point implies #[trigger] pair_step(
                    toward(ord, up),
                    s[k],
                    s[k + mid_point],
                    xs@[k],
                    xs@[k + mid_point],
                ) by {
                    assert(pair_done(comparator, up, s, xs@, k, mid_point as int));
                }
            }
        }
    }
}

/// Sorts `xs` in its natural order, toward `order`, with the default
/// threshold.
pub fn sort<T: Ord + Send>(xs: &mut [T], order: SortOrder) -> (r: Result<(), SortError>)
    requires
        obeys_cmp::<T>(),
    ensures
        sort_outcome(order, old(xs)@, final(xs)@, r),
{
    Sorter::new(PARALLEL_THRESHOLD).sort(xs, order)
}

/// Sorts `xs` by `comparator`, with the default threshold.
pub fn sort_by<T: Send, F>(xs: &mut [T], comparator: &F) -> (r: Result<(), SortError>)
    where
        F: Sync + Fn(&T, &T) -> Ordering,
    requires
        accepts_all(comparator),
    ensures
        sort_by_outcome(comparator, old(xs)@, final(xs)@, r),
{
    Sorter::new(PARALLEL_THRESHOLD).sort_by(xs, comparator)
}

} // verus!
