//! Why the bitonic network sorts. For a pivot `v`, the elements of a
//! sequence that must stand after `v` are its image under `v`. A sequence is
//! bitonic when each of its images fills one cyclic arc of positions.
use crate::order::{
    flip, gt, is_total_order, le, lemma_flip_total, lemma_total_order_facts, sorted_by, toward,
};
use std::cmp::Ordering;
use vstd::prelude::*;

verus! {

/// Position `i` lies in the arc of length `k` that starts at `st`, read
/// cyclically over `n` positions.
pub open spec fn in_arc(i: int, st: int, k: int, n: int) -> bool {
    (st <= i && i < st + k) || (i + n < st + k)
}

/// A start for the arc over `m` positions that the arc starting at `st` over
/// `2 * m` positions folds onto.
pub open spec fn fold(st: int, m: int) -> int {
    if st < m {
        st
    } else if st < 2 * m {
        st - m
    } else {
        0
    }
}

/// Over positions `0 .. n`, `p` holds exactly on the arc `(st, k)`.
pub open spec fn is_arc(p: spec_fn(int) -> bool, n: int, st: int, k: int) -> bool {
    &&& 0 <= st <= n
    &&& 0 <= k <= n
    &&& forall|i: int| 0 <= i < n ==> (#[trigger] p(i) <==> in_arc(i, st, k, n))
}

/// The positions of `s` whose element must stand after `v`.
pub open spec fn image<T>(ord: spec_fn(T, T) -> Ordering, v: T, s: Seq<T>) -> spec_fn(int) -> bool {
    |i: int| gt(ord, s[i], v)
}

/// Over positions `0 .. n`, `p` holds exactly on some arc.
pub open spec fn arc_exists(p: spec_fn(int) -> bool, n: int) -> bool {
    exists|st: int, k: int| #[trigger] is_arc(p, n, st, k)
}

/// Under every pivot, the image of `s` is a single cyclic arc.
pub open spec fn bitonic<T>(ord: spec_fn(T, T) -> Ordering, s: Seq<T>) -> bool {
    forall|v: T| #[trigger] arc_exists(image(ord, v, s), s.len() as int)
}

/// `t` is what one compare-and-swap pass toward `ord` makes of `s`: each
/// element of the first half is paired with the one `m` places on, and the
/// pair is exchanged exactly when it is out of order.
pub open spec fn half_cleaned<T>(ord: spec_fn(T, T) -> Ordering, s: Seq<T>, t: Seq<T>, m: int) -> bool {
    &&& s.len() == 2 * m
    &&& t.len() == 2 * m
    &&& forall|i: int|
        0 <= i < m ==> #[trigger] pair_step(ord, s[i], s[i + m], t[i], t[i + m])
}

/// The pair `(x, y)` becomes `(a, b)`: exchanged when `x` must follow `y`.
pub open spec fn pair_step<T>(ord: spec_fn(T, T) -> Ordering, x: T, y: T, a: T, b: T) -> bool {
    if gt(ord, x, y) {
        a == y && b == x
    } else {
        a == x && b == y
    }
}

/// One compare-and-swap pass toward `ord` over `s`: each element of the first
/// half meets the one half a length on, and the one that must follow goes
/// behind.
pub open spec fn half_clean<T>(ord: spec_fn(T, T) -> Ordering, s: Seq<T>) -> Seq<T> {
    let m = (s.len() / 2) as int;
    Seq::new(
        s.len(),
        |k: int|
            if k < m {
                if gt(ord, s[k], s[k + m]) {
                    s[k + m]
                } else {
                    s[k]
                }
            } else {
                if gt(ord, s[k - m], s[k]) {
                    s[k - m]
                } else {
                    s[k]
                }
            },
    )
}

/// What the merge network makes of `s` toward `ord`: a pass, then the same
/// over each half.
pub open spec fn merged<T>(ord: spec_fn(T, T) -> Ordering, s: Seq<T>) -> Seq<T>
    decreases s.len(),
{
    if s.len() <= 1 {
        s
    } else {
        let m = (s.len() / 2) as int;
        let t = half_clean(ord, s);
        merged(ord, t.subrange(0, m)) + merged(ord, t.subrange(m, s.len() as int))
    }
}

/// What the whole network makes of `s` under `ord`, toward `up`: the first
/// half built ascending, the second descending, then the merge.
pub open spec fn built<T>(ord: spec_fn(T, T) -> Ordering, s: Seq<T>, up: bool) -> Seq<T>
    decreases s.len(),
{
    if s.len() <= 1 {
        s
    } else {
        let m = (s.len() / 2) as int;
        merged(
            toward(ord, up),
            built(ord, s.subrange(0, m), true) + built(ord, s.subrange(m, s.len() as int), false),
        )
    }
}

/// A sequence half-cleaned from `s` is the pass over `s`.
pub proof fn lemma_half_cleaned_is_pass<T>(ord: spec_fn(T, T) -> Ordering, s: Seq<T>, t: Seq<T>, m: int)
    requires
        half_cleaned(ord, s, t, m),
    ensures
        t == half_clean(ord, s),
{
    assert forall|k: int| 0 <= k < t.len() implies t[k] == half_clean(ord, s)[k] by {
        if k < m {
            assert(pair_step(ord, s[k], s[k + m], t[k], t[k + m]));
        } else {
            assert(pair_step(ord, s[k - m], s[k - m + m], t[k - m], t[k - m + m]));
        }
    }
    assert(t =~= half_clean(ord, s));
}

/// The first position in `lo .. hi` where `p` holds, or `hi`.
pub open spec fn first_true(p: spec_fn(int) -> bool, lo: int, hi: int) -> int
    decreases hi - lo,
{
    if lo >= hi {
        hi
    } else if p(lo) {
        lo
    } else {
        first_true(p, lo + 1, hi)
    }
}

pub proof fn lemma_first_true(p: spec_fn(int) -> bool, lo: int, hi: int)
    requires
        lo <= hi,
    ensures
        lo <= first_true(p, lo, hi) <= hi,
        forall|i: int| lo <= i < first_true(p, lo, hi) ==> !#[trigger] p(i),
        first_true(p, lo, hi) < hi ==> p(first_true(p, lo, hi)),
    decreases hi - lo,
{
    if lo < hi && !p(lo) {
        lemma_first_true(p, lo + 1, hi);
    }
}

/// An image that rises over the first half and falls over the second is an arc.
pub proof fn lemma_arc_of_mountain(p: spec_fn(int) -> bool, m: int)
    requires
        m >= 0,
        forall|i: int, j: int| #![trigger p(i), p(j)] 0 <= i < j < m && p(i) ==> p(j),
        forall|i: int, j: int| #![trigger p(i), p(j)] m <= i < j < 2 * m && p(j) ==> p(i),
    ensures
        arc_exists(p, 2 * m),
{
    let a = first_true(p, 0, m);
    let q = |i: int| !p(i);
    let c = first_true(q, m, 2 * m);
    lemma_first_true(p, 0, m);
    lemma_first_true(q, m, 2 * m);
    assert forall|i: int| 0 <= i < 2 * m implies (#[trigger] p(i) <==> in_arc(i, a, c - a, 2 * m)) by {
        if i < a {
            assert(!p(i));
        } else if i < m {
            assert(p(a));
        } else if i < c {
            assert(!q(i));
        } else {
            assert(q(c));
        }
    }
    assert(is_arc(p, 2 * m, a, c - a));
}

/// An image that falls over the first half and rises over the second is an arc.
pub proof fn lemma_arc_of_valley(p: spec_fn(int) -> bool, m: int)
    requires
        m >= 0,
        forall|i: int, j: int| #![trigger p(i), p(j)] 0 <= i < j < m && p(j) ==> p(i),
        forall|i: int, j: int| #![trigger p(i), p(j)] m <= i < j < 2 * m && p(i) ==> p(j),
    ensures
        arc_exists(p, 2 * m),
{
    let q = |i: int| !p(i);
    let a = first_true(q, 0, m);
    let c = first_true(p, m, 2 * m);
    lemma_first_true(q, 0, m);
    lemma_first_true(p, m, 2 * m);
    assert forall|i: int| 0 <= i < 2 * m implies (#[trigger] p(i) <==> in_arc(i, c, 2 * m - c + a, 2 * m)) by {
        if i < a {
            assert(!q(i));
        } else if i < m {
            assert(q(a));
        } else if i < c {
            assert(!p(i));
        } else {
            assert(p(c));
        }
    }
    assert(is_arc(p, 2 * m, c, 2 * m - c + a));
}

/// One pass of pairwise minimum and maximum over an arc of `2 * m` positions:
/// either the lower half is empty or the upper half is full, and the other
/// half is again an arc.
pub proof fn lemma_fold_arc(
    p: spec_fn(int) -> bool,
    lo: spec_fn(int) -> bool,
    hi: spec_fn(int) -> bool,
    m: int,
    st: int,
    k: int,
)
    requires
        m >= 1,
        is_arc(p, 2 * m, st, k),
        forall|i: int| 0 <= i < m ==> (#[trigger] lo(i) <==> (p(i) && p(i + m))),
        forall|i: int| 0 <= i < m ==> (#[trigger] hi(i) <==> (p(i) || p(i + m))),
    ensures
        k <= m ==> forall|i: int| 0 <= i < m ==> !#[trigger] lo(i),
        k <= m ==> is_arc(hi, m, fold(st, m), k),
        k > m ==> forall|i: int| 0 <= i < m ==> #[trigger] hi(i),
        k > m ==> is_arc(lo, m, fold(st, m), k - m),
{
    assert forall|i: int| 0 <= i < m implies {
        &&& k <= m ==> !lo(i)
        &&& k <= m ==> (hi(i) <==> in_arc(i, fold(st, m), k, m))
        &&& k > m ==> hi(i)
        &&& k > m ==> (lo(i) <==> in_arc(i, fold(st, m), k - m, m))
    } by {
        assert(p(i) <==> in_arc(i, st, k, 2 * m));
        assert(p(i + m) <==> in_arc(i + m, st, k, 2 * m));
    }
}

/// Under one pivot, a compare-and-swap pass maps the image of `s` to the
/// pairwise minimum and maximum of its two halves.
proof fn lemma_pass_image<T>(ord: spec_fn(T, T) -> Ordering, s: Seq<T>, t: Seq<T>, m: int, v: T)
    requires
        is_total_order(ord),
        m >= 1,
        half_cleaned(ord, s, t, m),
    ensures
        forall|i: int|
            0 <= i < m ==> (#[trigger] image(ord, v, t.subrange(0, m))(i) <==> (image(ord, v, s)(i)
                && image(ord, v, s)(i + m))),
        forall|i: int|
            0 <= i < m ==> (#[trigger] image(ord, v, t.subrange(m, 2 * m))(i) <==> (image(ord, v, s)(
                i,
            ) || image(ord, v, s)(i + m))),
{
    lemma_total_order_facts(ord);
    let lower = t.subrange(0, m);
    let upper = t.subrange(m, 2 * m);
    assert forall|i: int| 0 <= i < m implies {
        &&& (#[trigger] image(ord, v, lower)(i) <==> (image(ord, v, s)(i) && image(ord, v, s)(i + m)))
        &&& (image(ord, v, upper)(i) <==> (image(ord, v, s)(i) || image(ord, v, s)(i + m)))
    } by {
        assert(pair_step(ord, s[i], s[i + m], t[i], t[i + m]));
        assert(lower[i] == t[i]);
        assert(upper[i] == t[i + m]);
        if gt(ord, s[i], s[i + m]) {
            if gt(ord, s[i + m], v) {
                assert(gt(ord, s[i], v));
            }
        } else {
            assert(le(ord, s[i], s[i + m]));
            if gt(ord, s[i], v) {
                assert(gt(ord, s[i + m], v));
            }
        }
    }
    assert forall|i: int| 0 <= i < m implies (#[trigger] image(ord, v, upper)(i) <==> (image(ord, v, s)(i)
        || image(ord, v, s)(i + m))) by {
        assert(image(ord, v, lower)(i) <==> (image(ord, v, s)(i) && image(ord, v, s)(i + m)));
    }
}

/// Under one pivot, after a compare-and-swap pass over a bitonic sequence,
/// both halves are arcs, and either nothing in the first half or everything
/// in the second half must follow the pivot.
proof fn lemma_pass_pivot<T>(ord: spec_fn(T, T) -> Ordering, s: Seq<T>, t: Seq<T>, m: int, v: T)
    requires
        is_total_order(ord),
        m >= 1,
        half_cleaned(ord, s, t, m),
        bitonic(ord, s),
    ensures
        arc_exists(image(ord, v, t.subrange(0, m)), m),
        arc_exists(image(ord, v, t.subrange(m, 2 * m)), m),
        (forall|i: int| 0 <= i < m ==> !gt(ord, #[trigger] t[i], v)) || (forall|j: int|
            0 <= j < m ==> gt(ord, #[trigger] t[m + j], v)),
{
    let p = image(ord, v, s);
    let lo = image(ord, v, t.subrange(0, m));
    let hi = image(ord, v, t.subrange(m, 2 * m));
    assert(arc_exists(p, 2 * m));
    let (st, k) = choose|st: int, k: int| #[trigger] is_arc(p, 2 * m, st, k);
    lemma_pass_image(ord, s, t, m, v);
    lemma_fold_arc(p, lo, hi, m, st, k);
    if k <= m {
        assert(is_arc(lo, m, 0, 0));
        assert(is_arc(hi, m, fold(st, m), k));
        assert forall|i: int| 0 <= i < m implies !gt(ord, #[trigger] t[i], v) by {
            assert(!lo(i));
        }
    } else {
        assert(is_arc(hi, m, 0, m));
        assert(is_arc(lo, m, fold(st, m), k - m));
        assert forall|j: int| 0 <= j < m implies gt(ord, #[trigger] t[m + j], v) by {
            assert(hi(j));
        }
    }
}

/// One compare-and-swap pass over a bitonic sequence leaves two bitonic
/// halves, and no element of the first half must follow one of the second.
pub proof fn lemma_pass_splits<T>(ord: spec_fn(T, T) -> Ordering, s: Seq<T>, t: Seq<T>, m: int)
    requires
        is_total_order(ord),
        m >= 1,
        half_cleaned(ord, s, t, m),
        bitonic(ord, s),
    ensures
        bitonic(ord, t.subrange(0, m)),
        bitonic(ord, t.subrange(m, 2 * m)),
        forall|i: int, j: int| 0 <= i < m && 0 <= j < m ==> #[trigger] le(ord, t[i], t[m + j]),
{
    lemma_total_order_facts(ord);
    assert forall|v: T| #[trigger] arc_exists(image(ord, v, t.subrange(0, m)), m) by {
        lemma_pass_pivot(ord, s, t, m, v);
    }
    assert forall|v: T| #[trigger] arc_exists(image(ord, v, t.subrange(m, 2 * m)), m) by {
        lemma_pass_pivot(ord, s, t, m, v);
    }
    assert forall|i: int, j: int| 0 <= i < m && 0 <= j < m implies #[trigger] le(ord, t[i], t[m + j]) by {
        let v = t[m + j];
        lemma_pass_pivot(ord, s, t, m, v);
        if (forall|i: int| 0 <= i < m ==> !gt(ord, #[trigger] t[i], v)) {
            assert(!gt(ord, t[i], v));
        } else {
            assert(gt(ord, t[m + j], v));
        }
    }
}

/// Two sorted halves, with nothing in the first that must follow anything in
/// the second, make a sorted whole.
pub proof fn lemma_sorted_halves<T>(ord: spec_fn(T, T) -> Ordering, t: Seq<T>, m: int)
    requires
        t.len() == 2 * m,
        sorted_by(t.subrange(0, m), ord),
        sorted_by(t.subrange(m, 2 * m), ord),
        forall|i: int, j: int| 0 <= i < m && 0 <= j < m ==> #[trigger] le(ord, t[i], t[m + j]),
    ensures
        sorted_by(t, ord),
{
    assert forall|i: int, j: int| 0 <= i < j < t.len() implies #[trigger] le(ord, t[i], t[j]) by {
        if j < m {
            assert(le(ord, t.subrange(0, m)[i], t.subrange(0, m)[j]));
        } else if i >= m {
            assert(le(ord, t.subrange(m, 2 * m)[i - m], t.subrange(m, 2 * m)[j - m]));
        } else {
            assert(le(ord, t[i], t[m + (j - m)]));
        }
    }
}

/// A first half sorted toward `ord` followed by a second half sorted against
/// it is bitonic, toward `ord` and against it.
pub proof fn lemma_halves_bitonic<T>(ord: spec_fn(T, T) -> Ordering, s: Seq<T>, m: int)
    requires
        is_total_order(ord),
        m >= 0,
        s.len() == 2 * m,
        sorted_by(s.subrange(0, m), ord),
        sorted_by(s.subrange(m, 2 * m), flip(ord)),
    ensures
        bitonic(ord, s),
        bitonic(flip(ord), s),
{
    lemma_total_order_facts(ord);
    lemma_flip_total(ord);
    let first = s.subrange(0, m);
    let second = s.subrange(m, 2 * m);
    assert forall|i: int, j: int| 0 <= i < j < m implies le(ord, s[i], s[j]) by {
        assert(first[i] == s[i] && first[j] == s[j]);
        assert(le(ord, first[i], first[j]));
    }
    assert forall|i: int, j: int| m <= i < j < 2 * m implies le(ord, s[j], s[i]) by {
        assert(second[i - m] == s[i] && second[j - m] == s[j]);
        assert(le(flip(ord), second[i - m], second[j - m]));
    }
    assert forall|v: T| #[trigger] arc_exists(image(ord, v, s), s.len() as int) by {
        let p = image(ord, v, s);
        assert forall|i: int, j: int| #![trigger p(i), p(j)] 0 <= i < j < m && p(i) implies p(j) by {
            assert(le(ord, s[i], s[j]));
        }
        assert forall|i: int, j: int| #![trigger p(i), p(j)] m <= i < j < 2 * m && p(j) implies p(i) by {
            assert(le(ord, s[j], s[i]));
        }
        lemma_arc_of_mountain(p, m);
    }
    assert forall|v: T| #[trigger] arc_exists(image(flip(ord), v, s), s.len() as int) by {
        let p = image(flip(ord), v, s);
        assert forall|i: int, j: int| #![trigger p(i), p(j)] 0 <= i < j < m && p(j) implies p(i) by {
            assert(le(ord, s[i], s[j]));
            assert(gt(ord, v, s[j]));
        }
        assert forall|i: int, j: int| #![trigger p(i), p(j)] m <= i < j < 2 * m && p(i) implies p(j) by {
            assert(le(ord, s[j], s[i]));
            assert(gt(ord, v, s[i]));
        }
        lemma_arc_of_valley(p, m);
    }
}

} // verus!
