//! Helpers around the sorter: a reproducible input and a sortedness check.
use crate::bitonic::{ordered_by, SortOrder};
use crate::order::{le, lemma_flip_total, lemma_natural_total, lemma_total_order_facts, natural, sorted_by};
use rand::{Rng, SeedableRng};
use std::cmp::Ordering;
use vstd::laws_cmp::obeys_cmp;
use vstd::prelude::*;
use vstd::std_specs::cmp::OrdSpec;

verus! {

/// `n` pseudo-random numbers, the same on every run.
///
/// Relies on rand's `Rng::sample_iter` over `Standard`, drawn from a
/// `Pcg64Mcg` seeded with zeros: its iterator never ends, so taking `n`
/// yields exactly `n` numbers.
#[verifier::external_body]
pub fn new_u32_vec(n: usize) -> (r: Vec<u32>)
    ensures
        r@.len() == n,
{
    let rng = rand_pcg::Pcg64Mcg::from_seed([0; 16]);
    rng.sample_iter(&rand::distributions::Standard).take(n).collect()
}

/// Whether each element of `xs` may stand before the next one toward `order`.
pub fn is_sorted<T: Ord>(xs: &[T], order: SortOrder) -> (r: bool)
    requires
        obeys_cmp::<T>(),
    ensures
        r == sorted_by(xs@, ordered_by::<T>(order)),
{
    let ghost ord = ordered_by::<T>(order);
    proof {
        lemma_natural_total::<T>();
        lemma_flip_total(natural::<T>());
        lemma_total_order_facts(ord);
        reveal(vstd::laws_cmp::obeys_cmp_ord);
    }
    let n = xs.len();
    if n < 2 {
        return true;
    }
    let mut i: usize = 0;
    while i + 1 < n
        invariant
            n == xs@.len(),
            n >= 2,
            i + 1 <= n,
            T::obeys_cmp_spec(),
            ord == ordered_by::<T>(order),
            crate::order::is_total_order(ord),
            sorted_by(xs@.subrange(0, i + 1), ord),
        decreases n - i,
    {
        let c = xs[i].cmp(&xs[i + 1]);
        let in_order = match order {
            SortOrder::Ascending => match c {
                Ordering::Greater => false,
                _ => true,
            },
            SortOrder::Descending => match c {
                Ordering::Less => false,
                _ => true,
            },
        };
        proof {
            assert(in_order == le(ord, xs@[i as int], xs@[i + 1]));
        }
        if !in_order {
            return false;
        }
        proof {
            let p = xs@.subrange(0, i + 1);
            let q = xs@.subrange(0, i + 2);
            assert forall|a: int, b: int| 0 <= a < b < q.len() implies #[trigger] le(ord, q[a], q[b]) by {
                if b < i + 1 {
                    assert(le(ord, p[a], p[b]));
                } else if a < i {
                    assert(le(ord, p[a], p[i as int]));
                    assert(le(ord, xs@[i as int], xs@[i + 1]));
                }
            }
        }
        i = i + 1;
    }
    proof {
        assert(xs@.subrange(0, i + 1) =~= xs@);
    }
    true
}

} // verus!
