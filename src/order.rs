//! Orderings as the sorting network sees them: a comparator is a function
//! whose answers agree with a total preorder over the element type.
use std::cmp::Ordering;
use vstd::prelude::*;
use vstd::laws_cmp::{obeys_cmp, obeys_cmp_ord, obeys_cmp_partial_ord, obeys_partial_cmp_spec_properties};
use vstd::laws_eq::obeys_eq_spec_properties;
use vstd::std_specs::cmp::{OrdSpec, PartialEqSpec, PartialOrdSpec};

verus! {

/// `a` may stand before `b` under `ord`.
pub open spec fn le<T>(ord: spec_fn(T, T) -> Ordering, a: T, b: T) -> bool {
    ord(a, b) != Ordering::Greater
}

/// `a` must stand after `b` under `ord`.
pub open spec fn gt<T>(ord: spec_fn(T, T) -> Ordering, a: T, b: T) -> bool {
    ord(a, b) == Ordering::Greater
}

/// `ord` is a total preorder: its answers are mirror images of each other
/// when the operands are exchanged, and "not greater" is transitive.
pub open spec fn is_total_order<T>(ord: spec_fn(T, T) -> Ordering) -> bool {
    &&& forall|a: T, b: T|
        #![trigger ord(a, b)]
        (ord(a, b) == Ordering::Less) <==> (ord(b, a) == Ordering::Greater)
    &&& forall|a: T, b: T, c: T|
        #![trigger ord(a, b), ord(b, c)]
        le(ord, a, b) && le(ord, b, c) ==> le(ord, a, c)
}

/// The same ordering with its operands exchanged: the reverse order.
pub open spec fn flip<T>(ord: spec_fn(T, T) -> Ordering) -> spec_fn(T, T) -> Ordering {
    |a: T, b: T| ord(b, a)
}

/// The order that a pass toward `up` establishes: `ord` itself when ascending,
/// its reverse when descending.
pub open spec fn toward<T>(ord: spec_fn(T, T) -> Ordering, up: bool) -> spec_fn(T, T) -> Ordering {
    if up {
        ord
    } else {
        flip(ord)
    }
}

/// Every element may stand before every later one.
pub open spec fn sorted_by<T>(s: Seq<T>, ord: spec_fn(T, T) -> Ordering) -> bool {
    forall|i: int, j: int| 0 <= i < j < s.len() ==> #[trigger] le(ord, s[i], s[j])
}

/// The comparator can be called on any pair of elements.
pub open spec fn accepts_all<T, F: Fn(&T, &T) -> Ordering>(f: &F) -> bool {
    forall|a: &T, b: &T| #[trigger] f.requires((a, b))
}

/// Every answer of the comparator is the answer of the total preorder `ord`.
pub open spec fn orders<T, F: Fn(&T, &T) -> Ordering>(
    f: &F,
    ord: spec_fn(T, T) -> Ordering,
) -> bool {
    &&& is_total_order(ord)
    &&& forall|a: &T, b: &T, o: Ordering| #[trigger] f.ensures((a, b), o) ==> o == ord(*a, *b)
}

/// The natural order of a type whose comparison follows its specification.
pub open spec fn natural<T: Ord>() -> spec_fn(T, T) -> Ordering {
    |a: T, b: T| a.cmp_spec(&b)
}

/// Consequences of a total preorder: nothing must follow itself, "must
/// follow" is transitive, and it carries over along "may stand before".
pub proof fn lemma_total_order_facts<T>(ord: spec_fn(T, T) -> Ordering)
    requires
        is_total_order(ord),
    ensures
        forall|a: T| !gt(ord, a, a),
        forall|a: T, b: T| #[trigger] gt(ord, a, b) ==> le(ord, b, a),
        forall|a: T, b: T, c: T|
            #![trigger gt(ord, a, b), gt(ord, b, c)]
            gt(ord, a, b) && gt(ord, b, c) ==> gt(ord, a, c),
        forall|a: T, b: T, c: T|
            #![trigger ord(a, b), gt(ord, a, c)]
            le(ord, a, b) && gt(ord, a, c) ==> gt(ord, b, c),
        forall|a: T, b: T, c: T|
            #![trigger ord(a, b), gt(ord, c, b)]
            le(ord, a, b) && gt(ord, c, b) ==> gt(ord, c, a),
{
    assert forall|a: T| !gt(ord, a, a) by {
        if ord(a, a) == Ordering::Greater {
            assert(ord(a, a) == Ordering::Less);
        }
    }
    assert forall|a: T, b: T, c: T| gt(ord, a, b) && gt(ord, b, c) implies gt(ord, a, c) by {
        assert(ord(c, b) == Ordering::Less);
        if le(ord, a, c) {
            assert(le(ord, a, b));
        }
    }
    assert forall|a: T, b: T, c: T| le(ord, a, b) && gt(ord, c, b) implies gt(ord, c, a) by {
        assert(ord(b, c) == Ordering::Less);
        if le(ord, c, a) {
            assert(le(ord, c, b));
        }
    }
}

/// The reverse of a total preorder is one too, and "must follow" in the reverse
/// is "less" in the given order.
pub proof fn lemma_flip_total<T>(ord: spec_fn(T, T) -> Ordering)
    requires
        is_total_order(ord),
    ensures
        is_total_order(flip(ord)),
        forall|a: T, b: T| #[trigger] gt(flip(ord), a, b) <==> ord(a, b) == Ordering::Less,
{
    let f = flip(ord);
    assert forall|a: T, b: T, c: T|
        #![trigger f(a, b), f(b, c)]
        le(f, a, b) && le(f, b, c) implies le(f, a, c) by {
        assert(le(ord, c, b) && le(ord, b, a));
    }
    assert forall|a: T, b: T| #![trigger f(a, b)]
        (f(a, b) == Ordering::Less) <==> (f(b, a) == Ordering::Greater) by {
        assert(ord(b, a) == Ordering::Less <==> ord(a, b) == Ordering::Greater);
    }
}

/// A type whose comparison obeys the laws of `Ord` is totally ordered by it.
pub proof fn lemma_natural_total<T: Ord>()
    requires
        obeys_cmp::<T>(),
    ensures
        is_total_order(natural::<T>()),
{
    reveal(obeys_partial_cmp_spec_properties);
    reveal(obeys_cmp_ord);
    reveal(obeys_cmp_partial_ord);
    reveal(obeys_eq_spec_properties);
    let ord = natural::<T>();
    assert forall|a: T, b: T| #![trigger ord(a, b)]
        (ord(a, b) == Ordering::Less) <==> (ord(b, a) == Ordering::Greater) by {
        assert(a.partial_cmp_spec(&b) == Some(a.cmp_spec(&b)));
        assert(b.partial_cmp_spec(&a) == Some(b.cmp_spec(&a)));
    }
    assert forall|a: T, b: T, c: T| #![trigger ord(a, b), ord(b, c)]
        le(ord, a, b) && le(ord, b, c) implies le(ord, a, c) by {
        assert(a.partial_cmp_spec(&b) == Some(a.cmp_spec(&b)));
        assert(b.partial_cmp_spec(&c) == Some(b.cmp_spec(&c)));
        assert(a.partial_cmp_spec(&c) == Some(a.cmp_spec(&c)));
        assert(c.partial_cmp_spec(&a) == Some(c.cmp_spec(&a)));
        assert(b.partial_cmp_spec(&a) == Some(b.cmp_spec(&a)));
        assert(c.partial_cmp_spec(&b) == Some(c.cmp_spec(&b)));
        if a.cmp_spec(&c) == Ordering::Greater {
            assert(c.cmp_spec(&a) == Ordering::Less);
            if a.cmp_spec(&b) == Ordering::Equal && b.cmp_spec(&c) == Ordering::Equal {
                assert(a.eq_spec(&b) && b.eq_spec(&c));
                assert(a.eq_spec(&c));
            } else if a.cmp_spec(&b) == Ordering::Equal {
                assert(b.cmp_spec(&c) == Ordering::Less);
                assert(b.cmp_spec(&a) == Ordering::Less);
            } else if b.cmp_spec(&c) == Ordering::Equal {
                assert(a.cmp_spec(&b) == Ordering::Less);
                assert(c.cmp_spec(&b) == Ordering::Less);
            } else {
                assert(a.cmp_spec(&b) == Ordering::Less);
                assert(b.cmp_spec(&c) == Ordering::Less);
            }
        }
    }
}

} // verus!
