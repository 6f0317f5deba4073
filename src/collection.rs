//! A growable array that keeps spare room filled with default values and
//! doubles its room when full.
use vstd::prelude::*;

verus! {

/// A growable array: the first `len` slots of `elements` hold the items, the
/// rest are spare room.
pub struct ToyVec<T> {
    elements: Vec<T>,
    len: usize,
}

impl<T> View for ToyVec<T> {
    type V = Seq<T>;

    closed spec fn view(&self) -> Seq<T> {
        self.elements@.subrange(0, self.len as int)
    }
}

impl<T> ToyVec<T> {
    /// The item count stays within the slots.
    pub closed spec fn wf(&self) -> bool {
        self.len <= self.elements@.len()
    }

    /// How many items fit before the array has to grow.
    pub closed spec fn room(&self) -> nat {
        self.elements@.len()
    }
}

impl<T: Default> ToyVec<T> {
    pub fn new() -> (r: ToyVec<T>)
        ensures
            r.wf(),
            r@ == Seq::<T>::empty(),
            r.room() == 0,
    {
        Self::with_capacity(0)
    }

    pub fn with_capacity(cap: usize) -> (r: ToyVec<T>)
        ensures
            r.wf(),
            r@ == Seq::<T>::empty(),
            r.room() == cap,
    {
        let r = ToyVec { elements: Self::allocate_in_heap(cap), len: 0 };
        assert(r@ =~= Seq::<T>::empty());
        r
    }

    fn allocate_in_heap(size: usize) -> (r: Vec<T>)
        ensures
            r@.len() == size,
    {
        let mut v: Vec<T> = Vec::new();
        let mut i: usize = 0;
        while i < size
            invariant
                i <= size,
                v@.len() == i,
            decreases size - i,
        {
            v.push(T::default());
            i = i + 1;
        }
        v
    }

    /// The item at `idx`, if there is one.
    pub fn get(&self, idx: usize) -> (r: Option<&T>)
        requires
            self.wf(),
        ensures
            idx < self@.len() ==> r == Some(&self@[idx as int]),
            idx >= self@.len() ==> r is None,
    {
        if idx >= self.len {
            None
        } else {
            Some(&self.elements[idx])
        }
    }

    /// The item at `idx`, or `default` if there is none.
    pub fn get_or<'a>(&'a self, idx: usize, default: &'a T) -> (r: &'a T)
        requires
            self.wf(),
        ensures
            idx < self@.len() ==> *r == self@[idx as int],
            idx >= self@.len() ==> *r == *default,
    {
        self.get(idx).unwrap_or(default)
    }

    /// Takes the last item out, if there is one.
    pub fn pop(&mut self) -> (r: Option<T>)
        requires
            old(self).wf(),
        ensures
            final(self).wf(),
            old(self)@.len() == 0 ==> r is None && final(self)@ == old(self)@,
            old(self)@.len() > 0 ==> r == Some(old(self)@.last()) && final(self)@ == old(self)@.drop_last(),
            final(self).room() == old(self).room(),
    {
        if self.len == 0 {
            None
        } else {
            self.len = self.len - 1;
            let mut elem = T::default();
            std::mem::swap(&mut elem, &mut self.elements[self.len]);
            proof {
                assert(self@ =~= old(self)@.drop_last());
            }
            Some(elem)
        }
    }

    pub fn len(&self) -> (r: usize)
        requires
            self.wf(),
        ensures
            r == self@.len(),
    {
        self.len
    }

    pub fn capacity(&self) -> (r: usize)
        ensures
            r == self.room(),
    {
        self.elements.len()
    }

    /// Appends `elem`, doubling the room first when the array is full.
    pub fn push(&mut self, elem: T)
        requires
            old(self).wf(),
            old(self)@.len() < old(self).room() || old(self).room() <= usize::MAX / 2,
        ensures
            final(self).wf(),
            final(self)@ == old(self)@.push(elem),
            old(self)@.len() < old(self).room() ==> final(self).room() == old(self).room(),
            old(self)@.len() == old(self).room() ==> final(self).room() == if old(self).room() == 0 {
                1
            } else {
                2 * old(self).room()
            },
    {
        if self.len() >= self.capacity() {
            self.grow();
        }
        self.elements[self.len] = elem;
        self.len = self.len + 1;
        proof {
            assert(self@ =~= old(self)@.push(elem));
        }
    }

    /// Doubles the room (or makes room for one), keeping the items.
    fn grow(&mut self)
        requires
            old(self).wf(),
            old(self).room() <= usize::MAX / 2,
        ensures
            final(self).wf(),
            final(self)@ == old(self)@,
            final(self).room() == if old(self).room() == 0 {
                1
            } else {
                2 * old(self).room()
            },
    {
        let new_cap = if self.capacity() == 0 {
            1
        } else {
            self.capacity() * 2
        };
        let mut old_elements = Self::allocate_in_heap(new_cap);
        std::mem::swap(&mut old_elements, &mut self.elements);
        let ghost kept = old_elements@;
        let mut k = old_elements.len();
        while k > 0
            invariant
                k <= kept.len(),
                kept.len() < new_cap,
                kept == old(self).elements@,
                self.len == old(self).len,
                old(self).len <= kept.len(),
                old_elements@ == kept.subrange(0, k as int),
                self.elements@.len() == new_cap,
                forall|i: int| k <= i < kept.len() ==> self.elements@[i] == kept[i],
            decreases k,
        {
            let elem = old_elements.pop().unwrap();
            k = k - 1;
            self.elements[k] = elem;
        }
        proof {
            assert(self@ =~= old(self)@);
        }
    }

    /// A cursor over the items, from the first.
    pub fn iter(&self) -> (r: Iter<'_, T>)
        requires
            self.wf(),
        ensures
            r.wf(),
            r.remaining() == self@,
    {
        let r = Iter { elements: &self.elements, len: self.len, pos: 0 };
        assert(r.remaining() =~= self@);
        r
    }
}

/// A cursor over the items of a `ToyVec`.
pub struct Iter<'vec, T> {
    elements: &'vec Vec<T>,
    len: usize,
    pos: usize,
}

impl<'vec, T> Iter<'vec, T> {
    /// The cursor stays within the items.
    pub closed spec fn wf(&self) -> bool {
        self.pos <= self.len <= self.elements@.len()
    }

    /// The items not handed out yet.
    pub closed spec fn remaining(&self) -> Seq<T> {
        self.elements@.subrange(self.pos as int, self.len as int)
    }

    /// The next item, if any is left.
    pub fn next(&mut self) -> (r: Option<&'vec T>)
        requires
            old(self).wf(),
        ensures
            final(self).wf(),
            old(self).remaining().len() == 0 ==> r is None && final(self).remaining() == old(
                self,
            ).remaining(),
            old(self).remaining().len() > 0 ==> r == Some(&old(self).remaining()[0])
                && final(self).remaining() == old(self).remaining().drop_first(),
    {
        if self.pos >= self.len {
            None
        } else {
            let elements: &'vec Vec<T> = self.elements;
            let e = &elements[self.pos];
            self.pos = self.pos + 1;
            proof {
                assert(self.remaining() =~= old(self).remaining().drop_first());
            }
            Some(e)
        }
    }
}

} // verus!
