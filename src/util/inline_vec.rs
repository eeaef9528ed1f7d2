use vstd::prelude::*;

verus! {

/// A vector of at most `SIZE` elements.
pub struct InlineVec<T, const SIZE: usize> {
    items: Vec<T>,
}

impl<T, const SIZE: usize> View for InlineVec<T, SIZE> {
    type V = Seq<T>;

    closed spec fn view(&self) -> Seq<T> {
        self.items@
    }
}

impl<T, const SIZE: usize> InlineVec<T, SIZE> {
    pub closed spec fn wf(&self) -> bool {
        self.items@.len() <= SIZE
    }

    pub fn new() -> (r: Self)
        ensures
            r.wf(),
            r@ == Seq::<T>::empty(),
    {
        InlineVec { items: Vec::new() }
    }

    /// Appends `value`; there must be room for it.
    pub fn push(&mut self, value: T)
        requires
            old(self).wf(),
            old(self)@.len() < SIZE,
        ensures
            final(self).wf(),
            final(self)@ == old(self)@.push(value),
    {
        self.items.push(value);
    }

    pub fn len(&self) -> (r: usize)
        ensures
            r == self@.len(),
    {
        self.items.len()
    }

    pub fn get(&self, i: usize) -> (r: &T)
        requires
            i < self@.len(),
        ensures
            *r == self@[i as int],
    {
        &self.items[i]
    }
}

impl<T: Copy, const SIZE: usize> InlineVec<T, SIZE> {
    /// The elements of `array`, which must fit.
    pub fn from_array<const ARRAY_SIZE: usize>(array: [T; ARRAY_SIZE]) -> (r: Self)
        requires
            ARRAY_SIZE <= SIZE,
        ensures
            r.wf(),
            r@ == array@,
    {
        let mut new_vec = Self::new();
        let mut i: usize = 0;
        while i < ARRAY_SIZE
            invariant
                i <= ARRAY_SIZE <= SIZE,
                new_vec.wf(),
                new_vec@ == array@.subrange(0, i as int),
            decreases ARRAY_SIZE - i,
        {
            new_vec.push(array[i]);
            i = i + 1;
            assert(new_vec@ =~= array@.subrange(0, i as int));
        }
        assert(array@.subrange(0, ARRAY_SIZE as int) =~= array@);
        new_vec
    }
}

} // verus!
