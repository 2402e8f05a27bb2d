//! Append-only object pool that hands out typed, stable indices.

use core::marker::PhantomData;
use core::ops::Index;
use vstd::prelude::*;

verus! {

/// Append-only store of values of type `T`.
#[derive(Debug)]
pub struct Arena<T> {
    data: Vec<T>,
}

/// Identity of a slot in an [`Arena`] whose values have type `Tag`.
#[derive(Debug)]
pub struct ArenaId<Tag> {
    ix: usize,
    tag: PhantomData<Tag>,
}

impl<Tag> ArenaId<Tag> {
    /// Position of the slot in its arena.
    pub closed spec fn index(&self) -> usize {
        self.ix
    }

    /// The identity of the slot at position `ix`.
    pub closed spec fn at(ix: usize) -> Self {
        ArenaId { ix, tag: PhantomData }
    }

    /// An identity is determined by the position of its slot.
    pub broadcast proof fn lemma_at(self)
        ensures
            #[trigger] Self::at(self.index()) == self,
    {
    }

    /// The identity of the slot at position `ix` has that position.
    pub broadcast proof fn lemma_index_of_at(ix: usize)
        ensures
            (#[trigger] Self::at(ix)).index() == ix,
    {
    }

    /// The identity of the slot at position `ix`.
    pub(crate) fn new(ix: usize) -> (id: Self)
        ensures
            id == Self::at(ix),
            id.index() == ix,
    {
        ArenaId { ix, tag: PhantomData }
    }

    /// Whether this is the identity `other`.
    pub fn same(&self, other: &Self) -> (b: bool)
        ensures
            b == (self.index() == other.index()),
    {
        self.ix == other.ix
    }

    /// Position of the slot in its arena.
    #[verifier::when_used_as_spec(index)]
    pub fn position(&self) -> (ix: usize)
        ensures
            ix == self.index(),
    {
        self.ix
    }
}

impl<T> Clone for ArenaId<T> {
    fn clone(&self) -> (id: Self)
        ensures
            id == *self,
    {
        ArenaId { ix: self.ix, tag: PhantomData }
    }
}

impl<T> Copy for ArenaId<T> {

}

impl<T> Arena<T> {
    /// The values held, in the order in which they were pushed.
    pub closed spec fn view(&self) -> Seq<T> {
        self.data@
    }

    /// Whether `id` names a slot of this arena.
    pub open spec fn has(&self, id: ArenaId<T>) -> bool {
        id.index() < self@.len()
    }

    /// The number of values held is a machine number.
    pub proof fn lemma_len_bounded(&self)
        ensures
            self@.len() <= usize::MAX,
    {
        assert(self.data@.len() == self.data.len());
    }

    /// An arena that holds nothing.
    pub fn new() -> (arena: Self)
        ensures
            arena@ == Seq::<T>::empty(),
    {
        Arena { data: Vec::new() }
    }

    /// Number of values held.
    pub fn len(&self) -> (n: usize)
        ensures
            n == self@.len(),
    {
        self.data.len()
    }

    /// Appends `v` and returns the identity of its slot, which no earlier
    /// value of this arena has.
    pub fn push(&mut self, v: T) -> (id: ArenaId<T>)
        ensures
            final(self)@ == old(self)@.push(v),
            id.index() == old(self)@.len(),
    {
        self.data.push(v);
        ArenaId::new(self.data.len() - 1)
    }

    /// Puts `v` into the slot `id` and returns the value that was there.
    pub fn replace(&mut self, id: ArenaId<T>, v: T) -> (previous: T)
        requires
            old(self).has(id),
        ensures
            previous == old(self)@[id.index() as int],
            final(self)@ == old(self)@.update(id.index() as int, v),
    {
        let mut v = v;
        core::mem::swap(&mut self.data[id.ix], &mut v);
        v
    }

    /// The value in slot `id`, or `None` where this arena has no such slot.
    pub fn get(&self, id: ArenaId<T>) -> (value: Option<&T>)
        ensures
            self.has(id) ==> value == Some(&self@[id.index() as int]),
            !self.has(id) ==> value is None,
    {
        if id.ix < self.data.len() {
            Some(&self.data[id.ix])
        } else {
            None
        }
    }

    /// Mutable access to the value in slot `id`, or `None` where this arena
    /// has no such slot.
    pub fn get_mut(&mut self, id: ArenaId<T>) -> (value: Option<&mut T>)
        ensures
            old(self).has(id) ==> (value matches Some(r) && *r == old(self)@[id.index() as int]
                && final(self)@ == old(self)@.update(id.index() as int, *final(r))),
            !old(self).has(id) ==> value is None && final(self)@ == old(self)@,
    {
        if id.ix < self.data.len() {
            Some(&mut self.data[id.ix])
        } else {
            None
        }
    }
}

impl<T> Index<ArenaId<T>> for Arena<T> {
    type Output = T;

    /// The value in slot `ix`, which this arena must have.
    fn index(&self, ix: ArenaId<T>) -> (value: &T)
        ensures
            *value == self@[ix.index() as int],
    {
        &self.data[ix.ix]
    }
}

impl<T> vstd::std_specs::core::IndexSpecImpl<ArenaId<T>> for Arena<T> {
    open spec fn index_req(&self, index: &ArenaId<T>) -> bool {
        self.has(*index)
    }
}

} // verus!
