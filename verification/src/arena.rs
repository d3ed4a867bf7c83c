use vstd::prelude::*;

verus! {

/// Storage that hands out a handle for each value added. Handles are
/// positions: nothing is ever removed, so a handle stays good for as long as
/// the arena lives.
pub struct Arena<T> {
    slots: Vec<T>,
}

impl<T> View for Arena<T> {
    type V = Seq<T>;

    closed spec fn view(&self) -> Seq<T> {
        self.slots@
    }
}

impl<T: Clone> Clone for Arena<T> {
    /// An arena of its own with a clone of every value behind the same
    /// handle.
    fn clone(&self) -> (copy: Self)
        ensures
            copy@.len() == self@.len(),
            forall|h: int| 0 <= h < self@.len() ==> cloned(#[trigger] self@[h], copy@[h]),
    {
        Self { slots: self.slots.clone() }
    }
}

impl<T> Arena<T> {
    /// An arena that holds nothing.
    pub fn new() -> (arena: Self)
        ensures
            arena@ == Seq::<T>::empty(),
    {
        Self { slots: Vec::new() }
    }

    /// Number of values held, which is also the next handle.
    pub fn len(&self) -> (n: usize)
        ensures
            n == self@.len(),
    {
        self.slots.len()
    }

    /// Stores `value` behind a new handle and returns the handle.
    pub fn add(&mut self, value: T) -> (handle: usize)
        ensures
            handle == old(self)@.len(),
            final(self)@ == old(self)@.push(value),
            final(self)@.len() <= usize::MAX,
    {
        self.slots.push(value);
        self.slots.len() - 1
    }

    /// The value behind `handle`, if the arena gave that handle out.
    pub fn get(&self, handle: usize) -> (found: Option<&T>)
        ensures
            handle < self@.len() ==> found == Some(&self@[handle as int]),
            handle >= self@.len() ==> found.is_none(),
    {
        if handle < self.slots.len() {
            Some(&self.slots[handle])
        } else {
            None
        }
    }

    /// The value behind `handle`, to be changed in place.
    pub fn get_mut(&mut self, handle: usize) -> (found: Option<&mut T>)
        ensures
            handle >= old(self)@.len() ==> found.is_none() && final(self)@ == old(self)@,
            handle < old(self)@.len() ==> found.is_some() && *found.unwrap() == old(self)@[handle as int]
                && final(self)@ == old(self)@.update(handle as int, *final(found.unwrap())),
    {
        if handle < self.slots.len() {
            Some(&mut self.slots[handle])
        } else {
            None
        }
    }
}

} // verus!
