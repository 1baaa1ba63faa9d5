use vstd::prelude::*;

verus! {

/// The index that stands for "no slot": no neighbour, or an empty list.
pub const NONE: usize = usize::MAX;

/// A slot on the free list, holding the index of the next free slot.
pub(crate) struct Free {
    pub(crate) next: usize,
}

impl Free {
    pub(crate) fn new(next: usize) -> (r: Free)
        ensures
            r.next == next,
    {
        Free { next }
    }

    pub(crate) fn next(&self) -> (r: usize)
        ensures
            r == self.next,
    {
        self.next
    }
}

/// A slot that holds an element of the chain: its two neighbours, the
/// generation it was allocated under, and the element itself.
pub(crate) struct Used<T> {
    pub(crate) front: usize,
    pub(crate) back: usize,
    pub(crate) generation: usize,
    pub(crate) data: T,
}

impl<T> Used<T> {
    pub(crate) fn new(front: usize, back: usize, generation: usize, data: T) -> (r: Used<T>)
        ensures
            r.front == front,
            r.back == back,
            r.generation == generation,
            r.data == data,
    {
        Used { front, back, generation, data }
    }

    /// Splits the slot into its front link, its element and its back link.
    pub(crate) fn take(self) -> (r: (usize, T, usize))
        ensures
            r == (self.front, self.data, self.back),
    {
        let Used { front, back, data, .. } = self;
        (front, data, back)
    }

    /// The slot itself if it carries generation `g`.
    pub(crate) fn as_generation(&self, g: usize) -> (r: Option<&Used<T>>)
        ensures
            self.generation == g ==> r == Some(self),
            self.generation != g ==> r is None,
    {
        if self.generation == g {
            Some(self)
        } else {
            None
        }
    }
}

/// One storage cell of the arena.
pub(crate) enum Slot<T> {
    Free(Free),
    Used(Used<T>),
}

impl<T> Slot<T> {
    pub(crate) open spec fn is_used(&self) -> bool {
        self is Used
    }

    /// The used cell inside; meaningful only where `is_used` holds.
    pub(crate) open spec fn used(&self) -> Used<T> {
        self->Used_0
    }

    pub(crate) fn new_free(next: usize) -> (r: Slot<T>)
        ensures
            r matches Slot::Free(f) && f.next == next,
    {
        Slot::Free(Free::new(next))
    }

    pub(crate) fn new_used(front: usize, back: usize, generation: usize, data: T) -> (r: Slot<T>)
        ensures
            r.is_used(),
            r.used() == Used::new_spec(front, back, generation, data),
    {
        Slot::Used(Used::new(front, back, generation, data))
    }

    pub(crate) fn get_used(&self) -> (r: Option<&Used<T>>)
        ensures
            self.is_used() ==> r == Some(&self.used()),
            !self.is_used() ==> r is None,
    {
        match self {
            Slot::Used(used) => Some(used),
            Slot::Free(_) => None,
        }
    }

    pub(crate) fn get_free(&self) -> (r: Option<&Free>)
        ensures
            self is Free ==> r == Some(&self->Free_0),
            self is Used ==> r is None,
    {
        match self {
            Slot::Free(free) => Some(free),
            Slot::Used(_) => None,
        }
    }

    pub(crate) fn into_used(self) -> (r: Option<Used<T>>)
        ensures
            self.is_used() ==> r == Some(self.used()),
            !self.is_used() ==> r is None,
    {
        match self {
            Slot::Used(used) => Some(used),
            Slot::Free(_) => None,
        }
    }
}

impl<T> Used<T> {
    pub(crate) open spec fn new_spec(front: usize, back: usize, generation: usize, data: T) -> Used<T> {
        Used { front, back, generation, data }
    }
}

} // verus!
