//! The source of vertex identifiers.

use vstd::prelude::*;

verus! {

/// Hands out identifiers, each one larger than every one before it.
///
/// A graph under construction owns one allocator, so that the ids of its
/// vertices, at every depth of nesting, are distinct.
pub struct IdAllocator {
    next: usize,
}

impl View for IdAllocator {
    type V = nat;

    /// The identifier that the next call of `next_id` returns. Every
    /// identifier handed out so far is below it.
    closed spec fn view(&self) -> nat {
        self.next as nat
    }
}

impl IdAllocator {
    /// An allocator that has handed out nothing yet. Its first identifier is 0.
    pub fn new() -> (ids: IdAllocator)
        ensures
            ids@ == 0,
    {
        IdAllocator { next: 0 }
    }

    /// Whether every identifier that the machine can represent below
    /// `usize::MAX` has been handed out.
    pub fn is_exhausted(&self) -> (r: bool)
        ensures
            r == (self@ == usize::MAX),
    {
        self.next == usize::MAX
    }

    /// Returns a fresh identifier and advances the allocator past it: the
    /// identifier is larger than every one that the allocator has returned
    /// before, and smaller than every one that it will return.
    pub fn next_id(&mut self) -> (id: usize)
        requires
            old(self)@ < usize::MAX,
        ensures
            id == old(self)@,
            final(self)@ == id + 1,
    {
        let id: usize = self.next;
        self.next = self.next + 1;
        id
    }
}

} // verus!
