//! The owned handle over an allocated slot.
//!
//! A [`Box`] is the exclusive, move-only owner of one allocated slot: it
//! carries the stored value itself together with the bookkeeping that ties
//! it to its node and size class in the allocator, so that releasing it
//! returns the slot to the right free stack. Release is an explicit,
//! deterministic operation on the allocator facade, which consumes the
//! handle; there is no other path by which a slot is reclaimed.

use vstd::prelude::*;

verus! {

/// Exclusive handle over one allocated slot, holding the slot's value.
pub struct Box<T> {
    /// Index of the backing node in the allocator's node store.
    pub node: usize,
    /// Index of the size class that owns the node.
    pub class: usize,
    /// Arena offset of the first byte of the slot.
    pub offset: usize,
    /// The value stored in the slot.
    pub value: T,
}

impl<T> Box<T> {
    /// Bind a handle to a node. Only meaningful for a `(node, class,
    /// offset)` triple handed out by the allocator facade; the facade's
    /// release operation checks exactly that.
    pub fn new(node: usize, class: usize, offset: usize, value: T) -> (b: Box<T>)
        ensures
            b.node == node,
            b.class == class,
            b.offset == offset,
            b.value == value,
    {
        Box { node, class, offset, value }
    }

    /// Read the stored value.
    pub fn get(&self) -> (r: &T)
        ensures
            *r == self.value,
    {
        &self.value
    }

    /// Write the stored value.
    pub fn get_mut(&mut self) -> (r: &mut T)
        ensures
            *r == old(self).value,
            final(self).value == *final(r),
            final(self).node == old(self).node,
            final(self).class == old(self).class,
            final(self).offset == old(self).offset,
    {
        &mut self.value
    }

    /// The arena offset of the slot this handle owns.
    pub fn address(&self) -> (a: usize)
        ensures
            a == self.offset,
    {
        self.offset
    }
}

} // verus!
