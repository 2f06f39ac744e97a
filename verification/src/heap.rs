//! The arena: a fixed-capacity region addressed by byte offsets, with a
//! bump cursor that only ever moves forward.
//!
//! Slots are identified by their offset from the start of the region, so
//! the whole allocator is ordinary integer arithmetic: `start` is the next
//! free offset, `end` the capacity boundary, and an allocation reserves the
//! next suitably aligned range below `end`.

use vstd::prelude::*;

verus! {

use vstd::arithmetic::div_mod::{
    lemma_fundamental_div_mod,
    lemma_mod_multiples_basic,
    lemma_mod_self_0,
    lemma_small_mod,
};

/// The smallest offset `>= pos` that is a multiple of `align`.
pub open spec fn align_up(pos: int, align: int) -> int
    recommends
        align >= 1,
        pos >= 0,
{
    pos + ((align - pos % align) % align)
}

/// `align_up` lands on a multiple of `align`, at or after `pos`, and less
/// than one whole `align` past it.
pub proof fn lemma_align_up(pos: int, align: int)
    requires
        align >= 1,
        pos >= 0,
    ensures
        align_up(pos, align) % align == 0,
        pos <= align_up(pos, align) < pos + align,
        pos % align == 0 ==> align_up(pos, align) == pos,
{
    let r = pos % align;
    if r == 0 {
        lemma_mod_self_0(align);
        assert(align_up(pos, align) == pos);
    } else {
        assert(0 < r < align);
        lemma_small_mod((align - r) as nat, align as nat);
        assert(align_up(pos, align) == pos + align - r);
        lemma_fundamental_div_mod(pos, align);
        assert(pos + align - r == align * (pos / align + 1)) by {
            assert(pos == align * (pos / align) + r);
            assert(align * (pos / align + 1) == align * (pos / align) + align) by (nonlinear_arith);
        }
        lemma_mod_multiples_basic(pos / align + 1, align);
    }
}

/// A single-owner cell holding one value.
///
/// The unsynchronized shared-mutation cell this stands for is an explicit
/// trust boundary in the design; here access is single-owner by
/// construction, so reads and writes are plain field accesses.
pub struct RacyCell<T> {
    pub value: T,
}

impl<T> RacyCell<T> {
    /// Wrap a value.
    pub fn new(value: T) -> (c: RacyCell<T>)
        ensures
            c.value == value,
    {
        RacyCell { value }
    }

    /// Read the stored value.
    pub fn get(&self) -> (r: &T)
        ensures
            *r == self.value,
    {
        &self.value
    }

    /// Mutable access to the stored value.
    pub fn get_mut(&mut self) -> (r: &mut T)
        ensures
            *r == old(self).value,
            final(self).value == *final(r),
    {
        &mut self.value
    }
}

/// The arena's cursor state. `start` grows upward as slots are carved out;
/// `end` is the capacity boundary and never moves after initialization.
pub struct Heap {
    /// Next free byte offset.
    pub start: usize,
    /// One past the last usable byte offset (the capacity).
    pub end: usize,
    /// Whether `init` has bound the cursors to a real capacity.
    pub initialized: bool,
}

impl Heap {
    /// Cursors in range; holds from initialization on.
    pub open spec fn wf(self) -> bool {
        self.start <= self.end
    }

    /// A heap with no address range yet: allocation requires `init` first.
    pub fn new() -> (h: Heap)
        ensures
            h.start == 0,
            h.end == 0,
            !h.initialized,
            h.wf(),
    {
        Heap { start: 0, end: 0, initialized: false }
    }

    /// Bind the cursors to a region of `capacity` bytes. Must happen
    /// exactly once, before any allocation.
    pub fn init(&mut self, capacity: usize)
        requires
            !old(self).initialized,
        ensures
            final(self).start == 0,
            final(self).end == capacity,
            final(self).initialized,
            final(self).wf(),
    {
        self.start = 0;
        self.end = capacity;
        self.initialized = true;
    }

    /// Free bytes remaining, for diagnostics.
    pub fn free_size(&self) -> (n: usize)
        requires
            self.wf(),
        ensures
            n == self.end - self.start,
    {
        self.end - self.start
    }

    /// Reserve `size` bytes at the next offset aligned to `align`, or
    /// report exhaustion (`None`) if the padded range would cross `end`.
    /// On exhaustion the cursor is untouched.
    pub fn allocate(&mut self, size: usize, align: usize) -> (r: Option<usize>)
        requires
            old(self).wf(),
            old(self).initialized,
            align >= 1,
        ensures
            final(self).wf(),
            final(self).end == old(self).end,
            final(self).initialized == old(self).initialized,
            match r {
                Some(off) => {
                    &&& off == align_up(old(self).start as int, align as int)
                    &&& off + size <= old(self).end
                    &&& final(self).start == off + size
                },
                None => {
                    &&& align_up(old(self).start as int, align as int) + size > old(self).end
                    &&& final(self).start == old(self).start
                },
            },
    {
        proof {
            lemma_align_up(self.start as int, align as int);
        }
        let rem = self.start % align;
        let pad = if rem == 0 { 0 } else { align - rem };
        proof {
            if rem == 0 {
                lemma_mod_self_0(align as int);
            } else {
                lemma_small_mod((align - rem) as nat, align as nat);
            }
            assert(pad as int == (align as int - self.start as int % align as int) % align as int);
        }
        if pad > self.end - self.start {
            return None;
        }
        let aligned = self.start + pad;
        if size > self.end - aligned {
            return None;
        }
        self.start = aligned + size;
        Some(aligned)
    }
}

} // verus!
