//! A fixed-capacity, size-class-segregated allocator.
//!
//! A contiguous arena is carved once by bump allocation, and released
//! slots are recycled through per-size-class free stacks, so steady-state
//! alloc/release cycles of same-sized values are O(1) and never grow
//! arena consumption. Slots are arena-relative byte offsets, size classes
//! are keyed on the `(size, align)` pair of the requested type — which
//! makes an alignment mismatch on reuse unrepresentable — and every
//! operation is specified against a ghost model of the allocator
//! ([`model::AllocModel`]), over which the recycling and exhaustion laws
//! are proved.

pub mod heap;
pub mod list;
pub mod model;
pub mod my_box;
pub mod stack;

use vstd::prelude::*;

verus! {

use crate::heap::{Heap, lemma_align_up};
use crate::model::{
    AllocModel,
    ClassModel,
    find_class,
    lemma_find_class,
    minv,
    ranges_disjoint,
    spec_release,
    spec_try_new,
};
use crate::my_box::Box;
use crate::stack::{Node, Stack};

/// One size class: its `(width, align)` key and the stack of free nodes.
pub struct SizeClass {
    /// Byte width of every slot of this class.
    pub width: usize,
    /// Alignment every slot of this class satisfies.
    pub align: usize,
    /// Free list of this class's recyclable nodes.
    pub stack: Stack,
}

/// The model view of one size class: the key, and the free slots read off
/// the node store in chain order.
pub open spec fn class_model(c: SizeClass, nodes: Seq<Node>) -> ClassModel {
    ClassModel {
        width: c.width as int,
        align: c.align as int,
        free: c.stack@.map(|k: int, idx: usize| nodes[idx as int].ptr as int),
    }
}

/// Uninitialized backing storage for an allocator of `N` bytes with at
/// most `S` distinct size classes. Initialization consumes the store, so
/// it can happen at most once.
pub struct FastMemStore<const N: usize, const S: usize> {}

/// The initialized allocator: the arena cursors, the node store, and the
/// size-class table.
pub struct FastMem<const N: usize, const S: usize> {
    /// Arena cursor state; `heap.end == N` throughout.
    pub heap: Heap,
    /// All nodes ever carved, free and live alike; indices into this
    /// store identify nodes everywhere.
    pub nodes: Vec<Node>,
    /// The size classes, in order of first allocation; at most `S`.
    pub classes: Vec<SizeClass>,
}

impl<const N: usize, const S: usize> View for FastMem<N, S> {
    type V = AllocModel;

    open spec fn view(&self) -> AllocModel {
        AllocModel {
            cursor: self.heap.start as int,
            capacity: N as int,
            max_classes: S as int,
            classes: Seq::new(
                self.classes@.len() as nat,
                |i: int| class_model(self.classes@[i], self.nodes@),
            ),
        }
    }
}

impl<const N: usize, const S: usize> FastMemStore<N, S> {
    /// Create the (empty) uninitialized storage.
    pub fn new() -> (s: FastMemStore<N, S>) {
        FastMemStore {}
    }

    /// Initialize the storage: bind the arena cursors to `N` bytes and
    /// start with no classes and no nodes. Consuming `self` makes a
    /// second initialization of the same store unrepresentable.
    pub fn init(self) -> (fm: FastMem<N, S>)
        ensures
            fm.wf(),
            fm@ == (AllocModel {
                cursor: 0,
                capacity: N as int,
                max_classes: S as int,
                classes: Seq::empty(),
            }),
    {
        let mut heap = Heap::new();
        heap.init(N);
        let fm = FastMem { heap, nodes: Vec::new(), classes: Vec::new() };
        proof {
            assert(fm@.classes =~= Seq::<ClassModel>::empty());
        }
        fm
    }
}

impl<const N: usize, const S: usize> FastMem<N, S> {
    /// The allocator's invariant, established by initialization and
    /// preserved by every operation: the arena cursors are bound to `N`
    /// bytes; class keys are distinct (so a key names at most one class)
    /// and their alignments sane; every free stack is a well-formed chain
    /// over the node store, no node sits on two chains, and a chained
    /// node carries exactly its class's key; and every node's slot is
    /// aligned, lies below the bump cursor, and overlaps no other node's
    /// slot.
    pub open spec fn wf(self) -> bool {
        &&& self.heap.initialized
        &&& self.heap.wf()
        &&& self.heap.end == N
        &&& self.classes@.len() <= S
        &&& forall|i: int, j: int|
            0 <= i < j < self.classes@.len() ==> !(self.classes@[i].width
                == self.classes@[j].width && self.classes@[i].align == self.classes@[j].align)
        &&& forall|i: int|
            0 <= i < self.classes@.len() ==> (#[trigger] self.classes@[i]).align >= 1
        &&& forall|i: int|
            0 <= i < self.classes@.len() ==> (#[trigger] self.classes@[i]).stack.wf(self.nodes@)
        &&& forall|i: int, j: int, n: usize|
            0 <= i < self.classes@.len() && 0 <= j < self.classes@.len() && i != j && (
            #[trigger] self.classes@[i].stack@.contains(n)) ==> !(#[trigger] self.classes@[
                j
            ].stack@.contains(n))
        &&& forall|i: int, k: int|
            0 <= i < self.classes@.len() && 0 <= k < self.classes@[i].stack@.len() ==> {
                let idx = #[trigger] self.classes@[i].stack@[k];
                &&& self.nodes@[idx as int].width@ == self.classes@[i].width
                &&& self.nodes@[idx as int].align@ == self.classes@[i].align
            }
        &&& forall|n: int|
            0 <= n < self.nodes@.len() ==> {
                let nd = #[trigger] self.nodes@[n];
                &&& nd.align@ >= 1
                &&& (nd.ptr as int) % (nd.align@ as int) == 0
                &&& nd.ptr + nd.width@ <= self.heap.start
            }
        &&& forall|m: int, n: int|
            0 <= m < n < self.nodes@.len() ==> ranges_disjoint(
                self.nodes@[m].ptr as int,
                self.nodes@[m].width@ as int,
                self.nodes@[n].ptr as int,
                self.nodes@[n].width@ as int,
            )
    }

    /// What ties a live handle to this allocator: its class and node
    /// indices are in range, the node is on no free chain (it is live),
    /// it records the handle's offset, and it carries its class's key.
    /// `try_new` establishes this for the handle it returns, and every
    /// operation preserves it for the handles it does not consume.
    pub open spec fn box_valid(self, node: usize, class: usize, offset: usize) -> bool {
        &&& (class as int) < self.classes@.len()
        &&& (node as int) < self.nodes@.len()
        &&& self.nodes@[node as int].ptr == offset
        &&& self.nodes@[node as int].width@ == self.classes@[class as int].width
        &&& self.nodes@[node as int].align@ == self.classes@[class as int].align
        &&& forall|i: int|
            0 <= i < self.classes@.len() ==> !(#[trigger] self.classes@[i]).stack@.contains(node)
    }

    /// Free bytes remaining in the arena, for diagnostics.
    pub fn free_size(&self) -> (n: usize)
        requires
            self.wf(),
        ensures
            n as int == N as int - self@.cursor,
    {
        self.heap.free_size()
    }

    /// The index of the class with key `(width, align)`, if any, matching
    /// the model's `find_class`.
    fn find_class_index(&self, width: usize, align: usize) -> (r: Option<usize>)
        ensures
            match r {
                Some(i) => {
                    &&& find_class(self@.classes, width as int, align as int) == i as int
                    &&& (i as int) < self.classes@.len()
                    &&& self.classes@[i as int].width == width
                    &&& self.classes@[i as int].align == align
                },
                None => find_class(self@.classes, width as int, align as int) == -1,
            },
    {
        let n = self.classes.len();
        let mut i: usize = 0;
        while i < n
            invariant
                i <= n,
                n == self.classes@.len(),
                forall|j: int|
                    0 <= j < i ==> !(self@.classes[j].width == width as int && self@.classes[
                        j
                    ].align == align as int),
            decreases n - i,
        {
            let c = &self.classes[i];
            if c.width == width && c.align == align {
                proof {
                    lemma_find_class(self@.classes, width as int, align as int);
                    let r = find_class(self@.classes, width as int, align as int);
                    assert(self@.classes[i as int].width == width as int);
                    assert(r != -1);
                    assert(r == i as int) by {
                        if r < i as int {
                            assert(!(self@.classes[r].width == width as int && self@.classes[
                                r
                            ].align == align as int));
                        }
                    }
                }
                return Some(i);
            }
            i += 1;
        }
        proof {
            lemma_find_class(self@.classes, width as int, align as int);
            let r = find_class(self@.classes, width as int, align as int);
            assert(r == -1) by {
                if r != -1 {
                    assert(!(self@.classes[r].width == width as int && self@.classes[r].align
                        == align as int));
                }
            }
        }
        None
    }

    /// Append a fresh node for a slot at `offset`, carved for a class of
    /// the given key; returns its store index.
    fn alloc_node(&mut self, offset: usize, width: usize, align: usize) -> (idx: usize)
        ensures
            idx == old(self).nodes@.len(),
            final(self).nodes@.len() == old(self).nodes@.len() + 1,
            forall|j: int| 0 <= j < old(self).nodes@.len() ==> final(self).nodes@[j] == old(
                self,
            ).nodes@[j],
            final(self).nodes@[idx as int].ptr == offset,
            final(self).nodes@[idx as int].next == 0,
            final(self).nodes@[idx as int].width@ == width,
            final(self).nodes@[idx as int].align@ == align,
            final(self).heap == old(self).heap,
            final(self).classes == old(self).classes,
    {
        let idx = self.nodes.len();
        self.nodes.push(Node { ptr: offset, next: 0, width: Ghost(width), align: Ghost(align) });
        idx
    }

    /// Allocate a slot for `t` in the size class of `T`'s layout:
    /// recycle the most recently released slot of that class if one is
    /// free, else carve a fresh slot from the arena (entering the class
    /// into the table on first sight). Returns `None` exactly on
    /// exhaustion — the arena cannot fit a fresh slot and the class has
    /// nothing to recycle, or the class table is full — and then leaves
    /// the allocator untouched. The step taken is precisely
    /// [`spec_try_new`] on the allocator's model.
    pub fn try_new<T>(&mut self, t: T) -> (r: Option<Box<T>>)
        requires
            old(self).wf(),
        ensures
            final(self).wf(),
            final(self)@ == spec_try_new(
                old(self)@,
                vstd::layout::size_of::<T>() as int,
                vstd::layout::align_of::<T>() as int,
            ).0,
            (match r {
                Some(b) => Some(b.offset as int),
                None => None::<int>,
            }) == spec_try_new(
                old(self)@,
                vstd::layout::size_of::<T>() as int,
                vstd::layout::align_of::<T>() as int,
            ).1,
            match r {
                Some(b) => {
                    &&& b.value == t
                    &&& final(self).box_valid(b.node, b.class, b.offset)
                    &&& final(self)@.classes[b.class as int].width == vstd::layout::size_of::<
                        T,
                    >() as int
                    &&& final(self)@.classes[b.class as int].align == vstd::layout::align_of::<
                        T,
                    >() as int
                    &&& (b.offset as int) % (vstd::layout::align_of::<T>() as int) == 0
                    &&& (b.offset as int) + (vstd::layout::size_of::<T>() as int) <= N as int
                },
                None => true,
            },
            forall|n: usize, c: usize, o: usize|
                old(self).box_valid(n, c, o) ==> final(self).box_valid(n, c, o),
    {
        vstd::layout::layout_for_type_is_valid::<T>();
        let w = core::mem::size_of::<T>();
        let a = core::mem::align_of::<T>();
        let ghost m0 = self@;
        let ghost wi = w as int;
        let ghost ai = a as int;
        match self.find_class_index(w, a) {
            Some(i) => {
                let ghost chain0 = self.classes@[i as int].stack@;
                let popped = self.classes[i].stack.pop(&self.nodes);
                match popped {
                    Some(idx) => {
                        proof {
                            assert(chain0.len() > 0);
                            assert(idx == chain0[0]);
                            assert((idx as int) < self.nodes@.len());
                        }
                        let offset = self.nodes[idx].ptr;
                        proof {
                            let prev = *old(self);
                            let cls = self.classes@;
                            let pcls = prev.classes@;
                            let nds = self.nodes@;
                            let ci = i as int;
                            assert(self.heap == prev.heap);
                            assert(nds == prev.nodes@);
                            assert(cls.len() == pcls.len());
                            assert(forall|j: int|
                                0 <= j < cls.len() && j != ci ==> cls[j] == pcls[j]);
                            assert(cls[ci].width == pcls[ci].width);
                            assert(cls[ci].align == pcls[ci].align);
                            assert(cls[ci].stack@ =~= chain0.drop_first());
                            // anything on the shortened chain was on the old
                            // one, one step down
                            assert forall|n: usize| cls[ci].stack@.contains(n) implies chain0.contains(
                                n,
                            ) by {
                                let k = choose|k: int|
                                    0 <= k < cls[ci].stack@.len() && cls[ci].stack@[k] == n;
                                assert(chain0[k + 1] == n);
                            }
                            assert(chain0.contains(idx)) by {
                                assert(chain0[0] == idx);
                            }
                            // the invariant survives: only class `i`'s chain
                            // changed, and it only shrank
                            assert forall|j: int| 0 <= j < cls.len() implies (#[trigger] cls[j]).stack.wf(
                                nds,
                            ) by {
                                if j != ci {
                                    assert(cls[j] == pcls[j]);
                                }
                            }
                            assert forall|jj: int, j: int, n: usize|
                                0 <= jj < cls.len() && 0 <= j < cls.len() && jj != j && (
                                #[trigger] cls[jj].stack@.contains(n)) implies !(#[trigger] cls[
                                j
                            ].stack@.contains(n)) by {
                                if jj == ci {
                                    assert(chain0.contains(n));
                                    assert(pcls[ci].stack@.contains(n));
                                    assert(!pcls[j].stack@.contains(n));
                                    assert(cls[j] == pcls[j]);
                                } else if j == ci {
                                    assert(pcls[jj].stack@.contains(n));
                                    if cls[ci].stack@.contains(n) {
                                        assert(chain0.contains(n));
                                        assert(pcls[ci].stack@.contains(n));
                                        assert(!pcls[jj].stack@.contains(n));
                                    }
                                } else {
                                    assert(cls[jj] == pcls[jj]);
                                    assert(cls[j] == pcls[j]);
                                }
                            }
                            assert forall|j: int, k: int|
                                0 <= j < cls.len() && 0 <= k < cls[j].stack@.len() implies {
                                    let nd = #[trigger] cls[j].stack@[k];
                                    &&& nds[nd as int].width@ == cls[j].width
                                    &&& nds[nd as int].align@ == cls[j].align
                                } by {
                                if j == ci {
                                    assert(cls[ci].stack@[k] == chain0[k + 1]);
                                    assert(pcls[ci].stack@[k + 1] == chain0[k + 1]);
                                } else {
                                    assert(cls[j] == pcls[j]);
                                }
                            }
                            assert(self.wf());
                            // the step matches the model transition
                            let m1 = spec_try_new(m0, wi, ai).0;
                            assert(m0.classes[ci].free.len() == chain0.len());
                            assert(m0.classes[ci].free[0] == offset as int) by {
                                assert(chain0[0] == idx);
                            }
                            assert forall|j: int| 0 <= j < cls.len() implies self@.classes[j]
                                =~= m1.classes[j] by {
                                if j == ci {
                                    assert forall|k: int|
                                        0 <= k < cls[ci].stack@.len() implies self@.classes[
                                        ci
                                    ].free[k] == m0.classes[ci].free[k + 1] by {
                                        assert(cls[ci].stack@[k] == chain0[k + 1]);
                                    }
                                    assert(self@.classes[ci].free =~= m0.classes[
                                        ci
                                    ].free.drop_first());
                                } else {
                                    assert(cls[j] == pcls[j]);
                                    assert(self@.classes[j].free =~= m0.classes[j].free);
                                }
                            }
                            assert(self@.classes =~~= m1.classes);
                            assert(self@ =~~= m1);
                            // the handle is valid and its slot aligned
                            assert(pcls[ci].stack@[0] == idx);
                            assert(nds[idx as int].width@ == pcls[ci].width);
                            assert(nds[idx as int].align@ == pcls[ci].align);
                            assert forall|j: int| 0 <= j < cls.len() implies !(#[trigger] cls[
                                j
                            ].stack@.contains(idx)) by {
                                if j != ci {
                                    assert(cls[j] == pcls[j]);
                                    assert(pcls[ci].stack@.contains(idx));
                                }
                            }
                            assert(self.box_valid(idx, i, offset));
                            assert((offset as int) % ai == 0);
                            assert(offset + nds[idx as int].width@ <= self.heap.start);
                            // handles live before stay live
                            assert forall|n: usize, c: usize, o: usize|
                                prev.box_valid(n, c, o) implies self.box_valid(n, c, o) by {
                                assert forall|j: int| 0 <= j < cls.len() implies !(
                                #[trigger] cls[j].stack@.contains(n)) by {
                                    if j == ci {
                                        if cls[ci].stack@.contains(n) {
                                            assert(chain0.contains(n));
                                            assert(pcls[ci].stack@.contains(n));
                                        }
                                    } else {
                                        assert(cls[j] == pcls[j]);
                                    }
                                }
                            }
                        }
                        Some(Box::new(idx, i, offset, t))
                    },
                    None => {
                        proof {
                            assert(chain0.len() == 0);
                            assert(m0.classes[i as int].free.len() == 0);
                        }
                        match self.heap.allocate(w, a) {
                            Some(offset) => {
                                let idx = self.alloc_node(offset, w, a);
                                proof {
                                    let prev = *old(self);
                                    let cls = self.classes@;
                                    let pcls = prev.classes@;
                                    let nds = self.nodes@;
                                    let ci = i as int;
                                    lemma_align_up(prev.heap.start as int, ai);
                                    assert(nds.len() == prev.nodes@.len() + 1);
                                    assert(forall|j: int|
                                        0 <= j < prev.nodes@.len() ==> nds[j] == prev.nodes@[j]);
                                    assert(cls.len() == pcls.len());
                                    assert(forall|j: int|
                                        0 <= j < cls.len() && j != ci ==> cls[j] == pcls[j]);
                                    assert(cls[ci].width == pcls[ci].width);
                                    assert(cls[ci].align == pcls[ci].align);
                                    assert(cls[ci].stack@ =~= pcls[ci].stack@);
                                    assert(cls[ci].stack.head == pcls[ci].stack.head);
                                    assert(forall|j: int|
                                        0 <= j < cls.len() ==> (#[trigger] cls[j]).stack@ == pcls[
                                            j
                                        ].stack@ && cls[j].stack.head == pcls[j].stack.head
                                            && cls[j].width == pcls[j].width && cls[j].align
                                            == pcls[j].align);
                                    // every chain is untouched and its nodes
                                    // kept their fields
                                    assert forall|j: int| 0 <= j < cls.len() implies (
                                    #[trigger] cls[j]).stack.wf(nds) by {
                                        assert(pcls[j].stack.wf(prev.nodes@));
                                        assert forall|k: int|
                                            0 <= k < cls[j].stack@.len() implies nds[cls[
                                            j
                                        ].stack@[k] as int] == prev.nodes@[cls[j].stack@[
                                            k
                                        ] as int] by {
                                            assert(pcls[j].stack@[k] == cls[j].stack@[k]);
                                        }
                                    }
                                    // the fresh slot starts at or above the
                                    // old cursor, so it overlaps nothing
                                    assert(prev.heap.start <= offset);
                                    assert(self.heap.start == offset + w);
                                    assert(nds[idx as int].ptr == offset);
                                    assert(nds[idx as int].width@ == w);
                                    assert((offset as int) % ai == 0);
                                    assert(self.wf());
                                    // the step matches the model transition
                                    let m1 = spec_try_new(m0, wi, ai).0;
                                    assert(m0.classes[ci].free.len() == 0);
                                    assert(crate::model::class_fits(m0, wi, ai));
                                    assert forall|j: int| 0 <= j < cls.len() implies self@.classes[
                                        j
                                    ] =~= m0.classes[j] by {
                                        assert forall|k: int|
                                            0 <= k < cls[j].stack@.len() implies self@.classes[
                                            j
                                        ].free[k] == m0.classes[j].free[k] by {
                                            assert(cls[j].stack@[k] == pcls[j].stack@[k]);
                                            assert(nds[cls[j].stack@[k] as int] == prev.nodes@[
                                                cls[j].stack@[k] as int
                                            ]);
                                        }
                                        assert(self@.classes[j].free =~= m0.classes[j].free);
                                    }
                                    assert(self@.classes =~~= m1.classes);
                                    assert(self@ =~~= m1);
                                    // the handle is valid: the fresh node is
                                    // on no chain
                                    assert forall|j: int| 0 <= j < cls.len() implies !(
                                    #[trigger] cls[j]).stack@.contains(idx) by {
                                        if cls[j].stack@.contains(idx) {
                                            let k = choose|k: int|
                                                0 <= k < cls[j].stack@.len() && cls[j].stack@[k]
                                                    == idx;
                                            assert(pcls[j].stack@[k] == idx);
                                            assert((idx as int) < prev.nodes@.len());
                                        }
                                    }
                                    assert(self.box_valid(idx, i, offset));
                                    // handles live before stay live
                                    assert forall|n: usize, c: usize, o: usize|
                                        prev.box_valid(n, c, o) implies self.box_valid(
                                        n,
                                        c,
                                        o,
                                    ) by {
                                        assert forall|j: int| 0 <= j < cls.len() implies !(
                                        #[trigger] cls[j].stack@.contains(n)) by {
                                            assert(cls[j].stack@ == pcls[j].stack@);
                                        }
                                        assert(nds[n as int] == prev.nodes@[n as int]);
                                    }
                                }
                                Some(Box::new(idx, i, offset, t))
                            },
                            None => {
                                proof {
                                    let prev = *old(self);
                                    assert(self.heap == prev.heap);
                                    assert(!crate::model::class_fits(m0, wi, ai));
                                    assert forall|j: int|
                                        0 <= j < self.classes@.len() implies self@.classes[j]
                                        =~= m0.classes[j] by {
                                        assert(self.classes@[j].stack@ == prev.classes@[
                                            j
                                        ].stack@);
                                    }
                                    assert(self@ =~~= m0);
                                    assert forall|j: int| 0 <= j < self.classes@.len() implies (
                                    #[trigger] self.classes@[j]).stack.wf(self.nodes@) by {
                                        assert(self.classes@[j].stack@ == prev.classes@[
                                            j
                                        ].stack@);
                                        assert(self.classes@[j].stack.head == prev.classes@[
                                            j
                                        ].stack.head);
                                        assert(prev.classes@[j].stack.wf(prev.nodes@));
                                    }
                                    assert(self.wf());
                                    assert forall|n: usize, c: usize, o: usize|
                                        prev.box_valid(n, c, o) implies self.box_valid(
                                        n,
                                        c,
                                        o,
                                    ) by {
                                        assert forall|j: int|
                                            0 <= j < self.classes@.len() implies !(
                                        #[trigger] self.classes@[j].stack@.contains(n)) by {
                                            assert(self.classes@[j].stack@ == prev.classes@[
                                                j
                                            ].stack@);
                                        }
                                    }
                                }
                                None
                            },
                        }
                    },
                }
            },
            None => {
                if self.classes.len() >= S {
                    proof {
                        assert(self@ =~~= m0);
                    }
                    return None;
                }
                match self.heap.allocate(w, a) {
                    Some(offset) => {
                        let idx = self.alloc_node(offset, w, a);
                        let i = self.classes.len();
                        self.classes.push(SizeClass { width: w, align: a, stack: Stack::new() });
                        proof {
                            let prev = *old(self);
                            let cls = self.classes@;
                            let pcls = prev.classes@;
                            let nds = self.nodes@;
                            let ci = i as int;
                            lemma_align_up(prev.heap.start as int, ai);
                            lemma_find_class(m0.classes, wi, ai);
                            assert(nds.len() == prev.nodes@.len() + 1);
                            assert(forall|j: int|
                                0 <= j < prev.nodes@.len() ==> nds[j] == prev.nodes@[j]);
                            assert(cls.len() == pcls.len() + 1);
                            assert(forall|j: int| 0 <= j < pcls.len() ==> cls[j] == pcls[j]);
                            assert(cls[ci].width == w && cls[ci].align == a);
                            assert(cls[ci].stack@ =~= Seq::<usize>::empty());
                            // the new class's key matches no earlier class
                            assert forall|j: int| 0 <= j < ci implies !(cls[j].width == w && cls[
                                j
                            ].align == a) by {
                                assert(!(m0.classes[j].width == wi && m0.classes[j].align == ai));
                            }
                            // old chains are untouched and their nodes kept
                            // their fields
                            assert forall|j: int| 0 <= j < cls.len() implies (
                            #[trigger] cls[j]).stack.wf(nds) by {
                                if j < pcls.len() {
                                    assert(pcls[j].stack.wf(prev.nodes@));
                                    assert forall|k: int|
                                        0 <= k < cls[j].stack@.len() implies nds[cls[
                                        j
                                    ].stack@[k] as int] == prev.nodes@[cls[j].stack@[
                                        k
                                    ] as int] by {
                                        assert(pcls[j].stack@[k] == cls[j].stack@[k]);
                                    }
                                }
                            }
                            assert(prev.heap.start <= offset);
                            assert(self.heap.start == offset + w);
                            assert(nds[idx as int].ptr == offset);
                            assert((offset as int) % ai == 0);
                            assert(self.wf());
                            // the step matches the model transition
                            let m1 = spec_try_new(m0, wi, ai).0;
                            assert(crate::model::class_fits(m0, wi, ai));
                            assert(m1.classes.len() == m0.classes.len() + 1);
                            assert forall|j: int| 0 <= j < cls.len() implies self@.classes[j]
                                =~= m1.classes[j] by {
                                if j < pcls.len() {
                                    assert forall|k: int|
                                        0 <= k < cls[j].stack@.len() implies self@.classes[
                                        j
                                    ].free[k] == m0.classes[j].free[k] by {
                                        assert(cls[j].stack@[k] == pcls[j].stack@[k]);
                                        assert(nds[cls[j].stack@[k] as int] == prev.nodes@[cls[
                                            j
                                        ].stack@[k] as int]);
                                    }
                                    assert(self@.classes[j].free =~= m0.classes[j].free);
                                    assert(m1.classes[j] == m0.classes[j]);
                                } else {
                                    assert(self@.classes[ci].free =~= Seq::<int>::empty());
                                }
                            }
                            assert(self@.classes =~~= m1.classes);
                            assert(self@ =~~= m1);
                            // the handle is valid: the fresh node is on no
                            // chain
                            assert forall|j: int| 0 <= j < cls.len() implies !(
                            #[trigger] cls[j]).stack@.contains(idx) by {
                                if cls[j].stack@.contains(idx) {
                                    let k = choose|k: int|
                                        0 <= k < cls[j].stack@.len() && cls[j].stack@[k] == idx;
                                    assert(j < pcls.len());
                                    assert(pcls[j].stack@[k] == idx);
                                    assert((idx as int) < prev.nodes@.len());
                                }
                            }
                            assert(self.box_valid(idx, i, offset));
                            // handles live before stay live
                            assert forall|n: usize, c: usize, o: usize|
                                prev.box_valid(n, c, o) implies self.box_valid(n, c, o) by {
                                assert forall|j: int| 0 <= j < cls.len() implies !(
                                #[trigger] cls[j].stack@.contains(n)) by {
                                    if j < pcls.len() {
                                        assert(cls[j].stack@ == pcls[j].stack@);
                                    } else {
                                        assert(cls[j].stack@.len() == 0);
                                    }
                                }
                                assert(nds[n as int] == prev.nodes@[n as int]);
                            }
                        }
                        Some(Box::new(idx, i, offset, t))
                    },
                    None => {
                        proof {
                            assert(!crate::model::class_fits(m0, wi, ai));
                            assert(self@ =~~= m0);
                        }
                        None
                    },
                }
            },
        }
    }

    /// Release a handle: its node goes back on top of its class's free
    /// stack, where the very next allocation of that class will find it,
    /// and the stored value is handed back. This is the only path by
    /// which a slot is reclaimed; the step is precisely [`spec_release`]
    /// on the allocator's model.
    pub fn release<T>(&mut self, b: Box<T>) -> (t: T)
        requires
            old(self).wf(),
            old(self).box_valid(b.node, b.class, b.offset),
        ensures
            final(self).wf(),
            final(self)@ == spec_release(old(self)@, b.class as int, b.offset as int),
            t == b.value,
            forall|n: usize, c: usize, o: usize|
                old(self).box_valid(n, c, o) && n != b.node ==> final(self).box_valid(n, c, o),
    {
        let Box { node, class, offset, value } = b;
        let ghost m0 = self@;
        let ghost chain0 = self.classes@[class as int].stack@;
        self.classes[class].stack.push(&mut self.nodes, node);
        proof {
            let prev = *old(self);
            let cls = self.classes@;
            let pcls = prev.classes@;
            let nds = self.nodes@;
            let ci = class as int;
            let ni = node as int;
            assert(self.heap == prev.heap);
            assert(cls.len() == pcls.len());
            assert(forall|j: int| 0 <= j < cls.len() && j != ci ==> cls[j] == pcls[j]);
            assert(cls[ci].width == pcls[ci].width);
            assert(cls[ci].align == pcls[ci].align);
            assert(cls[ci].stack@ =~= seq![node] + chain0);
            assert(nds.len() == prev.nodes@.len());
            assert(forall|j: int|
                0 <= j < nds.len() && j != ni ==> nds[j] == prev.nodes@[j]);
            assert(nds[ni].ptr == prev.nodes@[ni].ptr);
            assert(nds[ni].width == prev.nodes@[ni].width);
            assert(nds[ni].align == prev.nodes@[ni].align);
            // no chain held the node, so every old chain is intact
            assert forall|j: int| 0 <= j < cls.len() && j != ci implies (
            #[trigger] cls[j]).stack.wf(nds) by {
                assert(pcls[j].stack.wf(prev.nodes@));
                assert forall|k: int|
                    0 <= k < cls[j].stack@.len() implies nds[cls[j].stack@[k] as int]
                        == prev.nodes@[cls[j].stack@[k] as int] by {
                    assert(pcls[j].stack@[k] != node);
                }
            }
            // the extended chain of the released class
            assert forall|jj: int, j: int, n: usize|
                0 <= jj < cls.len() && 0 <= j < cls.len() && jj != j && (#[trigger] cls[
                jj
            ].stack@.contains(n)) implies !(#[trigger] cls[j].stack@.contains(n)) by {
                if jj == ci {
                    if n == node {
                        assert(!pcls[j].stack@.contains(n));
                        assert(cls[j] == pcls[j]);
                    } else {
                        let k = choose|k: int|
                            0 <= k < cls[ci].stack@.len() && cls[ci].stack@[k] == n;
                        assert(chain0[k - 1] == n);
                        assert(pcls[ci].stack@.contains(n));
                        assert(cls[j] == pcls[j]);
                    }
                } else if j == ci {
                    assert(pcls[jj].stack@.contains(n));
                    assert(n != node);
                    if cls[ci].stack@.contains(n) {
                        let k = choose|k: int|
                            0 <= k < cls[ci].stack@.len() && cls[ci].stack@[k] == n;
                        assert(k > 0);
                        assert(chain0[k - 1] == n);
                        assert(pcls[ci].stack@.contains(n));
                    }
                } else {
                    assert(cls[jj] == pcls[jj]);
                    assert(cls[j] == pcls[j]);
                }
            }
            assert forall|j: int, k: int|
                0 <= j < cls.len() && 0 <= k < cls[j].stack@.len() implies {
                    let nd = #[trigger] cls[j].stack@[k];
                    &&& nds[nd as int].width@ == cls[j].width
                    &&& nds[nd as int].align@ == cls[j].align
                } by {
                if j == ci {
                    if k == 0 {
                        assert(cls[ci].stack@[0] == node);
                    } else {
                        assert(cls[ci].stack@[k] == chain0[k - 1]);
                        assert(pcls[ci].stack@[k - 1] == chain0[k - 1]);
                    }
                } else {
                    assert(cls[j] == pcls[j]);
                }
            }
            assert(self.wf());
            // the step matches the model transition
            let m1 = spec_release(m0, ci, offset as int);
            assert forall|j: int| 0 <= j < cls.len() implies self@.classes[j] =~= m1.classes[
                j
            ] by {
                if j == ci {
                    assert forall|k: int|
                        0 <= k < cls[ci].stack@.len() implies self@.classes[ci].free[k]
                            == m1.classes[ci].free[k] by {
                        if k == 0 {
                            assert(cls[ci].stack@[0] == node);
                            assert(nds[ni].ptr == offset);
                        } else {
                            assert(cls[ci].stack@[k] == chain0[k - 1]);
                            assert(chain0[k - 1] != node);
                            assert(nds[chain0[k - 1] as int] == prev.nodes@[chain0[k
                                - 1] as int]);
                        }
                    }
                    assert(self@.classes[ci].free =~= m1.classes[ci].free);
                } else {
                    assert(cls[j] == pcls[j]);
                    assert forall|k: int|
                        0 <= k < cls[j].stack@.len() implies self@.classes[j].free[k]
                            == m0.classes[j].free[k] by {
                        assert(pcls[j].stack@[k] != node);
                        assert(nds[pcls[j].stack@[k] as int] == prev.nodes@[pcls[j].stack@[
                            k
                        ] as int]);
                    }
                    assert(self@.classes[j].free =~= m0.classes[j].free);
                }
            }
            assert(self@.classes =~~= m1.classes);
            assert(self@ =~~= m1);
            // other handles stay live: their nodes are untouched and still
            // on no chain
            assert forall|n: usize, c: usize, o: usize|
                prev.box_valid(n, c, o) && n != node implies self.box_valid(n, c, o) by {
                assert forall|j: int| 0 <= j < cls.len() implies !(#[trigger] cls[
                    j
                ].stack@.contains(n)) by {
                    if j == ci {
                        if cls[ci].stack@.contains(n) {
                            let k = choose|k: int|
                                0 <= k < cls[ci].stack@.len() && cls[ci].stack@[k] == n;
                            assert(k > 0);
                            assert(chain0[k - 1] == n);
                            assert(pcls[ci].stack@.contains(n));
                        }
                    } else {
                        assert(cls[j] == pcls[j]);
                    }
                }
                assert(nds[n as int] == prev.nodes@[n as int]);
            }
        }
        value
    }

    /// Allocate a slot for `t`, panicking-style: callable only where
    /// allocation is known not to fail, which is exactly when
    /// [`spec_try_new`] succeeds on the allocator's model.
    pub fn new<T>(&mut self, t: T) -> (b: Box<T>)
        requires
            old(self).wf(),
            spec_try_new(
                old(self)@,
                vstd::layout::size_of::<T>() as int,
                vstd::layout::align_of::<T>() as int,
            ).1 is Some,
        ensures
            final(self).wf(),
            final(self)@ == spec_try_new(
                old(self)@,
                vstd::layout::size_of::<T>() as int,
                vstd::layout::align_of::<T>() as int,
            ).0,
            Some(b.offset as int) == spec_try_new(
                old(self)@,
                vstd::layout::size_of::<T>() as int,
                vstd::layout::align_of::<T>() as int,
            ).1,
            b.value == t,
            final(self).box_valid(b.node, b.class, b.offset),
            final(self)@.classes[b.class as int].width == vstd::layout::size_of::<T>() as int,
            final(self)@.classes[b.class as int].align == vstd::layout::align_of::<T>() as int,
            (b.offset as int) % (vstd::layout::align_of::<T>() as int) == 0,
            forall|n: usize, c: usize, o: usize|
                old(self).box_valid(n, c, o) ==> final(self).box_valid(n, c, o),
    {
        match self.try_new(t) {
            Some(b) => b,
            None => vstd::pervasive::unreached(),
        }
    }

    /// A well-formed allocator's model satisfies the model invariant, so
    /// every law proved over [`crate::model`] applies to it.
    pub proof fn lemma_wf_implies_minv(&self)
        requires
            self.wf(),
        ensures
            minv(self@),
    {
        let m = self@;
        let cls = self.classes@;
        let nds = self.nodes@;
        assert forall|i: int, k: int|
            0 <= i < m.classes.len() && 0 <= k < m.classes[i].free.len() implies {
                let off = #[trigger] m.classes[i].free[k];
                &&& off >= 0
                &&& off % m.classes[i].align == 0
                &&& off + m.classes[i].width <= m.cursor
            } by {
            let idx = cls[i].stack@[k];
            assert(nds[idx as int].width@ == cls[i].width);
            assert(nds[idx as int].align@ == cls[i].align);
        }
        assert forall|i: int, k: int, j: int, l: int|
            0 <= i < m.classes.len() && 0 <= k < m.classes[i].free.len() && 0 <= j
                < m.classes.len() && 0 <= l < m.classes[j].free.len() && (i != j || k != l) implies ranges_disjoint(
            m.classes[i].free[k],
            m.classes[i].width,
            m.classes[j].free[l],
            m.classes[j].width,
        ) by {
            let a = cls[i].stack@[k];
            let b = cls[j].stack@[l];
            assert(m.classes[i].free[k] == nds[a as int].ptr as int);
            assert(m.classes[j].free[l] == nds[b as int].ptr as int);
            assert(nds[a as int].width@ == cls[i].width);
            assert(nds[b as int].width@ == cls[j].width);
            if i == j {
                assert(a != b);
            } else {
                assert(cls[i].stack@.contains(a));
                if a == b {
                    assert(cls[j].stack@.contains(a));
                }
            }
            if (a as int) < (b as int) {
                assert(ranges_disjoint(
                    nds[a as int].ptr as int,
                    nds[a as int].width@ as int,
                    nds[b as int].ptr as int,
                    nds[b as int].width@ as int,
                ));
            } else {
                assert(ranges_disjoint(
                    nds[b as int].ptr as int,
                    nds[b as int].width@ as int,
                    nds[a as int].ptr as int,
                    nds[a as int].width@ as int,
                ));
            }
        }
        assert(minv(m));
    }
}

} // verus!
