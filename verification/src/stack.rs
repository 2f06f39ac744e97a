//! The intrusive free-list stack.
//!
//! Recyclable slots are represented by [`Node`]s held in a node store
//! (a `Vec<Node>` owned by the allocator facade); a node names its slot by
//! the slot's arena offset, and the chain runs through `next` links that
//! are node-store indices. A [`Stack`] is one size class's free list: just
//! the index of the top node, plus a ghost view of the whole chain that
//! the contracts and invariants speak of.
//!
//! Index encoding: in `Stack::head` and `Node::next`, the value `0` means
//! "none" and `i + 1` means "node `i` of the store". A node's slot offset
//! is stored directly.

use vstd::prelude::*;

verus! {

/// One recyclable slot: the offset of its storage in the arena, the link
/// to the next free node, and (ghost) the width and alignment of the size
/// class the slot was carved for.
pub struct Node {
    /// Arena offset of the first byte of this node's slot.
    pub ptr: usize,
    /// Next node in the free chain, as store index + 1; `0` ends the chain.
    pub next: usize,
    /// Ghost: byte width of the slot.
    pub width: Ghost<usize>,
    /// Ghost: alignment the slot satisfies.
    pub align: Ghost<usize>,
}

impl Node {
    /// A free-standing node, linked to nothing.
    pub fn new(ptr: Option<usize>, next: Option<usize>) -> (n: Node)
        requires
            next matches Some(i) ==> i < usize::MAX,
        ensures
            n.ptr == (match ptr {
                Some(p) => p,
                None => 0usize,
            }),
            n.next as int == (match next {
                Some(i) => i + 1,
                None => 0int,
            }),
            n.width@ == 0usize,
            n.align@ == 1usize,
    {
        Node {
            ptr: match ptr {
                Some(p) => p,
                None => 0,
            },
            next: match next {
                Some(i) => i + 1,
                None => 0,
            },
            width: Ghost(0),
            align: Ghost(1),
        }
    }
}

/// One size class's free list: a singly-linked chain of nodes, threaded
/// through the node store by indices, in last-in-first-out order.
pub struct Stack {
    /// Store index + 1 of the top node; `0` when the stack is empty.
    pub head: usize,
    /// Ghost: the chain of node indices, top first.
    pub chain: Ghost<Seq<usize>>,
}

impl View for Stack {
    type V = Seq<usize>;

    open spec fn view(&self) -> Seq<usize> {
        self.chain@
    }
}

impl Stack {
    /// The chain is a well-formed free list over the node store `nodes`:
    /// indices in range and distinct, the head names the top, and each
    /// node's link names its successor (or `0` at the end).
    pub open spec fn wf(self, nodes: Seq<Node>) -> bool {
        &&& forall|i: int| 0 <= i < self@.len() ==> (self@[i] as int) < nodes.len()
        &&& forall|i: int, j: int| 0 <= i < j < self@.len() ==> self@[i] != self@[j]
        &&& (self.head as int) == (if self@.len() == 0 {
            0int
        } else {
            self@[0] as int + 1
        })
        &&& forall|i: int|
            0 <= i < self@.len() ==> (nodes[self@[i] as int].next as int) == (if i + 1
                < self@.len() {
                self@[i + 1] as int + 1
            } else {
                0int
            })
    }

    /// An empty stack; well-formed over any node store.
    pub fn new() -> (s: Stack)
        ensures
            s@ =~= Seq::<usize>::empty(),
            s.head == 0,
            forall|nodes: Seq<Node>| s.wf(nodes),
    {
        Stack { head: 0, chain: Ghost(Seq::empty()) }
    }

    /// Push node `idx` on top: its link is set to the old head and it
    /// becomes the new top. O(1); the node's slot data is not inspected.
    pub fn push(&mut self, nodes: &mut Vec<Node>, idx: usize)
        requires
            old(self).wf(old(nodes)@),
            idx < old(nodes).len(),
            !old(self)@.contains(idx),
        ensures
            final(self).wf(final(nodes)@),
            final(self)@ =~= seq![idx] + old(self)@,
            final(nodes)@.len() == old(nodes)@.len(),
            forall|j: int| 0 <= j < old(nodes)@.len() && j != idx ==> final(nodes)@[j] == old(
                nodes,
            )@[j],
            final(nodes)@[idx as int].ptr == old(nodes)@[idx as int].ptr,
            final(nodes)@[idx as int].width == old(nodes)@[idx as int].width,
            final(nodes)@[idx as int].align == old(nodes)@[idx as int].align,
            final(nodes)@[idx as int].next == old(self).head,
    {
        let old_head = self.head;
        let link = &mut nodes[idx].next;
        *link = old_head;
        self.head = idx + 1;
        proof {
            self.chain@ = seq![idx] + self.chain@;
        }
    }

    /// Pop the top node and return its store index, or `None` when the
    /// stack is empty. O(1); the node's link is left stale.
    pub fn pop(&mut self, nodes: &Vec<Node>) -> (r: Option<usize>)
        requires
            old(self).wf(nodes@),
        ensures
            final(self).wf(nodes@),
            old(self)@.len() == 0 ==> r is None && final(self)@ =~= old(self)@ && final(self).head
                == old(self).head,
            old(self)@.len() > 0 ==> r == Some(old(self)@[0]) && final(self)@ =~= old(
                self,
            )@.drop_first() && !final(self)@.contains(old(self)@[0]),
    {
        if self.head == 0 {
            None
        } else {
            let idx = self.head - 1;
            self.head = nodes[idx].next;
            proof {
                self.chain@ = self.chain@.drop_first();
                assert(!self@.contains(old(self)@[0])) by {
                    assert forall|i: int| 0 <= i < self@.len() implies self@[i] != old(
                        self,
                    )@[0] by {
                        assert(old(self)@[i + 1] != old(self)@[0]);
                    }
                }
            }
            Some(idx)
        }
    }
}

/// The chain that results from pushing the elements of `xs`, in order,
/// onto a stack whose chain is `c`.
pub open spec fn push_all(c: Seq<usize>, xs: Seq<usize>) -> Seq<usize>
    decreases xs.len(),
{
    if xs.len() == 0 {
        c
    } else {
        push_all(seq![xs[0]] + c, xs.drop_first())
    }
}

/// Last in, first out: pushing `xs` in order leaves the stack holding
/// `xs` reversed on top of what was there, so the following pops return
/// exactly the reverse of the push order, and once they have consumed
/// `xs` the stack is back to `c` (empty, if it started empty).
pub proof fn lemma_push_all_reverses(c: Seq<usize>, xs: Seq<usize>)
    ensures
        push_all(c, xs) =~= xs.reverse() + c,
    decreases xs.len(),
{
    if xs.len() == 0 {
        assert(xs.reverse() =~= Seq::<usize>::empty());
    } else {
        lemma_push_all_reverses(seq![xs[0]] + c, xs.drop_first());
        assert(xs.drop_first().reverse() =~= xs.reverse().drop_last()) by {
            assert(xs.reverse().len() == xs.len());
            assert forall|i: int| 0 <= i < xs.len() - 1 implies xs.reverse()[i] == xs.drop_first().reverse()[i] by {
                assert(xs.reverse()[i] == xs[xs.len() - 1 - i]);
                assert(xs.drop_first().reverse()[i] == xs.drop_first()[xs.len() - 2 - i]);
            }
        }
        assert(push_all(c, xs) =~= xs.reverse() + c);
    }
}

} // verus!
