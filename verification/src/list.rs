//! A simple singly-linked list with last-in-first-out access.
//!
//! An early, self-contained form of the free-list idea: values are pushed
//! on the front and popped off the front. The list owns its nodes, and its
//! view is the sequence of stored values, front first.

use vstd::prelude::*;

verus! {

/// One cell of the list: a value and the rest of the chain.
#[derive(Debug)]
pub struct Node<T> {
    pub data: T,
    pub next: Option<Box<Node<T>>>,
}

/// A singly-linked list of `T`, viewed as the sequence of its values,
/// front (most recently pushed) first.
#[derive(Debug)]
pub struct List<T> {
    pub head: Option<Box<Node<T>>>,
}

/// The sequence of values stored in a chain of nodes, front first.
pub open spec fn chain_seq<T>(n: Option<Box<Node<T>>>) -> Seq<T>
    decreases n,
{
    match n {
        None => Seq::empty(),
        Some(b) => seq![b.data] + chain_seq(b.next),
    }
}

impl<T> View for List<T> {
    type V = Seq<T>;

    open spec fn view(&self) -> Seq<T> {
        chain_seq(self.head)
    }
}

impl<T> List<T> {
    /// The empty list.
    pub fn null() -> (l: List<T>)
        ensures
            l@ =~= Seq::<T>::empty(),
    {
        List { head: None }
    }

    /// Push a value on the front.
    pub fn push(self, data: T) -> (l: List<T>)
        ensures
            l@ =~= seq![data] + self@,
    {
        List { head: Some(Box::new(Node { data, next: self.head })) }
    }

    /// Pop the front value; the list must not be empty.
    pub fn pop(self) -> (r: (List<T>, T))
        requires
            self@.len() > 0,
        ensures
            r.1 == self@[0],
            r.0@ =~= self@.drop_first(),
    {
        match self.head {
            Some(b) => {
                let n = *b;
                (List { head: n.next }, n.data)
            },
            None => vstd::pervasive::unreached(),
        }
    }

    /// The stored values as a vector, front first.
    pub fn to_raw(self) -> (v: Vec<T>)
        ensures
            v@ =~= self@,
    {
        let mut v: Vec<T> = Vec::new();
        let mut rest = self.head;
        proof {
            assert(v@ + chain_seq(rest) =~= chain_seq(self.head));
        }
        loop
            invariant
                v@ + chain_seq(rest) =~= chain_seq(self.head),
            decreases chain_seq(rest).len(),
        {
            match rest {
                Some(b) => {
                    let n = *b;
                    v.push(n.data);
                    rest = n.next;
                    proof {
                        assert(v@ + chain_seq(rest) =~= chain_seq(self.head));
                    }
                },
                None => {
                    proof {
                        assert(v@ =~= chain_seq(self.head));
                    }
                    return v;
                },
            }
        }
    }

    /// Rebuild a list from a vector of values, front first; the inverse of
    /// `to_raw`.
    #[verifier::loop_isolation(false)]
    pub fn to_list(raw: Vec<T>) -> (l: List<T>)
        ensures
            l@ =~= raw@,
    {
        let ghost full = raw@;
        let mut rest = raw;
        let mut l: List<T> = List::null();
        loop
            invariant
                rest@ + l@ =~= full,
            decreases rest@.len(),
        {
            match rest.pop() {
                Some(x) => {
                    l = l.push(x);
                    proof {
                        assert(rest@ + l@ =~= full);
                    }
                },
                None => {
                    proof {
                        assert(l@ =~= full);
                    }
                    return l;
                },
            }
        }
    }
}

} // verus!
