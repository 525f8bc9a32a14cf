//! The stack type: a chain of uniquely owned nodes.
use vstd::prelude::*;

use crate::model::{pop_model, push_model};

verus! {

/// A LIFO stack of `i32` values, kept as a chain of uniquely owned nodes.
///
/// Its view is the sequence of stored values, top of the stack first.
pub struct List {
    head: Link,
}

/// A slot that holds either nothing or the one node it owns.
enum Link {
    Empty,
    More(Box<Node>),
}

struct Node {
    elem: i32,
    next: Link,
}

impl Link {
    /// The values along the chain that starts at this link, head first.
    spec fn view(&self) -> Seq<i32>
        decreases self,
    {
        match self {
            Link::Empty => Seq::empty(),
            Link::More(node) => seq![node.elem] + node.next.view(),
        }
    }

    /// Moves the chain out of this slot, leaving the slot empty.
    fn take(&mut self) -> (r: Link)
        ensures
            r == *old(self),
            *final(self) == Link::Empty,
        opens_invariants none
        no_unwind
    {
        let mut r = Link::Empty;
        core::mem::swap(self, &mut r);
        r
    }
}

impl View for List {
    type V = Seq<i32>;

    closed spec fn view(&self) -> Seq<i32> {
        self.head.view()
    }
}

impl List {
    /// Makes an empty stack.
    pub fn new() -> (r: Self)
        ensures
            r@ == Seq::<i32>::empty(),
    {
        List { head: Link::Empty }
    }

    /// Puts `elem` on top of the stack.
    pub fn push(&mut self, elem: i32)
        ensures
            final(self)@ == push_model(old(self)@, elem),
            final(self)@ == seq![elem] + old(self)@,
    {
        let new_node = Box::new(Node { elem, next: self.head.take() });
        self.head = Link::More(new_node);
    }

    /// Removes the top value and returns it; on an empty stack returns `None`
    /// and leaves the stack empty.
    pub fn pop(&mut self) -> (r: Option<i32>)
        ensures
            r == pop_model(old(self)@).0,
            final(self)@ == pop_model(old(self)@).1,
            old(self)@.len() == 0 ==> r is None && final(self)@.len() == 0,
            old(self)@.len() > 0 ==> r == Some(old(self)@[0]) && final(self)@.len() == old(
                self,
            )@.len() - 1,
    {
        match self.head.take() {
            Link::Empty => None,
            Link::More(node) => {
                let node = *node;
                self.head = node.next;
                assert(old(self)@.drop_first() =~= self@);
                Some(node.elem)
            },
        }
    }
}

impl Drop for List {
    /// Releases the chain one node at a time. Each node's successor is
    /// detached before the node itself goes, so no release recurses down the
    /// chain, and only links move: the stored values stay where they are.
    fn drop(&mut self)
        ensures
            final(self)@ == Seq::<i32>::empty(),
        opens_invariants none
        no_unwind
    {
        let mut cur_link = self.head.take();
        loop
            invariant
                self.head == Link::Empty,
            decreases cur_link.view().len(),
        {
            match cur_link {
                Link::Empty => break,
                Link::More(mut boxed_node) => {
                    cur_link = boxed_node.next.take();
                },
            }
        }
    }
}

} // verus!
