//! A singly-linked stack of `i32` values, each node owned by the one before it.
use vstd::prelude::*;

verus! {

/// A stack of `i32` values; its view lists them from the top down.
pub struct List {
    head: Link,
}

type Link = Option<Box<Node>>;

struct Node {
    elem: i32,
    next: Link,
}

/// The values held by a chain of nodes, from the first one on.
spec fn link_view(link: Link) -> Seq<i32>
    decreases link,
{
    match link {
        Some(node) => seq![node.elem] + link_view(node.next),
        None => Seq::empty(),
    }
}

impl View for List {
    type V = Seq<i32>;

    closed spec fn view(&self) -> Seq<i32> {
        link_view(self.head)
    }
}

impl List {
    /// An empty stack.
    pub fn new() -> (r: Self)
        ensures
            r@ == Seq::<i32>::empty(),
    {
        List { head: None }
    }

    /// Puts `elem` on top.
    pub fn push(&mut self, elem: i32)
        ensures
            final(self)@ == seq![elem] + old(self)@,
    {
        let new_node = Box::new(Node { elem: elem, next: self.head.take() });
        self.head = Some(new_node);
    }

    /// Takes the top value off; `None` exactly when the stack is empty.
    pub fn pop(&mut self) -> (r: Option<i32>)
        ensures
            old(self)@.len() == 0 ==> r is None && final(self)@ == old(self)@,
            old(self)@.len() > 0 ==> r == Some(old(self)@[0]) && final(self)@
                == old(self)@.drop_first(),
    {
        match self.head.take() {
            Some(boxed_node) => {
                let node = *boxed_node;
                assert(link_view(Some(Box::new(node))).drop_first() == link_view(node.next));
                self.head = node.next;
                Some(node.elem)
            },
            None => None,
        }
    }
}

impl Drop for List {
    /// Frees the nodes one at a time, front to back, so that a long stack
    /// is released in a loop rather than by one nested drop per node.
    fn drop(&mut self)
        opens_invariants none
        no_unwind
    {
        let mut cur_link: Link = None;
        std::mem::swap(&mut cur_link, &mut self.head);
        loop
            decreases link_view(cur_link).len(),
        {
            match cur_link {
                Some(mut boxed_node) => {
                    let mut rest: Link = None;
                    std::mem::swap(&mut rest, &mut boxed_node.next);
                    cur_link = rest;
                },
                None => {
                    break ;
                },
            }
        }
    }
}

} // verus!
