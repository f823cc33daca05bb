//! A first-in first-out queue: elements go in at the back of a deque and
//! come out at its front.
use vstd::prelude::*;
use crate::fourth;

verus! {

/// A queue; its view lists the elements from the oldest to the newest.
pub struct List<T> {
    items: fourth::List<T>,
}

impl<T> View for List<T> {
    type V = Seq<T>;

    closed spec fn view(&self) -> Seq<T> {
        self.items@
    }
}

impl<T> List<T> {
    /// Well-formedness of the underlying deque.
    pub closed spec fn wf(&self) -> bool {
        self.items.wf()
    }

    /// An empty queue.
    pub fn new() -> (r: Self)
        ensures
            r.wf(),
            r@ == Seq::<T>::empty(),
    {
        List { items: fourth::List::new() }
    }

    /// Adds `elem` after every element already in the queue.
    pub fn push(&mut self, elem: T)
        requires
            old(self).wf(),
        ensures
            final(self).wf(),
            final(self)@ == old(self)@.push(elem),
    {
        self.items.push_back(elem);
    }

    /// Takes out the oldest element; `None` exactly when the queue is empty.
    pub fn pop(&mut self) -> (r: Option<T>)
        requires
            old(self).wf(),
        ensures
            final(self).wf(),
            old(self)@.len() == 0 ==> r is None && final(self)@ == old(self)@,
            old(self)@.len() > 0 ==> r == Some(old(self)@[0]) && final(self)@
                == old(self)@.drop_first(),
    {
        self.items.pop_front()
    }
}

} // verus!
