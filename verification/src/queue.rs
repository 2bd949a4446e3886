//! A FIFO queue, a thin adapter over the doubly linked list.
//!
//! `push` appends at the back of the list and `pop` removes from the front,
//! so the view sequence has the oldest value at index 0.

use vstd::prelude::*;

use crate::doubly_linked_list::DoublyLinkedList;

verus! {

/// A FIFO queue; its view is the sequence of values, oldest first.
pub struct Queue<T> {
    list: DoublyLinkedList<T>,
}

impl<T> View for Queue<T> {
    type V = Seq<T>;

    closed spec fn view(&self) -> Seq<T> {
        self.list@
    }
}

impl<T> Queue<T> {
    /// The backing list is well formed.
    pub closed spec fn wf(&self) -> bool {
        self.list.wf()
    }

    /// Returns an empty queue.
    pub fn new() -> (r: Self)
        ensures
            r.wf(),
            r@ == Seq::<T>::empty(),
    {
        Queue { list: DoublyLinkedList::new() }
    }

    /// Enqueues `value` behind every value already held.
    pub fn push(&mut self, value: T)
        requires
            old(self).wf(),
            old(self)@.len() < usize::MAX,
        ensures
            final(self).wf(),
            final(self)@ == old(self)@.push(value),
    {
        self.list.push_back(value);
    }

    /// Dequeues the oldest value, or `None` on an empty queue.
    pub fn pop(&mut self) -> (r: Option<T>)
        requires
            old(self).wf(),
        ensures
            final(self).wf(),
            old(self)@.len() == 0 ==> r is None && final(self)@ == old(self)@,
            old(self)@.len() > 0 ==> {
                &&& r == Some(old(self)@[0])
                &&& final(self)@ == old(self)@.drop_first()
            },
    {
        self.list.pop_front()
    }

    /// A reference to the oldest value without removing it.
    pub fn front(&self) -> (r: Option<&T>)
        requires
            self.wf(),
        ensures
            match r {
                Some(v) => self@.len() > 0 && *v == self@[0],
                None => self@.len() == 0,
            },
    {
        self.list.peek_front()
    }

    /// A reference to the most recently enqueued value without removing it.
    pub fn back(&self) -> (r: Option<&T>)
        requires
            self.wf(),
        ensures
            match r {
                Some(v) => self@.len() > 0 && *v == self@.last(),
                None => self@.len() == 0,
            },
    {
        self.list.peek_back()
    }

    /// True exactly when the queue holds no values.
    pub fn is_empty(&self) -> (r: bool)
        requires
            self.wf(),
        ensures
            r == (self@.len() == 0),
    {
        self.list.is_empty()
    }

    /// The number of values in the queue.
    pub fn size(&self) -> (r: usize)
        requires
            self.wf(),
        ensures
            r == self@.len(),
    {
        self.list.size()
    }
}

} // verus!
