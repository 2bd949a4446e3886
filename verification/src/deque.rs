//! A double-ended queue, a thin adapter over the doubly linked list.
//!
//! All four end operations of the list are exposed directly; the view
//! sequence runs from front to back.

use vstd::prelude::*;

use crate::doubly_linked_list::DoublyLinkedList;

verus! {

/// A double-ended queue; its view is the sequence of values, front first.
pub struct Deque<T> {
    list: DoublyLinkedList<T>,
}

impl<T> View for Deque<T> {
    type V = Seq<T>;

    closed spec fn view(&self) -> Seq<T> {
        self.list@
    }
}

impl<T> Deque<T> {
    /// The backing list is well formed.
    pub closed spec fn wf(&self) -> bool {
        self.list.wf()
    }

    /// Returns an empty deque.
    pub fn new() -> (r: Self)
        ensures
            r.wf(),
            r@ == Seq::<T>::empty(),
    {
        Deque { list: DoublyLinkedList::new() }
    }

    /// Prepends `value` at the front.
    pub fn push_front(&mut self, value: T)
        requires
            old(self).wf(),
            old(self)@.len() < usize::MAX,
        ensures
            final(self).wf(),
            final(self)@ == seq![value] + old(self)@,
    {
        self.list.push_front(value);
    }

    /// Appends `value` at the back.
    pub fn push_back(&mut self, value: T)
        requires
            old(self).wf(),
            old(self)@.len() < usize::MAX,
        ensures
            final(self).wf(),
            final(self)@ == old(self)@.push(value),
    {
        self.list.push_back(value);
    }

    /// Removes and returns the front value, or `None` on an empty deque.
    pub fn pop_front(&mut self) -> (r: Option<T>)
        requires
            old(self).wf(),
        ensures
            final(self).wf(),
            old(self)@.len() == 0 ==> r is None && final(self)@ == old(self)@,
            old(self)@.len() > 0 ==> {
                &&& r == Some(old(self)@[0])
                &&& final(self)@ == old(self)@.drop_first()
            },
    {
        self.list.pop_front()
    }

    /// Removes and returns the back value, or `None` on an empty deque.
    pub fn pop_back(&mut self) -> (r: Option<T>)
        requires
            old(self).wf(),
        ensures
            final(self).wf(),
            old(self)@.len() == 0 ==> r is None && final(self)@ == old(self)@,
            old(self)@.len() > 0 ==> {
                &&& r == Some(old(self)@.last())
                &&& final(self)@ == old(self)@.drop_last()
            },
    {
        self.list.pop_back()
    }

    /// True exactly when the deque holds no values.
    pub fn is_empty(&self) -> (r: bool)
        requires
            self.wf(),
        ensures
            r == (self@.len() == 0),
    {
        self.list.is_empty()
    }

    /// The number of values in the deque.
    pub fn size(&self) -> (r: usize)
        requires
            self.wf(),
        ensures
            r == self@.len(),
    {
        self.list.size()
    }

    /// A reference to the front value without removing it.
    pub fn front(&self) -> (r: Option<&T>)
        requires
            self.wf(),
        ensures
            match r {
                Some(v) => self@.len() > 0 && *v == self@[0],
                None => self@.len() == 0,
            },
    {
        self.list.peek_front()
    }

    /// A reference to the back value without removing it.
    pub fn back(&self) -> (r: Option<&T>)
        requires
            self.wf(),
        ensures
            match r {
                Some(v) => self@.len() > 0 && *v == self@.last(),
                None => self@.len() == 0,
            },
    {
        self.list.peek_back()
    }
}

} // verus!
