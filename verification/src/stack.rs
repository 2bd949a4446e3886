//! A LIFO stack, a thin adapter over the singly linked list.
//!
//! `push` prepends to the list and `pop` removes from the front, so the view
//! sequence has the top of the stack at index 0.

use vstd::prelude::*;

use crate::singly_linked_list::SinglyLinkedList;

verus! {

/// A LIFO stack; its view is the sequence of values, top first.
pub struct Stack<T> {
    list: SinglyLinkedList<T>,
}

impl<T> View for Stack<T> {
    type V = Seq<T>;

    closed spec fn view(&self) -> Seq<T> {
        self.list@
    }
}

impl<T> Stack<T> {
    /// The backing list is well formed.
    pub closed spec fn wf(&self) -> bool {
        self.list.wf()
    }

    /// Returns an empty stack.
    pub fn new() -> (r: Self)
        ensures
            r.wf(),
            r@ == Seq::<T>::empty(),
    {
        Stack { list: SinglyLinkedList::new() }
    }

    /// Pushes `value` on top of the stack.
    pub fn push(&mut self, value: T)
        requires
            old(self).wf(),
            old(self)@.len() < usize::MAX,
        ensures
            final(self).wf(),
            final(self)@ == seq![value] + old(self)@,
    {
        self.list.push_front(value);
    }

    /// Removes and returns the top value, or `None` on an empty stack.
    pub fn pop(&mut self) -> (r: Option<T>)
        requires
            old(self).wf(),
        ensures
            final(self).wf(),
            old(self)@.len() == 0 ==> r is None && final(self)@ == old(self)@,
            old(self)@.len() > 0 ==> {
                &&& r == Some(old(self)@[0])
                &&& final(self)@ == old(self)@.drop_first()
            },
    {
        self.list.pop_front()
    }

    /// A reference to the top value without removing it.
    pub fn top(&self) -> (r: Option<&T>)
        ensures
            match r {
                Some(v) => self@.len() > 0 && *v == self@[0],
                None => self@.len() == 0,
            },
    {
        self.list.peek_front()
    }

    /// True exactly when the stack holds no values.
    pub fn is_empty(&self) -> (r: bool)
        ensures
            r == (self@.len() == 0),
    {
        self.list.is_empty()
    }

    /// The number of values on the stack.
    pub fn size(&self) -> (r: usize)
        requires
            self.wf(),
        ensures
            r == self@.len(),
    {
        self.list.size()
    }
}

/// Last-in first-out order. A value pushed onto a stack whose view is `s`
/// makes the view `seq![v] + s`, by `push`'s contract; by `pop`'s contract
/// the next pop returns exactly that value and restores the view `s`. So a
/// push followed by a pop is the identity on the stack, and values leave in
/// the reverse of the order they were pushed.
pub proof fn lemma_lifo_order<T>(s: Seq<T>, v: T)
    ensures
        (seq![v] + s)[0] == v,
        (seq![v] + s).drop_first() == s,
{
    assert((seq![v] + s).drop_first() =~= s);
}

} // verus!
