//! A singly linked list of owned nodes.
//!
//! Each node owns its successor through a `Box`, so the whole chain is a
//! recursive owned structure. Front operations are O(1); back operations walk
//! the chain, since no node stores a back pointer. The abstract view of a
//! list is the sequence of its values from front to back.

use vstd::prelude::*;

verus! {

struct Node<T> {
    value: T,
    next: Option<Box<Node<T>>>,
}

/// A singly linked list with O(1) front access and O(n) back access.
pub struct SinglyLinkedList<T> {
    head: Option<Box<Node<T>>>,
    length: usize,
}

impl<T> Node<T> {
    /// The values stored in the chain starting at `node`, front first.
    spec fn seq_of(node: Option<Box<Node<T>>>) -> Seq<T>
        decreases node,
    {
        match node {
            None => Seq::empty(),
            Some(n) => n.as_seq(),
        }
    }

    /// The values stored in the chain rooted at this node, front first.
    spec fn as_seq(self) -> Seq<T>
        decreases self,
    {
        seq![self.value] + Node::seq_of(self.next)
    }

    /// Appends `value` behind the last node of the chain.
    fn push_back_node(node: &mut Option<Box<Node<T>>>, value: T)
        ensures
            Node::seq_of(*final(node)) == Node::seq_of(*old(node)).push(value),
        decreases *old(node),
    {
        match node.take() {
            None => {
                *node = Some(Box::new(Node { value, next: None }));
                proof {
                    assert(Node::seq_of(*node) =~= Node::seq_of(*old(node)).push(value));
                }
            }
            Some(mut n) => {
                Node::push_back_node(&mut n.next, value);
                *node = Some(n);
                proof {
                    assert(Node::seq_of(*node) =~= Node::seq_of(*old(node)).push(value));
                }
            }
        }
    }

    /// Detaches the last node of the chain and returns its value.
    fn pop_back_node(node: &mut Option<Box<Node<T>>>) -> (r: Option<T>)
        ensures
            (*old(node)) is None ==> r is None && (*final(node)) is None,
            (*old(node)) is Some ==> {
                &&& r == Some(Node::seq_of(*old(node)).last())
                &&& Node::seq_of(*final(node)) == Node::seq_of(*old(node)).drop_last()
            },
        decreases *old(node),
    {
        match node.take() {
            None => None,
            Some(mut n) => {
                if n.next.is_some() {
                    let r = Node::pop_back_node(&mut n.next);
                    *node = Some(n);
                    proof {
                        assert(Node::seq_of(*node) =~= Node::seq_of(*old(node)).drop_last());
                    }
                    r
                } else {
                    proof {
                        assert(Node::seq_of(n.next) =~= Seq::<T>::empty());
                        assert(n.as_seq() =~= seq![n.value]);
                        assert(Node::seq_of(*node) =~= Node::seq_of(*old(node)).drop_last());
                    }
                    Some(n.value)
                }
            }
        }
    }

    /// A reference to the value of the last node of the chain.
    fn peek_back_node(&self) -> (r: &T)
        ensures
            self.as_seq().len() > 0,
            *r == self.as_seq().last(),
        decreases self,
    {
        match &self.next {
            None => &self.value,
            Some(n) => n.peek_back_node(),
        }
    }
}

impl<T> View for SinglyLinkedList<T> {
    type V = Seq<T>;

    closed spec fn view(&self) -> Seq<T> {
        Node::seq_of(self.head)
    }
}

impl<T> SinglyLinkedList<T> {
    /// The stored length agrees with the number of reachable nodes.
    pub closed spec fn wf(&self) -> bool {
        self.length == Node::seq_of(self.head).len()
    }

    /// Returns an empty list.
    pub fn new() -> (r: Self)
        ensures
            r.wf(),
            r@ == Seq::<T>::empty(),
    {
        SinglyLinkedList { head: None, length: 0 }
    }

    /// True exactly when the list holds no values.
    pub fn is_empty(&self) -> (r: bool)
        ensures
            r == (self@.len() == 0),
    {
        self.head.is_none()
    }

    /// The number of values in the list.
    pub fn size(&self) -> (r: usize)
        requires
            self.wf(),
        ensures
            r == self@.len(),
    {
        self.length
    }

    /// Prepends `value`; every previously stored value moves one place back.
    pub fn push_front(&mut self, value: T)
        requires
            old(self).wf(),
            old(self)@.len() < usize::MAX,
        ensures
            final(self).wf(),
            final(self)@ == seq![value] + old(self)@,
    {
        let new_head = Some(Box::new(Node { value, next: self.head.take() }));
        self.head = new_head;
        self.length = self.length + 1;
    }

    /// Removes and returns the front value, or `None` on an empty list.
    pub fn pop_front(&mut self) -> (r: Option<T>)
        requires
            old(self).wf(),
        ensures
            final(self).wf(),
            old(self)@.len() == 0 ==> r is None && final(self)@ == old(self)@,
            old(self)@.len() > 0 ==> {
                &&& r == Some(old(self)@[0])
                &&& final(self)@ == old(self)@.drop_first()
            },
    {
        let old_head = self.head.take();
        match old_head {
            Some(node) => {
                self.head = node.next;
                self.length = self.length - 1;
                proof {
                    assert(Node::seq_of(self.head) =~= old(self)@.drop_first());
                }
                Some(node.value)
            }
            None => None,
        }
    }

    /// A reference to the front value without removing it.
    pub fn peek_front(&self) -> (r: Option<&T>)
        ensures
            match r {
                Some(v) => self@.len() > 0 && *v == self@[0],
                None => self@.len() == 0,
            },
    {
        match &self.head {
            Some(node) => Some(&node.value),
            None => None,
        }
    }

    /// Appends `value` behind the current last value.
    pub fn push_back(&mut self, value: T)
        requires
            old(self).wf(),
            old(self)@.len() < usize::MAX,
        ensures
            final(self).wf(),
            final(self)@ == old(self)@.push(value),
    {
        Node::push_back_node(&mut self.head, value);
        self.length = self.length + 1;
    }

    /// Removes and returns the back value, or `None` on an empty list.
    pub fn pop_back(&mut self) -> (r: Option<T>)
        requires
            old(self).wf(),
        ensures
            final(self).wf(),
            old(self)@.len() == 0 ==> r is None && final(self)@ == old(self)@,
            old(self)@.len() > 0 ==> {
                &&& r == Some(old(self)@.last())
                &&& final(self)@ == old(self)@.drop_last()
            },
    {
        let r = Node::pop_back_node(&mut self.head);
        if r.is_some() {
            self.length = self.length - 1;
        }
        r
    }

    /// A reference to the back value without removing it.
    pub fn peek_back(&self) -> (r: Option<&T>)
        ensures
            match r {
                Some(v) => self@.len() > 0 && *v == self@.last(),
                None => self@.len() == 0,
            },
    {
        match &self.head {
            Some(node) => Some(node.peek_back_node()),
            None => None,
        }
    }
}

} // verus!
