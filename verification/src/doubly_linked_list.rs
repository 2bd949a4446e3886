//! A doubly linked list over an index-addressed arena of nodes.
//!
//! The chain is represented with an arena of node slots addressed by stable
//! indices: the `next` and `prev` relations of a node are slot indices rather
//! than owning pointers, the arena alone owns the storage, and a slot is
//! freed for reuse the moment its node is popped. Every end operation is
//! O(1). A ghost sequence records the slot index of each node from front to
//! back; well-formedness ties the bidirectional links, the head and tail
//! indices and the stored length to that sequence, so that `node.next.prev ==
//! node` and `node.prev.next == node` hold at every interior node.
//!
//! The abstract view of a list is the sequence of its values from front to
//! back.

use vstd::prelude::*;

verus! {

struct DNode<T> {
    value: T,
    prev: Option<usize>,
    next: Option<usize>,
}

/// A doubly linked list with O(1) access at both ends.
pub struct DoublyLinkedList<T> {
    slots: Vec<Option<DNode<T>>>,
    free: Vec<usize>,
    head: Option<usize>,
    tail: Option<usize>,
    length: usize,
    chain: Ghost<Seq<usize>>,
}

/// The node at position `k` of the chain sits in a live slot and its two
/// links agree with its neighbours in the chain.
spec fn link_ok<T>(slots: Seq<Option<DNode<T>>>, c: Seq<usize>, k: int) -> bool {
    &&& (c[k] as int) < slots.len()
    &&& slots[c[k] as int] is Some
    &&& slots[c[k] as int]->Some_0.prev == (if k == 0 {
        None::<usize>
    } else {
        Some(c[k - 1])
    })
    &&& slots[c[k] as int]->Some_0.next == (if k == c.len() - 1 {
        None::<usize>
    } else {
        Some(c[k + 1])
    })
}

spec fn chain_ok<T>(slots: Seq<Option<DNode<T>>>, c: Seq<usize>) -> bool {
    forall|k: int| 0 <= k < c.len() ==> #[trigger] link_ok(slots, c, k)
}

/// Every free-list entry names an unoccupied slot of the arena.
spec fn free_ok<T>(slots: Seq<Option<DNode<T>>>, free: Seq<usize>) -> bool {
    forall|j: int|
        0 <= j < free.len() ==> (#[trigger] free[j] as int) < slots.len() && slots[free[j] as int] is None
}

/// The values along the chain, front first.
spec fn view_of<T>(slots: Seq<Option<DNode<T>>>, c: Seq<usize>) -> Seq<T> {
    Seq::new(c.len(), |k: int| slots[c[k] as int]->Some_0.value)
}

proof fn lemma_push_no_duplicates<A>(c: Seq<A>, a: A)
    requires
        c.no_duplicates(),
        !c.contains(a),
    ensures
        c.push(a).no_duplicates(),
{
    assert forall|p: int, q: int|
        0 <= p < c.push(a).len() && 0 <= q < c.push(a).len() && p != q implies c.push(a)[p] != c.push(
        a,
    )[q] by {
        if p < c.len() && q < c.len() {
        } else if p == c.len() {
            assert(c.push(a)[q] == c[q]);
        } else {
            assert(c.push(a)[p] == c[p]);
        }
    }
}

/// Stores `node` in an unoccupied slot and returns its index, reusing a freed
/// slot when one is available and growing the arena otherwise. No other slot
/// changes, and no surviving free-list entry names the chosen slot.
fn alloc_slot<T>(slots: &mut Vec<Option<DNode<T>>>, free: &mut Vec<usize>, node: DNode<T>) -> (i:
    usize)
    requires
        free_ok(old(slots)@, old(free)@),
        old(free)@.no_duplicates(),
    ensures
        (i as int) < final(slots)@.len(),
        final(slots)@[i as int] == Some(node),
        (i as int) >= old(slots)@.len() || old(slots)@[i as int] is None,
        final(slots)@.len() >= old(slots)@.len(),
        forall|j: int|
            0 <= j < final(slots)@.len() && j != i ==> j < old(slots)@.len() && final(slots)@[j]
                == old(slots)@[j],
        final(free)@.len() <= old(free)@.len(),
        forall|j: int| 0 <= j < final(free)@.len() ==> final(free)@[j] == old(free)@[j],
        forall|j: int| 0 <= j < final(free)@.len() ==> final(free)@[j] != i,
        final(free)@.no_duplicates(),
{
    match free.pop() {
        Some(i) => {
            slots[i] = Some(node);
            assert forall|j: int| 0 <= j < free@.len() implies free@[j] != i by {
                assert(old(free)@[j] == free@[j]);
            }
            i
        }
        None => {
            let i = slots.len();
            slots.push(Some(node));
            i
        }
    }
}

impl<T> View for DoublyLinkedList<T> {
    type V = Seq<T>;

    closed spec fn view(&self) -> Seq<T> {
        view_of(self.slots@, self.chain@)
    }
}

impl<T> DoublyLinkedList<T> {
    /// The arena, the links, the boundary indices, the free list and the
    /// stored length all agree with the ghost chain of slot indices.
    pub closed spec fn wf(&self) -> bool {
        &&& self.length == self.chain@.len()
        &&& self.chain@.no_duplicates()
        &&& chain_ok(self.slots@, self.chain@)
        &&& self.head == (if self.chain@.len() == 0 {
            None::<usize>
        } else {
            Some(self.chain@[0])
        })
        &&& self.tail == (if self.chain@.len() == 0 {
            None::<usize>
        } else {
            Some(self.chain@[self.chain@.len() - 1])
        })
        &&& free_ok(self.slots@, self.free@)
        &&& self.free@.no_duplicates()
    }

    /// Slot indices on the chain never collide with `i` when slot `i` is
    /// unoccupied or lies beyond the arena.
    proof fn lemma_chain_misses_slot(&self, i: usize)
        requires
            chain_ok(self.slots@, self.chain@),
            (i as int) >= self.slots@.len() || self.slots@[i as int] is None,
        ensures
            forall|k: int| 0 <= k < self.chain@.len() ==> (#[trigger] self.chain@[k]) != i,
            !self.chain@.contains(i),
    {
        assert forall|k: int| 0 <= k < self.chain@.len() implies (#[trigger] self.chain@[k])
            != i by {
            assert(link_ok(self.slots@, self.chain@, k));
        }
        if self.chain@.contains(i) {
            let k = choose|k: int| 0 <= k < self.chain@.len() && self.chain@[k] == i;
            assert(self.chain@[k] != i);
        }
    }

    /// Returns an empty list.
    pub fn new() -> (r: Self)
        ensures
            r.wf(),
            r@ == Seq::<T>::empty(),
    {
        let r = DoublyLinkedList {
            slots: Vec::new(),
            free: Vec::new(),
            head: None,
            tail: None,
            length: 0,
            chain: Ghost(Seq::empty()),
        };
        proof {
            assert(r@ =~= Seq::<T>::empty());
        }
        r
    }

    /// True exactly when the list holds no values.
    pub fn is_empty(&self) -> (r: bool)
        requires
            self.wf(),
        ensures
            r == (self@.len() == 0),
    {
        self.length == 0
    }

    /// The number of values in the list.
    pub fn size(&self) -> (r: usize)
        requires
            self.wf(),
        ensures
            r == self@.len(),
    {
        self.length
    }

    /// Appends `value` at the back: a node is placed in a fresh slot, linked
    /// behind the old tail, and becomes the new tail.
    pub fn push_back(&mut self, value: T)
        requires
            old(self).wf(),
            old(self)@.len() < usize::MAX,
        ensures
            final(self).wf(),
            final(self)@ == old(self)@.push(value),
    {
        let ghost c = self.chain@;
        let ghost s0 = self.slots@;
        let node = DNode { value, prev: self.tail, next: None };
        let i = alloc_slot(&mut self.slots, &mut self.free, node);
        proof {
            old(self).lemma_chain_misses_slot(i);
        }
        match self.tail {
            None => {
                self.head = Some(i);
            }
            Some(t) => {
                proof {
                    assert(link_ok(s0, c, c.len() - 1));
                    assert(t == c[c.len() - 1]);
                    assert(t != i);
                }
                let slot = &mut self.slots[t];
                match slot {
                    Some(n) => {
                        n.next = Some(i);
                    }
                    None => {},
                }
            }
        }
        self.tail = Some(i);
        self.length = self.length + 1;
        proof {
            self.chain@ = c.push(i);
            lemma_push_no_duplicates(c, i);
            let c2 = self.chain@;
            let s2 = self.slots@;
            assert forall|k: int| 0 <= k < c2.len() implies link_ok(s2, c2, k) by {
                if k < c.len() {
                    assert(link_ok(s0, c, k));
                }
            }
            assert forall|j: int| 0 <= j < self.free@.len() implies (
            #[trigger] self.free@[j] as int) < s2.len() && s2[self.free@[j] as int] is None by {
                assert(s0[self.free@[j] as int] is None);
                if c.len() > 0 {
                    assert(link_ok(s0, c, c.len() - 1));
                }
            }
            assert forall|k: int| 0 <= k < c.len() implies self@[k] == old(self)@[k] by {
                assert(link_ok(s0, c, k));
                assert(link_ok(s0, c, c.len() - 1));
            }
            assert(self@[c.len() as int] == value);
            assert(self@ =~= old(self)@.push(value));
        }
    }

    /// Prepends `value` at the front: a node is placed in a fresh slot,
    /// linked before the old head, and becomes the new head.
    pub fn push_front(&mut self, value: T)
        requires
            old(self).wf(),
            old(self)@.len() < usize::MAX,
        ensures
            final(self).wf(),
            final(self)@ == seq![value] + old(self)@,
    {
        let ghost c = self.chain@;
        let ghost s0 = self.slots@;
        let node = DNode { value, prev: None, next: self.head };
        let i = alloc_slot(&mut self.slots, &mut self.free, node);
        proof {
            old(self).lemma_chain_misses_slot(i);
        }
        match self.head {
            None => {
                self.tail = Some(i);
            }
            Some(h) => {
                proof {
                    assert(link_ok(s0, c, 0));
                    assert(h == c[0]);
                    assert(h != i);
                }
                let slot = &mut self.slots[h];
                match slot {
                    Some(n) => {
                        n.prev = Some(i);
                    }
                    None => {},
                }
            }
        }
        self.head = Some(i);
        self.length = self.length + 1;
        proof {
            self.chain@ = seq![i] + c;
            let c2 = self.chain@;
            let s2 = self.slots@;
            assert forall|p: int, q: int|
                0 <= p < c2.len() && 0 <= q < c2.len() && p != q implies c2[p] != c2[q] by {
                if p > 0 && q > 0 {
                    assert(c2[p] == c[p - 1]);
                    assert(c2[q] == c[q - 1]);
                } else if p == 0 {
                    assert(c2[q] == c[q - 1]);
                } else {
                    assert(c2[p] == c[p - 1]);
                }
            }
            assert(c2.no_duplicates());
            assert forall|k: int| 0 <= k < c2.len() implies link_ok(s2, c2, k) by {
                if k >= 1 {
                    assert(link_ok(s0, c, k - 1));
                }
            }
            assert forall|j: int| 0 <= j < self.free@.len() implies (
            #[trigger] self.free@[j] as int) < s2.len() && s2[self.free@[j] as int] is None by {
                assert(s0[self.free@[j] as int] is None);
                if c.len() > 0 {
                    assert(link_ok(s0, c, 0));
                }
            }
            assert forall|k: int| 1 <= k < c2.len() implies self@[k] == old(self)@[k - 1] by {
                assert(link_ok(s0, c, k - 1));
                assert(link_ok(s0, c, 0));
            }
            assert(self@[0] == value);
            assert(self@ =~= seq![value] + old(self)@);
        }
    }

    /// Removes the back value and frees its slot; the old tail's predecessor,
    /// if any, becomes the new tail with its forward link cleared.
    pub fn pop_back(&mut self) -> (r: Option<T>)
        requires
            old(self).wf(),
        ensures
            final(self).wf(),
            old(self)@.len() == 0 ==> r is None && final(self)@ == old(self)@,
            old(self)@.len() > 0 ==> {
                &&& r == Some(old(self)@.last())
                &&& final(self)@ == old(self)@.drop_last()
            },
    {
        let ghost c = self.chain@;
        let ghost s0 = self.slots@;
        match self.tail {
            None => None,
            Some(t) => {
                proof {
                    assert(c.len() > 0);
                    assert(link_ok(s0, c, c.len() - 1));
                    assert(t == c[c.len() - 1]);
                }
                let slot = &mut self.slots[t];
                let taken = slot.take();
                let node = match taken {
                    Some(n) => n,
                    None => {
                        proof {
                            assert(false);
                        }
                        return None;
                    },
                };
                self.free.push(t);
                match node.prev {
                    None => {
                        self.head = None;
                    }
                    Some(p) => {
                        proof {
                            assert(c.len() >= 2);
                            assert(p == c[c.len() - 2]);
                            assert(link_ok(s0, c, c.len() - 2));
                            assert(c[c.len() - 2] != c[c.len() - 1]);
                        }
                        let slot2 = &mut self.slots[p];
                        match slot2 {
                            Some(n2) => {
                                n2.next = None;
                            }
                            None => {},
                        }
                    }
                }
                self.tail = node.prev;
                self.length = self.length - 1;
                proof {
                    self.chain@ = c.drop_last();
                    let c2 = self.chain@;
                    let s2 = self.slots@;
                    assert forall|k: int| 0 <= k < c2.len() implies link_ok(s2, c2, k) by {
                        assert(link_ok(s0, c, k));
                        assert(c[k] != c[c.len() - 1]);
                        if k < c2.len() - 1 {
                            assert(c[k] != c[c.len() - 2]);
                        }
                    }
                    assert forall|j: int| 0 <= j < self.free@.len() implies (
                    #[trigger] self.free@[j] as int) < s2.len() && s2[self.free@[j] as int] is None by {
                        if j < self.free@.len() - 1 {
                            assert(old(self).free@[j] == self.free@[j]);
                            assert(s0[self.free@[j] as int] is None);
                            if c.len() >= 2 {
                                assert(link_ok(s0, c, c.len() - 2));
                            }
                        }
                    }
                    if old(self).free@.contains(t) {
                        let j = choose|j: int|
                            0 <= j < old(self).free@.len() && old(self).free@[j] == t;
                        assert(s0[old(self).free@[j] as int] is None);
                    }
                    lemma_push_no_duplicates(old(self).free@, t);
                    assert forall|k: int| 0 <= k < c2.len() implies self@[k] == old(self)@[k] by {
                        assert(link_ok(s0, c, k));
                        assert(c[k] != c[c.len() - 1]);
                        if c.len() >= 2 {
                            assert(link_ok(s0, c, c.len() - 2));
                        }
                    }
                    assert(self@ =~= old(self)@.drop_last());
                }
                Some(node.value)
            }
        }
    }

    /// Removes the front value and frees its slot; the old head's successor,
    /// if any, becomes the new head with its back link cleared.
    pub fn pop_front(&mut self) -> (r: Option<T>)
        requires
            old(self).wf(),
        ensures
            final(self).wf(),
            old(self)@.len() == 0 ==> r is None && final(self)@ == old(self)@,
            old(self)@.len() > 0 ==> {
                &&& r == Some(old(self)@[0])
                &&& final(self)@ == old(self)@.drop_first()
            },
    {
        let ghost c = self.chain@;
        let ghost s0 = self.slots@;
        match self.head {
            None => None,
            Some(h) => {
                proof {
                    assert(c.len() > 0);
                    assert(link_ok(s0, c, 0));
                    assert(h == c[0]);
                }
                let slot = &mut self.slots[h];
                let taken = slot.take();
                let node = match taken {
                    Some(n) => n,
                    None => {
                        proof {
                            assert(false);
                        }
                        return None;
                    },
                };
                self.free.push(h);
                match node.next {
                    None => {
                        self.tail = None;
                    }
                    Some(nx) => {
                        proof {
                            assert(c.len() >= 2);
                            assert(nx == c[1]);
                            assert(link_ok(s0, c, 1));
                            assert(c[1] != c[0]);
                        }
                        let slot2 = &mut self.slots[nx];
                        match slot2 {
                            Some(n2) => {
                                n2.prev = None;
                            }
                            None => {},
                        }
                    }
                }
                self.head = node.next;
                self.length = self.length - 1;
                proof {
                    self.chain@ = c.drop_first();
                    let c2 = self.chain@;
                    let s2 = self.slots@;
                    assert forall|k: int| 0 <= k < c2.len() implies link_ok(s2, c2, k) by {
                        assert(c2[k] == c[k + 1]);
                        assert(link_ok(s0, c, k + 1));
                        assert(c[k + 1] != c[0]);
                        if k > 0 {
                            assert(c[k + 1] != c[1]);
                        }
                    }
                    assert forall|j: int| 0 <= j < self.free@.len() implies (
                    #[trigger] self.free@[j] as int) < s2.len() && s2[self.free@[j] as int] is None by {
                        if j < self.free@.len() - 1 {
                            assert(old(self).free@[j] == self.free@[j]);
                            assert(s0[self.free@[j] as int] is None);
                            if c.len() >= 2 {
                                assert(link_ok(s0, c, 1));
                            }
                        }
                    }
                    if old(self).free@.contains(h) {
                        let j = choose|j: int|
                            0 <= j < old(self).free@.len() && old(self).free@[j] == h;
                        assert(s0[old(self).free@[j] as int] is None);
                    }
                    lemma_push_no_duplicates(old(self).free@, h);
                    assert forall|k: int| 0 <= k < c2.len() implies self@[k] == old(self)@[k
                        + 1] by {
                        assert(link_ok(s0, c, k + 1));
                        assert(c[k + 1] != c[0]);
                        if c.len() >= 2 {
                            assert(link_ok(s0, c, 1));
                        }
                    }
                    assert(self@ =~= old(self)@.drop_first());
                }
                Some(node.value)
            }
        }
    }

    /// A reference to the front value; the list itself is only read.
    pub fn peek_front(&self) -> (r: Option<&T>)
        requires
            self.wf(),
        ensures
            match r {
                Some(v) => self@.len() > 0 && *v == self@[0],
                None => self@.len() == 0,
            },
    {
        match self.head {
            None => None,
            Some(h) => {
                proof {
                    assert(link_ok(self.slots@, self.chain@, 0));
                }
                match &self.slots[h] {
                    Some(n) => Some(&n.value),
                    None => None,
                }
            }
        }
    }

    /// A reference to the back value; the list itself is only read.
    pub fn peek_back(&self) -> (r: Option<&T>)
        requires
            self.wf(),
        ensures
            match r {
                Some(v) => self@.len() > 0 && *v == self@.last(),
                None => self@.len() == 0,
            },
    {
        match self.tail {
            None => None,
            Some(t) => {
                proof {
                    assert(link_ok(self.slots@, self.chain@, self.chain@.len() - 1));
                }
                match &self.slots[t] {
                    Some(n) => Some(&n.value),
                    None => None,
                }
            }
        }
    }
}

/// First-in first-out order. Pushing values `vs` one by one at the back of
/// an empty list leaves the view `vs`, by `push_back`'s contract; after `k`
/// front pops the view is `vs.skip(k)`, and by `pop_front`'s contract the
/// next pop yields the head of that suffix — which is `vs[k]` — and leaves
/// `vs.skip(k + 1)`. So values pushed at the back leave at the front in the
/// order they arrived.
pub proof fn lemma_fifo_order<T>(vs: Seq<T>, k: int)
    requires
        0 <= k < vs.len(),
    ensures
        vs.skip(k)[0] == vs[k],
        vs.skip(k).drop_first() == vs.skip(k + 1),
{
    assert(vs.skip(k).drop_first() =~= vs.skip(k + 1));
}

} // verus!
