//! An unbalanced binary search tree of `i64` values.
//!
//! Every node owns an optional left and an optional right subtree; no parent
//! pointers are stored. The ordering invariant places all values of a left
//! subtree strictly below the node's value and all values of a right subtree
//! strictly above it, so the tree never holds a value twice. The abstract
//! view of a tree is the set of the values it holds.
//!
//! Removal of a node with two children moves the in-order successor (the
//! minimum of the right subtree) into the removed node's place. The height
//! of an empty tree is taken to be 0, a single node contributing 1.
//!
//! Traversals return the visited values as a vector: `in_order` yields them
//! in strictly ascending order — the defining property of the structure —
//! `pre_order` yields a node before its subtrees, `post_order` after them,
//! and `level_order` yields each depth level left to right before the next.

use vstd::prelude::*;
use vstd::set_lib::lemma_len_subset;

verus! {

broadcast use vstd::set::group_set_axioms, vstd::seq_lib::seq_to_set_is_finite;

struct Node {
    value: i64,
    left: Option<Box<Node>>,
    right: Option<Box<Node>>,
}

/// A one-element sequence converts to the one-element set.
proof fn lemma_singleton_to_set(v: i64)
    ensures
        seq![v].to_set() == Set::empty().insert(v),
{
    let sv = seq![v];
    assert(sv[0] == v);
    assert(sv.contains(v));
    assert forall|x: i64| sv.to_set().contains(x) implies x == v by {
        let i = choose|i: int| 0 <= i < sv.len() && sv[i] == x;
        assert(sv[i] == x);
    }
    assert(sv.to_set() =~= Set::empty().insert(v));
}

/// An unbalanced binary search tree holding a set of `i64` values.
pub struct BinarySearchTree {
    root: Option<Box<Node>>,
    size: usize,
}

impl Node {
    /// The set of values held by an optional subtree.
    spec fn opt_set(node: Option<Box<Node>>) -> Set<i64>
        decreases node,
    {
        match node {
            None => Set::empty(),
            Some(n) => n.as_set(),
        }
    }

    /// The set of values held by the tree rooted at this node.
    spec fn as_set(self) -> Set<i64>
        decreases self,
    {
        Node::opt_set(self.left).union(Node::opt_set(self.right)).insert(self.value)
    }

    /// The binary-search-tree ordering property: left values below, right
    /// values above, recursively at every node.
    spec fn opt_wf(node: Option<Box<Node>>) -> bool
        decreases node,
    {
        match node {
            None => true,
            Some(n) => n.node_wf(),
        }
    }

    spec fn node_wf(self) -> bool
        decreases self,
    {
        &&& (forall|x: i64| Node::opt_set(self.left).contains(x) ==> x < self.value)
        &&& (forall|x: i64| Node::opt_set(self.right).contains(x) ==> x > self.value)
        &&& Node::opt_wf(self.left)
        &&& Node::opt_wf(self.right)
    }

    /// The height of an optional subtree; an empty subtree contributes 0.
    spec fn opt_height(node: Option<Box<Node>>) -> nat
        decreases node,
    {
        match node {
            None => 0,
            Some(n) => 1 + if Node::opt_height(n.left) >= Node::opt_height(n.right) {
                Node::opt_height(n.left)
            } else {
                Node::opt_height(n.right)
            },
        }
    }

    /// In-order sequence: left subtree, node, right subtree.
    spec fn opt_in_order(node: Option<Box<Node>>) -> Seq<i64>
        decreases node,
    {
        match node {
            None => Seq::empty(),
            Some(n) => Node::opt_in_order(n.left) + seq![n.value] + Node::opt_in_order(n.right),
        }
    }

    /// Pre-order sequence: node, left subtree, right subtree.
    spec fn opt_pre_order(node: Option<Box<Node>>) -> Seq<i64>
        decreases node,
    {
        match node {
            None => Seq::empty(),
            Some(n) => seq![n.value] + Node::opt_pre_order(n.left) + Node::opt_pre_order(n.right),
        }
    }

    /// Post-order sequence: left subtree, right subtree, node.
    spec fn opt_post_order(node: Option<Box<Node>>) -> Seq<i64>
        decreases node,
    {
        match node {
            None => Seq::empty(),
            Some(n) => Node::opt_post_order(n.left) + Node::opt_post_order(n.right) + seq![n.value],
        }
    }

    /// The values at depth `d` of an optional subtree, left to right.
    spec fn level_seq(node: Option<Box<Node>>, d: nat) -> Seq<i64>
        decreases node,
    {
        match node {
            None => Seq::empty(),
            Some(n) => if d == 0 {
                seq![n.value]
            } else {
                Node::level_seq(n.left, (d - 1) as nat) + Node::level_seq(n.right, (d - 1) as nat)
            },
        }
    }

    /// The concatenation of the level sequences for depths `0 .. d`.
    spec fn levels_upto(node: Option<Box<Node>>, d: nat) -> Seq<i64>
        decreases d,
    {
        if d == 0 {
            Seq::empty()
        } else {
            Node::levels_upto(node, (d - 1) as nat) + Node::level_seq(node, (d - 1) as nat)
        }
    }

    /// The set of a subtree is finite and the height never exceeds the
    /// number of values held.
    proof fn lemma_card(node: Option<Box<Node>>)
        requires
            Node::opt_wf(node),
        ensures
            Node::opt_set(node).finite(),
            Node::opt_height(node) <= Node::opt_set(node).len(),
        decreases node,
    {
        match node {
            None => {}
            Some(n) => {
                Node::lemma_card(n.left);
                Node::lemma_card(n.right);
                let l = Node::opt_set(n.left);
                let r = Node::opt_set(n.right);
                let s = n.as_set();
                assert(!l.contains(n.value));
                assert(!r.contains(n.value));
                assert(l.subset_of(s.remove(n.value)));
                assert(r.subset_of(s.remove(n.value)));
                lemma_len_subset(l, s.remove(n.value));
                lemma_len_subset(r, s.remove(n.value));
                assert(s.remove(n.value).len() == s.len() - 1);
            }
        }
    }

    /// The in-order sequence of a well-formed subtree is strictly ascending
    /// and holds exactly the subtree's values.
    proof fn lemma_in_order_props(node: Option<Box<Node>>)
        requires
            Node::opt_wf(node),
        ensures
            Node::opt_in_order(node).to_set() == Node::opt_set(node),
            forall|i: int, j: int|
                0 <= i < j < Node::opt_in_order(node).len() ==> Node::opt_in_order(node)[i]
                    < Node::opt_in_order(node)[j],
        decreases node,
    {
        match node {
            None => {
                assert(Node::opt_in_order(node).to_set() =~= Node::opt_set(node));
            }
            Some(n) => {
                Node::lemma_in_order_props(n.left);
                Node::lemma_in_order_props(n.right);
                let l = Node::opt_in_order(n.left);
                let r = Node::opt_in_order(n.right);
                let whole = Node::opt_in_order(node);
                vstd::seq_lib::seq_to_set_distributes_over_add(l, seq![n.value]);
                vstd::seq_lib::seq_to_set_distributes_over_add(l + seq![n.value], r);
                lemma_singleton_to_set(n.value);
                assert(whole.to_set() =~= Node::opt_set(node));
                assert forall|i: int, j: int| 0 <= i < j < whole.len() implies whole[i]
                    < whole[j] by {
                    if j < l.len() {
                    } else if i < l.len() {
                        assert(l.contains(l[i]));
                        assert(l.to_set().contains(l[i]));
                        assert(whole[i] < n.value);
                        if j > l.len() {
                            assert(whole[j] == r[j - l.len() - 1]);
                            assert(r.contains(r[j - l.len() - 1]));
                            assert(r.to_set().contains(r[j - l.len() - 1]));
                        }
                    } else if i == l.len() {
                        assert(whole[j] == r[j - l.len() - 1]);
                        assert(r.contains(r[j - l.len() - 1]));
                        assert(r.to_set().contains(r[j - l.len() - 1]));
                    } else {
                        assert(whole[i] == r[i - l.len() - 1]);
                        assert(whole[j] == r[j - l.len() - 1]);
                    }
                }
            }
        }
    }

    /// Pre-order and post-order visit the same values, once each, as
    /// in-order does.
    proof fn lemma_traversal_contents(node: Option<Box<Node>>)
        ensures
            Node::opt_pre_order(node).to_set() == Node::opt_set(node),
            Node::opt_post_order(node).to_set() == Node::opt_set(node),
            Node::opt_pre_order(node).len() == Node::opt_in_order(node).len(),
            Node::opt_post_order(node).len() == Node::opt_in_order(node).len(),
        decreases node,
    {
        match node {
            None => {
                assert(Node::opt_pre_order(node).to_set() =~= Node::opt_set(node));
                assert(Node::opt_post_order(node).to_set() =~= Node::opt_set(node));
            }
            Some(n) => {
                Node::lemma_traversal_contents(n.left);
                Node::lemma_traversal_contents(n.right);
                let lpre = Node::opt_pre_order(n.left);
                let rpre = Node::opt_pre_order(n.right);
                let lpost = Node::opt_post_order(n.left);
                let rpost = Node::opt_post_order(n.right);
                vstd::seq_lib::seq_to_set_distributes_over_add(seq![n.value], lpre);
                vstd::seq_lib::seq_to_set_distributes_over_add(seq![n.value] + lpre, rpre);
                vstd::seq_lib::seq_to_set_distributes_over_add(lpost, rpost);
                vstd::seq_lib::seq_to_set_distributes_over_add(lpost + rpost, seq![n.value]);
                lemma_singleton_to_set(n.value);
                assert(Node::opt_pre_order(node).to_set() =~= Node::opt_set(node));
                assert(Node::opt_post_order(node).to_set() =~= Node::opt_set(node));
            }
        }
    }

    /// Every level of an empty subtree is empty, whatever the depth.
    proof fn lemma_levels_upto_none(d: nat)
        ensures
            Node::levels_upto(None, d) == Seq::<i64>::empty(),
        decreases d,
    {
        if d > 0 {
            Node::lemma_levels_upto_none((d - 1) as nat);
            assert(Node::levels_upto(None, d) =~= Seq::<i64>::empty());
        }
    }

    /// The first `d` levels of a non-empty subtree hold its value together
    /// with the first `d - 1` levels of its two subtrees: the lengths add up
    /// and the sets of values agree.
    proof fn lemma_levels_upto_split(o: Option<Box<Node>>, d: nat)
        requires
            o is Some,
            d >= 1,
        ensures
            Node::levels_upto(o, d).len() == 1 + Node::levels_upto(
                o->Some_0.left,
                (d - 1) as nat,
            ).len() + Node::levels_upto(o->Some_0.right, (d - 1) as nat).len(),
            Node::levels_upto(o, d).to_set() == Node::levels_upto(
                o->Some_0.left,
                (d - 1) as nat,
            ).to_set().union(Node::levels_upto(o->Some_0.right, (d - 1) as nat).to_set()).insert(
                o->Some_0.value,
            ),
        decreases d,
    {
        let n = o->Some_0;
        let l = n.left;
        let r = n.right;
        if d == 1 {
            reveal_with_fuel(Node::levels_upto, 2);
            assert(Node::levels_upto(o, 1) =~= seq![n.value]);
            assert(Node::levels_upto(l, 0) == Seq::<i64>::empty());
            assert(Node::levels_upto(r, 0) == Seq::<i64>::empty());
            lemma_singleton_to_set(n.value);
            assert(Node::levels_upto(o, 1).to_set() =~= Node::levels_upto(l, 0).to_set().union(
                Node::levels_upto(r, 0).to_set(),
            ).insert(n.value));
        } else {
            let d1 = (d - 1) as nat;
            let d2 = (d - 2) as nat;
            Node::lemma_levels_upto_split(o, d1);
            vstd::seq_lib::seq_to_set_distributes_over_add(
                Node::levels_upto(o, d1),
                Node::level_seq(o, d1),
            );
            vstd::seq_lib::seq_to_set_distributes_over_add(
                Node::level_seq(l, d2),
                Node::level_seq(r, d2),
            );
            vstd::seq_lib::seq_to_set_distributes_over_add(
                Node::levels_upto(l, d2),
                Node::level_seq(l, d2),
            );
            vstd::seq_lib::seq_to_set_distributes_over_add(
                Node::levels_upto(r, d2),
                Node::level_seq(r, d2),
            );
            assert(Node::levels_upto(l, d1) == Node::levels_upto(l, d2) + Node::level_seq(l, d2));
            assert(Node::levels_upto(r, d1) == Node::levels_upto(r, d2) + Node::level_seq(r, d2));
            assert(Node::level_seq(o, d1) == Node::level_seq(l, d2) + Node::level_seq(r, d2));
            assert(Node::levels_upto(o, d).to_set() =~= Node::levels_upto(l, d1).to_set().union(
                Node::levels_upto(r, d1).to_set(),
            ).insert(n.value));
        }
    }

    /// Collecting at least `height` levels gathers every value of the
    /// subtree, each exactly once: the level-order sequence has the length
    /// of the in-order sequence and converts to the same set.
    proof fn lemma_level_order_contents(o: Option<Box<Node>>, d: nat)
        requires
            d >= Node::opt_height(o),
        ensures
            Node::levels_upto(o, d).to_set() == Node::opt_set(o),
            Node::levels_upto(o, d).len() == Node::opt_in_order(o).len(),
        decreases o,
    {
        match o {
            None => {
                Node::lemma_levels_upto_none(d);
                assert(Node::levels_upto(o, d).to_set() =~= Node::opt_set(o));
            }
            Some(n) => {
                Node::lemma_levels_upto_split(o, d);
                Node::lemma_level_order_contents(n.left, (d - 1) as nat);
                Node::lemma_level_order_contents(n.right, (d - 1) as nat);
                assert(Node::levels_upto(o, d).to_set() =~= Node::opt_set(o));
            }
        }
    }

    /// Inserts `value` into the subtree, keeping the ordering property;
    /// reports whether a node was added.
    fn insert_into(node: &mut Option<Box<Node>>, value: i64) -> (inserted: bool)
        requires
            Node::opt_wf(*old(node)),
        ensures
            Node::opt_wf(*final(node)),
            Node::opt_set(*final(node)) == Node::opt_set(*old(node)).insert(value),
            inserted == !Node::opt_set(*old(node)).contains(value),
        decreases *old(node),
    {
        match node.take() {
            None => {
                *node = Some(Box::new(Node { value, left: None, right: None }));
                proof {
                    assert(Node::opt_set(*node) =~= Node::opt_set(*old(node)).insert(value));
                }
                true
            }
            Some(mut n) => {
                let ghost n0 = *n;
                let inserted: bool;
                if value == n.value {
                    inserted = false;
                    proof {
                        assert(Node::opt_set(*old(node)).contains(value));
                    }
                } else if value < n.value {
                    inserted = Node::insert_into(&mut n.left, value);
                    proof {
                        assert(!Node::opt_set(n0.right).contains(value));
                        assert(Node::opt_set(*old(node)).contains(value) == Node::opt_set(
                            n0.left,
                        ).contains(value));
                    }
                } else {
                    inserted = Node::insert_into(&mut n.right, value);
                    proof {
                        assert(!Node::opt_set(n0.left).contains(value));
                        assert(Node::opt_set(*old(node)).contains(value) == Node::opt_set(
                            n0.right,
                        ).contains(value));
                    }
                }
                *node = Some(n);
                proof {
                    assert(Node::opt_set(*node) =~= Node::opt_set(*old(node)).insert(value));
                }
                inserted
            }
        }
    }

    /// True exactly when the subtree holds `value`.
    fn contains_node(node: &Option<Box<Node>>, value: i64) -> (r: bool)
        requires
            Node::opt_wf(*node),
        ensures
            r == Node::opt_set(*node).contains(value),
        decreases node,
    {
        match node {
            None => false,
            Some(n) => {
                if value == n.value {
                    proof {
                        assert(Node::opt_set(*node).contains(value));
                    }
                    true
                } else if value < n.value {
                    let r = Node::contains_node(&n.left, value);
                    proof {
                        assert(!Node::opt_set(n.right).contains(value));
                        assert(Node::opt_set(*node).contains(value) == Node::opt_set(
                            n.left,
                        ).contains(value));
                    }
                    r
                } else {
                    let r = Node::contains_node(&n.right, value);
                    proof {
                        assert(!Node::opt_set(n.left).contains(value));
                        assert(Node::opt_set(*node).contains(value) == Node::opt_set(
                            n.right,
                        ).contains(value));
                    }
                    r
                }
            }
        }
    }

    /// Detaches the minimum of a non-empty subtree and returns it.
    fn remove_min(node: &mut Option<Box<Node>>) -> (m: i64)
        requires
            (*old(node)) is Some,
            Node::opt_wf(*old(node)),
        ensures
            Node::opt_wf(*final(node)),
            Node::opt_set(*old(node)).contains(m),
            forall|x: i64| Node::opt_set(*old(node)).contains(x) ==> m <= x,
            Node::opt_set(*final(node)) == Node::opt_set(*old(node)).remove(m),
        decreases *old(node),
    {
        let mut n = node.take().unwrap();
        let ghost n0 = *n;
        if n.left.is_some() {
            let m = Node::remove_min(&mut n.left);
            *node = Some(n);
            proof {
                assert(Node::opt_set(n0.left).contains(m));
                assert(m < n0.value);
                assert forall|x: i64| Node::opt_set(*old(node)).contains(x) implies m <= x by {
                    if Node::opt_set(n0.left).contains(x) {
                    } else if Node::opt_set(n0.right).contains(x) {
                        assert(x > n0.value);
                    } else {
                        assert(x == n0.value);
                    }
                }
                assert forall|x: i64| Node::opt_set(n0.right).contains(x) implies x != m by {
                    assert(x > n0.value);
                }
                assert(m != n0.value);
                assert(Node::opt_set(*old(node)) == n0.as_set());
                assert(Node::opt_set(n.left) == Node::opt_set(n0.left).remove(m));
                assert(Node::opt_set(*node) == Node::opt_set(n.left).union(
                    Node::opt_set(n.right),
                ).insert(n.value));
                assert(Node::opt_set(*node) =~= Node::opt_set(*old(node)).remove(m));
            }
            m
        } else {
            let boxed = *n;
            *node = boxed.right;
            proof {
                assert(Node::opt_set(boxed.left) =~= Set::<i64>::empty());
                assert forall|x: i64| Node::opt_set(*old(node)).contains(x) implies boxed.value
                    <= x by {
                    if Node::opt_set(n0.right).contains(x) {
                        assert(x > n0.value);
                    } else {
                        assert(x == n0.value);
                    }
                }
                assert(Node::opt_set(*node) =~= Node::opt_set(*old(node)).remove(boxed.value));
            }
            boxed.value
        }
    }

    /// Removes `value` from the subtree if present, keeping the ordering
    /// property; reports whether a node was removed.
    fn remove_from(node: &mut Option<Box<Node>>, value: i64) -> (removed: bool)
        requires
            Node::opt_wf(*old(node)),
        ensures
            Node::opt_wf(*final(node)),
            Node::opt_set(*final(node)) == Node::opt_set(*old(node)).remove(value),
            removed == Node::opt_set(*old(node)).contains(value),
        decreases *old(node),
    {
        match node.take() {
            None => {
                proof {
                    assert(Node::opt_set(*node) =~= Node::opt_set(*old(node)).remove(value));
                }
                false
            }
            Some(mut n) => {
                let ghost n0 = *n;
                if value == n.value {
                    if n.left.is_none() {
                        let boxed = *n;
                        *node = boxed.right;
                        proof {
                            assert(Node::opt_set(boxed.left) =~= Set::<i64>::empty());
                            assert(Node::opt_set(*node) =~= Node::opt_set(*old(node)).remove(
                                value,
                            ));
                        }
                    } else if n.right.is_none() {
                        let boxed = *n;
                        *node = boxed.left;
                        proof {
                            assert(Node::opt_set(boxed.right) =~= Set::<i64>::empty());
                            assert(Node::opt_set(*node) =~= Node::opt_set(*old(node)).remove(
                                value,
                            ));
                        }
                    } else {
                        let m = Node::remove_min(&mut n.right);
                        n.value = m;
                        *node = Some(n);
                        proof {
                            assert(Node::opt_set(n0.right).contains(m));
                            assert(m > n0.value);
                            assert(!Node::opt_set(n0.left).contains(value));
                            assert(!Node::opt_set(n0.right).contains(value));
                            assert(Node::opt_set(n.right) == Node::opt_set(n0.right).remove(m));
                            assert(Node::opt_set(*old(node)) == n0.as_set());
                            assert(Node::opt_set(*node) == Node::opt_set(n.left).union(
                                Node::opt_set(n.right),
                            ).insert(m));
                            assert forall|x: i64|
                                Node::opt_set(n.left).contains(x) implies x < m by {
                                assert(x < n0.value);
                            }
                            assert forall|x: i64|
                                Node::opt_set(n.right).contains(x) implies x > m by {
                                assert(Node::opt_set(n0.right).contains(x));
                            }
                            assert(Node::opt_set(*node) =~= Node::opt_set(*old(node)).remove(
                                value,
                            ));
                        }
                    }
                    true
                } else if value < n.value {
                    let removed = Node::remove_from(&mut n.left, value);
                    *node = Some(n);
                    proof {
                        assert(!Node::opt_set(n0.right).contains(value));
                        assert(Node::opt_set(n.left) == Node::opt_set(n0.left).remove(value));
                        assert(Node::opt_set(*old(node)) == n0.as_set());
                        assert(Node::opt_set(*node) == Node::opt_set(n.left).union(
                            Node::opt_set(n.right),
                        ).insert(n.value));
                        assert(Node::opt_set(*node) =~= Node::opt_set(*old(node)).remove(value));
                    }
                    removed
                } else {
                    let removed = Node::remove_from(&mut n.right, value);
                    *node = Some(n);
                    proof {
                        assert(!Node::opt_set(n0.left).contains(value));
                        assert(Node::opt_set(n.right) == Node::opt_set(n0.right).remove(value));
                        assert(Node::opt_set(*old(node)) == n0.as_set());
                        assert(Node::opt_set(*node) == Node::opt_set(n.left).union(
                            Node::opt_set(n.right),
                        ).insert(n.value));
                        assert(Node::opt_set(*node) =~= Node::opt_set(*old(node)).remove(value));
                    }
                    removed
                }
            }
        }
    }

    /// The minimum value of the subtree rooted at this node.
    fn min_node(&self) -> (r: i64)
        requires
            self.node_wf(),
        ensures
            self.as_set().contains(r),
            forall|x: i64| self.as_set().contains(x) ==> r <= x,
        decreases self,
    {
        match &self.left {
            None => {
                proof {
                    assert forall|x: i64| self.as_set().contains(x) implies self.value <= x by {
                        if Node::opt_set(self.right).contains(x) {
                            assert(x > self.value);
                        } else {
                            assert(x == self.value);
                        }
                    }
                }
                self.value
            }
            Some(l) => {
                let r = l.min_node();
                proof {
                    assert(Node::opt_set(self.left).contains(r));
                    assert(r < self.value);
                    assert forall|x: i64| self.as_set().contains(x) implies r <= x by {
                        if Node::opt_set(self.left).contains(x) {
                        } else if Node::opt_set(self.right).contains(x) {
                            assert(x > self.value);
                        } else {
                            assert(x == self.value);
                        }
                    }
                }
                r
            }
        }
    }

    /// The maximum value of the subtree rooted at this node.
    fn max_node(&self) -> (r: i64)
        requires
            self.node_wf(),
        ensures
            self.as_set().contains(r),
            forall|x: i64| self.as_set().contains(x) ==> r >= x,
        decreases self,
    {
        match &self.right {
            None => {
                proof {
                    assert forall|x: i64| self.as_set().contains(x) implies self.value >= x by {
                        if Node::opt_set(self.left).contains(x) {
                            assert(x < self.value);
                        } else {
                            assert(x == self.value);
                        }
                    }
                }
                self.value
            }
            Some(rn) => {
                let r = rn.max_node();
                proof {
                    assert(Node::opt_set(self.right).contains(r));
                    assert(r > self.value);
                    assert forall|x: i64| self.as_set().contains(x) implies r >= x by {
                        if Node::opt_set(self.right).contains(x) {
                        } else if Node::opt_set(self.left).contains(x) {
                            assert(x < self.value);
                        } else {
                            assert(x == self.value);
                        }
                    }
                }
                r
            }
        }
    }

    /// The height of the subtree; requires the card bound so that the
    /// computation cannot overflow.
    fn height_node(node: &Option<Box<Node>>) -> (h: usize)
        requires
            Node::opt_wf(*node),
            Node::opt_set(*node).len() <= usize::MAX,
        ensures
            h == Node::opt_height(*node),
        decreases node,
    {
        match node {
            None => 0,
            Some(n) => {
                proof {
                    Node::lemma_card(n.left);
                    Node::lemma_card(n.right);
                    Node::lemma_card(*node);
                    let s = Node::opt_set(*node);
                    assert(!Node::opt_set(n.left).contains(n.value));
                    assert(!Node::opt_set(n.right).contains(n.value));
                    assert(Node::opt_set(n.left).subset_of(s.remove(n.value)));
                    assert(Node::opt_set(n.right).subset_of(s.remove(n.value)));
                    lemma_len_subset(Node::opt_set(n.left), s.remove(n.value));
                    lemma_len_subset(Node::opt_set(n.right), s.remove(n.value));
                    assert(s.remove(n.value).len() == s.len() - 1);
                }
                let hl = Node::height_node(&n.left);
                let hr = Node::height_node(&n.right);
                if hl >= hr {
                    hl + 1
                } else {
                    hr + 1
                }
            }
        }
    }

    /// Appends the in-order sequence of the subtree to `out`.
    fn in_order_node(node: &Option<Box<Node>>, out: &mut Vec<i64>)
        ensures
            final(out)@ == old(out)@ + Node::opt_in_order(*node),
        decreases node,
    {
        match node {
            None => {
                proof {
                    assert(out@ =~= old(out)@ + Node::opt_in_order(*node));
                }
            }
            Some(n) => {
                Node::in_order_node(&n.left, out);
                out.push(n.value);
                Node::in_order_node(&n.right, out);
                proof {
                    assert(out@ =~= old(out)@ + Node::opt_in_order(*node));
                }
            }
        }
    }

    /// Appends the pre-order sequence of the subtree to `out`.
    fn pre_order_node(node: &Option<Box<Node>>, out: &mut Vec<i64>)
        ensures
            final(out)@ == old(out)@ + Node::opt_pre_order(*node),
        decreases node,
    {
        match node {
            None => {
                proof {
                    assert(out@ =~= old(out)@ + Node::opt_pre_order(*node));
                }
            }
            Some(n) => {
                out.push(n.value);
                Node::pre_order_node(&n.left, out);
                Node::pre_order_node(&n.right, out);
                proof {
                    assert(out@ =~= old(out)@ + Node::opt_pre_order(*node));
                }
            }
        }
    }

    /// Appends the post-order sequence of the subtree to `out`.
    fn post_order_node(node: &Option<Box<Node>>, out: &mut Vec<i64>)
        ensures
            final(out)@ == old(out)@ + Node::opt_post_order(*node),
        decreases node,
    {
        match node {
            None => {
                proof {
                    assert(out@ =~= old(out)@ + Node::opt_post_order(*node));
                }
            }
            Some(n) => {
                Node::post_order_node(&n.left, out);
                Node::post_order_node(&n.right, out);
                out.push(n.value);
                proof {
                    assert(out@ =~= old(out)@ + Node::opt_post_order(*node));
                }
            }
        }
    }

    /// Appends the values at depth `d` of the subtree to `out`, left to
    /// right.
    fn level_node(node: &Option<Box<Node>>, d: usize, out: &mut Vec<i64>)
        ensures
            final(out)@ == old(out)@ + Node::level_seq(*node, d as nat),
        decreases node,
    {
        match node {
            None => {
                proof {
                    assert(out@ =~= old(out)@ + Node::level_seq(*node, d as nat));
                }
            }
            Some(n) => {
                if d == 0 {
                    out.push(n.value);
                } else {
                    Node::level_node(&n.left, d - 1, out);
                    Node::level_node(&n.right, d - 1, out);
                }
                proof {
                    assert(out@ =~= old(out)@ + Node::level_seq(*node, d as nat));
                }
            }
        }
    }
}

impl View for BinarySearchTree {
    type V = Set<i64>;

    closed spec fn view(&self) -> Set<i64> {
        Node::opt_set(self.root)
    }
}

impl BinarySearchTree {
    /// The ordering property holds everywhere and the stored size counts
    /// the values held.
    pub closed spec fn wf(&self) -> bool {
        &&& Node::opt_wf(self.root)
        &&& Node::opt_set(self.root).finite()
        &&& self.size == Node::opt_set(self.root).len()
    }

    /// In-order sequence of the whole tree.
    pub closed spec fn in_order_seq(&self) -> Seq<i64> {
        Node::opt_in_order(self.root)
    }

    /// Pre-order sequence of the whole tree.
    pub closed spec fn pre_order_seq(&self) -> Seq<i64> {
        Node::opt_pre_order(self.root)
    }

    /// Post-order sequence of the whole tree.
    pub closed spec fn post_order_seq(&self) -> Seq<i64> {
        Node::opt_post_order(self.root)
    }

    /// Level-order sequence of the whole tree: each depth level left to
    /// right, shallower levels first.
    pub closed spec fn level_order_seq(&self) -> Seq<i64> {
        Node::levels_upto(self.root, Node::opt_height(self.root))
    }

    /// The height of the tree; 0 for an empty tree.
    pub closed spec fn height_spec(&self) -> nat {
        Node::opt_height(self.root)
    }

    /// Returns an empty tree.
    pub fn new() -> (r: Self)
        ensures
            r.wf(),
            r@ == Set::<i64>::empty(),
    {
        BinarySearchTree { root: None, size: 0 }
    }

    /// True exactly when the tree holds no values.
    pub fn is_empty(&self) -> (r: bool)
        requires
            self.wf(),
        ensures
            r == (self@.len() == 0),
    {
        self.size == 0
    }

    /// The number of distinct values held: every successful insert adds
    /// one and every successful remove takes one away.
    pub fn size(&self) -> (r: usize)
        requires
            self.wf(),
        ensures
            r == self@.len(),
    {
        self.size
    }

    /// Discards every value of the tree.
    pub fn clear(&mut self)
        ensures
            final(self).wf(),
            final(self)@ == Set::<i64>::empty(),
    {
        self.root = None;
        self.size = 0;
    }

    /// The height of the tree: an empty tree has height 0, a single node
    /// height 1. Never exceeds the number of values held.
    pub fn height(&self) -> (h: usize)
        requires
            self.wf(),
        ensures
            h == self.height_spec(),
            h <= self@.len(),
            (h == 0) == (self@.len() == 0),
    {
        proof {
            Node::lemma_card(self.root);
            if self.root is Some {
                assert(Node::opt_height(self.root) >= 1);
            }
        }
        Node::height_node(&self.root)
    }

    /// Inserts `value`; returns true and grows the size by one when the
    /// value was absent, and leaves the tree unchanged otherwise.
    pub fn insert(&mut self, value: i64) -> (r: bool)
        requires
            old(self).wf(),
            old(self)@.len() < usize::MAX,
        ensures
            final(self).wf(),
            r == !old(self)@.contains(value),
            final(self)@ == old(self)@.insert(value),
            final(self)@.len() == old(self)@.len() + (if r {
                1int
            } else {
                0int
            }),
    {
        let r = Node::insert_into(&mut self.root, value);
        if r {
            self.size = self.size + 1;
        }
        r
    }

    /// True exactly when the tree holds `value`.
    pub fn contains(&self, value: i64) -> (r: bool)
        requires
            self.wf(),
        ensures
            r == self@.contains(value),
    {
        Node::contains_node(&self.root, value)
    }

    /// Removes `value`; returns it and shrinks the size by one when it was
    /// held, and returns `None` leaving the tree unchanged otherwise.
    pub fn remove(&mut self, value: i64) -> (r: Option<i64>)
        requires
            old(self).wf(),
        ensures
            final(self).wf(),
            r == (if old(self)@.contains(value) {
                Some(value)
            } else {
                None::<i64>
            }),
            final(self)@ == old(self)@.remove(value),
            final(self)@.len() == old(self)@.len() - (if r is Some {
                1int
            } else {
                0int
            }),
    {
        let removed = Node::remove_from(&mut self.root, value);
        if removed {
            self.size = self.size - 1;
            Some(value)
        } else {
            proof {
                assert(self@ =~= old(self)@);
            }
            None
        }
    }

    /// The least value held, or `None` on an empty tree.
    pub fn min(&self) -> (r: Option<i64>)
        requires
            self.wf(),
        ensures
            match r {
                Some(m) => self@.contains(m) && forall|x: i64| self@.contains(x) ==> m <= x,
                None => self@.len() == 0,
            },
    {
        match &self.root {
            None => None,
            Some(n) => Some(n.min_node()),
        }
    }

    /// The greatest value held, or `None` on an empty tree.
    pub fn max(&self) -> (r: Option<i64>)
        requires
            self.wf(),
        ensures
            match r {
                Some(m) => self@.contains(m) && forall|x: i64| self@.contains(x) ==> m >= x,
                None => self@.len() == 0,
            },
    {
        match &self.root {
            None => None,
            Some(n) => Some(n.max_node()),
        }
    }

    /// The values in ascending order: each value exactly once, strictly
    /// sorted — the defining correctness property of the structure.
    pub fn in_order(&self) -> (r: Vec<i64>)
        requires
            self.wf(),
        ensures
            r@ == self.in_order_seq(),
            r@.len() == self@.len(),
            forall|i: int, j: int| 0 <= i < j < r@.len() ==> r@[i] < r@[j],
            forall|i: int| 0 <= i < r@.len() ==> self@.contains(#[trigger] r@[i]),
            forall|x: i64| self@.contains(x) ==> r@.contains(x),
    {
        let mut out = Vec::new();
        Node::in_order_node(&self.root, &mut out);
        proof {
            assert(out@ =~= Node::opt_in_order(self.root));
            Node::lemma_in_order_props(self.root);
            assert(out@.no_duplicates());
            out@.unique_seq_to_set();
            assert forall|i: int| 0 <= i < out@.len() implies self@.contains(
                #[trigger] out@[i],
            ) by {
                assert(out@.contains(out@[i]));
                assert(out@.to_set().contains(out@[i]));
            }
        }
        out
    }

    /// The values in pre-order: a node before either of its subtrees, each
    /// value exactly once.
    pub fn pre_order(&self) -> (r: Vec<i64>)
        requires
            self.wf(),
        ensures
            r@ == self.pre_order_seq(),
            r@.len() == self@.len(),
            forall|i: int| 0 <= i < r@.len() ==> self@.contains(#[trigger] r@[i]),
            forall|x: i64| self@.contains(x) ==> r@.contains(x),
    {
        let mut out = Vec::new();
        Node::pre_order_node(&self.root, &mut out);
        proof {
            assert(out@ =~= Node::opt_pre_order(self.root));
            Node::lemma_traversal_contents(self.root);
            Node::lemma_in_order_props(self.root);
            Node::opt_in_order(self.root).unique_seq_to_set();
            assert forall|i: int| 0 <= i < out@.len() implies self@.contains(
                #[trigger] out@[i],
            ) by {
                assert(out@.contains(out@[i]));
                assert(out@.to_set().contains(out@[i]));
            }
        }
        out
    }

    /// The values in post-order: a node after both of its subtrees, each
    /// value exactly once.
    pub fn post_order(&self) -> (r: Vec<i64>)
        requires
            self.wf(),
        ensures
            r@ == self.post_order_seq(),
            r@.len() == self@.len(),
            forall|i: int| 0 <= i < r@.len() ==> self@.contains(#[trigger] r@[i]),
            forall|x: i64| self@.contains(x) ==> r@.contains(x),
    {
        let mut out = Vec::new();
        Node::post_order_node(&self.root, &mut out);
        proof {
            assert(out@ =~= Node::opt_post_order(self.root));
            Node::lemma_traversal_contents(self.root);
            Node::lemma_in_order_props(self.root);
            Node::opt_in_order(self.root).unique_seq_to_set();
            assert forall|i: int| 0 <= i < out@.len() implies self@.contains(
                #[trigger] out@[i],
            ) by {
                assert(out@.contains(out@[i]));
                assert(out@.to_set().contains(out@[i]));
            }
        }
        out
    }

    /// The values in breadth-first order: the root's level first, then each
    /// deeper level left to right, each value exactly once.
    pub fn level_order(&self) -> (r: Vec<i64>)
        requires
            self.wf(),
        ensures
            r@ == self.level_order_seq(),
            r@.len() == self@.len(),
            forall|i: int| 0 <= i < r@.len() ==> self@.contains(#[trigger] r@[i]),
            forall|x: i64| self@.contains(x) ==> r@.contains(x),
    {
        let h = self.height();
        let mut out = Vec::new();
        let mut d: usize = 0;
        proof {
            assert(out@ =~= Node::levels_upto(self.root, 0));
        }
        while d < h
            invariant
                d <= h,
                h == Node::opt_height(self.root),
                out@ == Node::levels_upto(self.root, d as nat),
            decreases h - d,
        {
            Node::level_node(&self.root, d, &mut out);
            d = d + 1;
            proof {
                assert(out@ =~= Node::levels_upto(self.root, d as nat));
            }
        }
        proof {
            Node::lemma_level_order_contents(self.root, Node::opt_height(self.root));
            Node::lemma_in_order_props(self.root);
            Node::opt_in_order(self.root).unique_seq_to_set();
            assert forall|i: int| 0 <= i < out@.len() implies self@.contains(
                #[trigger] out@[i],
            ) by {
                assert(out@.contains(out@[i]));
                assert(out@.to_set().contains(out@[i]));
            }
        }
        out
    }
}

/// Round trip of membership: inserting a value makes the tree contain it;
/// removing it afterwards yields exactly the tree with the value taken out,
/// which no longer contains it — stated over the set views that `insert`,
/// `contains` and `remove` are specified against.
pub proof fn lemma_insert_remove_round_trip(s: Set<i64>, v: i64)
    ensures
        s.insert(v).contains(v),
        s.insert(v).remove(v) == s.remove(v),
        !s.insert(v).remove(v).contains(v),
{
    assert(s.insert(v).remove(v) =~= s.remove(v));
}

} // verus!
