//! Node-based container data structures with verified contracts.
//!
//! The core structures are a doubly linked list (backed by an index-addressed
//! arena of nodes, so every link is a stable slot index rather than a raw
//! pointer) and an unbalanced binary search tree of owned recursive links.
//! A singly linked list provides the back-pointer-free variant, and `Stack`,
//! `Queue` and `Deque` are thin adapters over the lists.
//!
//! Every list is specified against its abstract view, a `Seq` of the stored
//! values from front to back; the tree is specified against the `Set` of the
//! values it holds.

pub mod binary_search_tree;
pub mod deque;
pub mod doubly_linked_list;
pub mod queue;
pub mod singly_linked_list;
pub mod stack;

pub use binary_search_tree::BinarySearchTree;
pub use deque::Deque;
pub use doubly_linked_list::DoublyLinkedList;
pub use queue::Queue;
pub use singly_linked_list::SinglyLinkedList;
pub use stack::Stack;
