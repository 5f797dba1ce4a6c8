//! An in-memory ordered key-value store over `i32` keys, offered by three
//! structurally different tree engines: an unbalanced binary search tree, a
//! height-balanced (AVL) tree, and a self-adjusting (splay) tree.
//!
//! Every engine presents the same contract, stated over an abstract
//! `Map<int, i32>` view: `search` reports exactly the stored value, `insert`
//! updates the view with the new pair, and `remove` deletes the key and hands
//! back the value that was there. Each engine additionally maintains its own
//! shape invariant (the search-order invariant for all three, the height
//! balance for the AVL tree, and the move-to-root discipline for the splay
//! tree).
//!
//! Around the store, the crate carries the self-contained utilities that
//! share its style of contract: binary and leftist priority queues, the
//! in-place sorts, and three substring matchers.

pub mod avl;
pub mod binary;
pub mod heap;
pub mod laws;
pub mod node;
pub mod sort;
pub mod splay;
pub mod string;

pub use avl::AVLTree;
pub use binary::BinarySearchTree;
pub use heap::{heap_sort, BinaryHeap, LeftistHeap};
pub use node::TreeNode;
pub use sort::{find_majory, quicksort};
pub use splay::SplayTree;
pub use string::{bmbc_match, karp_rabin, kmp_match};

use vstd::prelude::*;

verus! {

/// The uniform ordered-map contract shared by the tree engines.
///
/// `inv` is the engine's shape invariant; every operation preserves it.
/// `kv` is the engine's abstract key-value view. The contracts pin each
/// operation down to its effect on that view, so a client can reason about
/// any engine as if it were a plain map.
pub trait BST: Sized {
    /// The engine's internal well-formedness invariant.
    spec fn inv(&self) -> bool;

    /// The abstract key-value view of the store.
    spec fn kv(&self) -> Map<int, i32>;

    /// Look the key up; the stored value comes back, or `None` when the key
    /// is absent. The key set is never changed (a self-adjusting engine may
    /// still reshape itself).
    fn search(&mut self, key: i32) -> (r: Option<i32>)
        requires
            old(self).inv(),
        ensures
            final(self).inv(),
            final(self).kv() == old(self).kv(),
            r == (if old(self).kv().dom().contains(key as int) {
                Some(old(self).kv()[key as int])
            } else {
                None::<i32>
            }),
    ;

    /// Bind the key to the value, creating the entry or overwriting the
    /// previous value.
    fn insert(&mut self, key: i32, val: i32)
        requires
            old(self).inv(),
        ensures
            final(self).inv(),
            final(self).kv() == old(self).kv().insert(key as int, val),
    ;

    /// Drop the key, handing back the value that was bound to it; an absent
    /// key is not an error and reports `None`.
    fn remove(&mut self, key: i32) -> (r: Option<i32>)
        requires
            old(self).inv(),
        ensures
            final(self).inv(),
            final(self).kv() == old(self).kv().remove(key as int),
            r == (if old(self).kv().dom().contains(key as int) {
                Some(old(self).kv()[key as int])
            } else {
                None::<i32>
            }),
    ;
}

} // verus!
