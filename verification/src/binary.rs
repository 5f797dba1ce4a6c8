//! The unbalanced binary search tree engine: plain ordered descent with the
//! two-children deletion rule and no rebalancing.

use crate::node::search_at;
use crate::node::sub_map;
use crate::node::sub_ordered;
use crate::node::value_overwritten;
use crate::node::TreeNode;
use crate::BST;
use vstd::prelude::*;

verus! {

/// An unbalanced binary search tree over `i32` keys and values.
#[derive(Debug, PartialEq, Eq)]
pub struct BinarySearchTree(Option<Box<TreeNode>>);

/// The unbalanced engine's insert, as a relation between the tree before
/// and after: descend by key, attach a fresh leaf where the key runs out,
/// overwrite just the value where the key is found; every node off the
/// descent path, and every cached height, is untouched.
pub open spec fn leaf_attached(
    pre: Option<Box<TreeNode>>,
    post: Option<Box<TreeNode>>,
    key: int,
    val: i32,
) -> bool
    decreases pre,
{
    match (pre, post) {
        (None, Some(m)) => m.key as int == key && m.val == val && m.height == 1 && m.left is None
            && m.right is None,
        (Some(n), Some(m)) => m.key == n.key && m.height == n.height && if key < n.key as int {
            m.val == n.val && m.right == n.right && leaf_attached(n.left, m.left, key, val)
        } else if key > n.key as int {
            m.val == n.val && m.left == n.left && leaf_attached(n.right, m.right, key, val)
        } else {
            m.val == val && m.left == n.left && m.right == n.right
        },
        _ => false,
    }
}

/// The leftmost pair `(k, v)` of the tree before is detached: its old
/// parent's left slot now holds the detached node's right subtree, and
/// nothing else moves (cached heights included).
pub open spec fn min_detached(
    pre: Option<Box<TreeNode>>,
    post: Option<Box<TreeNode>>,
    k: int,
    v: i32,
) -> bool
    decreases pre,
{
    match pre {
        None => false,
        Some(n) => if n.left is None {
            k == n.key as int && v == n.val && post == n.right
        } else {
            match post {
                None => false,
                Some(m) => m.key == n.key && m.val == n.val && m.height == n.height && m.right
                    == n.right && min_detached(n.left, m.left, k, v),
            }
        },
    }
}

/// The unbalanced engine's remove, as a relation between the tree before
/// and after: an absent key changes nothing on the path; a node without a
/// right child is replaced by its left subtree; a node without a left
/// child by its right subtree; a node with two children keeps its place
/// but takes over the key and value of the right subtree's in-order
/// minimum, which is spliced out of the right subtree.
pub open spec fn spliced_removed(
    pre: Option<Box<TreeNode>>,
    post: Option<Box<TreeNode>>,
    key: int,
) -> bool
    decreases pre,
{
    match pre {
        None => post is None,
        Some(n) => if key < n.key as int {
            match post {
                None => false,
                Some(m) => m.key == n.key && m.val == n.val && m.height == n.height && m.right
                    == n.right && spliced_removed(n.left, m.left, key),
            }
        } else if key > n.key as int {
            match post {
                None => false,
                Some(m) => m.key == n.key && m.val == n.val && m.height == n.height && m.left
                    == n.left && spliced_removed(n.right, m.right, key),
            }
        } else {
            if n.right is None {
                post == n.left
            } else if n.left is None {
                post == n.right
            } else {
                match post {
                    None => false,
                    Some(m) => m.left == n.left && m.height == n.height && min_detached(
                        n.right,
                        m.right,
                        m.key as int,
                        m.val,
                    ),
                }
            }
        },
    }
}

/// Attach or overwrite `key` in the subtree, keeping the search order.
pub(crate) fn bst_insert_at(t: &mut Option<Box<TreeNode>>, key: i32, val: i32)
    requires
        sub_ordered(*old(t)),
    ensures
        sub_ordered(*final(t)),
        sub_map(*final(t)) == sub_map(*old(t)).insert(key as int, val),
        final(t).is_some(),
        leaf_attached(*old(t), *final(t), key as int, val),
    decreases *old(t),
{
    match t.take() {
        None => {
            *t = Some(Box::new(TreeNode::new(key, val)));
            proof {
                assert(sub_map(*t) =~= sub_map(*old(t)).insert(key as int, val));
                assert(leaf_attached(*old(t), *t, key as int, val));
            }
        }
        Some(mut n) => {
            if key > n.get_key() {
                let mut sub = n.right.take();
                bst_insert_at(&mut sub, key, val);
                n.right = sub;
            } else if key < n.get_key() {
                let mut sub = n.left.take();
                bst_insert_at(&mut sub, key, val);
                n.left = sub;
            } else {
                n.set_val(val);
            }
            proof {
                assert(!sub_map(n.left).dom().contains(n.key as int));
                assert(!sub_map(n.right).dom().contains(n.key as int));
                assert(n.ordered());
                assert(n.as_map() =~= sub_map(*old(t)).insert(key as int, val));
            }
            *t = Some(n);
            proof {
                assert(leaf_attached(*old(t), *t, key as int, val));
            }
        }
    }
}

/// Detach the smallest pair of a non-empty subtree and hand it back.
pub(crate) fn bst_take_leftmost(t: &mut Option<Box<TreeNode>>) -> (kv: (i32, i32))
    requires
        old(t).is_some(),
        sub_ordered(*old(t)),
    ensures
        sub_ordered(*final(t)),
        sub_map(*old(t)).dom().contains(kv.0 as int),
        sub_map(*old(t))[kv.0 as int] == kv.1,
        sub_map(*final(t)) == sub_map(*old(t)).remove(kv.0 as int),
        forall|k2: int| sub_map(*old(t)).dom().contains(k2) ==> kv.0 as int <= k2,
        min_detached(*old(t), *final(t), kv.0 as int, kv.1),
    decreases *old(t),
{
    let n = t.take().unwrap();
    let mut inner = *n;
    if inner.left.is_none() {
        let kv = (inner.get_key(), inner.get_val());
        *t = inner.right;
        proof {
            assert(sub_map(*t) =~= sub_map(*old(t)).remove(kv.0 as int));
            assert(min_detached(*old(t), *t, kv.0 as int, kv.1));
        }
        kv
    } else {
        let mut sub = inner.left.take();
        let kv = bst_take_leftmost(&mut sub);
        inner.left = sub;
        proof {
            assert(!sub_map(inner.right).dom().contains(kv.0 as int));
            assert(inner.key != kv.0);
            assert(inner.ordered());
            assert(inner.as_map() =~= sub_map(*old(t)).remove(kv.0 as int));
        }
        *t = Some(Box::new(inner));
        proof {
            assert(min_detached(*old(t), *t, kv.0 as int, kv.1));
        }
        kv
    }
}

/// Remove `key` from the subtree: a missing key is a no-op, a node with two
/// children is overwritten by its in-order successor, which is spliced out
/// of the right subtree in its place.
pub(crate) fn bst_remove_at(t: &mut Option<Box<TreeNode>>, key: i32) -> (r: Option<i32>)
    requires
        sub_ordered(*old(t)),
    ensures
        sub_ordered(*final(t)),
        sub_map(*final(t)) == sub_map(*old(t)).remove(key as int),
        r == (if sub_map(*old(t)).dom().contains(key as int) {
            Some(sub_map(*old(t))[key as int])
        } else {
            None::<i32>
        }),
        spliced_removed(*old(t), *final(t), key as int),
        !sub_map(*old(t)).dom().contains(key as int) ==> *final(t) == *old(t),
    decreases *old(t),
{
    match t.take() {
        None => {
            proof {
                assert(sub_map(*t) =~= sub_map(*old(t)).remove(key as int));
            }
            None
        }
        Some(n) => {
            let mut inner = *n;
            if key > inner.get_key() {
                let mut sub = inner.right.take();
                let r = bst_remove_at(&mut sub, key);
                inner.right = sub;
                proof {
                    assert(!sub_map(inner.left).dom().contains(key as int));
                    assert(inner.ordered());
                    assert(inner.as_map() =~= sub_map(*old(t)).remove(key as int));
                }
                *t = Some(Box::new(inner));
                proof {
                    assert(spliced_removed(*old(t), *t, key as int));
                    if !sub_map(*old(t)).dom().contains(key as int) {
                        assert(*t == *old(t));
                    }
                }
                r
            } else if key < inner.get_key() {
                let mut sub = inner.left.take();
                let r = bst_remove_at(&mut sub, key);
                inner.left = sub;
                proof {
                    assert(!sub_map(inner.right).dom().contains(key as int));
                    assert(inner.ordered());
                    assert(inner.as_map() =~= sub_map(*old(t)).remove(key as int));
                }
                *t = Some(Box::new(inner));
                proof {
                    assert(spliced_removed(*old(t), *t, key as int));
                    if !sub_map(*old(t)).dom().contains(key as int) {
                        assert(*t == *old(t));
                    }
                }
                r
            } else {
                let v = inner.get_val();
                proof {
                    assert(!sub_map(inner.left).dom().contains(key as int));
                    assert(!sub_map(inner.right).dom().contains(key as int));
                }
                if inner.right.is_none() {
                    *t = inner.left;
                    proof {
                        assert(sub_map(*t) =~= sub_map(*old(t)).remove(key as int));
                        assert(spliced_removed(*old(t), *t, key as int));
                    }
                } else if inner.left.is_none() {
                    *t = inner.right;
                    proof {
                        assert(sub_map(*t) =~= sub_map(*old(t)).remove(key as int));
                        assert(spliced_removed(*old(t), *t, key as int));
                    }
                } else {
                    let mut sub = inner.right.take();
                    let kv = bst_take_leftmost(&mut sub);
                    inner.right = sub;
                    inner.key = kv.0;
                    inner.val = kv.1;
                    proof {
                        assert(inner.ordered());
                        assert(inner.as_map() =~= sub_map(*old(t)).remove(key as int));
                    }
                    *t = Some(Box::new(inner));
                    proof {
                        assert(spliced_removed(*old(t), *t, key as int));
                    }
                }
                Some(v)
            }
        }
    }
}

impl BinarySearchTree {
    /// The whole tree as a spec value.
    pub closed spec fn tree(&self) -> Option<Box<TreeNode>> {
        self.0
    }

    /// The root node as a spec value, `None` for an empty tree.
    pub closed spec fn root_node(&self) -> Option<TreeNode> {
        match self.tree() {
            None => None,
            Some(b) => Some(*b),
        }
    }

    /// The key-value view is exactly the map of the tree, so an empty view
    /// means no root and a populated view means the root's own map.
    pub proof fn lemma_tree_view(&self)
        ensures
            self.kv() == sub_map(self.tree()),
            self.root_node() is Some <==> self.tree() is Some,
            self.tree() matches Some(b) ==> self.root_node() == Some(*b) && self.kv()
                == b.as_map(),
            self.tree() is None ==> self.kv() == Map::<int, i32>::empty(),
    {
    }

    /// A tree seeded with one initial pair: a single leaf as the root.
    pub fn new(root_key: i32, root_val: i32) -> (t: Self)
        ensures
            t.inv(),
            t.kv() == Map::<int, i32>::empty().insert(root_key as int, root_val),
            t.tree() matches Some(b) && *b == (TreeNode {
                key: root_key,
                val: root_val,
                height: 1,
                left: None,
                right: None,
            }),
    {
        let t = BinarySearchTree(Some(Box::new(TreeNode::new(root_key, root_val))));
        proof {
            assert(t.kv() =~= Map::<int, i32>::empty().insert(root_key as int, root_val));
        }
        t
    }

    /// Borrow the root node, if any; the way in for a caller that wants to
    /// walk the shape.
    pub fn root(&self) -> (r: Option<&TreeNode>)
        ensures
            self.root_node().is_some() ==> r.is_some() && *r.unwrap() == self.root_node().unwrap(),
            self.root_node().is_none() ==> r.is_none(),
            self.inv() && r.is_some() ==> r.unwrap().ordered(),
            self.root_node() matches Some(n) ==> self.kv() == n.as_map(),
            self.root_node() is None ==> self.kv() == Map::<int, i32>::empty(),
    {
        match &self.0 {
            None => None,
            Some(b) => Some(&**b),
        }
    }

    /// Look the key up by ordered descent. The tree is left exactly as it
    /// was: this engine's search performs no mutation.
    pub fn search(&mut self, key: i32) -> (r: Option<i32>)
        requires
            old(self).inv(),
        ensures
            *final(self) == *old(self),
            final(self).inv(),
            r == (if old(self).kv().dom().contains(key as int) {
                Some(old(self).kv()[key as int])
            } else {
                None::<i32>
            }),
    {
        search_at(&self.0, key)
    }

    /// Bind the key to the value. Structurally, `leaf_attached` holds of
    /// the old and new tree: a fresh leaf appears at the descent's end when
    /// the key was absent, and a present key only has its value overwritten
    /// with no shape change.
    pub fn insert(&mut self, key: i32, val: i32)
        requires
            old(self).inv(),
        ensures
            final(self).inv(),
            final(self).kv() == old(self).kv().insert(key as int, val),
            leaf_attached(old(self).tree(), final(self).tree(), key as int, val),
            old(self).kv().dom().contains(key as int) ==> value_overwritten(
                old(self).tree(),
                final(self).tree(),
                key as int,
                val,
            ),
    {
        bst_insert_at(&mut self.0, key, val);
        proof {
            if old(self).kv().dom().contains(key as int) {
                lemma_attach_on_present_overwrites(old(self).tree(), self.tree(), key as int, val);
            }
        }
    }

    /// Drop the key. Structurally, `spliced_removed` holds of the old and
    /// new tree: the two-children case keeps the node's place and grafts in
    /// the right subtree's in-order minimum; an absent key leaves the tree
    /// exactly as it was.
    pub fn remove(&mut self, key: i32) -> (r: Option<i32>)
        requires
            old(self).inv(),
        ensures
            final(self).inv(),
            final(self).kv() == old(self).kv().remove(key as int),
            r == (if old(self).kv().dom().contains(key as int) {
                Some(old(self).kv()[key as int])
            } else {
                None::<i32>
            }),
            spliced_removed(old(self).tree(), final(self).tree(), key as int),
            !old(self).kv().dom().contains(key as int) ==> *final(self) == *old(self),
    {
        bst_remove_at(&mut self.0, key)
    }
}

/// When the key is already bound, attaching it is exactly overwriting its
/// value in place.
proof fn lemma_attach_on_present_overwrites(
    pre: Option<Box<TreeNode>>,
    post: Option<Box<TreeNode>>,
    key: int,
    val: i32,
)
    requires
        sub_ordered(pre),
        sub_map(pre).dom().contains(key),
        leaf_attached(pre, post, key, val),
    ensures
        value_overwritten(pre, post, key, val),
    decreases pre,
{
    match (pre, post) {
        (Some(n), Some(m)) => {
            if key < n.key as int {
                assert(!sub_map(n.right).dom().contains(key));
                assert(sub_map(n.left).dom().contains(key));
                lemma_attach_on_present_overwrites(n.left, m.left, key, val);
            } else if key > n.key as int {
                assert(!sub_map(n.left).dom().contains(key));
                assert(sub_map(n.right).dom().contains(key));
                lemma_attach_on_present_overwrites(n.right, m.right, key, val);
            }
        }
        _ => {
        }
    }
}

impl BST for BinarySearchTree {
    /// The search-order invariant.
    closed spec fn inv(&self) -> bool {
        sub_ordered(self.0)
    }

    /// The stored pairs.
    closed spec fn kv(&self) -> Map<int, i32> {
        sub_map(self.0)
    }

    fn search(&mut self, key: i32) -> (r: Option<i32>) {
        self.search(key)
    }

    fn insert(&mut self, key: i32, val: i32) {
        self.insert(key, val);
    }

    fn remove(&mut self, key: i32) -> (r: Option<i32>) {
        self.remove(key)
    }
}

} // verus!
