//! The AVL engine: the traversal and deletion topology of the plain binary
//! search tree, plus height recomputation and rotation dispatch walked
//! bottom-up over the access path after every insert and remove.

use crate::node::lemma_stored_bounded;
use crate::node::search_at;
use crate::node::sub_balanced;
use crate::node::sub_height;
use crate::node::sub_heights_ok;
use crate::node::sub_map;
use crate::node::sub_ordered;
use crate::node::value_overwritten;
use crate::node::lemma_value_overwritten_height;
use crate::node::TreeNode;
use crate::BST;
use vstd::prelude::*;

verus! {

/// A height-balanced search tree over `i32` keys and values.
#[derive(Debug, PartialEq, Eq)]
pub struct AVLTree(Option<Box<TreeNode>>);

/// The AVL engine's full invariant on a subtree: search order, consistent
/// cached heights, and the height-balance condition.
pub open spec fn avl_wf(t: Option<Box<TreeNode>>) -> bool {
    sub_ordered(t) && sub_heights_ok(t) && sub_balanced(t)
}

/// Insert into a balanced subtree and restore the balance bottom-up; the
/// subtree grows by at most one level.
fn avl_insert_at(t: Option<Box<TreeNode>>, key: i32, val: i32) -> (r: Box<TreeNode>)
    requires
        avl_wf(t),
    ensures
        r.ordered(),
        r.heights_ok(),
        r.balanced(),
        r.as_map() == sub_map(t).insert(key as int, val),
        sub_height(t) <= r.height_of() <= sub_height(t) + 1,
        sub_map(t).dom().contains(key as int) ==> value_overwritten(t, Some(r), key as int, val),
    decreases t,
{
    match t {
        None => {
            let n = Box::new(TreeNode::new(key, val));
            proof {
                assert(n.as_map() =~= sub_map(t).insert(key as int, val));
            }
            n
        }
        Some(n) => {
            let mut inner = *n;
            proof {
                assert(inner.ordered() && inner.heights_ok() && inner.balanced());
            }
            if key > inner.get_key() {
                let sub = inner.right.take();
                let newr = avl_insert_at(sub, key, val);
                inner.right = Some(newr);
                proof {
                    assert(!sub_map(inner.left).dom().contains(key as int));
                    assert(inner.ordered());
                    assert(inner.as_map() =~= sub_map(t).insert(key as int, val));
                    lemma_stored_bounded(inner.left);
                    lemma_stored_bounded(inner.right);
                }
                inner.update_height();
                proof {
                    assert(inner.heights_ok());
                    if sub_map(t).dom().contains(key as int) {
                        // a duplicate key only overwrote a value below, so
                        // the recomputed height is the old one and the
                        // rebalance that follows is a structural no-op
                        assert(value_overwritten(n.right, inner.right, key as int, val));
                        lemma_value_overwritten_height(n.right, inner.right, key as int, val);
                        assert(inner.height == n.height);
                    }
                }
                inner.rebalance();
                proof {
                    assert(inner.as_map() == sub_map(t).insert(key as int, val));
                    if sub_map(t).dom().contains(key as int) {
                        assert(value_overwritten(t, Some(Box::new(inner)), key as int, val));
                    }
                }
                Box::new(inner)
            } else if key < inner.get_key() {
                let sub = inner.left.take();
                let newl = avl_insert_at(sub, key, val);
                inner.left = Some(newl);
                proof {
                    assert(!sub_map(inner.right).dom().contains(key as int));
                    assert(inner.ordered());
                    assert(inner.as_map() =~= sub_map(t).insert(key as int, val));
                    lemma_stored_bounded(inner.left);
                    lemma_stored_bounded(inner.right);
                }
                inner.update_height();
                proof {
                    assert(inner.heights_ok());
                    if sub_map(t).dom().contains(key as int) {
                        assert(value_overwritten(n.left, inner.left, key as int, val));
                        lemma_value_overwritten_height(n.left, inner.left, key as int, val);
                        assert(inner.height == n.height);
                    }
                }
                inner.rebalance();
                proof {
                    assert(inner.as_map() == sub_map(t).insert(key as int, val));
                    if sub_map(t).dom().contains(key as int) {
                        assert(value_overwritten(t, Some(Box::new(inner)), key as int, val));
                    }
                }
                Box::new(inner)
            } else {
                inner.set_val(val);
                proof {
                    assert(!sub_map(inner.left).dom().contains(key as int));
                    assert(!sub_map(inner.right).dom().contains(key as int));
                    assert(inner.ordered() && inner.heights_ok() && inner.balanced());
                    assert(inner.as_map() =~= sub_map(t).insert(key as int, val));
                    assert(value_overwritten(t, Some(Box::new(inner)), key as int, val));
                }
                Box::new(inner)
            }
        }
    }
}

/// Detach the smallest pair of a balanced subtree, rebalancing the walked
/// path on the way back up; the subtree shrinks by at most one level.
fn avl_take_leftmost(n: Box<TreeNode>) -> (res: (Option<Box<TreeNode>>, (i32, i32)))
    requires
        n.ordered(),
        n.heights_ok(),
        n.balanced(),
    ensures
        avl_wf(res.0),
        n.as_map().dom().contains(res.1.0 as int),
        n.as_map()[res.1.0 as int] == res.1.1,
        sub_map(res.0) == n.as_map().remove(res.1.0 as int),
        forall|k2: int| n.as_map().dom().contains(k2) ==> res.1.0 as int <= k2,
        n.height_of() - 1 <= sub_height(res.0) <= n.height_of(),
    decreases *n,
{
    let mut inner = *n;
    proof {
        assert(inner.ordered() && inner.heights_ok() && inner.balanced());
    }
    if inner.left.is_none() {
        let kv = (inner.get_key(), inner.get_val());
        let rest = inner.right;
        proof {
            assert(sub_map(rest) =~= inner.as_map().remove(kv.0 as int));
        }
        (rest, kv)
    } else {
        let sub = inner.left.take().unwrap();
        let (newl, kv) = avl_take_leftmost(sub);
        inner.left = newl;
        proof {
            assert(!sub_map(inner.right).dom().contains(kv.0 as int));
            assert(inner.key != kv.0);
            assert(inner.ordered());
            assert(inner.as_map() =~= n.as_map().remove(kv.0 as int));
            lemma_stored_bounded(inner.left);
            lemma_stored_bounded(inner.right);
        }
        inner.update_height();
        proof {
            assert(inner.heights_ok());
        }
        inner.rebalance();
        (Some(Box::new(inner)), kv)
    }
}

/// Remove from a balanced subtree and restore the balance bottom-up; the
/// subtree shrinks by at most one level.
fn avl_remove_at(t: Option<Box<TreeNode>>, key: i32) -> (res: (Option<Box<TreeNode>>, Option<i32>))
    requires
        avl_wf(t),
    ensures
        avl_wf(res.0),
        sub_map(res.0) == sub_map(t).remove(key as int),
        res.1 == (if sub_map(t).dom().contains(key as int) {
            Some(sub_map(t)[key as int])
        } else {
            None::<i32>
        }),
        sub_height(t) - 1 <= sub_height(res.0) <= sub_height(t),
        !sub_map(t).dom().contains(key as int) ==> res.0 == t,
    decreases t,
{
    match t {
        None => {
            proof {
                assert(sub_map(t) =~= sub_map(t).remove(key as int));
            }
            (None, None)
        }
        Some(n) => {
            let mut inner = *n;
            proof {
                assert(inner.ordered() && inner.heights_ok() && inner.balanced());
            }
            if key > inner.get_key() {
                let sub = inner.right.take();
                let (newr, r) = avl_remove_at(sub, key);
                inner.right = newr;
                proof {
                    assert(!sub_map(inner.left).dom().contains(key as int));
                    assert(inner.ordered());
                    assert(inner.as_map() =~= sub_map(t).remove(key as int));
                    lemma_stored_bounded(inner.left);
                    lemma_stored_bounded(inner.right);
                }
                inner.update_height();
                proof {
                    assert(inner.heights_ok());
                    if !sub_map(t).dom().contains(key as int) {
                        // nothing below changed, so the height write and the
                        // rebalance that follows leave the node as it was
                        assert(inner.right == n.right);
                        assert(inner.height == n.height);
                    }
                }
                inner.rebalance();
                proof {
                    if !sub_map(t).dom().contains(key as int) {
                        assert(Some(Box::new(inner)) == t);
                    }
                }
                (Some(Box::new(inner)), r)
            } else if key < inner.get_key() {
                let sub = inner.left.take();
                let (newl, r) = avl_remove_at(sub, key);
                inner.left = newl;
                proof {
                    assert(!sub_map(inner.right).dom().contains(key as int));
                    assert(inner.ordered());
                    assert(inner.as_map() =~= sub_map(t).remove(key as int));
                    lemma_stored_bounded(inner.left);
                    lemma_stored_bounded(inner.right);
                }
                inner.update_height();
                proof {
                    assert(inner.heights_ok());
                    if !sub_map(t).dom().contains(key as int) {
                        assert(inner.left == n.left);
                        assert(inner.height == n.height);
                    }
                }
                inner.rebalance();
                proof {
                    if !sub_map(t).dom().contains(key as int) {
                        assert(Some(Box::new(inner)) == t);
                    }
                }
                (Some(Box::new(inner)), r)
            } else {
                let v = inner.get_val();
                proof {
                    assert(!sub_map(inner.left).dom().contains(key as int));
                    assert(!sub_map(inner.right).dom().contains(key as int));
                }
                if inner.right.is_none() {
                    let rest = inner.left;
                    proof {
                        assert(sub_map(rest) =~= sub_map(t).remove(key as int));
                    }
                    (rest, Some(v))
                } else if inner.left.is_none() {
                    let rest = inner.right;
                    proof {
                        assert(sub_map(rest) =~= sub_map(t).remove(key as int));
                    }
                    (rest, Some(v))
                } else {
                    let sub = inner.right.take().unwrap();
                    let (newr, kv) = avl_take_leftmost(sub);
                    inner.right = newr;
                    inner.key = kv.0;
                    inner.val = kv.1;
                    proof {
                        assert(inner.ordered());
                        assert(inner.as_map() =~= sub_map(t).remove(key as int));
                        lemma_stored_bounded(inner.left);
                        lemma_stored_bounded(inner.right);
                    }
                    inner.update_height();
                    proof {
                        assert(inner.heights_ok());
                    }
                    inner.rebalance();
                    (Some(Box::new(inner)), Some(v))
                }
            }
        }
    }
}

impl AVLTree {
    /// The whole tree as a spec value.
    pub closed spec fn tree(&self) -> Option<Box<TreeNode>> {
        self.0
    }

    /// The root node as a spec value, `None` for an empty tree.
    pub closed spec fn root_node(&self) -> Option<TreeNode> {
        match self.tree() {
            None => None,
            Some(b) => Some(*b),
        }
    }

    /// The key-value view is exactly the map of the tree, so an empty view
    /// means no root and a populated view means the root's own map.
    pub proof fn lemma_tree_view(&self)
        ensures
            self.kv() == sub_map(self.tree()),
            self.root_node() is Some <==> self.tree() is Some,
            self.tree() matches Some(b) ==> self.root_node() == Some(*b) && self.kv()
                == b.as_map(),
            self.tree() is None ==> self.kv() == Map::<int, i32>::empty(),
    {
    }

    /// A tree seeded with one initial pair: a single leaf as the root; the
    /// order and height invariants hold trivially.
    pub fn new(root_key: i32, root_val: i32) -> (t: Self)
        ensures
            t.inv(),
            t.kv() == Map::<int, i32>::empty().insert(root_key as int, root_val),
            t.tree() matches Some(b) && *b == (TreeNode {
                key: root_key,
                val: root_val,
                height: 1,
                left: None,
                right: None,
            }),
    {
        let t = AVLTree(Some(Box::new(TreeNode::new(root_key, root_val))));
        proof {
            assert(t.kv() =~= Map::<int, i32>::empty().insert(root_key as int, root_val));
        }
        t
    }

    /// Borrow the root node, if any; the way in for a caller that wants to
    /// walk the shape.
    pub fn root(&self) -> (r: Option<&TreeNode>)
        ensures
            self.root_node().is_some() ==> r.is_some() && *r.unwrap() == self.root_node().unwrap(),
            self.root_node().is_none() ==> r.is_none(),
            self.inv() && r.is_some() ==> r.unwrap().ordered() && r.unwrap().heights_ok()
                && r.unwrap().balanced(),
            self.root_node() matches Some(n) ==> self.kv() == n.as_map(),
            self.root_node() is None ==> self.kv() == Map::<int, i32>::empty(),
    {
        match &self.0 {
            None => None,
            Some(b) => Some(&**b),
        }
    }

    /// Look the key up by ordered descent. The tree is left exactly as it
    /// was: this engine's search performs no mutation and no fix-up.
    pub fn search(&mut self, key: i32) -> (r: Option<i32>)
        requires
            old(self).inv(),
        ensures
            *final(self) == *old(self),
            final(self).inv(),
            r == (if old(self).kv().dom().contains(key as int) {
                Some(old(self).kv()[key as int])
            } else {
                None::<i32>
            }),
    {
        search_at(&self.0, key)
    }

    /// Bind the key to the value, rebalancing bottom-up. When the key was
    /// already bound the fix-up walk is a structural no-op: the tree keeps
    /// its shape, keys and cached heights, and only the value changes.
    pub fn insert(&mut self, key: i32, val: i32)
        requires
            old(self).inv(),
        ensures
            final(self).inv(),
            final(self).kv() == old(self).kv().insert(key as int, val),
            old(self).kv().dom().contains(key as int) ==> value_overwritten(
                old(self).tree(),
                final(self).tree(),
                key as int,
                val,
            ),
    {
        let root = self.0.take();
        self.0 = Some(avl_insert_at(root, key, val));
    }

    /// Drop the key, rebalancing bottom-up; an absent key leaves the tree
    /// exactly as it was.
    pub fn remove(&mut self, key: i32) -> (r: Option<i32>)
        requires
            old(self).inv(),
        ensures
            final(self).inv(),
            final(self).kv() == old(self).kv().remove(key as int),
            r == (if old(self).kv().dom().contains(key as int) {
                Some(old(self).kv()[key as int])
            } else {
                None::<i32>
            }),
            !old(self).kv().dom().contains(key as int) ==> *final(self) == *old(self),
    {
        let root = self.0.take();
        let (newroot, r) = avl_remove_at(root, key);
        self.0 = newroot;
        r
    }
}

impl BST for AVLTree {
    /// Search order, consistent cached heights, and the AVL height balance.
    closed spec fn inv(&self) -> bool {
        avl_wf(self.0)
    }

    /// The stored pairs.
    closed spec fn kv(&self) -> Map<int, i32> {
        sub_map(self.0)
    }

    fn search(&mut self, key: i32) -> (r: Option<i32>) {
        self.search(key)
    }

    fn insert(&mut self, key: i32, val: i32) {
        self.insert(key, val);
    }

    fn remove(&mut self, key: i32) -> (r: Option<i32>) {
        self.remove(key)
    }
}

} // verus!
