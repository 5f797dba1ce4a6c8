//! The splay engine: the traversal and deletion topology of the plain binary
//! search tree, plus a move-to-root pass after every operation that touches
//! an existing node. The pass consumes the access path two levels at a time
//! (zig-zig and zig-zag), with one final single rotation when a lone ancestor
//! remains, so the node last touched ends at the root.

use crate::node::keys_above;
use crate::node::keys_below;
use crate::node::lemma_hbound_node;
use crate::node::lemma_hbound_stored_bounded;
use crate::node::sub_hbound;
use crate::node::sub_map;
use crate::node::sub_ordered;
use crate::node::ChildType;
use crate::node::TreeNode;
use crate::BST;
use vstd::prelude::*;

verus! {

/// A self-adjusting search tree over `i32` keys and values.
#[derive(Debug, PartialEq, Eq)]
pub struct SplayTree(Option<Box<TreeNode>>);

/// The splay engine's invariant: search order, and cached heights that stay
/// within the subtree's size (splaying leaves heights of untouched ancestors
/// stale, so no more than a bound can be kept).
pub open spec fn splay_wf(t: Option<Box<TreeNode>>) -> bool {
    sub_ordered(t) && sub_hbound(t)
}

/// No key of `m` lies strictly between `a` and `b` (in either order).
pub open spec fn no_key_between(m: Map<int, i32>, a: int, b: int) -> bool {
    forall|k: int| m.dom().contains(k) ==> !(a < k < b) && !(b < k < a)
}

/// One splay descent step. After the call the node nearest to `key` on the
/// old access path sits either at `n` itself (`lev == 0`, rotations done) or
/// at `n`'s child on the search side (`lev == 1`, waiting for the caller —
/// the grandparent — to fold two levels at once, or for the root to finish
/// with a single rotation).
fn splay_step(n: &mut TreeNode, key: i32) -> (lev: u8)
    requires
        old(n).ordered(),
        old(n).hbound(),
    ensures
        final(n).ordered(),
        final(n).hbound(),
        final(n).as_map() == old(n).as_map(),
        lev <= 1,
        lev == 0 ==> (final(n).key == key || !final(n).as_map().dom().contains(key as int))
            && no_key_between(final(n).as_map(), final(n).key as int, key as int),
        lev == 1 ==> final(n).key == old(n).key && key != final(n).key,
        lev == 1 && key < final(n).key ==> final(n).left.is_some() && (final(n).left.unwrap().key
            == key || !final(n).as_map().dom().contains(key as int))
            && no_key_between(final(n).as_map(), final(n).left.unwrap().key as int, key as int)
            && final(n).left.unwrap().key < final(n).key,
        lev == 1 && key > final(n).key ==> final(n).right.is_some() && (final(n).right.unwrap().key
            == key || !final(n).as_map().dom().contains(key as int))
            && no_key_between(final(n).as_map(), final(n).right.unwrap().key as int, key as int)
            && final(n).right.unwrap().key > final(n).key,
    decreases *old(n),
{
    if key == n.get_key() {
        return 0;
    }
    if key < n.get_key() {
        let sub = n.left.take();
        match sub {
            None => {
                proof {
                    assert(*n == *old(n));
                    assert(!n.as_map().dom().contains(key as int));
                }
                0
            }
            Some(mut l) => {
                let sublev = splay_step(&mut *l, key);
                if sublev == 0 {
                    let ghost lm = l.as_map();
                    let ghost t0 = l.key as int;
                    n.left = Some(l);
                    proof {
                        assert(n.ordered());
                        assert(n.hbound());
                        assert(n.as_map() =~= old(n).as_map());
                        assert(lm.dom().contains(t0));
                        assert(n.as_map().dom() =~= lm.dom() + sub_map(n.right).dom() + set![
                            n.key as int,
                        ]);
                        assert(no_key_between(n.as_map(), t0, key as int));
                        assert(sub_map(n.left).dom().contains(key as int)
                            == n.as_map().dom().contains(key as int));
                    }
                    1
                } else {
                    let side = if key < l.get_key() {
                        ChildType::Left
                    } else {
                        ChildType::Right
                    };
                    let ghost lm = l.as_map();
                    let ghost t0 = if key < l.key {
                        l.left.unwrap().key as int
                    } else {
                        l.right.unwrap().key as int
                    };
                    n.left = Some(l);
                    proof {
                        assert(n.ordered());
                        assert(n.as_map() =~= old(n).as_map());
                        assert(n.as_map().dom() =~= lm.dom() + sub_map(n.right).dom() + set![
                            n.key as int,
                        ]);
                        assert(sub_map(n.left).dom().contains(key as int)
                            == n.as_map().dom().contains(key as int));
                        assert(lm.dom().contains(t0));
                        lemma_hbound_stored_bounded(n.right);
                        let ln = *n.left.unwrap();
                        assert(ln.hbound());
                        lemma_hbound_stored_bounded(ln.left);
                        lemma_hbound_stored_bounded(ln.right);
                    }
                    match side {
                        ChildType::Left => {
                            // zig-zig: the waiting node is the left-left
                            // grandchild; rotate the grandparent edge first,
                            // then the parent edge
                            n.rotate_right();
                            proof {
                                let ln = *n.left.unwrap();
                                assert(ln.hbound());
                                lemma_hbound_stored_bounded(ln.left);
                                lemma_hbound_stored_bounded(ln.right);
                                lemma_hbound_stored_bounded(n.right);
                            }
                            n.rotate_right();
                        }
                        ChildType::Right => {
                            // zig-zag: the waiting node is the left-right
                            // grandchild; rotate it over its parent, then
                            // over this node
                            let mut l2 = n.left.take().unwrap();
                            proof {
                                let lrn = *l2.right.unwrap();
                                assert(lrn.hbound());
                                lemma_hbound_stored_bounded(lrn.left);
                                lemma_hbound_stored_bounded(lrn.right);
                                lemma_hbound_stored_bounded(l2.left);
                            }
                            l2.rotate_left();
                            n.left = Some(l2);
                            proof {
                                assert(n.ordered());
                                let ln = *n.left.unwrap();
                                assert(ln.hbound());
                                lemma_hbound_stored_bounded(ln.left);
                                lemma_hbound_stored_bounded(ln.right);
                                lemma_hbound_stored_bounded(n.right);
                            }
                            n.rotate_right();
                        }
                    }
                    proof {
                        assert(n.key as int == t0);
                        assert(n.as_map() == old(n).as_map());
                        assert(no_key_between(n.as_map(), t0, key as int));
                    }
                    0
                }
            }
        }
    } else {
        let sub = n.right.take();
        match sub {
            None => {
                proof {
                    assert(*n == *old(n));
                    assert(!n.as_map().dom().contains(key as int));
                }
                0
            }
            Some(mut r) => {
                let sublev = splay_step(&mut *r, key);
                if sublev == 0 {
                    let ghost rm = r.as_map();
                    let ghost t0 = r.key as int;
                    n.right = Some(r);
                    proof {
                        assert(n.ordered());
                        assert(n.hbound());
                        assert(n.as_map() =~= old(n).as_map());
                        assert(rm.dom().contains(t0));
                        assert(n.as_map().dom() =~= sub_map(n.left).dom() + rm.dom() + set![
                            n.key as int,
                        ]);
                        assert(no_key_between(n.as_map(), t0, key as int));
                        assert(sub_map(n.right).dom().contains(key as int)
                            == n.as_map().dom().contains(key as int));
                    }
                    1
                } else {
                    let side = if key > r.get_key() {
                        ChildType::Right
                    } else {
                        ChildType::Left
                    };
                    let ghost rm = r.as_map();
                    let ghost t0 = if key > r.key {
                        r.right.unwrap().key as int
                    } else {
                        r.left.unwrap().key as int
                    };
                    n.right = Some(r);
                    proof {
                        assert(n.ordered());
                        assert(n.as_map() =~= old(n).as_map());
                        assert(n.as_map().dom() =~= sub_map(n.left).dom() + rm.dom() + set![
                            n.key as int,
                        ]);
                        assert(sub_map(n.right).dom().contains(key as int)
                            == n.as_map().dom().contains(key as int));
                        assert(rm.dom().contains(t0));
                        lemma_hbound_stored_bounded(n.left);
                        let rn = *n.right.unwrap();
                        assert(rn.hbound());
                        lemma_hbound_stored_bounded(rn.left);
                        lemma_hbound_stored_bounded(rn.right);
                    }
                    match side {
                        ChildType::Right => {
                            // zag-zag: mirror of zig-zig
                            n.rotate_left();
                            proof {
                                let rn = *n.right.unwrap();
                                assert(rn.hbound());
                                lemma_hbound_stored_bounded(rn.left);
                                lemma_hbound_stored_bounded(rn.right);
                                lemma_hbound_stored_bounded(n.left);
                            }
                            n.rotate_left();
                        }
                        ChildType::Left => {
                            // zag-zig: mirror of zig-zag
                            let mut r2 = n.right.take().unwrap();
                            proof {
                                let rln = *r2.left.unwrap();
                                assert(rln.hbound());
                                lemma_hbound_stored_bounded(rln.left);
                                lemma_hbound_stored_bounded(rln.right);
                                lemma_hbound_stored_bounded(r2.right);
                            }
                            r2.rotate_right();
                            n.right = Some(r2);
                            proof {
                                assert(n.ordered());
                                let rn = *n.right.unwrap();
                                assert(rn.hbound());
                                lemma_hbound_stored_bounded(rn.left);
                                lemma_hbound_stored_bounded(rn.right);
                                lemma_hbound_stored_bounded(n.left);
                            }
                            n.rotate_left();
                        }
                    }
                    proof {
                        assert(n.key as int == t0);
                        assert(n.as_map() == old(n).as_map());
                        assert(no_key_between(n.as_map(), t0, key as int));
                    }
                    0
                }
            }
        }
    }
}

/// Splay the node nearest to `key` all the way to the root. On a hit the
/// root afterwards holds `key`; on a miss it holds a neighbour of `key`
/// with no stored key between the two.
fn splay_root(t: &mut Option<Box<TreeNode>>, key: i32)
    requires
        splay_wf(*old(t)),
    ensures
        splay_wf(*final(t)),
        sub_map(*final(t)) == sub_map(*old(t)),
        final(t).is_some() == old(t).is_some(),
        final(t).is_some() ==> (final(t).unwrap().key == key || !sub_map(
            *final(t),
        ).dom().contains(key as int)) && no_key_between(
            sub_map(*final(t)),
            final(t).unwrap().key as int,
            key as int,
        ),
{
    match t.take() {
        None => {
        }
        Some(mut b) => {
            let lev = splay_step(&mut *b, key);
            if lev == 1 {
                proof {
                    lemma_hbound_stored_bounded(b.left);
                    lemma_hbound_stored_bounded(b.right);
                    if key < b.key {
                        let ln = *b.left.unwrap();
                        assert(ln.hbound());
                        lemma_hbound_stored_bounded(ln.left);
                        lemma_hbound_stored_bounded(ln.right);
                    } else {
                        let rn = *b.right.unwrap();
                        assert(rn.hbound());
                        lemma_hbound_stored_bounded(rn.left);
                        lemma_hbound_stored_bounded(rn.right);
                    }
                }
                if key < b.get_key() {
                    // the waiting node is the left child: one final zig
                    b.rotate_right();
                } else {
                    // the waiting node is the right child: one final zag
                    b.rotate_left();
                }
            }
            *t = Some(b);
        }
    }
}

/// Detach the smallest pair of a non-empty subtree, recomputing the cached
/// heights along the walked path.
fn splay_take_leftmost(n: Box<TreeNode>) -> (res: (Option<Box<TreeNode>>, (i32, i32)))
    requires
        n.ordered(),
        n.hbound(),
    ensures
        splay_wf(res.0),
        n.as_map().dom().contains(res.1.0 as int),
        n.as_map()[res.1.0 as int] == res.1.1,
        sub_map(res.0) == n.as_map().remove(res.1.0 as int),
        forall|k2: int| n.as_map().dom().contains(k2) ==> res.1.0 as int <= k2,
    decreases *n,
{
    let mut inner = *n;
    proof {
        assert(inner.ordered() && inner.hbound());
    }
    if inner.left.is_none() {
        let kv = (inner.get_key(), inner.get_val());
        let rest = inner.right;
        proof {
            assert(sub_map(rest) =~= inner.as_map().remove(kv.0 as int));
        }
        (rest, kv)
    } else {
        let sub = inner.left.take().unwrap();
        let (newl, kv) = splay_take_leftmost(sub);
        inner.left = newl;
        proof {
            assert(!sub_map(inner.right).dom().contains(kv.0 as int));
            assert(inner.key != kv.0);
            assert(inner.ordered());
            assert(inner.as_map() =~= n.as_map().remove(kv.0 as int));
            lemma_hbound_stored_bounded(inner.left);
            lemma_hbound_stored_bounded(inner.right);
        }
        inner.update_height();
        proof {
            lemma_hbound_node(inner);
        }
        (Some(Box::new(inner)), kv)
    }
}

impl SplayTree {
    /// The whole tree as a spec value.
    pub closed spec fn tree(&self) -> Option<Box<TreeNode>> {
        self.0
    }

    /// The root node as a spec value, `None` for an empty tree.
    pub closed spec fn root_node(&self) -> Option<TreeNode> {
        match self.tree() {
            None => None,
            Some(b) => Some(*b),
        }
    }

    /// The key-value view is exactly the map of the tree, so an empty view
    /// means no root and a populated view means the root's own map.
    pub proof fn lemma_tree_view(&self)
        ensures
            self.kv() == sub_map(self.tree()),
            self.root_node() is Some <==> self.tree() is Some,
            self.tree() matches Some(b) ==> self.root_node() == Some(*b) && self.kv()
                == b.as_map(),
            self.tree() is None ==> self.kv() == Map::<int, i32>::empty(),
    {
    }

    /// A tree seeded with one initial pair: a single leaf as the root.
    pub fn new(root_key: i32, root_val: i32) -> (t: Self)
        ensures
            t.inv(),
            t.kv() == Map::<int, i32>::empty().insert(root_key as int, root_val),
            t.tree() matches Some(b) && *b == (TreeNode {
                key: root_key,
                val: root_val,
                height: 1,
                left: None,
                right: None,
            }),
    {
        let t = SplayTree(Some(Box::new(TreeNode::new(root_key, root_val))));
        proof {
            assert(t.kv() =~= Map::<int, i32>::empty().insert(root_key as int, root_val));
        }
        t
    }

    /// Borrow the root node, if any; the way in for a caller that wants to
    /// walk the shape.
    pub fn root(&self) -> (r: Option<&TreeNode>)
        ensures
            self.root_node().is_some() ==> r.is_some() && *r.unwrap() == self.root_node().unwrap(),
            self.root_node().is_none() ==> r.is_none(),
            self.inv() && r.is_some() ==> r.unwrap().ordered() && r.unwrap().hbound(),
            self.root_node() matches Some(n) ==> self.kv() == n.as_map(),
            self.root_node() is None ==> self.kv() == Map::<int, i32>::empty(),
    {
        match &self.0 {
            None => None,
            Some(b) => Some(&**b),
        }
    }

    /// Look the key up, splaying the last node touched to the root: after a
    /// hit the found key sits at the root.
    pub fn search(&mut self, key: i32) -> (r: Option<i32>)
        requires
            old(self).inv(),
        ensures
            final(self).inv(),
            final(self).kv() == old(self).kv(),
            r == (if old(self).kv().dom().contains(key as int) {
                Some(old(self).kv()[key as int])
            } else {
                None::<i32>
            }),
            old(self).kv().dom().contains(key as int) ==> final(self).root_node().is_some()
                && final(self).root_node().unwrap().key == key,
    {
        splay_root(&mut self.0, key);
        match &self.0 {
            None => None,
            Some(b) => {
                if b.get_key() == key {
                    Some(b.get_val())
                } else {
                    proof {
                        assert(!sub_map(self.0).dom().contains(key as int));
                    }
                    None
                }
            }
        }
    }

    /// Bind the key to the value. The node nearest to `key` is splayed to
    /// the root first; a new key then overwrites the root in place and the
    /// old root content is relinked as a single-child neighbour on the
    /// correct side, so the new key sits at the root immediately.
    pub fn insert(&mut self, key: i32, val: i32)
        requires
            old(self).inv(),
        ensures
            final(self).inv(),
            final(self).kv() == old(self).kv().insert(key as int, val),
            final(self).root_node().is_some(),
            final(self).root_node().unwrap().key == key,
    {
        splay_root(&mut self.0, key);
        let ghost m = sub_map(self.0);
        match self.0.take() {
            None => {
                self.0 = Some(Box::new(TreeNode::new(key, val)));
                proof {
                    assert(sub_map(self.0) =~= m.insert(key as int, val));
                }
            }
            Some(b) => {
                let mut inner = *b;
                let ghost lm0 = sub_map(inner.left);
                let ghost rm0 = sub_map(inner.right);
                let ghost k0 = inner.key as int;
                proof {
                    assert(inner.ordered() && inner.hbound());
                    assert(m == inner.as_map());
                    assert(m.dom() =~= lm0.dom() + rm0.dom() + set![k0]);
                }
                if inner.get_key() == key {
                    inner.set_val(val);
                    proof {
                        assert(inner.ordered() && inner.hbound());
                        assert(inner.as_map() =~= m.insert(key as int, val));
                    }
                    self.0 = Some(Box::new(inner));
                } else if inner.get_key() < key {
                    // the new key is larger: it takes over the root and the
                    // old root content hangs to the left, keeping its left
                    // subtree; the old right subtree stays with the root
                    proof {
                        assert(!m.dom().contains(key as int));
                    }
                    let mut oldn = TreeNode::new(inner.get_key(), inner.get_val());
                    oldn.left = inner.left.take();
                    proof {
                        assert(oldn.ordered());
                        lemma_hbound_stored_bounded(oldn.left);
                        lemma_hbound_stored_bounded(oldn.right);
                    }
                    oldn.update_height();
                    proof {
                        lemma_hbound_node(oldn);
                    }
                    inner.key = key;
                    inner.val = val;
                    inner.left = Some(Box::new(oldn));
                    proof {
                        assert forall|k2: int|
                            sub_map(inner.right).dom().contains(k2) implies k2 > key as int by {
                            assert(m.dom().contains(k2));
                            assert(k2 > k0);
                            assert(k2 != key as int);
                        }
                        assert(oldn.as_map() =~= lm0.insert(k0, m[k0]));
                        assert(oldn.ordered());
                        assert(sub_ordered(inner.left));
                        assert(keys_below(sub_map(inner.left), inner.key as int));
                        assert(keys_above(sub_map(inner.right), inner.key as int));
                        assert(inner.ordered());
                        lemma_hbound_stored_bounded(inner.left);
                        lemma_hbound_stored_bounded(inner.right);
                    }
                    inner.update_height();
                    proof {
                        lemma_hbound_node(inner);
                        assert(inner.as_map() =~= m.insert(key as int, val));
                    }
                    self.0 = Some(Box::new(inner));
                } else {
                    // the new key is smaller: mirror image, the old root
                    // content hangs to the right, keeping its right subtree
                    proof {
                        assert(!m.dom().contains(key as int));
                    }
                    let mut oldn = TreeNode::new(inner.get_key(), inner.get_val());
                    oldn.right = inner.right.take();
                    proof {
                        assert(oldn.ordered());
                        lemma_hbound_stored_bounded(oldn.left);
                        lemma_hbound_stored_bounded(oldn.right);
                    }
                    oldn.update_height();
                    proof {
                        lemma_hbound_node(oldn);
                    }
                    inner.key = key;
                    inner.val = val;
                    inner.right = Some(Box::new(oldn));
                    proof {
                        assert forall|k2: int|
                            sub_map(inner.left).dom().contains(k2) implies k2 < key as int by {
                            assert(m.dom().contains(k2));
                            assert(k2 < k0);
                            assert(k2 != key as int);
                        }
                        assert(oldn.as_map() =~= rm0.insert(k0, m[k0]));
                        assert(oldn.ordered());
                        assert(sub_ordered(inner.right));
                        assert(keys_above(sub_map(inner.right), inner.key as int));
                        assert(keys_below(sub_map(inner.left), inner.key as int));
                        assert(inner.ordered());
                        lemma_hbound_stored_bounded(inner.left);
                        lemma_hbound_stored_bounded(inner.right);
                    }
                    inner.update_height();
                    proof {
                        lemma_hbound_node(inner);
                        assert(inner.as_map() =~= m.insert(key as int, val));
                    }
                    self.0 = Some(Box::new(inner));
                }
            }
        }
    }

    /// Drop the key, handing back its value; an absent key is a no-op. The
    /// node nearest to `key` is splayed to the root first, and a root with
    /// two children is refilled from its in-order successor.
    pub fn remove(&mut self, key: i32) -> (r: Option<i32>)
        requires
            old(self).inv(),
        ensures
            final(self).inv(),
            final(self).kv() == old(self).kv().remove(key as int),
            r == (if old(self).kv().dom().contains(key as int) {
                Some(old(self).kv()[key as int])
            } else {
                None::<i32>
            }),
    {
        splay_root(&mut self.0, key);
        let ghost m = sub_map(self.0);
        match self.0.take() {
            None => {
                proof {
                    assert(m =~= m.remove(key as int));
                }
                None
            }
            Some(b) => {
                let mut inner = *b;
                proof {
                    assert(inner.ordered() && inner.hbound());
                }
                if inner.get_key() == key {
                    let v = inner.get_val();
                    proof {
                        assert(!sub_map(inner.left).dom().contains(key as int));
                        assert(!sub_map(inner.right).dom().contains(key as int));
                    }
                    if inner.right.is_none() {
                        self.0 = inner.left;
                        proof {
                            assert(sub_map(self.0) =~= m.remove(key as int));
                        }
                    } else {
                        let sub = inner.right.take().unwrap();
                        let (newr, kv) = splay_take_leftmost(sub);
                        inner.right = newr;
                        inner.key = kv.0;
                        inner.val = kv.1;
                        proof {
                            assert(inner.ordered());
                            assert(inner.as_map() =~= m.remove(key as int));
                            lemma_hbound_stored_bounded(inner.left);
                            lemma_hbound_stored_bounded(inner.right);
                        }
                        inner.update_height();
                        proof {
                            lemma_hbound_node(inner);
                        }
                        self.0 = Some(Box::new(inner));
                    }
                    Some(v)
                } else {
                    proof {
                        assert(!m.dom().contains(key as int));
                        assert(m =~= m.remove(key as int));
                    }
                    self.0 = Some(Box::new(inner));
                    None
                }
            }
        }
    }
}

impl BST for SplayTree {
    /// Search order, and cached heights bounded by the subtree size.
    closed spec fn inv(&self) -> bool {
        splay_wf(self.0)
    }

    /// The stored pairs.
    closed spec fn kv(&self) -> Map<int, i32> {
        sub_map(self.0)
    }

    fn search(&mut self, key: i32) -> (r: Option<i32>) {
        self.search(key)
    }

    fn insert(&mut self, key: i32, val: i32) {
        self.insert(key, val);
    }

    fn remove(&mut self, key: i32) -> (r: Option<i32>) {
        self.remove(key)
    }
}

} // verus!
