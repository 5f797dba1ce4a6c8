//! The tree cell shared by all engines, its abstract model, and the local
//! rotation primitives.
//!
//! The model of a subtree is the `Map<int, i32>` of its key-value pairs
//! (`sub_map`), and the shape predicates are stated over that model: the
//! search-order invariant (`sub_ordered`), the true subtree height
//! (`sub_height`), agreement of the cached `height` fields with the true
//! heights (`sub_heights_ok`), and the AVL balance condition (`sub_balanced`).

use vstd::prelude::*;
use vstd::set_lib::lemma_int_range;
use vstd::set_lib::lemma_len_subset;
use vstd::set_lib::set_int_range;

verus! {

/// One cell of a binary search tree: a key, its payload, the cached height of
/// the subtree hanging here (1 for a leaf; an absent child counts 0), and the
/// two exclusively owned child slots.
#[derive(Debug, PartialEq, Eq)]
pub struct TreeNode {
    /// search key, unique within a tree
    pub key: i32,
    /// payload, replaced wholesale when the same key is inserted again
    pub val: i32,
    /// cached height of this subtree
    pub height: u64,
    /// left child: every key below it is smaller than `key`
    pub left: Option<Box<TreeNode>>,
    /// right child: every key below it is greater than `key`
    pub right: Option<Box<TreeNode>>,
}

/// Which side of its parent a node hangs on.
#[derive(Debug, PartialEq, Eq)]
pub enum ChildType {
    /// the node is its parent's left child
    Left,
    /// the node is its parent's right child
    Right,
}

/// The key-value pairs stored in an optional subtree.
pub open spec fn sub_map(t: Option<Box<TreeNode>>) -> Map<int, i32>
    decreases t,
{
    match t {
        None => Map::empty(),
        Some(n) => n.as_map(),
    }
}

/// Every key of `m` lies strictly below `bound`.
pub open spec fn keys_below(m: Map<int, i32>, bound: int) -> bool {
    forall|k: int| m.dom().contains(k) ==> k < bound
}

/// Every key of `m` lies strictly above `bound`.
pub open spec fn keys_above(m: Map<int, i32>, bound: int) -> bool {
    forall|k: int| m.dom().contains(k) ==> k > bound
}

/// The search-order invariant of an optional subtree.
pub open spec fn sub_ordered(t: Option<Box<TreeNode>>) -> bool
    decreases t,
{
    match t {
        None => true,
        Some(n) => n.ordered(),
    }
}

/// The true height of an optional subtree (0 when absent).
pub open spec fn sub_height(t: Option<Box<TreeNode>>) -> nat
    decreases t,
{
    match t {
        None => 0,
        Some(n) => n.height_of(),
    }
}

/// The cached height field of an optional subtree (0 when absent).
pub open spec fn sub_stored(t: Option<Box<TreeNode>>) -> int {
    match t {
        None => 0,
        Some(n) => n.height as int,
    }
}

/// The cached heights agree with the true heights throughout the subtree.
pub open spec fn sub_heights_ok(t: Option<Box<TreeNode>>) -> bool
    decreases t,
{
    match t {
        None => true,
        Some(n) => n.heights_ok(),
    }
}

/// The AVL balance condition holds throughout the subtree.
pub open spec fn sub_balanced(t: Option<Box<TreeNode>>) -> bool
    decreases t,
{
    match t {
        None => true,
        Some(n) => n.balanced(),
    }
}

/// Every cached height in the subtree is at most the number of pairs stored
/// below it. Weaker than `sub_heights_ok`: it survives restructuring that
/// leaves heights stale, and is all the rotation arithmetic needs.
pub open spec fn sub_hbound(t: Option<Box<TreeNode>>) -> bool
    decreases t,
{
    match t {
        None => true,
        Some(n) => n.hbound(),
    }
}

impl TreeNode {
    /// The key-value pairs stored in the subtree rooted at this node.
    pub open spec fn as_map(self) -> Map<int, i32>
        decreases self,
    {
        sub_map(self.left).union_prefer_right(sub_map(self.right)).insert(
            self.key as int,
            self.val,
        )
    }

    /// The search-order invariant at this node and below.
    pub open spec fn ordered(self) -> bool
        decreases self,
    {
        &&& keys_below(sub_map(self.left), self.key as int)
        &&& keys_above(sub_map(self.right), self.key as int)
        &&& sub_ordered(self.left)
        &&& sub_ordered(self.right)
    }

    /// The true height of the subtree rooted at this node.
    pub open spec fn height_of(self) -> nat
        decreases self,
    {
        1 + if sub_height(self.left) >= sub_height(self.right) {
            sub_height(self.left)
        } else {
            sub_height(self.right)
        }
    }

    /// The cached heights agree with the true heights at this node and below.
    pub open spec fn heights_ok(self) -> bool
        decreases self,
    {
        &&& self.height as int == self.height_of() as int
        &&& sub_heights_ok(self.left)
        &&& sub_heights_ok(self.right)
    }

    /// The AVL balance condition at this node and below.
    pub open spec fn balanced(self) -> bool
        decreases self,
    {
        &&& -1 <= sub_height(self.left) - sub_height(self.right) <= 1
        &&& sub_balanced(self.left)
        &&& sub_balanced(self.right)
    }

    /// Every cached height at this node and below is at most the number of
    /// pairs stored under it.
    pub open spec fn hbound(self) -> bool
        decreases self,
    {
        &&& self.height as int <= self.as_map().len()
        &&& sub_hbound(self.left)
        &&& sub_hbound(self.right)
    }

    /// A fresh leaf holding the given pair.
    pub fn new(key: i32, val: i32) -> (n: TreeNode)
        ensures
            n == (TreeNode { key, val, height: 1, left: None, right: None }),
            n.as_map() == Map::<int, i32>::empty().insert(key as int, val),
            n.ordered(),
            n.heights_ok(),
            n.balanced(),
            n.hbound(),
            n.height_of() == 1,
    {
        let n = TreeNode { key, val, height: 1, left: None, right: None };
        proof {
            assert(n.as_map() =~= Map::<int, i32>::empty().insert(key as int, val));
            assert(n.as_map().dom() =~= Set::<int>::empty().insert(key as int));
        }
        n
    }

    /// Read the key.
    pub fn get_key(&self) -> (k: i32)
        ensures
            k == self.key,
    {
        self.key
    }

    /// Read the payload.
    pub fn get_val(&self) -> (v: i32)
        ensures
            v == self.val,
    {
        self.val
    }

    /// Overwrite the payload in place.
    pub fn set_val(&mut self, val: i32)
        ensures
            *final(self) == (TreeNode { val, ..*old(self) }),
    {
        self.val = val;
    }

    /// The cached height of the left child (0 when absent).
    fn left_height(&self) -> (h: u64)
        ensures
            h as int == sub_stored(self.left),
    {
        match &self.left {
            None => 0,
            Some(l) => l.height,
        }
    }

    /// The cached height of the right child (0 when absent).
    fn right_height(&self) -> (h: u64)
        ensures
            h as int == sub_stored(self.right),
    {
        match &self.right {
            None => 0,
            Some(r) => r.height,
        }
    }

    /// Recompute this node's cached height from the children's cached heights.
    pub fn update_height(&mut self)
        requires
            sub_stored(old(self).left) < u64::MAX,
            sub_stored(old(self).right) < u64::MAX,
        ensures
            *final(self) == (TreeNode { height: final(self).height, ..*old(self) }),
            final(self).height as int == 1 + if sub_stored(old(self).left) >= sub_stored(
                old(self).right,
            ) {
                sub_stored(old(self).left)
            } else {
                sub_stored(old(self).right)
            },
    {
        let lh = self.left_height();
        let rh = self.right_height();
        self.height = 1 + if lh >= rh {
            lh
        } else {
            rh
        };
    }

    /// The difference between the children's cached heights; positive means
    /// left-heavy, negative means right-heavy.
    fn balance_factor(&self) -> (bf: i8)
        requires
            -2 <= sub_stored(self.left) - sub_stored(self.right) <= 2,
        ensures
            bf as int == sub_stored(self.left) - sub_stored(self.right),
    {
        let lh = self.left_height();
        let rh = self.right_height();
        if lh >= rh {
            (lh - rh) as i8
        } else {
            -((rh - lh) as i8)
        }
    }

    /// Rotate left: the right child's content is promoted into this node and
    /// this node's old content is demoted into the left slot, so the node
    /// object itself keeps standing for the subtree while the subtrees are
    /// transplanted. Both touched heights are recomputed.
    pub(crate) fn rotate_left(&mut self)
        requires
            old(self).right.is_some(),
            sub_stored(old(self).left) <= u64::MAX - 2,
            sub_stored(old(self).right.unwrap().left) <= u64::MAX - 2,
            sub_stored(old(self).right.unwrap().right) <= u64::MAX - 2,
        ensures
            final(self).key == old(self).right.unwrap().key,
            final(self).val == old(self).right.unwrap().val,
            final(self).right == old(self).right.unwrap().right,
            final(self).left.is_some(),
            final(self).left.unwrap().key == old(self).key,
            final(self).left.unwrap().val == old(self).val,
            final(self).left.unwrap().left == old(self).left,
            final(self).left.unwrap().right == old(self).right.unwrap().left,
            old(self).ordered() ==> final(self).ordered() && final(self).as_map() == old(
                self,
            ).as_map(),
            sub_heights_ok(old(self).left) && sub_heights_ok(old(self).right.unwrap().left)
                && sub_heights_ok(old(self).right.unwrap().right) ==> final(self).heights_ok(),
            old(self).ordered() && sub_hbound(old(self).left) && sub_hbound(
                old(self).right.unwrap().left,
            ) && sub_hbound(old(self).right.unwrap().right) ==> final(self).hbound(),
    {
        let mut r = self.right.take().unwrap();
        let rl = r.left.take();
        let rr = r.right.take();
        let tk = self.key;
        self.key = r.key;
        r.key = tk;
        let tv = self.val;
        self.val = r.val;
        r.val = tv;
        r.right = rl;
        r.left = self.left.take();
        r.update_height();
        self.right = rr;
        self.left = Some(r);
        self.update_height();
        proof {
            let pre = *old(self);
            let post = *self;
            let rn = *pre.right.unwrap();
            if pre.ordered() {
                let k = pre.key as int;
                let rk = rn.key as int;
                assert(sub_map(pre.right) == rn.as_map());
                assert(rn.as_map().dom() =~= (sub_map(rn.left).dom() + sub_map(
                    rn.right,
                ).dom()).insert(rk));
                assert(sub_map(pre.right).dom().contains(rk));
                assert(k < rk);
                assert(rn.ordered());
                assert(keys_below(sub_map(rn.left), rk));
                assert(keys_above(sub_map(rn.right), rk));
                assert forall|k2: int| sub_map(rn.left).dom().contains(k2) implies k < k2
                    < rk by {
                    assert(sub_map(pre.right).dom().contains(k2));
                }
                assert forall|k2: int| sub_map(rn.right).dom().contains(k2) implies k < k2 && rk
                    < k2 by {
                    assert(sub_map(pre.right).dom().contains(k2));
                }
                assert(post.left.unwrap().ordered());
                assert(sub_map(post.left) == post.left.unwrap().as_map());
                assert(post.ordered());
                assert(post.as_map() =~= pre.as_map());
            }
            if sub_heights_ok(pre.left) && sub_heights_ok(rn.left) && sub_heights_ok(rn.right) {
                assert(post.left.unwrap().heights_ok());
                assert(post.heights_ok());
            }
            if pre.ordered() && sub_hbound(pre.left) && sub_hbound(rn.left) && sub_hbound(
                rn.right,
            ) {
                lemma_hbound_node(*post.left.unwrap());
                lemma_hbound_node(post);
            }
        }
    }

    /// Rotate right: the mirror image of `rotate_left`, promoting the left
    /// child's content into this node.
    pub(crate) fn rotate_right(&mut self)
        requires
            old(self).left.is_some(),
            sub_stored(old(self).right) <= u64::MAX - 2,
            sub_stored(old(self).left.unwrap().left) <= u64::MAX - 2,
            sub_stored(old(self).left.unwrap().right) <= u64::MAX - 2,
        ensures
            final(self).key == old(self).left.unwrap().key,
            final(self).val == old(self).left.unwrap().val,
            final(self).left == old(self).left.unwrap().left,
            final(self).right.is_some(),
            final(self).right.unwrap().key == old(self).key,
            final(self).right.unwrap().val == old(self).val,
            final(self).right.unwrap().right == old(self).right,
            final(self).right.unwrap().left == old(self).left.unwrap().right,
            old(self).ordered() ==> final(self).ordered() && final(self).as_map() == old(
                self,
            ).as_map(),
            sub_heights_ok(old(self).right) && sub_heights_ok(old(self).left.unwrap().left)
                && sub_heights_ok(old(self).left.unwrap().right) ==> final(self).heights_ok(),
            old(self).ordered() && sub_hbound(old(self).right) && sub_hbound(
                old(self).left.unwrap().left,
            ) && sub_hbound(old(self).left.unwrap().right) ==> final(self).hbound(),
    {
        let mut l = self.left.take().unwrap();
        let ll = l.left.take();
        let lr = l.right.take();
        let tk = self.key;
        self.key = l.key;
        l.key = tk;
        let tv = self.val;
        self.val = l.val;
        l.val = tv;
        l.left = lr;
        l.right = self.right.take();
        l.update_height();
        self.left = ll;
        self.right = Some(l);
        self.update_height();
        proof {
            let pre = *old(self);
            let post = *self;
            let ln = *pre.left.unwrap();
            if pre.ordered() {
                let k = pre.key as int;
                let lk = ln.key as int;
                assert(sub_map(pre.left) == ln.as_map());
                assert(ln.as_map().dom() =~= (sub_map(ln.left).dom() + sub_map(
                    ln.right,
                ).dom()).insert(lk));
                assert(sub_map(pre.left).dom().contains(lk));
                assert(lk < k);
                assert(ln.ordered());
                assert(keys_below(sub_map(ln.left), lk));
                assert(keys_above(sub_map(ln.right), lk));
                assert forall|k2: int| sub_map(ln.right).dom().contains(k2) implies lk < k2
                    < k by {
                    assert(sub_map(pre.left).dom().contains(k2));
                }
                assert forall|k2: int| sub_map(ln.left).dom().contains(k2) implies k2 < k && k2
                    < lk by {
                    assert(sub_map(pre.left).dom().contains(k2));
                }
                assert(post.right.unwrap().ordered());
                assert(sub_map(post.right) == post.right.unwrap().as_map());
                assert(post.ordered());
                assert(post.as_map() =~= pre.as_map());
            }
            if sub_heights_ok(pre.right) && sub_heights_ok(ln.left) && sub_heights_ok(ln.right) {
                assert(post.right.unwrap().heights_ok());
                assert(post.heights_ok());
            }
            if pre.ordered() && sub_hbound(pre.right) && sub_hbound(ln.left) && sub_hbound(
                ln.right,
            ) {
                lemma_hbound_node(*post.right.unwrap());
                lemma_hbound_node(post);
            }
        }
    }

    /// Restore the AVL balance at this node by one single or double rotation,
    /// assuming both subtrees already satisfy the height invariant and the
    /// local imbalance is at most two. A node already in balance is left
    /// untouched.
    pub fn rebalance(&mut self)
        requires
            old(self).ordered(),
            old(self).heights_ok(),
            sub_balanced(old(self).left),
            sub_balanced(old(self).right),
            -2 <= sub_height(old(self).left) - sub_height(old(self).right) <= 2,
        ensures
            final(self).ordered(),
            final(self).as_map() == old(self).as_map(),
            final(self).heights_ok(),
            final(self).balanced(),
            final(self).height_of() == old(self).height_of() || final(self).height_of() + 1 == old(
                self,
            ).height_of(),
            -1 <= sub_height(old(self).left) - sub_height(old(self).right) <= 1 ==> *final(self)
                == *old(self),
    {
        proof {
            lemma_stored_bounded(self.left);
            lemma_stored_bounded(self.right);
        }
        let bf = self.balance_factor();
        if bf == -2 {
            // this node is right-heavy; the right child exists
            let mut r = self.right.take().unwrap();
            proof {
                assert(r.ordered() && r.heights_ok());
                lemma_stored_bounded(r.left);
                lemma_stored_bounded(r.right);
            }
            let rbf = r.balance_factor();
            if rbf == 1 {
                // the right child is itself left-heavy: double rotation
                proof {
                    assert(r.left.is_some());
                    let rl = *r.left.unwrap();
                    assert(rl.ordered() && rl.heights_ok());
                    lemma_stored_bounded(rl.left);
                    lemma_stored_bounded(rl.right);
                }
                r.rotate_right();
            }
            proof {
                assert(r.ordered() && r.heights_ok());
                lemma_stored_bounded(r.left);
                lemma_stored_bounded(r.right);
            }
            self.right = Some(r);
            proof {
                assert(self.ordered());
            }
            self.rotate_left();
            proof {
                let pre = *old(self);
                let post = *self;
                let rn = *pre.right.unwrap();
                let hl = sub_height(pre.left) as int;
                let a = sub_height(rn.left) as int;
                let b = sub_height(rn.right) as int;
                assert(rn.balanced());
                assert(rn.height_of() as int == 1 + if a >= b { a } else { b });
                assert(hl == (if a >= b { a } else { b }) - 1);
                assert(post.as_map() == pre.as_map());
                let pl = *post.left.unwrap();
                if a == b + 1 {
                    let rl = *rn.left.unwrap();
                    let c = sub_height(rl.left) as int;
                    let d = sub_height(rl.right) as int;
                    assert(rl.balanced());
                    assert(a == 1 + if c >= d { c } else { d });
                    let pr = *post.right.unwrap();
                    assert(pl.left == pre.left && pl.right == rl.left);
                    assert(pr.left == rl.right && pr.right == rn.right);
                    assert(pl.height_of() as int == 1 + if hl >= c { hl } else { c });
                    assert(pr.height_of() as int == 1 + if d >= b { d } else { b });
                    assert(pl.balanced());
                    assert(pr.balanced());
                    assert(post.balanced());
                    assert(post.height_of() + 1 == pre.height_of());
                } else {
                    assert(pl.left == pre.left && pl.right == rn.left);
                    assert(pl.height_of() as int == 1 + if hl >= a { hl } else { a });
                    assert(pl.balanced());
                    assert(post.balanced());
                    assert(post.height_of() == pre.height_of() || post.height_of() + 1
                        == pre.height_of());
                }
            }
        } else if bf == 2 {
            // this node is left-heavy; the left child exists
            let mut l = self.left.take().unwrap();
            proof {
                assert(l.ordered() && l.heights_ok());
                lemma_stored_bounded(l.left);
                lemma_stored_bounded(l.right);
            }
            let lbf = l.balance_factor();
            if lbf == -1 {
                // the left child is itself right-heavy: double rotation
                proof {
                    assert(l.right.is_some());
                    let lr = *l.right.unwrap();
                    assert(lr.ordered() && lr.heights_ok());
                    lemma_stored_bounded(lr.left);
                    lemma_stored_bounded(lr.right);
                }
                l.rotate_left();
            }
            proof {
                assert(l.ordered() && l.heights_ok());
                lemma_stored_bounded(l.left);
                lemma_stored_bounded(l.right);
            }
            self.left = Some(l);
            proof {
                assert(self.ordered());
            }
            self.rotate_right();
            proof {
                let pre = *old(self);
                let post = *self;
                let ln = *pre.left.unwrap();
                let hr = sub_height(pre.right) as int;
                let a = sub_height(ln.right) as int;
                let b = sub_height(ln.left) as int;
                assert(ln.balanced());
                assert(ln.height_of() as int == 1 + if a >= b { a } else { b });
                assert(hr == (if a >= b { a } else { b }) - 1);
                assert(post.as_map() == pre.as_map());
                let pr = *post.right.unwrap();
                if a == b + 1 {
                    let lr = *ln.right.unwrap();
                    let c = sub_height(lr.right) as int;
                    let d = sub_height(lr.left) as int;
                    assert(lr.balanced());
                    assert(a == 1 + if c >= d { c } else { d });
                    let pl = *post.left.unwrap();
                    assert(pr.right == pre.right && pr.left == lr.right);
                    assert(pl.right == lr.left && pl.left == ln.left);
                    assert(pr.height_of() as int == 1 + if hr >= c { hr } else { c });
                    assert(pl.height_of() as int == 1 + if d >= b { d } else { b });
                    assert(pr.balanced());
                    assert(pl.balanced());
                    assert(post.balanced());
                    assert(post.height_of() + 1 == pre.height_of());
                } else {
                    assert(pr.right == pre.right && pr.left == ln.right);
                    assert(pr.height_of() as int == 1 + if hr >= a { hr } else { a });
                    assert(pr.balanced());
                    assert(post.balanced());
                    assert(post.height_of() == pre.height_of() || post.height_of() + 1
                        == pre.height_of());
                }
            }
        }
    }
}

/// The tree after is the tree before with exactly the value on the `key`
/// path overwritten: same keys, same shape, same cached heights, and every
/// node off that path untouched. This is what a duplicate-key insert does.
pub open spec fn value_overwritten(
    pre: Option<Box<TreeNode>>,
    post: Option<Box<TreeNode>>,
    key: int,
    val: i32,
) -> bool
    decreases pre,
{
    match (pre, post) {
        (Some(n), Some(m)) => m.key == n.key && m.height == n.height && if key < n.key as int {
            m.val == n.val && m.right == n.right && value_overwritten(n.left, m.left, key, val)
        } else if key > n.key as int {
            m.val == n.val && m.left == n.left && value_overwritten(n.right, m.right, key, val)
        } else {
            m.val == val && m.left == n.left && m.right == n.right
        },
        _ => false,
    }
}

/// Overwriting one value moves no node, so the true height is unchanged.
pub proof fn lemma_value_overwritten_height(
    pre: Option<Box<TreeNode>>,
    post: Option<Box<TreeNode>>,
    key: int,
    val: i32,
)
    requires
        value_overwritten(pre, post, key, val),
    ensures
        sub_height(post) == sub_height(pre),
    decreases pre,
{
    match (pre, post) {
        (Some(n), Some(m)) => {
            if key < n.key as int {
                lemma_value_overwritten_height(n.left, m.left, key, val);
            } else if key > n.key as int {
                lemma_value_overwritten_height(n.right, m.right, key, val);
            }
        }
        _ => {
        }
    }
}

/// Ordered descent: the value stored for `key` in the subtree, or `None`
/// when the key is absent. Shared by the engines whose search leaves the
/// shape untouched.
pub(crate) fn search_at(t: &Option<Box<TreeNode>>, key: i32) -> (r: Option<i32>)
    requires
        sub_ordered(*t),
    ensures
        r == (if sub_map(*t).dom().contains(key as int) {
            Some(sub_map(*t)[key as int])
        } else {
            None::<i32>
        }),
    decreases *t,
{
    match t {
        None => None,
        Some(n) => {
            if key > n.get_key() {
                proof {
                    assert(!sub_map(n.left).dom().contains(key as int));
                }
                search_at(&n.right, key)
            } else if key < n.get_key() {
                proof {
                    assert(!sub_map(n.right).dom().contains(key as int));
                }
                search_at(&n.left, key)
            } else {
                Some(n.get_val())
            }
        }
    }
}

/// When the cached heights are consistent, the cached root height is the
/// true height.
pub proof fn lemma_stored_is_height(t: Option<Box<TreeNode>>)
    requires
        sub_heights_ok(t),
    ensures
        sub_stored(t) == sub_height(t) as int,
{
    match t {
        None => {
        }
        Some(n) => {
        }
    }
}

/// A consistent, ordered subtree has a small cached height: at most one node
/// per possible key.
pub proof fn lemma_stored_bounded(t: Option<Box<TreeNode>>)
    requires
        sub_ordered(t),
        sub_heights_ok(t),
    ensures
        sub_stored(t) == sub_height(t) as int,
        0 <= sub_stored(t) <= 0x1_0000_0000,
{
    lemma_stored_is_height(t);
    lemma_height_bounded(t);
}

/// A node's map is finite and strictly larger than either child's map.
pub proof fn lemma_map_len_parent(n: TreeNode)
    requires
        n.ordered(),
    ensures
        n.as_map().dom().finite(),
        n.as_map().len() >= 1 + sub_map(n.left).len(),
        n.as_map().len() >= 1 + sub_map(n.right).len(),
{
    lemma_sub_map_finite(n.left);
    lemma_sub_map_finite(n.right);
    let u = sub_map(n.left).union_prefer_right(sub_map(n.right));
    assert(u.dom() =~= sub_map(n.left).dom() + sub_map(n.right).dom());
    lemma_len_subset(sub_map(n.left).dom(), u.dom());
    lemma_len_subset(sub_map(n.right).dom(), u.dom());
    assert(!u.dom().contains(n.key as int));
    assert(n.as_map().dom() =~= u.dom().insert(n.key as int));
}

/// A subtree stores at most one pair per possible `i32` key.
pub proof fn lemma_len_keyspace(t: Option<Box<TreeNode>>)
    ensures
        sub_map(t).dom().finite(),
        sub_map(t).len() <= 0x1_0000_0000,
{
    lemma_sub_map_finite(t);
    lemma_keys_in_range(t);
    let r = set_int_range(i32::MIN as int, i32::MAX as int + 1);
    lemma_int_range(i32::MIN as int, i32::MAX as int + 1);
    assert(sub_map(t).dom().subset_of(r));
    lemma_len_subset(sub_map(t).dom(), r);
}

/// A node whose cached height was just recomputed from bounded children is
/// itself bounded.
pub proof fn lemma_hbound_node(n: TreeNode)
    requires
        n.ordered(),
        sub_hbound(n.left),
        sub_hbound(n.right),
        n.height as int == 1 + if sub_stored(n.left) >= sub_stored(n.right) {
            sub_stored(n.left)
        } else {
            sub_stored(n.right)
        },
    ensures
        n.hbound(),
{
    lemma_map_len_parent(n);
    match n.left {
        None => {
        }
        Some(l) => {
            assert(l.hbound());
        }
    }
    match n.right {
        None => {
        }
        Some(r) => {
            assert(r.hbound());
        }
    }
}

/// A bounded cached root height is small: at most the size of the key space.
pub proof fn lemma_hbound_stored_bounded(t: Option<Box<TreeNode>>)
    requires
        sub_hbound(t),
    ensures
        0 <= sub_stored(t) <= 0x1_0000_0000,
{
    match t {
        None => {
        }
        Some(n) => {
            assert(n.hbound());
            lemma_len_keyspace(t);
            assert(sub_map(t) == n.as_map());
        }
    }
}

/// The pairs of an optional subtree form a finite map.
pub proof fn lemma_sub_map_finite(t: Option<Box<TreeNode>>)
    ensures
        sub_map(t).dom().finite(),
    decreases t,
{
    match t {
        None => {
        }
        Some(n) => {
            lemma_sub_map_finite(n.left);
            lemma_sub_map_finite(n.right);
            let u = sub_map(n.left).union_prefer_right(sub_map(n.right));
            assert(u.dom() =~= sub_map(n.left).dom() + sub_map(n.right).dom());
            assert(n.as_map().dom() =~= u.dom().insert(n.key as int));
        }
    }
}

/// Every key of an optional subtree fits the key type's range.
pub proof fn lemma_keys_in_range(t: Option<Box<TreeNode>>)
    ensures
        forall|k: int| sub_map(t).dom().contains(k) ==> i32::MIN <= k <= i32::MAX,
    decreases t,
{
    match t {
        None => {
        }
        Some(n) => {
            lemma_keys_in_range(n.left);
            lemma_keys_in_range(n.right);
            let u = sub_map(n.left).union_prefer_right(sub_map(n.right));
            assert(n.as_map().dom() =~= u.dom().insert(n.key as int));
            assert forall|k: int| sub_map(t).dom().contains(k) implies i32::MIN <= k
                <= i32::MAX by {
                if k != n.key as int {
                    assert(sub_map(n.left).dom().contains(k) || sub_map(n.right).dom().contains(k));
                }
            }
        }
    }
}

/// Under the search-order invariant the keys are pairwise distinct, so the
/// height of a subtree is at most the number of pairs in it.
pub proof fn lemma_height_le_len(t: Option<Box<TreeNode>>)
    requires
        sub_ordered(t),
    ensures
        sub_height(t) <= sub_map(t).len(),
    decreases t,
{
    match t {
        None => {
        }
        Some(n) => {
            lemma_height_le_len(n.left);
            lemma_height_le_len(n.right);
            lemma_sub_map_finite(n.left);
            lemma_sub_map_finite(n.right);
            let u = sub_map(n.left).union_prefer_right(sub_map(n.right));
            assert(u.dom() =~= sub_map(n.left).dom() + sub_map(n.right).dom());
            lemma_len_subset(sub_map(n.left).dom(), u.dom());
            lemma_len_subset(sub_map(n.right).dom(), u.dom());
            assert(!u.dom().contains(n.key as int));
            assert(n.as_map().dom() =~= u.dom().insert(n.key as int));
        }
    }
}

/// Under the search-order invariant a subtree holds at most one pair per
/// possible `i32` key, so its height is bounded by the size of the key space.
pub proof fn lemma_height_bounded(t: Option<Box<TreeNode>>)
    requires
        sub_ordered(t),
    ensures
        sub_height(t) <= 0x1_0000_0000,
    decreases t,
{
    lemma_height_le_len(t);
    lemma_sub_map_finite(t);
    lemma_keys_in_range(t);
    let r = set_int_range(i32::MIN as int, i32::MAX as int + 1);
    lemma_int_range(i32::MIN as int, i32::MAX as int + 1);
    assert(sub_map(t).dom().subset_of(r));
    lemma_len_subset(sub_map(t).dom(), r);
}

} // verus!
