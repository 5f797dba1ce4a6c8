//! Scenario checks for the store's stated properties: the order invariant,
//! the AVL height balance, round trips, removal behaviour, the splay
//! engine's move-to-root promise, and the two-children deletion graft.

use tsinghua_ds::avl::AVLTree;
use tsinghua_ds::binary::BinarySearchTree;
use tsinghua_ds::node::TreeNode;
use tsinghua_ds::splay::SplayTree;
use tsinghua_ds::BST;

fn subtree_ordered(t: &Option<Box<TreeNode>>, lo: i64, hi: i64) -> bool {
    match t {
        None => true,
        Some(n) => {
            let k = n.key as i64;
            lo < k && k < hi && subtree_ordered(&n.left, lo, k) && subtree_ordered(&n.right, k, hi)
        }
    }
}

fn subtree_height(t: &Option<Box<TreeNode>>) -> u64 {
    match t {
        None => 0,
        Some(n) => 1 + subtree_height(&n.left).max(subtree_height(&n.right)),
    }
}

fn subtree_balanced(t: &Option<Box<TreeNode>>) -> bool {
    match t {
        None => true,
        Some(n) => {
            let lh = subtree_height(&n.left) as i64;
            let rh = subtree_height(&n.right) as i64;
            (lh - rh).abs() <= 1 && subtree_balanced(&n.left) && subtree_balanced(&n.right)
        }
    }
}

fn node_ordered(n: &TreeNode) -> bool {
    let k = n.key as i64;
    subtree_ordered(&n.left, i64::MIN, k) && subtree_ordered(&n.right, k, i64::MAX)
}

fn node_balanced(n: &TreeNode) -> bool {
    let lh = subtree_height(&n.left) as i64;
    let rh = subtree_height(&n.right) as i64;
    (lh - rh).abs() <= 1 && subtree_balanced(&n.left) && subtree_balanced(&n.right)
}

const KEYS: [i32; 10] = [10, 4, 8, 5, 9, 3, 2, 15, 13, 11];

#[test]
fn avl_scenario() {
    // the keys 10,4,8,5,9,3,2,15,13,11 with distinct values
    let mut avl = AVLTree::new(KEYS[0], 100 + KEYS[0]);
    for &k in KEYS.iter().skip(1) {
        avl.insert(k, 100 + k);
    }
    {
        let root = avl.root().expect("seeded tree has a root");
        assert!(node_ordered(root));
        assert!(node_balanced(root));
    }
    assert_eq!(avl.search(9), Some(109));
    assert_eq!(avl.remove(2), Some(102));
    assert_eq!(avl.search(2), None);
    let root = avl.root().expect("tree still populated");
    assert!(node_ordered(root));
    assert!(node_balanced(root));
}

#[test]
fn bst_two_children_graft() {
    // the root 10 has two children and its right child 15 carries a left
    // subtree, so deleting 10 grafts the in-order minimum 11 of that right
    // subtree into the root, and 11's old right subtree takes 11's place
    // under its old parent 13
    let mut bst = BinarySearchTree::new(KEYS[0], 100 + KEYS[0]);
    for &k in KEYS.iter().skip(1) {
        bst.insert(k, 100 + k);
    }
    assert_eq!(bst.remove(10), Some(110));
    let root = bst.root().expect("tree still populated");
    assert_eq!(root.key, 11);
    assert!(node_ordered(root));
    let right = root.right.as_ref().expect("right subtree kept");
    assert_eq!(right.key, 15);
    let thirteen = right.left.as_ref().expect("15 keeps its left child");
    assert_eq!(thirteen.key, 13);
    assert!(thirteen.left.is_none());
    assert_eq!(bst.search(11), Some(111));
    assert_eq!(bst.search(13), Some(113));
    assert_eq!(bst.search(10), None);
}

#[test]
fn splay_promotes_to_root() {
    let mut splay = SplayTree::new(KEYS[0], 100 + KEYS[0]);
    for &k in KEYS.iter().skip(1) {
        splay.insert(k, 100 + k);
        // a fresh insert ends at the root immediately
        assert_eq!(splay.root().expect("populated").key, k);
    }
    for &k in [9, 2, 13, 10].iter() {
        assert_eq!(splay.search(k), Some(100 + k));
        assert_eq!(splay.root().expect("populated").key, k);
        assert!(node_ordered(splay.root().unwrap()));
    }
}

#[test]
fn round_trip_last_value_wins() {
    let mut bst = BinarySearchTree::new(1, 10);
    let mut avl = AVLTree::new(1, 10);
    let mut splay = SplayTree::new(1, 10);
    for (k, v) in [(3, 30), (7, 70), (3, 31), (5, 50), (3, 32)] {
        bst.insert(k, v);
        avl.insert(k, v);
        splay.insert(k, v);
    }
    for (k, v) in [(1, 10), (3, 32), (5, 50), (7, 70)] {
        assert_eq!(bst.search(k), Some(v));
        assert_eq!(avl.search(k), Some(v));
        assert_eq!(splay.search(k), Some(v));
    }
}

#[test]
fn remove_then_search_absent() {
    let mut bst = BinarySearchTree::new(KEYS[0], 0);
    let mut avl = AVLTree::new(KEYS[0], 0);
    let mut splay = SplayTree::new(KEYS[0], 0);
    for &k in KEYS.iter().skip(1) {
        bst.insert(k, k * 2);
        avl.insert(k, k * 2);
        splay.insert(k, k * 2);
    }
    for &k in [8, 15, 10].iter() {
        assert!(bst.remove(k).is_some());
        assert_eq!(bst.search(k), None);
        assert!(avl.remove(k).is_some());
        assert_eq!(avl.search(k), None);
        assert!(splay.remove(k).is_some());
        assert_eq!(splay.search(k), None);
    }
}

#[test]
fn absent_remove_is_noop() {
    let mut bst = BinarySearchTree::new(KEYS[0], 0);
    let mut avl = AVLTree::new(KEYS[0], 0);
    let mut splay = SplayTree::new(KEYS[0], 0);
    for &k in KEYS.iter().skip(1) {
        bst.insert(k, k * 2);
        avl.insert(k, k * 2);
        splay.insert(k, k * 2);
    }
    assert_eq!(bst.remove(42), None);
    assert_eq!(avl.remove(42), None);
    assert_eq!(splay.remove(42), None);
    assert!(node_ordered(bst.root().unwrap()));
    assert!(node_ordered(avl.root().unwrap()));
    assert!(node_ordered(splay.root().unwrap()));
    for &k in KEYS.iter() {
        if k != KEYS[0] {
            assert_eq!(bst.search(k), Some(k * 2));
            assert_eq!(avl.search(k), Some(k * 2));
            assert_eq!(splay.search(k), Some(k * 2));
        }
    }
}

#[test]
fn empty_and_repopulate() {
    // removing the last pair empties the store; inserting afterwards
    // repopulates it with a single root
    let mut bst = BinarySearchTree::new(5, 50);
    assert_eq!(bst.remove(5), Some(50));
    assert_eq!(bst.search(5), None);
    assert_eq!(bst.remove(5), None);
    assert!(bst.root().is_none());
    bst.insert(7, 70);
    assert_eq!(bst.search(7), Some(70));

    let mut splay = SplayTree::new(5, 50);
    assert_eq!(splay.remove(5), Some(50));
    assert!(splay.root().is_none());
    splay.insert(7, 70);
    assert_eq!(splay.root().unwrap().key, 7);
    assert_eq!(splay.search(7), Some(70));

    let mut avl = AVLTree::new(5, 50);
    assert_eq!(avl.remove(5), Some(50));
    avl.insert(7, 70);
    assert_eq!(avl.search(7), Some(70));
}

#[test]
fn node_accessors() {
    let mut n = TreeNode::new(4, 16);
    assert_eq!(n.get_key(), 4);
    assert_eq!(n.get_val(), 16);
    assert_eq!(n.height, 1);
    n.set_val(17);
    assert_eq!(n.get_val(), 17);
    n.update_height();
    assert_eq!(n.height, 1);
}

#[test]
fn rebalance_single_rotation() {
    // a left-left chain with correct cached heights: one right rotation
    // lifts the middle key
    let low = TreeNode::new(1, 10);
    let mut mid = TreeNode::new(2, 20);
    mid.left = Some(Box::new(low));
    mid.update_height();
    let mut top = TreeNode::new(3, 30);
    top.left = Some(Box::new(mid));
    top.update_height();
    assert_eq!(top.height, 3);
    top.rebalance();
    assert_eq!(top.get_key(), 2);
    assert_eq!(top.get_val(), 20);
    assert_eq!(top.height, 2);
    assert_eq!(top.left.as_ref().unwrap().key, 1);
    assert_eq!(top.right.as_ref().unwrap().key, 3);
    assert!(node_ordered(&top));
    assert!(node_balanced(&top));
}
