//! The three tree engines run through the same battery of mixed
//! insert/search/remove calls.

use tsinghua_ds::avl::AVLTree;
use tsinghua_ds::binary::BinarySearchTree;
use tsinghua_ds::splay::SplayTree;
use tsinghua_ds::BST;

#[test]
fn binary_tree_operations() {
    let mut bst = BinarySearchTree::new(10, 1024);

    bst.insert(4, 16);
    bst.insert(8, 256);
    bst.insert(5, 32);
    bst.insert(9, 512);
    bst.insert(3, 8);
    bst.insert(2, 4);
    bst.insert(15, 12345);
    bst.insert(13, 2344);
    bst.insert(11, 234);
    bst.insert(18, 1994);
    bst.insert(20, 12993);
    bst.insert(19, 2849);
    bst.insert(12, 28499);

    assert_eq!(bst.search(9), Some(512));
    assert_eq!(bst.search(19), Some(2849));
    bst.insert(19, -12849);
    assert_eq!(bst.search(19), Some(-12849));
    assert_eq!(bst.search(13), Some(2344));
    assert_eq!(bst.search(4), Some(16));
    assert_eq!(bst.search(-1), None);
    assert_eq!(bst.search(0), None);
    assert_eq!(bst.remove(2), Some(4));
    assert_eq!(bst.search(2), None);
    assert_eq!(bst.remove(2), None);
    assert_eq!(bst.remove(11), Some(234));
    assert_eq!(bst.remove(11), None);
    assert_eq!(bst.search(11), None);
    assert_eq!(bst.remove(20), Some(12993));
    assert_eq!(bst.remove(20), None);
    assert_eq!(bst.search(20), None);
    assert_eq!(bst.remove(8), Some(256));
    assert_eq!(bst.remove(8), None);
    assert_eq!(bst.search(8), None);
    bst.insert(17, 49);
    bst.insert(14, 149);
    bst.insert(16, 169);
    assert_eq!(bst.remove(15), Some(12345));
    assert_eq!(bst.remove(15), None);
    assert_eq!(bst.search(15), None);
}

#[test]
fn avl_tree_operations() {
    let mut bst = AVLTree::new(10, 1024);

    bst.insert(4, 16);
    bst.insert(8, 256);
    bst.insert(5, 32);
    bst.insert(9, 512);
    bst.insert(3, 8);
    bst.insert(2, 4);
    bst.insert(15, 12345);
    bst.insert(13, 2344);
    bst.insert(11, 234);
    bst.insert(18, 1994);
    bst.insert(20, 12993);
    bst.insert(19, 2849);
    bst.insert(12, 284910);
    bst.insert(21, 28439);
    bst.insert(22, 28494);
    bst.insert(23, 28499);

    assert_eq!(bst.search(9), Some(512));
    assert_eq!(bst.search(19), Some(2849));
    bst.insert(19, -12849);
    assert_eq!(bst.search(19), Some(-12849));
    assert_eq!(bst.search(13), Some(2344));
    assert_eq!(bst.search(4), Some(16));
    assert_eq!(bst.search(-1), None);
    assert_eq!(bst.search(0), None);
    assert_eq!(bst.search(23), Some(28499));
    assert_eq!(bst.remove(2), Some(4));
    assert_eq!(bst.search(2), None);
    assert_eq!(bst.remove(2), None);
    assert_eq!(bst.remove(11), Some(234));
    assert_eq!(bst.remove(11), None);
    assert_eq!(bst.search(11), None);
    assert_eq!(bst.remove(20), Some(12993));
    assert_eq!(bst.remove(20), None);
    assert_eq!(bst.search(20), None);
    assert_eq!(bst.remove(8), Some(256));
    assert_eq!(bst.remove(8), None);
    assert_eq!(bst.search(8), None);
    bst.insert(17, 49);
    bst.insert(14, 149);
    bst.insert(16, 169);
    assert_eq!(bst.remove(15), Some(12345));
    assert_eq!(bst.remove(15), None);
    assert_eq!(bst.search(15), None);
    assert_eq!(bst.remove(3), Some(8));
    bst.insert(15, 12345);
    println!("{:#?}", bst);
    bst = AVLTree::new(10, 1024);
    bst.insert(2, 8);
    bst.insert(3, 8);
    bst.insert(4, 16);
    bst.insert(8, 256);
    bst.insert(9, 512);
    bst.insert(11, 234);
    bst.insert(12, 284910);
    bst.insert(13, 2344);
    bst.insert(15, 12345);
    bst.insert(18, 1994);
    bst.insert(20, 12993);
    bst.insert(19, 2849);
    bst.insert(21, 28439);
    bst.insert(22, 28494);
    bst.insert(23, 28499);
    bst.insert(24, 28499);
    bst.insert(25, 28499);
}

#[test]
fn splay_tree_operations() {
    let mut bst = SplayTree::new(10, 1024);

    bst.insert(4, 16);
    bst.insert(8, 256);
    bst.insert(5, 32);
    bst.insert(9, 512);
    bst.insert(3, 8);
    bst.insert(2, 4);
    bst.insert(15, 12345);
    println!();
    bst.insert(13, 2344);
    bst.insert(11, 234);
    bst.insert(18, 1994);
    bst.insert(20, 12993);
    bst.insert(19, 2849);
    bst.insert(12, 28499);

    assert_eq!(bst.search(4), Some(16));
    assert_eq!(bst.search(19), Some(2849));
    bst.insert(19, -12849);
    assert_eq!(bst.search(19), Some(-12849));
    assert_eq!(bst.search(13), Some(2344));
    assert_eq!(bst.search(4), Some(16));
    assert_eq!(bst.search(-1), None);
    assert_eq!(bst.search(0), None);
    assert_eq!(bst.remove(2), Some(4));
    assert_eq!(bst.search(2), None);
    assert_eq!(bst.remove(2), None);
    assert_eq!(bst.remove(11), Some(234));
    assert_eq!(bst.remove(11), None);
    assert_eq!(bst.search(11), None);
    assert_eq!(bst.remove(20), Some(12993));
    assert_eq!(bst.remove(20), None);
    assert_eq!(bst.search(20), None);
    assert_eq!(bst.remove(8), Some(256));
    assert_eq!(bst.remove(8), None);
    assert_eq!(bst.search(8), None);
    assert_eq!(bst.search(12), Some(28499));
    bst.insert(17, 49);
    bst.insert(14, 149);
    bst.insert(16, 169);
    assert_eq!(bst.remove(15), Some(12345));
    assert_eq!(bst.remove(15), None);
    assert_eq!(bst.search(15), None);
    bst.insert(15, 12345);
}
