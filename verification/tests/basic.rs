//! The node-level and smoke tests of the index.

use bplustree::lower_bound;
use bplustree::BTree;
use bplustree::InternalNode;
use bplustree::LeafNode;
use bplustree::NodeIndex;

#[test]
fn test_internal_node() {
    let mut i = InternalNode::<i32>::new(NodeIndex::Leaf(0));
    i.insert(1, &1, NodeIndex::Leaf(1));
    i.insert(2, &10, NodeIndex::Leaf(2));
    i.insert(3, &20, NodeIndex::Leaf(3));
    i.insert(4, &30, NodeIndex::Leaf(4));
    assert_eq!(i.cnt(), 5);

    // suppose we split the leaf(2) into leaf(2) and leaf(5);
    // now insert the leaf(5)
    i.insert(3, &15, NodeIndex::Leaf(5));
    let keys: Vec<i32> = vec![i.key_at(0), i.key_at(1), i.key_at(2), i.key_at(3), i.key_at(4)];
    assert_eq!(keys, [1, 10, 15, 20, 30]);
    let sons: Vec<NodeIndex> = vec![
        i.son_at(0),
        i.son_at(1),
        i.son_at(2),
        i.son_at(3),
        i.son_at(4),
        i.son_at(5),
    ];
    assert_eq!(
        sons,
        [
            NodeIndex::Leaf(0),
            NodeIndex::Leaf(1),
            NodeIndex::Leaf(2),
            NodeIndex::Leaf(5),
            NodeIndex::Leaf(3),
            NodeIndex::Leaf(4)
        ]
    )
}

#[test]
fn test_leaf_node() {
    // test insert and lookup
    let mut l = LeafNode::<&str, usize>::new();
    l.insert(&"hi", &3);
    l.insert(&"hello", &4);
    l.insert(&"world", &5);
    l.insert(&"abc", &6);
    l.insert(&"def", &7);
    assert_eq!(l.lookup(&"hi"), Some(&3));
    assert_eq!(l.lookup(&"hello"), Some(&4));
    assert_eq!(l.lookup(&"world"), Some(&5));
    assert_eq!(l.lookup(&"abc"), Some(&6));
    assert_eq!(l.lookup(&"def"), Some(&7));

    // test split
    let (left_max, right) = l.split();
    assert_eq!(left_max, "def");
    assert_eq!(l.cnt(), 2);
    assert_eq!(l.lookup(&"abc"), Some(&6));
    assert_eq!(l.lookup(&"def"), Some(&7));
    assert_eq!(l.lookup(&"hello"), None);
    assert_eq!(l.lookup(&"hi"), None);
    assert_eq!(l.lookup(&"world"), None);
    assert_eq!(right.cnt(), 3);
    assert_eq!(right.lookup(&"abc"), None);
    assert_eq!(right.lookup(&"def"), None);
    assert_eq!(right.lookup(&"hello"), Some(&4));
    assert_eq!(right.lookup(&"hi"), Some(&3));
    assert_eq!(right.lookup(&"world"), Some(&5));
}

#[test]
fn test_lower_bound() {
    let a = [1, 4, 6, 9, 10];
    assert_eq!(lower_bound(&a, &0), 0);
    assert_eq!(lower_bound(&a, &1), 0);
    assert_eq!(lower_bound(&a, &3), 1);
    assert_eq!(lower_bound(&a, &4), 1);
    assert_eq!(lower_bound(&a, &5), 2);
    assert_eq!(lower_bound(&a, &6), 2);
    assert_eq!(lower_bound(&a, &10), 4);
    assert_eq!(lower_bound(&a, &11), 5);

    assert_eq!(lower_bound::<i32>(&[], &42), 0);
}

#[test]
fn test_btree_smoke() {
    let mut btree = BTree::<&str, usize>::new();
    assert_eq!(btree.insert(&"theanswer", &42), None);
    assert_eq!(btree.lookup(&"theanswer"), Some(&42));
    assert_eq!(btree.insert(&"theanswer", &43), Some(42));
    assert_eq!(btree.lookup(&"theanswer"), Some(&43));
}
