//! The behavioural properties of the index: differential equivalence
//! against a reference ordered map, tree growth, upsert semantics, splits,
//! and the string key order.

use std::collections::BTreeMap;

use rand::Rng;

use bplustree::lower_bound;
use bplustree::node::NODE_DEG;
use bplustree::BTree;
use bplustree::InternalNode;
use bplustree::LeafNode;
use bplustree::NodeIndex;

#[test]
fn test_bree_1() {
    let mut rng = rand::thread_rng();

    let mut keys = Vec::new();
    let mut truth = BTreeMap::new();
    let mut t = BTree::new();

    for _ in 0..300000 {
        let lookup: bool = rng.gen();

        if lookup && keys.len() != 0 {
            let mut i: usize = rng.gen();
            i %= keys.len();
            assert_eq!(Some(&truth[&keys[i]]), t.lookup(&keys[i]));
        } else {
            let k: u16 = rng.gen();
            let v: i32 = rng.gen();
            keys.push(k);
            assert_eq!(t.insert(&k, &v), truth.insert(k, v));
        }
    }
}

#[test]
fn test_tree_height_growth() {
    let mut t = BTree::<u64, u64>::new();
    assert!(!t.root_is_internal());
    let n = (NODE_DEG * NODE_DEG + 1) as u64;
    let mut i: u64 = 0;
    while i < n {
        t.insert(&i, &i);
        i += 1;
    }
    assert!(t.root_is_internal());
    assert!(!t.root_is_full());
    let mut i: u64 = 0;
    while i < n {
        assert_eq!(t.lookup(&i), Some(&i));
        i += 1;
    }
    assert_eq!(t.lookup(&n), None);
}

#[test]
fn test_tree_upsert_and_absent() {
    let mut t = BTree::<u64, i32>::new();
    assert_eq!(t.lookup(&5), None);
    assert_eq!(t.insert(&5, &50), None);
    assert_eq!(t.insert(&7, &70), None);
    assert_eq!(t.insert(&5, &51), Some(50));
    assert_eq!(t.lookup(&5), Some(&51));
    assert_eq!(t.lookup(&7), Some(&70));
    assert_eq!(t.lookup(&6), None);
}

#[test]
fn test_internal_split_content() {
    let mut n = InternalNode::<u64>::new(NodeIndex::Leaf(0));
    n.insert(1, &10, NodeIndex::Leaf(1));
    n.insert(2, &20, NodeIndex::Leaf(2));
    n.insert(3, &30, NodeIndex::Leaf(3));
    n.insert(4, &40, NodeIndex::Leaf(4));
    n.insert(5, &50, NodeIndex::Leaf(5));
    assert_eq!(n.cnt(), 6);

    let (sep, right) = n.split();
    assert_eq!(sep, 30);
    assert_eq!(n.cnt(), 3);
    assert_eq!(right.cnt(), 3);
    assert_eq!(vec![n.key_at(0), n.key_at(1)], [10, 20]);
    assert_eq!(vec![right.key_at(0), right.key_at(1)], [40, 50]);
    assert_eq!(
        vec![n.son_at(0), n.son_at(1), n.son_at(2)],
        [NodeIndex::Leaf(0), NodeIndex::Leaf(1), NodeIndex::Leaf(2)]
    );
    assert_eq!(
        vec![right.son_at(0), right.son_at(1), right.son_at(2)],
        [NodeIndex::Leaf(3), NodeIndex::Leaf(4), NodeIndex::Leaf(5)]
    );
}

#[test]
fn test_leaf_split_exact_halves() {
    let mut l = LeafNode::<u64, u64>::new();
    let mut i: u64 = 0;
    while i < NODE_DEG as u64 {
        l.insert(&i, &(i * 100));
        i += 1;
    }
    let (sep, right) = l.split();
    assert_eq!(sep, (NODE_DEG / 2 - 1) as u64);
    assert_eq!(l.cnt(), NODE_DEG / 2);
    assert_eq!(right.cnt(), NODE_DEG - NODE_DEG / 2);
    assert_eq!(l.lookup(&0), Some(&0));
    assert_eq!(l.lookup(&(NODE_DEG as u64 / 2)), None);
    assert_eq!(right.lookup(&(NODE_DEG as u64 / 2)), Some(&(NODE_DEG as u64 / 2 * 100)));
}

#[test]
fn test_string_key_order() {
    let a = ["a", "ab", "b"];
    assert_eq!(lower_bound(&a, &"a"), 0);
    assert_eq!(lower_bound(&a, &"aa"), 1);
    assert_eq!(lower_bound(&a, &"ab"), 1);
    assert_eq!(lower_bound(&a, &"abc"), 2);
    assert_eq!(lower_bound(&a, &"c"), 3);

    let mut t = BTree::<&str, u64>::new();
    t.insert(&"b", &2);
    t.insert(&"a", &1);
    t.insert(&"ab", &3);
    t.insert(&"", &0);
    assert_eq!(t.lookup(&""), Some(&0));
    assert_eq!(t.lookup(&"a"), Some(&1));
    assert_eq!(t.lookup(&"ab"), Some(&3));
    assert_eq!(t.lookup(&"b"), Some(&2));
    assert_eq!(t.lookup(&"aa"), None);
}

#[test]
fn test_dense_keys_match_reference() {
    let mut t = BTree::<u64, u64>::new();
    let mut truth = BTreeMap::new();
    let mut i: u64 = 0;
    while i < 2000 {
        let k = (i * 37) % 1000;
        assert_eq!(t.insert(&k, &i), truth.insert(k, i));
        i += 1;
    }
    let mut k: u64 = 0;
    while k < 1000 {
        assert_eq!(t.lookup(&k), truth.get(&k));
        k += 1;
    }
}
