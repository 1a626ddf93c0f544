use kernel_core::binary_tree::{BinaryTree, BinaryTreeNode};

fn tree_of(keys: &[u32]) -> BinaryTree<u32> {
    let mut t = BinaryTree::new();
    for &k in keys {
        t.insert(k, k * 10).unwrap();
    }
    t
}

#[test]
fn insert_get_remove() {
    let mut t = BinaryTree::new();
    assert_eq!(t.count(), 0);
    assert!(t.get(5).is_none());
    t.insert(5, "five").unwrap();
    t.insert(2, "two").unwrap();
    t.insert(8, "eight").unwrap();
    assert_eq!(t.count(), 3);
    assert_eq!(t.get(5), Some(&"five"));
    assert_eq!(t.get(2), Some(&"two"));
    assert_eq!(t.get(8), Some(&"eight"));
    assert!(t.get(7).is_none());
    assert_eq!(t.remove(2), Some("two"));
    assert!(t.remove(2).is_none());
    assert_eq!(t.count(), 2);
    assert!(t.get(2).is_none());
    assert_eq!(t.get(8), Some(&"eight"));
}

#[test]
fn duplicate_keys_rejected() {
    let mut t = BinaryTree::new();
    t.insert(3, 30).unwrap();
    assert_eq!(t.insert(3, 31), Err(31));
    assert_eq!(t.get(3), Some(&30));
    assert_eq!(t.count(), 1);
}

#[test]
fn in_order_traversal_is_ascending() {
    // Whatever the insertion order, the in-order key sequence is strictly
    // ascending and covers every key exactly once.
    let keys = [41u32, 7, 99, 3, 56, 12, 78, 1, 63, 29, 88, 5, 47, 70, 15];
    let t = tree_of(&keys);
    let inorder = t.in_order_keys();
    assert_eq!(inorder.len(), keys.len());
    for w in inorder.windows(2) {
        assert!(w[0] < w[1]);
    }
    let mut sorted = keys.to_vec();
    sorted.sort();
    assert_eq!(inorder, sorted);
}

#[test]
fn traversal_after_removals() {
    let keys: Vec<u32> = (1..=64).collect();
    let mut t = tree_of(&keys);
    for k in (2..=64).step_by(2) {
        assert_eq!(t.remove(k), Some(k * 10));
    }
    let inorder = t.in_order_keys();
    let expect: Vec<u32> = (1..=64).step_by(2).collect();
    assert_eq!(inorder, expect);
    assert_eq!(t.count(), 32);
}

#[test]
fn balancing_keeps_depth_logarithmic() {
    // Sorted insertion degenerates an unbalanced search tree into a
    // list; the red-black fixups keep the height within 2*log2(n+1).
    let keys: Vec<u32> = (1..=1024).collect();
    let t = tree_of(&keys);
    assert_eq!(t.nodes_count(), 1024);
    assert!(t.get_depth() <= 20, "depth {} exceeds the red-black bound", t.get_depth());
}

#[test]
fn empty_tree_has_depth_zero() {
    let empty: BinaryTree<u32> = BinaryTree::new();
    assert_eq!(empty.get_depth(), 0);
    assert_eq!(empty.nodes_count(), 0);
    let one = tree_of(&[5]);
    assert_eq!(one.get_depth(), 1);
}

#[test]
fn min_and_next() {
    let t = tree_of(&[20, 5, 30, 10]);
    assert_eq!(t.get_min(), Some(5));
    assert_eq!(t.get_next(5), Some(10));
    assert_eq!(t.get_next(10), Some(20));
    assert_eq!(t.get_next(12), Some(20));
    assert_eq!(t.get_next(30), None);
    let empty: BinaryTree<u32> = BinaryTree::new();
    assert_eq!(empty.get_min(), None);
    assert_eq!(empty.get_next(0), None);
}

#[test]
fn set_value_replaces_in_place() {
    let mut t = tree_of(&[4, 9]);
    assert_eq!(t.set_value(4, 444), Ok(()));
    assert_eq!(t.get(4), Some(&444));
    assert_eq!(t.set_value(6, 666), Err(666));
    assert_eq!(t.count(), 2);
}

#[test]
fn node_relations() {
    // Keys 1..=7 inserted in ascending order; whatever shape the fixups
    // choose, parent/sibling/uncle answers stay consistent with one
    // another.
    let t = tree_of(&[1, 2, 3, 4, 5, 6, 7]);
    for k in 1..=7u32 {
        match t.get_parent(k) {
            Some(p) => {
                assert!(p != k);
                // The sibling, if any, shares the same parent.
                if let Some(sib) = t.get_sibling(k) {
                    assert_eq!(t.get_parent(sib), Some(p));
                }
                // The grandparent is the parent's parent.
                assert_eq!(t.get_grandparent(k), t.get_parent(p));
                // The uncle is the parent's sibling.
                assert_eq!(t.get_uncle(k), t.get_sibling(p));
            }
            None => {
                // Only the root has no parent.
                assert!(t.get_sibling(k).is_none());
            }
        }
    }
    assert!(t.get_parent(99).is_none());
}

#[test]
fn detached_node() {
    let n = BinaryTreeNode::new(11u32, "x");
    assert!(n.get_left().is_none());
    assert!(n.get_right().is_none());
    assert_eq!(n.nodes_count(), 1);
    assert_eq!(n.get_depth(), 1);
}

#[test]
fn large_mixed_workload() {
    // Interleaved insertions and removals; the map behaviour matches a
    // model kept alongside.
    let mut t = BinaryTree::new();
    let mut model = std::collections::BTreeMap::new();
    let mut x: u32 = 7;
    for step in 0u32..2000 {
        x = x.wrapping_mul(1103515245).wrapping_add(12345) % 512;
        if step % 3 == 0 {
            let r = t.remove(x);
            assert_eq!(r, model.remove(&x));
        } else {
            let r = t.insert(x, step);
            if model.contains_key(&x) {
                assert_eq!(r, Err(step));
            } else {
                assert_eq!(r, Ok(()));
                model.insert(x, step);
            }
        }
        assert_eq!(t.count(), model.len());
    }
    let inorder = t.in_order_keys();
    let expect: Vec<u32> = model.keys().copied().collect();
    assert_eq!(inorder, expect);
}
