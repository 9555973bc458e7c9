use std::collections::HashMap;

use geotrees::binary_tree::BinaryTree;
use geotrees::red_black_node::Color;
use geotrees::red_black_tree::{is_binary_search_tree, is_red_black_tree};
use geotrees::semigroup_rb_tree::{
    check_semigroup_values, CanonInterval, Height, SemigroupRbNode, SemigroupRbTree, SemigroupRbTreeError,
    SerializationNode, SerializationTree, TreeSemigroup,
};

/// A small deterministic generator of shuffles.
struct Shuffler(u64);

impl Shuffler {
    fn next(&mut self) -> u64 {
        self.0 ^= self.0 << 13;
        self.0 ^= self.0 >> 7;
        self.0 ^= self.0 << 17;
        self.0
    }

    fn shuffle<T>(&mut self, items: &mut Vec<T>) {
        for i in (1..items.len()).rev() {
            let j = (self.next() % (i as u64 + 1)) as usize;
            items.swap(i, j);
        }
    }
}

/// Builds a tree by inserting the pairs in order.
fn tree_from<K: Ord, V, S: TreeSemigroup<K>>(pairs: Vec<(K, V)>) -> SemigroupRbTree<K, V, S> {
    let mut tree = SemigroupRbTree::new();
    for (key, value) in pairs {
        tree.insert(key, value);
    }
    tree
}

/// Asserts that the tree is a red-black search tree with a black root, whose keys strictly
/// increase in order.
fn assert_valid_tree<K: Ord + Copy, V, S>(tree: &SemigroupRbTree<K, V, S>) {
    let inner: &BinaryTree<SemigroupRbNode<K, V, S>> = tree.inner();
    if let Some(root) = tree.root() {
        assert_eq!(root.color(), Color::Black);
    }
    assert!(is_binary_search_tree::<K, _>(inner));
    assert!(is_red_black_tree::<K, _>(inner));
    let keys = inner.inorder_iter().into_iter().map(|node| *node.key()).collect::<Vec<_>>();
    for pair in keys.windows(2) {
        assert!(pair[0] < pair[1]);
    }
}

/// Asserts that every node holds the semigroup value computed from its key and children.
fn assert_semigroup<K, V, S: TreeSemigroup<K> + PartialEq>(tree: &SemigroupRbTree<K, V, S>) {
    assert!(check_semigroup_values(tree.inner()));
}

#[test]
fn semigroup_rb_tree_test_insertion() {
    // Test inserting values in order.
    let mut tree = SemigroupRbTree::<_, _, ()>::new();
    for key in 1..=30 {
        tree.insert(key, ());
    }
    assert_valid_tree(&tree);

    // Test inserting values in shuffled order.
    let mut rng = Shuffler(0x9e3779b97f4a7c15);
    for _ in 0..50 {
        let mut tree = SemigroupRbTree::<_, _, ()>::new();
        let mut keys = (1..=30).collect::<Vec<_>>();
        rng.shuffle(&mut keys);
        for key in keys {
            tree.insert(key, ());
        }
        assert_valid_tree(&tree);
    }

    // Test inserting and updating data.
    for _ in 0..50 {
        let keys = (1..=5).cycle();
        let mut values = (1..=30).collect::<Vec<_>>();
        rng.shuffle(&mut values);

        let mut tree = SemigroupRbTree::<_, _, ()>::new();
        let mut key_data_map = HashMap::new();
        for (key, value) in Iterator::zip(keys, values) {
            let old_value_tree = tree.insert(key, value);
            let old_value_map = key_data_map.insert(key, value);
            assert_eq!(old_value_tree, old_value_map);
        }
    }
}

#[test]
fn semigroup_rb_tree_test_deletion() {
    // Test deleting values in shuffled order.
    let mut rng = Shuffler(0x243f6a8885a308d3);
    for _ in 0..50 {
        let mut keys = (1..=30).collect::<Vec<_>>();
        rng.shuffle(&mut keys);
        let data = keys.clone().into_iter().map(|i| (i, i % 10)).collect::<Vec<_>>();
        let mut tree: SemigroupRbTree<_, _, ()> = tree_from(data.clone());
        let mut map = data.into_iter().collect::<HashMap<_, _>>();

        rng.shuffle(&mut keys);
        for key in keys {
            let entry_tree = tree.remove_entry(&key);
            let entry_map = map.remove_entry(&key);
            assert_eq!(entry_tree, entry_map);
            assert_valid_tree(&tree);
        }
    }
}

#[test]
fn semigroup_rb_tree_test_semigroup_tree() {
    let mut tree: SemigroupRbTree<_, _, Height> = tree_from(('a'..='z').map(|c| (c, ())).collect());
    assert_semigroup(&tree);
    tree.remove_entry(&'k');
    tree.remove_entry(&'l');
    tree.remove_entry(&'m');
    assert_semigroup(&tree);

    let mut tree: SemigroupRbTree<_, _, CanonInterval<i32>> = tree_from((1..=30).map(|i| (i, ())).collect());
    assert_semigroup(&tree);
    assert_eq!(tree.root().map(SemigroupRbNode::semigroup_value), Some(&CanonInterval(1, 30)));
    tree.remove_entry(&5);
    tree.remove_entry(&24);
    tree.remove_entry(&12);
    assert_semigroup(&tree);
}

#[test]
fn semigroup_heights_count_the_nodes_below() {
    let mut rng = Shuffler(0x13198a2e03707344);
    let mut keys = (1..=40).collect::<Vec<_>>();
    rng.shuffle(&mut keys);
    let mut tree: SemigroupRbTree<_, _, Height> = tree_from(keys.iter().map(|&k| (k, k * 2)).collect());
    assert_eq!(tree.root().map(|n| n.semigroup_value().0), Some(40));
    assert_semigroup(&tree);
    assert_valid_tree(&tree);

    rng.shuffle(&mut keys);
    for (removed, key) in keys.iter().enumerate() {
        assert_eq!(tree.remove_entry(key), Some((*key, key * 2)));
        assert_semigroup(&tree);
        assert_valid_tree(&tree);
        let left = 40 - removed - 1;
        assert_eq!(tree.root().map(|n| n.semigroup_value().0), if left == 0 { None } else { Some(left) });
    }
    assert_eq!(tree.remove_entry(&1), None);
}

#[test]
fn semigroup_interval_spans_all_keys_after_updates() {
    let mut tree = SemigroupRbTree::<i32, char, CanonInterval<i32>>::new();
    assert_eq!(tree.insert(10, 'a'), None);
    assert_eq!(tree.insert(-3, 'b'), None);
    assert_eq!(tree.insert(42, 'c'), None);
    assert_eq!(tree.insert(10, 'd'), Some('a'));
    assert_eq!(tree.root().map(|n| *n.semigroup_value()), Some(CanonInterval(-3, 42)));
    assert_eq!(tree.remove_entry(&42), Some((42, 'c')));
    assert_eq!(tree.root().map(|n| *n.semigroup_value()), Some(CanonInterval(-3, 10)));
    assert_eq!(tree.remove_entry(&42), None);
    assert_semigroup(&tree);
    let entries = tree
        .inner()
        .inorder_iter()
        .into_iter()
        .map(|node| (*node.key(), *node.value()))
        .collect::<Vec<_>>();
    assert_eq!(entries, vec![(-3, 'b'), (10, 'd')]);
}

#[test]
fn semigroup_pairs_keep_both_values() {
    let mut tree: SemigroupRbTree<_, _, (Height, CanonInterval<i32>)> = tree_from((1..=15).map(|i| (i, ())).collect());
    assert_semigroup(&tree);
    assert_eq!(tree.root().map(|n| *n.semigroup_value()), Some((Height(15), CanonInterval(1, 15))));
    tree.remove_entry(&1);
    tree.remove_entry(&15);
    assert_semigroup(&tree);
    assert_eq!(tree.root().map(|n| *n.semigroup_value()), Some((Height(13), CanonInterval(2, 14))));
}

#[test]
fn semigroup_map_values_keeps_keys_and_semigroup_values() {
    let tree: SemigroupRbTree<_, _, Height> = tree_from((1..=10).map(|i| (i, i * 3)).collect());
    let mapped = tree.map_values(|v: i32| format!("v{}", v));
    assert_semigroup(&mapped);
    assert_valid_tree(&mapped);
    assert_eq!(mapped.root().map(|n| n.semigroup_value().0), Some(10));
    let entries = mapped
        .inner()
        .inorder_iter()
        .into_iter()
        .map(|node| (*node.key(), node.value().clone()))
        .collect::<Vec<_>>();
    assert_eq!(entries, (1..=10).map(|i| (i, format!("v{}", i * 3))).collect::<Vec<_>>());
}

#[test]
fn semigroup_change_semigroup_recomputes_every_value() {
    let mut rng = Shuffler(0xa4093822299f31d0);
    let mut keys = (1..=25).collect::<Vec<_>>();
    rng.shuffle(&mut keys);
    let tree: SemigroupRbTree<_, _, Height> = tree_from(keys.iter().map(|&k| (k, -k)).collect());
    let mut changed: SemigroupRbTree<i32, i32, CanonInterval<i32>> = tree.change_semigroup();
    assert_semigroup(&changed);
    assert_valid_tree(&changed);
    assert_eq!(changed.root().map(|n| *n.semigroup_value()), Some(CanonInterval(1, 25)));
    assert_eq!(changed.remove_entry(&25), Some((25, -25)));
    assert_eq!(changed.root().map(|n| *n.semigroup_value()), Some(CanonInterval(1, 24)));
    let back: SemigroupRbTree<i32, i32, Height> = changed.change_semigroup();
    assert_semigroup(&back);
    assert_eq!(back.root().map(|n| n.semigroup_value().0), Some(24));
    let empty = SemigroupRbTree::<i32, (), Height>::new().change_semigroup::<CanonInterval<i32>>();
    assert!(empty.root().is_none());
}

/// The written-out nodes with their fields copied.
fn owned<K: Copy, V: Copy, S: Copy>(n: SerializationNode<&K, &V, &S>) -> SerializationNode<K, V, S> {
    SerializationNode {
        key: *n.key,
        value: *n.value,
        semigroup_value: *n.semigroup_value,
        color: n.color,
        left: n.left.map(|l| Box::new(owned(*l))),
        right: n.right.map(|r| Box::new(owned(*r))),
    }
}

#[test]
fn semigroup_serialization_round_trip_and_checks() {
    let tree: SemigroupRbTree<_, _, Height> = tree_from((1..=12).map(|i| (i, i + 100)).collect());
    let written = SerializationTree::new(&tree);
    let copy = SerializationTree(written.0.map(owned));
    let read = copy.into_semigroup_rb_tree().unwrap();
    assert_semigroup(&read);
    assert_valid_tree(&read);
    assert_eq!(read.root().map(|n| n.semigroup_value().0), Some(12));
    let entries = read
        .inner()
        .inorder_iter()
        .into_iter()
        .map(|node| (*node.key(), *node.value()))
        .collect::<Vec<_>>();
    assert_eq!(entries, (1..=12).map(|i| (i, i + 100)).collect::<Vec<_>>());

    let leaf = |key: i32, height: usize, color: Color| SerializationNode {
        key,
        value: (),
        semigroup_value: Height(height),
        color,
        left: None,
        right: None,
    };
    let node = |key: i32, height: usize, color: Color, left, right| SerializationNode {
        key,
        value: (),
        semigroup_value: Height(height),
        color,
        left: Some(Box::new(left)),
        right: Some(Box::new(right)),
    };
    let good = SerializationTree(Some(node(2, 3, Color::Black, leaf(1, 1, Color::Red), leaf(3, 1, Color::Red))));
    assert!(good.into_semigroup_rb_tree().is_ok());
    let wrong_value = SerializationTree(Some(node(2, 2, Color::Black, leaf(1, 1, Color::Red), leaf(3, 1, Color::Red))));
    assert_eq!(wrong_value.into_semigroup_rb_tree().err(), Some(SemigroupRbTreeError::SemigroupError));
    let red_root = SerializationTree(Some(node(2, 3, Color::Red, leaf(1, 1, Color::Black), leaf(3, 1, Color::Black))));
    assert_eq!(red_root.into_semigroup_rb_tree().err(), Some(SemigroupRbTreeError::RedBlackTreeError));
    let out_of_order = SerializationTree(Some(node(2, 3, Color::Black, leaf(3, 1, Color::Red), leaf(1, 1, Color::Red))));
    assert_eq!(out_of_order.into_semigroup_rb_tree().err(), Some(SemigroupRbTreeError::BinarySearchTreeError));
    let empty = SerializationTree::<i32, (), Height>(None).into_semigroup_rb_tree().unwrap();
    assert!(empty.root().is_none());
}
