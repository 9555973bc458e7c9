use std::collections::HashMap;

use geotrees::cartesian_tree::{CartesianNode, CartesianTree, Max, Min};
use geotrees::red_black_node::{Color, RedBlackNode, RedBlackTree};
use geotrees::serialization::{SerializationNode, SerializationTree};
use geotrees::red_black_tree::RedBlackTree as ArenaTree;

/// A small deterministic generator of shuffles.
struct Shuffler(u64);

impl Shuffler {
    fn next(&mut self) -> u64 {
        self.0 ^= self.0 << 13;
        self.0 ^= self.0 >> 7;
        self.0 ^= self.0 << 17;
        self.0
    }

    fn shuffle<T>(&mut self, items: &mut Vec<T>) {
        for i in (1..items.len()).rev() {
            let j = (self.next() % (i as u64 + 1)) as usize;
            items.swap(i, j);
        }
    }
}

fn is_heap_max(tree: &CartesianTree<i32, (), Max>) -> bool {
    fn is_heap_recursive(cursor: geotrees::binary_tree::Cursor<'_, CartesianNode<i32, ()>>) -> bool {
        let Some(node) = cursor.get() else { return true; };
        if let Some(left) = cursor.peek_left() {
            if node.key() < left.key() {
                return false;
            }
            let mut left_cursor = cursor.spawn_cursor();
            left_cursor.move_left();
            if !is_heap_recursive(left_cursor) {
                return false;
            }
        }
        if let Some(right) = cursor.peek_right() {
            if node.key() < right.key() {
                return false;
            }
            let mut right_cursor = cursor.spawn_cursor();
            right_cursor.move_right();
            if !is_heap_recursive(right_cursor) {
                return false;
            }
        }
        true
    }
    is_heap_recursive(tree.inner().cursor())
}

fn assert_cartesian_tree(sequence: Vec<(i32, ())>) {
    let tree = CartesianTree::<i32, (), Max>::from_iter(sequence.clone());
    assert!(is_heap_max(&tree));

    // Assert the sequence is preserved.
    let tree_sequence: Vec<(i32, ())> = tree
        .inner()
        .inorder_iter()
        .into_iter()
        .map(|node| (*node.key(), *node.value()))
        .collect();
    for i in 0..sequence.len() {
        assert_eq!(sequence.get(i), tree_sequence.get(i));
    }
    assert_eq!(sequence.len(), tree_sequence.len());
}

#[test]
fn cartesian_tree_test_cartesian_tree() {
    let mut rng = Shuffler(0x9e3779b97f4a7c15);
    for _ in 0..50 {
        let mut sequence = (1..=30).map(|x| (x, ())).collect::<Vec<_>>();
        rng.shuffle(&mut sequence);
        assert_cartesian_tree(sequence);
    }
}

#[test]
fn cartesian_min_tree_root_is_minimum() {
    let tree = CartesianTree::<i32, &str, Min>::from_iter(vec![(5, "a"), (2, "b"), (8, "c"), (1, "d"), (9, "e")]);
    let root = tree.inner().cursor().get().map(|node| *node.key());
    assert_eq!(root, Some(1));
    let keys: Vec<i32> = tree.inner().inorder_iter().into_iter().map(|node| *node.key()).collect();
    assert_eq!(keys, vec![5, 2, 8, 1, 9]);
    let values: Vec<&str> = tree.inner().inorder_iter().into_iter().map(|node| *node.value()).collect();
    assert_eq!(values, vec!["a", "b", "c", "d", "e"]);
}

#[test]
fn cartesian_empty_tree() {
    let tree = CartesianTree::<i32, (), Min>::from_iter(Vec::new());
    assert!(tree.inner().is_empty());
    assert_eq!(tree.inner().len(), 0);
}

/// Asserts the keys of the tree are in search order and returns their range.
fn assert_binary_search_tree(tree: &RedBlackTree<i32, i32>) -> Option<(i32, i32)> {
    let node = tree.root()?;
    let left = assert_binary_search_tree(node.left());
    let right = assert_binary_search_tree(node.right());
    if let Some((_, max_left)) = left {
        assert!(*node.key() > max_left);
    }
    if let Some((min_right, _)) = right {
        assert!(*node.key() < min_right);
    }
    Some((left.map_or(*node.key(), |(min, _)| min), right.map_or(*node.key(), |(_, max)| max)))
}

/// Asserts the tree is a valid red-black tree and returns its black height.
fn assert_valid_tree_recursive(tree: &RedBlackTree<i32, i32>) -> usize {
    let Some(node) = tree.root() else { return 1; };
    if node.color() == Color::Red {
        assert_ne!(node.left().root().map(|left| left.color()), Some(Color::Red));
        assert_ne!(node.right().root().map(|right| right.color()), Some(Color::Red));
    }
    let num_black_left = assert_valid_tree_recursive(node.left());
    let num_black_right = assert_valid_tree_recursive(node.right());
    assert_eq!(num_black_left, num_black_right);
    if node.color() == Color::Red {
        num_black_left
    } else {
        1 + num_black_left
    }
}

fn assert_valid_tree(tree: &RedBlackTree<i32, i32>) {
    if let Some(node) = tree.root() {
        assert_eq!(node.color(), Color::Black);
    }
    assert_binary_search_tree(tree);
    assert_valid_tree_recursive(tree);
}

#[test]
fn red_black_node_test_insertion() {
    // Test inserting values in order.
    let mut tree = RedBlackTree::new();
    for key in 1..=30 {
        tree.insert(key, 0);
    }
    assert_valid_tree(&tree);

    // Test inserting values in shuffled order.
    let mut rng = Shuffler(0x2545f4914f6cdd1d);
    for _ in 0..50 {
        let mut tree = RedBlackTree::new();
        let mut keys = (1..=30).collect::<Vec<_>>();
        rng.shuffle(&mut keys);
        for key in keys {
            tree.insert(key, 0);
        }
        assert_valid_tree(&tree);
    }

    // Test inserting and updating data.
    for _ in 0..50 {
        let keys = (1..=5).cycle();
        let mut values = (1..=30).collect::<Vec<_>>();
        rng.shuffle(&mut values);

        let mut tree = RedBlackTree::new();
        let mut key_data_map = HashMap::new();
        for (key, value) in Iterator::zip(keys, values) {
            let old_value_tree = tree.insert(key, value);
            let old_value_map = key_data_map.insert(key, value);
            assert_eq!(old_value_tree, old_value_map);
        }
    }
}

#[test]
fn red_black_node_test_deletion() {
    // Test deleting values in shuffled order.
    let mut rng = Shuffler(0x853c49e6748fea9b);
    for _ in 0..50 {
        let mut keys = (1..=30).collect::<Vec<_>>();
        rng.shuffle(&mut keys);
        let mut tree = RedBlackTree::new();
        let mut map = HashMap::new();
        for &i in keys.iter() {
            tree.insert(i, i % 10);
            map.insert(i, i % 10);
        }

        rng.shuffle(&mut keys);
        for key in keys {
            let entry_tree = tree.remove_entry(&key);
            let entry_map = map.remove_entry(&key);
            assert_eq!(entry_tree, entry_map);
            assert_valid_tree(&tree);
        }
    }
}

#[test]
fn red_black_remove_absent_key() {
    let mut tree = RedBlackTree::new();
    assert_eq!(tree.remove_entry(&3), None);
    tree.insert(1, 10);
    assert_eq!(tree.remove_entry(&3), None);
    assert_eq!(RedBlackNode::get(&tree, &1), Some(&10));
    assert_eq!(tree.remove_entry(&1), Some((1, 10)));
    assert!(tree.is_leaf());
}

#[test]
fn red_black_get_after_insert() {
    let mut tree = RedBlackTree::new();
    for key in [5, 3, 8, 1, 4, 7, 9] {
        tree.insert(key, key * 100);
    }
    assert_eq!(RedBlackNode::get(&tree, &4), Some(&400));
    assert_eq!(RedBlackNode::get(&tree, &6), None);
    assert_eq!(tree.insert(4, 1), Some(400));
    assert_eq!(RedBlackNode::get(&tree, &4), Some(&1));
}

#[test]
fn cartesian_tree_read_back() {
    fn leaf(key: i32) -> Option<Box<SerializationNode<CartesianNode<i32, ()>>>> {
        Some(Box::new(SerializationNode { data: CartesianNode::new(key, ()), left: None, right: None }))
    }
    // 9 above 3 on the left and 7 on the right, 7 above 4 on the left.
    let max_heap = || {
        SerializationTree(Some(SerializationNode {
            data: CartesianNode::new(9, ()),
            left: leaf(3),
            right: Some(Box::new(SerializationNode { data: CartesianNode::new(7, ()), left: leaf(4), right: None })),
        }))
        .into_binary_tree()
    };
    let tree = CartesianTree::<i32, (), Max>::from_binary_tree(max_heap()).unwrap();
    let keys: Vec<i32> = tree.inner().inorder_iter().into_iter().map(|n| *n.key()).collect();
    assert_eq!(keys, vec![3, 9, 4, 7]);

    let err = CartesianTree::<i32, (), Min>::from_binary_tree(max_heap()).err();
    assert_eq!(err, Some(geotrees::cartesian_tree::CartesianTreeError::HeapError(String::from("min"))));
}

fn assert_valid_arena_tree<V>(tree: &geotrees::red_black_tree::RedBlackTree<i32, V>) {
    let inner = tree.inner();
    if let Some(root) = tree.root() {
        assert_eq!(root.color(), Color::Black);
    }
    assert!(geotrees::red_black_tree::is_binary_search_tree::<i32, _>(inner));
    assert!(geotrees::red_black_tree::is_red_black_tree::<i32, _>(inner));
    let keys = inner.inorder_iter().into_iter().map(|node| *node.key()).collect::<Vec<_>>();
    for pair in keys.windows(2) {
        assert!(pair[0] < pair[1]);
    }
}

#[test]
fn red_black_tree_test_insertion() {
    // Test inserting values in order.
    let mut tree = ArenaTree::new();
    for key in 1..=30 {
        tree.insert(key, ());
    }
    assert_valid_arena_tree(&tree);
    assert_eq!(tree.inner().len(), 30);

    // Test inserting values in shuffled order.
    let mut rng = Shuffler(0x9e3779b97f4a7c15);
    for _ in 0..50 {
        let mut tree = ArenaTree::new();
        let mut keys = (1..=30).collect::<Vec<_>>();
        rng.shuffle(&mut keys);
        for key in keys {
            tree.insert(key, ());
        }
        assert_valid_arena_tree(&tree);
    }

    // Test inserting and updating data.
    for _ in 0..50 {
        let keys = (1..=5).cycle();
        let mut values = (1..=30).collect::<Vec<_>>();
        rng.shuffle(&mut values);

        let mut tree = ArenaTree::new();
        let mut key_data_map = HashMap::new();
        for (key, value) in Iterator::zip(keys, values) {
            let old_value_tree = tree.insert(key, value);
            let old_value_map = key_data_map.insert(key, value);
            assert_eq!(old_value_tree, old_value_map);
        }
        assert_valid_arena_tree(&tree);
        assert_eq!(tree.inner().len(), 5);
    }
}

#[test]
fn arena_red_black_tree_insert_returns_old_value() {
    let mut tree = ArenaTree::new();
    assert_eq!(tree.insert(2, "b"), None);
    assert_eq!(tree.insert(1, "a"), None);
    assert_eq!(tree.insert(3, "c"), None);
    assert_eq!(tree.insert(2, "B"), Some("b"));
    let entries = tree
        .inner()
        .inorder_iter()
        .into_iter()
        .map(|node| (*node.key(), *node.value()))
        .collect::<Vec<_>>();
    assert_eq!(entries, vec![(1, "a"), (2, "B"), (3, "c")]);
    assert_eq!(tree.root().map(|node| *node.key()), Some(2));
}

#[test]
fn arena_red_black_tree_test_deletion() {
    // Test deleting values in shuffled order.
    let mut rng = Shuffler(0x243f6a8885a308d3);
    for _ in 0..50 {
        let mut keys = (1..=30).collect::<Vec<_>>();
        rng.shuffle(&mut keys);
        let mut tree = ArenaTree::new();
        let mut map = HashMap::new();
        for &key in &keys {
            tree.insert(key, key % 10);
            map.insert(key, key % 10);
        }
        assert_valid_arena_tree(&tree);

        rng.shuffle(&mut keys);
        for key in keys {
            let entry_tree = tree.remove_entry(&key);
            let entry_map = map.remove_entry(&key);
            assert_eq!(entry_tree, entry_map);
            assert_valid_arena_tree(&tree);
            assert_eq!(tree.inner().len(), map.len());
        }
        assert!(tree.root().is_none());
    }
}

#[test]
fn arena_red_black_tree_remove_absent_key() {
    let mut tree = ArenaTree::new();
    assert_eq!(tree.remove_entry(&1), None);
    tree.insert(10, 'a');
    tree.insert(20, 'b');
    assert_eq!(tree.remove_entry(&15), None);
    assert_eq!(tree.remove_entry(&10), Some((10, 'a')));
    assert_eq!(tree.remove_entry(&10), None);
    assert_eq!(tree.remove_entry(&20), Some((20, 'b')));
    assert!(tree.root().is_none());
}

#[test]
fn arena_red_black_tree_map_values() {
    let mut tree = ArenaTree::new();
    for key in [4, 2, 6, 1, 3, 5, 7] {
        tree.insert(key, key);
    }
    let mapped = tree.map_values(|v: i32| v * v + 1);
    assert_valid_arena_tree(&mapped);
    let entries = mapped
        .inner()
        .inorder_iter()
        .into_iter()
        .map(|node| (*node.key(), *node.value()))
        .collect::<Vec<_>>();
    assert_eq!(entries, (1..=7).map(|k| (k, k * k + 1)).collect::<Vec<_>>());
    assert_eq!(mapped.root().map(|node| (*node.key(), node.color())), Some((4, Color::Black)));
}

#[test]
fn first_insertion_makes_a_single_black_node() {
    let mut tree: RedBlackTree<i32, i32> = RedBlackTree::new();
    assert_eq!(tree.insert(1, 10), None);
    let root = tree.root().unwrap();
    assert_eq!(root.color(), Color::Black);
    assert_eq!(*root.key(), 1);
    assert!(root.left().is_leaf());
    assert!(root.right().is_leaf());
}

#[test]
fn removing_an_absent_key_leaves_the_tree_alone() {
    let mut tree: RedBlackTree<i32, i32> = RedBlackTree::new();
    tree.insert(1, 1);
    assert_eq!(tree.remove_entry(&2), None);
    let root = tree.root().unwrap();
    assert_eq!((*root.key(), *root.value(), root.color()), (1, 1, Color::Black));
    assert!(root.left().is_leaf() && root.right().is_leaf());
}

#[test]
fn arena_insertions_and_removals_keep_the_rules() {
    let mut tree: ArenaTree<i32, i32> = ArenaTree::new();
    let mut shuffler = Shuffler(7);
    let mut keys: Vec<i32> = (1..=40).collect();
    shuffler.shuffle(&mut keys);
    for &k in &keys {
        tree.insert(k, k);
        assert!(geotrees::red_black_tree::is_red_black_tree::<i32, _>(tree.inner()));
        assert!(geotrees::red_black_tree::is_binary_search_tree::<i32, _>(tree.inner()));
    }
    shuffler.shuffle(&mut keys);
    for &k in &keys {
        assert_eq!(tree.remove_entry(&k), Some((k, k)));
        assert!(geotrees::red_black_tree::is_red_black_tree::<i32, _>(tree.inner()));
    }
}

#[test]
fn arena_update_and_absent_removal_keep_the_tree() {
    let mut tree: ArenaTree<i32, i32> = ArenaTree::new();
    for k in [5, 2, 8, 1, 3] {
        tree.insert(k, k);
    }
    let before: Vec<(i32, bool)> = tree
        .inner()
        .inorder_iter()
        .into_iter()
        .map(|n| (*n.key(), n.is_red()))
        .collect();
    assert_eq!(tree.insert(3, 30), Some(3));
    assert_eq!(tree.remove_entry(&7), None);
    let after: Vec<(i32, bool)> = tree
        .inner()
        .inorder_iter()
        .into_iter()
        .map(|n| (*n.key(), n.is_red()))
        .collect();
    assert_eq!(before, after);
    assert!(geotrees::red_black_tree::is_red_black_tree::<i32, _>(tree.inner()));
}
