use geotrees::binary_tree::{BinaryTree, NodeId};
use geotrees::side::{CursorError, Side};
use geotrees::traversal::TraversalOrder;

#[test]
fn test_cursors() {
    let mut tree = BinaryTree::new();
    let mut cursor = tree.cursor_mut();

    // Create the tree.
    cursor.root_tree(1).unwrap();
    cursor.attach_child(2, Side::Left).unwrap();
    cursor.attach_child(5, Side::Right).unwrap();
    cursor.move_left();
    cursor.attach_child(3, Side::Left).unwrap();
    cursor.attach_child(4, Side::Right).unwrap();

    // Check creation of tree went correctly.
    let mut cursor = tree.cursor();
    assert_eq!(cursor.get(), Some(&1));
    assert_eq!(cursor.peek_left(), Some(&2));
    assert_eq!(cursor.peek_right(), Some(&5));
    cursor.move_left();
    assert_eq!(cursor.peek_left(), Some(&3));
    assert_eq!(cursor.peek_right(), Some(&4));
    cursor.move_up();
    cursor.move_right();
    assert_eq!(cursor.get(), Some(&5));

    // Test rotations.
    let mut cursor = tree.cursor_mut();
    cursor.rotate_right().unwrap();
    cursor.move_up();

    assert_eq!(cursor.get().map(|x| *x), Some(2));
    assert_eq!(cursor.as_cursor().peek_left(), Some(&3));
    assert_eq!(cursor.as_cursor().peek_right(), Some(&1));
    cursor.move_right();
    assert_eq!(cursor.as_cursor().peek_left(), Some(&4));
    assert_eq!(cursor.as_cursor().peek_right(), Some(&5));
}

fn get_iter_test_tree() -> BinaryTree<i32> {
    // Makes the following test tree:
    // └──1
    //    ├──2
    //    │  ├──3
    //    │  └──4
    //    │     └──5
    //    └──6
    //       ├──7
    //       └──8
    //          └──9
    let mut tree = BinaryTree::new();
    let mut cursor = tree.cursor_mut();
    cursor.root_tree(1).unwrap();
    cursor.attach_child(2, Side::Left).unwrap();
    cursor.move_left();
    cursor.attach_child(3, Side::Left).unwrap();
    cursor.attach_child(4, Side::Right).unwrap();
    cursor.move_right();
    cursor.attach_child(5, Side::Left).unwrap();
    let mut cursor = tree.cursor_mut();
    cursor.attach_child(6, Side::Right).unwrap();
    cursor.move_right();
    cursor.attach_child(7, Side::Left).unwrap();
    cursor.attach_child(8, Side::Right).unwrap();
    cursor.move_right();
    cursor.attach_child(9, Side::Left).unwrap();
    tree
}

/// Doubles the data of every node, visiting the nodes in the given order.
fn double_all(tree: &mut BinaryTree<i32>, order: TraversalOrder) {
    let ids: Vec<NodeId> = tree.traverse_ids(order);
    for id in ids {
        let data = tree.data_mut(id).unwrap();
        *data = 2 * *data;
    }
}

#[test]
fn inorder_traversal_of_sample_tree() {
    let tree = get_iter_test_tree();
    let inorder_sequence = [3, 2, 5, 4, 1, 7, 6, 9, 8];

    // Testing iters without mutations.
    for (i, j) in Iterator::zip(inorder_sequence.iter(), tree.inorder_iter()) {
        assert_eq!(i, j);
    }
    assert_eq!(tree.inorder_iter().len(), inorder_sequence.len());

    // Test mutating elements during iteration.
    let mut tree = get_iter_test_tree();
    double_all(&mut tree, TraversalOrder::Inorder);
    for (&i, &j) in Iterator::zip(inorder_sequence.iter(), tree.inorder_iter()) {
        assert_eq!(2 * i, j);
    }
}

#[test]
fn preorder_traversal_of_sample_tree() {
    let tree = get_iter_test_tree();
    let preorder_sequence = [1, 2, 3, 4, 5, 6, 7, 8, 9];

    // Testing iters without mutations.
    for (i, j) in Iterator::zip(preorder_sequence.iter(), tree.preorder_iter()) {
        assert_eq!(i, j);
    }
    assert_eq!(tree.preorder_iter().len(), preorder_sequence.len());

    // Test mutating elements during iteration.
    let mut tree = get_iter_test_tree();
    double_all(&mut tree, TraversalOrder::Preorder);
    for (&i, &j) in Iterator::zip(preorder_sequence.iter(), tree.preorder_iter()) {
        assert_eq!(2 * i, j);
    }
}

#[test]
fn postorder_traversal_of_sample_tree() {
    let tree = get_iter_test_tree();
    let postorder_sequence = [3, 5, 4, 2, 7, 9, 8, 6, 1];

    // Testing iters without mutations.
    for (i, j) in Iterator::zip(postorder_sequence.iter(), tree.postorder_iter()) {
        assert_eq!(i, j);
    }
    assert_eq!(tree.postorder_iter().len(), postorder_sequence.len());

    // Test mutating elements during iteration.
    let mut tree = get_iter_test_tree();
    double_all(&mut tree, TraversalOrder::Postorder);
    for (&i, &j) in Iterator::zip(postorder_sequence.iter(), tree.postorder_iter()) {
        assert_eq!(2 * i, j);
    }
}

#[test]
fn rotation_is_undone_by_opposite_rotation() {
    let tree_before = get_iter_test_tree();
    let mut tree = get_iter_test_tree();
    let mut cursor = tree.cursor_mut();
    cursor.rotate_left().unwrap();
    cursor.move_up();
    cursor.rotate_right().unwrap();
    drop(cursor);
    assert_eq!(tree.preorder_iter(), tree_before.preorder_iter());
    assert_eq!(tree.inorder_iter(), tree_before.inorder_iter());
}

#[test]
fn rotation_errors() {
    let mut tree = BinaryTree::new();
    let mut cursor = tree.cursor_mut();
    assert_eq!(cursor.rotate_left(), Err(CursorError::RotateLeftError));
    cursor.root_tree(1).unwrap();
    assert_eq!(cursor.rotate_left(), Err(CursorError::RotateLeftError));
    assert_eq!(cursor.rotate_right(), Err(CursorError::RotateRightError));
    assert_eq!(cursor.root_tree(2), Err(CursorError::CreateRootError));
    cursor.attach_child(2, Side::Left).unwrap();
    assert_eq!(cursor.attach_child(3, Side::Left), Err(CursorError::AttachChildError(Side::Left)));
    assert_eq!(cursor.detach_node(), None);
    cursor.move_left();
    cursor.move_left();
    assert_eq!(cursor.swap_children(), Err(CursorError::NullError));
}

#[test]
fn detach_and_transplant() {
    let mut tree = get_iter_test_tree();
    let mut cursor = tree.cursor_mut();
    // Node 4 has the single child 5, which takes its place.
    cursor.move_left();
    cursor.move_right();
    assert_eq!(cursor.transplant_child(), Some(4));
    assert_eq!(cursor.get().map(|x| *x), Some(5));
    // Node 5 is now a leaf and can be detached; the cursor moves to its parent.
    assert_eq!(cursor.detach_node(), Some(5));
    assert_eq!(cursor.get().map(|x| *x), Some(2));
    drop(cursor);
    assert_eq!(tree.len(), 7);
    let inorder: Vec<i32> = tree.inorder_iter().into_iter().copied().collect();
    assert_eq!(inorder, vec![3, 2, 1, 7, 6, 9, 8]);
}

#[test]
fn inorder_neighbors() {
    let tree = get_iter_test_tree();
    let mut cursor = tree.cursor();
    // Walk to the first node of the inorder sequence, then follow successors.
    while cursor.try_move_left() {}
    let mut seen = vec![*cursor.get().unwrap()];
    while cursor.try_move_next() {
        seen.push(*cursor.get().unwrap());
    }
    assert_eq!(seen, vec![3, 2, 5, 4, 1, 7, 6, 9, 8]);
    // And back through predecessors.
    let mut back = vec![*cursor.get().unwrap()];
    while cursor.try_move_prev() {
        back.push(*cursor.get().unwrap());
    }
    assert_eq!(back, vec![8, 9, 6, 7, 1, 4, 5, 2, 3]);
}

#[test]
fn map_keeps_shape() {
    let tree = get_iter_test_tree();
    let mapped = tree.map(|x| x * 10);
    let preorder: Vec<i32> = mapped.preorder_iter().into_iter().copied().collect();
    assert_eq!(preorder, vec![10, 20, 30, 40, 50, 60, 70, 80, 90]);
    let inorder: Vec<i32> = mapped.inorder_iter().into_iter().copied().collect();
    assert_eq!(inorder, vec![30, 20, 50, 40, 10, 70, 60, 90, 80]);
}

#[test]
fn attach_parent_and_re_root() {
    let mut tree = BinaryTree::new();
    let mut cursor = tree.cursor_mut();
    cursor.root_tree(2).unwrap();
    cursor.re_root_tree(1, Side::Right);
    assert_eq!(cursor.get().map(|x| *x), Some(1));
    cursor.move_right();
    assert_eq!(cursor.get().map(|x| *x), Some(2));
    cursor.attach_or_insert_parent(3, Side::Left).unwrap();
    drop(cursor);
    let preorder: Vec<i32> = tree.preorder_iter().into_iter().copied().collect();
    assert_eq!(preorder, vec![1, 3, 2]);
}

#[test]
fn attach_or_insert_parent_takes_the_edge() {
    let mut tree = BinaryTree::new();
    let mut cursor = tree.cursor_mut();
    cursor.root_tree(1).unwrap();
    cursor.attach_child(2, Side::Right).unwrap();
    cursor.move_right();
    cursor.attach_or_insert_parent(3, Side::Left).unwrap();
    // The new node sits on the right of 1, where 2 was, with 2 on its left.
    assert_eq!(cursor.get().map(|x| *x), Some(2));
    cursor.move_up();
    assert_eq!(cursor.get().map(|x| *x), Some(3));
    assert_eq!(cursor.side_of_parent(), Some(Side::Right));
    drop(cursor);
    let inorder: Vec<i32> = tree.inorder_iter().into_iter().copied().collect();
    assert_eq!(inorder, vec![1, 2, 3]);
}

#[test]
fn peek_neighborhood_edits_all_four() {
    let mut tree = get_iter_test_tree();
    let mut cursor = tree.cursor_mut();
    cursor.move_left();
    cursor.move_right();
    // The cursor is at 4: parent 2, left child 5, no right child.
    let neighborhood = cursor.peek_neighborhood();
    assert_eq!(neighborhood.node.as_deref(), Some(&4));
    assert_eq!(neighborhood.parent.as_deref(), Some(&2));
    assert_eq!(neighborhood.left.as_deref(), Some(&5));
    assert!(neighborhood.right.is_none());
    if let Some(x) = neighborhood.node {
        *x += 100;
    }
    if let Some(x) = neighborhood.parent {
        *x += 200;
    }
    if let Some(x) = neighborhood.left {
        *x += 300;
    }
    drop(cursor);
    let preorder: Vec<i32> = tree.preorder_iter().into_iter().copied().collect();
    assert_eq!(preorder, vec![1, 202, 3, 104, 305, 6, 7, 8, 9]);
}

#[test]
fn peek_neighborhood_of_shared_cursor() {
    let tree = get_iter_test_tree();
    let mut cursor = tree.cursor();
    cursor.move_right();
    let neighborhood = cursor.peek_neighborhood();
    assert_eq!(neighborhood.node, Some(&6));
    assert_eq!(neighborhood.parent, Some(&1));
    assert_eq!(neighborhood.left, Some(&7));
    assert_eq!(neighborhood.right, Some(&8));
    let doubled = neighborhood.map(|x| 2 * *x);
    assert_eq!(doubled.node, Some(12));
    assert_eq!(doubled.right, Some(16));
}

#[test]
fn layout_draws_every_node_in_preorder() {
    let tree = get_iter_test_tree();
    let lines = tree.layout();
    let data: Vec<i32> = lines.iter().map(|line| *tree.node(line.node).unwrap().data()).collect();
    assert_eq!(data, vec![1, 2, 3, 4, 5, 6, 7, 8, 9]);
    let depths: Vec<usize> = lines.iter().map(|line| line.branches.len()).collect();
    assert_eq!(depths, vec![0, 1, 2, 2, 3, 1, 2, 2, 3]);
    let sides: Vec<bool> = lines.iter().map(|line| line.is_left).collect();
    assert_eq!(sides, vec![false, true, true, false, true, false, true, false, true]);
    assert_eq!(lines[4].branches, vec![false, true, false]);

    let empty: BinaryTree<i32> = BinaryTree::new();
    let lines = empty.layout();
    assert_eq!(lines.len(), 1);
    assert!(lines[0].node.is_null());
}

#[test]
fn attach_parent_above_the_root_makes_a_new_root() {
    let mut tree = BinaryTree::new_singleton(1);
    let mut cursor = tree.cursor_mut();
    assert!(cursor.attach_parent(0, Side::Left).is_ok());
    drop(cursor);
    let c = tree.cursor();
    assert_eq!(c.get().map(|x| *x), Some(0));
    assert_eq!(c.peek_left().map(|x| *x), Some(1));
    assert_eq!(tree.len(), 2);

    let mut tree = BinaryTree::new_singleton(1);
    let mut cursor = tree.cursor_mut();
    assert!(cursor.attach_or_insert_parent(0, Side::Right).is_ok());
    drop(cursor);
    let c = tree.cursor();
    assert_eq!(c.get().map(|x| *x), Some(0));
    assert_eq!(c.peek_right().map(|x| *x), Some(1));
}
