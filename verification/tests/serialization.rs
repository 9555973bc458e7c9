use geotrees::binary_tree::BinaryTree;
use geotrees::red_black_node::Color;
use geotrees::red_black_tree::{
    is_binary_search_tree, is_red_black_tree, RedBlackNode, RedBlackTreeError, SerializationNode,
    SerializationTree,
};
use geotrees::semigroup_rb_tree::{
    check_semigroup_values, CanonInterval, Height, SemigroupRbNode, SemigroupRbTree, SemigroupRbTreeError,
    TreeSemigroup,
};
use geotrees::serialization;

fn leaf(key: i32, color: Color) -> Option<Box<SerializationNode<i32, i32>>> {
    Some(Box::new(SerializationNode { key, value: key * 10, color, left: None, right: None }))
}

fn node(
    key: i32,
    color: Color,
    left: Option<Box<SerializationNode<i32, i32>>>,
    right: Option<Box<SerializationNode<i32, i32>>>,
) -> Option<Box<SerializationNode<i32, i32>>> {
    Some(Box::new(SerializationNode { key, value: key * 10, color, left, right }))
}

fn tree_of(root: Option<Box<SerializationNode<i32, i32>>>) -> SerializationTree<i32, i32> {
    SerializationTree(root.map(|b| *b))
}

#[test]
fn accepts_valid_red_black_tree() {
    let s = tree_of(node(2, Color::Black, leaf(1, Color::Red), leaf(3, Color::Red)));
    let tree = s.into_red_black_tree().unwrap();
    assert_eq!(tree.inner().len(), 3);
    assert_eq!(tree.root().map(|n| *n.key()), Some(2));
    let keys: Vec<i32> = tree.inner().inorder_iter().into_iter().map(|n| *n.key()).collect();
    assert_eq!(keys, vec![1, 2, 3]);
    let values: Vec<i32> = tree.inner().inorder_iter().into_iter().map(|n| *n.value()).collect();
    assert_eq!(values, vec![10, 20, 30]);
}

#[test]
fn accepts_empty_tree() {
    let s: SerializationTree<i32, i32> = SerializationTree(None);
    assert!(s.into_red_black_tree().is_ok());
}

#[test]
fn rejects_out_of_order_keys() {
    let s = tree_of(node(2, Color::Black, leaf(3, Color::Red), leaf(1, Color::Red)));
    assert_eq!(s.into_red_black_tree().err(), Some(RedBlackTreeError::BinarySearchTreeError));
    let s = tree_of(node(5, Color::Black, node(2, Color::Red, None, leaf(7, Color::Black)), None));
    assert_eq!(s.into_red_black_tree().err(), Some(RedBlackTreeError::BinarySearchTreeError));
}

#[test]
fn rejects_red_root() {
    let s = tree_of(node(2, Color::Red, leaf(1, Color::Black), leaf(3, Color::Black)));
    assert_eq!(s.into_red_black_tree().err(), Some(RedBlackTreeError::RedBlackTreeError));
}

#[test]
fn rejects_red_red_edge_and_unequal_black_heights() {
    let s = tree_of(node(2, Color::Black, node(1, Color::Red, leaf(0, Color::Red), None), leaf(3, Color::Red)));
    assert_eq!(s.into_red_black_tree().err(), Some(RedBlackTreeError::RedBlackTreeError));
    let s = tree_of(node(2, Color::Black, leaf(1, Color::Black), None));
    assert_eq!(s.into_red_black_tree().err(), Some(RedBlackTreeError::RedBlackTreeError));
}

#[test]
fn equal_keys_are_not_in_search_order() {
    let s = tree_of(node(2, Color::Black, leaf(2, Color::Red), None));
    assert_eq!(s.into_red_black_tree().err(), Some(RedBlackTreeError::BinarySearchTreeError));
    let s = tree_of(node(2, Color::Black, None, leaf(2, Color::Red)));
    assert_eq!(s.into_red_black_tree().err(), Some(RedBlackTreeError::BinarySearchTreeError));
}

#[test]
fn serialization_round_trip() {
    let s = tree_of(node(4, Color::Black, node(2, Color::Red, leaf(1, Color::Black), leaf(3, Color::Black)), leaf(5, Color::Black)));
    let tree = s.into_red_black_tree().unwrap();
    let written = SerializationTree::new(&tree);
    fn shape(n: &SerializationNode<&i32, &i32>) -> String {
        let l = n.left.as_ref().map_or(String::from("."), |l| shape(l));
        let r = n.right.as_ref().map_or(String::from("."), |r| shape(r));
        format!("({} {} {:?} {} {})", n.key, n.value, n.color, l, r)
    }
    let text = shape(written.0.as_ref().unwrap());
    assert_eq!(text, "(4 40 Black (2 20 Red (1 10 Black . .) (3 30 Black . .)) (5 50 Black . .))");
}

#[test]
fn generic_round_trip() {
    let s = serialization::SerializationTree(Some(serialization::SerializationNode {
        data: 'a',
        left: Some(Box::new(serialization::SerializationNode { data: 'b', left: None, right: None })),
        right: None,
    }));
    let tree: BinaryTree<char> = s.into_binary_tree();
    assert_eq!(tree.len(), 2);
    let written = serialization::SerializationTree::new(&tree);
    let root = written.0.unwrap();
    assert_eq!(*root.data, 'a');
    assert_eq!(*root.left.unwrap().data, 'b');
    assert!(root.right.is_none());
}

#[test]
fn checks_on_plain_binary_trees() {
    let s = serialization::SerializationTree(Some(serialization::SerializationNode {
        data: RedBlackNode::new_with_color(1, 0, Color::Black),
        left: None,
        right: Some(Box::new(serialization::SerializationNode {
            data: RedBlackNode::new_with_color(0, 0, Color::Red),
            left: None,
            right: None,
        })),
    }));
    let tree = s.into_binary_tree();
    assert!(!is_binary_search_tree(&tree));
    assert!(is_red_black_tree(&tree));
}

type SNode = SemigroupRbNode<i32, (), Height>;

fn sg(key: i32, height: usize, color: Color, left: Option<SNode>, right: Option<SNode>) -> serialization::SerializationNode<SNode> {
    serialization::SerializationNode {
        data: SemigroupRbNode::new_with_color_and_semigroup_value(key, (), Height(height), color),
        left: left.map(|n| Box::new(serialization::SerializationNode { data: n, left: None, right: None })),
        right: right.map(|n| Box::new(serialization::SerializationNode { data: n, left: None, right: None })),
    }
}

#[test]
fn semigroup_values_are_checked() {
    let left = SemigroupRbNode::new_with_color_and_semigroup_value(1, (), Height(1), Color::Red);
    let right = SemigroupRbNode::new_with_color_and_semigroup_value(3, (), Height(1), Color::Red);
    let good = serialization::SerializationTree(Some(sg(2, 3, Color::Black, Some(left), Some(right))));
    let tree = good.into_binary_tree();
    assert!(check_semigroup_values(&tree));
    let accepted = SemigroupRbTree::from_binary_tree(tree).unwrap();
    assert_eq!(accepted.root().map(|n| n.semigroup_value().0), Some(3));

    let left = SemigroupRbNode::new_with_color_and_semigroup_value(1, (), Height(1), Color::Red);
    let right = SemigroupRbNode::new_with_color_and_semigroup_value(3, (), Height(1), Color::Red);
    let bad = serialization::SerializationTree(Some(sg(2, 4, Color::Black, Some(left), Some(right))));
    let tree = bad.into_binary_tree();
    assert!(!check_semigroup_values(&tree));
    assert_eq!(SemigroupRbTree::from_binary_tree(tree).err(), Some(SemigroupRbTreeError::SemigroupError));
}

#[test]
fn semigroup_operations() {
    assert_eq!(<Height as TreeSemigroup<i32>>::op(&7, Some(&Height(2)), None), Height(3));
    assert_eq!(<Height as TreeSemigroup<i32>>::op(&7, Some(&Height(2)), Some(&Height(4))), Height(7));
    assert_eq!(CanonInterval::op(&5, Some(&CanonInterval(1, 4)), Some(&CanonInterval(6, 9))), CanonInterval(1, 9));
    assert_eq!(CanonInterval::op(&5, None, Some(&CanonInterval(6, 9))), CanonInterval(5, 9));
    assert_eq!(CanonInterval::op(&5, Some(&CanonInterval(1, 4)), None), CanonInterval(1, 5));
    assert_eq!(CanonInterval::<i32>::op(&5, None, None), CanonInterval(5, 5));
    let node: SNode = SemigroupRbNode::new_with_color(4, (), Color::Red);
    assert_eq!(*node.semigroup_value(), Height(1));
}
