use vstd::prelude::*;
use crate::binary_tree::{BinaryTree, NodeId, lemma_contains_not_null};

verus! {

/// A node of a binary tree written out as nested values: its data and its subtrees.
pub struct SerializationNode<T> {
    pub data: T,
    pub left: Option<Box<SerializationNode<T>>>,
    pub right: Option<Box<SerializationNode<T>>>,
}

/// A binary tree written out as nested values; `None` for an empty tree.
pub struct SerializationTree<T>(pub Option<SerializationNode<T>>);

impl<T> SerializationNode<T> {
    /// The number of nodes.
    pub open spec fn size(self) -> nat
        decreases self,
    {
        1 + match self.left {
            Some(l) => l.size(),
            None => 0,
        } + match self.right {
            Some(r) => r.size(),
            None => 0,
        }
    }
}

impl<T> SerializationTree<T> {
    /// The number of nodes.
    pub open spec fn size(self) -> nat {
        match self.0 {
            Some(n) => n.size(),
            None => 0,
        }
    }
}

/// The node written out with its data taken by value.
pub open spec fn deref_node<T>(s: SerializationNode<&T>) -> SerializationNode<T>
    decreases s,
{
    SerializationNode {
        data: *s.data,
        left: match s.left {
            Some(l) => Some(Box::new(deref_node(*l))),
            None => None,
        },
        right: match s.right {
            Some(r) => Some(Box::new(deref_node(*r))),
            None => None,
        },
    }
}

/// The tree written out with its data taken by value.
pub open spec fn deref_tree<T>(s: SerializationTree<&T>) -> SerializationTree<T> {
    SerializationTree(
        match s.0 {
            Some(n) => Some(deref_node(n)),
            None => None,
        },
    )
}

/// The subtree of `t` below the node `id` is the one written out as `s`: same data at
/// every node, and a missing child exactly where `s` has none.
pub open spec fn represents<T>(t: BinaryTree<T>, id: NodeId, s: SerializationNode<T>) -> bool
    decreases s,
{
    let n = t.node_spec(id);
    &&& t.contains_spec(id)
    &&& n.data_spec() == s.data
    &&& match s.left {
        Some(l) => represents(t, n.left_spec(), *l),
        None => n.left_spec().is_null_spec(),
    }
    &&& match s.right {
        Some(r) => represents(t, n.right_spec(), *r),
        None => n.right_spec().is_null_spec(),
    }
}

/// The part of `t` below its root is the tree written out as `s`.
pub open spec fn represents_tree<T>(t: BinaryTree<T>, s: SerializationTree<T>) -> bool {
    match s.0 {
        Some(n) => represents(t, t.root_spec(), n),
        None => t.root_spec().is_null_spec(),
    }
}

/// The data and child links of every node of `t0` are the same in `t1`.
pub open spec fn keeps_down_links<T>(t0: BinaryTree<T>, t1: BinaryTree<T>) -> bool {
    forall|z: NodeId| #[trigger] t0.contains_spec(z) ==> {
        &&& t1.contains_spec(z)
        &&& t1.node_spec(z).data_spec() == t0.node_spec(z).data_spec()
        &&& t1.node_spec(z).left_spec() == t0.node_spec(z).left_spec()
        &&& t1.node_spec(z).right_spec() == t0.node_spec(z).right_spec()
    }
}

/// Whether a subtree is written out as `s` depends only on the data and child links of
/// its nodes.
pub(crate) proof fn lemma_represents_frame<T>(t0: BinaryTree<T>, t1: BinaryTree<T>, id: NodeId, s: SerializationNode<T>)
    requires
        represents(t0, id, s),
        keeps_down_links(t0, t1),
    ensures
        represents(t1, id, s),
    decreases s,
{
    assert(t0.contains_spec(id));
    let n = t0.node_spec(id);
    match s.left {
        Some(l) => lemma_represents_frame(t0, t1, n.left_spec(), *l),
        None => {},
    }
    match s.right {
        Some(r) => lemma_represents_frame(t0, t1, n.right_spec(), *r),
        None => {},
    }
}

/// A subtree is written out in only one way.
proof fn lemma_represents_unique<T>(t: BinaryTree<T>, id: NodeId, s1: SerializationNode<T>, s2: SerializationNode<T>)
    requires
        t.wf(),
        represents(t, id, s1),
        represents(t, id, s2),
    ensures
        s1 == s2,
    decreases s1,
{
    let n = t.node_spec(id);
    match (s1.left, s2.left) {
        (Some(l1), Some(l2)) => lemma_represents_unique(t, n.left_spec(), *l1, *l2),
        (Some(l1), None) => {
            assert(represents(t, n.left_spec(), *l1));
            lemma_contains_not_null(t, n.left_spec());
        },
        (None, Some(l2)) => {
            assert(represents(t, n.left_spec(), *l2));
            lemma_contains_not_null(t, n.left_spec());
        },
        (None, None) => {},
    }
    match (s1.right, s2.right) {
        (Some(r1), Some(r2)) => lemma_represents_unique(t, n.right_spec(), *r1, *r2),
        (Some(r1), None) => {
            assert(represents(t, n.right_spec(), *r1));
            lemma_contains_not_null(t, n.right_spec());
        },
        (None, Some(r2)) => {
            assert(represents(t, n.right_spec(), *r2));
            lemma_contains_not_null(t, n.right_spec());
        },
        (None, None) => {},
    }
    assert(s1.left == s2.left);
    assert(s1.right == s2.right);
}

/// A tree has exactly one serialization: writing out a tree that was built from a
/// serialization gives back that serialization.
pub proof fn lemma_serialization_unique<T>(t: BinaryTree<T>, s1: SerializationTree<T>, s2: SerializationTree<T>)
    requires
        t.wf(),
        represents_tree(t, s1),
        represents_tree(t, s2),
    ensures
        s1 == s2,
{
    match (s1.0, s2.0) {
        (Some(n1), Some(n2)) => lemma_represents_unique(t, t.root_spec(), n1, n2),
        (Some(n1), None) => lemma_contains_not_null(t, t.root_spec()),
        (None, Some(n2)) => lemma_contains_not_null(t, t.root_spec()),
        (None, None) => {},
    }
    assert(s1.0 == s2.0);
}

impl<'t, T> SerializationNode<&'t T> {
    /// Writes out the subtree below the node `id`.
    fn new(tree: &'t BinaryTree<T>, id: NodeId) -> (r: Self)
        requires
            tree.wf(),
            tree.contains_spec(id),
        ensures
            represents(*tree, id, deref_node(r)),
        decreases tree.rank_spec(id),
    {
        proof {
            assert(tree.node_ok(id));
        }
        let node = tree.node(id).unwrap();
        let left = if node.has_left() {
            Some(Box::new(Self::new(tree, node.left_id())))
        } else {
            None
        };
        let right = if node.has_right() {
            Some(Box::new(Self::new(tree, node.right_id())))
        } else {
            None
        };
        SerializationNode { data: node.data(), left, right }
    }
}

impl<'t, T> SerializationTree<&'t T> {
    /// Writes out the part of the tree below its root.
    pub fn new(tree: &'t BinaryTree<T>) -> (r: Self)
        requires
            tree.wf(),
        ensures
            represents_tree(*tree, deref_tree(r)),
    {
        let root_id = tree.root_id();
        if root_id.is_null() {
            SerializationTree(None)
        } else {
            SerializationTree(Some(SerializationNode::new(tree, root_id)))
        }
    }
}

impl<T> SerializationTree<T> {
    /// Builds the binary tree written out here.
    pub fn into_binary_tree(self) -> (t: BinaryTree<T>)
        requires
            self.size() + 1 < usize::MAX,
        ensures
            t.wf(),
            represents_tree(t, self),
            t.len_spec() == self.size(),
    {
        let mut tree = BinaryTree::new();
        match self.0 {
            Some(node) => {
                let id = tree.build_subtree(node);
                let ghost t0 = tree;
                tree.make_root(id);
                proof {
                    assert(keeps_down_links(t0, tree));
                    lemma_represents_frame(t0, tree, id, node);
                }
                tree
            },
            None => tree,
        }
    }
}

} // verus!
