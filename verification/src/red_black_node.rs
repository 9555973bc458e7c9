use vstd::prelude::*;
use crate::order::{lt, key_order_laws, lemma_key_order, compare_keys, KeyOrder};
use crate::side::Side;

verus! {

/// The color of a node in a red-black tree.
#[derive(Clone, Copy, Debug, PartialEq, Eq, Structural)]
pub enum Color {
    Red,
    Black,
}

impl Color {
    /// Returns the other color.
    #[verifier::allow_in_spec]
    pub fn opposite(&self) -> Color
        returns
            (match self {
                Color::Red => Color::Black,
                Color::Black => Color::Red,
            }),
    {
        match self {
            Color::Red => Color::Black,
            Color::Black => Color::Red,
        }
    }
}

/// Taking the opposite color twice gives the color back, and no color is its own opposite.
pub proof fn lemma_color_opposite_involution(color: Color)
    ensures
        color.opposite().opposite() == color,
        color.opposite() != color,
{
}

/// A lookup after an insertion finds the inserted value, and finds for every other key
/// what it found before.
pub proof fn lemma_get_after_insert<K, V>(m: Map<K, V>, key: K, value: V, other: K)
    ensures
        map_get(m.insert(key, value), key) == Some(value),
        other != key ==> map_get(m.insert(key, value), other) == map_get(m, other),
{
}

/// A lookup after a removal finds nothing for the removed key, and finds for every other
/// key what it found before.
pub proof fn lemma_get_after_remove<K, V>(m: Map<K, V>, key: K, other: K)
    ensures
        map_get(m.remove(key), key) is None,
        other != key ==> map_get(m.remove(key), other) == map_get(m, other),
{
}

/// Removing a key that was just inserted, where it was absent before, gives back the
/// contents from before the insertion.
pub proof fn lemma_remove_after_insert<K, V>(m: Map<K, V>, key: K, value: V)
    requires
        !m.dom().contains(key),
    ensures
        m.insert(key, value).remove(key) == m,
{
    assert(m.insert(key, value).remove(key) =~= m);
}

/// A node of a red-black tree: a key-value pair, a color and two subtrees.
pub struct RedBlackNode<K, V> {
    key: K,
    value: V,
    left: RedBlackTree<K, V>,
    right: RedBlackTree<K, V>,
    color: Color,
}

/// A red-black tree: either a leaf or a node.
pub struct RedBlackTree<K, V> {
    root: Option<Box<RedBlackNode<K, V>>>,
}

/// The tree whose root is the given node.
pub closed spec fn tree_of<K, V>(n: RedBlackNode<K, V>) -> RedBlackTree<K, V> {
    RedBlackTree { root: Some(Box::new(n)) }
}

/// The tree whose root is the node `n` is not a leaf, and holds the key-value pair of `n`
/// together with those of its subtrees, the pair of `n` taking precedence.
pub proof fn lemma_tree_of<K, V>(n: RedBlackNode<K, V>)
    ensures
        !tree_of(n).is_leaf_spec(),
        tree_of(n).root_color_spec() == Some(n.spec_color()),
        tree_of(n).as_map() == n.spec_left().as_map().union_prefer_right(n.spec_right().as_map()).insert(
            n.spec_key(),
            n.spec_value(),
        ),
        tree_of(n).height() == 1 + if n.spec_left().height() >= n.spec_right().height() {
            n.spec_left().height()
        } else {
            n.spec_right().height()
        },
{
}

/// The node `n` with its value replaced keeps its key, color and subtrees.
pub proof fn lemma_with_value<K, V>(n: RedBlackNode<K, V>, value: V)
    ensures
        n.with_value_spec(value).spec_key() == n.spec_key(),
        n.with_value_spec(value).spec_value() == value,
        n.with_value_spec(value).spec_color() == n.spec_color(),
        n.with_value_spec(value).spec_left() == n.spec_left(),
        n.with_value_spec(value).spec_right() == n.spec_right(),
{
}

impl<K, V> RedBlackNode<K, V> {
    /// The node with its value replaced.
    pub closed spec fn with_value_spec(self, value: V) -> RedBlackNode<K, V> {
        RedBlackNode { value, ..self }
    }

    pub closed spec fn spec_key(self) -> K {
        self.key
    }

    pub closed spec fn spec_value(self) -> V {
        self.value
    }

    pub closed spec fn spec_color(self) -> Color {
        self.color
    }

    pub closed spec fn spec_left(self) -> RedBlackTree<K, V> {
        self.left
    }

    pub closed spec fn spec_right(self) -> RedBlackTree<K, V> {
        self.right
    }
}

impl<K, V> RedBlackTree<K, V> {
    /// The key-value pairs stored in the tree.
    pub closed spec fn as_map(self) -> Map<K, V>
        decreases self,
    {
        match self.root {
            None => Map::empty(),
            Some(n) => n.left.as_map().union_prefer_right(n.right.as_map()).insert(n.key, n.value),
        }
    }

    pub closed spec fn is_leaf_spec(self) -> bool {
        self.root is None
    }

    /// The color of the root node, if the tree is not a leaf.
    pub closed spec fn root_color_spec(self) -> Option<Color> {
        match self.root {
            None => None,
            Some(n) => Some(n.color),
        }
    }

    /// The number of nodes on a longest path from the root down.
    pub closed spec fn height(self) -> nat
        decreases self,
    {
        match self.root {
            None => 0,
            Some(n) => 1 + if n.left.height() >= n.right.height() {
                n.left.height()
            } else {
                n.right.height()
            },
        }
    }

    /// The rightmost node of a non-empty tree.
    pub closed spec fn rightmost(self) -> RedBlackNode<K, V>
        decreases self,
    {
        match self.root {
            None => arbitrary(),
            Some(n) => if n.right.root is None {
                *n
            } else {
                n.right.rightmost()
            },
        }
    }

    /// The tree with the key and value of its rightmost node replaced.
    pub closed spec fn with_rightmost(self, key: K, value: V) -> RedBlackTree<K, V>
        decreases self,
    {
        match self.root {
            None => self,
            Some(n) => if n.right.root is None {
                tree_of(RedBlackNode { key: key, value: value, ..*n })
            } else {
                tree_of(RedBlackNode { right: n.right.with_rightmost(key, value), ..*n })
            },
        }
    }
}

impl<K, V> RedBlackTree<K, V> {
    /// A tree is a leaf exactly when it holds no key-value pair.
    pub proof fn lemma_leaf_is_empty(self)
        ensures
            self.is_leaf_spec() <==> self.as_map() == Map::<K, V>::empty(),
            self.is_leaf_spec() <==> self.as_map().dom() == Set::<K>::empty(),
    {
        if self.is_leaf_spec() {
            assert(self.as_map() =~= Map::<K, V>::empty());
        } else {
            let n = self.root.unwrap();
            assert(self.as_map().dom().contains(n.key));
            assert(!Map::<K, V>::empty().dom().contains(n.key));
        }
    }
}

impl<K, V> View for RedBlackTree<K, V> {
    type V = Map<K, V>;

    open spec fn view(&self) -> Map<K, V> {
        self.as_map()
    }
}

impl<K: Ord, V> RedBlackTree<K, V> {
    /// Every node's key is larger than the keys in its left subtree and smaller than
    /// the keys in its right subtree.
    pub closed spec fn is_bst(self) -> bool
        decreases self,
    {
        match self.root {
            None => true,
            Some(n) => {
                &&& n.left.is_bst()
                &&& n.right.is_bst()
                &&& forall|k: K| #[trigger] n.left.as_map().dom().contains(k) ==> lt(k, n.key)
                &&& forall|k: K| #[trigger] n.right.as_map().dom().contains(k) ==> lt(n.key, k)
            },
        }
    }

    /// The number of nodes visited when searching for `key` from the root.
    pub closed spec fn search_len(self, key: K) -> nat
        decreases self,
    {
        match self.root {
            None => 0,
            Some(n) => if key == n.key {
                1
            } else if lt(key, n.key) {
                1 + n.left.search_len(key)
            } else {
                1 + n.right.search_len(key)
            },
        }
    }
}

impl<K: Ord, V> RedBlackTree<K, V> {
    /// The side to which a search for `key` descends from the root; the left side when
    /// the root holds the key.
    pub closed spec fn descent_side(self, key: K) -> Side {
        match self.root {
            Some(n) => if lt(n.key, key) {
                Side::Right
            } else {
                Side::Left
            },
            None => Side::Left,
        }
    }

    /// Zero when the child on the descent side of `key` is red, one otherwise.
    pub closed spec fn removal_flag(self, key: K) -> int {
        match self.root {
            None => 1,
            Some(n) => if n.subtree_color_spec(self.descent_side(key)) == Some(Color::Red) {
                0
            } else {
                1
            },
        }
    }
}

/// The value stored at `k` in `m`, if any.
pub open spec fn map_get<K, V>(m: Map<K, V>, k: K) -> Option<V> {
    if m.dom().contains(k) {
        Some(m[k])
    } else {
        None
    }
}

/// `x` lies on the given side of `k` in the key order.
pub open spec fn on_side<K: Ord>(x: K, k: K, side: Side) -> bool {
    match side {
        Side::Left => lt(x, k),
        Side::Right => lt(k, x),
    }
}


impl<K, V> RedBlackNode<K, V> {
    /// The subtree on the given side.
    pub closed spec fn subtree_spec(self, side: Side) -> RedBlackTree<K, V> {
        match side {
            Side::Left => self.left,
            Side::Right => self.right,
        }
    }

    /// The node with the subtree on the given side replaced.
    pub closed spec fn with_subtree(self, side: Side, t: RedBlackTree<K, V>) -> RedBlackNode<K, V> {
        match side {
            Side::Left => RedBlackNode { left: t, ..self },
            Side::Right => RedBlackNode { right: t, ..self },
        }
    }

    /// The node with its color replaced.
    pub closed spec fn with_color(self, c: Color) -> RedBlackNode<K, V> {
        RedBlackNode { color: c, ..self }
    }

    /// The node after rotating the edge to its child on `side`: that child becomes the
    /// root, and the old root becomes its child on the other side. Each node keeps its
    /// key, value and color.
    pub closed spec fn rotated(self, side: Side) -> RedBlackNode<K, V> {
        let c = self.subtree_spec(side).root.unwrap();
        match side {
            Side::Left => RedBlackNode {
                key: c.key,
                value: c.value,
                color: c.color,
                left: c.left,
                right: tree_of(RedBlackNode { left: c.right, ..self }),
            },
            Side::Right => RedBlackNode {
                key: c.key,
                value: c.value,
                color: c.color,
                right: c.right,
                left: tree_of(RedBlackNode { right: c.left, ..self }),
            },
        }
    }

    /// Returns the subtree on the given side.
    fn subtree(&self, side: Side) -> (r: &RedBlackTree<K, V>)
        ensures
            *r == self.subtree_spec(side),
    {
        match side {
            Side::Left => &self.left,
            Side::Right => &self.right,
        }
    }

    /// Replaces the subtree on the given side, returning the old one.
    fn replace_subtree(&mut self, side: Side, tree: RedBlackTree<K, V>) -> (r: RedBlackTree<K, V>)
        ensures
            r == old(self).subtree_spec(side),
            *final(self) == old(self).with_subtree(side, tree),
    {
        let mut tree = tree;
        match side {
            Side::Left => std::mem::swap(&mut self.left, &mut tree),
            Side::Right => std::mem::swap(&mut self.right, &mut tree),
        }
        tree
    }

    /// Detaches the subtree on the given side, leaving a leaf there.
    fn detach_subtree(&mut self, side: Side) -> (r: RedBlackTree<K, V>)
        ensures
            r == old(self).subtree_spec(side),
            *final(self) == old(self).with_subtree(side, RedBlackTree { root: None }),
    {
        self.replace_subtree(side, RedBlackTree::new_leaf())
    }

    /// Rotates the edge to the child on `side`, making that child the new root.
    /// Returns whether a rotation happened: it does not when that child is a leaf.
    fn rotate_edge(&mut self, side: Side) -> (r: bool)
        ensures
            r == !old(self).subtree_spec(side).is_leaf_spec(),
            r ==> *final(self) == old(self).rotated(side),
            !r ==> *final(self) == *old(self),
    {
        let new_tree = self.detach_subtree(side);
        match new_tree.root {
            Some(new_root) => {
                let mut new_root = new_root;
                let rotating_subtree = new_root.detach_subtree(side.opposite());
                self.replace_subtree(side, rotating_subtree);
                std::mem::swap(self, &mut *new_root);
                self.replace_subtree(side.opposite(), RedBlackTree { root: Some(new_root) });
                true
            },
            None => {
                self.replace_subtree(side, RedBlackTree { root: None });
                false
            },
        }
    }
}

impl<K, V> RedBlackTree<K, V> {
    /// A tree without nodes.
    pub fn new_leaf() -> (t: Self)
        ensures
            t.is_leaf_spec(),
            t@ == Map::<K, V>::empty(),
            t.height() == 0,
    {
        RedBlackTree { root: None }
    }
}

impl<K, V> RedBlackNode<K, V> {
    /// The key stored at this node.
    pub fn key(&self) -> (r: &K)
        ensures
            *r == self.spec_key(),
    {
        &self.key
    }

    /// The value stored at this node.
    pub fn value(&self) -> (r: &V)
        ensures
            *r == self.spec_value(),
    {
        &self.value
    }

    /// The value stored at this node, for modification.
    pub fn value_mut(&mut self) -> (r: &mut V)
        ensures
            *r == old(self).spec_value(),
            *final(self) == old(self).with_value_spec(*final(r)),
            final(self).spec_key() == old(self).spec_key(),
            final(self).spec_value() == *final(r),
            final(self).spec_color() == old(self).spec_color(),
            final(self).spec_left() == old(self).spec_left(),
            final(self).spec_right() == old(self).spec_right(),
    {
        &mut self.value
    }

    /// The key and the value stored at this node.
    pub fn data(&self) -> (r: (&K, &V))
        ensures
            *r.0 == self.spec_key(),
            *r.1 == self.spec_value(),
    {
        (&self.key, &self.value)
    }

    /// The left subtree.
    pub fn left(&self) -> (r: &RedBlackTree<K, V>)
        ensures
            *r == self.spec_left(),
    {
        &self.left
    }

    /// The right subtree.
    pub fn right(&self) -> (r: &RedBlackTree<K, V>)
        ensures
            *r == self.spec_right(),
    {
        &self.right
    }

    /// The color of this node.
    pub fn color(&self) -> (r: Color)
        ensures
            r == self.spec_color(),
    {
        self.color
    }
}

impl<K, V> RedBlackTree<K, V> {
    /// An empty tree.
    pub fn new() -> (t: Self)
        ensures
            t.is_leaf_spec(),
            t@ == Map::<K, V>::empty(),
            t.height() == 0,
    {
        Self::new_leaf()
    }

    /// The root node, if the tree is not a leaf.
    pub fn root(&self) -> (r: Option<&RedBlackNode<K, V>>)
        ensures
            r is None <==> self.is_leaf_spec(),
            r is Some ==> tree_of(*r.unwrap()) == *self,
    {
        match &self.root {
            Some(n) => Some(&**n),
            None => None,
        }
    }

    /// Whether the tree has no nodes.
    pub fn is_leaf(&self) -> (r: bool)
        ensures
            r == self.is_leaf_spec(),
            r == (self@ == Map::<K, V>::empty()),
    {
        proof {
            self.lemma_leaf_is_empty();
        }
        self.root.is_none()
    }
}


/// Rotating an edge of a search tree keeps its contents and its search order.
proof fn lemma_rotated<K: Ord, V>(n: RedBlackNode<K, V>, side: Side)
    requires
        key_order_laws::<K>(),
        !n.subtree_spec(side).is_leaf_spec(),
        tree_of(n).is_bst(),
    ensures
        tree_of(n.rotated(side)).is_bst(),
        tree_of(n.rotated(side)).as_map() == tree_of(n).as_map(),
{
    lemma_key_order::<K>();
    let r = n.rotated(side);
    let c = *n.subtree_spec(side).root.unwrap();
    let inner = *r.subtree_spec(side.opposite()).root.unwrap();
    assert(n.subtree_spec(side) == tree_of(c));
    assert(tree_of(c).is_bst());
    assert(r.subtree_spec(side.opposite()) == tree_of(inner));
    assert(inner.subtree_spec(side) == c.subtree_spec(side.opposite()));
    assert(inner.subtree_spec(side.opposite()) == n.subtree_spec(side.opposite()));
    assert forall|k: K| #[trigger] c.subtree_spec(side.opposite()).as_map().dom().contains(k)
        implies n.subtree_spec(side).as_map().dom().contains(k) by {
        assert(tree_of(c).as_map().dom().contains(k));
    }
    assert(tree_of(inner).is_bst());
    assert forall|k: K| #[trigger] tree_of(inner).as_map().dom().contains(k) implies
        (side == Side::Left ==> lt(c.key, k)) && (side == Side::Right ==> lt(k, c.key)) by {
        assert(tree_of(c).as_map().dom().contains(c.key));
        if n.subtree_spec(side.opposite()).as_map().dom().contains(k) {
            assert(tree_of(n).is_bst());
        } else if c.subtree_spec(side.opposite()).as_map().dom().contains(k) {
            assert(tree_of(c).is_bst());
        } else {
            assert(k == n.key);
        }
    }
    assert(tree_of(r).is_bst());
    let mc = tree_of(c).as_map();
    let mi = tree_of(inner).as_map();
    assert(n.subtree_spec(side).as_map() == mc);
    assert forall|k: K| #[trigger] tree_of(n).as_map().dom().contains(k) <==> tree_of(r).as_map().dom().contains(k) by {
        assert(mc.dom().contains(k) <==> (k == c.key || c.left.as_map().dom().contains(k) || c.right.as_map().dom().contains(k)));
        assert(mi.dom().contains(k) <==> (k == n.key || inner.left.as_map().dom().contains(k) || inner.right.as_map().dom().contains(k)));
    }
    assert forall|k: K| #[trigger] tree_of(n).as_map().dom().contains(k) implies tree_of(n).as_map()[k] == tree_of(r).as_map()[k] by {
        assert(mc.dom().contains(k) <==> (k == c.key || c.left.as_map().dom().contains(k) || c.right.as_map().dom().contains(k)));
        assert(mi.dom().contains(k) <==> (k == n.key || inner.left.as_map().dom().contains(k) || inner.right.as_map().dom().contains(k)));
        assert(tree_of(c).as_map().dom().contains(c.key));
        if c.left.as_map().dom().contains(k) {
            assert(tree_of(c).is_bst());
        }
        if c.right.as_map().dom().contains(k) {
            assert(tree_of(c).is_bst());
        }
    }
    assert(tree_of(n).as_map() =~= tree_of(r).as_map());
}


/// Recoloring the root of a tree changes neither its contents, its search order nor
/// its search paths.
proof fn lemma_recolor_root<K: Ord, V>(n: RedBlackNode<K, V>, c: Color)
    ensures
        tree_of(n.with_color(c)).as_map() == tree_of(n).as_map(),
        tree_of(n.with_color(c)).is_bst() == tree_of(n).is_bst(),
        forall|x: K| #[trigger] tree_of(n.with_color(c)).search_len(x) == tree_of(n).search_len(x),
{
}

/// Rotating the edge to the child on `side` shortens the search paths of the keys on
/// that side of the child by one, and lengthens no search path of a key on that side
/// of the root.
proof fn lemma_rotated_search_len<K: Ord, V>(n: RedBlackNode<K, V>, side: Side, x: K)
    requires
        key_order_laws::<K>(),
        !n.subtree_spec(side).is_leaf_spec(),
        on_side(x, n.key, side),
    ensures
        tree_of(n.rotated(side)).search_len(x) <= tree_of(n).search_len(x),
        (x == n.subtree_spec(side).root.unwrap().key || on_side(x, n.subtree_spec(side).root.unwrap().key, side))
            ==> tree_of(n.rotated(side)).search_len(x) + 1 == tree_of(n).search_len(x),
{
    lemma_key_order::<K>();
    let r = n.rotated(side);
    let c = *n.subtree_spec(side).root.unwrap();
    let inner = *r.subtree_spec(side.opposite()).root.unwrap();
    assert(n.subtree_spec(side) == tree_of(c));
    assert(r.subtree_spec(side.opposite()) == tree_of(inner));
    assert(tree_of(n).search_len(x) == 1 + tree_of(c).search_len(x));
    if x == c.key {
    } else if on_side(x, c.key, side) {
        assert(tree_of(c).search_len(x) == 1 + c.subtree_spec(side).search_len(x));
    } else {
        assert(tree_of(c).search_len(x) == 1 + c.subtree_spec(side.opposite()).search_len(x));
        assert(tree_of(inner).search_len(x) == 1 + c.subtree_spec(side.opposite()).search_len(x));
    }
}


impl<K, V> RedBlackNode<K, V> {
    /// The node after rotating the edge on `side` for an insertion: the new root is
    /// colored black and the old root, now its child, red.
    pub closed spec fn rotated_for_insertion(self, side: Side) -> RedBlackNode<K, V> {
        let r = self.rotated(side);
        let inner = *r.subtree_spec(side.opposite()).root.unwrap();
        r.with_color(Color::Black).with_subtree(side.opposite(), tree_of(inner.with_color(Color::Red)))
    }

    /// Both children exist and are red.
    pub closed spec fn has_two_red_children(self) -> bool {
        &&& self.left.root is Some
        &&& self.right.root is Some
        &&& self.left.root.unwrap().color == Color::Red
        &&& self.right.root.unwrap().color == Color::Red
    }

    /// The node after the color swap of the top-down insertion.
    pub closed spec fn color_swapped(self) -> RedBlackNode<K, V> {
        if self.has_two_red_children() {
            let l = *self.left.root.unwrap();
            let r = *self.right.root.unwrap();
            RedBlackNode {
                color: Color::Red,
                left: tree_of(l.with_color(Color::Black)),
                right: tree_of(r.with_color(Color::Black)),
                ..self
            }
        } else {
            self
        }
    }

    /// The child on `side1` and its child on `side2` both exist and are red.
    pub closed spec fn has_red_violation(self, side1: Side, side2: Side) -> bool {
        let c = self.subtree_spec(side1).root;
        &&& c is Some
        &&& c.unwrap().color == Color::Red
        &&& c.unwrap().subtree_spec(side2).root is Some
        &&& c.unwrap().subtree_spec(side2).root.unwrap().color == Color::Red
    }

    /// The node after fixing a red violation between its child on `side1` and that
    /// child's child on `side2`, by one or two rotations.
    pub closed spec fn violation_fixed(self, side1: Side, side2: Side) -> RedBlackNode<K, V> {
        if side1 == side2 {
            self.rotated_for_insertion(side1)
        } else {
            let c = *self.subtree_spec(side1).root.unwrap();
            self.with_subtree(side1, tree_of(c.rotated_for_insertion(side2))).rotated_for_insertion(side1)
        }
    }

    /// A node without children.
    fn new_with_color(key: K, value: V, color: Color) -> (n: Self)
        ensures
            n.key == key,
            n.value == value,
            n.color == color,
            n.left.is_leaf_spec(),
            n.right.is_leaf_spec(),
    {
        RedBlackNode { key, value, left: RedBlackTree::new_leaf(), right: RedBlackTree::new_leaf(), color }
    }

    /// Colors the root of the tree, if there is one.
    fn set_root_color(tree: &mut RedBlackTree<K, V>, color: Color)
        ensures
            old(tree).root is None ==> *final(tree) == *old(tree),
            old(tree).root is Some ==> *final(tree) == tree_of(old(tree).root.unwrap().with_color(color)),
    {
        match tree.root.take() {
            Some(root) => {
                let mut root = root;
                root.color = color;
                tree.root = Some(root);
            },
            None => {},
        }
    }

    /// Recolors the root of the subtree on `side`, if there is one.
    fn set_subtree_color(&mut self, side: Side, color: Color)
        ensures
            old(self).subtree_spec(side).root is None ==> *final(self) == *old(self),
            old(self).subtree_spec(side).root is Some ==> *final(self) == old(self).with_subtree(
                side,
                tree_of(old(self).subtree_spec(side).root.unwrap().with_color(color)),
            ),
    {
        let mut t = self.detach_subtree(side);
        Self::set_root_color(&mut t, color);
        self.replace_subtree(side, t);
        assert(old(self).subtree_spec(side).root is None ==> *self =~= *old(self));
    }

    /// Rotates the edge on `side`, coloring the new root black and the old root red.
    fn rotate_edge_insertion(&mut self, side: Side) -> (r: bool)
        ensures
            r == !old(self).subtree_spec(side).is_leaf_spec(),
            r ==> *final(self) == old(self).rotated_for_insertion(side),
            !r ==> *final(self) == *old(self),
    {
        if self.rotate_edge(side) {
            self.color = Color::Black;
            self.set_subtree_color(side.opposite(), Color::Red);
            true
        } else {
            false
        }
    }

    /// Swaps the colors of the node and its children if both children exist and are red.
    fn color_swap(&mut self)
        ensures
            *final(self) == old(self).color_swapped(),
    {
        let both_red = match (&self.left.root, &self.right.root) {
            (Some(l), Some(r)) => l.color == Color::Red && r.color == Color::Red,
            _ => false,
        };
        if both_red {
            self.color = Color::Red;
            self.set_subtree_color(Side::Left, Color::Black);
            self.set_subtree_color(Side::Right, Color::Black);
        }
    }

    /// Fixes a red-red edge between the child on `side1` and its child on `side2`.
    /// Returns whether the tree's structure changed.
    fn fix_local_violation(&mut self, side1: Side, side2: Side) -> (r: bool)
        ensures
            r == old(self).has_red_violation(side1, side2),
            r ==> *final(self) == old(self).violation_fixed(side1, side2),
            !r ==> *final(self) == *old(self),
    {
        let violation = match &self.subtree(side1).root {
            Some(child) => child.color == Color::Red && match &child.subtree(side2).root {
                Some(grandchild) => grandchild.color == Color::Red,
                None => false,
            },
            None => false,
        };
        if !violation {
            return false;
        }
        if side1 == side2 {
            self.rotate_edge_insertion(side1)
        } else {
            let child_tree = self.detach_subtree(side1);
            let mut child = child_tree.root.unwrap();
            let rotated = child.rotate_edge_insertion(side2);
            self.replace_subtree(side1, RedBlackTree { root: Some(child) });
            if rotated {
                self.rotate_edge_insertion(side1);
                true
            } else {
                false
            }
        }
    }
}


/// Recoloring the root of a subtree changes neither the contents, the search order nor
/// the search paths of the whole tree.
proof fn lemma_recolor_child<K: Ord, V>(n: RedBlackNode<K, V>, side: Side, c: Color)
    requires
        n.subtree_spec(side).root is Some,
    ensures
        ({
            let m = n.with_subtree(side, tree_of(n.subtree_spec(side).root.unwrap().with_color(c)));
            &&& tree_of(m).as_map() == tree_of(n).as_map()
            &&& tree_of(m).is_bst() == tree_of(n).is_bst()
            &&& forall|x: K| #[trigger] tree_of(m).search_len(x) == tree_of(n).search_len(x)
        }),
{
    let child = *n.subtree_spec(side).root.unwrap();
    assert(n.subtree_spec(side) == tree_of(child));
    lemma_recolor_root(child, c);
    let m = n.with_subtree(side, tree_of(child.with_color(c)));
    assert(tree_of(m).as_map() =~= tree_of(n).as_map());
    assert forall|x: K| #[trigger] tree_of(m).search_len(x) == tree_of(n).search_len(x) by {
        assert(tree_of(child.with_color(c)).search_len(x) == tree_of(child).search_len(x));
    }
}

/// The color swap changes neither the contents, the search order nor the search paths.
proof fn lemma_color_swapped<K: Ord, V>(n: RedBlackNode<K, V>)
    ensures
        tree_of(n.color_swapped()).as_map() == tree_of(n).as_map(),
        tree_of(n.color_swapped()).is_bst() == tree_of(n).is_bst(),
        forall|x: K| #[trigger] tree_of(n.color_swapped()).search_len(x) == tree_of(n).search_len(x),
{
    if n.has_two_red_children() {
        let n1 = n.with_color(Color::Red);
        lemma_recolor_root(n, Color::Red);
        lemma_recolor_child(n1, Side::Left, Color::Black);
        let n2 = n1.with_subtree(Side::Left, tree_of(n1.left.root.unwrap().with_color(Color::Black)));
        lemma_recolor_child(n2, Side::Right, Color::Black);
        let n3 = n2.with_subtree(Side::Right, tree_of(n2.right.root.unwrap().with_color(Color::Black)));
        assert(n3 == n.color_swapped());
    }
}

/// A rotation for an insertion keeps the contents and the search order, and shortens
/// the search paths of the keys on the rotated side of the child.
proof fn lemma_rotated_for_insertion<K: Ord, V>(n: RedBlackNode<K, V>, side: Side)
    requires
        key_order_laws::<K>(),
        !n.subtree_spec(side).is_leaf_spec(),
        tree_of(n).is_bst(),
    ensures
        tree_of(n.rotated_for_insertion(side)).is_bst(),
        tree_of(n.rotated_for_insertion(side)).as_map() == tree_of(n).as_map(),
        forall|x: K| on_side(x, n.key, side) ==>
            #[trigger] tree_of(n.rotated_for_insertion(side)).search_len(x) <= tree_of(n).search_len(x),
        forall|x: K| on_side(x, n.key, side) && (x == n.subtree_spec(side).root.unwrap().key
            || on_side(x, n.subtree_spec(side).root.unwrap().key, side)) ==>
            #[trigger] tree_of(n.rotated_for_insertion(side)).search_len(x) + 1 == tree_of(n).search_len(x),
{
    lemma_rotated(n, side);
    let r = n.rotated(side);
    let r1 = r.with_color(Color::Black);
    lemma_recolor_root(r, Color::Black);
    assert(r1.subtree_spec(side.opposite()).root is Some);
    lemma_recolor_child(r1, side.opposite(), Color::Red);
    assert forall|x: K| on_side(x, n.key, side) implies
        #[trigger] tree_of(n.rotated_for_insertion(side)).search_len(x) <= tree_of(n).search_len(x)
        && ((x == n.subtree_spec(side).root.unwrap().key || on_side(x, n.subtree_spec(side).root.unwrap().key, side))
            ==> tree_of(n.rotated_for_insertion(side)).search_len(x) + 1 == tree_of(n).search_len(x)) by {
        lemma_rotated_search_len(n, side, x);
    }
}


/// Replacing a subtree by one with the same contents and search order keeps the
/// contents and the search order of the whole tree.
proof fn lemma_replace_subtree<K: Ord, V>(n: RedBlackNode<K, V>, side: Side, t: RedBlackTree<K, V>)
    requires
        key_order_laws::<K>(),
        t.as_map() == n.subtree_spec(side).as_map(),
        t.is_bst() == n.subtree_spec(side).is_bst(),
    ensures
        tree_of(n.with_subtree(side, t)).as_map() == tree_of(n).as_map(),
        tree_of(n.with_subtree(side, t)).is_bst() == tree_of(n).is_bst(),
        forall|x: K| on_side(x, n.key, side) ==> #[trigger] tree_of(n.with_subtree(side, t)).search_len(x)
            == 1 + t.search_len(x),
{
    lemma_key_order::<K>();
    let m = n.with_subtree(side, t);
    assert(tree_of(m).as_map() =~= tree_of(n).as_map());
}


/// Fixing a red violation keeps the contents and the search order, and shortens the
/// search path of every key below the violating grandchild's parent on its side.
proof fn lemma_violation_fixed<K: Ord, V>(n: RedBlackNode<K, V>, side1: Side, side2: Side)
    requires
        key_order_laws::<K>(),
        n.has_red_violation(side1, side2),
        tree_of(n).is_bst(),
    ensures
        tree_of(n.violation_fixed(side1, side2)).is_bst(),
        tree_of(n.violation_fixed(side1, side2)).as_map() == tree_of(n).as_map(),
        forall|x: K| on_side(x, n.key, side1) && on_side(x, n.subtree_spec(side1).root.unwrap().key, side2) ==>
            #[trigger] tree_of(n.violation_fixed(side1, side2)).search_len(x) < tree_of(n).search_len(x),
{
    lemma_key_order::<K>();
    let c = *n.subtree_spec(side1).root.unwrap();
    assert(n.subtree_spec(side1) == tree_of(c));
    if side1 == side2 {
        lemma_rotated_for_insertion(n, side1);
    } else {
        assert(tree_of(c).is_bst());
        let g = *c.subtree_spec(side2).root.unwrap();
        lemma_rotated_for_insertion(c, side2);
        let c2 = c.rotated_for_insertion(side2);
        assert(c2.key == g.key);
        lemma_replace_subtree(n, side1, tree_of(c2));
        let n1 = n.with_subtree(side1, tree_of(c2));
        assert(n1.subtree_spec(side1) == tree_of(c2));
        lemma_rotated_for_insertion(n1, side1);
        assert(n1.rotated_for_insertion(side1) == n.violation_fixed(side1, side2));
        assert forall|x: K| on_side(x, n.key, side1) && on_side(x, c.key, side2) implies
            #[trigger] tree_of(n.violation_fixed(side1, side2)).search_len(x) < tree_of(n).search_len(x) by {
            assert(tree_of(n).search_len(x) == 1 + tree_of(c).search_len(x));
            assert(tree_of(n1).search_len(x) == 1 + tree_of(c2).search_len(x));
            assert(tree_of(c2).search_len(x) <= tree_of(c).search_len(x));
            assert(tree_of(n1.rotated_for_insertion(side1)).search_len(x) <= tree_of(n1).search_len(x));
            if x == g.key || on_side(x, g.key, side2) {
                assert(tree_of(c2).search_len(x) + 1 == tree_of(c).search_len(x));
            } else {
                assert(on_side(x, c2.key, side1));
                assert(tree_of(n1.rotated_for_insertion(side1)).search_len(x) + 1 == tree_of(n1).search_len(x));
            }
        }
    }
}


/// Inserting into the subtree on the side of the key inserts into the whole search tree.
proof fn lemma_insert_in_subtree<K: Ord, V>(n: RedBlackNode<K, V>, side: Side, t: RedBlackTree<K, V>, key: K, value: V)
    requires
        key_order_laws::<K>(),
        tree_of(n).is_bst(),
        on_side(key, n.key, side),
        t.as_map() == n.subtree_spec(side).as_map().insert(key, value),
        t.is_bst(),
    ensures
        tree_of(n.with_subtree(side, t)).as_map() == tree_of(n).as_map().insert(key, value),
        tree_of(n.with_subtree(side, t)).is_bst(),
{
    lemma_key_order::<K>();
    let m = n.with_subtree(side, t);
    let other = n.subtree_spec(side.opposite());
    assert(m.subtree_spec(side.opposite()) == other);
    assert(!other.as_map().dom().contains(key));
    assert(key != n.key);
    assert forall|k: K| #[trigger] t.as_map().dom().contains(k) implies on_side(k, n.key, side) by {
        if k != key {
            assert(n.subtree_spec(side).as_map().dom().contains(k));
        }
    }
    assert(tree_of(m).as_map() =~= tree_of(n).as_map().insert(key, value));
}

/// In a search tree, a key on one side of the root is found in the subtree on that side.
proof fn lemma_get_in_subtree<K: Ord, V>(n: RedBlackNode<K, V>, side: Side, key: K)
    requires
        key_order_laws::<K>(),
        tree_of(n).is_bst(),
        on_side(key, n.key, side),
    ensures
        map_get(tree_of(n).as_map(), key) == map_get(n.subtree_spec(side).as_map(), key),
{
    lemma_key_order::<K>();
    let other = n.subtree_spec(side.opposite());
    assert(!other.as_map().dom().contains(key));
    assert(key != n.key);
}

/// Replacing the value at the root updates the contents at the root's key.
proof fn lemma_set_root_value<K: Ord, V>(n: RedBlackNode<K, V>, value: V)
    ensures
        tree_of(RedBlackNode { value: value, ..n }).as_map() == tree_of(n).as_map().insert(n.key, value),
        tree_of(RedBlackNode { value: value, ..n }).is_bst() == tree_of(n).is_bst(),
        map_get(tree_of(n).as_map(), n.key) == Some(n.value),
{
    assert(tree_of(RedBlackNode { value: value, ..n }).as_map() =~= tree_of(n).as_map().insert(n.key, value));
}


impl<K: Ord, V> RedBlackNode<K, V> {
    /// The top-down walk of an insertion below the root of `current`, where the key lies
    /// on `side1` of that root. Colors are swapped on the way down and red violations
    /// are fixed by rotations at the grandparent of the node being looked at.
    fn insert_below(current: &mut RedBlackTree<K, V>, side1: Side, key: K, value: V) -> (r: Option<V>)
        requires
            key_order_laws::<K>(),
            old(current).root is Some,
            old(current).is_bst(),
            on_side(key, old(current).root.unwrap().key, side1),
        ensures
            final(current).root is Some,
            final(current).is_bst(),
            final(current)@ == old(current)@.insert(key, value),
            r == map_get(old(current)@, key),
        decreases old(current).search_len(key),
    {
        proof {
            lemma_key_order::<K>();
        }
        let ghost n0 = *current.root.unwrap();
        assert(*old(current) == tree_of(n0));
        let mut root = current.root.take().unwrap();
        let child_tree = root.detach_subtree(side1);
        proof {
            lemma_get_in_subtree(n0, side1, key);
        }
        if child_tree.root.is_none() {
            let leaf = RedBlackTree { root: Some(Box::new(Self::new_with_color(key, value, Color::Red))) };
            assert(leaf.as_map() =~= child_tree.as_map().insert(key, value));
            root.replace_subtree(side1, leaf);
            proof {
                lemma_insert_in_subtree(n0, side1, leaf, key, value);
            }
            current.root = Some(root);
            return None;
        }
        let mut child = child_tree.root.unwrap();
        let ghost c0 = *child;
        assert(child_tree == tree_of(c0));
        assert(tree_of(c0).is_bst());
        child.color_swap();
        let ghost c1 = *child;
        proof {
            lemma_color_swapped(c0);
        }
        let side2 = match compare_keys(&key, &child.key) {
            KeyOrder::Less => Side::Left,
            KeyOrder::Greater => Side::Right,
            KeyOrder::Equal => {
                let mut old_value = value;
                std::mem::swap(&mut child.value, &mut old_value);
                proof {
                    lemma_set_root_value(c1, value);
                    assert(*child == RedBlackNode { value: value, ..c1 });
                    lemma_set_root_value(c0, c0.value);
                    lemma_insert_in_subtree(n0, side1, tree_of(*child), key, value);
                }
                root.replace_subtree(side1, RedBlackTree { root: Some(child) });
                current.root = Some(root);
                return Some(old_value);
            },
        };
        let gc_tree = child.detach_subtree(side2);
        proof {
            lemma_get_in_subtree(c1, side2, key);
            lemma_get_in_subtree(c0, side2, key);
        }
        if gc_tree.root.is_none() {
            let leaf = RedBlackTree { root: Some(Box::new(Self::new_with_color(key, value, Color::Red))) };
            assert(leaf.as_map() =~= gc_tree.as_map().insert(key, value));
            child.replace_subtree(side2, leaf);
            proof {
                lemma_insert_in_subtree(c1, side2, leaf, key, value);
                lemma_insert_in_subtree(n0, side1, tree_of(*child), key, value);
            }
            root.replace_subtree(side1, RedBlackTree { root: Some(child) });
            let ghost n1 = *root;
            if root.fix_local_violation(side1, side2) {
                proof {
                    lemma_violation_fixed(n1, side1, side2);
                }
            }
            current.root = Some(root);
            return None;
        }
        let mut grandchild = gc_tree.root.unwrap();
        let ghost g0 = *grandchild;
        assert(gc_tree == tree_of(g0));
        grandchild.color_swap();
        proof {
            lemma_color_swapped(g0);
        }
        child.replace_subtree(side2, RedBlackTree { root: Some(grandchild) });
        let ghost c2 = *child;
        proof {
            assert(tree_of(c1).is_bst());
            assert(c1.subtree_spec(side2) == tree_of(g0));
            lemma_replace_subtree(c1, side2, tree_of(*grandchild));
            assert(c2 == c1.with_subtree(side2, tree_of(*grandchild)));
            lemma_replace_subtree(n0, side1, tree_of(c2));
            assert(tree_of(c1).search_len(key) == 1 + tree_of(g0).search_len(key));
            assert(tree_of(c0).search_len(key) == 1 + tree_of(g0).search_len(key));
            assert(tree_of(n0).search_len(key) == 1 + tree_of(c0).search_len(key));
        }
        root.replace_subtree(side1, RedBlackTree { root: Some(child) });
        let ghost n2 = *root;
        assert(n2 == n0.with_subtree(side1, tree_of(c2)));
        assert(tree_of(n2).search_len(key) == tree_of(n0).search_len(key));
        if root.fix_local_violation(side1, side2) {
            proof {
                lemma_violation_fixed(n2, side1, side2);
                assert(n2.subtree_spec(side1).root.unwrap().key == c0.key);
            }
            let ghost n3 = *root;
            current.root = Some(root);
            assert(*current == tree_of(n3));
            let mut new_root = current.root.take().unwrap();
            match compare_keys(&key, &new_root.key) {
                KeyOrder::Less => {
                    current.root = Some(new_root);
                    Self::insert_below(current, Side::Left, key, value)
                },
                KeyOrder::Greater => {
                    current.root = Some(new_root);
                    Self::insert_below(current, Side::Right, key, value)
                },
                KeyOrder::Equal => {
                    let mut old_value = value;
                    std::mem::swap(&mut new_root.value, &mut old_value);
                    proof {
                        lemma_set_root_value(n3, value);
                    }
                    current.root = Some(new_root);
                    Some(old_value)
                },
            }
        } else {
            let mut subtree = root.detach_subtree(side1);
            assert(subtree == tree_of(c2));
            let r = Self::insert_below(&mut subtree, side2, key, value);
            proof {
                lemma_insert_in_subtree(n2, side1, subtree, key, value);
                lemma_get_in_subtree(n2, side1, key);
            }
            root.replace_subtree(side1, subtree);
            current.root = Some(root);
            r
        }
    }

    /// Inserts the key-value pair into the tree.
    /// If the key was not present in the tree yet, None is returned.
    /// Otherwise, the value stored at the given key is updated, and the old value is returned.
    pub fn insert(tree: &mut RedBlackTree<K, V>, key: K, value: V) -> (r: Option<V>)
        requires
            key_order_laws::<K>(),
            old(tree).is_bst(),
        ensures
            final(tree).is_bst(),
            final(tree)@ == old(tree)@.insert(key, value),
            r == map_get(old(tree)@, key),
            r is None ==> final(tree).root_color_spec() == Some(Color::Black),
            old(tree).is_leaf_spec() ==> final(tree).height() == 1,
    {
        proof {
            lemma_key_order::<K>();
        }
        if tree.root.is_none() {
            *tree = RedBlackTree { root: Some(Box::new(Self::new_with_color(key, value, Color::Black))) };
            assert(tree@ =~= old(tree)@.insert(key, value));
            assert(tree.root.unwrap().left.height() == 0);
            assert(tree.root.unwrap().right.height() == 0);
            return None;
        }
        let ghost n0 = *tree.root.unwrap();
        assert(*old(tree) == tree_of(n0));
        let mut root = tree.root.take().unwrap();
        let side1 = match compare_keys(&key, &root.key) {
            KeyOrder::Less => Side::Left,
            KeyOrder::Greater => Side::Right,
            KeyOrder::Equal => {
                let mut old_value = value;
                std::mem::swap(&mut root.value, &mut old_value);
                proof {
                    lemma_set_root_value(n0, value);
                }
                tree.root = Some(root);
                return Some(old_value);
            },
        };
        root.color_swap();
        proof {
            lemma_color_swapped(n0);
        }
        tree.root = Some(root);
        let r = Self::insert_below(tree, side1, key, value);
        if r.is_none() {
            let ghost t1 = *tree;
            Self::set_root_color(tree, Color::Black);
            proof {
                lemma_recolor_root(*t1.root.unwrap(), Color::Black);
                assert(t1 == tree_of(*t1.root.unwrap()));
            }
        }
        r
    }
}


/// The rightmost node of a search tree holds its largest key.
proof fn lemma_rightmost_max<K: Ord, V>(t: RedBlackTree<K, V>)
    requires
        key_order_laws::<K>(),
        t.root is Some,
        t.is_bst(),
    ensures
        t.as_map().dom().contains(t.rightmost().key),
        t.as_map()[t.rightmost().key] == t.rightmost().value,
        forall|k: K| #[trigger] t.as_map().dom().contains(k) && k != t.rightmost().key ==> lt(k, t.rightmost().key),
    decreases t,
{
    lemma_key_order::<K>();
    let n = *t.root.unwrap();
    if n.right.root is Some {
        lemma_rightmost_max(n.right);
        assert(t.rightmost() == n.right.rightmost());
        let rk = n.right.rightmost().key;
        assert(n.right.as_map().dom().contains(rk));
        assert(lt(n.key, rk));
        assert(rk != n.key);
        assert(t.as_map()[rk] == n.right.as_map()[rk]);
        assert forall|k: K| #[trigger] t.as_map().dom().contains(k) && k != rk implies lt(k, rk) by {
            if n.left.as_map().dom().contains(k) {
                assert(lt(k, n.key));
                assert(lt(n.key, rk));
            } else if k == n.key {
            } else {
            }
        }
    } else {
        assert(n.right.as_map() =~= Map::empty());
        assert(t.rightmost() == n);
        assert forall|k: K| #[trigger] t.as_map().dom().contains(k) && k != n.key implies lt(k, n.key) by {
            assert(n.left.as_map().dom().contains(k));
        }
    }
}

/// Replacing the data of the rightmost node of a search tree by a key larger than all
/// its other keys gives a search tree with that key in place of the largest one.
proof fn lemma_with_rightmost<K: Ord, V>(t: RedBlackTree<K, V>, key: K, value: V)
    requires
        key_order_laws::<K>(),
        t.root is Some,
        t.is_bst(),
        forall|k: K| #[trigger] t.as_map().dom().contains(k) && k != t.rightmost().key ==> lt(k, key),
    ensures
        t.with_rightmost(key, value).is_bst(),
        t.with_rightmost(key, value).as_map() == t.as_map().remove(t.rightmost().key).insert(key, value),
        t.with_rightmost(key, value).height() == t.height(),
        t.with_rightmost(key, value).root is Some,
    decreases t,
{
    lemma_key_order::<K>();
    lemma_rightmost_max(t);
    let n = *t.root.unwrap();
    let rk = t.rightmost().key;
    if n.right.root is Some {
        lemma_rightmost_max(n.right);
        assert(n.right.rightmost() == t.rightmost());
        assert forall|k: K| #[trigger] n.right.as_map().dom().contains(k) && k != rk implies lt(k, key) by {
            assert(t.as_map().dom().contains(k));
        }
        lemma_with_rightmost(n.right, key, value);
        let r2 = n.right.with_rightmost(key, value);
        assert(lt(n.key, rk));
        assert(n.key != rk);
        assert(lt(n.key, key)) by {
            assert(t.as_map().dom().contains(n.key));
        }
        assert forall|k: K| #[trigger] r2.as_map().dom().contains(k) implies lt(n.key, k) by {
            if k != key {
                assert(n.right.as_map().dom().contains(k));
            }
        }
        assert(t.with_rightmost(key, value) == tree_of(RedBlackNode { right: r2, ..n }));
        if n.left.as_map().dom().contains(key) {
            assert(lt(key, n.key));
        }
        if n.left.as_map().dom().contains(rk) {
            assert(lt(rk, n.key));
        }
        assert(t.with_rightmost(key, value).as_map() =~= t.as_map().remove(rk).insert(key, value));
    } else {
        assert(n.right.as_map() =~= Map::empty());
        assert(rk == n.key);
        if n.left.as_map().dom().contains(n.key) {
            assert(lt(n.key, n.key));
        }
        assert forall|k: K| #[trigger] n.left.as_map().dom().contains(k) implies lt(k, key) by {
            assert(t.as_map().dom().contains(k));
        }
        assert(t.with_rightmost(key, value).as_map() =~= t.as_map().remove(rk).insert(key, value));
    }
}


impl<K, V> RedBlackNode<K, V> {
    /// The color of the root of the subtree on `side`, if it has one.
    pub closed spec fn subtree_color_spec(self, side: Side) -> Option<Color> {
        match self.subtree_spec(side).root {
            None => None,
            Some(c) => Some(c.color),
        }
    }

    /// The node with its color and the colors of its children flipped.
    pub closed spec fn color_flipped(self) -> RedBlackNode<K, V> {
        let l = match self.left.root {
            None => self.left,
            Some(c) => tree_of(c.with_color(if c.color == Color::Red { Color::Black } else { Color::Red })),
        };
        let r = match self.right.root {
            None => self.right,
            Some(c) => tree_of(c.with_color(if c.color == Color::Red { Color::Black } else { Color::Red })),
        };
        RedBlackNode {
            color: if self.color == Color::Red { Color::Black } else { Color::Red },
            left: l,
            right: r,
            ..self
        }
    }

    /// The node after the sibling of its child on `side` has given a red node to that
    /// side: one or two rotations for a deletion, followed by a color flip.
    pub closed spec fn sibling_fixed(self, side: Side) -> RedBlackNode<K, V> {
        let s0 = *self.subtree_spec(side.opposite()).root.unwrap();
        let s1 = if s0.subtree_color_spec(side.opposite()) != Some(Color::Red) {
            s0.rotated_for_deletion(side)
        } else {
            s0
        };
        self.with_subtree(side.opposite(), tree_of(s1)).rotated_for_deletion(side.opposite()).color_flipped()
    }

    /// The node after rotating the edge on `side` for a deletion: the new root takes the
    /// color of the old root, and the old root, now its child, is colored red.
    pub closed spec fn rotated_for_deletion(self, side: Side) -> RedBlackNode<K, V> {
        let r = self.rotated(side);
        let inner = *r.subtree_spec(side.opposite()).root.unwrap();
        r.with_color(self.color).with_subtree(side.opposite(), tree_of(inner.with_color(Color::Red)))
    }

    fn left_color(&self) -> (r: Option<Color>)
        ensures
            r == self.subtree_color_spec(Side::Left),
    {
        match &self.left.root {
            Some(c) => Some(c.color),
            None => None,
        }
    }

    fn right_color(&self) -> (r: Option<Color>)
        ensures
            r == self.subtree_color_spec(Side::Right),
    {
        match &self.right.root {
            Some(c) => Some(c.color),
            None => None,
        }
    }

    /// The color of the root of the subtree on `side`, if it has one.
    fn subtree_color(&self, side: Side) -> (r: Option<Color>)
        ensures
            r == self.subtree_color_spec(side),
    {
        match side {
            Side::Left => self.left_color(),
            Side::Right => self.right_color(),
        }
    }

    /// Some child of the node has the given color.
    fn has_child_with_color(&self, color: Color) -> (r: bool)
        ensures
            r == (self.subtree_color_spec(Side::Left) == Some(color) || self.subtree_color_spec(Side::Right)
                == Some(color)),
    {
        self.left_color() == Some(color) || self.right_color() == Some(color)
    }

    /// Flips the color of the node and of its children.
    fn color_flip(&mut self)
        ensures
            *final(self) == old(self).color_flipped(),
    {
        self.color = self.color.opposite();
        match self.left.root.take() {
            Some(left) => {
                let mut left = left;
                left.color = left.color.opposite();
                self.left.root = Some(left);
            },
            None => {},
        }
        match self.right.root.take() {
            Some(right) => {
                let mut right = right;
                right.color = right.color.opposite();
                self.right.root = Some(right);
            },
            None => {},
        }
        assert(*self =~= old(self).color_flipped());
    }

    /// Rotates the edge on `side`; the new root keeps the old root's color and the old
    /// root is colored red.
    fn rotate_edge_deletion(&mut self, side: Side) -> (r: bool)
        ensures
            r == !old(self).subtree_spec(side).is_leaf_spec(),
            r ==> *final(self) == old(self).rotated_for_deletion(side),
            !r ==> *final(self) == *old(self),
    {
        let col_root = self.color;
        if self.rotate_edge(side) {
            self.color = col_root;
            self.set_subtree_color(side.opposite(), Color::Red);
            true
        } else {
            false
        }
    }

    /// Exchanges the key and value of the rightmost node of a non-empty tree with the
    /// given ones.
    fn swap_with_rightmost(tree: &mut RedBlackTree<K, V>, key: &mut K, value: &mut V)
        requires
            old(tree).root is Some,
        ensures
            *final(tree) == old(tree).with_rightmost(*old(key), *old(value)),
            *final(key) == old(tree).rightmost().key,
            *final(value) == old(tree).rightmost().value,
        decreases old(tree).height(),
    {
        let mut root = tree.root.take().unwrap();
        if root.right.root.is_none() {
            std::mem::swap(&mut root.key, key);
            std::mem::swap(&mut root.value, value);
        } else {
            Self::swap_with_rightmost(&mut root.right, key, value);
        }
        tree.root = Some(root);
    }

    /// Exchanges the key and value of the root with those of its inorder predecessor.
    /// Does nothing if the root has no left subtree.
    fn swap_root_with_predecessor(tree: &mut RedBlackTree<K, V>)
        ensures
            old(tree).root is None || old(tree).root.unwrap().left.root is None ==> *final(tree) == *old(tree),
            old(tree).root is Some && old(tree).root.unwrap().left.root is Some ==> {
                let n = *old(tree).root.unwrap();
                let p = n.left.rightmost();
                *final(tree) == tree_of(RedBlackNode {
                    key: p.key,
                    value: p.value,
                    left: n.left.with_rightmost(n.key, n.value),
                    ..n
                })
            },
    {
        match tree.root.take() {
            Some(root) => {
                let mut root = root;
                if root.left.root.is_some() {
                    let node = &mut *root;
                    Self::swap_with_rightmost(&mut node.left, &mut node.key, &mut node.value);
                }
                tree.root = Some(root);
            },
            None => {},
        }
    }

    /// Removes a root that has at most one child, replacing it by that child colored
    /// black. Returns the key and value of the removed root, or None if the tree is
    /// empty or the root has two children, in which case the tree is unchanged.
    fn remove_root_single_child(tree: &mut RedBlackTree<K, V>) -> (r: Option<(K, V)>)
        ensures
            ({
                let o = *old(tree);
                match o.root {
                    None => r is None && *final(tree) == o,
                    Some(n) => if n.left.root is None {
                        &&& r == Some((n.key, n.value))
                        &&& (n.right.root is None ==> *final(tree) == n.right)
                        &&& (n.right.root is Some ==> *final(tree) == tree_of(n.right.root.unwrap().with_color(Color::Black)))
                    } else if n.right.root is None {
                        &&& r == Some((n.key, n.value))
                        &&& *final(tree) == tree_of(n.left.root.unwrap().with_color(Color::Black))
                    } else {
                        r is None && *final(tree) == o
                    },
                }
            }),
    {
        match tree.root.take() {
            None => None,
            Some(root) => {
                let mut root = root;
                if root.left.root.is_none() {
                    let mut right_tree = root.detach_subtree(Side::Right);
                    Self::set_root_color(&mut right_tree, Color::Black);
                    *tree = right_tree;
                    let RedBlackNode { key, value, .. } = *root;
                    Some((key, value))
                } else if root.right.root.is_none() {
                    let mut left_tree = root.detach_subtree(Side::Left);
                    Self::set_root_color(&mut left_tree, Color::Black);
                    *tree = left_tree;
                    let RedBlackNode { key, value, .. } = *root;
                    Some((key, value))
                } else {
                    tree.root = Some(root);
                    None
                }
            },
        }
    }
}


/// Recoloring the root of a tree does not change its height.
proof fn lemma_recolor_height<K, V>(n: RedBlackNode<K, V>, c: Color)
    ensures
        tree_of(n.with_color(c)).height() == tree_of(n).height(),
{
}

/// The color flip changes neither the contents, the search order nor the height.
proof fn lemma_color_flipped<K: Ord, V>(n: RedBlackNode<K, V>)
    ensures
        tree_of(n.color_flipped()).as_map() == tree_of(n).as_map(),
        tree_of(n.color_flipped()).is_bst() == tree_of(n).is_bst(),
        tree_of(n.color_flipped()).height() == tree_of(n).height(),
{
    let f = n.color_flipped();
    match n.left.root {
        Some(c) => {
            lemma_recolor_root(*c, f.left.root.unwrap().color);
            lemma_recolor_height(*c, f.left.root.unwrap().color);
        },
        None => {},
    }
    match n.right.root {
        Some(c) => {
            lemma_recolor_root(*c, f.right.root.unwrap().color);
            lemma_recolor_height(*c, f.right.root.unwrap().color);
        },
        None => {},
    }
    assert(tree_of(f).as_map() =~= tree_of(n).as_map());
}

/// A rotation for a deletion keeps the contents and the search order; the old root,
/// now a child, is no higher than the whole tree was.
proof fn lemma_rotated_for_deletion<K: Ord, V>(n: RedBlackNode<K, V>, side: Side)
    requires
        key_order_laws::<K>(),
        !n.subtree_spec(side).is_leaf_spec(),
        tree_of(n).is_bst(),
    ensures
        tree_of(n.rotated_for_deletion(side)).is_bst(),
        tree_of(n.rotated_for_deletion(side)).as_map() == tree_of(n).as_map(),
        n.rotated_for_deletion(side).subtree_spec(side.opposite()).height() <= tree_of(n).height(),
        n.rotated_for_deletion(side).subtree_spec(side.opposite()).height() == 1 + if n.subtree_spec(
            side.opposite(),
        ).height() >= n.subtree_spec(side).root.unwrap().subtree_spec(side.opposite()).height() {
            n.subtree_spec(side.opposite()).height()
        } else {
            n.subtree_spec(side).root.unwrap().subtree_spec(side.opposite()).height()
        },
{
    lemma_rotated(n, side);
    let r = n.rotated(side);
    let r1 = r.with_color(n.color);
    lemma_recolor_root(r, n.color);
    assert(r1.subtree_spec(side.opposite()).root is Some);
    lemma_recolor_child(r1, side.opposite(), Color::Red);
    let c = *n.subtree_spec(side).root.unwrap();
    assert(n.subtree_spec(side) == tree_of(c));
    let inner = *r.subtree_spec(side.opposite()).root.unwrap();
    lemma_recolor_height(inner, Color::Red);
    assert(r.subtree_spec(side.opposite()) == tree_of(inner));
    assert(tree_of(c).height() >= 1 + c.subtree_spec(side.opposite()).height());
    assert(tree_of(n).height() >= 1 + n.subtree_spec(side).height());
    assert(tree_of(n).height() >= 1 + n.subtree_spec(side.opposite()).height());
    assert(inner.subtree_spec(side) == c.subtree_spec(side.opposite()));
    assert(inner.subtree_spec(side.opposite()) == n.subtree_spec(side.opposite()));
}

/// Removing a root with at most one child from a search tree leaves that child.
proof fn lemma_remove_root_single<K: Ord, V>(n: RedBlackNode<K, V>, side: Side)
    requires
        key_order_laws::<K>(),
        tree_of(n).is_bst(),
        n.subtree_spec(side.opposite()).root is None,
    ensures
        n.subtree_spec(side).as_map() == tree_of(n).as_map().remove(n.key),
        n.subtree_spec(side).is_bst(),
        n.subtree_spec(side).root is Some ==> {
            let c = *n.subtree_spec(side).root.unwrap();
            &&& tree_of(c.with_color(Color::Black)).as_map() == tree_of(n).as_map().remove(n.key)
            &&& tree_of(c.with_color(Color::Black)).is_bst()
            &&& n.subtree_spec(side) == tree_of(c)
        },
{
    lemma_key_order::<K>();
    let t = n.subtree_spec(side);
    assert(n.subtree_spec(side.opposite()).as_map() =~= Map::empty());
    if t.as_map().dom().contains(n.key) {
        assert(on_side(n.key, n.key, side));
    }
    assert(t.as_map() =~= tree_of(n).as_map().remove(n.key));
    if t.root is Some {
        let c = *t.root.unwrap();
        lemma_recolor_root(c, Color::Black);
    }
}

/// Removing from the subtree on the side of the key removes from the whole search tree.
proof fn lemma_remove_in_subtree<K: Ord, V>(n: RedBlackNode<K, V>, side: Side, t: RedBlackTree<K, V>, key: K)
    requires
        key_order_laws::<K>(),
        tree_of(n).is_bst(),
        on_side(key, n.key, side),
        t.as_map() == n.subtree_spec(side).as_map().remove(key),
        t.is_bst(),
    ensures
        tree_of(n.with_subtree(side, t)).as_map() == tree_of(n).as_map().remove(key),
        tree_of(n.with_subtree(side, t)).is_bst(),
{
    lemma_key_order::<K>();
    let m = n.with_subtree(side, t);
    let other = n.subtree_spec(side.opposite());
    assert(m.subtree_spec(side.opposite()) == other);
    assert(!other.as_map().dom().contains(key));
    assert(key != n.key);
    assert forall|k: K| #[trigger] t.as_map().dom().contains(k) implies on_side(k, n.key, side) by {
        assert(n.subtree_spec(side).as_map().dom().contains(k));
    }
    assert(tree_of(m).as_map() =~= tree_of(n).as_map().remove(key));
}

/// Removing the root's key after moving it to the predecessor's place removes it from
/// the whole search tree, with the predecessor taking the root's place.
proof fn lemma_remove_via_predecessor<K: Ord, V>(n: RedBlackNode<K, V>, t: RedBlackTree<K, V>)
    requires
        key_order_laws::<K>(),
        tree_of(n).is_bst(),
        n.left.root is Some,
        t.as_map() == n.left.with_rightmost(n.key, n.value).as_map().remove(n.key),
        t.is_bst(),
    ensures
        tree_of(RedBlackNode { key: n.left.rightmost().key, value: n.left.rightmost().value, left: t, ..n }).as_map()
            == tree_of(n).as_map().remove(n.key),
        tree_of(RedBlackNode { key: n.left.rightmost().key, value: n.left.rightmost().value, left: t, ..n }).is_bst(),
{
    lemma_key_order::<K>();
    lemma_rightmost_max(n.left);
    let p = n.left.rightmost();
    assert(lt(p.key, n.key));
    assert forall|k: K| #[trigger] n.left.as_map().dom().contains(k) && k != p.key implies lt(k, n.key) by {
    }
    lemma_with_rightmost(n.left, n.key, n.value);
    if n.left.as_map().dom().contains(n.key) {
        assert(lt(n.key, n.key));
    }
    assert(t.as_map() =~= n.left.as_map().remove(p.key));
    let m = RedBlackNode { key: p.key, value: p.value, left: t, ..n };
    assert forall|k: K| #[trigger] t.as_map().dom().contains(k) implies lt(k, p.key) by {
        assert(n.left.as_map().dom().contains(k));
    }
    assert forall|k: K| #[trigger] n.right.as_map().dom().contains(k) implies lt(p.key, k) by {
        assert(lt(n.key, k));
    }
    if n.right.as_map().dom().contains(n.key) {
        assert(lt(n.key, n.key));
    }
    if n.right.as_map().dom().contains(p.key) {
        assert(lt(n.key, p.key));
    }
    assert(tree_of(m).as_map() =~= tree_of(n).as_map().remove(n.key));
}


impl<K: Ord, V> RedBlackNode<K, V> {
    /// Whether the key is stored in the tree.
    fn contains_key(tree: &RedBlackTree<K, V>, key: &K) -> (r: bool)
        requires
            key_order_laws::<K>(),
            tree.is_bst(),
        ensures
            r == tree@.dom().contains(*key),
        decreases tree.height(),
    {
        proof {
            lemma_key_order::<K>();
        }
        match &tree.root {
            None => false,
            Some(n) => {
                let ghost nn = **n;
                assert(*tree == tree_of(nn));
                match compare_keys(key, &n.key) {
                    KeyOrder::Equal => true,
                    KeyOrder::Less => {
                        proof {
                            lemma_get_in_subtree(nn, Side::Left, *key);
                        }
                        Self::contains_key(&n.left, key)
                    },
                    KeyOrder::Greater => {
                        proof {
                            lemma_get_in_subtree(nn, Side::Right, *key);
                        }
                        Self::contains_key(&n.right, key)
                    },
                }
            },
        }
    }

    /// The value stored with the key, if any.
    pub fn get<'a>(tree: &'a RedBlackTree<K, V>, key: &K) -> (r: Option<&'a V>)
        requires
            key_order_laws::<K>(),
            tree.is_bst(),
        ensures
            r is Some <==> tree@.dom().contains(*key),
            r is Some ==> *r.unwrap() == tree@[*key],
        decreases tree.height(),
    {
        proof {
            lemma_key_order::<K>();
        }
        match &tree.root {
            None => None,
            Some(n) => {
                let ghost nn = **n;
                assert(*tree == tree_of(nn));
                match compare_keys(key, &n.key) {
                    KeyOrder::Equal => Some(&n.value),
                    KeyOrder::Less => {
                        proof {
                            lemma_get_in_subtree(nn, Side::Left, *key);
                        }
                        Self::get(&n.left, key)
                    },
                    KeyOrder::Greater => {
                        proof {
                            lemma_get_in_subtree(nn, Side::Right, *key);
                        }
                        Self::get(&n.right, key)
                    },
                }
            },
        }
    }

    /// Moves down to the child on `side` of the root of `cur`, which exists, and
    /// continues the removal there. If the root holds the key, it is first exchanged
    /// with its predecessor, so that the key moves into the left subtree.
    fn descend_for_removal(cur: &mut RedBlackTree<K, V>, key: &K, side: Side, found: bool) -> (r: Option<(K, V)>)
        requires
            key_order_laws::<K>(),
            old(cur).is_bst(),
            old(cur)@.dom().contains(*key),
            old(cur).root is Some,
            old(cur).root.unwrap().subtree_spec(side).root is Some,
            found ==> *key == old(cur).root.unwrap().key && side == Side::Left,
            !found ==> on_side(*key, old(cur).root.unwrap().key, side),
        ensures
            final(cur).is_bst(),
            final(cur)@ == old(cur)@.remove(*key),
            r == Some((*key, old(cur)@[*key])),
        decreases old(cur).height(), 0int, 0int,
    {
        proof {
            lemma_key_order::<K>();
        }
        let ghost n0 = *cur.root.unwrap();
        assert(*old(cur) == tree_of(n0));
        if found {
            Self::swap_root_with_predecessor(cur);
        }
        let mut root = cur.root.take().unwrap();
        let ghost n1 = *root;
        let mut sub = root.detach_subtree(side);
        proof {
            if found {
                let p = n0.left.rightmost();
                lemma_rightmost_max(n0.left);
                assert(lt(p.key, n0.key));
                assert forall|k: K| #[trigger] n0.left.as_map().dom().contains(k) && k != p.key implies lt(k, n0.key) by {
                }
                lemma_with_rightmost(n0.left, n0.key, n0.value);
                assert(sub == n0.left.with_rightmost(n0.key, n0.value));
                lemma_set_root_value(n0, n0.value);
                assert(sub@.dom().contains(*key));
                assert(tree_of(n1).height() == tree_of(n0).height());
            } else {
                lemma_get_in_subtree(n0, side, *key);
                assert(sub == n0.subtree_spec(side));
                lemma_set_root_value(n0, n0.value);
                if *key != n0.key {
                    assert(n0.subtree_spec(side)@.dom().contains(*key));
                }
            }
            assert(tree_of(n1).height() >= 1 + sub.height());
        }
        let ghost sub0 = sub;
        let r = Self::remove_below(&mut sub, key);
        proof {
            if found {
                lemma_remove_via_predecessor(n0, sub);
                assert(n1.with_subtree(side, sub) == RedBlackNode {
                    key: n0.left.rightmost().key,
                    value: n0.left.rightmost().value,
                    left: sub,
                    ..n0
                });
                lemma_set_root_value(n0, n0.value);
            } else {
                lemma_remove_in_subtree(n0, side, sub, *key);
                lemma_get_in_subtree(n0, side, *key);
            }
        }
        root.replace_subtree(side, sub);
        cur.root = Some(root);
        r
    }

    #[verifier::rlimit(30)]
    /// The removal steps at a node whose child on `side`, towards the key, exists and is
    /// not red: either move down, or recolor and rotate so that the child becomes red.
    fn remove_at_black_child(cur: &mut RedBlackTree<K, V>, key: &K, side: Side, found: bool) -> (r: Option<(K, V)>)
        requires
            key_order_laws::<K>(),
            old(cur).is_bst(),
            old(cur)@.dom().contains(*key),
            old(cur).root is Some,
            old(cur).root.unwrap().subtree_spec(side).root is Some,
            old(cur).root.unwrap().subtree_color_spec(side) != Some(Color::Red),
            found ==> *key == old(cur).root.unwrap().key && side == Side::Left,
            !found ==> on_side(*key, old(cur).root.unwrap().key, side),
        ensures
            final(cur).is_bst(),
            final(cur)@ == old(cur)@.remove(*key),
            r == Some((*key, old(cur)@[*key])),
        decreases old(cur).height(), 1int, 1int,
    {
        proof {
            lemma_key_order::<K>();
        }
        let ghost n0 = *cur.root.unwrap();
        assert(*old(cur) == tree_of(n0));
        let child_has_red = match &cur.root.as_ref().unwrap().subtree(side).root {
            Some(child) => child.has_child_with_color(Color::Red),
            None => false,
        };
        if child_has_red {
            return Self::descend_for_removal(cur, key, side, found);
        }
        let mut root = cur.root.take().unwrap();
        root.color_flip();
        let ghost n1 = *root;
        proof {
            lemma_color_flipped(n0);
            lemma_set_root_value(n0, n0.value);
            assert(n1.subtree_color_spec(side) == Some(Color::Red));
        }
        let sibling_has_red = match &root.subtree(side.opposite()).root {
            Some(sibling) => sibling.has_child_with_color(Color::Red),
            None => false,
        };
        if !sibling_has_red {
            cur.root = Some(root);
            proof {
                assert(*cur == tree_of(n1));
                if !found {
                    assert(cur.descent_side(*key) == side);
                }
                assert(cur.removal_flag(*key) == 0);
            }
            return Self::remove_below(cur, key);
        }
        let opp = side.opposite();
        let sibling_tree = root.detach_subtree(opp);
        let mut sibling = sibling_tree.root.unwrap();
        let ghost s0 = *sibling;
        if sibling.subtree_color(opp) != Some(Color::Red) {
            sibling.rotate_edge_deletion(side);
        }
        root.replace_subtree(opp, RedBlackTree { root: Some(sibling) });
        root.rotate_edge_deletion(opp);
        root.color_flip();
        let ghost n4 = *root;
        proof {
            assert(n1.subtree_spec(opp) == tree_of(s0));
            assert(n4 == n1.sibling_fixed(side));
            lemma_sibling_fixed(n0, side, *key, found);
        }
        let mut sub = root.detach_subtree(side);
        let r = Self::remove_below(&mut sub, key);
        proof {
            lemma_remove_in_subtree(n4, side, sub, *key);
        }
        root.replace_subtree(side, sub);
        cur.root = Some(root);
        r
    }

    /// One step of the top-down removal of a key stored in the tree `current`.
    fn remove_below(current: &mut RedBlackTree<K, V>, key: &K) -> (r: Option<(K, V)>)
        requires
            key_order_laws::<K>(),
            old(current).is_bst(),
            old(current)@.dom().contains(*key),
        ensures
            final(current).is_bst(),
            final(current)@ == old(current)@.remove(*key),
            r == Some((*key, old(current)@[*key])),
        decreases old(current).height(), old(current).removal_flag(*key), 2int,
    {
        proof {
            lemma_key_order::<K>();
        }
        let ghost n0 = *current.root.unwrap();
        assert(*old(current) == tree_of(n0));
        proof {
            lemma_set_root_value(n0, n0.value);
        }
        let (side, found) = match compare_keys(key, &current.root.as_ref().unwrap().key) {
            KeyOrder::Less => (Side::Left, false),
            KeyOrder::Greater => (Side::Right, false),
            KeyOrder::Equal => {
                let removed = Self::remove_root_single_child(current);
                match removed {
                    Some(data) => {
                        proof {
                            if n0.left.root is None {
                                lemma_remove_root_single(n0, Side::Right);
                            } else {
                                lemma_remove_root_single(n0, Side::Left);
                            }
                        }
                        return Some(data);
                    },
                    None => (Side::Left, true),
                }
            },
        };
        proof {
            if !found {
                lemma_get_in_subtree(n0, side, *key);
                assert(n0.subtree_spec(side)@.dom().contains(*key));
            }
            assert(old(current).descent_side(*key) == side);
        }
        // First phase: the child towards the key is red.
        if current.root.as_ref().unwrap().subtree_color(side) == Some(Color::Red) {
            return Self::descend_for_removal(current, key, side, found);
        }
        // Second phase: the sibling of that child is red.
        if current.root.as_ref().unwrap().subtree_color(side.opposite()) == Some(Color::Red) {
            let mut root = current.root.take().unwrap();
            root.rotate_edge_deletion(side.opposite());
            let ghost n1 = *root;
            proof {
                lemma_rotated_for_deletion(n0, side.opposite());
            }
            let mut sub = root.detach_subtree(side);
            proof {
                let x = *sub.root.unwrap();
                assert(x.key == n0.key);
                assert(x.subtree_spec(side) == n0.subtree_spec(side));
                let s = *n0.subtree_spec(side.opposite()).root.unwrap();
                assert(tree_of(s).as_map().dom().contains(s.key));
                assert(on_side(s.key, n0.key, side.opposite()));
                assert(on_side(*key, n1.key, side));
                lemma_get_in_subtree(n1, side, *key);
                assert(sub@.dom().contains(*key));
                assert(sub.height() <= old(current).height());
                assert(tree_of(n1).is_bst());
            }
            let r = Self::remove_at_black_child(&mut sub, key, side, found);
            proof {
                lemma_remove_in_subtree(n1, side, sub, *key);
            }
            root.replace_subtree(side, sub);
            current.root = Some(root);
            return r;
        }
        Self::remove_at_black_child(current, key, side, found)
    }

    /// Removes the node with the given key from the tree.
    /// Returns the key and associated value, or None if the key is not in the tree.
    pub fn remove_entry(tree: &mut RedBlackTree<K, V>, key: &K) -> (r: Option<(K, V)>)
        requires
            key_order_laws::<K>(),
            old(tree).is_bst(),
        ensures
            final(tree).is_bst(),
            final(tree)@ == old(tree)@.remove(*key),
            r == (if old(tree)@.dom().contains(*key) {
                Some((*key, old(tree)@[*key]))
            } else {
                None
            }),
            !old(tree)@.dom().contains(*key) ==> *final(tree) == *old(tree),
            old(tree)@.dom().contains(*key) ==> final(tree).root_color_spec() != Some(Color::Red),
    {
        if !Self::contains_key(tree, key) {
            assert(tree@ =~= old(tree)@.remove(*key));
            return None;
        }
        let r = Self::remove_below(tree, key);
        let ghost t1 = *tree;
        Self::set_root_color(tree, Color::Black);
        proof {
            if t1.root is Some {
                lemma_recolor_root(*t1.root.unwrap(), Color::Black);
                assert(t1 == tree_of(*t1.root.unwrap()));
            }
        }
        r
    }
}


/// After a color flip that made the child on `side` red, moving a red node over from
/// the sibling keeps the contents and the search order, and leaves the old root, with
/// its red child towards the key, in a subtree no higher than the original tree.
proof fn lemma_sibling_fixed<K: Ord, V>(n0: RedBlackNode<K, V>, side: Side, key: K, found: bool)
    requires
        key_order_laws::<K>(),
        tree_of(n0).is_bst(),
        tree_of(n0).as_map().dom().contains(key),
        n0.subtree_spec(side).root is Some,
        n0.subtree_color_spec(side) != Some(Color::Red),
        found ==> key == n0.key && side == Side::Left,
        !found ==> on_side(key, n0.key, side),
        n0.color_flipped().subtree_spec(side.opposite()).root is Some,
        ({
            let s = *n0.color_flipped().subtree_spec(side.opposite()).root.unwrap();
            s.subtree_color_spec(Side::Left) == Some(Color::Red) || s.subtree_color_spec(Side::Right) == Some(Color::Red)
        }),
    ensures
        ({
            let n4 = n0.color_flipped().sibling_fixed(side);
            let sub = n4.subtree_spec(side);
            &&& tree_of(n4).is_bst()
            &&& tree_of(n4).as_map() == tree_of(n0).as_map()
            &&& on_side(key, n4.key, side)
            &&& sub.as_map().dom().contains(key)
            &&& sub.as_map()[key] == tree_of(n0).as_map()[key]
            &&& sub.height() <= tree_of(n0).height()
            &&& sub.removal_flag(key) == 0
            &&& sub.is_bst()
        }),
{
    lemma_key_order::<K>();
    let opp = side.opposite();
    let n1 = n0.color_flipped();
    lemma_color_flipped(n0);
    lemma_set_root_value(n0, n0.value);
    assert(n1.subtree_color_spec(side) == Some(Color::Red));
    let s0 = *n1.subtree_spec(opp).root.unwrap();
    assert(n1.subtree_spec(opp) == tree_of(s0));
    assert(tree_of(s0).is_bst());
    assert(tree_of(s0).as_map().dom().contains(s0.key));
    let s1 = if s0.subtree_color_spec(opp) != Some(Color::Red) {
        s0.rotated_for_deletion(side)
    } else {
        s0
    };
    assert(tree_of(s0).height() >= 1 + s0.subtree_spec(side).height());
    if s0.subtree_color_spec(opp) != Some(Color::Red) {
        lemma_rotated_for_deletion(s0, side);
        let t = *s0.subtree_spec(side).root.unwrap();
        assert(s0.subtree_spec(side) == tree_of(t));
        assert(s1.subtree_spec(side) == t.subtree_spec(side));
        assert(tree_of(t).height() >= 1 + t.subtree_spec(side).height());
        assert(tree_of(s0).height() >= 1 + tree_of(t).height());
        assert(tree_of(t).as_map().dom().contains(t.key));
        assert(s1.key == t.key);
    }
    assert(tree_of(s0).as_map().dom().contains(s1.key));
    assert(s1.subtree_spec(side).height() < tree_of(s0).height());
    lemma_replace_subtree(n1, opp, tree_of(s1));
    let n2 = n1.with_subtree(opp, tree_of(s1));
    assert(n2.subtree_spec(opp) == tree_of(s1));
    lemma_rotated_for_deletion(n2, opp);
    let n3 = n2.rotated_for_deletion(opp);
    lemma_color_flipped(n3);
    let n4 = n3.color_flipped();
    let sub = n4.subtree_spec(side);
    let x = *sub.root.unwrap();
    assert(x.key == n0.key);
    assert(x.subtree_spec(side).root.unwrap().key == n0.subtree_spec(side).root.unwrap().key);
    assert(x.subtree_color_spec(side) == Some(Color::Red));
    if !found {
        assert(sub.descent_side(key) == side);
    }
    assert(sub.removal_flag(key) == 0);
    assert(tree_of(n0).height() >= 1 + n0.subtree_spec(side).height());
    assert(n1.subtree_spec(side).height() == n0.subtree_spec(side).height()) by {
        lemma_recolor_height(*n0.subtree_spec(side).root.unwrap(), n1.subtree_spec(side).root.unwrap().color);
    }
    assert(sub.height() <= tree_of(n0).height());
    assert(n4.key == s1.key);
    assert(on_side(s1.key, n0.key, opp));
    assert(on_side(key, n4.key, side));
    lemma_get_in_subtree(n4, side, key);
    assert(sub.as_map().dom().contains(key));
}

impl<K: Ord, V> RedBlackTree<K, V> {
    /// An empty tree is a search tree.
    pub proof fn lemma_empty_is_bst(self)
        requires
            self.is_leaf_spec(),
        ensures
            self.is_bst(),
    {
    }

    /// Inserts the key-value pair; returns the value the key had before, if any.
    pub fn insert(&mut self, key: K, value: V) -> (r: Option<V>)
        requires
            key_order_laws::<K>(),
            old(self).is_bst(),
        ensures
            final(self).is_bst(),
            final(self)@ == old(self)@.insert(key, value),
            r == map_get(old(self)@, key),
            r is None ==> final(self).root_color_spec() == Some(Color::Black),
            old(self).is_leaf_spec() ==> final(self).height() == 1,
    {
        RedBlackNode::insert(self, key, value)
    }

    /// Removes the key; returns it with its value, if it was in the tree.
    pub fn remove_entry(&mut self, key: &K) -> (r: Option<(K, V)>)
        requires
            key_order_laws::<K>(),
            old(self).is_bst(),
        ensures
            final(self).is_bst(),
            final(self)@ == old(self)@.remove(*key),
            r == (if old(self)@.dom().contains(*key) {
                Some((*key, old(self)@[*key]))
            } else {
                None
            }),
            !old(self)@.dom().contains(*key) ==> *final(self) == *old(self),
            old(self)@.dom().contains(*key) ==> final(self).root_color_spec() != Some(Color::Red),
    {
        RedBlackNode::remove_entry(self, key)
    }
}

} // verus!
