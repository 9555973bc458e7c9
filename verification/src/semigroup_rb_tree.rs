use vstd::prelude::*;
use vstd::laws_eq::*;
use vstd::std_specs::cmp::PartialEqSpec;
use crate::order::key_order_laws;
use crate::red_black_node::{Color, map_get};
use crate::serialization;
use crate::red_black_tree::{
    RedBlackData,
    lemma_represents_tree_same_checks,
    set_color_here,
    set_color_side,
    rotate_here,
    find_node_to_insert_at,
    is_black_or_missing,
    get_cursor_mut_at_key,
    move_cursor_to_successor,
    move_cursor_mut_to_successor,
    is_binary_search_tree,
    is_red_black_tree,
    is_binary_search_tree_spec,
    is_red_black_tree_spec,
    lemma_black_height_is_rb_height,
    lemma_sorted_is_bst,
    lemma_bst_is_sorted,
};
use crate::binary_tree::{
    BinaryTree,
    NodeId,
    Cursor,
    CursorMut,
    cursor_rank,
    lemma_children_ranks,
    subtree_ids,
    lemma_subtree_ids,
    lemma_contains_not_null,
    lemma_with_data,
    lemma_relink,
    lemma_contained_ids_bound,
};
use crate::side::Side;
use crate::balance::{
    same_colors,
    lemma_same_colors,
    lemma_same_colors_trans,
    red_at,
    insert_ready,
    rb_balanced,
    lemma_rb_height_unused,
    lemma_insert_recolor,
    lemma_insert_rotate_pair,
    lemma_insert_rotate_fix,
    lemma_attach_red_leaf,
    lemma_blacken_root,
};
use crate::traversal::{
    lemma_same_links,
    lemma_rotation_inorder,
    lemma_attach_inorder,
    lemma_detach_inorder,
    lemma_transplant_inorder,
    lemma_subtree_split,
    lemma_subtree_parent,
    lemma_subtree_nested,
    root_has_no_parent,
    inorder,
    lemma_inorder_unfold,
    same_below,
    lemma_traversal_frame,
    lemma_parent_below_root,
    TraversalOrder,
};
use crate::search_map::{
    RbEntry,
    fixup_ready,
    same_entries_order,
    lemma_same_entries_order_trans,
    lemma_move_up_ready,
    lemma_move_down_ready,
    keys_increasing,
    keys_of,
    entries,
    lemma_empty_entries,
    lemma_singleton_entries,
    lemma_entries_update,
    lemma_insert_leaf,
    lemma_same_entries,
    lemma_recolor_data,
    lemma_recolored,
    lemma_parent_subtree_larger,
    color_at,
    key_at,
    value_at,
    lemma_entries,
    lemma_mapped_entries,
    lemma_sorted_parts,
    lemma_inorder_distinct,
    lemma_remove_swapped,
    lemma_remove_direct,
};

verus! {

/// A value kept at every node of a tree, computed from the node's key and the values of
/// its children.
pub trait TreeSemigroup<K>: Sized {
    /// The value computed from a key and the values of the children that are present.
    spec fn op_spec(key: K, left: Option<Self>, right: Option<Self>) -> Self;

    /// The computation is defined on these arguments.
    spec fn op_defined(key: K, left: Option<Self>, right: Option<Self>) -> bool;

    /// Computes the value of a node from its key and the values of its children.
    fn op(key: &K, left: Option<&Self>, right: Option<&Self>) -> (r: Self)
        requires
            Self::op_defined(
                *key,
                match left {
                    Some(l) => Some(*l),
                    None => None,
                },
                match right {
                    Some(r) => Some(*r),
                    None => None,
                },
            ),
        ensures
            r == Self::op_spec(
                *key,
                match left {
                    Some(l) => Some(*l),
                    None => None,
                },
                match right {
                    Some(r) => Some(*r),
                    None => None,
                },
            ),
    ;
}

/// The trivial semigroup, which keeps nothing.
impl<K> TreeSemigroup<K> for () {
    open spec fn op_spec(key: K, left: Option<()>, right: Option<()>) -> () {
        ()
    }

    open spec fn op_defined(key: K, left: Option<()>, right: Option<()>) -> bool {
        true
    }

    fn op(key: &K, left: Option<&()>, right: Option<&()>) -> (r: ()) {
    }
}

/// The first components of an optional pair.
pub open spec fn first_of<A, B>(p: Option<(A, B)>) -> Option<A> {
    match p {
        Some(p) => Some(p.0),
        None => None,
    }
}

/// The second components of an optional pair.
pub open spec fn second_of<A, B>(p: Option<(A, B)>) -> Option<B> {
    match p {
        Some(p) => Some(p.1),
        None => None,
    }
}

/// Two semigroups kept side by side, each computed from its own components.
impl<K, S1: TreeSemigroup<K>, S2: TreeSemigroup<K>> TreeSemigroup<K> for (S1, S2) {
    open spec fn op_spec(key: K, left: Option<(S1, S2)>, right: Option<(S1, S2)>) -> (S1, S2) {
        (
            S1::op_spec(key, first_of(left), first_of(right)),
            S2::op_spec(key, second_of(left), second_of(right)),
        )
    }

    open spec fn op_defined(key: K, left: Option<(S1, S2)>, right: Option<(S1, S2)>) -> bool {
        &&& S1::op_defined(key, first_of(left), first_of(right))
        &&& S2::op_defined(key, second_of(left), second_of(right))
    }

    fn op(key: &K, left: Option<&(S1, S2)>, right: Option<&(S1, S2)>) -> (r: (S1, S2)) {
        let left_first = match left {
            Some(p) => Some(&p.0),
            None => None,
        };
        let right_first = match right {
            Some(p) => Some(&p.0),
            None => None,
        };
        let left_second = match left {
            Some(p) => Some(&p.1),
            None => None,
        };
        let right_second = match right {
            Some(p) => Some(&p.1),
            None => None,
        };
        (S1::op(key, left_first, right_first), S2::op(key, left_second, right_second))
    }
}

/// The number of nodes of a subtree.
#[derive(Clone, Copy, Debug, PartialEq, Eq, Structural)]
pub struct Height(pub usize);

/// The count of a missing subtree is zero.
pub open spec fn height_of(h: Option<Height>) -> int {
    match h {
        Some(h) => h.0 as int,
        None => 0,
    }
}

impl<K> TreeSemigroup<K> for Height {
    open spec fn op_spec(key: K, left: Option<Height>, right: Option<Height>) -> Height {
        Height(
            if 1 + height_of(left) + height_of(right) <= usize::MAX {
                (1 + height_of(left) + height_of(right)) as usize
            } else {
                usize::MAX
            },
        )
    }

    open spec fn op_defined(key: K, left: Option<Height>, right: Option<Height>) -> bool {
        true
    }

    /// The count saturates at `usize::MAX`, which no tree held in memory reaches.
    fn op(key: &K, left: Option<&Height>, right: Option<&Height>) -> (r: Height) {
        let height_left = match left {
            Some(h) => h.0,
            None => 0,
        };
        let height_right = match right {
            Some(h) => h.0,
            None => 0,
        };
        Height(1usize.saturating_add(height_left).saturating_add(height_right))
    }
}

/// The smallest and the largest key of a subtree, when its keys are in search order.
#[derive(Clone, Copy, Debug, PartialEq, Eq, Structural)]
pub struct CanonInterval<K>(pub K, pub K);

impl<K: Copy> TreeSemigroup<K> for CanonInterval<K> {
    open spec fn op_spec(key: K, left: Option<CanonInterval<K>>, right: Option<CanonInterval<K>>) -> CanonInterval<K> {
        match (left, right) {
            (Some(i1), Some(i2)) => CanonInterval(i1.0, i2.1),
            (Some(i1), None) => CanonInterval(i1.0, key),
            (None, Some(i2)) => CanonInterval(key, i2.1),
            (None, None) => CanonInterval(key, key),
        }
    }

    open spec fn op_defined(key: K, left: Option<CanonInterval<K>>, right: Option<CanonInterval<K>>) -> bool {
        true
    }

    fn op(key: &K, left: Option<&CanonInterval<K>>, right: Option<&CanonInterval<K>>) -> (r: CanonInterval<K>) {
        match (left, right) {
            (Some(i1), Some(i2)) => CanonInterval(i1.0, i2.1),
            (Some(i1), None) => CanonInterval(i1.0, *key),
            (None, Some(i2)) => CanonInterval(*key, i2.1),
            (None, None) => CanonInterval(*key, *key),
        }
    }
}

/// The data of a node of a red-black tree that keeps a semigroup value at every node: a
/// key-value pair, the semigroup value of the subtree below the node, and a color.
pub struct SemigroupRbNode<K, V, S> {
    key: K,
    value: V,
    semigroup_value: S,
    color: Color,
}

impl<K, V, S> SemigroupRbNode<K, V, S> {
    pub closed spec fn key_spec(self) -> K {
        self.key
    }

    pub closed spec fn value_spec(self) -> V {
        self.value
    }

    pub closed spec fn semigroup_value_spec(self) -> S {
        self.semigroup_value
    }

    pub closed spec fn color_spec(self) -> Color {
        self.color
    }

    /// The node with its value replaced.
    pub closed spec fn with_value_spec(self, value: V) -> SemigroupRbNode<K, V, S> {
        SemigroupRbNode { value, ..self }
    }

    /// A node holding the given key, value, semigroup value and color.
    pub fn new_with_color_and_semigroup_value(key: K, value: V, semigroup_value: S, color: Color) -> (r: Self)
        ensures
            r.key_spec() == key,
            r.value_spec() == value,
            r.semigroup_value_spec() == semigroup_value,
            r.color_spec() == color,
    {
        SemigroupRbNode { key, value, semigroup_value, color }
    }

    /// The key stored at this node.
    pub fn key(&self) -> (r: &K)
        ensures
            *r == self.key_spec(),
    {
        &self.key
    }

    /// The value stored at this node.
    pub fn value(&self) -> (r: &V)
        ensures
            *r == self.value_spec(),
    {
        &self.value
    }

    /// The value stored at this node, for modification.
    pub fn value_mut(&mut self) -> (r: &mut V)
        ensures
            *r == old(self).value_spec(),
            *final(self) == old(self).with_value_spec(*final(r)),
    {
        &mut self.value
    }

    /// The semigroup value of the subtree below this node.
    pub fn semigroup_value(&self) -> (r: &S)
        ensures
            *r == self.semigroup_value_spec(),
    {
        &self.semigroup_value
    }

    /// The key and the value stored at this node.
    pub fn into_data(self) -> (r: (K, V))
        ensures
            r.0 == self.key_spec(),
            r.1 == self.value_spec(),
    {
        (self.key, self.value)
    }

    /// The color of the node.
    pub fn color(&self) -> (r: Color)
        ensures
            r == self.color_spec(),
    {
        self.color
    }
}

impl<K, V, S> SemigroupRbNode<K, V, S> {
    /// Sets the semigroup value of the node.
    pub(crate) fn set_semigroup_value(&mut self, semigroup_value: S)
        ensures
            final(self).key_spec() == old(self).key_spec(),
            final(self).value_spec() == old(self).value_spec(),
            final(self).color_spec() == old(self).color_spec(),
            final(self).semigroup_value_spec() == semigroup_value,
    {
        self.semigroup_value = semigroup_value;
    }
}

impl<K: Ord, V, S> RbEntry for SemigroupRbNode<K, V, S> {
    type Key = K;
    type Value = V;
    type Rest = S;

    open spec fn entry_key(&self) -> K {
        self.key_spec()
    }

    open spec fn entry_value(&self) -> V {
        self.value_spec()
    }

    open spec fn entry_color(&self) -> Color {
        self.color_spec()
    }

    open spec fn entry_rest(&self) -> S {
        self.semigroup_value_spec()
    }

    fn entry_key_ref(&self) -> (r: &K) {
        &self.key
    }

    fn entry_color_exec(&self) -> (r: Color) {
        self.color
    }

    fn set_color(&mut self, color: Color) {
        self.color = color;
    }

    fn swap_entries(a: &mut Self, b: &mut Self) {
        std::mem::swap(&mut a.key, &mut b.key);
        std::mem::swap(&mut a.value, &mut b.value);
    }
}

impl<K, V, S: TreeSemigroup<K>> SemigroupRbNode<K, V, S> {
    /// A node holding the key-value pair, with the semigroup value of a node without
    /// children.
    pub fn new_with_color(key: K, value: V, color: Color) -> (r: Self)
        requires
            S::op_defined(key, None, None),
        ensures
            r.key_spec() == key,
            r.value_spec() == value,
            r.semigroup_value_spec() == S::op_spec(key, None, None),
            r.color_spec() == color,
    {
        let semigroup_value = S::op(&key, None, None);
        SemigroupRbNode { key, value, semigroup_value, color }
    }
}

impl<K, V, S> RedBlackData<K> for SemigroupRbNode<K, V, S> {
    open spec fn key_of(&self) -> K {
        self.key_spec()
    }

    open spec fn color_of(&self) -> Color {
        self.color_spec()
    }

    fn node_key(&self) -> (r: &K) {
        &self.key
    }

    fn node_color(&self) -> (r: Color) {
        self.color
    }
}

/// The ways in which a tree can fail to be a red-black tree with semigroup values.
#[derive(Clone, Copy, Debug, PartialEq, Eq, Structural)]
pub enum SemigroupRbTreeError {
    /// The keys are not in search order.
    BinarySearchTreeError,
    /// The colors break a red-black rule.
    RedBlackTreeError,
    /// A semigroup value differs from the one computed from its node and children.
    SemigroupError,
}

/// The semigroup value of the node `id`, if it is in the tree.
pub open spec fn semigroup_value_at<K, V, S>(t: BinaryTree<SemigroupRbNode<K, V, S>>, id: NodeId) -> Option<S> {
    if t.contains_spec(id) {
        Some(t.node_spec(id).data_spec().semigroup_value_spec())
    } else {
        None
    }
}

/// The arguments from which the semigroup value of the node `id` is computed.
pub open spec fn op_args_defined<K, V, S: TreeSemigroup<K>>(t: BinaryTree<SemigroupRbNode<K, V, S>>, id: NodeId) -> bool {
    let n = t.node_spec(id);
    S::op_defined(n.data_spec().key_spec(), semigroup_value_at(t, n.left_spec()), semigroup_value_at(t, n.right_spec()))
}

/// Every node below `id` holds the semigroup value computed from its key and the values
/// of its children.
pub open spec fn semigroup_values_ok<K, V, S: TreeSemigroup<K>>(t: BinaryTree<SemigroupRbNode<K, V, S>>, id: NodeId) -> bool
    decreases t.rank_spec(id),
    when t.wf()
{
    if !t.contains_spec(id) {
        true
    } else {
        let n = t.node_spec(id);
        proof {
            lemma_children_ranks(t, id);
        }
        &&& n.data_spec().semigroup_value_spec() == S::op_spec(
            n.data_spec().key_spec(),
            semigroup_value_at(t, n.left_spec()),
            semigroup_value_at(t, n.right_spec()),
        )
        &&& (t.contains_spec(n.left_spec()) ==> semigroup_values_ok(t, n.left_spec()))
        &&& (t.contains_spec(n.right_spec()) ==> semigroup_values_ok(t, n.right_spec()))
    }
}

/// Checks the semigroup values below the node the cursor points at.
fn check_semigroup_values_recursive<K, V, S: TreeSemigroup<K> + PartialEq>(
    cursor: Cursor<'_, SemigroupRbNode<K, V, S>>,
) -> (r: bool)
    requires
        cursor.tree_spec().wf(),
        obeys_concrete_eq::<S>(),
        forall|id: NodeId| #[trigger] cursor.tree_spec().contains_spec(id) ==> op_args_defined(cursor.tree_spec(), id),
    ensures
        r == semigroup_values_ok(cursor.tree_spec(), cursor.id_spec()),
    decreases cursor_rank(cursor),
{
    let ghost t = cursor.tree_spec();
    let ghost id = cursor.id_spec();
    let node = match cursor.get() {
        Some(node) => node,
        None => return true,
    };
    proof {
        lemma_children_ranks(t, id);
        reveal(obeys_concrete_eq);
        reveal(obeys_eq_spec_properties);
        assert(op_args_defined(t, id));
    }
    let left = match cursor.peek_left() {
        Some(l) => Some(l.semigroup_value()),
        None => None,
    };
    let right = match cursor.peek_right() {
        Some(r) => Some(r.semigroup_value()),
        None => None,
    };
    let semigroup_value = S::op(node.key(), left, right);
    if !(*node.semigroup_value() == semigroup_value) {
        return false;
    }
    let mut left_cursor = cursor.clone();
    let mut right_cursor = cursor.clone();
    left_cursor.move_left();
    right_cursor.move_right();
    check_semigroup_values_recursive(left_cursor) && check_semigroup_values_recursive(right_cursor)
}

/// Every node below `id` holds the semigroup value computed from its own key and the values
/// of its own children.
pub open spec fn values_ok_in_subtree<K, V, S: TreeSemigroup<K>>(t: BinaryTree<SemigroupRbNode<K, V, S>>, id: NodeId) -> bool {
    forall|w: NodeId| #[trigger] subtree_ids(t, id).contains(w) ==> sv_ok_at(t, w)
}

/// The semigroup values below `id` are right exactly when every node below `id`, whichever
/// side it lies on, holds the value computed from its key and its children's values.
pub proof fn lemma_values_ok_in_subtree<K, V, S: TreeSemigroup<K>>(t: BinaryTree<SemigroupRbNode<K, V, S>>, id: NodeId)
    requires
        t.wf(),
    ensures
        semigroup_values_ok(t, id) <==> values_ok_in_subtree(t, id),
    decreases t.rank_spec(id),
{
    lemma_subtree_ids(t, id);
    if t.contains_spec(id) {
        let n = t.node_spec(id);
        let l = n.left_spec();
        let r = n.right_spec();
        lemma_children_ranks(t, id);
        lemma_subtree_split(t, id);
        lemma_subtree_ids(t, l);
        lemma_subtree_ids(t, r);
        if t.contains_spec(l) {
            lemma_values_ok_in_subtree(t, l);
        }
        if t.contains_spec(r) {
            lemma_values_ok_in_subtree(t, r);
        }
        if values_ok_in_subtree(t, id) {
            assert(sv_ok_at(t, id));
            assert forall|w: NodeId| #[trigger] subtree_ids(t, l).contains(w) implies sv_ok_at(t, w) by {
                assert(subtree_ids(t, id).contains(w));
            }
            assert forall|w: NodeId| #[trigger] subtree_ids(t, r).contains(w) implies sv_ok_at(t, w) by {
                assert(subtree_ids(t, id).contains(w));
            }
        }
        if semigroup_values_ok(t, id) {
            assert forall|w: NodeId| #[trigger] subtree_ids(t, id).contains(w) implies sv_ok_at(t, w) by {
                if subtree_ids(t, l).contains(w) {
                } else if subtree_ids(t, r).contains(w) {
                } else {
                    assert(w == id);
                }
            }
        }
    }
}

/// The pair of two semigroups computes each component from the same component of the left
/// child's value and of the right child's value, in that order, and is defined where both
/// components are.
pub proof fn lemma_pair_op<K, S1: TreeSemigroup<K>, S2: TreeSemigroup<K>>(
    key: K,
    left: Option<(S1, S2)>,
    right: Option<(S1, S2)>,
)
    ensures
        ({
            let l1 = match left {
                Some(p) => Some(p.0),
                None => None,
            };
            let r1 = match right {
                Some(p) => Some(p.0),
                None => None,
            };
            let l2 = match left {
                Some(p) => Some(p.1),
                None => None,
            };
            let r2 = match right {
                Some(p) => Some(p.1),
                None => None,
            };
            &&& <(S1, S2) as TreeSemigroup<K>>::op_spec(key, left, right) == (S1::op_spec(key, l1, r1), S2::op_spec(key, l2, r2))
            &&& <(S1, S2) as TreeSemigroup<K>>::op_defined(key, left, right) == (S1::op_defined(key, l1, r1)
                && S2::op_defined(key, l2, r2))
        }),
{
}

/// The first and the last key of the inorder sequence below `id`.
pub open spec fn key_range<K, V, S>(t: BinaryTree<SemigroupRbNode<K, V, S>>, id: NodeId) -> CanonInterval<K> {
    let s = inorder(t, id);
    CanonInterval(t.node_spec(s[0]).data_spec().key_spec(), t.node_spec(s.last()).data_spec().key_spec())
}

/// With right interval values, the interval kept at a node holds the first and the last key
/// of its subtree in inorder: its smallest and largest key when the keys are in search order.
pub proof fn lemma_interval_values<K: Copy, V>(t: BinaryTree<SemigroupRbNode<K, V, CanonInterval<K>>>, id: NodeId)
    requires
        t.wf(),
        t.contains_spec(id),
        semigroup_values_ok(t, id),
    ensures
        inorder(t, id).len() > 0,
        t.node_spec(id).data_spec().semigroup_value_spec() == key_range(t, id),
    decreases t.rank_spec(id),
{
    let n = t.node_spec(id);
    let l = n.left_spec();
    let r = n.right_spec();
    lemma_children_ranks(t, id);
    lemma_inorder_unfold(t, id);
    lemma_inorder_unfold(t, l);
    lemma_inorder_unfold(t, r);
    if t.contains_spec(l) {
        lemma_interval_values(t, l);
    }
    if t.contains_spec(r) {
        lemma_interval_values(t, r);
    }
    let s = inorder(t, id);
    let sl = inorder(t, l);
    let sr = inorder(t, r);
    assert(s == sl + seq![id] + sr);
    if t.contains_spec(l) {
        assert(s[0] == sl[0]);
    } else {
        assert(s[0] == id);
    }
    if t.contains_spec(r) {
        assert(s.last() == sr.last());
    } else {
        assert(s.last() == id);
    }
}

/// With right height values, the count kept at a node is the number of nodes in its
/// subtree's inorder sequence, saturated at `usize::MAX`.
pub proof fn lemma_height_values<K, V>(t: BinaryTree<SemigroupRbNode<K, V, Height>>, id: NodeId)
    requires
        t.wf(),
        t.contains_spec(id),
        semigroup_values_ok(t, id),
    ensures
        t.node_spec(id).data_spec().semigroup_value_spec().0 == (if inorder(t, id).len() <= usize::MAX {
            inorder(t, id).len()
        } else {
            usize::MAX as nat
        }),
    decreases t.rank_spec(id),
{
    let n = t.node_spec(id);
    let l = n.left_spec();
    let r = n.right_spec();
    lemma_children_ranks(t, id);
    lemma_inorder_unfold(t, id);
    lemma_inorder_unfold(t, l);
    lemma_inorder_unfold(t, r);
    if t.contains_spec(l) {
        lemma_height_values(t, l);
    }
    if t.contains_spec(r) {
        lemma_height_values(t, r);
    }
    assert(inorder(t, id).len() == inorder(t, l).len() + 1 + inorder(t, r).len());
}

/// With right values of a pair whose first component is an interval, that component at a
/// node holds the first and the last key of its subtree in inorder, whatever the second
/// component is.
pub proof fn lemma_pair_interval_values<K: Copy, V, S2: TreeSemigroup<K>>(
    t: BinaryTree<SemigroupRbNode<K, V, (CanonInterval<K>, S2)>>,
    id: NodeId,
)
    requires
        t.wf(),
        t.contains_spec(id),
        semigroup_values_ok(t, id),
    ensures
        inorder(t, id).len() > 0,
        t.node_spec(id).data_spec().semigroup_value_spec().0 == key_range(t, id),
    decreases t.rank_spec(id),
{
    let n = t.node_spec(id);
    let l = n.left_spec();
    let r = n.right_spec();
    lemma_children_ranks(t, id);
    lemma_inorder_unfold(t, id);
    lemma_inorder_unfold(t, l);
    lemma_inorder_unfold(t, r);
    if t.contains_spec(l) {
        lemma_pair_interval_values(t, l);
    }
    if t.contains_spec(r) {
        lemma_pair_interval_values(t, r);
    }
    let s = inorder(t, id);
    let sl = inorder(t, l);
    let sr = inorder(t, r);
    assert(s == sl + seq![id] + sr);
    if t.contains_spec(l) {
        assert(s[0] == sl[0]);
    } else {
        assert(s[0] == id);
    }
    if t.contains_spec(r) {
        assert(s.last() == sr.last());
    } else {
        assert(s.last() == id);
    }
}

/// Whether every node holds the semigroup value computed from its key and the values of
/// its children.
pub fn check_semigroup_values<K, V, S: TreeSemigroup<K> + PartialEq>(tree: &BinaryTree<SemigroupRbNode<K, V, S>>) -> (r: bool)
    requires
        tree.wf(),
        obeys_concrete_eq::<S>(),
        forall|id: NodeId| #[trigger] tree.contains_spec(id) ==> op_args_defined(*tree, id),
    ensures
        r == semigroup_values_ok(*tree, tree.root_spec()),
        r == values_ok_in_subtree(*tree, tree.root_spec()),
{
    proof {
        lemma_values_ok_in_subtree(*tree, tree.root_spec());
    }
    check_semigroup_values_recursive(tree.cursor())
}

/// A red-black search tree whose nodes live in a `BinaryTree` and keep semigroup values.
pub struct SemigroupRbTree<K, V, S>(BinaryTree<SemigroupRbNode<K, V, S>>);

impl<K, V, S> SemigroupRbTree<K, V, S> {
    /// The binary tree holding the nodes.
    pub closed spec fn inner_spec(self) -> BinaryTree<SemigroupRbNode<K, V, S>> {
        self.0
    }

    /// The binary tree holding the nodes is well formed.
    #[verifier::type_invariant]
    spec fn inner_wf(self) -> bool {
        self.0.wf()
    }

    /// An empty tree.
    pub fn new() -> (r: Self)
        ensures
            r.inner_spec().wf(),
            r.inner_spec().len_spec() == 0,
            r.inner_spec().slots_spec() == 0,
            r.inner_spec().root_spec().is_null_spec(),
            !r.inner_spec().contains_spec(r.inner_spec().root_spec()),
    {
        SemigroupRbTree(BinaryTree::new())
    }

    /// The binary tree holding the nodes.
    pub fn inner(&self) -> (r: &BinaryTree<SemigroupRbNode<K, V, S>>)
        ensures
            *r == self.inner_spec(),
            r.wf(),
    {
        proof {
            use_type_invariant(self);
        }
        &self.0
    }

    /// The data of the root node, if the tree is not empty.
    pub fn root(&self) -> (r: Option<&SemigroupRbNode<K, V, S>>)
        ensures
            r == (if self.inner_spec().contains_spec(self.inner_spec().root_spec()) {
                Some(&self.inner_spec().node_spec(self.inner_spec().root_spec()).data_spec())
            } else {
                None
            }),
    {
        match self.0.root() {
            Some(node) => Some(node.data()),
            None => None,
        }
    }
}

impl<K: Ord, V, S: TreeSemigroup<K> + PartialEq> SemigroupRbTree<K, V, S> {
    /// The tree is a well-formed red-black search tree with correct semigroup values.
    pub open spec fn valid(self) -> bool {
        &&& self.inner_spec().wf()
        &&& is_binary_search_tree_spec(self.inner_spec())
        &&& is_red_black_tree_spec(self.inner_spec())
        &&& semigroup_values_ok(self.inner_spec(), self.inner_spec().root_spec())
    }

    /// A valid tree whose root has no parent and in which every node of the arena holds the
    /// right semigroup value is a search map with right values, so it can be edited.
    pub proof fn lemma_valid_is_semigroup_map(self)
        requires
            key_order_laws::<K>(),
            self.valid(),
            root_has_no_parent(self.inner_spec()),
            all_values_ok(self.inner_spec()),
        ensures
            self.is_semigroup_map(),
    {
        lemma_bst_is_sorted::<K, SemigroupRbNode<K, V, S>>(self.inner_spec(), self.inner_spec().root_spec());
    }

    /// Accepts a binary tree as a red-black tree with semigroup values if its keys are in
    /// search order, its colors obey the red-black rules and every semigroup value is the
    /// one computed from its node and children.
    pub fn from_binary_tree(tree: BinaryTree<SemigroupRbNode<K, V, S>>) -> (r: Result<Self, SemigroupRbTreeError>)
        requires
            key_order_laws::<K>(),
            obeys_concrete_eq::<S>(),
            tree.wf(),
            forall|id: NodeId| #[trigger] tree.contains_spec(id) ==> op_args_defined(tree, id),
        ensures
            !is_binary_search_tree_spec(tree) ==> r == Err::<Self, SemigroupRbTreeError>(
                SemigroupRbTreeError::BinarySearchTreeError,
            ),
            is_binary_search_tree_spec(tree) && !is_red_black_tree_spec(tree) ==> r == Err::<Self, SemigroupRbTreeError>(
                SemigroupRbTreeError::RedBlackTreeError,
            ),
            is_binary_search_tree_spec(tree) && is_red_black_tree_spec(tree) && !semigroup_values_ok(tree, tree.root_spec())
                ==> r == Err::<Self, SemigroupRbTreeError>(SemigroupRbTreeError::SemigroupError),
            is_binary_search_tree_spec(tree) && is_red_black_tree_spec(tree) && semigroup_values_ok(tree, tree.root_spec())
                ==> r is Ok && r.unwrap().inner_spec() == tree && r.unwrap().valid(),
            r is Ok ==> values_ok_in_subtree(tree, tree.root_spec()),
    {
        proof {
            lemma_values_ok_in_subtree(tree, tree.root_spec());
        }
        if !is_binary_search_tree(&tree) {
            return Err(SemigroupRbTreeError::BinarySearchTreeError);
        }
        if !is_red_black_tree(&tree) {
            return Err(SemigroupRbTreeError::RedBlackTreeError);
        }
        if !check_semigroup_values(&tree) {
            return Err(SemigroupRbTreeError::SemigroupError);
        }
        Ok(SemigroupRbTree(tree))
    }
}

/// The computation of semigroup values is defined on all arguments.
pub open spec fn op_total<K, S: TreeSemigroup<K>>() -> bool {
    forall|k: K, l: Option<S>, r: Option<S>| #[trigger] S::op_defined(k, l, r)
}

/// The node `w` holds the semigroup value computed from its key and the values of its
/// children.
pub open spec fn sv_ok_at<K, V, S: TreeSemigroup<K>>(t: BinaryTree<SemigroupRbNode<K, V, S>>, w: NodeId) -> bool {
    let n = t.node_spec(w);
    n.data_spec().semigroup_value_spec() == S::op_spec(
        n.data_spec().key_spec(),
        semigroup_value_at(t, n.left_spec()),
        semigroup_value_at(t, n.right_spec()),
    )
}

/// Every node holds the right semigroup value.
pub open spec fn all_values_ok<K, V, S: TreeSemigroup<K>>(t: BinaryTree<SemigroupRbNode<K, V, S>>) -> bool {
    forall|w: NodeId| #[trigger] t.contains_spec(w) ==> sv_ok_at(t, w)
}

/// Every node holds the right semigroup value, but perhaps those above `c`, whose subtrees
/// hold `c`.
pub open spec fn values_ok_except_above<K, V, S: TreeSemigroup<K>>(t: BinaryTree<SemigroupRbNode<K, V, S>>, c: NodeId) -> bool {
    forall|w: NodeId| #[trigger] t.contains_spec(w) && !(subtree_ids(t, w).contains(c) && w != c) ==> sv_ok_at(t, w)
}

/// Every node holds the right semigroup value, but perhaps `c` and those above it.
pub open spec fn values_ok_off_path<K, V, S: TreeSemigroup<K>>(t: BinaryTree<SemigroupRbNode<K, V, S>>, c: NodeId) -> bool {
    forall|w: NodeId| #[trigger] t.contains_spec(w) && !subtree_ids(t, w).contains(c) ==> sv_ok_at(t, w)
}

/// When every node holds the right semigroup value, so does every node below any node.
pub proof fn lemma_all_values_ok<K, V, S: TreeSemigroup<K>>(t: BinaryTree<SemigroupRbNode<K, V, S>>, id: NodeId)
    requires
        t.wf(),
        all_values_ok(t),
    ensures
        semigroup_values_ok(t, id),
    decreases t.rank_spec(id),
{
    if t.contains_spec(id) {
        let n = t.node_spec(id);
        lemma_children_ranks(t, id);
        assert(sv_ok_at(t, id));
        if t.contains_spec(n.left_spec()) {
            lemma_all_values_ok(t, n.left_spec());
        }
        if t.contains_spec(n.right_spec()) {
            lemma_all_values_ok(t, n.right_spec());
        }
    }
}

/// Trees with the same nodes, links, keys and semigroup values have the same nodes with
/// right values, and the same subtrees.
pub proof fn lemma_values_transfer<K, V, S: TreeSemigroup<K>>(
    t0: BinaryTree<SemigroupRbNode<K, V, S>>,
    t1: BinaryTree<SemigroupRbNode<K, V, S>>,
)
    requires
        t0.wf(),
        t1.wf(),
        t1.root_spec() == t0.root_spec(),
        forall|z: NodeId| #[trigger] t1.contains_spec(z) == t0.contains_spec(z),
        forall|z: NodeId| #[trigger] t0.contains_spec(z) ==> {
            &&& t1.node_spec(z).parent_spec() == t0.node_spec(z).parent_spec()
            &&& t1.node_spec(z).left_spec() == t0.node_spec(z).left_spec()
            &&& t1.node_spec(z).right_spec() == t0.node_spec(z).right_spec()
            &&& t1.node_spec(z).data_spec().key_spec() == t0.node_spec(z).data_spec().key_spec()
            &&& t1.node_spec(z).data_spec().semigroup_value_spec() == t0.node_spec(z).data_spec().semigroup_value_spec()
        },
    ensures
        forall|w: NodeId| #[trigger] subtree_ids(t1, w) == subtree_ids(t0, w),
        forall|w: NodeId| #[trigger] t0.contains_spec(w) ==> sv_ok_at(t1, w) == sv_ok_at(t0, w),
        forall|c: NodeId| #[trigger] values_ok_except_above(t0, c) ==> values_ok_except_above(t1, c),
        forall|c: NodeId| #[trigger] values_ok_off_path(t0, c) ==> values_ok_off_path(t1, c),
        all_values_ok(t0) ==> all_values_ok(t1),
{
    lemma_same_links(t0, t1);
    assert forall|w: NodeId| #[trigger] t0.contains_spec(w) implies sv_ok_at(t1, w) == sv_ok_at(t0, w) by {
        let n = t0.node_spec(w);
        assert(semigroup_value_at(t1, n.left_spec()) == semigroup_value_at(t0, n.left_spec()));
        assert(semigroup_value_at(t1, n.right_spec()) == semigroup_value_at(t0, n.right_spec()));
    }
    assert forall|c: NodeId| #[trigger] values_ok_except_above(t0, c) implies values_ok_except_above(t1, c) by {
        assert forall|w: NodeId| #[trigger] t1.contains_spec(w) && !(subtree_ids(t1, w).contains(c) && w != c) implies sv_ok_at(t1, w) by {
            assert(t0.contains_spec(w));
        }
    }
    assert forall|c: NodeId| #[trigger] values_ok_off_path(t0, c) implies values_ok_off_path(t1, c) by {
        assert forall|w: NodeId| #[trigger] t1.contains_spec(w) && !subtree_ids(t1, w).contains(c) implies sv_ok_at(t1, w) by {
            assert(t0.contains_spec(w));
        }
    }
    if all_values_ok(t0) {
        assert forall|w: NodeId| #[trigger] t1.contains_spec(w) implies sv_ok_at(t1, w) by {
            assert(t0.contains_spec(w));
        }
    }
}

/// Recomputing the semigroup value of `c` makes it right; nodes off the path through `c`
/// stay right, so afterwards only the nodes above `c` may be wrong.
pub proof fn lemma_recompute_values<K, V, S: TreeSemigroup<K>>(
    t0: BinaryTree<SemigroupRbNode<K, V, S>>,
    t1: BinaryTree<SemigroupRbNode<K, V, S>>,
    c: NodeId,
    d: SemigroupRbNode<K, V, S>,
)
    requires
        t0.wf(),
        t0.contains_spec(c),
        t0.data_updated(t1, c, d),
        d.key_spec() == t0.node_spec(c).data_spec().key_spec(),
        d.semigroup_value_spec() == S::op_spec(
            d.key_spec(),
            semigroup_value_at(t0, t0.node_spec(c).left_spec()),
            semigroup_value_at(t0, t0.node_spec(c).right_spec()),
        ),
    ensures
        t1.wf(),
        forall|w: NodeId| #[trigger] subtree_ids(t1, w) == subtree_ids(t0, w),
        values_ok_off_path(t0, c) ==> values_ok_except_above(t1, c),
{
    lemma_with_data(t0, t1, c, d);
    assert forall|x: NodeId| #[trigger] t0.contains_spec(x) && x != c implies t1.node_spec(x) == t0.node_spec(x) by {
        assert(!set![c].contains(x));
    }
    lemma_same_links(t0, t1);
    if values_ok_off_path(t0, c) {
        assert forall|w: NodeId| #[trigger] t1.contains_spec(w) && !(subtree_ids(t1, w).contains(c) && w != c) implies sv_ok_at(t1, w) by {
            assert(t0.node_ok(c));
            let nc = t0.node_spec(c);
            if w == c {
                lemma_children_ranks(t0, c);
                if t0.contains_spec(nc.left_spec()) {
                    assert(nc.left_spec() != c);
                }
                if t0.contains_spec(nc.right_spec()) {
                    assert(nc.right_spec() != c);
                }
                assert(semigroup_value_at(t1, nc.left_spec()) == semigroup_value_at(t0, nc.left_spec()));
                assert(semigroup_value_at(t1, nc.right_spec()) == semigroup_value_at(t0, nc.right_spec()));
            } else {
                assert(!subtree_ids(t0, w).contains(c));
                assert(sv_ok_at(t0, w));
                let nw = t0.node_spec(w);
                lemma_subtree_split(t0, w);
                lemma_subtree_ids(t0, nw.left_spec());
                lemma_subtree_ids(t0, nw.right_spec());
                if nw.left_spec() == c {
                    assert(subtree_ids(t0, nw.left_spec()).contains(c));
                }
                if nw.right_spec() == c {
                    assert(subtree_ids(t0, nw.right_spec()).contains(c));
                }
                assert(semigroup_value_at(t1, nw.left_spec()) == semigroup_value_at(t0, nw.left_spec()));
                assert(semigroup_value_at(t1, nw.right_spec()) == semigroup_value_at(t0, nw.right_spec()));
            }
        }
    }
}

/// When only the nodes above `c` may be wrong, only `c`'s parent and those above it may be
/// wrong; above the root, no node.
pub proof fn lemma_up_values<K: Ord, V, S: TreeSemigroup<K>>(t: BinaryTree<SemigroupRbNode<K, V, S>>, c: NodeId)
    requires
        t.wf(),
        fixup_ready(t, c),
        values_ok_except_above(t, c),
    ensures
        values_ok_off_path(t, if t.contains_spec(c) { t.node_spec(c).parent_spec() } else { NodeId::null_spec() }),
{
    let p = if t.contains_spec(c) { t.node_spec(c).parent_spec() } else { NodeId::null_spec() };
    assert forall|w: NodeId| #[trigger] t.contains_spec(w) && !subtree_ids(t, w).contains(p) implies sv_ok_at(t, w) by {
        lemma_subtree_ids(t, w);
        if subtree_ids(t, w).contains(c) && w != c {
            lemma_subtree_parent(t, w, c);
        }
    }
}

/// Moving down from `c` keeps every node but those above the new position right.
pub proof fn lemma_down_values<K, V, S: TreeSemigroup<K>>(t: BinaryTree<SemigroupRbNode<K, V, S>>, c: NodeId, side: Side)
    requires
        t.wf(),
        t.contains_spec(c),
        t.contains_spec(t.node_spec(c).child_spec(side)),
        values_ok_except_above(t, c),
    ensures
        values_ok_except_above(t, t.node_spec(c).child_spec(side)),
{
    let ch = t.node_spec(c).child_spec(side);
    lemma_subtree_split(t, c);
    lemma_subtree_ids(t, ch);
    lemma_subtree_ids(t, c);
    assert(subtree_ids(t, c).contains(ch));
    assert forall|w: NodeId| #[trigger] t.contains_spec(w) && !(subtree_ids(t, w).contains(ch) && w != ch) implies sv_ok_at(t, w) by {
        if subtree_ids(t, w).contains(c) && w != c {
            lemma_subtree_nested(t, w, c);
            lemma_subtree_ids(t, w);
            assert(subtree_ids(t, w).contains(ch));
            assert(t.rank_spec(ch) < t.rank_spec(c));
        } else if w == c {
            assert(subtree_ids(t, c).contains(ch));
            assert(ch != c);
        }
    }
}

/// When only the nodes above `x` may be wrong, a rotation around `x` leaves right every
/// node but `x` and those above it.
pub proof fn lemma_rotation_values<K: Ord, V, S: TreeSemigroup<K>>(
    t0: BinaryTree<SemigroupRbNode<K, V, S>>,
    t1: BinaryTree<SemigroupRbNode<K, V, S>>,
    x: NodeId,
    dir: Side,
)
    requires
        t0.wf(),
        t1.wf(),
        t0.rotated_at(t1, x, dir),
        fixup_ready(t0, x),
        values_ok_except_above(t0, x),
    ensures
        values_ok_off_path(t1, x),
{
    let nx = t0.node_spec(x);
    let y = nx.child_spec(dir.opposite());
    if t0.contains_spec(x) && t0.contains_spec(y) {
        let ny = t0.node_spec(y);
        let b = ny.child_spec(dir);
        let p = nx.parent_spec();
        lemma_subtree_ids(t0, t0.root_spec());
        lemma_rotation_inorder(t0, t1, x, dir);
        lemma_relink(nx.with_parent_spec(y), b, dir.opposite());
        lemma_relink(nx, y, dir.opposite());
        lemma_relink(ny.with_parent_spec(p), x, dir);
        lemma_relink(ny, p, dir);
        assert(subtree_ids(t1, y).contains(x)) by {
            lemma_subtree_split(t1, y);
            lemma_subtree_ids(t1, x);
            assert(t1.node_spec(y).child_spec(dir) == x);
        }
        if t0.contains_spec(p) {
            assert(t0.node_ok(x));
            lemma_contains_not_null(t0, p);
            assert(t0.node_spec(p).child_spec(t0.node_spec(p).side_of_spec(x).unwrap()) == x);
            lemma_subtree_split(t0, p);
            lemma_subtree_ids(t0, x);
            assert(subtree_ids(t0, p).contains(x));
        }
        assert forall|w: NodeId| #[trigger] t1.contains_spec(w) && !subtree_ids(t1, w).contains(x) implies sv_ok_at(t1, w) by {
            assert(t0.contains_spec(w));
            assert(w != x);
            assert(w != y);
            assert(w != p);
            if subtree_ids(t0, w).contains(x) {
                assert(subtree_ids(t1, w).contains(x));
            }
            assert(sv_ok_at(t0, w));
            let nw = t0.node_spec(w);
            if w == b {
                lemma_relink(t0.node_spec(b), x, dir);
            } else {
                assert(!set![x, y, b, p].contains(w));
            }
            assert(t1.node_spec(w).left_spec() == nw.left_spec());
            assert(t1.node_spec(w).right_spec() == nw.right_spec());
            assert(semigroup_value_at(t1, nw.left_spec()) == semigroup_value_at(t0, nw.left_spec()));
            assert(semigroup_value_at(t1, nw.right_spec()) == semigroup_value_at(t0, nw.right_spec()));
        }
    } else {
        assert forall|w: NodeId| #[trigger] t1.contains_spec(w) && !subtree_ids(t1, w).contains(x) implies sv_ok_at(t1, w) by {
            assert(t0.contains_spec(w));
        }
    }
}

/// When only the nodes above `c` may be wrong, attaching a new leaf with the value of a
/// leaf below `c` leaves right every node but `c` and those above it.
pub proof fn lemma_attach_values<K: Ord, V, S: TreeSemigroup<K>>(
    t0: BinaryTree<SemigroupRbNode<K, V, S>>,
    t1: BinaryTree<SemigroupRbNode<K, V, S>>,
    c: NodeId,
    n: NodeId,
    side: Side,
)
    requires
        t0.wf(),
        t1.wf(),
        t0.contains_spec(c),
        t0.node_spec(c).child_spec(side).is_null_spec(),
        !t0.contains_spec(n),
        t1.contains_spec(n),
        t1.node_spec(c) == t0.node_spec(c).with_child_spec(n, side),
        t1.node_spec(n).left_spec().is_null_spec(),
        t1.node_spec(n).right_spec().is_null_spec(),
        t1.node_spec(n).parent_spec() == c,
        t1.node_spec(n).data_spec().semigroup_value_spec() == S::op_spec(t1.node_spec(n).data_spec().key_spec(), None, None),
        t1.same_outside(t0, set![c, n]),
        forall|x: NodeId| #[trigger] t1.contains_spec(x) == (t0.contains_spec(x) || x == n),
        subtree_ids(t0, t0.root_spec()).contains(c),
        t1.root_spec() == t0.root_spec(),
        values_ok_except_above(t0, c),
    ensures
        values_ok_off_path(t1, c),
{
    lemma_attach_inorder(t0, t1, c, n, side);
    lemma_relink(t0.node_spec(c), n, side);
    let nn = t1.node_spec(n);
    if t1.contains_spec(nn.left_spec()) {
        lemma_contains_not_null(t1, nn.left_spec());
    }
    if t1.contains_spec(nn.right_spec()) {
        lemma_contains_not_null(t1, nn.right_spec());
    }
    assert forall|w: NodeId| #[trigger] t1.contains_spec(w) && !subtree_ids(t1, w).contains(c) implies sv_ok_at(t1, w) by {
        if w == n {
        } else {
            assert(t0.contains_spec(w));
            lemma_subtree_ids(t0, w);
            assert(w != c) by {
                lemma_subtree_ids(t1, c);
            }
            assert(!subtree_ids(t0, w).contains(c));
            assert(sv_ok_at(t0, w));
            assert(!set![c, n].contains(w));
            let nw = t0.node_spec(w);
            lemma_subtree_split(t0, w);
            lemma_subtree_ids(t0, nw.left_spec());
            lemma_subtree_ids(t0, nw.right_spec());
            if nw.left_spec() == c {
                assert(subtree_ids(t0, nw.left_spec()).contains(c));
            }
            if nw.right_spec() == c {
                assert(subtree_ids(t0, nw.right_spec()).contains(c));
            }
            assert(t0.node_ok(w));
            if nw.left_spec() == n {
                lemma_contains_not_null(t1, n);
                assert(!t0.contains_spec(n));
            }
            if nw.right_spec() == n {
                lemma_contains_not_null(t1, n);
            }
            assert(semigroup_value_at(t1, nw.left_spec()) == semigroup_value_at(t0, nw.left_spec()));
            assert(semigroup_value_at(t1, nw.right_spec()) == semigroup_value_at(t0, nw.right_spec()));
        }
    }
}

/// Detaching a leaf below a root without parent, when only the leaf and the nodes above it
/// may be wrong, leaves right every node but its parent and those above it.
pub proof fn lemma_detach_values<K: Ord, V, S: TreeSemigroup<K>>(
    t1: BinaryTree<SemigroupRbNode<K, V, S>>,
    t2: BinaryTree<SemigroupRbNode<K, V, S>>,
    x: NodeId,
)
    requires
        t1.wf(),
        t2.wf(),
        root_has_no_parent(t1),
        subtree_ids(t1, t1.root_spec()).contains(x),
        t1.node_spec(x).left_spec().is_null_spec(),
        t1.node_spec(x).right_spec().is_null_spec(),
        ({
            let p = t1.node_spec(x).parent_spec();
            &&& t1.contains_spec(p) ==> t2.node_spec(p) == t1.node_spec(p).with_child_spec(
                NodeId::null_spec(),
                t1.node_spec(p).side_of_spec(x).unwrap(),
            )
            &&& t2.same_outside(t1, set![p, x])
        }),
        !t2.contains_spec(x),
        t2.root_spec() == (if t1.root_spec() == x { NodeId::null_spec() } else { t1.root_spec() }),
        forall|z: NodeId| #[trigger] t2.contains_spec(z) == (t1.contains_spec(z) && z != x),
        values_ok_off_path(t1, x),
    ensures
        values_ok_off_path(t2, t1.node_spec(x).parent_spec()),
{
    let p = t1.node_spec(x).parent_spec();
    lemma_detach_inorder(t1, t2, x);
    lemma_subtree_ids(t1, t1.root_spec());
    assert(t1.node_ok(x));
    assert forall|w: NodeId| #[trigger] t2.contains_spec(w) && !subtree_ids(t2, w).contains(p) implies sv_ok_at(t2, w) by {
        assert(t1.contains_spec(w));
        assert(w != x);
        lemma_subtree_ids(t1, w);
        lemma_subtree_ids(t2, w);
        if t1.contains_spec(p) {
            assert(w != p) by {
                lemma_subtree_ids(t2, p);
            }
        }
        if subtree_ids(t1, w).contains(x) {
            lemma_subtree_parent(t1, w, x);
            assert(subtree_ids(t2, w).contains(p));
        }
        if subtree_ids(t1, w).contains(p) {
            assert(subtree_ids(t2, w).contains(p));
        }
        assert(sv_ok_at(t1, w));
        assert(!set![p, x].contains(w));
        assert(t2.node_spec(w) == t1.node_spec(w));
        let nw = t1.node_spec(w);
        lemma_subtree_split(t1, w);
        lemma_subtree_ids(t1, nw.left_spec());
        lemma_subtree_ids(t1, nw.right_spec());
        if nw.left_spec() == x {
            assert(subtree_ids(t1, nw.left_spec()).contains(x));
        }
        if nw.right_spec() == x {
            assert(subtree_ids(t1, nw.right_spec()).contains(x));
        }
        if nw.left_spec() == p && t1.contains_spec(p) {
            assert(subtree_ids(t1, nw.left_spec()).contains(p));
        }
        if nw.right_spec() == p && t1.contains_spec(p) {
            assert(subtree_ids(t1, nw.right_spec()).contains(p));
        }
        assert(semigroup_value_at(t2, nw.left_spec()) == semigroup_value_at(t1, nw.left_spec()));
        assert(semigroup_value_at(t2, nw.right_spec()) == semigroup_value_at(t1, nw.right_spec()));
    }
}

/// Replacing a node with one child by that child, below a root without parent, when only
/// the node and those above it may be wrong, leaves right every node but those above the
/// child.
pub proof fn lemma_transplant_values<K: Ord, V, S: TreeSemigroup<K>>(
    t1: BinaryTree<SemigroupRbNode<K, V, S>>,
    t2: BinaryTree<SemigroupRbNode<K, V, S>>,
    x: NodeId,
)
    requires
        t1.wf(),
        t2.wf(),
        root_has_no_parent(t1),
        subtree_ids(t1, t1.root_spec()).contains(x),
        ({
            let nx = t1.node_spec(x);
            let has_left = t1.contains_spec(nx.left_spec());
            let has_right = t1.contains_spec(nx.right_spec());
            let ch = if has_left { nx.left_spec() } else { nx.right_spec() };
            let p = nx.parent_spec();
            &&& has_left != has_right
            &&& t2.node_spec(ch) == t1.node_spec(ch).with_parent_spec(p)
            &&& (t1.contains_spec(p) ==> t2.node_spec(p) == t1.node_spec(p).with_child_spec(
                ch,
                t1.node_spec(p).side_of_spec(x).unwrap(),
            ))
            &&& t2.same_outside(t1, set![x, ch, p])
            &&& t2.root_spec() == (if !t1.contains_spec(p) {
                ch
            } else if t1.root_spec() == x {
                NodeId::null_spec()
            } else {
                t1.root_spec()
            })
        }),
        !t2.contains_spec(x),
        forall|z: NodeId| #[trigger] t2.contains_spec(z) == (t1.contains_spec(z) && z != x),
        values_ok_off_path(t1, x),
    ensures
        ({
            let nx = t1.node_spec(x);
            let ch = if t1.contains_spec(nx.left_spec()) { nx.left_spec() } else { nx.right_spec() };
            values_ok_except_above(t2, ch)
        }),
{
    let nx = t1.node_spec(x);
    let ch = if t1.contains_spec(nx.left_spec()) { nx.left_spec() } else { nx.right_spec() };
    let p = nx.parent_spec();
    lemma_transplant_inorder(t1, t2, x);
    lemma_subtree_ids(t1, t1.root_spec());
    assert(t1.node_ok(x));
    lemma_subtree_split(t1, x);
    lemma_subtree_ids(t1, ch);
    lemma_subtree_ids(t1, x);
    lemma_children_ranks(t1, x);
    lemma_relink(t1.node_spec(ch), p, Side::Left);
    assert forall|w: NodeId| #[trigger] t2.contains_spec(w) && !(subtree_ids(t2, w).contains(ch) && w != ch) implies sv_ok_at(
        t2,
        w,
    ) by {
        assert(t1.contains_spec(w));
        assert(w != x);
        lemma_subtree_ids(t1, w);
        let nw = t1.node_spec(w);
        lemma_subtree_split(t1, w);
        lemma_subtree_ids(t1, nw.left_spec());
        lemma_subtree_ids(t1, nw.right_spec());
        if w == ch {
            assert(!subtree_ids(t1, ch).contains(x)) by {
                assert(t1.rank_spec(ch) < t1.rank_spec(x));
            }
            assert(sv_ok_at(t1, ch));
            if nw.left_spec() == x || nw.right_spec() == x {
                assert(t1.node_spec(x).parent_spec() == ch);
                assert(t1.rank_spec(x) < t1.rank_spec(ch));
            }
            assert(semigroup_value_at(t2, nw.left_spec()) == semigroup_value_at(t1, nw.left_spec()));
            assert(semigroup_value_at(t2, nw.right_spec()) == semigroup_value_at(t1, nw.right_spec()));
        } else {
            assert(!subtree_ids(t2, w).contains(ch));
            if subtree_ids(t1, w).contains(x) {
                assert(subtree_ids(t2, w).contains(ch));
            }
            assert(!subtree_ids(t1, w).contains(x));
            assert(sv_ok_at(t1, w));
            if t1.contains_spec(p) {
                assert(t1.node_spec(p).child_spec(t1.node_spec(p).side_of_spec(x).unwrap()) == x) by {
                    lemma_contains_not_null(t1, p);
                }
                lemma_subtree_split(t1, p);
                assert(subtree_ids(t1, p).contains(x));
                assert(w != p);
            }
            assert(!set![x, ch, p].contains(w));
            assert(t2.node_spec(w) == t1.node_spec(w));
            if nw.left_spec() == x {
                assert(subtree_ids(t1, nw.left_spec()).contains(x));
            }
            if nw.right_spec() == x {
                assert(subtree_ids(t1, nw.right_spec()).contains(x));
            }
            assert(semigroup_value_at(t2, nw.left_spec()) == semigroup_value_at(t1, nw.left_spec()));
            assert(semigroup_value_at(t2, nw.right_spec()) == semigroup_value_at(t1, nw.right_spec()));
        }
    }
}

/// Exchanging the keys and values of a node and a node below it, in a tree whose values are
/// all right, leaves right every node but the lower one and those above it.
pub proof fn lemma_swap_values<K: Ord, V, S: TreeSemigroup<K>>(
    t0: BinaryTree<SemigroupRbNode<K, V, S>>,
    t1: BinaryTree<SemigroupRbNode<K, V, S>>,
    c: NodeId,
    sc: NodeId,
)
    requires
        t0.wf(),
        t1.wf(),
        all_values_ok(t0),
        subtree_ids(t0, c).contains(sc),
        t1.root_spec() == t0.root_spec(),
        forall|z: NodeId| #[trigger] t1.contains_spec(z) == t0.contains_spec(z),
        forall|z: NodeId| #[trigger] t0.contains_spec(z) ==> {
            &&& t1.node_spec(z).parent_spec() == t0.node_spec(z).parent_spec()
            &&& t1.node_spec(z).left_spec() == t0.node_spec(z).left_spec()
            &&& t1.node_spec(z).right_spec() == t0.node_spec(z).right_spec()
            &&& t1.node_spec(z).data_spec().semigroup_value_spec() == t0.node_spec(z).data_spec().semigroup_value_spec()
            &&& (z != c && z != sc ==> t1.node_spec(z).data_spec().key_spec() == t0.node_spec(z).data_spec().key_spec())
        },
    ensures
        values_ok_off_path(t1, sc),
{
    lemma_same_links(t0, t1);
    assert forall|w: NodeId| #[trigger] t1.contains_spec(w) && !subtree_ids(t1, w).contains(sc) implies sv_ok_at(t1, w) by {
        assert(t0.contains_spec(w));
        assert(w != sc) by {
            lemma_subtree_ids(t0, w);
        }
        assert(w != c);
        assert(sv_ok_at(t0, w));
        let nw = t0.node_spec(w);
        assert(semigroup_value_at(t1, nw.left_spec()) == semigroup_value_at(t0, nw.left_spec()));
        assert(semigroup_value_at(t1, nw.right_spec()) == semigroup_value_at(t0, nw.right_spec()));
    }
}


/// `t1` is the well-formed tree `t0` with the semigroup value of the node `id` replaced, and
/// nothing else changed.
pub open spec fn revalued<K, V, S>(
    t0: BinaryTree<SemigroupRbNode<K, V, S>>,
    t1: BinaryTree<SemigroupRbNode<K, V, S>>,
    id: NodeId,
) -> bool {
    &&& t1.wf()
    &&& t1.root_spec() == t0.root_spec()
    &&& t1.rank_bound_spec() == t0.rank_bound_spec()
    &&& t1.slots_spec() == t0.slots_spec()
    &&& t1.len_spec() == t0.len_spec()
    &&& forall|x: NodeId| #[trigger] t1.contains_spec(x) == t0.contains_spec(x)
    &&& forall|x: NodeId| #[trigger] t0.contains_spec(x) ==> {
        &&& t1.rank_spec(x) == t0.rank_spec(x)
        &&& t1.node_spec(x).parent_spec() == t0.node_spec(x).parent_spec()
        &&& t1.node_spec(x).left_spec() == t0.node_spec(x).left_spec()
        &&& t1.node_spec(x).right_spec() == t0.node_spec(x).right_spec()
        &&& t1.node_spec(x).data_spec().key_spec() == t0.node_spec(x).data_spec().key_spec()
        &&& t1.node_spec(x).data_spec().value_spec() == t0.node_spec(x).data_spec().value_spec()
        &&& t1.node_spec(x).data_spec().color_spec() == t0.node_spec(x).data_spec().color_spec()
        &&& (x != id ==> t1.node_spec(x).data_spec().semigroup_value_spec()
            == t0.node_spec(x).data_spec().semigroup_value_spec())
    }
}

/// Replacing a semigroup value keeps the nodes, links and colors.
pub proof fn lemma_revalued_colors<K: Ord, V, S>(
    t0: BinaryTree<SemigroupRbNode<K, V, S>>,
    t1: BinaryTree<SemigroupRbNode<K, V, S>>,
    id: NodeId,
)
    requires
        revalued(t0, t1, id),
    ensures
        same_colors(t0, t1),
{
}

/// Replacing a semigroup value keeps the nodes, their keys and values, the inorder sequence
/// and the links.
pub proof fn lemma_revalued<K: Ord, V, S>(
    t0: BinaryTree<SemigroupRbNode<K, V, S>>,
    t1: BinaryTree<SemigroupRbNode<K, V, S>>,
    id: NodeId,
    z: NodeId,
)
    requires
        t0.wf(),
        revalued(t0, t1, id),
        fixup_ready(t0, z),
    ensures
        same_entries_order(t0, t1),
        fixup_ready(t1, z),
        forall|w: NodeId| #[trigger] subtree_ids(t1, w) == subtree_ids(t0, w),
{
    assert forall|w: NodeId| #[trigger] subtree_ids(t1, w) == subtree_ids(t0, w) by {
        lemma_subtree_ids(t0, w);
        assert(same_below(t0, t1, w));
        lemma_traversal_frame(t0, t1, w, TraversalOrder::Inorder);
    }
    let r = t0.root_spec();
    lemma_subtree_ids(t0, r);
    assert(same_below(t0, t1, r));
    lemma_traversal_frame(t0, t1, r, TraversalOrder::Inorder);
}

/// When only the nodes above `c` may hold wrong semigroup values and `c` has no parent in
/// the tree, every node holds the right value.
pub proof fn lemma_values_done<K: Ord, V, S: TreeSemigroup<K>>(t: BinaryTree<SemigroupRbNode<K, V, S>>, c: NodeId)
    requires
        t.wf(),
        fixup_ready(t, c),
        values_ok_except_above(t, c),
        !(t.contains_spec(c) && t.contains_spec(t.node_spec(c).parent_spec())),
    ensures
        all_values_ok(t),
{
    assert forall|w: NodeId| #[trigger] t.contains_spec(w) implies sv_ok_at(t, w) by {
        lemma_subtree_ids(t, w);
        if subtree_ids(t, w).contains(c) && w != c {
            assert(t.contains_spec(c));
            if c != t.root_spec() {
                lemma_parent_below_root(t, c);
            }
            lemma_subtree_parent(t, w, c);
        }
    }
}

/// When every node holds the right semigroup value, only the nodes above any node may be
/// wrong.
pub proof fn lemma_all_values_except_above<K, V, S: TreeSemigroup<K>>(t: BinaryTree<SemigroupRbNode<K, V, S>>, c: NodeId)
    requires
        all_values_ok(t),
    ensures
        values_ok_except_above(t, c),
        values_ok_off_path(t, c),
{
}

/// Recomputes the semigroup value of the node the cursor points at from its key and the
/// values of its children.
fn recompute_semigroup_value<K, V, S: TreeSemigroup<K>>(cursor: &mut CursorMut<'_, SemigroupRbNode<K, V, S>>)
    requires
        op_total::<K, S>(),
        old(cursor).tree_spec().wf(),
    ensures
        final(cursor).id_spec() == old(cursor).id_spec(),
        *final(final(cursor).tree_ref()) == *final(old(cursor).tree_ref()),
        revalued(old(cursor).tree_spec(), final(cursor).tree_spec(), old(cursor).id_spec()),
        old(cursor).at_node() ==> sv_ok_at(final(cursor).tree_spec(), old(cursor).id_spec()),
        values_ok_off_path(old(cursor).tree_spec(), old(cursor).id_spec()) ==> values_ok_except_above(
            final(cursor).tree_spec(),
            final(cursor).id_spec(),
        ),
        all_values_ok(old(cursor).tree_spec()) ==> all_values_ok(final(cursor).tree_spec()),
{
    let ghost t0 = cursor.tree_spec();
    let ghost c = cursor.id_spec();
    let new_value = {
        let ro = cursor.as_cursor();
        let neighborhood = ro.peek_neighborhood();
        match neighborhood.node {
            Some(node) => {
                let left = match neighborhood.left {
                    Some(l) => Some(l.semigroup_value()),
                    None => None,
                };
                let right = match neighborhood.right {
                    Some(r) => Some(r.semigroup_value()),
                    None => None,
                };
                Some(S::op(node.key(), left, right))
            },
            None => None,
        }
    };
    match new_value {
        Some(v) => {
            let r = cursor.get();
            match r {
                Some(node) => {
                    node.set_semigroup_value(v);
                },
                None => {},
            }
            proof {
                let d = *final(r.unwrap());
                let t1 = cursor.tree_spec();
                lemma_recompute_values(t0, t1, c, d);
                lemma_with_data(t0, t1, c, d);
                assert forall|x: NodeId| #[trigger] t0.contains_spec(x) && x != c implies t1.node_spec(x) == t0.node_spec(x) by {
                    assert(!set![c].contains(x));
                }
                assert(revalued(t0, t1, c));
                lemma_children_ranks(t0, c);
                assert(t0.node_ok(c));
                let nc = t0.node_spec(c);
                if t0.contains_spec(nc.left_spec()) {
                    assert(nc.left_spec() != c);
                }
                if t0.contains_spec(nc.right_spec()) {
                    assert(nc.right_spec() != c);
                }
                assert(semigroup_value_at(t1, nc.left_spec()) == semigroup_value_at(t0, nc.left_spec()));
                assert(semigroup_value_at(t1, nc.right_spec()) == semigroup_value_at(t0, nc.right_spec()));
                if all_values_ok(t0) {
                    assert(sv_ok_at(t0, c));
                    assert(semigroup_value_at(t1, c) == semigroup_value_at(t0, c));
                    assert forall|w: NodeId| #[trigger] t1.contains_spec(w) implies sv_ok_at(t1, w) by {
                        if w != c {
                            let nw = t0.node_spec(w);
                            assert(sv_ok_at(t0, w));
                            assert(semigroup_value_at(t1, nw.left_spec()) == semigroup_value_at(t0, nw.left_spec()));
                            assert(semigroup_value_at(t1, nw.right_spec()) == semigroup_value_at(t0, nw.right_spec()));
                        }
                    }
                }
            }
        },
        None => {
            proof {
                if values_ok_off_path(t0, c) {
                    assert forall|w: NodeId| #[trigger] t0.contains_spec(w) && !(subtree_ids(t0, w).contains(c) && w != c) implies sv_ok_at(t0, w) by {
                        lemma_subtree_ids(t0, w);
                    }
                }
            }
        },
    }
}

/// Recomputes the semigroup value of the node the cursor points at, in a tree whose root has
/// no parent; the nodes, their keys and values and their order are kept.
fn recompute_at_cursor<K: Ord, V, S: TreeSemigroup<K>>(cursor: &mut CursorMut<'_, SemigroupRbNode<K, V, S>>)
    requires
        op_total::<K, S>(),
        old(cursor).tree_spec().wf(),
        fixup_ready(old(cursor).tree_spec(), old(cursor).id_spec()),
    ensures
        final(cursor).id_spec() == old(cursor).id_spec(),
        *final(final(cursor).tree_ref()) == *final(old(cursor).tree_ref()),
        revalued(old(cursor).tree_spec(), final(cursor).tree_spec(), old(cursor).id_spec()),
        same_entries_order(old(cursor).tree_spec(), final(cursor).tree_spec()),
        fixup_ready(final(cursor).tree_spec(), final(cursor).id_spec()),
        forall|w: NodeId| #[trigger] subtree_ids(final(cursor).tree_spec(), w) == subtree_ids(old(cursor).tree_spec(), w),
        values_ok_off_path(old(cursor).tree_spec(), old(cursor).id_spec()) ==> values_ok_except_above(
            final(cursor).tree_spec(),
            final(cursor).id_spec(),
        ),
        all_values_ok(old(cursor).tree_spec()) ==> all_values_ok(final(cursor).tree_spec()),
{
    let ghost t0 = cursor.tree_spec();
    let ghost c = cursor.id_spec();
    recompute_semigroup_value(cursor);
    proof {
        lemma_revalued(t0, cursor.tree_spec(), c, c);
    }
}

/// Moves the cursor to the parent node and recomputes its semigroup value; returns the side
/// of the parent on which the cursor was. Without a parent, the cursor leaves the tree and
/// None is returned.
fn move_up_and_recompute<K: Ord, V, S: TreeSemigroup<K>>(cursor: &mut CursorMut<'_, SemigroupRbNode<K, V, S>>) -> (r: Option<Side>)
    requires
        op_total::<K, S>(),
        old(cursor).tree_spec().wf(),
        fixup_ready(old(cursor).tree_spec(), old(cursor).id_spec()),
        values_ok_except_above(old(cursor).tree_spec(), old(cursor).id_spec()),
    ensures
        *final(final(cursor).tree_ref()) == *final(old(cursor).tree_ref()),
        final(cursor).id_spec() == (if old(cursor).at_node() {
            old(cursor).node_at().parent_spec()
        } else {
            NodeId::null_spec()
        }),
        r == (if final(cursor).at_node() {
            final(cursor).node_at().side_of_spec(old(cursor).id_spec())
        } else {
            None
        }),
        revalued(old(cursor).tree_spec(), final(cursor).tree_spec(), final(cursor).id_spec()),
        same_entries_order(old(cursor).tree_spec(), final(cursor).tree_spec()),
        fixup_ready(final(cursor).tree_spec(), final(cursor).id_spec()),
        values_ok_except_above(final(cursor).tree_spec(), final(cursor).id_spec()),
        forall|w: NodeId| #[trigger] subtree_ids(final(cursor).tree_spec(), w) == subtree_ids(old(cursor).tree_spec(), w),
        r is None ==> all_values_ok(final(cursor).tree_spec()),
        r is Some == (old(cursor).at_node() && old(cursor).tree_spec().contains_spec(old(cursor).node_at().parent_spec())),
{
    let ghost t0 = cursor.tree_spec();
    let ghost c = cursor.id_spec();
    proof {
        lemma_up_values(t0, c);
        lemma_move_up_ready(t0, c);
        if t0.contains_spec(c) {
            assert(t0.node_ok(c));
            let p = t0.node_spec(c).parent_spec();
            if t0.contains_spec(p) {
                assert(t0.node_ok(p));
                lemma_contains_not_null(t0, p);
                assert(t0.node_spec(p).child_spec(t0.node_spec(p).side_of_spec(c).unwrap()) == c);
            }
        }
    }
    let side = cursor.move_up();
    match side {
        Some(s) => {
            recompute_at_cursor(cursor);
            Some(s)
        },
        None => {
            proof {
                lemma_values_done(t0, c);
                lemma_revalued(t0, t0, cursor.id_spec(), cursor.id_spec());
                lemma_all_values_except_above(t0, cursor.id_spec());
            }
            None
        },
    }
}

/// Moves the cursor to the parent node, if there is one, and recomputes its semigroup
/// value; returns the side of the parent on which the cursor was.
fn try_move_up_and_recompute<K: Ord, V, S: TreeSemigroup<K>>(cursor: &mut CursorMut<'_, SemigroupRbNode<K, V, S>>) -> (r: Option<Side>)
    requires
        op_total::<K, S>(),
        old(cursor).tree_spec().wf(),
        fixup_ready(old(cursor).tree_spec(), old(cursor).id_spec()),
        values_ok_except_above(old(cursor).tree_spec(), old(cursor).id_spec()),
    ensures
        *final(final(cursor).tree_ref()) == *final(old(cursor).tree_ref()),
        r is Some ==> final(cursor).id_spec() == old(cursor).node_at().parent_spec() && final(cursor).at_node(),
        r is None ==> final(cursor).id_spec() == old(cursor).id_spec(),
        revalued(old(cursor).tree_spec(), final(cursor).tree_spec(), final(cursor).id_spec()),
        same_entries_order(old(cursor).tree_spec(), final(cursor).tree_spec()),
        fixup_ready(final(cursor).tree_spec(), final(cursor).id_spec()),
        values_ok_except_above(final(cursor).tree_spec(), final(cursor).id_spec()),
        forall|w: NodeId| #[trigger] subtree_ids(final(cursor).tree_spec(), w) == subtree_ids(old(cursor).tree_spec(), w),
        r is None ==> all_values_ok(final(cursor).tree_spec()),
        r is Some ==> old(cursor).tree_spec().rank_spec(old(cursor).id_spec()) < final(cursor).tree_spec().rank_spec(
            final(cursor).id_spec(),
        ),
{
    let ghost t0 = cursor.tree_spec();
    let ghost c = cursor.id_spec();
    proof {
        lemma_up_values(t0, c);
        lemma_move_up_ready(t0, c);
        if t0.contains_spec(c) {
            assert(t0.node_ok(c));
            let p = t0.node_spec(c).parent_spec();
            if t0.contains_spec(p) {
                assert(t0.node_ok(p));
                lemma_contains_not_null(t0, p);
            } else {
                NodeId::lemma_null_is_null();
                if !p.is_null_spec() {
                    assert(t0.contains_spec(p));
                }
            }
        }
    }
    let side = cursor.try_move_up();
    match side {
        Some(s) => {
            recompute_at_cursor(cursor);
            Some(s)
        },
        None => {
            proof {
                lemma_values_done(t0, c);
                lemma_revalued(t0, t0, c, c);
            }
            None
        },
    }
}

/// Moves the cursor up to the root, recomputing the semigroup value of every node on the
/// way, and on past the root out of the tree; afterwards every node holds the right value.
fn fix_ancestor_semigroup_values<K: Ord, V, S: TreeSemigroup<K>>(cursor: &mut CursorMut<'_, SemigroupRbNode<K, V, S>>)
    requires
        op_total::<K, S>(),
        old(cursor).tree_spec().wf(),
        fixup_ready(old(cursor).tree_spec(), old(cursor).id_spec()),
        values_ok_except_above(old(cursor).tree_spec(), old(cursor).id_spec()),
    ensures
        final(cursor).tree_spec().wf(),
        *final(final(cursor).tree_ref()) == *final(old(cursor).tree_ref()),
        same_entries_order(old(cursor).tree_spec(), final(cursor).tree_spec()),
        root_has_no_parent(final(cursor).tree_spec()),
        fixup_ready(final(cursor).tree_spec(), final(cursor).id_spec()),
        all_values_ok(final(cursor).tree_spec()),
        final(cursor).tree_spec().slots_spec() == old(cursor).tree_spec().slots_spec(),
        final(cursor).tree_spec().len_spec() == old(cursor).tree_spec().len_spec(),
        same_colors(old(cursor).tree_spec(), final(cursor).tree_spec()),
{
    let ghost t0 = cursor.tree_spec();
    loop
        invariant
            op_total::<K, S>(),
            cursor.tree_spec().wf(),
            *final(cursor.tree_ref()) == *final(old(cursor).tree_ref()),
            fixup_ready(cursor.tree_spec(), cursor.id_spec()),
            values_ok_except_above(cursor.tree_spec(), cursor.id_spec()),
            same_entries_order(t0, cursor.tree_spec()),
            cursor.tree_spec().slots_spec() == t0.slots_spec(),
            cursor.tree_spec().len_spec() == t0.len_spec(),
            same_colors(t0, cursor.tree_spec()),
        ensures
            cursor.tree_spec().wf(),
            *final(cursor.tree_ref()) == *final(old(cursor).tree_ref()),
            same_entries_order(t0, cursor.tree_spec()),
            root_has_no_parent(cursor.tree_spec()),
            fixup_ready(cursor.tree_spec(), cursor.id_spec()),
            all_values_ok(cursor.tree_spec()),
            cursor.tree_spec().slots_spec() == t0.slots_spec(),
            cursor.tree_spec().len_spec() == t0.len_spec(),
            same_colors(t0, cursor.tree_spec()),
        decreases cursor.tree_spec().rank_bound_spec() - cursor.tree_spec().rank_spec(cursor.id_spec()),
    {
        let ghost t = cursor.tree_spec();
        let ghost c = cursor.id_spec();
        let r = try_move_up_and_recompute(cursor);
        proof {
            lemma_same_entries_order_trans(t0, t, cursor.tree_spec());
            lemma_revalued_colors(t, cursor.tree_spec(), cursor.id_spec());
            lemma_same_colors_trans(t0, t, cursor.tree_spec());
            if r is Some {
                let t1 = cursor.tree_spec();
                assert(t.node_ok(t.node_spec(c).parent_spec()));
            }
        }
        if r.is_none() {
            break;
        }
    }
}


/// Restores the red-black rules after a red node was attached at the cursor, as for a
/// red-black tree, recomputing the semigroup value of every node whose subtree changes, and
/// finally those of the nodes above the cursor. The nodes, their keys and values and their
/// inorder sequence are kept, and every node ends up with the right semigroup value.
fn insert_fixup<K: Ord, V, S: TreeSemigroup<K>>(cursor: &mut CursorMut<'_, SemigroupRbNode<K, V, S>>)
    requires
        op_total::<K, S>(),
        old(cursor).tree_spec().wf(),
        fixup_ready(old(cursor).tree_spec(), old(cursor).id_spec()),
        values_ok_except_above(old(cursor).tree_spec(), old(cursor).id_spec()),
    ensures
        final(cursor).tree_spec().wf(),
        *final(final(cursor).tree_ref()) == *final(old(cursor).tree_ref()),
        same_entries_order(old(cursor).tree_spec(), final(cursor).tree_spec()),
        root_has_no_parent(final(cursor).tree_spec()),
        all_values_ok(final(cursor).tree_spec()),
        final(cursor).tree_spec().slots_spec() == old(cursor).tree_spec().slots_spec(),
        insert_ready(old(cursor).tree_spec(), old(cursor).id_spec()) ==> rb_balanced(final(cursor).tree_spec()),
{
    let ghost t0 = cursor.tree_spec();
    let ghost ready0 = insert_ready(t0, cursor.id_spec());
    loop
        invariant_except_break
            ready0 ==> insert_ready(cursor.tree_spec(), cursor.id_spec()),
        invariant
            op_total::<K, S>(),
            cursor.tree_spec().wf(),
            *final(cursor.tree_ref()) == *final(old(cursor).tree_ref()),
            fixup_ready(cursor.tree_spec(), cursor.id_spec()),
            values_ok_except_above(cursor.tree_spec(), cursor.id_spec()),
            same_entries_order(t0, cursor.tree_spec()),
            cursor.tree_spec().slots_spec() == t0.slots_spec(),
        ensures
            op_total::<K, S>(),
            cursor.tree_spec().wf(),
            *final(cursor.tree_ref()) == *final(old(cursor).tree_ref()),
            fixup_ready(cursor.tree_spec(), cursor.id_spec()),
            values_ok_except_above(cursor.tree_spec(), cursor.id_spec()),
            same_entries_order(t0, cursor.tree_spec()),
            cursor.tree_spec().slots_spec() == t0.slots_spec(),
            ready0 ==> rb_balanced(cursor.tree_spec()),
        decreases cursor.tree_spec().rank_bound_spec() - cursor.tree_spec().rank_spec(cursor.id_spec()),
    {
        let ghost t = cursor.tree_spec();
        let ghost z = cursor.id_spec();
        let parent_red = match cursor.as_cursor().peek_up() {
            Some(parent) => parent.entry_color_exec() == Color::Red,
            None => false,
        };
        if !parent_red {
            proof {
                if ready0 {
                    lemma_rb_height_unused(t, t.root_spec(), z);
                }
            }
            break;
        }
        let ghost zp = t.node_spec(z).parent_spec();
        let ghost zpp = t.node_spec(zp).parent_spec();
        let mut peeking_cursor = cursor.as_cursor();
        let side_current_opt = peeking_cursor.move_up();
        let side_parent_opt = peeking_cursor.move_up();
        proof {
            if ready0 {
                // A red parent is not the root, so the grandparent is in the tree.
                assert(t.node_ok(z));
                assert(z != t.root_spec());
                lemma_parent_below_root(t, z);
                assert(t.node_ok(zp));
                assert(zp != t.root_spec());
                lemma_parent_below_root(t, zp);
            }
        }
        if side_current_opt.is_none() || side_parent_opt.is_none() {
            break;
        }
        let side_current = side_current_opt.unwrap();
        let side_parent = side_parent_opt.unwrap();
        let uncle_red = match peeking_cursor.peek_side(side_parent.opposite()) {
            Some(uncle) => uncle.entry_color_exec() == Color::Red,
            None => false,
        };
        let ghost u = t.node_spec(zpp).child_spec(side_parent.opposite());
        proof {
            assert(t.contains_spec(z));
            assert(t.contains_spec(zp));
            assert(t.contains_spec(zpp));
            assert(t.node_spec(zp).child_spec(side_current) == z);
            assert(t.node_spec(zpp).child_spec(side_parent) == zp);
            assert(t.node_ok(zp));
            assert(t.node_ok(zpp));
            lemma_contains_not_null(t, zp);
            assert(t.node_spec(zpp).side_of_spec(zp) == Some(side_parent));
            assert(red_at(t, zp));
            assert(uncle_red == red_at(t, u));
        }
        if uncle_red {
            // The uncle is red: recolor and go on from the grandparent.
            move_up_and_recompute(cursor);
            let ghost ta = cursor.tree_spec();
            set_color_here(cursor, Color::Black);
            let ghost tb = cursor.tree_spec();
            proof {
                lemma_values_transfer(ta, tb);
                lemma_same_entries_order_trans(t0, t, ta);
                lemma_same_entries_order_trans(t0, ta, tb);
            }
            move_up_and_recompute(cursor);
            let ghost tc = cursor.tree_spec();
            set_color_here(cursor, Color::Red);
            let ghost td = cursor.tree_spec();
            proof {
                assert(cursor.id_spec() == zpp);
                lemma_values_transfer(tc, td);
                lemma_same_entries_order_trans(t0, tb, tc);
                lemma_same_entries_order_trans(t0, tc, td);
            }
            set_color_side(cursor, side_parent.opposite(), Color::Black);
            let ghost te = cursor.tree_spec();
            proof {
                lemma_values_transfer(td, te);
                lemma_same_entries_order_trans(t0, td, te);
                assert(te.rank_spec(zpp) == t.rank_spec(zpp));
                assert(t.rank_spec(z) < t.rank_spec(zp));
                if ready0 {
                    assert(td.node_spec(zpp).child_spec(side_parent.opposite()) == u);
                    assert(u == (if t.node_spec(zpp).left_spec() == zp {
                        t.node_spec(zpp).right_spec()
                    } else {
                        t.node_spec(zpp).left_spec()
                    }));
                    assert(red_at(t, u));
                    assert(te.root_spec() == t.root_spec());
                    assert forall|x: NodeId| #[trigger] te.contains_spec(x) == t.contains_spec(x) by {
                        assert(ta.contains_spec(x) == t.contains_spec(x));
                        assert(tb.contains_spec(x) == ta.contains_spec(x));
                        assert(tc.contains_spec(x) == tb.contains_spec(x));
                        assert(td.contains_spec(x) == tc.contains_spec(x));
                    }
                    assert forall|x: NodeId| #[trigger] t.contains_spec(x) implies {
                        &&& te.node_spec(x).parent_spec() == t.node_spec(x).parent_spec()
                        &&& te.node_spec(x).left_spec() == t.node_spec(x).left_spec()
                        &&& te.node_spec(x).right_spec() == t.node_spec(x).right_spec()
                        &&& color_at(te, x) == (if x == zp || x == u {
                            Color::Black
                        } else if x == zpp {
                            Color::Red
                        } else {
                            color_at(t, x)
                        })
                    } by {
                        assert(ta.contains_spec(x));
                        assert(tb.contains_spec(x));
                        assert(tc.contains_spec(x));
                        assert(td.contains_spec(x));
                    }
                    lemma_insert_recolor(t, te, z);
                }
            }
        } else {
            if side_current == side_parent.opposite() {
                // The node is an inner grandchild: rotate it to the outside.
                move_up_and_recompute(cursor);
                let ghost ta = cursor.tree_spec();
                rotate_here(cursor, side_parent);
                let ghost tb = cursor.tree_spec();
                proof {
                    lemma_rotation_values(ta, tb, zp, side_parent);
                }
                recompute_at_cursor(cursor);
                proof {
                    lemma_same_entries_order_trans(t0, t, ta);
                    lemma_same_entries_order_trans(t0, ta, tb);
                    lemma_same_entries_order_trans(t0, tb, cursor.tree_spec());
                    if ready0 {
                        lemma_revalued_colors(t, ta, zp);
                        lemma_same_colors(t, ta, z);
                        assert(ta.contains_spec(zp) && ta.contains_spec(z));
                        assert(ta.node_spec(z).parent_spec() == zp);
                        assert(ta.node_spec(zp).parent_spec() == zpp);
                        lemma_insert_rotate_pair(ta, tb, z, side_parent);
                        lemma_revalued_colors(tb, cursor.tree_spec(), zp);
                        lemma_same_colors(tb, cursor.tree_spec(), zp);
                    }
                }
            }
            // The node is an outer grandchild: recolor and rotate around the grandparent.
            let ghost tb = cursor.tree_spec();
            let ghost z2 = cursor.id_spec();
            proof {
                if ready0 {
                    assert(insert_ready(tb, z2));
                    assert(red_at(tb, tb.node_spec(z2).parent_spec()));
                    assert(tb.node_spec(tb.node_spec(z2).parent_spec()).parent_spec() == zpp);
                    assert(tb.contains_spec(zpp));
                    assert(tb.node_spec(tb.node_spec(z2).parent_spec()).child_spec(side_parent) == z2);
                    assert(tb.node_spec(zpp).child_spec(side_parent) == tb.node_spec(z2).parent_spec());
                    assert(!red_at(tb, tb.node_spec(zpp).child_spec(side_parent.opposite())));
                }
            }
            move_up_and_recompute(cursor);
            let ghost tc = cursor.tree_spec();
            set_color_here(cursor, Color::Black);
            let ghost td = cursor.tree_spec();
            proof {
                lemma_values_transfer(tc, td);
                lemma_same_entries_order_trans(t0, tb, tc);
                lemma_same_entries_order_trans(t0, tc, td);
            }
            move_up_and_recompute(cursor);
            let ghost te = cursor.tree_spec();
            set_color_here(cursor, Color::Red);
            let ghost tf = cursor.tree_spec();
            proof {
                lemma_values_transfer(te, tf);
                lemma_same_entries_order_trans(t0, td, te);
                lemma_same_entries_order_trans(t0, te, tf);
            }
            rotate_here(cursor, side_parent.opposite());
            let ghost tg = cursor.tree_spec();
            proof {
                lemma_rotation_values(tf, tg, cursor.id_spec(), side_parent.opposite());
                if ready0 {
                    let zp2 = tb.node_spec(z2).parent_spec();
                    assert(cursor.id_spec() == zpp);
                    assert(tf.root_spec() == tb.root_spec());
                    assert forall|x: NodeId| #[trigger] tf.contains_spec(x) == tb.contains_spec(x) by {
                        assert(tc.contains_spec(x) == tb.contains_spec(x));
                        assert(td.contains_spec(x) == tc.contains_spec(x));
                        assert(te.contains_spec(x) == td.contains_spec(x));
                    }
                    assert forall|x: NodeId| #[trigger] tb.contains_spec(x) implies {
                        &&& tf.node_spec(x).parent_spec() == tb.node_spec(x).parent_spec()
                        &&& tf.node_spec(x).left_spec() == tb.node_spec(x).left_spec()
                        &&& tf.node_spec(x).right_spec() == tb.node_spec(x).right_spec()
                        &&& color_at(tf, x) == (if x == zp2 {
                            Color::Black
                        } else if x == zpp {
                            Color::Red
                        } else {
                            color_at(tb, x)
                        })
                    } by {
                        assert(tc.contains_spec(x));
                        assert(td.contains_spec(x));
                        assert(te.contains_spec(x));
                    }
                    lemma_insert_rotate_fix(tb, tf, tg, z2, side_parent);
                }
            }
            recompute_at_cursor(cursor);
            proof {
                lemma_same_entries_order_trans(t0, tf, tg);
                lemma_same_entries_order_trans(t0, tg, cursor.tree_spec());
                if ready0 {
                    lemma_revalued_colors(tg, cursor.tree_spec(), zpp);
                    lemma_same_colors(tg, cursor.tree_spec(), zpp);
                }
            }
            break;
        }
    }
    let ghost t1 = cursor.tree_spec();
    fix_ancestor_semigroup_values(cursor);
    proof {
        lemma_same_entries_order_trans(t0, t1, cursor.tree_spec());
        if ready0 {
            lemma_same_colors(t1, cursor.tree_spec(), NodeId::null_spec());
        }
    }
}


/// Inserts the key-value pair into the tree, restores the red-black rules and the semigroup
/// values; returns the value that was stored at the key, if any.
fn insert_into<K: Ord, V, S: TreeSemigroup<K>>(tree: BinaryTree<SemigroupRbNode<K, V, S>>, key: K, value: V) -> (r: (
    BinaryTree<SemigroupRbNode<K, V, S>>,
    Option<V>,
))
    requires
        key_order_laws::<K>(),
        op_total::<K, S>(),
        tree.wf(),
        keys_increasing(tree),
        all_values_ok(tree),
        tree.slots_spec() + 1 < usize::MAX,
    ensures
        r.0.wf(),
        keys_increasing(r.0),
        all_values_ok(r.0),
        entries(r.0) == entries(tree).insert(key, value),
        r.1 == map_get(entries(tree), key),
        r.0.slots_spec() <= tree.slots_spec() + 1,
        is_red_black_tree_spec(tree) ==> is_red_black_tree_spec(r.0),
{
    let mut tree = tree;
    let ghost t0 = tree;
    if tree.root().is_none() {
        proof {
            lemma_empty_entries(t0);
        }
        let t = BinaryTree::new_singleton(SemigroupRbNode::new_with_color(key, value, Color::Black));
        proof {
            lemma_singleton_entries(t);
            let root = t.root_spec();
            lemma_children_ranks(t, root);
            if t.contains_spec(t.node_spec(root).left_spec()) {
                lemma_contains_not_null(t, t.node_spec(root).left_spec());
            }
            if t.contains_spec(t.node_spec(root).right_spec()) {
                lemma_contains_not_null(t, t.node_spec(root).right_spec());
            }
            assert forall|w: NodeId| #[trigger] t.contains_spec(w) implies sv_ok_at(t, w) by {
                let n = t.node_spec(root);
                if t.contains_spec(n.left_spec()) {
                    assert(n.left_spec() == root);
                    lemma_contains_not_null(t, root);
                }
                if t.contains_spec(n.right_spec()) {
                    assert(n.right_spec() == root);
                    lemma_contains_not_null(t, root);
                }
            }
        }
        return (t, None);
    }
    let mut cursor = tree.cursor_mut();
    let found = find_node_to_insert_at(&mut cursor, &key);
    match found {
        None => {
            let ghost c = cursor.id_spec();
            let r = cursor.get();
            let old_value = match r {
                Some(node) => {
                    let mut v = value;
                    std::mem::swap(node.value_mut(), &mut v);
                    v
                },
                None => value,
            };
            proof {
                cursor.lemma_resolved();
                let d = *final(r.unwrap());
                lemma_entries_update(t0, cursor.tree_spec(), c, d);
                lemma_with_data(t0, cursor.tree_spec(), c, d);
                assert forall|x: NodeId| #[trigger] t0.contains_spec(x) && x != c implies cursor.tree_spec().node_spec(x)
                    == t0.node_spec(x) by {
                    assert(!set![c].contains(x));
                }
                lemma_values_transfer(t0, cursor.tree_spec());
                let t1 = cursor.tree_spec();
                if is_red_black_tree_spec(t0) {
                    assert(same_colors(t0, t1));
                    lemma_same_colors(t0, t1, NodeId::null_spec());
                    lemma_black_height_is_rb_height::<K, SemigroupRbNode<K, V, S>>(t0, t0.root_spec());
                    lemma_black_height_is_rb_height::<K, SemigroupRbNode<K, V, S>>(t1, t1.root_spec());
                }
            }
            (tree, Some(old_value))
        },
        Some(side) => {
            let ghost c = cursor.id_spec();
            let new_node = SemigroupRbNode::new_with_color(key, value, Color::Red);
            let _ = cursor.attach_child(new_node, side);
            let ghost t1 = cursor.tree_spec();
            let ghost n = t1.node_spec(c).child_spec(side);
            proof {
                lemma_relink(t0.node_spec(c), n, side);
                lemma_relink(t0.node_spec(c), n, side.opposite());
                lemma_contains_not_null(t0, t0.root_spec());
                lemma_insert_leaf(t0, t1, c, n, side);
                if is_red_black_tree_spec(t0) {
                    lemma_black_height_is_rb_height::<K, SemigroupRbNode<K, V, S>>(t0, t0.root_spec());
                    lemma_attach_red_leaf(t0, t1, c, n, side);
                }
                lemma_all_values_except_above(t0, c);
                lemma_attach_values(t0, t1, c, n, side);
                lemma_move_up_ready(t1, n);
            }
            recompute_at_cursor(&mut cursor);
            let ghost t2 = cursor.tree_spec();
            proof {
                if is_red_black_tree_spec(t0) {
                    assert(insert_ready(t2, n)) by {
                        lemma_revalued_colors(t1, t2, c);
                        lemma_same_colors(t1, t2, n);
                    }
                }
                lemma_down_values(t2, c, side);
                lemma_move_down_ready(t2, c, side);
            }
            cursor.move_side(side);
            insert_fixup(&mut cursor);
            let ghost t3 = cursor.tree_spec();
            proof {
                cursor.lemma_resolved();
                lemma_same_entries_order_trans(t1, t2, t3);
                lemma_same_entries(t1, t3);
            }
            let root_id = tree.root_id();
            let r = tree.data_mut(root_id);
            match r {
                Some(node) => {
                    node.set_color(Color::Black);
                },
                None => {},
            }
            proof {
                if t3.contains_spec(root_id) {
                    lemma_recolor_data(t3, tree, root_id, *final(r.unwrap()));
                    lemma_recolored(t3, tree, root_id, Color::Black, root_id);
                    lemma_same_entries(t3, tree);
                    lemma_values_transfer(t3, tree);
                }
                if is_red_black_tree_spec(t0) {
                    if t3.contains_spec(root_id) {
                        lemma_blacken_root(t3, tree);
                    }
                    lemma_black_height_is_rb_height::<K, SemigroupRbNode<K, V, S>>(tree, tree.root_spec());
                }
            }
            (tree, None)
        },
    }
}

impl<K: Ord, V, S: TreeSemigroup<K>> View for SemigroupRbTree<K, V, S> {
    type V = Map<K, V>;

    /// The map from the keys of the nodes below the root to their values.
    open spec fn view(&self) -> Map<K, V> {
        entries(self.inner_spec())
    }
}

impl<K: Ord, V, S: TreeSemigroup<K>> SemigroupRbTree<K, V, S> {
    /// The keys strictly increase along the inorder sequence, so that the tree is a map, and
    /// every node holds the semigroup value computed from its key and its children.
    pub open spec fn is_semigroup_map(self) -> bool {
        &&& keys_increasing(self.inner_spec())
        &&& all_values_ok(self.inner_spec())
    }

    /// An empty tree is a map with right semigroup values.
    pub proof fn lemma_empty_is_semigroup_map(self)
        requires
            self.inner_spec().wf(),
            !self.inner_spec().contains_spec(self.inner_spec().root_spec()),
            self.inner_spec().len_spec() == 0,
        ensures
            self.is_semigroup_map(),
            self@ == Map::<K, V>::empty(),
    {
        let t = self.inner_spec();
        lemma_empty_entries(t);
        crate::traversal::lemma_inorder_unfold(t, t.root_spec());
        assert(keys_of(t, inorder(t, t.root_spec())) =~= Seq::<K>::empty());
        assert forall|w: NodeId| #[trigger] t.contains_spec(w) implies sv_ok_at(t, w) by {
            lemma_contained_ids_bound(t, set![w]);
        }
    }

    /// Inserts the key-value pair into the tree and updates the semigroup values. If the key
    /// was not present in the tree yet, None is returned; otherwise the value stored at the
    /// key is replaced, and the old value is returned.
    pub fn insert(&mut self, key: K, value: V) -> (r: Option<V>)
        requires
            key_order_laws::<K>(),
            op_total::<K, S>(),
            old(self).is_semigroup_map(),
            old(self).inner_spec().slots_spec() + 1 < usize::MAX,
        ensures
            final(self).is_semigroup_map(),
            semigroup_values_ok(final(self).inner_spec(), final(self).inner_spec().root_spec()),
            final(self)@ == old(self)@.insert(key, value),
            r == map_get(old(self)@, key),
            final(self).inner_spec().slots_spec() <= old(self).inner_spec().slots_spec() + 1,
            is_binary_search_tree_spec(final(self).inner_spec()),
            is_red_black_tree_spec(old(self).inner_spec()) ==> is_red_black_tree_spec(final(self).inner_spec()),
    {
        proof {
            use_type_invariant(&*self);
        }
        let mut tree = BinaryTree::new();
        std::mem::swap(&mut tree, &mut self.0);
        let (tree, r) = insert_into(tree, key, value);
        self.0 = tree;
        proof {
            lemma_all_values_ok(self.0, self.0.root_spec());
            lemma_sorted_is_bst::<K, SemigroupRbNode<K, V, S>>(self.0, self.0.root_spec());
        }
        r
    }
}


/// Restores the red-black rules after a black leaf was removed from the side `side` of the
/// node the cursor points at, as for a red-black tree, recomputing the semigroup value of
/// every node whose subtree changes on the way. The nodes, their keys and values and their
/// inorder sequence are kept; afterwards only the nodes above the cursor may hold wrong
/// semigroup values.
#[verifier::rlimit(50)]
fn remove_fixup_leaf<K: Ord, V, S: TreeSemigroup<K>>(cursor: &mut CursorMut<'_, SemigroupRbNode<K, V, S>>, side: Side)
    requires
        op_total::<K, S>(),
        old(cursor).tree_spec().wf(),
        fixup_ready(old(cursor).tree_spec(), old(cursor).id_spec()),
        values_ok_except_above(old(cursor).tree_spec(), old(cursor).id_spec()),
    ensures
        final(cursor).tree_spec().wf(),
        *final(final(cursor).tree_ref()) == *final(old(cursor).tree_ref()),
        same_entries_order(old(cursor).tree_spec(), final(cursor).tree_spec()),
        fixup_ready(final(cursor).tree_spec(), final(cursor).id_spec()),
        values_ok_except_above(final(cursor).tree_spec(), final(cursor).id_spec()),
        final(cursor).tree_spec().slots_spec() == old(cursor).tree_spec().slots_spec(),
{
    let ghost t0 = cursor.tree_spec();
    let mut side = side;
    let mut done = false;
    let ghost mut red_x = false;
    loop
        invariant
            op_total::<K, S>(),
            cursor.tree_spec().wf(),
            *final(cursor.tree_ref()) == *final(old(cursor).tree_ref()),
            fixup_ready(cursor.tree_spec(), cursor.id_spec()),
            values_ok_except_above(cursor.tree_spec(), cursor.id_spec()),
            same_entries_order(t0, cursor.tree_spec()),
            red_x ==> cursor.at_node() && cursor.tree_spec().contains_spec(cursor.node_at().child_spec(side))
                && color_at(cursor.tree_spec(), cursor.node_at().child_spec(side)) == Color::Red,
            cursor.tree_spec().len_spec() == t0.len_spec(),
            cursor.tree_spec().slots_spec() == t0.slots_spec(),
        decreases
            cursor.tree_spec().len_spec() - subtree_ids(cursor.tree_spec(), cursor.id_spec()).len(),
            (if red_x { 0int } else { 1int }),
    {
        let ghost t = cursor.tree_spec();
        let ghost q = cursor.id_spec();
        let keep_going = {
            let ro = cursor.as_cursor();
            match ro.get() {
                Some(_) => is_black_or_missing(ro.peek_side(side)),
                None => false,
            }
        };
        if !keep_going {
            break;
        }
        let sibling_red = match cursor.as_cursor().peek_side(side.opposite()) {
            Some(sibling) => Some(sibling.entry_color_exec() == Color::Red),
            None => None,
        };
        if sibling_red.is_none() {
            break;
        }
        let ghost w0 = t.node_spec(q).child_spec(side.opposite());
        let ghost mut rotated = false;
        proof {
            assert(t.node_ok(q));
            lemma_contains_not_null(t, w0);
        }
        if sibling_red.unwrap() {
            // The sibling is red: make it black and the parent red, and rotate the sibling
            // into the parent's place.
            set_color_side(cursor, side.opposite(), Color::Black);
            let ghost ta = cursor.tree_spec();
            set_color_here(cursor, Color::Red);
            let ghost tb = cursor.tree_spec();
            rotate_here(cursor, side);
            let ghost tr = cursor.tree_spec();
            proof {
                rotated = true;
                lemma_values_transfer(t, ta);
                lemma_values_transfer(ta, tb);
                lemma_rotation_values(tb, tr, q, side);
                lemma_same_entries_order_trans(t0, t, ta);
                lemma_same_entries_order_trans(t0, ta, tb);
                lemma_same_entries_order_trans(t0, tb, tr);
                assert(tb.contains_spec(q) && ta.contains_spec(q));
                assert(tb.node_spec(q).child_spec(side.opposite()) == w0);
                assert(tb.contains_spec(w0));
                let nq = tb.node_spec(q);
                let nw = tb.node_spec(w0);
                lemma_relink(nq.with_parent_spec(w0), nw.child_spec(side), side.opposite());
                lemma_relink(nq, w0, side.opposite());
                lemma_relink(nw.with_parent_spec(nq.parent_spec()), q, side);
                lemma_relink(nw, nq.parent_spec(), side);
                assert(tr.node_spec(q).parent_spec() == w0);
                assert(tr.node_spec(w0).child_spec(side) == q);
                assert(color_at(tr, q) == Color::Red);
                assert(subtree_ids(tr, w0) == subtree_ids(t, q));
            }
            recompute_at_cursor(cursor);
            proof {
                let t1 = cursor.tree_spec();
                lemma_same_entries_order_trans(t0, tr, t1);
                assert(tr.contains_spec(w0));
                assert(t1.node_spec(q).parent_spec() == w0);
                assert(t1.node_spec(w0).child_spec(side) == q);
                assert(color_at(t1, q) == Color::Red);
                assert(subtree_ids(t1, w0) == subtree_ids(t, q));
            }
        }
        let ghost t1 = cursor.tree_spec();
        let has_sibling = cursor.as_cursor().peek_side(side.opposite()).is_some();
        if !has_sibling {
            break;
        }
        proof {
            lemma_move_down_ready(t1, q, side.opposite());
            lemma_down_values(t1, q, side.opposite());
        }
        cursor.move_side(side.opposite());
        let ghost w = cursor.id_spec();
        let both_black = {
            let ro = cursor.as_cursor();
            let neighborhood = ro.peek_neighborhood();
            is_black_or_missing(neighborhood.left) && is_black_or_missing(neighborhood.right)
        };
        if both_black {
            // Both children of the sibling are black: make the sibling red and pass the lack
            // of a black node up to the parent.
            set_color_here(cursor, Color::Red);
            let ghost t2 = cursor.tree_spec();
            proof {
                lemma_values_transfer(t1, t2);
                lemma_same_entries_order_trans(t0, t1, t2);
                assert(t1.node_ok(q));
                lemma_contains_not_null(t1, w);
                assert(t1.node_spec(w).parent_spec() == q);
                assert(t2.node_spec(w).parent_spec() == q);
            }
            move_up_and_recompute(cursor);
            proof {
                lemma_same_entries_order_trans(t0, t2, cursor.tree_spec());
            }
        } else {
            let far_black = is_black_or_missing(cursor.as_cursor().peek_side(side.opposite()));
            if far_black {
                // The far child of the sibling is black: rotate the near child into the
                // sibling's place.
                set_color_side(cursor, side, Color::Black);
                let ghost ta = cursor.tree_spec();
                set_color_here(cursor, Color::Red);
                let ghost tb = cursor.tree_spec();
                rotate_here(cursor, side.opposite());
                let ghost tc = cursor.tree_spec();
                proof {
                    lemma_values_transfer(t1, ta);
                    lemma_values_transfer(ta, tb);
                    lemma_rotation_values(tb, tc, w, side.opposite());
                    lemma_same_entries_order_trans(t0, t1, ta);
                    lemma_same_entries_order_trans(t0, ta, tb);
                    lemma_same_entries_order_trans(t0, tb, tc);
                }
                recompute_at_cursor(cursor);
                let ghost tc2 = cursor.tree_spec();
                move_up_and_recompute(cursor);
                proof {
                    lemma_same_entries_order_trans(t0, tc, tc2);
                    lemma_same_entries_order_trans(t0, tc2, cursor.tree_spec());
                }
            }
            // The far child of the sibling is red: rotate the sibling into the parent's
            // place, and recolor so that the lack of a black node is made up for.
            let ghost td = cursor.tree_spec();
            let parent_color = match cursor.as_cursor().peek_up() {
                Some(parent) => parent.entry_color_exec(),
                None => Color::Black,
            };
            set_color_here(cursor, parent_color);
            let ghost te = cursor.tree_spec();
            set_color_side(cursor, side.opposite(), Color::Black);
            let ghost tf = cursor.tree_spec();
            proof {
                lemma_values_transfer(td, te);
                lemma_values_transfer(te, tf);
                lemma_same_entries_order_trans(t0, td, te);
                lemma_same_entries_order_trans(t0, te, tf);
            }
            move_up_and_recompute(cursor);
            let ghost tf2 = cursor.tree_spec();
            set_color_here(cursor, Color::Black);
            let ghost tg = cursor.tree_spec();
            rotate_here(cursor, side);
            let ghost th = cursor.tree_spec();
            proof {
                lemma_values_transfer(tf2, tg);
                lemma_rotation_values(tg, th, cursor.id_spec(), side);
                lemma_same_entries_order_trans(t0, tf, tf2);
                lemma_same_entries_order_trans(t0, tf2, tg);
                lemma_same_entries_order_trans(t0, tg, th);
            }
            recompute_at_cursor(cursor);
            let ghost ti = cursor.tree_spec();
            // The root is black.
            fix_ancestor_semigroup_values(cursor);
            let ghost tj = cursor.tree_spec();
            set_color_here(cursor, Color::Black);
            proof {
                lemma_values_transfer(tj, cursor.tree_spec());
                lemma_all_values_except_above(cursor.tree_spec(), cursor.id_spec());
                lemma_same_entries_order_trans(t0, th, ti);
                lemma_same_entries_order_trans(t0, ti, tj);
                lemma_same_entries_order_trans(t0, tj, cursor.tree_spec());
            }
            done = true;
            break;
        }
        let ghost t3 = cursor.tree_spec();
        let ghost q3 = cursor.id_spec();
        let side_parent = move_up_and_recompute(cursor);
        let ghost t4 = cursor.tree_spec();
        proof {
            lemma_same_entries_order_trans(t0, t3, t4);
        }
        match side_parent {
            Some(s) => {
                side = s;
            },
            None => {
                break;
            },
        }
        proof {
            let q4 = cursor.id_spec();
            lemma_parent_subtree_larger(t3, q3);
            assert(subtree_ids(t4, q4) == subtree_ids(t3, q4));
            if rotated {
                assert(t1.contains_spec(w));
                assert(q3 == q);
                assert(q4 == w0);
                assert(subtree_ids(t3, q4) == subtree_ids(t, q));
                assert(t3.node_spec(w0).child_spec(side) == q);
                assert(color_at(t3, q) == Color::Red);
                assert(t4.node_spec(w0).child_spec(side) == q);
                assert(color_at(t4, q) == Color::Red);
                red_x = true;
            } else {
                assert(q3 == q);
                assert(subtree_ids(t3, q3) == subtree_ids(t, q));
                red_x = false;
            }
        }
    }
    if !done {
        // The node on `side` of the cursor is red, or at the root: make it black.
        let has_child = cursor.as_cursor().peek_side(side).is_some();
        if has_child {
            let ghost t4 = cursor.tree_spec();
            proof {
                lemma_move_down_ready(t4, cursor.id_spec(), side);
                lemma_down_values(t4, cursor.id_spec(), side);
            }
            cursor.move_side(side);
            set_color_here(cursor, Color::Black);
            proof {
                lemma_values_transfer(t4, cursor.tree_spec());
                lemma_same_entries_order_trans(t0, t4, cursor.tree_spec());
            }
        }
    }
}


/// Removes the node the cursor points at, which has at most one child, restores the
/// red-black rules and the semigroup values; returns the data of the removed node. The other
/// nodes keep their keys and values and their order.
fn remove_node_at_cursor<K: Ord, V, S: TreeSemigroup<K>>(cursor: &mut CursorMut<'_, SemigroupRbNode<K, V, S>>) -> (r: Option<
    SemigroupRbNode<K, V, S>,
>)
    requires
        op_total::<K, S>(),
        old(cursor).tree_spec().wf(),
        root_has_no_parent(old(cursor).tree_spec()),
        subtree_ids(old(cursor).tree_spec(), old(cursor).tree_spec().root_spec()).contains(old(cursor).id_spec()),
        !old(cursor).tree_spec().contains_spec(old(cursor).node_at().left_spec()) || !old(cursor).tree_spec().contains_spec(
            old(cursor).node_at().right_spec(),
        ),
        values_ok_off_path(old(cursor).tree_spec(), old(cursor).id_spec()),
    ensures
        final(cursor).tree_spec().wf(),
        *final(final(cursor).tree_ref()) == *final(old(cursor).tree_ref()),
        root_has_no_parent(final(cursor).tree_spec()),
        all_values_ok(final(cursor).tree_spec()),
        r == Some(old(cursor).node_at().data_spec()),
        final(cursor).tree_spec().slots_spec() == old(cursor).tree_spec().slots_spec(),
        ({
            let t = old(cursor).tree_spec();
            let s = inorder(t, t.root_spec());
            let x = old(cursor).id_spec();
            exists|i: int|
                #![trigger s.remove(i)]
                0 <= i < s.len() && s[i] == x && inorder(final(cursor).tree_spec(), final(cursor).tree_spec().root_spec())
                    == s.remove(i)
        }),
        forall|z: NodeId| #[trigger] final(cursor).tree_spec().contains_spec(z) ==> {
            &&& old(cursor).tree_spec().contains_spec(z)
            &&& z != old(cursor).id_spec()
            &&& key_at(final(cursor).tree_spec(), z) == key_at(old(cursor).tree_spec(), z)
            &&& value_at(final(cursor).tree_spec(), z) == value_at(old(cursor).tree_spec(), z)
        },
{
    let ghost t1 = cursor.tree_spec();
    let ghost x = cursor.id_spec();
    let ghost s = inorder(t1, t1.root_spec());
    proof {
        lemma_subtree_ids(t1, t1.root_spec());
        assert(t1.node_ok(x));
    }
    let key_color = match cursor.as_cursor().get() {
        Some(node) => node.entry_color_exec(),
        None => Color::Black,
    };
    let is_leaf = {
        let neighborhood = cursor.as_cursor().peek_neighborhood();
        neighborhood.left.is_none() && neighborhood.right.is_none()
    };
    if is_leaf {
        let side_of_parent = cursor.side_of_parent();
        proof {
            let nx = t1.node_spec(x);
            if t1.contains_spec(nx.left_spec()) {
                lemma_contains_not_null(t1, nx.left_spec());
            }
            if t1.contains_spec(nx.right_spec()) {
                lemma_contains_not_null(t1, nx.right_spec());
            }
        }
        let data = cursor.detach_node();
        let ghost t2 = cursor.tree_spec();
        proof {
            lemma_detach_inorder(t1, t2, x);
            lemma_detach_values(t1, t2, x);
            let i = crate::traversal::inorder_before(t1, t1.root_spec(), x).len() as int;
            assert(0 <= i < s.len() && s[i] == x && inorder(t2, t2.root_spec()) == s.remove(i));
            lemma_move_up_ready(t1, x);
            let p = t1.node_spec(x).parent_spec();
            if t2.contains_spec(p) {
                assert(t1.contains_spec(p));
                assert(subtree_ids(t1, t1.root_spec()).contains(p));
                crate::traversal::lemma_inorder_members(t1, t1.root_spec());
                crate::traversal::lemma_inorder_members(t2, t2.root_spec());
                assert(s.contains(p));
                assert(s.remove(i).contains(p)) by {
                    let j = choose|j: int| 0 <= j < s.len() && s[j] == p;
                    assert(j != i);
                    if j < i {
                        assert(s.remove(i)[j] == p);
                    } else {
                        assert(s.remove(i)[j - 1] == p);
                    }
                }
            }
        }
        recompute_at_cursor(cursor);
        let ghost t3 = cursor.tree_spec();
        match side_of_parent {
            Some(side) => {
                if key_color == Color::Black {
                    remove_fixup_leaf(cursor, side);
                }
            },
            None => {},
        }
        let ghost t4 = cursor.tree_spec();
        fix_ancestor_semigroup_values(cursor);
        proof {
            let t5 = cursor.tree_spec();
            lemma_same_entries_order_trans(t2, t3, t4);
            lemma_same_entries_order_trans(t2, t4, t5);
            assert forall|z: NodeId| #[trigger] t5.contains_spec(z) implies {
                &&& t1.contains_spec(z)
                &&& z != x
                &&& key_at(t5, z) == key_at(t1, z)
                &&& value_at(t5, z) == value_at(t1, z)
            } by {
                assert(t2.contains_spec(z));
            }
        }
        data
    } else {
        let data = cursor.transplant_child();
        let ghost t2 = cursor.tree_spec();
        let ghost ch = cursor.id_spec();
        proof {
            lemma_transplant_inorder(t1, t2, x);
            lemma_transplant_values(t1, t2, x);
            let nx = t1.node_spec(x);
            let has_l = t1.contains_spec(nx.left_spec());
            let i: int = crate::traversal::inorder_before(t1, t1.root_spec(), x).len() + (if has_l {
                inorder(t1, ch).len() as int
            } else {
                0
            });
            assert(0 <= i < s.len() && s[i] == x && inorder(t2, t2.root_spec()) == s.remove(i));
        }
        set_color_here(cursor, Color::Black);
        let ghost t3 = cursor.tree_spec();
        proof {
            lemma_values_transfer(t2, t3);
        }
        fix_ancestor_semigroup_values(cursor);
        proof {
            let t4 = cursor.tree_spec();
            lemma_same_entries_order_trans(t2, t3, t4);
            assert forall|z: NodeId| #[trigger] t4.contains_spec(z) implies {
                &&& t1.contains_spec(z)
                &&& z != x
                &&& key_at(t4, z) == key_at(t1, z)
                &&& value_at(t4, z) == value_at(t1, z)
            } by {
                assert(t2.contains_spec(z));
            }
        }
        data
    }
}


/// Removes the node holding the key, if there is one, restores the red-black rules and the
/// semigroup values; returns the key and the value that were stored there.
fn remove_from<K: Ord, V, S: TreeSemigroup<K>>(tree: BinaryTree<SemigroupRbNode<K, V, S>>, key: &K) -> (r: (
    BinaryTree<SemigroupRbNode<K, V, S>>,
    Option<(K, V)>,
))
    requires
        key_order_laws::<K>(),
        op_total::<K, S>(),
        tree.wf(),
        keys_increasing(tree),
        all_values_ok(tree),
    ensures
        r.0.wf(),
        keys_increasing(r.0),
        all_values_ok(r.0),
        entries(r.0) == entries(tree).remove(*key),
        r.0.slots_spec() <= tree.slots_spec(),
        r.1 == (if entries(tree).dom().contains(*key) {
            Some((*key, entries(tree)[*key]))
        } else {
            None::<(K, V)>
        }),
{
    let mut tree = tree;
    let ghost t0 = tree;
    let ghost root = t0.root_spec();
    let mut cursor = tree.cursor_mut();
    if !get_cursor_mut_at_key(&mut cursor, key) {
        proof {
            cursor.lemma_resolved();
            assert(entries(t0).remove(*key) =~= entries(t0));
        }
        return (tree, None);
    }
    let ghost c = cursor.id_spec();
    let ghost s0 = inorder(t0, root);
    let ghost ic: int = (crate::traversal::inorder_before(t0, root, c).len() + inorder(
        t0,
        t0.node_spec(c).left_spec(),
    ).len()) as int;
    proof {
        lemma_entries(t0);
        lemma_sorted_parts(t0, c);
        lemma_subtree_ids(t0, root);
        assert(s0[ic] == c);
        assert(t0.node_ok(c));
    }
    let (has_left, has_right) = {
        let neighborhood = cursor.as_cursor().peek_neighborhood();
        (neighborhood.left.is_some(), neighborhood.right.is_some())
    };
    let ghost mut x = c;
    let ghost mut ix = ic;
    if has_left && has_right {
        // Exchange the entries of the node and of its successor, which has no left child,
        // and go on to remove the successor.
        let mut successor_cursor = cursor.as_cursor();
        move_cursor_to_successor(&mut successor_cursor);
        let successor_id = successor_cursor.node_id();
        let pair = cursor.peek_pair_mut(successor_id);
        match pair {
            Some((key_node, successor_node)) => {
                SemigroupRbNode::swap_entries(key_node, successor_node);
            },
            None => {},
        }
        let ghost t1 = cursor.tree_spec();
        proof {
            let r = t0.node_spec(c).right_spec();
            lemma_inorder_unfold(t0, r);
            lemma_contains_not_null(t0, r);
            assert(s0[ic + 1] == inorder(t0, r)[0]);
            lemma_inorder_distinct(t0, ic, ic + 1);
            lemma_same_links(t0, t1);
            crate::traversal::lemma_inorder_members(t0, r);
            assert(inorder(t0, r).contains(successor_id));
            lemma_subtree_split(t0, c);
            assert(subtree_ids(t0, c).contains(successor_id));
            lemma_swap_values(t0, t1, c, successor_id);
        }
        move_cursor_mut_to_successor(&mut cursor);
        proof {
            x = successor_id;
            ix = ic + 1;
            let r = t0.node_spec(c).right_spec();
            assert(t1.node_spec(c).right_spec() == r);
            assert(inorder(t1, r) == inorder(t0, r));
            assert(cursor.id_spec() == x);
            crate::traversal::lemma_inorder_members(t0, root);
            assert(s0.contains(x));
        }
    } else {
        proof {
            lemma_all_values_except_above(t0, c);
        }
    }
    let ghost t1 = cursor.tree_spec();
    proof {
        lemma_same_links(t0, t1);
        assert(inorder(t1, root) == s0);
        if !(has_left && has_right) {
            assert(t1 == t0);
        }
    }
    let data = remove_node_at_cursor(&mut cursor);
    let ghost t3 = cursor.tree_spec();
    proof {
        let i = choose|i: int| #![trigger s0.remove(i)] 0 <= i < s0.len() && s0[i] == x && inorder(t3, t3.root_spec()) == s0.remove(i);
        if i != ix {
            lemma_inorder_distinct(t0, ix, i);
        }
        if has_left && has_right {
            lemma_remove_swapped(t0, t1, t3, ic);
        } else {
            lemma_remove_direct(t0, t3, ic);
        }
        cursor.lemma_resolved();
    }
    let r = match data {
        Some(node) => Some(node.into_data()),
        None => None,
    };
    (tree, r)
}

impl<K: Ord, V, S: TreeSemigroup<K>> SemigroupRbTree<K, V, S> {
    /// Removes the node with the given key from the tree and updates the semigroup values;
    /// returns the key and its value, if the key was in the tree.
    pub fn remove_entry(&mut self, key: &K) -> (r: Option<(K, V)>)
        requires
            key_order_laws::<K>(),
            op_total::<K, S>(),
            old(self).is_semigroup_map(),
        ensures
            is_binary_search_tree_spec(final(self).inner_spec()),
            final(self).is_semigroup_map(),
            semigroup_values_ok(final(self).inner_spec(), final(self).inner_spec().root_spec()),
            final(self)@ == old(self)@.remove(*key),
            final(self).inner_spec().slots_spec() <= old(self).inner_spec().slots_spec(),
            r == (if old(self)@.dom().contains(*key) {
                Some((*key, old(self)@[*key]))
            } else {
                None
            }),
    {
        proof {
            use_type_invariant(&*self);
        }
        let mut tree = BinaryTree::new();
        std::mem::swap(&mut tree, &mut self.0);
        let (tree, r) = remove_from(tree, key);
        proof {
            lemma_sorted_is_bst::<K, SemigroupRbNode<K, V, S>>(tree, tree.root_spec());
        }
        self.0 = tree;
        proof {
            lemma_all_values_ok(self.0, self.0.root_spec());
        }
        r
    }
}


/// `t1` has the nodes, links, keys, colors and semigroup values of `t0`, and the value of
/// each node is one that `f` returns on the value of the same node of `t0`.
pub open spec fn semigroup_values_mapped<K, V, U, S, F: Fn(V) -> U>(
    t0: BinaryTree<SemigroupRbNode<K, V, S>>,
    t1: BinaryTree<SemigroupRbNode<K, U, S>>,
    f: F,
) -> bool {
    &&& t1.wf()
    &&& t1.root_spec() == t0.root_spec()
    &&& t1.len_spec() == t0.len_spec()
    &&& t1.slots_spec() == t0.slots_spec()
    &&& forall|z: NodeId| #[trigger] t1.contains_spec(z) == t0.contains_spec(z)
    &&& forall|z: NodeId| #[trigger] t0.contains_spec(z) ==> {
        &&& t1.node_spec(z).parent_spec() == t0.node_spec(z).parent_spec()
        &&& t1.node_spec(z).left_spec() == t0.node_spec(z).left_spec()
        &&& t1.node_spec(z).right_spec() == t0.node_spec(z).right_spec()
        &&& t1.node_spec(z).data_spec().key_spec() == t0.node_spec(z).data_spec().key_spec()
        &&& t1.node_spec(z).data_spec().color_spec() == t0.node_spec(z).data_spec().color_spec()
        &&& t1.node_spec(z).data_spec().semigroup_value_spec() == t0.node_spec(z).data_spec().semigroup_value_spec()
        &&& f.ensures((t0.node_spec(z).data_spec().value_spec(),), t1.node_spec(z).data_spec().value_spec())
    }
}

impl<K, V, S> SemigroupRbTree<K, V, S> {
    /// The tree with the same nodes, keys, colors and semigroup values, and every value
    /// replaced by `f` applied to it.
    pub fn map_values<U, F: Fn(V) -> U>(self, f: F) -> (r: SemigroupRbTree<K, U, S>)
        requires
            forall|v: V| f.requires((v,)),
        ensures
            semigroup_values_mapped(self.inner_spec(), r.inner_spec(), f),
    {
        proof {
            use_type_invariant(&self);
        }
        let fs: Ghost<F> = Ghost(f);
        let g = |node: SemigroupRbNode<K, V, S>| -> (r: SemigroupRbNode<K, U, S>)
            requires
                fs@.requires((node.value_spec(),)),
            ensures
                r.key_spec() == node.key_spec(),
                r.color_spec() == node.color_spec(),
                r.semigroup_value_spec() == node.semigroup_value_spec(),
                fs@.ensures((node.value_spec(),), r.value_spec()),
            {
                SemigroupRbNode {
                    key: node.key,
                    value: f(node.value),
                    semigroup_value: node.semigroup_value,
                    color: node.color,
                }
            };
        let SemigroupRbTree(tree) = self;
        let mapped = tree.map(g);
        SemigroupRbTree(mapped)
    }
}

impl<K: Ord, V, S: TreeSemigroup<K>> SemigroupRbTree<K, V, S> {
    /// Mapping the values keeps the tree a map with right semigroup values and the same
    /// keys, and at each key holds a value that `f` returns on the value that was there.
    pub proof fn lemma_map_values<U, F: Fn(V) -> U>(t0: SemigroupRbTree<K, V, S>, t1: SemigroupRbTree<K, U, S>, f: F)
        requires
            key_order_laws::<K>(),
            t0.inner_spec().wf(),
            t0.is_semigroup_map(),
            semigroup_values_mapped(t0.inner_spec(), t1.inner_spec(), f),
        ensures
            t1.is_semigroup_map(),
            t1@.dom() == t0@.dom(),
            forall|k: K| #[trigger] t0@.dom().contains(k) ==> f.ensures((t0@[k],), t1@[k]),
    {
        let a = t0.inner_spec();
        let b = t1.inner_spec();
        lemma_mapped_entries(a, b);
        assert forall|k: K| #[trigger] t0@.dom().contains(k) implies f.ensures((t0@[k],), t1@[k]) by {
            let id = choose|id: NodeId| {
                &&& #[trigger] subtree_ids(a, a.root_spec()).contains(id)
                &&& key_at(a, id) == k
                &&& entries(a)[k] == value_at(a, id)
                &&& entries(b)[k] == value_at(b, id)
            };
            lemma_subtree_ids(a, a.root_spec());
            assert(a.contains_spec(id));
        }
        assert forall|w: NodeId| #[trigger] b.contains_spec(w) implies sv_ok_at(b, w) by {
            assert(a.contains_spec(w));
            assert(sv_ok_at(a, w));
            let n = a.node_spec(w);
            assert(semigroup_value_at(b, n.left_spec()) == semigroup_value_at(a, n.left_spec()));
            assert(semigroup_value_at(b, n.right_spec()) == semigroup_value_at(a, n.right_spec()));
        }
    }
}


/// `t1` is the well-formed tree `t0` with the semigroup values of the nodes below `c`
/// replaced, and nothing else changed.
pub open spec fn revalued_below<K, V, S>(
    t0: BinaryTree<SemigroupRbNode<K, V, S>>,
    t1: BinaryTree<SemigroupRbNode<K, V, S>>,
    c: NodeId,
) -> bool {
    &&& t1.wf()
    &&& t1.root_spec() == t0.root_spec()
    &&& t1.rank_bound_spec() == t0.rank_bound_spec()
    &&& t1.slots_spec() == t0.slots_spec()
    &&& t1.len_spec() == t0.len_spec()
    &&& forall|x: NodeId| #[trigger] t1.contains_spec(x) == t0.contains_spec(x)
    &&& forall|x: NodeId| #[trigger] t0.contains_spec(x) ==> {
        &&& t1.rank_spec(x) == t0.rank_spec(x)
        &&& t1.node_spec(x).parent_spec() == t0.node_spec(x).parent_spec()
        &&& t1.node_spec(x).left_spec() == t0.node_spec(x).left_spec()
        &&& t1.node_spec(x).right_spec() == t0.node_spec(x).right_spec()
        &&& t1.node_spec(x).data_spec().key_spec() == t0.node_spec(x).data_spec().key_spec()
        &&& t1.node_spec(x).data_spec().value_spec() == t0.node_spec(x).data_spec().value_spec()
        &&& t1.node_spec(x).data_spec().color_spec() == t0.node_spec(x).data_spec().color_spec()
        &&& (!subtree_ids(t0, c).contains(x) ==> t1.node_spec(x).data_spec().semigroup_value_spec()
            == t0.node_spec(x).data_spec().semigroup_value_spec())
    }
}

/// A node whose semigroup value and children's values are unchanged, in a tree whose links
/// and keys are unchanged, holds the right value in one tree exactly when in the other.
pub proof fn lemma_value_frame<K, V, S: TreeSemigroup<K>>(
    t0: BinaryTree<SemigroupRbNode<K, V, S>>,
    t1: BinaryTree<SemigroupRbNode<K, V, S>>,
    w: NodeId,
)
    requires
        t0.wf(),
        t0.contains_spec(w),
        forall|x: NodeId| #[trigger] t1.contains_spec(x) == t0.contains_spec(x),
        t1.node_spec(w).left_spec() == t0.node_spec(w).left_spec(),
        t1.node_spec(w).right_spec() == t0.node_spec(w).right_spec(),
        t1.node_spec(w).data_spec().key_spec() == t0.node_spec(w).data_spec().key_spec(),
        t1.node_spec(w).data_spec().semigroup_value_spec() == t0.node_spec(w).data_spec().semigroup_value_spec(),
        ({
            let l = t0.node_spec(w).left_spec();
            t0.contains_spec(l) ==> t1.node_spec(l).data_spec().semigroup_value_spec()
                == t0.node_spec(l).data_spec().semigroup_value_spec()
        }),
        ({
            let r = t0.node_spec(w).right_spec();
            t0.contains_spec(r) ==> t1.node_spec(r).data_spec().semigroup_value_spec()
                == t0.node_spec(r).data_spec().semigroup_value_spec()
        }),
    ensures
        sv_ok_at(t1, w) == sv_ok_at(t0, w),
{
    let n = t0.node_spec(w);
    assert(semigroup_value_at(t1, n.left_spec()) == semigroup_value_at(t0, n.left_spec()));
    assert(semigroup_value_at(t1, n.right_spec()) == semigroup_value_at(t0, n.right_spec()));
}

/// Recomputes the semigroup values of all nodes below the cursor, children before parents;
/// afterwards each of them holds the value computed from its key and its children.
fn recompute_subtree<K, V, S: TreeSemigroup<K>>(cursor: &mut CursorMut<'_, SemigroupRbNode<K, V, S>>)
    requires
        op_total::<K, S>(),
        old(cursor).tree_spec().wf(),
    ensures
        final(cursor).id_spec() == old(cursor).id_spec(),
        *final(final(cursor).tree_ref()) == *final(old(cursor).tree_ref()),
        revalued_below(old(cursor).tree_spec(), final(cursor).tree_spec(), old(cursor).id_spec()),
        forall|w: NodeId| #[trigger] subtree_ids(old(cursor).tree_spec(), old(cursor).id_spec()).contains(w) ==> sv_ok_at(
            final(cursor).tree_spec(),
            w,
        ),
    decreases old(cursor).tree_spec().rank_spec(old(cursor).id_spec()),
{
    let ghost t0 = cursor.tree_spec();
    let ghost c = cursor.id_spec();
    proof {
        lemma_subtree_ids(t0, c);
    }
    if cursor.as_cursor().get().is_none() {
        return;
    }
    let ghost l = t0.node_spec(c).left_spec();
    let ghost r = t0.node_spec(c).right_spec();
    proof {
        lemma_children_ranks(t0, c);
        assert(t0.node_ok(c));
        lemma_subtree_split(t0, c);
        lemma_subtree_ids(t0, l);
        lemma_subtree_ids(t0, r);
        if t0.contains_spec(l) {
            lemma_contains_not_null(t0, l);
        }
        if t0.contains_spec(r) {
            lemma_contains_not_null(t0, r);
        }
    }
    if cursor.try_move_left() {
        recompute_subtree(cursor);
        cursor.move_up();
    }
    let ghost t1 = cursor.tree_spec();
    proof {
        assert(cursor.id_spec() == c);
        assert(revalued_below(t0, t1, l));
        assert(forall|w: NodeId| #[trigger] subtree_ids(t0, l).contains(w) ==> sv_ok_at(t1, w));
        lemma_same_links(t0, t1);
    }
    if cursor.try_move_right() {
        recompute_subtree(cursor);
        cursor.move_up();
    }
    let ghost t2 = cursor.tree_spec();
    proof {
        assert(cursor.id_spec() == c);
        assert(revalued_below(t1, t2, r));
        assert(forall|w: NodeId| #[trigger] subtree_ids(t1, r).contains(w) ==> sv_ok_at(t2, w));
        lemma_same_links(t1, t2);
    }
    recompute_semigroup_value(cursor);
    let ghost t3 = cursor.tree_spec();
    proof {
        assert forall|x: NodeId| #[trigger] t0.contains_spec(x) implies {
            &&& t3.rank_spec(x) == t0.rank_spec(x)
            &&& t3.node_spec(x).parent_spec() == t0.node_spec(x).parent_spec()
            &&& t3.node_spec(x).left_spec() == t0.node_spec(x).left_spec()
            &&& t3.node_spec(x).right_spec() == t0.node_spec(x).right_spec()
            &&& t3.node_spec(x).data_spec().key_spec() == t0.node_spec(x).data_spec().key_spec()
            &&& t3.node_spec(x).data_spec().value_spec() == t0.node_spec(x).data_spec().value_spec()
            &&& t3.node_spec(x).data_spec().color_spec() == t0.node_spec(x).data_spec().color_spec()
            &&& (!subtree_ids(t0, c).contains(x) ==> t3.node_spec(x).data_spec().semigroup_value_spec()
                == t0.node_spec(x).data_spec().semigroup_value_spec())
        } by {
            assert(t1.contains_spec(x));
            assert(t2.contains_spec(x));
        }
        assert forall|w: NodeId| #[trigger] subtree_ids(t0, c).contains(w) implies sv_ok_at(t3, w) by {
            if w != c {
                let nw = t0.node_spec(w);
                lemma_subtree_ids(t0, w);
                lemma_subtree_split(t0, w);
                assert(t0.node_ok(w));
                if nw.left_spec() == c || nw.right_spec() == c {
                    assert(t0.rank_spec(c) < t0.rank_spec(w));
                }
                assert(t1.contains_spec(w));
                assert(t2.contains_spec(w));
                if subtree_ids(t0, l).contains(w) {
                    lemma_subtree_nested(t0, l, w);
                    assert(sv_ok_at(t1, w));
                    if t0.contains_spec(nw.left_spec()) {
                        assert(subtree_ids(t0, w).contains(nw.left_spec()));
                    }
                    if t0.contains_spec(nw.right_spec()) {
                        assert(subtree_ids(t0, w).contains(nw.right_spec()));
                    }
                    lemma_value_frame(t1, t2, w);
                } else {
                    assert(subtree_ids(t0, r).contains(w));
                }
                lemma_value_frame(t2, t3, w);
            }
        }
    }
}

impl<K, V, S> SemigroupRbTree<K, V, S> {
    /// The tree with the same nodes, keys, values and colors, and the semigroup values of
    /// another semigroup, computed for every node below the root, children before parents.
    pub fn change_semigroup<SNew: TreeSemigroup<K>>(self) -> (r: SemigroupRbTree<K, V, SNew>)
        requires
            op_total::<K, SNew>(),
        ensures
            r.inner_spec().root_spec() == self.inner_spec().root_spec(),
            r.inner_spec().len_spec() == self.inner_spec().len_spec(),
            r.inner_spec().slots_spec() == self.inner_spec().slots_spec(),
            forall|z: NodeId| #[trigger] r.inner_spec().contains_spec(z) == self.inner_spec().contains_spec(z),
            forall|z: NodeId| #[trigger] self.inner_spec().contains_spec(z) ==> {
                let n0 = self.inner_spec().node_spec(z);
                let n1 = r.inner_spec().node_spec(z);
                &&& n1.parent_spec() == n0.parent_spec()
                &&& n1.left_spec() == n0.left_spec()
                &&& n1.right_spec() == n0.right_spec()
                &&& n1.data_spec().key_spec() == n0.data_spec().key_spec()
                &&& n1.data_spec().value_spec() == n0.data_spec().value_spec()
                &&& n1.data_spec().color_spec() == n0.data_spec().color_spec()
            },
            forall|w: NodeId| #[trigger] subtree_ids(r.inner_spec(), r.inner_spec().root_spec()).contains(w) ==> sv_ok_at(
                r.inner_spec(),
                w,
            ),
            semigroup_values_ok(r.inner_spec(), r.inner_spec().root_spec()),
    {
        proof {
            use_type_invariant(&self);
        }
        let g = |node: SemigroupRbNode<K, V, S>| -> (r: SemigroupRbNode<K, V, SNew>)
            requires
                SNew::op_defined(node.key_spec(), None, None),
            ensures
                r.key_spec() == node.key_spec(),
                r.value_spec() == node.value_spec(),
                r.color_spec() == node.color_spec(),
            {
                let temporary_value = SNew::op(&node.key, None, None);
                SemigroupRbNode {
                    key: node.key,
                    value: node.value,
                    semigroup_value: temporary_value,
                    color: node.color,
                }
            };
        let SemigroupRbTree(tree) = self;
        let mut mapped = tree.map(g);
        let ghost t1 = mapped;
        let mut cursor = mapped.cursor_mut();
        recompute_subtree(&mut cursor);
        proof {
            cursor.lemma_resolved();
            assert forall|z: NodeId| #[trigger] tree.contains_spec(z) implies {
                let n0 = tree.node_spec(z);
                let n1 = mapped.node_spec(z);
                &&& n1.parent_spec() == n0.parent_spec()
                &&& n1.left_spec() == n0.left_spec()
                &&& n1.right_spec() == n0.right_spec()
                &&& n1.data_spec().key_spec() == n0.data_spec().key_spec()
                &&& n1.data_spec().value_spec() == n0.data_spec().value_spec()
                &&& n1.data_spec().color_spec() == n0.data_spec().color_spec()
            } by {
                assert(t1.contains_spec(z));
            }
            lemma_same_links(t1, mapped);
            assert forall|w: NodeId| #[trigger] mapped.contains_spec(w) implies (subtree_ids(mapped, mapped.root_spec()).contains(w)
                ==> sv_ok_at(mapped, w)) by {
            }
            lemma_values_below_root(mapped, mapped.root_spec());
        }
        SemigroupRbTree(mapped)
    }
}

/// When every node below the root holds the right semigroup value, so does every node below
/// any node below the root.
pub proof fn lemma_values_below_root<K, V, S: TreeSemigroup<K>>(t: BinaryTree<SemigroupRbNode<K, V, S>>, id: NodeId)
    requires
        t.wf(),
        subtree_ids(t, t.root_spec()).contains(id) || !t.contains_spec(id),
        forall|w: NodeId| #[trigger] subtree_ids(t, t.root_spec()).contains(w) ==> sv_ok_at(t, w),
    ensures
        semigroup_values_ok(t, id),
    decreases t.rank_spec(id),
{
    if t.contains_spec(id) {
        let n = t.node_spec(id);
        lemma_children_ranks(t, id);
        lemma_subtree_split(t, id);
        lemma_subtree_nested(t, t.root_spec(), id);
        lemma_subtree_ids(t, n.left_spec());
        lemma_subtree_ids(t, n.right_spec());
        lemma_subtree_ids(t, t.root_spec());
        assert(sv_ok_at(t, id));
        if t.contains_spec(n.left_spec()) {
            assert(subtree_ids(t, id).contains(n.left_spec()));
            lemma_values_below_root(t, n.left_spec());
        }
        if t.contains_spec(n.right_spec()) {
            assert(subtree_ids(t, id).contains(n.right_spec()));
            lemma_values_below_root(t, n.right_spec());
        }
    }
}


/// A node of a red-black tree with semigroup values written out as nested values.
pub struct SerializationNode<K, V, S> {
    pub key: K,
    pub value: V,
    pub semigroup_value: S,
    pub color: Color,
    pub left: Option<Box<SerializationNode<K, V, S>>>,
    pub right: Option<Box<SerializationNode<K, V, S>>>,
}

/// A red-black tree with semigroup values written out as nested values; `None` for an
/// empty tree.
pub struct SerializationTree<K, V, S>(pub Option<SerializationNode<K, V, S>>);

/// The same nodes written out with the node data as one value.
pub closed spec fn to_plain_node<K, V, S>(s: SerializationNode<K, V, S>) -> serialization::SerializationNode<
    SemigroupRbNode<K, V, S>,
>
    decreases s,
{
    serialization::SerializationNode {
        data: SemigroupRbNode { key: s.key, value: s.value, semigroup_value: s.semigroup_value, color: s.color },
        left: match s.left {
            Some(l) => Some(Box::new(to_plain_node(*l))),
            None => None,
        },
        right: match s.right {
            Some(r) => Some(Box::new(to_plain_node(*r))),
            None => None,
        },
    }
}

/// The same nodes written out with the key, value, semigroup value and color of each node
/// apart.
pub closed spec fn from_plain_node<'t, K, V, S>(
    s: serialization::SerializationNode<&'t SemigroupRbNode<K, V, S>>,
) -> SerializationNode<&'t K, &'t V, &'t S>
    decreases s,
{
    SerializationNode {
        key: &s.data.key,
        value: &s.data.value,
        semigroup_value: &s.data.semigroup_value,
        color: s.data.color,
        left: match s.left {
            Some(l) => Some(Box::new(from_plain_node(*l))),
            None => None,
        },
        right: match s.right {
            Some(r) => Some(Box::new(from_plain_node(*r))),
            None => None,
        },
    }
}

impl<K, V, S> SerializationNode<K, V, S> {
    /// Writes the nodes out with the node data as one value.
    fn into_plain(self) -> (r: serialization::SerializationNode<SemigroupRbNode<K, V, S>>)
        ensures
            r == to_plain_node(self),
            r.size() == self.size(),
        decreases self,
    {
        let SerializationNode { key, value, semigroup_value, color, left, right } = self;
        let left = match left {
            Some(l) => Some(Box::new(l.into_plain())),
            None => None,
        };
        let right = match right {
            Some(r) => Some(Box::new(r.into_plain())),
            None => None,
        };
        serialization::SerializationNode { data: SemigroupRbNode { key, value, semigroup_value, color }, left, right }
    }

    /// The number of nodes.
    pub open spec fn size(self) -> nat
        decreases self,
    {
        1 + match self.left {
            Some(l) => l.size(),
            None => 0,
        } + match self.right {
            Some(r) => r.size(),
            None => 0,
        }
    }
}

impl<'t, K, V, S> SerializationNode<&'t K, &'t V, &'t S> {
    /// Writes the nodes out with the key, value, semigroup value and color of each node
    /// apart.
    fn from_plain(s: serialization::SerializationNode<&'t SemigroupRbNode<K, V, S>>) -> (r: Self)
        ensures
            r == from_plain_node(s),
        decreases s,
    {
        let serialization::SerializationNode { data, left, right } = s;
        let left = match left {
            Some(l) => Some(Box::new(Self::from_plain(*l))),
            None => None,
        };
        let right = match right {
            Some(r) => Some(Box::new(Self::from_plain(*r))),
            None => None,
        };
        SerializationNode {
            key: &data.key,
            value: &data.value,
            semigroup_value: &data.semigroup_value,
            color: data.color,
            left,
            right,
        }
    }
}

impl<'t, K, V, S> SerializationTree<&'t K, &'t V, &'t S> {
    /// Writes out the red-black tree with semigroup values.
    pub fn new(tree: &'t SemigroupRbTree<K, V, S>) -> (r: Self)
        ensures
            exists|s: serialization::SerializationTree<&'t SemigroupRbNode<K, V, S>>|
                #![trigger serialization::deref_tree(s)]
                serialization::represents_tree(tree.inner_spec(), serialization::deref_tree(s)) && r.0 == match s.0 {
                    Some(n) => Some(from_plain_node(n)),
                    None => None,
                },
    {
        proof {
            use_type_invariant(tree);
        }
        let plain = serialization::SerializationTree::new(&tree.0);
        let ghost s = plain;
        let r = match plain.0 {
            Some(n) => SerializationTree(Some(SerializationNode::from_plain(n))),
            None => SerializationTree(None),
        };
        assert(serialization::represents_tree(tree.inner_spec(), serialization::deref_tree(s)));
        r
    }
}

/// Whether the semigroup values of a subtree are right depends only on what it holds, not
/// on where its nodes are kept.
pub proof fn lemma_represents_same_values<K, V, S: TreeSemigroup<K>>(
    t1: BinaryTree<SemigroupRbNode<K, V, S>>,
    id1: NodeId,
    t2: BinaryTree<SemigroupRbNode<K, V, S>>,
    id2: NodeId,
    s: serialization::SerializationNode<SemigroupRbNode<K, V, S>>,
)
    requires
        t1.wf(),
        t2.wf(),
        serialization::represents(t1, id1, s),
        serialization::represents(t2, id2, s),
    ensures
        semigroup_values_ok(t1, id1) == semigroup_values_ok(t2, id2),
    decreases s,
{
    let n1 = t1.node_spec(id1);
    let n2 = t2.node_spec(id2);
    lemma_children_ranks(t1, id1);
    lemma_children_ranks(t2, id2);
    match s.left {
        Some(l) => {
            lemma_represents_same_values(t1, n1.left_spec(), t2, n2.left_spec(), *l);
            assert(serialization::represents(t1, n1.left_spec(), *l));
            assert(serialization::represents(t2, n2.left_spec(), *l));
            assert(t1.node_spec(n1.left_spec()).data_spec() == l.data);
            assert(t2.node_spec(n2.left_spec()).data_spec() == l.data);
        },
        None => {
            if t1.contains_spec(n1.left_spec()) {
                lemma_contains_not_null(t1, n1.left_spec());
            }
            if t2.contains_spec(n2.left_spec()) {
                lemma_contains_not_null(t2, n2.left_spec());
            }
        },
    }
    match s.right {
        Some(r) => {
            lemma_represents_same_values(t1, n1.right_spec(), t2, n2.right_spec(), *r);
            assert(serialization::represents(t1, n1.right_spec(), *r));
            assert(serialization::represents(t2, n2.right_spec(), *r));
            assert(t1.node_spec(n1.right_spec()).data_spec() == r.data);
            assert(t2.node_spec(n2.right_spec()).data_spec() == r.data);
        },
        None => {
            if t1.contains_spec(n1.right_spec()) {
                lemma_contains_not_null(t1, n1.right_spec());
            }
            if t2.contains_spec(n2.right_spec()) {
                lemma_contains_not_null(t2, n2.right_spec());
            }
        },
    }
    assert(semigroup_value_at(t1, n1.left_spec()) == semigroup_value_at(t2, n2.left_spec()));
    assert(semigroup_value_at(t1, n1.right_spec()) == semigroup_value_at(t2, n2.right_spec()));
}

impl<K: Ord, V, S: TreeSemigroup<K> + PartialEq> SerializationTree<K, V, S> {
    /// Builds the red-black tree with semigroup values written out here, if its keys are in
    /// search order, its colors obey the red-black rules and every semigroup value is the one
    /// computed from its node and children.
    pub fn into_semigroup_rb_tree(self) -> (r: Result<SemigroupRbTree<K, V, S>, SemigroupRbTreeError>)
        requires
            key_order_laws::<K>(),
            obeys_concrete_eq::<S>(),
            op_total::<K, S>(),
            match self.0 {
                Some(n) => n.size() + 1 < usize::MAX,
                None => true,
            },
        ensures
            ({
                let plain = serialization::SerializationTree(
                    match self.0 {
                        Some(n) => Some(to_plain_node(n)),
                        None => None,
                    },
                );
                forall|t: BinaryTree<SemigroupRbNode<K, V, S>>| #[trigger] serialization::represents_tree(t, plain) && t.wf() ==> {
                    &&& !is_binary_search_tree_spec(t) ==> r == Err::<SemigroupRbTree<K, V, S>, SemigroupRbTreeError>(
                        SemigroupRbTreeError::BinarySearchTreeError,
                    )
                    &&& is_binary_search_tree_spec(t) && !is_red_black_tree_spec(t) ==> r == Err::<
                        SemigroupRbTree<K, V, S>,
                        SemigroupRbTreeError,
                    >(SemigroupRbTreeError::RedBlackTreeError)
                    &&& is_binary_search_tree_spec(t) && is_red_black_tree_spec(t) && !semigroup_values_ok(
                        t,
                        t.root_spec(),
                    ) ==> r == Err::<SemigroupRbTree<K, V, S>, SemigroupRbTreeError>(SemigroupRbTreeError::SemigroupError)
                    &&& is_binary_search_tree_spec(t) && is_red_black_tree_spec(t) && semigroup_values_ok(t, t.root_spec())
                        ==> r is Ok && r.unwrap().valid() && serialization::represents_tree(r.unwrap().inner_spec(), plain)
                }
            }),
    {
        let plain = match self.0 {
            Some(n) => serialization::SerializationTree(Some(n.into_plain())),
            None => serialization::SerializationTree(None),
        };
        let tree = plain.into_binary_tree();
        proof {
            assert forall|t: BinaryTree<SemigroupRbNode<K, V, S>>| #[trigger] serialization::represents_tree(t, plain)
                && t.wf() implies is_binary_search_tree_spec(t) == is_binary_search_tree_spec(tree)
                && is_red_black_tree_spec(t) == is_red_black_tree_spec(tree)
                && semigroup_values_ok(t, t.root_spec()) == semigroup_values_ok(tree, tree.root_spec()) by {
                lemma_represents_tree_same_checks(t, tree, plain);
                match plain.0 {
                    Some(n) => {
                        lemma_represents_same_values(t, t.root_spec(), tree, tree.root_spec(), n);
                    },
                    None => {
                        if t.contains_spec(t.root_spec()) {
                            lemma_contains_not_null(t, t.root_spec());
                        }
                        if tree.contains_spec(tree.root_spec()) {
                            lemma_contains_not_null(tree, tree.root_spec());
                        }
                    },
                }
            }
        }
        SemigroupRbTree::from_binary_tree(tree)
    }
}

} // verus!
