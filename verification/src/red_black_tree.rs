use vstd::prelude::*;
use crate::order::{lt, key_order_laws, lemma_key_order, compare_keys, KeyOrder};
use crate::red_black_node::{Color, map_get};
use crate::side::Side;
use crate::binary_tree::{
    BinaryTree,
    NodeId,
    Cursor,
    CursorMut,
    lemma_relink,
    lemma_with_data,
    lemma_contains_not_null,
    lemma_contained_ids_bound,
    lemma_children_ranks,
    cursor_rank,
    subtree_ids,
    lemma_subtree_ids,
};
use crate::serialization;
use crate::balance::{
    red_at,
    rb_height,
    lemma_attach_red_leaf,
    lemma_blacken_root,
    same_colors,
    same_colors_below,
    lemma_rb_height_frame,
    insert_ready,
    rb_balanced,
    lemma_rb_height_unused,
    lemma_insert_recolor,
    lemma_insert_rotate_pair,
    lemma_insert_rotate_fix,
};
use crate::traversal::{inorder, root_has_no_parent, lemma_inorder_unfold};
use crate::search_map::{
    RbEntry,
    key_at,
    keys_of,
    keys_increasing,
    strictly_sorted,
    entries,
    search_bounds,
    fixup_ready,
    recolored,
    same_entries_order,
    lemma_search_step,
    lemma_insert_leaf,
    lemma_entries_update,
    lemma_same_entries,
    lemma_same_entries_order_trans,
    lemma_recolored,
    lemma_recolor_data,
    lemma_move_up_ready,
    lemma_rotation_entries,
    lemma_empty_entries,
    lemma_singleton_entries,
    lemma_move_down_ready,
    lemma_parent_subtree_larger,
    lemma_absent,
    lemma_entries,
    lemma_mapped_entries,
    lemma_sorted_parts,
    lemma_remove_direct,
    lemma_remove_swapped,
    lemma_inorder_distinct,
    color_at,
    value_at,
};

verus! {

/// The data of a node of a red-black tree kept in a `BinaryTree`: a key-value pair
/// and a color.
pub struct RedBlackNode<K, V> {
    key: K,
    value: V,
    color: Color,
}

impl<K, V> RedBlackNode<K, V> {
    pub closed spec fn key_spec(self) -> K {
        self.key
    }

    pub closed spec fn value_spec(self) -> V {
        self.value
    }

    pub closed spec fn color_spec(self) -> Color {
        self.color
    }

    /// The node with its value replaced.
    pub closed spec fn with_value_spec(self, value: V) -> RedBlackNode<K, V> {
        RedBlackNode { value, ..self }
    }

    /// A node holding the key-value pair, with the given color.
    pub fn new_with_color(key: K, value: V, color: Color) -> (r: Self)
        ensures
            r.key_spec() == key,
            r.value_spec() == value,
            r.color_spec() == color,
    {
        RedBlackNode { key, value, color }
    }

    /// The key stored at this node.
    pub fn key(&self) -> (r: &K)
        ensures
            *r == self.key_spec(),
    {
        &self.key
    }

    /// The value stored at this node.
    pub fn value(&self) -> (r: &V)
        ensures
            *r == self.value_spec(),
    {
        &self.value
    }

    /// The value stored at this node, for modification.
    pub fn value_mut(&mut self) -> (r: &mut V)
        ensures
            *r == old(self).value_spec(),
            *final(self) == old(self).with_value_spec(*final(r)),
    {
        &mut self.value
    }

    /// The key and the value stored at this node.
    pub fn into_data(self) -> (r: (K, V))
        ensures
            r.0 == self.key_spec(),
            r.1 == self.value_spec(),
    {
        (self.key, self.value)
    }

    /// Whether the node is red.
    pub fn is_red(&self) -> (r: bool)
        ensures
            r == (self.color_spec() == Color::Red),
    {
        match self.color {
            Color::Red => true,
            Color::Black => false,
        }
    }

    /// Whether the node is black.
    pub fn is_black(&self) -> (r: bool)
        ensures
            r == (self.color_spec() == Color::Black),
    {
        match self.color {
            Color::Red => false,
            Color::Black => true,
        }
    }

    /// The color of the node.
    pub fn color(&self) -> (r: Color)
        ensures
            r == self.color_spec(),
    {
        self.color
    }
}

impl<K: Ord, V> RbEntry for RedBlackNode<K, V> {
    type Key = K;
    type Value = V;
    type Rest = ();

    open spec fn entry_key(&self) -> K {
        self.key_spec()
    }

    open spec fn entry_value(&self) -> V {
        self.value_spec()
    }

    open spec fn entry_color(&self) -> Color {
        self.color_spec()
    }

    open spec fn entry_rest(&self) -> () {
        ()
    }

    fn entry_key_ref(&self) -> (r: &K) {
        &self.key
    }

    fn entry_color_exec(&self) -> (r: Color) {
        self.color
    }

    fn set_color(&mut self, color: Color) {
        self.color = color;
    }

    fn swap_entries(a: &mut Self, b: &mut Self) {
        std::mem::swap(&mut a.key, &mut b.key);
        std::mem::swap(&mut a.value, &mut b.value);
    }
}

/// The data of a node of a red-black search tree: it has a key and a color.
pub trait RedBlackData<K> {
    spec fn key_of(&self) -> K;

    spec fn color_of(&self) -> Color;

    /// The key of the node.
    fn node_key(&self) -> (r: &K)
        ensures
            *r == self.key_of(),
    ;

    /// The color of the node.
    fn node_color(&self) -> (r: Color)
        ensures
            r == self.color_of(),
    ;
}

impl<K, V> RedBlackData<K> for RedBlackNode<K, V> {
    open spec fn key_of(&self) -> K {
        self.key_spec()
    }

    open spec fn color_of(&self) -> Color {
        self.color_spec()
    }

    fn node_key(&self) -> (r: &K) {
        &self.key
    }

    fn node_color(&self) -> (r: Color) {
        self.color
    }
}

/// The ways in which a tree can fail to be a red-black tree.
#[derive(Clone, Copy, Debug, PartialEq, Eq, Structural)]
pub enum RedBlackTreeError {
    /// The keys are not in search order.
    BinarySearchTreeError,
    /// The colors break a red-black rule.
    RedBlackTreeError,
}

/// The keys stored in the subtree below the node `id`.
pub open spec fn subtree_keys<K, N: RedBlackData<K>>(t: BinaryTree<N>, id: NodeId) -> Set<K>
    decreases t.rank_spec(id),
    when t.wf()
{
    if !t.contains_spec(id) {
        Set::empty()
    } else {
        let n = t.node_spec(id);
        proof {
            lemma_children_ranks(t, id);
        }
        let l = if t.contains_spec(n.left_spec()) {
            subtree_keys(t, n.left_spec())
        } else {
            Set::empty()
        };
        let r = if t.contains_spec(n.right_spec()) {
            subtree_keys(t, n.right_spec())
        } else {
            Set::empty()
        };
        l.union(r).insert(n.data_spec().key_of())
    }
}

/// The subtree below the node `id` is in search order: at every node, every key on the
/// left is smaller and every key on the right is greater than the node's key.
pub open spec fn is_bst_at<K: Ord, N: RedBlackData<K>>(t: BinaryTree<N>, id: NodeId) -> bool
    decreases t.rank_spec(id),
    when t.wf()
{
    if !t.contains_spec(id) {
        true
    } else {
        let n = t.node_spec(id);
        proof {
            lemma_children_ranks(t, id);
        }
        let k = n.data_spec().key_of();
        &&& forall|x: K| #[trigger] subtree_keys(t, n.left_spec()).contains(x) ==> lt(x, k)
        &&& forall|x: K| #[trigger] subtree_keys(t, n.right_spec()).contains(x) ==> lt(k, x)
        &&& (t.contains_spec(n.left_spec()) ==> is_bst_at(t, n.left_spec()))
        &&& (t.contains_spec(n.right_spec()) ==> is_bst_at(t, n.right_spec()))
    }
}

/// Whether the node `id` is in the tree and red.
pub open spec fn is_red_at<K, N: RedBlackData<K>>(t: BinaryTree<N>, id: NodeId) -> bool {
    t.contains_spec(id) && t.node_spec(id).data_spec().color_of() == Color::Red
}

/// The number of black nodes on every path from the node `id` down to a missing child,
/// the missing child counted as black, if the subtree below `id` has no red node with a
/// red child and this number is the same on all such paths; `None` otherwise.
pub open spec fn black_height<K, N: RedBlackData<K>>(t: BinaryTree<N>, id: NodeId) -> Option<nat>
    decreases t.rank_spec(id),
    when t.wf()
{
    if !t.contains_spec(id) {
        Some(1)
    } else {
        let n = t.node_spec(id);
        proof {
            lemma_children_ranks(t, id);
        }
        let bl = if t.contains_spec(n.left_spec()) {
            black_height(t, n.left_spec())
        } else {
            Some(1)
        };
        let br = if t.contains_spec(n.right_spec()) {
            black_height(t, n.right_spec())
        } else {
            Some(1)
        };
        if is_red_at(t, id) && (is_red_at(t, n.left_spec()) || is_red_at(t, n.right_spec())) {
            None
        } else if bl is None || br is None || bl != br {
            None
        } else if is_red_at(t, id) {
            bl
        } else {
            Some(bl.unwrap() + 1)
        }
    }
}

/// The keys of the whole tree are in search order.
pub open spec fn is_binary_search_tree_spec<K: Ord, N: RedBlackData<K>>(t: BinaryTree<N>) -> bool {
    is_bst_at(t, t.root_spec())
}

/// The tree is a red-black tree: its root is black, no red node has a red child, and all
/// paths from the root down to a missing child pass the same number of black nodes.
pub open spec fn is_red_black_tree_spec<K, N: RedBlackData<K>>(t: BinaryTree<N>) -> bool {
    &&& !is_red_at(t, t.root_spec())
    &&& black_height(t, t.root_spec()) is Some
}

/// Where the two ways of reading a node's color agree, the black height is the height that
/// lets no red node have a red child, and a node is red in the one sense when it is in the
/// other.
pub proof fn lemma_black_height_is_rb_height<K, N: RbEntry + RedBlackData<K>>(t: BinaryTree<N>, id: NodeId)
    requires
        t.wf(),
        forall|x: NodeId| #[trigger] t.contains_spec(x) ==> t.node_spec(x).data_spec().color_of()
            == t.node_spec(x).data_spec().entry_color(),
    ensures
        black_height(t, id) == rb_height(t, id, NodeId::null_spec()),
        is_red_at(t, id) == red_at(t, id),
    decreases t.rank_spec(id),
{
    if t.contains_spec(id) {
        let n = t.node_spec(id);
        lemma_children_ranks(t, id);
        NodeId::lemma_null_is_null();
        if t.contains_spec(n.left_spec()) {
            lemma_black_height_is_rb_height::<K, N>(t, n.left_spec());
            lemma_contains_not_null(t, n.left_spec());
        }
        if t.contains_spec(n.right_spec()) {
            lemma_black_height_is_rb_height::<K, N>(t, n.right_spec());
            lemma_contains_not_null(t, n.right_spec());
        }
    }
}

/// Keys that strictly increase along the inorder sequence below a node are in search order
/// there, and they are the keys of that subtree.
pub proof fn lemma_sorted_is_bst<K: Ord, N: RbEntry<Key = K> + RedBlackData<K>>(t: BinaryTree<N>, id: NodeId)
    requires
        key_order_laws::<K>(),
        t.wf(),
        forall|x: NodeId| #[trigger] t.contains_spec(x) ==> t.node_spec(x).data_spec().key_of()
            == t.node_spec(x).data_spec().entry_key(),
        strictly_sorted(keys_of(t, inorder(t, id))),
    ensures
        is_bst_at::<K, N>(t, id),
        forall|x: K| #[trigger] subtree_keys::<K, N>(t, id).contains(x) <==> keys_of(t, inorder(t, id)).contains(x),
    decreases t.rank_spec(id),
{
    lemma_inorder_unfold(t, id);
    if t.contains_spec(id) {
        let n = t.node_spec(id);
        let l = n.left_spec();
        let r = n.right_spec();
        let k = n.data_spec().key_of();
        lemma_children_ranks(t, id);
        let sl = keys_of(t, inorder(t, l));
        let sr = keys_of(t, inorder(t, r));
        let s = keys_of(t, inorder(t, id));
        assert(s =~= sl + seq![k] + sr);
        assert(strictly_sorted(sl)) by {
            assert forall|i: int, j: int| 0 <= i < j < sl.len() implies lt(#[trigger] sl[i], #[trigger] sl[j]) by {
                assert(sl[i] == s[i] && sl[j] == s[j]);
            }
        }
        assert(strictly_sorted(sr)) by {
            assert forall|i: int, j: int| 0 <= i < j < sr.len() implies lt(#[trigger] sr[i], #[trigger] sr[j]) by {
                let o = sl.len() + 1;
                assert(sr[i] == s[o + i] && sr[j] == s[o + j]);
            }
        }
        lemma_inorder_unfold(t, l);
        lemma_inorder_unfold(t, r);
        if t.contains_spec(l) {
            lemma_sorted_is_bst::<K, N>(t, l);
        } else {
            assert(sl =~= Seq::<K>::empty());
        }
        if t.contains_spec(r) {
            lemma_sorted_is_bst::<K, N>(t, r);
        } else {
            assert(sr =~= Seq::<K>::empty());
        }
        assert forall|x: K| #[trigger] subtree_keys::<K, N>(t, l).contains(x) implies lt(x, k) by {
            let i = choose|i: int| 0 <= i < sl.len() && sl[i] == x;
            assert(s[i] == x);
            assert(s[sl.len() as int] == k);
        }
        assert forall|x: K| #[trigger] subtree_keys::<K, N>(t, r).contains(x) implies lt(k, x) by {
            let j = choose|j: int| 0 <= j < sr.len() && sr[j] == x;
            assert(s[sl.len() + 1 + j] == x);
            assert(s[sl.len() as int] == k);
        }
        assert forall|x: K| #[trigger] subtree_keys::<K, N>(t, id).contains(x) <==> s.contains(x) by {
            if s.contains(x) {
                let i = choose|i: int| 0 <= i < s.len() && s[i] == x;
                if i < sl.len() {
                    assert(sl[i] == x);
                } else if i > sl.len() {
                    assert(sr[i - sl.len() - 1] == x);
                }
            }
            if subtree_keys::<K, N>(t, l).contains(x) {
                let i = choose|i: int| 0 <= i < sl.len() && sl[i] == x;
                assert(s[i] == x);
            }
            if subtree_keys::<K, N>(t, r).contains(x) {
                let j = choose|j: int| 0 <= j < sr.len() && sr[j] == x;
                assert(s[sl.len() + 1 + j] == x);
            }
            if x == k {
                assert(s[sl.len() as int] == k);
            }
        }
    } else {
        assert(keys_of(t, inorder(t, id)) =~= Seq::<K>::empty());
    }
}

/// Keys in search order below a node strictly increase along its inorder sequence, and
/// they are the keys of that subtree.
pub proof fn lemma_bst_is_sorted<K: Ord, N: RbEntry<Key = K> + RedBlackData<K>>(t: BinaryTree<N>, id: NodeId)
    requires
        key_order_laws::<K>(),
        t.wf(),
        forall|x: NodeId| #[trigger] t.contains_spec(x) ==> t.node_spec(x).data_spec().key_of()
            == t.node_spec(x).data_spec().entry_key(),
        is_bst_at::<K, N>(t, id),
    ensures
        strictly_sorted(keys_of(t, inorder(t, id))),
        forall|x: K| #[trigger] subtree_keys::<K, N>(t, id).contains(x) <==> keys_of(t, inorder(t, id)).contains(x),
    decreases t.rank_spec(id),
{
    lemma_key_order::<K>();
    lemma_inorder_unfold(t, id);
    if t.contains_spec(id) {
        let n = t.node_spec(id);
        let l = n.left_spec();
        let r = n.right_spec();
        let k = n.data_spec().key_of();
        lemma_children_ranks(t, id);
        let sl = keys_of(t, inorder(t, l));
        let sr = keys_of(t, inorder(t, r));
        let s = keys_of(t, inorder(t, id));
        assert(s =~= sl + seq![k] + sr);
        lemma_inorder_unfold(t, l);
        lemma_inorder_unfold(t, r);
        if t.contains_spec(l) {
            lemma_bst_is_sorted::<K, N>(t, l);
        } else {
            assert(sl =~= Seq::<K>::empty());
        }
        if t.contains_spec(r) {
            lemma_bst_is_sorted::<K, N>(t, r);
        } else {
            assert(sr =~= Seq::<K>::empty());
        }
        assert forall|i: int| 0 <= i < sl.len() implies lt(#[trigger] sl[i], k) by {
            assert(sl.contains(sl[i]));
            assert(subtree_keys::<K, N>(t, l).contains(sl[i]));
        }
        assert forall|j: int| 0 <= j < sr.len() implies lt(k, #[trigger] sr[j]) by {
            assert(sr.contains(sr[j]));
            assert(subtree_keys::<K, N>(t, r).contains(sr[j]));
        }
        assert forall|i: int, j: int| 0 <= i < j < s.len() implies lt(#[trigger] s[i], #[trigger] s[j]) by {
            let a = sl.len() as int;
            if j < a {
                assert(s[i] == sl[i] && s[j] == sl[j]);
            } else if j == a {
                assert(s[i] == sl[i]);
            } else if i > a {
                assert(s[i] == sr[i - a - 1] && s[j] == sr[j - a - 1]);
            } else if i == a {
                assert(s[j] == sr[j - a - 1]);
            } else {
                assert(s[i] == sl[i] && s[j] == sr[j - a - 1]);
                assert(lt(sl[i], k));
            }
        }
        assert forall|x: K| #[trigger] subtree_keys::<K, N>(t, id).contains(x) <==> s.contains(x) by {
            if s.contains(x) {
                let i = choose|i: int| 0 <= i < s.len() && s[i] == x;
                if i < sl.len() {
                    assert(sl[i] == x);
                } else if i > sl.len() {
                    assert(sr[i - sl.len() - 1] == x);
                }
            }
            if subtree_keys::<K, N>(t, l).contains(x) {
                let i = choose|i: int| 0 <= i < sl.len() && sl[i] == x;
                assert(s[i] == x);
            }
            if subtree_keys::<K, N>(t, r).contains(x) {
                let j = choose|j: int| 0 <= j < sr.len() && sr[j] == x;
                assert(s[sl.len() + 1 + j] == x);
            }
            if x == k {
                assert(s[sl.len() as int] == k);
            }
        }
    } else {
        assert(keys_of(t, inorder(t, id)) =~= Seq::<K>::empty());
    }
}

/// `a <= b <= c` in the key order gives `a <= c`.
proof fn lemma_le_trans<K: Ord>(a: K, b: K, c: K)
    requires
        key_order_laws::<K>(),
        !lt(b, a),
        !lt(c, b),
    ensures
        !lt(c, a),
{
    lemma_key_order::<K>();
    if lt(c, a) {
        if a == b {
        } else {
            assert(lt(a, b));
            assert(lt(c, b));
        }
    }
}

/// `a <= b < c` in the key order gives `a < c`.
proof fn lemma_le_lt_trans<K: Ord>(a: K, b: K, c: K)
    requires
        key_order_laws::<K>(),
        !lt(b, a),
        lt(b, c),
    ensures
        lt(a, c),
{
    lemma_key_order::<K>();
    if a != b {
        assert(lt(a, b));
    }
}

/// `a < b <= c` in the key order gives `a < c`.
proof fn lemma_lt_le_trans<K: Ord>(a: K, b: K, c: K)
    requires
        key_order_laws::<K>(),
        lt(a, b),
        !lt(c, b),
    ensures
        lt(a, c),
{
    lemma_key_order::<K>();
    if b != c {
        assert(lt(b, c));
    }
}

/// Checks the search order below the node the cursor points at, and returns the
/// smallest and the largest key found there.
fn is_binary_search_tree_recursive<'t, K: Ord, N: RedBlackData<K>>(cursor: Cursor<'t, N>) -> (r: (
    bool,
    Option<(&'t K, &'t K)>,
))
    requires
        key_order_laws::<K>(),
        cursor.tree_spec().wf(),
    ensures
        ({
            let t = cursor.tree_spec();
            let id = cursor.id_spec();
            let keys = subtree_keys(t, id);
            &&& r.0 == is_bst_at(t, id)
            &&& (r.0 && t.contains_spec(id)) ==> {
                &&& r.1 is Some
                &&& keys.contains(*r.1.unwrap().0)
                &&& keys.contains(*r.1.unwrap().1)
                &&& forall|x: K| #[trigger] keys.contains(x) ==> !lt(x, *r.1.unwrap().0) && !lt(*r.1.unwrap().1, x)
            }
            &&& !(r.0 && t.contains_spec(id)) ==> r.1 is None
        }),
    decreases cursor_rank(cursor),
{
    let ghost t = cursor.tree_spec();
    let ghost id = cursor.id_spec();
    let node = match cursor.get() {
        Some(node) => node,
        None => return (true, None),
    };
    proof {
        lemma_key_order::<K>();
        lemma_children_ranks(t, id);
    }
    let mut left_cursor = cursor.clone();
    let mut right_cursor = cursor.clone();
    left_cursor.move_left();
    right_cursor.move_right();
    let (is_left_bst, left_range) = is_binary_search_tree_recursive(left_cursor);
    let (is_right_bst, right_range) = is_binary_search_tree_recursive(right_cursor);
    let ghost n = t.node_spec(id);
    let ghost k = n.data_spec().key_of();
    let ghost lk = subtree_keys(t, n.left_spec());
    let ghost rk = subtree_keys(t, n.right_spec());
    proof {
        assert(subtree_keys(t, id) == lk.union(rk).insert(k));
    }
    if !is_left_bst || !is_right_bst {
        return (false, None);
    }
    let lo = match left_range {
        Some((min_left, max_left)) => {
            match compare_keys(max_left, node.node_key()) {
                KeyOrder::Less => {},
                _ => {
                    return (false, None);
                },
            }
            proof {
                assert forall|x: K| #[trigger] lk.contains(x) implies lt(x, k) by {
                    lemma_le_lt_trans(x, *max_left, k);
                }
            }
            min_left
        },
        None => {
            proof {
                assert(!t.contains_spec(n.left_spec()));
                assert(lk == Set::<K>::empty());
            }
            node.node_key()
        },
    };
    let hi = match right_range {
        Some((min_right, max_right)) => {
            match compare_keys(min_right, node.node_key()) {
                KeyOrder::Greater => {},
                _ => {
                    return (false, None);
                },
            }
            proof {
                assert forall|x: K| #[trigger] rk.contains(x) implies lt(k, x) by {
                    lemma_lt_le_trans(k, *min_right, x);
                }
            }
            max_right
        },
        None => {
            proof {
                assert(!t.contains_spec(n.right_spec()));
                assert(rk == Set::<K>::empty());
            }
            node.node_key()
        },
    };
    proof {
        let keys = subtree_keys(t, id);
        assert(!lt(k, *lo) || true);
        assert(!lt(k, *lo)) by {
            if lk.contains(*lo) {
            }
        }
        assert(!lt(*hi, k)) by {
            if rk.contains(*hi) {
            }
        }
        assert forall|x: K| #[trigger] keys.contains(x) implies !lt(x, *lo) && !lt(*hi, x) by {
            if lk.contains(x) {
                assert(lt(x, k));
                lemma_le_trans(x, k, *hi);
            } else if rk.contains(x) {
                assert(lt(k, x));
                lemma_le_trans(*lo, k, x);
            } else {
                assert(x == k);
            }
        }
    }
    (true, Some((lo, hi)))
}

/// Whether the keys of the tree are in search order.
pub fn is_binary_search_tree<K: Ord, N: RedBlackData<K>>(tree: &BinaryTree<N>) -> (r: bool)
    requires
        key_order_laws::<K>(),
        tree.wf(),
    ensures
        r == is_binary_search_tree_spec(*tree),
{
    is_binary_search_tree_recursive(tree.cursor()).0
}

/// A black height is at most one more than the number of nodes it counts over.
proof fn lemma_black_height_bound<K, N: RedBlackData<K>>(t: BinaryTree<N>, id: NodeId)
    requires
        t.wf(),
    ensures
        subtree_ids(t, id).finite(),
        subtree_ids(t, id).len() <= t.len_spec(),
        t.len_spec() < usize::MAX,
        black_height(t, id) is Some ==> black_height(t, id).unwrap() <= subtree_ids(t, id).len() + 1,
    decreases t.rank_spec(id),
{
    lemma_subtree_ids(t, id);
    lemma_contained_ids_bound(t, subtree_ids(t, id));
    if t.contains_spec(id) {
        let n = t.node_spec(id);
        lemma_children_ranks(t, id);
        let s = subtree_ids(t, id);
        assert(set![id].subset_of(s));
        vstd::set_lib::lemma_len_subset(set![id], s);
        if t.contains_spec(n.left_spec()) {
            lemma_black_height_bound(t, n.left_spec());
            lemma_subtree_ids(t, n.left_spec());
            let sl = subtree_ids(t, n.left_spec());
            assert(!sl.contains(id));
            assert(sl.insert(id).subset_of(s));
            vstd::set_lib::lemma_len_subset(sl.insert(id), s);
        }
    } else {
        assert(subtree_ids(t, id) == Set::<NodeId>::empty());
    }
}

/// Checks the red-black rules below the node the cursor points at, and returns the
/// black height found there.
fn is_red_black_tree_recursive<K, N: RedBlackData<K>>(cursor: Cursor<'_, N>) -> (r: (bool, Option<usize>))
    requires
        cursor.tree_spec().wf(),
    ensures
        ({
            let bh = black_height::<K, N>(cursor.tree_spec(), cursor.id_spec());
            &&& r.0 == bh is Some
            &&& r.0 ==> r.1 == Some(bh.unwrap() as usize)
            &&& !r.0 ==> r.1 is None
        }),
    decreases cursor_rank(cursor),
{
    let ghost t = cursor.tree_spec();
    let ghost id = cursor.id_spec();
    let node = match cursor.get() {
        Some(node) => node,
        None => return (true, Some(1)),
    };
    proof {
        lemma_children_ranks(t, id);
        lemma_black_height_bound(t, id);
    }
    let left_red = match cursor.peek_left() {
        Some(left) => left.node_color() == Color::Red,
        None => false,
    };
    let right_red = match cursor.peek_right() {
        Some(right) => right.node_color() == Color::Red,
        None => false,
    };
    let node_red = node.node_color() == Color::Red;
    if node_red && (left_red || right_red) {
        return (false, None);
    }
    let mut left_cursor = cursor.clone();
    let mut right_cursor = cursor.clone();
    left_cursor.move_left();
    right_cursor.move_right();
    let (is_left_rb, num_black_left) = is_red_black_tree_recursive::<K, N>(left_cursor);
    let (is_right_rb, num_black_right) = is_red_black_tree_recursive::<K, N>(right_cursor);
    let same_black = match (num_black_left, num_black_right) {
        (Some(a), Some(b)) => a == b,
        _ => false,
    };
    if !is_left_rb || !is_right_rb || !same_black {
        return (false, None);
    }
    let ghost n = t.node_spec(id);
    proof {
        let bl = if t.contains_spec(n.left_spec()) {
            black_height(t, n.left_spec())
        } else {
            Some(1)
        };
        let br = if t.contains_spec(n.right_spec()) {
            black_height(t, n.right_spec())
        } else {
            Some(1)
        };
        assert(black_height(t, id) == (if bl is None || br is None || bl != br {
            None
        } else if is_red_at(t, id) {
            bl
        } else {
            Some(bl.unwrap() + 1)
        }));
        if t.contains_spec(n.right_spec()) {
            lemma_black_height_bound(t, n.right_spec());
        }
        if t.contains_spec(n.left_spec()) {
            lemma_black_height_bound(t, n.left_spec());
            lemma_subtree_ids(t, n.left_spec());
            let sl = subtree_ids(t, n.left_spec());
            let s = subtree_ids(t, id);
            assert(!sl.contains(id));
            assert(sl.insert(id).subset_of(s));
            vstd::set_lib::lemma_len_subset(sl.insert(id), s);
        }
    }
    if node_red {
        (true, num_black_left)
    } else {
        let below = match num_black_left {
            Some(b) => b,
            None => 0,
        };
        (true, Some(1 + below))
    }
}

/// Whether the tree is a red-black tree: its root is black, no red node has a red child,
/// and all paths from the root down to a missing child pass the same number of black
/// nodes.
pub fn is_red_black_tree<K, N: RedBlackData<K>>(tree: &BinaryTree<N>) -> (r: bool)
    requires
        tree.wf(),
    ensures
        r == is_red_black_tree_spec::<K, N>(*tree),
{
    let cursor = tree.cursor();
    match cursor.get() {
        Some(node) => {
            if node.node_color() != Color::Black {
                return false;
            }
        },
        None => {},
    }
    is_red_black_tree_recursive::<K, N>(cursor).0
}

/// A red-black tree whose nodes live in a `BinaryTree`.
pub struct RedBlackTree<K, V>(BinaryTree<RedBlackNode<K, V>>);

impl<K, V> RedBlackTree<K, V> {
    /// The binary tree holding the nodes.
    pub closed spec fn inner_spec(self) -> BinaryTree<RedBlackNode<K, V>> {
        self.0
    }

    /// The binary tree holding the nodes is well formed.
    #[verifier::type_invariant]
    spec fn inner_wf(self) -> bool {
        self.0.wf()
    }

    /// The tree is a well-formed red-black search tree.
    pub open spec fn valid(self) -> bool
        where K: Ord
    {
        &&& self.inner_spec().wf()
        &&& is_binary_search_tree_spec(self.inner_spec())
        &&& is_red_black_tree_spec(self.inner_spec())
    }

    /// An empty tree.
    pub fn new() -> (r: Self)
        ensures
            r.inner_spec().wf(),
            r.inner_spec().len_spec() == 0,
            r.inner_spec().slots_spec() == 0,
            r.inner_spec().root_spec().is_null_spec(),
            !r.inner_spec().contains_spec(r.inner_spec().root_spec()),
    {
        RedBlackTree(BinaryTree::new())
    }

    /// The binary tree holding the nodes.
    pub fn inner(&self) -> (r: &BinaryTree<RedBlackNode<K, V>>)
        ensures
            *r == self.inner_spec(),
            r.wf(),
    {
        proof {
            use_type_invariant(self);
        }
        &self.0
    }

    /// The data of the root node, if the tree is not empty.
    pub fn root(&self) -> (r: Option<&RedBlackNode<K, V>>)
        ensures
            r == (if self.inner_spec().contains_spec(self.inner_spec().root_spec()) {
                Some(&self.inner_spec().node_spec(self.inner_spec().root_spec()).data_spec())
            } else {
                None
            }),
    {
        match self.0.root() {
            Some(node) => Some(node.data()),
            None => None,
        }
    }
}

/// `t1` has the nodes, links, keys and colors of `t0`, and the value of each node is one
/// that `f` returns on the value of the same node of `t0`.
pub open spec fn values_mapped<K, V, U, F: Fn(V) -> U>(
    t0: BinaryTree<RedBlackNode<K, V>>,
    t1: BinaryTree<RedBlackNode<K, U>>,
    f: F,
) -> bool {
    &&& t1.wf()
    &&& t1.root_spec() == t0.root_spec()
    &&& t1.len_spec() == t0.len_spec()
    &&& t1.slots_spec() == t0.slots_spec()
    &&& forall|z: NodeId| #[trigger] t1.contains_spec(z) == t0.contains_spec(z)
    &&& forall|z: NodeId| #[trigger] t0.contains_spec(z) ==> {
        &&& t1.node_spec(z).parent_spec() == t0.node_spec(z).parent_spec()
        &&& t1.node_spec(z).left_spec() == t0.node_spec(z).left_spec()
        &&& t1.node_spec(z).right_spec() == t0.node_spec(z).right_spec()
        &&& t1.node_spec(z).data_spec().key_spec() == t0.node_spec(z).data_spec().key_spec()
        &&& t1.node_spec(z).data_spec().color_spec() == t0.node_spec(z).data_spec().color_spec()
        &&& f.ensures((t0.node_spec(z).data_spec().value_spec(),), t1.node_spec(z).data_spec().value_spec())
    }
}

impl<K, V> RedBlackTree<K, V> {
    /// The tree with the same nodes, keys and colors, and every value replaced by `f`
    /// applied to it.
    pub fn map_values<U, F: Fn(V) -> U>(self, f: F) -> (r: RedBlackTree<K, U>)
        requires
            forall|v: V| f.requires((v,)),
        ensures
            values_mapped(self.inner_spec(), r.inner_spec(), f),
    {
        proof {
            use_type_invariant(&self);
        }
        let fs: Ghost<F> = Ghost(f);
        let g = |node: RedBlackNode<K, V>| -> (r: RedBlackNode<K, U>)
            requires
                fs@.requires((node.value_spec(),)),
            ensures
                r.key_spec() == node.key_spec(),
                r.color_spec() == node.color_spec(),
                fs@.ensures((node.value_spec(),), r.value_spec()),
            { RedBlackNode { key: node.key, value: f(node.value), color: node.color } };
        let RedBlackTree(tree) = self;
        let mapped = tree.map(g);
        RedBlackTree(mapped)
    }
}

impl<K: Ord, V> RedBlackTree<K, V> {
    /// Accepts a binary tree as a red-black tree if its keys are in search order and its
    /// colors obey the red-black rules.
    pub fn from_binary_tree(tree: BinaryTree<RedBlackNode<K, V>>) -> (r: Result<Self, RedBlackTreeError>)
        requires
            key_order_laws::<K>(),
            tree.wf(),
        ensures
            !is_binary_search_tree_spec(tree) ==> r == Err::<Self, RedBlackTreeError>(
                RedBlackTreeError::BinarySearchTreeError,
            ),
            is_binary_search_tree_spec(tree) && !is_red_black_tree_spec(tree) ==> r == Err::<Self, RedBlackTreeError>(
                RedBlackTreeError::RedBlackTreeError,
            ),
            is_binary_search_tree_spec(tree) && is_red_black_tree_spec(tree) ==> r is Ok && r.unwrap().inner_spec()
                == tree && r.unwrap().valid(),
    {
        if !is_binary_search_tree(&tree) {
            return Err(RedBlackTreeError::BinarySearchTreeError);
        }
        if !is_red_black_tree(&tree) {
            return Err(RedBlackTreeError::RedBlackTreeError);
        }
        Ok(RedBlackTree(tree))
    }
}

/// A node of a red-black tree written out as nested values.
pub struct SerializationNode<K, V> {
    pub key: K,
    pub value: V,
    pub color: Color,
    pub left: Option<Box<SerializationNode<K, V>>>,
    pub right: Option<Box<SerializationNode<K, V>>>,
}

/// A red-black tree written out as nested values; `None` for an empty tree.
pub struct SerializationTree<K, V>(pub Option<SerializationNode<K, V>>);

/// The same nodes written out with the node data as one value.
pub closed spec fn to_plain_node<K, V>(s: SerializationNode<K, V>) -> serialization::SerializationNode<RedBlackNode<K, V>>
    decreases s,
{
    serialization::SerializationNode {
        data: RedBlackNode { key: s.key, value: s.value, color: s.color },
        left: match s.left {
            Some(l) => Some(Box::new(to_plain_node(*l))),
            None => None,
        },
        right: match s.right {
            Some(r) => Some(Box::new(to_plain_node(*r))),
            None => None,
        },
    }
}

/// The same nodes written out with the key, value and color of each node apart.
pub closed spec fn from_plain_node<'t, K, V>(s: serialization::SerializationNode<&'t RedBlackNode<K, V>>) -> SerializationNode<&'t K, &'t V>
    decreases s,
{
    SerializationNode {
        key: &s.data.key,
        value: &s.data.value,
        color: s.data.color,
        left: match s.left {
            Some(l) => Some(Box::new(from_plain_node(*l))),
            None => None,
        },
        right: match s.right {
            Some(r) => Some(Box::new(from_plain_node(*r))),
            None => None,
        },
    }
}

impl<K, V> SerializationNode<K, V> {
    /// Writes the nodes out with the node data as one value.
    fn into_plain(self) -> (r: serialization::SerializationNode<RedBlackNode<K, V>>)
        ensures
            r == to_plain_node(self),
            r.size() == self.size(),
        decreases self,
    {
        let SerializationNode { key, value, color, left, right } = self;
        let left = match left {
            Some(l) => Some(Box::new(l.into_plain())),
            None => None,
        };
        let right = match right {
            Some(r) => Some(Box::new(r.into_plain())),
            None => None,
        };
        serialization::SerializationNode { data: RedBlackNode { key, value, color }, left, right }
    }

    /// The number of nodes.
    pub open spec fn size(self) -> nat
        decreases self,
    {
        1 + match self.left {
            Some(l) => l.size(),
            None => 0,
        } + match self.right {
            Some(r) => r.size(),
            None => 0,
        }
    }
}

impl<'t, K, V> SerializationNode<&'t K, &'t V> {
    /// Writes the nodes out with the key, value and color of each node apart.
    fn from_plain(s: serialization::SerializationNode<&'t RedBlackNode<K, V>>) -> (r: Self)
        ensures
            r == from_plain_node(s),
        decreases s,
    {
        let serialization::SerializationNode { data, left, right } = s;
        let left = match left {
            Some(l) => Some(Box::new(Self::from_plain(*l))),
            None => None,
        };
        let right = match right {
            Some(r) => Some(Box::new(Self::from_plain(*r))),
            None => None,
        };
        SerializationNode { key: &data.key, value: &data.value, color: data.color, left, right }
    }
}

impl<'t, K, V> SerializationTree<&'t K, &'t V> {
    /// Writes out the red-black tree.
    pub fn new(tree: &'t RedBlackTree<K, V>) -> (r: Self)
        ensures
            exists|s: serialization::SerializationTree<&'t RedBlackNode<K, V>>|
                #![trigger serialization::deref_tree(s)]
                serialization::represents_tree(tree.inner_spec(), serialization::deref_tree(s)) && r.0 == match s.0 {
                    Some(n) => Some(from_plain_node(n)),
                    None => None,
                },
    {
        proof {
            use_type_invariant(tree);
        }
        let plain = serialization::SerializationTree::new(&tree.0);
        let ghost s = plain;
        let r = match plain.0 {
            Some(n) => SerializationTree(Some(SerializationNode::from_plain(n))),
            None => SerializationTree(None),
        };
        assert(serialization::represents_tree(tree.inner_spec(), serialization::deref_tree(s)));
        r
    }
}

/// The checks of a subtree depend only on what it holds, not on where its nodes are
/// kept.
pub proof fn lemma_represents_same_checks<K: Ord, N: RedBlackData<K>>(
    t1: BinaryTree<N>,
    id1: NodeId,
    t2: BinaryTree<N>,
    id2: NodeId,
    s: serialization::SerializationNode<N>,
)
    requires
        t1.wf(),
        t2.wf(),
        serialization::represents(t1, id1, s),
        serialization::represents(t2, id2, s),
    ensures
        subtree_keys::<K, N>(t1, id1) == subtree_keys::<K, N>(t2, id2),
        is_bst_at::<K, N>(t1, id1) == is_bst_at::<K, N>(t2, id2),
        black_height::<K, N>(t1, id1) == black_height::<K, N>(t2, id2),
        is_red_at::<K, N>(t1, id1) == is_red_at::<K, N>(t2, id2),
    decreases s,
{
    let n1 = t1.node_spec(id1);
    let n2 = t2.node_spec(id2);
    lemma_children_ranks(t1, id1);
    lemma_children_ranks(t2, id2);
    match s.left {
        Some(l) => {
            lemma_represents_same_checks::<K, N>(t1, n1.left_spec(), t2, n2.left_spec(), *l);
        },
        None => {
            if t1.contains_spec(n1.left_spec()) {
                lemma_contains_not_null(t1, n1.left_spec());
            }
            if t2.contains_spec(n2.left_spec()) {
                lemma_contains_not_null(t2, n2.left_spec());
            }
        },
    }
    match s.right {
        Some(r) => {
            lemma_represents_same_checks::<K, N>(t1, n1.right_spec(), t2, n2.right_spec(), *r);
        },
        None => {
            if t1.contains_spec(n1.right_spec()) {
                lemma_contains_not_null(t1, n1.right_spec());
            }
            if t2.contains_spec(n2.right_spec()) {
                lemma_contains_not_null(t2, n2.right_spec());
            }
        },
    }
}

/// Whether a tree is accepted depends only on what it holds.
pub proof fn lemma_represents_tree_same_checks<K: Ord, N: RedBlackData<K>>(
    t1: BinaryTree<N>,
    t2: BinaryTree<N>,
    s: serialization::SerializationTree<N>,
)
    requires
        t1.wf(),
        t2.wf(),
        serialization::represents_tree(t1, s),
        serialization::represents_tree(t2, s),
    ensures
        is_binary_search_tree_spec::<K, N>(t1) == is_binary_search_tree_spec::<K, N>(t2),
        is_red_black_tree_spec::<K, N>(t1) == is_red_black_tree_spec::<K, N>(t2),
{
    match s.0 {
        Some(n) => lemma_represents_same_checks::<K, N>(t1, t1.root_spec(), t2, t2.root_spec(), n),
        None => {
            if t1.contains_spec(t1.root_spec()) {
                lemma_contains_not_null(t1, t1.root_spec());
            }
            if t2.contains_spec(t2.root_spec()) {
                lemma_contains_not_null(t2, t2.root_spec());
            }
        },
    }
}

impl<K: Ord, V> SerializationTree<K, V> {
    /// Builds the red-black tree written out here, if its keys are in search order and its
    /// colors obey the red-black rules.
    pub fn into_red_black_tree(self) -> (r: Result<RedBlackTree<K, V>, RedBlackTreeError>)
        requires
            key_order_laws::<K>(),
            match self.0 {
                Some(n) => n.size() + 1 < usize::MAX,
                None => true,
            },
        ensures
            ({
                let plain = serialization::SerializationTree(
                    match self.0 {
                        Some(n) => Some(to_plain_node(n)),
                        None => None,
                    },
                );
                forall|t: BinaryTree<RedBlackNode<K, V>>| #[trigger] serialization::represents_tree(t, plain) && t.wf() ==> {
                    &&& !is_binary_search_tree_spec(t) ==> r == Err::<RedBlackTree<K, V>, RedBlackTreeError>(
                        RedBlackTreeError::BinarySearchTreeError,
                    )
                    &&& is_binary_search_tree_spec(t) && !is_red_black_tree_spec(t) ==> r == Err::<
                        RedBlackTree<K, V>,
                        RedBlackTreeError,
                    >(RedBlackTreeError::RedBlackTreeError)
                    &&& is_binary_search_tree_spec(t) && is_red_black_tree_spec(t) ==> r is Ok && r.unwrap().valid()
                        && serialization::represents_tree(r.unwrap().inner_spec(), plain)
                }
            }),
    {
        let plain = match self.0 {
            Some(n) => serialization::SerializationTree(Some(n.into_plain())),
            None => serialization::SerializationTree(None),
        };
        let tree = plain.into_binary_tree();
        proof {
            assert forall|t: BinaryTree<RedBlackNode<K, V>>| #[trigger] serialization::represents_tree(t, plain)
                && t.wf() implies is_binary_search_tree_spec(t) == is_binary_search_tree_spec(tree)
                && is_red_black_tree_spec(t) == is_red_black_tree_spec(tree) by {
                lemma_represents_tree_same_checks(t, tree, plain);
            }
        }
        RedBlackTree::from_binary_tree(tree)
    }
}

/// Sets the color of the node the cursor points at, if there is one.
pub(crate) fn set_color_here<N: RbEntry>(cursor: &mut CursorMut<'_, N>, color: Color)
    requires
        old(cursor).tree_spec().wf(),
        fixup_ready(old(cursor).tree_spec(), old(cursor).id_spec()),
    ensures
        final(cursor).id_spec() == old(cursor).id_spec(),
        *final(final(cursor).tree_ref()) == *final(old(cursor).tree_ref()),
        recolored(old(cursor).tree_spec(), final(cursor).tree_spec(), old(cursor).id_spec(), color),
        same_entries_order(old(cursor).tree_spec(), final(cursor).tree_spec()),
        fixup_ready(final(cursor).tree_spec(), final(cursor).id_spec()),
        forall|w: NodeId| #[trigger] subtree_ids(final(cursor).tree_spec(), w) == subtree_ids(old(cursor).tree_spec(), w),
{
    let ghost t0 = cursor.tree_spec();
    let ghost id = cursor.id_spec();
    let r = cursor.get();
    match r {
        Some(node) => {
            node.set_color(color);
        },
        None => {},
    }
    proof {
        if t0.contains_spec(id) {
            lemma_recolor_data(t0, cursor.tree_spec(), id, *final(r.unwrap()));
        }
        lemma_recolored(t0, cursor.tree_spec(), id, color, id);
    }
}

/// Sets the color of the child on `side` of the node the cursor points at, if there is
/// one.
pub(crate) fn set_color_side<N: RbEntry>(cursor: &mut CursorMut<'_, N>, side: Side, color: Color)
    requires
        old(cursor).tree_spec().wf(),
        fixup_ready(old(cursor).tree_spec(), old(cursor).id_spec()),
    ensures
        final(cursor).id_spec() == old(cursor).id_spec(),
        *final(final(cursor).tree_ref()) == *final(old(cursor).tree_ref()),
        old(cursor).at_node() ==> recolored(
            old(cursor).tree_spec(),
            final(cursor).tree_spec(),
            old(cursor).node_at().child_spec(side),
            color,
        ),
        !old(cursor).at_node() ==> final(cursor).tree_spec() == old(cursor).tree_spec(),
        same_entries_order(old(cursor).tree_spec(), final(cursor).tree_spec()),
        fixup_ready(final(cursor).tree_spec(), final(cursor).id_spec()),
        forall|w: NodeId| #[trigger] subtree_ids(final(cursor).tree_spec(), w) == subtree_ids(old(cursor).tree_spec(), w),
        final(cursor).tree_spec().len_spec() == old(cursor).tree_spec().len_spec(),
{
    let ghost t0 = cursor.tree_spec();
    let ghost id = cursor.node_at().child_spec(side);
    let r = cursor.peek_side(side);
    match r {
        Some(node) => {
            node.set_color(color);
        },
        None => {},
    }
    proof {
        if t0.contains_spec(cursor.id_spec()) {
            if t0.contains_spec(id) {
                lemma_recolor_data(t0, cursor.tree_spec(), id, *final(r.unwrap()));
            }
            lemma_recolored(t0, cursor.tree_spec(), id, color, cursor.id_spec());
        }
    }
}

/// Rotates around the node the cursor points at, if it has a child on the opposite side of
/// `dir`.
pub(crate) fn rotate_here<N: RbEntry>(cursor: &mut CursorMut<'_, N>, dir: Side)
    requires
        old(cursor).tree_spec().wf(),
        fixup_ready(old(cursor).tree_spec(), old(cursor).id_spec()),
    ensures
        final(cursor).tree_spec().wf(),
        final(cursor).id_spec() == old(cursor).id_spec(),
        *final(final(cursor).tree_ref()) == *final(old(cursor).tree_ref()),
        old(cursor).tree_spec().rotated_at(final(cursor).tree_spec(), old(cursor).id_spec(), dir),
        final(cursor).tree_spec().slots_spec() == old(cursor).tree_spec().slots_spec(),
        fixup_ready(final(cursor).tree_spec(), final(cursor).id_spec()),
        same_entries_order(old(cursor).tree_spec(), final(cursor).tree_spec()),
        ({
            let t0 = old(cursor).tree_spec();
            let x = old(cursor).id_spec();
            t0.contains_spec(x) && t0.contains_spec(t0.node_spec(x).child_spec(dir.opposite())) ==> subtree_ids(
                final(cursor).tree_spec(),
                t0.node_spec(x).child_spec(dir.opposite()),
            ) == subtree_ids(t0, x)
        }),
{
    let ghost t0 = cursor.tree_spec();
    let _ = cursor.rotate(dir);
    proof {
        lemma_rotation_entries(t0, cursor.tree_spec(), cursor.id_spec(), dir);
    }
}

/// Moves the cursor up to the root.
fn move_to_root<N: RbEntry>(cursor: &mut CursorMut<'_, N>)
    requires
        old(cursor).tree_spec().wf(),
        fixup_ready(old(cursor).tree_spec(), old(cursor).id_spec()),
    ensures
        final(cursor).tree_ref() == old(cursor).tree_ref(),
        fixup_ready(final(cursor).tree_spec(), final(cursor).id_spec()),
        old(cursor).at_node() ==> final(cursor).id_spec() == old(cursor).tree_spec().root_spec(),
        !old(cursor).at_node() ==> final(cursor).id_spec() == old(cursor).id_spec(),
{
    let ghost t = cursor.tree_spec();
    loop
        invariant
            cursor.tree_ref() == old(cursor).tree_ref(),
            t == cursor.tree_spec(),
            t.wf(),
            fixup_ready(t, cursor.id_spec()),
            old(cursor).at_node() ==> cursor.at_node(),
            !old(cursor).at_node() ==> cursor.id_spec() == old(cursor).id_spec(),
        ensures
            cursor.tree_ref() == old(cursor).tree_ref(),
            fixup_ready(t, cursor.id_spec()),
            old(cursor).at_node() ==> cursor.id_spec() == t.root_spec(),
            !old(cursor).at_node() ==> cursor.id_spec() == old(cursor).id_spec(),
        decreases t.rank_bound_spec() - t.rank_spec(cursor.id_spec()),
    {
        let ghost y = cursor.id_spec();
        proof {
            lemma_move_up_ready(t, y);
            if t.contains_spec(y) {
                let p = t.node_spec(y).parent_spec();
                assert(t.node_ok(y));
                if !p.is_null_spec() {
                    assert(t.node_ok(p));
                    assert(t.node_spec(p).child_spec(t.node_spec(p).side_of_spec(y).unwrap()) == y);
                } else if y != t.root_spec() {
                    crate::traversal::lemma_parent_below_root(t, y);
                    lemma_contains_not_null(t, p);
                }
            }
        }
        if cursor.try_move_up().is_none() {
            break;
        }
    }
}

/// Restores the red-black rules after a red node was attached at the cursor: while the
/// parent of the node is red, either recolors the parent, the uncle and the grandparent and
/// goes on from the grandparent, or rotates the red nodes into place and stops. The nodes,
/// their keys and values and their inorder sequence are kept.
fn insert_fixup<N: RbEntry>(cursor: &mut CursorMut<'_, N>)
    requires
        old(cursor).tree_spec().wf(),
        fixup_ready(old(cursor).tree_spec(), old(cursor).id_spec()),
    ensures
        final(cursor).tree_spec().wf(),
        *final(final(cursor).tree_ref()) == *final(old(cursor).tree_ref()),
        same_entries_order(old(cursor).tree_spec(), final(cursor).tree_spec()),
        root_has_no_parent(final(cursor).tree_spec()),
        final(cursor).tree_spec().slots_spec() == old(cursor).tree_spec().slots_spec(),
        insert_ready(old(cursor).tree_spec(), old(cursor).id_spec()) ==> rb_balanced(final(cursor).tree_spec()),
{
    let ghost t0 = cursor.tree_spec();
    let ghost ready0 = insert_ready(t0, cursor.id_spec());
    loop
        invariant_except_break
            ready0 ==> insert_ready(cursor.tree_spec(), cursor.id_spec()),
        invariant
            cursor.tree_spec().wf(),
            *final(cursor.tree_ref()) == *final(old(cursor).tree_ref()),
            fixup_ready(cursor.tree_spec(), cursor.id_spec()),
            same_entries_order(t0, cursor.tree_spec()),
            cursor.tree_spec().slots_spec() == t0.slots_spec(),
        ensures
            cursor.tree_spec().wf(),
            *final(cursor.tree_ref()) == *final(old(cursor).tree_ref()),
            fixup_ready(cursor.tree_spec(), cursor.id_spec()),
            same_entries_order(t0, cursor.tree_spec()),
            cursor.tree_spec().slots_spec() == t0.slots_spec(),
            ready0 ==> rb_balanced(cursor.tree_spec()),
        decreases cursor.tree_spec().rank_bound_spec() - cursor.tree_spec().rank_spec(cursor.id_spec()),
    {
        let ghost t = cursor.tree_spec();
        let ghost z = cursor.id_spec();
        let parent_red = match cursor.as_cursor().peek_up() {
            Some(parent) => parent.entry_color_exec() == Color::Red,
            None => false,
        };
        if !parent_red {
            proof {
                if ready0 {
                    lemma_rb_height_unused(t, t.root_spec(), z);
                }
            }
            break;
        }
        let ghost zp = t.node_spec(z).parent_spec();
        let ghost zpp = t.node_spec(zp).parent_spec();
        let mut peeking_cursor = cursor.as_cursor();
        let side_current_opt = peeking_cursor.move_up();
        let side_parent_opt = peeking_cursor.move_up();
        proof {
            if ready0 {
                // A red parent is not the root, so the grandparent is in the tree.
                assert(t.node_ok(z));
                assert(z != t.root_spec());
                crate::traversal::lemma_parent_below_root(t, z);
                assert(t.node_ok(zp));
                assert(zp != t.root_spec());
                crate::traversal::lemma_parent_below_root(t, zp);
            }
        }
        if side_current_opt.is_none() || side_parent_opt.is_none() {
            break;
        }
        let side_current = side_current_opt.unwrap();
        let side_parent = side_parent_opt.unwrap();
        let uncle_red = match peeking_cursor.peek_side(side_parent.opposite()) {
            Some(uncle) => uncle.entry_color_exec() == Color::Red,
            None => false,
        };
        let ghost u = t.node_spec(zpp).child_spec(side_parent.opposite());
        proof {
            assert(t.contains_spec(z));
            assert(t.contains_spec(zp));
            assert(t.contains_spec(zpp));
            assert(t.node_spec(zp).child_spec(side_current) == z);
            assert(t.node_spec(zpp).child_spec(side_parent) == zp);
            assert(t.node_ok(zp));
            assert(t.node_ok(zpp));
            lemma_contains_not_null(t, zp);
            assert(t.node_spec(zpp).side_of_spec(zp) == Some(side_parent));
            assert(red_at(t, zp));
            assert(uncle_red == red_at(t, u));
            lemma_move_up_ready(t, z);
        }
        if uncle_red {
            // The uncle is red: recolor and go on from the grandparent.
            cursor.move_up();
            set_color_here(cursor, Color::Black);
            let ghost ta = cursor.tree_spec();
            proof {
                lemma_recolored(t, ta, zp, Color::Black, zp);
                lemma_move_up_ready(ta, zp);
            }
            cursor.move_up();
            set_color_here(cursor, Color::Red);
            let ghost tb = cursor.tree_spec();
            proof {
                assert(cursor.id_spec() == zpp);
                lemma_recolored(ta, tb, zpp, Color::Red, zpp);
            }
            set_color_side(cursor, side_parent.opposite(), Color::Black);
            let ghost tc = cursor.tree_spec();
            proof {
                lemma_recolored(tb, tc, tb.node_spec(zpp).child_spec(side_parent.opposite()), Color::Black, zpp);
                lemma_same_entries_order_trans(t0, t, ta);
                lemma_same_entries_order_trans(t0, ta, tb);
                lemma_same_entries_order_trans(t0, tb, tc);
                assert(t.contains_spec(zpp) && ta.contains_spec(zpp) && tb.contains_spec(zpp));
                assert(tc.rank_spec(zpp) == t.rank_spec(zpp));
                assert(t.rank_spec(z) < t.rank_spec(zp));
                if ready0 {
                    assert(tb.node_spec(zpp).child_spec(side_parent.opposite()) == u);
                    assert(u == (if t.node_spec(zpp).left_spec() == zp {
                        t.node_spec(zpp).right_spec()
                    } else {
                        t.node_spec(zpp).left_spec()
                    }));
                    assert(red_at(t, u));
                    assert(tc.root_spec() == t.root_spec());
                    assert forall|x: NodeId| #[trigger] tc.contains_spec(x) == t.contains_spec(x) by {
                        assert(ta.contains_spec(x) == t.contains_spec(x));
                        assert(tb.contains_spec(x) == ta.contains_spec(x));
                    }
                    assert forall|x: NodeId| #[trigger] t.contains_spec(x) implies {
                        &&& tc.node_spec(x).parent_spec() == t.node_spec(x).parent_spec()
                        &&& tc.node_spec(x).left_spec() == t.node_spec(x).left_spec()
                        &&& tc.node_spec(x).right_spec() == t.node_spec(x).right_spec()
                        &&& color_at(tc, x) == (if x == zp || x == u {
                            Color::Black
                        } else if x == zpp {
                            Color::Red
                        } else {
                            color_at(t, x)
                        })
                    } by {
                        assert(ta.contains_spec(x));
                        assert(tb.contains_spec(x));
                    }
                    lemma_insert_recolor(t, tc, z);
                }
            }
        } else {
            if side_current == side_parent.opposite() {
                // The node is an inner grandchild: rotate it to the outside.
                cursor.move_up();
                let ghost ta = cursor.tree_spec();
                rotate_here(cursor, side_parent);
                proof {
                    lemma_same_entries_order_trans(t0, ta, cursor.tree_spec());
                    if ready0 {
                        lemma_insert_rotate_pair(t, cursor.tree_spec(), z, side_parent);
                    }
                }
            }
            // The node is an outer grandchild: recolor and rotate around the grandparent.
            let ghost tb = cursor.tree_spec();
            let ghost z2 = cursor.id_spec();
            proof {
                lemma_move_up_ready(tb, cursor.id_spec());
                if ready0 {
                    assert(insert_ready(tb, z2));
                    assert(red_at(tb, tb.node_spec(z2).parent_spec()));
                    assert(tb.node_spec(tb.node_spec(z2).parent_spec()).parent_spec() == zpp);
                    assert(tb.contains_spec(zpp));
                    assert(tb.node_spec(tb.node_spec(z2).parent_spec()).child_spec(side_parent) == z2);
                    assert(tb.node_spec(zpp).child_spec(side_parent) == tb.node_spec(z2).parent_spec());
                    assert(!red_at(tb, tb.node_spec(zpp).child_spec(side_parent.opposite())));
                }
            }
            cursor.move_up();
            set_color_here(cursor, Color::Black);
            let ghost tc = cursor.tree_spec();
            proof {
                lemma_recolored(tb, tc, cursor.id_spec(), Color::Black, cursor.id_spec());
                lemma_same_entries_order_trans(t0, tb, tc);
                lemma_move_up_ready(tc, cursor.id_spec());
            }
            cursor.move_up();
            set_color_here(cursor, Color::Red);
            let ghost td = cursor.tree_spec();
            proof {
                lemma_recolored(tc, td, cursor.id_spec(), Color::Red, cursor.id_spec());
                lemma_same_entries_order_trans(t0, tc, td);
            }
            rotate_here(cursor, side_parent.opposite());
            proof {
                lemma_same_entries_order_trans(t0, td, cursor.tree_spec());
                if ready0 {
                    let zp2 = tb.node_spec(z2).parent_spec();
                    assert(cursor.id_spec() == zpp);
                    assert(td.root_spec() == tb.root_spec());
                    assert forall|x: NodeId| #[trigger] td.contains_spec(x) == tb.contains_spec(x) by {
                        assert(tc.contains_spec(x) == tb.contains_spec(x));
                    }
                    assert forall|x: NodeId| #[trigger] tb.contains_spec(x) implies {
                        &&& td.node_spec(x).parent_spec() == tb.node_spec(x).parent_spec()
                        &&& td.node_spec(x).left_spec() == tb.node_spec(x).left_spec()
                        &&& td.node_spec(x).right_spec() == tb.node_spec(x).right_spec()
                        &&& color_at(td, x) == (if x == zp2 {
                            Color::Black
                        } else if x == zpp {
                            Color::Red
                        } else {
                            color_at(tb, x)
                        })
                    } by {
                        assert(tc.contains_spec(x));
                    }
                    assert(td.rotated_at(cursor.tree_spec(), zpp, side_parent.opposite()));
                    lemma_insert_rotate_fix(tb, td, cursor.tree_spec(), z2, side_parent);
                }
            }
            break;
        }
    }
}

/// Moves the cursor down from the root to the node holding the key, and returns None, or
/// to the node below which the key belongs, and returns the side on which it belongs.
pub(crate) fn find_node_to_insert_at<N: RbEntry>(cursor: &mut CursorMut<'_, N>, key: &N::Key) -> (r: Option<Side>)
    requires
        key_order_laws::<N::Key>(),
        old(cursor).tree_spec().wf(),
        keys_increasing(old(cursor).tree_spec()),
        old(cursor).id_spec() == old(cursor).tree_spec().root_spec(),
        old(cursor).at_node(),
    ensures
        final(cursor).tree_ref() == old(cursor).tree_ref(),
        ({
            let t = old(cursor).tree_spec();
            let c = final(cursor).id_spec();
            &&& t.contains_spec(c)
            &&& subtree_ids(t, t.root_spec()).contains(c)
            &&& search_bounds(t, c, *key)
            &&& r is None ==> key_at(t, c) == *key
            &&& r matches Some(side) ==> {
                &&& t.node_spec(c).child_spec(side).is_null_spec()
                &&& side == Side::Left ==> lt(*key, key_at(t, c))
                &&& side == Side::Right ==> lt(key_at(t, c), *key)
            }
        }),
{
    let ghost t = cursor.tree_spec();
    proof {
        lemma_subtree_ids(t, t.root_spec());
        assert(crate::traversal::inorder_before(t, t.root_spec(), t.root_spec()) == Seq::<NodeId>::empty());
        assert(crate::traversal::inorder_after(t, t.root_spec(), t.root_spec()) == Seq::<NodeId>::empty());
    }
    loop
        invariant
            key_order_laws::<N::Key>(),
            cursor.tree_ref() == old(cursor).tree_ref(),
            cursor.tree_spec() == t,
            t.wf(),
            keys_increasing(t),
            cursor.at_node(),
            subtree_ids(t, t.root_spec()).contains(cursor.id_spec()),
            search_bounds(t, cursor.id_spec(), *key),
        decreases t.rank_spec(cursor.id_spec()),
    {
        let ghost c = cursor.id_spec();
        let order = match cursor.as_cursor().get() {
            Some(node) => compare_keys(key, node.entry_key_ref()),
            None => KeyOrder::Equal,
        };
        proof {
            assert(t.node_ok(c));
        }
        match order {
            KeyOrder::Less => {
                if !cursor.try_move_left() {
                    return Some(Side::Left);
                }
                proof {
                    lemma_search_step(t, c, Side::Left, *key);
                }
            },
            KeyOrder::Greater => {
                if !cursor.try_move_right() {
                    return Some(Side::Right);
                }
                proof {
                    lemma_search_step(t, c, Side::Right, *key);
                }
            },
            KeyOrder::Equal => {
                return None;
            },
        }
    }
}

/// Inserts the key-value pair into the tree and restores the red-black rules; returns the
/// value that was stored at the key, if any.
fn insert_into<K: Ord, V>(tree: BinaryTree<RedBlackNode<K, V>>, key: K, value: V) -> (r: (
    BinaryTree<RedBlackNode<K, V>>,
    Option<V>,
))
    requires
        key_order_laws::<K>(),
        tree.wf(),
        keys_increasing(tree),
        tree.slots_spec() + 1 < usize::MAX,
    ensures
        r.0.wf(),
        keys_increasing(r.0),
        entries(r.0) == entries(tree).insert(key, value),
        r.1 == map_get(entries(tree), key),
        r.0.slots_spec() <= tree.slots_spec() + 1,
        is_red_black_tree_spec(tree) ==> is_red_black_tree_spec(r.0),
        entries(tree).dom().contains(key) ==> same_colors(tree, r.0) && forall|x: NodeId| #[trigger] tree.contains_spec(x)
            ==> key_at(r.0, x) == key_at(tree, x),
{
    let mut tree = tree;
    let ghost t0 = tree;
    if tree.root().is_none() {
        proof {
            lemma_empty_entries(t0);
        }
        let t = BinaryTree::new_singleton(RedBlackNode::new_with_color(key, value, Color::Black));
        proof {
            lemma_singleton_entries(t);
            let nr = t.node_spec(t.root_spec());
            if t.contains_spec(nr.left_spec()) {
                lemma_contains_not_null(t, nr.left_spec());
            }
            if t.contains_spec(nr.right_spec()) {
                lemma_contains_not_null(t, nr.right_spec());
            }
            lemma_children_ranks(t, t.root_spec());
        }
        return (t, None);
    }
    let mut cursor = tree.cursor_mut();
    let found = find_node_to_insert_at(&mut cursor, &key);
    match found {
        None => {
            let ghost c = cursor.id_spec();
            let ghost d0 = t0.node_spec(c).data_spec();
            let r = cursor.get();
            let old_value = match r {
                Some(node) => {
                    let mut v = value;
                    std::mem::swap(node.value_mut(), &mut v);
                    v
                },
                None => value,
            };
            proof {
                cursor.lemma_resolved();
                lemma_entries_update(t0, cursor.tree_spec(), c, *final(r.unwrap()));
                lemma_with_data(t0, cursor.tree_spec(), c, *final(r.unwrap()));
                let t1 = cursor.tree_spec();
                if is_red_black_tree_spec(t0) {
                    lemma_black_height_is_rb_height::<K, RedBlackNode<K, V>>(t0, t0.root_spec());
                    lemma_black_height_is_rb_height::<K, RedBlackNode<K, V>>(t1, t0.root_spec());
                    lemma_subtree_ids(t0, t0.root_spec());
                    assert(same_colors_below(t0, t1, t0.root_spec()));
                    lemma_rb_height_frame(t0, t1, t0.root_spec(), NodeId::null_spec());
                }
            }
            (tree, Some(old_value))
        },
        Some(side) => {
            let ghost c = cursor.id_spec();
            let new_node = RedBlackNode::new_with_color(key, value, Color::Red);
            let _ = cursor.attach_child(new_node, side);
            let ghost t1 = cursor.tree_spec();
            let ghost n = t1.node_spec(c).child_spec(side);
            proof {
                lemma_relink(t0.node_spec(c), n, side);
                lemma_relink(t0.node_spec(c), n, side.opposite());
                lemma_contains_not_null(t0, t0.root_spec());
                lemma_insert_leaf(t0, t1, c, n, side);
                if is_red_black_tree_spec(t0) {
                    lemma_black_height_is_rb_height::<K, RedBlackNode<K, V>>(t0, t0.root_spec());
                    lemma_attach_red_leaf(t0, t1, c, n, side);
                }
            }
            cursor.move_side(side);
            insert_fixup(&mut cursor);
            let ghost t2 = cursor.tree_spec();
            proof {
                cursor.lemma_resolved();
                lemma_same_entries(t1, t2);
            }
            let root_id = tree.root_id();
            let r = tree.data_mut(root_id);
            match r {
                Some(node) => {
                    node.set_color(Color::Black);
                },
                None => {},
            }
            proof {
                if t2.contains_spec(root_id) {
                    lemma_recolor_data(t2, tree, root_id, *final(r.unwrap()));
                    lemma_recolored(t2, tree, root_id, Color::Black, root_id);
                    lemma_same_entries(t2, tree);
                }
                if is_red_black_tree_spec(t0) {
                    if t2.contains_spec(root_id) {
                        lemma_blacken_root(t2, tree);
                    }
                    lemma_black_height_is_rb_height::<K, RedBlackNode<K, V>>(tree, tree.root_spec());
                }
            }
            (tree, None)
        },
    }
}

/// Moves the cursor down from the root to the node holding the key, if there is one, and
/// reports whether there is one.
pub(crate) fn get_cursor_mut_at_key<N: RbEntry>(cursor: &mut CursorMut<'_, N>, key: &N::Key) -> (r: bool)
    requires
        key_order_laws::<N::Key>(),
        old(cursor).tree_spec().wf(),
        keys_increasing(old(cursor).tree_spec()),
        old(cursor).id_spec() == old(cursor).tree_spec().root_spec(),
    ensures
        final(cursor).tree_ref() == old(cursor).tree_ref(),
        r == entries(old(cursor).tree_spec()).dom().contains(*key),
        r ==> {
            let t = old(cursor).tree_spec();
            let c = final(cursor).id_spec();
            &&& t.contains_spec(c)
            &&& subtree_ids(t, t.root_spec()).contains(c)
            &&& key_at(t, c) == *key
        },
{
    let ghost t = cursor.tree_spec();
    proof {
        lemma_subtree_ids(t, t.root_spec());
        if !t.contains_spec(t.root_spec()) {
            lemma_empty_entries(t);
        }
        assert(crate::traversal::inorder_before(t, t.root_spec(), t.root_spec()) == Seq::<NodeId>::empty());
        assert(crate::traversal::inorder_after(t, t.root_spec(), t.root_spec()) == Seq::<NodeId>::empty());
    }
    loop
        invariant
            key_order_laws::<N::Key>(),
            cursor.tree_ref() == old(cursor).tree_ref(),
            cursor.tree_spec() == t,
            t.wf(),
            keys_increasing(t),
            cursor.at_node() ==> subtree_ids(t, t.root_spec()).contains(cursor.id_spec()) && search_bounds(
                t,
                cursor.id_spec(),
                *key,
            ),
            !cursor.at_node() ==> !entries(t).dom().contains(*key),
        decreases (if cursor.at_node() { t.rank_spec(cursor.id_spec()) } else { 0 }),
    {
        let ghost c = cursor.id_spec();
        let order = match cursor.as_cursor().get() {
            Some(node) => Some(compare_keys(key, node.entry_key_ref())),
            None => None,
        };
        proof {
            if t.contains_spec(c) {
                assert(t.node_ok(c));
                if t.contains_spec(t.node_spec(c).left_spec()) {
                    lemma_contains_not_null(t, t.node_spec(c).left_spec());
                }
                if t.contains_spec(t.node_spec(c).right_spec()) {
                    lemma_contains_not_null(t, t.node_spec(c).right_spec());
                }
            }
        }
        match order {
            None => {
                return false;
            },
            Some(KeyOrder::Less) => {
                cursor.move_left();
                proof {
                    if t.contains_spec(t.node_spec(c).left_spec()) {
                        lemma_search_step(t, c, Side::Left, *key);
                    } else {
                        lemma_absent(t, c, Side::Left, *key);
                    }
                }
            },
            Some(KeyOrder::Greater) => {
                cursor.move_right();
                proof {
                    if t.contains_spec(t.node_spec(c).right_spec()) {
                        lemma_search_step(t, c, Side::Right, *key);
                    } else {
                        lemma_absent(t, c, Side::Right, *key);
                    }
                }
            },
            Some(KeyOrder::Equal) => {
                proof {
                    lemma_entries(t);
                }
                return true;
            },
        }
    }
}

/// Moves the cursor to the inorder successor of its node, if the node has a right child:
/// the leftmost node below that child.
pub(crate) fn move_cursor_to_successor<T>(cursor: &mut Cursor<'_, T>)
    requires
        old(cursor).tree_spec().wf(),
    ensures
        final(cursor).tree_spec() == old(cursor).tree_spec(),
        ({
            let t = old(cursor).tree_spec();
            let c = old(cursor).id_spec();
            &&& old(cursor).at_node() && t.contains_spec(t.node_spec(c).right_spec()) ==> {
                &&& final(cursor).at_node()
                &&& final(cursor).id_spec() == inorder(t, t.node_spec(c).right_spec())[0]
                &&& !t.contains_spec(t.node_spec(final(cursor).id_spec()).left_spec())
            }
            &&& !(old(cursor).at_node() && t.contains_spec(t.node_spec(c).right_spec())) ==> final(cursor).id_spec() == c
        }),
{
    let ghost t = cursor.tree_spec();
    proof {
        let c = cursor.id_spec();
        if t.contains_spec(c) {
            assert(t.node_ok(c));
            if t.contains_spec(t.node_spec(c).right_spec()) {
                lemma_contains_not_null(t, t.node_spec(c).right_spec());
            }
        }
    }
    if cursor.try_move_right() {
        let ghost r = cursor.id_spec();
        proof {
            lemma_inorder_unfold(t, r);
        }
        loop
            invariant
                cursor.tree_spec() == t,
                t.wf(),
                cursor.at_node(),
                t.contains_spec(r),
                inorder(t, r).len() > 0,
                inorder(t, cursor.id_spec()).len() > 0,
                inorder(t, r)[0] == inorder(t, cursor.id_spec())[0],
            ensures
                cursor.tree_spec() == t,
                cursor.at_node(),
                cursor.id_spec() == inorder(t, r)[0],
                !t.contains_spec(t.node_spec(cursor.id_spec()).left_spec()),
            decreases t.rank_spec(cursor.id_spec()),
        {
            let ghost y = cursor.id_spec();
            proof {
                lemma_inorder_unfold(t, y);
                lemma_inorder_unfold(t, t.node_spec(y).left_spec());
                assert(t.node_ok(y));
                if t.contains_spec(t.node_spec(y).left_spec()) {
                    lemma_contains_not_null(t, t.node_spec(y).left_spec());
                    lemma_inorder_unfold(t, t.node_spec(t.node_spec(y).left_spec()).left_spec());
                    assert(inorder(t, t.node_spec(y).left_spec()).len() > 0);
                    assert(inorder(t, y)[0] == inorder(t, t.node_spec(y).left_spec())[0]);
                }
            }
            if !cursor.try_move_left() {
                break;
            }
        }
    }
}

/// Moves the cursor to the inorder successor of its node, if the node has a right child:
/// the leftmost node below that child.
pub(crate) fn move_cursor_mut_to_successor<T>(cursor: &mut CursorMut<'_, T>)
    requires
        old(cursor).tree_spec().wf(),
    ensures
        final(cursor).tree_ref() == old(cursor).tree_ref(),
        ({
            let t = old(cursor).tree_spec();
            let c = old(cursor).id_spec();
            &&& old(cursor).at_node() && t.contains_spec(t.node_spec(c).right_spec()) ==> {
                &&& final(cursor).at_node()
                &&& final(cursor).id_spec() == inorder(t, t.node_spec(c).right_spec())[0]
                &&& !t.contains_spec(t.node_spec(final(cursor).id_spec()).left_spec())
            }
            &&& !(old(cursor).at_node() && t.contains_spec(t.node_spec(c).right_spec())) ==> final(cursor).id_spec() == c
        }),
{
    let ghost t = cursor.tree_spec();
    proof {
        let c = cursor.id_spec();
        if t.contains_spec(c) {
            assert(t.node_ok(c));
            if t.contains_spec(t.node_spec(c).right_spec()) {
                lemma_contains_not_null(t, t.node_spec(c).right_spec());
            }
        }
    }
    if cursor.try_move_right() {
        let ghost r = cursor.id_spec();
        proof {
            lemma_inorder_unfold(t, r);
        }
        loop
            invariant
                cursor.tree_ref() == old(cursor).tree_ref(),
                cursor.tree_spec() == t,
                t.wf(),
                cursor.at_node(),
                t.contains_spec(r),
                inorder(t, r).len() > 0,
                inorder(t, cursor.id_spec()).len() > 0,
                inorder(t, r)[0] == inorder(t, cursor.id_spec())[0],
            ensures
                cursor.tree_ref() == old(cursor).tree_ref(),
                cursor.at_node(),
                cursor.id_spec() == inorder(t, r)[0],
                !t.contains_spec(t.node_spec(cursor.id_spec()).left_spec()),
            decreases t.rank_spec(cursor.id_spec()),
        {
            let ghost y = cursor.id_spec();
            proof {
                lemma_inorder_unfold(t, y);
                lemma_inorder_unfold(t, t.node_spec(y).left_spec());
                assert(t.node_ok(y));
                if t.contains_spec(t.node_spec(y).left_spec()) {
                    lemma_contains_not_null(t, t.node_spec(y).left_spec());
                    lemma_inorder_unfold(t, t.node_spec(t.node_spec(y).left_spec()).left_spec());
                    assert(inorder(t, t.node_spec(y).left_spec()).len() > 0);
                    assert(inorder(t, y)[0] == inorder(t, t.node_spec(y).left_spec())[0]);
                }
            }
            if !cursor.try_move_left() {
                break;
            }
        }
    }
}

/// Whether the node holds a black node, a missing node counting as black.
pub(crate) fn is_black_or_missing<N: RbEntry>(node: Option<&N>) -> (r: bool)
    ensures
        r == (match node {
            Some(n) => n.entry_color() == Color::Black,
            None => true,
        }),
{
    match node {
        Some(n) => n.entry_color_exec() == Color::Black,
        None => true,
    }
}

/// Restores the red-black rules after a black leaf was removed from the side `side` of the
/// node the cursor points at: while the missing or black node there carries one black too
/// few, either passes the lack up by recoloring its sibling, or rotates and recolors around
/// its parent and stops. The nodes, their keys and values and their inorder sequence are
/// kept.
fn remove_fixup_leaf<N: RbEntry>(cursor: &mut CursorMut<'_, N>, side: Side)
    requires
        old(cursor).tree_spec().wf(),
        fixup_ready(old(cursor).tree_spec(), old(cursor).id_spec()),
    ensures
        final(cursor).tree_spec().wf(),
        *final(final(cursor).tree_ref()) == *final(old(cursor).tree_ref()),
        same_entries_order(old(cursor).tree_spec(), final(cursor).tree_spec()),
        root_has_no_parent(final(cursor).tree_spec()),
        final(cursor).tree_spec().slots_spec() == old(cursor).tree_spec().slots_spec(),
{
    let ghost t0 = cursor.tree_spec();
    let mut side = side;
    let mut done = false;
    let ghost mut red_x = false;
    loop
        invariant
            cursor.tree_spec().wf(),
            *final(cursor.tree_ref()) == *final(old(cursor).tree_ref()),
            fixup_ready(cursor.tree_spec(), cursor.id_spec()),
            same_entries_order(t0, cursor.tree_spec()),
            red_x ==> cursor.at_node() && cursor.tree_spec().contains_spec(cursor.node_at().child_spec(side))
                && color_at(cursor.tree_spec(), cursor.node_at().child_spec(side)) == Color::Red,
            cursor.tree_spec().len_spec() == t0.len_spec(),
            cursor.tree_spec().slots_spec() == t0.slots_spec(),
        decreases
            cursor.tree_spec().len_spec() - subtree_ids(cursor.tree_spec(), cursor.id_spec()).len(),
            (if red_x { 0int } else { 1int }),
    {
        let ghost t = cursor.tree_spec();
        let ghost q = cursor.id_spec();
        let keep_going = {
            let ro = cursor.as_cursor();
            match ro.get() {
                Some(_) => is_black_or_missing(ro.peek_side(side)),
                None => false,
            }
        };
        if !keep_going {
            break;
        }
        let sibling_red = match cursor.as_cursor().peek_side(side.opposite()) {
            Some(sibling) => Some(sibling.entry_color_exec() == Color::Red),
            None => None,
        };
        if sibling_red.is_none() {
            break;
        }
        let ghost w0 = t.node_spec(q).child_spec(side.opposite());
        let ghost mut rotated = false;
        proof {
            assert(t.node_ok(q));
            lemma_contains_not_null(t, w0);
        }
        if sibling_red.unwrap() {
            // The sibling is red: make it black and the parent red, and rotate the sibling
            // into the parent's place.
            set_color_side(cursor, side.opposite(), Color::Black);
            let ghost ta = cursor.tree_spec();
            set_color_here(cursor, Color::Red);
            let ghost tb = cursor.tree_spec();
            rotate_here(cursor, side);
            proof {
                rotated = true;
                lemma_same_entries_order_trans(t0, t, ta);
                lemma_same_entries_order_trans(t0, ta, tb);
                lemma_same_entries_order_trans(t0, tb, cursor.tree_spec());
                assert(tb.contains_spec(q) && ta.contains_spec(q));
                assert(tb.node_spec(q).child_spec(side.opposite()) == w0);
                assert(tb.contains_spec(w0));
                let nq = tb.node_spec(q);
                let nw = tb.node_spec(w0);
                let t1 = cursor.tree_spec();
                lemma_relink(nq.with_parent_spec(w0), nw.child_spec(side), side.opposite());
                lemma_relink(nq, w0, side.opposite());
                lemma_relink(nw.with_parent_spec(nq.parent_spec()), q, side);
                lemma_relink(nw, nq.parent_spec(), side);
                assert(t1.node_spec(q).parent_spec() == w0);
                assert(t1.node_spec(w0).child_spec(side) == q);
                assert(color_at(t1, q) == Color::Red);
                assert(subtree_ids(t1, w0) == subtree_ids(t, q));
            }
        }
        let ghost t1 = cursor.tree_spec();
        proof {
            lemma_move_down_ready(t1, q, side.opposite());
        }
        cursor.move_side(side.opposite());
        let ghost w = cursor.id_spec();
        let both_black = {
            let ro = cursor.as_cursor();
            let neighborhood = ro.peek_neighborhood();
            is_black_or_missing(neighborhood.left) && is_black_or_missing(neighborhood.right)
        };
        if both_black {
            // Both children of the sibling are black: make the sibling red and pass the lack
            // of a black node up to the parent.
            set_color_here(cursor, Color::Red);
            let ghost t2 = cursor.tree_spec();
            proof {
                lemma_same_entries_order_trans(t0, t1, t2);
                lemma_move_up_ready(t2, w);
                if t1.contains_spec(w) {
                    assert(t1.node_ok(q));
                    lemma_contains_not_null(t1, w);
                    assert(t1.node_spec(w).parent_spec() == q);
                    assert(t2.node_spec(w).parent_spec() == q);
                }
            }
            cursor.move_up();
        } else {
            let far_black = is_black_or_missing(cursor.as_cursor().peek_side(side.opposite()));
            if far_black {
                // The far child of the sibling is black: rotate the near child into the
                // sibling's place.
                set_color_side(cursor, side, Color::Black);
                let ghost ta = cursor.tree_spec();
                set_color_here(cursor, Color::Red);
                let ghost tb = cursor.tree_spec();
                rotate_here(cursor, side.opposite());
                let ghost tc = cursor.tree_spec();
                proof {
                    lemma_same_entries_order_trans(t0, t1, ta);
                    lemma_same_entries_order_trans(t0, ta, tb);
                    lemma_same_entries_order_trans(t0, tb, tc);
                    lemma_move_up_ready(tc, cursor.id_spec());
                }
                cursor.move_up();
            }
            // The far child of the sibling is red: rotate the sibling into the parent's
            // place, and recolor so that the lack of a black node is made up for.
            let ghost td = cursor.tree_spec();
            assert(same_entries_order(t0, td));
            let parent_color = match cursor.as_cursor().peek_up() {
                Some(parent) => parent.entry_color_exec(),
                None => Color::Black,
            };
            set_color_here(cursor, parent_color);
            let ghost te = cursor.tree_spec();
            set_color_side(cursor, side.opposite(), Color::Black);
            let ghost tf = cursor.tree_spec();
            proof {
                lemma_same_entries_order_trans(t0, td, te);
                lemma_same_entries_order_trans(t0, te, tf);
                lemma_move_up_ready(tf, cursor.id_spec());
            }
            cursor.move_up();
            set_color_here(cursor, Color::Black);
            let ghost tg = cursor.tree_spec();
            rotate_here(cursor, side);
            let ghost th = cursor.tree_spec();
            proof {
                lemma_same_entries_order_trans(t0, tf, tg);
                lemma_same_entries_order_trans(t0, tg, th);
            }
            // The root is black.
            move_to_root(cursor);
            set_color_here(cursor, Color::Black);
            proof {
                lemma_same_entries_order_trans(t0, th, cursor.tree_spec());
            }
            done = true;
            break;
        }
        let ghost t3 = cursor.tree_spec();
        let ghost q3 = cursor.id_spec();
        proof {
            lemma_same_entries_order_trans(t0, t1, t3);
            lemma_move_up_ready(t3, q3);
        }
        let side_parent = cursor.move_up();
        match side_parent {
            Some(s) => {
                side = s;
            },
            None => {
                break;
            },
        }
        proof {
            let q4 = cursor.id_spec();
            lemma_parent_subtree_larger(t3, q3);
            if rotated {
                if !t1.contains_spec(w) {
                    NodeId::lemma_null_is_null();
                    lemma_contains_not_null(t3, q3);
                }
                assert(t1.contains_spec(w));
                assert(q3 == q);
                assert(q4 == w0);
                assert(subtree_ids(t3, q4) == subtree_ids(t, q));
                assert(t3.node_spec(w0).child_spec(side) == q);
                assert(color_at(t3, q) == Color::Red);
                red_x = true;
            } else {
                assert(q3 == q);
                assert(subtree_ids(t3, q3) == subtree_ids(t, q));
                red_x = false;
            }
        }
    }
    if !done {
        // The node on `side` of the cursor is red, or at the root: make it black.
        let ghost t4 = cursor.tree_spec();
        proof {
            lemma_move_down_ready(t4, cursor.id_spec(), side);
        }
        cursor.move_side(side);
        set_color_here(cursor, Color::Black);
        proof {
            lemma_same_entries_order_trans(t0, t4, cursor.tree_spec());
        }
    }
}

/// Removes the node the cursor points at, which has at most one child, and restores the
/// red-black rules; returns the data of the removed node. The other nodes keep their keys
/// and values and their order.
fn remove_node_at_cursor<N: RbEntry>(cursor: &mut CursorMut<'_, N>) -> (r: Option<N>)
    requires
        old(cursor).tree_spec().wf(),
        root_has_no_parent(old(cursor).tree_spec()),
        subtree_ids(old(cursor).tree_spec(), old(cursor).tree_spec().root_spec()).contains(old(cursor).id_spec()),
        !old(cursor).tree_spec().contains_spec(old(cursor).node_at().left_spec()) || !old(cursor).tree_spec().contains_spec(
            old(cursor).node_at().right_spec(),
        ),
    ensures
        final(cursor).tree_spec().wf(),
        *final(final(cursor).tree_ref()) == *final(old(cursor).tree_ref()),
        root_has_no_parent(final(cursor).tree_spec()),
        r == Some(old(cursor).node_at().data_spec()),
        final(cursor).tree_spec().slots_spec() == old(cursor).tree_spec().slots_spec(),
        ({
            let t = old(cursor).tree_spec();
            let s = inorder(t, t.root_spec());
            let x = old(cursor).id_spec();
            exists|i: int|
                #![trigger s.remove(i)]
                0 <= i < s.len() && s[i] == x && inorder(final(cursor).tree_spec(), final(cursor).tree_spec().root_spec())
                    == s.remove(i)
        }),
        forall|z: NodeId| #[trigger] final(cursor).tree_spec().contains_spec(z) ==> {
            &&& old(cursor).tree_spec().contains_spec(z)
            &&& z != old(cursor).id_spec()
            &&& key_at(final(cursor).tree_spec(), z) == key_at(old(cursor).tree_spec(), z)
            &&& value_at(final(cursor).tree_spec(), z) == value_at(old(cursor).tree_spec(), z)
        },
{
    let ghost t1 = cursor.tree_spec();
    let ghost x = cursor.id_spec();
    let ghost s = inorder(t1, t1.root_spec());
    proof {
        lemma_subtree_ids(t1, t1.root_spec());
        assert(t1.node_ok(x));
    }
    let key_color = match cursor.as_cursor().get() {
        Some(node) => node.entry_color_exec(),
        None => Color::Black,
    };
    let is_leaf = {
        let neighborhood = cursor.as_cursor().peek_neighborhood();
        neighborhood.left.is_none() && neighborhood.right.is_none()
    };
    if is_leaf {
        let side_of_parent = cursor.side_of_parent();
        proof {
            let nx = t1.node_spec(x);
            if t1.contains_spec(nx.left_spec()) {
                lemma_contains_not_null(t1, nx.left_spec());
            }
            if t1.contains_spec(nx.right_spec()) {
                lemma_contains_not_null(t1, nx.right_spec());
            }
        }
        let data = cursor.detach_node();
        let ghost t2 = cursor.tree_spec();
        proof {
            crate::traversal::lemma_detach_inorder(t1, t2, x);
            let i = crate::traversal::inorder_before(t1, t1.root_spec(), x).len() as int;
            assert(0 <= i < s.len() && s[i] == x && inorder(t2, t2.root_spec()) == s.remove(i));
        }
        match side_of_parent {
            Some(side) => {
                if key_color == Color::Black {
                    remove_fixup_leaf(cursor, side);
                }
            },
            None => {},
        }
        proof {
            let t3 = cursor.tree_spec();
            assert(same_entries_order(t2, t3));
            assert forall|z: NodeId| #[trigger] t3.contains_spec(z) implies {
                &&& t1.contains_spec(z)
                &&& z != x
                &&& key_at(t3, z) == key_at(t1, z)
                &&& value_at(t3, z) == value_at(t1, z)
            } by {
                assert(t2.contains_spec(z));
            }
        }
        data
    } else {
        let data = cursor.transplant_child();
        let ghost t2 = cursor.tree_spec();
        proof {
            crate::traversal::lemma_transplant_inorder(t1, t2, x);
            let nx = t1.node_spec(x);
            let has_l = t1.contains_spec(nx.left_spec());
            let ch = if has_l { nx.left_spec() } else { nx.right_spec() };
            let i: int = crate::traversal::inorder_before(t1, t1.root_spec(), x).len() + (if has_l {
                inorder(t1, ch).len() as int
            } else {
                0
            });
            assert(0 <= i < s.len() && s[i] == x && inorder(t2, t2.root_spec()) == s.remove(i));
        }
        set_color_here(cursor, Color::Black);
        proof {
            let t3 = cursor.tree_spec();
            assert forall|z: NodeId| #[trigger] t3.contains_spec(z) implies {
                &&& t1.contains_spec(z)
                &&& z != x
                &&& key_at(t3, z) == key_at(t1, z)
                &&& value_at(t3, z) == value_at(t1, z)
            } by {
                assert(t2.contains_spec(z));
            }
        }
        data
    }
}

/// Removes the node holding the key, if there is one, and restores the red-black rules;
/// returns the key and the value that were stored there.
fn remove_from<K: Ord, V>(tree: BinaryTree<RedBlackNode<K, V>>, key: &K) -> (r: (
    BinaryTree<RedBlackNode<K, V>>,
    Option<(K, V)>,
))
    requires
        key_order_laws::<K>(),
        tree.wf(),
        keys_increasing(tree),
    ensures
        r.0.wf(),
        keys_increasing(r.0),
        entries(r.0) == entries(tree).remove(*key),
        r.0.slots_spec() <= tree.slots_spec(),
        r.1 == (if entries(tree).dom().contains(*key) {
            Some((*key, entries(tree)[*key]))
        } else {
            None::<(K, V)>
        }),
        !entries(tree).dom().contains(*key) ==> r.0 == tree,
{
    let mut tree = tree;
    let ghost t0 = tree;
    let ghost root = t0.root_spec();
    let mut cursor = tree.cursor_mut();
    if !get_cursor_mut_at_key(&mut cursor, key) {
        proof {
            cursor.lemma_resolved();
            assert(entries(t0).remove(*key) =~= entries(t0));
        }
        return (tree, None);
    }
    let ghost c = cursor.id_spec();
    let ghost s0 = inorder(t0, root);
    let ghost ic: int = (crate::traversal::inorder_before(t0, root, c).len() + inorder(
        t0,
        t0.node_spec(c).left_spec(),
    ).len()) as int;
    proof {
        lemma_entries(t0);
        lemma_sorted_parts(t0, c);
        lemma_subtree_ids(t0, root);
        assert(s0[ic] == c);
        assert(t0.node_ok(c));
    }
    let (has_left, has_right) = {
        let neighborhood = cursor.as_cursor().peek_neighborhood();
        (neighborhood.left.is_some(), neighborhood.right.is_some())
    };
    let ghost mut x = c;
    let ghost mut ix = ic;
    if has_left && has_right {
        // Exchange the entries of the node and of its successor, which has no left child,
        // and go on to remove the successor.
        let mut successor_cursor = cursor.as_cursor();
        move_cursor_to_successor(&mut successor_cursor);
        let successor_id = successor_cursor.node_id();
        let pair = cursor.peek_pair_mut(successor_id);
        match pair {
            Some((key_node, successor_node)) => {
                RedBlackNode::swap_entries(key_node, successor_node);
            },
            None => {},
        }
        let ghost t1 = cursor.tree_spec();
        proof {
            let r = t0.node_spec(c).right_spec();
            lemma_inorder_unfold(t0, r);
            lemma_contains_not_null(t0, r);
            assert(s0[ic + 1] == inorder(t0, r)[0]);
            lemma_inorder_distinct(t0, ic, ic + 1);
            crate::traversal::lemma_same_links(t0, t1);
        }
        move_cursor_mut_to_successor(&mut cursor);
        proof {
            x = successor_id;
            ix = ic + 1;
            let r = t0.node_spec(c).right_spec();
            assert(t1.node_spec(c).right_spec() == r);
            assert(inorder(t1, r) == inorder(t0, r));
            assert(cursor.id_spec() == x);
            crate::traversal::lemma_inorder_members(t0, root);
            assert(s0.contains(x));
        }
    }
    let ghost t1 = cursor.tree_spec();
    proof {
        crate::traversal::lemma_same_links(t0, t1);
        assert(inorder(t1, root) == s0);
        if !(has_left && has_right) {
            assert(t1 == t0);
        }
    }
    let data = remove_node_at_cursor(&mut cursor);
    let ghost t3 = cursor.tree_spec();
    proof {
        let i = choose|i: int| #![trigger s0.remove(i)] 0 <= i < s0.len() && s0[i] == x && inorder(t3, t3.root_spec()) == s0.remove(i);
        if i != ix {
            lemma_inorder_distinct(t0, ix, i);
        }
        if has_left && has_right {
            lemma_remove_swapped(t0, t1, t3, ic);
        } else {
            lemma_remove_direct(t0, t3, ic);
        }
        cursor.lemma_resolved();
    }
    let r = match data {
        Some(node) => Some(node.into_data()),
        None => None,
    };
    (tree, r)
}

impl<K: Ord, V> View for RedBlackTree<K, V> {
    type V = Map<K, V>;

    /// The map from the keys of the nodes below the root to their values.
    open spec fn view(&self) -> Map<K, V> {
        entries(self.inner_spec())
    }
}

impl<K: Ord, V> RedBlackTree<K, V> {
    /// The keys strictly increase along the inorder sequence, so that the tree is a map.
    pub open spec fn is_search_map(self) -> bool {
        keys_increasing(self.inner_spec())
    }

    /// Mapping the values keeps the tree a map with the same keys, and at each key holds a
    /// value that `f` returns on the value that was there.
    pub proof fn lemma_map_values<U, F: Fn(V) -> U>(t0: RedBlackTree<K, V>, t1: RedBlackTree<K, U>, f: F)
        requires
            key_order_laws::<K>(),
            t0.inner_spec().wf(),
            t0.is_search_map(),
            values_mapped(t0.inner_spec(), t1.inner_spec(), f),
        ensures
            t1.is_search_map(),
            t1@.dom() == t0@.dom(),
            forall|k: K| #[trigger] t0@.dom().contains(k) ==> f.ensures((t0@[k],), t1@[k]),
    {
        let a = t0.inner_spec();
        let b = t1.inner_spec();
        lemma_mapped_entries(a, b);
        assert forall|k: K| #[trigger] t0@.dom().contains(k) implies f.ensures((t0@[k],), t1@[k]) by {
            let id = choose|id: NodeId| {
                &&& #[trigger] subtree_ids(a, a.root_spec()).contains(id)
                &&& key_at(a, id) == k
                &&& entries(a)[k] == value_at(a, id)
                &&& entries(b)[k] == value_at(b, id)
            };
            lemma_subtree_ids(a, a.root_spec());
            assert(a.contains_spec(id));
        }
    }

    /// A valid tree whose root has no parent is a search map, so it can be edited.
    pub proof fn lemma_valid_is_search_map(self)
        requires
            key_order_laws::<K>(),
            self.valid(),
            root_has_no_parent(self.inner_spec()),
        ensures
            self.is_search_map(),
    {
        lemma_bst_is_sorted::<K, RedBlackNode<K, V>>(self.inner_spec(), self.inner_spec().root_spec());
    }

    /// An empty tree is a map.
    pub proof fn lemma_empty_is_search_map(self)
        requires
            self.inner_spec().wf(),
            !self.inner_spec().contains_spec(self.inner_spec().root_spec()),
        ensures
            self.is_search_map(),
            self@ == Map::<K, V>::empty(),
    {
        lemma_empty_entries(self.inner_spec());
        crate::traversal::lemma_inorder_unfold(self.inner_spec(), self.inner_spec().root_spec());
        assert(keys_of(self.inner_spec(), inorder(self.inner_spec(), self.inner_spec().root_spec())) =~= Seq::<K>::empty());
    }

    /// Inserts the key-value pair into the tree. If the key was not present in the tree yet,
    /// None is returned; otherwise the value stored at the key is replaced, and the old value
    /// is returned.
    pub fn insert(&mut self, key: K, value: V) -> (r: Option<V>)
        requires
            key_order_laws::<K>(),
            old(self).is_search_map(),
            old(self).inner_spec().slots_spec() + 1 < usize::MAX,
        ensures
            final(self).is_search_map(),
            final(self)@ == old(self)@.insert(key, value),
            r == map_get(old(self)@, key),
            final(self).inner_spec().slots_spec() <= old(self).inner_spec().slots_spec() + 1,
            is_red_black_tree_spec(old(self).inner_spec()) ==> is_red_black_tree_spec(final(self).inner_spec()),
            old(self).valid() ==> final(self).valid(),
            old(self)@.dom().contains(key) ==> same_colors(old(self).inner_spec(), final(self).inner_spec()) && forall|x: NodeId|
                #[trigger] old(self).inner_spec().contains_spec(x) ==> key_at(final(self).inner_spec(), x) == key_at(
                old(self).inner_spec(),
                x,
            ),
    {
        proof {
            use_type_invariant(&*self);
        }
        let mut tree = BinaryTree::new();
        std::mem::swap(&mut tree, &mut self.0);
        let (tree, r) = insert_into(tree, key, value);
        proof {
            lemma_sorted_is_bst::<K, RedBlackNode<K, V>>(tree, tree.root_spec());
        }
        self.0 = tree;
        r
    }

    /// Removes the node with the given key from the tree; returns the key and its value, if
    /// the key was in the tree.
    pub fn remove_entry(&mut self, key: &K) -> (r: Option<(K, V)>)
        requires
            key_order_laws::<K>(),
            old(self).is_search_map(),
        ensures
            !old(self)@.dom().contains(*key) ==> final(self).inner_spec() == old(self).inner_spec(),
            is_binary_search_tree_spec(final(self).inner_spec()),
            final(self).is_search_map(),
            final(self)@ == old(self)@.remove(*key),
            final(self).inner_spec().slots_spec() <= old(self).inner_spec().slots_spec(),
            r == (if old(self)@.dom().contains(*key) {
                Some((*key, old(self)@[*key]))
            } else {
                None
            }),
    {
        proof {
            use_type_invariant(&*self);
        }
        let mut tree = BinaryTree::new();
        std::mem::swap(&mut tree, &mut self.0);
        let (tree, r) = remove_from(tree, key);
        proof {
            lemma_sorted_is_bst::<K, RedBlackNode<K, V>>(tree, tree.root_spec());
        }
        self.0 = tree;
        r
    }
}

} // verus!
