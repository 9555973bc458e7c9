use vstd::prelude::*;
use crate::order::{lt, key_order_laws, lemma_key_order};
use crate::red_black_node::{Color, map_get};
use crate::side::Side;
use crate::binary_tree::{
    BinaryTree,
    NodeId,
    subtree_ids,
    lemma_subtree_ids,
    lemma_contains_not_null,
    lemma_relink,
    lemma_with_data,
    lemma_contained_ids_bound,
};
use crate::traversal::{
    inorder,
    inorder_before,
    inorder_after,
    same_below,
    TraversalOrder,
    lemma_inorder_members,
    lemma_inorder_split,
    lemma_inorder_unfold,
    lemma_traversal_frame,
    lemma_subtree_parent,
    lemma_inorder_child_parts,
    lemma_attach_inorder,
    lemma_rotation_inorder,
    root_has_no_parent,
    lemma_subtree_split,
    lemma_subtree_nested,
};

verus! {

/// The data of a node of a red-black tree that stands for an entry of a map: a key, a
/// value, a color, and whatever else the node keeps.
pub trait RbEntry: Sized {
    type Key: Ord;
    type Value;
    type Rest;

    spec fn entry_key(&self) -> Self::Key;

    spec fn entry_value(&self) -> Self::Value;

    spec fn entry_color(&self) -> Color;

    /// What the node keeps besides its key, value and color.
    spec fn entry_rest(&self) -> Self::Rest;

    /// The key of the node.
    fn entry_key_ref(&self) -> (r: &Self::Key)
        ensures
            *r == self.entry_key(),
    ;

    /// The color of the node.
    fn entry_color_exec(&self) -> (r: Color)
        ensures
            r == self.entry_color(),
    ;

    /// Sets the color of the node and keeps everything else.
    fn set_color(&mut self, color: Color)
        ensures
            final(self).entry_key() == old(self).entry_key(),
            final(self).entry_value() == old(self).entry_value(),
            final(self).entry_rest() == old(self).entry_rest(),
            final(self).entry_color() == color,
    ;

    /// Exchanges the keys and values of two nodes; each keeps its color and the rest.
    fn swap_entries(a: &mut Self, b: &mut Self)
        ensures
            final(a).entry_key() == old(b).entry_key(),
            final(a).entry_value() == old(b).entry_value(),
            final(a).entry_color() == old(a).entry_color(),
            final(a).entry_rest() == old(a).entry_rest(),
            final(b).entry_key() == old(a).entry_key(),
            final(b).entry_value() == old(a).entry_value(),
            final(b).entry_color() == old(b).entry_color(),
            final(b).entry_rest() == old(b).entry_rest(),
    ;
}

/// The key stored at the node `id`.
pub open spec fn key_at<N: RbEntry>(t: BinaryTree<N>, id: NodeId) -> N::Key {
    t.node_spec(id).data_spec().entry_key()
}

/// The value stored at the node `id`.
pub open spec fn value_at<N: RbEntry>(t: BinaryTree<N>, id: NodeId) -> N::Value {
    t.node_spec(id).data_spec().entry_value()
}

/// The color of the node `id`.
pub open spec fn color_at<N: RbEntry>(t: BinaryTree<N>, id: NodeId) -> Color {
    t.node_spec(id).data_spec().entry_color()
}

/// The keys of the nodes with the given ids.
pub open spec fn keys_of<N: RbEntry>(t: BinaryTree<N>, ids: Seq<NodeId>) -> Seq<N::Key> {
    ids.map_values(|id: NodeId| key_at(t, id))
}

/// Each key comes strictly before all later ones.
pub open spec fn strictly_sorted<K: Ord>(s: Seq<K>) -> bool {
    forall|i: int, j: int| 0 <= i < j < s.len() ==> lt(#[trigger] s[i], #[trigger] s[j])
}

/// The keys strictly increase along the inorder sequence below the root, and the root has
/// no parent.
pub open spec fn keys_increasing<N: RbEntry>(t: BinaryTree<N>) -> bool {
    &&& strictly_sorted(keys_of(t, inorder(t, t.root_spec())))
    &&& root_has_no_parent(t)
}

/// The map from the key of each node below the root to the value stored there.
pub open spec fn entries<N: RbEntry>(t: BinaryTree<N>) -> Map<N::Key, N::Value> {
    Map::new(
        |k: N::Key| exists|id: NodeId| #[trigger] subtree_ids(t, t.root_spec()).contains(id) && key_at(t, id) == k,
        |k: N::Key|
            value_at(
                t,
                choose|id: NodeId| #[trigger] subtree_ids(t, t.root_spec()).contains(id) && key_at(t, id) == k,
            ),
    )
}

/// The two trees hold the same nodes, each with the same key and value, in the same inorder
/// sequence below the root.
pub open spec fn same_entries_order<N: RbEntry>(t0: BinaryTree<N>, t1: BinaryTree<N>) -> bool {
    &&& inorder(t1, t1.root_spec()) == inorder(t0, t0.root_spec())
    &&& forall|x: NodeId| #[trigger] t1.contains_spec(x) == t0.contains_spec(x)
    &&& forall|x: NodeId| #[trigger] t0.contains_spec(x) ==> key_at(t1, x) == key_at(t0, x) && value_at(t1, x)
        == value_at(t0, x)
}

/// The root has no parent, and the node `id`, if it is in the tree, lies below the root.
pub open spec fn fixup_ready<N: RbEntry>(t: BinaryTree<N>, id: NodeId) -> bool {
    &&& root_has_no_parent(t)
    &&& t.contains_spec(id) ==> subtree_ids(t, t.root_spec()).contains(id)
}

/// `t1` is the well-formed tree `t0` with the color of the node `id` set to `color`, and
/// nothing else changed.
pub open spec fn recolored<N: RbEntry>(
    t0: BinaryTree<N>,
    t1: BinaryTree<N>,
    id: NodeId,
    color: Color,
) -> bool {
    &&& t1.wf()
    &&& t1.root_spec() == t0.root_spec()
    &&& t1.rank_bound_spec() == t0.rank_bound_spec()
    &&& t1.slots_spec() == t0.slots_spec()
    &&& t1.len_spec() == t0.len_spec()
    &&& forall|x: NodeId| #[trigger] t1.contains_spec(x) == t0.contains_spec(x)
    &&& forall|x: NodeId| #[trigger] t0.contains_spec(x) ==> {
        &&& t1.rank_spec(x) == t0.rank_spec(x)
        &&& t1.node_spec(x).parent_spec() == t0.node_spec(x).parent_spec()
        &&& t1.node_spec(x).left_spec() == t0.node_spec(x).left_spec()
        &&& t1.node_spec(x).right_spec() == t0.node_spec(x).right_spec()
        &&& key_at(t1, x) == key_at(t0, x)
        &&& value_at(t1, x) == value_at(t0, x)
        &&& t1.node_spec(x).data_spec().entry_rest() == t0.node_spec(x).data_spec().entry_rest()
        &&& color_at(t1, x) == (if x == id { color } else { color_at(t0, x) })
    }
}

/// Two nodes below the root of a tree whose keys increase along the inorder sequence are
/// the same node if they hold the same key.
pub proof fn lemma_unique_keys<N: RbEntry>(t: BinaryTree<N>, a: NodeId, b: NodeId)
    requires
        key_order_laws::<N::Key>(),
        t.wf(),
        keys_increasing(t),
        subtree_ids(t, t.root_spec()).contains(a),
        subtree_ids(t, t.root_spec()).contains(b),
        key_at(t, a) == key_at(t, b),
    ensures
        a == b,
{
    lemma_key_order::<N::Key>();
    let s = inorder(t, t.root_spec());
    let ks = keys_of(t, s);
    lemma_inorder_members(t, t.root_spec());
    assert(s.contains(a));
    assert(s.contains(b));
    let i = choose|i: int| 0 <= i < s.len() && s[i] == a;
    let j = choose|j: int| 0 <= j < s.len() && s[j] == b;
    assert(ks[i] == key_at(t, a));
    assert(ks[j] == key_at(t, b));
    if i < j {
        assert(lt(ks[i], ks[j]));
    } else if j < i {
        assert(lt(ks[j], ks[i]));
    }
}

/// In a tree whose keys increase along the inorder sequence, the map holds the key of every
/// node below the root with the value stored there, and nothing else.
pub proof fn lemma_entries<N: RbEntry>(t: BinaryTree<N>)
    requires
        key_order_laws::<N::Key>(),
        t.wf(),
        keys_increasing(t),
    ensures
        forall|id: NodeId| #[trigger] subtree_ids(t, t.root_spec()).contains(id) ==> entries(t).dom().contains(
            key_at(t, id),
        ) && entries(t)[key_at(t, id)] == value_at(t, id),
        forall|k: N::Key| #[trigger] entries(t).dom().contains(k) ==> exists|id: NodeId| #[trigger] subtree_ids(
            t,
            t.root_spec(),
        ).contains(id) && key_at(t, id) == k,
{
    let ids = subtree_ids(t, t.root_spec());
    assert forall|id: NodeId| #[trigger] ids.contains(id) implies entries(t).dom().contains(key_at(t, id))
        && entries(t)[key_at(t, id)] == value_at(t, id) by {
        let k = key_at(t, id);
        assert(ids.contains(id) && key_at(t, id) == k);
        let c = choose|c: NodeId| #[trigger] ids.contains(c) && key_at(t, c) == k;
        lemma_unique_keys(t, c, id);
    }
}

/// Trees that hold the same nodes with the same keys and values in the same order have
/// the same map, and the keys of both increase if those of one do.
pub proof fn lemma_same_entries<N: RbEntry>(t0: BinaryTree<N>, t1: BinaryTree<N>)
    requires
        key_order_laws::<N::Key>(),
        t0.wf(),
        t1.wf(),
        keys_increasing(t0),
        same_entries_order(t0, t1),
        root_has_no_parent(t1),
    ensures
        keys_increasing(t1),
        entries(t1) == entries(t0),
        subtree_ids(t1, t1.root_spec()) == subtree_ids(t0, t0.root_spec()),
{
    let s = inorder(t0, t0.root_spec());
    lemma_inorder_members(t0, t0.root_spec());
    lemma_inorder_members(t1, t1.root_spec());
    lemma_subtree_ids(t0, t0.root_spec());
    let ids0 = subtree_ids(t0, t0.root_spec());
    let ids1 = subtree_ids(t1, t1.root_spec());
    assert forall|w: NodeId| #[trigger] ids1.contains(w) == ids0.contains(w) by {
        assert(inorder(t1, t1.root_spec()).contains(w) == inorder(t0, t0.root_spec()).contains(w));
    }
    assert(ids1 =~= ids0);
    assert forall|i: int| 0 <= i < s.len() implies #[trigger] keys_of(t1, s)[i] == keys_of(t0, s)[i] by {
        assert(s.contains(s[i]));
        assert(t0.contains_spec(s[i]));
    }
    assert(keys_of(t1, s) =~= keys_of(t0, s));
    lemma_entries(t0);
    lemma_entries(t1);
    assert forall|k: N::Key| #[trigger] entries(t1).dom().contains(k) == entries(t0).dom().contains(k) by {
        if entries(t1).dom().contains(k) {
            let id = choose|id: NodeId| #[trigger] ids1.contains(id) && key_at(t1, id) == k;
            assert(ids0.contains(id));
        }
        if entries(t0).dom().contains(k) {
            let id = choose|id: NodeId| #[trigger] ids0.contains(id) && key_at(t0, id) == k;
            assert(ids1.contains(id));
        }
    }
    assert forall|k: N::Key| #[trigger] entries(t1).dom().contains(k) implies entries(t1)[k] == entries(t0)[k] by {
        let id = choose|id: NodeId| #[trigger] ids1.contains(id) && key_at(t1, id) == k;
        assert(ids0.contains(id));
    }
    assert(entries(t1) =~= entries(t0));
}

/// A tree with the shape and keys of a tree whose keys increase has increasing keys too; its
/// map has the same keys, and at each key the value of the same node.
pub proof fn lemma_mapped_entries<N: RbEntry, M: RbEntry<Key = N::Key>>(t0: BinaryTree<N>, t1: BinaryTree<M>)
    requires
        key_order_laws::<N::Key>(),
        t0.wf(),
        t1.wf(),
        keys_increasing(t0),
        t1.root_spec() == t0.root_spec(),
        forall|z: NodeId| #[trigger] t1.contains_spec(z) == t0.contains_spec(z),
        forall|z: NodeId| #[trigger] t0.contains_spec(z) ==> {
            &&& t1.node_spec(z).parent_spec() == t0.node_spec(z).parent_spec()
            &&& t1.node_spec(z).left_spec() == t0.node_spec(z).left_spec()
            &&& t1.node_spec(z).right_spec() == t0.node_spec(z).right_spec()
            &&& key_at(t1, z) == key_at(t0, z)
        },
    ensures
        keys_increasing(t1),
        subtree_ids(t1, t1.root_spec()) == subtree_ids(t0, t0.root_spec()),
        entries(t1).dom() == entries(t0).dom(),
        forall|k: N::Key| #[trigger] entries(t0).dom().contains(k) ==> exists|id: NodeId| {
            &&& #[trigger] subtree_ids(t0, t0.root_spec()).contains(id)
            &&& key_at(t0, id) == k
            &&& entries(t0)[k] == value_at(t0, id)
            &&& entries(t1)[k] == value_at(t1, id)
        },
{
    let r = t0.root_spec();
    lemma_subtree_ids(t0, r);
    assert(same_below(t0, t1, r));
    lemma_traversal_frame(t0, t1, r, TraversalOrder::Inorder);
    let s = inorder(t0, r);
    lemma_inorder_members(t0, r);
    assert forall|i: int| 0 <= i < s.len() implies #[trigger] keys_of(t1, s)[i] == keys_of(t0, s)[i] by {
        assert(s.contains(s[i]));
        assert(t0.contains_spec(s[i]));
    }
    assert(keys_of(t1, s) =~= keys_of(t0, s));
    if t0.contains_spec(r) {
        assert(t1.node_spec(r).parent_spec() == t0.node_spec(r).parent_spec());
    }
    assert(keys_increasing(t1));
    let ids = subtree_ids(t0, r);
    lemma_entries(t0);
    lemma_entries(t1);
    assert forall|k: N::Key| #[trigger] entries(t1).dom().contains(k) == entries(t0).dom().contains(k) by {
        if entries(t1).dom().contains(k) {
            let id = choose|id: NodeId| #[trigger] ids.contains(id) && key_at(t1, id) == k;
            assert(ids.contains(id) && key_at(t0, id) == k);
        }
        if entries(t0).dom().contains(k) {
            let id = choose|id: NodeId| #[trigger] ids.contains(id) && key_at(t0, id) == k;
            assert(ids.contains(id) && key_at(t1, id) == k);
        }
    }
    assert(entries(t1).dom() =~= entries(t0).dom());
    assert forall|k: N::Key| #[trigger] entries(t0).dom().contains(k) implies exists|id: NodeId| {
        &&& #[trigger] subtree_ids(t0, t0.root_spec()).contains(id)
        &&& key_at(t0, id) == k
        &&& entries(t0)[k] == value_at(t0, id)
        &&& entries(t1)[k] == value_at(t1, id)
    } by {
        let id = choose|id: NodeId| #[trigger] ids.contains(id) && key_at(t0, id) == k;
        assert(subtree_ids(t1, t1.root_spec()).contains(id));
    }
}

/// Sameness of nodes, keys, values and inorder sequence carries over from one tree to the
/// next.
pub proof fn lemma_same_entries_order_trans<N: RbEntry>(
    t0: BinaryTree<N>,
    t1: BinaryTree<N>,
    t2: BinaryTree<N>,
)
    requires
        same_entries_order(t0, t1),
        same_entries_order(t1, t2),
    ensures
        same_entries_order(t0, t2),
{
    assert forall|x: NodeId| #[trigger] t0.contains_spec(x) implies key_at(t2, x) == key_at(t0, x) && value_at(t2, x)
        == value_at(t0, x) by {
        assert(t1.contains_spec(x));
    }
}

/// Recoloring a node keeps the nodes, their keys and values, the inorder sequence and the
/// links, and so keeps every node below the root there.
pub proof fn lemma_recolored<N: RbEntry>(t0: BinaryTree<N>, t1: BinaryTree<N>, id: NodeId, color: Color, z: NodeId)
    requires
        t0.wf(),
        recolored(t0, t1, id, color),
        fixup_ready(t0, z),
    ensures
        same_entries_order(t0, t1),
        fixup_ready(t1, z),
        subtree_ids(t1, t1.root_spec()) == subtree_ids(t0, t0.root_spec()),
        forall|w: NodeId| #[trigger] subtree_ids(t1, w) == subtree_ids(t0, w),
{
    assert forall|w: NodeId| #[trigger] subtree_ids(t1, w) == subtree_ids(t0, w) by {
        lemma_subtree_ids(t0, w);
        assert(same_below(t0, t1, w));
        lemma_traversal_frame(t0, t1, w, TraversalOrder::Inorder);
    }
    let r = t0.root_spec();
    lemma_subtree_ids(t0, r);
    assert(same_below(t0, t1, r));
    lemma_traversal_frame(t0, t1, r, TraversalOrder::Inorder);
    if t0.contains_spec(r) {
        assert(t1.node_spec(r).parent_spec() == t0.node_spec(r).parent_spec());
    }
}

/// Moving from a node below the root to its parent, if that is in the tree, stays below the
/// root.
pub proof fn lemma_move_up_ready<N: RbEntry>(t: BinaryTree<N>, y: NodeId)
    requires
        t.wf(),
        fixup_ready(t, y),
    ensures
        fixup_ready(t, if t.contains_spec(y) { t.node_spec(y).parent_spec() } else { NodeId::null_spec() }),
{
    if t.contains_spec(y) {
        let p = t.node_spec(y).parent_spec();
        if t.contains_spec(p) {
            lemma_subtree_ids(t, t.root_spec());
            lemma_subtree_parent(t, t.root_spec(), y);
        }
    } else {
        NodeId::lemma_null_is_null();
        if t.contains_spec(NodeId::null_spec()) {
            lemma_contains_not_null(t, NodeId::null_spec());
        }
    }
}

/// Inserting a key between the keys of two parts of a sorted sequence keeps it sorted.
pub proof fn lemma_sorted_insert<K: Ord>(p: Seq<K>, q: Seq<K>, k: K)
    requires
        key_order_laws::<K>(),
        strictly_sorted(p + q),
        forall|i: int| 0 <= i < p.len() ==> lt(#[trigger] p[i], k),
        forall|j: int| 0 <= j < q.len() ==> lt(k, #[trigger] q[j]),
    ensures
        strictly_sorted(p + seq![k] + q),
{
    lemma_key_order::<K>();
    let s = p + seq![k] + q;
    let pq = p + q;
    assert forall|i: int, j: int| 0 <= i < j < s.len() implies lt(#[trigger] s[i], #[trigger] s[j]) by {
        let pl = p.len() as int;
        if j < pl {
            assert(s[i] == pq[i]);
            assert(s[j] == pq[j]);
        } else if j == pl {
            assert(s[i] == p[i]);
        } else if i < pl {
            assert(s[j] == q[j - pl - 1]);
            assert(s[i] == p[i]);
            assert(lt(p[i], k));
            assert(lt(k, q[j - pl - 1]));
        } else if i == pl {
            assert(s[j] == q[j - pl - 1]);
        } else {
            assert(s[i] == pq[i - 1]);
            assert(s[j] == pq[j - 1]);
        }
    }
}

/// In a tree whose keys increase along the inorder sequence, the keys before the nodes
/// below `c` and those of its left subtree are smaller than its key, and those of its right
/// subtree and after the nodes below it are larger.
pub proof fn lemma_sorted_parts<N: RbEntry>(t: BinaryTree<N>, c: NodeId)
    requires
        key_order_laws::<N::Key>(),
        t.wf(),
        keys_increasing(t),
        subtree_ids(t, t.root_spec()).contains(c),
    ensures
        ({
            let k = key_at(t, c);
            let b = inorder_before(t, t.root_spec(), c);
            let a = inorder_after(t, t.root_spec(), c);
            let l = inorder(t, t.node_spec(c).left_spec());
            let r = inorder(t, t.node_spec(c).right_spec());
            &&& inorder(t, t.root_spec()) == b + (l + seq![c] + r) + a
            &&& forall|i: int| 0 <= i < b.len() ==> lt(#[trigger] key_at(t, b[i]), k)
            &&& forall|i: int| 0 <= i < l.len() ==> lt(#[trigger] key_at(t, l[i]), k)
            &&& forall|i: int| 0 <= i < r.len() ==> lt(k, #[trigger] key_at(t, r[i]))
            &&& forall|i: int| 0 <= i < a.len() ==> lt(k, #[trigger] key_at(t, a[i]))
        }),
{
    let root = t.root_spec();
    let k = key_at(t, c);
    let b = inorder_before(t, root, c);
    let a = inorder_after(t, root, c);
    let l = inorder(t, t.node_spec(c).left_spec());
    let r = inorder(t, t.node_spec(c).right_spec());
    lemma_subtree_ids(t, root);
    lemma_inorder_split(t, root, c);
    lemma_inorder_unfold(t, c);
    let s = inorder(t, root);
    let ks = keys_of(t, s);
    assert(s == b + (l + seq![c] + r) + a);
    let pos: int = (b.len() + l.len()) as int;
    assert(s[pos] == c);
    assert(ks[pos] == k);
    assert forall|i: int| 0 <= i < b.len() implies lt(#[trigger] key_at(t, b[i]), k) by {
        assert(s[i] == b[i]);
        assert(ks[i] == key_at(t, b[i]));
        assert(lt(ks[i], ks[pos]));
    }
    assert forall|i: int| 0 <= i < l.len() implies lt(#[trigger] key_at(t, l[i]), k) by {
        assert(s[b.len() + i] == l[i]);
        assert(ks[b.len() + i] == key_at(t, l[i]));
        assert(lt(ks[b.len() + i], ks[pos]));
    }
    assert forall|i: int| 0 <= i < r.len() implies lt(k, #[trigger] key_at(t, r[i])) by {
        assert(s[pos + 1 + i] == r[i]);
        assert(ks[pos + 1 + i] == key_at(t, r[i]));
        assert(lt(ks[pos], ks[pos + 1 + i]));
    }
    assert forall|i: int| 0 <= i < a.len() implies lt(k, #[trigger] key_at(t, a[i])) by {
        let j = pos + 1 + r.len() + i;
        assert(s[j] == a[i]);
        assert(ks[j] == key_at(t, a[i]));
        assert(lt(ks[pos], ks[j]));
    }
}


/// The key lies strictly between the keys before the nodes below `c` in the inorder
/// sequence and the keys after them.
pub open spec fn search_bounds<N: RbEntry>(t: BinaryTree<N>, c: NodeId, key: N::Key) -> bool {
    let b = inorder_before(t, t.root_spec(), c);
    let a = inorder_after(t, t.root_spec(), c);
    &&& forall|i: int| 0 <= i < b.len() ==> lt(#[trigger] key_at(t, b[i]), key)
    &&& forall|i: int| 0 <= i < a.len() ==> lt(key, #[trigger] key_at(t, a[i]))
}

/// Descending from `c` towards the side on which the key lies keeps the key between the
/// keys before and after the nodes below the child.
pub proof fn lemma_search_step<N: RbEntry>(t: BinaryTree<N>, c: NodeId, side: Side, key: N::Key)
    requires
        key_order_laws::<N::Key>(),
        t.wf(),
        keys_increasing(t),
        subtree_ids(t, t.root_spec()).contains(c),
        t.contains_spec(t.node_spec(c).child_spec(side)),
        search_bounds(t, c, key),
        side == Side::Left ==> lt(key, key_at(t, c)),
        side == Side::Right ==> lt(key_at(t, c), key),
    ensures
        subtree_ids(t, t.root_spec()).contains(t.node_spec(c).child_spec(side)),
        search_bounds(t, t.node_spec(c).child_spec(side), key),
{
    lemma_key_order::<N::Key>();
    let root = t.root_spec();
    let ch = t.node_spec(c).child_spec(side);
    let b = inorder_before(t, root, c);
    let a = inorder_after(t, root, c);
    let l = inorder(t, t.node_spec(c).left_spec());
    let r = inorder(t, t.node_spec(c).right_spec());
    lemma_inorder_child_parts(t, root, c, side);
    lemma_sorted_parts(t, c);
    let b1 = inorder_before(t, root, ch);
    let a1 = inorder_after(t, root, ch);
    match side {
        Side::Left => {
            assert forall|i: int| 0 <= i < a1.len() implies lt(key, #[trigger] key_at(t, a1[i])) by {
                if i == 0 {
                    assert(a1[i] == c);
                } else if i <= r.len() {
                    assert(a1[i] == r[i - 1]);
                    assert(lt(key_at(t, c), key_at(t, r[i - 1])));
                } else {
                    assert(a1[i] == a[i - 1 - r.len()]);
                }
            }
        },
        Side::Right => {
            assert forall|i: int| 0 <= i < b1.len() implies lt(#[trigger] key_at(t, b1[i]), key) by {
                if i < b.len() {
                    assert(b1[i] == b[i]);
                } else if i < b.len() + l.len() {
                    assert(b1[i] == l[i - b.len()]);
                    assert(lt(key_at(t, l[i - b.len()]), key_at(t, c)));
                } else {
                    assert(b1[i] == c);
                }
            }
        },
    }
}

/// The nodes of an inorder sequence below the root are in the tree.
proof fn lemma_inorder_contained<T>(t: BinaryTree<T>, i: int)
    requires
        t.wf(),
        0 <= i < inorder(t, t.root_spec()).len(),
    ensures
        t.contains_spec(inorder(t, t.root_spec())[i]),
        subtree_ids(t, t.root_spec()).contains(inorder(t, t.root_spec())[i]),
{
    lemma_inorder_members(t, t.root_spec());
    lemma_subtree_ids(t, t.root_spec());
    assert(inorder(t, t.root_spec()).contains(inorder(t, t.root_spec())[i]));
}

/// Where a key that is not at `c` but lies on `side` of it, with no child there, would go:
/// the inorder sequence below the root splits into a part whose keys are smaller than the
/// key and a part whose keys are larger.
proof fn lemma_key_gap<N: RbEntry>(t: BinaryTree<N>, c: NodeId, side: Side, key: N::Key) -> (r: (
    Seq<NodeId>,
    Seq<NodeId>,
))
    requires
        key_order_laws::<N::Key>(),
        t.wf(),
        keys_increasing(t),
        subtree_ids(t, t.root_spec()).contains(c),
        !t.contains_spec(t.node_spec(c).child_spec(side)),
        search_bounds(t, c, key),
        side == Side::Left ==> lt(key, key_at(t, c)),
        side == Side::Right ==> lt(key_at(t, c), key),
    ensures
        inorder(t, t.root_spec()) == r.0 + r.1,
        side == Side::Left ==> r.0 == inorder_before(t, t.root_spec(), c) && r.1 == seq![c] + inorder(
            t,
            t.node_spec(c).right_spec(),
        ) + inorder_after(t, t.root_spec(), c),
        side == Side::Right ==> r.0 == inorder_before(t, t.root_spec(), c) + inorder(t, t.node_spec(c).left_spec())
            + seq![c] && r.1 == inorder_after(t, t.root_spec(), c),
        forall|i: int| 0 <= i < r.0.len() ==> lt(#[trigger] key_at(t, r.0[i]), key),
        forall|j: int| 0 <= j < r.1.len() ==> lt(key, #[trigger] key_at(t, r.1[j])),
{
    lemma_key_order::<N::Key>();
    let root = t.root_spec();
    lemma_subtree_ids(t, root);
    lemma_sorted_parts(t, c);
    let b = inorder_before(t, root, c);
    let a = inorder_after(t, root, c);
    let l = inorder(t, t.node_spec(c).left_spec());
    let r = inorder(t, t.node_spec(c).right_spec());
    let s0 = inorder(t, root);
    let e = t.node_spec(c).child_spec(side);
    lemma_inorder_unfold(t, e);
    let p_ids = match side {
        Side::Left => b,
        Side::Right => b + l + seq![c],
    };
    let q_ids = match side {
        Side::Left => seq![c] + r + a,
        Side::Right => a,
    };
    match side {
        Side::Left => {
            assert(l == Seq::<NodeId>::empty());
            assert(s0 =~= p_ids + q_ids);
        },
        Side::Right => {
            assert(r == Seq::<NodeId>::empty());
            assert(s0 =~= p_ids + q_ids);
        },
    }
    assert forall|i: int| 0 <= i < p_ids.len() implies lt(#[trigger] key_at(t, p_ids[i]), key) by {
        match side {
            Side::Left => {},
            Side::Right => {
                if i < b.len() {
                    assert(p_ids[i] == b[i]);
                } else if i < b.len() + l.len() {
                    assert(p_ids[i] == l[i - b.len()]);
                    assert(lt(key_at(t, l[i - b.len()]), key_at(t, c)));
                } else {
                    assert(p_ids[i] == c);
                }
            },
        }
    }
    assert forall|j: int| 0 <= j < q_ids.len() implies lt(key, #[trigger] key_at(t, q_ids[j])) by {
        match side {
            Side::Left => {
                if j == 0 {
                    assert(q_ids[j] == c);
                } else if j <= r.len() {
                    assert(q_ids[j] == r[j - 1]);
                    assert(lt(key_at(t, c), key_at(t, r[j - 1])));
                } else {
                    assert(q_ids[j] == a[j - 1 - r.len()]);
                }
            },
            Side::Right => {},
        }
    }
    (p_ids, q_ids)
}

/// A key that lies strictly between the keys of the two parts of the inorder sequence is
/// not in the map.
proof fn lemma_gap_absent<N: RbEntry>(t: BinaryTree<N>, p_ids: Seq<NodeId>, q_ids: Seq<NodeId>, key: N::Key)
    requires
        key_order_laws::<N::Key>(),
        t.wf(),
        keys_increasing(t),
        inorder(t, t.root_spec()) == p_ids + q_ids,
        forall|i: int| 0 <= i < p_ids.len() ==> lt(#[trigger] key_at(t, p_ids[i]), key),
        forall|j: int| 0 <= j < q_ids.len() ==> lt(key, #[trigger] key_at(t, q_ids[j])),
    ensures
        !entries(t).dom().contains(key),
{
    lemma_key_order::<N::Key>();
    let s0 = inorder(t, t.root_spec());
    let ids0 = subtree_ids(t, t.root_spec());
    lemma_inorder_members(t, t.root_spec());
    lemma_entries(t);
    if entries(t).dom().contains(key) {
        let id = choose|id: NodeId| #[trigger] ids0.contains(id) && key_at(t, id) == key;
        assert(s0.contains(id));
        let i = choose|i: int| 0 <= i < s0.len() && s0[i] == id;
        if i < p_ids.len() {
            assert(s0[i] == p_ids[i]);
            assert(lt(key_at(t, p_ids[i]), key));
        } else {
            assert(s0[i] == q_ids[i - p_ids.len()]);
            assert(lt(key, key_at(t, q_ids[i - p_ids.len()])));
        }
    }
}

/// A key that is not at `c` but lies on `side` of it, where `c` has no child, is not in
/// the map.
pub proof fn lemma_absent<N: RbEntry>(t: BinaryTree<N>, c: NodeId, side: Side, key: N::Key)
    requires
        key_order_laws::<N::Key>(),
        t.wf(),
        keys_increasing(t),
        subtree_ids(t, t.root_spec()).contains(c),
        !t.contains_spec(t.node_spec(c).child_spec(side)),
        search_bounds(t, c, key),
        side == Side::Left ==> lt(key, key_at(t, c)),
        side == Side::Right ==> lt(key_at(t, c), key),
    ensures
        !entries(t).dom().contains(key),
{
    let (p_ids, q_ids) = lemma_key_gap(t, c, side, key);
    lemma_gap_absent(t, p_ids, q_ids, key);
}

/// Where a new leaf goes: the inorder sequence below the root splits into a part whose keys
/// are smaller than the new key and a part whose keys are larger, and the leaf goes between
/// them.
proof fn lemma_leaf_place<N: RbEntry>(
    t0: BinaryTree<N>,
    t1: BinaryTree<N>,
    c: NodeId,
    n: NodeId,
    side: Side,
) -> (r: (Seq<NodeId>, Seq<NodeId>))
    requires
        key_order_laws::<N::Key>(),
        t0.wf(),
        t1.wf(),
        keys_increasing(t0),
        subtree_ids(t0, t0.root_spec()).contains(c),
        t0.node_spec(c).child_spec(side).is_null_spec(),
        !t0.contains_spec(n),
        t1.contains_spec(n),
        t1.node_spec(c) == t0.node_spec(c).with_child_spec(n, side),
        t1.node_spec(n).left_spec().is_null_spec(),
        t1.node_spec(n).right_spec().is_null_spec(),
        t1.same_outside(t0, set![c, n]),
        forall|x: NodeId| #[trigger] t1.contains_spec(x) == (t0.contains_spec(x) || x == n),
        t1.root_spec() == t0.root_spec(),
        search_bounds(t0, c, key_at(t1, n)),
        side == Side::Left ==> lt(key_at(t1, n), key_at(t0, c)),
        side == Side::Right ==> lt(key_at(t0, c), key_at(t1, n)),
    ensures
        inorder(t0, t0.root_spec()) == r.0 + r.1,
        inorder(t1, t1.root_spec()) == r.0 + seq![n] + r.1,
        forall|i: int| 0 <= i < r.0.len() ==> lt(#[trigger] key_at(t0, r.0[i]), key_at(t1, n)),
        forall|j: int| 0 <= j < r.1.len() ==> lt(key_at(t1, n), #[trigger] key_at(t0, r.1[j])),
{
    let root = t0.root_spec();
    let e = t0.node_spec(c).child_spec(side);
    if t0.contains_spec(e) {
        lemma_contains_not_null(t0, e);
    }
    lemma_subtree_ids(t0, root);
    let (p_ids, q_ids) = lemma_key_gap(t0, c, side, key_at(t1, n));
    lemma_attach_inorder(t0, t1, c, n, side);
    lemma_inorder_unfold(t0, c);
    lemma_inorder_unfold(t0, e);
    let l = inorder(t0, t0.node_spec(c).left_spec());
    let r = inorder(t0, t0.node_spec(c).right_spec());
    match side {
        Side::Left => {
            assert(l == Seq::<NodeId>::empty());
            assert(inorder(t1, root) =~= p_ids + seq![n] + q_ids);
        },
        Side::Right => {
            assert(r == Seq::<NodeId>::empty());
            assert(inorder(t1, root) =~= p_ids + seq![n] + q_ids);
        },
    }
    (p_ids, q_ids)
}

/// Putting a new node with a key between the keys of two parts of the inorder sequence,
/// the other nodes keeping their keys, keeps the keys increasing; the nodes below the root
/// gain the new node, whose key was absent.
proof fn lemma_leaf_order<N: RbEntry>(
    t0: BinaryTree<N>,
    t1: BinaryTree<N>,
    n: NodeId,
    p_ids: Seq<NodeId>,
    q_ids: Seq<NodeId>,
)
    requires
        key_order_laws::<N::Key>(),
        t0.wf(),
        t1.wf(),
        keys_increasing(t0),
        inorder(t0, t0.root_spec()) == p_ids + q_ids,
        inorder(t1, t1.root_spec()) == p_ids + seq![n] + q_ids,
        forall|i: int| 0 <= i < p_ids.len() ==> lt(#[trigger] key_at(t0, p_ids[i]), key_at(t1, n)),
        forall|j: int| 0 <= j < q_ids.len() ==> lt(key_at(t1, n), #[trigger] key_at(t0, q_ids[j])),
        forall|x: NodeId| #[trigger] t0.contains_spec(x) ==> key_at(t1, x) == key_at(t0, x),
    ensures
        strictly_sorted(keys_of(t1, inorder(t1, t1.root_spec()))),
        forall|w: NodeId| #[trigger] subtree_ids(t1, t1.root_spec()).contains(w) == (subtree_ids(t0, t0.root_spec()).contains(w)
            || w == n),
        !entries(t0).dom().contains(key_at(t1, n)),
{
    lemma_key_order::<N::Key>();
    let kk = key_at(t1, n);
    let s0 = inorder(t0, t0.root_spec());
    let s1 = inorder(t1, t1.root_spec());
    let p = keys_of(t0, p_ids);
    let q = keys_of(t0, q_ids);
    assert(keys_of(t0, s0) =~= p + q);
    lemma_sorted_insert(p, q, kk);
    assert forall|i: int| 0 <= i < s1.len() implies #[trigger] keys_of(t1, s1)[i] == (p + seq![kk] + q)[i] by {
        if i < p_ids.len() {
            assert(s1[i] == s0[i]);
            lemma_inorder_contained(t0, i);
        } else if i > p_ids.len() {
            assert(s1[i] == s0[i - 1]);
            lemma_inorder_contained(t0, i - 1);
        }
    }
    assert(keys_of(t1, s1) =~= p + seq![kk] + q);
    lemma_inorder_members(t0, t0.root_spec());
    lemma_inorder_members(t1, t1.root_spec());
    let ids0 = subtree_ids(t0, t0.root_spec());
    let ids1 = subtree_ids(t1, t1.root_spec());
    assert forall|w: NodeId| #[trigger] ids1.contains(w) == (ids0.contains(w) || w == n) by {
        if s1.contains(w) {
            let i = choose|i: int| 0 <= i < s1.len() && s1[i] == w;
            if i < p_ids.len() {
                assert(s0[i] == w);
            } else if i > p_ids.len() {
                assert(s0[i - 1] == w);
            }
        }
        if s0.contains(w) {
            let i = choose|i: int| 0 <= i < s0.len() && s0[i] == w;
            if i < p_ids.len() {
                assert(s1[i] == w);
            } else {
                assert(s1[i + 1] == w);
            }
        }
        if w == n {
            assert(s1[p_ids.len() as int] == n);
        }
    }
    lemma_gap_absent(t0, p_ids, q_ids, kk);
}

/// Attaching a new leaf with a key that lies between the keys around its place keeps the
/// keys increasing and adds the new key and value to the map, where the key was absent.
pub proof fn lemma_insert_leaf<N: RbEntry>(
    t0: BinaryTree<N>,
    t1: BinaryTree<N>,
    c: NodeId,
    n: NodeId,
    side: Side,
)
    requires
        key_order_laws::<N::Key>(),
        t0.wf(),
        t1.wf(),
        keys_increasing(t0),
        subtree_ids(t0, t0.root_spec()).contains(c),
        t0.node_spec(c).child_spec(side).is_null_spec(),
        !t0.contains_spec(n),
        t1.contains_spec(n),
        t1.node_spec(c) == t0.node_spec(c).with_child_spec(n, side),
        t1.node_spec(n).left_spec().is_null_spec(),
        t1.node_spec(n).right_spec().is_null_spec(),
        t1.same_outside(t0, set![c, n]),
        forall|x: NodeId| #[trigger] t1.contains_spec(x) == (t0.contains_spec(x) || x == n),
        t1.root_spec() == t0.root_spec(),
        search_bounds(t0, c, key_at(t1, n)),
        side == Side::Left ==> lt(key_at(t1, n), key_at(t0, c)),
        side == Side::Right ==> lt(key_at(t0, c), key_at(t1, n)),
    ensures
        keys_increasing(t1),
        fixup_ready(t1, n),
        !entries(t0).dom().contains(key_at(t1, n)),
        entries(t1) == entries(t0).insert(key_at(t1, n), value_at(t1, n)),
        forall|x: NodeId| #[trigger] t0.contains_spec(x) ==> key_at(t1, x) == key_at(t0, x) && value_at(t1, x)
            == value_at(t0, x),
{
    let root = t0.root_spec();
    lemma_subtree_ids(t0, root);
    assert(t0.contains_spec(c));
    lemma_relink(t0.node_spec(c), n, side);
    assert forall|x: NodeId| #[trigger] t0.contains_spec(x) implies key_at(t1, x) == key_at(t0, x) && value_at(t1, x)
        == value_at(t0, x) by {
        if x != c {
            assert(x != n);
            assert(!set![c, n].contains(x));
        }
    }
    let (p_ids, q_ids) = lemma_leaf_place(t0, t1, c, n, side);
    lemma_leaf_order(t0, t1, n, p_ids, q_ids);
    // The root keeps having no parent.
    assert(t0.node_ok(root));
    let rp = t0.node_spec(root).parent_spec();
    if t1.contains_spec(rp) {
        assert(rp == n);
        lemma_contains_not_null(t1, n);
    }
    if root != c {
        assert(root != n);
        assert(!set![c, n].contains(root));
    }
    assert(keys_increasing(t1));
    lemma_entries_insert(t0, t1, n);
}

/// Replacing the data of a node below the root by data with the same key changes the value
/// stored at that key and nothing else, and keeps the keys increasing.
pub proof fn lemma_entries_update<N: RbEntry>(
    t0: BinaryTree<N>,
    t1: BinaryTree<N>,
    c: NodeId,
    d: N,
)
    requires
        key_order_laws::<N::Key>(),
        t0.wf(),
        keys_increasing(t0),
        subtree_ids(t0, t0.root_spec()).contains(c),
        t0.data_updated(t1, c, d),
        d.entry_key() == key_at(t0, c),
    ensures
        t1.wf(),
        keys_increasing(t1),
        map_get(entries(t0), key_at(t0, c)) == Some(value_at(t0, c)),
        entries(t1) == entries(t0).insert(key_at(t0, c), d.entry_value()),
{
    let root = t0.root_spec();
    lemma_subtree_ids(t0, root);
    lemma_with_data(t0, t1, c, d);
    assert forall|x: NodeId| #[trigger] t0.contains_spec(x) && x != c implies t1.node_spec(x) == t0.node_spec(x) by {
        assert(!set![c].contains(x));
    }
    assert(same_below(t0, t1, root));
    lemma_traversal_frame(t0, t1, root, TraversalOrder::Inorder);
    let s = inorder(t0, root);
    assert forall|i: int| 0 <= i < s.len() implies #[trigger] keys_of(t1, s)[i] == keys_of(t0, s)[i] by {
        lemma_inorder_contained(t0, i);
    }
    assert(keys_of(t1, s) =~= keys_of(t0, s));
    if t0.contains_spec(root) && root != c {
        assert(t1.node_spec(root) == t0.node_spec(root));
    }
    lemma_inorder_members(t0, root);
    lemma_inorder_members(t1, root);
    assert forall|w: NodeId| #[trigger] subtree_ids(t1, root).contains(w) == (subtree_ids(t0, root).contains(w) || w == c) by {
        assert(inorder(t1, root).contains(w) == inorder(t0, root).contains(w));
    }
    lemma_entries(t0);
    lemma_entries_insert(t0, t1, c);
}

/// When the nodes below the root gain the node `n`, or `n` changes its value, and the other
/// nodes keep their keys and values, the map gains the key and value of `n`.
pub proof fn lemma_entries_insert<N: RbEntry>(t0: BinaryTree<N>, t1: BinaryTree<N>, n: NodeId)
    requires
        key_order_laws::<N::Key>(),
        t0.wf(),
        t1.wf(),
        keys_increasing(t0),
        keys_increasing(t1),
        forall|w: NodeId| #[trigger] subtree_ids(t1, t1.root_spec()).contains(w) == (subtree_ids(t0, t0.root_spec()).contains(w) || w == n),
        forall|x: NodeId| #[trigger] t0.contains_spec(x) ==> key_at(t1, x) == key_at(t0, x) && (x != n ==> value_at(t1, x)
            == value_at(t0, x)),
    ensures
        entries(t1) == entries(t0).insert(key_at(t1, n), value_at(t1, n)),
{
    lemma_subtree_ids(t0, t0.root_spec());
    lemma_entries(t0);
    lemma_entries(t1);
    let ids0 = subtree_ids(t0, t0.root_spec());
    let ids1 = subtree_ids(t1, t1.root_spec());
    let m = entries(t0).insert(key_at(t1, n), value_at(t1, n));
    assert(ids1.contains(n));
    assert forall|k: N::Key| #[trigger] entries(t1).dom().contains(k) == m.dom().contains(k) by {
        if entries(t1).dom().contains(k) {
            let id = choose|id: NodeId| #[trigger] ids1.contains(id) && key_at(t1, id) == k;
            if id != n {
                assert(ids0.contains(id));
            }
        }
        if entries(t0).dom().contains(k) {
            let id = choose|id: NodeId| #[trigger] ids0.contains(id) && key_at(t0, id) == k;
            assert(ids1.contains(id));
        }
    }
    assert forall|k: N::Key| #[trigger] entries(t1).dom().contains(k) implies entries(t1)[k] == m[k] by {
        let id = choose|id: NodeId| #[trigger] ids1.contains(id) && key_at(t1, id) == k;
        if id != n {
            assert(ids0.contains(id));
            if k == key_at(t1, n) {
                lemma_unique_keys(t1, id, n);
            }
        }
    }
    assert(entries(t1) =~= m);
}

/// Replacing the data of a node by data with the same key and value and the given color
/// recolors the node.
pub proof fn lemma_recolor_data<N: RbEntry>(
    t0: BinaryTree<N>,
    t1: BinaryTree<N>,
    id: NodeId,
    d: N,
)
    requires
        t0.wf(),
        t0.contains_spec(id),
        t0.data_updated(t1, id, d),
        d.entry_key() == key_at(t0, id),
        d.entry_value() == value_at(t0, id),
        d.entry_rest() == t0.node_spec(id).data_spec().entry_rest(),
    ensures
        recolored(t0, t1, id, d.entry_color()),
{
    lemma_with_data(t0, t1, id, d);
    assert forall|x: NodeId| #[trigger] t0.contains_spec(x) && x != id implies t1.node_spec(x) == t0.node_spec(x) by {
        assert(!set![id].contains(x));
    }
}

/// An empty tree stands for the empty map.
pub proof fn lemma_empty_entries<N: RbEntry>(t: BinaryTree<N>)
    requires
        t.wf(),
        !t.contains_spec(t.root_spec()),
    ensures
        entries(t) == Map::<N::Key, N::Value>::empty(),
{
    assert(subtree_ids(t, t.root_spec()) == Set::<NodeId>::empty());
    assert(entries(t) =~= Map::<N::Key, N::Value>::empty());
}

/// A tree of one node, the root, has increasing keys and stands for the map of its key to
/// its value.
pub proof fn lemma_singleton_entries<N: RbEntry>(t: BinaryTree<N>)
    requires
        key_order_laws::<N::Key>(),
        t.wf(),
        t.contains_spec(t.root_spec()),
        t.node_spec(t.root_spec()).parent_spec().is_null_spec(),
        t.node_spec(t.root_spec()).left_spec().is_null_spec(),
        t.node_spec(t.root_spec()).right_spec().is_null_spec(),
    ensures
        keys_increasing(t),
        entries(t) == Map::<N::Key, N::Value>::empty().insert(key_at(t, t.root_spec()), value_at(t, t.root_spec())),
{
    let root = t.root_spec();
    let n = t.node_spec(root);
    if t.contains_spec(n.left_spec()) {
        lemma_contains_not_null(t, n.left_spec());
    }
    if t.contains_spec(n.right_spec()) {
        lemma_contains_not_null(t, n.right_spec());
    }
    if t.contains_spec(n.parent_spec()) {
        lemma_contains_not_null(t, n.parent_spec());
    }
    lemma_inorder_unfold(t, root);
    lemma_inorder_unfold(t, n.left_spec());
    lemma_inorder_unfold(t, n.right_spec());
    assert(inorder(t, root) =~= seq![root]);
    lemma_inorder_members(t, root);
    assert forall|w: NodeId| #[trigger] subtree_ids(t, root).contains(w) == (w == root) by {
        assert(inorder(t, root).contains(w) == (w == root)) by {
            if w == root {
                assert(inorder(t, root)[0] == w);
            }
        }
    }
    let m = Map::<N::Key, N::Value>::empty().insert(key_at(t, root), value_at(t, root));
    assert(entries(t).dom().contains(key_at(t, root))) by {
        assert(subtree_ids(t, root).contains(root));
    }
    assert forall|k: N::Key| #[trigger] entries(t).dom().contains(k) implies k == key_at(t, root) && entries(t)[k]
        == value_at(t, root) by {
        let id = choose|id: NodeId| #[trigger] subtree_ids(t, root).contains(id) && key_at(t, id) == k;
        assert(id == root);
    }
    assert(entries(t) =~= m);
}

/// A rotation below a root without parent keeps the nodes, their keys and values and the
/// inorder sequence, and keeps every node below the root there.
pub proof fn lemma_rotation_entries<N: RbEntry>(t0: BinaryTree<N>, t1: BinaryTree<N>, x: NodeId, dir: Side)
    requires
        t0.wf(),
        t1.wf(),
        t0.rotated_at(t1, x, dir),
        fixup_ready(t0, x),
    ensures
        same_entries_order(t0, t1),
        fixup_ready(t1, x),
        t0.contains_spec(x) && t0.contains_spec(t0.node_spec(x).child_spec(dir.opposite())) ==> subtree_ids(
            t1,
            t0.node_spec(x).child_spec(dir.opposite()),
        ) == subtree_ids(t0, x),
        !(t0.contains_spec(x) && t0.contains_spec(t0.node_spec(x).child_spec(dir.opposite()))) ==> t1 == t0,
{
    if t0.contains_spec(x) && t0.contains_spec(t0.node_spec(x).child_spec(dir.opposite())) {
        let y = t0.node_spec(x).child_spec(dir.opposite());
        lemma_subtree_ids(t0, t0.root_spec());
        lemma_rotation_inorder(t0, t1, x, dir);
        lemma_inorder_members(t0, x);
        lemma_inorder_members(t1, y);
        assert forall|w: NodeId| #[trigger] subtree_ids(t1, y).contains(w) == subtree_ids(t0, x).contains(w) by {
            assert(inorder(t1, y).contains(w) == inorder(t0, x).contains(w));
        }
        assert(subtree_ids(t1, y) =~= subtree_ids(t0, x));
        lemma_inorder_members(t0, t0.root_spec());
        lemma_inorder_members(t1, t1.root_spec());
        assert(inorder(t1, t1.root_spec()).contains(x) == inorder(t0, t0.root_spec()).contains(x));
    }
}

/// Removing an element keeps a sequence sorted.
pub proof fn lemma_sorted_remove<K: Ord>(s: Seq<K>, i: int)
    requires
        strictly_sorted(s),
        0 <= i < s.len(),
    ensures
        strictly_sorted(s.remove(i)),
{
    let r = s.remove(i);
    assert forall|a: int, b: int| 0 <= a < b < r.len() implies lt(#[trigger] r[a], #[trigger] r[b]) by {
        let a1 = if a < i { a } else { a + 1 };
        let b1 = if b < i { b } else { b + 1 };
        assert(r[a] == s[a1]);
        assert(r[b] == s[b1]);
    }
}

/// The nodes along the inorder sequence of a tree whose keys increase are distinct.
pub proof fn lemma_inorder_distinct<N: RbEntry>(t: BinaryTree<N>, i: int, j: int)
    requires
        key_order_laws::<N::Key>(),
        t.wf(),
        keys_increasing(t),
        0 <= i < inorder(t, t.root_spec()).len(),
        0 <= j < inorder(t, t.root_spec()).len(),
        i != j,
    ensures
        inorder(t, t.root_spec())[i] != inorder(t, t.root_spec())[j],
{
    lemma_key_order::<N::Key>();
    let s = inorder(t, t.root_spec());
    let ks = keys_of(t, s);
    assert(ks[i] == key_at(t, s[i]));
    assert(ks[j] == key_at(t, s[j]));
    if i < j {
        assert(lt(ks[i], ks[j]));
    } else {
        assert(lt(ks[j], ks[i]));
    }
}

/// An element of a sequence other than the removed one is still there after the removal.
proof fn lemma_remove_contains<A>(s: Seq<A>, i: int, w: A)
    requires
        0 <= i < s.len(),
    ensures
        s.remove(i).contains(w) ==> s.contains(w),
        s.contains(w) && w != s[i] ==> s.remove(i).contains(w),
{
    if s.remove(i).contains(w) {
        let j = choose|j: int| 0 <= j < s.remove(i).len() && s.remove(i)[j] == w;
        if j < i {
            assert(s[j] == w);
        } else {
            assert(s[j + 1] == w);
        }
    }
    if s.contains(w) && w != s[i] {
        let j = choose|j: int| 0 <= j < s.len() && s[j] == w;
        if j < i {
            assert(s.remove(i)[j] == w);
        } else {
            assert(j > i);
            assert(s.remove(i)[j - 1] == w);
        }
    }
}

/// When the nodes below the root of `t2` stand, through `f`, for the nodes below the root of
/// `t0` other than `x0`, with their keys and values, the map of `t2` is the map of `t0`
/// without the key of `x0`.
pub proof fn lemma_entries_remove<N: RbEntry>(
    t0: BinaryTree<N>,
    t2: BinaryTree<N>,
    x0: NodeId,
    f: spec_fn(NodeId) -> NodeId,
)
    requires
        key_order_laws::<N::Key>(),
        t0.wf(),
        t2.wf(),
        keys_increasing(t0),
        keys_increasing(t2),
        subtree_ids(t0, t0.root_spec()).contains(x0),
        forall|w: NodeId| #[trigger] subtree_ids(t2, t2.root_spec()).contains(w) ==> {
            &&& subtree_ids(t0, t0.root_spec()).contains(f(w))
            &&& f(w) != x0
            &&& key_at(t2, w) == key_at(t0, f(w))
            &&& value_at(t2, w) == value_at(t0, f(w))
        },
        forall|u: NodeId| #[trigger] subtree_ids(t0, t0.root_spec()).contains(u) && u != x0 ==> exists|w: NodeId|
            #[trigger] subtree_ids(t2, t2.root_spec()).contains(w) && f(w) == u,
    ensures
        entries(t2) == entries(t0).remove(key_at(t0, x0)),
{
    let ids0 = subtree_ids(t0, t0.root_spec());
    let ids2 = subtree_ids(t2, t2.root_spec());
    let k0 = key_at(t0, x0);
    lemma_entries(t0);
    lemma_entries(t2);
    let m = entries(t0).remove(k0);
    assert forall|k: N::Key| #[trigger] entries(t2).dom().contains(k) == m.dom().contains(k) by {
        if entries(t2).dom().contains(k) {
            let w = choose|w: NodeId| #[trigger] ids2.contains(w) && key_at(t2, w) == k;
            assert(ids0.contains(f(w)));
            if k == k0 {
                lemma_unique_keys(t0, f(w), x0);
            }
        }
        if m.dom().contains(k) {
            let u = choose|u: NodeId| #[trigger] ids0.contains(u) && key_at(t0, u) == k;
            assert(u != x0);
            let w = choose|w: NodeId| #[trigger] ids2.contains(w) && f(w) == u;
            assert(key_at(t2, w) == k);
        }
    }
    assert forall|k: N::Key| #[trigger] entries(t2).dom().contains(k) implies entries(t2)[k] == m[k] by {
        let w = choose|w: NodeId| #[trigger] ids2.contains(w) && key_at(t2, w) == k;
        assert(ids0.contains(f(w)));
    }
    assert(entries(t2) =~= m);
}

/// Removing a node from the inorder sequence of a tree whose keys increase, the other nodes
/// keeping their keys and values, keeps the keys increasing and removes the node's key from
/// the map.
pub proof fn lemma_remove_direct<N: RbEntry>(t0: BinaryTree<N>, t2: BinaryTree<N>, ix: int)
    requires
        key_order_laws::<N::Key>(),
        t0.wf(),
        t2.wf(),
        keys_increasing(t0),
        root_has_no_parent(t2),
        0 <= ix < inorder(t0, t0.root_spec()).len(),
        inorder(t2, t2.root_spec()) == inorder(t0, t0.root_spec()).remove(ix),
        forall|z: NodeId| #[trigger] t2.contains_spec(z) ==> t0.contains_spec(z) && key_at(t2, z) == key_at(t0, z)
            && value_at(t2, z) == value_at(t0, z),
    ensures
        keys_increasing(t2),
        entries(t2) == entries(t0).remove(key_at(t0, inorder(t0, t0.root_spec())[ix])),
{
    let s = inorder(t0, t0.root_spec());
    let s2 = inorder(t2, t2.root_spec());
    let x0 = s[ix];
    lemma_inorder_members(t0, t0.root_spec());
    lemma_inorder_members(t2, t2.root_spec());
    lemma_subtree_ids(t2, t2.root_spec());
    assert forall|j: int| 0 <= j < s2.len() implies #[trigger] keys_of(t2, s2)[j] == keys_of(t0, s).remove(ix)[j] by {
        assert(s2.contains(s2[j]));
        if j < ix {
            assert(s2[j] == s[j]);
        } else {
            assert(s2[j] == s[j + 1]);
        }
    }
    assert(keys_of(t2, s2) =~= keys_of(t0, s).remove(ix));
    lemma_sorted_remove(keys_of(t0, s), ix);
    assert(s.contains(x0));
    let f = |w: NodeId| w;
    assert forall|w: NodeId| #[trigger] subtree_ids(t2, t2.root_spec()).contains(w) implies {
        &&& subtree_ids(t0, t0.root_spec()).contains(f(w))
        &&& f(w) != x0
        &&& key_at(t2, w) == key_at(t0, f(w))
        &&& value_at(t2, w) == value_at(t0, f(w))
    } by {
        assert(s2.contains(w));
        lemma_remove_contains(s, ix, w);
        let j = choose|j: int| 0 <= j < s2.len() && s2[j] == w;
        if j < ix {
            assert(s2[j] == s[j]);
            lemma_inorder_distinct(t0, j, ix);
        } else {
            assert(s2[j] == s[j + 1]);
            lemma_inorder_distinct(t0, j + 1, ix);
        }
    }
    assert forall|u: NodeId| #[trigger] subtree_ids(t0, t0.root_spec()).contains(u) && u != x0 implies exists|w: NodeId|
        #[trigger] subtree_ids(t2, t2.root_spec()).contains(w) && f(w) == u by {
        assert(s.contains(u));
        lemma_remove_contains(s, ix, u);
        assert(s2.contains(u));
        assert(subtree_ids(t2, t2.root_spec()).contains(u));
    }
    lemma_entries_remove(t0, t2, x0, f);
}

/// Removing the successor of `c` from the inorder sequence after `c` took over the
/// successor's key and value keeps the keys increasing and removes the key of `c` from the
/// map.
pub proof fn lemma_remove_swapped<N: RbEntry>(
    t0: BinaryTree<N>,
    t1: BinaryTree<N>,
    t2: BinaryTree<N>,
    ic: int,
)
    requires
        key_order_laws::<N::Key>(),
        t0.wf(),
        t2.wf(),
        keys_increasing(t0),
        root_has_no_parent(t2),
        0 <= ic,
        ic + 1 < inorder(t0, t0.root_spec()).len(),
        ({
            let s = inorder(t0, t0.root_spec());
            let c = s[ic];
            let sc = s[ic + 1];
            &&& key_at(t1, c) == key_at(t0, sc)
            &&& value_at(t1, c) == value_at(t0, sc)
            &&& forall|z: NodeId| #[trigger] t0.contains_spec(z) && z != c && z != sc ==> key_at(t1, z) == key_at(t0, z)
                && value_at(t1, z) == value_at(t0, z)
            &&& inorder(t2, t2.root_spec()) == s.remove(ic + 1)
        }),
        forall|z: NodeId| #[trigger] t1.contains_spec(z) == t0.contains_spec(z),
        forall|z: NodeId| #[trigger] t2.contains_spec(z) ==> t1.contains_spec(z) && key_at(t2, z) == key_at(t1, z)
            && value_at(t2, z) == value_at(t1, z),
    ensures
        keys_increasing(t2),
        entries(t2) == entries(t0).remove(key_at(t0, inorder(t0, t0.root_spec())[ic])),
{
    let s = inorder(t0, t0.root_spec());
    let s2 = inorder(t2, t2.root_spec());
    let c = s[ic];
    let sc = s[ic + 1];
    lemma_inorder_members(t0, t0.root_spec());
    lemma_inorder_members(t2, t2.root_spec());
    lemma_subtree_ids(t2, t2.root_spec());
    lemma_subtree_ids(t0, t0.root_spec());
    assert forall|j: int| 0 <= j < s2.len() implies #[trigger] keys_of(t2, s2)[j] == keys_of(t0, s).remove(ic)[j] by {
        assert(s2.contains(s2[j]));
        if j < ic {
            assert(s2[j] == s[j]);
            lemma_inorder_distinct(t0, j, ic);
            lemma_inorder_distinct(t0, j, ic + 1);
            lemma_inorder_contained(t0, j);
        } else if j == ic {
            assert(s2[j] == c);
        } else {
            assert(s2[j] == s[j + 1]);
            lemma_inorder_distinct(t0, j + 1, ic);
            lemma_inorder_distinct(t0, j + 1, ic + 1);
            lemma_inorder_contained(t0, j + 1);
        }
    }
    assert(keys_of(t2, s2) =~= keys_of(t0, s).remove(ic));
    lemma_sorted_remove(keys_of(t0, s), ic);
    assert(s.contains(c));
    let f = |w: NodeId| if w == c { sc } else { w };
    assert forall|w: NodeId| #[trigger] subtree_ids(t2, t2.root_spec()).contains(w) implies {
        &&& subtree_ids(t0, t0.root_spec()).contains(f(w))
        &&& f(w) != c
        &&& key_at(t2, w) == key_at(t0, f(w))
        &&& value_at(t2, w) == value_at(t0, f(w))
    } by {
        assert(s2.contains(w));
        let j = choose|j: int| 0 <= j < s2.len() && s2[j] == w;
        if j < ic {
            assert(s2[j] == s[j]);
            lemma_inorder_distinct(t0, j, ic);
            lemma_inorder_distinct(t0, j, ic + 1);
            lemma_inorder_contained(t0, j);
        } else if j == ic {
            assert(s.contains(sc));
            lemma_inorder_distinct(t0, ic, ic + 1);
        } else {
            assert(s2[j] == s[j + 1]);
            lemma_inorder_distinct(t0, j + 1, ic);
            lemma_inorder_distinct(t0, j + 1, ic + 1);
            lemma_inorder_contained(t0, j + 1);
        }
    }
    assert forall|u: NodeId| #[trigger] subtree_ids(t0, t0.root_spec()).contains(u) && u != c implies exists|w: NodeId|
        #[trigger] subtree_ids(t2, t2.root_spec()).contains(w) && f(w) == u by {
        assert(s.contains(u));
        if u == sc {
            assert(s2[ic] == c);
            assert(s2.contains(c));
            assert(subtree_ids(t2, t2.root_spec()).contains(c));
            assert(f(c) == u);
        } else {
            lemma_remove_contains(s, ic + 1, u);
            assert(s2.contains(u));
            assert(subtree_ids(t2, t2.root_spec()).contains(u));
            assert(f(u) == u);
        }
    }
    lemma_entries_remove(t0, t2, c, f);
}

/// Moving from a node below the root to one of its children, if that is in the tree, stays
/// below the root.
pub proof fn lemma_move_down_ready<N: RbEntry>(t: BinaryTree<N>, y: NodeId, side: Side)
    requires
        t.wf(),
        fixup_ready(t, y),
    ensures
        fixup_ready(t, if t.contains_spec(y) { t.node_spec(y).child_spec(side) } else { NodeId::null_spec() }),
{
    if t.contains_spec(y) {
        let c = t.node_spec(y).child_spec(side);
        if t.contains_spec(c) {
            lemma_subtree_ids(t, t.root_spec());
            lemma_subtree_split(t, y);
            lemma_subtree_ids(t, c);
            assert(subtree_ids(t, c).contains(c));
            assert(subtree_ids(t, y).contains(c));
            lemma_subtree_nested(t, t.root_spec(), y);
        }
    } else {
        NodeId::lemma_null_is_null();
        if t.contains_spec(NodeId::null_spec()) {
            lemma_contains_not_null(t, NodeId::null_spec());
        }
    }
}

/// The subtree below the parent of a node holds more nodes than the subtree below the node,
/// and no more than the tree.
pub proof fn lemma_parent_subtree_larger<T>(t: BinaryTree<T>, y: NodeId)
    requires
        t.wf(),
        t.contains_spec(y),
        t.contains_spec(t.node_spec(y).parent_spec()),
    ensures
        subtree_ids(t, y).finite(),
        subtree_ids(t, t.node_spec(y).parent_spec()).finite(),
        subtree_ids(t, y).len() < subtree_ids(t, t.node_spec(y).parent_spec()).len(),
        subtree_ids(t, t.node_spec(y).parent_spec()).len() <= t.len_spec(),
{
    let p = t.node_spec(y).parent_spec();
    assert(t.node_ok(y));
    lemma_contains_not_null(t, p);
    assert(t.node_ok(p));
    let sd = t.node_spec(p).side_of_spec(y).unwrap();
    assert(t.node_spec(p).child_spec(sd) == y);
    lemma_subtree_ids(t, p);
    lemma_subtree_ids(t, y);
    lemma_subtree_split(t, p);
    lemma_subtree_nested(t, p, y);
    lemma_contained_ids_bound(t, subtree_ids(t, p));
    lemma_contained_ids_bound(t, subtree_ids(t, y));
    assert(!subtree_ids(t, y).contains(p));
    assert(subtree_ids(t, y).insert(p).subset_of(subtree_ids(t, p)));
    vstd::set_lib::lemma_len_subset(subtree_ids(t, y).insert(p), subtree_ids(t, p));
}

} // verus!
