use vstd::prelude::*;
use core::marker::PhantomData;
use crate::order::{lt, key_order_laws, lemma_key_order, compare_keys, KeyOrder};
use crate::side::Side;
use crate::binary_tree::{
    BinaryTree,
    NodeId,
    Cursor,
    cursor_rank,
    lemma_relink,
    lemma_swapped,
    lemma_contains_not_null,
    lemma_children_ranks,
    subtree_ids,
    lemma_subtree_ids,
};
use crate::traversal::{
    TraversalOrder,
    traversal_ids,
    data_of,
    same_below,
    lemma_traversal_frame,
    lemma_subtree_parent,
    lemma_subtree_split,
    lemma_subtree_nested,
};

verus! {

/// Orders a Cartesian tree as a min-heap: no key is smaller than its parent's.
pub struct Min;

/// Orders a Cartesian tree as a max-heap: no key is greater than its parent's.
pub struct Max;

/// The heap order of a Cartesian tree.
pub trait Comparer {
    /// The order is the reverse of the key order.
    spec fn reversed() -> bool;

    /// The name of the order.
    spec fn name_spec() -> Seq<char>;

    /// The name of the order.
    fn name() -> (r: &'static str)
        ensures
            r@ == Self::name_spec(),
    ;

    /// Compares two keys in the heap order: `Greater` when `left` must not be the parent
    /// of `right`.
    fn compare<T: Ord>(left: &T, right: &T) -> (r: KeyOrder)
        requires
            key_order_laws::<T>(),
        ensures
            r == KeyOrder::Equal <==> *left == *right,
            r == KeyOrder::Less <==> (if Self::reversed() {
                lt(*right, *left)
            } else {
                lt(*left, *right)
            }),
            r == KeyOrder::Greater <==> (if Self::reversed() {
                lt(*left, *right)
            } else {
                lt(*right, *left)
            }),
    ;
}

impl Comparer for Min {
    open spec fn reversed() -> bool {
        false
    }

    open spec fn name_spec() -> Seq<char> {
        "min"@
    }

    fn name() -> (r: &'static str) {
        "min"
    }

    fn compare<T: Ord>(left: &T, right: &T) -> (r: KeyOrder) {
        compare_keys(left, right)
    }
}

impl Comparer for Max {
    open spec fn reversed() -> bool {
        true
    }

    open spec fn name_spec() -> Seq<char> {
        "max"@
    }

    fn name() -> (r: &'static str) {
        "max"
    }

    fn compare<T: Ord>(left: &T, right: &T) -> (r: KeyOrder) {
        match compare_keys(left, right) {
            KeyOrder::Less => KeyOrder::Greater,
            KeyOrder::Greater => KeyOrder::Less,
            KeyOrder::Equal => KeyOrder::Equal,
        }
    }
}

/// In the heap order of `C`, the key `a` comes strictly after the key `b`, so that `a`
/// must not be the parent of `b`.
pub open spec fn heap_after<C: Comparer, K: Ord>(a: K, b: K) -> bool {
    if C::reversed() {
        lt(a, b)
    } else {
        lt(b, a)
    }
}

/// The data of a node of a Cartesian tree: a key-value pair.
pub struct CartesianNode<K, V> {
    key: K,
    value: V,
}

impl<K, V> CartesianNode<K, V> {
    pub closed spec fn key_spec(self) -> K {
        self.key
    }

    pub closed spec fn value_spec(self) -> V {
        self.value
    }

    /// The node with its value replaced.
    pub closed spec fn with_value_spec(self, value: V) -> CartesianNode<K, V> {
        CartesianNode { value, ..self }
    }

    /// A node holding the key-value pair.
    pub fn new(key: K, value: V) -> (r: Self)
        ensures
            r.key_spec() == key,
            r.value_spec() == value,
    {
        CartesianNode { key, value }
    }

    /// The key stored at this node.
    pub fn key(&self) -> (r: &K)
        ensures
            *r == self.key_spec(),
    {
        &self.key
    }

    /// The value stored at this node.
    pub fn value(&self) -> (r: &V)
        ensures
            *r == self.value_spec(),
    {
        &self.value
    }

    /// The value stored at this node, for modification.
    pub fn value_mut(&mut self) -> (r: &mut V)
        ensures
            *r == old(self).value_spec(),
            *final(self) == old(self).with_value_spec(*final(r)),
            final(self).key_spec() == old(self).key_spec(),
            final(self).value_spec() == *final(r),
    {
        &mut self.value
    }
}

/// The node holding a key-value pair.
pub closed spec fn node_of<K, V>(p: (K, V)) -> CartesianNode<K, V> {
    CartesianNode { key: p.0, value: p.1 }
}

/// The node holding a key-value pair holds that key and that value.
pub proof fn lemma_node_of<K, V>(p: (K, V))
    ensures
        node_of(p).key_spec() == p.0,
        node_of(p).value_spec() == p.1,
{
}

/// The node with its value replaced keeps its key.
pub proof fn lemma_with_value<K, V>(n: CartesianNode<K, V>, value: V)
    ensures
        n.with_value_spec(value).key_spec() == n.key_spec(),
        n.with_value_spec(value).value_spec() == value,
{
}

/// The key of the node `id`.
pub open spec fn key_at<K, V>(t: BinaryTree<CartesianNode<K, V>>, id: NodeId) -> K {
    t.node_spec(id).data_spec().key_spec()
}

/// The tree is a heap in the order of `C`: no node's key comes after the key of one of
/// its children.
pub open spec fn is_heap<C: Comparer, K: Ord, V>(t: BinaryTree<CartesianNode<K, V>>) -> bool {
    forall|z: NodeId| #[trigger] t.contains_spec(z) && t.contains_spec(t.node_spec(z).parent_spec())
        ==> !heap_after::<C, K>(key_at(t, t.node_spec(z).parent_spec()), key_at(t, z))
}

/// `spine` lists the nodes from the root down along right children to the last node,
/// which has no right child.
pub open spec fn is_right_spine<T>(t: BinaryTree<T>, spine: Seq<NodeId>) -> bool {
    &&& spine.len() == 0 ==> t.root_spec().is_null_spec()
    &&& spine.len() > 0 ==> {
        &&& t.root_spec() == spine[0]
        &&& t.node_spec(spine[0]).parent_spec().is_null_spec()
        &&& t.node_spec(spine.last()).right_spec().is_null_spec()
    }
    &&& forall|i: int| 0 <= i < spine.len() ==> #[trigger] t.contains_spec(spine[i])
    &&& forall|i: int| 0 <= i < spine.len() - 1 ==> #[trigger] t.node_spec(spine[i]).right_spec() == spine[i + 1]
    &&& forall|i: int, k: int| 0 <= i < k < spine.len() ==> #[trigger] spine[i] != #[trigger] spine[k]
}

/// The parent link of a node of a well-formed tree is either null, naming no node, or
/// names a node of the tree.
proof fn lemma_parent_link<T>(t: BinaryTree<T>, z: NodeId)
    requires
        t.wf(),
        t.contains_spec(z),
    ensures
        t.node_spec(z).parent_spec().is_null_spec() <==> !t.contains_spec(t.node_spec(z).parent_spec()),
{
    let p = t.node_spec(z).parent_spec();
    assert(t.node_ok(z));
    if t.contains_spec(p) {
        lemma_contains_not_null(t, p);
    }
}

/// No node of the right spine at or below position `i` is in the left subtree of the
/// spine node at position `i`.
proof fn lemma_spine_left_disjoint<T>(t: BinaryTree<T>, spine: Seq<NodeId>, i: int, k: int)
    requires
        t.wf(),
        is_right_spine(t, spine),
        0 <= i <= k < spine.len(),
    ensures
        !subtree_ids(t, t.node_spec(spine[i]).left_spec()).contains(spine[k]),
    decreases k - i,
{
    let l = t.node_spec(spine[i]).left_spec();
    assert(t.contains_spec(spine[i]));
    assert(t.contains_spec(spine[k]));
    lemma_children_ranks(t, spine[i]);
    lemma_subtree_ids(t, l);
    if subtree_ids(t, l).contains(spine[k]) {
        assert(t.contains_spec(l));
        if k == i {
            assert(t.rank_spec(spine[i]) <= t.rank_spec(l));
        } else {
            assert(t.contains_spec(spine[k - 1]));
            assert(t.node_spec(spine[k - 1]).right_spec() == spine[k]);
            assert(t.node_ok(spine[k - 1]));
            lemma_contains_not_null(t, spine[k]);
            assert(t.node_spec(spine[k]).parent_spec() == spine[k - 1]);
            if spine[k] == l {
                assert(t.node_ok(spine[i]));
                lemma_contains_not_null(t, l);
                assert(t.node_spec(l).parent_spec() == spine[i]);
                if k - 1 != i {
                    assert(spine[i] != spine[k - 1]);
                }
                assert(t.node_spec(spine[i]).right_spec() == spine[i + 1]);
            } else {
                lemma_subtree_parent(t, l, spine[k]);
                lemma_spine_left_disjoint(t, spine, i, k - 1);
            }
        }
    }
}

/// Adding `nid` at the end of the inorder sequence below the spine node at position `j`
/// adds it at the end of the inorder sequence below every spine node above.
proof fn lemma_spine_append<T>(
    t0: BinaryTree<T>,
    t: BinaryTree<T>,
    spine: Seq<NodeId>,
    j: int,
    nid: NodeId,
    i: int,
)
    requires
        t0.wf(),
        t.wf(),
        is_right_spine(t0, spine),
        0 <= i <= j < spine.len(),
        traversal_ids(t, spine[j], TraversalOrder::Inorder) == traversal_ids(t0, spine[j], TraversalOrder::Inorder).push(nid),
        forall|m: int| i <= m < j ==> {
            &&& #[trigger] t.contains_spec(spine[m])
            &&& t.node_spec(spine[m]).left_spec() == t0.node_spec(spine[m]).left_spec()
            &&& t.node_spec(spine[m]).right_spec() == spine[m + 1]
            &&& same_below(t0, t, t0.node_spec(spine[m]).left_spec())
        },
    ensures
        traversal_ids(t, spine[i], TraversalOrder::Inorder) == traversal_ids(t0, spine[i], TraversalOrder::Inorder).push(nid),
    decreases j - i,
{
    if i < j {
        lemma_spine_append(t0, t, spine, j, nid, i + 1);
        let x = spine[i];
        assert(t.contains_spec(x));
        assert(t0.contains_spec(x));
        assert(t0.contains_spec(spine[i + 1]));
        let l = t0.node_spec(x).left_spec();
        lemma_traversal_frame(t0, t, l, TraversalOrder::Inorder);
        lemma_children_ranks(t0, x);
        lemma_children_ranks(t, x);
        assert(t0.node_spec(x).right_spec() == spine[i + 1]);
        let tl = if t0.contains_spec(l) { traversal_ids(t0, l, TraversalOrder::Inorder) } else { Seq::empty() };
        let tl1 = if t.contains_spec(l) { traversal_ids(t, l, TraversalOrder::Inorder) } else { Seq::empty() };
        assert(tl == tl1);
        let r0 = traversal_ids(t0, spine[i + 1], TraversalOrder::Inorder);
        assert(traversal_ids(t0, x, TraversalOrder::Inorder) == tl + seq![x] + r0);
        assert(traversal_ids(t, x, TraversalOrder::Inorder) == tl + seq![x] + r0.push(nid));
        assert(tl + seq![x] + r0.push(nid) == (tl + seq![x] + r0).push(nid));
    }
}

/// A Cartesian tree: a binary tree that is a heap in the order of `C`, with the keys
/// kept in the order in which they were given when read from left to right.
pub struct CartesianTree<K, V, C>(BinaryTree<CartesianNode<K, V>>, PhantomData<C>);

impl<K, V, C> CartesianTree<K, V, C> {
    /// The binary tree holding the nodes.
    pub closed spec fn inner_spec(self) -> BinaryTree<CartesianNode<K, V>> {
        self.0
    }

    /// The binary tree holding the nodes is well formed.
    #[verifier::type_invariant]
    spec fn inner_wf(self) -> bool {
        self.0.wf()
    }

    /// An empty tree.
    pub fn new() -> (r: Self)
        ensures
            r.inner_spec().wf(),
            r.inner_spec().len_spec() == 0,
            r.inner_spec().root_spec().is_null_spec(),
    {
        CartesianTree(BinaryTree::new(), PhantomData)
    }

    /// The binary tree holding the nodes.
    pub fn inner(&self) -> (r: &BinaryTree<CartesianNode<K, V>>)
        ensures
            *r == self.inner_spec(),
            r.wf(),
    {
        proof {
            use_type_invariant(self);
        }
        &self.0
    }
}

impl<K: Ord, V, C: Comparer> CartesianTree<K, V, C> {
    /// Builds the Cartesian tree of the sequence of key-value pairs: each pair is added
    /// below the last node on the path from the root along right children whose key does
    /// not come after its own, taking that node's right subtree as its left subtree.
    pub fn from_iter(items: Vec<(K, V)>) -> (r: Self)
        requires
            key_order_laws::<K>(),
            items.len() + 1 < usize::MAX,
        ensures
            r.inner_spec().wf(),
            r.inner_spec().len_spec() == items.len(),
            is_heap::<C, K, V>(r.inner_spec()),
            data_of(r.inner_spec(), traversal_ids(r.inner_spec(), r.inner_spec().root_spec(), TraversalOrder::Inorder))
                == items@.map_values(|p: (K, V)| node_of(p)),
    {
        proof {
            lemma_key_order::<K>();
        }
        let mut tree: BinaryTree<CartesianNode<K, V>> = BinaryTree::new();
        let mut cursor = tree.cursor_mut();
        let ghost mut spine: Seq<NodeId> = Seq::empty();
        let ghost n = items.len();
        let ghost items_seq = items@;
        let ghost mut ids: Seq<NodeId> = Seq::empty();
        let mut count: usize = 0;
        for item in it: items.into_iter()
            invariant
                cursor.tree_spec().wf(),
                after_borrow(tree) == *final(cursor.tree_ref()),
                is_heap::<C, K, V>(cursor.tree_spec()),
                is_right_spine(cursor.tree_spec(), spine),
                spine.len() > 0 ==> cursor.id_spec() == spine.last(),
                spine.len() == 0 ==> !cursor.at_node(),
                cursor.tree_spec().len_spec() == count,
                cursor.tree_spec().slots_spec() <= count,
                count == it.index(),
                it.seq().len() == n,
                it.seq() == items_seq,
                n + 1 < usize::MAX,
                key_order_laws::<K>(),
                ids.len() == count,
                traversal_ids(cursor.tree_spec(), cursor.tree_spec().root_spec(), TraversalOrder::Inorder) == ids,
                forall|k: int| 0 <= k < ids.len() ==> #[trigger] cursor.tree_spec().contains_spec(ids[k])
                    && cursor.tree_spec().node_spec(ids[k]).data_spec() == node_of(items_seq[k]),
        {
            let ghost item0 = item;
            assert(item0 == items_seq[count as int]);
            let (key, value) = item;
            let ghost t0 = cursor.tree_spec();
            let ghost mut j: int = spine.len() - 1;
            loop
                invariant
                    cursor.tree_spec() == t0,
                    after_borrow(tree) == *final(cursor.tree_ref()),
                    t0.wf(),
                    is_right_spine(t0, spine),
                    -1 <= j < spine.len(),
                    j >= 0 ==> cursor.id_spec() == spine[j],
                    j == -1 ==> !cursor.at_node(),
                    forall|i: int| j < i < spine.len() ==> #[trigger] heap_after::<C, K>(key_at(t0, spine[i]), key),
                    key_order_laws::<K>(),
                ensures
                    j >= 0 ==> !heap_after::<C, K>(key_at(t0, spine[j]), key),
                decreases j + 1,
            {
                let greater = match cursor.as_cursor().get() {
                    Some(node) => C::compare(node.key(), &key) == KeyOrder::Greater,
                    None => false,
                };
                if !greater {
                    break;
                }
                proof {
                    lemma_key_order::<K>();
                    assert(t0.contains_spec(spine[j]));
                    assert(t0.node_ok(spine[j]));
                    lemma_parent_link(t0, spine[j]);
                    if j > 0 {
                        assert(t0.contains_spec(spine[j - 1]));
                        assert(t0.node_spec(spine[j - 1]).right_spec() == spine[j]);
                        assert(t0.node_ok(spine[j - 1]));
                        lemma_contains_not_null(t0, spine[j]);
                    }
                }
                cursor.move_up();
                proof {
                    j = j - 1;
                }
            }
            let new_node = CartesianNode { key, value };
            let ghost nd = new_node;
            let at_node = match cursor.as_cursor().get() {
                Some(_) => true,
                None => false,
            };
            if !at_node {
                proof {
                    lemma_key_order::<K>();
                }
                cursor.re_root_tree(new_node, Side::Left);
                proof {
                    let t = cursor.tree_spec();
                    let nid = cursor.id_spec();
                    if spine.len() > 0 {
                        lemma_relink(t0.node_spec(spine[0]), nid, Side::Left);
                    }
                    assert forall|z: NodeId| #[trigger] t.contains_spec(z) && t.contains_spec(t.node_spec(z).parent_spec())
                        implies !heap_after::<C, K>(key_at(t, t.node_spec(z).parent_spec()), key_at(t, z)) by {
                        if z == nid {
                            lemma_parent_link(t, z);
                        } else if spine.len() > 0 && z == spine[0] {
                            assert(heap_after::<C, K>(key_at(t0, spine[0]), nd.key_spec()));
                            assert(key_at(t, nid) == nd.key_spec());
                            assert(key_at(t, z) == key_at(t0, z));
                        } else {
                            assert(t0.contains_spec(z));
                            lemma_contains_not_null(t0, z);
                            assert(!set![nid, t0.root_spec()].contains(z));
                            let p = t0.node_spec(z).parent_spec();
                            assert(t.node_spec(z) == t0.node_spec(z));
                            lemma_parent_link(t0, z);
                            lemma_contains_not_null(t, p);
                            assert(t0.contains_spec(p));
                            if spine.len() > 0 && p == spine[0] {
                                assert(key_at(t, p) == key_at(t0, p));
                            } else {
                                assert(p != nid);
                                assert(t.node_spec(p) == t0.node_spec(p));
                            }
                        }
                    }
                    spine = seq![nid];
                    let r0 = t0.root_spec();
                    if t0.contains_spec(r0) {
                        lemma_subtree_ids(t0, r0);
                        assert forall|z: NodeId| #[trigger] subtree_ids(t0, r0).contains(z) implies {
                            &&& t.contains_spec(z)
                            &&& t.node_spec(z).left_spec() == t0.node_spec(z).left_spec()
                            &&& t.node_spec(z).right_spec() == t0.node_spec(z).right_spec()
                        } by {
                            assert(t0.contains_spec(z));
                            if z == r0 {
                                lemma_relink(t0.node_spec(r0), nid, Side::Left);
                            } else {
                                lemma_contains_not_null(t0, z);
                                assert(!set![nid, r0].contains(z));
                            }
                        }
                        lemma_traversal_frame(t0, t, r0, TraversalOrder::Inorder);
                    } else {
                        if t.contains_spec(r0) {
                            lemma_contains_not_null(t, r0);
                        }
                    }
                    lemma_children_ranks(t, nid);
                    if t.contains_spec(t.node_spec(nid).right_spec()) {
                        lemma_contains_not_null(t, t.node_spec(nid).right_spec());
                    }
                    let ln = t.node_spec(nid).left_spec();
                    let tl = if t.contains_spec(ln) { traversal_ids(t, ln, TraversalOrder::Inorder) } else { Seq::empty() };
                    if !t0.contains_spec(r0) {
                        NodeId::lemma_null_is_null();
                        if t.contains_spec(ln) {
                            lemma_contains_not_null(t, ln);
                        }
                    }
                    assert(tl == ids);
                    assert(traversal_ids(t, nid, TraversalOrder::Inorder) == tl + seq![nid]);
                    assert(traversal_ids(t, nid, TraversalOrder::Inorder) == ids.push(nid));
                    assert forall|k: int| 0 <= k < ids.len() implies #[trigger] t.contains_spec(ids[k])
                        && t.node_spec(ids[k]).data_spec() == node_of(items_seq[k]) by {
                        assert(t0.contains_spec(ids[k]));
                        if ids[k] == r0 {
                            lemma_relink(t0.node_spec(r0), nid, Side::Left);
                        } else {
                            lemma_contains_not_null(t0, ids[k]);
                            assert(!set![nid, r0].contains(ids[k]));
                        }
                    }
                    ids = ids.push(nid);
                }
            } else {
                proof {
                    lemma_key_order::<K>();
                }
                let ghost c = cursor.id_spec();
                let ghost d = t0.node_spec(c).right_spec();
                let _ = cursor.attach_or_insert_child(new_node, Side::Right);
                let ghost t1 = cursor.tree_spec();
                let ghost nid = t1.node_spec(c).right_spec();
                proof {
                    lemma_relink(t0.node_spec(c), nid, Side::Right);
                }
                cursor.move_right();
                let _ = cursor.swap_children();
                proof {
                    let t = cursor.tree_spec();
                    lemma_swapped(t1.node_spec(nid));
                    assert(j >= 0);
                    assert(t0.contains_spec(spine[j]));
                    assert(t0.node_ok(c));
                    if t0.contains_spec(d) {
                        lemma_contains_not_null(t0, d);
                        lemma_relink(t0.node_spec(d), nid, Side::Left);
                        assert(j + 1 < spine.len());
                        assert(spine[j + 1] == d);
                        assert(heap_after::<C, K>(key_at(t0, spine[j + 1]), nd.key_spec()));
                    } else {
                        assert(j + 1 == spine.len()) by {
                            if j + 1 < spine.len() {
                                assert(t0.contains_spec(spine[j + 1]));
                            }
                        }
                    }
                    assert forall|z: NodeId| #[trigger] t.contains_spec(z) && t.contains_spec(t.node_spec(z).parent_spec())
                        implies !heap_after::<C, K>(key_at(t, t.node_spec(z).parent_spec()), key_at(t, z)) by {
                        if z == nid {
                            assert(t.node_spec(nid).parent_spec() == c);
                            assert(key_at(t, c) == key_at(t0, c));
                        } else if z == d && t0.contains_spec(d) {
                            assert(t.node_spec(d).parent_spec() == nid);
                            assert(key_at(t, d) == key_at(t0, d));
                        } else if z == c {
                            lemma_relink(t0.node_spec(c), nid, Side::Right);
                            let p = t0.node_spec(c).parent_spec();
                            lemma_parent_link(t0, c);
                            lemma_contains_not_null(t, p);
                            assert(t0.contains_spec(p));
                            assert(t0.node_ok(p));
                            assert(p != c && p != d && p != nid);
                            assert(t.node_spec(p) == t0.node_spec(p));
                        } else {
                            assert(t0.contains_spec(z));
                            assert(!set![c, nid, d].contains(z));
                            let p = t0.node_spec(z).parent_spec();
                            assert(t1.node_spec(z) == t0.node_spec(z));
                            assert(t.node_spec(z) == t0.node_spec(z));
                            lemma_parent_link(t0, z);
                            lemma_contains_not_null(t, p);
                            assert(t0.contains_spec(p));
                            assert(p != nid);
                            if p == c {
                                assert(key_at(t, p) == key_at(t0, p));
                            } else if p == d {
                                assert(key_at(t, p) == key_at(t0, p));
                            } else {
                                assert(t.node_spec(p) == t0.node_spec(p));
                            }
                        }
                    }
                    let old_spine = spine;
                    let new_spine = spine.subrange(0, j + 1).push(nid);
                    assert forall|i: int| 0 <= i < new_spine.len() - 1 implies #[trigger] t.node_spec(new_spine[i]).right_spec()
                        == new_spine[i + 1] by {
                        if i < j {
                            assert(t0.node_spec(spine[i]).right_spec() == spine[i + 1]);
                            assert(t0.contains_spec(spine[i]));
                            lemma_contains_not_null(t0, spine[i]);
                            assert(spine[i] != spine[j]);
                            if t0.contains_spec(d) {
                                assert(spine[i] != spine[j + 1]);
                            }
                            assert(!set![c, nid, d].contains(spine[i]));
                            assert(t1.node_spec(spine[i]) == t0.node_spec(spine[i]));
                        } else {
                            assert(t.node_spec(c) == t1.node_spec(c));
                        }
                    }
                    assert(t0.contains_spec(spine[0]));
                    lemma_contains_not_null(t0, spine[0]);
                    assert(t.root_spec() == new_spine[0]);
                    if j == 0 {
                        assert(t.node_spec(c) == t1.node_spec(c));
                    } else {
                        assert(t0.contains_spec(spine[0]));
                        lemma_contains_not_null(t0, spine[0]);
                        assert(spine[0] != spine[j]);
                        if t0.contains_spec(d) {
                            assert(spine[0] != spine[j + 1]);
                        }
                        assert(!set![c, nid, d].contains(spine[0]));
                        assert(t1.node_spec(spine[0]) == t0.node_spec(spine[0]));
                    }
                    assert(t.node_spec(new_spine[0]).parent_spec().is_null_spec());
                    assert(t.node_spec(new_spine.last()).right_spec().is_null_spec());
                    assert forall|i: int| 0 <= i < new_spine.len() implies #[trigger] t.contains_spec(new_spine[i]) by {
                        if i <= j {
                            assert(t0.contains_spec(spine[i]));
                        }
                    }
                    assert forall|i: int, k: int| 0 <= i < k < new_spine.len() implies #[trigger] new_spine[i]
                        != #[trigger] new_spine[k] by {
                        if k == new_spine.len() - 1 {
                            assert(t0.contains_spec(spine[i]));
                        } else {
                            assert(spine[i] != spine[k]);
                        }
                    }
                    spine = new_spine;
                    // The inorder sequence gains the new node at its end.
                    let sp = old_spine;
                    assert forall|m: int| 0 <= m <= j implies same_below(t0, t, #[trigger] t0.node_spec(sp[m]).left_spec()) by {
                        let l = t0.node_spec(sp[m]).left_spec();
                        assert(t0.contains_spec(sp[m]));
                        assert(t0.node_ok(sp[m]));
                        if !t0.contains_spec(l) && t.contains_spec(l) {
                            lemma_contains_not_null(t, l);
                        }
                        lemma_subtree_ids(t0, l);
                        assert forall|z: NodeId| #[trigger] subtree_ids(t0, l).contains(z) implies {
                            &&& t.contains_spec(z)
                            &&& t.node_spec(z).left_spec() == t0.node_spec(z).left_spec()
                            &&& t.node_spec(z).right_spec() == t0.node_spec(z).right_spec()
                        } by {
                            assert(t0.contains_spec(z));
                            lemma_spine_left_disjoint(t0, sp, m, j);
                            if t0.contains_spec(d) {
                                lemma_spine_left_disjoint(t0, sp, m, j + 1);
                            } else {
                                lemma_contains_not_null(t0, z);
                            }
                            assert(!set![c, nid, d].contains(z));
                            assert(t1.node_spec(z) == t0.node_spec(z));
                        }
                    }
                    assert forall|m: int| 0 <= m < j implies {
                        &&& #[trigger] t.contains_spec(sp[m])
                        &&& t.node_spec(sp[m]).left_spec() == t0.node_spec(sp[m]).left_spec()
                        &&& t.node_spec(sp[m]).right_spec() == sp[m + 1]
                        &&& same_below(t0, t, t0.node_spec(sp[m]).left_spec())
                    } by {
                        assert(t0.contains_spec(sp[m]));
                        lemma_contains_not_null(t0, sp[m]);
                        assert(sp[m] != sp[j]);
                        if t0.contains_spec(d) {
                            assert(sp[m] != sp[j + 1]);
                        }
                        assert(!set![c, nid, d].contains(sp[m]));
                        assert(t1.node_spec(sp[m]) == t0.node_spec(sp[m]));
                        assert(t0.node_spec(sp[m]).right_spec() == sp[m + 1]);
                        assert(same_below(t0, t, t0.node_spec(sp[m]).left_spec()));
                    }
                    // Below the new node: the old right subtree of `c`, then the new node.
                    if t0.contains_spec(d) {
                        lemma_subtree_ids(t0, d);
                        lemma_children_ranks(t0, c);
                        assert forall|z: NodeId| #[trigger] subtree_ids(t0, d).contains(z) implies {
                            &&& t.contains_spec(z)
                            &&& t.node_spec(z).left_spec() == t0.node_spec(z).left_spec()
                            &&& t.node_spec(z).right_spec() == t0.node_spec(z).right_spec()
                        } by {
                            assert(t0.contains_spec(z));
                            if z == d {
                                lemma_relink(t0.node_spec(d), nid, Side::Left);
                            } else {
                                assert(z != c);
                                assert(!set![c, nid, d].contains(z));
                                assert(t1.node_spec(z) == t0.node_spec(z));
                            }
                        }
                        lemma_traversal_frame(t0, t, d, TraversalOrder::Inorder);
                    } else {
                        if t.contains_spec(d) {
                            lemma_contains_not_null(t, d);
                        }
                    }
                    lemma_children_ranks(t, nid);
                    if t.contains_spec(t.node_spec(nid).right_spec()) {
                        lemma_contains_not_null(t, t.node_spec(nid).right_spec());
                    }
                    let td = if t0.contains_spec(d) { traversal_ids(t0, d, TraversalOrder::Inorder) } else { Seq::empty() };
                    assert(traversal_ids(t, nid, TraversalOrder::Inorder) == td.push(nid));
                    // At `c`: its left subtree, itself, then the new node's sequence.
                    let lc = t0.node_spec(c).left_spec();
                    assert(same_below(t0, t, t0.node_spec(sp[j]).left_spec()));
                    lemma_traversal_frame(t0, t, lc, TraversalOrder::Inorder);
                    lemma_children_ranks(t0, c);
                    lemma_children_ranks(t, c);
                    assert(t.node_spec(c).left_spec() == lc);
                    assert(t.node_spec(c).right_spec() == nid);
                    let tl = if t0.contains_spec(lc) { traversal_ids(t0, lc, TraversalOrder::Inorder) } else { Seq::empty() };
                    let tl1 = if t.contains_spec(lc) { traversal_ids(t, lc, TraversalOrder::Inorder) } else { Seq::empty() };
                    assert(tl == tl1);
                    assert(traversal_ids(t0, c, TraversalOrder::Inorder) == tl + seq![c] + td);
                    assert(traversal_ids(t, c, TraversalOrder::Inorder) == tl + seq![c] + td.push(nid));
                    assert(tl + seq![c] + td.push(nid) == (tl + seq![c] + td).push(nid));
                    lemma_spine_append(t0, t, sp, j, nid, 0);
                    assert(t0.root_spec() == sp[0]);
                    assert forall|k: int| 0 <= k < ids.len() implies #[trigger] t.contains_spec(ids[k])
                        && t.node_spec(ids[k]).data_spec() == node_of(items_seq[k]) by {
                        assert(t0.contains_spec(ids[k]));
                        if ids[k] == c {
                            lemma_relink(t0.node_spec(c), nid, Side::Right);
                        } else if ids[k] == d {
                            lemma_relink(t0.node_spec(d), nid, Side::Left);
                        } else {
                            assert(!set![c, nid, d].contains(ids[k]));
                            assert(t1.node_spec(ids[k]) == t0.node_spec(ids[k]));
                        }
                    }
                    ids = ids.push(nid);
                }
            }
            proof {
                let t = cursor.tree_spec();
                let nid = ids.last();
                assert(nd == node_of(item0));
                assert(t.node_spec(nid).data_spec() == nd);
                assert(t.contains_spec(nid));
            }
            count = count + 1;
        }
        proof {
            let t = cursor.tree_spec();
            assert(count == n);
            assert(ids.len() == items_seq.len());
            assert forall|k: int| 0 <= k < ids.len() implies #[trigger] data_of(t, ids)[k] == items_seq.map_values(
                |p: (K, V)| node_of(p),
            )[k] by {
                assert(t.contains_spec(ids[k]));
            }
            assert(data_of(t, traversal_ids(t, t.root_spec(), TraversalOrder::Inorder)) =~= items_seq.map_values(
                |p: (K, V)| node_of(p),
            ));
        }
        proof {
            cursor.lemma_resolved();
        }
        CartesianTree(tree, PhantomData)
    }
}

/// The ways in which a binary tree can fail to be a Cartesian tree.
#[derive(Clone, Debug, PartialEq, Eq)]
pub enum CartesianTreeError {
    /// The tree is not a heap in the named order.
    HeapError(String),
}

/// The subtree below the node `id` is a heap in the order of `C`: no node's key there comes
/// after the key of one of its children.
pub open spec fn heap_below<C: Comparer, K: Ord, V>(t: BinaryTree<CartesianNode<K, V>>, id: NodeId) -> bool
    decreases t.rank_spec(id),
    when t.wf()
{
    if !t.contains_spec(id) {
        true
    } else {
        let n = t.node_spec(id);
        proof {
            lemma_children_ranks(t, id);
        }
        &&& (t.contains_spec(n.left_spec()) ==> !heap_after::<C, K>(key_at(t, id), key_at(t, n.left_spec()))
            && heap_below::<C, K, V>(t, n.left_spec()))
        &&& (t.contains_spec(n.right_spec()) ==> !heap_after::<C, K>(key_at(t, id), key_at(t, n.right_spec()))
            && heap_below::<C, K, V>(t, n.right_spec()))
    }
}

/// Every node below `id`, other than `id` itself, has a key that does not come before its
/// parent's key in the heap order of `C`: no smaller key below a larger one for a min-heap,
/// no larger key below a smaller one for a max-heap.
pub open spec fn parents_in_heap_order<C: Comparer, K: Ord, V>(t: BinaryTree<CartesianNode<K, V>>, id: NodeId) -> bool {
    forall|z: NodeId| #[trigger] subtree_ids(t, id).contains(z) && z != id ==> {
        let kp = key_at(t, t.node_spec(z).parent_spec());
        let kz = key_at(t, z);
        if C::reversed() {
            !lt(kp, kz)
        } else {
            !lt(kz, kp)
        }
    }
}

/// The subtree below `id` is a heap in the order of `C` exactly when every node in it, but
/// its top, keeps the heap order with its parent.
pub proof fn lemma_heap_below_parents<C: Comparer, K: Ord, V>(t: BinaryTree<CartesianNode<K, V>>, id: NodeId)
    requires
        t.wf(),
    ensures
        heap_below::<C, K, V>(t, id) <==> parents_in_heap_order::<C, K, V>(t, id),
    decreases t.rank_spec(id),
{
    lemma_subtree_ids(t, id);
    if t.contains_spec(id) {
        let n = t.node_spec(id);
        let l = n.left_spec();
        let r = n.right_spec();
        lemma_children_ranks(t, id);
        lemma_subtree_split(t, id);
        assert(t.node_ok(id));
        lemma_subtree_ids(t, l);
        lemma_subtree_ids(t, r);
        if t.contains_spec(l) {
            lemma_heap_below_parents::<C, K, V>(t, l);
        }
        if t.contains_spec(r) {
            lemma_heap_below_parents::<C, K, V>(t, r);
        }
        if t.contains_spec(l) {
            lemma_contains_not_null(t, l);
            assert(subtree_ids(t, l).contains(l));
        }
        if t.contains_spec(r) {
            lemma_contains_not_null(t, r);
            assert(subtree_ids(t, r).contains(r));
        }
        if parents_in_heap_order::<C, K, V>(t, id) {
            assert forall|z: NodeId| #[trigger] subtree_ids(t, l).contains(z) && z != l implies {
                let kp = key_at(t, t.node_spec(z).parent_spec());
                let kz = key_at(t, z);
                if C::reversed() {
                    !lt(kp, kz)
                } else {
                    !lt(kz, kp)
                }
            } by {
                assert(subtree_ids(t, id).contains(z) && z != id);
            }
            assert forall|z: NodeId| #[trigger] subtree_ids(t, r).contains(z) && z != r implies {
                let kp = key_at(t, t.node_spec(z).parent_spec());
                let kz = key_at(t, z);
                if C::reversed() {
                    !lt(kp, kz)
                } else {
                    !lt(kz, kp)
                }
            } by {
                assert(subtree_ids(t, id).contains(z) && z != id);
            }
            if t.contains_spec(l) {
                assert(subtree_ids(t, id).contains(l) && l != id);
            }
            if t.contains_spec(r) {
                assert(subtree_ids(t, id).contains(r) && r != id);
            }
        }
        if heap_below::<C, K, V>(t, id) {
            assert forall|z: NodeId| #[trigger] subtree_ids(t, id).contains(z) && z != id implies {
                let kp = key_at(t, t.node_spec(z).parent_spec());
                let kz = key_at(t, z);
                if C::reversed() {
                    !lt(kp, kz)
                } else {
                    !lt(kz, kp)
                }
            } by {
                if subtree_ids(t, l).contains(z) {
                    if z == l {
                        assert(t.node_spec(l).parent_spec() == id);
                    }
                } else {
                    assert(subtree_ids(t, r).contains(z));
                    if z == r {
                        assert(t.node_spec(r).parent_spec() == id);
                    }
                }
            }
        }
    }
}

/// Checks the heap order below the node the cursor points at.
fn is_heap_recursive<K: Ord, V, C: Comparer>(cursor: Cursor<'_, CartesianNode<K, V>>) -> (r: bool)
    requires
        key_order_laws::<K>(),
        cursor.tree_spec().wf(),
    ensures
        r == heap_below::<C, K, V>(cursor.tree_spec(), cursor.id_spec()),
    decreases cursor_rank(cursor),
{
    let ghost t = cursor.tree_spec();
    let ghost id = cursor.id_spec();
    let node = match cursor.get() {
        Some(node) => node,
        None => return true,
    };
    proof {
        lemma_children_ranks(t, id);
    }
    match cursor.peek_left() {
        Some(left) => {
            if C::compare(node.key(), left.key()) == KeyOrder::Greater {
                return false;
            }
            let mut left_cursor = cursor.clone();
            left_cursor.move_left();
            if !is_heap_recursive::<K, V, C>(left_cursor) {
                return false;
            }
        },
        None => {},
    }
    match cursor.peek_right() {
        Some(right) => {
            if C::compare(node.key(), right.key()) == KeyOrder::Greater {
                return false;
            }
            let mut right_cursor = cursor.clone();
            right_cursor.move_right();
            if !is_heap_recursive::<K, V, C>(right_cursor) {
                return false;
            }
        },
        None => {},
    }
    true
}

impl<K: Ord, V, C: Comparer> CartesianTree<K, V, C> {
    /// Accepts a binary tree as a Cartesian tree if the part below its root is a heap in
    /// the order of `C`; otherwise the error names the order.
    pub fn from_binary_tree(tree: BinaryTree<CartesianNode<K, V>>) -> (r: Result<Self, CartesianTreeError>)
        requires
            key_order_laws::<K>(),
            tree.wf(),
        ensures
            heap_below::<C, K, V>(tree, tree.root_spec()) ==> r is Ok && r.unwrap().inner_spec() == tree,
            !heap_below::<C, K, V>(tree, tree.root_spec()) ==> r is Err && r->Err_0 is HeapError
                && r->Err_0->HeapError_0@ == C::name_spec(),
            r is Ok <==> parents_in_heap_order::<C, K, V>(tree, tree.root_spec()),
    {
        proof {
            lemma_heap_below_parents::<C, K, V>(tree, tree.root_spec());
        }
        if !is_heap_recursive::<K, V, C>(tree.cursor()) {
            return Err(CartesianTreeError::HeapError(C::name().to_owned()));
        }
        Ok(CartesianTree(tree, PhantomData))
    }
}

/// In a tree where no key comes after one of its children's keys, every subtree is a heap:
/// so a tree built from a sequence is accepted when read back in.
pub proof fn lemma_heap_below<C: Comparer, K: Ord, V>(t: BinaryTree<CartesianNode<K, V>>, id: NodeId)
    requires
        t.wf(),
        is_heap::<C, K, V>(t),
    ensures
        heap_below::<C, K, V>(t, id),
    decreases t.rank_spec(id),
{
    if t.contains_spec(id) {
        let n = t.node_spec(id);
        lemma_children_ranks(t, id);
        assert(t.node_ok(id));
        if t.contains_spec(n.left_spec()) {
            lemma_contains_not_null(t, n.left_spec());
            assert(t.node_spec(n.left_spec()).parent_spec() == id);
            lemma_heap_below::<C, K, V>(t, n.left_spec());
        }
        if t.contains_spec(n.right_spec()) {
            lemma_contains_not_null(t, n.right_spec());
            assert(t.node_spec(n.right_spec()).parent_spec() == id);
            lemma_heap_below::<C, K, V>(t, n.right_spec());
        }
    }
}

} // verus!
