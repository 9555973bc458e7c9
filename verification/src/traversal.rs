use vstd::prelude::*;
use crate::side::Side;
use crate::binary_tree::{
    lemma_relink,
    BinaryTree,
    NodeId,
    Cursor,
    cursor_rank,
    lemma_children_ranks,
    subtree_ids,
    lemma_subtree_ids,
    lemma_contains_not_null,
};

verus! {

/// The order in which a traversal reports a node relative to its subtrees.
#[derive(Clone, Copy, Debug, PartialEq, Eq, Structural)]
pub enum TraversalOrder {
    /// The left subtree, then the node, then the right subtree.
    Inorder,
    /// The node, then the left subtree, then the right subtree.
    Preorder,
    /// The left subtree, then the right subtree, then the node.
    Postorder,
}

/// The ids of the nodes below `id`, in the given order.
pub open spec fn traversal_ids<T>(t: BinaryTree<T>, id: NodeId, order: TraversalOrder) -> Seq<NodeId>
    decreases t.rank_spec(id),
    when t.wf()
{
    if !t.contains_spec(id) {
        Seq::empty()
    } else {
        let n = t.node_spec(id);
        proof {
            lemma_children_ranks(t, id);
        }
        let l = if t.contains_spec(n.left_spec()) {
            traversal_ids(t, n.left_spec(), order)
        } else {
            Seq::empty()
        };
        let r = if t.contains_spec(n.right_spec()) {
            traversal_ids(t, n.right_spec(), order)
        } else {
            Seq::empty()
        };
        match order {
            TraversalOrder::Inorder => l + seq![id] + r,
            TraversalOrder::Preorder => seq![id] + l + r,
            TraversalOrder::Postorder => l + r + seq![id],
        }
    }
}

/// The data of the nodes with the given ids.
pub open spec fn data_of<T>(t: BinaryTree<T>, ids: Seq<NodeId>) -> Seq<T> {
    ids.map_values(|id: NodeId| t.node_spec(id).data_spec())
}

/// Appends the data of the nodes below the node the cursor points at, in the given
/// order.
fn collect<'t, T>(cursor: Cursor<'t, T>, order: TraversalOrder, out: &mut Vec<&'t T>)
    requires
        cursor.tree_spec().wf(),
    ensures
        final(out)@.len() == old(out)@.len() + traversal_ids(cursor.tree_spec(), cursor.id_spec(), order).len(),
        forall|i: int| 0 <= i < old(out)@.len() ==> #[trigger] final(out)@[i] == old(out)@[i],
        forall|j: int| old(out)@.len() <= j < final(out)@.len() ==> *(#[trigger] final(out)@[j]) == data_of(
            cursor.tree_spec(),
            traversal_ids(cursor.tree_spec(), cursor.id_spec(), order),
        )[j - old(out)@.len()],
    decreases cursor_rank(cursor),
{
    let ghost t = cursor.tree_spec();
    let ghost id = cursor.id_spec();
    let data = match cursor.get() {
        Some(data) => data,
        None => return,
    };
    proof {
        lemma_children_ranks(t, id);
    }
    let mut left_cursor = cursor.clone();
    let mut right_cursor = cursor.clone();
    left_cursor.move_left();
    right_cursor.move_right();
    let ghost n = t.node_spec(id);
    let ghost l = if t.contains_spec(n.left_spec()) {
        traversal_ids(t, n.left_spec(), order)
    } else {
        Seq::empty()
    };
    let ghost r = if t.contains_spec(n.right_spec()) {
        traversal_ids(t, n.right_spec(), order)
    } else {
        Seq::empty()
    };
    let ghost out0 = out@;
    match order {
        TraversalOrder::Inorder => {
            collect(left_cursor, order, out);
            out.push(data);
            collect(right_cursor, order, out);
            proof {
                let ids = traversal_ids(t, id, order);
                assert(ids == l + seq![id] + r);
                assert forall|j: int| out0.len() <= j < out@.len() implies *(#[trigger] out@[j]) == data_of(t, ids)[j
                    - out0.len()] by {
                }
            }
        },
        TraversalOrder::Preorder => {
            out.push(data);
            collect(left_cursor, order, out);
            collect(right_cursor, order, out);
            proof {
                let ids = traversal_ids(t, id, order);
                assert(ids == seq![id] + l + r);
                assert forall|j: int| out0.len() <= j < out@.len() implies *(#[trigger] out@[j]) == data_of(t, ids)[j
                    - out0.len()] by {
                }
            }
        },
        TraversalOrder::Postorder => {
            collect(left_cursor, order, out);
            collect(right_cursor, order, out);
            out.push(data);
            proof {
                let ids = traversal_ids(t, id, order);
                assert(ids == l + r + seq![id]);
                assert forall|j: int| out0.len() <= j < out@.len() implies *(#[trigger] out@[j]) == data_of(t, ids)[j
                    - out0.len()] by {
                }
            }
        },
    }
}

/// Appends the ids of the nodes below the node the cursor points at, in the given order.
fn collect_ids<T>(cursor: Cursor<'_, T>, order: TraversalOrder, out: &mut Vec<NodeId>)
    requires
        cursor.tree_spec().wf(),
    ensures
        final(out)@ == old(out)@ + traversal_ids(cursor.tree_spec(), cursor.id_spec(), order),
    decreases cursor_rank(cursor),
{
    let ghost t = cursor.tree_spec();
    let id = cursor.node_id();
    if cursor.get().is_none() {
        return;
    }
    proof {
        lemma_children_ranks(t, id);
    }
    let mut left_cursor = cursor.clone();
    let mut right_cursor = cursor.clone();
    left_cursor.move_left();
    right_cursor.move_right();
    let ghost out0 = out@;
    match order {
        TraversalOrder::Inorder => {
            collect_ids(left_cursor, order, out);
            out.push(id);
            collect_ids(right_cursor, order, out);
        },
        TraversalOrder::Preorder => {
            out.push(id);
            collect_ids(left_cursor, order, out);
            collect_ids(right_cursor, order, out);
        },
        TraversalOrder::Postorder => {
            collect_ids(left_cursor, order, out);
            collect_ids(right_cursor, order, out);
            out.push(id);
        },
    }
    proof {
        let n = t.node_spec(id);
        let l = if t.contains_spec(n.left_spec()) {
            traversal_ids(t, n.left_spec(), order)
        } else {
            Seq::empty()
        };
        let r = if t.contains_spec(n.right_spec()) {
            traversal_ids(t, n.right_spec(), order)
        } else {
            Seq::empty()
        };
        match order {
            TraversalOrder::Inorder => {
                assert(out@ =~= out0 + (l + seq![id] + r));
            },
            TraversalOrder::Preorder => {
                assert(out@ =~= out0 + (seq![id] + l + r));
            },
            TraversalOrder::Postorder => {
                assert(out@ =~= out0 + (l + r + seq![id]));
            },
        }
    }
}

impl<T> BinaryTree<T> {
    /// The ids of the nodes below the root, in the given order.
    pub fn traverse_ids(&self, order: TraversalOrder) -> (r: Vec<NodeId>)
        requires
            self.wf(),
        ensures
            r@ == traversal_ids(*self, self.root_spec(), order),
    {
        let mut out: Vec<NodeId> = Vec::new();
        collect_ids(self.cursor(), order, &mut out);
        proof {
            assert(out@ =~= Seq::<NodeId>::empty() + traversal_ids(*self, self.root_spec(), order));
        }
        out
    }

    /// The data of the nodes below the root, in the given order.
    pub fn traverse(&self, order: TraversalOrder) -> (r: Vec<&T>)
        requires
            self.wf(),
        ensures
            r@.len() == traversal_ids(*self, self.root_spec(), order).len(),
            forall|i: int| 0 <= i < r@.len() ==> *(#[trigger] r@[i]) == data_of(*self, traversal_ids(*self, self.root_spec(), order))[i],
    {
        let mut out: Vec<&T> = Vec::new();
        collect(self.cursor(), order, &mut out);
        out
    }

    /// The data of the nodes below the root, each node after its left subtree and before
    /// its right subtree.
    pub fn inorder_iter(&self) -> (r: Vec<&T>)
        requires
            self.wf(),
        ensures
            r@.len() == traversal_ids(*self, self.root_spec(), TraversalOrder::Inorder).len(),
            forall|i: int| 0 <= i < r@.len() ==> *(#[trigger] r@[i]) == data_of(*self, traversal_ids(*self, self.root_spec(), TraversalOrder::Inorder))[i],
    {
        self.traverse(TraversalOrder::Inorder)
    }

    /// The data of the nodes below the root, each node before its subtrees.
    pub fn preorder_iter(&self) -> (r: Vec<&T>)
        requires
            self.wf(),
        ensures
            r@.len() == traversal_ids(*self, self.root_spec(), TraversalOrder::Preorder).len(),
            forall|i: int| 0 <= i < r@.len() ==> *(#[trigger] r@[i]) == data_of(*self, traversal_ids(*self, self.root_spec(), TraversalOrder::Preorder))[i],
    {
        self.traverse(TraversalOrder::Preorder)
    }

    /// The data of the nodes below the root, each node after its subtrees.
    pub fn postorder_iter(&self) -> (r: Vec<&T>)
        requires
            self.wf(),
        ensures
            r@.len() == traversal_ids(*self, self.root_spec(), TraversalOrder::Postorder).len(),
            forall|i: int| 0 <= i < r@.len() ==> *(#[trigger] r@[i]) == data_of(*self, traversal_ids(*self, self.root_spec(), TraversalOrder::Postorder))[i],
    {
        self.traverse(TraversalOrder::Postorder)
    }
}

/// The subtree below the node `x` has the same child links in both trees.
pub open spec fn same_below<T, U>(t0: BinaryTree<T>, t1: BinaryTree<U>, x: NodeId) -> bool {
    &&& !t0.contains_spec(x) ==> !t1.contains_spec(x)
    &&& forall|z: NodeId| #[trigger] subtree_ids(t0, x).contains(z) ==> {
        &&& t1.contains_spec(z)
        &&& t1.node_spec(z).left_spec() == t0.node_spec(z).left_spec()
        &&& t1.node_spec(z).right_spec() == t0.node_spec(z).right_spec()
    }
}

/// A traversal below a node depends only on the child links of the nodes there.
pub proof fn lemma_traversal_frame<T, U>(t0: BinaryTree<T>, t1: BinaryTree<U>, x: NodeId, order: TraversalOrder)
    requires
        t0.wf(),
        t1.wf(),
        same_below(t0, t1, x),
    ensures
        traversal_ids(t1, x, order) == traversal_ids(t0, x, order),
        subtree_ids(t1, x) == subtree_ids(t0, x),
    decreases t0.rank_spec(x),
{
    if t0.contains_spec(x) {
        let n = t0.node_spec(x);
        lemma_children_ranks(t0, x);
        assert(subtree_ids(t0, x).contains(x));
        lemma_subtree_ids(t0, x);
        let l = n.left_spec();
        let r = n.right_spec();
        let sl = if t0.contains_spec(l) { subtree_ids(t0, l) } else { Set::empty() };
        let sr = if t0.contains_spec(r) { subtree_ids(t0, r) } else { Set::empty() };
        assert(subtree_ids(t0, x) == sl.union(sr).insert(x));
        if t0.contains_spec(l) {
            assert forall|z: NodeId| #[trigger] subtree_ids(t0, l).contains(z) implies subtree_ids(t0, x).contains(z) by {}
            lemma_traversal_frame(t0, t1, l, order);
        } else {
            assert(t0.node_ok(x));
            if t1.contains_spec(l) {
                lemma_contains_not_null(t1, l);
            }
        }
        if t0.contains_spec(r) {
            assert forall|z: NodeId| #[trigger] subtree_ids(t0, r).contains(z) implies subtree_ids(t0, x).contains(z) by {}
            lemma_traversal_frame(t0, t1, r, order);
        } else {
            assert(t0.node_ok(x));
            if t1.contains_spec(r) {
                lemma_contains_not_null(t1, r);
            }
        }
        lemma_children_ranks(t1, x);
    }
}

/// The parent of a node below `y`, other than `y` itself, is below `y` too.
pub proof fn lemma_subtree_parent<T>(t: BinaryTree<T>, y: NodeId, z: NodeId)
    requires
        t.wf(),
        subtree_ids(t, y).contains(z),
        z != y,
    ensures
        subtree_ids(t, y).contains(t.node_spec(z).parent_spec()),
    decreases t.rank_spec(y),
{
    assert(t.contains_spec(y));
    let n = t.node_spec(y);
    lemma_children_ranks(t, y);
    let l = n.left_spec();
    let r = n.right_spec();
    let sl = if t.contains_spec(l) { subtree_ids(t, l) } else { Set::empty() };
    let sr = if t.contains_spec(r) { subtree_ids(t, r) } else { Set::empty() };
    assert(subtree_ids(t, y) == sl.union(sr).insert(y));
    assert(t.node_ok(y));
    if sl.contains(z) {
        assert(t.contains_spec(l));
        if z == l {
            lemma_contains_not_null(t, l);
            assert(t.node_spec(l).parent_spec() == y);
        } else {
            lemma_subtree_parent(t, l, z);
            assert(sl.contains(t.node_spec(z).parent_spec()));
        }
    } else {
        assert(sr.contains(z));
        assert(t.contains_spec(r));
        if z == r {
            lemma_contains_not_null(t, r);
            assert(t.node_spec(r).parent_spec() == y);
        } else {
            lemma_subtree_parent(t, r, z);
            assert(sr.contains(t.node_spec(z).parent_spec()));
        }
    }
}

/// One line of the drawing of a tree: the branches drawn before it (`true` where a
/// vertical bar continues, `false` where there is blank space), whether it is drawn as a
/// left child, and the node it shows (the null id for an empty tree).
pub struct TreeLine {
    pub branches: Vec<bool>,
    pub is_left: bool,
    pub node: NodeId,
}

/// The lines drawing the subtree below `id`, drawn after the given branches: the node,
/// then its left subtree, then its right subtree.
pub open spec fn tree_lines<T>(t: BinaryTree<T>, id: NodeId, branches: Seq<bool>, is_left: bool) -> Seq<(Seq<bool>, bool, NodeId)>
    decreases t.rank_spec(id),
    when t.wf()
{
    if !t.contains_spec(id) {
        Seq::empty()
    } else {
        let n = t.node_spec(id);
        proof {
            lemma_children_ranks(t, id);
        }
        let below = branches.push(is_left);
        let l = if t.contains_spec(n.left_spec()) {
            tree_lines(t, n.left_spec(), below, true)
        } else {
            Seq::empty()
        };
        let r = if t.contains_spec(n.right_spec()) {
            tree_lines(t, n.right_spec(), below, false)
        } else {
            Seq::empty()
        };
        seq![(branches, is_left, id)] + l + r
    }
}

/// The view of a drawn line.
pub open spec fn line_view(line: TreeLine) -> (Seq<bool>, bool, NodeId) {
    (line.branches@, line.is_left, line.node)
}

/// A copy of the branches.
fn copy_branches(branches: &Vec<bool>) -> (r: Vec<bool>)
    ensures
        r@ == branches@,
{
    let mut r: Vec<bool> = Vec::new();
    let mut i: usize = 0;
    while i < branches.len()
        invariant
            i <= branches.len(),
            r@ == branches@.subrange(0, i as int),
        decreases branches.len() - i,
    {
        r.push(branches[i]);
        i = i + 1;
    }
    proof {
        assert(r@ =~= branches@);
    }
    r
}

/// Appends the lines drawing the subtree below the node the cursor points at.
fn collect_lines<T>(cursor: Cursor<'_, T>, branches: &Vec<bool>, is_left: bool, out: &mut Vec<TreeLine>)
    requires
        cursor.tree_spec().wf(),
    ensures
        final(out)@.map_values(|line: TreeLine| line_view(line)) == old(out)@.map_values(|line: TreeLine| line_view(line))
            + tree_lines(cursor.tree_spec(), cursor.id_spec(), branches@, is_left),
    decreases cursor_rank(cursor),
{
    let ghost t = cursor.tree_spec();
    let id = cursor.node_id();
    if cursor.get().is_none() {
        assert(out@.map_values(|line: TreeLine| line_view(line)) =~= out@.map_values(|line: TreeLine| line_view(line))
            + Seq::empty());
        return;
    }
    proof {
        lemma_children_ranks(t, id);
    }
    let ghost out0 = out@.map_values(|line: TreeLine| line_view(line));
    let here = copy_branches(branches);
    let mut below = copy_branches(branches);
    below.push(is_left);
    out.push(TreeLine { branches: here, is_left, node: id });
    let ghost out1 = out@.map_values(|line: TreeLine| line_view(line));
    proof {
        assert(out1 =~= out0 + seq![(branches@, is_left, id)]);
    }
    let mut left_cursor = cursor.clone();
    let mut right_cursor = cursor.clone();
    let has_left = left_cursor.try_move_left();
    let has_right = right_cursor.try_move_right();
    if has_left {
        collect_lines(left_cursor, &below, true, out);
    }
    let ghost out2 = out@.map_values(|line: TreeLine| line_view(line));
    if has_right {
        collect_lines(right_cursor, &below, false, out);
    }
    proof {
        let n = t.node_spec(id);
        if t.contains_spec(n.left_spec()) {
            lemma_contains_not_null(t, n.left_spec());
        }
        if t.contains_spec(n.right_spec()) {
            lemma_contains_not_null(t, n.right_spec());
        }
        if !has_left {
            assert(out2 =~= out1);
            if t.contains_spec(n.left_spec()) {
            }
        }
        if !has_right {
            assert(out@.map_values(|line: TreeLine| line_view(line)) =~= out2);
        }
        let l = if t.contains_spec(n.left_spec()) {
            tree_lines(t, n.left_spec(), below@, true)
        } else {
            Seq::empty()
        };
        let r = if t.contains_spec(n.right_spec()) {
            tree_lines(t, n.right_spec(), below@, false)
        } else {
            Seq::empty()
        };
        assert(tree_lines(t, id, branches@, is_left) == seq![(branches@, is_left, id)] + l + r);
        assert(out@.map_values(|line: TreeLine| line_view(line)) =~= out0 + (seq![(branches@, is_left, id)] + l + r));
    }
}

impl<T> BinaryTree<T> {
    /// The lines of a drawing of the tree: each node below the root, in preorder, with
    /// the branches drawn before it. An empty tree is drawn as one line showing the null
    /// id.
    pub fn layout(&self) -> (r: Vec<TreeLine>)
        requires
            self.wf(),
        ensures
            r@.map_values(|line: TreeLine| line_view(line)) == (if self.contains_spec(self.root_spec()) {
                tree_lines(*self, self.root_spec(), Seq::empty(), false)
            } else {
                seq![(Seq::<bool>::empty(), false, NodeId::null_spec())]
            }),
    {
        let mut out: Vec<TreeLine> = Vec::new();
        let cursor = self.cursor();
        if cursor.get().is_none() {
            out.push(TreeLine { branches: Vec::new(), is_left: false, node: NodeId::null() });
            proof {
                assert(out@.map_values(|line: TreeLine| line_view(line)) =~= seq![(Seq::<bool>::empty(), false, NodeId::null_spec())]);
            }
            return out;
        }
        let branches: Vec<bool> = Vec::new();
        collect_lines(cursor, &branches, false, &mut out);
        proof {
            assert(out@.map_values(|line: TreeLine| line_view(line)) =~= tree_lines(*self, self.root_spec(), Seq::empty(), false));
        }
        out
    }
}

/// Two subtrees that share a node are nested: one holds the top of the other.
pub proof fn lemma_subtrees_nested<T>(t: BinaryTree<T>, a: NodeId, b: NodeId, z: NodeId)
    requires
        t.wf(),
        subtree_ids(t, a).contains(z),
        subtree_ids(t, b).contains(z),
    ensures
        subtree_ids(t, b).contains(a) || subtree_ids(t, a).contains(b),
    decreases t.rank_spec(a) - t.rank_spec(z),
{
    lemma_subtree_ids(t, a);
    lemma_subtree_ids(t, b);
    if z != a && z != b {
        lemma_subtree_parent(t, a, z);
        lemma_subtree_parent(t, b, z);
        let p = t.node_spec(z).parent_spec();
        assert(t.contains_spec(z));
        assert(t.node_ok(z));
        lemma_contains_not_null(t, p);
        let sd = t.node_spec(p).side_of_spec(z).unwrap();
        assert(t.node_spec(p).child_spec(sd) == z);
        assert(t.node_ok(p));
        assert(t.rank_spec(z) < t.rank_spec(p));
        lemma_subtrees_nested(t, a, b, p);
    }
}

/// The subtree below `x` is `x` together with the subtrees below its children, which are
/// disjoint and do not hold `x`.
pub proof fn lemma_subtree_split<T>(t: BinaryTree<T>, x: NodeId)
    requires
        t.wf(),
        t.contains_spec(x),
    ensures
        ({
            let l = t.node_spec(x).left_spec();
            let r = t.node_spec(x).right_spec();
            let sl = subtree_ids(t, l);
            let sr = subtree_ids(t, r);
            &&& subtree_ids(t, x) == sl.union(sr).insert(x)
            &&& !sl.contains(x)
            &&& !sr.contains(x)
            &&& forall|z: NodeId| !(#[trigger] sl.contains(z) && sr.contains(z))
            &&& !t.contains_spec(l) ==> sl == Set::<NodeId>::empty()
            &&& !t.contains_spec(r) ==> sr == Set::<NodeId>::empty()
        }),
{
    let l = t.node_spec(x).left_spec();
    let r = t.node_spec(x).right_spec();
    lemma_children_ranks(t, x);
    lemma_subtree_ids(t, l);
    lemma_subtree_ids(t, r);
    assert(t.node_ok(x));
    if !t.contains_spec(l) {
        assert(subtree_ids(t, l) == Set::<NodeId>::empty());
    }
    if !t.contains_spec(r) {
        assert(subtree_ids(t, r) == Set::<NodeId>::empty());
    }
    assert forall|z: NodeId| !(#[trigger] subtree_ids(t, l).contains(z) && subtree_ids(t, r).contains(z)) by {
        if subtree_ids(t, l).contains(z) && subtree_ids(t, r).contains(z) {
            lemma_subtrees_nested(t, l, r, z);
            lemma_contains_not_null(t, l);
            lemma_contains_not_null(t, r);
            assert(subtree_ids(t, l).contains(l));
            assert(subtree_ids(t, r).contains(r));
            if subtree_ids(t, r).contains(l) {
                assert(l != r);
                lemma_subtree_parent(t, r, l);
                assert(t.node_spec(l).parent_spec() == x);
            } else {
                assert(subtree_ids(t, l).contains(r));
                lemma_subtree_parent(t, l, r);
                assert(t.node_spec(r).parent_spec() == x);
            }
        }
    }
}

/// The subtree below a node of a subtree lies inside that subtree.
pub proof fn lemma_subtree_nested<T>(t: BinaryTree<T>, y: NodeId, x: NodeId)
    requires
        t.wf(),
        subtree_ids(t, y).contains(x),
    ensures
        forall|w: NodeId| #[trigger] subtree_ids(t, x).contains(w) ==> subtree_ids(t, y).contains(w),
    decreases t.rank_spec(y),
{
    lemma_subtree_ids(t, y);
    if x != y {
        lemma_subtree_split(t, y);
        let l = t.node_spec(y).left_spec();
        let r = t.node_spec(y).right_spec();
        lemma_children_ranks(t, y);
        if subtree_ids(t, l).contains(x) {
            lemma_subtree_ids(t, l);
            lemma_subtree_nested(t, l, x);
        } else {
            lemma_subtree_ids(t, r);
            lemma_subtree_nested(t, r, x);
        }
    }
}

/// The part of the inorder sequence below `z` that comes before the nodes below `c`.
pub open spec fn inorder_before<T>(t: BinaryTree<T>, z: NodeId, c: NodeId) -> Seq<NodeId>
    decreases t.rank_spec(z),
    when t.wf()
{
    if !t.contains_spec(z) || z == c {
        Seq::empty()
    } else {
        let n = t.node_spec(z);
        proof {
            lemma_children_ranks(t, z);
        }
        if t.contains_spec(n.left_spec()) && subtree_ids(t, n.left_spec()).contains(c) {
            inorder_before(t, n.left_spec(), c)
        } else if t.contains_spec(n.right_spec()) {
            traversal_ids(t, n.left_spec(), TraversalOrder::Inorder) + seq![z] + inorder_before(t, n.right_spec(), c)
        } else {
            Seq::empty()
        }
    }
}

/// The part of the inorder sequence below `z` that comes after the nodes below `c`.
pub open spec fn inorder_after<T>(t: BinaryTree<T>, z: NodeId, c: NodeId) -> Seq<NodeId>
    decreases t.rank_spec(z),
    when t.wf()
{
    if !t.contains_spec(z) || z == c {
        Seq::empty()
    } else {
        let n = t.node_spec(z);
        proof {
            lemma_children_ranks(t, z);
        }
        if t.contains_spec(n.left_spec()) && subtree_ids(t, n.left_spec()).contains(c) {
            inorder_after(t, n.left_spec(), c) + seq![z] + traversal_ids(t, n.right_spec(), TraversalOrder::Inorder)
        } else if t.contains_spec(n.right_spec()) {
            inorder_after(t, n.right_spec(), c)
        } else {
            Seq::empty()
        }
    }
}

/// The inorder sequence below the node `id`.
pub open spec fn inorder<T>(t: BinaryTree<T>, id: NodeId) -> Seq<NodeId> {
    traversal_ids(t, id, TraversalOrder::Inorder)
}

/// The inorder sequence below the node `id` is its left subtree's, then `id`, then its right
/// subtree's.
pub proof fn lemma_inorder_unfold<T>(t: BinaryTree<T>, id: NodeId)
    requires
        t.wf(),
    ensures
        t.contains_spec(id) ==> inorder(t, id) == inorder(t, t.node_spec(id).left_spec()) + seq![id] + inorder(
            t,
            t.node_spec(id).right_spec(),
        ),
        !t.contains_spec(id) ==> inorder(t, id) == Seq::<NodeId>::empty(),
{
    if t.contains_spec(id) {
        let n = t.node_spec(id);
        lemma_children_ranks(t, id);
        assert(t.node_ok(id));
    }
}

/// The inorder sequence below `z` holds the one below `c`, a node below `z`, as a
/// contiguous part.
pub proof fn lemma_inorder_split<T>(t: BinaryTree<T>, z: NodeId, c: NodeId)
    requires
        t.wf(),
        subtree_ids(t, z).contains(c),
    ensures
        inorder(t, z) == inorder_before(t, z, c) + inorder(t, c) + inorder_after(t, z, c),
    decreases t.rank_spec(z),
{
    lemma_subtree_ids(t, z);
    lemma_inorder_unfold(t, z);
    if z != c {
        lemma_subtree_split(t, z);
        lemma_children_ranks(t, z);
        let l = t.node_spec(z).left_spec();
        let r = t.node_spec(z).right_spec();
        if subtree_ids(t, l).contains(c) {
            lemma_inorder_split(t, l, c);
        } else {
            lemma_inorder_split(t, r, c);
        }
    }
}

/// Replacing the subtree below `c` by the one below `c1`, where every node outside the
/// subtree keeps its links and a link to `c` now goes to `c1`, replaces its part of every
/// inorder sequence that holds it.
pub proof fn lemma_replace_below<T, U>(t0: BinaryTree<T>, t1: BinaryTree<U>, c: NodeId, c1: NodeId, z: NodeId)
    requires
        t0.wf(),
        t1.wf(),
        t0.contains_spec(c),
        t1.contains_spec(c1) || c1.is_null_spec(),
        subtree_ids(t0, z).contains(c),
        forall|w: NodeId| #[trigger] t0.contains_spec(w) && !subtree_ids(t0, c).contains(w) ==> {
            &&& t1.contains_spec(w)
            &&& t1.node_spec(w).left_spec() == (if t0.node_spec(w).left_spec() == c {
                c1
            } else {
                t0.node_spec(w).left_spec()
            })
            &&& t1.node_spec(w).right_spec() == (if t0.node_spec(w).right_spec() == c {
                c1
            } else {
                t0.node_spec(w).right_spec()
            })
        },
    ensures
        inorder(t1, if z == c { c1 } else { z }) == inorder_before(t0, z, c) + inorder(t1, c1) + inorder_after(t0, z, c),
    decreases t0.rank_spec(z),
{
    lemma_subtree_ids(t0, z);
    lemma_subtree_ids(t0, c);
    if z == c {
        assert(inorder_before(t0, z, c) == Seq::<NodeId>::empty());
        assert(inorder_after(t0, z, c) == Seq::<NodeId>::empty());
        assert(inorder(t1, c1) == Seq::<NodeId>::empty() + inorder(t1, c1) + Seq::<NodeId>::empty());
    } else {
        assert(t0.contains_spec(z));
        assert(!subtree_ids(t0, c).contains(z));
        assert(t1.contains_spec(z));
        lemma_subtree_split(t0, z);
        lemma_children_ranks(t0, z);
        lemma_inorder_unfold(t1, z);
        lemma_inorder_unfold(t0, z);
        let l = t0.node_spec(z).left_spec();
        let r = t0.node_spec(z).right_spec();
        lemma_contains_not_null(t0, c);
        if c1.is_null_spec() && t1.contains_spec(c1) {
            lemma_contains_not_null(t1, c1);
        }
        if subtree_ids(t0, l).contains(c) {
            lemma_subtree_nested(t0, l, c);
            // The right subtree keeps its links.
            assert(r != c);
            lemma_subtree_ids(t0, r);
            assert forall|w: NodeId| #[trigger] subtree_ids(t0, r).contains(w) implies {
                &&& t1.contains_spec(w)
                &&& t1.node_spec(w).left_spec() == t0.node_spec(w).left_spec()
                &&& t1.node_spec(w).right_spec() == t0.node_spec(w).right_spec()
            } by {
                assert(!subtree_ids(t0, c).contains(w));
                lemma_subtree_split(t0, w);
                lemma_subtree_nested(t0, r, w);
                let wl = t0.node_spec(w).left_spec();
                let wr = t0.node_spec(w).right_spec();
                lemma_subtree_ids(t0, wl);
                lemma_subtree_ids(t0, wr);
                if wl == c {
                    assert(subtree_ids(t0, wl).contains(c));
                    assert(subtree_ids(t0, w).contains(c));
                    assert(subtree_ids(t0, r).contains(c));
                }
                if wr == c {
                    assert(subtree_ids(t0, wr).contains(c));
                    assert(subtree_ids(t0, w).contains(c));
                    assert(subtree_ids(t0, r).contains(c));
                }
            }
            if !t0.contains_spec(r) && t1.contains_spec(r) {
                assert(t0.node_ok(z));
                lemma_contains_not_null(t1, r);
            }
            lemma_traversal_frame(t0, t1, r, TraversalOrder::Inorder);
            if l == c {
                assert(inorder_before(t0, l, c) == Seq::<NodeId>::empty());
                assert(inorder_after(t0, l, c) == Seq::<NodeId>::empty());
            } else {
                lemma_subtree_ids(t0, l);
                assert(!subtree_ids(t0, c).contains(l));
                lemma_replace_below(t0, t1, c, c1, l);
            }
        } else {
            assert(subtree_ids(t0, r).contains(c));
            lemma_subtree_nested(t0, r, c);
            assert(l != c);
            lemma_subtree_ids(t0, l);
            assert forall|w: NodeId| #[trigger] subtree_ids(t0, l).contains(w) implies {
                &&& t1.contains_spec(w)
                &&& t1.node_spec(w).left_spec() == t0.node_spec(w).left_spec()
                &&& t1.node_spec(w).right_spec() == t0.node_spec(w).right_spec()
            } by {
                assert(!subtree_ids(t0, c).contains(w));
                lemma_subtree_split(t0, w);
                lemma_subtree_nested(t0, l, w);
                let wl = t0.node_spec(w).left_spec();
                let wr = t0.node_spec(w).right_spec();
                lemma_subtree_ids(t0, wl);
                lemma_subtree_ids(t0, wr);
                if wl == c {
                    assert(subtree_ids(t0, wl).contains(c));
                    assert(subtree_ids(t0, w).contains(c));
                    assert(subtree_ids(t0, l).contains(c));
                }
                if wr == c {
                    assert(subtree_ids(t0, wr).contains(c));
                    assert(subtree_ids(t0, w).contains(c));
                    assert(subtree_ids(t0, l).contains(c));
                }
            }
            if !t0.contains_spec(l) && t1.contains_spec(l) {
                assert(t0.node_ok(z));
                lemma_contains_not_null(t1, l);
            }
            lemma_traversal_frame(t0, t1, l, TraversalOrder::Inorder);
            if r == c {
                assert(inorder_before(t0, r, c) == Seq::<NodeId>::empty());
                assert(inorder_after(t0, r, c) == Seq::<NodeId>::empty());
            } else {
                lemma_subtree_ids(t0, r);
                assert(!subtree_ids(t0, c).contains(r));
                lemma_replace_below(t0, t1, c, c1, r);
            }
        }
    }
}

/// The nodes below a node are exactly those in its inorder sequence.
pub proof fn lemma_inorder_members<T>(t: BinaryTree<T>, z: NodeId)
    requires
        t.wf(),
    ensures
        forall|w: NodeId| #[trigger] inorder(t, z).contains(w) <==> subtree_ids(t, z).contains(w),
    decreases t.rank_spec(z),
{
    lemma_inorder_unfold(t, z);
    if t.contains_spec(z) {
        lemma_subtree_split(t, z);
        lemma_children_ranks(t, z);
        let l = t.node_spec(z).left_spec();
        let r = t.node_spec(z).right_spec();
        if t.contains_spec(l) {
            lemma_inorder_members(t, l);
        } else {
            lemma_inorder_unfold(t, l);
        }
        if t.contains_spec(r) {
            lemma_inorder_members(t, r);
        } else {
            lemma_inorder_unfold(t, r);
        }
        assert forall|w: NodeId| #[trigger] inorder(t, z).contains(w) <==> subtree_ids(t, z).contains(w) by {
            let s = inorder(t, l) + seq![z] + inorder(t, r);
            if s.contains(w) {
                let i = choose|i: int| 0 <= i < s.len() && s[i] == w;
                if i < inorder(t, l).len() {
                    assert(inorder(t, l).contains(w));
                } else if i == inorder(t, l).len() {
                } else {
                    assert(inorder(t, r)[i - inorder(t, l).len() - 1] == w);
                    assert(inorder(t, r).contains(w));
                }
            }
            if subtree_ids(t, z).contains(w) {
                if subtree_ids(t, l).contains(w) {
                    assert(inorder(t, l).contains(w));
                    let i = choose|i: int| 0 <= i < inorder(t, l).len() && inorder(t, l)[i] == w;
                    assert(s[i] == w);
                } else if subtree_ids(t, r).contains(w) {
                    assert(inorder(t, r).contains(w));
                    let i = choose|i: int| 0 <= i < inorder(t, r).len() && inorder(t, r)[i] == w;
                    assert(s[inorder(t, l).len() + 1 + i] == w);
                } else {
                    assert(s[inorder(t, l).len() as int] == w);
                }
            }
        }
    } else {
        assert(subtree_ids(t, z) == Set::<NodeId>::empty());
    }
}

/// A node below the root that has no parent is the root.
pub proof fn lemma_parentless_is_root<T>(t: BinaryTree<T>, x: NodeId)
    requires
        t.wf(),
        subtree_ids(t, t.root_spec()).contains(x),
        !t.contains_spec(t.node_spec(x).parent_spec()),
    ensures
        x == t.root_spec(),
{
    if x != t.root_spec() {
        lemma_subtree_parent(t, t.root_spec(), x);
        lemma_subtree_ids(t, t.root_spec());
    }
}

/// The facts about the nodes around a rotation that the inorder lemmas use.
proof fn lemma_rotation_setup<T>(t0: BinaryTree<T>, x: NodeId, dir: Side)
    requires
        t0.wf(),
        t0.contains_spec(x),
        t0.contains_spec(t0.node_spec(x).child_spec(dir.opposite())),
    ensures
        ({
            let nx = t0.node_spec(x);
            let y = nx.child_spec(dir.opposite());
            let ny = t0.node_spec(y);
            let a = nx.child_spec(dir);
            let b = ny.child_spec(dir);
            let c = ny.child_spec(dir.opposite());
            let p = nx.parent_spec();
            &&& subtree_ids(t0, x).contains(y)
            &&& forall|w: NodeId| #[trigger] subtree_ids(t0, y).contains(w) ==> subtree_ids(t0, x).contains(w)
            &&& forall|w: NodeId| #[trigger] subtree_ids(t0, a).contains(w) ==> subtree_ids(t0, x).contains(w) && w != x
                && !subtree_ids(t0, y).contains(w)
            &&& forall|w: NodeId| #[trigger] subtree_ids(t0, b).contains(w) ==> subtree_ids(t0, y).contains(w) && w != y
                && !subtree_ids(t0, c).contains(w)
            &&& forall|w: NodeId| #[trigger] subtree_ids(t0, c).contains(w) ==> subtree_ids(t0, y).contains(w) && w != y
                && !subtree_ids(t0, b).contains(w)
            &&& !subtree_ids(t0, x).contains(p)
            &&& t0.contains_spec(b) ==> subtree_ids(t0, y).contains(b)
            &&& x != y
        }),
{
    let nx = t0.node_spec(x);
    let y = nx.child_spec(dir.opposite());
    let ny = t0.node_spec(y);
    let a = nx.child_spec(dir);
    let b = ny.child_spec(dir);
    let c = ny.child_spec(dir.opposite());
    let p = nx.parent_spec();
    lemma_subtree_split(t0, x);
    lemma_subtree_split(t0, y);
    lemma_subtree_ids(t0, x);
    lemma_subtree_ids(t0, y);
    lemma_subtree_ids(t0, b);
    lemma_children_ranks(t0, x);
    lemma_contains_not_null(t0, y);
    assert(subtree_ids(t0, x).contains(y));
    lemma_subtree_nested(t0, x, y);
    if t0.contains_spec(a) {
        lemma_subtree_ids(t0, a);
        lemma_subtree_nested(t0, x, a);
        assert(subtree_ids(t0, x).contains(a));
    } else {
        assert(subtree_ids(t0, a) == Set::<NodeId>::empty());
    }
    if t0.contains_spec(b) {
        lemma_subtree_nested(t0, y, b);
        assert(subtree_ids(t0, y).contains(b));
    } else {
        assert(subtree_ids(t0, b) == Set::<NodeId>::empty());
    }
    if t0.contains_spec(c) {
        lemma_subtree_ids(t0, c);
        lemma_subtree_nested(t0, y, c);
        assert(subtree_ids(t0, y).contains(c));
    } else {
        assert(subtree_ids(t0, c) == Set::<NodeId>::empty());
    }
    if subtree_ids(t0, x).contains(p) {
        assert(t0.node_ok(x));
        lemma_contains_not_null(t0, p);
        assert(t0.node_ok(p));
        assert(t0.node_spec(p).child_spec(t0.node_spec(p).side_of_spec(x).unwrap()) == x);
    }
}

/// After a rotation, the node that rose has the inorder sequence the rotated node had.
#[verifier::rlimit(60)]
proof fn lemma_rotation_local<T>(t0: BinaryTree<T>, t1: BinaryTree<T>, x: NodeId, dir: Side)
    requires
        t0.wf(),
        t1.wf(),
        t0.contains_spec(x),
        t0.contains_spec(t0.node_spec(x).child_spec(dir.opposite())),
        t0.rotated_at(t1, x, dir),
    ensures
        inorder(t1, t0.node_spec(x).child_spec(dir.opposite())) == inorder(t0, x),
{
    let nx = t0.node_spec(x);
    let y = nx.child_spec(dir.opposite());
    let ny = t0.node_spec(y);
    let a = nx.child_spec(dir);
    let b = ny.child_spec(dir);
    let c = ny.child_spec(dir.opposite());
    let p = nx.parent_spec();
    lemma_rotation_setup(t0, x, dir);
    lemma_subtree_ids(t0, a);
    lemma_subtree_ids(t0, b);
    lemma_subtree_ids(t0, c);
    lemma_subtree_ids(t0, x);
    lemma_subtree_ids(t0, y);
    lemma_relink(nx.with_parent_spec(y), b, dir.opposite());
    lemma_relink(nx, y, dir.opposite());
    lemma_relink(ny.with_parent_spec(p), x, dir);
    lemma_relink(ny, p, dir);
    assert forall|w: NodeId| #[trigger] subtree_ids(t0, a).contains(w) implies {
        &&& t1.contains_spec(w)
        &&& t1.node_spec(w).left_spec() == t0.node_spec(w).left_spec()
        &&& t1.node_spec(w).right_spec() == t0.node_spec(w).right_spec()
    } by {
        assert(t0.contains_spec(w));
        assert(w != y);
        if t0.contains_spec(b) {
            assert(subtree_ids(t0, y).contains(b));
        }
        assert(w != b);
        assert(w != p);
        assert(!set![x, y, b, p].contains(w));
    }
    assert forall|w: NodeId| #[trigger] subtree_ids(t0, b).contains(w) implies {
        &&& t1.contains_spec(w)
        &&& t1.node_spec(w).left_spec() == t0.node_spec(w).left_spec()
        &&& t1.node_spec(w).right_spec() == t0.node_spec(w).right_spec()
    } by {
        if w == b {
            lemma_relink(t0.node_spec(b), x, dir);
        } else {
            assert(!set![x, y, b, p].contains(w));
        }
    }
    assert forall|w: NodeId| #[trigger] subtree_ids(t0, c).contains(w) implies {
        &&& t1.contains_spec(w)
        &&& t1.node_spec(w).left_spec() == t0.node_spec(w).left_spec()
        &&& t1.node_spec(w).right_spec() == t0.node_spec(w).right_spec()
    } by {
        assert(!set![x, y, b, p].contains(w));
    }
    if !t0.contains_spec(a) && t1.contains_spec(a) {
        assert(t0.node_ok(x));
        lemma_contains_not_null(t1, a);
    }
    if !t0.contains_spec(b) && t1.contains_spec(b) {
        assert(t0.node_ok(y));
        lemma_contains_not_null(t1, b);
    }
    if !t0.contains_spec(c) && t1.contains_spec(c) {
        assert(t0.node_ok(y));
        lemma_contains_not_null(t1, c);
    }
    lemma_traversal_frame(t0, t1, a, TraversalOrder::Inorder);
    lemma_traversal_frame(t0, t1, b, TraversalOrder::Inorder);
    lemma_traversal_frame(t0, t1, c, TraversalOrder::Inorder);
    lemma_inorder_unfold(t0, x);
    lemma_inorder_unfold(t0, y);
    lemma_inorder_unfold(t1, x);
    lemma_inorder_unfold(t1, y);
    match dir {
        Side::Left => {
            assert(inorder(t1, y) == inorder(t0, x));
        },
        Side::Right => {
            assert(inorder(t1, y) == inorder(t0, x));
        },
    }
}

/// After a rotation, every node outside the rotated subtree keeps its links, except that
/// the link to the rotated node now goes to the node that rose.
proof fn lemma_rotation_outside<T>(t0: BinaryTree<T>, t1: BinaryTree<T>, x: NodeId, dir: Side)
    requires
        t0.wf(),
        t1.wf(),
        t0.contains_spec(x),
        t0.contains_spec(t0.node_spec(x).child_spec(dir.opposite())),
        t0.rotated_at(t1, x, dir),
    ensures
        ({
            let y = t0.node_spec(x).child_spec(dir.opposite());
            forall|w: NodeId| #[trigger] t0.contains_spec(w) && !subtree_ids(t0, x).contains(w) ==> {
                &&& t1.contains_spec(w)
                &&& t1.node_spec(w).left_spec() == (if t0.node_spec(w).left_spec() == x {
                    y
                } else {
                    t0.node_spec(w).left_spec()
                })
                &&& t1.node_spec(w).right_spec() == (if t0.node_spec(w).right_spec() == x {
                    y
                } else {
                    t0.node_spec(w).right_spec()
                })
            }
        }),
{
    let nx = t0.node_spec(x);
    let y = nx.child_spec(dir.opposite());
    let ny = t0.node_spec(y);
    let b = ny.child_spec(dir);
    let p = nx.parent_spec();
    lemma_rotation_setup(t0, x, dir);
    lemma_subtree_ids(t0, x);
    assert forall|w: NodeId| #[trigger] t0.contains_spec(w) && !subtree_ids(t0, x).contains(w) implies {
        &&& t1.contains_spec(w)
        &&& t1.node_spec(w).left_spec() == (if t0.node_spec(w).left_spec() == x { y } else { t0.node_spec(w).left_spec() })
        &&& t1.node_spec(w).right_spec() == (if t0.node_spec(w).right_spec() == x {
            y
        } else {
            t0.node_spec(w).right_spec()
        })
    } by {
        if w == p {
            assert(t0.node_ok(x));
            lemma_contains_not_null(t0, x);
            lemma_contains_not_null(t0, p);
            assert(t0.node_ok(p));
            let np = t0.node_spec(p);
            if np.left_spec() == x {
                assert(np.side_of_spec(x) == Some(Side::Left));
                lemma_relink(np, y, Side::Left);
                assert(np.right_spec() != x);
            } else {
                assert(np.right_spec() == x);
                assert(np.side_of_spec(x) == Some(Side::Right));
                lemma_relink(np, y, Side::Right);
            }
        } else {
            assert(w != x);
            assert(w != y);
            if t0.contains_spec(b) {
                assert(subtree_ids(t0, y).contains(b));
                assert(subtree_ids(t0, x).contains(b));
            }
            assert(w != b);
            assert(!set![x, y, b, p].contains(w));
            assert(t0.node_ok(w));
            lemma_contains_not_null(t0, x);
            assert(t0.node_spec(w).left_spec() != x);
            assert(t0.node_spec(w).right_spec() != x);
        }
    }
}

/// A rotation keeps the inorder sequence below the root, when it happens below a root
/// without parent, and keeps the data of every node.
pub proof fn lemma_rotation_inorder<T>(t0: BinaryTree<T>, t1: BinaryTree<T>, x: NodeId, dir: Side)
    requires
        t0.wf(),
        t1.wf(),
        t0.contains_spec(x),
        t0.contains_spec(t0.node_spec(x).child_spec(dir.opposite())),
        t0.rotated_at(t1, x, dir),
        subtree_ids(t0, t0.root_spec()).contains(x),
        !t0.contains_spec(t0.node_spec(t0.root_spec()).parent_spec()),
    ensures
        inorder(t1, t1.root_spec()) == inorder(t0, t0.root_spec()),
        inorder(t1, t0.node_spec(x).child_spec(dir.opposite())) == inorder(t0, x),
        forall|z: NodeId| #[trigger] t0.contains_spec(z) ==> t1.node_spec(z).data_spec() == t0.node_spec(z).data_spec(),
        !t1.contains_spec(t1.node_spec(t1.root_spec()).parent_spec()),
        forall|w: NodeId| #[trigger] subtree_ids(t0, w).contains(x) && w != x ==> subtree_ids(t1, w).contains(x),
{
    let nx = t0.node_spec(x);
    let y = nx.child_spec(dir.opposite());
    let ny = t0.node_spec(y);
    let b = ny.child_spec(dir);
    let p = nx.parent_spec();
    let r0 = t0.root_spec();
    lemma_rotation_setup(t0, x, dir);
    lemma_rotation_local(t0, t1, x, dir);
    lemma_rotation_outside(t0, t1, x, dir);
    lemma_subtree_ids(t0, r0);
    lemma_subtree_ids(t0, x);
    lemma_contains_not_null(t0, x);
    lemma_replace_below(t0, t1, x, y, r0);
    lemma_replace_members(t0, t1, x, y);
    assert(subtree_ids(t1, y).contains(x)) by {
        lemma_inorder_members(t1, y);
        lemma_inorder_members(t0, x);
        lemma_subtree_ids(t0, x);
        assert(inorder(t0, x).contains(x));
    }
    lemma_inorder_split(t0, r0, x);
    assert forall|z: NodeId| #[trigger] t0.contains_spec(z) implies t1.node_spec(z).data_spec() == t0.node_spec(z).data_spec() by {
        if z == x {
            lemma_relink(nx.with_parent_spec(y), b, dir.opposite());
            lemma_relink(nx, y, dir.opposite());
        } else if z == y {
            lemma_relink(ny.with_parent_spec(p), x, dir);
            lemma_relink(ny, p, dir);
        } else if z == b {
            lemma_relink(t0.node_spec(b), x, dir);
        } else if z == p {
            lemma_relink(t0.node_spec(p), y, t0.node_spec(p).side_of_spec(x).unwrap());
        } else {
            assert(!set![x, y, b, p].contains(z));
        }
    }
    if t0.contains_spec(p) {
        lemma_subtree_ids(t0, p);
        assert(x != r0);
        assert(t1.root_spec() == r0);
        if r0 == p {
            lemma_relink(t0.node_spec(p), y, t0.node_spec(p).side_of_spec(x).unwrap());
        } else {
            assert(r0 != y && (r0 != b || !t0.contains_spec(b)));
            assert(!set![x, y, b, p].contains(r0));
        }
    } else {
        lemma_parentless_is_root(t0, x);
        assert(t1.root_spec() == y);
        lemma_relink(ny.with_parent_spec(p), x, dir);
        lemma_relink(ny, p, dir);
    }
}

/// Attaching a new leaf `n` on the empty `side` of `c` puts `n` next to `c` in the inorder
/// sequence, and the inorder sequence below the root changes only there.
pub proof fn lemma_attach_inorder<T>(t0: BinaryTree<T>, t1: BinaryTree<T>, c: NodeId, n: NodeId, side: Side)
    requires
        t0.wf(),
        t1.wf(),
        t0.contains_spec(c),
        t0.node_spec(c).child_spec(side).is_null_spec(),
        !t0.contains_spec(n),
        t1.contains_spec(n),
        t1.node_spec(c) == t0.node_spec(c).with_child_spec(n, side),
        t1.node_spec(n).left_spec().is_null_spec(),
        t1.node_spec(n).right_spec().is_null_spec(),
        t1.same_outside(t0, set![c, n]),
        forall|x: NodeId| #[trigger] t1.contains_spec(x) == (t0.contains_spec(x) || x == n),
        subtree_ids(t0, t0.root_spec()).contains(c),
        t1.root_spec() == t0.root_spec(),
    ensures
        inorder(t1, c) == (match side {
            Side::Left => seq![n] + inorder(t0, c),
            Side::Right => inorder(t0, c) + seq![n],
        }),
        inorder(t1, t1.root_spec()) == inorder_before(t0, t0.root_spec(), c) + inorder(t1, c) + inorder_after(
            t0,
            t0.root_spec(),
            c,
        ),
        inorder(t0, t0.root_spec()) == inorder_before(t0, t0.root_spec(), c) + inorder(t0, c) + inorder_after(
            t0,
            t0.root_spec(),
            c,
        ),
        forall|w: NodeId| #[trigger] subtree_ids(t0, w).contains(c) ==> subtree_ids(t1, w).contains(c),
{
    let nc = t0.node_spec(c);
    let o = nc.child_spec(side.opposite());
    lemma_relink(nc, n, side);
    lemma_subtree_split(t0, c);
    lemma_subtree_ids(t0, c);
    lemma_subtree_ids(t0, o);
    lemma_children_ranks(t0, c);
    // The subtree on the other side keeps its links.
    assert forall|w: NodeId| #[trigger] subtree_ids(t0, o).contains(w) implies {
        &&& t1.contains_spec(w)
        &&& t1.node_spec(w).left_spec() == t0.node_spec(w).left_spec()
        &&& t1.node_spec(w).right_spec() == t0.node_spec(w).right_spec()
    } by {
        assert(t0.contains_spec(w));
        assert(w != c && w != n);
        assert(!set![c, n].contains(w));
    }
    if !t0.contains_spec(o) && t1.contains_spec(o) {
        assert(t0.node_ok(c));
        if o == n {
            lemma_contains_not_null(t1, n);
            assert(t0.node_ok(c));
        }
        lemma_contains_not_null(t1, o);
    }
    if o == n {
        lemma_contains_not_null(t1, n);
    }
    lemma_traversal_frame(t0, t1, o, TraversalOrder::Inorder);
    lemma_inorder_unfold(t0, c);
    lemma_inorder_unfold(t1, c);
    lemma_inorder_unfold(t1, n);
    lemma_children_ranks(t1, n);
    let nn = t1.node_spec(n);
    if t1.contains_spec(nn.left_spec()) {
        lemma_contains_not_null(t1, nn.left_spec());
    }
    if t1.contains_spec(nn.right_spec()) {
        lemma_contains_not_null(t1, nn.right_spec());
    }
    if t0.contains_spec(nc.child_spec(side)) {
        lemma_contains_not_null(t0, nc.child_spec(side));
    }
    assert(inorder(t1, n) == seq![n]);
    match side {
        Side::Left => {
            assert(inorder(t1, c) == seq![n] + inorder(t0, c));
        },
        Side::Right => {
            assert(inorder(t1, c) == inorder(t0, c) + seq![n]);
        },
    }
    // Elsewhere, links are kept.
    assert forall|w: NodeId| #[trigger] t0.contains_spec(w) && !subtree_ids(t0, c).contains(w) implies {
        &&& t1.contains_spec(w)
        &&& t1.node_spec(w).left_spec() == (if t0.node_spec(w).left_spec() == c { c } else { t0.node_spec(w).left_spec() })
        &&& t1.node_spec(w).right_spec() == (if t0.node_spec(w).right_spec() == c {
            c
        } else {
            t0.node_spec(w).right_spec()
        })
    } by {
        assert(w != c && w != n);
        assert(!set![c, n].contains(w));
    }
    lemma_replace_below(t0, t1, c, c, t0.root_spec());
    lemma_inorder_split(t0, t0.root_spec(), c);
    lemma_subtree_ids(t0, t0.root_spec());
    lemma_replace_members(t0, t1, c, c);
    lemma_subtree_ids(t1, c);
    assert forall|w: NodeId| #[trigger] subtree_ids(t0, w).contains(c) implies subtree_ids(t1, w).contains(c) by {
        if w != c {
            assert(subtree_ids(t1, c).contains(c));
        }
    }
}

/// Moving from `c` down to its child on `side` moves the boundaries of its part of the
/// inorder sequence below `z` accordingly.
pub proof fn lemma_inorder_child_parts<T>(t: BinaryTree<T>, z: NodeId, c: NodeId, side: Side)
    requires
        t.wf(),
        subtree_ids(t, z).contains(c),
        t.contains_spec(t.node_spec(c).child_spec(side)),
    ensures
        ({
            let ch = t.node_spec(c).child_spec(side);
            let l = t.node_spec(c).left_spec();
            let r = t.node_spec(c).right_spec();
            &&& subtree_ids(t, z).contains(ch)
            &&& side == Side::Left ==> inorder_before(t, z, ch) == inorder_before(t, z, c) && inorder_after(t, z, ch)
                == seq![c] + inorder(t, r) + inorder_after(t, z, c)
            &&& side == Side::Right ==> inorder_before(t, z, ch) == inorder_before(t, z, c) + inorder(t, l) + seq![c]
                && inorder_after(t, z, ch) == inorder_after(t, z, c)
        }),
    decreases t.rank_spec(z),
{
    let ch = t.node_spec(c).child_spec(side);
    lemma_subtree_ids(t, z);
    lemma_subtree_ids(t, c);
    lemma_subtree_split(t, c);
    lemma_subtree_nested(t, z, c);
    lemma_children_ranks(t, c);
    assert(subtree_ids(t, c).contains(ch)) by {
        lemma_subtree_ids(t, ch);
    }
    lemma_subtree_ids(t, ch);
    assert(ch != c);
    if z == c {
        lemma_inorder_unfold(t, c);
        lemma_subtree_split(t, z);
        match side {
            Side::Left => {
                assert(subtree_ids(t, t.node_spec(z).left_spec()).contains(ch));
                assert(inorder_before(t, ch, ch) == Seq::<NodeId>::empty());
                assert(inorder_after(t, ch, ch) == Seq::<NodeId>::empty());
            },
            Side::Right => {
                assert(!subtree_ids(t, t.node_spec(z).left_spec()).contains(ch));
                assert(inorder_before(t, ch, ch) == Seq::<NodeId>::empty());
                assert(inorder_after(t, ch, ch) == Seq::<NodeId>::empty());
            },
        }
    } else {
        lemma_subtree_split(t, z);
        lemma_children_ranks(t, z);
        let zl = t.node_spec(z).left_spec();
        let zr = t.node_spec(z).right_spec();
        lemma_subtree_ids(t, zl);
        lemma_subtree_ids(t, zr);
        assert(z != ch) by {
            assert(t.rank_spec(ch) < t.rank_spec(c));
        }
        if subtree_ids(t, zl).contains(c) {
            lemma_subtree_nested(t, zl, c);
            assert(subtree_ids(t, zl).contains(ch));
            lemma_inorder_child_parts(t, zl, c, side);
        } else {
            assert(subtree_ids(t, zr).contains(c));
            lemma_subtree_nested(t, zr, c);
            assert(subtree_ids(t, zr).contains(ch));
            assert(!subtree_ids(t, zl).contains(ch));
            lemma_inorder_child_parts(t, zr, c, side);
        }
    }
}

/// The root, if there is one, has no parent in the tree.
pub open spec fn root_has_no_parent<T>(t: BinaryTree<T>) -> bool {
    t.contains_spec(t.root_spec()) ==> !t.contains_spec(t.node_spec(t.root_spec()).parent_spec())
}

/// A node below the root other than the root has its parent below the root too.
pub proof fn lemma_parent_below_root<T>(t: BinaryTree<T>, x: NodeId)
    requires
        t.wf(),
        root_has_no_parent(t),
        subtree_ids(t, t.root_spec()).contains(x),
        x != t.root_spec(),
    ensures
        t.contains_spec(t.node_spec(x).parent_spec()),
        subtree_ids(t, t.root_spec()).contains(t.node_spec(x).parent_spec()),
        t.node_spec(t.node_spec(x).parent_spec()).side_of_spec(x) is Some,
{
    lemma_subtree_parent(t, t.root_spec(), x);
    lemma_subtree_ids(t, t.root_spec());
    assert(t.node_ok(x));
    lemma_contains_not_null(t, t.node_spec(x).parent_spec());
}

/// Detaching a leaf below a root without parent removes the leaf from the inorder sequence
/// below the root and keeps the data of the other nodes.
pub proof fn lemma_detach_inorder<T>(t1: BinaryTree<T>, t2: BinaryTree<T>, x: NodeId)
    requires
        t1.wf(),
        t2.wf(),
        root_has_no_parent(t1),
        subtree_ids(t1, t1.root_spec()).contains(x),
        t1.node_spec(x).left_spec().is_null_spec(),
        t1.node_spec(x).right_spec().is_null_spec(),
        ({
            let p = t1.node_spec(x).parent_spec();
            &&& t1.contains_spec(p) ==> t2.node_spec(p) == t1.node_spec(p).with_child_spec(
                NodeId::null_spec(),
                t1.node_spec(p).side_of_spec(x).unwrap(),
            )
            &&& t2.same_outside(t1, set![p, x])
        }),
        !t2.contains_spec(x),
        t2.root_spec() == (if t1.root_spec() == x { NodeId::null_spec() } else { t1.root_spec() }),
        forall|z: NodeId| #[trigger] t2.contains_spec(z) == (t1.contains_spec(z) && z != x),
    ensures
        ({
            let ix = inorder_before(t1, t1.root_spec(), x).len() as int;
            &&& 0 <= ix < inorder(t1, t1.root_spec()).len()
            &&& inorder(t1, t1.root_spec())[ix] == x
            &&& inorder(t2, t2.root_spec()) == inorder(t1, t1.root_spec()).remove(ix)
        }),
        root_has_no_parent(t2),
        forall|z: NodeId| #[trigger] t2.contains_spec(z) ==> t2.node_spec(z).data_spec() == t1.node_spec(z).data_spec(),
        t2.contains_spec(t1.node_spec(x).parent_spec()) ==> subtree_ids(t2, t2.root_spec()).contains(
            t1.node_spec(x).parent_spec(),
        ),
        forall|w: NodeId| #[trigger] subtree_ids(t1, w).contains(t1.node_spec(x).parent_spec()) && w != x ==> subtree_ids(
            t2,
            w,
        ).contains(t1.node_spec(x).parent_spec()),
{
    let r1 = t1.root_spec();
    let p = t1.node_spec(x).parent_spec();
    let nx = t1.node_spec(x);
    lemma_subtree_ids(t1, r1);
    lemma_subtree_ids(t1, x);
    lemma_inorder_split(t1, r1, x);
    lemma_inorder_unfold(t1, x);
    lemma_contains_not_null(t1, x);
    if t1.contains_spec(nx.left_spec()) {
        lemma_contains_not_null(t1, nx.left_spec());
    }
    if t1.contains_spec(nx.right_spec()) {
        lemma_contains_not_null(t1, nx.right_spec());
    }
    lemma_inorder_unfold(t1, nx.left_spec());
    lemma_inorder_unfold(t1, nx.right_spec());
    assert(inorder(t1, x) =~= seq![x]);
    let before = inorder_before(t1, r1, x);
    let after = inorder_after(t1, r1, x);
    assert(inorder(t1, r1) == before + seq![x] + after);
    assert(inorder(t1, r1)[before.len() as int] == x);
    NodeId::lemma_null_is_null();
    if t2.contains_spec(NodeId::null_spec()) {
        lemma_contains_not_null(t2, NodeId::null_spec());
    }
    lemma_inorder_unfold(t2, NodeId::null_spec());
    assert forall|z: NodeId| #[trigger] t2.contains_spec(z) implies t2.node_spec(z).data_spec() == t1.node_spec(z).data_spec() by {
        if z == p {
            lemma_relink(t1.node_spec(p), NodeId::null_spec(), t1.node_spec(p).side_of_spec(x).unwrap());
        } else {
            assert(!set![p, x].contains(z));
        }
    }
    if x == r1 {
        assert(before == Seq::<NodeId>::empty());
        assert(after == Seq::<NodeId>::empty());
        assert(inorder(t1, r1).remove(0) =~= Seq::<NodeId>::empty());
        assert forall|w: NodeId| #[trigger] subtree_ids(t1, w).contains(p) && w != x implies subtree_ids(t2, w).contains(p) by {
            lemma_subtree_ids(t1, w);
        }
    } else {
        lemma_parent_below_root(t1, x);
        let sd = t1.node_spec(p).side_of_spec(x).unwrap();
        assert(t1.node_ok(p));
        lemma_relink(t1.node_spec(p), NodeId::null_spec(), sd);
        assert forall|w: NodeId| #[trigger] t1.contains_spec(w) && !subtree_ids(t1, x).contains(w) implies {
            &&& t2.contains_spec(w)
            &&& t2.node_spec(w).left_spec() == (if t1.node_spec(w).left_spec() == x {
                NodeId::null_spec()
            } else {
                t1.node_spec(w).left_spec()
            })
            &&& t2.node_spec(w).right_spec() == (if t1.node_spec(w).right_spec() == x {
                NodeId::null_spec()
            } else {
                t1.node_spec(w).right_spec()
            })
        } by {
            assert(w != x);
            if w == p {
            } else {
                assert(!set![p, x].contains(w));
                lemma_children_ranks(t1, w);
                assert(t1.node_ok(w));
                if t1.node_spec(w).left_spec() == x || t1.node_spec(w).right_spec() == x {
                    assert(t1.node_spec(x).parent_spec() == w);
                }
            }
        }
        lemma_replace_below(t1, t2, x, NodeId::null_spec(), r1);
        lemma_replace_members(t1, t2, x, NodeId::null_spec());
        assert forall|w: NodeId| #[trigger] subtree_ids(t1, w).contains(p) && w != x implies subtree_ids(t2, w).contains(p) by {
            lemma_subtree_ids(t1, w);
            lemma_subtree_ids(t1, p);
            lemma_subtree_split(t1, p);
            assert(subtree_ids(t1, p).contains(x));
            lemma_subtree_nested(t1, w, p);
            assert(subtree_ids(t1, w).contains(x));
            assert(!subtree_ids(t1, x).contains(p)) by {
                lemma_subtree_ids(t1, x);
                assert(t1.node_spec(p).child_spec(sd) == x);
                assert(t1.rank_spec(x) < t1.rank_spec(p));
            }
        }
        assert(inorder(t1, r1).remove(before.len() as int) =~= before + after);
        if r1 == p {
            lemma_relink(t1.node_spec(p), NodeId::null_spec(), sd);
        } else {
            assert(!set![p, x].contains(r1));
        }
        // The parent stays below the root.
        lemma_inorder_members(t1, r1);
        lemma_inorder_members(t2, r1);
        assert(inorder(t1, r1).contains(p));
        lemma_remove_index_contains(inorder(t1, r1), before.len() as int, p);
    }
}

/// An element of a sequence other than the removed one is still there after the removal.
proof fn lemma_remove_index_contains<A>(s: Seq<A>, i: int, w: A)
    requires
        0 <= i < s.len(),
        s.contains(w),
        w != s[i],
    ensures
        s.remove(i).contains(w),
{
    let j = choose|j: int| 0 <= j < s.len() && s[j] == w;
    if j < i {
        assert(s.remove(i)[j] == w);
    } else {
        assert(s.remove(i)[j - 1] == w);
    }
}

/// Replacing a node with one child by that child, below a root without parent, removes the
/// node from the inorder sequence below the root and keeps the data of the other nodes.
pub proof fn lemma_transplant_inorder<T>(t1: BinaryTree<T>, t2: BinaryTree<T>, x: NodeId)
    requires
        t1.wf(),
        t2.wf(),
        root_has_no_parent(t1),
        subtree_ids(t1, t1.root_spec()).contains(x),
        ({
            let nx = t1.node_spec(x);
            let has_left = t1.contains_spec(nx.left_spec());
            let has_right = t1.contains_spec(nx.right_spec());
            let ch = if has_left { nx.left_spec() } else { nx.right_spec() };
            let p = nx.parent_spec();
            &&& has_left != has_right
            &&& t2.node_spec(ch) == t1.node_spec(ch).with_parent_spec(p)
            &&& (t1.contains_spec(p) ==> t2.node_spec(p) == t1.node_spec(p).with_child_spec(
                ch,
                t1.node_spec(p).side_of_spec(x).unwrap(),
            ))
            &&& t2.same_outside(t1, set![x, ch, p])
            &&& t2.root_spec() == (if !t1.contains_spec(p) {
                ch
            } else if t1.root_spec() == x {
                NodeId::null_spec()
            } else {
                t1.root_spec()
            })
        }),
        !t2.contains_spec(x),
        forall|z: NodeId| #[trigger] t2.contains_spec(z) == (t1.contains_spec(z) && z != x),
    ensures
        ({
            let nx = t1.node_spec(x);
            let has_left = t1.contains_spec(nx.left_spec());
            let ch = if has_left { nx.left_spec() } else { nx.right_spec() };
            let ix: int = inorder_before(t1, t1.root_spec(), x).len() + (if has_left { inorder(t1, ch).len() as int } else { 0 });
            &&& 0 <= ix < inorder(t1, t1.root_spec()).len()
            &&& inorder(t1, t1.root_spec())[ix] == x
            &&& inorder(t2, t2.root_spec()) == inorder(t1, t1.root_spec()).remove(ix)
            &&& subtree_ids(t2, t2.root_spec()).contains(ch)
            &&& forall|w: NodeId| #[trigger] subtree_ids(t1, w).contains(x) && w != x ==> subtree_ids(t2, w).contains(ch)
        }),
        root_has_no_parent(t2),
        forall|z: NodeId| #[trigger] t2.contains_spec(z) ==> t2.node_spec(z).data_spec() == t1.node_spec(z).data_spec(),
{
    let r1 = t1.root_spec();
    let nx = t1.node_spec(x);
    let has_left = t1.contains_spec(nx.left_spec());
    let ch = if has_left { nx.left_spec() } else { nx.right_spec() };
    let other = if has_left { nx.right_spec() } else { nx.left_spec() };
    let p = nx.parent_spec();
    lemma_subtree_ids(t1, r1);
    lemma_subtree_ids(t1, x);
    lemma_subtree_split(t1, x);
    lemma_children_ranks(t1, x);
    lemma_inorder_split(t1, r1, x);
    lemma_inorder_unfold(t1, x);
    lemma_inorder_unfold(t1, other);
    assert(t1.node_ok(x));
    lemma_contains_not_null(t1, x);
    lemma_contains_not_null(t1, ch);
    let before = inorder_before(t1, r1, x);
    let after = inorder_after(t1, r1, x);
    let ich = inorder(t1, ch);
    assert(inorder(t1, other) == Seq::<NodeId>::empty());
    let ix: int = before.len() + (if has_left { ich.len() as int } else { 0 });
    if has_left {
        assert(inorder(t1, r1) =~= before + ich + seq![x] + after);
        assert(inorder(t1, r1)[ix] == x);
        assert(inorder(t1, r1).remove(ix) =~= before + ich + after);
    } else {
        assert(inorder(t1, r1) =~= before + seq![x] + ich + after);
        assert(inorder(t1, r1)[ix] == x);
        assert(inorder(t1, r1).remove(ix) =~= before + ich + after);
    }
    // The data is kept.
    lemma_relink(t1.node_spec(ch), p, Side::Left);
    assert forall|z: NodeId| #[trigger] t2.contains_spec(z) implies t2.node_spec(z).data_spec() == t1.node_spec(z).data_spec() by {
        if z == ch {
        } else if z == p {
            lemma_relink(t1.node_spec(p), ch, t1.node_spec(p).side_of_spec(x).unwrap());
        } else {
            assert(!set![x, ch, p].contains(z));
        }
    }
    // The subtree below the child keeps its links.
    lemma_subtree_ids(t1, ch);
    assert forall|z: NodeId| #[trigger] subtree_ids(t1, ch).contains(z) implies {
        &&& t2.contains_spec(z)
        &&& t2.node_spec(z).left_spec() == t1.node_spec(z).left_spec()
        &&& t2.node_spec(z).right_spec() == t1.node_spec(z).right_spec()
    } by {
        assert(t1.rank_spec(z) <= t1.rank_spec(ch));
        assert(z != x);
        if z == ch {
        } else {
            if t1.contains_spec(p) {
                assert(t1.node_ok(p));
                lemma_contains_not_null(t1, p);
                assert(t1.node_spec(p).child_spec(t1.node_spec(p).side_of_spec(x).unwrap()) == x);
                assert(t1.rank_spec(x) < t1.rank_spec(p));
            }
            assert(z != p);
            assert(!set![x, ch, p].contains(z));
        }
    }
    lemma_traversal_frame(t1, t2, ch, TraversalOrder::Inorder);
    if x == r1 {
        assert(!t1.contains_spec(p));
        assert forall|w: NodeId| #[trigger] subtree_ids(t1, w).contains(x) && w != x implies subtree_ids(t2, w).contains(ch) by {
            lemma_subtree_ids(t1, w);
            lemma_subtree_parent(t1, w, x);
            lemma_subtree_ids(t1, w);
        }
        assert(t2.root_spec() == ch);
        assert(before == Seq::<NodeId>::empty());
        assert(after == Seq::<NodeId>::empty());
        assert(inorder(t2, ch) =~= before + ich + after);
        assert(t2.node_spec(ch).parent_spec() == p);
        lemma_inorder_members(t2, ch);
        lemma_subtree_ids(t2, ch);
    } else {
        lemma_parent_below_root(t1, x);
        let sd = t1.node_spec(p).side_of_spec(x).unwrap();
        assert(t1.node_ok(p));
        lemma_relink(t1.node_spec(p), ch, sd);
        assert(t2.root_spec() == r1);
        assert forall|w: NodeId| #[trigger] t1.contains_spec(w) && !subtree_ids(t1, x).contains(w) implies {
            &&& t2.contains_spec(w)
            &&& t2.node_spec(w).left_spec() == (if t1.node_spec(w).left_spec() == x {
                ch
            } else {
                t1.node_spec(w).left_spec()
            })
            &&& t2.node_spec(w).right_spec() == (if t1.node_spec(w).right_spec() == x {
                ch
            } else {
                t1.node_spec(w).right_spec()
            })
        } by {
            assert(w != x);
            assert(w != ch);
            if w == p {
            } else {
                assert(!set![x, ch, p].contains(w));
                assert(t1.node_ok(w));
                if t1.node_spec(w).left_spec() == x || t1.node_spec(w).right_spec() == x {
                    assert(t1.node_spec(x).parent_spec() == w);
                }
            }
        }
        lemma_replace_below(t1, t2, x, ch, r1);
        lemma_replace_members(t1, t2, x, ch);
        assert(subtree_ids(t2, ch).contains(ch)) by {
            lemma_subtree_ids(t2, ch);
        }
        if r1 == p {
            lemma_relink(t1.node_spec(p), ch, sd);
        } else {
            assert(t1.rank_spec(ch) < t1.rank_spec(x));
            assert(r1 != ch);
            assert(!set![x, ch, p].contains(r1));
        }
        lemma_inorder_members(t2, r1);
        lemma_inorder_members(t2, ch);
        lemma_subtree_ids(t2, ch);
        assert(inorder(t2, ch).contains(ch));
        let k = choose|k: int| 0 <= k < inorder(t2, ch).len() && inorder(t2, ch)[k] == ch;
        assert(inorder(t2, r1)[before.len() + k] == ch);
        assert(inorder(t2, r1).contains(ch));
    }
}

/// Trees with the same nodes, root and links have the same inorder sequences and subtrees.
pub proof fn lemma_same_links<T, U>(t0: BinaryTree<T>, t1: BinaryTree<U>)
    requires
        t0.wf(),
        t1.wf(),
        t1.root_spec() == t0.root_spec(),
        forall|z: NodeId| #[trigger] t1.contains_spec(z) == t0.contains_spec(z),
        forall|z: NodeId| #[trigger] t0.contains_spec(z) ==> {
            &&& t1.node_spec(z).parent_spec() == t0.node_spec(z).parent_spec()
            &&& t1.node_spec(z).left_spec() == t0.node_spec(z).left_spec()
            &&& t1.node_spec(z).right_spec() == t0.node_spec(z).right_spec()
        },
    ensures
        forall|w: NodeId| #[trigger] inorder(t1, w) == inorder(t0, w),
        forall|w: NodeId| #[trigger] subtree_ids(t1, w) == subtree_ids(t0, w),
        root_has_no_parent(t1) == root_has_no_parent(t0),
{
    assert forall|w: NodeId| #[trigger] inorder(t1, w) == inorder(t0, w) && subtree_ids(t1, w) == subtree_ids(t0, w) by {
        lemma_subtree_ids(t0, w);
        assert(same_below(t0, t1, w));
        lemma_traversal_frame(t0, t1, w, TraversalOrder::Inorder);
    }
    assert forall|w: NodeId| #[trigger] subtree_ids(t1, w) == subtree_ids(t0, w) by {
        assert(inorder(t1, w) == inorder(t0, w) && subtree_ids(t1, w) == subtree_ids(t0, w));
    }
}

/// An element of `b + i0 + a` outside `i0` is an element of `b + i1 + a`, and so is every
/// element of `i1`.
proof fn lemma_concat_contains<A>(b: Seq<A>, i0: Seq<A>, a: Seq<A>, i1: Seq<A>, u: A)
    ensures
        (b + i0 + a).contains(u) && !i0.contains(u) ==> (b + i1 + a).contains(u),
        i1.contains(u) ==> (b + i1 + a).contains(u),
{
    let s0 = b + i0 + a;
    let s1 = b + i1 + a;
    if s0.contains(u) && !i0.contains(u) {
        let k = choose|k: int| 0 <= k < s0.len() && s0[k] == u;
        if k < b.len() {
            assert(s1[k] == u);
        } else if k < b.len() + i0.len() {
            assert(i0[k - b.len()] == u);
        } else {
            assert(s1[k - i0.len() + i1.len()] == u);
        }
    }
    if i1.contains(u) {
        let k = choose|k: int| 0 <= k < i1.len() && i1[k] == u;
        assert(s1[b.len() + k] == u);
    }
}

/// Replacing the subtree below `c` by the one below `c1`, where every node outside the
/// subtree keeps its links and a link to `c` now goes to `c1`, keeps below every node above
/// `c` the nodes that were there outside the subtree, and puts the new subtree there.
pub proof fn lemma_replace_members<T, U>(t0: BinaryTree<T>, t1: BinaryTree<U>, c: NodeId, c1: NodeId)
    requires
        t0.wf(),
        t1.wf(),
        t0.contains_spec(c),
        t1.contains_spec(c1) || c1.is_null_spec(),
        forall|w: NodeId| #[trigger] t0.contains_spec(w) && !subtree_ids(t0, c).contains(w) ==> {
            &&& t1.contains_spec(w)
            &&& t1.node_spec(w).left_spec() == (if t0.node_spec(w).left_spec() == c {
                c1
            } else {
                t0.node_spec(w).left_spec()
            })
            &&& t1.node_spec(w).right_spec() == (if t0.node_spec(w).right_spec() == c {
                c1
            } else {
                t0.node_spec(w).right_spec()
            })
        },
    ensures
        forall|w: NodeId, u: NodeId|
            #![trigger subtree_ids(t1, w).contains(u), subtree_ids(t0, w).contains(c)]
            subtree_ids(t0, w).contains(c) && w != c && ((subtree_ids(t0, w).contains(u) && !subtree_ids(t0, c).contains(u))
                || subtree_ids(t1, c1).contains(u)) ==> subtree_ids(t1, w).contains(u),
{
    assert forall|w: NodeId, u: NodeId|
        #![trigger subtree_ids(t1, w).contains(u), subtree_ids(t0, w).contains(c)]
        subtree_ids(t0, w).contains(c) && w != c && ((subtree_ids(t0, w).contains(u) && !subtree_ids(t0, c).contains(u))
            || subtree_ids(t1, c1).contains(u)) implies subtree_ids(t1, w).contains(u) by {
        lemma_replace_below(t0, t1, c, c1, w);
        lemma_inorder_split(t0, w, c);
        lemma_inorder_members(t0, w);
        lemma_inorder_members(t0, c);
        lemma_inorder_members(t1, w);
        lemma_inorder_members(t1, c1);
        lemma_concat_contains(inorder_before(t0, w, c), inorder(t0, c), inorder_after(t0, w, c), inorder(t1, c1), u);
        assert(inorder(t0, w).contains(u) == subtree_ids(t0, w).contains(u));
        assert(inorder(t0, c).contains(u) == subtree_ids(t0, c).contains(u));
        assert(inorder(t1, c1).contains(u) == subtree_ids(t1, c1).contains(u));
        assert(inorder(t1, w).contains(u) == subtree_ids(t1, w).contains(u));
    }
}

} // verus!
