use vstd::prelude::*;
use crate::side::Side;
use crate::binary_tree::{BinaryTree, NodeId, lemma_children_ranks, subtree_ids, lemma_subtree_ids, lemma_contains_not_null};
use crate::traversal::{
    inorder,
    inorder_before,
    inorder_after,
    root_has_no_parent,
    lemma_inorder_unfold,
    lemma_inorder_split,
    lemma_subtree_split,
};

verus! {

/// The first node of the inorder sequence below a node is the one reached by following
/// left children, and the last the one reached by following right children.
pub proof fn lemma_extreme_inorder<T>(t: BinaryTree<T>, y: NodeId)
    requires
        t.wf(),
        t.contains_spec(y),
    ensures
        inorder(t, y).len() > 0,
        inorder(t, y)[0] == t.extreme(y, Side::Left),
        inorder(t, y).last() == t.extreme(y, Side::Right),
    decreases t.rank_spec(y),
{
    lemma_inorder_unfold(t, y);
    lemma_children_ranks(t, y);
    let l = t.node_spec(y).left_spec();
    let r = t.node_spec(y).right_spec();
    assert(t.node_ok(y));
    lemma_inorder_unfold(t, l);
    lemma_inorder_unfold(t, r);
    if t.contains_spec(l) {
        lemma_contains_not_null(t, l);
    }
    if t.contains_spec(r) {
        lemma_contains_not_null(t, r);
    }
    if !l.is_null_spec() {
        lemma_extreme_inorder(t, l);
    }
    if !r.is_null_spec() {
        lemma_extreme_inorder(t, r);
    }
}

/// The nodes that follow, and precede, the subtree of `x` in the inorder sequence below `z`
/// begin, and end, with the first ancestor entered from the left, and from the right; when
/// there are none, that ancestor is the one of `z`.
pub proof fn lemma_inorder_after_ancestor<T>(t: BinaryTree<T>, z: NodeId, x: NodeId)
    requires
        t.wf(),
        subtree_ids(t, z).contains(x),
    ensures
        inorder_after(t, z, x).len() > 0 ==> inorder_after(t, z, x)[0] == t.ancestor_from(x, Side::Left),
        inorder_after(t, z, x).len() == 0 ==> t.ancestor_from(x, Side::Left) == t.ancestor_from(z, Side::Left),
        inorder_before(t, z, x).len() > 0 ==> inorder_before(t, z, x).last() == t.ancestor_from(x, Side::Right),
        inorder_before(t, z, x).len() == 0 ==> t.ancestor_from(x, Side::Right) == t.ancestor_from(z, Side::Right),
    decreases t.rank_spec(z),
{
    lemma_subtree_ids(t, z);
    if z != x {
        lemma_subtree_split(t, z);
        lemma_children_ranks(t, z);
        assert(t.node_ok(z));
        let l = t.node_spec(z).left_spec();
        let r = t.node_spec(z).right_spec();
        if t.contains_spec(l) && subtree_ids(t, l).contains(x) {
            lemma_inorder_after_ancestor(t, l, x);
            assert(t.node_ok(l));
            lemma_contains_not_null(t, l);
            lemma_contains_not_null(t, z);
            if t.contains_spec(r) {
                lemma_subtree_ids(t, r);
                lemma_subtree_ids(t, l);
            }
        } else {
            assert(t.contains_spec(r) && subtree_ids(t, r).contains(x));
            lemma_inorder_after_ancestor(t, r, x);
            assert(t.node_ok(r));
            lemma_contains_not_null(t, r);
            lemma_contains_not_null(t, z);
        }
    }
}

/// In the inorder sequence below the root, which has no parent, the inorder neighbors of a
/// node below the root are the nodes right after and right before it.
pub proof fn lemma_neighbor_inorder<T>(t: BinaryTree<T>, x: NodeId)
    requires
        t.wf(),
        root_has_no_parent(t),
        subtree_ids(t, t.root_spec()).contains(x),
    ensures
        ({
            let s = inorder(t, t.root_spec());
            let i = (inorder_before(t, t.root_spec(), x).len() + inorder(t, t.node_spec(x).left_spec()).len()) as int;
            &&& 0 <= i < s.len()
            &&& s[i] == x
            &&& t.neighbor(x, Side::Right) == (if i + 1 < s.len() { s[i + 1] } else { NodeId::null_spec() })
            &&& t.neighbor(x, Side::Left) == (if i > 0 { s[i - 1] } else { NodeId::null_spec() })
        }),
{
    let root = t.root_spec();
    lemma_subtree_ids(t, root);
    lemma_inorder_split(t, root, x);
    lemma_inorder_unfold(t, x);
    lemma_inorder_after_ancestor(t, root, x);
    assert(t.node_ok(root));
    assert(t.node_ok(x));
    let l = t.node_spec(x).left_spec();
    let r = t.node_spec(x).right_spec();
    let b = inorder_before(t, root, x);
    let a = inorder_after(t, root, x);
    let s = inorder(t, root);
    let sl = inorder(t, l);
    let sr = inorder(t, r);
    assert(s == b + (sl + seq![x] + sr) + a);
    let i = (b.len() + sl.len()) as int;
    assert(s[i] == x);
    lemma_inorder_unfold(t, l);
    lemma_inorder_unfold(t, r);
    if t.contains_spec(l) {
        lemma_contains_not_null(t, l);
    }
    if t.contains_spec(r) {
        lemma_contains_not_null(t, r);
    }
    // The root's walk up ends outside the tree.
    assert(t.node_spec(root).parent_spec().is_null_spec());
    if !r.is_null_spec() {
        lemma_extreme_inorder(t, r);
        assert(s[i + 1] == sr[0]);
    } else {
        assert(sr.len() == 0);
        if a.len() > 0 {
            assert(s[i + 1] == a[0]);
        }
    }
    if !l.is_null_spec() {
        lemma_extreme_inorder(t, l);
        assert(s[i - 1] == sl.last());
    } else {
        assert(sl.len() == 0);
        if b.len() > 0 {
            assert(s[i - 1] == b.last());
        }
    }
}

} // verus!
