use vstd::prelude::*;
use crate::red_black_node::Color;
use crate::side::Side;
use crate::binary_tree::{
    BinaryTree,
    NodeId,
    subtree_ids,
    lemma_subtree_ids,
    lemma_children_ranks,
    lemma_contains_not_null,
    lemma_relink,
};
use crate::traversal::{lemma_subtree_split, lemma_subtree_nested, lemma_subtree_parent, root_has_no_parent};
use crate::search_map::{RbEntry, color_at};

verus! {

/// The node `id` is in the tree and red.
pub open spec fn red_at<N: RbEntry>(t: BinaryTree<N>, id: NodeId) -> bool {
    t.contains_spec(id) && color_at(t, id) == Color::Red
}

/// The number of black nodes on every path from the node `id` down to a missing child, the
/// missing child counted as black, if this number is the same on all such paths and no red
/// node below `id` has a red child other than `z`; `None` otherwise.
pub open spec fn rb_height<N: RbEntry>(t: BinaryTree<N>, id: NodeId, z: NodeId) -> Option<nat>
    decreases t.rank_spec(id),
    when t.wf()
{
    if !t.contains_spec(id) {
        Some(1)
    } else {
        let n = t.node_spec(id);
        proof {
            lemma_children_ranks(t, id);
        }
        let bl = if t.contains_spec(n.left_spec()) {
            rb_height(t, n.left_spec(), z)
        } else {
            Some(1)
        };
        let br = if t.contains_spec(n.right_spec()) {
            rb_height(t, n.right_spec(), z)
        } else {
            Some(1)
        };
        if red_at(t, id) && ((red_at(t, n.left_spec()) && n.left_spec() != z) || (red_at(t, n.right_spec())
            && n.right_spec() != z)) {
            None
        } else if bl is None || br is None || bl != br {
            None
        } else if red_at(t, id) {
            bl
        } else {
            Some(bl.unwrap() + 1)
        }
    }
}

/// The subtree below `x` has the same links and colors in both trees.
pub open spec fn same_colors_below<N: RbEntry>(t0: BinaryTree<N>, t1: BinaryTree<N>, x: NodeId) -> bool {
    &&& !t0.contains_spec(x) ==> !t1.contains_spec(x)
    &&& forall|w: NodeId| #[trigger] subtree_ids(t0, x).contains(w) ==> {
        &&& t1.contains_spec(w)
        &&& t1.node_spec(w).left_spec() == t0.node_spec(w).left_spec()
        &&& t1.node_spec(w).right_spec() == t0.node_spec(w).right_spec()
        &&& color_at(t1, w) == color_at(t0, w)
    }
}

/// The heights below a node depend only on the links and colors there.
pub proof fn lemma_rb_height_frame<N: RbEntry>(t0: BinaryTree<N>, t1: BinaryTree<N>, x: NodeId, z: NodeId)
    requires
        t0.wf(),
        t1.wf(),
        same_colors_below(t0, t1, x),
    ensures
        rb_height(t1, x, z) == rb_height(t0, x, z),
        subtree_ids(t1, x) == subtree_ids(t0, x),
        red_at(t1, x) == red_at(t0, x),
    decreases t0.rank_spec(x),
{
    if t0.contains_spec(x) {
        let n = t0.node_spec(x);
        lemma_children_ranks(t0, x);
        lemma_subtree_ids(t0, x);
        lemma_subtree_split(t0, x);
        assert(subtree_ids(t0, x).contains(x));
        lemma_children_ranks(t1, x);
        let l = n.left_spec();
        let r = n.right_spec();
        assert(subtree_ids(t0, x).contains(x));
        if t0.contains_spec(l) {
            lemma_subtree_ids(t0, l);
            assert forall|w: NodeId| #[trigger] subtree_ids(t0, l).contains(w) implies subtree_ids(t0, x).contains(w) by {}
            lemma_rb_height_frame(t0, t1, l, z);
        } else {
            assert(t0.node_ok(x));
            if t1.contains_spec(l) {
                lemma_contains_not_null(t1, l);
            }
        }
        if t0.contains_spec(r) {
            lemma_subtree_ids(t0, r);
            assert forall|w: NodeId| #[trigger] subtree_ids(t0, r).contains(w) implies subtree_ids(t0, x).contains(w) by {}
            lemma_rb_height_frame(t0, t1, r, z);
        } else {
            assert(t0.node_ok(x));
            if t1.contains_spec(r) {
                lemma_contains_not_null(t1, r);
            }
        }
    }
}

/// Which node may be red below a red parent matters only for a node strictly below `x`.
pub proof fn lemma_rb_height_allowance<N: RbEntry>(t: BinaryTree<N>, x: NodeId, z0: NodeId, z1: NodeId)
    requires
        t.wf(),
        !(subtree_ids(t, x).contains(z0) && z0 != x),
        !(subtree_ids(t, x).contains(z1) && z1 != x),
    ensures
        rb_height(t, x, z0) == rb_height(t, x, z1),
    decreases t.rank_spec(x),
{
    if t.contains_spec(x) {
        let n = t.node_spec(x);
        lemma_children_ranks(t, x);
        lemma_subtree_ids(t, x);
        lemma_subtree_split(t, x);
        let l = n.left_spec();
        let r = n.right_spec();
        if t.contains_spec(l) {
            lemma_subtree_ids(t, l);
            assert(subtree_ids(t, l).contains(l));
            lemma_rb_height_allowance(t, l, z0, z1);
        }
        if t.contains_spec(r) {
            lemma_subtree_ids(t, r);
            assert(subtree_ids(t, r).contains(r));
            lemma_rb_height_allowance(t, r, z0, z1);
        }
    }
}


/// The part of `t1` outside the subtree below `x1` is that of `t0` outside the subtree below
/// `x0`, with `x1` in the place of `x0`: same parent, same links and colors elsewhere.
pub open spec fn replaced_below<N: RbEntry>(t0: BinaryTree<N>, t1: BinaryTree<N>, x0: NodeId, x1: NodeId) -> bool {
    let p = t0.node_spec(x0).parent_spec();
    &&& t0.contains_spec(x0)
    &&& t1.contains_spec(x1)
    &&& !t0.contains_spec(x1) || subtree_ids(t0, x0).contains(x1)
    &&& t1.node_spec(x1).parent_spec() == p
    &&& t0.contains_spec(p) ==> {
        let side = t0.node_spec(p).side_of_spec(x0).unwrap();
        &&& t1.contains_spec(p)
        &&& color_at(t1, p) == color_at(t0, p)
        &&& t1.node_spec(p).child_spec(side) == x1
        &&& t1.node_spec(p).child_spec(side.opposite()) == t0.node_spec(p).child_spec(side.opposite())
    }
    &&& forall|w: NodeId| #[trigger] t0.contains_spec(w) && !subtree_ids(t0, x0).contains(w) && w != p ==> {
        &&& t1.contains_spec(w)
        &&& t1.node_spec(w).left_spec() == t0.node_spec(w).left_spec()
        &&& t1.node_spec(w).right_spec() == t0.node_spec(w).right_spec()
        &&& color_at(t1, w) == color_at(t0, w)
    }
}

/// A child of a node below `y` is below `y` too.
proof fn lemma_child_below<N: RbEntry>(t: BinaryTree<N>, y: NodeId, p: NodeId, c: NodeId)
    requires
        t.wf(),
        subtree_ids(t, y).contains(p),
        t.contains_spec(c),
        c == t.node_spec(p).left_spec() || c == t.node_spec(p).right_spec(),
    ensures
        subtree_ids(t, y).contains(c),
{
    lemma_subtree_ids(t, y);
    lemma_subtree_split(t, p);
    lemma_subtree_ids(t, c);
    assert(subtree_ids(t, p).contains(c));
    lemma_subtree_nested(t, y, p);
}

/// When a subtree is replaced by one of the same height in the same place, with the same
/// effect on a red parent, and nothing else changes, every node above keeps its height.
pub proof fn lemma_rb_height_above<N: RbEntry>(
    t0: BinaryTree<N>,
    t1: BinaryTree<N>,
    x0: NodeId,
    x1: NodeId,
    z0: NodeId,
    z1: NodeId,
    a: NodeId,
)
    requires
        t0.wf(),
        t1.wf(),
        replaced_below(t0, t1, x0, x1),
        !t0.contains_spec(z0) || subtree_ids(t0, x0).contains(z0),
        !t1.contains_spec(z1) || subtree_ids(t1, x1).contains(z1),
        rb_height(t1, x1, z1) == rb_height(t0, x0, z0),
        (red_at(t1, x1) && x1 != z1) == (red_at(t0, x0) && x0 != z0),
        subtree_ids(t0, a).contains(x0),
    ensures
        rb_height(t1, if a == x0 { x1 } else { a }, z1) == rb_height(t0, a, z0),
        subtree_ids(t1, if a == x0 { x1 } else { a }).contains(x1),
    decreases t0.rank_spec(a),
{
    lemma_subtree_ids(t1, x1);
    if a != x0 {
        let p = t0.node_spec(x0).parent_spec();
        lemma_subtree_ids(t0, a);
        lemma_subtree_ids(t0, x0);
        assert(t0.contains_spec(a));
        lemma_children_ranks(t0, a);
        lemma_subtree_split(t0, a);
        let n = t0.node_spec(a);
        let l = n.left_spec();
        let r = n.right_spec();
        let on_left = subtree_ids(t0, l).contains(x0);
        let c_on = if on_left { l } else { r };
        let c_off = if on_left { r } else { l };
        assert(subtree_ids(t0, c_on).contains(x0));
        lemma_subtree_ids(t0, c_on);
        lemma_subtree_ids(t0, c_off);
        lemma_subtree_nested(t0, c_on, x0);
        // `a` is not below `x0`.
        assert(!subtree_ids(t0, x0).contains(a));
        // The parent of `x0` is `a` or lies below `c_on`.
        lemma_subtree_parent(t0, a, x0);
        assert(t0.node_ok(x0));
        assert(t0.contains_spec(p));
        lemma_contains_not_null(t0, p);
        assert(t0.node_spec(p).side_of_spec(x0) is Some);
        assert(t0.node_spec(p).left_spec() == x0 || t0.node_spec(p).right_spec() == x0);
        if p != a {
            assert(subtree_ids(t0, a).contains(p));
            if subtree_ids(t0, c_off).contains(p) {
                lemma_child_below(t0, c_off, p, x0);
            }
            assert(subtree_ids(t0, c_on).contains(p));
        }
        // The node `a` keeps its color, and its links unless it is the parent of `x0`.
        assert(t1.contains_spec(a));
        assert(color_at(t1, a) == color_at(t0, a));
        // The child on the other side keeps everything below it.
        if t0.contains_spec(c_off) {
            assert forall|w: NodeId| #[trigger] subtree_ids(t0, c_off).contains(w) implies {
                &&& t1.contains_spec(w)
                &&& t1.node_spec(w).left_spec() == t0.node_spec(w).left_spec()
                &&& t1.node_spec(w).right_spec() == t0.node_spec(w).right_spec()
                &&& color_at(t1, w) == color_at(t0, w)
            } by {
                assert(!subtree_ids(t0, x0).contains(w));
                assert(w != p);
            }
        } else {
            if t1.contains_spec(c_off) {
                if a == p {
                    assert(t0.node_ok(a));
                    lemma_contains_not_null(t1, c_off);
                } else {
                    assert(t0.node_ok(a));
                    lemma_contains_not_null(t1, c_off);
                }
            }
        }
        assert(same_colors_below(t0, t1, c_off));
        lemma_rb_height_frame(t0, t1, c_off, z1);
        // The child on the side of `x0`.
        let c_on1 = if c_on == x0 { x1 } else { c_on };
        if c_on != x0 {
            lemma_rb_height_above(t0, t1, x0, x1, z0, z1, c_on);
        }
        lemma_subtree_ids(t1, c_on1);
        assert(subtree_ids(t1, c_on1).contains(x1));
        assert(t1.contains_spec(c_on1));
        // In `t1`, the children of `a` are `c_on1` and `c_off`.
        assert(t1.contains_spec(a));
        if a == p {
            let side = t0.node_spec(p).side_of_spec(x0).unwrap();
            if l == x0 {
                assert(side == Side::Left);
                assert(c_on == x0);
            } else {
                assert(r == x0);
                assert(side == Side::Right);
                assert(subtree_ids(t0, r).contains(x0));
                assert(c_on == x0);
            }
        }
        assert(t1.node_spec(a).left_spec() == if on_left { c_on1 } else { c_off });
        assert(t1.node_spec(a).right_spec() == if on_left { c_off } else { c_on1 });
        lemma_children_ranks(t1, a);
        lemma_subtree_split(t1, a);
        lemma_subtree_ids(t1, a);
        lemma_subtree_nested(t1, c_on1, x1);
        // The allowances do not matter beside the path.
        if subtree_ids(t0, c_off).contains(z1) {
            assert(subtree_ids(t1, c_off).contains(z1));
            assert(t1.contains_spec(z1));
            assert(subtree_ids(t1, c_on1).contains(z1));
        }
        if subtree_ids(t0, c_off).contains(z0) {
            assert(t0.contains_spec(z0));
            assert(subtree_ids(t0, c_on).contains(z0));
        }
        lemma_rb_height_allowance(t0, c_off, z0, z1);
        // The allowances do not apply to the children.
        if c_on != x0 {
            assert(c_on != z0) by {
                if t0.contains_spec(z0) && c_on == z0 {
                    assert(t0.rank_spec(x0) < t0.rank_spec(c_on));
                }
            }
            assert(c_on != z1) by {
                if t1.contains_spec(z1) && c_on == z1 {
                    assert(subtree_ids(t1, x1).contains(c_on));
                    assert(t1.rank_spec(x1) < t1.rank_spec(c_on));
                }
            }
            assert(red_at(t1, c_on) == red_at(t0, c_on)) by {
                if c_on != p {
                    assert(!subtree_ids(t0, x0).contains(c_on)) by {
                        if subtree_ids(t0, x0).contains(c_on) {
                            assert(t0.rank_spec(c_on) <= t0.rank_spec(x0));
                            assert(t0.rank_spec(x0) < t0.rank_spec(c_on));
                        }
                    }
                }
            }
        }
        assert(t0.contains_spec(c_off) ==> c_off != z0) by {
            if t0.contains_spec(c_off) && c_off == z0 {
                assert(subtree_ids(t0, c_off).contains(c_off));
                assert(subtree_ids(t0, x0).contains(z0));
                assert(subtree_ids(t0, c_on).contains(z0));
            }
        }
        assert(t0.contains_spec(c_off) ==> c_off != z1) by {
            if t0.contains_spec(c_off) && c_off == z1 {
                assert(subtree_ids(t0, c_off).contains(c_off));
            }
        }
    }
}


/// Below a node with a height, every node has a height.
pub proof fn lemma_rb_height_below<N: RbEntry>(t: BinaryTree<N>, x: NodeId, y: NodeId, z: NodeId)
    requires
        t.wf(),
        rb_height(t, x, z) is Some,
        subtree_ids(t, x).contains(y),
    ensures
        rb_height(t, y, z) is Some,
    decreases t.rank_spec(x),
{
    lemma_subtree_ids(t, x);
    if y != x {
        lemma_children_ranks(t, x);
        lemma_subtree_split(t, x);
        let n = t.node_spec(x);
        if subtree_ids(t, n.left_spec()).contains(y) {
            lemma_subtree_ids(t, n.left_spec());
            lemma_rb_height_below(t, n.left_spec(), y, z);
        } else {
            lemma_subtree_ids(t, n.right_spec());
            lemma_rb_height_below(t, n.right_spec(), y, z);
        }
    }
}

/// The node that may be red below a red parent makes no difference when its parent is not
/// red.
pub proof fn lemma_rb_height_unused<N: RbEntry>(t: BinaryTree<N>, x: NodeId, z: NodeId)
    requires
        t.wf(),
        t.contains_spec(z) ==> !red_at(t, t.node_spec(z).parent_spec()),
    ensures
        rb_height(t, x, z) == rb_height(t, x, NodeId::null_spec()),
    decreases t.rank_spec(x),
{
    if t.contains_spec(x) {
        let n = t.node_spec(x);
        lemma_children_ranks(t, x);
        assert(t.node_ok(x));
        let l = n.left_spec();
        let r = n.right_spec();
        if t.contains_spec(l) {
            lemma_rb_height_unused(t, l, z);
            lemma_contains_not_null(t, l);
            assert(t.node_ok(l));
        }
        if t.contains_spec(r) {
            lemma_rb_height_unused(t, r, z);
            lemma_contains_not_null(t, r);
            assert(t.node_ok(r));
        }
        NodeId::lemma_null_is_null();
    }
}


/// The tree is ready for the next step of the insertion fixup at the red node `z`: it is
/// below the root, only `z` may be red below a red parent, and the root is black unless it
/// is `z`.
pub open spec fn insert_ready<N: RbEntry>(t: BinaryTree<N>, z: NodeId) -> bool {
    &&& red_at(t, z)
    &&& root_has_no_parent(t)
    &&& subtree_ids(t, t.root_spec()).contains(z)
    &&& rb_height(t, t.root_spec(), z) is Some
    &&& (red_at(t, t.root_spec()) ==> z == t.root_spec())
}

/// Every path from the root passes the same number of black nodes, and no red node has a
/// red child.
pub open spec fn rb_balanced<N: RbEntry>(t: BinaryTree<N>) -> bool {
    rb_height(t, t.root_spec(), NodeId::null_spec()) is Some
}

/// The children of `c` keep their subtrees, colors and heights, when neither `c` nor any of
/// the nodes `ids` lie below them, and the allowance moves from `z0` to `z1`, neither of which
/// lies below them.
proof fn lemma_children_kept<N: RbEntry>(
    t0: BinaryTree<N>,
    t1: BinaryTree<N>,
    c: NodeId,
    w: NodeId,
    z0: NodeId,
    z1: NodeId,
)
    requires
        t0.wf(),
        t1.wf(),
        t0.contains_spec(c),
        w == t0.node_spec(c).left_spec() || w == t0.node_spec(c).right_spec(),
        forall|x: NodeId| #[trigger] t1.contains_spec(x) == t0.contains_spec(x),
        forall|x: NodeId| #[trigger] subtree_ids(t0, w).contains(x) ==> {
            &&& t1.node_spec(x).left_spec() == t0.node_spec(x).left_spec()
            &&& t1.node_spec(x).right_spec() == t0.node_spec(x).right_spec()
            &&& color_at(t1, x) == color_at(t0, x)
        },
        !(subtree_ids(t0, w).contains(z0) && z0 != w),
        !(subtree_ids(t0, w).contains(z1) && z1 != w),
    ensures
        rb_height(t1, w, z1) == rb_height(t0, w, z0),
        red_at(t1, w) == red_at(t0, w),
        subtree_ids(t1, w) == subtree_ids(t0, w),
{
    lemma_subtree_ids(t0, w);
    assert(t0.node_ok(c));
    if !t0.contains_spec(w) {
        assert(!t1.contains_spec(w));
    }
    assert(same_colors_below(t0, t1, w));
    lemma_rb_height_frame(t0, t1, w, z1);
    lemma_rb_height_allowance(t0, w, z0, z1);
}

/// Recoloring a red parent and a red uncle black and the grandparent red moves the node that
/// may be red below a red parent up to the grandparent.
pub proof fn lemma_insert_recolor<N: RbEntry>(t: BinaryTree<N>, t1: BinaryTree<N>, z: NodeId)
    requires
        t.wf(),
        t1.wf(),
        insert_ready(t, z),
        ({
            let zp = t.node_spec(z).parent_spec();
            let zpp = t.node_spec(zp).parent_spec();
            let u = if t.node_spec(zpp).left_spec() == zp { t.node_spec(zpp).right_spec() } else { t.node_spec(zpp).left_spec() };
            &&& t.contains_spec(zp)
            &&& t.contains_spec(zpp)
            &&& red_at(t, zp)
            &&& red_at(t, u)
            &&& t1.root_spec() == t.root_spec()
            &&& forall|x: NodeId| #[trigger] t1.contains_spec(x) == t.contains_spec(x)
            &&& forall|x: NodeId| #[trigger] t.contains_spec(x) ==> {
                &&& t1.node_spec(x).parent_spec() == t.node_spec(x).parent_spec()
                &&& t1.node_spec(x).left_spec() == t.node_spec(x).left_spec()
                &&& t1.node_spec(x).right_spec() == t.node_spec(x).right_spec()
                &&& color_at(t1, x) == (if x == zp || x == u {
                    Color::Black
                } else if x == zpp {
                    Color::Red
                } else {
                    color_at(t, x)
                })
            }
        }),
    ensures
        insert_ready(t1, t.node_spec(t.node_spec(z).parent_spec()).parent_spec()),
{
    let root = t.root_spec();
    let zp = t.node_spec(z).parent_spec();
    let zpp = t.node_spec(zp).parent_spec();
    let u = if t.node_spec(zpp).left_spec() == zp { t.node_spec(zpp).right_spec() } else { t.node_spec(zpp).left_spec() };
    lemma_subtree_ids(t, root);
    assert(t.node_ok(z));
    assert(t.node_ok(zp));
    assert(t.node_ok(zpp));
    lemma_contains_not_null(t, zp);
    lemma_contains_not_null(t, zpp);
    assert(t.node_spec(zp).left_spec() == z || t.node_spec(zp).right_spec() == z);
    assert(t.node_spec(zpp).left_spec() == zp || t.node_spec(zpp).right_spec() == zp);
    lemma_children_ranks(t, z);
    lemma_children_ranks(t, zp);
    lemma_children_ranks(t, zpp);
    // The grandparent and the parent lie below the root, and `z` below both.
    lemma_subtree_ids(t, zpp);
    assert(subtree_ids(t, zpp).contains(zpp));
    lemma_child_below(t, zpp, zpp, zp);
    lemma_child_below(t, zpp, zp, z);
    lemma_subtree_ids(t, zp);
    assert(subtree_ids(t, zp).contains(zp));
    lemma_child_below(t, zp, zp, z);
    if z != root {
        crate::traversal::lemma_parent_below_root(t, z);
    }
    assert(subtree_ids(t, root).contains(zp));
    if zp != root {
        crate::traversal::lemma_parent_below_root(t, zp);
    }
    assert(subtree_ids(t, root).contains(zpp));
    // Heights in `t`.
    lemma_rb_height_below(t, root, zpp, z);
    lemma_subtree_split(t, zpp);
    lemma_subtree_split(t, zp);
    let ul = t.node_spec(u).left_spec();
    let ur = t.node_spec(u).right_spec();
    let pl = t.node_spec(zp).left_spec();
    let pr = t.node_spec(zp).right_spec();
    assert(t.contains_spec(u));
    lemma_contains_not_null(t, u);
    assert(t.node_ok(u));
    lemma_children_ranks(t, u);
    lemma_subtree_ids(t, u);
    assert(subtree_ids(t, u).contains(u));
    lemma_subtree_split(t, u);
    assert(u != zp);
    assert(!subtree_ids(t, u).contains(z)) by {
        assert(subtree_ids(t, zp).contains(z));
    }
    // The children of the parent and of the uncle keep their heights.
    assert forall|w: NodeId| #[trigger] subtree_ids(t, pl).contains(w) implies w != zp && w != zpp && w != u by {
        lemma_subtree_ids(t, pl);
        if t.contains_spec(pl) {
            assert(t.rank_spec(pl) < t.rank_spec(zp));
        }
        if w == u {
            assert(subtree_ids(t, zp).contains(u));
        }
    }
    assert forall|w: NodeId| #[trigger] subtree_ids(t, pr).contains(w) implies w != zp && w != zpp && w != u by {
        lemma_subtree_ids(t, pr);
        if t.contains_spec(pr) {
            assert(t.rank_spec(pr) < t.rank_spec(zp));
        }
        if w == u {
            assert(subtree_ids(t, zp).contains(u));
        }
    }
    assert forall|w: NodeId| #[trigger] subtree_ids(t, ul).contains(w) implies w != zp && w != zpp && w != u by {
        lemma_subtree_ids(t, ul);
        if t.contains_spec(ul) {
            assert(t.rank_spec(ul) < t.rank_spec(u));
        }
        if w == zp {
            assert(subtree_ids(t, u).contains(zp));
        }
    }
    assert forall|w: NodeId| #[trigger] subtree_ids(t, ur).contains(w) implies w != zp && w != zpp && w != u by {
        lemma_subtree_ids(t, ur);
        if t.contains_spec(ur) {
            assert(t.rank_spec(ur) < t.rank_spec(u));
        }
        if w == zp {
            assert(subtree_ids(t, u).contains(zp));
        }
    }
    lemma_subtree_ids(t, pl);
    lemma_subtree_ids(t, pr);
    lemma_subtree_ids(t, ul);
    lemma_subtree_ids(t, ur);
    lemma_children_kept(t, t1, zp, pl, z, zpp);
    lemma_children_kept(t, t1, zp, pr, z, zpp);
    lemma_children_kept(t, t1, u, ul, z, zpp);
    lemma_children_kept(t, t1, u, ur, z, zpp);
    lemma_child_below(t, zpp, zpp, u);
    lemma_rb_height_below(t, zpp, zp, z);
    lemma_rb_height_below(t, zpp, u, z);
    assert(zp != z);
    assert(!red_at(t, zpp));
    assert(!red_at(t1, zp));
    assert(!red_at(t1, u));
    assert(red_at(t1, zpp));
    assert(t1.node_spec(zp).left_spec() == pl);
    assert(t1.node_spec(zp).right_spec() == pr);
    assert(t1.node_spec(u).left_spec() == ul);
    assert(t1.node_spec(u).right_spec() == ur);
    assert(pl != z ==> !red_at(t, pl));
    assert(pr != z ==> !red_at(t, pr));
    assert(ul != z && ur != z);
    assert(!red_at(t, ul) && !red_at(t, ur));
    assert(rb_height(t1, zp, zpp) == Some((rb_height(t, zp, z).unwrap() + 1) as nat));
    assert(rb_height(t1, u, zpp) == Some((rb_height(t, u, z).unwrap() + 1) as nat));
    assert(rb_height(t1, zpp, zpp) == rb_height(t, zpp, z));
    // Everything above the grandparent keeps its height.
    let gp = t.node_spec(zpp).parent_spec();
    assert(replaced_below(t, t1, zpp, zpp)) by {
        if t.contains_spec(gp) {
            lemma_contains_not_null(t, gp);
            assert(t.node_ok(gp));
            assert(t.rank_spec(zpp) < t.rank_spec(gp));
            assert(gp != zp && gp != u && gp != zpp);
            let side = t.node_spec(gp).side_of_spec(zpp).unwrap();
            assert(t.node_spec(gp).child_spec(side) == zpp);
        }
        assert forall|w: NodeId| #[trigger] t.contains_spec(w) && !subtree_ids(t, zpp).contains(w) && w != gp implies {
            &&& t1.contains_spec(w)
            &&& t1.node_spec(w).left_spec() == t.node_spec(w).left_spec()
            &&& t1.node_spec(w).right_spec() == t.node_spec(w).right_spec()
            &&& color_at(t1, w) == color_at(t, w)
        } by {
            assert(w != zp && w != zpp && w != u);
        }
    }
    lemma_rb_height_above(t, t1, zpp, zpp, z, zpp, root);
    assert(subtree_ids(t1, root).contains(zpp));
}


/// Facts about a node `z` that is ready for the insertion fixup: it lies below the root, and
/// so does its parent when that is in the tree; its height is that of its siblings.
proof fn lemma_ready_facts<N: RbEntry>(t: BinaryTree<N>, z: NodeId)
    requires
        t.wf(),
        insert_ready(t, z),
    ensures
        t.contains_spec(z),
        z != t.root_spec() ==> t.contains_spec(t.node_spec(z).parent_spec()),
        z != t.root_spec() ==> subtree_ids(t, t.root_spec()).contains(t.node_spec(z).parent_spec()),
        rb_height(t, z, z) is Some,
        !red_at(t, t.node_spec(z).left_spec()),
        !red_at(t, t.node_spec(z).right_spec()),
{
    let root = t.root_spec();
    lemma_subtree_ids(t, root);
    lemma_rb_height_below(t, root, z, z);
    lemma_children_ranks(t, z);
    if z != root {
        crate::traversal::lemma_parent_below_root(t, z);
    }
}

/// Rotating a red node up over its red parent, away from the grandparent's other side,
/// keeps the tree ready for the fixup, at the parent that went down: that parent is now the
/// child of the red node, which takes its place below the grandparent, and the grandparent
/// keeps its other child.
pub proof fn lemma_insert_rotate_pair<N: RbEntry>(t: BinaryTree<N>, t1: BinaryTree<N>, z: NodeId, dir: Side)
    requires
        t.wf(),
        t1.wf(),
        insert_ready(t, z),
        red_at(t, t.node_spec(z).parent_spec()),
        t.node_spec(t.node_spec(z).parent_spec()).child_spec(dir.opposite()) == z,
        t.rotated_at(t1, t.node_spec(z).parent_spec(), dir),
    ensures
        insert_ready(t1, t.node_spec(z).parent_spec()),
        ({
            let zp = t.node_spec(z).parent_spec();
            let p = t.node_spec(zp).parent_spec();
            &&& t1.node_spec(zp).parent_spec() == z
            &&& t1.node_spec(z).child_spec(dir) == zp
            &&& t1.node_spec(z).parent_spec() == p
            &&& red_at(t1, z)
            &&& t.contains_spec(p) ==> {
                let sp = t.node_spec(p).side_of_spec(zp).unwrap();
                &&& t1.contains_spec(p)
                &&& t1.node_spec(p).child_spec(sp) == z
                &&& red_at(t1, t1.node_spec(p).child_spec(sp.opposite())) == red_at(
                    t,
                    t.node_spec(p).child_spec(sp.opposite()),
                )
            }
        }),
{
    let root = t.root_spec();
    let zp = t.node_spec(z).parent_spec();
    lemma_ready_facts(t, z);
    assert(z != root) by {
        assert(t.contains_spec(zp));
    }
    let nzp = t.node_spec(zp);
    let nz = t.node_spec(z);
    let s = nzp.child_spec(dir);
    let alpha = nz.child_spec(dir);
    let beta = nz.child_spec(dir.opposite());
    let p = nzp.parent_spec();
    lemma_relink(nzp.with_parent_spec(z), alpha, dir.opposite());
    lemma_relink(nzp, z, dir.opposite());
    lemma_relink(nz.with_parent_spec(p), zp, dir);
    lemma_relink(nz, p, dir);
    assert(t.node_ok(zp));
    assert(t.node_ok(z));
    lemma_contains_not_null(t, z);
    lemma_children_ranks(t, zp);
    lemma_children_ranks(t, z);
    lemma_subtree_ids(t, zp);
    lemma_subtree_ids(t, z);
    lemma_subtree_split(t, zp);
    lemma_subtree_split(t, z);
    assert(subtree_ids(t, zp).contains(zp));
    assert(subtree_ids(t, z).contains(z));
    assert(subtree_ids(t, zp).contains(z));
    lemma_subtree_nested(t, zp, z);
    lemma_subtree_ids(t, s);
    lemma_subtree_ids(t, alpha);
    lemma_subtree_ids(t, beta);
    // Heights in `t`.
    lemma_rb_height_below(t, root, zp, z);
    assert(s != z);
    assert(!red_at(t, s));
    // The new links.
    assert(t1.node_spec(zp).child_spec(dir) == s);
    assert(t1.node_spec(zp).child_spec(dir.opposite()) == alpha);
    assert(t1.node_spec(z).child_spec(dir) == zp);
    assert(t1.node_spec(z).child_spec(dir.opposite()) == beta);
    assert(t1.node_spec(z).parent_spec() == p);
    assert(color_at(t1, zp) == color_at(t, zp));
    assert(color_at(t1, z) == color_at(t, z));
    // The subtrees below `s`, `alpha` and `beta` keep their heights.
    assert forall|x: NodeId| #[trigger] subtree_ids(t, s).contains(x) implies {
        &&& t1.node_spec(x).left_spec() == t.node_spec(x).left_spec()
        &&& t1.node_spec(x).right_spec() == t.node_spec(x).right_spec()
        &&& color_at(t1, x) == color_at(t, x)
    } by {
        assert(t.rank_spec(x) < t.rank_spec(zp));
        assert(x != z) by {
            if x == z {
                assert(subtree_ids(t, nzp.child_spec(dir.opposite())).contains(z));
            }
        }
        if x == alpha {
            assert(subtree_ids(t, z).contains(alpha));
        }
        if x == p {
            assert(t.rank_spec(zp) < t.rank_spec(p)) by {
                lemma_contains_not_null(t, p);
                assert(t.node_ok(p));
            }
        }
        assert(!set![zp, z, alpha, p].contains(x));
    }
    assert forall|x: NodeId| #[trigger] subtree_ids(t, alpha).contains(x) implies {
        &&& t1.node_spec(x).left_spec() == t.node_spec(x).left_spec()
        &&& t1.node_spec(x).right_spec() == t.node_spec(x).right_spec()
        &&& color_at(t1, x) == color_at(t, x)
    } by {
        assert(t.rank_spec(x) < t.rank_spec(z));
        if x == p {
            assert(t.rank_spec(zp) < t.rank_spec(p)) by {
                lemma_contains_not_null(t, p);
                assert(t.node_ok(p));
            }
        }
        if x == alpha {
            lemma_relink(t.node_spec(alpha), zp, dir);
        } else {
            assert(!set![zp, z, alpha, p].contains(x));
        }
    }
    assert forall|x: NodeId| #[trigger] subtree_ids(t, beta).contains(x) implies {
        &&& t1.node_spec(x).left_spec() == t.node_spec(x).left_spec()
        &&& t1.node_spec(x).right_spec() == t.node_spec(x).right_spec()
        &&& color_at(t1, x) == color_at(t, x)
    } by {
        assert(t.rank_spec(x) < t.rank_spec(z));
        if x == p {
            assert(t.rank_spec(zp) < t.rank_spec(p)) by {
                lemma_contains_not_null(t, p);
                assert(t.node_ok(p));
            }
        }
        assert(x != alpha);
        assert(!set![zp, z, alpha, p].contains(x));
    }
    lemma_children_kept(t, t1, zp, s, z, zp);
    lemma_children_kept(t, t1, z, alpha, z, zp);
    lemma_children_kept(t, t1, z, beta, z, zp);
    assert(rb_height(t1, zp, zp) == rb_height(t, z, z));
    assert(rb_height(t1, z, zp) == rb_height(t, zp, z));
    // Everything above keeps its height.
    assert(replaced_below(t, t1, zp, z)) by {
        if t.contains_spec(p) {
            lemma_contains_not_null(t, p);
            assert(t.node_ok(p));
            assert(t.rank_spec(zp) < t.rank_spec(p));
            let side = t.node_spec(p).side_of_spec(zp).unwrap();
            lemma_relink(t.node_spec(p), z, side);
        }
        assert forall|w: NodeId| #[trigger] t.contains_spec(w) && !subtree_ids(t, zp).contains(w) && w != p implies {
            &&& t1.contains_spec(w)
            &&& t1.node_spec(w).left_spec() == t.node_spec(w).left_spec()
            &&& t1.node_spec(w).right_spec() == t.node_spec(w).right_spec()
            &&& color_at(t1, w) == color_at(t, w)
        } by {
            if w == alpha {
                assert(subtree_ids(t, z).contains(alpha));
            }
            assert(!set![zp, z, alpha, p].contains(w));
        }
    }
    assert(zp != root) by {
        if zp == root {
            assert(red_at(t, root));
        }
    }
    crate::traversal::lemma_parent_below_root(t, zp);
    lemma_subtree_ids(t1, z);
    assert(t1.contains_spec(zp));
    lemma_child_below(t1, z, z, zp);
    lemma_rb_height_above(t, t1, zp, z, z, zp, root);
    assert(t1.root_spec() == root);
    lemma_child_below(t1, root, z, zp);
    // The root keeps its color and has no parent.
    if root == p {
        lemma_relink(t.node_spec(p), z, t.node_spec(p).side_of_spec(zp).unwrap());
    } else {
        assert(root != alpha) by {
            if root == alpha {
                assert(subtree_ids(t, z).contains(alpha));
            }
        }
        assert(!set![zp, z, alpha, p].contains(root));
    }
    lemma_subtree_ids(t, root);
    // The grandparent now has `z` in place of `zp`, and keeps its other child.
    if t.contains_spec(p) {
        lemma_contains_not_null(t, p);
        assert(t.node_ok(p));
        let sp = t.node_spec(p).side_of_spec(zp).unwrap();
        lemma_relink(t.node_spec(p), z, sp);
        let u = t.node_spec(p).child_spec(sp.opposite());
        assert(t.node_spec(p).child_spec(sp) == zp);
        if t.contains_spec(u) {
            lemma_contains_not_null(t, u);
            assert(t.node_spec(u).parent_spec() == p);
            assert(u != zp);
            assert(u != alpha) by {
                if u == alpha {
                    assert(t.node_ok(z));
                }
            }
            assert(!set![zp, z, alpha, p].contains(u));
        }
    }
}


/// With a red node below a red parent on the same side as the parent below the grandparent,
/// and a black or missing uncle, coloring the parent black and the grandparent red and
/// rotating the parent into the grandparent's place leaves no red node with a red child.
pub proof fn lemma_insert_rotate_fix<N: RbEntry>(
    t: BinaryTree<N>,
    t1: BinaryTree<N>,
    t2: BinaryTree<N>,
    z: NodeId,
    sp: Side,
)
    requires
        t.wf(),
        t1.wf(),
        t2.wf(),
        insert_ready(t, z),
        ({
            let zp = t.node_spec(z).parent_spec();
            let zpp = t.node_spec(zp).parent_spec();
            &&& red_at(t, zp)
            &&& t.contains_spec(zpp)
            &&& t.node_spec(zp).child_spec(sp) == z
            &&& t.node_spec(zpp).child_spec(sp) == zp
            &&& !red_at(t, t.node_spec(zpp).child_spec(sp.opposite()))
            &&& t1.root_spec() == t.root_spec()
            &&& forall|x: NodeId| #[trigger] t1.contains_spec(x) == t.contains_spec(x)
            &&& forall|x: NodeId| #[trigger] t.contains_spec(x) ==> {
                &&& t1.node_spec(x).parent_spec() == t.node_spec(x).parent_spec()
                &&& t1.node_spec(x).left_spec() == t.node_spec(x).left_spec()
                &&& t1.node_spec(x).right_spec() == t.node_spec(x).right_spec()
                &&& color_at(t1, x) == (if x == zp {
                    Color::Black
                } else if x == zpp {
                    Color::Red
                } else {
                    color_at(t, x)
                })
            }
            &&& t1.rotated_at(t2, zpp, sp.opposite())
        }),
    ensures
        rb_balanced(t2),
{
    let root = t.root_spec();
    let zp = t.node_spec(z).parent_spec();
    let zpp = t.node_spec(zp).parent_spec();
    let dir = sp.opposite();
    lemma_ready_facts(t, z);
    assert(z != root) by {
        assert(t.contains_spec(zp));
    }
    assert(zp != root) by {
        if zp == root {
            assert(red_at(t, root));
        }
    }
    crate::traversal::lemma_parent_below_root(t, zp);
    let u = t.node_spec(zpp).child_spec(sp.opposite());
    let s = t.node_spec(zp).child_spec(sp.opposite());
    let p = t.node_spec(zpp).parent_spec();
    assert(sp.opposite().opposite() == sp);
    let n1pp = t1.node_spec(zpp);
    let n1p = t1.node_spec(zp);
    assert(n1pp.child_spec(dir.opposite()) == zp);
    assert(n1p.child_spec(dir) == s);
    lemma_relink(n1pp.with_parent_spec(zp), s, dir.opposite());
    lemma_relink(n1pp, zp, dir.opposite());
    lemma_relink(n1p.with_parent_spec(p), zpp, dir);
    lemma_relink(n1p, p, dir);
    assert(t.node_ok(zp));
    assert(t.node_ok(zpp));
    assert(t.node_ok(z));
    lemma_contains_not_null(t, zp);
    lemma_contains_not_null(t, zpp);
    lemma_children_ranks(t, zp);
    lemma_children_ranks(t, zpp);
    lemma_subtree_ids(t, zpp);
    lemma_subtree_ids(t, zp);
    lemma_subtree_split(t, zpp);
    lemma_subtree_split(t, zp);
    assert(subtree_ids(t, zpp).contains(zpp));
    assert(subtree_ids(t, zp).contains(zp));
    assert(subtree_ids(t, zpp).contains(zp));
    lemma_subtree_nested(t, zpp, zp);
    assert(subtree_ids(t, zp).contains(z));
    lemma_subtree_ids(t, s);
    lemma_subtree_ids(t, u);
    lemma_subtree_ids(t, z);
    // Heights in `t`.
    lemma_rb_height_below(t, root, zpp, z);
    assert(zp != z);
    assert(!red_at(t, zpp));
    assert(s != z);
    assert(!red_at(t, s));
    // The new links and colors.
    assert(t2.node_spec(zp).child_spec(dir) == zpp);
    assert(t2.node_spec(zp).child_spec(dir.opposite()) == z);
    assert(t2.node_spec(zpp).child_spec(dir.opposite()) == s);
    assert(t2.node_spec(zpp).child_spec(dir) == u);
    assert(t2.node_spec(zp).parent_spec() == p);
    assert(color_at(t2, zp) == Color::Black);
    assert(color_at(t2, zpp) == Color::Red);
    if t.contains_spec(p) {
        lemma_contains_not_null(t, p);
        assert(t.node_ok(p));
        assert(t.rank_spec(zpp) < t.rank_spec(p));
    }
    // The subtrees below `z`, `s` and `u` keep their heights.
    assert forall|x: NodeId| #[trigger] subtree_ids(t, s).contains(x) implies {
        &&& t2.node_spec(x).left_spec() == t.node_spec(x).left_spec()
        &&& t2.node_spec(x).right_spec() == t.node_spec(x).right_spec()
        &&& color_at(t2, x) == color_at(t, x)
    } by {
        assert(t.rank_spec(s) < t.rank_spec(zp));
        assert(t.rank_spec(x) < t.rank_spec(zp));
        assert(t.contains_spec(x));
        assert(t1.contains_spec(x));
        assert(x != zp && x != zpp && x != p);
        if x == s {
            lemma_relink(t1.node_spec(s), zpp, dir);
            assert(t2.node_spec(s) == t1.node_spec(s).with_parent_spec(zpp));
        } else {
            assert(!set![zpp, zp, s, p].contains(x));
            assert(t2.node_spec(x) == t1.node_spec(x));
        }
    }
    assert forall|x: NodeId| #[trigger] subtree_ids(t, z).contains(x) implies {
        &&& t2.node_spec(x).left_spec() == t.node_spec(x).left_spec()
        &&& t2.node_spec(x).right_spec() == t.node_spec(x).right_spec()
        &&& color_at(t2, x) == color_at(t, x)
    } by {
        assert(t.rank_spec(z) < t.rank_spec(zp));
        assert(t.rank_spec(x) < t.rank_spec(zp));
        assert(t.contains_spec(x));
        assert(t1.contains_spec(x));
        assert(x != zp && x != zpp && x != p);
        assert(x != s) by {
            if x == s {
                assert(subtree_ids(t, s).contains(s));
            }
        }
        assert(!set![zpp, zp, s, p].contains(x));
        assert(t2.node_spec(x) == t1.node_spec(x));
    }
    assert forall|x: NodeId| #[trigger] subtree_ids(t, u).contains(x) implies {
        &&& t2.node_spec(x).left_spec() == t.node_spec(x).left_spec()
        &&& t2.node_spec(x).right_spec() == t.node_spec(x).right_spec()
        &&& color_at(t2, x) == color_at(t, x)
    } by {
        assert(t.rank_spec(u) < t.rank_spec(zpp));
        assert(t.rank_spec(x) < t.rank_spec(zpp));
        assert(t.contains_spec(x));
        assert(t1.contains_spec(x));
        assert(x != zpp && x != p);
        assert(x != zp && x != s) by {
            if x == zp || x == s {
                assert(subtree_ids(t, zp).contains(x));
            }
        }
        assert(!set![zpp, zp, s, p].contains(x));
        assert(t2.node_spec(x) == t1.node_spec(x));
    }
    let null = NodeId::null_spec();
    NodeId::lemma_null_is_null();
    if t.contains_spec(null) {
        lemma_contains_not_null(t, null);
    }
    lemma_children_kept(t, t2, zp, s, z, null);
    lemma_children_kept(t, t2, zp, z, z, null);
    lemma_children_kept(t, t2, zpp, u, z, null);
    assert(rb_height(t2, zpp, null) == rb_height(t, zp, z));
    assert(rb_height(t2, zp, null) == rb_height(t, zpp, z));
    // Everything above keeps its height.
    assert(replaced_below(t, t2, zpp, zp)) by {
        if t.contains_spec(p) {
            let side = t.node_spec(p).side_of_spec(zpp).unwrap();
            assert(t1.node_spec(p).side_of_spec(zpp) == t.node_spec(p).side_of_spec(zpp));
            lemma_relink(t1.node_spec(p), zp, side);
            assert(!set![zpp, zp, s].contains(p));
        }
        assert forall|w: NodeId| #[trigger] t.contains_spec(w) && !subtree_ids(t, zpp).contains(w) && w != p implies {
            &&& t2.contains_spec(w)
            &&& t2.node_spec(w).left_spec() == t.node_spec(w).left_spec()
            &&& t2.node_spec(w).right_spec() == t.node_spec(w).right_spec()
            &&& color_at(t2, w) == color_at(t, w)
        } by {
            if w == s {
                assert(subtree_ids(t, zp).contains(s));
            }
            assert(w != zp && w != zpp);
            assert(t1.contains_spec(w));
            assert(!set![zpp, zp, s, p].contains(w));
            assert(t2.node_spec(w) == t1.node_spec(w));
            assert(t2.contains_spec(w));
        }
    }
    lemma_rb_height_above(t, t2, zpp, zp, z, null, root);
    if zpp == root {
        assert(!t.contains_spec(p));
    } else {
        crate::traversal::lemma_parent_below_root(t, zpp);
    }
}


/// Attaching a red leaf below a node of a balanced tree with a black root leaves the tree
/// ready for the insertion fixup at the new leaf.
pub proof fn lemma_attach_red_leaf<N: RbEntry>(t0: BinaryTree<N>, t1: BinaryTree<N>, c: NodeId, n: NodeId, side: Side)
    requires
        t0.wf(),
        t1.wf(),
        rb_balanced(t0),
        !red_at(t0, t0.root_spec()),
        root_has_no_parent(t0),
        subtree_ids(t0, t0.root_spec()).contains(c),
        t0.node_spec(c).child_spec(side).is_null_spec(),
        !t0.contains_spec(n),
        t1.contains_spec(n),
        t1.node_spec(c).child_spec(side) == n,
        t1.node_spec(c).child_spec(side.opposite()) == t0.node_spec(c).child_spec(side.opposite()),
        t1.node_spec(c).parent_spec() == t0.node_spec(c).parent_spec(),
        color_at(t1, c) == color_at(t0, c),
        t1.node_spec(n).parent_spec() == c,
        t1.node_spec(n).left_spec().is_null_spec(),
        t1.node_spec(n).right_spec().is_null_spec(),
        color_at(t1, n) == Color::Red,
        t1.same_outside(t0, set![c, n]),
        forall|x: NodeId| #[trigger] t1.contains_spec(x) == (t0.contains_spec(x) || x == n),
        t1.root_spec() == t0.root_spec(),
    ensures
        insert_ready(t1, n),
{
    let root = t0.root_spec();
    let null = NodeId::null_spec();
    lemma_subtree_ids(t0, root);
    assert(t0.contains_spec(c));
    assert(t0.node_ok(c));
    lemma_contains_not_null(t0, c);
    lemma_contains_not_null(t1, n);
    NodeId::lemma_null_is_null();
    if t0.contains_spec(null) {
        lemma_contains_not_null(t0, null);
    }
    if t1.contains_spec(null) {
        lemma_contains_not_null(t1, null);
    }
    lemma_children_ranks(t0, c);
    lemma_children_ranks(t1, c);
    lemma_children_ranks(t1, n);
    let o = t0.node_spec(c).child_spec(side.opposite());
    // The other child keeps its subtree and its height.
    lemma_subtree_ids(t0, o);
    assert forall|w: NodeId| #[trigger] subtree_ids(t0, o).contains(w) implies w != c && w != n by {
        if w == c {
            assert(t0.rank_spec(w) <= t0.rank_spec(o));
        }
    }
    if !t0.contains_spec(o) {
        assert(o.is_null_spec());
    }
    assert(same_colors_below(t0, t1, o));
    lemma_rb_height_frame(t0, t1, o, n);
    lemma_rb_height_allowance(t0, o, n, null);
    // The new leaf has height one.
    if t1.contains_spec(t1.node_spec(n).left_spec()) {
        lemma_contains_not_null(t1, t1.node_spec(n).left_spec());
    }
    if t1.contains_spec(t1.node_spec(n).right_spec()) {
        lemma_contains_not_null(t1, t1.node_spec(n).right_spec());
    }
    assert(rb_height(t1, n, n) == Some(1nat));
    if t0.contains_spec(t0.node_spec(c).child_spec(side)) {
        lemma_contains_not_null(t0, t0.node_spec(c).child_spec(side));
    }
    assert(t1.contains_spec(o) == t0.contains_spec(o));
    assert(red_at(t1, o) == red_at(t0, o));
    assert(o != n);
    assert(red_at(t1, n));
    assert(rb_height(t1, c, n) == rb_height(t0, c, null)) by {
        assert(t1.node_ok(c));
        assert(!red_at(t0, t0.node_spec(c).child_spec(side)));
        if side == Side::Left {
            assert(t1.node_spec(c).left_spec() == n);
            assert(t1.node_spec(c).right_spec() == o);
        } else {
            assert(t1.node_spec(c).right_spec() == n);
            assert(t1.node_spec(c).left_spec() == o);
        }
    }
    // The part above is unchanged.
    let p = t0.node_spec(c).parent_spec();
    assert(replaced_below(t0, t1, c, c)) by {
        lemma_subtree_ids(t0, c);
        if t0.contains_spec(p) {
            lemma_contains_not_null(t0, p);
            assert(t0.node_ok(p));
            assert(p != c);
            assert(p != n);
        }
    }
    lemma_subtree_ids(t1, c);
    lemma_child_below(t1, c, c, n);
    lemma_rb_height_above(t0, t1, c, c, null, n, root);
    lemma_subtree_nested(t1, root, c);
    lemma_subtree_ids(t1, root);
    // The root keeps its color and has no parent.
    if root != c {
        assert(!set![c, n].contains(root));
    }
    if t0.contains_spec(root) {
        assert(t0.node_ok(root));
    }
}

/// Making the root of a balanced tree black keeps it balanced.
pub proof fn lemma_blacken_root<N: RbEntry>(t0: BinaryTree<N>, t1: BinaryTree<N>)
    requires
        t0.wf(),
        t1.wf(),
        rb_balanced(t0),
        t1.root_spec() == t0.root_spec(),
        forall|x: NodeId| #[trigger] t1.contains_spec(x) == t0.contains_spec(x),
        forall|x: NodeId| #[trigger] t0.contains_spec(x) ==> {
            &&& t1.node_spec(x).left_spec() == t0.node_spec(x).left_spec()
            &&& t1.node_spec(x).right_spec() == t0.node_spec(x).right_spec()
            &&& color_at(t1, x) == (if x == t0.root_spec() { Color::Black } else { color_at(t0, x) })
        },
    ensures
        rb_balanced(t1),
        !red_at(t1, t1.root_spec()),
{
    let root = t0.root_spec();
    if t0.contains_spec(root) {
        let l = t0.node_spec(root).left_spec();
        let r = t0.node_spec(root).right_spec();
        lemma_children_ranks(t0, root);
        lemma_children_ranks(t1, root);
        lemma_subtree_ids(t0, l);
        lemma_subtree_ids(t0, r);
        assert forall|w: NodeId| #[trigger] subtree_ids(t0, l).contains(w) implies w != root by {
            if w == root {
                assert(t0.rank_spec(w) <= t0.rank_spec(l));
            }
        }
        assert forall|w: NodeId| #[trigger] subtree_ids(t0, r).contains(w) implies w != root by {
            if w == root {
                assert(t0.rank_spec(w) <= t0.rank_spec(r));
            }
        }
        assert(same_colors_below(t0, t1, l));
        assert(same_colors_below(t0, t1, r));
        lemma_rb_height_frame(t0, t1, l, NodeId::null_spec());
        lemma_rb_height_frame(t0, t1, r, NodeId::null_spec());
    }
}

/// Both trees have the same nodes, root, links and colors.
pub open spec fn same_colors<N: RbEntry>(t0: BinaryTree<N>, t1: BinaryTree<N>) -> bool {
    &&& t1.root_spec() == t0.root_spec()
    &&& forall|x: NodeId| #[trigger] t1.contains_spec(x) == t0.contains_spec(x)
    &&& forall|x: NodeId| #[trigger] t0.contains_spec(x) ==> {
        &&& t1.node_spec(x).parent_spec() == t0.node_spec(x).parent_spec()
        &&& t1.node_spec(x).left_spec() == t0.node_spec(x).left_spec()
        &&& t1.node_spec(x).right_spec() == t0.node_spec(x).right_spec()
        &&& color_at(t1, x) == color_at(t0, x)
    }
}

/// Trees with the same nodes, links and colors have the same heights, and one is ready for
/// the insertion fixup, or balanced, exactly when the other is.
pub proof fn lemma_same_colors<N: RbEntry>(t0: BinaryTree<N>, t1: BinaryTree<N>, z: NodeId)
    requires
        t0.wf(),
        t1.wf(),
        same_colors(t0, t1),
    ensures
        rb_height(t1, t1.root_spec(), z) == rb_height(t0, t0.root_spec(), z),
        subtree_ids(t1, t1.root_spec()) == subtree_ids(t0, t0.root_spec()),
        red_at(t1, t1.root_spec()) == red_at(t0, t0.root_spec()),
        insert_ready(t1, z) == insert_ready(t0, z),
        rb_balanced(t1) == rb_balanced(t0),
{
    let root = t0.root_spec();
    lemma_subtree_ids(t0, root);
    assert(same_colors_below(t0, t1, root));
    lemma_rb_height_frame(t0, t1, root, z);
    lemma_rb_height_frame(t0, t1, root, NodeId::null_spec());
    if t0.contains_spec(z) {
        assert(t1.contains_spec(z));
    }
}

/// Keeping the nodes, links and colors twice keeps them.
pub proof fn lemma_same_colors_trans<N: RbEntry>(t0: BinaryTree<N>, t1: BinaryTree<N>, t2: BinaryTree<N>)
    requires
        same_colors(t0, t1),
        same_colors(t1, t2),
    ensures
        same_colors(t0, t2),
{
    assert forall|x: NodeId| #[trigger] t0.contains_spec(x) implies {
        &&& t2.node_spec(x).parent_spec() == t0.node_spec(x).parent_spec()
        &&& t2.node_spec(x).left_spec() == t0.node_spec(x).left_spec()
        &&& t2.node_spec(x).right_spec() == t0.node_spec(x).right_spec()
        &&& color_at(t2, x) == color_at(t0, x)
    } by {
        assert(t1.contains_spec(x));
    }
    assert forall|x: NodeId| #[trigger] t2.contains_spec(x) == t0.contains_spec(x) by {
        assert(t1.contains_spec(x) == t0.contains_spec(x));
    }
}

} // verus!
