use vstd::prelude::*;
use crate::serialization::{SerializationNode, represents, keeps_down_links, lemma_represents_frame};
use crate::side::{Side, Neighborhood, CursorError};

verus! {

/// Identifies a node of a `BinaryTree`. The null id identifies no node.
#[derive(Clone, Copy, Debug, PartialEq, Eq, Structural)]
pub struct NodeId {
    index: usize,
}

impl NodeId {
    pub closed spec fn index_spec(self) -> usize {
        self.index
    }

    pub open spec fn is_null_spec(self) -> bool {
        self.index_spec() == usize::MAX
    }

    /// The id that identifies no node.
    pub closed spec fn null_spec() -> NodeId {
        NodeId { index: usize::MAX }
    }

    /// The id that identifies no node.
    /// The null id is null.
    pub proof fn lemma_null_is_null()
        ensures
            NodeId::null_spec().is_null_spec(),
    {
    }

    pub fn null() -> (r: NodeId)
        ensures
            r == NodeId::null_spec(),
            r.is_null_spec(),
    {
        NodeId { index: usize::MAX }
    }

    /// Whether this is the null id.
    pub fn is_null(&self) -> (r: bool)
        ensures
            r == self.is_null_spec(),
    {
        self.index == usize::MAX
    }
}

/// A node of a `BinaryTree`: its data and the ids of its parent and children.
#[derive(Clone, Copy, PartialEq, Eq)]
pub struct BinaryTreeNode<T> {
    data: T,
    parent_id: NodeId,
    left_id: NodeId,
    right_id: NodeId,
}

impl<T> BinaryTreeNode<T> {
    pub closed spec fn data_spec(self) -> T {
        self.data
    }

    pub closed spec fn parent_spec(self) -> NodeId {
        self.parent_id
    }

    pub closed spec fn left_spec(self) -> NodeId {
        self.left_id
    }

    pub closed spec fn right_spec(self) -> NodeId {
        self.right_id
    }

    /// The node with its data replaced.
    pub closed spec fn with_data_spec(self, data: T) -> BinaryTreeNode<T> {
        BinaryTreeNode { data: data, ..self }
    }

    /// The node with its parent id replaced.
    pub closed spec fn with_parent_spec(self, id: NodeId) -> BinaryTreeNode<T> {
        BinaryTreeNode { parent_id: id, ..self }
    }

    /// The node with its child ids exchanged.
    pub closed spec fn swapped_spec(self) -> BinaryTreeNode<T> {
        BinaryTreeNode { left_id: self.right_id, right_id: self.left_id, ..self }
    }

    /// The id of the child on `side`.
    pub open spec fn child_spec(self, side: Side) -> NodeId {
        match side {
            Side::Left => self.left_spec(),
            Side::Right => self.right_spec(),
        }
    }

    /// The side on which `child_id` is a child of this node, if it is one.
    pub open spec fn side_of_spec(self, child_id: NodeId) -> Option<Side> {
        if child_id.is_null_spec() {
            None
        } else if self.left_spec() == child_id {
            Some(Side::Left)
        } else if self.right_spec() == child_id {
            Some(Side::Right)
        } else {
            None
        }
    }

    /// A node without parent or children.
    fn new(data: T) -> (r: Self)
        ensures
            r.data == data,
            r.parent_id.is_null_spec(),
            r.left_id.is_null_spec(),
            r.right_id.is_null_spec(),
    {
        Self { data, parent_id: NodeId::null(), left_id: NodeId::null(), right_id: NodeId::null() }
    }

    pub fn data(&self) -> (r: &T)
        ensures
            *r == self.data_spec(),
    {
        &self.data
    }

    pub fn data_mut(&mut self) -> (r: &mut T)
        ensures
            *r == old(self).data_spec(),
            *final(self) == old(self).with_data_spec(*final(r)),
    {
        &mut self.data
    }

    fn into_data(self) -> (r: T)
        ensures
            r == self.data_spec(),
    {
        self.data
    }

    pub fn has_parent(&self) -> (r: bool)
        ensures
            r == !self.parent_spec().is_null_spec(),
    {
        !self.parent_id.is_null()
    }

    pub fn has_left(&self) -> (r: bool)
        ensures
            r == !self.left_spec().is_null_spec(),
    {
        !self.left_id.is_null()
    }

    pub fn has_right(&self) -> (r: bool)
        ensures
            r == !self.right_spec().is_null_spec(),
    {
        !self.right_id.is_null()
    }

    pub fn has_child(&self, side: Side) -> (r: bool)
        ensures
            r == !self.child_spec(side).is_null_spec(),
    {
        match side {
            Side::Left => self.has_left(),
            Side::Right => self.has_right(),
        }
    }

    pub fn parent_id(&self) -> (r: NodeId)
        ensures
            r == self.parent_spec(),
    {
        self.parent_id
    }

    pub fn left_id(&self) -> (r: NodeId)
        ensures
            r == self.left_spec(),
    {
        self.left_id
    }

    pub fn right_id(&self) -> (r: NodeId)
        ensures
            r == self.right_spec(),
    {
        self.right_id
    }

    pub fn child_id(&self, side: Side) -> (r: NodeId)
        ensures
            r == self.child_spec(side),
    {
        match side {
            Side::Left => self.left_id(),
            Side::Right => self.right_id(),
        }
    }

    /// The side on which `child_id` is a child of this node; None if it is not a child
    /// or is null.
    pub fn side_of(&self, child_id: NodeId) -> (r: Option<Side>)
        ensures
            r == self.side_of_spec(child_id),
    {
        if child_id.is_null() {
            return None;
        }
        if self.left_id == child_id {
            Some(Side::Left)
        } else if self.right_id == child_id {
            Some(Side::Right)
        } else {
            None
        }
    }

    fn set_parent_id(&mut self, new_id: NodeId)
        ensures
            *final(self) == old(self).with_parent_spec(new_id),
    {
        self.parent_id = new_id;
    }

    fn set_left_id(&mut self, new_id: NodeId)
        ensures
            *final(self) == old(self).with_child_spec(new_id, Side::Left),
    {
        self.left_id = new_id;
    }

    fn set_right_id(&mut self, new_id: NodeId)
        ensures
            *final(self) == old(self).with_child_spec(new_id, Side::Right),
    {
        self.right_id = new_id;
    }

    /// The node with its child id on `side` replaced.
    pub closed spec fn with_child_spec(self, new_id: NodeId, side: Side) -> BinaryTreeNode<T> {
        match side {
            Side::Left => BinaryTreeNode { left_id: new_id, ..self },
            Side::Right => BinaryTreeNode { right_id: new_id, ..self },
        }
    }

    fn set_child_id(&mut self, new_id: NodeId, side: Side)
        ensures
            *final(self) == old(self).with_child_spec(new_id, side),
    {
        match side {
            Side::Left => self.set_left_id(new_id),
            Side::Right => self.set_right_id(new_id),
        }
    }

    /// Exchanges the ids of the two children.
    pub fn swap_children(&mut self)
        ensures
            *final(self) == old(self).swapped_spec(),
    {
        std::mem::swap(&mut self.left_id, &mut self.right_id);
    }
}


/// The number of occupied slots.
pub open spec fn live_count<N>(s: Seq<Option<N>>) -> nat
    decreases s.len(),
{
    if s.len() == 0 {
        0
    } else {
        live_count(s.drop_last()) + if s.last() is Some {
            1nat
        } else {
            0nat
        }
    }
}

/// Changing one slot changes the number of occupied slots by the change at that slot.
proof fn lemma_live_count_update<N>(s: Seq<Option<N>>, i: int, v: Option<N>)
    requires
        0 <= i < s.len(),
    ensures
        live_count(s.update(i, v)) + (if s[i] is Some { 1int } else { 0int }) == live_count(s) + (if v is Some {
            1int
        } else {
            0int
        }),
    decreases s.len(),
{
    if i == s.len() - 1 {
        assert(s.update(i, v).drop_last() =~= s.drop_last());
    } else {
        lemma_live_count_update(s.drop_last(), i, v);
        assert(s.update(i, v).drop_last() =~= s.drop_last().update(i, v));
    }
}

/// Replacing one link of a node changes that link and nothing else.
pub proof fn lemma_relink<T>(n: BinaryTreeNode<T>, id: NodeId, side: Side)
    ensures
        n.with_parent_spec(id).data_spec() == n.data_spec(),
        n.with_parent_spec(id).left_spec() == n.left_spec(),
        n.with_parent_spec(id).right_spec() == n.right_spec(),
        n.with_parent_spec(id).parent_spec() == id,
        n.with_child_spec(id, side).data_spec() == n.data_spec(),
        n.with_child_spec(id, side).parent_spec() == n.parent_spec(),
        n.with_child_spec(id, side).child_spec(side) == id,
        n.with_child_spec(id, side).child_spec(side.opposite()) == n.child_spec(side.opposite()),
{
}

/// Exchanging the children of a node changes its child links and nothing else.
pub proof fn lemma_swapped<T>(n: BinaryTreeNode<T>)
    ensures
        n.swapped_spec().data_spec() == n.data_spec(),
        n.swapped_spec().parent_spec() == n.parent_spec(),
        n.swapped_spec().left_spec() == n.right_spec(),
        n.swapped_spec().right_spec() == n.left_spec(),
{
}

/// Two arenas with the same occupied slots have the same number of them.
proof fn lemma_live_count_same_slots<A, B>(a: Seq<Option<A>>, b: Seq<Option<B>>)
    requires
        a.len() == b.len(),
        forall|i: int| 0 <= i < a.len() ==> (#[trigger] b[i] is Some) == (a[i] is Some),
    ensures
        live_count(a) == live_count(b),
    decreases a.len(),
{
    if a.len() > 0 {
        lemma_live_count_same_slots(a.drop_last(), b.drop_last());
    }
}

/// The occupied slots are at most all slots.
proof fn lemma_live_count_bound<N>(s: Seq<Option<N>>)
    ensures
        live_count(s) <= s.len(),
    decreases s.len(),
{
    if s.len() > 0 {
        lemma_live_count_bound(s.drop_last());
    }
}

/// The ids of the occupied slots.
pub closed spec fn occupied_ids<N>(s: Seq<Option<N>>) -> Set<NodeId> {
    Set::new(|x: NodeId| x.index < s.len() && s[x.index as int] is Some)
}

/// There are as many ids of occupied slots as occupied slots.
proof fn lemma_occupied_ids<N>(s: Seq<Option<N>>)
    requires
        s.len() <= usize::MAX,
    ensures
        occupied_ids(s).finite(),
        occupied_ids(s).len() == live_count(s),
    decreases s.len(),
{
    if s.len() == 0 {
        assert(occupied_ids(s) =~= Set::empty());
    } else {
        let p = s.drop_last();
        lemma_occupied_ids(p);
        let last = NodeId { index: (s.len() - 1) as usize };
        if s.last() is Some {
            assert(occupied_ids(s) =~= occupied_ids(p).insert(last));
        } else {
            assert(occupied_ids(s) =~= occupied_ids(p));
        }
    }
}

/// A binary tree whose nodes live in an arena and refer to each other by id.
pub struct BinaryTree<T> {
    nodes: Vec<Option<BinaryTreeNode<T>>>,
    free: Vec<usize>,
    root_id: NodeId,
    len: usize,
    rank: Ghost<Map<int, int>>,
    rank_bound: Ghost<int>,
}

impl<T> BinaryTree<T> {
    /// The node with this id is in the tree.
    pub closed spec fn contains_spec(self, id: NodeId) -> bool {
        &&& id.index_spec() < self.nodes@.len()
        &&& self.nodes@[id.index_spec() as int] is Some
    }

    /// The node with this id.
    pub closed spec fn node_spec(self, id: NodeId) -> BinaryTreeNode<T> {
        self.nodes@[id.index_spec() as int].unwrap()
    }

    /// The id of the root; null for an empty tree.
    pub closed spec fn root_spec(self) -> NodeId {
        self.root_id
    }

    /// The number of nodes.
    pub closed spec fn len_spec(self) -> nat {
        live_count(self.nodes@)
    }

    /// A ghost rank that strictly decreases from every node to its children.
    pub closed spec fn rank_spec(self, id: NodeId) -> int {
        self.rank@[id.index_spec() as int]
    }

    /// An upper bound of all ranks.
    pub closed spec fn rank_bound_spec(self) -> int {
        self.rank_bound@
    }

    /// The edge from `id` down to its child `c`, if any, is consistent.
    pub open spec fn child_ok(self, id: NodeId, c: NodeId) -> bool {
        c.is_null_spec() || {
            &&& self.contains_spec(c)
            &&& self.node_spec(c).parent_spec() == id
            &&& self.rank_spec(c) < self.rank_spec(id)
        }
    }

    /// The links of the node `id` are consistent with the nodes they point to.
    pub open spec fn node_ok(self, id: NodeId) -> bool {
        let n = self.node_spec(id);
        &&& self.child_ok(id, n.left_spec())
        &&& self.child_ok(id, n.right_spec())
        &&& (n.parent_spec().is_null_spec() || {
            &&& self.contains_spec(n.parent_spec())
            &&& self.node_spec(n.parent_spec()).side_of_spec(id) is Some
        })
        &&& (n.left_spec().is_null_spec() || n.left_spec() != n.right_spec())
        &&& 0 < self.rank_spec(id) < self.rank_bound_spec()
    }

    /// The tree is well formed: every link between nodes is mirrored by the node it
    /// points to, and the nodes below a node have lower ranks.
    pub open spec fn wf(self) -> bool {
        &&& self.wf_size()
        &&& (self.root_spec().is_null_spec() || self.contains_spec(self.root_spec()))
        &&& forall|id: NodeId| #[trigger] self.contains_spec(id) ==> self.node_ok(id)
    }

    /// The stored count and the arena size agree, and the list of free slots holds
    /// distinct empty slots of the arena.
    pub closed spec fn wf_size(self) -> bool {
        &&& self.nodes@.len() < usize::MAX
        &&& self.len == live_count(self.nodes@)
        &&& forall|i: int| #![trigger self.free@[i]] 0 <= i < self.free@.len() ==> {
            &&& self.free@[i] < self.nodes@.len()
            &&& self.nodes@[self.free@[i] as int] is None
        }
        &&& forall|i: int, j: int| 0 <= i < j < self.free@.len() ==> self.free@[i] != self.free@[j]
    }
}


impl<T> BinaryTree<T> {
    /// The number of slots of the arena.
    pub closed spec fn slots_spec(self) -> nat {
        self.nodes@.len()
    }

    /// The nodes outside `ids` are the same in both trees.
    pub open spec fn same_outside(self, other: Self, ids: Set<NodeId>) -> bool {
        forall|x: NodeId| #![trigger self.contains_spec(x)] #![trigger other.contains_spec(x)]
            !ids.contains(x) ==> {
                &&& self.contains_spec(x) == other.contains_spec(x)
                &&& (self.contains_spec(x) ==> self.node_spec(x) == other.node_spec(x))
            }
    }

    /// An empty tree.
    pub fn new() -> (t: Self)
        ensures
            t.wf(),
            t.len_spec() == 0,
            t.slots_spec() == 0,
            t.root_spec().is_null_spec(),
            forall|x: NodeId| !(#[trigger] t.contains_spec(x)),
    {
        BinaryTree {
            nodes: Vec::new(),
            free: Vec::new(),
            root_id: NodeId::null(),
            len: 0,
            rank: Ghost(Map::empty()),
            rank_bound: Ghost(1),
        }
    }

    /// Whether the tree has no root.
    pub fn is_empty(&self) -> (r: bool)
        ensures
            r == self.root_spec().is_null_spec(),
    {
        self.root_id.is_null()
    }

    /// The number of nodes in the tree.
    pub fn len(&self) -> (r: usize)
        requires
            self.wf(),
        ensures
            r == self.len_spec(),
    {
        self.len
    }

    /// The id of the root; null for an empty tree.
    pub fn root_id(&self) -> (r: NodeId)
        ensures
            r == self.root_spec(),
    {
        self.root_id
    }

    /// Makes the node with the given id the root.
    fn set_root_id(&mut self, root_id: NodeId)
        ensures
            *final(self) == (BinaryTree { root_id: root_id, ..*old(self) }),
    {
        self.root_id = root_id;
    }

    /// Makes the node with the given id, which is in the tree, the root.
    pub(crate) fn make_root(&mut self, root_id: NodeId)
        requires
            old(self).wf(),
            old(self).contains_spec(root_id),
        ensures
            final(self).wf(),
            final(self).root_spec() == root_id,
            final(self).len_spec() == old(self).len_spec(),
            forall|z: NodeId| #[trigger] final(self).contains_spec(z) == old(self).contains_spec(z),
            forall|z: NodeId| #[trigger] final(self).node_spec(z) == old(self).node_spec(z),
    {
        let ghost t0 = *self;
        self.root_id = root_id;
        proof {
            assert forall|z: NodeId| #[trigger] self.contains_spec(z) implies self.node_ok(z) by {
                assert(t0.contains_spec(z));
                assert(t0.node_ok(z));
            }
        }
    }

    /// Replaces the ghost ranks.
    fn set_ranks(&mut self, rank: Ghost<Map<int, int>>, rank_bound: Ghost<int>)
        ensures
            *final(self) == (BinaryTree { rank: rank, rank_bound: rank_bound, ..*old(self) }),
    {
        self.rank = rank;
        self.rank_bound = rank_bound;
    }

    /// The node with the given id, if it is in the tree.
    pub fn node(&self, node_id: NodeId) -> (r: Option<&BinaryTreeNode<T>>)
        ensures
            r == (if self.contains_spec(node_id) {
                Some(&self.node_spec(node_id))
            } else {
                None
            }),
    {
        if node_id.index < self.nodes.len() {
            self.nodes[node_id.index].as_ref()
        } else {
            None
        }
    }

    /// The root node, if there is one.
    pub fn root(&self) -> (r: Option<&BinaryTreeNode<T>>)
        ensures
            r == (if self.contains_spec(self.root_spec()) {
                Some(&self.node_spec(self.root_spec()))
            } else {
                None
            }),
    {
        self.node(self.root_id)
    }

    /// Adds a node without parent or children; it becomes the root if the tree had none.
    fn new_node(&mut self, data: T) -> (id: NodeId)
        requires
            old(self).wf(),
            old(self).slots_spec() + 1 < usize::MAX,
        ensures
            final(self).wf(),
            !old(self).contains_spec(id),
            final(self).contains_spec(id),
            !id.is_null_spec(),
            final(self).node_spec(id).data_spec() == data,
            final(self).node_spec(id).parent_spec().is_null_spec(),
            final(self).node_spec(id).left_spec().is_null_spec(),
            final(self).node_spec(id).right_spec().is_null_spec(),
            final(self).same_outside(*old(self), set![id]),
            final(self).len_spec() == old(self).len_spec() + 1,
            final(self).slots_spec() <= old(self).slots_spec() + 1,
            old(self).slots_spec() == 0 ==> final(self).slots_spec() == 1,
            final(self).root_spec() == (if old(self).root_spec().is_null_spec() {
                id
            } else {
                old(self).root_spec()
            }),
            final(self).rank_spec(id) == 1,
            forall|x: NodeId| #[trigger] old(self).contains_spec(x) ==> final(self).rank_spec(x) == old(self).rank_spec(x),
    {
        let node = BinaryTreeNode::new(data);
        let index = match self.free.pop() {
            Some(index) => {
                proof {
                    assert(old(self).free@[old(self).free@.len() - 1] == index);
                    lemma_live_count_update(self.nodes@, index as int, Some(node));
                    lemma_live_count_bound(self.nodes@);
                }
                self.nodes.set(index, Some(node));
                proof {
                    assert forall|i: int| #![trigger self.free@[i]] 0 <= i < self.free@.len() implies {
                        &&& self.free@[i] < self.nodes@.len()
                        &&& self.nodes@[self.free@[i] as int] is None
                    } by {
                        assert(self.free@[i] == old(self).free@[i]);
                        assert(old(self).free@[i] != old(self).free@[old(self).free@.len() - 1]);
                    }
                }
                index
            },
            None => {
                let index = self.nodes.len();
                proof {
                    lemma_live_count_bound(self.nodes@);
                }
                self.nodes.push(Some(node));
                proof {
                    assert(self.nodes@.drop_last() =~= old(self).nodes@);
                }
                index
            },
        };
        let id = NodeId { index };
        self.len = self.len + 1;
        let ghost new_bound = if self.rank_bound@ > 2 { self.rank_bound@ } else { 2 };
        self.rank = Ghost(self.rank@.insert(index as int, 1));
        self.rank_bound = Ghost(new_bound);
        if self.root_id.is_null() {
            self.root_id = id;
        }
        proof {
            assert forall|x: NodeId| #[trigger] self.contains_spec(x) implies self.node_ok(x) by {
                if x != id {
                    assert(old(self).contains_spec(x));
                    assert(old(self).node_ok(x));
                }
            }
        }
        id
    }

    /// A tree with a single node holding the data.
    pub fn new_singleton(data: T) -> (t: Self)
        ensures
            t.wf(),
            t.len_spec() == 1,
            t.slots_spec() == 1,
            t.contains_spec(t.root_spec()),
            t.node_spec(t.root_spec()).data_spec() == data,
            t.node_spec(t.root_spec()).parent_spec().is_null_spec(),
            t.node_spec(t.root_spec()).left_spec().is_null_spec(),
            t.node_spec(t.root_spec()).right_spec().is_null_spec(),
            forall|x: NodeId| #[trigger] t.contains_spec(x) ==> x == t.root_spec(),
    {
        let mut tree = Self::new();
        let root_id = tree.new_node(data);
        tree.root_id = root_id;
        tree
    }
}


impl<T> BinaryTree<T> {
    /// The node with the given id, with its links replaced.
    pub closed spec fn relinked(self, id: NodeId, parent: NodeId, left: NodeId, right: NodeId) -> BinaryTreeNode<T> {
        BinaryTreeNode { parent_id: parent, left_id: left, right_id: right, ..self.node_spec(id) }
    }

    /// Replaces the links of a node, leaving everything else unchanged.
    fn set_links(&mut self, id: NodeId, parent: NodeId, left: NodeId, right: NodeId)
        requires
            old(self).contains_spec(id),
        ensures
            final(self).nodes@ == old(self).nodes@.update(
                id.index_spec() as int,
                Some(old(self).relinked(id, parent, left, right)),
            ),
            final(self).root_id == old(self).root_id,
            final(self).len == old(self).len,
            final(self).rank == old(self).rank,
            final(self).rank_bound == old(self).rank_bound,
            final(self).len_spec() == old(self).len_spec(),
            final(self).wf_size() == old(self).wf_size(),
            final(self).slots_spec() == old(self).slots_spec(),
    {
        proof {
            lemma_live_count_update(self.nodes@, id.index as int, Some(self.relinked(id, parent, left, right)));
        }
        let slot = &mut self.nodes[id.index];
        match slot {
            Some(n) => {
                n.parent_id = parent;
                n.left_id = left;
                n.right_id = right;
            },
            None => {},
        }
    }
}


impl<T> BinaryTree<T> {
    /// The id of the parent of the node, if the node is in the tree.
    pub fn parent_id(&self, node_id: NodeId) -> (r: Option<NodeId>)
        ensures
            r == (if self.contains_spec(node_id) {
                Some(self.node_spec(node_id).parent_spec())
            } else {
                None
            }),
    {
        match self.node(node_id) {
            Some(node) => Some(node.parent_id),
            None => None,
        }
    }

    /// The id of the left child of the node, if the node is in the tree.
    pub fn left_id(&self, node_id: NodeId) -> (r: Option<NodeId>)
        ensures
            r == (if self.contains_spec(node_id) {
                Some(self.node_spec(node_id).left_spec())
            } else {
                None
            }),
    {
        match self.node(node_id) {
            Some(node) => Some(node.left_id),
            None => None,
        }
    }

    /// The id of the right child of the node, if the node is in the tree.
    pub fn right_id(&self, node_id: NodeId) -> (r: Option<NodeId>)
        ensures
            r == (if self.contains_spec(node_id) {
                Some(self.node_spec(node_id).right_spec())
            } else {
                None
            }),
    {
        match self.node(node_id) {
            Some(node) => Some(node.right_id),
            None => None,
        }
    }

    /// The id of the child on `side` of the node, if the node is in the tree.
    pub fn child_id(&self, node_id: NodeId, side: Side) -> (r: Option<NodeId>)
        ensures
            r == (if self.contains_spec(node_id) {
                Some(self.node_spec(node_id).child_spec(side))
            } else {
                None
            }),
    {
        match side {
            Side::Left => self.left_id(node_id),
            Side::Right => self.right_id(node_id),
        }
    }

    /// The parent node, if the node and its parent are in the tree.
    pub fn parent(&self, node_id: NodeId) -> (r: Option<&BinaryTreeNode<T>>)
        ensures
            r == (if self.contains_spec(node_id) && self.contains_spec(self.node_spec(node_id).parent_spec()) {
                Some(&self.node_spec(self.node_spec(node_id).parent_spec()))
            } else {
                None
            }),
    {
        match self.parent_id(node_id) {
            Some(parent_id) => self.node(parent_id),
            None => None,
        }
    }

    /// The left child node, if the node and that child are in the tree.
    pub fn left(&self, node_id: NodeId) -> (r: Option<&BinaryTreeNode<T>>)
        ensures
            r == (if self.contains_spec(node_id) && self.contains_spec(self.node_spec(node_id).left_spec()) {
                Some(&self.node_spec(self.node_spec(node_id).left_spec()))
            } else {
                None
            }),
    {
        match self.left_id(node_id) {
            Some(left_id) => self.node(left_id),
            None => None,
        }
    }

    /// The right child node, if the node and that child are in the tree.
    pub fn right(&self, node_id: NodeId) -> (r: Option<&BinaryTreeNode<T>>)
        ensures
            r == (if self.contains_spec(node_id) && self.contains_spec(self.node_spec(node_id).right_spec()) {
                Some(&self.node_spec(self.node_spec(node_id).right_spec()))
            } else {
                None
            }),
    {
        match self.right_id(node_id) {
            Some(right_id) => self.node(right_id),
            None => None,
        }
    }

    /// Removes the node from the tree and returns its data. The node must have no parent
    /// and no children. Returns None if the node is not in the tree.
    fn remove_node(&mut self, node_id: NodeId) -> (r: Option<T>)
        requires
            old(self).wf(),
            old(self).contains_spec(node_id) ==> {
                let n = old(self).node_spec(node_id);
                &&& n.parent_spec().is_null_spec()
                &&& n.left_spec().is_null_spec()
                &&& n.right_spec().is_null_spec()
            },
        ensures
            final(self).wf(),
            r == (if old(self).contains_spec(node_id) {
                Some(old(self).node_spec(node_id).data_spec())
            } else {
                None
            }),
            !final(self).contains_spec(node_id),
            final(self).same_outside(*old(self), set![node_id]),
            final(self).root_spec() == (if old(self).root_spec() == node_id {
                NodeId::null_spec()
            } else {
                old(self).root_spec()
            }),
            final(self).len_spec() == old(self).len_spec() - (if old(self).contains_spec(node_id) { 1int } else { 0int }),
            final(self).slots_spec() == old(self).slots_spec(),
            forall|x: NodeId| #[trigger] final(self).contains_spec(x) ==> final(self).rank_spec(x) == old(self).rank_spec(x),
            final(self).rank_bound_spec() == old(self).rank_bound_spec(),
    {
        if self.root_id == node_id {
            self.root_id = NodeId::null();
        }
        if node_id.index < self.nodes.len() {
            let ghost i = node_id.index as int;
            let slot = &mut self.nodes[node_id.index];
            let taken = slot.take();
            match taken {
                Some(node) => {
                    proof {
                        lemma_live_count_update(old(self).nodes@, i, None);
                    }
                    self.len = self.len - 1;
                    self.free.push(node_id.index);
                    proof {
                        assert(self.nodes@ == old(self).nodes@.update(i, None));
                        assert forall|k: int| #![trigger self.free@[k]] 0 <= k < self.free@.len() implies {
                            &&& self.free@[k] < self.nodes@.len()
                            &&& self.nodes@[self.free@[k] as int] is None
                        } by {
                            if k < old(self).free@.len() {
                                assert(self.free@[k] == old(self).free@[k]);
                            }
                        }
                        assert forall|a: int, b: int| 0 <= a < b < self.free@.len() implies self.free@[a] != self.free@[b] by {
                            if b == old(self).free@.len() {
                                assert(old(self).nodes@[old(self).free@[a] as int] is None);
                            }
                        }
                        assert forall|x: NodeId| #[trigger] self.contains_spec(x) implies self.node_ok(x) by {
                            assert(old(self).contains_spec(x));
                            assert(old(self).node_ok(x));
                            let n = old(self).node_spec(x);
                            if n.left_spec() == node_id {
                                assert(old(self).node_spec(node_id).parent_spec() == x);
                            }
                            if n.right_spec() == node_id {
                                assert(old(self).node_spec(node_id).parent_spec() == x);
                            }
                            if n.parent_spec() == node_id {
                                assert(old(self).node_ok(node_id));
                            }
                        }
                    }
                    assert(self.wf_size());
                    assert(self.root_spec().is_null_spec() || self.contains_spec(self.root_spec()));
                    Some(node.into_data())
                },
                None => {
                    proof {
                        assert(self.nodes@ =~= old(self).nodes@);
                    }
                    assert(self.wf_size());
                    assert(self.root_spec().is_null_spec() || self.contains_spec(self.root_spec()));
                    assert forall|x: NodeId| #[trigger] self.contains_spec(x) implies self.node_ok(x) by {
                        assert(old(self).contains_spec(x));
                        assert(old(self).node_ok(x));
                    }
                    None
                },
            }
        } else {
            assert forall|x: NodeId| #[trigger] self.contains_spec(x) implies self.node_ok(x) by {
                assert(old(self).contains_spec(x));
                assert(old(self).node_ok(x));
            }
            None
        }
    }

    /// Adds an edge from the parent down to the child on `side`. Does nothing unless both
    /// nodes are in the tree and distinct.
    fn add_edge_unchecked(&mut self, parent_id: NodeId, child_id: NodeId, side: Side)
        requires
            old(self).wf(),
            old(self).contains_spec(parent_id) && old(self).contains_spec(child_id) && parent_id != child_id ==> {
                &&& old(self).node_spec(parent_id).child_spec(side).is_null_spec()
                &&& old(self).node_spec(child_id).parent_spec().is_null_spec()
                &&& old(self).rank_spec(child_id) < old(self).rank_spec(parent_id)
            },
        ensures
            final(self).wf(),
            final(self).same_outside(*old(self), set![parent_id, child_id]),
            final(self).root_spec() == old(self).root_spec(),
            final(self).len_spec() == old(self).len_spec(),
            final(self).slots_spec() == old(self).slots_spec(),
            final(self).rank == old(self).rank,
            final(self).rank_bound == old(self).rank_bound,
            forall|x: NodeId| #[trigger] final(self).contains_spec(x) == old(self).contains_spec(x),
            old(self).contains_spec(parent_id) && old(self).contains_spec(child_id) && parent_id != child_id ==> {
                &&& final(self).node_spec(parent_id) == old(self).node_spec(parent_id).with_child_spec(child_id, side)
                &&& final(self).node_spec(child_id) == old(self).node_spec(child_id).with_parent_spec(parent_id)
            },
            !(old(self).contains_spec(parent_id) && old(self).contains_spec(child_id) && parent_id != child_id)
                ==> *final(self) == *old(self),
    {
        if parent_id == child_id || self.node(parent_id).is_none() || self.node(child_id).is_none() {
            return;
        }
        let p = self.node(parent_id).unwrap();
        let (pp, pl, pr) = (p.parent_id, p.left_id, p.right_id);
        let (new_left, new_right) = match side {
            Side::Left => (child_id, pr),
            Side::Right => (pl, child_id),
        };
        self.set_links(parent_id, pp, new_left, new_right);
        let c = self.node(child_id).unwrap();
        let (cl, cr) = (c.left_id, c.right_id);
        self.set_links(child_id, parent_id, cl, cr);
        proof {
            assert(self.node_spec(parent_id) == old(self).node_spec(parent_id).with_child_spec(child_id, side));
            assert forall|x: NodeId| #[trigger] self.contains_spec(x) == old(self).contains_spec(x) by {}
            assert forall|x: NodeId| #[trigger] self.contains_spec(x) implies self.node_ok(x) by {
                assert(old(self).node_ok(x));
                let n = old(self).node_spec(x);
                if x != parent_id && x != child_id {
                    if n.parent_spec() == parent_id {
                        assert(old(self).node_spec(parent_id).side_of_spec(x) is Some);
                    }
                }
                if x == parent_id {
                    assert(old(self).node_ok(child_id));
                }
                if x == child_id {
                    assert(old(self).node_ok(parent_id));
                }
            }
        }
    }

    /// Removes the edge between the parent and the child. Returns whether there was such
    /// an edge.
    fn remove_edge(&mut self, parent_id: NodeId, child_id: NodeId) -> (r: bool)
        requires
            old(self).wf(),
        ensures
            final(self).wf(),
            r == (old(self).contains_spec(parent_id) && old(self).contains_spec(child_id) && parent_id != child_id
                && old(self).node_spec(child_id).parent_spec() == parent_id
                && old(self).node_spec(parent_id).side_of_spec(child_id) is Some),
            final(self).same_outside(*old(self), set![parent_id, child_id]),
            final(self).root_spec() == old(self).root_spec(),
            final(self).len_spec() == old(self).len_spec(),
            final(self).slots_spec() == old(self).slots_spec(),
            final(self).rank == old(self).rank,
            final(self).rank_bound == old(self).rank_bound,
            forall|x: NodeId| #[trigger] final(self).contains_spec(x) == old(self).contains_spec(x),
            r ==> {
                let side = old(self).node_spec(parent_id).side_of_spec(child_id).unwrap();
                &&& final(self).node_spec(parent_id) == old(self).node_spec(parent_id).with_child_spec(NodeId::null_spec(), side)
                &&& final(self).node_spec(child_id) == old(self).node_spec(child_id).with_parent_spec(NodeId::null_spec())
            },
            !r ==> *final(self) == *old(self),
    {
        if parent_id == child_id || self.node(parent_id).is_none() || self.node(child_id).is_none() {
            return false;
        }
        let c = self.node(child_id).unwrap();
        if c.parent_id != parent_id {
            return false;
        }
        let (cl, cr) = (c.left_id, c.right_id);
        let p = self.node(parent_id).unwrap();
        let (pp, pl, pr) = (p.parent_id, p.left_id, p.right_id);
        if pl == child_id {
            self.set_links(parent_id, pp, NodeId::null(), pr);
        } else if pr == child_id {
            self.set_links(parent_id, pp, pl, NodeId::null());
        } else {
            return false;
        }
        self.set_links(child_id, NodeId::null(), cl, cr);
        proof {
            assert forall|x: NodeId| #[trigger] self.contains_spec(x) == old(self).contains_spec(x) by {}
            assert forall|x: NodeId| #[trigger] self.contains_spec(x) implies self.node_ok(x) by {
                assert(old(self).node_ok(x));
                let n = old(self).node_spec(x);
                if x != parent_id && x != child_id {
                    if n.parent_spec() == parent_id {
                        assert(old(self).node_spec(parent_id).side_of_spec(x) is Some);
                    }
                    if n.left_spec() == child_id || n.right_spec() == child_id {
                        assert(old(self).node_ok(child_id));
                    }
                }
            }
        }
        true
    }
}


impl<T> BinaryTree<T> {
    /// The node reached from `id` by following links to the child on `side` for as long
    /// as there is one.
    pub open spec fn extreme(self, id: NodeId, side: Side) -> NodeId
        decreases self.rank_spec(id),
        when self.wf() && self.contains_spec(id)
    {
        let c = self.node_spec(id).child_spec(side);
        if c.is_null_spec() {
            id
        } else {
            self.extreme(c, side)
        }
    }

    /// The first ancestor of `id` that is entered from its child on `side` when walking
    /// up from `id`; null if there is none.
    pub open spec fn ancestor_from(self, id: NodeId, side: Side) -> NodeId
        decreases self.rank_bound_spec() - self.rank_spec(id),
        when self.wf() && self.contains_spec(id)
    {
        let p = self.node_spec(id).parent_spec();
        if p.is_null_spec() {
            NodeId::null_spec()
        } else if self.node_spec(p).side_of_spec(id) == Some(side) {
            p
        } else {
            self.ancestor_from(p, side)
        }
    }

    /// The inorder neighbor of `id` on `side`: its successor for the right side and its
    /// predecessor for the left side; null if there is none.
    pub open spec fn neighbor(self, id: NodeId, side: Side) -> NodeId {
        let c = self.node_spec(id).child_spec(side);
        if !c.is_null_spec() {
            self.extreme(c, side.opposite())
        } else {
            self.ancestor_from(id, side.opposite())
        }
    }
}

/// Any set of nodes of a well-formed tree is finite and has at most as many members as
/// the tree has nodes, which are fewer than `usize::MAX`.
pub proof fn lemma_contained_ids_bound<T>(t: BinaryTree<T>, ids: Set<NodeId>)
    requires
        t.wf(),
        forall|x: NodeId| #[trigger] ids.contains(x) ==> t.contains_spec(x),
    ensures
        ids.finite(),
        ids.len() <= t.len_spec(),
        t.len_spec() < usize::MAX,
{
    lemma_occupied_ids(t.nodes@);
    lemma_live_count_bound(t.nodes@);
    assert(ids.subset_of(occupied_ids(t.nodes@)));
    vstd::set_lib::lemma_len_subset(ids, occupied_ids(t.nodes@));
}

/// A node in a well-formed tree has a non-null id.
pub proof fn lemma_contains_not_null<T>(t: BinaryTree<T>, id: NodeId)
    requires
        t.wf(),
        t.contains_spec(id),
    ensures
        !id.is_null_spec(),
{
}

/// A cursor over a `BinaryTree`, which can freely walk through the tree.
/// A cursor starts at the (possibly non-existent) root of the tree.
pub struct Cursor<'t, T> {
    tree: &'t BinaryTree<T>,
    node_id: NodeId,
}

impl<'t, T> Clone for Cursor<'t, T> {
    fn clone(&self) -> (r: Self)
        ensures
            r == *self,
    {
        Cursor { tree: self.tree, node_id: self.node_id }
    }
}

impl<'t, T> Cursor<'t, T> {
    /// The tree the cursor walks through.
    pub closed spec fn tree_spec(self) -> BinaryTree<T> {
        *self.tree
    }

    /// The id of the node the cursor points at.
    pub closed spec fn id_spec(self) -> NodeId {
        self.node_id
    }

    /// The cursor points at a node of its tree.
    pub open spec fn at_node(self) -> bool {
        self.tree_spec().contains_spec(self.id_spec())
    }

    /// The node the cursor points at.
    pub open spec fn node_at(self) -> BinaryTreeNode<T> {
        self.tree_spec().node_spec(self.id_spec())
    }

    fn new(tree: &'t BinaryTree<T>, node_id: NodeId) -> (r: Self)
        ensures
            r.tree_spec() == *tree,
            r.id_spec() == node_id,
    {
        Cursor { tree, node_id }
    }

    /// Another cursor at the same node.
    pub fn spawn_cursor(&self) -> (r: Self)
        ensures
            r == *self,
    {
        Cursor { tree: self.tree, node_id: self.node_id }
    }

    fn node(&self) -> (r: Option<&'t BinaryTreeNode<T>>)
        ensures
            r == (if self.at_node() {
                Some(&self.node_at())
            } else {
                None
            }),
    {
        self.tree.node(self.node_id)
    }

    /// The id of the node the cursor points at.
    pub fn node_id(&self) -> (r: NodeId)
        ensures
            r == self.id_spec(),
    {
        self.node_id
    }

    /// Moves to the parent node, returning the side of the parent on which the cursor
    /// was. If there is no parent, None is returned and the cursor is not moved.
    pub fn try_move_up(&mut self) -> (r: Option<Side>)
        requires
            old(self).tree_spec().wf(),
        ensures
            final(self).tree_spec() == old(self).tree_spec(),
            old(self).at_node() && !old(self).node_at().parent_spec().is_null_spec() ==> {
                &&& final(self).id_spec() == old(self).node_at().parent_spec()
                &&& final(self).at_node()
                &&& r == final(self).node_at().side_of_spec(old(self).id_spec())
                &&& r is Some
            },
            !(old(self).at_node() && !old(self).node_at().parent_spec().is_null_spec()) ==> {
                &&& final(self).id_spec() == old(self).id_spec()
                &&& r is None
            },
    {
        let node_id = self.node_id;
        let parent_id = match self.tree.parent_id(self.node_id) {
            Some(p) => p,
            None => return None,
        };
        if !parent_id.is_null() {
            proof {
                assert(self.tree.node_ok(node_id));
            }
            self.node_id = parent_id;
            match self.tree.node(parent_id) {
                Some(parent) => parent.side_of(node_id),
                None => None,
            }
        } else {
            None
        }
    }

    /// Moves to the child on `side`. If there is none, false is returned and the cursor
    /// is not moved.
    pub fn try_move_side(&mut self, side: Side) -> (r: bool)
        requires
            old(self).tree_spec().wf(),
        ensures
            final(self).tree_spec() == old(self).tree_spec(),
            r == (old(self).at_node() && !old(self).node_at().child_spec(side).is_null_spec()),
            r ==> final(self).id_spec() == old(self).node_at().child_spec(side) && final(self).at_node(),
            !r ==> final(self).id_spec() == old(self).id_spec(),
    {
        match side {
            Side::Left => self.try_move_left(),
            Side::Right => self.try_move_right(),
        }
    }

    /// Moves to the left child. If there is none, false is returned and the cursor is not
    /// moved.
    pub fn try_move_left(&mut self) -> (r: bool)
        requires
            old(self).tree_spec().wf(),
        ensures
            final(self).tree_spec() == old(self).tree_spec(),
            r == (old(self).at_node() && !old(self).node_at().left_spec().is_null_spec()),
            r ==> final(self).id_spec() == old(self).node_at().left_spec() && final(self).at_node(),
            !r ==> final(self).id_spec() == old(self).id_spec(),
    {
        match self.tree.left_id(self.node_id) {
            Some(left_id) => if !left_id.is_null() {
                proof {
                    assert(self.tree.node_ok(self.node_id));
                }
                self.node_id = left_id;
                true
            } else {
                false
            },
            None => false,
        }
    }

    /// Moves to the right child. If there is none, false is returned and the cursor is
    /// not moved.
    pub fn try_move_right(&mut self) -> (r: bool)
        requires
            old(self).tree_spec().wf(),
        ensures
            final(self).tree_spec() == old(self).tree_spec(),
            r == (old(self).at_node() && !old(self).node_at().right_spec().is_null_spec()),
            r ==> final(self).id_spec() == old(self).node_at().right_spec() && final(self).at_node(),
            !r ==> final(self).id_spec() == old(self).id_spec(),
    {
        match self.tree.right_id(self.node_id) {
            Some(right_id) => if !right_id.is_null() {
                proof {
                    assert(self.tree.node_ok(self.node_id));
                }
                self.node_id = right_id;
                true
            } else {
                false
            },
            None => false,
        }
    }

    /// Moves to the parent node, or to no node if there is none. Returns the side of the
    /// parent on which the cursor was.
    pub fn move_up(&mut self) -> (r: Option<Side>)
        requires
            old(self).tree_spec().wf(),
        ensures
            final(self).tree_spec() == old(self).tree_spec(),
            final(self).id_spec() == (if old(self).at_node() {
                old(self).node_at().parent_spec()
            } else {
                NodeId::null_spec()
            }),
            r == (if final(self).at_node() {
                final(self).node_at().side_of_spec(old(self).id_spec())
            } else {
                None
            }),
    {
        let node_id = self.node_id;
        self.node_id = match self.tree.parent_id(node_id) {
            Some(p) => p,
            None => NodeId::null(),
        };
        match self.node() {
            Some(parent) => parent.side_of(node_id),
            None => None,
        }
    }

    /// Moves to the child on `side`, or to no node if there is none.
    pub fn move_side(&mut self, side: Side)
        ensures
            final(self).tree_spec() == old(self).tree_spec(),
            final(self).id_spec() == (if old(self).at_node() {
                old(self).node_at().child_spec(side)
            } else {
                NodeId::null_spec()
            }),
    {
        match side {
            Side::Left => self.move_left(),
            Side::Right => self.move_right(),
        }
    }

    /// Moves to the left child, or to no node if there is none.
    pub fn move_left(&mut self)
        ensures
            final(self).tree_spec() == old(self).tree_spec(),
            final(self).id_spec() == (if old(self).at_node() {
                old(self).node_at().left_spec()
            } else {
                NodeId::null_spec()
            }),
    {
        self.node_id = match self.tree.left_id(self.node_id) {
            Some(id) => id,
            None => NodeId::null(),
        };
    }

    /// Moves to the right child, or to no node if there is none.
    pub fn move_right(&mut self)
        ensures
            final(self).tree_spec() == old(self).tree_spec(),
            final(self).id_spec() == (if old(self).at_node() {
                old(self).node_at().right_spec()
            } else {
                NodeId::null_spec()
            }),
    {
        self.node_id = match self.tree.right_id(self.node_id) {
            Some(id) => id,
            None => NodeId::null(),
        };
    }

    /// Moves to the inorder neighbor on `side` (the successor for the right side, the
    /// predecessor for the left side). If there is none, false is returned and the
    /// cursor is not moved.
    fn try_move_neighbor(&mut self, side: Side) -> (r: bool)
        requires
            old(self).tree_spec().wf(),
        ensures
            final(self).tree_spec() == old(self).tree_spec(),
            r == (old(self).at_node() && !old(self).tree_spec().neighbor(old(self).id_spec(), side).is_null_spec()),
            r ==> final(self).id_spec() == old(self).tree_spec().neighbor(old(self).id_spec(), side),
            !r ==> final(self).id_spec() == old(self).id_spec(),
    {
        let ghost t = *self.tree;
        let start = self.node_id;
        if self.try_move_side(side) {
            let ghost target = t.extreme(self.node_id, side.opposite());
            assert(target == t.neighbor(start, side));
            loop
                invariant
                    self.tree_spec() == t,
                    t == old(self).tree_spec(),
                    target == t.neighbor(old(self).id_spec(), side),
                    t.wf(),
                    self.at_node(),
                    t.extreme(self.id_spec(), side.opposite()) == target,
                ensures
                    self.id_spec() == target,
                    t.contains_spec(target),
                decreases t.rank_spec(self.id_spec()),
            {
                let ghost before = self.node_id;
                if !self.try_move_side(side.opposite()) {
                    assert(t.extreme(before, side.opposite()) == before);
                    break;
                }
                proof {
                    assert(t.node_ok(before));
                }
            }
            proof {
                lemma_contains_not_null(t, target);
            }
            return true;
        }
        if !self.at_node_exec() {
            return false;
        }
        let ghost target = t.ancestor_from(start, side.opposite());
        assert(target == t.neighbor(start, side));
        loop
            invariant
                self.tree_spec() == t,
                t == old(self).tree_spec(),
                start == old(self).id_spec(),
                t.contains_spec(start),
                target == t.neighbor(start, side),
                t.wf(),
                self.at_node(),
                t.ancestor_from(self.id_spec(), side.opposite()) == target,
            decreases t.rank_bound_spec() - t.rank_spec(self.id_spec()),
        {
            let ghost before = self.node_id;
            match self.try_move_up() {
                Some(s) => {
                    proof {
                        assert(t.node_ok(self.id_spec()));
                        assert(t.node_ok(before));
                        assert(t.ancestor_from(before, side.opposite()) == if s == side.opposite() {
                            self.id_spec()
                        } else {
                            t.ancestor_from(self.id_spec(), side.opposite())
                        });
                        lemma_contains_not_null(t, self.id_spec());
                    }
                    if s == side.opposite() {
                        return true;
                    }
                },
                None => {
                    self.node_id = start;
                    return false;
                },
            }
        }
    }

    /// Moves to the inorder predecessor. If there is none, false is returned and the
    /// cursor is not moved.
    pub fn try_move_prev(&mut self) -> (r: bool)
        requires
            old(self).tree_spec().wf(),
        ensures
            final(self).tree_spec() == old(self).tree_spec(),
            r == (old(self).at_node() && !old(self).tree_spec().neighbor(old(self).id_spec(), Side::Left).is_null_spec()),
            r ==> final(self).id_spec() == old(self).tree_spec().neighbor(old(self).id_spec(), Side::Left),
            r ==> old(self).tree_spec().neighbor(final(self).id_spec(), Side::Right) == old(self).id_spec(),
            !r ==> final(self).id_spec() == old(self).id_spec(),
    {
        proof {
            if old(self).at_node() && !old(self).tree_spec().neighbor(old(self).id_spec(), Side::Left).is_null_spec() {
                lemma_neighbor_inverse(old(self).tree_spec(), old(self).id_spec(), Side::Left);
            }
        }
        self.try_move_neighbor(Side::Left)
    }

    /// Moves to the inorder successor. If there is none, false is returned and the
    /// cursor is not moved.
    pub fn try_move_next(&mut self) -> (r: bool)
        requires
            old(self).tree_spec().wf(),
        ensures
            final(self).tree_spec() == old(self).tree_spec(),
            r == (old(self).at_node() && !old(self).tree_spec().neighbor(old(self).id_spec(), Side::Right).is_null_spec()),
            r ==> final(self).id_spec() == old(self).tree_spec().neighbor(old(self).id_spec(), Side::Right),
            r ==> old(self).tree_spec().neighbor(final(self).id_spec(), Side::Left) == old(self).id_spec(),
            !r ==> final(self).id_spec() == old(self).id_spec(),
    {
        proof {
            if old(self).at_node() && !old(self).tree_spec().neighbor(old(self).id_spec(), Side::Right).is_null_spec() {
                lemma_neighbor_inverse(old(self).tree_spec(), old(self).id_spec(), Side::Right);
            }
        }
        self.try_move_neighbor(Side::Right)
    }

    /// Moves to the inorder predecessor, or to no node if there is none.
    pub fn move_prev(&mut self)
        requires
            old(self).tree_spec().wf(),
        ensures
            final(self).tree_spec() == old(self).tree_spec(),
            final(self).id_spec() == (if old(self).at_node() {
                old(self).tree_spec().neighbor(old(self).id_spec(), Side::Left)
            } else {
                NodeId::null_spec()
            }),
    {
        if !self.try_move_neighbor(Side::Left) {
            self.node_id = NodeId::null();
        }
    }

    /// Moves to the inorder successor, or to no node if there is none.
    pub fn move_next(&mut self)
        requires
            old(self).tree_spec().wf(),
        ensures
            final(self).tree_spec() == old(self).tree_spec(),
            final(self).id_spec() == (if old(self).at_node() {
                old(self).tree_spec().neighbor(old(self).id_spec(), Side::Right)
            } else {
                NodeId::null_spec()
            }),
    {
        if !self.try_move_neighbor(Side::Right) {
            self.node_id = NodeId::null();
        }
    }

    /// The data of the node the cursor points at.
    pub fn get(&self) -> (r: Option<&'t T>)
        ensures
            r == (if self.at_node() {
                Some(&self.node_at().data_spec())
            } else {
                None
            }),
    {
        match self.node() {
            Some(node) => Some(node.data()),
            None => None,
        }
    }

    /// The side of its parent on which the node the cursor points at is.
    pub fn side_of_parent(&self) -> (r: Option<Side>)
        ensures
            r == (if self.at_node() && self.tree_spec().contains_spec(self.node_at().parent_spec()) {
                self.tree_spec().node_spec(self.node_at().parent_spec()).side_of_spec(self.id_spec())
            } else {
                None
            }),
    {
        match self.tree.parent(self.node_id) {
            Some(parent) => parent.side_of(self.node_id),
            None => None,
        }
    }

    /// The data of the parent node.
    pub fn peek_up(&self) -> (r: Option<&'t T>)
        ensures
            r == (if self.at_node() && self.tree_spec().contains_spec(self.node_at().parent_spec()) {
                Some(&self.tree_spec().node_spec(self.node_at().parent_spec()).data_spec())
            } else {
                None
            }),
    {
        match self.tree.parent(self.node_id) {
            Some(node) => Some(node.data()),
            None => None,
        }
    }

    /// The data of the child on `side`.
    pub fn peek_side(&self, side: Side) -> (r: Option<&'t T>)
        ensures
            r == (if self.at_node() && self.tree_spec().contains_spec(self.node_at().child_spec(side)) {
                Some(&self.tree_spec().node_spec(self.node_at().child_spec(side)).data_spec())
            } else {
                None
            }),
    {
        match side {
            Side::Left => self.peek_left(),
            Side::Right => self.peek_right(),
        }
    }

    /// The data of the left child.
    pub fn peek_left(&self) -> (r: Option<&'t T>)
        ensures
            r == (if self.at_node() && self.tree_spec().contains_spec(self.node_at().left_spec()) {
                Some(&self.tree_spec().node_spec(self.node_at().left_spec()).data_spec())
            } else {
                None
            }),
    {
        match self.tree.left(self.node_id) {
            Some(node) => Some(node.data()),
            None => None,
        }
    }

    /// The data of the right child.
    pub fn peek_right(&self) -> (r: Option<&'t T>)
        ensures
            r == (if self.at_node() && self.tree_spec().contains_spec(self.node_at().right_spec()) {
                Some(&self.tree_spec().node_spec(self.node_at().right_spec()).data_spec())
            } else {
                None
            }),
    {
        match self.tree.right(self.node_id) {
            Some(node) => Some(node.data()),
            None => None,
        }
    }

    /// The data of the node, its parent and its children.
    pub fn peek_neighborhood(&self) -> (r: Neighborhood<&'t T>)
        ensures
            r.node == self.get_spec(),
            r.parent == (if self.at_node() && self.tree_spec().contains_spec(self.node_at().parent_spec()) {
                Some(&self.tree_spec().node_spec(self.node_at().parent_spec()).data_spec())
            } else {
                None
            }),
            r.left == (if self.at_node() && self.tree_spec().contains_spec(self.node_at().left_spec()) {
                Some(&self.tree_spec().node_spec(self.node_at().left_spec()).data_spec())
            } else {
                None
            }),
            r.right == (if self.at_node() && self.tree_spec().contains_spec(self.node_at().right_spec()) {
                Some(&self.tree_spec().node_spec(self.node_at().right_spec()).data_spec())
            } else {
                None
            }),
    {
        Neighborhood { node: self.get(), parent: self.peek_up(), left: self.peek_left(), right: self.peek_right() }
    }

    /// The data of the node the cursor points at, if any.
    pub open spec fn get_spec(self) -> Option<&'t T> {
        if self.at_node() {
            Some(&self.node_at().data_spec())
        } else {
            None
        }
    }

    /// Whether the cursor points at a node of its tree.
    fn at_node_exec(&self) -> (r: bool)
        ensures
            r == self.at_node(),
    {
        self.node().is_some()
    }
}


impl<T> BinaryTree<T> {
    /// `u` is this tree with the data of the node `id` replaced by `data`.
    pub closed spec fn data_updated(self, u: BinaryTree<T>, id: NodeId, data: T) -> bool {
        &&& u.nodes@ == self.nodes@.update(id.index_spec() as int, Some(self.node_spec(id).with_data_spec(data)))
        &&& u.root_id == self.root_id
        &&& u.free == self.free
        &&& u.len == self.len
        &&& u.rank == self.rank
        &&& u.rank_bound == self.rank_bound
    }
}

/// Replacing the data of a node keeps the tree well formed and its shape.
pub proof fn lemma_with_data<T>(t: BinaryTree<T>, u: BinaryTree<T>, id: NodeId, data: T)
    requires
        t.wf(),
        t.contains_spec(id),
        t.data_updated(u, id, data),
    ensures
        u.wf(),
        u.root_spec() == t.root_spec(),
        u.len_spec() == t.len_spec(),
        u.slots_spec() == t.slots_spec(),
        u.node_spec(id) == t.node_spec(id).with_data_spec(data),
        u.node_spec(id).data_spec() == data,
        u.node_spec(id).parent_spec() == t.node_spec(id).parent_spec(),
        u.node_spec(id).left_spec() == t.node_spec(id).left_spec(),
        u.node_spec(id).right_spec() == t.node_spec(id).right_spec(),
        u.same_outside(t, set![id]),
        forall|x: NodeId| #[trigger] u.contains_spec(x) == t.contains_spec(x),
        forall|x: NodeId| #[trigger] u.rank_spec(x) == t.rank_spec(x),
        u.rank_bound_spec() == t.rank_bound_spec(),
{
    lemma_live_count_update(t.nodes@, id.index_spec() as int, Some(t.node_spec(id).with_data_spec(data)));
    assert forall|x: NodeId| #[trigger] u.contains_spec(x) == t.contains_spec(x) by {}
    assert forall|x: NodeId| #[trigger] u.contains_spec(x) implies u.node_ok(x) by {
        assert(t.node_ok(x));
    }
}

impl<T> BinaryTree<T> {
    /// A mutable reference to the data of a node, if it is in the tree.
    pub fn data_mut(&mut self, node_id: NodeId) -> (r: Option<&mut T>)
        ensures
            r is Some == old(self).contains_spec(node_id),
            r is Some ==> *r.unwrap() == old(self).node_spec(node_id).data_spec(),
            r is Some ==> old(self).data_updated(*final(self), node_id, *final(r.unwrap())),
            r is None ==> *final(self) == *old(self),
    {
        if node_id.index >= self.nodes.len() || self.nodes[node_id.index].is_none() {
            return None;
        }
        match &mut self.nodes[node_id.index] {
            Some(node) => Some(&mut node.data),
            None => None,
        }
    }
}

impl<T> BinaryTree<T> {
    /// Doubles all ranks, which keeps the tree well formed and leaves room for a new
    /// rank between any two.
    fn double_ranks(&mut self)
        requires
            old(self).wf(),
        ensures
            final(self).wf(),
            final(self).nodes == old(self).nodes,
            final(self).root_id == old(self).root_id,
            final(self).len == old(self).len,
            forall|x: NodeId| #[trigger] final(self).rank_spec(x) == 2 * old(self).rank_spec(x),
            final(self).rank_bound_spec() == 2 * old(self).rank_bound_spec(),
    {
        let ghost r = Map::new(|i: int| true, |i: int| 2 * self.rank@[i]);
        let ghost b = 2 * self.rank_bound@;
        self.set_ranks(Ghost(r), Ghost(b));
        proof {
            assert forall|x: NodeId| #[trigger] self.contains_spec(x) implies self.node_ok(x) by {
                assert(old(self).contains_spec(x));
                assert(old(self).node_ok(x));
            }
        }
    }

    #[verifier::rlimit(50)]
    /// Gives a node without parent and children a new rank, raising the rank bound above
    /// it if needed.
    fn set_isolated_rank(&mut self, id: NodeId, rank: Ghost<int>)
        requires
            old(self).wf(),
            old(self).contains_spec(id),
            old(self).node_spec(id).parent_spec().is_null_spec(),
            old(self).node_spec(id).left_spec().is_null_spec(),
            old(self).node_spec(id).right_spec().is_null_spec(),
            rank@ > 0,
        ensures
            final(self).wf(),
            final(self).nodes == old(self).nodes,
            final(self).root_id == old(self).root_id,
            final(self).len == old(self).len,
            final(self).rank_spec(id) == rank@,
            forall|x: NodeId| x != id ==> #[trigger] final(self).rank_spec(x) == old(self).rank_spec(x),
            final(self).rank_bound_spec() >= old(self).rank_bound_spec(),
            final(self).rank_bound_spec() > rank@,
    {
        let ghost r = self.rank@.insert(id.index as int, rank@);
        let ghost b = if self.rank_bound@ > rank@ { self.rank_bound@ } else { rank@ + 1 };
        self.set_ranks(Ghost(r), Ghost(b));
        proof {
            assert forall|x: NodeId| #[trigger] self.contains_spec(x) implies self.node_ok(x) by {
                assert(old(self).contains_spec(x));
                assert(old(self).node_ok(x));
                let n = old(self).node_spec(x);
                if n.left_spec() == id || n.right_spec() == id || n.parent_spec() == id {
                    assert(old(self).node_ok(id));
                }
            }
        }
    }

    /// Rotates the edge between the node `x` and its child on the opposite side of `dir`,
    /// so that the child takes the place of `x` and `x` becomes its child on `dir`.
    /// Returns false, changing nothing, if `x` or that child is not in the tree.
    fn rotate_at(&mut self, x: NodeId, dir: Side) -> (r: bool)
        requires
            old(self).wf(),
        ensures
            final(self).wf(),
            final(self).len_spec() == old(self).len_spec(),
            final(self).slots_spec() == old(self).slots_spec(),
            forall|z: NodeId| #[trigger] final(self).contains_spec(z) == old(self).contains_spec(z),
            r == (old(self).contains_spec(x) && old(self).contains_spec(old(self).node_spec(x).child_spec(dir.opposite()))),
            !r ==> *final(self) == *old(self),
            r ==> {
                let nx = old(self).node_spec(x);
                let y = nx.child_spec(dir.opposite());
                let ny = old(self).node_spec(y);
                let b = ny.child_spec(dir);
                let p = nx.parent_spec();
                &&& final(self).node_spec(x) == nx.with_parent_spec(y).with_child_spec(b, dir.opposite())
                &&& final(self).node_spec(y) == ny.with_parent_spec(p).with_child_spec(x, dir)
                &&& (old(self).contains_spec(b) ==> final(self).node_spec(b) == old(self).node_spec(b).with_parent_spec(x))
                &&& (old(self).contains_spec(p) ==> final(self).node_spec(p) == old(self).node_spec(p).with_child_spec(
                    y,
                    old(self).node_spec(p).side_of_spec(x).unwrap(),
                ))
                &&& final(self).same_outside(*old(self), set![x, y, b, p])
                &&& final(self).root_spec() == (if old(self).contains_spec(p) {
                    old(self).root_spec()
                } else {
                    y
                })
            },
    {
        let node = match self.node(x) {
            Some(n) => n,
            None => return false,
        };
        let y = node.child_id(dir.opposite());
        let p = node.parent_id;
        let x_keep = node.child_id(dir);
        let ynode = match self.node(y) {
            Some(n) => n,
            None => return false,
        };
        let b = ynode.child_id(dir);
        let y_keep = ynode.child_id(dir.opposite());
        let ghost t0 = *self;
        proof {
            assert(t0.node_ok(x));
            assert(t0.node_ok(y));
            assert(x != y);
            assert(t0.node_spec(y).parent_spec() == x);
            if t0.contains_spec(b) {
                assert(t0.node_ok(b));
                assert(b != x && b != y);
            }
            if t0.contains_spec(p) {
                assert(t0.node_ok(p));
                assert(p != x && p != y && p != b);
            }
        }
        let (xl, xr) = match dir {
            Side::Left => (x_keep, b),
            Side::Right => (b, x_keep),
        };
        self.set_links(x, y, xl, xr);
        let (yl, yr) = match dir {
            Side::Left => (x, y_keep),
            Side::Right => (y_keep, x),
        };
        self.set_links(y, p, yl, yr);
        if self.node(b).is_some() {
            let bn = self.node(b).unwrap();
            let (bl, br) = (bn.left_id, bn.right_id);
            self.set_links(b, x, bl, br);
        }
        match self.node(p) {
            Some(pn) => {
                let (pp, pl, pr) = (pn.parent_id, pn.left_id, pn.right_id);
                if pl == x {
                    self.set_links(p, pp, y, pr);
                } else {
                    self.set_links(p, pp, pl, y);
                }
            },
            None => {
                self.root_id = y;
            },
        }
        let ghost rx = t0.rank_spec(x);
        let ghost new_rank = Map::new(|i: int| true, |i: int| 2 * t0.rank@[i]).insert(x.index as int, 2 * rx - 1).insert(
            y.index as int,
            2 * rx,
        );
        self.rank = Ghost(new_rank);
        self.rank_bound = Ghost(2 * t0.rank_bound@);
        proof {
            lemma_rotation_wf(t0, *self, x, dir);
        }
        true
    }
}

impl<T> BinaryTree<T> {
    /// `t` is this tree after rotating the edge between the node `x` and its child on the
    /// opposite side of `dir`, which then takes the place of `x`, with `x` as its child on
    /// `dir`; if `x` or that child is missing, `t` is this tree.
    pub open spec fn rotated_at(self, t: BinaryTree<T>, x: NodeId, dir: Side) -> bool {
        let nx = self.node_spec(x);
        let y = nx.child_spec(dir.opposite());
        if self.contains_spec(x) && self.contains_spec(y) {
            let ny = self.node_spec(y);
            let b = ny.child_spec(dir);
            let p = nx.parent_spec();
            &&& t.node_spec(x) == nx.with_parent_spec(y).with_child_spec(b, dir.opposite())
            &&& t.node_spec(y) == ny.with_parent_spec(p).with_child_spec(x, dir)
            &&& (self.contains_spec(b) ==> t.node_spec(b) == self.node_spec(b).with_parent_spec(x))
            &&& (self.contains_spec(p) ==> t.node_spec(p) == self.node_spec(p).with_child_spec(
                y,
                self.node_spec(p).side_of_spec(x).unwrap(),
            ))
            &&& t.same_outside(self, set![x, y, b, p])
            &&& t.root_spec() == (if self.contains_spec(p) { self.root_spec() } else { y })
            &&& t.len_spec() == self.len_spec()
            &&& forall|z: NodeId| #[trigger] t.contains_spec(z) == self.contains_spec(z)
        } else {
            t == self
        }
    }
}

/// The tree obtained by relinking the nodes around a rotation, and re-ranking them, is
/// well formed.
proof fn lemma_rotation_wf<T>(t0: BinaryTree<T>, t: BinaryTree<T>, x: NodeId, dir: Side)
    requires
        t0.wf(),
        t0.contains_spec(x),
        t0.contains_spec(t0.node_spec(x).child_spec(dir.opposite())),
        t.wf_size(),
        forall|z: NodeId| #[trigger] t.contains_spec(z) == t0.contains_spec(z),
        ({
            let nx = t0.node_spec(x);
            let y = nx.child_spec(dir.opposite());
            let ny = t0.node_spec(y);
            let b = ny.child_spec(dir);
            let p = nx.parent_spec();
            &&& t.node_spec(x) == nx.with_parent_spec(y).with_child_spec(b, dir.opposite())
            &&& t.node_spec(y) == ny.with_parent_spec(p).with_child_spec(x, dir)
            &&& (t0.contains_spec(b) ==> t.node_spec(b) == t0.node_spec(b).with_parent_spec(x))
            &&& (t0.contains_spec(p) ==> t.node_spec(p) == t0.node_spec(p).with_child_spec(y, t0.node_spec(p).side_of_spec(x).unwrap()))
            &&& t.same_outside(t0, set![x, y, b, p])
            &&& t.root_spec() == (if t0.contains_spec(p) { t0.root_spec() } else { y })
            &&& forall|z: NodeId| #[trigger] t.rank_spec(z) == (if z == x {
                2 * t0.rank_spec(x) - 1
            } else if z == y {
                2 * t0.rank_spec(x)
            } else {
                2 * t0.rank_spec(z)
            })
            &&& t.rank_bound_spec() == 2 * t0.rank_bound_spec()
        }),
    ensures
        t.wf(),
{
    let nx = t0.node_spec(x);
    let y = nx.child_spec(dir.opposite());
    let ny = t0.node_spec(y);
    let b = ny.child_spec(dir);
    let p = nx.parent_spec();
    assert(t0.node_ok(x));
    assert(t0.node_ok(y));
    if t0.contains_spec(b) {
        assert(t0.node_ok(b));
    }
    if t0.contains_spec(p) {
        assert(t0.node_ok(p));
    }
    assert forall|z: NodeId| #[trigger] t.contains_spec(z) implies t.node_ok(z) by {
        assert(t0.contains_spec(z));
        assert(t0.node_ok(z));
        let nz = t0.node_spec(z);
        if t0.contains_spec(nz.left_spec()) {
            assert(t0.node_ok(nz.left_spec()));
        }
        if t0.contains_spec(nz.right_spec()) {
            assert(t0.node_ok(nz.right_spec()));
        }
        if t0.contains_spec(nz.parent_spec()) {
            assert(t0.node_ok(nz.parent_spec()));
        }
        assert(t.rank_spec(z) > 0);
    }
}

impl<T> BinaryTree<T> {
    /// A cursor starting at the root.
    pub fn cursor(&self) -> (r: Cursor<'_, T>)
        ensures
            r.tree_spec() == *self,
            r.id_spec() == self.root_spec(),
    {
        Cursor::new(self, self.root_id)
    }

    /// A cursor with editing operations starting at the root.
    pub fn cursor_mut(&mut self) -> (r: CursorMut<'_, T>)
        ensures
            r.tree_spec() == *old(self),
            r.id_spec() == old(self).root_spec(),
            *final(self) == *final(r.tree_ref()),
    {
        let root_id = self.root_id;
        CursorMut::new(self, root_id)
    }
}

/// A cursor over a `BinaryTree` with editing operations. It can freely walk through the
/// tree, and starts at the (possibly non-existent) root of the tree.
pub struct CursorMut<'t, T> {
    tree: &'t mut BinaryTree<T>,
    node_id: NodeId,
}

impl<'t, T> CursorMut<'t, T> {
    /// The tree as the cursor currently sees it.
    pub open spec fn tree_spec(self) -> BinaryTree<T> {
        *self.tree_ref()
    }

    /// Once the cursor is done editing, its tree is the one left behind by the borrow.
    pub proof fn lemma_resolved(self)
        requires
            has_resolved(self),
        ensures
            self.tree_spec() == *final(self.tree_ref()),
    {
    }

    /// The mutable borrow of the tree that the cursor holds.
    pub closed spec fn tree_ref(self) -> &'t mut BinaryTree<T> {
        self.tree
    }

    /// The id of the node the cursor points at.
    pub closed spec fn id_spec(self) -> NodeId {
        self.node_id
    }

    /// The cursor points at a node of its tree.
    pub open spec fn at_node(self) -> bool {
        self.tree_spec().contains_spec(self.id_spec())
    }

    /// The node the cursor points at.
    pub open spec fn node_at(self) -> BinaryTreeNode<T> {
        self.tree_spec().node_spec(self.id_spec())
    }

    fn new(tree: &'t mut BinaryTree<T>, node_id: NodeId) -> (r: Self)
        ensures
            r.tree_spec() == *old(tree),
            r.id_spec() == node_id,
            *final(tree) == *final(r.tree_ref()),
    {
        CursorMut { tree, node_id }
    }

    /// Moves to the parent node, returning the side of the parent on which the cursor
    /// was. If there is no parent, None is returned and the cursor is not moved.
    pub fn try_move_up(&mut self) -> (r: Option<Side>)
        requires
            old(self).tree_spec().wf(),
        ensures
            final(self).tree_ref() == old(self).tree_ref(),
            old(self).at_node() && !old(self).node_at().parent_spec().is_null_spec() ==> {
                &&& final(self).id_spec() == old(self).node_at().parent_spec()
                &&& final(self).at_node()
                &&& r == final(self).node_at().side_of_spec(old(self).id_spec())
                &&& r is Some
            },
            !(old(self).at_node() && !old(self).node_at().parent_spec().is_null_spec()) ==> {
                &&& final(self).id_spec() == old(self).id_spec()
                &&& r is None
            },
    {
        let mut c = self.as_cursor();
        let r = c.try_move_up();
        self.node_id = c.node_id;
        r
    }

    /// Moves to the child on `side`. If there is none, false is returned and the cursor
    /// is not moved.
    pub fn try_move_side(&mut self, side: Side) -> (r: bool)
        requires
            old(self).tree_spec().wf(),
        ensures
            final(self).tree_ref() == old(self).tree_ref(),
            r == (old(self).at_node() && !old(self).node_at().child_spec(side).is_null_spec()),
            r ==> final(self).id_spec() == old(self).node_at().child_spec(side) && final(self).at_node(),
            !r ==> final(self).id_spec() == old(self).id_spec(),
    {
        let mut c = self.as_cursor();
        let r = c.try_move_side(side);
        self.node_id = c.node_id;
        r
    }

    /// Moves to the left child. If there is none, false is returned and the cursor is not
    /// moved.
    pub fn try_move_left(&mut self) -> (r: bool)
        requires
            old(self).tree_spec().wf(),
        ensures
            final(self).tree_ref() == old(self).tree_ref(),
            r == (old(self).at_node() && !old(self).node_at().left_spec().is_null_spec()),
            r ==> final(self).id_spec() == old(self).node_at().left_spec() && final(self).at_node(),
            !r ==> final(self).id_spec() == old(self).id_spec(),
    {
        let mut c = self.as_cursor();
        let r = c.try_move_left();
        self.node_id = c.node_id;
        r
    }

    /// Moves to the right child. If there is none, false is returned and the cursor is
    /// not moved.
    pub fn try_move_right(&mut self) -> (r: bool)
        requires
            old(self).tree_spec().wf(),
        ensures
            final(self).tree_ref() == old(self).tree_ref(),
            r == (old(self).at_node() && !old(self).node_at().right_spec().is_null_spec()),
            r ==> final(self).id_spec() == old(self).node_at().right_spec() && final(self).at_node(),
            !r ==> final(self).id_spec() == old(self).id_spec(),
    {
        let mut c = self.as_cursor();
        let r = c.try_move_right();
        self.node_id = c.node_id;
        r
    }

    /// Moves to the parent node, or to no node if there is none. Returns the side of the
    /// parent on which the cursor was.
    pub fn move_up(&mut self) -> (r: Option<Side>)
        requires
            old(self).tree_spec().wf(),
        ensures
            final(self).tree_ref() == old(self).tree_ref(),
            final(self).id_spec() == (if old(self).at_node() {
                old(self).node_at().parent_spec()
            } else {
                NodeId::null_spec()
            }),
            r == (if final(self).at_node() {
                final(self).node_at().side_of_spec(old(self).id_spec())
            } else {
                None
            }),
    {
        let mut c = self.as_cursor();
        let r = c.move_up();
        self.node_id = c.node_id;
        r
    }

    /// Moves to the child on `side`, or to no node if there is none.
    pub fn move_side(&mut self, side: Side)
        ensures
            final(self).tree_ref() == old(self).tree_ref(),
            final(self).id_spec() == (if old(self).at_node() {
                old(self).node_at().child_spec(side)
            } else {
                NodeId::null_spec()
            }),
    {
        let mut c = self.as_cursor();
        c.move_side(side);
        self.node_id = c.node_id;
    }

    /// Moves to the left child, or to no node if there is none.
    pub fn move_left(&mut self)
        ensures
            final(self).tree_ref() == old(self).tree_ref(),
            final(self).id_spec() == (if old(self).at_node() {
                old(self).node_at().left_spec()
            } else {
                NodeId::null_spec()
            }),
    {
        let mut c = self.as_cursor();
        c.move_left();
        self.node_id = c.node_id;
    }

    /// Moves to the right child, or to no node if there is none.
    pub fn move_right(&mut self)
        ensures
            final(self).tree_ref() == old(self).tree_ref(),
            final(self).id_spec() == (if old(self).at_node() {
                old(self).node_at().right_spec()
            } else {
                NodeId::null_spec()
            }),
    {
        let mut c = self.as_cursor();
        c.move_right();
        self.node_id = c.node_id;
    }

    /// Moves to the inorder predecessor. If there is none, false is returned and the
    /// cursor is not moved.
    pub fn try_move_prev(&mut self) -> (r: bool)
        requires
            old(self).tree_spec().wf(),
        ensures
            final(self).tree_ref() == old(self).tree_ref(),
            r == (old(self).at_node() && !old(self).tree_spec().neighbor(old(self).id_spec(), Side::Left).is_null_spec()),
            r ==> final(self).id_spec() == old(self).tree_spec().neighbor(old(self).id_spec(), Side::Left),
            r ==> old(self).tree_spec().neighbor(final(self).id_spec(), Side::Right) == old(self).id_spec(),
            !r ==> final(self).id_spec() == old(self).id_spec(),
    {
        proof {
            if old(self).at_node() && !old(self).tree_spec().neighbor(old(self).id_spec(), Side::Left).is_null_spec() {
                lemma_neighbor_inverse(old(self).tree_spec(), old(self).id_spec(), Side::Left);
            }
        }
        let mut c = self.as_cursor();
        let r = c.try_move_prev();
        self.node_id = c.node_id;
        r
    }

    /// Moves to the inorder successor. If there is none, false is returned and the
    /// cursor is not moved.
    pub fn try_move_next(&mut self) -> (r: bool)
        requires
            old(self).tree_spec().wf(),
        ensures
            final(self).tree_ref() == old(self).tree_ref(),
            r == (old(self).at_node() && !old(self).tree_spec().neighbor(old(self).id_spec(), Side::Right).is_null_spec()),
            r ==> final(self).id_spec() == old(self).tree_spec().neighbor(old(self).id_spec(), Side::Right),
            r ==> old(self).tree_spec().neighbor(final(self).id_spec(), Side::Left) == old(self).id_spec(),
            !r ==> final(self).id_spec() == old(self).id_spec(),
    {
        proof {
            if old(self).at_node() && !old(self).tree_spec().neighbor(old(self).id_spec(), Side::Right).is_null_spec() {
                lemma_neighbor_inverse(old(self).tree_spec(), old(self).id_spec(), Side::Right);
            }
        }
        let mut c = self.as_cursor();
        let r = c.try_move_next();
        self.node_id = c.node_id;
        r
    }

    /// Moves to the inorder predecessor, or to no node if there is none.
    pub fn move_prev(&mut self)
        requires
            old(self).tree_spec().wf(),
        ensures
            final(self).tree_ref() == old(self).tree_ref(),
            final(self).id_spec() == (if old(self).at_node() {
                old(self).tree_spec().neighbor(old(self).id_spec(), Side::Left)
            } else {
                NodeId::null_spec()
            }),
    {
        let mut c = self.as_cursor();
        c.move_prev();
        self.node_id = c.node_id;
    }

    /// Moves to the inorder successor, or to no node if there is none.
    pub fn move_next(&mut self)
        requires
            old(self).tree_spec().wf(),
        ensures
            final(self).tree_ref() == old(self).tree_ref(),
            final(self).id_spec() == (if old(self).at_node() {
                old(self).tree_spec().neighbor(old(self).id_spec(), Side::Right)
            } else {
                NodeId::null_spec()
            }),
    {
        let mut c = self.as_cursor();
        c.move_next();
        self.node_id = c.node_id;
    }

    /// A mutable reference to the data of the node the cursor points at.
    pub fn get(&mut self) -> (r: Option<&mut T>)
        ensures
            final(self).id_spec() == old(self).id_spec(),
            *final(final(self).tree_ref()) == *final(old(self).tree_ref()),
            r is Some == old(self).at_node(),
            r is Some ==> *r.unwrap() == old(self).node_at().data_spec(),
            r is Some ==> old(self).tree_spec().data_updated(final(self).tree_spec(), old(self).id_spec(), *final(r.unwrap())),
            r is None ==> final(self).tree_spec() == old(self).tree_spec(),
    {
        self.tree.data_mut(self.node_id)
    }

    /// The side of its parent on which the node the cursor points at is.
    pub fn side_of_parent(&self) -> (r: Option<Side>)
        ensures
            r == (if self.at_node() && self.tree_spec().contains_spec(self.node_at().parent_spec()) {
                self.tree_spec().node_spec(self.node_at().parent_spec()).side_of_spec(self.id_spec())
            } else {
                None
            }),
    {
        self.as_cursor().side_of_parent()
    }

    /// A mutable reference to the data of the parent node.
    pub fn peek_up(&mut self) -> (r: Option<&mut T>)
        ensures
            final(self).id_spec() == old(self).id_spec(),
            *final(final(self).tree_ref()) == *final(old(self).tree_ref()),
            r is Some == (old(self).at_node() && old(self).tree_spec().contains_spec(old(self).node_at().parent_spec())),
            r is Some ==> *r.unwrap() == old(self).tree_spec().node_spec(old(self).node_at().parent_spec()).data_spec(),
            r is Some ==> old(self).tree_spec().data_updated(final(self).tree_spec(), old(self).node_at().parent_spec(), *final(r.unwrap())),
            r is None ==> final(self).tree_spec() == old(self).tree_spec(),
    {
        let id = match self.tree.node(self.node_id) {
            Some(node) => node.parent_id,
            None => return None,
        };
        self.tree.data_mut(id)
    }

    /// A mutable reference to the data of the left child.
    pub fn peek_left(&mut self) -> (r: Option<&mut T>)
        ensures
            final(self).id_spec() == old(self).id_spec(),
            *final(final(self).tree_ref()) == *final(old(self).tree_ref()),
            r is Some == (old(self).at_node() && old(self).tree_spec().contains_spec(old(self).node_at().left_spec())),
            r is Some ==> *r.unwrap() == old(self).tree_spec().node_spec(old(self).node_at().left_spec()).data_spec(),
            r is Some ==> old(self).tree_spec().data_updated(final(self).tree_spec(), old(self).node_at().left_spec(), *final(r.unwrap())),
            r is None ==> final(self).tree_spec() == old(self).tree_spec(),
    {
        let id = match self.tree.node(self.node_id) {
            Some(node) => node.left_id,
            None => return None,
        };
        self.tree.data_mut(id)
    }

    /// A mutable reference to the data of the right child.
    pub fn peek_right(&mut self) -> (r: Option<&mut T>)
        ensures
            final(self).id_spec() == old(self).id_spec(),
            *final(final(self).tree_ref()) == *final(old(self).tree_ref()),
            r is Some == (old(self).at_node() && old(self).tree_spec().contains_spec(old(self).node_at().right_spec())),
            r is Some ==> *r.unwrap() == old(self).tree_spec().node_spec(old(self).node_at().right_spec()).data_spec(),
            r is Some ==> old(self).tree_spec().data_updated(final(self).tree_spec(), old(self).node_at().right_spec(), *final(r.unwrap())),
            r is None ==> final(self).tree_spec() == old(self).tree_spec(),
    {
        let id = match self.tree.node(self.node_id) {
            Some(node) => node.right_id,
            None => return None,
        };
        self.tree.data_mut(id)
    }

    /// A mutable reference to the data of the child on `side`.
    pub fn peek_side(&mut self, side: Side) -> (r: Option<&mut T>)
        ensures
            final(self).id_spec() == old(self).id_spec(),
            *final(final(self).tree_ref()) == *final(old(self).tree_ref()),
            r is Some == (old(self).at_node() && old(self).tree_spec().contains_spec(old(self).node_at().child_spec(side))),
            r is Some ==> *r.unwrap() == old(self).tree_spec().node_spec(old(self).node_at().child_spec(side)).data_spec(),
            r is Some ==> old(self).tree_spec().data_updated(final(self).tree_spec(), old(self).node_at().child_spec(side), *final(r.unwrap())),
            r is None ==> final(self).tree_spec() == old(self).tree_spec(),
    {
        match side {
            Side::Left => self.peek_left(),
            Side::Right => self.peek_right(),
        }
    }

    /// Creates a root node holding the data, if the tree is empty, and moves the cursor
    /// to it.
    pub fn root_tree(&mut self, data: T) -> (r: Result<(), CursorError>)
        requires
            old(self).tree_spec().wf(),
            old(self).tree_spec().slots_spec() + 1 < usize::MAX,
        ensures
            final(self).tree_spec().wf(),
            *final(final(self).tree_ref()) == *final(old(self).tree_ref()),
            !old(self).tree_spec().root_spec().is_null_spec() ==> {
                &&& r == Err::<(), CursorError>(CursorError::CreateRootError)
                &&& *final(self) == *old(self)
            },
            old(self).tree_spec().root_spec().is_null_spec() ==> {
                &&& r is Ok
                &&& final(self).id_spec() == final(self).tree_spec().root_spec()
                &&& final(self).at_node()
                &&& !old(self).tree_spec().contains_spec(final(self).id_spec())
                &&& final(self).node_at().data_spec() == data
                &&& final(self).node_at().parent_spec().is_null_spec()
                &&& final(self).node_at().left_spec().is_null_spec()
                &&& final(self).node_at().right_spec().is_null_spec()
                &&& final(self).tree_spec().same_outside(old(self).tree_spec(), set![final(self).id_spec()])
                &&& final(self).tree_spec().len_spec() == old(self).tree_spec().len_spec() + 1
                &&& final(self).tree_spec().slots_spec() <= old(self).tree_spec().slots_spec() + 1
            },
    {
        if !self.tree.is_empty() {
            Err(CursorError::CreateRootError)
        } else {
            self.node_id = self.tree.new_node(data);
            Ok(())
        }
    }

    /// Creates a new root holding the data, with the old tree attached as its child on
    /// `side`, and moves the cursor to the new root.
    pub fn re_root_tree(&mut self, data: T, side: Side)
        requires
            old(self).tree_spec().wf(),
            old(self).tree_spec().slots_spec() + 1 < usize::MAX,
            old(self).tree_spec().contains_spec(old(self).tree_spec().root_spec()) ==> old(self).tree_spec().node_spec(
                old(self).tree_spec().root_spec(),
            ).parent_spec().is_null_spec(),
        ensures
            final(self).tree_spec().wf(),
            *final(final(self).tree_ref()) == *final(old(self).tree_ref()),
            ({
                let t0 = old(self).tree_spec();
                let t = final(self).tree_spec();
                let n = final(self).id_spec();
                let r0 = t0.root_spec();
                &&& final(self).at_node()
                &&& !t0.contains_spec(n)
                &&& t.root_spec() == n
                &&& t.len_spec() == t0.len_spec() + 1
                &&& t.node_spec(n).data_spec() == data
                &&& t.node_spec(n).parent_spec().is_null_spec()
                &&& t.node_spec(n).child_spec(side.opposite()).is_null_spec()
                &&& t.node_spec(n).child_spec(side) == (if t0.contains_spec(r0) { r0 } else { NodeId::null_spec() })
                &&& (t0.contains_spec(r0) ==> t.node_spec(r0) == t0.node_spec(r0).with_parent_spec(n))
                &&& t.same_outside(t0, set![n, r0])
                &&& t.slots_spec() <= t0.slots_spec() + 1
                &&& forall|x: NodeId| #[trigger] t.contains_spec(x) == (t0.contains_spec(x) || x == n)
            }),
    {
        let ghost t0 = *self.tree;
        let old_root_id = self.tree.root_id();
        let new_root_id = self.tree.new_node(data);
        let ghost b = self.tree.rank_bound@;
        self.tree.set_isolated_rank(new_root_id, Ghost(b));
        let ghost t1 = *self.tree;
        self.tree.set_root_id(new_root_id);
        proof {
            let t = *self.tree;
            assert forall|x: NodeId| #[trigger] t.contains_spec(x) implies t.node_ok(x) by {
                assert(t1.contains_spec(x));
                assert(t1.node_ok(x));
            }
            if t0.contains_spec(old_root_id) {
                assert(t.contains_spec(old_root_id));
                assert(t.node_ok(old_root_id));
            }
        }
        self.tree.add_edge_unchecked(new_root_id, old_root_id, side);
        self.node_id = new_root_id;
        proof {
            let t = *self.tree;
            assert forall|x: NodeId| #[trigger] t.contains_spec(x) == (t0.contains_spec(x) || x == new_root_id) by {}
        }
    }

    /// Creates a node holding the data and attaches it as the child on `side` of the node
    /// the cursor points at. The cursor does not move.
    pub fn attach_child(&mut self, data: T, side: Side) -> (r: Result<(), CursorError>)
        requires
            old(self).tree_spec().wf(),
            old(self).tree_spec().slots_spec() + 1 < usize::MAX,
        ensures
            final(self).tree_spec().wf(),
            *final(final(self).tree_ref()) == *final(old(self).tree_ref()),
            final(self).id_spec() == old(self).id_spec(),
            !old(self).at_node() ==> r == Err::<(), CursorError>(CursorError::NullError) && final(self).tree_spec()
                == old(self).tree_spec(),
            old(self).at_node() && !old(self).node_at().child_spec(side).is_null_spec() ==> r == Err::<(), CursorError>(
                CursorError::AttachChildError(side),
            ) && final(self).tree_spec() == old(self).tree_spec(),
            old(self).at_node() && old(self).node_at().child_spec(side).is_null_spec() ==> {
                let t0 = old(self).tree_spec();
                let t = final(self).tree_spec();
                let c = old(self).id_spec();
                let n = t.node_spec(c).child_spec(side);
                &&& r is Ok
                &&& !t0.contains_spec(n)
                &&& t.contains_spec(n)
                &&& t.node_spec(c) == t0.node_spec(c).with_child_spec(n, side)
                &&& t.node_spec(n).data_spec() == data
                &&& t.node_spec(n).parent_spec() == c
                &&& t.node_spec(n).left_spec().is_null_spec()
                &&& t.node_spec(n).right_spec().is_null_spec()
                &&& t.same_outside(t0, set![c, n])
                &&& t.len_spec() == t0.len_spec() + 1
                &&& t.slots_spec() <= t0.slots_spec() + 1
                &&& t.root_spec() == (if t0.root_spec().is_null_spec() { n } else { t0.root_spec() })
                &&& forall|x: NodeId| #[trigger] t.contains_spec(x) == (t0.contains_spec(x) || x == n)
            },
    {
        let has_child = match self.tree.node(self.node_id) {
            Some(node) => node.has_child(side),
            None => return Err(CursorError::NullError),
        };
        if has_child {
            return Err(CursorError::AttachChildError(side));
        }
        let curr_id = self.node_id;
        let ghost t0 = *self.tree;
        self.tree.double_ranks();
        let ghost t1 = *self.tree;
        let new_id = self.tree.new_node(data);
        let ghost t2 = *self.tree;
        proof {
            assert(t1.contains_spec(curr_id));
            assert(t2.contains_spec(curr_id));
            assert(t0.node_ok(curr_id));
            assert(t2.rank_spec(curr_id) == t1.rank_spec(curr_id));
        }
        self.tree.add_edge_unchecked(curr_id, new_id, side);
        proof {
            let t = *self.tree;
            assert forall|x: NodeId| #[trigger] t.contains_spec(x) == (t0.contains_spec(x) || x == new_id) by {
                assert(t1.contains_spec(x) == t0.contains_spec(x));
            }
            assert forall|x: NodeId| !set![curr_id, new_id].contains(x) implies #[trigger] t.contains_spec(x) == t0.contains_spec(x)
                && (t.contains_spec(x) ==> t.node_spec(x) == t0.node_spec(x)) by {
                assert(t1.contains_spec(x) == t0.contains_spec(x));
                assert(t2.contains_spec(x) == t1.contains_spec(x));
            }
        }
        Ok(())
    }

    /// Creates a node holding the data and attaches the node the cursor points at as its
    /// child on `side`. The cursor does not move.
    pub fn attach_parent(&mut self, data: T, side: Side) -> (r: Result<(), CursorError>)
        requires
            old(self).tree_spec().wf(),
            old(self).tree_spec().slots_spec() + 1 < usize::MAX,
        ensures
            final(self).tree_spec().wf(),
            *final(final(self).tree_ref()) == *final(old(self).tree_ref()),
            final(self).id_spec() == old(self).id_spec(),
            !old(self).at_node() ==> r == Err::<(), CursorError>(CursorError::NullError) && final(self).tree_spec()
                == old(self).tree_spec(),
            old(self).at_node() && !old(self).node_at().parent_spec().is_null_spec() ==> r == Err::<(), CursorError>(
                CursorError::AttachParentError,
            ) && final(self).tree_spec() == old(self).tree_spec(),
            old(self).at_node() && old(self).node_at().parent_spec().is_null_spec() ==> {
                let t0 = old(self).tree_spec();
                let t = final(self).tree_spec();
                let c = old(self).id_spec();
                let n = t.node_spec(c).parent_spec();
                &&& r is Ok
                &&& !t0.contains_spec(n)
                &&& t.contains_spec(n)
                &&& t.node_spec(c) == t0.node_spec(c).with_parent_spec(n)
                &&& t.node_spec(n).data_spec() == data
                &&& t.node_spec(n).parent_spec().is_null_spec()
                &&& t.node_spec(n).child_spec(side) == c
                &&& t.node_spec(n).child_spec(side.opposite()).is_null_spec()
                &&& t.same_outside(t0, set![c, n])
                &&& t.len_spec() == t0.len_spec() + 1
                &&& t.slots_spec() <= t0.slots_spec() + 1
                &&& t.root_spec() == (if t0.root_spec().is_null_spec() || t0.root_spec() == c { n } else { t0.root_spec() })
                &&& forall|x: NodeId| #[trigger] t.contains_spec(x) == (t0.contains_spec(x) || x == n)
            },
    {
        let has_parent = match self.tree.node(self.node_id) {
            Some(node) => node.has_parent(),
            None => return Err(CursorError::NullError),
        };
        if has_parent {
            return Err(CursorError::AttachParentError);
        }
        let curr_id = self.node_id;
        let ghost t0 = *self.tree;
        let new_id = self.tree.new_node(data);
        let ghost t1 = *self.tree;
        let ghost b = t1.rank_bound@;
        self.tree.set_isolated_rank(new_id, Ghost(b));
        let ghost t2 = *self.tree;
        proof {
            assert(t1.contains_spec(curr_id));
            assert(t2.contains_spec(curr_id));
            assert(t1.node_ok(curr_id));
        }
        self.tree.add_edge_unchecked(new_id, curr_id, side);
        if self.tree.root_id() == curr_id {
            // The node was the root: the new node above it takes its place.
            let ghost ta = *self.tree;
            self.tree.set_root_id(new_id);
            proof {
                let tb = *self.tree;
                assert forall|x: NodeId| #[trigger] tb.contains_spec(x) implies tb.node_ok(x) by {
                    assert(ta.contains_spec(x));
                    assert(ta.node_ok(x));
                }
                assert(tb.wf_size());
            }
        }
        proof {
            let t = *self.tree;
            assert forall|x: NodeId| #[trigger] t.contains_spec(x) == (t0.contains_spec(x) || x == new_id) by {
                assert(t2.contains_spec(x) == t1.contains_spec(x));
            }
            assert forall|x: NodeId| !set![curr_id, new_id].contains(x) implies #[trigger] t.contains_spec(x) == t0.contains_spec(x)
                && (t.contains_spec(x) ==> t.node_spec(x) == t0.node_spec(x)) by {
                assert(t2.contains_spec(x) == t1.contains_spec(x));
                assert(t1.contains_spec(x) == t0.contains_spec(x));
            }
        }
        Ok(())
    }

    /// Creates a node holding the data and attaches it as the child on `side` of the node
    /// the cursor points at. If that node already had a child there, the new node is
    /// inserted on the edge: the old child becomes the new node's child on `side`.
    /// The cursor does not move.
    #[verifier::rlimit(30)]
    pub fn attach_or_insert_child(&mut self, data: T, side: Side) -> (r: Result<(), CursorError>)
        requires
            old(self).tree_spec().wf(),
            old(self).tree_spec().slots_spec() + 1 < usize::MAX,
        ensures
            final(self).tree_spec().wf(),
            *final(final(self).tree_ref()) == *final(old(self).tree_ref()),
            final(self).id_spec() == old(self).id_spec(),
            !old(self).at_node() ==> r == Err::<(), CursorError>(CursorError::NullError) && final(self).tree_spec()
                == old(self).tree_spec(),
            old(self).at_node() ==> {
                let t0 = old(self).tree_spec();
                let t = final(self).tree_spec();
                let c = old(self).id_spec();
                let d = t0.node_spec(c).child_spec(side);
                let n = t.node_spec(c).child_spec(side);
                &&& r is Ok
                &&& !t0.contains_spec(n)
                &&& t.contains_spec(n)
                &&& t.node_spec(c) == t0.node_spec(c).with_child_spec(n, side)
                &&& t.node_spec(n).data_spec() == data
                &&& t.node_spec(n).parent_spec() == c
                &&& t.node_spec(n).child_spec(side) == d
                &&& t.node_spec(n).child_spec(side.opposite()).is_null_spec()
                &&& (t0.contains_spec(d) ==> t.node_spec(d) == t0.node_spec(d).with_parent_spec(n))
                &&& t.same_outside(t0, set![c, n, d])
                &&& t.len_spec() == t0.len_spec() + 1
                &&& t.slots_spec() <= t0.slots_spec() + 1
                &&& t.root_spec() == (if t0.root_spec().is_null_spec() { n } else { t0.root_spec() })
                &&& forall|x: NodeId| #[trigger] t.contains_spec(x) == (t0.contains_spec(x) || x == n)
            },
    {
        let child_id = match self.tree.node(self.node_id) {
            Some(node) => node.child_id(side),
            None => return Err(CursorError::NullError),
        };
        let curr_id = self.node_id;
        let ghost t0 = *self.tree;
        proof {
            assert(t0.node_ok(curr_id));
            if t0.contains_spec(child_id) {
                assert(t0.node_ok(child_id));
            }
        }
        self.tree.double_ranks();
        let ghost t1 = *self.tree;
        let new_id = self.tree.new_node(data);
        let ghost t2 = *self.tree;
        let ghost new_rank = if t0.contains_spec(child_id) { t1.rank_spec(child_id) + 1 } else { 1 };
        self.tree.set_isolated_rank(new_id, Ghost(new_rank));
        let ghost t3 = *self.tree;
        proof {
            assert(t1.contains_spec(curr_id));
            assert(t2.contains_spec(curr_id));
            assert(t3.contains_spec(curr_id));
            assert(t3.rank_spec(curr_id) == t1.rank_spec(curr_id));
            if t0.contains_spec(child_id) {
                assert(t1.contains_spec(child_id));
                assert(t2.contains_spec(child_id));
                assert(t3.rank_spec(child_id) == t1.rank_spec(child_id));
                assert(t1.rank_spec(child_id) == 2 * t0.rank_spec(child_id));
                assert(t1.rank_spec(curr_id) == 2 * t0.rank_spec(curr_id));
            }
        }
        if !child_id.is_null() {
            self.tree.remove_edge(curr_id, child_id);
            let ghost t4 = *self.tree;
            proof {
                assert(t4.contains_spec(new_id));
                assert(t4.node_spec(new_id) == t3.node_spec(new_id));
            }
            self.tree.add_edge_unchecked(new_id, child_id, side);
        }
        let ghost t5 = *self.tree;
        proof {
            assert(t5.contains_spec(curr_id));
            assert(t5.contains_spec(new_id));
        }
        self.tree.add_edge_unchecked(curr_id, new_id, side);
        proof {
            let t = *self.tree;
            assert forall|x: NodeId| #[trigger] t.contains_spec(x) == (t0.contains_spec(x) || x == new_id) by {
                assert(t1.contains_spec(x) == t0.contains_spec(x));
                assert(t3.contains_spec(x) == t2.contains_spec(x));
                assert(t5.contains_spec(x) == t3.contains_spec(x));
            }
            assert forall|x: NodeId| !set![curr_id, new_id, child_id].contains(x) implies #[trigger] t.contains_spec(x)
                == t0.contains_spec(x) && (t.contains_spec(x) ==> t.node_spec(x) == t0.node_spec(x)) by {
                assert(t1.contains_spec(x) == t0.contains_spec(x));
                assert(t2.contains_spec(x) == t1.contains_spec(x));
                assert(t3.contains_spec(x) == t2.contains_spec(x));
                assert(t5.contains_spec(x) == t3.contains_spec(x));
            }
        }
        Ok(())
    }

    /// Creates a node holding the data and attaches the node the cursor points at as its
    /// child on `side`. If the node had a parent, the new node is inserted on the edge: it
    /// takes the node's place below the parent. The cursor does not move.
    #[verifier::rlimit(30)]
    pub fn attach_or_insert_parent(&mut self, data: T, side: Side) -> (r: Result<(), CursorError>)
        requires
            old(self).tree_spec().wf(),
            old(self).tree_spec().slots_spec() + 1 < usize::MAX,
        ensures
            final(self).tree_spec().wf(),
            *final(final(self).tree_ref()) == *final(old(self).tree_ref()),
            final(self).id_spec() == old(self).id_spec(),
            !old(self).at_node() ==> r == Err::<(), CursorError>(CursorError::NullError) && final(self).tree_spec()
                == old(self).tree_spec(),
            old(self).at_node() ==> {
                let t0 = old(self).tree_spec();
                let t = final(self).tree_spec();
                let c = old(self).id_spec();
                let p = t0.node_spec(c).parent_spec();
                let n = t.node_spec(c).parent_spec();
                &&& r is Ok
                &&& !t0.contains_spec(n)
                &&& t.contains_spec(n)
                &&& t.node_spec(c) == t0.node_spec(c).with_parent_spec(n)
                &&& t.node_spec(n).data_spec() == data
                &&& t.node_spec(n).parent_spec() == p
                &&& t.node_spec(n).child_spec(side) == c
                &&& t.node_spec(n).child_spec(side.opposite()).is_null_spec()
                &&& (t0.contains_spec(p) ==> t.node_spec(p) == t0.node_spec(p).with_child_spec(
                    n,
                    t0.node_spec(p).side_of_spec(c).unwrap(),
                ))
                &&& t.same_outside(t0, set![c, n, p])
                &&& t.len_spec() == t0.len_spec() + 1
                &&& t.slots_spec() <= t0.slots_spec() + 1
                &&& t.root_spec() == (if t0.root_spec().is_null_spec() || t0.root_spec() == c { n } else { t0.root_spec() })
                &&& forall|x: NodeId| #[trigger] t.contains_spec(x) == (t0.contains_spec(x) || x == n)
            },
    {
        let parent_id = match self.tree.node(self.node_id) {
            Some(node) => node.parent_id(),
            None => return Err(CursorError::NullError),
        };
        let curr_id = self.node_id;
        let ghost t0 = *self.tree;
        proof {
            assert(t0.node_ok(curr_id));
            if !parent_id.is_null_spec() {
                assert(t0.node_ok(parent_id));
            }
        }
        let parent_side = match self.tree.node(parent_id) {
            Some(parent) => match parent.side_of(curr_id) {
                Some(s) => s,
                None => side,
            },
            None => side,
        };
        self.tree.double_ranks();
        let ghost t1 = *self.tree;
        let new_id = self.tree.new_node(data);
        let ghost t2 = *self.tree;
        let ghost new_rank = t1.rank_spec(curr_id) + 1;
        self.tree.set_isolated_rank(new_id, Ghost(new_rank));
        let ghost t3 = *self.tree;
        proof {
            assert(t1.contains_spec(curr_id));
            assert(t2.contains_spec(curr_id));
            assert(t3.contains_spec(curr_id));
            assert(t3.rank_spec(curr_id) == t1.rank_spec(curr_id));
            assert(t1.rank_spec(curr_id) == 2 * t0.rank_spec(curr_id));
            if !parent_id.is_null_spec() {
                assert(t1.contains_spec(parent_id));
                assert(t2.contains_spec(parent_id));
                assert(t3.rank_spec(parent_id) == t1.rank_spec(parent_id));
                assert(t1.rank_spec(parent_id) == 2 * t0.rank_spec(parent_id));
            }
        }
        if !parent_id.is_null() {
            self.tree.remove_edge(parent_id, curr_id);
            let ghost t4 = *self.tree;
            proof {
                assert(t4.contains_spec(new_id));
                assert(t4.node_spec(new_id) == t3.node_spec(new_id));
            }
            self.tree.add_edge_unchecked(parent_id, new_id, parent_side);
        }
        let ghost t5 = *self.tree;
        proof {
            assert(t5.contains_spec(curr_id));
            assert(t5.contains_spec(new_id));
        }
        self.tree.add_edge_unchecked(new_id, curr_id, side);
        if self.tree.root_id() == curr_id {
            // The node was the root: the new node above it takes its place.
            let ghost ta = *self.tree;
            self.tree.set_root_id(new_id);
            proof {
                let tb = *self.tree;
                assert forall|x: NodeId| #[trigger] tb.contains_spec(x) implies tb.node_ok(x) by {
                    assert(ta.contains_spec(x));
                    assert(ta.node_ok(x));
                }
                assert(tb.wf_size());
            }
        }
        proof {
            let t = *self.tree;
            assert forall|x: NodeId| #[trigger] t.contains_spec(x) == (t0.contains_spec(x) || x == new_id) by {
                assert(t1.contains_spec(x) == t0.contains_spec(x));
                assert(t3.contains_spec(x) == t2.contains_spec(x));
                assert(t5.contains_spec(x) == t3.contains_spec(x));
            }
            assert forall|x: NodeId| !set![curr_id, new_id, parent_id].contains(x) implies #[trigger] t.contains_spec(x)
                == t0.contains_spec(x) && (t.contains_spec(x) ==> t.node_spec(x) == t0.node_spec(x)) by {
                assert(t1.contains_spec(x) == t0.contains_spec(x));
                assert(t2.contains_spec(x) == t1.contains_spec(x));
                assert(t3.contains_spec(x) == t2.contains_spec(x));
                assert(t5.contains_spec(x) == t3.contains_spec(x));
            }
        }
        Ok(())
    }

    /// Removes the child on `side` of the node the cursor points at, if that child is a
    /// leaf, and returns its data. The cursor does not move.
    pub fn detach_child(&mut self, side: Side) -> (r: Option<T>)
        requires
            old(self).tree_spec().wf(),
        ensures
            final(self).tree_spec().wf(),
            *final(final(self).tree_ref()) == *final(old(self).tree_ref()),
            final(self).id_spec() == old(self).id_spec(),
            ({
                let t0 = old(self).tree_spec();
                let t = final(self).tree_spec();
                let p = old(self).id_spec();
                let c = old(self).node_at().child_spec(side);
                let detached = old(self).at_node() && t0.contains_spec(c) && t0.node_spec(c).left_spec().is_null_spec()
                    && t0.node_spec(c).right_spec().is_null_spec();
                &&& detached ==> {
                    &&& r == Some(t0.node_spec(c).data_spec())
                    &&& t.node_spec(p) == t0.node_spec(p).with_child_spec(NodeId::null_spec(), side)
                    &&& !t.contains_spec(c)
                    &&& t.same_outside(t0, set![p, c])
                    &&& t.len_spec() == t0.len_spec() - 1
                    &&& t.slots_spec() == t0.slots_spec()
                    &&& t.root_spec() == (if t0.root_spec() == c { NodeId::null_spec() } else { t0.root_spec() })
                    &&& forall|x: NodeId| #[trigger] t.contains_spec(x) == (t0.contains_spec(x) && x != c)
                }
                &&& !detached ==> r is None && t == t0
            }),
    {
        let node_id = self.node_id;
        let child_id = match self.tree.child_id(self.node_id, side) {
            Some(c) => c,
            None => return None,
        };
        let is_leaf = match self.tree.node(child_id) {
            Some(child) => !child.has_left() && !child.has_right(),
            None => return None,
        };
        if !is_leaf {
            return None;
        }
        let ghost t0 = *self.tree;
        proof {
            assert(t0.node_ok(node_id));
            assert(t0.node_ok(child_id));
        }
        self.tree.remove_edge(node_id, child_id);
        let ghost t1 = *self.tree;
        proof {
            assert(t1.contains_spec(child_id));
        }
        let r = self.tree.remove_node(child_id);
        proof {
            let t = *self.tree;
            assert(t1.contains_spec(node_id));
            assert(t.node_spec(node_id) == t1.node_spec(node_id));
            assert forall|x: NodeId| #[trigger] t.contains_spec(x) == (t0.contains_spec(x) && x != child_id) by {
                assert(t1.contains_spec(x) == t0.contains_spec(x));
            }
            assert forall|x: NodeId| !set![node_id, child_id].contains(x) implies #[trigger] t.contains_spec(x)
                == t0.contains_spec(x) && (t.contains_spec(x) ==> t.node_spec(x) == t0.node_spec(x)) by {
                assert(t1.contains_spec(x) == t0.contains_spec(x));
            }
            assert(t.contains_spec(node_id));
        }
        r
    }

    /// Removes the node the cursor points at, if it is a leaf, returns its data and moves
    /// the cursor to the parent.
    pub fn detach_node(&mut self) -> (r: Option<T>)
        requires
            old(self).tree_spec().wf(),
        ensures
            final(self).tree_spec().slots_spec() == old(self).tree_spec().slots_spec(),
            final(self).tree_spec().wf(),
            *final(final(self).tree_ref()) == *final(old(self).tree_ref()),
            ({
                let t0 = old(self).tree_spec();
                let t = final(self).tree_spec();
                let c = old(self).id_spec();
                let p = old(self).node_at().parent_spec();
                let detached = old(self).at_node() && old(self).node_at().left_spec().is_null_spec()
                    && old(self).node_at().right_spec().is_null_spec();
                &&& detached ==> {
                    &&& r == Some(old(self).node_at().data_spec())
                    &&& final(self).id_spec() == p
                    &&& (t0.contains_spec(p) ==> t.node_spec(p) == t0.node_spec(p).with_child_spec(
                        NodeId::null_spec(),
                        t0.node_spec(p).side_of_spec(c).unwrap(),
                    ))
                    &&& !t.contains_spec(c)
                    &&& t.same_outside(t0, set![p, c])
                    &&& t.len_spec() == t0.len_spec() - 1
                    &&& t.root_spec() == (if t0.root_spec() == c { NodeId::null_spec() } else { t0.root_spec() })
                    &&& forall|x: NodeId| #[trigger] t.contains_spec(x) == (t0.contains_spec(x) && x != c)
                }
                &&& !detached ==> r is None && t == t0 && final(self).id_spec() == c
            }),
    {
        let node_id = self.node_id;
        let (is_leaf, parent_id) = match self.tree.node(node_id) {
            Some(node) => (!node.has_left() && !node.has_right(), node.parent_id()),
            None => return None,
        };
        if !is_leaf {
            return None;
        }
        let ghost t0 = *self.tree;
        proof {
            assert(t0.node_ok(node_id));
            if t0.contains_spec(parent_id) {
                assert(t0.node_ok(parent_id));
            }
        }
        self.node_id = parent_id;
        self.tree.remove_edge(parent_id, node_id);
        let ghost t1 = *self.tree;
        proof {
            assert(t1.contains_spec(node_id));
        }
        let r = self.tree.remove_node(node_id);
        proof {
            let t = *self.tree;
            if t0.contains_spec(parent_id) {
                assert(t1.contains_spec(parent_id));
                assert(t.contains_spec(parent_id));
                assert(t.node_spec(parent_id) == t1.node_spec(parent_id));
            }
            assert forall|x: NodeId| #[trigger] t.contains_spec(x) == (t0.contains_spec(x) && x != node_id) by {
                assert(t1.contains_spec(x) == t0.contains_spec(x));
            }
            assert forall|x: NodeId| !set![parent_id, node_id].contains(x) implies #[trigger] t.contains_spec(x)
                == t0.contains_spec(x) && (t.contains_spec(x) ==> t.node_spec(x) == t0.node_spec(x)) by {
                assert(t1.contains_spec(x) == t0.contains_spec(x));
            }
        }
        r
    }

    /// Exchanges the left and right child of the node the cursor points at.
    pub fn swap_children(&mut self) -> (r: Result<(), CursorError>)
        requires
            old(self).tree_spec().wf(),
        ensures
            final(self).tree_spec().wf(),
            *final(final(self).tree_ref()) == *final(old(self).tree_ref()),
            final(self).id_spec() == old(self).id_spec(),
            !old(self).at_node() ==> r == Err::<(), CursorError>(CursorError::NullError) && final(self).tree_spec()
                == old(self).tree_spec(),
            old(self).at_node() ==> {
                &&& r is Ok
                &&& final(self).node_at() == old(self).node_at().swapped_spec()
                &&& final(self).tree_spec().same_outside(old(self).tree_spec(), set![old(self).id_spec()])
                &&& final(self).tree_spec().root_spec() == old(self).tree_spec().root_spec()
                &&& final(self).tree_spec().len_spec() == old(self).tree_spec().len_spec()
                &&& final(self).tree_spec().slots_spec() == old(self).tree_spec().slots_spec()
                &&& forall|x: NodeId| #[trigger] final(self).tree_spec().contains_spec(x) == old(self).tree_spec().contains_spec(x)
            },
    {
        let (p, l, r) = match self.tree.node(self.node_id) {
            Some(node) => (node.parent_id, node.left_id, node.right_id),
            None => return Err(CursorError::NullError),
        };
        let ghost t0 = *self.tree;
        self.tree.set_links(self.node_id, p, r, l);
        proof {
            let t = *self.tree;
            let c = self.node_id;
            assert forall|x: NodeId| #[trigger] t.contains_spec(x) == t0.contains_spec(x) by {}
            assert forall|x: NodeId| #[trigger] t.contains_spec(x) implies t.node_ok(x) by {
                assert(t0.node_ok(x));
                assert(t0.node_ok(c));
            }
        }
        Ok(())
    }

    /// Removes the node the cursor points at if it has exactly one child, which takes its
    /// place; the cursor moves to that child. Returns the data of the removed node.
    #[verifier::rlimit(30)]
    pub fn transplant_child(&mut self) -> (r: Option<T>)
        requires
            old(self).tree_spec().wf(),
        ensures
            final(self).tree_spec().slots_spec() == old(self).tree_spec().slots_spec(),
            final(self).tree_spec().wf(),
            *final(final(self).tree_ref()) == *final(old(self).tree_ref()),
            ({
                let t0 = old(self).tree_spec();
                let t = final(self).tree_spec();
                let x = old(self).id_spec();
                let nx = old(self).node_at();
                let has_left = t0.contains_spec(nx.left_spec());
                let has_right = t0.contains_spec(nx.right_spec());
                let c = if has_left { nx.left_spec() } else { nx.right_spec() };
                let p = nx.parent_spec();
                let done = old(self).at_node() && has_left != has_right;
                &&& done ==> {
                    &&& r == Some(nx.data_spec())
                    &&& final(self).id_spec() == c
                    &&& !t.contains_spec(x)
                    &&& t.node_spec(c) == t0.node_spec(c).with_parent_spec(p)
                    &&& (t0.contains_spec(p) ==> t.node_spec(p) == t0.node_spec(p).with_child_spec(
                        c,
                        t0.node_spec(p).side_of_spec(x).unwrap(),
                    ))
                    &&& t.same_outside(t0, set![x, c, p])
                    &&& t.len_spec() == t0.len_spec() - 1
                    &&& t.root_spec() == (if !t0.contains_spec(p) {
                        c
                    } else if t0.root_spec() == x {
                        NodeId::null_spec()
                    } else {
                        t0.root_spec()
                    })
                    &&& forall|z: NodeId| #[trigger] t.contains_spec(z) == (t0.contains_spec(z) && z != x)
                }
                &&& !done ==> r is None && t == t0 && final(self).id_spec() == x
            }),
    {
        let node_id = self.node_id;
        let (left_id, right_id, parent_id) = match self.tree.node(node_id) {
            Some(node) => (node.left_id, node.right_id, node.parent_id),
            None => return None,
        };
        let side_of_parent = self.side_of_parent();
        let has_left = self.tree.node(left_id).is_some();
        let has_right = self.tree.node(right_id).is_some();
        let child_id = if has_left && !has_right {
            left_id
        } else if !has_left && has_right {
            right_id
        } else {
            return None;
        };
        let ghost t0 = *self.tree;
        proof {
            assert(t0.node_ok(node_id));
            assert(t0.node_ok(child_id));
            if t0.contains_spec(parent_id) {
                assert(t0.node_ok(parent_id));
            }
        }
        self.tree.remove_edge(node_id, child_id);
        let ghost t1 = *self.tree;
        proof {
            assert(t1.contains_spec(node_id));
            assert(t1.contains_spec(child_id));
        }
        match side_of_parent {
            Some(side) => {
                proof {
                    assert(t1.contains_spec(parent_id));
                    assert(t1.contains_spec(child_id));
                    assert(t1.node_spec(parent_id) == t0.node_spec(parent_id));
                }
                self.tree.remove_edge(parent_id, node_id);
                let ghost t2 = *self.tree;
                proof {
                    assert(t2.contains_spec(child_id));
                    assert(t2.contains_spec(node_id));
                    assert(t2.node_spec(child_id) == t1.node_spec(child_id));
                }
                self.tree.add_edge_unchecked(parent_id, child_id, side);
                proof {
                    assert(self.tree.contains_spec(node_id) == t2.contains_spec(node_id));
                    assert(self.tree.contains_spec(child_id) == t2.contains_spec(child_id));
                }
            },
            None => {
                let ghost t2 = *self.tree;
                self.tree.set_root_id(child_id);
                proof {
                    let t = *self.tree;
                    assert forall|z: NodeId| #[trigger] t.contains_spec(z) implies t.node_ok(z) by {
                        assert(t2.contains_spec(z));
                        assert(t2.node_ok(z));
                    }
                }
            },
        }
        let ghost t3 = *self.tree;
        proof {
            assert(t3.contains_spec(node_id));
            assert(t3.contains_spec(child_id));
        }
        self.node_id = child_id;
        let r = self.tree.remove_node(node_id);
        proof {
            let t = *self.tree;
            assert(t.contains_spec(child_id));
            assert(t.node_spec(child_id) == t3.node_spec(child_id));
            if t0.contains_spec(parent_id) {
                assert(t3.contains_spec(parent_id));
                assert(t.node_spec(parent_id) == t3.node_spec(parent_id));
            }
            assert forall|z: NodeId| #[trigger] t.contains_spec(z) == (t0.contains_spec(z) && z != node_id) by {
                assert(t1.contains_spec(z) == t0.contains_spec(z));
                assert(t3.contains_spec(z) == t1.contains_spec(z));
            }
            assert forall|z: NodeId| !set![node_id, child_id, parent_id].contains(z) implies #[trigger] t.contains_spec(z)
                == t0.contains_spec(z) && (t.contains_spec(z) ==> t.node_spec(z) == t0.node_spec(z)) by {
                assert(t1.contains_spec(z) == t0.contains_spec(z));
                assert(t3.contains_spec(z) == t1.contains_spec(z));
            }
        }
        r
    }

    /// Rotates the edge between the node the cursor points at and its child on the
    /// opposite side of `dir`: that child takes the node's place, and the node becomes its
    /// child on `dir`. The cursor keeps pointing at the same node.
    fn rotate_dir(&mut self, dir: Side, err: CursorError) -> (r: Result<(), CursorError>)
        requires
            old(self).tree_spec().wf(),
        ensures
            final(self).tree_spec().slots_spec() == old(self).tree_spec().slots_spec(),
            final(self).tree_spec().wf(),
            *final(final(self).tree_ref()) == *final(old(self).tree_ref()),
            final(self).id_spec() == old(self).id_spec(),
            ({
                let t0 = old(self).tree_spec();
                let t = final(self).tree_spec();
                let x = old(self).id_spec();
                let nx = t0.node_spec(x);
                let y = nx.child_spec(dir.opposite());
                let ok = t0.contains_spec(x) && t0.contains_spec(y);
                &&& !ok ==> r == Err::<(), CursorError>(err) && t == t0
                &&& ok ==> {
                    let ny = t0.node_spec(y);
                    let b = ny.child_spec(dir);
                    let p = nx.parent_spec();
                    &&& r is Ok
                    &&& t.node_spec(x) == nx.with_parent_spec(y).with_child_spec(b, dir.opposite())
                    &&& t.node_spec(y) == ny.with_parent_spec(p).with_child_spec(x, dir)
                    &&& (t0.contains_spec(b) ==> t.node_spec(b) == t0.node_spec(b).with_parent_spec(x))
                    &&& (t0.contains_spec(p) ==> t.node_spec(p) == t0.node_spec(p).with_child_spec(
                        y,
                        t0.node_spec(p).side_of_spec(x).unwrap(),
                    ))
                    &&& t.same_outside(t0, set![x, y, b, p])
                    &&& t.root_spec() == (if t0.contains_spec(p) { t0.root_spec() } else { y })
                    &&& t.len_spec() == t0.len_spec()
                    &&& forall|z: NodeId| #[trigger] t.contains_spec(z) == t0.contains_spec(z)
                }
            }),
    {
        if self.tree.rotate_at(self.node_id, dir) {
            Ok(())
        } else {
            Err(err)
        }
    }

    /// Performs a left rotation around the node the cursor points at: its right child
    /// takes its place. The cursor keeps pointing at the same node.
    pub fn rotate_left(&mut self) -> (r: Result<(), CursorError>)
        requires
            old(self).tree_spec().wf(),
        ensures
            final(self).tree_spec().slots_spec() == old(self).tree_spec().slots_spec(),
            final(self).tree_spec().wf(),
            *final(final(self).tree_ref()) == *final(old(self).tree_ref()),
            final(self).id_spec() == old(self).id_spec(),
            old(self).tree_spec().rotated_at(final(self).tree_spec(), old(self).id_spec(), Side::Left),
            r is Ok == (old(self).at_node() && old(self).tree_spec().contains_spec(old(self).node_at().right_spec())),
            r is Err ==> r == Err::<(), CursorError>(CursorError::RotateLeftError),
    {
        self.rotate_dir(Side::Left, CursorError::RotateLeftError)
    }

    /// Performs a right rotation around the node the cursor points at: its left child
    /// takes its place. The cursor keeps pointing at the same node.
    pub fn rotate_right(&mut self) -> (r: Result<(), CursorError>)
        requires
            old(self).tree_spec().wf(),
        ensures
            final(self).tree_spec().slots_spec() == old(self).tree_spec().slots_spec(),
            final(self).tree_spec().wf(),
            *final(final(self).tree_ref()) == *final(old(self).tree_ref()),
            final(self).id_spec() == old(self).id_spec(),
            old(self).tree_spec().rotated_at(final(self).tree_spec(), old(self).id_spec(), Side::Right),
            r is Ok == (old(self).at_node() && old(self).tree_spec().contains_spec(old(self).node_at().left_spec())),
            r is Err ==> r == Err::<(), CursorError>(CursorError::RotateRightError),
    {
        self.rotate_dir(Side::Right, CursorError::RotateRightError)
    }

    /// Performs a rotation around the node the cursor points at, to the left or right.
    pub fn rotate(&mut self, side: Side) -> (r: Result<(), CursorError>)
        requires
            old(self).tree_spec().wf(),
        ensures
            final(self).tree_spec().slots_spec() == old(self).tree_spec().slots_spec(),
            final(self).tree_spec().wf(),
            *final(final(self).tree_ref()) == *final(old(self).tree_ref()),
            final(self).id_spec() == old(self).id_spec(),
            old(self).tree_spec().rotated_at(final(self).tree_spec(), old(self).id_spec(), side),
            r is Ok == (old(self).at_node() && old(self).tree_spec().contains_spec(old(self).node_at().child_spec(side.opposite()))),
            r is Err ==> r == Err::<(), CursorError>(match side {
                Side::Left => CursorError::RotateLeftError,
                Side::Right => CursorError::RotateRightError,
            }),
    {
        match side {
            Side::Left => self.rotate_left(),
            Side::Right => self.rotate_right(),
        }
    }

    /// A cursor without editing operations at the same node.
    pub fn as_cursor(&self) -> (r: Cursor<'_, T>)
        ensures
            r.tree_spec() == self.tree_spec(),
            r.id_spec() == self.id_spec(),
    {
        Cursor::new(self.tree, self.node_id)
    }
}


impl<T> BinaryTree<T> {
    /// Both trees have the same nodes, with the same data and links, and the same root.
    pub open spec fn same_shape(self, other: BinaryTree<T>) -> bool {
        &&& self.root_spec() == other.root_spec()
        &&& forall|z: NodeId| #[trigger] self.contains_spec(z) == other.contains_spec(z)
        &&& forall|z: NodeId| #[trigger] self.contains_spec(z) ==> self.node_spec(z) == other.node_spec(z)
    }
}

/// A rotation is undone by the opposite rotation around the node that took the rotated
/// node's place (for a node that has a parent or is the root: a parentless node elsewhere
/// in the arena hands the root to the node that rises, and the second rotation hands it on).
pub proof fn lemma_rotation_inverse<T>(t0: BinaryTree<T>, t1: BinaryTree<T>, t2: BinaryTree<T>, x: NodeId, dir: Side)
    requires
        t0.wf(),
        t0.contains_spec(x),
        t0.contains_spec(t0.node_spec(x).child_spec(dir.opposite())),
        t0.contains_spec(t0.node_spec(x).parent_spec()) || t0.root_spec() == x,
        t0.rotated_at(t1, x, dir),
        t1.rotated_at(t2, t0.node_spec(x).child_spec(dir.opposite()), dir.opposite()),
    ensures
        t2.same_shape(t0),
{
    let nx = t0.node_spec(x);
    let y = nx.child_spec(dir.opposite());
    let ny = t0.node_spec(y);
    let b = ny.child_spec(dir);
    let p = nx.parent_spec();
    assert(t0.node_ok(x));
    assert(t0.node_ok(y));
    assert(x != y);
    if t0.contains_spec(b) {
        assert(t0.node_ok(b));
    }
    if t0.contains_spec(p) {
        assert(t0.node_ok(p));
    }
    assert(t1.contains_spec(x));
    assert(t1.contains_spec(y));
    assert(t1.node_spec(y).child_spec(dir) == x);
    assert(t1.node_spec(x).child_spec(dir.opposite()) == b);
    assert(t1.node_spec(y).parent_spec() == p);
    assert(t1.contains_spec(p) == t0.contains_spec(p));
    assert forall|z: NodeId| #[trigger] t2.contains_spec(z) == t0.contains_spec(z) by {
        assert(t1.contains_spec(z) == t0.contains_spec(z));
    }
    assert forall|z: NodeId| #[trigger] t2.contains_spec(z) implies t2.node_spec(z) == t0.node_spec(z) by {
        assert(t1.contains_spec(z) == t0.contains_spec(z));
        if z == x {
            assert(t2.node_spec(x) == t0.node_spec(x));
        } else if z == y {
            assert(t2.node_spec(y) == t0.node_spec(y));
        } else if z == b {
        } else if z == p {
            if t0.contains_spec(p) {
                assert(t1.node_spec(p).side_of_spec(y) == t0.node_spec(p).side_of_spec(x));
            }
        } else {
            assert(t1.node_spec(z) == t0.node_spec(z));
        }
    }
}

impl<T> BinaryTree<T> {
    /// Adds the nodes written out as `node` to the tree, as a new subtree without parent,
    /// and returns the id of its top node. The nodes already in the tree are not changed.
    pub(crate) fn build_subtree(&mut self, node: SerializationNode<T>) -> (id: NodeId)
        requires
            old(self).wf(),
            old(self).slots_spec() + node.size() + 1 < usize::MAX,
        ensures
            final(self).wf(),
            final(self).slots_spec() <= old(self).slots_spec() + node.size(),
            final(self).len_spec() == old(self).len_spec() + node.size(),
            !old(self).contains_spec(id),
            represents(*final(self), id, node),
            final(self).node_spec(id).parent_spec().is_null_spec(),
            forall|z: NodeId| #[trigger] old(self).contains_spec(z) ==> final(self).contains_spec(z)
                && final(self).node_spec(z) == old(self).node_spec(z),
        decreases node,
    {
        let ghost t0 = *self;
        let ghost node0 = node;
        let SerializationNode { data, left, right } = node;
        let left_id = match left {
            Some(l) => Some(self.build_subtree(*l)),
            None => None,
        };
        let ghost t1 = *self;
        let right_id = match right {
            Some(r) => Some(self.build_subtree(*r)),
            None => None,
        };
        let ghost t2 = *self;
        let id = self.new_node(data);
        let ghost t3 = *self;
        let ghost bound = self.rank_bound_spec();
        self.set_isolated_rank(id, Ghost(bound));
        let ghost t4 = *self;
        proof {
            assert forall|z: NodeId| #[trigger] t2.contains_spec(z) implies t4.contains_spec(z)
                && t4.node_spec(z) == t2.node_spec(z) && t4.rank_spec(z) == t2.rank_spec(z) by {
                assert(t3.contains_spec(z));
            }
            assert(keeps_down_links(t2, t4));
            match left_id {
                Some(l) => {
                    assert(t1.contains_spec(l));
                    assert(t2.contains_spec(l));
                    assert(t2.node_ok(l));
                },
                None => {},
            }
            match right_id {
                Some(r) => {
                    assert(t2.contains_spec(r));
                    assert(t2.node_ok(r));
                },
                None => {},
            }
        }
        match left_id {
            Some(l) => {
                proof {
                    assert(t4.contains_spec(l));
                    assert(t4.node_ok(l));
                    lemma_relink(t4.node_spec(id), l, Side::Left);
                    lemma_relink(t4.node_spec(l), id, Side::Left);
                }
                self.add_edge_unchecked(id, l, Side::Left);
            },
            None => {},
        }
        let ghost t5 = *self;
        match right_id {
            Some(r) => {
                proof {
                    assert(t5.contains_spec(r));
                    assert(t4.node_ok(r));
                    lemma_relink(t5.node_spec(id), r, Side::Right);
                    lemma_relink(t5.node_spec(r), id, Side::Right);
                }
                self.add_edge_unchecked(id, r, Side::Right);
            },
            None => {},
        }
        proof {
            let t = *self;
            assert forall|z: NodeId| #[trigger] t0.contains_spec(z) implies t.contains_spec(z)
                && t.node_spec(z) == t0.node_spec(z) by {
                assert(t1.contains_spec(z));
                assert(t2.contains_spec(z));
                assert(t3.contains_spec(z));
                assert(t4.contains_spec(z));
                assert(t5.contains_spec(z));
            }
            lemma_relink(t4.node_spec(id), NodeId::null_spec(), Side::Left);
            lemma_relink(t5.node_spec(id), NodeId::null_spec(), Side::Right);
            match left_id {
                Some(l) => {
                    assert(!t1.contains_spec(id));
                    assert forall|z: NodeId| #[trigger] t1.contains_spec(z) implies t.contains_spec(z)
                        && t.node_spec(z).data_spec() == t1.node_spec(z).data_spec()
                        && t.node_spec(z).left_spec() == t1.node_spec(z).left_spec()
                        && t.node_spec(z).right_spec() == t1.node_spec(z).right_spec() by {
                        assert(t2.contains_spec(z));
                        assert(t3.contains_spec(z));
                        assert(t4.contains_spec(z));
                        assert(t5.contains_spec(z));
                        if z == l {
                            lemma_relink(t4.node_spec(l), id, Side::Left);
                        }
                        match right_id {
                            Some(r) => {
                                assert(z != r);
                            },
                            None => {},
                        }
                    }
                    assert(keeps_down_links(t1, t));
                    match node0.left {
                        Some(ln) => {
                            lemma_represents_frame(t1, t, l, *ln);
                        },
                        None => {},
                    }
                    lemma_relink(t4.node_spec(id), l, Side::Left);
                    match right_id {
                        Some(r) => {
                            lemma_relink(t5.node_spec(id), r, Side::Right);
                        },
                        None => {},
                    }
                },
                None => {},
            }
            match right_id {
                Some(r) => {
                    assert(!t2.contains_spec(id));
                    assert forall|z: NodeId| #[trigger] t2.contains_spec(z) implies t.contains_spec(z)
                        && t.node_spec(z).data_spec() == t2.node_spec(z).data_spec()
                        && t.node_spec(z).left_spec() == t2.node_spec(z).left_spec()
                        && t.node_spec(z).right_spec() == t2.node_spec(z).right_spec() by {
                        assert(t3.contains_spec(z));
                        assert(t4.contains_spec(z));
                        assert(t5.contains_spec(z));
                        if z == r {
                            lemma_relink(t5.node_spec(r), id, Side::Right);
                        }
                    }
                    assert(keeps_down_links(t2, t));
                    match node0.right {
                        Some(rn) => {
                            lemma_represents_frame(t2, t, r, *rn);
                        },
                        None => {},
                    }
                    lemma_relink(t5.node_spec(id), r, Side::Right);
                },
                None => {},
            }
        }
        id
    }
}

/// The slots of `b` hold the nodes of `a` with the same links and their data mapped by
/// `f`.
pub open spec fn slots_mapped<T, U, F: Fn(T) -> U>(a: Seq<Option<BinaryTreeNode<T>>>, b: Seq<Option<BinaryTreeNode<U>>>, f: F) -> bool {
    &&& a.len() == b.len()
    &&& forall|i: int| 0 <= i < a.len() ==> (#[trigger] b[i] is Some) == (a[i] is Some)
    &&& forall|i: int| 0 <= i < a.len() && a[i] is Some ==> {
        let n = a[i].unwrap();
        let m = #[trigger] b[i].unwrap();
        &&& m.parent_spec() == n.parent_spec()
        &&& m.left_spec() == n.left_spec()
        &&& m.right_spec() == n.right_spec()
        &&& f.ensures((n.data_spec(),), m.data_spec())
    }
}

impl<T> BinaryTree<T> {
    /// The tree with the same nodes and links, and the data of every node replaced by `f`
    /// applied to it.
    pub fn map<U, F: Fn(T) -> U>(self, f: F) -> (r: BinaryTree<U>)
        requires
            self.wf(),
            forall|t: T| f.requires((t,)),
        ensures
            r.wf(),
            r.root_spec() == self.root_spec(),
            r.len_spec() == self.len_spec(),
            r.slots_spec() == self.slots_spec(),
            forall|z: NodeId| #[trigger] r.contains_spec(z) == self.contains_spec(z),
            forall|z: NodeId| #[trigger] self.contains_spec(z) ==> {
                &&& r.node_spec(z).parent_spec() == self.node_spec(z).parent_spec()
                &&& r.node_spec(z).left_spec() == self.node_spec(z).left_spec()
                &&& r.node_spec(z).right_spec() == self.node_spec(z).right_spec()
                &&& f.ensures((self.node_spec(z).data_spec(),), r.node_spec(z).data_spec())
            },
    {
        let BinaryTree { nodes, free, root_id, len, rank, rank_bound } = self;
        let ghost old_nodes = nodes@;
        let mut new_nodes: Vec<Option<BinaryTreeNode<U>>> = Vec::new();
        for slot in it: nodes.into_iter()
            invariant
                forall|t: T| f.requires((t,)),
                it.seq() == old_nodes,
                slots_mapped(old_nodes.take(it.index() as int), new_nodes@, f),
        {
            let new_slot = match slot {
                Some(node) => {
                    let BinaryTreeNode { data, parent_id, left_id, right_id } = node;
                    Some(BinaryTreeNode { data: f(data), parent_id, left_id, right_id })
                },
                None => None,
            };
            new_nodes.push(new_slot);
        }
        let r = BinaryTree { nodes: new_nodes, free, root_id, len, rank, rank_bound };
        proof {
            assert(old_nodes.take(old_nodes.len() as int) == old_nodes);
            lemma_live_count_same_slots(old_nodes, r.nodes@);
            assert forall|z: NodeId| #[trigger] r.contains_spec(z) == self.contains_spec(z) by {}
            assert forall|z: NodeId| #[trigger] self.contains_spec(z) implies {
                &&& r.node_spec(z).parent_spec() == self.node_spec(z).parent_spec()
                &&& r.node_spec(z).left_spec() == self.node_spec(z).left_spec()
                &&& r.node_spec(z).right_spec() == self.node_spec(z).right_spec()
                &&& f.ensures((self.node_spec(z).data_spec(),), r.node_spec(z).data_spec())
            } by {
                assert(old_nodes[z.index as int] is Some);
            }
            assert forall|z: NodeId| #[trigger] r.contains_spec(z) implies r.node_ok(z) by {
                assert(self.contains_spec(z));
                assert(self.node_ok(z));
                let n = self.node_spec(z);
                if self.contains_spec(n.left_spec()) {
                    assert(old_nodes[n.left_spec().index as int] is Some);
                }
                if self.contains_spec(n.right_spec()) {
                    assert(old_nodes[n.right_spec().index as int] is Some);
                }
                if self.contains_spec(n.parent_spec()) {
                    assert(old_nodes[n.parent_spec().index as int] is Some);
                }
            }
        }
        r
    }
}

/// The children of a node in a well-formed tree have lower, positive ranks.
pub proof fn lemma_children_ranks<T>(t: BinaryTree<T>, id: NodeId)
    requires
        t.wf(),
        t.contains_spec(id),
    ensures
        ({
            let n = t.node_spec(id);
            &&& 0 < t.rank_spec(id)
            &&& t.contains_spec(n.left_spec()) ==> 0 < t.rank_spec(n.left_spec()) < t.rank_spec(id)
            &&& t.contains_spec(n.right_spec()) ==> 0 < t.rank_spec(n.right_spec()) < t.rank_spec(id)
        }),
{
    let n = t.node_spec(id);
    assert(t.node_ok(id));
    if t.contains_spec(n.left_spec()) {
        lemma_contains_not_null(t, n.left_spec());
        assert(t.node_ok(n.left_spec()));
    }
    if t.contains_spec(n.right_spec()) {
        lemma_contains_not_null(t, n.right_spec());
        assert(t.node_ok(n.right_spec()));
    }
}

/// The measure that bounds the recursion below the node a cursor points at.
pub open spec fn cursor_rank<T>(c: Cursor<'_, T>) -> int {
    if c.at_node() {
        c.tree_spec().rank_spec(c.id_spec())
    } else {
        0
    }
}

/// The ids of the nodes in the subtree below the node `id`.
pub open spec fn subtree_ids<T>(t: BinaryTree<T>, id: NodeId) -> Set<NodeId>
    decreases t.rank_spec(id),
    when t.wf()
{
    if !t.contains_spec(id) {
        Set::empty()
    } else {
        let n = t.node_spec(id);
        proof {
            lemma_children_ranks(t, id);
        }
        let l = if t.contains_spec(n.left_spec()) {
            subtree_ids(t, n.left_spec())
        } else {
            Set::empty()
        };
        let r = if t.contains_spec(n.right_spec()) {
            subtree_ids(t, n.right_spec())
        } else {
            Set::empty()
        };
        l.union(r).insert(id)
    }
}

/// The nodes below a node are in the tree and have ranks at most the node's.
pub proof fn lemma_subtree_ids<T>(t: BinaryTree<T>, id: NodeId)
    requires
        t.wf(),
    ensures
        forall|x: NodeId| #[trigger] subtree_ids(t, id).contains(x) ==> t.contains_spec(x) && t.rank_spec(x)
            <= t.rank_spec(id),
        forall|x: NodeId| #[trigger] subtree_ids(t, id).contains(x) && x != id ==> t.rank_spec(x) < t.rank_spec(id),
        t.contains_spec(id) ==> subtree_ids(t, id).contains(id),
    decreases t.rank_spec(id),
{
    if t.contains_spec(id) {
        let n = t.node_spec(id);
        lemma_children_ranks(t, id);
        let l = if t.contains_spec(n.left_spec()) {
            subtree_ids(t, n.left_spec())
        } else {
            Set::empty()
        };
        let r = if t.contains_spec(n.right_spec()) {
            subtree_ids(t, n.right_spec())
        } else {
            Set::empty()
        };
        assert(subtree_ids(t, id) == l.union(r).insert(id));
        if t.contains_spec(n.left_spec()) {
            lemma_subtree_ids(t, n.left_spec());
        }
        if t.contains_spec(n.right_spec()) {
            lemma_subtree_ids(t, n.right_spec());
        }
        assert forall|x: NodeId| #[trigger] subtree_ids(t, id).contains(x) implies t.contains_spec(x)
            && t.rank_spec(x) <= t.rank_spec(id) && (x != id ==> t.rank_spec(x) < t.rank_spec(id)) by {
            if l.contains(x) {
            } else if r.contains(x) {
            }
        }
    } else {
        assert(subtree_ids(t, id) == Set::<NodeId>::empty());
    }
}

/// The number of present targets.
spec fn present_count(a: Option<usize>, b: Option<usize>, c: Option<usize>, d: Option<usize>) -> nat {
    (if a is Some { 1nat } else { 0nat }) + (if b is Some { 1nat } else { 0nat }) + (if c is Some { 1nat } else { 0nat }) + (
    if d is Some {
        1nat
    } else {
        0nat
    })
}

/// The number of missing targets before the first present one.
spec fn leading_missing(a: Option<usize>, b: Option<usize>, c: Option<usize>, d: Option<usize>) -> nat {
    if a is Some {
        0
    } else if b is Some {
        1
    } else if c is Some {
        2
    } else if d is Some {
        3
    } else {
        0
    }
}

/// The number of present targets smaller than the first one.
spec fn smaller_than_first(a: Option<usize>, b: Option<usize>, c: Option<usize>, d: Option<usize>) -> nat {
    if a is None {
        0
    } else {
        (if b is Some && b.unwrap() < a.unwrap() { 1nat } else { 0nat }) + (if c is Some && c.unwrap() < a.unwrap() {
            1nat
        } else {
            0nat
        }) + (if d is Some && d.unwrap() < a.unwrap() { 1nat } else { 0nat })
    }
}

/// The target is present and names the slot `i` of a window starting at `base`.
pub open spec fn targets(q: Option<usize>, base: int, i: int) -> bool {
    q is Some && q.unwrap() - base == i
}

/// The targets that are present lie in the window and are distinct.
pub open spec fn targets_ok(base: int, len: int, a: Option<usize>, b: Option<usize>, c: Option<usize>, d: Option<usize>) -> bool {
    &&& a is Some ==> base <= a.unwrap() < base + len
    &&& b is Some ==> base <= b.unwrap() < base + len
    &&& c is Some ==> base <= c.unwrap() < base + len
    &&& d is Some ==> base <= d.unwrap() < base + len
    &&& a is Some && b is Some ==> a.unwrap() != b.unwrap()
    &&& a is Some && c is Some ==> a.unwrap() != c.unwrap()
    &&& a is Some && d is Some ==> a.unwrap() != d.unwrap()
    &&& b is Some && c is Some ==> b.unwrap() != c.unwrap()
    &&& b is Some && d is Some ==> b.unwrap() != d.unwrap()
    &&& c is Some && d is Some ==> c.unwrap() != d.unwrap()
}

/// Mutable references to the data of the nodes in up to four distinct slots of a window
/// of the arena that starts at slot `base`; a missing target or an empty slot gives none.
fn pick_data_mut<'a, T>(
    slice: &'a mut [Option<BinaryTreeNode<T>>],
    base: usize,
    a: Option<usize>,
    b: Option<usize>,
    c: Option<usize>,
    d: Option<usize>,
) -> (r: (Option<&'a mut T>, Option<&'a mut T>, Option<&'a mut T>, Option<&'a mut T>))
    requires
        targets_ok(base as int, old(slice)@.len() as int, a, b, c, d),
        base + old(slice)@.len() <= usize::MAX,
    ensures
        r.0 is Some <==> (a is Some && old(slice)@[a.unwrap() - base] is Some),
        r.1 is Some <==> (b is Some && old(slice)@[b.unwrap() - base] is Some),
        r.2 is Some <==> (c is Some && old(slice)@[c.unwrap() - base] is Some),
        r.3 is Some <==> (d is Some && old(slice)@[d.unwrap() - base] is Some),
        r.0 is Some ==> *r.0.unwrap() == old(slice)@[a.unwrap() - base].unwrap().data_spec(),
        r.1 is Some ==> *r.1.unwrap() == old(slice)@[b.unwrap() - base].unwrap().data_spec(),
        r.2 is Some ==> *r.2.unwrap() == old(slice)@[c.unwrap() - base].unwrap().data_spec(),
        r.3 is Some ==> *r.3.unwrap() == old(slice)@[d.unwrap() - base].unwrap().data_spec(),
        final(slice)@.len() == old(slice)@.len(),
        forall|i: int| 0 <= i < old(slice)@.len() ==> #[trigger] final(slice)@[i] == (if r.0 is Some && targets(a, base as int, i) {
            Some(old(slice)@[i].unwrap().with_data_spec(*final(r.0.unwrap())))
        } else if r.1 is Some && targets(b, base as int, i) {
            Some(old(slice)@[i].unwrap().with_data_spec(*final(r.1.unwrap())))
        } else if r.2 is Some && targets(c, base as int, i) {
            Some(old(slice)@[i].unwrap().with_data_spec(*final(r.2.unwrap())))
        } else if r.3 is Some && targets(d, base as int, i) {
            Some(old(slice)@[i].unwrap().with_data_spec(*final(r.3.unwrap())))
        } else {
            old(slice)@[i]
        }),
    decreases present_count(a, b, c, d), leading_missing(a, b, c, d), smaller_than_first(a, b, c, d),
{
    let av = match a {
        Some(av) => av,
        None => {
            if b.is_none() && c.is_none() && d.is_none() {
                return (None, None, None, None);
            }
            let (rb, rc, rd, ra) = pick_data_mut(slice, base, b, c, d, a);
            return (ra, rb, rc, rd);
        },
    };
    match b {
        Some(bv) => {
            if bv < av {
                let (rb, ra, rc, rd) = pick_data_mut(slice, base, b, a, c, d);
                return (ra, rb, rc, rd);
            }
        },
        None => {},
    }
    match c {
        Some(cv) => {
            if cv < av {
                let (rc, rb, ra, rd) = pick_data_mut(slice, base, c, b, a, d);
                return (ra, rb, rc, rd);
            }
        },
        None => {},
    }
    match d {
        Some(dv) => {
            if dv < av {
                let (rd, rb, rc, ra) = pick_data_mut(slice, base, d, b, c, a);
                return (ra, rb, rc, rd);
            }
        },
        None => {},
    }
    let ghost s0 = slice@;
    let (front, rest) = slice.split_at_mut(av - base);
    let (one, tail) = rest.split_at_mut(1);
    let ra = match one.first_mut() {
        Some(slot) => match slot {
            Some(node) => Some(&mut node.data),
            None => None,
        },
        None => None,
    };
    let (rb, rc, rd, rn) = pick_data_mut(tail, av + 1, b, c, d, None);
    (ra, rb, rc, rd)
}

impl<'t, T> CursorMut<'t, T> {
    /// Mutable references to the data of the node, its parent and its children, each of
    /// which may be missing.
    pub fn peek_neighborhood(&mut self) -> (r: Neighborhood<&mut T>)
        requires
            old(self).tree_spec().wf(),
        ensures
            final(self).id_spec() == old(self).id_spec(),
            *final(final(self).tree_ref()) == *final(old(self).tree_ref()),
            r.node is Some == old(self).at_node(),
            r.parent is Some == (old(self).at_node() && old(self).tree_spec().contains_spec(old(self).node_at().parent_spec())),
            r.left is Some == (old(self).at_node() && old(self).tree_spec().contains_spec(old(self).node_at().left_spec())),
            r.right is Some == (old(self).at_node() && old(self).tree_spec().contains_spec(old(self).node_at().right_spec())),
            r.node is Some ==> *r.node.unwrap() == old(self).node_at().data_spec(),
            r.parent is Some ==> *r.parent.unwrap() == old(self).tree_spec().node_spec(old(self).node_at().parent_spec()).data_spec(),
            r.left is Some ==> *r.left.unwrap() == old(self).tree_spec().node_spec(old(self).node_at().left_spec()).data_spec(),
            r.right is Some ==> *r.right.unwrap() == old(self).tree_spec().node_spec(old(self).node_at().right_spec()).data_spec(),
            ({
                let c = old(self).id_spec();
                let n = old(self).node_at();
                &&& r.parent is Some ==> n.parent_spec() != c
                &&& r.left is Some ==> n.left_spec() != c && n.left_spec() != n.parent_spec()
                &&& r.right is Some ==> n.right_spec() != c && n.right_spec() != n.parent_spec() && n.right_spec()
                    != n.left_spec()
            }),
            final(self).tree_spec().wf(),
            final(self).tree_spec().root_spec() == old(self).tree_spec().root_spec(),
            final(self).tree_spec().len_spec() == old(self).tree_spec().len_spec(),
            final(self).tree_spec().slots_spec() == old(self).tree_spec().slots_spec(),
            forall|z: NodeId| #[trigger] final(self).tree_spec().contains_spec(z) == old(self).tree_spec().contains_spec(z),
            forall|z: NodeId| #[trigger] old(self).tree_spec().contains_spec(z) ==> {
                &&& final(self).tree_spec().node_spec(z).parent_spec() == old(self).tree_spec().node_spec(z).parent_spec()
                &&& final(self).tree_spec().node_spec(z).left_spec() == old(self).tree_spec().node_spec(z).left_spec()
                &&& final(self).tree_spec().node_spec(z).right_spec() == old(self).tree_spec().node_spec(z).right_spec()
            },
            forall|z: NodeId| #[trigger] old(self).tree_spec().contains_spec(z) ==> final(self).tree_spec().node_spec(z).data_spec() == (
            if r.node is Some && z == old(self).id_spec() {
                *final(r.node.unwrap())
            } else if r.parent is Some && z == old(self).node_at().parent_spec() {
                *final(r.parent.unwrap())
            } else if r.left is Some && z == old(self).node_at().left_spec() {
                *final(r.left.unwrap())
            } else if r.right is Some && z == old(self).node_at().right_spec() {
                *final(r.right.unwrap())
            } else {
                old(self).tree_spec().node_spec(z).data_spec()
            }),
    {
        let ghost t0 = *self.tree;
        let c = self.node_id;
        let (p, l, r) = match self.tree.node(c) {
            Some(node) => (node.parent_id, node.left_id, node.right_id),
            None => {
                return Neighborhood { node: None, parent: None, left: None, right: None };
            },
        };
        proof {
            lemma_children_ranks(t0, c);
            assert(t0.node_ok(c));
            lemma_contains_not_null(t0, c);
            if t0.contains_spec(p) {
                assert(t0.node_ok(p));
                lemma_contains_not_null(t0, p);
            }
            if t0.contains_spec(l) {
                lemma_contains_not_null(t0, l);
            }
            if t0.contains_spec(r) {
                lemma_contains_not_null(t0, r);
            }
        }
        let pi = if self.tree.node(p).is_some() { Some(p.index) } else { None };
        let li = if self.tree.node(l).is_some() { Some(l.index) } else { None };
        let ri = if self.tree.node(r).is_some() { Some(r.index) } else { None };
        let slice = self.tree.nodes.as_mut_slice();
        let (node, parent, left, right) = pick_data_mut(slice, 0, Some(c.index), pi, li, ri);
        proof {
            assert forall|t: BinaryTree<T>| #![trigger t.wf()] #![trigger t.len_spec()] #![trigger t.root_spec()] #![trigger t.slots_spec()] links_kept(t0, t) implies {
                &&& t.wf()
                &&& t.root_spec() == t0.root_spec()
                &&& t.len_spec() == t0.len_spec()
                &&& t.slots_spec() == t0.slots_spec()
                &&& forall|z: NodeId| #[trigger] t.contains_spec(z) == t0.contains_spec(z)
                &&& forall|z: NodeId| #[trigger] t0.contains_spec(z) ==> {
                    &&& t.node_spec(z).parent_spec() == t0.node_spec(z).parent_spec()
                    &&& t.node_spec(z).left_spec() == t0.node_spec(z).left_spec()
                    &&& t.node_spec(z).right_spec() == t0.node_spec(z).right_spec()
                }
            } by {
                lemma_links_kept(t0, t);
            }
        }
        Neighborhood { node, parent, left, right }
    }
}

/// Mutable references to the data of the nodes in the slots `i` and `j` of the arena, with
/// `i` before `j`, if both slots hold a node.
fn pair_data_mut<'a, T>(slice: &'a mut [Option<BinaryTreeNode<T>>], i: usize, j: usize) -> (r: Option<(&'a mut T, &'a mut T)>)
    requires
        i < j < old(slice)@.len(),
    ensures
        r is Some <==> (old(slice)@[i as int] is Some && old(slice)@[j as int] is Some),
        r is Some ==> *r.unwrap().0 == old(slice)@[i as int].unwrap().data_spec(),
        r is Some ==> *r.unwrap().1 == old(slice)@[j as int].unwrap().data_spec(),
        final(slice)@.len() == old(slice)@.len(),
        forall|k: int| 0 <= k < old(slice)@.len() ==> #[trigger] final(slice)@[k] == (if r is Some && k == i {
            Some(old(slice)@[k].unwrap().with_data_spec(*final(r.unwrap().0)))
        } else if r is Some && k == j {
            Some(old(slice)@[k].unwrap().with_data_spec(*final(r.unwrap().1)))
        } else {
            old(slice)@[k]
        }),
{
    let (front, back) = slice.split_at_mut(j);
    let (_, from_i) = front.split_at_mut(i);
    let x = from_i.first_mut();
    let y = back.first_mut();
    match (x, y) {
        (Some(Some(nx)), Some(Some(ny))) => Some((&mut nx.data, &mut ny.data)),
        _ => None,
    }
}

impl<'t, T> CursorMut<'t, T> {
    /// Mutable references to the data of the node the cursor points at and of the node
    /// `other`, if both are in the tree and distinct.
    pub fn peek_pair_mut(&mut self, other: NodeId) -> (r: Option<(&mut T, &mut T)>)
        requires
            old(self).tree_spec().wf(),
        ensures
            final(self).id_spec() == old(self).id_spec(),
            *final(final(self).tree_ref()) == *final(old(self).tree_ref()),
            r is Some == (old(self).at_node() && old(self).tree_spec().contains_spec(other) && other != old(self).id_spec()),
            r is None ==> final(self).tree_spec() == old(self).tree_spec(),
            r is Some ==> {
                let t0 = old(self).tree_spec();
                let t = final(self).tree_spec();
                let c = old(self).id_spec();
                &&& *r.unwrap().0 == t0.node_spec(c).data_spec()
                &&& *r.unwrap().1 == t0.node_spec(other).data_spec()
                &&& t.wf()
                &&& t.root_spec() == t0.root_spec()
                &&& t.len_spec() == t0.len_spec()
                &&& t.slots_spec() == t0.slots_spec()
                &&& t.rank_bound_spec() == t0.rank_bound_spec()
                &&& forall|z: NodeId| #[trigger] t.contains_spec(z) == t0.contains_spec(z)
                &&& forall|z: NodeId| #[trigger] t0.contains_spec(z) ==> {
                    &&& t.node_spec(z).parent_spec() == t0.node_spec(z).parent_spec()
                    &&& t.node_spec(z).left_spec() == t0.node_spec(z).left_spec()
                    &&& t.node_spec(z).right_spec() == t0.node_spec(z).right_spec()
                    &&& t.rank_spec(z) == t0.rank_spec(z)
                    &&& t.node_spec(z).data_spec() == (if z == c {
                        *final(r.unwrap().0)
                    } else if z == other {
                        *final(r.unwrap().1)
                    } else {
                        t0.node_spec(z).data_spec()
                    })
                }
            },
    {
        let ghost t0 = *self.tree;
        let c = self.node_id;
        if self.tree.node(c).is_none() || self.tree.node(other).is_none() || c.index == other.index {
            return None;
        }
        proof {
            lemma_contains_not_null(t0, c);
            lemma_contains_not_null(t0, other);
        }
        let slice = self.tree.nodes.as_mut_slice();
        let pair = if c.index < other.index {
            pair_data_mut(slice, c.index, other.index)
        } else {
            match pair_data_mut(slice, other.index, c.index) {
                Some((b, a)) => Some((a, b)),
                None => None,
            }
        };
        proof {
            assert forall|t: BinaryTree<T>| #![trigger t.wf()] #![trigger t.len_spec()] #![trigger t.root_spec()] #![trigger t.slots_spec()] links_kept(t0, t) implies {
                &&& t.wf()
                &&& t.root_spec() == t0.root_spec()
                &&& t.len_spec() == t0.len_spec()
                &&& t.slots_spec() == t0.slots_spec()
                &&& forall|z: NodeId| #[trigger] t.contains_spec(z) == t0.contains_spec(z)
                &&& forall|z: NodeId| #[trigger] t0.contains_spec(z) ==> {
                    &&& t.node_spec(z).parent_spec() == t0.node_spec(z).parent_spec()
                    &&& t.node_spec(z).left_spec() == t0.node_spec(z).left_spec()
                    &&& t.node_spec(z).right_spec() == t0.node_spec(z).right_spec()
                }
            } by {
                lemma_links_kept(t0, t);
            }
        }
        pair
    }
}

/// The arena of `t` has the same occupied slots with the same links as the arena of `t0`,
/// and the same root, count and ranks.
spec fn links_kept<T>(t0: BinaryTree<T>, t: BinaryTree<T>) -> bool {
    &&& t0.wf()
    &&& t.root_id == t0.root_id
    &&& t.free == t0.free
    &&& t.len == t0.len
    &&& t.rank == t0.rank
    &&& t.rank_bound == t0.rank_bound
    &&& t.nodes@.len() == t0.nodes@.len()
    &&& forall|i: int| 0 <= i < t0.nodes@.len() ==> (#[trigger] t.nodes@[i] is Some) == (t0.nodes@[i] is Some)
    &&& forall|i: int| 0 <= i < t0.nodes@.len() && t0.nodes@[i] is Some ==> {
        &&& (#[trigger] t.nodes@[i]).unwrap().parent_id == t0.nodes@[i].unwrap().parent_id
        &&& t.nodes@[i].unwrap().left_id == t0.nodes@[i].unwrap().left_id
        &&& t.nodes@[i].unwrap().right_id == t0.nodes@[i].unwrap().right_id
    }
}

/// A tree whose arena has the same occupied slots with the same links as the arena of a
/// well-formed tree, and the same root, count and ranks, is well formed with the same shape.
proof fn lemma_links_kept<T>(t0: BinaryTree<T>, t: BinaryTree<T>)
    requires
        t0.wf(),
        t.root_id == t0.root_id,
        t.free == t0.free,
        t.len == t0.len,
        t.rank == t0.rank,
        t.rank_bound == t0.rank_bound,
        t.nodes@.len() == t0.nodes@.len(),
        forall|i: int| 0 <= i < t0.nodes@.len() ==> (#[trigger] t.nodes@[i] is Some) == (t0.nodes@[i] is Some),
        forall|i: int| 0 <= i < t0.nodes@.len() && t0.nodes@[i] is Some ==> {
            &&& (#[trigger] t.nodes@[i]).unwrap().parent_id == t0.nodes@[i].unwrap().parent_id
            &&& t.nodes@[i].unwrap().left_id == t0.nodes@[i].unwrap().left_id
            &&& t.nodes@[i].unwrap().right_id == t0.nodes@[i].unwrap().right_id
        },
    ensures
        t.wf(),
        t.root_spec() == t0.root_spec(),
        t.len_spec() == t0.len_spec(),
        t.slots_spec() == t0.slots_spec(),
        forall|z: NodeId| #[trigger] t.contains_spec(z) == t0.contains_spec(z),
        forall|z: NodeId| #[trigger] t0.contains_spec(z) ==> {
            &&& t.node_spec(z).parent_spec() == t0.node_spec(z).parent_spec()
            &&& t.node_spec(z).left_spec() == t0.node_spec(z).left_spec()
            &&& t.node_spec(z).right_spec() == t0.node_spec(z).right_spec()
        },
{
    lemma_live_count_same_slots(t0.nodes@, t.nodes@);
    assert forall|z: NodeId| #[trigger] t.contains_spec(z) == t0.contains_spec(z) by {}
    assert forall|z: NodeId| #[trigger] t.contains_spec(z) implies t.node_ok(z) by {
        assert(t0.contains_spec(z));
        assert(t0.node_ok(z));
        let n = t0.node_spec(z);
        if t0.contains_spec(n.left_spec()) {
            assert(t0.nodes@[n.left_spec().index as int] is Some);
        }
        if t0.contains_spec(n.right_spec()) {
            assert(t0.nodes@[n.right_spec().index as int] is Some);
        }
        if t0.contains_spec(n.parent_spec()) {
            assert(t0.nodes@[n.parent_spec().index as int] is Some);
        }
    }
}

/// Following links to the `side.opposite()` child from a node below `z` on `side`'s
/// opposite, the first ancestor entered from `side` is the same as for `z`.
proof fn lemma_extreme_ancestor<T>(t: BinaryTree<T>, z: NodeId, side: Side)
    requires
        t.wf(),
        t.contains_spec(z),
    ensures
        t.contains_spec(t.extreme(z, side.opposite())),
        t.node_spec(t.extreme(z, side.opposite())).child_spec(side.opposite()).is_null_spec(),
        t.ancestor_from(t.extreme(z, side.opposite()), side) == t.ancestor_from(z, side),
    decreases t.rank_spec(z),
{
    let c = t.node_spec(z).child_spec(side.opposite());
    assert(t.node_ok(z));
    if !c.is_null_spec() {
        assert(t.contains_spec(c));
        assert(t.node_ok(c));
        lemma_extreme_ancestor(t, c, side);
        assert(t.node_spec(c).parent_spec() == z);
        assert(t.node_spec(z).side_of_spec(c) == Some(side.opposite()));
    }
}

/// Walking up from `w` while entering each node from `side`, the node from which the first
/// ancestor entered from the other side is entered leads back down to `x` along `side`.
proof fn lemma_ancestor_extreme<T>(t: BinaryTree<T>, w: NodeId, x: NodeId, side: Side)
    requires
        t.wf(),
        t.contains_spec(w),
        t.extreme(w, side) == x,
    ensures
        ({
            let y = t.ancestor_from(w, side.opposite());
            !y.is_null_spec() ==> {
                &&& t.contains_spec(y)
                &&& t.contains_spec(t.node_spec(y).child_spec(side.opposite()))
                &&& t.extreme(t.node_spec(y).child_spec(side.opposite()), side) == x
            }
        }),
    decreases t.rank_bound_spec() - t.rank_spec(w),
{
    let p = t.node_spec(w).parent_spec();
    assert(t.node_ok(w));
    if !p.is_null_spec() {
        assert(t.contains_spec(p));
        assert(t.node_ok(p));
        let sd = t.node_spec(p).side_of_spec(w).unwrap();
        assert(t.node_spec(p).child_spec(sd) == w);
        if sd == side.opposite() {
        } else {
            assert(sd == side);
            assert(t.extreme(p, side) == t.extreme(w, side));
            lemma_ancestor_extreme(t, p, x, side);
        }
    }
}

/// The inorder neighbor on the other side of the inorder neighbor of a node is the node
/// itself: moving to the successor and then to the predecessor, or the other way round,
/// comes back to the same node.
pub proof fn lemma_neighbor_inverse<T>(t: BinaryTree<T>, x: NodeId, side: Side)
    requires
        t.wf(),
        t.contains_spec(x),
        !t.neighbor(x, side).is_null_spec(),
    ensures
        t.contains_spec(t.neighbor(x, side)),
        t.neighbor(t.neighbor(x, side), side.opposite()) == x,
{
    let c = t.node_spec(x).child_spec(side);
    assert(t.node_ok(x));
    if !c.is_null_spec() {
        assert(t.contains_spec(c));
        lemma_extreme_ancestor(t, c, side);
        let y = t.extreme(c, side.opposite());
        assert(t.node_spec(c).parent_spec() == x);
        assert(t.node_spec(x).side_of_spec(c) == Some(side));
        assert(side.opposite().opposite() == side);
    } else {
        lemma_ancestor_extreme(t, x, x, side);
        let y = t.ancestor_from(x, side.opposite());
        assert(side.opposite().opposite() == side);
    }
}

} // verus!
