use vstd::prelude::*;

verus! {

/// A side of a node in a binary tree.
#[derive(Clone, Copy, Debug, PartialEq, Eq, Structural)]
pub enum Side {
    Left,
    Right,
}

impl Side {
    /// Returns the other side.
    #[verifier::allow_in_spec]
    pub fn opposite(&self) -> Side
        returns
            (match self {
                Side::Left => Side::Right,
                Side::Right => Side::Left,
            }),
    {
        match self {
            Side::Left => Side::Right,
            Side::Right => Side::Left,
        }
    }
}

/// Taking the opposite side twice gives the side back, and no side is its own opposite.
pub proof fn lemma_opposite_involution(side: Side)
    ensures
        side.opposite().opposite() == side,
        side.opposite() != side,
{
}

/// A node together with its parent and children, each of which may be missing.
pub struct Neighborhood<T> {
    pub node: Option<T>,
    pub parent: Option<T>,
    pub left: Option<T>,
    pub right: Option<T>,
}

/// Applies `f` to a present value.
fn map_option<T, U, F: Fn(T) -> U>(o: Option<T>, f: &F) -> (r: Option<U>)
    requires
        forall|t: T| f.requires((t,)),
    ensures
        o is None ==> r is None,
        o is Some ==> r is Some && f.ensures((o.unwrap(),), r.unwrap()),
{
    match o {
        Some(t) => Some(f(t)),
        None => None,
    }
}

impl<T> Neighborhood<T> {
    /// Applies `f` to each of the present members.
    pub fn map<U, F: Fn(T) -> U>(self, f: F) -> (r: Neighborhood<U>)
        requires
            forall|t: T| f.requires((t,)),
        ensures
            self.node is None ==> r.node is None,
            self.node is Some ==> r.node is Some && f.ensures((self.node.unwrap(),), r.node.unwrap()),
            self.parent is None ==> r.parent is None,
            self.parent is Some ==> r.parent is Some && f.ensures((self.parent.unwrap(),), r.parent.unwrap()),
            self.left is None ==> r.left is None,
            self.left is Some ==> r.left is Some && f.ensures((self.left.unwrap(),), r.left.unwrap()),
            self.right is None ==> r.right is None,
            self.right is Some ==> r.right is Some && f.ensures((self.right.unwrap(),), r.right.unwrap()),
    {
        let Neighborhood { node, parent, left, right } = self;
        Neighborhood {
            node: map_option(node, &f),
            parent: map_option(parent, &f),
            left: map_option(left, &f),
            right: map_option(right, &f),
        }
    }
}

/// The ways in which a cursor operation can fail.
#[derive(Clone, Copy, Debug, PartialEq, Eq, Structural)]
pub enum CursorError {
    /// The cursor does not point at a node.
    NullError,
    /// The tree already has a root.
    CreateRootError,
    /// The node already has a parent node.
    AttachParentError,
    /// The node already has a child node on the given side.
    AttachChildError(Side),
    /// A node with children cannot be deleted.
    DetachError,
    /// The tree cannot be rotated left around the cursor.
    RotateLeftError,
    /// The tree cannot be rotated right around the cursor.
    RotateRightError,
}

} // verus!
