//! Trees with values in branches and leaves.

use vstd::prelude::*;
use std::rc::Rc;

verus! {

/// A tree with values in its branches and in its leaves, each branch owning
/// its children.
#[allow(inconsistent_fields)]
#[derive(Debug)]
pub enum BoxTree<B, L> {
    /// A branch: a value and the children below it
    Branch { val: B, children: Vec<BoxTree<B, L>> },
    /// A leaf: a value and no children
    Leaf { val: L },
}

impl<B, L> BoxTree<B, L> {
    /// A new leaf.
    pub fn new_leaf(val: L) -> (r: Self)
        ensures
            r == (BoxTree::<B, L>::Leaf { val }),
    {
        BoxTree::Leaf { val }
    }

    /// A new branch over `children`.
    pub fn new_branch(val: B, children: Vec<Self>) -> (r: Self)
        ensures
            r == (BoxTree::Branch { val, children }),
    {
        BoxTree::Branch { val, children }
    }

    /// The children of this node; a leaf has none.
    pub fn children(&self) -> (r: &[Self])
        ensures
            r@ == match self {
                BoxTree::Branch { children, .. } => children@,
                BoxTree::Leaf { .. } => Seq::empty(),
            },
    {
        match self {
            BoxTree::Branch { children, .. } => children.as_slice(),
            BoxTree::Leaf { .. } => &[],
        }
    }

    /// The value of this node if it is a branch.
    pub fn branch_val(&self) -> (r: Option<&B>)
        ensures
            r == match self {
                BoxTree::Branch { val, .. } => Some(val),
                BoxTree::Leaf { .. } => None::<&B>,
            },
    {
        match self {
            BoxTree::Branch { val, .. } => Some(val),
            BoxTree::Leaf { .. } => None,
        }
    }

    /// The value of this node if it is a leaf.
    pub fn leaf_val(&self) -> (r: Option<&L>)
        ensures
            r == match self {
                BoxTree::Branch { .. } => None::<&L>,
                BoxTree::Leaf { val } => Some(val),
            },
    {
        match self {
            BoxTree::Branch { .. } => None,
            BoxTree::Leaf { val } => Some(val),
        }
    }
}

/// A tree with values in its branches and in its leaves, whose branches share
/// their list of children through a reference count.
#[allow(inconsistent_fields)]
#[derive(Debug)]
pub enum RcTree<B, L> {
    /// A branch: a value and the shared children below it
    Branch { val: B, children: Rc<Vec<RcTree<B, L>>> },
    /// A leaf: a value and no children
    Leaf { val: L },
}

impl<B, L> RcTree<B, L> {
    /// A new leaf.
    pub fn new_leaf(val: L) -> (r: Self)
        ensures
            r == (RcTree::<B, L>::Leaf { val }),
    {
        RcTree::Leaf { val }
    }

    /// A new branch over `children`.
    pub fn new_branch(val: B, children: Vec<Self>) -> (r: Self)
        ensures
            match r {
                RcTree::Branch { val: v, children: c } => v == val && *c == children,
                RcTree::Leaf { .. } => false,
            },
    {
        RcTree::Branch { val, children: Rc::new(children) }
    }

    /// The children of this node; a leaf has none.
    pub fn children(&self) -> (r: &[Self])
        ensures
            r@ == match self {
                RcTree::Branch { children, .. } => (**children)@,
                RcTree::Leaf { .. } => Seq::empty(),
            },
    {
        match self {
            RcTree::Branch { children, .. } => {
                let v: &Vec<Self> = &**children;
                v.as_slice()
            },
            RcTree::Leaf { .. } => &[],
        }
    }

    /// The value of this node if it is a branch.
    pub fn branch_val(&self) -> (r: Option<&B>)
        ensures
            r == match self {
                RcTree::Branch { val, .. } => Some(val),
                RcTree::Leaf { .. } => None::<&B>,
            },
    {
        match self {
            RcTree::Branch { val, .. } => Some(val),
            RcTree::Leaf { .. } => None,
        }
    }

    /// The value of this node if it is a leaf.
    pub fn leaf_val(&self) -> (r: Option<&L>)
        ensures
            r == match self {
                RcTree::Branch { .. } => None::<&L>,
                RcTree::Leaf { val } => Some(val),
            },
    {
        match self {
            RcTree::Branch { .. } => None,
            RcTree::Leaf { val } => Some(val),
        }
    }
}

/// A tree that has values in both its leaves and its branches.
pub trait Tree<B, L>: Sized {
    /// Create a new leaf node.
    fn new_leaf(val: L) -> Self;

    /// Create a new branch node.
    fn new_branch(val: B, children: Vec<Self>) -> Self;

    /// The children of this node.
    fn children(&self) -> &[Self];

    /// The branch value if this node is a branch, none otherwise.
    fn branch_val(&self) -> Option<&B>;

    /// The leaf value if this node is a leaf, none otherwise.
    fn leaf_val(&self) -> Option<&L>;
}

impl<B, L> Tree<B, L> for RcTree<B, L> {
    fn new_leaf(val: L) -> Self {
        RcTree::<B, L>::new_leaf(val)
    }

    fn new_branch(val: B, children: Vec<Self>) -> Self {
        RcTree::<B, L>::new_branch(val, children)
    }

    fn children(&self) -> &[Self] {
        RcTree::<B, L>::children(self)
    }

    fn branch_val(&self) -> Option<&B> {
        RcTree::<B, L>::branch_val(self)
    }

    fn leaf_val(&self) -> Option<&L> {
        RcTree::<B, L>::leaf_val(self)
    }
}

impl<B, L> Tree<B, L> for BoxTree<B, L> {
    fn new_leaf(val: L) -> Self {
        BoxTree::<B, L>::new_leaf(val)
    }

    fn new_branch(val: B, children: Vec<Self>) -> Self {
        BoxTree::<B, L>::new_branch(val, children)
    }

    fn children(&self) -> &[Self] {
        BoxTree::<B, L>::children(self)
    }

    fn branch_val(&self) -> Option<&B> {
        BoxTree::<B, L>::branch_val(self)
    }

    fn leaf_val(&self) -> Option<&L> {
        BoxTree::<B, L>::leaf_val(self)
    }
}

} // verus!
