use vstd::prelude::*;

verus! {

/// A handle on a node: its index in the arena of the tree that holds it.
pub type BstNodeLink = usize;

/// One key of the tree with its links. The parent link is a plain handle, so it
/// never keeps a node alive and cannot form an ownership cycle.
#[derive(Clone, Copy, Debug, PartialEq, Eq, Structural)]
pub struct BstNode {
    pub key: i32,
    pub parent: Option<BstNodeLink>,
    pub left: Option<BstNodeLink>,
    pub right: Option<BstNodeLink>,
}

impl BstNode {
    pub open spec fn leaf(key: i32, parent: Option<BstNodeLink>) -> BstNode {
        BstNode { key, parent, left: None, right: None }
    }

    pub open spec fn with_left(self, c: Option<BstNodeLink>) -> BstNode {
        BstNode { key: self.key, parent: self.parent, left: c, right: self.right }
    }

    pub open spec fn with_right(self, c: Option<BstNodeLink>) -> BstNode {
        BstNode { key: self.key, parent: self.parent, left: self.left, right: c }
    }

    pub open spec fn with_parent(self, p: Option<BstNodeLink>) -> BstNode {
        BstNode { key: self.key, parent: p, left: self.left, right: self.right }
    }

    /// The child that replaces a node with at most one child: its right child
    /// when it has no left one, else its left child.
    pub open spec fn only_child(self) -> Option<BstNodeLink> {
        if self.left is None {
            self.right
        } else {
            self.left
        }
    }

    pub(crate) fn new(key: i32) -> (r: BstNode)
        ensures
            r == BstNode::leaf(key, None),
    {
        BstNode { key, parent: None, left: None, right: None }
    }
}

} // verus!
