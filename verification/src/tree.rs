//! The octree as a mathematical tree, and what each edit makes of it.
//!
//! The pool stores the tree in linked blocks; contracts speak of the tree
//! itself. A cell is the list of child indices that leads from the root to a
//! cube.

use crate::branch::Branch;
use crate::node::Node;
use vstd::prelude::*;

verus! {

/// What the pool holds, without the pool: a leaf with its node, or eight
/// subtrees.
pub enum Tree {
    Leaf(Node),
    Parent(Seq<Tree>),
}

impl Tree {
    /// Interior nodes have eight children, leaves are not flagged as
    /// interior, and no leaf lies more than `height` levels down.
    pub open spec fn shaped(self, height: nat) -> bool
        decreases height,
    {
        match self {
            Tree::Leaf(n) => !n.is_parent(),
            Tree::Parent(kids) => height > 0 && kids.len() == 8 && forall|k: int|
                0 <= k < 8 ==> (#[trigger] kids[k]).shaped((height - 1) as nat),
        }
    }

    /// What each child of a leaf holds once the leaf is split: a solid leaf
    /// hands its node down, any other leaf leaves its children blank.
    pub open spec fn split_leaf(n: Node) -> Node {
        if n.is_solid() {
            n
        } else {
            Node::empty()
        }
    }

    /// The eight children of this tree, those of a leaf being the copies it
    /// would be split into.
    pub open spec fn kids(self) -> Seq<Tree> {
        match self {
            Tree::Leaf(n) => Seq::new(8, |k: int| Tree::Leaf(Tree::split_leaf(n))),
            Tree::Parent(kids) => kids,
        }
    }

    /// The subtree found by following `cell`, splitting leaves on the way.
    pub open spec fn at(self, cell: Seq<int>) -> Tree
        decreases cell.len(),
    {
        if cell.len() == 0 {
            self
        } else {
            self.kids()[cell[0]].at(cell.drop_first())
        }
    }

    /// All eight are the leaf `node`, bit for bit.
    pub open spec fn all_leaves(kids: Seq<Tree>, node: Node) -> bool {
        forall|k: int| 0 <= k < 8 ==> #[trigger] kids[k] == Tree::Leaf(node)
    }

    /// All eight are leaves without `PARENT` and `SOLID`.
    pub open spec fn all_empty(kids: Seq<Tree>) -> bool {
        forall|k: int| 0 <= k < 8 ==> (#[trigger] kids[k]) is Leaf && kids[k]->Leaf_0.is_empty()
    }

    /// The tree after `node` was written at `cell`: leaves on the way are
    /// split, the cube at `cell` becomes the leaf, and every ancestor whose
    /// eight children have become that same leaf collapses into it.
    pub open spec fn set(self, cell: Seq<int>, node: Node) -> Tree
        decreases cell.len(),
    {
        if cell.len() == 0 {
            Tree::Leaf(node)
        } else {
            let kids = self.kids().update(
                cell[0],
                self.kids()[cell[0]].set(cell.drop_first(), node),
            );
            if Tree::all_leaves(kids, node) {
                Tree::Leaf(node)
            } else {
                Tree::Parent(kids)
            }
        }
    }

    /// The tree after the cube at `cell` was cleared. The walk down stops at
    /// an empty leaf, collapses an interior node whose children are all empty
    /// when it comes upon one, splits solid leaves, and blanks the cube. On
    /// the way back every interior node whose eight children have become
    /// empty leaves collapses into a blank leaf.
    pub open spec fn remove(self, cell: Seq<int>) -> Tree
        decreases cell.len(),
    {
        if cell.len() == 0 {
            Tree::Leaf(Node::empty())
        } else {
            match self {
                Tree::Leaf(n) if n.is_empty() => self,
                Tree::Parent(kids) if Tree::all_empty(kids) => Tree::Leaf(Node::empty()),
                _ => {
                    let kids = self.kids().update(
                        cell[0],
                        self.kids()[cell[0]].remove(cell.drop_first()),
                    );
                    if Tree::all_empty(kids) {
                        Tree::Leaf(Node::empty())
                    } else {
                        Tree::Parent(kids)
                    }
                },
            }
        }
    }

    /// The leaf that covers the cube at `cell`, or `None` where the cube is
    /// subdivided.
    pub open spec fn get(self, cell: Seq<int>) -> Option<Node>
        decreases cell.len(),
    {
        match self {
            Tree::Leaf(n) => Some(n),
            Tree::Parent(kids) => if cell.len() == 0 {
                None
            } else {
                kids[cell[0]].get(cell.drop_first())
            },
        }
    }

    /// Every leaf is empty.
    pub open spec fn is_void(self) -> bool
        decreases self,
    {
        match self {
            Tree::Leaf(n) => n.is_empty(),
            Tree::Parent(kids) => forall|k: int|
                0 <= k < kids.len() ==> (#[trigger] kids[k]).is_void(),
        }
    }

    /// No interior node has eight children that are one and the same leaf.
    pub open spec fn coalesced(self) -> bool
        decreases self,
    {
        match self {
            Tree::Leaf(_) => true,
            Tree::Parent(kids) => {
                &&& !(kids[0] is Leaf && Tree::all_leaves(kids, kids[0]->Leaf_0))
                &&& forall|k: int| 0 <= k < kids.len() ==> (#[trigger] kids[k]).coalesced()
            },
        }
    }
}

impl Tree {
    /// The leaves that are not empty, each with its branch, in the order in
    /// which a walk with a stack meets them: the last child first.
    pub open spec fn leaves(self, branch: Branch) -> Seq<(Branch, Node)>
        decreases self, 0int,
    {
        match self {
            Tree::Leaf(n) => if n.is_empty() {
                Seq::empty()
            } else {
                seq![(branch, n)]
            },
            Tree::Parent(kids) => Tree::leaves_of(kids, branch, 8),
        }
    }

    /// The leaves of the first `upto` children of the cube at `branch`, those
    /// of the last of them first.
    pub open spec fn leaves_of(kids: Seq<Tree>, branch: Branch, upto: int) -> Seq<(Branch, Node)>
        decreases kids, upto,
    {
        if upto <= 0 || upto > kids.len() {
            Seq::empty()
        } else {
            kids[upto - 1].leaves(branch.spec_with_child(upto - 1)) + Tree::leaves_of(
                kids,
                branch,
                upto - 1,
            )
        }
    }

    /// The number of nodes of the tree.
    pub open spec fn size(self) -> nat
        decreases self, 0int,
    {
        match self {
            Tree::Leaf(_) => 1,
            Tree::Parent(kids) => 1 + Tree::size_of(kids, 8),
        }
    }

    /// The number of nodes in the first `upto` children.
    pub open spec fn size_of(kids: Seq<Tree>, upto: int) -> nat
        decreases kids, upto,
    {
        if upto <= 0 || upto > kids.len() {
            0
        } else {
            kids[upto - 1].size() + Tree::size_of(kids, upto - 1)
        }
    }

    /// The tree after one edit: the cube at the branch cleared, or the leaf
    /// written there.
    pub open spec fn edited(self, edit: (Branch, Node), clear: bool) -> Tree {
        if clear {
            self.remove(edit.0.cell())
        } else {
            self.set(edit.0.cell(), edit.1)
        }
    }

    /// The tree after the edits were made, one after the other.
    pub open spec fn edits(self, edits: Seq<(Branch, Node)>, clear: bool) -> Tree
        decreases edits.len(),
    {
        if edits.len() == 0 {
            self
        } else {
            self.edits(edits.drop_last(), clear).edited(edits.last(), clear)
        }
    }

    /// The tree after the leaves of `edits` were written, each at its branch,
    /// one after the other.
    pub open spec fn sets(self, edits: Seq<(Branch, Node)>) -> Tree {
        self.edits(edits, false)
    }

    /// The tree after the cubes at the branches of `edits` were cleared, one
    /// after the other.
    pub open spec fn removes(self, edits: Seq<(Branch, Node)>) -> Tree {
        self.edits(edits, true)
    }

    /// Making one list of edits and then another is making the two lists in
    /// a row.
    pub proof fn lemma_edits_add(self, first: Seq<(Branch, Node)>, then: Seq<(Branch, Node)>, clear: bool)
        ensures
            self.edits(first + then, clear) == self.edits(first, clear).edits(then, clear),
        decreases then.len(),
    {
        if then.len() == 0 {
            assert(first + then =~= first);
        } else {
            assert((first + then).drop_last() =~= first + then.drop_last());
            assert((first + then).last() == then.last());
            self.lemma_edits_add(first, then.drop_last(), clear);
        }
    }
}

/// Two nodes stand for the same matter: they are equal, or both are empty.
pub open spec fn same_voxel(a: Node, b: Node) -> bool {
    a == b || (a.is_empty() && b.is_empty())
}

/// The node is one that a split hands down as it is: solid, or blank.
pub open spec fn stable(node: Node) -> bool {
    !node.is_parent() && (node.is_solid() || node == Node::empty())
}

impl Tree {
    /// The leaf that holds the smallest cube at `point`, a cell that leads
    /// down through every level of the tree.
    pub open spec fn voxel(self, point: Seq<int>) -> Node
        decreases point.len(),
    {
        match self {
            Tree::Leaf(n) => n,
            Tree::Parent(kids) => if point.len() == 0 {
                Node::empty()
            } else {
                kids[point[0]].voxel(point.drop_first())
            },
        }
    }

    /// The tree is tidy: every empty leaf is blank, and no interior node has
    /// eight empty leaves for children. A new octree is tidy, and writing
    /// solid or blank leaves and clearing cubes keep it so.
    pub open spec fn tidy(self) -> bool
        decreases self,
    {
        match self {
            Tree::Leaf(n) => n.is_empty() ==> n == Node::empty(),
            Tree::Parent(kids) => {
                &&& !Tree::all_empty(kids)
                &&& forall|k: int| 0 <= k < kids.len() ==> (#[trigger] kids[k]).tidy()
            },
        }
    }
}

} // verus!
