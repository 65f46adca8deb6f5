//! What holds of the edits whatever the tree: laws of writing, clearing and
//! walking, stated over the tree that the pool holds.

use crate::branch::{Branch, MAX_DEPTH};
use crate::node::Node;
use crate::pool::cell_ok;
use crate::tree::{same_voxel, stable, Tree};
use vstd::prelude::*;

verus! {

/// The rest of a cell is a cell.
pub proof fn lemma_cell_rest(cell: Seq<int>)
    requires
        cell_ok(cell),
        cell.len() > 0,
    ensures
        cell_ok(cell.drop_first()),
        0 <= cell[0] < 8,
{
    let rest = cell.drop_first();
    assert forall|j: int| 0 <= j < rest.len() implies 0 <= #[trigger] rest[j] < 8 by {
        assert(rest[j] == cell[j + 1]);
    }
}

/// One level less, as long as there is one.
pub open spec fn below(height: nat) -> nat {
    if height > 0 {
        (height - 1) as nat
    } else {
        0
    }
}

/// The children of a shaped tree, those a leaf would be split into
/// included, are eight shaped trees.
pub proof fn lemma_kids_shaped(t: Tree, height: nat)
    requires
        t.shaped(height),
    ensures
        t.kids().len() == 8,
        forall|k: int| 0 <= k < 8 ==> (#[trigger] t.kids()[k]).shaped(below(height)),
{
    Node::lemma_flags();
}

/// A cell leads into a point exactly when its first step is the point's and
/// the rest of it leads into the rest of the point.
pub proof fn lemma_prefix_step(cell: Seq<int>, point: Seq<int>)
    requires
        cell.len() > 0,
        point.len() > 0,
    ensures
        cell.is_prefix_of(point) == (cell[0] == point[0] && cell.drop_first().is_prefix_of(
            point.drop_first(),
        )),
{
    let rest = cell.drop_first();
    let tail = point.drop_first();
    if cell.is_prefix_of(point) {
        assert(point.subrange(0, cell.len() as int)[0] == cell[0]);
        assert(tail.subrange(0, rest.len() as int) =~= point.subrange(0, cell.len() as int).drop_first());
    }
    if cell[0] == point[0] && rest.is_prefix_of(tail) {
        let front = point.subrange(0, cell.len() as int);
        assert forall|j: int| 0 <= j < cell.len() implies front[j] == cell[j] by {
            if j > 0 {
                assert(tail.subrange(0, rest.len() as int)[j - 1] == rest[j - 1]);
            }
        }
        assert(front =~= cell);
    }
}

/// Writing a leaf keeps the shape of the tree: it is no deeper than it was,
/// or as deep as the cell is long.
pub proof fn lemma_set_shaped(t: Tree, height: nat, cell: Seq<int>, node: Node)
    requires
        t.shaped(height),
        cell_ok(cell),
        !node.is_parent(),
        cell.len() <= height,
    ensures
        t.set(cell, node).shaped(height),
    decreases cell.len(),
{
    if cell.len() > 0 {
        lemma_cell_rest(cell);
        lemma_kids_shaped(t, height);
        let kid = t.kids()[cell[0]];
        lemma_set_shaped(kid, below(height), cell.drop_first(), node);
        let kids = t.kids().update(cell[0], kid.set(cell.drop_first(), node));
        assert forall|k: int| 0 <= k < 8 implies (#[trigger] kids[k]).shaped(below(height)) by {
            if k != cell[0] {
                assert(kids[k] == t.kids()[k]);
            }
        }
    }
}

/// Clearing a cube keeps the shape of the tree.
pub proof fn lemma_remove_shaped(t: Tree, height: nat, cell: Seq<int>)
    requires
        t.shaped(height),
        cell_ok(cell),
        cell.len() <= height,
    ensures
        t.remove(cell).shaped(height),
    decreases cell.len(),
{
    Node::lemma_flags();
    if cell.len() > 0 {
        lemma_cell_rest(cell);
        lemma_kids_shaped(t, height);
        let kid = t.kids()[cell[0]];
        lemma_remove_shaped(kid, below(height), cell.drop_first());
        let kids = t.kids().update(cell[0], kid.remove(cell.drop_first()));
        assert forall|k: int| 0 <= k < 8 implies (#[trigger] kids[k]).shaped(below(height)) by {
            if k != cell[0] {
                assert(kids[k] == t.kids()[k]);
            }
        }
    }
}

/// Writing into a leaf the node that it holds already leaves the leaf, if
/// the node is solid or blank.
pub proof fn lemma_set_same_leaf(cell: Seq<int>, node: Node)
    requires
        cell_ok(cell),
        stable(node),
    ensures
        Tree::Leaf(node).set(cell, node) == Tree::Leaf(node),
    decreases cell.len(),
{
    if cell.len() > 0 {
        lemma_cell_rest(cell);
        lemma_set_same_leaf(cell.drop_first(), node);
        Node::lemma_flags();
        let t = Tree::Leaf(node);
        assert(Tree::split_leaf(node) == node);
        let kids = t.kids().update(cell[0], t.kids()[cell[0]].set(cell.drop_first(), node));
        assert(Tree::all_leaves(kids, node));
    }
}

/// Writing the same leaf at the same branch a second time changes nothing,
/// if the leaf is solid or blank.
pub proof fn lemma_set_twice(t: Tree, height: nat, cell: Seq<int>, node: Node)
    requires
        t.shaped(height),
        cell_ok(cell),
        stable(node),
    ensures
        t.set(cell, node).set(cell, node) == t.set(cell, node),
    decreases cell.len(),
{
    if cell.len() > 0 {
        lemma_cell_rest(cell);
        lemma_kids_shaped(t, height);
        let rest = cell.drop_first();
        let kid = t.kids()[cell[0]];
        let once = kid.set(rest, node);
        let kids = t.kids().update(cell[0], once);
        lemma_set_twice(kid, below(height), rest, node);
        if Tree::all_leaves(kids, node) {
            lemma_set_same_leaf(cell, node);
        } else {
            let again = kids.update(cell[0], kids[cell[0]].set(rest, node));
            assert(again =~= kids);
        }
    }
}

/// A leaf that comes out of a write is the written leaf.
pub proof fn lemma_set_leaf(t: Tree, cell: Seq<int>, node: Node)
    requires
        t.set(cell, node) is Leaf,
    ensures
        t.set(cell, node) == Tree::Leaf(node),
{
}

/// A tree in which no interior node has eight children that are one and the
/// same leaf is such a tree after a write as well.
pub proof fn lemma_set_coalesced(t: Tree, height: nat, cell: Seq<int>, node: Node)
    requires
        t.shaped(height),
        t.coalesced(),
        cell_ok(cell),
    ensures
        t.set(cell, node).coalesced(),
    decreases cell.len(),
{
    if cell.len() > 0 {
        lemma_cell_rest(cell);
        lemma_kids_shaped(t, height);
        let rest = cell.drop_first();
        let kid = t.kids()[cell[0]];
        let once = kid.set(rest, node);
        let kids = t.kids().update(cell[0], once);
        assert(kid.coalesced());
        lemma_set_coalesced(kid, below(height), rest, node);
        if !Tree::all_leaves(kids, node) {
            assert forall|k: int| 0 <= k < kids.len() implies (#[trigger] kids[k]).coalesced() by {
                if k != cell[0] {
                    assert(kids[k] == t.kids()[k]);
                    assert(t.kids()[k].coalesced());
                }
            }
            if kids[0] is Leaf && Tree::all_leaves(kids, kids[0]->Leaf_0) {
                assert(kids[cell[0]] == Tree::Leaf(kids[0]->Leaf_0));
                lemma_set_leaf(kid, rest, node);
                assert(false);
            }
        }
    }
}

/// Clearing a cube leaves an empty leaf or an interior node, never a leaf
/// with matter.
pub proof fn lemma_remove_leaf(t: Tree, cell: Seq<int>)
    requires
        t.remove(cell) is Leaf,
    ensures
        t.remove(cell)->Leaf_0.is_empty(),
{
    Node::lemma_flags();
}

/// A tree in which no interior node has eight children that are one and the
/// same leaf is such a tree after a removal as well.
pub proof fn lemma_remove_coalesced(t: Tree, height: nat, cell: Seq<int>)
    requires
        t.shaped(height),
        t.coalesced(),
        cell_ok(cell),
    ensures
        t.remove(cell).coalesced(),
    decreases cell.len(),
{
    if cell.len() > 0 {
        lemma_cell_rest(cell);
        lemma_kids_shaped(t, height);
        let rest = cell.drop_first();
        let own = t.kids();
        let kid = own[cell[0]];
        let kids = own.update(cell[0], kid.remove(rest));
        assert forall|k: int| 0 <= k < 8 implies (#[trigger] own[k]).coalesced() by {
            match t {
                Tree::Leaf(_) => {},
                Tree::Parent(_) => {},
            }
        }
        lemma_remove_coalesced(kid, below(height), rest);
        if !Tree::all_empty(kids) {
            assert forall|k: int| 0 <= k < kids.len() implies (#[trigger] kids[k]).coalesced() by {
                if k != cell[0] {
                    assert(kids[k] == own[k]);
                }
            }
            if kids[0] is Leaf && Tree::all_leaves(kids, kids[0]->Leaf_0) {
                assert(kids[cell[0]] == Tree::Leaf(kids[0]->Leaf_0));
                lemma_remove_leaf(kid, rest);
                assert(Tree::all_empty(kids));
            }
        }
    }
}

/// Edits keep a tree in which no interior node has eight children that are
/// one and the same leaf such a tree.
pub proof fn lemma_edits_coalesced(t: Tree, height: nat, edits: Seq<(Branch, Node)>, clear: bool)
    requires
        t.shaped(height),
        t.coalesced(),
        edits_ok(edits, height),
    ensures
        t.edits(edits, clear).coalesced(),
    decreases edits.len(),
{
    if edits.len() > 0 {
        let first = edits.drop_last();
        assert(edits_ok(first, height)) by {
            assert forall|i: int| 0 <= i < first.len() implies (#[trigger] first[i]).0.depth <= height
                && !first[i].1.is_parent() by {
                assert(first[i] == edits[i]);
            }
        }
        lemma_edits_shaped(t, height, first, clear);
        lemma_edits_coalesced(t, height, first, clear);
        let last = edits[edits.len() - 1];
        last.0.lemma_cell_entries();
        if clear {
            lemma_remove_coalesced(t.edits(first, clear), height, last.0.cell());
        } else {
            lemma_set_coalesced(t.edits(first, clear), height, last.0.cell(), last.1);
        }
    }
}

/// What a write does to the smallest cubes: those in the written cube hold
/// the written leaf, and the others hold the matter that they held.
pub proof fn lemma_set_voxel(t: Tree, height: nat, cell: Seq<int>, node: Node, point: Seq<int>)
    requires
        t.shaped(height),
        cell_ok(cell),
        cell_ok(point),
        point.len() >= height,
        point.len() >= cell.len(),
    ensures
        cell.is_prefix_of(point) ==> t.set(cell, node).voxel(point) == node,
        !cell.is_prefix_of(point) ==> same_voxel(t.set(cell, node).voxel(point), t.voxel(point)),
    decreases cell.len(),
{
    Node::lemma_flags();
    if cell.len() == 0 {
        assert(cell =~= point.subrange(0, 0));
    } else {
        lemma_cell_rest(cell);
        lemma_cell_rest(point);
        lemma_kids_shaped(t, height);
        let rest = cell.drop_first();
        let tail = point.drop_first();
        let kid = t.kids()[cell[0]];
        let once = kid.set(rest, node);
        let kids = t.kids().update(cell[0], once);
        lemma_set_voxel(kid, below(height), rest, node, tail);
        lemma_prefix_step(cell, point);
        lemma_kid_voxel(t, height, point);
        let after = t.set(cell, node);
        assert(after.voxel(point) == kids[point[0]].voxel(tail)) by {
            if Tree::all_leaves(kids, node) {
                assert(kids[point[0]] == Tree::Leaf(node));
            }
        }
        if point[0] != cell[0] {
            assert(kids[point[0]] == t.kids()[point[0]]);
        }
    }
}

/// The smallest cube at a point holds what the child on the way to it holds
/// there, a child of a split leaf holding the matter of the leaf.
pub proof fn lemma_kid_voxel(t: Tree, height: nat, point: Seq<int>)
    requires
        t.shaped(height),
        cell_ok(point),
        point.len() > 0,
    ensures
        same_voxel(t.kids()[point[0]].voxel(point.drop_first()), t.voxel(point)),
{
    Node::lemma_flags();
    match t {
        Tree::Leaf(m) => {
            m.lemma_empty_iff();
            assert(t.kids()[point[0]] == Tree::Leaf(Tree::split_leaf(m)));
        },
        Tree::Parent(_) => {},
    }
}

/// What clearing does to the smallest cubes: those in the cleared cube are
/// empty, and the others hold the matter that they held.
pub proof fn lemma_remove_voxel(t: Tree, height: nat, cell: Seq<int>, point: Seq<int>)
    requires
        t.shaped(height),
        cell_ok(cell),
        cell_ok(point),
        point.len() >= height,
        point.len() >= cell.len(),
    ensures
        cell.is_prefix_of(point) ==> t.remove(cell).voxel(point).is_empty(),
        !cell.is_prefix_of(point) ==> same_voxel(t.remove(cell).voxel(point), t.voxel(point)),
    decreases cell.len(),
{
    Node::lemma_flags();
    if cell.len() == 0 {
    } else {
        lemma_cell_rest(cell);
        lemma_cell_rest(point);
        lemma_kids_shaped(t, height);
        let rest = cell.drop_first();
        let tail = point.drop_first();
        let kid = t.kids()[cell[0]];
        lemma_remove_voxel(kid, below(height), rest, tail);
        lemma_prefix_step(cell, point);
        lemma_kid_voxel(t, height, point);
        let after = t.remove(cell);
        let kids = t.kids().update(cell[0], kid.remove(rest));
        if point[0] != cell[0] {
            assert(kids[point[0]] == t.kids()[point[0]]);
        }
        let walked = match t {
            Tree::Leaf(m) => !m.is_empty(),
            Tree::Parent(own) => !Tree::all_empty(own),
        };
        match t {
            Tree::Leaf(m) => {
                m.lemma_empty_iff();
            },
            Tree::Parent(own) => {
                if Tree::all_empty(own) {
                    assert(own[point[0]] is Leaf && own[point[0]]->Leaf_0.is_empty());
                    assert(after == Tree::Leaf(Node::empty()));
                }
            },
        }
        if walked {
            if Tree::all_empty(kids) {
                assert(after == Tree::Leaf(Node::empty()));
                assert(kids[point[0]] is Leaf && kids[point[0]]->Leaf_0.is_empty());
                assert(kids[point[0]].voxel(tail).is_empty());
            } else {
                assert(after == Tree::Parent(kids));
                assert(after.voxel(point) == kids[point[0]].voxel(tail));
            }
        }
    }
}

/// Writing a leaf into a cube that was empty and clearing the cube again
/// leaves every smallest cube with the matter that it held.
pub proof fn lemma_set_remove(t: Tree, height: nat, cell: Seq<int>, node: Node, point: Seq<int>)
    requires
        t.shaped(height),
        cell_ok(cell),
        cell_ok(point),
        !node.is_parent(),
        cell.len() <= height <= point.len(),
        cell.is_prefix_of(point) ==> t.voxel(point).is_empty(),
    ensures
        same_voxel(t.set(cell, node).remove(cell).voxel(point), t.voxel(point)),
{
    lemma_set_shaped(t, height, cell, node);
    lemma_set_voxel(t, height, cell, node, point);
    lemma_remove_voxel(t.set(cell, node), height, cell, point);
}

/// What comes out of writing a solid leaf is not an empty leaf.
pub proof fn lemma_set_solid(t: Tree, cell: Seq<int>, node: Node)
    requires
        node.is_solid(),
    ensures
        !(t.set(cell, node) is Leaf && t.set(cell, node)->Leaf_0.is_empty()),
{
    node.lemma_empty_iff();
}

/// Writing a solid leaf into a cube that a blank leaf of a tidy tree covers,
/// and clearing the cube again, gives back the very tree.
pub proof fn lemma_set_remove_same(t: Tree, height: nat, cell: Seq<int>, node: Node)
    requires
        t.shaped(height),
        t.tidy(),
        cell_ok(cell),
        t.get(cell) == Some(Node::empty()),
        node.is_solid(),
        !node.is_parent(),
    ensures
        t.set(cell, node).remove(cell) == t,
    decreases cell.len(),
{
    Node::lemma_flags();
    node.lemma_empty_iff();
    if cell.len() > 0 {
        lemma_cell_rest(cell);
        lemma_kids_shaped(t, height);
        let rest = cell.drop_first();
        let own = t.kids();
        let kid = own[cell[0]];
        let once = kid.set(rest, node);
        let kids = own.update(cell[0], once);
        assert(kid.tidy() && kid.get(rest) == Some(Node::empty())) by {
            match t {
                Tree::Leaf(m) => {
                    assert(m == Node::empty());
                },
                Tree::Parent(_) => {},
            }
        }
        lemma_set_remove_same(kid, below(height), rest, node);
        lemma_set_solid(kid, rest, node);
        let first = t.set(cell, node);
        if Tree::all_leaves(kids, node) {
            let split = Tree::Leaf(node).kids();
            let back = split.update(cell[0], split[cell[0]].remove(rest));
            assert(once == Tree::Leaf(node));
            assert(split[cell[0]] == once);
            assert(t is Parent) by {
                if t is Leaf {
                    let other = if cell[0] == 0 {
                        1int
                    } else {
                        0int
                    };
                    assert(kids[other] == Tree::Leaf(node));
                }
            }
            assert forall|k: int| 0 <= k < 8 implies #[trigger] back[k] == own[k] by {
                if k != cell[0] {
                    assert(kids[k] == Tree::Leaf(node));
                }
            }
            assert(back =~= own);
            assert(!Tree::all_empty(own));
        } else {
            assert(first == Tree::Parent(kids));
            assert(!Tree::all_empty(kids)) by {
                assert(kids[cell[0]] == once);
            }
            let back = kids.update(cell[0], kids[cell[0]].remove(rest));
            assert(back =~= own);
            match t {
                Tree::Leaf(m) => {
                    assert(m == Node::empty());
                    assert(Tree::all_empty(own));
                },
                Tree::Parent(_) => {},
            }
        }
    }
}

/// Writing a solid or blank leaf keeps a tidy tree tidy.
pub proof fn lemma_set_tidy(t: Tree, height: nat, cell: Seq<int>, node: Node)
    requires
        t.shaped(height),
        t.tidy(),
        cell_ok(cell),
        stable(node),
    ensures
        t.set(cell, node).tidy(),
    decreases cell.len(),
{
    Node::lemma_flags();
    node.lemma_empty_iff();
    if cell.len() > 0 {
        lemma_cell_rest(cell);
        lemma_kids_shaped(t, height);
        let rest = cell.drop_first();
        let own = t.kids();
        let kid = own[cell[0]];
        let once = kid.set(rest, node);
        let kids = own.update(cell[0], once);
        assert forall|k: int| 0 <= k < 8 implies (#[trigger] own[k]).tidy() by {
            match t {
                Tree::Leaf(m) => {
                    m.lemma_empty_iff();
                },
                Tree::Parent(_) => {},
            }
        }
        lemma_set_tidy(kid, below(height), rest, node);
        if !Tree::all_leaves(kids, node) {
            assert forall|k: int| 0 <= k < kids.len() implies (#[trigger] kids[k]).tidy() by {
                if k != cell[0] {
                    assert(kids[k] == own[k]);
                }
            }
            if Tree::all_empty(kids) {
                assert forall|k: int| 0 <= k < 8 implies #[trigger] kids[k] == Tree::Leaf(
                    Node::empty(),
                ) by {
                    assert(kids[k] is Leaf && kids[k]->Leaf_0.is_empty());
                    assert(kids[k].tidy());
                }
                assert(kids[cell[0]] == once);
                lemma_set_leaf(kid, rest, node);
                assert(Tree::all_leaves(kids, node));
            }
        }
    }
}

/// Clearing a cube keeps a tidy tree tidy.
pub proof fn lemma_remove_tidy(t: Tree, height: nat, cell: Seq<int>)
    requires
        t.shaped(height),
        t.tidy(),
        cell_ok(cell),
    ensures
        t.remove(cell).tidy(),
    decreases cell.len(),
{
    Node::lemma_flags();
    if cell.len() > 0 {
        lemma_cell_rest(cell);
        lemma_kids_shaped(t, height);
        let rest = cell.drop_first();
        let own = t.kids();
        let kid = own[cell[0]];
        let kids = own.update(cell[0], kid.remove(rest));
        assert forall|k: int| 0 <= k < 8 implies (#[trigger] own[k]).tidy() by {
            match t {
                Tree::Leaf(m) => {
                    m.lemma_empty_iff();
                },
                Tree::Parent(_) => {},
            }
        }
        lemma_remove_tidy(kid, below(height), rest);
        assert forall|k: int| 0 <= k < kids.len() implies (#[trigger] kids[k]).tidy() by {
            if k != cell[0] {
                assert(kids[k] == own[k]);
            }
        }
    }
}

/// A tidy tree without matter is one blank leaf.
pub proof fn lemma_tidy_void(t: Tree, height: nat)
    requires
        t.shaped(height),
        t.tidy(),
        t.is_void(),
    ensures
        t == Tree::Leaf(Node::empty()),
    decreases t,
{
    match t {
        Tree::Leaf(_) => {},
        Tree::Parent(kids) => {
            Node::lemma_flags();
            assert forall|k: int| 0 <= k < 8 implies (#[trigger] kids[k]) is Leaf
                && kids[k]->Leaf_0.is_empty() by {
                lemma_tidy_void(kids[k], (height - 1) as nat);
            }
        },
    }
}

/// In a shaped tree whose leaves are all empty every smallest cube is empty.
pub proof fn lemma_void_voxel_at(t: Tree, height: nat, point: Seq<int>)
    requires
        t.is_void(),
        t.shaped(height),
        cell_ok(point),
    ensures
        t.voxel(point).is_empty(),
    decreases point.len(),
{
    Node::lemma_flags();
    match t {
        Tree::Leaf(_) => {},
        Tree::Parent(kids) => {
            if point.len() > 0 {
                lemma_cell_rest(point);
                lemma_void_voxel_at(kids[point[0]], (height - 1) as nat, point.drop_first());
            }
        },
    }
}

/// Every smallest cube of the tree is empty.
pub open spec fn voxels_empty(t: Tree, height: nat) -> bool {
    forall|p: Seq<int>| cell_ok(p) && p.len() == height ==> (#[trigger] t.voxel(p)).is_empty()
}

/// A tree whose smallest cubes are all empty has no leaf that is not.
pub proof fn lemma_voxels_void(t: Tree, height: nat)
    requires
        t.shaped(height),
        voxels_empty(t, height),
    ensures
        t.is_void(),
    decreases height,
{
    match t {
        Tree::Leaf(n) => {
            let p = Seq::new(height, |i: int| 0int);
            assert(cell_ok(p));
            assert(t.voxel(p) == n);
        },
        Tree::Parent(kids) => {
            assert forall|k: int| 0 <= k < kids.len() implies (#[trigger] kids[k]).is_void() by {
                assert forall|q: Seq<int>| cell_ok(q) && q.len() == height - 1 implies (
                #[trigger] kids[k].voxel(q)).is_empty() by {
                    let p = seq![k] + q;
                    assert(p.drop_first() =~= q);
                    assert(cell_ok(p));
                    assert(t.voxel(p) == kids[k].voxel(q));
                }
                lemma_voxels_void(kids[k], (height - 1) as nat);
            }
        },
    }
}

/// A list of edits that a tree of the given height can take: the branches
/// are no deeper than the tree, and no leaf is flagged as interior.
pub open spec fn edits_ok(edits: Seq<(Branch, Node)>, height: nat) -> bool {
    forall|i: int|
        0 <= i < edits.len() ==> (#[trigger] edits[i]).0.depth <= height && !edits[i].1.is_parent()
}

/// Some edit of the list is at a cube that holds the point.
pub open spec fn reached(edits: Seq<(Branch, Node)>, point: Seq<int>) -> bool {
    exists|i: int| 0 <= i < edits.len() && (#[trigger] edits[i]).0.cell().is_prefix_of(point)
}

/// Edits keep the shape of the tree.
pub proof fn lemma_edits_shaped(t: Tree, height: nat, edits: Seq<(Branch, Node)>, clear: bool)
    requires
        t.shaped(height),
        edits_ok(edits, height),
    ensures
        t.edits(edits, clear).shaped(height),
    decreases edits.len(),
{
    if edits.len() > 0 {
        let first = edits.drop_last();
        assert(edits_ok(first, height)) by {
            assert forall|i: int| 0 <= i < first.len() implies (#[trigger] first[i]).0.depth <= height
                && !first[i].1.is_parent() by {
                assert(first[i] == edits[i]);
            }
        }
        lemma_edits_shaped(t, height, first, clear);
        let last = edits[edits.len() - 1];
        last.0.lemma_cell_entries();
        if clear {
            lemma_remove_shaped(t.edits(first, clear), height, last.0.cell());
        } else {
            lemma_set_shaped(t.edits(first, clear), height, last.0.cell(), last.1);
        }
    }
}

/// After a list of writes, a smallest cube that is not empty was not empty
/// before, or lies in a cube that was written.
pub proof fn lemma_sets_voxel(t: Tree, height: nat, edits: Seq<(Branch, Node)>, point: Seq<int>)
    requires
        t.shaped(height),
        edits_ok(edits, height),
        cell_ok(point),
        point.len() >= height,
        !t.sets(edits).voxel(point).is_empty(),
    ensures
        !t.voxel(point).is_empty() || reached(edits, point),
    decreases edits.len(),
{
    if edits.len() > 0 {
        let first = edits.drop_last();
        let last = edits[edits.len() - 1];
        assert(edits_ok(first, height)) by {
            assert forall|i: int| 0 <= i < first.len() implies (#[trigger] first[i]).0.depth <= height
                && !first[i].1.is_parent() by {
                assert(first[i] == edits[i]);
            }
        }
        lemma_edits_shaped(t, height, first, false);
        last.0.lemma_cell_entries();
        lemma_set_voxel(t.edits(first, false), height, last.0.cell(), last.1, point);
        if !last.0.cell().is_prefix_of(point) {
            lemma_sets_voxel(t, height, first, point);
            if reached(first, point) {
                let i = choose|i: int|
                    0 <= i < first.len() && (#[trigger] first[i]).0.cell().is_prefix_of(point);
                assert(edits[i] == first[i]);
            }
        }
    }
}

/// After a list of cubes was cleared, a smallest cube that was empty before,
/// or lies in a cube that was cleared, is empty.
pub proof fn lemma_removes_voxel(t: Tree, height: nat, edits: Seq<(Branch, Node)>, point: Seq<int>)
    requires
        t.shaped(height),
        edits_ok(edits, height),
        cell_ok(point),
        point.len() >= height,
        t.voxel(point).is_empty() || reached(edits, point),
    ensures
        t.removes(edits).voxel(point).is_empty(),
    decreases edits.len(),
{
    if edits.len() > 0 {
        let first = edits.drop_last();
        let last = edits[edits.len() - 1];
        assert(edits_ok(first, height)) by {
            assert forall|i: int| 0 <= i < first.len() implies (#[trigger] first[i]).0.depth <= height
                && !first[i].1.is_parent() by {
                assert(first[i] == edits[i]);
            }
        }
        lemma_edits_shaped(t, height, first, true);
        last.0.lemma_cell_entries();
        lemma_remove_voxel(t.edits(first, true), height, last.0.cell(), point);
        if !last.0.cell().is_prefix_of(point) {
            if !t.voxel(point).is_empty() {
                let i = choose|i: int|
                    0 <= i < edits.len() && (#[trigger] edits[i]).0.cell().is_prefix_of(point);
                assert(first[i] == edits[i]);
                assert(reached(first, point));
            }
            lemma_removes_voxel(t, height, first, point);
        }
    }
}

/// Writing a list of leaves into a tree without matter and then clearing the
/// cubes that were written leaves a tree without matter. This is what a
/// union followed by the difference with the same template at the same
/// place comes to.
pub proof fn lemma_union_difference(t: Tree, edits: Seq<(Branch, Node)>)
    requires
        t.shaped(MAX_DEPTH as nat),
        t.is_void(),
        edits_ok(edits, MAX_DEPTH as nat),
    ensures
        t.sets(edits).removes(edits).is_void(),
        t.sets(edits).removes(edits).leaves(Branch::root()) == Seq::<(Branch, Node)>::empty(),
{
    let height = MAX_DEPTH as nat;
    let filled = t.sets(edits);
    let cleared = filled.removes(edits);
    lemma_edits_shaped(t, height, edits, false);
    lemma_edits_shaped(filled, height, edits, true);
    assert forall|p: Seq<int>| cell_ok(p) && p.len() == height implies (#[trigger] cleared.voxel(
        p,
    )).is_empty() by {
        if !filled.voxel(p).is_empty() {
            lemma_void_voxel_at(t, height, p);
            lemma_sets_voxel(t, height, edits, p);
        }
        lemma_removes_voxel(filled, height, edits, p);
    }
    lemma_voxels_void(cleared, height);
    lemma_void_leaves(cleared, Branch::root());
}

/// Every leaf of the list is solid.
pub open spec fn edits_solid(edits: Seq<(Branch, Node)>) -> bool {
    forall|i: int| 0 <= i < edits.len() ==> (#[trigger] edits[i]).1.is_solid()
}

/// Edits with solid leaves keep a tidy tree tidy.
pub proof fn lemma_edits_tidy(t: Tree, height: nat, edits: Seq<(Branch, Node)>, clear: bool)
    requires
        t.shaped(height),
        t.tidy(),
        edits_ok(edits, height),
        edits_solid(edits),
    ensures
        t.edits(edits, clear).tidy(),
    decreases edits.len(),
{
    if edits.len() > 0 {
        let first = edits.drop_last();
        assert(edits_ok(first, height) && edits_solid(first)) by {
            assert forall|i: int| 0 <= i < first.len() implies (#[trigger] first[i]).0.depth <= height
                && !first[i].1.is_parent() && first[i].1.is_solid() by {
                assert(first[i] == edits[i]);
            }
        }
        lemma_edits_shaped(t, height, first, clear);
        lemma_edits_tidy(t, height, first, clear);
        let last = edits[edits.len() - 1];
        last.0.lemma_cell_entries();
        if clear {
            lemma_remove_tidy(t.edits(first, clear), height, last.0.cell());
        } else {
            lemma_set_tidy(t.edits(first, clear), height, last.0.cell(), last.1);
        }
    }
}

/// Writing a list of solid leaves into a tidy tree without matter and then
/// clearing the cubes that were written gives back the one blank leaf.
pub proof fn lemma_union_difference_blank(t: Tree, edits: Seq<(Branch, Node)>)
    requires
        t.shaped(MAX_DEPTH as nat),
        t.is_void(),
        t.tidy(),
        edits_ok(edits, MAX_DEPTH as nat),
        edits_solid(edits),
    ensures
        t.sets(edits).removes(edits) == Tree::Leaf(Node::empty()),
{
    let height = MAX_DEPTH as nat;
    lemma_union_difference(t, edits);
    lemma_edits_shaped(t, height, edits, false);
    lemma_edits_tidy(t, height, edits, false);
    lemma_edits_shaped(t.sets(edits), height, edits, true);
    lemma_edits_tidy(t.sets(edits), height, edits, true);
    lemma_tidy_void(t.sets(edits).removes(edits), height);
}

/// A tree without matter has no leaf to hand out.
pub proof fn lemma_void_leaves(t: Tree, branch: Branch)
    requires
        t.is_void(),
    ensures
        t.leaves(branch) == Seq::<(Branch, Node)>::empty(),
    decreases t, 0int,
{
    match t {
        Tree::Leaf(_) => {},
        Tree::Parent(kids) => {
            lemma_void_leaves_of(kids, branch, 8);
        },
    }
}

/// Children without matter have no leaf to hand out.
pub proof fn lemma_void_leaves_of(kids: Seq<Tree>, branch: Branch, upto: int)
    requires
        forall|k: int| 0 <= k < kids.len() ==> (#[trigger] kids[k]).is_void(),
    ensures
        Tree::leaves_of(kids, branch, upto) == Seq::<(Branch, Node)>::empty(),
    decreases kids, upto,
{
    if upto <= 0 || upto > kids.len() {
    } else {
        lemma_void_leaves(kids[upto - 1], branch.spec_with_child(upto - 1));
        lemma_void_leaves_of(kids, branch, upto - 1);
        assert(Tree::leaves_of(kids, branch, upto) =~= Seq::<(Branch, Node)>::empty());
    }
}

/// What a walk over a tree hands out it found in the tree: a leaf of the
/// walk is not empty, its branch leads through the branch the walk started
/// at, and the tree holds that very leaf where the branch leads.
pub proof fn lemma_leaves_get(t: Tree, height: nat, start: Branch, i: int)
    requires
        t.shaped(height),
        start.in_range(),
        start.depth + height <= MAX_DEPTH,
        0 <= i < t.leaves(start).len(),
    ensures
        !t.leaves(start)[i].1.is_empty(),
        !t.leaves(start)[i].1.is_parent(),
        t.leaves(start)[i].0.in_range(),
        start.depth <= t.leaves(start)[i].0.depth <= start.depth + height,
        t.leaves(start)[i].0.cell().take(start.depth as int) == start.cell(),
        t.get(t.leaves(start)[i].0.cell().skip(start.depth as int)) == Some(t.leaves(start)[i].1),
    decreases t, 0int,
{
    match t {
        Tree::Leaf(n) => {
            assert(start.cell().take(start.depth as int) =~= start.cell());
        },
        Tree::Parent(kids) => {
            lemma_leaves_of_get(t, height, start, 8, i);
        },
    }
}

/// The same of the leaves of the first children of an interior node.
pub proof fn lemma_leaves_of_get(t: Tree, height: nat, start: Branch, upto: int, i: int)
    requires
        t is Parent,
        t.shaped(height),
        start.in_range(),
        start.depth + height <= MAX_DEPTH,
        0 <= upto <= 8,
        0 <= i < Tree::leaves_of(t->Parent_0, start, upto).len(),
    ensures
        !Tree::leaves_of(t->Parent_0, start, upto)[i].1.is_empty(),
        !Tree::leaves_of(t->Parent_0, start, upto)[i].1.is_parent(),
        Tree::leaves_of(t->Parent_0, start, upto)[i].0.in_range(),
        start.depth <= Tree::leaves_of(t->Parent_0, start, upto)[i].0.depth <= start.depth + height,
        Tree::leaves_of(t->Parent_0, start, upto)[i].0.cell().take(start.depth as int)
            == start.cell(),
        t.get(Tree::leaves_of(t->Parent_0, start, upto)[i].0.cell().skip(start.depth as int))
            == Some(Tree::leaves_of(t->Parent_0, start, upto)[i].1),
    decreases t->Parent_0, upto,
{
    let kids = t->Parent_0;
    let k = upto - 1;
    let kid = kids[k];
    let next = start.spec_with_child(k);
    let first = kid.leaves(next);
    if i < first.len() {
        start.lemma_with_child_cell(k);
        lemma_leaves_get(kid, (height - 1) as nat, next, i);
        let leaf = first[i];
        assert(Tree::leaves_of(kids, start, upto)[i] == leaf);
        let cell = leaf.0.cell();
        let depth = start.depth as int;
        assert(cell.take(depth + 1) == start.cell().push(k));
        assert(cell.take(depth) =~= cell.take(depth + 1).take(depth));
        assert(start.cell().push(k).take(depth) =~= start.cell());
        assert(cell.skip(depth)[0] == cell.take(depth + 1)[depth]);
        assert(cell.skip(depth).drop_first() =~= cell.skip(depth + 1));
    } else {
        lemma_leaves_of_get(t, height, start, upto - 1, i - first.len());
        assert(Tree::leaves_of(kids, start, upto)[i] == Tree::leaves_of(kids, start, upto - 1)[i
            - first.len()]);
    }
}

} // verus!
