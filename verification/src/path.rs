//! The steps of an edit, one lemma each: going down a level, writing at the
//! end of the walk, and collapsing a level on the way back up.

use crate::node::Node;
use crate::pool::{
    block_ok, cell_ok, leaf_block, lemma_at_push, lemma_block_differ,
    lemma_lift_remove, lemma_lift_set, lemma_outside_block, lemma_path_kept, lemma_path_parent,
    lemma_path_place, passable, passes,
    lemma_wf_cut, lemma_wf_leaf, lemma_wf_parent_at, lemma_wf_release, levels, on_path, owned,
    same_at, side, sides, subtree, tree_of, unowned, wf_at,
};
use crate::tree::Tree;
use vstd::prelude::*;

verus! {

/// The walk goes one level down, into the child that the cell names.
pub proof fn lemma_step_down(
    nodes: Seq<Node>,
    cell: Seq<int>,
    idx: Seq<int>,
    base: Tree,
    d: int,
    next: int,
)
    requires
        cell_ok(cell),
        d < cell.len(),
        d + 1 < levels(),
        on_path(nodes, cell, idx, d),
        sides(nodes, cell, idx, base, d),
        nodes[idx[d]].is_parent(),
        block_ok(nodes.len() as int, nodes[idx[d]].data as int),
        next == nodes[idx[d]].data + cell[d],
        subtree(nodes, idx[d], (levels() - d) as nat) == Tree::Parent(
            base.at(cell.take(d)).kids(),
        ),
    ensures
        on_path(nodes, cell, idx.push(next), d + 1),
        sides(nodes, cell, idx.push(next), base, d + 1),
        subtree(nodes, next, (levels() - (d + 1)) as nat) == base.at(cell.take(d + 1)),
{
    let longer = idx.push(next);
    let b = base.at(cell.take(d));
    let q = nodes[idx[d]].data as int;
    let here = subtree(nodes, idx[d], (levels() - d) as nat);
    assert forall|k: int| 0 <= k < 8 implies #[trigger] b.kids()[k] == subtree(
        nodes,
        q + k,
        (levels() - 1 - d) as nat,
    ) by {
        assert(here->Parent_0[k] == subtree(nodes, q + k, (levels() - 1 - d) as nat));
    }
    lemma_at_push(base, cell.take(d), cell[d]);
    assert(cell.take(d).push(cell[d]) =~= cell.take(d + 1));
    assert forall|j: int, k: int|
        0 <= j < d + 1 && 0 <= k < 8 && k != cell[j] implies #[trigger] side(nodes, longer, j, k)
        == base.at(cell.take(j)).kids()[k] by {
        if j < d {
            assert(side(nodes, idx, j, k) == side(nodes, longer, j, k));
        } else {
            assert(b.kids()[k] == subtree(nodes, q + k, (levels() - 1 - d) as nat));
        }
    }
    assert forall|j: int| 0 <= j < d + 1 implies nodes[#[trigger] longer[j]].is_parent() && longer[j
        + 1] == nodes[longer[j]].data + cell[j] by {
        if j < d {
            assert(longer[j] == idx[j]);
            assert(longer[j + 1] == idx[j + 1]);
        }
    }
    assert forall|j: int| 0 <= j <= d + 1 implies 0 <= #[trigger] longer[j] < nodes.len() by {
        if j <= d {
            assert(longer[j] == idx[j]);
        }
    }
}

/// Writing a leaf at the end of the walk keeps the pool well formed and the
/// walk and what hangs beside it as they were.
pub proof fn lemma_write_end(
    nodes: Seq<Node>,
    free: Seq<u32>,
    place: Seq<Seq<int>>,
    cell: Seq<int>,
    idx: Seq<int>,
    base: Tree,
    d: int,
    node: Node,
)
    requires
        wf_at(nodes, free, place),
        cell_ok(cell),
        on_path(nodes, cell, idx, d),
        sides(nodes, cell, idx, base, d),
        !node.is_parent(),
    ensures
        wf_at(nodes.update(idx[d], node), free, place),
        on_path(nodes.update(idx[d], node), cell, idx, d),
        sides(nodes.update(idx[d], node), cell, idx, base, d),
{
    let after = nodes.update(idx[d], node);
    lemma_wf_leaf(nodes, free, place, idx[d], node);
    assert forall|w: int| 0 <= w < nodes.len() && !#[trigger] same_at(nodes, after, w) implies w
        == idx[d] || (w != 0 && !owned(nodes, w)) by {}
    lemma_path_kept(nodes, free, place, after, cell, idx, base, d);
}

/// The walk without its last step.
pub proof fn lemma_path_shorter(nodes: Seq<Node>, cell: Seq<int>, idx: Seq<int>, base: Tree, d: int)
    requires
        0 < d,
        on_path(nodes, cell, idx, d),
        sides(nodes, cell, idx, base, d),
    ensures
        on_path(nodes, cell, idx.take(d), d - 1),
        sides(nodes, cell, idx.take(d), base, d - 1),
{
    let shorter = idx.take(d);
    assert forall|j: int, k: int|
        0 <= j < d - 1 && 0 <= k < 8 && k != cell[j] implies #[trigger] side(nodes, shorter, j, k)
        == base.at(cell.take(j)).kids()[k] by {
        assert(side(nodes, idx, j, k) == side(nodes, shorter, j, k));
    }
    assert forall|j: int| 0 <= j < d - 1 implies nodes[#[trigger] shorter[j]].is_parent()
        && shorter[j + 1] == nodes[shorter[j]].data + cell[j] by {
        assert(shorter[j] == idx[j]);
    }
    assert forall|j: int| 0 <= j <= d - 1 implies 0 <= #[trigger] shorter[j] < nodes.len() by {
        assert(shorter[j] == idx[j]);
    }
}

/// The eight nodes from `q` on are all `node`.
pub open spec fn block_is(nodes: Seq<Node>, q: int, node: Node) -> bool {
    forall|j: int| q <= j < q + 8 ==> #[trigger] nodes[j] == node
}

/// On the way back up, a level whose eight nodes are not all the written
/// leaf ends the collapsing: the pool holds what the write asks for.
pub proof fn lemma_no_collapse(
    nodes: Seq<Node>,
    cell: Seq<int>,
    idx: Seq<int>,
    base: Tree,
    d: int,
    node: Node,
)
    requires
        cell_ok(cell),
        0 < d < levels(),
        on_path(nodes, cell, idx, d),
        sides(nodes, cell, idx, base, d),
        base.shaped(levels()),
        !node.is_parent(),
        nodes[idx[d]] == node,
        base.at(cell.take(d)).set(cell.skip(d), node) == Tree::Leaf(node),
        !block_is(nodes, nodes[idx[d - 1]].data as int, node),
    ensures
        tree_of(nodes) == base.set(cell, node),
{
    lemma_path_parent(nodes, cell, idx, base, d);
    let j = d - 1;
    let q = nodes[idx[j]].data as int;
    let b = base.at(cell.take(j));
    let below = subtree(nodes, idx[d], (levels() - d) as nat);
    assert(below == Tree::Leaf(node));
    let kids = b.kids().update(cell[j], below);
    let w = choose|w: int| q <= w < q + 8 && nodes[w] != node;
    let k = w - q;
    assert(k != cell[j]);
    assert(side(nodes, idx, j, k) == b.kids()[k]);
    assert(kids[k] != Tree::Leaf(node));
    assert(!Tree::all_leaves(kids, node));
    assert(b.set(cell.skip(j), node) == Tree::Parent(kids));
    lemma_lift_set(nodes, cell, idx.take(d), base, j, node);
}

/// On the way back up, a level whose eight nodes are all the written leaf
/// collapses: its parent takes the leaf, and the block is left to be freed.
pub proof fn lemma_collapse_write(
    nodes: Seq<Node>,
    free: Seq<u32>,
    place: Seq<Seq<int>>,
    cell: Seq<int>,
    idx: Seq<int>,
    base: Tree,
    d: int,
    node: Node,
)
    requires
        wf_at(nodes, free, place),
        cell_ok(cell),
        0 < d < levels(),
        on_path(nodes, cell, idx, d),
        sides(nodes, cell, idx, base, d),
        base.shaped(levels()),
        !node.is_parent(),
        base.at(cell.take(d)).set(cell.skip(d), node) == Tree::Leaf(node),
        block_is(nodes, nodes[idx[d - 1]].data as int, node),
    ensures
        wf_at(nodes.update(idx[d - 1], node), free, place),
        on_path(nodes.update(idx[d - 1], node), cell, idx.take(d), d - 1),
        sides(nodes.update(idx[d - 1], node), cell, idx.take(d), base, d - 1),
        base.at(cell.take(d - 1)).set(cell.skip(d - 1), node) == Tree::Leaf(node),
        block_ok(nodes.len() as int, nodes[idx[d - 1]].data as int),
        unowned(nodes.update(idx[d - 1], node), nodes[idx[d - 1]].data as int),
        leaf_block(nodes.update(idx[d - 1], node), nodes[idx[d - 1]].data as int),
        forall|a: int| 0 <= a < free.len() ==> #[trigger] free[a] != nodes[idx[d - 1]].data,
        !(nodes[idx[d - 1]].data <= idx[d - 1] < nodes[idx[d - 1]].data + 8),
{
    lemma_path_parent(nodes, cell, idx, base, d);
    let j = d - 1;
    let up = idx[j];
    let q = nodes[up].data as int;
    let b = base.at(cell.take(j));
    let below = subtree(nodes, idx[d], (levels() - d) as nat);
    assert(nodes[idx[d]] == node);
    assert(below == Tree::Leaf(node));
    let kids = b.kids().update(cell[j], below);
    assert forall|k: int| 0 <= k < 8 implies #[trigger] kids[k] == Tree::Leaf(node) by {
        if k != cell[j] {
            assert(side(nodes, idx, j, k) == b.kids()[k]);
            assert(nodes[q + k] == node);
        }
    }
    assert(Tree::all_leaves(kids, node));
    lemma_path_shorter(nodes, cell, idx, base, d);
    lemma_write_end(nodes, free, place, cell, idx.take(d), base, j, node);
    lemma_wf_parent_at(nodes, free, place, up);
    let after = nodes.update(up, node);
    assert(unowned(after, q));
    assert(leaf_block(after, q));
    lemma_path_place(nodes, free, place, cell, idx, d, j);
}

/// Giving back a block that nothing points at keeps the pool well formed and
/// the walk and what hangs beside it as they were.
pub proof fn lemma_collapse_free(
    nodes: Seq<Node>,
    free: Seq<u32>,
    place: Seq<Seq<int>>,
    after: Seq<Node>,
    free_after: Seq<u32>,
    q: u32,
    cell: Seq<int>,
    idx: Seq<int>,
    base: Tree,
    d: int,
)
    requires
        wf_at(nodes, free, place),
        cell_ok(cell),
        on_path(nodes, cell, idx, d),
        sides(nodes, cell, idx, base, d),
        block_ok(nodes.len() as int, q as int),
        unowned(nodes, q as int),
        leaf_block(nodes, q as int),
        forall|a: int| 0 <= a < free.len() ==> #[trigger] free[a] != q,
        q + 8 == nodes.len() ==> after == nodes.take(q as int) && free_after == free,
        q + 8 != nodes.len() ==> after == nodes && free_after == free.push(q),
    ensures
        wf_at(after, free_after, released_place(place, q as int, q + 8 == nodes.len())),
        on_path(after, cell, idx, d),
        sides(after, cell, idx, base, d),
{
    lemma_path_place(nodes, free, place, cell, idx, d, d);
    lemma_outside_block(nodes, free, place, q as int, idx[d]);
    if q + 8 == nodes.len() {
        lemma_wf_cut(nodes, free, place, q);
    } else {
        lemma_wf_release(nodes, free, place, q);
    }
    lemma_block_differ(nodes, free, place, after, q as int, idx[d]);
    lemma_path_kept(nodes, free, place, after, cell, idx, base, d);
}

/// The placing after a block was given back: cut short with the pool, or as
/// it was.
pub open spec fn released_place(place: Seq<Seq<int>>, q: int, cut: bool) -> Seq<Seq<int>> {
    if cut {
        place.take(q)
    } else {
        place
    }
}

/// The eight nodes from `q` on are all empty.
pub open spec fn block_empty(nodes: Seq<Node>, q: int) -> bool {
    forall|j: int| q <= j < q + 8 ==> (#[trigger] nodes[j]).is_empty()
}

/// The children of an interior node are all empty leaves exactly when the
/// eight nodes of its block are empty.
pub proof fn lemma_kids_empty(nodes: Seq<Node>, at: int, fuel: nat)
    requires
        fuel >= 1,
        nodes[at].is_parent(),
    ensures
        subtree(nodes, at, fuel) is Parent,
        Tree::all_empty(subtree(nodes, at, fuel)->Parent_0) <==> block_empty(
            nodes,
            nodes[at].data as int,
        ),
        block_empty(nodes, nodes[at].data as int) ==> leaf_block(nodes, nodes[at].data as int),
{
    let q = nodes[at].data as int;
    let kids = subtree(nodes, at, fuel)->Parent_0;
    assert forall|k: int| 0 <= k < 8 implies ((#[trigger] kids[k]) is Leaf
        && kids[k]->Leaf_0.is_empty()) == nodes[q + k].is_empty() by {
        nodes[q + k].lemma_empty_iff();
        assert(kids[k] == subtree(nodes, q + k, (fuel - 1) as nat));
    }
    if block_empty(nodes, q) {
        assert forall|k: int| 0 <= k < 8 implies (#[trigger] kids[k]) is Leaf
            && kids[k]->Leaf_0.is_empty() by {
            assert(nodes[q + k].is_empty());
        }
        assert forall|j: int| q <= j < q + 8 implies !(#[trigger] nodes[j]).is_parent() by {
            nodes[j].lemma_empty_iff();
        }
    }
    if Tree::all_empty(kids) {
        assert forall|j: int| q <= j < q + 8 implies (#[trigger] nodes[j]).is_empty() by {
            assert(kids[j - q] is Leaf);
        }
    }
}

/// Writing a leaf over an interior node at the end of the walk, when its
/// block holds leaves only, leaves the block to be given back.
pub proof fn lemma_drop_block(
    nodes: Seq<Node>,
    free: Seq<u32>,
    place: Seq<Seq<int>>,
    cell: Seq<int>,
    idx: Seq<int>,
    base: Tree,
    d: int,
    leaf: Node,
)
    requires
        wf_at(nodes, free, place),
        cell_ok(cell),
        on_path(nodes, cell, idx, d),
        sides(nodes, cell, idx, base, d),
        nodes[idx[d]].is_parent(),
        leaf_block(nodes, nodes[idx[d]].data as int),
        !leaf.is_parent(),
    ensures
        wf_at(nodes.update(idx[d], leaf), free, place),
        on_path(nodes.update(idx[d], leaf), cell, idx, d),
        sides(nodes.update(idx[d], leaf), cell, idx, base, d),
        block_ok(nodes.len() as int, nodes[idx[d]].data as int),
        unowned(nodes.update(idx[d], leaf), nodes[idx[d]].data as int),
        leaf_block(nodes.update(idx[d], leaf), nodes[idx[d]].data as int),
        forall|a: int| 0 <= a < free.len() ==> #[trigger] free[a] != nodes[idx[d]].data,
{
    let up = idx[d];
    let q = nodes[up].data as int;
    lemma_write_end(nodes, free, place, cell, idx, base, d, leaf);
    lemma_wf_parent_at(nodes, free, place, up);
    let after = nodes.update(up, leaf);
    assert(unowned(after, q));
    assert(leaf_block(after, q));
}

/// What the tree holds where a walk ends: the leaf at the end of the walk,
/// or nothing short of a subdivided cube where the walk ends at an interior
/// node.
pub proof fn lemma_path_get(nodes: Seq<Node>, cell: Seq<int>, idx: Seq<int>, d: int, j: int)
    requires
        cell_ok(cell),
        d == cell.len(),
        d < levels(),
        on_path(nodes, cell, idx, d),
        0 <= j <= d,
    ensures
        subtree(nodes, idx[j], (levels() - j) as nat).get(cell.skip(j)) == (if nodes[idx[d]].is_parent() {
            None
        } else {
            Some(nodes[idx[d]])
        }),
    decreases d - j,
{
    if j < d {
        lemma_path_get(nodes, cell, idx, d, j + 1);
        assert(cell.skip(j).drop_first() =~= cell.skip(j + 1));
        assert(cell.skip(j)[0] == cell[j]);
        assert(nodes[idx[j]].is_parent());
        let here = subtree(nodes, idx[j], (levels() - j) as nat);
        assert(here->Parent_0[cell[j]] == subtree(nodes, idx[j + 1], (levels() - j - 1) as nat));
    } else {
        assert(cell.skip(d) =~= Seq::<int>::empty());
    }
}

/// On the way back up of a removal, a level whose eight nodes are not all
/// empty ends the collapsing: the pool holds what the removal asks for.
pub proof fn lemma_remove_stays(nodes: Seq<Node>, cell: Seq<int>, idx: Seq<int>, base: Tree, d: int)
    requires
        cell_ok(cell),
        0 < d < levels(),
        on_path(nodes, cell, idx, d),
        sides(nodes, cell, idx, base, d),
        passes(base, cell, d),
        base.shaped(levels()),
        nodes[idx[d]].is_empty(),
        base.at(cell.take(d)).remove(cell.skip(d)) == Tree::Leaf(nodes[idx[d]]),
        !block_empty(nodes, nodes[idx[d - 1]].data as int),
    ensures
        tree_of(nodes) == base.remove(cell),
{
    lemma_path_parent(nodes, cell, idx, base, d);
    nodes[idx[d]].lemma_empty_iff();
    let j = d - 1;
    let b = base.at(cell.take(j));
    let below = subtree(nodes, idx[d], (levels() - d) as nat);
    assert(below == Tree::Leaf(nodes[idx[d]]));
    let kids = b.kids().update(cell[j], below);
    lemma_kids_empty(nodes, idx[j], (levels() - j) as nat);
    assert(!Tree::all_empty(kids));
    assert(passable(b));
    assert(b.remove(cell.skip(j)) == Tree::Parent(kids));
    assert(passes(base, cell, j));
    lemma_lift_remove(nodes, cell, idx.take(d), base, j);
}

/// On the way back up of a removal, a level whose eight nodes are all empty
/// collapses: its parent becomes a blank leaf, and the block is left to be
/// freed.
pub proof fn lemma_remove_collapse(
    nodes: Seq<Node>,
    free: Seq<u32>,
    place: Seq<Seq<int>>,
    cell: Seq<int>,
    idx: Seq<int>,
    base: Tree,
    d: int,
)
    requires
        wf_at(nodes, free, place),
        cell_ok(cell),
        0 < d < levels(),
        on_path(nodes, cell, idx, d),
        sides(nodes, cell, idx, base, d),
        passes(base, cell, d),
        base.shaped(levels()),
        nodes[idx[d]].is_empty(),
        base.at(cell.take(d)).remove(cell.skip(d)) == Tree::Leaf(nodes[idx[d]]),
        block_empty(nodes, nodes[idx[d - 1]].data as int),
    ensures
        wf_at(nodes.update(idx[d - 1], Node::empty()), free, place),
        on_path(nodes.update(idx[d - 1], Node::empty()), cell, idx.take(d), d - 1),
        sides(nodes.update(idx[d - 1], Node::empty()), cell, idx.take(d), base, d - 1),
        passes(base, cell, d - 1),
        base.at(cell.take(d - 1)).remove(cell.skip(d - 1)) == Tree::Leaf(Node::empty()),
        block_ok(nodes.len() as int, nodes[idx[d - 1]].data as int),
        unowned(nodes.update(idx[d - 1], Node::empty()), nodes[idx[d - 1]].data as int),
        leaf_block(nodes.update(idx[d - 1], Node::empty()), nodes[idx[d - 1]].data as int),
        forall|a: int| 0 <= a < free.len() ==> #[trigger] free[a] != nodes[idx[d - 1]].data,
{
    Node::lemma_flags();
    lemma_path_parent(nodes, cell, idx, base, d);
    nodes[idx[d]].lemma_empty_iff();
    let j = d - 1;
    let b = base.at(cell.take(j));
    let below = subtree(nodes, idx[d], (levels() - d) as nat);
    assert(below == Tree::Leaf(nodes[idx[d]]));
    let kids = b.kids().update(cell[j], below);
    lemma_kids_empty(nodes, idx[j], (levels() - j) as nat);
    assert(Tree::all_empty(kids));
    assert(passable(b));
    assert(b.remove(cell.skip(j)) == Tree::Leaf(Node::empty()));
    assert(passes(base, cell, j));
    lemma_path_shorter(nodes, cell, idx, base, d);
    let shorter = idx.take(d);
    assert(shorter[j] == idx[j]);
    lemma_drop_block(nodes, free, place, cell, shorter, base, j, Node::empty());
}

} // verus!
