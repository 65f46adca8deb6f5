//! Where the edits put the nodes: what writing a leaf and clearing a cube
//! make of the pool itself, block by block.

use crate::branch::Branch;
use crate::node::Node;
use crate::path::{block_empty, block_is};
use crate::pool::{blanked, cell_ok, grown, lemma_wf_parent, on_path, wf};
use crate::tree::Tree;
use vstd::prelude::*;

verus! {

/// The pool after a block was taken, and the block: the block that was freed
/// last, blanked, or a blank block added at the end.
pub open spec fn pool_take(nodes: Seq<Node>, free: Seq<u32>) -> (Seq<Node>, Seq<u32>, int) {
    if free.len() > 0 {
        (blanked(nodes, free.last() as int), free.drop_last(), free.last() as int)
    } else {
        (grown(nodes), free, nodes.len() as int)
    }
}

/// The pool after the block at `q` was given back: cut off if it was the
/// last of the pool, put on the free list if not.
pub open spec fn pool_give(nodes: Seq<Node>, free: Seq<u32>, q: int) -> (Seq<Node>, Seq<u32>) {
    if q + 8 == nodes.len() {
        (nodes.take(q), free)
    } else {
        (nodes, free.push(q as u32))
    }
}

/// The pool with the eight nodes from `q` on set to `node`.
pub open spec fn filled(nodes: Seq<Node>, q: int, node: Node) -> Seq<Node> {
    Seq::new(nodes.len(), |j: int| if q <= j < q + 8 { node } else { nodes[j] })
}

/// The pool after the leaf at `at` was split: a block is taken, its nodes
/// hold what the leaf hands down, and the leaf has become their parent.
pub open spec fn pool_split(nodes: Seq<Node>, free: Seq<u32>, at: int) -> (Seq<Node>, Seq<u32>) {
    let taken = pool_take(nodes, free);
    (
        filled(taken.0, taken.2, Tree::split_leaf(nodes[at])).update(at, Node::parent(taken.2 as u32)),
        taken.1,
    )
}

/// The pool after the walk back up of a write: from the last node of
/// `stack` upward, every node whose block holds `node` eight times takes
/// the leaf and gives the block back, up to the first that does not.
pub open spec fn pool_set_up(nodes: Seq<Node>, free: Seq<u32>, stack: Seq<int>, node: Node) -> (
    Seq<Node>,
    Seq<u32>,
)
    decreases stack.len(),
{
    if stack.len() == 0 {
        (nodes, free)
    } else {
        let up = stack.last();
        let q = nodes[up].data as int;
        if block_is(nodes, q, node) {
            let given = pool_give(nodes.update(up, node), free, q);
            pool_set_up(given.0, given.1, stack.drop_last(), node)
        } else {
            (nodes, free)
        }
    }
}

/// The pool after a write that has come to the node at `at` with `cell`
/// still to go and `stack` behind it: leaves on the way are split, the leaf
/// is written at the end, and the walk goes back up.
pub open spec fn pool_set_down(
    nodes: Seq<Node>,
    free: Seq<u32>,
    at: int,
    cell: Seq<int>,
    stack: Seq<int>,
    node: Node,
) -> (Seq<Node>, Seq<u32>)
    decreases cell.len(),
{
    if cell.len() == 0 {
        pool_set_up(nodes.update(at, node), free, stack, node)
    } else {
        let split = if nodes[at].is_parent() {
            (nodes, free)
        } else {
            pool_split(nodes, free, at)
        };
        pool_set_down(
            split.0,
            split.1,
            split.0[at].data as int + cell[0],
            cell.drop_first(),
            stack.push(at),
            node,
        )
    }
}

/// The pool after `node` was written at `cell`: its nodes and its free list.
pub open spec fn pool_set(nodes: Seq<Node>, free: Seq<u32>, cell: Seq<int>, node: Node) -> (
    Seq<Node>,
    Seq<u32>,
) {
    pool_set_down(nodes, free, 0, cell, Seq::empty(), node)
}

/// The pool after the walk back up of a removal: from the last node of
/// `stack` upward, every node whose block is all empty becomes a blank leaf
/// and gives the block back, up to the first that does not.
pub open spec fn pool_remove_up(nodes: Seq<Node>, free: Seq<u32>, stack: Seq<int>) -> (
    Seq<Node>,
    Seq<u32>,
)
    decreases stack.len(),
{
    if stack.len() == 0 {
        (nodes, free)
    } else {
        let up = stack.last();
        let q = nodes[up].data as int;
        if block_empty(nodes, q) {
            let given = pool_give(nodes.update(up, Node::empty()), free, q);
            pool_remove_up(given.0, given.1, stack.drop_last())
        } else {
            (nodes, free)
        }
    }
}

/// The pool after a removal that has come to the node at `at` with `cell`
/// still to go and `stack` behind it.
pub open spec fn pool_remove_down(
    nodes: Seq<Node>,
    free: Seq<u32>,
    at: int,
    cell: Seq<int>,
    stack: Seq<int>,
) -> (Seq<Node>, Seq<u32>)
    decreases cell.len(),
{
    if cell.len() == 0 {
        pool_remove_up(nodes.update(at, Node::empty()), free, stack)
    } else if nodes[at].is_empty() {
        pool_remove_up(nodes, free, stack)
    } else if !nodes[at].is_solid() && block_empty(nodes, nodes[at].data as int) {
        let given = pool_give(nodes.update(at, Node::empty()), free, nodes[at].data as int);
        pool_remove_up(given.0, given.1, stack)
    } else {
        let split = if nodes[at].is_solid() {
            pool_split(nodes, free, at)
        } else {
            (nodes, free)
        };
        pool_remove_down(
            split.0,
            split.1,
            split.0[at].data as int + cell[0],
            cell.drop_first(),
            stack.push(at),
        )
    }
}

/// The pool after the cube at `cell` was cleared: its nodes and its free
/// list.
pub open spec fn pool_remove(nodes: Seq<Node>, free: Seq<u32>, cell: Seq<int>) -> (
    Seq<Node>,
    Seq<u32>,
) {
    pool_remove_down(nodes, free, 0, cell, Seq::empty())
}

/// The pool after the edits were made one after the other: each leaf
/// written at its branch, or each cube cleared.
pub open spec fn pool_edits(nodes: Seq<Node>, free: Seq<u32>, edits: Seq<(Branch, Node)>, clear: bool) -> (
    Seq<Node>,
    Seq<u32>,
)
    decreases edits.len(),
{
    if edits.len() == 0 {
        (nodes, free)
    } else {
        let before = pool_edits(nodes, free, edits.drop_last(), clear);
        if clear {
            pool_remove(before.0, before.1, edits.last().0.cell())
        } else {
            pool_set(before.0, before.1, edits.last().0.cell(), edits.last().1)
        }
    }
}

/// One step down of a write.
pub proof fn lemma_set_down_step(
    nodes: Seq<Node>,
    free: Seq<u32>,
    cell: Seq<int>,
    idx: Seq<int>,
    d: int,
    node: Node,
    after: Seq<Node>,
    free_after: Seq<u32>,
    next: int,
)
    requires
        0 <= d < cell.len(),
        idx.len() == d + 1,
        nodes[idx[d]].is_parent() ==> after == nodes && free_after == free,
        !nodes[idx[d]].is_parent() ==> after == pool_split(nodes, free, idx[d]).0 && free_after
            == pool_split(nodes, free, idx[d]).1,
        next == after[idx[d]].data + cell[d],
    ensures
        pool_set_down(nodes, free, idx[d], cell.skip(d), idx.take(d), node) == pool_set_down(
            after,
            free_after,
            next,
            cell.skip(d + 1),
            idx.push(next).take(d + 1),
            node,
        ),
{
    assert(cell.skip(d).drop_first() =~= cell.skip(d + 1));
    assert(idx.take(d).push(idx[d]) =~= idx.push(next).take(d + 1));
    assert(cell.skip(d)[0] == cell[d]);
}

/// One step down of a removal.
pub proof fn lemma_remove_down_step(
    nodes: Seq<Node>,
    free: Seq<u32>,
    cell: Seq<int>,
    idx: Seq<int>,
    d: int,
    after: Seq<Node>,
    free_after: Seq<u32>,
    next: int,
)
    requires
        0 <= d < cell.len(),
        idx.len() == d + 1,
        !nodes[idx[d]].is_empty(),
        nodes[idx[d]].is_solid() || !block_empty(nodes, nodes[idx[d]].data as int),
        !nodes[idx[d]].is_solid() ==> after == nodes && free_after == free,
        nodes[idx[d]].is_solid() ==> after == pool_split(nodes, free, idx[d]).0 && free_after
            == pool_split(nodes, free, idx[d]).1,
        next == after[idx[d]].data + cell[d],
    ensures
        pool_remove_down(nodes, free, idx[d], cell.skip(d), idx.take(d)) == pool_remove_down(
            after,
            free_after,
            next,
            cell.skip(d + 1),
            idx.push(next).take(d + 1),
        ),
{
    assert(cell.skip(d).drop_first() =~= cell.skip(d + 1));
    assert(idx.take(d).push(idx[d]) =~= idx.push(next).take(d + 1));
    assert(cell.skip(d)[0] == cell[d]);
}

/// One step back up of a write that collapses a level.
pub proof fn lemma_set_up_step(
    nodes: Seq<Node>,
    free: Seq<u32>,
    idx: Seq<int>,
    level: int,
    node: Node,
    after: Seq<Node>,
    free_after: Seq<u32>,
)
    requires
        0 < level,
        idx.len() == level + 1,
        block_is(nodes, nodes[idx[level - 1]].data as int, node),
        after == pool_give(nodes.update(idx[level - 1], node), free, nodes[idx[level - 1]].data as int).0,
        free_after == pool_give(
            nodes.update(idx[level - 1], node),
            free,
            nodes[idx[level - 1]].data as int,
        ).1,
    ensures
        pool_set_up(nodes, free, idx.take(level), node) == pool_set_up(
            after,
            free_after,
            idx.take(level).take(level - 1),
            node,
        ),
{
    assert(idx.take(level).drop_last() =~= idx.take(level).take(level - 1));
    assert(idx.take(level).last() == idx[level - 1]);
}

/// One step back up of a removal that collapses a level.
pub proof fn lemma_remove_up_step(
    nodes: Seq<Node>,
    free: Seq<u32>,
    idx: Seq<int>,
    level: int,
    after: Seq<Node>,
    free_after: Seq<u32>,
)
    requires
        0 < level,
        idx.len() == level + 1,
        block_empty(nodes, nodes[idx[level - 1]].data as int),
        after == pool_give(
            nodes.update(idx[level - 1], Node::empty()),
            free,
            nodes[idx[level - 1]].data as int,
        ).0,
        free_after == pool_give(
            nodes.update(idx[level - 1], Node::empty()),
            free,
            nodes[idx[level - 1]].data as int,
        ).1,
    ensures
        pool_remove_up(nodes, free, idx.take(level)) == pool_remove_up(
            after,
            free_after,
            idx.take(level).take(level - 1),
        ),
{
    assert(idx.take(level).drop_last() =~= idx.take(level).take(level - 1));
    assert(idx.take(level).last() == idx[level - 1]);
}

/// The walk back up ends at a level that does not collapse, and at the root.
pub proof fn lemma_up_stop(nodes: Seq<Node>, free: Seq<u32>, idx: Seq<int>, level: int, node: Node)
    requires
        0 <= level,
        idx.len() == level + 1,
    ensures
        level == 0 || !block_is(nodes, nodes[idx[level - 1]].data as int, node) ==> pool_set_up(
            nodes,
            free,
            idx.take(level),
            node,
        ) == (nodes, free),
        level == 0 || !block_empty(nodes, nodes[idx[level - 1]].data as int) ==> pool_remove_up(
            nodes,
            free,
            idx.take(level),
        ) == (nodes, free),
{
    if level > 0 {
        assert(idx.take(level).last() == idx[level - 1]);
    }
}

/// The leaf `node` stands `d` levels down the way along `cell`, which `idx`
/// lists, and the block it stands in does not hold it eight times.
pub open spec fn rests(nodes: Seq<Node>, cell: Seq<int>, idx: Seq<int>, d: int, node: Node) -> bool {
    &&& on_path(nodes, cell, idx, d)
    &&& nodes[idx[d]] == node
    &&& d > 0 ==> !block_is(nodes, nodes[idx[d - 1]].data as int, node)
}

/// The leaf `node` covers the cube at `cell` and has taken in every level
/// that it could: it stands on the way down `cell`, and the block it stands
/// in does not hold it eight times.
pub open spec fn settled(nodes: Seq<Node>, cell: Seq<int>, node: Node) -> bool {
    exists|idx: Seq<int>, d: int| rests(nodes, cell, idx, d, node)
}

/// The leaf `node` has settled at `cell`, and the record of writes covers
/// the place where it stands.
pub open spec fn recorded(nodes: Seq<Node>, dirty: Set<int>, cell: Seq<int>, node: Node) -> bool {
    exists|idx: Seq<int>, d: int| rests(nodes, cell, idx, d, node) && dirty.contains(idx[d])
}

/// An empty leaf stands `d` levels down the way along `cell`, which `idx`
/// lists: the blank leaf if it stands at the end of the way, and not in a
/// block of eight empty nodes.
pub open spec fn rests_blank(nodes: Seq<Node>, cell: Seq<int>, idx: Seq<int>, d: int) -> bool {
    &&& on_path(nodes, cell, idx, d)
    &&& nodes[idx[d]].is_empty()
    &&& d == cell.len() ==> nodes[idx[d]] == Node::empty()
    &&& d > 0 ==> !block_empty(nodes, nodes[idx[d - 1]].data as int)
}

/// An empty leaf covers the cube at `cell`, and no level above it is left
/// with eight empty nodes.
pub open spec fn cleared(nodes: Seq<Node>, cell: Seq<int>) -> bool {
    exists|idx: Seq<int>, d: int| rests_blank(nodes, cell, idx, d)
}

/// The rest of a write, from level `j` of the way on, of a leaf that stands
/// at the end of the way already.
proof fn lemma_set_again_from(
    nodes: Seq<Node>,
    free: Seq<u32>,
    cell: Seq<int>,
    idx: Seq<int>,
    node: Node,
    j: int,
)
    requires
        rests(nodes, cell, idx, cell.len() as int, node),
        0 <= j <= cell.len(),
    ensures
        pool_set_down(nodes, free, idx[j], cell.skip(j), idx.take(j), node) == (nodes, free),
    decreases cell.len() - j,
{
    if j == cell.len() {
        assert(nodes.update(idx[j], node) =~= nodes);
        assert(idx.take(j).take(j) =~= idx.take(j));
        lemma_up_stop(nodes, free, idx, j, node);
    } else {
        lemma_set_again_from(nodes, free, cell, idx, node, j + 1);
        assert(nodes[idx[j]].is_parent());
        assert(cell.skip(j)[0] == cell[j]);
        assert(cell.skip(j).drop_first() =~= cell.skip(j + 1));
        assert(idx.take(j).push(idx[j]) =~= idx.take(j + 1));
    }
}

/// Writing a leaf again where it stands, at the depth of its cell, changes
/// nothing in the pool: no node and no entry of the free list.
pub proof fn lemma_set_again(nodes: Seq<Node>, free: Seq<u32>, cell: Seq<int>, idx: Seq<int>, node: Node)
    requires
        rests(nodes, cell, idx, cell.len() as int, node),
    ensures
        pool_set(nodes, free, cell, node) == (nodes, free),
{
    lemma_set_again_from(nodes, free, cell, idx, node, 0);
    assert(cell.skip(0) =~= cell);
    assert(idx.take(0) =~= Seq::<int>::empty());
}

/// The rest of a removal, from level `j` of the way on, in a pool where the
/// cube is cleared already.
proof fn lemma_remove_again_from(
    nodes: Seq<Node>,
    free: Seq<u32>,
    cell: Seq<int>,
    idx: Seq<int>,
    d: int,
    j: int,
)
    requires
        wf(nodes, free),
        cell_ok(cell),
        rests_blank(nodes, cell, idx, d),
        0 <= j <= d,
    ensures
        pool_remove_down(nodes, free, idx[j], cell.skip(j), idx.take(j)) == (nodes, free),
    decreases d - j,
{
    if j == d {
        assert(idx.take(j).take(j) =~= idx.take(j));
        lemma_up_stop(nodes, free, idx, j, Node::empty());
        if d == cell.len() {
            assert(nodes.update(idx[j], Node::empty()) =~= nodes);
        }
    } else {
        lemma_remove_again_from(nodes, free, cell, idx, d, j + 1);
        let q = nodes[idx[j]].data as int;
        assert(nodes[idx[j]].is_parent());
        nodes[idx[j]].lemma_empty_iff();
        lemma_wf_parent(nodes, free, idx[j]);
        if j + 1 < d {
            assert(nodes[idx[j + 1]].is_parent());
            nodes[idx[j + 1]].lemma_empty_iff();
            assert(idx[j + 1] == q + cell[j]);
        }
        assert(!block_empty(nodes, q));
        assert(cell.skip(j)[0] == cell[j]);
        assert(cell.skip(j).drop_first() =~= cell.skip(j + 1));
        assert(idx.take(j).push(idx[j]) =~= idx.take(j + 1));
    }
}

/// Clearing a cube again changes nothing in the pool: no node and no entry
/// of the free list.
pub proof fn lemma_remove_again(nodes: Seq<Node>, free: Seq<u32>, cell: Seq<int>)
    requires
        wf(nodes, free),
        cell_ok(cell),
        cleared(nodes, cell),
    ensures
        pool_remove(nodes, free, cell) == (nodes, free),
{
    let (idx, d) = choose|idx: Seq<int>, d: int| rests_blank(nodes, cell, idx, d);
    lemma_remove_again_from(nodes, free, cell, idx, d, 0);
    assert(cell.skip(0) =~= cell);
    assert(idx.take(0) =~= Seq::<int>::empty());
}

} // verus!
