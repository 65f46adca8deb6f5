//! One write into a new pool, and the removal that undoes it: the write
//! lays a chain of blocks, one to each level, and the removal gives them all
//! back, so that the pool is the one blank node again.

use crate::layout::{
    filled, pool_remove, pool_remove_down, pool_remove_up, pool_set, pool_set_down, pool_split,
};
use crate::node::Node;
use crate::path::{block_empty, block_is};
use crate::pool::{cell_ok, grown};
use crate::tree::Tree;
use vstd::prelude::*;

verus! {

/// Where the way down `cell` stands after `d` steps in a pool that holds a
/// chain and nothing else: at the root, or in the block of level `d`.
pub open spec fn stop(cell: Seq<int>, d: int) -> int {
    if d <= 0 {
        0
    } else {
        1 + 8 * (d - 1) + cell[d - 1]
    }
}

/// The first `d` stops of the way down `cell`.
pub open spec fn stops(cell: Seq<int>, d: int) -> Seq<int> {
    Seq::new(d as nat, |j: int| stop(cell, j))
}

/// A new pool split down `cell` for `d` levels: the root and one block to
/// each level, each stop but the last pointing at the block of the next,
/// and every other node blank.
pub open spec fn chain(cell: Seq<int>, d: int) -> Seq<Node>
    decreases d,
{
    if d <= 0 {
        seq![Node::empty()]
    } else {
        grown(chain(cell, d - 1)).update(stop(cell, d - 1), Node::parent((1 + 8 * (d - 1)) as u32))
    }
}

/// The chain with the leaf `node` at its end.
pub open spec fn chain_with(cell: Seq<int>, node: Node) -> Seq<Node> {
    chain(cell, cell.len() as int).update(stop(cell, cell.len() as int), node)
}

/// What a chain holds: one block to each level, blank at its last stop and
/// in all of its last block, and a pointer at the next block at every stop
/// before.
pub proof fn lemma_chain(cell: Seq<int>, d: int)
    requires
        cell_ok(cell),
        0 <= d <= cell.len() <= 32,
    ensures
        chain(cell, d).len() == 1 + 8 * d,
        0 <= stop(cell, d) < 1 + 8 * d,
        chain(cell, d)[stop(cell, d)] == Node::empty(),
        forall|j: int| 0 <= j < d ==> chain(cell, d)[#[trigger] stop(cell, j)] == Node::parent((1 + 8 * j) as u32),
        forall|i: int| 0 <= i && 8 * d - 7 <= i < 1 + 8 * d ==> #[trigger] chain(cell, d)[i] == Node::empty(),
    decreases d,
{
    if d > 0 {
        lemma_chain(cell, d - 1);
        let before = chain(cell, d - 1);
        assert forall|j: int| 0 <= j < d implies chain(cell, d)[#[trigger] stop(cell, j)] == Node::parent(
            (1 + 8 * j) as u32,
        ) by {
            if j < d - 1 {
                assert(before[stop(cell, j)] == Node::parent((1 + 8 * j) as u32));
                assert(stop(cell, j) != stop(cell, d - 1));
            }
        }
    }
}

/// The rest of the write of a solid leaf into a new pool, from level `d` of
/// the chain on.
proof fn lemma_chain_set(cell: Seq<int>, node: Node, d: int)
    requires
        cell_ok(cell),
        0 <= d <= cell.len() <= 32,
        node.is_solid(),
        !node.is_parent(),
    ensures
        pool_set_down(
            chain(cell, d),
            Seq::<u32>::empty(),
            stop(cell, d),
            cell.skip(d),
            stops(cell, d),
            node,
        ) == (chain_with(cell, node), Seq::<u32>::empty()),
    decreases cell.len() - d,
{
    let free = Seq::<u32>::empty();
    let nodes = chain(cell, d);
    Node::lemma_flags();
    node.lemma_empty_iff();
    lemma_chain(cell, d);
    if d == cell.len() {
        let full = nodes.update(stop(cell, d), node);
        if d > 0 {
            let up = stop(cell, d - 1);
            let q = 1 + 8 * (d - 1);
            assert(stops(cell, d).last() == up);
            assert(full[up] == Node::parent(q as u32));
            let other = if cell[d - 1] == 0 {
                q + 1
            } else {
                q
            };
            assert(nodes[other] == Node::empty());
            assert(full[other] != node);
            assert(!block_is(full, q, node));
        }
    } else {
        lemma_chain_set(cell, node, d + 1);
        let len = nodes.len() as int;
        let next = chain(cell, d + 1);
        assert(filled(grown(nodes), len, Tree::split_leaf(nodes[stop(cell, d)])) =~= grown(nodes));
        assert(pool_split(nodes, free, stop(cell, d)) == (next, free));
        assert(next[stop(cell, d)] == Node::parent((1 + 8 * d) as u32));
        assert(cell.skip(d)[0] == cell[d]);
        assert(cell.skip(d).drop_first() =~= cell.skip(d + 1));
        assert(stops(cell, d).push(stop(cell, d)) =~= stops(cell, d + 1));
    }
}

/// The walk back up of a removal, from level `d` of a chain whose block of
/// that level is blank: every block is given back, the last of the pool
/// first.
proof fn lemma_chain_up(cell: Seq<int>, d: int)
    requires
        cell_ok(cell),
        0 <= d <= cell.len() <= 32,
    ensures
        pool_remove_up(chain(cell, d), Seq::<u32>::empty(), stops(cell, d)) == (
            seq![Node::empty()],
            Seq::<u32>::empty(),
        ),
    decreases d,
{
    Node::lemma_flags();
    lemma_chain(cell, d);
    if d > 0 {
        lemma_chain_up(cell, d - 1);
        lemma_chain(cell, d - 1);
        let nodes = chain(cell, d);
        let up = stop(cell, d - 1);
        let q = 1 + 8 * (d - 1);
        assert(stops(cell, d).last() == up);
        assert(nodes[up] == Node::parent(q as u32));
        assert(block_empty(nodes, q));
        assert(nodes.update(up, Node::empty()).take(q) =~= chain(cell, d - 1));
        assert(stops(cell, d).drop_last() =~= stops(cell, d - 1));
    }
}

/// The rest of the removal of the leaf at the end of a chain, from level
/// `d` on.
proof fn lemma_chain_remove(cell: Seq<int>, node: Node, d: int)
    requires
        cell_ok(cell),
        0 <= d <= cell.len() <= 32,
        node.is_solid(),
        !node.is_parent(),
    ensures
        pool_remove_down(
            chain_with(cell, node),
            Seq::<u32>::empty(),
            stop(cell, d),
            cell.skip(d),
            stops(cell, d),
        ) == (seq![Node::empty()], Seq::<u32>::empty()),
    decreases cell.len() - d,
{
    let full = chain_with(cell, node);
    let size = cell.len() as int;
    Node::lemma_flags();
    node.lemma_empty_iff();
    lemma_chain(cell, size);
    if d == size {
        assert(full.update(stop(cell, d), Node::empty()) =~= chain(cell, size));
        lemma_chain_up(cell, size);
    } else {
        lemma_chain_remove(cell, node, d + 1);
        let q = 1 + 8 * d;
        assert(full[stop(cell, d)] == Node::parent(q as u32));
        assert(!full[stop(cell, d + 1)].is_empty()) by {
            if d + 1 < size {
                assert(full[stop(cell, d + 1)] == Node::parent((1 + 8 * (d + 1)) as u32));
            }
        }
        assert(!block_empty(full, q));
        assert(cell.skip(d)[0] == cell[d]);
        assert(cell.skip(d).drop_first() =~= cell.skip(d + 1));
        assert(stops(cell, d).push(stop(cell, d)) =~= stops(cell, d + 1));
    }
}

/// Writing a solid leaf into a new pool lays the chain that leads to it:
/// eight nodes to each level of the branch, and no free block.
pub proof fn lemma_new_set(cell: Seq<int>, node: Node)
    requires
        cell_ok(cell),
        cell.len() <= 32,
        node.is_solid(),
        !node.is_parent(),
    ensures
        pool_set(seq![Node::empty()], Seq::<u32>::empty(), cell, node) == (
            chain_with(cell, node),
            Seq::<u32>::empty(),
        ),
        chain_with(cell, node).len() == 1 + 8 * cell.len(),
{
    lemma_chain_set(cell, node, 0);
    lemma_chain(cell, cell.len() as int);
    assert(cell.skip(0) =~= cell);
    assert(stops(cell, 0) =~= Seq::<int>::empty());
}

/// Writing a solid leaf into a new pool and clearing its cube again leaves
/// the new pool: the one blank node, and no free block.
pub proof fn lemma_new_set_remove(cell: Seq<int>, node: Node)
    requires
        cell_ok(cell),
        cell.len() <= 32,
        node.is_solid(),
        !node.is_parent(),
    ensures
        pool_remove(
            pool_set(seq![Node::empty()], Seq::<u32>::empty(), cell, node).0,
            pool_set(seq![Node::empty()], Seq::<u32>::empty(), cell, node).1,
            cell,
        ) == (seq![Node::empty()], Seq::<u32>::empty()),
{
    lemma_new_set(cell, node);
    lemma_chain_remove(cell, node, 0);
    assert(cell.skip(0) =~= cell);
    assert(stops(cell, 0) =~= Seq::<int>::empty());
}

} // verus!
