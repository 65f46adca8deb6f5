//! The edits of the octree, written once for every pool: writing a leaf,
//! clearing a cube, and applying a template octree to a place in the tree.

use crate::branch::{Branch, MAX_DEPTH};
use crate::layout::{
    cleared, filled, lemma_remove_down_step, lemma_remove_up_step, lemma_set_down_step,
    lemma_set_up_step, lemma_up_stop, pool_remove, pool_remove_down, pool_remove_up, pool_set,
    pool_set_down, pool_set_up, pool_split, recorded, rests, rests_blank, settled,
};
use crate::node::Node;
use crate::octree::{lemma_tracks_trans, tracks, NodePool};
use crate::path::{
    block_empty, block_is, lemma_collapse_free, lemma_collapse_write, lemma_drop_block,
    lemma_kids_empty, lemma_no_collapse, lemma_remove_collapse, lemma_remove_stays,
    lemma_step_down, lemma_write_end, released_place,
};
use crate::pool::{
    block_ok, cell_ok, leaf_block, lemma_fill_block, lemma_link_block, lemma_shaped_root,
    lemma_split_tree, lemma_take_block, lemma_wf_leaf, lemma_wf_len, lemma_wf_parent, levels,
    on_path, passable, passes, sides, subtree, taken_place, tree_of, wf, wf_at,
};
use crate::tree::Tree;
use vstd::prelude::*;

verus! {

/// Splits the leaf at the end of the walk: takes a block, hands the leaf down
/// to its eight nodes if it is solid, and makes the leaf their parent.
fn split_in<P: NodePool>(
    pool: &mut P,
    at: u32,
    cur: Node,
    Ghost(cell): Ghost<Seq<int>>,
    Ghost(idx): Ghost<Seq<int>>,
    Ghost(base): Ghost<Tree>,
    Ghost(d): Ghost<int>,
) -> (pointer: u32)
    requires
        wf(old(pool).nodes(), old(pool).free()),
        old(pool).record_ok(),
        old(pool).nodes().len() + 8 <= u32::MAX,
        cell_ok(cell),
        on_path(old(pool).nodes(), cell, idx, d),
        d + 1 < levels(),
        idx[d] == at,
        sides(old(pool).nodes(), cell, idx, base, d),
        cur == old(pool).nodes()[at as int],
        !cur.is_parent(),
    ensures
        wf(final(pool).nodes(), final(pool).free()),
        final(pool).record_ok(),
        old(pool).in_bounds() ==> final(pool).in_bounds(),
        tracks(old(pool).nodes(), old(pool).dirty(), final(pool).nodes(), final(pool).dirty()),
        old(pool).nodes().len() <= final(pool).nodes().len() <= old(pool).nodes().len() + 8,
        on_path(final(pool).nodes(), cell, idx, d),
        sides(final(pool).nodes(), cell, idx, base, d),
        final(pool).nodes()[at as int] == Node::parent(pointer),
        final(pool).nodes()[at as int].is_parent(),
        block_ok(final(pool).nodes().len() as int, pointer as int),
        forall|j: int|
            pointer <= j < pointer + 8 ==> #[trigger] final(pool).nodes()[j] == Tree::split_leaf(cur),
        final(pool).nodes() == pool_split(old(pool).nodes(), old(pool).free(), at as int).0,
        final(pool).free() == pool_split(old(pool).nodes(), old(pool).free(), at as int).1,
{
    let ghost n0 = pool.nodes();
    let ghost f0 = pool.free();
    let ghost place0 = choose|place: Seq<Seq<int>>| wf_at(n0, f0, place);
    let q = pool.push_branch();
    let ghost n1 = pool.nodes();
    let ghost f1 = pool.free();
    let ghost place1 = taken_place(place0, f0.len() > 0);
    proof {
        lemma_take_block(n0, f0, place0, n1, f1, q, cell, idx, base, d);
        lemma_wf_len(n1, f1);
    }
    if cur.is_solid() {
        let mut k: u32 = 0;
        while k < 8
            invariant
                0 <= k <= 8,
                q + 8 <= n1.len() <= u32::MAX,
                !cur.is_parent(),
                pool.record_ok(),
                pool.free() == f1,
                pool.nodes().len() == n1.len(),
                wf_at(pool.nodes(), f1, place1),
                old(pool).in_bounds() ==> pool.in_bounds(),
                old(pool).in_bounds() ==> pool.in_bounds(),
            tracks(old(pool).nodes(), old(pool).dirty(), pool.nodes(), pool.dirty()),
                forall|j: int|
                    0 <= j < n1.len() ==> #[trigger] pool.nodes()[j] == (if q <= j < q + k {
                        cur
                    } else {
                        n1[j]
                    }),
            decreases 8 - k,
        {
            let ghost before = *pool;
            pool.put(q + k, cur);
            proof {
                lemma_wf_leaf(before.nodes(), f1, place1, (q + k) as int, cur);
                lemma_tracks_trans(
                    old(pool).nodes(),
                    old(pool).dirty(),
                    before.nodes(),
                    before.dirty(),
                    pool.nodes(),
                    pool.dirty(),
                );
            }
            k += 1;
        }
    }
    let ghost n2 = pool.nodes();
    let ghost mid = *pool;
    proof {
        Node::lemma_flags();
        assert forall|j: int| q <= j < q + 8 implies #[trigger] n2[j] == Tree::split_leaf(cur) by {
            assert(n1[j] == Node::empty());
        }
        Node::lemma_flags();
        lemma_fill_block(n1, f1, place1, n2, q, cell, idx, base, d);
        lemma_link_block(n2, f1, place1, q, cell, idx, base, d);
        assert(n2 =~= filled(n1, q as int, Tree::split_leaf(cur)));
    }
    pool.put(at, Node::parent(q));
    proof {
        lemma_tracks_trans(
            old(pool).nodes(),
            old(pool).dirty(),
            mid.nodes(),
            mid.dirty(),
            pool.nodes(),
            pool.dirty(),
        );
    }
    q
}

/// Whether the eight nodes from `pointer` on are all `node`, bit for bit.
fn block_holds<P: NodePool>(pool: &P, pointer: u32, node: Node) -> (all: bool)
    requires
        pointer + 8 <= pool.nodes().len() <= u32::MAX,
    ensures
        all == block_is(pool.nodes(), pointer as int, node),
{
    let mut all = true;
    let mut child: u32 = 0;
    while child < 8
        invariant
            0 <= child <= 8,
            pointer + 8 <= pool.nodes().len() <= u32::MAX,
            all == (forall|j: int| pointer <= j < pointer + child ==> #[trigger] pool.nodes()[j] == node),
        decreases 8 - child,
    {
        let here = pool.node(pointer + child);
        all = all && here == node;
        child += 1;
    }
    all
}

/// Writes `node` at `branch` in any pool: splits the leaves on the way down,
/// writes the leaf, and on the way back up collapses every level whose eight
/// nodes have become that leaf.
pub fn set_in<P: NodePool>(pool: &mut P, branch: Branch, node: Node)
    requires
        wf(old(pool).nodes(), old(pool).free()),
        old(pool).record_ok(),
        branch.depth <= MAX_DEPTH,
        !node.is_parent(),
        old(pool).nodes().len() + 8 * branch.depth <= u32::MAX,
    ensures
        wf(final(pool).nodes(), final(pool).free()),
        final(pool).record_ok(),
        tree_of(final(pool).nodes()) == tree_of(old(pool).nodes()).set(branch.cell(), node),
        final(pool).nodes() == pool_set(old(pool).nodes(), old(pool).free(), branch.cell(), node).0,
        final(pool).free() == pool_set(old(pool).nodes(), old(pool).free(), branch.cell(), node).1,
        settled(final(pool).nodes(), branch.cell(), node),
        recorded(final(pool).nodes(), final(pool).dirty(), branch.cell(), node),
        final(pool).nodes().len() <= old(pool).nodes().len() + 8 * branch.depth,
        old(pool).in_bounds() ==> final(pool).in_bounds(),
        tracks(old(pool).nodes(), old(pool).dirty(), final(pool).nodes(), final(pool).dirty()),
{
    let ghost cell = branch.cell();
    let ghost base = tree_of(pool.nodes());
    let ghost mut place = choose|place: Seq<Seq<int>>| wf_at(pool.nodes(), pool.free(), place);
    let ghost mut idx = seq![0int];
    proof {
        branch.lemma_cell_entries();
        lemma_wf_len(pool.nodes(), pool.free());
        lemma_shaped_root(pool.nodes(), pool.free(), place);
        assert(cell.take(0) =~= Seq::<int>::empty());
        assert(cell.skip(0) =~= cell);
        assert(idx.take(0) =~= Seq::<int>::empty());
    }
    let ghost whole = pool_set(pool.nodes(), pool.free(), cell, node);
    let mut parent: u32 = 0;
    let mut stack: [u32; 32] = [0;32];
    let mut depth: u32 = 0;
    while depth < branch.depth
        invariant
            0 <= depth <= branch.depth <= MAX_DEPTH,
            cell == branch.cell(),
            cell_ok(cell),
            cell.len() == branch.depth,
            !node.is_parent(),
            base.shaped(levels()),
            wf_at(pool.nodes(), pool.free(), place),
            pool.record_ok(),
            on_path(pool.nodes(), cell, idx, depth as int),
            sides(pool.nodes(), cell, idx, base, depth as int),
            idx[depth as int] == parent,
            idx.len() == depth + 1,
            whole == pool_set(old(pool).nodes(), old(pool).free(), cell, node),
            whole == pool_set_down(
                pool.nodes(),
                pool.free(),
                parent as int,
                cell.skip(depth as int),
                idx.take(depth as int),
                node,
            ),
            forall|j: int| 0 <= j < depth ==> #[trigger] stack[j] == idx[j],
            subtree(pool.nodes(), parent as int, (levels() - depth) as nat) == base.at(
                cell.take(depth as int),
            ),
            pool.nodes().len() <= old(pool).nodes().len() + 8 * depth,
            old(pool).nodes().len() + 8 * branch.depth <= u32::MAX,
            old(pool).in_bounds() ==> pool.in_bounds(),
            tracks(old(pool).nodes(), old(pool).dirty(), pool.nodes(), pool.dirty()),
        decreases branch.depth - depth,
    {
        let cur = pool.node(parent);
        stack[depth as usize] = parent;
        let ghost before = *pool;
        if !cur.is_parent() {
            let pointer = split_in(
                pool,
                parent,
                cur,
                Ghost(cell),
                Ghost(idx),
                Ghost(base),
                Ghost(depth as int),
            );
            proof {
                place = choose|place: Seq<Seq<int>>| wf_at(pool.nodes(), pool.free(), place);
                lemma_tracks_trans(
                    old(pool).nodes(),
                    old(pool).dirty(),
                    before.nodes(),
                    before.dirty(),
                    pool.nodes(),
                    pool.dirty(),
                );
                lemma_split_tree(pool.nodes(), parent as int, cur, (levels() - depth) as nat);
            }
        }
        let pointer = pool.node(parent).pointer();
        let child = branch.child(depth);
        proof {
            lemma_wf_len(pool.nodes(), pool.free());
            lemma_wf_parent(pool.nodes(), pool.free(), parent as int);
            assert(child == cell[depth as int]);
            lemma_step_down(
                pool.nodes(),
                cell,
                idx,
                base,
                depth as int,
                pointer as int + child as int,
            );
            lemma_set_down_step(
                before.nodes(),
                before.free(),
                cell,
                idx,
                depth as int,
                node,
                pool.nodes(),
                pool.free(),
                pointer as int + child as int,
            );
            idx = idx.push(pointer as int + child as int);
        }
        parent = pointer + child;
        depth += 1;
    }
    let ghost before = *pool;
    proof {
        lemma_write_end(pool.nodes(), pool.free(), place, cell, idx, base, depth as int, node);
        lemma_wf_len(pool.nodes(), pool.free());
        assert(cell.skip(depth as int) =~= Seq::<int>::empty());
    }
    pool.put(parent, node);
    proof {
        lemma_tracks_trans(
            old(pool).nodes(),
            old(pool).dirty(),
            before.nodes(),
            before.dirty(),
            pool.nodes(),
            pool.dirty(),
        );
        assert(whole == pool_set_up(pool.nodes(), pool.free(), idx.take(depth as int), node));
    }
    let mut level: u32 = depth;
    let mut done = false;
    while level > 0 && !done
        invariant
            0 <= level <= branch.depth <= MAX_DEPTH,
            cell == branch.cell(),
            cell_ok(cell),
            cell.len() == branch.depth,
            !node.is_parent(),
            base.shaped(levels()),
            wf_at(pool.nodes(), pool.free(), place),
            pool.record_ok(),
            pool.nodes().len() <= old(pool).nodes().len() + 8 * branch.depth,
            old(pool).in_bounds() ==> pool.in_bounds(),
            tracks(old(pool).nodes(), old(pool).dirty(), pool.nodes(), pool.dirty()),
            done ==> tree_of(pool.nodes()) == base.set(cell, node),
            done ==> whole == (pool.nodes(), pool.free()),
            done ==> settled(pool.nodes(), cell, node),
            done ==> recorded(pool.nodes(), pool.dirty(), cell, node),
            !done ==> pool.dirty().contains(idx[level as int]),
            !done ==> whole == pool_set_up(pool.nodes(), pool.free(), idx.take(level as int), node),
            !done ==> idx.len() == level + 1,
            !done ==> on_path(pool.nodes(), cell, idx, level as int),
            !done ==> sides(pool.nodes(), cell, idx, base, level as int),
            !done ==> pool.nodes()[idx[level as int]] == node,
            !done ==> base.at(cell.take(level as int)).set(cell.skip(level as int), node)
                == Tree::Leaf(node),
            !done ==> forall|j: int| 0 <= j < level ==> #[trigger] stack[j] == idx[j],
        decreases level, if done { 0int } else { 1int },
    {
        let up = stack[(level - 1) as usize];
        let pointer = pool.node(up).pointer();
        proof {
            lemma_wf_len(pool.nodes(), pool.free());
            lemma_wf_parent(pool.nodes(), pool.free(), up as int);
        }
        if block_holds(pool, pointer, node) {
            let ghost first = *pool;
            proof {
                lemma_collapse_write(
                    pool.nodes(),
                    pool.free(),
                    place,
                    cell,
                    idx,
                    base,
                    level as int,
                    node,
                );
            }
            pool.put(up, node);
            let ghost second = *pool;
            pool.remove_branch(pointer);
            proof {
                lemma_collapse_free(
                    second.nodes(),
                    second.free(),
                    place,
                    pool.nodes(),
                    pool.free(),
                    pointer,
                    cell,
                    idx.take(level as int),
                    base,
                    level - 1,
                );
                lemma_set_up_step(
                    first.nodes(),
                    first.free(),
                    idx,
                    level as int,
                    node,
                    pool.nodes(),
                    pool.free(),
                );
                place = released_place(place, pointer as int, pointer + 8 == second.nodes().len());
                idx = idx.take(level as int);
                assert(second.dirty().contains(up as int));
                assert(pool.dirty().contains(idx[level - 1]));
                lemma_tracks_trans(
                    old(pool).nodes(),
                    old(pool).dirty(),
                    first.nodes(),
                    first.dirty(),
                    second.nodes(),
                    second.dirty(),
                );
                lemma_tracks_trans(
                    old(pool).nodes(),
                    old(pool).dirty(),
                    second.nodes(),
                    second.dirty(),
                    pool.nodes(),
                    pool.dirty(),
                );
            }
            level -= 1;
        } else {
            proof {
                lemma_no_collapse(pool.nodes(), cell, idx, base, level as int, node);
                lemma_up_stop(pool.nodes(), pool.free(), idx, level as int, node);
                assert(rests(pool.nodes(), cell, idx, level as int, node));
            }
            done = true;
        }
    }
    proof {
        if !done {
            assert(cell.take(0) =~= Seq::<int>::empty());
            assert(cell.skip(0) =~= cell);
            lemma_up_stop(pool.nodes(), pool.free(), idx, 0, node);
            assert(rests(pool.nodes(), cell, idx, 0, node));
        }
    }
}

/// Whether the eight nodes from `pointer` on are all empty.
fn block_blank<P: NodePool>(pool: &P, pointer: u32) -> (all: bool)
    requires
        pointer + 8 <= pool.nodes().len() <= u32::MAX,
    ensures
        all == block_empty(pool.nodes(), pointer as int),
{
    let mut all = true;
    let mut child: u32 = 0;
    while child < 8
        invariant
            0 <= child <= 8,
            pointer + 8 <= pool.nodes().len() <= u32::MAX,
            all == (forall|j: int|
                pointer <= j < pointer + child ==> (#[trigger] pool.nodes()[j]).is_empty()),
        decreases 8 - child,
    {
        let here = pool.node(pointer + child);
        all = all && here.is_empty();
        child += 1;
    }
    all
}

/// Clears the cube at `branch` in any pool. The walk down stops at an empty
/// leaf, splits a solid one, and collapses an interior node whose eight
/// children it finds empty; at the end of the walk the cube is blanked. On
/// the way back up every level whose eight nodes have become empty
/// collapses into a blank leaf.
pub fn remove_in<P: NodePool>(pool: &mut P, branch: Branch)
    requires
        wf(old(pool).nodes(), old(pool).free()),
        old(pool).record_ok(),
        branch.depth <= MAX_DEPTH,
        old(pool).nodes().len() + 8 * branch.depth <= u32::MAX,
    ensures
        wf(final(pool).nodes(), final(pool).free()),
        final(pool).record_ok(),
        tree_of(final(pool).nodes()) == tree_of(old(pool).nodes()).remove(branch.cell()),
        final(pool).nodes() == pool_remove(old(pool).nodes(), old(pool).free(), branch.cell()).0,
        final(pool).free() == pool_remove(old(pool).nodes(), old(pool).free(), branch.cell()).1,
        cleared(final(pool).nodes(), branch.cell()),
        final(pool).nodes().len() <= old(pool).nodes().len() + 8 * branch.depth,
        old(pool).in_bounds() ==> final(pool).in_bounds(),
        tracks(old(pool).nodes(), old(pool).dirty(), final(pool).nodes(), final(pool).dirty()),
{
    let ghost cell = branch.cell();
    let ghost base = tree_of(pool.nodes());
    let ghost mut place = choose|place: Seq<Seq<int>>| wf_at(pool.nodes(), pool.free(), place);
    let ghost mut idx = seq![0int];
    proof {
        branch.lemma_cell_entries();
        lemma_wf_len(pool.nodes(), pool.free());
        lemma_shaped_root(pool.nodes(), pool.free(), place);
        assert(cell.take(0) =~= Seq::<int>::empty());
        assert(cell.skip(0) =~= cell);
        assert(idx.take(0) =~= Seq::<int>::empty());
        Node::lemma_flags();
    }
    let ghost whole = pool_remove(pool.nodes(), pool.free(), cell);
    let mut parent: u32 = 0;
    let mut stack: [u32; 32] = [0;32];
    let mut depth: u32 = 0;
    let mut stopped = false;
    while depth < branch.depth && !stopped
        invariant
            0 <= depth <= branch.depth <= MAX_DEPTH,
            cell == branch.cell(),
            cell_ok(cell),
            cell.len() == branch.depth,
            base == tree_of(old(pool).nodes()),
            base.shaped(levels()),
            wf_at(pool.nodes(), pool.free(), place),
            pool.record_ok(),
            on_path(pool.nodes(), cell, idx, depth as int),
            sides(pool.nodes(), cell, idx, base, depth as int),
            passes(base, cell, depth as int),
            idx[depth as int] == parent,
            idx.len() == depth + 1,
            whole == pool_remove(old(pool).nodes(), old(pool).free(), cell),
            !stopped ==> whole == pool_remove_down(
                pool.nodes(),
                pool.free(),
                parent as int,
                cell.skip(depth as int),
                idx.take(depth as int),
            ),
            stopped ==> whole == pool_remove_up(pool.nodes(), pool.free(), idx.take(depth as int)),
            forall|j: int| 0 <= j < depth ==> #[trigger] stack[j] == idx[j],
            !stopped ==> subtree(pool.nodes(), parent as int, (levels() - depth) as nat) == base.at(
                cell.take(depth as int),
            ),
            stopped ==> depth < branch.depth && pool.nodes()[parent as int].is_empty() && base.at(
                cell.take(depth as int),
            ).remove(cell.skip(depth as int)) == Tree::Leaf(pool.nodes()[parent as int]),
            pool.nodes().len() <= old(pool).nodes().len() + 8 * depth,
            old(pool).nodes().len() + 8 * branch.depth <= u32::MAX,
            old(pool).in_bounds() ==> pool.in_bounds(),
            tracks(old(pool).nodes(), old(pool).dirty(), pool.nodes(), pool.dirty()),
        decreases branch.depth - depth, if stopped { 0int } else { 1int },
    {
        let cur = pool.node(parent);
        let ghost before = *pool;
        proof {
            Node::lemma_flags();
            lemma_wf_len(pool.nodes(), pool.free());
            cur.lemma_empty_iff();
            if cur.is_parent() {
                lemma_wf_parent(pool.nodes(), pool.free(), parent as int);
            }
        }
        if cur.is_empty() {
            stopped = true;
        } else if !cur.is_solid() && block_blank_at(pool, parent, Ghost((levels() - depth) as nat)) {
            let pointer = cur.pointer();
            proof {
                lemma_drop_block(
                    pool.nodes(),
                    pool.free(),
                    place,
                    cell,
                    idx,
                    base,
                    depth as int,
                    Node::empty(),
                );
            }
            pool.put(parent, Node::empty());
            let ghost second = *pool;
            pool.remove_branch(pointer);
            proof {
                lemma_collapse_free(
                    second.nodes(),
                    second.free(),
                    place,
                    pool.nodes(),
                    pool.free(),
                    pointer,
                    cell,
                    idx,
                    base,
                    depth as int,
                );
                place = released_place(place, pointer as int, pointer + 8 == second.nodes().len());
                lemma_tracks_trans(
                    old(pool).nodes(),
                    old(pool).dirty(),
                    before.nodes(),
                    before.dirty(),
                    second.nodes(),
                    second.dirty(),
                );
                lemma_tracks_trans(
                    old(pool).nodes(),
                    old(pool).dirty(),
                    second.nodes(),
                    second.dirty(),
                    pool.nodes(),
                    pool.dirty(),
                );
            }
            stopped = true;
        } else {
            stack[depth as usize] = parent;
            if cur.is_solid() {
                let _ = split_in(
                    pool,
                    parent,
                    cur,
                    Ghost(cell),
                    Ghost(idx),
                    Ghost(base),
                    Ghost(depth as int),
                );
                proof {
                    place = choose|place: Seq<Seq<int>>| wf_at(pool.nodes(), pool.free(), place);
                    lemma_tracks_trans(
                        old(pool).nodes(),
                        old(pool).dirty(),
                        before.nodes(),
                        before.dirty(),
                        pool.nodes(),
                        pool.dirty(),
                    );
                    lemma_split_tree(pool.nodes(), parent as int, cur, (levels() - depth) as nat);
                }
            }
            let pointer = pool.node(parent).pointer();
            let child = branch.child(depth);
            proof {
                lemma_wf_len(pool.nodes(), pool.free());
                lemma_wf_parent(pool.nodes(), pool.free(), parent as int);
                assert(child == cell[depth as int]);
                assert(passable(base.at(cell.take(depth as int))));
                assert forall|j: int| 0 <= j < depth + 1 implies passable(
                    base.at(#[trigger] cell.take(j)),
                ) by {
                    if j < depth {
                        assert(passes(base, cell, depth as int));
                    }
                }
                lemma_step_down(
                    pool.nodes(),
                    cell,
                    idx,
                    base,
                    depth as int,
                    pointer as int + child as int,
                );
                lemma_remove_down_step(
                    before.nodes(),
                    before.free(),
                    cell,
                    idx,
                    depth as int,
                    pool.nodes(),
                    pool.free(),
                    pointer as int + child as int,
                );
                idx = idx.push(pointer as int + child as int);
            }
            parent = pointer + child;
            depth += 1;
        }
    }
    if !stopped {
        let ghost before = *pool;
        proof {
            lemma_write_end(
                pool.nodes(),
                pool.free(),
                place,
                cell,
                idx,
                base,
                depth as int,
                Node::empty(),
            );
            lemma_wf_len(pool.nodes(), pool.free());
            assert(cell.skip(depth as int) =~= Seq::<int>::empty());
            Node::lemma_flags();
        }
        pool.put(parent, Node::empty());
        proof {
            lemma_tracks_trans(
                old(pool).nodes(),
                old(pool).dirty(),
                before.nodes(),
                before.dirty(),
                pool.nodes(),
                pool.dirty(),
            );
        }
    }
    let mut level: u32 = depth;
    let mut done = false;
    while level > 0 && !done
        invariant
            0 <= level <= branch.depth <= MAX_DEPTH,
            cell == branch.cell(),
            cell_ok(cell),
            cell.len() == branch.depth,
            base == tree_of(old(pool).nodes()),
            base.shaped(levels()),
            wf_at(pool.nodes(), pool.free(), place),
            pool.record_ok(),
            pool.nodes().len() <= old(pool).nodes().len() + 8 * branch.depth,
            old(pool).in_bounds() ==> pool.in_bounds(),
            tracks(old(pool).nodes(), old(pool).dirty(), pool.nodes(), pool.dirty()),
            done ==> tree_of(pool.nodes()) == base.remove(cell),
            done ==> whole == (pool.nodes(), pool.free()),
            done ==> cleared(pool.nodes(), cell),
            !done && level == branch.depth ==> pool.nodes()[idx[level as int]] == Node::empty(),
            !done ==> whole == pool_remove_up(pool.nodes(), pool.free(), idx.take(level as int)),
            !done ==> idx.len() == level + 1,
            !done ==> on_path(pool.nodes(), cell, idx, level as int),
            !done ==> sides(pool.nodes(), cell, idx, base, level as int),
            !done ==> passes(base, cell, level as int),
            !done ==> pool.nodes()[idx[level as int]].is_empty(),
            !done ==> base.at(cell.take(level as int)).remove(cell.skip(level as int)) == Tree::Leaf(
                pool.nodes()[idx[level as int]],
            ),
            !done ==> forall|j: int| 0 <= j < level ==> #[trigger] stack[j] == idx[j],
        decreases level, if done { 0int } else { 1int },
    {
        let up = stack[(level - 1) as usize];
        let pointer = pool.node(up).pointer();
        proof {
            Node::lemma_flags();
            lemma_wf_len(pool.nodes(), pool.free());
            lemma_wf_parent(pool.nodes(), pool.free(), up as int);
        }
        if block_blank(pool, pointer) {
            let ghost first = *pool;
            proof {
                lemma_remove_collapse(
                    pool.nodes(),
                    pool.free(),
                    place,
                    cell,
                    idx,
                    base,
                    level as int,
                );
            }
            pool.put(up, Node::empty());
            let ghost second = *pool;
            pool.remove_branch(pointer);
            proof {
                lemma_collapse_free(
                    second.nodes(),
                    second.free(),
                    place,
                    pool.nodes(),
                    pool.free(),
                    pointer,
                    cell,
                    idx.take(level as int),
                    base,
                    level - 1,
                );
                lemma_remove_up_step(
                    first.nodes(),
                    first.free(),
                    idx,
                    level as int,
                    pool.nodes(),
                    pool.free(),
                );
                place = released_place(place, pointer as int, pointer + 8 == second.nodes().len());
                idx = idx.take(level as int);
                lemma_tracks_trans(
                    old(pool).nodes(),
                    old(pool).dirty(),
                    first.nodes(),
                    first.dirty(),
                    second.nodes(),
                    second.dirty(),
                );
                lemma_tracks_trans(
                    old(pool).nodes(),
                    old(pool).dirty(),
                    second.nodes(),
                    second.dirty(),
                    pool.nodes(),
                    pool.dirty(),
                );
            }
            level -= 1;
        } else {
            proof {
                lemma_remove_stays(pool.nodes(), cell, idx, base, level as int);
                lemma_up_stop(pool.nodes(), pool.free(), idx, level as int, Node::empty());
                assert(rests_blank(pool.nodes(), cell, idx, level as int));
            }
            done = true;
        }
    }
    proof {
        if !done {
            assert(cell.take(0) =~= Seq::<int>::empty());
            assert(cell.skip(0) =~= cell);
            pool.nodes()[0].lemma_empty_iff();
            lemma_up_stop(pool.nodes(), pool.free(), idx, 0, Node::empty());
            assert(rests_blank(pool.nodes(), cell, idx, 0));
        }
    }
}

/// Whether the eight children of the interior node at `at` are all empty.
fn block_blank_at<P: NodePool>(pool: &P, at: u32, Ghost(fuel): Ghost<nat>) -> (all: bool)
    requires
        wf(pool.nodes(), pool.free()),
        at < pool.nodes().len(),
        pool.nodes()[at as int].is_parent(),
        fuel >= 1,
    ensures
        all == block_empty(pool.nodes(), pool.nodes()[at as int].data as int),
        all == Tree::all_empty(subtree(pool.nodes(), at as int, fuel)->Parent_0),
        all ==> leaf_block(pool.nodes(), pool.nodes()[at as int].data as int),
{
    proof {
        lemma_wf_len(pool.nodes(), pool.free());
        lemma_wf_parent(pool.nodes(), pool.free(), at as int);
        lemma_kids_empty(pool.nodes(), at as int, fuel);
    }
    let pointer = pool.node(at).pointer();
    block_blank(pool, pointer)
}

} // verus!
