//! The rules of the node pool, stated over plain sequences: which pools are
//! well formed, which tree a pool holds, and which writes leave a subtree as
//! it was.

use crate::node::Node;
use crate::tree::Tree;
use vstd::prelude::*;

verus! {

/// The levels of the tree: the root, and up to 32 levels below it.
pub open spec fn levels() -> nat {
    33
}

/// `q` starts a block of eight nodes inside a pool of length `len`. Blocks
/// follow the root one after the other.
pub open spec fn block_ok(len: int, q: int) -> bool {
    1 <= q && (q - 1) % 8 == 0 && q + 8 <= len
}

/// Every entry of a cell is one of the eight child indices.
pub open spec fn cell_ok(cell: Seq<int>) -> bool {
    forall|j: int| 0 <= j < cell.len() ==> 0 <= #[trigger] cell[j] < 8
}

/// No interior node of the pool points at the block that starts at `q`.
pub open spec fn unowned(nodes: Seq<Node>, q: int) -> bool {
    forall|p: int| 0 <= p < nodes.len() && (#[trigger] nodes[p]).is_parent() ==> nodes[p].data != q
}

/// None of the eight nodes from `q` on is an interior node.
pub open spec fn leaf_block(nodes: Seq<Node>, q: int) -> bool {
    forall|j: int| q <= j < q + 8 ==> !(#[trigger] nodes[j]).is_parent()
}

/// The interior node at `i` points at a block of the pool, is not solid as
/// well, and its children are placed one step below it.
pub open spec fn linked(nodes: Seq<Node>, place: Seq<Seq<int>>, i: int) -> bool {
    let q = nodes[i].data as int;
    &&& !nodes[i].is_solid()
    &&& block_ok(nodes.len() as int, q)
    &&& forall|j: int| q <= j < q + 8 ==> #[trigger] place[j] == place[i].push(j - q)
}

/// The free list names blocks of the pool, each once; none of them holds an
/// interior node and no interior node points at one.
pub open spec fn free_ok(nodes: Seq<Node>, free: Seq<u32>) -> bool {
    &&& forall|a: int| 0 <= a < free.len() ==> block_ok(nodes.len() as int, #[trigger] free[a] as int)
    &&& forall|a: int, b: int| 0 <= a < b < free.len() ==> #[trigger] free[a] != #[trigger] free[b]
    &&& forall|a: int| 0 <= a < free.len() ==> leaf_block(nodes, #[trigger] free[a] as int)
    &&& forall|a: int| 0 <= a < free.len() ==> unowned(nodes, #[trigger] free[a] as int)
}

/// The pool is well formed, with `place` naming for each node the cell it
/// stands at: every interior node is linked, no two of them share a block,
/// nothing lies deeper than the last level, and the free list is in order.
#[verifier::opaque]
pub open spec fn wf_at(nodes: Seq<Node>, free: Seq<u32>, place: Seq<Seq<int>>) -> bool {
    &&& 1 <= nodes.len() <= u32::MAX
    &&& (nodes.len() - 1) % 8 == 0
    &&& place.len() == nodes.len()
    &&& place[0].len() == 0
    &&& forall|i: int| 0 <= i < nodes.len() ==> (#[trigger] place[i]).len() < levels()
    &&& forall|i: int|
        0 <= i < nodes.len() && (#[trigger] nodes[i]).is_parent() ==> linked(nodes, place, i)
    &&& forall|i: int, j: int|
        0 <= i < nodes.len() && 0 <= j < nodes.len() && (#[trigger] nodes[i]).is_parent() && (
        #[trigger] nodes[j]).is_parent() && nodes[i].data == nodes[j].data ==> i == j
    &&& free_ok(nodes, free)
}

/// A well-formed pool holds the root and then whole blocks, and its indices
/// fit in 32 bits.
pub proof fn lemma_wf_len(nodes: Seq<Node>, free: Seq<u32>)
    requires
        wf(nodes, free),
    ensures
        1 <= nodes.len() <= u32::MAX,
        (nodes.len() - 1) % 8 == 0,
{
    reveal(wf_at);
}

/// In a well-formed pool an interior node is not solid and points at a block
/// of the pool.
pub proof fn lemma_wf_parent(nodes: Seq<Node>, free: Seq<u32>, i: int)
    requires
        wf(nodes, free),
        0 <= i < nodes.len(),
        nodes[i].is_parent(),
    ensures
        !nodes[i].is_solid(),
        block_ok(nodes.len() as int, nodes[i].data as int),
{
    reveal(wf_at);
    let place = choose|place: Seq<Seq<int>>| wf_at(nodes, free, place);
    assert(linked(nodes, place, i));
}

/// Under any placing that makes the pool well formed, an interior node points
/// at a block of the pool that no other node points at.
pub proof fn lemma_wf_parent_at(nodes: Seq<Node>, free: Seq<u32>, place: Seq<Seq<int>>, i: int)
    requires
        wf_at(nodes, free, place),
        0 <= i < nodes.len(),
        nodes[i].is_parent(),
    ensures
        !nodes[i].is_solid(),
        block_ok(nodes.len() as int, nodes[i].data as int),
        forall|p: int|
            0 <= p < nodes.len() && p != i && (#[trigger] nodes[p]).is_parent() ==> nodes[p].data
                != nodes[i].data,
        forall|a: int| 0 <= a < free.len() ==> #[trigger] free[a] != nodes[i].data,
{
    reveal(wf_at);
    assert(linked(nodes, place, i));
    assert forall|a: int| 0 <= a < free.len() implies #[trigger] free[a] != nodes[i].data by {
        assert(unowned(nodes, free[a] as int));
    }
}

/// The pool is well formed: some placing of its nodes makes it so.
pub open spec fn wf(nodes: Seq<Node>, free: Seq<u32>) -> bool {
    exists|place: Seq<Seq<int>>| wf_at(nodes, free, place)
}

/// The tree that hangs from the node at `i`, read down `fuel` levels.
pub open spec fn subtree(nodes: Seq<Node>, i: int, fuel: nat) -> Tree
    decreases fuel,
{
    if fuel == 0 || !nodes[i].is_parent() {
        Tree::Leaf(nodes[i])
    } else {
        Tree::Parent(
            Seq::new(8, |k: int| subtree(nodes, nodes[i].data as int + k, (fuel - 1) as nat)),
        )
    }
}

/// The tree that the pool holds.
pub open spec fn tree_of(nodes: Seq<Node>) -> Tree {
    subtree(nodes, 0, levels())
}

/// The index reached from `i` by following `cell` through interior nodes.
pub open spec fn walk(nodes: Seq<Node>, i: int, cell: Seq<int>) -> int
    decreases cell.len(),
{
    if cell.len() == 0 || !nodes[i].is_parent() {
        i
    } else {
        walk(nodes, nodes[i].data as int + cell[0], cell.drop_first())
    }
}

/// The node at `w` is there in both pools, and the same.
pub open spec fn same_at(a: Seq<Node>, b: Seq<Node>, w: int) -> bool {
    0 <= w < a.len() && w < b.len() && a[w] == b[w]
}

/// `w` lies in the block of some interior node.
pub open spec fn owned(nodes: Seq<Node>, w: int) -> bool {
    exists|p: int|
        0 <= p < nodes.len() && (#[trigger] nodes[p]).is_parent() && nodes[p].data <= w
            < nodes[p].data + 8
}

/// A walk stays inside the pool, ends at or below its start, and ends either
/// where it began or in the block of an interior node.
pub proof fn lemma_walk(nodes: Seq<Node>, free: Seq<u32>, place: Seq<Seq<int>>, i: int, cell: Seq<int>)
    requires
        wf_at(nodes, free, place),
        0 <= i < nodes.len(),
        cell_ok(cell),
    ensures
        0 <= walk(nodes, i, cell) < nodes.len(),
        place[i].is_prefix_of(place[walk(nodes, i, cell)]),
        walk(nodes, i, cell) == i || owned(nodes, walk(nodes, i, cell)),
    decreases cell.len(),
{
    reveal(wf_at);
    if cell.len() == 0 || !nodes[i].is_parent() {
    } else {
        let q = nodes[i].data as int;
        let next = q + cell[0];
        assert(linked(nodes, place, i));
        assert(place[next] == place[i].push(next - q));
        let rest = cell.drop_first();
        assert(cell_ok(rest)) by {
            assert forall|j: int| 0 <= j < rest.len() implies 0 <= #[trigger] rest[j] < 8 by {
                assert(rest[j] == cell[j + 1]);
            }
        }
        lemma_walk(nodes, free, place, next, rest);
        let w = walk(nodes, next, rest);
        assert(place[i].is_prefix_of(place[w])) by {
            assert(place[i] =~= place[next].subrange(0, place[i].len() as int));
            assert(place[w].subrange(0, place[i].len() as int) =~= place[next].subrange(
                0,
                place[i].len() as int,
            ));
        }
        if w == next {
            assert(nodes[i].is_parent() && nodes[i].data <= w < nodes[i].data + 8);
        }
    }
}

/// Two pools that agree on every node a walk from `i` can reach hold the same
/// tree below `i`.
pub proof fn lemma_frame(a: Seq<Node>, b: Seq<Node>, i: int, fuel: nat)
    requires
        forall|cell: Seq<int>| cell_ok(cell) ==> same_at(a, b, #[trigger] walk(a, i, cell)),
    ensures
        subtree(a, i, fuel) == subtree(b, i, fuel),
    decreases fuel,
{
    let none = Seq::<int>::empty();
    assert(cell_ok(none));
    assert(walk(a, i, none) == i);
    assert(same_at(a, b, i));
    if fuel == 0 || !a[i].is_parent() {
    } else {
        let q = a[i].data as int;
        let ka = subtree(a, i, fuel)->Parent_0;
        let kb = subtree(b, i, fuel)->Parent_0;
        assert forall|k: int| 0 <= k < 8 implies #[trigger] ka[k] == kb[k] by {
            assert forall|cell: Seq<int>| cell_ok(cell) implies same_at(
                a,
                b,
                #[trigger] walk(a, q + k, cell),
            ) by {
                let longer = seq![k].add(cell);
                assert(longer.drop_first() =~= cell);
                assert(cell_ok(longer));
                assert(walk(a, i, longer) == walk(a, q + k, cell));
            }
            lemma_frame(a, b, q + k, (fuel - 1) as nat);
        }
        assert(ka =~= kb);
    }
}

/// Wherever `b` lacks a node of `a` or holds another, the place is `spot`, or
/// lies in no interior node's block and is not the root.
pub open spec fn differ_only(a: Seq<Node>, b: Seq<Node>, spot: int) -> bool {
    forall|w: int|
        0 <= w < a.len() && !#[trigger] same_at(a, b, w) ==> w == spot || (w != 0 && !owned(a, w))
}

/// Writes that touch no node in reach of the root leave the tree as it was.
pub proof fn lemma_tree_kept(a: Seq<Node>, free: Seq<u32>, place: Seq<Seq<int>>, b: Seq<Node>)
    requires
        wf_at(a, free, place),
        differ_only(a, b, -1),
    ensures
        tree_of(a) == tree_of(b),
{
    reveal(wf_at);
    assert forall|cell: Seq<int>| cell_ok(cell) implies same_at(a, b, #[trigger] walk(a, 0, cell)) by {
        lemma_walk(a, free, place, 0, cell);
    }
    lemma_frame(a, b, 0, levels());
}

/// The walk of an edit: `idx` lists the pool indices met on the way down
/// `cell`, from the root to level `d`, each but the last an interior node
/// that points on to the next.
pub open spec fn on_path(nodes: Seq<Node>, cell: Seq<int>, idx: Seq<int>, d: int) -> bool {
    &&& 0 <= d <= cell.len()
    &&& idx.len() == d + 1
    &&& idx[0] == 0
    &&& forall|j: int| 0 <= j <= d ==> 0 <= #[trigger] idx[j] < nodes.len()
    &&& forall|j: int|
        0 <= j < d ==> nodes[#[trigger] idx[j]].is_parent() && idx[j + 1] == nodes[idx[j]].data
            + cell[j]
}

/// The subtree beside the path: child `k` of the path's node at level `j`.
pub open spec fn side(nodes: Seq<Node>, idx: Seq<int>, j: int, k: int) -> Tree {
    subtree(nodes, nodes[idx[j]].data as int + k, (levels() - 1 - j) as nat)
}

/// Beside the path down to level `d`, the pool still holds what `base` held.
pub open spec fn sides(nodes: Seq<Node>, cell: Seq<int>, idx: Seq<int>, base: Tree, d: int) -> bool {
    forall|j: int, k: int|
        0 <= j < d && 0 <= k < 8 && k != cell[j] ==> #[trigger] side(nodes, idx, j, k) == base.at(
            cell.take(j),
        ).kids()[k]
}

/// The nodes of a walk stand at the cells that lead to them.
pub proof fn lemma_path_place(
    nodes: Seq<Node>,
    free: Seq<u32>,
    place: Seq<Seq<int>>,
    cell: Seq<int>,
    idx: Seq<int>,
    d: int,
    j: int,
)
    requires
        wf_at(nodes, free, place),
        cell_ok(cell),
        on_path(nodes, cell, idx, d),
        0 <= j <= d,
    ensures
        place[idx[j]] == cell.take(j),
        j == 0 || owned(nodes, idx[j]),
    decreases j,
{
    reveal(wf_at);
    if j == 0 {
        assert(place[0] =~= cell.take(0));
    } else {
        lemma_path_place(nodes, free, place, cell, idx, d, j - 1);
        let p = idx[j - 1];
        assert(nodes[p].is_parent());
        assert(linked(nodes, place, p));
        assert(place[idx[j]] == place[p].push(idx[j] - nodes[p].data));
        assert(cell.take(j - 1).push(cell[j - 1]) =~= cell.take(j));
    }
}

/// Writes at the end of the walk, or outside every block in use, leave what
/// hangs beside the walk as it was.
pub proof fn lemma_sides_kept(
    a: Seq<Node>,
    free: Seq<u32>,
    place: Seq<Seq<int>>,
    b: Seq<Node>,
    cell: Seq<int>,
    idx: Seq<int>,
    base: Tree,
    d: int,
)
    requires
        wf_at(a, free, place),
        cell_ok(cell),
        on_path(a, cell, idx, d),
        sides(a, cell, idx, base, d),
        differ_only(a, b, idx[d]),
    ensures
        sides(b, cell, idx, base, d),
        forall|j: int| 0 <= j < d ==> same_at(a, b, #[trigger] idx[j]),
{
    reveal(wf_at);
    lemma_path_place(a, free, place, cell, idx, d, d);
    assert forall|j: int| 0 <= j < d implies same_at(a, b, #[trigger] idx[j]) by {
        lemma_path_place(a, free, place, cell, idx, d, j);
        assert(cell.take(j).len() != cell.take(d).len());
    }
    assert forall|j: int, k: int| 0 <= j < d && 0 <= k < 8 && k != cell[j] implies #[trigger] side(
        b,
        idx,
        j,
        k,
    ) == base.at(cell.take(j)).kids()[k] by {
        let p = idx[j];
        let q = a[p].data as int;
        let s = q + k;
        lemma_path_place(a, free, place, cell, idx, d, j);
        assert(same_at(a, b, p));
        assert(linked(a, place, p));
        assert(place[s] == place[p].push(s - q));
        assert forall|c: Seq<int>| cell_ok(c) implies same_at(a, b, #[trigger] walk(a, s, c)) by {
            lemma_walk(a, free, place, s, c);
            let w = walk(a, s, c);
            if !same_at(a, b, w) {
                if w == s {
                    assert(a[p].is_parent() && a[p].data <= w < a[p].data + 8);
                }
                assert(owned(a, w));
                assert(w == idx[d]);
                assert(place[s].is_prefix_of(cell.take(d)));
                assert(place[s][j] == k);
                assert(cell.take(d)[j] == cell[j]);
                assert(false);
            }
        }
        lemma_frame(a, b, s, (levels() - 1 - j) as nat);
        assert(side(a, idx, j, k) == side(b, idx, j, k));
    }
}

/// The tree below a well-formed node has the shape of a tree within the
/// levels left to it.
pub proof fn lemma_shaped(nodes: Seq<Node>, free: Seq<u32>, place: Seq<Seq<int>>, i: int, fuel: nat)
    requires
        wf_at(nodes, free, place),
        0 <= i < nodes.len(),
        fuel + place[i].len() >= levels(),
    ensures
        subtree(nodes, i, fuel).shaped(fuel),
    decreases fuel,
{
    reveal(wf_at);
    if fuel == 0 || !nodes[i].is_parent() {
    } else {
        assert(linked(nodes, place, i));
        let q = nodes[i].data as int;
        let kids = subtree(nodes, i, fuel)->Parent_0;
        assert forall|k: int| 0 <= k < 8 implies (#[trigger] kids[k]).shaped((fuel - 1) as nat) by {
            assert(place[q + k] == place[i].push(q + k - q));
            lemma_shaped(nodes, free, place, q + k, (fuel - 1) as nat);
        }
    }
}

/// Following one more child index is taking that child of what was reached.
pub proof fn lemma_at_push(t: Tree, cell: Seq<int>, k: int)
    ensures
        t.at(cell.push(k)) == t.at(cell).kids()[k],
    decreases cell.len(),
{
    let longer = cell.push(k);
    if cell.len() == 0 {
        assert(longer.drop_first() =~= Seq::<int>::empty());
        assert(t.kids()[k].at(longer.drop_first()) == t.kids()[k]);
    } else {
        assert(longer.drop_first() =~= cell.drop_first().push(k));
        assert(longer[0] == cell[0]);
        lemma_at_push(t.kids()[cell[0]], cell.drop_first(), k);
    }
}

/// Whatever part of a shaped tree a cell leads to has eight children.
pub proof fn lemma_at_kids(t: Tree, height: nat, cell: Seq<int>)
    requires
        t.shaped(height),
        cell_ok(cell),
    ensures
        t.at(cell).shaped(height),
        t.at(cell).kids().len() == 8,
    decreases cell.len(),
{
    if cell.len() == 0 {
    } else {
        let kid = t.kids()[cell[0]];
        let rest = cell.drop_first();
        assert(cell_ok(rest)) by {
            assert forall|j: int| 0 <= j < rest.len() implies 0 <= #[trigger] rest[j] < 8 by {
                assert(rest[j] == cell[j + 1]);
            }
        }
        match t {
            Tree::Leaf(n) => {
                Node::lemma_flags();
                assert(kid.shaped(height));
            },
            Tree::Parent(kids) => {
                assert(kid.shaped((height - 1) as nat));
                lemma_shaped_more(kid, (height - 1) as nat, height);
            },
        }
        lemma_at_kids(kid, height, rest);
    }
}

/// A tree shaped within some height is shaped within any greater one.
pub proof fn lemma_shaped_more(t: Tree, height: nat, more: nat)
    requires
        t.shaped(height),
        height <= more,
    ensures
        t.shaped(more),
    decreases height,
{
    match t {
        Tree::Leaf(n) => {},
        Tree::Parent(kids) => {
            assert forall|k: int| 0 <= k < 8 implies (#[trigger] kids[k]).shaped((more - 1) as nat) by {
                lemma_shaped_more(kids[k], (height - 1) as nat, (more - 1) as nat);
            }
        },
    }
}

/// The pool with the eight nodes from `q` on blanked.
pub open spec fn blanked(nodes: Seq<Node>, q: int) -> Seq<Node> {
    Seq::new(nodes.len(), |j: int| if q <= j < q + 8 { Node::empty() } else { nodes[j] })
}

/// The pool with a blank block added at its end.
pub open spec fn grown(nodes: Seq<Node>) -> Seq<Node> {
    nodes + Seq::new(8, |j: int| Node::empty())
}

/// What taking a block makes of a pool: the block that was freed last is
/// blanked and leaves the free list, or, where none is free, a blank block
/// is added at the end.
pub open spec fn taken(
    nodes: Seq<Node>,
    free: Seq<u32>,
    index: u32,
    after: Seq<Node>,
    free_after: Seq<u32>,
) -> bool {
    if free.len() > 0 {
        index == free.last() && after == blanked(nodes, index as int) && free_after
            == free.drop_last()
    } else {
        index == nodes.len() && after == grown(nodes) && free_after == free
    }
}

/// What giving a block back makes of a pool: the last block of the pool is
/// cut off, any other goes on the free list.
pub open spec fn given(
    nodes: Seq<Node>,
    free: Seq<u32>,
    index: u32,
    after: Seq<Node>,
    free_after: Seq<u32>,
) -> bool {
    if index + 8 == nodes.len() {
        after == nodes.take(index as int) && free_after == free
    } else {
        after == nodes && free_after == free.push(index)
    }
}

/// The placing in which the block at `q` hangs below the node at `i`.
pub open spec fn placed_below(place: Seq<Seq<int>>, i: int, q: int) -> Seq<Seq<int>> {
    Seq::new(place.len(), |j: int| if q <= j < q + 8 { place[i].push(j - q) } else { place[j] })
}

/// Writing a leaf over any node keeps the pool well formed.
pub proof fn lemma_wf_leaf(nodes: Seq<Node>, free: Seq<u32>, place: Seq<Seq<int>>, i: int, node: Node)
    requires
        wf_at(nodes, free, place),
        0 <= i < nodes.len(),
        !node.is_parent(),
    ensures
        wf_at(nodes.update(i, node), free, place),
{
    reveal(wf_at);
    let b = nodes.update(i, node);
    assert forall|p: int| 0 <= p < b.len() && (#[trigger] b[p]).is_parent() implies linked(b, place, p) by {
        assert(nodes[p].is_parent());
        assert(linked(nodes, place, p));
    }
    assert forall|p: int, r: int|
        0 <= p < b.len() && 0 <= r < b.len() && (#[trigger] b[p]).is_parent() && (
        #[trigger] b[r]).is_parent() && b[p].data == b[r].data implies p == r by {
        assert(nodes[p].is_parent() && nodes[r].is_parent());
    }
    assert forall|a: int| 0 <= a < free.len() implies leaf_block(b, #[trigger] free[a] as int) by {
        assert(leaf_block(nodes, free[a] as int));
    }
    assert forall|a: int| 0 <= a < free.len() implies unowned(b, #[trigger] free[a] as int) by {
        assert(unowned(nodes, free[a] as int));
        assert forall|p: int| 0 <= p < b.len() && (#[trigger] b[p]).is_parent() implies b[p].data
            != free[a] by {
            assert(nodes[p].is_parent());
        }
    }
}

/// Making the node at `i` the parent of a block that holds only leaves and
/// that nothing points at keeps the pool well formed, given a level to spare.
pub proof fn lemma_wf_link(nodes: Seq<Node>, free: Seq<u32>, place: Seq<Seq<int>>, i: int, q: u32)
    requires
        wf_at(nodes, free, place),
        0 <= i < nodes.len(),
        block_ok(nodes.len() as int, q as int),
        !(q <= i < q + 8),
        place[i].len() + 1 < levels(),
        unowned(nodes, q as int),
        leaf_block(nodes, q as int),
        forall|a: int| 0 <= a < free.len() ==> #[trigger] free[a] != q && !(free[a] <= i < free[a] + 8),
    ensures
        wf_at(nodes.update(i, Node::parent(q)), free, placed_below(place, i, q as int)),
{
    reveal(wf_at);
    let b = nodes.update(i, Node::parent(q));
    let pl = placed_below(place, i, q as int);
    Node::lemma_flags();
    assert(b[i].is_parent() && !b[i].is_solid());
    assert forall|p: int| 0 <= p < b.len() && (#[trigger] b[p]).is_parent() implies linked(b, pl, p) by {
        if p == i {
            assert forall|j: int| q <= j < q + 8 implies #[trigger] pl[j] == pl[p].push(j - q) by {}
        } else {
            assert(nodes[p].is_parent());
            assert(linked(nodes, place, p));
            let r = nodes[p].data as int;
            assert(r != q);
            assert forall|j: int| r <= j < r + 8 implies #[trigger] pl[j] == pl[p].push(j - r) by {
                assert(place[j] == place[p].push(j - r));
                assert(!(q <= j < q + 8));
                assert(!(q <= p < q + 8)) by {
                    if q <= p < q + 8 {
                        assert(!nodes[p].is_parent());
                    }
                }
            }
        }
    }
    assert forall|p: int, r: int|
        0 <= p < b.len() && 0 <= r < b.len() && (#[trigger] b[p]).is_parent() && (
        #[trigger] b[r]).is_parent() && b[p].data == b[r].data implies p == r by {
        if p != i {
            assert(nodes[p].is_parent());
        }
        if r != i {
            assert(nodes[r].is_parent());
        }
    }
    assert forall|a: int| 0 <= a < free.len() implies leaf_block(b, #[trigger] free[a] as int) by {
        assert(leaf_block(nodes, free[a] as int));
    }
    assert forall|a: int| 0 <= a < free.len() implies unowned(b, #[trigger] free[a] as int) by {
        assert(unowned(nodes, free[a] as int));
        assert forall|p: int| 0 <= p < b.len() && (#[trigger] b[p]).is_parent() implies b[p].data
            != free[a] by {
            if p != i {
                assert(nodes[p].is_parent());
            }
        }
    }
    assert forall|j: int| 0 <= j < b.len() implies (#[trigger] pl[j]).len() < levels() by {
        assert(place[j].len() < levels());
    }
}

/// A blank block added at the end keeps the pool well formed, and nothing
/// points at it.
pub proof fn lemma_wf_grow(nodes: Seq<Node>, free: Seq<u32>, place: Seq<Seq<int>>)
    requires
        wf_at(nodes, free, place),
        nodes.len() + 8 <= u32::MAX,
    ensures
        wf_at(grown(nodes), free, place + Seq::new(8, |j: int| Seq::<int>::empty())),
        unowned(grown(nodes), nodes.len() as int),
        unowned(nodes, nodes.len() as int),
        leaf_block(grown(nodes), nodes.len() as int),
        block_ok(grown(nodes).len() as int, nodes.len() as int),
        forall|a: int| 0 <= a < free.len() ==> #[trigger] free[a] != nodes.len(),
{
    reveal(wf_at);
    let b = grown(nodes);
    let pl = place + Seq::new(8, |j: int| Seq::<int>::empty());
    Node::lemma_flags();
    assert forall|p: int| 0 <= p < b.len() && (#[trigger] b[p]).is_parent() implies linked(b, pl, p) by {
        assert(p < nodes.len());
        assert(nodes[p].is_parent());
        assert(linked(nodes, place, p));
        let r = nodes[p].data as int;
        assert forall|j: int| r <= j < r + 8 implies #[trigger] pl[j] == pl[p].push(j - r) by {
            assert(place[j] == place[p].push(j - r));
        }
    }
    assert forall|p: int, r: int|
        0 <= p < b.len() && 0 <= r < b.len() && (#[trigger] b[p]).is_parent() && (
        #[trigger] b[r]).is_parent() && b[p].data == b[r].data implies p == r by {
        assert(nodes[p].is_parent() && nodes[r].is_parent());
    }
    assert forall|a: int| 0 <= a < free.len() implies leaf_block(b, #[trigger] free[a] as int) by {
        assert(leaf_block(nodes, free[a] as int));
        assert(block_ok(nodes.len() as int, free[a] as int));
        assert forall|j: int| free[a] <= j < free[a] + 8 implies !(#[trigger] b[j]).is_parent() by {
            assert(b[j] == nodes[j]);
        }
    }
    assert forall|a: int| 0 <= a < free.len() implies unowned(b, #[trigger] free[a] as int) by {
        assert(unowned(nodes, free[a] as int));
        assert forall|p: int| 0 <= p < b.len() && (#[trigger] b[p]).is_parent() implies b[p].data
            != free[a] by {
            assert(nodes[p].is_parent());
        }
    }
    assert forall|a: int| 0 <= a < free.len() implies block_ok(b.len() as int, #[trigger] free[a] as int) by {
        assert(block_ok(nodes.len() as int, free[a] as int));
    }
    assert forall|p: int| 0 <= p < b.len() && (#[trigger] b[p]).is_parent() implies b[p].data
        != nodes.len() by {
        assert(nodes[p].is_parent());
        assert(linked(nodes, place, p));
    }
    assert forall|j: int| 0 <= j < b.len() implies (#[trigger] pl[j]).len() < levels() by {
        if j < nodes.len() {
            assert(place[j].len() < levels());
        }
    }
}

/// Taking the last block off the free list and blanking it keeps the pool
/// well formed, and nothing points at the block.
pub proof fn lemma_wf_reuse(nodes: Seq<Node>, free: Seq<u32>, place: Seq<Seq<int>>)
    requires
        wf_at(nodes, free, place),
        free.len() > 0,
    ensures
        wf_at(blanked(nodes, free.last() as int), free.drop_last(), place),
        unowned(blanked(nodes, free.last() as int), free.last() as int),
        unowned(nodes, free.last() as int),
        leaf_block(blanked(nodes, free.last() as int), free.last() as int),
        block_ok(nodes.len() as int, free.last() as int),
        forall|a: int| 0 <= a < free.len() - 1 ==> #[trigger] free[a] != free.last(),
{
    reveal(wf_at);
    let q = free.last() as int;
    let b = blanked(nodes, q);
    let fr = free.drop_last();
    Node::lemma_flags();
    assert(leaf_block(nodes, free[free.len() - 1] as int));
    assert(unowned(nodes, free[free.len() - 1] as int));
    assert(block_ok(nodes.len() as int, free[free.len() - 1] as int));
    assert forall|p: int| 0 <= p < b.len() && (#[trigger] b[p]).is_parent() implies nodes[p].is_parent()
        && b[p] == nodes[p] && !(q <= p < q + 8) by {}
    assert forall|p: int| 0 <= p < b.len() && (#[trigger] b[p]).is_parent() implies linked(b, place, p) by {
        assert(nodes[p].is_parent());
        assert(linked(nodes, place, p));
    }
    assert forall|p: int, r: int|
        0 <= p < b.len() && 0 <= r < b.len() && (#[trigger] b[p]).is_parent() && (
        #[trigger] b[r]).is_parent() && b[p].data == b[r].data implies p == r by {
        assert(nodes[p].is_parent() && nodes[r].is_parent());
    }
    assert forall|a: int| 0 <= a < fr.len() implies leaf_block(b, #[trigger] fr[a] as int) by {
        assert(leaf_block(nodes, free[a] as int));
    }
    assert forall|a: int| 0 <= a < fr.len() implies unowned(b, #[trigger] fr[a] as int) by {
        assert(unowned(nodes, free[a] as int));
        assert forall|p: int| 0 <= p < b.len() && (#[trigger] b[p]).is_parent() implies b[p].data
            != fr[a] by {
            assert(nodes[p].is_parent());
        }
    }
    assert forall|a: int| 0 <= a < fr.len() implies block_ok(b.len() as int, #[trigger] fr[a] as int) by {
        assert(block_ok(nodes.len() as int, free[a] as int));
    }
    assert forall|a: int, c: int| 0 <= a < c < fr.len() implies #[trigger] fr[a] != #[trigger] fr[c] by {
        assert(free[a] != free[c]);
    }
    assert forall|p: int| 0 <= p < b.len() && (#[trigger] b[p]).is_parent() implies b[p].data != q by {
        assert(nodes[p].is_parent());
    }
}

/// Putting on the free list a block of leaves that nothing points at keeps
/// the pool well formed.
pub proof fn lemma_wf_release(nodes: Seq<Node>, free: Seq<u32>, place: Seq<Seq<int>>, q: u32)
    requires
        wf_at(nodes, free, place),
        block_ok(nodes.len() as int, q as int),
        unowned(nodes, q as int),
        leaf_block(nodes, q as int),
        forall|a: int| 0 <= a < free.len() ==> #[trigger] free[a] != q,
    ensures
        wf_at(nodes, free.push(q), place),
{
    reveal(wf_at);
    let fr = free.push(q);
    assert forall|a: int| 0 <= a < fr.len() implies block_ok(nodes.len() as int, #[trigger] fr[a] as int)
        && leaf_block(nodes, fr[a] as int) && unowned(nodes, fr[a] as int) by {
        if a < free.len() {
            assert(block_ok(nodes.len() as int, free[a] as int));
            assert(leaf_block(nodes, free[a] as int));
            assert(unowned(nodes, free[a] as int));
        }
    }
    assert forall|a: int, c: int| 0 <= a < c < fr.len() implies #[trigger] fr[a] != #[trigger] fr[c] by {
        if c < free.len() {
            assert(free[a] != free[c]);
        } else {
            assert(free[a] != q);
        }
    }
}

/// Cutting off the last block, when nothing points at it, keeps the pool
/// well formed.
pub proof fn lemma_wf_cut(nodes: Seq<Node>, free: Seq<u32>, place: Seq<Seq<int>>, q: u32)
    requires
        wf_at(nodes, free, place),
        q + 8 == nodes.len(),
        block_ok(nodes.len() as int, q as int),
        unowned(nodes, q as int),
        forall|a: int| 0 <= a < free.len() ==> #[trigger] free[a] != q,
    ensures
        wf_at(nodes.take(q as int), free, place.take(q as int)),
{
    reveal(wf_at);
    let b = nodes.take(q as int);
    let pl = place.take(q as int);
    assert forall|p: int| 0 <= p < b.len() && (#[trigger] b[p]).is_parent() implies linked(b, pl, p) by {
        assert(nodes[p].is_parent());
        assert(linked(nodes, place, p));
        let r = nodes[p].data as int;
        assert(r != q);
        assert forall|j: int| r <= j < r + 8 implies #[trigger] pl[j] == pl[p].push(j - r) by {
            assert(place[j] == place[p].push(j - r));
        }
    }
    assert forall|p: int, r: int|
        0 <= p < b.len() && 0 <= r < b.len() && (#[trigger] b[p]).is_parent() && (
        #[trigger] b[r]).is_parent() && b[p].data == b[r].data implies p == r by {
        assert(nodes[p].is_parent() && nodes[r].is_parent());
    }
    assert forall|a: int| 0 <= a < free.len() implies block_ok(b.len() as int, #[trigger] free[a] as int)
        && leaf_block(b, free[a] as int) && unowned(b, free[a] as int) by {
        assert(block_ok(nodes.len() as int, free[a] as int));
        assert(leaf_block(nodes, free[a] as int));
        assert(unowned(nodes, free[a] as int));
        assert forall|j: int| free[a] <= j < free[a] + 8 implies !(#[trigger] b[j]).is_parent() by {
            assert(b[j] == nodes[j]);
        }
        assert forall|p: int| 0 <= p < b.len() && (#[trigger] b[p]).is_parent() implies b[p].data
            != free[a] by {
            assert(nodes[p].is_parent());
        }
    }
    assert forall|j: int| 0 <= j < b.len() implies (#[trigger] pl[j]).len() < levels() by {
        assert(place[j].len() < levels());
    }
}

/// A removal walks on through this tree: it is neither an empty leaf nor an
/// interior node whose children are all empty.
pub open spec fn passable(t: Tree) -> bool {
    match t {
        Tree::Leaf(n) => !n.is_empty(),
        Tree::Parent(kids) => !Tree::all_empty(kids),
    }
}

/// A removal along `cell` walks on at each of the first `d` levels of `base`.
pub open spec fn passes(base: Tree, cell: Seq<int>, d: int) -> bool {
    forall|j: int| 0 <= j < d ==> passable(base.at(#[trigger] cell.take(j)))
}

/// What the path's node at level `d - 1` holds, given what hangs beside the
/// path and what was reached at level `d`.
pub proof fn lemma_path_parent(nodes: Seq<Node>, cell: Seq<int>, idx: Seq<int>, base: Tree, d: int)
    requires
        cell_ok(cell),
        0 < d,
        on_path(nodes, cell, idx, d),
        sides(nodes, cell, idx, base, d),
        base.shaped(levels()),
        d < levels(),
    ensures
        base.at(cell.take(d - 1)).kids().len() == 8,
        base.at(cell.take(d - 1)).kids()[cell[d - 1]] == base.at(cell.take(d)),
        cell.skip(d - 1).len() > 0,
        cell.skip(d - 1)[0] == cell[d - 1],
        cell.skip(d - 1).drop_first() == cell.skip(d),
        subtree(nodes, idx[d - 1], (levels() - (d - 1)) as nat) == Tree::Parent(
            base.at(cell.take(d - 1)).kids().update(
                cell[d - 1],
                subtree(nodes, idx[d], (levels() - d) as nat),
            ),
        ),
        on_path(nodes, cell, idx.take(d), d - 1),
        sides(nodes, cell, idx.take(d), base, d - 1),
{
    let j = d - 1;
    let p = idx[j];
    let q = nodes[p].data as int;
    let c0 = cell[j];
    let b = base.at(cell.take(j));
    assert(cell_ok(cell.take(j)));
    lemma_at_push(base, cell.take(j), c0);
    assert(cell.take(j).push(c0) =~= cell.take(d));
    lemma_at_kids(base, levels(), cell.take(j));
    assert(cell.skip(j).drop_first() =~= cell.skip(d));
    let x = subtree(nodes, p, (levels() - j) as nat);
    assert(nodes[p].is_parent());
    let want = b.kids().update(c0, subtree(nodes, idx[d], (levels() - d) as nat));
    assert forall|k: int| 0 <= k < 8 implies #[trigger] x->Parent_0[k] == want[k] by {
        if k != c0 {
            assert(side(nodes, idx, j, k) == b.kids()[k]);
        }
    }
    assert(x->Parent_0 =~= want);
    let shorter = idx.take(d);
    assert forall|jj: int, k: int|
        0 <= jj < j && 0 <= k < 8 && k != cell[jj] implies #[trigger] side(nodes, shorter, jj, k)
        == base.at(cell.take(jj)).kids()[k] by {
        assert(side(nodes, idx, jj, k) == side(nodes, shorter, jj, k));
    }
    assert forall|jj: int| 0 <= jj < j implies nodes[#[trigger] shorter[jj]].is_parent()
        && shorter[jj + 1] == nodes[shorter[jj]].data + cell[jj] by {
        assert(shorter[jj] == idx[jj]);
    }
    assert forall|jj: int| 0 <= jj <= j implies 0 <= #[trigger] shorter[jj] < nodes.len() by {
        assert(shorter[jj] == idx[jj]);
    }
}

/// Once the walk back up has met a node that does not collapse, the pool
/// holds the tree that the write asks for.
pub proof fn lemma_lift_set(
    nodes: Seq<Node>,
    cell: Seq<int>,
    idx: Seq<int>,
    base: Tree,
    d: int,
    node: Node,
)
    requires
        cell_ok(cell),
        d < levels(),
        on_path(nodes, cell, idx, d),
        sides(nodes, cell, idx, base, d),
        base.shaped(levels()),
        subtree(nodes, idx[d], (levels() - d) as nat) == base.at(cell.take(d)).set(
            cell.skip(d),
            node,
        ),
        d == 0 || subtree(nodes, idx[d], (levels() - d) as nat) is Parent,
    ensures
        tree_of(nodes) == base.set(cell, node),
    decreases d,
{
    if d == 0 {
        assert(cell.take(0) =~= Seq::<int>::empty());
        assert(cell.skip(0) =~= cell);
    } else {
        lemma_path_parent(nodes, cell, idx, base, d);
        let j = d - 1;
        let b = base.at(cell.take(j));
        let below = subtree(nodes, idx[d], (levels() - d) as nat);
        let kids = b.kids().update(cell[j], below);
        assert(kids[cell[j]] == below);
        assert(!Tree::all_leaves(kids, node));
        assert(b.set(cell.skip(j), node) == Tree::Parent(kids));
        lemma_lift_set(nodes, cell, idx.take(d), base, j, node);
    }
}

/// Once the walk back up of a removal has met a node that does not
/// collapse, having walked on through every level above on the way down, the
/// pool holds the tree that the removal asks for.
pub proof fn lemma_lift_remove(nodes: Seq<Node>, cell: Seq<int>, idx: Seq<int>, base: Tree, d: int)
    requires
        cell_ok(cell),
        d < levels(),
        on_path(nodes, cell, idx, d),
        sides(nodes, cell, idx, base, d),
        passes(base, cell, d),
        base.shaped(levels()),
        subtree(nodes, idx[d], (levels() - d) as nat) == base.at(cell.take(d)).remove(cell.skip(d)),
        d == 0 || subtree(nodes, idx[d], (levels() - d) as nat) is Parent,
    ensures
        tree_of(nodes) == base.remove(cell),
    decreases d,
{
    if d == 0 {
        assert(cell.take(0) =~= Seq::<int>::empty());
        assert(cell.skip(0) =~= cell);
    } else {
        lemma_path_parent(nodes, cell, idx, base, d);
        let j = d - 1;
        let b = base.at(cell.take(j));
        assert(passable(base.at(cell.take(j))));
        let below = subtree(nodes, idx[d], (levels() - d) as nat);
        let kids = b.kids().update(cell[j], below);
        assert(kids[cell[j]] == below);
        assert(!Tree::all_empty(kids));
        assert(b.remove(cell.skip(j)) == Tree::Parent(kids));
        assert(passes(base, cell, j));
        lemma_lift_remove(nodes, cell, idx.take(d), base, j);
    }
}

/// Two pools that differ only inside a block that nothing points at differ
/// nowhere that matters to a walk.
pub proof fn lemma_block_differ(
    a: Seq<Node>,
    free: Seq<u32>,
    place: Seq<Seq<int>>,
    b: Seq<Node>,
    q: int,
    spot: int,
)
    requires
        wf_at(a, free, place),
        1 <= q,
        (q - 1) % 8 == 0,
        unowned(a, q),
        forall|w: int| 0 <= w < a.len() && !(q <= w < q + 8) ==> #[trigger] same_at(a, b, w),
    ensures
        differ_only(a, b, spot),
{
    reveal(wf_at);
    assert forall|w: int| 0 <= w < a.len() && !#[trigger] same_at(a, b, w) implies w == spot || (w
        != 0 && !owned(a, w)) by {
        if owned(a, w) {
            let p = choose|p: int|
                0 <= p < a.len() && (#[trigger] a[p]).is_parent() && a[p].data <= w < a[p].data + 8;
            assert(linked(a, place, p));
            assert(a[p].data == q);
        }
    }
}

/// Writes at the end of the walk, or outside every block in use, leave the
/// walk itself as it was.
pub proof fn lemma_path_kept(
    a: Seq<Node>,
    free: Seq<u32>,
    place: Seq<Seq<int>>,
    b: Seq<Node>,
    cell: Seq<int>,
    idx: Seq<int>,
    base: Tree,
    d: int,
)
    requires
        wf_at(a, free, place),
        cell_ok(cell),
        on_path(a, cell, idx, d),
        sides(a, cell, idx, base, d),
        differ_only(a, b, idx[d]),
        idx[d] < b.len(),
    ensures
        on_path(b, cell, idx, d),
        sides(b, cell, idx, base, d),
{
    lemma_sides_kept(a, free, place, b, cell, idx, base, d);
    assert forall|j: int| 0 <= j < d implies b[#[trigger] idx[j]].is_parent() && idx[j + 1]
        == b[idx[j]].data + cell[j] by {
        assert(same_at(a, b, idx[j]));
    }
    assert forall|j: int| 0 <= j <= d implies 0 <= #[trigger] idx[j] < b.len() by {
        if j < d {
            assert(same_at(a, b, idx[j]));
        }
    }
}

/// The placing after a block was taken: as before when a free block is used
/// again, or with places for the new block when the pool grew.
pub open spec fn taken_place(place: Seq<Seq<int>>, reuse: bool) -> Seq<Seq<int>> {
    if reuse {
        place
    } else {
        place + Seq::new(8, |j: int| Seq::<int>::empty())
    }
}

/// The block at `q` is in the pool but not in use: nothing points at it, it
/// holds no interior node, it is not on the free list, and the node at `at`
/// is not in it.
pub open spec fn spare_block(nodes: Seq<Node>, free: Seq<u32>, q: int, at: int) -> bool {
    &&& block_ok(nodes.len() as int, q)
    &&& unowned(nodes, q)
    &&& leaf_block(nodes, q)
    &&& !(q <= at < q + 8)
    &&& forall|a: int| 0 <= a < free.len() ==> #[trigger] free[a] != q
}

/// Taking a block, from the free list or at the end, leaves a well-formed pool
/// with the walk and what hangs beside it as they were, and the block spare.
pub proof fn lemma_take_block(
    n0: Seq<Node>,
    f0: Seq<u32>,
    place0: Seq<Seq<int>>,
    n1: Seq<Node>,
    f1: Seq<u32>,
    q: u32,
    cell: Seq<int>,
    idx: Seq<int>,
    base: Tree,
    d: int,
)
    requires
        wf_at(n0, f0, place0),
        cell_ok(cell),
        on_path(n0, cell, idx, d),
        sides(n0, cell, idx, base, d),
        f0.len() > 0 ==> q == f0.last() && n1 == blanked(n0, q as int) && f1 == f0.drop_last(),
        f0.len() == 0 ==> q == n0.len() && n1 == grown(n0) && f1 == f0 && n0.len() + 8 <= u32::MAX,
    ensures
        wf_at(n1, f1, taken_place(place0, f0.len() > 0)),
        on_path(n1, cell, idx, d),
        sides(n1, cell, idx, base, d),
        spare_block(n1, f1, q as int, idx[d]),
        n0.len() <= n1.len() <= n0.len() + 8,
        forall|j: int| q <= j < q + 8 ==> #[trigger] n1[j] == Node::empty(),
{
    let at = idx[d];
    lemma_path_place(n0, f0, place0, cell, idx, d, d);
    if f0.len() > 0 {
        lemma_wf_reuse(n0, f0, place0);
    } else {
        lemma_wf_grow(n0, f0, place0);
    }
    lemma_block_differ(n0, f0, place0, n1, q as int, at);
    lemma_outside_block(n0, f0, place0, q as int, at);
    lemma_path_kept(n0, f0, place0, n1, cell, idx, base, d);
}

/// A node that is the root or lies in a block in use does not lie in a block
/// that nothing points at.
pub proof fn lemma_outside_block(nodes: Seq<Node>, free: Seq<u32>, place: Seq<Seq<int>>, q: int, at: int)
    requires
        wf_at(nodes, free, place),
        1 <= q,
        (q - 1) % 8 == 0,
        unowned(nodes, q),
        at == 0 || owned(nodes, at),
    ensures
        !(q <= at < q + 8),
{
    reveal(wf_at);
    if owned(nodes, at) {
        let p = choose|p: int|
            0 <= p < nodes.len() && (#[trigger] nodes[p]).is_parent() && nodes[p].data <= at
                < nodes[p].data + 8;
        assert(linked(nodes, place, p));
    }
}

/// Writing leaves into a spare block leaves the walk and what hangs beside it
/// as they were, and the block spare.
pub proof fn lemma_fill_block(
    n1: Seq<Node>,
    f1: Seq<u32>,
    place1: Seq<Seq<int>>,
    n2: Seq<Node>,
    q: u32,
    cell: Seq<int>,
    idx: Seq<int>,
    base: Tree,
    d: int,
)
    requires
        wf_at(n1, f1, place1),
        cell_ok(cell),
        on_path(n1, cell, idx, d),
        sides(n1, cell, idx, base, d),
        spare_block(n1, f1, q as int, idx[d]),
        n2.len() == n1.len(),
        forall|j: int| 0 <= j < n1.len() && !(q <= j < q + 8) ==> #[trigger] n2[j] == n1[j],
        forall|j: int| q <= j < q + 8 ==> !(#[trigger] n2[j]).is_parent(),
    ensures
        on_path(n2, cell, idx, d),
        sides(n2, cell, idx, base, d),
        spare_block(n2, f1, q as int, idx[d]),
{
    assert forall|p: int| 0 <= p < n2.len() && (#[trigger] n2[p]).is_parent() implies n2[p].data
        != q by {
        assert(n2[p] == n1[p]);
    }
    lemma_block_differ(n1, f1, place1, n2, q as int, idx[d]);
    lemma_path_kept(n1, f1, place1, n2, cell, idx, base, d);
}

/// A block on the free list lies in the pool and nothing points at it.
pub proof fn lemma_free_block(nodes: Seq<Node>, free: Seq<u32>, place: Seq<Seq<int>>, a: int)
    requires
        wf_at(nodes, free, place),
        0 <= a < free.len(),
    ensures
        block_ok(nodes.len() as int, free[a] as int),
        unowned(nodes, free[a] as int),
        leaf_block(nodes, free[a] as int),
{
    reveal(wf_at);
}

/// Hanging a spare block of leaves below the node at the end of the walk
/// leaves a well-formed pool, with the walk and what hangs beside it as they
/// were.
pub proof fn lemma_link_block(
    n2: Seq<Node>,
    f1: Seq<u32>,
    place1: Seq<Seq<int>>,
    q: u32,
    cell: Seq<int>,
    idx: Seq<int>,
    base: Tree,
    d: int,
)
    requires
        wf_at(n2, f1, place1),
        cell_ok(cell),
        on_path(n2, cell, idx, d),
        sides(n2, cell, idx, base, d),
        spare_block(n2, f1, q as int, idx[d]),
        d + 1 < levels(),
    ensures
        wf_at(n2.update(idx[d], Node::parent(q)), f1, placed_below(place1, idx[d], q as int)),
        on_path(n2.update(idx[d], Node::parent(q)), cell, idx, d),
        sides(n2.update(idx[d], Node::parent(q)), cell, idx, base, d),
{
    let at = idx[d];
    let n3 = n2.update(at, Node::parent(q));
    lemma_path_place(n2, f1, place1, cell, idx, d, d);
    assert forall|a: int| 0 <= a < f1.len() implies #[trigger] f1[a] != q && !(f1[a] <= at < f1[a] + 8) by {
        lemma_free_block(n2, f1, place1, a);
        lemma_outside_block(n2, f1, place1, f1[a] as int, at);
    }
    lemma_wf_link(n2, f1, place1, at, q);
    assert forall|w: int| 0 <= w < n2.len() && !#[trigger] same_at(n2, n3, w) implies w == at || (w
        != 0 && !owned(n2, w)) by {}
    lemma_path_kept(n2, f1, place1, n3, cell, idx, base, d);
}

/// The tree of a well-formed pool has the shape of a tree.
pub proof fn lemma_shaped_root(nodes: Seq<Node>, free: Seq<u32>, place: Seq<Seq<int>>)
    requires
        wf_at(nodes, free, place),
    ensures
        tree_of(nodes).shaped(levels()),
{
    reveal(wf_at);
    lemma_shaped(nodes, free, place, 0, levels());
}

/// A node that was just split holds eight copies of what the leaf hands down.
pub proof fn lemma_split_tree(nodes: Seq<Node>, at: int, cur: Node, fuel: nat)
    requires
        fuel >= 2,
        nodes[at].is_parent(),
        !cur.is_parent(),
        forall|j: int|
            nodes[at].data <= j < nodes[at].data + 8 ==> #[trigger] nodes[j] == Tree::split_leaf(cur),
    ensures
        subtree(nodes, at, fuel) == Tree::Parent(Tree::Leaf(cur).kids()),
{
    Node::lemma_flags();
    let q = nodes[at].data as int;
    let have = subtree(nodes, at, fuel)->Parent_0;
    let want = Tree::Leaf(cur).kids();
    assert forall|k: int| 0 <= k < 8 implies #[trigger] have[k] == want[k] by {
        assert(nodes[q + k] == Tree::split_leaf(cur));
        assert(subtree(nodes, q + k, (fuel - 1) as nat) == Tree::Leaf(nodes[q + k]));
    }
    assert(have =~= want);
}

/// Taking a block, from the free list or at the end, leaves the pool well
/// formed and its tree as it was.
pub proof fn lemma_block_taken(nodes: Seq<Node>, free: Seq<u32>, place: Seq<Seq<int>>)
    requires
        wf_at(nodes, free, place),
        free.len() == 0 ==> nodes.len() + 8 <= u32::MAX,
    ensures
        free.len() > 0 ==> block_ok(nodes.len() as int, free.last() as int) && wf(
            blanked(nodes, free.last() as int),
            free.drop_last(),
        ) && tree_of(blanked(nodes, free.last() as int)) == tree_of(nodes),
        free.len() == 0 ==> wf(grown(nodes), free) && tree_of(grown(nodes)) == tree_of(nodes),
{
    if free.len() > 0 {
        let q = free.last() as int;
        lemma_wf_reuse(nodes, free, place);
        lemma_block_differ(nodes, free, place, blanked(nodes, q), q, -1);
        lemma_tree_kept(nodes, free, place, blanked(nodes, q));
    } else {
        lemma_wf_grow(nodes, free, place);
        lemma_wf_len(nodes, free);
        lemma_block_differ(nodes, free, place, grown(nodes), nodes.len() as int, -1);
        lemma_tree_kept(nodes, free, place, grown(nodes));
    }
}

/// Giving back a block of leaves that nothing points at leaves the pool well
/// formed and its tree as it was.
pub proof fn lemma_block_given(nodes: Seq<Node>, free: Seq<u32>, place: Seq<Seq<int>>, q: u32)
    requires
        wf_at(nodes, free, place),
        block_ok(nodes.len() as int, q as int),
        unowned(nodes, q as int),
        leaf_block(nodes, q as int),
        forall|a: int| 0 <= a < free.len() ==> #[trigger] free[a] != q,
    ensures
        q + 8 == nodes.len() ==> wf(nodes.take(q as int), free) && tree_of(nodes.take(q as int))
            == tree_of(nodes),
        q + 8 != nodes.len() ==> wf(nodes, free.push(q)),
{
    if q + 8 == nodes.len() {
        lemma_wf_cut(nodes, free, place, q);
        lemma_block_differ(nodes, free, place, nodes.take(q as int), q as int, -1);
        lemma_tree_kept(nodes, free, place, nodes.take(q as int));
    } else {
        lemma_wf_release(nodes, free, place, q);
    }
}

/// The tree below a node at level `l` has no leaf more than `32 - l` levels
/// further down.
pub proof fn lemma_shaped_tight(nodes: Seq<Node>, free: Seq<u32>, place: Seq<Seq<int>>, i: int, fuel: nat)
    requires
        wf_at(nodes, free, place),
        0 <= i < nodes.len(),
        fuel + place[i].len() >= levels(),
    ensures
        place[i].len() < levels(),
        subtree(nodes, i, fuel).shaped((levels() - 1 - place[i].len()) as nat),
    decreases fuel,
{
    reveal(wf_at);
    if fuel == 0 || !nodes[i].is_parent() {
    } else {
        assert(linked(nodes, place, i));
        let q = nodes[i].data as int;
        let kids = subtree(nodes, i, fuel)->Parent_0;
        assert(place[q] == place[i].push(q - q));
        assert forall|k: int| 0 <= k < 8 implies (#[trigger] kids[k]).shaped(
            (levels() - 2 - place[i].len()) as nat,
        ) by {
            assert(place[q + k] == place[i].push(q + k - q));
            lemma_shaped_tight(nodes, free, place, q + k, (fuel - 1) as nat);
        }
    }
}

/// The tree of a well-formed pool is at most 32 levels deep.
pub proof fn lemma_tree_height(nodes: Seq<Node>, free: Seq<u32>)
    requires
        wf(nodes, free),
    ensures
        tree_of(nodes).shaped(32),
{
    let place = choose|place: Seq<Seq<int>>| wf_at(nodes, free, place);
    assert(place[0].len() == 0) by {
        reveal(wf_at);
    }
    lemma_wf_len(nodes, free);
    lemma_shaped_tight(nodes, free, place, 0, levels());
}

/// A node in the block of an interior node stands one step below it.
pub proof fn lemma_child_place(nodes: Seq<Node>, free: Seq<u32>, place: Seq<Seq<int>>, p: int, j: int)
    requires
        wf_at(nodes, free, place),
        0 <= p < nodes.len(),
        nodes[p].is_parent(),
        nodes[p].data <= j < nodes[p].data + 8,
    ensures
        place[j].len() == place[p].len() + 1,
{
    reveal(wf_at);
    assert(linked(nodes, place, p));
    assert(place[j] == place[p].push(j - nodes[p].data));
}

/// No block is on the free list twice.
pub proof fn lemma_free_distinct(nodes: Seq<Node>, free: Seq<u32>, place: Seq<Seq<int>>, a: int, b: int)
    requires
        wf_at(nodes, free, place),
        0 <= a < free.len(),
        0 <= b < free.len(),
        a != b,
    ensures
        free[a] != free[b],
{
    reveal(wf_at);
    if a < b {
        assert(free[a] != free[b]);
    } else {
        assert(free[b] != free[a]);
    }
}

/// An interior node at the end of a walk of `d` steps stands above the last
/// level: the walk can go on.
pub proof fn lemma_wf_parent_level(nodes: Seq<Node>, free: Seq<u32>, cell: Seq<int>, idx: Seq<int>, d: int)
    requires
        wf(nodes, free),
        cell_ok(cell),
        on_path(nodes, cell, idx, d),
        nodes[idx[d]].is_parent(),
    ensures
        d + 1 < levels(),
{
    let place = choose|place: Seq<Seq<int>>| wf_at(nodes, free, place);
    lemma_path_place(nodes, free, place, cell, idx, d, d);
    lemma_wf_parent(nodes, free, idx[d]);
    lemma_child_place(nodes, free, place, idx[d], nodes[idx[d]].data as int);
    reveal(wf_at);
}

/// A walk from the root along the cell of an edit ends where the edit's own
/// walk ends.
pub proof fn lemma_path_walk(nodes: Seq<Node>, cell: Seq<int>, idx: Seq<int>, d: int, j: int)
    requires
        d == cell.len(),
        on_path(nodes, cell, idx, d),
        0 <= j <= d,
    ensures
        walk(nodes, idx[j], cell.skip(j)) == idx[d],
    decreases d - j,
{
    if j < d {
        lemma_path_walk(nodes, cell, idx, d, j + 1);
        assert(cell.skip(j).drop_first() =~= cell.skip(j + 1));
        assert(cell.skip(j)[0] == cell[j]);
        assert(nodes[idx[j]].is_parent());
    }
}

} // verus!
