//! The octree pool: an array of nodes with the root in front, blocks of
//! eight children behind it, and a list of the blocks that are free.

use crate::branch::{Branch, MAX_DEPTH};
use crate::edit::{remove_in, set_in};
use crate::laws::{lemma_leaves_get, lemma_remove_coalesced, lemma_remove_tidy, lemma_set_coalesced, lemma_set_tidy};
use crate::layout::{cleared, pool_remove, pool_set, settled};
use crate::node::Node;
use crate::pool::{
    blanked, block_ok, cell_ok, given, leaf_block, lemma_block_given, lemma_block_taken,
    lemma_child_place, lemma_free_block, lemma_free_distinct, lemma_tree_height, lemma_walk,
    lemma_wf_len, lemma_wf_parent, levels, subtree, taken, tree_of, unowned, walk, wf, wf_at,
};
use crate::tree::{stable, Tree};
use vstd::prelude::*;

verus! {

/// What the edits need of a pool: reading and writing a node, taking a block
/// and giving one back. An implementor may keep a record of the places it
/// wrote to; `dirty` says which places that record covers.
pub trait NodePool: Sized {
    /// The nodes of the pool.
    spec fn nodes(&self) -> Seq<Node>;

    /// The blocks that are free for reuse.
    spec fn free(&self) -> Seq<u32>;

    /// What the implementor keeps in order besides the pool.
    spec fn record_ok(&self) -> bool;

    /// The places that the record of writes covers.
    spec fn dirty(&self) -> Set<int>;

    /// The record of writes names no place beyond the pool.
    spec fn in_bounds(&self) -> bool;

    /// The node at `index`.
    fn node(&self, index: u32) -> (node: Node)
        requires
            index < self.nodes().len(),
        ensures
            node == self.nodes()[index as int],
    ;

    /// The number of nodes of the pool.
    fn len_nodes(&self) -> (len: u32)
        requires
            self.nodes().len() <= u32::MAX,
        ensures
            len == self.nodes().len(),
    ;

    /// Writes `node` at `index`, and records the place whether or not the
    /// node there has changed.
    fn put(&mut self, index: u32, node: Node)
        requires
            index < old(self).nodes().len(),
            old(self).nodes().len() <= u32::MAX,
            old(self).record_ok(),
        ensures
            final(self).nodes() == old(self).nodes().update(index as int, node),
            final(self).free() == old(self).free(),
            final(self).record_ok(),
            final(self).dirty().contains(index as int),
            old(self).in_bounds() ==> final(self).in_bounds(),
            tracks(old(self).nodes(), old(self).dirty(), final(self).nodes(), final(self).dirty()),
    ;

    /// Hands out a blank block: the one freed last, or a new one at the end.
    fn push_branch(&mut self) -> (index: u32)
        requires
            wf(old(self).nodes(), old(self).free()),
            old(self).record_ok(),
            old(self).free().len() == 0 ==> old(self).nodes().len() + 8 <= u32::MAX,
        ensures
            taken(old(self).nodes(), old(self).free(), index, final(self).nodes(), final(self).free()),
            final(self).record_ok(),
            old(self).in_bounds() ==> final(self).in_bounds(),
            tracks(old(self).nodes(), old(self).dirty(), final(self).nodes(), final(self).dirty()),
    ;

    /// Takes a block back: the last block of the pool is cut off, any other
    /// goes on the free list.
    fn remove_branch(&mut self, index: u32)
        requires
            wf(old(self).nodes(), old(self).free()),
            old(self).record_ok(),
            block_ok(old(self).nodes().len() as int, index as int),
            unowned(old(self).nodes(), index as int),
            leaf_block(old(self).nodes(), index as int),
            forall|a: int| 0 <= a < old(self).free().len() ==> #[trigger] old(self).free()[a] != index,
        ensures
            given(old(self).nodes(), old(self).free(), index, final(self).nodes(), final(self).free()),
            final(self).record_ok(),
            old(self).in_bounds() ==> final(self).in_bounds(),
            tracks(old(self).nodes(), old(self).dirty(), final(self).nodes(), final(self).dirty()),
    ;
}

/// Every node of the later pool that is new, or differs from the one the
/// earlier pool had in its place, or was covered already, is covered by the
/// later record.
pub open spec fn tracks(
    before: Seq<Node>,
    covered: Set<int>,
    after: Seq<Node>,
    record: Set<int>,
) -> bool {
    forall|i: int|
        0 <= i < after.len() && (i >= before.len() || after[i] != before[i] || covered.contains(i))
            ==> #[trigger] record.contains(i)
}

/// What holds from one state to the next, and from there to a third, holds
/// from the first to the third.
pub proof fn lemma_tracks_trans(
    a: Seq<Node>,
    da: Set<int>,
    b: Seq<Node>,
    db: Set<int>,
    c: Seq<Node>,
    dc: Set<int>,
)
    requires
        tracks(a, da, b, db),
        tracks(b, db, c, dc),
    ensures
        tracks(a, da, c, dc),
{
    assert forall|i: int|
        0 <= i < c.len() && (i >= a.len() || c[i] != a[i] || da.contains(i)) implies #[trigger] dc.contains(
        i,
    ) by {
        if i < b.len() && c[i] == b[i] {
            assert(db.contains(i));
        }
    }
}

/// A sparse voxel octree in a flat pool. `nodes[0]` is the root; an interior
/// node points at the first of its eight children, which lie side by side.
#[derive(Clone, Debug)]
pub struct Octree {
    pub nodes: Vec<Node>,
    pub free_branches: Vec<u32>,
}

impl View for Octree {
    type V = Tree;

    /// The tree that the pool holds.
    open spec fn view(&self) -> Tree {
        tree_of(self.nodes@)
    }
}

impl Octree {
    /// The pool obeys its rules: pointers lead to blocks inside the pool, no
    /// block has two parents or lies on a cycle, nothing is deeper than 32
    /// levels, and the free list names unused blocks, each once.
    pub open spec fn wf(&self) -> bool {
        wf(self.nodes@, self.free_branches@)
    }

    /// A pool that holds one empty leaf.
    pub fn new() -> (octree: Octree)
        ensures
            octree.wf(),
            octree.nodes@ == seq![Node::empty()],
            octree.free_branches@ == Seq::<u32>::empty(),
            octree@ == Tree::Leaf(Node::empty()),
            octree@.tidy(),
            octree@.is_void(),
            octree@.coalesced(),
    {
        let mut nodes = Vec::new();
        nodes.push(Node::empty());
        let octree = Octree { nodes, free_branches: Vec::new() };
        proof {
            Node::lemma_flags();
            assert(octree.nodes@ =~= seq![Node::empty()]);
            let place = seq![Seq::<int>::empty()];
            reveal(wf_at);
            assert(wf_at(octree.nodes@, octree.free_branches@, place));
        }
        octree
    }

    /// The index of the root.
    pub fn root(&self) -> (index: u32)
        ensures
            index == 0,
    {
        0
    }

    /// The number of nodes in the pool, free blocks included.
    pub fn len(&self) -> (len: u32)
        requires
            self.nodes.len() <= u32::MAX,
        ensures
            len == self.nodes.len(),
    {
        self.nodes.len() as u32
    }

    /// The size of the pool in bytes.
    pub fn size(&self) -> (size: usize)
        requires
            self.nodes.len() * 8 <= usize::MAX,
        ensures
            size == self.nodes.len() * 8,
    {
        self.nodes.len() * 8
    }

    /// Appends nodes as they are and returns the index of the first.
    pub fn extend(&mut self, nodes: &[Node]) -> (index: u32)
        requires
            old(self).nodes.len() <= u32::MAX,
        ensures
            index == old(self).nodes.len(),
            final(self).nodes@ == old(self).nodes@ + nodes@,
            final(self).free_branches@ == old(self).free_branches@,
    {
        let index = self.nodes.len() as u32;
        self.nodes.extend_from_slice(nodes);
        index
    }
}

impl Octree {
    /// The leaf that covers the cube at `branch`, or `None` where the cube is
    /// subdivided further.
    pub fn get(&self, branch: Branch) -> (leaf: Option<Node>)
        requires
            self.wf(),
            branch.depth <= MAX_DEPTH,
        ensures
            leaf == self@.get(branch.cell()),
    {
        let ghost cell = branch.cell();
        proof {
            lemma_wf_len(self.nodes@, self.free_branches@);
            assert(cell.skip(0) =~= cell);
        }
        let mut parent: u32 = 0;
        let mut depth: u32 = 0;
        while depth < branch.depth
            invariant
                0 <= depth <= branch.depth <= MAX_DEPTH,
                self.wf(),
                cell == branch.cell(),
                parent < self.nodes.len() <= u32::MAX,
                self@.get(cell) == subtree(self.nodes@, parent as int, (levels() - depth) as nat).get(
                    cell.skip(depth as int),
                ),
            decreases branch.depth - depth,
        {
            let node = self.nodes[parent as usize];
            if !node.is_parent() {
                return Some(node);
            }
            proof {
                lemma_wf_parent(self.nodes@, self.free_branches@, parent as int);
                branch.lemma_cell_entries();
                assert(cell.skip(depth as int).drop_first() =~= cell.skip(depth + 1));
            }
            parent = node.pointer() + branch.child(depth);
            depth += 1;
        }
        let node = self.nodes[parent as usize];
        if node.is_parent() {
            None
        } else {
            Some(node)
        }
    }

    /// Writes the leaf `node` at `branch`. Leaves on the way are split, each
    /// into the block that was freed last or into a new one at the end of
    /// the pool, and every ancestor whose eight children have become `node`
    /// collapses and gives its block back. The contract fixes the tree and,
    /// node for node, the pool and the free list.
    pub fn set(&mut self, branch: Branch, node: Node)
        requires
            old(self).wf(),
            branch.depth <= MAX_DEPTH,
            !node.is_parent(),
            old(self).nodes.len() + 8 * branch.depth <= u32::MAX,
        ensures
            final(self).wf(),
            final(self)@ == old(self)@.set(branch.cell(), node),
            final(self).nodes.len() <= old(self).nodes.len() + 8 * branch.depth,
            old(self)@.coalesced() ==> final(self)@.coalesced(),
            old(self)@.tidy() && stable(node) ==> final(self)@.tidy(),
            (final(self).nodes@, final(self).free_branches@) == pool_set(
                old(self).nodes@,
                old(self).free_branches@,
                branch.cell(),
                node,
            ),
            settled(final(self).nodes@, branch.cell(), node),
    {
        proof {
            branch.lemma_cell_entries();
            lemma_tree_height(self.nodes@, self.free_branches@);
            if self@.coalesced() {
                lemma_set_coalesced(self@, MAX_DEPTH as nat, branch.cell(), node);
            }
            if self@.tidy() && stable(node) {
                lemma_set_tidy(self@, MAX_DEPTH as nat, branch.cell(), node);
            }
        }
        set_in(self, branch, node);
    }

    /// Clears the cube at `branch`. Every ancestor whose eight children have
    /// become empty collapses into a blank leaf and gives its block back, so
    /// that clearing the one leaf of a new octree leaves the new octree.
    pub fn remove(&mut self, branch: Branch)
        requires
            old(self).wf(),
            branch.depth <= MAX_DEPTH,
            old(self).nodes.len() + 8 * branch.depth <= u32::MAX,
        ensures
            final(self).wf(),
            final(self)@ == old(self)@.remove(branch.cell()),
            final(self).nodes.len() <= old(self).nodes.len() + 8 * branch.depth,
            old(self)@.coalesced() ==> final(self)@.coalesced(),
            old(self)@.tidy() ==> final(self)@.tidy(),
            (final(self).nodes@, final(self).free_branches@) == pool_remove(
                old(self).nodes@,
                old(self).free_branches@,
                branch.cell(),
            ),
            cleared(final(self).nodes@, branch.cell()),
    {
        proof {
            branch.lemma_cell_entries();
            lemma_tree_height(self.nodes@, self.free_branches@);
            if self@.tidy() {
                lemma_remove_tidy(self@, MAX_DEPTH as nat, branch.cell());
            }
            if self@.coalesced() {
                lemma_remove_coalesced(self@, MAX_DEPTH as nat, branch.cell());
            }
        }
        remove_in(self, branch);
    }

    /// Hands out a blank block of eight nodes: the block that was freed last,
    /// or a new one at the end of the pool. The tree stays as it is.
    pub fn push_branch(&mut self) -> (index: u32)
        requires
            old(self).wf(),
            old(self).free_branches.len() == 0 ==> old(self).nodes.len() + 8 <= u32::MAX,
        ensures
            taken(
                old(self).nodes@,
                old(self).free_branches@,
                index,
                final(self).nodes@,
                final(self).free_branches@,
            ),
            final(self).wf(),
            final(self)@ == old(self)@,
            block_ok(final(self).nodes.len() as int, index as int),
    {
        proof {
            lemma_wf_len(self.nodes@, self.free_branches@);
            let place = choose|place: Seq<Seq<int>>| wf_at(self.nodes@, self.free_branches@, place);
            lemma_block_taken(self.nodes@, self.free_branches@, place);
        }
        if let Some(i) = self.free_branches.pop() {
            let ghost before = self.nodes@;
            let mut k: u32 = 0;
            while k < 8
                invariant
                    0 <= k <= 8,
                    i + 8 <= self.nodes.len() <= u32::MAX,
                    self.nodes@.len() == before.len(),
                    self.free_branches@ == old(self).free_branches@.drop_last(),
                    forall|j: int|
                        0 <= j < before.len() ==> #[trigger] self.nodes@[j] == (if i <= j < i + k {
                            Node::empty()
                        } else {
                            before[j]
                        }),
                decreases 8 - k,
            {
                self.nodes[(i + k) as usize] = Node::empty();
                k += 1;
            }
            assert(self.nodes@ =~= blanked(before, i as int));
            return i;
        }
        let index = self.nodes.len() as u32;
        let mut k: u32 = 0;
        while k < 8
            invariant
                0 <= k <= 8,
                old(self).nodes.len() + 8 <= u32::MAX,
                self.free_branches@ == old(self).free_branches@,
                self.nodes@ == old(self).nodes@ + Seq::new(k as nat, |j: int| Node::empty()),
            decreases 8 - k,
        {
            self.nodes.push(Node::empty());
            k += 1;
            assert(self.nodes@ =~= old(self).nodes@ + Seq::new(k as nat, |j: int| Node::empty()));
        }
        index
    }

    /// Takes back the block at `index`, which nothing may point at any more:
    /// the last block of the pool is cut off, any other goes on the free
    /// list. The tree stays as it is.
    pub fn remove_branch(&mut self, index: u32)
        requires
            old(self).wf(),
            block_ok(old(self).nodes.len() as int, index as int),
            unowned(old(self).nodes@, index as int),
            leaf_block(old(self).nodes@, index as int),
            forall|a: int|
                0 <= a < old(self).free_branches.len() ==> #[trigger] old(self).free_branches@[a]
                    != index,
        ensures
            given(
                old(self).nodes@,
                old(self).free_branches@,
                index,
                final(self).nodes@,
                final(self).free_branches@,
            ),
            final(self).wf(),
            final(self)@ == old(self)@,
    {
        proof {
            let place = choose|place: Seq<Seq<int>>| wf_at(self.nodes@, self.free_branches@, place);
            lemma_block_given(self.nodes@, self.free_branches@, place, index);
        }
        if index as usize == self.nodes.len() - 8 {
            self.nodes.truncate(index as usize);
            assert(self.nodes@ =~= old(self).nodes@.take(index as int));
        } else {
            self.free_branches.push(index);
        }
    }
}

impl Octree {
    /// In a well-formed pool an interior node points at a block that lies in
    /// the pool, a whole number of blocks behind the root, and no walk that
    /// starts in that block comes back to the node or to a node that points
    /// at the block the node is in.
    pub proof fn lemma_parent_pointer(&self, p: int, k: int, cell: Seq<int>)
        requires
            self.wf(),
            0 <= p < self.nodes.len(),
            self.nodes[p].is_parent(),
            0 <= k < 8,
            cell_ok(cell),
        ensures
            0 < self.nodes[p].data,
            (self.nodes[p].data - 1) % 8 == 0,
            self.nodes[p].data + 8 <= self.nodes.len(),
            walk(self.nodes@, self.nodes[p].data + k, cell) != p,
            !(self.nodes@[walk(self.nodes@, self.nodes[p].data + k, cell)].is_parent()
                && self.nodes@[walk(self.nodes@, self.nodes[p].data + k, cell)].data <= p
                < self.nodes@[walk(self.nodes@, self.nodes[p].data + k, cell)].data + 8),
    {
        let nodes = self.nodes@;
        let free = self.free_branches@;
        let place = choose|place: Seq<Seq<int>>| wf_at(nodes, free, place);
        let q = nodes[p].data as int;
        lemma_wf_parent(nodes, free, p);
        lemma_walk(nodes, free, place, q + k, cell);
        let w = walk(nodes, q + k, cell);
        lemma_child_place(nodes, free, place, p, q + k);
        if nodes[w].is_parent() && nodes[w].data <= p < nodes[w].data + 8 {
            lemma_child_place(nodes, free, place, w, p);
        }
    }

    /// What a walk over the octree hands out is what the octree holds: the
    /// leaf of the walk is the leaf that `get` finds at its branch.
    pub proof fn lemma_walk_get(&self, i: int)
        requires
            self.wf(),
            0 <= i < self@.leaves(Branch::root()).len(),
        ensures
            self@.leaves(Branch::root())[i].0.in_range(),
            !self@.leaves(Branch::root())[i].1.is_empty(),
            self@.get(self@.leaves(Branch::root())[i].0.cell()) == Some(
                self@.leaves(Branch::root())[i].1,
            ),
    {
        lemma_tree_height(self.nodes@, self.free_branches@);
        vstd::arithmetic::power2::lemma2_to64();
        lemma_leaves_get(self@, MAX_DEPTH as nat, Branch::root(), i);
        let cell = self@.leaves(Branch::root())[i].0.cell();
        assert(cell.skip(0) =~= cell);
    }

    /// The root of a tree that is one leaf is that leaf.
    pub proof fn lemma_root_leaf(&self)
        requires
            self.wf(),
            self@ is Leaf,
        ensures
            self.nodes@[0] == self@->Leaf_0,
            !self.nodes@[0].is_parent(),
    {
        lemma_tree_height(self.nodes@, self.free_branches@);
    }

    /// In a well-formed pool the free list names blocks of the pool, each
    /// once, and no interior node points at one of them.
    pub proof fn lemma_free_list(&self, a: int, b: int, p: int)
        requires
            self.wf(),
            0 <= a < self.free_branches.len(),
            0 <= b < self.free_branches.len(),
            0 <= p < self.nodes.len(),
        ensures
            block_ok(self.nodes.len() as int, self.free_branches[a] as int),
            a != b ==> self.free_branches[a] != self.free_branches[b],
            self.nodes[p].is_parent() ==> self.nodes[p].data != self.free_branches[a],
    {
        let place = choose|place: Seq<Seq<int>>| wf_at(self.nodes@, self.free_branches@, place);
        lemma_free_block(self.nodes@, self.free_branches@, place, a);
        if a != b {
            lemma_free_distinct(self.nodes@, self.free_branches@, place, a, b);
        }
    }
}

/// One byte of a 32-bit word, the lowest first.
pub open spec fn spec_word_byte(word: u32, k: int) -> u8 {
    if k == 0 {
        (word % 256) as u8
    } else if k == 1 {
        ((word / 0x100) % 256) as u8
    } else if k == 2 {
        ((word / 0x1_0000) % 256) as u8
    } else {
        ((word / 0x100_0000) % 256) as u8
    }
}

/// One byte of a node: the four bytes of its flags, then the four bytes of
/// its data, each word with its lowest byte first.
pub open spec fn spec_node_byte(node: Node, k: int) -> u8 {
    if k < 4 {
        spec_word_byte(node.flags, k)
    } else {
        spec_word_byte(node.data, k - 4)
    }
}

/// The bytes of a pool: eight for each node, node after node.
pub open spec fn spec_bytes(nodes: Seq<Node>) -> Seq<u8> {
    Seq::new(nodes.len() * 8, |i: int| spec_node_byte(nodes[i / 8], i % 8))
}

/// Adds the four bytes of a word, the lowest first.
fn push_word(bytes: &mut Vec<u8>, word: u32)
    ensures
        final(bytes)@ == old(bytes)@ + Seq::new(4, |k: int| spec_word_byte(word, k)),
{
    assert(word & 0xff == word % 256 && (word >> 8) & 0xff == (word / 0x100) % 256 && (word >> 16)
        & 0xff == (word / 0x1_0000) % 256 && (word >> 24) & 0xff == (word / 0x100_0000) % 256)
        by (bit_vector);
    bytes.push((word & 0xff) as u8);
    bytes.push(((word >> 8) & 0xff) as u8);
    bytes.push(((word >> 16) & 0xff) as u8);
    bytes.push(((word >> 24) & 0xff) as u8);
    assert(bytes@ =~= old(bytes)@ + Seq::new(4, |k: int| spec_word_byte(word, k)));
}

impl Octree {
    /// The pool as bytes: each node as its flags and its data, both with the
    /// lowest byte first.
    pub fn bytes(&self) -> (bytes: Vec<u8>)
        ensures
            bytes@ == spec_bytes(self.nodes@),
    {
        let mut bytes: Vec<u8> = Vec::new();
        let mut i: usize = 0;
        while i < self.nodes.len()
            invariant
                0 <= i <= self.nodes.len(),
                bytes@ == spec_bytes(self.nodes@.take(i as int)),
            decreases self.nodes.len() - i,
        {
            let node = self.nodes[i];
            let ghost before = bytes@;
            push_word(&mut bytes, node.flags);
            push_word(&mut bytes, node.data);
            proof {
                let want = spec_bytes(self.nodes@.take(i + 1));
                assert(bytes@.len() == want.len());
                assert forall|j: int| 0 <= j < want.len() implies bytes@[j] == want[j] by {
                    if j < 8 * i {
                        assert(before[j] == spec_node_byte(self.nodes@.take(i as int)[j / 8], j % 8));
                    } else {
                        assert(j / 8 == i);
                    }
                }
                assert(bytes@ =~= want);
            }
            i += 1;
        }
        proof {
            assert(self.nodes@.take(i as int) =~= self.nodes@);
        }
        bytes
    }
}

impl Default for Octree {
    fn default() -> (octree: Octree)
        ensures
            octree.wf(),
            octree.nodes@ == seq![Node::empty()],
            octree.free_branches@ == Seq::<u32>::empty(),
    {
        Octree::new()
    }
}

impl NodePool for Octree {
    open spec fn nodes(&self) -> Seq<Node> {
        self.nodes@
    }

    open spec fn free(&self) -> Seq<u32> {
        self.free_branches@
    }

    open spec fn record_ok(&self) -> bool {
        true
    }

    open spec fn dirty(&self) -> Set<int> {
        Set::full()
    }

    open spec fn in_bounds(&self) -> bool {
        true
    }

    fn node(&self, index: u32) -> (node: Node) {
        self.nodes[index as usize]
    }

    fn len_nodes(&self) -> (len: u32) {
        self.nodes.len() as u32
    }

    fn put(&mut self, index: u32, node: Node) {
        self.nodes[index as usize] = node;
    }

    fn push_branch(&mut self) -> (index: u32) {
        Octree::push_branch(self)
    }

    fn remove_branch(&mut self, index: u32) {
        Octree::remove_branch(self, index)
    }
}

} // verus!
