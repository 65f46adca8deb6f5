//! A walk over the leaves of an octree that are not empty.

use crate::branch::{Branch, MAX_DEPTH};
use crate::node::Node;
use crate::octree::Octree;
use crate::pool::{lemma_tree_height, lemma_wf_len, lemma_wf_parent, levels, subtree};
use crate::tree::Tree;
use vstd::prelude::*;

verus! {

/// A cube that the walk has yet to visit lies in the pool and in the tree,
/// and what hangs below it fits into the levels that are left.
pub open spec fn entry_ok(nodes: Seq<Node>, entry: (Branch, u32)) -> bool {
    &&& entry.1 < nodes.len()
    &&& entry.0.in_range()
    &&& entry_tree(nodes, entry).shaped((MAX_DEPTH - entry.0.depth) as nat)
}

/// The tree below a cube that the walk has yet to visit.
pub open spec fn entry_tree(nodes: Seq<Node>, entry: (Branch, u32)) -> Tree {
    subtree(nodes, entry.1 as int, (levels() - entry.0.depth) as nat)
}

/// The leaves that a walk with this stack will hand out, in order.
pub open spec fn pending(nodes: Seq<Node>, stack: Seq<(Branch, u32)>) -> Seq<(Branch, Node)>
    decreases stack.len(),
{
    if stack.len() == 0 {
        Seq::empty()
    } else {
        entry_tree(nodes, stack.last()).leaves(stack.last().0) + pending(nodes, stack.drop_last())
    }
}

/// The number of nodes that a walk with this stack has yet to visit.
pub open spec fn weight(nodes: Seq<Node>, stack: Seq<(Branch, u32)>) -> nat
    decreases stack.len(),
{
    if stack.len() == 0 {
        0
    } else {
        entry_tree(nodes, stack.last()).size() + weight(nodes, stack.drop_last())
    }
}

/// The walk over an octree's leaves: a stack of the cubes yet to visit.
pub struct NodeIterator<'a> {
    octree: &'a Octree,
    stack: Vec<(Branch, u32)>,
}

impl<'a> NodeIterator<'a> {
    /// The octree that is walked.
    pub closed spec fn source(&self) -> Octree {
        *self.octree
    }

    /// The leaves that are still to come, in order.
    pub closed spec fn remaining(&self) -> Seq<(Branch, Node)> {
        pending(self.octree.nodes@, self.stack@)
    }

    /// The octree is well formed and every cube on the stack is one of its own.
    pub closed spec fn wf(&self) -> bool {
        &&& self.octree.wf()
        &&& forall|i: int|
            0 <= i < self.stack@.len() ==> entry_ok(self.octree.nodes@, #[trigger] self.stack@[i])
    }

    /// A walk that starts at the root.
    pub fn new(octree: &'a Octree) -> (iter: NodeIterator<'a>)
        requires
            octree.wf(),
        ensures
            iter.wf(),
            iter.source() == *octree,
            iter.remaining() == octree@.leaves(Branch::root()),
    {
        let mut stack = Vec::new();
        stack.push((Branch::root(), octree.root()));
        proof {
            lemma_wf_len(octree.nodes@, octree.free_branches@);
            lemma_tree_height(octree.nodes@, octree.free_branches@);
            vstd::arithmetic::power2::lemma2_to64();
            assert(stack@.drop_last() =~= Seq::<(Branch, u32)>::empty());
            assert(pending(octree.nodes@, stack@.drop_last()) =~= Seq::<(Branch, Node)>::empty());
            assert(pending(octree.nodes@, stack@) =~= octree@.leaves(Branch::root()));
        }
        NodeIterator { octree, stack }
    }

    /// The next leaf that is not empty, with its branch; `None` when the walk
    /// is over.
    pub fn next(&mut self) -> (item: Option<(Branch, Node)>)
        requires
            old(self).wf(),
        ensures
            final(self).wf(),
            final(self).source() == old(self).source(),
            match item {
                Some(leaf) => {
                    &&& old(self).remaining().len() > 0
                    &&& leaf == old(self).remaining()[0]
                    &&& final(self).remaining() == old(self).remaining().drop_first()
                    &&& leaf.0.in_range()
                    &&& !leaf.1.is_parent()
                    &&& !leaf.1.is_empty()
                },
                None => old(self).remaining().len() == 0 && final(self).remaining().len() == 0,
            },
    {
        let ghost nodes = self.octree.nodes@;
        loop
            invariant
                self.wf(),
                self.octree == old(self).octree,
                nodes == self.octree.nodes@,
                pending(nodes, self.stack@) == old(self).remaining(),
            decreases weight(nodes, self.stack@),
        {
            let ghost before = self.stack@;
            let (branch, index) = match self.stack.pop() {
                Some(entry) => entry,
                None => {
                    return None;
                },
            };
            let ghost rest = self.stack@;
            assert(rest == before.drop_last());
            assert(entry_ok(nodes, before[before.len() - 1]));
            let node = self.octree.nodes[index as usize];
            proof {
                node.lemma_empty_iff();
            }
            if node.is_empty() {
                assert(pending(nodes, before) =~= pending(nodes, rest));
                continue ;
            }
            if node.is_parent() {
                let pointer = node.pointer();
                let ghost kids = entry_tree(nodes, (branch, index))->Parent_0;
                proof {
                    lemma_wf_len(nodes, self.octree.free_branches@);
                    lemma_wf_parent(nodes, self.octree.free_branches@, index as int);
                    Branch::lemma_axis_bounds(branch.path.x as int, branch.depth as int);
                    Branch::lemma_axis_bounds(branch.path.y as int, branch.depth as int);
                    Branch::lemma_axis_bounds(branch.path.z as int, branch.depth as int);
                    assert(Tree::leaves_of(kids, branch, 0) =~= Seq::<(Branch, Node)>::empty());
                }
                let mut child: u32 = 0;
                while child < 8
                    invariant
                        0 <= child <= 8,
                        self.octree == old(self).octree,
                        nodes == self.octree.nodes@,
                        self.octree.wf(),
                        pointer + 8 <= nodes.len() <= u32::MAX,
                        branch.in_range(),
                        branch.depth < MAX_DEPTH,
                        -0x4000_0000 <= branch.path.x < 0x4000_0000,
                        -0x4000_0000 <= branch.path.y < 0x4000_0000,
                        -0x4000_0000 <= branch.path.z < 0x4000_0000,
                        nodes[index as int].is_parent(),
                        nodes[index as int].data == pointer,
                        kids == entry_tree(nodes, (branch, index))->Parent_0,
                        entry_tree(nodes, (branch, index)).shaped((MAX_DEPTH - branch.depth) as nat),
                        self.stack@.len() == rest.len() + child,
                        self.stack@.take(rest.len() as int) == rest,
                        forall|i: int|
                            0 <= i < self.stack@.len() ==> entry_ok(nodes, #[trigger] self.stack@[i]),
                        pending(nodes, self.stack@) == Tree::leaves_of(kids, branch, child as int)
                            + pending(nodes, rest),
                        weight(nodes, self.stack@) == Tree::size_of(kids, child as int) + weight(
                            nodes,
                            rest,
                        ),
                    decreases 8 - child,
                {
                    let ghost sofar = self.stack@;
                    let next = branch.with_child(child);
                    self.stack.push((next, pointer + child));
                    proof {
                        branch.lemma_with_child_cell(child as int);
                        let entry = (next, (pointer + child) as u32);
                        assert(self.stack@.drop_last() =~= sofar);
                        assert(self.stack@.last() == entry);
                        assert(entry_tree(nodes, entry) == kids[child as int]);
                        assert(self.stack@.take(rest.len() as int) =~= rest);
                        assert(pending(nodes, self.stack@) =~= Tree::leaves_of(
                            kids,
                            branch,
                            child + 1,
                        ) + pending(nodes, rest));
                    }
                    child += 1;
                }
                continue ;
            }
            proof {
                assert(entry_tree(nodes, (branch, index)).leaves(branch) =~= seq![(branch, node)]);
                assert(pending(nodes, before) =~= seq![(branch, node)] + pending(nodes, rest));
                assert(pending(nodes, before).drop_first() =~= pending(nodes, rest));
            }
            return Some((branch, node));
        }
    }
}

impl Octree {
    /// A walk over the leaves that are not empty.
    pub fn iter_nodes(&self) -> (iter: NodeIterator<'_>)
        requires
            self.wf(),
        ensures
            iter.wf(),
            iter.source() == *self,
            iter.remaining() == self@.leaves(Branch::root()),
    {
        NodeIterator::new(self)
    }
}

} // verus!
