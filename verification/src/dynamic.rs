//! An octree that keeps a record of the nodes written since the record was
//! last taken, as a short list of merged ranges.

use crate::branch::{Branch, MAX_DEPTH};
use crate::edit::{remove_in, set_in};
use crate::layout::{cleared, pool_remove, pool_set, recorded, settled};
use crate::node::Node;
use crate::octree::{tracks, NodePool, Octree};
use crate::laws::{lemma_remove_coalesced, lemma_remove_tidy, lemma_set_coalesced, lemma_set_tidy};
use crate::pool::{
    block_ok, given, leaf_block, lemma_tree_height, lemma_wf_len, taken, unowned,
};
use crate::tree::{stable, Tree};
use crate::segment::{
    cover, covered, hull, lemma_clamped, lemma_cover_tracks, lemma_hull, lemma_pushed,
    segments_ok, spec_clamp, spec_push, within, Segment,
};
use vstd::prelude::*;

verus! {

/// An octree with the list of the ranges of its pool that changed since the
/// list was last taken. The list is sorted by start, and ranges that lie
/// within the batch threshold of each other are merged into one.
#[derive(Clone, Debug)]
pub struct DynamicOctree {
    octree: Octree,
    segments: Vec<Segment>,
}

impl View for DynamicOctree {
    type V = Tree;

    /// The tree that the pool holds.
    closed spec fn view(&self) -> Tree {
        self.octree@
    }
}

impl DynamicOctree {
    /// The octree underneath.
    pub closed spec fn pool(&self) -> Octree {
        self.octree
    }

    /// The recorded ranges.
    pub closed spec fn record(&self) -> Seq<Segment> {
        self.segments@
    }

    /// The pool is well formed and the record is in order.
    pub open spec fn wf(&self) -> bool {
        self.pool().wf() && segments_ok(self.record())
    }

    /// Every recorded range lies inside the pool.
    pub open spec fn in_pool(&self) -> bool {
        within(self.record(), self.pool().nodes@.len() as int)
    }

    /// The tree is the tree of the pool.
    pub proof fn lemma_view(&self)
        ensures
            self@ == self.pool()@,
    {
    }

    /// An empty octree with nothing recorded.
    pub fn empty() -> (octree: DynamicOctree)
        ensures
            octree.wf(),
            octree.pool().nodes@ == seq![Node::empty()],
            octree.pool().free_branches@ == Seq::<u32>::empty(),
            octree.record() == Seq::<Segment>::empty(),
            octree.in_pool(),
    {
        DynamicOctree { octree: Octree::new(), segments: Vec::new() }
    }

    /// Wraps an octree and records all of its pool.
    pub fn new(octree: Octree) -> (wrapped: DynamicOctree)
        requires
            octree.nodes.len() <= u32::MAX,
        ensures
            wrapped.pool() == octree,
            wrapped.record() == seq![Segment { start: 0, len: octree.nodes.len() as u32 }],
            segments_ok(wrapped.record()),
            wrapped.in_pool(),
            octree.wf() ==> wrapped.wf(),
    {
        let segment = Segment::new(0, octree.len());
        let mut segments = Vec::new();
        segments.push(segment);
        DynamicOctree { octree, segments }
    }

    /// The octree underneath.
    pub fn octree(&self) -> (octree: &Octree)
        ensures
            *octree == self.pool(),
    {
        &self.octree
    }

    /// The recorded ranges, sorted by start.
    pub fn segments(&self) -> (segments: &[Segment])
        ensures
            segments@ == self.record(),
    {
        self.segments.as_slice()
    }

    /// Hands out the record and starts a new one.
    pub fn take_segments(&mut self) -> (segments: Vec<Segment>)
        ensures
            segments@ == old(self).record(),
            final(self).record() == Seq::<Segment>::empty(),
            final(self).pool() == old(self).pool(),
    {
        let mut taken: Vec<Segment> = Vec::new();
        core::mem::swap(&mut taken, &mut self.segments);
        taken
    }

    /// Drops the record.
    pub fn clear_segments(&mut self)
        ensures
            final(self).record() == Seq::<Segment>::empty(),
            final(self).pool() == old(self).pool(),
    {
        self.segments.clear();
    }

    /// Where a range that starts where `segment` starts stands in the list
    /// (`Ok`), or where one would have to be put in (`Err`).
    fn segment_before(&self, segment: Segment) -> (found: Result<usize, usize>)
        requires
            segments_ok(self.record()),
        ensures
            match found {
                Ok(i) => i < self.record().len() && self.record()[i as int].start == segment.start,
                Err(i) => {
                    &&& i <= self.record().len()
                    &&& forall|j: int| 0 <= j < i ==> (#[trigger] self.record()[j]).start < segment.start
                    &&& forall|j: int|
                        i <= j < self.record().len() ==> (#[trigger] self.record()[j]).start
                            > segment.start
                },
            },
    {
        let mut low: usize = 0;
        let mut high: usize = self.segments.len();
        while low < high
            invariant
                0 <= low <= high <= self.segments.len(),
                segments_ok(self.segments@),
                forall|j: int| 0 <= j < low ==> (#[trigger] self.segments@[j]).start < segment.start,
                forall|j: int|
                    high <= j < self.segments.len() ==> (#[trigger] self.segments@[j]).start
                        > segment.start,
            decreases high - low,
        {
            let mid = low + (high - low) / 2;
            let start = self.segments[mid].start;
            if start == segment.start {
                return Ok(mid);
            } else if start < segment.start {
                assert forall|j: int| 0 <= j < mid + 1 implies (#[trigger] self.segments@[j]).start
                    < segment.start by {
                    if j < mid {
                        assert(self.segments@[j].ends_before(self.segments@[mid as int]));
                    }
                }
                low = mid + 1;
            } else {
                assert forall|j: int| mid <= j < self.segments.len() implies (
                #[trigger] self.segments@[j]).start > segment.start by {
                    if j > mid {
                        assert(self.segments@[mid as int].ends_before(self.segments@[j]));
                    }
                }
                high = mid;
            }
        }
        Err(low)
    }

    /// Records `segment`: it is merged with every recorded range that it
    /// touches or that lies within the batch threshold of it.
    pub fn push_segment(&mut self, segment: Segment)
        requires
            segments_ok(old(self).record()),
            segment.spec_end() <= u32::MAX,
        ensures
            final(self).record() == spec_push(old(self).record(), segment),
            segments_ok(final(self).record()),
            final(self).pool() == old(self).pool(),
            forall|x: int|
                #![trigger covered(final(self).record(), x)]
                covered(old(self).record(), x) || segment.holds(x) ==> covered(
                    final(self).record(),
                    x,
                ),
            old(self).in_pool() && segment.spec_end() <= old(self).pool().nodes@.len()
                ==> final(self).in_pool(),
    {
        let ghost before = self.segments@;
        let ghost lo: int;
        let ghost mut hi: int;
        let found = self.segment_before(segment);
        let mut after: usize;
        match found {
            Ok(index) => {
                let joined = self.segments[index].join(segment);
                assert(index < self.segments.len());
                after = index + 1;
                self.segments[index] = joined;
                proof {
                    lo = index as int;
                    hi = index + 1;
                    assert forall|i: int| 0 <= i < lo implies (#[trigger] before[i]).ends_before(
                        segment,
                    ) by {
                        assert(before[i].ends_before(before[lo]));
                    }
                }
            },
            Err(i) => {
                if i > 0 && self.segments[i - 1].start as u64 + self.segments[i - 1].len as u64 + 1024
                    >= segment.start as u64 {
                    let joined = self.segments[i - 1].join(segment);
                    self.segments[i - 1] = joined;
                    after = i;
                    proof {
                        lo = i - 1;
                        hi = i as int;
                        assert forall|k: int| 0 <= k < lo implies (#[trigger] before[k]).ends_before(
                            segment,
                        ) by {
                            assert(before[k].ends_before(before[lo]));
                        }
                    }
                } else {
                    self.segments.insert(i, segment);
                    assert(i < self.segments.len());
                    after = i + 1;
                    proof {
                        lo = i as int;
                        hi = i as int;
                        assert forall|k: int| 0 <= k < lo implies (#[trigger] before[k]).ends_before(
                            segment,
                        ) by {
                            if k < i - 1 {
                                assert(before[k].ends_before(before[i - 1]));
                            }
                        }
                    }
                }
            },
        }
        proof {
            let merged = before.subrange(lo, hi);
            if lo < hi {
                assert(merged.drop_last() =~= Seq::<Segment>::empty());
                assert(hull(merged.drop_last(), segment) == segment);
                assert(merged.last() == before[lo]);
                assert(hull(merged, segment) == segment.spec_join(before[lo]));
            }
            assert(self.segments@ =~= before.take(lo).push(hull(merged, segment)) + before.skip(hi));
        }
        let mut beyond = false;
        while after < self.segments.len() && !beyond
            invariant
                beyond ==> hi < before.len() && segment.ends_before(before[hi]),
                after < self.segments.len() ==> hi < before.len(),
                after >= self.segments.len() ==> hi == before.len(),
                segments_ok(before),
                segment.spec_end() <= u32::MAX,
                0 <= lo <= hi <= before.len(),
                after == lo + 1,
                self.octree == old(self).octree,
                self.segments@ == before.take(lo).push(hull(before.subrange(lo, hi), segment))
                    + before.skip(hi),
                hull(before.subrange(lo, hi), segment).spec_end() <= u32::MAX,
                forall|i: int| 0 <= i < lo ==> (#[trigger] before[i]).ends_before(segment),
                forall|i: int| lo <= i < hi ==> (#[trigger] before[i]).touches(segment),
                forall|i: int| lo <= i < before.len() ==> !(#[trigger] before[i]).ends_before(segment),
            decreases before.len() - hi, if beyond { 0int } else { 1int },
        {
            let next = self.segments[after];
            assert(next == before[hi]);
            if next.start as u64 > segment.start as u64 + segment.len as u64 + 1024 {
                beyond = true;
            } else {
                let joined = self.segments[after - 1].join(next);
                self.segments[after - 1] = joined;
                self.segments.remove(after);
                proof {
                    let wider = before.subrange(lo, hi + 1);
                    assert(wider.drop_last() =~= before.subrange(lo, hi));
                    assert(wider.last() == before[hi]);
                    assert(self.segments@ =~= before.take(lo).push(hull(wider, segment)) + before.skip(
                        hi + 1,
                    ));
                    hi = hi + 1;
                    assert(segments_ok(before.subrange(lo, hi))) by {
                        let run = before.subrange(lo, hi);
                        assert forall|i: int, j: int| 0 <= i < j < run.len() implies (
                        #[trigger] run[i]).ends_before(#[trigger] run[j]) by {
                            assert(before[lo + i].ends_before(before[lo + j]));
                        }
                        assert forall|i: int| 0 <= i < run.len() implies (#[trigger] run[i]).spec_end()
                            <= u32::MAX by {
                            assert(run[i] == before[lo + i]);
                        }
                    }
                    lemma_hull(before.subrange(lo, hi), segment);
                }
            }
        }
        proof {
            assert forall|i: int| hi <= i < before.len() implies segment.ends_before(
                #[trigger] before[i],
            ) by {
                if i > hi {
                    assert(before[hi].ends_before(before[i]));
                }
            }
            lemma_pushed(before, segment, lo, hi);
        }
    }
}

impl DynamicOctree {
    /// Hands out a blank block of eight nodes and records it.
    pub fn push_branch(&mut self) -> (index: u32)
        requires
            old(self).wf(),
            old(self).pool().free_branches.len() == 0 ==> old(self).pool().nodes.len() + 8
                <= u32::MAX,
        ensures
            taken(
                old(self).pool().nodes@,
                old(self).pool().free_branches@,
                index,
                final(self).pool().nodes@,
                final(self).pool().free_branches@,
            ),
            final(self).wf(),
            final(self)@ == old(self)@,
            final(self).record() == spec_push(old(self).record(), Segment { start: index, len: 8 }),
            old(self).in_pool() ==> final(self).in_pool(),
            forall|x: int|
                #![trigger covered(final(self).record(), x)]
                covered(old(self).record(), x) || index <= x < index + 8 ==> covered(
                    final(self).record(),
                    x,
                ),
    {
        let index = self.octree.push_branch();
        proof {
            lemma_wf_len(self.octree.nodes@, self.octree.free_branches@);
        }
        let ghost mid = self.segments@;
        self.push_segment(Segment::new(index, 8));
        proof {
            let segment = Segment { start: index, len: 8 };
            assert forall|x: int| covered(mid, x) || index <= x < index + 8 implies covered(
                self.record(),
                x,
            ) by {
                assert(covered(mid, x) || segment.holds(x));
            }
        }
        index
    }

    /// Takes back the block at `index`. When the pool was cut short, a last
    /// range of the record that reached beyond the new end is cut to it.
    pub fn remove_branch(&mut self, index: u32)
        requires
            old(self).wf(),
            block_ok(old(self).pool().nodes.len() as int, index as int),
            unowned(old(self).pool().nodes@, index as int),
            leaf_block(old(self).pool().nodes@, index as int),
            forall|a: int|
                0 <= a < old(self).pool().free_branches.len() ==> #[trigger] old(
                    self,
                ).pool().free_branches@[a] != index,
        ensures
            given(
                old(self).pool().nodes@,
                old(self).pool().free_branches@,
                index,
                final(self).pool().nodes@,
                final(self).pool().free_branches@,
            ),
            final(self).wf(),
            final(self)@ == old(self)@,
            final(self).record() == spec_clamp(
                old(self).record(),
                final(self).pool().nodes.len() as int,
            ),
            old(self).in_pool() ==> final(self).in_pool(),
    {
        self.octree.remove_branch(index);
        proof {
            lemma_wf_len(self.octree.nodes@, self.octree.free_branches@);
            lemma_clamped(self.segments@, self.octree.nodes.len() as int);
        }
        let len = self.octree.len();
        let count = self.segments.len();
        if count > 0 {
            let last = self.segments[count - 1];
            if last.start as u64 + last.len as u64 > len as u64 {
                if last.start >= len {
                    self.segments.pop();
                } else {
                    self.segments[count - 1] = Segment::new(last.start, len - last.start);
                    assert(self.segments@ =~= old(self).segments@.drop_last().push(
                        Segment { start: last.start, len: (len - last.start) as u32 },
                    ));
                }
            }
        }
    }

    /// The leaf that covers the cube at `branch`, or `None` where the cube is
    /// subdivided further.
    pub fn get(&self, branch: Branch) -> (leaf: Option<Node>)
        requires
            self.wf(),
            branch.depth <= MAX_DEPTH,
        ensures
            leaf == self@.get(branch.cell()),
    {
        self.octree.get(branch)
    }

    /// Writes the leaf `node` at `branch` and records every node of the pool
    /// that was written: every node that changed, and the place of the leaf
    /// whether it changed or not.
    pub fn set(&mut self, branch: Branch, node: Node)
        requires
            old(self).wf(),
            branch.depth <= MAX_DEPTH,
            !node.is_parent(),
            old(self).pool().nodes.len() + 8 * branch.depth <= u32::MAX,
        ensures
            final(self).wf(),
            final(self)@ == old(self)@.set(branch.cell(), node),
            final(self).pool().nodes.len() <= old(self).pool().nodes.len() + 8 * branch.depth,
            old(self)@.coalesced() ==> final(self)@.coalesced(),
            old(self)@.tidy() && stable(node) ==> final(self)@.tidy(),
            (final(self).pool().nodes@, final(self).pool().free_branches@) == pool_set(
                old(self).pool().nodes@,
                old(self).pool().free_branches@,
                branch.cell(),
                node,
            ),
            settled(final(self).pool().nodes@, branch.cell(), node),
            recorded(final(self).pool().nodes@, cover(final(self).record()), branch.cell(), node),
            old(self).in_pool() ==> final(self).in_pool(),
            tracks(
                old(self).pool().nodes@,
                cover(old(self).record()),
                final(self).pool().nodes@,
                cover(final(self).record()),
            ),
    {
        proof {
            branch.lemma_cell_entries();
            lemma_tree_height(self.octree.nodes@, self.octree.free_branches@);
            if self@.coalesced() {
                lemma_set_coalesced(self@, MAX_DEPTH as nat, branch.cell(), node);
            }
            if self@.tidy() && stable(node) {
                lemma_set_tidy(self@, MAX_DEPTH as nat, branch.cell(), node);
            }
        }
        set_in(self, branch, node);
    }

    /// Clears the cube at `branch`, collapsing every ancestor whose eight
    /// children have become empty, and records every node of the pool that
    /// was written.
    pub fn remove(&mut self, branch: Branch)
        requires
            old(self).wf(),
            branch.depth <= MAX_DEPTH,
            old(self).pool().nodes.len() + 8 * branch.depth <= u32::MAX,
        ensures
            final(self).wf(),
            final(self)@ == old(self)@.remove(branch.cell()),
            final(self).pool().nodes.len() <= old(self).pool().nodes.len() + 8 * branch.depth,
            old(self)@.coalesced() ==> final(self)@.coalesced(),
            old(self)@.tidy() ==> final(self)@.tidy(),
            (final(self).pool().nodes@, final(self).pool().free_branches@) == pool_remove(
                old(self).pool().nodes@,
                old(self).pool().free_branches@,
                branch.cell(),
            ),
            cleared(final(self).pool().nodes@, branch.cell()),
            old(self).in_pool() ==> final(self).in_pool(),
            tracks(
                old(self).pool().nodes@,
                cover(old(self).record()),
                final(self).pool().nodes@,
                cover(final(self).record()),
            ),
    {
        proof {
            branch.lemma_cell_entries();
            lemma_tree_height(self.octree.nodes@, self.octree.free_branches@);
            if self@.tidy() {
                lemma_remove_tidy(self@, MAX_DEPTH as nat, branch.cell());
            }
            if self@.coalesced() {
                lemma_remove_coalesced(self@, MAX_DEPTH as nat, branch.cell());
            }
        }
        remove_in(self, branch);
    }
}

impl Default for DynamicOctree {
    fn default() -> (octree: DynamicOctree)
        ensures
            octree.wf(),
            octree.pool().nodes@ == seq![Node::empty()],
            octree.record() == Seq::<Segment>::empty(),
    {
        DynamicOctree::empty()
    }
}

impl NodePool for DynamicOctree {
    open spec fn nodes(&self) -> Seq<Node> {
        self.pool().nodes@
    }

    open spec fn free(&self) -> Seq<u32> {
        self.pool().free_branches@
    }

    open spec fn record_ok(&self) -> bool {
        segments_ok(self.record())
    }

    open spec fn dirty(&self) -> Set<int> {
        cover(self.record())
    }

    open spec fn in_bounds(&self) -> bool {
        self.in_pool()
    }

    fn node(&self, index: u32) -> (node: Node) {
        self.octree.nodes[index as usize]
    }

    fn len_nodes(&self) -> (len: u32) {
        self.octree.nodes.len() as u32
    }

    fn put(&mut self, index: u32, node: Node) {
        self.push_segment(Segment::new(index, 1));
        self.octree.nodes[index as usize] = node;
        proof {
            let segment = Segment { start: index, len: 1 };
            assert forall|i: int|
                0 <= i < self.octree.nodes@.len() && (i >= old(self).octree.nodes@.len()
                    || self.octree.nodes@[i] != old(self).octree.nodes@[i] || covered(
                    old(self).segments@,
                    i,
                )) implies covered(self.record(), i) by {
                assert(covered(old(self).segments@, i) || segment.holds(i));
            }
            lemma_cover_tracks(
                old(self).octree.nodes@,
                old(self).segments@,
                self.octree.nodes@,
                self.segments@,
            );
        }
    }

    fn push_branch(&mut self) -> (index: u32) {
        let index = DynamicOctree::push_branch(self);
        proof {
            lemma_cover_tracks(
                old(self).octree.nodes@,
                old(self).segments@,
                self.octree.nodes@,
                self.segments@,
            );
        }
        index
    }

    fn remove_branch(&mut self, index: u32) {
        DynamicOctree::remove_branch(self, index);
        proof {
            lemma_clamped(old(self).segments@, self.octree.nodes.len() as int);
            lemma_cover_tracks(
                old(self).octree.nodes@,
                old(self).segments@,
                self.octree.nodes@,
                self.segments@,
            );
        }
    }
}

} // verus!
