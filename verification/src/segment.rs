//! Ranges of nodes that were written to, and the list that keeps them merged.

use crate::node::Node;
use crate::octree::tracks;
use vstd::prelude::*;

verus! {

/// A range of nodes of the pool: `len` nodes from `start` on.
#[derive(Clone, Copy, Debug, PartialEq, Eq, Hash, Structural)]
pub struct Segment {
    pub start: u32,
    pub len: u32,
}

/// The bytes of one node.
pub const NODE_BYTES: usize = 8;

impl Segment {
    /// Segments that lie this close to each other, or closer, are merged.
    pub const BATCH_THRESHOLD: u32 = 1024;

    /// The index behind the last node of the range.
    pub open spec fn spec_end(&self) -> int {
        self.start + self.len
    }

    /// The range together with the gap behind it that a neighbour may not
    /// begin in.
    pub open spec fn spec_batch_end(&self) -> int {
        self.start + self.len + 1024
    }

    /// The range holds the node at `i`.
    pub open spec fn holds(&self, i: int) -> bool {
        self.start <= i < self.spec_end()
    }

    /// `self` and the gap behind it end before `other` begins.
    pub open spec fn ends_before(&self, other: Segment) -> bool {
        self.spec_batch_end() < other.start
    }

    /// Neither ends before the other begins: the two are merged.
    pub open spec fn touches(&self, other: Segment) -> bool {
        !self.ends_before(other) && !other.ends_before(*self)
    }

    /// The smallest range that holds both.
    pub open spec fn spec_join(self, other: Segment) -> Segment {
        let start = if self.start <= other.start {
            self.start
        } else {
            other.start
        };
        let end = if self.spec_end() >= other.spec_end() {
            self.spec_end()
        } else {
            other.spec_end()
        };
        Segment { start, len: (end - start) as u32 }
    }

    /// The range of `length` nodes from `start` on.
    pub fn new(start: u32, length: u32) -> (segment: Segment)
        ensures
            segment == (Segment { start, len: length }),
    {
        Segment { start, len: length }
    }

    /// The index behind the last node of the range.
    pub fn end(&self) -> (end: u32)
        requires
            self.spec_end() <= u32::MAX,
        ensures
            end == self.spec_end(),
    {
        self.start + self.len
    }

    /// The end of the range and of the gap behind it.
    pub fn batch_end(&self) -> (end: u32)
        requires
            self.spec_batch_end() <= u32::MAX,
        ensures
            end == self.spec_batch_end(),
    {
        self.end() + Segment::BATCH_THRESHOLD
    }

    /// The byte of the pool that the range begins at.
    pub fn byte_start(&self) -> (offset: usize)
        requires
            self.start * 8 <= usize::MAX,
        ensures
            offset == self.start * 8,
    {
        self.start as usize * NODE_BYTES
    }

    /// The number of bytes of the range.
    pub fn byte_len(&self) -> (size: usize)
        requires
            self.len * 8 <= usize::MAX,
        ensures
            size == self.len * 8,
    {
        self.len as usize * NODE_BYTES
    }

    /// The byte of the pool behind the range.
    pub fn byte_end(&self) -> (offset: usize)
        requires
            self.spec_end() <= u32::MAX,
            self.spec_end() * 8 <= usize::MAX,
        ensures
            offset == self.spec_end() * 8,
    {
        self.end() as usize * NODE_BYTES
    }

    /// The smallest range that holds both `self` and `other`.
    pub fn join(self, other: Segment) -> (hull: Segment)
        requires
            self.spec_end() <= u32::MAX,
            other.spec_end() <= u32::MAX,
        ensures
            hull == self.spec_join(other),
            hull.start <= self.start,
            hull.start <= other.start,
            hull.spec_end() >= self.spec_end(),
            hull.spec_end() >= other.spec_end(),
            hull.start == self.start || hull.start == other.start,
            hull.spec_end() == self.spec_end() || hull.spec_end() == other.spec_end(),
    {
        let start = if self.start <= other.start {
            self.start
        } else {
            other.start
        };
        let end = if self.end() >= other.end() {
            self.end()
        } else {
            other.end()
        };
        Segment { start, len: end - start }
    }
}

/// The list is in order: every range ends within 32 bits, and each range
/// together with the gap behind it ends before the next begins.
pub open spec fn segments_ok(segments: Seq<Segment>) -> bool {
    &&& forall|i: int| 0 <= i < segments.len() ==> (#[trigger] segments[i]).spec_end() <= u32::MAX
    &&& forall|i: int, j: int|
        0 <= i < j < segments.len() ==> (#[trigger] segments[i]).ends_before(#[trigger] segments[j])
}

/// Every range of the list lies inside a pool of `len` nodes.
pub open spec fn within(segments: Seq<Segment>, len: int) -> bool {
    forall|i: int| 0 <= i < segments.len() ==> (#[trigger] segments[i]).spec_end() <= len
}

/// Some range of the list holds the node at `i`.
pub open spec fn covered(segments: Seq<Segment>, i: int) -> bool {
    exists|k: int| 0 <= k < segments.len() && (#[trigger] segments[k]).holds(i)
}

/// The nodes that the list covers.
pub open spec fn cover(segments: Seq<Segment>) -> Set<int> {
    Set::new(|i: int| covered(segments, i))
}

/// How many ranges at the front of the list end before `segment` begins.
pub open spec fn lower(segments: Seq<Segment>, segment: Segment) -> int
    decreases segments.len(),
{
    if segments.len() > 0 && segments[0].ends_before(segment) {
        1 + lower(segments.drop_first(), segment)
    } else {
        0
    }
}

/// How many ranges at the back of the list begin after `segment` has ended.
pub open spec fn upper(segments: Seq<Segment>, segment: Segment) -> int
    decreases segments.len(),
{
    if segments.len() > 0 && segment.ends_before(segments.last()) {
        1 + upper(segments.drop_last(), segment)
    } else {
        0
    }
}

/// The smallest range that holds `segment` and every range of `merged`.
pub open spec fn hull(merged: Seq<Segment>, segment: Segment) -> Segment
    decreases merged.len(),
{
    if merged.len() == 0 {
        segment
    } else {
        hull(merged.drop_last(), segment).spec_join(merged.last())
    }
}

/// The list after `segment` was recorded: the ranges that end before it, then
/// the one range that holds it and every range it touched, then the ranges
/// that begin after it.
pub open spec fn spec_push(segments: Seq<Segment>, segment: Segment) -> Seq<Segment> {
    let lo = lower(segments, segment);
    let hi = segments.len() - upper(segments, segment);
    segments.take(lo).push(hull(segments.subrange(lo, hi), segment)) + segments.skip(hi)
}

/// The list cut back to a pool of `len` nodes: a last range that reaches
/// beyond the pool ends with it, or goes if it begins beyond.
pub open spec fn spec_clamp(segments: Seq<Segment>, len: int) -> Seq<Segment> {
    if segments.len() > 0 && segments.last().spec_end() > len {
        if segments.last().start >= len {
            segments.drop_last()
        } else {
            segments.drop_last().push(
                Segment { start: segments.last().start, len: (len - segments.last().start) as u32 },
            )
        }
    } else {
        segments
    }
}

/// The count at the front is `lo` when the ranges before `lo` end before the
/// segment and the one at `lo` does not.
pub proof fn lemma_lower(segments: Seq<Segment>, segment: Segment, lo: int)
    requires
        0 <= lo <= segments.len(),
        forall|i: int| 0 <= i < lo ==> (#[trigger] segments[i]).ends_before(segment),
        lo < segments.len() ==> !segments[lo].ends_before(segment),
    ensures
        lower(segments, segment) == lo,
    decreases lo,
{
    if lo > 0 {
        let rest = segments.drop_first();
        assert forall|i: int| 0 <= i < lo - 1 implies (#[trigger] rest[i]).ends_before(segment) by {
            assert(rest[i] == segments[i + 1]);
        }
        lemma_lower(rest, segment, lo - 1);
    }
}

/// The count at the back is `len - hi` when the ranges from `hi` on begin
/// after the segment and the one before `hi` does not.
pub proof fn lemma_upper(segments: Seq<Segment>, segment: Segment, hi: int)
    requires
        0 <= hi <= segments.len(),
        forall|i: int| hi <= i < segments.len() ==> segment.ends_before(#[trigger] segments[i]),
        hi > 0 ==> !segment.ends_before(segments[hi - 1]),
    ensures
        upper(segments, segment) == segments.len() - hi,
    decreases segments.len() - hi,
{
    if hi < segments.len() {
        let rest = segments.drop_last();
        assert forall|i: int| hi <= i < rest.len() implies segment.ends_before(#[trigger] rest[i]) by {
            assert(rest[i] == segments[i]);
        }
        lemma_upper(rest, segment, hi);
    }
}

/// The range that holds the segment and a run of ranges in order begins
/// where the first of them all begins and ends where the last of them ends.
pub proof fn lemma_hull(merged: Seq<Segment>, segment: Segment)
    requires
        segments_ok(merged),
        segment.spec_end() <= u32::MAX,
    ensures
        hull(merged, segment).spec_end() <= u32::MAX,
        hull(merged, segment).start <= segment.start,
        hull(merged, segment).spec_end() >= segment.spec_end(),
        forall|i: int|
            0 <= i < merged.len() ==> hull(merged, segment).start <= (#[trigger] merged[i]).start
                && merged[i].spec_end() <= hull(merged, segment).spec_end(),
        hull(merged, segment).start == segment.start || (merged.len() > 0 && hull(
            merged,
            segment,
        ).start == merged[0].start),
        hull(merged, segment).spec_end() == segment.spec_end() || (merged.len() > 0 && hull(
            merged,
            segment,
        ).spec_end() == merged.last().spec_end()),
    decreases merged.len(),
{
    if merged.len() > 0 {
        let rest = merged.drop_last();
        assert(segments_ok(rest)) by {
            assert forall|i: int, j: int| 0 <= i < j < rest.len() implies (#[trigger] rest[i]).ends_before(
                #[trigger] rest[j],
            ) by {
                assert(merged[i].ends_before(merged[j]));
            }
            assert forall|i: int| 0 <= i < rest.len() implies (#[trigger] rest[i]).spec_end()
                <= u32::MAX by {
                assert(rest[i] == merged[i]);
            }
        }
        lemma_hull(rest, segment);
        let h = hull(rest, segment);
        assert forall|i: int| 0 <= i < merged.len() implies hull(merged, segment).start <= (
        #[trigger] merged[i]).start && merged[i].spec_end() <= hull(merged, segment).spec_end() by {
            if i < rest.len() {
                assert(rest[i] == merged[i]);
                assert(merged[i].ends_before(merged.last()));
            }
        }
        if rest.len() > 0 {
            assert(rest[0] == merged[0]);
            assert(merged[0].ends_before(merged.last()));
            assert(merged[rest.len() - 1].ends_before(merged.last()));
            assert(rest.last() == merged[rest.len() - 1]);
        }
    }
}

/// What recording a segment comes to, given where the ranges it touches lie:
/// the list stays in order and covers what it covered and the segment.
pub proof fn lemma_pushed(segments: Seq<Segment>, segment: Segment, lo: int, hi: int)
    requires
        segments_ok(segments),
        segment.spec_end() <= u32::MAX,
        0 <= lo <= hi <= segments.len(),
        forall|i: int| 0 <= i < lo ==> (#[trigger] segments[i]).ends_before(segment),
        forall|i: int| lo <= i < hi ==> (#[trigger] segments[i]).touches(segment),
        forall|i: int| hi <= i < segments.len() ==> segment.ends_before(#[trigger] segments[i]),
    ensures
        spec_push(segments, segment) == segments.take(lo).push(
            hull(segments.subrange(lo, hi), segment),
        ) + segments.skip(hi),
        segments_ok(spec_push(segments, segment)),
        forall|x: int|
            #![trigger covered(spec_push(segments, segment), x)]
            covered(segments, x) || segment.holds(x) ==> covered(spec_push(segments, segment), x),
        forall|len: int|
            within(segments, len) && segment.spec_end() <= len ==> #[trigger] within(
                spec_push(segments, segment),
                len,
            ),
{
    lemma_lower(segments, segment, lo);
    lemma_upper(segments, segment, hi);
    let merged = segments.subrange(lo, hi);
    assert(segments_ok(merged)) by {
        assert forall|i: int, j: int| 0 <= i < j < merged.len() implies (#[trigger] merged[i]).ends_before(
            #[trigger] merged[j],
        ) by {
            assert(segments[lo + i].ends_before(segments[lo + j]));
        }
        assert forall|i: int| 0 <= i < merged.len() implies (#[trigger] merged[i]).spec_end()
            <= u32::MAX by {
            assert(merged[i] == segments[lo + i]);
        }
    }
    lemma_hull(merged, segment);
    let h = hull(merged, segment);
    let after = spec_push(segments, segment);
    assert(after.len() == lo + 1 + segments.len() - hi);
    assert forall|i: int| 0 <= i < after.len() implies (#[trigger] after[i]).spec_end() <= u32::MAX by {
        if i < lo {
            assert(after[i] == segments[i]);
        } else if i > lo {
            assert(after[i] == segments[i - lo - 1 + hi]);
        }
    }
    if lo < hi {
        assert(merged[0] == segments[lo]);
        assert(merged.last() == segments[hi - 1]);
    }
    assert forall|i: int, j: int| 0 <= i < j < after.len() implies (#[trigger] after[i]).ends_before(
        #[trigger] after[j],
    ) by {
        let a = if i < lo {
            i
        } else {
            i - lo - 1 + hi
        };
        let b = if j < lo {
            j
        } else {
            j - lo - 1 + hi
        };
        if i < lo {
            assert(after[i] == segments[i]);
            assert(segments[i].ends_before(segment));
            if lo < hi {
                assert(segments[i].ends_before(segments[lo]));
            }
        } else if i > lo {
            assert(after[i] == segments[a]);
        }
        if j < lo {
            assert(after[j] == segments[j]);
        } else if j > lo {
            assert(after[j] == segments[b]);
            assert(segment.ends_before(segments[b]));
            if lo < hi {
                assert(segments[hi - 1].ends_before(segments[b]));
            }
        }
        if i != lo && j != lo {
            assert(segments[a].ends_before(segments[b]));
        }
    }
    assert forall|len: int| within(segments, len) && segment.spec_end() <= len implies #[trigger] within(
        after,
        len,
    ) by {
        assert forall|i: int| 0 <= i < after.len() implies (#[trigger] after[i]).spec_end() <= len by {
            if i < lo {
                assert(after[i] == segments[i]);
            } else if i > lo {
                assert(after[i] == segments[i - lo - 1 + hi]);
            } else if lo < hi {
                assert(segments[hi - 1].spec_end() <= len);
            }
        }
    }
    assert forall|x: int| covered(segments, x) || segment.holds(x) implies covered(after, x) by {
        if segment.holds(x) {
            assert(after[lo].holds(x));
        } else {
            let k = choose|k: int| 0 <= k < segments.len() && (#[trigger] segments[k]).holds(x);
            if k < lo {
                assert(after[k] == segments[k]);
            } else if k < hi {
                assert(merged[k - lo] == segments[k]);
                assert(after[lo].holds(x));
            } else {
                assert(after[k - hi + lo + 1] == segments[k]);
            }
        }
    }
}

/// Cutting the list back to a shorter pool keeps it in order and keeps
/// covered what was covered inside the pool. Where the pool lost one block
/// and the list lay inside it, the list lies inside it again.
pub proof fn lemma_clamped(segments: Seq<Segment>, len: int)
    requires
        segments_ok(segments),
        0 <= len,
    ensures
        segments_ok(spec_clamp(segments, len)),
        forall|x: int|
            #![trigger covered(spec_clamp(segments, len), x)]
            covered(segments, x) && x < len ==> covered(spec_clamp(segments, len), x),
        within(segments, len + 8) ==> within(spec_clamp(segments, len), len),
{
    let after = spec_clamp(segments, len);
    if within(segments, len + 8) {
        assert forall|i: int| 0 <= i < after.len() implies (#[trigger] after[i]).spec_end() <= len by {
            if i + 1 < segments.len() {
                assert(segments[i].ends_before(segments[segments.len() - 1]));
            }
        }
    }
    assert forall|i: int, j: int| 0 <= i < j < after.len() implies (#[trigger] after[i]).ends_before(
        #[trigger] after[j],
    ) by {
        assert(segments[i].ends_before(segments[j]));
    }
    assert forall|i: int| 0 <= i < after.len() implies (#[trigger] after[i]).spec_end() <= u32::MAX by {
        assert(segments[i].spec_end() <= u32::MAX);
    }
    assert forall|x: int| covered(segments, x) && x < len implies covered(after, x) by {
        let k = choose|k: int| 0 <= k < segments.len() && (#[trigger] segments[k]).holds(x);
        assert(after[k].holds(x));
    }
}

/// A list that covers every node that is new or changed, and what the
/// earlier list covered, keeps track of the writes.
pub proof fn lemma_cover_tracks(
    before: Seq<Node>,
    earlier: Seq<Segment>,
    after: Seq<Node>,
    later: Seq<Segment>,
)
    requires
        forall|i: int|
            #![trigger covered(later, i)]
            0 <= i < after.len() && (i >= before.len() || after[i] != before[i] || covered(earlier, i))
                ==> covered(later, i),
    ensures
        tracks(before, cover(earlier), after, cover(later)),
{
    assert forall|i: int|
        0 <= i < after.len() && (i >= before.len() || after[i] != before[i] || cover(
            earlier,
        ).contains(i)) implies #[trigger] cover(later).contains(i) by {
        assert(covered(later, i));
    }
}

} // verus!
