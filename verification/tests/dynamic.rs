use oakum::branch::{Branch, IVec3};
use oakum::dynamic::DynamicOctree;
use oakum::node::Node;
use oakum::octree::Octree;
use oakum::segment::Segment;

#[test]
fn segment_join() {
    let a = Segment::new(0, 10);
    let b = Segment::new(5, 10);

    assert_eq!(a.join(b), Segment::new(0, 15));
}

#[test]
fn push_segment() {
    let mut octree = DynamicOctree::empty();

    octree.push_segment(Segment::new(0, 10));
    octree.push_segment(Segment::new(20, 10));
    octree.push_segment(Segment::new(5, 10));

    assert_eq!(octree.segments(), vec![Segment::new(0, 30)]);

    octree.push_segment(Segment::new(2048, 10));

    assert_eq!(
        octree.segments(),
        vec![Segment::new(0, 30), Segment::new(2048, 10)]
    );
}

#[test]
fn push_segment_merges_only_within_the_threshold() {
    let mut octree = DynamicOctree::empty();
    octree.push_segment(Segment::new(0, 30));
    octree.push_segment(Segment::new(2048, 10));
    // 45 + 1024 lies before 2048: the two ranges stay apart.
    octree.push_segment(Segment::new(35, 10));
    assert_eq!(
        octree.segments(),
        vec![Segment::new(0, 45), Segment::new(2048, 10)]
    );
    // A range that ends 1024 before the next begins is merged with it.
    octree.push_segment(Segment::new(1000, 24));
    assert_eq!(octree.segments(), vec![Segment::new(0, 2058)]);
}

#[test]
fn push_segment_joins_a_range_with_the_same_start() {
    let mut octree = DynamicOctree::empty();
    octree.push_segment(Segment::new(5000, 10));
    octree.push_segment(Segment::new(5000, 4));
    assert_eq!(octree.segments(), vec![Segment::new(5000, 10)]);
    octree.push_segment(Segment::new(5000, 40));
    assert_eq!(octree.segments(), vec![Segment::new(5000, 40)]);
}

#[test]
fn push_segment_bridges_both_neighbours() {
    let mut octree = DynamicOctree::empty();
    octree.push_segment(Segment::new(0, 10));
    octree.push_segment(Segment::new(3000, 10));
    octree.push_segment(Segment::new(6000, 10));
    octree.push_segment(Segment::new(9000, 10));
    assert_eq!(octree.segments().len(), 4);
    octree.push_segment(Segment::new(1000, 4000));
    assert_eq!(
        octree.segments(),
        vec![Segment::new(0, 6010), Segment::new(9000, 10)]
    );
}

#[test]
fn segment_ends_and_bytes() {
    let s = Segment::new(3, 5);
    assert_eq!(s.end(), 8);
    assert_eq!(s.batch_end(), 8 + 1024);
    assert_eq!(s.byte_start(), 24);
    assert_eq!(s.byte_len(), 40);
    assert_eq!(s.byte_end(), 64);
    assert_eq!(Segment::BATCH_THRESHOLD, 1024);
}

#[test]
fn new_records_the_whole_pool() {
    let mut octree = Octree::new();
    octree.set(Branch::new(IVec3::new(0, 0, 0), 1), Node::solid(1, 2, 3));
    let wrapped = DynamicOctree::new(octree);
    assert_eq!(wrapped.segments(), vec![Segment::new(0, 9)]);
    assert_eq!(wrapped.octree().len(), 9);
}

#[test]
fn edits_record_what_they_wrote() {
    let mut octree = DynamicOctree::empty();
    octree.set(Branch::new(IVec3::new(0, 0, 0), 1), Node::solid(1, 2, 3));
    assert_eq!(octree.segments(), vec![Segment::new(0, 9)]);
    let taken = octree.take_segments();
    assert_eq!(taken, vec![Segment::new(0, 9)]);
    assert!(octree.segments().is_empty());
    octree.set(Branch::new(IVec3::new(-1, 0, 0), 1), Node::solid(4, 5, 6));
    assert_eq!(octree.segments(), vec![Segment::new(7, 1)]);
    octree.clear_segments();
    assert!(octree.segments().is_empty());
    assert_eq!(
        octree.get(Branch::new(IVec3::new(-1, 0, 0), 1)),
        Some(Node::solid(4, 5, 6))
    );
}

#[test]
fn a_cut_pool_cuts_the_last_range() {
    let mut octree = DynamicOctree::empty();
    let leaf = Node::solid(7, 7, 7);
    for child in 0..7 {
        octree.set(Branch::root().with_child(child), leaf);
    }
    octree.clear_segments();
    // The eighth write collapses the root and cuts the block off the pool.
    octree.set(Branch::root().with_child(7), leaf);
    assert_eq!(octree.octree().len(), 1);
    assert_eq!(octree.octree().nodes[0], leaf);
    assert_eq!(octree.segments(), vec![Segment::new(0, 1)]);
}

#[test]
fn blocks_are_taken_and_given_back() {
    let mut octree = DynamicOctree::empty();
    let first = octree.push_branch();
    assert_eq!(first, 1);
    let second = octree.push_branch();
    assert_eq!(second, 9);
    assert_eq!(octree.segments(), vec![Segment::new(1, 16)]);
    octree.remove_branch(first);
    assert_eq!(octree.octree().free_branches, vec![1]);
    assert_eq!(octree.octree().len(), 17);
    octree.remove_branch(second);
    assert_eq!(octree.octree().len(), 9);
    assert_eq!(octree.segments(), vec![Segment::new(1, 8)]);
    let again = octree.push_branch();
    assert_eq!(again, 1);
    assert!(octree.octree().free_branches.is_empty());
}

#[test]
fn a_write_is_recorded_though_it_changes_nothing() {
    let leaf = Node::solid(1, 2, 3);
    let mut octree = DynamicOctree::empty();
    octree.set(Branch::new(IVec3::new(0, 0, 0), 2), leaf);
    let nodes = octree.octree().nodes.clone();
    let at = nodes.iter().position(|node| *node == leaf).unwrap() as u32;
    octree.take_segments();
    assert!(octree.segments().is_empty());
    octree.set(Branch::new(IVec3::new(0, 0, 0), 2), leaf);
    assert_eq!(octree.octree().nodes, nodes);
    assert!(octree
        .segments()
        .iter()
        .any(|segment| segment.start <= at && at < segment.start + segment.len));
}
