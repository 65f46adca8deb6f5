use oakum::branch::{Branch, IVec3};
use oakum::node::Node;
use oakum::octree::Octree;

fn leaf() -> Node {
    Node::solid(4, 5, 6)
}

/// A pool whose root leads down a chain of `blocks` blocks, each through its first node.
fn chain(blocks: u32) -> Vec<Node> {
    let mut nodes = vec![Node::empty(); 1 + 8 * blocks as usize];
    for level in 0..blocks {
        let at = if level == 0 { 0 } else { 1 + 8 * (level - 1) as usize };
        nodes[at] = Node::parent(1 + 8 * level);
    }
    nodes
}

#[test]
fn pools_that_the_library_made_are_well_formed() {
    let mut octree = Octree::new();
    assert!(octree.is_well_formed());
    octree.set(Branch::new(IVec3::new(0, 0, 0), 3), leaf());
    octree.set(Branch::new(IVec3::new(-3, 2, 1), 4), leaf());
    octree.set(Branch::new(IVec3::new(-2, -2, -2), 2), leaf());
    assert!(octree.is_well_formed());
    octree.remove(Branch::new(IVec3::new(0, 0, 0), 3));
    assert!(!octree.free_branches.is_empty());
    assert!(octree.is_well_formed());
}

#[test]
fn a_pool_in_order_is_taken_as_it_is() {
    let mut octree = Octree::new();
    octree.set(Branch::new(IVec3::new(0, 0, 0), 3), leaf());
    octree.set(Branch::new(IVec3::new(-2, -2, -2), 2), leaf());
    octree.remove(Branch::new(IVec3::new(0, 0, 0), 3));
    let taken = Octree::from_parts(octree.nodes.clone(), octree.free_branches.clone()).unwrap();
    assert_eq!(taken.nodes, octree.nodes);
    assert_eq!(taken.free_branches, octree.free_branches);
    assert_eq!(taken.get(Branch::new(IVec3::new(-2, -2, -2), 2)), Some(leaf()));
}

#[test]
fn a_pool_must_hold_the_root_and_whole_blocks() {
    assert!(Octree::from_parts(vec![], vec![]).is_none());
    assert!(Octree::from_parts(vec![Node::empty()], vec![]).is_some());
    assert!(Octree::from_parts(vec![leaf()], vec![]).is_some());
    assert!(Octree::from_parts(vec![Node::empty(); 2], vec![]).is_none());
    assert!(Octree::from_parts(vec![Node::empty(); 8], vec![]).is_none());
    assert!(Octree::from_parts(vec![Node::empty(); 9], vec![]).is_some());
}

#[test]
fn a_pointer_must_lead_to_a_block_of_the_pool() {
    assert!(Octree::from_parts(vec![Node::parent(1)], vec![]).is_none());
    let mut nodes = vec![Node::empty(); 9];
    nodes[0] = Node::parent(1);
    assert!(Octree::from_parts(nodes.clone(), vec![]).is_some());
    nodes[0] = Node::parent(0);
    assert!(Octree::from_parts(nodes.clone(), vec![]).is_none());
    nodes[0] = Node::parent(2);
    assert!(Octree::from_parts(nodes.clone(), vec![]).is_none());
    nodes[0] = Node::parent(9);
    assert!(Octree::from_parts(nodes.clone(), vec![]).is_none());
    let mut both = Node::parent(1);
    both.set_solid();
    nodes[0] = both;
    assert!(Octree::from_parts(nodes, vec![]).is_none());
}

#[test]
fn no_two_nodes_may_point_at_one_block() {
    let mut nodes = vec![Node::empty(); 17];
    nodes[0] = Node::parent(1);
    nodes[1] = Node::parent(9);
    assert!(Octree::from_parts(nodes.clone(), vec![]).is_some());
    nodes[2] = Node::parent(9);
    assert!(Octree::from_parts(nodes.clone(), vec![]).is_none());
    nodes[2] = Node::empty();
    nodes[1] = Node::parent(1);
    assert!(Octree::from_parts(nodes, vec![]).is_none());
}

#[test]
fn blocks_may_not_point_at_each_other_in_a_ring() {
    let mut nodes = vec![Node::empty(); 17];
    nodes[1] = Node::parent(9);
    nodes[9] = Node::parent(1);
    assert!(Octree::from_parts(nodes, vec![]).is_none());
}

#[test]
fn a_pool_is_at_most_32_levels_deep() {
    assert!(Octree::from_parts(chain(32), vec![]).is_some());
    assert!(Octree::from_parts(chain(33), vec![]).is_none());
    let deep = Octree::from_parts(chain(32), vec![]).unwrap();
    assert_eq!(deep.get(Branch::new(IVec3::new(-1, -1, -1), 32)), Some(Node::empty()));
}

#[test]
fn the_free_list_must_be_in_order() {
    let mut nodes = vec![Node::empty(); 25];
    nodes[0] = Node::parent(1);
    assert!(Octree::from_parts(nodes.clone(), vec![9, 17]).is_some());
    assert!(Octree::from_parts(nodes.clone(), vec![17, 9]).is_some());
    assert!(Octree::from_parts(nodes.clone(), vec![9, 17, 9]).is_none());
    assert!(Octree::from_parts(nodes.clone(), vec![1]).is_none());
    assert!(Octree::from_parts(nodes.clone(), vec![0]).is_none());
    assert!(Octree::from_parts(nodes.clone(), vec![10]).is_none());
    assert!(Octree::from_parts(nodes.clone(), vec![25]).is_none());
    nodes[17] = Node::parent(9);
    assert!(Octree::from_parts(nodes.clone(), vec![17]).is_none());
    assert!(Octree::from_parts(nodes.clone(), vec![9]).is_none());
    assert!(Octree::from_parts(nodes, vec![]).is_some());
}
