use oakum::branch::{Branch, IVec3};
use oakum::node::Node;
use oakum::octree::Octree;

fn at(x: i32, y: i32, z: i32, depth: u32) -> Branch {
    Branch::new(IVec3::new(x, y, z), depth)
}

#[test]
fn new_octree_holds_one_empty_leaf() {
    let octree = Octree::new();
    assert_eq!(octree.len(), 1);
    assert_eq!(octree.nodes[0], Node::empty());
    assert!(octree.free_branches.is_empty());
    assert_eq!(octree.get(Branch::root()), Some(Node::empty()));
}

#[test]
fn set_splits_the_root_and_get_finds_the_leaf() {
    let mut octree = Octree::new();
    let leaf = Node::solid(1, 2, 3);
    octree.set(at(0, 0, 0, 1), leaf);
    assert_eq!(octree.len(), 9);
    assert!(octree.nodes[0].is_parent());
    assert_eq!(octree.nodes[0].pointer(), 1);
    assert_eq!(octree.nodes[8], leaf);
    assert_eq!(octree.get(at(0, 0, 0, 1)), Some(leaf));
    assert_eq!(octree.get(at(-1, -1, -1, 1)), Some(Node::empty()));
    assert_eq!(octree.get(Branch::root()), None);
    assert_eq!(octree.get(at(1, 1, 1, 2)), Some(leaf));
}

#[test]
fn coalescing_after_set() {
    let mut octree = Octree::new();
    let leaf = Node::solid(1, 1, 1);
    for child in 0..8 {
        octree.set(Branch::root().with_child(child), leaf);
    }
    assert_eq!(octree.len(), 1);
    assert_eq!(octree.nodes[0], leaf);
}

#[test]
fn coalescing_after_set_at_depth_three() {
    let mut octree = Octree::new();
    let leaf = Node::solid(1, 1, 1);
    for x in -4..4 {
        for y in -4..4 {
            for z in -4..4 {
                octree.set(at(x, y, z, 3), leaf);
            }
        }
    }
    assert_eq!(octree.nodes[0], leaf);
    assert_eq!(octree.get(at(2, -3, 1, 3)), Some(leaf));
    // Blocks that were not last in the pool when they were freed wait on the free list.
    assert_eq!(octree.free_branches.len() * 8 + 1, octree.nodes.len());
}

#[test]
fn set_then_remove_leaves_an_empty_tree() {
    let mut octree = Octree::new();
    octree.set(at(1, -2, 3, 3), Node::solid(9, 9, 9));
    assert_eq!(octree.len(), 25);
    octree.remove(at(1, -2, 3, 3));
    // The walk back up collapses every level that the removal left blank.
    assert_eq!(octree.get(at(1, -2, 3, 3)), Some(Node::empty()));
    assert_eq!(octree.get(Branch::root()), Some(Node::empty()));
    assert_eq!(octree.len(), 1);
    assert_eq!(octree.size(), 8);
    assert_eq!(octree.nodes, vec![Node::empty()]);
    assert!(octree.free_branches.is_empty());
}

#[test]
fn set_then_remove_at_depth_one_gives_back_the_root() {
    let mut octree = Octree::new();
    octree.set(at(0, 0, 0, 1), Node::solid(1, 2, 3));
    assert_eq!(octree.size(), 72);
    octree.remove(at(0, 0, 0, 1));
    assert_eq!(octree.size(), 8);
    assert_eq!(octree.nodes[0], Node::empty());
}

#[test]
fn remove_collapses_only_what_became_empty() {
    let mut octree = Octree::new();
    let leaf = Node::solid(9, 9, 9);
    octree.set(at(1, -2, 3, 3), leaf);
    octree.set(at(-4, 0, 0, 3), leaf);
    octree.remove(at(1, -2, 3, 3));
    // The octant of the removed leaf is blank again, the other still holds its leaf.
    assert_eq!(octree.get(at(0, -1, 0, 1)), Some(Node::empty()));
    assert_eq!(octree.get(at(-4, 0, 0, 3)), Some(leaf));
    assert!(octree.nodes[0].is_parent());
    // Clearing a cube of a solid leaf splits the leaf and keeps the rest of it.
    let mut solid = Octree::new();
    solid.set(Branch::root(), leaf);
    solid.remove(at(0, 0, 0, 2));
    assert_eq!(solid.get(at(0, 0, 0, 2)), Some(Node::empty()));
    assert_eq!(solid.get(at(1, 0, 0, 2)), Some(leaf));
    assert_eq!(solid.get(at(-1, -1, -1, 1)), Some(leaf));
}

#[test]
fn a_freed_block_is_taken_again_before_the_pool_grows() {
    let leaf = Node::solid(1, 2, 3);
    let mut octree = Octree::new();
    octree.set(Branch::new(IVec3::new(0, 0, 0), 2), leaf);
    octree.set(Branch::new(IVec3::new(-2, -2, -2), 2), leaf);
    assert_eq!(octree.len(), 25);
    assert!(octree.free_branches.is_empty());
    octree.remove(Branch::new(IVec3::new(0, 0, 0), 2));
    assert_eq!(octree.len(), 25);
    assert_eq!(octree.free_branches, vec![9]);
    octree.set(Branch::new(IVec3::new(1, 1, 1), 2), leaf);
    assert_eq!(octree.len(), 25);
    assert!(octree.free_branches.is_empty());
    assert_eq!(octree.get(Branch::new(IVec3::new(1, 1, 1), 2)), Some(leaf));
    assert_eq!(octree.get(Branch::new(IVec3::new(-2, -2, -2), 2)), Some(leaf));
    assert_eq!(octree.get(Branch::new(IVec3::new(0, 0, 0), 2)), Some(Node::empty()));
}

#[test]
fn the_last_block_of_the_pool_is_cut_off_when_it_is_given_back() {
    let leaf = Node::solid(1, 2, 3);
    let mut octree = Octree::new();
    octree.set(Branch::new(IVec3::new(0, 0, 0), 1), leaf);
    octree.set(Branch::new(IVec3::new(-2, -2, -2), 2), leaf);
    assert_eq!(octree.len(), 17);
    octree.remove(Branch::new(IVec3::new(-2, -2, -2), 2));
    assert_eq!(octree.len(), 9);
    assert!(octree.free_branches.is_empty());
    octree.remove(Branch::new(IVec3::new(0, 0, 0), 1));
    assert_eq!(octree.nodes, vec![Node::empty()]);
    assert!(octree.free_branches.is_empty());
}

#[test]
fn a_second_write_of_a_leaf_that_stands_at_its_depth_changes_no_byte() {
    let leaf = Node::solid(1, 2, 3);
    let mut octree = Octree::new();
    octree.set(at(-2, -2, -2, 2), leaf);
    octree.set(at(0, 0, 0, 2), leaf);
    octree.remove(at(-2, -2, -2, 2));
    octree.set(at(3, -4, 1, 3), leaf);
    let nodes = octree.nodes.clone();
    let free = octree.free_branches.clone();
    let bytes = octree.bytes();
    octree.set(at(3, -4, 1, 3), leaf);
    assert_eq!(octree.nodes, nodes);
    assert_eq!(octree.free_branches, free);
    assert_eq!(octree.bytes(), bytes);
}

#[test]
fn a_second_removal_changes_no_byte() {
    let leaf = Node::solid(1, 2, 3);
    let mut octree = Octree::new();
    octree.set(at(-2, -2, -2, 2), leaf);
    octree.set(at(0, 0, 0, 2), leaf);
    octree.set(at(3, -4, 1, 3), leaf);
    octree.remove(at(0, 0, 0, 2));
    let nodes = octree.nodes.clone();
    let free = octree.free_branches.clone();
    octree.remove(at(0, 0, 0, 2));
    assert_eq!(octree.nodes, nodes);
    assert_eq!(octree.free_branches, free);
    octree.remove(at(1, 1, 1, 3));
    assert_eq!(octree.nodes, nodes);
    assert_eq!(octree.free_branches, free);
}

#[test]
fn a_second_write_that_splits_a_collapsed_leaf_may_move_free_blocks() {
    let leaf = Node::solid(1, 2, 3);
    let mut octree = Octree::new();
    octree.set(at(-2, -2, -2, 2), leaf);
    octree.set(at(0, 0, 0, 2), leaf);
    octree.remove(at(-2, -2, -2, 2));
    assert_eq!(octree.free_branches, vec![9]);
    for x in 0..2 {
        for y in 0..2 {
            for z in 0..2 {
                octree.set(at(x, y, z, 2), leaf);
            }
        }
    }
    // The eight leaves have become one, a level up, and their block was cut off.
    assert_eq!(octree.get(at(0, 0, 0, 1)), Some(leaf));
    assert_eq!(octree.len(), 17);
    assert_eq!(octree.free_branches, vec![9]);
    // The same write again splits that leaf into the free block, which is the last
    // of the pool by now, and gives it back: the tree is the same, the pool shorter.
    octree.set(at(1, 1, 1, 2), leaf);
    assert_eq!(octree.get(at(0, 0, 0, 1)), Some(leaf));
    assert_eq!(octree.get(at(-1, -1, -1, 1)), Some(Node::empty()));
    assert_eq!(octree.len(), 9);
    assert!(octree.free_branches.is_empty());
}

#[test]
fn one_write_into_a_new_octree_lays_a_chain_and_its_removal_takes_it_back() {
    let leaf = Node::solid(7, 7, 7);
    for depth in [0u32, 1, 2, 5, 17, 32] {
        let branch = at(-1, 0, -1, depth);
        let mut octree = Octree::new();
        octree.set(branch, leaf);
        assert_eq!(octree.len(), 1 + 8 * depth);
        assert!(octree.free_branches.is_empty());
        for level in 0..depth {
            let stop = if level == 0 { 0 } else { 1 + 8 * (level - 1) + branch.child(level - 1) };
            assert_eq!(octree.nodes[stop as usize], Node::parent(1 + 8 * level));
        }
        assert_eq!(octree.get(branch), Some(leaf));
        octree.remove(branch);
        assert_eq!(octree.nodes, vec![Node::empty()]);
        assert!(octree.free_branches.is_empty());
        assert_eq!(octree.size(), 8);
    }
}
