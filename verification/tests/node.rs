use oakum::branch::{Branch, IVec3, UVec3};
use oakum::node::Node;
use oakum::octree::Octree;

#[test]
fn flags_of_the_constructors() {
    let empty = Node::empty();
    assert_eq!(empty, Node { flags: 0, data: 0 });
    assert!(empty.is_empty() && !empty.is_solid() && !empty.is_parent() && !empty.is_shadow());

    let solid = Node::solid(1, 2, 3);
    assert_eq!(solid.flags, Node::SOLID_BIT | Node::SHADOW_BIT);
    assert_eq!(solid.data, 0x030201);
    assert!(solid.is_solid() && solid.is_shadow() && !solid.is_parent() && !solid.is_empty());
    assert_eq!((solid.r(), solid.g(), solid.b()), (1, 2, 3));
    assert_eq!(Node::rgb8(1, 2, 3), solid);

    let glass = Node::translucent(255, 0, 128);
    assert_eq!(glass.flags, Node::SOLID_BIT);
    assert_eq!(glass.data, 0x8000ff);
    assert!(glass.is_solid() && !glass.is_shadow());
    assert_eq!((glass.r(), glass.g(), glass.b()), (255, 0, 128));
    assert_eq!(Node::rgb8_translucent(255, 0, 128), glass);

    let parent = Node::parent(17);
    assert_eq!(parent, Node { flags: Node::PARENT_BIT, data: 17 });
    assert!(parent.is_parent() && !parent.is_solid() && !parent.is_empty());
    assert_eq!(parent.pointer(), 17);
    assert_eq!(Node::EMPTY_MASK, Node::PARENT_BIT | Node::SOLID_BIT);
    assert_eq!((Node::SOLID_BIT, Node::PARENT_BIT, Node::SHADOW_BIT), (1, 2, 4));
}

#[test]
fn setters_touch_one_thing() {
    let mut node = Node { flags: Node::SHADOW_BIT, data: 9 };
    node.set_solid();
    assert_eq!(node, Node { flags: 5, data: 9 });
    node.set_parent();
    assert_eq!(node, Node { flags: 7, data: 9 });
    node.set_pointer(33);
    assert_eq!(node, Node { flags: 7, data: 33 });
    node.set_empty();
    assert_eq!(node, Node { flags: 4, data: 33 });
    assert!(node.is_empty() && node.is_shadow());
}

#[test]
fn bytes_are_flags_then_data_lowest_byte_first() {
    let mut octree = Octree::new();
    octree.set(Branch::new(IVec3::new(0, 0, 0), 1), Node::solid(0x11, 0x22, 0x33));
    let bytes = octree.bytes();
    assert_eq!(bytes.len(), octree.size());
    assert_eq!(octree.size(), 72);
    assert_eq!(&bytes[0..8], &[2, 0, 0, 0, 1, 0, 0, 0]);
    assert_eq!(&bytes[8..16], &[0; 8]);
    assert_eq!(&bytes[64..72], &[5, 0, 0, 0, 0x11, 0x22, 0x33, 0]);
}

#[test]
fn branches_from_tuples() {
    let branch: Branch = (IVec3::new(1, -2, 3), 4).into();
    assert_eq!(branch, Branch::new(IVec3::new(1, -2, 3), 4));
    let branch = Branch::from((1, -2, 3, 4));
    assert_eq!(branch.path, IVec3 { x: 1, y: -2, z: 3 });
    assert_eq!(branch.depth, 4);
    assert_eq!(Branch::root(), Branch::new(IVec3::new(0, 0, 0), 0));
    assert_eq!(UVec3::splat(3), UVec3::new(3, 3, 3));
}

#[test]
fn ancestors_of_a_branch() {
    let branch = Branch::new(IVec3::new(-5, 3, 0), 4);
    assert_eq!(branch.ancestor(4), branch);
    assert_eq!(branch.ancestor(3), Branch::new(IVec3::new(-3, 1, 0), 3));
    assert_eq!(branch.ancestor(2), Branch::new(IVec3::new(-2, 0, 0), 2));
    assert_eq!(branch.ancestor(1), Branch::new(IVec3::new(-1, 0, 0), 1));
    for depth in 1..=4u32 {
        let up = branch.ancestor(depth);
        for level in 0..depth {
            assert_eq!(up.child(level), branch.child(level));
        }
    }
}

#[test]
fn extend_appends_nodes_as_they_are() {
    let mut octree = Octree::default();
    assert_eq!(octree.root(), 0);
    let index = octree.extend(&[Node::solid(1, 1, 1); 8]);
    assert_eq!(index, 1);
    assert_eq!(octree.len(), 9);
    assert_eq!(octree.nodes[8], Node::solid(1, 1, 1));
}

#[test]
fn blocks_of_the_pool() {
    let mut octree = Octree::new();
    assert_eq!(octree.push_branch(), 1);
    assert_eq!(octree.push_branch(), 9);
    assert_eq!(octree.len(), 17);
    octree.remove_branch(1);
    assert_eq!(octree.free_branches, vec![1]);
    assert_eq!(octree.len(), 17);
    octree.remove_branch(9);
    assert_eq!(octree.len(), 9);
    octree.nodes[3] = Node::solid(1, 1, 1);
    assert_eq!(octree.push_branch(), 1);
    assert_eq!(octree.nodes[3], Node::empty());
    assert!(octree.free_branches.is_empty());
}
