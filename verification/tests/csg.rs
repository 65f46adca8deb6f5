use oakum::branch::{Branch, IVec3, UVec3};
use oakum::dynamic::DynamicOctree;
use oakum::generate::{GrassBlock, Sphere};
use oakum::node::Node;
use oakum::octree::Octree;

fn at(x: i32, y: i32, z: i32, depth: u32) -> Branch {
    Branch::new(IVec3::new(x, y, z), depth)
}

/// The samples of a ball: a cell is matter where its centre lies inside.
fn sphere_samples(sphere: &Sphere) -> Vec<Option<Node>> {
    let side = sphere.dimensions().x as i32;
    let mut samples = Vec::new();
    for ix in -side..side {
        for iy in -side..side {
            for iz in -side..side {
                let x = (ix as f32 + 0.5) / side as f32;
                let y = (iy as f32 + 0.5) / side as f32;
                let z = (iz as f32 + 0.5) / side as f32;
                if (x * x + y * y + z * z).sqrt() < 1.0 {
                    samples.push(Some(Node::solid(255, 255, 255)));
                } else {
                    samples.push(None);
                }
            }
        }
    }
    samples
}

fn sphere_octree(radius: u32, depth: u32) -> Octree {
    let sphere = Sphere::new(radius, depth);
    Octree::generate(sphere.dimensions(), sphere.depth(), &sphere_samples(&sphere)).unwrap()
}

fn leaves(octree: &Octree) -> Vec<(Branch, Node)> {
    let mut iter = octree.iter_nodes();
    let mut found = Vec::new();
    while let Some(leaf) = iter.next() {
        found.push(leaf);
    }
    found
}

#[test]
fn generate_places_each_sample_at_its_cell() {
    let a = Node::solid(1, 0, 0);
    let b = Node::solid(0, 1, 0);
    // Two cells to each side: 4 x 4 x 4 samples, z fastest.
    let mut samples = vec![None; 64];
    samples[0] = Some(a); // (-2, -2, -2)
    samples[63] = Some(b); // (1, 1, 1)
    samples[(1 * 4 + 2) * 4 + 3] = Some(a); // (-1, 0, 1)
    let octree = Octree::generate(UVec3::splat(2), 2, &samples).unwrap();
    assert_eq!(octree.get(at(-2, -2, -2, 2)), Some(a));
    assert_eq!(octree.get(at(1, 1, 1, 2)), Some(b));
    assert_eq!(octree.get(at(-1, 0, 1, 2)), Some(a));
    assert_eq!(octree.get(at(0, 0, 0, 2)), Some(Node::empty()));
    assert_eq!(leaves(&octree).len(), 3);
}

#[test]
fn generate_without_samples_is_an_empty_octree() {
    let octree = Octree::generate(UVec3::splat(2), 2, &vec![None; 64]).unwrap();
    assert_eq!(octree.len(), 1);
    assert_eq!(octree.nodes[0], Node::empty());
    let octree = Octree::generate(UVec3::new(0, 3, 3), 2, &[]).unwrap();
    assert_eq!(octree.len(), 1);
}

#[test]
fn shapes_know_their_grid() {
    let sphere = Sphere::new(32, 6);
    assert_eq!(sphere.radius, 32);
    assert_eq!(sphere.depth(), 6);
    assert_eq!(sphere.dimensions(), UVec3::splat(32));
    assert_eq!(GrassBlock.dimensions(), UVec3::new(16, 16, 16));
    assert_eq!(GrassBlock.depth(), 6);
}

#[test]
fn a_full_grid_coalesces_into_one_leaf() {
    let leaf = Node::solid(3, 3, 3);
    let octree = Octree::generate(UVec3::splat(4), 3, &vec![Some(leaf); 512]).unwrap();
    assert_eq!(octree.nodes[0], leaf);
    assert_eq!(leaves(&octree), vec![(Branch::root(), leaf)]);
}

#[test]
fn csg_round_trip() {
    let template = sphere_octree(32, 6);
    assert!(leaves(&template).len() > 1000);
    let mut host = Octree::new();
    let branch = at(0, 0, 0, 4);
    assert!(host.union(branch, 0, &template));
    assert!(!leaves(&host).is_empty());
    // The centre of the ball is matter, a corner of the root is not.
    assert_eq!(host.get(at(0, 0, 0, 6)), Some(Node::solid(255, 255, 255)));
    assert_eq!(host.get(at(-32, -32, -32, 6)), Some(Node::empty()));
    assert!(host.difference(branch, 0, &template));
    assert!(leaves(&host).is_empty());
    assert_eq!(host.get(at(0, 0, 0, 6)), Some(Node::empty()));
    // The root is the blank leaf again. Blocks that were not last in the pool when they
    // were freed wait on the free list.
    assert_eq!(host.nodes[0], Node::empty());
    assert_eq!(host.get(Branch::root()), Some(Node::empty()));
    assert_eq!(host.free_branches.len() * 8 + 1, host.nodes.len());
}

#[test]
fn union_places_the_template_at_the_branch() {
    let leaf = Node::solid(4, 5, 6);
    let mut template = Octree::new();
    template.set(at(1, -2, 0, 2), leaf);
    let mut host = Octree::new();
    // Two levels further down, around the cube (3, 3, 3) of level 4.
    assert!(host.union(at(3, 3, 3, 2), 2, &template));
    assert_eq!(leaves(&host), vec![(at(4, 1, 3, 4), leaf)]);
    assert!(host.difference(at(3, 3, 3, 2), 2, &template));
    assert!(leaves(&host).is_empty());
}

#[test]
fn a_coarse_leaf_is_spread_over_the_cubes_it_covers() {
    let leaf = Node::solid(7, 7, 7);
    let mut template = Octree::new();
    // One octant of the template, one level down.
    template.set(at(0, -1, 0, 1), leaf);
    let mut host = Octree::new();
    // The target names cubes two levels below the leaf: 4 x 4 x 4 of them.
    assert!(host.union(at(0, 0, 0, 3), 0, &template));
    let mut found = leaves(&host);
    found.sort_by_key(|(branch, _)| (branch.depth, branch.path.x, branch.path.y, branch.path.z));
    // x from 0 to 3, y from -4 to -1, z from 0 to 3: the 64 cubes fill one octant of level 3
    // but for the halves the walk has coalesced.
    let mut count = 0;
    for x in 0..4 {
        for y in -4..0 {
            for z in 0..4 {
                assert_eq!(host.get(at(x, y, z, 3)), Some(leaf));
                count += 1;
            }
        }
    }
    assert_eq!(count, 64);
    assert_eq!(host.get(at(-1, -1, 0, 3)), Some(Node::empty()));
    assert_eq!(found, vec![(at(0, -1, 0, 1), leaf)]);
}

#[test]
fn union_and_difference_on_a_recording_octree() {
    let template = sphere_octree(4, 3);
    let mut host = DynamicOctree::empty();
    assert!(host.union(at(0, 0, 0, 3), 1, &template));
    let pool = host.octree().len();
    assert!(pool > 1);
    // Everything that was written is recorded.
    let covered: u32 = host.segments().iter().map(|s| s.len).sum();
    assert!(covered >= pool - 1);
    for segment in host.segments() {
        assert!(segment.end() <= pool);
    }
    host.clear_segments();
    assert!(host.difference(at(0, 0, 0, 3), 1, &template));
    assert!(leaves(host.octree()).is_empty());
    assert!(!host.segments().is_empty());
    for segment in host.segments() {
        assert!(segment.end() <= host.octree().len());
    }
}

#[test]
fn can_apply_tells_whether_a_template_fits() {
    let mut template = Octree::new();
    template.set(at(1, -2, 0, 2), Node::solid(1, 1, 1));
    assert!(oakum::csg::can_apply(at(0, 0, 0, 2), 3, &template));
    assert!(oakum::csg::can_apply(at(0, 0, 0, 10), 5, &template));
    // Two levels of the leaf and thirty-one of the placement are too deep.
    assert!(!oakum::csg::can_apply(at(0, 0, 0, 2), 31, &template));
    // So are thirty levels of the target with three of the placement.
    assert!(!oakum::csg::can_apply(at(0, 0, 0, 30), 3, &template));
    // A coordinate that leaves 32 bits.
    assert!(!oakum::csg::can_apply(at(i32::MAX, 0, 0, 2), 0, &template));
    assert!(oakum::csg::can_apply(at(i32::MAX - 1, 0, 0, 2), 0, &template));
    // An empty template fits anywhere.
    assert!(oakum::csg::can_apply(at(i32::MAX, i32::MIN, 0, 32), 32, &Octree::new()));
}

#[test]
fn union_says_that_it_is_done() {
    let mut template = Octree::new();
    template.set(at(1, -2, 0, 2), Node::solid(1, 1, 1));
    let mut host = Octree::new();
    assert!(host.union(at(0, 0, 0, 2), 3, &template));
    assert!(host.difference(at(0, 0, 0, 2), 3, &template));
    assert!(leaves(&host).is_empty());
}

#[test]
fn the_walk_hands_out_the_last_child_first() {
    let mut octree = Octree::new();
    let a = Node::solid(1, 0, 0);
    let b = Node::solid(2, 0, 0);
    let c = Node::solid(3, 0, 0);
    octree.set(Branch::root().with_child(0), a);
    octree.set(Branch::root().with_child(5), b);
    octree.set(Branch::root().with_child(5).with_child(2), c);
    let found = leaves(&octree);
    let mut expected = Vec::new();
    for child in (0..8).rev() {
        if child == 2 {
            expected.push((Branch::root().with_child(5).with_child(2), c));
        } else {
            expected.push((Branch::root().with_child(5).with_child(child), b));
        }
    }
    expected.push((Branch::root().with_child(0), a));
    assert_eq!(found, expected);
    let mut iter = octree.iter_nodes();
    for _ in 0..9 {
        assert!(iter.next().is_some());
    }
    assert_eq!(iter.next(), None);
    assert_eq!(iter.next(), None);
}

#[test]
fn eight_equal_samples_leave_one_solid_node() {
    let leaf = Node::solid(9, 8, 7);
    let octree = Octree::generate(UVec3::splat(1), 1, &vec![Some(leaf); 8]).unwrap();
    assert_eq!(octree.nodes, vec![leaf]);
    assert!(octree.free_branches.is_empty());
    assert_eq!(octree.size(), 8);
}

#[test]
fn samples_that_are_no_nodes_leave_the_pool_as_it_was() {
    let octree = Octree::generate(UVec3::splat(1), 5, &vec![None; 8]).unwrap();
    assert_eq!(octree.nodes, vec![Node::empty()]);
    assert!(octree.free_branches.is_empty());
}
