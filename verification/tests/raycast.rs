use oakum::branch::{Branch, IVec3};
use oakum::node::Node;
use oakum::octree::Octree;
use oakum::raycast::{Entry, Look, RayWalk};

type V = [f32; 3];

#[derive(Debug)]
struct Hit {
    index: u32,
    branch: Branch,
    point: V,
    normal: [i32; 3],
}

fn add(a: V, b: V) -> V {
    [a[0] + b[0], a[1] + b[1], a[2] + b[2]]
}

fn scale(a: V, s: f32) -> V {
    [a[0] * s, a[1] * s, a[2] * s]
}

fn in_bounds(p: V) -> bool {
    p.iter().all(|c| c.abs() <= 1.0)
}

fn project(origin: V, direction: V) -> Option<V> {
    if in_bounds(origin) {
        return Some(origin);
    }
    let mut near = f32::NEG_INFINITY;
    let mut far = f32::INFINITY;
    for axis in 0..3 {
        let low = (-1.0 - origin[axis]) / direction[axis];
        let high = (1.0 - origin[axis]) / direction[axis];
        near = near.max(low.min(high));
        far = far.min(low.max(high));
    }
    if near > far || far < 0.0 {
        return None;
    }
    Some(add(origin, scale(direction, near)))
}

/// The ray's own part of the walk: it follows the point, the octree's walk
/// follows the cubes.
fn raycast_normalized(octree: &Octree, origin: V, direction: V) -> Option<Hit> {
    let mut point = project(origin, direction)?;
    let length = (direction[0] * direction[0] + direction[1] * direction[1] + direction[2] * direction[2]).sqrt();
    let direction = scale(direction, 1.0 / length);
    let mut normal = [0i32; 3];
    for axis in 0..3 {
        if point[axis].abs() >= 1.0 {
            normal[axis] = point[axis].signum() as i32;
        }
    }
    match octree.ray_enter() {
        Entry::Miss => return None,
        Entry::Hit => {
            return Some(Hit { index: octree.root(), branch: Branch::root(), point, normal });
        }
        Entry::Inside => {}
    }
    let mut child = 0;
    for axis in 0..3 {
        if point[axis] >= 0.0 {
            child |= 1 << axis;
        }
    }
    let mut walk = RayWalk::start(octree, child);
    let mut steps = 0;
    loop {
        steps += 1;
        assert!(steps < 100_000, "the walk does not end");
        let branch = walk.branch();
        let cells = (1u64 << (branch.depth - 1)) as f32;
        let path = [branch.path.x as f32, branch.path.y as f32, branch.path.z as f32];
        let centre = [
            (path[0] + 0.5) / cells,
            (path[1] + 0.5) / cells,
            (path[2] + 0.5) / cells,
        ];
        match walk.look(octree) {
            Look::Parent => {
                let mut child = 0;
                for axis in 0..3 {
                    if point[axis] >= centre[axis] {
                        child |= 1 << axis;
                    }
                }
                walk.descend(octree, child);
            }
            Look::Solid { index, branch } => {
                return Some(Hit {
                    index,
                    branch,
                    point: add(point, scale(direction, 0.0001)),
                    normal,
                });
            }
            Look::Empty => {
                let mut t = [0.0f32; 3];
                for axis in 0..3 {
                    let bound = centre[axis] + direction[axis].signum() / (2.0 * cells);
                    t[axis] = (bound - point[axis]) / direction[axis];
                }
                let least = t[0].min(t[1]).min(t[2]);
                let axis = if least == t[0] {
                    0
                } else if least == t[1] {
                    1
                } else {
                    2
                };
                let forward = direction[axis].signum() > 0.0;
                normal = [0; 3];
                normal[axis] = if forward { -1 } else { 1 };
                point = add(point, scale(direction, least));
                if !walk.advance(octree, axis as u32, forward) {
                    return None;
                }
            }
        }
    }
}

fn at(x: i32, y: i32, z: i32, depth: u32) -> Branch {
    Branch::new(IVec3::new(x, y, z), depth)
}

#[test]
fn empty_tree_raycast() {
    let octree = Octree::new();
    assert_eq!(octree.ray_enter(), Entry::Miss);
    assert!(raycast_normalized(&octree, [2.0, 0.0, 0.0], [-1.0, 0.0, 0.0]).is_none());
    assert!(raycast_normalized(&octree, [0.1, 0.2, 0.3], [0.3, -0.5, 0.8]).is_none());
    assert!(raycast_normalized(&octree, [0.0, 5.0, 0.0], [0.0, -1.0, 0.0]).is_none());
}

#[test]
fn solid_root_raycast() {
    let mut octree = Octree::new();
    octree.set(Branch::root(), Node::solid(1, 2, 3));
    assert_eq!(octree.ray_enter(), Entry::Hit);
    let hit = raycast_normalized(&octree, [2.0, 0.0, 0.0], [-1.0, 0.0, 0.0]).unwrap();
    assert_eq!(hit.index, 0);
    assert_eq!(hit.branch, Branch::root());
    assert_eq!(hit.normal, [1, 0, 0]);
    assert!((hit.point[0] - 1.0).abs() < 1e-5);
    assert!(hit.point[1].abs() < 1e-5);
    assert!(hit.point[2].abs() < 1e-5);
}

#[test]
fn a_ray_that_passes_the_root_misses() {
    let mut octree = Octree::new();
    octree.set(Branch::root(), Node::solid(1, 2, 3));
    assert!(raycast_normalized(&octree, [2.0, 3.0, 0.0], [-1.0, 0.0, 0.0]).is_none());
    assert!(raycast_normalized(&octree, [2.0, 0.0, 0.0], [1.0, 0.0, 0.0]).is_none());
}

#[test]
fn a_ray_finds_the_leaf_behind_empty_cubes() {
    let mut octree = Octree::new();
    let leaf = Node::solid(9, 8, 7);
    // The cube from (-1, 0.25, 0.25) to (-0.75, 0.5, 0.5).
    let target = at(-4, 1, 1, 3);
    octree.set(target, leaf);
    let hit = raycast_normalized(&octree, [2.0, 0.3, 0.4], [-1.0, 0.0, 0.0]).unwrap();
    assert_eq!(hit.branch, target);
    assert_eq!(octree.nodes[hit.index as usize], leaf);
    assert_eq!(octree.get(hit.branch), Some(leaf));
    assert_eq!(hit.normal, [1, 0, 0]);
    assert!((hit.point[0] - (-0.75)).abs() < 1e-3);
    assert!((hit.point[1] - 0.3).abs() < 1e-3);
    assert!((hit.point[2] - 0.4).abs() < 1e-3);

    // From the other side the leaf is met at once, on the face of the root.
    let hit = raycast_normalized(&octree, [-2.0, 0.3, 0.4], [1.0, 0.0, 0.0]).unwrap();
    assert_eq!(hit.branch, target);
    assert_eq!(hit.normal, [-1, 0, 0]);

    // A ray one cube higher passes it.
    assert!(raycast_normalized(&octree, [2.0, 0.6, 0.4], [-1.0, 0.0, 0.0]).is_none());
}

#[test]
fn a_slanted_ray_hits_the_face_it_came_through() {
    let mut octree = Octree::new();
    let leaf = Node::solid(1, 1, 1);
    octree.set(at(0, 0, 0, 2), leaf);
    // From above and a little to the side, down onto the cube from (0,0,0) to (0.5,0.5,0.5).
    let hit = raycast_normalized(&octree, [0.1, 0.95, 0.2], [0.1, -1.0, 0.05]).unwrap();
    assert_eq!(hit.branch, at(0, 0, 0, 2));
    assert_eq!(hit.normal, [0, 1, 0]);
    assert!((hit.point[1] - 0.5).abs() < 1e-3);
}

#[test]
fn a_ray_with_a_zero_component_terminates() {
    let mut octree = Octree::new();
    octree.set(at(3, -2, 1, 3), Node::solid(5, 5, 5));
    octree.set(at(-7, 6, -3, 4), Node::solid(6, 6, 6));
    octree.set(at(0, 0, -1, 5), Node::solid(7, 7, 7));
    for direction in [
        [1.0, 0.0, 0.0],
        [-1.0, 0.0, 0.0],
        [0.0, 1.0, 0.0],
        [0.0, -1.0, 0.3],
        [0.5, 0.0, -1.0],
        [-0.2, 0.7, 0.0],
    ] {
        for origin in [[0.1, 0.2, 0.3], [-0.6, 0.55, -0.15], [0.9, -0.9, 0.9]] {
            // The walk ends, in a hit or outside the root.
            let hit = raycast_normalized(&octree, origin, direction);
            if let Some(hit) = hit {
                assert!(octree.nodes[hit.index as usize].is_solid());
                assert_eq!(octree.get(hit.branch), Some(octree.nodes[hit.index as usize]));
            }
        }
    }
}

#[test]
fn the_walk_steps_from_cube_to_cube() {
    let mut octree = Octree::new();
    let leaf = Node::solid(2, 2, 2);
    octree.set(at(-2, -2, -2, 2), leaf);
    assert_eq!(octree.ray_enter(), Entry::Inside);
    // Start in the upper octant and walk down along x.
    let mut walk = RayWalk::start(&octree, 7);
    assert_eq!(walk.branch(), at(0, 0, 0, 1));
    assert_eq!(walk.look(&octree), Look::Empty);
    assert!(walk.advance(&octree, 0, false));
    assert_eq!(walk.branch(), at(-1, 0, 0, 1));
    assert_eq!(walk.look(&octree), Look::Empty);
    assert!(walk.advance(&octree, 1, false));
    assert_eq!(walk.branch(), at(-1, -1, 0, 1));
    assert!(walk.advance(&octree, 2, false));
    assert_eq!(walk.branch(), at(-1, -1, -1, 1));
    assert_eq!(walk.look(&octree), Look::Parent);
    walk.descend(&octree, 0);
    assert_eq!(walk.branch(), at(-2, -2, -2, 2));
    match walk.look(&octree) {
        Look::Solid { index, branch } => {
            assert_eq!(branch, at(-2, -2, -2, 2));
            assert_eq!(octree.nodes[index as usize], leaf);
        }
        other => panic!("expected a solid cube, found {:?}", other),
    }
    // One step up along x stays in the subdivided octant.
    assert!(walk.advance(&octree, 0, true));
    assert_eq!(walk.branch(), at(-1, -2, -2, 2));
    // The next leaves it and stops at the empty octant beside it.
    assert!(walk.advance(&octree, 0, true));
    assert_eq!(walk.branch(), at(0, -1, -1, 1));
    assert_eq!(walk.look(&octree), Look::Empty);
    // And the one after that leaves the root.
    assert!(!walk.advance(&octree, 0, true));
    assert_eq!(walk.branch(), at(0, -1, -1, 1));
    assert!(!walk.advance(&octree, 1, false));
    assert!(walk.advance(&octree, 1, true));
    assert_eq!(walk.branch(), at(0, 0, -1, 1));
}
