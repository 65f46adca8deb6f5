use oakum::branch::{Branch, IVec3};
use oakum::dynamic::DynamicOctree;
use oakum::node::Node;
use oakum::octree::Octree;
use oakum::segment::Segment;

/// A small generator of numbers that look random and are the same in every run.
struct Dice(u64);

impl Dice {
    fn roll(&mut self, sides: u32) -> u32 {
        self.0 = self.0.wrapping_mul(6364136223846793005).wrapping_add(1442695040888963407);
        ((self.0 >> 33) % sides as u64) as u32
    }

    fn branch(&mut self, deepest: u32) -> Branch {
        let depth = self.roll(deepest + 1);
        if depth == 0 {
            return Branch::root();
        }
        let span = 1i64 << depth;
        let half = span / 2;
        let mut pick = || (self.roll(span as u32) as i64 - half) as i32;
        let (x, y, z) = (pick(), pick(), pick());
        Branch::new(IVec3::new(x, y, z), depth)
    }

    fn leaf(&mut self) -> Node {
        match self.roll(4) {
            0 => Node::empty(),
            1 => Node::solid(1, 2, 3),
            2 => Node::translucent(9, 9, 9),
            _ => Node::solid(200, 100, 50),
        }
    }
}

fn leaves(octree: &Octree) -> Vec<(Branch, Node)> {
    let mut iter = octree.iter_nodes();
    let mut found = Vec::new();
    while let Some(leaf) = iter.next() {
        found.push(leaf);
    }
    found
}

/// The pool's rules, checked node by node.
fn check_pool(octree: &Octree) {
    assert!(octree.is_well_formed());
    let len = octree.nodes.len();
    assert!(len >= 1);
    assert_eq!((len - 1) % 8, 0);
    let mut owner = vec![None; len];
    for (index, node) in octree.nodes.iter().enumerate() {
        if node.is_parent() {
            assert!(!node.is_solid());
            let pointer = node.pointer() as usize;
            assert!(pointer > 0);
            assert!(pointer + 8 <= len);
            assert_eq!((pointer - 1) % 8, 0);
            assert!(owner[pointer].is_none(), "a block has two parents");
            owner[pointer] = Some(index);
            assert!(!octree.free_branches.contains(&(pointer as u32)));
        }
    }
    // No walk from the root comes back to a node it has met: every node is met once.
    let mut met = vec![false; len];
    let mut stack = vec![(0usize, 0u32)];
    while let Some((index, depth)) = stack.pop() {
        assert!(!met[index], "a node is met twice");
        met[index] = true;
        assert!(depth <= 32);
        if octree.nodes[index].is_parent() {
            for child in 0..8 {
                stack.push((octree.nodes[index].pointer() as usize + child, depth + 1));
            }
        }
    }
    let mut seen = Vec::new();
    for free in &octree.free_branches {
        let free = *free as usize;
        assert!(free >= 1 && free + 8 <= len);
        assert_eq!((free - 1) % 8, 0);
        assert!(!seen.contains(&free), "a block is free twice");
        seen.push(free);
        for child in 0..8 {
            assert!(!met[free + child], "a free block is in use");
            assert!(!octree.nodes[free + child].is_parent());
        }
    }
}

/// No interior node has eight children that are one and the same leaf.
fn coalesced(octree: &Octree) -> bool {
    octree.nodes.iter().enumerate().all(|(index, node)| {
        if !node.is_parent() || !reachable(octree, index) {
            return true;
        }
        let pointer = node.pointer() as usize;
        let first = octree.nodes[pointer];
        first.is_parent() || (1..8).any(|child| octree.nodes[pointer + child] != first)
    })
}

fn reachable(octree: &Octree, wanted: usize) -> bool {
    let mut stack = vec![0usize];
    while let Some(index) = stack.pop() {
        if index == wanted {
            return true;
        }
        if octree.nodes[index].is_parent() {
            for child in 0..8 {
                stack.push(octree.nodes[index].pointer() as usize + child);
            }
        }
    }
    false
}

fn check_walk(octree: &Octree) {
    for (branch, leaf) in leaves(octree) {
        assert!(!leaf.is_empty());
        assert!(!leaf.is_parent());
        assert_eq!(octree.get(branch), Some(leaf));
    }
}

#[test]
fn the_pool_keeps_its_rules_through_random_edits() {
    let mut dice = Dice(7);
    let mut template = Octree::new();
    for _ in 0..12 {
        let branch = dice.branch(3);
        template.set(branch, Node::solid(4, 4, 4));
    }
    check_pool(&template);
    let mut octree = Octree::new();
    for round in 0..400 {
        match dice.roll(8) {
            0..=3 => {
                let branch = dice.branch(5);
                let leaf = dice.leaf();
                octree.set(branch, leaf);
                assert_eq!(octree.get(branch), Some(leaf), "round {}", round);
            }
            4..=5 => {
                let branch = dice.branch(5);
                octree.remove(branch);
                assert!(octree.get(branch).map_or(false, |leaf| leaf.is_empty()));
            }
            6 => assert!(octree.union(dice.branch(3), dice.roll(3), &template)),
            _ => assert!(octree.difference(dice.branch(3), dice.roll(3), &template)),
        }
        check_pool(&octree);
        check_walk(&octree);
        assert!(coalesced(&octree), "round {}", round);
    }
}

#[test]
fn writes_keep_the_tree_coalesced() {
    let mut dice = Dice(99);
    let mut octree = Octree::new();
    for _ in 0..600 {
        let branch = dice.branch(4);
        let leaf = dice.leaf();
        octree.set(branch, leaf);
        assert!(coalesced(&octree));
        check_pool(&octree);
    }
    // A removal collapses the blank leaves that it leaves under one node.
    let mut octree = Octree::new();
    octree.set(Branch::new(IVec3::new(0, 0, 0), 1), Node::solid(1, 1, 1));
    octree.remove(Branch::new(IVec3::new(0, 0, 0), 1));
    assert!(coalesced(&octree));
    assert_eq!(octree.nodes, vec![Node::empty()]);
    check_pool(&octree);
}

#[test]
fn writing_twice_is_writing_once() {
    let mut dice = Dice(3);
    let mut octree = Octree::new();
    for _ in 0..300 {
        let branch = dice.branch(4);
        let leaf = dice.leaf();
        octree.set(branch, leaf);
        let once = octree.clone();
        octree.set(branch, leaf);
        assert_eq!(octree.nodes, once.nodes);
        assert_eq!(leaves(&octree), leaves(&once));
    }
}

#[test]
fn writing_twice_differs_for_an_empty_leaf_with_flags() {
    let odd = Node { flags: Node::SHADOW_BIT, data: 0 };
    assert!(odd.is_empty());
    let mut octree = Octree::new();
    for child in 0..8 {
        octree.set(Branch::root().with_child(child), odd);
    }
    assert_eq!(octree.nodes, vec![odd]);
    // The split of an empty leaf hands down blank nodes, not the leaf.
    octree.set(Branch::root().with_child(0), odd);
    assert_eq!(octree.len(), 9);
    assert!(octree.nodes[0].is_parent());
    assert_eq!(octree.nodes[1], odd);
    assert_eq!(octree.nodes[2], Node::empty());
}

#[test]
fn write_then_clear_gives_back_what_was_there() {
    let mut dice = Dice(11);
    let mut octree = Octree::new();
    for _ in 0..40 {
        octree.set(dice.branch(4), Node::solid(8, 8, 8));
    }
    for _ in 0..200 {
        let branch = dice.branch(5);
        let before = leaves(&octree);
        let was_empty = octree.get(branch).map_or(false, |leaf| leaf.is_empty());
        let exact = octree.get(branch) == Some(Node::empty()) && depth_of_leaf(&octree, branch) == branch.depth;
        let kept = octree.clone();
        octree.set(branch, Node::solid(1, 2, 3));
        octree.remove(branch);
        if was_empty {
            // The same matter as before, though the pool may be cut up further.
            assert_eq!(leaves_by_point(&octree), leaves_by_point(&kept));
        }
        if exact {
            assert_eq!(leaves(&octree), before);
        }
        check_pool(&octree);
    }
    // Where the cube held matter, the matter is gone.
    let mut octree = Octree::new();
    let branch = Branch::new(IVec3::new(0, 0, 0), 1);
    octree.set(branch, Node::solid(5, 5, 5));
    let before = leaves(&octree);
    octree.set(branch, Node::solid(1, 2, 3));
    octree.remove(branch);
    assert_ne!(leaves(&octree), before);
}

/// The depth at which the walk toward `branch` ends.
fn depth_of_leaf(octree: &Octree, branch: Branch) -> u32 {
    let mut index = 0usize;
    for depth in 0..branch.depth {
        let node = octree.nodes[index];
        if !node.is_parent() {
            return depth;
        }
        index = (node.pointer() + branch.child(depth)) as usize;
    }
    branch.depth
}

/// What every cube of level 5 holds, matter or nothing.
fn leaves_by_point(octree: &Octree) -> Vec<Option<Node>> {
    let mut found = Vec::new();
    for x in -16..16 {
        for y in -16..16 {
            for z in -16..16 {
                let leaf = octree.get(Branch::new(IVec3::new(x, y, z), 5));
                found.push(leaf.filter(|leaf| !leaf.is_empty()));
            }
        }
    }
    found
}

#[test]
fn the_record_covers_every_changed_node() {
    let mut dice = Dice(5);
    let mut octree = DynamicOctree::empty();
    for _ in 0..300 {
        let before = octree.octree().nodes.clone();
        octree.clear_segments();
        if dice.roll(3) == 0 {
            octree.remove(dice.branch(4));
        } else {
            octree.set(dice.branch(4), dice.leaf());
        }
        let after = &octree.octree().nodes;
        let segments: Vec<Segment> = octree.segments().to_vec();
        for (index, node) in after.iter().enumerate() {
            let changed = index >= before.len() || before[index] != *node;
            let covered = segments
                .iter()
                .any(|s| s.start as usize <= index && index < (s.start + s.len) as usize);
            assert!(!changed || covered, "node {} changed and is not recorded", index);
        }
        for pair in segments.windows(2) {
            assert!(pair[0].start + pair[0].len + Segment::BATCH_THRESHOLD < pair[1].start);
        }
        for segment in &segments {
            assert!((segment.start + segment.len) as usize <= after.len());
        }
    }
}
