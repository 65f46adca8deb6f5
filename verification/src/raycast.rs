//! The walk of a ray through the octree, as far as it is made of whole
//! numbers: which cube the ray is in, which node holds it, and where the
//! walk goes when the ray leaves the cube through one of its faces.
//!
//! The caller follows the ray itself: it picks the child that holds the
//! point when the walk goes down, and the face through which the ray leaves
//! when the walk goes on.

use crate::branch::{pow2_i64, Branch, IVec3, MAX_DEPTH};
use crate::octree::Octree;
use crate::path::lemma_path_get;
use crate::pool::{
    cell_ok, lemma_path_walk, lemma_wf_len, lemma_wf_parent, lemma_wf_parent_level, on_path, walk,
};
use vstd::prelude::*;

verus! {

/// What the walk finds in the cube it has come to.
#[derive(Clone, Copy, Debug, PartialEq, Eq, Structural)]
pub enum Look {
    /// The cube is subdivided: the walk has to go down.
    Parent,
    /// The cube is solid: the ray hits the leaf at `index`, which fills the
    /// cube at `branch`.
    Solid { index: u32, branch: Branch },
    /// The cube is empty: the walk has to go on.
    Empty,
}

/// What the ray finds at the root.
#[derive(Clone, Copy, Debug, PartialEq, Eq, Structural)]
pub enum Entry {
    /// The octree is one empty leaf.
    Miss,
    /// The octree is one solid leaf.
    Hit,
    /// The root is subdivided.
    Inside,
}

/// The walk of a ray: the cube it is in, the block that holds the node of
/// that cube, and the blocks of the cubes around it, from the root down.
pub struct RayWalk {
    branch: Branch,
    parent: u32,
    stack: [u32; 32],
    idx: Ghost<Seq<int>>,
}

impl Octree {
    /// What a ray that has reached the root cube finds there.
    pub fn ray_enter(&self) -> (entry: Entry)
        requires
            self.wf(),
        ensures
            entry == if self.nodes[0].is_empty() {
                Entry::Miss
            } else if self.nodes[0].is_solid() {
                Entry::Hit
            } else {
                Entry::Inside
            },
            entry == Entry::Inside ==> self.nodes[0].is_parent(),
    {
        proof {
            lemma_wf_len(self.nodes@, self.free_branches@);
        }
        let root = self.nodes[0];
        proof {
            root.lemma_empty_iff();
        }
        if root.is_empty() {
            Entry::Miss
        } else if root.is_solid() {
            Entry::Hit
        } else {
            Entry::Inside
        }
    }
}

impl RayWalk {
    /// The cube that the walk is in.
    pub closed spec fn spec_branch(&self) -> Branch {
        self.branch
    }

    /// The index of the node that holds the cube.
    pub closed spec fn spec_index(&self) -> int {
        self.idx@[self.branch.depth as int]
    }

    /// The walk stands in the octree: its branch names a cube below the
    /// root, and the blocks it has kept are those that lead from the root to
    /// the node of that cube.
    pub closed spec fn wf(&self, octree: &Octree) -> bool {
        &&& octree.wf()
        &&& 1 <= self.branch.depth <= MAX_DEPTH
        &&& self.branch.in_range()
        &&& on_path(octree.nodes@, self.branch.cell(), self.idx@, self.branch.depth as int)
        &&& forall|j: int|
            0 <= j < self.branch.depth ==> #[trigger] self.stack[j] == octree.nodes@[self.idx@[j]].data
        &&& self.parent == self.stack[self.branch.depth - 1]
    }

    /// The cube that the walk is in.
    pub fn branch(&self) -> (branch: Branch)
        ensures
            branch == self.spec_branch(),
    {
        self.branch
    }

    /// Starts the walk in one of the eight cubes below a subdivided root.
    pub fn start(octree: &Octree, child: u32) -> (walk: RayWalk)
        requires
            octree.wf(),
            octree.nodes[0].is_parent(),
            child < 8,
        ensures
            walk.wf(octree),
            walk.spec_branch() == Branch::root().spec_with_child(child as int),
            walk.spec_branch().cell() == seq![child as int],
    {
        proof {
            lemma_wf_len(octree.nodes@, octree.free_branches@);
            lemma_wf_parent(octree.nodes@, octree.free_branches@, 0);
            vstd::arithmetic::power2::lemma2_to64();
            Branch::root().lemma_with_child_cell(child as int);
            assert(Seq::<int>::empty().push(child as int) =~= seq![child as int]);
        }
        let pointer = octree.nodes[0].pointer();
        let mut stack: [u32; 32] = [0;32];
        stack[0] = pointer;
        let branch = Branch::root().with_child(child);
        let ghost idx = seq![0int, pointer as int + child as int];
        RayWalk { branch, parent: pointer, stack, idx: Ghost(idx) }
    }

    /// Looks at the cube that the walk is in: the node of the cube is the
    /// leaf that the octree holds there, or an interior node where the cube
    /// is subdivided.
    pub fn look(&self, octree: &Octree) -> (look: Look)
        requires
            self.wf(octree),
        ensures
            0 <= self.spec_index() < octree.nodes.len(),
            self.spec_index() == walk(octree.nodes@, 0, self.spec_branch().cell()),
            octree@.get(self.spec_branch().cell()) == if octree.nodes[self.spec_index()].is_parent() {
                None
            } else {
                Some(octree.nodes[self.spec_index()])
            },
            look == if octree.nodes[self.spec_index()].is_parent() {
                Look::Parent
            } else if octree.nodes[self.spec_index()].is_solid() {
                Look::Solid { index: self.spec_index() as u32, branch: self.spec_branch() }
            } else {
                Look::Empty
            },
    {
        let depth = self.branch.depth;
        proof {
            self.branch.lemma_cell_entries();
            lemma_wf_len(octree.nodes@, octree.free_branches@);
            lemma_wf_parent(octree.nodes@, octree.free_branches@, self.idx@[depth - 1]);
            lemma_path_get(octree.nodes@, self.branch.cell(), self.idx@, depth as int, 0);
            lemma_path_walk(octree.nodes@, self.branch.cell(), self.idx@, depth as int, 0);
            assert(self.branch.cell().skip(0) =~= self.branch.cell());
        }
        let child = self.branch.child(depth - 1);
        let index = self.parent + child;
        let node = octree.nodes[index as usize];
        proof {
            node.lemma_empty_iff();
        }
        if node.is_parent() {
            Look::Parent
        } else if node.is_solid() {
            Look::Solid { index, branch: self.branch }
        } else {
            Look::Empty
        }
    }
}

/// The coordinate along `axis`.
pub open spec fn spec_along(branch: Branch, axis: int) -> int {
    if axis == 0 {
        branch.path.x as int
    } else if axis == 1 {
        branch.path.y as int
    } else {
        branch.path.z as int
    }
}

/// One step along an axis, forward or back.
pub open spec fn spec_step(forward: bool) -> int {
    if forward {
        1
    } else {
        -1
    }
}

/// The cube next to `branch`, one step along `axis`, lies in the root.
pub open spec fn spec_stays(branch: Branch, axis: int, forward: bool) -> bool {
    Branch::axis_in_range(spec_along(branch, axis) + spec_step(forward), branch.depth as int)
}

/// The cube next to `branch` on the same level: one step along `axis`,
/// forward or back.
pub open spec fn spec_neighbour(branch: Branch, axis: int, forward: bool) -> Branch {
    Branch {
        path: IVec3 {
            x: (branch.path.x + if axis == 0 {
                spec_step(forward)
            } else {
                0
            }) as i32,
            y: (branch.path.y + if axis == 1 {
                spec_step(forward)
            } else {
                0
            }) as i32,
            z: (branch.path.z + if axis == 2 {
                spec_step(forward)
            } else {
                0
            }) as i32,
        },
        depth: branch.depth,
    }
}

/// The cube next to `branch`, one step along `axis`, if it lies in the root.
pub fn neighbour(branch: Branch, axis: u32, forward: bool) -> (next: Option<Branch>)
    requires
        branch.in_range(),
        1 <= branch.depth,
        axis < 3,
    ensures
        next is Some == spec_stays(branch, axis as int, forward),
        next is Some ==> next == Some(spec_neighbour(branch, axis as int, forward))
            && next->Some_0.in_range(),
{
    proof {
        Branch::lemma_axis_bounds(branch.path.x as int, branch.depth as int);
        Branch::lemma_axis_bounds(branch.path.y as int, branch.depth as int);
        Branch::lemma_axis_bounds(branch.path.z as int, branch.depth as int);
    }
    let half = pow2_i64(branch.depth - 1);
    let was: i64 = if axis == 0 {
        branch.path.x as i64
    } else if axis == 1 {
        branch.path.y as i64
    } else {
        branch.path.z as i64
    };
    let now: i64 = if forward {
        was + 1
    } else {
        was - 1
    };
    if now < -half || now >= half {
        return None;
    }
    let x = if axis == 0 {
        now as i32
    } else {
        branch.path.x
    };
    let y = if axis == 1 {
        now as i32
    } else {
        branch.path.y
    };
    let z = if axis == 2 {
        now as i32
    } else {
        branch.path.z
    };
    Some(Branch { path: IVec3 { x, y, z }, depth: branch.depth })
}

/// The number of steps that the ways to two cubes of one level have in
/// common, the last step left out: the ways agree in the steps before
/// `level` and part at step `level`, unless that is the last step.
fn shared(from: Branch, to: Branch) -> (level: u32)
    requires
        1 <= from.depth <= MAX_DEPTH,
        to.depth == from.depth,
    ensures
        level < from.depth,
        forall|j: int| 0 <= j < level ==> #[trigger] to.cell()[j] == from.cell()[j],
        level + 1 < from.depth ==> to.cell()[level as int] != from.cell()[level as int],
{
    let mut level: u32 = 0;
    let mut parted = false;
    while level + 1 < from.depth && !parted
        invariant
            level < from.depth <= MAX_DEPTH,
            to.depth == from.depth,
            forall|j: int| 0 <= j < level ==> #[trigger] to.cell()[j] == from.cell()[j],
            parted ==> to.cell()[level as int] != from.cell()[level as int],
        decreases from.depth - level, if parted { 0int } else { 1int },
    {
        if to.child(level) == from.child(level) {
            level += 1;
        } else {
            parted = true;
        }
    }
    level
}

impl RayWalk {
    /// Goes down into one of the eight cubes of the subdivided cube that the
    /// walk is in.
    pub fn descend(&mut self, octree: &Octree, child: u32)
        requires
            old(self).wf(octree),
            octree.nodes[old(self).spec_index()].is_parent(),
            child < 8,
        ensures
            final(self).wf(octree),
            final(self).spec_branch() == old(self).spec_branch().spec_with_child(child as int),
            final(self).spec_branch().cell() == old(self).spec_branch().cell().push(child as int),
    {
        let depth = self.branch.depth;
        let ghost cell = self.branch.cell();
        let ghost here = self.idx@[depth as int];
        proof {
            self.branch.lemma_cell_entries();
            lemma_wf_len(octree.nodes@, octree.free_branches@);
            lemma_wf_parent(octree.nodes@, octree.free_branches@, self.idx@[depth - 1]);
            lemma_wf_parent(octree.nodes@, octree.free_branches@, here);
            lemma_wf_parent_level(octree.nodes@, octree.free_branches@, cell, self.idx@, depth as int);
            self.branch.lemma_with_child_cell(child as int);
            Branch::lemma_axis_bounds(self.branch.path.x as int, depth as int);
            Branch::lemma_axis_bounds(self.branch.path.y as int, depth as int);
            Branch::lemma_axis_bounds(self.branch.path.z as int, depth as int);
        }
        let at = self.branch.child(depth - 1);
        let pointer = octree.nodes[(self.parent + at) as usize].pointer();
        let ghost longer = self.idx@.push(pointer as int + child as int);
        self.stack[depth as usize] = pointer;
        self.parent = pointer;
        self.branch = self.branch.with_child(child);
        self.idx = Ghost(longer);
        proof {
            let wider = self.branch.cell();
            assert forall|j: int| 0 <= j < depth + 1 implies octree.nodes@[#[trigger] longer[j]].is_parent()
                && longer[j + 1] == octree.nodes@[longer[j]].data + wider[j] by {
                if j < depth {
                    assert(longer[j] == old(self).idx@[j]);
                    assert(longer[j + 1] == old(self).idx@[j + 1]);
                    assert(wider[j] == cell[j]);
                }
            }
            assert forall|j: int| 0 <= j <= depth + 1 implies 0 <= #[trigger] longer[j]
                < octree.nodes@.len() by {
                if j <= depth {
                    assert(longer[j] == old(self).idx@[j]);
                }
            }
            assert forall|j: int| 0 <= j < depth + 1 implies #[trigger] self.stack[j]
                == octree.nodes@[longer[j]].data by {
                if j < depth {
                    assert(self.stack[j] == old(self).stack[j]);
                    assert(longer[j] == old(self).idx@[j]);
                }
            }
        }
    }

    /// Goes down from the block at `level` toward `target`, through every
    /// cube that is subdivided, and stops in the leaf that holds `target`, or
    /// in `target` itself.
    fn settle(&mut self, octree: &Octree, target: Branch, start: u32, Ghost(begun): Ghost<Seq<int>>)
        requires
            octree.wf(),
            start < target.depth <= MAX_DEPTH,
            target.in_range(),
            on_path(octree.nodes@, target.cell(), begun, start as int),
            octree.nodes@[begun[start as int]].is_parent(),
            forall|j: int|
                0 <= j <= start ==> #[trigger] old(self).stack[j] == octree.nodes@[begun[j]].data,
        ensures
            final(self).wf(octree),
            1 <= final(self).spec_branch().depth <= target.depth,
            final(self).spec_branch() == target.spec_ancestor(final(self).spec_branch().depth as int),
            final(self).spec_branch().depth == target.depth || !octree.nodes[final(self).spec_index()].is_parent(),
    {
        let depth = target.depth;
        let mut level = start;
        let ghost mut chain = begun;
        proof {
            target.lemma_cell_entries();
            lemma_wf_len(octree.nodes@, octree.free_branches@);
        }
        loop
            invariant
                octree.wf(),
                octree.nodes@.len() <= u32::MAX,
                0 <= level < depth <= MAX_DEPTH,
                target.depth == depth,
                target.in_range(),
                cell_ok(target.cell()),
                target.cell().len() == depth,
                on_path(octree.nodes@, target.cell(), chain, level as int),
                octree.nodes@[chain[level as int]].is_parent(),
                forall|j: int|
                    0 <= j <= level ==> #[trigger] self.stack[j] == octree.nodes@[chain[j]].data,
            decreases depth - level,
        {
            proof {
                lemma_wf_parent(octree.nodes@, octree.free_branches@, chain[level as int]);
            }
            let child = target.child(level);
            let index = self.stack[level as usize] + child;
            let node = octree.nodes[index as usize];
            let ghost longer = chain.push(index as int);
            proof {
                assert forall|j: int| 0 <= j < level + 1 implies octree.nodes@[#[trigger] longer[j]].is_parent()
                    && longer[j + 1] == octree.nodes@[longer[j]].data + target.cell()[j] by {
                    if j < level {
                        assert(longer[j] == chain[j]);
                        assert(longer[j + 1] == chain[j + 1]);
                    }
                }
                assert forall|j: int| 0 <= j <= level + 1 implies 0 <= #[trigger] longer[j]
                    < octree.nodes@.len() by {
                    if j <= level {
                        assert(longer[j] == chain[j]);
                    }
                }
            }
            if level + 1 == depth || !node.is_parent() {
                self.branch = target.ancestor(level + 1);
                self.parent = self.stack[level as usize];
                self.idx = Ghost(longer);
                proof {
                    target.lemma_ancestor_cell(level + 1);
                    let short = self.branch.cell();
                    assert forall|j: int| 0 <= j < level + 1 implies octree.nodes@[#[trigger] longer[j]].is_parent()
                        && longer[j + 1] == octree.nodes@[longer[j]].data + short[j] by {
                        assert(short[j] == target.cell()[j]);
                    }
                    assert forall|j: int| 0 <= j < level + 1 implies #[trigger] self.stack[j]
                        == octree.nodes@[longer[j]].data by {
                        assert(longer[j] == chain[j]);
                    }
                }
                return ;
            }
            proof {
                chain = longer;
            }
            self.stack[(level + 1) as usize] = node.pointer();
            level += 1;
        }
    }

    /// Goes on to the cube next to the one that the walk is in, one step
    /// along `axis`. Says whether that cube lies in the root. If it does,
    /// the walk stands afterwards in the leaf that holds the cube, or in the
    /// cube itself: it went back up as far as the step made it, and down
    /// again through every cube that is subdivided.
    pub fn advance(&mut self, octree: &Octree, axis: u32, forward: bool) -> (inside: bool)
        requires
            old(self).wf(octree),
            axis < 3,
        ensures
            inside == spec_stays(old(self).spec_branch(), axis as int, forward),
            final(self).wf(octree),
            !inside ==> final(self).spec_branch() == old(self).spec_branch(),
            inside ==> 1 <= final(self).spec_branch().depth <= old(self).spec_branch().depth,
            inside ==> final(self).spec_branch() == spec_neighbour(
                old(self).spec_branch(),
                axis as int,
                forward,
            ).spec_ancestor(final(self).spec_branch().depth as int),
            inside ==> final(self).spec_branch().depth == old(self).spec_branch().depth
                || !octree.nodes[final(self).spec_index()].is_parent(),
    {
        let target = match neighbour(self.branch, axis, forward) {
            Some(target) => target,
            None => {
                return false;
            },
        };
        let level = shared(self.branch, target);
        let ghost chain = self.idx@.take(level + 1);
        proof {
            let cell = self.branch.cell();
            let wider = target.cell();
            assert forall|j: int| 0 <= j < level implies octree.nodes@[#[trigger] chain[j]].is_parent()
                && chain[j + 1] == octree.nodes@[chain[j]].data + wider[j] by {
                assert(chain[j] == self.idx@[j]);
                assert(chain[j + 1] == self.idx@[j + 1]);
                assert(wider[j] == cell[j]);
            }
            assert forall|j: int| 0 <= j <= level implies 0 <= #[trigger] chain[j]
                < octree.nodes@.len() by {
                assert(chain[j] == self.idx@[j]);
            }
            assert(chain[level as int] == self.idx@[level as int]);
            assert forall|j: int| 0 <= j <= level implies #[trigger] self.stack[j]
                == octree.nodes@[chain[j]].data by {
                assert(chain[j] == self.idx@[j]);
            }
        }
        self.settle(octree, target, level, Ghost(chain));
        true
    }
}

} // verus!
