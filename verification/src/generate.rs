//! Building an octree from the samples of a shape: one sample for every cell
//! of a grid around the centre.

use crate::branch::{Branch, IVec3, UVec3, MAX_DEPTH};
use crate::layout::pool_edits;
use crate::node::Node;
use crate::octree::Octree;
use crate::pool::lemma_wf_len;
use crate::tree::{stable, Tree};
use vstd::arithmetic::div_mod::{lemma_fundamental_div_mod, lemma_mod_bound};
use vstd::prelude::*;

verus! {

/// A ball of matter, sampled on a grid of `radius` cells to each side.
#[derive(Clone, Copy, Debug, Default)]
pub struct Sphere {
    pub radius: u32,
    pub depth: u32,
}

impl Sphere {
    /// A ball on a grid of `radius` cells to each side, with leaves at `depth`.
    pub fn new(radius: u32, depth: u32) -> (sphere: Sphere)
        ensures
            sphere.radius == radius,
            sphere.depth == depth,
    {
        Sphere { radius, depth }
    }

    /// The cells to each side of the centre, along each axis.
    pub fn dimensions(&self) -> (dimensions: UVec3)
        ensures
            dimensions == (UVec3 { x: self.radius, y: self.radius, z: self.radius }),
    {
        UVec3::splat(self.radius)
    }

    /// The depth of the leaves.
    pub fn depth(&self) -> (depth: u32)
        ensures
            depth == self.depth,
    {
        self.depth
    }
}

/// A block of earth with grass on top, sampled on a grid of 16 cells to
/// each side.
#[derive(Clone, Copy, Debug, Default)]
pub struct GrassBlock;

impl GrassBlock {
    /// The cells to each side of the centre, along each axis.
    pub fn dimensions(&self) -> (dimensions: UVec3)
        ensures
            dimensions == (UVec3 { x: 16, y: 16, z: 16 }),
    {
        UVec3::splat(16)
    }

    /// The depth of the leaves.
    pub fn depth(&self) -> (depth: u32)
        ensures
            depth == 6,
    {
        6
    }
}

/// The cells along one axis of the grid: twice the cells to each side, or
/// none where that number does not fit a signed coordinate.
pub open spec fn spec_span(side: u32) -> int {
    if side <= i32::MAX {
        2 * side
    } else {
        0
    }
}

/// The number of cells of the grid.
pub open spec fn spec_cells(dimensions: UVec3) -> int {
    spec_span(dimensions.x) * spec_span(dimensions.y) * spec_span(dimensions.z)
}

/// The cell with number `i` in a walk over the grid that goes through `z`
/// fastest and `x` slowest, each from the lowest coordinate up.
pub open spec fn spec_cell(dimensions: UVec3, i: int) -> IVec3 {
    let ny = spec_span(dimensions.y);
    let nz = spec_span(dimensions.z);
    IVec3 {
        x: (i / (ny * nz) - dimensions.x) as i32,
        y: ((i / nz) % ny - dimensions.y) as i32,
        z: (i % nz - dimensions.z) as i32,
    }
}

/// The leaves that the first `upto` samples come to: one for each sample
/// that is a node, at the cell of the sample.
pub open spec fn spec_sampled(
    dimensions: UVec3,
    depth: u32,
    samples: Seq<Option<Node>>,
    upto: int,
) -> Seq<(Branch, Node)>
    decreases upto,
{
    if upto <= 0 {
        Seq::empty()
    } else {
        let before = spec_sampled(dimensions, depth, samples, upto - 1);
        match samples[upto - 1] {
            Some(node) => before.push(
                (Branch { path: spec_cell(dimensions, upto - 1), depth }, node),
            ),
            None => before,
        }
    }
}

/// The pool after the first `upto` samples were written into a pool of one
/// blank leaf.
pub open spec fn spec_poured(dimensions: UVec3, depth: u32, samples: Seq<Option<Node>>, upto: int) -> (
    Seq<Node>,
    Seq<u32>,
) {
    pool_edits(seq![Node::empty()], Seq::empty(), spec_sampled(dimensions, depth, samples, upto), false)
}

/// The pool has room for the write of sample `i`, after the samples before
/// it: eight nodes for each level down.
pub open spec fn spec_room(dimensions: UVec3, depth: u32, samples: Seq<Option<Node>>, i: int) -> bool {
    samples[i] is Some ==> spec_poured(dimensions, depth, samples, i).0.len() + 8 * depth <= u32::MAX
}

/// Where no sample is a node there is nothing to write.
pub proof fn lemma_sampled_none(dimensions: UVec3, depth: u32, samples: Seq<Option<Node>>, upto: int)
    requires
        upto <= samples.len(),
        forall|i: int| 0 <= i < upto ==> (#[trigger] samples[i]) is None,
    ensures
        spec_sampled(dimensions, depth, samples, upto) == Seq::<(Branch, Node)>::empty(),
        spec_poured(dimensions, depth, samples, upto) == (seq![Node::empty()], Seq::<u32>::empty()),
    decreases upto,
{
    if upto > 0 {
        lemma_sampled_none(dimensions, depth, samples, upto - 1);
    }
}

/// Every sample that is a node is solid or blank.
pub open spec fn samples_stable(samples: Seq<Option<Node>>) -> bool {
    forall|i: int|
        0 <= i < samples.len() && (#[trigger] samples[i]) is Some ==> stable(samples[i]->Some_0)
}

impl Octree {
    /// Builds the octree of a sampled shape. `samples` holds one sample for
    /// every cell of the grid that reaches `dimensions` cells to each side of
    /// the centre, in the order of a walk through `x`, then `y`, then `z`;
    /// every sample that is a node becomes a leaf at its cell, `depth`
    /// levels down. Gives `None` if the pool has no room for one of the
    /// writes, which does not happen where there is room for `8 * depth`
    /// nodes for every sample.
    pub fn generate(dimensions: UVec3, depth: u32, samples: &[Option<Node>]) -> (made: Option<Octree>)
        requires
            depth <= MAX_DEPTH,
            samples@.len() == spec_cells(dimensions),
            forall|i: int|
                0 <= i < samples@.len() && (#[trigger] samples@[i]) is Some
                    ==> !samples@[i]->Some_0.is_parent(),
        ensures
            match made {
                Some(octree) => {
                    &&& octree.wf()
                    &&& octree@ == Tree::Leaf(Node::empty()).sets(
                        spec_sampled(dimensions, depth, samples@, samples@.len() as int),
                    )
                    &&& octree@.coalesced()
                    &&& samples_stable(samples@) ==> octree@.tidy()
                    &&& (octree.nodes@, octree.free_branches@) == spec_poured(
                        dimensions,
                        depth,
                        samples@,
                        samples@.len() as int,
                    )
                },
                None => 1 + 8 * depth * samples@.len() > u32::MAX,
            },
            made is Some <==> forall|i: int|
                0 <= i < samples@.len() ==> spec_room(dimensions, depth, samples@, i),
    {
        let mut octree = Octree::new();
        let count = samples.len();
        if count == 0 {
            return Some(octree);
        }
        let ny: u64 = 2 * dimensions.y as u64;
        let nz: u64 = 2 * dimensions.z as u64;
        proof {
            let sx = spec_span(dimensions.x);
            let sy = spec_span(dimensions.y);
            let sz = spec_span(dimensions.z);
            assert(sx > 0 && sy > 0 && sz > 0) by (nonlinear_arith)
                requires
                    sx * sy * sz > 0,
                    sx >= 0,
                    sy >= 0,
                    sz >= 0,
            ;
            assert(sy * sz <= sx * sy * sz) by (nonlinear_arith)
                requires
                    sx >= 1,
                    sy >= 0,
                    sz >= 0,
            ;
        }
        let plane: u64 = ny * nz;
        proof {
            let sx = spec_span(dimensions.x);
            assert(plane > 0) by (nonlinear_arith)
                requires
                    plane == ny * nz,
                    ny > 0,
                    nz > 0,
            ;
            assert(sx * ny * nz == sx * (ny * nz)) by (nonlinear_arith);
        }
        let mut i: usize = 0;
        while i < count
            invariant
                0 <= i <= count,
                count == samples@.len(),
                count == spec_cells(dimensions),
                depth <= MAX_DEPTH,
                dimensions.x <= i32::MAX,
                dimensions.y <= i32::MAX,
                dimensions.z <= i32::MAX,
                ny == spec_span(dimensions.y),
                nz == spec_span(dimensions.z),
                ny > 0,
                nz > 0,
                plane == ny * nz,
                plane > 0,
                count == spec_span(dimensions.x) * plane,
                octree.wf(),
                octree@.coalesced(),
                samples_stable(samples@) ==> octree@.tidy(),
                octree.nodes.len() <= 1 + (8 * depth) * i,
                forall|j: int|
                    0 <= j < samples@.len() && (#[trigger] samples@[j]) is Some
                        ==> !samples@[j]->Some_0.is_parent(),
                octree@ == Tree::Leaf(Node::empty()).sets(
                    spec_sampled(dimensions, depth, samples@, i as int),
                ),
                (octree.nodes@, octree.free_branches@) == spec_poured(dimensions, depth, samples@, i as int),
                forall|j: int| 0 <= j < i ==> spec_room(dimensions, depth, samples@, j),
            decreases count - i,
        {
            if let Some(node) = samples[i] {
                proof {
                    let sx = spec_span(dimensions.x);
                    let at = i as int;
                    let per = plane as int;
                    let row = at / per;
                    lemma_fundamental_div_mod(at, per);
                    lemma_mod_bound(at, per);
                    lemma_fundamental_div_mod(at, nz as int);
                    lemma_mod_bound(at, nz as int);
                    lemma_mod_bound(at / (nz as int), ny as int);
                    assert(0 <= row && row < sx) by (nonlinear_arith)
                        requires
                            at == per * row + at % per,
                            0 <= at % per,
                            at % per < per,
                            0 <= at,
                            at < sx * per,
                            per > 0,
                    ;
                }
                proof {
                    let per = 8 * depth as int;
                    assert(per * (i + 1) == per * i + per) by (nonlinear_arith);
                    assert(per * (i + 1) <= per * count) by (nonlinear_arith)
                        requires
                            i + 1 <= count,
                            per >= 0,
                    ;
                }
                proof {
                    lemma_wf_len(octree.nodes@, octree.free_branches@);
                }
                if octree.nodes.len() as u64 + 8 * depth as u64 > 0xffff_ffff {
                    proof {
                        let per = 8 * depth as int;
                        assert(per * count == 8 * depth * samples@.len()) by (nonlinear_arith)
                            requires
                                per == 8 * depth,
                                count == samples@.len(),
                        ;
                        assert(!spec_room(dimensions, depth, samples@, i as int));
                    }
                    return None;
                }
                let x = (i as u64 / plane) as i64 - dimensions.x as i64;
                let y = ((i as u64 / nz) % ny) as i64 - dimensions.y as i64;
                let z = (i as u64 % nz) as i64 - dimensions.z as i64;
                let branch = Branch::new(IVec3::new(x as i32, y as i32, z as i32), depth);
                proof {
                    assert(samples@[i as int] == Some(node));
                    node.lemma_empty_iff();
                }
                octree.set(branch, node);
                proof {
                    let before = spec_sampled(dimensions, depth, samples@, i as int);
                    let after = spec_sampled(dimensions, depth, samples@, i + 1);
                    assert(after == before.push((branch, node)));
                    assert(after.drop_last() =~= before);
                }
            }
            proof {
                let per = 8 * depth as int;
                assert(per * i <= per * (i + 1)) by (nonlinear_arith)
                    requires
                        per >= 0,
                ;
            }
            i += 1;
        }
        Some(octree)
    }
}

} // verus!
