//! Octree coordinates: a signed path and a depth, and the arithmetic that
//! turns a path into the child indices leading to its cube.

use vstd::arithmetic::div_mod::*;
use vstd::arithmetic::power2::*;
use vstd::prelude::*;

verus! {

/// A vector of three signed integers.
#[derive(Clone, Copy, Debug, PartialEq, Eq, Hash, Structural)]
pub struct IVec3 {
    pub x: i32,
    pub y: i32,
    pub z: i32,
}

impl IVec3 {
    /// The vector with the given coordinates.
    pub fn new(x: i32, y: i32, z: i32) -> (v: IVec3)
        ensures
            v == (IVec3 { x, y, z }),
    {
        IVec3 { x, y, z }
    }
}

/// A vector of three unsigned integers.
#[derive(Clone, Copy, Debug, PartialEq, Eq, Hash, Structural)]
pub struct UVec3 {
    pub x: u32,
    pub y: u32,
    pub z: u32,
}

impl UVec3 {
    /// The vector with the given coordinates.
    pub fn new(x: u32, y: u32, z: u32) -> (v: UVec3)
        ensures
            v == (UVec3 { x, y, z }),
    {
        UVec3 { x, y, z }
    }

    /// The vector whose coordinates are all `v`.
    pub fn splat(v: u32) -> (r: UVec3)
        ensures
            r == (UVec3 { x: v, y: v, z: v }),
    {
        UVec3 { x: v, y: v, z: v }
    }
}

/// The deepest level a branch may name.
pub const MAX_DEPTH: u32 = 32;

/// One bit of an axis: whether a cube at `branch_depth` with coordinate
/// `axis` lies in the upper half of its ancestor at depth `d`.
pub open spec fn spec_axis_bit(axis: int, branch_depth: int, d: int) -> int {
    ((axis + pow2((branch_depth - 1) as nat)) / (pow2((branch_depth - 1 - d) as nat) as int)) % 2
}

/// The three bits of a child index, lowest first.
pub open spec fn spec_child_bit(child: int, axis: int) -> int {
    if axis == 0 {
        child % 2
    } else if axis == 1 {
        (child / 2) % 2
    } else {
        (child / 4) % 2
    }
}

/// The coordinate of a child along one axis. Below the root the parent's
/// coordinate doubles and takes the bit; the root's children sit at -1 and 0
/// whatever remains of the doubling.
pub open spec fn spec_child_axis(axis: int, depth: int, bit: int) -> int {
    if depth > 0 {
        2 * axis + bit
    } else if bit != 0 {
        2 * axis
    } else {
        -1
    }
}

/// A cube of the octree: `depth` levels below the root, at `path` among the
/// cubes of that level, which are counted from the centre of the root.
#[derive(Clone, Copy, Debug, PartialEq, Eq, Hash, Structural)]
pub struct Branch {
    pub path: IVec3,
    pub depth: u32,
}

impl Branch {
    /// The root cube.
    pub open spec fn spec_root() -> Branch {
        Branch { path: IVec3 { x: 0, y: 0, z: 0 }, depth: 0 }
    }

    /// The child index taken at level `d` on the way from the root to this cube.
    pub open spec fn spec_child(&self, d: int) -> int {
        spec_axis_bit(self.path.x as int, self.depth as int, d) + 2 * spec_axis_bit(
            self.path.y as int,
            self.depth as int,
            d,
        ) + 4 * spec_axis_bit(self.path.z as int, self.depth as int, d)
    }

    /// The child indices from the root down to this cube, one per level.
    pub open spec fn cell(&self) -> Seq<int> {
        Seq::new(self.depth as nat, |d: int| self.spec_child(d))
    }

    /// The branch of child `child` of this cube.
    pub open spec fn spec_with_child(&self, child: int) -> Branch {
        Branch {
            path: IVec3 {
                x: spec_child_axis(self.path.x as int, self.depth as int, spec_child_bit(child, 0)) as i32,
                y: spec_child_axis(self.path.y as int, self.depth as int, spec_child_bit(child, 1)) as i32,
                z: spec_child_axis(self.path.z as int, self.depth as int, spec_child_bit(child, 2)) as i32,
            },
            depth: (self.depth + 1) as u32,
        }
    }

    /// Whether one coordinate lies among the cubes of its level.
    pub open spec fn axis_in_range(axis: int, depth: int) -> bool {
        if depth == 0 {
            axis == 0
        } else {
            -pow2((depth - 1) as nat) <= axis < pow2((depth - 1) as nat)
        }
    }

    /// The branch names a cube of the root: its depth is within the limit and
    /// each coordinate is one of the `2^depth` of that level.
    pub open spec fn in_range(&self) -> bool {
        &&& self.depth <= MAX_DEPTH
        &&& Branch::axis_in_range(self.path.x as int, self.depth as int)
        &&& Branch::axis_in_range(self.path.y as int, self.depth as int)
        &&& Branch::axis_in_range(self.path.z as int, self.depth as int)
    }

    /// The cube at `path` among the cubes `depth` levels below the root.
    pub fn new(path: IVec3, depth: u32) -> (branch: Branch)
        ensures
            branch == (Branch { path, depth }),
    {
        Branch { path, depth }
    }

    /// The root cube.
    #[verifier::when_used_as_spec(spec_root)]
    pub fn root() -> (branch: Branch)
        ensures
            branch == Branch::spec_root(),
            branch.in_range(),
            branch.cell() =~= Seq::<int>::empty(),
    {
        Branch { path: IVec3 { x: 0, y: 0, z: 0 }, depth: 0 }
    }

    fn is_positive(&self, depth: u32, axis: i32) -> (yes: bool)
        requires
            depth < self.depth <= MAX_DEPTH,
        ensures
            yes == (spec_axis_bit(axis as int, self.depth as int, depth as int) == 1),
            0 <= spec_axis_bit(axis as int, self.depth as int, depth as int) < 2,
    {
        let top: u32 = self.depth - 1;
        let low: u32 = top - depth;
        let half: u64 = 1u64 << (top as u64);
        let mask: u64 = 1u64 << (low as u64);
        proof {
            lemma2_to64();
            lemma_pow2_strictly_increases(top as nat, 32);
            lemma_pow2_strictly_increases(low as nat, 32);
            lemma_pow2_pos(top as nat);
            lemma_pow2_pos(low as nat);
            vstd::bits::lemma_u64_shl_is_mul(1, top as u64);
            vstd::bits::lemma_u64_shl_is_mul(1, low as u64);
        }
        // Lifting by 2^32 makes the sum positive and leaves its low 32 bits as they are.
        let absolute: u64 = (axis as i64 + 0x1_0000_0000i64) as u64 + half;
        proof {
            lemma_pow2_adds(low as nat, (32 - low) as nat);
            lemma_pow2_unfold((32 - low) as nat);
            let m = pow2(low as nat) as int;
            let a = axis as int + pow2(top as nat);
            let j = 2 * pow2((31 - low) as nat) as int;
            assert(j * m == 0x1_0000_0000) by (nonlinear_arith)
                requires
                    m * (2 * pow2((31 - low) as nat)) == 0x1_0000_0000,
                    j == 2 * pow2((31 - low) as nat),
            ;
            lemma_hoist_over_denominator(a, j, m as nat);
            assert(absolute as int == a + j * m);
            assert((absolute as int / m) % 2 == (a / m) % 2);
        }
        (absolute / mask) % 2 == 1
    }

    /// Whether the cube lies in the upper half, along x, of its ancestor at `depth`.
    pub fn is_x_positive(&self, depth: u32) -> (yes: bool)
        requires
            depth < self.depth <= MAX_DEPTH,
        ensures
            yes == (spec_axis_bit(self.path.x as int, self.depth as int, depth as int) == 1),
    {
        self.is_positive(depth, self.path.x)
    }

    /// Whether the cube lies in the upper half, along y, of its ancestor at `depth`.
    pub fn is_y_positive(&self, depth: u32) -> (yes: bool)
        requires
            depth < self.depth <= MAX_DEPTH,
        ensures
            yes == (spec_axis_bit(self.path.y as int, self.depth as int, depth as int) == 1),
    {
        self.is_positive(depth, self.path.y)
    }

    /// Whether the cube lies in the upper half, along z, of its ancestor at `depth`.
    pub fn is_z_positive(&self, depth: u32) -> (yes: bool)
        requires
            depth < self.depth <= MAX_DEPTH,
        ensures
            yes == (spec_axis_bit(self.path.z as int, self.depth as int, depth as int) == 1),
    {
        self.is_positive(depth, self.path.z)
    }

    /// The index, among the eight children of this cube's ancestor at `depth`,
    /// of the child that holds this cube.
    pub fn child(&self, depth: u32) -> (index: u32)
        requires
            depth < self.depth <= MAX_DEPTH,
        ensures
            index == self.spec_child(depth as int),
            index < 8,
    {
        let mut child: u32 = 0;
        if self.is_positive(depth, self.path.x) {
            child += 1;
        }
        if self.is_positive(depth, self.path.y) {
            child += 2;
        }
        if self.is_positive(depth, self.path.z) {
            child += 4;
        }
        child
    }

    /// The branch of one of the eight children of this cube.
    pub fn with_child(&self, child: u32) -> (branch: Branch)
        requires
            self.depth < u32::MAX,
            -0x4000_0000 <= self.path.x < 0x4000_0000,
            -0x4000_0000 <= self.path.y < 0x4000_0000,
            -0x4000_0000 <= self.path.z < 0x4000_0000,
        ensures
            branch == self.spec_with_child(child as int),
    {
        let mut branch = Branch {
            path: IVec3 { x: self.path.x * 2, y: self.path.y * 2, z: self.path.z * 2 },
            depth: self.depth + 1,
        };
        if child % 2 != 0 && self.depth > 0 {
            branch.path.x += 1;
        } else if child % 2 == 0 && self.depth == 0 {
            branch.path.x = -1;
        }
        if (child / 2) % 2 != 0 && self.depth > 0 {
            branch.path.y += 1;
        } else if (child / 2) % 2 == 0 && self.depth == 0 {
            branch.path.y = -1;
        }
        if (child / 4) % 2 != 0 && self.depth > 0 {
            branch.path.z += 1;
        } else if (child / 4) % 2 == 0 && self.depth == 0 {
            branch.path.z = -1;
        }
        branch
    }

    /// A coordinate within its level is within `i32` with room to double.
    pub proof fn lemma_axis_bounds(axis: int, depth: int)
        requires
            0 <= depth <= MAX_DEPTH,
            Branch::axis_in_range(axis, depth),
        ensures
            -0x8000_0000 <= axis < 0x8000_0000,
            depth < MAX_DEPTH ==> -0x4000_0000 <= axis < 0x4000_0000,
    {
        lemma2_to64();
        if depth > 0 {
            if depth < MAX_DEPTH {
                if depth - 1 < 30 {
                    lemma_pow2_strictly_increases((depth - 1) as nat, 30);
                }
            } else {
                assert(depth - 1 == 31);
            }
        }
    }

    /// Descending one level keeps the bits of the levels above and appends
    /// the bit of the child.
    pub proof fn lemma_axis_step(axis: int, depth: int, bit: int, d: int)
        requires
            0 <= d <= depth < MAX_DEPTH,
            0 <= bit < 2,
            Branch::axis_in_range(axis, depth),
        ensures
            Branch::axis_in_range(spec_child_axis(axis, depth, bit), depth + 1),
            spec_axis_bit(spec_child_axis(axis, depth, bit), depth + 1, d) == (if d < depth {
                spec_axis_bit(axis, depth, d)
            } else {
                bit
            }),
    {
        lemma2_to64();
        let next = spec_child_axis(axis, depth, bit);
        if depth > 0 {
            lemma_pow2_unfold(depth as nat);
            let half = pow2((depth - 1) as nat) as int;
            let absolute = axis + half;
            assert(next + pow2(depth as nat) == 2 * absolute + bit);
            if d < depth {
                lemma_pow2_unfold((depth - d) as nat);
                let m = pow2((depth - 1 - d) as nat) as int;
                lemma_pow2_pos((depth - 1 - d) as nat);
                lemma_fundamental_div_mod(absolute, m);
                lemma_mod_bound(absolute, m);
                let q = absolute / m;
                let r = absolute % m;
                assert(2 * absolute + bit == (2 * m) * q + (2 * r + bit)) by (nonlinear_arith)
                    requires
                        absolute == m * q + r,
                ;
                lemma_fundamental_div_mod_converse_div(2 * absolute + bit, 2 * m, q, 2 * r + bit);
                assert(pow2((depth + 1 - 1 - d) as nat) == 2 * m);
                assert((next + pow2((depth + 1 - 1) as nat)) / (2 * m) == q);
            } else {
                assert(pow2((depth + 1 - 1 - d) as nat) == 1);
                assert((2 * absolute + bit) / 1 == 2 * absolute + bit);
            }
        } else {
            assert(pow2((depth + 1 - 1 - d) as nat) == 1);
            assert(pow2((depth + 1 - 1) as nat) == 1);
            assert((next + 1) / 1 == next + 1);
        }
    }

    /// The three bits of a child index make the index up again.
    pub proof fn lemma_child_bits(child: int)
        requires
            0 <= child < 8,
        ensures
            spec_child_bit(child, 0) + 2 * spec_child_bit(child, 1) + 4 * spec_child_bit(child, 2)
                == child,
            0 <= spec_child_bit(child, 0) < 2,
            0 <= spec_child_bit(child, 1) < 2,
            0 <= spec_child_bit(child, 2) < 2,
    {
    }

    /// The branch that `with_child` gives leads through the cells of its
    /// parent and then into the chosen child. This is what makes the branches
    /// handed out by a walk over the tree agree with `child`, the root's
    /// children at -1 and 0 included.
    pub proof fn lemma_with_child_cell(self, child: int)
        requires
            self.in_range(),
            self.depth < MAX_DEPTH,
            0 <= child < 8,
        ensures
            self.spec_with_child(child).in_range(),
            self.spec_with_child(child).depth == self.depth + 1,
            self.spec_with_child(child).cell() == self.cell().push(child),
    {
        let depth = self.depth as int;
        let next = self.spec_with_child(child);
        Branch::lemma_child_bits(child);
        Branch::lemma_axis_step(self.path.x as int, depth, spec_child_bit(child, 0), 0);
        Branch::lemma_axis_step(self.path.y as int, depth, spec_child_bit(child, 1), 0);
        Branch::lemma_axis_step(self.path.z as int, depth, spec_child_bit(child, 2), 0);
        Branch::lemma_axis_bounds(
            spec_child_axis(self.path.x as int, depth, spec_child_bit(child, 0)),
            depth + 1,
        );
        Branch::lemma_axis_bounds(
            spec_child_axis(self.path.y as int, depth, spec_child_bit(child, 1)),
            depth + 1,
        );
        Branch::lemma_axis_bounds(
            spec_child_axis(self.path.z as int, depth, spec_child_bit(child, 2)),
            depth + 1,
        );
        assert forall|d: int| 0 <= d <= depth implies #[trigger] next.spec_child(d) == (if d
            < depth {
            self.spec_child(d)
        } else {
            child
        }) by {
            Branch::lemma_axis_step(self.path.x as int, depth, spec_child_bit(child, 0), d);
            Branch::lemma_axis_step(self.path.y as int, depth, spec_child_bit(child, 1), d);
            Branch::lemma_axis_step(self.path.z as int, depth, spec_child_bit(child, 2), d);
        }
        assert(next.cell() =~= self.cell().push(child));
    }

    /// Every entry of a branch's cell is a child index.
    pub proof fn lemma_cell_entries(self)
        ensures
            self.cell().len() == self.depth,
            forall|d: int| 0 <= d < self.depth ==> 0 <= #[trigger] self.cell()[d] < 8,
            forall|d: int| 0 <= d < self.depth ==> self.cell()[d] == self.spec_child(d),
    {
    }
}

/// `2^k` as a machine integer.
pub fn pow2_i64(k: u32) -> (s: i64)
    requires
        k <= 32,
    ensures
        s == pow2(k as nat),
        0 < s <= 0x1_0000_0000,
{
    proof {
        lemma2_to64();
        lemma_pow2_pos(k as nat);
        if k < 32 {
            lemma_pow2_strictly_increases(k as nat, 32);
        }
        vstd::bits::lemma_u64_shl_is_mul(1, k as u64);
    }
    (1u64 << (k as u64)) as i64
}

impl Branch {
    /// One coordinate of the cube at `depth` that holds the cube with
    /// coordinate `axis` at `branch_depth`.
    pub open spec fn spec_ancestor_axis(axis: int, branch_depth: int, depth: int) -> int {
        (axis + pow2((branch_depth - 1) as nat)) / (pow2((branch_depth - depth) as nat) as int) - pow2(
            (depth - 1) as nat,
        )
    }

    /// The cube at `depth` that holds this cube.
    pub open spec fn spec_ancestor(&self, depth: int) -> Branch {
        Branch {
            path: IVec3 {
                x: Branch::spec_ancestor_axis(self.path.x as int, self.depth as int, depth) as i32,
                y: Branch::spec_ancestor_axis(self.path.y as int, self.depth as int, depth) as i32,
                z: Branch::spec_ancestor_axis(self.path.z as int, self.depth as int, depth) as i32,
            },
            depth: depth as u32,
        }
    }

    /// The coordinate of an ancestor lies among the cubes of its level, and
    /// leads there by the first steps of the way to the cube itself.
    pub proof fn lemma_ancestor_axis(axis: int, branch_depth: int, depth: int, d: int)
        requires
            1 <= depth <= branch_depth <= MAX_DEPTH,
            Branch::axis_in_range(axis, branch_depth),
            0 <= d < depth,
        ensures
            Branch::axis_in_range(Branch::spec_ancestor_axis(axis, branch_depth, depth), depth),
            spec_axis_bit(Branch::spec_ancestor_axis(axis, branch_depth, depth), depth, d)
                == spec_axis_bit(axis, branch_depth, d),
    {
        let absolute = axis + pow2((branch_depth - 1) as nat);
        let cut = pow2((branch_depth - depth) as nat) as int;
        let low = pow2((depth - 1 - d) as nat) as int;
        lemma_pow2_pos((branch_depth - depth) as nat);
        lemma_pow2_pos((depth - 1 - d) as nat);
        lemma_pow2_pos((depth - 1) as nat);
        lemma_pow2_unfold(branch_depth as nat);
        lemma_pow2_unfold(depth as nat);
        lemma_pow2_adds((branch_depth - depth) as nat, depth as nat);
        lemma_pow2_adds((branch_depth - depth) as nat, (depth - 1 - d) as nat);
        assert(0 <= absolute < pow2(branch_depth as nat));
        lemma_fundamental_div_mod(absolute, cut);
        lemma_mod_bound(absolute, cut);
        assert(0 <= absolute / cut < pow2(depth as nat)) by (nonlinear_arith)
            requires
                absolute == cut * (absolute / cut) + absolute % cut,
                0 <= absolute % cut < cut,
                0 <= absolute < cut * pow2(depth as nat),
                0 < cut,
        ;
        lemma_div_denominator(absolute, cut, low);
    }

    /// The ancestor of a cube lies in the tree, and the way to it is the
    /// beginning of the way to the cube.
    pub proof fn lemma_ancestor_cell(self, depth: int)
        requires
            self.in_range(),
            1 <= depth <= self.depth,
        ensures
            self.spec_ancestor(depth).in_range(),
            self.spec_ancestor(depth).depth == depth,
            self.spec_ancestor(depth).cell() == self.cell().take(depth),
    {
        let up = self.spec_ancestor(depth);
        let deep = self.depth as int;
        Branch::lemma_ancestor_axis(self.path.x as int, deep, depth, 0);
        Branch::lemma_ancestor_axis(self.path.y as int, deep, depth, 0);
        Branch::lemma_ancestor_axis(self.path.z as int, deep, depth, 0);
        Branch::lemma_axis_bounds(Branch::spec_ancestor_axis(self.path.x as int, deep, depth), depth);
        Branch::lemma_axis_bounds(Branch::spec_ancestor_axis(self.path.y as int, deep, depth), depth);
        Branch::lemma_axis_bounds(Branch::spec_ancestor_axis(self.path.z as int, deep, depth), depth);
        assert forall|d: int| 0 <= d < depth implies #[trigger] up.spec_child(d) == self.spec_child(
            d,
        ) by {
            Branch::lemma_ancestor_axis(self.path.x as int, deep, depth, d);
            Branch::lemma_ancestor_axis(self.path.y as int, deep, depth, d);
            Branch::lemma_ancestor_axis(self.path.z as int, deep, depth, d);
        }
        assert(up.cell() =~= self.cell().take(depth));
    }

    /// The cube at `depth` that holds this cube.
    pub fn ancestor(&self, depth: u32) -> (up: Branch)
        requires
            self.in_range(),
            1 <= depth <= self.depth,
        ensures
            up == self.spec_ancestor(depth as int),
    {
        proof {
            self.lemma_ancestor_cell(depth as int);
            Branch::lemma_axis_bounds(self.path.x as int, self.depth as int);
            Branch::lemma_axis_bounds(self.path.y as int, self.depth as int);
            Branch::lemma_axis_bounds(self.path.z as int, self.depth as int);
            let deep = self.depth as int;
            Branch::lemma_ancestor_axis(self.path.x as int, deep, depth as int, 0);
            Branch::lemma_ancestor_axis(self.path.y as int, deep, depth as int, 0);
            Branch::lemma_ancestor_axis(self.path.z as int, deep, depth as int, 0);
            Branch::lemma_axis_bounds(
                Branch::spec_ancestor_axis(self.path.x as int, deep, depth as int),
                depth as int,
            );
            Branch::lemma_axis_bounds(
                Branch::spec_ancestor_axis(self.path.y as int, deep, depth as int),
                depth as int,
            );
            Branch::lemma_axis_bounds(
                Branch::spec_ancestor_axis(self.path.z as int, deep, depth as int),
                depth as int,
            );
        }
        let half = pow2_i64(self.depth - 1);
        let cut = pow2_i64(self.depth - depth);
        let low = pow2_i64(depth - 1);
        Branch {
            path: IVec3 {
                x: ((self.path.x as i64 + half) / cut - low) as i32,
                y: ((self.path.y as i64 + half) / cut - low) as i32,
                z: ((self.path.z as i64 + half) / cut - low) as i32,
            },
            depth,
        }
    }
}

impl From<(IVec3, u32)> for Branch {
    fn from(pair: (IVec3, u32)) -> (branch: Branch) {
        Branch { path: pair.0, depth: pair.1 }
    }
}

impl vstd::std_specs::convert::FromSpecImpl<(IVec3, u32)> for Branch {
    open spec fn obeys_from_spec() -> bool {
        true
    }

    open spec fn from_spec(pair: (IVec3, u32)) -> Branch {
        Branch { path: pair.0, depth: pair.1 }
    }
}

impl From<(i32, i32, i32, u32)> for Branch {
    fn from(parts: (i32, i32, i32, u32)) -> (branch: Branch) {
        Branch { path: IVec3 { x: parts.0, y: parts.1, z: parts.2 }, depth: parts.3 }
    }
}

impl vstd::std_specs::convert::FromSpecImpl<(i32, i32, i32, u32)> for Branch {
    open spec fn obeys_from_spec() -> bool {
        true
    }

    open spec fn from_spec(parts: (i32, i32, i32, u32)) -> Branch {
        Branch { path: IVec3 { x: parts.0, y: parts.1, z: parts.2 }, depth: parts.3 }
    }
}

} // verus!
