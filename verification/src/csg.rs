//! Boolean edits: a template octree is written into, or cleared out of, a
//! host octree at a branch.

use crate::branch::{Branch, IVec3, MAX_DEPTH};
use crate::dynamic::DynamicOctree;
use crate::edit::{remove_in, set_in};
use crate::layout::pool_edits;
use crate::node::Node;
use crate::octree::{lemma_tracks_trans, tracks, NodePool, Octree};
use crate::laws::{lemma_remove_coalesced, lemma_set_coalesced};
use crate::pool::{lemma_tree_height, lemma_wf_len, tree_of, wf};
use crate::segment::cover;
use crate::tree::Tree;
use vstd::arithmetic::div_mod::{
    lemma_fundamental_div_mod_converse, lemma_fundamental_div_mod_converse_div,
};
use vstd::arithmetic::power2::{lemma2_to64, lemma_pow2_pos, lemma_pow2_strictly_increases, pow2};
use vstd::prelude::*;

verus! {

/// By how much one cube of a template leaf is spread along each axis of the
/// host: a leaf above the depth of the target branch fills `2^k` host cubes
/// per axis, `k` being the levels it lies above; any other leaf fills one.
pub open spec fn spec_spread(branch: Branch, leaf: Branch) -> int {
    if leaf.depth >= branch.depth {
        1
    } else {
        pow2((branch.depth - leaf.depth) as nat) as int
    }
}

/// One coordinate of a host cube. A leaf at or below the depth of the target
/// adds the target's coordinate, scaled down to the leaf's level; a leaf above
/// it is scaled down to the target's level, and adds the target's coordinate
/// and its place `step` within the spread.
pub open spec fn spec_target_axis(target: int, leaf: int, up: int, down: int, step: int) -> int {
    if down >= 0 {
        leaf + target * pow2(down as nat)
    } else {
        leaf * pow2(up as nat) + target + step
    }
}

/// The host cube that the template leaf at `leaf` comes to, for a template
/// placed `depth` levels down at `branch`, at place `(x, y, z)` of the spread.
pub open spec fn spec_target(branch: Branch, depth: u32, leaf: Branch, x: int, y: int, z: int) -> Branch {
    let up = branch.depth - leaf.depth;
    let down = leaf.depth - branch.depth;
    Branch {
        path: IVec3 {
            x: spec_target_axis(branch.path.x as int, leaf.path.x as int, up, down, x) as i32,
            y: spec_target_axis(branch.path.y as int, leaf.path.y as int, up, down, y) as i32,
            z: spec_target_axis(branch.path.z as int, leaf.path.z as int, up, down, z) as i32,
        },
        depth: (depth + if down >= 0 {
            leaf.depth
        } else {
            branch.depth
        }) as u32,
    }
}

/// One coordinate of every host cube of a leaf fits in 32 bits.
pub open spec fn axis_fits(target: int, leaf: int, up: int, down: int) -> bool {
    if down >= 0 {
        &&& i32::MIN <= target * pow2(down as nat) <= i32::MAX
        &&& i32::MIN <= leaf + target * pow2(down as nat) <= i32::MAX
    } else {
        &&& i32::MIN <= leaf * pow2(up as nat) <= i32::MAX
        &&& i32::MIN <= leaf * pow2(up as nat) + target <= i32::MAX
        &&& leaf * pow2(up as nat) + target + pow2(up as nat) - 1 <= i32::MAX
    }
}

/// The template leaf at `leaf` can be placed: its host cubes lie within the
/// depth limit, their coordinates fit in 32 bits, and so does the spread.
pub open spec fn placeable(branch: Branch, depth: u32, leaf: Branch) -> bool {
    let up = branch.depth - leaf.depth;
    let down = leaf.depth - branch.depth;
    &&& leaf.depth + depth <= MAX_DEPTH
    &&& branch.depth + depth <= MAX_DEPTH
    &&& up <= 30
    &&& axis_fits(branch.path.x as int, leaf.path.x as int, up, down)
    &&& axis_fits(branch.path.y as int, leaf.path.y as int, up, down)
    &&& axis_fits(branch.path.z as int, leaf.path.z as int, up, down)
}

/// The edits that one template leaf comes to: one for each host cube, in the
/// order of a loop over `x`, then `y`, then `z`.
pub open spec fn spec_places(branch: Branch, depth: u32, leaf: (Branch, Node)) -> Seq<(Branch, Node)> {
    let s = spec_spread(branch, leaf.0);
    Seq::new(
        (s * s * s) as nat,
        |i: int| (spec_target(branch, depth, leaf.0, i / (s * s), (i / s) % s, i % s), leaf.1),
    )
}

/// The edits that a list of template leaves comes to, leaf after leaf.
pub open spec fn spec_footprint(branch: Branch, depth: u32, leaves: Seq<(Branch, Node)>) -> Seq<
    (Branch, Node),
>
    decreases leaves.len(),
{
    if leaves.len() == 0 {
        Seq::empty()
    } else {
        spec_footprint(branch, depth, leaves.drop_last()) + spec_places(branch, depth, leaves.last())
    }
}

/// Every leaf of the list can be placed.
pub open spec fn all_placeable(branch: Branch, depth: u32, leaves: Seq<(Branch, Node)>) -> bool {
    forall|i: int| 0 <= i < leaves.len() ==> placeable(branch, depth, (#[trigger] leaves[i]).0)
}

/// The place `(x, y, z)` of a spread of `s` per axis is the place at index
/// `(x * s + y) * s + z` of the loop over it.
pub proof fn lemma_spread_index(x: int, y: int, z: int, s: int)
    requires
        0 <= x < s,
        0 <= y < s,
        0 <= z < s,
    ensures
        0 <= (x * s + y) * s + z < s * s * s,
        ((x * s + y) * s + z) / (s * s) == x,
        (((x * s + y) * s + z) / s) % s == y,
        ((x * s + y) * s + z) % s == z,
        (x * s + (y + 1)) * s == (x * s + y) * s + s,
        ((x + 1) * s) * s == (x * s + (s - 1)) * s + s,
        s * s * s == ((s - 1) * s + (s - 1)) * s + s,
{
    let i = (x * s + y) * s + z;
    assert((x * s + (y + 1)) * s == (x * s + y) * s + s) by (nonlinear_arith);
    assert(((x + 1) * s) * s == (x * s + (s - 1)) * s + s) by (nonlinear_arith);
    assert(s * s * s == ((s - 1) * s + (s - 1)) * s + s) by (nonlinear_arith);
    assert(0 <= x * s + y < s * s) by (nonlinear_arith)
        requires
            0 <= x < s,
            0 <= y < s,
    ;
    assert(0 <= i < s * s * s) by (nonlinear_arith)
        requires
            0 <= x * s + y < s * s,
            0 <= z < s,
            i == (x * s + y) * s + z,
    ;
    lemma_fundamental_div_mod_converse(i, s, x * s + y, z);
    lemma_fundamental_div_mod_converse(x * s + y, s, x, y);
    assert(i == x * (s * s) + (y * s + z)) by (nonlinear_arith)
        requires
            i == (x * s + y) * s + z,
    ;
    assert(0 <= y * s + z < s * s) by (nonlinear_arith)
        requires
            0 <= y < s,
            0 <= z < s,
    ;
    lemma_fundamental_div_mod_converse_div(i, s * s, x, y * s + z);
}

/// `2^k` as a machine integer.
fn spread(k: u32) -> (s: i64)
    requires
        k <= 32,
    ensures
        s == pow2(k as nat),
        0 < s <= 0x1_0000_0000,
        k <= 30 ==> s <= 0x4000_0000,
{
    proof {
        lemma2_to64();
        lemma_pow2_pos(k as nat);
        if k < 32 {
            lemma_pow2_strictly_increases(k as nat, 32);
        }
        if k < 30 {
            lemma_pow2_strictly_increases(k as nat, 30);
        }
        vstd::bits::lemma_u64_shl_is_mul(1, k as u64);
    }
    (1u64 << (k as u64)) as i64
}

/// The host cube of a template leaf, at one place of its spread.
fn target(branch: Branch, depth: u32, leaf: Branch, x: u32, y: u32, z: u32) -> (host: Branch)
    requires
        placeable(branch, depth, leaf),
        x < spec_spread(branch, leaf),
        y < spec_spread(branch, leaf),
        z < spec_spread(branch, leaf),
    ensures
        host == spec_target(branch, depth, leaf, x as int, y as int, z as int),
        host.depth <= MAX_DEPTH,
{
    if leaf.depth >= branch.depth {
        let s = spread(leaf.depth - branch.depth);
        Branch {
            path: IVec3 {
                x: (leaf.path.x as i64 + branch.path.x as i64 * s) as i32,
                y: (leaf.path.y as i64 + branch.path.y as i64 * s) as i32,
                z: (leaf.path.z as i64 + branch.path.z as i64 * s) as i32,
            },
            depth: leaf.depth + depth,
        }
    } else {
        let s = spread(branch.depth - leaf.depth);
        Branch {
            path: IVec3 {
                x: (leaf.path.x as i64 * s + branch.path.x as i64 + x as i64) as i32,
                y: (leaf.path.y as i64 * s + branch.path.y as i64 + y as i64) as i32,
                z: (leaf.path.z as i64 * s + branch.path.z as i64 + z as i64) as i32,
            },
            depth: branch.depth + depth,
        }
    }
}

/// The edits of the first leaves of a list are the first edits of the list.
pub proof fn lemma_footprint_prefix(branch: Branch, depth: u32, leaves: Seq<(Branch, Node)>, d: int)
    requires
        0 <= d <= leaves.len(),
    ensures
        spec_footprint(branch, depth, leaves.take(d)).is_prefix_of(
            spec_footprint(branch, depth, leaves),
        ),
    decreases leaves.len() - d,
{
    let all = spec_footprint(branch, depth, leaves);
    if d == leaves.len() {
        assert(leaves.take(d) =~= leaves);
        assert(all =~= all.subrange(0, all.len() as int));
    } else {
        assert(leaves.drop_last().take(d) =~= leaves.take(d));
        lemma_footprint_prefix(branch, depth, leaves.drop_last(), d);
        let first = spec_footprint(branch, depth, leaves.take(d));
        let most = spec_footprint(branch, depth, leaves.drop_last());
        assert(first =~= most.subrange(0, first.len() as int));
        assert(most.subrange(0, first.len() as int) =~= all.subrange(0, first.len() as int));
    }
}

/// The edits that a template comes to are at cubes within the depth limit,
/// and their leaves are the leaves of the template.
pub proof fn lemma_footprint_edits(branch: Branch, depth: u32, leaves: Seq<(Branch, Node)>, i: int)
    requires
        all_placeable(branch, depth, leaves),
        0 <= i < spec_footprint(branch, depth, leaves).len(),
    ensures
        spec_footprint(branch, depth, leaves)[i].0.depth <= MAX_DEPTH,
        exists|j: int|
            0 <= j < leaves.len() && spec_footprint(branch, depth, leaves)[i].1 == (
            #[trigger] leaves[j]).1,
    decreases leaves.len(),
{
    let first = spec_footprint(branch, depth, leaves.drop_last());
    let last = leaves[leaves.len() - 1];
    if i < first.len() {
        assert(all_placeable(branch, depth, leaves.drop_last())) by {
            assert forall|j: int| 0 <= j < leaves.drop_last().len() implies placeable(
                branch,
                depth,
                (#[trigger] leaves.drop_last()[j]).0,
            ) by {
                assert(leaves.drop_last()[j] == leaves[j]);
            }
        }
        lemma_footprint_edits(branch, depth, leaves.drop_last(), i);
        let j = choose|j: int|
            0 <= j < leaves.drop_last().len() && first[i].1 == (#[trigger] leaves.drop_last()[j]).1;
        assert(leaves[j] == leaves.drop_last()[j]);
    } else {
        assert(placeable(branch, depth, last.0));
        assert(spec_footprint(branch, depth, leaves)[i].1 == last.1);
    }
}

/// The pool has room for the blocks that edit `j` of the list may take,
/// once the edits before it are made: eight nodes for each level down.
pub open spec fn roomy(
    start: Seq<Node>,
    start_free: Seq<u32>,
    edits: Seq<(Branch, Node)>,
    clear: bool,
    j: int,
) -> bool {
    pool_edits(start, start_free, edits.take(j), clear).0.len() + 8 * edits[j].0.depth <= u32::MAX
}

/// The pool has room for each of the first `upto` edits of the list in its
/// turn.
pub open spec fn all_roomy(
    start: Seq<Node>,
    start_free: Seq<u32>,
    edits: Seq<(Branch, Node)>,
    clear: bool,
    upto: int,
) -> bool {
    forall|j: int| 0 <= j < upto ==> #[trigger] roomy(start, start_free, edits, clear, j)
}

/// The pool stopped before edit `k` of the list: it had room for every edit
/// before that one, it is the pool that those edits make of the pool at the
/// start, it holds the tree after those edits, and it has no room for the
/// blocks that edit `k` may take.
pub open spec fn stopped_at(
    start: Seq<Node>,
    start_free: Seq<u32>,
    nodes: Seq<Node>,
    free: Seq<u32>,
    edits: Seq<(Branch, Node)>,
    clear: bool,
    k: int,
) -> bool {
    &&& 0 <= k < edits.len()
    &&& all_roomy(start, start_free, edits, clear, k)
    &&& !roomy(start, start_free, edits, clear, k)
    &&& tree_of(nodes) == tree_of(start).edits(edits.take(k), clear)
    &&& (nodes, free) == pool_edits(start, start_free, edits.take(k), clear)
    &&& nodes.len() + 8 * edits[k].0.depth > u32::MAX
}

/// How far the pool came through a list of edits: through all of them if
/// `done`, up to the first for which it had no room if not.
pub open spec fn applied(
    start: Seq<Node>,
    start_free: Seq<u32>,
    nodes: Seq<Node>,
    free: Seq<u32>,
    edits: Seq<(Branch, Node)>,
    clear: bool,
    done: bool,
) -> bool {
    if done {
        &&& all_roomy(start, start_free, edits, clear, edits.len() as int)
        &&& tree_of(nodes) == tree_of(start).edits(edits, clear)
        &&& (nodes, free) == pool_edits(start, start_free, edits, clear)
    } else {
        exists|k: int| stopped_at(start, start_free, nodes, free, edits, clear, k)
    }
}

/// Making one list of edits in the pool and then another is making the two
/// lists in a row.
pub proof fn lemma_pool_edits_add(
    nodes: Seq<Node>,
    free: Seq<u32>,
    first: Seq<(Branch, Node)>,
    then: Seq<(Branch, Node)>,
    clear: bool,
)
    ensures
        pool_edits(nodes, free, first + then, clear) == pool_edits(
            pool_edits(nodes, free, first, clear).0,
            pool_edits(nodes, free, first, clear).1,
            then,
            clear,
        ),
    decreases then.len(),
{
    if then.len() == 0 {
        assert(first + then =~= first);
    } else {
        assert((first + then).drop_last() =~= first + then.drop_last());
        assert((first + then).last() == then.last());
        lemma_pool_edits_add(nodes, free, first, then.drop_last(), clear);
    }
}

/// Room for one list of edits and then, in the pool that they make, for the
/// first `upto` of another is room for as many edits of the two lists in a
/// row.
pub proof fn lemma_roomy_add(
    nodes: Seq<Node>,
    free: Seq<u32>,
    first: Seq<(Branch, Node)>,
    then: Seq<(Branch, Node)>,
    clear: bool,
    upto: int,
)
    requires
        0 <= upto <= then.len(),
        all_roomy(nodes, free, first, clear, first.len() as int),
        all_roomy(
            pool_edits(nodes, free, first, clear).0,
            pool_edits(nodes, free, first, clear).1,
            then,
            clear,
            upto,
        ),
    ensures
        all_roomy(nodes, free, first + then, clear, first.len() + upto),
{
    let both = first + then;
    assert forall|j: int| 0 <= j < first.len() + upto implies #[trigger] roomy(nodes, free, both, clear, j) by {
        if j < first.len() {
            assert(both.take(j) =~= first.take(j));
            assert(roomy(nodes, free, first, clear, j));
        } else {
            let i = j - first.len();
            assert(both.take(j) =~= first + then.take(i));
            lemma_pool_edits_add(nodes, free, first, then.take(i), clear);
            assert(roomy(
                pool_edits(nodes, free, first, clear).0,
                pool_edits(nodes, free, first, clear).1,
                then,
                clear,
                i,
            ));
        }
    }
}

/// Room for the first edits of a list is room for them at the head of a
/// longer list.
pub proof fn lemma_roomy_prefix(
    nodes: Seq<Node>,
    free: Seq<u32>,
    part: Seq<(Branch, Node)>,
    whole: Seq<(Branch, Node)>,
    clear: bool,
    upto: int,
)
    requires
        0 <= upto <= part.len() <= whole.len(),
        part =~= whole.take(part.len() as int),
    ensures
        all_roomy(nodes, free, part, clear, upto) <==> all_roomy(nodes, free, whole, clear, upto),
        upto < part.len() ==> (roomy(nodes, free, part, clear, upto) <==> roomy(
            nodes,
            free,
            whole,
            clear,
            upto,
        )),
{
    assert forall|j: int| 0 <= j <= upto && j < part.len() implies (#[trigger] roomy(nodes, free, part, clear, j)
        <==> roomy(nodes, free, whole, clear, j)) by {
        assert(part.take(j) =~= whole.take(j));
    }
    if all_roomy(nodes, free, part, clear, upto) {
        assert forall|j: int| 0 <= j < upto implies #[trigger] roomy(nodes, free, whole, clear, j) by {
            assert(roomy(nodes, free, part, clear, j));
        }
    }
    if all_roomy(nodes, free, whole, clear, upto) {
        assert forall|j: int| 0 <= j < upto implies #[trigger] roomy(nodes, free, part, clear, j) by {
            assert(roomy(nodes, free, whole, clear, j));
        }
    }
}

/// Whether the pool has room for the blocks that an edit at `depth` may take.
fn has_room<P: NodePool>(pool: &P, depth: u32) -> (room: bool)
    requires
        pool.nodes().len() <= u32::MAX,
        depth <= MAX_DEPTH,
    ensures
        room == (pool.nodes().len() + 8 * depth <= u32::MAX),
{
    pool.len_nodes() as u64 + 8 * depth as u64 <= 0xffff_ffff
}

/// Makes one edit, if the pool has room for it.
fn edit_in<P: NodePool>(pool: &mut P, host: Branch, node: Node, clear: bool) -> (done: bool)
    requires
        wf(old(pool).nodes(), old(pool).free()),
        old(pool).record_ok(),
        host.depth <= MAX_DEPTH,
        !node.is_parent(),
    ensures
        wf(final(pool).nodes(), final(pool).free()),
        final(pool).record_ok(),
        done == (old(pool).nodes().len() + 8 * host.depth <= u32::MAX),
        done ==> tree_of(final(pool).nodes()) == tree_of(old(pool).nodes()).edited((host, node), clear),
        done ==> (final(pool).nodes(), final(pool).free()) == pool_edits(
            old(pool).nodes(),
            old(pool).free(),
            seq![(host, node)],
            clear,
        ),
        !done ==> final(pool).nodes() == old(pool).nodes(),
        !done ==> final(pool).free() == old(pool).free(),
        final(pool).nodes().len() <= old(pool).nodes().len() + 256,
        tree_of(old(pool).nodes()).coalesced() ==> tree_of(final(pool).nodes()).coalesced(),
        old(pool).in_bounds() ==> final(pool).in_bounds(),
        tracks(old(pool).nodes(), old(pool).dirty(), final(pool).nodes(), final(pool).dirty()),
{
    proof {
        lemma_wf_len(pool.nodes(), pool.free());
    }
    if !has_room(pool, host.depth) {
        return false;
    }
    proof {
        host.lemma_cell_entries();
        lemma_tree_height(pool.nodes(), pool.free());
        if tree_of(pool.nodes()).coalesced() {
            if clear {
                lemma_remove_coalesced(tree_of(pool.nodes()), MAX_DEPTH as nat, host.cell());
            } else {
                lemma_set_coalesced(tree_of(pool.nodes()), MAX_DEPTH as nat, host.cell(), node);
            }
        }
    }
    proof {
        let one = seq![(host, node)];
        assert(one.drop_last() =~= Seq::<(Branch, Node)>::empty());
        assert(one.last() == (host, node));
        assert(pool_edits(pool.nodes(), pool.free(), one.drop_last(), clear) == (pool.nodes(), pool.free()));
    }
    if clear {
        remove_in(pool, host);
    } else {
        set_in(pool, host, node);
    }
    true
}

/// Makes the edits of one template leaf: writes the leaf at each of its host
/// cubes, or clears each of them, as long as the pool has room.
fn place_in<P: NodePool>(pool: &mut P, branch: Branch, depth: u32, leaf: (Branch, Node), clear: bool) -> (done: bool)
    requires
        wf(old(pool).nodes(), old(pool).free()),
        old(pool).record_ok(),
        placeable(branch, depth, leaf.0),
        !leaf.1.is_parent(),
    ensures
        wf(final(pool).nodes(), final(pool).free()),
        final(pool).record_ok(),
        applied(
            old(pool).nodes(),
            old(pool).free(),
            final(pool).nodes(),
            final(pool).free(),
            spec_places(branch, depth, leaf),
            clear,
            done,
        ),
        old(pool).nodes().len() + 256 * spec_places(branch, depth, leaf).len() <= u32::MAX ==> done,
        final(pool).nodes().len() <= old(pool).nodes().len() + 256 * spec_places(
            branch,
            depth,
            leaf,
        ).len(),
        tree_of(old(pool).nodes()).coalesced() ==> tree_of(final(pool).nodes()).coalesced(),
        old(pool).in_bounds() ==> final(pool).in_bounds(),
        tracks(old(pool).nodes(), old(pool).dirty(), final(pool).nodes(), final(pool).dirty()),
{
    let ghost base = tree_of(pool.nodes());
    let ghost places = spec_places(branch, depth, leaf);
    if leaf.0.depth >= branch.depth {
        let host = target(branch, depth, leaf.0, 0, 0, 0);
        proof {
            assert(places.drop_last() =~= Seq::<(Branch, Node)>::empty());
            assert(places.take(0) =~= Seq::<(Branch, Node)>::empty());
            assert(places.last() == (host, leaf.1));
            assert(base.edits(places.drop_last(), clear) == base);
            assert(places =~= seq![(host, leaf.1)]);
            assert(pool_edits(pool.nodes(), pool.free(), places.take(0), clear) == (pool.nodes(), pool.free()));
        }
        let done = edit_in(pool, host, leaf.1, clear);
        proof {
            assert(roomy(old(pool).nodes(), old(pool).free(), places, clear, 0) == done);
            if !done {
                assert(stopped_at(
                    old(pool).nodes(),
                    old(pool).free(),
                    pool.nodes(),
                    pool.free(),
                    places,
                    clear,
                    0,
                ));
            }
        }
        return done;
    }
    let half: u32 = spread(branch.depth - leaf.0.depth) as u32;
    let ghost s = half as int;
    proof {
        assert(places.take(0) =~= Seq::<(Branch, Node)>::empty());
        assert((0 * s + 0) * s == 0) by (nonlinear_arith);
        assert(pool_edits(pool.nodes(), pool.free(), places.take(0), clear) == (pool.nodes(), pool.free()));
    }
    let mut x: u32 = 0;
    while x < half
        invariant
            0 <= x <= half,
            s == half,
            s == spec_spread(branch, leaf.0),
            0 < s,
            places == spec_places(branch, depth, leaf),
            places.len() == s * s * s,
            base == tree_of(old(pool).nodes()),
            placeable(branch, depth, leaf.0),
            !leaf.1.is_parent(),
            leaf.0.depth < branch.depth,
            wf(pool.nodes(), pool.free()),
            pool.record_ok(),
            0 <= (x * s) * s <= s * s * s,
            tree_of(pool.nodes()) == base.edits(places.take((x * s) * s), clear),
            (pool.nodes(), pool.free()) == pool_edits(
                old(pool).nodes(),
                old(pool).free(),
                places.take((x * s) * s),
                clear,
            ),
            all_roomy(old(pool).nodes(), old(pool).free(), places, clear, (x * s) * s),
            pool.nodes().len() <= old(pool).nodes().len() + 256 * ((x * s) * s),
            tree_of(old(pool).nodes()).coalesced() ==> tree_of(pool.nodes()).coalesced(),
            old(pool).in_bounds() ==> pool.in_bounds(),
            tracks(old(pool).nodes(), old(pool).dirty(), pool.nodes(), pool.dirty()),
        decreases half - x,
    {
        let mut y: u32 = 0;
        proof {
            assert((x * s + 0) * s == (x * s) * s);
        }
        while y < half
            invariant
                0 <= x < half,
                0 <= y <= half,
                s == half,
                s == spec_spread(branch, leaf.0),
                0 < s,
                places == spec_places(branch, depth, leaf),
                places.len() == s * s * s,
                base == tree_of(old(pool).nodes()),
                placeable(branch, depth, leaf.0),
                !leaf.1.is_parent(),
                leaf.0.depth < branch.depth,
                wf(pool.nodes(), pool.free()),
                pool.record_ok(),
                0 <= (x * s + y) * s <= s * s * s,
                tree_of(pool.nodes()) == base.edits(places.take((x * s + y) * s), clear),
                (pool.nodes(), pool.free()) == pool_edits(
                    old(pool).nodes(),
                    old(pool).free(),
                    places.take((x * s + y) * s),
                    clear,
                ),
                all_roomy(old(pool).nodes(), old(pool).free(), places, clear, (x * s + y) * s),
                pool.nodes().len() <= old(pool).nodes().len() + 256 * ((x * s + y) * s),
                tree_of(old(pool).nodes()).coalesced() ==> tree_of(pool.nodes()).coalesced(),
                old(pool).in_bounds() ==> pool.in_bounds(),
                tracks(old(pool).nodes(), old(pool).dirty(), pool.nodes(), pool.dirty()),
            decreases half - y,
        {
            let mut z: u32 = 0;
            while z < half
                invariant
                    0 <= x < half,
                    0 <= y < half,
                    0 <= z <= half,
                    s == half,
                    s == spec_spread(branch, leaf.0),
                    0 < s,
                    places == spec_places(branch, depth, leaf),
                    places.len() == s * s * s,
                    base == tree_of(old(pool).nodes()),
                    placeable(branch, depth, leaf.0),
                    !leaf.1.is_parent(),
                    leaf.0.depth < branch.depth,
                    wf(pool.nodes(), pool.free()),
                    pool.record_ok(),
                    0 <= (x * s + y) * s + z <= s * s * s,
                    tree_of(pool.nodes()) == base.edits(places.take((x * s + y) * s + z), clear),
                    (pool.nodes(), pool.free()) == pool_edits(
                        old(pool).nodes(),
                        old(pool).free(),
                        places.take((x * s + y) * s + z),
                        clear,
                    ),
                    all_roomy(old(pool).nodes(), old(pool).free(), places, clear, (x * s + y) * s + z),
                    pool.nodes().len() <= old(pool).nodes().len() + 256 * ((x * s + y) * s + z),
                    tree_of(old(pool).nodes()).coalesced() ==> tree_of(pool.nodes()).coalesced(),
                    old(pool).in_bounds() ==> pool.in_bounds(),
                    tracks(old(pool).nodes(), old(pool).dirty(), pool.nodes(), pool.dirty()),
                decreases half - z,
            {
                let ghost count = (x * s + y) * s + z;
                let ghost before = *pool;
                let host = target(branch, depth, leaf.0, x, y, z);
                proof {
                    lemma_spread_index(x as int, y as int, z as int, s);
                    assert(places[count] == (host, leaf.1));
                    assert(places.take(count + 1).drop_last() =~= places.take(count));
                    assert(places.take(count + 1).last() == places[count]);
                    assert(places.take(count + 1) =~= places.take(count) + seq![(host, leaf.1)]);
                    lemma_pool_edits_add(
                        old(pool).nodes(),
                        old(pool).free(),
                        places.take(count),
                        seq![(host, leaf.1)],
                        clear,
                    );
                }
                let done = edit_in(pool, host, leaf.1, clear);
                proof {
                    assert(roomy(old(pool).nodes(), old(pool).free(), places, clear, count) == done);
                    lemma_tracks_trans(
                        old(pool).nodes(),
                        old(pool).dirty(),
                        before.nodes(),
                        before.dirty(),
                        pool.nodes(),
                        pool.dirty(),
                    );
                }
                if !done {
                    proof {
                        assert(stopped_at(
                            old(pool).nodes(),
                            old(pool).free(),
                            pool.nodes(),
                            pool.free(),
                            places,
                            clear,
                            count,
                        ));
                    }
                    return false;
                }
                z += 1;
            }
            proof {
                lemma_spread_index(x as int, y as int, 0, s);
            }
            y += 1;
        }
        proof {
            lemma_spread_index(x as int, 0, 0, s);
            assert((x * s + s) * s == ((x + 1) * s) * s) by (nonlinear_arith);
        }
        x += 1;
    }
    proof {
        assert((s * s) * s == s * s * s);
        assert(places.take(s * s * s) =~= places);
    }
    true
}

/// Applies a template octree to any pool: every leaf of the template that is
/// not empty is written at its host cubes, or every such cube is cleared.
/// Stops, and says so, at the first edit for which the pool has no room; a
/// pool with room for 256 nodes for every edit has room for all.
pub fn apply_in<P: NodePool>(pool: &mut P, branch: Branch, depth: u32, other: &Octree, clear: bool) -> (done: bool)
    requires
        wf(old(pool).nodes(), old(pool).free()),
        old(pool).record_ok(),
        other.wf(),
        all_placeable(branch, depth, other@.leaves(Branch::root())),
    ensures
        wf(final(pool).nodes(), final(pool).free()),
        final(pool).record_ok(),
        applied(
            old(pool).nodes(),
            old(pool).free(),
            final(pool).nodes(),
            final(pool).free(),
            spec_footprint(branch, depth, other@.leaves(Branch::root())),
            clear,
            done,
        ),
        done <==> all_roomy(
            old(pool).nodes(),
            old(pool).free(),
            spec_footprint(branch, depth, other@.leaves(Branch::root())),
            clear,
            spec_footprint(branch, depth, other@.leaves(Branch::root())).len() as int,
        ),
        old(pool).nodes().len() + 256 * spec_footprint(
            branch,
            depth,
            other@.leaves(Branch::root()),
        ).len() <= u32::MAX ==> done,
        tree_of(old(pool).nodes()).coalesced() ==> tree_of(final(pool).nodes()).coalesced(),
        old(pool).in_bounds() ==> final(pool).in_bounds(),
        tracks(old(pool).nodes(), old(pool).dirty(), final(pool).nodes(), final(pool).dirty()),
{
    let ghost base = tree_of(pool.nodes());
    let ghost all = other@.leaves(Branch::root());
    let ghost whole = spec_footprint(branch, depth, all);
    let ghost mut done: int = 0;
    let mut iter = other.iter_nodes();
    proof {
        assert(all.skip(0) =~= all);
        assert(all.take(0) =~= Seq::<(Branch, Node)>::empty());
        assert(pool_edits(
            pool.nodes(),
            pool.free(),
            spec_footprint(branch, depth, all.take(0)),
            clear,
        ) == (pool.nodes(), pool.free()));
    }
    loop
        invariant
            iter.wf(),
            0 <= done <= all.len(),
            all == other@.leaves(Branch::root()),
            whole == spec_footprint(branch, depth, all),
            iter.remaining() == all.skip(done),
            base == tree_of(old(pool).nodes()),
            all_placeable(branch, depth, all),
            wf(pool.nodes(), pool.free()),
            pool.record_ok(),
            tree_of(pool.nodes()) == base.edits(spec_footprint(branch, depth, all.take(done)), clear),
            (pool.nodes(), pool.free()) == pool_edits(
                old(pool).nodes(),
                old(pool).free(),
                spec_footprint(branch, depth, all.take(done)),
                clear,
            ),
            all_roomy(
                old(pool).nodes(),
                old(pool).free(),
                spec_footprint(branch, depth, all.take(done)),
                clear,
                spec_footprint(branch, depth, all.take(done)).len() as int,
            ),
            pool.nodes().len() <= old(pool).nodes().len() + 256 * spec_footprint(
                branch,
                depth,
                all.take(done),
            ).len(),
            tree_of(old(pool).nodes()).coalesced() ==> tree_of(pool.nodes()).coalesced(),
            old(pool).in_bounds() ==> pool.in_bounds(),
            tracks(old(pool).nodes(), old(pool).dirty(), pool.nodes(), pool.dirty()),
        decreases all.len() - done,
    {
        let leaf = match iter.next() {
            Some(leaf) => leaf,
            None => {
                proof {
                    assert(all.take(done) =~= all);
                }
                return true;
            },
        };
        let ghost before = *pool;
        let ghost first = spec_footprint(branch, depth, all.take(done));
        let ghost places = spec_places(branch, depth, leaf);
        proof {
            assert(leaf == all[done]);
            assert(all.take(done + 1).drop_last() =~= all.take(done));
            assert(all.take(done + 1).last() == leaf);
            assert(all.skip(done).drop_first() =~= all.skip(done + 1));
            lemma_footprint_prefix(branch, depth, all, done + 1);
            base.lemma_edits_add(first, places, clear);
            lemma_pool_edits_add(old(pool).nodes(), old(pool).free(), first, places, clear);
        }
        let placed = place_in(pool, branch, depth, leaf, clear);
        proof {
            lemma_tracks_trans(
                old(pool).nodes(),
                old(pool).dirty(),
                before.nodes(),
                before.dirty(),
                pool.nodes(),
                pool.dirty(),
            );
        }
        if !placed {
            proof {
                let k = choose|k: int|
                    stopped_at(before.nodes(), before.free(), pool.nodes(), pool.free(), places, clear, k);
                let wider = first + places;
                assert(wider =~= whole.subrange(0, wider.len() as int));
                assert(wider =~= whole.take(wider.len() as int));
                lemma_roomy_add(old(pool).nodes(), old(pool).free(), first, places, clear, k);
                lemma_roomy_prefix(old(pool).nodes(), old(pool).free(), wider, whole, clear, first.len() + k);
                assert(wider.take(first.len() + k) =~= first + places.take(k));
                assert(wider[first.len() + k] == places[k]);
                lemma_pool_edits_add(old(pool).nodes(), old(pool).free(), first, places.take(k), clear);
                assert(!roomy(before.nodes(), before.free(), places, clear, k));
                assert(!roomy(old(pool).nodes(), old(pool).free(), wider, clear, first.len() + k));
                assert(whole.take(first.len() + k) =~= first + places.take(k));
                base.lemma_edits_add(first, places.take(k), clear);
                lemma_pool_edits_add(old(pool).nodes(), old(pool).free(), first, places.take(k), clear);
                assert(whole[first.len() + k] == wider[first.len() + k]);
                assert(stopped_at(
                    old(pool).nodes(),
                    old(pool).free(),
                    pool.nodes(),
                    pool.free(),
                    whole,
                    clear,
                    first.len() + k,
                ));
            }
            return false;
        }
        proof {
            lemma_roomy_add(
                old(pool).nodes(),
                old(pool).free(),
                first,
                places,
                clear,
                places.len() as int,
            );
            done = done + 1;
        }
    }
}

impl Octree {
    /// Writes every leaf of the template `other` that is not empty into this
    /// octree, the template placed `depth` levels down at `branch`. Says
    /// whether the pool had room for every write; if not, it stopped at the
    /// first for which it had none.
    pub fn union(&mut self, branch: Branch, depth: u32, other: &Octree) -> (done: bool)
        requires
            old(self).wf(),
            other.wf(),
            all_placeable(branch, depth, other@.leaves(Branch::root())),
        ensures
            final(self).wf(),
            old(self)@.coalesced() ==> final(self)@.coalesced(),
            applied(
                old(self).nodes@,
                old(self).free_branches@,
                final(self).nodes@,
                final(self).free_branches@,
                spec_footprint(branch, depth, other@.leaves(Branch::root())),
                false,
                done,
            ),
            done <==> all_roomy(
                old(self).nodes@,
                old(self).free_branches@,
                spec_footprint(branch, depth, other@.leaves(Branch::root())),
                false,
                spec_footprint(branch, depth, other@.leaves(Branch::root())).len() as int,
            ),
            done ==> final(self)@ == old(self)@.sets(
                spec_footprint(branch, depth, other@.leaves(Branch::root())),
            ),
            old(self).nodes.len() + 256 * spec_footprint(
                branch,
                depth,
                other@.leaves(Branch::root()),
            ).len() <= u32::MAX ==> done,
    {
        apply_in(self, branch, depth, other, false)
    }

    /// Clears in this octree every cube that a leaf of the template `other`
    /// comes to, the template placed `depth` levels down at `branch`. Says
    /// whether the pool had room for every split that this took; if not, it
    /// stopped at the first cube for which it had none.
    pub fn difference(&mut self, branch: Branch, depth: u32, other: &Octree) -> (done: bool)
        requires
            old(self).wf(),
            other.wf(),
            all_placeable(branch, depth, other@.leaves(Branch::root())),
        ensures
            final(self).wf(),
            old(self)@.coalesced() ==> final(self)@.coalesced(),
            applied(
                old(self).nodes@,
                old(self).free_branches@,
                final(self).nodes@,
                final(self).free_branches@,
                spec_footprint(branch, depth, other@.leaves(Branch::root())),
                true,
                done,
            ),
            done <==> all_roomy(
                old(self).nodes@,
                old(self).free_branches@,
                spec_footprint(branch, depth, other@.leaves(Branch::root())),
                true,
                spec_footprint(branch, depth, other@.leaves(Branch::root())).len() as int,
            ),
            done ==> final(self)@ == old(self)@.removes(
                spec_footprint(branch, depth, other@.leaves(Branch::root())),
            ),
            old(self).nodes.len() + 256 * spec_footprint(
                branch,
                depth,
                other@.leaves(Branch::root()),
            ).len() <= u32::MAX ==> done,
    {
        apply_in(self, branch, depth, other, true)
    }
}

impl Octree {
    /// A tidy host without matter that takes a template in and has it taken
    /// out again at the same place is the one blank leaf it was: what the
    /// union wrote the difference clears, and the clearing collapses the
    /// host back to its root.
    pub proof fn lemma_round_trip(host: Tree, branch: Branch, depth: u32, other: &Octree)
        requires
            host.shaped(MAX_DEPTH as nat),
            host.is_void(),
            host.tidy(),
            other.wf(),
            all_placeable(branch, depth, other@.leaves(Branch::root())),
        ensures
            host.sets(spec_footprint(branch, depth, other@.leaves(Branch::root()))).removes(
                spec_footprint(branch, depth, other@.leaves(Branch::root())),
            ) == Tree::Leaf(Node::empty()),
    {
        let leaves = other@.leaves(Branch::root());
        let edits = spec_footprint(branch, depth, leaves);
        assert forall|i: int| 0 <= i < edits.len() implies (#[trigger] edits[i]).0.depth <= MAX_DEPTH
            && !edits[i].1.is_parent() && edits[i].1.is_solid() by {
            lemma_footprint_edits(branch, depth, leaves, i);
            let j = choose|j: int| 0 <= j < leaves.len() && edits[i].1 == (#[trigger] leaves[j]).1;
            other.lemma_walk_get(j);
            crate::pool::lemma_tree_height(other.nodes@, other.free_branches@);
            vstd::arithmetic::power2::lemma2_to64();
            crate::laws::lemma_leaves_get(other@, MAX_DEPTH as nat, Branch::root(), j);
            leaves[j].1.lemma_empty_iff();
        }
        crate::laws::lemma_union_difference_blank(host, edits);
    }
}

impl DynamicOctree {
    /// Writes every leaf of the template `other` that is not empty into this
    /// octree, the template placed `depth` levels down at `branch`, and
    /// records every node of the pool that this changed. Says whether the
    /// pool had room for every write; if not, it stopped at the first for
    /// which it had none.
    pub fn union(&mut self, branch: Branch, depth: u32, other: &Octree) -> (done: bool)
        requires
            old(self).wf(),
            other.wf(),
            all_placeable(branch, depth, other@.leaves(Branch::root())),
        ensures
            final(self).wf(),
            old(self)@.coalesced() ==> final(self)@.coalesced(),
            applied(
                old(self).pool().nodes@,
                old(self).pool().free_branches@,
                final(self).pool().nodes@,
                final(self).pool().free_branches@,
                spec_footprint(branch, depth, other@.leaves(Branch::root())),
                false,
                done,
            ),
            done <==> all_roomy(
                old(self).pool().nodes@,
                old(self).pool().free_branches@,
                spec_footprint(branch, depth, other@.leaves(Branch::root())),
                false,
                spec_footprint(branch, depth, other@.leaves(Branch::root())).len() as int,
            ),
            done ==> final(self)@ == old(self)@.sets(
                spec_footprint(branch, depth, other@.leaves(Branch::root())),
            ),
            old(self).pool().nodes.len() + 256 * spec_footprint(
                branch,
                depth,
                other@.leaves(Branch::root()),
            ).len() <= u32::MAX ==> done,
            old(self).in_pool() ==> final(self).in_pool(),
            tracks(
                old(self).pool().nodes@,
                cover(old(self).record()),
                final(self).pool().nodes@,
                cover(final(self).record()),
            ),
    {
        proof {
            old(self).lemma_view();
        }
        let done = apply_in(self, branch, depth, other, false);
        proof {
            self.lemma_view();
        }
        done
    }

    /// Clears in this octree every cube that a leaf of the template `other`
    /// comes to, the template placed `depth` levels down at `branch`, and
    /// records every node of the pool that this changed. Says whether the
    /// pool had room for every split that this took; if not, it stopped at
    /// the first cube for which it had none.
    pub fn difference(&mut self, branch: Branch, depth: u32, other: &Octree) -> (done: bool)
        requires
            old(self).wf(),
            other.wf(),
            all_placeable(branch, depth, other@.leaves(Branch::root())),
        ensures
            final(self).wf(),
            old(self)@.coalesced() ==> final(self)@.coalesced(),
            applied(
                old(self).pool().nodes@,
                old(self).pool().free_branches@,
                final(self).pool().nodes@,
                final(self).pool().free_branches@,
                spec_footprint(branch, depth, other@.leaves(Branch::root())),
                true,
                done,
            ),
            done <==> all_roomy(
                old(self).pool().nodes@,
                old(self).pool().free_branches@,
                spec_footprint(branch, depth, other@.leaves(Branch::root())),
                true,
                spec_footprint(branch, depth, other@.leaves(Branch::root())).len() as int,
            ),
            done ==> final(self)@ == old(self)@.removes(
                spec_footprint(branch, depth, other@.leaves(Branch::root())),
            ),
            old(self).pool().nodes.len() + 256 * spec_footprint(
                branch,
                depth,
                other@.leaves(Branch::root()),
            ).len() <= u32::MAX ==> done,
            old(self).in_pool() ==> final(self).in_pool(),
            tracks(
                old(self).pool().nodes@,
                cover(old(self).record()),
                final(self).pool().nodes@,
                cover(final(self).record()),
            ),
    {
        proof {
            old(self).lemma_view();
        }
        let done = apply_in(self, branch, depth, other, true);
        proof {
            self.lemma_view();
        }
        done
    }
}

/// Whether one coordinate of every host cube of a leaf fits in 32 bits.
fn axis_ok(target: i32, leaf: i32, up: u32, down: u32, lifted: bool) -> (ok: bool)
    requires
        lifted ==> 1 <= up <= 30,
        !lifted ==> down <= 32,
    ensures
        ok == axis_fits(
            target as int,
            leaf as int,
            if lifted {
                up as int
            } else {
                -(down as int)
            },
            if lifted {
                -(up as int)
            } else {
                down as int
            },
        ),
{
    let low = i32::MIN as i64;
    let high = i32::MAX as i64;
    if lifted {
        let s = spread(up);
        assert(-0x8000_0000 * 0x4000_0000 <= leaf * s <= 0x8000_0000 * 0x4000_0000) by (nonlinear_arith)
            requires
                -0x8000_0000 <= leaf <= 0x8000_0000,
                0 < s <= 0x4000_0000,
        ;
        let scaled = leaf as i64 * s;
        low <= scaled && scaled <= high && low <= scaled + target as i64 && scaled + target as i64
            <= high && scaled + target as i64 + s - 1 <= high
    } else {
        let s = spread(down);
        assert(-0x8000_0000 * 0x1_0000_0000 <= target * s <= 0x7fff_ffff * 0x1_0000_0000)
            by (nonlinear_arith)
            requires
                -0x8000_0000 <= target <= 0x7fff_ffff,
                0 < s <= 0x1_0000_0000,
        ;
        let scaled = target as i64 * s;
        low <= scaled && scaled <= high && low <= leaf as i64 + scaled && leaf as i64 + scaled
            <= high
    }
}

/// Whether a template leaf can be placed.
fn leaf_fits(branch: Branch, depth: u32, leaf: Branch) -> (fits: bool)
    requires
        leaf.depth <= MAX_DEPTH,
    ensures
        fits == placeable(branch, depth, leaf),
{
    if leaf.depth as u64 + depth as u64 > 32 || branch.depth as u64 + depth as u64 > 32 {
        return false;
    }
    let lifted = leaf.depth < branch.depth;
    let up = if lifted {
        branch.depth - leaf.depth
    } else {
        0
    };
    let down = if lifted {
        0
    } else {
        leaf.depth - branch.depth
    };
    if up > 30 {
        return false;
    }
    axis_ok(branch.path.x, leaf.path.x, up, down, lifted) && axis_ok(
        branch.path.y,
        leaf.path.y,
        up,
        down,
        lifted,
    ) && axis_ok(branch.path.z, leaf.path.z, up, down, lifted)
}

/// Whether a template can be applied at a place: whether every leaf of the
/// template can be placed there.
pub fn can_apply(branch: Branch, depth: u32, other: &Octree) -> (ok: bool)
    requires
        other.wf(),
    ensures
        ok == all_placeable(branch, depth, other@.leaves(Branch::root())),
{
    let ghost all = other@.leaves(Branch::root());
    let ghost mut done: int = 0;
    let mut iter = other.iter_nodes();
    proof {
        assert(all.skip(0) =~= all);
    }
    loop
        invariant
            iter.wf(),
            0 <= done <= all.len(),
            all == other@.leaves(Branch::root()),
            iter.remaining() == all.skip(done),
            forall|i: int| 0 <= i < done ==> placeable(branch, depth, (#[trigger] all[i]).0),
        decreases all.len() - done,
    {
        match iter.next() {
            None => {
                return true;
            },
            Some(leaf) => {
                proof {
                    assert(leaf == all[done]);
                    assert(all.skip(done).drop_first() =~= all.skip(done + 1));
                }
                if !leaf_fits(branch, depth, leaf.0) {
                    return false;
                }
                proof {
                    done = done + 1;
                }
            },
        }
    }
}

} // verus!
