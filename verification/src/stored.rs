//! Taking a pool in from outside: whether a list of nodes and a free list
//! obey the rules of the pool, decided by three passes over them.

use crate::node::Node;
use crate::octree::Octree;
use crate::pool::{
    block_ok, free_ok, leaf_block, lemma_wf_len, lemma_wf_parent, lemma_wf_parent_at, levels, linked,
    unowned, wf, wf_at,
};
use vstd::prelude::*;

verus! {

/// The mark of a node that no interior node points at.
pub const NO_OWNER: u32 = 0xffff_ffff;

/// `owner` names, for the interior nodes before `upto`, the node that points
/// at each node: every such interior node is not solid, points at a block
/// of the pool and owns its eight nodes, and every owner is such a node.
pub open spec fn owners_upto(nodes: Seq<Node>, owner: Seq<u32>, upto: int) -> bool {
    &&& owner.len() == nodes.len()
    &&& forall|p: int|
        0 <= p < upto && (#[trigger] nodes[p]).is_parent() ==> !nodes[p].is_solid() && block_ok(
            nodes.len() as int,
            nodes[p].data as int,
        )
    &&& forall|p: int, j: int|
        0 <= p < upto && (#[trigger] nodes[p]).is_parent() && nodes[p].data <= j < nodes[p].data + 8
            ==> #[trigger] owner[j] == p
    &&& forall|j: int|
        0 <= j < owner.len() && (#[trigger] owner[j]) != NO_OWNER ==> owner[j] < upto
            && nodes[owner[j] as int].is_parent() && nodes[owner[j] as int].data <= j
            < nodes[owner[j] as int].data + 8
}

/// The way up from node `j` comes to a node without an owner in at most
/// `fuel` steps.
pub open spec fn ends(owner: Seq<u32>, j: int, fuel: nat) -> bool
    decreases fuel,
{
    owner[j] == NO_OWNER || (fuel > 0 && ends(owner, owner[j] as int, (fuel - 1) as nat))
}

/// The cell of node `j`, counted from the top of its way up: the child
/// index at each step, for at most `fuel` steps.
pub open spec fn place_of(nodes: Seq<Node>, owner: Seq<u32>, j: int, fuel: nat) -> Seq<int>
    decreases fuel,
{
    if fuel == 0 || owner[j] == NO_OWNER {
        Seq::empty()
    } else {
        place_of(nodes, owner, owner[j] as int, (fuel - 1) as nat).push(
            j - nodes[owner[j] as int].data,
        )
    }
}

/// A way up that ends in `fuel` steps ends in more.
pub proof fn lemma_ends_more(owner: Seq<u32>, j: int, fuel: nat, more: nat)
    requires
        ends(owner, j, fuel),
        fuel <= more,
    ensures
        ends(owner, j, more),
    decreases fuel,
{
    if owner[j] != NO_OWNER {
        lemma_ends_more(owner, owner[j] as int, (fuel - 1) as nat, (more - 1) as nat);
    }
}

/// A cell is no longer than the steps it was counted for, and one more step
/// adds nothing to the cell of a way up that has ended.
pub proof fn lemma_place_fuel(nodes: Seq<Node>, owner: Seq<u32>, j: int, fuel: nat)
    ensures
        place_of(nodes, owner, j, fuel).len() <= fuel,
        ends(owner, j, fuel) ==> place_of(nodes, owner, j, fuel + 1) == place_of(nodes, owner, j, fuel),
    decreases fuel,
{
    if fuel > 0 && owner[j] != NO_OWNER {
        lemma_place_fuel(nodes, owner, owner[j] as int, (fuel - 1) as nat);
    }
}

/// Under any placing that makes the pool well formed, a child stands one
/// level below the node that points at its block.
pub proof fn lemma_place_step(nodes: Seq<Node>, free: Seq<u32>, place: Seq<Seq<int>>, p: int, c: int)
    requires
        wf_at(nodes, free, place),
        0 <= p < nodes.len(),
        nodes[p].is_parent(),
        nodes[p].data <= c < nodes[p].data + 8,
    ensures
        place[c].len() == place[p].len() + 1,
        place[c].len() < levels(),
{
    reveal(wf_at);
    assert(linked(nodes, place, p));
    assert(place[c] == place[p].push(c - nodes[p].data));
}

/// Under any placing that makes the pool well formed, no node stands
/// deeper than the last level.
pub proof fn lemma_place_top(nodes: Seq<Node>, free: Seq<u32>, place: Seq<Seq<int>>, j: int)
    requires
        wf_at(nodes, free, place),
        0 <= j < nodes.len(),
    ensures
        place[j].len() < levels(),
{
    reveal(wf_at);
}

/// In a well-formed pool every entry of the free list is a block of the
/// pool that holds no interior node and that nothing points at, and no
/// other entry names it again.
pub proof fn lemma_free_entry(nodes: Seq<Node>, free: Seq<u32>, a: int)
    requires
        wf(nodes, free),
        0 <= a < free.len(),
    ensures
        block_ok(nodes.len() as int, free[a] as int),
        leaf_block(nodes, free[a] as int),
        unowned(nodes, free[a] as int),
        forall|b: int| 0 <= b < free.len() && b != a ==> #[trigger] free[b] != free[a],
{
    reveal(wf_at);
    let place = choose|place: Seq<Seq<int>>| wf_at(nodes, free, place);
    assert(free_ok(nodes, free));
    assert forall|b: int| 0 <= b < free.len() && b != a implies #[trigger] free[b] != free[a] by {
        if b < a {
            assert(free[b] != free[a]);
        } else {
            assert(free[a] != free[b]);
        }
    }
}

/// Two blocks that share a node are one block.
pub proof fn lemma_blocks_meet(a: int, b: int, j: int)
    requires
        (a - 1) % 8 == 0,
        (b - 1) % 8 == 0,
        a <= j < a + 8,
        b <= j < b + 8,
    ensures
        a == b,
{
}

/// The placing that the owners give makes the pool well formed, where every
/// way up ends in 32 steps and the free list is in order.
pub proof fn lemma_owners_wf(nodes: Seq<Node>, free: Seq<u32>, owner: Seq<u32>)
    requires
        1 <= nodes.len() <= u32::MAX,
        (nodes.len() - 1) % 8 == 0,
        owners_upto(nodes, owner, nodes.len() as int),
        forall|j: int| 0 <= j < nodes.len() ==> ends(owner, j, 32),
        forall|a: int| 0 <= a < free.len() ==> block_ok(nodes.len() as int, #[trigger] free[a] as int),
        forall|a: int, b: int| 0 <= a < b < free.len() ==> #[trigger] free[a] != #[trigger] free[b],
        forall|a: int| 0 <= a < free.len() ==> leaf_block(nodes, #[trigger] free[a] as int),
        forall|a: int| 0 <= a < free.len() ==> owner[#[trigger] free[a] as int] == NO_OWNER,
    ensures
        wf(nodes, free),
{
    let place = Seq::new(nodes.len(), |j: int| place_of(nodes, owner, j, 32));
    assert forall|i: int| 0 <= i < nodes.len() implies (#[trigger] place[i]).len() < levels() by {
        lemma_place_fuel(nodes, owner, i, 32);
    }
    assert(owner[0] == NO_OWNER);
    assert forall|i: int| 0 <= i < nodes.len() && (#[trigger] nodes[i]).is_parent() implies linked(
        nodes,
        place,
        i,
    ) by {
        let q = nodes[i].data as int;
        assert forall|j: int| q <= j < q + 8 implies #[trigger] place[j] == place[i].push(j - q) by {
            assert(owner[j] == i);
            assert(ends(owner, j, 32));
            assert(ends(owner, i, 31));
            lemma_place_fuel(nodes, owner, i, 31);
        }
    }
    assert forall|i: int, j: int|
        0 <= i < nodes.len() && 0 <= j < nodes.len() && (#[trigger] nodes[i]).is_parent() && (
        #[trigger] nodes[j]).is_parent() && nodes[i].data == nodes[j].data implies i == j by {
        assert(owner[nodes[i].data as int] == i);
        assert(owner[nodes[j].data as int] == j);
    }
    assert forall|a: int| 0 <= a < free.len() implies unowned(nodes, #[trigger] free[a] as int) by {
        assert forall|p: int| 0 <= p < nodes.len() && (#[trigger] nodes[p]).is_parent() implies nodes[p].data
            != free[a] by {
            assert(owner[nodes[p].data as int] == p);
        }
    }
    reveal(wf_at);
    assert(wf_at(nodes, free, place));
}

/// Finds the owner of every node: the interior node that points at its
/// block. There is none where an interior node is solid as well or points
/// at no block of the pool, or where two point at one block.
fn find_owners(nodes: &Vec<Node>, free: &Vec<u32>) -> (found: Option<Vec<u32>>)
    requires
        1 <= nodes.len() <= u32::MAX,
        (nodes.len() - 1) % 8 == 0,
    ensures
        match found {
            Some(owner) => owners_upto(nodes@, owner@, nodes.len() as int),
            None => !wf(nodes@, free@),
        },
{
    let n = nodes.len();
    let mut owner: Vec<u32> = Vec::new();
    let mut j: usize = 0;
    while j < n
        invariant
            j <= n,
            n == nodes.len(),
            owner@.len() == j,
            forall|k: int| 0 <= k < j ==> #[trigger] owner@[k] == NO_OWNER,
        decreases n - j,
    {
        owner.push(NO_OWNER);
        j += 1;
    }
    let mut i: usize = 0;
    while i < n
        invariant
            i <= n,
            n == nodes.len(),
            1 <= n <= u32::MAX,
            (n - 1) % 8 == 0,
            owners_upto(nodes@, owner@, i as int),
        decreases n - i,
    {
        let node = nodes[i];
        if node.is_parent() {
            let q = node.pointer();
            if node.is_solid() || q < 1 || (q - 1) % 8 != 0 || q as u64 + 8 > n as u64 {
                proof {
                    if wf(nodes@, free@) {
                        lemma_wf_parent(nodes@, free@, i as int);
                    }
                }
                return None;
            }
            if owner[q as usize] != NO_OWNER {
                proof {
                    if wf(nodes@, free@) {
                        let p = owner@[q as int] as int;
                        let place = choose|place: Seq<Seq<int>>| wf_at(nodes@, free@, place);
                        assert(nodes@[p].is_parent());
                        lemma_blocks_meet(nodes@[p].data as int, q as int, q as int);
                        lemma_wf_parent_at(nodes@, free@, place, i as int);
                    }
                }
                return None;
            }
            let ghost before = owner@;
            let mut k: usize = 0;
            while k < 8
                invariant
                    0 <= k <= 8,
                    q + 8 <= n,
                    i < n,
                    n == nodes.len(),
                    n <= u32::MAX,
                    owner@.len() == n,
                    before.len() == n,
                    forall|j: int|
                        0 <= j < n ==> #[trigger] owner@[j] == (if q <= j < q + k {
                            i as u32
                        } else {
                            before[j]
                        }),
                decreases 8 - k,
            {
                owner.set(q as usize + k, i as u32);
                k += 1;
            }
            proof {
                assert forall|p: int, j: int|
                    0 <= p < i + 1 && (#[trigger] nodes@[p]).is_parent() && nodes@[p].data <= j
                        < nodes@[p].data + 8 implies #[trigger] owner@[j] == p by {
                    if p < i {
                        assert(before[j] == p);
                        if q <= j < q + 8 {
                            lemma_blocks_meet(nodes@[p].data as int, q as int, j);
                            assert(before[q as int] == p);
                        }
                    }
                }
                assert forall|j: int| 0 <= j < owner@.len() && (#[trigger] owner@[j]) != NO_OWNER implies owner@[j]
                    < i + 1 && nodes@[owner@[j] as int].is_parent() && nodes@[owner@[j] as int].data <= j
                    < nodes@[owner@[j] as int].data + 8 by {
                    if !(q <= j < q + 8) {
                        assert(before[j] != NO_OWNER);
                    }
                }
            }
        }
        i += 1;
    }
    Some(owner)
}

/// Whether the way up from every node comes to a node without an owner in
/// at most 32 steps: to the root, or to a block that nothing points at.
fn ways_end(nodes: &Vec<Node>, free: &Vec<u32>, owner: &Vec<u32>) -> (ok: bool)
    requires
        1 <= nodes.len() <= u32::MAX,
        owners_upto(nodes@, owner@, nodes.len() as int),
    ensures
        ok ==> forall|j: int| 0 <= j < nodes.len() ==> ends(owner@, j, 32),
        !ok ==> !wf(nodes@, free@),
{
    let n = nodes.len();
    let mut j: usize = 0;
    while j < n
        invariant
            j <= n,
            n == nodes.len(),
            owners_upto(nodes@, owner@, n as int),
            forall|t: int| 0 <= t < j ==> ends(owner@, t, 32),
        decreases n - j,
    {
        let mut cur: usize = j;
        let mut steps: u32 = 0;
        while owner[cur] != NO_OWNER
            invariant
                cur < n,
                j < n,
                n == nodes.len(),
                steps <= 32,
                owners_upto(nodes@, owner@, n as int),
                forall|f: nat| #[trigger]
                    ends(owner@, cur as int, f) ==> ends(owner@, j as int, (f + steps) as nat),
                forall|place: Seq<Seq<int>>| #[trigger]
                    wf_at(nodes@, free@, place) ==> place[j as int].len() == place[cur as int].len()
                        + steps,
            decreases 32 - steps,
        {
            let up = owner[cur];
            if steps == 32 {
                proof {
                    if wf(nodes@, free@) {
                        let place = choose|place: Seq<Seq<int>>| wf_at(nodes@, free@, place);
                        lemma_place_step(nodes@, free@, place, up as int, cur as int);
                        lemma_place_top(nodes@, free@, place, j as int);
                    }
                }
                return false;
            }
            proof {
                assert forall|f: nat| #[trigger] ends(owner@, up as int, f) implies ends(
                    owner@,
                    j as int,
                    (f + steps + 1) as nat,
                ) by {
                    assert(ends(owner@, cur as int, f + 1));
                }
                assert forall|place: Seq<Seq<int>>| #[trigger]
                    wf_at(nodes@, free@, place) implies place[j as int].len() == place[up as int].len()
                    + steps + 1 by {
                    lemma_place_step(nodes@, free@, place, up as int, cur as int);
                }
            }
            cur = up as usize;
            steps += 1;
        }
        proof {
            assert(ends(owner@, cur as int, 0));
            lemma_ends_more(owner@, j as int, steps as nat, 32);
        }
        j += 1;
    }
    true
}

/// Whether the free list is in order: every entry a block of the pool that
/// holds no interior node and that nothing points at, and none named twice.
fn free_in_order(nodes: &Vec<Node>, free: &Vec<u32>, owner: &Vec<u32>) -> (ok: bool)
    requires
        1 <= nodes.len() <= u32::MAX,
        owners_upto(nodes@, owner@, nodes.len() as int),
    ensures
        ok ==> {
            &&& forall|a: int| 0 <= a < free@.len() ==> block_ok(nodes.len() as int, #[trigger] free@[a] as int)
            &&& forall|a: int, b: int| 0 <= a < b < free@.len() ==> #[trigger] free@[a] != #[trigger] free@[b]
            &&& forall|a: int| 0 <= a < free@.len() ==> leaf_block(nodes@, #[trigger] free@[a] as int)
            &&& forall|a: int| 0 <= a < free@.len() ==> owner@[#[trigger] free@[a] as int] == NO_OWNER
        },
        !ok ==> !wf(nodes@, free@),
{
    let n = nodes.len();
    let mut listed: Vec<bool> = Vec::new();
    let mut j: usize = 0;
    while j < n
        invariant
            j <= n,
            listed@.len() == j,
            forall|k: int| 0 <= k < j ==> !#[trigger] listed@[k],
        decreases n - j,
    {
        listed.push(false);
        j += 1;
    }
    let ghost mut who: Seq<int> = Seq::new(n as nat, |t: int| 0);
    let mut a: usize = 0;
    while a < free.len()
        invariant
            a <= free.len(),
            n == nodes.len(),
            1 <= n <= u32::MAX,
            listed@.len() == n,
            who.len() == n,
            owners_upto(nodes@, owner@, n as int),
            forall|x: int| 0 <= x < a ==> block_ok(n as int, #[trigger] free@[x] as int),
            forall|x: int| 0 <= x < a ==> leaf_block(nodes@, #[trigger] free@[x] as int),
            forall|x: int| 0 <= x < a ==> owner@[#[trigger] free@[x] as int] == NO_OWNER,
            forall|x: int| 0 <= x < a ==> listed@[#[trigger] free@[x] as int],
            forall|x: int, y: int| 0 <= x < y < a ==> #[trigger] free@[x] != #[trigger] free@[y],
            forall|t: int| 0 <= t < n && #[trigger] listed@[t] ==> 0 <= who[t] < a && free@[who[t]] == t,
        decreases free.len() - a,
    {
        let f = free[a];
        if f < 1 || (f - 1) % 8 != 0 || f as u64 + 8 > n as u64 {
            proof {
                if wf(nodes@, free@) {
                    lemma_free_entry(nodes@, free@, a as int);
                }
            }
            return false;
        }
        if owner[f as usize] != NO_OWNER || listed[f as usize] {
            proof {
                if wf(nodes@, free@) {
                    lemma_free_entry(nodes@, free@, a as int);
                    if owner@[f as int] != NO_OWNER {
                        let p = owner@[f as int] as int;
                        assert(nodes@[p].is_parent());
                        lemma_blocks_meet(nodes@[p].data as int, f as int, f as int);
                    } else {
                        assert(free@[who[f as int]] == f);
                    }
                }
            }
            return false;
        }
        let mut k: usize = 0;
        while k < 8
            invariant
                0 <= k <= 8,
                a < free.len(),
                f == free@[a as int],
                f + 8 <= n,
                n == nodes.len(),
                forall|j: int| f <= j < f + k ==> !(#[trigger] nodes@[j]).is_parent(),
            decreases 8 - k,
        {
            if nodes[f as usize + k].is_parent() {
                proof {
                    if wf(nodes@, free@) {
                        lemma_free_entry(nodes@, free@, a as int);
                    }
                }
                return false;
            }
            k += 1;
        }
        listed.set(f as usize, true);
        proof {
            who = who.update(f as int, a as int);
        }
        a += 1;
    }
    true
}

impl Octree {
    /// Whether the pool obeys its rules.
    pub fn is_well_formed(&self) -> (ok: bool)
        ensures
            ok == self.wf(),
    {
        let n = self.nodes.len();
        if n == 0 || n > 0xffff_ffff || (n - 1) % 8 != 0 {
            proof {
                if self.wf() {
                    lemma_wf_len(self.nodes@, self.free_branches@);
                }
            }
            return false;
        }
        match find_owners(&self.nodes, &self.free_branches) {
            None => false,
            Some(owner) => {
                if !ways_end(&self.nodes, &self.free_branches, &owner) {
                    return false;
                }
                if !free_in_order(&self.nodes, &self.free_branches, &owner) {
                    return false;
                }
                proof {
                    lemma_owners_wf(self.nodes@, self.free_branches@, owner@);
                }
                true
            },
        }
    }

    /// The octree of a pool that was kept elsewhere: its nodes and its free
    /// list as they are, if they obey the rules of the pool.
    pub fn from_parts(nodes: Vec<Node>, free_branches: Vec<u32>) -> (made: Option<Octree>)
        ensures
            made is Some <==> wf(nodes@, free_branches@),
            made matches Some(octree) ==> octree.nodes@ == nodes@ && octree.free_branches@
                == free_branches@,
    {
        let octree = Octree { nodes, free_branches };
        if octree.is_well_formed() {
            Some(octree)
        } else {
            None
        }
    }
}

} // verus!
