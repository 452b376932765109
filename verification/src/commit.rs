//! Whether proposals may still commit once others have moved, and how a group of
//! proposals that wait on each other commits or fails as one.
use vstd::prelude::*;
use rustc_hash::FxHashMap;
use crate::geometry::{CellPos, Phase};
use crate::bodies::Occupant;
use crate::raster::{cell_key, key_of};
use crate::fx::fx_map_get;
use crate::state::Body;
use crate::rounds::{Proposal, candidates_disjoint, group_candidates};

verus! {

/// A cell that lets a body in: loaded, owned by no body, and empty, liquid or gas.
pub open spec fn open_cell(world: Map<u64, Occupant>, at: CellPos) -> bool {
    &&& world.contains_key(cell_key(at))
    &&& world[cell_key(at)].owner is None
    &&& (world[cell_key(at)].phase == Phase::Empty || world[cell_key(at)].phase == Phase::Liquid
        || world[cell_key(at)].phase == Phase::Gas)
}

/// Every cell a proposal of body `my` enters is still the body's own or open.
pub open spec fn still_valid(world: Map<u64, Occupant>, my: Body, p: Proposal) -> bool {
    forall|e: int| 0 <= e < p.entered@.len() ==> {
        let at = (#[trigger] p.entered@[e]).0;
        open_cell(world, at) || (world.contains_key(cell_key(at)) && world[cell_key(at)].owner == Some(my.id))
    }
}

/// Whether a proposal may still commit after others have moved: each cell it enters
/// is its body's own or open.
pub fn revalidate(bodies: &Vec<Body>, proposal: &Proposal, world: &FxHashMap<u64, Occupant>) -> (r: bool)
    requires
        (proposal.body as int) < bodies@.len(),
    ensures
        r == still_valid(world@, bodies@[proposal.body as int], *proposal),
        r ==> forall|e: int| 0 <= e < proposal.entered@.len() ==> {
            let k = cell_key((#[trigger] proposal.entered@[e]).0);
            &&& world@.contains_key(k)
            &&& world@[k].owner is Some ==> world@[k].owner == Some(bodies@[proposal.body as int].id)
            &&& world@[k].owner is None ==> world@[k].phase != Phase::Solid && world@[k].phase != Phase::Powder
        },
{
    let my = &bodies[proposal.body];
    let mut e: usize = 0;
    while e < proposal.entered.len()
        invariant
            0 <= e <= proposal.entered@.len(),
            *my == bodies@[proposal.body as int],
            forall|f: int| 0 <= f < e ==> {
                let at = (#[trigger] proposal.entered@[f]).0;
                open_cell(world@, at) || (world@.contains_key(cell_key(at)) && world@[cell_key(at)].owner == Some(my.id))
            },
        decreases proposal.entered@.len() - e,
    {
        let at = proposal.entered[e].0;
        let ok = match fx_map_get(world, key_of(at)) {
            None => false,
            Some(cell) => match cell.owner {
                Some(id) => id == my.id,
                None => matches!(cell.phase, Phase::Empty | Phase::Liquid | Phase::Gas),
            },
        };
        if !ok {
            proof {
                assert(!(open_cell(world@, at) || (world@.contains_key(cell_key(at)) && world@[cell_key(at)].owner == Some(my.id))));
            }
            return false;
        }
        e = e + 1;
    }
    true
}

/// A proposal that enters a cell another body owns, a cell that is not loaded, or
/// a solid or powder cell of the grid is no longer valid; one whose entered cells
/// all belong to its own body, or are all loaded empty, liquid or gas cells of the
/// grid, still is.
pub proof fn lemma_still_valid_cells(world: Map<u64, Occupant>, my: Body, p: Proposal)
    ensures
        forall|e: int| 0 <= e < p.entered@.len() && world.contains_key(cell_key((#[trigger] p.entered@[e]).0))
            && world[cell_key(p.entered@[e].0)].owner is Some && world[cell_key(p.entered@[e].0)].owner != Some(my.id)
            ==> !still_valid(world, my, p),
        forall|e: int| 0 <= e < p.entered@.len() && !world.contains_key(cell_key((#[trigger] p.entered@[e]).0))
            ==> !still_valid(world, my, p),
        forall|e: int| 0 <= e < p.entered@.len() && world.contains_key(cell_key((#[trigger] p.entered@[e]).0))
            && world[cell_key(p.entered@[e].0)].owner is None
            && (world[cell_key(p.entered@[e].0)].phase == Phase::Solid || world[cell_key(p.entered@[e].0)].phase == Phase::Powder)
            ==> !still_valid(world, my, p),
        (forall|e: int| 0 <= e < p.entered@.len() ==> world.contains_key(cell_key((#[trigger] p.entered@[e]).0))
            && world[cell_key(p.entered@[e].0)].owner == Some(my.id)) ==> still_valid(world, my, p),
        (forall|e: int| 0 <= e < p.entered@.len() ==> world.contains_key(cell_key((#[trigger] p.entered@[e]).0))
            && world[cell_key(p.entered@[e].0)].owner is None
            && (world[cell_key(p.entered@[e].0)].phase == Phase::Empty || world[cell_key(p.entered@[e].0)].phase == Phase::Liquid
                || world[cell_key(p.entered@[e].0)].phase == Phase::Gas)) ==> still_valid(world, my, p),
{
}

/// The last of the first `n` members of `group` whose body has id `id`.
pub open spec fn member_with(bodies: Seq<Body>, props: Seq<Proposal>, group: Seq<usize>, id: u32, n: int) -> Option<int>
    decreases n,
{
    if n <= 0 {
        None
    } else if bodies[props[group[n - 1] as int].body as int].id == id {
        Some(n - 1)
    } else {
        member_with(bodies, props, group, id, n - 1)
    }
}

/// A cell a member of a group enters is free for the group: open, or owned by the
/// body of a member (the last such member) that does not keep the cell.
pub open spec fn free_for_group(bodies: Seq<Body>, props: Seq<Proposal>, group: Seq<usize>, world: Map<u64, Occupant>, at: CellPos) -> bool {
    let key = cell_key(at);
    &&& world.contains_key(key)
    &&& match world[key].owner {
        None => open_cell(world, at),
        Some(id) => match member_with(bodies, props, group, id, group.len() as int) {
            Some(k) => !props[group[k] as int].candidate@.contains(at),
            None => false,
        },
    }
}

/// A group may commit together: no cell is claimed twice, and every cell a member
/// enters is free for the group.
pub open spec fn group_valid(bodies: Seq<Body>, props: Seq<Proposal>, group: Seq<usize>, world: Map<u64, Occupant>) -> bool {
    &&& group_candidates(props, group).no_duplicates()
    &&& forall|k: int, e: int| 0 <= k < group.len() && 0 <= e < props[group[k] as int].entered@.len()
        ==> #[trigger] free_for_group(bodies, props, group, world, props[group[k] as int].entered@[e].0)
}

/// The member index of the last member whose body has id `id`.
fn find_member(bodies: &Vec<Body>, proposals: &Vec<Proposal>, group: &Vec<usize>, id: u32) -> (r: Option<usize>)
    requires
        forall|k: int| 0 <= k < group@.len() ==> (#[trigger] group@[k] as int) < proposals@.len()
            && (proposals@[group@[k] as int].body as int) < bodies@.len(),
    ensures
        r matches Some(k) ==> member_with(bodies@, proposals@, group@, id, group@.len() as int) == Some(k as int) && k < group@.len(),
        r is None ==> member_with(bodies@, proposals@, group@, id, group@.len() as int) is None,
{
    let mut k: usize = group.len();
    while k > 0
        invariant
            0 <= k <= group@.len(),
            forall|k: int| 0 <= k < group@.len() ==> (#[trigger] group@[k] as int) < proposals@.len()
                && (proposals@[group@[k] as int].body as int) < bodies@.len(),
            member_with(bodies@, proposals@, group@, id, group@.len() as int) == member_with(bodies@, proposals@, group@, id, k as int),
        decreases k,
    {
        if bodies[proposals[group[k - 1]].body].id == id {
            return Some(k - 1);
        }
        k = k - 1;
    }
    None
}

/// Whether `proposals` holds cell `at` among its candidates.
fn holds_cell(cells: &Vec<CellPos>, at: CellPos) -> (r: bool)
    ensures
        r == cells@.contains(at),
{
    let mut i: usize = 0;
    while i < cells.len()
        invariant
            0 <= i <= cells@.len(),
            forall|j: int| 0 <= j < i ==> cells@[j] != at,
        decreases cells@.len() - i,
    {
        if cells[i].x == at.x && cells[i].y == at.y {
            return true;
        }
        i = i + 1;
    }
    false
}

/// Whether a group of proposals that wait on each other may commit together.
pub fn joint_valid(bodies: &Vec<Body>, proposals: &Vec<Proposal>, group: &Vec<usize>, world: &FxHashMap<u64, Occupant>) -> (r: bool)
    requires
        forall|k: int| 0 <= k < group@.len() ==> (#[trigger] group@[k] as int) < proposals@.len()
            && (proposals@[group@[k] as int].body as int) < bodies@.len(),
    ensures
        r == group_valid(bodies@, proposals@, group@, world@),
{
    if !candidates_disjoint(proposals, group) {
        return false;
    }
    let mut k: usize = 0;
    while k < group.len()
        invariant
            0 <= k <= group@.len(),
            forall|k: int| 0 <= k < group@.len() ==> (#[trigger] group@[k] as int) < proposals@.len()
                && (proposals@[group@[k] as int].body as int) < bodies@.len(),
            forall|k2: int, e: int| 0 <= k2 < k && 0 <= e < proposals@[group@[k2] as int].entered@.len()
                ==> #[trigger] free_for_group(bodies@, proposals@, group@, world@, proposals@[group@[k2] as int].entered@[e].0),
        decreases group@.len() - k,
    {
        let p = group[k];
        let mut e: usize = 0;
        while e < proposals[p].entered.len()
            invariant
                0 <= k < group@.len(),
                p == group@[k as int],
                (p as int) < proposals@.len(),
                0 <= e <= proposals@[p as int].entered@.len(),
                forall|k: int| 0 <= k < group@.len() ==> (#[trigger] group@[k] as int) < proposals@.len()
                    && (proposals@[group@[k] as int].body as int) < bodies@.len(),
                forall|k2: int, e2: int| 0 <= k2 < k && 0 <= e2 < proposals@[group@[k2] as int].entered@.len()
                    ==> #[trigger] free_for_group(bodies@, proposals@, group@, world@, proposals@[group@[k2] as int].entered@[e2].0),
                forall|e2: int| 0 <= e2 < e ==> #[trigger] free_for_group(bodies@, proposals@, group@, world@, proposals@[p as int].entered@[e2].0),
            decreases proposals@[p as int].entered@.len() - e,
        {
            let at = proposals[p].entered[e].0;
            let free = match fx_map_get(world, key_of(at)) {
                None => false,
                Some(cell) => match cell.owner {
                    None => matches!(cell.phase, Phase::Empty | Phase::Liquid | Phase::Gas),
                    Some(id) => match find_member(bodies, proposals, group, id) {
                        Some(m) => !holds_cell(&proposals[group[m]].candidate, at),
                        None => false,
                    },
                },
            };
            if !free {
                proof {
                    assert(!free_for_group(bodies@, proposals@, group@, world@, proposals@[group@[k as int] as int].entered@[e as int].0));
                }
                return false;
            }
            e = e + 1;
        }
        k = k + 1;
    }
    true
}

/// What befalls every member of a group: all commit when the group is valid, else
/// all are refused. Nothing else changes.
pub fn settle_group(proposals: &mut Vec<Proposal>, group: &Vec<usize>, valid: bool)
    requires
        forall|k: int| 0 <= k < group@.len() ==> (#[trigger] group@[k] as int) < old(proposals)@.len(),
    ensures
        final(proposals)@.len() == old(proposals)@.len(),
        forall|q: int| 0 <= q < old(proposals)@.len() ==> {
            let was = old(proposals)@[q];
            let now = #[trigger] final(proposals)@[q];
            if group@.contains(q as usize) {
                now == (Proposal { committed: was.committed || valid, refused: was.refused || !valid, ..was })
            } else {
                now == was
            }
        },
{
    let ghost before = proposals@;
    let total = proposals.len();
    let mut k: usize = 0;
    while k < group.len()
        invariant
            total == before.len(),
            0 <= k <= group@.len(),
            proposals@.len() == before.len(),
            forall|k: int| 0 <= k < group@.len() ==> (#[trigger] group@[k] as int) < before.len(),
            forall|q: int| 0 <= q < before.len() ==> {
                let was = before[q];
                let now = #[trigger] proposals@[q];
                if group@.subrange(0, k as int).contains(q as usize) {
                    now == (Proposal { committed: was.committed || valid, refused: was.refused || !valid, ..was })
                } else {
                    now == was
                }
            },
        decreases group@.len() - k,
    {
        let p = group[k];
        if valid {
            proposals[p].committed = true;
        } else {
            proposals[p].refused = true;
        }
        proof {
            assert forall|q: int| 0 <= q < before.len() implies {
                let was = before[q];
                let now = #[trigger] proposals@[q];
                if group@.subrange(0, k + 1).contains(q as usize) {
                    now == (Proposal { committed: was.committed || valid, refused: was.refused || !valid, ..was })
                } else {
                    now == was
                }
            } by {
                if q == p as int {
                    assert(group@.subrange(0, k + 1)[k as int] == p);
                    assert(group@.subrange(0, k + 1).contains(q as usize));
                } else {
                    let longer = group@.subrange(0, k + 1);
                    let shorter = group@.subrange(0, k as int);
                    assert(longer[k as int] == p);
                    assert((q as usize) as int == q);
                    assert((q as usize) != p);
                    if longer.contains(q as usize) {
                        let j = choose|j: int| 0 <= j < longer.len() && #[trigger] longer[j] == q as usize;
                        assert(j != k);
                        assert(shorter[j] == longer[j]);
                        assert(shorter.contains(q as usize));
                    }
                    if shorter.contains(q as usize) {
                        let j = choose|j: int| 0 <= j < shorter.len() && #[trigger] shorter[j] == q as usize;
                        assert(longer[j] == shorter[j]);
                        assert(longer.contains(q as usize));
                    }
                }
            }
        }
        k = k + 1;
    }
    proof {
        assert(group@.subrange(0, group@.len() as int) =~= group@);
    }
}

} // verus!
