//! Reshaping a body in place: which cells it gives up, which fluid cells it pushes
//! out of its new outline, and where each pushed cell goes.
use vstd::prelude::*;
use vstd::relations::{sorted_by, total_ordering};
use rustc_hash::{FxHashMap, FxHashSet};
use crate::geometry::{CellPos, MaterialId, Phase};
use crate::raster::{cell_key, key_of, lemma_cell_key_injective};
use crate::fx::{fx_insert, fx_contains, fx_map_get};

verus! {

/// How far above a pushed cell the search for a free spot reaches.
pub const SURFACE_PROBE: i32 = 64;

/// What the world shows at a cell, as far as reshaping reads it.
#[derive(Debug, Clone, Copy, PartialEq, Eq)]
pub enum Seen {
    /// The cell's chunk is not loaded.
    Unloaded,
    /// A body owns the cell.
    Owned,
    /// A free cell of the given phase and density.
    Free { phase: Phase, density_milli: i32 },
}

/// What the world shows at `p`; a cell missing from the map is not loaded.
pub open spec fn seen_at(world: Map<u64, Seen>, p: CellPos) -> Seen {
    if world.contains_key(cell_key(p)) { world[cell_key(p)] } else { Seen::Unloaded }
}

/// A cell that keeps a body from taking it.
pub open spec fn refuses(s: Seen) -> bool {
    match s {
        Seen::Unloaded | Seen::Owned => true,
        Seen::Free { phase, .. } => phase == Phase::Solid || phase == Phase::Powder,
    }
}

/// A cell whose content a body pushes out when it takes the cell.
pub open spec fn evicts(s: Seen) -> bool {
    match s {
        Seen::Free { phase, .. } => phase == Phase::Liquid || phase == Phase::Gas,
        _ => false,
    }
}

/// The density the world shows at `p` (0 where it shows no free cell).
pub open spec fn density_at(world: Map<u64, Seen>, p: CellPos) -> i32 {
    match seen_at(world, p) {
        Seen::Free { density_milli, .. } => density_milli,
        _ => 0,
    }
}

/// The cells of the new outline.
pub open spec fn claimed_set(cells: Seq<(CellPos, MaterialId)>) -> Set<CellPos> {
    Set::new(|p: CellPos| exists|i: int| 0 <= i < cells.len() && (#[trigger] cells[i]).0 == p)
}

/// No cell of the new outline is listed twice.
pub open spec fn distinct_cells(cells: Seq<(CellPos, MaterialId)>) -> bool {
    forall|i: int, j: int| 0 <= i < j < cells.len() ==> (#[trigger] cells[i]).0 != (#[trigger] cells[j]).0
}

/// Every material of the new outline can bond into a body.
pub open spec fn all_bondable(cells: Seq<(CellPos, MaterialId)>, bondable: Seq<bool>) -> bool {
    forall|i: int| 0 <= i < cells.len() ==> bondable[(#[trigger] cells[i]).1.0 as int]
}

/// A new cell, not held before, that the world keeps the body from taking.
pub open spec fn blocked(cells: Seq<(CellPos, MaterialId)>, held: Seq<CellPos>, world: Map<u64, Seen>) -> bool {
    exists|i: int| 0 <= i < cells.len() && !held.contains((#[trigger] cells[i]).0) && refuses(seen_at(world, cells[i].0))
}

/// The reshape can go ahead as far as the new outline itself goes.
pub open spec fn acceptable(cells: Seq<(CellPos, MaterialId)>, bondable: Seq<bool>, held: Seq<CellPos>, world: Map<u64, Seen>) -> bool {
    &&& cells.len() > 0
    &&& distinct_cells(cells)
    &&& all_bondable(cells, bondable)
    &&& !blocked(cells, held, world)
}

/// The cells the body gives up: held before and not in the new outline.
pub open spec fn vacated_set(cells: Seq<(CellPos, MaterialId)>, held: Seq<CellPos>) -> Set<CellPos> {
    Set::new(|p: CellPos| held.contains(p) && !claimed_set(cells).contains(p))
}

/// Row order, ties included.
pub open spec fn pos_le(a: CellPos, b: CellPos) -> bool {
    a.y < b.y || (a.y == b.y && a.x <= b.x)
}

/// The order in which pushed cells are placed: denser first, then row order.
pub open spec fn push_le(a: (CellPos, i32), b: (CellPos, i32)) -> bool {
    a.1 > b.1 || (a.1 == b.1 && pos_le(a.0, b.0))
}

/// The placing order as a relation.
pub open spec fn push_leq() -> spec_fn((CellPos, i32), (CellPos, i32)) -> bool {
    |a: (CellPos, i32), b: (CellPos, i32)| push_le(a, b)
}

/// Whether a reshape pushes out the content of a listed outline cell.
pub open spec fn pushes(held: Seq<CellPos>, world: Map<u64, Seen>, e: (CellPos, i32)) -> bool {
    !held.contains(e.0) && evicts(seen_at(world, e.0))
}

/// An outline cell with the density the world shows there.
pub open spec fn weigh(world: Map<u64, Seen>) -> spec_fn((CellPos, MaterialId)) -> (CellPos, i32) {
    |c: (CellPos, MaterialId)| (c.0, density_at(world, c.0))
}

/// Whether a reshape pushes out a weighed outline cell.
pub open spec fn pushing(held: Seq<CellPos>, world: Map<u64, Seen>) -> spec_fn((CellPos, i32)) -> bool {
    |e: (CellPos, i32)| pushes(held, world, e)
}

/// The cells a reshape pushes out, each with its density, in outline order.
pub open spec fn pushed(cells: Seq<(CellPos, MaterialId)>, held: Seq<CellPos>, world: Map<u64, Seen>) -> Seq<(CellPos, i32)> {
    cells.map_values(weigh(world)).filter(pushing(held, world))
}

/// The cells a reshape pushes out, each with its density, in placing order.
pub open spec fn push_order(cells: Seq<(CellPos, MaterialId)>, held: Seq<CellPos>, world: Map<u64, Seen>) -> Seq<(CellPos, i32)> {
    pushed(cells, held, world).sort_by(push_leq())
}

proof fn lemma_push_leq_total()
    ensures
        total_ordering(push_leq()),
{
    let r = push_leq();
    assert(vstd::relations::reflexive(r));
    assert(vstd::relations::antisymmetric(r)) by {
        assert forall|a: (CellPos, i32), b: (CellPos, i32)| #[trigger] r(a, b) && #[trigger] r(b, a) implies a == b by {
            assert(a.0 == b.0);
        }
    }
    assert(vstd::relations::transitive(r));
    assert(vstd::relations::strongly_connected(r));
}

proof fn lemma_pushed_step(cells: Seq<(CellPos, MaterialId)>, held: Seq<CellPos>, world: Map<u64, Seen>, i: int)
    requires
        0 <= i < cells.len(),
    ensures
        pushed(cells.subrange(0, i + 1), held, world) == if pushes(held, world, (cells[i].0, density_at(world, cells[i].0))) {
            pushed(cells.subrange(0, i), held, world).push((cells[i].0, density_at(world, cells[i].0)))
        } else {
            pushed(cells.subrange(0, i), held, world)
        },
{
    let a = cells.subrange(0, i + 1).map_values(weigh(world));
    let b = cells.subrange(0, i).map_values(weigh(world));
    reveal(Seq::filter);
    assert(a.len() == i + 1);
    assert(a.drop_last() =~= b);
    assert(a.last() == (weigh(world))(cells[i]));
    assert(a.filter(pushing(held, world)) == if (pushing(held, world))(a.last()) {
        a.drop_last().filter(pushing(held, world)).push(a.last())
    } else {
        a.drop_last().filter(pushing(held, world))
    });
}

/// The first free spot above `from` within `left` steps: outline cells are passed
/// over; an empty cell not yet taken is the spot; other empty cells and fluids are
/// passed over; anything else ends the search.
pub open spec fn spot_from(world: Map<u64, Seen>, claimed: Set<CellPos>, taken: Set<CellPos>, from: CellPos, left: nat) -> Option<CellPos>
    decreases left,
{
    if left == 0 {
        None
    } else {
        let up = CellPos { x: from.x, y: (from.y + 1) as i32 };
        if claimed.contains(up) {
            spot_from(world, claimed, taken, up, (left - 1) as nat)
        } else {
            match seen_at(world, up) {
                Seen::Free { phase, .. } => {
                    if phase == Phase::Empty && !taken.contains(up) {
                        Some(up)
                    } else if phase == Phase::Empty || phase == Phase::Liquid || phase == Phase::Gas {
                        spot_from(world, claimed, taken, up, (left - 1) as nat)
                    } else {
                        None
                    }
                },
                _ => None,
            }
        }
    }
}

/// Homes for the pushed cells past the first `nvac`, which take the vacated cells:
/// each in turn gets the first free spot above it, the vacated cells and the spots
/// given before counting as taken.
pub open spec fn spots_upto(
    world: Map<u64, Seen>,
    claimed: Set<CellPos>,
    vac: Set<CellPos>,
    nvac: int,
    order: Seq<(CellPos, i32)>,
    n: int,
) -> Option<Seq<CellPos>>
    decreases n - nvac,
{
    if n <= nvac {
        Some(Seq::empty())
    } else {
        match spots_upto(world, claimed, vac, nvac, order, n - 1) {
            None => None,
            Some(h) => match spot_from(world, claimed, vac.union(h.to_set()), order[n - 1].0, SURFACE_PROBE as nat) {
                None => None,
                Some(s) => Some(h.push(s)),
            },
        }
    }
}

/// A spot found is outside the outline, not taken, and empty.
proof fn lemma_spot_fresh(world: Map<u64, Seen>, claimed: Set<CellPos>, taken: Set<CellPos>, from: CellPos, left: nat)
    requires
        from.y + left <= i32::MAX,
    ensures
        spot_from(world, claimed, taken, from, left) matches Some(s) ==> {
            &&& !claimed.contains(s)
            &&& !taken.contains(s)
            &&& seen_at(world, s) matches Seen::Free { phase, .. } && phase == Phase::Empty
        },
    decreases left,
{
    if left > 0 {
        let up = CellPos { x: from.x, y: (from.y + 1) as i32 };
        lemma_spot_fresh(world, claimed, taken, up, (left - 1) as nat);
    }
}

/// The first free spot above `from`, looking at most `SURFACE_PROBE` cells up.
fn surface_spot(
    world: &FxHashMap<u64, Seen>,
    claimed: &FxHashSet<u64>,
    taken: &FxHashSet<u64>,
    from: CellPos,
    Ghost(outline): Ghost<Set<CellPos>>,
    Ghost(used): Ghost<Set<CellPos>>,
) -> (r: Option<CellPos>)
    requires
        from.y + SURFACE_PROBE <= i32::MAX,
        forall|p: CellPos| claimed@.contains(cell_key(p)) <==> outline.contains(p),
        forall|p: CellPos| taken@.contains(cell_key(p)) <==> used.contains(p),
    ensures
        r == spot_from(world@, outline, used, from, SURFACE_PROBE as nat),
{
    let mut pos = from;
    let mut step: i32 = 0;
    while step < SURFACE_PROBE
        invariant
            0 <= step <= SURFACE_PROBE,
            pos.x == from.x,
            pos.y == from.y + step,
            from.y + SURFACE_PROBE <= i32::MAX,
            forall|p: CellPos| claimed@.contains(cell_key(p)) <==> outline.contains(p),
            forall|p: CellPos| taken@.contains(cell_key(p)) <==> used.contains(p),
            spot_from(world@, outline, used, from, SURFACE_PROBE as nat)
                == spot_from(world@, outline, used, pos, (SURFACE_PROBE - step) as nat),
        decreases SURFACE_PROBE - step,
    {
        pos = CellPos { x: pos.x, y: pos.y + 1 };
        step = step + 1;
        let key = key_of(pos);
        if fx_contains(claimed, key) {
            continue;
        }
        let seen = match fx_map_get(world, key) {
            Some(s) => s,
            None => Seen::Unloaded,
        };
        match seen {
            Seen::Free { phase, .. } => {
                match phase {
                    Phase::Empty => {
                        if !fx_contains(taken, key) {
                            return Some(pos);
                        }
                    },
                    Phase::Liquid | Phase::Gas => {},
                    _ => {
                        return None;
                    },
                }
            },
            _ => {
                return None;
            },
        }
    }
    None
}

/// What a reshape does to the world around the body: the cells it gives up in row
/// order, each pushed cell with its new home in placing order, and the given-up cells
/// that no pushed cell fills, which become empty.
pub struct ReshapePlan {
    pub vacated: Vec<CellPos>,
    pub moves: Vec<(CellPos, CellPos)>,
    pub leftovers: Vec<CellPos>,
}

/// `r` is the plan for giving a body the outline `cells` in place of the cells it
/// `held`: present exactly when the outline is acceptable and every pushed cell finds
/// a home; the given-up cells each once in row order; the pushed cells in placing
/// order, the first taking the given-up cells and the rest the spots above them;
/// the given-up cells left over; no two homes alike and none inside the outline.
pub open spec fn reshape_planned(
    cells: Seq<(CellPos, MaterialId)>,
    bondable: Seq<bool>,
    held: Seq<CellPos>,
    world: Map<u64, Seen>,
    r: Option<ReshapePlan>,
) -> bool {
    &&& r is Some <==> {
        &&& acceptable(cells, bondable, held, world)
        &&& spots_upto(world, claimed_set(cells), vacated_set(cells, held), vacated_set(cells, held).len() as int,
            push_order(cells, held, world), push_order(cells, held, world).len() as int) is Some
    }
    &&& r matches Some(plan) ==> {
        let order = push_order(cells, held, world);
        let vac = vacated_set(cells, held);
        let nvac = plan.vacated@.len() as int;
        &&& plan.vacated@.no_duplicates()
        &&& crate::islands::row_sorted(plan.vacated@)
        &&& forall|p: CellPos| plan.vacated@.contains(p) <==> vac.contains(p)
        &&& nvac == vac.len()
        &&& plan.moves@.len() == order.len()
        &&& forall|i: int| 0 <= i < order.len() ==> (#[trigger] plan.moves@[i]).0 == order[i].0
        &&& forall|i: int| 0 <= i < order.len() && i < nvac ==> (#[trigger] plan.moves@[i]).1 == plan.vacated@[i]
        &&& order.len() > nvac ==> spots_upto(world, claimed_set(cells), vac, nvac, order, order.len() as int)
            == Some(plan.moves@.subrange(nvac, order.len() as int).map_values(|m: (CellPos, CellPos)| m.1))
        &&& plan.leftovers@ == if order.len() < nvac { plan.vacated@.subrange(order.len() as int, nvac) } else { Seq::empty() }
        &&& forall|i: int, j: int| 0 <= i < j < plan.moves@.len() ==> (#[trigger] plan.moves@[i]).1 != (#[trigger] plan.moves@[j]).1
        &&& forall|i: int| 0 <= i < plan.moves@.len() ==> !claimed_set(cells).contains((#[trigger] plan.moves@[i]).1)
    }
}

/// Plans giving a body the outline `cells` in place of the cells it `held`, from what
/// the world shows around it. `None` when the outline is empty, lists a cell twice,
/// has a material that cannot bond, takes a new cell that is not loaded, owned by a
/// body, solid or powder, or when a pushed cell finds no home: the first pushed cells
/// take the given-up cells in row order, the rest the first free spot above them.
pub fn plan_reshape(
    cells: &Vec<(CellPos, MaterialId)>,
    bondable: &Vec<bool>,
    held: &Vec<CellPos>,
    world: &FxHashMap<u64, Seen>,
) -> (r: Option<ReshapePlan>)
    requires
        forall|i: int| 0 <= i < cells@.len() ==> ((#[trigger] cells@[i]).1.0 as int) < bondable@.len(),
        forall|i: int| 0 <= i < cells@.len() ==> (#[trigger] cells@[i]).0.y + SURFACE_PROBE <= i32::MAX,
    ensures
        reshape_planned(cells@, bondable@, held@, world@, r),
{
    let ghost claimed_s = claimed_set(cells@);
    if cells.len() == 0 {
        return None;
    }
    // The outline: no cell twice, every material bondable.
    let mut claimed: FxHashSet<u64> = FxHashSet::default();
    let mut i: usize = 0;
    while i < cells.len()
        invariant
            0 <= i <= cells@.len(),
            forall|i: int| 0 <= i < cells@.len() ==> ((#[trigger] cells@[i]).1.0 as int) < bondable@.len(),
            forall|p: CellPos| claimed@.contains(cell_key(p)) <==> exists|j: int| 0 <= j < i && (#[trigger] cells@[j]).0 == p,
            forall|a: int, b: int| 0 <= a < b < i ==> (#[trigger] cells@[a]).0 != (#[trigger] cells@[b]).0,
            forall|j: int| 0 <= j < i ==> bondable@[(#[trigger] cells@[j]).1.0 as int],
        decreases cells@.len() - i,
    {
        let (pos, material) = cells[i];
        if !bondable[material.0 as usize] {
            return None;
        }
        let ghost before = claimed@;
        if !fx_insert(&mut claimed, key_of(pos)) {
            proof {
                let j = choose|j: int| 0 <= j < i && (#[trigger] cells@[j]).0 == pos;
                assert(!distinct_cells(cells@)) by {
                    assert(cells@[j].0 == cells@[i as int].0);
                }
            }
            return None;
        }
        proof {
            assert forall|p: CellPos| claimed@.contains(cell_key(p)) <==> exists|j: int| 0 <= j < i + 1 && (#[trigger] cells@[j]).0 == p by {
                if claimed@.contains(cell_key(p)) && !before.contains(cell_key(p)) {
                    lemma_cell_key_injective(p, pos);
                    assert(cells@[i as int].0 == p);
                }
                if exists|j: int| 0 <= j < i + 1 && (#[trigger] cells@[j]).0 == p {
                    let j = choose|j: int| 0 <= j < i + 1 && (#[trigger] cells@[j]).0 == p;
                    if j == i {
                        assert(cell_key(p) == cell_key(pos));
                    }
                }
            }
            assert forall|a: int, b: int| 0 <= a < b < i + 1 implies (#[trigger] cells@[a]).0 != (#[trigger] cells@[b]).0 by {
                if b == i {
                    if cells@[a].0 == pos {
                        assert(before.contains(cell_key(pos)));
                    }
                }
            }
        }
        i = i + 1;
    }
    proof {
        assert forall|p: CellPos| claimed@.contains(cell_key(p)) <==> claimed_s.contains(p) by {}
    }
    // The cells held before.
    let mut held_keys: FxHashSet<u64> = FxHashSet::default();
    let mut h: usize = 0;
    while h < held.len()
        invariant
            0 <= h <= held@.len(),
            forall|p: CellPos| held_keys@.contains(cell_key(p)) <==> exists|j: int| 0 <= j < h && held@[j] == p,
        decreases held@.len() - h,
    {
        let pos = held[h];
        let ghost before = held_keys@;
        fx_insert(&mut held_keys, key_of(pos));
        proof {
            assert forall|p: CellPos| held_keys@.contains(cell_key(p)) <==> exists|j: int| 0 <= j < h + 1 && held@[j] == p by {
                if held_keys@.contains(cell_key(p)) && !before.contains(cell_key(p)) {
                    lemma_cell_key_injective(p, pos);
                    assert(held@[h as int] == p);
                }
                if exists|j: int| 0 <= j < h + 1 && held@[j] == p {
                    let j = choose|j: int| 0 <= j < h + 1 && held@[j] == p;
                    if j == h {
                        assert(cell_key(p) == cell_key(pos));
                    }
                }
            }
        }
        h = h + 1;
    }
    proof {
        assert forall|p: CellPos| held_keys@.contains(cell_key(p)) <==> held@.contains(p) by {
            if held@.contains(p) {
                let j = choose|j: int| 0 <= j < held@.len() && held@[j] == p;
            }
        }
    }
    // The new cells: refused ones stop the reshape, fluid ones are pushed out.
    let mut out: Vec<(CellPos, i32)> = Vec::new();
    let mut i: usize = 0;
    while i < cells.len()
        invariant
            0 <= i <= cells@.len(),
            forall|p: CellPos| held_keys@.contains(cell_key(p)) <==> held@.contains(p),
            forall|j: int| 0 <= j < i ==> !(!held@.contains((#[trigger] cells@[j]).0) && refuses(seen_at(world@, cells@[j].0))),
            out@ == pushed(cells@.subrange(0, i as int), held@, world@),
            forall|i: int| 0 <= i < cells@.len() ==> (#[trigger] cells@[i]).0.y + SURFACE_PROBE <= i32::MAX,
            forall|q: int| 0 <= q < out@.len() ==> (#[trigger] out@[q]).0.y + SURFACE_PROBE <= i32::MAX,
        decreases cells@.len() - i,
    {
        let pos = cells[i].0;
        let key = key_of(pos);
        proof {
            lemma_pushed_step(cells@, held@, world@, i as int);
        }
        if !fx_contains(&held_keys, key) {
            let seen = match fx_map_get(world, key) {
                Some(s) => s,
                None => Seen::Unloaded,
            };
            match seen {
                Seen::Free { phase, density_milli } => {
                    match phase {
                        Phase::Empty => {},
                        Phase::Liquid | Phase::Gas => {
                            out.push((pos, density_milli));
                        },
                        _ => {
                            proof {
                                assert(blocked(cells@, held@, world@)) by {
                                    assert(!held@.contains(cells@[i as int].0) && refuses(seen_at(world@, cells@[i as int].0)));
                                }
                            }
                            return None;
                        },
                    }
                },
                _ => {
                    proof {
                        assert(blocked(cells@, held@, world@)) by {
                            assert(!held@.contains(cells@[i as int].0) && refuses(seen_at(world@, cells@[i as int].0)));
                        }
                    }
                    return None;
                },
            }
        }
        i = i + 1;
    }
    proof {
        assert(cells@.subrange(0, cells@.len() as int) =~= cells@);
        assert(acceptable(cells@, bondable@, held@, world@));
    }
    // The cells given up, each once, in row order.
    let mut gone: Vec<CellPos> = Vec::new();
    let mut added: FxHashSet<u64> = FxHashSet::default();
    let mut h: usize = 0;
    while h < held.len()
        invariant
            0 <= h <= held@.len(),
            forall|p: CellPos| claimed@.contains(cell_key(p)) <==> claimed_s.contains(p),
            claimed_s == claimed_set(cells@),
            forall|p: CellPos| added@.contains(cell_key(p)) <==> gone@.contains(p),
            forall|p: CellPos| #[trigger] gone@.contains(p) <==> held@.subrange(0, h as int).contains(p) && !claimed_s.contains(p),
            gone@.no_duplicates(),
        decreases held@.len() - h,
    {
        let pos = held[h];
        let key = key_of(pos);
        let ghost before = gone@;
        let ghost added_before = added@;
        let inside = fx_contains(&claimed, key);
        let known = fx_contains(&added, key);
        if !inside && !known {
            fx_insert(&mut added, key);
            gone.push(pos);
        }
        proof {
            if !inside && !known {
                assert(gone@ == before.push(pos));
                assert(added@ == added_before.insert(key));
                assert(gone@[before.len() as int] == pos);
                assert forall|p: CellPos| added@.contains(cell_key(p)) <==> gone@.contains(p) by {
                    if p == pos {
                        assert(gone@.contains(p));
                    } else {
                        if cell_key(p) == key {
                            lemma_cell_key_injective(p, pos);
                        }
                        if gone@.contains(p) {
                            let q = choose|q: int| 0 <= q < gone@.len() && gone@[q] == p;
                            assert(before[q] == p);
                        }
                        if before.contains(p) {
                            let q = choose|q: int| 0 <= q < before.len() && before[q] == p;
                            assert(gone@[q] == p);
                        }
                    }
                }
                assert forall|a: int, b: int| 0 <= a < gone@.len() && 0 <= b < gone@.len() && a != b implies gone@[a] != gone@[b] by {
                    if a == before.len() || b == before.len() {
                        let q = if a == before.len() { b } else { a };
                        assert(before[q] == gone@[q]);
                        if before[q] == pos {
                            assert(before.contains(pos));
                        }
                    }
                }
            }
            if inside {
                assert(claimed_s.contains(pos));
                assert(!before.contains(pos));
                assert(gone@ == before);
            }
            if known {
                assert(before.contains(pos));
                assert(gone@ == before);
            }
            assert(held@.subrange(0, h + 1) =~= held@.subrange(0, h as int).push(pos));
            assert(inside == claimed_s.contains(pos));
            assert(known == before.contains(pos));
            lemma_gone_step(before, gone@, held@.subrange(0, h as int), pos, claimed_s, inside, known);
        }
        h = h + 1;
    }
    let vacated = crate::islands::sort_rows(gone);
    let ghost vac_s = vacated_set(cells@, held@);
    proof {
        broadcast use vstd::seq_lib::group_to_multiset_ensures;
        assert forall|p: CellPos| vacated@.contains(p) <==> vac_s.contains(p) by {
            assert(vacated@.to_multiset().count(p) == gone@.to_multiset().count(p));
            assert(vacated@.contains(p) <==> vacated@.to_multiset().contains(p));
            assert(gone@.contains(p) <==> gone@.to_multiset().contains(p));
            assert(held@.subrange(0, held@.len() as int) == held@);
        }
        gone@.lemma_multiset_has_no_duplicates();
        vacated@.lemma_multiset_has_no_duplicates_conv();
        assert(vac_s =~= vacated@.to_set());
        vacated@.unique_seq_to_set();
    }
    // The pushed cells in placing order.
    let order = sort_pushes(out);
    proof {
        lemma_push_leq_total();
        pushed(cells@, held@, world@).lemma_sort_by_ensures(push_leq());
        vstd::seq_lib::lemma_sorted_unique(order@, push_order(cells@, held@, world@), push_leq());
        broadcast use vstd::seq_lib::group_to_multiset_ensures;
        assert forall|i: int| 0 <= i < order@.len() implies (#[trigger] order@[i]).0.y + SURFACE_PROBE <= i32::MAX by {
            assert(order@.to_multiset().contains(order@[i]));
            assert(out@.to_multiset().contains(order@[i]));
            assert(out@.contains(order@[i]));
        }
    }
    // Homes: given-up cells first, then free spots above.
    let ghost nvac = vacated@.len() as int;
    let mut taken: FxHashSet<u64> = FxHashSet::default();
    let mut v: usize = 0;
    while v < vacated.len()
        invariant
            0 <= v <= vacated@.len(),
            forall|p: CellPos| taken@.contains(cell_key(p)) <==> exists|j: int| 0 <= j < v && vacated@[j] == p,
        decreases vacated@.len() - v,
    {
        let pos = vacated[v];
        let ghost before = taken@;
        fx_insert(&mut taken, key_of(pos));
        proof {
            assert forall|p: CellPos| taken@.contains(cell_key(p)) <==> exists|j: int| 0 <= j < v + 1 && vacated@[j] == p by {
                if taken@.contains(cell_key(p)) && !before.contains(cell_key(p)) {
                    lemma_cell_key_injective(p, pos);
                    assert(vacated@[v as int] == p);
                }
                if exists|j: int| 0 <= j < v + 1 && vacated@[j] == p {
                    let j = choose|j: int| 0 <= j < v + 1 && vacated@[j] == p;
                    if j == v {
                        assert(cell_key(p) == cell_key(pos));
                    }
                }
            }
        }
        v = v + 1;
    }
    let mut moves: Vec<(CellPos, CellPos)> = Vec::new();
    let ghost mut spots: Seq<CellPos> = Seq::empty();
    let mut k: usize = 0;
    while k < order.len()
        invariant
            0 <= k <= order@.len(),
            order@ == push_order(cells@, held@, world@),
            forall|p: CellPos| claimed@.contains(cell_key(p)) <==> claimed_s.contains(p),
            claimed_s == claimed_set(cells@),
            vac_s == vacated_set(cells@, held@),
            nvac == vacated@.len(),
            nvac == vac_s.len(),
            vacated@.no_duplicates(),
            forall|p: CellPos| vacated@.contains(p) <==> vac_s.contains(p),
            forall|i: int| 0 <= i < cells@.len() ==> (#[trigger] cells@[i]).0.y + SURFACE_PROBE <= i32::MAX,
            forall|i: int| 0 <= i < order@.len() ==> (#[trigger] order@[i]).0.y + SURFACE_PROBE <= i32::MAX,
            forall|p: CellPos| taken@.contains(cell_key(p)) <==> vac_s.union(spots.to_set()).contains(p),
            moves@.len() == k,
            forall|i: int| 0 <= i < k ==> (#[trigger] moves@[i]).0 == order@[i].0,
            forall|i: int| 0 <= i < k && i < nvac ==> (#[trigger] moves@[i]).1 == vacated@[i],
            spots_upto(world@, claimed_s, vac_s, nvac, order@, k as int) == Some(spots),
            k > nvac ==> spots == moves@.subrange(nvac, k as int).map_values(|m: (CellPos, CellPos)| m.1),
            k <= nvac ==> spots.len() == 0,
            forall|i: int, j: int| 0 <= i < j < k ==> (#[trigger] moves@[i]).1 != (#[trigger] moves@[j]).1,
            forall|i: int| 0 <= i < k ==> !claimed_s.contains((#[trigger] moves@[i]).1),
            forall|i: int| 0 <= i < k ==> (i < nvac && (#[trigger] moves@[i]).1 == vacated@[i]) || spots.contains(moves@[i].1),
            forall|i: int| 0 <= i < k && i >= nvac ==> !vac_s.contains((#[trigger] moves@[i]).1),
        decreases order@.len() - k,
    {
        let from = order[k].0;
        if k < vacated.len() {
            moves.push((from, vacated[k]));
            proof {
                assert forall|i: int, j: int| 0 <= i < j < k + 1 implies (#[trigger] moves@[i]).1 != (#[trigger] moves@[j]).1 by {
                    if j == k {
                        assert(moves@[i].1 == vacated@[i]);
                    }
                }
                assert(!claimed_s.contains(vacated@[k as int])) by {
                    assert(vacated@.contains(vacated@[k as int]));
                    assert(vac_s.contains(vacated@[k as int]));
                }
            }
        } else {
            proof {
                assert(order@[k as int].0.y + SURFACE_PROBE <= i32::MAX);
            }
            let found = surface_spot(world, &claimed, &taken, from, Ghost(claimed_s), Ghost(vac_s.union(spots.to_set())));
            proof {
                lemma_spot_fresh(world@, claimed_s, vac_s.union(spots.to_set()), from, SURFACE_PROBE as nat);
            }
            match found {
                None => {
                    proof {
                        lemma_spots_stay_none(world@, claimed_s, vac_s, nvac, order@, k + 1, order@.len() as int);
                    }
                    return None;
                },
                Some(spot) => {
                    let ghost before = taken@;
                    fx_insert(&mut taken, key_of(spot));
                    moves.push((from, spot));
                    proof {
                        let old_spots = spots;
                        spots = spots.push(spot);
                        assert(taken@ == before.insert(cell_key(spot)));
                        assert(spots[old_spots.len() as int] == spot);
                        assert forall|p: CellPos| taken@.contains(cell_key(p)) <==> vac_s.union(spots.to_set()).contains(p) by {
                            assert(vac_s.union(spots.to_set()).contains(p) == (vac_s.contains(p) || spots.contains(p)));
                            assert(vac_s.union(old_spots.to_set()).contains(p) == (vac_s.contains(p) || old_spots.contains(p)));
                            if p == spot {
                                assert(spots.contains(p));
                            } else {
                                if cell_key(p) == cell_key(spot) {
                                    lemma_cell_key_injective(p, spot);
                                }
                                if spots.contains(p) {
                                    let q = choose|q: int| 0 <= q < spots.len() && spots[q] == p;
                                    assert(old_spots[q] == p);
                                }
                                if old_spots.contains(p) {
                                    let q = choose|q: int| 0 <= q < old_spots.len() && old_spots[q] == p;
                                    assert(spots[q] == p);
                                }
                            }
                        }
                        if k > nvac {
                            assert(spots =~= moves@.subrange(nvac, k + 1).map_values(|m: (CellPos, CellPos)| m.1));
                        } else {
                            assert(spots =~= moves@.subrange(nvac, k + 1).map_values(|m: (CellPos, CellPos)| m.1));
                        }
                        assert forall|i: int, j: int| 0 <= i < j < k + 1 implies (#[trigger] moves@[i]).1 != (#[trigger] moves@[j]).1 by {
                            if j == k {
                                if i < nvac {
                                    assert(moves@[i].1 == vacated@[i]);
                                    assert(vacated@.contains(vacated@[i]));
                                } else {
                                    assert(old_spots.contains(moves@[i].1));
                                }
                            }
                        }
                        assert forall|i: int| 0 <= i < k + 1 implies (i < nvac && (#[trigger] moves@[i]).1 == vacated@[i]) || spots.contains(moves@[i].1) by {
                            if i < k && !(i < nvac && moves@[i].1 == vacated@[i]) {
                                let q = choose|q: int| 0 <= q < old_spots.len() && old_spots[q] == moves@[i].1;
                                assert(spots[q] == moves@[i].1);
                            }
                            if i == k {
                                assert(spots[spots.len() - 1] == spot);
                            }
                        }
                    }
                },
            }
        }
        k = k + 1;
    }
    let mut leftovers: Vec<CellPos> = Vec::new();
    let mut v: usize = order.len();
    while v < vacated.len()
        invariant
            order@.len() <= v <= vacated@.len() || (v == order@.len() && order@.len() >= vacated@.len()),
            v >= order@.len(),
            leftovers@ == if v <= order@.len() { Seq::<CellPos>::empty() } else { vacated@.subrange(order@.len() as int, v as int) },
        decreases vacated@.len() - v,
    {
        leftovers.push(vacated[v]);
        proof {
            assert(vacated@.subrange(order@.len() as int, v + 1) =~= (if v <= order@.len() { Seq::<CellPos>::empty() } else { vacated@.subrange(order@.len() as int, v as int) }).push(vacated@[v as int]));
        }
        v = v + 1;
    }
    Some(ReshapePlan { vacated, moves, leftovers })
}

proof fn lemma_gone_step(
    before: Seq<CellPos>,
    gone: Seq<CellPos>,
    prefix: Seq<CellPos>,
    pos: CellPos,
    claimed: Set<CellPos>,
    inside: bool,
    known: bool,
)
    requires
        forall|p: CellPos| before.contains(p) <==> prefix.contains(p) && !claimed.contains(p),
        inside == claimed.contains(pos),
        known == before.contains(pos),
        !inside && !known ==> gone == before.push(pos),
        inside || known ==> gone == before,
    ensures
        forall|p: CellPos| gone.contains(p) <==> prefix.push(pos).contains(p) && !claimed.contains(p),
{
    assert forall|p: CellPos| gone.contains(p) <==> prefix.push(pos).contains(p) && !claimed.contains(p) by {
        lemma_contains_push(prefix, pos, p);
        if !inside && !known {
            lemma_contains_push(before, pos, p);
        }
    }
}

proof fn lemma_contains_push(s: Seq<CellPos>, x: CellPos, p: CellPos)
    ensures
        s.push(x).contains(p) <==> s.contains(p) || x == p,
{
    if s.contains(p) {
        let q = choose|q: int| 0 <= q < s.len() && s[q] == p;
        assert(s.push(x)[q] == p);
    }
    if x == p {
        assert(s.push(x)[s.len() as int] == p);
    }
    if s.push(x).contains(p) && x != p {
        let q = choose|q: int| 0 <= q < s.len() + 1 && s.push(x)[q] == p;
        assert(s[q] == p);
    }
}

/// Once a home cannot be found, none can be found for the cells after it.
proof fn lemma_spots_stay_none(
    world: Map<u64, Seen>,
    claimed: Set<CellPos>,
    vac: Set<CellPos>,
    nvac: int,
    order: Seq<(CellPos, i32)>,
    n: int,
    m: int,
)
    requires
        n <= m,
        spots_upto(world, claimed, vac, nvac, order, n) is None,
    ensures
        spots_upto(world, claimed, vac, nvac, order, m) is None,
    decreases m - n,
{
    if n < m {
        lemma_spots_stay_none(world, claimed, vac, nvac, order, n, m - 1);
    }
}

/// Sorts pushed cells into placing order.
fn sort_pushes(items: Vec<(CellPos, i32)>) -> (r: Vec<(CellPos, i32)>)
    ensures
        r@.to_multiset() == items@.to_multiset(),
        sorted_by(r@, push_leq()),
{
    broadcast use vstd::seq_lib::to_multiset_insert;
    let mut out: Vec<(CellPos, i32)> = Vec::new();
    let mut i: usize = 0;
    proof {
        assert(out@.to_multiset() =~= items@.subrange(0, 0).to_multiset()) by {
            broadcast use vstd::multiset::group_multiset_axioms;
            vstd::seq_lib::to_multiset_len(out@);
            vstd::seq_lib::to_multiset_len(items@.subrange(0, 0));
            vstd::multiset::lemma_multiset_empty_len(out@.to_multiset());
            vstd::multiset::lemma_multiset_empty_len(items@.subrange(0, 0).to_multiset());
        }
    }
    while i < items.len()
        invariant
            0 <= i <= items@.len(),
            out@.to_multiset() == items@.subrange(0, i as int).to_multiset(),
            forall|a: int, b: int| 0 <= a < b < out@.len() ==> push_le(#[trigger] out@[a], #[trigger] out@[b]),
        decreases items@.len() - i,
    {
        let c = items[i];
        let mut k: usize = 0;
        while k < out.len()
            invariant
                0 <= k <= out@.len(),
                forall|j: int| 0 <= j < k ==> push_le(#[trigger] out@[j], c),
            ensures
                0 <= k <= out@.len(),
                forall|j: int| 0 <= j < k ==> push_le(#[trigger] out@[j], c),
                k < out@.len() ==> push_le(c, out@[k as int]),
            decreases out@.len() - k,
        {
            let o = out[k];
            if c.1 > o.1 || (c.1 == o.1 && (c.0.y < o.0.y || (c.0.y == o.0.y && c.0.x <= o.0.x))) {
                break;
            }
            k = k + 1;
        }
        let ghost before = out@;
        out.insert(k, c);
        proof {
            assert(items@.subrange(0, i + 1) =~= items@.subrange(0, i as int).push(c));
            vstd::seq_lib::to_multiset_build(items@.subrange(0, i as int), c);
            assert(out@ == before.insert(k as int, c));
            vstd::seq_lib::to_multiset_insert(before, k as int, c);
            assert forall|a: int, b: int| 0 <= a < b < out@.len() implies push_le(#[trigger] out@[a], #[trigger] out@[b]) by {
                if b < k {
                    assert(out@[a] == before[a] && out@[b] == before[b]);
                } else if b == k {
                    assert(out@[a] == before[a]);
                } else if a < k {
                    assert(out@[a] == before[a] && out@[b] == before[b - 1]);
                    assert(push_le(before[k as int], before[b - 1]));
                } else if a == k {
                    assert(out@[b] == before[b - 1]);
                    assert(push_le(before[k as int], before[b - 1]));
                } else {
                    assert(out@[a] == before[a - 1] && out@[b] == before[b - 1]);
                }
            }
        }
        i = i + 1;
    }
    proof {
        assert(items@.subrange(0, items@.len() as int) =~= items@);
    }
    out
}

} // verus!
