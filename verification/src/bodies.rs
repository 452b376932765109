//! The collection of rigid bodies: looking bodies up by id, steering them, and the
//! questions the rest of the game asks about them.
use vstd::prelude::*;
use rustc_hash::FxHashMap;
use rustc_hash::FxHashSet;
use crate::geometry::{CellPos, ChunkPos, Phase, floor_cell, floor_cell_spec};
use crate::fx::{fx_contains, fx_insert};
use crate::raster::lemma_cell_key_injective;
use crate::islands::{least_x, most_x, least_y, most_y};
use crate::fx::{fx_map_insert, fx_map_get, fx_map_remove, key_of_pair, pair_key};
use crate::raster::{cell_key, key_of};
use crate::schedule::chunk_key;
use crate::state::{Body, Policy, Slot, Freedoms, cell_mass, cell_mass_spec};
use crate::geometry::{MaterialId, Q16};
use crate::arith::{round_div_i128, round_div_spec, lemma_round_div_nearest};
use crate::rotation::Spin;
use crate::reshape::{Seen, ReshapePlan, SURFACE_PROBE, plan_reshape, reshape_planned};

verus! {

/// A body that broke apart: its id, where it was anchored, and the ids of its parts.
#[derive(Debug, Clone, PartialEq, Eq)]
pub struct Fracture {
    pub source: u32,
    pub anchor: CellPos,
    pub parts: Vec<u32>,
}

/// What the world shows at a loaded cell: the body that owns it, if any, and its
/// material's phase.
#[derive(Debug, Clone, Copy, PartialEq, Eq)]
pub struct Occupant {
    pub owner: Option<u32>,
    pub phase: Phase,
}

/// The bodies, an index from id to position, the cells waiting to be checked for
/// new bodies, the seeds parked per chunk until the chunk wakes, and the fractures
/// not yet reported.
pub struct Bodies {
    pub bodies: Vec<Body>,
    pub by_id: FxHashMap<u64, usize>,
    pub pending: Vec<CellPos>,
    pub parked_seeds: FxHashMap<u64, Vec<CellPos>>,
    pub fractures: Vec<Fracture>,
}

/// The last of the first `n` bodies with id `id`.
pub open spec fn last_with(bodies: Seq<Body>, id: u32, n: int) -> Option<int>
    decreases n,
{
    if n <= 0 {
        None
    } else if bodies[n - 1].id == id {
        Some(n - 1)
    } else {
        last_with(bodies, id, n - 1)
    }
}

/// The position of the body with id `id` (the last, should two share it).
pub open spec fn body_of(bodies: Seq<Body>, id: u32) -> Option<int> {
    last_with(bodies, id, bodies.len() as int)
}

proof fn lemma_last_with_range(bodies: Seq<Body>, id: u32, n: int)
    requires
        n <= bodies.len(),
    ensures
        last_with(bodies, id, n) matches Some(i) ==> 0 <= i < n && bodies[i].id == id,
    decreases n,
{
    if n > 0 {
        lemma_last_with_range(bodies, id, n - 1);
    }
}

/// The index holds exactly the ids of the first `n` bodies, each at its last position.
pub open spec fn indexes_upto(bodies: Seq<Body>, by_id: Map<u64, usize>, n: int) -> bool {
    &&& forall|key: u64| #[trigger] by_id.contains_key(key) ==> key < 0x1_0000_0000
    &&& forall|id: u32| #[trigger] by_id.contains_key(id as u64) <==> last_with(bodies, id, n) is Some
    &&& forall|id: u32| #[trigger] by_id.contains_key(id as u64) ==> last_with(bodies, id, n) == Some(by_id[id as u64] as int)
}

/// No two bodies share an id.
pub open spec fn ids_distinct(bodies: Seq<Body>) -> bool {
    forall|i: int, j: int| 0 <= i < bodies.len() && 0 <= j < bodies.len() && i != j ==> #[trigger] bodies[i].id != #[trigger] bodies[j].id
}

/// No body among the first `n` has id `id` when none is found there.
pub proof fn lemma_last_with_none(bodies: Seq<Body>, id: u32, n: int)
    requires
        n <= bodies.len(),
        last_with(bodies, id, n) is None,
    ensures
        forall|j: int| 0 <= j < n ==> (#[trigger] bodies[j]).id != id,
    decreases n,
{
    if n > 0 {
        lemma_last_with_none(bodies, id, n - 1);
    }
}

/// No body is found with an id that none of the first `n` bodies has.
proof fn lemma_last_with_absent(bodies: Seq<Body>, id: u32, n: int)
    requires
        n <= bodies.len(),
        forall|j: int| 0 <= j < n ==> (#[trigger] bodies[j]).id != id,
    ensures
        last_with(bodies, id, n) is None,
    decreases n,
{
    if n > 0 {
        lemma_last_with_absent(bodies, id, n - 1);
    }
}

/// Removing a body keeps the ids distinct and leaves none with its id.
proof fn lemma_remove_distinct(bodies: Seq<Body>, i: int)
    requires
        ids_distinct(bodies),
        0 <= i < bodies.len(),
    ensures
        ids_distinct(bodies.remove(i)),
        forall|j: int| 0 <= j < bodies.len() - 1 ==> (#[trigger] bodies.remove(i)[j]).id != bodies[i].id,
{
    let r = bodies.remove(i);
    assert forall|a: int, b: int| 0 <= a < r.len() && 0 <= b < r.len() && a != b implies #[trigger] r[a].id != #[trigger] r[b].id by {
        let a2 = if a < i { a } else { a + 1 };
        let b2 = if b < i { b } else { b + 1 };
        assert(r[a] == bodies[a2] && r[b] == bodies[b2]);
    }
    assert forall|j: int| 0 <= j < bodies.len() - 1 implies (#[trigger] r[j]).id != bodies[i].id by {
        let j2 = if j < i { j } else { j + 1 };
        assert(r[j] == bodies[j2]);
    }
}

/// Adding a body whose id no body has keeps the ids distinct.
proof fn lemma_push_distinct(bodies: Seq<Body>, b: Body)
    requires
        ids_distinct(bodies),
        forall|j: int| 0 <= j < bodies.len() ==> (#[trigger] bodies[j]).id != b.id,
    ensures
        ids_distinct(bodies.push(b)),
{
    let r = bodies.push(b);
    assert forall|a: int, c: int| 0 <= a < r.len() && 0 <= c < r.len() && a != c implies #[trigger] r[a].id != #[trigger] r[c].id by {
        if a < bodies.len() && c < bodies.len() {
            assert(r[a] == bodies[a] && r[c] == bodies[c]);
        } else if a < bodies.len() {
            assert(r[a] == bodies[a]);
        } else {
            assert(r[c] == bodies[c]);
        }
    }
}

impl Bodies {
    /// The index matches the bodies, and no two bodies share an id.
    pub open spec fn wf(&self) -> bool {
        &&& indexes_upto(self.bodies@, self.by_id@, self.bodies@.len() as int)
        &&& ids_distinct(self.bodies@)
    }

    /// No bodies.
    pub fn new() -> (r: Bodies)
        ensures
            r.wf(),
            r.bodies@.len() == 0,
            r.pending@.len() == 0,
            r.parked_seeds@ == Map::<u64, Vec<CellPos>>::empty(),
            r.fractures@.len() == 0,
    {
        Bodies {
            bodies: Vec::new(),
            by_id: FxHashMap::default(),
            pending: Vec::new(),
            parked_seeds: FxHashMap::default(),
            fractures: Vec::new(),
        }
    }

    /// Rebuilds the index from id to position.
    pub fn rebuild_index(&mut self)
        requires
            ids_distinct(old(self).bodies@),
        ensures
            final(self).wf(),
            final(self).bodies == old(self).bodies,
            final(self).pending == old(self).pending,
            final(self).parked_seeds == old(self).parked_seeds,
            final(self).fractures == old(self).fractures,
    {
        let mut by_id: FxHashMap<u64, usize> = FxHashMap::default();
        let mut i: usize = 0;
        while i < self.bodies.len()
            invariant
                0 <= i <= self.bodies@.len(),
                indexes_upto(self.bodies@, by_id@, i as int),
            decreases self.bodies@.len() - i,
        {
            let id = self.bodies[i].id;
            let ghost before = by_id@;
            fx_map_insert(&mut by_id, id as u64, i);
            proof {
                assert forall|other: u32| #[trigger] by_id@.contains_key(other as u64) <==> last_with(self.bodies@, other, i + 1) is Some by {
                    if other != id {
                        assert(other as u64 != id as u64);
                    }
                }
                assert forall|other: u32| #[trigger] by_id@.contains_key(other as u64)
                    implies last_with(self.bodies@, other, i + 1) == Some(by_id@[other as u64] as int) by {
                    if other != id {
                        assert(other as u64 != id as u64);
                    }
                }
            }
            i = i + 1;
        }
        self.by_id = by_id;
    }

    fn lookup(&self, id: u32) -> (r: Option<usize>)
        requires
            self.wf(),
        ensures
            r matches Some(i) ==> body_of(self.bodies@, id) == Some(i as int) && (i as int) < self.bodies@.len(),
            r is None ==> body_of(self.bodies@, id) is None,
    {
        let r = fx_map_get(&self.by_id, id as u64);
        proof {
            lemma_last_with_range(self.bodies@, id, self.bodies@.len() as int);
        }
        r
    }

    /// The ids of the bodies with the cells each covers.
    pub fn rasters(&self) -> (r: Vec<(u32, Vec<CellPos>)>)
        ensures
            r@.len() == self.bodies@.len(),
            forall|i: int| 0 <= i < r@.len() ==> (#[trigger] r@[i]).0 == self.bodies@[i].id && r@[i].1@ == self.bodies@[i].raster@,
    {
        let mut out: Vec<(u32, Vec<CellPos>)> = Vec::new();
        let mut i: usize = 0;
        while i < self.bodies.len()
            invariant
                0 <= i <= self.bodies@.len(),
                out@.len() == i,
                forall|k: int| 0 <= k < i ==> (#[trigger] out@[k]).0 == self.bodies@[k].id && out@[k].1@ == self.bodies@[k].raster@,
            decreases self.bodies@.len() - i,
        {
            let body = &self.bodies[i];
            let mut cells: Vec<CellPos> = Vec::new();
            let mut j: usize = 0;
            while j < body.raster.len()
                invariant
                    0 <= j <= body.raster@.len(),
                    cells@ == body.raster@.subrange(0, j as int),
                decreases body.raster@.len() - j,
            {
                cells.push(body.raster[j]);
                proof {
                    assert(cells@ =~= body.raster@.subrange(0, j + 1));
                }
                j = j + 1;
            }
            proof {
                assert(cells@ =~= body.raster@);
            }
            out.push((body.id, cells));
            i = i + 1;
        }
        out
    }

    /// Queues cells to be checked for new bodies.
    pub fn unseat(&mut self, seeds: Vec<CellPos>)
        ensures
            final(self).pending@ == old(self).pending@ + seeds@,
            final(self).bodies == old(self).bodies,
            final(self).by_id == old(self).by_id,
            final(self).parked_seeds == old(self).parked_seeds,
            final(self).fractures == old(self).fractures,
    {
        let mut seeds = seeds;
        self.pending.append(&mut seeds);
    }

    /// Hands out the fractures not yet reported.
    pub fn drain_fractures(&mut self) -> (r: Vec<Fracture>)
        ensures
            r@ == old(self).fractures@,
            final(self).fractures@.len() == 0,
            final(self).bodies == old(self).bodies,
            final(self).by_id == old(self).by_id,
            final(self).pending == old(self).pending,
            final(self).parked_seeds == old(self).parked_seeds,
    {
        let mut taken: Vec<Fracture> = Vec::new();
        std::mem::swap(&mut taken, &mut self.fractures);
        taken
    }

    /// The anchor cell of body `id`.
    pub fn cell(&self, id: u32) -> (r: Option<CellPos>)
        requires
            self.wf(),
        ensures
            r == (match body_of(self.bodies@, id) {
                Some(i) => Some(self.bodies@[i].anchor),
                None => None::<CellPos>,
            }),
    {
        match self.lookup(id) {
            Some(i) => Some(self.bodies[i].anchor),
            None => None,
        }
    }

    /// The velocity of body `id`, in sub-cell units per tick.
    pub fn velocity(&self, id: u32) -> (r: Option<(i64, i64)>)
        requires
            self.wf(),
        ensures
            r == (match body_of(self.bodies@, id) {
                Some(i) => Some((self.bodies@[i].vx, self.bodies@[i].vy)),
                None => None::<(i64, i64)>,
            }),
    {
        match self.lookup(id) {
            Some(i) => Some((self.bodies[i].vx, self.bodies[i].vy)),
            None => None,
        }
    }

    /// Sets the velocity of body `id`, if there is one.
    pub fn drive(&mut self, id: u32, vx: i64, vy: i64)
        requires
            old(self).wf(),
        ensures
            final(self).wf(),
            final(self).bodies@ == (match body_of(old(self).bodies@, id) {
                Some(i) => old(self).bodies@.update(i, Body { vx, vy, ..old(self).bodies@[i] }),
                None => old(self).bodies@,
            }),
            final(self).by_id == old(self).by_id,
            final(self).pending == old(self).pending,
            final(self).parked_seeds == old(self).parked_seeds,
            final(self).fractures == old(self).fractures,
    {
        if let Some(i) = self.lookup(id) {
            let ghost before = self.bodies@;
            let mut body = self.bodies.remove(i);
            body.vx = vx;
            body.vy = vy;
            self.bodies.insert(i, body);
            proof {
                assert(self.bodies@ =~= before.update(i as int, Body { vx, vy, ..before[i as int] }));
                lemma_ids_kept(before, self.bodies@);
            }
        }
    }

    /// The weight of body `id`, or 0 when there is none.
    pub fn weight(&self, id: u32) -> (r: i64)
        requires
            self.wf(),
        ensures
            r == (match body_of(self.bodies@, id) {
                Some(i) => self.bodies@[i].weight,
                None => 0,
            }),
    {
        match self.lookup(id) {
            Some(i) => self.bodies[i].weight,
            None => 0,
        }
    }

    /// Turns body `id` into loose debris.
    pub fn die(&mut self, id: u32)
        requires
            old(self).wf(),
        ensures
            final(self).wf(),
            final(self).bodies@.len() == old(self).bodies@.len(),
            forall|j: int| 0 <= j < old(self).bodies@.len() && Some(j) != body_of(old(self).bodies@, id)
                ==> #[trigger] final(self).bodies@[j] == old(self).bodies@[j],
            body_of(old(self).bodies@, id) matches Some(i) ==> {
                let (was, now) = (old(self).bodies@[i], final(self).bodies@[i]);
                &&& now == (Body { freedoms: now.freedoms, settles: true, assists: false, ..was })
                &&& now.freedoms == crate::state::Freedoms(7)
            },
            final(self).by_id == old(self).by_id,
            final(self).pending == old(self).pending,
            final(self).parked_seeds == old(self).parked_seeds,
            final(self).fractures == old(self).fractures,
    {
        if let Some(i) = self.lookup(id) {
            let ghost before = self.bodies@;
            let mut body = self.bodies.remove(i);
            body.apply(Policy::debris());
            self.bodies.insert(i, body);
            proof {
                assert(self.bodies@ =~= before.update(i as int, self.bodies@[i as int]));
                lemma_ids_kept(before, self.bodies@);
            }
        }
    }

    /// The smallest box around body `id`: its least and greatest column and row.
    pub fn bounds(&self, id: u32) -> (r: Option<(CellPos, CellPos)>)
        requires
            self.wf(),
        ensures
            body_of(self.bodies@, id) is None ==> r is None,
            body_of(self.bodies@, id) matches Some(i) ==> r matches Some(b) && {
                let raster = self.bodies@[i].raster@;
                &&& forall|k: int| 0 <= k < raster.len() ==> b.0.x <= (#[trigger] raster[k]).x <= b.1.x && b.0.y <= raster[k].y <= b.1.y
                &&& (raster.len() == 0 ==> b == (CellPos { x: i32::MAX, y: i32::MAX }, CellPos { x: i32::MIN, y: i32::MIN }))
                &&& (raster.len() > 0 ==> (exists|k: int| 0 <= k < raster.len() && (#[trigger] raster[k]).x == b.0.x)
                    && (exists|k: int| 0 <= k < raster.len() && (#[trigger] raster[k]).y == b.0.y)
                    && (exists|k: int| 0 <= k < raster.len() && (#[trigger] raster[k]).x == b.1.x)
                    && (exists|k: int| 0 <= k < raster.len() && (#[trigger] raster[k]).y == b.1.y))
            },
    {
        let i = match self.lookup(id) {
            Some(i) => i,
            None => {
                return None;
            },
        };
        let raster = &self.bodies[i].raster;
        let mut min = (i32::MAX, i32::MAX);
        let mut max = (i32::MIN, i32::MIN);
        let mut k: usize = 0;
        while k < raster.len()
            invariant
                0 <= k <= raster@.len(),
                forall|q: int| 0 <= q < k ==> min.0 <= (#[trigger] raster@[q]).x <= max.0 && min.1 <= raster@[q].y <= max.1,
                k == 0 ==> min == (i32::MAX, i32::MAX) && max == (i32::MIN, i32::MIN),
                k > 0 ==> (exists|q: int| 0 <= q < k && (#[trigger] raster@[q]).x == min.0)
                    && (exists|q: int| 0 <= q < k && (#[trigger] raster@[q]).y == min.1)
                    && (exists|q: int| 0 <= q < k && (#[trigger] raster@[q]).x == max.0)
                    && (exists|q: int| 0 <= q < k && (#[trigger] raster@[q]).y == max.1),
            decreases raster@.len() - k,
        {
            let pos = raster[k];
            min = (if pos.x < min.0 { pos.x } else { min.0 }, if pos.y < min.1 { pos.y } else { min.1 });
            max = (if pos.x > max.0 { pos.x } else { max.0 }, if pos.y > max.1 { pos.y } else { max.1 });
            proof {
                assert(raster@[k as int] == pos);
            }
            k = k + 1;
        }
        Some((CellPos { x: min.0, y: min.1 }, CellPos { x: max.0, y: max.1 }))
    }
}

/// `p` moved by `(dx, dy)`.
pub open spec fn moved(p: CellPos, dx: int, dy: int) -> CellPos {
    CellPos { x: (p.x + dx) as i32, y: (p.y + dy) as i32 }
}

/// A loaded cell at `p` that a body other than `id` or no body owns, solid or powder.
pub open spec fn bears(world: Map<u64, Occupant>, id: u32, p: CellPos) -> bool {
    &&& world.contains_key(cell_key(p))
    &&& world[cell_key(p)].owner != Some(id)
    &&& (world[cell_key(p)].phase == Phase::Solid || world[cell_key(p)].phase == Phase::Powder)
}

/// Every cell of `body` moved by `(dx, dy)` stays inside `i32`.
pub open spec fn shift_fits(body: Body, dx: int, dy: int) -> bool {
    forall|k: int| 0 <= k < body.raster@.len() ==> {
        &&& i32::MIN <= (#[trigger] body.raster@[k]).x + dx <= i32::MAX
        &&& i32::MIN <= body.raster@[k].y + dy <= i32::MAX
    }
}

/// Some cell of `body`, moved by `(dx, dy)`, lands on a cell that bears it.
pub open spec fn touches(body: Body, world: Map<u64, Occupant>, dx: int, dy: int) -> bool {
    exists|k: int| 0 <= k < body.raster@.len() && #[trigger] bears(world, body.id, moved(body.raster@[k], dx, dy))
}

/// The cells of `raster` that the world still shows as owned by `id`.
pub open spec fn still_owned(world: Map<u64, Occupant>, id: u32, raster: Seq<CellPos>) -> Seq<CellPos>
    decreases raster.len(),
{
    if raster.len() == 0 {
        Seq::empty()
    } else if world.contains_key(cell_key(raster.last())) && world[cell_key(raster.last())].owner == Some(id) {
        still_owned(world, id, raster.drop_last()).push(raster.last())
    } else {
        still_owned(world, id, raster.drop_last())
    }
}

/// The parked seeds after waking `chunks` in turn, with the seeds woken, in order.
pub open spec fn woken(parked: Map<u64, Vec<CellPos>>, chunks: Seq<ChunkPos>) -> (Map<u64, Vec<CellPos>>, Seq<CellPos>)
    decreases chunks.len(),
{
    if chunks.len() == 0 {
        (parked, Seq::empty())
    } else {
        let (rest, seeds) = woken(parked, chunks.drop_last());
        let key = chunk_key(chunks.last());
        if rest.contains_key(key) {
            (rest.remove(key), seeds + rest[key]@)
        } else {
            (rest, seeds)
        }
    }
}

impl Bodies {
    /// Whether some cell of body `id`, moved by `(dx, dy)`, lands on a loaded solid
    /// or powder cell that the body does not own.
    pub fn touching(&self, world: &FxHashMap<u64, Occupant>, id: u32, dx: i32, dy: i32) -> (r: bool)
        requires
            self.wf(),
            body_of(self.bodies@, id) matches Some(i) ==> shift_fits(self.bodies@[i], dx as int, dy as int),
        ensures
            r == (body_of(self.bodies@, id) matches Some(i) && touches(self.bodies@[i], world@, dx as int, dy as int)),
    {
        let i = match self.lookup(id) {
            Some(i) => i,
            None => {
                return false;
            },
        };
        let body = &self.bodies[i];
        proof {
            assert(body_of(self.bodies@, id) == Some(i as int));
            assert(self.bodies@[i as int] == *body);
            assert(shift_fits(*body, dx as int, dy as int));
        }
        let mut k: usize = 0;
        while k < body.raster.len()
            invariant
                0 <= k <= body.raster@.len(),
                body_of(self.bodies@, id) == Some(i as int),
                self.bodies@[i as int] == *body,
                forall|k: int| 0 <= k < body.raster@.len() ==> {
                    &&& i32::MIN <= (#[trigger] body.raster@[k]).x + dx <= i32::MAX
                    &&& i32::MIN <= body.raster@[k].y + dy <= i32::MAX
                },
                forall|q: int| 0 <= q < k ==> !#[trigger] bears(world@, body.id, moved(body.raster@[q], dx as int, dy as int)),
            decreases body.raster@.len() - k,
        {
            let pos = body.raster[k].translated(dx, dy);
            if let Some(cell) = fx_map_get(world, key_of(pos)) {
                let mine = match cell.owner {
                    Some(owner) => owner == body.id,
                    None => false,
                };
                if !mine && matches!(cell.phase, Phase::Solid | Phase::Powder) {
                    proof {
                        assert(pos == moved(body.raster@[k as int], dx as int, dy as int));
                        assert(bears(world@, body.id, moved(body.raster@[k as int], dx as int, dy as int)));
                        assert(touches(*body, world@, dx as int, dy as int));
                    }
                    return true;
                }
            }
            k = k + 1;
        }
        false
    }

    /// Whether body `id` rests on a loaded solid or powder cell it does not own.
    pub fn supported(&self, world: &FxHashMap<u64, Occupant>, id: u32) -> (r: bool)
        requires
            self.wf(),
            body_of(self.bodies@, id) matches Some(i) ==> shift_fits(self.bodies@[i], 0, -1),
        ensures
            r == (body_of(self.bodies@, id) matches Some(i) && touches(self.bodies@[i], world@, 0, -1)),
    {
        self.touching(world, id, 0, -1)
    }

    /// Wakes the seeds parked in `chunks`, in turn, queueing them to be checked.
    pub fn wake_chunks(&mut self, chunks: &Vec<ChunkPos>)
        ensures
            final(self).parked_seeds@ == woken(old(self).parked_seeds@, chunks@).0,
            final(self).pending@ == old(self).pending@ + woken(old(self).parked_seeds@, chunks@).1,
            final(self).bodies == old(self).bodies,
            final(self).by_id == old(self).by_id,
            final(self).fractures == old(self).fractures,
    {
        let ghost parked0 = self.parked_seeds@;
        let ghost pending0 = self.pending@;
        let mut c: usize = 0;
        while c < chunks.len()
            invariant
                0 <= c <= chunks@.len(),
                self.parked_seeds@ == woken(parked0, chunks@.subrange(0, c as int)).0,
                self.pending@ == pending0 + woken(parked0, chunks@.subrange(0, c as int)).1,
                self.bodies == old(self).bodies,
                self.by_id == old(self).by_id,
                self.fractures == old(self).fractures,
            decreases chunks@.len() - c,
        {
            let chunk = chunks[c];
            proof {
                let next = chunks@.subrange(0, c + 1);
                assert(next.drop_last() =~= chunks@.subrange(0, c as int));
                assert(next.last() == chunk);
            }
            let ghost pending_before = self.pending@;
            if let Some(seeds) = fx_map_remove(&mut self.parked_seeds, key_of_pair(chunk.x, chunk.y)) {
                let mut seeds = seeds;
                self.pending.append(&mut seeds);
                proof {
                    assert(self.pending@ =~= pending_before + woken(parked0, chunks@.subrange(0, c as int)).0[chunk_key(chunk)]@);
                    assert(pending0 + woken(parked0, chunks@.subrange(0, c + 1)).1
                        =~= pending0 + woken(parked0, chunks@.subrange(0, c as int)).1 + woken(parked0, chunks@.subrange(0, c as int)).0[chunk_key(chunk)]@);
                }
            }
            c = c + 1;
        }
        proof {
            assert(chunks@.subrange(0, chunks@.len() as int) =~= chunks@);
        }
    }

    /// Removes body `id`, returning the cells the world still shows as the body's,
    /// which become empty.
    pub fn despawn(&mut self, world: &FxHashMap<u64, Occupant>, id: u32) -> (cleared: Vec<CellPos>)
        requires
            old(self).wf(),
        ensures
            final(self).wf(),
            body_of(old(self).bodies@, id) is None ==> final(self).bodies == old(self).bodies && cleared@.len() == 0,
            body_of(old(self).bodies@, id) matches Some(i) ==> {
                &&& final(self).bodies@ == old(self).bodies@.remove(i)
                &&& body_of(final(self).bodies@, id) is None
                &&& cleared@ == still_owned(world@, old(self).bodies@[i].id, old(self).bodies@[i].raster@)
            },
            final(self).pending == old(self).pending,
            final(self).parked_seeds == old(self).parked_seeds,
            final(self).fractures == old(self).fractures,
    {
        let i = match self.lookup(id) {
            Some(i) => i,
            None => {
                return Vec::new();
            },
        };
        let ghost before = self.bodies@;
        let body = self.bodies.remove(i);
        proof {
            lemma_last_with_range(before, id, before.len() as int);
            lemma_remove_distinct(before, i as int);
            lemma_last_with_absent(self.bodies@, id, self.bodies@.len() as int);
        }
        let cleared = settle_body(world, &body);
        self.rebuild_index();
        cleared
    }
}

/// The least local column and row over the first `n` slots (the largest `i32`
/// when there is none).
pub open spec fn corner_upto(slots: Seq<Slot>, n: int) -> (int, int)
    decreases n,
{
    if n <= 0 {
        (i32::MAX as int, i32::MAX as int)
    } else {
        let c = corner_upto(slots, n - 1);
        let l = slots[n - 1].local;
        (if l.0 < c.0 { l.0 as int } else { c.0 }, if l.1 < c.1 { l.1 as int } else { c.1 })
    }
}

/// The cells among the first `n` of a body that the world still shows as the body's,
/// each with its slot's offset from the corner.
pub open spec fn repainted(world: Map<u64, Occupant>, body: Body, corner: (int, int), n: int) -> Seq<(CellPos, (i32, i32))>
    decreases n,
{
    if n <= 0 {
        Seq::empty()
    } else {
        let prev = repainted(world, body, corner, n - 1);
        let pos = body.raster@[n - 1];
        let l = body.slots@[n - 1].local;
        if world.contains_key(cell_key(pos)) && world[cell_key(pos)].owner == Some(body.id) {
            prev.push((pos, ((l.0 - corner.0) as i32, (l.1 - corner.1) as i32)))
        } else {
            prev
        }
    }
}

/// Slot offsets small enough to measure from their corner.
pub open spec fn locals_in_range(slots: Seq<Slot>) -> bool {
    forall|k: int| 0 <= k < slots.len() ==> -0x3fff_ffff <= (#[trigger] slots[k]).local.0 <= 0x3fff_ffff
        && -0x3fff_ffff <= slots[k].local.1 <= 0x3fff_ffff
}

impl Bodies {
    /// The cells of body `id` to paint again, with each cell's offset from the
    /// corner of its slots (least column and row) for the shade: the cells the world
    /// still shows as the body's. Empty when there is no such body.
    pub fn repaint(&self, world: &FxHashMap<u64, Occupant>, id: u32) -> (r: Vec<(CellPos, (i32, i32))>)
        requires
            self.wf(),
            body_of(self.bodies@, id) matches Some(i) ==> locals_in_range(self.bodies@[i].slots@),
        ensures
            body_of(self.bodies@, id) is None ==> r@.len() == 0,
            body_of(self.bodies@, id) matches Some(i) ==> r@ == repainted(world@, self.bodies@[i],
                corner_upto(self.bodies@[i].slots@, self.bodies@[i].slots@.len() as int), crate::buoyancy::paired(&self.bodies@[i])),
    {
        let i = match self.lookup(id) {
            Some(i) => i,
            None => {
                return Vec::new();
            },
        };
        let body = &self.bodies[i];
        proof {
            assert(self.bodies@[i as int] == *body);
        }
        let mut cx: i32 = i32::MAX;
        let mut cy: i32 = i32::MAX;
        let mut k: usize = 0;
        while k < body.slots.len()
            invariant
                0 <= k <= body.slots@.len(),
                (cx as int, cy as int) == corner_upto(body.slots@, k as int),
                locals_in_range(body.slots@),
                -0x3fff_ffff <= cx && -0x3fff_ffff <= cy,
                forall|q: int| 0 <= q < k ==> cx <= (#[trigger] body.slots@[q]).local.0 && cy <= body.slots@[q].local.1,
            decreases body.slots@.len() - k,
        {
            let l = body.slots[k].local;
            if l.0 < cx {
                cx = l.0;
            }
            if l.1 < cy {
                cy = l.1;
            }
            k = k + 1;
        }
        let ghost corner = (cx as int, cy as int);
        let n = if body.slots.len() < body.raster.len() { body.slots.len() } else { body.raster.len() };
        let mut out: Vec<(CellPos, (i32, i32))> = Vec::new();
        let mut j: usize = 0;
        while j < n
            invariant
                0 <= j <= n,
                n == crate::buoyancy::paired(body),
                locals_in_range(body.slots@),
                corner == corner_upto(body.slots@, body.slots@.len() as int),
                corner == (cx as int, cy as int),
                -0x3fff_ffff <= cx && -0x3fff_ffff <= cy,
                forall|q: int| 0 <= q < body.slots@.len() ==> corner.0 <= (#[trigger] body.slots@[q]).local.0 && corner.1 <= body.slots@[q].local.1,
                out@ == repainted(world@, *body, corner, j as int),
            decreases n - j,
        {
            let pos = body.raster[j];
            let l = body.slots[j].local;
            if let Some(cell) = fx_map_get(world, key_of(pos)) {
                let mine = match cell.owner {
                    Some(owner) => owner == body.id,
                    None => false,
                };
                if mine {
                    out.push((pos, (l.0 - cx, l.1 - cy)));
                }
            }
            j = j + 1;
        }
        out
    }
}

/// The cells of a body that the world still shows as the body's: those that go
/// back to the grid when the body settles or is removed.
pub fn settle_body(world: &FxHashMap<u64, Occupant>, body: &Body) -> (cells: Vec<CellPos>)
    ensures
        cells@ == still_owned(world@, body.id, body.raster@),
{
    let mut cells: Vec<CellPos> = Vec::new();
    let mut k: usize = 0;
    while k < body.raster.len()
        invariant
            0 <= k <= body.raster@.len(),
            cells@ == still_owned(world@, body.id, body.raster@.subrange(0, k as int)),
        decreases body.raster@.len() - k,
    {
        let pos = body.raster[k];
        proof {
            let next = body.raster@.subrange(0, k + 1);
            assert(next.drop_last() =~= body.raster@.subrange(0, k as int));
            assert(next.last() == pos);
        }
        if let Some(cell) = fx_map_get(world, key_of(pos)) {
            let mine = match cell.owner {
                Some(owner) => owner == body.id,
                None => false,
            };
            if mine {
                cells.push(pos);
            }
        }
        k = k + 1;
    }
    proof {
        assert(body.raster@.subrange(0, body.raster@.len() as int) =~= body.raster@);
    }
    cells
}

/// The chunk holding cell `(x, y)`, with `size` cells per chunk side.
pub open spec fn chunk_at(x: int, y: int, size: int) -> ChunkPos {
    ChunkPos { x: floor_cell_spec(x, size) as i32, y: floor_cell_spec(y, size) as i32 }
}

/// Chunk `a` comes before chunk `b` row by row.
pub open spec fn chunk_before(a: ChunkPos, b: ChunkPos) -> bool {
    a.y < b.y || (a.y == b.y && a.x < b.x)
}

/// `c` lies in the box of chunks from `lo` to `hi`.
pub open spec fn in_box(c: ChunkPos, lo: ChunkPos, hi: ChunkPos) -> bool {
    lo.x <= c.x <= hi.x && lo.y <= c.y <= hi.y
}

/// The first chunk, row by row, of the box around an island (grown by one cell on
/// each side) that cannot be simulated (`usable` holds the keys of the loaded,
/// simulated chunks); `None` when the island can move freely.
pub fn island_blocker(island: &Vec<CellPos>, usable: &FxHashSet<u64>, chunk_size: i32) -> (r: Option<ChunkPos>)
    requires
        island@.len() > 0,
        chunk_size >= 1,
        forall|i: int| 0 <= i < island@.len() ==> i32::MIN < (#[trigger] island@[i]).x < i32::MAX && i32::MIN < island@[i].y < i32::MAX,
    ensures
        ({
            let lo = chunk_at(least_x(island@) - 1, least_y(island@) - 1, chunk_size as int);
            let hi = chunk_at(most_x(island@) + 1, most_y(island@) + 1, chunk_size as int);
            &&& r matches Some(c) ==> in_box(c, lo, hi) && !usable@.contains(chunk_key(c))
                && forall|d: ChunkPos| #[trigger] in_box(d, lo, hi) && chunk_before(d, c) ==> usable@.contains(chunk_key(d))
            &&& r is None ==> forall|d: ChunkPos| #[trigger] in_box(d, lo, hi) ==> usable@.contains(chunk_key(d))
        }),
{
    let dims = bounds_of(island);
    proof {
        lemma_floor_in_range(dims.0 - 1, chunk_size as int);
        lemma_floor_in_range(dims.1 - 1, chunk_size as int);
        lemma_floor_in_range(dims.2 + 1, chunk_size as int);
        lemma_floor_in_range(dims.3 + 1, chunk_size as int);
        vstd::arithmetic::div_mod::lemma_div_is_ordered(dims.0 - 1, dims.2 + 1, chunk_size as int);
        vstd::arithmetic::div_mod::lemma_div_is_ordered(dims.1 - 1, dims.3 + 1, chunk_size as int);
    }
    let lo = ChunkPos {
        x: floor_cell(dims.0 as i64 - 1, chunk_size as i64),
        y: floor_cell(dims.1 as i64 - 1, chunk_size as i64),
    };
    let hi = ChunkPos {
        x: floor_cell(dims.2 as i64 + 1, chunk_size as i64),
        y: floor_cell(dims.3 as i64 + 1, chunk_size as i64),
    };
    proof {
        assert(lo == chunk_at(least_x(island@) - 1, least_y(island@) - 1, chunk_size as int));
        assert(hi == chunk_at(most_x(island@) + 1, most_y(island@) + 1, chunk_size as int));
    }
    let mut y: i64 = lo.y as i64;
    while y <= hi.y as i64
        invariant
            lo == chunk_at(least_x(island@) - 1, least_y(island@) - 1, chunk_size as int),
            hi == chunk_at(most_x(island@) + 1, most_y(island@) + 1, chunk_size as int),
            lo.y <= y <= hi.y + 1,
            lo.x <= hi.x,
            forall|d: ChunkPos| #[trigger] in_box(d, lo, hi) && d.y < y ==> usable@.contains(chunk_key(d)),
        decreases hi.y + 1 - y,
    {
        let mut x: i64 = lo.x as i64;
        while x <= hi.x as i64
            invariant
                lo == chunk_at(least_x(island@) - 1, least_y(island@) - 1, chunk_size as int),
                hi == chunk_at(most_x(island@) + 1, most_y(island@) + 1, chunk_size as int),
                lo.x <= x <= hi.x + 1,
                lo.y <= y <= hi.y,
                forall|d: ChunkPos| #[trigger] in_box(d, lo, hi) && (d.y < y || (d.y == y && d.x < x)) ==> usable@.contains(chunk_key(d)),
            decreases hi.x + 1 - x,
        {
            let c = ChunkPos { x: x as i32, y: y as i32 };
            if !fx_contains(usable, key_of_pair(c.x, c.y)) {
                proof {
                    assert(in_box(c, lo, hi));
                    assert forall|d: ChunkPos| #[trigger] in_box(d, lo, hi) && chunk_before(d, c) implies usable@.contains(chunk_key(d)) by {}
                }
                return Some(c);
            }
            x = x + 1;
        }
        y = y + 1;
    }
    None
}

/// Dividing a value inside `i32` by a positive size, rounding down, stays inside `i32`.
proof fn lemma_floor_in_range(raw: int, size: int)
    requires
        i32::MIN <= raw <= i32::MAX,
        size >= 1,
    ensures
        i32::MIN <= floor_cell_spec(raw, size) <= i32::MAX,
{
    vstd::arithmetic::div_mod::lemma_fundamental_div_mod(raw, size);
    let q = raw / size;
    let r = raw % size;
    assert(raw == size * q + r && 0 <= r < size);
    if raw >= 0 {
        assert(0 <= q <= raw) by (nonlinear_arith)
            requires
                raw == size * q + r,
                0 <= r < size,
                size >= 1,
                raw >= 0,
        ;
    } else {
        assert(raw <= q < 0) by (nonlinear_arith)
            requires
                raw == size * q + r,
                0 <= r < size,
                size >= 1,
                raw < 0,
        ;
    }
}

/// The least and greatest column and row of a non-empty list of cells.
fn bounds_of(cells: &Vec<CellPos>) -> (r: (i32, i32, i32, i32))
    requires
        cells@.len() > 0,
        forall|i: int| 0 <= i < cells@.len() ==> i32::MIN < (#[trigger] cells@[i]).x < i32::MAX && i32::MIN < cells@[i].y < i32::MAX,
    ensures
        r.0 == least_x(cells@) && r.1 == least_y(cells@) && r.2 == most_x(cells@) && r.3 == most_y(cells@),
        i32::MIN < r.0 <= r.2 < i32::MAX,
        i32::MIN < r.1 <= r.3 < i32::MAX,
{
    let mut lx: i32 = cells[0].x;
    let mut ly: i32 = cells[0].y;
    let mut hx: i32 = cells[0].x;
    let mut hy: i32 = cells[0].y;
    let mut i: usize = 1;
    proof {
        assert(cells@.take(1).drop_last() =~= Seq::<CellPos>::empty());
    }
    while i < cells.len()
        invariant
            1 <= i <= cells@.len(),
            forall|i: int| 0 <= i < cells@.len() ==> i32::MIN < (#[trigger] cells@[i]).x < i32::MAX && i32::MIN < cells@[i].y < i32::MAX,
            lx == least_x(cells@.take(i as int)) && ly == least_y(cells@.take(i as int)),
            hx == most_x(cells@.take(i as int)) && hy == most_y(cells@.take(i as int)),
            i32::MIN < lx <= hx < i32::MAX,
            i32::MIN < ly <= hy < i32::MAX,
        decreases cells@.len() - i,
    {
        let p = cells[i];
        proof {
            assert(cells@.take(i + 1).drop_last() =~= cells@.take(i as int));
            assert(cells@.take(i + 1).last() == p);
        }
        if p.x < lx { lx = p.x; }
        if p.y < ly { ly = p.y; }
        if p.x > hx { hx = p.x; }
        if p.y > hy { hy = p.y; }
        i = i + 1;
    }
    proof {
        assert(cells@.take(cells@.len() as int) =~= cells@);
    }
    (lx, ly, hx, hy)
}

/// What a captured cell is made of: its material, with the material's density in
/// thousandths, restitution and friction.
pub type Makeup = (MaterialId, i32, Q16, Q16);

/// One coordinate of a cell: the row when `rows`, else the column.
pub open spec fn coord(p: CellPos, rows: bool) -> int {
    if rows { p.y as int } else { p.x as int }
}

/// The mass of the first `n` cells.
pub open spec fn mass_upto(stuff: Seq<Makeup>, n: int) -> int
    decreases n,
{
    if n <= 0 { 0 } else { mass_upto(stuff, n - 1) + cell_mass_spec(stuff[n - 1].1 as int) }
}

/// The mass-weighted sum of one coordinate of the first `n` cells.
pub open spec fn weighted_upto(cells: Seq<CellPos>, stuff: Seq<Makeup>, n: int, rows: bool) -> int
    decreases n,
{
    if n <= 0 { 0 } else { weighted_upto(cells, stuff, n - 1, rows) + cell_mass_spec(stuff[n - 1].1 as int) * coord(cells[n - 1], rows) }
}

proof fn lemma_weighted_between(cells: Seq<CellPos>, stuff: Seq<Makeup>, n: int, rows: bool, lo: int, hi: int)
    requires
        0 <= n <= cells.len(),
        n <= stuff.len(),
        forall|i: int| 0 <= i < n ==> lo <= #[trigger] coord(cells[i], rows) <= hi,
    ensures
        mass_upto(stuff, n) * lo <= weighted_upto(cells, stuff, n, rows) <= mass_upto(stuff, n) * hi,
        mass_upto(stuff, n) >= n,
    decreases n,
{
    if n > 0 {
        lemma_weighted_between(cells, stuff, n - 1, rows, lo, hi);
        let m = cell_mass_spec(stuff[n - 1].1 as int);
        let c = coord(cells[n - 1], rows);
        assert(m * lo <= m * c <= m * hi) by (nonlinear_arith)
            requires
                m >= 1,
                lo <= c <= hi,
        ;
        assert(mass_upto(stuff, n) * lo == mass_upto(stuff, n - 1) * lo + m * lo) by (nonlinear_arith)
            requires
                mass_upto(stuff, n) == mass_upto(stuff, n - 1) + m,
        ;
        assert(mass_upto(stuff, n) * hi == mass_upto(stuff, n - 1) * hi + m * hi) by (nonlinear_arith)
            requires
                mass_upto(stuff, n) == mass_upto(stuff, n - 1) + m,
        ;
    }
}

/// The rounded mass-weighted mean of values within `[lo, hi]` is within it.
proof fn lemma_mean_between(w: int, m: int, lo: int, hi: int)
    requires
        m >= 1,
        m * lo <= w <= m * hi,
    ensures
        lo <= round_div_spec(w, m) <= hi,
{
    lemma_round_div_nearest(w, m);
    let a = round_div_spec(w, m);
    assert(lo <= a <= hi) by (nonlinear_arith)
        requires
            -m <= 2 * (w - a * m) <= m,
            m * lo <= w <= m * hi,
            m >= 1,
    ;
}

/// `body` is `cells` captured as a body with id `id`: anchored at the rounded
/// mass-weighted mean of its cells, each cell a slot of what it is made of, at rest,
/// free to move and turn, settling, with its mass properties from its slots.
pub open spec fn captured(body: Body, id: u32, cells: Seq<CellPos>, stuff: Seq<Makeup>, units: i64) -> bool {
    &&& body.id == id
    &&& body.raster@ == cells
    &&& body.anchor.x == round_div_spec(weighted_upto(cells, stuff, cells.len() as int, false), mass_upto(stuff, cells.len() as int))
    &&& body.anchor.y == round_div_spec(weighted_upto(cells, stuff, cells.len() as int, true), mass_upto(stuff, cells.len() as int))
    &&& body.slots@.len() == cells.len()
    &&& forall|i: int| 0 <= i < cells.len() ==> #[trigger] body.slots@[i] == (Slot {
        local: ((cells[i].x - body.anchor.x) as i32, (cells[i].y - body.anchor.y) as i32),
        material: stuff[i].0,
        density_milli: stuff[i].1,
        restitution: stuff[i].2,
        friction: stuff[i].3,
    })
    &&& body.step == 0
    &&& body.vx == 0 && body.vy == 0 && body.spin.0 == 0
    &&& body.acc_x == 0 && body.acc_y == 0 && body.acc_turn == 0
    &&& body.weight == 0
    &&& body.freedoms == Freedoms(7)
    &&& body.settles && !body.assists && !body.was_grounded && !body.parked
    &&& body.mass == crate::state::total_mass(body.slots@)
    &&& body.moment == crate::state::moment_of(body.slots@, crate::state::slot_center(body.slots@, units as int), units as int)
    &&& body.radius == crate::arith::floor_sqrt(crate::state::reach_of(body.slots@, crate::state::slot_center(body.slots@, units as int), units as int))
        / (units as int) + 1
    &&& body.restitution.0 == crate::state::max_restitution(body.slots@)
    &&& body.friction.0 == crate::state::min_friction(body.slots@)
}

/// The anchor of `cells` made of `stuff` along one axis: the rounded mass-weighted
/// mean of that coordinate.
pub open spec fn capture_anchor(cells: Seq<CellPos>, stuff: Seq<Makeup>, rows: bool) -> int {
    round_div_spec(weighted_upto(cells, stuff, cells.len() as int, rows), mass_upto(stuff, cells.len() as int))
}

/// The slots of `cells` made of `stuff`: each cell's offset from the anchor and what
/// it is made of.
pub open spec fn capture_slots(cells: Seq<CellPos>, stuff: Seq<Makeup>) -> Seq<Slot> {
    Seq::new(cells.len(), |i: int| Slot {
        local: ((cells[i].x - capture_anchor(cells, stuff, false)) as i32, (cells[i].y - capture_anchor(cells, stuff, true)) as i32),
        material: stuff[i].0,
        density_milli: stuff[i].1,
        restitution: stuff[i].2,
        friction: stuff[i].3,
    })
}

/// `cells` made of `stuff` can be captured: at least one cell, each with what it is
/// made of, every cell's offset from the anchor fits an `i32`, and the mass
/// properties of the slots fit the machine (`inertia_fits`).
pub open spec fn capturable(cells: Seq<CellPos>, stuff: Seq<Makeup>, units: i64) -> bool {
    &&& 1 <= cells.len()
    &&& cells.len() == stuff.len()
    &&& forall|i: int| 0 <= i < cells.len() ==> {
        &&& i32::MIN <= (#[trigger] cells[i]).x - capture_anchor(cells, stuff, false) <= i32::MAX
        &&& i32::MIN <= cells[i].y - capture_anchor(cells, stuff, true) <= i32::MAX
    }
    &&& crate::state::inertia_fits(capture_slots(cells, stuff), units as int)
}

/// Captures `cells` as a new body with id `id`: anchored at the rounded
/// mass-weighted mean of its cells, each cell a slot of what it is made of, at rest,
/// free to move and turn, and settling.
pub fn capture(id: u32, cells: Vec<CellPos>, stuff: &Vec<Makeup>, units: i64) -> (body: Body)
    requires
        capturable(cells@, stuff@, units),
    ensures
        captured(body, id, cells@, stuff@, units),
{
    let n = cells.len();
    let mut mass: i128 = 0;
    let mut wx: i128 = 0;
    let mut wy: i128 = 0;
    let mut i: usize = 0;
    while i < n
        invariant
            n == cells@.len(),
            n == stuff@.len(),
            0 <= i <= n,
            mass == mass_upto(stuff@, i as int),
            wx == weighted_upto(cells@, stuff@, i as int, false),
            wy == weighted_upto(cells@, stuff@, i as int, true),
            i <= mass <= i * 0x8000_0000,
            -(i * 0x4000_0000_0000_0000) <= wx <= i * 0x4000_0000_0000_0000,
            -(i * 0x4000_0000_0000_0000) <= wy <= i * 0x4000_0000_0000_0000,
        decreases n - i,
    {
        let m = cell_mass(stuff[i].1);
        let x = cells[i].x;
        let y = cells[i].y;
        proof {
            assert(coord(cells@[i as int], false) == x);
            assert(coord(cells@[i as int], true) == y);
            assert(-0x4000_0000_0000_0000 <= m * x <= 0x4000_0000_0000_0000) by (nonlinear_arith)
                requires
                    1 <= m <= 0x8000_0000,
                    -0x8000_0000 <= x <= 0x8000_0000,
            ;
            assert(-0x4000_0000_0000_0000 <= m * y <= 0x4000_0000_0000_0000) by (nonlinear_arith)
                requires
                    1 <= m <= 0x8000_0000,
                    -0x8000_0000 <= y <= 0x8000_0000,
            ;
        }
        mass = mass + m as i128;
        wx = wx + (m as i128) * (x as i128);
        wy = wy + (m as i128) * (y as i128);
        i = i + 1;
    }
    proof {
        assert forall|i: int| 0 <= i < n implies -0x8000_0000 <= #[trigger] coord(cells@[i], false) <= 0x7fff_ffff by {}
        assert forall|i: int| 0 <= i < n implies -0x8000_0000 <= #[trigger] coord(cells@[i], true) <= 0x7fff_ffff by {}
        lemma_weighted_between(cells@, stuff@, n as int, false, -0x8000_0000, 0x7fff_ffff);
        lemma_weighted_between(cells@, stuff@, n as int, true, -0x8000_0000, 0x7fff_ffff);
        lemma_mean_between(wx as int, mass as int, -0x8000_0000, 0x7fff_ffff);
        lemma_mean_between(wy as int, mass as int, -0x8000_0000, 0x7fff_ffff);
    }
    let ax = round_div_i128(wx, mass) as i32;
    let ay = round_div_i128(wy, mass) as i32;
    assert(ax == capture_anchor(cells@, stuff@, false));
    assert(ay == capture_anchor(cells@, stuff@, true));
    let anchor = CellPos { x: ax, y: ay };
    let mut slots: Vec<Slot> = Vec::new();
    let mut k: usize = 0;
    while k < n
        invariant
            n == cells@.len(),
            n == stuff@.len(),
            0 <= k <= n,
            capturable(cells@, stuff@, units),
            ax == capture_anchor(cells@, stuff@, false),
            ay == capture_anchor(cells@, stuff@, true),
            slots@ == capture_slots(cells@, stuff@).subrange(0, k as int),
        decreases n - k,
    {
        let p = cells[k];
        let (material, density_milli, restitution, friction) = stuff[k];
        assert(i32::MIN <= cells@[k as int].x - ax <= i32::MAX);
        assert(i32::MIN <= cells@[k as int].y - ay <= i32::MAX);
        slots.push(Slot { local: (p.x - ax, p.y - ay), material, density_milli, restitution, friction });
        proof {
            assert(slots@ =~= capture_slots(cells@, stuff@).subrange(0, k + 1));
        }
        k = k + 1;
    }
    proof {
        assert(slots@ =~= capture_slots(cells@, stuff@));
    }
    let mut body = Body {
        id,
        slots,
        raster: cells,
        anchor,
        step: 0,
        vx: 0,
        vy: 0,
        spin: Spin::zero(),
        acc_x: 0,
        acc_y: 0,
        acc_turn: 0,
        mass: 0,
        moment: 0,
        radius: 0,
        restitution: Q16(0),
        friction: Q16(0),
        weight: 0,
        freedoms: Freedoms::all(),
        settles: true,
        assists: false,
        was_grounded: false,
        parked: false,
    };
    proof {
        assert(1u8 | 2u8 | 4u8 == 7u8) by (bit_vector);
    }
    body.refresh_inertia(units);
    body
}

/// The cells of a spawn request.
pub open spec fn spawn_cells(cells: Seq<(CellPos, MaterialId, u8)>) -> Seq<CellPos> {
    Seq::new(cells.len(), |i: int| cells[i].0)
}

/// What the cells of a spawn request are made of, from the content table (whether a
/// material bonds, its density, restitution and friction).
pub open spec fn spawn_stuff(cells: Seq<(CellPos, MaterialId, u8)>, content: Seq<(bool, i32, Q16, Q16)>) -> Seq<Makeup> {
    Seq::new(cells.len(), |i: int| (cells[i].1, content[cells[i].1.0 as int].1, content[cells[i].1.0 as int].2, content[cells[i].1.0 as int].3))
}

/// A spawn can go ahead: cells are given, the id is free, no cell is listed twice,
/// every material bonds, and every cell is loaded air.
pub open spec fn spawn_allowed(bodies: Seq<Body>, air: Set<u64>, id: u32, cells: Seq<(CellPos, MaterialId, u8)>, content: Seq<(bool, i32, Q16, Q16)>) -> bool {
    &&& cells.len() > 0
    &&& body_of(bodies, id) is None
    &&& forall|i: int, j: int| 0 <= i < j < cells.len() ==> (#[trigger] cells[i]).0 != (#[trigger] cells[j]).0
    &&& forall|i: int| 0 <= i < cells.len() ==> content[(#[trigger] cells[i]).1.0 as int].0
    &&& forall|i: int| 0 <= i < cells.len() ==> air.contains(cell_key((#[trigger] cells[i]).0))
}

/// A cell the world must take: at `pos`, of `material` and `shade`, owned by
/// body `owner`.
#[derive(Debug, Clone, Copy, PartialEq, Eq)]
pub struct CellWrite {
    pub pos: CellPos,
    pub material: MaterialId,
    pub shade: u8,
    pub owner: u32,
}

/// The cells a body `id` made of `cells` stamps into the world, in order.
pub open spec fn stamped(cells: Seq<(CellPos, MaterialId, u8)>, id: u32) -> Seq<CellWrite> {
    Seq::new(cells.len(), |i: int| CellWrite { pos: cells[i].0, material: cells[i].1, shade: cells[i].2, owner: id })
}

/// The cells a body `id` made of `cells` stamps into the world, shades included.
pub fn stamp(cells: &Vec<(CellPos, MaterialId, u8)>, id: u32) -> (w: Vec<CellWrite>)
    ensures
        w@ == stamped(cells@, id),
{
    let mut w: Vec<CellWrite> = Vec::new();
    let mut i: usize = 0;
    while i < cells.len()
        invariant
            0 <= i <= cells@.len(),
            w@ == stamped(cells@, id).subrange(0, i as int),
        decreases cells@.len() - i,
    {
        let (pos, material, shade) = cells[i];
        w.push(CellWrite { pos, material, shade, owner: id });
        proof {
            assert(w@ =~= stamped(cells@, id).subrange(0, i + 1));
        }
        i = i + 1;
    }
    proof {
        assert(w@ =~= stamped(cells@, id));
    }
    w
}

impl Bodies {
    /// Spawns a body with id `id` from `cells` where the world shows air (`air` holds
    /// the keys of the loaded air cells), with the given policy. Refused (`None`), with
    /// nothing changed, unless the spawn is allowed; otherwise the cells the world
    /// must take, shades included.
    pub fn spawn(
        &mut self,
        air: &FxHashSet<u64>,
        id: u32,
        cells: &Vec<(CellPos, MaterialId, u8)>,
        policy: Policy,
        content: &Vec<(bool, i32, Q16, Q16)>,
        units: i64,
    ) -> (r: Option<Vec<CellWrite>>)
        requires
            old(self).wf(),
            forall|i: int| 0 <= i < cells@.len() ==> ((#[trigger] cells@[i]).1.0 as int) < content@.len(),
            cells@.len() > 0 ==> capturable(spawn_cells(cells@), spawn_stuff(cells@, content@), units),
        ensures
            final(self).wf(),
            r is Some == spawn_allowed(old(self).bodies@, air@, id, cells@, content@),
            r is None ==> final(self).bodies == old(self).bodies,
            r matches Some(w) ==> w@ == stamped(cells@, id),
            r is Some ==> {
                let b = final(self).bodies@.last();
                &&& final(self).bodies@.len() == old(self).bodies@.len() + 1
                &&& final(self).bodies@.drop_last() == old(self).bodies@
                &&& b.freedoms == (if policy.turns { Freedoms(7) } else { Freedoms(6) })
                &&& exists|c: Body| captured(c, id, spawn_cells(cells@), spawn_stuff(cells@, content@), units)
                    && b == (Body { freedoms: b.freedoms, settles: policy.settles, assists: policy.assists, ..c })
            },
            final(self).pending == old(self).pending,
            final(self).parked_seeds == old(self).parked_seeds,
            final(self).fractures == old(self).fractures,
    {
        if cells.len() == 0 {
            return None;
        }
        if self.lookup(id).is_some() {
            return None;
        }
        let mut seen: FxHashSet<u64> = FxHashSet::default();
        let mut positions: Vec<CellPos> = Vec::new();
        let mut stuff: Vec<Makeup> = Vec::new();
        let mut i: usize = 0;
        while i < cells.len()
            invariant
                self.wf(),
                *self == *old(self),
                0 <= i <= cells@.len(),
                forall|i: int| 0 <= i < cells@.len() ==> ((#[trigger] cells@[i]).1.0 as int) < content@.len(),
                forall|p: CellPos| #[trigger] seen@.contains(cell_key(p)) <==> exists|j: int| 0 <= j < i && cells@[j].0 == p,
                forall|a: int, b: int| 0 <= a < b < i ==> (#[trigger] cells@[a]).0 != (#[trigger] cells@[b]).0,
                forall|j: int| 0 <= j < i ==> content@[(#[trigger] cells@[j]).1.0 as int].0,
                forall|j: int| 0 <= j < i ==> air@.contains(cell_key((#[trigger] cells@[j]).0)),
                positions@ == spawn_cells(cells@).subrange(0, i as int),
                stuff@ == spawn_stuff(cells@, content@).subrange(0, i as int),
            decreases cells@.len() - i,
        {
            let (pos, material, _shade) = cells[i];
            let (bonds, density_milli, restitution, friction) = content[material.0 as usize];
            if !bonds || !fx_contains(air, key_of(pos)) {
                return None;
            }
            let ghost before = seen@;
            if !fx_insert(&mut seen, key_of(pos)) {
                proof {
                    let j = choose|j: int| 0 <= j < i && cells@[j].0 == pos;
                    assert(cells@[j].0 == cells@[i as int].0);
                }
                return None;
            }
            proof {
                assert forall|p: CellPos| #[trigger] seen@.contains(cell_key(p)) <==> exists|j: int| 0 <= j < i + 1 && cells@[j].0 == p by {
                    if cell_key(p) == cell_key(pos) {
                        lemma_cell_key_injective(p, pos);
                        assert(cells@[i as int].0 == p);
                    }
                }
                assert forall|a: int, b: int| 0 <= a < b < i + 1 implies (#[trigger] cells@[a]).0 != (#[trigger] cells@[b]).0 by {
                    if b == i && cells@[a].0 == pos {
                        assert(before.contains(cell_key(pos)));
                    }
                }
            }
            positions.push(pos);
            stuff.push((material, density_milli, restitution, friction));
            proof {
                assert(positions@ =~= spawn_cells(cells@).subrange(0, i + 1));
                assert(stuff@ =~= spawn_stuff(cells@, content@).subrange(0, i + 1));
            }
            i = i + 1;
        }
        proof {
            assert(positions@ =~= spawn_cells(cells@));
            assert(stuff@ =~= spawn_stuff(cells@, content@));
        }
        let mut body = capture(id, positions, &stuff, units);
        let ghost c = body;
        body.apply(policy);
        let ghost old_bodies = self.bodies@;
        self.bodies.push(body);
        proof {
            lemma_last_with_none(old_bodies, id, old_bodies.len() as int);
            lemma_push_distinct(old_bodies, body);
        }
        self.rebuild_index();
        proof {
            assert(self.bodies@.drop_last() =~= old_bodies);
            assert(1u8 | 2u8 | 4u8 == 7u8 && 2u8 | 4u8 == 6u8) by (bit_vector);
        }
        Some(stamp(cells, id))
    }
}

/// The outline of a reshape request, without shades.
pub open spec fn outline_of(cells: Seq<(CellPos, MaterialId, u8)>) -> Seq<(CellPos, MaterialId)> {
    Seq::new(cells.len(), |i: int| (cells[i].0, cells[i].1))
}

/// Which materials bond, from the content table.
pub open spec fn bondable_of(content: Seq<(bool, i32, Q16, Q16)>) -> Seq<bool> {
    Seq::new(content.len(), |a: int| content[a].0)
}

impl Bodies {
    /// Gives body `id` the outline `cells`, from what the world shows around it:
    /// `None`, with nothing changed, when there is no such body or the reshape plan
    /// is refused; otherwise the plan of where the displaced fluid goes and the cells
    /// the world must take (shades included), and the body is captured anew from
    /// `cells`, keeping its motion, policy and weight.
    pub fn reshape(
        &mut self,
        world: &FxHashMap<u64, Seen>,
        id: u32,
        cells: &Vec<(CellPos, MaterialId, u8)>,
        content: &Vec<(bool, i32, Q16, Q16)>,
        units: i64,
    ) -> (r: Option<(ReshapePlan, Vec<CellWrite>)>)
        requires
            old(self).wf(),
            forall|i: int| 0 <= i < cells@.len() ==> ((#[trigger] cells@[i]).1.0 as int) < content@.len(),
            cells@.len() > 0 ==> capturable(spawn_cells(cells@), spawn_stuff(cells@, content@), units),
            forall|i: int| 0 <= i < cells@.len() ==> (#[trigger] cells@[i]).0.y + SURFACE_PROBE <= i32::MAX,
        ensures
            final(self).wf(),
            body_of(old(self).bodies@, id) is None ==> r is None,
            r is None ==> final(self).bodies == old(self).bodies,
            body_of(old(self).bodies@, id) matches Some(i) ==> {
                let was = old(self).bodies@[i];
                &&& reshape_planned(outline_of(cells@), bondable_of(content@), was.raster@, world@,
                    match r { Some((plan, _)) => Some(plan), None => None })
                &&& r matches Some((_, w)) ==> w@ == stamped(cells@, id)
                &&& r is Some ==> {
                    let b = final(self).bodies@.last();
                    &&& final(self).bodies@.drop_last() == old(self).bodies@.remove(i)
                    &&& final(self).bodies@ == old(self).bodies@.remove(i).push(b)
                    &&& final(self).bodies@.len() == old(self).bodies@.len()
                    &&& exists|c: Body| captured(c, id, spawn_cells(cells@), spawn_stuff(cells@, content@), units)
                        && b == (Body {
                            freedoms: was.freedoms,
                            settles: was.settles,
                            assists: was.assists,
                            parked: was.parked,
                            weight: was.weight,
                            vx: was.vx,
                            vy: was.vy,
                            spin: was.spin,
                            acc_x: was.acc_x,
                            acc_y: was.acc_y,
                            acc_turn: was.acc_turn,
                            ..c
                        })
                }
            },
            final(self).pending == old(self).pending,
            final(self).parked_seeds == old(self).parked_seeds,
            final(self).fractures == old(self).fractures,
    {
        let index = match self.lookup(id) {
            Some(i) => i,
            None => {
                return None;
            },
        };
        let mut outline: Vec<(CellPos, MaterialId)> = Vec::new();
        let mut positions: Vec<CellPos> = Vec::new();
        let mut stuff: Vec<Makeup> = Vec::new();
        let mut i: usize = 0;
        while i < cells.len()
            invariant
                0 <= i <= cells@.len(),
                forall|i: int| 0 <= i < cells@.len() ==> ((#[trigger] cells@[i]).1.0 as int) < content@.len(),
                outline@ == outline_of(cells@).subrange(0, i as int),
                positions@ == spawn_cells(cells@).subrange(0, i as int),
                stuff@ == spawn_stuff(cells@, content@).subrange(0, i as int),
            decreases cells@.len() - i,
        {
            let (pos, material, _shade) = cells[i];
            let (_bonds, density_milli, restitution, friction) = content[material.0 as usize];
            outline.push((pos, material));
            positions.push(pos);
            stuff.push((material, density_milli, restitution, friction));
            proof {
                assert(outline@ =~= outline_of(cells@).subrange(0, i + 1));
                assert(positions@ =~= spawn_cells(cells@).subrange(0, i + 1));
                assert(stuff@ =~= spawn_stuff(cells@, content@).subrange(0, i + 1));
            }
            i = i + 1;
        }
        let mut bondable: Vec<bool> = Vec::new();
        let mut a: usize = 0;
        while a < content.len()
            invariant
                0 <= a <= content@.len(),
                bondable@ == bondable_of(content@).subrange(0, a as int),
            decreases content@.len() - a,
        {
            bondable.push(content[a].0);
            proof {
                assert(bondable@ =~= bondable_of(content@).subrange(0, a + 1));
            }
            a = a + 1;
        }
        proof {
            assert(outline@ =~= outline_of(cells@));
            assert(positions@ =~= spawn_cells(cells@));
            assert(stuff@ =~= spawn_stuff(cells@, content@));
            assert(bondable@ =~= bondable_of(content@));
        }
        let plan = plan_reshape(&outline, &bondable, &self.bodies[index].raster, world);
        if plan.is_none() {
            return None;
        }
        proof {
            assert(cells@.len() > 0) by {
                assert(crate::reshape::acceptable(outline@, bondable@, self.bodies@[index as int].raster@, world@));
            }
        }
        let ghost old_bodies = self.bodies@;
        let was = self.bodies.remove(index);
        let mut next = capture(id, positions, &stuff, units);
        let ghost c = next;
        next.freedoms = was.freedoms;
        next.settles = was.settles;
        next.assists = was.assists;
        next.parked = was.parked;
        next.weight = was.weight;
        next.vx = was.vx;
        next.vy = was.vy;
        next.spin = was.spin;
        next.acc_x = was.acc_x;
        next.acc_y = was.acc_y;
        next.acc_turn = was.acc_turn;
        proof {
            lemma_last_with_range(old_bodies, id, old_bodies.len() as int);
            lemma_remove_distinct(old_bodies, index as int);
            lemma_push_distinct(old_bodies.remove(index as int), next);
            assert(self.bodies@ =~= old_bodies.remove(index as int));
        }
        self.bodies.push(next);
        self.rebuild_index();
        proof {
            assert(self.bodies@.drop_last() =~= old_bodies.remove(index as int));
        }
        match plan {
            Some(plan) => Some((plan, stamp(cells, id))),
            None => None,
        }
    }
}

/// Changing fields other than the id keeps every body's id.
proof fn lemma_ids_kept(before: Seq<Body>, after: Seq<Body>)
    requires
        before.len() == after.len(),
        forall|j: int| 0 <= j < before.len() ==> (#[trigger] after[j]).id == before[j].id,
    ensures
        forall|id: u32, n: int| n <= before.len() ==> #[trigger] last_with(after, id, n) == last_with(before, id, n),
{
    assert forall|id: u32, n: int| n <= before.len() implies #[trigger] last_with(after, id, n) == last_with(before, id, n) by {
        lemma_last_with_same(before, after, id, n);
    }
}

proof fn lemma_last_with_same(before: Seq<Body>, after: Seq<Body>, id: u32, n: int)
    requires
        before.len() == after.len(),
        n <= before.len(),
        forall|j: int| 0 <= j < before.len() ==> (#[trigger] after[j]).id == before[j].id,
    ensures
        last_with(after, id, n) == last_with(before, id, n),
    decreases n,
{
    if n > 0 {
        assert(after[n - 1].id == before[n - 1].id);
        lemma_last_with_same(before, after, id, n - 1);
    }
}

/// The cell beside `p` on side `d`: to the right, left, above and below for `d`
/// from 0 to 3.
pub open spec fn side_cell(p: CellPos, d: int) -> CellPos {
    if d == 0 {
        CellPos { x: (p.x + 1) as i32, y: p.y }
    } else if d == 1 {
        CellPos { x: (p.x - 1) as i32, y: p.y }
    } else if d == 2 {
        CellPos { x: p.x, y: (p.y + 1) as i32 }
    } else {
        CellPos { x: p.x, y: (p.y - 1) as i32 }
    }
}

/// Side `d` of `p` is a loaded cell that no body owns.
pub open spec fn open_side(world: Map<u64, Occupant>, p: CellPos, d: int) -> bool {
    world.contains_key(cell_key(side_cell(p, d))) && world[cell_key(side_cell(p, d))].owner is None
}

/// Side `d` of `p` is a loaded cell that no body owns and that holds liquid.
pub open spec fn wet_side(world: Map<u64, Occupant>, p: CellPos, d: int) -> bool {
    open_side(world, p, d) && world[cell_key(side_cell(p, d))].phase == Phase::Liquid
}

/// How many of the first `d` sides of `p` are open.
pub open spec fn open_sides(world: Map<u64, Occupant>, p: CellPos, d: int) -> int
    decreases d,
{
    if d <= 0 { 0 } else { open_sides(world, p, d - 1) + if open_side(world, p, d - 1) { 1int } else { 0int } }
}

/// How many of the first `d` sides of `p` are open and hold liquid.
pub open spec fn wet_sides(world: Map<u64, Occupant>, p: CellPos, d: int) -> int
    decreases d,
{
    if d <= 0 { 0 } else { wet_sides(world, p, d - 1) + if wet_side(world, p, d - 1) { 1int } else { 0int } }
}

/// Over the four sides of each of the first `n` cells of `raster`: the open sides
/// that hold liquid, and all the open sides.
pub open spec fn sides_upto(world: Map<u64, Occupant>, raster: Seq<CellPos>, n: int) -> (int, int)
    decreases n,
{
    if n <= 0 {
        (0, 0)
    } else {
        let prev = sides_upto(world, raster, n - 1);
        (prev.0 + wet_sides(world, raster[n - 1], 4), prev.1 + open_sides(world, raster[n - 1], 4))
    }
}

/// Counts the open sides of `pos` that hold liquid and all its open sides.
fn side_counts(world: &FxHashMap<u64, Occupant>, pos: CellPos) -> (r: (u32, u32))
    requires
        i32::MIN < pos.x < i32::MAX,
        i32::MIN < pos.y < i32::MAX,
    ensures
        r.0 == wet_sides(world@, pos, 4),
        r.1 == open_sides(world@, pos, 4),
        r.0 <= r.1 <= 4,
{
    let mut wet: u32 = 0;
    let mut open: u32 = 0;
    let mut d: u32 = 0;
    while d < 4
        invariant
            i32::MIN < pos.x < i32::MAX,
            i32::MIN < pos.y < i32::MAX,
            0 <= d <= 4,
            wet == wet_sides(world@, pos, d as int),
            open == open_sides(world@, pos, d as int),
            wet <= open <= d,
        decreases 4 - d,
    {
        let side = if d == 0 {
            CellPos { x: pos.x + 1, y: pos.y }
        } else if d == 1 {
            CellPos { x: pos.x - 1, y: pos.y }
        } else if d == 2 {
            CellPos { x: pos.x, y: pos.y + 1 }
        } else {
            CellPos { x: pos.x, y: pos.y - 1 }
        };
        assert(side == side_cell(pos, d as int));
        match fx_map_get(world, key_of(side)) {
            Some(cell) => {
                let unowned = match cell.owner {
                    Some(_) => false,
                    None => true,
                };
                if unowned {
                    open = open + 1;
                    let liquid = match cell.phase {
                        Phase::Liquid => true,
                        _ => false,
                    };
                    if liquid {
                        wet = wet + 1;
                    }
                }
            },
            None => {},
        }
        d = d + 1;
    }
    (wet, open)
}

/// The cells right below the cells of a body with id `id` that hold it up, in raster
/// order: loaded, not the body's own, and solid or powder. A cell on the lowest row
/// has nothing below it.
pub open spec fn supports_below(world: Map<u64, Occupant>, id: u32, raster: Seq<CellPos>) -> Seq<CellPos>
    decreases raster.len(),
{
    if raster.len() == 0 {
        Seq::empty()
    } else {
        let prev = supports_below(world, id, raster.drop_last());
        let below = CellPos { x: raster.last().x, y: (raster.last().y - 1) as i32 };
        let k = cell_key(below);
        if raster.last().y > i32::MIN && world.contains_key(k) && world[k].owner != Some(id)
            && (world[k].phase == Phase::Solid || world[k].phase == Phase::Powder) {
            prev.push(below)
        } else {
            prev
        }
    }
}

impl Bodies {
    /// How far body `id` is surrounded by liquid: over the four sides of each of its
    /// cells, the loaded cells that no body owns and how many of them hold liquid,
    /// as `(liquid, total)`; `(0, 0)` when there is no such body.
    pub fn submersion_counts(&self, world: &FxHashMap<u64, Occupant>, id: u32) -> (r: (u32, u32))
        requires
            self.wf(),
            body_of(self.bodies@, id) matches Some(i) ==> {
                &&& self.bodies@[i].raster@.len() * 4 <= u32::MAX
                &&& forall|k: int| 0 <= k < self.bodies@[i].raster@.len() ==>
                    i32::MIN < (#[trigger] self.bodies@[i].raster@[k]).x < i32::MAX
                    && i32::MIN < self.bodies@[i].raster@[k].y < i32::MAX
            },
        ensures
            body_of(self.bodies@, id) is None ==> r == (0u32, 0u32),
            body_of(self.bodies@, id) matches Some(i) ==> {
                let s = sides_upto(world@, self.bodies@[i].raster@, self.bodies@[i].raster@.len() as int);
                r.0 == s.0 && r.1 == s.1
            },
    {
        let index = match self.lookup(id) {
            Some(i) => i,
            None => {
                return (0, 0);
            },
        };
        let raster = &self.bodies[index].raster;
        let mut liquid: u32 = 0;
        let mut total: u32 = 0;
        let mut k: usize = 0;
        while k < raster.len()
            invariant
                raster@.len() * 4 <= u32::MAX,
                forall|k: int| 0 <= k < raster@.len() ==>
                    i32::MIN < (#[trigger] raster@[k]).x < i32::MAX && i32::MIN < raster@[k].y < i32::MAX,
                0 <= k <= raster@.len(),
                liquid == sides_upto(world@, raster@, k as int).0,
                total == sides_upto(world@, raster@, k as int).1,
                liquid <= total <= 4 * k,
            decreases raster@.len() - k,
        {
            let (wet, open) = side_counts(world, raster[k]);
            liquid = liquid + wet;
            total = total + open;
            k = k + 1;
        }
        (liquid, total)
    }

    /// The cells right below body `id` that hold it up (loaded, not its own, solid or
    /// powder), in raster order; `None` when there is no such body.
    pub fn support_cells(&self, world: &FxHashMap<u64, Occupant>, id: u32) -> (r: Option<Vec<CellPos>>)
        requires
            self.wf(),
        ensures
            body_of(self.bodies@, id) is None ==> r is None,
            body_of(self.bodies@, id) matches Some(i) ==> r matches Some(v)
                && v@ == supports_below(world@, id, self.bodies@[i].raster@),
    {
        let index = match self.lookup(id) {
            Some(i) => i,
            None => {
                return None;
            },
        };
        let raster = &self.bodies[index].raster;
        let mut out: Vec<CellPos> = Vec::new();
        let mut k: usize = 0;
        while k < raster.len()
            invariant
                0 <= k <= raster@.len(),
                out@ == supports_below(world@, id, raster@.subrange(0, k as int)),
            decreases raster@.len() - k,
        {
            let pos = raster[k];
            proof {
                let next = raster@.subrange(0, k + 1);
                assert(next.drop_last() =~= raster@.subrange(0, k as int));
                assert(next.last() == pos);
            }
            if pos.y == i32::MIN {
                k = k + 1;
                continue;
            }
            let below = CellPos { x: pos.x, y: pos.y - 1 };
            match fx_map_get(world, key_of(below)) {
                Some(cell) => {
                    let own = match cell.owner {
                        Some(o) => o == id,
                        None => false,
                    };
                    let firm = match cell.phase {
                        Phase::Solid => true,
                        Phase::Powder => true,
                        _ => false,
                    };
                    if !own && firm {
                        out.push(below);
                    }
                },
                None => {},
            }
            k = k + 1;
        }
        proof {
            assert(raster@.subrange(0, raster@.len() as int) =~= raster@);
        }
        Some(out)
    }
}

} // verus!
