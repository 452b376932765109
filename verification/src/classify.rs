//! The collision classification of a round: what each proposal's entered cells
//! show, and what follows for the proposal (contacts, dependencies on other
//! proposals, or parking).
use vstd::prelude::*;
use rustc_hash::FxHashMap;
use crate::geometry::{CellPos, Phase, Q16, q16_product};
use crate::contact::{Contact, Peer, CellState};
use crate::fx::{fx_map_get, fx_map_insert};
use crate::raster::{cell_key, key_of};
use crate::rotation::{abs, speed_at_spec};
use crate::state::{Body, cell_center_spec};
use crate::rounds::{
    Proposal, Mover, FreedomState, Classification, classify_outcome, apply_classification, waits_on_peer,
    pair_restitution, pair_restitution_of, only_cancellations,
};
use crate::journal::freedom_index;

verus! {

/// What the world shows at a cell a proposal enters: the body that owns it, the
/// phase of its material, whether its chunk is simulated, whether it is air,
/// whether it already moved this tick, whether it is a stressed grain, its
/// velocity, and its material's restitution, friction, mass and repose layers.
#[derive(Debug, Clone, Copy, PartialEq, Eq)]
pub struct Sighting {
    pub owner: Option<u32>,
    pub phase: Phase,
    pub simulated: bool,
    pub air: bool,
    pub moved: bool,
    pub stressed: bool,
    pub vx: i32,
    pub vy: i32,
    pub restitution: Q16,
    pub friction: Q16,
    pub mass: i64,
    pub repose_layers: u8,
}

/// What one entered cell means for a proposal.
#[derive(Debug, Clone, Copy)]
pub enum Effect {
    /// The cell is not loaded or not simulated.
    Unloaded,
    /// Nothing stands in the way.
    Pass,
    /// A cell that already moved this tick is in the way.
    Busy,
    /// The cell is another moving body's: the proposal waits on that body's proposal.
    Wait(usize),
    /// The body touches something there.
    Touch(Contact),
}

/// The last proposal among the first `n` that is no probe and moves body `b`.
pub open spec fn moving_of(props: Seq<Proposal>, b: int, n: int) -> Option<int>
    decreases n,
{
    if n <= 0 {
        None
    } else if !props[n - 1].probe && props[n - 1].body == b {
        Some(n - 1)
    } else {
        moving_of(props, b, n - 1)
    }
}

/// A contact of body `body` entering `at` from `from`.
pub open spec fn contact_of(body: usize, at: CellPos, from: CellPos, peer: Peer, restitution: Q16, friction: Q16) -> Contact {
    Contact {
        body,
        from,
        at,
        normal: ((from.x - at.x) as i32, (from.y - at.y) as i32),
        peer,
        restitution,
        friction,
        target: 0,
        push: 0,
        drag: 0,
    }
}

/// The motion state of a grain that takes part in contacts: a stressed grain starts
/// with no vertical motion.
pub open spec fn grain_state(v: Sighting) -> CellState {
    let vy: i64 = if v.stressed { 0 } else { v.vy as i64 };
    CellState { mass: v.mass, vx: v.vx as i64, vy, start_vx: v.vx as i64, start_vy: vy }
}

/// Whether a body entering a grain from `from` pushes hard enough to move it: the
/// closing speed of the body's material at the grain, times the reduced mass, over
/// the squared length of the normal, above the grain's resistance (its repose
/// layers times gravity times its mass). Otherwise the grain holds like terrain.
pub open spec fn grain_yields(my: Body, com: (i64, i64), v: Sighting, at: CellPos, from: CellPos, gravity: int, units: int) -> bool {
    let px = my.vx - speed_at_spec(my.spin.0 as int, cell_center_spec(at.y as int, units) - com.1);
    let py = my.vy + speed_at_spec(my.spin.0 as int, cell_center_spec(at.x as int, units) - com.0);
    let nx = from.x - at.x;
    let ny = from.y - at.y;
    let closing = px * (-nx) + py * (-ny);
    let resistance = v.repose_layers * gravity * v.mass;
    let effective = my.mass * v.mass / (my.mass + v.mass);
    let needed = (if closing > 0 { closing } else { 0 }) * effective;
    let sq = nx * nx + ny * ny;
    needed / (if sq > 1 { sq } else { 1 }) > resistance
}

/// What entered cell `at` (entered from `from`) means for proposal `p` of the round
/// `props`, given the bodies, their centers, the index from id to body, and the world.
pub open spec fn cell_effect(
    bodies: Seq<Body>,
    coms: Seq<(i64, i64)>,
    by_id: Map<u64, usize>,
    world: Map<u64, Sighting>,
    props: Seq<Proposal>,
    body: usize,
    probe: bool,
    at: CellPos,
    from: CellPos,
    gravity: int,
    units: int,
) -> Effect {
    let key = cell_key(at);
    let my = bodies[body as int];
    if !world.contains_key(key) || !world[key].simulated {
        Effect::Unloaded
    } else {
        let v = world[key];
        match v.owner {
            Some(id) => if id == my.id {
                Effect::Pass
            } else if by_id.contains_key(id as u64) {
                let q = by_id[id as u64];
                let peer = bodies[q as int];
                let moving = moving_of(props, q as int, props.len() as int);
                if moving is Some && !(my.vx * peer.vx + my.vy * peer.vy < 0) && !probe {
                    Effect::Wait(moving->0 as usize)
                } else {
                    Effect::Touch(contact_of(body, at, from, Peer::Body(q),
                        pair_restitution_of(my, Some(peer), Some(v.restitution)), Q16(q16_product(my.friction.0, peer.friction.0))))
                }
            } else {
                Effect::Touch(contact_of(body, at, from, Peer::Terrain,
                    pair_restitution_of(my, None, Some(v.restitution)), Q16(q16_product(my.friction.0, v.friction.0))))
            },
            None => if v.phase == Phase::Solid || v.phase == Phase::Powder {
                let peer = if v.phase == Phase::Powder && grain_yields(my, coms[body as int], v, at, from, gravity, units) {
                    Peer::Cell { pos: at, mass: v.mass }
                } else {
                    Peer::Terrain
                };
                Effect::Touch(contact_of(body, at, from, peer,
                    pair_restitution_of(my, None, Some(v.restitution)), Q16(q16_product(my.friction.0, v.friction.0))))
            } else if !v.air && v.moved {
                Effect::Busy
            } else {
                Effect::Pass
            },
        }
    }
}

/// What the first `n` entered cells of proposal `p` show: whether one is unloaded,
/// whether one is busy, the contacts and the dependencies, in order.
pub open spec fn scan(
    bodies: Seq<Body>,
    coms: Seq<(i64, i64)>,
    by_id: Map<u64, usize>,
    world: Map<u64, Sighting>,
    props: Seq<Proposal>,
    body: usize,
    probe: bool,
    entered: Seq<(CellPos, CellPos)>,
    gravity: int,
    units: int,
    n: int,
) -> (bool, bool, Seq<Contact>, Seq<(usize, CellPos, CellPos)>)
    decreases n,
{
    if n <= 0 {
        (false, false, Seq::empty(), Seq::empty())
    } else {
        let prev = scan(bodies, coms, by_id, world, props, body, probe, entered, gravity, units, n - 1);
        let (at, from) = entered[n - 1];
        match cell_effect(bodies, coms, by_id, world, props, body, probe, at, from, gravity, units) {
            Effect::Unloaded => (true, prev.1, prev.2, prev.3),
            Effect::Pass => prev,
            Effect::Busy => (prev.0, true, prev.2, prev.3),
            Effect::Wait(q) => (prev.0, prev.1, prev.2, prev.3.push((q, at, from))),
            Effect::Touch(c) => (prev.0, prev.1, prev.2.push(c), prev.3),
        }
    }
}

/// What all entered cells of proposal `p` show.
pub open spec fn scanned(
    bodies: Seq<Body>,
    coms: Seq<(i64, i64)>,
    by_id: Map<u64, usize>,
    world: Map<u64, Sighting>,
    props: Seq<Proposal>,
    p: Proposal,
    gravity: int,
    units: int,
) -> (bool, bool, Seq<Contact>, Seq<(usize, CellPos, CellPos)>) {
    scan(bodies, coms, by_id, world, props, p.body, p.probe, p.entered@, gravity, units, p.entered@.len() as int)
}

/// The grains that contacts take part with, added (each the first time) to the
/// motion states of loose cells.
pub open spec fn seeded(cells: Map<u64, CellState>, contacts: Seq<Contact>, world: Map<u64, Sighting>) -> Map<u64, CellState>
    decreases contacts.len(),
{
    if contacts.len() == 0 {
        cells
    } else {
        let before = seeded(cells, contacts.drop_last(), world);
        let c = contacts.last();
        if c.peer is Cell && !before.contains_key(cell_key(c.at)) {
            before.insert(cell_key(c.at), grain_state(world[cell_key(c.at)]))
        } else {
            before
        }
    }
}

/// The motion states after seeding the contacts of the first `n` proposals.
pub open spec fn seeded_all(cells: Map<u64, CellState>, contacts: Seq<Vec<Contact>>, world: Map<u64, Sighting>, n: int) -> Map<u64, CellState>
    decreases n,
{
    if n <= 0 { cells } else { seeded(seeded_all(cells, contacts, world, n - 1), contacts[n - 1]@, world) }
}

/// The bodies, centers, world and proposals are within the range the
/// classification's arithmetic needs.
pub open spec fn scan_in_range(
    bodies: Seq<Body>,
    coms: Seq<(i64, i64)>,
    by_id: Map<u64, usize>,
    world: Map<u64, Sighting>,
    props: Seq<Proposal>,
    gravity: int,
    units: int,
) -> bool {
    &&& coms.len() == bodies.len()
    &&& 1 <= units <= 0x1_0000
    &&& 0 <= gravity <= 0x1_0000
    &&& forall|k: u64| #[trigger] by_id.contains_key(k) ==> (by_id[k] as int) < bodies.len()
    &&& forall|i: int| 0 <= i < bodies.len() ==> {
        &&& 1 <= (#[trigger] bodies[i]).mass <= 0x100_0000_0000
        &&& abs(bodies[i].vx as int) <= 0x1000_0000_0000
        &&& abs(bodies[i].vy as int) <= 0x1000_0000_0000
        &&& abs(bodies[i].spin.0 as int) <= 0x100_0000
        &&& abs(coms[i].0 as int) <= 0x1000_0000_0000
        &&& abs(coms[i].1 as int) <= 0x1000_0000_0000
    }
    &&& forall|k: u64| #[trigger] world.contains_key(k) ==> 1 <= world[k].mass <= 0x8000_0000
    &&& forall|p: int| 0 <= p < props.len() ==> {
        &&& ((#[trigger] props[p]).body as int) < bodies.len()
        &&& forall|e: int| 0 <= e < props[p].entered@.len() ==> {
            &&& -1 <= (#[trigger] props[p].entered@[e]).1.x - props[p].entered@[e].0.x <= 1
            &&& -1 <= props[p].entered@[e].1.y - props[p].entered@[e].0.y <= 1
        }
    }
}

/// The proposal that moves each body (its last one that is no probe), by body index.
fn moving_index(proposals: &Vec<Proposal>) -> (m: FxHashMap<u64, usize>)
    ensures
        forall|b: usize| #[trigger] m@.contains_key(b as u64) <==> moving_of(proposals@, b as int, proposals@.len() as int) is Some,
        forall|b: usize| #[trigger] m@.contains_key(b as u64) ==> moving_of(proposals@, b as int, proposals@.len() as int) == Some(m@[b as u64] as int),
{
    let mut m: FxHashMap<u64, usize> = FxHashMap::default();
    let mut p: usize = 0;
    while p < proposals.len()
        invariant
            0 <= p <= proposals@.len(),
            forall|b: usize| #[trigger] m@.contains_key(b as u64) <==> moving_of(proposals@, b as int, p as int) is Some,
            forall|b: usize| #[trigger] m@.contains_key(b as u64) ==> moving_of(proposals@, b as int, p as int) == Some(m@[b as u64] as int),
        decreases proposals@.len() - p,
    {
        if !proposals[p].probe {
            let b = proposals[p].body;
            fx_map_insert(&mut m, b as u64, p);
            proof {
                assert forall|c: usize| #[trigger] m@.contains_key(c as u64) <==> moving_of(proposals@, c as int, p + 1) is Some by {
                    if c != b {
                        assert(c as u64 != b as u64);
                    }
                }
                assert forall|c: usize| #[trigger] m@.contains_key(c as u64) implies moving_of(proposals@, c as int, p + 1) == Some(m@[c as u64] as int) by {
                    if c != b {
                        assert(c as u64 != b as u64);
                    }
                }
            }
        }
        p = p + 1;
    }
    m
}

/// Whether a body entering a grain pushes hard enough to move it.
fn yields(my: &Body, com: (i64, i64), v: Sighting, at: CellPos, from: CellPos, gravity: i64, units: i64) -> (r: bool)
    requires
        1 <= units <= 0x1_0000,
        0 <= gravity <= 0x1_0000,
        1 <= my.mass <= 0x100_0000_0000,
        abs(my.vx as int) <= 0x1000_0000_0000,
        abs(my.vy as int) <= 0x1000_0000_0000,
        abs(my.spin.0 as int) <= 0x100_0000,
        abs(com.0 as int) <= 0x1000_0000_0000,
        abs(com.1 as int) <= 0x1000_0000_0000,
        1 <= v.mass <= 0x8000_0000,
        -1 <= from.x - at.x <= 1,
        -1 <= from.y - at.y <= 1,
    ensures
        r == grain_yields(*my, com, v, at, from, gravity as int, units as int),
{
    let point = my.point_velocity(com, at, units);
    let nx: i64 = (from.x as i64) - (at.x as i64);
    let ny: i64 = (from.y as i64) - (at.y as i64);
    proof {
        assert(-0x8000_0000 * 0x1_0000 <= at.x * units <= 0x8000_0000 * 0x1_0000) by (nonlinear_arith)
            requires
                -0x8000_0000 <= at.x <= 0x8000_0000,
                1 <= units <= 0x1_0000,
        ;
        assert(-0x8000_0000 * 0x1_0000 <= at.y * units <= 0x8000_0000 * 0x1_0000) by (nonlinear_arith)
            requires
                -0x8000_0000 <= at.y <= 0x8000_0000,
                1 <= units <= 0x1_0000,
        ;    crate::state::lemma_speed_bounded(my.spin.0 as int, cell_center_spec(at.y as int, units as int) - com.1);
        crate::state::lemma_speed_bounded(my.spin.0 as int, cell_center_spec(at.x as int, units as int) - com.0);
    }
    let ax: i128 = point.0 as i128;
    let ay: i128 = point.1 as i128;
    let mx: i128 = -nx as i128;
    let my_: i128 = -ny as i128;
    proof {
        assert(-0x8000_0000_0000_0000 <= ax * mx <= 0x8000_0000_0000_0000) by (nonlinear_arith)
            requires
                -0x8000_0000_0000_0000 <= ax <= 0x8000_0000_0000_0000,
                -1 <= mx <= 1,
        ;
        assert(-0x8000_0000_0000_0000 <= ay * my_ <= 0x8000_0000_0000_0000) by (nonlinear_arith)
            requires
                -0x8000_0000_0000_0000 <= ay <= 0x8000_0000_0000_0000,
                -1 <= my_ <= 1,
        ;
        assert(0 <= mx * mx <= 1 && 0 <= my_ * my_ <= 1 && mx * mx == nx * nx && my_ * my_ == ny * ny) by (nonlinear_arith)
            requires
                -1 <= mx <= 1,
                -1 <= my_ <= 1,
                mx == -nx,
                my_ == -ny,
        ;
    }
    let closing: i128 = ax * mx + ay * my_;
    let vm: i128 = v.mass as i128;
    let bm: i128 = my.mass as i128;
    proof {
        assert(0 <= (v.repose_layers as int) * gravity <= 0xff * 0x1_0000) by (nonlinear_arith)
            requires
                0 <= gravity <= 0x1_0000,
                v.repose_layers <= 0xff,
        ;
        assert(0 <= (v.repose_layers as int) * gravity * vm <= 0xff * 0x1_0000 * 0x8000_0000) by (nonlinear_arith)
            requires
                0 <= (v.repose_layers as int) * gravity <= 0xff * 0x1_0000,
                1 <= vm <= 0x8000_0000,
        ;
        assert(0 <= bm * vm <= 0x100_0000_0000 * 0x8000_0000) by (nonlinear_arith)
            requires
                1 <= bm <= 0x100_0000_0000,
                1 <= vm <= 0x8000_0000,
        ;
        assert(bm * vm <= bm * (bm + vm)) by (nonlinear_arith)
            requires
                1 <= bm,
                1 <= vm,
        ;
        assert(bm * vm / (bm + vm) <= bm) by (nonlinear_arith)
            requires
                0 <= bm * vm <= bm * (bm + vm),
                1 <= bm + vm,
        ;
        assert(bm * vm / (bm + vm) >= 0) by (nonlinear_arith)
            requires
                0 <= bm * vm,
                1 <= bm + vm,
        ;
    }
    let resistance: i128 = (v.repose_layers as i128) * (gravity as i128) * vm;
    let effective: i128 = bm * vm / (bm + vm);
    let pressed: i128 = if closing > 0 { closing } else { 0 };
    proof {
        assert(0 <= pressed * effective <= 0x1_0000_0000_0000_0000 * 0x100_0000_0000) by (nonlinear_arith)
            requires
                0 <= pressed <= 0x1_0000_0000_0000_0000,
                0 <= effective <= 0x100_0000_0000,
        ;
    }
    let needed: i128 = pressed * effective;
    let sq: i128 = (mx * mx + my_ * my_) as i128;
    let divisor: i128 = if sq > 1 { sq } else { 1 };
    needed / divisor > resistance
}

/// What entered cell `at` (entered from `from`) means for proposal `p`.
fn effect_of(
    bodies: &Vec<Body>,
    coms: &Vec<(i64, i64)>,
    by_id: &FxHashMap<u64, usize>,
    world: &FxHashMap<u64, Sighting>,
    proposals: &Vec<Proposal>,
    moving: &FxHashMap<u64, usize>,
    b: usize,
    probe: bool,
    at: CellPos,
    from: CellPos,
    gravity: i64,
    units: i64,
) -> (e: Effect)
    requires
        scan_in_range(bodies@, coms@, by_id@, world@, proposals@, gravity as int, units as int),
        (b as int) < bodies@.len(),
        -1 <= from.x - at.x <= 1,
        -1 <= from.y - at.y <= 1,
        forall|b: usize| #[trigger] moving@.contains_key(b as u64) <==> moving_of(proposals@, b as int, proposals@.len() as int) is Some,
        forall|b: usize| #[trigger] moving@.contains_key(b as u64) ==> moving_of(proposals@, b as int, proposals@.len() as int) == Some(moving@[b as u64] as int),
    ensures
        e == cell_effect(bodies@, coms@, by_id@, world@, proposals@, b, probe, at, from, gravity as int, units as int),
{
    let my = &bodies[b];
    let v = match fx_map_get(world, key_of(at)) {
        None => {
            return Effect::Unloaded;
        },
        Some(v) => v,
    };
    if !v.simulated {
        return Effect::Unloaded;
    }
    let normal: (i32, i32) = (from.x - at.x, from.y - at.y);
    match v.owner {
        Some(id) => {
            if id == my.id {
                return Effect::Pass;
            }
            match fx_map_get(by_id, id as u64) {
                Some(q) => {
                    let peer = &bodies[q];
                    let moving_proposal = fx_map_get(moving, q as u64);
                    if waits_on_peer(my, peer, moving_proposal.is_some(), probe) {
                        proof {
                            assert(moving@.contains_key(q as u64));
                        }
                        match moving_proposal {
                            Some(m) => Effect::Wait(m),
                            None => Effect::Pass,
                        }
                    } else {
                        Effect::Touch(Contact {
                            body: b,
                            from,
                            at,
                            normal,
                            peer: Peer::Body(q),
                            restitution: pair_restitution(my, Some(peer), Some(v.restitution)),
                            friction: my.friction.mul(peer.friction),
                            target: 0,
                            push: 0,
                            drag: 0,
                        })
                    }
                },
                None => Effect::Touch(Contact {
                    body: b,
                    from,
                    at,
                    normal,
                    peer: Peer::Terrain,
                    restitution: pair_restitution(my, None, Some(v.restitution)),
                    friction: my.friction.mul(v.friction),
                    target: 0,
                    push: 0,
                    drag: 0,
                }),
            }
        },
        None => {
            if matches!(v.phase, Phase::Solid | Phase::Powder) {
                let grain = matches!(v.phase, Phase::Powder);
                let peer = if grain && yields(my, coms[b], v, at, from, gravity, units) {
                    Peer::Cell { pos: at, mass: v.mass }
                } else {
                    Peer::Terrain
                };
                Effect::Touch(Contact {
                    body: b,
                    from,
                    at,
                    normal,
                    peer,
                    restitution: pair_restitution(my, None, Some(v.restitution)),
                    friction: my.friction.mul(v.friction),
                    target: 0,
                    push: 0,
                    drag: 0,
                })
            } else if !v.air && v.moved {
                Effect::Busy
            } else {
                Effect::Pass
            }
        },
    }
}

/// What the entered cells of the `q`-th proposal of the round `props` show.
pub open spec fn scan_of(
    bodies: Seq<Body>,
    coms: Seq<(i64, i64)>,
    by_id: Map<u64, usize>,
    world: Map<u64, Sighting>,
    props: Seq<Proposal>,
    gravity: int,
    units: int,
    q: int,
) -> (bool, bool, Seq<Contact>, Seq<(usize, CellPos, CellPos)>) {
    scanned(bodies, coms, by_id, world, props, props[q], gravity, units)
}

/// The outcome for the `q`-th proposal.
pub open spec fn outcome_of(
    bodies: Seq<Body>,
    coms: Seq<(i64, i64)>,
    by_id: Map<u64, usize>,
    world: Map<u64, Sighting>,
    props: Seq<Proposal>,
    gravity: int,
    units: int,
    q: int,
) -> Classification {
    let s = scan_of(bodies, coms, by_id, world, props, gravity, units, q);
    if s.0 { Classification::Unloaded } else if s.2.len() > 0 { Classification::Touched } else if s.1 { Classification::Busy } else { Classification::Clear }
}

/// Whether one of the first `n` proposals that moves body `b` met an unloaded cell.
pub open spec fn parks_body(
    bodies: Seq<Body>,
    coms: Seq<(i64, i64)>,
    by_id: Map<u64, usize>,
    world: Map<u64, Sighting>,
    props: Seq<Proposal>,
    gravity: int,
    units: int,
    b: int,
    n: int,
) -> bool
    decreases n,
{
    if n <= 0 {
        false
    } else {
        parks_body(bodies, coms, by_id, world, props, gravity, units, b, n - 1)
            || (props[n - 1].body == b && outcome_of(bodies, coms, by_id, world, props, gravity, units, n - 1) == Classification::Unloaded)
    }
}

/// Whether one of the first `n` proposals of body `b` along freedom `i` found a
/// busy cell in its way (and nothing else).
pub open spec fn parks_freedom(
    bodies: Seq<Body>,
    coms: Seq<(i64, i64)>,
    by_id: Map<u64, usize>,
    world: Map<u64, Sighting>,
    props: Seq<Proposal>,
    gravity: int,
    units: int,
    b: int,
    i: int,
    n: int,
) -> bool
    decreases n,
{
    if n <= 0 {
        false
    } else {
        parks_freedom(bodies, coms, by_id, world, props, gravity, units, b, i, n - 1)
            || (props[n - 1].body == b && freedom_index(props[n - 1].freedom) == i
                && outcome_of(bodies, coms, by_id, world, props, gravity, units, n - 1) == Classification::Busy)
    }
}

/// The bodies, in proposal order, whose proposals among the first `n` met an
/// unloaded cell.
pub open spec fn parked_list(
    bodies: Seq<Body>,
    coms: Seq<(i64, i64)>,
    by_id: Map<u64, usize>,
    world: Map<u64, Sighting>,
    props: Seq<Proposal>,
    gravity: int,
    units: int,
    n: int,
) -> Seq<usize>
    decreases n,
{
    if n <= 0 {
        Seq::empty()
    } else if outcome_of(bodies, coms, by_id, world, props, gravity, units, n - 1) == Classification::Unloaded {
        parked_list(bodies, coms, by_id, world, props, gravity, units, n - 1).push(props[n - 1].body)
    } else {
        parked_list(bodies, coms, by_id, world, props, gravity, units, n - 1)
    }
}

/// Steps between cells are unit steps.
pub open spec fn unit_steps(entered: Seq<(CellPos, CellPos)>) -> bool {
    forall|e: int| 0 <= e < entered.len() ==> {
        &&& -1 <= (#[trigger] entered[e]).1.x - entered[e].0.x <= 1
        &&& -1 <= entered[e].1.y - entered[e].0.y <= 1
    }
}

/// What the entered cells `entered` of a proposal of body `b` show, seeding the
/// grains its contacts take part with into `cells`.
fn scan_proposal(
    bodies: &Vec<Body>,
    coms: &Vec<(i64, i64)>,
    by_id: &FxHashMap<u64, usize>,
    world: &FxHashMap<u64, Sighting>,
    proposals: &Vec<Proposal>,
    moving: &FxHashMap<u64, usize>,
    b: usize,
    probe: bool,
    entered: &Vec<(CellPos, CellPos)>,
    gravity: i64,
    units: i64,
    cells: &mut FxHashMap<u64, CellState>,
) -> (r: (bool, bool, Vec<Contact>, Vec<(usize, CellPos, CellPos)>))
    requires
        scan_in_range(bodies@, coms@, by_id@, world@, proposals@, gravity as int, units as int),
        (b as int) < bodies@.len(),
        unit_steps(entered@),
        forall|c: usize| #[trigger] moving@.contains_key(c as u64) <==> moving_of(proposals@, c as int, proposals@.len() as int) is Some,
        forall|c: usize| #[trigger] moving@.contains_key(c as u64) ==> moving_of(proposals@, c as int, proposals@.len() as int) == Some(moving@[c as u64] as int),
    ensures
        (r.0, r.1, r.2@, r.3@) == scan(bodies@, coms@, by_id@, world@, proposals@, b, probe, entered@, gravity as int, units as int, entered@.len() as int),
        final(cells)@ == seeded(old(cells)@, r.2@, world@),
{
    let mut unloaded = false;
    let mut busy = false;
    let mut contacts: Vec<Contact> = Vec::new();
    let mut deps: Vec<(usize, CellPos, CellPos)> = Vec::new();
    let mut k: usize = 0;
    while k < entered.len()
        invariant
            0 <= k <= entered@.len(),
            scan_in_range(bodies@, coms@, by_id@, world@, proposals@, gravity as int, units as int),
            (b as int) < bodies@.len(),
            unit_steps(entered@),
            forall|c: usize| #[trigger] moving@.contains_key(c as u64) <==> moving_of(proposals@, c as int, proposals@.len() as int) is Some,
            forall|c: usize| #[trigger] moving@.contains_key(c as u64) ==> moving_of(proposals@, c as int, proposals@.len() as int) == Some(moving@[c as u64] as int),
            (unloaded, busy, contacts@, deps@) == scan(bodies@, coms@, by_id@, world@, proposals@, b, probe, entered@, gravity as int, units as int, k as int),
            cells@ == seeded(old(cells)@, contacts@, world@),
        decreases entered@.len() - k,
    {
        let (at, from) = entered[k];
        proof {
            assert(-1 <= entered@[k as int].1.x - entered@[k as int].0.x <= 1);
        }
        let e = effect_of(bodies, coms, by_id, world, proposals, moving, b, probe, at, from, gravity, units);
        let ghost before = contacts@;
        match e {
            Effect::Unloaded => {
                unloaded = true;
            },
            Effect::Pass => {},
            Effect::Busy => {
                busy = true;
            },
            Effect::Wait(q) => {
                deps.push((q, at, from));
            },
            Effect::Touch(c) => {
                contacts.push(c);
                proof {
                    assert(contacts@.drop_last() =~= before);
                }
                let grain = match c.peer {
                    Peer::Cell { .. } => true,
                    _ => false,
                };
                if grain {
                    let key = key_of(at);
                    if fx_map_get(cells, key).is_none() {
                        match fx_map_get(world, key) {
                            Some(v) => {
                                let vy: i64 = if v.stressed { 0 } else { v.vy as i64 };
                                fx_map_insert(cells, key, CellState { mass: v.mass, vx: v.vx as i64, vy, start_vx: v.vx as i64, start_vy: vy });
                            },
                            None => {},
                        }
                    }
                }
            },
        }
        k = k + 1;
    }
    (unloaded, busy, contacts, deps)
}

proof fn lemma_moving_same(a: Seq<Proposal>, b: Seq<Proposal>, c: int, n: int)
    requires
        a.len() == b.len(),
        n <= a.len(),
        forall|q: int| 0 <= q < a.len() ==> (#[trigger] a[q]).body == b[q].body && a[q].probe == b[q].probe,
    ensures
        moving_of(a, c, n) == moving_of(b, c, n),
    decreases n,
{
    if n > 0 {
        lemma_moving_same(a, b, c, n - 1);
        assert(a[n - 1].body == b[n - 1].body && a[n - 1].probe == b[n - 1].probe);
    }
}

proof fn lemma_scan_same(
    bodies: Seq<Body>,
    coms: Seq<(i64, i64)>,
    by_id: Map<u64, usize>,
    world: Map<u64, Sighting>,
    a: Seq<Proposal>,
    b: Seq<Proposal>,
    body: usize,
    probe: bool,
    entered: Seq<(CellPos, CellPos)>,
    gravity: int,
    units: int,
    n: int,
)
    requires
        a.len() == b.len(),
        n <= entered.len(),
        forall|q: int| 0 <= q < a.len() ==> (#[trigger] a[q]).body == b[q].body && a[q].probe == b[q].probe,
    ensures
        scan(bodies, coms, by_id, world, a, body, probe, entered, gravity, units, n)
            == scan(bodies, coms, by_id, world, b, body, probe, entered, gravity, units, n),
    decreases n,
{
    if n > 0 {
        lemma_scan_same(bodies, coms, by_id, world, a, b, body, probe, entered, gravity, units, n - 1);
        assert forall|c: int| moving_of(a, c, a.len() as int) == moving_of(b, c, b.len() as int) by {
            lemma_moving_same(a, b, c, a.len() as int);
        }
        let (at, from) = entered[n - 1];
        assert(cell_effect(bodies, coms, by_id, world, a, body, probe, at, from, gravity, units)
            == cell_effect(bodies, coms, by_id, world, b, body, probe, at, from, gravity, units));
    }
}

/// Classifies the proposals of a round by what their entered cells show, given the
/// bodies, their centers of mass, the index from id to body, the world, gravity and
/// the cell size. Per proposal: the cells entered are scanned in order (`scan_of`);
/// a cell of another body that moves this round, while the two bodies do not cross
/// and the proposal is no probe, adds a dependency on that body's moving proposal;
/// anything else touched adds a contact; grains that a contact moves get their
/// motion state in `cells`. Then the outcome (`outcome_of`, as `classify_outcome`
/// gives it from the unloaded, touched and busy facts) is carried out: an unloaded
/// proposal parks its body's freedoms and cancels all its proposals, a touched one
/// is refused, a busy one parks its freedom and is canceled. Returns the bodies newly
/// parked, in proposal order, and each proposal's contacts.
pub fn classify(
    bodies: &Vec<Body>,
    coms: &Vec<(i64, i64)>,
    by_id: &FxHashMap<u64, usize>,
    world: &FxHashMap<u64, Sighting>,
    cells: &mut FxHashMap<u64, CellState>,
    movers: &mut Vec<Mover>,
    proposals: &mut Vec<Proposal>,
    gravity: i64,
    units: i64,
) -> (r: (Vec<usize>, Vec<Vec<Contact>>))
    requires
        scan_in_range(bodies@, coms@, by_id@, world@, old(proposals)@, gravity as int, units as int),
        forall|p: int| 0 <= p < old(proposals)@.len() ==> ((#[trigger] old(proposals)@[p]).body as int) < old(movers)@.len(),
    ensures
        ({
            let o = old(proposals)@;
            let n = o.len() as int;
            &&& final(proposals)@.len() == n
            &&& final(movers)@.len() == old(movers)@.len()
            &&& r.0@ == parked_list(bodies@, coms@, by_id@, world@, o, gravity as int, units as int, n)
            &&& r.1@.len() == n
            &&& final(cells)@ == seeded_all(old(cells)@, r.1@, world@, n)
            &&& forall|q: int| 0 <= q < n ==> {
                let s = scan_of(bodies@, coms@, by_id@, world@, o, gravity as int, units as int, q);
                let c = outcome_of(bodies@, coms@, by_id@, world@, o, gravity as int, units as int, q);
                &&& (#[trigger] final(proposals)@[q]).body == o[q].body
                &&& final(proposals)@[q].freedom == o[q].freedom
                &&& final(proposals)@[q].sign == o[q].sign
                &&& final(proposals)@[q].probe == o[q].probe
                &&& final(proposals)@[q].entered@ == o[q].entered@
                &&& final(proposals)@[q].candidate@ == o[q].candidate@
                &&& final(proposals)@[q].committed == o[q].committed
                &&& final(proposals)@[q].deps@ == o[q].deps@ + s.3
                &&& r.1@[q]@ == s.2
                &&& final(proposals)@[q].refused == (o[q].refused || c == Classification::Touched)
                &&& final(proposals)@[q].canceled == (o[q].canceled || c == Classification::Busy
                    || parks_body(bodies@, coms@, by_id@, world@, o, gravity as int, units as int, o[q].body as int, n))
            }
            &&& forall|b: int, i: int| 0 <= b < old(movers)@.len() && 0 <= i < 3 ==> {
                &&& (#[trigger] final(movers)@[b].freedoms@[i]).parked == (old(movers)@[b].freedoms@[i].parked
                    || parks_body(bodies@, coms@, by_id@, world@, o, gravity as int, units as int, b, n)
                    || parks_freedom(bodies@, coms@, by_id@, world@, o, gravity as int, units as int, b, i, n))
                &&& final(movers)@[b].freedoms@[i].probed == old(movers)@[b].freedoms@[i].probed
            }
        }),
{
    let ghost o = proposals@;
    let ghost m0 = movers@;
    let ghost c0 = cells@;
    let ghost g = gravity as int;
    let ghost u = units as int;
    let moving = moving_index(proposals);
    let mut newly: Vec<usize> = Vec::new();
    let mut out: Vec<Vec<Contact>> = Vec::new();
    let n = proposals.len();
    let mut p: usize = 0;
    while p < n
        invariant
            n == o.len(),
            0 <= p <= n,
            scan_in_range(bodies@, coms@, by_id@, world@, o, g, u),
            g == gravity as int,
            u == units as int,
            forall|q: int| 0 <= q < o.len() ==> ((#[trigger] o[q]).body as int) < m0.len(),
            forall|c: usize| #[trigger] moving@.contains_key(c as u64) <==> moving_of(o, c as int, o.len() as int) is Some,
            forall|c: usize| #[trigger] moving@.contains_key(c as u64) ==> moving_of(o, c as int, o.len() as int) == Some(moving@[c as u64] as int),
            proposals@.len() == n,
            movers@.len() == m0.len(),
            forall|q: int| 0 <= q < n ==> {
                &&& (#[trigger] proposals@[q]).body == o[q].body
                &&& proposals@[q].freedom == o[q].freedom
                &&& proposals@[q].sign == o[q].sign
                &&& proposals@[q].probe == o[q].probe
                &&& proposals@[q].entered@ == o[q].entered@
                &&& proposals@[q].candidate@ == o[q].candidate@
                &&& proposals@[q].committed == o[q].committed
                &&& proposals@[q].deps@ == (if q < p { o[q].deps@ + scan_of(bodies@, coms@, by_id@, world@, o, g, u, q).3 } else { o[q].deps@ })
                &&& proposals@[q].refused == (o[q].refused || (q < p && outcome_of(bodies@, coms@, by_id@, world@, o, g, u, q) == Classification::Touched))
                &&& proposals@[q].canceled == (o[q].canceled || (q < p && outcome_of(bodies@, coms@, by_id@, world@, o, g, u, q) == Classification::Busy)
                    || parks_body(bodies@, coms@, by_id@, world@, o, g, u, o[q].body as int, p as int))
            },
            out@.len() == p,
            forall|q: int| 0 <= q < p ==> (#[trigger] out@[q])@ == scan_of(bodies@, coms@, by_id@, world@, o, g, u, q).2,
            newly@ == parked_list(bodies@, coms@, by_id@, world@, o, g, u, p as int),
            cells@ == seeded_all(c0, out@, world@, p as int),
            forall|b: int, i: int| 0 <= b < m0.len() && 0 <= i < 3 ==> {
                &&& (#[trigger] movers@[b].freedoms@[i]).parked == (m0[b].freedoms@[i].parked
                    || parks_body(bodies@, coms@, by_id@, world@, o, g, u, b, p as int)
                    || parks_freedom(bodies@, coms@, by_id@, world@, o, g, u, b, i, p as int))
                &&& movers@[b].freedoms@[i].probed == m0[b].freedoms@[i].probed
            },
        decreases n - p,
    {
        let b = proposals[p].body;
        let probe = proposals[p].probe;
        proof {
            assert(proposals@[p as int].body == o[p as int].body);
            assert forall|c: int| moving_of(proposals@, c, proposals@.len() as int) == moving_of(o, c, o.len() as int) by {
                lemma_moving_same(proposals@, o, c, o.len() as int);
            }
            assert forall|e: int| 0 <= e < proposals@[p as int].entered@.len() implies {
                &&& -1 <= (#[trigger] proposals@[p as int].entered@[e]).1.x - proposals@[p as int].entered@[e].0.x <= 1
                &&& -1 <= proposals@[p as int].entered@[e].1.y - proposals@[p as int].entered@[e].0.y <= 1
            } by {
                assert(proposals@[p as int].entered@[e] == o[p as int].entered@[e]);
            }
            assert forall|q: int| 0 <= q < proposals@.len() implies {
                &&& ((#[trigger] proposals@[q]).body as int) < bodies@.len()
                &&& forall|e: int| 0 <= e < proposals@[q].entered@.len() ==> {
                    &&& -1 <= (#[trigger] proposals@[q].entered@[e]).1.x - proposals@[q].entered@[e].0.x <= 1
                    &&& -1 <= proposals@[q].entered@[e].1.y - proposals@[q].entered@[e].0.y <= 1
                }
            } by {
                assert(proposals@[q].body == o[q].body);
                assert(proposals@[q].entered@ == o[q].entered@);
            }
        }
        let ghost before_cells = cells@;
        let scanned_now = scan_proposal(bodies, coms, by_id, world, proposals, &moving, b, probe, &proposals[p].entered, gravity, units, cells);
        let (unloaded, busy, contacts, deps) = scanned_now;
        proof {
            lemma_scan_same(bodies@, coms@, by_id@, world@, proposals@, o, b, probe, o[p as int].entered@, g, u, o[p as int].entered@.len() as int);
            assert((unloaded, busy, contacts@, deps@) == scan_of(bodies@, coms@, by_id@, world@, o, g, u, p as int));
        }
        let mut joined: Vec<(usize, CellPos, CellPos)> = Vec::new();
        let mut i: usize = 0;
        while i < proposals[p].deps.len()
            invariant
                p < proposals@.len(),
                0 <= i <= proposals@[p as int].deps@.len(),
                joined@ == proposals@[p as int].deps@.subrange(0, i as int),
            decreases proposals@[p as int].deps@.len() - i,
        {
            joined.push(proposals[p].deps[i]);
            proof {
                assert(joined@ =~= proposals@[p as int].deps@.subrange(0, i + 1));
            }
            i = i + 1;
        }
        let mut j: usize = 0;
        while j < deps.len()
            invariant
                p < proposals@.len(),
                0 <= j <= deps@.len(),
                joined@ == proposals@[p as int].deps@ + deps@.subrange(0, j as int),
            decreases deps@.len() - j,
        {
            joined.push(deps[j]);
            proof {
                assert(joined@ =~= proposals@[p as int].deps@ + deps@.subrange(0, j + 1));
            }
            j = j + 1;
        }
        proof {
            assert(deps@.subrange(0, deps@.len() as int) =~= deps@);
        }
        let ghost props_before = proposals@;
        proposals[p].deps = joined;
        let ghost props_mid = proposals@;
        let ghost movers_mid = movers@;
        let touched = contacts.len() > 0;
        let outcome = classify_outcome(unloaded, touched, busy);
        let parked = apply_classification(movers, proposals, p, outcome);
        if parked {
            newly.push(b);
        }
        let ghost out_before = out@;
        out.push(contacts);
        proof {
            assert(out@.drop_last() =~= out_before);
            assert(out@[p as int]@ == scan_of(bodies@, coms@, by_id@, world@, o, g, u, p as int).2);
            assert(seeded_all(c0, out@, world@, p as int) == seeded_all(c0, out_before, world@, p as int)) by {
                lemma_seeded_all_prefix(c0, out_before, out@, world@, p as int);
            }
        }
        p = p + 1;
    }
    (newly, out)
}

proof fn lemma_seeded_all_prefix(cells: Map<u64, CellState>, a: Seq<Vec<Contact>>, b: Seq<Vec<Contact>>, world: Map<u64, Sighting>, n: int)
    requires
        n <= a.len(),
        n <= b.len(),
        forall|q: int| 0 <= q < n ==> (#[trigger] a[q])@ == b[q]@,
    ensures
        seeded_all(cells, a, world, n) == seeded_all(cells, b, world, n),
    decreases n,
{
    if n > 0 {
        lemma_seeded_all_prefix(cells, a, b, world, n - 1);
        assert(a[n - 1]@ == b[n - 1]@);
    }
}

/// The contact each refusal of `resolve_ties` brings: the refused proposal's body
/// touches the winning body at the contested cell.
pub open spec fn loss_contact(bodies: Seq<Body>, props: Seq<Proposal>, loss: (usize, CellPos, CellPos, usize)) -> Contact {
    let (x, at, from, wb) = loss;
    let b = props[x as int].body;
    let my = bodies[b as int];
    let peer = bodies[wb as int];
    contact_of(b, at, from, Peer::Body(wb), pair_restitution_of(my, Some(peer), None), Q16(q16_product(my.friction.0, peer.friction.0)))
}

/// The contacts of the refusals `resolve_ties` hands back, in order.
pub fn loss_contacts(bodies: &[Body], proposals: &Vec<Proposal>, losses: &Vec<(usize, CellPos, CellPos, usize)>) -> (r: Vec<Contact>)
    requires
        forall|k: int| 0 <= k < losses@.len() ==> ((#[trigger] losses@[k]).0 as int) < proposals@.len()
            && (proposals@[losses@[k].0 as int].body as int) < bodies@.len()
            && (losses@[k].3 as int) < bodies@.len()
            && i32::MIN <= losses@[k].2.x - losses@[k].1.x <= i32::MAX
            && i32::MIN <= losses@[k].2.y - losses@[k].1.y <= i32::MAX,
    ensures
        r@.len() == losses@.len(),
        forall|k: int| 0 <= k < losses@.len() ==> #[trigger] r@[k] == loss_contact(bodies@, proposals@, losses@[k]),
{
    let mut r: Vec<Contact> = Vec::new();
    let mut k: usize = 0;
    while k < losses.len()
        invariant
            0 <= k <= losses@.len(),
            r@.len() == k,
            forall|k: int| 0 <= k < losses@.len() ==> ((#[trigger] losses@[k]).0 as int) < proposals@.len()
                && (proposals@[losses@[k].0 as int].body as int) < bodies@.len()
                && (losses@[k].3 as int) < bodies@.len()
                && i32::MIN <= losses@[k].2.x - losses@[k].1.x <= i32::MAX
                && i32::MIN <= losses@[k].2.y - losses@[k].1.y <= i32::MAX,
            forall|j: int| 0 <= j < k ==> #[trigger] r@[j] == loss_contact(bodies@, proposals@, losses@[j]),
        decreases losses@.len() - k,
    {
        let (x, at, from, wb) = losses[k];
        let b = proposals[x].body;
        let my = &bodies[b];
        let peer = &bodies[wb];
        r.push(Contact {
            body: b,
            from,
            at,
            normal: (from.x - at.x, from.y - at.y),
            peer: Peer::Body(wb),
            restitution: pair_restitution(my, Some(peer), None),
            friction: my.friction.mul(peer.friction),
            target: 0,
            push: 0,
            drag: 0,
        });
        k = k + 1;
    }
    r
}

} // verus!
