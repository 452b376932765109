//! The rounds in which bodies move: each round every moving body proposes
//! one quantum of motion along one freedom, contested cells go to the body
//! with the most momentum into them, refusals spread along dependencies, and
//! what could not move turns its accumulated motion into a rebound or parks.
use vstd::prelude::*;
use crate::arith::{clamp_spec, trunc_div_spec, round_div_spec, lemma_round_div_within, round_div_i128};
use rustc_hash::FxHashMap;
use crate::geometry::{CellPos, Q16};
use crate::contact::{Contact, Peer};
use crate::fx::{fx_map_insert, fx_map_remove, fx_map_entries, fx_insert, pair_key, key_of_pair};
use rustc_hash::FxHashSet;
use crate::raster::{cell_key, key_of, lemma_cell_key_injective};
use crate::journal::{Freedom, freedom_index, accumulator_spec, threshold_spec};
use crate::rotation::{abs, Spin, RADIANS_PER_TURN, TAU_NUMERATOR};
use crate::state::{Body, holds_spec, cell_center_spec, lemma_speed_bounded, rotated_mean, slots_in_range, total_mass, turned_weighted_x, turned_weighted_y};
use crate::rotation::ORIENTATION_UNITS;
use crate::rotation::speed_at_spec;

verus! {

/// What a body has learned about one freedom during the rounds of a step.
#[derive(Debug, Clone, Copy, PartialEq, Eq)]
pub struct FreedomState {
    pub parked: bool,
    pub probed: bool,
}

/// A moving body's state per freedom, indexed by `freedom_index`.
#[derive(Debug, Clone, Copy, PartialEq, Eq)]
pub struct Mover {
    pub freedoms: [FreedomState; 3],
}

impl Mover {
    /// A body that has neither parked nor probed any freedom.
    pub fn new() -> (m: Mover)
        ensures
            forall|i: int| 0 <= i < 3 ==> !(#[trigger] m.freedoms@[i]).parked && !m.freedoms@[i].probed,
    {
        let idle = FreedomState { parked: false, probed: false };
        Mover { freedoms: [idle, idle, idle] }
    }
}

/// The bit of a freedom in a body's set of freedoms.
pub open spec fn freedom_bit(f: Freedom) -> u8 {
    if freedom_index(f) == 0 { 1u8 } else if freedom_index(f) == 1 { 2u8 } else { 4u8 }
}

/// The freedoms in the order they are tried: vertical, horizontal, turn.
pub open spec fn freedom_at(i: int) -> Freedom {
    if i == 0 { Freedom::Y } else if i == 1 { Freedom::X } else { Freedom::Turn }
}

/// Whole quanta accumulated along a freedom.
pub open spec fn pending_spec(f: Freedom, body: &Body, units: int) -> int {
    abs(accumulator_spec(f, body) as int) / threshold_spec(f, units)
}

/// Whether a freedom may carry a quantum this round: the body holds it, has
/// not parked it, and has at least one whole quantum pending along it.
pub open spec fn ready(f: Freedom, body: &Body, mover: Mover, units: int) -> bool {
    &&& holds_spec(body.freedoms, freedom_bit(f))
    &&& !mover.freedoms@[freedom_index(f)].parked
    &&& pending_spec(f, body, units) > 0
}

/// Whether a freedom should be probed: the body holds it, has neither parked
/// nor probed it, and moves along it.
pub open spec fn probe_ready(f: Freedom, body: &Body, mover: Mover) -> bool {
    &&& holds_spec(body.freedoms, freedom_bit(f))
    &&& !mover.freedoms@[freedom_index(f)].parked
    &&& !mover.freedoms@[freedom_index(f)].probed
    &&& (match f {
        Freedom::Turn => body.spin.0,
        Freedom::X => body.vx,
        Freedom::Y => body.vy,
    }) != 0
}

/// The sign of a number.
pub open spec fn signum(x: int) -> int {
    if x > 0 { 1 } else if x < 0 { -1 } else { 0 }
}

/// The velocity of a body along a freedom.
pub open spec fn velocity_spec(f: Freedom, body: &Body) -> i64 {
    match f {
        Freedom::Turn => body.spin.0,
        Freedom::X => body.vx,
        Freedom::Y => body.vy,
    }
}

/// The probes of the first `n` freedoms in trying order: each freedom ready to
/// probe, with the sign of the velocity along it.
pub open spec fn probes_upto(body: &Body, mover: Mover, n: int) -> Seq<(Freedom, i32)>
    decreases n,
{
    if n <= 0 {
        Seq::empty()
    } else {
        let rest = probes_upto(body, mover, n - 1);
        let f = freedom_at(n - 1);
        if probe_ready(f, body, mover) {
            rest.push((f, signum(velocity_spec(f, body) as int) as i32))
        } else {
            rest
        }
    }
}

/// Accumulators far enough from the ends of `i64` to take their magnitude.
pub open spec fn accumulators_in_range(body: &Body) -> bool {
    body.acc_x > i64::MIN && body.acc_y > i64::MIN && body.acc_turn > i64::MIN
}

/// What a body proposes this round, as (freedom, sign, probe) triples: the
/// freedom with the most whole quanta pending (the first of equals, in trying
/// order) in the direction of its accumulator; or, when none is pending, a
/// probe along each freedom it moves along but has not probed yet.
pub fn plan_body(body: &Body, mover: Mover, units: i64) -> (r: Vec<(Freedom, i32, bool)>)
    requires
        units >= 1,
        accumulators_in_range(body),
    ensures
        (exists|i: int| 0 <= i < 3 && #[trigger] ready(freedom_at(i), body, mover, units as int)) ==> {
            &&& r@.len() == 1
            &&& !r@[0].2
            &&& ready(r@[0].0, body, mover, units as int)
            &&& r@[0].1 == signum(accumulator_spec(r@[0].0, body) as int)
            &&& forall|i: int| 0 <= i < 3 && #[trigger] ready(freedom_at(i), body, mover, units as int) ==>
                pending_spec(freedom_at(i), body, units as int) <= pending_spec(r@[0].0, body, units as int)
            &&& forall|i: int| 0 <= i < 3 && freedom_index(freedom_at(i)) != freedom_index(r@[0].0)
                && #[trigger] ready(freedom_at(i), body, mover, units as int)
                && pending_spec(freedom_at(i), body, units as int) == pending_spec(r@[0].0, body, units as int)
                ==> i > trying_index(r@[0].0)
        },
        !(exists|i: int| 0 <= i < 3 && #[trigger] ready(freedom_at(i), body, mover, units as int)) ==> {
            &&& r@.len() == probes_upto(body, mover, 3).len()
            &&& forall|i: int| 0 <= i < r@.len() ==> (#[trigger] r@[i]).2
                && (r@[i].0, r@[i].1) == probes_upto(body, mover, 3)[i]
        },
{
    let order = [Freedom::Y, Freedom::X, Freedom::Turn];
    let mut best: Option<Freedom> = None;
    let mut best_pending: i64 = 0;
    let mut i: usize = 0;
    while i < 3
        invariant
            units >= 1,
            accumulators_in_range(body),
            order@ == seq![Freedom::Y, Freedom::X, Freedom::Turn],
            0 <= i <= 3,
            best is None <==> !(exists|j: int| 0 <= j < i && #[trigger] ready(freedom_at(j), body, mover, units as int)),
            best matches Some(f) ==> {
                &&& ready(f, body, mover, units as int)
                &&& best_pending == pending_spec(f, body, units as int)
                &&& trying_index(f) < i
                &&& forall|j: int| 0 <= j < i && #[trigger] ready(freedom_at(j), body, mover, units as int) ==>
                    pending_spec(freedom_at(j), body, units as int) <= best_pending
                &&& forall|j: int| 0 <= j < trying_index(f) && #[trigger] ready(freedom_at(j), body, mover, units as int) ==>
                    pending_spec(freedom_at(j), body, units as int) < best_pending
            },
        decreases 3 - i,
    {
        let f = order[i];
        assert(f == freedom_at(i as int));
        let holds = body.freedoms.holds(f.bit());
        let parked = mover.freedoms[f.index()].parked;
        let pending = f.pending(body, units);
        let is_ready = holds && !parked && pending != 0;
        assert(is_ready == ready(f, body, mover, units as int));
        if is_ready {
            let replace = match best {
                Some(_) => pending > best_pending,
                None => true,
            };
            if replace {
                best = Some(f);
                best_pending = pending;
            }
        }
        i = i + 1;
    }
    let mut r: Vec<(Freedom, i32, bool)> = Vec::new();
    match best {
        Some(f) => {
            let acc = f.accumulator(body);
            let sign: i32 = if acc > 0 { 1 } else if acc < 0 { -1 } else { 0 };
            r.push((f, sign, false));
            proof {
                assert forall|j: int| 0 <= j < 3 && freedom_index(freedom_at(j)) != freedom_index(f)
                    && #[trigger] ready(freedom_at(j), body, mover, units as int)
                    && pending_spec(freedom_at(j), body, units as int) == pending_spec(f, body, units as int)
                    implies j > trying_index(f) by {
                    if j == trying_index(f) {
                        assert(freedom_at(j) == f);
                    }
                }
            }
        },
        None => {
            let mut k: usize = 0;
            while k < 3
                invariant
                    order@ == seq![Freedom::Y, Freedom::X, Freedom::Turn],
                    0 <= k <= 3,
                    r@.len() == probes_upto(body, mover, k as int).len(),
                    forall|j: int| 0 <= j < r@.len() ==> (#[trigger] r@[j]).2
                        && (r@[j].0, r@[j].1) == probes_upto(body, mover, k as int)[j],
                decreases 3 - k,
            {
                let f = order[k];
                assert(f == freedom_at(k as int));
                let state = mover.freedoms[f.index()];
                let v = f.velocity(body);
                let is_ready = body.freedoms.holds(f.bit()) && !state.parked && !state.probed && v != 0;
                assert(is_ready == probe_ready(f, body, mover));
                if is_ready {
                    let sign: i32 = if v > 0 { 1 } else { -1 };
                    r.push((f, sign, true));
                }
                k = k + 1;
            }
        },
    }
    r
}

/// The place of a freedom in the trying order.
pub open spec fn trying_index(f: Freedom) -> int {
    match f {
        Freedom::Y => 0,
        Freedom::X => 1,
        Freedom::Turn => 2,
    }
}


/// The least speed at which a body still counts as moving along a
/// translation: `settle` for bodies that settle, else one subcell unit.
pub open spec fn speed_floor(body: &Body, settle: int) -> int {
    if body.settles { settle } else { 1 }
}

/// An accumulator after one tick of velocity `v`: it gathers the velocity,
/// clamped to `limit`, while the speed is at least `floor`, and halves
/// (rounding toward zero) otherwise.
pub open spec fn gathered(acc: int, v: int, floor: int, limit: int) -> int {
    if abs(v) >= floor { clamp_spec(acc + v, -limit, limit) } else { trunc_div_spec(acc, 2) }
}

/// The spin whose rim speed is `floor`, for a body of the given radius.
pub open spec fn spin_floor(floor: int, radius: int, units: int) -> int {
    round_div_spec(floor * RADIANS_PER_TURN, TAU_NUMERATOR * ((if radius >= 1 { radius } else { 1 }) * units))
}

/// The most turning a body may accumulate: a full turn.
pub const MAX_TURN: i64 = 1048576;

/// Prepares a moving body's accumulators for the rounds of a step: each
/// translation accumulator gathers its velocity or halves, and the turn
/// accumulator gathers the spin while it is above the spin floor, or halves.
pub fn prepare_accumulators(body: &mut Body, settle: i64, max_speed: i64, units: i64)
    requires
        1 <= units <= 0x1_0000,
        1 <= settle <= 0x1_0000,
        0 <= max_speed,
        0 <= old(body).radius <= 0x1_0000_0000,
        old(body).vx > i64::MIN && old(body).vy > i64::MIN,
        i64::MIN <= old(body).acc_x + old(body).vx <= i64::MAX,
        i64::MIN <= old(body).acc_y + old(body).vy <= i64::MAX,
        i64::MIN <= old(body).acc_turn + old(body).spin.0 <= i64::MAX,
    ensures
        final(body).acc_x == gathered(old(body).acc_x as int, old(body).vx as int,
            speed_floor(old(body), settle as int), max_speed as int),
        final(body).acc_y == gathered(old(body).acc_y as int, old(body).vy as int,
            speed_floor(old(body), settle as int), max_speed as int),
        final(body).acc_turn == (if clamp_spec(old(body).spin.0 as int,
            -spin_floor(speed_floor(old(body), settle as int), old(body).radius as int, units as int),
            spin_floor(speed_floor(old(body), settle as int), old(body).radius as int, units as int)) != old(body).spin.0 {
            clamp_spec(old(body).acc_turn + old(body).spin.0, -MAX_TURN, MAX_TURN as int)
        } else {
            trunc_div_spec(old(body).acc_turn as int, 2)
        }),
        final(body).vx == old(body).vx && final(body).vy == old(body).vy && final(body).spin == old(body).spin,
        final(body).slots == old(body).slots && final(body).raster == old(body).raster,
        final(body).anchor == old(body).anchor && final(body).step == old(body).step,
        final(body).mass == old(body).mass && final(body).moment == old(body).moment,
        final(body).freedoms == old(body).freedoms && final(body).parked == old(body).parked,
        final(body).settles == old(body).settles && final(body).id == old(body).id,
{
    let floor: i64 = if body.settles { settle } else { 1 };
    body.acc_x = gather(body.acc_x, body.vx, floor, max_speed);
    body.acc_y = gather(body.acc_y, body.vy, floor, max_speed);
    let radius: i64 = if body.radius >= 1 { body.radius } else { 1 };
    assert(1 <= radius * units <= 0x1_0000_0000 * 0x1_0000) by (nonlinear_arith)
        requires
            1 <= radius <= 0x1_0000_0000,
            1 <= units <= 0x1_0000,
    ;
    let lever: i64 = radius * units;
    let limit = Spin::for_speed_at(floor, lever);
    let ghost exact = round_div_spec(floor * RADIANS_PER_TURN, TAU_NUMERATOR * lever);
    proof {
        assert(lever >= 1) by (nonlinear_arith)
            requires
                radius >= 1,
                units >= 1,
                lever == radius * units,
        ;
        let n = floor * RADIANS_PER_TURN;
        let d = TAU_NUMERATOR * lever;
        assert(-n * d <= n <= n * d) by (nonlinear_arith)
            requires
                n >= 1,
                d >= 1,
        ;
        lemma_round_div_within(n, d, n);
        assert(0 <= exact <= floor * RADIANS_PER_TURN);
        assert(limit.0 == exact);
    }
    let spin = body.spin;
    if spin.clamped(limit).raw() != spin.raw() {
        body.acc_turn = gather_turn(body.acc_turn + spin.raw());
    } else {
        body.acc_turn = body.acc_turn / 2;
    }
}

fn gather(acc: i64, v: i64, floor: i64, limit: i64) -> (r: i64)
    requires
        v > i64::MIN,
        0 <= limit,
        i64::MIN <= acc + v <= i64::MAX,
    ensures
        r == gathered(acc as int, v as int, floor as int, limit as int),
{
    let magnitude: i64 = if v < 0 { -v } else { v };
    if magnitude >= floor {
        let sum: i64 = acc + v;
        if sum < -limit {
            -limit
        } else if sum > limit {
            limit
        } else {
            sum
        }
    } else {
        acc / 2
    }
}

fn gather_turn(sum: i64) -> (r: i64)
    ensures
        r == clamp_spec(sum as int, -MAX_TURN, MAX_TURN as int),
{
    if sum < -MAX_TURN {
        -MAX_TURN
    } else if sum > MAX_TURN {
        MAX_TURN
    } else {
        sum
    }
}


/// The largest of a body's restitution, its peer's and the touched material's.
pub open spec fn pair_restitution_of(body: Body, peer: Option<Body>, material: Option<Q16>) -> Q16 {
    let with_material = match material {
        Some(m) => if m.0 > body.restitution.0 { m } else { body.restitution },
        None => body.restitution,
    };
    match peer {
        Some(b) => if b.restitution.0 > with_material.0 { b.restitution } else { with_material },
        None => with_material,
    }
}

/// The restitution of a contact: the largest of the body's, the peer body's
/// and the touched material's (`material`, from the content tables).
pub fn pair_restitution(body: &Body, peer: Option<&Body>, material: Option<Q16>) -> (r: Q16)
    ensures
        r == pair_restitution_of(*body, match peer { Some(b) => Some(*b), None => None }, material),
        r.0 >= body.restitution.0,
        peer matches Some(b) ==> r.0 >= b.restitution.0,
        material matches Some(m) ==> r.0 >= m.0,
        r.0 == body.restitution.0 || (peer matches Some(b) && r.0 == b.restitution.0)
            || (material matches Some(m) && r.0 == m.0),
{
    let mut restitution = body.restitution;
    if let Some(m) = material {
        if m.raw() > restitution.raw() {
            restitution = m;
        }
    }
    if let Some(b) = peer {
        if b.restitution.raw() > restitution.raw() {
            restitution = b.restitution;
        }
    }
    restitution
}

/// A body's proposal to move one quantum along one freedom: the cells it
/// would occupy, the cells it would enter (each with the cell it comes
/// from), and the proposals it waits on for the cells it enters from them.
pub struct Proposal {
    pub body: usize,
    pub freedom: Freedom,
    pub sign: i32,
    pub translation: (i32, i32),
    pub probe: bool,
    pub new_step: u32,
    pub candidate: Vec<CellPos>,
    pub entered: Vec<(CellPos, CellPos)>,
    pub refused: bool,
    pub committed: bool,
    pub canceled: bool,
    pub deps: Vec<(usize, CellPos, CellPos)>,
}

/// A proposal that is neither refused nor canceled.
pub open spec fn standing(p: &Proposal) -> bool {
    !p.refused && !p.canceled
}

/// A proposal that may still move: standing and not a probe.
pub open spec fn active(p: &Proposal) -> bool {
    standing(p) && !p.probe
}

/// Every dependency names a proposal of the list.
pub open spec fn deps_valid(ps: Seq<Proposal>) -> bool {
    forall|p: int, j: int| 0 <= p < ps.len() && 0 <= j < ps[p].deps@.len() ==> (#[trigger] ps[p].deps@[j]).0 < ps.len()
}

/// `after` is `before` with possibly more proposals refused.
pub open spec fn only_refusals(before: Seq<Proposal>, after: Seq<Proposal>) -> bool {
    &&& after.len() == before.len()
    &&& forall|p: int| 0 <= p < before.len() ==> {
        &&& (#[trigger] after[p]).body == before[p].body
        &&& after[p].freedom == before[p].freedom
        &&& after[p].sign == before[p].sign
        &&& after[p].translation == before[p].translation
        &&& after[p].probe == before[p].probe
        &&& after[p].new_step == before[p].new_step
        &&& after[p].candidate@ == before[p].candidate@
        &&& after[p].entered@ == before[p].entered@
        &&& after[p].committed == before[p].committed
        &&& after[p].canceled == before[p].canceled
        &&& after[p].deps@ == before[p].deps@
        &&& (before[p].refused ==> after[p].refused)
    }
}

/// Proposal `p` is active and, within `n` steps along dependencies between
/// active proposals, waits on one that is refused or canceled.
pub open spec fn blocked_chain(ps: Seq<Proposal>, p: int, n: nat) -> bool
    decreases n,
{
    &&& n > 0
    &&& active(&ps[p])
    &&& exists|j: int| 0 <= j < ps[p].deps@.len() && {
        let d = (#[trigger] ps[p].deps@[j]).0 as int;
        !standing(&ps[d]) || blocked_chain(ps, d, (n - 1) as nat)
    }
}

/// Every active proposal of `ps` waits only on standing proposals.
pub open spec fn deps_closed(ps: Seq<Proposal>) -> bool {
    forall|p: int, j: int| 0 <= p < ps.len() && active(&ps[p]) && 0 <= j < ps[p].deps@.len() ==>
        standing(&ps[(#[trigger] ps[p].deps@[j]).0 as int])
}

/// Proposals not refused.
pub open spec fn unrefused(ps: Seq<Proposal>) -> nat
    decreases ps.len(),
{
    if ps.len() == 0 {
        0
    } else {
        unrefused(ps.drop_last()) + (if ps.last().refused { 0nat } else { 1nat })
    }
}

proof fn lemma_unrefused_decreases(a: Seq<Proposal>, b: Seq<Proposal>, k: int)
    requires
        a.len() == b.len(),
        forall|p: int| 0 <= p < a.len() ==> (#[trigger] a[p]).refused ==> b[p].refused,
        0 <= k <= a.len(),
        exists|p: int| 0 <= p < k && !a[p].refused && b[p].refused,
    ensures
        unrefused(b.subrange(0, k)) < unrefused(a.subrange(0, k)),
    decreases k,
{
    let (sa, sb) = (a.subrange(0, k), b.subrange(0, k));
    assert(sa.drop_last() =~= a.subrange(0, k - 1));
    assert(sb.drop_last() =~= b.subrange(0, k - 1));
    if exists|p: int| 0 <= p < k - 1 && !a[p].refused && b[p].refused {
        lemma_unrefused_decreases(a, b, k - 1);
    } else {
        lemma_unrefused_le(a, b, k - 1);
    }
}

proof fn lemma_unrefused_le(a: Seq<Proposal>, b: Seq<Proposal>, k: int)
    requires
        a.len() == b.len(),
        forall|p: int| 0 <= p < a.len() ==> (#[trigger] a[p]).refused ==> b[p].refused,
        0 <= k <= a.len(),
    ensures
        unrefused(b.subrange(0, k)) <= unrefused(a.subrange(0, k)),
    decreases k,
{
    if k > 0 {
        assert(a.subrange(0, k).drop_last() =~= a.subrange(0, k - 1));
        assert(b.subrange(0, k).drop_last() =~= b.subrange(0, k - 1));
        lemma_unrefused_le(a, b, k - 1);
    }
}

proof fn lemma_chain_refused(before: Seq<Proposal>, after: Seq<Proposal>, p: int, n: nat)
    requires
        only_refusals(before, after),
        deps_valid(before),
        deps_closed(after),
        0 <= p < before.len(),
        blocked_chain(before, p, n),
    ensures
        after[p].refused,
    decreases n,
{
    let j = choose|j: int| 0 <= j < before[p].deps@.len() && {
        let d = (#[trigger] before[p].deps@[j]).0 as int;
        !standing(&before[d]) || blocked_chain(before, d, (n - 1) as nat)
    };
    let d = before[p].deps@[j].0 as int;
    assert(after[p].deps@[j] == before[p].deps@[j]);
    if standing(&before[d]) {
        lemma_chain_refused(before, after, d, (n - 1) as nat);
    }
}

/// Spreads refusals along dependencies until none is left waiting on a
/// refused or canceled proposal. Hands back, for each dependency that got a
/// proposal refused, the proposal, the cell it would have entered, the cell
/// it came from, and the body it waited on.
pub fn cascade(proposals: &mut Vec<Proposal>) -> (blocked: Vec<(usize, CellPos, CellPos, usize)>)
    requires
        deps_valid(old(proposals)@),
    ensures
        only_refusals(old(proposals)@, final(proposals)@),
        deps_closed(final(proposals)@),
        forall|p: int| 0 <= p < old(proposals)@.len() ==> (#[trigger] final(proposals)@[p]).refused
            == (old(proposals)@[p].refused || exists|n: nat| blocked_chain(old(proposals)@, p, n)),
        forall|k: int| 0 <= k < blocked@.len() ==> {
            let (p, at, from, b) = #[trigger] blocked@[k];
            &&& p < old(proposals)@.len()
            &&& active(&old(proposals)@[p as int])
            &&& final(proposals)@[p as int].refused
            &&& exists|j: int| 0 <= j < old(proposals)@[p as int].deps@.len() && {
                let (d, dat, dfrom) = #[trigger] old(proposals)@[p as int].deps@[j];
                dat == at && dfrom == from && !standing(&final(proposals)@[d as int])
                    && b == old(proposals)@[d as int].body
            }
        },
{
    let ghost orig = proposals@;
    let ghost mut depth: Seq<nat> = Seq::new(orig.len(), |i: int| 0nat);
    let mut blocked: Vec<(usize, CellPos, CellPos, usize)> = Vec::new();
    let mut changed = true;
    while changed
        invariant
            deps_valid(orig),
            only_refusals(orig, proposals@),
            depth.len() == orig.len(),
            forall|q: int| 0 <= q < orig.len() && (#[trigger] proposals@[q]).refused && !orig[q].refused
                ==> blocked_chain(orig, q, depth[q]),
            !changed ==> deps_closed(proposals@),
            forall|k: int| 0 <= k < blocked@.len() ==> {
                let (p, at, from, b) = #[trigger] blocked@[k];
                &&& p < orig.len()
                &&& active(&orig[p as int])
                &&& proposals@[p as int].refused
                &&& exists|j: int| 0 <= j < orig[p as int].deps@.len() && {
                    let (d, dat, dfrom) = #[trigger] orig[p as int].deps@[j];
                    dat == at && dfrom == from && !standing(&proposals@[d as int])
                        && b == orig[d as int].body
                }
            },
        decreases unrefused(proposals@) + (if changed { 1nat } else { 0nat }),
    {
        let ghost start = proposals@;
        changed = false;
        let mut p: usize = 0;
        while p < proposals.len()
            invariant
                deps_valid(orig),
                only_refusals(orig, proposals@),
                only_refusals(start, proposals@),
                only_refusals(orig, start),
                depth.len() == orig.len(),
                0 <= p <= proposals@.len(),
                forall|q: int| 0 <= q < orig.len() && (#[trigger] proposals@[q]).refused && !orig[q].refused
                    ==> blocked_chain(orig, q, depth[q]),
                !changed ==> proposals@ == start,
                changed ==> exists|q: int| 0 <= q < p && !start[q].refused && (#[trigger] proposals@[q]).refused,
                !changed ==> forall|q: int, j: int| 0 <= q < p && active(&proposals@[q]) && 0 <= j < proposals@[q].deps@.len()
                    ==> standing(&proposals@[(#[trigger] proposals@[q].deps@[j]).0 as int]),
                forall|k: int| 0 <= k < blocked@.len() ==> {
                    let (p, at, from, b) = #[trigger] blocked@[k];
                    &&& p < orig.len()
                    &&& active(&orig[p as int])
                    &&& proposals@[p as int].refused
                    &&& exists|j: int| 0 <= j < orig[p as int].deps@.len() && {
                        let (d, dat, dfrom) = #[trigger] orig[p as int].deps@[j];
                        dat == at && dfrom == from && !standing(&proposals@[d as int])
                            && b == orig[d as int].body
                    }
                },
            decreases proposals@.len() - p,
        {
            let is_active = !proposals[p].refused && !proposals[p].canceled && !proposals[p].probe;
            if is_active {
                let ghost before = proposals@;
                let ghost blocked_before = blocked@;
                let mut any = false;
                let ghost mut witness: int = 0;
                let mut j: usize = 0;
                while j < proposals[p].deps.len()
                    invariant
                        deps_valid(orig),
                        only_refusals(orig, proposals@),
                        proposals@ == before,
                        0 <= p < proposals@.len(),
                        active(&proposals@[p as int]),
                        0 <= j <= proposals@[p as int].deps@.len(),
                        blocked@.len() >= blocked_before.len(),
                        forall|k: int| 0 <= k < blocked_before.len() ==> blocked@[k] == blocked_before[k],
                        forall|k: int| blocked_before.len() <= k < blocked@.len() ==> {
                            let (q, at, from, b) = #[trigger] blocked@[k];
                            &&& q == p
                            &&& exists|i: int| 0 <= i < j && {
                                let (d, dat, dfrom) = #[trigger] orig[p as int].deps@[i];
                                dat == at && dfrom == from && !standing(&proposals@[d as int])
                                    && b == orig[d as int].body
                            }
                        },
                        any ==> 0 <= witness < j && !standing(&proposals@[proposals@[p as int].deps@[witness].0 as int]),
                        !any ==> forall|i: int| 0 <= i < j ==>
                            standing(&proposals@[(#[trigger] proposals@[p as int].deps@[i]).0 as int]),
                    decreases proposals@[p as int].deps@.len() - j,
                {
                    let (dep, at, from) = proposals[p].deps[j];
                    assert(proposals@[p as int].deps@[j as int] == orig[p as int].deps@[j as int]);
                    assert(dep < proposals@.len());
                    if proposals[dep].refused || proposals[dep].canceled {
                        let b = proposals[dep].body;
                        blocked.push((p, at, from, b));
                        proof {
                            if !any {
                                witness = j as int;
                            }
                        }
                        any = true;
                    }
                    j = j + 1;
                }
                if any {
                    proof {
                        let d = before[p as int].deps@[witness].0 as int;
                        assert(orig[p as int].deps@[witness] == before[p as int].deps@[witness]);
                        let n: nat = if orig[d].refused || orig[d].canceled { 1nat } else { depth[d] + 1 };
                        assert(blocked_chain(orig, p as int, n));
                        depth = depth.update(p as int, n);
                    }
                    proposals[p].refused = true;
                    changed = true;
                }
                proof {
                    assert forall|d: int| 0 <= d < before.len() && !standing(&before[d]) implies
                        !standing(&proposals@[d]) by {}
                    assert forall|k: int| 0 <= k < blocked@.len() implies {
                        let (q, at, from, b) = #[trigger] blocked@[k];
                        &&& q < orig.len()
                        &&& active(&orig[q as int])
                        &&& proposals@[q as int].refused
                        &&& exists|i: int| 0 <= i < orig[q as int].deps@.len() && {
                            let (d, dat, dfrom) = #[trigger] orig[q as int].deps@[i];
                            dat == at && dfrom == from && !standing(&proposals@[d as int])
                                && b == orig[d as int].body
                        }
                    } by {
                        let (q, at, from, b) = blocked@[k];
                        if k < blocked_before.len() {
                            assert(blocked@[k] == blocked_before[k]);
                            let i = choose|i: int| 0 <= i < orig[q as int].deps@.len() && {
                                let (d, dat, dfrom) = #[trigger] orig[q as int].deps@[i];
                                dat == at && dfrom == from && !standing(&before[d as int])
                                    && b == orig[d as int].body
                            };
                            let d = orig[q as int].deps@[i].0 as int;
                            assert(!standing(&proposals@[d]));
                        } else {
                            let i = choose|i: int| 0 <= i < proposals@[p as int].deps@.len() && {
                                let (d, dat, dfrom) = #[trigger] orig[p as int].deps@[i];
                                dat == at && dfrom == from && !standing(&before[d as int])
                                    && b == orig[d as int].body
                            };
                            let d = orig[q as int].deps@[i].0 as int;
                            assert(!standing(&proposals@[d]));
                        }
                    }
                }
            }
            p = p + 1;
        }
        proof {
            if changed {
                lemma_unrefused_decreases(start, proposals@, start.len() as int);
                assert(start.subrange(0, start.len() as int) =~= start);
                assert(proposals@.subrange(0, start.len() as int) =~= proposals@);
            }
        }
    }
    proof {
        assert forall|p: int| 0 <= p < orig.len() implies (#[trigger] proposals@[p]).refused
            == (orig[p].refused || exists|n: nat| blocked_chain(orig, p, n)) by {
            if exists|n: nat| blocked_chain(orig, p, n) {
                let n = choose|n: nat| blocked_chain(orig, p, n);
                lemma_chain_refused(orig, proposals@, p, n);
            }
            if proposals@[p].refused && !orig[p].refused {
                assert(blocked_chain(orig, p, depth[p]));
            }
        }
    }
    blocked
}


/// Whether proposal `p` enters cell `c`.
pub open spec fn enters(p: &Proposal, c: CellPos) -> bool {
    exists|i: int| 0 <= i < p.entered@.len() && (#[trigger] p.entered@[i]).0 == c
}

/// The cell a list of entered cells first comes into `c` from.
pub open spec fn first_from(s: Seq<(CellPos, CellPos)>, c: CellPos) -> CellPos
    decreases s.len(),
{
    if s.len() == 0 {
        c
    } else if s[0].0 == c {
        s[0].1
    } else {
        first_from(s.drop_first(), c)
    }
}

/// The cell proposal `p` first comes into `c` from.
fn entered_from(p: &Proposal, c: CellPos) -> (from: CellPos)
    ensures
        from == first_from(p.entered@, c),
        enters(p, c) ==> exists|i: int| 0 <= i < p.entered@.len() && (#[trigger] p.entered@[i]) == (c, from),
{
    let ghost s = p.entered@;
    let mut i: usize = 0;
    assert(s.subrange(0, s.len() as int) =~= s);
    while i < p.entered.len()
        invariant
            s == p.entered@,
            0 <= i <= s.len(),
            first_from(s.subrange(i as int, s.len() as int), c) == first_from(s, c),
            forall|k: int| 0 <= k < i ==> (#[trigger] s[k]).0 != c,
        decreases s.len() - i,
    {
        let (at, from) = p.entered[i];
        let ghost rest = s.subrange(i as int, s.len() as int);
        assert(rest[0] == s[i as int]);
        if at.x == c.x && at.y == c.y {
            return from;
        }
        assert(rest.drop_first() =~= s.subrange(i + 1, s.len() as int));
        i = i + 1;
    }
    assert(s.subrange(i as int, s.len() as int).len() == 0);
    c
}

/// Bodies whose motion and centers of mass are small enough for the
/// momentum arithmetic of contested cells.
pub open spec fn bodies_in_range(bodies: Seq<Body>, coms: Seq<(i64, i64)>) -> bool {
    &&& coms.len() == bodies.len()
    &&& forall|b: int| 0 <= b < bodies.len() ==> {
        &&& abs((#[trigger] coms[b]).0 as int) <= 0x1000_0000_0000
        &&& abs(coms[b].1 as int) <= 0x1000_0000_0000
        &&& abs(bodies[b].spin.0 as int) <= 0x100_0000
        &&& abs(bodies[b].vx as int) <= 0x1000_0000_0000_0000
        &&& abs(bodies[b].vy as int) <= 0x1000_0000_0000_0000
    }
}

/// Proposals of listed bodies that enter only cells next to where they come from.
pub open spec fn proposals_in_range(ps: Seq<Proposal>, bodies: Seq<Body>) -> bool {
    forall|p: int| 0 <= p < ps.len() ==> {
        &&& (#[trigger] ps[p]).body < bodies.len()
        &&& forall|i: int| 0 <= i < ps[p].entered@.len() ==> {
            let (at, from) = #[trigger] ps[p].entered@[i];
            &&& abs(at.x - from.x) <= 1
            &&& abs(at.y - from.y) <= 1
        }
    }
}

/// The momentum a body carries into cell `at` from `from`: its mass times
/// the part of its material's velocity at `at` that points into the cell,
/// or nothing when that part points away.
pub open spec fn momentum_into(body: &Body, com: (i64, i64), at: CellPos, from: CellPos, units: int) -> int {
    let px = body.vx - speed_at_spec(body.spin.0 as int, cell_center_spec(at.y as int, units) - com.1);
    let py = body.vy + speed_at_spec(body.spin.0 as int, cell_center_spec(at.x as int, units) - com.0);
    let closing = px * (at.x - from.x) + py * (at.y - from.y);
    (if closing > 0 { closing } else { 0 }) * body.mass
}

/// The momentum proposal `p` carries into the contested cell `at`.
pub open spec fn claim_momentum(bodies: Seq<Body>, coms: Seq<(i64, i64)>, p: &Proposal, at: CellPos, units: int) -> int {
    momentum_into(&bodies[p.body as int], coms[p.body as int], at, first_from(p.entered@, at), units)
}

/// Whether claim `(m1, id1)` ranks at least as high as `(m2, id2)`: more
/// momentum wins, and between equals the lower body id.
pub open spec fn outranks(m1: int, id1: u32, m2: int, id2: u32) -> bool {
    m1 > m2 || (m1 == m2 && id1 <= id2)
}

proof fn lemma_cell_center_near(cell: int, com: int, units: int)
    requires
        i32::MIN <= cell <= i32::MAX,
        abs(com) <= 0x1000_0000_0000,
        1 <= units <= 0x1_0000,
    ensures
        abs(cell_center_spec(cell, units) - com) <= 0x1_0000_0000_0000,
{
    assert(-0x8000_0000 * 0x1_0000 <= cell * units <= 0x8000_0000 * 0x1_0000) by (nonlinear_arith)
        requires
            -0x8000_0000 <= cell <= 0x8000_0000,
            1 <= units <= 0x1_0000,
    ;
}

/// The rank of a proposal's claim on `at`.
fn claim_rank(bodies: &[Body], coms: &[(i64, i64)], p: &Proposal, at: CellPos, units: i64) -> (r: (i128, u32))
    requires
        1 <= units <= 0x1_0000,
        bodies_in_range(bodies@, coms@),
        p.body < bodies@.len(),
        enters(p, at),
        forall|i: int| 0 <= i < p.entered@.len() ==> {
            let (a, f) = #[trigger] p.entered@[i];
            &&& abs(a.x - f.x) <= 1
            &&& abs(a.y - f.y) <= 1
        },
    ensures
        r.0 == claim_momentum(bodies@, coms@, p, at, units as int),
        r.1 == bodies@[p.body as int].id,
{
    let from = entered_from(p, at);
    let body = &bodies[p.body];
    let com = coms[p.body];
    let point = body.point_velocity(com, at, units);
    proof {
        lemma_cell_center_near(at.x as int, com.0 as int, units as int);
        lemma_cell_center_near(at.y as int, com.1 as int, units as int);
        lemma_speed_bounded(body.spin.0 as int, cell_center_spec(at.y as int, units as int) - com.1);
        lemma_speed_bounded(body.spin.0 as int, cell_center_spec(at.x as int, units as int) - com.0);
    }
    let ghost i = choose|i: int| 0 <= i < p.entered@.len() && (#[trigger] p.entered@[i]) == (at, from);
    assert(p.entered@[i] == (at, from));
    let dx: i128 = (at.x - from.x) as i128;
    let dy: i128 = (at.y - from.y) as i128;
    let px: i128 = point.0 as i128;
    let py: i128 = point.1 as i128;
    assert(abs(px as int) <= 0x2000_0000_0000_0000 && abs(py as int) <= 0x2000_0000_0000_0000);
    assert(abs(dx as int) <= 1 && abs(dy as int) <= 1);
    assert(abs(px * dx) <= 0x2000_0000_0000_0000 && abs(py * dy) <= 0x2000_0000_0000_0000) by (nonlinear_arith)
        requires
            abs(px as int) <= 0x2000_0000_0000_0000,
            abs(py as int) <= 0x2000_0000_0000_0000,
            abs(dx as int) <= 1,
            abs(dy as int) <= 1,
    ;
    let closing: i128 = px * dx + py * dy;
    let positive: i128 = if closing > 0 { closing } else { 0 };
    assert(0 <= positive <= 0x4000_0000_0000_0000);
    let mass: i128 = body.mass as i128;
    assert(-0x4000_0000_0000_0000 * 0x8000_0000_0000_0000 <= positive * mass <= 0x4000_0000_0000_0000 * 0x8000_0000_0000_0000) by (nonlinear_arith)
        requires
            0 <= positive <= 0x4000_0000_0000_0000,
            -0x8000_0000_0000_0000 <= mass < 0x8000_0000_0000_0000,
    ;
    (positive * mass, body.id)
}


/// Whether proposal `w`'s claim on `at` ranks at least as high as `x`'s.
pub open spec fn claim_outranks(bodies: Seq<Body>, coms: Seq<(i64, i64)>, ps: Seq<Proposal>, w: int, x: int, at: CellPos, units: int) -> bool {
    outranks(
        claim_momentum(bodies, coms, &ps[w], at, units),
        bodies[ps[w].body as int].id,
        claim_momentum(bodies, coms, &ps[x], at, units),
        bodies[ps[x].body as int].id,
    )
}

/// Among the listed proposals, all entering `at`, the one whose claim ranks
/// highest, the last of equals.
fn tie_winner(
    bodies: &[Body],
    coms: &[(i64, i64)],
    proposals: &Vec<Proposal>,
    at: CellPos,
    list: &Vec<usize>,
    units: i64,
) -> (w: usize)
    requires
        1 <= units <= 0x1_0000,
        bodies_in_range(bodies@, coms@),
        proposals_in_range(proposals@, bodies@),
        list@.len() >= 1,
        forall|k: int| 0 <= k < list@.len() ==> (#[trigger] list@[k]) < proposals@.len()
            && enters(&proposals@[list@[k] as int], at),
    ensures
        list@.contains(w),
        forall|k: int| 0 <= k < list@.len() ==> claim_outranks(bodies@, coms@, proposals@, w as int, #[trigger] list@[k] as int, at, units as int),
{
    let mut best = list[0];
    assert(proposals@[best as int].body < bodies@.len());
    let mut best_rank = claim_rank(bodies, coms, &proposals[best], at, units);
    let mut k: usize = 1;
    while k < list.len()
        invariant
            1 <= units <= 0x1_0000,
            bodies_in_range(bodies@, coms@),
            proposals_in_range(proposals@, bodies@),
            forall|k: int| 0 <= k < list@.len() ==> (#[trigger] list@[k]) < proposals@.len()
                && enters(&proposals@[list@[k] as int], at),
            1 <= k <= list@.len(),
            list@.contains(best),
            best < proposals@.len(),
            best_rank.0 == claim_momentum(bodies@, coms@, &proposals@[best as int], at, units as int),
            best_rank.1 == bodies@[proposals@[best as int].body as int].id,
            forall|i: int| 0 <= i < k ==> claim_outranks(bodies@, coms@, proposals@, best as int, #[trigger] list@[i] as int, at, units as int),
        decreases list@.len() - k,
    {
        let x = list[k];
        assert(proposals@[x as int].body < bodies@.len());
        let rank = claim_rank(bodies, coms, &proposals[x], at, units);
        if rank.0 > best_rank.0 || (rank.0 == best_rank.0 && rank.1 <= best_rank.1) {
            best = x;
            best_rank = rank;
        }
        k = k + 1;
    }
    best
}

/// Claim `j` of proposal `q` is among those gathered before claim `i` of
/// proposal `p`.
pub open spec fn claim_done(ps: Seq<Proposal>, q: int, j: int, p: int, i: int) -> bool {
    &&& 0 <= q < ps.len()
    &&& active(&ps[q])
    &&& 0 <= j < ps[q].entered@.len()
    &&& (q < p || (q == p && j < i))
}

/// The gathered claims: each key maps to its cell and to proposals that are
/// active and enter it, and each gathered claim is listed under its cell.
pub open spec fn claims_ok(ps: Seq<Proposal>, m: Map<u64, (CellPos, Vec<usize>)>, p: int, i: int) -> bool {
    &&& forall|k: u64| #[trigger] m.contains_key(k) ==> {
        &&& cell_key(m[k].0) == k
        &&& forall|t: int| 0 <= t < m[k].1@.len() ==> (#[trigger] m[k].1@[t]) < ps.len()
            && active(&ps[m[k].1@[t] as int]) && enters(&ps[m[k].1@[t] as int], m[k].0)
    }
    &&& forall|q: int, j: int| #[trigger] claim_done(ps, q, j, p, i) ==> {
        let k = cell_key(ps[q].entered@[j].0);
        m.contains_key(k) && m[k].1@.contains(q as usize)
    }
}

/// Every active proposal's entered cells, each listed with the proposals
/// claiming it, keyed by cell.
fn gather_claims(proposals: &Vec<Proposal>) -> (claims: FxHashMap<u64, (CellPos, Vec<usize>)>)
    ensures
        claims_ok(proposals@, claims@, proposals@.len() as int, 0),
{
    let ghost ps = proposals@;
    let mut claims: FxHashMap<u64, (CellPos, Vec<usize>)> = FxHashMap::default();
    let mut p: usize = 0;
    while p < proposals.len()
        invariant
            ps == proposals@,
            0 <= p <= ps.len(),
            claims_ok(ps, claims@, p as int, 0),
        decreases ps.len() - p,
    {
        if !proposals[p].refused && !proposals[p].canceled && !proposals[p].probe {
            let mut i: usize = 0;
            while i < proposals[p].entered.len()
                invariant
                    ps == proposals@,
                    0 <= p < ps.len(),
                    active(&ps[p as int]),
                    0 <= i <= ps[p as int].entered@.len(),
                    claims_ok(ps, claims@, p as int, i as int),
                decreases ps[p as int].entered@.len() - i,
            {
                let at = proposals[p].entered[i].0;
                let key = key_of(at);
                let ghost before = claims@;
                let taken = fx_map_remove(&mut claims, key);
                let (cell, mut list) = match taken {
                    Some(entry) => entry,
                    None => (at, Vec::new()),
                };
                let ghost old_list = list@;
                list.push(p);
                fx_map_insert(&mut claims, key, (cell, list));
                proof {
                    assert(enters(&ps[p as int], at)) by {
                        assert(ps[p as int].entered@[i as int].0 == at);
                    }
                    if before.contains_key(key) {
                        lemma_cell_key_injective(before[key].0, at);
                    }
                    assert(claims@[key].1@ == old_list.push(p));
                    assert forall|k: u64| #[trigger] claims@.contains_key(k) implies {
                        &&& cell_key(claims@[k].0) == k
                        &&& forall|t: int| 0 <= t < claims@[k].1@.len() ==> (#[trigger] claims@[k].1@[t]) < ps.len()
                            && active(&ps[claims@[k].1@[t] as int]) && enters(&ps[claims@[k].1@[t] as int], claims@[k].0)
                    } by {
                        if k != key {
                            assert(before.contains_key(k));
                        } else {
                            assert forall|t: int| 0 <= t < claims@[k].1@.len() implies (#[trigger] claims@[k].1@[t]) < ps.len()
                                && active(&ps[claims@[k].1@[t] as int]) && enters(&ps[claims@[k].1@[t] as int], claims@[k].0) by {
                                if t < old_list.len() {
                                    assert(claims@[k].1@[t] == before[k].1@[t]);
                                }
                            }
                        }
                    }
                    assert forall|q: int, j: int| #[trigger] claim_done(ps, q, j, p as int, i + 1) implies {
                        let k = cell_key(ps[q].entered@[j].0);
                        claims@.contains_key(k) && claims@[k].1@.contains(q as usize)
                    } by {
                        let k = cell_key(ps[q].entered@[j].0);
                        if q == p && j == i {
                            assert(claims@[k].1@[old_list.len() as int] == p);
                        } else {
                            assert(claim_done(ps, q, j, p as int, i as int));
                            if k == key {
                                let t = choose|t: int| 0 <= t < before[k].1@.len() && before[k].1@[t] == q as usize;
                                assert(claims@[k].1@[t] == q as usize);
                            }
                        }
                    }
                }
                i = i + 1;
            }
            proof {
                assert forall|q: int, j: int| #[trigger] claim_done(ps, q, j, p + 1, 0) implies {
                    let k = cell_key(ps[q].entered@[j].0);
                    claims@.contains_key(k) && claims@[k].1@.contains(q as usize)
                } by {
                    assert(claim_done(ps, q, j, p as int, i as int));
                }
            }
        } else {
            proof {
                assert forall|q: int, j: int| #[trigger] claim_done(ps, q, j, p + 1, 0) implies {
                    let k = cell_key(ps[q].entered@[j].0);
                    claims@.contains_key(k) && claims@[k].1@.contains(q as usize)
                } by {
                    assert(claim_done(ps, q, j, p as int, 0));
                }
            }
        }
        p = p + 1;
    }
    claims
}


/// A refusal for a contested cell is justified: the refused proposal was
/// active and entered the cell (coming from `from`, where it first entered
/// it), and the winner `wb`'s proposal, also active and entering it, ranks
/// at least as high as every active proposal entering it.
pub open spec fn loss_justified(
    bodies: Seq<Body>,
    coms: Seq<(i64, i64)>,
    ps: Seq<Proposal>,
    loss: (usize, CellPos, CellPos, usize),
    units: int,
) -> bool {
    let (x, at, from, wb) = loss;
    &&& x < ps.len()
    &&& active(&ps[x as int])
    &&& enters(&ps[x as int], at)
    &&& from == first_from(ps[x as int].entered@, at)
    &&& exists|w: int| 0 <= w < ps.len() && w != x && active(&ps[w]) && enters(&ps[w], at) && wb == ps[w].body
        && forall|v: int| 0 <= v < ps.len() && active(&ps[v]) && #[trigger] enters(&ps[v], at)
            ==> claim_outranks(bodies, coms, ps, w, v, at, units)
}

/// Proposal `v` lost cell `c` to body `wb`.
pub open spec fn lost_at(losses: Seq<(usize, CellPos, CellPos, usize)>, v: int, c: CellPos, wb: usize) -> bool {
    exists|k: int| 0 <= k < losses.len() && losses[k].0 == v && losses[k].1 == c && losses[k].3 == wb
}

/// Two or more active proposals enter cell `c`.
pub open spec fn contested(ps: Seq<Proposal>, c: CellPos) -> bool {
    exists|p: int, q: int| 0 <= p < ps.len() && 0 <= q < ps.len() && p != q && active(&ps[p]) && active(&ps[q])
        && #[trigger] enters(&ps[p], c) && #[trigger] enters(&ps[q], c)
}

/// At cell `c` one active claimant outranks every active claimant, and every
/// other active claimant lost the cell to its body.
pub open spec fn settled_at(
    bodies: Seq<Body>,
    coms: Seq<(i64, i64)>,
    ps: Seq<Proposal>,
    losses: Seq<(usize, CellPos, CellPos, usize)>,
    c: CellPos,
    units: int,
) -> bool {
    exists|w: int| 0 <= w < ps.len() && active(&ps[w]) && enters(&ps[w], c)
        && (forall|v: int| 0 <= v < ps.len() && active(&ps[v]) && #[trigger] enters(&ps[v], c)
            ==> claim_outranks(bodies, coms, ps, w, v, c, units) && (v != w ==> lost_at(losses, v, c, ps[w].body)))
}

proof fn lemma_settled_grow(
    bodies: Seq<Body>,
    coms: Seq<(i64, i64)>,
    ps: Seq<Proposal>,
    a: Seq<(usize, CellPos, CellPos, usize)>,
    b: Seq<(usize, CellPos, CellPos, usize)>,
    c: CellPos,
    units: int,
)
    requires
        settled_at(bodies, coms, ps, a, c, units),
        a.len() <= b.len(),
        forall|i: int| 0 <= i < a.len() ==> b[i] == a[i],
    ensures
        settled_at(bodies, coms, ps, b, c, units),
{
    let w = choose|w: int| 0 <= w < ps.len() && active(&ps[w]) && enters(&ps[w], c)
        && (forall|v: int| 0 <= v < ps.len() && active(&ps[v]) && #[trigger] enters(&ps[v], c)
            ==> claim_outranks(bodies, coms, ps, w, v, c, units) && (v != w ==> lost_at(a, v, c, ps[w].body)));
    assert forall|v: int| 0 <= v < ps.len() && active(&ps[v]) && #[trigger] enters(&ps[v], c)
        implies claim_outranks(bodies, coms, ps, w, v, c, units) && (v != w ==> lost_at(b, v, c, ps[w].body)) by {
        if v != w {
            let k = choose|k: int| 0 <= k < a.len() && a[k].0 == v && a[k].1 == c && a[k].3 == ps[w].body;
            assert(b[k] == a[k]);
        }
    }
}

/// Whether entry `i` of the gathered claims lists proposal `a`.
pub open spec fn listed(entries: Seq<(u64, (CellPos, Vec<usize>))>, i: int, a: usize) -> bool {
    entries[i].1.1@.contains(a)
}

proof fn lemma_two_distinct(s: Seq<usize>, a: usize, b: usize)
    requires
        s.contains(a),
        s.contains(b),
        a != b,
    ensures
        s.len() >= 2,
{
    if s.len() < 2 {
        let i = choose|i: int| 0 <= i < s.len() && s[i] == a;
        let j = choose|j: int| 0 <= j < s.len() && s[j] == b;
    }
}

/// A contested cell whose claimants other than the winner all lost to it is settled.
proof fn lemma_settled_here(
    bodies: Seq<Body>,
    coms: Seq<(i64, i64)>,
    ps: Seq<Proposal>,
    m: Map<u64, (CellPos, Vec<usize>)>,
    key: u64,
    at: CellPos,
    w: usize,
    losses: Seq<(usize, CellPos, CellPos, usize)>,
    units: int,
)
    requires
        ps.len() <= usize::MAX,
        claims_ok(ps, m, ps.len() as int, 0),
        m.contains_key(key),
        m[key].0 == at,
        m[key].1@.contains(w),
        forall|i: int| 0 <= i < m[key].1@.len() ==> claim_outranks(bodies, coms, ps, w as int, #[trigger] m[key].1@[i] as int, at, units),
        forall|i: int| 0 <= i < m[key].1@.len() && (#[trigger] m[key].1@[i]) != w ==> lost_at(losses, m[key].1@[i] as int, at, ps[w as int].body),
    ensures
        settled_at(bodies, coms, ps, losses, at, units),
{
    let list = m[key].1@;
    let wi = choose|i: int| 0 <= i < list.len() && list[i] == w;
    assert(list[wi] == w);
    assert forall|v: int| 0 <= v < ps.len() && active(&ps[v]) && #[trigger] enters(&ps[v], at)
        implies claim_outranks(bodies, coms, ps, w as int, v, at, units) && (v != w ==> lost_at(losses, v, at, ps[w as int].body)) by {
        let j = choose|j: int| 0 <= j < ps[v].entered@.len() && (#[trigger] ps[v].entered@[j]).0 == at;
        assert(claim_done(ps, v, j, ps.len() as int, 0));
        assert(cell_key(at) == key);
        assert((v as usize) as int == v);
        let i = choose|i: int| 0 <= i < list.len() && list[i] == v as usize;
        assert(claim_outranks(bodies, coms, ps, w as int, list[i] as int, at, units));
        if v != w {
            assert(list[i] != w);
        }
    }
}

/// Every contested cell is the cell of some gathered claim with two or more
/// claimants, hence settled.
proof fn lemma_contested_settled(
    bodies: Seq<Body>,
    coms: Seq<(i64, i64)>,
    ps: Seq<Proposal>,
    m: Map<u64, (CellPos, Vec<usize>)>,
    entries: Seq<(u64, (CellPos, Vec<usize>))>,
    losses: Seq<(usize, CellPos, CellPos, usize)>,
    units: int,
)
    requires
        ps.len() <= usize::MAX,
        claims_ok(ps, m, ps.len() as int, 0),
        forall|i: int| 0 <= i < entries.len() ==> m.contains_key((#[trigger] entries[i]).0) && m[entries[i].0] == entries[i].1,
        forall|k: u64| #[trigger] m.contains_key(k) ==> exists|i: int| 0 <= i < entries.len() && (#[trigger] entries[i]).0 == k,
        forall|i: int| 0 <= i < entries.len() && (#[trigger] entries[i]).1.1@.len() >= 2 ==> settled_at(bodies, coms, ps, losses, entries[i].1.0, units),
    ensures
        forall|c: CellPos| #[trigger] contested(ps, c) ==> settled_at(bodies, coms, ps, losses, c, units),
{
    assert forall|c: CellPos| #[trigger] contested(ps, c) implies settled_at(bodies, coms, ps, losses, c, units) by {
        let (p, q) = choose|p: int, q: int| 0 <= p < ps.len() && 0 <= q < ps.len() && p != q && active(&ps[p]) && active(&ps[q])
            && #[trigger] enters(&ps[p], c) && #[trigger] enters(&ps[q], c);
        let jp = choose|j: int| 0 <= j < ps[p].entered@.len() && (#[trigger] ps[p].entered@[j]).0 == c;
        let jq = choose|j: int| 0 <= j < ps[q].entered@.len() && (#[trigger] ps[q].entered@[j]).0 == c;
        assert(claim_done(ps, p, jp, ps.len() as int, 0));
        assert(claim_done(ps, q, jq, ps.len() as int, 0));
        let key = cell_key(c);
        assert(m.contains_key(key));
        let i = choose|i: int| 0 <= i < entries.len() && (#[trigger] entries[i]).0 == key;
        assert(entries[i].1 == m[key]);
        assert(cell_key(m[key].0) == key);
        lemma_cell_key_injective(m[key].0, c);
        assert((p as usize) as int == p && (q as usize) as int == q);
        lemma_two_distinct(entries[i].1.1@, p as usize, q as usize);
    }
}

/// Settles cells that several active proposals would enter: the proposal
/// whose claim ranks highest keeps the cell and every other claimant is
/// refused. Hands back, per refusal, the refused proposal, the cell, the
/// cell it came from and the winning body. At every cell that two or more
/// active proposals would enter, each claimant but the top-ranked one has a
/// loss at that cell naming the winner's body, even where the winner itself
/// loses another cell. Afterwards no two active proposals enter the same cell.
pub fn resolve_ties(bodies: &[Body], coms: &[(i64, i64)], proposals: &mut Vec<Proposal>, units: i64)
    -> (losses: Vec<(usize, CellPos, CellPos, usize)>)
    requires
        1 <= units <= 0x1_0000,
        bodies_in_range(bodies@, coms@),
        proposals_in_range(old(proposals)@, bodies@),
    ensures
        only_refusals(old(proposals)@, final(proposals)@),
        forall|p: int| 0 <= p < old(proposals)@.len() ==> (#[trigger] final(proposals)@[p]).refused
            == (old(proposals)@[p].refused || exists|k: int| 0 <= k < losses@.len() && losses@[k].0 == p),
        forall|k: int| 0 <= k < losses@.len() ==> loss_justified(bodies@, coms@, old(proposals)@, #[trigger] losses@[k], units as int),
        forall|p: int, q: int, c: CellPos| 0 <= p < q < final(proposals)@.len() && active(&final(proposals)@[p])
            && active(&final(proposals)@[q]) ==> !(#[trigger] enters(&final(proposals)@[p], c) && #[trigger] enters(&final(proposals)@[q], c)),
        forall|c: CellPos| #[trigger] contested(old(proposals)@, c) ==> settled_at(bodies@, coms@, old(proposals)@, losses@, c, units as int),
{
    let ghost ps = proposals@;
    let claims = gather_claims(proposals);
    let ghost m = claims@;
    let entries = fx_map_entries(claims);
    let mut losses: Vec<(usize, CellPos, CellPos, usize)> = Vec::new();
    let mut t: usize = 0;
    while t < entries.len()
        invariant
            1 <= units <= 0x1_0000,
            bodies_in_range(bodies@, coms@),
            proposals_in_range(ps, bodies@),
            ps == proposals@,
            claims_ok(ps, m, ps.len() as int, 0),
            forall|i: int| 0 <= i < entries@.len() ==> m.contains_key((#[trigger] entries@[i]).0) && m[entries@[i].0] == entries@[i].1,
            0 <= t <= entries@.len(),
            forall|k: int| 0 <= k < losses@.len() ==> loss_justified(bodies@, coms@, ps, #[trigger] losses@[k], units as int),
            forall|i: int, a: usize, b: usize| 0 <= i < t && #[trigger] listed(entries@, i, a)
                && #[trigger] listed(entries@, i, b) && a != b ==>
                (exists|k: int| 0 <= k < losses@.len() && losses@[k].0 == a)
                || (exists|k: int| 0 <= k < losses@.len() && losses@[k].0 == b),
            forall|i: int| 0 <= i < t && (#[trigger] entries@[i]).1.1@.len() >= 2 ==> settled_at(bodies@, coms@, ps, losses@, entries@[i].1.0, units as int),
        decreases entries@.len() - t,
    {
        let at = entries[t].1.0;
        let list = &entries[t].1.1;
        let ghost key = entries@[t as int].0;
        assert(m.contains_key(key) && m[key] == entries@[t as int].1);
        if list.len() >= 2 {
            let w = tie_winner(bodies, coms, proposals, at, list, units);
            let ghost losses_before = losses@;
            let mut k: usize = 0;
            while k < list.len()
                invariant
                    1 <= units <= 0x1_0000,
                    bodies_in_range(bodies@, coms@),
                    proposals_in_range(ps, bodies@),
                    ps == proposals@,
                    claims_ok(ps, m, ps.len() as int, 0),
                    m.contains_key(key),
                    m[key] == (at, *list),
                    list@.contains(w),
                    forall|i: int| 0 <= i < list@.len() ==> claim_outranks(bodies@, coms@, ps, w as int, #[trigger] list@[i] as int, at, units as int),
                    0 <= k <= list@.len(),
                    losses@.len() >= losses_before.len(),
                    forall|i: int| 0 <= i < losses_before.len() ==> losses@[i] == losses_before[i],
                    forall|k: int| 0 <= k < losses@.len() ==> loss_justified(bodies@, coms@, ps, #[trigger] losses@[k], units as int),
                    forall|i: int| 0 <= i < k && (#[trigger] list@[i]) != w ==>
                        exists|j: int| 0 <= j < losses@.len() && losses@[j].0 == list@[i],
                    forall|i: int| 0 <= i < k && (#[trigger] list@[i]) != w ==> lost_at(losses@, list@[i] as int, at, ps[w as int].body),
                decreases list@.len() - k,
            {
                let x = list[k];
                assert(list@[k as int] == m[key].1@[k as int]);
                assert(m[key].1@[k as int] < ps.len());
                proof {
                    let wi = choose|i: int| 0 <= i < list@.len() && list@[i] == w;
                    assert(m[key].1@[wi] < ps.len());
                }
                if x != w {
                    let from = entered_from(&proposals[x], at);
                    let wb = proposals[w].body;
                    let ghost before_push = losses@;
                    losses.push((x, at, from, wb));
                    proof {
                        let wi = choose|i: int| 0 <= i < list@.len() && list@[i] == w;
                        assert(list@[wi] == w);
                        assert(ps.len() == proposals.len());
                        assert forall|v: int| 0 <= v < ps.len() && active(&ps[v]) && #[trigger] enters(&ps[v], at)
                            implies claim_outranks(bodies@, coms@, ps, w as int, v, at, units as int) by {
                            let j = choose|j: int| 0 <= j < ps[v].entered@.len() && (#[trigger] ps[v].entered@[j]).0 == at;
                            assert(claim_done(ps, v, j, ps.len() as int, 0));
                            assert(cell_key(at) == key);
                            let i = choose|i: int| 0 <= i < list@.len() && list@[i] == v as usize;
                            assert(claim_outranks(bodies@, coms@, ps, w as int, list@[i] as int, at, units as int));
                        }
                        assert(loss_justified(bodies@, coms@, ps, (x, at, from, wb), units as int));
                        assert(losses@[before_push.len() as int] == (x, at, from, wb));
                        assert forall|i: int| 0 <= i < k + 1 && (#[trigger] list@[i]) != w implies
                            exists|j: int| 0 <= j < losses@.len() && losses@[j].0 == list@[i] by {
                            if i < k {
                                let j = choose|j: int| 0 <= j < before_push.len() && before_push[j].0 == list@[i];
                                assert(losses@[j] == before_push[j]);
                            } else {
                                assert(losses@[before_push.len() as int].0 == list@[i]);
                            }
                        }
                        assert forall|i: int| 0 <= i < k + 1 && (#[trigger] list@[i]) != w implies
                            lost_at(losses@, list@[i] as int, at, ps[w as int].body) by {
                            if i < k {
                                let j = choose|j: int| 0 <= j < before_push.len() && before_push[j].0 == list@[i]
                                    && before_push[j].1 == at && before_push[j].3 == ps[w as int].body;
                                assert(losses@[j] == before_push[j]);
                            } else {
                                assert(losses@[before_push.len() as int] == (x, at, from, wb));
                            }
                        }
                    }
                }
                k = k + 1;
            }
            proof {
                assert(ps.len() == proposals.len());
                lemma_settled_here(bodies@, coms@, ps, m, key, at, w, losses@, units as int);
                assert(settled_at(bodies@, coms@, ps, losses@, at, units as int));
                assert forall|i: int| 0 <= i < t + 1 && (#[trigger] entries@[i]).1.1@.len() >= 2
                    implies settled_at(bodies@, coms@, ps, losses@, entries@[i].1.0, units as int) by {
                    if i < t {
                        lemma_settled_grow(bodies@, coms@, ps, losses_before, losses@, entries@[i].1.0, units as int);
                    }
                }
                assert forall|i: int, a: usize, b: usize| 0 <= i < t + 1 && #[trigger] listed(entries@, i, a)
                    && #[trigger] listed(entries@, i, b) && a != b implies
                    (exists|k: int| 0 <= k < losses@.len() && losses@[k].0 == a)
                    || (exists|k: int| 0 <= k < losses@.len() && losses@[k].0 == b) by {
                    if i < t {
                        if exists|k: int| 0 <= k < losses_before.len() && losses_before[k].0 == a {
                            let k = choose|k: int| 0 <= k < losses_before.len() && losses_before[k].0 == a;
                            assert(losses@[k] == losses_before[k]);
                        } else {
                            let k = choose|k: int| 0 <= k < losses_before.len() && losses_before[k].0 == b;
                            assert(losses@[k] == losses_before[k]);
                        }
                    } else {
                        let ia = choose|j: int| 0 <= j < list@.len() && list@[j] == a;
                        let ib = choose|j: int| 0 <= j < list@.len() && list@[j] == b;
                        if a != w {
                            assert(list@[ia] != w);
                        } else {
                            assert(list@[ib] != w);
                        }
                    }
                }
            }
        } else {
            proof {
                assert forall|i: int, a: usize, b: usize| 0 <= i < t + 1 && #[trigger] listed(entries@, i, a)
                    && #[trigger] listed(entries@, i, b) && a != b implies
                    (exists|k: int| 0 <= k < losses@.len() && losses@[k].0 == a)
                    || (exists|k: int| 0 <= k < losses@.len() && losses@[k].0 == b) by {
                    if i == t {
                        lemma_two_distinct(entries@[i].1.1@, a, b);
                    }
                }
                assert(entries@[t as int].1.1@.len() < 2);
            }
        }
        t = t + 1;
    }
    let mut k: usize = 0;
    while k < losses.len()
        invariant
            ps.len() == proposals@.len(),
            only_refusals(ps, proposals@),
            forall|k: int| 0 <= k < losses@.len() ==> loss_justified(bodies@, coms@, ps, #[trigger] losses@[k], units as int),
            0 <= k <= losses@.len(),
            forall|p: int| 0 <= p < ps.len() ==> (#[trigger] proposals@[p]).refused
                == (ps[p].refused || exists|j: int| 0 <= j < k && losses@[j].0 == p),
        decreases losses@.len() - k,
    {
        let x = losses[k].0;
        assert(loss_justified(bodies@, coms@, ps, losses@[k as int], units as int));
        proposals[x].refused = true;
        proof {
            assert forall|p: int| 0 <= p < ps.len() implies (#[trigger] proposals@[p]).refused
                == (ps[p].refused || exists|j: int| 0 <= j < k + 1 && losses@[j].0 == p) by {
                if p == x {
                    assert(losses@[k as int].0 == p);
                }
            }
        }
        k = k + 1;
    }
    proof {
        assert forall|p: int, q: int, c: CellPos| 0 <= p < q < proposals@.len() && active(&proposals@[p])
            && active(&proposals@[q]) implies !(#[trigger] enters(&proposals@[p], c) && #[trigger] enters(&proposals@[q], c)) by {
            if enters(&proposals@[p], c) && enters(&proposals@[q], c) {
                let jp = choose|j: int| 0 <= j < proposals@[p].entered@.len() && (#[trigger] proposals@[p].entered@[j]).0 == c;
                let jq = choose|j: int| 0 <= j < proposals@[q].entered@.len() && (#[trigger] proposals@[q].entered@[j]).0 == c;
                assert(proposals@[p].entered@ == ps[p].entered@);
                assert(proposals@[q].entered@ == ps[q].entered@);
                assert(claim_done(ps, p, jp, ps.len() as int, 0));
                assert(claim_done(ps, q, jq, ps.len() as int, 0));
                let key = cell_key(c);
                assert(ps.len() == proposals.len());
                assert(m.contains_key(key));
                let i = choose|i: int| 0 <= i < entries@.len() && (#[trigger] entries@[i]).0 == key;
                assert(entries@[i].1 == m[key]);
                assert(listed(entries@, i, p as usize));
                assert(listed(entries@, i, q as usize));
                assert((exists|k: int| 0 <= k < losses@.len() && losses@[k].0 == p as usize)
                    || (exists|k: int| 0 <= k < losses@.len() && losses@[k].0 == q as usize));
                assert(proposals@[p].refused || proposals@[q].refused);
            }
        }
        assert(ps.len() == proposals.len());
        lemma_contested_settled(bodies@, coms@, ps, m, entries@, losses@, units as int);
    }
    losses
}


/// The offset of a body's center of mass from its anchor cell's center, at
/// orientation `step`.
pub open spec fn mean_offset(body: &Body, step: u32, units: int) -> (int, int) {
    (
        round_div_spec(turned_weighted_x(body.slots@, step, units as i64) * units, body.mass as int),
        round_div_spec(turned_weighted_y(body.slots@, step, units as i64) * units, body.mass as int),
    )
}

/// Where a body is headed: its center of mass plus the motion it has
/// accumulated but not yet carried out.
pub open spec fn tracked_position(body: &Body, units: int) -> (int, int) {
    (
        cell_center_spec(body.anchor.x as int, units) + mean_offset(body, body.step, units).0 + body.acc_x,
        cell_center_spec(body.anchor.y as int, units) + mean_offset(body, body.step, units).1 + body.acc_y,
    )
}

/// A body whose accumulators are far from the ends of `i64`.
pub open spec fn accumulators_bounded(body: &Body) -> bool {
    &&& abs(body.acc_x as int) <= 0x1000_0000_0000_0000
    &&& abs(body.acc_y as int) <= 0x1000_0000_0000_0000
    &&& abs(body.acc_turn as int) <= 0x1000_0000_0000_0000
}

/// Carries out a committed proposal on its body: a translation moves the
/// anchor and spends one cell of the accumulator; a turn takes the new
/// orientation, spends one orientation step of the turn accumulator and moves
/// the translation accumulators against the shift of the center of mass. The
/// body then occupies `candidate`.
pub fn apply_commit(body: &mut Body, proposal: &Proposal, candidate: Vec<CellPos>, units: i64)
    requires
        1 <= units <= 0x4000,
        slots_in_range(old(body).slots@),
        old(body).mass == total_mass(old(body).slots@),
        old(body).step < 0x7fff_ffe0,
        proposal.new_step < 0x7fff_ffe0,
        accumulators_bounded(old(body)),
        -1 <= proposal.sign <= 1,
        proposal.freedom != Freedom::Turn ==> i32::MIN <= old(body).anchor.x + proposal.translation.0 <= i32::MAX
            && i32::MIN <= old(body).anchor.y + proposal.translation.1 <= i32::MAX,
    ensures
        final(body).raster@ == candidate@,
        proposal.freedom == Freedom::X ==> final(body).anchor.x == old(body).anchor.x + proposal.translation.0
            && final(body).anchor.y == old(body).anchor.y + proposal.translation.1
            && final(body).acc_x == old(body).acc_x - proposal.sign * units
            && final(body).acc_y == old(body).acc_y && final(body).acc_turn == old(body).acc_turn
            && final(body).step == old(body).step,
        proposal.freedom == Freedom::Y ==> final(body).anchor.x == old(body).anchor.x + proposal.translation.0
            && final(body).anchor.y == old(body).anchor.y + proposal.translation.1
            && final(body).acc_y == old(body).acc_y - proposal.sign * units
            && final(body).acc_x == old(body).acc_x && final(body).acc_turn == old(body).acc_turn
            && final(body).step == old(body).step,
        proposal.freedom == Freedom::Turn ==> final(body).anchor == old(body).anchor
            && final(body).step == proposal.new_step
            && final(body).acc_turn == old(body).acc_turn - proposal.sign * ORIENTATION_UNITS
            && final(body).acc_x == old(body).acc_x
                - (mean_offset(old(body), proposal.new_step, units as int).0 - mean_offset(old(body), old(body).step, units as int).0)
            && final(body).acc_y == old(body).acc_y
                - (mean_offset(old(body), proposal.new_step, units as int).1 - mean_offset(old(body), old(body).step, units as int).1),
        (proposal.freedom == Freedom::Turn
            || (proposal.freedom == Freedom::X && proposal.translation == (proposal.sign, 0i32))
            || (proposal.freedom == Freedom::Y && proposal.translation == (0i32, proposal.sign)))
            ==> tracked_position(final(body), units as int) == tracked_position(old(body), units as int),
        final(body).slots == old(body).slots && final(body).mass == old(body).mass,
        final(body).vx == old(body).vx && final(body).vy == old(body).vy && final(body).spin == old(body).spin,
        final(body).freedoms == old(body).freedoms && final(body).id == old(body).id,
{
    let ghost before = *body;
    assert(-units <= (proposal.sign as i64) * units <= units) by (nonlinear_arith)
        requires
            -1 <= proposal.sign <= 1,
            1 <= units,
    ;
    match proposal.freedom {
        Freedom::X => {
            body.anchor = body.anchor.translated(proposal.translation.0, proposal.translation.1);
            body.acc_x = body.acc_x - (proposal.sign as i64) * units;
        },
        Freedom::Y => {
            body.anchor = body.anchor.translated(proposal.translation.0, proposal.translation.1);
            body.acc_y = body.acc_y - (proposal.sign as i64) * units;
        },
        Freedom::Turn => {
            proof {
                crate::state::lemma_total_mass_at_least_len(body.slots@);
            }
            let was = rotated_mean(body.slots.as_slice(), body.mass, body.step, units);
            let now = rotated_mean(body.slots.as_slice(), body.mass, proposal.new_step, units);
            body.step = proposal.new_step;
            body.acc_turn = body.acc_turn - (proposal.sign as i64) * ORIENTATION_UNITS;
            body.acc_x = body.acc_x - (now.0 - was.0);
            body.acc_y = body.acc_y - (now.1 - was.1);
        },
    }
    body.raster = candidate;
    proof {
        let (tx, ty) = (proposal.translation.0 as int, proposal.translation.1 as int);
        let (ax, ay) = (before.anchor.x as int, before.anchor.y as int);
        let u = units as int;
        assert((ax + tx) * u + u / 2 == ax * u + u / 2 + tx * u) by (nonlinear_arith);
        assert((ay + ty) * u + u / 2 == ay * u + u / 2 + ty * u) by (nonlinear_arith);
        assert(mean_offset(body, proposal.new_step, u) == mean_offset(&before, proposal.new_step, u));
        assert(mean_offset(body, before.step, u) == mean_offset(&before, before.step, u));
    }
}


/// The remainder of `a` divided by `b`, with the sign of `a`.
pub open spec fn rem_toward_zero(a: int, b: int) -> int {
    a - b * trunc_div_spec(a, b)
}

/// The remainder of `a` divided by `b`, with the sign of `a` (as `%` gives it).
fn rem_keeping_sign(a: i64, b: i64) -> (r: i64)
    requires
        b >= 1,
    ensures
        r == rem_toward_zero(a as int, b as int),
{
    if a < 0 {
        let n: i128 = -(a as i128);
        let r: i64 = (n % (b as i128)) as i64;
        proof {
            vstd::arithmetic::div_mod::lemma_fundamental_div_mod(n as int, b as int);
            assert(trunc_div_spec(a as int, b as int) == -((n as int) / (b as int)));
            assert((b as int) * (-((n as int) / (b as int))) == -((b as int) * ((n as int) / (b as int)))) by (nonlinear_arith);
        }
        -r
    } else {
        proof {
            vstd::arithmetic::div_mod::lemma_fundamental_div_mod(a as int, b as int);
        }
        a % b
    }
}

/// What a refused quantum leaves of a body's accumulator when the contacts
/// closed on it: the quantum is given back, and if the body rebounded
/// (its velocity along the freedom no longer points the proposed way) the
/// rest turns around in proportion to the rebound speed over the approach
/// speed, limited to `max_speed`.
pub open spec fn rebound_accumulator(acc: int, sign: int, threshold: int, rebound: int, approach: int, max_speed: int) -> int {
    let spent = acc - sign * threshold;
    if signum(rebound) != sign {
        let scaled = round_div_spec(-spent * abs(rebound), if abs(approach) >= 1 { abs(approach) } else { 1 });
        clamp_spec((#[verifier::truncate] (scaled as i64)) as int, -max_speed, max_speed)
    } else {
        spent
    }
}

/// Settles a proposal after the round's contacts: a probe marks its freedom
/// probed; a canceled proposal keeps only the fraction of a quantum; a
/// refused one rebounds (`rebound_accumulator`) when its contacts closed
/// (`closes`, with `approach` the velocity along the freedom before the
/// contacts), else keeps the fraction and parks the freedom. Committed
/// proposals leave everything as it is.
pub fn settle_proposal(
    body: &mut Body,
    state: &mut FreedomState,
    proposal: &Proposal,
    closes: bool,
    approach: i64,
    max_speed: i64,
    units: i64,
)
    requires
        1 <= units <= 0x1_0000,
        0 <= max_speed,
        -1 <= proposal.sign <= 1,
        !proposal.probe && !proposal.canceled && proposal.refused && closes ==> i64::MIN
            <= accumulator_spec(proposal.freedom, old(body)) - proposal.sign * threshold_spec(proposal.freedom, units as int) <= i64::MAX,
        approach > i64::MIN,
        velocity_spec(proposal.freedom, old(body)) > i64::MIN,
    ensures
        final(body).vx == old(body).vx && final(body).vy == old(body).vy && final(body).spin == old(body).spin,
        final(body).anchor == old(body).anchor && final(body).step == old(body).step,
        final(body).slots == old(body).slots && final(body).raster == old(body).raster,
        final(body).mass == old(body).mass && final(body).id == old(body).id,
        forall|g: Freedom| g != proposal.freedom ==> accumulator_spec(g, final(body)) == accumulator_spec(g, old(body)),
        proposal.probe ==> *final(state) == (FreedomState { parked: old(state).parked, probed: true })
            && accumulator_spec(proposal.freedom, final(body)) == accumulator_spec(proposal.freedom, old(body)),
        !proposal.probe && proposal.canceled ==> *final(state) == *old(state)
            && accumulator_spec(proposal.freedom, final(body)) == rem_toward_zero(
                accumulator_spec(proposal.freedom, old(body)) as int, threshold_spec(proposal.freedom, units as int)),
        !proposal.probe && !proposal.canceled && proposal.refused && closes ==> *final(state) == *old(state)
            && accumulator_spec(proposal.freedom, final(body)) == rebound_accumulator(
                accumulator_spec(proposal.freedom, old(body)) as int, proposal.sign as int,
                threshold_spec(proposal.freedom, units as int), velocity_spec(proposal.freedom, old(body)) as int,
                approach as int, max_speed as int),
        !proposal.probe && !proposal.canceled && proposal.refused && !closes
            ==> *final(state) == (FreedomState { parked: true, probed: old(state).probed })
            && accumulator_spec(proposal.freedom, final(body)) == rem_toward_zero(
                accumulator_spec(proposal.freedom, old(body)) as int, threshold_spec(proposal.freedom, units as int)),
        !proposal.probe && !proposal.canceled && !proposal.refused ==> *final(state) == *old(state)
            && accumulator_spec(proposal.freedom, final(body)) == accumulator_spec(proposal.freedom, old(body)),
{
    let f = proposal.freedom;
    if proposal.probe {
        state.probed = true;
        return;
    }
    let threshold = f.threshold(units);
    if proposal.canceled {
        let acc = f.accumulator(body);
        f.set_accumulator(body, rem_keeping_sign(acc, threshold));
        return;
    }
    if !proposal.refused {
        return;
    }
    if closes {
        assert(-threshold <= (proposal.sign as i64) * threshold <= threshold) by (nonlinear_arith)
            requires
                -1 <= proposal.sign <= 1,
                1 <= threshold,
        ;
        let spent: i64 = f.accumulator(body) - (proposal.sign as i64) * threshold;
        let rebound = f.velocity(body);
        let rebound_sign: i32 = if rebound > 0 { 1 } else if rebound < 0 { -1 } else { 0 };
        if rebound_sign != proposal.sign {
            let speed: i128 = if rebound < 0 { -(rebound as i128) } else { rebound as i128 };
            let slow: i128 = if approach < 0 { -(approach as i128) } else { approach as i128 };
            let denominator: i128 = if slow >= 1 { slow } else { 1 };
            assert(abs(-spent * speed) <= 0x8000_0000_0000_0000 * 0x8000_0000_0000_0000) by (nonlinear_arith)
                requires
                    abs(spent as int) <= 0x8000_0000_0000_0000,
                    0 <= speed <= 0x8000_0000_0000_0000,
            ;
            let numer: i128 = -(spent as i128) * speed;
            let scaled = round_div_i128(numer, denominator);
            let narrowed: i64 = #[verifier::truncate] (scaled as i64);
            let limited: i64 = if narrowed < -max_speed {
                -max_speed
            } else if narrowed > max_speed {
                max_speed
            } else {
                narrowed
            };
            f.set_accumulator(body, limited);
        } else {
            f.set_accumulator(body, spent);
        }
    } else {
        let acc = f.accumulator(body);
        f.set_accumulator(body, rem_keeping_sign(acc, threshold));
        state.parked = true;
    }
}


/// The velocity of a body's material at cell `at`.
pub open spec fn point_velocity_spec(body: &Body, com: (i64, i64), at: CellPos, units: int) -> (int, int) {
    (
        body.vx - speed_at_spec(body.spin.0 as int, cell_center_spec(at.y as int, units) - com.1),
        body.vy + speed_at_spec(body.spin.0 as int, cell_center_spec(at.x as int, units) - com.0),
    )
}

/// Whether the body of a contact moves into it, along the normal's `x`
/// part, its `y` part, and overall.
pub open spec fn contact_closes(bodies: Seq<Body>, coms: Seq<(i64, i64)>, c: Contact, units: int) -> (bool, bool, bool) {
    let v = point_velocity_spec(&bodies[c.body as int], coms[c.body as int], c.at, units);
    (v.0 * c.normal.0 < 0, v.1 * c.normal.1 < 0, v.0 * c.normal.0 + v.1 * c.normal.1 < 0)
}

/// A contact that can push: a diagonal one only when the body closes on it
/// along both axes.
pub open spec fn contact_kept(bodies: Seq<Body>, coms: Seq<(i64, i64)>, c: Contact, units: int) -> bool {
    let (cx, cy, _) = contact_closes(bodies, coms, c, units);
    !(c.normal.0 != 0 && c.normal.1 != 0 && !(cx && cy))
}

/// The contacts kept, in order, without bounce when `resting`.
pub open spec fn screened(bodies: Seq<Body>, coms: Seq<(i64, i64)>, s: Seq<Contact>, resting: bool, units: int) -> Seq<Contact>
    decreases s.len(),
{
    if s.len() == 0 {
        Seq::empty()
    } else {
        let rest = screened(bodies, coms, s.drop_last(), resting, units);
        let c = s.last();
        if contact_kept(bodies, coms, c, units) {
            rest.push(if resting { Contact { restitution: Q16(0), ..c } } else { c })
        } else {
            rest
        }
    }
}

/// Contacts of listed bodies with normals of unit steps.
pub open spec fn contacts_in_range(s: Seq<Contact>, bodies: Seq<Body>) -> bool {
    forall|k: int| 0 <= k < s.len() ==> (#[trigger] s[k]).body < bodies.len()
        && abs(s[k].normal.0 as int) <= 1 && abs(s[k].normal.1 as int) <= 1
}

/// Drops the contacts of a refused proposal that cannot push (diagonal ones
/// the body does not close on along both axes), takes the bounce out of a
/// resting body's contacts, and reports whether any kept contact closes.
pub fn screen_contacts(bodies: &[Body], coms: &[(i64, i64)], contacts: &mut Vec<Contact>, resting: bool, units: i64) -> (any: bool)
    requires
        1 <= units <= 0x1_0000,
        bodies_in_range(bodies@, coms@),
        contacts_in_range(old(contacts)@, bodies@),
    ensures
        final(contacts)@ == screened(bodies@, coms@, old(contacts)@, resting, units as int),
        any == exists|k: int| 0 <= k < final(contacts)@.len()
            && (#[trigger] contact_closes(bodies@, coms@, final(contacts)@[k], units as int)).2,
{
    let ghost original = contacts@;
    let mut kept: Vec<Contact> = Vec::new();
    let mut any = false;
    let mut k: usize = 0;
    while k < contacts.len()
        invariant
            1 <= units <= 0x1_0000,
            bodies_in_range(bodies@, coms@),
            contacts_in_range(original, bodies@),
            contacts@ == original,
            0 <= k <= original.len(),
            kept@ == screened(bodies@, coms@, original.subrange(0, k as int), resting, units as int),
            any == exists|j: int| 0 <= j < kept@.len() && (#[trigger] contact_closes(bodies@, coms@, kept@[j], units as int)).2,
        decreases original.len() - k,
    {
        let c = contacts[k];
        assert(original.subrange(0, k + 1).drop_last() =~= original.subrange(0, k as int));
        assert(original.subrange(0, k + 1).last() == c);
        let body = &bodies[c.body];
        let com = coms[c.body];
        let point = body.point_velocity(com, c.at, units);
        proof {
            lemma_cell_center_near(c.at.x as int, com.0 as int, units as int);
            lemma_cell_center_near(c.at.y as int, com.1 as int, units as int);
            lemma_speed_bounded(body.spin.0 as int, cell_center_spec(c.at.y as int, units as int) - com.1);
            lemma_speed_bounded(body.spin.0 as int, cell_center_spec(c.at.x as int, units as int) - com.0);
        }
        let nx: i64 = c.normal.0 as i64;
        let ny: i64 = c.normal.1 as i64;
        assert(abs(point.0 * nx) <= 0x2000_0000_0000_0000 && abs(point.1 * ny) <= 0x2000_0000_0000_0000) by (nonlinear_arith)
            requires
                abs(point.0 as int) <= 0x2000_0000_0000_0000,
                abs(point.1 as int) <= 0x2000_0000_0000_0000,
                abs(nx as int) <= 1,
                abs(ny as int) <= 1,
        ;
        let closes_x = point.0 * nx < 0;
        let closes_y = point.1 * ny < 0;
        let closes = (point.0 as i128) * (nx as i128) + (point.1 as i128) * (ny as i128) < 0;
        let diagonal = c.normal.0 != 0 && c.normal.1 != 0;
        if !(diagonal && !(closes_x && closes_y)) {
            let ghost before = kept@;
            let kept_contact = if resting { Contact { restitution: Q16::from_raw(0), ..c } } else { c };
            kept.push(kept_contact);
            any = any || closes;
            proof {
                assert(contact_closes(bodies@, coms@, kept_contact, units as int).2 == closes);
                assert forall|j: int| 0 <= j < before.len() implies kept@[j] == before[j] by {}
                if closes {
                    assert(contact_closes(bodies@, coms@, kept@[before.len() as int], units as int).2);
                }
            }
        }
        k = k + 1;
    }
    assert(original.subrange(0, original.len() as int) =~= original);
    *contacts = kept;
    any
}


/// How contacts with a peer are ordered: terrain first, then bodies by id,
/// then loose cells by position (row, then column).
pub open spec fn peer_rank_spec(bodies: Seq<Body>, peer: Peer) -> (int, int) {
    match peer {
        Peer::Terrain => (0, 0),
        Peer::Body(i) => (1, bodies[i as int].id as int),
        Peer::Cell { pos, .. } => (2, pair_key(pos.y, pos.x) as int),
    }
}

/// The rank of a contact's peer.
pub fn peer_rank(bodies: &[Body], peer: &Peer) -> (r: (u8, u64))
    requires
        peer matches Peer::Body(i) ==> i < bodies@.len(),
    ensures
        (r.0 as int, r.1 as int) == peer_rank_spec(bodies@, *peer),
{
    match peer {
        Peer::Terrain => (0, 0),
        Peer::Body(i) => (1, bodies[*i].id as u64),
        Peer::Cell { pos, .. } => (2, key_of_pair(pos.y, pos.x)),
    }
}

/// The order in which a round resolves its contacts: by body id, peer rank,
/// cell row, cell column and normal.
pub open spec fn contact_order(bodies: Seq<Body>, c: Contact) -> (int, int, int, int, int, int, int) {
    let rank = peer_rank_spec(bodies, c.peer);
    (bodies[c.body as int].id as int, rank.0, rank.1, c.at.y as int, c.at.x as int, c.normal.0 as int, c.normal.1 as int)
}

/// Lexicographic order on contact keys.
pub open spec fn order_lt(a: (int, int, int, int, int, int, int), b: (int, int, int, int, int, int, int)) -> bool {
    a.0 < b.0 || (a.0 == b.0 && (a.1 < b.1 || (a.1 == b.1 && (a.2 < b.2 || (a.2 == b.2 && (a.3 < b.3
        || (a.3 == b.3 && (a.4 < b.4 || (a.4 == b.4 && (a.5 < b.5 || (a.5 == b.5 && a.6 < b.6)))))))))))
}

/// Contacts in resolving order.
pub open spec fn contacts_ordered(bodies: Seq<Body>, s: Seq<Contact>) -> bool {
    forall|i: int, j: int| 0 <= i < j < s.len() ==> !order_lt(contact_order(bodies, #[trigger] s[j]), contact_order(bodies, #[trigger] s[i]))
}

/// Contacts whose bodies and peer bodies are listed.
pub open spec fn contacts_listed(s: Seq<Contact>, bodies: Seq<Body>) -> bool {
    forall|k: int| 0 <= k < s.len() ==> (#[trigger] s[k]).body < bodies.len()
        && (s[k].peer matches Peer::Body(i) ==> i < bodies.len())
}

fn contact_order_of(bodies: &[Body], c: &Contact) -> (r: (u32, u8, u64, i32, i32, i32, i32))
    requires
        c.body < bodies@.len(),
        c.peer matches Peer::Body(i) ==> i < bodies@.len(),
    ensures
        (r.0 as int, r.1 as int, r.2 as int, r.3 as int, r.4 as int, r.5 as int, r.6 as int) == contact_order(bodies@, *c),
{
    let rank = peer_rank(bodies, &c.peer);
    (bodies[c.body].id, rank.0, rank.1, c.at.y, c.at.x, c.normal.0, c.normal.1)
}

fn order_less(a: (u32, u8, u64, i32, i32, i32, i32), b: (u32, u8, u64, i32, i32, i32, i32)) -> (r: bool)
    ensures
        r == order_lt((a.0 as int, a.1 as int, a.2 as int, a.3 as int, a.4 as int, a.5 as int, a.6 as int),
            (b.0 as int, b.1 as int, b.2 as int, b.3 as int, b.4 as int, b.5 as int, b.6 as int)),
{
    a.0 < b.0 || (a.0 == b.0 && (a.1 < b.1 || (a.1 == b.1 && (a.2 < b.2 || (a.2 == b.2 && (a.3 < b.3
        || (a.3 == b.3 && (a.4 < b.4 || (a.4 == b.4 && (a.5 < b.5 || (a.5 == b.5 && a.6 < b.6)))))))))))
}

/// Puts the contacts in resolving order, keeping every contact.
pub fn order_contacts(bodies: &[Body], contacts: Vec<Contact>) -> (r: Vec<Contact>)
    requires
        contacts_listed(contacts@, bodies@),
    ensures
        r@.to_multiset() == contacts@.to_multiset(),
        contacts_ordered(bodies@, r@),
{
    broadcast use vstd::seq_lib::to_multiset_insert;
    let mut out: Vec<Contact> = Vec::new();
    let mut i: usize = 0;
    proof {
        vstd::seq_lib::to_multiset_len(out@);
        vstd::seq_lib::to_multiset_len(contacts@.subrange(0, 0));
        assert(out@.to_multiset() =~= contacts@.subrange(0, 0).to_multiset()) by {
            broadcast use vstd::multiset::group_multiset_axioms;
            assert(out@.to_multiset().len() == 0);
            assert(contacts@.subrange(0, 0).to_multiset().len() == 0);
            vstd::multiset::lemma_multiset_empty_len(out@.to_multiset());
            vstd::multiset::lemma_multiset_empty_len(contacts@.subrange(0, 0).to_multiset());
        }
    }
    while i < contacts.len()
        invariant
            contacts_listed(contacts@, bodies@),
            0 <= i <= contacts@.len(),
            out@.to_multiset() == contacts@.subrange(0, i as int).to_multiset(),
            contacts_ordered(bodies@, out@),
            forall|k: int| 0 <= k < out@.len() ==> (#[trigger] out@[k]).body < bodies@.len()
                && (out@[k].peer matches Peer::Body(b) ==> b < bodies@.len()),
        decreases contacts@.len() - i,
    {
        let c = contacts[i];
        let key = contact_order_of(bodies, &c);
        let mut k: usize = 0;
        while k < out.len()
            invariant
                0 <= k <= out@.len(),
                (key.0 as int, key.1 as int, key.2 as int, key.3 as int, key.4 as int, key.5 as int, key.6 as int)
                    == contact_order(bodies@, c),
                forall|k: int| 0 <= k < out@.len() ==> (#[trigger] out@[k]).body < bodies@.len()
                    && (out@[k].peer matches Peer::Body(b) ==> b < bodies@.len()),
                forall|j: int| 0 <= j < k ==> !order_lt(contact_order(bodies@, c), contact_order(bodies@, #[trigger] out@[j])),
            ensures
                0 <= k <= out@.len(),
                forall|j: int| 0 <= j < k ==> !order_lt(contact_order(bodies@, c), contact_order(bodies@, #[trigger] out@[j])),
                k < out@.len() ==> order_lt(contact_order(bodies@, c), contact_order(bodies@, out@[k as int])),
            decreases out@.len() - k,
        {
            let other = contact_order_of(bodies, &out[k]);
            if order_less(key, other) {
                break;
            }
            k = k + 1;
        }
        let ghost before = out@;
        out.insert(k, c);
        proof {
            assert(contacts@.subrange(0, i + 1) =~= contacts@.subrange(0, i as int).push(c));
            vstd::seq_lib::to_multiset_build(contacts@.subrange(0, i as int), c);
            assert(out@ == before.insert(k as int, c));
            vstd::seq_lib::to_multiset_insert(before, k as int, c);
            assert forall|a: int, b: int| 0 <= a < b < out@.len() implies
                !order_lt(contact_order(bodies@, #[trigger] out@[b]), contact_order(bodies@, #[trigger] out@[a])) by {
                if b < k {
                    assert(out@[a] == before[a] && out@[b] == before[b]);
                } else if b == k {
                    assert(out@[a] == before[a]);
                } else if a < k {
                    assert(out@[a] == before[a] && out@[b] == before[b - 1]);
                    assert(!order_lt(contact_order(bodies@, before[b - 1]), contact_order(bodies@, before[k as int])));
                } else if a == k {
                    assert(out@[b] == before[b - 1]);
                    assert(!order_lt(contact_order(bodies@, before[b - 1]), contact_order(bodies@, before[k as int])));
                } else {
                    assert(out@[a] == before[a - 1] && out@[b] == before[b - 1]);
                }
            }
            assert forall|m: int| 0 <= m < out@.len() implies (#[trigger] out@[m]).body < bodies@.len()
                && (out@[m].peer matches Peer::Body(b) ==> b < bodies@.len()) by {
                if m < k {
                    assert(out@[m] == before[m]);
                } else if m > k {
                    assert(out@[m] == before[m - 1]);
                }
            }
        }
        i = i + 1;
    }
    assert(contacts@.subrange(0, contacts@.len() as int) =~= contacts@);
    out
}


/// A proposal still waiting after the ready ones committed: standing,
/// uncommitted and not a probe.
pub open spec fn waiting(p: &Proposal) -> bool {
    !p.refused && !p.canceled && !p.committed && !p.probe
}

/// Indices strictly increasing (hence distinct).
pub open spec fn increasing(s: Seq<usize>) -> bool {
    forall|i: int, j: int| 0 <= i < j < s.len() ==> #[trigger] s[i] < #[trigger] s[j]
}

proof fn lemma_increasing_len(s: Seq<usize>, n: int)
    requires
        n >= 0,
        increasing(s),
        forall|i: int| 0 <= i < s.len() ==> #[trigger] s[i] < n,
    ensures
        s.len() <= n,
    decreases s.len(),
{
    if s.len() > 0 {
        let t = s.drop_last();
        assert forall|i: int| 0 <= i < t.len() implies #[trigger] t[i] < s.last() by {
            assert(t[i] == s[i]);
            assert(s[i] < s[s.len() - 1]);
        }
        assert forall|i: int, j: int| 0 <= i < j < t.len() implies #[trigger] t[i] < #[trigger] t[j] by {
            assert(t[i] == s[i] && t[j] == s[j]);
        }
        assert(s[s.len() - 1] < n);
        lemma_increasing_len(t, s.last() as int);
    }
}

fn holds_index(v: &Vec<usize>, x: usize) -> (r: bool)
    ensures
        r == v@.contains(x),
{
    let mut i: usize = 0;
    while i < v.len()
        invariant
            0 <= i <= v@.len(),
            forall|k: int| 0 <= k < i ==> v@[k] != x,
        decreases v@.len() - i,
    {
        if v[i] == x {
            return true;
        }
        i = i + 1;
    }
    false
}

fn insert_increasing(v: &mut Vec<usize>, x: usize)
    requires
        increasing(old(v)@),
        !old(v)@.contains(x),
    ensures
        increasing(final(v)@),
        final(v)@.len() == old(v)@.len() + 1,
        forall|e: usize| final(v)@.contains(e) <==> (old(v)@.contains(e) || e == x),
{
    let ghost before = v@;
    let mut k: usize = 0;
    while k < v.len()
        invariant
            v@ == before,
            increasing(before),
            0 <= k <= before.len(),
            forall|i: int| 0 <= i < k ==> #[trigger] before[i] < x,
        ensures
            0 <= k <= before.len(),
            forall|i: int| 0 <= i < k ==> #[trigger] before[i] < x,
            k < before.len() ==> before[k as int] >= x,
        decreases before.len() - k,
    {
        if v[k] >= x {
            break;
        }
        k = k + 1;
    }
    v.insert(k, x);
    proof {
        let after = v@;
        assert forall|i: int| 0 <= i < after.len() implies #[trigger] after[i] == (if i < k {
            before[i]
        } else if i == k {
            x
        } else {
            before[i - 1]
        }) by {}
        if k < before.len() {
            assert(before[k as int] != x);
        }
        assert forall|i: int, j: int| 0 <= i < j < after.len() implies #[trigger] after[i] < #[trigger] after[j] by {
            if j < k {
                assert(before[i] < before[j]);
            } else if j == k {
            } else if i < k {
                if j - 1 > k {
                    assert(before[k as int] < before[j - 1]);
                }
            } else if i == k {
                if j - 1 > k {
                    assert(before[k as int] < before[j - 1]);
                }
            } else {
                assert(before[i - 1] < before[j - 1]);
            }
        }
        assert forall|e: usize| after.contains(e) <==> (before.contains(e) || e == x) by {
            if after.contains(e) {
                let i = choose|i: int| 0 <= i < after.len() && after[i] == e;
                if i < k {
                    assert(before[i] == e);
                } else if i > k {
                    assert(before[i - 1] == e);
                }
            }
            if before.contains(e) {
                let i = choose|i: int| 0 <= i < before.len() && before[i] == e;
                if i < k {
                    assert(after[i] == e);
                } else {
                    assert(after[i + 1] == e);
                }
            }
            if e == x {
                assert(after[k as int] == e);
            }
        }
    }
}

/// Every dependency of a member of `group` that is among `pool` is in `group`.
pub open spec fn closed_within(ps: Seq<Proposal>, group: Seq<usize>, pool: Seq<usize>) -> bool {
    forall|k: int, j: int| 0 <= k < group.len() && 0 <= j < ps[group[k] as int].deps@.len()
        && pool.contains((#[trigger] ps[group[k] as int].deps@[j]).0) ==> group.contains(ps[group[k] as int].deps@[j].0)
}

/// The proposals of `pool` that `start` waits on, directly or through others
/// of `pool`, with `start` itself, in increasing order.
fn dependency_closure(proposals: &Vec<Proposal>, pool: &Vec<usize>, start: usize) -> (group: Vec<usize>)
    requires
        deps_valid(proposals@),
        pool@.contains(start),
        forall|k: int| 0 <= k < pool@.len() ==> #[trigger] pool@[k] < proposals@.len(),
    ensures
        increasing(group@),
        group@.contains(start),
        forall|e: usize| group@.contains(e) ==> pool@.contains(e),
        closed_within(proposals@, group@, pool@),
{
    let ghost n = proposals@.len();
    let mut group: Vec<usize> = Vec::new();
    insert_increasing(&mut group, start);
    let mut frontier: Vec<usize> = Vec::new();
    frontier.push(start);
    proof {
        assert(group@.len() == 1);
        assert(group@.contains(start));
        let i = choose|i: int| 0 <= i < group@.len() && group@[i] == start;
        assert(group@[0] == start);
        assert(frontier@[0] == start);
        assert(frontier@.contains(start));
        assert forall|e: usize| frontier@.contains(e) implies group@.contains(e) by {
            let i = choose|i: int| 0 <= i < frontier@.len() && frontier@[i] == e;
        }
    }
    while frontier.len() > 0
        invariant
            deps_valid(proposals@),
            n == proposals@.len(),
            forall|k: int| 0 <= k < pool@.len() ==> #[trigger] pool@[k] < n,
            increasing(group@),
            group@.contains(start),
            forall|e: usize| group@.contains(e) ==> pool@.contains(e),
            forall|e: usize| frontier@.contains(e) ==> group@.contains(e),
            forall|k: int, j: int| 0 <= k < group@.len() && !frontier@.contains(group@[k])
                && 0 <= j < proposals@[group@[k] as int].deps@.len()
                && pool@.contains((#[trigger] proposals@[group@[k] as int].deps@[j]).0)
                ==> group@.contains(proposals@[group@[k] as int].deps@[j].0),
        decreases n - group@.len(), frontier@.len(),
    {
        proof {
            assert forall|i: int| 0 <= i < group@.len() implies #[trigger] group@[i] < n by {
                assert(group@.contains(group@[i]));
                let k = choose|k: int| 0 <= k < pool@.len() && pool@[k] == group@[i];
            }
            lemma_increasing_len(group@, n as int);
        }
        let ghost f_before = frontier@;
        let p = frontier.pop().unwrap();
        let ghost popped_from = frontier@.push(p);
        assert(popped_from =~= f_before);
        assert(group@.contains(p)) by {
            assert(popped_from.contains(p)) by {
                assert(popped_from[popped_from.len() - 1] == p);
            }
        }
        let ghost group_at_pop = group@;
        let ghost before_len = group@.len();
        assert(p < n) by {
            let k = choose|k: int| 0 <= k < pool@.len() && pool@[k] == p;
        }
        let mut j: usize = 0;
        while j < proposals[p].deps.len()
            invariant
                deps_valid(proposals@),
                n == proposals@.len(),
                p < n,
                forall|k: int| 0 <= k < pool@.len() ==> #[trigger] pool@[k] < n,
                increasing(group@),
                group@.contains(start),
                group@.contains(p),
                group@.len() >= before_len,
                forall|e: usize| group_at_pop.contains(e) ==> group@.contains(e),
                forall|e: usize| group@.contains(e) ==> pool@.contains(e),
                forall|e: usize| group@.contains(e) && !group_at_pop.contains(e) ==> frontier@.contains(e),
                forall|e: usize| frontier@.contains(e) ==> group@.contains(e),
                forall|e: usize| popped_from.contains(e) && e != p ==> frontier@.contains(e),
                0 <= j <= proposals@[p as int].deps@.len(),
                forall|i: int| 0 <= i < j && pool@.contains((#[trigger] proposals@[p as int].deps@[i]).0)
                    ==> group@.contains(proposals@[p as int].deps@[i].0),
                forall|k: int, i: int| 0 <= k < group_at_pop.len() && !popped_from.contains(group_at_pop[k])
                    && 0 <= i < proposals@[group_at_pop[k] as int].deps@.len()
                    && pool@.contains((#[trigger] proposals@[group_at_pop[k] as int].deps@[i]).0)
                    ==> group@.contains(proposals@[group_at_pop[k] as int].deps@[i].0),
                (group@.len() > before_len) || frontier@.len() < popped_from.len(),
            decreases proposals@[p as int].deps@.len() - j,
        {
            let dep = proposals[p].deps[j].0;
            if holds_index(pool, dep) && !holds_index(&group, dep) {
                let ghost g0 = group@;
                let ghost f0 = frontier@;
                insert_increasing(&mut group, dep);
                frontier.push(dep);
                proof {
                    assert(frontier@.contains(dep)) by {
                        assert(frontier@[frontier@.len() - 1] == dep);
                    }
                    assert forall|e: usize| f0.contains(e) implies frontier@.contains(e) by {
                        let i = choose|i: int| 0 <= i < f0.len() && f0[i] == e;
                        assert(frontier@[i] == e);
                    }
                    assert forall|e: usize| frontier@.contains(e) implies group@.contains(e) by {
                        let i = choose|i: int| 0 <= i < frontier@.len() && frontier@[i] == e;
                        if i < f0.len() {
                            assert(f0[i] == e);
                        }
                    }
                }
            }
            j = j + 1;
        }
        proof {
            assert forall|k: int, i: int| 0 <= k < group@.len() && !frontier@.contains(group@[k])
                && 0 <= i < proposals@[group@[k] as int].deps@.len()
                && pool@.contains((#[trigger] proposals@[group@[k] as int].deps@[i]).0)
                implies group@.contains(proposals@[group@[k] as int].deps@[i].0) by {
                let e = group@[k];
                assert(group@.contains(e));
                if e == p {
                } else if group_at_pop.contains(e) {
                    let k0 = choose|k0: int| 0 <= k0 < group_at_pop.len() && group_at_pop[k0] == e;
                    if popped_from.contains(e) {
                        assert(frontier@.contains(e));
                    }
                } else {
                    assert(frontier@.contains(e));
                }
            }
            if group@.len() == before_len {
                assert(frontier@.len() < popped_from.len());
            }
            assert forall|i: int| 0 <= i < group@.len() implies #[trigger] group@[i] < n by {
                assert(group@.contains(group@[i]));
                let k = choose|k: int| 0 <= k < pool@.len() && pool@[k] == group@[i];
            }
            lemma_increasing_len(group@, n as int);
        }
    }
    proof {
        assert forall|k: int, j: int| 0 <= k < group@.len() && 0 <= j < proposals@[group@[k] as int].deps@.len()
            && pool@.contains((#[trigger] proposals@[group@[k] as int].deps@[j]).0)
            implies group@.contains(proposals@[group@[k] as int].deps@[j].0) by {
            assert(!frontier@.contains(group@[k]));
        }
    }
    group
}


/// The proposals of `pool` outside `group`, in order.
fn without(pool: &Vec<usize>, group: &Vec<usize>) -> (rest: Vec<usize>)
    requires
        increasing(pool@),
    ensures
        increasing(rest@),
        forall|e: usize| rest@.contains(e) <==> (pool@.contains(e) && !group@.contains(e)),
        (exists|e: usize| pool@.contains(e) && group@.contains(e)) ==> rest@.len() < pool@.len(),
        rest@.len() <= pool@.len(),
{
    let mut rest: Vec<usize> = Vec::new();
    let mut i: usize = 0;
    let ghost mut dropped = false;
    while i < pool.len()
        invariant
            increasing(pool@),
            0 <= i <= pool@.len(),
            increasing(rest@),
            forall|k: int| 0 <= k < rest@.len() ==> exists|m: int| 0 <= m < i && #[trigger] pool@[m] == #[trigger] rest@[k],
            forall|e: usize| rest@.contains(e) <==> (pool@.subrange(0, i as int).contains(e) && !group@.contains(e)),
            rest@.len() + (if dropped { 1int } else { 0 }) <= i,
            dropped <== exists|m: int| 0 <= m < i && #[trigger] group@.contains(pool@[m]),
        decreases pool@.len() - i,
    {
        let e = pool[i];
        let ghost before = rest@;
        if !holds_index(group, e) {
            rest.push(e);
            proof {
                assert forall|a: int, b: int| 0 <= a < b < rest@.len() implies #[trigger] rest@[a] < #[trigger] rest@[b] by {
                    if b == before.len() {
                        let m = choose|m: int| 0 <= m < i && #[trigger] pool@[m] == rest@[a];
                        assert(pool@[m] < pool@[i as int]);
                    } else {
                        assert(rest@[a] == before[a] && rest@[b] == before[b]);
                    }
                }
                assert forall|k: int| 0 <= k < rest@.len() implies exists|m: int| 0 <= m < i + 1 && #[trigger] pool@[m] == #[trigger] rest@[k] by {
                    if k == before.len() {
                        assert(pool@[i as int] == rest@[k]);
                    } else {
                        assert(rest@[k] == before[k]);
                        let m = choose|m: int| 0 <= m < i && #[trigger] pool@[m] == before[k];
                        assert(pool@[m] == rest@[k]);
                    }
                }
            }
        } else {
            proof {
                dropped = true;
            }
        }
        proof {
            let prefix = pool@.subrange(0, i as int);
            let next = pool@.subrange(0, i + 1);
            assert(next =~= prefix.push(e));
            assert forall|x: usize| rest@.contains(x) <==> (next.contains(x) && !group@.contains(x)) by {
                if rest@.contains(x) {
                    let k = choose|k: int| 0 <= k < rest@.len() && rest@[k] == x;
                    if k < before.len() {
                        assert(before[k] == x);
                        assert(before.contains(x));
                        let m = choose|m: int| 0 <= m < prefix.len() && prefix[m] == x;
                        assert(next[m] == x);
                    } else {
                        assert(next[i as int] == x);
                    }
                }
                if next.contains(x) && !group@.contains(x) {
                    let m = choose|m: int| 0 <= m < next.len() && next[m] == x;
                    if m < i {
                        assert(prefix[m] == x);
                        assert(prefix.contains(x));
                        assert(before.contains(x));
                        let k = choose|k: int| 0 <= k < before.len() && before[k] == x;
                        assert(rest@[k] == x);
                    } else {
                        assert(rest@[before.len() as int] == x);
                    }
                }
            }
        }
        i = i + 1;
    }
    proof {
        assert(pool@.subrange(0, pool@.len() as int) =~= pool@);
        if exists|e: usize| pool@.contains(e) && group@.contains(e) {
            let e = choose|e: usize| pool@.contains(e) && group@.contains(e);
            let m = choose|m: int| 0 <= m < pool@.len() && pool@[m] == e;
            assert(group@.contains(pool@[m]));
        }
    }
    rest
}

/// The groups in which the waiting proposals commit or fail together, in the
/// order they are tried: each is the first ungrouped waiting proposal with
/// everything it waits on among the ungrouped ones, in increasing order. The
/// groups partition the waiting proposals, and a group waits only on itself
/// and groups before it.
pub fn commit_groups(proposals: &Vec<Proposal>) -> (groups: Vec<Vec<usize>>)
    requires
        deps_valid(proposals@),
    ensures
        forall|g: int| 0 <= g < groups@.len() ==> increasing((#[trigger] groups@[g])@) && groups@[g]@.len() > 0,
        forall|g: int, e: usize| 0 <= g < groups@.len() && #[trigger] groups@[g]@.contains(e)
            ==> e < proposals@.len() && waiting(&proposals@[e as int]),
        forall|p: int| 0 <= p < proposals@.len() && waiting(&proposals@[p])
            ==> exists|g: int| 0 <= g < groups@.len() && (#[trigger] groups@[g])@.contains(p as usize),
        forall|g1: int, g2: int, e: usize| 0 <= g1 < g2 < groups@.len()
            ==> !(#[trigger] groups@[g1]@.contains(e) && #[trigger] groups@[g2]@.contains(e)),
        forall|g: int, k: int, j: int| 0 <= g < groups@.len() && 0 <= k < groups@[g]@.len()
            && 0 <= j < proposals@[groups@[g]@[k] as int].deps@.len()
            && waiting(&proposals@[(#[trigger] proposals@[(#[trigger] groups@[g])@[k] as int].deps@[j]).0 as int])
            ==> exists|h: int| 0 <= h <= g && (#[trigger] groups@[h])@.contains(proposals@[groups@[g]@[k] as int].deps@[j].0),
{
    let ghost ps = proposals@;
    let ghost n = ps.len();
    let mut remaining: Vec<usize> = Vec::new();
    let mut p: usize = 0;
    while p < proposals.len()
        invariant
            ps == proposals@,
            n == ps.len(),
            0 <= p <= n,
            increasing(remaining@),
            forall|k: int| 0 <= k < remaining@.len() ==> #[trigger] remaining@[k] < p,
            forall|e: usize| remaining@.contains(e) <==> (e < p && waiting(&ps[e as int])),
        decreases n - p,
    {
        let ghost before = remaining@;
        if !proposals[p].refused && !proposals[p].canceled && !proposals[p].committed && !proposals[p].probe {
            remaining.push(p);
            proof {
                assert(remaining@ == before.push(p));
                assert(waiting(&ps[p as int]));
                assert forall|e: usize| remaining@.contains(e) implies (e < p + 1 && waiting(&ps[e as int])) by {
                    let k = choose|k: int| 0 <= k < remaining@.len() && remaining@[k] == e;
                    if k < before.len() {
                        assert(before[k] == e);
                        assert(before.contains(e));
                    } else {
                        assert(e == p);
                    }
                }
                assert forall|e: usize| (e < p + 1 && waiting(&ps[e as int])) implies remaining@.contains(e) by {
                    if e < p {
                        assert(before.contains(e));
                        let k = choose|k: int| 0 <= k < before.len() && before[k] == e;
                        assert(remaining@[k] == e);
                    } else {
                        assert(remaining@[before.len() as int] == e);
                    }
                }
            }
        }
        p = p + 1;
    }
    let mut groups: Vec<Vec<usize>> = Vec::new();
    while remaining.len() > 0
        invariant
            ps == proposals@,
            n == ps.len(),
            deps_valid(ps),
            increasing(remaining@),
            forall|e: usize| remaining@.contains(e) ==> e < n && waiting(&ps[e as int]),
            forall|g: int| 0 <= g < groups@.len() ==> increasing((#[trigger] groups@[g])@) && groups@[g]@.len() > 0,
            forall|g: int, e: usize| 0 <= g < groups@.len() && #[trigger] groups@[g]@.contains(e)
                ==> e < n && waiting(&ps[e as int]) && !remaining@.contains(e),
            forall|q: int| 0 <= q < n && waiting(&ps[q])
                ==> remaining@.contains(q as usize) || exists|g: int| 0 <= g < groups@.len() && (#[trigger] groups@[g])@.contains(q as usize),
            forall|g1: int, g2: int, e: usize| 0 <= g1 < g2 < groups@.len()
                ==> !(#[trigger] groups@[g1]@.contains(e) && #[trigger] groups@[g2]@.contains(e)),
            forall|g: int, k: int, j: int| 0 <= g < groups@.len() && 0 <= k < groups@[g]@.len()
                && 0 <= j < ps[groups@[g]@[k] as int].deps@.len()
                && waiting(&ps[(#[trigger] ps[(#[trigger] groups@[g])@[k] as int].deps@[j]).0 as int])
                ==> exists|h: int| 0 <= h <= g && (#[trigger] groups@[h])@.contains(ps[groups@[g]@[k] as int].deps@[j].0),
        decreases remaining@.len(),
    {
        let start = remaining[0];
        assert(remaining@.contains(start));
        proof {
            assert forall|k: int| 0 <= k < remaining@.len() implies #[trigger] remaining@[k] < ps.len() by {
                assert(remaining@.contains(remaining@[k]));
            }
        }
        let group = dependency_closure(proposals, &remaining, start);
        let ghost pool = remaining@;
        let ghost old_groups = groups@;
        remaining = without(&remaining, &group);
        proof {
            assert(pool.contains(start) && group@.contains(start));
        }
        groups.push(group);
        proof {
            let gi = old_groups.len() as int;
            assert(groups@[gi] == group);
            assert forall|g: int| 0 <= g < groups@.len() implies increasing((#[trigger] groups@[g])@) && groups@[g]@.len() > 0 by {
                if g < gi {
                    assert(groups@[g] == old_groups[g]);
                } else {
                    assert(group@.contains(start));
                }
            }
            assert forall|g: int, e: usize| 0 <= g < groups@.len() && #[trigger] groups@[g]@.contains(e)
                implies e < n && waiting(&ps[e as int]) && !remaining@.contains(e) by {
                if g < gi {
                    assert(groups@[g] == old_groups[g]);
                } else {
                    assert(pool.contains(e));
                }
            }
            assert forall|q: int| 0 <= q < n && waiting(&ps[q])
                implies remaining@.contains(q as usize) || exists|g: int| 0 <= g < groups@.len() && (#[trigger] groups@[g])@.contains(q as usize) by {
                if pool.contains(q as usize) {
                    if group@.contains(q as usize) {
                        assert(groups@[gi]@.contains(q as usize));
                    }
                } else {
                    let g = choose|g: int| 0 <= g < old_groups.len() && (#[trigger] old_groups[g])@.contains(q as usize);
                    assert(groups@[g] == old_groups[g]);
                }
            }
            assert forall|g1: int, g2: int, e: usize| 0 <= g1 < g2 < groups@.len()
                implies !(#[trigger] groups@[g1]@.contains(e) && #[trigger] groups@[g2]@.contains(e)) by {
                assert(groups@[g1] == old_groups[g1]);
                if g2 < gi {
                    assert(groups@[g2] == old_groups[g2]);
                } else if old_groups[g1]@.contains(e) {
                    assert(!pool.contains(e));
                }
            }
            assert forall|g: int, k: int, j: int| 0 <= g < groups@.len() && 0 <= k < groups@[g]@.len()
                && 0 <= j < ps[groups@[g]@[k] as int].deps@.len()
                && waiting(&ps[(#[trigger] ps[(#[trigger] groups@[g])@[k] as int].deps@[j]).0 as int])
                implies exists|h: int| 0 <= h <= g && (#[trigger] groups@[h])@.contains(ps[groups@[g]@[k] as int].deps@[j].0) by {
                let d = ps[groups@[g]@[k] as int].deps@[j].0;
                if g < gi {
                    assert(groups@[g] == old_groups[g]);
                    let h = choose|h: int| 0 <= h <= g && (#[trigger] old_groups[h])@.contains(d);
                    assert(groups@[h] == old_groups[h]);
                } else {
                    assert(d < n) by {
                        assert(group@.contains(group@[k]));
                        assert(groups@[g]@[k] < n);
                    }
                    if pool.contains(d) {
                        assert(group@.contains(d));
                    } else {
                        let h = choose|h: int| 0 <= h < old_groups.len() && (#[trigger] old_groups[h])@.contains(d as usize);
                        assert(groups@[h] == old_groups[h]);
                    }
                }
            }
        }
    }
    groups
}


/// The cells the proposals of `group` would occupy, one proposal after another.
pub open spec fn group_candidates(ps: Seq<Proposal>, group: Seq<usize>) -> Seq<CellPos>
    decreases group.len(),
{
    if group.len() == 0 {
        Seq::empty()
    } else {
        group_candidates(ps, group.drop_last()) + ps[group.last() as int].candidate@
    }
}

proof fn lemma_group_candidates_prefix(ps: Seq<Proposal>, group: Seq<usize>, m: int)
    requires
        0 <= m <= group.len(),
    ensures
        group_candidates(ps, group.subrange(0, m)).len() <= group_candidates(ps, group).len(),
        forall|a: int| 0 <= a < group_candidates(ps, group.subrange(0, m)).len() ==>
            #[trigger] group_candidates(ps, group)[a] == group_candidates(ps, group.subrange(0, m))[a],
    decreases group.len(),
{
    if m == group.len() {
        assert(group.subrange(0, m) =~= group);
    } else {
        let shorter = group.drop_last();
        assert(shorter.subrange(0, m) =~= group.subrange(0, m));
        lemma_group_candidates_prefix(ps, shorter, m);
    }
}

/// Whether the proposals of `group` would occupy distinct cells, none claimed
/// twice.
pub fn candidates_disjoint(proposals: &Vec<Proposal>, group: &Vec<usize>) -> (r: bool)
    requires
        forall|k: int| 0 <= k < group@.len() ==> #[trigger] group@[k] < proposals@.len(),
    ensures
        r == group_candidates(proposals@, group@).no_duplicates(),
{
    let ghost ps = proposals@;
    let mut claimed: FxHashSet<u64> = FxHashSet::default();
    let mut g: usize = 0;
    while g < group.len()
        invariant
            ps == proposals@,
            forall|k: int| 0 <= k < group@.len() ==> #[trigger] group@[k] < ps.len(),
            0 <= g <= group@.len(),
            group_candidates(ps, group@.subrange(0, g as int)).no_duplicates(),
            forall|k: u64| claimed@.contains(k) <==> exists|c: CellPos|
                group_candidates(ps, group@.subrange(0, g as int)).contains(c) && #[trigger] cell_key(c) == k,
        decreases group@.len() - g,
    {
        let p = group[g];
        let ghost done = group_candidates(ps, group@.subrange(0, g as int));
        let ghost cand = ps[p as int].candidate@;
        assert(group@.subrange(0, g + 1).drop_last() =~= group@.subrange(0, g as int));
        assert(group_candidates(ps, group@.subrange(0, g + 1)) == done + cand);
        let mut i: usize = 0;
        while i < proposals[p].candidate.len()
            invariant
                ps == proposals@,
                p < ps.len(),
                0 <= g < group@.len(),
                group_candidates(ps, group@.subrange(0, g + 1)) == done + cand,
                cand == ps[p as int].candidate@,
                0 <= i <= cand.len(),
                (done + cand.subrange(0, i as int)).no_duplicates(),
                forall|k: u64| claimed@.contains(k) <==> exists|c: CellPos|
                    (done + cand.subrange(0, i as int)).contains(c) && #[trigger] cell_key(c) == k,
            decreases cand.len() - i,
        {
            let pos = proposals[p].candidate[i];
            let ghost prefix = done + cand.subrange(0, i as int);
            assert(done + cand.subrange(0, i + 1) =~= prefix.push(pos));
            let inserted = fx_insert(&mut claimed, key_of(pos));
            if !inserted {
                proof {
                    let c = choose|c: CellPos| prefix.contains(c) && #[trigger] cell_key(c) == cell_key(pos);
                    lemma_cell_key_injective(c, pos);
                    let a = choose|a: int| 0 <= a < prefix.len() && prefix[a] == pos;
                    let whole = done + cand;
                    assert(whole[a] == pos);
                    assert(whole[done.len() + i] == pos);
                    assert(a != done.len() + i);
                    lemma_group_candidates_prefix(ps, group@, g + 1);
                    let full = group_candidates(ps, group@);
                    assert(full[a] == whole[a]);
                    assert(full[done.len() + i] == whole[done.len() + i]);
                }
                return false;
            }
            proof {
                let next = prefix.push(pos);
                assert(!prefix.contains(pos)) by {
                    if prefix.contains(pos) {
                        assert(claimed@.contains(cell_key(pos))) by {
                            assert(prefix.contains(pos) && cell_key(pos) == cell_key(pos));
                        }
                    }
                }
                assert forall|a: int, b: int| 0 <= a < next.len() && 0 <= b < next.len() && a != b implies next[a] != next[b] by {
                    if a < prefix.len() && b < prefix.len() {
                        assert(next[a] == prefix[a] && next[b] == prefix[b]);
                    } else if a < prefix.len() {
                        assert(next[a] == prefix[a]);
                        assert(prefix.contains(prefix[a]));
                    } else if b < prefix.len() {
                        assert(next[b] == prefix[b]);
                        assert(prefix.contains(prefix[b]));
                    }
                }
                assert forall|k: u64| claimed@.contains(k) <==> exists|c: CellPos| next.contains(c) && #[trigger] cell_key(c) == k by {
                    if claimed@.contains(k) {
                        if k == cell_key(pos) {
                            assert(next[prefix.len() as int] == pos);
                        } else {
                            let c = choose|c: CellPos| prefix.contains(c) && #[trigger] cell_key(c) == k;
                            let a = choose|a: int| 0 <= a < prefix.len() && prefix[a] == c;
                            assert(next[a] == c);
                        }
                    }
                    if exists|c: CellPos| next.contains(c) && #[trigger] cell_key(c) == k {
                        let c = choose|c: CellPos| next.contains(c) && #[trigger] cell_key(c) == k;
                        let a = choose|a: int| 0 <= a < next.len() && next[a] == c;
                        if a < prefix.len() {
                            assert(prefix[a] == c);
                            assert(prefix.contains(c));
                        }
                    }
                }
            }
            i = i + 1;
        }
        assert(cand.subrange(0, cand.len() as int) =~= cand);
        g = g + 1;
    }
    assert(group@.subrange(0, group@.len() as int) =~= group@);
    true
}


/// Whether a proposal that would enter a cell of another body waits on that
/// body's own proposal instead of touching it: only when the other body
/// moves this round, the two are not crossing (their velocities do not
/// oppose), and the proposal is no probe.
pub fn waits_on_peer(my: &Body, peer: &Body, peer_moving: bool, probe: bool) -> (r: bool)
    requires
        my.vx > i64::MIN && my.vy > i64::MIN,
    ensures
        r == (peer_moving && !(my.vx * peer.vx + my.vy * peer.vy < 0) && !probe),
{
    assert(-0x3fff_ffff_ffff_ffff_8000_0000_0000_0000 <= (my.vx as i128) * (peer.vx as i128) <= 0x3fff_ffff_ffff_ffff_8000_0000_0000_0000) by (nonlinear_arith)
        requires
            -0x7fff_ffff_ffff_ffff <= my.vx <= 0x7fff_ffff_ffff_ffff,
            -0x8000_0000_0000_0000 <= peer.vx <= 0x8000_0000_0000_0000,
    ;
    assert(-0x3fff_ffff_ffff_ffff_8000_0000_0000_0000 <= (my.vy as i128) * (peer.vy as i128) <= 0x3fff_ffff_ffff_ffff_8000_0000_0000_0000) by (nonlinear_arith)
        requires
            -0x7fff_ffff_ffff_ffff <= my.vy <= 0x7fff_ffff_ffff_ffff,
            -0x8000_0000_0000_0000 <= peer.vy <= 0x8000_0000_0000_0000,
    ;
    let crossing = (my.vx as i128) * (peer.vx as i128) + (my.vy as i128) * (peer.vy as i128) < 0;
    peer_moving && !crossing && !probe
}

/// `after` is `before` with possibly more proposals canceled.
pub open spec fn only_cancellations(before: Seq<Proposal>, after: Seq<Proposal>) -> bool {
    &&& after.len() == before.len()
    &&& forall|p: int| 0 <= p < before.len() ==> {
        &&& (#[trigger] after[p]).body == before[p].body
        &&& after[p].freedom == before[p].freedom
        &&& after[p].sign == before[p].sign
        &&& after[p].probe == before[p].probe
        &&& after[p].entered@ == before[p].entered@
        &&& after[p].candidate@ == before[p].candidate@
        &&& after[p].deps@ == before[p].deps@
        &&& after[p].refused == before[p].refused
        &&& after[p].committed == before[p].committed
        &&& (before[p].canceled ==> after[p].canceled)
    }
}

/// Parks every freedom of body `body` (whose mover state is `mover`) and
/// cancels all its proposals of the round.
pub fn bodies_parked(mover: &mut Mover, proposals: &mut Vec<Proposal>, body: usize)
    ensures
        forall|i: int| 0 <= i < 3 ==> (#[trigger] final(mover).freedoms@[i]).parked
            && final(mover).freedoms@[i].probed == old(mover).freedoms@[i].probed,
        only_cancellations(old(proposals)@, final(proposals)@),
        forall|p: int| 0 <= p < old(proposals)@.len() ==> (#[trigger] final(proposals)@[p]).canceled
            == (old(proposals)@[p].canceled || old(proposals)@[p].body == body),
{
    let mut i: usize = 0;
    while i < 3
        invariant
            0 <= i <= 3,
            forall|k: int| 0 <= k < i ==> (#[trigger] mover.freedoms@[k]).parked,
            forall|k: int| 0 <= k < 3 ==> (#[trigger] mover.freedoms@[k]).probed == old(mover).freedoms@[k].probed,
        decreases 3 - i,
    {
        mover.freedoms[i].parked = true;
        i = i + 1;
    }
    let ghost before = proposals@;
    let mut p: usize = 0;
    while p < proposals.len()
        invariant
            0 <= p <= proposals@.len(),
            only_cancellations(before, proposals@),
            forall|q: int| 0 <= q < before.len() ==> (#[trigger] proposals@[q]).canceled
                == (before[q].canceled || (q < p && before[q].body == body)),
        decreases proposals@.len() - p,
    {
        if proposals[p].body == body {
            proposals[p].canceled = true;
        }
        p = p + 1;
    }
}

/// What classifying a proposal's entered cells concluded.
#[derive(Debug, Clone, Copy, PartialEq, Eq)]
pub enum Classification {
    /// Some entered cell is not loaded or not simulated: the body parks.
    Unloaded,
    /// Something was touched: the proposal is refused and its contacts resolved.
    Touched,
    /// A cell that already moved this tick is in the way: the freedom parks.
    Busy,
    /// Nothing stands in the way.
    Clear,
}

/// The outcome for a proposal from what its entered cells showed: unloaded
/// cells first, then contacts, then busy cells.
pub fn classify_outcome(unloaded: bool, touched: bool, busy: bool) -> (v: Classification)
    ensures
        v == (if unloaded { Classification::Unloaded } else if touched { Classification::Touched } else if busy { Classification::Busy } else { Classification::Clear }),
{
    if unloaded {
        Classification::Unloaded
    } else if touched {
        Classification::Touched
    } else if busy {
        Classification::Busy
    } else {
        Classification::Clear
    }
}

/// Carries out the classification of proposal `p`: an unloaded one parks its whole
/// body and cancels all the body's proposals, a touched one is refused, a
/// busy one parks its freedom and is canceled. Reports whether the body was
/// newly parked.
pub fn apply_classification(movers: &mut Vec<Mover>, proposals: &mut Vec<Proposal>, p: usize, classification: Classification) -> (parked_body: bool)
    requires
        p < old(proposals)@.len(),
        old(proposals)@[p as int].body < old(movers)@.len(),
    ensures
        parked_body == (classification == Classification::Unloaded),
        final(proposals)@.len() == old(proposals)@.len(),
        final(movers)@.len() == old(movers)@.len(),
        classification == Classification::Unloaded ==> only_cancellations(old(proposals)@, final(proposals)@)
            && (forall|q: int| 0 <= q < old(proposals)@.len() ==> (#[trigger] final(proposals)@[q]).canceled
                == (old(proposals)@[q].canceled || old(proposals)@[q].body == old(proposals)@[p as int].body))
            && (forall|i: int| 0 <= i < 3 ==> (#[trigger] final(movers)@[old(proposals)@[p as int].body as int].freedoms@[i]).parked
                && final(movers)@[old(proposals)@[p as int].body as int].freedoms@[i].probed
                    == old(movers)@[old(proposals)@[p as int].body as int].freedoms@[i].probed)
            && final(movers)@ == old(movers)@.update(old(proposals)@[p as int].body as int, final(movers)@[old(proposals)@[p as int].body as int]),
        classification == Classification::Touched ==> only_refusals(old(proposals)@, final(proposals)@)
            && final(proposals)@ == old(proposals)@.update(p as int, final(proposals)@[p as int])
            && final(proposals)@[p as int].refused && final(movers)@ == old(movers)@,
        classification == Classification::Busy ==> only_cancellations(old(proposals)@, final(proposals)@)
            && final(proposals)@ == old(proposals)@.update(p as int, final(proposals)@[p as int])
            && final(proposals)@[p as int].canceled
            && final(movers)@ == old(movers)@.update(old(proposals)@[p as int].body as int, final(movers)@[old(proposals)@[p as int].body as int])
            && final(movers)@[old(proposals)@[p as int].body as int].freedoms@ == old(movers)@[old(proposals)@[p as int].body as int].freedoms@.update(
                    freedom_index(old(proposals)@[p as int].freedom),
                    FreedomState {
                        parked: true,
                        ..old(movers)@[old(proposals)@[p as int].body as int].freedoms@[freedom_index(old(proposals)@[p as int].freedom)]
                    }),
        classification == Classification::Clear ==> final(proposals)@ == old(proposals)@ && final(movers)@ == old(movers)@,
{
    let body = proposals[p].body;
    match classification {
        Classification::Unloaded => {
            let mut mover = movers[body];
            bodies_parked(&mut mover, proposals, body);
            movers.set(body, mover);
            true
        },
        Classification::Touched => {
            proposals[p].refused = true;
            false
        },
        Classification::Busy => {
            let index = proposals[p].freedom.index();
            movers[body].freedoms[index].parked = true;
            proposals[p].canceled = true;
            false
        },
        Classification::Clear => false,
    }
}

} // verus!
