//! Whether a slow body may try to settle back into the grid, and the cells it
//! would rest on.
use vstd::prelude::*;
use rustc_hash::FxHashMap;
use crate::geometry::{CellPos, Phase};
use crate::state::Body;
use crate::bodies::{Occupant, moved};
use crate::raster::{cell_key, key_of};
use crate::fx::fx_map_get;
use crate::rotation::{Spin, RADIANS_PER_TURN, TAU_NUMERATOR};
use crate::arith::{lemma_round_div_nonneg, lemma_round_div_within};
use crate::buoyancy::{Displaced, spin_for, lever_of, lift_sum, paired, net_lift};

verus! {

/// The speed, in subcell units per tick, under which a body may try to settle.
pub const SNAP: i64 = 16;

/// The speed, in subcell units per tick, under which a body that settles rests.
pub const SETTLE_EPSILON: i64 = 4;

/// A body slow enough to try settling: it settles, is not parked, and neither its
/// speed nor its rim's speed from its spin is above `SNAP`.
pub open spec fn snap_ready(body: &Body, units: int) -> bool {
    let floor = spin_for(SNAP as int, lever_of(body, units));
    &&& !body.parked
    &&& body.settles
    &&& -SNAP <= body.vx <= SNAP
    &&& -SNAP <= body.vy <= SNAP
    &&& -floor <= body.spin.0 <= floor
}

/// Whether a body is slow enough to try settling.
pub fn is_snap_ready(body: &Body, units: i64) -> (r: bool)
    requires
        1 <= units <= 0x4000,
        0 <= body.radius <= 0x1_0000_0000,
    ensures
        r == snap_ready(body, units as int),
        r ==> !body.parked && body.settles,
        r ==> -SNAP <= body.vx <= SNAP && -SNAP <= body.vy <= SNAP,
        !body.parked && body.settles && -SNAP <= body.vx <= SNAP && -SNAP <= body.vy <= SNAP
            && body.spin.0 == 0 ==> r,
{
    if body.parked || !body.settles {
        return false;
    }
    if body.vx < -SNAP || body.vx > SNAP || body.vy < -SNAP || body.vy > SNAP {
        return false;
    }
    let radius: i64 = if body.radius >= 1 { body.radius } else { 1 };
    proof {
        assert(1 <= radius * units <= 0x1_0000_0000 * 0x4000) by (nonlinear_arith)
            requires
                1 <= radius <= 0x1_0000_0000,
                1 <= units <= 0x4000,
        ;
    }
    let lever: i64 = radius * units;
    proof {
        let n = SNAP * RADIANS_PER_TURN;
        let dd = TAU_NUMERATOR * lever;
        assert(1 <= dd && n <= n * dd && (-n) * dd <= n) by (nonlinear_arith)
            requires
                dd == 710 * lever,
                lever >= 1,
                n >= 0,
        ;
        lemma_round_div_nonneg(n, dd);
        lemma_round_div_within(n, dd, n);
    }
    let floor = Spin::for_speed_at(SNAP, lever);
    body.spin.clamped(floor).0 == body.spin.0
}

/// A body that is parked, does not settle, or moves faster than `SNAP` along
/// either axis is never ready to settle, whatever its spin.
pub proof fn lemma_fast_body_not_snap_ready(body: &Body, units: int)
    requires
        body.parked || !body.settles || body.vx < -SNAP || body.vx > SNAP || body.vy < -SNAP || body.vy > SNAP,
    ensures
        !snap_ready(body, units),
{
}

/// A cell ahead of a settling body that stops it: not loaded, another body's, or
/// loose powder.
pub open spec fn blocks_settling(world: Map<u64, Occupant>, id: u32, p: CellPos) -> bool {
    ||| !world.contains_key(cell_key(p))
    ||| (world[cell_key(p)].owner is Some && world[cell_key(p)].owner != Some(id))
    ||| (world[cell_key(p)].owner is None && world[cell_key(p)].phase == Phase::Powder)
}

/// A cell ahead of a settling body that it rests on: loaded solid ground that no
/// body owns.
pub open spec fn rests_on(world: Map<u64, Occupant>, p: CellPos) -> bool {
    world.contains_key(cell_key(p)) && world[cell_key(p)].owner is None && world[cell_key(p)].phase == Phase::Solid
}

/// The supports `(ground, cell)` of the first `n` cells of a body pressing
/// `pressing` rows up, in raster order.
pub open spec fn supports_upto(world: Map<u64, Occupant>, body: &Body, pressing: int, n: int) -> Seq<(CellPos, CellPos)>
    decreases n,
{
    if n <= 0 {
        Seq::empty()
    } else {
        let p = body.raster@[n - 1];
        let ahead = moved(p, 0, pressing);
        if rests_on(world, ahead) {
            supports_upto(world, body, pressing, n - 1).push((ahead, p))
        } else {
            supports_upto(world, body, pressing, n - 1)
        }
    }
}

/// Some cell ahead of a body pressing `pressing` rows up stops it.
pub open spec fn settle_blocked(world: Map<u64, Occupant>, body: &Body, pressing: int) -> bool {
    exists|k: int| 0 <= k < body.raster@.len() && #[trigger] blocks_settling(world, body.id, moved(body.raster@[k], 0, pressing))
}

/// The way a body presses when it tries to settle: one row up when it floats,
/// else one row down.
pub open spec fn pressing_of(body: &Body, d: &Displaced, gravity: int) -> int {
    if lift_sum(body, d, gravity, 0, paired(body)) > 0 { 1 } else { -1 }
}

/// Every cell of the body, moved `pressing` rows, stays inside `i32`.
pub open spec fn press_fits(body: &Body, pressing: int) -> bool {
    forall|k: int| 0 <= k < body.raster@.len() ==> i32::MIN <= (#[trigger] body.raster@[k]).y + pressing <= i32::MAX
}

/// The cells a slow body would rest on when it presses `pressing` rows up (one
/// up when it floats, one down when it sinks): `None` when some cell ahead stops
/// it or none is solid ground, else each cell of solid ground with the body's
/// cell it supports, in raster order.
pub fn settle_supports(world: &FxHashMap<u64, Occupant>, body: &Body, pressing: i32) -> (r: Option<Vec<(CellPos, CellPos)>>)
    requires
        press_fits(body, pressing as int),
    ensures
        r is None <==> settle_blocked(world@, body, pressing as int)
            || supports_upto(world@, body, pressing as int, body.raster@.len() as int).len() == 0,
        r matches Some(v) ==> v@ == supports_upto(world@, body, pressing as int, body.raster@.len() as int),
{
    let mut supports: Vec<(CellPos, CellPos)> = Vec::new();
    let mut k: usize = 0;
    while k < body.raster.len()
        invariant
            0 <= k <= body.raster@.len(),
            press_fits(body, pressing as int),
            supports@ == supports_upto(world@, body, pressing as int, k as int),
            forall|q: int| 0 <= q < k ==> !#[trigger] blocks_settling(world@, body.id, moved(body.raster@[q], 0, pressing as int)),
        decreases body.raster@.len() - k,
    {
        let pos = body.raster[k];
        let ahead = pos.translated(0, pressing);
        proof {
            assert(ahead == moved(body.raster@[k as int], 0, pressing as int));
        }
        match fx_map_get(world, key_of(ahead)) {
            None => {
                proof {
                    assert(blocks_settling(world@, body.id, moved(body.raster@[k as int], 0, pressing as int)));
                }
                return None;
            },
            Some(cell) => {
                match cell.owner {
                    Some(owner) => {
                        if owner != body.id {
                            proof {
                                assert(blocks_settling(world@, body.id, moved(body.raster@[k as int], 0, pressing as int)));
                            }
                            return None;
                        }
                    },
                    None => {
                        if matches!(cell.phase, Phase::Powder) {
                            proof {
                                assert(blocks_settling(world@, body.id, moved(body.raster@[k as int], 0, pressing as int)));
                            }
                            return None;
                        }
                        if matches!(cell.phase, Phase::Solid) {
                            supports.push((ahead, pos));
                        }
                    },
                }
            },
        }
        k = k + 1;
    }
    if supports.len() == 0 {
        None
    } else {
        Some(supports)
    }
}

/// The way a body presses when it tries to settle, and the cells it would rest
/// on: `None` when it is not slow enough or cannot rest where it is.
pub fn settle_plan(world: &FxHashMap<u64, Occupant>, body: &Body, d: &Displaced, gravity: i64, units: i64) -> (r: Option<(i32, Vec<(CellPos, CellPos)>)>)
    requires
        1 <= units <= 0x4000,
        0 <= body.radius <= 0x1_0000_0000,
        d.wf(),
        0 <= gravity <= 0x7fff_ffff,
        forall|i: int| 0 <= i < body.raster@.len() ==> i32::MIN < (#[trigger] body.raster@[i]).y < i32::MAX,
    ensures
        ({
            let pressing = pressing_of(body, d, gravity as int);
            let supports = supports_upto(world@, body, pressing, body.raster@.len() as int);
            if snap_ready(body, units as int) && !settle_blocked(world@, body, pressing) && supports.len() > 0 {
                r matches Some((p, v)) && p == pressing && v@ == supports
            } else {
                r is None
            }
        }),
{
    if !is_snap_ready(body, units) {
        return None;
    }
    let pressing: i32 = if net_lift(body, d, gravity) > 0 { 1 } else { -1 };
    match settle_supports(world, body, pressing) {
        Some(v) => Some((pressing, v)),
        None => None,
    }
}

} // verus!
