//! Granular cells: how much downward load a grain keeps or passes on, how
//! much flux a pile admits, and gravity reduced by buoyancy.
use vstd::prelude::*;
use crate::rotation::abs;

verus! {

/// The downward load a grain keeps after passing some on.
#[derive(Debug, Clone, Copy, PartialEq, Eq)]
pub struct Load {
    pub kept: i32,
    pub saturated: bool,
}

/// The load a grain keeps of `carried` after sending `sent` on, at most the
/// cap (saturated when over it) and never negative.
pub open spec fn retain_spec(carried: int, sent: int, cap: int) -> Load {
    if carried - sent > cap {
        Load { kept: cap as i32, saturated: true }
    } else {
        Load { kept: if carried - sent >= 0 { (carried - sent) as i32 } else { 0 }, saturated: false }
    }
}

/// The load a grain keeps of `carried` after sending `sent` on, at most the
/// cap (saturated when over it) and never negative.
pub fn retain(carried: i32, sent: i32, cap: i32) -> (r: Load)
    requires
        i32::MIN <= carried - sent <= i32::MAX,
    ensures
        carried - sent > cap ==> r == (Load { kept: cap, saturated: true }),
        carried - sent <= cap ==> r == (Load { kept: if carried - sent >= 0 { (carried - sent) as i32 } else { 0 }, saturated: false }),
{
    let kept = carried - sent;
    if kept > cap {
        Load { kept: cap, saturated: true }
    } else {
        Load { kept: if kept >= 0 { kept } else { 0 }, saturated: false }
    }
}

/// The most load a pile of a material passes through per tick: its repose
/// layers times one tick of gravity.
pub fn flux_cap(repose_layers: u8, gravity_dv: i32) -> (r: i32)
    requires
        0 <= gravity_dv <= 0x10_0000,
    ensures
        r == repose_layers * gravity_dv,
{
    assert(repose_layers * gravity_dv <= 0xff * 0x10_0000) by (nonlinear_arith)
        requires
            0 <= gravity_dv <= 0x10_0000,
            repose_layers <= 0xff,
    ;
    (repose_layers as i32) * gravity_dv
}

/// Gravity on a grain of `density` in a medium of `ambient` density: reduced
/// by the displaced medium's share, rounded to nearest.
pub open spec fn buoyant_gravity_spec(gravity_dv: int, density: int, ambient: int) -> int {
    let submerged = if density - ambient < 0 { 0 } else if density - ambient > density { density } else { density - ambient };
    (gravity_dv * submerged + density / 2) / density
}

/// Gravity on a grain of `density` (thousandths) in a medium of `ambient` density.
pub fn buoyant_gravity(gravity_dv: i32, density: i32, ambient: i32) -> (r: i32)
    requires
        1 <= density,
        ambient >= 0,
        0 <= gravity_dv <= 0x1000_0000,
    ensures
        r == buoyant_gravity_spec(gravity_dv as int, density as int, ambient as int),
        0 <= r <= gravity_dv,
{
    let density: i64 = density as i64;
    let difference: i64 = density - (ambient as i64);
    let submerged: i64 = if difference < 0 { 0 } else if difference > density { density } else { difference };
    proof {
        assert(0 <= gravity_dv * submerged <= gravity_dv * density) by (nonlinear_arith)
            requires
                0 <= submerged <= density,
                0 <= gravity_dv,
        ;
        assert(gravity_dv * density <= 0x1000_0000 * 0x8000_0000) by (nonlinear_arith)
            requires
                0 <= gravity_dv <= 0x1000_0000,
                1 <= density <= 0x8000_0000,
        ;
        assert((gravity_dv * submerged + density / 2) / (density as int) <= gravity_dv) by (nonlinear_arith)
            requires
                0 <= gravity_dv * submerged <= gravity_dv * density,
                density >= 1,
                0 <= gravity_dv,
        ;
        assert((gravity_dv * submerged + density / 2) / (density as int) >= 0) by (nonlinear_arith)
            requires
                0 <= gravity_dv * submerged,
                density >= 1,
        ;
    }
    (((gravity_dv as i64) * submerged + density / 2) / density) as i32
}

/// The cell below a grounded grain: the body that owns it, if any, whether it is
/// a stressed grain of powder, its vertical velocity, and, for a grain, its flux
/// cap and mass.
#[derive(Debug, Clone, Copy, PartialEq, Eq)]
pub struct Beneath {
    pub owner: Option<u32>,
    pub stressed_powder: bool,
    pub vy: i32,
    pub cap: i32,
    pub mass: i64,
}

/// Where the load a grain passes down goes.
#[derive(Debug, Clone, Copy, PartialEq, Eq)]
pub enum Handoff {
    /// An impulse on the body below, at the cell below.
    Push { body: u32, impulse: i64 },
    /// The grain below takes the load: its new vertical velocity.
    Deposit { vy: i32 },
    /// Nothing is passed on.
    Keep,
}

/// The load a grain of mass `mass` and flux cap `cap` passes to the cell below
/// when it falls at `vy` under gravity `gravity_dv`: `None` when the cell below is
/// not loaded, the grain passes no flux, or the cell below is neither a body nor a
/// stressed grain. Otherwise the load the grain keeps, and where the rest goes: a
/// body is pushed down by the load sent times the mass; a grain takes the load in
/// proportion to the masses, up to its own room.
pub fn transfer_load(below: Option<Beneath>, cap: i32, mass: i64, vy: i32, gravity_dv: i32) -> (r: Option<(Load, Handoff)>)
    requires
        0 <= cap,
        1 <= mass <= 0x8000_0000,
        0 <= gravity_dv,
        gravity_dv + (if vy < 0 { -vy } else { 0 }) <= i32::MAX,
        below matches Some(b) ==> 1 <= b.mass <= 0x8000_0000 && 0 <= b.cap,
    ensures
        ({
            let carried = gravity_dv + (if vy < 0 { -vy } else { 0 });
            let send = if carried < cap { carried } else { cap as int };
            match below {
                None => r is None,
                Some(b) => if cap == 0 {
                    r is None
                } else if b.owner is Some {
                    r == Some((retain_spec(carried, send, cap as int), Handoff::Push { body: b.owner->0, impulse: (-(send * mass)) as i64 }))
                } else if !b.stressed_powder {
                    r is None
                } else {
                    let room = if b.cap + (if b.vy < 0 { b.vy as int } else { 0 }) > 0 { b.cap + (if b.vy < 0 { b.vy as int } else { 0 }) } else { 0 };
                    let share = send * mass / (b.mass as int);
                    let deposited = if share < room { share } else { room };
                    let sent = deposited * (b.mass as int) / (mass as int);
                    r == Some((retain_spec(carried, sent, cap as int),
                        if deposited > 0 { Handoff::Deposit { vy: (b.vy - deposited) as i32 } } else { Handoff::Keep }))
                },
            }
        }),
{
    let b = match below {
        None => {
            return None;
        },
        Some(b) => b,
    };
    if cap == 0 {
        return None;
    }
    let carried: i32 = gravity_dv + if vy < 0 { -vy } else { 0 };
    let send: i32 = if carried < cap { carried } else { cap };
    proof {
        assert(0 <= (send as int) * (mass as int) <= 0x8000_0000 * 0x8000_0000) by (nonlinear_arith)
            requires
                0 <= send <= 0x7fff_ffff,
                1 <= mass <= 0x8000_0000,
        ;
    }
    if let Some(body) = b.owner {
        return Some((retain(carried, send, cap), Handoff::Push { body, impulse: -((send as i64) * mass) }));
    }
    if !b.stressed_powder {
        return None;
    }
    let lowered: i64 = (b.cap as i64) + if b.vy < 0 { b.vy as i64 } else { 0 };
    let room: i64 = if lowered > 0 { lowered } else { 0 };
    let share: i64 = (send as i64) * mass / b.mass;
    let deposited: i64 = if share < room { share } else { room };
    proof {
        assert(share * b.mass <= (send as int) * (mass as int)) by (nonlinear_arith)
            requires
                share == ((send as int) * (mass as int)) / (b.mass as int),
                b.mass >= 1,
                (send as int) * (mass as int) >= 0,
        ;
        assert(0 <= deposited * b.mass <= share * b.mass) by (nonlinear_arith)
            requires
                0 <= deposited <= share,
                b.mass >= 1,
        ;
        assert(deposited * (b.mass as int) / (mass as int) <= send) by (nonlinear_arith)
            requires
                0 <= deposited * (b.mass as int) <= (send as int) * (mass as int),
                mass >= 1,
                send >= 0,
        ;
        assert(deposited * (b.mass as int) / (mass as int) >= 0) by (nonlinear_arith)
            requires
                0 <= deposited * (b.mass as int),
                mass >= 1,
        ;
    }
    let sent: i32 = (deposited * b.mass / mass) as i32;
    let handoff = if deposited > 0 { Handoff::Deposit { vy: (b.vy as i64 - deposited) as i32 } } else { Handoff::Keep };
    Some((retain(carried, sent, cap), handoff))
}

} // verus!
