//! Contact arithmetic between bodies and loose cells: contact points, the
//! effective mass each party presents, kinetic energy with saturation, and
//! impulse application.
use vstd::prelude::*;
use crate::arith::{round_div_spec, clamp_spec, trunc_div_spec};
use crate::geometry::{CellPos, Q16};
use crate::rotation::{abs, Spin, speed_at_spec, RADIANS_PER_TURN, TAU_NUMERATOR};
use crate::state::{Body, Freedoms, holds_spec, cell_center, cell_center_spec, impulse_spin};

verus! {

/// Fixed-point scale of effective masses.
pub const MASS_UNITS: i128 = 65536;

/// What a body touches at a contact.
#[derive(Debug, Clone, Copy, PartialEq, Eq)]
pub enum Peer {
    Terrain,
    Body(usize),
    Cell { pos: CellPos, mass: i64 },
}

/// A contact of body `body` moving from cell `from` into cell `at`.
#[derive(Debug, Clone, Copy)]
pub struct Contact {
    pub body: usize,
    pub from: CellPos,
    pub at: CellPos,
    pub normal: (i32, i32),
    pub peer: Peer,
    pub restitution: Q16,
    pub friction: Q16,
    pub target: i128,
    pub push: i128,
    pub drag: i128,
}

impl Contact {
    /// The midpoint of the two cells' centers, in subcell units.
    pub fn point(&self, units: i64) -> (r: (i64, i64))
        requires
            1 <= units <= 0x1_0000,
        ensures
            r.0 == trunc_div_spec(cell_center_spec(self.from.x as int, units as int) + cell_center_spec(self.at.x as int, units as int), 2),
            r.1 == trunc_div_spec(cell_center_spec(self.from.y as int, units as int) + cell_center_spec(self.at.y as int, units as int), 2),
    {
        (
            (cell_center(self.from.x, units) + cell_center(self.at.x, units)) / 2,
            (cell_center(self.from.y, units) + cell_center(self.at.y, units)) / 2,
        )
    }
}

/// The motion state of a loose cell taking part in contacts.
#[derive(Debug, Clone, Copy)]
pub struct CellState {
    pub mass: i64,
    pub vx: i64,
    pub vy: i64,
    pub start_vx: i64,
    pub start_vy: i64,
}

/// The inverse-mass description of one party: mass, moment, lever of the
/// contact direction, and whether it cannot move down along y.
#[derive(Debug, Clone, Copy)]
pub struct Inverse {
    pub mass: i64,
    pub moment: i128,
    pub lever: i128,
    pub rigid_y: bool,
}

/// One party of a contact: its velocity at the contact, and how it responds
/// to impulses (none for immovable terrain).
#[derive(Debug, Clone, Copy)]
pub struct Side {
    pub velocity: (i64, i64),
    pub inverse: Option<Inverse>,
}

/// The effective mass, in `1/65536` units, of a party along `normal`.
pub open spec fn inverse_effective_mass(inverse: Inverse, normal: (i32, i32)) -> Option<int> {
    let translation = normal.0 * normal.0 + if inverse.rigid_y && normal.1 != 0 { 0 } else { normal.1 * normal.1 };
    let numerator = inverse.mass * inverse.moment;
    let denominator = inverse.moment * translation + inverse.mass * inverse.lever * inverse.lever;
    if denominator == 0 {
        None
    } else {
        let m = trunc_div_spec(numerator * MASS_UNITS, denominator);
        Some(if m >= 1 { m } else { 1 })
    }
}

/// A party whose effective-mass arithmetic stays in range.
pub open spec fn inverse_in_range(inverse: Inverse) -> bool {
    &&& 0 <= inverse.mass
    &&& 0 <= inverse.moment
    &&& inverse.mass * inverse.moment * MASS_UNITS <= i128::MAX
    &&& inverse.moment * 2 + inverse.mass * inverse.lever * inverse.lever <= i128::MAX
}

/// A unit step along one grid axis.
pub open spec fn unit_normal(normal: (i32, i32)) -> bool {
    (normal.0 == 0 && (normal.1 == 1 || normal.1 == -1)) || (normal.1 == 0 && (normal.0 == 1 || normal.0 == -1))
}

impl Side {
    /// The effective mass along `normal`, or none for an immovable party.
    pub fn effective_mass(&self, normal: (i32, i32)) -> (r: Option<i128>)
        requires
            self.inverse matches Some(inv) ==> inverse_in_range(inv),
            unit_normal(normal),
        ensures
            self.inverse is None ==> r is None,
            self.inverse matches Some(inv) ==> match inverse_effective_mass(inv, normal) {
                Some(m) => r == Some(m as i128),
                None => r is None,
            },
            r matches Some(m) ==> m >= 1,
    {
        let inverse = match &self.inverse {
            Some(inverse) => *inverse,
            None => return None,
        };
        let nx: i128 = normal.0 as i128;
        let ny: i128 = normal.1 as i128;
        let translation: i128 = nx * nx + if inverse.rigid_y && normal.1 != 0 { 0 } else { ny * ny };
        let mass: i128 = inverse.mass as i128;
        proof {
            lemma_inverse_bounds(mass as int, inverse.moment as int, inverse.lever as int, translation as int);
        }
        let numerator: i128 = mass * inverse.moment;
        let denominator: i128 = inverse.moment * translation + mass * inverse.lever * inverse.lever;
        if denominator == 0 {
            return None;
        }
        let m: i128 = numerator * MASS_UNITS / denominator;
        Some(if m >= 1 { m } else { 1 })
    }
}

proof fn lemma_inverse_bounds(mass: int, moment: int, lever: int, translation: int)
    requires
        0 <= mass,
        0 <= moment,
        mass * moment * MASS_UNITS <= i128::MAX,
        moment * 2 + mass * lever * lever <= i128::MAX,
        0 <= translation <= 2,
    ensures
        0 <= mass * moment,
        0 <= moment * translation <= moment * 2,
        abs(mass * lever) <= mass * lever * lever,
        0 <= mass * lever * lever,
{
    assert(0 <= mass * moment) by (nonlinear_arith)
        requires
            0 <= mass,
            0 <= moment,
    ;
    assert(0 <= moment * translation <= moment * 2) by (nonlinear_arith)
        requires
            0 <= moment,
            0 <= translation <= 2,
    ;
    assert(abs(mass * lever) <= mass * lever * lever && 0 <= mass * lever * lever) by (nonlinear_arith)
        requires
            0 <= mass,
    ;
}

/// The combined effective mass of the two parties of a contact: their reduced
/// mass when both move, the movable one's when the other cannot, else zero.
pub open spec fn pair_mass_spec(mine: Option<int>, theirs: Option<int>) -> int {
    match (mine, theirs) {
        (Some(a), Some(b)) => {
            let m = a * b / (a + b);
            if m >= 1 { m } else { 1 }
        },
        (Some(a), None) => a,
        (None, Some(b)) => b,
        (None, None) => 0,
    }
}

/// Combines the effective masses of the two parties of a contact.
pub fn pair_mass(mine: Option<i128>, theirs: Option<i128>) -> (r: i128)
    requires
        mine matches Some(a) ==> a >= 1,
        theirs matches Some(b) ==> b >= 1,
        mine matches Some(a) ==> theirs matches Some(b) ==> a * b <= i128::MAX && a + b <= i128::MAX,
    ensures
        r == pair_mass_spec(
            match mine { Some(a) => Some(a as int), None => None },
            match theirs { Some(b) => Some(b as int), None => None },
        ),
        mine matches Some(a) ==> r <= a,
        theirs matches Some(b) ==> r <= b,
        (mine is Some || theirs is Some) ==> r >= 1,
{
    match (mine, theirs) {
        (Some(a), Some(b)) => {
            assert(a * b / (a + b) <= a && a * b / (a + b) <= b) by (nonlinear_arith)
                requires
                    a >= 1,
                    b >= 1,
            ;
            let m: i128 = a * b / (a + b);
            if m >= 1 { m } else { 1 }
        },
        (Some(a), None) => a,
        (None, Some(b)) => b,
        (None, None) => 0,
    }
}

/// Multiplication that saturates at the `i128` range.
pub open spec fn sat_mul_spec(a: int, b: int) -> int {
    clamp_spec(a * b, i128::MIN as int, i128::MAX as int)
}

/// Addition that saturates at the `i128` range.
pub open spec fn sat_add_spec(a: int, b: int) -> int {
    clamp_spec(a + b, i128::MIN as int, i128::MAX as int)
}

/// `a * b`, saturating at the bounds of `i128`.
fn saturating_mul(a: i128, b: i128) -> (r: i128)
    ensures
        r == sat_mul_spec(a as int, b as int),
{
    match a.checked_mul(b) {
        Some(product) => product,
        None => {
            if (a < 0) == (b < 0) {
                assert(a * b > i128::MAX) by (nonlinear_arith)
                    requires
                        (a < 0) == (b < 0),
                        a * b > i128::MAX || a * b < i128::MIN,
                ;
                i128::MAX
            } else {
                assert(a * b < i128::MIN) by (nonlinear_arith)
                    requires
                        (a < 0) != (b < 0),
                        a * b > i128::MAX || a * b < i128::MIN,
                ;
                i128::MIN
            }
        },
    }
}

/// `a + b`, saturating at the bounds of `i128`.
fn saturating_add(a: i128, b: i128) -> (r: i128)
    ensures
        r == sat_add_spec(a as int, b as int),
{
    match a.checked_add(b) {
        Some(sum) => sum,
        None => if a < 0 { i128::MIN } else { i128::MAX },
    }
}

/// `a - b`, saturating at the bounds of `i128`.
fn saturating_sub(a: i128, b: i128) -> (r: i128)
    ensures
        r == clamp_spec(a - b, i128::MIN as int, i128::MAX as int),
{
    match a.checked_sub(b) {
        Some(difference) => difference,
        None => if a < 0 { i128::MIN } else { i128::MAX },
    }
}

/// The kinetic energy of a particle, in units that make translation and
/// rotation comparable, saturating.
pub open spec fn particle_energy_spec(mass: int, vx: int, vy: int) -> int {
    let speed2 = sat_add_spec(sat_mul_spec(vx, vx), sat_mul_spec(vy, vy));
    sat_mul_spec(sat_mul_spec(mass, speed2), sat_mul_spec(RADIANS_PER_TURN as int, RADIANS_PER_TURN as int))
}

/// The kinetic energy of a body: translation plus rotation, saturating.
pub open spec fn body_energy_spec(mass: int, vx: int, vy: int, spin: int, moment: int) -> int {
    let angular = sat_mul_spec(spin, TAU_NUMERATOR as int);
    let rotation = sat_mul_spec(moment, sat_mul_spec(angular, angular));
    sat_add_spec(particle_energy_spec(mass, vx, vy), rotation)
}

/// The kinetic energy of a particle of the given mass and velocity.
pub fn particle_energy(mass: i64, vx: i64, vy: i64) -> (r: i128)
    ensures
        r == particle_energy_spec(mass as int, vx as int, vy as int),
        mass >= 0 ==> r >= 0,
{
    let speed2 = saturating_add(
        saturating_mul(vx as i128, vx as i128),
        saturating_mul(vy as i128, vy as i128),
    );
    proof {
        assert((vx as int) * (vx as int) >= 0) by (nonlinear_arith);
        assert((vy as int) * (vy as int) >= 0) by (nonlinear_arith);
    }
    let radians = RADIANS_PER_TURN;
    let energy = saturating_mul(mass as i128, speed2);
    proof {
        if mass >= 0 {
            assert(mass * speed2 >= 0) by (nonlinear_arith)
                requires
                    mass >= 0,
                    speed2 >= 0,
            ;
        }
    }
    let r = saturating_mul(energy, saturating_mul(radians, radians));
    proof {
        if mass >= 0 {
            assert(energy * (radians * radians) >= 0) by (nonlinear_arith)
                requires
                    energy >= 0,
            ;
        }
    }
    r
}

/// The kinetic energy of a loose cell.
pub fn cell_energy(cell: &CellState) -> (r: i128)
    ensures
        r == particle_energy_spec(cell.mass as int, cell.vx as int, cell.vy as int),
{
    particle_energy(cell.mass, cell.vx, cell.vy)
}

/// The kinetic energy of a body, translation plus rotation.
pub fn body_energy(body: &Body) -> (r: i128)
    ensures
        r == body_energy_spec(body.mass as int, body.vx as int, body.vy as int, body.spin.0 as int, body.moment as int),
        body.mass >= 0 && body.moment >= 0 ==> r >= 0,
{
    let translation = particle_energy(body.mass, body.vx, body.vy);
    let angular = saturating_mul(body.spin.raw() as i128, TAU_NUMERATOR);
    let squared = saturating_mul(angular, angular);
    proof {
        assert(angular * angular >= 0) by (nonlinear_arith);
    }
    let rotation = saturating_mul(body.moment, squared);
    proof {
        if body.moment >= 0 {
            assert(body.moment * squared >= 0) by (nonlinear_arith)
                requires
                    body.moment >= 0,
                    squared >= 0,
            ;
        }
    }
    saturating_add(translation, rotation)
}

/// Lever of the contact direction about the center of mass: the cross product
/// of the arm to `point` with `direction`.
pub open spec fn lever_spec(com: (i64, i64), point: (i64, i64), direction: (i32, i32)) -> int {
    (point.0 - com.0) * direction.1 - (point.1 - com.1) * direction.0
}

/// Arms, speeds and spins small enough for the side arithmetic.
pub open spec fn side_args_in_range(body: &Body, com: (i64, i64), point: (i64, i64)) -> bool {
    &&& abs(com.0 as int) <= 0x1000_0000_0000
    &&& abs(com.1 as int) <= 0x1000_0000_0000
    &&& abs(point.0 as int) <= 0x1000_0000_0000
    &&& abs(point.1 as int) <= 0x1000_0000_0000
    &&& abs(body.spin.0 as int) <= 0x100_0000
    &&& abs(body.vx as int) <= 0x1000_0000_0000_0000
    &&& abs(body.vy as int) <= 0x1000_0000_0000_0000
}

proof fn lemma_side_speeds(spin: int, lever: int)
    requires
        abs(spin) <= 0x100_0000,
        abs(lever) <= 0x2000_0000_0000,
    ensures
        crate::rotation::speed_in_range(spin, lever),
        abs(speed_at_spec(spin, lever)) <= 0x100_0000_0000_0000,
{
    let n = TAU_NUMERATOR * spin * lever;
    assert(-0x4_0000_0000_0000_0000_0000 <= n <= 0x4_0000_0000_0000_0000_0000) by (nonlinear_arith)
        requires
            n == 710 * spin * lever,
            -0x100_0000 <= spin <= 0x100_0000,
            -0x2000_0000_0000 <= lever <= 0x2000_0000_0000,
    ;
    crate::arith::lemma_round_div_within(n, RADIANS_PER_TURN as int, 0x100_0000_0000_0000);
}

/// A body's side of a contact at `point` along `direction`; `pressing` marks a
/// grounded body that cannot be pushed down.
pub fn body_side(body: &Body, com: (i64, i64), point: (i64, i64), direction: (i32, i32), pressing: bool) -> (r: Side)
    requires
        side_args_in_range(body, com, point),
    ensures
        r.velocity.0 == body.vx - speed_at_spec(body.spin.0 as int, point.1 - com.1),
        r.velocity.1 == body.vy + speed_at_spec(body.spin.0 as int, point.0 - com.0),
        r.inverse == Some(Inverse {
            mass: body.mass,
            moment: body.moment,
            lever: lever_spec(com, point, direction) as i128,
            rigid_y: pressing,
        }),
{
    let rx: i128 = (point.0 - com.0) as i128;
    let ry: i128 = (point.1 - com.1) as i128;
    assert(-0x2000_0000_0000_0000_0000_0000 <= rx * (direction.1 as i128) - ry * (direction.0 as i128)
        <= 0x2000_0000_0000_0000_0000_0000) by (nonlinear_arith)
        requires
            -0x2000_0000_0000 <= rx <= 0x2000_0000_0000,
            -0x2000_0000_0000 <= ry <= 0x2000_0000_0000,
            -0x8000_0000 <= direction.0 <= 0x8000_0000,
            -0x8000_0000 <= direction.1 <= 0x8000_0000,
    ;
    assert(-0x1000_0000_0000_0000_0000 <= rx * (direction.1 as i128) <= 0x1000_0000_0000_0000_0000) by (nonlinear_arith)
        requires
            -0x2000_0000_0000 <= rx <= 0x2000_0000_0000,
            -0x8000_0000 <= direction.1 <= 0x8000_0000,
    ;
    assert(-0x1000_0000_0000_0000_0000 <= ry * (direction.0 as i128) <= 0x1000_0000_0000_0000_0000) by (nonlinear_arith)
        requires
            -0x2000_0000_0000 <= ry <= 0x2000_0000_0000,
            -0x8000_0000 <= direction.0 <= 0x8000_0000,
    ;
    let lever: i128 = rx * (direction.1 as i128) - ry * (direction.0 as i128);
    proof {
        lemma_side_speeds(body.spin.0 as int, point.1 - com.1);
        lemma_side_speeds(body.spin.0 as int, point.0 - com.0);
    }
    Side {
        velocity: (
            body.vx - body.spin.speed_at(point.1 - com.1),
            body.vy + body.spin.speed_at(point.0 - com.0),
        ),
        inverse: Some(Inverse { mass: body.mass, moment: body.moment, lever, rigid_y: pressing }),
    }
}

/// The effective point mass a body presents at `point` along a unit
/// `normal`, in whole mass units, at least one (a body that cannot respond
/// counts as nearly immovable).
pub fn body_point_mass(body: &Body, com: (i64, i64), point: (i64, i64), normal: (i32, i32)) -> (r: i128)
    requires
        side_args_in_range(body, com, point),
        unit_normal(normal),
        inverse_in_range(Inverse {
            mass: body.mass,
            moment: body.moment,
            lever: lever_spec(com, point, normal) as i128,
            rigid_y: false,
        }),
    ensures
        match inverse_effective_mass(
            Inverse { mass: body.mass, moment: body.moment, lever: lever_spec(com, point, normal) as i128, rigid_y: false },
            normal,
        ) {
            Some(m) => r == (if m / (MASS_UNITS as int) >= 1 { m / (MASS_UNITS as int) } else { 1 }),
            None => r == i128::MAX / 2,
        },
{
    let side = body_side(body, com, point, normal, false);
    match side.effective_mass(normal) {
        Some(mass) => {
            let whole: i128 = mass / MASS_UNITS;
            if whole >= 1 { whole } else { 1 }
        },
        None => i128::MAX / 2,
    }
}

/// Relative velocity of two parties along `direction`.
pub open spec fn closing_spec(mine: Side, theirs: Side, direction: (i32, i32)) -> int {
    (mine.velocity.0 - theirs.velocity.0) * direction.0 + (mine.velocity.1 - theirs.velocity.1) * direction.1
}

/// Relative velocity of `mine` against `theirs` along `direction`, negative
/// when they approach.
pub fn closing(mine: &Side, theirs: &Side, direction: (i32, i32)) -> (r: i128)
    requires
        abs(mine.velocity.0 as int) <= 0x2000_0000_0000_0000,
        abs(mine.velocity.1 as int) <= 0x2000_0000_0000_0000,
        abs(theirs.velocity.0 as int) <= 0x2000_0000_0000_0000,
        abs(theirs.velocity.1 as int) <= 0x2000_0000_0000_0000,
    ensures
        r == closing_spec(*mine, *theirs, direction),
{
    let rel_x: i64 = mine.velocity.0 - theirs.velocity.0;
    let rel_y: i64 = mine.velocity.1 - theirs.velocity.1;
    assert(-0x4000_0000_0000_0000_0000_0000 <= rel_x * direction.0 <= 0x4000_0000_0000_0000_0000_0000) by (nonlinear_arith)
        requires
            -0x4000_0000_0000_0000 <= rel_x <= 0x4000_0000_0000_0000,
            -0x8000_0000 <= direction.0 <= 0x8000_0000,
    ;
    assert(-0x4000_0000_0000_0000_0000_0000 <= rel_y * direction.1 <= 0x4000_0000_0000_0000_0000_0000) by (nonlinear_arith)
        requires
            -0x4000_0000_0000_0000 <= rel_y <= 0x4000_0000_0000_0000,
            -0x8000_0000 <= direction.1 <= 0x8000_0000,
    ;
    (rel_x as i128) * (direction.0 as i128) + (rel_y as i128) * (direction.1 as i128)
}

/// Applies impulse `(jx, jy)` to a body at `point`: velocity changes by the
/// impulse over the mass (truncated, with a pressed body kept from moving
/// down), and a body that turns gains the spin of the torque.
pub fn apply_to_body(body: &mut Body, com: (i64, i64), point: (i64, i64), jx: i64, jy: i64, pressing: bool)
    requires
        old(body).mass >= 1,
        0 <= old(body).moment <= 0x1_0000_0000_0000_0000_0000,
        abs(com.0 as int) <= 0x1000_0000_0000,
        abs(com.1 as int) <= 0x1000_0000_0000,
        abs(point.0 as int) <= 0x1000_0000_0000,
        abs(point.1 as int) <= 0x1000_0000_0000,
        abs(jx as int) <= 0x1000_0000_0000,
        abs(jy as int) <= 0x1000_0000_0000,
        abs(old(body).vx as int) <= 0x1000_0000_0000_0000,
        abs(old(body).vy as int) <= 0x1000_0000_0000_0000,
        holds_spec(old(body).freedoms, Freedoms::TURN) ==> i64::MIN <= old(body).spin.0 + impulse_spin(
            (point.0 - com.0) * jy - (point.1 - com.1) * jx,
            old(body).moment as int,
        ) <= i64::MAX,
    ensures
        final(body).vx == old(body).vx + trunc_div_spec(jx as int, old(body).mass as int),
        final(body).vy == old(body).vy + (if pressing && trunc_div_spec(jy as int, old(body).mass as int) < 0 {
            0
        } else {
            trunc_div_spec(jy as int, old(body).mass as int)
        }),
        holds_spec(old(body).freedoms, Freedoms::TURN) ==> final(body).spin.0 == old(body).spin.0
            + impulse_spin((point.0 - com.0) * jy - (point.1 - com.1) * jx, old(body).moment as int),
        !holds_spec(old(body).freedoms, Freedoms::TURN) ==> final(body).spin == old(body).spin,
        final(body).mass == old(body).mass,
        final(body).moment == old(body).moment,
        final(body).freedoms == old(body).freedoms,
{
    let dvx: i64 = jx / body.mass;
    let mut dvy: i64 = jy / body.mass;
    assert(abs(dvx as int) <= abs(jx as int) && abs(dvy as int) <= abs(jy as int)) by (nonlinear_arith)
        requires
            dvx == trunc_div_spec(jx as int, body.mass as int),
            dvy == trunc_div_spec(jy as int, body.mass as int),
            body.mass >= 1,
    ;
    if pressing && dvy < 0 {
        dvy = 0;
    }
    body.vx = body.vx + dvx;
    body.vy = body.vy + dvy;
    let rx: i128 = (point.0 - com.0) as i128;
    let ry: i128 = (point.1 - com.1) as i128;
    assert(-0x1000_0000_0000_0000_0000_0000 <= rx * (jy as i128) <= 0x1000_0000_0000_0000_0000_0000) by (nonlinear_arith)
        requires
            -0x2000_0000_0000 <= rx <= 0x2000_0000_0000,
            -0x1000_0000_0000 <= jy <= 0x1000_0000_0000,
    ;
    assert(-0x1000_0000_0000_0000_0000_0000 <= ry * (jx as i128) <= 0x1000_0000_0000_0000_0000_0000) by (nonlinear_arith)
        requires
            -0x2000_0000_0000 <= ry <= 0x2000_0000_0000,
            -0x1000_0000_0000 <= jx <= 0x1000_0000_0000,
    ;
    let torque: i128 = rx * (jy as i128) - ry * (jx as i128);
    if body.freedoms.holds(Freedoms::TURN) {
        let delta = Spin::from_angular_impulse(torque, body.moment);
        body.spin.add_assign(delta);
    }
}

} // verus!
