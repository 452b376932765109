//! Rigid pixel bodies: their material slots, mass properties, degrees of
//! freedom and the impulses that change their motion.
use vstd::prelude::*;
use crate::arith::{round_div_spec, round_div_i128, floor_sqrt, isqrt_i128, lemma_floor_sqrt, lemma_round_div_within};
use crate::geometry::{CellPos, MaterialId, Q16};
use crate::rotation::{abs, Spin, speed_at_spec, rotate_offset, rotate_offset_result, rotate_offset_spec, lemma_rotate_offset_bound, lemma_decompose_range};
use crate::arith::trunc_div_spec;

verus! {

/// The center of cell `cell` along one axis, in subcell units.
pub open spec fn cell_center_spec(cell: int, units: int) -> int {
    cell * units + units / 2
}

/// The center of cell `cell` along one axis, in subcell units (`units` per cell).
pub fn cell_center(cell: i32, units: i64) -> (r: i64)
    requires
        1 <= units <= 0x1_0000,
    ensures
        r == cell_center_spec(cell as int, units as int),
        abs(r as int) <= 0x8001_0000_0000,
{
    assert(-0x8000_0000_0000 <= cell * units <= 0x8000_0000_0000) by (nonlinear_arith)
        requires
            -0x8000_0000 <= cell <= 0x8000_0000,
            1 <= units <= 0x1_0000,
    ;
    (cell as i64) * units + units / 2
}

/// The mass one cell of a material contributes: its density in thousandths,
/// at least one.
pub open spec fn cell_mass_spec(density_milli: int) -> int {
    if density_milli >= 1 { density_milli } else { 1 }
}

/// The mass one cell of a material of the given density contributes.
pub fn cell_mass(density_milli: i32) -> (r: i64)
    ensures
        r == cell_mass_spec(density_milli as int),
{
    if density_milli >= 1 { density_milli as i64 } else { 1 }
}

/// How a body may move: whether it turns, whether it settles back into the
/// grid when at rest, and whether it gets movement assists.
#[derive(Debug, Clone, Copy, PartialEq, Eq)]
pub struct Policy {
    pub turns: bool,
    pub settles: bool,
    pub assists: bool,
}

impl Policy {
    /// Loose debris: turns and settles.
    pub fn debris() -> (p: Policy)
        ensures
            p == (Policy { turns: true, settles: true, assists: false }),
    {
        Policy { turns: true, settles: true, assists: false }
    }

    /// A ball: turns but never settles.
    pub fn ball() -> (p: Policy)
        ensures
            p == (Policy { turns: true, settles: false, assists: false }),
    {
        Policy { turns: true, settles: false, assists: false }
    }

    /// A mob: neither turns nor settles.
    pub fn mob() -> (p: Policy)
        ensures
            p == (Policy { turns: false, settles: false, assists: false }),
    {
        Policy { turns: false, settles: false, assists: false }
    }

    /// The player: does not turn or settle, and gets assists.
    pub fn player() -> (p: Policy)
        ensures
            p == (Policy { turns: false, settles: false, assists: true }),
    {
        Policy { turns: false, settles: false, assists: true }
    }
}

/// The degrees of freedom a body holds, as a bit set.
#[derive(Debug, Clone, Copy, PartialEq, Eq)]
pub struct Freedoms(pub u8);

/// Whether the bit set holds any of the bits of `bit`.
pub open spec fn holds_spec(f: Freedoms, bit: u8) -> bool {
    f.0 & bit != 0
}

impl Freedoms {
    pub const TURN: u8 = 1;
    pub const X: u8 = 2;
    pub const Y: u8 = 4;

    /// Both translations, no turning.
    pub fn translation() -> (f: Freedoms)
        ensures
            f.0 == Self::X | Self::Y,
            !holds_spec(f, Self::TURN),
            holds_spec(f, Self::X),
            holds_spec(f, Self::Y),
    {
        assert((2u8 | 4u8) & 1u8 == 0u8 && (2u8 | 4u8) & 2u8 != 0u8 && (2u8 | 4u8) & 4u8 != 0u8)
            by (bit_vector);
        Freedoms(Self::X | Self::Y)
    }

    /// Every degree of freedom.
    pub fn all() -> (f: Freedoms)
        ensures
            f.0 == Self::TURN | Self::X | Self::Y,
            holds_spec(f, Self::TURN),
            holds_spec(f, Self::X),
            holds_spec(f, Self::Y),
    {
        assert((1u8 | 2u8 | 4u8) & 1u8 != 0u8 && (1u8 | 2u8 | 4u8) & 2u8 != 0u8
            && (1u8 | 2u8 | 4u8) & 4u8 != 0u8) by (bit_vector);
        Freedoms(Self::TURN | Self::X | Self::Y)
    }

    /// Whether any of the bits of `bit` is held.
    pub fn holds(self, bit: u8) -> (r: bool)
        ensures
            r == holds_spec(self, bit),
    {
        self.0 & bit != 0
    }
}

/// One cell of a body: its offset from the anchor and its material, with the
/// material's density, restitution and friction as the content tables give them.
#[derive(Debug, Clone, Copy)]
pub struct Slot {
    pub local: (i32, i32),
    pub material: MaterialId,
    pub density_milli: i32,
    pub restitution: Q16,
    pub friction: Q16,
}

/// The mass a slot contributes.
pub open spec fn slot_mass(s: Slot) -> int {
    cell_mass_spec(s.density_milli as int)
}

/// Total mass of the slots.
pub open spec fn total_mass(s: Seq<Slot>) -> int
    decreases s.len(),
{
    if s.len() == 0 { 0 } else { total_mass(s.drop_last()) + slot_mass(s.last()) }
}

/// Mass-weighted sum of the slots' offsets along x.
pub open spec fn weighted_x(s: Seq<Slot>) -> int
    decreases s.len(),
{
    if s.len() == 0 { 0 } else { weighted_x(s.drop_last()) + slot_mass(s.last()) * s.last().local.0 }
}

/// Mass-weighted sum of the slots' offsets along y.
pub open spec fn weighted_y(s: Seq<Slot>) -> int
    decreases s.len(),
{
    if s.len() == 0 { 0 } else { weighted_y(s.drop_last()) + slot_mass(s.last()) * s.last().local.1 }
}

/// Squared distance of a slot's center from `center`, in subcell units.
pub open spec fn slot_arm(s: Slot, center: (int, int), units: int) -> int {
    let dx = s.local.0 * units - center.0;
    let dy = s.local.1 * units - center.1;
    dx * dx + dy * dy
}

/// Moment of inertia about `center`: each slot counts at least a sixth of a
/// square cell of arm.
pub open spec fn moment_of(s: Seq<Slot>, center: (int, int), units: int) -> int
    decreases s.len(),
{
    if s.len() == 0 {
        0
    } else {
        let arm = slot_arm(s.last(), center, units);
        let floor = units * units / 6;
        moment_of(s.drop_last(), center, units) + slot_mass(s.last()) * (if arm >= floor { arm } else { floor })
    }
}

/// The largest squared distance of a slot from `center`.
pub open spec fn reach_of(s: Seq<Slot>, center: (int, int), units: int) -> int
    decreases s.len(),
{
    if s.len() == 0 {
        0
    } else {
        let arm = slot_arm(s.last(), center, units);
        let rest = reach_of(s.drop_last(), center, units);
        if arm >= rest { arm } else { rest }
    }
}

/// The largest restitution among the slots (zero for none).
pub open spec fn max_restitution(s: Seq<Slot>) -> u32
    decreases s.len(),
{
    if s.len() == 0 {
        0
    } else {
        let r = s.last().restitution.0;
        let rest = max_restitution(s.drop_last());
        if r > rest { r } else { rest }
    }
}

/// The smallest friction among the slots (full for none).
pub open spec fn min_friction(s: Seq<Slot>) -> u32
    decreases s.len(),
{
    if s.len() == 0 {
        u32::MAX
    } else {
        let f = s.last().friction.0;
        let rest = min_friction(s.drop_last());
        if f < rest { f } else { rest }
    }
}

/// The center of mass of the slots relative to the anchor, in subcell units.
pub open spec fn slot_center(s: Seq<Slot>, units: int) -> (int, int) {
    (
        round_div_spec(weighted_x(s) * units, total_mass(s)),
        round_div_spec(weighted_y(s) * units, total_mass(s)),
    )
}

/// Slot sets whose mass arithmetic stays in range.
pub open spec fn slots_in_range(s: Seq<Slot>) -> bool {
    &&& 1 <= s.len() <= 0x1_0000
    &&& forall|i: int| 0 <= i < s.len() ==> {
        &&& abs(#[trigger] s[i].local.0 as int) <= 0x1_0000
        &&& abs(s[i].local.1 as int) <= 0x1_0000
        &&& s[i].density_milli <= 0x100_0000
    }
}

/// Mass properties of a set of slots.
pub struct Inertia {
    pub mass: i64,
    pub moment: i128,
    pub radius: i64,
    pub restitution: Q16,
    pub friction: Q16,
}

proof fn lemma_scaled_bound(m: int, l: int, b: int)
    requires
        0 <= m,
        -b <= l <= b,
    ensures
        -(m * b) <= m * l <= m * b,
{
    assert(-(m * b) <= m * l <= m * b) by (nonlinear_arith)
        requires
            0 <= m,
            -b <= l <= b,
    ;
}

/// Slots whose mass properties the machine can hold: at least one slot, a total
/// mass that fits in `i64`, and a weighted center sum in subcell units and a moment
/// of inertia that fit in `i128`.
pub open spec fn inertia_fits(s: Seq<Slot>, units: int) -> bool {
    &&& 1 <= s.len()
    &&& 1 <= units <= 0x4000
    &&& total_mass(s) <= i64::MAX
    &&& i128::MIN <= weighted_x(s) * units <= i128::MAX
    &&& i128::MIN <= weighted_y(s) * units <= i128::MAX
    &&& moment_of(s, slot_center(s, units), units) <= i128::MAX
}

/// The moment of a prefix of the slots is at most the moment of all of them.
proof fn lemma_moment_prefix(s: Seq<Slot>, j: int, c: (int, int), units: int)
    requires
        0 <= j <= s.len(),
    ensures
        0 <= moment_of(s.subrange(0, j), c, units) <= moment_of(s, c, units),
    decreases s.len() - j,
{
    lemma_moment_nonneg(s.subrange(0, j), c, units);
    if j < s.len() {
        lemma_moment_prefix(s, j + 1, c, units);
        let t = s.subrange(0, j + 1);
        assert(t.drop_last() =~= s.subrange(0, j));
        let arm = slot_arm(t.last(), c, units);
        let floor = units * units / 6;
        let lever = if arm >= floor { arm } else { floor };
        assert(arm >= 0) by (nonlinear_arith)
            requires
                arm == (t.last().local.0 * units - c.0) * (t.last().local.0 * units - c.0)
                    + (t.last().local.1 * units - c.1) * (t.last().local.1 * units - c.1),
        ;
        assert(floor >= 0) by (nonlinear_arith)
            requires
                floor == units * units / 6,
        ;
        assert(slot_mass(t.last()) * lever >= 0) by (nonlinear_arith)
            requires
                slot_mass(t.last()) >= 1,
                lever >= 0,
        ;
    } else {
        assert(s.subrange(0, j) =~= s);
    }
}

proof fn lemma_moment_nonneg(s: Seq<Slot>, c: (int, int), units: int)
    ensures
        moment_of(s, c, units) >= 0,
    decreases s.len(),
{
    if s.len() > 0 {
        lemma_moment_nonneg(s.drop_last(), c, units);
        let arm = slot_arm(s.last(), c, units);
        let floor = units * units / 6;
        let lever = if arm >= floor { arm } else { floor };
        assert(arm >= 0) by (nonlinear_arith)
            requires
                arm == (s.last().local.0 * units - c.0) * (s.last().local.0 * units - c.0)
                    + (s.last().local.1 * units - c.1) * (s.last().local.1 * units - c.1),
        ;
        assert(floor >= 0) by (nonlinear_arith)
            requires
                floor == units * units / 6,
        ;
        assert(slot_mass(s.last()) * lever >= 0) by (nonlinear_arith)
            requires
                slot_mass(s.last()) >= 1,
                lever >= 0,
        ;
    }
}

/// Mass, moment of inertia about the center of mass, bounding radius in cells,
/// and the largest restitution and smallest friction of a set of slots.
pub fn inertia(slots: &[Slot], units: i64) -> (r: Inertia)
    requires
        inertia_fits(slots@, units as int),
    ensures
        r.mass == total_mass(slots@),
        r.moment == moment_of(slots@, slot_center(slots@, units as int), units as int),
        r.radius == floor_sqrt(reach_of(slots@, slot_center(slots@, units as int), units as int))
            / (units as int) + 1,
        r.restitution.0 == max_restitution(slots@),
        r.friction.0 == min_friction(slots@),
{
    let n = slots.len();
    let mut mass: i128 = 0;
    let mut wx: i128 = 0;
    let mut wy: i128 = 0;
    let mut restitution: u32 = 0;
    let mut friction: u32 = u32::MAX;
    let mut i: usize = 0;
    while i < n
        invariant
            n == slots.len(),
            0 <= i <= n,
            mass == total_mass(slots@.subrange(0, i as int)),
            wx == weighted_x(slots@.subrange(0, i as int)),
            wy == weighted_y(slots@.subrange(0, i as int)),
            restitution == max_restitution(slots@.subrange(0, i as int)),
            friction == min_friction(slots@.subrange(0, i as int)),
            i <= mass <= i * 0x8000_0000,
            -(mass * 0x8000_0000) <= wx <= mass * 0x8000_0000,
            -(mass * 0x8000_0000) <= wy <= mass * 0x8000_0000,
        decreases n - i,
    {
        let slot = slots[i];
        let ghost prefix = slots@.subrange(0, i as int);
        let ghost next = slots@.subrange(0, i + 1);
        assert(next.drop_last() =~= prefix);
        assert(next.last() == slot);
        let cell: i128 = cell_mass(slot.density_milli) as i128;
        proof {
            lemma_scaled_bound(cell as int, slot.local.0 as int, 0x8000_0000);
            lemma_scaled_bound(cell as int, slot.local.1 as int, 0x8000_0000);
            assert((mass + cell) * 0x8000_0000 == mass * 0x8000_0000 + cell * 0x8000_0000) by (nonlinear_arith);
            assert(mass * 0x8000_0000 <= 0x1_0000_0000_0000_0000 * 0x8000_0000 * 0x8000_0000) by (nonlinear_arith)
                requires
                    mass <= i * 0x8000_0000,
                    i < 0x1_0000_0000_0000_0000,
            ;
            assert((i + 1) * 0x8000_0000 == i * 0x8000_0000 + 0x8000_0000) by (nonlinear_arith);
        }
        mass = mass + cell;
        wx = wx + cell * (slot.local.0 as i128);
        wy = wy + cell * (slot.local.1 as i128);
        if slot.restitution.raw() > restitution {
            restitution = slot.restitution.raw();
        }
        if slot.friction.raw() < friction {
            friction = slot.friction.raw();
        }
        i = i + 1;
    }
    assert(slots@.subrange(0, n as int) =~= slots@);
    proof {
        assert(-(mass * 0x4000_0000_0000) <= wx * units <= mass * 0x4000_0000_0000) by (nonlinear_arith)
            requires
                -(mass * 0x8000_0000) <= wx <= mass * 0x8000_0000,
                1 <= units <= 0x4000,
                mass >= 1,
        ;
        assert(-(mass * 0x4000_0000_0000) <= wy * units <= mass * 0x4000_0000_0000) by (nonlinear_arith)
            requires
                -(mass * 0x8000_0000) <= wy <= mass * 0x8000_0000,
                1 <= units <= 0x4000,
                mass >= 1,
        ;
        assert(mass * 0x4000_0000_0000 == 0x4000_0000_0000 * mass) by (nonlinear_arith);
        lemma_round_div_within(wx * units, mass as int, 0x4000_0000_0000);
        lemma_round_div_within(wy * units, mass as int, 0x4000_0000_0000);
    }
    let center_x: i128 = round_div_i128(wx * (units as i128), mass);
    let center_y: i128 = round_div_i128(wy * (units as i128), mass);
    let ghost center = (center_x as int, center_y as int);
    assert(center == slot_center(slots@, units as int));
    assert(units * units <= 0x1000_0000) by (nonlinear_arith)
        requires
            1 <= units <= 0x4000,
    ;
    let floor: i128 = ((units * units) as i128) / 6;
    let mut moment: i128 = 0;
    let mut reach: i128 = 0;
    let mut j: usize = 0;
    while j < n
        invariant
            n == slots.len(),
            inertia_fits(slots@, units as int),
            1 <= units <= 0x4000,
            0 <= j <= n,
            abs(center_x as int) <= 0x4000_0000_0000,
            abs(center_y as int) <= 0x4000_0000_0000,
            center == (center_x as int, center_y as int),
            center == slot_center(slots@, units as int),
            floor == units * units / 6,
            moment == moment_of(slots@.subrange(0, j as int), center, units as int),
            reach == reach_of(slots@.subrange(0, j as int), center, units as int),
            0 <= reach <= 0x8_0000_0000_0000_0000_0000_0000,
        decreases n - j,
    {
        let slot = slots[j];
        let ghost prefix = slots@.subrange(0, j as int);
        let ghost next = slots@.subrange(0, j + 1);
        assert(next.drop_last() =~= prefix);
        assert(next.last() == slot);
        proof {
            lemma_scaled_bound(units as int, slot.local.0 as int, 0x8000_0000);
            lemma_scaled_bound(units as int, slot.local.1 as int, 0x8000_0000);
            assert(units * 0x8000_0000 <= 0x4000_0000_0000) by (nonlinear_arith)
                requires
                    1 <= units <= 0x4000,
            ;
            assert(slot.local.0 * units == units * slot.local.0) by (nonlinear_arith);
            assert(slot.local.1 * units == units * slot.local.1) by (nonlinear_arith);
        }
        let dx: i128 = (slot.local.0 as i128) * (units as i128) - center_x;
        let dy: i128 = (slot.local.1 as i128) * (units as i128) - center_y;
        assert(0 <= dx * dx <= 0x4000_0000_0000_0000_0000_0000) by (nonlinear_arith)
            requires
                -0x8000_0000_0000 <= dx <= 0x8000_0000_0000,
        ;
        assert(0 <= dy * dy <= 0x4000_0000_0000_0000_0000_0000) by (nonlinear_arith)
            requires
                -0x8000_0000_0000 <= dy <= 0x8000_0000_0000,
        ;
        let arm: i128 = dx * dx + dy * dy;
        assert(arm == slot_arm(slot, center, units as int));
        let cell: i128 = cell_mass(slot.density_milli) as i128;
        let lever: i128 = if arm >= floor { arm } else { floor };
        assert(0 <= floor <= 0x400_0000) by (nonlinear_arith)
            requires
                floor == units * units / 6,
                1 <= units <= 0x4000,
        ;
        proof {
            lemma_moment_prefix(slots@, j + 1, center, units as int);
            lemma_moment_prefix(slots@, j as int, center, units as int);
            assert(moment_of(next, center, units as int) == moment + cell * lever);
            assert(0 <= cell * lever <= i128::MAX);
        }
        moment = moment + cell * lever;
        if arm > reach {
            reach = arm;
        }
        j = j + 1;
    }
    let root: i128 = isqrt_i128(reach);
    proof {
        lemma_floor_sqrt(reach as int, root as int);
        assert(root <= 0x4_0000_0000_0000) by (nonlinear_arith)
            requires
                root >= 0,
                root * root <= reach,
                reach <= 0x8_0000_0000_0000_0000_0000_0000,
        ;
    }
    Inertia {
        mass: mass as i64,
        moment,
        radius: (root as i64) / units + 1,
        restitution: Q16::from_raw(restitution),
        friction: Q16::from_raw(friction),
    }
}

/// A slot's offset turned by `step` about the anchor.
pub open spec fn turned(s: Slot, step: u32, units: i64) -> (i32, i32) {
    rotate_offset_result(step, (0, 0), s.local.0, s.local.1, units)
}

/// Mass-weighted sum of the slots' turned offsets along x.
pub open spec fn turned_weighted_x(s: Seq<Slot>, step: u32, units: i64) -> int
    decreases s.len(),
{
    if s.len() == 0 { 0 } else {
        turned_weighted_x(s.drop_last(), step, units) + slot_mass(s.last()) * turned(s.last(), step, units).0
    }
}

/// Mass-weighted sum of the slots' turned offsets along y.
pub open spec fn turned_weighted_y(s: Seq<Slot>, step: u32, units: i64) -> int
    decreases s.len(),
{
    if s.len() == 0 { 0 } else {
        turned_weighted_y(s.drop_last(), step, units) + slot_mass(s.last()) * turned(s.last(), step, units).1
    }
}

proof fn lemma_turned_small(s: Slot, step: u32, units: i64)
    requires
        abs(s.local.0 as int) <= 0x1_0000,
        abs(s.local.1 as int) <= 0x1_0000,
        1 <= units <= 0x4000,
        step < 0x7fff_ffe0,
    ensures
        abs(turned(s, step, units).0 as int) <= 0x6_0000,
        abs(turned(s, step, units).1 as int) <= 0x6_0000,
{
    lemma_decompose_range(step as int);
    lemma_rotate_offset_bound(step as int, s.local.0 as int, s.local.1 as int, units as int);
}

/// The center of mass of slots turned by `step`, relative to the anchor cell's
/// origin corner, in subcell units.
pub fn rotated_mean(slots: &[Slot], mass: i64, step: u32, units: i64) -> (r: (i64, i64))
    requires
        slots_in_range(slots@),
        mass >= 1,
        1 <= units <= 0x4000,
        step < 0x7fff_ffe0,
    ensures
        r.0 == #[verifier::truncate] (round_div_spec(turned_weighted_x(slots@, step, units) * units, mass as int) as i64),
        r.1 == #[verifier::truncate] (round_div_spec(turned_weighted_y(slots@, step, units) * units, mass as int) as i64),
        mass == total_mass(slots@) ==> abs(r.0 as int) <= 0x6_0000 * units && abs(r.1 as int) <= 0x6_0000 * units,
        mass == total_mass(slots@) ==> r.0 == round_div_spec(turned_weighted_x(slots@, step, units) * units, mass as int)
            && r.1 == round_div_spec(turned_weighted_y(slots@, step, units) * units, mass as int),
{
    let n = slots.len();
    let mut wx: i128 = 0;
    let mut wy: i128 = 0;
    let mut i: usize = 0;
    while i < n
        invariant
            n == slots.len(),
            slots_in_range(slots@),
            1 <= units <= 0x4000,
            step < 0x7fff_ffe0,
            0 <= i <= n,
            wx == turned_weighted_x(slots@.subrange(0, i as int), step, units),
            wy == turned_weighted_y(slots@.subrange(0, i as int), step, units),
            abs(wx as int) <= i * 0x1000_0000_0000,
            abs(wy as int) <= i * 0x1000_0000_0000,
            abs(wx as int) <= total_mass(slots@.subrange(0, i as int)) * 0x6_0000,
            abs(wy as int) <= total_mass(slots@.subrange(0, i as int)) * 0x6_0000,
        decreases n - i,
    {
        let slot = slots[i];
        let ghost next = slots@.subrange(0, i + 1);
        assert(next.drop_last() =~= slots@.subrange(0, i as int));
        assert(next.last() == slot);
        assert(abs(slot.local.0 as int) <= 0x1_0000 && abs(slot.local.1 as int) <= 0x1_0000
            && slot.density_milli <= 0x100_0000) by {
            assert(slots@[i as int] == slot);
        }
        let (dx, dy) = rotate_offset(step, (0, 0), slot.local.0, slot.local.1, units);
        proof {
            lemma_turned_small(slot, step, units);
        }
        let cell: i128 = cell_mass(slot.density_milli) as i128;
        proof {
            lemma_scaled_bound(cell as int, dx as int, 0x6_0000);
            lemma_scaled_bound(cell as int, dy as int, 0x6_0000);
            assert(cell * 0x6_0000 <= 0x1000_0000_0000) by (nonlinear_arith)
                requires
                    cell <= 0x100_0000,
            ;
            assert((i + 1) * 0x1000_0000_0000 == i * 0x1000_0000_0000 + 0x1000_0000_0000) by (nonlinear_arith);
            let tm = total_mass(slots@.subrange(0, i as int));
            assert((tm + cell) * 0x6_0000 == tm * 0x6_0000 + cell * 0x6_0000) by (nonlinear_arith);
        }
        wx = wx + cell * (dx as i128);
        wy = wy + cell * (dy as i128);
        i = i + 1;
    }
    assert(slots@.subrange(0, n as int) =~= slots@);
    proof {
        assert(abs(wx * units) <= 0x4_0000_0000_0000_0000_0000) by (nonlinear_arith)
            requires
                abs(wx as int) <= 0x1_0000 * 0x1000_0000_0000,
                1 <= units <= 0x4000,
        ;
        assert(abs(wy * units) <= 0x4_0000_0000_0000_0000_0000) by (nonlinear_arith)
            requires
                abs(wy as int) <= 0x1_0000 * 0x1000_0000_0000,
                1 <= units <= 0x4000,
        ;
    }
    let m: i128 = mass as i128;
    proof {
        if mass == total_mass(slots@) {
            assert(-(mass * (0x6_0000 * units)) <= wx * units <= mass * (0x6_0000 * units)) by (nonlinear_arith)
                requires
                    abs(wx as int) <= mass * 0x6_0000,
                    1 <= units,
                    mass >= 1,
            ;
            assert(-(mass * (0x6_0000 * units)) <= wy * units <= mass * (0x6_0000 * units)) by (nonlinear_arith)
                requires
                    abs(wy as int) <= mass * 0x6_0000,
                    1 <= units,
                    mass >= 1,
            ;
            assert(-(0x6_0000 * units) * mass <= wx * units <= (0x6_0000 * units) * mass) by (nonlinear_arith)
                requires
                    -(mass * (0x6_0000 * units)) <= wx * units <= mass * (0x6_0000 * units),
            ;
            assert(-(0x6_0000 * units) * mass <= wy * units <= (0x6_0000 * units) * mass) by (nonlinear_arith)
                requires
                    -(mass * (0x6_0000 * units)) <= wy * units <= mass * (0x6_0000 * units),
            ;
            lemma_round_div_within(wx * units, mass as int, 0x6_0000 * units);
            lemma_round_div_within(wy * units, mass as int, 0x6_0000 * units);
        }
    }
    (
        #[verifier::truncate] (round_div_i128(wx * (units as i128), m) as i64),
        #[verifier::truncate] (round_div_i128(wy * (units as i128), m) as i64),
    )
}

/// The cells a body covers: each slot's turned offset from the anchor.
pub fn rasterize(slots: &[Slot], anchor: CellPos, step: u32, out: &mut Vec<CellPos>, units: i64)
    requires
        slots_in_range(slots@),
        1 <= units <= 0x4000,
        step < 0x7fff_ffe0,
        abs(anchor.x as int) <= 0x7ff0_0000,
        abs(anchor.y as int) <= 0x7ff0_0000,
    ensures
        final(out)@.len() == slots@.len(),
        forall|i: int| 0 <= i < slots@.len() ==> (#[trigger] final(out)@[i]).x == anchor.x + turned(slots@[i], step, units).0
            && final(out)@[i].y == anchor.y + turned(slots@[i], step, units).1,
{
    out.clear();
    let n = slots.len();
    let mut i: usize = 0;
    while i < n
        invariant
            n == slots.len(),
            slots_in_range(slots@),
            1 <= units <= 0x4000,
            step < 0x7fff_ffe0,
            abs(anchor.x as int) <= 0x7ff0_0000,
            abs(anchor.y as int) <= 0x7ff0_0000,
            0 <= i <= n,
            out@.len() == i,
            forall|k: int| 0 <= k < i ==> (#[trigger] out@[k]).x == anchor.x + turned(slots@[k], step, units).0
                && out@[k].y == anchor.y + turned(slots@[k], step, units).1,
        decreases n - i,
    {
        let slot = slots[i];
        assert(abs(slot.local.0 as int) <= 0x1_0000 && abs(slot.local.1 as int) <= 0x1_0000) by {
            assert(slots@[i as int] == slot);
        }
        proof {
            lemma_turned_small(slot, step, units);
        }
        let (dx, dy) = rotate_offset(step, (0, 0), slot.local.0, slot.local.1, units);
        out.push(anchor.translated(dx, dy));
        i = i + 1;
    }
}

/// A rigid body of cells with its pose, motion, sub-cell accumulators and
/// mass properties.
pub struct Body {
    pub id: u32,
    pub slots: Vec<Slot>,
    pub raster: Vec<CellPos>,
    pub anchor: CellPos,
    pub step: u32,
    pub vx: i64,
    pub vy: i64,
    pub spin: Spin,
    pub acc_x: i64,
    pub acc_y: i64,
    pub acc_turn: i64,
    pub mass: i64,
    pub moment: i128,
    pub radius: i64,
    pub restitution: Q16,
    pub friction: Q16,
    pub weight: i64,
    pub freedoms: Freedoms,
    pub settles: bool,
    pub assists: bool,
    pub was_grounded: bool,
    pub parked: bool,
}

/// Offsets, speeds and impulses small enough for the impulse arithmetic.
pub open spec fn impulse_in_range(body: &Body, com: (i64, i64), pos: CellPos, jx: i64, jy: i64) -> bool {
    &&& 1 <= body.mass
    &&& 0 <= body.moment <= 0x1_0000_0000_0000_0000_0000
    &&& abs(com.0 as int) <= 0x1000_0000_0000
    &&& abs(com.1 as int) <= 0x1000_0000_0000
    &&& abs(jx as int) <= 0x1000_0000_0000
    &&& abs(jy as int) <= 0x1000_0000_0000
    &&& abs(body.vx as int) <= 0x1000_0000_0000_0000
    &&& abs(body.vy as int) <= 0x1000_0000_0000_0000
    &&& abs(body.spin.0 as int) <= 0x1000_0000_0000_0000
}

impl Body {
    /// Takes on a motion policy: all freedoms when it turns, else translation
    /// only, and its settling and assist flags.
    pub fn apply(&mut self, policy: Policy)
        ensures
            holds_spec(final(self).freedoms, Freedoms::TURN) == policy.turns,
            holds_spec(final(self).freedoms, Freedoms::X),
            holds_spec(final(self).freedoms, Freedoms::Y),
            final(self).freedoms == (if policy.turns { Freedoms(7) } else { Freedoms(6) }),
            final(self).settles == policy.settles,
            final(self).assists == policy.assists,
            final(self).slots == old(self).slots,
            final(self).vx == old(self).vx && final(self).vy == old(self).vy,
            final(self).spin == old(self).spin,
            final(self).mass == old(self).mass,
            *final(self) == (Body { freedoms: final(self).freedoms, settles: policy.settles, assists: policy.assists, ..*old(self) }),
    {
        self.freedoms = if policy.turns { Freedoms::all() } else { Freedoms::translation() };
        proof {
            assert(1u8 | 2u8 | 4u8 == 7u8 && 2u8 | 4u8 == 6u8) by (bit_vector);
        }
        self.settles = policy.settles;
        self.assists = policy.assists;
    }

    /// Velocity of the body's material at cell `pos`, given its center of mass.
    pub fn point_velocity(&self, com: (i64, i64), pos: CellPos, units: i64) -> (r: (i64, i64))
        requires
            1 <= units <= 0x1_0000,
            abs(com.0 as int) <= 0x1000_0000_0000,
            abs(com.1 as int) <= 0x1000_0000_0000,
            abs(self.spin.0 as int) <= 0x100_0000,
            abs(self.vx as int) <= 0x1000_0000_0000_0000,
            abs(self.vy as int) <= 0x1000_0000_0000_0000,
        ensures
            r.0 == self.vx - speed_at_spec(self.spin.0 as int, cell_center_spec(pos.y as int, units as int) - com.1),
            r.1 == self.vy + speed_at_spec(self.spin.0 as int, cell_center_spec(pos.x as int, units as int) - com.0),
    {
        let rx: i64 = cell_center(pos.x, units) - com.0;
        let ry: i64 = cell_center(pos.y, units) - com.1;
        proof {
            lemma_speed_bounded(self.spin.0 as int, rx as int);
            lemma_speed_bounded(self.spin.0 as int, ry as int);
        }
        (self.vx - self.spin.speed_at(ry), self.vy + self.spin.speed_at(rx))
    }

    /// The center of mass in world subcell units.
    pub fn com(&self, units: i64) -> (r: (i64, i64))
        requires
            slots_in_range(self.slots@),
            self.mass == total_mass(self.slots@),
            1 <= units <= 0x4000,
            self.step < 0x7fff_ffe0,
        ensures
            r.0 == cell_center_spec(self.anchor.x as int, units as int)
                + round_div_spec(turned_weighted_x(self.slots@, self.step, units) * units, self.mass as int),
            r.1 == cell_center_spec(self.anchor.y as int, units as int)
                + round_div_spec(turned_weighted_y(self.slots@, self.step, units) * units, self.mass as int),
    {
        proof {
            lemma_total_mass_at_least_len(self.slots@);
        }
        let mean = rotated_mean(self.slots.as_slice(), self.mass, self.step, units);
        (cell_center(self.anchor.x, units) + mean.0, cell_center(self.anchor.y, units) + mean.1)
    }

    /// Applies impulse `(jx, jy)` at cell `pos`: the velocity changes by the
    /// impulse over the mass, and a body that turns gains the spin of the torque.
    pub fn apply_impulse(&mut self, com: (i64, i64), pos: CellPos, jx: i64, jy: i64, units: i64)
        requires
            1 <= units <= 0x1_0000,
            impulse_in_range(old(self), com, pos, jx, jy),
            holds_spec(old(self).freedoms, Freedoms::TURN) ==> i64::MIN <= old(self).spin.0 + impulse_spin(
                torque_spec(com, pos, jx, jy, units as int),
                old(self).moment as int,
            ) <= i64::MAX,
        ensures
            final(self).vx == old(self).vx + round_div_spec(jx as int, old(self).mass as int),
            final(self).vy == old(self).vy + round_div_spec(jy as int, old(self).mass as int),
            holds_spec(old(self).freedoms, Freedoms::TURN) ==> final(self).spin.0 == old(self).spin.0
                + impulse_spin(torque_spec(com, pos, jx, jy, units as int), old(self).moment as int),
            !holds_spec(old(self).freedoms, Freedoms::TURN) ==> final(self).spin == old(self).spin,
            final(self).mass == old(self).mass,
            final(self).moment == old(self).moment,
            final(self).freedoms == old(self).freedoms,
            final(self).slots == old(self).slots,
    {
        let rx: i128 = (cell_center(pos.x, units) - com.0) as i128;
        let ry: i128 = (cell_center(pos.y, units) - com.1) as i128;
        let mass: i128 = self.mass as i128;
        proof {
            lemma_within_own_magnitude(jx as int, mass as int);
            lemma_within_own_magnitude(jy as int, mass as int);
        }
        self.vx = self.vx + (round_div_i128(jx as i128, mass) as i64);
        self.vy = self.vy + (round_div_i128(jy as i128, mass) as i64);
        if self.freedoms.holds(Freedoms::TURN) {
            proof {
                lemma_torque_bound(rx as int, ry as int, jx as int, jy as int);
            }
            let torque: i128 = rx * (jy as i128) - ry * (jx as i128);
            let delta = Spin::from_angular_impulse(torque, self.moment);
            self.spin.add_assign(delta);
        }
    }

    /// Sets the mass properties from the slots.
    pub fn refresh_inertia(&mut self, units: i64)
        requires
            inertia_fits(old(self).slots@, units as int),
        ensures
            final(self).mass == total_mass(old(self).slots@),
            final(self).moment == moment_of(old(self).slots@, slot_center(old(self).slots@, units as int), units as int),
            final(self).radius == floor_sqrt(reach_of(old(self).slots@, slot_center(old(self).slots@, units as int), units as int))
                / (units as int) + 1,
            final(self).restitution.0 == max_restitution(old(self).slots@),
            final(self).friction.0 == min_friction(old(self).slots@),
            final(self).slots == old(self).slots,
            final(self).anchor == old(self).anchor,
            final(self).step == old(self).step,
            *final(self) == (Body {
                mass: final(self).mass,
                moment: final(self).moment,
                radius: final(self).radius,
                restitution: final(self).restitution,
                friction: final(self).friction,
                ..*old(self)
            }),
    {
        let inertia = inertia(self.slots.as_slice(), units);
        self.mass = inertia.mass;
        self.moment = inertia.moment;
        self.radius = inertia.radius;
        self.restitution = inertia.restitution;
        self.friction = inertia.friction;
    }
}

/// Torque about `com` of impulse `(jx, jy)` applied at the center of cell `pos`.
pub open spec fn torque_spec(com: (i64, i64), pos: CellPos, jx: i64, jy: i64, units: int) -> int {
    (cell_center_spec(pos.x as int, units) - com.0) * jy - (cell_center_spec(pos.y as int, units) - com.1) * jx
}

/// The spin an angular impulse gives a body of the given moment, as the
/// machine narrows it.
pub open spec fn impulse_spin(torque: int, moment: int) -> int {
    if moment == 0 {
        0
    } else {
        (#[verifier::truncate] (trunc_div_spec(
            torque * crate::rotation::RADIANS_PER_TURN,
            moment * crate::rotation::TAU_NUMERATOR,
        ) as i64)) as int
    }
}

proof fn lemma_torque_bound(rx: int, ry: int, jx: int, jy: int)
    requires
        abs(rx) <= 0x1_0000_0000_0000,
        abs(ry) <= 0x1_0000_0000_0000,
        abs(jx) <= 0x1000_0000_0000,
        abs(jy) <= 0x1000_0000_0000,
    ensures
        abs(rx * jy - ry * jx) <= 0x2000_0000_0000_0000_0000_0000,
        abs(rx * jy) <= 0x1000_0000_0000_0000_0000_0000,
        abs(ry * jx) <= 0x1000_0000_0000_0000_0000_0000,
{
    assert(-0x1000_0000_0000_0000_0000_0000 <= rx * jy <= 0x1000_0000_0000_0000_0000_0000) by (nonlinear_arith)
        requires
            -0x1_0000_0000_0000 <= rx <= 0x1_0000_0000_0000,
            -0x1000_0000_0000 <= jy <= 0x1000_0000_0000,
    ;
    assert(-0x1000_0000_0000_0000_0000_0000 <= ry * jx <= 0x1000_0000_0000_0000_0000_0000) by (nonlinear_arith)
        requires
            -0x1_0000_0000_0000 <= ry <= 0x1_0000_0000_0000,
            -0x1000_0000_0000 <= jx <= 0x1000_0000_0000,
    ;
}

proof fn lemma_within_own_magnitude(j: int, mass: int)
    requires
        mass >= 1,
    ensures
        -abs(j) <= round_div_spec(j, mass) <= abs(j),
{
    assert(-abs(j) * mass <= j <= abs(j) * mass) by (nonlinear_arith)
        requires
            mass >= 1,
            abs(j) >= j,
            abs(j) >= -j,
            abs(j) >= 0,
    ;
    lemma_round_div_within(j, mass, abs(j));
}

/// Every slot weighs at least one, so the total mass is at least the slot count.
pub proof fn lemma_total_mass_at_least_len(s: Seq<Slot>)
    ensures
        total_mass(s) >= s.len(),
    decreases s.len(),
{
    if s.len() > 0 {
        lemma_total_mass_at_least_len(s.drop_last());
    }
}

pub proof fn lemma_speed_bounded(spin: int, lever: int)
    requires
        abs(spin) <= 0x100_0000,
        abs(lever) <= 0x1_0000_0000_0000,
    ensures
        crate::rotation::speed_in_range(spin, lever),
        abs(speed_at_spec(spin, lever)) <= 0x100_0000_0000_0000,
{
    let n = crate::rotation::TAU_NUMERATOR * spin * lever;
    assert(-0x4_0000_0000_0000_0000_0000 <= n <= 0x4_0000_0000_0000_0000_0000) by (nonlinear_arith)
        requires
            n == 710 * spin * lever,
            -0x100_0000 <= spin <= 0x100_0000,
            -0x1_0000_0000_0000 <= lever <= 0x1_0000_0000_0000,
    ;
    lemma_round_div_within(n, crate::rotation::RADIANS_PER_TURN as int, 0x100_0000_0000_0000);
}

} // verus!
