//! Fine lattice rotation: a quarter-turn count plus three shears, as used to
//! rasterize rigid bodies at one of 256 orientations.
use vstd::prelude::*;
use crate::arith::{round_div_spec, round_div_i128, trunc_div_spec};

verus! {

pub const SHEAR_BITS: u32 = 16;
pub const SHEAR_SCALE: i64 = 65536;
pub const SHEAR_CENTER: i32 = 32;

/// Shear coefficients `(tan(a/2), sin(a))` in units of `1/65536`, for residual
/// angles of `-32..=32` steps.
pub const SHEARS: [(i64, i64); 65] = [
    (-27146, -46341),
    (-26208, -45190),
    (-25280, -44011),
    (-24360, -42806),
    (-23449, -41576),
    (-22546, -40320),
    (-21650, -39040),
    (-20762, -37736),
    (-19880, -36410),
    (-19005, -35062),
    (-18136, -33692),
    (-17273, -32303),
    (-16416, -30893),
    (-15564, -29466),
    (-14717, -28020),
    (-13874, -26558),
    (-13036, -25080),
    (-12202, -23586),
    (-11372, -22078),
    (-10545, -20557),
    (-9721, -19024),
    (-8901, -17479),
    (-8083, -15924),
    (-7268, -14359),
    (-6455, -12785),
    (-5644, -11204),
    (-4834, -9616),
    (-4026, -8022),
    (-3220, -6424),
    (-2414, -4821),
    (-1609, -3216),
    (-804, -1608),
    (0, 0),
    (804, 1608),
    (1609, 3216),
    (2414, 4821),
    (3220, 6424),
    (4026, 8022),
    (4834, 9616),
    (5644, 11204),
    (6455, 12785),
    (7268, 14359),
    (8083, 15924),
    (8901, 17479),
    (9721, 19024),
    (10545, 20557),
    (11372, 22078),
    (12202, 23586),
    (13036, 25080),
    (13874, 26558),
    (14717, 28020),
    (15564, 29466),
    (16416, 30893),
    (17273, 32303),
    (18136, 33692),
    (19005, 35062),
    (19880, 36410),
    (20762, 37736),
    (21650, 39040),
    (22546, 40320),
    (23449, 41576),
    (24360, 42806),
    (25280, 44011),
    (26208, 45190),
    (27146, 46341),
];

/// Orientation steps in a full turn.
pub const ANGLE_STEPS: u32 = 256;
/// Angle units in a full turn.
pub const TURN_UNITS: i64 = 1048576;
/// Angle units per orientation step.
pub const ORIENTATION_UNITS: i64 = 4096;
/// Numerator of the rational approximation `710 / 113` of a full turn in radians.
pub const TAU_NUMERATOR: i128 = 710;
const TAU_DENOMINATOR: i128 = 113;
/// Angle units of a full turn times the denominator of the turn approximation.
pub const RADIANS_PER_TURN: i128 = 118489088;


/// Absolute value.
pub open spec fn abs(x: int) -> int {
    if x >= 0 { x } else { -x }
}

/// `(x, y)` turned by `n` quarter turns counterclockwise.
pub open spec fn quarter_turn(x: int, y: int, n: nat) -> (int, int)
    decreases n,
{
    if n == 0 {
        (x, y)
    } else {
        let (px, py) = quarter_turn(x, y, (n - 1) as nat);
        (-py, px)
    }
}

/// Whole quarter turns nearest to `step` (out of `steps` per turn).
pub open spec fn nearest_quarters(step: int, steps: int) -> int {
    (step * 4 + steps / 2) / steps
}

/// Splits `step` into whole quarter turns (mod 4) and a residual of steps.
pub open spec fn decompose_spec(step: int) -> (int, int) {
    let quarters = nearest_quarters(step, ANGLE_STEPS as int);
    (quarters % 4, step - quarters * (ANGLE_STEPS / 4) as int)
}

/// The table of shear coefficients.
pub open spec fn shear_table() -> Seq<(i64, i64)> {
    SHEARS@
}

/// One shear of `coordinate` about `center` (both in the grid, the center in
/// subcell units), rounded to whole cells.
pub open spec fn round_shear_spec(coefficient: int, coordinate: int, center: int, units: int) -> int {
    round_div_spec(coefficient * (coordinate * units - center), SHEAR_SCALE * units)
}

/// The cell offset `(dx, dy)` rotated by `step` about the center of mass
/// `com` (in subcell units): quarter turns, then three shears.
pub open spec fn rotate_offset_spec(step: int, com: (int, int), dx: int, dy: int, units: int) -> (int, int) {
    let (quarters, residual) = decompose_spec(step);
    let (x0, y0) = quarter_turn(dx, dy, quarters as nat);
    let (cx, cy) = quarter_turn(com.0, com.1, quarters as nat);
    let (t, s) = shear_table()[residual + SHEAR_CENTER];
    let x1 = x0 - round_shear_spec(t as int, y0, cy, units);
    let y1 = y0 + round_shear_spec(s as int, x1, cx, units);
    let x2 = x1 - round_shear_spec(t as int, y1, cy, units);
    (x2, y1)
}

/// Centers of mass for which the shear arithmetic stays in range.
pub open spec fn com_in_range(com: (i64, i64)) -> bool {
    abs(com.0 as int) <= 0x100_0000_0000 && abs(com.1 as int) <= 0x100_0000_0000
}

/// A pair of integers narrowed to `i32` by truncation.
pub open spec fn narrow(p: (int, int)) -> (i32, i32) {
    (#[verifier::truncate] (p.0 as i32), #[verifier::truncate] (p.1 as i32))
}

/// The exact rotated offset for machine-typed inputs.
pub open spec fn rotated(step: u32, local_com: (i64, i64), dx: i32, dy: i32, units: i64) -> (int, int) {
    rotate_offset_spec(step as int, (local_com.0 as int, local_com.1 as int), dx as int, dy as int, units as int)
}

/// The rotated offset narrowed to `i32`, as the machine computes it.
pub open spec fn rotate_offset_result(step: u32, local_com: (i64, i64), dx: i32, dy: i32, units: i64) -> (i32, i32) {
    narrow(rotated(step, local_com, dx, dy, units))
}

/// Splits an orientation step into quarter turns and a residual in `-32..32` steps.
fn decompose(step: u32) -> (r: (u32, i32))
    requires
        step < 0x7fff_ffe0,
    ensures
        r.0 as int == decompose_spec(step as int).0,
        r.1 as int == decompose_spec(step as int).1,
        0 <= r.0 < 4,
        -32 <= r.1 < 32,
{
    let quarter: i32 = (ANGLE_STEPS as i32) / 4;
    let quarters: i32 = (((step as i64) * 4 + (ANGLE_STEPS as i64) / 2) / (ANGLE_STEPS as i64)) as i32;
    let residual_steps: i32 = (step as i32) - quarters * quarter;
    ((quarters % 4) as u32, residual_steps)
}

/// The shear coefficients for a residual of `-32..=32` steps.
fn residual_shears(residual_steps: i32) -> (r: (i64, i64))
    requires
        -32 <= residual_steps <= 32,
    ensures
        r == shear_table()[residual_steps + SHEAR_CENTER],
{
    SHEARS[(residual_steps + SHEAR_CENTER) as usize]
}

proof fn lemma_shear_bound(coefficient: int, coordinate: int, center: int, units: int)
    requires
        abs(coefficient) <= SHEAR_SCALE,
        units >= 1,
    ensures
        abs(round_shear_spec(coefficient, coordinate, center, units)) <= abs(coordinate) + abs(center),
{
    let a = coordinate * units - center;
    let b = abs(coordinate) + abs(center);
    assert(-b * units <= a <= b * units) by (nonlinear_arith)
        requires
            a == coordinate * units - center,
            b == abs(coordinate) + abs(center),
            units >= 1,
            abs(coordinate) >= coordinate,
            abs(coordinate) >= -coordinate,
            abs(center) >= center,
            abs(center) >= -center,
    ;
    let n = coefficient * a;
    let d = SHEAR_SCALE * units;
    assert(-b * d <= n <= b * d) by (nonlinear_arith)
        requires
            -b * units <= a <= b * units,
            n == coefficient * a,
            d == SHEAR_SCALE * units,
            -SHEAR_SCALE <= coefficient <= SHEAR_SCALE,
            b >= 0,
            units >= 1,
    ;
    crate::arith::lemma_round_div_within(n, d, b);
}

/// One shear step: `coefficient * (coordinate - center)` scaled down and
/// rounded to whole cells.
fn round_shear(coefficient: i64, coordinate: i64, center: i64, units: i64) -> (r: i64)
    requires
        -SHEAR_SCALE <= coefficient <= SHEAR_SCALE,
        abs(coordinate as int) <= 0x1_0000_0000_0000,
        abs(center as int) <= 0x1_0000_0000_0000,
        1 <= units <= 0x4000,
    ensures
        r == round_shear_spec(coefficient as int, coordinate as int, center as int, units as int),
        abs(r as int) <= abs(coordinate as int) + abs(center as int),
{
    proof {
        lemma_shear_bound(coefficient as int, coordinate as int, center as int, units as int);
        assert(-0x4000_0000_0000_0000 <= coordinate * units <= 0x4000_0000_0000_0000)
            by (nonlinear_arith)
            requires
                -0x1_0000_0000_0000 <= coordinate <= 0x1_0000_0000_0000,
                1 <= units <= 0x4000,
        ;
        let a = coordinate * units - center;
        assert(-0x8000_0000_0000_0000 <= a <= 0x8000_0000_0000_0000);
        assert(-0x8000_0000_0000_0000_0000 <= coefficient * a <= 0x8000_0000_0000_0000_0000)
            by (nonlinear_arith)
            requires
                -0x8000_0000_0000_0000 <= a <= 0x8000_0000_0000_0000,
                -SHEAR_SCALE <= coefficient <= SHEAR_SCALE,
        ;
    }
    let scaled: i128 = (coordinate as i128) * (units as i128) - (center as i128);
    let numer: i128 = (coefficient as i128) * scaled;
    let denominator: i128 = (SHEAR_SCALE as i128) * (units as i128);
    round_div_i128(numer, denominator) as i64
}

/// Rotates the cell offset `(dx, dy)` of a body by orientation `step` about its
/// center of mass `local_com` (subcell units, relative to the anchor cell), as
/// quarter turns followed by three rounded shears. `units` is the number of
/// subcell units per cell.
pub fn rotate_offset(
    step: u32,
    local_com: (i64, i64),
    dx: i32,
    dy: i32,
    units: i64,
) -> (r: (i32, i32))
    requires
        step < 0x7fff_ffe0,
        com_in_range(local_com),
        1 <= units <= 0x4000,
    ensures
        r == rotate_offset_result(step, local_com, dx, dy, units),
{
    let (quarters, residual_steps) = decompose(step);
    let mut x: i64 = dx as i64;
    let mut y: i64 = dy as i64;
    let mut center_x: i64 = local_com.0;
    let mut center_y: i64 = local_com.1;
    let mut turned: u32 = 0;
    while turned < quarters
        invariant
            turned <= quarters < 4,
            (x as int, y as int) == quarter_turn(dx as int, dy as int, turned as nat),
            (center_x as int, center_y as int) == quarter_turn(local_com.0 as int, local_com.1 as int, turned as nat),
            abs(x as int) <= 0x8000_0000,
            abs(y as int) <= 0x8000_0000,
            abs(center_x as int) <= 0x100_0000_0000,
            abs(center_y as int) <= 0x100_0000_0000,
        decreases quarters - turned,
    {
        let next_x: i64 = -y;
        y = x;
        x = next_x;
        let next_center_x: i64 = -center_y;
        center_y = center_x;
        center_x = next_center_x;
        turned = turned + 1;
    }
    let (t, s) = residual_shears(residual_steps);
    proof {
        assert(shear_table() =~= SHEARS@);
        assert forall|i: int| 0 <= i < 65 implies abs(shear_table()[i].0 as int) <= SHEAR_SCALE
            && abs(shear_table()[i].1 as int) <= SHEAR_SCALE by {
        }
    }
    x = x - round_shear(t, y, center_y, units);
    y = y + round_shear(s, x, center_x, units);
    x = x - round_shear(t, y, center_y, units);
    (#[verifier::truncate] (x as i32), #[verifier::truncate] (y as i32))
}
proof fn lemma_quarter_turn_injective(x1: int, y1: int, x2: int, y2: int, n: nat)
    requires
        quarter_turn(x1, y1, n) == quarter_turn(x2, y2, n),
    ensures
        x1 == x2 && y1 == y2,
    decreases n,
{
    if n > 0 {
        let (a1, b1) = quarter_turn(x1, y1, (n - 1) as nat);
        let (a2, b2) = quarter_turn(x2, y2, (n - 1) as nat);
        assert(a1 == a2 && b1 == b2);
        lemma_quarter_turn_injective(x1, y1, x2, y2, (n - 1) as nat);
    }
}

/// Four quarter turns bring a point back to itself.
pub proof fn lemma_quarter_turn_full(x: int, y: int)
    ensures
        quarter_turn(x, y, 4) == (x, y),
{
    reveal_with_fuel(quarter_turn, 5);
}

/// Rotation never maps two cells of a body onto one cell: for a fixed
/// orientation, center and cell size, distinct offsets stay distinct.
pub proof fn lemma_rotate_offset_injective(
    step: int,
    com: (int, int),
    units: int,
    a: (int, int),
    b: (int, int),
)
    requires
        rotate_offset_spec(step, com, a.0, a.1, units) == rotate_offset_spec(step, com, b.0, b.1, units),
    ensures
        a == b,
{
    let (quarters, residual) = decompose_spec(step);
    let (ax0, ay0) = quarter_turn(a.0, a.1, quarters as nat);
    let (bx0, by0) = quarter_turn(b.0, b.1, quarters as nat);
    let (cx, cy) = quarter_turn(com.0, com.1, quarters as nat);
    let (t, s) = shear_table()[residual + SHEAR_CENTER];
    let ax1 = ax0 - round_shear_spec(t as int, ay0, cy, units);
    let bx1 = bx0 - round_shear_spec(t as int, by0, cy, units);
    let ay1 = ay0 + round_shear_spec(s as int, ax1, cx, units);
    let by1 = by0 + round_shear_spec(s as int, bx1, cx, units);
    assert(ay1 == by1);
    assert(ax1 == bx1);
    assert(ay0 == by0);
    assert(ax0 == bx0);
    lemma_quarter_turn_injective(a.0, a.1, b.0, b.1, quarters as nat);
}

/// At an orientation that is a whole number of quarter turns, rotation is the
/// exact quarter turn: no shear moves any cell.
pub proof fn lemma_rotate_offset_quarter(step: int, com: (int, int), dx: int, dy: int, units: int)
    requires
        decompose_spec(step).1 == 0,
        units >= 1,
    ensures
        rotate_offset_spec(step, com, dx, dy, units) == quarter_turn(dx, dy, decompose_spec(step).0 as nat),
{
    assert(shear_table()[SHEAR_CENTER as int] == (0i64, 0i64));
    let (quarters, residual) = decompose_spec(step);
    let (x0, y0) = quarter_turn(dx, dy, quarters as nat);
    let (cx, cy) = quarter_turn(com.0, com.1, quarters as nat);
    assert(round_shear_spec(0, y0, cy, units) == 0) by {
        assert(0 * (y0 * units - cy) == 0);
        crate::arith::lemma_round_div_exact(0, SHEAR_SCALE * units);
        assert(0 * (SHEAR_SCALE * units) == 0);
    }
    let x1 = x0 - round_shear_spec(0, y0, cy, units);
    assert(round_shear_spec(0, x1, cx, units) == 0) by {
        assert(0 * (x1 * units - cx) == 0);
        crate::arith::lemma_round_div_exact(0, SHEAR_SCALE * units);
        assert(0 * (SHEAR_SCALE * units) == 0);
    }
}

/// Tangential speed is odd in the lever arm: the point opposite the axis
/// moves at the opposite speed.
pub proof fn lemma_speed_at_odd(spin: int, lever: int)
    ensures
        speed_at_spec(spin, -lever) == -speed_at_spec(spin, lever),
{
    assert(TAU_NUMERATOR * spin * -lever == -(TAU_NUMERATOR * spin * lever)) by (nonlinear_arith);
    crate::arith::lemma_round_div_odd(TAU_NUMERATOR * spin * lever, RADIANS_PER_TURN as int);
}

/// The residual of any non-negative step lies in `-32..32`.
pub proof fn lemma_decompose_range(step: int)
    requires
        step >= 0,
    ensures
        -32 <= decompose_spec(step).1 < 32,
        0 <= decompose_spec(step).0 < 4,
{
    let q = nearest_quarters(step, 256);
    vstd::arithmetic::div_mod::lemma_fundamental_div_mod(step * 4 + 128, 256);
    assert(q == (step * 4 + 128) / 256);
}

proof fn lemma_quarter_turn_abs(x: int, y: int, n: nat)
    ensures
        abs(quarter_turn(x, y, n).0) + abs(quarter_turn(x, y, n).1) == abs(x) + abs(y),
        quarter_turn(0, 0, n) == (0int, 0int),
    decreases n,
{
    if n > 0 {
        lemma_quarter_turn_abs(x, y, (n - 1) as nat);
    }
}

/// Rotating about the anchor moves an offset at most three times its
/// taxicab length along either axis.
pub proof fn lemma_rotate_offset_bound(step: int, dx: int, dy: int, units: int)
    requires
        units >= 1,
        -32 <= decompose_spec(step).1 <= 32,
    ensures
        abs(rotate_offset_spec(step, (0, 0), dx, dy, units).0) <= 3 * (abs(dx) + abs(dy)),
        abs(rotate_offset_spec(step, (0, 0), dx, dy, units).1) <= 3 * (abs(dx) + abs(dy)),
{
    let (quarters, residual) = decompose_spec(step);
    lemma_quarter_turn_abs(dx, dy, quarters as nat);
    let (x0, y0) = quarter_turn(dx, dy, quarters as nat);
    assert(shear_table() =~= SHEARS@);
    assert forall|i: int| 0 <= i < 65 implies abs(shear_table()[i].0 as int) <= SHEAR_SCALE
        && abs(shear_table()[i].1 as int) <= SHEAR_SCALE by {}
    let (t, s) = shear_table()[residual + SHEAR_CENTER];
    lemma_shear_bound(t as int, y0, 0, units);
    let x1 = x0 - round_shear_spec(t as int, y0, 0, units);
    lemma_shear_bound(s as int, x1, 0, units);
    let y1 = y0 + round_shear_spec(s as int, x1, 0, units);
    lemma_shear_bound(t as int, y1, 0, units);
}

/// A rotation speed, in angle units per tick.
#[derive(Debug, Clone, Copy, PartialEq, Eq)]
pub struct Spin(pub i64);

/// Speed of a point at distance `lever` from the axis, rounded to nearest.
pub open spec fn speed_at_spec(spin: int, lever: int) -> int {
    round_div_spec(TAU_NUMERATOR * spin * lever, RADIANS_PER_TURN as int)
}

/// Inputs for which the tangential-speed product stays in range.
pub open spec fn speed_in_range(spin: int, lever: int) -> bool {
    TAU_NUMERATOR * spin * lever + RADIANS_PER_TURN / 2 <= i128::MAX
        && TAU_NUMERATOR * spin * lever - RADIANS_PER_TURN / 2 >= i128::MIN
}

impl Spin {
    /// No rotation.
    pub fn zero() -> (s: Spin)
        ensures
            s.0 == 0,
    {
        Spin(0)
    }

    pub fn from_raw(raw: i64) -> (s: Spin)
        ensures
            s.0 == raw,
    {
        Spin(raw)
    }

    pub fn raw(self) -> (r: i64)
        ensures
            r == self.0,
    {
        self.0
    }

    /// Tangential speed, in subcell units per tick, of a point `lever` subcell
    /// units from the rotation axis.
    pub fn speed_at(self, lever: i64) -> (r: i64)
        requires
            speed_in_range(self.0 as int, lever as int),
        ensures
            r == #[verifier::truncate] (speed_at_spec(self.0 as int, lever as int) as i64),
    {
        let product: i128 = TAU_NUMERATOR * (self.0 as i128) * (lever as i128);
        #[verifier::truncate] (round_div_i128(product, RADIANS_PER_TURN) as i64)
    }

    /// The spin whose tangential speed at distance `lever` (at least one) is `speed`.
    pub fn for_speed_at(speed: i64, lever: i64) -> (s: Spin)
        ensures
            s.0 == #[verifier::truncate] (round_div_spec(
                speed * RADIANS_PER_TURN,
                TAU_NUMERATOR * (if lever >= 1 { lever as int } else { 1 }),
            ) as i64),
    {
        let lever_floor: i64 = if lever >= 1 { lever } else { 1 };
        let numer: i128 = (speed as i128) * RADIANS_PER_TURN;
        let denominator: i128 = TAU_NUMERATOR * (lever_floor as i128);
        Spin(#[verifier::truncate] (round_div_i128(numer, denominator) as i64))
    }

    /// The spin change produced by an angular impulse on a body with the given
    /// moment of inertia; no change for a zero moment.
    pub fn from_angular_impulse(impulse: i128, moment: i128) -> (s: Spin)
        requires
            impulse * RADIANS_PER_TURN <= i128::MAX,
            impulse * RADIANS_PER_TURN >= i128::MIN,
            moment * TAU_NUMERATOR <= i128::MAX,
            moment * TAU_NUMERATOR >= i128::MIN,
        ensures
            moment == 0 ==> s.0 == 0,
            moment != 0 ==> s.0 == #[verifier::truncate] (trunc_div_spec(
                impulse * RADIANS_PER_TURN,
                moment * TAU_NUMERATOR,
            ) as i64),
    {
        if moment == 0 {
            return Spin(0);
        }
        let numer: i128 = impulse * RADIANS_PER_TURN;
        let denominator: i128 = moment * TAU_NUMERATOR;
        // Truncating division; a negative divisor is handled through its magnitude.
        let quotient: i128 = if denominator > 0 {
            numer / denominator
        } else {
            -(numer / -denominator)
        };
        Spin(#[verifier::truncate] (quotient as i64))
    }

    /// The spin limited to `[-limit, limit]`.
    pub fn clamped(self, limit: Spin) -> (s: Spin)
        requires
            limit.0 >= 0,
        ensures
            s.0 == crate::arith::clamp_spec(self.0 as int, -limit.0, limit.0 as int),
    {
        let lo: i64 = -limit.0;
        if self.0 < lo {
            Spin(lo)
        } else if self.0 > limit.0 {
            Spin(limit.0)
        } else {
            self
        }
    }

    /// The sum of two spins.
    pub fn add(self, other: Spin) -> (s: Spin)
        requires
            i64::MIN <= self.0 + other.0 <= i64::MAX,
        ensures
            s.0 == self.0 + other.0,
    {
        Spin(self.0 + other.0)
    }

    /// Adds `other` to this spin in place.
    pub fn add_assign(&mut self, other: Spin)
        requires
            i64::MIN <= old(self).0 + other.0 <= i64::MAX,
        ensures
            final(self).0 == old(self).0 + other.0,
    {
        self.0 = self.0 + other.0;
    }
}

} // verus!
