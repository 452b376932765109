//! Coarse lattice rotation: a quarter-turn count plus three shears, at one of
//! 64 orientations, for the pixel-body rasterizer.
use vstd::prelude::*;
use crate::arith::{round_div_spec, round_div_i128};
use crate::rotation::{abs, quarter_turn};

verus! {

pub const SHEAR_BITS: u32 = 16;
pub const SHEAR_SCALE: i64 = 65536;

/// Shear coefficients `(tan(a/2), sin(a))` in units of `1/65536`, at every
/// second of 128 residual positions, for residual angles of -8..=8 steps.
pub const SHEARS_128: [(i64, i64); 33] = [
    (-27146, -46341),
    (-25280, -44011),
    (-23449, -41576),
    (-21650, -39040),
    (-19880, -36410),
    (-18136, -33692),
    (-16416, -30893),
    (-14717, -28020),
    (-13036, -25080),
    (-11372, -22078),
    (-9721, -19024),
    (-8083, -15924),
    (-6455, -12785),
    (-4834, -9616),
    (-3220, -6424),
    (-1609, -3216),
    (0, 0),
    (1609, 3216),
    (3220, 6424),
    (4834, 9616),
    (6455, 12785),
    (8083, 15924),
    (9721, 19024),
    (11372, 22078),
    (13036, 25080),
    (14717, 28020),
    (16416, 30893),
    (18136, 33692),
    (19880, 36410),
    (21650, 39040),
    (23449, 41576),
    (25280, 44011),
    (27146, 46341),
];

pub const SHEAR_STEPS: u32 = 128;
/// Orientation steps in a full turn.
pub const ANGLE_STEPS: u32 = 64;
/// Angle units in a full turn.
pub const TURN_UNITS: i64 = 1048576;

/// The orientation step nearest to `angle` (in angle units), modulo a full turn.
pub open spec fn quantize_step_spec(angle: int) -> int {
    round_div_spec(angle * ANGLE_STEPS, TURN_UNITS as int) % (ANGLE_STEPS as int)
}

/// Splits `step` into whole quarter turns (mod 4) and a residual of steps.
pub open spec fn decompose_spec(step: int) -> (int, int) {
    let quarters = (step * 4 + (ANGLE_STEPS / 2) as int) / (ANGLE_STEPS as int);
    (quarters % 4, step - quarters * (ANGLE_STEPS / 4) as int)
}

/// The table of shear coefficients.
pub open spec fn shear_table() -> Seq<(i64, i64)> {
    SHEARS_128@
}

/// A shear product scaled down by `2^16` and rounded.
pub open spec fn round_shift_spec(numer: int) -> int {
    round_div_spec(numer, SHEAR_SCALE as int)
}

/// The vector `(x, y)` rotated by `step`: quarter turns, then three shears.
pub open spec fn rotate_vector_spec(step: int, x: int, y: int) -> (int, int) {
    let (quarters, residual) = decompose_spec(step);
    let (x0, y0) = quarter_turn(x, y, quarters as nat);
    let (t, s) = shear_table()[residual * 2 + 16];
    let x1 = x0 - round_shift_spec(t * y0);
    let y1 = y0 + round_shift_spec(s * x1);
    let x2 = x1 - round_shift_spec(t * y1);
    (x2, y1)
}

/// The orientation step nearest to `angle`, in `0..64`.
pub fn quantize_step(angle: i64) -> (r: u32)
    ensures
        r == quantize_step_spec(angle as int),
        r < ANGLE_STEPS,
{
    let q: i128 = round_div_i128((angle as i128) * (ANGLE_STEPS as i128), TURN_UNITS as i128);
    let m: i128 = q % (ANGLE_STEPS as i128);
    let wrapped: i128 = if m < 0 { m + (ANGLE_STEPS as i128) } else { m };
    wrapped as u32
}

/// Splits an orientation step into quarter turns and a residual in `-8..8` steps.
fn decompose(step: u32) -> (r: (u32, i32))
    requires
        step < 0x7fff_ffe0,
    ensures
        r.0 as int == decompose_spec(step as int).0,
        r.1 as int == decompose_spec(step as int).1,
        0 <= r.0 < 4,
        -8 <= r.1 < 8,
{
    let quarter: i32 = (ANGLE_STEPS as i32) / 4;
    let quarters: i32 = (((step as i64) * 4 + (ANGLE_STEPS as i64) / 2) / (ANGLE_STEPS as i64)) as i32;
    let residual_steps: i32 = (step as i32) - quarters * quarter;
    ((quarters % 4) as u32, residual_steps)
}

/// The shear coefficients for a residual of `-8..=8` steps.
fn residual_shears(residual_steps: i32) -> (r: (i64, i64))
    requires
        -8 <= residual_steps <= 8,
    ensures
        r == shear_table()[residual_steps * 2 + 16],
{
    let index: i32 = residual_steps * ((SHEAR_STEPS / ANGLE_STEPS) as i32) + 16;
    SHEARS_128[index as usize]
}

/// A shear product scaled down by `2^16`, rounded to nearest.
fn round_shift(numer: i64) -> (r: i64)
    ensures
        r == round_shift_spec(numer as int),
{
    proof {
        crate::arith::lemma_round_div_within(numer as int, SHEAR_SCALE as int, 0x8000_0000_0000);
    }
    round_div_i128(numer as i128, SHEAR_SCALE as i128) as i64
}

proof fn lemma_shift_bound(coefficient: int, v: int)
    requires
        -SHEAR_SCALE <= coefficient <= SHEAR_SCALE,
    ensures
        abs(round_shift_spec(coefficient * v)) <= abs(v),
{
    let b = abs(v);
    assert(-b * SHEAR_SCALE <= coefficient * v <= b * SHEAR_SCALE) by (nonlinear_arith)
        requires
            -SHEAR_SCALE <= coefficient <= SHEAR_SCALE,
            b == abs(v),
            b >= v,
            b >= -v,
    ;
    crate::arith::lemma_round_div_within(coefficient * v, SHEAR_SCALE as int, b);
}

/// Rotates the vector `(x, y)` by orientation `step`: quarter turns, then
/// three rounded shears.
pub fn rotate_vector(step: u32, x: i64, y: i64) -> (r: (i64, i64))
    requires
        step < 0x7fff_ffe0,
        abs(x as int) <= 0x100_0000_0000,
        abs(y as int) <= 0x100_0000_0000,
    ensures
        r.0 as int == rotate_vector_spec(step as int, x as int, y as int).0,
        r.1 as int == rotate_vector_spec(step as int, x as int, y as int).1,
        0 < step < 16 && x > 0 && y == 0 ==> r.1 >= 0,
{
    proof {
        if 0 < step < 16 && x > 0 && y == 0 {
            lemma_rotate_vector_counterclockwise(step as int, x as int);
        }
    }
    let (quarters, residual_steps) = decompose(step);
    let mut rx: i64 = x;
    let mut ry: i64 = y;
    let mut turned: u32 = 0;
    while turned < quarters
        invariant
            turned <= quarters < 4,
            (rx as int, ry as int) == quarter_turn(x as int, y as int, turned as nat),
            abs(rx as int) <= 0x100_0000_0000,
            abs(ry as int) <= 0x100_0000_0000,
        decreases quarters - turned,
    {
        let next_x: i64 = -ry;
        ry = rx;
        rx = next_x;
        turned = turned + 1;
    }
    let (t, s) = residual_shears(residual_steps);
    proof {
        assert(shear_table() =~= SHEARS_128@);
        lemma_shift_bound(t as int, ry as int);
    }
    assert(-0x8000_0000_0000_0000 <= t * ry <= 0x7fff_ffff_ffff_ffff) by (nonlinear_arith)
        requires
            -SHEAR_SCALE <= t <= SHEAR_SCALE,
            abs(ry as int) <= 0x100_0000_0000,
    ;
    rx = rx - round_shift(t * ry);
    proof {
        lemma_shift_bound(s as int, rx as int);
    }
    assert(-0x8000_0000_0000_0000 <= s * rx <= 0x7fff_ffff_ffff_ffff) by (nonlinear_arith)
        requires
            -SHEAR_SCALE <= s <= SHEAR_SCALE,
            abs(rx as int) <= 0x200_0000_0000,
    ;
    ry = ry + round_shift(s * rx);
    proof {
        lemma_shift_bound(t as int, ry as int);
    }
    assert(-0x8000_0000_0000_0000 <= t * ry <= 0x7fff_ffff_ffff_ffff) by (nonlinear_arith)
        requires
            -SHEAR_SCALE <= t <= SHEAR_SCALE,
            abs(ry as int) <= 0x400_0000_0000,
    ;
    rx = rx - round_shift(t * ry);
    (rx, ry)
}

/// Rotates the cell offset `(dx, dy)` by orientation `step`, narrowing the
/// result to `i32`.
pub fn rotate_offset(step: u32, dx: i32, dy: i32) -> (r: (i32, i32))
    requires
        step < 0x7fff_ffe0,
    ensures
        r.0 == #[verifier::truncate] (rotate_vector_spec(step as int, dx as int, dy as int).0 as i32),
        r.1 == #[verifier::truncate] (rotate_vector_spec(step as int, dx as int, dy as int).1 as i32),
{
    let (x, y) = rotate_vector(step, dx as i64, dy as i64);
    (#[verifier::truncate] (x as i32), #[verifier::truncate] (y as i32))
}

proof fn lemma_quarter_turn_injective(x1: int, y1: int, x2: int, y2: int, n: nat)
    requires
        quarter_turn(x1, y1, n) == quarter_turn(x2, y2, n),
    ensures
        x1 == x2 && y1 == y2,
    decreases n,
{
    if n > 0 {
        lemma_quarter_turn_injective(x1, y1, x2, y2, (n - 1) as nat);
    }
}

/// Rotating two distinct vectors by the same step gives distinct vectors.
pub proof fn lemma_rotate_vector_injective(step: int, a: (int, int), b: (int, int))
    requires
        rotate_vector_spec(step, a.0, a.1) == rotate_vector_spec(step, b.0, b.1),
    ensures
        a == b,
{
    let (quarters, residual) = decompose_spec(step);
    let (ax0, ay0) = quarter_turn(a.0, a.1, quarters as nat);
    let (bx0, by0) = quarter_turn(b.0, b.1, quarters as nat);
    let (t, s) = shear_table()[residual * 2 + 16];
    let ax1 = ax0 - round_shift_spec(t * ay0);
    let bx1 = bx0 - round_shift_spec(t * by0);
    assert(ax1 == bx1);
    assert(ay0 == by0);
    assert(ax0 == bx0);
    lemma_quarter_turn_injective(a.0, a.1, b.0, b.1, quarters as nat);
}

/// At a whole number of quarter turns, rotation is the exact quarter turn.
pub proof fn lemma_rotate_vector_quarter(step: int, x: int, y: int)
    requires
        decompose_spec(step).1 == 0,
    ensures
        rotate_vector_spec(step, x, y) == quarter_turn(x, y, decompose_spec(step).0 as nat),
{
    assert(shear_table()[16] == (0i64, 0i64));
    crate::arith::lemma_round_div_exact(0, SHEAR_SCALE as int);
    assert(0 * SHEAR_SCALE == 0);
}

/// The quantized step of any angle is a valid orientation step.
pub proof fn lemma_quantize_step_in_range(angle: int)
    ensures
        0 <= quantize_step_spec(angle) < ANGLE_STEPS,
{
}

/// Adding `k` whole divisors to a non-negative dividend adds `k` to the quotient.
proof fn lemma_div_shift(a: int, d: int, k: int)
    requires
        a >= 0,
        d > 0,
        k >= 0,
    ensures
        (a + k * d) / d == a / d + k,
{
    vstd::arithmetic::div_mod::lemma_fundamental_div_mod(a, d);
    let q = a / d;
    let r = a % d;
    assert(a + k * d == d * (q + k) + r) by (nonlinear_arith)
        requires
            a == d * q + r,
    ;
    vstd::arithmetic::div_mod::lemma_div_multiples_vanish_fancy(q + k, r, d);
}

/// A whole turn later an angle quantizes to the same orientation step.
pub proof fn lemma_quantize_step_period(angle: int)
    requires
        angle >= 0,
    ensures
        quantize_step_spec(angle + TURN_UNITS) == quantize_step_spec(angle),
{
    let t = TURN_UNITS as int;
    let n = angle * 64;
    assert((angle + t) * 64 == n + 64 * t);
    lemma_div_shift(n + t / 2, t, 64);
    assert(round_div_spec((angle + t) * 64, t) == round_div_spec(n, t) + 64);
    vstd::arithmetic::div_mod::lemma_mod_multiples_vanish(1, round_div_spec(n, t), 64);
}

/// A whole turn more gives the same rotation.
pub proof fn lemma_rotate_vector_period(step: int, x: int, y: int)
    requires
        step >= 0,
    ensures
        rotate_vector_spec(step + ANGLE_STEPS, x, y) == rotate_vector_spec(step, x, y),
{
    let a = step * 4 + 32;
    assert((step + 64) * 4 + 32 == a + 4 * 64);
    lemma_div_shift(a, 64, 4);
    let q = a / 64;
    vstd::arithmetic::div_mod::lemma_mod_multiples_vanish(1, q, 4);
    assert(((step + 64) * 4 + 32) / 64 == q + 4);
    assert((q + 4) % 4 == q % 4);
    assert(decompose_spec(step + 64).0 == decompose_spec(step).0);
    assert((ANGLE_STEPS / 4) as int == 16);
    assert((q + 4) * 16 == q * 16 + 64);
    assert(decompose_spec(step + 64).1 == decompose_spec(step).1);
}

/// Every shear coefficient is at most a whole unit; those of negative residuals are
/// at most zero and those of positive residuals at least zero.
proof fn lemma_shear_signs(i: int)
    requires
        0 <= i < 33,
    ensures
        -SHEAR_SCALE <= shear_table()[i].0 <= SHEAR_SCALE,
        -SHEAR_SCALE <= shear_table()[i].1 <= SHEAR_SCALE,
        i <= 16 ==> shear_table()[i].0 <= 0 && shear_table()[i].1 <= 0,
        i >= 16 ==> shear_table()[i].0 >= 0 && shear_table()[i].1 >= 0,
{
    assert(shear_table() =~= SHEARS_128@);
}

/// Rotation turns counterclockwise, the same sense as the quarter turns: a vector
/// along the positive x axis turned by a step strictly within the first quarter
/// turn and a half (steps 1 to 15) never ends below the x axis.
pub proof fn lemma_rotate_vector_counterclockwise(step: int, x: int)
    requires
        0 < step < 16,
        x > 0,
    ensures
        rotate_vector_spec(step, x, 0).1 >= 0,
{
    let (quarters, residual) = decompose_spec(step);
    assert(quarters == if step < 8 { 0int } else { 1int });
    assert(residual == if step < 8 { step } else { step - 16 });
    let (x0, y0) = quarter_turn(x, 0, quarters as nat);
    lemma_shear_signs(residual * 2 + 16);
    let (t, s) = shear_table()[residual * 2 + 16];
    if step < 8 {
        assert(quarter_turn(x, 0, 0) == (x, 0int));
        assert(x0 == x && y0 == 0);
        assert(t * y0 == 0) by (nonlinear_arith)
            requires
                y0 == 0,
        ;
        let x1 = x0 - round_shift_spec(t * y0);
        assert(round_shift_spec(0) == 0);
        assert(x1 == x);
        assert(s * x1 >= 0) by (nonlinear_arith)
            requires
                s >= 0,
                x1 > 0,
        ;
        crate::arith::lemma_round_div_nonneg(s * x1, SHEAR_SCALE as int);
    } else {
        assert(quarter_turn(x, 0, 1) == (0int, x)) by {
            assert(quarter_turn(x, 0, 0) == (x, 0int));
        }
        assert(x0 == 0 && y0 == x);
        lemma_shift_bound(t as int, y0);
        let x1 = x0 - round_shift_spec(t * y0);
        assert(abs(x1) <= x);
        lemma_shift_bound(s as int, x1);
        let y1 = y0 + round_shift_spec(s * x1);
        assert(y1 >= 0);
    }
}

/// Rotation by a negative residual turns clockwise: a vector along the positive x
/// axis turned by steps 49 to 63 (less than a quarter turn and a half short of a
/// full turn) never ends above the x axis.
pub proof fn lemma_rotate_vector_clockwise(step: int, x: int)
    requires
        48 < step < 64,
        x > 0,
    ensures
        rotate_vector_spec(step, x, 0).1 <= 0,
{
    let (quarters, residual) = decompose_spec(step);
    let q = (step * 4 + 32) / 64;
    assert(q == if step < 56 { 3int } else { 4int });
    assert(quarters == if step < 56 { 3int } else { 0int });
    assert(residual == if step < 56 { step - 48 } else { step - 64 });
    let (x0, y0) = quarter_turn(x, 0, quarters as nat);
    lemma_shear_signs(residual * 2 + 16);
    let (t, s) = shear_table()[residual * 2 + 16];
    if step >= 56 {
        assert(quarter_turn(x, 0, 0) == (x, 0int));
        assert(x0 == x && y0 == 0);
        assert(t * y0 == 0) by (nonlinear_arith)
            requires
                y0 == 0,
        ;
        let x1 = x0 - round_shift_spec(t * y0);
        assert(round_shift_spec(0) == 0);
        assert(x1 == x);
        assert(-(s * x1) >= 0) by (nonlinear_arith)
            requires
                s <= 0,
                x1 > 0,
        ;
        crate::arith::lemma_round_div_nonneg(-(s * x1), SHEAR_SCALE as int);
        assert(round_shift_spec(s * x1) <= 0);
    } else {
        assert(quarter_turn(x, 0, 3) == (0int, -x)) by {
            assert(quarter_turn(x, 0, 0) == (x, 0int));
            assert(quarter_turn(x, 0, 1) == (0int, x));
            assert(quarter_turn(x, 0, 2) == (-x, 0int));
        }
        assert(x0 == 0 && y0 == -x);
        lemma_shift_bound(t as int, y0);
        let x1 = x0 - round_shift_spec(t * y0);
        assert(abs(x1) <= x);
        lemma_shift_bound(s as int, x1);
        let y1 = y0 + round_shift_spec(s * x1);
        assert(y1 <= 0);
    }
}

} // verus!
