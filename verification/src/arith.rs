//! Integer rounding and root helpers shared by the simulation passes.
use vstd::prelude::*;
use vstd::arithmetic::power2::{pow2, lemma_pow2_pos, lemma_pow2_strictly_increases};
use vstd::bits::{lemma_u64_shr_is_div, lemma_u64_shl_is_mul, lemma_u64_pow2_no_overflow};
use vstd::arithmetic::div_mod::{lemma_fundamental_div_mod, lemma_div_pos_is_pos};

verus! {

/// Division rounded to the nearest integer, with halves rounded away from zero.
pub open spec fn round_div_spec(numer: int, denominator: int) -> int {
    if numer >= 0 {
        (numer + denominator / 2) / denominator
    } else {
        -((-numer + denominator / 2) / denominator)
    }
}

/// Integer division truncating toward zero, as the machine division does.
pub open spec fn trunc_div_spec(a: int, b: int) -> int {
    if a >= 0 {
        if b > 0 { a / b } else { -(a / -b) }
    } else {
        if b > 0 { -((-a) / b) } else { (-a) / (-b) }
    }
}

/// The value `x` clamped into `[lo, hi]`.
pub open spec fn clamp_spec(x: int, lo: int, hi: int) -> int {
    if x < lo {
        lo
    } else if x > hi {
        hi
    } else {
        x
    }
}

/// The floor of the square root of `n`.
pub open spec fn is_isqrt(n: int, r: int) -> bool {
    r >= 0 && r * r <= n && n < (r + 1) * (r + 1)
}

/// The floor of the square root of a non-negative `n`.
pub open spec fn floor_sqrt(n: int) -> int {
    choose|r: int| is_isqrt(n, r)
}

proof fn lemma_isqrt_unique(n: int, a: int, b: int)
    requires
        is_isqrt(n, a),
        is_isqrt(n, b),
    ensures
        a == b,
{
    if a < b {
        assert((a + 1) * (a + 1) <= b * b) by (nonlinear_arith)
            requires
                0 <= a + 1 <= b,
        ;
    }
    if b < a {
        assert((b + 1) * (b + 1) <= a * a) by (nonlinear_arith)
            requires
                0 <= b + 1 <= a,
        ;
    }
}

/// The root returned by a square-root routine is the floor square root.
pub proof fn lemma_floor_sqrt(n: int, r: int)
    requires
        is_isqrt(n, r),
    ensures
        floor_sqrt(n) == r,
{
    lemma_isqrt_unique(n, r, floor_sqrt(n));
}

pub proof fn lemma_round_div_nonneg(n: int, d: int)
    requires
        n >= 0,
        d > 0,
    ensures
        -d <= 2 * (n - round_div_spec(n, d) * d) <= d,
        round_div_spec(n, d) >= 0,
{
    let h = d / 2;
    let q = (n + h) / d;
    lemma_fundamental_div_mod(n + h, d);
    lemma_div_pos_is_pos(n + h, d);
    let r = (n + h) % d;
    assert(0 <= r < d);
    assert(n + h == d * q + r);
    assert(d * q == q * d) by (nonlinear_arith);
}

/// Rounded division is the nearest integer quotient: the remainder it leaves
/// is at most half the divisor in magnitude.
pub proof fn lemma_round_div_nearest(n: int, d: int)
    requires
        d > 0,
    ensures
        -d <= 2 * (n - round_div_spec(n, d) * d) <= d,
{
    if n >= 0 {
        lemma_round_div_nonneg(n, d);
    } else {
        lemma_round_div_nonneg(-n, d);
        assert(round_div_spec(n, d) == -round_div_spec(-n, d));
        assert(round_div_spec(n, d) * d == -(round_div_spec(-n, d) * d)) by (nonlinear_arith)
            requires
                round_div_spec(n, d) == -round_div_spec(-n, d),
        ;
    }
}

/// A quotient whose exact value lies within `[-bound, bound]` rounds into the same range.
pub proof fn lemma_round_div_within(n: int, d: int, bound: int)
    requires
        d > 0,
        bound >= 0,
        -bound * d <= n <= bound * d,
    ensures
        -bound <= round_div_spec(n, d) <= bound,
{
    lemma_round_div_nearest(n, d);
    let q = round_div_spec(n, d);
    if q > bound {
        assert(q * d >= (bound + 1) * d) by (nonlinear_arith)
            requires
                q >= bound + 1,
                d > 0,
        ;
        assert((bound + 1) * d == bound * d + d) by (nonlinear_arith);
    }
    if q < -bound {
        assert(q * d <= (-bound - 1) * d) by (nonlinear_arith)
            requires
                q <= -bound - 1,
                d > 0,
        ;
        assert((-bound - 1) * d == -bound * d - d) by (nonlinear_arith);
    }
}

/// Rounded division is odd in its numerator: negating the numerator negates
/// the quotient.
pub proof fn lemma_round_div_odd(n: int, d: int)
    requires
        d > 0,
    ensures
        round_div_spec(-n, d) == -round_div_spec(n, d),
{
    if n > 0 {
        assert(round_div_spec(-n, d) == -((n + d / 2) / d));
    } else if n < 0 {
        assert(round_div_spec(n, d) == -((-n + d / 2) / d));
    } else {
        assert(round_div_spec(0, d) == (d / 2) / d);
        assert((d / 2) / d == 0) by (nonlinear_arith)
            requires
                d > 0,
        ;
    }
}

/// Rounded division of an exact multiple returns the multiplier.
pub proof fn lemma_round_div_exact(k: int, d: int)
    requires
        d > 0,
    ensures
        round_div_spec(k * d, d) == k,
{
    lemma_round_div_nearest(k * d, d);
    let q = round_div_spec(k * d, d);
    assert(-d <= 2 * (k * d - q * d) <= d);
    assert(k * d - q * d == (k - q) * d) by (nonlinear_arith);
    if k - q >= 1 {
        assert((k - q) * d >= d) by (nonlinear_arith)
            requires
                k - q >= 1,
                d > 0,
        ;
    }
    if k - q <= -1 {
        assert((k - q) * d <= -d) by (nonlinear_arith)
            requires
                k - q <= -1,
                d > 0,
        ;
    }
}

/// Rounds `numer / denominator` to the nearest integer, halves away from zero.
pub fn round_div_i128(numer: i128, denominator: i128) -> (q: i128)
    requires
        denominator > 0,
        numer + denominator / 2 <= i128::MAX,
        numer - denominator / 2 >= i128::MIN,
    ensures
        q == round_div_spec(numer as int, denominator as int),
{
    let half = denominator / 2;
    if numer >= 0 {
        (numer + half) / denominator
    } else {
        (numer - half) / denominator
    }
}

/// Rounds `numerator / denominator` to the nearest integer, halves away from zero,
/// working on the magnitude and restoring the sign.
pub fn divide_signed(numerator: i64, denominator: i64) -> (q: i64)
    requires
        denominator > 0,
        numerator > i64::MIN,
        (if numerator >= 0 { numerator as int } else { -numerator }) + denominator / 2
            <= i64::MAX,
    ensures
        q == round_div_spec(numerator as int, denominator as int),
{
    let magnitude_in: i64 = if numerator < 0 { -numerator } else { numerator };
    let magnitude = (magnitude_in + denominator / 2) / denominator;
    if numerator < 0 {
        -magnitude
    } else {
        magnitude
    }
}

proof fn lemma_i64_shr_nonneg(x: i64, s: u32)
    requires
        x >= 0,
        0 <= s < 63,
    ensures
        x >> s == ((x as u64) >> (s as u64)) as i64,
{
    assert(x >> s == ((x as u64) >> (s as u64)) as i64) by (bit_vector)
        requires
            x >= 0,
            0 <= s < 63,
    ;
}

proof fn lemma_i64_shl_one(s: u32)
    requires
        0 <= s < 62,
    ensures
        1i64 << s == (1u64 << (s as u64)) as i64,
        (1u64 << (s as u64)) < 0x4000_0000_0000_0000u64,
{
    assert(1i64 << s == (1u64 << (s as u64)) as i64) by (bit_vector)
        requires
            0 <= s < 62,
    ;
    assert((1u64 << (s as u64)) < 0x4000_0000_0000_0000u64) by (bit_vector)
        requires
            0 <= s < 62,
    ;
}

/// Divides `product` by `2^shift`, rounding to nearest with halves away from zero,
/// and narrows the quotient to `i32`.
pub fn scaled_round(product: i64, shift: u32) -> (r: i32)
    requires
        1 <= shift <= 62,
        product > i64::MIN,
        (if product >= 0 { product as int } else { -product }) + pow2((shift - 1) as nat)
            <= i64::MAX,
    ensures
        r == #[verifier::truncate] (round_div_spec(product as int, pow2(shift as nat) as int) as i32),
{
    let ghost p2 = pow2(shift as nat);
    let ghost h2 = pow2((shift - 1) as nat);
    proof {
        lemma_u64_pow2_no_overflow((shift - 1) as nat);
        lemma_u64_shl_is_mul(1u64, (shift - 1) as u64);
        lemma_i64_shl_one((shift - 1) as u32);
        lemma_pow2_pos(shift as nat);
        lemma_pow2_pos((shift - 1) as nat);
        vstd::arithmetic::power2::lemma_pow2_unfold(shift as nat);
        assert(p2 == 2 * h2);
        assert(p2 / 2 == h2);
    }
    let half: i64 = 1i64 << (shift - 1);
    assert(half == h2);
    let abs: i64 = if product < 0 { -product } else { product };
    let sum: i64 = abs + half;
    let magnitude: i64 = sum >> shift;
    proof {
        lemma_i64_shr_nonneg(sum, shift);
        lemma_u64_shr_is_div(sum as u64, shift as u64);
        assert(magnitude == sum as int / (p2 as int));
    }
    #[verifier::truncate] ((if product < 0 {
        -magnitude
    } else {
        magnitude
    }) as i32)
}

/// Floor square root of a non-negative `i64`, computed by the standard library.
#[verifier::external_body]
fn isqrt_i64(n: i64) -> (r: i64)
    requires
        n >= 0,
    ensures
        is_isqrt(n as int, r as int),
{
    n.isqrt()
}

/// Floor square root of a non-negative `i128`, computed by the standard library.
#[verifier::external_body]
pub(crate) fn isqrt_i128(n: i128) -> (r: i128)
    requires
        n >= 0,
    ensures
        is_isqrt(n as int, r as int),
{
    n.isqrt()
}

/// The floor of the Euclidean length of `(vx, vy)`, narrowed to `i32`.
pub fn vector_length(vx: i32, vy: i32) -> (r: i32)
    requires
        vx * vx + vy * vy <= i64::MAX,
    ensures
        r == #[verifier::truncate] (floor_sqrt(vx * vx + vy * vy) as i32),
        is_isqrt(vx * vx + vy * vy, floor_sqrt(vx * vx + vy * vy)),
{
    proof {
        assert(vx * vx >= 0) by (nonlinear_arith);
        assert(vy * vy >= 0) by (nonlinear_arith);
    }
    let squares: i64 = (vx as i64) * (vx as i64) + (vy as i64) * (vy as i64);
    let root = isqrt_i64(squares);
    proof {
        lemma_floor_sqrt(vx * vx + vy * vy, root as int);
    }
    #[verifier::truncate] (root as i32)
}

} // verus!
