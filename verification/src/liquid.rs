//! Liquid cells: the speed-dependent drag applied after the linear drag.
use vstd::prelude::*;
use crate::arith::{divide_signed, round_div_spec, floor_sqrt, vector_length};
use crate::rotation::abs;

verus! {

/// Strength of the quadratic drag, in `1/65536` per unit of speed.
pub const QUADRATIC_DRAG_Q16: i64 = 918;

/// The divisor, in `1/65536`, by which a liquid moving at `speed` is slowed.
pub open spec fn drag_denominator(speed: int) -> int {
    65536 + (QUADRATIC_DRAG_Q16 * speed + 128) / 256
}

/// Divides a velocity `(vx, vy)` (already reduced by the linear drag) by one
/// plus a term growing with its speed, rounding to nearest.
pub fn quadratic_drag(vx: i32, vy: i32) -> (r: (i32, i32))
    requires
        abs(vx as int) <= 0x100_0000,
        abs(vy as int) <= 0x100_0000,
    ensures
        ({
            let d = drag_denominator(floor_sqrt(vx * vx + vy * vy));
            &&& r.0 == round_div_spec(vx * 65536, d)
            &&& r.1 == round_div_spec(vy * 65536, d)
        }),
        abs(r.0 as int) <= abs(vx as int),
        abs(r.1 as int) <= abs(vy as int),
{
    assert(0 <= vx * vx + vy * vy <= 0x2_0000_0000_0000) by (nonlinear_arith)
        requires
            -0x100_0000 <= vx <= 0x100_0000,
            -0x100_0000 <= vy <= 0x100_0000,
    ;
    let speed: i64 = vector_length(vx, vy) as i64;
    proof {
        let root = floor_sqrt(vx * vx + vy * vy);
        assert(root <= 0x200_0000) by (nonlinear_arith)
            requires
                root >= 0,
                root * root <= vx * vx + vy * vy,
                vx * vx + vy * vy <= 0x2_0000_0000_0000,
        ;
    }
    let denominator: i64 = 65536 + (QUADRATIC_DRAG_Q16 * speed + 128) / 256;
    proof {
        lemma_drag_shrinks(vx as int, denominator as int);
        lemma_drag_shrinks(vy as int, denominator as int);
    }
    (divide_signed((vx as i64) * 65536, denominator) as i32, divide_signed((vy as i64) * 65536, denominator) as i32)
}

proof fn lemma_drag_shrinks(v: int, d: int)
    requires
        abs(v) <= 0x100_0000,
        d >= 65536,
    ensures
        abs(round_div_spec(v * 65536, d)) <= abs(v),
{
    assert(-abs(v) * d <= v * 65536 <= abs(v) * d) by (nonlinear_arith)
        requires
            d >= 65536,
            abs(v) >= v,
            abs(v) >= -v,
            abs(v) >= 0,
    ;
    crate::arith::lemma_round_div_within(v * 65536, d, abs(v));
}

} // verus!
