//! Weight, buoyancy and fluid drag of a rigid body, from what the world shows in
//! the cells around it.
use vstd::prelude::*;
use rustc_hash::FxHashMap;
use crate::geometry::{CellPos, Phase};
use crate::fx::{pair_key, lemma_pair_key_injective, key_of_pair, fx_map_insert, fx_map_get};
use crate::arith::{round_div_i128, round_div_spec, lemma_round_div_within, lemma_round_div_nonneg, trunc_div_spec, clamp_spec};
use crate::islands::{unit, unit_step};
use crate::rotation::{Spin, abs, RADIANS_PER_TURN, TAU_NUMERATOR, ANGLE_STEPS, ORIENTATION_UNITS};
use crate::state::{Body, Freedoms, Slot, cell_mass, cell_mass_spec, cell_center, cell_center_spec, holds_spec, impulse_spin,
    slots_in_range, total_mass, slot_mass, turned_weighted_x, lemma_total_mass_at_least_len};

verus! {

/// What the world shows in a loaded cell beside a body: whether a body owns it, its
/// material's phase and density, and its velocity.
#[derive(Debug, Clone, Copy, PartialEq, Eq)]
pub struct Near {
    pub owned: bool,
    pub phase: Phase,
    pub density_milli: i32,
    pub vx: i32,
    pub vy: i32,
}

/// A cell beside a body that the body displaces: loaded, owned by no body, and
/// liquid, gas or empty.
pub open spec fn medium(n: Option<Near>) -> bool {
    n matches Some(c) && !c.owned && (c.phase == Phase::Liquid || c.phase == Phase::Gas || c.phase == Phase::Empty)
}

/// The density a displaced cell counts with: its density, at least one.
pub open spec fn face_weight(n: Option<Near>) -> int {
    match n {
        Some(c) => if c.density_milli >= 1 { c.density_milli as int } else { 1 },
        None => 0,
    }
}

/// The row of the `k`-th cell beside a body: beside raster cell `k / 4`, in
/// direction `k % 4` (right, left, up, down).
pub open spec fn face_row(raster: Seq<CellPos>, k: int) -> int {
    raster[k / 4].y + unit(k % 4).1
}

/// The summed density of the displaced cells among the first `n` beside the body in row `y`.
pub open spec fn row_total(raster: Seq<CellPos>, around: Seq<Option<Near>>, y: int, n: int) -> int
    decreases n,
{
    if n <= 0 {
        0
    } else {
        row_total(raster, around, y, n - 1) + if medium(around[n - 1]) && face_row(raster, n - 1) == y { face_weight(around[n - 1]) } else { 0 }
    }
}

/// How many of the first `n` cells beside the body in row `y` it displaces.
pub open spec fn row_faces(raster: Seq<CellPos>, around: Seq<Option<Near>>, y: int, n: int) -> int
    decreases n,
{
    if n <= 0 {
        0
    } else {
        row_faces(raster, around, y, n - 1) + if medium(around[n - 1]) && face_row(raster, n - 1) == y { 1int } else { 0 }
    }
}

/// The summed density of the displaced cells among the first `n` beside the body.
pub open spec fn all_total(around: Seq<Option<Near>>, n: int) -> int
    decreases n,
{
    if n <= 0 { 0 } else { all_total(around, n - 1) + if medium(around[n - 1]) { face_weight(around[n - 1]) } else { 0 } }
}

/// How many of the first `n` cells beside the body it displaces.
pub open spec fn all_faces(around: Seq<Option<Near>>, n: int) -> int
    decreases n,
{
    if n <= 0 { 0 } else { all_faces(around, n - 1) + if medium(around[n - 1]) { 1int } else { 0 } }
}

/// The medium a body displaces: per row, the summed density and the number of
/// displaced cells beside it, and the rounded mean density over all of them.
pub struct Displaced {
    pub rows: FxHashMap<u64, (i128, i128)>,
    pub mean: i64,
}

/// The key of row `y`.
pub open spec fn row_key(y: int) -> u64 {
    pair_key(y as i32, 0)
}

impl Displaced {
    /// Every row counts at least one cell and its sum is a sum of densities.
    pub open spec fn wf(&self) -> bool {
        &&& forall|key: u64| #[trigger] self.rows@.contains_key(key) ==> 1 <= self.rows@[key].1 <= 0x100_0000
            && 0 <= self.rows@[key].0 <= self.rows@[key].1 * 0x8000_0000
        &&& 0 <= self.mean <= 0x8000_0000
    }

    /// The density displaced in row `y`: that row's rounded mean, or the overall mean
    /// for a row with no displaced cell.
    pub open spec fn at_spec(&self, y: int) -> int {
        if self.rows@.contains_key(row_key(y)) {
            round_div_spec(self.rows@[row_key(y)].0 as int, self.rows@[row_key(y)].1 as int)
        } else {
            self.mean as int
        }
    }

    /// The density displaced in row `y`.
    pub fn at(&self, y: i32) -> (r: i64)
        requires
            self.wf(),
        ensures
            r == self.at_spec(y as int),
            0 <= r <= 0x8000_0000,
    {
        match fx_map_get(&self.rows, key_of_pair(y, 0)) {
            Some((total, faces)) => {
                proof {
                    lemma_round_div_within(total as int, faces as int, 0x8000_0000);
                }
                round_div_i128(total, faces) as i64
            },
            None => self.mean,
        }
    }
}

/// The medium a body with cells `raster` displaces, from what the world shows beside
/// each cell (`around[4 * i + d]` beside cell `i` in direction `d`, `None` where not
/// loaded).
pub fn displaced_medium(raster: &Vec<CellPos>, around: &Vec<Option<Near>>) -> (d: Displaced)
    requires
        around@.len() == 4 * raster@.len(),
        raster@.len() <= 0x10_0000,
        forall|i: int| 0 <= i < raster@.len() ==> i32::MIN < (#[trigger] raster@[i]).y < i32::MAX,
    ensures
        d.wf(),
        forall|y: i32| #[trigger] d.rows@.contains_key(row_key(y as int)) <==> row_faces(raster@, around@, y as int, around@.len() as int) > 0,
        forall|y: i32| #[trigger] d.rows@.contains_key(row_key(y as int)) ==> d.rows@[row_key(y as int)]
            == (row_total(raster@, around@, y as int, around@.len() as int) as i128, row_faces(raster@, around@, y as int, around@.len() as int) as i128),
        d.mean == (if all_faces(around@, around@.len() as int) == 0 { 0 } else {
            round_div_spec(all_total(around@, around@.len() as int), all_faces(around@, around@.len() as int))
        }),
{
    let mut rows: FxHashMap<u64, (i128, i128)> = FxHashMap::default();
    let mut total: i128 = 0;
    let mut faces: i128 = 0;
    let n = around.len();
    let mut k: usize = 0;
    while k < n
        invariant
            n == around@.len(),
            n == 4 * raster@.len(),
            raster@.len() <= 0x10_0000,
            forall|i: int| 0 <= i < raster@.len() ==> i32::MIN < (#[trigger] raster@[i]).y < i32::MAX,
            0 <= k <= n,
            total == all_total(around@, k as int),
            faces == all_faces(around@, k as int),
            0 <= faces <= k,
            0 <= total <= faces * 0x8000_0000,
            forall|key: u64| #[trigger] rows@.contains_key(key) ==> exists|y: i32| key == row_key(y as int),
            forall|key: u64| #[trigger] rows@.contains_key(key) ==> 1 <= rows@[key].1 <= k
                && 0 <= rows@[key].0 <= rows@[key].1 * 0x8000_0000,
            forall|y: i32| #[trigger] rows@.contains_key(row_key(y as int)) <==> row_faces(raster@, around@, y as int, k as int) > 0,
            forall|y: i32| #[trigger] rows@.contains_key(row_key(y as int)) ==> rows@[row_key(y as int)]
                == (row_total(raster@, around@, y as int, k as int) as i128, row_faces(raster@, around@, y as int, k as int) as i128),
            forall|y: i32| 0 <= #[trigger] row_faces(raster@, around@, y as int, k as int) <= k
                && 0 <= row_total(raster@, around@, y as int, k as int) <= row_faces(raster@, around@, y as int, k as int) * 0x8000_0000,
        decreases n - k,
    {
        let near = around[k];
        let is_medium = match near {
            Some(c) => !c.owned && matches!(c.phase, Phase::Liquid | Phase::Gas | Phase::Empty),
            None => false,
        };
        if is_medium {
            let c = match near {
                Some(c) => c,
                None => Near { owned: false, phase: Phase::Empty, density_milli: 1, vx: 0, vy: 0 },
            };
            let density: i128 = if c.density_milli >= 1 { c.density_milli as i128 } else { 1 };
            let i = k / 4;
            let step = unit_step(k % 4);
            let y = raster[i].y + step.1;
            let key = key_of_pair(y, 0);
            let before = fx_map_get(&rows, key);
            let entry = match before {
                Some((t, f)) => (t + density, f + 1),
                None => (density, 1),
            };
            let ghost old_rows = rows@;
            fx_map_insert(&mut rows, key, entry);
            proof {
                assert(face_row(raster@, k as int) == y);
                assert forall|yy: i32| #[trigger] rows@.contains_key(row_key(yy as int)) <==> row_faces(raster@, around@, yy as int, k + 1) > 0 by {
                    if yy != y {
                        if row_key(yy as int) == key {
                            lemma_pair_key_injective(yy, 0, y, 0);
                        }
                    }
                }
                assert forall|yy: i32| #[trigger] rows@.contains_key(row_key(yy as int)) implies rows@[row_key(yy as int)]
                    == (row_total(raster@, around@, yy as int, k + 1) as i128, row_faces(raster@, around@, yy as int, k + 1) as i128) by {
                    if yy != y {
                        if row_key(yy as int) == key {
                            lemma_pair_key_injective(yy, 0, y, 0);
                        }
                    }
                }
                assert forall|key2: u64| #[trigger] rows@.contains_key(key2) implies exists|yy: i32| key2 == row_key(yy as int) by {
                    if key2 == key {
                        assert(key2 == row_key(y as int));
                    }
                }
                assert forall|key2: u64| #[trigger] rows@.contains_key(key2) implies 1 <= rows@[key2].1 <= k + 1
                    && 0 <= rows@[key2].0 <= rows@[key2].1 * 0x8000_0000 by {
                    if key2 == key {
                        if old_rows.contains_key(key) {
                            assert(old_rows[key].0 <= old_rows[key].1 * 0x8000_0000);
                        }
                    }
                }
            }
            total = total + density;
            faces = faces + 1;
        }
        proof {
            assert forall|y: i32| 0 <= #[trigger] row_faces(raster@, around@, y as int, k + 1) <= k + 1
                && 0 <= row_total(raster@, around@, y as int, k + 1) <= row_faces(raster@, around@, y as int, k + 1) * 0x8000_0000 by {
                assert(0 <= row_faces(raster@, around@, y as int, k as int) <= k);
                assert(face_weight(around@[k as int]) <= 0x8000_0000);
            }
        }
        k = k + 1;
    }
    let mean: i64 = if faces == 0 {
        0
    } else {
        proof {
            lemma_round_div_within(total as int, faces as int, 0x8000_0000);
        }
        round_div_i128(total, faces) as i64
    };
    Displaced { rows, mean }
}

/// The net downward force on one cell of density `density` in row `y`: gravity on
/// its mass less the medium it displaces there (negative pulls down).
pub open spec fn weight_spec(density: int, d: &Displaced, y: int, gravity: int) -> int {
    -gravity * (cell_mass_spec(density) - d.at_spec(y))
}

/// The net downward force on one cell of density `density_milli` in row `y`.
pub fn cell_weight(density_milli: i32, d: &Displaced, y: i32, gravity: i64) -> (r: i128)
    requires
        d.wf(),
        0 <= gravity <= 0x100_0000_0000,
    ensures
        r == weight_spec(density_milli as int, d, y as int, gravity as int),
        -0x100_0000_0000_0000_0000 <= r <= 0x100_0000_0000_0000_0000,
        -(gravity * 0x1_0000_0000) <= r <= gravity * 0x1_0000_0000,
{
    let m = cell_mass(density_milli);
    let at = d.at(y);
    proof {
        let diff = m - at;
        assert(-0x1_0000_0000 <= diff <= 0x1_0000_0000);
        assert(-0x100_0000_0000 * 0x1_0000_0000 <= -(gravity as int) * diff <= 0x100_0000_0000 * 0x1_0000_0000) by (nonlinear_arith)
            requires
                0 <= gravity <= 0x100_0000_0000,
                -0x1_0000_0000 <= diff <= 0x1_0000_0000,
        ;
        assert(-(gravity * 0x1_0000_0000) <= -(gravity as int) * diff <= gravity * 0x1_0000_0000) by (nonlinear_arith)
            requires
                0 <= gravity,
                -0x1_0000_0000 <= diff <= 0x1_0000_0000,
        ;
    }
    -(gravity as i128) * (m as i128 - at as i128)
}

/// The summed net downward force on the first `n` cells of a body, each taken `dy`
/// rows above where it is.
pub open spec fn lift_sum(body: &Body, d: &Displaced, gravity: int, dy: int, n: int) -> int
    decreases n,
{
    if n <= 0 {
        0
    } else {
        lift_sum(body, d, gravity, dy, n - 1) + weight_spec(body.slots@[n - 1].density_milli as int, d, body.raster@[n - 1].y + dy, gravity)
    }
}

/// The number of cells of a body: its slots paired with its raster.
pub open spec fn paired(body: &Body) -> int {
    if body.slots@.len() < body.raster@.len() { body.slots@.len() as int } else { body.raster@.len() as int }
}

/// The summed net downward force on a body's cells, each taken `dy` rows above.
fn weights(body: &Body, d: &Displaced, gravity: i64, dy: i32) -> (r: i128)
    requires
        d.wf(),
        0 <= gravity <= 0x7fff_ffff,
        0 <= dy <= 1,
        forall|i: int| 0 <= i < body.raster@.len() ==> (#[trigger] body.raster@[i]).y < i32::MAX,
    ensures
        r == lift_sum(body, d, gravity as int, dy as int, paired(body)),
{
    let n = if body.slots.len() < body.raster.len() { body.slots.len() } else { body.raster.len() };
    let mut sum: i128 = 0;
    let mut i: usize = 0;
    while i < n
        invariant
            n == paired(body),
            0 <= i <= n,
            d.wf(),
            0 <= gravity <= 0x7fff_ffff,
            0 <= dy <= 1,
            forall|i: int| 0 <= i < body.raster@.len() ==> (#[trigger] body.raster@[i]).y < i32::MAX,
            sum == lift_sum(body, d, gravity as int, dy as int, i as int),
            -(i as int) * 0x8000_0000_0000_0000 <= sum <= (i as int) * 0x8000_0000_0000_0000,
        decreases n - i,
    {
        let w = cell_weight(body.slots[i].density_milli, d, body.raster[i].y + dy, gravity);
        assert(gravity * 0x1_0000_0000 <= 0x8000_0000_0000_0000);
        sum = sum + w;
        i = i + 1;
    }
    sum
}

/// The net downward force on a body: below zero it sinks, above zero it floats.
pub fn net_lift(body: &Body, d: &Displaced, gravity: i64) -> (r: i128)
    requires
        d.wf(),
        0 <= gravity <= 0x7fff_ffff,
        forall|i: int| 0 <= i < body.raster@.len() ==> (#[trigger] body.raster@[i]).y < i32::MAX,
    ensures
        r == lift_sum(body, d, gravity as int, 0, paired(body)),
{
    weights(body, d, gravity, 0)
}

/// A floating body rests at the waterline: it floats (`lift` above zero), yet one
/// row higher it would not.
pub fn at_waterline(body: &Body, d: &Displaced, lift: i128, gravity: i64) -> (r: bool)
    requires
        d.wf(),
        0 <= gravity <= 0x7fff_ffff,
        forall|i: int| 0 <= i < body.raster@.len() ==> (#[trigger] body.raster@[i]).y < i32::MAX,
    ensures
        r == (lift > 0 && lift_sum(body, d, gravity as int, 1, paired(body)) <= 0),
{
    lift > 0 && weights(body, d, gravity, 1) <= 0
}

/// How strongly fluid drags a body toward its own motion: a quarter of the reduced
/// mass per tick.
pub const FLUID_DRAG_DIVISOR: i64 = 4;

/// The total mass of the first `n` fluid cells `(mass, vx, vy)`.
pub open spec fn fluid_mass(fluids: Seq<(i64, i64, i64)>, n: int) -> int
    decreases n,
{
    if n <= 0 { 0 } else { fluid_mass(fluids, n - 1) + fluids[n - 1].0 }
}

/// The momentum of the first `n` fluid cells along x (or along y when `rows`).
pub open spec fn fluid_momentum(fluids: Seq<(i64, i64, i64)>, n: int, rows: bool) -> int
    decreases n,
{
    if n <= 0 { 0 } else { fluid_momentum(fluids, n - 1, rows) + fluids[n - 1].0 * if rows { fluids[n - 1].2 as int } else { fluids[n - 1].1 as int } }
}

/// Twice the kinetic energy of mass `m` at velocity `(vx, vy)`.
pub open spec fn kinetic(m: int, vx: int, vy: int) -> int {
    m * (vx * vx + vy * vy)
}

/// Twice the kinetic energy of the first `n` fluid cells with `(dx, dy)` added to
/// each one's velocity.
pub open spec fn fluid_energy(fluids: Seq<(i64, i64, i64)>, n: int, dx: int, dy: int) -> int
    decreases n,
{
    if n <= 0 { 0 } else { fluid_energy(fluids, n - 1, dx, dy) + kinetic(fluids[n - 1].0 as int, fluids[n - 1].1 + dx, fluids[n - 1].2 + dy) }
}

/// The drag exchange between a body of mass `bm` at velocity `(bvx, bvy)` and the
/// fluid cells beside it: an impulse of a quarter of the reduced mass times the
/// difference from the fluid's mean velocity moves the body toward it and the
/// fluid the other way; `None` when there is no fluid, no impulse, or the exchange
/// would add kinetic energy. Otherwise the body's new velocity and the change to
/// every fluid cell's velocity.
pub open spec fn drag_exchange(bm: int, bvx: int, bvy: int, fluids: Seq<(i64, i64, i64)>) -> Option<((int, int), (int, int))> {
    let n = fluids.len() as int;
    let fm = fluid_mass(fluids, n);
    if fm == 0 {
        None
    } else {
        let mean = (trunc_div_spec(fluid_momentum(fluids, n, false), fm), trunc_div_spec(fluid_momentum(fluids, n, true), fm));
        let reduced = (bm * fm) / (bm + fm);
        let impulse = (trunc_div_spec((mean.0 - bvx) * reduced, FLUID_DRAG_DIVISOR as int), trunc_div_spec((mean.1 - bvy) * reduced, FLUID_DRAG_DIVISOR as int));
        if impulse == (0int, 0int) {
            None
        } else {
            let delta = (trunc_div_spec(-impulse.0, fm), trunc_div_spec(-impulse.1, fm));
            let next = (bvx + trunc_div_spec(impulse.0, bm), bvy + trunc_div_spec(impulse.1, bm));
            let before = kinetic(bm, bvx, bvy) + fluid_energy(fluids, n, 0, 0);
            let after = kinetic(bm, next.0, next.1) + fluid_energy(fluids, n, delta.0, delta.1);
            if after > before { None } else { Some((next, delta)) }
        }
    }
}

/// Fluid cells small and slow enough for the drag arithmetic.
pub open spec fn fluids_in_range(fluids: Seq<(i64, i64, i64)>) -> bool {
    &&& fluids.len() <= 0x1_0000
    &&& forall|i: int| 0 <= i < fluids.len() ==> {
        &&& 1 <= (#[trigger] fluids[i]).0 <= 0x100_0000
        &&& -0x8000_0000 <= fluids[i].1 <= 0x8000_0000
        &&& -0x8000_0000 <= fluids[i].2 <= 0x8000_0000
    }
}

proof fn lemma_fluid_sums(fluids: Seq<(i64, i64, i64)>, n: int)
    requires
        fluids_in_range(fluids),
        0 <= n <= fluids.len(),
    ensures
        n <= fluid_mass(fluids, n) <= n * 0x100_0000,
        -(n * 0x80_0000_0000_0000) <= fluid_momentum(fluids, n, false) <= n * 0x80_0000_0000_0000,
        -(n * 0x80_0000_0000_0000) <= fluid_momentum(fluids, n, true) <= n * 0x80_0000_0000_0000,
    decreases n,
{
    if n > 0 {
        lemma_fluid_sums(fluids, n - 1);
        let f = fluids[n - 1];
        assert(-0x80_0000_0000_0000 <= f.0 * f.1 <= 0x80_0000_0000_0000) by (nonlinear_arith)
            requires
                1 <= f.0 <= 0x100_0000,
                -0x8000_0000 <= f.1 <= 0x8000_0000,
        ;
        assert(-0x80_0000_0000_0000 <= f.0 * f.2 <= 0x80_0000_0000_0000) by (nonlinear_arith)
            requires
                1 <= f.0 <= 0x100_0000,
                -0x8000_0000 <= f.2 <= 0x8000_0000,
        ;
    }
}

proof fn lemma_fluid_energy_bound(fluids: Seq<(i64, i64, i64)>, n: int, dx: int, dy: int)
    requires
        fluids_in_range(fluids),
        0 <= n <= fluids.len(),
        -0x100_0000_0000 <= dx <= 0x100_0000_0000,
        -0x100_0000_0000 <= dy <= 0x100_0000_0000,
    ensures
        0 <= fluid_energy(fluids, n, dx, dy) <= n * 0x800_0000_0000_0000_0000_0000_0000,
    decreases n,
{
    if n > 0 {
        lemma_fluid_energy_bound(fluids, n - 1, dx, dy);
        let f = fluids[n - 1];
        let vx = f.1 + dx;
        let vy = f.2 + dy;
        assert(0 <= vx * vx <= 0x4_0000_0000_0000_0000_0000) by (nonlinear_arith)
            requires
                -0x200_0000_0000 <= vx <= 0x200_0000_0000,
        ;
        assert(0 <= vy * vy <= 0x4_0000_0000_0000_0000_0000) by (nonlinear_arith)
            requires
                -0x200_0000_0000 <= vy <= 0x200_0000_0000,
        ;
        let sq = vx * vx + vy * vy;
        assert(0 <= (f.0 as int) * sq <= 0x800_0000_0000_0000_0000_0000_0000) by (nonlinear_arith)
            requires
                1 <= f.0 <= 0x100_0000,
                0 <= sq <= 0x8_0000_0000_0000_0000_0000,
        ;
    }
}

/// Twice the kinetic energy of the fluid cells, with `(dx, dy)` added to each
/// one's velocity.
fn fluid_energy_of(fluids: &Vec<(i64, i64, i64)>, dx: i64, dy: i64) -> (r: i128)
    requires
        fluids_in_range(fluids@),
        -0x100_0000_0000 <= dx <= 0x100_0000_0000,
        -0x100_0000_0000 <= dy <= 0x100_0000_0000,
    ensures
        r == fluid_energy(fluids@, fluids@.len() as int, dx as int, dy as int),
{
    let mut sum: i128 = 0;
    let mut i: usize = 0;
    while i < fluids.len()
        invariant
            fluids_in_range(fluids@),
            -0x100_0000_0000 <= dx <= 0x100_0000_0000,
            -0x100_0000_0000 <= dy <= 0x100_0000_0000,
            0 <= i <= fluids@.len(),
            sum == fluid_energy(fluids@, i as int, dx as int, dy as int),
        decreases fluids@.len() - i,
    {
        let (m, vx, vy) = fluids[i];
        proof {
            lemma_fluid_energy_bound(fluids@, i + 1, dx as int, dy as int);
            assert((i + 1) * 0x800_0000_0000_0000_0000_0000_0000 <= 0x1_0000 * 0x800_0000_0000_0000_0000_0000_0000) by (nonlinear_arith)
                requires
                    i + 1 <= 0x1_0000,
            ;
            assert(-0x200_0000_0000 <= vx + dx <= 0x200_0000_0000);
            assert(0 <= (vx + dx) * (vx + dx) <= 0x4_0000_0000_0000_0000_0000) by (nonlinear_arith)
                requires
                    -0x200_0000_0000 <= vx + dx <= 0x200_0000_0000,
            ;
            assert(0 <= (vy + dy) * (vy + dy) <= 0x4_0000_0000_0000_0000_0000) by (nonlinear_arith)
                requires
                    -0x200_0000_0000 <= vy + dy <= 0x200_0000_0000,
            ;
        }
        let ex = (vx + dx) as i128;
        let ey = (vy + dy) as i128;
        proof {
            let sq = ex * ex + ey * ey;
            assert(0 <= (m as int) * sq <= 0x800_0000_0000_0000_0000_0000_0000) by (nonlinear_arith)
                requires
                    1 <= m <= 0x100_0000,
                    0 <= sq <= 0x8_0000_0000_0000_0000_0000,
            ;
        }
        let k = (m as i128) * (ex * ex + ey * ey);
        sum = sum + k;
        i = i + 1;
    }
    sum
}

/// The fluid's momentum is at most its mass times the largest speed a fluid cell has.
proof fn lemma_momentum_within(fluids: Seq<(i64, i64, i64)>, n: int)
    requires
        fluids_in_range(fluids),
        0 <= n <= fluids.len(),
    ensures
        -(fluid_mass(fluids, n) * 0x8000_0000) <= fluid_momentum(fluids, n, false) <= fluid_mass(fluids, n) * 0x8000_0000,
        -(fluid_mass(fluids, n) * 0x8000_0000) <= fluid_momentum(fluids, n, true) <= fluid_mass(fluids, n) * 0x8000_0000,
    decreases n,
{
    if n > 0 {
        lemma_momentum_within(fluids, n - 1);
        let f = fluids[n - 1];
        assert(-(f.0 * 0x8000_0000) <= f.0 * f.1 <= f.0 * 0x8000_0000) by (nonlinear_arith)
            requires
                1 <= f.0,
                -0x8000_0000 <= f.1 <= 0x8000_0000,
        ;
        assert(-(f.0 * 0x8000_0000) <= f.0 * f.2 <= f.0 * 0x8000_0000) by (nonlinear_arith)
            requires
                1 <= f.0,
                -0x8000_0000 <= f.2 <= 0x8000_0000,
        ;
        assert(fluid_mass(fluids, n) * 0x8000_0000 == fluid_mass(fluids, n - 1) * 0x8000_0000 + f.0 * 0x8000_0000);
    }
}

/// A quotient toward zero is no larger than the bound that the dividend has in
/// multiples of the divisor.
proof fn lemma_trunc_div_within(a: int, b: int, c: int)
    requires
        b >= 1,
        -(b * c) <= a <= b * c,
    ensures
        -c <= trunc_div_spec(a, b) <= c,
        -(if a >= 0 { a } else { -a }) <= trunc_div_spec(a, b) <= (if a >= 0 { a } else { -a }),
{
    if a >= 0 {
        assert(a / b <= c && a / b <= a && a / b >= 0) by (nonlinear_arith)
            requires
                b >= 1,
                0 <= a <= b * c,
        ;
    } else {
        assert((-a) / b <= c && (-a) / b <= -a && (-a) / b >= 0) by (nonlinear_arith)
            requires
                b >= 1,
                0 <= -a <= b * c,
        ;
    }
}

/// The drag exchange between a body of mass `mass` at velocity `(vx, vy)` and the
/// fluid cells `(mass, vx, vy)` beside it: the body's new velocity and the change
/// to every fluid cell's velocity, or `None` when nothing is exchanged.
pub fn fluid_drag(mass: i64, vx: i64, vy: i64, fluids: &Vec<(i64, i64, i64)>) -> (r: Option<((i64, i64), (i64, i64))>)
    requires
        1 <= mass <= 0x100_0000_0000,
        -0x200_0000_0000 <= vx <= 0x200_0000_0000,
        -0x200_0000_0000 <= vy <= 0x200_0000_0000,
        fluids_in_range(fluids@),
    ensures
        r is None <==> drag_exchange(mass as int, vx as int, vy as int, fluids@) is None,
        r matches Some(((nx, ny), (dx, dy))) ==> drag_exchange(mass as int, vx as int, vy as int, fluids@)
            == Some(((nx as int, ny as int), (dx as int, dy as int))),
        r matches Some((_, (dx, dy))) ==> -0x100_0000_0000 <= dx <= 0x100_0000_0000 && -0x100_0000_0000 <= dy <= 0x100_0000_0000,
{
    let ghost fs = fluids@;
    let mut fm: i64 = 0;
    let mut px: i128 = 0;
    let mut py: i128 = 0;
    let mut i: usize = 0;
    while i < fluids.len()
        invariant
            fs == fluids@,
            fluids_in_range(fs),
            0 <= i <= fs.len(),
            fm == fluid_mass(fs, i as int),
            px == fluid_momentum(fs, i as int, false),
            py == fluid_momentum(fs, i as int, true),
        decreases fs.len() - i,
    {
        proof {
            lemma_fluid_sums(fs, i + 1);
            assert((i + 1) * 0x100_0000 <= 0x1_0000 * 0x100_0000) by (nonlinear_arith)
                requires
                    i + 1 <= 0x1_0000,
            ;
            assert((i + 1) * 0x80_0000_0000_0000 <= 0x1_0000 * 0x80_0000_0000_0000) by (nonlinear_arith)
                requires
                    i + 1 <= 0x1_0000,
            ;
        }
        let (m, fvx, fvy) = fluids[i];
        proof {
            assert(-0x80_0000_0000_0000 <= (m as int) * (fvx as int) <= 0x80_0000_0000_0000) by (nonlinear_arith)
                requires
                    1 <= m <= 0x100_0000,
                    -0x8000_0000 <= fvx <= 0x8000_0000,
            ;
            assert(-0x80_0000_0000_0000 <= (m as int) * (fvy as int) <= 0x80_0000_0000_0000) by (nonlinear_arith)
                requires
                    1 <= m <= 0x100_0000,
                    -0x8000_0000 <= fvy <= 0x8000_0000,
            ;
        }
        fm = fm + m;
        px = px + (m as i128) * (fvx as i128);
        py = py + (m as i128) * (fvy as i128);
        i = i + 1;
    }
    let ghost n = fs.len() as int;
    if fm == 0 {
        return None;
    }
    proof {
        lemma_fluid_sums(fs, n);
        lemma_momentum_within(fs, n);
        lemma_trunc_div_within(px as int, fm as int, 0x8000_0000);
        lemma_trunc_div_within(py as int, fm as int, 0x8000_0000);
        assert(n * 0x100_0000 <= 0x1_0000 * 0x100_0000) by (nonlinear_arith)
            requires
                n <= 0x1_0000,
        ;
    }
    let mean_x: i64 = (px / (fm as i128)) as i64;
    let mean_y: i64 = (py / (fm as i128)) as i64;
    let bm: i128 = mass as i128;
    let fmi: i128 = fm as i128;
    proof {
        assert(0 <= bm * fmi <= 0x100_0000_0000 * 0x100_0000_0000) by (nonlinear_arith)
            requires
                1 <= bm <= 0x100_0000_0000,
                1 <= fmi <= 0x100_0000_0000,
        ;
        assert(bm * fmi <= (bm + fmi) * fmi && bm * fmi <= (bm + fmi) * bm) by (nonlinear_arith)
            requires
                1 <= bm,
                1 <= fmi,
        ;
        lemma_trunc_div_within(bm * fmi, bm + fmi, fmi as int);
        lemma_trunc_div_within(bm * fmi, bm + fmi, bm as int);
    }
    let reduced: i128 = bm * fmi / (bm + fmi);
    let gx: i128 = (mean_x - vx) as i128;
    let gy: i128 = (mean_y - vy) as i128;
    proof {
        assert(-(reduced * 0x400_0000_0000) <= gx * reduced <= reduced * 0x400_0000_0000) by (nonlinear_arith)
            requires
                0 <= reduced,
                -0x400_0000_0000 <= gx <= 0x400_0000_0000,
        ;
        assert(-(reduced * 0x400_0000_0000) <= gy * reduced <= reduced * 0x400_0000_0000) by (nonlinear_arith)
            requires
                0 <= reduced,
                -0x400_0000_0000 <= gy <= 0x400_0000_0000,
        ;
        assert(reduced * 0x400_0000_0000 <= 0x100_0000_0000 * 0x400_0000_0000) by (nonlinear_arith)
            requires
                0 <= reduced <= 0x100_0000_0000,
        ;
        lemma_trunc_div_within(gx * reduced, 4, reduced * 0x100_0000_0000);
        lemma_trunc_div_within(gy * reduced, 4, reduced * 0x100_0000_0000);
    }
    let ix: i128 = gx * reduced / 4;
    let iy: i128 = gy * reduced / 4;
    if ix == 0 && iy == 0 {
        return None;
    }
    proof {
        assert(reduced * 0x100_0000_0000 <= fmi * 0x100_0000_0000 && reduced * 0x100_0000_0000 <= bm * 0x100_0000_0000) by (nonlinear_arith)
            requires
                0 <= reduced <= fmi,
                reduced <= bm,
        ;
        lemma_trunc_div_within(-ix, fmi as int, 0x100_0000_0000);
        lemma_trunc_div_within(-iy, fmi as int, 0x100_0000_0000);
        lemma_trunc_div_within(ix as int, bm as int, 0x100_0000_0000);
        lemma_trunc_div_within(iy as int, bm as int, 0x100_0000_0000);
    }
    let dx: i64 = (-ix / fmi) as i64;
    let dy: i64 = (-iy / fmi) as i64;
    let nx: i64 = vx + (ix / bm) as i64;
    let ny: i64 = vy + (iy / bm) as i64;
    proof {
        assert(0 <= (vx as int) * (vx as int) <= 0x4_0000_0000_0000_0000_0000 && 0 <= (vy as int) * (vy as int) <= 0x4_0000_0000_0000_0000_0000) by (nonlinear_arith)
            requires
                -0x200_0000_0000 <= vx <= 0x200_0000_0000,
                -0x200_0000_0000 <= vy <= 0x200_0000_0000,
        ;
        assert(0 <= (nx as int) * (nx as int) <= 0x10_0000_0000_0000_0000_0000 && 0 <= (ny as int) * (ny as int) <= 0x10_0000_0000_0000_0000_0000) by (nonlinear_arith)
            requires
                -0x400_0000_0000 <= nx <= 0x400_0000_0000,
                -0x400_0000_0000 <= ny <= 0x400_0000_0000,
        ;
        assert(0 <= bm * ((vx as int) * (vx as int) + (vy as int) * (vy as int)) <= 0x100_0000_0000 * 0x8_0000_0000_0000_0000_0000) by (nonlinear_arith)
            requires
                1 <= bm <= 0x100_0000_0000,
                -0x200_0000_0000 <= vx <= 0x200_0000_0000,
                -0x200_0000_0000 <= vy <= 0x200_0000_0000,
        ;
        assert(0 <= bm * ((nx as int) * (nx as int) + (ny as int) * (ny as int)) <= 0x100_0000_0000 * 0x20_0000_0000_0000_0000_0000) by (nonlinear_arith)
            requires
                1 <= bm <= 0x100_0000_0000,
                -0x400_0000_0000 <= nx <= 0x400_0000_0000,
                -0x400_0000_0000 <= ny <= 0x400_0000_0000,
        ;
        lemma_fluid_energy_bound(fs, n, 0, 0);
        lemma_fluid_energy_bound(fs, n, dx as int, dy as int);
        assert(n * 0x800_0000_0000_0000_0000_0000_0000 <= 0x1_0000 * 0x800_0000_0000_0000_0000_0000_0000) by (nonlinear_arith)
            requires
                n <= 0x1_0000,
        ;
    }
    let before: i128 = bm * ((vx as i128) * (vx as i128) + (vy as i128) * (vy as i128)) + fluid_energy_of(fluids, 0, 0);
    let after: i128 = bm * ((nx as i128) * (nx as i128) + (ny as i128) * (ny as i128)) + fluid_energy_of(fluids, dx, dy);
    if after > before {
        None
    } else {
        Some(((nx, ny), (dx, dy)))
    }
}

/// Fluid drag on a body from the fluid cells `(mass, vx, vy)` beside it: the body
/// takes its new velocity, and when the fluid's velocity changes too, the fluid
/// cells' new velocities come back, in order, each as the cell stores it.
pub fn apply_fluid_drag(body: &mut Body, fluids: &Vec<(i64, i64, i64)>) -> (r: Option<Vec<(i32, i32)>>)
    requires
        1 <= old(body).mass <= 0x100_0000_0000,
        -0x200_0000_0000 <= old(body).vx <= 0x200_0000_0000,
        -0x200_0000_0000 <= old(body).vy <= 0x200_0000_0000,
        fluids_in_range(fluids@),
    ensures
        match drag_exchange(old(body).mass as int, old(body).vx as int, old(body).vy as int, fluids@) {
            None => *final(body) == *old(body) && r is None,
            Some((next, delta)) => {
                &&& *final(body) == (Body { vx: next.0 as i64, vy: next.1 as i64, ..*old(body) })
                &&& final(body).vx == next.0 && final(body).vy == next.1
                &&& (r is None <==> delta == (0int, 0int))
                &&& r matches Some(v) ==> {
                    &&& v.len() == fluids@.len()
                    &&& forall|i: int| 0 <= i < v.len() ==> #[trigger] v@[i] == (#[verifier::truncate] ((fluids@[i].1 + delta.0) as i32), #[verifier::truncate] ((fluids@[i].2 + delta.1) as i32))
                }
            },
        },
{
    match fluid_drag(body.mass, body.vx, body.vy, fluids) {
        None => None,
        Some(((nx, ny), (dx, dy))) => {
            body.vx = nx;
            body.vy = ny;
            if dx == 0 && dy == 0 {
                return None;
            }
            let mut out: Vec<(i32, i32)> = Vec::new();
            let mut i: usize = 0;
            while i < fluids.len()
                invariant
                    0 <= i <= fluids@.len(),
                    fluids_in_range(fluids@),
                    -0x100_0000_0000 <= dx <= 0x100_0000_0000,
                    -0x100_0000_0000 <= dy <= 0x100_0000_0000,
                    out@.len() == i,
                    forall|j: int| 0 <= j < i ==> #[trigger] out@[j] == (#[verifier::truncate] ((fluids@[j].1 + dx) as i32), #[verifier::truncate] ((fluids@[j].2 + dy) as i32)),
                decreases fluids@.len() - i,
            {
                let (_, fvx, fvy) = fluids[i];
                out.push((#[verifier::truncate] ((fvx + dx) as i32), #[verifier::truncate] ((fvy + dy) as i32)));
                i = i + 1;
            }
            Some(out)
        },
    }
}

/// The x coordinate of a body's center of mass, as `Body::com` gives it.
pub open spec fn com_x(body: &Body, units: i64) -> int {
    cell_center_spec(body.anchor.x as int, units as int) + round_div_spec(turned_weighted_x(body.slots@, body.step, units) * units, body.mass as int)
}

/// The summed torque, about `comx`, of the net downward forces on the first `n`
/// cells of a body.
pub open spec fn torque_sum(body: &Body, d: &Displaced, gravity: int, comx: int, units: int, n: int) -> int
    decreases n,
{
    if n <= 0 {
        0
    } else {
        torque_sum(body, d, gravity, comx, units, n - 1) + (cell_center_spec(body.raster@[n - 1].x as int, units) - comx)
            * weight_spec(body.slots@[n - 1].density_milli as int, d, body.raster@[n - 1].y as int, gravity)
    }
}

/// The net downward force on a body and its torque about the center of mass.
pub open spec fn gravity_of(body: &Body, d: &Displaced, gravity: int) -> int {
    lift_sum(body, d, gravity, 0, paired(body))
}

/// The torque of the net downward forces about the body's center of mass.
pub open spec fn torque_of(body: &Body, d: &Displaced, gravity: int, units: i64) -> int {
    torque_sum(body, d, gravity, com_x(body, units), units as int, paired(body))
}

/// A settling body that floats at the waterline: gravity and buoyancy hold it still.
pub open spec fn rests_at_waterline(body: &Body, d: &Displaced, gravity: int) -> bool {
    body.settles && gravity_of(body, d, gravity) > 0 && lift_sum(body, d, gravity, 1, paired(body)) <= 0
}

/// The velocity change that gravity and buoyancy give a body this tick: none at
/// the waterline.
pub open spec fn weight_of(body: &Body, d: &Displaced, gravity: int) -> int {
    if rests_at_waterline(body, d, gravity) {
        0
    } else {
        (#[verifier::truncate] (trunc_div_spec(gravity_of(body, d, gravity), body.mass as int) as i64)) as int
    }
}

/// The body's spin after the torque of its weight: a body that turns takes the
/// spin of that angular impulse.
pub open spec fn spun(body: &Body, d: &Displaced, gravity: int, units: i64) -> int {
    if holds_spec(body.freedoms, Freedoms::TURN) {
        body.spin.0 + impulse_spin(torque_of(body, d, gravity, units), body.moment as int)
    } else {
        body.spin.0 as int
    }
}

/// The body's velocity after its weight and the drag of the fluid beside it.
pub open spec fn dragged(body: &Body, d: &Displaced, fluids: Seq<(i64, i64, i64)>, gravity: int) -> (int, int) {
    let vy = body.vy + weight_of(body, d, gravity);
    match drag_exchange(body.mass as int, body.vx as int, vy, fluids) {
        Some((next, _)) => next,
        None => (body.vx as int, vy),
    }
}

/// A velocity that comes to rest below the settling speed at the waterline.
pub open spec fn settled(v: int, settle: int, rest: bool) -> int {
    if rest && abs(v) < settle { 0 } else { v }
}

/// The spin at which a point at distance `lever` moves at `speed`, as
/// `Spin::for_speed_at` gives it.
pub open spec fn spin_for(speed: int, lever: int) -> int {
    (#[verifier::truncate] (round_div_spec(speed * RADIANS_PER_TURN, TAU_NUMERATOR * (if lever >= 1 { lever } else { 1 })) as i64)) as int
}

/// The distance from a body's axis at which its spin limits are measured.
pub open spec fn lever_of(body: &Body, units: int) -> int {
    (if body.radius >= 1 { body.radius as int } else { 1 }) * units
}

/// The fastest a body may turn: the spin that moves its rim at `max_speed`, and
/// no more than a whole turn of angle steps per tick.
pub open spec fn turn_cap(body: &Body, max_speed: int, units: int) -> int {
    clamp_spec(spin_for(max_speed, lever_of(body, units)), -(ANGLE_STEPS * ORIENTATION_UNITS), (ANGLE_STEPS * ORIENTATION_UNITS) as int)
}

/// The body's spin after settling: at the waterline a spin slower than the
/// settling speed at the rim stops.
pub open spec fn settled_spin(body: &Body, d: &Displaced, gravity: int, settle: int, units: i64) -> int {
    let s = spun(body, d, gravity, units);
    let floor = spin_for(settle, lever_of(body, units as int));
    if rests_at_waterline(body, d, gravity) && -floor <= s <= floor { 0 } else { s }
}

/// Inputs for which the forces on a body stay within the machine's range.
pub open spec fn forces_in_range(body: &Body, d: &Displaced, fluids: Seq<(i64, i64, i64)>, gravity: int, settle: int, max_speed: int, units: i64) -> bool {
    &&& d.wf()
    &&& 0 <= gravity <= 0x100
    &&& 0 <= settle <= 0x1_0000_0000
    &&& 0 <= max_speed <= 0x1_0000_0000
    &&& 1 <= units <= 0x4000
    &&& slots_in_range(body.slots@)
    &&& body.mass == total_mass(body.slots@)
    &&& body.step < 0x7fff_ffe0
    &&& 0 <= body.moment <= 0x1_0000_0000_0000_0000_0000_0000
    &&& 0 <= body.radius <= 0x1_0000_0000
    &&& -0x80_0000_0000 <= body.vx <= 0x80_0000_0000
    &&& -0x80_0000_0000 <= body.vy <= 0x80_0000_0000
    &&& forall|i: int| 0 <= i < body.raster@.len() ==> {
        &&& (#[trigger] body.raster@[i]).y < i32::MAX
        &&& abs(cell_center_spec(body.raster@[i].x as int, units as int) - com_x(body, units)) <= 0x100_0000
    }
    &&& fluids_in_range(fluids)
    &&& holds_spec(body.freedoms, Freedoms::TURN) ==> i64::MIN <= spun(body, d, gravity, units) <= i64::MAX
}

proof fn lemma_total_mass_at_most(s: Seq<Slot>)
    requires
        forall|i: int| 0 <= i < s.len() ==> (#[trigger] s[i]).density_milli <= 0x100_0000,
    ensures
        total_mass(s) <= s.len() * 0x100_0000,
    decreases s.len(),
{
    if s.len() > 0 {
        let t = s.drop_last();
        assert forall|i: int| 0 <= i < t.len() implies (#[trigger] t[i]).density_milli <= 0x100_0000 by {
            assert(t[i] == s[i]);
        }
        lemma_total_mass_at_most(t);
        assert(s.last() == s[s.len() - 1]);
    }
}

/// The net downward force on a body and its torque about `comx`, summed over its cells.
fn gravity_and_torque(body: &Body, d: &Displaced, gravity: i64, comx: i64, units: i64) -> (r: (i128, i128))
    requires
        d.wf(),
        0 <= gravity <= 0x100,
        1 <= units <= 0x4000,
        body.slots@.len() <= 0x1_0000,
        forall|i: int| 0 <= i < body.raster@.len() ==> abs(cell_center_spec((#[trigger] body.raster@[i]).x as int, units as int) - comx) <= 0x100_0000,
    ensures
        r.0 == lift_sum(body, d, gravity as int, 0, paired(body)),
        r.1 == torque_sum(body, d, gravity as int, comx as int, units as int, paired(body)),
        -(paired(body) * (gravity * 0x1_0000_0000)) <= r.0 <= paired(body) * (gravity * 0x1_0000_0000),
        -0x1_0000_0000_0000_0000_0000 <= r.1 <= 0x1_0000_0000_0000_0000_0000,
{
    let n = if body.slots.len() < body.raster.len() { body.slots.len() } else { body.raster.len() };
    let mut g: i128 = 0;
    let mut t: i128 = 0;
    let mut i: usize = 0;
    while i < n
        invariant
            n == paired(body),
            n <= 0x1_0000,
            0 <= i <= n,
            d.wf(),
            0 <= gravity <= 0x100,
            1 <= units <= 0x4000,
            forall|i: int| 0 <= i < body.raster@.len() ==> abs(cell_center_spec((#[trigger] body.raster@[i]).x as int, units as int) - comx) <= 0x100_0000,
            g == lift_sum(body, d, gravity as int, 0, i as int),
            t == torque_sum(body, d, gravity as int, comx as int, units as int, i as int),
            -((i as int) * (gravity * 0x1_0000_0000)) <= g <= (i as int) * (gravity * 0x1_0000_0000),
            -((i as int) * 0x1_0000_0000_0000_0000) <= t <= (i as int) * 0x1_0000_0000_0000_0000,
        decreases n - i,
    {
        let pos = body.raster[i];
        let w = cell_weight(body.slots[i].density_milli, d, pos.y, gravity);
        let arm: i64 = cell_center(pos.x, units) - comx;
        proof {
            assert(abs(arm as int) <= 0x100_0000);
            assert(gravity * 0x1_0000_0000 <= 0x100_0000_0000);
            assert(-0x1_0000_0000_0000_0000 <= (arm as int) * (w as int) <= 0x1_0000_0000_0000_0000) by (nonlinear_arith)
                requires
                    -0x100_0000 <= arm <= 0x100_0000,
                    -0x100_0000_0000 <= w <= 0x100_0000_0000,
            ;
            assert((i + 1) * 0x1_0000_0000_0000_0000 <= 0x1_0000 * 0x1_0000_0000_0000_0000) by (nonlinear_arith)
                requires
                    i + 1 <= 0x1_0000,
            ;
            assert((i + 1) * (gravity * 0x1_0000_0000) == (i as int) * (gravity * 0x1_0000_0000) + gravity * 0x1_0000_0000) by (nonlinear_arith);
            assert((i + 1) * (gravity * 0x1_0000_0000) <= 0x1_0000 * 0x100_0000_0000) by (nonlinear_arith)
                requires
                    i + 1 <= 0x1_0000,
                    0 <= gravity * 0x1_0000_0000 <= 0x100_0000_0000,
            ;
        }
        g = g + w;
        t = t + (arm as i128) * w;
        i = i + 1;
    }
    proof {
        assert((n as int) * 0x1_0000_0000_0000_0000 <= 0x1_0000 * 0x1_0000_0000_0000_0000) by (nonlinear_arith)
            requires
                n <= 0x1_0000,
        ;
    }
    (g, t)
}

/// Integrates the forces on a body for one tick, given the medium it displaces
/// and the fluid cells `(mass, vx, vy)` beside it: its weight (gravity less
/// buoyancy) changes its falling speed and its torque its spin, the fluid drags
/// it, a settling body at the waterline comes to rest below the settling speed,
/// and speed and spin stay within their limits. When the drag changes the fluid's
/// velocity, the fluid cells' new velocities come back, in order.
pub fn integrate_forces(
    body: &mut Body,
    d: &Displaced,
    fluids: &Vec<(i64, i64, i64)>,
    gravity: i64,
    settle: i64,
    max_speed: i64,
    units: i64,
) -> (r: Option<Vec<(i32, i32)>>)
    requires
        forces_in_range(old(body), d, fluids@, gravity as int, settle as int, max_speed as int, units),
    ensures
        ({
            let b = old(body);
            let rest = rests_at_waterline(b, d, gravity as int);
            let v = dragged(b, d, fluids@, gravity as int);
            let spin = settled_spin(b, d, gravity as int, settle as int, units);
            let cap = turn_cap(b, max_speed as int, units as int);
            *final(body) == Body {
                vx: clamp_spec(settled(v.0, settle as int, rest), -max_speed, max_speed as int) as i64,
                vy: clamp_spec(settled(v.1, settle as int, rest), -max_speed, max_speed as int) as i64,
                spin: Spin(clamp_spec(spin, -cap, cap) as i64),
                weight: weight_of(b, d, gravity as int) as i64,
                ..*b
            }
        }),
        ({
            let b = old(body);
            match drag_exchange(b.mass as int, b.vx as int, b.vy + weight_of(b, d, gravity as int), fluids@) {
                Some((_, delta)) if delta != (0int, 0int) => r matches Some(v) && v.len() == fluids@.len()
                    && forall|i: int| 0 <= i < v.len() ==> #[trigger] v@[i] == (#[verifier::truncate] ((fluids@[i].1 + delta.0) as i32),
                        #[verifier::truncate] ((fluids@[i].2 + delta.1) as i32)),
                _ => r is None,
            }
        }),
{
    let ghost b = *old(body);
    proof {
        lemma_total_mass_at_least_len(b.slots@);
        assert forall|i: int| 0 <= i < b.slots@.len() implies (#[trigger] b.slots@[i]).density_milli <= 0x100_0000 by {
            assert(abs(b.slots@[i].local.0 as int) <= 0x1_0000);
        }
        lemma_total_mass_at_most(b.slots@);
        assert(b.slots@.len() * 0x100_0000 <= 0x1_0000 * 0x100_0000) by (nonlinear_arith)
            requires
                b.slots@.len() <= 0x1_0000,
        ;
    }
    let com = body.com(units);
    let (g, t) = gravity_and_torque(body, d, gravity, com.0, units);
    let waterline = body.settles && at_waterline(body, d, g, gravity);
    let g2: i128 = if waterline { 0 } else { g };
    proof {
        assert(paired(&b) <= b.mass);
        assert(paired(&b) * (gravity * 0x1_0000_0000) <= b.mass * (gravity * 0x1_0000_0000)) by (nonlinear_arith)
            requires
                0 <= paired(&b) <= b.mass,
                0 <= gravity,
        ;
        crate::buoyancy::lemma_trunc_div_within(g2 as int, b.mass as int, gravity * 0x1_0000_0000);
    }
    let weight: i64 = (g2 / (body.mass as i128)) as i64;
    body.weight = weight;
    body.vy = body.vy + weight;
    if body.freedoms.holds(Freedoms::TURN) {
        proof {
            assert(-0x1000_0000_0000_0000_0000_0000_0000 <= t * RADIANS_PER_TURN <= 0x1000_0000_0000_0000_0000_0000_0000) by (nonlinear_arith)
                requires
                    -0x1_0000_0000_0000_0000_0000 <= t <= 0x1_0000_0000_0000_0000_0000,
                    RADIANS_PER_TURN == 118489088,
            ;
            assert(0 <= body.moment * TAU_NUMERATOR <= 0x1_0000_0000_0000_0000_0000_0000 * 710) by (nonlinear_arith)
                requires
                    0 <= body.moment <= 0x1_0000_0000_0000_0000_0000_0000,
                    TAU_NUMERATOR == 710,
            ;
        }
        let delta = Spin::from_angular_impulse(t, body.moment);
        body.spin.add_assign(delta);
    }
    let r = apply_fluid_drag(body, fluids);
    let radius: i64 = if body.radius >= 1 { body.radius } else { 1 };
    proof {
        assert(1 <= radius * units <= 0x1_0000_0000 * 0x4000) by (nonlinear_arith)
            requires
                1 <= radius <= 0x1_0000_0000,
                1 <= units <= 0x4000,
        ;
    }
    let lever: i64 = radius * units;
    if waterline {
        if -settle < body.vx && body.vx < settle {
            body.vx = 0;
        }
        if -settle < body.vy && body.vy < settle {
            body.vy = 0;
        }
        proof {
            let n = settle * RADIANS_PER_TURN;
            let dd = TAU_NUMERATOR * lever;
            assert(1 <= dd && n <= n * dd && (-n) * dd <= n) by (nonlinear_arith)
                requires
                    dd == 710 * lever,
                    lever >= 1,
                    n >= 0,
            ;
            lemma_round_div_nonneg(n, dd);
            lemma_round_div_within(n, dd, n);
        }
        let spin_floor = Spin::for_speed_at(settle, lever);
        if body.spin.clamped(spin_floor).0 == body.spin.0 {
            body.spin = Spin::zero();
        }
    }
    body.vx = if body.vx < -max_speed { -max_speed } else if body.vx > max_speed { max_speed } else { body.vx };
    body.vy = if body.vy < -max_speed { -max_speed } else if body.vy > max_speed { max_speed } else { body.vy };
    proof {
        let n = max_speed * RADIANS_PER_TURN;
        let dd = TAU_NUMERATOR * lever;
        assert(1 <= dd && n <= n * dd && (-n) * dd <= n) by (nonlinear_arith)
            requires
                dd == 710 * lever,
                lever >= 1,
                n >= 0,
        ;
        lemma_round_div_nonneg(n, dd);
        lemma_round_div_within(n, dd, n);
    }
    let cap = Spin::for_speed_at(max_speed, lever).clamped(Spin::from_raw((ANGLE_STEPS as i64) * ORIENTATION_UNITS));
    body.spin = body.spin.clamped(cap);
    r
}

} // verus!
