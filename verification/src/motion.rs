//! Per-cell motion decisions: how far a velocity carries a cell this tick,
//! which axis it steps along, which cells it may enter, how momentum passes
//! to a blocker, and how the final velocity is settled and clamped.
use vstd::prelude::*;
use crate::arith::{round_div_spec, clamp_spec, divide_signed};
use crate::geometry::{CellPos, Phase};
use crate::rotation::abs;

verus! {

/// The most whole cells a velocity component carries a cell in one tick.
pub const MAX_COMPONENT_CELLS: i32 = 31;

/// How an attempted step into a cell turns out.
#[derive(Debug, Clone, Copy, PartialEq, Eq)]
pub enum Entry {
    Open,
    Busy,
    Blocked,
}

/// Whole cells of travel this tick for `velocity` (subcell units per tick):
/// the whole part, plus one more when the random draw falls below the
/// fraction, capped and signed.
pub open spec fn step_cells_spec(velocity: int, draw: int, units: int) -> int {
    let magnitude = abs(velocity);
    let cells = magnitude / units + (if draw < magnitude % units { 1int } else { 0 });
    let capped = if cells < MAX_COMPONENT_CELLS { cells } else { MAX_COMPONENT_CELLS as int };
    capped * (if velocity > 0 { 1int } else if velocity < 0 { -1 } else { 0 })
}

/// Whole cells of travel this tick for `velocity`, given the random `draw`
/// of the subcell bits.
pub fn step_cells(velocity: i32, draw: i32, units: i32) -> (r: i32)
    requires
        velocity > i32::MIN,
        units >= 1,
        draw >= 0,
    ensures
        r == step_cells_spec(velocity as int, draw as int, units as int),
        abs(r as int) <= MAX_COMPONENT_CELLS,
{
    let magnitude: i32 = if velocity < 0 { -velocity } else { velocity };
    let fraction: i32 = magnitude % units;
    let whole: i32 = magnitude / units;
    assert(units == 1 ==> fraction == 0);
    assert(units >= 2 ==> whole <= magnitude / 2) by (nonlinear_arith)
        requires
            whole == magnitude / units,
            magnitude >= 0,
            units >= 1,
    ;
    let cells: i32 = whole + if draw < fraction { 1 } else { 0 };
    let capped: i32 = if cells < MAX_COMPONENT_CELLS { cells } else { MAX_COMPONENT_CELLS };
    let sign: i32 = if velocity > 0 { 1 } else if velocity < 0 { -1 } else { 0 };
    capped * sign
}

/// The side a cell prefers to move toward: the sign of its horizontal
/// velocity, or a coin flip when it has none.
pub fn prefer_side(vx: i32, coin: bool) -> (r: i32)
    ensures
        vx > 0 ==> r == 1,
        vx < 0 ==> r == -1,
        vx == 0 ==> r == (if coin { 1int } else { -1 }),
{
    if vx > 0 {
        1
    } else if vx < 0 {
        -1
    } else if coin {
        1
    } else {
        -1
    }
}

/// Whether a mover of density `mover_density` moving vertically by `dy` may
/// enter a cell holding `target_phase` of density `target_density`: only
/// empty, liquid or gas cells, and only lighter ones, or heavier ones when
/// rising, or air when moving sideways.
pub open spec fn admits_spec(
    mover_density: int,
    dy: int,
    target_phase: Phase,
    target_density: int,
    target_is_air: bool,
) -> bool {
    (target_phase == Phase::Empty || target_phase == Phase::Liquid || target_phase == Phase::Gas)
        && (target_density < mover_density || (dy > 0 && target_density > mover_density) || (dy == 0
        && target_is_air))
}

/// Whether a mover may enter a cell, from the densities and the target's phase.
pub fn admits(mover_density: i32, dy: i32, target_phase: Phase, target_density: i32, target_is_air: bool) -> (r: bool)
    ensures
        r == admits_spec(mover_density as int, dy as int, target_phase, target_density as int, target_is_air),
{
    match target_phase {
        Phase::Empty | Phase::Liquid | Phase::Gas => {},
        _ => return false,
    }
    target_density < mover_density || (dy > 0 && target_density > mover_density) || (dy == 0 && target_is_air)
}

/// The outcome of stepping into a cell: blocked when it cannot be entered,
/// busy when it is occupied by a cell that already moved this tick, else open.
pub fn entry(admitted: Option<bool>, target_is_air: bool, target_moved: bool) -> (r: Entry)
    ensures
        r == (match admitted {
            None => Entry::Blocked,
            Some(false) => Entry::Blocked,
            Some(true) => if !target_is_air && target_moved { Entry::Busy } else { Entry::Open },
        }),
{
    match admitted {
        None => Entry::Blocked,
        Some(false) => Entry::Blocked,
        Some(true) => if !target_is_air && target_moved { Entry::Busy } else { Entry::Open },
    }
}

/// What writing a velocity back to a cell does.
#[derive(Debug, Clone, Copy, PartialEq, Eq)]
pub enum VelocityWrite {
    /// Store the new velocity.
    Store(i32, i32),
    /// Keep the cell but mark it active.
    Mark,
    /// Nothing changes.
    Keep,
}

/// A settled component below the settle speed stops, then the component is
/// clamped to the largest component speed.
pub open spec fn settle_component(v: int, settled: bool, settle: int, max_component: int) -> int {
    let v = if settled && abs(v) < settle { 0 } else { v };
    clamp_spec(v, -max_component, max_component)
}

/// The write of velocity `(vx, vy)` to a cell currently holding `(cur_vx,
/// cur_vy)`: components of a settled cell slower than `settle` stop, each is
/// clamped to `max_component`, and an unchanged moving cell is only marked.
pub fn write_velocity(cur_vx: i32, cur_vy: i32, vx: i32, vy: i32, settled: bool, settle: i32, max_component: i32) -> (r: VelocityWrite)
    requires
        vx > i32::MIN,
        vy > i32::MIN,
        max_component >= 0,
    ensures
        ({
            let nx = settle_component(vx as int, settled, settle as int, max_component as int);
            let ny = settle_component(vy as int, settled, settle as int, max_component as int);
            if cur_vx != nx || cur_vy != ny {
                r == VelocityWrite::Store(nx as i32, ny as i32)
            } else if nx != 0 || ny != 0 {
                r == VelocityWrite::Mark
            } else {
                r == VelocityWrite::Keep
            }
        }),
{
    let mut vx = vx;
    let mut vy = vy;
    if settled {
        if (if vx < 0 { -vx } else { vx }) < settle {
            vx = 0;
        }
        if (if vy < 0 { -vy } else { vy }) < settle {
            vy = 0;
        }
    }
    let lo: i32 = -max_component;
    vx = if vx < lo { lo } else if vx > max_component { max_component } else { vx };
    vy = if vy < lo { lo } else if vy > max_component { max_component } else { vy };
    if cur_vx != vx || cur_vy != vy {
        VelocityWrite::Store(vx, vy)
    } else if vx != 0 || vy != 0 {
        VelocityWrite::Mark
    } else {
        VelocityWrite::Keep
    }
}

/// The axis of the next step of a traversal that has made `done` of
/// `distance` steps along each axis: the lagging one relative to the line.
pub open spec fn next_axis_spec(done: (int, int), distance: (int, int)) -> int {
    if done.0 == distance.0 {
        1
    } else if done.1 == distance.1 || done.0 * distance.1 <= done.1 * distance.0 {
        0
    } else {
        1
    }
}

/// How far a traversal has strayed from the straight line to its goal.
pub open spec fn line_error(done: (int, int), distance: (int, int)) -> int {
    done.0 * distance.1 - done.1 * distance.0
}

/// The traversal stays within one step of the straight line.
pub open spec fn on_line(done: (int, int), distance: (int, int)) -> bool {
    &&& 0 <= done.0 <= distance.0
    &&& 0 <= done.1 <= distance.1
    &&& -distance.0 <= line_error(done, distance) <= distance.1
}

/// The axis of the next step of a traversal.
pub fn next_axis(done: (i32, i32), distance: (i32, i32)) -> (r: usize)
    requires
        0 <= done.0 <= distance.0 <= MAX_COMPONENT_CELLS,
        0 <= done.1 <= distance.1 <= MAX_COMPONENT_CELLS,
    ensures
        r == next_axis_spec((done.0 as int, done.1 as int), (distance.0 as int, distance.1 as int)),
{
    assert(done.0 * distance.1 <= 0x400 && done.1 * distance.0 <= 0x400) by (nonlinear_arith)
        requires
            0 <= done.0 <= 31,
            0 <= done.1 <= 31,
            0 <= distance.0 <= 31,
            0 <= distance.1 <= 31,
    ;
    if done.0 == distance.0 {
        1
    } else if done.1 == distance.1 || done.0 * distance.1 <= done.1 * distance.0 {
        0
    } else {
        1
    }
}

/// A traversal that always steps along `next_axis` never strays more than a
/// step from the straight line from start to goal.
pub proof fn lemma_next_axis_on_line(done: (int, int), distance: (int, int))
    requires
        on_line(done, distance),
        done != distance,
    ensures
        ({
            let axis = next_axis_spec(done, distance);
            let next = if axis == 0 { (done.0 + 1, done.1) } else { (done.0, done.1 + 1) };
            on_line(next, distance)
        }),
{
    let axis = next_axis_spec(done, distance);
    let e = line_error(done, distance);
    let (d0, d1) = distance;
    assert(line_error((done.0 + 1, done.1), distance) == e + d1) by (nonlinear_arith)
        requires
            e == done.0 * d1 - done.1 * d0,
            distance == (d0, d1),
    ;
    assert(line_error((done.0, done.1 + 1), distance) == e - d0) by (nonlinear_arith)
        requires
            e == done.0 * d1 - done.1 * d0,
            distance == (d0, d1),
    ;
    if done.0 == d0 {
        assert(e == d0 * (d1 - done.1)) by (nonlinear_arith)
            requires
                e == done.0 * d1 - done.1 * d0,
                done.0 == d0,
        ;
        assert(e >= 0) by (nonlinear_arith)
            requires
                e == d0 * (d1 - done.1),
                d0 >= 0,
                d1 >= done.1,
        ;
    } else if done.1 == d1 {
        assert(e == d1 * (done.0 - d0)) by (nonlinear_arith)
            requires
                e == done.0 * d1 - done.1 * d0,
                done.1 == d1,
        ;
        assert(e <= 0) by (nonlinear_arith)
            requires
                e == d1 * (done.0 - d0),
                d1 >= 0,
                done.0 <= d0,
        ;
    }
}

/// Where a traversal ended and on which axes it was blocked (by the sign of
/// the blocked step).
#[derive(Debug, Clone, Copy, PartialEq, Eq)]
pub struct Travel {
    pub pos: CellPos,
    pub blocked: [i32; 2],
}

/// A cell's traversal through the grid this tick, one cell at a time; the
/// caller probes each proposed step and reports how it went.
#[derive(Debug, Clone, Copy)]
pub struct Traversal {
    pub steps: [i32; 2],
    pub distance: [i32; 2],
    pub done: [i32; 2],
    pub travel: Travel,
}

/// Cells of travel still owed.
pub open spec fn remaining(t: Traversal) -> int {
    (t.distance[0] - t.done[0]) + (t.distance[1] - t.done[1])
}

impl Traversal {
    /// Steps done and owed stay in range and the position stays far from the
    /// edge of the coordinate space.
    pub open spec fn wf(&self) -> bool {
        &&& self.distance[0] == abs(self.steps[0] as int)
        &&& self.distance[1] == abs(self.steps[1] as int)
        &&& 0 <= self.done[0] <= self.distance[0] <= MAX_COMPONENT_CELLS
        &&& 0 <= self.done[1] <= self.distance[1] <= MAX_COMPONENT_CELLS
        &&& abs(self.travel.pos.x as int) + remaining(*self) <= 0x4000_0000
        &&& abs(self.travel.pos.y as int) + remaining(*self) <= 0x4000_0000
    }

    /// A traversal from `pos` by `(step_x, step_y)` whole cells.
    pub fn new(pos: CellPos, step_x: i32, step_y: i32) -> (t: Traversal)
        requires
            abs(step_x as int) <= MAX_COMPONENT_CELLS,
            abs(step_y as int) <= MAX_COMPONENT_CELLS,
            abs(pos.x as int) <= 0x3fff_0000,
            abs(pos.y as int) <= 0x3fff_0000,
        ensures
            t.wf(),
            t.done == [0i32, 0i32],
            t.travel == (Travel { pos, blocked: [0i32, 0i32] }),
            t.steps == [step_x, step_y],
    {
        let dx: i32 = if step_x < 0 { -step_x } else { step_x };
        let dy: i32 = if step_y < 0 { -step_y } else { step_y };
        Traversal {
            steps: [step_x, step_y],
            distance: [dx, dy],
            done: [0, 0],
            travel: Travel { pos, blocked: [0, 0] },
        }
    }

    /// Whether every owed step has been taken or given up.
    pub fn finished(&self) -> (r: bool)
        ensures
            r == (self.done[0] == self.distance[0] && self.done[1] == self.distance[1]),
    {
        self.done[0] == self.distance[0] && self.done[1] == self.distance[1]
    }

    /// The axis, direction and target cell of the next step.
    pub fn next_step(&self) -> (r: (usize, (i32, i32), CellPos))
        requires
            self.wf(),
            !(self.done[0] == self.distance[0] && self.done[1] == self.distance[1]),
        ensures
            r.0 == next_axis_spec((self.done[0] as int, self.done[1] as int), (self.distance[0] as int, self.distance[1] as int)),
            r.0 == 0 ==> r.1 == ((if self.steps[0] > 0 { 1int } else { -1 }) as i32, 0i32),
            r.0 == 1 ==> r.1 == (0i32, (if self.steps[1] > 0 { 1int } else { -1 }) as i32),
            r.2.x == self.travel.pos.x + r.1.0,
            r.2.y == self.travel.pos.y + r.1.1,
    {
        let axis = next_axis((self.done[0], self.done[1]), (self.distance[0], self.distance[1]));
        let sign: i32 = if self.steps[axis] > 0 { 1 } else if self.steps[axis] < 0 { -1 } else { 0 };
        assert(sign != 0);
        let dir: (i32, i32) = if axis == 0 { (sign, 0) } else { (0, sign) };
        (axis, dir, self.travel.pos.translated(dir.0, dir.1))
    }

    /// Records how the proposed step along `axis` to `next` went: an open
    /// step moves there, a busy or blocked one ends travel along that axis
    /// (a blocked one noting the blocked direction).
    pub fn record(&mut self, axis: usize, next: CellPos, outcome: Entry)
        requires
            old(self).wf(),
            !(old(self).done[0] == old(self).distance[0] && old(self).done[1] == old(self).distance[1]),
            axis == next_axis_spec((old(self).done[0] as int, old(self).done[1] as int), (old(self).distance[0] as int, old(self).distance[1] as int)),
            abs(next.x - old(self).travel.pos.x) + abs(next.y - old(self).travel.pos.y) == 1,
        ensures
            final(self).wf(),
            remaining(*final(self)) < remaining(*old(self)),
            final(self).steps == old(self).steps,
            final(self).distance == old(self).distance,
            outcome == Entry::Open ==> final(self).travel.pos == next
                && final(self).done[axis as int] == old(self).done[axis as int] + 1
                && final(self).done[1 - axis] == old(self).done[1 - axis]
                && final(self).travel.blocked == old(self).travel.blocked,
            outcome != Entry::Open ==> final(self).travel.pos == old(self).travel.pos
                && final(self).done[axis as int] == old(self).distance[axis as int]
                && final(self).done[1 - axis] == old(self).done[1 - axis],
            outcome == Entry::Busy ==> final(self).travel.blocked == old(self).travel.blocked,
            outcome == Entry::Blocked ==> final(self).travel.blocked[axis as int] == (if old(self).steps[axis as int] > 0 { 1int } else { -1 })
                && final(self).travel.blocked[1 - axis] == old(self).travel.blocked[1 - axis],
    {
        let sign: i32 = if self.steps[axis] > 0 { 1 } else { -1 };
        match outcome {
            Entry::Open => {
                self.travel.pos = next;
                self.done[axis] = self.done[axis] + 1;
            },
            Entry::Busy => {
                self.done[axis] = self.distance[axis];
            },
            Entry::Blocked => {
                self.travel.blocked[axis] = sign;
                self.done[axis] = self.distance[axis];
            },
        }
    }
}

/// A four-connected unit step from `prev` to `cur`, moving only toward the goal
/// (`sx`, `sy` are the signs of the goal's offset).
pub open spec fn unit_step(prev: CellPos, cur: CellPos, sx: int, sy: int) -> bool {
    ||| (cur.x == prev.x + sx && cur.y == prev.y && sx != 0)
    ||| (cur.y == prev.y + sy && cur.x == prev.x && sy != 0)
}

/// The sign of `v`.
pub open spec fn signum(v: int) -> int {
    if v > 0 { 1 } else if v < 0 { -1 } else { 0 }
}

/// How many horizontal and vertical steps a line of `adx` by `ady` cells has taken
/// after `n` steps: a step goes horizontally while horizontal steps remain and
/// either the running error `2 * (adx - ady - ady * kx + adx * ky)` exceeds `-ady`
/// or no vertical steps remain.
#[verifier::opaque]
pub open spec fn line_counts(adx: int, ady: int, n: nat) -> (int, int)
    decreases n,
{
    if n == 0 {
        (0, 0)
    } else {
        let c = line_counts(adx, ady, (n - 1) as nat);
        if c.0 != adx && (2 * (adx - ady - ady * c.0 + adx * c.1) > -ady || c.1 == ady) {
            (c.0 + 1, c.1)
        } else {
            (c.0, c.1 + 1)
        }
    }
}

/// The cell a line from `from` to `to` reaches after `n` steps.
pub open spec fn line_cell(from: CellPos, to: CellPos, n: nat) -> CellPos {
    let c = line_counts(abs(to.x - from.x), abs(to.y - from.y), n);
    CellPos {
        x: (from.x + signum(to.x - from.x) * c.0) as i32,
        y: (from.y + signum(to.y - from.y) * c.1) as i32,
    }
}

proof fn lemma_line_next(adx: int, ady: int, n: nat, kx: int, ky: int, step_x: bool)
    requires
        line_counts(adx, ady, n) == (kx, ky),
        step_x == (kx != adx && (2 * (adx - ady - ady * kx + adx * ky) > -ady || ky == ady)),
    ensures
        line_counts(adx, ady, n + 1) == if step_x { (kx + 1, ky) } else { (kx, ky + 1) },
{
    reveal(line_counts);
}

proof fn lemma_line_start(adx: int, ady: int)
    ensures
        line_counts(adx, ady, 0) == (0int, 0int),
{
    reveal(line_counts);
}

proof fn lemma_line_cell_at(from: CellPos, to: CellPos, n: nat, kx: int, ky: int)
    requires
        line_counts(abs(to.x - from.x), abs(to.y - from.y), n) == (kx, ky),
    ensures
        line_cell(from, to, n).x == (from.x + signum(to.x - from.x) * kx) as i32,
        line_cell(from, to, n).y == (from.y + signum(to.y - from.y) * ky) as i32,
{
}

/// The four-connected line of cells from `from` to `to`, as `(cell, previous
/// cell)` pairs in walking order: step `i` reaches `line_cell(from, to, i + 1)`,
/// each step is one unit toward `to`, and the walk ends at `to`.
pub fn walk_line(from: CellPos, to: CellPos) -> (path: Vec<(CellPos, CellPos)>)
    requires
        abs(to.x - from.x) <= 0x3fff_ffff,
        abs(to.y - from.y) <= 0x3fff_ffff,
    ensures
        path@.len() == abs(to.x - from.x) + abs(to.y - from.y),
        path@.len() > 0 ==> path@.last().0 == to,
        forall|i: int| 0 <= i < path@.len() ==> (#[trigger] path@[i]).0 == line_cell(from, to, (i + 1) as nat),
        forall|i: int| 0 <= i < path@.len() ==> (#[trigger] path@[i]).1 == (if i == 0 { from } else { path@[i - 1].0 }),
        forall|i: int| 0 <= i < path@.len() ==> unit_step((#[trigger] path@[i]).1, path@[i].0, signum(to.x - from.x), signum(to.y - from.y)),
{
    let mut x: i32 = from.x;
    let mut y: i32 = from.y;
    let ddx: i64 = to.x as i64 - from.x as i64;
    let ddy: i64 = to.y as i64 - from.y as i64;
    let adx: i64 = if ddx < 0 { -ddx } else { ddx };
    let ady: i64 = if ddy < 0 { -ddy } else { ddy };
    let sx: i32 = if ddx > 0 { 1 } else if ddx < 0 { -1 } else { 0 };
    let sy: i32 = if ddy > 0 { 1 } else if ddy < 0 { -1 } else { 0 };
    let mut err: i64 = adx - ady;
    let mut prev = from;
    let mut path: Vec<(CellPos, CellPos)> = Vec::new();
    let ghost mut kx: int = 0;
    let ghost mut ky: int = 0;
    proof {
        lemma_line_start(adx as int, ady as int);
    }
    while x != to.x || y != to.y
        invariant
            adx == abs(to.x - from.x),
            ady == abs(to.y - from.y),
            adx <= 0x3fff_ffff,
            ady <= 0x3fff_ffff,
            sx == signum(to.x - from.x),
            sy == signum(to.y - from.y),
            0 <= kx <= adx,
            0 <= ky <= ady,
            (kx, ky) == line_counts(adx as int, ady as int, path@.len() as nat),
            x == from.x + sx * kx,
            y == from.y + sy * ky,
            (x == to.x) == (kx == adx),
            (y == to.y) == (ky == ady),
            err == adx - ady - ady * kx + adx * ky,
            prev.x == x && prev.y == y,
            path@.len() == kx + ky,
            path@.len() > 0 ==> path@.last().0 == prev,
            forall|i: int| 0 <= i < path@.len() ==> (#[trigger] path@[i]).0 == line_cell(from, to, (i + 1) as nat),
            forall|i: int| 0 <= i < path@.len() ==> (#[trigger] path@[i]).1 == (if i == 0 { from } else { path@[i - 1].0 }),
            forall|i: int| 0 <= i < path@.len() ==> unit_step((#[trigger] path@[i]).1, path@[i].0, sx as int, sy as int),
        decreases (adx - kx) + (ady - ky),
    {
        proof {
            assert(-0x1000_0000_0000_0000 <= ady * kx <= 0x1000_0000_0000_0000
                && -0x1000_0000_0000_0000 <= adx * ky <= 0x1000_0000_0000_0000) by (nonlinear_arith)
                requires
                    0 <= kx <= adx <= 0x3fff_ffff,
                    0 <= ky <= ady <= 0x3fff_ffff,
            ;
        }
        let step_x = x != to.x && (2 * err > -ady || y == to.y);
        let ghost n = path@.len();
        proof {
            lemma_line_next(adx as int, ady as int, n as nat, kx, ky, step_x);
        }
        if step_x {
            proof {
                assert(ady * (kx + 1) == ady * kx + ady) by (nonlinear_arith);
                kx = kx + 1;
            }
            err = err - ady;
            x = x + sx;
        } else {
            proof {
                assert(adx * (ky + 1) == adx * ky + adx) by (nonlinear_arith);
                ky = ky + 1;
            }
            err = err + adx;
            y = y + sy;
        }
        let cur = CellPos::new(x, y);
        let ghost old_path = path@;
        path.push((cur, prev));
        proof {
            assert((kx, ky) == line_counts(adx as int, ady as int, (n + 1) as nat));
            lemma_line_cell_at(from, to, (n + 1) as nat, kx, ky);
            assert(cur == line_cell(from, to, (n + 1) as nat));
            assert forall|i: int| 0 <= i < path@.len() implies (#[trigger] path@[i]).0 == line_cell(from, to, (i + 1) as nat) by {
                if i < old_path.len() {
                    assert(path@[i] == old_path[i]);
                }
            }
            assert forall|i: int| 0 <= i < path@.len() implies (#[trigger] path@[i]).1 == (if i == 0 { from } else { path@[i - 1].0 }) by {
                if i < old_path.len() {
                    assert(path@[i] == old_path[i]);
                    if i > 0 {
                        assert(path@[i - 1] == old_path[i - 1]);
                    }
                }
            }
            assert forall|i: int| 0 <= i < path@.len() implies unit_step((#[trigger] path@[i]).1, path@[i].0, sx as int, sy as int) by {
                if i < old_path.len() {
                    assert(path@[i] == old_path[i]);
                }
            }
        }
        prev = cur;
    }
    path
}

/// The result of a moving cell striking a dynamic blocker along one axis.
#[derive(Debug, Clone, Copy, PartialEq, Eq)]
pub struct Exchange {
    /// The mover's velocity component afterwards.
    pub velocity: i32,
    /// The blocker's new velocity component, when the two were closing.
    pub received: Option<i32>,
}

/// Velocities, masses and restitution small enough for the exchange arithmetic.
pub open spec fn exchange_in_range(velocity: int, blocker_velocity: int, mover_mass: int, blocker_mass: int, restitution: int) -> bool {
    &&& abs(velocity) <= 0x1_0000
    &&& abs(blocker_velocity) <= 0x1_0000
    &&& 1 <= mover_mass <= 0x10_0000
    &&& 1 <= blocker_mass <= 0x10_0000
    &&& 0 <= restitution <= 0x1_0000
}

/// Momentum passed from a mover (velocity component `velocity` along an axis
/// whose step sign is `sign`) to a blocker: nothing unless they close; then
/// each changes by its share of the closing speed times one plus the
/// restitution, shares weighted by the other party's mass.
pub open spec fn exchange_spec(velocity: int, blocker_velocity: int, sign: int, mover_mass: int, blocker_mass: int, restitution: int) -> Exchange {
    let closing = (velocity - blocker_velocity) * sign;
    if closing <= 0 {
        Exchange { velocity: velocity as i32, received: None }
    } else {
        let impulse = 0x1_0000 + restitution;
        let denominator = (mover_mass + blocker_mass) * 0x1_0000;
        let mover_delta = round_div_spec(closing * blocker_mass * impulse, denominator);
        let blocker_delta = round_div_spec(closing * mover_mass * impulse, denominator);
        Exchange {
            velocity: (velocity - sign * mover_delta) as i32,
            received: Some((blocker_velocity + sign * blocker_delta) as i32),
        }
    }
}

/// Exchanges momentum between a mover and a dynamic blocker along one axis.
pub fn transfer_momentum(velocity: i32, blocker_velocity: i32, sign: i32, mover_mass: i64, blocker_mass: i64, restitution: u32) -> (r: Exchange)
    requires
        sign == 1 || sign == -1,
        exchange_in_range(velocity as int, blocker_velocity as int, mover_mass as int, blocker_mass as int, restitution as int),
    ensures
        r == exchange_spec(velocity as int, blocker_velocity as int, sign as int, mover_mass as int, blocker_mass as int, restitution as int),
        r.received is Some ==> (r.velocity - velocity) * sign <= 0,
        r.received matches Some(b) ==> (b - blocker_velocity) * sign >= 0,
        r.received is None <==> (velocity - blocker_velocity) * sign <= 0,
        r.received is None ==> r.velocity == velocity,
{
    let difference: i32 = velocity - blocker_velocity;
    assert(difference * sign == (if sign == 1 { difference as int } else { -difference })) by (nonlinear_arith)
        requires
            sign == 1 || sign == -1,
    ;
    let closing: i32 = difference * sign;
    if closing <= 0 {
        return Exchange { velocity, received: None };
    }
    let impulse: i64 = 65536 + (restitution as i64);
    let denominator: i64 = (mover_mass + blocker_mass) * 65536;
    proof {
        assert(0 < closing * blocker_mass <= 0x20_0000_0000 && 0 < closing * mover_mass <= 0x20_0000_0000)
            by (nonlinear_arith)
            requires
                0 < closing <= 0x2_0000,
                1 <= blocker_mass <= 0x10_0000,
                1 <= mover_mass <= 0x10_0000,
        ;
        assert(0 < closing * blocker_mass * impulse <= 0x40_0000_0000_0000) by (nonlinear_arith)
            requires
                0 < closing <= 0x2_0000,
                1 <= blocker_mass <= 0x10_0000,
                0x1_0000 <= impulse <= 0x2_0000,
        ;
        assert(0 < closing * mover_mass * impulse <= 0x40_0000_0000_0000) by (nonlinear_arith)
            requires
                0 < closing <= 0x2_0000,
                1 <= mover_mass <= 0x10_0000,
                0x1_0000 <= impulse <= 0x2_0000,
        ;
    }
    let mover_delta: i64 = divide_signed((closing as i64) * blocker_mass * impulse, denominator);
    let blocker_delta: i64 = divide_signed((closing as i64) * mover_mass * impulse, denominator);
    proof {
        lemma_share_bound(closing as int, blocker_mass as int, mover_mass as int, impulse as int);
        lemma_share_bound(closing as int, mover_mass as int, blocker_mass as int, impulse as int);
    }
    let blocker_step: i32 = blocker_delta as i32;
    let mover_step: i32 = mover_delta as i32;
    assert(sign * blocker_step == (if sign == 1 { blocker_step as int } else { -blocker_step })) by (nonlinear_arith)
        requires
            sign == 1 || sign == -1,
    ;
    assert(sign * mover_step == (if sign == 1 { mover_step as int } else { -mover_step })) by (nonlinear_arith)
        requires
            sign == 1 || sign == -1,
    ;
    let received: i32 = blocker_velocity + sign * blocker_step;
    let slowed: i32 = velocity - sign * mover_step;
    assert((slowed - velocity) * sign <= 0 && (received - blocker_velocity) * sign >= 0) by (nonlinear_arith)
        requires
            sign == 1 || sign == -1,
            slowed - velocity == -(sign * mover_step),
            received - blocker_velocity == sign * blocker_step,
            mover_step >= 0,
            blocker_step >= 0,
    ;
    Exchange { velocity: slowed, received: Some(received) }
}

proof fn lemma_share_bound(closing: int, other: int, own: int, impulse: int)
    requires
        0 < closing <= 0x2_0000,
        1 <= other <= 0x10_0000,
        1 <= own <= 0x10_0000,
        0x1_0000 <= impulse <= 0x2_0000,
    ensures
        0 <= round_div_spec(closing * other * impulse, (own + other) * 0x1_0000) <= 2 * closing,
{
    let n = closing * other * impulse;
    let d = (own + other) * 0x1_0000;
    assert(-(2 * closing) * d <= n <= (2 * closing) * d) by (nonlinear_arith)
        requires
            n == closing * other * impulse,
            d == (own + other) * 0x1_0000,
            0 < closing,
            1 <= other,
            1 <= own,
            0x1_0000 <= impulse <= 0x2_0000,
    ;
    crate::arith::lemma_round_div_within(n, d, 2 * closing);
    assert(round_div_spec(n, d) >= 0) by {
        assert((n + d / 2) / d >= 0) by (nonlinear_arith)
            requires
                n >= 0,
                d > 0,
        ;
    }
}

/// The starting point is on the line to any goal.
pub proof fn lemma_start_on_line(distance: (int, int))
    requires
        distance.0 >= 0,
        distance.1 >= 0,
    ensures
        on_line((0, 0), distance),
{
    assert(line_error((0, 0), distance) == 0) by (nonlinear_arith);
}

/// The exchange depends on the two velocities only through their difference:
/// moving both by the same amount moves the mover's velocity afterwards and the
/// blocker's received velocity by that amount, and leaves whether they exchange at
/// all unchanged. A blocker already moving the same way as fast as the mover, or
/// faster, takes nothing. Between equal masses, what the mover loses the blocker
/// gains.
pub proof fn lemma_exchange_relative(
    velocity: int,
    blocker_velocity: int,
    shift: int,
    sign: int,
    mover_mass: int,
    blocker_mass: int,
    restitution: int,
)
    requires
        sign == 1 || sign == -1,
        exchange_in_range(velocity, blocker_velocity, mover_mass, blocker_mass, restitution),
        exchange_in_range(velocity + shift, blocker_velocity + shift, mover_mass, blocker_mass, restitution),
    ensures
        ({
            let a = exchange_spec(velocity, blocker_velocity, sign, mover_mass, blocker_mass, restitution);
            let b = exchange_spec(velocity + shift, blocker_velocity + shift, sign, mover_mass, blocker_mass, restitution);
            &&& b.velocity == a.velocity + shift
            &&& (a.received is Some <==> b.received is Some)
            &&& a.received matches Some(ra) ==> b.received matches Some(rb) && rb == ra + shift
        }),
        (velocity - blocker_velocity) * sign <= 0
            ==> exchange_spec(velocity, blocker_velocity, sign, mover_mass, blocker_mass, restitution)
                == (Exchange { velocity: velocity as i32, received: None }),
        mover_mass == blocker_mass ==> ({
            let a = exchange_spec(velocity, blocker_velocity, sign, mover_mass, blocker_mass, restitution);
            a.received matches Some(r) ==> r - blocker_velocity == velocity - a.velocity
        }),
{
    let closing = (velocity - blocker_velocity) * sign;
    let closing2 = (velocity + shift - (blocker_velocity + shift)) * sign;
    assert(closing2 == closing);
    if closing > 0 {
        assert(closing <= 0x2_0000) by (nonlinear_arith)
            requires
                closing == (velocity - blocker_velocity) * sign,
                sign == 1 || sign == -1,
                abs(velocity) <= 0x1_0000,
                abs(blocker_velocity) <= 0x1_0000,
        ;
        let impulse = 0x1_0000 + restitution;
        lemma_share_bound(closing, blocker_mass, mover_mass, impulse);
        lemma_share_bound(closing, mover_mass, blocker_mass, impulse);
        let denominator = (mover_mass + blocker_mass) * 0x1_0000;
        let md = round_div_spec(closing * blocker_mass * impulse, denominator);
        let bd = round_div_spec(closing * mover_mass * impulse, denominator);
        assert(-0x4_0000 <= sign * md <= 0x4_0000 && -0x4_0000 <= sign * bd <= 0x4_0000) by (nonlinear_arith)
            requires
                sign == 1 || sign == -1,
                0 <= md <= 2 * closing,
                0 <= bd <= 2 * closing,
                closing <= 0x2_0000,
        ;
    }
}

} // verus!
