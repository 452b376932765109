//! Building a body's proposal for one quantum of motion: the cells it would cover
//! and the cells it would step into on the way.
use vstd::prelude::*;
use rustc_hash::FxHashSet;
use crate::geometry::CellPos;
use crate::raster::{cell_key, key_of, lemma_cell_key_injective};
use crate::fx::{fx_insert, fx_contains};
use crate::journal::Freedom;
use crate::motion::{line_cell, walk_line};
use crate::rotation::{abs, ANGLE_STEPS};
use crate::rounds::Proposal;
use crate::state::{Body, rasterize, slots_in_range, turned};

verus! {

/// A cell the body does not own, as the world shows it (`mine` holds the keys of
/// the cells that show the body's id).
pub open spec fn foreign(mine: Set<u64>, p: CellPos) -> bool {
    !mine.contains(cell_key(p))
}

/// Whether some step of `steps` reaches `p`.
pub open spec fn reached(steps: Seq<(CellPos, CellPos)>, p: CellPos) -> bool {
    exists|j: int| 0 <= j < steps.len() && (#[trigger] steps[j]).0 == p
}

/// The steps into cells the body does not own, each cell once, on the first step
/// that reaches it.
pub open spec fn first_entries(steps: Seq<(CellPos, CellPos)>, mine: Set<u64>) -> Seq<(CellPos, CellPos)>
    decreases steps.len(),
{
    if steps.len() == 0 {
        Seq::empty()
    } else if foreign(mine, steps.last().0) && !reached(steps.drop_last(), steps.last().0) {
        first_entries(steps.drop_last(), mine).push(steps.last())
    } else {
        first_entries(steps.drop_last(), mine)
    }
}

/// A raster moved by `(dx, dy)`.
pub open spec fn shifted(raster: Seq<CellPos>, dx: int, dy: int) -> Seq<CellPos> {
    Seq::new(raster.len(), |i: int| CellPos { x: (raster[i].x + dx) as i32, y: (raster[i].y + dy) as i32 })
}

/// The cells of a moved raster that the body does not own, each with the cell it
/// comes from.
pub open spec fn shift_entries(candidate: Seq<CellPos>, mine: Set<u64>, dx: int, dy: int) -> Seq<(CellPos, CellPos)>
    decreases candidate.len(),
{
    if candidate.len() == 0 {
        Seq::empty()
    } else if foreign(mine, candidate.last()) {
        shift_entries(candidate.drop_last(), mine, dx, dy).push(
            (candidate.last(), CellPos { x: (candidate.last().x - dx) as i32, y: (candidate.last().y - dy) as i32 }),
        )
    } else {
        shift_entries(candidate.drop_last(), mine, dx, dy)
    }
}

/// The steps of the line from `from` to `to`, each with the cell before it.
pub open spec fn line_path(from: CellPos, to: CellPos) -> Seq<(CellPos, CellPos)> {
    Seq::new((abs(to.x - from.x) + abs(to.y - from.y)) as nat, |k: int|
        (line_cell(from, to, (k + 1) as nat), if k == 0 { from } else { line_cell(from, to, k as nat) }))
}

/// The lines every cell walks when a body turns, one cell after another.
pub open spec fn turn_steps(raster: Seq<CellPos>, candidate: Seq<CellPos>, n: int) -> Seq<(CellPos, CellPos)>
    decreases n,
{
    if n <= 0 {
        Seq::empty()
    } else {
        turn_steps(raster, candidate, n - 1) + line_path(raster[n - 1], candidate[n - 1])
    }
}

/// The steps of one cell climbing `rise` cells and then one cell sideways.
pub open spec fn climb_path(pos: CellPos, sign: int, rise: int) -> Seq<(CellPos, CellPos)> {
    let up = if rise > 0 { rise } else { 0 };
    Seq::new(up as nat, |k: int| (CellPos { x: pos.x, y: (pos.y + k + 1) as i32 }, CellPos { x: pos.x, y: (pos.y + k) as i32 }))
        .push((CellPos { x: (pos.x + sign) as i32, y: (pos.y + rise) as i32 }, CellPos { x: pos.x, y: (pos.y + up) as i32 }))
}

/// The climbs of every cell of a raster, one cell after another.
pub open spec fn climb_steps(raster: Seq<CellPos>, sign: int, rise: int, n: int) -> Seq<(CellPos, CellPos)>
    decreases n,
{
    if n <= 0 {
        Seq::empty()
    } else {
        climb_steps(raster, sign, rise, n - 1) + climb_path(raster[n - 1], sign, rise)
    }
}

/// The step a turn by `sign` leads to.
pub open spec fn turn_step(step: u32, sign: int) -> u32 {
    ((step + sign) % (ANGLE_STEPS as int)) as u32
}

/// `seen` holds the keys of the cells the body does not own that `hist` reaches.
pub open spec fn seen_ok(seen: Set<u64>, hist: Seq<(CellPos, CellPos)>, mine: Set<u64>) -> bool {
    forall|p: CellPos| #[trigger] seen.contains(cell_key(p)) <==> foreign(mine, p) && reached(hist, p)
}

proof fn lemma_reached_push(steps: Seq<(CellPos, CellPos)>, s: (CellPos, CellPos), p: CellPos)
    ensures
        reached(steps.push(s), p) <==> reached(steps, p) || s.0 == p,
{
    if reached(steps, p) {
        let j = choose|j: int| 0 <= j < steps.len() && (#[trigger] steps[j]).0 == p;
        assert(steps.push(s)[j] == steps[j]);
    }
    if s.0 == p {
        assert(steps.push(s)[steps.len() as int] == s);
    }
    if reached(steps.push(s), p) && s.0 != p {
        let j = choose|j: int| 0 <= j < steps.len() + 1 && (#[trigger] steps.push(s)[j]).0 == p;
        assert(steps.push(s)[j] == steps[j]);
    }
}

/// Records the steps of `steps` after the steps of `hist`: each step into a cell the
/// body does not own and no earlier step reached becomes an entry.
fn enter_steps(
    steps: &Vec<(CellPos, CellPos)>,
    mine: &FxHashSet<u64>,
    seen: &mut FxHashSet<u64>,
    entered: &mut Vec<(CellPos, CellPos)>,
    Ghost(hist): Ghost<Seq<(CellPos, CellPos)>>,
)
    requires
        seen_ok(old(seen)@, hist, mine@),
        old(entered)@ == first_entries(hist, mine@),
    ensures
        seen_ok(final(seen)@, hist + steps@, mine@),
        final(entered)@ == first_entries(hist + steps@, mine@),
{
    let mut k: usize = 0;
    while k < steps.len()
        invariant
            0 <= k <= steps@.len(),
            seen_ok(seen@, hist + steps@.subrange(0, k as int), mine@),
            entered@ == first_entries(hist + steps@.subrange(0, k as int), mine@),
        decreases steps@.len() - k,
    {
        let (at, from) = steps[k];
        let ghost h = hist + steps@.subrange(0, k as int);
        let ghost h2 = hist + steps@.subrange(0, k + 1);
        proof {
            assert(h2 =~= h.push(steps@[k as int]));
            assert(h2.drop_last() =~= h);
        }
        let key = key_of(at);
        if !fx_contains(mine, key) {
            let ghost before = seen@;
            if fx_insert(seen, key) {
                entered.push((at, from));
            }
            proof {
                assert(before.contains(cell_key(at)) <==> reached(h, at));
                assert forall|p: CellPos| #[trigger] seen@.contains(cell_key(p)) <==> foreign(mine@, p) && reached(h2, p) by {
                    lemma_reached_push(h, steps@[k as int], p);
                    if cell_key(p) == key {
                        lemma_cell_key_injective(p, at);
                    }
                }
            }
        } else {
            proof {
                assert forall|p: CellPos| #[trigger] seen@.contains(cell_key(p)) <==> foreign(mine@, p) && reached(h2, p) by {
                    lemma_reached_push(h, steps@[k as int], p);
                }
            }
        }
        k = k + 1;
    }
    proof {
        assert(steps@.subrange(0, steps@.len() as int) =~= steps@);
    }
}

/// The smaller of two lengths.
pub open spec fn min_len(a: int, b: int) -> int {
    if a < b { a } else { b }
}

/// Builds the proposal of body `index` to move one quantum along `freedom` in the
/// direction `sign`: a shift moves every cell one step and enters each moved cell the
/// body does not own; a turn covers the turned raster and enters, along each cell's
/// line to its new place, every cell the body does not own, once.
pub fn build_proposal(body: &Body, index: usize, freedom: Freedom, sign: i32, probe: bool, mine: &FxHashSet<u64>, units: i64) -> (p: Proposal)
    requires
        sign == 1 || sign == -1,
        !(freedom is Turn) ==> forall|i: int| 0 <= i < body.raster@.len() ==>
            i32::MIN < (#[trigger] body.raster@[i]).x < i32::MAX && i32::MIN < body.raster@[i].y < i32::MAX,
        freedom is Turn ==> {
            &&& slots_in_range(body.slots@)
            &&& 1 <= units <= 0x4000
            &&& abs(body.anchor.x as int) <= 0x7ff0_0000
            &&& abs(body.anchor.y as int) <= 0x7ff0_0000
            &&& forall|i: int| 0 <= i < body.raster@.len() && i < body.slots@.len() ==> {
                &&& abs(body.anchor.x + turned(body.slots@[i], turn_step(body.step, sign as int), units).0 - (#[trigger] body.raster@[i]).x) <= 0x3fff_ffff
                &&& abs(body.anchor.y + turned(body.slots@[i], turn_step(body.step, sign as int), units).1 - body.raster@[i].y) <= 0x3fff_ffff
            }
        },
    ensures
        p.body == index,
        p.freedom == freedom,
        p.sign == sign,
        p.probe == probe,
        !p.refused && !p.committed && !p.canceled,
        p.deps@.len() == 0,
        freedom is X ==> p.translation == (sign, 0i32) && p.new_step == body.step
            && p.candidate@ == shifted(body.raster@, sign as int, 0)
            && p.entered@ == shift_entries(p.candidate@, mine@, sign as int, 0),
        freedom is Y ==> p.translation == (0i32, sign) && p.new_step == body.step
            && p.candidate@ == shifted(body.raster@, 0, sign as int)
            && p.entered@ == shift_entries(p.candidate@, mine@, 0, sign as int),
        freedom is Turn ==> {
            &&& p.translation == (0i32, 0i32)
            &&& p.new_step == turn_step(body.step, sign as int)
            &&& p.candidate@.len() == body.slots@.len()
            &&& forall|i: int| 0 <= i < body.slots@.len() ==>
                (#[trigger] p.candidate@[i]).x == body.anchor.x + turned(body.slots@[i], p.new_step, units).0
                && p.candidate@[i].y == body.anchor.y + turned(body.slots@[i], p.new_step, units).1
            &&& p.entered@ == first_entries(turn_steps(body.raster@, p.candidate@,
                min_len(body.raster@.len() as int, p.candidate@.len() as int)), mine@)
        },
{
    let mut candidate: Vec<CellPos> = Vec::new();
    let mut entered: Vec<(CellPos, CellPos)> = Vec::new();
    let mut new_step = body.step;
    let mut translation: (i32, i32) = (0, 0);
    match freedom {
        Freedom::Turn => {
            let a: i64 = body.step as i64 + sign as i64;
            new_step = if a < 0 { (a + ANGLE_STEPS as i64) as u32 } else { (a % ANGLE_STEPS as i64) as u32 };
            proof {
                assert(new_step == turn_step(body.step, sign as int));
            }
            rasterize(body.slots.as_slice(), body.anchor, new_step, &mut candidate, units);
            let n = if body.raster.len() < candidate.len() { body.raster.len() } else { candidate.len() };
            let mut seen: FxHashSet<u64> = FxHashSet::default();
            let mut i: usize = 0;
            while i < n
                invariant
                    0 <= i <= n,
                    n == min_len(body.raster@.len() as int, candidate@.len() as int),
                    candidate@.len() == body.slots@.len(),
                    forall|i: int| 0 <= i < body.slots@.len() ==>
                        (#[trigger] candidate@[i]).x == body.anchor.x + turned(body.slots@[i], new_step, units).0
                        && candidate@[i].y == body.anchor.y + turned(body.slots@[i], new_step, units).1,
                    new_step == turn_step(body.step, sign as int),
                    forall|i: int| 0 <= i < body.raster@.len() && i < body.slots@.len() ==> {
                        &&& abs(body.anchor.x + turned(body.slots@[i], turn_step(body.step, sign as int), units).0 - (#[trigger] body.raster@[i]).x) <= 0x3fff_ffff
                        &&& abs(body.anchor.y + turned(body.slots@[i], turn_step(body.step, sign as int), units).1 - body.raster@[i].y) <= 0x3fff_ffff
                    },
                    seen_ok(seen@, turn_steps(body.raster@, candidate@, i as int), mine@),
                    entered@ == first_entries(turn_steps(body.raster@, candidate@, i as int), mine@),
                decreases n - i,
            {
                let from = body.raster[i];
                let to = candidate[i];
                let path = walk_line(from, to);
                proof {
                    assert(path@ =~= line_path(from, to));
                    assert(turn_steps(body.raster@, candidate@, i + 1) == turn_steps(body.raster@, candidate@, i as int) + line_path(from, to));
                }
                enter_steps(&path, mine, &mut seen, &mut entered, Ghost(turn_steps(body.raster@, candidate@, i as int)));
                i = i + 1;
            }
        },
        _ => {
            let (dx, dy): (i32, i32) = match freedom {
                Freedom::X => (sign, 0),
                _ => (0, sign),
            };
            translation = (dx, dy);
            let mut i: usize = 0;
            while i < body.raster.len()
                invariant
                    0 <= i <= body.raster@.len(),
                    dx == 0 || dy == 0,
                    -1 <= dx <= 1 && -1 <= dy <= 1,
                    forall|i: int| 0 <= i < body.raster@.len() ==>
                        i32::MIN < (#[trigger] body.raster@[i]).x < i32::MAX && i32::MIN < body.raster@[i].y < i32::MAX,
                    candidate@ == shifted(body.raster@, dx as int, dy as int).subrange(0, i as int),
                decreases body.raster@.len() - i,
            {
                let pos = body.raster[i];
                candidate.push(pos.translated(dx, dy));
                proof {
                    assert(candidate@ =~= shifted(body.raster@, dx as int, dy as int).subrange(0, i + 1));
                }
                i = i + 1;
            }
            proof {
                assert(candidate@ =~= shifted(body.raster@, dx as int, dy as int));
            }
            let mut k: usize = 0;
            while k < candidate.len()
                invariant
                    0 <= k <= candidate@.len(),
                    candidate@ == shifted(body.raster@, dx as int, dy as int),
                    dx == 0 || dy == 0,
                    -1 <= dx <= 1 && -1 <= dy <= 1,
                    forall|i: int| 0 <= i < body.raster@.len() ==>
                        i32::MIN < (#[trigger] body.raster@[i]).x < i32::MAX && i32::MIN < body.raster@[i].y < i32::MAX,
                    entered@ == shift_entries(candidate@.subrange(0, k as int), mine@, dx as int, dy as int),
                decreases candidate@.len() - k,
            {
                let pos = candidate[k];
                proof {
                    let c = candidate@.subrange(0, k + 1);
                    assert(c.drop_last() =~= candidate@.subrange(0, k as int));
                    assert(c.last() == pos);
                    assert(pos.x == body.raster@[k as int].x + dx && pos.y == body.raster@[k as int].y + dy);
                }
                if !fx_contains(mine, key_of(pos)) {
                    entered.push((pos, pos.translated(-dx, -dy)));
                }
                k = k + 1;
            }
            proof {
                assert(candidate@.subrange(0, candidate@.len() as int) =~= candidate@);
            }
        },
    }
    Proposal {
        body: index,
        freedom,
        sign,
        translation,
        probe,
        new_step,
        candidate,
        entered,
        refused: false,
        committed: false,
        canceled: false,
        deps: Vec::new(),
    }
}

/// Builds the proposal of body `index` to step one cell sideways by `sign` while
/// climbing `rise` cells: every cell moves by `(sign, rise)` and enters, climbing
/// its column and then stepping sideways, every cell the body does not own, once.
pub fn build_step_proposal(body: &Body, index: usize, sign: i32, rise: i32, mine: &FxHashSet<u64>) -> (p: Proposal)
    requires
        sign == 1 || sign == -1,
        forall|i: int| 0 <= i < body.raster@.len() ==> {
            &&& i32::MIN < (#[trigger] body.raster@[i]).x < i32::MAX
            &&& i32::MIN <= body.raster@[i].y + rise <= i32::MAX
            &&& body.raster@[i].y + (if rise > 0 { rise as int } else { 0 }) <= i32::MAX
        },
    ensures
        p.body == index,
        p.freedom == Freedom::X,
        p.sign == sign,
        p.translation == (sign, rise),
        !p.probe,
        p.new_step == body.step,
        !p.refused && !p.committed && !p.canceled,
        p.deps@.len() == 0,
        p.candidate@ == shifted(body.raster@, sign as int, rise as int),
        p.entered@ == first_entries(climb_steps(body.raster@, sign as int, rise as int, body.raster@.len() as int), mine@),
{
    let mut candidate: Vec<CellPos> = Vec::new();
    let mut i: usize = 0;
    while i < body.raster.len()
        invariant
            0 <= i <= body.raster@.len(),
            sign == 1 || sign == -1,
            forall|i: int| 0 <= i < body.raster@.len() ==> {
                &&& i32::MIN < (#[trigger] body.raster@[i]).x < i32::MAX
                &&& i32::MIN <= body.raster@[i].y + rise <= i32::MAX
            },
            candidate@ == shifted(body.raster@, sign as int, rise as int).subrange(0, i as int),
        decreases body.raster@.len() - i,
    {
        let pos = body.raster[i];
        candidate.push(pos.translated(sign, rise));
        proof {
            assert(candidate@ =~= shifted(body.raster@, sign as int, rise as int).subrange(0, i + 1));
        }
        i = i + 1;
    }
    proof {
        assert(candidate@ =~= shifted(body.raster@, sign as int, rise as int));
    }
    let mut entered: Vec<(CellPos, CellPos)> = Vec::new();
    let mut seen: FxHashSet<u64> = FxHashSet::default();
    let up: i32 = if rise > 0 { rise } else { 0 };
    let mut i: usize = 0;
    while i < body.raster.len()
        invariant
            0 <= i <= body.raster@.len(),
            sign == 1 || sign == -1,
            up == (if rise > 0 { rise as int } else { 0 }),
            forall|i: int| 0 <= i < body.raster@.len() ==> {
                &&& i32::MIN < (#[trigger] body.raster@[i]).x < i32::MAX
                &&& i32::MIN <= body.raster@[i].y + rise <= i32::MAX
                &&& body.raster@[i].y + (if rise > 0 { rise as int } else { 0 }) <= i32::MAX
            },
            seen_ok(seen@, climb_steps(body.raster@, sign as int, rise as int, i as int), mine@),
            entered@ == first_entries(climb_steps(body.raster@, sign as int, rise as int, i as int), mine@),
        decreases body.raster@.len() - i,
    {
        let pos = body.raster[i];
        let mut path: Vec<(CellPos, CellPos)> = Vec::new();
        let mut from = pos;
        let mut dy: i64 = 1;
        while dy <= up as i64
            invariant
                1 <= dy <= up + 1,
                up >= 0,
                pos.y + up <= i32::MAX,
                from == (CellPos { x: pos.x, y: (pos.y + dy - 1) as i32 }),
                path@ =~= Seq::new((dy - 1) as nat, |k: int| (CellPos { x: pos.x, y: (pos.y + k + 1) as i32 }, CellPos { x: pos.x, y: (pos.y + k) as i32 })),
            decreases up + 1 - dy,
        {
            let at = CellPos { x: pos.x, y: (pos.y as i64 + dy) as i32 };
            path.push((at, from));
            from = at;
            dy = dy + 1;
        }
        path.push((CellPos { x: pos.x + sign, y: pos.y + rise }, from));
        proof {
            assert(path@ =~= climb_path(pos, sign as int, rise as int));
            assert(climb_steps(body.raster@, sign as int, rise as int, i + 1)
                == climb_steps(body.raster@, sign as int, rise as int, i as int) + climb_path(pos, sign as int, rise as int));
        }
        enter_steps(&path, mine, &mut seen, &mut entered, Ghost(climb_steps(body.raster@, sign as int, rise as int, i as int)));
        i = i + 1;
    }
    Proposal {
        body: index,
        freedom: Freedom::X,
        sign,
        translation: (sign, rise),
        probe: false,
        new_step: body.step,
        candidate,
        entered,
        refused: false,
        committed: false,
        canceled: false,
        deps: Vec::new(),
    }
}

} // verus!
