//! The order in which a pass visits the cells of a window's middle block:
//! row by row from the bottom, each row either left to right or right to
//! left, and in each chunk only the cells of its dirty rectangle.
use vstd::prelude::*;
use crate::geometry::CellPos;

verus! {

/// The part of a chunk that needs simulating: inclusive local column and row
/// bounds.
#[derive(Debug, Clone, Copy, PartialEq, Eq)]
pub struct DirtyRect {
    pub min_x: u8,
    pub min_y: u8,
    pub max_x: u8,
    pub max_y: u8,
}

/// Whether local cell `(lx, ly)` lies in the dirty rectangle, if any.
pub open spec fn in_rect(rect: Option<DirtyRect>, lx: int, ly: int) -> bool {
    match rect {
        Some(r) => r.min_x <= lx <= r.max_x && r.min_y <= ly <= r.max_y,
        None => false,
    }
}

/// Whether the cell `(dx, gy)` from the block's first cell is in one of the
/// dirty rectangles (`rects[oy][ox]` for the chunk at column `ox`, row `oy`
/// of the block).
pub open spec fn block_covers(rects: [[Option<DirtyRect>; 2]; 2], size: int, dx: int, gy: int) -> bool {
    &&& 0 <= gy < 2 * size
    &&& in_rect(rects@[gy / size]@[0], dx, (gy % size) as int) || in_rect(rects@[gy / size]@[1], dx - size, (gy % size) as int)
}

/// Whether `a` comes before `b` in a row scanned leftward (`leftward`) or
/// rightward.
pub open spec fn before(leftward: bool, a: int, b: int) -> bool {
    if leftward { a > b } else { a < b }
}

/// Dirty rectangles that fit in chunks of `size` cells.
pub open spec fn rects_fit(rects: [[Option<DirtyRect>; 2]; 2], size: int) -> bool {
    forall|oy: int, ox: int| 0 <= oy < 2 && 0 <= ox < 2 && (#[trigger] rects@[oy]@[ox]) is Some ==>
        rects@[oy]@[ox]->0.max_x < size && rects@[oy]@[ox]->0.max_y < size
}

/// The `k`-th cell of the run `x0 + start ..= x0 + end` of row `y`, taken
/// leftward or rightward.
pub open spec fn span_cell(x0: int, y: i32, start: int, end: int, leftward: bool, k: int) -> CellPos {
    CellPos { x: (x0 + if leftward { end - k } else { start + k }) as i32, y }
}

/// Appends the cells `x0 + start ..= x0 + end` of row `y`, leftward or
/// rightward.
fn scan_span(out: &mut Vec<CellPos>, x0: i32, y: i32, start: i32, end: i32, leftward: bool)
    requires
        0 <= start <= 255,
        0 <= end <= 255,
        i32::MIN <= x0,
        x0 + end <= i32::MAX,
    ensures
        final(out)@.len() == old(out)@.len() + (if start <= end { end - start + 1 } else { 0 }),
        forall|k: int| 0 <= k < old(out)@.len() ==> final(out)@[k] == old(out)@[k],
        forall|k: int| 0 <= k < final(out)@.len() - old(out)@.len() ==> #[trigger] final(out)@[old(out)@.len() + k]
            == span_cell(x0 as int, y, start as int, end as int, leftward, k),
{
    let ghost base = old(out)@.len();
    if end < start {
        return;
    }
    let mut i: i32 = 0;
    while i <= end - start
        invariant
            0 <= start <= end <= 255,
            x0 + end <= i32::MAX,
            0 <= i <= end - start + 1,
            out@.len() == base + i,
            forall|k: int| 0 <= k < base ==> out@[k] == old(out)@[k],
            forall|k: int| 0 <= k < i ==> #[trigger] out@[base + k]
                == span_cell(x0 as int, y, start as int, end as int, leftward, k),
        decreases end - start + 1 - i,
    {
        let lx = if leftward { end - i } else { start + i };
        out.push(CellPos { x: x0 + lx, y });
        i = i + 1;
    }
}


/// A block's first cell far enough from the ends of `i32` for the block.
pub open spec fn block_in_range(origin: CellPos, size: int) -> bool {
    &&& i32::MIN <= origin.x && origin.x + 2 * size <= i32::MAX
    &&& i32::MIN <= origin.y && origin.y + 2 * size <= i32::MAX
}

/// The cell at `(x, y)`.
pub open spec fn cell(x: int, y: int) -> CellPos {
    CellPos { x: x as i32, y: y as i32 }
}

/// Appends the cells of row `y` whose column `x0 + lx` has `(lx, ly)` in the
/// dirty rectangle, leftward or rightward.
#[verifier::spinoff_prover]
#[verifier::rlimit(40)]
fn scan_chunk_row(out: &mut Vec<CellPos>, x0: i32, y: i32, rect: Option<DirtyRect>, ly: i32, leftward: bool)
    requires
        rect matches Some(r) ==> x0 + r.max_x <= i32::MAX,
    ensures
        forall|k: int| 0 <= k < old(out)@.len() ==> final(out)@[k] == old(out)@[k],
        final(out)@.len() >= old(out)@.len(),
        forall|k: int| old(out)@.len() <= k < final(out)@.len() ==>
            (#[trigger] final(out)@[k]).y == y && in_rect(rect, final(out)@[k].x - x0, ly as int),
        forall|lx: int| #[trigger] in_rect(rect, lx, ly as int) ==> exists|k: int| old(out)@.len() <= k < final(out)@.len()
            && final(out)@[k] == cell(x0 + lx, y as int),
        forall|k: int, l: int| old(out)@.len() <= k < l < final(out)@.len() ==>
            before(leftward, (#[trigger] final(out)@[k]).x as int, (#[trigger] final(out)@[l]).x as int),
{
    let ghost base = old(out)@.len();
    match rect {
        Some(r) => {
            if ly >= r.min_y as i32 && ly <= r.max_y as i32 {
                scan_span(out, x0, y, r.min_x as i32, r.max_x as i32, leftward);
                proof {
                    let (start, end) = (r.min_x as int, r.max_x as int);
                    assert forall|k: int| base <= k < out@.len() implies
                        (#[trigger] out@[k]).y == y && in_rect(rect, out@[k].x - x0, ly as int) by {
                        assert(out@[base + (k - base)] == span_cell(x0 as int, y, start, end, leftward, k - base));
                    }
                    assert forall|lx: int| #[trigger] in_rect(rect, lx, ly as int) implies exists|k: int| base <= k < out@.len()
                        && out@[k] == cell(x0 + lx, y as int) by {
                        let j = if leftward { end - lx } else { lx - start };
                        assert(out@[base + j] == span_cell(x0 as int, y, start, end, leftward, j));
                    }
                    assert forall|k: int, l: int| base <= k < l < out@.len() implies
                        before(leftward, (#[trigger] out@[k]).x as int, (#[trigger] out@[l]).x as int) by {
                        assert(out@[base + (k - base)] == span_cell(x0 as int, y, start, end, leftward, k - base));
                        assert(out@[base + (l - base)] == span_cell(x0 as int, y, start, end, leftward, l - base));
                    }
                }
            }
        },
        None => {},
    }
}


/// Appends the dirty cells of row `gy` of the block whose first cell is
/// `origin`, leftward or rightward.
fn scan_row(
    out: &mut Vec<CellPos>,
    origin: CellPos,
    size: i32,
    rects: [[Option<DirtyRect>; 2]; 2],
    gy: i32,
    leftward: bool,
)
    requires
        1 <= size <= 256,
        0 <= gy < 2 * size,
        block_in_range(origin, size as int),
        rects_fit(rects, size as int),
    ensures
        forall|k: int| 0 <= k < old(out)@.len() ==> final(out)@[k] == old(out)@[k],
        final(out)@.len() >= old(out)@.len(),
        forall|k: int| old(out)@.len() <= k < final(out)@.len() ==> (#[trigger] final(out)@[k]).y == origin.y + gy
            && block_covers(rects, size as int, final(out)@[k].x - origin.x, gy as int),
        forall|dx: int| #[trigger] block_covers(rects, size as int, dx, gy as int) ==> exists|k: int|
            old(out)@.len() <= k < final(out)@.len() && final(out)@[k] == cell(origin.x + dx, origin.y + gy),
        forall|k: int, l: int| old(out)@.len() <= k < l < final(out)@.len() ==>
            before(leftward, (#[trigger] final(out)@[k]).x as int, (#[trigger] final(out)@[l]).x as int),
{
    let ghost base = old(out)@.len();
    let oy = gy / size;
    let ly = gy % size;
    assert(0 <= oy < 2) by (nonlinear_arith)
        requires
            1 <= size,
            0 <= gy < 2 * size,
            oy == gy / size,
    ;
    let row = rects[oy as usize];
    let (first, second): (i32, i32) = if leftward { (1, 0) } else { (0, 1) };
    let y = origin.y + gy;
    assert(rects@[oy as int] == row);
    assert(row@[first as int] is Some ==> row@[first as int]->0.max_x < size);
    assert(row@[second as int] is Some ==> row@[second as int]->0.max_x < size);
    scan_chunk_row(out, origin.x + first * size, y, row[first as usize], ly, leftward);
    let ghost mid = out@.len();
    let ghost seg1 = out@;
    scan_chunk_row(out, origin.x + second * size, y, row[second as usize], ly, leftward);
    proof {
        let sz = size as int;
        assert(rects@[oy as int] == row);
        assert(row@[first as int] is Some ==> row@[first as int]->0.max_x < sz);
        assert(row@[second as int] is Some ==> row@[second as int]->0.max_x < sz);
        assert forall|k: int| base <= k < out@.len() implies (#[trigger] out@[k]).y == origin.y + gy
            && block_covers(rects, sz, out@[k].x - origin.x, gy as int) by {
            if k < mid {
                assert(out@[k] == seg1[k]);
            }
        }
        assert forall|dx: int| #[trigger] block_covers(rects, sz, dx, gy as int) implies exists|k: int|
            base <= k < out@.len() && out@[k] == cell(origin.x + dx, origin.y + gy) by {
            if in_rect(row@[first as int], dx - first * sz, ly as int) {
                let k = choose|k: int| base <= k < mid && seg1[k] == cell(origin.x + first * size + (dx - first * sz), y as int);
                assert(out@[k] == seg1[k]);
            } else {
                assert(in_rect(row@[second as int], dx - second * sz, ly as int));
            }
        }
        assert forall|k: int, l: int| base <= k < l < out@.len() implies
            before(leftward, (#[trigger] out@[k]).x as int, (#[trigger] out@[l]).x as int) by {
            if l < mid {
                assert(out@[k] == seg1[k] && out@[l] == seg1[l]);
            } else if k < mid {
                assert(out@[k] == seg1[k]);
                assert(in_rect(row@[first as int], out@[k].x - (origin.x + first * size), ly as int));
                assert(in_rect(row@[second as int], out@[l].x - (origin.x + second * size), ly as int));
            }
        }
    }
}


/// The cells a pass visits in the middle block of a window, in visiting
/// order. The block's first cell is `origin` and its chunks are `size` cells
/// wide; `rects[oy][ox]` is the dirty rectangle of the chunk at column `ox`,
/// row `oy` (`None` where that chunk is clean or not simulated); row `gy` is
/// scanned leftward where `leftward[gy]` holds. Each dirty cell comes exactly
/// once, rows from the bottom up, each row in its direction.
pub fn block_scan(origin: CellPos, size: i32, rects: [[Option<DirtyRect>; 2]; 2], leftward: &[bool]) -> (cells: Vec<CellPos>)
    requires
        1 <= size <= 256,
        leftward@.len() == 2 * size,
        block_in_range(origin, size as int),
        rects_fit(rects, size as int),
    ensures
        forall|k: int| 0 <= k < cells@.len() ==> block_covers(rects, size as int,
            (#[trigger] cells@[k]).x - origin.x, cells@[k].y - origin.y),
        forall|dx: int, gy: int| #[trigger] block_covers(rects, size as int, dx, gy)
            ==> cells@.contains(cell(origin.x + dx, origin.y + gy)),
        forall|k: int, l: int| 0 <= k < l < cells@.len() ==> (#[trigger] cells@[k]).y <= (#[trigger] cells@[l]).y,
        forall|k: int, l: int| 0 <= k < l < cells@.len() && (#[trigger] cells@[k]).y == (#[trigger] cells@[l]).y
            ==> before(leftward@[cells@[k].y - origin.y], cells@[k].x as int, cells@[l].x as int),
{
    let mut cells: Vec<CellPos> = Vec::new();
    let mut gy: i32 = 0;
    while gy < 2 * size
        invariant
            1 <= size <= 256,
            leftward@.len() == 2 * size,
            block_in_range(origin, size as int),
            rects_fit(rects, size as int),
            0 <= gy <= 2 * size,
            forall|k: int| 0 <= k < cells@.len() ==> (#[trigger] cells@[k]).y - origin.y < gy
                && block_covers(rects, size as int, cells@[k].x - origin.x, cells@[k].y - origin.y),
            forall|dx: int, g: int| g < gy && #[trigger] block_covers(rects, size as int, dx, g)
                ==> cells@.contains(cell(origin.x + dx, origin.y + g)),
            forall|k: int, l: int| 0 <= k < l < cells@.len() ==> (#[trigger] cells@[k]).y <= (#[trigger] cells@[l]).y,
            forall|k: int, l: int| 0 <= k < l < cells@.len() && (#[trigger] cells@[k]).y == (#[trigger] cells@[l]).y
                ==> before(leftward@[cells@[k].y - origin.y], cells@[k].x as int, cells@[l].x as int),
        decreases 2 * size - gy,
    {
        let ghost prev = cells@;
        let row_leftward = leftward[gy as usize];
        scan_row(&mut cells, origin, size, rects, gy, row_leftward);
        proof {
            assert forall|k: int| 0 <= k < cells@.len() implies (#[trigger] cells@[k]).y - origin.y < gy + 1
                && block_covers(rects, size as int, cells@[k].x - origin.x, cells@[k].y - origin.y) by {
                if k < prev.len() {
                    assert(cells@[k] == prev[k]);
                }
            }
            assert forall|dx: int, g: int| g < gy + 1 && #[trigger] block_covers(rects, size as int, dx, g)
                implies cells@.contains(cell(origin.x + dx, origin.y + g)) by {
                if g < gy {
                    assert(prev.contains(cell(origin.x + dx, origin.y + g)));
                    let k = choose|k: int| 0 <= k < prev.len() && prev[k] == cell(origin.x + dx, origin.y + g);
                    assert(cells@[k] == prev[k]);
                } else {
                    let k = choose|k: int| prev.len() <= k < cells@.len() && cells@[k] == cell(origin.x + dx, origin.y + gy);
                }
            }
            assert forall|k: int, l: int| 0 <= k < l < cells@.len() implies (#[trigger] cells@[k]).y <= (#[trigger] cells@[l]).y by {
                if l < prev.len() {
                    assert(cells@[k] == prev[k] && cells@[l] == prev[l]);
                } else if k < prev.len() {
                    assert(cells@[k] == prev[k]);
                }
            }
            assert forall|k: int, l: int| 0 <= k < l < cells@.len() && (#[trigger] cells@[k]).y == (#[trigger] cells@[l]).y
                implies before(leftward@[cells@[k].y - origin.y], cells@[k].x as int, cells@[l].x as int) by {
                if l < prev.len() {
                    assert(cells@[k] == prev[k] && cells@[l] == prev[l]);
                } else if k < prev.len() {
                    assert(cells@[k] == prev[k]);
                } else {
                    assert(cells@[k].y - origin.y == gy);
                }
            }
        }
        gy = gy + 1;
    }
    cells
}

} // verus!
