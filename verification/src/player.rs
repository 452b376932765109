//! The player's stamp in the grid: its rectangular shape, the shading
//! pattern of its cells and the raster of cells it covers.
use vstd::prelude::*;
use rustc_hash::FxHashMap;
use crate::geometry::{CellPos, Footprint, footprint_contains};
use crate::raster::Raster;
use crate::shape::Shape;
use crate::rotation::abs;

verus! {

/// Columns of the player sprite.
pub const PLAYER_COLS: usize = 3;
/// Rows of the standing player.
pub const STAND_ROWS: usize = 9;
/// Rows of the ducking player.
pub const DUCK_ROWS: usize = 5;
/// Ticks without liquid around the player before its displaced liquid drains.
pub const DRAIN_DECAY_TICKS: u8 = 10;

pub const ROBE: u8 = 0;
pub const HAIR: u8 = 1;
pub const SHADE: u8 = 2;
pub const DARK: u8 = 3;
pub const BELT: u8 = 4;
pub const BUCKLE: u8 = 5;

pub const ROWS_9: [[u8; PLAYER_COLS]; 9] = [
    [ROBE, ROBE, HAIR],
    [ROBE, HAIR, HAIR],
    [SHADE, SHADE, SHADE],
    [ROBE, ROBE, SHADE],
    [ROBE, ROBE, SHADE],
    [BELT, BELT, BUCKLE],
    [ROBE, ROBE, SHADE],
    [ROBE, ROBE, SHADE],
    [SHADE, SHADE, DARK],
];

pub const ROWS_8: [[u8; PLAYER_COLS]; 8] = [
    [ROBE, HAIR, HAIR],
    [SHADE, SHADE, SHADE],
    [ROBE, ROBE, SHADE],
    [ROBE, ROBE, SHADE],
    [BELT, BELT, BUCKLE],
    [ROBE, ROBE, SHADE],
    [ROBE, ROBE, SHADE],
    [SHADE, SHADE, DARK],
];

pub const ROWS_7: [[u8; PLAYER_COLS]; 7] = [
    [ROBE, HAIR, HAIR],
    [SHADE, SHADE, SHADE],
    [ROBE, ROBE, SHADE],
    [ROBE, ROBE, SHADE],
    [BELT, BELT, BUCKLE],
    [ROBE, ROBE, SHADE],
    [SHADE, SHADE, DARK],
];

pub const ROWS_6: [[u8; PLAYER_COLS]; 6] = [
    [ROBE, HAIR, HAIR],
    [SHADE, SHADE, SHADE],
    [ROBE, ROBE, SHADE],
    [BELT, BELT, BUCKLE],
    [ROBE, ROBE, SHADE],
    [SHADE, SHADE, DARK],
];

pub const ROWS_5: [[u8; PLAYER_COLS]; 5] = [
    [ROBE, HAIR, HAIR],
    [SHADE, SHADE, SHADE],
    [ROBE, ROBE, SHADE],
    [BELT, BELT, BUCKLE],
    [SHADE, SHADE, DARK],
];

/// The shading rows of a player `rows` tall (any other height uses the
/// standing pattern), top row first.
pub open spec fn pattern_spec(rows: usize) -> Seq<[u8; PLAYER_COLS]> {
    if rows == 5 {
        ROWS_5@
    } else if rows == 6 {
        ROWS_6@
    } else if rows == 7 {
        ROWS_7@
    } else if rows == 8 {
        ROWS_8@
    } else {
        ROWS_9@
    }
}

/// The player's shape at a height of `rows`.
pub fn player_shape(rows: usize) -> (r: Shape)
    requires
        rows <= 0x1000,
    ensures
        r.wf(),
        r.w == PLAYER_COLS,
        r.h == (if rows >= 1 { rows as int } else { 1 }),
        forall|c: (i32, i32)| r.cells@.contains(c) <==> (0 <= c.0 < r.w && 0 <= c.1 < r.h),
{
    Shape::rect(PLAYER_COLS as i32, rows as i32)
}

/// The shading rows of a player `rows` tall.
pub fn pattern(rows: usize) -> (r: &'static [[u8; PLAYER_COLS]])
    ensures
        r@ == pattern_spec(rows),
{
    if rows == 5 {
        ROWS_5.as_slice()
    } else if rows == 6 {
        ROWS_6.as_slice()
    } else if rows == 7 {
        ROWS_7.as_slice()
    } else if rows == 8 {
        ROWS_8.as_slice()
    } else {
        ROWS_9.as_slice()
    }
}

/// The shade of the cell with local index `local` (row-major from the top,
/// three to a row) of a player `rows` tall, mirrored when facing left.
pub open spec fn shade_spec(local: int, rows: int, facing_left: bool) -> u8 {
    let row = local / 3;
    let col = if facing_left { 2 - local % 3 } else { local % 3 };
    pattern_spec(rows as usize)[row][col]
}

/// The shade of a player cell.
pub fn shade_for(local: u16, rows: u8, facing_left: bool) -> (r: u8)
    requires
        (local / 3) < pattern_spec(rows as usize).len(),
    ensures
        r == shade_spec(local as int, rows as int, facing_left),
{
    let row: usize = (local / (PLAYER_COLS as u16)) as usize;
    let mut col: usize = (local % (PLAYER_COLS as u16)) as usize;
    if facing_left {
        col = PLAYER_COLS - 1 - col;
    }
    let rows_pattern = pattern(rows as usize);
    rows_pattern[row][col]
}

/// Footprints small and near enough to the origin for stamping.
pub open spec fn stampable(fp: Footprint) -> bool {
    &&& -0x1000_0000 <= fp.x0 <= fp.x1 + 1 <= 0x1000_0000
    &&& -0x1000_0000 <= fp.y0 <= fp.y1 + 1 <= 0x1000_0000
    &&& (fp.y1 - fp.y0) * 3 + (fp.x1 - fp.x0) <= 0xffff
}

/// The cell of the `k`-th entry of a footprint's raster, row by row from the
/// bottom, with its local index counted from the top row.
pub open spec fn raster_entry(fp: Footprint, k: int) -> (CellPos, u16) {
    let w = fp.x1 - fp.x0 + 1;
    let x = fp.x0 + k % w;
    let y = fp.y0 + k / w;
    (CellPos { x: x as i32, y: y as i32 }, ((fp.y1 - y) * 3 + (x - fp.x0)) as u16)
}

/// The raster of the player's footprint: every cell, bottom row first, each
/// with its local index counted from the top row.
pub fn player_raster(fp: Footprint) -> (r: Raster)
    requires
        stampable(fp),
    ensures
        r.wf(),
        r.cells@.len() == (fp.x1 - fp.x0 + 1) * (fp.y1 - fp.y0 + 1),
        forall|k: int| 0 <= k < r.cells@.len() ==> #[trigger] r.cells@[k] == raster_entry(fp, k),
{
    let mut raster = Raster::new();
    let w: i32 = fp.x1 - fp.x0 + 1;
    let mut y: i32 = fp.y0;
    while y <= fp.y1
        invariant
            stampable(fp),
            w == fp.x1 - fp.x0 + 1,
            fp.y0 <= y <= fp.y1 + 1,
            raster.wf(),
            raster.cells@.len() == (y - fp.y0) * w,
            forall|k: int| 0 <= k < raster.cells@.len() ==> #[trigger] raster.cells@[k] == raster_entry(fp, k),
        decreases fp.y1 + 1 - y,
    {
        let mut x: i32 = fp.x0;
        while x <= fp.x1
            invariant
                stampable(fp),
                w == fp.x1 - fp.x0 + 1,
                fp.y0 <= y <= fp.y1,
                fp.x0 <= x <= fp.x1 + 1,
                raster.wf(),
                raster.cells@.len() == (y - fp.y0) * w + (x - fp.x0),
                forall|k: int| 0 <= k < raster.cells@.len() ==> #[trigger] raster.cells@[k] == raster_entry(fp, k),
            decreases fp.x1 + 1 - x,
        {
            let pos = CellPos::new(x, y);
            let row: u16 = (fp.y1 - y) as u16;
            let col: u16 = (x - fp.x0) as u16;
            proof {
                assert(0 <= row * 3 + col <= 0xffff) by (nonlinear_arith)
                    requires
                        0 <= row <= fp.y1 - fp.y0,
                        0 <= col <= fp.x1 - fp.x0,
                        (fp.y1 - fp.y0) * 3 + (fp.x1 - fp.x0) <= 0xffff,
                ;
            }
            let local: u16 = row * (PLAYER_COLS as u16) + col;
            let ghost n = raster.cells@.len();
            proof {
                let k = n as int;
                assert(k % (w as int) == x - fp.x0 && k / (w as int) == y - fp.y0) by (nonlinear_arith)
                    requires
                        k == (y - fp.y0) * w + (x - fp.x0),
                        0 <= x - fp.x0 < w,
                        0 <= y - fp.y0,
                ;
                assert(raster_entry(fp, k) == (pos, local));
                if exists|i: int| 0 <= i < raster.cells@.len() && (#[trigger] raster.cells@[i]).0 == pos {
                    let i = choose|i: int| 0 <= i < raster.cells@.len() && (#[trigger] raster.cells@[i]).0 == pos;
                    assert(raster.cells@[i] == raster_entry(fp, i));
                    assert(0 <= i / (w as int) && i / (w as int) < y - fp.y0 || (i / (w as int) == y - fp.y0 && i % (w as int) < x - fp.x0)) by (nonlinear_arith)
                        requires
                            0 <= i < (y - fp.y0) * w + (x - fp.x0),
                            0 <= x - fp.x0 < w,
                            w >= 1,
                    ;
                }
            }
            let added = raster.insert(pos, local);
            assert(added);
            x = x + 1;
        }
        assert((y + 1 - fp.y0) * w == (y - fp.y0) * w + w) by (nonlinear_arith);
        y = y + 1;
    }
    assert((fp.y1 + 1 - fp.y0) * w == (fp.x1 - fp.x0 + 1) * (fp.y1 - fp.y0 + 1)) by (nonlinear_arith)
        requires
            w == fp.x1 - fp.x0 + 1,
    ;
    raster
}

/// Whether a raster lists exactly the cells of a footprint: as many as its
/// area, with both corners among them.
pub open spec fn covers_exactly_spec(raster: &Raster, fp: Footprint) -> bool {
    &&& raster.cells@.len() == (fp.x1 - fp.x0 + 1) * (fp.y1 - fp.y0 + 1)
    &&& exists|i: int| 0 <= i < raster.cells@.len() && (#[trigger] raster.cells@[i]).0 == CellPos { x: fp.x0, y: fp.y0 }
    &&& exists|i: int| 0 <= i < raster.cells@.len() && (#[trigger] raster.cells@[i]).0 == CellPos { x: fp.x1, y: fp.y1 }
}

/// Whether a raster lists exactly the cells of a footprint.
pub fn covers_exactly(raster: &Raster, fp: Footprint) -> (r: bool)
    requires
        raster.wf(),
        stampable(fp),
    ensures
        r == covers_exactly_spec(raster, fp),
{
    assert(0 <= (fp.x1 - fp.x0 + 1) * (fp.y1 - fp.y0 + 1) <= 0x5556_0000) by (nonlinear_arith)
        requires
            0 <= fp.x1 - fp.x0 + 1,
            0 <= fp.y1 - fp.y0 + 1,
            (fp.y1 - fp.y0) * 3 + (fp.x1 - fp.x0) <= 0xffff,
    ;
    let area: usize = ((fp.x1 - fp.x0 + 1) * (fp.y1 - fp.y0 + 1)) as usize;
    raster.cells.len() == area && raster.covers(CellPos::new(fp.x0, fp.y0))
        && raster.covers(CellPos::new(fp.x1, fp.y1))
}

/// The controls a walker reads each step: horizontal direction, jump held and
/// just pressed, down, and flying.
#[derive(Debug, Clone, Copy, Default, PartialEq, Eq)]
pub struct StepInput {
    pub move_x: i8,
    pub jump: bool,
    pub jump_pressed: bool,
    pub down: bool,
    pub fly: bool,
}

/// The player's current stamp in the grid: its raster, height and facing,
/// the liquid it displaced (by cell key, with the liquid's density) and how
/// long it has been out of liquid.
pub struct PlayerStamp {
    pub raster: Option<Raster>,
    pub rows: u8,
    pub facing_left: bool,
    pub displaced: FxHashMap<u64, i32>,
    pub dry_ticks: u8,
}

impl PlayerStamp {
    /// An unstamped player.
    pub fn new() -> (r: PlayerStamp)
        ensures
            r.raster is None,
            r.rows == 0,
            !r.facing_left,
            r.displaced@ == Map::<u64, i32>::empty(),
            r.dry_ticks == 0,
    {
        PlayerStamp { raster: None, rows: 0, facing_left: false, displaced: FxHashMap::default(), dry_ticks: 0 }
    }

    pub fn is_stamped(&self) -> (r: bool)
        ensures
            r == self.raster is Some,
    {
        self.raster.is_some()
    }

    pub fn facing_left(&self) -> (r: bool)
        ensures
            r == self.facing_left,
    {
        self.facing_left
    }

    /// Whether the stamp covers `pos`.
    pub fn covers(&self, pos: CellPos) -> (r: bool)
        requires
            self.raster matches Some(raster) ==> raster.wf(),
        ensures
            r == (self.raster matches Some(raster) && exists|i: int| 0 <= i < raster.cells@.len() && (#[trigger] raster.cells@[i]).0 == pos),
    {
        match &self.raster {
            Some(raster) => raster.covers(pos),
            None => false,
        }
    }
}

/// Whether stamping at footprint `fp` facing `facing_left` would leave the
/// stamp as it is: same height, same facing, and the raster already covers
/// exactly the footprint.
pub fn stamp_unchanged(stamp: &PlayerStamp, fp: Footprint, facing_left: bool) -> (r: bool)
    requires
        stampable(fp),
        stamp.raster matches Some(raster) ==> raster.wf(),
    ensures
        r == (stamp.rows == ((fp.y1 - fp.y0 + 1) as u8) && stamp.facing_left == facing_left
            && (stamp.raster matches Some(raster) && covers_exactly_spec(&raster, fp))),
{
    let rows: u8 = (fp.y1 - fp.y0 + 1) as u8;
    stamp.rows == rows && stamp.facing_left == facing_left && match &stamp.raster {
        Some(raster) => covers_exactly(raster, fp),
        None => false,
    }
}

/// Ages the displaced liquid of a stamp: it stays while liquid surrounds the
/// player, and drains after enough dry ticks in a row.
pub fn settle_drain(stamp: &mut PlayerStamp, ring_has_liquid: bool)
    ensures
        old(stamp).displaced@.is_empty() ==> final(stamp).dry_ticks == 0 && final(stamp).displaced@ == old(stamp).displaced@,
        !old(stamp).displaced@.is_empty() && ring_has_liquid ==> final(stamp).dry_ticks == 0
            && final(stamp).displaced@ == old(stamp).displaced@,
        !old(stamp).displaced@.is_empty() && !ring_has_liquid && old(stamp).dry_ticks + 1 >= DRAIN_DECAY_TICKS
            ==> final(stamp).dry_ticks == 0 && final(stamp).displaced@ == Map::<u64, i32>::empty(),
        !old(stamp).displaced@.is_empty() && !ring_has_liquid && old(stamp).dry_ticks + 1 < DRAIN_DECAY_TICKS
            ==> final(stamp).dry_ticks == old(stamp).dry_ticks + 1 && final(stamp).displaced@ == old(stamp).displaced@,
        final(stamp).rows == old(stamp).rows,
        final(stamp).facing_left == old(stamp).facing_left,
{
    if stamp.displaced.is_empty() {
        stamp.dry_ticks = 0;
        return;
    }
    if ring_has_liquid {
        stamp.dry_ticks = 0;
    } else if stamp.dry_ticks as u16 + 1 >= DRAIN_DECAY_TICKS as u16 {
        stamp.displaced.clear();
        stamp.dry_ticks = 0;
    } else {
        stamp.dry_ticks = stamp.dry_ticks + 1;
    }
}

/// Removes the stamp, handing back the raster whose cells the caller clears,
/// and forgets the displaced liquid.
pub fn unstamp_player(stamp: &mut PlayerStamp) -> (r: Option<Raster>)
    ensures
        final(stamp).raster is None,
        final(stamp).displaced@ == Map::<u64, i32>::empty(),
        final(stamp).dry_ticks == 0,
        final(stamp).rows == old(stamp).rows,
        final(stamp).facing_left == old(stamp).facing_left,
{
    let raster = stamp.raster.take();
    stamp.displaced.clear();
    stamp.dry_ticks = 0;
    raster
}

} // verus!
