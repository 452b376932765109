//! Grid coordinates and the small value types that the simulation passes share.
use vstd::prelude::*;

verus! {

/// A cell of the world grid.
#[derive(Debug, Clone, Copy, PartialEq, Eq, Hash)]
pub struct CellPos {
    pub x: i32,
    pub y: i32,
}

/// A material, by its index in the content tables.
#[derive(Debug, Clone, Copy, PartialEq, Eq, Hash)]
pub struct MaterialId(pub u16);

/// A chunk of the world grid.
#[derive(Debug, Clone, Copy, PartialEq, Eq, Hash)]
pub struct ChunkPos {
    pub x: i32,
    pub y: i32,
}

/// The state of matter of a material.
#[derive(Debug, Clone, Copy, PartialEq, Eq)]
pub enum Phase {
    Empty,
    Solid,
    Powder,
    Liquid,
    Gas,
}

/// A fraction in sixteen-bit fixed point, by its raw value.
#[derive(Debug, Clone, Copy, PartialEq, Eq)]
pub struct Q16(pub u32);

impl CellPos {
    pub fn new(x: i32, y: i32) -> (p: CellPos)
        ensures
            p.x == x && p.y == y,
    {
        CellPos { x, y }
    }

    /// The cell `(dx, dy)` away.
    pub fn translated(self, dx: i32, dy: i32) -> (p: CellPos)
        requires
            i32::MIN <= self.x + dx <= i32::MAX,
            i32::MIN <= self.y + dy <= i32::MAX,
        ensures
            p.x == self.x + dx,
            p.y == self.y + dy,
    {
        CellPos { x: self.x + dx, y: self.y + dy }
    }
}

impl Q16 {
    pub fn from_raw(raw: u32) -> (q: Q16)
        ensures
            q.0 == raw,
    {
        Q16(raw)
    }

    pub fn raw(self) -> (r: u32)
        ensures
            r == self.0,
    {
        self.0
    }

    /// The product of two fractions, rounded down, kept to 32 bits.
    pub fn mul(self, other: Q16) -> (r: Q16)
        ensures
            r.0 == q16_product(self.0, other.0),
    {
        let a: u64 = self.0 as u64;
        let b: u64 = other.0 as u64;
        assert(a * b <= 0xffff_ffff * 0xffff_ffff) by (nonlinear_arith)
            requires
                a <= 0xffff_ffff,
                b <= 0xffff_ffff,
        ;
        Q16(#[verifier::truncate] ((a * b / 0x1_0000) as u32))
    }
}

/// The product of two sixteen-bit fixed-point fractions, rounded down, kept to
/// 32 bits.
pub open spec fn q16_product(a: u32, b: u32) -> u32 {
    #[verifier::truncate] ((a as int * b as int / 0x1_0000) as u32)
}

/// The cell containing subcell position `raw`, with `units` subcell units per cell.
pub open spec fn floor_cell_spec(raw: int, units: int) -> int {
    raw / units
}

/// The cell containing subcell position `raw` (rounding toward negative infinity).
pub fn floor_cell(raw: i64, units: i64) -> (r: i32)
    requires
        1 <= units,
        i32::MIN <= floor_cell_spec(raw as int, units as int) <= i32::MAX,
    ensures
        r == floor_cell_spec(raw as int, units as int),
{
    let q: i64 = raw / units;
    proof {
        let a: int = if raw >= 0 { raw as int } else { -raw };
        vstd::arithmetic::div_mod::lemma_fundamental_div_mod(a, units as int);
        vstd::arithmetic::div_mod::lemma_fundamental_div_mod(raw as int, units as int);
        let qa = a / (units as int);
        let ra = a % (units as int);
        assert(0 <= ra < units);
        assert(a == units * qa + ra);
        if raw >= 0 {
            assert(q == qa);
        } else {
            assert(q == -qa);
            assert(raw == units * (-qa) - ra) by (nonlinear_arith)
                requires
                    a == units * qa + ra,
                    raw == -a,
            ;
            if ra > 0 {
                assert(raw == units * (-qa - 1) + (units - ra)) by (nonlinear_arith)
                    requires
                        raw == units * (-qa) - ra,
            ;
                vstd::arithmetic::div_mod::lemma_div_basics(units as int);
                vstd::arithmetic::div_mod::lemma_fundamental_div_mod_converse(raw as int, units as int, -qa - 1, units - ra);
            } else {
                vstd::arithmetic::div_mod::lemma_fundamental_div_mod_converse(raw as int, units as int, -qa, 0);
            }
        }
        assert(-(a as int) <= q * units <= a) by (nonlinear_arith)
            requires
                q == qa || q == -qa,
                a == units * qa + ra,
                0 <= ra,
                units >= 1,
                qa >= 0,
        ;
        assert(q * units == units * q) by (nonlinear_arith);
    }
    if q * units > raw {
        (q - 1) as i32
    } else {
        q as i32
    }
}

/// An axis-aligned inclusive rectangle of cells.
#[derive(Debug, Clone, Copy, PartialEq, Eq)]
pub struct Footprint {
    pub x0: i32,
    pub y0: i32,
    pub x1: i32,
    pub y1: i32,
}

/// Whether `pos` lies inside `fp`.
pub open spec fn footprint_contains(fp: Footprint, pos: CellPos) -> bool {
    fp.x0 <= pos.x <= fp.x1 && fp.y0 <= pos.y <= fp.y1
}

impl Footprint {
    pub fn contains(&self, pos: CellPos) -> (r: bool)
        ensures
            r == footprint_contains(*self, pos),
    {
        pos.x >= self.x0 && pos.x <= self.x1 && pos.y >= self.y0 && pos.y <= self.y1
    }
}

/// One of the four grid directions.
#[derive(Debug, Clone, Copy, PartialEq, Eq)]
pub enum Dir {
    PosX,
    NegX,
    PosY,
    NegY,
}

/// The unit step of a direction.
pub open spec fn dir_offset(dir: Dir) -> (i32, i32) {
    match dir {
        Dir::PosX => (1, 0),
        Dir::NegX => (-1i32, 0i32),
        Dir::PosY => (0, 1),
        Dir::NegY => (0i32, -1i32),
    }
}

/// The position of a direction in `Dir::ALL`.
pub open spec fn dir_index(dir: Dir) -> int {
    match dir {
        Dir::PosX => 0,
        Dir::NegX => 1,
        Dir::PosY => 2,
        Dir::NegY => 3,
    }
}

impl Dir {
    /// All four directions, in index order.
    pub const ALL: [Dir; 4] = [Dir::PosX, Dir::NegX, Dir::PosY, Dir::NegY];

    /// The unit step of the direction.
    pub fn offset(self) -> (r: (i32, i32))
        ensures
            r == dir_offset(self),
    {
        match self {
            Dir::PosX => (1, 0),
            Dir::NegX => (-1, 0),
            Dir::PosY => (0, 1),
            Dir::NegY => (0, -1),
        }
    }

    /// The position of the direction in `Dir::ALL`.
    pub fn index(self) -> (r: usize)
        ensures
            r == dir_index(self),
            Self::ALL@[r as int] == self,
    {
        match self {
            Dir::PosX => 0,
            Dir::NegX => 1,
            Dir::PosY => 2,
            Dir::NegY => 3,
        }
    }
}

} // verus!
