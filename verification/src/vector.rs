//! Subcell vectors and the contact-side arithmetic of pixel bodies: the normal
//! of an entered face, relative closing speed and effective mass.
use vstd::prelude::*;
use crate::rotation::{abs, Spin, speed_at_spec, speed_in_range};

verus! {

/// A vector in subcell units.
#[derive(Debug, Clone, Copy, PartialEq, Eq)]
pub struct Vector {
    pub x: i64,
    pub y: i64,
}

/// Dot product over the integers.
pub open spec fn dot_spec(a: Vector, b: Vector) -> int {
    a.x * b.x + a.y * b.y
}

/// Two-dimensional cross product over the integers.
pub open spec fn cross_spec(a: Vector, b: Vector) -> int {
    a.x * b.y - a.y * b.x
}

/// Both coordinates are at most `bound` in magnitude.
pub open spec fn bounded(v: Vector, bound: int) -> bool {
    abs(v.x as int) <= bound && abs(v.y as int) <= bound
}

impl Vector {
    pub fn new(x: i64, y: i64) -> (v: Vector)
        ensures
            v.x == x && v.y == y,
    {
        Vector { x, y }
    }

    /// The center of cell `(cx, cy)` in subcell units.
    pub fn of_cell(cx: i32, cy: i32, units: i64) -> (v: Vector)
        requires
            1 <= units <= 0x1_0000,
        ensures
            v.x == cx * units + units / 2,
            v.y == cy * units + units / 2,
    {
        assert(-0x8000_0000_0000 <= cx * units <= 0x8000_0000_0000) by (nonlinear_arith)
            requires
                -0x8000_0000 <= cx <= 0x8000_0000,
                1 <= units <= 0x1_0000,
        ;
        assert(-0x8000_0000_0000 <= cy * units <= 0x8000_0000_0000) by (nonlinear_arith)
            requires
                -0x8000_0000 <= cy <= 0x8000_0000,
                1 <= units <= 0x1_0000,
        ;
        Vector::new((cx as i64) * units + units / 2, (cy as i64) * units + units / 2)
    }

    /// The midpoint of two vectors, each coordinate halved toward zero.
    pub fn midpoint(self, other: Vector) -> (v: Vector)
        requires
            i64::MIN <= self.x + other.x <= i64::MAX,
            i64::MIN <= self.y + other.y <= i64::MAX,
        ensures
            v.x == crate::arith::trunc_div_spec(self.x + other.x, 2),
            v.y == crate::arith::trunc_div_spec(self.y + other.y, 2),
    {
        Vector::new((self.x + other.x) / 2, (self.y + other.y) / 2)
    }

    /// This vector relative to `origin`.
    pub fn from(self, origin: Vector) -> (v: Vector)
        requires
            i64::MIN <= self.x - origin.x <= i64::MAX,
            i64::MIN <= self.y - origin.y <= i64::MAX,
        ensures
            v.x == self.x - origin.x,
            v.y == self.y - origin.y,
    {
        Vector::new(self.x - origin.x, self.y - origin.y)
    }

    pub fn dot(self, other: Vector) -> (r: i128)
        requires
            i128::MIN <= dot_spec(self, other) <= i128::MAX,
        ensures
            r == dot_spec(self, other),
    {
        proof {
            lemma_product_fits(self.x as int, other.x as int);
            lemma_product_fits(self.y as int, other.y as int);
        }
        (self.x as i128) * (other.x as i128) + (self.y as i128) * (other.y as i128)
    }

    pub fn cross(self, other: Vector) -> (r: i128)
        requires
            i128::MIN <= cross_spec(self, other) <= i128::MAX,
        ensures
            r == cross_spec(self, other),
    {
        proof {
            lemma_product_fits(self.x as int, other.y as int);
            lemma_product_fits(self.y as int, other.x as int);
        }
        (self.x as i128) * (other.y as i128) - (self.y as i128) * (other.x as i128)
    }

    /// The vector turned a quarter turn counterclockwise.
    pub fn perpendicular(self) -> (v: Vector)
        requires
            self.y > i64::MIN,
        ensures
            v.x == -self.y,
            v.y == self.x,
    {
        Vector::new(-self.y, self.x)
    }
}

proof fn lemma_product_fits(a: int, b: int)
    requires
        i64::MIN <= a <= i64::MAX,
        i64::MIN <= b <= i64::MAX,
    ensures
        -0x4000_0000_0000_0000_0000_0000_0000_0000 <= a * b <= 0x4000_0000_0000_0000_0000_0000_0000_0000,
{
    assert(-0x4000_0000_0000_0000_0000_0000_0000_0000 <= a * b <= 0x4000_0000_0000_0000_0000_0000_0000_0000)
        by (nonlinear_arith)
        requires
            -0x8000_0000_0000_0000 <= a <= 0x8000_0000_0000_0000,
            -0x8000_0000_0000_0000 <= b <= 0x8000_0000_0000_0000,
    ;
}

/// A vector is orthogonal to its perpendicular.
pub proof fn lemma_perpendicular_orthogonal(v: Vector)
    requires
        v.y > i64::MIN,
    ensures
        dot_spec(v, Vector { x: (-v.y) as i64, y: v.x }) == 0,
{
    assert(v.x * -v.y + v.y * v.x == 0) by (nonlinear_arith);
}

/// The cross product is antisymmetric, so a vector's cross product with itself is zero.
pub proof fn lemma_cross_antisymmetric(a: Vector, b: Vector)
    ensures
        cross_spec(a, b) == -cross_spec(b, a),
        cross_spec(a, a) == 0,
{
    assert(a.x * b.y - a.y * b.x == -(b.x * a.y - b.y * a.x)) by (nonlinear_arith);
    assert(a.x * a.y - a.y * a.x == 0) by (nonlinear_arith);
}

/// The face of a cell through which a move enters it.
#[derive(Debug, Clone, Copy, PartialEq, Eq)]
pub enum Axis {
    PosX,
    NegX,
    PosY,
    NegY,
}

/// The unit normal of a face, pointing out of the entered cell.
pub open spec fn normal_spec(axis: Axis) -> (int, int) {
    match axis {
        Axis::PosX => (1, 0),
        Axis::NegX => (-1, 0),
        Axis::PosY => (0, 1),
        Axis::NegY => (0, -1),
    }
}

impl Axis {
    /// The face entered by a move of `(dx, dy)` along its dominant component,
    /// horizontal on ties; none for no move.
    pub fn entering(dx: i32, dy: i32) -> (r: Option<Axis>)
        requires
            dx > i32::MIN,
            dy > i32::MIN,
        ensures
            (dx == 0 && dy == 0) <==> r is None,
            r matches Some(axis) ==> normal_spec(axis).0 * dx + normal_spec(axis).1 * dy < 0,
            abs(dx as int) >= abs(dy as int) && dx != 0 ==> r == Some(
                if dx > 0 { Axis::NegX } else { Axis::PosX },
            ),
            abs(dx as int) < abs(dy as int) ==> r == Some(
                if dy > 0 { Axis::NegY } else { Axis::PosY },
            ),
    {
        let adx: i32 = if dx < 0 { -dx } else { dx };
        let ady: i32 = if dy < 0 { -dy } else { dy };
        if adx >= ady && dx != 0 {
            if dx > 0 {
                assert(-1 * dx + 0 * dy < 0);
                Some(Axis::NegX)
            } else {
                assert(1 * dx + 0 * dy < 0);
                Some(Axis::PosX)
            }
        } else if dy != 0 {
            if dy > 0 {
                assert(0 * dx + -1 * dy < 0);
                Some(Axis::NegY)
            } else {
                assert(0 * dx + 1 * dy < 0);
                Some(Axis::PosY)
            }
        } else {
            None
        }
    }

    /// The unit normal of the face.
    pub fn normal(self) -> (v: Vector)
        ensures
            (v.x as int, v.y as int) == normal_spec(self),
    {
        match self {
            Axis::PosX => Vector::new(1, 0),
            Axis::NegX => Vector::new(-1, 0),
            Axis::PosY => Vector::new(0, 1),
            Axis::NegY => Vector::new(0, -1),
        }
    }
}

/// One party of a contact: its mass, moment of inertia, velocity at the
/// contact point and lever arm from its center of mass.
#[derive(Debug, Clone, Copy)]
pub struct Side {
    pub mass: i64,
    pub moment: i128,
    pub velocity: Vector,
    pub arm: Vector,
}

/// The effective mass a side presents along `direction`.
pub open spec fn side_effective_mass_spec(side: Side, direction: Vector) -> int {
    if side.moment == 0 {
        side.mass as int
    } else {
        let lever = cross_spec(side.arm, direction);
        let m = side.mass * side.moment / (side.moment + side.mass * lever * lever);
        if m >= 1 { m } else { 1 }
    }
}

/// Ranges for which a side's effective-mass arithmetic stays in range.
pub open spec fn side_in_range(side: Side, direction: Vector) -> bool {
    &&& 1 <= side.mass <= 0x100_0000_0000
    &&& 0 <= side.moment <= 0x1_0000_0000_0000_0000_0000
    &&& abs(cross_spec(side.arm, direction)) <= 0x100_0000_0000
}

impl Side {
    /// The side of a body with the given mass properties, center of mass,
    /// velocity and spin, at the contact point `point`.
    pub fn of(mass: i64, moment: i128, center: Vector, velocity: Vector, spin: Spin, point: Vector) -> (s: Side)
        requires
            bounded(center, 0x1000_0000_0000),
            bounded(point, 0x1000_0000_0000),
            bounded(velocity, 0x1000_0000_0000),
            abs(spin.0 as int) <= 0x100_0000,
        ensures
            s.mass == mass,
            s.moment == moment,
            s.arm.x == point.x - center.x,
            s.arm.y == point.y - center.y,
            s.velocity.x == velocity.x - speed_at_spec(spin.0 as int, s.arm.y as int),
            s.velocity.y == velocity.y + speed_at_spec(spin.0 as int, s.arm.x as int),
            bounded(s.velocity, 0x40_0000_0000_0000),
            bounded(s.arm, 0x2000_0000_0000),
    {
        let arm = point.from(center);
        proof {
            lemma_speed_small(spin.0 as int, arm.y as int);
            lemma_speed_small(spin.0 as int, arm.x as int);
        }
        let along_y = spin.speed_at(arm.y);
        let along_x = spin.speed_at(arm.x);
        Side {
            mass,
            moment,
            velocity: Vector::new(velocity.x - along_y, velocity.y + along_x),
            arm,
        }
    }

    /// A stander presents only its mass and velocity, with no rotation.
    pub fn standing(mass: i64, velocity: Vector) -> (s: Side)
        ensures
            s.mass == mass,
            s.moment == 0,
            s.velocity == velocity,
            s.arm == (Vector { x: 0, y: 0 }),
    {
        Side { mass, moment: 0, velocity, arm: Vector::new(0, 0) }
    }

    /// The effective mass along `direction`: the whole mass for a side that
    /// cannot turn, otherwise reduced by the lever arm, never below one.
    pub fn effective_mass(&self, direction: Vector) -> (m: i128)
        requires
            side_in_range(*self, direction),
            bounded(self.arm, 0x1000_0000_0000),
            bounded(direction, 0x1000_0000_0000),
        ensures
            m == side_effective_mass_spec(*self, direction),
            1 <= m <= self.mass,
    {
        let mass: i128 = self.mass as i128;
        if self.moment == 0 {
            return mass;
        }
        proof {
            lemma_product_fits(self.arm.x as int, direction.y as int);
            lemma_product_fits(self.arm.y as int, direction.x as int);
        }
        let lever = self.arm.cross(direction);
        proof {
            lemma_effective_mass_bounds(mass as int, self.moment as int, lever as int);
        }
        let m: i128 = mass * self.moment / (self.moment + mass * lever * lever);
        if m >= 1 { m } else { 1 }
    }
}

proof fn lemma_speed_small(spin: int, lever: int)
    requires
        abs(spin) <= 0x100_0000,
        abs(lever) <= 0x2000_0000_0000,
    ensures
        speed_in_range(spin, lever),
        abs(speed_at_spec(spin, lever)) <= 0x20_0000_0000_0000,
{
    let n = crate::rotation::TAU_NUMERATOR * spin * lever;
    assert(-0x8000_0000_0000_0000_0000 <= n <= 0x8000_0000_0000_0000_0000) by (nonlinear_arith)
        requires
            n == 710 * spin * lever,
            -0x100_0000 <= spin <= 0x100_0000,
            -0x2000_0000_0000 <= lever <= 0x2000_0000_0000,
    ;
    crate::arith::lemma_round_div_within(n, crate::rotation::RADIANS_PER_TURN as int, 0x20_0000_0000_0000);
}

proof fn lemma_effective_mass_bounds(mass: int, moment: int, lever: int)
    requires
        1 <= mass <= 0x100_0000_0000,
        1 <= moment <= 0x1_0000_0000_0000_0000_0000,
        abs(lever) <= 0x100_0000_0000,
    ensures
        mass * moment <= 0x100_0000_0000_0000_0000_0000_0000_0000,
        moment <= moment + mass * lever * lever <= 0x200_0000_0000_0000_0000_0000_0000_0000,
        mass * lever <= 0x1_0000_0000_0000_0000_0000,
        -0x1_0000_0000_0000_0000_0000 <= mass * lever,
        mass * moment / (moment + mass * lever * lever) <= mass,
        mass * moment / (moment + mass * lever * lever) >= 0,
{
    assert(mass * moment <= 0x100_0000_0000_0000_0000_0000_0000_0000) by (nonlinear_arith)
        requires
            1 <= mass <= 0x100_0000_0000,
            1 <= moment <= 0x1_0000_0000_0000_0000_0000,
    ;
    assert(-0x1_0000_0000_0000_0000_0000 <= mass * lever <= 0x1_0000_0000_0000_0000_0000) by (nonlinear_arith)
        requires
            1 <= mass <= 0x100_0000_0000,
            -0x100_0000_0000 <= lever <= 0x100_0000_0000,
    ;
    assert(0 <= mass * lever * lever <= 0x100_0000_0000_0000_0000_0000_0000_0000) by (nonlinear_arith)
        requires
            1 <= mass <= 0x100_0000_0000,
            -0x100_0000_0000 <= lever <= 0x100_0000_0000,
    ;
    let d = moment + mass * lever * lever;
    assert(mass * moment / d <= mass) by (nonlinear_arith)
        requires
            d >= moment >= 1,
            mass >= 1,
    ;
    assert(mass * moment / d >= 0) by (nonlinear_arith)
        requires
            d >= 1,
            mass * moment >= 0,
    ;
}

/// Both parties of a contact; a missing party is immovable.
#[derive(Debug, Clone, Copy)]
pub struct Sides {
    pub mine: Side,
    pub theirs: Option<Side>,
}

/// The relative velocity of the two parties along `direction`.
pub open spec fn closing_spec(sides: Sides, direction: Vector) -> int {
    let theirs = match sides.theirs {
        Some(party) => party.velocity,
        None => Vector { x: 0, y: 0 },
    };
    (sides.mine.velocity.x - theirs.x) * direction.x + (sides.mine.velocity.y - theirs.y) * direction.y
}

/// The combined effective mass of two parties.
pub open spec fn pair_effective_mass(mine: int, theirs: int) -> int {
    let m = mine * theirs / (mine + theirs);
    if m >= 1 { m } else { 1 }
}

impl Sides {
    /// Relative velocity along `direction`, positive when the parties separate.
    pub fn closing(&self, direction: Vector) -> (r: i128)
        requires
            bounded(self.mine.velocity, 0x40_0000_0000_0000),
            self.theirs matches Some(t) ==> bounded(t.velocity, 0x40_0000_0000_0000),
            bounded(direction, 0x1000_0000_0000),
        ensures
            r == closing_spec(*self, direction),
    {
        let theirs = match &self.theirs {
            Some(party) => party.velocity,
            None => Vector::new(0, 0),
        };
        let relative = self.mine.velocity.from(theirs);
        assert(-0x10_0000_0000_0000_0000_0000_0000 <= relative.x * direction.x <= 0x10_0000_0000_0000_0000_0000_0000)
            by (nonlinear_arith)
            requires
                -0x80_0000_0000_0000 <= relative.x <= 0x80_0000_0000_0000,
                -0x1000_0000_0000 <= direction.x <= 0x1000_0000_0000,
        ;
        assert(-0x10_0000_0000_0000_0000_0000_0000 <= relative.y * direction.y <= 0x10_0000_0000_0000_0000_0000_0000)
            by (nonlinear_arith)
            requires
                -0x80_0000_0000_0000 <= relative.y <= 0x80_0000_0000_0000,
                -0x1000_0000_0000 <= direction.y <= 0x1000_0000_0000,
        ;
        relative.dot(direction)
    }

    /// The effective mass of the pair along `direction`: one side's own when
    /// the other is immovable, else their reduced mass, never below one.
    pub fn effective_mass(&self, direction: Vector) -> (m: i128)
        requires
            side_in_range(self.mine, direction),
            bounded(self.mine.arm, 0x1000_0000_0000),
            self.theirs matches Some(t) ==> side_in_range(t, direction) && bounded(t.arm, 0x1000_0000_0000),
            bounded(direction, 0x1000_0000_0000),
        ensures
            self.theirs is None ==> m == side_effective_mass_spec(self.mine, direction),
            self.theirs matches Some(t) ==> m == pair_effective_mass(
                side_effective_mass_spec(self.mine, direction),
                side_effective_mass_spec(t, direction),
            ),
            1 <= m <= self.mine.mass,
    {
        let mine = self.mine.effective_mass(direction);
        match &self.theirs {
            Some(party) => {
                let theirs = party.effective_mass(direction);
                proof {
                    lemma_pair_mass_bounds(mine as int, theirs as int);
                }
                let m: i128 = mine * theirs / (mine + theirs);
                if m >= 1 { m } else { 1 }
            },
            None => mine,
        }
    }
}

/// The reduced mass of two parties is at most the smaller of the two.
pub proof fn lemma_pair_mass_bounds(a: int, b: int)
    requires
        1 <= a <= 0x100_0000_0000,
        1 <= b <= 0x100_0000_0000,
    ensures
        a * b <= 0x1_0000_0000_0000_0000_0000,
        1 <= pair_effective_mass(a, b) <= a,
        pair_effective_mass(a, b) <= b,
{
    assert(a * b <= 0x1_0000_0000_0000_0000_0000) by (nonlinear_arith)
        requires
            1 <= a <= 0x100_0000_0000,
            1 <= b <= 0x100_0000_0000,
    ;
    assert(a * b / (a + b) <= a) by (nonlinear_arith)
        requires
            a >= 1,
            b >= 1,
    ;
    assert(a * b / (a + b) <= b) by (nonlinear_arith)
        requires
            a >= 1,
            b >= 1,
    ;
}

} // verus!
