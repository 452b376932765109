use fallingsand_sim::rotation::Spin;
use fallingsand_sim::vector::{Axis, Side, Sides, Vector};

#[test]
fn vectors_of_cells_and_arithmetic() {
    assert_eq!(Vector::of_cell(2, -1, 256), Vector::new(640, -128));
    assert_eq!(Vector::new(3, 4).midpoint(Vector::new(6, -7)), Vector::new(4, -1));
    assert_eq!(Vector::new(5, 5).from(Vector::new(2, 7)), Vector::new(3, -2));
    assert_eq!(Vector::new(1, 2).dot(Vector::new(3, 4)), 11);
    assert_eq!(Vector::new(1, 2).cross(Vector::new(3, 4)), -2);
    assert_eq!(Vector::new(3, 4).cross(Vector::new(1, 2)), 2);
    assert_eq!(Vector::new(3, 4).perpendicular(), Vector::new(-4, 3));
}

#[test]
fn perpendicular_vectors_are_orthogonal() {
    for x in -5..=5i64 {
        for y in -5..=5i64 {
            let v = Vector::new(x, y);
            assert_eq!(v.dot(v.perpendicular()), 0);
            assert_eq!(v.cross(v), 0);
        }
    }
}

#[test]
fn entering_picks_the_dominant_axis() {
    assert_eq!(Axis::entering(2, 1), Some(Axis::NegX));
    assert_eq!(Axis::entering(-1, 1), Some(Axis::PosX));
    assert_eq!(Axis::entering(0, 3), Some(Axis::NegY));
    assert_eq!(Axis::entering(1, -3), Some(Axis::PosY));
    assert_eq!(Axis::entering(0, 0), None);
}

#[test]
fn entering_normals_oppose_the_move() {
    for dx in -4..=4 {
        for dy in -4..=4 {
            if let Some(axis) = Axis::entering(dx, dy) {
                let n = axis.normal();
                assert!(n.x * (dx as i64) + n.y * (dy as i64) < 0);
            }
        }
    }
    assert_eq!(Axis::NegX.normal(), Vector::new(-1, 0));
    assert_eq!(Axis::PosY.normal(), Vector::new(0, 1));
}

#[test]
fn side_effective_mass_shrinks_with_the_lever() {
    let standing = Side::standing(5, Vector::new(1, 1));
    assert_eq!(standing.effective_mass(Vector::new(0, 1)), 5);
    let side = Side::of(10, 100, Vector::new(0, 0), Vector::new(0, 0), Spin::zero(), Vector::new(3, 0));
    assert_eq!(side.arm, Vector::new(3, 0));
    assert_eq!(side.effective_mass(Vector::new(1, 0)), 10);
    assert_eq!(side.effective_mass(Vector::new(0, 1)), 5);
}

#[test]
fn side_velocity_includes_the_spin() {
    let side = Side::of(10, 100, Vector::new(0, 0), Vector::new(7, 0), Spin::from_raw(1000), Vector::new(1_000_000, 0));
    assert_eq!(side.velocity, Vector::new(7, 5992));
}

#[test]
fn sides_close_and_share_mass() {
    let pair = Sides { mine: Side::standing(6, Vector::new(2, 0)), theirs: Some(Side::standing(3, Vector::new(-1, 0))) };
    assert_eq!(pair.closing(Vector::new(1, 0)), 3);
    assert_eq!(pair.effective_mass(Vector::new(1, 0)), 2);
    let alone = Sides { mine: Side::standing(6, Vector::new(2, 0)), theirs: None };
    assert_eq!(alone.closing(Vector::new(1, 0)), 2);
    assert_eq!(alone.effective_mass(Vector::new(1, 0)), 6);
}
