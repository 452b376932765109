use fallingsand_sim::coarse_rotation;
use fallingsand_sim::rotation::{rotate_offset, Spin};

#[test]
fn quarter_turns_rotate_exactly() {
    assert_eq!(rotate_offset(0, (0, 0), 3, 1, 256), (3, 1));
    assert_eq!(rotate_offset(64, (0, 0), 3, 1, 256), (-1, 3));
    assert_eq!(rotate_offset(128, (0, 0), 3, 1, 256), (-3, -1));
    assert_eq!(rotate_offset(192, (0, 0), 3, 1, 256), (1, -3));
    assert_eq!(rotate_offset(256, (0, 0), 3, 1, 256), (3, 1));
}

#[test]
fn quarter_turns_ignore_the_center_of_mass() {
    for step in [0u32, 64, 128, 192] {
        assert_eq!(rotate_offset(step, (900, -300), 5, -2, 256), rotate_offset(step, (0, 0), 5, -2, 256));
    }
}

#[test]
fn a_small_step_shears_far_cells() {
    assert_eq!(rotate_offset(1, (0, 0), 100, 0, 256), (100, 2));
    assert_eq!(rotate_offset(1, (0, 0), 10, 0, 256), (10, 0));
}

#[test]
fn rotation_keeps_distinct_cells_distinct() {
    for step in [1u32, 7, 20, 33, 77, 150, 201] {
        let mut seen = Vec::new();
        for dx in -6..=6 {
            for dy in -6..=6 {
                let r = rotate_offset(step, (128, 128), dx, dy, 256);
                assert!(!seen.contains(&r), "step {step} maps two cells to {r:?}");
                seen.push(r);
            }
        }
    }
}

#[test]
fn spin_speed_at_a_lever() {
    assert_eq!(Spin::from_raw(1000).speed_at(1_000_000), 5992);
    assert_eq!(Spin::from_raw(1000).speed_at(-1_000_000), -5992);
    assert_eq!(Spin::from_raw(-1000).speed_at(1_000_000), -5992);
    assert_eq!(Spin::zero().speed_at(1_000_000), 0);
}

#[test]
fn spin_for_speed_inverts_speed_at() {
    assert_eq!(Spin::for_speed_at(5992, 1_000_000).raw(), 1000);
    assert_eq!(Spin::for_speed_at(5992, 0).raw(), Spin::for_speed_at(5992, 1).raw());
}

#[test]
fn spin_from_angular_impulse() {
    assert_eq!(Spin::from_angular_impulse(710, 118_489_088).raw(), 1);
    assert_eq!(Spin::from_angular_impulse(-710, 118_489_088).raw(), -1);
    assert_eq!(Spin::from_angular_impulse(1_000_000, 0).raw(), 0);
    assert_eq!(Spin::from_angular_impulse(1, 118_489_088).raw(), 0);
}

#[test]
fn spin_clamps_and_adds() {
    assert_eq!(Spin::from_raw(50).clamped(Spin::from_raw(20)).raw(), 20);
    assert_eq!(Spin::from_raw(-50).clamped(Spin::from_raw(20)).raw(), -20);
    assert_eq!(Spin::from_raw(5).clamped(Spin::from_raw(20)).raw(), 5);
    assert_eq!(Spin::from_raw(5).add(Spin::from_raw(-8)).raw(), -3);
    let mut s = Spin::from_raw(7);
    s.add_assign(Spin::from_raw(3));
    assert_eq!(s.raw(), 10);
}

#[test]
fn coarse_steps_quantize_to_the_nearest() {
    assert_eq!(coarse_rotation::quantize_step(0), 0);
    assert_eq!(coarse_rotation::quantize_step(262_144), 16);
    assert_eq!(coarse_rotation::quantize_step(-262_144), 48);
    assert_eq!(coarse_rotation::quantize_step(8_192), 1);
    assert_eq!(coarse_rotation::quantize_step(8_191), 0);
    assert_eq!(coarse_rotation::quantize_step(8_000), 0);
    assert_eq!(coarse_rotation::quantize_step(1_048_576), 0);
}

#[test]
fn coarse_quarter_turns_rotate_exactly() {
    assert_eq!(coarse_rotation::rotate_offset(16, 2, 1), (-1, 2));
    assert_eq!(coarse_rotation::rotate_offset(32, 2, 1), (-2, -1));
    assert_eq!(coarse_rotation::rotate_vector(48, 5, 0), (0, -5));
}

#[test]
fn coarse_rotation_keeps_distinct_vectors_distinct() {
    for step in 0u32..64 {
        let mut seen = Vec::new();
        for x in -5..=5i64 {
            for y in -5..=5i64 {
                let r = coarse_rotation::rotate_vector(step, x * 1000, y * 1000);
                assert!(!seen.contains(&r));
                seen.push(r);
            }
        }
    }
}

#[test]
fn a_whole_turn_later_gives_the_same_step_and_rotation() {
    for angle in [0i64, 8_191, 8_192, 262_144, 700_001] {
        assert_eq!(coarse_rotation::quantize_step(angle + 1_048_576), coarse_rotation::quantize_step(angle));
    }
    for step in [0u32, 5, 16, 37, 63] {
        assert_eq!(coarse_rotation::rotate_vector(step + 64, 1234, -567), coarse_rotation::rotate_vector(step, 1234, -567));
    }
}
