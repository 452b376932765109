use fallingsand_sim::buoyancy::{
    apply_fluid_drag, at_waterline, cell_weight, displaced_medium, fluid_drag, integrate_forces, net_lift, Near,
};
use fallingsand_sim::geometry::{CellPos, MaterialId, Phase, Q16};
use fallingsand_sim::rotation::Spin;
use fallingsand_sim::state::{Body, Freedoms, Slot};

fn at(x: i32, y: i32) -> CellPos {
    CellPos { x, y }
}

fn slot(density_milli: i32) -> Slot {
    Slot { local: (0, 0), material: MaterialId(1), density_milli, restitution: Q16::from_raw(0), friction: Q16::from_raw(0) }
}

fn near(phase: Phase, density_milli: i32) -> Option<Near> {
    Some(Near { owned: false, phase, density_milli, vx: 0, vy: 0 })
}

fn body(density_milli: i32, vx: i64, vy: i64, settles: bool) -> Body {
    Body {
        id: 1,
        slots: vec![slot(density_milli)],
        raster: vec![at(0, 0)],
        anchor: at(0, 0),
        step: 0,
        vx,
        vy,
        spin: Spin::zero(),
        acc_x: 0,
        acc_y: 0,
        acc_turn: 0,
        mass: density_milli as i64,
        moment: 0,
        radius: 1,
        restitution: Q16::from_raw(0),
        friction: Q16::from_raw(0),
        weight: 0,
        freedoms: Freedoms::all(),
        settles,
        assists: false,
        was_grounded: false,
        parked: false,
    }
}

/// A single cell with water right, left and below it and air above it.
fn floating_surroundings() -> Vec<Option<Near>> {
    vec![near(Phase::Liquid, 1000), near(Phase::Liquid, 1000), near(Phase::Gas, 1), near(Phase::Liquid, 1000)]
}

#[test]
fn displaced_medium_averages_each_row() {
    let d = displaced_medium(&vec![at(0, 0)], &floating_surroundings());
    assert_eq!(d.at(0), 1000);
    assert_eq!(d.at(1), 1);
    assert_eq!(d.at(-1), 1000);
    // A row with no displaced cell takes the rounded mean of all of them: 3001 / 4.
    assert_eq!(d.at(7), 750);
}

#[test]
fn displaced_medium_skips_solids_owned_and_unloaded_cells() {
    let around = vec![
        near(Phase::Solid, 3000),
        Some(Near { owned: true, phase: Phase::Liquid, density_milli: 1000, vx: 0, vy: 0 }),
        None,
        near(Phase::Liquid, 900),
    ];
    let d = displaced_medium(&vec![at(0, 0)], &around);
    assert_eq!(d.at(0), 900);
    assert_eq!(d.at(-1), 900);
    assert_eq!(d.mean, 900);
}

#[test]
fn cell_weight_is_gravity_times_excess_mass() {
    let d = displaced_medium(&vec![at(0, 0)], &floating_surroundings());
    assert_eq!(cell_weight(2000, &d, 0, 10), -10_000);
    assert_eq!(cell_weight(500, &d, 0, 10), 5_000);
    assert_eq!(cell_weight(500, &d, 1, 10), -4_990);
}

#[test]
fn a_light_cell_in_water_floats_at_the_waterline() {
    let b = body(500, 0, 0, true);
    let d = displaced_medium(&b.raster, &floating_surroundings());
    let lift = net_lift(&b, &d, 10);
    assert_eq!(lift, 5_000);
    assert!(at_waterline(&b, &d, lift, 10));
}

#[test]
fn a_heavy_cell_in_water_sinks() {
    let b = body(2000, 0, 0, true);
    let d = displaced_medium(&b.raster, &floating_surroundings());
    let lift = net_lift(&b, &d, 10);
    assert_eq!(lift, -10_000);
    assert!(!at_waterline(&b, &d, lift, 10));
}

#[test]
fn fluid_drag_moves_body_and_fluid_toward_each_other() {
    // Reduced mass 500, impulse 400 * 500 / 4 = 50_000.
    assert_eq!(fluid_drag(1000, 0, 0, &vec![(1000, 400, 0)]), Some(((50, 0), (-50, 0))));
}

#[test]
fn fluid_drag_needs_fluid_and_a_difference_in_speed() {
    assert_eq!(fluid_drag(1000, 3, 4, &vec![]), None);
    assert_eq!(fluid_drag(1000, 7, -2, &vec![(500, 7, -2), (300, 7, -2)]), None);
}

#[test]
fn fluid_drag_refuses_an_exchange_that_adds_energy() {
    // Truncation would speed the body up without slowing the fluid.
    assert_eq!(fluid_drag(2, -12, 0, &vec![(1, -20, 0), (2, -20, 0)]), None);
}

#[test]
fn apply_fluid_drag_updates_body_and_returns_fluid_velocities() {
    let mut b = body(1000, 0, 0, false);
    let out = apply_fluid_drag(&mut b, &vec![(1000, 400, 0)]);
    assert_eq!((b.vx, b.vy), (50, 0));
    assert_eq!(out, Some(vec![(350, 0)]));
}

#[test]
fn integrate_forces_pulls_a_body_down_in_air() {
    let mut b = body(1000, 0, 0, false);
    let d = displaced_medium(&b.raster, &vec![None, None, None, None]);
    let out = integrate_forces(&mut b, &d, &vec![], 10, 5, 100_000, 256);
    assert_eq!(out, None);
    assert_eq!(b.weight, -10);
    assert_eq!((b.vx, b.vy), (0, -10));
    assert_eq!(b.spin.0, 0);
}

#[test]
fn integrate_forces_limits_speed() {
    let mut b = body(1000, 2_000, -995, false);
    let d = displaced_medium(&b.raster, &vec![None, None, None, None]);
    integrate_forces(&mut b, &d, &vec![], 10, 5, 1_000, 256);
    assert_eq!((b.vx, b.vy), (1_000, -1_000));
}

#[test]
fn integrate_forces_settles_a_body_at_the_waterline() {
    let mut b = body(500, 4, -3, true);
    let d = displaced_medium(&b.raster, &floating_surroundings());
    integrate_forces(&mut b, &d, &vec![], 10, 5, 100_000, 256);
    assert_eq!(b.weight, 0);
    assert_eq!((b.vx, b.vy), (0, 0));
}

#[test]
fn integrate_forces_lifts_a_body_that_does_not_settle() {
    let mut b = body(500, 4, -3, false);
    let d = displaced_medium(&b.raster, &floating_surroundings());
    integrate_forces(&mut b, &d, &vec![], 10, 5, 100_000, 256);
    assert_eq!(b.weight, 10);
    assert_eq!((b.vx, b.vy), (4, 7));
}
