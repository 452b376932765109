use fallingsand_sim::geometry::{CellPos, MaterialId, Q16};
use fallingsand_sim::rotation::Spin;
use fallingsand_sim::state::{cell_center, cell_mass, inertia, rasterize, rotated_mean, Body, Freedoms, Policy, Slot};

fn slot(x: i32, y: i32, density: i32, restitution: u32, friction: u32) -> Slot {
    Slot {
        local: (x, y),
        material: MaterialId(3),
        density_milli: density,
        restitution: Q16::from_raw(restitution),
        friction: Q16::from_raw(friction),
    }
}

fn pair_body() -> Body {
    let slots = vec![slot(0, 0, 1000, 100, 900), slot(1, 0, 1000, 300, 500)];
    Body {
        id: 7,
        slots,
        raster: vec![CellPos::new(10, 20), CellPos::new(11, 20)],
        anchor: CellPos::new(10, 20),
        step: 0,
        vx: 0,
        vy: 0,
        spin: Spin::zero(),
        acc_x: 0,
        acc_y: 0,
        acc_turn: 0,
        mass: 2000,
        moment: 32_768_000,
        radius: 1,
        restitution: Q16::from_raw(300),
        friction: Q16::from_raw(500),
        weight: 0,
        freedoms: Freedoms::all(),
        settles: true,
        assists: false,
        was_grounded: false,
        parked: false,
    }
}

#[test]
fn cell_centers_and_masses() {
    assert_eq!(cell_center(0, 256), 128);
    assert_eq!(cell_center(-1, 256), -128);
    assert_eq!(cell_center(3, 256), 896);
    assert_eq!(cell_mass(1500), 1500);
    assert_eq!(cell_mass(0), 1);
    assert_eq!(cell_mass(-20), 1);
}

#[test]
fn policies_and_freedoms() {
    assert_eq!(Policy::debris(), Policy { turns: true, settles: true, assists: false });
    assert_eq!(Policy::ball(), Policy { turns: true, settles: false, assists: false });
    assert_eq!(Policy::mob(), Policy { turns: false, settles: false, assists: false });
    assert_eq!(Policy::player(), Policy { turns: false, settles: false, assists: true });
    assert!(Freedoms::all().holds(Freedoms::TURN));
    assert!(!Freedoms::translation().holds(Freedoms::TURN));
    assert!(Freedoms::translation().holds(Freedoms::X) && Freedoms::translation().holds(Freedoms::Y));
}

#[test]
fn applying_a_policy_sets_freedoms_and_flags() {
    let mut body = pair_body();
    body.apply(Policy::player());
    assert_eq!(body.freedoms, Freedoms(6));
    assert!(!body.settles && body.assists);
    body.apply(Policy::debris());
    assert_eq!(body.freedoms, Freedoms(7));
    assert!(body.settles && !body.assists);
}

#[test]
fn inertia_of_two_cells() {
    let slots = vec![slot(0, 0, 1000, 100, 900), slot(1, 0, 1000, 300, 500)];
    let r = inertia(&slots, 256);
    assert_eq!(r.mass, 2000);
    assert_eq!(r.moment, 32_768_000);
    assert_eq!(r.radius, 1);
    assert_eq!(r.restitution.raw(), 300);
    assert_eq!(r.friction.raw(), 500);
}

#[test]
fn inertia_of_one_cell_uses_the_floor_arm() {
    let slots = vec![slot(0, 0, 1000, 0, 0)];
    let r = inertia(&slots, 256);
    assert_eq!(r.mass, 1000);
    assert_eq!(r.moment, 10_922_000);
    assert_eq!(r.radius, 1);
}

#[test]
fn refreshing_inertia_matches_inertia() {
    let mut body = pair_body();
    body.mass = 0;
    body.moment = 0;
    body.refresh_inertia(256);
    assert_eq!(body.mass, 2000);
    assert_eq!(body.moment, 32_768_000);
    assert_eq!(body.radius, 1);
}

#[test]
fn rotated_mean_turns_with_the_body() {
    let slots = vec![slot(0, 0, 1000, 0, 0), slot(1, 0, 1000, 0, 0)];
    assert_eq!(rotated_mean(&slots, 2000, 0, 256), (128, 0));
    assert_eq!(rotated_mean(&slots, 2000, 64, 256), (0, 128));
    assert_eq!(rotated_mean(&slots, 2000, 128, 256), (-128, 0));
}

#[test]
fn rasterizing_places_each_slot() {
    let slots = vec![slot(0, 0, 1000, 0, 0), slot(1, 0, 1000, 0, 0)];
    let mut out = vec![CellPos::new(99, 99)];
    rasterize(&slots, CellPos::new(10, 20), 0, &mut out, 256);
    assert_eq!(out, vec![CellPos::new(10, 20), CellPos::new(11, 20)]);
    rasterize(&slots, CellPos::new(10, 20), 64, &mut out, 256);
    assert_eq!(out, vec![CellPos::new(10, 20), CellPos::new(10, 21)]);
}

#[test]
fn center_of_mass_and_point_velocity() {
    let mut body = pair_body();
    assert_eq!(body.com(256), (2816, 5248));
    body.vx = 5;
    body.vy = -3;
    let com = body.com(256);
    assert_eq!(body.point_velocity(com, CellPos::new(11, 20), 256), (5, -3));
    body.spin = Spin::from_raw(1000);
    let v = body.point_velocity(com, CellPos::new(11, 20), 256);
    assert_eq!(v.0, 5);
    assert_eq!(v.1, -3 + Spin::from_raw(1000).speed_at(2944 - 2816));
}

#[test]
fn impulses_change_velocity_and_spin() {
    let mut body = pair_body();
    let com = body.com(256);
    body.apply_impulse(com, CellPos::new(10, 20), 4000, -3000, 256);
    assert_eq!((body.vx, body.vy), (2, -2));
    assert!(body.spin.raw() != 0);
    let mut mob = pair_body();
    mob.apply(Policy::mob());
    mob.apply_impulse(com, CellPos::new(10, 20), 4000, -3000, 256);
    assert_eq!(mob.spin.raw(), 0);
}
