use fallingsand_sim::contact::{
    apply_to_body, body_energy, body_point_mass, body_side, cell_energy, closing, pair_mass, particle_energy, CellState,
    Contact, Inverse, Peer, Side,
};
use fallingsand_sim::geometry::{CellPos, MaterialId, Q16};
use fallingsand_sim::rotation::Spin;
use fallingsand_sim::state::{Body, Freedoms, Slot};

fn body(mass: i64, moment: i128, vx: i64, vy: i64, spin: i64) -> Body {
    Body {
        id: 1,
        slots: vec![Slot {
            local: (0, 0),
            material: MaterialId(1),
            density_milli: mass as i32,
            restitution: Q16::from_raw(0),
            friction: Q16::from_raw(0),
        }],
        raster: vec![CellPos::new(0, 0)],
        anchor: CellPos::new(0, 0),
        step: 0,
        vx,
        vy,
        spin: Spin::from_raw(spin),
        acc_x: 0,
        acc_y: 0,
        acc_turn: 0,
        mass,
        moment,
        radius: 1,
        restitution: Q16::from_raw(0),
        friction: Q16::from_raw(0),
        weight: 0,
        freedoms: Freedoms::all(),
        settles: false,
        assists: false,
        was_grounded: false,
        parked: false,
    }
}

#[test]
fn contact_point_is_between_the_cells() {
    let contact = Contact {
        body: 0,
        from: CellPos::new(0, 0),
        at: CellPos::new(1, 0),
        normal: (-1, 0),
        peer: Peer::Terrain,
        restitution: Q16::from_raw(0),
        friction: Q16::from_raw(0),
        target: 0,
        push: 0,
        drag: 0,
    };
    assert_eq!(contact.point(256), (256, 128));
}

#[test]
fn effective_mass_of_a_party() {
    let free = Side { velocity: (0, 0), inverse: Some(Inverse { mass: 10, moment: 100, lever: 3, rigid_y: false }) };
    assert_eq!(free.effective_mass((0, 1)), Some(344_926));
    let pressed = Side { velocity: (0, 0), inverse: Some(Inverse { mass: 10, moment: 100, lever: 0, rigid_y: true }) };
    assert_eq!(pressed.effective_mass((0, -1)), None);
    assert_eq!(pressed.effective_mass((1, 0)), Some(655_360));
    let terrain = Side { velocity: (0, 0), inverse: None };
    assert_eq!(terrain.effective_mass((1, 0)), None);
}

#[test]
fn pair_mass_combines_parties() {
    assert_eq!(pair_mass(Some(6), Some(3)), 2);
    assert_eq!(pair_mass(Some(1), Some(1)), 1);
    assert_eq!(pair_mass(Some(9), None), 9);
    assert_eq!(pair_mass(None, Some(4)), 4);
    assert_eq!(pair_mass(None, None), 0);
}

#[test]
fn kinetic_energies() {
    assert_eq!(particle_energy(2, 3, 4), 701_983_198_753_587_200);
    assert_eq!(particle_energy(2, 0, 0), 0);
    assert_eq!(particle_energy(1_000_000_000, 1_000_000_000_000, 0), i128::MAX);
    assert_eq!(cell_energy(&CellState { mass: 2, vx: -3, vy: 4, start_vx: 0, start_vy: 0 }), 701_983_198_753_587_200);
    assert_eq!(body_energy(&body(2, 10, 3, 4, 1)), 701_983_198_753_587_200 + 5_041_000);
    assert_eq!(body_energy(&body(2, 10, 0, 0, 0)), 0);
}

#[test]
fn body_sides_and_point_masses() {
    let b = body(10, 100, 7, 0, 0);
    let side = body_side(&b, (0, 0), (3, 0), (0, 1), false);
    assert_eq!(side.velocity, (7, 0));
    let inverse = side.inverse.unwrap();
    assert_eq!((inverse.mass, inverse.moment, inverse.lever, inverse.rigid_y), (10, 100, 3, false));
    assert_eq!(body_point_mass(&b, (0, 0), (3, 0), (0, 1)), 5);
    assert_eq!(body_point_mass(&b, (0, 0), (3, 0), (1, 0)), 10);
}

#[test]
fn closing_speed_of_two_parties() {
    let a = Side { velocity: (2, 0), inverse: None };
    let b = Side { velocity: (-1, 5), inverse: None };
    assert_eq!(closing(&a, &b, (1, 0)), 3);
    assert_eq!(closing(&a, &b, (0, 1)), -5);
}

#[test]
fn impulses_on_a_body_truncate_and_respect_pressing() {
    let mut b = body(10, 0, 0, 0, 0);
    apply_to_body(&mut b, (0, 0), (0, 0), 25, -25, false);
    assert_eq!((b.vx, b.vy), (2, -2));
    let mut pressed = body(10, 0, 0, 0, 0);
    apply_to_body(&mut pressed, (0, 0), (0, 0), 25, -25, true);
    assert_eq!((pressed.vx, pressed.vy), (2, 0));
    let mut spun = body(10, 118_489_088, 0, 0, 0);
    apply_to_body(&mut spun, (0, 0), (1, 0), 0, 710, false);
    assert_eq!(spun.spin.raw(), 1);
}
