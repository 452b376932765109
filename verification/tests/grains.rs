use fallingsand_sim::liquid::quadratic_drag;
use fallingsand_sim::powder::{buoyant_gravity, flux_cap, retain, transfer_load, Beneath, Handoff, Load};

#[test]
fn grains_keep_load_up_to_the_cap() {
    assert_eq!(retain(10, 3, 5), Load { kept: 5, saturated: true });
    assert_eq!(retain(10, 7, 5), Load { kept: 3, saturated: false });
    assert_eq!(retain(2, 5, 5), Load { kept: 0, saturated: false });
    assert_eq!(retain(5, 0, 5), Load { kept: 5, saturated: false });
}

#[test]
fn flux_cap_is_layers_times_gravity() {
    assert_eq!(flux_cap(3, 40), 120);
    assert_eq!(flux_cap(0, 40), 0);
}

#[test]
fn buoyancy_reduces_gravity() {
    assert_eq!(buoyant_gravity(100, 2000, 1000), 50);
    assert_eq!(buoyant_gravity(100, 1000, 2000), 0);
    assert_eq!(buoyant_gravity(100, 3000, 0), 100);
    assert_eq!(buoyant_gravity(7, 3, 1), 5);
}

#[test]
fn quadratic_drag_slows_fast_liquid_more() {
    assert_eq!(quadratic_drag(3000, 4000), (2356, 3141));
    assert_eq!(quadratic_drag(-256, 0), (-252, 0));
    assert_eq!(quadratic_drag(100, 0), (99, 0));
    assert_eq!(quadratic_drag(0, 0), (0, 0));
}

#[test]
fn quadratic_drag_never_speeds_up() {
    for vx in (-2000..=2000).step_by(97) {
        for vy in (-2000..=2000).step_by(89) {
            let (rx, ry) = quadratic_drag(vx, vy);
            assert!(rx.abs() <= vx.abs() && ry.abs() <= vy.abs());
        }
    }
}

fn grain_below(vy: i32) -> Option<Beneath> {
    Some(Beneath { owner: None, stressed_powder: true, vy, cap: 30, mass: 2000 })
}

#[test]
fn no_load_passes_to_an_unloaded_or_loose_cell() {
    assert_eq!(transfer_load(None, 40, 1000, 0, 10), None);
    assert_eq!(transfer_load(grain_below(0), 0, 1000, 0, 10), None);
    let loose = Some(Beneath { owner: None, stressed_powder: false, vy: 0, cap: 30, mass: 2000 });
    assert_eq!(transfer_load(loose, 40, 1000, 0, 10), None);
}

#[test]
fn a_body_below_is_pushed_by_the_load_sent() {
    let body = Some(Beneath { owner: Some(4), stressed_powder: false, vy: 0, cap: 0, mass: 1 });
    assert_eq!(
        transfer_load(body, 12, 1000, -5, 10),
        Some((Load { kept: 3, saturated: false }, Handoff::Push { body: 4, impulse: -12_000 }))
    );
    assert_eq!(
        transfer_load(body, 20, 1000, -40, 10),
        Some((Load { kept: 20, saturated: true }, Handoff::Push { body: 4, impulse: -20_000 }))
    );
}

#[test]
fn a_stressed_grain_below_takes_load_by_mass_up_to_its_room() {
    assert_eq!(
        transfer_load(grain_below(-25), 40, 1000, 0, 10),
        Some((Load { kept: 0, saturated: false }, Handoff::Deposit { vy: -30 }))
    );
    assert_eq!(
        transfer_load(grain_below(-40), 40, 1000, 0, 10),
        Some((Load { kept: 10, saturated: false }, Handoff::Keep))
    );
}
