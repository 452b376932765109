use fallingsand_sim::bodies::Occupant;
use fallingsand_sim::buoyancy::{displaced_medium, Near};
use fallingsand_sim::geometry::{CellPos, MaterialId, Phase, Q16};
use fallingsand_sim::raster::key_of;
use fallingsand_sim::rotation::Spin;
use fallingsand_sim::settling::{is_snap_ready, settle_plan, settle_supports};
use fallingsand_sim::state::{Body, Freedoms, Slot};
use rustc_hash::FxHashMap;

fn at(x: i32, y: i32) -> CellPos {
    CellPos { x, y }
}

fn slot(x: i32, y: i32) -> Slot {
    Slot { local: (x, y), material: MaterialId(1), density_milli: 1000, restitution: Q16::from_raw(0), friction: Q16::from_raw(0) }
}

fn body(raster: Vec<CellPos>, vx: i64, vy: i64) -> Body {
    let slots = raster.iter().map(|p| slot(p.x, p.y)).collect::<Vec<_>>();
    let mass = 1000 * slots.len() as i64;
    Body {
        id: 3,
        slots,
        raster,
        anchor: at(0, 0),
        step: 0,
        vx,
        vy,
        spin: Spin::zero(),
        acc_x: 0,
        acc_y: 0,
        acc_turn: 0,
        mass,
        moment: 1000,
        radius: 1,
        restitution: Q16::from_raw(0),
        friction: Q16::from_raw(0),
        weight: 0,
        freedoms: Freedoms::all(),
        settles: true,
        assists: false,
        was_grounded: false,
        parked: false,
    }
}

fn cell(owner: Option<u32>, phase: Phase) -> Occupant {
    Occupant { owner, phase }
}

#[test]
fn only_slow_settling_bodies_are_ready() {
    assert!(is_snap_ready(&body(vec![at(0, 0)], 16, -16), 256));
    assert!(!is_snap_ready(&body(vec![at(0, 0)], 17, 0), 256));
    let mut parked = body(vec![at(0, 0)], 0, 0);
    parked.parked = true;
    assert!(!is_snap_ready(&parked, 256));
    let mut spinning = body(vec![at(0, 0)], 0, 0);
    spinning.spin = Spin::from_raw(1_000_000);
    assert!(!is_snap_ready(&spinning, 256));
}

#[test]
fn a_body_rests_on_the_solid_ground_below_it() {
    let b = body(vec![at(0, 1), at(1, 1), at(1, 2)], 0, 0);
    let mut world = FxHashMap::default();
    world.insert(key_of(at(0, 0)), cell(None, Phase::Solid));
    world.insert(key_of(at(1, 0)), cell(None, Phase::Liquid));
    world.insert(key_of(at(1, 1)), cell(Some(3), Phase::Solid));
    assert_eq!(settle_supports(&world, &b, -1), Some(vec![(at(0, 0), at(0, 1))]));
}

#[test]
fn powder_another_body_or_an_unloaded_cell_stops_settling() {
    let b = body(vec![at(0, 1), at(1, 1)], 0, 0);
    let mut world = FxHashMap::default();
    world.insert(key_of(at(0, 0)), cell(None, Phase::Solid));
    world.insert(key_of(at(1, 0)), cell(None, Phase::Powder));
    assert_eq!(settle_supports(&world, &b, -1), None);
    world.insert(key_of(at(1, 0)), cell(Some(9), Phase::Solid));
    assert_eq!(settle_supports(&world, &b, -1), None);
    world.remove(&key_of(at(1, 0)));
    assert_eq!(settle_supports(&world, &b, -1), None);
}

#[test]
fn nothing_solid_ahead_gives_no_supports() {
    let b = body(vec![at(0, 1)], 0, 0);
    let mut world = FxHashMap::default();
    world.insert(key_of(at(0, 0)), cell(None, Phase::Gas));
    assert_eq!(settle_supports(&world, &b, -1), None);
}

#[test]
fn a_floating_body_presses_up_against_the_ceiling() {
    let b = body(vec![at(0, 0)], 0, 0);
    let water = Some(Near { owned: false, phase: Phase::Liquid, density_milli: 2000, vx: 0, vy: 0 });
    let d = displaced_medium(&b.raster, &vec![water, water, None, water]);
    let mut world = FxHashMap::default();
    world.insert(key_of(at(0, 1)), cell(None, Phase::Solid));
    world.insert(key_of(at(0, -1)), cell(None, Phase::Liquid));
    assert_eq!(settle_plan(&world, &b, &d, 10, 256), Some((1, vec![(at(0, 1), at(0, 0))])));
}

#[test]
fn a_fast_body_has_no_settle_plan() {
    let b = body(vec![at(0, 1)], 40, 0);
    let d = displaced_medium(&b.raster, &vec![None, None, None, None]);
    let mut world = FxHashMap::default();
    world.insert(key_of(at(0, 0)), cell(None, Phase::Solid));
    assert_eq!(settle_plan(&world, &b, &d, 10, 256), None);
}
