use fallingsand_sim::geometry::{CellPos, MaterialId, Q16};
use fallingsand_sim::journal::Freedom;
use fallingsand_sim::proposal::{build_proposal, build_step_proposal};
use fallingsand_sim::raster::key_of;
use fallingsand_sim::rotation::Spin;
use fallingsand_sim::state::{Body, Freedoms, Slot};
use rustc_hash::FxHashSet;

fn slot(x: i32, y: i32) -> Slot {
    Slot { local: (x, y), material: MaterialId(1), density_milli: 1000, restitution: Q16::from_raw(0), friction: Q16::from_raw(0) }
}

fn at(x: i32, y: i32) -> CellPos {
    CellPos { x, y }
}

fn body(slots: Vec<Slot>, raster: Vec<CellPos>, anchor: CellPos, step: u32) -> Body {
    Body {
        id: 7,
        slots,
        raster,
        anchor,
        step,
        vx: 0,
        vy: 0,
        spin: Spin::zero(),
        acc_x: 0,
        acc_y: 0,
        acc_turn: 0,
        mass: 1000,
        moment: 1000,
        radius: 1,
        restitution: Q16::from_raw(0),
        friction: Q16::from_raw(0),
        weight: 0,
        freedoms: Freedoms::all(),
        settles: false,
        assists: false,
        was_grounded: false,
        parked: false,
    }
}

fn owned(cells: &[CellPos]) -> FxHashSet<u64> {
    cells.iter().map(|&pos| key_of(pos)).collect()
}

#[test]
fn a_shift_enters_only_cells_the_body_does_not_own() {
    let raster = vec![at(10, 20), at(11, 20)];
    let b = body(vec![slot(0, 0), slot(1, 0)], raster.clone(), at(10, 20), 0);
    let p = build_proposal(&b, 3, Freedom::X, 1, false, &owned(&raster), 1024);
    assert_eq!(p.body, 3);
    assert_eq!(p.translation, (1, 0));
    assert_eq!(p.new_step, 0);
    assert_eq!(p.candidate, vec![at(11, 20), at(12, 20)]);
    assert_eq!(p.entered, vec![(at(12, 20), at(11, 20))]);
    assert!(!p.refused && !p.committed && !p.canceled && !p.probe);
    assert!(p.deps.is_empty());
}

#[test]
fn a_downward_probe_enters_every_foreign_cell() {
    let raster = vec![at(10, 20), at(11, 20)];
    let b = body(vec![slot(0, 0), slot(1, 0)], raster.clone(), at(10, 20), 0);
    let p = build_proposal(&b, 0, Freedom::Y, -1, true, &FxHashSet::default(), 1024);
    assert!(p.probe);
    assert_eq!(p.translation, (0, -1));
    assert_eq!(p.candidate, vec![at(10, 19), at(11, 19)]);
    assert_eq!(p.entered, vec![(at(10, 19), at(10, 20)), (at(11, 19), at(11, 20))]);
}

#[test]
fn a_quarter_turn_walks_each_cell_along_its_line() {
    let raster = vec![at(12, 20)];
    let b = body(vec![slot(2, 0)], raster.clone(), at(10, 20), 63);
    let p = build_proposal(&b, 0, Freedom::Turn, 1, false, &owned(&raster), 1024);
    assert_eq!(p.new_step, 64);
    assert_eq!(p.translation, (0, 0));
    assert_eq!(p.candidate, vec![at(10, 22)]);
    assert_eq!(
        p.entered,
        vec![(at(11, 20), at(12, 20)), (at(11, 21), at(11, 20)), (at(10, 21), at(11, 21)), (at(10, 22), at(10, 21))]
    );
}

#[test]
fn turning_back_from_step_zero_wraps_around() {
    let raster = vec![at(10, 20)];
    let b = body(vec![slot(0, 0)], raster.clone(), at(10, 20), 0);
    let p = build_proposal(&b, 0, Freedom::Turn, -1, false, &owned(&raster), 1024);
    assert_eq!(p.new_step, 255);
    assert_eq!(p.candidate, vec![at(10, 20)]);
    assert!(p.entered.is_empty());
}

#[test]
fn a_climbing_step_enters_the_column_then_the_side() {
    let raster = vec![at(10, 20), at(10, 21)];
    let b = body(vec![slot(0, 0), slot(0, 1)], raster.clone(), at(10, 20), 0);
    let p = build_step_proposal(&b, 2, 1, 1, &owned(&raster));
    assert_eq!(p.body, 2);
    assert_eq!(p.freedom, Freedom::X);
    assert_eq!(p.translation, (1, 1));
    assert_eq!(p.candidate, vec![at(11, 21), at(11, 22)]);
    assert_eq!(p.entered, vec![(at(11, 21), at(10, 21)), (at(10, 22), at(10, 21)), (at(11, 22), at(10, 22))]);
}

#[test]
fn cells_reached_twice_while_climbing_are_entered_once() {
    let raster = vec![at(10, 20), at(11, 20)];
    let b = body(vec![slot(0, 0), slot(1, 0)], raster.clone(), at(10, 20), 0);
    let p = build_step_proposal(&b, 0, 1, 1, &owned(&raster));
    assert_eq!(p.entered, vec![(at(10, 21), at(10, 20)), (at(11, 21), at(10, 21)), (at(12, 21), at(11, 21))]);
}

#[test]
fn a_flat_step_only_moves_sideways() {
    let raster = vec![at(10, 20)];
    let b = body(vec![slot(0, 0)], raster.clone(), at(10, 20), 0);
    let p = build_step_proposal(&b, 0, -1, 0, &FxHashSet::default());
    assert_eq!(p.candidate, vec![at(9, 20)]);
    assert_eq!(p.entered, vec![(at(9, 20), at(10, 20))]);
}
