use fallingsand_sim::geometry::{CellPos, MaterialId, Phase};
use fallingsand_sim::raster::key_of;
use fallingsand_sim::reshape::{Seen, plan_reshape};
use rustc_hash::FxHashMap;

fn at(x: i32, y: i32) -> CellPos {
    CellPos { x, y }
}

fn world(cells: &[((i32, i32), Seen)]) -> FxHashMap<u64, Seen> {
    let mut map = FxHashMap::default();
    for &((x, y), seen) in cells {
        map.insert(key_of(at(x, y)), seen);
    }
    map
}

fn empty() -> Seen {
    Seen::Free { phase: Phase::Empty, density_milli: 0 }
}

fn water(density_milli: i32) -> Seen {
    Seen::Free { phase: Phase::Liquid, density_milli }
}

fn stone() -> Seen {
    Seen::Free { phase: Phase::Solid, density_milli: 2500 }
}

fn bondable() -> Vec<bool> {
    vec![true, false]
}

#[test]
fn a_pushed_cell_takes_the_cell_given_up() {
    let held = vec![at(0, 0), at(1, 0)];
    let cells = vec![(at(0, 0), MaterialId(0)), (at(0, 1), MaterialId(0))];
    let w = world(&[((0, 1), water(1000))]);
    let plan = plan_reshape(&cells, &bondable(), &held, &w).unwrap();
    assert_eq!(plan.vacated, vec![at(1, 0)]);
    assert_eq!(plan.moves, vec![(at(0, 1), at(1, 0))]);
    assert!(plan.leftovers.is_empty());
}

#[test]
fn without_a_cell_given_up_the_pushed_cell_rises_to_the_first_free_spot() {
    let held = vec![at(0, 0)];
    let cells = vec![(at(0, 0), MaterialId(0)), (at(1, 0), MaterialId(0)), (at(1, 1), MaterialId(0))];
    let w = world(&[((1, 0), water(1000)), ((1, 1), empty()), ((1, 2), water(1000)), ((1, 3), empty())]);
    let plan = plan_reshape(&cells, &bondable(), &held, &w).unwrap();
    assert!(plan.vacated.is_empty());
    assert_eq!(plan.moves, vec![(at(1, 0), at(1, 3))]);
    assert!(plan.leftovers.is_empty());
}

#[test]
fn denser_pushed_cells_are_placed_first() {
    let held = vec![at(5, 5), at(0, 0), at(0, 1)];
    let cells = vec![(at(5, 5), MaterialId(0)), (at(3, 0), MaterialId(0)), (at(4, 0), MaterialId(0))];
    let w = world(&[((3, 0), water(500)), ((4, 0), water(1000))]);
    let plan = plan_reshape(&cells, &bondable(), &held, &w).unwrap();
    assert_eq!(plan.vacated, vec![at(0, 0), at(0, 1)]);
    assert_eq!(plan.moves, vec![(at(4, 0), at(0, 0)), (at(3, 0), at(0, 1))]);
}

#[test]
fn cells_given_up_and_not_refilled_are_left_over() {
    let held = vec![at(2, 0), at(0, 1), at(1, 0), at(0, 1)];
    let cells = vec![(at(1, 0), MaterialId(0))];
    let plan = plan_reshape(&cells, &bondable(), &held, &world(&[])).unwrap();
    assert_eq!(plan.vacated, vec![at(2, 0), at(0, 1)]);
    assert!(plan.moves.is_empty());
    assert_eq!(plan.leftovers, vec![at(2, 0), at(0, 1)]);
}

#[test]
fn an_empty_new_cell_needs_no_move() {
    let held = vec![at(0, 0)];
    let cells = vec![(at(0, 0), MaterialId(0)), (at(0, 1), MaterialId(0))];
    let plan = plan_reshape(&cells, &bondable(), &held, &world(&[((0, 1), empty())])).unwrap();
    assert!(plan.vacated.is_empty());
    assert!(plan.moves.is_empty());
    assert!(plan.leftovers.is_empty());
}

#[test]
fn an_empty_outline_is_refused() {
    assert!(plan_reshape(&Vec::new(), &bondable(), &vec![at(0, 0)], &world(&[])).is_none());
}

#[test]
fn a_cell_listed_twice_is_refused() {
    let cells = vec![(at(0, 0), MaterialId(0)), (at(0, 0), MaterialId(0))];
    assert!(plan_reshape(&cells, &bondable(), &vec![at(0, 0)], &world(&[])).is_none());
}

#[test]
fn a_material_that_cannot_bond_is_refused() {
    let cells = vec![(at(0, 0), MaterialId(1))];
    assert!(plan_reshape(&cells, &bondable(), &vec![at(0, 0)], &world(&[])).is_none());
}

#[test]
fn a_solid_new_cell_is_refused() {
    let cells = vec![(at(0, 0), MaterialId(0)), (at(0, 1), MaterialId(0))];
    assert!(plan_reshape(&cells, &bondable(), &vec![at(0, 0)], &world(&[((0, 1), stone())])).is_none());
}

#[test]
fn an_unloaded_or_owned_new_cell_is_refused() {
    let cells = vec![(at(0, 0), MaterialId(0)), (at(0, 1), MaterialId(0))];
    assert!(plan_reshape(&cells, &bondable(), &vec![at(0, 0)], &world(&[])).is_none());
    assert!(plan_reshape(&cells, &bondable(), &vec![at(0, 0)], &world(&[((0, 1), Seen::Owned)])).is_none());
}

#[test]
fn a_pushed_cell_without_a_home_refuses_the_reshape() {
    let held = vec![at(0, 0)];
    let cells = vec![(at(0, 0), MaterialId(0)), (at(1, 0), MaterialId(0))];
    let w = world(&[((1, 0), water(1000)), ((1, 1), stone())]);
    assert!(plan_reshape(&cells, &bondable(), &held, &w).is_none());
}

#[test]
fn the_search_for_a_spot_stops_after_sixty_four_cells() {
    let held = vec![at(0, 0)];
    let cells = vec![(at(0, 0), MaterialId(0)), (at(1, 0), MaterialId(0))];
    let mut column = vec![((1, 0), water(1000))];
    for y in 1..=64 {
        column.push(((1, y), water(1000)));
    }
    column.push(((1, 65), empty()));
    assert!(plan_reshape(&cells, &bondable(), &held, &world(&column)).is_none());
    column.pop();
    column.pop();
    column.push(((1, 64), empty()));
    let plan = plan_reshape(&cells, &bondable(), &held, &world(&column)).unwrap();
    assert_eq!(plan.moves, vec![(at(1, 0), at(1, 64))]);
}
