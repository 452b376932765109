use fallingsand_sim::geometry::{CellPos, MaterialId, Phase};
use fallingsand_sim::islands::{Content, Probe, detect_island};
use fallingsand_sim::raster::key_of;
use rustc_hash::FxHashMap;

const STONE: u16 = 0;
const SAND: u16 = 1;
const BEDROCK: u16 = 2;
const GLASS: u16 = 3;
const AIR: u16 = 4;

fn content() -> Content {
    let n = 5;
    let mut bonds = vec![vec![false; n]; n];
    bonds[STONE as usize][STONE as usize] = true;
    Content {
        phase: vec![Phase::Solid, Phase::Powder, Phase::Solid, Phase::Solid, Phase::Empty],
        rigid_capable: vec![true, false, false, true, false],
        bonds,
    }
}

fn at(x: i32, y: i32) -> CellPos {
    CellPos { x, y }
}

struct World(FxHashMap<u64, Probe>);

impl World {
    fn new() -> World {
        World(FxHashMap::default())
    }

    fn put(&mut self, x: i32, y: i32, material: u16) {
        self.0.insert(key_of(at(x, y)), Probe { body: false, material: MaterialId(material) });
    }

    fn own(&mut self, x: i32, y: i32, material: u16) {
        self.0.insert(key_of(at(x, y)), Probe { body: true, material: MaterialId(material) });
    }

    fn fill(&mut self, xs: std::ops::RangeInclusive<i32>, y: i32, material: u16) {
        for x in xs {
            self.put(x, y, material);
        }
    }
}

#[test]
fn a_floating_plank_is_an_island() {
    let mut w = World::new();
    w.fill(0..=2, 5, STONE);
    w.fill(0..=2, 4, AIR);
    assert_eq!(detect_island(&w.0, &content(), at(1, 5)), Some(vec![at(0, 5), at(1, 5), at(2, 5)]));
}

#[test]
fn cells_come_in_row_order() {
    let mut w = World::new();
    w.fill(0..=1, 6, STONE);
    w.put(0, 5, STONE);
    w.put(0, 4, AIR);
    w.put(1, 5, AIR);
    assert_eq!(detect_island(&w.0, &content(), at(1, 6)), Some(vec![at(0, 5), at(0, 6), at(1, 6)]));
}

#[test]
fn a_plank_resting_on_bedrock_or_sand_is_no_island() {
    let mut w = World::new();
    w.fill(0..=2, 5, STONE);
    w.fill(0..=2, 4, AIR);
    w.put(2, 4, BEDROCK);
    assert_eq!(detect_island(&w.0, &content(), at(0, 5)), None);
    w.put(2, 4, SAND);
    assert_eq!(detect_island(&w.0, &content(), at(0, 5)), None);
}

#[test]
fn a_plank_over_unloaded_cells_does_not_rest() {
    let mut w = World::new();
    w.fill(0..=2, 5, STONE);
    assert_eq!(detect_island(&w.0, &content(), at(0, 5)), Some(vec![at(0, 5), at(1, 5), at(2, 5)]));
}

#[test]
fn a_seed_that_is_not_rigid_gives_no_island() {
    let mut w = World::new();
    w.put(0, 5, AIR);
    w.put(1, 5, BEDROCK);
    w.own(2, 5, STONE);
    assert_eq!(detect_island(&w.0, &content(), at(0, 5)), None);
    assert_eq!(detect_island(&w.0, &content(), at(1, 5)), None);
    assert_eq!(detect_island(&w.0, &content(), at(2, 5)), None);
    assert_eq!(detect_island(&w.0, &content(), at(9, 9)), None);
}

#[test]
fn unbonded_neighbours_stay_out() {
    let mut w = World::new();
    w.put(0, 5, STONE);
    w.put(1, 5, GLASS);
    w.own(-1, 5, STONE);
    w.fill(-1..=1, 4, AIR);
    assert_eq!(detect_island(&w.0, &content(), at(0, 5)), Some(vec![at(0, 5)]));
    assert_eq!(detect_island(&w.0, &content(), at(1, 5)), Some(vec![at(1, 5)]));
}

#[test]
fn a_bonded_cell_below_holds_the_island_together_instead_of_resting_it() {
    let mut w = World::new();
    w.put(0, 5, STONE);
    w.put(0, 4, STONE);
    w.put(0, 3, AIR);
    assert_eq!(detect_island(&w.0, &content(), at(0, 5)), Some(vec![at(0, 4), at(0, 5)]));
}

#[test]
fn an_island_as_wide_as_the_limit_is_refused() {
    let mut w = World::new();
    w.fill(0..=47, 5, STONE);
    w.fill(0..=48, 4, AIR);
    assert_eq!(detect_island(&w.0, &content(), at(0, 5)).map(|cells| cells.len()), Some(48));
    w.put(48, 5, STONE);
    assert_eq!(detect_island(&w.0, &content(), at(0, 5)), None);
}

#[test]
fn an_island_with_too_many_cells_is_refused() {
    let mut w = World::new();
    for y in 10..=51 {
        w.fill(0..=47, y, STONE);
    }
    w.fill(0..=47, 9, AIR);
    let cells = detect_island(&w.0, &content(), at(0, 10));
    assert_eq!(cells.map(|cells| cells.len()), Some(42 * 48));
    w.fill(0..=47, 52, STONE);
    assert_eq!(detect_island(&w.0, &content(), at(0, 10)), None);
}
