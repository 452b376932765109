use fallingsand_sim::classify::{classify, Sighting};
use fallingsand_sim::contact::Peer;
use fallingsand_sim::geometry::{CellPos, MaterialId, Phase, Q16};
use fallingsand_sim::journal::Freedom;
use fallingsand_sim::raster::key_of;
use fallingsand_sim::rotation::Spin;
use fallingsand_sim::rounds::{Mover, Proposal};
use fallingsand_sim::state::{Body, Freedoms, Slot};
use rustc_hash::FxHashMap;

fn at(x: i32, y: i32) -> CellPos {
    CellPos { x, y }
}

fn body(id: u32, vx: i64) -> Body {
    Body {
        id,
        slots: vec![Slot { local: (0, 0), material: MaterialId(1), density_milli: 2000, restitution: Q16::from_raw(0), friction: Q16::from_raw(0) }],
        raster: vec![at(0, 0)],
        anchor: at(0, 0),
        step: 0,
        vx,
        vy: 0,
        spin: Spin::zero(),
        acc_x: 0,
        acc_y: 0,
        acc_turn: 0,
        mass: 2000,
        moment: 1000,
        radius: 1,
        restitution: Q16::from_raw(300),
        friction: Q16::from_raw(65536),
        weight: 0,
        freedoms: Freedoms::all(),
        settles: false,
        assists: false,
        was_grounded: false,
        parked: false,
    }
}

fn proposal(body: usize, freedom: Freedom, entered: Vec<(CellPos, CellPos)>) -> Proposal {
    Proposal {
        body,
        freedom,
        sign: 1,
        translation: (1, 0),
        probe: false,
        new_step: 0,
        candidate: Vec::new(),
        entered,
        refused: false,
        committed: false,
        canceled: false,
        deps: Vec::new(),
    }
}

fn sight(owner: Option<u32>, phase: Phase) -> Sighting {
    Sighting {
        owner,
        phase,
        simulated: true,
        air: false,
        moved: false,
        stressed: false,
        vx: 7,
        vy: -3,
        restitution: Q16::from_raw(500),
        friction: Q16::from_raw(32768),
        mass: 1000,
        repose_layers: 0,
    }
}

fn index() -> FxHashMap<u64, usize> {
    let mut by_id = FxHashMap::default();
    by_id.insert(1u64, 0usize);
    by_id.insert(2u64, 1usize);
    by_id
}

#[test]
fn classification_waits_touches_and_parks() {
    let bodies = vec![body(1, 5), body(2, 3)];
    let coms = vec![(128, 128), (1000, 128)];
    let mut world = FxHashMap::default();
    world.insert(key_of(at(1, 0)), sight(Some(2), Phase::Solid));
    world.insert(key_of(at(5, 0)), sight(None, Phase::Solid));
    let mut cells = FxHashMap::default();
    let mut movers = vec![Mover::new(), Mover::new()];
    let mut proposals = vec![
        proposal(0, Freedom::X, vec![(at(1, 0), at(0, 0))]),
        proposal(1, Freedom::X, vec![(at(5, 0), at(4, 0))]),
        proposal(0, Freedom::Y, vec![(at(0, -1), at(0, 0))]),
    ];
    let (newly, contacts) = classify(&bodies, &coms, &index(), &world, &mut cells, &mut movers, &mut proposals, 10, 256);
    assert_eq!(newly, vec![0]);
    // The first waits on body 2's moving proposal.
    assert_eq!(proposals[0].deps, vec![(1, at(1, 0), at(0, 0))]);
    assert!(contacts[0].is_empty());
    // The second touches terrain and is refused.
    assert_eq!(contacts[1].len(), 1);
    let c = contacts[1][0];
    assert_eq!(c.peer, Peer::Terrain);
    assert_eq!(c.normal, (-1, 0));
    assert_eq!(c.restitution, Q16::from_raw(500));
    assert_eq!(c.friction, Q16::from_raw(32768));
    assert!(proposals[1].refused && !proposals[1].canceled);
    // The third meets an unloaded cell: body 1 parks and all its proposals cancel.
    assert!(proposals[0].canceled && proposals[2].canceled);
    assert!(movers[0].freedoms.iter().all(|f| f.parked));
    assert!(movers[1].freedoms.iter().all(|f| !f.parked));
    assert!(cells.is_empty());
}

#[test]
fn crossing_bodies_touch_instead_of_waiting() {
    let bodies = vec![body(1, 5), body(2, -3)];
    let coms = vec![(128, 128), (1000, 128)];
    let mut world = FxHashMap::default();
    world.insert(key_of(at(1, 0)), sight(Some(2), Phase::Solid));
    let mut cells = FxHashMap::default();
    let mut movers = vec![Mover::new(), Mover::new()];
    let mut proposals = vec![proposal(0, Freedom::X, vec![(at(1, 0), at(0, 0))]), proposal(1, Freedom::X, vec![])];
    let (newly, contacts) = classify(&bodies, &coms, &index(), &world, &mut cells, &mut movers, &mut proposals, 10, 256);
    assert!(newly.is_empty());
    assert_eq!(contacts[0].len(), 1);
    assert_eq!(contacts[0][0].peer, Peer::Body(1));
    assert_eq!(contacts[0][0].friction, Q16::from_raw(65536));
    assert!(proposals[0].deps.is_empty() && proposals[0].refused);
}

#[test]
fn a_busy_cell_parks_the_freedom() {
    let bodies = vec![body(1, 5), body(2, 3)];
    let coms = vec![(128, 128), (1000, 128)];
    let mut world = FxHashMap::default();
    let mut water = sight(None, Phase::Liquid);
    water.moved = true;
    world.insert(key_of(at(1, 0)), water);
    let mut cells = FxHashMap::default();
    let mut movers = vec![Mover::new(), Mover::new()];
    let mut proposals = vec![proposal(0, Freedom::X, vec![(at(1, 0), at(0, 0))])];
    classify(&bodies, &coms, &index(), &world, &mut cells, &mut movers, &mut proposals, 10, 256);
    assert!(proposals[0].canceled && !proposals[0].refused);
    assert!(movers[0].freedoms[1].parked);
    assert!(!movers[0].freedoms[0].parked && !movers[0].freedoms[2].parked);
}

#[test]
fn a_pushed_grain_takes_part_in_the_contact() {
    let bodies = vec![body(1, 5)];
    let coms = vec![(128, 128)];
    let mut world = FxHashMap::default();
    let mut grain = sight(None, Phase::Powder);
    grain.stressed = true;
    world.insert(key_of(at(1, 0)), grain);
    let mut cells = FxHashMap::default();
    let mut movers = vec![Mover::new()];
    let mut proposals = vec![proposal(0, Freedom::X, vec![(at(1, 0), at(0, 0))])];
    let (_, contacts) = classify(&bodies, &coms, &index(), &world, &mut cells, &mut movers, &mut proposals, 10, 256);
    assert_eq!(contacts[0][0].peer, Peer::Cell { pos: at(1, 0), mass: 1000 });
    let state = cells[&key_of(at(1, 0))];
    assert_eq!((state.mass, state.vx, state.vy, state.start_vx, state.start_vy), (1000, 7, 0, 7, 0));
}

#[test]
fn a_grain_with_enough_repose_holds_like_terrain() {
    let bodies = vec![body(1, 5)];
    let coms = vec![(128, 128)];
    let mut world = FxHashMap::default();
    let mut grain = sight(None, Phase::Powder);
    grain.repose_layers = 4;
    world.insert(key_of(at(1, 0)), grain);
    let mut cells = FxHashMap::default();
    let mut movers = vec![Mover::new()];
    let mut proposals = vec![proposal(0, Freedom::X, vec![(at(1, 0), at(0, 0))])];
    let (_, contacts) = classify(&bodies, &coms, &index(), &world, &mut cells, &mut movers, &mut proposals, 10, 256);
    assert_eq!(contacts[0][0].peer, Peer::Terrain);
    assert!(cells.is_empty());
}
