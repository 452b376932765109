use fallingsand_sim::bodies::Occupant;
use fallingsand_sim::commit::{joint_valid, revalidate, settle_group};
use fallingsand_sim::geometry::{CellPos, MaterialId, Phase, Q16};
use fallingsand_sim::journal::Freedom;
use fallingsand_sim::raster::key_of;
use fallingsand_sim::rotation::Spin;
use fallingsand_sim::rounds::Proposal;
use fallingsand_sim::state::{Body, Freedoms, Slot};
use rustc_hash::FxHashMap;

fn at(x: i32, y: i32) -> CellPos {
    CellPos { x, y }
}

fn body(id: u32) -> Body {
    Body {
        id,
        slots: vec![Slot { local: (0, 0), material: MaterialId(1), density_milli: 1000, restitution: Q16::from_raw(0), friction: Q16::from_raw(0) }],
        raster: vec![at(0, 0)],
        anchor: at(0, 0),
        step: 0,
        vx: 0,
        vy: 0,
        spin: Spin::zero(),
        acc_x: 0,
        acc_y: 0,
        acc_turn: 0,
        mass: 1000,
        moment: 1000,
        radius: 1,
        restitution: Q16::from_raw(0),
        friction: Q16::from_raw(0),
        weight: 0,
        freedoms: Freedoms::all(),
        settles: false,
        assists: false,
        was_grounded: false,
        parked: false,
    }
}

fn proposal(body: usize, candidate: Vec<CellPos>, entered: Vec<(CellPos, CellPos)>) -> Proposal {
    Proposal {
        body,
        freedom: Freedom::X,
        sign: 1,
        translation: (1, 0),
        probe: false,
        new_step: 0,
        candidate,
        entered,
        refused: false,
        committed: false,
        canceled: false,
        deps: Vec::new(),
    }
}

fn cell(owner: Option<u32>, phase: Phase) -> Occupant {
    Occupant { owner, phase }
}

#[test]
fn a_proposal_stays_valid_over_its_own_and_open_cells() {
    let bodies = vec![body(1)];
    let p = proposal(0, vec![], vec![(at(1, 0), at(0, 0)), (at(2, 0), at(1, 0))]);
    let mut world = FxHashMap::default();
    world.insert(key_of(at(1, 0)), cell(Some(1), Phase::Solid));
    world.insert(key_of(at(2, 0)), cell(None, Phase::Liquid));
    assert!(revalidate(&bodies, &p, &world));
    world.insert(key_of(at(2, 0)), cell(None, Phase::Powder));
    assert!(!revalidate(&bodies, &p, &world));
    world.remove(&key_of(at(2, 0)));
    assert!(!revalidate(&bodies, &p, &world));
}

#[test]
fn a_train_of_bodies_may_move_together() {
    // Body 1 moves into the cell body 2 leaves.
    let bodies = vec![body(1), body(2)];
    let proposals = vec![
        proposal(0, vec![at(1, 0)], vec![(at(1, 0), at(0, 0))]),
        proposal(1, vec![at(2, 0)], vec![(at(2, 0), at(1, 0))]),
    ];
    let mut world = FxHashMap::default();
    world.insert(key_of(at(1, 0)), cell(Some(2), Phase::Solid));
    world.insert(key_of(at(2, 0)), cell(None, Phase::Empty));
    assert!(joint_valid(&bodies, &proposals, &vec![0, 1], &world));
    // Without body 2 in the group the cell is not free.
    assert!(!joint_valid(&bodies, &proposals, &vec![0], &world));
}

#[test]
fn a_group_that_claims_a_cell_twice_is_not_valid() {
    let bodies = vec![body(1), body(2)];
    let proposals = vec![
        proposal(0, vec![at(5, 5)], vec![]),
        proposal(1, vec![at(5, 5)], vec![]),
    ];
    let world = FxHashMap::default();
    assert!(!joint_valid(&bodies, &proposals, &vec![0, 1], &world));
}

#[test]
fn a_group_commits_or_is_refused_as_one() {
    let mut proposals = vec![proposal(0, vec![], vec![]), proposal(1, vec![], vec![]), proposal(0, vec![], vec![])];
    settle_group(&mut proposals, &vec![0, 2], true);
    assert!(proposals[0].committed && proposals[2].committed && !proposals[1].committed);
    let mut refused = vec![proposal(0, vec![], vec![]), proposal(1, vec![], vec![])];
    settle_group(&mut refused, &vec![1], false);
    assert!(refused[1].refused && !refused[1].committed && !refused[0].refused);
}
