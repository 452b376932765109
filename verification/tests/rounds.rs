use fallingsand_sim::contact::{Contact, Peer};
use fallingsand_sim::geometry::{CellPos, MaterialId, Q16};
use fallingsand_sim::journal::Freedom;
use fallingsand_sim::rotation::Spin;
use fallingsand_sim::rounds::{
    apply_classification, bodies_parked, candidates_disjoint, classify_outcome, commit_groups, waits_on_peer, Classification,
    apply_commit, cascade, order_contacts, pair_restitution, plan_body, prepare_accumulators, resolve_ties,
    screen_contacts, settle_proposal, FreedomState, Mover, Proposal,
};
use fallingsand_sim::state::{Body, Freedoms, Slot};

fn slot(x: i32, y: i32) -> Slot {
    Slot {
        local: (x, y),
        material: MaterialId(1),
        density_milli: 1000,
        restitution: Q16::from_raw(0),
        friction: Q16::from_raw(0),
    }
}

fn body(id: u32) -> Body {
    Body {
        id,
        slots: vec![slot(0, 0), slot(1, 0)],
        raster: vec![CellPos::new(10, 20), CellPos::new(11, 20)],
        anchor: CellPos::new(10, 20),
        step: 0,
        vx: 3,
        vy: -4,
        spin: Spin::from_raw(9),
        acc_x: 700,
        acc_y: -300,
        acc_turn: -9000,
        mass: 2000,
        moment: 32_768_000,
        radius: 1,
        restitution: Q16::from_raw(300),
        friction: Q16::from_raw(0),
        weight: 0,
        freedoms: Freedoms::all(),
        settles: false,
        assists: false,
        was_grounded: false,
        parked: false,
    }
}

fn proposal(body: usize, entered: Vec<(CellPos, CellPos)>, deps: Vec<(usize, CellPos, CellPos)>) -> Proposal {
    Proposal {
        body,
        freedom: Freedom::X,
        sign: 1,
        translation: (1, 0),
        probe: false,
        new_step: 0,
        candidate: Vec::new(),
        entered,
        refused: false,
        committed: false,
        canceled: false,
        deps,
    }
}

fn contact(body: usize, at: (i32, i32), normal: (i32, i32), peer: Peer) -> Contact {
    Contact {
        body,
        from: CellPos::new(at.0 + normal.0, at.1 + normal.1),
        at: CellPos::new(at.0, at.1),
        normal,
        peer,
        restitution: Q16::from_raw(1000),
        friction: Q16::from_raw(0),
        target: 0,
        push: 0,
        drag: 0,
    }
}

fn cell(x: i32, y: i32) -> CellPos {
    CellPos::new(x, y)
}

#[test]
fn a_body_proposes_its_most_pending_freedom() {
    let b = body(1);
    assert_eq!(plan_body(&b, Mover::new(), 256), vec![(Freedom::X, 1, false)]);
    let mut mover = Mover::new();
    mover.freedoms[Freedom::X.index()].parked = true;
    assert_eq!(plan_body(&b, mover, 256), vec![(Freedom::Turn, -1, false)]);
}

#[test]
fn equal_pending_goes_to_the_first_in_trying_order() {
    let mut b = body(1);
    b.acc_y = 520;
    b.acc_x = -600;
    b.acc_turn = 0;
    assert_eq!(plan_body(&b, Mover::new(), 256), vec![(Freedom::Y, 1, false)]);
}

#[test]
fn a_body_without_pending_motion_probes() {
    let mut b = body(1);
    b.acc_x = 100;
    b.acc_y = -100;
    b.acc_turn = 100;
    assert_eq!(
        plan_body(&b, Mover::new(), 256),
        vec![(Freedom::Y, -1, true), (Freedom::X, 1, true), (Freedom::Turn, 1, true)]
    );
    let mut mover = Mover::new();
    mover.freedoms[Freedom::Y.index()].probed = true;
    b.spin = Spin::zero();
    assert_eq!(plan_body(&b, mover, 256), vec![(Freedom::X, 1, true)]);
}

#[test]
fn accumulators_gather_velocity_or_decay() {
    let mut b = body(1);
    prepare_accumulators(&mut b, 5, 100_000, 256);
    assert_eq!((b.acc_x, b.acc_y, b.acc_turn), (703, -304, -4500));
    let mut settling = body(1);
    settling.settles = true;
    prepare_accumulators(&mut settling, 5, 100_000, 256);
    assert_eq!((settling.acc_x, settling.acc_y), (350, -150));
    let mut fast = body(1);
    fast.vx = 5000;
    fast.spin = Spin::from_raw(5000);
    prepare_accumulators(&mut fast, 5, 1_000, 256);
    assert_eq!(fast.acc_x, 1_000);
    assert_eq!(fast.acc_turn, -4000);
}

#[test]
fn contact_restitution_is_the_largest() {
    let b = body(1);
    let mut peer = body(2);
    peer.restitution = Q16::from_raw(500);
    assert_eq!(pair_restitution(&b, Some(&peer), Some(Q16::from_raw(400))).raw(), 500);
    assert_eq!(pair_restitution(&b, None, Some(Q16::from_raw(100))).raw(), 300);
    assert_eq!(pair_restitution(&b, None, Some(Q16::from_raw(900))).raw(), 900);
    assert_eq!(pair_restitution(&b, None, None).raw(), 300);
}

#[test]
fn refusals_cascade_along_dependencies() {
    let mut proposals = vec![
        proposal(0, vec![], vec![]),
        proposal(1, vec![], vec![(0, cell(1, 0), cell(0, 0))]),
        proposal(2, vec![], vec![(1, cell(2, 0), cell(1, 0))]),
        proposal(3, vec![], vec![]),
        proposal(4, vec![], vec![(0, cell(5, 0), cell(4, 0))]),
        proposal(5, vec![], vec![(3, cell(6, 0), cell(5, 0))]),
    ];
    proposals[0].refused = true;
    proposals[4].probe = true;
    let blocked = cascade(&mut proposals);
    let refused: Vec<bool> = proposals.iter().map(|p| p.refused).collect();
    assert_eq!(refused, vec![true, true, true, false, false, false]);
    assert_eq!(blocked, vec![(1, cell(1, 0), cell(0, 0), 0), (2, cell(2, 0), cell(1, 0), 1)]);
}

#[test]
fn cancellations_cascade_too() {
    let mut proposals = vec![
        proposal(0, vec![], vec![(1, cell(1, 0), cell(0, 0))]),
        proposal(1, vec![], vec![]),
    ];
    proposals[1].canceled = true;
    let blocked = cascade(&mut proposals);
    assert!(proposals[0].refused);
    assert!(!proposals[1].refused);
    assert_eq!(blocked, vec![(0, cell(1, 0), cell(0, 0), 1)]);
}

#[test]
fn the_stronger_claim_keeps_a_contested_cell() {
    let mut a = body(1);
    a.vx = 10;
    a.spin = Spin::zero();
    let mut b = body(2);
    b.vx = -5;
    b.spin = Spin::zero();
    let bodies = vec![a, b];
    let coms = vec![(0, 0), (0, 0)];
    let mut proposals = vec![
        proposal(0, vec![(cell(5, 0), cell(4, 0))], vec![]),
        proposal(1, vec![(cell(7, 0), cell(8, 0)), (cell(5, 0), cell(6, 0))], vec![]),
    ];
    let losses = resolve_ties(&bodies, &coms, &mut proposals, 256);
    assert_eq!(losses, vec![(1, cell(5, 0), cell(6, 0), 0)]);
    assert!(!proposals[0].refused);
    assert!(proposals[1].refused);
}

#[test]
fn equal_claims_go_to_the_lower_id() {
    let mut a = body(9);
    a.vx = 10;
    a.spin = Spin::zero();
    let mut b = body(4);
    b.vx = -10;
    b.spin = Spin::zero();
    let bodies = vec![a, b];
    let coms = vec![(0, 0), (0, 0)];
    let mut proposals = vec![
        proposal(0, vec![(cell(5, 0), cell(4, 0))], vec![]),
        proposal(1, vec![(cell(5, 0), cell(6, 0))], vec![]),
    ];
    let losses = resolve_ties(&bodies, &coms, &mut proposals, 256);
    assert_eq!(losses, vec![(0, cell(5, 0), cell(4, 0), 1)]);
    assert!(proposals[0].refused && !proposals[1].refused);
}

#[test]
fn uncontested_and_inactive_claims_stand() {
    let bodies = vec![body(1), body(2)];
    let coms = vec![(0, 0), (0, 0)];
    let mut proposals = vec![
        proposal(0, vec![(cell(5, 0), cell(4, 0))], vec![]),
        proposal(1, vec![(cell(5, 0), cell(6, 0))], vec![]),
        proposal(1, vec![(cell(9, 0), cell(8, 0))], vec![]),
    ];
    proposals[1].probe = true;
    let losses = resolve_ties(&bodies, &coms, &mut proposals, 256);
    assert!(losses.is_empty());
    assert!(proposals.iter().all(|p| !p.refused));
}

#[test]
fn committing_a_translation_moves_the_anchor() {
    let mut b = body(1);
    let mut p = proposal(0, vec![], vec![]);
    p.translation = (1, 0);
    apply_commit(&mut b, &p, vec![cell(11, 20), cell(12, 20)], 256);
    assert_eq!(b.anchor, cell(11, 20));
    assert_eq!(b.acc_x, 700 - 256);
    assert_eq!(b.raster, vec![cell(11, 20), cell(12, 20)]);
}

#[test]
fn committing_a_turn_keeps_the_tracked_position() {
    let mut b = body(1);
    let mut p = proposal(0, vec![], vec![]);
    p.freedom = Freedom::Turn;
    p.sign = 1;
    p.new_step = 64;
    let com_before = b.com(256);
    let before = (com_before.0 + b.acc_x, com_before.1 + b.acc_y);
    apply_commit(&mut b, &p, vec![cell(10, 20), cell(10, 21)], 256);
    assert_eq!(b.step, 64);
    assert_eq!(b.acc_turn, -9000 - 4096);
    assert_eq!((b.acc_x, b.acc_y), (700 + 128, -300 - 128));
    let com_after = b.com(256);
    assert_eq!((com_after.0 + b.acc_x, com_after.1 + b.acc_y), before);
}

#[test]
fn settling_a_probe_marks_it_probed() {
    let mut b = body(1);
    let mut state = FreedomState { parked: false, probed: false };
    let mut p = proposal(0, vec![], vec![]);
    p.probe = true;
    settle_proposal(&mut b, &mut state, &p, true, 0, 100_000, 256);
    assert_eq!(state, FreedomState { parked: false, probed: true });
    assert_eq!(b.acc_x, 700);
}

#[test]
fn settling_a_canceled_quantum_keeps_the_fraction() {
    let mut b = body(1);
    let mut state = FreedomState { parked: false, probed: false };
    let mut p = proposal(0, vec![], vec![]);
    p.canceled = true;
    settle_proposal(&mut b, &mut state, &p, true, 0, 100_000, 256);
    assert_eq!(b.acc_x, 188);
    p.freedom = Freedom::Y;
    settle_proposal(&mut b, &mut state, &p, true, 0, 100_000, 256);
    assert_eq!(b.acc_y, -44);
    assert_eq!(state, FreedomState { parked: false, probed: false });
}

#[test]
fn a_refused_quantum_rebounds_or_parks() {
    let mut p = proposal(0, vec![], vec![]);
    p.refused = true;
    let mut state = FreedomState { parked: false, probed: false };

    let mut bounced = body(1);
    bounced.vx = -6;
    settle_proposal(&mut bounced, &mut state, &p, true, 10, 100_000, 256);
    assert_eq!(bounced.acc_x, -266);

    let mut pressed = body(1);
    settle_proposal(&mut pressed, &mut state, &p, true, 10, 100_000, 256);
    assert_eq!(pressed.acc_x, 444);
    assert!(!state.parked);

    let mut stopped = body(1);
    settle_proposal(&mut stopped, &mut state, &p, false, 10, 100_000, 256);
    assert_eq!(stopped.acc_x, 188);
    assert!(state.parked);
}

#[test]
fn committed_quanta_settle_to_nothing() {
    let mut b = body(1);
    let mut state = FreedomState { parked: false, probed: false };
    let mut p = proposal(0, vec![], vec![]);
    p.committed = true;
    settle_proposal(&mut b, &mut state, &p, true, 10, 100_000, 256);
    assert_eq!((b.acc_x, b.acc_y, b.acc_turn), (700, -300, -9000));
}

#[test]
fn screening_drops_diagonals_the_body_does_not_close_on() {
    let mut b = body(1);
    b.vx = 3;
    b.vy = -2;
    b.spin = Spin::zero();
    let bodies = vec![b];
    let coms = vec![(0, 0)];
    let mut contacts = vec![
        contact(0, (1, 0), (-1, 0), Peer::Terrain),
        contact(0, (1, -1), (-1, 1), Peer::Terrain),
        contact(0, (1, 1), (1, 1), Peer::Terrain),
    ];
    let any = screen_contacts(&bodies, &coms, &mut contacts, false, 256);
    assert!(any);
    assert_eq!(contacts.len(), 2);
    assert_eq!((contacts[0].normal, contacts[1].normal), ((-1, 0), (-1, 1)));
    assert_eq!(contacts[0].restitution.raw(), 1000);

    let mut resting = vec![contact(0, (0, -1), (0, 1), Peer::Terrain), contact(0, (1, 1), (1, 1), Peer::Terrain)];
    let any = screen_contacts(&bodies, &coms, &mut resting, true, 256);
    assert!(any);
    assert_eq!(resting.len(), 1);
    assert_eq!(resting[0].restitution.raw(), 0);

    let mut receding = vec![contact(0, (1, 0), (1, 0), Peer::Terrain)];
    assert!(!screen_contacts(&bodies, &coms, &mut receding, false, 256));
    assert_eq!(receding.len(), 1);
}

#[test]
fn contacts_resolve_in_body_peer_and_cell_order() {
    let bodies = vec![body(5), body(2)];
    let contacts = vec![
        contact(0, (3, 1), (0, 1), Peer::Terrain),
        contact(1, (9, 9), (1, 0), Peer::Body(0)),
        contact(0, (2, 1), (0, 1), Peer::Terrain),
        contact(0, (0, 0), (1, 0), Peer::Cell { pos: cell(4, 4), mass: 10 }),
        contact(0, (0, 0), (1, 0), Peer::Body(1)),
        contact(1, (1, 1), (-1, 0), Peer::Terrain),
    ];
    let ordered = order_contacts(&bodies, contacts);
    let summary: Vec<(usize, CellPos)> = ordered.iter().map(|c| (c.body, c.at)).collect();
    assert_eq!(
        summary,
        vec![(1, cell(1, 1)), (1, cell(9, 9)), (0, cell(2, 1)), (0, cell(3, 1)), (0, cell(0, 0)), (0, cell(0, 0))]
    );
    assert!(matches!(ordered[4].peer, Peer::Body(1)));
    assert!(matches!(ordered[5].peer, Peer::Cell { .. }));
}

#[test]
fn waiting_proposals_commit_in_dependency_groups() {
    let mut proposals = vec![
        proposal(0, vec![], vec![(1, cell(0, 0), cell(0, 0))]),
        proposal(1, vec![], vec![(0, cell(0, 0), cell(0, 0))]),
        proposal(2, vec![], vec![]),
        proposal(3, vec![], vec![(4, cell(0, 0), cell(0, 0))]),
        proposal(4, vec![], vec![]),
        proposal(5, vec![], vec![(6, cell(0, 0), cell(0, 0))]),
        proposal(6, vec![], vec![]),
        proposal(7, vec![], vec![]),
    ];
    proposals[2].refused = true;
    proposals[4].committed = true;
    proposals[7].probe = true;
    assert_eq!(commit_groups(&proposals), vec![vec![0, 1], vec![3], vec![5, 6]]);
}

#[test]
fn a_group_gathers_what_its_first_member_waits_on() {
    let proposals = vec![
        proposal(0, vec![], vec![(2, cell(0, 0), cell(0, 0))]),
        proposal(1, vec![], vec![]),
        proposal(2, vec![], vec![]),
    ];
    assert_eq!(commit_groups(&proposals), vec![vec![0, 2], vec![1]]);
}

#[test]
fn a_group_may_not_claim_a_cell_twice() {
    let mut a = proposal(0, vec![], vec![]);
    a.candidate = vec![cell(0, 0), cell(1, 0)];
    let mut b = proposal(1, vec![], vec![]);
    b.candidate = vec![cell(2, 0)];
    let mut c = proposal(2, vec![], vec![]);
    c.candidate = vec![cell(1, 0)];
    let mut d = proposal(3, vec![], vec![]);
    d.candidate = vec![cell(5, 5), cell(5, 5)];
    let proposals = vec![a, b, c, d];
    assert!(candidates_disjoint(&proposals, &vec![0, 1]));
    assert!(!candidates_disjoint(&proposals, &vec![0, 1, 2]));
    assert!(candidates_disjoint(&proposals, &vec![1, 2]));
    assert!(!candidates_disjoint(&proposals, &vec![3]));
    assert!(candidates_disjoint(&proposals, &vec![]));
}

#[test]
fn proposals_wait_only_on_moving_peers_they_do_not_cross() {
    let mut me = body(1);
    me.vx = 5;
    me.vy = 0;
    let mut peer = body(2);
    peer.vx = 3;
    peer.vy = 0;
    assert!(waits_on_peer(&me, &peer, true, false));
    assert!(!waits_on_peer(&me, &peer, false, false));
    assert!(!waits_on_peer(&me, &peer, true, true));
    peer.vx = -3;
    assert!(!waits_on_peer(&me, &peer, true, false));
    peer.vx = 0;
    assert!(waits_on_peer(&me, &peer, true, false));
}

#[test]
fn classification_parks_refuses_or_cancels() {
    assert_eq!(classify_outcome(true, true, true), Classification::Unloaded);
    assert_eq!(classify_outcome(false, true, true), Classification::Touched);
    assert_eq!(classify_outcome(false, false, true), Classification::Busy);
    assert_eq!(classify_outcome(false, false, false), Classification::Clear);

    let mut movers = vec![Mover::new(), Mover::new()];
    let mut proposals = vec![proposal(0, vec![], vec![]), proposal(1, vec![], vec![]), proposal(0, vec![], vec![])];
    proposals[2].freedom = Freedom::Y;
    assert!(apply_classification(&mut movers, &mut proposals, 0, Classification::Unloaded));
    assert!(movers[0].freedoms.iter().all(|f| f.parked));
    assert!(movers[1].freedoms.iter().all(|f| !f.parked));
    let canceled: Vec<bool> = proposals.iter().map(|p| p.canceled).collect();
    assert_eq!(canceled, vec![true, false, true]);

    assert!(!apply_classification(&mut movers, &mut proposals, 1, Classification::Touched));
    assert!(proposals[1].refused && !proposals[1].canceled);

    let mut movers = vec![Mover::new(), Mover::new()];
    let mut proposals = vec![proposal(0, vec![], vec![]), proposal(1, vec![], vec![])];
    assert!(!apply_classification(&mut movers, &mut proposals, 1, Classification::Busy));
    assert!(movers[1].freedoms[Freedom::X.index()].parked);
    assert!(!movers[1].freedoms[Freedom::Y.index()].parked);
    assert!(proposals[1].canceled && !proposals[0].canceled);

    let mut mover = Mover::new();
    mover.freedoms[0].probed = true;
    let mut proposals = vec![proposal(3, vec![], vec![]), proposal(4, vec![], vec![])];
    bodies_parked(&mut mover, &mut proposals, 4);
    assert!(mover.freedoms.iter().all(|f| f.parked));
    assert!(mover.freedoms[0].probed);
    assert!(!proposals[0].canceled && proposals[1].canceled);
}

#[test]
fn an_outranked_claimant_loses_even_when_the_winner_loses_elsewhere() {
    let mut a = body(1);
    a.vx = 10;
    a.vy = 0;
    a.spin = Spin::zero();
    let mut b = body(2);
    b.vx = -5;
    b.vy = 0;
    b.spin = Spin::zero();
    let mut c = body(3);
    c.vx = 0;
    c.vy = -20;
    c.spin = Spin::zero();
    let bodies = vec![a, b, c];
    let coms = vec![(0, 0), (0, 0), (0, 0)];
    let mut proposals = vec![
        proposal(0, vec![(cell(5, 0), cell(4, 0)), (cell(5, 1), cell(4, 1))], vec![]),
        proposal(1, vec![(cell(5, 0), cell(6, 0))], vec![]),
        proposal(2, vec![(cell(5, 1), cell(5, 2))], vec![]),
    ];
    let mut losses = resolve_ties(&bodies, &coms, &mut proposals, 256);
    losses.sort_by_key(|l| l.0);
    assert_eq!(losses, vec![(0, cell(5, 1), cell(4, 1), 2), (1, cell(5, 0), cell(6, 0), 0)]);
    assert!(proposals[0].refused && proposals[1].refused && !proposals[2].refused);
    let contacts = fallingsand_sim::classify::loss_contacts(&bodies, &proposals, &losses);
    assert_eq!(contacts.len(), 2);
    assert_eq!(contacts[1].body, 1);
    assert_eq!(contacts[1].peer, Peer::Body(0));
    assert_eq!(contacts[1].normal, (1, 0));
    assert_eq!(contacts[1].at, cell(5, 0));
}
