use fallingsand_sim::geometry::{CellPos, Phase};
use fallingsand_sim::motion::{
    admits, entry, next_axis, prefer_side, step_cells, transfer_momentum, walk_line, write_velocity, Entry, Exchange,
    Traversal, VelocityWrite, MAX_COMPONENT_CELLS,
};

#[test]
fn step_cells_carries_whole_and_drawn_fractions() {
    assert_eq!(step_cells(600, 50, 256), 3);
    assert_eq!(step_cells(600, 100, 256), 2);
    assert_eq!(step_cells(-600, 0, 256), -3);
    assert_eq!(step_cells(256 * 40, 0, 256), MAX_COMPONENT_CELLS);
    assert_eq!(step_cells(-256 * 40, 0, 256), -MAX_COMPONENT_CELLS);
    assert_eq!(step_cells(0, 0, 256), 0);
}

#[test]
fn preferred_side_follows_velocity_or_the_coin() {
    assert_eq!(prefer_side(5, false), 1);
    assert_eq!(prefer_side(-5, true), -1);
    assert_eq!(prefer_side(0, true), 1);
    assert_eq!(prefer_side(0, false), -1);
}

#[test]
fn admission_by_phase_and_density() {
    assert!(admits(1000, -1, Phase::Liquid, 500, false));
    assert!(!admits(1000, -1, Phase::Solid, 0, false));
    assert!(!admits(1000, -1, Phase::Powder, 10, false));
    assert!(admits(10, 1, Phase::Liquid, 1000, false));
    assert!(!admits(10, -1, Phase::Liquid, 1000, false));
    assert!(admits(10, 0, Phase::Gas, 50, true));
    assert!(!admits(10, 0, Phase::Gas, 50, false));
    assert!(!admits(10, -1, Phase::Gas, 10, false));
}

#[test]
fn entry_outcomes() {
    assert_eq!(entry(None, true, false), Entry::Blocked);
    assert_eq!(entry(Some(false), true, false), Entry::Blocked);
    assert_eq!(entry(Some(true), false, true), Entry::Busy);
    assert_eq!(entry(Some(true), true, true), Entry::Open);
    assert_eq!(entry(Some(true), false, false), Entry::Open);
}

#[test]
fn velocity_writes_settle_clamp_and_mark() {
    assert_eq!(write_velocity(0, 0, 5, -3, true, 4, 100), VelocityWrite::Store(5, 0));
    assert_eq!(write_velocity(5, 0, 5, -3, true, 4, 100), VelocityWrite::Mark);
    assert_eq!(write_velocity(0, 0, 2, 2, true, 4, 100), VelocityWrite::Keep);
    assert_eq!(write_velocity(0, 0, 2, 2, false, 4, 100), VelocityWrite::Store(2, 2));
    assert_eq!(write_velocity(0, 0, 500, -500, false, 4, 100), VelocityWrite::Store(100, -100));
}

#[test]
fn next_axis_follows_the_line() {
    assert_eq!(next_axis((0, 0), (3, 1)), 0);
    assert_eq!(next_axis((1, 0), (3, 1)), 1);
    assert_eq!(next_axis((1, 1), (3, 1)), 0);
    assert_eq!(next_axis((3, 0), (3, 1)), 1);
}

#[test]
fn traversal_walks_open_cells_toward_the_goal() {
    let mut t = Traversal::new(CellPos::new(0, 0), 3, -1);
    let mut visited = Vec::new();
    while !t.finished() {
        let (axis, _, next) = t.next_step();
        t.record(axis, next, Entry::Open);
        visited.push(next);
    }
    assert_eq!(
        visited,
        vec![CellPos::new(1, 0), CellPos::new(1, -1), CellPos::new(2, -1), CellPos::new(3, -1)]
    );
    assert_eq!(t.travel.pos, CellPos::new(3, -1));
    assert_eq!(t.travel.blocked, [0, 0]);
}

#[test]
fn traversal_stops_an_axis_at_a_blocker() {
    let mut t = Traversal::new(CellPos::new(0, 0), 3, -1);
    let (axis, dir, next) = t.next_step();
    assert_eq!((axis, dir, next), (0, (1, 0), CellPos::new(1, 0)));
    t.record(axis, next, Entry::Blocked);
    assert_eq!(t.travel.blocked, [1, 0]);
    assert_eq!(t.travel.pos, CellPos::new(0, 0));
    let (axis, dir, next) = t.next_step();
    assert_eq!((axis, dir, next), (1, (0, -1), CellPos::new(0, -1)));
    t.record(axis, next, Entry::Busy);
    assert!(t.finished());
    assert_eq!(t.travel.pos, CellPos::new(0, 0));
    assert_eq!(t.travel.blocked, [1, 0]);
}

#[test]
fn walk_line_steps_one_cell_at_a_time() {
    let path = walk_line(CellPos::new(0, 0), CellPos::new(3, 1));
    assert_eq!(
        path,
        vec![
            (CellPos::new(1, 0), CellPos::new(0, 0)),
            (CellPos::new(2, 0), CellPos::new(1, 0)),
            (CellPos::new(3, 0), CellPos::new(2, 0)),
            (CellPos::new(3, 1), CellPos::new(3, 0)),
        ]
    );
    assert!(walk_line(CellPos::new(4, 4), CellPos::new(4, 4)).is_empty());
    let back = walk_line(CellPos::new(2, 2), CellPos::new(-1, 0));
    assert_eq!(back.len(), 5);
    assert_eq!(back.last().unwrap().0, CellPos::new(-1, 0));
}

#[test]
fn momentum_passes_to_a_closing_blocker() {
    assert_eq!(transfer_momentum(100, 0, 1, 1, 1, 0), Exchange { velocity: 50, received: Some(50) });
    assert_eq!(transfer_momentum(100, 0, 1, 1, 1, 65536), Exchange { velocity: 0, received: Some(100) });
    assert_eq!(transfer_momentum(100, 0, 1, 3, 1, 0), Exchange { velocity: 75, received: Some(75) });
    assert_eq!(transfer_momentum(-100, 0, -1, 1, 1, 0), Exchange { velocity: -50, received: Some(-50) });
    assert_eq!(transfer_momentum(-5, 0, 1, 1, 1, 0), Exchange { velocity: -5, received: None });
}
