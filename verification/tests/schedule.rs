use fallingsand_sim::block::{block_scan, DirtyRect};
use fallingsand_sim::geometry::{CellPos, ChunkPos};
use fallingsand_sim::schedule::{PHASE_ORDERS, in_phase, owned_chunks, plan_phase, slot_of, window_origin, window_slot};

fn chunk(x: i32, y: i32) -> ChunkPos {
    ChunkPos { x, y }
}

#[test]
fn blocks_take_turns_by_parity() {
    assert!(in_phase(chunk(0, 0), 0));
    assert!(in_phase(chunk(1, 1), 0));
    assert!(in_phase(chunk(2, 0), 1));
    assert!(in_phase(chunk(0, 2), 2));
    assert!(in_phase(chunk(2, 2), 3));
    assert!(in_phase(chunk(-1, -1), 3));
    assert!(!in_phase(chunk(-1, -1), 0));
}

#[test]
fn every_chunk_has_exactly_one_phase() {
    for x in -9..9 {
        for y in -9..9 {
            let phases = (0u32..4).filter(|&p| in_phase(chunk(x, y), p)).count();
            assert_eq!(phases, 1);
        }
    }
}

#[test]
fn windows_surround_their_block() {
    assert_eq!(window_origin(chunk(0, 0)), chunk(-1, -1));
    assert_eq!(window_origin(chunk(1, 1)), chunk(-1, -1));
    assert_eq!(window_origin(chunk(2, 3)), chunk(1, 1));
    assert_eq!(window_origin(chunk(-1, -1)), chunk(-3, -3));
}

#[test]
fn windows_of_one_phase_never_share_a_chunk() {
    for phase in 0u32..4 {
        let mut owner = std::collections::HashMap::new();
        for x in -8..8 {
            for y in -8..8 {
                if !in_phase(chunk(x, y), phase) {
                    continue;
                }
                let o = window_origin(chunk(x, y));
                for sx in 0..4 {
                    for sy in 0..4 {
                        let member = (o.x + sx, o.y + sy);
                        let previous = owner.insert(member, (o.x, o.y));
                        assert!(previous.is_none() || previous == Some((o.x, o.y)));
                    }
                }
            }
        }
    }
}

#[test]
fn a_phase_plan_lists_windows_and_their_chunks() {
    let chunks = [chunk(0, 0), chunk(1, 1), chunk(4, 0), chunk(2, 0), chunk(5, 1)];
    let scheduled = [true, true, true, true, false];
    let plan = plan_phase(&chunks, &scheduled, 0);
    assert_eq!(plan.phase, 0);
    assert_eq!(plan.origins, vec![chunk(-1, -1), chunk(3, -1)]);
    assert_eq!(plan.members.len(), 32);
    assert_eq!(plan.member(chunk(0, 0)), Some((0, 1, 1)));
    assert_eq!(plan.member(chunk(3, 2)), Some((1, 0, 3)));
    assert_eq!(plan.member(chunk(2, 2)), Some((0, 3, 3)));
    assert_eq!(plan.member(chunk(7, 0)), None);
    assert_eq!(plan.member(chunk(-2, 0)), None);
}

#[test]
fn an_empty_schedule_plans_no_windows() {
    let plan = plan_phase(&[chunk(0, 0)], &[false], 0);
    assert!(plan.origins.is_empty());
    assert_eq!(plan.member(chunk(0, 0)), None);
}

#[test]
fn window_slots_are_row_major() {
    assert_eq!(window_slot(1, 2), Some(9));
    assert_eq!(window_slot(3, 3), Some(15));
    assert_eq!(window_slot(4, 0), None);
    assert_eq!(window_slot(-1, 0), None);
    assert_eq!(slot_of(chunk(3, -1), chunk(5, 1)), Some(10));
    assert_eq!(slot_of(chunk(3, -1), chunk(7, 1)), None);
}

#[test]
fn owned_chunks_need_all_neighbors_loaded() {
    let all = owned_chunks([[true; 2]; 2], [[true; 4]; 4]);
    assert_eq!(all, [[true; 2]; 2]);
    let mut loaded = [[true; 4]; 4];
    loaded[0][0] = false;
    assert_eq!(owned_chunks([[true; 2]; 2], loaded), [[false, true], [true, true]]);
    assert_eq!(owned_chunks([[true, false], [true, true]], [[true; 4]; 4]), [[true, false], [true, true]]);
}

#[test]
fn block_scan_visits_dirty_cells_row_by_row() {
    let rects = [
        [Some(DirtyRect { min_x: 1, min_y: 0, max_x: 2, max_y: 1 }), None],
        [None, Some(DirtyRect { min_x: 0, min_y: 3, max_x: 0, max_y: 3 })],
    ];
    let leftward = [false, true, false, false, false, false, false, true];
    let cells = block_scan(CellPos::new(0, 0), 4, rects, &leftward);
    assert_eq!(
        cells,
        vec![CellPos::new(1, 0), CellPos::new(2, 0), CellPos::new(2, 1), CellPos::new(1, 1), CellPos::new(4, 7)]
    );
}

#[test]
fn block_scan_crosses_both_chunks_of_a_row() {
    let full = Some(DirtyRect { min_x: 0, min_y: 0, max_x: 1, max_y: 1 });
    let rects = [[full, full], [None, None]];
    let right = block_scan(CellPos::new(10, 20), 2, rects, &[false, false, false, false]);
    assert_eq!(
        right,
        vec![
            CellPos::new(10, 20), CellPos::new(11, 20), CellPos::new(12, 20), CellPos::new(13, 20),
            CellPos::new(10, 21), CellPos::new(11, 21), CellPos::new(12, 21), CellPos::new(13, 21),
        ]
    );
    let left = block_scan(CellPos::new(10, 20), 2, rects, &[true, false, false, false]);
    assert_eq!(&left[..4], &[CellPos::new(13, 20), CellPos::new(12, 20), CellPos::new(11, 20), CellPos::new(10, 20)]);
}

#[test]
fn every_phase_order_runs_each_phase_once() {
    let mut seen = Vec::new();
    for order in PHASE_ORDERS {
        let mut sorted = order;
        sorted.sort();
        assert_eq!(sorted, [0, 1, 2, 3]);
        assert!(!seen.contains(&order));
        seen.push(order);
    }
    assert_eq!(seen.len(), 24);
}
