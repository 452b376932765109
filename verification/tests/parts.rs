use fallingsand_sim::geometry::{MaterialId, Q16};
use fallingsand_sim::parts::{Reconciled, Sight, group_parts, part_survivors, reconcile_body};
use fallingsand_sim::state::Slot;

fn slot(x: i32, y: i32, material: u16) -> Slot {
    Slot { local: (x, y), material: MaterialId(material), density_milli: 1000, restitution: Q16(0), friction: Q16(0) }
}

fn kept(material: u16) -> Sight {
    Sight::Kept { material: MaterialId(material) }
}

/// Materials 0 and 1 bond to themselves and each other; material 2 cannot bond.
fn bondable() -> Vec<bool> {
    vec![true, true, false]
}

fn bonds() -> Vec<Vec<bool>> {
    vec![vec![true, true, false], vec![true, true, false], vec![false, false, false]]
}

fn row() -> Vec<Slot> {
    vec![slot(0, 0, 0), slot(1, 0, 0), slot(2, 0, 0)]
}

#[test]
fn an_unchanged_body_is_intact() {
    let r = reconcile_body(&row(), &vec![kept(0), kept(0), kept(0)], &bondable(), &bonds());
    assert!(matches!(r, Reconciled::Intact));
}

#[test]
fn an_unloaded_cell_parks_the_body_after_the_releases_before_it() {
    let sights = vec![kept(2), kept(0), Sight::Unloaded];
    match reconcile_body(&row(), &sights, &bondable(), &bonds()) {
        Reconciled::Parked { released } => assert_eq!(released, vec![0]),
        other => panic!("expected a parked body, got {:?}", other),
    }
    let sights = vec![Sight::Unloaded, kept(2), kept(2)];
    match reconcile_body(&row(), &sights, &bondable(), &bonds()) {
        Reconciled::Parked { released } => assert!(released.is_empty()),
        other => panic!("expected a parked body, got {:?}", other),
    }
}

#[test]
fn a_body_with_nothing_kept_is_gone() {
    let sights = vec![Sight::Lost, kept(2), Sight::Lost];
    match reconcile_body(&row(), &sights, &bondable(), &bonds()) {
        Reconciled::Gone { released } => assert_eq!(released, vec![1]),
        other => panic!("expected a gone body, got {:?}", other),
    }
    assert!(matches!(reconcile_body(&Vec::new(), &Vec::new(), &bondable(), &bonds()), Reconciled::Gone { .. }));
}

#[test]
fn a_changed_material_keeps_one_part_with_the_new_material() {
    match reconcile_body(&row(), &vec![kept(0), kept(1), kept(0)], &bondable(), &bonds()) {
        Reconciled::Parts { released, kept, cells, part_of, parts } => {
            assert!(released.is_empty());
            assert_eq!(kept, vec![0, 1, 2]);
            assert_eq!(cells, vec![((0, 0), MaterialId(0)), ((1, 0), MaterialId(1)), ((2, 0), MaterialId(0))]);
            assert_eq!(part_of, vec![0, 0, 0]);
            assert_eq!(parts, 1);
        }
        other => panic!("expected parts, got {:?}", other),
    }
}

#[test]
fn a_lost_middle_cell_splits_the_row() {
    match reconcile_body(&row(), &vec![kept(0), Sight::Lost, kept(0)], &bondable(), &bonds()) {
        Reconciled::Parts { released, kept, part_of, parts, .. } => {
            assert!(released.is_empty());
            assert_eq!(kept, vec![0, 2]);
            assert_eq!(part_of, vec![0, 1]);
            assert_eq!(parts, 2);
        }
        other => panic!("expected parts, got {:?}", other),
    }
}

#[test]
fn a_middle_cell_that_cannot_bond_is_let_go_and_splits_the_row() {
    match reconcile_body(&row(), &vec![kept(0), kept(2), kept(0)], &bondable(), &bonds()) {
        Reconciled::Parts { released, kept, part_of, parts, .. } => {
            assert_eq!(released, vec![1]);
            assert_eq!(kept, vec![0, 2]);
            assert_eq!(part_of, vec![0, 1]);
            assert_eq!(parts, 2);
        }
        other => panic!("expected parts, got {:?}", other),
    }
}

#[test]
fn parts_start_from_the_first_member_in_order() {
    // Material 0 bonds to 1, but 1 bonds to nothing.
    let one_way = vec![vec![false, true], vec![false, false]];
    let cells = vec![((1, 0), MaterialId(1)), ((0, 0), MaterialId(0))];
    assert_eq!(part_survivors(&cells, &one_way), (vec![0, 1], 2));
    let cells = vec![((0, 0), MaterialId(0)), ((1, 0), MaterialId(1))];
    assert_eq!(part_survivors(&cells, &one_way), (vec![0, 0], 1));
}

#[test]
fn an_l_shape_holds_together() {
    let cells = vec![((0, 0), MaterialId(0)), ((5, 5), MaterialId(0)), ((0, 1), MaterialId(0)), ((1, 1), MaterialId(0))];
    assert_eq!(part_survivors(&cells, &bonds()), (vec![0, 1, 0, 0], 2));
}

#[test]
fn split_parts_keep_the_body_id_first_and_take_fresh_ids_in_order() {
    let part_of = vec![1u32, 0, 2, 1, 0];
    let groups = group_parts(&part_of, 3, 42, &vec![100, 101]);
    assert_eq!(groups.len(), 3);
    assert_eq!(groups[0], (42, vec![1, 4]));
    assert_eq!(groups[1], (100, vec![0, 3]));
    assert_eq!(groups[2], (101, vec![2]));
}

#[test]
fn a_whole_body_is_one_part_under_its_own_id() {
    let groups = group_parts(&vec![0u32, 0, 0], 1, 7, &vec![]);
    assert_eq!(groups, vec![(7, vec![0, 1, 2])]);
}
