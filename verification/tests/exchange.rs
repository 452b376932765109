use fallingsand_sim::exchange::group_exchange;
use fallingsand_sim::geometry::CellPos;

fn at(x: i32, y: i32) -> CellPos {
    CellPos { x, y }
}

#[test]
fn a_body_moving_right_gives_up_its_left_column_and_takes_a_right_one() {
    let before = vec![vec![at(0, 0), at(1, 0), at(0, 1), at(1, 1)]];
    let after = vec![vec![at(1, 0), at(2, 0), at(1, 1), at(2, 1)]];
    let (vacated, claimed) = group_exchange(&before, &after);
    assert_eq!(vacated, vec![at(0, 0), at(0, 1)]);
    assert_eq!(claimed, vec![at(2, 0), at(2, 1)]);
}

#[test]
fn cells_passed_between_bodies_of_the_group_are_neither_given_up_nor_taken() {
    let before = vec![vec![at(0, 0)], vec![at(1, 0)]];
    let after = vec![vec![at(1, 0)], vec![at(2, 0)]];
    let (vacated, claimed) = group_exchange(&before, &after);
    assert_eq!(vacated, vec![at(0, 0)]);
    assert_eq!(claimed, vec![at(2, 0)]);
    assert_eq!(vacated.len(), claimed.len());
}

#[test]
fn cells_come_once_and_in_row_order() {
    let before = vec![vec![at(3, 2), at(1, 5)], vec![at(3, 2), at(0, 2)]];
    let after: Vec<Vec<CellPos>> = vec![vec![], vec![]];
    let (vacated, claimed) = group_exchange(&before, &after);
    assert_eq!(vacated, vec![at(0, 2), at(3, 2), at(1, 5)]);
    assert!(claimed.is_empty());
}

#[test]
fn a_group_that_stays_put_trades_nothing() {
    let cells = vec![vec![at(4, 4), at(5, 4)]];
    let (vacated, claimed) = group_exchange(&cells, &cells);
    assert!(vacated.is_empty());
    assert!(claimed.is_empty());
}
