use fallingsand_sim::geometry::{CellPos, MaterialId};
use fallingsand_sim::islands::{Member, dimensions, inherited_component, label_components, split_components};

fn member(x: i32, y: i32, material: u16) -> Member {
    Member { local: (x, y), pos: CellPos { x: x + 100, y: y + 200 }, material: MaterialId(material) }
}

/// Material 0 bonds to itself, material 1 bonds to nothing, material 2 bonds to 0 and 2.
fn table() -> Vec<Vec<bool>> {
    vec![vec![true, false, true], vec![false, false, false], vec![true, false, true]]
}

#[test]
fn a_gap_splits_a_row_into_two_pieces() {
    let members = vec![member(0, 0, 0), member(1, 0, 0), member(3, 0, 0)];
    let pieces = split_components(&members, &table());
    assert_eq!(
        pieces,
        vec![
            vec![CellPos { x: 100, y: 200 }, CellPos { x: 101, y: 200 }],
            vec![CellPos { x: 103, y: 200 }],
        ]
    );
}

#[test]
fn a_non_bonding_cell_stands_alone() {
    let members = vec![member(0, 0, 0), member(1, 0, 1), member(2, 0, 0)];
    let (labels, count) = label_components(&members, &table());
    assert_eq!(count, 3);
    assert_eq!(labels, vec![0, 1, 2]);
}

#[test]
fn pieces_start_from_the_lowest_row_first() {
    let members = vec![member(5, 3, 0), member(0, 1, 0), member(0, 0, 2), member(5, 4, 0)];
    let (labels, count) = label_components(&members, &table());
    assert_eq!(count, 2);
    assert_eq!(labels, vec![1, 0, 0, 1]);
    let pieces = split_components(&members, &table());
    assert_eq!(
        pieces,
        vec![
            vec![CellPos { x: 100, y: 200 }, CellPos { x: 100, y: 201 }],
            vec![CellPos { x: 105, y: 203 }, CellPos { x: 105, y: 204 }],
        ]
    );
}

#[test]
fn a_later_member_replaces_an_earlier_one_at_the_same_place() {
    let members = vec![member(0, 0, 0), member(1, 0, 0), member(0, 0, 1)];
    let (labels, count) = label_components(&members, &table());
    assert_eq!(count, 2);
    assert_eq!(labels, vec![usize::MAX, 1, 0]);
}

#[test]
fn one_way_bonds_follow_the_walk_from_the_start() {
    // Material 0 bonds to 1, but 1 does not bond back.
    let bonds = vec![vec![true, true], vec![false, true]];
    let members = vec![member(1, 0, 0), member(0, 0, 1)];
    let (labels, count) = label_components(&members, &bonds);
    assert_eq!(count, 2);
    assert_eq!(labels, vec![1, 0]);
    let members = vec![member(0, 0, 0), member(1, 0, 1)];
    let (labels, count) = label_components(&members, &bonds);
    assert_eq!(count, 1);
    assert_eq!(labels, vec![0, 0]);
}

#[test]
fn no_members_make_no_pieces() {
    let pieces = split_components(&Vec::new(), &table());
    assert!(pieces.is_empty());
}

#[test]
fn the_largest_piece_inherits() {
    let pivot = CellPos { x: 9, y: 9 };
    let pieces = vec![
        vec![CellPos { x: 0, y: 0 }],
        vec![CellPos { x: 1, y: 1 }, CellPos { x: 2, y: 1 }],
        vec![CellPos { x: 4, y: 4 }],
    ];
    assert_eq!(inherited_component(&pieces, pivot), 1);
}

#[test]
fn among_equals_the_piece_with_the_pivot_inherits() {
    let pieces = vec![vec![CellPos { x: 0, y: 0 }], vec![CellPos { x: 5, y: 5 }]];
    assert_eq!(inherited_component(&pieces, CellPos { x: 5, y: 5 }), 1);
    assert_eq!(inherited_component(&pieces, CellPos { x: 7, y: 7 }), 0);
}

#[test]
fn among_equals_without_the_pivot_the_first_in_row_order_inherits() {
    let pieces = vec![
        vec![CellPos { x: 3, y: 2 }],
        vec![CellPos { x: 8, y: 1 }],
        vec![CellPos { x: 2, y: 1 }],
        vec![CellPos { x: 2, y: 1 }],
    ];
    assert_eq!(inherited_component(&pieces, CellPos { x: 0, y: 0 }), 2);
}

#[test]
fn nothing_to_inherit_is_usize_max() {
    assert_eq!(inherited_component(&Vec::new(), CellPos { x: 0, y: 0 }), usize::MAX);
}

#[test]
fn dimensions_span_the_bounding_box() {
    let cells = vec![CellPos { x: 3, y: -2 }, CellPos { x: -1, y: 4 }, CellPos { x: 0, y: 0 }];
    assert_eq!(dimensions(&cells), (5, 7));
}

#[test]
fn dimensions_are_clamped_to_a_byte_and_at_least_one() {
    assert_eq!(dimensions(&Vec::new()), (1, 1));
    let wide = vec![CellPos { x: 0, y: 0 }, CellPos { x: 400, y: 0 }];
    assert_eq!(dimensions(&wide), (255, 1));
}
