use fallingsand_sim::geometry::{Dir, Footprint};
use fallingsand_sim::shape::Shape;

#[test]
fn offsets_are_sorted_into_rows_without_duplicates() {
    let shape = Shape::from_offsets(vec![(1, 0), (0, 1), (0, 0), (0, 0)]);
    assert_eq!(shape.cells, vec![(0, 0), (1, 0), (0, 1)]);
    assert_eq!((shape.w(), shape.h()), (2, 2));
}

#[test]
fn frontiers_face_each_direction() {
    let shape = Shape::from_offsets(vec![(1, 0), (0, 1), (0, 0)]);
    assert_eq!(shape.frontier(Dir::PosX), &[(1, 0), (0, 1)]);
    assert_eq!(shape.frontier(Dir::NegX), &[(0, 0), (0, 1)]);
    assert_eq!(shape.frontier(Dir::PosY), &[(1, 0), (0, 1)]);
    assert_eq!(shape.frontier(Dir::NegY), &[(0, 0), (1, 0)]);
    assert_eq!(shape.bottom(), shape.frontier(Dir::NegY));
}

#[test]
fn rectangles_fill_their_extent() {
    let shape = Shape::rect(3, 2);
    assert_eq!((shape.w(), shape.h()), (3, 2));
    assert_eq!(shape.cells.len(), 6);
    for x in -1..4 {
        for y in -1..3 {
            assert_eq!(shape.covers_offset((x, y)), (0..3).contains(&x) && (0..2).contains(&y));
        }
    }
    assert_eq!(shape.bottom(), &[(0, 0), (1, 0), (2, 0)]);
    assert_eq!(shape.frontier(Dir::PosX), &[(2, 0), (2, 1)]);
}

#[test]
fn degenerate_rectangles_have_one_cell() {
    let shape = Shape::rect(0, -4);
    assert_eq!((shape.w(), shape.h()), (1, 1));
    assert_eq!(shape.cells, vec![(0, 0)]);
}

#[test]
fn origin_and_footprint_center_the_shape() {
    let shape = Shape::rect(3, 9);
    assert_eq!(shape.origin(10 * 256 + 17, 5 * 256, 256), (9, 1));
    assert_eq!(shape.footprint(10 * 256 + 17, 5 * 256, 256), Footprint { x0: 9, y0: 1, x1: 11, y1: 9 });
    assert_eq!(shape.origin(-1, -1, 256), (-2, -5));
}
