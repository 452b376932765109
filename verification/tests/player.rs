use fallingsand_sim::geometry::{CellPos, Footprint};
use fallingsand_sim::player::{
    covers_exactly, pattern, player_raster, player_shape, settle_drain, shade_for, stamp_unchanged, unstamp_player,
    PlayerStamp, BUCKLE, DARK, DRAIN_DECAY_TICKS, HAIR, ROBE, ROWS_9, SHADE,
};
use fallingsand_sim::raster::Raster;

fn footprint() -> Footprint {
    Footprint { x0: 10, y0: 20, x1: 12, y1: 22 }
}

#[test]
fn patterns_by_height() {
    assert_eq!(pattern(5).len(), 5);
    assert_eq!(pattern(7).len(), 7);
    assert_eq!(pattern(9), &ROWS_9[..]);
    assert_eq!(pattern(4), &ROWS_9[..]);
    assert_eq!(pattern(12).len(), 9);
}

#[test]
fn shades_mirror_when_facing_left() {
    assert_eq!(shade_for(0, 9, false), ROBE);
    assert_eq!(shade_for(2, 9, false), HAIR);
    assert_eq!(shade_for(2, 9, true), ROBE);
    assert_eq!(shade_for(17, 9, false), BUCKLE);
    assert_eq!(shade_for(26, 9, false), DARK);
    assert_eq!(shade_for(11, 5, false), BUCKLE);
    assert_eq!(shade_for(12, 5, false), SHADE);
}

#[test]
fn player_shapes_are_three_wide() {
    let standing = player_shape(9);
    assert_eq!((standing.w(), standing.h()), (3, 9));
    let flat = player_shape(0);
    assert_eq!((flat.w(), flat.h()), (3, 1));
}

#[test]
fn player_raster_lists_the_footprint_bottom_up() {
    let raster = player_raster(footprint());
    let expected: Vec<(CellPos, u16)> = vec![
        (CellPos::new(10, 20), 6),
        (CellPos::new(11, 20), 7),
        (CellPos::new(12, 20), 8),
        (CellPos::new(10, 21), 3),
        (CellPos::new(11, 21), 4),
        (CellPos::new(12, 21), 5),
        (CellPos::new(10, 22), 0),
        (CellPos::new(11, 22), 1),
        (CellPos::new(12, 22), 2),
    ];
    assert_eq!(raster.cells, expected);
    assert!(raster.covers(CellPos::new(11, 21)));
    assert!(!raster.covers(CellPos::new(13, 21)));
    assert!(covers_exactly(&raster, footprint()));
    assert!(!covers_exactly(&raster, Footprint { x0: 10, y0: 20, x1: 13, y1: 22 }));
}

#[test]
fn rasters_insert_each_cell_once() {
    let mut raster = Raster::new();
    assert!(raster.insert(CellPos::new(1, 2), 0));
    assert!(raster.insert(CellPos::new(-1, 2), 1));
    assert!(!raster.insert(CellPos::new(1, 2), 5));
    assert_eq!(raster.cells, vec![(CellPos::new(1, 2), 0), (CellPos::new(-1, 2), 1)]);
    assert!(raster.covers(CellPos::new(-1, 2)));
    assert!(!raster.covers(CellPos::new(2, 1)));
}

#[test]
fn a_new_stamp_covers_nothing() {
    let stamp = PlayerStamp::new();
    assert!(!stamp.is_stamped());
    assert!(!stamp.facing_left());
    assert!(!stamp.covers(CellPos::new(0, 0)));
}

#[test]
fn an_unchanged_stamp_is_recognised() {
    let mut stamp = PlayerStamp::new();
    stamp.raster = Some(player_raster(footprint()));
    stamp.rows = 3;
    stamp.facing_left = true;
    assert!(stamp.is_stamped());
    assert!(stamp.covers(CellPos::new(12, 22)));
    assert!(stamp_unchanged(&stamp, footprint(), true));
    assert!(!stamp_unchanged(&stamp, footprint(), false));
    assert!(!stamp_unchanged(&stamp, Footprint { x0: 11, y0: 20, x1: 13, y1: 22 }, true));
    stamp.rows = 4;
    assert!(!stamp_unchanged(&stamp, footprint(), true));
}

#[test]
fn displaced_liquid_drains_after_enough_dry_ticks() {
    let mut stamp = PlayerStamp::new();
    settle_drain(&mut stamp, false);
    assert_eq!(stamp.dry_ticks, 0);
    stamp.displaced.insert(7, 1000);
    for tick in 1..DRAIN_DECAY_TICKS {
        settle_drain(&mut stamp, false);
        assert_eq!(stamp.dry_ticks, tick);
        assert_eq!(stamp.displaced.len(), 1);
    }
    settle_drain(&mut stamp, true);
    assert_eq!(stamp.dry_ticks, 0);
    assert_eq!(stamp.displaced.len(), 1);
    for _ in 1..DRAIN_DECAY_TICKS {
        settle_drain(&mut stamp, false);
    }
    settle_drain(&mut stamp, false);
    assert_eq!(stamp.dry_ticks, 0);
    assert!(stamp.displaced.is_empty());
}

#[test]
fn unstamping_hands_back_the_raster() {
    let mut stamp = PlayerStamp::new();
    stamp.raster = Some(player_raster(footprint()));
    stamp.displaced.insert(3, 500);
    stamp.dry_ticks = 4;
    let raster = unstamp_player(&mut stamp).unwrap();
    assert_eq!(raster.cells.len(), 9);
    assert!(!stamp.is_stamped());
    assert!(stamp.displaced.is_empty());
    assert_eq!(stamp.dry_ticks, 0);
    assert!(unstamp_player(&mut stamp).is_none());
}

#[test]
fn step_input_defaults_to_no_controls() {
    let input = fallingsand_sim::player::StepInput::default();
    assert_eq!(input, fallingsand_sim::player::StepInput { move_x: 0, jump: false, jump_pressed: false, down: false, fly: false });
}
