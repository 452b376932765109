use fallingsand_sim::bodies::{capture, island_blocker, settle_body, Bodies, CellWrite, Fracture, Occupant};
use fallingsand_sim::fx::key_of_pair;
use fallingsand_sim::geometry::{CellPos, ChunkPos, MaterialId, Phase, Q16};
use fallingsand_sim::raster::key_of;
use fallingsand_sim::reshape::Seen;
use fallingsand_sim::rotation::Spin;
use fallingsand_sim::state::{Body, Freedoms, Policy, Slot};
use rustc_hash::FxHashMap;

fn at(x: i32, y: i32) -> CellPos {
    CellPos { x, y }
}

fn slot(x: i32, y: i32) -> Slot {
    Slot { local: (x, y), material: MaterialId(1), density_milli: 1000, restitution: Q16::from_raw(0), friction: Q16::from_raw(0) }
}

fn body(id: u32, raster: Vec<CellPos>) -> Body {
    let anchor = raster[0];
    Body {
        id,
        slots: raster.iter().map(|p| slot(p.x - anchor.x, p.y - anchor.y)).collect(),
        raster,
        anchor,
        step: 0,
        vx: 5,
        vy: -7,
        spin: Spin::zero(),
        acc_x: 0,
        acc_y: 0,
        acc_turn: 0,
        mass: 2000,
        moment: 1000,
        radius: 1,
        restitution: Q16::from_raw(0),
        friction: Q16::from_raw(0),
        weight: 44,
        freedoms: Freedoms::translation(),
        settles: false,
        assists: true,
        was_grounded: false,
        parked: false,
    }
}

fn two_bodies() -> Bodies {
    let mut bodies = Bodies::new();
    bodies.bodies.push(body(5, vec![at(0, 0), at(1, 0), at(1, 1)]));
    bodies.bodies.push(body(9, vec![at(10, 10)]));
    bodies.rebuild_index();
    bodies
}

fn solid(owner: Option<u32>) -> Occupant {
    Occupant { owner, phase: Phase::Solid }
}

#[test]
fn bodies_are_found_by_id() {
    let bodies = two_bodies();
    assert_eq!(bodies.cell(5), Some(at(0, 0)));
    assert_eq!(bodies.cell(9), Some(at(10, 10)));
    assert_eq!(bodies.cell(3), None);
    assert_eq!(bodies.velocity(9), Some((5, -7)));
    assert_eq!(bodies.velocity(3), None);
    assert_eq!(bodies.weight(5), 44);
    assert_eq!(bodies.weight(3), 0);
}

#[test]
fn driving_sets_only_that_body_s_velocity() {
    let mut bodies = two_bodies();
    bodies.drive(9, 100, 200);
    assert_eq!(bodies.velocity(9), Some((100, 200)));
    assert_eq!(bodies.velocity(5), Some((5, -7)));
    bodies.drive(3, 1, 1);
    assert_eq!(bodies.velocity(5), Some((5, -7)));
}

#[test]
fn a_dying_body_becomes_debris() {
    let mut bodies = two_bodies();
    bodies.die(5);
    assert!(bodies.bodies[0].settles);
    assert!(!bodies.bodies[0].assists);
    assert_eq!(bodies.bodies[0].freedoms, Freedoms::all());
    assert!(bodies.bodies[1].assists);
}

#[test]
fn bounds_span_the_raster() {
    let bodies = two_bodies();
    assert_eq!(bodies.bounds(5), Some((at(0, 0), at(1, 1))));
    assert_eq!(bodies.bounds(9), Some((at(10, 10), at(10, 10))));
    assert_eq!(bodies.bounds(3), None);
}

#[test]
fn a_body_touches_solid_cells_it_does_not_own() {
    let bodies = two_bodies();
    let mut world = FxHashMap::default();
    world.insert(key_of(at(1, -1)), solid(None));
    world.insert(key_of(at(2, 1)), solid(Some(5)));
    world.insert(key_of(at(10, 9)), Occupant { owner: None, phase: Phase::Liquid });
    assert!(bodies.supported(&world, 5));
    assert!(!bodies.touching(&world, 5, 1, 0));
    assert!(!bodies.supported(&world, 9));
    assert!(!bodies.supported(&world, 3));
    world.insert(key_of(at(11, 10)), Occupant { owner: Some(7), phase: Phase::Powder });
    assert!(bodies.touching(&world, 9, 1, 0));
}

#[test]
fn waking_a_chunk_queues_its_parked_seeds_once() {
    let mut bodies = two_bodies();
    bodies.parked_seeds.insert(key_of_pair(1, 2), vec![at(64, 128), at(65, 128)]);
    bodies.parked_seeds.insert(key_of_pair(3, 3), vec![at(200, 200)]);
    bodies.unseat(vec![at(0, 5)]);
    bodies.wake_chunks(&vec![ChunkPos { x: 1, y: 2 }, ChunkPos { x: 0, y: 0 }, ChunkPos { x: 1, y: 2 }]);
    assert_eq!(bodies.pending, vec![at(0, 5), at(64, 128), at(65, 128)]);
    assert!(bodies.parked_seeds.contains_key(&key_of_pair(3, 3)));
    assert!(!bodies.parked_seeds.contains_key(&key_of_pair(1, 2)));
}

#[test]
fn despawning_clears_the_cells_the_body_still_owns() {
    let mut bodies = two_bodies();
    let mut world = FxHashMap::default();
    world.insert(key_of(at(0, 0)), solid(Some(5)));
    world.insert(key_of(at(1, 0)), solid(Some(8)));
    world.insert(key_of(at(1, 1)), solid(Some(5)));
    assert_eq!(bodies.despawn(&world, 5), vec![at(0, 0), at(1, 1)]);
    assert_eq!(bodies.bodies.len(), 1);
    assert_eq!(bodies.cell(5), None);
    assert_eq!(bodies.cell(9), Some(at(10, 10)));
    assert!(bodies.despawn(&world, 5).is_empty());
}

#[test]
fn rasters_and_fractures_are_handed_out() {
    let mut bodies = two_bodies();
    let rasters = bodies.rasters();
    assert_eq!(rasters, vec![(5, vec![at(0, 0), at(1, 0), at(1, 1)]), (9, vec![at(10, 10)])]);
    bodies.fractures.push(Fracture { source: 5, anchor: at(0, 0), parts: vec![5, 12] });
    let drained = bodies.drain_fractures();
    assert_eq!(drained, vec![Fracture { source: 5, anchor: at(0, 0), parts: vec![5, 12] }]);
    assert!(bodies.drain_fractures().is_empty());
}

fn usable(chunks: &[(i32, i32)]) -> rustc_hash::FxHashSet<u64> {
    chunks.iter().map(|&(x, y)| key_of_pair(x, y)).collect()
}

#[test]
fn an_island_inside_simulated_chunks_is_free() {
    let island = vec![at(10, 10), at(20, 12)];
    assert_eq!(island_blocker(&island, &usable(&[(0, 0)]), 64), None);
}

#[test]
fn an_island_at_a_chunk_edge_needs_the_neighbouring_chunks() {
    let island = vec![at(0, 10), at(63, 10)];
    assert_eq!(island_blocker(&island, &usable(&[(0, 0)]), 64), Some(ChunkPos { x: -1, y: 0 }));
    assert_eq!(island_blocker(&island, &usable(&[(-1, 0), (0, 0)]), 64), Some(ChunkPos { x: 1, y: 0 }));
    assert_eq!(island_blocker(&island, &usable(&[(-1, 0), (0, 0), (1, 0)]), 64), None);
}

#[test]
fn the_lowest_row_of_blocked_chunks_is_reported_first() {
    let island = vec![at(5, 0), at(5, 63)];
    assert_eq!(island_blocker(&island, &usable(&[(0, 0)]), 64), Some(ChunkPos { x: 0, y: -1 }));
    assert_eq!(island_blocker(&island, &usable(&[(0, -1), (0, 0)]), 64), Some(ChunkPos { x: 0, y: 1 }));
}

#[test]
fn a_captured_body_is_anchored_at_its_rounded_mass_centre() {
    let stuff = vec![(MaterialId(1), 1000, Q16::from_raw(10), Q16::from_raw(500)), (MaterialId(2), 1000, Q16::from_raw(30), Q16::from_raw(200))];
    let b = capture(4, vec![at(10, 20), at(11, 20)], &stuff, 1024);
    assert_eq!(b.id, 4);
    assert_eq!(b.anchor, at(11, 20));
    assert_eq!(b.raster, vec![at(10, 20), at(11, 20)]);
    assert_eq!(b.slots.iter().map(|s| s.local).collect::<Vec<_>>(), vec![(-1, 0), (0, 0)]);
    assert_eq!(b.slots[1].material, MaterialId(2));
    assert_eq!(b.mass, 2000);
    assert_eq!(b.restitution, Q16::from_raw(30));
    assert_eq!(b.friction, Q16::from_raw(200));
    assert_eq!(b.freedoms, Freedoms::all());
    assert!(b.settles && !b.assists && !b.parked);
    assert_eq!((b.vx, b.vy, b.step), (0, 0, 0));
}

#[test]
fn a_heavier_cell_pulls_the_anchor_toward_it() {
    let stuff = vec![(MaterialId(1), 1000, Q16::from_raw(0), Q16::from_raw(0)), (MaterialId(1), 3000, Q16::from_raw(0), Q16::from_raw(0)), (MaterialId(1), 0, Q16::from_raw(0), Q16::from_raw(0))];
    let b = capture(1, vec![at(0, 0), at(4, 0), at(0, 8)], &stuff, 1024);
    // (0 * 1000 + 4 * 3000 + 0 * 1) / 4001 rounds to 3; (8 * 1) / 4001 rounds to 0.
    assert_eq!(b.anchor, at(3, 0));
    assert_eq!(b.mass, 4001);
}

fn content() -> Vec<(bool, i32, Q16, Q16)> {
    vec![(false, 1, Q16::from_raw(0), Q16::from_raw(0)), (true, 2000, Q16::from_raw(100), Q16::from_raw(300))]
}

fn air(cells: &[CellPos]) -> rustc_hash::FxHashSet<u64> {
    cells.iter().map(|&p| key_of(p)).collect()
}

#[test]
fn a_body_spawns_into_air() {
    let mut bodies = two_bodies();
    let cells = vec![(at(30, 30), MaterialId(1), 0u8), (at(31, 30), MaterialId(1), 3u8)];
    let writes = bodies.spawn(&air(&[at(30, 30), at(31, 30)]), 12, &cells, Policy::ball(), &content(), 1024);
    assert_eq!(
        writes,
        Some(vec![
            CellWrite { pos: at(30, 30), material: MaterialId(1), shade: 0, owner: 12 },
            CellWrite { pos: at(31, 30), material: MaterialId(1), shade: 3, owner: 12 },
        ])
    );
    assert_eq!(bodies.bodies.len(), 3);
    let b = &bodies.bodies[2];
    assert_eq!(b.id, 12);
    assert_eq!(b.raster, vec![at(30, 30), at(31, 30)]);
    assert_eq!(b.mass, 4000);
    assert_eq!(bodies.cell(12), Some(b.anchor));
}

#[test]
fn a_spawn_is_refused_unless_allowed() {
    let cells = vec![(at(30, 30), MaterialId(1), 0u8), (at(31, 30), MaterialId(1), 0u8)];
    let open = air(&[at(30, 30), at(31, 30)]);
    let mut bodies = two_bodies();
    assert!(bodies.spawn(&open, 12, &Vec::new(), Policy::ball(), &content(), 1024).is_none());
    assert!(bodies.spawn(&open, 5, &cells, Policy::ball(), &content(), 1024).is_none());
    assert!(bodies.spawn(&air(&[at(30, 30)]), 12, &cells, Policy::ball(), &content(), 1024).is_none());
    let twice = vec![(at(30, 30), MaterialId(1), 0u8), (at(30, 30), MaterialId(1), 0u8)];
    assert!(bodies.spawn(&open, 12, &twice, Policy::ball(), &content(), 1024).is_none());
    let loose = vec![(at(30, 30), MaterialId(0), 0u8)];
    assert!(bodies.spawn(&open, 12, &loose, Policy::ball(), &content(), 1024).is_none());
    assert_eq!(bodies.bodies.len(), 2);
}

#[test]
fn a_reshaped_body_keeps_its_motion_and_pushes_water_into_the_cell_it_gives_up() {
    let mut bodies = two_bodies();
    let mut world = FxHashMap::default();
    world.insert(key_of(at(2, 0)), Seen::Free { phase: Phase::Liquid, density_milli: 1000 });
    let cells = vec![(at(0, 0), MaterialId(1), 0u8), (at(1, 0), MaterialId(1), 0u8), (at(2, 0), MaterialId(1), 9u8)];
    let (plan, writes) = bodies.reshape(&world, 5, &cells, &content(), 1024).unwrap();
    assert_eq!(writes.len(), 3);
    assert_eq!(writes[2], CellWrite { pos: at(2, 0), material: MaterialId(1), shade: 9, owner: 5 });
    assert_eq!(plan.vacated, vec![at(1, 1)]);
    assert_eq!(plan.moves, vec![(at(2, 0), at(1, 1))]);
    assert!(plan.leftovers.is_empty());
    assert_eq!(bodies.bodies.len(), 2);
    assert_eq!(bodies.bodies[0].id, 9);
    let b = &bodies.bodies[1];
    assert_eq!(b.id, 5);
    assert_eq!(b.raster, vec![at(0, 0), at(1, 0), at(2, 0)]);
    assert_eq!(bodies.velocity(5), Some((5, -7)));
    assert_eq!(b.weight, 44);
    assert!(b.assists);
}

#[test]
fn a_refused_reshape_changes_nothing() {
    let mut bodies = two_bodies();
    let mut world = FxHashMap::default();
    world.insert(key_of(at(2, 0)), Seen::Free { phase: Phase::Solid, density_milli: 1000 });
    let cells = vec![(at(0, 0), MaterialId(1), 0u8), (at(2, 0), MaterialId(1), 0u8)];
    assert!(bodies.reshape(&world, 5, &cells, &content(), 1024).is_none());
    assert!(bodies.reshape(&world, 77, &cells, &content(), 1024).is_none());
    assert_eq!(bodies.bodies.len(), 2);
    assert_eq!(bodies.bodies[0].raster, vec![at(0, 0), at(1, 0), at(1, 1)]);
}

#[test]
fn settling_releases_only_the_cells_still_owned() {
    let settled = body(5, vec![at(0, 0), at(1, 0), at(1, 1), at(2, 1)]);
    let mut world = FxHashMap::default();
    world.insert(key_of(at(0, 0)), solid(Some(5)));
    world.insert(key_of(at(1, 0)), solid(None));
    world.insert(key_of(at(2, 1)), solid(Some(5)));
    assert_eq!(settle_body(&world, &settled), vec![at(0, 0), at(2, 1)]);
}

#[test]
fn repainting_measures_shades_from_the_corner_of_the_slots() {
    let bodies = two_bodies();
    let mut world = FxHashMap::default();
    world.insert(key_of(at(0, 0)), solid(Some(5)));
    world.insert(key_of(at(1, 0)), solid(None));
    world.insert(key_of(at(1, 1)), solid(Some(5)));
    assert_eq!(bodies.repaint(&world, 5), vec![(at(0, 0), (0, 0)), (at(1, 1), (1, 1))]);
    assert!(bodies.repaint(&world, 77).is_empty());
}

#[test]
fn a_body_spread_far_and_heavy_is_captured_exactly() {
    let heavy = (MaterialId(1), 2_000_000_000, Q16::from_raw(0), Q16::from_raw(0));
    let b = capture(9, vec![at(-1_000_000, 5), at(1_000_000, 5)], &vec![heavy, heavy], 1024);
    assert_eq!(b.anchor, at(0, 5));
    assert_eq!(b.slots.iter().map(|s| s.local).collect::<Vec<_>>(), vec![(-1_000_000, 0), (1_000_000, 0)]);
    assert_eq!(b.mass, 4_000_000_000);
    assert_eq!(b.moment, 4_194_304_000_000_000_000_000_000_000);
    assert_eq!(b.radius, 1_000_001);
}

#[test]
fn submersion_counts_the_open_sides_and_the_wet_ones() {
    let bodies = two_bodies();
    let mut world: FxHashMap<u64, Occupant> = FxHashMap::default();
    world.insert(key_of(at(11, 10)), Occupant { owner: None, phase: Phase::Liquid });
    world.insert(key_of(at(9, 10)), solid(None));
    world.insert(key_of(at(10, 11)), Occupant { owner: Some(5), phase: Phase::Liquid });
    assert_eq!(bodies.submersion_counts(&world, 9), (1, 2));
    assert_eq!(bodies.submersion_counts(&world, 3), (0, 0));
}

#[test]
fn a_body_rests_on_firm_cells_below_it_that_are_not_its_own() {
    let bodies = two_bodies();
    let mut world: FxHashMap<u64, Occupant> = FxHashMap::default();
    world.insert(key_of(at(0, -1)), Occupant { owner: None, phase: Phase::Powder });
    world.insert(key_of(at(1, -1)), solid(Some(9)));
    world.insert(key_of(at(1, 0)), solid(Some(5)));
    assert_eq!(bodies.support_cells(&world, 5), Some(vec![at(0, -1), at(1, -1)]));
    world.insert(key_of(at(1, -1)), Occupant { owner: None, phase: Phase::Liquid });
    assert_eq!(bodies.support_cells(&world, 5), Some(vec![at(0, -1)]));
    assert_eq!(bodies.support_cells(&world, 3), None);
}
