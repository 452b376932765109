use fallingsand_sim::geometry::{CellPos, MaterialId, Q16};
use fallingsand_sim::journal::{Event, Freedom, Journal, Outcome};
use fallingsand_sim::rotation::Spin;
use fallingsand_sim::state::{Body, Freedoms, Slot};

fn body() -> Body {
    Body {
        id: 4,
        slots: vec![Slot {
            local: (0, 0),
            material: MaterialId(1),
            density_milli: 1000,
            restitution: Q16::from_raw(0),
            friction: Q16::from_raw(0),
        }],
        raster: vec![CellPos::new(0, 0)],
        anchor: CellPos::new(0, 0),
        step: 0,
        vx: 3,
        vy: -4,
        spin: Spin::from_raw(9),
        acc_x: 700,
        acc_y: -300,
        acc_turn: -9000,
        mass: 1000,
        moment: 1,
        radius: 1,
        restitution: Q16::from_raw(0),
        friction: Q16::from_raw(0),
        weight: 0,
        freedoms: Freedoms::all(),
        settles: false,
        assists: false,
        was_grounded: false,
        parked: false,
    }
}

#[test]
fn a_disabled_journal_records_nothing() {
    let mut journal = Journal::new();
    assert!(!journal.records());
    journal.record(|| Event::Woke { id: 1 });
    assert!(journal.drain().is_empty());
}

#[test]
fn an_enabled_journal_records_in_order_and_drains() {
    let mut journal = Journal::new();
    journal.set_enabled(true);
    assert!(journal.records());
    journal.record(|| Event::Woke { id: 1 });
    journal.record(|| Event::Quantum { id: 2, freedom: Freedom::X, sign: -1, outcome: Outcome::Committed });
    let events = journal.drain();
    assert_eq!(events.len(), 2);
    assert!(matches!(events[0], Event::Woke { id: 1 }));
    assert!(matches!(events[1], Event::Quantum { id: 2, freedom: Freedom::X, sign: -1, outcome: Outcome::Committed }));
    assert!(journal.drain().is_empty());
    assert!(journal.records());
}

#[test]
fn disabling_discards_recorded_events() {
    let mut journal = Journal::new();
    journal.set_enabled(true);
    journal.record(|| Event::Woke { id: 1 });
    journal.set_enabled(false);
    journal.set_enabled(true);
    assert!(journal.drain().is_empty());
}

#[test]
fn freedoms_index_bits_and_thresholds() {
    assert_eq!(Freedom::ALL, [Freedom::Y, Freedom::X, Freedom::Turn]);
    assert_eq!((Freedom::Turn.index(), Freedom::X.index(), Freedom::Y.index()), (0, 1, 2));
    assert_eq!((Freedom::Turn.bit(), Freedom::X.bit(), Freedom::Y.bit()), (1, 2, 4));
    assert_eq!(Freedom::Turn.threshold(256), 4096);
    assert_eq!(Freedom::X.threshold(256), 256);
    assert_eq!(Freedom::Y.threshold(256), 256);
}

#[test]
fn freedoms_read_and_write_a_body() {
    let mut b = body();
    assert_eq!(Freedom::X.accumulator(&b), 700);
    assert_eq!(Freedom::Y.accumulator(&b), -300);
    assert_eq!(Freedom::Turn.accumulator(&b), -9000);
    assert_eq!(Freedom::X.velocity(&b), 3);
    assert_eq!(Freedom::Y.velocity(&b), -4);
    assert_eq!(Freedom::Turn.velocity(&b), 9);
    assert_eq!(Freedom::X.pending(&b, 256), 2);
    assert_eq!(Freedom::Y.pending(&b, 256), 1);
    assert_eq!(Freedom::Turn.pending(&b, 256), 2);
    Freedom::Y.set_accumulator(&mut b, 17);
    assert_eq!((b.acc_x, b.acc_y, b.acc_turn), (700, 17, -9000));
}
