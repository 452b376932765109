use fallingsand_sim::gas::flow;
use fallingsand_sim::motion::Entry::{Blocked, Busy, Open};

#[test]
fn gas_rises_into_an_open_cell_above() {
    assert_eq!(flow(Open, 1, (Blocked, Blocked), (Blocked, Blocked), false), (Some((0, 1)), false));
}

#[test]
fn gas_waits_under_a_busy_cell() {
    assert_eq!(flow(Busy, 1, (Open, Open), (Open, Open), true), (None, true));
}

#[test]
fn gas_drifts_up_the_preferred_side_first() {
    assert_eq!(flow(Blocked, 1, (Open, Open), (Open, Open), true), (Some((1, 1)), false));
    assert_eq!(flow(Blocked, -1, (Open, Blocked), (Blocked, Blocked), true), (Some((-1, 0)), false));
}

#[test]
fn gas_tries_the_other_side_when_the_first_is_shut() {
    assert_eq!(flow(Blocked, 1, (Blocked, Open), (Open, Blocked), true), (Some((-1, 0)), false));
    assert_eq!(flow(Blocked, 1, (Busy, Open), (Blocked, Open), true), (Some((-1, 1)), true));
    assert_eq!(flow(Blocked, 1, (Open, Open), (Busy, Open), true), (Some((-1, 1)), true));
}

#[test]
fn gas_that_fails_its_draw_waits() {
    assert_eq!(flow(Blocked, 1, (Open, Open), (Open, Open), false), (None, true));
}

#[test]
fn gas_boxed_in_stays_unmarked() {
    assert_eq!(flow(Blocked, 1, (Blocked, Blocked), (Open, Open), true), (None, false));
}
