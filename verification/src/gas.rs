//! Gas at rest: it rises where it can, else drifts sideways.
use vstd::prelude::*;
use crate::motion::Entry;

verus! {

/// How a gas cell at rest moves along one side: `Some` with the step it takes
/// (up that side when the diagonal is open, else straight across) when the cell
/// beside it is open and the diagonal is not busy.
pub open spec fn side_step(side: int, beside: Entry, diagonal: Entry) -> Option<(int, int)> {
    if beside == Entry::Open && diagonal != Entry::Busy {
        Some(if diagonal == Entry::Open { (side, 1int) } else { (side, 0int) })
    } else {
        None
    }
}

/// Whether trying one side marks the cell as waiting on a busy neighbor.
pub open spec fn side_waits(beside: Entry, diagonal: Entry) -> bool {
    beside == Entry::Busy || (beside == Entry::Open && diagonal == Entry::Busy)
}

/// What a gas cell at rest does: rise into an open cell above; wait on a busy one;
/// else try the preferred side, then the other, taking the first side it can step
/// to when the flow draw `passes` (and waiting when it does not). The result is the
/// step taken, if any, and whether the cell is marked to be visited again.
pub open spec fn flow_spec(above: Entry, preferred: int, beside: (Entry, Entry), diagonal: (Entry, Entry), passes: bool) -> (Option<(int, int)>, bool) {
    if above == Entry::Open {
        (Some((0int, 1int)), false)
    } else if above == Entry::Busy {
        (None, true)
    } else {
        let first = side_step(preferred, beside.0, diagonal.0);
        let second = side_step(-preferred, beside.1, diagonal.1);
        let waited = side_waits(beside.0, diagonal.0);
        match first {
            Some(step) => if passes { (Some(step), waited) } else { (None, true) },
            None => match second {
                Some(step) => if passes { (Some(step), waited || side_waits(beside.1, diagonal.1)) } else { (None, true) },
                None => (None, waited || side_waits(beside.1, diagonal.1)),
            },
        }
    }
}

/// What a gas cell at rest does this tick, from the entries of the cells above it,
/// beside it (`beside.0` on the preferred side, `beside.1` on the other) and
/// diagonally above those, and whether its flow draw passes: the step it takes,
/// if any, and whether it is marked to be visited again.
pub fn flow(above: Entry, preferred: i32, beside: (Entry, Entry), diagonal: (Entry, Entry), passes: bool) -> (r: (Option<(i32, i32)>, bool))
    requires
        preferred == 1 || preferred == -1,
    ensures
        ({
            let s = flow_spec(above, preferred as int, beside, diagonal, passes);
            &&& r.1 == s.1
            &&& s.0 matches Some(step) ==> r.0 == Some((step.0 as i32, step.1 as i32))
            &&& s.0 is None ==> r.0 is None
        }),
{
    match above {
        Entry::Open => {
            return (Some((0, 1)), false);
        },
        Entry::Busy => {
            return (None, true);
        },
        Entry::Blocked => {},
    }
    let mut marked = false;
    let mut k: usize = 0;
    while k < 2
        invariant
            0 <= k <= 2,
            preferred == 1 || preferred == -1,
            above == Entry::Blocked,
            k >= 1 ==> side_step(preferred as int, beside.0, diagonal.0) is None,
            k >= 2 ==> side_step(-preferred, beside.1, diagonal.1) is None,
            marked == ((k >= 1 && side_waits(beside.0, diagonal.0)) || (k >= 2 && side_waits(beside.1, diagonal.1))),
        decreases 2 - k,
    {
        let side: i32 = if k == 0 { preferred } else { -preferred };
        let near = if k == 0 { beside.0 } else { beside.1 };
        let up = if k == 0 { diagonal.0 } else { diagonal.1 };
        match near {
            Entry::Open => {},
            Entry::Busy => {
                marked = true;
                k = k + 1;
                continue;
            },
            Entry::Blocked => {
                k = k + 1;
                continue;
            },
        }
        let step: (i32, i32) = match up {
            Entry::Open => (side, 1),
            Entry::Busy => {
                marked = true;
                k = k + 1;
                continue;
            },
            Entry::Blocked => (side, 0),
        };
        if passes {
            return (Some(step), marked);
        } else {
            return (None, true);
        }
    }
    (None, marked)
}

} // verus!
