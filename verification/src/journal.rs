//! A record of what happened to bodies during a step, kept only when enabled,
//! and the degrees of freedom along which bodies move in whole quanta.
use vstd::prelude::*;
use crate::geometry::{CellPos, ChunkPos, MaterialId};
use crate::rotation::{abs, ORIENTATION_UNITS};
use crate::state::Body;

verus! {

/// A degree of freedom of a body.
#[derive(Debug, Clone, Copy, PartialEq, Eq)]
pub enum Freedom {
    Turn,
    X,
    Y,
}

/// What a body touched.
#[derive(Debug, Clone, Copy, PartialEq, Eq)]
pub enum Peer {
    Terrain,
    Body(u32),
    Grain(MaterialId),
}

/// How a proposed quantum of motion ended.
#[derive(Debug, Clone, Copy, PartialEq, Eq)]
pub enum Outcome {
    Committed,
    Rebounded,
    Parked,
    Unloaded,
}

/// Why a body did or did not settle.
#[derive(Debug, Clone, Copy, PartialEq, Eq)]
pub enum Verdict {
    Rests,
    Fast,
    Spinning,
    Unloaded,
    OnBody,
    OnPowder,
    Unsupported,
    Restless,
}

/// One recorded happening.
#[derive(Debug)]
pub enum Event {
    Detached { id: u32, cells: usize, span: (i32, i32), at: CellPos, material: MaterialId },
    Split { source: u32, parts: Vec<u32>, at: CellPos },
    Dissolved { id: u32, at: CellPos },
    Released { id: u32, at: CellPos, material: MaterialId },
    Struck { id: u32, at: CellPos, push: i128, drag: i128 },
    Loaded { id: u32, at: CellPos, jy: i64 },
    Parked { id: u32, blocker: ChunkPos },
    Woke { id: u32 },
    Quantum { id: u32, freedom: Freedom, sign: i32, outcome: Outcome },
    Contact { id: u32, at: CellPos, normal: (i32, i32), peer: Peer, push: i128, drag: i128 },
    Entrained { id: u32, at: CellPos, material: MaterialId, jx: i64, jy: i64 },
    Carried { id: u32, at: CellPos, material: MaterialId, impulse: i64 },
    Settled { id: u32, cells: usize, at: CellPos },
    Restless { id: u32, verdict: Verdict, residual: (i64, i64, i64) },
}

/// The events of a step, recorded only while enabled.
pub struct Journal {
    pub enabled: bool,
    pub events: Vec<Event>,
}

impl Journal {
    /// A disabled, empty journal.
    pub fn new() -> (j: Journal)
        ensures
            !j.enabled,
            j.events@.len() == 0,
    {
        Journal { enabled: false, events: Vec::new() }
    }

    /// Turns recording on or off; turning it off discards what was recorded.
    pub fn set_enabled(&mut self, enabled: bool)
        ensures
            final(self).enabled == enabled,
            enabled ==> final(self).events@ == old(self).events@,
            !enabled ==> final(self).events@.len() == 0,
    {
        self.enabled = enabled;
        if !enabled {
            self.events = Vec::new();
        }
    }

    /// Hands back every recorded event, oldest first, leaving the journal empty.
    pub fn drain(&mut self) -> (r: Vec<Event>)
        ensures
            r@ == old(self).events@,
            final(self).events@.len() == 0,
            final(self).enabled == old(self).enabled,
    {
        let mut taken: Vec<Event> = Vec::new();
        std::mem::swap(&mut taken, &mut self.events);
        taken
    }

    /// Records the event `event` builds, building it only while enabled.
    pub fn record<F: FnOnce() -> Event>(&mut self, event: F)
        requires
            old(self).enabled ==> event.requires(()),
        ensures
            final(self).enabled == old(self).enabled,
            !old(self).enabled ==> final(self).events@ == old(self).events@,
            old(self).enabled ==> exists|e: Event| event.ensures((), e) && final(self).events@ == old(self).events@.push(e),
    {
        if self.enabled {
            let e = event();
            self.events.push(e);
        }
    }

    /// Whether events are being recorded.
    pub fn records(&self) -> (r: bool)
        ensures
            r == self.enabled,
    {
        self.enabled
    }
}

/// The position of a freedom in the bit set of freedoms.
pub open spec fn freedom_index(f: Freedom) -> int {
    match f {
        Freedom::Turn => 0,
        Freedom::X => 1,
        Freedom::Y => 2,
    }
}

/// The accumulated sub-quantum motion of a body along a freedom.
pub open spec fn accumulator_spec(f: Freedom, body: &Body) -> i64 {
    match f {
        Freedom::Turn => body.acc_turn,
        Freedom::X => body.acc_x,
        Freedom::Y => body.acc_y,
    }
}

/// The size of one quantum of motion along a freedom: one orientation step
/// for turning, one cell (`units` subcell units) for translation.
pub open spec fn threshold_spec(f: Freedom, units: int) -> int {
    match f {
        Freedom::Turn => ORIENTATION_UNITS as int,
        _ => units,
    }
}

impl Freedom {
    /// The freedoms in the order they are advanced: vertical, horizontal, turn.
    pub const ALL: [Freedom; 3] = [Freedom::Y, Freedom::X, Freedom::Turn];

    /// The position of the freedom in the bit set of freedoms.
    pub fn index(self) -> (r: usize)
        ensures
            r == freedom_index(self),
    {
        match self {
            Freedom::Turn => 0,
            Freedom::X => 1,
            Freedom::Y => 2,
        }
    }

    /// The freedom's bit in the bit set of freedoms.
    pub fn bit(self) -> (r: u8)
        ensures
            r == (if freedom_index(self) == 0 { 1u8 } else if freedom_index(self) == 1 { 2u8 } else { 4u8 }),
    {
        let i = self.index();
        assert(1u8 << 0u8 == 1u8 && 1u8 << 1u8 == 2u8 && 1u8 << 2u8 == 4u8) by (bit_vector);
        1u8 << (i as u8)
    }

    /// The size of one quantum along the freedom.
    pub fn threshold(self, units: i64) -> (r: i64)
        ensures
            r == threshold_spec(self, units as int),
    {
        match self {
            Freedom::Turn => ORIENTATION_UNITS,
            Freedom::X | Freedom::Y => units,
        }
    }

    /// The body's accumulated motion along the freedom.
    pub fn accumulator(self, body: &Body) -> (r: i64)
        ensures
            r == accumulator_spec(self, body),
    {
        match self {
            Freedom::Turn => body.acc_turn,
            Freedom::X => body.acc_x,
            Freedom::Y => body.acc_y,
        }
    }

    /// Stores the body's accumulated motion along the freedom.
    pub fn set_accumulator(self, body: &mut Body, value: i64)
        ensures
            accumulator_spec(self, final(body)) == value,
            forall|g: Freedom| g != self ==> accumulator_spec(g, final(body)) == accumulator_spec(g, old(body)),
            final(body).vx == old(body).vx && final(body).vy == old(body).vy && final(body).spin == old(body).spin,
            final(body).mass == old(body).mass && final(body).moment == old(body).moment,
            final(body).anchor == old(body).anchor && final(body).step == old(body).step,
            final(body).slots == old(body).slots && final(body).raster == old(body).raster,
            final(body).id == old(body).id && final(body).freedoms == old(body).freedoms,
            final(body).parked == old(body).parked && final(body).settles == old(body).settles,
    {
        match self {
            Freedom::Turn => body.acc_turn = value,
            Freedom::X => body.acc_x = value,
            Freedom::Y => body.acc_y = value,
        }
    }

    /// The body's velocity along the freedom.
    pub fn velocity(self, body: &Body) -> (r: i64)
        ensures
            r == (match self {
                Freedom::Turn => body.spin.0,
                Freedom::X => body.vx,
                Freedom::Y => body.vy,
            }),
    {
        match self {
            Freedom::Turn => body.spin.raw(),
            Freedom::X => body.vx,
            Freedom::Y => body.vy,
        }
    }

    /// Whole quanta of motion the body has accumulated along the freedom.
    pub fn pending(self, body: &Body, units: i64) -> (r: i64)
        requires
            units >= 1,
            accumulator_spec(self, body) > i64::MIN,
        ensures
            r == abs(accumulator_spec(self, body) as int) / threshold_spec(self, units as int),
    {
        let acc = self.accumulator(body);
        let magnitude: i64 = if acc < 0 { -acc } else { acc };
        magnitude / self.threshold(units)
    }
}

} // verus!
