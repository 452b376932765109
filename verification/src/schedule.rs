//! How a simulation pass is cut into windows: the world's chunks are grouped
//! in 2×2 blocks, the blocks take turns in four phases, and each block is
//! simulated inside a 4×4 window of chunks around it. Windows of one phase
//! never share a chunk, so they can run side by side.
use vstd::prelude::*;
use rustc_hash::FxHashMap;
use crate::geometry::ChunkPos;
use crate::fx::{fx_map_insert, fx_map_get, pair_key, key_of_pair, lemma_pair_key_injective};

verus! {

/// Chunks along one side of a window.
pub const WINDOW_CHUNKS: i32 = 4;

/// Chunks in a window.
pub const WINDOW_SLOTS: usize = 16;

/// The orders in which a pass may run the four phases: every permutation.
pub const PHASE_ORDERS: [[u32; 4]; 24] = [
    [0, 1, 2, 3],
    [0, 1, 3, 2],
    [0, 2, 1, 3],
    [0, 2, 3, 1],
    [0, 3, 1, 2],
    [0, 3, 2, 1],
    [1, 0, 2, 3],
    [1, 0, 3, 2],
    [1, 2, 0, 3],
    [1, 2, 3, 0],
    [1, 3, 0, 2],
    [1, 3, 2, 0],
    [2, 0, 1, 3],
    [2, 0, 3, 1],
    [2, 1, 0, 3],
    [2, 1, 3, 0],
    [2, 3, 0, 1],
    [2, 3, 1, 0],
    [3, 0, 1, 2],
    [3, 0, 2, 1],
    [3, 1, 0, 2],
    [3, 1, 2, 0],
    [3, 2, 0, 1],
    [3, 2, 1, 0],
];

/// Each phase order runs every phase exactly once.
pub proof fn lemma_phase_orders_run_each_phase_once()
    ensures
        forall|i: int| 0 <= i < 24 ==> #[trigger] permutes_phases(PHASE_ORDERS@[i]@),
{
    assert forall|i: int| 0 <= i < 24 implies #[trigger] permutes_phases(PHASE_ORDERS@[i]@) by {
        let row = PHASE_ORDERS@[i]@;
        if i == 0 {
            assert(PHASE_ORDERS@[i]@ =~= seq![0u32, 1u32, 2u32, 3u32]);
        } else if i == 1 {
            assert(PHASE_ORDERS@[i]@ =~= seq![0u32, 1u32, 3u32, 2u32]);
        } else if i == 2 {
            assert(PHASE_ORDERS@[i]@ =~= seq![0u32, 2u32, 1u32, 3u32]);
        } else if i == 3 {
            assert(PHASE_ORDERS@[i]@ =~= seq![0u32, 2u32, 3u32, 1u32]);
        } else if i == 4 {
            assert(PHASE_ORDERS@[i]@ =~= seq![0u32, 3u32, 1u32, 2u32]);
        } else if i == 5 {
            assert(PHASE_ORDERS@[i]@ =~= seq![0u32, 3u32, 2u32, 1u32]);
        } else if i == 6 {
            assert(PHASE_ORDERS@[i]@ =~= seq![1u32, 0u32, 2u32, 3u32]);
        } else if i == 7 {
            assert(PHASE_ORDERS@[i]@ =~= seq![1u32, 0u32, 3u32, 2u32]);
        } else if i == 8 {
            assert(PHASE_ORDERS@[i]@ =~= seq![1u32, 2u32, 0u32, 3u32]);
        } else if i == 9 {
            assert(PHASE_ORDERS@[i]@ =~= seq![1u32, 2u32, 3u32, 0u32]);
        } else if i == 10 {
            assert(PHASE_ORDERS@[i]@ =~= seq![1u32, 3u32, 0u32, 2u32]);
        } else if i == 11 {
            assert(PHASE_ORDERS@[i]@ =~= seq![1u32, 3u32, 2u32, 0u32]);
        } else if i == 12 {
            assert(PHASE_ORDERS@[i]@ =~= seq![2u32, 0u32, 1u32, 3u32]);
        } else if i == 13 {
            assert(PHASE_ORDERS@[i]@ =~= seq![2u32, 0u32, 3u32, 1u32]);
        } else if i == 14 {
            assert(PHASE_ORDERS@[i]@ =~= seq![2u32, 1u32, 0u32, 3u32]);
        } else if i == 15 {
            assert(PHASE_ORDERS@[i]@ =~= seq![2u32, 1u32, 3u32, 0u32]);
        } else if i == 16 {
            assert(PHASE_ORDERS@[i]@ =~= seq![2u32, 3u32, 0u32, 1u32]);
        } else if i == 17 {
            assert(PHASE_ORDERS@[i]@ =~= seq![2u32, 3u32, 1u32, 0u32]);
        } else if i == 18 {
            assert(PHASE_ORDERS@[i]@ =~= seq![3u32, 0u32, 1u32, 2u32]);
        } else if i == 19 {
            assert(PHASE_ORDERS@[i]@ =~= seq![3u32, 0u32, 2u32, 1u32]);
        } else if i == 20 {
            assert(PHASE_ORDERS@[i]@ =~= seq![3u32, 1u32, 0u32, 2u32]);
        } else if i == 21 {
            assert(PHASE_ORDERS@[i]@ =~= seq![3u32, 1u32, 2u32, 0u32]);
        } else if i == 22 {
            assert(PHASE_ORDERS@[i]@ =~= seq![3u32, 2u32, 0u32, 1u32]);
        } else if i == 23 {
            assert(PHASE_ORDERS@[i]@ =~= seq![3u32, 2u32, 1u32, 0u32]);
        }
        assert forall|p: u32| p < 4 implies #[trigger] row.contains(p) by {
            if row[0] == p {
                assert(row.contains(p));
            } else if row[1] == p {
                assert(row.contains(p));
            } else if row[2] == p {
                assert(row.contains(p));
            } else {
                assert(row[3] == p);
                assert(row.contains(p));
            }
        }
    }
}

/// A row of four phases that holds each of `0..4` exactly once.
pub open spec fn permutes_phases(row: Seq<u32>) -> bool {
    &&& row.len() == 4
    &&& forall|j: int| 0 <= j < 4 ==> #[trigger] row[j] < 4
    &&& forall|j: int, k: int| 0 <= j < k < 4 ==> #[trigger] row[j] != #[trigger] row[k]
    &&& forall|p: u32| p < 4 ==> #[trigger] row.contains(p)
}

/// The block (pair of chunks) a chunk coordinate falls in.
pub open spec fn block_of(c: int) -> int {
    c / 2
}

/// Whether chunk `pos` is simulated in `phase`: the parities of its block
/// are the phase's two low bits.
pub open spec fn in_phase_spec(pos: ChunkPos, phase: int) -> bool {
    block_of(pos.x as int) % 2 == phase % 2 && block_of(pos.y as int) % 2 == (phase / 2) % 2
}

/// The first chunk coordinate of the window around the block of `c`.
pub open spec fn window_start(c: int) -> int {
    2 * block_of(c) - 1
}

/// Whether `c` lies in the window that starts at `start`.
pub open spec fn in_window(start: int, c: int) -> bool {
    start <= c < start + WINDOW_CHUNKS
}

proof fn lemma_half(x: i32)
    ensures
        (x >> 1) as int == x as int / 2,
{
    assert(2 * (x >> 1) <= x && x < 2 * (x >> 1) + 2) by (bit_vector);
}

proof fn lemma_low_bit(b: i32)
    ensures
        (b & 1) as int == b as int % 2,
{
    assert(((b & 1) == 0 || (b & 1) == 1) && b == 2 * (b >> 1) + (b & 1)) by (bit_vector);
    lemma_half(b);
}


proof fn lemma_phase_bits(phase: u32)
    ensures
        (phase & 1) as int == phase as int % 2,
        ((phase >> 1) & 1) as int == (phase as int / 2) % 2,
{
    assert((phase & 1) == phase % 2 && ((phase >> 1) & 1) == (phase / 2) % 2) by (bit_vector);
}

/// Whether chunk `pos` is simulated in `phase`.
pub fn in_phase(pos: ChunkPos, phase: u32) -> (r: bool)
    ensures
        r == in_phase_spec(pos, phase as int),
{
    let px = (phase & 1) as i32;
    let py = ((phase >> 1) & 1) as i32;
    let bx = pos.x >> 1;
    let by = pos.y >> 1;
    proof {
        lemma_phase_bits(phase);
        lemma_half(pos.x);
        lemma_half(pos.y);
        lemma_low_bit(bx);
        lemma_low_bit(by);
    }
    (bx & 1) == px && (by & 1) == py
}

/// Every chunk is simulated in exactly one of the four phases.
pub proof fn lemma_one_phase(pos: ChunkPos, phase: int, other: int)
    requires
        0 <= phase < 4,
        0 <= other < 4,
        in_phase_spec(pos, phase),
        in_phase_spec(pos, other),
    ensures
        phase == other,
{
}

/// Every chunk is simulated in some phase.
pub proof fn lemma_some_phase(pos: ChunkPos)
    ensures
        in_phase_spec(pos, block_of(pos.x as int) % 2 + 2 * (block_of(pos.y as int) % 2)),
{
}

/// Chunk coordinates far enough from the ends of `i32` for a window around them.
pub open spec fn chunk_in_range(pos: ChunkPos) -> bool {
    i32::MIN + 2 <= pos.x <= i32::MAX - 2 && i32::MIN + 2 <= pos.y <= i32::MAX - 2
}

/// The first chunk of the window around the block of `pos`.
pub open spec fn window_origin_spec(pos: ChunkPos) -> ChunkPos {
    ChunkPos { x: window_start(pos.x as int) as i32, y: window_start(pos.y as int) as i32 }
}

/// The first chunk of the window around the block of `pos`.
pub fn window_origin(pos: ChunkPos) -> (o: ChunkPos)
    requires
        chunk_in_range(pos),
    ensures
        o == window_origin_spec(pos),
        o.x + 1 <= pos.x <= o.x + 2,
        o.y + 1 <= pos.y <= o.y + 2,
{
    proof {
        lemma_half(pos.x);
        lemma_half(pos.y);
    }
    ChunkPos { x: 2 * (pos.x >> 1) - 1, y: 2 * (pos.y >> 1) - 1 }
}

/// Whether `c` lies in the window starting at chunk `origin`.
pub open spec fn window_holds(origin: ChunkPos, c: ChunkPos) -> bool {
    in_window(origin.x as int, c.x as int) && in_window(origin.y as int, c.y as int)
}

/// Whether `start` is where windows of blocks with parity `bit` start.
pub open spec fn phase_start(start: int, bit: int) -> bool {
    (start + 1) % 4 == 2 * bit
}

/// Whether `o` is the origin of a window of `phase`, far enough from the
/// ends of `i32` that all its chunks have coordinates.
pub open spec fn phase_origin(o: ChunkPos, phase: int) -> bool {
    &&& phase_start(o.x as int, phase % 2)
    &&& phase_start(o.y as int, (phase / 2) % 2)
    &&& o.x + WINDOW_CHUNKS <= i32::MAX + 1
    &&& o.y + WINDOW_CHUNKS <= i32::MAX + 1
}

/// A chunk of `phase` lies in the middle of its window, and that window is a
/// window of `phase`.
pub proof fn lemma_window_of_phase(pos: ChunkPos, phase: int)
    requires
        chunk_in_range(pos),
        in_phase_spec(pos, phase),
    ensures
        phase_origin(window_origin_spec(pos), phase),
        window_holds(window_origin_spec(pos), pos),
        window_origin_spec(pos).x + 1 <= pos.x <= window_origin_spec(pos).x + 2,
        window_origin_spec(pos).y + 1 <= pos.y <= window_origin_spec(pos).y + 2,
{
    let (bx, by) = (block_of(pos.x as int), block_of(pos.y as int));
    assert(2 * bx <= pos.x < 2 * bx + 2);
    assert(2 * by <= pos.y < 2 * by + 2);
    assert((2 * bx) % 4 == 2 * (bx % 2));
    assert((2 * by) % 4 == 2 * (by % 2));
}

/// Two different windows of one phase share no chunk, so a phase's windows
/// can be simulated side by side.
pub proof fn lemma_phase_windows_disjoint(a: ChunkPos, b: ChunkPos, phase: int, c: ChunkPos)
    requires
        phase_origin(a, phase),
        phase_origin(b, phase),
        a != b,
    ensures
        !(window_holds(a, c) && window_holds(b, c)),
{
}

/// Order of chunk positions: by `x`, then by `y`.
pub open spec fn chunk_lt(a: ChunkPos, b: ChunkPos) -> bool {
    a.x < b.x || (a.x == b.x && a.y < b.y)
}

/// Chunk positions strictly increasing (hence distinct).
pub open spec fn sorted_chunks(s: Seq<ChunkPos>) -> bool {
    forall|i: int, j: int| 0 <= i < j < s.len() ==> chunk_lt(#[trigger] s[i], #[trigger] s[j])
}

/// Inserts `o` into the sorted distinct origins unless already present.
fn insert_origin(origins: &mut Vec<ChunkPos>, o: ChunkPos)
    requires
        sorted_chunks(old(origins)@),
    ensures
        sorted_chunks(final(origins)@),
        forall|e: ChunkPos| final(origins)@.contains(e) <==> (old(origins)@.contains(e) || e == o),
{
    let ghost before = origins@;
    let mut k: usize = 0;
    while k < origins.len()
        invariant
            origins@ == before,
            sorted_chunks(before),
            0 <= k <= before.len(),
            forall|i: int| 0 <= i < k ==> chunk_lt(#[trigger] before[i], o),
        ensures
            0 <= k <= before.len(),
            forall|i: int| 0 <= i < k ==> chunk_lt(#[trigger] before[i], o),
            k < before.len() ==> !chunk_lt(before[k as int], o),
        decreases before.len() - k,
    {
        let e = origins[k];
        if !(e.x < o.x || (e.x == o.x && e.y < o.y)) {
            break;
        }
        k = k + 1;
    }
    if k < origins.len() && origins[k].x == o.x && origins[k].y == o.y {
        proof {
            assert(before[k as int] == o);
            assert forall|e: ChunkPos| before.contains(e) || e == o implies before.contains(e) by {
                if e == o {
                    assert(before[k as int] == e);
                }
            }
        }
        return;
    }
    origins.insert(k, o);
    proof {
        let after = origins@;
        assert(after.len() == before.len() + 1);
        assert forall|i: int| 0 <= i < after.len() implies #[trigger] after[i] == (if i < k {
            before[i]
        } else if i == k {
            o
        } else {
            before[i - 1]
        }) by {}
        if k < before.len() {
            assert(!chunk_lt(before[k as int], o));
            assert(before[k as int] != o);
            assert(chunk_lt(o, before[k as int]));
        }
        assert forall|i: int, j: int| 0 <= i < j < after.len() implies chunk_lt(#[trigger] after[i], #[trigger] after[j]) by {
            if j < k {
                assert(chunk_lt(before[i], before[j]));
            } else if j == k {
                assert(chunk_lt(before[i], o));
            } else if i < k {
                assert(chunk_lt(before[i], o));
                if j - 1 > k {
                    assert(chunk_lt(before[k as int], before[j - 1]));
                }
                assert(chunk_lt(o, before[j - 1]));
            } else if i == k {
                if j - 1 > k {
                    assert(chunk_lt(before[k as int], before[j - 1]));
                }
            } else {
                assert(chunk_lt(before[i - 1], before[j - 1]));
            }
        }
        assert forall|e: ChunkPos| after.contains(e) <==> (before.contains(e) || e == o) by {
            if after.contains(e) {
                let i = choose|i: int| 0 <= i < after.len() && after[i] == e;
                if i < k {
                    assert(before[i] == e);
                } else if i > k {
                    assert(before[i - 1] == e);
                }
            }
            if before.contains(e) {
                let i = choose|i: int| 0 <= i < before.len() && before[i] == e;
                if i < k {
                    assert(after[i] == e);
                } else {
                    assert(after[i + 1] == e);
                }
            }
            if e == o {
                assert(after[k as int] == e);
            }
        }
    }
}


/// The hash key of a chunk.
pub open spec fn chunk_key(c: ChunkPos) -> u64 {
    pair_key(c.x, c.y)
}

/// The `u`-th chunk of the windows starting at `origins`, taking the sixteen
/// chunks of each window row by row.
pub open spec fn member_pos(origins: Seq<ChunkPos>, u: int) -> ChunkPos {
    let o = origins[u / 16];
    ChunkPos { x: (o.x + u % 4) as i32, y: (o.y + (u % 16) / 4) as i32 }
}

/// The window index and the column and row within it of the `u`-th chunk.
pub open spec fn member_tag(u: int) -> (usize, i32, i32) {
    ((u / 16) as usize, (u % 4) as i32, ((u % 16) / 4) as i32)
}

/// `members` maps the keys of the first `n` window chunks, and nothing else,
/// to their window, column and row.
pub open spec fn members_match(origins: Seq<ChunkPos>, members: Map<u64, (usize, i32, i32)>, n: int) -> bool {
    &&& forall|k: u64| members.contains_key(k) <==> exists|u: int| 0 <= u < n && k == #[trigger] chunk_key(member_pos(origins, u))
    &&& forall|u: int| 0 <= u < n ==> members[#[trigger] chunk_key(member_pos(origins, u))] == member_tag(u)
}

/// Windows of one phase at distinct origins.
pub open spec fn phase_origins(origins: Seq<ChunkPos>, phase: int) -> bool {
    &&& sorted_chunks(origins)
    &&& forall|i: int| 0 <= i < origins.len() ==> phase_origin(#[trigger] origins[i], phase)
}

proof fn lemma_member_pos_distinct(origins: Seq<ChunkPos>, phase: int, u: int, t: int)
    requires
        phase_origins(origins, phase),
        0 <= u < t < 16 * origins.len(),
    ensures
        member_pos(origins, u) != member_pos(origins, t),
{
    let (a, b) = (origins[u / 16], origins[t / 16]);
    assert(phase_origin(a, phase));
    assert(phase_origin(b, phase));
    assert(window_holds(a, member_pos(origins, u)));
    assert(window_holds(b, member_pos(origins, t)));
    if u / 16 != t / 16 {
        assert(chunk_lt(a, b));
        lemma_phase_windows_disjoint(a, b, phase, member_pos(origins, u));
    }
}

/// The windows of a phase: the phase, their origins in order, and for each chunk of
/// a window (by key) the window's index and the chunk's column and row in it.
pub struct PhasePlan {
    pub phase: u32,
    pub origins: Vec<ChunkPos>,
    pub members: FxHashMap<u64, (usize, i32, i32)>,
}

impl PhasePlan {
    /// Windows of `phase`, each chunk of each window mapped to its place.
    pub open spec fn wf(&self) -> bool {
        &&& phase_origins(self.origins@, self.phase as int)
        &&& members_match(self.origins@, self.members@, 16 * self.origins@.len() as int)
    }

    /// The window holding chunk `pos`, with `pos`'s column and row in it.
    pub fn member(&self, pos: ChunkPos) -> (r: Option<(usize, i32, i32)>)
        requires
            self.wf(),
        ensures
            match r {
                Some((i, sx, sy)) => i < self.origins@.len() && 0 <= sx < WINDOW_CHUNKS && 0 <= sy < WINDOW_CHUNKS
                    && self.origins@[i as int].x + sx == pos.x && self.origins@[i as int].y + sy == pos.y,
                None => forall|i: int| 0 <= i < self.origins@.len() ==> !window_holds(#[trigger] self.origins@[i], pos),
            },
    {
        let key = key_of_pair(pos.x, pos.y);
        let r = fx_map_get(&self.members, key);
        proof {
            let origins = self.origins@;
            let phase = self.phase as int;
            if r is Some {
                let u = choose|u: int| 0 <= u < 16 * origins.len() && key == #[trigger] chunk_key(member_pos(origins, u));
                let m = member_pos(origins, u);
                lemma_pair_key_injective(m.x, m.y, pos.x, pos.y);
                assert(phase_origin(origins[u / 16], phase));
                assert(self.members@[chunk_key(member_pos(origins, u))] == member_tag(u));
                assert(r == Some(member_tag(u)));
                let i = u / 16;
                assert(0 <= i < origins.len());
                assert(origins.len() == self.origins.len());
                assert(m.x == origins[i].x + u % 4);
                assert(m.y == origins[i].y + (u % 16) / 4);
                assert(0 <= u % 4 < 4);
                assert(0 <= (u % 16) / 4 < 4);
                assert(member_tag(u).1 == u % 4);
                assert(member_tag(u).2 == (u % 16) / 4);
                assert(member_tag(u).0 == i);
            } else {
                assert forall|i: int| 0 <= i < origins.len() implies !window_holds(#[trigger] origins[i], pos) by {
                    if window_holds(origins[i], pos) {
                        let u = 16 * i + 4 * (pos.y - origins[i].y) + (pos.x - origins[i].x);
                        assert(member_pos(origins, u) == pos);
                        assert(self.members@.contains_key(chunk_key(member_pos(origins, u))));
                    }
                }
            }
        }
        r
    }
}


proof fn lemma_members_step(
    origins: Seq<ChunkPos>,
    phase: int,
    before: Map<u64, (usize, i32, i32)>,
    after: Map<u64, (usize, i32, i32)>,
    n: int,
)
    requires
        phase_origins(origins, phase),
        0 <= n < 16 * origins.len(),
        members_match(origins, before, n),
        after == before.insert(chunk_key(member_pos(origins, n)), member_tag(n)),
    ensures
        members_match(origins, after, n + 1),
{
    let key = chunk_key(member_pos(origins, n));
    assert forall|u: int| 0 <= u < n implies #[trigger] chunk_key(member_pos(origins, u)) != key by {
        lemma_member_pos_distinct(origins, phase, u, n);
        let (a, b) = (member_pos(origins, u), member_pos(origins, n));
        if chunk_key(a) == key {
            lemma_pair_key_injective(a.x, a.y, b.x, b.y);
        }
    }
    assert forall|k: u64| after.contains_key(k) implies exists|u: int| 0 <= u < n + 1 && k == #[trigger] chunk_key(member_pos(origins, u)) by {
        if k != key {
            assert(before.contains_key(k));
        }
    }
    assert forall|k: u64| (exists|u: int| 0 <= u < n + 1 && k == #[trigger] chunk_key(member_pos(origins, u))) implies after.contains_key(k) by {
        let u = choose|u: int| 0 <= u < n + 1 && k == #[trigger] chunk_key(member_pos(origins, u));
        if u < n {
            assert(before.contains_key(k));
        }
    }
    assert forall|u: int| 0 <= u < n + 1 implies after[#[trigger] chunk_key(member_pos(origins, u))] == member_tag(u) by {
        if u < n {
            assert(before[chunk_key(member_pos(origins, u))] == member_tag(u));
        }
    }
}

/// Whether the schedule picked the `i`-th chunk and it belongs to `phase`.
pub open spec fn picked(chunks: Seq<ChunkPos>, scheduled: Seq<bool>, phase: int, i: int) -> bool {
    scheduled[i] && in_phase_spec(chunks[i], phase)
}

/// The windows of `phase` over the chunks that the schedule picked
/// (`scheduled[i]` for `chunks[i]`): the window around each picked chunk of
/// the phase, once each and in order, with each chunk of each window mapped
/// to its window, column and row.
pub fn plan_phase(chunks: &[ChunkPos], scheduled: &[bool], phase: u32) -> (plan: PhasePlan)
    requires
        chunks@.len() == scheduled@.len(),
        forall|i: int| 0 <= i < chunks@.len() ==> chunk_in_range(#[trigger] chunks@[i]),
    ensures
        plan.wf(),
        plan.phase == phase,
        forall|o: ChunkPos| plan.origins@.contains(o) <==> exists|i: int| 0 <= i < chunks@.len()
            && #[trigger] picked(chunks@, scheduled@, phase as int, i) && window_origin_spec(chunks@[i]) == o,
{
    let ghost ph = phase as int;
    let mut origins: Vec<ChunkPos> = Vec::new();
    let mut j: usize = 0;
    while j < chunks.len()
        invariant
            chunks@.len() == scheduled@.len(),
            forall|i: int| 0 <= i < chunks@.len() ==> chunk_in_range(#[trigger] chunks@[i]),
            ph == phase as int,
            0 <= j <= chunks@.len(),
            phase_origins(origins@, ph),
            forall|o: ChunkPos| origins@.contains(o) <==> exists|i: int| 0 <= i < j
                && #[trigger] picked(chunks@, scheduled@, ph, i) && window_origin_spec(chunks@[i]) == o,
        decreases chunks@.len() - j,
    {
        let c = chunks[j];
        let ghost before = origins@;
        if scheduled[j] && in_phase(c, phase) {
            let o = window_origin(c);
            proof {
                lemma_window_of_phase(c, ph);
            }
            insert_origin(&mut origins, o);
            proof {
                assert forall|i: int| 0 <= i < origins@.len() implies phase_origin(#[trigger] origins@[i], ph) by {
                    assert(origins@.contains(origins@[i]));
                    if origins@[i] != o {
                        assert(before.contains(origins@[i]));
                    }
                }
            }
        }
        proof {
            assert forall|e: ChunkPos| origins@.contains(e) implies exists|i: int| 0 <= i < j + 1
                && #[trigger] picked(chunks@, scheduled@, ph, i) && window_origin_spec(chunks@[i]) == e by {
                if !before.contains(e) {
                    assert(picked(chunks@, scheduled@, ph, j as int));
                }
            }
            assert forall|e: ChunkPos| (exists|i: int| 0 <= i < j + 1
                && #[trigger] picked(chunks@, scheduled@, ph, i) && window_origin_spec(chunks@[i]) == e) implies origins@.contains(e) by {
                let i = choose|i: int| 0 <= i < j + 1 && #[trigger] picked(chunks@, scheduled@, ph, i) && window_origin_spec(chunks@[i]) == e;
                if i < j {
                    assert(before.contains(e));
                }
            }
        }
        j = j + 1;
    }
    let mut members: FxHashMap<u64, (usize, i32, i32)> = FxHashMap::default();
    let mut i: usize = 0;
    while i < origins.len()
        invariant
            phase_origins(origins@, ph),
            0 <= i <= origins@.len(),
            members_match(origins@, members@, 16 * i),
        decreases origins@.len() - i,
    {
        let o = origins[i];
        assert(phase_origin(origins@[i as int], ph));
        let mut r: usize = 0;
        while r < 16
            invariant
                phase_origins(origins@, ph),
                0 <= i < origins@.len(),
                o == origins@[i as int],
                phase_origin(o, ph),
                0 <= r <= 16,
                members_match(origins@, members@, 16 * i + r),
            decreases 16 - r,
        {
            let sx = (r % 4) as i32;
            let sy = (r / 4) as i32;
            let ghost n = 16 * i + r;
            assert(n / 16 == i && n % 4 == r % 4 && (n % 16) / 4 == r / 4);
            assert(origins@.len() == origins.len());
            let key = key_of_pair(o.x + sx, o.y + sy);
            assert(key == chunk_key(member_pos(origins@, n)));
            assert((i, sx, sy) == member_tag(n));
            let ghost before = members@;
            fx_map_insert(&mut members, key, (i, sx, sy));
            proof {
                lemma_members_step(origins@, ph, before, members@, n);
            }
            r = r + 1;
        }
        i = i + 1;
    }
    PhasePlan { phase, origins, members }
}


/// The slot of column `sx`, row `sy` of a window, if inside it.
pub open spec fn slot_spec(sx: int, sy: int) -> Option<usize> {
    if 0 <= sx < WINDOW_CHUNKS && 0 <= sy < WINDOW_CHUNKS {
        Some((sy * WINDOW_CHUNKS + sx) as usize)
    } else {
        None
    }
}

/// The slot of column `sx`, row `sy` of a window, if inside it.
pub fn window_slot(sx: i32, sy: i32) -> (r: Option<usize>)
    ensures
        r == slot_spec(sx as int, sy as int),
{
    if 0 <= sx && sx < WINDOW_CHUNKS && 0 <= sy && sy < WINDOW_CHUNKS {
        Some((sy * WINDOW_CHUNKS + sx) as usize)
    } else {
        None
    }
}

/// The slot of chunk `c` in the window starting at `origin`, the column and
/// row taken as differences wrapped to `i32`.
pub fn slot_of(origin: ChunkPos, c: ChunkPos) -> (r: Option<usize>)
    ensures
        r == slot_spec(c.x.wrapping_sub(origin.x) as int, c.y.wrapping_sub(origin.y) as int),
{
    window_slot(c.x.wrapping_sub(origin.x), c.y.wrapping_sub(origin.y))
}

/// A chunk inside a window has the slot of its column and row; distinct
/// chunks inside one window have distinct slots, all below `WINDOW_SLOTS`.
pub proof fn lemma_slots_distinct(origin: ChunkPos, a: ChunkPos, b: ChunkPos)
    requires
        window_holds(origin, a),
        window_holds(origin, b),
    ensures
        slot_spec(a.x.wrapping_sub(origin.x) as int, a.y.wrapping_sub(origin.y) as int)
            == Some(((a.y - origin.y) * WINDOW_CHUNKS + (a.x - origin.x)) as usize),
        ((a.y - origin.y) * WINDOW_CHUNKS + (a.x - origin.x)) < WINDOW_SLOTS,
        a != b ==> slot_spec(a.x.wrapping_sub(origin.x) as int, a.y.wrapping_sub(origin.y) as int)
            != slot_spec(b.x.wrapping_sub(origin.x) as int, b.y.wrapping_sub(origin.y) as int),
{
}

/// Which chunks of a window's middle block are simulated this pass: those
/// the schedule picked (`simulated[oy][ox]` for the chunk at column `ox + 1`,
/// row `oy + 1`) whose eight neighbors are loaded (`loaded[y][x]` for the
/// slot at column `x`, row `y`).
pub fn owned_chunks(simulated: [[bool; 2]; 2], loaded: [[bool; 4]; 4]) -> (owned: [[bool; 2]; 2])
    ensures
        forall|oy: int, ox: int| 0 <= oy < 2 && 0 <= ox < 2 ==> #[trigger] owned@[oy]@[ox] == (simulated@[oy]@[ox]
            && forall|dy: int, dx: int| -1 <= dy <= 1 && -1 <= dx <= 1 ==> #[trigger] loaded@[oy + 1 + dy]@[ox + 1 + dx]),
{
    let mut owned = [[false; 2]; 2];
    let mut oy: usize = 0;
    while oy < 2
        invariant
            0 <= oy <= 2,
            forall|y: int, x: int| 0 <= y < oy && 0 <= x < 2 ==> #[trigger] owned@[y]@[x] == (simulated@[y]@[x]
                && forall|dy: int, dx: int| -1 <= dy <= 1 && -1 <= dx <= 1 ==> #[trigger] loaded@[y + 1 + dy]@[x + 1 + dx]),
        decreases 2 - oy,
    {
        let mut row = [false; 2];
        let mut ox: usize = 0;
        while ox < 2
            invariant
                0 <= oy < 2,
                0 <= ox <= 2,
                forall|x: int| 0 <= x < ox ==> #[trigger] row@[x] == (simulated@[oy as int]@[x]
                    && forall|dy: int, dx: int| -1 <= dy <= 1 && -1 <= dx <= 1 ==> #[trigger] loaded@[oy + 1 + dy]@[x + 1 + dx]),
            decreases 2 - ox,
        {
            let mut all = true;
            let mut k: usize = 0;
            while k < 9
                invariant
                    0 <= oy < 2,
                    0 <= ox < 2,
                    0 <= k <= 9,
                    all == forall|m: int| 0 <= m < k ==> #[trigger] loaded@[oy + m / 3]@[ox + m % 3],
                decreases 9 - k,
            {
                all = all && loaded[oy + k / 3][ox + k % 3];
                k = k + 1;
            }
            proof {
                assert forall|dy: int, dx: int| -1 <= dy <= 1 && -1 <= dx <= 1 && all implies
                    #[trigger] loaded@[oy + 1 + dy]@[ox + 1 + dx] by {
                    let m = 3 * (dy + 1) + (dx + 1);
                    assert(0 <= m < 9 && m / 3 == dy + 1 && m % 3 == dx + 1);
                    assert(loaded@[oy + m / 3]@[ox + m % 3]);
                }
                if !all {
                    let m = choose|m: int| 0 <= m < 9 && !#[trigger] loaded@[oy + m / 3]@[ox + m % 3];
                    assert(!loaded@[oy + 1 + (m / 3 - 1)]@[ox + 1 + (m % 3 - 1)]);
                }
            }
            row[ox] = simulated[oy][ox] && all;
            ox = ox + 1;
        }
        owned[oy] = row;
        oy = oy + 1;
    }
    owned
}

/// Cells move at most one chunk's width per pass. A rule running on a cell of
/// a window's middle block can therefore reach only cells whose chunk is in
/// the window: here along one axis, with `start` the window's first chunk,
/// `x` the cell and `reach` how far the rule looks.
pub proof fn lemma_reach_stays_in_window(start: int, chunk_size: int, x: int, reach: int)
    requires
        chunk_size > 0,
        start + 1 <= x / chunk_size <= start + 2,
        -chunk_size <= reach <= chunk_size,
    ensures
        in_window(start, (x + reach) / chunk_size),
{
    let c = x / chunk_size;
    let d = (x + reach) / chunk_size;
    assert(c * chunk_size <= x < (c + 1) * chunk_size) by (nonlinear_arith)
        requires
            chunk_size > 0,
            c == x / chunk_size,
    ;
    assert(d * chunk_size <= x + reach < (d + 1) * chunk_size) by (nonlinear_arith)
        requires
            chunk_size > 0,
            d == (x + reach) / chunk_size,
    ;
    assert(c - 1 <= d <= c + 1) by (nonlinear_arith)
        requires
            chunk_size > 0,
            c * chunk_size <= x < (c + 1) * chunk_size,
            d * chunk_size <= x + reach < (d + 1) * chunk_size,
            -chunk_size <= reach <= chunk_size,
    ;
}

} // verus!
