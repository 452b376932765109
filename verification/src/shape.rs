//! The cell shape of a walking body: its occupied offsets in row order and the
//! frontier of cells facing each direction.
use vstd::prelude::*;
use crate::geometry::{Dir, dir_offset, dir_index, Footprint, floor_cell, floor_cell_spec};
use crate::rotation::abs;
use rustc_hash::FxHashSet;
use crate::fx::{fx_insert, fx_contains, pair_key, key_of_pair, lemma_pair_key_injective};

verus! {

/// Row-major order on offsets: by `y`, then by `x`.
pub open spec fn key_lt(a: (i32, i32), b: (i32, i32)) -> bool {
    a.1 < b.1 || (a.1 == b.1 && a.0 < b.0)
}

/// Offsets strictly increasing in row-major order (hence distinct).
pub open spec fn strictly_sorted(s: Seq<(i32, i32)>) -> bool {
    forall|i: int, j: int| 0 <= i < j < s.len() ==> key_lt(#[trigger] s[i], #[trigger] s[j])
}

/// Offsets small enough that neighbors and extents stay in range.
pub open spec fn small_offsets(s: Seq<(i32, i32)>) -> bool {
    forall|i: int| 0 <= i < s.len() ==> i32::MIN < (#[trigger] s[i]).0 < i32::MAX && i32::MIN < s[i].1 < i32::MAX
}

/// The neighbor of an offset one step in direction `dir`.
pub open spec fn neighbor(c: (i32, i32), dir: Dir) -> (i32, i32) {
    ((c.0 + dir_offset(dir).0) as i32, (c.1 + dir_offset(dir).1) as i32)
}

/// The offsets of `s`, in order, whose neighbor toward `dir` is not in `all`.
pub open spec fn frontier_of(s: Seq<(i32, i32)>, all: Seq<(i32, i32)>, dir: Dir) -> Seq<(i32, i32)>
    decreases s.len(),
{
    if s.len() == 0 {
        Seq::empty()
    } else {
        let rest = frontier_of(s.drop_last(), all, dir);
        if all.contains(neighbor(s.last(), dir)) { rest } else { rest.push(s.last()) }
    }
}

/// One more than the largest `x` of the offsets, or one for none.
pub open spec fn width_of(s: Seq<(i32, i32)>) -> int
    decreases s.len(),
{
    if s.len() == 0 {
        1
    } else {
        let rest = width_of(s.drop_last());
        let here = s.last().0 + 1;
        if s.len() == 1 || here > rest { here } else { rest }
    }
}

/// One more than the largest `y` of the offsets, or one for none.
pub open spec fn height_of(s: Seq<(i32, i32)>) -> int
    decreases s.len(),
{
    if s.len() == 0 {
        1
    } else {
        let rest = height_of(s.drop_last());
        let here = s.last().1 + 1;
        if s.len() == 1 || here > rest { here } else { rest }
    }
}

/// A cell shape: width, height, occupied offsets in row-major order, and the
/// frontier facing each direction.
#[derive(Debug, Clone)]
pub struct Shape {
    pub w: i32,
    pub h: i32,
    pub cells: Vec<(i32, i32)>,
    pub frontiers: [Vec<(i32, i32)>; 4],
}

impl Shape {
    /// The shape's invariant: cells sorted and distinct, extents and frontiers
    /// derived from them.
    pub open spec fn wf(&self) -> bool {
        &&& strictly_sorted(self.cells@)
        &&& small_offsets(self.cells@)
        &&& self.w == width_of(self.cells@)
        &&& self.h == height_of(self.cells@)
        &&& forall|d: Dir| #[trigger] self.frontiers[dir_index(d)]@ == frontier_of(self.cells@, self.cells@, d)
    }
}

proof fn lemma_width_bound(s: Seq<(i32, i32)>)
    ensures
        forall|i: int| 0 <= i < s.len() ==> (#[trigger] s[i]).0 < width_of(s),
        s.len() > 0 ==> exists|i: int| 0 <= i < s.len() && (#[trigger] s[i]).0 == width_of(s) - 1,
    decreases s.len(),
{
    if s.len() > 0 {
        let rest = s.drop_last();
        lemma_width_bound(rest);
        let last = s.len() - 1;
        assert forall|i: int| 0 <= i < last implies #[trigger] s[i] == rest[i] by {}
        if s.len() == 1 || s.last().0 + 1 > width_of(rest) {
            assert(s[last].0 == width_of(s) - 1);
        } else {
            let i = choose|i: int| 0 <= i < rest.len() && (#[trigger] rest[i]).0 == width_of(rest) - 1;
            assert(s[i].0 == width_of(s) - 1);
        }
        assert forall|i: int| 0 <= i < s.len() implies (#[trigger] s[i]).0 < width_of(s) by {
            if i < last {
                assert(rest[i].0 < width_of(rest));
            }
        }
    }
}

proof fn lemma_height_bound(s: Seq<(i32, i32)>)
    ensures
        forall|i: int| 0 <= i < s.len() ==> (#[trigger] s[i]).1 < height_of(s),
        s.len() > 0 ==> exists|i: int| 0 <= i < s.len() && (#[trigger] s[i]).1 == height_of(s) - 1,
    decreases s.len(),
{
    if s.len() > 0 {
        let rest = s.drop_last();
        lemma_height_bound(rest);
        let last = s.len() - 1;
        assert forall|i: int| 0 <= i < last implies #[trigger] s[i] == rest[i] by {}
        if s.len() == 1 || s.last().1 + 1 > height_of(rest) {
            assert(s[last].1 == height_of(s) - 1);
        } else {
            let i = choose|i: int| 0 <= i < rest.len() && (#[trigger] rest[i]).1 == height_of(rest) - 1;
            assert(s[i].1 == height_of(s) - 1);
        }
        assert forall|i: int| 0 <= i < s.len() implies (#[trigger] s[i]).1 < height_of(s) by {
            if i < last {
                assert(rest[i].1 < height_of(rest));
            }
        }
    }
}

proof fn lemma_extent_small(s: Seq<(i32, i32)>)
    requires
        small_offsets(s),
    ensures
        i32::MIN < width_of(s) <= i32::MAX,
        i32::MIN < height_of(s) <= i32::MAX,
    decreases s.len(),
{
    if s.len() > 0 {
        lemma_extent_small(s.drop_last());
        assert(s.last() == s[s.len() - 1]);
        assert forall|i: int| 0 <= i < s.drop_last().len() implies i32::MIN < (#[trigger] s.drop_last()[i]).0 < i32::MAX
            && i32::MIN < s.drop_last()[i].1 < i32::MAX by {
            assert(s.drop_last()[i] == s[i]);
        }
    }
}

proof fn lemma_extent_of_rect(s: Seq<(i32, i32)>, w: i32, h: i32)
    requires
        w >= 1,
        h >= 1,
        forall|c: (i32, i32)| s.contains(c) <==> (0 <= c.0 < w && 0 <= c.1 < h),
    ensures
        width_of(s) == w,
        height_of(s) == h,
{
    lemma_width_bound(s);
    lemma_height_bound(s);
    assert(s.contains(((w - 1) as i32, 0i32)));
    assert(s.contains((0i32, (h - 1) as i32)));
    let i = choose|i: int| 0 <= i < s.len() && s[i] == ((w - 1) as i32, 0i32);
    let j = choose|j: int| 0 <= j < s.len() && s[j] == (0i32, (h - 1) as i32);
    assert(s[i].0 < width_of(s));
    assert(s[j].1 < height_of(s));
    assert(s.len() > 0);
    let a = choose|a: int| 0 <= a < s.len() && (#[trigger] s[a]).0 == width_of(s) - 1;
    let b = choose|b: int| 0 <= b < s.len() && (#[trigger] s[b]).1 == height_of(s) - 1;
    assert(s.contains(s[a]));
    assert(s.contains(s[b]));
}

fn offset_lt(a: (i32, i32), b: (i32, i32)) -> (r: bool)
    ensures
        r == key_lt(a, b),
{
    a.1 < b.1 || (a.1 == b.1 && a.0 < b.0)
}

/// The first position in `s` whose offset is not before `c`.
fn lower_bound(s: &Vec<(i32, i32)>, c: (i32, i32)) -> (r: usize)
    requires
        strictly_sorted(s@),
    ensures
        r <= s@.len(),
        forall|i: int| 0 <= i < r ==> key_lt(#[trigger] s@[i], c),
        forall|i: int| r <= i < s@.len() ==> !key_lt(#[trigger] s@[i], c),
{
    let mut lo: usize = 0;
    let mut hi: usize = s.len();
    while lo < hi
        invariant
            strictly_sorted(s@),
            0 <= lo <= hi <= s@.len(),
            forall|i: int| 0 <= i < lo ==> key_lt(#[trigger] s@[i], c),
            forall|i: int| hi <= i < s@.len() ==> !key_lt(#[trigger] s@[i], c),
        decreases hi - lo,
    {
        let mid = lo + (hi - lo) / 2;
        if offset_lt(s[mid], c) {
            proof {
                assert forall|i: int| 0 <= i < mid + 1 implies key_lt(#[trigger] s@[i], c) by {
                    if i < mid {
                        assert(key_lt(s@[i], s@[mid as int]));
                    }
                }
            }
            lo = mid + 1;
        } else {
            proof {
                assert forall|i: int| mid <= i < s@.len() implies !key_lt(#[trigger] s@[i], c) by {
                    if i > mid {
                        assert(key_lt(s@[mid as int], s@[i]));
                    }
                }
            }
            hi = mid;
        }
    }
    lo
}

/// Whether `c` occurs in the sorted offsets `s`.
fn sorted_contains(s: &Vec<(i32, i32)>, c: (i32, i32)) -> (r: bool)
    requires
        strictly_sorted(s@),
    ensures
        r == s@.contains(c),
{
    let k = lower_bound(s, c);
    let found = k < s.len() && s[k].0 == c.0 && s[k].1 == c.1;
    proof {
        if s@.contains(c) {
            let j = choose|j: int| 0 <= j < s@.len() && s@[j] == c;
            if j < k {
                assert(key_lt(s@[j], c));
            } else if j > k {
                assert(key_lt(s@[k as int], s@[j]));
            }
        }
    }
    found
}

/// The keys of the offsets are exactly the keys `occupied` holds.
pub open spec fn occupancy(occupied: Set<u64>, cells: Seq<(i32, i32)>) -> bool {
    forall|k: u64| occupied.contains(k) <==> exists|i: int| 0 <= i < cells.len() && pair_key((#[trigger] cells[i]).0, cells[i].1) == k
}

/// The set of the offsets' keys.
fn occupied_set(cells: &Vec<(i32, i32)>) -> (occupied: FxHashSet<u64>)
    ensures
        occupancy(occupied@, cells@),
{
    let mut occupied: FxHashSet<u64> = FxHashSet::default();
    let mut i: usize = 0;
    while i < cells.len()
        invariant
            0 <= i <= cells@.len(),
            occupancy(occupied@, cells@.subrange(0, i as int)),
        decreases cells@.len() - i,
    {
        let c = cells[i];
        let ghost before = occupied@;
        fx_insert(&mut occupied, key_of_pair(c.0, c.1));
        proof {
            let prefix = cells@.subrange(0, i as int);
            let next = cells@.subrange(0, i + 1);
            assert forall|k: u64| occupied@.contains(k) <==> exists|j: int| 0 <= j < next.len() && pair_key((#[trigger] next[j]).0, next[j].1) == k by {
                if occupied@.contains(k) && k != pair_key(c.0, c.1) {
                    let j = choose|j: int| 0 <= j < prefix.len() && pair_key((#[trigger] prefix[j]).0, prefix[j].1) == k;
                    assert(next[j] == prefix[j]);
                }
                if k == pair_key(c.0, c.1) {
                    assert(next[i as int] == c);
                }
                if exists|j: int| 0 <= j < next.len() && pair_key((#[trigger] next[j]).0, next[j].1) == k {
                    let j = choose|j: int| 0 <= j < next.len() && pair_key((#[trigger] next[j]).0, next[j].1) == k;
                    if j < i {
                        assert(prefix[j] == next[j]);
                    }
                }
            }
        }
        i = i + 1;
    }
    assert(cells@.subrange(0, cells@.len() as int) =~= cells@);
    occupied
}

/// The offsets of `cells` whose neighbor toward `dir` is not among them, as
/// `occupied` (their keys) tells.
fn frontier_for(cells: &Vec<(i32, i32)>, occupied: &FxHashSet<u64>, dir: Dir) -> (r: Vec<(i32, i32)>)
    requires
        small_offsets(cells@),
        occupancy(occupied@, cells@),
    ensures
        r@ == frontier_of(cells@, cells@, dir),
{
    let (dx, dy) = dir.offset();
    let mut out: Vec<(i32, i32)> = Vec::new();
    let mut i: usize = 0;
    while i < cells.len()
        invariant
            small_offsets(cells@),
            occupancy(occupied@, cells@),
            (dx, dy) == dir_offset(dir),
            0 <= i <= cells@.len(),
            out@ == frontier_of(cells@.subrange(0, i as int), cells@, dir),
        decreases cells@.len() - i,
    {
        let c = cells[i];
        let ghost prefix = cells@.subrange(0, i as int);
        let ghost next = cells@.subrange(0, i + 1);
        assert(next.drop_last() =~= prefix);
        assert(next.last() == c);
        assert(i32::MIN < c.0 < i32::MAX && i32::MIN < c.1 < i32::MAX) by {
            assert(cells@[i as int] == c);
        }
        let n = (c.0 + dx, c.1 + dy);
        assert(n == neighbor(c, dir));
        let held = fx_contains(occupied, key_of_pair(n.0, n.1));
        proof {
            if held {
                let j = choose|j: int| 0 <= j < cells@.len() && pair_key((#[trigger] cells@[j]).0, cells@[j].1) == pair_key(n.0, n.1);
                lemma_pair_key_injective(cells@[j].0, cells@[j].1, n.0, n.1);
                assert(cells@[j] == n);
            } else if cells@.contains(n) {
                let j = choose|j: int| 0 <= j < cells@.len() && cells@[j] == n;
                assert(pair_key(cells@[j].0, cells@[j].1) == pair_key(n.0, n.1));
            }
        }
        if !held {
            out.push(c);
        }
        i = i + 1;
    }
    assert(cells@.subrange(0, cells@.len() as int) =~= cells@);
    out
}

/// Inserts `c` into the sorted distinct offsets unless already present.
fn insert_offset(cells: &mut Vec<(i32, i32)>, c: (i32, i32))
    requires
        strictly_sorted(old(cells)@),
    ensures
        strictly_sorted(final(cells)@),
        forall|e: (i32, i32)| final(cells)@.contains(e) <==> (old(cells)@.contains(e) || e == c),
{
    let k = lower_bound(cells, c);
    if k < cells.len() && cells[k].0 == c.0 && cells[k].1 == c.1 {
        return;
    }
    let ghost before = cells@;
    cells.insert(k, c);
    proof {
        let after = cells@;
        assert(after =~= before.subrange(0, k as int).push(c) + before.subrange(k as int, before.len() as int));
        assert(after.len() == before.len() + 1);
        assert forall|i: int| 0 <= i < after.len() implies #[trigger] after[i] == (if i < k {
            before[i]
        } else if i == k {
            c
        } else {
            before[i - 1]
        }) by {}
        if k < before.len() {
            assert(!key_lt(before[k as int], c));
            assert(before[k as int] != c);
            assert(key_lt(c, before[k as int]));
        }
        assert forall|i: int, j: int| 0 <= i < j < after.len() implies key_lt(#[trigger] after[i], #[trigger] after[j]) by {
            if j < k {
                assert(key_lt(before[i], before[j]));
            } else if j == k {
                assert(key_lt(before[i], c));
            } else if i < k {
                assert(key_lt(before[i], c));
                if j - 1 > k {
                    assert(key_lt(before[k as int], before[j - 1]));
                }
                assert(key_lt(c, before[j - 1]));
            } else if i == k {
                if j - 1 > k {
                    assert(key_lt(before[k as int], before[j - 1]));
                }
            } else {
                assert(key_lt(before[i - 1], before[j - 1]));
            }
        }
        assert forall|e: (i32, i32)| after.contains(e) <==> (before.contains(e) || e == c) by {
            if after.contains(e) {
                let i = choose|i: int| 0 <= i < after.len() && after[i] == e;
                if i < k {
                    assert(before[i] == e);
                } else if i > k {
                    assert(before[i - 1] == e);
                }
            }
            if before.contains(e) {
                let i = choose|i: int| 0 <= i < before.len() && before[i] == e;
                if i < k {
                    assert(after[i] == e);
                } else {
                    assert(after[i + 1] == e);
                }
            }
            if e == c {
                assert(after[k as int] == e);
            }
        }
    }
}

impl Shape {
    /// The shape of the given offsets, sorted into rows and with duplicates removed.
    pub fn from_offsets(offsets: Vec<(i32, i32)>) -> (r: Shape)
        requires
            small_offsets(offsets@),
        ensures
            r.wf(),
            forall|c: (i32, i32)| r.cells@.contains(c) <==> offsets@.contains(c),
    {
        let mut cells: Vec<(i32, i32)> = Vec::new();
        let mut i: usize = 0;
        while i < offsets.len()
            invariant
                small_offsets(offsets@),
                strictly_sorted(cells@),
                0 <= i <= offsets@.len(),
                forall|c: (i32, i32)| cells@.contains(c) <==> offsets@.subrange(0, i as int).contains(c),
            decreases offsets@.len() - i,
        {
            let c = offsets[i];
            insert_offset(&mut cells, c);
            proof {
                let prefix = offsets@.subrange(0, i as int);
                let next = offsets@.subrange(0, i + 1);
                assert(next =~= prefix.push(c));
                assert forall|e: (i32, i32)| next.contains(e) <==> (prefix.contains(e) || e == c) by {
                    if next.contains(e) {
                        let j = choose|j: int| 0 <= j < next.len() && next[j] == e;
                        if j < i {
                            assert(prefix[j] == e);
                        }
                    }
                    if prefix.contains(e) {
                        let j = choose|j: int| 0 <= j < prefix.len() && prefix[j] == e;
                        assert(next[j] == e);
                    }
                    if e == c {
                        assert(next[i as int] == e);
                    }
                }
            }
            i = i + 1;
        }
        assert(offsets@.subrange(0, offsets@.len() as int) =~= offsets@);
        assert(small_offsets(cells@)) by {
            assert forall|k: int| 0 <= k < cells@.len() implies i32::MIN < (#[trigger] cells@[k]).0 < i32::MAX
                && i32::MIN < cells@[k].1 < i32::MAX by {
                assert(cells@.contains(cells@[k]));
                assert(offsets@.contains(cells@[k]));
            }
        }
        let mut w: i32 = 1;
        let mut h: i32 = 1;
        let mut j: usize = 0;
        while j < cells.len()
            invariant
                small_offsets(cells@),
                0 <= j <= cells@.len(),
                w == width_of(cells@.subrange(0, j as int)),
                h == height_of(cells@.subrange(0, j as int)),
                i32::MIN < w <= i32::MAX,
                i32::MIN < h <= i32::MAX,
            decreases cells@.len() - j,
        {
            let c = cells[j];
            let ghost next = cells@.subrange(0, j + 1);
            assert(next.drop_last() =~= cells@.subrange(0, j as int));
            assert(next.last() == c);
            assert(i32::MIN < c.0 < i32::MAX && i32::MIN < c.1 < i32::MAX) by {
                assert(cells@[j as int] == c);
            }
            if j == 0 || c.0 + 1 > w {
                w = c.0 + 1;
            }
            if j == 0 || c.1 + 1 > h {
                h = c.1 + 1;
            }
            j = j + 1;
        }
        assert(cells@.subrange(0, cells@.len() as int) =~= cells@);
        let occupied = occupied_set(&cells);
        let f0 = frontier_for(&cells, &occupied, Dir::PosX);
        let f1 = frontier_for(&cells, &occupied, Dir::NegX);
        let f2 = frontier_for(&cells, &occupied, Dir::PosY);
        let f3 = frontier_for(&cells, &occupied, Dir::NegY);
        let shape = Shape { w, h, cells, frontiers: [f0, f1, f2, f3] };
        assert forall|d: Dir| #[trigger] shape.frontiers[dir_index(d)]@ == frontier_of(shape.cells@, shape.cells@, d) by {
            match d {
                Dir::PosX => {},
                Dir::NegX => {},
                Dir::PosY => {},
                Dir::NegY => {},
            }
        }
        shape
    }

    /// The shape filling a `w` by `h` rectangle (each at least one) from the origin.
    pub fn rect(w: i32, h: i32) -> (r: Shape)
        requires
            (if w >= 1 { w as int } else { 1 }) * (if h >= 1 { h as int } else { 1 }) <= i32::MAX,
        ensures
            r.wf(),
            r.w == (if w >= 1 { w } else { 1 }),
            r.h == (if h >= 1 { h } else { 1 }),
            forall|c: (i32, i32)| r.cells@.contains(c) <==> (0 <= c.0 < r.w && 0 <= c.1 < r.h),
    {
        let w: i32 = if w >= 1 { w } else { 1 };
        let h: i32 = if h >= 1 { h } else { 1 };
        assert(1 <= w * h <= i32::MAX && w * h < usize::MAX) by (nonlinear_arith)
            requires
                1 <= w,
                1 <= h,
                w * h <= i32::MAX,
        ;
        let mut cells: Vec<(i32, i32)> = Vec::with_capacity((w * h) as usize);
        let mut y: i32 = 0;
        while y < h
            invariant
                1 <= w,
                1 <= h,
                w * h <= i32::MAX,
                0 <= y <= h,
                cells@.len() == y * w,
                forall|k: int| 0 <= k < cells@.len() ==> #[trigger] cells@[k] == ((k % (w as int)) as i32, (k / (w as int)) as i32),
            decreases h - y,
        {
            let mut x: i32 = 0;
            while x < w
                invariant
                    1 <= w,
                    1 <= h,
                    w * h <= i32::MAX,
                    0 <= y < h,
                    0 <= x <= w,
                    cells@.len() == y * w + x,
                    forall|k: int| 0 <= k < cells@.len() ==> #[trigger] cells@[k] == ((k % (w as int)) as i32, (k / (w as int)) as i32),
                decreases w - x,
            {
                proof {
                    let k = y * w + x;
                    assert(k % (w as int) == x && k / (w as int) == y) by (nonlinear_arith)
                        requires
                            k == y * w + x,
                            0 <= x < w,
                            0 <= y,
                    ;
                }
                cells.push((x, y));
                x = x + 1;
            }
            assert((y + 1) * w == y * w + w) by (nonlinear_arith);
            y = y + 1;
        }
        proof {
            assert forall|k: int| 0 <= k < cells@.len() implies i32::MIN < (#[trigger] cells@[k]).0 < i32::MAX
                && i32::MIN < cells@[k].1 < i32::MAX by {
                assert(0 <= k % (w as int) < w);
                assert(0 <= k / (w as int) < h) by (nonlinear_arith)
                    requires
                        0 <= k < h * w,
                        w >= 1,
                ;
            }
        }
        let shape = Shape::from_offsets(cells);
        proof {
            assert forall|c: (i32, i32)| cells@.contains(c) <==> (0 <= c.0 < w && 0 <= c.1 < h) by {
                if cells@.contains(c) {
                    let k = choose|k: int| 0 <= k < cells@.len() && cells@[k] == c;
                    assert(0 <= k / (w as int) < h) by (nonlinear_arith)
                        requires
                            0 <= k < h * w,
                            w >= 1,
                    ;
                }
                if 0 <= c.0 < w && 0 <= c.1 < h {
                    let k = c.1 * w + c.0;
                    assert(0 <= k < h * w && k % (w as int) == c.0 && k / (w as int) == c.1) by (nonlinear_arith)
                        requires
                            k == c.1 * w + c.0,
                            0 <= c.0 < w,
                            0 <= c.1 < h,
                    ;
                    assert(cells@[k] == c);
                }
            }
            assert forall|c: (i32, i32)| shape.cells@.contains(c) <==> (0 <= c.0 < w && 0 <= c.1 < h) by {
                assert(shape.cells@.contains(c) <==> cells@.contains(c));
            }
            lemma_extent_of_rect(shape.cells@, w, h);
        }
        shape
    }

    /// The cell of the shape's origin when centered on subcell position `(cx, cy)`.
    pub fn origin(&self, cx: i64, cy: i64, units: i64) -> (r: (i32, i32))
        requires
            self.wf(),
            1 <= units,
            -0x4000_0000 <= floor_cell_spec(cx as int, units as int) <= 0x4000_0000,
            -0x4000_0000 <= floor_cell_spec(cy as int, units as int) <= 0x4000_0000,
        ensures
            r.0 == floor_cell_spec(cx as int, units as int) - crate::arith::trunc_div_spec(self.w as int, 2),
            r.1 == floor_cell_spec(cy as int, units as int) - crate::arith::trunc_div_spec(self.h as int, 2),
    {
        proof {
            lemma_width_bound(self.cells@);
            lemma_height_bound(self.cells@);
            lemma_extent_small(self.cells@);
        }
        (floor_cell(cx, units) - self.w / 2, floor_cell(cy, units) - self.h / 2)
    }

    /// The rectangle the shape spans when centered on `(cx, cy)`.
    pub fn footprint(&self, cx: i64, cy: i64, units: i64) -> (r: Footprint)
        requires
            self.wf(),
            1 <= units,
            -0x4000_0000 <= floor_cell_spec(cx as int, units as int) <= 0x4000_0000,
            -0x4000_0000 <= floor_cell_spec(cy as int, units as int) <= 0x4000_0000,
            floor_cell_spec(cx as int, units as int) - crate::arith::trunc_div_spec(self.w as int, 2) + self.w - 1 <= i32::MAX,
            floor_cell_spec(cy as int, units as int) - crate::arith::trunc_div_spec(self.h as int, 2) + self.h - 1 <= i32::MAX,
        ensures
            r.x0 == floor_cell_spec(cx as int, units as int) - crate::arith::trunc_div_spec(self.w as int, 2),
            r.y0 == floor_cell_spec(cy as int, units as int) - crate::arith::trunc_div_spec(self.h as int, 2),
            r.x1 == r.x0 + self.w - 1,
            r.y1 == r.y0 + self.h - 1,
    {
        proof {
            lemma_extent_small(self.cells@);
        }
        let (x0, y0) = self.origin(cx, cy, units);
        let x1: i64 = (x0 as i64) + (self.w as i64) - 1;
        let y1: i64 = (y0 as i64) + (self.h as i64) - 1;
        Footprint { x0, y0, x1: x1 as i32, y1: y1 as i32 }
    }

    /// Whether the shape occupies `offset`.
    pub fn covers_offset(&self, offset: (i32, i32)) -> (r: bool)
        requires
            self.wf(),
        ensures
            r == self.cells@.contains(offset),
    {
        sorted_contains(&self.cells, offset)
    }

    pub fn w(&self) -> (r: i32)
        ensures
            r == self.w,
    {
        self.w
    }

    pub fn h(&self) -> (r: i32)
        ensures
            r == self.h,
    {
        self.h
    }

    /// The offsets whose neighbor toward `dir` lies outside the shape.
    pub fn frontier(&self, dir: Dir) -> (r: &[(i32, i32)])
        requires
            self.wf(),
        ensures
            r@ == frontier_of(self.cells@, self.cells@, dir),
    {
        assert(self.frontiers[dir_index(dir)]@ == frontier_of(self.cells@, self.cells@, dir));
        self.frontiers[dir.index()].as_slice()
    }

    /// The offsets with nothing of the shape below them.
    pub fn bottom(&self) -> (r: &[(i32, i32)])
        requires
            self.wf(),
        ensures
            r@ == frontier_of(self.cells@, self.cells@, Dir::NegY),
    {
        self.frontier(Dir::NegY)
    }
}

} // verus!
