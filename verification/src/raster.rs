//! The cells a stamped body covers: an ordered list with each cell's local
//! index, and a hash set of the same cells for membership tests.
use vstd::prelude::*;
use rustc_hash::FxHashSet;
use crate::fx::{fx_insert, fx_contains, pair_key, key_of_pair, lemma_pair_key_injective};
use crate::geometry::CellPos;

verus! {

/// The hash-set key of a cell.
pub open spec fn cell_key(pos: CellPos) -> u64 {
    pair_key(pos.x, pos.y)
}

/// Distinct cells have distinct keys.
pub proof fn lemma_cell_key_injective(a: CellPos, b: CellPos)
    requires
        cell_key(a) == cell_key(b),
    ensures
        a == b,
{
    lemma_pair_key_injective(a.x, a.y, b.x, b.y);
}

/// The key of a cell.
pub fn key_of(pos: CellPos) -> (k: u64)
    ensures
        k == cell_key(pos),
{
    key_of_pair(pos.x, pos.y)
}

/// The cells of a stamp in stamping order with their local indices, and the
/// set of their keys.
pub struct Raster {
    pub cells: Vec<(CellPos, u16)>,
    pub set: FxHashSet<u64>,
}

impl Raster {
    /// The set holds exactly the keys of the listed cells.
    pub open spec fn wf(&self) -> bool {
        forall|k: u64| self.set@.contains(k) <==> exists|i: int| 0 <= i < self.cells@.len() && cell_key(#[trigger] self.cells@[i].0) == k
    }

    /// An empty raster.
    pub fn new() -> (r: Raster)
        ensures
            r.wf(),
            r.cells@.len() == 0,
    {
        let set: FxHashSet<u64> = FxHashSet::default();
        Raster { cells: Vec::new(), set }
    }

    /// Whether the raster covers `pos`.
    pub fn covers(&self, pos: CellPos) -> (r: bool)
        requires
            self.wf(),
        ensures
            r == exists|i: int| 0 <= i < self.cells@.len() && (#[trigger] self.cells@[i]).0 == pos,
    {
        let found = fx_contains(&self.set, key_of(pos));
        proof {
            if found {
                let i = choose|i: int| 0 <= i < self.cells@.len() && cell_key(#[trigger] self.cells@[i].0) == cell_key(pos);
                lemma_cell_key_injective(self.cells@[i].0, pos);
            } else {
                if exists|i: int| 0 <= i < self.cells@.len() && (#[trigger] self.cells@[i]).0 == pos {
                    let i = choose|i: int| 0 <= i < self.cells@.len() && (#[trigger] self.cells@[i]).0 == pos;
                    assert(cell_key(self.cells@[i].0) == cell_key(pos));
                }
            }
        }
        found
    }

    /// Adds `pos` with local index `local` unless the raster already covers it,
    /// reporting whether it was added.
    pub fn insert(&mut self, pos: CellPos, local: u16) -> (added: bool)
        requires
            old(self).wf(),
        ensures
            final(self).wf(),
            added == !(exists|i: int| 0 <= i < old(self).cells@.len() && (#[trigger] old(self).cells@[i]).0 == pos),
            added ==> final(self).cells@ == old(self).cells@.push((pos, local)),
            !added ==> final(self).cells@ == old(self).cells@,
    {
        let ghost before = self.cells@;
        let key = key_of(pos);
        let added = fx_insert(&mut self.set, key);
        proof {
            if !added {
                let i = choose|i: int| 0 <= i < before.len() && cell_key(#[trigger] before[i].0) == key;
                lemma_cell_key_injective(before[i].0, pos);
            } else {
                if exists|i: int| 0 <= i < before.len() && (#[trigger] before[i]).0 == pos {
                    let i = choose|i: int| 0 <= i < before.len() && (#[trigger] before[i]).0 == pos;
                    assert(cell_key(before[i].0) == key);
                }
            }
        }
        if added {
            self.cells.push((pos, local));
            proof {
                assert forall|k: u64| self.set@.contains(k) <==> exists|i: int| 0 <= i < self.cells@.len() && cell_key(#[trigger] self.cells@[i].0) == k by {
                    if self.set@.contains(k) && k != key {
                        let i = choose|i: int| 0 <= i < before.len() && cell_key(#[trigger] before[i].0) == k;
                        assert(self.cells@[i] == before[i]);
                    }
                    if k == key {
                        assert(cell_key(self.cells@[before.len() as int].0) == k);
                    }
                    if exists|i: int| 0 <= i < self.cells@.len() && cell_key(#[trigger] self.cells@[i].0) == k {
                        let i = choose|i: int| 0 <= i < self.cells@.len() && cell_key(#[trigger] self.cells@[i].0) == k;
                        if i < before.len() {
                            assert(self.cells@[i] == before[i]);
                        }
                    }
                }
            }
        }
        added
    }
}

} // verus!
