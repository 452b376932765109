//! The cells a group of bodies trades with the world when their moves commit
//! together: the cells the group gives up and the cells it takes.
use vstd::prelude::*;
use rustc_hash::FxHashSet;
use crate::geometry::CellPos;
use crate::raster::{cell_key, key_of, lemma_cell_key_injective};
use crate::fx::{fx_insert, fx_contains};
use crate::islands::{row_sorted, sort_rows, lemma_contains_push};

verus! {

/// The cells of a group of rasters, one raster after another.
pub open spec fn cells_of(groups: Seq<Vec<CellPos>>) -> Seq<CellPos>
    decreases groups.len(),
{
    if groups.len() == 0 {
        Seq::empty()
    } else {
        cells_of(groups.drop_last()) + groups.last()@
    }
}

/// All the cells of a group of rasters in one list.
fn flatten_cells(groups: &Vec<Vec<CellPos>>) -> (r: Vec<CellPos>)
    ensures
        r@ == cells_of(groups@),
{
    let mut out: Vec<CellPos> = Vec::new();
    let mut g: usize = 0;
    while g < groups.len()
        invariant
            0 <= g <= groups@.len(),
            out@ == cells_of(groups@.subrange(0, g as int)),
        decreases groups@.len() - g,
    {
        let group = &groups[g];
        let ghost base = out@;
        let mut i: usize = 0;
        while i < group.len()
            invariant
                0 <= i <= group@.len(),
                out@ == base + group@.subrange(0, i as int),
            decreases group@.len() - i,
        {
            out.push(group[i]);
            proof {
                assert(base + group@.subrange(0, i + 1) =~= (base + group@.subrange(0, i as int)).push(group@[i as int]));
            }
            i = i + 1;
        }
        proof {
            let next = groups@.subrange(0, g + 1);
            assert(next.drop_last() =~= groups@.subrange(0, g as int));
            assert(next.last() == groups@[g as int]);
            assert(group@.subrange(0, group@.len() as int) =~= group@);
        }
        g = g + 1;
    }
    proof {
        assert(groups@.subrange(0, groups@.len() as int) =~= groups@);
    }
    out
}

/// The keys of a list of cells.
fn key_set(cells: &Vec<CellPos>) -> (r: FxHashSet<u64>)
    ensures
        forall|p: CellPos| #[trigger] r@.contains(cell_key(p)) <==> cells@.contains(p),
{
    let mut set: FxHashSet<u64> = FxHashSet::default();
    let mut i: usize = 0;
    while i < cells.len()
        invariant
            0 <= i <= cells@.len(),
            forall|p: CellPos| #[trigger] set@.contains(cell_key(p)) <==> cells@.subrange(0, i as int).contains(p),
        decreases cells@.len() - i,
    {
        let pos = cells[i];
        let ghost before = set@;
        fx_insert(&mut set, key_of(pos));
        proof {
            assert(cells@.subrange(0, i + 1) =~= cells@.subrange(0, i as int).push(pos));
            assert forall|p: CellPos| #[trigger] set@.contains(cell_key(p)) <==> cells@.subrange(0, i + 1).contains(p) by {
                lemma_contains_push(cells@.subrange(0, i as int), pos, p);
                if cell_key(p) == cell_key(pos) {
                    lemma_cell_key_injective(p, pos);
                }
            }
        }
        i = i + 1;
    }
    proof {
        assert(cells@.subrange(0, cells@.len() as int) =~= cells@);
    }
    set
}

/// The cells of `cells` whose key `excluded` lacks, each once, in row order.
fn rows_outside(cells: &Vec<CellPos>, excluded: &FxHashSet<u64>, Ghost(out): Ghost<Seq<CellPos>>) -> (r: Vec<CellPos>)
    requires
        forall|p: CellPos| #[trigger] excluded@.contains(cell_key(p)) <==> out.contains(p),
    ensures
        r@.no_duplicates(),
        row_sorted(r@),
        forall|p: CellPos| #[trigger] r@.contains(p) <==> cells@.contains(p) && !out.contains(p),
{
    let mut kept: Vec<CellPos> = Vec::new();
    let mut added: FxHashSet<u64> = FxHashSet::default();
    let mut i: usize = 0;
    while i < cells.len()
        invariant
            0 <= i <= cells@.len(),
            forall|p: CellPos| #[trigger] excluded@.contains(cell_key(p)) <==> out.contains(p),
            forall|p: CellPos| #[trigger] added@.contains(cell_key(p)) <==> kept@.contains(p),
            forall|p: CellPos| #[trigger] kept@.contains(p) <==> cells@.subrange(0, i as int).contains(p) && !out.contains(p),
            kept@.no_duplicates(),
        decreases cells@.len() - i,
    {
        let pos = cells[i];
        let key = key_of(pos);
        let ghost before = kept@;
        let ghost added_before = added@;
        let outside = fx_contains(excluded, key);
        let known = fx_contains(&added, key);
        if !outside && !known {
            fx_insert(&mut added, key);
            kept.push(pos);
        }
        proof {
            assert(cells@.subrange(0, i + 1) =~= cells@.subrange(0, i as int).push(pos));
            if !outside && !known {
                assert(kept@ == before.push(pos));
                assert forall|p: CellPos| #[trigger] added@.contains(cell_key(p)) <==> kept@.contains(p) by {
                    lemma_contains_push(before, pos, p);
                    if cell_key(p) == key {
                        lemma_cell_key_injective(p, pos);
                    }
                }
                assert forall|a: int, b: int| 0 <= a < kept@.len() && 0 <= b < kept@.len() && a != b implies kept@[a] != kept@[b] by {
                    if a == before.len() || b == before.len() {
                        let q = if a == before.len() { b } else { a };
                        assert(before[q] == kept@[q]);
                        if before[q] == pos {
                            assert(before.contains(pos));
                        }
                    }
                }
            }
            assert forall|p: CellPos| #[trigger] kept@.contains(p) <==> cells@.subrange(0, i + 1).contains(p) && !out.contains(p) by {
                lemma_contains_push(cells@.subrange(0, i as int), pos, p);
                if !outside && !known {
                    lemma_contains_push(before, pos, p);
                }
            }
        }
        i = i + 1;
    }
    proof {
        assert(cells@.subrange(0, cells@.len() as int) =~= cells@);
    }
    let sorted = sort_rows(kept);
    proof {
        broadcast use vstd::seq_lib::group_to_multiset_ensures;
        kept@.lemma_multiset_has_no_duplicates();
        sorted@.lemma_multiset_has_no_duplicates_conv();
        assert forall|p: CellPos| #[trigger] sorted@.contains(p) <==> kept@.contains(p) by {
            assert(sorted@.to_multiset().count(p) == kept@.to_multiset().count(p));
        }
    }
    sorted
}

/// The cells a group gives up (held before and not after) and the cells it takes
/// (held after and not before), each once and in row order.
pub fn group_exchange(before: &Vec<Vec<CellPos>>, after: &Vec<Vec<CellPos>>) -> (r: (Vec<CellPos>, Vec<CellPos>))
    ensures
        r.0@.no_duplicates(),
        row_sorted(r.0@),
        forall|p: CellPos| #[trigger] r.0@.contains(p) <==> cells_of(before@).contains(p) && !cells_of(after@).contains(p),
        r.1@.no_duplicates(),
        row_sorted(r.1@),
        forall|p: CellPos| #[trigger] r.1@.contains(p) <==> cells_of(after@).contains(p) && !cells_of(before@).contains(p),
{
    let held = flatten_cells(before);
    let taken = flatten_cells(after);
    let held_keys = key_set(&held);
    let taken_keys = key_set(&taken);
    let vacated = rows_outside(&held, &taken_keys, Ghost(taken@));
    let claimed = rows_outside(&taken, &held_keys, Ghost(held@));
    (vacated, claimed)
}

/// When a group's rasters before and after hold no cell twice and hold as many cells
/// after as before, the group gives up as many cells as it takes.
pub proof fn lemma_exchange_balanced(before: Seq<CellPos>, after: Seq<CellPos>, vacated: Seq<CellPos>, claimed: Seq<CellPos>)
    requires
        before.no_duplicates(),
        after.no_duplicates(),
        before.len() == after.len(),
        vacated.no_duplicates(),
        claimed.no_duplicates(),
        forall|p: CellPos| #[trigger] vacated.contains(p) <==> before.contains(p) && !after.contains(p),
        forall|p: CellPos| #[trigger] claimed.contains(p) <==> after.contains(p) && !before.contains(p),
    ensures
        vacated.len() == claimed.len(),
{
    broadcast use vstd::seq_lib::seq_to_set_is_finite;
    let a = before.to_set();
    let b = after.to_set();
    before.unique_seq_to_set();
    after.unique_seq_to_set();
    vacated.unique_seq_to_set();
    claimed.unique_seq_to_set();
    let both = a.intersect(b);
    assert(vacated.to_set() =~= a.difference(b));
    assert(claimed.to_set() =~= b.difference(a));
    assert(a =~= a.difference(b) + both);
    assert(b =~= b.difference(a) + both);
    assert(a.difference(b).disjoint(both));
    assert(b.difference(a).disjoint(both));
    vstd::set_lib::lemma_set_disjoint_lens(a.difference(b), both);
    vstd::set_lib::lemma_set_disjoint_lens(b.difference(a), both);
}

} // verus!
