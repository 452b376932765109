//! Reconciling a body with the world: which of its cells it keeps, which it lets go,
//! and how the cells it keeps break into parts that still hold together.
use vstd::prelude::*;
use rustc_hash::FxHashMap;
use crate::geometry::MaterialId;
use crate::state::Slot;
use crate::fx::{pair_key, lemma_pair_key_injective, key_of_pair, fx_map_insert, fx_map_get};
use crate::islands::{adjacent, bond, unit, unit_step};

verus! {

/// A label not yet given.
pub const UNCLAIMED: u32 = 0xffff_ffff;

/// The key of a frame position.
pub open spec fn spot_key(local: (i32, i32)) -> u64 {
    pair_key(local.0, local.1)
}

/// Member `i` is the one its frame position shows: no later member sits there.
pub open spec fn shown(cells: Seq<((i32, i32), MaterialId)>, i: int) -> bool {
    &&& 0 <= i < cells.len()
    &&& forall|q: int| i < q < cells.len() ==> spot_key((#[trigger] cells[q]).0) != spot_key(cells[i].0)
}

/// A link that holds a part together: from member `i` to the member shown beside it,
/// when `i`'s material bonds to that member's.
pub open spec fn link(cells: Seq<((i32, i32), MaterialId)>, bonds: Seq<Vec<bool>>, i: int, j: int) -> bool {
    &&& 0 <= i < cells.len()
    &&& shown(cells, j)
    &&& adjacent(cells[i].0, cells[j].0)
    &&& bond(bonds, cells[i].1, cells[j].1)
}

/// `p` walks along links through members that all carry label `k`.
pub open spec fn part_path(cells: Seq<((i32, i32), MaterialId)>, bonds: Seq<Vec<bool>>, labels: Seq<u32>, k: int, p: Seq<int>) -> bool {
    &&& p.len() >= 1
    &&& forall|q: int| 0 <= q < p.len() ==> 0 <= #[trigger] p[q] < cells.len() && labels[p[q]] == k
    &&& forall|a: int, b: int| 0 <= a && b == a + 1 && b < p.len() ==> link(cells, bonds, #[trigger] p[a], #[trigger] p[b])
}

/// Member `i` is reached from member `s` through members labelled `k`.
pub open spec fn part_reaches(cells: Seq<((i32, i32), MaterialId)>, bonds: Seq<Vec<bool>>, labels: Seq<u32>, k: int, s: int, i: int) -> bool {
    exists|p: Seq<int>| #[trigger] part_path(cells, bonds, labels, k, p) && p[0] == s && p.last() == i
}

/// `s` starts part `k`: it carries label `k` and every member before it belongs to an
/// earlier part.
pub open spec fn starts_part(labels: Seq<u32>, k: int, s: int) -> bool {
    &&& 0 <= s < labels.len()
    &&& labels[s] == k
    &&& forall|i: int| 0 <= i < s ==> (#[trigger] labels[i]) < k
}

/// Part `k` is everything reached from its start.
pub open spec fn part_ok(cells: Seq<((i32, i32), MaterialId)>, bonds: Seq<Vec<bool>>, labels: Seq<u32>, k: int) -> bool {
    exists|s: int| #[trigger] starts_part(labels, k, s)
        && forall|i: int| 0 <= i < cells.len() && #[trigger] labels[i] == k ==> part_reaches(cells, bonds, labels, k, s, i)
}

/// `labels` splits the members into `count` parts: each part grows along links from
/// the first member not yet in a part; no link leads from a part into a later one.
pub open spec fn parting(cells: Seq<((i32, i32), MaterialId)>, bonds: Seq<Vec<bool>>, labels: Seq<u32>, count: int) -> bool {
    &&& labels.len() == cells.len()
    &&& 0 <= count <= cells.len()
    &&& forall|i: int| 0 <= i < cells.len() ==> (#[trigger] labels[i]) < count
    &&& forall|i: int, j: int| #[trigger] link(cells, bonds, i, j) ==> labels[j] <= labels[i]
    &&& forall|k: int| 0 <= k < count ==> #[trigger] part_ok(cells, bonds, labels, k)
}

/// The bond table is square and names every member's material; every member's frame
/// position has neighbours inside `i32`.
pub open spec fn cells_fit(cells: Seq<((i32, i32), MaterialId)>, bonds: Seq<Vec<bool>>) -> bool {
    &&& forall|a: int| 0 <= a < bonds.len() ==> (#[trigger] bonds[a])@.len() == bonds.len()
    &&& forall|i: int| 0 <= i < cells.len() ==> ((#[trigger] cells[i]).1.0 as int) < bonds.len()
    &&& forall|i: int| 0 <= i < cells.len() ==> i32::MIN < (#[trigger] cells[i]).0.0 < i32::MAX && i32::MIN < cells[i].0.1 < i32::MAX
}

/// `index` maps each frame position a member takes to the member shown there.
pub open spec fn shows(cells: Seq<((i32, i32), MaterialId)>, index: Map<u64, usize>) -> bool {
    &&& forall|i: int| 0 <= i < cells.len() ==> #[trigger] index.contains_key(spot_key(cells[i].0))
    &&& forall|key: u64| #[trigger] index.contains_key(key) ==> {
        &&& (index[key] as int) < cells.len()
        &&& spot_key(cells[index[key] as int].0) == key
        &&& shown(cells, index[key] as int)
    }
}

proof fn lemma_shown_index(cells: Seq<((i32, i32), MaterialId)>, index: Map<u64, usize>, i: int)
    requires
        shows(cells, index),
        shown(cells, i),
    ensures
        index[spot_key(cells[i].0)] == i,
{
    let key = spot_key(cells[i].0);
    assert(index.contains_key(key));
    let j = index[key] as int;
    if j != i {
        if i < j {
            assert(spot_key(cells[j].0) == key);
        } else {
            assert(shown(cells, j));
            assert(spot_key(cells[i].0) == spot_key(cells[j].0));
        }
    }
}

fn index_cells(cells: &Vec<((i32, i32), MaterialId)>) -> (index: FxHashMap<u64, usize>)
    ensures
        shows(cells@, index@),
{
    let mut index: FxHashMap<u64, usize> = FxHashMap::default();
    let mut i: usize = 0;
    while i < cells.len()
        invariant
            0 <= i <= cells@.len(),
            forall|j: int| 0 <= j < i ==> #[trigger] index@.contains_key(spot_key(cells@[j].0)),
            forall|key: u64| #[trigger] index@.contains_key(key) ==> {
                &&& (index@[key] as int) < i
                &&& spot_key(cells@[index@[key] as int].0) == key
                &&& forall|q: int| index@[key] < q < i ==> spot_key((#[trigger] cells@[q]).0) != key
            },
        decreases cells@.len() - i,
    {
        let local = cells[i].0;
        fx_map_insert(&mut index, key_of_pair(local.0, local.1), i);
        i = i + 1;
    }
    index
}

/// How many entries of `labels` are still unclaimed.
pub open spec fn count_unclaimed(labels: Seq<u32>) -> nat
    decreases labels.len(),
{
    if labels.len() == 0 {
        0
    } else {
        count_unclaimed(labels.drop_last()) + if labels.last() == UNCLAIMED { 1nat } else { 0nat }
    }
}

proof fn lemma_unclaimed_take(labels: Seq<u32>, j: int, v: u32)
    requires
        0 <= j < labels.len(),
        labels[j] == UNCLAIMED,
        v != UNCLAIMED,
    ensures
        count_unclaimed(labels.update(j, v)) + 1 == count_unclaimed(labels),
    decreases labels.len(),
{
    let u = labels.update(j, v);
    if j == labels.len() - 1 {
        assert(u.drop_last() =~= labels.drop_last());
    } else {
        assert(u.drop_last() =~= labels.drop_last().update(j, v));
        lemma_unclaimed_take(labels.drop_last(), j, v);
    }
}

proof fn lemma_part_path_keeps(cells: Seq<((i32, i32), MaterialId)>, bonds: Seq<Vec<bool>>, l: Seq<u32>, l2: Seq<u32>, k: int, p: Seq<int>)
    requires
        part_path(cells, bonds, l, k, p),
        k != UNCLAIMED as int,
        l.len() == cells.len(),
        l2.len() == l.len(),
        forall|x: int| 0 <= x < l.len() && #[trigger] l[x] != UNCLAIMED ==> l2[x] == l[x],
    ensures
        part_path(cells, bonds, l2, k, p),
{
    assert forall|q: int| 0 <= q < p.len() implies 0 <= #[trigger] p[q] < cells.len() && l2[p[q]] == k by {
        assert(l[p[q]] != UNCLAIMED);
    }
}

/// Every link from a labelled member leads to a member labelled no later.
pub open spec fn links_closed_below(cells: Seq<((i32, i32), MaterialId)>, bonds: Seq<Vec<bool>>, l: Seq<u32>, k: int) -> bool {
    forall|i: int, j: int| #[trigger] link(cells, bonds, i, j) && l[i] != UNCLAIMED && l[i] < k
        ==> l[j] != UNCLAIMED && l[j] <= l[i]
}

/// Each labelled member has a path from its part's start.
pub open spec fn part_paths_ok(cells: Seq<((i32, i32), MaterialId)>, bonds: Seq<Vec<bool>>, l: Seq<u32>, starts: Seq<int>, paths: Seq<Seq<int>>) -> bool {
    forall|i: int| 0 <= i < l.len() && #[trigger] l[i] != UNCLAIMED ==> {
        &&& (l[i] as int) < starts.len()
        &&& part_path(cells, bonds, l, l[i] as int, paths[i])
        &&& paths[i][0] == starts[l[i] as int]
        &&& paths[i].last() == i
    }
}

/// Each part so far has its start.
pub open spec fn part_starts_ok(l: Seq<u32>, starts: Seq<int>) -> bool {
    forall|k: int| 0 <= k < starts.len() ==> #[trigger] starts_part(l, k, starts[k])
}

/// Splits the kept cells of a body into parts: in member order, each member not yet
/// in a part starts one, which grows along links.
pub fn part_survivors(cells: &Vec<((i32, i32), MaterialId)>, bonds: &Vec<Vec<bool>>) -> (r: (Vec<u32>, u32))
    requires
        cells_fit(cells@, bonds@),
        cells@.len() < UNCLAIMED,
    ensures
        parting(cells@, bonds@, r.0@, r.1 as int),
{
    let ghost m = cells@;
    let ghost t = bonds@;
    let n = cells.len();
    let index = index_cells(cells);
    let mut labels: Vec<u32> = Vec::new();
    while labels.len() < n
        invariant
            labels@.len() <= n,
            forall|i: int| 0 <= i < labels@.len() ==> #[trigger] labels@[i] == UNCLAIMED,
        decreases n - labels@.len(),
    {
        labels.push(UNCLAIMED);
    }
    let mut parts: u32 = 0;
    let ghost mut starts: Seq<int> = Seq::empty();
    let ghost mut paths: Seq<Seq<int>> = Seq::new(n as nat, |i: int| seq![i]);
    let mut start: usize = 0;
    while start < n
        invariant
            m == cells@,
            t == bonds@,
            n == m.len(),
            n < UNCLAIMED,
            shows(m, index@),
            cells_fit(m, t),
            labels@.len() == n,
            paths.len() == n,
            starts.len() == parts,
            0 <= start <= n,
            parts <= start,
            forall|i: int| 0 <= i < start ==> #[trigger] labels@[i] != UNCLAIMED,
            forall|i: int| 0 <= i < n && #[trigger] labels@[i] != UNCLAIMED ==> labels@[i] < parts,
            forall|k: int| 0 <= k < parts ==> starts[k] < start,
            links_closed_below(m, t, labels@, parts as int),
            part_starts_ok(labels@, starts),
            part_paths_ok(m, t, labels@, starts, paths),
        decreases n - start,
    {
        if labels[start] != UNCLAIMED {
            start = start + 1;
            continue;
        }
        let k = parts;
        let s = start;
        let ghost before = labels@;
        labels.set(s, k);
        proof {
            starts = starts.push(s as int);
            paths = paths.update(s as int, seq![s as int]);
            assert forall|kk: int| 0 <= kk < starts.len() implies #[trigger] starts_part(labels@, kk, starts[kk]) by {
                if kk < k {
                    assert(starts_part(before, kk, starts[kk]));
                    assert forall|i: int| 0 <= i < starts[kk] implies (#[trigger] labels@[i]) < kk by {
                        assert(before[i] < kk);
                    }
                }
            }
            assert forall|i: int| 0 <= i < n && #[trigger] labels@[i] != UNCLAIMED implies {
                &&& (labels@[i] as int) < starts.len()
                &&& part_path(m, t, labels@, labels@[i] as int, paths[i])
                &&& paths[i][0] == starts[labels@[i] as int]
                &&& paths[i].last() == i
            } by {
                if i != s {
                    assert(before[i] != UNCLAIMED);
                    lemma_part_path_keeps(m, t, before, labels@, before[i] as int, paths[i]);
                }
            }
        }
        let mut queue: Vec<usize> = Vec::new();
        queue.push(s);
        let mut head: usize = 0;
        proof {
            assert forall|i: int| 0 <= i < n && #[trigger] labels@[i] == k implies queue@.contains(i as usize) by {
                if i != s {
                    assert(before[i] == k);
                } else {
                    assert(queue@[0] == s);
                }
            }
            lemma_unclaimed_take(before, s as int, k);
        }
        let ghost free0 = count_unclaimed(labels@) + 1;
        while head < queue.len()
            invariant
                m == cells@,
                t == bonds@,
                n == m.len(),
                n < UNCLAIMED,
                shows(m, index@),
                cells_fit(m, t),
                labels@.len() == n,
                paths.len() == n,
                k == parts,
                parts <= start < n,
                s == start,
                starts.len() == parts + 1,
                count_unclaimed(labels@) + queue@.len() == free0,
                0 <= head <= queue@.len(),
                queue@.len() >= 1,
                forall|i: int| 0 <= i <= start ==> #[trigger] labels@[i] != UNCLAIMED,
                forall|i: int| 0 <= i < n && #[trigger] labels@[i] != UNCLAIMED ==> labels@[i] <= k,
                forall|kk: int| 0 <= kk < parts ==> starts[kk] < start,
                starts[parts as int] == start,
                forall|q: int| 0 <= q < queue@.len() ==> (#[trigger] queue@[q] as int) < n && labels@[queue@[q] as int] == k,
                forall|i: int| 0 <= i < n && #[trigger] labels@[i] == k ==> queue@.contains(i as usize),
                forall|q: int, j: int| 0 <= q < head && #[trigger] link(m, t, queue@[q] as int, j) ==> labels@[j] != UNCLAIMED,
                links_closed_below(m, t, labels@, k as int),
                part_starts_ok(labels@, starts),
                part_paths_ok(m, t, labels@, starts, paths),
            decreases count_unclaimed(labels@) + queue@.len() - head,
        {
            let c = queue[head];
            let here = cells[c].0;
            let mc = cells[c].1;
            let mut d: usize = 0;
            while d < 4
                invariant
                    m == cells@,
                    t == bonds@,
                    n == m.len(),
                    n < UNCLAIMED,
                    shows(m, index@),
                    cells_fit(m, t),
                    labels@.len() == n,
                    paths.len() == n,
                    k == parts,
                    parts <= start < n,
                    s == start,
                    starts.len() == parts + 1,
                    count_unclaimed(labels@) + queue@.len() == free0,
                    0 <= head < queue@.len(),
                    c == queue@[head as int],
                    here == m[c as int].0,
                    mc == m[c as int].1,
                    0 <= d <= 4,
                    forall|i: int| 0 <= i <= start ==> #[trigger] labels@[i] != UNCLAIMED,
                    forall|i: int| 0 <= i < n && #[trigger] labels@[i] != UNCLAIMED ==> labels@[i] <= k,
                    forall|kk: int| 0 <= kk < parts ==> starts[kk] < start,
                    starts[parts as int] == start,
                    forall|q: int| 0 <= q < queue@.len() ==> (#[trigger] queue@[q] as int) < n && labels@[queue@[q] as int] == k,
                    forall|i: int| 0 <= i < n && #[trigger] labels@[i] == k ==> queue@.contains(i as usize),
                    forall|q: int, j: int| 0 <= q < head && #[trigger] link(m, t, queue@[q] as int, j) ==> labels@[j] != UNCLAIMED,
                    forall|dd: int, j: int| #![trigger link(m, t, c as int, j), unit(dd)] 0 <= dd < d && link(m, t, c as int, j)
                        && m[j].0.0 == here.0 + unit(dd).0 && m[j].0.1 == here.1 + unit(dd).1
                        ==> labels@[j] != UNCLAIMED,
                    links_closed_below(m, t, labels@, k as int),
                    part_starts_ok(labels@, starts),
                    part_paths_ok(m, t, labels@, starts, paths),
                decreases 4 - d,
            {
                let step = unit_step(d);
                let nx = here.0 + step.0;
                let ny = here.1 + step.1;
                let found = fx_map_get(&index, key_of_pair(nx, ny));
                proof {
                    if found is None {
                        assert forall|j: int| #[trigger] link(m, t, c as int, j)
                            && m[j].0.0 == nx && m[j].0.1 == ny implies false by {
                            assert(index@.contains_key(spot_key(m[j].0)));
                        }
                    }
                }
                if let Some(j) = found {
                    proof {
                        lemma_pair_key_injective(m[j as int].0.0, m[j as int].0.1, nx, ny);
                        assert forall|j2: int| #[trigger] link(m, t, c as int, j2)
                            && m[j2].0.0 == nx && m[j2].0.1 == ny implies j2 == j by {
                            lemma_shown_index(m, index@, j2);
                        }
                    }
                    let mj = cells[j].1;
                    if labels[j] == UNCLAIMED && bonds[mc.0 as usize][mj.0 as usize] {
                        let ghost before = labels@;
                        proof {
                            lemma_unclaimed_take(labels@, j as int, k);
                        }
                        labels.set(j, k);
                        let ghost qb = queue@;
                        queue.push(j);
                        proof {
                            let pc = paths[c as int];
                            assert(before[c as int] == k);
                            assert(part_path(m, t, before, k as int, pc));
                            lemma_part_path_keeps(m, t, before, labels@, k as int, pc);
                            let pj = pc.push(j as int);
                            assert(adjacent(m[c as int].0, m[j as int].0));
                            assert(link(m, t, c as int, j as int));
                            assert(part_path(m, t, labels@, k as int, pj)) by {
                                assert forall|a: int, b: int| 0 <= a && b == a + 1 && b < pj.len()
                                    implies link(m, t, #[trigger] pj[a], #[trigger] pj[b]) by {
                                    if b < pc.len() {
                                        assert(pj[a] == pc[a] && pj[b] == pc[b]);
                                    }
                                }
                            }
                            paths = paths.update(j as int, pj);
                            assert forall|kk: int| 0 <= kk < starts.len() implies #[trigger] starts_part(labels@, kk, starts[kk]) by {
                                assert(starts_part(before, kk, starts[kk]));
                                assert forall|i: int| 0 <= i < starts[kk] implies (#[trigger] labels@[i]) < kk by {
                                    assert(before[i] < kk);
                                }
                            }
                            assert forall|i: int| 0 <= i < n && #[trigger] labels@[i] != UNCLAIMED implies {
                                &&& (labels@[i] as int) < starts.len()
                                &&& part_path(m, t, labels@, labels@[i] as int, paths[i])
                                &&& paths[i][0] == starts[labels@[i] as int]
                                &&& paths[i].last() == i
                            } by {
                                if i != j {
                                    assert(before[i] != UNCLAIMED);
                                    lemma_part_path_keeps(m, t, before, labels@, before[i] as int, paths[i]);
                                }
                            }
                            assert forall|i: int| 0 <= i < n && #[trigger] labels@[i] == k implies queue@.contains(i as usize) by {
                                if i != j {
                                    assert(before[i] == k);
                                    assert(qb.contains(i as usize));
                                    let q = choose|q: int| 0 <= q < qb.len() && qb[q] == i as usize;
                                    assert(queue@[q] == qb[q]);
                                } else {
                                    assert(queue@[queue@.len() - 1] == j);
                                }
                            }
                        }
                    }
                }
                d = d + 1;
            }
            proof {
                assert forall|q: int, j: int| 0 <= q < head + 1 && #[trigger] link(m, t, queue@[q] as int, j)
                    implies labels@[j] != UNCLAIMED by {
                    if q == head {
                        assert(adjacent(m[c as int].0, m[j].0));
                        if m[j].0.0 == here.0 + 1 && m[j].0.1 == here.1 {
                            assert(unit(0) == (1int, 0int));
                        } else if m[j].0.0 == here.0 - 1 && m[j].0.1 == here.1 {
                            assert(unit(1) == (-1int, 0int));
                        } else if m[j].0.0 == here.0 && m[j].0.1 == here.1 + 1 {
                            assert(unit(2) == (0int, 1int));
                        } else {
                            assert(unit(3) == (0int, -1int));
                        }
                    }
                }
            }
            head = head + 1;
        }
        proof {
            assert forall|i: int, j: int| #[trigger] link(m, t, i, j) && labels@[i] != UNCLAIMED && labels@[i] < k + 1
                implies labels@[j] != UNCLAIMED && labels@[j] <= labels@[i] by {
                if labels@[i] == k {
                    assert(queue@.contains(i as usize));
                    let q = choose|q: int| 0 <= q < queue@.len() && queue@[q] == i as usize;
                    assert(link(m, t, queue@[q] as int, j));
                }
            }
        }
        parts = parts + 1;
        start = start + 1;
    }
    proof {
        assert forall|kk: int| 0 <= kk < parts implies #[trigger] part_ok(m, t, labels@, kk) by {
            let s = starts[kk];
            assert(starts_part(labels@, kk, s));
            assert forall|i: int| 0 <= i < m.len() && #[trigger] labels@[i] == kk implies part_reaches(m, t, labels@, kk, s, i) by {
                assert(part_path(m, t, labels@, kk, paths[i]));
            }
        }
        assert forall|i: int| 0 <= i < m.len() implies (#[trigger] labels@[i]) < parts by {
            assert(labels@[i] != UNCLAIMED);
        }
        assert forall|i: int, j: int| #[trigger] link(m, t, i, j) implies labels@[j] <= labels@[i] by {
            assert(labels@[i] != UNCLAIMED);
        }
    }
    (labels, parts)
}

proof fn lemma_part_path_follows(
    cells: Seq<((i32, i32), MaterialId)>,
    bonds: Seq<Vec<bool>>,
    l1: Seq<u32>,
    c1: int,
    l2: Seq<u32>,
    c2: int,
    j: int,
    p: Seq<int>,
    q: int,
)
    requires
        parting(cells, bonds, l1, c1),
        parting(cells, bonds, l2, c2),
        part_path(cells, bonds, l1, j, p),
        0 <= q < p.len(),
        l2[p[0]] == j,
        forall|i: int| 0 <= i < cells.len() ==> ((#[trigger] l1[i] < j) == (l2[i] < j)),
    ensures
        l2[p[q]] == j,
    decreases q,
{
    if q > 0 {
        lemma_part_path_follows(cells, bonds, l1, c1, l2, c2, j, p, q - 1);
        assert(link(cells, bonds, p[q - 1], p[q]));
        assert(l1[p[q]] == j);
    }
}

proof fn lemma_part_levels_agree(
    cells: Seq<((i32, i32), MaterialId)>,
    bonds: Seq<Vec<bool>>,
    l1: Seq<u32>,
    c1: int,
    l2: Seq<u32>,
    c2: int,
    k: int,
)
    requires
        parting(cells, bonds, l1, c1),
        parting(cells, bonds, l2, c2),
        k >= 0,
    ensures
        forall|i: int| 0 <= i < cells.len() ==> ((#[trigger] l1[i] < k) == (l2[i] < k)) && (l1[i] < k ==> l1[i] == l2[i]),
    decreases k,
{
    if k > 0 {
        let j = k - 1;
        lemma_part_levels_agree(cells, bonds, l1, c1, l2, c2, j);
        if j < c1 {
            assert(part_ok(cells, bonds, l1, j));
            let s1 = choose|s: int| #[trigger] starts_part(l1, j, s)
                && forall|i: int| 0 <= i < cells.len() && #[trigger] l1[i] == j ==> part_reaches(cells, bonds, l1, j, s, i);
            if j >= c2 {
                assert(l2[s1] < c2);
            }
        }
        if j < c2 {
            assert(part_ok(cells, bonds, l2, j));
            let s2 = choose|s: int| #[trigger] starts_part(l2, j, s)
                && forall|i: int| 0 <= i < cells.len() && #[trigger] l2[i] == j ==> part_reaches(cells, bonds, l2, j, s, i);
            if j >= c1 {
                assert(l1[s2] < c1);
            }
        }
        if j < c1 && j < c2 {
            let s1 = choose|s: int| #[trigger] starts_part(l1, j, s)
                && forall|i: int| 0 <= i < cells.len() && #[trigger] l1[i] == j ==> part_reaches(cells, bonds, l1, j, s, i);
            let s2 = choose|s: int| #[trigger] starts_part(l2, j, s)
                && forall|i: int| 0 <= i < cells.len() && #[trigger] l2[i] == j ==> part_reaches(cells, bonds, l2, j, s, i);
            assert(s1 == s2) by {
                if s1 < s2 {
                    assert(l2[s1] < j);
                } else if s2 < s1 {
                    assert(l1[s2] < j);
                }
            }
            assert forall|i: int| 0 <= i < cells.len() && l1[i] == j implies #[trigger] l2[i] == j by {
                assert(part_reaches(cells, bonds, l1, j, s1, i));
                let p = choose|p: Seq<int>| #[trigger] part_path(cells, bonds, l1, j, p) && p[0] == s1 && p.last() == i;
                lemma_part_path_follows(cells, bonds, l1, c1, l2, c2, j, p, p.len() - 1);
            }
            assert forall|i: int| 0 <= i < cells.len() && l2[i] == j implies #[trigger] l1[i] == j by {
                assert(part_reaches(cells, bonds, l2, j, s2, i));
                let p = choose|p: Seq<int>| #[trigger] part_path(cells, bonds, l2, j, p) && p[0] == s2 && p.last() == i;
                lemma_part_path_follows(cells, bonds, l2, c2, l1, c1, j, p, p.len() - 1);
            }
        }
    }
}

/// The parts are determined by the kept cells and the bond table alone: two partings
/// of the same cells are the same parting.
pub proof fn lemma_parting_unique(
    cells: Seq<((i32, i32), MaterialId)>,
    bonds: Seq<Vec<bool>>,
    l1: Seq<u32>,
    c1: int,
    l2: Seq<u32>,
    c2: int,
)
    requires
        parting(cells, bonds, l1, c1),
        parting(cells, bonds, l2, c2),
    ensures
        c1 == c2,
        l1 == l2,
{
    let c = if c1 < c2 { c1 } else { c2 };
    lemma_part_levels_agree(cells, bonds, l1, c1, l2, c2, c);
    if c1 < c2 {
        assert(part_ok(cells, bonds, l2, c1));
        let s = choose|s: int| #[trigger] starts_part(l2, c1, s)
            && forall|i: int| 0 <= i < cells.len() && #[trigger] l2[i] == c1 ==> part_reaches(cells, bonds, l2, c1, s, i);
        assert(l1[s] < c1);
    }
    if c2 < c1 {
        assert(part_ok(cells, bonds, l1, c2));
        let s = choose|s: int| #[trigger] starts_part(l1, c2, s)
            && forall|i: int| 0 <= i < cells.len() && #[trigger] l1[i] == c2 ==> part_reaches(cells, bonds, l1, c2, s, i);
        assert(l2[s] < c2);
    }
    assert forall|i: int| 0 <= i < l1.len() implies #[trigger] l1[i] == l2[i] by {
        assert(l1[i] < c1);
    }
    assert(l1 =~= l2);
}

/// What the world shows at one cell of a body's raster.
#[derive(Debug, Clone, Copy, PartialEq, Eq)]
pub enum Sight {
    /// The cell's chunk is not loaded.
    Unloaded,
    /// The cell no longer belongs to the body.
    Lost,
    /// The cell still belongs to the body and holds the given material.
    Kept { material: MaterialId },
}

/// What reconciling a body with the world comes to.
#[derive(Debug)]
pub enum Reconciled {
    /// Nothing changed.
    Intact,
    /// Part of the body is not loaded; the slots listed were let go before that showed.
    Parked { released: Vec<usize> },
    /// Nothing of the body is left; the slots listed were let go.
    Gone { released: Vec<usize> },
    /// The body changed: the slots listed in `released` were let go; the slots in
    /// `kept` stay, as `cells` (frame position and the material the world now shows),
    /// and break into `parts` parts, slot `kept[i]` into part `part_of[i]`.
    Parts { released: Vec<usize>, kept: Vec<usize>, cells: Vec<((i32, i32), MaterialId)>, part_of: Vec<u32>, parts: u32 },
}

/// The slots before `n` whose cell the body still owns but whose material cannot bond.
pub open spec fn released_upto(sights: Seq<Sight>, bondable: Seq<bool>, n: int) -> Seq<usize>
    decreases n,
{
    if n <= 0 {
        Seq::empty()
    } else if sights[n - 1] matches Sight::Kept { material } && !bondable[material.0 as int] {
        released_upto(sights, bondable, n - 1).push((n - 1) as usize)
    } else {
        released_upto(sights, bondable, n - 1)
    }
}

/// The slots before `n` whose cell the body still owns, of a material that bonds.
pub open spec fn kept_upto(sights: Seq<Sight>, bondable: Seq<bool>, n: int) -> Seq<usize>
    decreases n,
{
    if n <= 0 {
        Seq::empty()
    } else if sights[n - 1] matches Sight::Kept { material } && bondable[material.0 as int] {
        kept_upto(sights, bondable, n - 1).push((n - 1) as usize)
    } else {
        kept_upto(sights, bondable, n - 1)
    }
}

/// The kept slots before `n`, as frame position and the material the world shows.
pub open spec fn kept_cells(slots: Seq<Slot>, sights: Seq<Sight>, bondable: Seq<bool>, n: int) -> Seq<((i32, i32), MaterialId)>
    decreases n,
{
    if n <= 0 {
        Seq::empty()
    } else {
        match sights[n - 1] {
            Sight::Kept { material } => if bondable[material.0 as int] {
                kept_cells(slots, sights, bondable, n - 1).push((slots[n - 1].local, material))
            } else {
                kept_cells(slots, sights, bondable, n - 1)
            },
            _ => kept_cells(slots, sights, bondable, n - 1),
        }
    }
}

/// Whether the world shows the body changed: a cell lost, a cell let go, or a cell
/// holding another material than its slot.
pub open spec fn body_changed(slots: Seq<Slot>, sights: Seq<Sight>, bondable: Seq<bool>) -> bool {
    exists|j: int| 0 <= j < sights.len() && match #[trigger] sights[j] {
        Sight::Unloaded => false,
        Sight::Lost => true,
        Sight::Kept { material } => !bondable[material.0 as int] || material != slots[j].material,
    }
}

/// `u` is the first slot whose cell is not loaded.
pub open spec fn first_unloaded(sights: Seq<Sight>, u: int) -> bool {
    &&& 0 <= u < sights.len()
    &&& sights[u] is Unloaded
    &&& forall|j: int| 0 <= j < u ==> !(#[trigger] sights[j] is Unloaded)
}

/// Every shown material has an entry in both tables, the bond table is square, and
/// every slot's frame position has neighbours inside `i32`.
pub open spec fn sights_fit(slots: Seq<Slot>, sights: Seq<Sight>, bondable: Seq<bool>, bonds: Seq<Vec<bool>>) -> bool {
    &&& sights.len() == slots.len()
    &&& slots.len() < UNCLAIMED
    &&& forall|a: int| 0 <= a < bonds.len() ==> (#[trigger] bonds[a])@.len() == bonds.len()
    &&& forall|j: int| 0 <= j < sights.len() ==> (#[trigger] sights[j] matches Sight::Kept { material }
        ==> (material.0 as int) < bondable.len() && (material.0 as int) < bonds.len())
    &&& forall|j: int| 0 <= j < slots.len() ==> i32::MIN < (#[trigger] slots[j]).local.0 < i32::MAX && i32::MIN < slots[j].local.1 < i32::MAX
}

/// Reconciles a body's slots with what the world shows at its raster: parked when a
/// cell is not loaded, gone when nothing is kept, intact when nothing changed, and
/// otherwise the parts the kept cells break into.
pub fn reconcile_body(slots: &Vec<Slot>, sights: &Vec<Sight>, bondable: &Vec<bool>, bonds: &Vec<Vec<bool>>) -> (r: Reconciled)
    requires
        sights_fit(slots@, sights@, bondable@, bonds@),
    ensures
        r is Parked <==> exists|u: int| first_unloaded(sights@, u),
        r matches Reconciled::Parked { released } ==> exists|u: int| first_unloaded(sights@, u)
            && released@ == released_upto(sights@, bondable@, u),
        r is Gone <==> !(exists|u: int| first_unloaded(sights@, u)) && kept_upto(sights@, bondable@, sights@.len() as int).len() == 0,
        r matches Reconciled::Gone { released } ==> released@ == released_upto(sights@, bondable@, sights@.len() as int),
        r is Intact <==> !(exists|u: int| first_unloaded(sights@, u)) && kept_upto(sights@, bondable@, sights@.len() as int).len() > 0
            && !body_changed(slots@, sights@, bondable@),
        r matches Reconciled::Parts { released, kept, cells, part_of, parts } ==> {
            &&& released@ == released_upto(sights@, bondable@, sights@.len() as int)
            &&& kept@ == kept_upto(sights@, bondable@, sights@.len() as int)
            &&& cells@ == kept_cells(slots@, sights@, bondable@, sights@.len() as int)
            &&& parting(cells@, bonds@, part_of@, parts as int)
        },
{
    let n = sights.len();
    let mut released: Vec<usize> = Vec::new();
    let mut kept: Vec<usize> = Vec::new();
    let mut cells: Vec<((i32, i32), MaterialId)> = Vec::new();
    let mut changed = false;
    let mut i: usize = 0;
    while i < n
        invariant
            n == sights@.len(),
            sights_fit(slots@, sights@, bondable@, bonds@),
            0 <= i <= n,
            forall|j: int| 0 <= j < i ==> !(#[trigger] sights@[j] is Unloaded),
            released@ == released_upto(sights@, bondable@, i as int),
            kept@ == kept_upto(sights@, bondable@, i as int),
            cells@ == kept_cells(slots@, sights@, bondable@, i as int),
            kept@.len() == cells@.len(),
            kept@.len() <= i,
            forall|q: int| 0 <= q < cells@.len() ==> (#[trigger] cells@[q]).1.0 < bonds@.len()
                && i32::MIN < cells@[q].0.0 < i32::MAX && i32::MIN < cells@[q].0.1 < i32::MAX,
            changed == exists|j: int| 0 <= j < i && match #[trigger] sights@[j] {
                Sight::Unloaded => false,
                Sight::Lost => true,
                Sight::Kept { material } => !bondable@[material.0 as int] || material != slots@[j].material,
            },
        decreases n - i,
    {
        match sights[i] {
            Sight::Unloaded => {
                proof {
                    assert(first_unloaded(sights@, i as int));
                }
                return Reconciled::Parked { released };
            },
            Sight::Lost => {
                changed = true;
            },
            Sight::Kept { material } => {
                if !bondable[material.0 as usize] {
                    released.push(i);
                    changed = true;
                } else {
                    if material.0 != slots[i].material.0 {
                        changed = true;
                    }
                    kept.push(i);
                    cells.push((slots[i].local, material));
                }
            },
        }
        i = i + 1;
    }
    proof {
        assert forall|u: int| !first_unloaded(sights@, u) by {}
        assert(changed == body_changed(slots@, sights@, bondable@));
    }
    if kept.len() == 0 {
        return Reconciled::Gone { released };
    }
    if !changed {
        return Reconciled::Intact;
    }
    proof {
        assert(cells_fit(cells@, bonds@));
    }
    let (part_of, parts) = part_survivors(&cells, bonds);
    Reconciled::Parts { released, kept, cells, part_of, parts }
}

/// The positions, in order, among the first `n` entries of `part_of`, of the kept
/// slots that fall to part `k`.
pub open spec fn members_upto(part_of: Seq<u32>, k: u32, n: int) -> Seq<usize>
    decreases n,
{
    if n <= 0 {
        Seq::empty()
    } else if part_of[n - 1] == k {
        members_upto(part_of, k, n - 1).push((n - 1) as usize)
    } else {
        members_upto(part_of, k, n - 1)
    }
}

/// The id that part `k` of a body that broke apart goes by: the first part keeps
/// the body's id, and each later part takes the next freshly allocated id, in order.
pub open spec fn part_id(body_id: u32, fresh: Seq<u32>, k: int) -> u32 {
    if k == 0 { body_id } else { fresh[k - 1] }
}

/// Groups the kept slots of a body that broke into `parts` parts, slot `i` into part
/// `part_of[i]`: per part, in part order, its id (the body's own for the first part,
/// then the ids in `fresh`, as they were allocated) and the positions of its slots
/// among the kept ones, in order.
pub fn group_parts(part_of: &Vec<u32>, parts: u32, body_id: u32, fresh: &Vec<u32>) -> (r: Vec<(u32, Vec<usize>)>)
    requires
        fresh@.len() + 1 >= parts,
    ensures
        r@.len() == parts,
        forall|k: int| 0 <= k < parts ==> (#[trigger] r@[k]).0 == part_id(body_id, fresh@, k)
            && r@[k].1@ == members_upto(part_of@, k as u32, part_of@.len() as int),
{
    let n = part_of.len();
    let mut r: Vec<(u32, Vec<usize>)> = Vec::new();
    let mut k: u32 = 0;
    while k < parts
        invariant
            fresh@.len() + 1 >= parts,
            n == part_of@.len(),
            0 <= k <= parts,
            r@.len() == k,
            forall|q: int| 0 <= q < k ==> (#[trigger] r@[q]).0 == part_id(body_id, fresh@, q)
                && r@[q].1@ == members_upto(part_of@, q as u32, n as int),
        decreases parts - k,
    {
        let mut members: Vec<usize> = Vec::new();
        let mut j: usize = 0;
        while j < n
            invariant
                n == part_of@.len(),
                0 <= j <= n,
                members@ == members_upto(part_of@, k, j as int),
            decreases n - j,
        {
            if part_of[j] == k {
                members.push(j);
            }
            j = j + 1;
        }
        let id = if k == 0 { body_id } else { fresh[(k - 1) as usize] };
        let ghost before = r@;
        r.push((id, members));
        proof {
            assert forall|q: int| 0 <= q < k + 1 implies (#[trigger] r@[q]).0 == part_id(body_id, fresh@, q)
                && r@[q].1@ == members_upto(part_of@, q as u32, n as int) by {
                if q < k {
                    assert(r@[q] == before[q]);
                }
            }
        }
        k = k + 1;
    }
    r
}

} // verus!
