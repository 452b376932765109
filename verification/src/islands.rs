//! Rigid islands: splitting a damaged body into the pieces that still hold together,
//! choosing which piece keeps the body's identity, and measuring a piece.
use vstd::prelude::*;
use rustc_hash::FxHashMap;
use rustc_hash::FxHashSet;
use crate::geometry::{CellPos, MaterialId, Phase};
use crate::fx::{pair_key, lemma_pair_key_injective, key_of_pair, fx_map_insert, fx_map_get, fx_insert, fx_contains};
use crate::raster::{cell_key, key_of, lemma_cell_key_injective};

verus! {

/// A cell of a body: where it sits in the body's own frame, where it sits in the
/// world, and what it is made of.
#[derive(Debug, Clone, Copy, PartialEq, Eq)]
pub struct Member {
    pub local: (i32, i32),
    pub pos: CellPos,
    pub material: MaterialId,
}

/// The hash key of a member's place in the body frame.
pub open spec fn local_key(m: Member) -> u64 {
    pair_key(m.local.0, m.local.1)
}

/// The bond table is square and names every member's material.
pub open spec fn table_covers(members: Seq<Member>, bonds: Seq<Vec<bool>>) -> bool {
    &&& forall|a: int| 0 <= a < bonds.len() ==> (#[trigger] bonds[a])@.len() == bonds.len()
    &&& forall|i: int| 0 <= i < members.len() ==> ((#[trigger] members[i]).material.0 as int) < bonds.len()
}

/// Every member's frame position has a neighbour on each side inside `i32`.
pub open spec fn locals_inside(members: Seq<Member>) -> bool {
    forall|i: int| 0 <= i < members.len() ==> {
        &&& i32::MIN < (#[trigger] members[i]).local.0 < i32::MAX
        &&& i32::MIN < members[i].local.1 < i32::MAX
    }
}

/// Whether material `a` bonds to material `b`.
pub open spec fn bond(bonds: Seq<Vec<bool>>, a: MaterialId, b: MaterialId) -> bool {
    bonds[a.0 as int]@[b.0 as int]
}

/// A member counts when no later member takes its place in the body frame.
pub open spec fn live(members: Seq<Member>, i: int) -> bool {
    &&& 0 <= i < members.len()
    &&& forall|q: int| i < q < members.len() ==> local_key(#[trigger] members[q]) != local_key(members[i])
}

/// `b` is one of the four cells beside `a`.
pub open spec fn adjacent(a: (i32, i32), b: (i32, i32)) -> bool {
    ||| b.0 == a.0 + 1 && b.1 == a.1
    ||| b.0 == a.0 - 1 && b.1 == a.1
    ||| b.0 == a.0 && b.1 == a.1 + 1
    ||| b.0 == a.0 && b.1 == a.1 - 1
}

/// The walk from member `i` to member `j` that holds a piece together: both count,
/// they lie side by side, and `i`'s material bonds to `j`'s.
pub open spec fn edge(members: Seq<Member>, bonds: Seq<Vec<bool>>, i: int, j: int) -> bool {
    &&& live(members, i)
    &&& live(members, j)
    &&& adjacent(members[i].local, members[j].local)
    &&& bond(bonds, members[i].material, members[j].material)
}

/// Frame positions in row order: lower row first, then lower column.
pub open spec fn local_lt(a: (i32, i32), b: (i32, i32)) -> bool {
    a.1 < b.1 || (a.1 == b.1 && a.0 < b.0)
}

/// `p` walks along edges through members that all carry label `k`.
pub open spec fn is_path(members: Seq<Member>, bonds: Seq<Vec<bool>>, labels: Seq<usize>, k: int, p: Seq<int>) -> bool {
    &&& p.len() >= 1
    &&& forall|q: int| 0 <= q < p.len() ==> 0 <= #[trigger] p[q] < members.len() && labels[p[q]] == k
    &&& forall|a: int, b: int| 0 <= a && b == a + 1 && b < p.len() ==> edge(members, bonds, #[trigger] p[a], #[trigger] p[b])
}

/// Member `i` is reached from member `s` through members labelled `k`.
pub open spec fn reaches(members: Seq<Member>, bonds: Seq<Vec<bool>>, labels: Seq<usize>, k: int, s: int, i: int) -> bool {
    exists|p: Seq<int>| #[trigger] is_path(members, bonds, labels, k, p) && p[0] == s && p.last() == i
}

/// `s` starts piece `k`: it counts, carries label `k`, and no member that was still
/// free when piece `k` began comes before it in row order.
pub open spec fn starts_piece(members: Seq<Member>, labels: Seq<usize>, k: int, s: int) -> bool {
    &&& live(members, s)
    &&& labels[s] == k
    &&& forall|i: int| live(members, i) && labels[i] >= k ==> !local_lt(#[trigger] members[i].local, members[s].local)
}

/// Piece `k` is everything reached from its start.
pub open spec fn piece_ok(members: Seq<Member>, bonds: Seq<Vec<bool>>, labels: Seq<usize>, k: int) -> bool {
    exists|s: int| #[trigger] starts_piece(members, labels, k, s)
        && forall|i: int| 0 <= i < members.len() && #[trigger] labels[i] == k ==> reaches(members, bonds, labels, k, s, i)
}

/// `labels` splits the members into `count` pieces: each counting member gets the
/// piece that grows, along bonds, from the first free member in row order; no bond
/// leads from a piece into a later one; members that do not count get `usize::MAX`.
pub open spec fn labelling(members: Seq<Member>, bonds: Seq<Vec<bool>>, labels: Seq<usize>, count: int) -> bool {
    &&& labels.len() == members.len()
    &&& 0 <= count <= members.len()
    &&& forall|i: int| 0 <= i < members.len() ==> (live(members, i) ==> (#[trigger] labels[i]) < count)
        && (!live(members, i) ==> labels[i] == usize::MAX)
    &&& forall|i: int, j: int| #[trigger] edge(members, bonds, i, j) ==> labels[j] <= labels[i]
    &&& forall|k: int| 0 <= k < count ==> #[trigger] piece_ok(members, bonds, labels, k)
}

/// `index` maps each frame position that a member takes to the member that counts there.
pub open spec fn indexes(members: Seq<Member>, index: Map<u64, usize>) -> bool {
    &&& forall|i: int| 0 <= i < members.len() ==> #[trigger] index.contains_key(local_key(members[i]))
    &&& forall|key: u64| #[trigger] index.contains_key(key) ==> {
        &&& (index[key] as int) < members.len()
        &&& local_key(members[index[key] as int]) == key
        &&& live(members, index[key] as int)
    }
}

/// A member counts exactly when the index points at it.
proof fn lemma_live_index(members: Seq<Member>, index: Map<u64, usize>, i: int)
    requires
        indexes(members, index),
        0 <= i < members.len(),
    ensures
        live(members, i) <==> index[local_key(members[i])] == i,
{
    let key = local_key(members[i]);
    assert(index.contains_key(key));
    let j = index[key] as int;
    if live(members, i) && j != i {
        if i < j {
            assert(local_key(members[j]) == key);
        } else {
            assert(live(members, j));
            assert(local_key(members[i]) == local_key(members[j]));
        }
    }
}

/// Builds the index from frame position to the last member there.
fn index_members(members: &Vec<Member>) -> (index: FxHashMap<u64, usize>)
    ensures
        indexes(members@, index@),
{
    let mut index: FxHashMap<u64, usize> = FxHashMap::default();
    let mut i: usize = 0;
    while i < members.len()
        invariant
            0 <= i <= members@.len(),
            forall|j: int| 0 <= j < i ==> #[trigger] index@.contains_key(local_key(members@[j])),
            forall|key: u64| #[trigger] index@.contains_key(key) ==> {
                &&& (index@[key] as int) < i
                &&& local_key(members@[index@[key] as int]) == key
                &&& forall|q: int| index@[key] < q < i ==> local_key(#[trigger] members@[q]) != key
            },
        decreases members@.len() - i,
    {
        let m = members[i];
        let key = key_of_pair(m.local.0, m.local.1);
        fx_map_insert(&mut index, key, i);
        i = i + 1;
    }
    index
}

/// The first member in row order that counts and has no piece yet, if any.
fn least_free(members: &Vec<Member>, index: &FxHashMap<u64, usize>, labels: &Vec<usize>) -> (s: Option<usize>)
    requires
        indexes(members@, index@),
        labels@.len() == members@.len(),
    ensures
        s is None ==> forall|i: int| #[trigger] live(members@, i) ==> labels@[i] != usize::MAX,
        s matches Some(s) ==> {
            &&& live(members@, s as int)
            &&& labels@[s as int] == usize::MAX
            &&& forall|i: int| #[trigger] live(members@, i) && labels@[i] == usize::MAX
                ==> !local_lt(members@[i].local, members@[s as int].local)
        },
{
    let mut best: Option<usize> = None;
    let mut i: usize = 0;
    while i < members.len()
        invariant
            indexes(members@, index@),
            labels@.len() == members@.len(),
            0 <= i <= members@.len(),
            best is None ==> forall|q: int| 0 <= q < i && #[trigger] live(members@, q) ==> labels@[q] != usize::MAX,
            best matches Some(b) ==> {
                &&& (b as int) < i
                &&& live(members@, b as int)
                &&& labels@[b as int] == usize::MAX
                &&& forall|q: int| 0 <= q < i && #[trigger] live(members@, q) && labels@[q] == usize::MAX
                    ==> !local_lt(members@[q].local, members@[b as int].local)
            },
        decreases members@.len() - i,
    {
        let m = members[i];
        proof {
            lemma_live_index(members@, index@, i as int);
        }
        let here = fx_map_get(index, key_of_pair(m.local.0, m.local.1));
        let counts = match here {
            Some(j) => j == i,
            None => false,
        };
        if counts && labels[i] == usize::MAX {
            match best {
                None => {
                    best = Some(i);
                },
                Some(b) => {
                    let o = members[b].local;
                    if m.local.1 < o.1 || (m.local.1 == o.1 && m.local.0 < o.0) {
                        best = Some(i);
                    }
                },
            }
        }
        i = i + 1;
    }
    best
}

/// How many entries of `labels` are still free (`usize::MAX`).
pub open spec fn count_free(labels: Seq<usize>) -> nat
    decreases labels.len(),
{
    if labels.len() == 0 {
        0
    } else {
        count_free(labels.drop_last()) + if labels.last() == usize::MAX { 1nat } else { 0nat }
    }
}

proof fn lemma_count_free_bound(labels: Seq<usize>)
    ensures
        count_free(labels) <= labels.len(),
    decreases labels.len(),
{
    if labels.len() > 0 {
        lemma_count_free_bound(labels.drop_last());
    }
}

/// Giving a free entry a label frees one entry fewer.
proof fn lemma_count_free_take(labels: Seq<usize>, j: int, v: usize)
    requires
        0 <= j < labels.len(),
        labels[j] == usize::MAX,
        v != usize::MAX,
    ensures
        count_free(labels.update(j, v)) + 1 == count_free(labels),
    decreases labels.len(),
{
    let u = labels.update(j, v);
    if j == labels.len() - 1 {
        assert(u.drop_last() =~= labels.drop_last());
    } else {
        assert(u.drop_last() =~= labels.drop_last().update(j, v));
        lemma_count_free_take(labels.drop_last(), j, v);
    }
}

/// A path keeps when labels already given stay as they were.
proof fn lemma_path_keeps(members: Seq<Member>, bonds: Seq<Vec<bool>>, l: Seq<usize>, l2: Seq<usize>, k: int, p: Seq<int>)
    requires
        is_path(members, bonds, l, k, p),
        k != usize::MAX as int,
        l.len() == members.len(),
        l2.len() == l.len(),
        forall|x: int| 0 <= x < l.len() && #[trigger] l[x] != usize::MAX ==> l2[x] == l[x],
    ensures
        is_path(members, bonds, l2, k, p),
{
    assert forall|q: int| 0 <= q < p.len() implies 0 <= #[trigger] p[q] < members.len() && l2[p[q]] == k by {
        assert(l[p[q]] != usize::MAX);
    }
}

/// A start keeps when labels already given stay and new labels are at least its piece's.
proof fn lemma_start_keeps(members: Seq<Member>, l: Seq<usize>, l2: Seq<usize>, k: int, s: int)
    requires
        starts_piece(members, l, k, s),
        l.len() == members.len(),
        l2.len() == l.len(),
        forall|x: int| 0 <= x < l.len() && #[trigger] l[x] != usize::MAX ==> l2[x] == l[x],
        forall|x: int| 0 <= x < l.len() && #[trigger] l[x] == usize::MAX ==> l2[x] >= k,
    ensures
        starts_piece(members, l2, k, s),
{
    assert forall|i: int| live(members, i) && l2[i] >= k implies !local_lt(#[trigger] members[i].local, members[s].local) by {
        if l[i] != usize::MAX {
            assert(l2[i] == l[i]);
        }
    }
}

/// The unit step in direction `d`: right, left, up, down.
pub open spec fn unit(d: int) -> (int, int) {
    if d == 0 {
        (1, 0)
    } else if d == 1 {
        (-1, 0)
    } else if d == 2 {
        (0, 1)
    } else {
        (0, -1)
    }
}

pub(crate) fn unit_step(d: usize) -> (r: (i32, i32))
    requires
        d < 4,
    ensures
        r.0 as int == unit(d as int).0,
        r.1 as int == unit(d as int).1,
{
    if d == 0 {
        (1, 0)
    } else if d == 1 {
        (-1, 0)
    } else if d == 2 {
        (0, 1)
    } else {
        (0, -1)
    }
}

/// Every edge from the members given labels below `k` leads to a member with a label
/// no greater.
pub open spec fn closed_below(members: Seq<Member>, bonds: Seq<Vec<bool>>, l: Seq<usize>, k: int) -> bool {
    forall|i: int, j: int| #[trigger] edge(members, bonds, i, j) && l[i] != usize::MAX && l[i] < k
        ==> l[j] != usize::MAX && l[j] <= l[i]
}

/// Each labelled member has a path from its piece's start.
pub open spec fn paths_ok(members: Seq<Member>, bonds: Seq<Vec<bool>>, l: Seq<usize>, starts: Seq<int>, paths: Seq<Seq<int>>) -> bool {
    forall|i: int| 0 <= i < l.len() && #[trigger] l[i] != usize::MAX ==> {
        &&& (l[i] as int) < starts.len()
        &&& is_path(members, bonds, l, l[i] as int, paths[i])
        &&& paths[i][0] == starts[l[i] as int]
        &&& paths[i].last() == i
    }
}

/// Each piece so far has its start.
pub open spec fn starts_ok(members: Seq<Member>, l: Seq<usize>, starts: Seq<int>) -> bool {
    forall|k: int| 0 <= k < starts.len() ==> #[trigger] starts_piece(members, l, k, starts[k])
}

/// Labels each counting member with its piece: pieces grow along bonds between
/// side-by-side members, each from the first free member in row order.
pub fn label_components(members: &Vec<Member>, bonds: &Vec<Vec<bool>>) -> (r: (Vec<usize>, usize))
    requires
        table_covers(members@, bonds@),
        locals_inside(members@),
    ensures
        labelling(members@, bonds@, r.0@, r.1 as int),
{
    let ghost m = members@;
    let ghost t = bonds@;
    let n = members.len();
    let index = index_members(members);
    let mut labels: Vec<usize> = Vec::new();
    while labels.len() < n
        invariant
            labels@.len() <= n,
            forall|i: int| 0 <= i < labels@.len() ==> #[trigger] labels@[i] == usize::MAX,
        decreases n - labels@.len(),
    {
        labels.push(usize::MAX);
    }
    let mut count: usize = 0;
    let ghost mut starts: Seq<int> = Seq::empty();
    let ghost mut paths: Seq<Seq<int>> = Seq::new(n as nat, |i: int| seq![i]);
    proof {
        assert(count_free(labels@) == n) by {
            lemma_all_free(labels@);
        }
    }
    let mut next = least_free(members, &index, &labels);
    while next.is_some()
        invariant
            m == members@,
            t == bonds@,
            n == m.len(),
            indexes(m, index@),
            table_covers(m, t),
            locals_inside(m),
            labels@.len() == n,
            paths.len() == n,
            starts.len() == count,
            count + count_free(labels@) <= n,
            forall|i: int| 0 <= i < n && #[trigger] labels@[i] != usize::MAX ==> live(m, i) && labels@[i] < count,
            closed_below(m, t, labels@, count as int),
            starts_ok(m, labels@, starts),
            paths_ok(m, t, labels@, starts, paths),
            next is None ==> forall|i: int| #[trigger] live(m, i) ==> labels@[i] != usize::MAX,
            next matches Some(s) ==> {
                &&& live(m, s as int)
                &&& labels@[s as int] == usize::MAX
                &&& forall|i: int| #[trigger] live(m, i) && labels@[i] == usize::MAX
                    ==> !local_lt(m[i].local, m[s as int].local)
            },
        decreases count_free(labels@),
    {
        let s = match next {
            Some(s) => s,
            None => 0,
        };
        let k = count;
        let ghost before = labels@;
        proof {
            lemma_count_free_pos(labels@, s as int);
            lemma_count_free_take(labels@, s as int, k);
            lemma_count_free_bound(labels@.update(s as int, k));
        }
        labels.set(s, k);
        proof {
            starts = starts.push(s as int);
            paths = paths.update(s as int, seq![s as int]);
            assert forall|kk: int| 0 <= kk < starts.len() implies #[trigger] starts_piece(m, labels@, kk, starts[kk]) by {
                if kk < k {
                    assert(starts_piece(m, before, kk, starts[kk]));
                    lemma_start_keeps(m, before, labels@, kk, starts[kk]);
                }
            }
            assert forall|i: int| 0 <= i < n && #[trigger] labels@[i] != usize::MAX implies {
                &&& (labels@[i] as int) < starts.len()
                &&& is_path(m, t, labels@, labels@[i] as int, paths[i])
                &&& paths[i][0] == starts[labels@[i] as int]
                &&& paths[i].last() == i
            } by {
                if i != s {
                    assert(before[i] != usize::MAX);
                    lemma_path_keeps(m, t, before, labels@, before[i] as int, paths[i]);
                }
            }
        }
        let mut queue: Vec<usize> = Vec::new();
        queue.push(s);
        let mut head: usize = 0;
        proof {
            assert forall|i: int| 0 <= i < n && #[trigger] labels@[i] == k implies queue@.contains(i as usize) by {
                if i != s {
                    assert(before[i] == k);
                } else {
                    assert(queue@[0] == s);
                }
            }
        }
        let ghost free0 = count_free(labels@) + 1;
        while head < queue.len()
            invariant
                m == members@,
                t == bonds@,
                n == m.len(),
                indexes(m, index@),
                table_covers(m, t),
                locals_inside(m),
                labels@.len() == n,
                paths.len() == n,
                k == count,
                starts.len() == count + 1,
                count + free0 <= n,
                count_free(labels@) + queue@.len() == free0,
                0 <= head <= queue@.len(),
                queue@.len() >= 1,
                forall|i: int| 0 <= i < n && #[trigger] labels@[i] != usize::MAX ==> live(m, i) && labels@[i] <= k,
                forall|q: int| 0 <= q < queue@.len() ==> (#[trigger] queue@[q] as int) < n && labels@[queue@[q] as int] == k,
                forall|i: int| 0 <= i < n && #[trigger] labels@[i] == k ==> queue@.contains(i as usize),
                forall|q: int, j: int| 0 <= q < head && #[trigger] edge(m, t, queue@[q] as int, j) ==> labels@[j] != usize::MAX,
                closed_below(m, t, labels@, k as int),
                starts_ok(m, labels@, starts),
                paths_ok(m, t, labels@, starts, paths),
            decreases count_free(labels@) + queue@.len() - head,
        {
            let c = queue[head];
            let here = members[c].local;
            let mc = members[c].material;
            let mut d: usize = 0;
            while d < 4
                invariant
                    m == members@,
                    t == bonds@,
                    n == m.len(),
                    indexes(m, index@),
                    table_covers(m, t),
                    locals_inside(m),
                    labels@.len() == n,
                    paths.len() == n,
                    k == count,
                    starts.len() == count + 1,
                    count + free0 <= n,
                    count_free(labels@) + queue@.len() == free0,
                    0 <= head < queue@.len(),
                    c == queue@[head as int],
                    here == m[c as int].local,
                    mc == m[c as int].material,
                    0 <= d <= 4,
                    forall|i: int| 0 <= i < n && #[trigger] labels@[i] != usize::MAX ==> live(m, i) && labels@[i] <= k,
                    forall|q: int| 0 <= q < queue@.len() ==> (#[trigger] queue@[q] as int) < n && labels@[queue@[q] as int] == k,
                    forall|i: int| 0 <= i < n && #[trigger] labels@[i] == k ==> queue@.contains(i as usize),
                    forall|q: int, j: int| 0 <= q < head && #[trigger] edge(m, t, queue@[q] as int, j) ==> labels@[j] != usize::MAX,
                    forall|dd: int, j: int| #![trigger edge(m, t, c as int, j), unit(dd)] 0 <= dd < d && edge(m, t, c as int, j)
                        && m[j].local.0 == here.0 + unit(dd).0 && m[j].local.1 == here.1 + unit(dd).1
                        ==> labels@[j] != usize::MAX,
                    closed_below(m, t, labels@, k as int),
                    starts_ok(m, labels@, starts),
                    paths_ok(m, t, labels@, starts, paths),
                decreases 4 - d,
            {
                let step = unit_step(d);
                let nx = here.0 + step.0;
                let ny = here.1 + step.1;
                let found = fx_map_get(&index, key_of_pair(nx, ny));
                proof {
                    if found is None {
                        assert forall|j: int| #[trigger] edge(m, t, c as int, j)
                            && m[j].local.0 == nx && m[j].local.1 == ny implies false by {
                            assert(index@.contains_key(local_key(m[j])));
                        }
                    }
                }
                if let Some(j) = found {
                    proof {
                        lemma_pair_key_injective(m[j as int].local.0, m[j as int].local.1, nx, ny);
                        assert forall|j2: int| #[trigger] edge(m, t, c as int, j2)
                            && m[j2].local.0 == nx && m[j2].local.1 == ny implies j2 == j by {
                            lemma_live_index(m, index@, j2);
                        }
                    }
                    let mj = members[j].material;
                    if labels[j] == usize::MAX && bonds[mc.0 as usize][mj.0 as usize] {
                        let ghost before = labels@;
                        proof {
                            lemma_count_free_take(labels@, j as int, k);
                        }
                        labels.set(j, k);
                        let ghost qb = queue@;
                        queue.push(j);
                        proof {
                            let pc = paths[c as int];
                            assert(before[c as int] == k);
                            assert(is_path(m, t, before, k as int, pc));
                            lemma_path_keeps(m, t, before, labels@, k as int, pc);
                            let pj = pc.push(j as int);
                            assert(adjacent(m[c as int].local, m[j as int].local));
                            assert(edge(m, t, c as int, j as int));
                            assert(is_path(m, t, labels@, k as int, pj)) by {
                                assert forall|a: int, b: int| 0 <= a && b == a + 1 && b < pj.len()
                                    implies edge(m, t, #[trigger] pj[a], #[trigger] pj[b]) by {
                                    if b < pc.len() {
                                        assert(pj[a] == pc[a] && pj[b] == pc[b]);
                                    }
                                }
                            }
                            paths = paths.update(j as int, pj);
                            assert forall|kk: int| 0 <= kk < starts.len() implies #[trigger] starts_piece(m, labels@, kk, starts[kk]) by {
                                assert(starts_piece(m, before, kk, starts[kk]));
                                lemma_start_keeps(m, before, labels@, kk, starts[kk]);
                            }
                            assert forall|i: int| 0 <= i < n && #[trigger] labels@[i] != usize::MAX implies {
                                &&& (labels@[i] as int) < starts.len()
                                &&& is_path(m, t, labels@, labels@[i] as int, paths[i])
                                &&& paths[i][0] == starts[labels@[i] as int]
                                &&& paths[i].last() == i
                            } by {
                                if i != j {
                                    assert(before[i] != usize::MAX);
                                    lemma_path_keeps(m, t, before, labels@, before[i] as int, paths[i]);
                                }
                            }
                            assert forall|i: int| 0 <= i < n && #[trigger] labels@[i] == k implies queue@.contains(i as usize) by {
                                if i != j {
                                    assert(before[i] == k);
                                    assert(qb.contains(i as usize));
                                    let q = choose|q: int| 0 <= q < qb.len() && qb[q] == i as usize;
                                    assert(queue@[q] == qb[q]);
                                } else {
                                    assert(queue@[queue@.len() - 1] == j);
                                }
                            }
                        }
                    }
                }
                d = d + 1;
            }
            proof {
                assert forall|q: int, j: int| 0 <= q < head + 1 && #[trigger] edge(m, t, queue@[q] as int, j)
                    implies labels@[j] != usize::MAX by {
                    if q == head {
                        assert(adjacent(m[c as int].local, m[j].local));
                        if m[j].local.0 == here.0 + 1 && m[j].local.1 == here.1 {
                            assert(unit(0) == (1int, 0int));
                        } else if m[j].local.0 == here.0 - 1 && m[j].local.1 == here.1 {
                            assert(unit(1) == (-1int, 0int));
                        } else if m[j].local.0 == here.0 && m[j].local.1 == here.1 + 1 {
                            assert(unit(2) == (0int, 1int));
                        } else {
                            assert(unit(3) == (0int, -1int));
                        }
                    }
                }
            }
            head = head + 1;
        }
        proof {
            assert forall|i: int, j: int| #[trigger] edge(m, t, i, j) && labels@[i] != usize::MAX && labels@[i] < k + 1
                implies labels@[j] != usize::MAX && labels@[j] <= labels@[i] by {
                if labels@[i] == k {
                    assert(queue@.contains(i as usize));
                    let q = choose|q: int| 0 <= q < queue@.len() && queue@[q] == i as usize;
                    assert(edge(m, t, queue@[q] as int, j));
                }
            }
        }
        count = count + 1;
        next = least_free(members, &index, &labels);
    }
    proof {
        assert forall|kk: int| 0 <= kk < count implies #[trigger] piece_ok(m, t, labels@, kk) by {
            let s = starts[kk];
            assert(starts_piece(m, labels@, kk, s));
            assert forall|i: int| 0 <= i < m.len() && #[trigger] labels@[i] == kk implies reaches(m, t, labels@, kk, s, i) by {
                assert(is_path(m, t, labels@, kk, paths[i]));
            }
        }
        assert forall|i: int, j: int| #[trigger] edge(m, t, i, j) implies labels@[j] <= labels@[i] by {
            assert(live(m, i));
        }
    }
    (labels, count)
}

/// Cells in row order: lower row first, then lower column.
pub open spec fn pos_lt(a: CellPos, b: CellPos) -> bool {
    a.y < b.y || (a.y == b.y && a.x < b.x)
}

/// No cell comes after one that precedes it in row order.
pub open spec fn row_sorted(s: Seq<CellPos>) -> bool {
    forall|a: int, b: int| 0 <= a < b < s.len() ==> !pos_lt(#[trigger] s[b], #[trigger] s[a])
}

/// The world cells of the first `upto` members that carry label `k`, in member order.
pub open spec fn piece_cells(members: Seq<Member>, labels: Seq<usize>, k: int, upto: int) -> Seq<CellPos>
    decreases upto,
{
    if upto <= 0 {
        Seq::empty()
    } else if labels[upto - 1] == k {
        piece_cells(members, labels, k, upto - 1).push(members[upto - 1].pos)
    } else {
        piece_cells(members, labels, k, upto - 1)
    }
}

/// Sorts cells into row order.
pub(crate) fn sort_rows(cells: Vec<CellPos>) -> (r: Vec<CellPos>)
    ensures
        r@.to_multiset() == cells@.to_multiset(),
        row_sorted(r@),
{
    broadcast use vstd::seq_lib::to_multiset_insert;
    let mut out: Vec<CellPos> = Vec::new();
    let mut i: usize = 0;
    proof {
        assert(out@.to_multiset() =~= cells@.subrange(0, 0).to_multiset()) by {
            broadcast use vstd::multiset::group_multiset_axioms;
            vstd::seq_lib::to_multiset_len(out@);
            vstd::seq_lib::to_multiset_len(cells@.subrange(0, 0));
            vstd::multiset::lemma_multiset_empty_len(out@.to_multiset());
            vstd::multiset::lemma_multiset_empty_len(cells@.subrange(0, 0).to_multiset());
        }
    }
    while i < cells.len()
        invariant
            0 <= i <= cells@.len(),
            out@.to_multiset() == cells@.subrange(0, i as int).to_multiset(),
            row_sorted(out@),
        decreases cells@.len() - i,
    {
        let c = cells[i];
        let mut k: usize = 0;
        while k < out.len()
            invariant
                0 <= k <= out@.len(),
                forall|j: int| 0 <= j < k ==> !pos_lt(c, #[trigger] out@[j]),
            ensures
                0 <= k <= out@.len(),
                forall|j: int| 0 <= j < k ==> !pos_lt(c, #[trigger] out@[j]),
                k < out@.len() ==> pos_lt(c, out@[k as int]),
            decreases out@.len() - k,
        {
            let o = out[k];
            if c.y < o.y || (c.y == o.y && c.x < o.x) {
                break;
            }
            k = k + 1;
        }
        let ghost before = out@;
        out.insert(k, c);
        proof {
            assert(cells@.subrange(0, i + 1) =~= cells@.subrange(0, i as int).push(c));
            vstd::seq_lib::to_multiset_build(cells@.subrange(0, i as int), c);
            assert(out@ == before.insert(k as int, c));
            vstd::seq_lib::to_multiset_insert(before, k as int, c);
            assert forall|a: int, b: int| 0 <= a < b < out@.len() implies !pos_lt(#[trigger] out@[b], #[trigger] out@[a]) by {
                if b < k {
                    assert(out@[a] == before[a] && out@[b] == before[b]);
                } else if b == k {
                    assert(out@[a] == before[a]);
                } else if a < k {
                    assert(out@[a] == before[a] && out@[b] == before[b - 1]);
                    assert(!pos_lt(before[b - 1], before[k as int]));
                } else if a == k {
                    assert(out@[b] == before[b - 1]);
                    assert(!pos_lt(before[b - 1], before[k as int]));
                } else {
                    assert(out@[a] == before[a - 1] && out@[b] == before[b - 1]);
                }
            }
        }
        i = i + 1;
    }
    proof {
        assert(cells@.subrange(0, cells@.len() as int) =~= cells@);
    }
    out
}

/// Splits a body's members into the pieces that hold together along bonds, each
/// piece as its world cells in row order. Pieces come in the row order of their
/// first free member.
pub fn split_components(members: &Vec<Member>, bonds: &Vec<Vec<bool>>) -> (pieces: Vec<Vec<CellPos>>)
    requires
        table_covers(members@, bonds@),
        locals_inside(members@),
    ensures
        exists|labels: Seq<usize>| {
            &&& #[trigger] labelling(members@, bonds@, labels, pieces@.len() as int)
            &&& forall|k: int| 0 <= k < pieces@.len() ==> {
                &&& row_sorted((#[trigger] pieces@[k])@)
                &&& pieces@[k]@.to_multiset() == piece_cells(members@, labels, k, members@.len() as int).to_multiset()
            }
        },
{
    let (labels, count) = label_components(members, bonds);
    let n = members.len();
    let mut pieces: Vec<Vec<CellPos>> = Vec::new();
    let mut k: usize = 0;
    while k < count
        invariant
            labelling(members@, bonds@, labels@, count as int),
            n == members@.len(),
            0 <= k <= count,
            pieces@.len() == k,
            forall|kk: int| 0 <= kk < k ==> {
                &&& row_sorted((#[trigger] pieces@[kk])@)
                &&& pieces@[kk]@.to_multiset() == piece_cells(members@, labels@, kk, n as int).to_multiset()
            },
        decreases count - k,
    {
        let mut cells: Vec<CellPos> = Vec::new();
        let mut i: usize = 0;
        while i < n
            invariant
                labels@.len() == n,
                n == members@.len(),
                0 <= i <= n,
                cells@ == piece_cells(members@, labels@, k as int, i as int),
            decreases n - i,
        {
            if labels[i] == k {
                cells.push(members[i].pos);
            }
            i = i + 1;
        }
        let sorted = sort_rows(cells);
        pieces.push(sorted);
        k = k + 1;
    }
    proof {
        assert(labelling(members@, bonds@, labels@, pieces@.len() as int));
    }
    pieces
}

/// Along a path of piece `j` under `l1`, a second labelling that agrees with `l1`
/// below `j` and gives the path's start piece `j` gives every step piece `j`.
proof fn lemma_path_follows(
    members: Seq<Member>,
    bonds: Seq<Vec<bool>>,
    l1: Seq<usize>,
    c1: int,
    l2: Seq<usize>,
    c2: int,
    j: int,
    p: Seq<int>,
    q: int,
)
    requires
        labelling(members, bonds, l1, c1),
        labelling(members, bonds, l2, c2),
        is_path(members, bonds, l1, j, p),
        0 <= q < p.len(),
        l2[p[0]] == j,
        forall|i: int| #[trigger] live(members, i) ==> ((l1[i] < j) == (l2[i] < j)),
    ensures
        l2[p[q]] == j,
    decreases q,
{
    if q > 0 {
        lemma_path_follows(members, bonds, l1, c1, l2, c2, j, p, q - 1);
        assert(edge(members, bonds, p[q - 1], p[q]));
        assert(live(members, p[q]));
        assert(l1[p[q]] == j);
    }
}

/// Two labellings of the same members agree on every label below `k`.
proof fn lemma_levels_agree(
    members: Seq<Member>,
    bonds: Seq<Vec<bool>>,
    l1: Seq<usize>,
    c1: int,
    l2: Seq<usize>,
    c2: int,
    k: int,
)
    requires
        labelling(members, bonds, l1, c1),
        labelling(members, bonds, l2, c2),
        k >= 0,
    ensures
        forall|i: int| #[trigger] live(members, i) ==> ((l1[i] < k) == (l2[i] < k)) && (l1[i] < k ==> l1[i] == l2[i]),
    decreases k,
{
    if k > 0 {
        let j = k - 1;
        lemma_levels_agree(members, bonds, l1, c1, l2, c2, j);
        if j < c1 {
            assert(piece_ok(members, bonds, l1, j));
            let s1 = choose|s: int| #[trigger] starts_piece(members, l1, j, s)
                && forall|i: int| 0 <= i < members.len() && #[trigger] l1[i] == j ==> reaches(members, bonds, l1, j, s, i);
            assert(live(members, s1));
            if j >= c2 {
                assert(l2[s1] < c2);
            }
        }
        if j < c2 {
            assert(piece_ok(members, bonds, l2, j));
            let s2 = choose|s: int| #[trigger] starts_piece(members, l2, j, s)
                && forall|i: int| 0 <= i < members.len() && #[trigger] l2[i] == j ==> reaches(members, bonds, l2, j, s, i);
            assert(live(members, s2));
            if j >= c1 {
                assert(l1[s2] < c1);
            }
        }
        if j < c1 && j < c2 {
            let s1 = choose|s: int| #[trigger] starts_piece(members, l1, j, s)
                && forall|i: int| 0 <= i < members.len() && #[trigger] l1[i] == j ==> reaches(members, bonds, l1, j, s, i);
            let s2 = choose|s: int| #[trigger] starts_piece(members, l2, j, s)
                && forall|i: int| 0 <= i < members.len() && #[trigger] l2[i] == j ==> reaches(members, bonds, l2, j, s, i);
            assert(live(members, s1) && live(members, s2));
            assert(!local_lt(members[s1].local, members[s2].local));
            assert(!local_lt(members[s2].local, members[s1].local));
            assert(s1 == s2) by {
                if s1 < s2 {
                    assert(local_key(members[s2]) == local_key(members[s1]));
                } else if s2 < s1 {
                    assert(local_key(members[s1]) == local_key(members[s2]));
                }
            }
            assert forall|i: int| #[trigger] live(members, i) && l1[i] == j implies l2[i] == j by {
                assert(reaches(members, bonds, l1, j, s1, i));
                let p = choose|p: Seq<int>| #[trigger] is_path(members, bonds, l1, j, p) && p[0] == s1 && p.last() == i;
                lemma_path_follows(members, bonds, l1, c1, l2, c2, j, p, p.len() - 1);
            }
            assert forall|i: int| #[trigger] live(members, i) && l2[i] == j implies l1[i] == j by {
                assert(reaches(members, bonds, l2, j, s2, i));
                let p = choose|p: Seq<int>| #[trigger] is_path(members, bonds, l2, j, p) && p[0] == s2 && p.last() == i;
                lemma_path_follows(members, bonds, l2, c2, l1, c1, j, p, p.len() - 1);
            }
        }
    }
}

/// The pieces are determined by the members and the bond table alone: two
/// labellings of the same members are the same labelling.
pub proof fn lemma_labelling_unique(
    members: Seq<Member>,
    bonds: Seq<Vec<bool>>,
    l1: Seq<usize>,
    c1: int,
    l2: Seq<usize>,
    c2: int,
)
    requires
        labelling(members, bonds, l1, c1),
        labelling(members, bonds, l2, c2),
    ensures
        c1 == c2,
        l1 == l2,
{
    let c = if c1 < c2 { c1 } else { c2 };
    lemma_levels_agree(members, bonds, l1, c1, l2, c2, c);
    if c1 < c2 {
        assert(piece_ok(members, bonds, l2, c1));
        let s = choose|s: int| #[trigger] starts_piece(members, l2, c1, s)
            && forall|i: int| 0 <= i < members.len() && #[trigger] l2[i] == c1 ==> reaches(members, bonds, l2, c1, s, i);
        assert(live(members, s));
        assert(l1[s] < c1);
    }
    if c2 < c1 {
        assert(piece_ok(members, bonds, l1, c2));
        let s = choose|s: int| #[trigger] starts_piece(members, l1, c2, s)
            && forall|i: int| 0 <= i < members.len() && #[trigger] l1[i] == c2 ==> reaches(members, bonds, l1, c2, s, i);
        assert(live(members, s));
        assert(l2[s] < c2);
    }
    assert forall|i: int| 0 <= i < l1.len() implies #[trigger] l1[i] == l2[i] by {
        if live(members, i) {
            assert(l1[i] < c1);
        }
    }
    assert(l1 =~= l2);
}

/// When every bond is mutual, no bond joins two different pieces.
pub proof fn lemma_mutual_bonds_stay_inside(
    members: Seq<Member>,
    bonds: Seq<Vec<bool>>,
    labels: Seq<usize>,
    count: int,
    i: int,
    j: int,
)
    requires
        labelling(members, bonds, labels, count),
        table_covers(members, bonds),
        forall|a: int, b: int| 0 <= a < bonds.len() && 0 <= b < bonds.len() ==> #[trigger] bonds[a]@[b] == bonds[b]@[a],
        edge(members, bonds, i, j),
    ensures
        labels[i] == labels[j],
{
    assert(members[i].material.0 < bonds.len() && members[j].material.0 < bonds.len());
    assert(bonds[members[i].material.0 as int]@[members[j].material.0 as int]
        == bonds[members[j].material.0 as int]@[members[i].material.0 as int]);
    assert(edge(members, bonds, j, i));
}

/// Whether piece `c` holds cell `p`.
pub open spec fn holds_cell(c: Seq<CellPos>, p: CellPos) -> bool {
    exists|i: int| 0 <= i < c.len() && c[i] == p
}

/// The row of a piece's first cell, or `i32::MAX` for an empty piece.
pub open spec fn first_row(c: Seq<CellPos>) -> int {
    if c.len() == 0 { i32::MAX as int } else { c[0].y as int }
}

/// The column of a piece's first cell, or `i32::MAX` for an empty piece.
pub open spec fn first_col(c: Seq<CellPos>) -> int {
    if c.len() == 0 { i32::MAX as int } else { c[0].x as int }
}

/// Piece `a` has the stronger claim to a body's identity than piece `b`: it is
/// larger; or as large and it holds the pivot while `b` does not; or else its
/// first cell comes first in row order.
pub open spec fn heir_before(a: Seq<CellPos>, b: Seq<CellPos>, pivot: CellPos) -> bool {
    ||| a.len() > b.len()
    ||| a.len() == b.len() && holds_cell(a, pivot) && !holds_cell(b, pivot)
    ||| a.len() == b.len() && holds_cell(a, pivot) == holds_cell(b, pivot) && first_row(a) < first_row(b)
    ||| a.len() == b.len() && holds_cell(a, pivot) == holds_cell(b, pivot) && first_row(a) == first_row(b)
        && first_col(a) < first_col(b)
}

fn holds(piece: &Vec<CellPos>, pivot: CellPos) -> (r: bool)
    ensures
        r == holds_cell(piece@, pivot),
{
    let mut i: usize = 0;
    while i < piece.len()
        invariant
            0 <= i <= piece@.len(),
            forall|q: int| 0 <= q < i ==> piece@[q] != pivot,
        decreases piece@.len() - i,
    {
        if piece[i].x == pivot.x && piece[i].y == pivot.y {
            return true;
        }
        i = i + 1;
    }
    false
}

/// The piece that keeps a split body's identity: the first with the strongest
/// claim, or `usize::MAX` when there is no piece.
pub fn inherited_component(components: &Vec<Vec<CellPos>>, pivot: CellPos) -> (r: usize)
    ensures
        components@.len() == 0 ==> r == usize::MAX,
        components@.len() > 0 ==> {
            &&& (r as int) < components@.len()
            &&& forall|j: int| 0 <= j < r ==> heir_before(components@[r as int]@, (#[trigger] components@[j])@, pivot)
            &&& forall|j: int| 0 <= j < components@.len() ==> !heir_before((#[trigger] components@[j])@, components@[r as int]@, pivot)
        },
{
    if components.len() == 0 {
        return usize::MAX;
    }
    let mut best: usize = 0;
    let mut best_len = components[0].len();
    let mut best_holds = holds(&components[0], pivot);
    let mut best_row: i32 = if components[0].len() == 0 { i32::MAX } else { components[0][0].y };
    let mut best_col: i32 = if components[0].len() == 0 { i32::MAX } else { components[0][0].x };
    let mut i: usize = 1;
    while i < components.len()
        invariant
            1 <= i <= components@.len(),
            (best as int) < i,
            best_len == components@[best as int]@.len(),
            best_holds == holds_cell(components@[best as int]@, pivot),
            best_row as int == first_row(components@[best as int]@),
            best_col as int == first_col(components@[best as int]@),
            forall|j: int| 0 <= j < best ==> heir_before(components@[best as int]@, (#[trigger] components@[j])@, pivot),
            forall|j: int| 0 <= j < i ==> !heir_before((#[trigger] components@[j])@, components@[best as int]@, pivot),
        decreases components@.len() - i,
    {
        let c = &components[i];
        let len = c.len();
        let h = holds(c, pivot);
        let row: i32 = if len == 0 { i32::MAX } else { c[0].y };
        let col: i32 = if len == 0 { i32::MAX } else { c[0].x };
        let better = len > best_len
            || (len == best_len && h && !best_holds)
            || (len == best_len && h == best_holds && row < best_row)
            || (len == best_len && h == best_holds && row == best_row && col < best_col);
        if better {
            proof {
                assert forall|j: int| 0 <= j < i implies heir_before(components@[i as int]@, (#[trigger] components@[j])@, pivot) by {
                    assert(!heir_before(components@[j]@, components@[best as int]@, pivot));
                    if j != best {
                        assert(j < best ==> heir_before(components@[best as int]@, components@[j]@, pivot));
                    }
                }
                assert forall|j: int| 0 <= j < i + 1 implies !heir_before((#[trigger] components@[j])@, components@[i as int]@, pivot) by {
                    if j < i {
                        assert(!heir_before(components@[j]@, components@[best as int]@, pivot));
                    }
                }
            }
            best = i;
            best_len = len;
            best_holds = h;
            best_row = row;
            best_col = col;
        }
        i = i + 1;
    }
    best
}

/// The least column of a list of cells, or 0 for no cells.
pub open spec fn least_x(s: Seq<CellPos>) -> int
    decreases s.len(),
{
    if s.len() == 0 {
        0
    } else if s.len() == 1 || s.last().x < least_x(s.drop_last()) {
        s.last().x as int
    } else {
        least_x(s.drop_last())
    }
}

/// The greatest column of a list of cells, or 0 for no cells.
pub open spec fn most_x(s: Seq<CellPos>) -> int
    decreases s.len(),
{
    if s.len() == 0 {
        0
    } else if s.len() == 1 || s.last().x > most_x(s.drop_last()) {
        s.last().x as int
    } else {
        most_x(s.drop_last())
    }
}

/// The least row of a list of cells, or 0 for no cells.
pub open spec fn least_y(s: Seq<CellPos>) -> int
    decreases s.len(),
{
    if s.len() == 0 {
        0
    } else if s.len() == 1 || s.last().y < least_y(s.drop_last()) {
        s.last().y as int
    } else {
        least_y(s.drop_last())
    }
}

/// The greatest row of a list of cells, or 0 for no cells.
pub open spec fn most_y(s: Seq<CellPos>) -> int
    decreases s.len(),
{
    if s.len() == 0 {
        0
    } else if s.len() == 1 || s.last().y > most_y(s.drop_last()) {
        s.last().y as int
    } else {
        most_y(s.drop_last())
    }
}

/// A span clamped to what a byte holds, and at least one.
pub open spec fn byte_span(lo: int, hi: int) -> int {
    let w = hi - lo + 1;
    if w < 1 { 1 } else if w > 255 { 255 } else { w }
}

/// The width and height of the box around `positions`, each clamped to `1..=255`.
pub fn dimensions(positions: &Vec<CellPos>) -> (r: (u8, u8))
    requires
        most_x(positions@) - least_x(positions@) + 1 <= i32::MAX,
        most_y(positions@) - least_y(positions@) + 1 <= i32::MAX,
    ensures
        r.0 as int == byte_span(least_x(positions@), most_x(positions@)),
        r.1 as int == byte_span(least_y(positions@), most_y(positions@)),
{
    let mut lx: i32 = 0;
    let mut hx: i32 = 0;
    let mut ly: i32 = 0;
    let mut hy: i32 = 0;
    let mut i: usize = 0;
    while i < positions.len()
        invariant
            0 <= i <= positions@.len(),
            lx as int == least_x(positions@.take(i as int)),
            hx as int == most_x(positions@.take(i as int)),
            ly as int == least_y(positions@.take(i as int)),
            hy as int == most_y(positions@.take(i as int)),
        decreases positions@.len() - i,
    {
        let p = positions[i];
        proof {
            assert(positions@.take(i + 1).drop_last() =~= positions@.take(i as int));
            assert(positions@.take(i + 1).last() == p);
        }
        if i == 0 || p.x < lx {
            lx = p.x;
        }
        if i == 0 || p.x > hx {
            hx = p.x;
        }
        if i == 0 || p.y < ly {
            ly = p.y;
        }
        if i == 0 || p.y > hy {
            hy = p.y;
        }
        i = i + 1;
    }
    proof {
        assert(positions@.take(positions@.len() as int) =~= positions@);
    }
    let w = hx as i64 - lx as i64 + 1;
    let h = hy as i64 - ly as i64 + 1;
    let w8: u8 = if w < 1 { 1 } else if w > 255 { 255 } else { w as u8 };
    let h8: u8 = if h < 1 { 1 } else if h > 255 { 255 } else { h as u8 };
    (w8, h8)
}

/// The widest an island may be, in cells, along either axis (exclusive).
pub const MAX_BODY_EXTENT: i32 = 48;

/// The most cells an island may have.
pub const MAX_ISLAND_CELLS: usize = 2048;

/// What the world shows at a loaded cell: whether a body owns it, and its material.
#[derive(Debug, Clone, Copy, PartialEq, Eq)]
pub struct Probe {
    pub body: bool,
    pub material: MaterialId,
}

/// The content tables that island detection reads, each indexed by material.
pub struct Content {
    pub phase: Vec<Phase>,
    pub rigid_capable: Vec<bool>,
    pub bonds: Vec<Vec<bool>>,
}

/// The tables have one entry per material, the bond table is square, and every
/// loaded cell's material has an entry; every loaded cell has neighbours inside `i32`.
pub open spec fn world_fits(world: Map<u64, Probe>, c: &Content) -> bool {
    &&& c.rigid_capable@.len() == c.phase@.len()
    &&& c.bonds@.len() == c.phase@.len()
    &&& forall|a: int| 0 <= a < c.bonds@.len() ==> (#[trigger] c.bonds@[a])@.len() == c.bonds@.len()
    &&& forall|key: u64| #[trigger] world.contains_key(key) ==> (world[key].material.0 as int) < c.phase@.len()
    &&& forall|p: CellPos| #[trigger] world.contains_key(cell_key(p)) ==> i32::MIN < p.x < i32::MAX && i32::MIN < p.y < i32::MAX
}

/// The material the world shows at a loaded cell.
pub open spec fn mat_at(world: Map<u64, Probe>, p: CellPos) -> MaterialId {
    world[cell_key(p)].material
}

/// A loaded cell that no body owns, of a solid material able to form a rigid body.
pub open spec fn rigid_at(world: Map<u64, Probe>, c: &Content, p: CellPos) -> bool {
    &&& world.contains_key(cell_key(p))
    &&& !world[cell_key(p)].body
    &&& c.phase@[mat_at(world, p).0 as int] == Phase::Solid
    &&& c.rigid_capable@[mat_at(world, p).0 as int]
}

/// One step of an island: from a rigid cell to a rigid cell beside it that its
/// material bonds to.
pub open spec fn island_step(world: Map<u64, Probe>, c: &Content, a: CellPos, b: CellPos) -> bool {
    &&& rigid_at(world, c, a)
    &&& rigid_at(world, c, b)
    &&& adjacent((a.x, a.y), (b.x, b.y))
    &&& bond(c.bonds@, mat_at(world, a), mat_at(world, b))
}

/// A walk of island steps.
pub open spec fn island_path(world: Map<u64, Probe>, c: &Content, p: Seq<CellPos>) -> bool {
    &&& p.len() >= 1
    &&& rigid_at(world, c, p[0])
    &&& forall|a: int, b: int| 0 <= a && b == a + 1 && b < p.len() ==> island_step(world, c, #[trigger] p[a], #[trigger] p[b])
}

/// Cell `x` belongs to the island grown from `seed`.
pub open spec fn in_island(world: Map<u64, Probe>, c: &Content, seed: CellPos, x: CellPos) -> bool {
    exists|p: Seq<CellPos>| #[trigger] island_path(world, c, p) && p[0] == seed && p.last() == x
}

/// A cell rests on something outside its island: the cell below is loaded and solid
/// or powder, and is not a rigid cell that `x`'s material bonds to.
pub open spec fn rests_outside(world: Map<u64, Probe>, c: &Content, x: CellPos) -> bool {
    let below = CellPos { x: x.x, y: (x.y - 1) as i32 };
    &&& !(rigid_at(world, c, below) && bond(c.bonds@, mat_at(world, x), mat_at(world, below)))
    &&& world.contains_key(cell_key(below))
    &&& (c.phase@[mat_at(world, below).0 as int] == Phase::Solid || c.phase@[mat_at(world, below).0 as int] == Phase::Powder)
}

/// The island reaches `MAX_BODY_EXTENT` cells or more across.
pub open spec fn island_spread(world: Map<u64, Probe>, c: &Content, seed: CellPos) -> bool {
    exists|a: CellPos, b: CellPos| #[trigger] in_island(world, c, seed, a) && #[trigger] in_island(world, c, seed, b)
        && (b.x - a.x >= MAX_BODY_EXTENT || b.y - a.y >= MAX_BODY_EXTENT)
}

/// The island has more than `MAX_ISLAND_CELLS` cells.
pub open spec fn island_crowded(world: Map<u64, Probe>, c: &Content, seed: CellPos) -> bool {
    exists|s: Seq<CellPos>| s.len() == MAX_ISLAND_CELLS + 1 && #[trigger] s.no_duplicates()
        && forall|i: int| 0 <= i < s.len() ==> in_island(world, c, seed, #[trigger] s[i])
}

/// Some cell of the island rests on something outside it.
pub open spec fn island_rests(world: Map<u64, Probe>, c: &Content, seed: CellPos) -> bool {
    exists|x: CellPos| #[trigger] in_island(world, c, seed, x) && rests_outside(world, c, x)
}

pub(crate) proof fn lemma_contains_push(s: Seq<CellPos>, x: CellPos, p: CellPos)
    ensures
        s.push(x).contains(p) <==> s.contains(p) || x == p,
{
    if s.contains(p) {
        let q = choose|q: int| 0 <= q < s.len() && s[q] == p;
        assert(s.push(x)[q] == p);
    }
    if x == p {
        assert(s.push(x)[s.len() as int] == p);
    }
    if s.push(x).contains(p) && x != p {
        let q = choose|q: int| 0 <= q < s.len() + 1 && s.push(x)[q] == p;
        assert(s[q] == p);
    }
}

/// Steps out of a set closed under them stay in it.
proof fn lemma_closed_walk(world: Map<u64, Probe>, c: &Content, inside: Set<CellPos>, p: Seq<CellPos>, q: int)
    requires
        island_path(world, c, p),
        inside.contains(p[0]),
        forall|a: CellPos, b: CellPos| inside.contains(a) && #[trigger] island_step(world, c, a, b) ==> inside.contains(b),
        0 <= q < p.len(),
    ensures
        inside.contains(p[q]),
    decreases q,
{
    if q > 0 {
        lemma_closed_walk(world, c, inside, p, q - 1);
        assert(island_step(world, c, p[q - 1], p[q]));
    }
}

/// Whether the world holds a rigid cell at `p`, and its material.
fn rigid_probe(world: &FxHashMap<u64, Probe>, c: &Content, p: CellPos) -> (r: Option<MaterialId>)
    requires
        world_fits(world@, c),
    ensures
        r is Some <==> rigid_at(world@, c, p),
        r matches Some(m) ==> m == mat_at(world@, p),
{
    match fx_map_get(world, key_of(p)) {
        Some(probe) => {
            if !probe.body && matches!(c.phase[probe.material.0 as usize], Phase::Solid) && c.rigid_capable[probe.material.0 as usize] {
                Some(probe.material)
            } else {
                None
            }
        },
        None => None,
    }
}

/// Whether a rigid cell rests on something outside its island.
fn externally_supported(world: &FxHashMap<u64, Probe>, c: &Content, pos: CellPos, material: MaterialId) -> (r: bool)
    requires
        world_fits(world@, c),
        rigid_at(world@, c, pos),
        material == mat_at(world@, pos),
    ensures
        r == rests_outside(world@, c, pos),
{
    let below = CellPos { x: pos.x, y: pos.y - 1 };
    if let Some(m) = rigid_probe(world, c, below) {
        if c.bonds[material.0 as usize][m.0 as usize] {
            return false;
        }
    }
    match fx_map_get(world, key_of(below)) {
        Some(support) => matches!(c.phase[support.material.0 as usize], Phase::Solid | Phase::Powder),
        None => false,
    }
}

/// The cells of a search queue.
pub open spec fn queued(queue: Seq<(CellPos, MaterialId)>) -> Seq<CellPos> {
    queue.map_values(|e: (CellPos, MaterialId)| e.0)
}

/// More distinct cells than a list holds cannot all be in it.
proof fn lemma_too_many(s: Seq<CellPos>, t: Seq<CellPos>)
    requires
        s.no_duplicates(),
        forall|i: int| 0 <= i < s.len() ==> t.contains(#[trigger] s[i]),
    ensures
        s.len() <= t.len(),
{
    s.unique_seq_to_set();
    t.lemma_cardinality_of_set();
    assert(s.to_set().subset_of(t.to_set())) by {
        assert forall|x: CellPos| s.to_set().contains(x) implies t.to_set().contains(x) by {
            let i = choose|i: int| 0 <= i < s.len() && s[i] == x;
            assert(t.contains(s[i]));
        }
    }
    vstd::set_lib::lemma_len_subset(s.to_set(), t.to_set());
}

/// The cells of the rigid island that grows from `seed` along bonds, in row order;
/// `None` when `seed` is not rigid, or when the island rests on something outside
/// it, spans `MAX_BODY_EXTENT` cells or more, or has more than `MAX_ISLAND_CELLS`.
pub fn detect_island(world: &FxHashMap<u64, Probe>, c: &Content, seed: CellPos) -> (r: Option<Vec<CellPos>>)
    requires
        world_fits(world@, c),
    ensures
        r is None <==> !rigid_at(world@, c, seed) || island_rests(world@, c, seed) || island_spread(world@, c, seed)
            || island_crowded(world@, c, seed),
        r matches Some(v) ==> {
            &&& v@.no_duplicates()
            &&& row_sorted(v@)
            &&& forall|x: CellPos| v@.contains(x) <==> in_island(world@, c, seed, x)
        },
{
    let ghost w = world@;
    let seed_mat = match rigid_probe(world, c, seed) {
        Some(m) => m,
        None => {
            return None;
        },
    };
    let mut visited: FxHashSet<u64> = FxHashSet::default();
    let mut queue: Vec<(CellPos, MaterialId)> = Vec::new();
    fx_insert(&mut visited, key_of(seed));
    queue.push((seed, seed_mat));
    let mut min_x: i32 = seed.x;
    let mut max_x: i32 = seed.x;
    let mut min_y: i32 = seed.y;
    let mut max_y: i32 = seed.y;
    let ghost mut paths: Seq<Seq<CellPos>> = seq![seq![seed]];
    let ghost mut at_min_x: int = 0;
    let ghost mut at_max_x: int = 0;
    let ghost mut at_min_y: int = 0;
    let ghost mut at_max_y: int = 0;
    proof {
        assert(island_path(w, c, seq![seed]));
        assert forall|p: CellPos| visited@.contains(cell_key(p)) <==> queued(queue@).contains(p) by {
            if visited@.contains(cell_key(p)) {
                lemma_cell_key_injective(p, seed);
                assert(queued(queue@)[0] == seed);
            }
        }
    }
    let mut head: usize = 0;
    while head < queue.len()
        invariant
            w == world@,
            world_fits(w, c),
            rigid_at(w, c, seed),
            1 <= queue@.len() <= MAX_ISLAND_CELLS,
            queue@[0].0 == seed,
            0 <= head <= queue@.len(),
            forall|p: CellPos| visited@.contains(cell_key(p)) <==> queued(queue@).contains(p),
            forall|q: int| 0 <= q < queue@.len() ==> rigid_at(w, c, (#[trigger] queue@[q]).0) && queue@[q].1 == mat_at(w, queue@[q].0),
            forall|a: int, b: int| 0 <= a < b < queue@.len() ==> (#[trigger] queue@[a]).0 != (#[trigger] queue@[b]).0,
            paths.len() == queue@.len(),
            forall|q: int| 0 <= q < queue@.len() ==> island_path(w, c, #[trigger] paths[q]) && paths[q][0] == seed
                && paths[q].last() == queue@[q].0,
            forall|q: int| 0 <= q < head ==> !rests_outside(w, c, (#[trigger] queue@[q]).0),
            forall|q: int, b: CellPos| 0 <= q < head && #[trigger] island_step(w, c, queue@[q].0, b) ==> queued(queue@).contains(b),
            0 <= at_min_x < queue@.len() && queue@[at_min_x].0.x == min_x,
            0 <= at_max_x < queue@.len() && queue@[at_max_x].0.x == max_x,
            0 <= at_min_y < queue@.len() && queue@[at_min_y].0.y == min_y,
            0 <= at_max_y < queue@.len() && queue@[at_max_y].0.y == max_y,
            forall|q: int| 0 <= q < queue@.len() ==> min_x <= (#[trigger] queue@[q]).0.x <= max_x && min_y <= queue@[q].0.y <= max_y,
            max_x - min_x < MAX_BODY_EXTENT,
            max_y - min_y < MAX_BODY_EXTENT,
        decreases MAX_ISLAND_CELLS - head,
    {
        let (pos, material) = queue[head];
        if externally_supported(world, c, pos, material) {
            proof {
                assert(in_island(w, c, seed, pos)) by {
                    assert(island_path(w, c, paths[head as int]));
                }
            }
            return None;
        }
        proof {
            assert(w.contains_key(cell_key(pos)));
        }
        let mut d: usize = 0;
        while d < 4
            invariant
                w == world@,
                world_fits(w, c),
                rigid_at(w, c, seed),
                1 <= queue@.len() <= MAX_ISLAND_CELLS,
                queue@[0].0 == seed,
                0 <= head < queue@.len(),
                pos == queue@[head as int].0,
                material == queue@[head as int].1,
                i32::MIN < pos.x < i32::MAX && i32::MIN < pos.y < i32::MAX,
                0 <= d <= 4,
                forall|p: CellPos| visited@.contains(cell_key(p)) <==> queued(queue@).contains(p),
                forall|q: int| 0 <= q < queue@.len() ==> rigid_at(w, c, (#[trigger] queue@[q]).0) && queue@[q].1 == mat_at(w, queue@[q].0),
                forall|a: int, b: int| 0 <= a < b < queue@.len() ==> (#[trigger] queue@[a]).0 != (#[trigger] queue@[b]).0,
                paths.len() == queue@.len(),
                forall|q: int| 0 <= q < queue@.len() ==> island_path(w, c, #[trigger] paths[q]) && paths[q][0] == seed
                    && paths[q].last() == queue@[q].0,
                forall|q: int| 0 <= q <= head ==> !rests_outside(w, c, (#[trigger] queue@[q]).0),
                forall|q: int, b: CellPos| 0 <= q < head && #[trigger] island_step(w, c, queue@[q].0, b) ==> queued(queue@).contains(b),
                forall|dd: int, b: CellPos| #![trigger island_step(w, c, pos, b), unit(dd)] 0 <= dd < d && island_step(w, c, pos, b)
                    && b.x == pos.x + unit(dd).0 && b.y == pos.y + unit(dd).1 ==> queued(queue@).contains(b),
                0 <= at_min_x < queue@.len() && queue@[at_min_x].0.x == min_x,
                0 <= at_max_x < queue@.len() && queue@[at_max_x].0.x == max_x,
                0 <= at_min_y < queue@.len() && queue@[at_min_y].0.y == min_y,
                0 <= at_max_y < queue@.len() && queue@[at_max_y].0.y == max_y,
                forall|q: int| 0 <= q < queue@.len() ==> min_x <= (#[trigger] queue@[q]).0.x <= max_x && min_y <= queue@[q].0.y <= max_y,
                max_x - min_x < MAX_BODY_EXTENT,
                max_y - min_y < MAX_BODY_EXTENT,
            decreases 4 - d,
        {
            let step = unit_step(d);
            let next = CellPos { x: pos.x + step.0, y: pos.y + step.1 };
            if fx_contains(&visited, key_of(next)) {
                d = d + 1;
                continue;
            }
            let m = match rigid_probe(world, c, next) {
                Some(m) => m,
                None => {
                    d = d + 1;
                    continue;
                },
            };
            if !c.bonds[material.0 as usize][m.0 as usize] {
                d = d + 1;
                continue;
            }
            let ghost grown = paths[head as int].push(next);
            proof {
                assert(island_step(w, c, pos, next));
                assert(island_path(w, c, grown)) by {
                    let pc = paths[head as int];
                    assert(island_path(w, c, pc));
                    assert forall|a: int, b: int| 0 <= a && b == a + 1 && b < grown.len()
                        implies island_step(w, c, #[trigger] grown[a], #[trigger] grown[b]) by {
                        if b < pc.len() {
                            assert(grown[a] == pc[a] && grown[b] == pc[b]);
                        }
                    }
                }
                assert(in_island(w, c, seed, next));
                assert(in_island(w, c, seed, queue@[at_min_x].0)) by { assert(island_path(w, c, paths[at_min_x])); }
                assert(in_island(w, c, seed, queue@[at_max_x].0)) by { assert(island_path(w, c, paths[at_max_x])); }
                assert(in_island(w, c, seed, queue@[at_min_y].0)) by { assert(island_path(w, c, paths[at_min_y])); }
                assert(in_island(w, c, seed, queue@[at_max_y].0)) by { assert(island_path(w, c, paths[at_max_y])); }
            }
            let nmin_x = if next.x < min_x { next.x } else { min_x };
            let nmax_x = if next.x > max_x { next.x } else { max_x };
            let nmin_y = if next.y < min_y { next.y } else { min_y };
            let nmax_y = if next.y > max_y { next.y } else { max_y };
            if nmax_x as i64 - nmin_x as i64 >= MAX_BODY_EXTENT as i64 || nmax_y as i64 - nmin_y as i64 >= MAX_BODY_EXTENT as i64
                || queue.len() >= MAX_ISLAND_CELLS {
                proof {
                    if queue@.len() >= MAX_ISLAND_CELLS {
                        let s = queued(queue@).push(next);
                        assert(!queued(queue@).contains(next));
                        assert(s.no_duplicates()) by {
                            assert forall|a: int, b: int| 0 <= a < s.len() && 0 <= b < s.len() && a != b implies s[a] != s[b] by {
                                if a < queue@.len() && b < queue@.len() {
                                    assert(s[a] == queue@[a].0 && s[b] == queue@[b].0);
                                    if a < b {
                                        assert(queue@[a].0 != queue@[b].0);
                                    } else {
                                        assert(queue@[b].0 != queue@[a].0);
                                    }
                                } else if a < queue@.len() {
                                    assert(s[a] == queued(queue@)[a]);
                                } else if b < queue@.len() {
                                    assert(s[b] == queued(queue@)[b]);
                                }
                            }
                        }
                        assert forall|i: int| 0 <= i < s.len() implies in_island(w, c, seed, #[trigger] s[i]) by {
                            if i < queue@.len() {
                                assert(s[i] == queue@[i].0);
                                assert(island_path(w, c, paths[i]));
                            }
                        }
                        assert(island_crowded(w, c, seed));
                    } else if nmax_x as i64 - nmin_x as i64 >= MAX_BODY_EXTENT as i64 {
                        let a = if next.x < min_x { next } else { queue@[at_min_x].0 };
                        let b = if next.x > max_x { next } else { queue@[at_max_x].0 };
                        assert(in_island(w, c, seed, a) && in_island(w, c, seed, b));
                        assert(island_spread(w, c, seed));
                    } else {
                        let a = if next.y < min_y { next } else { queue@[at_min_y].0 };
                        let b = if next.y > max_y { next } else { queue@[at_max_y].0 };
                        assert(in_island(w, c, seed, a) && in_island(w, c, seed, b));
                        assert(island_spread(w, c, seed));
                    }
                }
                return None;
            }
            let ghost before = queue@;
            let ghost visited_before = visited@;
            fx_insert(&mut visited, key_of(next));
            queue.push((next, m));
            proof {
                assert(queued(queue@) == queued(before).push(next));
                paths = paths.push(grown);
                let n = before.len() as int;
                if next.x < min_x { at_min_x = n; }
                if next.x > max_x { at_max_x = n; }
                if next.y < min_y { at_min_y = n; }
                if next.y > max_y { at_max_y = n; }
                assert forall|p: CellPos| visited@.contains(cell_key(p)) <==> queued(queue@).contains(p) by {
                    lemma_contains_push(queued(before), next, p);
                    if cell_key(p) == cell_key(next) {
                        lemma_cell_key_injective(p, next);
                    }
                }
                assert(!queued(before).contains(next));
                assert forall|a: int, b: int| 0 <= a < b < queue@.len() implies (#[trigger] queue@[a]).0 != (#[trigger] queue@[b]).0 by {
                    if b == n {
                        assert(queue@[a] == before[a]);
                        assert(queued(before)[a] == before[a].0);
                        if before[a].0 == next {
                            assert(queued(before).contains(next));
                        }
                    } else {
                        assert(queue@[a] == before[a] && queue@[b] == before[b]);
                    }
                }
                assert forall|q: int, bb: CellPos| 0 <= q < head && #[trigger] island_step(w, c, queue@[q].0, bb) implies queued(queue@).contains(bb) by {
                    assert(queue@[q] == before[q]);
                    lemma_contains_push(queued(before), next, bb);
                }
                assert forall|dd: int, bb: CellPos| #![trigger island_step(w, c, pos, bb), unit(dd)] 0 <= dd < d + 1 && island_step(w, c, pos, bb)
                    && bb.x == pos.x + unit(dd).0 && bb.y == pos.y + unit(dd).1 implies queued(queue@).contains(bb) by {
                    lemma_contains_push(queued(before), next, bb);
                }
            }
            min_x = nmin_x;
            max_x = nmax_x;
            min_y = nmin_y;
            max_y = nmax_y;
            d = d + 1;
        }
        proof {
            assert forall|q: int, b: CellPos| 0 <= q < head + 1 && #[trigger] island_step(w, c, queue@[q].0, b)
                implies queued(queue@).contains(b) by {
                if q == head {
                    if b.x == pos.x + 1 && b.y == pos.y {
                        assert(unit(0) == (1int, 0int));
                    } else if b.x == pos.x - 1 && b.y == pos.y {
                        assert(unit(1) == (-1int, 0int));
                    } else if b.x == pos.x && b.y == pos.y + 1 {
                        assert(unit(2) == (0int, 1int));
                    } else {
                        assert(unit(3) == (0int, -1int));
                    }
                }
            }
        }
        head = head + 1;
    }
    let mut cells: Vec<CellPos> = Vec::new();
    let mut q: usize = 0;
    while q < queue.len()
        invariant
            0 <= q <= queue@.len(),
            cells@ == queued(queue@).subrange(0, q as int),
        decreases queue@.len() - q,
    {
        cells.push(queue[q].0);
        proof {
            assert(queued(queue@).subrange(0, q + 1) =~= queued(queue@).subrange(0, q as int).push(queue@[q as int].0));
        }
        q = q + 1;
    }
    let sorted = sort_rows(cells);
    proof {
        broadcast use vstd::seq_lib::group_to_multiset_ensures;
        let all = queued(queue@);
        assert(cells@ =~= all);
        let inside = all.to_set();
        assert forall|x: CellPos| in_island(w, c, seed, x) <==> all.contains(x) by {
            if all.contains(x) {
                let i = choose|i: int| 0 <= i < all.len() && all[i] == x;
                assert(all[i] == queue@[i].0);
                assert(island_path(w, c, paths[i]));
            }
            if in_island(w, c, seed, x) {
                let p = choose|p: Seq<CellPos>| #[trigger] island_path(w, c, p) && p[0] == seed && p.last() == x;
                assert(all[0] == seed);
                assert forall|a: CellPos, b: CellPos| inside.contains(a) && #[trigger] island_step(w, c, a, b) implies inside.contains(b) by {
                    let i = choose|i: int| 0 <= i < all.len() && all[i] == a;
                    assert(all[i] == queue@[i].0);
                }
                lemma_closed_walk(w, c, inside, p, p.len() - 1);
            }
        }
        assert(!island_rests(w, c, seed)) by {
            if island_rests(w, c, seed) {
                let x = choose|x: CellPos| #[trigger] in_island(w, c, seed, x) && rests_outside(w, c, x);
                assert(all.contains(x));
                let i = choose|i: int| 0 <= i < all.len() && all[i] == x;
                assert(all[i] == queue@[i].0);
            }
        }
        assert(!island_spread(w, c, seed)) by {
            if island_spread(w, c, seed) {
                let (a, b) = choose|a: CellPos, b: CellPos| #[trigger] in_island(w, c, seed, a) && #[trigger] in_island(w, c, seed, b)
                    && (b.x - a.x >= MAX_BODY_EXTENT || b.y - a.y >= MAX_BODY_EXTENT);
                assert(all.contains(a) && all.contains(b));
                let i = choose|i: int| 0 <= i < all.len() && all[i] == a;
                let j = choose|j: int| 0 <= j < all.len() && all[j] == b;
                assert(all[i] == queue@[i].0 && all[j] == queue@[j].0);
            }
        }
        assert(!island_crowded(w, c, seed)) by {
            if island_crowded(w, c, seed) {
                let s = choose|s: Seq<CellPos>| s.len() == MAX_ISLAND_CELLS + 1 && #[trigger] s.no_duplicates()
                    && forall|i: int| 0 <= i < s.len() ==> in_island(w, c, seed, #[trigger] s[i]);
                assert forall|i: int| 0 <= i < s.len() implies all.contains(#[trigger] s[i]) by {
                    assert(in_island(w, c, seed, s[i]));
                }
                lemma_too_many(s, all);
            }
        }
        assert(all.no_duplicates()) by {
            assert forall|a: int, b: int| 0 <= a < all.len() && 0 <= b < all.len() && a != b implies all[a] != all[b] by {
                assert(all[a] == queue@[a].0 && all[b] == queue@[b].0);
                if a < b {
                    assert(queue@[a].0 != queue@[b].0);
                } else {
                    assert(queue@[b].0 != queue@[a].0);
                }
            }
        }
        all.lemma_multiset_has_no_duplicates();
        sorted@.lemma_multiset_has_no_duplicates_conv();
        assert forall|x: CellPos| sorted@.contains(x) <==> all.contains(x) by {
            assert(sorted@.to_multiset().count(x) == all.to_multiset().count(x));
        }
        assert(sorted@.no_duplicates());
        assert(row_sorted(sorted@));
        assert forall|x: CellPos| sorted@.contains(x) <==> in_island(w, c, seed, x) by {
            assert(sorted@.contains(x) <==> all.contains(x));
            assert(in_island(w, c, seed, x) <==> all.contains(x));
        }
    }
    Some(sorted)
}

proof fn lemma_count_free_pos(labels: Seq<usize>, j: int)
    requires
        0 <= j < labels.len(),
        labels[j] == usize::MAX,
    ensures
        count_free(labels) >= 1,
    decreases labels.len(),
{
    if j < labels.len() - 1 {
        lemma_count_free_pos(labels.drop_last(), j);
    }
}

proof fn lemma_all_free(labels: Seq<usize>)
    requires
        forall|i: int| 0 <= i < labels.len() ==> #[trigger] labels[i] == usize::MAX,
    ensures
        count_free(labels) == labels.len(),
    decreases labels.len(),
{
    if labels.len() > 0 {
        lemma_all_free(labels.drop_last());
    }
}

} // verus!
