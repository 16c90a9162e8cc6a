//! Topology-first shell assembly: the half-edges of all faces are grouped by
//! the quantized positions of their two ends, paired within each group, and
//! the faces rebuilt so that each pair shares one edge.
use vstd::prelude::*;
use crate::topology::{EdgeUse, FaceTopo, FaceView, HalfEdgeRecord, half_edge_table, views, table_upto, face_records, face_records_upto, wire_records, wires_of, build_half_edge_table, lemma_flatten_new_step};
use crate::open_loops::{is_closed_chain, closed_chain};
use crate::id::{IdSequence, next_sequential_id, successor_n};
use crate::diagnostics::BooleanStageError;
use crate::text::{decimal, push_decimal};

verus! {

/// Lexicographic order on quantized positions.
pub open spec fn qpos_lt(a: (i64, i64, i64), b: (i64, i64, i64)) -> bool {
    a.0 < b.0 || (a.0 == b.0 && (a.1 < b.1 || (a.1 == b.1 && a.2 < b.2)))
}

/// The key of an edge group: the two quantized end positions, smaller first.
pub open spec fn group_key(a: (i64, i64, i64), b: (i64, i64, i64)) -> ((i64, i64, i64), (i64, i64, i64)) {
    if a == b || qpos_lt(a, b) {
        (a, b)
    } else {
        (b, a)
    }
}

/// Lexicographic order on group keys.
pub open spec fn key_lt(k1: ((i64, i64, i64), (i64, i64, i64)), k2: ((i64, i64, i64), (i64, i64, i64))) -> bool {
    qpos_lt(k1.0, k2.0) || (k1.0 == k2.0 && qpos_lt(k1.1, k2.1))
}

proof fn lemma_key_lt_facts(k1: ((i64, i64, i64), (i64, i64, i64)), k2: ((i64, i64, i64), (i64, i64, i64)), k3: ((i64, i64, i64), (i64, i64, i64)))
    ensures
        key_lt(k1, k2) && key_lt(k2, k3) ==> key_lt(k1, k3),
        !key_lt(k1, k1),
        key_lt(k1, k2) ==> !key_lt(k2, k1),
        k1 == k2 || key_lt(k1, k2) || key_lt(k2, k1),
{
}

/// Whether `a` comes before `b`.
fn qpos_less(a: (i64, i64, i64), b: (i64, i64, i64)) -> (r: bool)
    ensures
        r == qpos_lt(a, b),
{
    a.0 < b.0 || (a.0 == b.0 && (a.1 < b.1 || (a.1 == b.1 && a.2 < b.2)))
}

/// Whether two positions are equal.
fn qpos_eq(a: (i64, i64, i64), b: (i64, i64, i64)) -> (r: bool)
    ensures
        r == (a == b),
{
    a.0 == b.0 && a.1 == b.1 && a.2 == b.2
}

/// The key of the edge group of a half-edge with quantized ends `a` and `b`.
pub fn edge_group_key(a: (i64, i64, i64), b: (i64, i64, i64)) -> (r: ((i64, i64, i64), (i64, i64, i64)))
    ensures
        r == group_key(a, b),
{
    if qpos_eq(a, b) || qpos_less(a, b) {
        (a, b)
    } else {
        (b, a)
    }
}

/// Whether key `k1` comes before key `k2`.
fn key_less(k1: ((i64, i64, i64), (i64, i64, i64)), k2: ((i64, i64, i64), (i64, i64, i64))) -> (r: bool)
    ensures
        r == key_lt(k1, k2),
{
    qpos_less(k1.0, k2.0) || (qpos_eq(k1.0, k2.0) && qpos_less(k1.1, k2.1))
}

/// Whether two keys are equal.
fn key_eq(k1: ((i64, i64, i64), (i64, i64, i64)), k2: ((i64, i64, i64), (i64, i64, i64))) -> (r: bool)
    ensures
        r == (k1 == k2),
{
    qpos_eq(k1.0, k2.0) && qpos_eq(k1.1, k2.1)
}

/// The group key of half-edge `i` from its quantized ends.
pub open spec fn key_of(ends: Seq<((i64, i64, i64), (i64, i64, i64))>, i: int) -> ((i64, i64, i64), (i64, i64, i64)) {
    group_key(ends[i].0, ends[i].1)
}

/// `groups` groups the half-edges by key: each group is nonempty, its members
/// share a key and come in increasing order, the groups come in increasing
/// order of key, and every half-edge lies in a group.
pub open spec fn is_grouping(ends: Seq<((i64, i64, i64), (i64, i64, i64))>, groups: Seq<Seq<usize>>) -> bool {
    &&& forall|g: int| 0 <= g < groups.len() ==> (#[trigger] groups[g]).len() > 0
    &&& forall|g: int, k: int|
        0 <= g < groups.len() && 0 <= k < groups[g].len() ==> #[trigger] groups[g][k] < ends.len() && key_of(
            ends,
            groups[g][k] as int,
        ) == key_of(ends, groups[g][0] as int)
    &&& forall|g: int, k1: int, k2: int|
        0 <= g < groups.len() && 0 <= k1 < k2 < groups[g].len() ==> #[trigger] groups[g][k1] < #[trigger] groups[g][k2]
    &&& forall|g1: int, g2: int|
        0 <= g1 < g2 < groups.len() ==> key_lt(
            key_of(ends, (#[trigger] groups[g1])[0] as int),
            key_of(ends, (#[trigger] groups[g2])[0] as int),
        )
    &&& forall|i: int| 0 <= i < ends.len() ==> #[trigger] in_some_group(groups, i)
}

/// Half-edge `i` lies in one of the groups.
pub open spec fn in_some_group(groups: Seq<Seq<usize>>, i: int) -> bool {
    exists|g: int, k: int| 0 <= g < groups.len() && 0 <= k < groups[g].len() && #[trigger] groups[g][k] == i
}

/// The distinct keys, in increasing order.
fn sorted_keys(keys: &Vec<((i64, i64, i64), (i64, i64, i64))>) -> (r: Vec<((i64, i64, i64), (i64, i64, i64))>)
    ensures
        forall|a: int, b: int| 0 <= a < b < r@.len() ==> key_lt(#[trigger] r@[a], #[trigger] r@[b]),
        forall|x: ((i64, i64, i64), (i64, i64, i64))| r@.contains(x) <==> keys@.contains(x),
{
    let mut out: Vec<((i64, i64, i64), (i64, i64, i64))> = Vec::new();
    let mut i: usize = 0;
    while i < keys.len()
        invariant
            i <= keys@.len(),
            forall|a: int, b: int| 0 <= a < b < out@.len() ==> key_lt(#[trigger] out@[a], #[trigger] out@[b]),
            forall|x: ((i64, i64, i64), (i64, i64, i64))| out@.contains(x) <==> keys@.take(i as int).contains(x),
        decreases keys@.len() - i,
    {
        let k = keys[i];
        let mut p: usize = 0;
        while p < out.len() && key_less(out[p], k)
            invariant
                p <= out@.len(),
                forall|a: int| 0 <= a < p ==> key_lt(out@[a], k),
            decreases out@.len() - p,
        {
            p = p + 1;
        }
        let ghost before = out@;
        proof {
            assert(keys@.take(i + 1) =~= keys@.take(i as int).push(k));
        }
        if p < out.len() && key_eq(out[p], k) {
            proof {
                assert forall|x: ((i64, i64, i64), (i64, i64, i64))| out@.contains(x) <==> keys@.take(i + 1).contains(x) by {
                    lemma_push_contains_key(keys@.take(i as int), k, x);
                    if x == k {
                        assert(out@[p as int] == k);
                    }
                }
            }
        } else {
            out.insert(p, k);
            proof {
                assert forall|a: int, b: int| 0 <= a < b < out@.len() implies key_lt(#[trigger] out@[a], #[trigger] out@[b]) by {
                    if b < p {
                        assert(out@[a] == before[a] && out@[b] == before[b]);
                    } else if b == p {
                        assert(out@[a] == before[a]);
                    } else if a < p {
                        assert(out@[a] == before[a] && out@[b] == before[b - 1]);
                        lemma_key_lt_facts(before[a], k, before[b - 1]);
                        assert(key_lt(before[a], k));
                        lemma_key_lt_facts(k, before[p as int], before[b - 1]);
                        if b - 1 > p {
                            assert(key_lt(before[p as int], before[b - 1]));
                        }
                        lemma_key_lt_facts(before[p as int], k, k);
                        assert(key_lt(k, before[p as int]));
                    } else if a == p {
                        assert(out@[b] == before[b - 1]);
                        lemma_key_lt_facts(before[p as int], k, k);
                        assert(key_lt(k, before[p as int]));
                        if b - 1 > p {
                            assert(key_lt(before[p as int], before[b - 1]));
                            lemma_key_lt_facts(k, before[p as int], before[b - 1]);
                        }
                    } else {
                        assert(out@[a] == before[a - 1] && out@[b] == before[b - 1]);
                    }
                }
                assert forall|x: ((i64, i64, i64), (i64, i64, i64))| out@.contains(x) <==> keys@.take(i + 1).contains(x) by {
                    lemma_push_contains_key(keys@.take(i as int), k, x);
                    if before.contains(x) {
                        let j = choose|j: int| 0 <= j < before.len() && before[j] == x;
                        if j < p {
                            assert(out@[j] == x);
                        } else {
                            assert(out@[j + 1] == x);
                        }
                    }
                    if out@.contains(x) {
                        let j = choose|j: int| 0 <= j < out@.len() && out@[j] == x;
                        if j < p {
                            assert(before[j] == x);
                        } else if j > p {
                            assert(before[j - 1] == x);
                        }
                    }
                    assert(out@[p as int] == k);
                }
            }
        }
        i = i + 1;
    }
    assert(keys@.take(keys@.len() as int) =~= keys@);
    out
}

proof fn lemma_push_contains_key(s: Seq<((i64, i64, i64), (i64, i64, i64))>, e: ((i64, i64, i64), (i64, i64, i64)), x: ((i64, i64, i64), (i64, i64, i64)))
    ensures
        s.push(e).contains(x) <==> (s.contains(x) || x == e),
{
    if s.contains(x) {
        let k = choose|k: int| 0 <= k < s.len() && s[k] == x;
        assert(s.push(e)[k] == x);
    }
    if s.push(e).contains(x) {
        let k = choose|k: int| 0 <= k < s.push(e).len() && s.push(e)[k] == x;
        if k < s.len() {
            assert(s[k] == x);
        }
    }
    assert(s.push(e)[s.len() as int] == e);
}

/// The groups as sequences.
pub open spec fn groups_view(gs: Seq<Vec<usize>>) -> Seq<Seq<usize>> {
    gs.map_values(|g: Vec<usize>| g@)
}

/// The half-edges whose key is `k`, in increasing order.
fn members_with_key(
    keys: &Vec<((i64, i64, i64), (i64, i64, i64))>,
    k: ((i64, i64, i64), (i64, i64, i64)),
) -> (r: Vec<usize>)
    ensures
        forall|a: int| 0 <= a < r@.len() ==> #[trigger] r@[a] < keys@.len() && keys@[r@[a] as int] == k,
        forall|a: int, b: int| 0 <= a < b < r@.len() ==> #[trigger] r@[a] < #[trigger] r@[b],
        forall|j: int| 0 <= j < keys@.len() && keys@[j] == k ==> r@.contains(j as usize),
{
    let mut out: Vec<usize> = Vec::new();
    let mut i: usize = 0;
    while i < keys.len()
        invariant
            i <= keys@.len(),
            forall|a: int| 0 <= a < out@.len() ==> #[trigger] out@[a] < i && keys@[out@[a] as int] == k,
            forall|a: int, b: int| 0 <= a < b < out@.len() ==> #[trigger] out@[a] < #[trigger] out@[b],
            forall|j: int| 0 <= j < i && keys@[j] == k ==> out@.contains(j as usize),
        decreases keys@.len() - i,
    {
        if key_eq(keys[i], k) {
            let ghost before = out@;
            out.push(i);
            proof {
                assert forall|j: int| 0 <= j < i + 1 && keys@[j] == k implies out@.contains(j as usize) by {
                    if j < i {
                        let a = choose|a: int| 0 <= a < before.len() && before[a] == j as usize;
                        assert(out@[a] == j as usize);
                    } else {
                        assert(out@[before.len() as int] == j as usize);
                    }
                }
            }
        } else {
            proof {
                assert forall|j: int| 0 <= j < i + 1 && keys@[j] == k implies out@.contains(j as usize) by {
                    if j == i {
                        assert(keys@[j] != k);
                    }
                }
            }
        }
        i = i + 1;
    }
    out
}

/// Groups the half-edges by the key of their quantized ends (see
/// `is_grouping`): groups in increasing order of key, members in increasing
/// order.
pub fn group_by_vertex_pair(ends: &Vec<((i64, i64, i64), (i64, i64, i64))>) -> (r: Vec<Vec<usize>>)
    ensures
        is_grouping(ends@, groups_view(r@)),
        groups_disjoint(groups_view(r@)),
{
    let n = ends.len();
    let mut keys: Vec<((i64, i64, i64), (i64, i64, i64))> = Vec::new();
    let mut i: usize = 0;
    while i < ends.len()
        invariant
            i <= ends@.len(),
            keys@.len() == i,
            forall|j: int| 0 <= j < i ==> #[trigger] keys@[j] == key_of(ends@, j),
        decreases ends@.len() - i,
    {
        keys.push(edge_group_key(ends[i].0, ends[i].1));
        i = i + 1;
    }
    let sk = sorted_keys(&keys);
    let mut groups: Vec<Vec<usize>> = Vec::new();
    let mut c: usize = 0;
    while c < sk.len()
        invariant
            keys@.len() == ends@.len(),
            forall|j: int| 0 <= j < ends@.len() ==> #[trigger] keys@[j] == key_of(ends@, j),
            forall|a: int, b: int| 0 <= a < b < sk@.len() ==> key_lt(#[trigger] sk@[a], #[trigger] sk@[b]),
            forall|x: ((i64, i64, i64), (i64, i64, i64))| sk@.contains(x) <==> keys@.contains(x),
            c <= sk@.len(),
            groups@.len() == c,
            forall|g: int| 0 <= g < c ==> (#[trigger] groups@[g])@.len() > 0 && key_of(ends@, groups@[g]@[0] as int) == sk@[g],
            forall|g: int, k: int|
                0 <= g < c && 0 <= k < groups@[g]@.len() ==> #[trigger] groups@[g]@[k] < ends@.len() && keys@[groups@[g]@[k] as int]
                    == sk@[g],
            forall|g: int, k1: int, k2: int|
                0 <= g < c && 0 <= k1 < k2 < groups@[g]@.len() ==> #[trigger] groups@[g]@[k1] < #[trigger] groups@[g]@[k2],
            forall|g: int, j: int|
                #![trigger keys@[j], groups@[g]]
                0 <= g < c && 0 <= j < ends@.len() && keys@[j] == sk@[g] ==> groups@[g]@.contains(j as usize),
        decreases sk@.len() - c,
    {
        let members = members_with_key(&keys, sk[c]);
        proof {
            assert(sk@.contains(sk@[c as int]));
            let j = choose|j: int| 0 <= j < keys@.len() && keys@[j] == sk@[c as int];
            assert(members@.contains(j as usize));
            assert(members@.len() > 0);
            assert(keys@[members@[0] as int] == sk@[c as int]);
        }
        let ghost before = groups@;
        groups.push(members);
        proof {
            assert forall|g: int| 0 <= g < c + 1 implies (#[trigger] groups@[g])@.len() > 0 && key_of(ends@, groups@[g]@[0] as int)
                == sk@[g] by {
                if g < c {
                    assert(groups@[g] == before[g]);
                }
            }
            assert forall|g: int, k: int|
                0 <= g < c + 1 && 0 <= k < groups@[g]@.len() implies #[trigger] groups@[g]@[k] < ends@.len() && keys@[groups@[g]@[k] as int]
                    == sk@[g] by {
                if g < c {
                    assert(groups@[g] == before[g]);
                }
            }
            assert forall|g: int, k1: int, k2: int|
                0 <= g < c + 1 && 0 <= k1 < k2 < groups@[g]@.len() implies #[trigger] groups@[g]@[k1] < #[trigger] groups@[g]@[k2] by {
                if g < c {
                    assert(groups@[g] == before[g]);
                }
            }
            assert forall|g: int, j: int|
                #![trigger keys@[j], groups@[g]]
                0 <= g < c + 1 && 0 <= j < ends@.len() && keys@[j] == sk@[g] implies groups@[g]@.contains(j as usize) by {
                if g < c {
                    assert(groups@[g] == before[g]);
                }
            }
        }
        c = c + 1;
    }
    proof {
        assert(ends@.len() == n);
        let gv = groups_view(groups@);
        assert(gv.len() == groups@.len());
        assert forall|g: int| 0 <= g < gv.len() implies (#[trigger] gv[g]).len() > 0 by {
            assert(gv[g] == groups@[g]@);
        }
        assert forall|g: int, k: int|
            0 <= g < gv.len() && 0 <= k < gv[g].len() implies #[trigger] gv[g][k] < ends@.len() && key_of(ends@, gv[g][k] as int)
                == key_of(ends@, gv[g][0] as int) by {
            assert(gv[g] == groups@[g]@);
            assert(keys@[gv[g][k] as int] == sk@[g]);
        }
        assert forall|g: int, k1: int, k2: int|
            0 <= g < gv.len() && 0 <= k1 < k2 < gv[g].len() implies #[trigger] gv[g][k1] < #[trigger] gv[g][k2] by {
            assert(gv[g] == groups@[g]@);
        }
        assert forall|g1: int, g2: int| 0 <= g1 < g2 < gv.len() implies key_lt(
            key_of(ends@, (#[trigger] gv[g1])[0] as int),
            key_of(ends@, (#[trigger] gv[g2])[0] as int),
        ) by {
            assert(gv[g1] == groups@[g1]@);
            assert(gv[g2] == groups@[g2]@);
        }
        assert forall|i: int| 0 <= i < ends@.len() implies #[trigger] in_some_group(gv, i) by {
            assert(keys@.contains(keys@[i]));
            let g = choose|g: int| 0 <= g < sk@.len() && sk@[g] == keys@[i];
            assert(groups@[g]@.contains(i as usize));
            let k = choose|k: int| 0 <= k < groups@[g]@.len() && groups@[g]@[k] == i as usize;
            assert(gv[g] == groups@[g]@);
            assert(gv[g][k] == i);
        }
        lemma_grouping_disjoint(ends@, gv);
    }
    groups
}

/// No half-edge lies in two places of the groups.
pub open spec fn groups_disjoint(groups: Seq<Seq<usize>>) -> bool {
    forall|g1: int, k1: int, g2: int, k2: int|
        0 <= g1 < groups.len() && 0 <= k1 < groups[g1].len() && 0 <= g2 < groups.len() && 0 <= k2 < groups[g2].len()
            && (g1 != g2 || k1 != k2) ==> #[trigger] groups[g1][k1] != #[trigger] groups[g2][k2]
}

proof fn lemma_grouping_disjoint(ends: Seq<((i64, i64, i64), (i64, i64, i64))>, groups: Seq<Seq<usize>>)
    requires
        is_grouping(ends, groups),
    ensures
        groups_disjoint(groups),
{
    assert forall|g1: int, k1: int, g2: int, k2: int|
        0 <= g1 < groups.len() && 0 <= k1 < groups[g1].len() && 0 <= g2 < groups.len() && 0 <= k2 < groups[g2].len()
            && (g1 != g2 || k1 != k2) implies #[trigger] groups[g1][k1] != #[trigger] groups[g2][k2] by {
        if groups[g1][k1] == groups[g2][k2] {
            if g1 == g2 {
                if k1 < k2 {
                    assert(groups[g1][k1] < groups[g1][k2]);
                } else {
                    assert(groups[g1][k2] < groups[g1][k1]);
                }
            } else {
                let _ = groups[g1][0];
                let _ = groups[g2][0];
                assert(key_of(ends, groups[g1][k1] as int) == key_of(ends, groups[g1][0] as int));
                assert(key_of(ends, groups[g2][k2] as int) == key_of(ends, groups[g2][0] as int));
                lemma_key_lt_facts(key_of(ends, groups[g1][0] as int), key_of(ends, groups[g2][0] as int), key_of(ends, groups[g2][0] as int));
                if g1 < g2 {
                    assert(key_lt(key_of(ends, groups[g1][0] as int), key_of(ends, groups[g2][0] as int)));
                } else {
                    assert(key_lt(key_of(ends, groups[g2][0] as int), key_of(ends, groups[g1][0] as int)));
                }
            }
        }
    }
}

/// What pair `k` of group `g` gives its second half-edge: the first
/// half-edge and the pair's direction flag, or nothing when both already use
/// the same edge.
pub open spec fn pair_value(
    t: Seq<HalfEdgeRecord>,
    groups: Seq<Seq<usize>>,
    same_dir: Seq<Seq<bool>>,
    g: int,
    k: int,
) -> Option<(usize, bool)> {
    let a = groups[g][2 * k];
    let b = groups[g][2 * k + 1];
    if t[a as int].edge_use.edge == t[b as int].edge_use.edge {
        None
    } else {
        Some((a, same_dir[g][2 * k]))
    }
}

/// Half-edge `i` is the second of pair `k` of group `g`: within a group the
/// half-edges are paired in order, the (2k)-th with the (2k+1)-th.
pub open spec fn second_of_pair(groups: Seq<Seq<usize>>, g: int, k: int, i: int) -> bool {
    &&& 0 <= g < groups.len()
    &&& 0 <= k
    &&& 2 * k + 1 < groups[g].len()
    &&& groups[g][2 * k + 1] == i
}

/// The half-edge whose edge half-edge `i` takes, with the pair's direction
/// flag: set when `i` is the second of a pair whose first uses another edge.
pub open spec fn pair_of(t: Seq<HalfEdgeRecord>, groups: Seq<Seq<usize>>, same_dir: Seq<Seq<bool>>, i: int) -> Option<(usize, bool)> {
    if exists|g: int, k: int| #[trigger] second_of_pair(groups, g, k, i) {
        let (g, k) = choose|g: int, k: int| #[trigger] second_of_pair(groups, g, k, i);
        pair_value(t, groups, same_dir, g, k)
    } else {
        None
    }
}

/// Some group holds a single half-edge (an open edge).
pub open spec fn has_single(groups: Seq<Seq<usize>>) -> bool {
    exists|g: int| 0 <= g < groups.len() && (#[trigger] groups[g]).len() == 1
}

/// The direction flags as sequences.
pub open spec fn flags_view(fs: Seq<Vec<bool>>) -> Seq<Seq<bool>> {
    fs.map_values(|f: Vec<bool>| f@)
}

/// Pairs the half-edges of each group (see `pair_of`): in a group given in
/// radial order the (2k)-th and (2k+1)-th half-edges face each other, and the
/// second takes the first's edge, in the direction `same_dir[g][2k]` says,
/// unless both already use the same edge. The groups partition the
/// half-edges. Fails with the half-edge of the first group that holds only
/// one (an open edge). Returns, for every half-edge, what it takes.
pub fn pair_edge_groups(
    table: &Vec<HalfEdgeRecord>,
    groups: &Vec<Vec<usize>>,
    same_dir: &Vec<Vec<bool>>,
) -> (r: Result<Vec<Option<(usize, bool)>>, usize>)
    requires
        forall|g: int, k: int| 0 <= g < groups@.len() && 0 <= k < groups@[g]@.len() ==> #[trigger] groups@[g]@[k] < table@.len(),
        groups_disjoint(groups_view(groups@)),
        same_dir@.len() == groups@.len(),
        forall|g: int| 0 <= g < groups@.len() ==> (#[trigger] same_dir@[g])@.len() == groups@[g]@.len(),
    ensures
        r is Err <==> has_single(groups_view(groups@)),
        r matches Err(i) ==> exists|g: int|
            0 <= g < groups@.len() && (#[trigger] groups@[g])@.len() == 1 && groups@[g]@[0] == i && forall|h: int|
                0 <= h < g ==> (#[trigger] groups@[h])@.len() != 1,
        r matches Ok(rep) ==> rep@.len() == table@.len() && forall|i: int|
            0 <= i < table@.len() ==> #[trigger] rep@[i] == pair_of(table@, groups_view(groups@), flags_view(same_dir@), i),
{
    let ghost gv = groups_view(groups@);
    let ghost sv = flags_view(same_dir@);
    let ghost t = table@;
    let n = table.len();
    let mut rep: Vec<Option<(usize, bool)>> = Vec::new();
    let mut i: usize = 0;
    while i < n
        invariant
            i <= n,
            rep@.len() == i,
            forall|j: int| 0 <= j < i ==> rep@[j] is None,
        decreases n - i,
    {
        rep.push(None);
        i = i + 1;
    }
    let mut c: usize = 0;
    while c < groups.len()
        invariant
            n == t.len(),
            t == table@,
            gv == groups_view(groups@),
            sv == flags_view(same_dir@),
            forall|g: int, k: int| 0 <= g < groups@.len() && 0 <= k < groups@[g]@.len() ==> #[trigger] groups@[g]@[k] < n,
            groups_disjoint(gv),
            same_dir@.len() == groups@.len(),
            forall|g: int| 0 <= g < groups@.len() ==> (#[trigger] same_dir@[g])@.len() == groups@[g]@.len(),
            c <= groups@.len(),
            rep@.len() == n,
            forall|h: int| 0 <= h < c ==> (#[trigger] groups@[h])@.len() != 1,
            forall|g: int, k: int|
                0 <= g < c && #[trigger] second_of_pair(gv, g, k, gv[g][2 * k + 1] as int) ==> rep@[gv[g][2 * k + 1] as int]
                    == pair_value(t, gv, sv, g, k),
            forall|j: int|
                0 <= j < n && rep@[j] is Some ==> exists|g: int, k: int| 0 <= g < c && #[trigger] second_of_pair(gv, g, k, j),
        decreases groups@.len() - c,
    {
        let s = &groups[c];
        let m = s.len();
        assert(gv[c as int] == s@);
        if m == 1 {
            proof {
                assert(groups@[c as int]@.len() == 1);
                assert(gv[c as int].len() == 1);
            }
            return Err(s[0]);
        }
        let mut j: usize = 0;
        while j + 1 < m
            invariant
                n == t.len(),
                t == table@,
                gv == groups_view(groups@),
                sv == flags_view(same_dir@),
                forall|g: int, k: int| 0 <= g < groups@.len() && 0 <= k < groups@[g]@.len() ==> #[trigger] groups@[g]@[k] < n,
                groups_disjoint(gv),
                same_dir@.len() == groups@.len(),
                forall|g: int| 0 <= g < groups@.len() ==> (#[trigger] same_dir@[g])@.len() == groups@[g]@.len(),
                c < groups@.len(),
                *s == groups@[c as int],
                gv[c as int] == s@,
                m == s@.len(),
                j % 2 == 0,
                j <= m,
                rep@.len() == n,
                forall|g: int, k: int|
                    (0 <= g < c || (g == c && 2 * k < j)) && #[trigger] second_of_pair(gv, g, k, gv[g][2 * k + 1] as int)
                        ==> rep@[gv[g][2 * k + 1] as int] == pair_value(t, gv, sv, g, k),
                forall|x: int|
                    0 <= x < n && rep@[x] is Some ==> exists|g: int, k: int|
                        (0 <= g < c || (g == c && 2 * k < j)) && #[trigger] second_of_pair(gv, g, k, x),
            decreases m - j,
        {
            let a = s[j];
            let b = s[j + 1];
            let ghost k0: int = j as int / 2;
            assert(2 * k0 == j);
            assert(second_of_pair(gv, c as int, k0, b as int));
            let ghost before = rep@;
            proof {
                if before[b as int] is Some {
                    let (g, k) = choose|g: int, k: int|
                        (0 <= g < c || (g == c && 2 * k < j)) && #[trigger] second_of_pair(gv, g, k, b as int);
                    assert(gv[g][2 * k + 1] == gv[c as int][2 * k0 + 1]);
                }
            }
            if table[a].edge_use.edge != table[b].edge_use.edge {
                rep.set(b, Some((a, same_dir[c][j])));
            }
            proof {
                assert(rep@[b as int] == pair_value(t, gv, sv, c as int, k0));
                assert forall|g: int, k: int|
                    (0 <= g < c || (g == c && 2 * k < j + 2)) && #[trigger] second_of_pair(gv, g, k, gv[g][2 * k + 1] as int)
                        implies rep@[gv[g][2 * k + 1] as int] == pair_value(t, gv, sv, g, k) by {
                    if g == c && k == k0 {
                    } else {
                        assert(gv[g][2 * k + 1] != gv[c as int][2 * k0 + 1]);
                        assert(rep@[gv[g][2 * k + 1] as int] == before[gv[g][2 * k + 1] as int]);
                    }
                }
                assert forall|x: int| 0 <= x < n && rep@[x] is Some implies exists|g: int, k: int|
                    (0 <= g < c || (g == c && 2 * k < j + 2)) && #[trigger] second_of_pair(gv, g, k, x) by {
                    if x == b as int {
                        assert(second_of_pair(gv, c as int, k0, x));
                    } else {
                        assert(rep@[x] == before[x]);
                        let (g, k) = choose|g: int, k: int|
                            (0 <= g < c || (g == c && 2 * k < j)) && #[trigger] second_of_pair(gv, g, k, x);
                        assert(second_of_pair(gv, g, k, x));
                    }
                }
            }
            j = j + 2;
        }
        proof {
            assert forall|g: int, k: int|
                0 <= g < c + 1 && #[trigger] second_of_pair(gv, g, k, gv[g][2 * k + 1] as int) implies rep@[gv[g][2 * k + 1] as int]
                    == pair_value(t, gv, sv, g, k) by {
                if g == c {
                    assert(2 * k + 1 < m);
                    assert(2 * k < j);
                }
            }
            assert forall|x: int| 0 <= x < n && rep@[x] is Some implies exists|g: int, k: int|
                0 <= g < c + 1 && #[trigger] second_of_pair(gv, g, k, x) by {
                let (g, k) = choose|g: int, k: int| (0 <= g < c || (g == c && 2 * k < j)) && #[trigger] second_of_pair(gv, g, k, x);
                assert(second_of_pair(gv, g, k, x));
            }
            assert forall|h: int| 0 <= h < c + 1 implies (#[trigger] groups@[h])@.len() != 1 by {
                if h == c {
                    assert(groups@[h] == *s);
                }
            }
        }
        c = c + 1;
    }
    proof {
        assert(!has_single(gv)) by {
            if has_single(gv) {
                let g = choose|g: int| 0 <= g < gv.len() && (#[trigger] gv[g]).len() == 1;
                assert(gv[g] == groups@[g]@);
            }
        }
        assert forall|i: int| 0 <= i < t.len() implies #[trigger] rep@[i] == pair_of(t, gv, sv, i) by {
            if exists|g: int, k: int| #[trigger] second_of_pair(gv, g, k, i) {
                let (g, k) = choose|g: int, k: int| #[trigger] second_of_pair(gv, g, k, i);
                assert(gv[g][2 * k + 1] == i);
                assert(second_of_pair(gv, g, k, gv[g][2 * k + 1] as int));
            } else {
                if rep@[i] is Some {
                    let (g, k) = choose|g: int, k: int| 0 <= g < groups@.len() && #[trigger] second_of_pair(gv, g, k, i);
                }
            }
        }
    }
    Ok(rep)
}

/// The start of a use along the edge's own direction.
pub open spec fn abs_front(u: EdgeUse) -> u64 {
    if u.forward {
        u.front
    } else {
        u.back
    }
}

/// The end of a use along the edge's own direction.
pub open spec fn abs_back(u: EdgeUse) -> u64 {
    if u.forward {
        u.back
    } else {
        u.front
    }
}

/// The use that half-edge `i` gets: its own, or, when it takes the edge of
/// half-edge `a` with direction flag `sd`, that edge — along the edge's own
/// direction when `sd` equals the use's own direction flag, against it
/// otherwise.
pub open spec fn replaced_use(t: Seq<HalfEdgeRecord>, rep: Seq<Option<(usize, bool)>>, i: int) -> EdgeUse {
    match rep[i] {
        None => t[i].edge_use,
        Some((a, sd)) => {
            let ua = t[a as int].edge_use;
            if sd == t[i].edge_use.forward {
                EdgeUse { edge: ua.edge, front: abs_front(ua), back: abs_back(ua), forward: true }
            } else {
                EdgeUse { edge: ua.edge, front: abs_back(ua), back: abs_front(ua), forward: false }
            }
        },
    }
}

/// The position in the half-edge table of the first use of wire `w` of face `f`.
pub open spec fn wire_offset(fv: Seq<FaceView>, f: int, w: int) -> int {
    (table_upto(fv, f).len() + face_records_upto(f, fv[f].wires, w).len()) as int
}

/// The wires of face `f` with every use replaced (see `replaced_use`).
pub open spec fn new_wires(fv: Seq<FaceView>, rep: Seq<Option<(usize, bool)>>, f: int) -> Seq<Seq<EdgeUse>> {
    Seq::new(
        fv[f].wires.len(),
        |w: int| Seq::new(fv[f].wires[w].len(), |e: int| replaced_use(half_edge_table(fv), rep, wire_offset(fv, f, w) + e)),
    )
}

/// Use `e` of wire `w` of face `f` is replaced.
pub open spec fn use_replaced(fv: Seq<FaceView>, rep: Seq<Option<(usize, bool)>>, f: int, w: int, e: int) -> bool {
    rep[wire_offset(fv, f, w) + e] is Some
}

/// Some use of face `f` is replaced.
pub open spec fn face_replaced(fv: Seq<FaceView>, rep: Seq<Option<(usize, bool)>>, f: int) -> bool {
    exists|w: int, e: int| 0 <= w < fv[f].wires.len() && 0 <= e < fv[f].wires[w].len() && #[trigger] use_replaced(fv, rep, f, w, e)
}

/// Face `f` is rebuilt as a new face: some use of it is replaced, it has a
/// wire, and all its replaced wires are closed chains.
pub open spec fn is_rebuilt(fv: Seq<FaceView>, rep: Seq<Option<(usize, bool)>>, f: int) -> bool {
    let nw = new_wires(fv, rep, f);
    face_replaced(fv, rep, f) && nw.len() > 0 && forall|w: int| 0 <= w < nw.len() ==> is_closed_chain(#[trigger] nw[w])
}

/// The wires face `f` ends up with: the replaced ones when it is rebuilt,
/// else its own.
pub open spec fn rebuilt_wires(fv: Seq<FaceView>, rep: Seq<Option<(usize, bool)>>, f: int) -> Seq<Seq<EdgeUse>> {
    if is_rebuilt(fv, rep, f) {
        new_wires(fv, rep, f)
    } else {
        fv[f].wires
    }
}

/// How many of the first `n` faces are rebuilt.
pub open spec fn rebuilt_before(fv: Seq<FaceView>, rep: Seq<Option<(usize, bool)>>, n: int) -> nat
    decreases n,
{
    if n <= 0 {
        0
    } else {
        rebuilt_before(fv, rep, n - 1) + if is_rebuilt(fv, rep, n - 1) {
            1nat
        } else {
            0nat
        }
    }
}

/// The identity face `f` ends up with: a fresh one from the sequence, in
/// order, when it is rebuilt, else its own.
pub open spec fn rebuilt_id(fv: Seq<FaceView>, rep: Seq<Option<(usize, bool)>>, f: int, seq0: u64) -> u64 {
    if is_rebuilt(fv, rep, f) {
        successor_n(seq0, rebuilt_before(fv, rep, f))
    } else {
        fv[f].id
    }
}

pub(crate) proof fn lemma_table_upto_mono(fv: Seq<FaceView>, f: int, n: int)
    requires
        0 <= f <= n <= fv.len(),
    ensures
        table_upto(fv, f).len() <= table_upto(fv, n).len(),
    decreases n - f,
{
    if f < n {
        lemma_table_upto_mono(fv, f, n - 1);
        let g = |x: int| face_records(x, fv[x]);
        lemma_flatten_new_step((n - 1) as nat, g);
    }
}

/// Rebuilds the faces after pairing: every use is replaced as `rep` says
/// (see `replaced_use`), and a face keeps the replaced wires when it has a
/// wire and all of them are closed chains, its own wires otherwise.
pub fn apply_pairings(faces: &[FaceTopo], rep: &Vec<Option<(usize, bool)>>, seq: &mut IdSequence) -> (r: Vec<FaceTopo>)
    requires
        rep@.len() == half_edge_table(views(faces@)).len(),
        forall|i: int| 0 <= i < rep@.len() ==> (#[trigger] rep@[i] matches Some((a, _)) ==> a < rep@.len()),
    ensures
        r@.len() == faces@.len(),
        forall|f: int|
            0 <= f < faces@.len() ==> (#[trigger] r@[f]).id == rebuilt_id(views(faces@), rep@, f, old(seq).value())
                && r@[f]@.wires == rebuilt_wires(views(faces@), rep@, f),
        final(seq).value() == successor_n(old(seq).value(), rebuilt_before(views(faces@), rep@, faces@.len() as int)),
{
    let ghost fv = views(faces@);
    let table = build_half_edge_table(faces);
    let ghost t = table@;
    let tn = table.len();
    let mut out: Vec<FaceTopo> = Vec::new();
    let mut k: usize = 0;
    let mut fi: usize = 0;
    proof {
        lemma_table_upto_mono(fv, 0, fv.len() as int);
    }
    while fi < faces.len()
        invariant
            fi <= faces@.len(),
            fv == views(faces@),
            t == half_edge_table(fv),
            table@ == t,
            tn == t.len(),
            rep@.len() == t.len(),
            forall|i: int| 0 <= i < rep@.len() ==> (#[trigger] rep@[i] matches Some((a, _)) ==> a < rep@.len()),
            k == table_upto(fv, fi as int).len(),
            out@.len() == fi,
            forall|f: int|
                0 <= f < fi ==> (#[trigger] out@[f]).id == rebuilt_id(fv, rep@, f, old(seq).value()) && out@[f]@.wires
                    == rebuilt_wires(fv, rep@, f),
            seq.value() == successor_n(old(seq).value(), rebuilt_before(fv, rep@, fi as int)),
        decreases faces@.len() - fi,
    {
        let face = &faces[fi];
        let ghost wires = wires_of(*face);
        assert(fv[fi as int].wires == wires);
        proof {
            lemma_table_upto_mono(fv, fi + 1, fv.len() as int);
            let g = |x: int| face_records(x, fv[x]);
            lemma_flatten_new_step(fi as nat, g);
        }
        let mut nws: Vec<Vec<EdgeUse>> = Vec::new();
        let mut all_closed = true;
        let mut any = false;
        let mut wi: usize = 0;
        while wi < face.boundaries.len()
            invariant
                fi < faces@.len(),
                fv == views(faces@),
                *face == faces@[fi as int],
                wires == wires_of(*face),
                fv[fi as int].wires == wires,
                t == half_edge_table(fv),
                table@ == t,
                tn == t.len(),
                rep@.len() == t.len(),
                forall|i: int| 0 <= i < rep@.len() ==> (#[trigger] rep@[i] matches Some((a, _)) ==> a < rep@.len()),
                table_upto(fv, fi as int).len() + face_records_upto(fi as int, wires, wires.len() as int).len() <= t.len(),
                wi <= wires.len(),
                k == wire_offset(fv, fi as int, wi as int),
                nws@.len() == wi,
                forall|w: int| 0 <= w < wi ==> (#[trigger] nws@[w])@ == new_wires(fv, rep@, fi as int)[w],
                all_closed == forall|w: int| 0 <= w < wi ==> is_closed_chain(#[trigger] new_wires(fv, rep@, fi as int)[w]),
                any == exists|w: int, e: int| 0 <= w < wi && 0 <= e < wires[w].len() && #[trigger] use_replaced(fv, rep@, fi as int, w, e),
            decreases wires.len() - wi,
        {
            let wire = &face.boundaries[wi];
            assert(wire@ == wires[wi as int]);
            proof {
                let g = |w: int| wire_records(fi as int, w, wires[w]);
                lemma_flatten_new_step(wi as nat, g);
                lemma_flatten_mono_wires(fi as int, wires, wi as int + 1, wires.len() as int);
            }
            let ghost target = new_wires(fv, rep@, fi as int)[wi as int];
            let mut nw: Vec<EdgeUse> = Vec::new();
            let mut ei: usize = 0;
            while ei < wire.len()
                invariant
                    t == half_edge_table(fv),
                    table@ == t,
                    tn == t.len(),
                    rep@.len() == t.len(),
                    forall|i: int| 0 <= i < rep@.len() ==> (#[trigger] rep@[i] matches Some((a, _)) ==> a < rep@.len()),
                    fi < faces@.len(),
                    wi < wires.len(),
                    fv[fi as int].wires == wires,
                    wire@ == wires[wi as int],
                    target == new_wires(fv, rep@, fi as int)[wi as int],
                    target.len() == wire@.len(),
                    wire_offset(fv, fi as int, wi as int) + wire@.len() <= t.len(),
                    ei <= wire@.len(),
                    k == wire_offset(fv, fi as int, wi as int) + ei,
                    nw@ == target.take(ei as int),
                    any == ((exists|w: int, e: int| 0 <= w < wi && 0 <= e < wires[w].len() && #[trigger] use_replaced(fv, rep@, fi as int, w, e))
                        || exists|e: int| 0 <= e < ei && #[trigger] use_replaced(fv, rep@, fi as int, wi as int, e)),
                decreases wire@.len() - ei,
            {
                let rec = table[k];
                let u = match rep[k] {
                    None => rec.edge_use,
                    Some((a, sd)) => {
                        let ua = table[a].edge_use;
                        let (af, ab) = if ua.forward {
                            (ua.front, ua.back)
                        } else {
                            (ua.back, ua.front)
                        };
                        if sd == rec.edge_use.forward {
                            EdgeUse { edge: ua.edge, front: af, back: ab, forward: true }
                        } else {
                            EdgeUse { edge: ua.edge, front: ab, back: af, forward: false }
                        }
                    },
                };
                assert(u == replaced_use(t, rep@, k as int));
                proof {
                    assert(use_replaced(fv, rep@, fi as int, wi as int, ei as int) == rep@[k as int] is Some);
                }
                if rep[k].is_some() {
                    any = true;
                }
                assert(target[ei as int] == replaced_use(t, rep@, wire_offset(fv, fi as int, wi as int) + ei));
                nw.push(u);
                assert(target.take(ei + 1) =~= target.take(ei as int).push(target[ei as int]));
                k = k + 1;
                ei = ei + 1;
            }
            assert(target.take(wire@.len() as int) =~= target);
            proof {
                assert(any == exists|w: int, e: int| 0 <= w < wi + 1 && 0 <= e < wires[w].len() && #[trigger] use_replaced(fv, rep@, fi as int, w, e)) by {
                    if any {
                        if exists|e: int| 0 <= e < ei && #[trigger] use_replaced(fv, rep@, fi as int, wi as int, e) {
                            let e = choose|e: int| 0 <= e < ei && #[trigger] use_replaced(fv, rep@, fi as int, wi as int, e);
                            assert(use_replaced(fv, rep@, fi as int, wi as int, e));
                        }
                    }
                }
            }
            let closed = closed_chain(&nw);
            all_closed = all_closed && closed;
            nws.push(nw);
            proof {
                assert(k == wire_offset(fv, fi as int, wi + 1));
                assert forall|w: int| 0 <= w < wi + 1 implies (#[trigger] nws@[w])@ == new_wires(fv, rep@, fi as int)[w] by {
                }
            }
            wi = wi + 1;
        }
        let ghost nwv = new_wires(fv, rep@, fi as int);
        assert(any == face_replaced(fv, rep@, fi as int));
        let new_face = if any && nws.len() > 0 && all_closed {
            let id = next_sequential_id(seq);
            let f2 = FaceTopo { id, boundaries: nws };
            assert(f2@.wires =~= nwv);
            f2
        } else {
            let f2 = face.clone();
            f2
        };
        out.push(new_face);
        proof {
            assert(out@[fi as int]@.wires == rebuilt_wires(fv, rep@, fi as int));
            assert(out@[fi as int].id == rebuilt_id(fv, rep@, fi as int, old(seq).value()));
            assert forall|f: int|
                0 <= f < fi + 1 implies (#[trigger] out@[f]).id == rebuilt_id(fv, rep@, f, old(seq).value()) && out@[f]@.wires
                    == rebuilt_wires(fv, rep@, f) by {
            }
        }
        fi = fi + 1;
    }
    out
}

/// The wires of every face with every use replaced as `rep` says (see
/// `new_wires`).
pub(crate) fn replaced_wires(faces: &[FaceTopo], rep: &Vec<Option<(usize, bool)>>) -> (r: Vec<Vec<Vec<EdgeUse>>>)
    requires
        rep@.len() == half_edge_table(views(faces@)).len(),
        forall|i: int| 0 <= i < rep@.len() ==> (#[trigger] rep@[i] matches Some((a, _)) ==> a < rep@.len()),
    ensures
        r@.len() == faces@.len(),
        forall|f: int| 0 <= f < faces@.len() ==> crate::wire_repair::wires_view((#[trigger] r@[f])@) == new_wires(views(faces@), rep@, f),
{
    let ghost fv = views(faces@);
    let table = build_half_edge_table(faces);
    let ghost t = table@;
    let tn = table.len();
    let mut out: Vec<Vec<Vec<EdgeUse>>> = Vec::new();
    let mut k: usize = 0;
    let mut fi: usize = 0;
    proof {
        lemma_table_upto_mono(fv, 0, fv.len() as int);
    }
    while fi < faces.len()
        invariant
            fi <= faces@.len(),
            fv == views(faces@),
            t == half_edge_table(fv),
            table@ == t,
            tn == t.len(),
            rep@.len() == t.len(),
            forall|i: int| 0 <= i < rep@.len() ==> (#[trigger] rep@[i] matches Some((a, _)) ==> a < rep@.len()),
            k == table_upto(fv, fi as int).len(),
            out@.len() == fi,
            forall|f: int| 0 <= f < fi ==> crate::wire_repair::wires_view((#[trigger] out@[f])@) == new_wires(fv, rep@, f),
        decreases faces@.len() - fi,
    {
        let face = &faces[fi];
        let ghost wires = wires_of(*face);
        assert(fv[fi as int].wires == wires);
        proof {
            lemma_table_upto_mono(fv, fi + 1, fv.len() as int);
            let g = |x: int| face_records(x, fv[x]);
            lemma_flatten_new_step(fi as nat, g);
        }
        let mut nws: Vec<Vec<EdgeUse>> = Vec::new();
        let mut all_closed = true;
        let mut any = false;
        let mut wi: usize = 0;
        while wi < face.boundaries.len()
            invariant
                fi < faces@.len(),
                fv == views(faces@),
                *face == faces@[fi as int],
                wires == wires_of(*face),
                fv[fi as int].wires == wires,
                t == half_edge_table(fv),
                table@ == t,
                tn == t.len(),
                rep@.len() == t.len(),
                forall|i: int| 0 <= i < rep@.len() ==> (#[trigger] rep@[i] matches Some((a, _)) ==> a < rep@.len()),
                table_upto(fv, fi as int).len() + face_records_upto(fi as int, wires, wires.len() as int).len() <= t.len(),
                wi <= wires.len(),
                k == wire_offset(fv, fi as int, wi as int),
                nws@.len() == wi,
                forall|w: int| 0 <= w < wi ==> (#[trigger] nws@[w])@ == new_wires(fv, rep@, fi as int)[w],
                all_closed == forall|w: int| 0 <= w < wi ==> is_closed_chain(#[trigger] new_wires(fv, rep@, fi as int)[w]),
                any == exists|w: int, e: int| 0 <= w < wi && 0 <= e < wires[w].len() && #[trigger] use_replaced(fv, rep@, fi as int, w, e),
            decreases wires.len() - wi,
        {
            let wire = &face.boundaries[wi];
            assert(wire@ == wires[wi as int]);
            proof {
                let g = |w: int| wire_records(fi as int, w, wires[w]);
                lemma_flatten_new_step(wi as nat, g);
                lemma_flatten_mono_wires(fi as int, wires, wi as int + 1, wires.len() as int);
            }
            let ghost target = new_wires(fv, rep@, fi as int)[wi as int];
            let mut nw: Vec<EdgeUse> = Vec::new();
            let mut ei: usize = 0;
            while ei < wire.len()
                invariant
                    t == half_edge_table(fv),
                    table@ == t,
                    tn == t.len(),
                    rep@.len() == t.len(),
                    forall|i: int| 0 <= i < rep@.len() ==> (#[trigger] rep@[i] matches Some((a, _)) ==> a < rep@.len()),
                    fi < faces@.len(),
                    wi < wires.len(),
                    fv[fi as int].wires == wires,
                    wire@ == wires[wi as int],
                    target == new_wires(fv, rep@, fi as int)[wi as int],
                    target.len() == wire@.len(),
                    wire_offset(fv, fi as int, wi as int) + wire@.len() <= t.len(),
                    ei <= wire@.len(),
                    k == wire_offset(fv, fi as int, wi as int) + ei,
                    nw@ == target.take(ei as int),
                    any == ((exists|w: int, e: int| 0 <= w < wi && 0 <= e < wires[w].len() && #[trigger] use_replaced(fv, rep@, fi as int, w, e))
                        || exists|e: int| 0 <= e < ei && #[trigger] use_replaced(fv, rep@, fi as int, wi as int, e)),
                decreases wire@.len() - ei,
            {
                let rec = table[k];
                let u = match rep[k] {
                    None => rec.edge_use,
                    Some((a, sd)) => {
                        let ua = table[a].edge_use;
                        let (af, ab) = if ua.forward {
                            (ua.front, ua.back)
                        } else {
                            (ua.back, ua.front)
                        };
                        if sd == rec.edge_use.forward {
                            EdgeUse { edge: ua.edge, front: af, back: ab, forward: true }
                        } else {
                            EdgeUse { edge: ua.edge, front: ab, back: af, forward: false }
                        }
                    },
                };
                assert(u == replaced_use(t, rep@, k as int));
                proof {
                    assert(use_replaced(fv, rep@, fi as int, wi as int, ei as int) == rep@[k as int] is Some);
                }
                if rep[k].is_some() {
                    any = true;
                }
                assert(target[ei as int] == replaced_use(t, rep@, wire_offset(fv, fi as int, wi as int) + ei));
                nw.push(u);
                assert(target.take(ei + 1) =~= target.take(ei as int).push(target[ei as int]));
                k = k + 1;
                ei = ei + 1;
            }
            assert(target.take(wire@.len() as int) =~= target);
            proof {
                assert(any == exists|w: int, e: int| 0 <= w < wi + 1 && 0 <= e < wires[w].len() && #[trigger] use_replaced(fv, rep@, fi as int, w, e)) by {
                    if any {
                        if exists|e: int| 0 <= e < ei && #[trigger] use_replaced(fv, rep@, fi as int, wi as int, e) {
                            let e = choose|e: int| 0 <= e < ei && #[trigger] use_replaced(fv, rep@, fi as int, wi as int, e);
                            assert(use_replaced(fv, rep@, fi as int, wi as int, e));
                        }
                    }
                }
            }
            let closed = closed_chain(&nw);
            all_closed = all_closed && closed;
            nws.push(nw);
            proof {
                assert(k == wire_offset(fv, fi as int, wi + 1));
                assert forall|w: int| 0 <= w < wi + 1 implies (#[trigger] nws@[w])@ == new_wires(fv, rep@, fi as int)[w] by {
                }
            }
            wi = wi + 1;
        }
        let ghost nwv = new_wires(fv, rep@, fi as int);
        assert(any == face_replaced(fv, rep@, fi as int));
        out.push(nws);
        proof {
            assert(crate::wire_repair::wires_view(out@[fi as int]@) =~= nwv);
            assert forall|f: int| 0 <= f < fi + 1 implies crate::wire_repair::wires_view((#[trigger] out@[f])@) == new_wires(fv, rep@, f) by {
            }
        }
        fi = fi + 1;
    }
    out
}

pub(crate) proof fn lemma_flatten_mono_wires(f: int, wires: Seq<Seq<EdgeUse>>, w: int, n: int)
    requires
        0 <= w <= n <= wires.len(),
    ensures
        face_records_upto(f, wires, w).len() <= face_records_upto(f, wires, n).len(),
    decreases n - w,
{
    if w < n {
        lemma_flatten_mono_wires(f, wires, w, n - 1);
        let g = |x: int| wire_records(f, x, wires[x]);
        lemma_flatten_new_step((n - 1) as nat, g);
    }
}

/// Whether no half-edge lies in two places of the groups.
pub fn groups_are_disjoint(groups: &Vec<Vec<usize>>, n: usize) -> (r: bool)
    requires
        forall|g: int, k: int| 0 <= g < groups@.len() && 0 <= k < groups@[g]@.len() ==> #[trigger] groups@[g]@[k] < n,
    ensures
        r == groups_disjoint(groups_view(groups@)),
{
    let ghost gv = groups_view(groups@);
    let mut seen: Vec<bool> = Vec::new();
    let mut i: usize = 0;
    while i < n
        invariant
            i <= n,
            seen@.len() == i,
            forall|j: int| 0 <= j < i ==> !seen@[j],
        decreases n - i,
    {
        seen.push(false);
        i = i + 1;
    }
    let mut c: usize = 0;
    while c < groups.len()
        invariant
            gv == groups_view(groups@),
            forall|g: int, k: int| 0 <= g < groups@.len() && 0 <= k < groups@[g]@.len() ==> #[trigger] groups@[g]@[k] < n,
            seen@.len() == n,
            c <= groups@.len(),
            forall|g1: int, k1: int, g2: int, k2: int|
                0 <= g1 < c && 0 <= k1 < gv[g1].len() && 0 <= g2 < c && 0 <= k2 < gv[g2].len() && (g1 != g2 || k1 != k2)
                    ==> #[trigger] gv[g1][k1] != #[trigger] gv[g2][k2],
            forall|x: int| 0 <= x < n ==> (seen@[x] <==> exists|g: int, k: int| 0 <= g < c && 0 <= k < gv[g].len() && #[trigger] gv[g][k] == x),
        decreases groups@.len() - c,
    {
        let s = &groups[c];
        assert(gv[c as int] == s@);
        let mut j: usize = 0;
        while j < s.len()
            invariant
                gv == groups_view(groups@),
                forall|g: int, k: int| 0 <= g < groups@.len() && 0 <= k < groups@[g]@.len() ==> #[trigger] groups@[g]@[k] < n,
                seen@.len() == n,
                c < groups@.len(),
                gv[c as int] == s@,
                j <= s@.len(),
                forall|g1: int, k1: int, g2: int, k2: int|
                    (0 <= g1 < c && 0 <= k1 < gv[g1].len() || g1 == c && 0 <= k1 < j) && (0 <= g2 < c && 0 <= k2 < gv[g2].len()
                        || g2 == c && 0 <= k2 < j) && (g1 != g2 || k1 != k2) ==> #[trigger] gv[g1][k1] != #[trigger] gv[g2][k2],
                forall|x: int|
                    0 <= x < n ==> (seen@[x] <==> exists|g: int, k: int|
                        (0 <= g < c && 0 <= k < gv[g].len() || g == c && 0 <= k < j) && #[trigger] gv[g][k] == x),
            decreases s@.len() - j,
        {
            let x = s[j];
            assert(x == gv[c as int][j as int]);
            assert(x < n);
            if seen[x] {
                proof {
                    let (g, k) = choose|g: int, k: int|
                        (0 <= g < c && 0 <= k < gv[g].len() || g == c && 0 <= k < j) && #[trigger] gv[g][k] == x as int;
                    assert(gv[g][k] == gv[c as int][j as int]);
                    assert(!groups_disjoint(gv));
                }
                return false;
            }
            let ghost before = seen@;
            seen.set(x, true);
            proof {
                assert forall|y: int|
                    0 <= y < n implies (seen@[y] <==> exists|g: int, k: int|
                        (0 <= g < c && 0 <= k < gv[g].len() || g == c && 0 <= k < j + 1) && #[trigger] gv[g][k] == y) by {
                    if y == x as int {
                        assert(gv[c as int][j as int] == y);
                    } else {
                        assert(seen@[y] == before[y]);
                        if exists|g: int, k: int| (0 <= g < c && 0 <= k < gv[g].len() || g == c && 0 <= k < j + 1) && #[trigger] gv[g][k] == y {
                            let (g, k) = choose|g: int, k: int|
                                (0 <= g < c && 0 <= k < gv[g].len() || g == c && 0 <= k < j + 1) && #[trigger] gv[g][k] == y;
                            if g == c && k == j {
                            } else {
                                assert(gv[g][k] == y);
                            }
                        }
                    }
                }
                assert forall|g1: int, k1: int, g2: int, k2: int|
                    (0 <= g1 < c && 0 <= k1 < gv[g1].len() || g1 == c && 0 <= k1 < j + 1) && (0 <= g2 < c && 0 <= k2
                        < gv[g2].len() || g2 == c && 0 <= k2 < j + 1) && (g1 != g2 || k1 != k2) implies #[trigger] gv[g1][k1]
                    != #[trigger] gv[g2][k2] by {
                    if g1 == c && k1 == j {
                        if gv[g2][k2] == x {
                            assert(before[x as int]);
                        }
                    } else if g2 == c && k2 == j {
                        if gv[g1][k1] == x {
                            assert(before[x as int]);
                        }
                    }
                }
            }
            j = j + 1;
        }
        c = c + 1;
    }
    true
}

/// The pairing of every half-edge (see `pair_of`).
pub open spec fn pairing(t: Seq<HalfEdgeRecord>, groups: Seq<Seq<usize>>, same_dir: Seq<Seq<bool>>) -> Seq<Option<(usize, bool)>> {
    Seq::new(t.len(), |i: int| pair_of(t, groups, same_dir, i))
}

/// Assembles faces by pairing: pairs the half-edges of every group (see
/// `pair_edge_groups`) and rebuilds the faces so that each pair shares one
/// edge (see `apply_pairings`). Fails with the half-edge of the first group
/// that holds only one.
pub fn assemble_by_pairing(
    faces: &[FaceTopo],
    groups: &Vec<Vec<usize>>,
    same_dir: &Vec<Vec<bool>>,
    seq: &mut IdSequence,
) -> (r: Result<Vec<FaceTopo>, usize>)
    requires
        forall|g: int, k: int|
            0 <= g < groups@.len() && 0 <= k < groups@[g]@.len() ==> #[trigger] groups@[g]@[k] < half_edge_table(
                views(faces@),
            ).len(),
        groups_disjoint(groups_view(groups@)),
        same_dir@.len() == groups@.len(),
        forall|g: int| 0 <= g < groups@.len() ==> (#[trigger] same_dir@[g])@.len() == groups@[g]@.len(),
    ensures
        r is Err <==> has_single(groups_view(groups@)),
        r matches Err(i) ==> exists|g: int|
            0 <= g < groups@.len() && (#[trigger] groups@[g])@.len() == 1 && groups@[g]@[0] == i && forall|h: int|
                0 <= h < g ==> (#[trigger] groups@[h])@.len() != 1,
        r is Err ==> final(seq).value() == old(seq).value(),
        r matches Ok(fs) ==> {
            let rep = pairing(half_edge_table(views(faces@)), groups_view(groups@), flags_view(same_dir@));
            &&& fs@.len() == faces@.len()
            &&& forall|f: int|
                0 <= f < faces@.len() ==> (#[trigger] fs@[f]).id == rebuilt_id(views(faces@), rep, f, old(seq).value())
                    && fs@[f]@.wires == rebuilt_wires(views(faces@), rep, f)
            &&& final(seq).value() == successor_n(old(seq).value(), rebuilt_before(views(faces@), rep, faces@.len() as int))
        },
{
    let table = build_half_edge_table(faces);
    match pair_edge_groups(&table, groups, same_dir) {
        Err(i) => Err(i),
        Ok(rep) => {
            let ghost t = table@;
            proof {
                assert(rep@ =~= pairing(t, groups_view(groups@), flags_view(same_dir@)));
                assert forall|i: int| 0 <= i < rep@.len() implies (#[trigger] rep@[i] matches Some((a, _)) ==> a < rep@.len()) by {
                    if rep@[i] is Some {
                        let gv = groups_view(groups@);
                        let (g, k) = choose|g: int, k: int| #[trigger] second_of_pair(gv, g, k, i);
                        assert(gv[g] == groups@[g]@);
                        assert(groups@[g]@[2 * k] < t.len());
                    }
                }
            }
            Ok(apply_pairings(faces, &rep, seq))
        },
    }
}

/// How many of the first `n` groups hold a single half-edge (an open edge).
pub open spec fn single_count(groups: Seq<Seq<usize>>, n: int) -> nat
    decreases n,
{
    if n <= 0 {
        0
    } else {
        single_count(groups, n - 1) + (if groups[n - 1].len() == 1 { 1nat } else { 0nat })
    }
}

proof fn lemma_single_count(groups: Seq<Seq<usize>>, n: int)
    requires
        0 <= n <= groups.len(),
    ensures
        single_count(groups, n) <= n,
        single_count(groups, n) == 0 <==> forall|g: int| 0 <= g < n ==> (#[trigger] groups[g]).len() != 1,
    decreases n,
{
    if n > 0 {
        lemma_single_count(groups, n - 1);
    }
}

/// The reason radial assembly gives up with `k` open edges.
pub open spec fn open_edges_text(k: nat) -> Seq<char> {
    "radial: "@ + decimal(k) + " open edges (unpaired half-edges)"@
}

/// Assembles a closed shell from faces whose half-edges the caller grouped
/// by quantized end positions and ordered radially (see
/// `assemble_by_pairing`). Fails with a shell-assembly error when there is
/// no face, when the faces have no edge, or when some group holds a single
/// half-edge (the text gives how many such open edges there are); otherwise
/// every group is paired off and the faces are rebuilt.
pub fn assemble_shell_radial(
    faces: &[FaceTopo],
    groups: &Vec<Vec<usize>>,
    same_dir: &Vec<Vec<bool>>,
    seq: &mut IdSequence,
) -> (r: Result<Vec<FaceTopo>, BooleanStageError>)
    requires
        forall|g: int, k: int|
            0 <= g < groups@.len() && 0 <= k < groups@[g]@.len() ==> #[trigger] groups@[g]@[k] < half_edge_table(
                views(faces@),
            ).len(),
        groups_disjoint(groups_view(groups@)),
        same_dir@.len() == groups@.len(),
        forall|g: int| 0 <= g < groups@.len() ==> (#[trigger] same_dir@[g])@.len() == groups@[g]@.len(),
    ensures
        r is Ok <==> faces@.len() > 0 && half_edge_table(views(faces@)).len() > 0 && !has_single(groups_view(groups@)),
        faces@.len() == 0 ==> (r matches Err(BooleanStageError::ShellAssembly(t)) && t@ == "radial: no faces"@),
        faces@.len() > 0 && half_edge_table(views(faces@)).len() == 0 ==> (r matches Err(BooleanStageError::ShellAssembly(t))
            && t@ == "radial: no edges in faces"@),
        faces@.len() > 0 && half_edge_table(views(faces@)).len() > 0 && has_single(groups_view(groups@)) ==> (r matches Err(
            BooleanStageError::ShellAssembly(t),
        ) && t@ == open_edges_text(single_count(groups_view(groups@), groups@.len() as int))),
        r is Err ==> final(seq).value() == old(seq).value(),
        r matches Ok(fs) ==> {
            let rep = pairing(half_edge_table(views(faces@)), groups_view(groups@), flags_view(same_dir@));
            &&& fs@.len() == faces@.len()
            &&& forall|f: int|
                0 <= f < faces@.len() ==> (#[trigger] fs@[f]).id == rebuilt_id(views(faces@), rep, f, old(seq).value())
                    && fs@[f]@.wires == rebuilt_wires(views(faces@), rep, f)
            &&& final(seq).value() == successor_n(old(seq).value(), rebuilt_before(views(faces@), rep, faces@.len() as int))
        },
{
    if faces.len() == 0 {
        proof {
            reveal_strlit("radial: no faces");
        }
        return Err(BooleanStageError::ShellAssembly(String::from_str("radial: no faces")));
    }
    let table = build_half_edge_table(faces);
    if table.len() == 0 {
        proof {
            reveal_strlit("radial: no edges in faces");
        }
        return Err(BooleanStageError::ShellAssembly(String::from_str("radial: no edges in faces")));
    }
    let ghost gv = groups_view(groups@);
    let mut count: usize = 0;
    let mut g: usize = 0;
    while g < groups.len()
        invariant
            gv == groups_view(groups@),
            g <= groups@.len(),
            count == single_count(gv, g as int),
            count <= g,
        decreases groups@.len() - g,
    {
        assert(gv[g as int] == groups@[g as int]@);
        if groups[g].len() == 1 {
            count = count + 1;
        }
        g = g + 1;
    }
    proof {
        lemma_single_count(gv, gv.len() as int);
        assert(has_single(gv) <==> !(forall|h: int| 0 <= h < gv.len() ==> (#[trigger] gv[h]).len() != 1));
    }
    if count > 0 {
        let mut s = String::from_str("radial: ");
        push_decimal(&mut s, count as u64);
        s.append(" open edges (unpaired half-edges)");
        proof {
            reveal_strlit("radial: ");
            reveal_strlit(" open edges (unpaired half-edges)");
        }
        return Err(BooleanStageError::ShellAssembly(s));
    }
    match assemble_by_pairing(faces, groups, same_dir, seq) {
        Ok(fs) => Ok(fs),
        Err(_) => {
            proof {
                assert(false);
            }
            Err(BooleanStageError::ShellAssembly(String::from_str("radial: no faces")))
        },
    }
}

/// After pairing, the two half-edges of every pair use the same edge: the
/// first keeps its use and the second takes the first's edge (when it did
/// not use it already), provided the groups partition the half-edges.
pub proof fn paired_half_edges_share_an_edge(
    t: Seq<HalfEdgeRecord>,
    groups: Seq<Seq<usize>>,
    same_dir: Seq<Seq<bool>>,
    g: int,
    k: int,
)
    requires
        groups_disjoint(groups),
        forall|h: int, j: int| 0 <= h < groups.len() && 0 <= j < groups[h].len() ==> #[trigger] groups[h][j] < t.len(),
        0 <= g < groups.len(),
        0 <= k,
        2 * k + 1 < groups[g].len(),
    ensures
        replaced_use(t, pairing(t, groups, same_dir), groups[g][2 * k] as int) == t[groups[g][2 * k] as int].edge_use,
        replaced_use(t, pairing(t, groups, same_dir), groups[g][2 * k] as int).edge == replaced_use(
            t,
            pairing(t, groups, same_dir),
            groups[g][2 * k + 1] as int,
        ).edge,
{
    let a = groups[g][2 * k] as int;
    let b = groups[g][2 * k + 1] as int;
    assert(a < t.len() && b < t.len());
    let p = pairing(t, groups, same_dir);
    assert(p[a] == pair_of(t, groups, same_dir, a));
    assert(p[b] == pair_of(t, groups, same_dir, b));
    if exists|h: int, j: int| #[trigger] second_of_pair(groups, h, j, a) {
        let (h, j) = choose|h: int, j: int| #[trigger] second_of_pair(groups, h, j, a);
        assert(groups[h][2 * j + 1] == groups[g][2 * k]);
    }
    assert(second_of_pair(groups, g, k, b));
    let (h, j) = choose|h: int, j: int| #[trigger] second_of_pair(groups, h, j, b);
    assert(groups[h][2 * j + 1] == groups[g][2 * k + 1]);
    assert(h == g && j == k);
}

} // verus!
