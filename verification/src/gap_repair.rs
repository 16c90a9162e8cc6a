//! Rebuilding closed wires from a pool of edge uses: the ends left open
//! (degree one) are found, the gaps between them are bridged by new edges,
//! and the uses are chained into closed wires by walking the edge graph.
use vstd::prelude::*;
use crate::topology::{EdgeUse, lemma_flatten_new_step};
use crate::open_loops::{flip, touches, degree_upto, degree, is_closed_chain, first_unused_touching, flip_use};
use crate::id::{IdSequence, next_sequential_id, successor_n};
use crate::wire_repair::wires_view;
use crate::boundary_graph::lemma_distinct_below;

verus! {

/// All uses of the wires, wire by wire.
pub open spec fn pool(ws: Seq<Seq<EdgeUse>>) -> Seq<EdgeUse> {
    Seq::new(ws.len(), |i: int| ws[i]).flatten()
}

/// The uses of the wires in order.
fn pool_of(wires: &Vec<Vec<EdgeUse>>) -> (r: Vec<EdgeUse>)
    ensures
        r@ == pool(wires_view(wires@)),
{
    let ghost ws = wires_view(wires@);
    let mut out: Vec<EdgeUse> = Vec::new();
    let mut i: usize = 0;
    while i < wires.len()
        invariant
            ws == wires_view(wires@),
            i <= ws.len(),
            out@ == Seq::new(i as nat, |j: int| ws[j]).flatten(),
        decreases ws.len() - i,
    {
        let w = &wires[i];
        assert(w@ == ws[i as int]);
        let ghost base = out@;
        let mut k: usize = 0;
        while k < w.len()
            invariant
                k <= w@.len(),
                out@ == base + w@.take(k as int),
            decreases w@.len() - k,
        {
            out.push(w[k]);
            assert(w@.take(k + 1) =~= w@.take(k as int).push(w@[k as int]));
            k = k + 1;
        }
        assert(w@.take(w@.len() as int) =~= w@);
        proof {
            lemma_flatten_new_step(i as nat, |j: int| ws[j]);
        }
        i = i + 1;
    }
    out
}

proof fn lemma_degree_mono(o: Seq<EdgeUse>, v: u64, m: int, n: int)
    requires
        0 <= m <= n <= o.len(),
    ensures
        degree_upto(o, v, m) <= degree_upto(o, v, n),
    decreases n - m,
{
    if m < n {
        lemma_degree_mono(o, v, m, n - 1);
    }
}

/// Whether exactly one end of the uses lies at `v`.
fn degree_is_one(o: &Vec<EdgeUse>, v: u64) -> (r: bool)
    ensures
        r == (degree(o@, v) == 1),
{
    let mut d: usize = 0;
    let mut i: usize = 0;
    while i < o.len()
        invariant
            i <= o@.len(),
            d == degree_upto(o@, v, i as int),
            d <= 1,
        decreases o@.len() - i,
    {
        if o[i].front == v {
            d = d + 1;
        }
        if d > 1 {
            proof {
                lemma_degree_mono(o@, v, i + 1, o@.len() as int);
            }
            return false;
        }
        if o[i].back == v {
            d = d + 1;
        }
        if d > 1 {
            proof {
                lemma_degree_mono(o@, v, i + 1, o@.len() as int);
            }
            return false;
        }
        i = i + 1;
    }
    d == 1
}

/// Inserts `x` into a strictly increasing list that lacks it.
fn insert_sorted(out: &mut Vec<u64>, x: u64)
    requires
        forall|a: int, b: int| 0 <= a < b < old(out)@.len() ==> old(out)@[a] < old(out)@[b],
        !old(out)@.contains(x),
    ensures
        forall|a: int, b: int| 0 <= a < b < final(out)@.len() ==> final(out)@[a] < final(out)@[b],
        forall|y: u64| final(out)@.contains(y) <==> old(out)@.contains(y) || y == x,
{
    let mut p: usize = 0;
    while p < out.len() && out[p] < x
        invariant
            p <= out@.len(),
            forall|a: int| 0 <= a < p ==> out@[a] < x,
        decreases out@.len() - p,
    {
        p = p + 1;
    }
    let ghost before = out@;
    out.insert(p, x);
    proof {
        if p < before.len() {
            assert(before[p as int] != x);
        }
        assert forall|y: u64| out@.contains(y) <==> before.contains(y) || y == x by {
            if before.contains(y) {
                let j = choose|j: int| 0 <= j < before.len() && before[j] == y;
                if j < p {
                    assert(out@[j] == y);
                } else {
                    assert(out@[j + 1] == y);
                }
            }
            if out@.contains(y) {
                let j = choose|j: int| 0 <= j < out@.len() && out@[j] == y;
                if j < p {
                    assert(before[j] == y);
                } else if j > p {
                    assert(before[j - 1] == y);
                }
            }
            assert(out@[p as int] == x);
        }
    }
}

/// Whether `x` occurs in `s`.
fn has_u64(s: &Vec<u64>, x: u64) -> (r: bool)
    ensures
        r == s@.contains(x),
{
    let mut j: usize = 0;
    while j < s.len()
        invariant
            j <= s@.len(),
            forall|k: int| 0 <= k < j ==> s@[k] != x,
        decreases s@.len() - j,
    {
        if s[j] == x {
            return true;
        }
        j = j + 1;
    }
    false
}

/// The vertices at which exactly one end of the wires' uses lies (the ends
/// of gaps), in increasing order.
pub fn degree_one_vertices(wires: &Vec<Vec<EdgeUse>>) -> (r: Vec<u64>)
    ensures
        forall|a: int, b: int| 0 <= a < b < r@.len() ==> r@[a] < r@[b],
        forall|v: u64| r@.contains(v) <==> degree(pool(wires_view(wires@)), v) == 1,
{
    let all = pool_of(wires);
    let ghost o = all@;
    let mut out: Vec<u64> = Vec::new();
    let mut i: usize = 0;
    while i < all.len()
        invariant
            o == all@,
            i <= o.len(),
            forall|a: int, b: int| 0 <= a < b < out@.len() ==> out@[a] < out@[b],
            forall|v: u64| out@.contains(v) ==> degree(o, v) == 1,
            forall|j: int| 0 <= j < i ==> (degree(o, o[j].front) == 1 ==> out@.contains(o[j].front)) && (degree(o, o[j].back) == 1
                ==> out@.contains(o[j].back)),
        decreases o.len() - i,
    {
        let u = all[i];
        if degree_is_one(&all, u.front) && !has_u64(&out, u.front) {
            insert_sorted(&mut out, u.front);
        }
        if degree_is_one(&all, u.back) && !has_u64(&out, u.back) {
            insert_sorted(&mut out, u.back);
        }
        i = i + 1;
    }
    proof {
        assert forall|v: u64| degree(o, v) == 1 implies out@.contains(v) by {
            lemma_degree_witness(o, v, o.len() as int);
        }
    }
    out
}

proof fn lemma_degree_witness(o: Seq<EdgeUse>, v: u64, n: int)
    requires
        0 <= n <= o.len(),
        degree_upto(o, v, n) > 0,
    ensures
        exists|j: int| 0 <= j < n && (o[j].front == v || o[j].back == v),
    decreases n,
{
    if n > 0 {
        if o[n - 1].front == v || o[n - 1].back == v {
        } else {
            lemma_degree_witness(o, v, n - 1);
        }
    }
}

/// The gap edges as uses: gap `i` runs from its first vertex to its second,
/// on a new edge with the `i`-th identity of the sequence.
pub open spec fn gap_uses(gaps: Seq<(u64, u64)>, seq0: u64) -> Seq<EdgeUse> {
    Seq::new(
        gaps.len(),
        |i: int| EdgeUse { edge: successor_n(seq0, i as nat), front: gaps[i].0, back: gaps[i].1, forward: true },
    )
}

/// `idx` places every use of `total` exactly once on the wires, as it is or
/// reversed.
pub open spec fn places_once(total: Seq<EdgeUse>, ws: Seq<Seq<EdgeUse>>, idx: Seq<Seq<usize>>) -> bool {
    &&& idx.len() == ws.len()
    &&& forall|w: int| 0 <= w < ws.len() ==> (#[trigger] idx[w]).len() == ws[w].len()
    &&& forall|w: int, k: int|
        0 <= w < ws.len() && 0 <= k < ws[w].len() ==> #[trigger] idx[w][k] < total.len() && (ws[w][k] == total[idx[w][k] as int]
            || ws[w][k] == flip(total[idx[w][k] as int]))
    &&& forall|w1: int, k1: int, w2: int, k2: int|
        0 <= w1 < ws.len() && 0 <= k1 < ws[w1].len() && 0 <= w2 < ws.len() && 0 <= k2 < ws[w2].len() && (w1 != w2 || k1 != k2)
            ==> #[trigger] idx[w1][k1] != #[trigger] idx[w2][k2]
    &&& forall|j: int| 0 <= j < total.len() ==> #[trigger] placed(idx, j)
}

/// Use `j` is placed somewhere.
pub open spec fn placed(idx: Seq<Seq<usize>>, j: int) -> bool {
    exists|w: int, k: int| 0 <= w < idx.len() && 0 <= k < idx[w].len() && #[trigger] idx[w][k] == j
}

/// The use `u`, turned when needed so that it starts at `c`.
pub open spec fn oriented_at(u: EdgeUse, c: u64) -> EdgeUse {
    if u.front == c {
        u
    } else {
        flip(u)
    }
}

/// Use `k` of the wire `e` (at index `wi[k]` of `total`) continues from the
/// end of use `k - 1`, which is not the wire's start, turned to start there.
pub open spec fn chosen_at(total: Seq<EdgeUse>, e: Seq<EdgeUse>, wi: Seq<usize>, k: int) -> bool {
    &&& e[k - 1].back != e[0].front
    &&& touches(total[wi[k] as int], e[k - 1].back)
    &&& e[k] == oriented_at(total[wi[k] as int], e[k - 1].back)
}

/// The choices of the walks that built the wires: each wire starts with the
/// first use that no earlier wire holds, taken as it is; each next use is the
/// first one not yet taken that touches the current end, turned to start
/// there; and a wire ends as soon as it is back at its start, as a closed
/// chain.
pub open spec fn walked_in_order(total: Seq<EdgeUse>, ws: Seq<Seq<EdgeUse>>, idx: Seq<Seq<usize>>) -> bool {
    &&& forall|w: int| 0 <= w < ws.len() ==> is_closed_chain(#[trigger] ws[w])
    &&& forall|w: int| 0 <= w < ws.len() ==> (#[trigger] ws[w]).len() > 0 && ws[w][0] == total[idx[w][0] as int]
    &&& forall|w: int, k: int| 0 <= w < ws.len() && 1 <= k < ws[w].len() ==> #[trigger] chosen_at(total, ws[w], idx[w], k)
    &&& forall|w: int, w2: int, k2: int|
        #![trigger idx[w][0], idx[w2][k2]]
        0 <= w < ws.len() && 0 <= w2 < ws.len() && 0 <= k2 < ws[w2].len() && idx[w2][k2] < idx[w][0] ==> w2 < w
    &&& forall|w: int, k: int, w2: int, k2: int|
        #![trigger idx[w][k], idx[w2][k2]]
        0 <= w < ws.len() && 1 <= k < ws[w].len() && 0 <= w2 < ws.len() && 0 <= k2 < ws[w2].len() && idx[w2][k2]
            < idx[w][k] && touches(total[idx[w2][k2] as int], ws[w][k - 1].back) ==> w2 < w || (w2 == w && k2 < k)
}

/// The wires are those that the walks build from the uses of `total`: every
/// use lies on them exactly once, and each was chosen in walk order.
pub open spec fn walk_result(total: Seq<EdgeUse>, ws: Seq<Seq<EdgeUse>>) -> bool {
    exists|idx: Seq<Seq<usize>>| #[trigger] places_once(total, ws, idx) && walked_in_order(total, ws, idx)
}

/// Every vertex is an end of an even number of the uses.
pub open spec fn all_even(total: Seq<EdgeUse>) -> bool {
    forall|v: u64| #[trigger] degree(total, v) % 2 == 0
}

/// How many ends at `v` the taken uses among the first `n` have.
pub open spec fn used_ends(total: Seq<EdgeUse>, used: Seq<bool>, v: u64, n: int) -> nat
    decreases n,
{
    if n <= 0 {
        0
    } else {
        used_ends(total, used, v, n - 1) + if used[n - 1] {
            (if total[n - 1].front == v {
                1nat
            } else {
                0nat
            }) + (if total[n - 1].back == v {
                1nat
            } else {
                0nat
            })
        } else {
            0nat
        }
    }
}

proof fn lemma_used_ends_take(total: Seq<EdgeUse>, used: Seq<bool>, v: u64, j: int, n: int)
    requires
        0 <= j,
        0 <= n <= used.len(),
        j < used.len(),
        !used[j],
    ensures
        used_ends(total, used.update(j, true), v, n) == used_ends(total, used, v, n) + if j < n {
            (if total[j].front == v {
                1nat
            } else {
                0nat
            }) + (if total[j].back == v {
                1nat
            } else {
                0nat
            })
        } else {
            0nat
        },
    decreases n,
{
    if n > 0 {
        lemma_used_ends_take(total, used, v, j, n - 1);
    }
}

proof fn lemma_used_ends_all(total: Seq<EdgeUse>, used: Seq<bool>, c: u64, n: int)
    requires
        0 <= n <= used.len(),
        n <= total.len(),
        forall|j: int| 0 <= j < n && touches(total[j], c) ==> used[j],
    ensures
        used_ends(total, used, c, n) == degree_upto(total, c, n),
    decreases n,
{
    if n > 0 {
        lemma_used_ends_all(total, used, c, n - 1);
    }
}

proof fn lemma_used_ends_none(total: Seq<EdgeUse>, used: Seq<bool>, v: u64, n: int)
    requires
        0 <= n <= used.len(),
        forall|j: int| 0 <= j < n ==> !used[j],
    ensures
        used_ends(total, used, v, n) == 0,
    decreases n,
{
    if n > 0 {
        lemma_used_ends_none(total, used, v, n - 1);
    }
}

/// What one walk from use `start` builds: the wire `e`, whose uses are those
/// of `total` at the indices `wi` (none taken before, in `u0`), taken as
/// `u1` records; each chosen as the walk chooses.
pub open spec fn walk_step(total: Seq<EdgeUse>, u0: Seq<bool>, u1: Seq<bool>, start: int, e: Seq<EdgeUse>, wi: Seq<usize>) -> bool {
    &&& u1.len() == total.len()
    &&& wi.len() == e.len()
    &&& wi.len() > 0
    &&& wi[0] == start
    &&& e[0] == total[start]
    &&& wi.no_duplicates()
    &&& forall|k: int| 0 <= k < wi.len() ==> #[trigger] wi[k] < total.len() && !u0[wi[k] as int] && (e[k] == total[wi[k] as int]
        || e[k] == flip(total[wi[k] as int]))
    &&& forall|j: int| 0 <= j < total.len() ==> (u1[j] <==> u0[j] || wi.contains(j as usize))
    &&& is_closed_chain(e)
    &&& forall|k: int| 1 <= k < wi.len() ==> #[trigger] chosen_at(total, e, wi, k)
    &&& forall|k: int, i: int|
        #![trigger wi[k], total[i]]
        1 <= k < wi.len() && 0 <= i < wi[k] && touches(total[i], e[k - 1].back) ==> u1[i]
    &&& forall|k: int, k2: int|
        #![trigger wi[k], wi[k2]]
        1 <= k < wi.len() && 0 <= k2 < wi.len() && wi[k2] < wi[k] && touches(total[wi[k2] as int], e[k - 1].back) ==> k2 < k
}

/// What the walks so far have built: the wires `ws`, whose uses are those of
/// `total` at the indices `idx`, each taken once and recorded in `used`,
/// chosen in walk order; and every use before a choice that the choice
/// passed over is taken.
pub open spec fn built(total: Seq<EdgeUse>, ws: Seq<Seq<EdgeUse>>, idx: Seq<Seq<usize>>, used: Seq<bool>) -> bool {
    &&& idx.len() == ws.len()
    &&& forall|w: int| 0 <= w < ws.len() ==> (#[trigger] idx[w]).len() == ws[w].len()
    &&& forall|w: int, k: int|
        0 <= w < ws.len() && 0 <= k < ws[w].len() ==> #[trigger] idx[w][k] < total.len() && used[idx[w][k] as int] && (ws[w][k]
            == total[idx[w][k] as int] || ws[w][k] == flip(total[idx[w][k] as int]))
    &&& forall|w1: int, k1: int, w2: int, k2: int|
        0 <= w1 < ws.len() && 0 <= k1 < ws[w1].len() && 0 <= w2 < ws.len() && 0 <= k2 < ws[w2].len() && (w1 != w2 || k1 != k2)
            ==> #[trigger] idx[w1][k1] != #[trigger] idx[w2][k2]
    &&& forall|j: int| 0 <= j < total.len() && used[j] ==> #[trigger] placed(idx, j)
    &&& walked_in_order(total, ws, idx)
    &&& forall|w: int, i: int| #![trigger idx[w][0], total[i]] 0 <= w < ws.len() && 0 <= i < idx[w][0] ==> used[i]
    &&& forall|w: int, k: int, i: int|
        #![trigger idx[w][k], total[i]]
        0 <= w < ws.len() && 1 <= k < ws[w].len() && 0 <= i < idx[w][k] && touches(total[i], ws[w][k - 1].back) ==> used[i]
}

proof fn lemma_built_push(
    total: Seq<EdgeUse>,
    ws: Seq<Seq<EdgeUse>>,
    idx: Seq<Seq<usize>>,
    u0: Seq<bool>,
    u1: Seq<bool>,
    start: int,
    e: Seq<EdgeUse>,
    wi: Seq<usize>,
)
    requires
        built(total, ws, idx, u0),
        walk_step(total, u0, u1, start, e, wi),
        u0.len() == total.len(),
        total.len() <= usize::MAX,
        0 <= start < total.len(),
        forall|j: int| 0 <= j < start ==> u0[j],
    ensures
        built(total, ws.push(e), idx.push(wi), u1),
{
    let nws = ws.push(e);
    let nidx = idx.push(wi);
    let nw = ws.len() as int;
    assert(nws[nw] == e && nidx[nw] == wi);
    assert forall|w: int| 0 <= w < nw implies nws[w] == ws[w] && nidx[w] == idx[w] by {}
    assert forall|j: int| 0 <= j < total.len() && u0[j] implies u1[j] by {}
    assert forall|w: int, k: int|
        0 <= w < nws.len() && 0 <= k < nws[w].len() implies #[trigger] nidx[w][k] < total.len() && u1[nidx[w][k] as int] && (
        nws[w][k] == total[nidx[w][k] as int] || nws[w][k] == flip(total[nidx[w][k] as int])) by {
        if w < nw {
            assert(nidx[w][k] == idx[w][k]);
        } else {
            assert(wi.contains(wi[k]));
        }
    }
    assert forall|w1: int, k1: int, w2: int, k2: int|
        0 <= w1 < nws.len() && 0 <= k1 < nws[w1].len() && 0 <= w2 < nws.len() && 0 <= k2 < nws[w2].len() && (w1 != w2 || k1
            != k2) implies #[trigger] nidx[w1][k1] != #[trigger] nidx[w2][k2] by {
        if w1 < nw && w2 < nw {
            assert(nidx[w1][k1] == idx[w1][k1] && nidx[w2][k2] == idx[w2][k2]);
        } else if w1 < nw {
            assert(u0[idx[w1][k1] as int]);
            assert(!u0[wi[k2] as int]);
        } else if w2 < nw {
            assert(u0[idx[w2][k2] as int]);
            assert(!u0[wi[k1] as int]);
        }
    }
    assert forall|j: int| 0 <= j < total.len() && u1[j] implies #[trigger] placed(nidx, j) by {
        if u0[j] {
            assert(placed(idx, j));
            let (w, k) = choose|w: int, k: int| 0 <= w < idx.len() && 0 <= k < idx[w].len() && #[trigger] idx[w][k] == j;
            assert(nidx[w][k] == j);
        } else {
            assert(wi.contains(j as usize));
            let k = choose|k: int| 0 <= k < wi.len() && wi[k] == j as usize;
            assert(nidx[nw][k] == j);
        }
    }
    assert forall|w: int| 0 <= w < nws.len() implies is_closed_chain(#[trigger] nws[w]) by {}
    assert forall|w: int| 0 <= w < nws.len() implies (#[trigger] nws[w]).len() > 0 && nws[w][0] == total[nidx[w][0] as int] by {}
    assert forall|w: int, k: int| 0 <= w < nws.len() && 1 <= k < nws[w].len() implies #[trigger] chosen_at(total, nws[w], nidx[w], k) by {
        if w < nw {
            assert(nws[w] == ws[w] && nidx[w] == idx[w]);
            assert(chosen_at(total, ws[w], idx[w], k));
        } else {
            assert(nws[w] == e && nidx[w] == wi);
            assert(chosen_at(total, e, wi, k));
        }
    }
    assert forall|w: int, w2: int, k2: int|
        #![trigger nidx[w][0], nidx[w2][k2]]
        0 <= w < nws.len() && 0 <= w2 < nws.len() && 0 <= k2 < nws[w2].len() && nidx[w2][k2] < nidx[w][0] implies w2 < w by {
        if w < nw && w2 < nw {
            assert(idx[w][0] == nidx[w][0] && idx[w2][k2] == nidx[w2][k2]);
        } else if w < nw {
            assert(total[wi[k2] as int] == total[wi[k2] as int]);
            assert(u0[wi[k2] as int]);
        } else if w2 == nw {
            assert(u0[wi[k2] as int]);
        }
    }
    assert forall|w: int, k: int, w2: int, k2: int|
        #![trigger nidx[w][k], nidx[w2][k2]]
        0 <= w < nws.len() && 1 <= k < nws[w].len() && 0 <= w2 < nws.len() && 0 <= k2 < nws[w2].len() && nidx[w2][k2]
            < nidx[w][k] && touches(total[nidx[w2][k2] as int], nws[w][k - 1].back) implies w2 < w || (w2 == w && k2 < k) by {
        if w < nw && w2 < nw {
            assert(idx[w][k] == nidx[w][k] && idx[w2][k2] == nidx[w2][k2]);
        } else if w < nw {
            assert(idx[w][k] == nidx[w][k]);
            assert(total[wi[k2] as int] == total[wi[k2] as int]);
            assert(u0[wi[k2] as int]);
        } else if w2 == nw {
            assert(wi[k] == wi[k] && wi[k2] == wi[k2]);
        }
    }
    assert forall|w: int, i: int| #![trigger nidx[w][0], total[i]] 0 <= w < nws.len() && 0 <= i < nidx[w][0] implies u1[i] by {
        if w < nw {
            assert(idx[w][0] == nidx[w][0]);
        }
    }
    assert forall|w: int, k: int, i: int|
        #![trigger nidx[w][k], total[i]]
        0 <= w < nws.len() && 1 <= k < nws[w].len() && 0 <= i < nidx[w][k] && touches(total[i], nws[w][k - 1].back) implies u1[i] by {
        if w < nw {
            assert(idx[w][k] == nidx[w][k]);
        } else {
            assert(wi[k] == wi[k]);
        }
    }
}

/// One walk: takes use `start` as it is, then, at the current end, the first
/// use not yet taken that touches it, turned to start there, until the walk is
/// back at its start. Returns the wire and the indices of its uses; `None`
/// when no use goes on, which happens only when some vertex is an end of an
/// odd number of the uses.
fn walk_from(total: &Vec<EdgeUse>, used: &mut Vec<bool>, start: usize) -> (r: Option<(Vec<EdgeUse>, Ghost<Seq<usize>>)>)
    requires
        old(used)@.len() == total@.len(),
        start < total@.len(),
        !old(used)@[start as int],
        forall|v: u64| #[trigger] used_ends(total@, old(used)@, v, total@.len() as int) % 2 == 0,
    ensures
        r is None ==> !all_even(total@),
        r matches Some((edges, widx)) ==> walk_step(total@, old(used)@, final(used)@, start as int, edges@, widx@) && forall|v: u64|
            #[trigger] used_ends(total@, final(used)@, v, total@.len() as int) % 2 == 0,
{
    let ghost t = total@;
    let tl = total.len();
    let ghost n = t.len();
    let ghost used0 = used@;
    assert(n == tl);
    let first = total[start];
    let start_vid = first.front;
    let mut current = first.back;
    proof {
        assert forall|v: u64| #[trigger] used_ends(t, used@.update(start as int, true), v, n as int) % 2 == (if (v == start_vid) != (v
            == current) {
            1int
        } else {
            0int
        }) by {
            lemma_used_ends_take(t, used@, v, start as int, n as int);
        }
    }
    used.set(start, true);
    let mut edges: Vec<EdgeUse> = Vec::new();
    edges.push(first);
    let ghost mut widx: Seq<usize> = seq![start];
    proof {
        assert(widx[0] == start);
        assert forall|j: int| 0 <= j < n implies (used@[j] <==> used0[j] || widx.contains(j as usize)) by {
            if j == start as int {
                assert(widx[0] == j as usize);
            }
        }
    }
    while current != start_vid
        invariant
            t == total@,
            n == t.len(),
            n <= usize::MAX,
            used@.len() == n,
            used0.len() == n,
            start < n,
            !used0[start as int],
            start_vid == t[start as int].front,
            widx.len() == edges@.len(),
            widx.len() >= 1,
            widx[0] == start,
            edges@[0] == t[start as int],
            widx.no_duplicates(),
            widx.len() <= n,
            forall|k: int| 0 <= k < widx.len() ==> #[trigger] widx[k] < n && !used0[widx[k] as int] && (edges@[k] == t[widx[k] as int]
                || edges@[k] == flip(t[widx[k] as int])),
            forall|j: int| 0 <= j < n ==> (used@[j] <==> used0[j] || widx.contains(j as usize)),
            forall|k: int| #![trigger edges@[k].back] 0 <= k < edges@.len() - 1 ==> edges@[k].back == edges@[k + 1].front,
            edges@.last().back == current,
            forall|k: int| 1 <= k < widx.len() ==> #[trigger] chosen_at(t, edges@, widx, k),
            forall|k: int, i: int|
                #![trigger widx[k], t[i]]
                1 <= k < widx.len() && 0 <= i < widx[k] && touches(t[i], edges@[k - 1].back) ==> used@[i],
            forall|k: int, k2: int|
                #![trigger widx[k], widx[k2]]
                1 <= k < widx.len() && 0 <= k2 < widx.len() && widx[k2] < widx[k] && touches(t[widx[k2] as int], edges@[k - 1].back)
                    ==> k2 < k,
            forall|v: u64|
                #[trigger] used_ends(t, used@, v, n as int) % 2 == (if (v == start_vid) != (v == current) {
                    1int
                } else {
                    0int
                }),
        decreases n - widx.len(),
    {
        match first_unused_touching(total, used, current) {
            Some(j) => {
                let u = total[j];
                let (e, other) = if u.front == current {
                    (u, u.back)
                } else {
                    (flip_use(u), u.front)
                };
                proof {
                    assert(!widx.contains(j)) by {
                        if widx.contains(j) {
                            let k = choose|k: int| 0 <= k < widx.len() && widx[k] == j;
                            assert(used@[widx[k] as int]);
                        }
                    }
                    assert(!used0[j as int]);
                    assert forall|v: u64| #[trigger] used_ends(t, used@.update(j as int, true), v, n as int) % 2 == (if (v
                        == start_vid) != (v == other) {
                        1int
                    } else {
                        0int
                    }) by {
                        lemma_used_ends_take(t, used@, v, j as int, n as int);
                    }
                }
                let ghost used_before = used@;
                used.set(j, true);
                let ghost e0 = edges@;
                edges.push(e);
                let ghost prev = current;
                current = other;
                proof {
                    let w0 = widx;
                    widx = widx.push(j);
                    assert forall|y: usize| widx.contains(y) <==> (w0.contains(y) || y == j) by {
                        crate::topology::lemma_push_contains_usize(w0, j, y);
                    }
                    assert forall|a: int, b: int| 0 <= a < b < widx.len() implies widx[a] != widx[b] by {
                        if b == w0.len() {
                            assert(w0.contains(widx[a]));
                        } else {
                            assert(widx[a] == w0[a] && widx[b] == w0[b]);
                        }
                    }
                    assert forall|k: int| 0 <= k < widx.len() implies #[trigger] widx[k] < n && !used0[widx[k] as int] && (
                    edges@[k] == t[widx[k] as int] || edges@[k] == flip(t[widx[k] as int])) by {
                        if k < w0.len() {
                            assert(widx[k] == w0[k]);
                            assert(edges@[k] == e0[k]);
                        }
                    }
                    assert forall|k: int| #![trigger edges@[k].back] 0 <= k < edges@.len() - 1 implies edges@[k].back
                        == edges@[k + 1].front by {
                        if k < e0.len() - 1 {
                            assert(edges@[k] == e0[k] && edges@[k + 1] == e0[k + 1]);
                        } else {
                            assert(edges@[k] == e0.last());
                        }
                    }
                    assert(edges@[w0.len() - 1] == e0.last());
                    assert forall|k: int| 1 <= k < widx.len() implies #[trigger] chosen_at(t, edges@, widx, k) by {
                        assert(edges@[0] == e0[0]);
                        if k < w0.len() {
                            assert(widx[k] == w0[k] && edges@[k] == e0[k] && edges@[k - 1] == e0[k - 1]);
                            assert(chosen_at(t, e0, w0, k));
                        } else {
                            assert(edges@[k - 1].back == prev);
                            assert(widx[k] == j);
                        }
                    }
                    assert forall|k: int, i: int|
                        #![trigger widx[k], t[i]]
                        1 <= k < widx.len() && 0 <= i < widx[k] && touches(t[i], edges@[k - 1].back) implies used@[i] by {
                        if k < w0.len() {
                            assert(widx[k] == w0[k] && edges@[k - 1] == e0[k - 1]);
                            assert(used_before[i]);
                        } else {
                            assert(edges@[k - 1].back == prev);
                        }
                    }
                    assert forall|k: int, k2: int|
                        #![trigger widx[k], widx[k2]]
                        1 <= k < widx.len() && 0 <= k2 < widx.len() && widx[k2] < widx[k] && touches(
                            t[widx[k2] as int],
                            edges@[k - 1].back,
                        ) implies k2 < k by {
                        if k < w0.len() {
                            assert(widx[k] == w0[k] && edges@[k - 1] == e0[k - 1]);
                            if k2 == w0.len() {
                                assert(widx[k2] == j);
                                assert(used_before[j as int]);
                            } else {
                                assert(widx[k2] == w0[k2]);
                            }
                        }
                    }
                    lemma_distinct_below(widx, n as nat);
                }
            },
            None => {
                proof {
                    lemma_used_ends_all(t, used@, current, n as int);
                    assert(degree(t, current) % 2 != 0);
                }
                return None;
            },
        }
    }
    proof {
        assert(is_closed_chain(edges@));
    }
    Some((edges, Ghost(widx)))
}


/// The first `w` wires and their indices agree.
spec fn agree_upto(ws1: Seq<Seq<EdgeUse>>, idx1: Seq<Seq<usize>>, ws2: Seq<Seq<EdgeUse>>, idx2: Seq<Seq<usize>>, w: int) -> bool {
    forall|v: int| 0 <= v < w ==> #[trigger] ws1[v] == ws2[v] && idx1[v] == idx2[v]
}

proof fn lemma_first_choice_agrees(
    total: Seq<EdgeUse>,
    ws1: Seq<Seq<EdgeUse>>,
    idx1: Seq<Seq<usize>>,
    ws2: Seq<Seq<EdgeUse>>,
    idx2: Seq<Seq<usize>>,
    w: int,
)
    requires
        places_once(total, ws1, idx1),
        walked_in_order(total, ws1, idx1),
        places_once(total, ws2, idx2),
        walked_in_order(total, ws2, idx2),
        0 <= w < ws1.len(),
        w < ws2.len(),
        agree_upto(ws1, idx1, ws2, idx2, w),
    ensures
        idx1[w][0] == idx2[w][0],
{
    let a = idx1[w][0];
    let b = idx2[w][0];
    assert(ws1[w].len() > 0 && ws2[w].len() > 0);
    if a < b {
        assert(placed(idx2, a as int));
        let (w2, k2) = choose|w2: int, k2: int| 0 <= w2 < idx2.len() && 0 <= k2 < idx2[w2].len() && #[trigger] idx2[w2][k2] == a as int;
        assert(idx2[w2][k2] < idx2[w][0]);
        assert(w2 < w);
        assert(ws1[w2] == ws2[w2] && idx1[w2] == idx2[w2]);
        assert(idx1[w2][k2] == idx1[w][0]);
    } else if b < a {
        assert(placed(idx1, b as int));
        let (w2, k2) = choose|w2: int, k2: int| 0 <= w2 < idx1.len() && 0 <= k2 < idx1[w2].len() && #[trigger] idx1[w2][k2] == b as int;
        assert(idx1[w2][k2] < idx1[w][0]);
        assert(w2 < w);
        assert(ws1[w2] == ws2[w2] && idx1[w2] == idx2[w2]);
        assert(idx2[w2][k2] == idx2[w][0]);
    }
}

proof fn lemma_step_choice_agrees(
    total: Seq<EdgeUse>,
    ws1: Seq<Seq<EdgeUse>>,
    idx1: Seq<Seq<usize>>,
    ws2: Seq<Seq<EdgeUse>>,
    idx2: Seq<Seq<usize>>,
    w: int,
    k: int,
)
    requires
        places_once(total, ws1, idx1),
        walked_in_order(total, ws1, idx1),
        places_once(total, ws2, idx2),
        walked_in_order(total, ws2, idx2),
        0 <= w < ws1.len(),
        w < ws2.len(),
        agree_upto(ws1, idx1, ws2, idx2, w),
        1 <= k < ws1[w].len(),
        k < ws2[w].len(),
        forall|j: int| 0 <= j < k ==> #[trigger] idx1[w][j] == idx2[w][j] && ws1[w][j] == ws2[w][j],
    ensures
        idx1[w][k] == idx2[w][k],
        ws1[w][k] == ws2[w][k],
{
    let a = idx1[w][k];
    let b = idx2[w][k];
    assert(chosen_at(total, ws1[w], idx1[w], k));
    assert(chosen_at(total, ws2[w], idx2[w], k));
    assert(idx1[w][k - 1] == idx2[w][k - 1] && ws1[w][k - 1] == ws2[w][k - 1]);
    let c = ws1[w][k - 1].back;
    if a < b {
        assert(placed(idx2, a as int));
        let (w2, k2) = choose|w2: int, k2: int| 0 <= w2 < idx2.len() && 0 <= k2 < idx2[w2].len() && #[trigger] idx2[w2][k2] == a as int;
        assert(idx2[w2][k2] < idx2[w][k] && touches(total[idx2[w2][k2] as int], ws2[w][k - 1].back));
        assert(w2 < w || (w2 == w && k2 < k));
        if w2 < w {
            assert(ws1[w2] == ws2[w2] && idx1[w2] == idx2[w2]);
            assert(idx1[w2][k2] == idx1[w][k]);
        } else {
            assert(idx1[w][k2] == idx2[w][k2]);
            assert(idx1[w][k2] == idx1[w][k]);
        }
    } else if b < a {
        assert(placed(idx1, b as int));
        let (w2, k2) = choose|w2: int, k2: int| 0 <= w2 < idx1.len() && 0 <= k2 < idx1[w2].len() && #[trigger] idx1[w2][k2] == b as int;
        assert(idx1[w2][k2] < idx1[w][k] && touches(total[idx1[w2][k2] as int], ws1[w][k - 1].back));
        assert(w2 < w || (w2 == w && k2 < k));
        if w2 < w {
            assert(ws1[w2] == ws2[w2] && idx1[w2] == idx2[w2]);
            assert(idx2[w2][k2] == idx2[w][k]);
        } else {
            assert(idx1[w][k2] == idx2[w][k2]);
            assert(idx2[w][k2] == idx2[w][k]);
        }
    }
}

proof fn lemma_wire_agrees(
    total: Seq<EdgeUse>,
    ws1: Seq<Seq<EdgeUse>>,
    idx1: Seq<Seq<usize>>,
    ws2: Seq<Seq<EdgeUse>>,
    idx2: Seq<Seq<usize>>,
    w: int,
    k: int,
)
    requires
        places_once(total, ws1, idx1),
        walked_in_order(total, ws1, idx1),
        places_once(total, ws2, idx2),
        walked_in_order(total, ws2, idx2),
        0 <= w < ws1.len(),
        w < ws2.len(),
        agree_upto(ws1, idx1, ws2, idx2, w),
        0 <= k <= ws1[w].len(),
        k <= ws2[w].len(),
    ensures
        forall|j: int|
            #![trigger idx1[w][j]]
            #![trigger ws1[w][j]]
            0 <= j < k ==> idx1[w][j] == idx2[w][j] && ws1[w][j] == ws2[w][j],
    decreases k,
{
    if k > 0 {
        lemma_wire_agrees(total, ws1, idx1, ws2, idx2, w, k - 1);
        if k - 1 == 0 {
            lemma_first_choice_agrees(total, ws1, idx1, ws2, idx2, w);
            assert(ws1[w][0] == total[idx1[w][0] as int] && ws2[w][0] == total[idx2[w][0] as int]);
        } else {
            lemma_step_choice_agrees(total, ws1, idx1, ws2, idx2, w, k - 1);
        }
    }
}

proof fn lemma_wires_agree(
    total: Seq<EdgeUse>,
    ws1: Seq<Seq<EdgeUse>>,
    idx1: Seq<Seq<usize>>,
    ws2: Seq<Seq<EdgeUse>>,
    idx2: Seq<Seq<usize>>,
    w: int,
)
    requires
        places_once(total, ws1, idx1),
        walked_in_order(total, ws1, idx1),
        places_once(total, ws2, idx2),
        walked_in_order(total, ws2, idx2),
        0 <= w <= ws1.len(),
        w <= ws2.len(),
    ensures
        agree_upto(ws1, idx1, ws2, idx2, w),
    decreases w,
{
    if w > 0 {
        let v = w - 1;
        lemma_wires_agree(total, ws1, idx1, ws2, idx2, v);
        let l1 = ws1[v].len() as int;
        let l2 = ws2[v].len() as int;
        let m = if l1 < l2 { l1 } else { l2 };
        lemma_wire_agrees(total, ws1, idx1, ws2, idx2, v, m);
        assert(is_closed_chain(ws1[v]) && is_closed_chain(ws2[v]));
        assert(ws1[v][0] == ws2[v][0]);
        if l1 < l2 {
            assert(chosen_at(total, ws2[v], idx2[v], l1));
            assert(idx1[v][l1 - 1] == idx2[v][l1 - 1]);
            assert(ws1[v][l1 - 1] == ws2[v][l1 - 1]);
        } else if l2 < l1 {
            assert(chosen_at(total, ws1[v], idx1[v], l2));
            assert(idx1[v][l2 - 1] == idx2[v][l2 - 1]);
            assert(ws1[v][l2 - 1] == ws2[v][l2 - 1]);
        }
        assert(ws1[v] =~= ws2[v]);
        assert(idx1[v] =~= idx2[v]);
        assert forall|u: int| 0 <= u < w implies #[trigger] ws1[u] == ws2[u] && idx1[u] == idx2[u] by {
            if u < v {
                assert(ws1[u] == ws2[u] && idx1[u] == idx2[u]);
            }
        }
    }
}

/// The walks leave no choice: two lists of wires that both come from walking
/// the same uses are equal.
pub proof fn walk_result_is_unique(total: Seq<EdgeUse>, ws1: Seq<Seq<EdgeUse>>, ws2: Seq<Seq<EdgeUse>>)
    requires
        walk_result(total, ws1),
        walk_result(total, ws2),
    ensures
        ws1 == ws2,
{
    let idx1 = choose|idx: Seq<Seq<usize>>| #[trigger] places_once(total, ws1, idx) && walked_in_order(total, ws1, idx);
    let idx2 = choose|idx: Seq<Seq<usize>>| #[trigger] places_once(total, ws2, idx) && walked_in_order(total, ws2, idx);
    let n = if ws1.len() < ws2.len() { ws1.len() as int } else { ws2.len() as int };
    lemma_wires_agree(total, ws1, idx1, ws2, idx2, n);
    if ws1.len() < ws2.len() {
        assert(ws2[n].len() > 0);
        let a = idx2[n][0];
        assert(placed(idx1, a as int));
        let (w2, k2) = choose|w2: int, k2: int| 0 <= w2 < idx1.len() && 0 <= k2 < idx1[w2].len() && #[trigger] idx1[w2][k2] == a as int;
        assert(ws1[w2] == ws2[w2] && idx1[w2] == idx2[w2]);
        assert(idx2[w2][k2] == idx2[n][0]);
    } else if ws2.len() < ws1.len() {
        assert(ws1[n].len() > 0);
        let a = idx1[n][0];
        assert(placed(idx2, a as int));
        let (w2, k2) = choose|w2: int, k2: int| 0 <= w2 < idx2.len() && 0 <= k2 < idx2[w2].len() && #[trigger] idx2[w2][k2] == a as int;
        assert(ws1[w2] == ws2[w2] && idx1[w2] == idx2[w2]);
        assert(idx1[w2][k2] == idx1[n][0]);
    }
    assert forall|u: int| 0 <= u < ws1.len() implies #[trigger] ws1[u] == ws2[u] by {
        assert(ws1[u] == ws2[u] && idx1[u] == idx2[u]);
    }
    assert(ws1 =~= ws2);
}

/// Bridges the gaps and chains all uses into closed wires. Each gap becomes
/// a new edge from its first vertex to its second, with the next identity of
/// the sequence; `None` when the wires hold no use or a gap joins a vertex to
/// itself. Then, from each use not yet taken, in order, a walk takes it as it
/// is and, at its current end, the first use not yet taken that touches that
/// end, turned to start there, until it is back at its start; `None` as soon
/// as a walk finds no use to go on with, which happens exactly when some
/// vertex is an end of an odd number of the uses. The wires are the walks'
/// (see `walk_result`, which admits one result only). When it gives `None`
/// the sequence is left as it was.
pub fn fill_gaps_and_chain(wires: &Vec<Vec<EdgeUse>>, gaps: &Vec<(u64, u64)>, seq: &mut IdSequence) -> (r: Option<
    Vec<Vec<EdgeUse>>,
>)
    ensures
        pool(wires_view(wires@)).len() == 0 ==> r is None && final(seq).value() == old(seq).value(),
        (exists|i: int| 0 <= i < gaps@.len() && (#[trigger] gaps@[i]).0 == gaps@[i].1) ==> r is None,
        r matches Some(out) ==> {
            &&& final(seq).value() == successor_n(old(seq).value(), gaps@.len() as nat)
            &&& forall|w: int| 0 <= w < out@.len() ==> is_closed_chain((#[trigger] out@[w])@)
            &&& walk_result(pool(wires_view(wires@)) + gap_uses(gaps@, old(seq).value()), wires_view(out@))
            &&& all_even(pool(wires_view(wires@)) + gap_uses(gaps@, old(seq).value()))
        },
        pool(wires_view(wires@)).len() > 0 && (forall|i: int| 0 <= i < gaps@.len() ==> (#[trigger] gaps@[i]).0 != gaps@[i].1)
            && all_even(pool(wires_view(wires@)) + gap_uses(gaps@, old(seq).value())) ==> r is Some,
        r is None ==> final(seq).value() == old(seq).value(),
{
    let mut trial = seq.snapshot();
    let r = chain_with_gaps(wires, gaps, &mut trial);
    if r.is_some() {
        *seq = trial;
    }
    r
}

/// Bridges the gaps and chains the uses (see `fill_gaps_and_chain`),
/// drawing the gap edges' identities from `seq` even when it fails.
fn chain_with_gaps(wires: &Vec<Vec<EdgeUse>>, gaps: &Vec<(u64, u64)>, seq: &mut IdSequence) -> (r: Option<
    Vec<Vec<EdgeUse>>,
>)
    ensures
        pool(wires_view(wires@)).len() == 0 ==> r is None && final(seq).value() == old(seq).value(),
        (exists|i: int| 0 <= i < gaps@.len() && (#[trigger] gaps@[i]).0 == gaps@[i].1) ==> r is None,
        r matches Some(out) ==> {
            &&& final(seq).value() == successor_n(old(seq).value(), gaps@.len() as nat)
            &&& forall|w: int| 0 <= w < out@.len() ==> is_closed_chain((#[trigger] out@[w])@)
            &&& walk_result(pool(wires_view(wires@)) + gap_uses(gaps@, old(seq).value()), wires_view(out@))
            &&& all_even(pool(wires_view(wires@)) + gap_uses(gaps@, old(seq).value()))
        },
        pool(wires_view(wires@)).len() > 0 && (forall|i: int| 0 <= i < gaps@.len() ==> (#[trigger] gaps@[i]).0 != gaps@[i].1)
            && all_even(pool(wires_view(wires@)) + gap_uses(gaps@, old(seq).value())) ==> r is Some,
{
    let ghost seq0 = seq.value();
    let all = pool_of(wires);
    if all.len() == 0 {
        return None;
    }
    let mut total = all;
    let ghost base = total@;
    let mut g: usize = 0;
    while g < gaps.len()
        invariant
            base == pool(wires_view(wires@)),
            base.len() > 0,
            g <= gaps@.len(),
            total@ == base + gap_uses(gaps@, seq0).take(g as int),
            seq.value() == successor_n(seq0, g as nat),
            forall|i: int| 0 <= i < g ==> (#[trigger] gaps@[i]).0 != gaps@[i].1,
        decreases gaps@.len() - g,
    {
        let (a, b) = gaps[g];
        if a == b {
            return None;
        }
        let id = next_sequential_id(seq);
        total.push(EdgeUse { edge: id, front: a, back: b, forward: true });
        proof {
            let gu = gap_uses(gaps@, seq0);
            assert(gu.take(g + 1) =~= gu.take(g as int).push(gu[g as int]));
        }
        g = g + 1;
    }
    assert(gap_uses(gaps@, seq0).take(gaps@.len() as int) =~= gap_uses(gaps@, seq0));
    let ghost t = total@;
    let n = total.len();
    let mut used: Vec<bool> = Vec::new();
    let mut i: usize = 0;
    while i < n
        invariant
            i <= n,
            used@.len() == i,
            forall|j: int| 0 <= j < i ==> !used@[j],
        decreases n - i,
    {
        used.push(false);
        i = i + 1;
    }
    proof {
        assert forall|v: u64| #[trigger] used_ends(t, used@, v, n as int) % 2 == 0 by {
            lemma_used_ends_none(t, used@, v, n as int);
        }
    }
    let mut out: Vec<Vec<EdgeUse>> = Vec::new();
    let ghost mut lidx: Seq<Seq<usize>> = Seq::empty();
    proof {
        assert(built(t, wires_view(out@), lidx, used@));
    }
    let mut start: usize = 0;
    while start < n
        invariant
            t == total@,
            t == base + gap_uses(gaps@, seq0),
            base == pool(wires_view(wires@)),
            base.len() > 0,
            seq0 == old(seq).value(),
            n == t.len(),
            used@.len() == n,
            start <= n,
            forall|j: int| 0 <= j < start ==> used@[j],
            built(t, wires_view(out@), lidx, used@),
            forall|v: u64| #[trigger] used_ends(t, used@, v, n as int) % 2 == 0,
        decreases n - start,
    {
        if !used[start] {
            let ghost used0 = used@;
            match walk_from(&total, &mut used, start) {
                None => {
                    return None;
                },
                Some((edges, widx_g)) => {
                    let ghost ws0 = wires_view(out@);
                    let ghost ne = edges@;
                    out.push(edges);
                    proof {
                        lemma_built_push(t, ws0, lidx, used0, used@, start as int, ne, widx_g@);
                        assert(wires_view(out@) =~= ws0.push(ne));
                        lidx = lidx.push(widx_g@);
                        assert(widx_g@.contains(start));
                    }
                },
            }
        }
        start = start + 1;
    }
    proof {
        let ws = wires_view(out@);
        assert(places_once(t, ws, lidx)) by {
            assert forall|j: int| 0 <= j < t.len() implies #[trigger] placed(lidx, j) by {
                assert(used@[j]);
            }
        }
        assert(walk_result(t, ws));
        assert forall|w: int| 0 <= w < out@.len() implies is_closed_chain((#[trigger] out@[w])@) by {
            assert(ws[w] == out@[w]@);
        }
        assert forall|v: u64| #[trigger] degree(t, v) % 2 == 0 by {
            assert(used_ends(t, used@, v, n as int) % 2 == 0);
            lemma_used_ends_all(t, used@, v, n as int);
        }
    }
    Some(out)
}

/// The ends of the gaps in order: both ends of the first gap, then both
/// ends of the second, and so on.
pub open spec fn gap_ends(gaps: Seq<(u64, u64)>) -> Seq<u64> {
    Seq::new((2 * gaps.len()) as nat, |k: int| if k % 2 == 0 { gaps[k / 2].0 } else { gaps[k / 2].1 })
}

/// The vertices that end exactly one use of the wires (the open ends).
pub open spec fn open_ends(ws: Seq<Seq<EdgeUse>>) -> Set<u64> {
    Set::new(|v: u64| degree(pool(ws), v) == 1)
}

/// The gaps pair off the open ends of the wires: each gap joins two open
/// ends, no open end belongs to two gaps, and every open end belongs to one.
pub open spec fn pairs_open_ends(ws: Seq<Seq<EdgeUse>>, gaps: Seq<(u64, u64)>) -> bool {
    let e = gap_ends(gaps);
    &&& e.no_duplicates()
    &&& forall|k: int| 0 <= k < e.len() ==> open_ends(ws).contains(#[trigger] e[k])
    &&& forall|v: u64| open_ends(ws).contains(v) ==> e.contains(v)
}

/// Whether `x` occurs in `s`.
fn holds_vertex(s: &Vec<u64>, x: u64) -> (r: bool)
    ensures
        r <==> s@.contains(x),
{
    let mut j: usize = 0;
    while j < s.len()
        invariant
            j <= s@.len(),
            forall|k: int| 0 <= k < j ==> s@[k] != x,
        decreases s@.len() - j,
    {
        if s[j] == x {
            return true;
        }
        j = j + 1;
    }
    false
}

/// Whether no entry of `s` occurs twice.
fn all_distinct(s: &Vec<u64>) -> (r: bool)
    ensures
        r <==> s@.no_duplicates(),
{
    let mut i: usize = 0;
    while i < s.len()
        invariant
            i <= s@.len(),
            forall|a: int, b: int| 0 <= a < b < i ==> s@[a] != s@[b],
        decreases s@.len() - i,
    {
        let mut j: usize = 0;
        while j < i
            invariant
                i < s@.len(),
                j <= i,
                forall|a: int| 0 <= a < j ==> s@[a] != s@[i as int],
            decreases i - j,
        {
            if s[j] == s[i] {
                return false;
            }
            j = j + 1;
        }
        i = i + 1;
    }
    true
}

/// Rebuilds closed wires from wires broken by short gaps, given the pairing
/// of their open ends that the caller chose (by distance): `None` when the
/// wires hold no edge, when the number of open ends is odd, or when the gaps
/// do not pair off the open ends (see `pairs_open_ends`); otherwise the gaps
/// are bridged by new edges and the uses chained into closed wires (see
/// `fill_gaps_and_chain`), which fails exactly when some vertex is still an
/// end of an odd number of uses.
pub fn repair_with_gaps(wires: &Vec<Vec<EdgeUse>>, gaps: &Vec<(u64, u64)>, seq: &mut IdSequence) -> (r: Option<
    Vec<Vec<EdgeUse>>,
>)
    ensures
        open_ends(wires_view(wires@)).finite(),
        open_ends(wires_view(wires@)).len() % 2 == 1 ==> r is None,
        r is Some <==> {
            &&& pool(wires_view(wires@)).len() > 0
            &&& open_ends(wires_view(wires@)).len() % 2 == 0
            &&& pairs_open_ends(wires_view(wires@), gaps@)
            &&& all_even(pool(wires_view(wires@)) + gap_uses(gaps@, old(seq).value()))
        },
        r matches Some(out) ==> {
            &&& final(seq).value() == successor_n(old(seq).value(), gaps@.len() as nat)
            &&& forall|w: int| 0 <= w < out@.len() ==> is_closed_chain((#[trigger] out@[w])@)
            &&& walk_result(pool(wires_view(wires@)) + gap_uses(gaps@, old(seq).value()), wires_view(out@))
        },
        r is None ==> final(seq).value() == old(seq).value(),
{
    let ghost ws = wires_view(wires@);
    let ends = degree_one_vertices(wires);
    proof {
        assert(ends@.no_duplicates()) by {
            assert forall|a: int, b: int| 0 <= a < ends@.len() && 0 <= b < ends@.len() && a != b implies ends@[a] != ends@[b] by {
                if a < b {
                    assert(ends@[a] < ends@[b]);
                } else {
                    assert(ends@[b] < ends@[a]);
                }
            }
        }
        ends@.unique_seq_to_set();
        vstd::seq_lib::seq_to_set_is_finite::<u64>(ends@);
        assert(ends@.to_set() =~= open_ends(ws));
    }
    if ends.len() % 2 != 0 {
        return None;
    }
    let mut e: Vec<u64> = Vec::new();
    let mut i: usize = 0;
    while i < gaps.len()
        invariant
            i <= gaps@.len(),
            e@ == gap_ends(gaps@).take(2 * i),
        decreases gaps@.len() - i,
    {
        let (a, b) = gaps[i];
        e.push(a);
        e.push(b);
        assert(e@ =~= gap_ends(gaps@).take(2 * (i + 1)));
        i = i + 1;
    }
    assert(e@ =~= gap_ends(gaps@));
    if !all_distinct(&e) {
        return None;
    }
    let mut k: usize = 0;
    while k < e.len()
        invariant
            k <= e@.len(),
            e@ == gap_ends(gaps@),
            e@.no_duplicates(),
            ws == wires_view(wires@),
            open_ends(ws).finite(),
            open_ends(ws).len() == ends@.len(),
            ends@.len() % 2 == 0,
            ends@.to_set() == open_ends(ws),
            forall|j: int| 0 <= j < k ==> open_ends(ws).contains(#[trigger] e@[j]),
        decreases e@.len() - k,
    {
        if !holds_vertex(&ends, e[k]) {
            assert(!open_ends(ws).contains(e@[k as int]));
            return None;
        }
        k = k + 1;
    }
    let mut j: usize = 0;
    while j < ends.len()
        invariant
            j <= ends@.len(),
            e@ == gap_ends(gaps@),
            e@.no_duplicates(),
            ws == wires_view(wires@),
            open_ends(ws).finite(),
            open_ends(ws).len() == ends@.len(),
            ends@.len() % 2 == 0,
            forall|m: int| 0 <= m < e@.len() ==> open_ends(ws).contains(#[trigger] e@[m]),
            ends@.to_set() == open_ends(ws),
            forall|m: int| 0 <= m < j ==> e@.contains(#[trigger] ends@[m]),
        decreases ends@.len() - j,
    {
        if !holds_vertex(&e, ends[j]) {
            assert(open_ends(ws).contains(ends@[j as int]));
            return None;
        }
        j = j + 1;
    }
    proof {
        assert forall|v: u64| open_ends(ws).contains(v) implies e@.contains(v) by {
            assert(ends@.to_set().contains(v));
            let m = choose|m: int| 0 <= m < ends@.len() && ends@[m] == v;
            assert(e@.contains(ends@[m]));
        }
        assert(pairs_open_ends(ws, gaps@));
        assert forall|g: int| 0 <= g < gaps@.len() implies (#[trigger] gaps@[g]).0 != gaps@[g].1 by {
            assert(e@[2 * g] == gaps@[g].0);
            assert(e@[2 * g + 1] == gaps@[g].1);
        }
    }
    fill_gaps_and_chain(wires, gaps, seq)
}

} // verus!

verus! {

/// A use taken along its edge's own direction.
pub open spec fn absolute_use(u: EdgeUse) -> EdgeUse {
    if u.forward {
        u
    } else {
        EdgeUse { edge: u.edge, front: u.back, back: u.front, forward: true }
    }
}

/// The wires with every use taken along its edge's own direction.
pub open spec fn absolute_wires(ws: Seq<Seq<EdgeUse>>) -> Seq<Seq<EdgeUse>> {
    Seq::new(ws.len(), |w: int| Seq::new(ws[w].len(), |k: int| absolute_use(ws[w][k])))
}

/// Rebuilds closed wires from the edges of the wires, each taken along its
/// own direction: from each edge not yet taken, in order, a walk takes it as
/// it is and, at its current end, the first edge not yet taken that touches
/// that end, turned to start there, until it is back at its start. `None`
/// when the wires hold no edge or a walk gets stuck — which happens exactly
/// when some vertex is an end of an odd number of the edges. (A step to an
/// edge that merely lies near the current end would break the chain, so the
/// wires never depend on positions.)
pub fn rebuild_connected_wires(wires: &Vec<Vec<EdgeUse>>) -> (r: Option<Vec<Vec<EdgeUse>>>)
    ensures
        r is Some <==> pool(absolute_wires(wires_view(wires@))).len() > 0 && all_even(pool(absolute_wires(wires_view(wires@)))),
        r matches Some(out) ==> walk_result(pool(absolute_wires(wires_view(wires@))), wires_view(out@)),
{
    let ghost ws = wires_view(wires@);
    let mut abs: Vec<Vec<EdgeUse>> = Vec::new();
    let mut i: usize = 0;
    while i < wires.len()
        invariant
            ws == wires_view(wires@),
            i <= wires@.len(),
            abs@.len() == i,
            forall|w: int| 0 <= w < i ==> (#[trigger] abs@[w])@ == absolute_wires(ws)[w],
        decreases wires@.len() - i,
    {
        let wire = &wires[i];
        assert(wire@ == ws[i as int]);
        let mut aw: Vec<EdgeUse> = Vec::new();
        let mut k: usize = 0;
        while k < wire.len()
            invariant
                k <= wire@.len(),
                aw@.len() == k,
                forall|j: int| 0 <= j < k ==> #[trigger] aw@[j] == absolute_use(wire@[j]),
            decreases wire@.len() - k,
        {
            let u = wire[k];
            if u.forward {
                aw.push(u);
            } else {
                aw.push(EdgeUse { edge: u.edge, front: u.back, back: u.front, forward: true });
            }
            k = k + 1;
        }
        assert(aw@ =~= absolute_wires(ws)[i as int]);
        abs.push(aw);
        i = i + 1;
    }
    assert(wires_view(abs@) =~= absolute_wires(ws));
    let no_gaps: Vec<(u64, u64)> = Vec::new();
    let mut seq = IdSequence::new();
    let ghost s0 = seq.value();
    let r = fill_gaps_and_chain(&abs, &no_gaps, &mut seq);
    proof {
        let p = pool(absolute_wires(ws));
        assert(p + gap_uses(no_gaps@, s0) =~= p);
    }
    r
}

} // verus!
